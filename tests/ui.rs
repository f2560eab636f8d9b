use netchat::ui::{random_app_id, App, Message};

#[test]
fn message_text() {
    assert_eq!(Message::System("Server: hi".to_string()).str(), "Server: hi");
    assert_eq!(Message::User("You: yo".to_string()).str(), "You: yo");
}

#[test]
fn random_ids_are_eight_alphanumerics() {
    let id = random_app_id();
    assert_eq!(id.chars().count(), 8);
    assert!(id.chars().all(|c| c.is_ascii_alphanumeric()));
    let app = App::default();
    assert_eq!(app.id.chars().count(), 8);
    assert_eq!(app.private_recipient_id, "no one");
}

#[test]
fn scrolling_stays_in_range() {
    let mut app = App::new("A".to_string());
    app.scroll_up();
    assert_eq!(app.first_display_message_id, 0);
    for k in 0..5 {
        app.messages.push(Message::User(format!("{}", k)));
    }
    app.scroll_down(3);
    app.scroll_down(3);
    app.scroll_down(3);
    assert_eq!(app.first_display_message_id, 2);
    app.scroll_up();
    assert_eq!(app.first_display_message_id, 1);
}

#[test]
fn private_recipient_falls_back_to_last_writer() {
    let mut app = App::new("A".to_string());
    app.set_private_recipient("B".to_string(), &"C".to_string());
    assert_eq!(app.private_recipient_id, "B");
    app.set_private_recipient(String::new(), &"C".to_string());
    assert_eq!(app.private_recipient_id, "C");
}
