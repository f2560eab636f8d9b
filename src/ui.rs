use vstd::prelude::*;

use rand::Rng;

use crate::push_char;

verus! {

/// A line of the message list.
#[derive(Debug)]
pub enum Message {
    /// A line from the node itself.
    System(String),
    /// A chat line.
    User(String),
}

impl Message {
    /// The text of the line.
    pub fn str(&self) -> (r: &str)
        ensures
            r@ == match self {
                Message::System(s) => s@,
                Message::User(s) => s@,
            },
    {
        match self {
            Message::System(s) => s.as_str(),
            Message::User(s) => s.as_str(),
        }
    }
}

/// A character of `[A-Za-z0-9]`.
pub open spec fn is_alphanumeric(c: char) -> bool {
    ('A' <= c <= 'Z') || ('a' <= c <= 'z') || ('0' <= c <= '9')
}

/// Relies on rand's `Alphanumeric` distribution: one character drawn from `[A-Za-z0-9]`.
#[verifier::external_body]
fn random_alphanumeric() -> (c: char)
    ensures
        is_alphanumeric(c),
{
    rand::thread_rng().sample(rand::distributions::Alphanumeric)
}

/// A random node id of eight characters of `[A-Za-z0-9]`.
pub fn random_app_id() -> (r: String)
    ensures
        r@.len() == 8,
        forall|i: int| 0 <= i < 8 ==> is_alphanumeric(#[trigger] r@[i]),
{
    let mut id = String::new();
    let mut i: usize = 0;
    while i < 8
        invariant
            i <= 8,
            id@.len() == i,
            forall|j: int| 0 <= j < i ==> is_alphanumeric(#[trigger] id@[j]),
        decreases 8 - i,
    {
        let c = random_alphanumeric();
        push_char(&mut id, c);
        i = i + 1;
    }
    id
}

/// The state of the user interface.
pub struct App {
    /// The node's id.
    pub id: String,
    /// The lines received or sent so far, oldest first.
    pub messages: Vec<Message>,
    /// What the user is typing.
    pub input: String,
    /// How many of the newest lines are scrolled past.
    pub first_display_message_id: usize,
    /// To whom private messages go.
    pub private_recipient_id: String,
}

pub open spec fn no_one() -> Seq<char> {
    seq!['n', 'o', ' ', 'o', 'n', 'e']
}

impl App {
    /// An interface for node `id`, with nothing typed or shown, and no recipient chosen.
    pub fn new(id: String) -> (r: App)
        ensures
            r.id == id,
            r.messages@.len() == 0,
            r.input@.len() == 0,
            r.first_display_message_id == 0,
            r.private_recipient_id@ == no_one(),
    {
        let who = "no one".to_owned();
        proof {
            reveal_strlit("no one");
            assert(who@ =~= no_one());
        }
        App {
            id,
            messages: Vec::new(),
            input: String::new(),
            first_display_message_id: 0,
            private_recipient_id: who,
        }
    }

    /// Scrolls one line towards the newest.
    pub fn scroll_up(&mut self)
        ensures
            final(self).first_display_message_id == if old(self).first_display_message_id > 0 {
                (old(self).first_display_message_id - 1) as usize
            } else {
                0
            },
            final(self).messages == old(self).messages,
    {
        if self.first_display_message_id > 0 {
            self.first_display_message_id = self.first_display_message_id - 1;
        }
    }

    /// Scrolls one line towards the oldest, while more than `shown` lines lie behind.
    pub fn scroll_down(&mut self, shown: usize)
        ensures
            ({
                let len = old(self).messages@.len();
                let most = if len > shown {
                    len - shown
                } else {
                    0
                };
                let next = old(self).first_display_message_id + 1;
                final(self).first_display_message_id == if next < most {
                    next
                } else {
                    most
                }
            }),
            final(self).messages == old(self).messages,
    {
        let len = self.messages.len();
        let most = if len > shown {
            len - shown
        } else {
            0
        };
        if self.first_display_message_id < most {
            self.first_display_message_id = self.first_display_message_id + 1;
        } else {
            self.first_display_message_id = most;
        }
    }

    /// Chooses the recipient of private messages: `typed` where it is not empty, else
    /// `last`, the last node that wrote privately.
    pub fn set_private_recipient(&mut self, typed: String, last: &String)
        ensures
            final(self).private_recipient_id@ == if typed@.len() > 0 {
                typed@
            } else {
                last@
            },
            final(self).messages == old(self).messages,
            final(self).id == old(self).id,
    {
        if !typed.as_str().is_empty() {
            self.private_recipient_id = typed;
        } else {
            self.private_recipient_id = last.clone();
        }
    }
}

impl Default for App {
    /// An interface for a node with a random id.
    fn default() -> (r: App)
        ensures
            r.id@.len() == 8,
            forall|i: int| 0 <= i < 8 ==> is_alphanumeric(#[trigger] r.id@[i]),
            r.messages@.len() == 0,
            r.input@.len() == 0,
            r.first_display_message_id == 0,
            r.private_recipient_id@ == no_one(),
    {
        App::new(random_app_id())
    }
}

} // verus!
