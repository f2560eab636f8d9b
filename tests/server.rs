use std::collections::{HashMap, HashSet, VecDeque};

use netchat::clock::Clock;
use netchat::messages::{Header, Msg};
use netchat::server::{Action, AppEvent, Event, Server};
use netchat::snapshot::Snapshot;

fn s(x: &str) -> String {
    x.to_string()
}

fn clock_of(entries: &[(&str, u64)]) -> Clock {
    let mut c = Clock::empty();
    for (id, d) in entries {
        c.set(&s(id), *d);
    }
    c
}

fn line(m: &Msg) -> String {
    m.serialize().unwrap()
}

fn sent(actions: &[Action]) -> Vec<&Msg> {
    actions
        .iter()
        .filter_map(|a| match a {
            Action::Send(m) => Some(m),
            _ => None,
        })
        .collect()
}

fn node_at(id: &str, date: u64) -> Server {
    let mut n = Server::new(s(id));
    for k in 0..date {
        n.handle_with_id(Event::UserPublicMessage(s("warm up")), 1000 + k);
    }
    assert_eq!(n.get_date(), date);
    n
}

#[test]
fn clock_merge_on_receive() {
    let mut a = node_at("A", 3);
    let m = Msg::new(7, s("B"), Header::Public(s("hi")), clock_of(&[("B", 5), ("A", 1)]));
    let actions = a.receive_line(&line(&m), 99);
    assert_eq!(a.clock().get(&s("A")), Some(4));
    assert_eq!(a.clock().get(&s("B")), Some(5));
    assert_eq!(a.clock().len(), 2);
    assert_eq!(actions.len(), 2);
    let out = sent(&actions);
    assert_eq!(out.len(), 1);
    let decoded = Msg::from_str(&line(out[0])).unwrap();
    assert_eq!(decoded.id, 7);
    assert_eq!(decoded.sender_id, "B");
    assert_eq!(decoded.clock.get(&s("A")), Some(4));
    assert_eq!(decoded.clock.get(&s("B")), Some(5));
    match &actions[1] {
        Action::ToApp(AppEvent::DistantMessage(shown)) => assert_eq!(shown.id, 7),
        other => panic!("unexpected {:?}", other),
    }
}

#[test]
fn flood_deduplication() {
    let mut a = node_at("A", 3);
    let m = Msg::new(7, s("B"), Header::Public(s("hi")), clock_of(&[("B", 5), ("A", 1)]));
    let raw = line(&m);
    let first = a.receive_line(&raw, 99);
    assert_eq!(sent(&first).len(), 1);
    let second = a.receive_line(&raw, 98);
    assert!(second.is_empty());
    assert_eq!(a.clock().get(&s("A")), Some(4));
    assert_eq!(a.clock().get(&s("B")), Some(5));
}

#[test]
fn private_addressed_elsewhere() {
    let mut a = Server::new(s("A"));
    let before = a.saved_messages().len();
    let m = Msg::new(11, s("C"), Header::Private(s("B"), s("psst")), clock_of(&[("C", 1)]));
    let actions = a.receive_line(&line(&m), 99);
    assert_eq!(actions.len(), 1);
    let out = sent(&actions);
    assert_eq!(out[0].id, 11);
    assert_eq!(out[0].clock.get(&s("A")), Some(1));
    assert_eq!(out[0].clock.get(&s("C")), Some(1));
    assert_eq!(a.saved_messages().len(), before);
}

#[test]
fn private_addressed_to_self_is_kept() {
    let mut a = Server::new(s("A"));
    let m = Msg::new(12, s("C"), Header::Private(s("A"), s("hey")), clock_of(&[("C", 1)]));
    let actions = a.receive_line(&line(&m), 99);
    assert_eq!(actions.len(), 2);
    assert!(matches!(&actions[1], Action::ToApp(AppEvent::DistantMessage(x)) if x.id == 12));
    assert_eq!(a.saved_messages().len(), 1);
    assert_eq!(a.saved_messages()[0].id, 12);
}

#[test]
fn join_and_leave_notices() {
    let mut a = Server::new(s("A"));
    let join = Msg::new(20, s("Z"), Header::Connection, clock_of(&[("Z", 1)]));
    let actions = a.receive_line(&line(&join), 99);
    assert!(matches!(&actions[1], Action::ToApp(AppEvent::ServerMessage(t)) if t == "Z joined"));
    let leave = Msg::new(21, s("Z"), Header::Disconnection, clock_of(&[("Z", 2)]));
    let actions = a.receive_line(&line(&leave), 99);
    assert!(matches!(&actions[1], Action::ToApp(AppEvent::ServerMessage(t)) if t == "Z left"));
    assert_eq!(a.clock().get(&s("Z")), Some(2));
}

#[test]
fn bad_line_is_dropped() {
    let mut a = Server::new(s("A"));
    assert!(a.receive_line("", 5).is_empty());
    assert!(a.receive_line("{garbage", 5).is_empty());
    assert_eq!(a.get_date(), 0);
}

#[test]
fn own_sends_and_first_receives_advance_own_date() {
    let mut a = Server::new(s("A"));
    let mut last = a.get_date();
    let start = a.connect(1);
    assert!(matches!(&start[0], Action::Send(m) if m.header == Header::Connection && m.id == 1));
    assert!(a.get_date() > last);
    last = a.get_date();
    a.handle_with_id(Event::UserPublicMessage(s("one")), 2);
    assert!(a.get_date() > last);
    last = a.get_date();
    a.handle_with_id(Event::UserPrivateMessage(s("B"), s("two")), 3);
    assert!(a.get_date() > last);
    last = a.get_date();
    let m = Msg::new(40, s("B"), Header::Public(s("x")), clock_of(&[("B", 1), ("A", 100)]));
    a.receive_line(&line(&m), 4);
    assert!(a.get_date() > last);
    assert_eq!(a.get_date(), 100);
    last = a.get_date();
    a.receive_line(&line(&m), 5);
    assert_eq!(a.get_date(), last);
    let bye = a.handle_with_id(Event::Shutdown, 6);
    assert!(a.get_date() > last);
    assert!(matches!(&bye[0], Action::Send(m) if m.header == Header::Disconnection));
    assert!(matches!(&bye[1], Action::Stop));
}

#[test]
fn get_clock_displays_clock() {
    let a = node_at("A", 2);
    let actions = a.get_clock();
    match &actions[0] {
        Action::ToApp(AppEvent::DisplayClock(c)) => assert_eq!(c.get(&s("A")), Some(2)),
        other => panic!("unexpected {:?}", other),
    }
}

#[test]
fn handle_draws_fresh_ids() {
    let mut a = Server::new(s("A"));
    let actions = a.handle(Event::UserPublicMessage(s("hello")));
    let out = sent(&actions);
    assert_eq!(out.len(), 1);
    assert_eq!(out[0].sender_id, "A");
    assert_eq!(out[0].header, Header::Public(s("hello")));
    let start = a.start();
    assert_eq!(sent(&start)[0].header, Header::Connection);
    assert_eq!(a.get_date(), 2);
}

/// Three nodes, each of which has heard from the two others.
fn three_nodes() -> (Server, Server, Server) {
    let mut a = Server::new(s("A"));
    let mut b = Server::new(s("B"));
    let mut c = Server::new(s("C"));
    let from_b = b.handle_with_id(Event::UserPublicMessage(s("b says")), 1);
    let lb = line(sent(&from_b)[0]);
    a.receive_line(&lb, 900);
    c.receive_line(&lb, 901);
    let from_c = c.handle_with_id(Event::UserPublicMessage(s("c says")), 2);
    let lc = line(sent(&from_c)[0]);
    a.receive_line(&lc, 902);
    b.receive_line(&lc, 903);
    (a, b, c)
}

#[test]
fn snapshot_happy_path() {
    let (mut a, mut b, mut c) = three_nodes();
    let req = a.handle_with_id(Event::GetSnapshot, 50);
    assert_eq!(req.len(), 2);
    assert!(matches!(&req[1], Action::ArmSnapshotTimer));
    let req_line = line(sent(&req)[0]);
    let from_b = b.receive_line(&req_line, 60);
    let from_c = c.receive_line(&req_line, 70);
    let resp_b = sent(&from_b);
    let resp_c = sent(&from_c);
    assert_eq!(resp_b.len(), 2);
    assert!(matches!(&resp_b[1].header, Header::SnapshotResponse(r, _) if r == "A"));
    let after_b = a.receive_line(&line(resp_b[1]), 0);
    assert!(!after_b.iter().any(|x| matches!(x, Action::CompleteSnapshot)));
    let after_c = a.receive_line(&line(resp_c[1]), 0);
    assert!(matches!(after_c.last(), Some(Action::CompleteSnapshot)));
    let done = a.handle_with_id(Event::SnapshotTimeout, 0);
    assert_eq!(done.len(), 2);
    let snap = match &done[0] {
        Action::SaveSnapshot(snap) => snap,
        other => panic!("unexpected {:?}", other),
    };
    assert!(matches!(&done[1], Action::ToApp(AppEvent::ServerMessage(t)) if t == "Snapshot saved"));
    assert_eq!(snap.local_id(), "A");
    assert_eq!(snap.messages().len(), 3);
    let ids: Vec<u64> = snap.msg_history().iter().map(|m| m.id).collect();
    let unique: HashSet<u64> = ids.iter().cloned().collect();
    assert_eq!(ids.len(), unique.len());
    assert_eq!(unique, [1u64, 2, 50].iter().cloned().collect());
    let dates: Vec<u64> = snap.msg_history().iter().map(|m| m.clock.date(&s("A"))).collect();
    assert!(dates.windows(2).all(|w| w[0] <= w[1]));
    assert!(a.handle_with_id(Event::SnapshotTimeout, 0).is_empty());
}

#[test]
fn snapshot_timeout() {
    let (mut a, mut b, mut c) = three_nodes();
    let req = a.handle_with_id(Event::GetSnapshot, 50);
    let req_line = line(sent(&req)[0]);
    let from_b = b.receive_line(&req_line, 60);
    let from_c = c.receive_line(&req_line, 70);
    let after_b = a.receive_line(&line(sent(&from_b)[1]), 0);
    assert!(!after_b.iter().any(|x| matches!(x, Action::CompleteSnapshot)));
    let done = a.handle_with_id(Event::SnapshotTimeout, 0);
    let snap = match &done[0] {
        Action::SaveSnapshot(snap) => snap,
        other => panic!("unexpected {:?}", other),
    };
    let who: Vec<&str> = snap.messages().iter().map(|(id, _)| id.as_str()).collect();
    assert_eq!(who, vec!["A", "B"]);
    let late = a.receive_line(&line(sent(&from_c)[1]), 0);
    assert!(!late.iter().any(|x| matches!(x, Action::CompleteSnapshot | Action::SaveSnapshot(_))));
    assert!(a.handle_with_id(Event::SnapshotTimeout, 0).is_empty());
}

#[test]
fn causality_filtering() {
    let mut snap = Snapshot::start(s("A"), 2, &vec![]);
    let late = Msg::new(90, s("B"), Header::Public(s("late")), clock_of(&[("B", 9)]));
    let early = Msg::new(91, s("B"), Header::Public(s("early")), clock_of(&[("B", 5)]));
    let resp = Msg::new(
        92,
        s("B"),
        Header::SnapshotResponse(s("A"), vec![late, early]),
        clock_of(&[("B", 7)]),
    );
    snap.add(resp);
    assert_eq!(snap.dates().get(&s("B")), Some(7));
    snap.dump();
    let b_list = &snap.messages()[1];
    assert_eq!(b_list.0, "B");
    let kept: Vec<u64> = b_list.1.iter().map(|m| m.id).collect();
    assert_eq!(kept, vec![91]);
    let hist: Vec<u64> = snap.msg_history().iter().map(|m| m.id).collect();
    assert_eq!(hist, vec![91]);
}

#[test]
fn second_response_from_same_node_is_dropped() {
    let mut snap = Snapshot::new(s("A"));
    let one = Msg::new(1, s("B"), Header::Public(s("x")), clock_of(&[("B", 1)]));
    let first = Msg::new(
        2,
        s("B"),
        Header::SnapshotResponse(s("A"), vec![one]),
        clock_of(&[("B", 3)]),
    );
    let second = Msg::new(3, s("B"), Header::SnapshotResponse(s("A"), vec![]), clock_of(&[("B", 8)]));
    snap.add(first);
    snap.add(second);
    assert_eq!(snap.dates().get(&s("B")), Some(3));
    assert_eq!(snap.messages().len(), 1);
    assert_eq!(snap.messages()[0].1.len(), 1);
}

#[test]
fn history_is_deduplicated_and_sorted() {
    let m1 = Msg::new(1, s("B"), Header::Public(s("x")), clock_of(&[("A", 3), ("B", 1)]));
    let m2 = Msg::new(2, s("A"), Header::Public(s("y")), clock_of(&[("A", 1)]));
    let m1_again = Msg::new(1, s("B"), Header::Public(s("x")), clock_of(&[("A", 3), ("B", 1)]));
    let mut snap = Snapshot::start(s("A"), 5, &vec![m1, m2]);
    let resp = Msg::new(
        9,
        s("B"),
        Header::SnapshotResponse(s("A"), vec![m1_again]),
        clock_of(&[("B", 4)]),
    );
    snap.add(resp);
    snap.dump();
    let hist: Vec<u64> = snap.msg_history().iter().map(|m| m.id).collect();
    assert_eq!(hist, vec![2, 1]);
}

#[test]
fn merge_is_idempotent_and_symmetric() {
    let c = clock_of(&[("A", 3), ("B", 1)]);
    let mut cc = c.clone();
    cc.merge(&c);
    assert_eq!(cc, c);

    let a = clock_of(&[("A", 3), ("B", 1)]);
    let b = clock_of(&[("B", 4), ("C", 2)]);
    let mut ab = a.clone();
    ab.merge(&b);
    let mut ba = b.clone();
    ba.merge(&a);
    for id in ["A", "B", "C", "D"].iter() {
        assert_eq!(ab.get(&s(id)), ba.get(&s(id)));
    }
    assert_eq!(ab.get(&s("A")), Some(3));
    assert_eq!(ab.get(&s("B")), Some(4));
    assert_eq!(ab.get(&s("C")), Some(2));
    assert_eq!(ab.get(&s("D")), None);
}

#[test]
fn clock_basics() {
    let mut c = Clock::new(s("A"));
    assert_eq!(c.get(&s("A")), Some(0));
    assert_eq!(c.date(&s("Z")), 0);
    c.increment(&s("A"));
    c.increment(&s("Z"));
    assert_eq!(c.get(&s("A")), Some(1));
    assert_eq!(c.get(&s("Z")), Some(1));
    c.set(&s("A"), u64::MAX);
    c.increment(&s("A"));
    assert_eq!(c.get(&s("A")), Some(u64::MAX));
    assert!(c.has_distinct_keys());
    assert!(c.covered_by(&clock_of(&[("Z", 0), ("A", 0)])));
    assert!(!c.covered_by(&clock_of(&[("A", 0)])));
}

#[test]
fn public_messages_reach_every_peer_once() {
    let names = ["A", "B", "C", "D"];
    let mut nodes: Vec<Server> = names.iter().map(|n| Server::new(s(n))).collect();
    let mut queue: VecDeque<(usize, String)> = VecDeque::new();
    let mut shown: HashMap<(usize, u64), usize> = HashMap::new();
    let mut written: HashMap<(usize, u64), usize> = HashMap::new();
    let mut fresh = 500u64;
    for i in 0..nodes.len() {
        let out = nodes[i].handle_with_id(Event::UserPublicMessage(format!("from {}", names[i])), i as u64 + 1);
        for m in sent(&out) {
            *written.entry((i, m.id)).or_insert(0) += 1;
            for j in 0..nodes.len() {
                if j != i {
                    queue.push_back((j, line(m)));
                }
            }
        }
    }
    while let Some((j, l)) = queue.pop_front() {
        fresh += 1;
        let out = nodes[j].receive_line(&l, fresh);
        for a in &out {
            match a {
                Action::Send(m) => {
                    *written.entry((j, m.id)).or_insert(0) += 1;
                    for k in 0..nodes.len() {
                        if k != j {
                            queue.push_back((k, line(m)));
                        }
                    }
                }
                Action::ToApp(AppEvent::DistantMessage(m)) => {
                    *shown.entry((j, m.id)).or_insert(0) += 1;
                }
                _ => {}
            }
        }
    }
    for i in 0..names.len() {
        for sender in 0..names.len() {
            let id = sender as u64 + 1;
            let expected = if i == sender { None } else { Some(&1usize) };
            assert_eq!(shown.get(&(i, id)), expected);
        }
    }
    assert!(written.values().all(|&n| n == 1));
}

#[test]
fn history_ties_broken_by_sender_dates() {
    let m1 = Msg::new(1, s("B"), Header::Public(s("x")), clock_of(&[("A", 1), ("B", 2)]));
    let m2 = Msg::new(2, s("C"), Header::Public(s("y")), clock_of(&[("A", 1), ("B", 1), ("C", 1)]));
    let mut snap = Snapshot::start(s("A"), 5, &vec![m1, m2]);
    snap.dump();
    let hist: Vec<u64> = snap.msg_history().iter().map(|m| m.id).collect();
    assert_eq!(hist, vec![2, 1]);
}

#[test]
fn history_keeps_order_of_concurrent_messages() {
    let m3 = Msg::new(3, s("D"), Header::Public(s("z")), clock_of(&[("A", 1), ("D", 1)]));
    let m1 = Msg::new(1, s("B"), Header::Public(s("x")), clock_of(&[("A", 1), ("B", 2)]));
    let mut snap = Snapshot::start(s("A"), 5, &vec![m3, m1]);
    snap.dump();
    let hist: Vec<u64> = snap.msg_history().iter().map(|m| m.id).collect();
    assert_eq!(hist, vec![3, 1]);
}
