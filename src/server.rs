use vstd::prelude::*;

use std::collections::HashSet;

use crate::clock::{date_or_zero, entries_map, incremented, keys_distinct, merged, Clock, Entries};
use crate::codec::msg_text;
use crate::messages::{copy_all, lemma_msgs_view_push, msgs_view, Header, HeaderV, Msg, MsgV};
use crate::snapshot::{date_in, Snapshot};

verus! {

broadcast use vstd::std_specs::hash::group_hash_axioms;

/// What the node tells its user interface.
#[derive(Debug)]
pub enum AppEvent {
    /// A message from another node, to display.
    DistantMessage(Msg),
    /// A line for the status bar.
    ServerMessage(String),
    /// The current vector clock, to display.
    DisplayClock(Clock),
}

/// An input of the node, from the user, from the incoming pipe or from itself.
#[derive(Debug)]
pub enum Event {
    /// The user sends a line to everyone.
    UserPublicMessage(String),
    /// The user sends a line to one node: recipient, text.
    UserPrivateMessage(String, String),
    /// A line arrived on the incoming pipe.
    DistantInput(String),
    /// The user quits.
    Shutdown,
    /// The user asks for the clock.
    GetClock,
    /// The user asks for a global snapshot.
    GetSnapshot,
    /// The snapshot being collected is due.
    SnapshotTimeout,
}

/// What the loop around the node must do after an event, in order.
#[derive(Debug)]
pub enum Action {
    /// Write this message, encoded on one line, to the output pipe.
    Send(Msg),
    /// Hand this event to the user interface.
    ToApp(AppEvent),
    /// Deliver `SnapshotTimeout` to the node in five seconds.
    ArmSnapshotTimer,
    /// Deliver `SnapshotTimeout` to the node now.
    CompleteSnapshot,
    /// Write out this finished snapshot and its history.
    SaveSnapshot(Snapshot),
    /// Leave the loop.
    Stop,
}

/// The status line for a node that joined.
pub open spec fn joined_text(id: Seq<char>) -> Seq<char> {
    id + seq![' ', 'j', 'o', 'i', 'n', 'e', 'd']
}

/// The status line for a node that left.
pub open spec fn left_text(id: Seq<char>) -> Seq<char> {
    id + seq![' ', 'l', 'e', 'f', 't']
}

/// The status line once a snapshot is written out.
pub open spec fn saved_text() -> Seq<char> {
    seq!['S', 'n', 'a', 'p', 's', 'h', 'o', 't', ' ', 's', 'a', 'v', 'e', 'd']
}

/// The state of one chat node.
pub struct Server {
    app_id: String,
    clock: Clock,
    sent_messages_ids: HashSet<u64>,
    snapshot: Snapshot,
    saved_messages: Vec<Msg>,
    waiting: bool,
}

impl Server {
    /// The node's own id.
    pub closed spec fn me(&self) -> Seq<char> {
        self.app_id@
    }

    /// The node's vector clock, entry by entry.
    pub closed spec fn clock_entries(&self) -> Entries {
        self.clock@
    }

    pub open spec fn clock_map(&self) -> Map<Seq<char>, u64> {
        entries_map(self.clock_entries())
    }

    /// The node's own date.
    pub open spec fn own_date(&self) -> u64 {
        date_or_zero(self.clock_map(), self.me())
    }

    /// The ids of every message this node has sent or forwarded.
    pub closed spec fn seen(&self) -> Set<u64> {
        self.sent_messages_ids@
    }

    /// The messages kept for snapshot responses.
    pub closed spec fn saved(&self) -> Seq<MsgV> {
        msgs_view(self.saved_messages@)
    }

    /// Whether a snapshot is being collected.
    pub closed spec fn waiting(&self) -> bool {
        self.waiting
    }

    /// The snapshot being collected.
    pub closed spec fn collector(&self) -> Snapshot {
        self.snapshot
    }

    pub closed spec fn wf(&self) -> bool {
        &&& self.clock.wf()
        &&& self.snapshot.wf()
        &&& self.snapshot.requester() == self.app_id@
    }

    /// The effect shared by every message that this node originates: a fresh id `fresh`,
    /// marked as seen, the own date moved on by one, and the clock after that carried.
    pub open spec fn own_send(s: &Server, t: &Server, fresh: u64, m: MsgV) -> bool {
        &&& t.wf()
        &&& t.me() == s.me()
        &&& t.clock_map() == incremented(s.clock_map(), s.me())
        &&& t.seen() == s.seen().insert(fresh)
        &&& m.id == fresh
        &&& m.sender_id == s.me()
        &&& m.clock == t.clock_entries()
    }

    /// A node with id `app_id`, its clock at 0, nothing seen or saved.
    pub fn new(app_id: String) -> (r: Server)
        ensures
            r.wf(),
            r.me() == app_id@,
            r.clock_map() == map![app_id@ => 0u64],
            r.seen() == Set::<u64>::empty(),
            r.saved() == Seq::<MsgV>::empty(),
            !r.waiting(),
            r.collector().requester() == app_id@,
            r.collector().date_map() == map![app_id@ => 0u64],
            r.collector().responses().len() == 0,
            r.collector().history().len() == 0,
    {
        let r = Server {
            app_id: app_id.clone(),
            clock: Clock::new(app_id.clone()),
            sent_messages_ids: HashSet::new(),
            snapshot: Snapshot::new(app_id),
            saved_messages: Vec::new(),
            waiting: false,
        };
        assert(r.saved() =~= Seq::<MsgV>::empty());
        r
    }

    /// The node's own id.
    pub fn id(&self) -> (r: &String)
        ensures
            r@ == self.me(),
    {
        &self.app_id
    }

    /// The node's vector clock.
    pub fn clock(&self) -> (r: &Clock)
        ensures
            r@ == self.clock_entries(),
    {
        &self.clock
    }

    /// The messages kept for snapshot responses.
    pub fn saved_messages(&self) -> (r: &Vec<Msg>)
        ensures
            msgs_view(r@) == self.saved(),
    {
        &self.saved_messages
    }

    /// The node's own date.
    pub fn get_date(&self) -> (r: u64)
        ensures
            r == self.own_date(),
    {
        self.clock.date(&self.app_id)
    }

    /// Moves the node's own date on by one.
    fn increment_clock(&mut self)
        requires
            old(self).wf(),
        ensures
            final(self).wf(),
            final(self).clock_map() == incremented(old(self).clock_map(), old(self).me()),
            final(self).app_id == old(self).app_id,
            final(self).sent_messages_ids == old(self).sent_messages_ids,
            final(self).snapshot == old(self).snapshot,
            final(self).saved_messages == old(self).saved_messages,
            final(self).waiting == old(self).waiting,
    {
        self.clock.increment(&self.app_id);
    }

    /// The parts of the state that an event about the user's own messages leaves alone.
    pub open spec fn same_snapshot(s: &Server, t: &Server) -> bool {
        &&& t.waiting() == s.waiting()
        &&& t.collector() == s.collector()
    }

    /// Announces this node: a `Connection` message with id `fresh`.
    pub fn connect(&mut self, fresh: u64) -> (r: Vec<Action>)
        requires
            old(self).wf(),
        ensures
            r@.len() == 1,
            r@[0] is Send,
            Server::own_send(old(self), final(self), fresh, r@[0]->Send_0@),
            r@[0]->Send_0@.header == HeaderV::Connection,
            final(self).saved() == old(self).saved(),
            Server::same_snapshot(old(self), final(self)),
    {
        let m = self.originate(Header::Connection, fresh);
        vec![Action::Send(m)]
    }

    /// Sends `text` to everyone, with id `fresh`, and keeps the message.
    pub fn send_public(&mut self, text: String, fresh: u64) -> (r: Vec<Action>)
        requires
            old(self).wf(),
        ensures
            r@.len() == 1,
            r@[0] is Send,
            Server::own_send(old(self), final(self), fresh, r@[0]->Send_0@),
            r@[0]->Send_0@.header == HeaderV::Public(text@),
            final(self).saved() == old(self).saved().push(r@[0]->Send_0@),
            Server::same_snapshot(old(self), final(self)),
    {
        let m = self.originate(Header::Public(text), fresh);
        self.save(m.copy());
        vec![Action::Send(m)]
    }

    /// Sends `text` to `to`, with id `fresh`, and keeps the message.
    pub fn send_private(&mut self, to: String, text: String, fresh: u64) -> (r: Vec<Action>)
        requires
            old(self).wf(),
        ensures
            r@.len() == 1,
            r@[0] is Send,
            Server::own_send(old(self), final(self), fresh, r@[0]->Send_0@),
            r@[0]->Send_0@.header == HeaderV::Private(to@, text@),
            final(self).saved() == old(self).saved().push(r@[0]->Send_0@),
            Server::same_snapshot(old(self), final(self)),
    {
        let m = self.originate(Header::Private(to, text), fresh);
        self.save(m.copy());
        vec![Action::Send(m)]
    }

    /// Says goodbye with a `Disconnection` message of id `fresh`, then stops.
    pub fn shutdown(&mut self, fresh: u64) -> (r: Vec<Action>)
        requires
            old(self).wf(),
        ensures
            r@.len() == 2,
            r@[0] is Send,
            Server::own_send(old(self), final(self), fresh, r@[0]->Send_0@),
            r@[0]->Send_0@.header == HeaderV::Disconnection,
            r@[1] is Stop,
            final(self).saved() == old(self).saved(),
            Server::same_snapshot(old(self), final(self)),
    {
        let m = self.originate(Header::Disconnection, fresh);
        vec![Action::Send(m), Action::Stop]
    }

    /// Shows the current clock.
    pub fn get_clock(&self) -> (r: Vec<Action>)
        ensures
            r@.len() == 1,
            r@[0] is ToApp,
            r@[0]->ToApp_0 is DisplayClock,
            r@[0]->ToApp_0->DisplayClock_0@ == self.clock_entries(),
    {
        vec![Action::ToApp(AppEvent::DisplayClock(self.clock.copy()))]
    }

    /// Starts a global snapshot: a `SnapshotRequest` of id `fresh`, kept with the saved
    /// messages, and a collector seeded with this node's date and saved messages.
    pub fn get_snapshot(&mut self, fresh: u64) -> (r: Vec<Action>)
        requires
            old(self).wf(),
        ensures
            r@.len() == 2,
            r@[0] is Send,
            Server::own_send(old(self), final(self), fresh, r@[0]->Send_0@),
            r@[0]->Send_0@.header == HeaderV::SnapshotRequest(old(self).me()),
            r@[1] is ArmSnapshotTimer,
            final(self).saved() == old(self).saved().push(r@[0]->Send_0@),
            final(self).waiting(),
            final(self).collector().requester() == final(self).me(),
            final(self).collector().date_map() == map![final(self).me() => final(self).own_date()],
            final(self).collector().responses() == seq![(final(self).me(), final(self).saved())],
            final(self).collector().history().len() == 0,
    {
        self.waiting = true;
        let m = self.originate(Header::SnapshotRequest(self.app_id.clone()), fresh);
        self.save(m.copy());
        let date = self.clock.date(&self.app_id);
        self.snapshot = Snapshot::start(self.app_id.clone(), date, &self.saved_messages);
        vec![Action::Send(m), Action::ArmSnapshotTimer]
    }

    /// Ends the snapshot being collected, if any: hands it over closed, and starts afresh.
    pub fn snapshot_timeout(&mut self) -> (r: Vec<Action>)
        requires
            old(self).wf(),
        ensures
            final(self).wf(),
            final(self).me() == old(self).me(),
            final(self).clock_entries() == old(self).clock_entries(),
            final(self).seen() == old(self).seen(),
            final(self).saved() == old(self).saved(),
            !old(self).waiting() ==> r@.len() == 0 && final(self).collector()
                == old(self).collector() && !final(self).waiting(),
            old(self).waiting() ==> {
                &&& r@.len() == 2
                &&& r@[0] is SaveSnapshot
                &&& Snapshot::dumped(&old(self).collector(), &r@[0]->SaveSnapshot_0)
                &&& r@[1] is ToApp
                &&& r@[1]->ToApp_0 is ServerMessage
                &&& r@[1]->ToApp_0->ServerMessage_0@ == saved_text()
                &&& !final(self).waiting()
                &&& final(self).collector().requester() == final(self).me()
                &&& final(self).collector().date_map() == map![final(self).me() => 0u64]
                &&& final(self).collector().responses().len() == 0
                &&& final(self).collector().history().len() == 0
            },
    {
        if !self.waiting {
            return Vec::new();
        }
        self.waiting = false;
        let mut done = Snapshot::new(self.app_id.clone());
        std::mem::swap(&mut done, &mut self.snapshot);
        done.dump();
        let text = "Snapshot saved".to_owned();
        proof {
            reveal_strlit("Snapshot saved");
            assert(text@ =~= saved_text());
        }
        vec![Action::SaveSnapshot(done), Action::ToApp(AppEvent::ServerMessage(text))]
    }

    /// The clock that a first-time receive of `m` leaves: the own date moved on by one,
    /// then merged with the clock that `m` carries.
    pub open spec fn clock_after_receive(s: &Server, m: MsgV) -> Map<Seq<char>, u64> {
        merged(incremented(s.clock_map(), s.me()), entries_map(m.clock))
    }

    /// `t` and the actions `r` are what a first-time receive of `m` in state `s` gives:
    /// `m` goes on to the output pipe with the merged clock, then is dispatched on its header.
    pub open spec fn received(s: &Server, t: &Server, m: MsgV, fresh: u64, r: Seq<Action>) -> bool {
        let c = Server::clock_after_receive(s, m);
        let fwd = r[0]->Send_0@;
        &&& r.len() >= 1
        &&& r[0] is Send
        &&& fwd.id == m.id
        &&& fwd.sender_id == m.sender_id
        &&& fwd.header == m.header
        &&& entries_map(fwd.clock) == c
        &&& t.wf()
        &&& t.me() == s.me()
        &&& t.waiting() == s.waiting()
        &&& !(m.header is SnapshotRequest) ==> t.clock_map() == c && t.seen() == s.seen().insert(m.id)
        &&& !(m.header is SnapshotResponse && m.header->SnapshotResponse_0 == s.me()) ==> t.collector()
            == s.collector()
        &&& !(m.header is Private && m.header->Private_0 == s.me()) ==> t.saved() == s.saved()
        &&& match m.header {
            HeaderV::Public(_) => {
                &&& r.len() == 2
                &&& r[1] is ToApp
                &&& r[1]->ToApp_0 is DistantMessage
                &&& r[1]->ToApp_0->DistantMessage_0@ == fwd
            },
            HeaderV::Private(to, _) => if to == s.me() {
                &&& r.len() == 2
                &&& r[1] is ToApp
                &&& r[1]->ToApp_0 is DistantMessage
                &&& r[1]->ToApp_0->DistantMessage_0@ == fwd
                &&& t.saved() == s.saved().push(fwd)
            } else {
                r.len() == 1
            },
            HeaderV::Connection => {
                &&& r.len() == 2
                &&& r[1] is ToApp
                &&& r[1]->ToApp_0 is ServerMessage
                &&& r[1]->ToApp_0->ServerMessage_0@ == joined_text(m.sender_id)
            },
            HeaderV::Disconnection => {
                &&& r.len() == 2
                &&& r[1] is ToApp
                &&& r[1]->ToApp_0 is ServerMessage
                &&& r[1]->ToApp_0->ServerMessage_0@ == left_text(m.sender_id)
            },
            HeaderV::SnapshotRequest(req) => {
                let reply = r[1]->Send_0@;
                &&& r.len() == 2
                &&& r[1] is Send
                &&& reply.id == fresh
                &&& reply.sender_id == s.me()
                &&& reply.header == HeaderV::SnapshotResponse(req, s.saved())
                &&& t.clock_map() == incremented(c, s.me())
                &&& entries_map(reply.clock) == t.clock_map()
                &&& t.seen() == s.seen().insert(m.id).insert(fresh)
            },
            HeaderV::SnapshotResponse(req, _) => if req == s.me() {
                &&& Snapshot::added(&s.collector(), &t.collector(), fwd)
                &&& r.len() == 1 || r.len() == 2
                &&& r.len() == 2 <==> (forall|k: Seq<char>|
                    t.clock_map().contains_key(k) ==> t.collector().date_map().contains_key(k))
                &&& r.len() == 2 ==> r[1] is CompleteSnapshot
            } else {
                r.len() == 1
            },
        }
    }

    /// Takes in message `msg` from another node. One already seen is dropped; otherwise it is
    /// marked as seen, the clock moves on and takes in the message's clock, the message is
    /// forwarded with that clock, and is then handled by its header. Answering a snapshot
    /// request uses the id `fresh`.
    pub fn receive(&mut self, msg: Msg, fresh: u64) -> (r: Vec<Action>)
        requires
            old(self).wf(),
            msg.clock.wf(),
        ensures
            old(self).seen().contains(msg.id) ==> r@.len() == 0 && *final(self) == *old(self),
            !old(self).seen().contains(msg.id) ==> Server::received(old(self), final(self), msg@, fresh, r@),
    {
        if self.sent_messages_ids.contains(&msg.id) {
            return Vec::new();
        }
        let ghost s = *self;
        let ghost mv = msg@;
        self.sent_messages_ids.insert(msg.id);
        self.increment_clock();
        self.clock.merge(&msg.clock);
        let mut m = msg;
        m.clock = self.clock.copy();
        let mut out: Vec<Action> = Vec::new();
        out.push(Action::Send(m.copy()));
        let ghost fwd = m@;
        match &m.header {
            Header::Public(_) => {
                out.push(Action::ToApp(AppEvent::DistantMessage(m)));
            },
            Header::Private(to, _) => {
                if *to == self.app_id {
                    self.save(m.copy());
                    out.push(Action::ToApp(AppEvent::DistantMessage(m)));
                }
            },
            Header::Connection => {
                let text = m.sender_id.clone().concat(" joined");
                proof {
                    reveal_strlit(" joined");
                    assert(text@ =~= joined_text(fwd.sender_id));
                }
                out.push(Action::ToApp(AppEvent::ServerMessage(text)));
            },
            Header::Disconnection => {
                let text = m.sender_id.clone().concat(" left");
                proof {
                    reveal_strlit(" left");
                    assert(text@ =~= left_text(fwd.sender_id));
                }
                out.push(Action::ToApp(AppEvent::ServerMessage(text)));
            },
            Header::SnapshotRequest(req) => {
                let list = copy_all(&self.saved_messages);
                let reply = self.originate(Header::SnapshotResponse(req.clone(), list), fresh);
                out.push(Action::Send(reply));
            },
            Header::SnapshotResponse(req, _) => {
                if *req == self.app_id {
                    self.snapshot.add(m);
                    let all_in = self.clock.covered_by(self.snapshot.dates());
                    if all_in {
                        out.push(Action::CompleteSnapshot);
                    }
                    proof {
                        let dm = self.collector().date_map();
                        if all_in {
                            assert forall|k: Seq<char>| self.clock_map().contains_key(k) implies dm.contains_key(k) by {
                                assert(self.clock.map().contains_key(k));
                            }
                        } else {
                            let k = choose|k: Seq<char>| self.clock.map().contains_key(k) && !dm.contains_key(k);
                            assert(self.clock_map().contains_key(k));
                        }
                    }
                }
            },
        }
        assert(Server::received(&s, self, mv, fresh, out@));
        out
    }

    /// What a node does on `ev`, with `fresh` as the id of any message it originates:
    /// `t` is the state after, `r` the actions, as each handler states them.
    pub open spec fn step(s: &Server, t: &Server, ev: Event, fresh: u64, r: Seq<Action>) -> bool {
        match ev {
            Event::UserPublicMessage(text) => {
                &&& r.len() == 1
                &&& r[0] is Send
                &&& Server::own_send(s, t, fresh, r[0]->Send_0@)
                &&& r[0]->Send_0@.header == HeaderV::Public(text@)
                &&& t.saved() == s.saved().push(r[0]->Send_0@)
                &&& Server::same_snapshot(s, t)
            },
            Event::UserPrivateMessage(to, text) => {
                &&& r.len() == 1
                &&& r[0] is Send
                &&& Server::own_send(s, t, fresh, r[0]->Send_0@)
                &&& r[0]->Send_0@.header == HeaderV::Private(to@, text@)
                &&& t.saved() == s.saved().push(r[0]->Send_0@)
                &&& Server::same_snapshot(s, t)
            },
            Event::Shutdown => {
                &&& r.len() == 2
                &&& r[0] is Send
                &&& Server::own_send(s, t, fresh, r[0]->Send_0@)
                &&& r[0]->Send_0@.header == HeaderV::Disconnection
                &&& r[1] is Stop
                &&& t.saved() == s.saved()
                &&& Server::same_snapshot(s, t)
            },
            Event::GetClock => {
                &&& r.len() == 1
                &&& r[0] is ToApp
                &&& r[0]->ToApp_0 is DisplayClock
                &&& r[0]->ToApp_0->DisplayClock_0@ == s.clock_entries()
                &&& *t == *s
            },
            Event::GetSnapshot => {
                &&& r.len() == 2
                &&& r[0] is Send
                &&& Server::own_send(s, t, fresh, r[0]->Send_0@)
                &&& r[0]->Send_0@.header == HeaderV::SnapshotRequest(s.me())
                &&& r[1] is ArmSnapshotTimer
                &&& t.saved() == s.saved().push(r[0]->Send_0@)
                &&& t.waiting()
                &&& t.collector().requester() == t.me()
                &&& t.collector().date_map() == map![t.me() => t.own_date()]
                &&& t.collector().responses() == seq![(t.me(), t.saved())]
                &&& t.collector().history().len() == 0
            },
            Event::SnapshotTimeout => Server::timed_out(s, t, r),
            Event::DistantInput(line) => Server::read_line(s, t, line@, fresh, r),
        }
    }

    /// The effect of the snapshot timer: a snapshot being collected is closed and handed
    /// over, and a fresh collector takes its place; otherwise nothing happens.
    pub open spec fn timed_out(s: &Server, t: &Server, r: Seq<Action>) -> bool {
        &&& t.wf()
        &&& t.me() == s.me()
        &&& t.clock_entries() == s.clock_entries()
        &&& t.seen() == s.seen()
        &&& t.saved() == s.saved()
        &&& !s.waiting() ==> r.len() == 0 && t.collector() == s.collector() && !t.waiting()
        &&& s.waiting() ==> {
            &&& r.len() == 2
            &&& r[0] is SaveSnapshot
            &&& Snapshot::dumped(&s.collector(), &r[0]->SaveSnapshot_0)
            &&& r[1] is ToApp
            &&& r[1]->ToApp_0 is ServerMessage
            &&& r[1]->ToApp_0->ServerMessage_0@ == saved_text()
            &&& !t.waiting()
            &&& t.collector().requester() == t.me()
            &&& t.collector().date_map() == map![t.me() => 0u64]
            &&& t.collector().responses().len() == 0
            &&& t.collector().history().len() == 0
        }
    }

    /// The effect of a line from the incoming pipe: the message it holds is received (once),
    /// and a line that holds none changes nothing.
    pub open spec fn read_line(s: &Server, t: &Server, line: Seq<char>, fresh: u64, r: Seq<Action>) -> bool {
        &&& forall|m: MsgV|
            #[trigger] msg_text(m) == line && keys_distinct(m.clock) ==> (s.seen().contains(m.id) ==> r.len()
                == 0) && (!s.seen().contains(m.id) ==> Server::received(s, t, m, fresh, r))
        &&& !(exists|m: MsgV| #[trigger] msg_text(m) == line && keys_distinct(m.clock)) ==> r.len() == 0
            && *t == *s
        &&& r.len() == 0 ==> *t == *s
        &&& r.len() > 0 ==> exists|m: MsgV|
            #[trigger] msg_text(m) == line && keys_distinct(m.clock) && !s.seen().contains(m.id)
                && Server::received(s, t, m, fresh, r)
    }

    /// Handles one line from the incoming pipe; `fresh` is the id of a snapshot response,
    /// should one be owed.
    pub fn receive_line(&mut self, line: &str, fresh: u64) -> (r: Vec<Action>)
        requires
            old(self).wf(),
        ensures
            Server::read_line(old(self), final(self), line@, fresh, r@),
    {
        match Msg::from_str(line) {
            Ok(m) => self.receive(m, fresh),
            Err(_) => Vec::new(),
        }
    }

    /// Handles one event; `fresh` is the id of any message that the node originates on it.
    pub fn handle_with_id(&mut self, ev: Event, fresh: u64) -> (r: Vec<Action>)
        requires
            old(self).wf(),
        ensures
            final(self).wf(),
            Server::step(old(self), final(self), ev, fresh, r@),
    {
        match ev {
            Event::UserPublicMessage(text) => self.send_public(text, fresh),
            Event::UserPrivateMessage(to, text) => self.send_private(to, text, fresh),
            Event::DistantInput(line) => self.receive_line(line.as_str(), fresh),
            Event::Shutdown => self.shutdown(fresh),
            Event::GetClock => self.get_clock(),
            Event::GetSnapshot => self.get_snapshot(fresh),
            Event::SnapshotTimeout => self.snapshot_timeout(),
        }
    }

    /// Handles one event, drawing a fresh random id for any message the node originates.
    pub fn handle(&mut self, ev: Event) -> (r: Vec<Action>)
        requires
            old(self).wf(),
        ensures
            final(self).wf(),
            exists|fresh: u64| Server::step(old(self), final(self), ev, fresh, r@),
    {
        let fresh = crate::random_msg_id();
        self.handle_with_id(ev, fresh)
    }

    /// Announces the node on start, with a fresh random id.
    pub fn start(&mut self) -> (r: Vec<Action>)
        requires
            old(self).wf(),
        ensures
            final(self).wf(),
            r@.len() == 1,
            r@[0] is Send,
            exists|fresh: u64| Server::own_send(old(self), final(self), fresh, r@[0]->Send_0@),
            r@[0]->Send_0@.header == HeaderV::Connection,
            final(self).saved() == old(self).saved(),
            Server::same_snapshot(old(self), final(self)),
    {
        let fresh = crate::random_msg_id();
        self.connect(fresh)
    }

    fn save(&mut self, m: Msg)
        ensures
            final(self).saved() == old(self).saved().push(m@),
            final(self).app_id == old(self).app_id,
            final(self).clock == old(self).clock,
            final(self).sent_messages_ids == old(self).sent_messages_ids,
            final(self).snapshot == old(self).snapshot,
            final(self).waiting == old(self).waiting,
    {
        proof {
            lemma_msgs_view_push(self.saved_messages@, m);
        }
        self.saved_messages.push(m);
    }

    /// Builds a message of this node's own with id `fresh` and header `header`.
    fn originate(&mut self, header: Header, fresh: u64) -> (m: Msg)
        requires
            old(self).wf(),
        ensures
            Server::own_send(old(self), final(self), fresh, m@),
            m@.header == header@,
            m.clock.wf(),
            final(self).saved_messages == old(self).saved_messages,
            final(self).snapshot == old(self).snapshot,
            final(self).waiting == old(self).waiting,
    {
        self.sent_messages_ids.insert(fresh);
        self.increment_clock();
        Msg::new(fresh, self.app_id.clone(), header, self.clock.copy())
    }
}


/// Each message that a node originates moves its own date strictly forward (while the
/// date is below the largest one).
pub proof fn lemma_send_advances_own_date(s: &Server, t: &Server, fresh: u64, m: MsgV)
    requires
        Server::own_send(s, t, fresh, m),
        s.own_date() < u64::MAX,
    ensures
        t.own_date() > s.own_date(),
{
}

/// Each first-time receive moves the node's own date strictly forward (while the date is
/// below the largest one).
pub proof fn lemma_receive_advances_own_date(s: &Server, t: &Server, m: MsgV, fresh: u64, r: Seq<Action>)
    requires
        Server::received(s, t, m, fresh, r),
        s.own_date() < u64::MAX,
    ensures
        t.own_date() > s.own_date(),
{
    let c = Server::clock_after_receive(s, m);
    assert(date_or_zero(c, s.me()) > s.own_date());
}

/// The flood writes each message at most once: a first receive of `m` writes it once
/// (with a reply that has another id) and marks it as seen for good, and a receive of a
/// message already seen writes nothing (see `Server::receive`).
pub proof fn lemma_flood_once(s: &Server, t: &Server, m: MsgV, fresh: u64, r: Seq<Action>)
    requires
        Server::received(s, t, m, fresh, r),
        fresh != m.id,
    ensures
        t.seen().contains(m.id),
        s.seen().subset_of(t.seen()),
        r[0]->Send_0@.id == m.id,
        forall|i: int| 1 <= i < r.len() && (#[trigger] r[i] is Send) ==> r[i]->Send_0@.id != m.id,
{
}


/// `states` is a run of one node: each state follows from the one before by `Server::step`
/// on `events[k]`, with fresh id `fresh[k]` and actions `outs[k]`.
pub open spec fn is_run(states: Seq<Server>, events: Seq<Event>, fresh: Seq<u64>, outs: Seq<Seq<Action>>) -> bool {
    &&& states.len() == events.len() + 1
    &&& fresh.len() == events.len()
    &&& outs.len() == events.len()
    &&& forall|k: int|
        0 <= k < events.len() ==> #[trigger] Server::step(&states[k], &states[k + 1], events[k], fresh[k], outs[k])
}

/// The id drawn for step `ev` is new: not seen yet, and not the id of the message the
/// step's line holds.
pub open spec fn fresh_ok(s: &Server, ev: Event, fresh: u64) -> bool {
    &&& !s.seen().contains(fresh)
    &&& ev is DistantInput ==> forall|m: MsgV| #[trigger] msg_text(m) == ev->DistantInput_0@ ==> m.id != fresh
}

/// Whether action `j` of step `k` writes a message.
pub open spec fn writes(outs: Seq<Seq<Action>>, k: int, j: int) -> bool {
    0 <= k < outs.len() && 0 <= j < outs[k].len() && outs[k][j] is Send
}

/// Whether action `a` shows a message from another node to the user.
pub open spec fn shows(a: Action) -> bool {
    a is ToApp && a->ToApp_0 is DistantMessage
}

/// The id of the message that a showing action shows.
pub open spec fn shown_id(a: Action) -> u64 {
    a->ToApp_0->DistantMessage_0@.id
}

/// What one step writes and shows: ids that were not seen before it (given a new id) and differ from
/// each other, all seen after it; at most one message shown, whose id was not seen before
/// and is seen after; own dates above the date before it and up to the date
/// after it, rising within the step (below the largest date). Nothing seen is forgotten
/// and the own date never goes down.
proof fn lemma_step_writes(s: &Server, t: &Server, ev: Event, fresh: u64, r: Seq<Action>)
    requires
        Server::step(s, t, ev, fresh, r),
    ensures
        t.me() == s.me(),
        s.seen().subset_of(t.seen()),
        s.own_date() <= t.own_date(),
        forall|j: int| 0 <= j < r.len() && r[j] is Send ==> t.seen().contains(#[trigger] r[j]->Send_0@.id),
        fresh_ok(s, ev, fresh) ==> forall|j: int|
            0 <= j < r.len() && r[j] is Send ==> !s.seen().contains(#[trigger] r[j]->Send_0@.id),
        fresh_ok(s, ev, fresh) ==> forall|i: int, j: int|
            0 <= i < j < r.len() && r[i] is Send && r[j] is Send ==> #[trigger] r[i]->Send_0@.id
                != #[trigger] r[j]->Send_0@.id,
        forall|j: int|
            0 <= j < r.len() && #[trigger] shows(r[j]) ==> !s.seen().contains(r[j]->ToApp_0->DistantMessage_0@.id)
                && t.seen().contains(r[j]->ToApp_0->DistantMessage_0@.id),
        forall|i: int, j: int| 0 <= i < j < r.len() && #[trigger] shows(r[i]) ==> !#[trigger] shows(r[j]),
        t.own_date() < u64::MAX ==> forall|j: int|
            0 <= j < r.len() && r[j] is Send ==> s.own_date() < date_in(#[trigger] r[j]->Send_0@, s.me())
                <= t.own_date(),
        t.own_date() < u64::MAX ==> forall|i: int, j: int|
            0 <= i < j < r.len() && r[i] is Send && r[j] is Send ==> date_in(#[trigger] r[i]->Send_0@, s.me())
                < date_in(#[trigger] r[j]->Send_0@, s.me()),
{
    match ev {
        Event::DistantInput(line) => {
            if r.len() > 0 {
                let m = choose|m: MsgV|
                    #[trigger] msg_text(m) == line@ && keys_distinct(m.clock) && !s.seen().contains(m.id)
                        && Server::received(s, t, m, fresh, r);
                let c = Server::clock_after_receive(s, m);
                assert(date_or_zero(c, s.me()) > s.own_date() || s.own_date() == u64::MAX);
                assert(date_in(r[0]->Send_0@, s.me()) == date_or_zero(c, s.me()));
                if m.header is SnapshotRequest {
                    assert(date_in(r[1]->Send_0@, s.me()) == t.own_date());
                }
            }
        },
        _ => {},
    }
}

/// Over a run of `k` steps, nothing seen is forgotten and the own date never goes down.
proof fn lemma_run_monotone(states: Seq<Server>, events: Seq<Event>, fresh: Seq<u64>, outs: Seq<Seq<Action>>, a: int, b: int)
    requires
        is_run(states, events, fresh, outs),
        0 <= a <= b < states.len(),
    ensures
        states[b].me() == states[a].me(),
        states[a].seen().subset_of(states[b].seen()),
        states[a].own_date() <= states[b].own_date(),
    decreases b - a,
{
    if a < b {
        lemma_run_monotone(states, events, fresh, outs, a, b - 1);
        let k = b - 1;
        assert(Server::step(&states[k], &states[k + 1], events[k], fresh[k], outs[k]));
        lemma_step_writes(&states[k], &states[k + 1], events[k], fresh[k], outs[k]);
    }
}

/// The flood is loop-free: over a whole run whose drawn ids are new, no id is written twice.
pub proof fn lemma_run_writes_each_id_once(
    states: Seq<Server>,
    events: Seq<Event>,
    fresh: Seq<u64>,
    outs: Seq<Seq<Action>>,
)
    requires
        is_run(states, events, fresh, outs),
        forall|k: int| 0 <= k < events.len() ==> #[trigger] fresh_ok(&states[k], events[k], fresh[k]),
    ensures
        forall|k1: int, j1: int, k2: int, j2: int|
            writes(outs, k1, j1) && writes(outs, k2, j2) && (k1 < k2 || (k1 == k2 && j1 < j2)) ==> #[trigger] outs[k1][j1]->Send_0@.id
                != #[trigger] outs[k2][j2]->Send_0@.id,
{
    assert forall|k1: int, j1: int, k2: int, j2: int|
        writes(outs, k1, j1) && writes(outs, k2, j2) && (k1 < k2 || (k1 == k2 && j1 < j2)) implies #[trigger] outs[k1][j1]->Send_0@.id
            != #[trigger] outs[k2][j2]->Send_0@.id by {
        assert(Server::step(&states[k1], &states[k1 + 1], events[k1], fresh[k1], outs[k1]));
        assert(fresh_ok(&states[k1], events[k1], fresh[k1]));
        lemma_step_writes(&states[k1], &states[k1 + 1], events[k1], fresh[k1], outs[k1]);
        if k1 < k2 {
            assert(Server::step(&states[k2], &states[k2 + 1], events[k2], fresh[k2], outs[k2]));
            assert(fresh_ok(&states[k2], events[k2], fresh[k2]));
            lemma_step_writes(&states[k2], &states[k2 + 1], events[k2], fresh[k2], outs[k2]);
            lemma_run_monotone(states, events, fresh, outs, k1 + 1, k2);
        }
    }
}

/// The node's own clock entry rises with every line it writes: over a whole run that
/// stays below the largest date, each written message carries a larger own date than
/// every message written before it.
pub proof fn lemma_run_own_dates_increase(
    states: Seq<Server>,
    events: Seq<Event>,
    fresh: Seq<u64>,
    outs: Seq<Seq<Action>>,
)
    requires
        is_run(states, events, fresh, outs),
        states.last().own_date() < u64::MAX,
    ensures
        forall|k1: int, j1: int, k2: int, j2: int|
            writes(outs, k1, j1) && writes(outs, k2, j2) && (k1 < k2 || (k1 == k2 && j1 < j2)) ==> date_in(
                #[trigger] outs[k1][j1]->Send_0@,
                states[0].me(),
            ) < date_in(#[trigger] outs[k2][j2]->Send_0@, states[0].me()),
{
    assert forall|k1: int, j1: int, k2: int, j2: int|
        writes(outs, k1, j1) && writes(outs, k2, j2) && (k1 < k2 || (k1 == k2 && j1 < j2)) implies date_in(
            #[trigger] outs[k1][j1]->Send_0@,
            states[0].me(),
        ) < date_in(#[trigger] outs[k2][j2]->Send_0@, states[0].me()) by {
        lemma_run_monotone(states, events, fresh, outs, 0, k1);
        lemma_run_monotone(states, events, fresh, outs, k1 + 1, states.len() - 1);
        assert(Server::step(&states[k1], &states[k1 + 1], events[k1], fresh[k1], outs[k1]));
        lemma_step_writes(&states[k1], &states[k1 + 1], events[k1], fresh[k1], outs[k1]);
        if k1 < k2 {
            lemma_run_monotone(states, events, fresh, outs, k1 + 1, k2);
            lemma_run_monotone(states, events, fresh, outs, k2 + 1, states.len() - 1);
            assert(Server::step(&states[k2], &states[k2 + 1], events[k2], fresh[k2], outs[k2]));
            lemma_step_writes(&states[k2], &states[k2 + 1], events[k2], fresh[k2], outs[k2]);
        }
    }
}


/// Each message reaches the user at most once: over a whole run, no two shown messages
/// carry the same id, and a message the node wrote itself is never shown to it later.
pub proof fn lemma_run_shows_each_id_once(
    states: Seq<Server>,
    events: Seq<Event>,
    fresh: Seq<u64>,
    outs: Seq<Seq<Action>>,
)
    requires
        is_run(states, events, fresh, outs),
    ensures
        forall|k1: int, j1: int, k2: int, j2: int|
            0 <= k1 < outs.len() && 0 <= j1 < outs[k1].len() && 0 <= k2 < outs.len() && 0 <= j2
                < outs[k2].len() && (k1 < k2 || (k1 == k2 && j1 < j2)) && #[trigger] shows(outs[k1][j1])
                && #[trigger] shows(outs[k2][j2]) ==> shown_id(outs[k1][j1]) != shown_id(outs[k2][j2]),
        forall|k1: int, j1: int, k2: int, j2: int|
            writes(outs, k1, j1) && 0 <= k2 < outs.len() && 0 <= j2 < outs[k2].len() && k1 < k2
                && #[trigger] shows(outs[k2][j2]) ==> #[trigger] outs[k1][j1]->Send_0@.id != shown_id(
                outs[k2][j2],
            ),
{
    assert forall|k1: int, j1: int, k2: int, j2: int|
        0 <= k1 < outs.len() && 0 <= j1 < outs[k1].len() && 0 <= k2 < outs.len() && 0 <= j2
            < outs[k2].len() && (k1 < k2 || (k1 == k2 && j1 < j2)) && #[trigger] shows(outs[k1][j1])
            && #[trigger] shows(outs[k2][j2]) implies shown_id(outs[k1][j1]) != shown_id(outs[k2][j2]) by {
        assert(Server::step(&states[k1], &states[k1 + 1], events[k1], fresh[k1], outs[k1]));
        lemma_step_writes(&states[k1], &states[k1 + 1], events[k1], fresh[k1], outs[k1]);
        if k1 < k2 {
            assert(Server::step(&states[k2], &states[k2 + 1], events[k2], fresh[k2], outs[k2]));
            lemma_step_writes(&states[k2], &states[k2 + 1], events[k2], fresh[k2], outs[k2]);
            lemma_run_monotone(states, events, fresh, outs, k1 + 1, k2);
        }
    }
    assert forall|k1: int, j1: int, k2: int, j2: int|
        writes(outs, k1, j1) && 0 <= k2 < outs.len() && 0 <= j2 < outs[k2].len() && k1 < k2
            && #[trigger] shows(outs[k2][j2]) implies #[trigger] outs[k1][j1]->Send_0@.id != shown_id(
            outs[k2][j2],
        ) by {
        assert(Server::step(&states[k1], &states[k1 + 1], events[k1], fresh[k1], outs[k1]));
        lemma_step_writes(&states[k1], &states[k1 + 1], events[k1], fresh[k1], outs[k1]);
        assert(Server::step(&states[k2], &states[k2 + 1], events[k2], fresh[k2], outs[k2]));
        lemma_step_writes(&states[k2], &states[k2 + 1], events[k2], fresh[k2], outs[k2]);
        lemma_run_monotone(states, events, fresh, outs, k1 + 1, k2);
    }
}

} // verus!
