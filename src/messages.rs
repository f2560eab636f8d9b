use vstd::prelude::*;

use crate::clock::{Clock, Entries};

verus! {

broadcast use vstd::std_specs::vec::group_vec_axioms;

/// What a message is about.
#[derive(Debug, PartialEq)]
pub enum Header {
    /// A direct message: recipient, text.
    Private(String, String),
    /// A chat line for everyone.
    Public(String),
    /// A node announces itself.
    Connection,
    /// A node leaves.
    Disconnection,
    /// A node asks for a global snapshot; it names itself.
    SnapshotRequest(String),
    /// The answer to a snapshot request: the requester and the messages the responder saved.
    SnapshotResponse(String, Vec<Msg>),
}

/// One message of the chat protocol.
#[derive(Debug, PartialEq)]
pub struct Msg {
    pub id: u64,
    pub sender_id: String,
    pub header: Header,
    pub clock: Clock,
}

/// The mathematical value of a header.
pub enum HeaderV {
    Private(Seq<char>, Seq<char>),
    Public(Seq<char>),
    Connection,
    Disconnection,
    SnapshotRequest(Seq<char>),
    SnapshotResponse(Seq<char>, Seq<MsgV>),
}

/// The mathematical value of a message.
pub struct MsgV {
    pub id: u64,
    pub sender_id: Seq<char>,
    pub header: HeaderV,
    pub clock: Entries,
}

pub open spec fn msg_view(m: Msg) -> MsgV
    decreases m,
{
    MsgV { id: m.id, sender_id: m.sender_id@, header: header_view(m.header), clock: m.clock@ }
}

pub open spec fn header_view(h: Header) -> HeaderV
    decreases h,
{
    match h {
        Header::Private(to, text) => HeaderV::Private(to@, text@),
        Header::Public(text) => HeaderV::Public(text@),
        Header::Connection => HeaderV::Connection,
        Header::Disconnection => HeaderV::Disconnection,
        Header::SnapshotRequest(r) => HeaderV::SnapshotRequest(r@),
        Header::SnapshotResponse(r, v) => HeaderV::SnapshotResponse(r@, msgs_view(v@)),
    }
}

pub open spec fn msgs_view(s: Seq<Msg>) -> Seq<MsgV>
    decreases s,
{
    if s.len() == 0 {
        Seq::empty()
    } else {
        msgs_view(s.drop_last()).push(msg_view(s.last()))
    }
}

impl View for Msg {
    type V = MsgV;

    open spec fn view(&self) -> MsgV {
        msg_view(*self)
    }
}

impl View for Header {
    type V = HeaderV;

    open spec fn view(&self) -> HeaderV {
        header_view(*self)
    }
}

pub(crate) proof fn lemma_msgs_view(s: Seq<Msg>)
    ensures
        msgs_view(s).len() == s.len(),
        forall|i: int| 0 <= i < s.len() ==> #[trigger] msgs_view(s)[i] == msg_view(s[i]),
    decreases s.len(),
{
    if s.len() > 0 {
        lemma_msgs_view(s.drop_last());
        assert forall|i: int| 0 <= i < s.len() implies #[trigger] msgs_view(s)[i] == msg_view(s[i]) by {
            if i < s.len() - 1 {
                assert(s.drop_last()[i] == s[i]);
            }
        }
    }
}

/// Two sequences of messages with the same elements, element for element, have the same value.
pub(crate) proof fn lemma_msgs_view_ext(s: Seq<Msg>, t: Seq<MsgV>)
    requires
        s.len() == t.len(),
        forall|i: int| 0 <= i < s.len() ==> msg_view(#[trigger] s[i]) == t[i],
    ensures
        msgs_view(s) == t,
{
    lemma_msgs_view(s);
    assert(msgs_view(s) =~= t);
}

pub(crate) proof fn lemma_msgs_view_push(s: Seq<Msg>, m: Msg)
    ensures
        msgs_view(s.push(m)) == msgs_view(s).push(msg_view(m)),
{
    assert(s.push(m).drop_last() =~= s);
}

impl Msg {
    pub fn new(id: u64, sender_id: String, header: Header, clock: Clock) -> (r: Msg)
        ensures
            r.id == id,
            r.sender_id == sender_id,
            r.header == header,
            r.clock == clock,
    {
        Msg { id, sender_id, header, clock }
    }

    /// A copy of this message, with every nested message copied too.
    pub fn copy(&self) -> (r: Msg)
        ensures
            r@ == self@,
            r.clock@ == self.clock@,
        decreases self,
    {
        let header = match &self.header {
            Header::Private(to, text) => Header::Private(to.clone(), text.clone()),
            Header::Public(text) => Header::Public(text.clone()),
            Header::Connection => Header::Connection,
            Header::Disconnection => Header::Disconnection,
            Header::SnapshotRequest(r) => Header::SnapshotRequest(r.clone()),
            Header::SnapshotResponse(r, v) => Header::SnapshotResponse(r.clone(), copy_all(v)),
        };
        Msg { id: self.id, sender_id: self.sender_id.clone(), header, clock: self.clock.copy() }
    }
}

/// A copy of every message of `v`, in order.
pub fn copy_all(v: &Vec<Msg>) -> (r: Vec<Msg>)
    ensures
        msgs_view(r@) == msgs_view(v@),
    decreases v,
{
    let mut out: Vec<Msg> = Vec::new();
    let mut i: usize = 0;
    while i < v.len()
        invariant
            i <= v@.len(),
            out@.len() == i,
            forall|j: int| 0 <= j < i ==> msg_view(#[trigger] out@[j]) == msg_view(v@[j]),
        decreases v@.len() - i,
    {
        proof {
            assert(decreases_to!(v => v@[i as int]));
        }
        out.push(v[i].copy());
        i = i + 1;
    }
    proof {
        lemma_msgs_view(v@);
        lemma_msgs_view_ext(out@, msgs_view(v@));
    }
    out
}

} // verus!
