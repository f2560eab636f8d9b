use vstd::prelude::*;

use crate::clock::{date_or_zero, entries_map, Clock};
use crate::messages::{copy_all, lemma_msgs_view, lemma_msgs_view_push, msg_view, msgs_view, Header, Msg, MsgV};

verus! {

broadcast use vstd::seq_lib::to_multiset_insert;

/// The date that the clock of `m` holds for node `r` (0 where it holds none).
pub open spec fn date_in(m: MsgV, r: Seq<char>) -> u64 {
    date_or_zero(entries_map(m.clock), r)
}

/// Whether `r` had sent `m` by the time it cut its snapshot at date `d`.
pub open spec fn before_cut(m: MsgV, r: Seq<char>, d: u64) -> bool {
    date_in(m, r) <= d
}

/// The messages of `s` that `r` had sent by its cut at date `d`, in order.
pub open spec fn within_cut(s: Seq<MsgV>, r: Seq<char>, d: u64) -> Seq<MsgV>
    decreases s.len(),
{
    if s.len() == 0 {
        Seq::empty()
    } else {
        let t = within_cut(s.drop_last(), r, d);
        if before_cut(s.last(), r, d) {
            t.push(s.last())
        } else {
            t
        }
    }
}

/// Whether some message of `s` carries the id `id`.
pub open spec fn has_id(s: Seq<MsgV>, id: u64) -> bool {
    exists|j: int| 0 <= j < s.len() && s[j].id == id
}

/// `s` with every message whose id was seen earlier in `s` left out.
pub open spec fn dedup_by_id(s: Seq<MsgV>) -> Seq<MsgV>
    decreases s.len(),
{
    if s.len() == 0 {
        Seq::empty()
    } else {
        let t = dedup_by_id(s.drop_last());
        if has_id(t, s.last().id) {
            t
        } else {
            t.push(s.last())
        }
    }
}

/// All the lists of the responses, one after the other.
pub open spec fn flatten(rs: Seq<(Seq<char>, Seq<MsgV>)>) -> Seq<MsgV>
    decreases rs.len(),
{
    if rs.len() == 0 {
        Seq::empty()
    } else {
        flatten(rs.drop_last()) + rs.last().1
    }
}

/// The ordering of the history at requester `q`: by the date of `q`, then where both
/// clocks know the sender of `a` (and differ there) by that date, then where both know
/// the sender of `b` by that date. Concurrent messages may be ordered neither way.
pub open spec fn precedes(a: MsgV, b: MsgV, q: Seq<char>) -> bool {
    let ma = entries_map(a.clock);
    let mb = entries_map(b.clock);
    if date_in(a, q) != date_in(b, q) {
        date_in(a, q) < date_in(b, q)
    } else if ma.contains_key(a.sender_id) && mb.contains_key(a.sender_id) && ma[a.sender_id]
        != mb[a.sender_id] {
        ma[a.sender_id] < mb[a.sender_id]
    } else if ma.contains_key(b.sender_id) && mb.contains_key(b.sender_id) {
        ma[b.sender_id] < mb[b.sender_id]
    } else {
        false
    }
}

/// The dates of requester `q` never go down along `s`.
pub open spec fn sorted_at(s: Seq<MsgV>, q: Seq<char>) -> bool {
    forall|i: int, j: int| 0 <= i < j < s.len() ==> date_in(s[i], q) <= date_in(s[j], q)
}

/// On the messages of `s`, `precedes` at `q` is a strict weak order: never both ways, and
/// "not before" is transitive.
pub open spec fn strict_weak_on(s: Seq<MsgV>, q: Seq<char>) -> bool {
    &&& forall|a: int, b: int|
        0 <= a < s.len() && 0 <= b < s.len() && #[trigger] precedes(s[a], s[b], q) ==> !precedes(
            s[b],
            s[a],
            q,
        )
    &&& forall|a: int, b: int, c: int|
        0 <= a < s.len() && 0 <= b < s.len() && 0 <= c < s.len() && !#[trigger] precedes(s[a], s[b], q)
            && !#[trigger] precedes(s[b], s[c], q) ==> !precedes(s[a], s[c], q)
}

/// No message of `h` comes before one that precedes it at `q`.
pub open spec fn sorted_by_precedes(h: Seq<MsgV>, q: Seq<char>) -> bool {
    forall|a: int, b: int| 0 <= a < b < h.len() ==> !#[trigger] precedes(h[b], h[a], q)
}

/// `h[k]` is `l[pos[k]]`, each element of `l` is used at most once, and two messages that
/// neither precede the other at `q` keep the order they had in `l`.
pub open spec fn stable_from(h: Seq<MsgV>, l: Seq<MsgV>, pos: Seq<int>, q: Seq<char>) -> bool {
    &&& pos.len() == h.len()
    &&& forall|k: int| 0 <= k < h.len() ==> 0 <= #[trigger] pos[k] < l.len() && h[k] == l[pos[k]]
    &&& forall|a: int, b: int| 0 <= a < b < h.len() ==> pos[a] != pos[b]
    &&& forall|a: int, b: int|
        0 <= a < b < h.len() && !precedes(h[a], h[b], q) && !precedes(h[b], h[a], q) ==> pos[a]
            < pos[b]
}

proof fn lemma_within_cut(s: Seq<MsgV>, r: Seq<char>, d: u64)
    ensures
        forall|i: int| 0 <= i < within_cut(s, r, d).len() ==> before_cut(#[trigger] within_cut(s, r, d)[i], r, d),
    decreases s.len(),
{
    if s.len() > 0 {
        lemma_within_cut(s.drop_last(), r, d);
        let t = within_cut(s.drop_last(), r, d);
        assert forall|i: int| 0 <= i < within_cut(s, r, d).len() implies before_cut(
            #[trigger] within_cut(s, r, d)[i],
            r,
            d,
        ) by {
            if i < t.len() {
                assert(within_cut(s, r, d)[i] == t[i]);
            }
        }
    }
}

proof fn lemma_msgs_view_insert(s: Seq<Msg>, p: int, m: Msg)
    requires
        0 <= p <= s.len(),
    ensures
        msgs_view(s.insert(p, m)) == msgs_view(s).insert(p, msg_view(m)),
{
    lemma_msgs_view(s);
    lemma_msgs_view(s.insert(p, m));
    assert(msgs_view(s.insert(p, m)) =~= msgs_view(s).insert(p, msg_view(m)));
}

/// Whether `a` comes before `b` in the history of requester `q`.
pub fn msg_precedes(a: &Msg, b: &Msg, q: &String) -> (r: bool)
    ensures
        r == precedes(a@, b@, q@),
{
    let da = a.clock.date(q);
    let db = b.clock.date(q);
    if da != db {
        return da < db;
    }
    match (a.clock.get(&a.sender_id), b.clock.get(&a.sender_id)) {
        (Some(x), Some(y)) => {
            if x != y {
                return x < y;
            }
        },
        _ => {},
    }
    match (a.clock.get(&b.sender_id), b.clock.get(&b.sender_id)) {
        (Some(x), Some(y)) => x < y,
        _ => false,
    }
}

/// The messages of `list` that `r` had sent by its cut at date `d`.
fn keep_within_cut(list: &Vec<Msg>, r: &String, d: u64) -> (out: Vec<Msg>)
    ensures
        msgs_view(out@) == within_cut(msgs_view(list@), r@, d),
{
    let ghost lv = msgs_view(list@);
    proof {
        lemma_msgs_view(list@);
    }
    let mut out: Vec<Msg> = Vec::new();
    let mut i: usize = 0;
    proof {
        assert(lv.subrange(0, 0) =~= Seq::<MsgV>::empty());
        assert(msgs_view(out@) =~= Seq::<MsgV>::empty());
    }
    while i < list.len()
        invariant
            i <= list@.len(),
            lv == msgs_view(list@),
            lv.len() == list@.len(),
            forall|k: int| 0 <= k < list@.len() ==> #[trigger] lv[k] == msg_view(list@[k]),
            msgs_view(out@) == within_cut(lv.subrange(0, i as int), r@, d),
        decreases list@.len() - i,
    {
        let m = &list[i];
        proof {
            assert(lv.subrange(0, i as int + 1).drop_last() =~= lv.subrange(0, i as int));
        }
        if m.clock.date(r) <= d {
            let c = m.copy();
            proof {
                lemma_msgs_view_push(out@, c);
            }
            out.push(c);
        }
        i = i + 1;
    }
    proof {
        assert(lv.subrange(0, list@.len() as int) =~= lv);
    }
    out
}

/// Whether some message of `v` carries the id `id`.
fn contains_id(v: &Vec<Msg>, id: u64) -> (r: bool)
    ensures
        r == has_id(msgs_view(v@), id),
{
    proof {
        lemma_msgs_view(v@);
    }
    let mut i: usize = 0;
    while i < v.len()
        invariant
            i <= v@.len(),
            msgs_view(v@).len() == v@.len(),
            forall|k: int| 0 <= k < v@.len() ==> #[trigger] msgs_view(v@)[k] == msg_view(v@[k]),
            forall|k: int| 0 <= k < i ==> msgs_view(v@)[k].id != id,
        decreases v@.len() - i,
    {
        if v[i].id == id {
            assert(msgs_view(v@)[i as int].id == id);
            return true;
        }
        i = i + 1;
    }
    false
}

/// Appends to `hist` each message of `list` whose id `hist` does not hold yet.
fn append_new(hist: &mut Vec<Msg>, list: &Vec<Msg>, Ghost(pre): Ghost<Seq<MsgV>>)
    requires
        msgs_view(old(hist)@) == dedup_by_id(pre),
    ensures
        msgs_view(final(hist)@) == dedup_by_id(pre + msgs_view(list@)),
{
    let ghost lv = msgs_view(list@);
    proof {
        lemma_msgs_view(list@);
        assert(pre + lv.subrange(0, 0) =~= pre);
    }
    let mut i: usize = 0;
    while i < list.len()
        invariant
            i <= list@.len(),
            lv == msgs_view(list@),
            lv.len() == list@.len(),
            forall|k: int| 0 <= k < list@.len() ==> #[trigger] lv[k] == msg_view(list@[k]),
            msgs_view(hist@) == dedup_by_id(pre + lv.subrange(0, i as int)),
        decreases list@.len() - i,
    {
        proof {
            assert((pre + lv.subrange(0, i as int + 1)).drop_last() =~= pre + lv.subrange(0, i as int));
            assert((pre + lv.subrange(0, i as int + 1)).last() == lv[i as int]);
        }
        if !contains_id(hist, list[i].id) {
            let c = list[i].copy();
            proof {
                lemma_msgs_view_push(hist@, c);
            }
            hist.push(c);
        }
        i = i + 1;
    }
    proof {
        assert(lv.subrange(0, list@.len() as int) =~= lv);
    }
}

/// A stable insertion sort of `v` by the history ordering of requester `q`.
fn sort_history(v: &Vec<Msg>, q: &String) -> (out: Vec<Msg>)
    ensures
        msgs_view(out@).to_multiset() == msgs_view(v@).to_multiset(),
        sorted_at(msgs_view(out@), q@),
        exists|pos: Seq<int>| stable_from(msgs_view(out@), msgs_view(v@), pos, q@),
        strict_weak_on(msgs_view(v@), q@) ==> sorted_by_precedes(msgs_view(out@), q@),
{
    let ghost vv = msgs_view(v@);
    let ghost mut pos: Seq<int> = Seq::empty();
    proof {
        lemma_msgs_view(v@);
        assert(vv.subrange(0, 0) =~= Seq::<MsgV>::empty());
        assert(msgs_view(Seq::<Msg>::empty()) =~= Seq::<MsgV>::empty());
    }
    let mut out: Vec<Msg> = Vec::new();
    let mut i: usize = 0;
    while i < v.len()
        invariant
            i <= v@.len(),
            vv == msgs_view(v@),
            vv.len() == v@.len(),
            forall|k: int| 0 <= k < v@.len() ==> #[trigger] vv[k] == msg_view(v@[k]),
            msgs_view(out@).to_multiset() == vv.subrange(0, i as int).to_multiset(),
            sorted_at(msgs_view(out@), q@),
            stable_from(msgs_view(out@), vv, pos, q@),
            forall|k: int| 0 <= k < pos.len() ==> #[trigger] pos[k] < i,
            strict_weak_on(vv, q@) ==> sorted_by_precedes(msgs_view(out@), q@),
        decreases v@.len() - i,
    {
        let x = &v[i];
        let ghost ov = msgs_view(out@);
        proof {
            lemma_msgs_view(out@);
        }
        let mut p: usize = out.len();
        while p > 0 && msg_precedes(x, &out[p - 1], q)
            invariant
                p <= out@.len(),
                ov == msgs_view(out@),
                ov.len() == out@.len(),
                forall|k: int| 0 <= k < out@.len() ==> #[trigger] ov[k] == msg_view(out@[k]),
                forall|k: int| p <= k < ov.len() ==> date_in(x@, q@) <= date_in(#[trigger] ov[k], q@),
                forall|k: int| p <= k < ov.len() ==> #[trigger] precedes(x@, ov[k], q@),
            decreases p,
        {
            p = p - 1;
        }
        let c = x.copy();
        proof {
            lemma_msgs_view_insert(out@, p as int, c);
            let nv = ov.insert(p as int, x@);
            let np = pos.insert(p as int, i as int);
            assert(x@ == vv[i as int]);
            if p > 0 {
                assert(!precedes(x@, ov[p - 1], q@));
            }
            assert forall|a: int, b: int| 0 <= a < b < nv.len() implies date_in(nv[a], q@) <= date_in(
                nv[b],
                q@,
            ) by {
                if a < p && b > p {
                    assert(date_in(ov[a], q@) <= date_in(ov[b - 1], q@));
                } else if a < p && b == p {
                    assert(date_in(ov[a], q@) <= date_in(ov[p - 1], q@));
                } else if a > p {
                    assert(date_in(ov[a - 1], q@) <= date_in(ov[b - 1], q@));
                }
            }
            assert forall|k: int| 0 <= k < nv.len() implies 0 <= #[trigger] np[k] < vv.len() && nv[k]
                == vv[np[k]] by {
                if k > p {
                    assert(np[k] == pos[k - 1]);
                } else if k < p {
                    assert(np[k] == pos[k]);
                }
            }
            assert forall|a: int, b: int| 0 <= a < b < nv.len() implies np[a] != np[b] by {
                if a < p && b > p {
                    assert(pos[b - 1] < i);
                } else if a < p && b == p {
                    assert(pos[a] < i);
                } else if a == p {
                    assert(pos[b - 1] < i);
                }
            }
            assert forall|a: int, b: int|
                0 <= a < b < nv.len() && !precedes(nv[a], nv[b], q@) && !precedes(
                    nv[b],
                    nv[a],
                    q@,
                ) implies np[a] < np[b] by {
                if a < p && b > p {
                    assert(nv[a] == ov[a] && nv[b] == ov[b - 1]);
                } else if a < p && b == p {
                    assert(pos[a] < i);
                } else if a == p {
                    assert(precedes(x@, ov[b - 1], q@));
                } else if b < p {
                    assert(nv[a] == ov[a] && nv[b] == ov[b]);
                } else {
                    assert(nv[a] == ov[a - 1] && nv[b] == ov[b - 1]);
                }
            }
            assert(stable_from(nv, vv, np, q@));
            if strict_weak_on(vv, q@) {
                assert forall|a: int, b: int| 0 <= a < b < nv.len() implies !#[trigger] precedes(
                    nv[b],
                    nv[a],
                    q@,
                ) by {
                    if a < p && b > p {
                        assert(nv[a] == ov[a] && nv[b] == ov[b - 1]);
                    } else if a < p && b == p {
                        if a < p - 1 {
                            assert(!precedes(ov[p - 1], ov[a], q@));
                            assert(ov[p - 1] == vv[pos[p - 1]]);
                            assert(ov[a] == vv[pos[a]]);
                            assert(!precedes(vv[i as int], vv[pos[p - 1]], q@));
                            assert(!precedes(vv[pos[p - 1]], vv[pos[a]], q@));
                        }
                    } else if a == p {
                        assert(precedes(x@, ov[b - 1], q@));
                        assert(ov[b - 1] == vv[pos[b - 1]]);
                        assert(precedes(vv[i as int], vv[pos[b - 1]], q@));
                    } else if b < p {
                        assert(nv[a] == ov[a] && nv[b] == ov[b]);
                    } else {
                        assert(nv[a] == ov[a - 1] && nv[b] == ov[b - 1]);
                    }
                }
            }
            assert forall|k: int| 0 <= k < np.len() implies #[trigger] np[k] < i + 1 by {
                if k > p {
                    assert(np[k] == pos[k - 1]);
                } else if k < p {
                    assert(np[k] == pos[k]);
                }
            }
            pos = np;
            assert(vv.subrange(0, i as int + 1) =~= vv.subrange(0, i as int).push(vv[i as int]));
            vstd::seq_lib::to_multiset_build(vv.subrange(0, i as int), vv[i as int]);
        }
        out.insert(p, c);
        i = i + 1;
    }
    proof {
        assert(vv.subrange(0, v@.len() as int) =~= vv);
    }
    out
}

/// The state of one global snapshot while responses come in.
#[derive(Debug)]
pub struct Snapshot {
    local_id: String,
    dates: Clock,
    messages: Vec<(String, Vec<Msg>)>,
    msg_history: Vec<Msg>,
}

impl Snapshot {
    /// The node that asked for the snapshot.
    pub closed spec fn requester(&self) -> Seq<char> {
        self.local_id@
    }

    /// Each responder with the list it sent, in order of arrival.
    pub closed spec fn responses(&self) -> Seq<(Seq<char>, Seq<MsgV>)> {
        self.messages@.map_values(|e: (String, Vec<Msg>)| (e.0@, msgs_view(e.1@)))
    }

    /// The date of each node's cut: the requester's own, and each responder's.
    pub closed spec fn date_map(&self) -> Map<Seq<char>, u64> {
        self.dates.map()
    }

    /// The sorted history that the last dump produced.
    pub closed spec fn history(&self) -> Seq<MsgV> {
        msgs_view(self.msg_history@)
    }

    /// Every responder has a date, and none responded twice.
    pub closed spec fn wf(&self) -> bool {
        &&& self.dates.wf()
        &&& forall|i: int|
            0 <= i < self.responses().len() ==> self.dates.map().contains_key(
                #[trigger] self.responses()[i].0,
            )
        &&& forall|i: int, j: int|
            0 <= i < j < self.responses().len() ==> self.responses()[i].0 != self.responses()[j].0
    }

    pub fn new(app_id: String) -> (r: Snapshot)
        ensures
            r.wf(),
            r.requester() == app_id@,
            r.date_map() == map![app_id@ => 0u64],
            r.responses() == Seq::<(Seq<char>, Seq<MsgV>)>::empty(),
            r.history() == Seq::<MsgV>::empty(),
    {
        let dates = Clock::new(app_id.clone());
        let r = Snapshot { local_id: app_id, dates, messages: Vec::new(), msg_history: Vec::new() };
        assert(r.responses() =~= Seq::<(Seq<char>, Seq<MsgV>)>::empty());
        assert(r.history() =~= Seq::<MsgV>::empty());
        r
    }

    /// A snapshot of `app_id` seeded with its own view: its date and its saved messages.
    pub fn start(app_id: String, date: u64, saved: &Vec<Msg>) -> (r: Snapshot)
        ensures
            r.wf(),
            r.requester() == app_id@,
            r.date_map() == map![app_id@ => date],
            r.responses() == seq![(app_id@, msgs_view(saved@))],
            r.history() == Seq::<MsgV>::empty(),
    {
        let mut r = Snapshot::new(app_id.clone());
        r.dates.set(&app_id, date);
        let list = copy_all(saved);
        r.messages.push((app_id, list));
        proof {
            assert(r.date_map() =~= map![app_id@ => date]);
            assert(r.responses() =~= seq![(app_id@, msgs_view(saved@))]);
        }
        r
    }

    /// The date of each node's cut.
    pub fn dates(&self) -> (r: &Clock)
        ensures
            r.map() == self.date_map(),
    {
        &self.dates
    }

    /// The node id of the requester.
    pub fn local_id(&self) -> (r: &String)
        ensures
            r@ == self.requester(),
    {
        &self.local_id
    }

    /// The responses kept so far (after a dump: only what each responder sent by its cut).
    pub fn messages(&self) -> (r: &Vec<(String, Vec<Msg>)>)
        ensures
            r@.len() == self.responses().len(),
            forall|i: int|
                0 <= i < r@.len() ==> (#[trigger] r@[i]).0@ == self.responses()[i].0 && msgs_view(
                    r@[i].1@,
                ) == self.responses()[i].1,
    {
        &self.messages
    }

    /// The sorted history that the last dump produced.
    pub fn msg_history(&self) -> (r: &Vec<Msg>)
        ensures
            msgs_view(r@) == self.history(),
    {
        &self.msg_history
    }

    /// `t` is `s` closed: each response cut down to what its sender had sent by its cut,
    /// and the history made of these lists, without repeated ids, sorted by the
    /// requester's dates. The sort is stable, and where `precedes` is a strict weak order
    /// on these messages no message comes after one it precedes. Every kept message lies
    /// within its sender's cut.
    pub open spec fn dumped(s: &Snapshot, t: &Snapshot) -> bool {
        &&& t.wf()
        &&& t.requester() == s.requester()
        &&& t.date_map() == s.date_map()
        &&& t.responses().len() == s.responses().len()
        &&& forall|i: int|
            0 <= i < s.responses().len() ==> #[trigger] t.responses()[i] == (
                s.responses()[i].0,
                within_cut(
                    s.responses()[i].1,
                    s.responses()[i].0,
                    date_or_zero(s.date_map(), s.responses()[i].0),
                ),
            )
        &&& t.history().to_multiset() == dedup_by_id(flatten(t.responses())).to_multiset()
        &&& sorted_at(t.history(), t.requester())
        &&& exists|pos: Seq<int>|
            stable_from(t.history(), dedup_by_id(flatten(t.responses())), pos, t.requester())
        &&& strict_weak_on(dedup_by_id(flatten(t.responses())), t.requester()) ==> sorted_by_precedes(
            t.history(),
            t.requester(),
        )
        &&& forall|i: int, j: int|
            0 <= i < t.responses().len() && 0 <= j < t.responses()[i].1.len() ==> before_cut(
                #[trigger] t.responses()[i].1[j],
                t.responses()[i].0,
                date_or_zero(t.date_map(), t.responses()[i].0),
            )
    }

    /// Closes the snapshot: keeps of each response only what its sender had sent by its
    /// cut, then gathers these lists into one history without repeated ids, sorted by the
    /// requester's dates.
    pub fn dump(&mut self)
        requires
            old(self).wf(),
        ensures
            Snapshot::dumped(old(self), final(self)),
    {
        let ghost old_rs = self.responses();
        let mut kept: Vec<(String, Vec<Msg>)> = Vec::new();
        let mut hist: Vec<Msg> = Vec::new();
        let mut i: usize = 0;
        proof {
            assert(msgs_view(hist@) =~= Seq::<MsgV>::empty());
        }
        while i < self.messages.len()
            invariant
                i <= self.messages@.len(),
                old_rs == self.responses(),
                old_rs.len() == self.messages@.len(),
                self.wf(),
                kept@.len() == i,
                forall|k: int|
                    0 <= k < i ==> (#[trigger] kept@[k]).0@ == old_rs[k].0 && msgs_view(kept@[k].1@)
                        == within_cut(old_rs[k].1, old_rs[k].0, date_or_zero(self.date_map(), old_rs[k].0)),
                msgs_view(hist@) == dedup_by_id(
                    flatten(kept@.map_values(|e: (String, Vec<Msg>)| (e.0@, msgs_view(e.1@)))),
                ),
            decreases self.messages@.len() - i,
        {
            let r = &self.messages[i].0;
            let d = self.dates.date(r);
            proof {
                assert(old_rs[i as int] == (self.messages@[i as int].0@, msgs_view(self.messages@[i as int].1@)));
            }
            let list = keep_within_cut(&self.messages[i].1, r, d);
            let ghost pre = flatten(kept@.map_values(|e: (String, Vec<Msg>)| (e.0@, msgs_view(e.1@))));
            append_new(&mut hist, &list, Ghost(pre));
            let ghost kv_old = kept@.map_values(|e: (String, Vec<Msg>)| (e.0@, msgs_view(e.1@)));
            kept.push((r.clone(), list));
            proof {
                let kv = kept@.map_values(|e: (String, Vec<Msg>)| (e.0@, msgs_view(e.1@)));
                assert(kv.drop_last() =~= kv_old);
            }
            i = i + 1;
        }
        self.messages = kept;
        let sorted = sort_history(&hist, &self.local_id);
        self.msg_history = sorted;
        proof {
            assert forall|a: int, b: int| 0 <= a < b < self.responses().len() implies self.responses()[a].0
                != self.responses()[b].0 by {
                assert(self.responses()[a].0 == old_rs[a].0);
                assert(self.responses()[b].0 == old_rs[b].0);
            }
            assert forall|a: int| 0 <= a < self.responses().len() implies self.date_map().contains_key(
                #[trigger] self.responses()[a].0,
            ) by {
                assert(self.responses()[a].0 == old_rs[a].0);
            }
            assert forall|a: int, j: int|
                0 <= a < self.responses().len() && 0 <= j < self.responses()[a].1.len() implies before_cut(
                #[trigger] self.responses()[a].1[j],
                self.responses()[a].0,
                date_or_zero(self.date_map(), self.responses()[a].0),
            ) by {
                lemma_within_cut(old_rs[a].1, old_rs[a].0, date_or_zero(self.date_map(), old_rs[a].0));
            }
        }
    }

    /// `t` is `s` after taking in the response `m`: a first response records its sender's
    /// date and, for a `SnapshotResponse`, its list; a second one from the same node is dropped.
    pub open spec fn added(s: &Snapshot, t: &Snapshot, m: MsgV) -> bool {
        &&& t.wf()
        &&& t.requester() == s.requester()
        &&& t.history() == s.history()
        &&& s.date_map().contains_key(m.sender_id) ==> t.date_map() == s.date_map()
            && t.responses() == s.responses()
        &&& !s.date_map().contains_key(m.sender_id) ==> {
            &&& t.date_map() == s.date_map().insert(m.sender_id, date_in(m, m.sender_id))
            &&& t.responses() == match m.header {
                crate::messages::HeaderV::SnapshotResponse(_, list) => s.responses().push(
                    (m.sender_id, list),
                ),
                _ => s.responses(),
            }
        }
    }

    /// Takes in the snapshot response `msg`. Its sender's date is the date its clock holds
    /// for the sender (0 where it holds none). A second response from the same node is dropped.
    pub fn add(&mut self, msg: Msg)
        requires
            old(self).wf(),
        ensures
            Snapshot::added(old(self), final(self), msg@),
    {
        if self.dates.contains(&msg.sender_id) {
            return ;
        }
        let d = msg.clock.date(&msg.sender_id);
        let ghost old_self = *self;
        let ghost mv = msg@;
        self.dates.set(&msg.sender_id, d);
        let Msg { id: _, sender_id, header, clock: _ } = msg;
        match header {
            Header::SnapshotResponse(_, list) => {
                let ghost sid = sender_id@;
                self.messages.push((sender_id, list));
                proof {
                    assert(self.responses() =~= old_self.responses().push((sid, msgs_view(list@))));
                    assert forall|i: int|
                        0 <= i < self.responses().len() implies self.dates.map().contains_key(
                        #[trigger] self.responses()[i].0,
                    ) by {
                        if i < old_self.responses().len() {
                            assert(self.responses()[i] == old_self.responses()[i]);
                        }
                    }
                }
            },
            _ => {
                proof {
                    assert(self.responses() == old_self.responses());
                }
            },
        }
    }
}

} // verus!
