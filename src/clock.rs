use vstd::prelude::*;

verus! {

/// The entries of a clock, in the order in which they are stored and encoded.
pub type Entries = Seq<(Seq<char>, u64)>;

/// No node id occurs twice among the entries.
pub open spec fn keys_distinct(s: Entries) -> bool {
    forall|i: int, j: int| 0 <= i < j < s.len() ==> s[i].0 != s[j].0
}

/// The mapping from node id to date that the entries stand for.
pub open spec fn entries_map(s: Entries) -> Map<Seq<char>, u64>
    decreases s.len(),
{
    if s.len() == 0 {
        Map::empty()
    } else {
        entries_map(s.drop_last()).insert(s.last().0, s.last().1)
    }
}

/// The date stored for `k`, or 0 where there is none.
pub open spec fn date_or_zero(m: Map<Seq<char>, u64>, k: Seq<char>) -> u64 {
    if m.contains_key(k) {
        m[k]
    } else {
        0
    }
}

/// Pointwise maximum of two clocks; an absent entry counts as 0.
pub open spec fn merged(a: Map<Seq<char>, u64>, b: Map<Seq<char>, u64>) -> Map<Seq<char>, u64> {
    Map::new(
        |k: Seq<char>| a.contains_key(k) || b.contains_key(k),
        |k: Seq<char>|
            if date_or_zero(a, k) >= date_or_zero(b, k) {
                date_or_zero(a, k)
            } else {
                date_or_zero(b, k)
            },
    )
}

/// The date that follows `d`; the largest date stays where it is.
pub open spec fn next_date(d: u64) -> u64 {
    if d < u64::MAX {
        (d + 1) as u64
    } else {
        d
    }
}

/// `m` with the entry of `k` moved on by one (an absent entry counts as 0).
pub open spec fn incremented(m: Map<Seq<char>, u64>, k: Seq<char>) -> Map<Seq<char>, u64> {
    m.insert(k, next_date(date_or_zero(m, k)))
}

proof fn lemma_entries_map_contains(s: Entries, k: Seq<char>)
    ensures
        entries_map(s).contains_key(k) <==> exists|i: int| 0 <= i < s.len() && s[i].0 == k,
    decreases s.len(),
{
    if s.len() > 0 {
        lemma_entries_map_contains(s.drop_last(), k);
        if entries_map(s).contains_key(k) && k != s.last().0 {
            let i = choose|i: int| 0 <= i < s.drop_last().len() && s.drop_last()[i].0 == k;
            assert(s[i].0 == k);
        }
        if exists|i: int| 0 <= i < s.len() && s[i].0 == k {
            let i = choose|i: int| 0 <= i < s.len() && s[i].0 == k;
            if i < s.len() - 1 {
                assert(s.drop_last()[i].0 == k);
            }
        }
    }
}

proof fn lemma_entries_map_last(s: Entries, i: int)
    requires
        0 <= i < s.len(),
        forall|j: int| i < j < s.len() ==> s[j].0 != s[i].0,
    ensures
        entries_map(s).contains_key(s[i].0),
        entries_map(s)[s[i].0] == s[i].1,
    decreases s.len(),
{
    if i < s.len() - 1 {
        assert(s.drop_last()[i] == s[i]);
        lemma_entries_map_last(s.drop_last(), i);
    }
}

proof fn lemma_entries_map_push(s: Entries, e: (Seq<char>, u64))
    ensures
        entries_map(s.push(e)) == entries_map(s).insert(e.0, e.1),
{
    assert(s.push(e).drop_last() =~= s);
}

proof fn lemma_entries_map_update(s: Entries, i: int, d: u64)
    requires
        keys_distinct(s),
        0 <= i < s.len(),
    ensures
        entries_map(s.update(i, (s[i].0, d))) == entries_map(s).insert(s[i].0, d),
    decreases s.len(),
{
    let t = s.update(i, (s[i].0, d));
    if i == s.len() - 1 {
        assert(t.drop_last() =~= s.drop_last());
        assert(entries_map(t) =~= entries_map(s).insert(s[i].0, d));
    } else {
        assert(t.drop_last() =~= s.drop_last().update(i, (s[i].0, d)));
        lemma_entries_map_update(s.drop_last(), i, d);
        assert(s[i].0 != s.last().0);
        assert(entries_map(t) =~= entries_map(s).insert(s[i].0, d));
    }
}

/// A vector clock: the latest known date of each node.
#[derive(Debug, Clone, PartialEq)]
pub struct Clock {
    entries: Vec<(String, u64)>,
}

impl View for Clock {
    type V = Entries;

    closed spec fn view(&self) -> Entries {
        self.entries@.map_values(|e: (String, u64)| (e.0@, e.1))
    }
}

impl Clock {
    pub open spec fn wf(&self) -> bool {
        keys_distinct(self@)
    }

    pub open spec fn map(&self) -> Map<Seq<char>, u64> {
        entries_map(self@)
    }

    /// A clock that knows only `app_id`, at date 0.
    pub fn new(app_id: String) -> (r: Clock)
        ensures
            r.wf(),
            r@ == seq![(app_id@, 0u64)],
            r.map() == map![app_id@ => 0u64],
    {
        let mut entries: Vec<(String, u64)> = Vec::new();
        let ghost id = app_id@;
        entries.push((app_id, 0));
        let r = Clock { entries };
        proof {
            assert(r@ =~= seq![(id, 0u64)]);
            lemma_entries_map_push(Seq::empty(), (id, 0u64));
            assert(r@ =~= Seq::<(Seq<char>, u64)>::empty().push((id, 0u64)));
            assert(r.map() =~= map![id => 0u64]);
        }
        r
    }

    /// A clock with no entry.
    pub fn empty() -> (r: Clock)
        ensures
            r.wf(),
            r@ == Seq::<(Seq<char>, u64)>::empty(),
            r.map() == Map::<Seq<char>, u64>::empty(),
    {
        let r = Clock { entries: Vec::new() };
        assert(r@ =~= Seq::<(Seq<char>, u64)>::empty());
        r
    }

    /// The number of entries.
    pub fn len(&self) -> (r: usize)
        ensures
            r == self@.len(),
    {
        self.entries.len()
    }

    /// The entry stored at position `i`.
    pub fn entry(&self, i: usize) -> (r: (&String, u64))
        requires
            i < self@.len(),
        ensures
            r.0@ == self@[i as int].0,
            r.1 == self@[i as int].1,
    {
        (&self.entries[i].0, self.entries[i].1)
    }

    /// The last position that holds `id`.
    fn find(&self, id: &String) -> (r: Option<usize>)
        ensures
            match r {
                Some(i) => i < self@.len() && self@[i as int].0 == id@ && forall|j: int|
                    i < j < self@.len() ==> self@[j].0 != id@,
                None => forall|i: int| 0 <= i < self@.len() ==> self@[i].0 != id@,
            },
    {
        let mut i: usize = self.entries.len();
        while i > 0
            invariant
                i <= self@.len(),
                self@.len() == self.entries@.len(),
                forall|j: int| i <= j < self@.len() ==> self@[j].0 != id@,
            decreases i,
        {
            if self.entries[i - 1].0 == *id {
                return Some(i - 1);
            }
            i = i - 1;
        }
        None
    }

    /// The date stored for `id`, if any.
    pub fn get(&self, id: &String) -> (r: Option<u64>)
        ensures
            r == (if self.map().contains_key(id@) {
                Some(self.map()[id@])
            } else {
                None::<u64>
            }),
    {
        proof {
            lemma_entries_map_contains(self@, id@);
        }
        match self.find(id) {
            Some(i) => {
                proof {
                    lemma_entries_map_last(self@, i as int);
                }
                Some(self.entries[i].1)
            },
            None => None,
        }
    }

    /// The date stored for `id`, or 0 where there is none.
    pub fn date(&self, id: &String) -> (r: u64)
        ensures
            r == date_or_zero(self.map(), id@),
    {
        match self.get(id) {
            Some(d) => d,
            None => 0,
        }
    }

    /// Whether `id` has an entry.
    pub fn contains(&self, id: &String) -> (r: bool)
        ensures
            r == self.map().contains_key(id@),
    {
        proof {
            lemma_entries_map_contains(self@, id@);
        }
        self.find(id).is_some()
    }

    /// Stores `date` for `id`: in place where `id` has an entry, else at the end.
    pub fn set(&mut self, id: &String, date: u64)
        requires
            old(self).wf(),
        ensures
            final(self).wf(),
            final(self).map() == old(self).map().insert(id@, date),
    {
        match self.find(id) {
            Some(i) => {
                let ghost s = self@;
                self.entries.set(i, (id.clone(), date));
                proof {
                    assert(self@ =~= s.update(i as int, (s[i as int].0, date)));
                    lemma_entries_map_update(s, i as int, date);
                }
            },
            None => {
                let ghost s = self@;
                self.entries.push((id.clone(), date));
                proof {
                    assert(self@ =~= s.push((id@, date)));
                    lemma_entries_map_push(s, (id@, date));
                }
            },
        }
    }

    /// Moves the entry of `id` on by one; an absent entry starts from 0.
    pub fn increment(&mut self, id: &String)
        requires
            old(self).wf(),
        ensures
            final(self).wf(),
            final(self).map() == incremented(old(self).map(), id@),
    {
        let d = self.date(id);
        let n = if d < u64::MAX {
            d + 1
        } else {
            d
        };
        self.set(id, n);
    }

    /// Takes in every entry of `other`, keeping the larger date of the two.
    pub fn merge(&mut self, other: &Clock)
        requires
            old(self).wf(),
            other.wf(),
        ensures
            final(self).wf(),
            final(self).map() == merged(old(self).map(), other.map()),
    {
        let ghost a = self.map();
        let ghost o = other@;
        let mut i: usize = 0;
        proof {
            assert(o.subrange(0, 0) =~= Seq::<(Seq<char>, u64)>::empty());
            assert(self.map() =~= merged(a, entries_map(o.subrange(0, 0))));
        }
        while i < other.entries.len()
            invariant
                i <= o.len(),
                o == other@,
                o.len() == other.entries@.len(),
                keys_distinct(o),
                self.wf(),
                self.map() == merged(a, entries_map(o.subrange(0, i as int))),
            decreases other.entries.len() - i,
        {
            let id = &other.entries[i].0;
            let d = other.entries[i].1;
            let ghost b = entries_map(o.subrange(0, i as int));
            let ghost k = o[i as int].0;
            proof {
                assert(o.subrange(0, i as int + 1) =~= o.subrange(0, i as int).push(o[i as int]));
                lemma_entries_map_push(o.subrange(0, i as int), o[i as int]);
                lemma_entries_map_contains(o.subrange(0, i as int), k);
                assert forall|j: int| 0 <= j < i implies o.subrange(0, i as int)[j].0 != k by {
                    assert(o[j].0 != o[i as int].0);
                }
                assert(!b.contains_key(k));
            }
            let cur = self.get(id);
            match cur {
                Some(c) => {
                    if c < d {
                        self.set(id, d);
                    }
                },
                None => {
                    self.set(id, d);
                },
            }
            proof {
                assert(self.map() =~= merged(a, entries_map(o.subrange(0, i as int + 1))));
            }
            i = i + 1;
        }
        proof {
            assert(o.subrange(0, o.len() as int) =~= o);
        }
    }

    /// Whether every node of `self` has an entry in `other`.
    pub fn covered_by(&self, other: &Clock) -> (r: bool)
        ensures
            r == (forall|k: Seq<char>| self.map().contains_key(k) ==> other.map().contains_key(k)),
    {
        let mut i: usize = 0;
        while i < self.entries.len()
            invariant
                i <= self@.len(),
                self@.len() == self.entries@.len(),
                forall|j: int| 0 <= j < i ==> other.map().contains_key(#[trigger] self@[j].0),
            decreases self.entries.len() - i,
        {
            if !other.contains(&self.entries[i].0) {
                proof {
                    lemma_entries_map_contains(self@, self@[i as int].0);
                }
                return false;
            }
            i = i + 1;
        }
        proof {
            assert forall|k: Seq<char>| self.map().contains_key(k) implies other.map().contains_key(k) by {
                lemma_entries_map_contains(self@, k);
                let j = choose|j: int| 0 <= j < self@.len() && self@[j].0 == k;
            }
        }
        true
    }

    /// Appends the entry `(id, date)` as it stands, even where `id` already has one.
    pub(crate) fn push_entry(&mut self, id: String, date: u64)
        ensures
            final(self)@ == old(self)@.push((id@, date)),
    {
        let ghost s = self@;
        self.entries.push((id, date));
        assert(self@ =~= s.push((id@, date)));
    }

    /// Whether no node has two entries.
    pub fn has_distinct_keys(&self) -> (r: bool)
        ensures
            r == self.wf(),
    {
        let mut i: usize = 0;
        while i < self.entries.len()
            invariant
                i <= self@.len(),
                self@.len() == self.entries@.len(),
                forall|a: int, b: int| 0 <= a < b < self@.len() && a < i ==> self@[a].0 != self@[b].0,
            decreases self.entries.len() - i,
        {
            let mut j: usize = i + 1;
            while j < self.entries.len()
                invariant
                    i < self@.len(),
                    i < j <= self@.len(),
                    self@.len() == self.entries@.len(),
                    forall|a: int, b: int| 0 <= a < b < self@.len() && a < i ==> self@[a].0 != self@[b].0,
                    forall|b: int| i < b < j ==> self@[i as int].0 != self@[b].0,
                decreases self.entries.len() - j,
            {
                if self.entries[i].0 == self.entries[j].0 {
                    assert(self@[i as int].0 == self@[j as int].0);
                    assert(!keys_distinct(self@));
                    return false;
                }
                j = j + 1;
            }
            i = i + 1;
        }
        true
    }

    /// A copy of this clock, entry for entry.
    pub fn copy(&self) -> (r: Clock)
        ensures
            r@ == self@,
    {
        let mut entries: Vec<(String, u64)> = Vec::new();
        let mut i: usize = 0;
        while i < self.entries.len()
            invariant
                i <= self@.len(),
                self@.len() == self.entries@.len(),
                entries@.len() == i,
                forall|j: int| 0 <= j < i ==> (#[trigger] entries@[j]).0@ == self@[j].0 && entries@[j].1 == self@[j].1,
            decreases self.entries.len() - i,
        {
            entries.push((self.entries[i].0.clone(), self.entries[i].1));
            i = i + 1;
        }
        let r = Clock { entries };
        assert(r@ =~= self@);
        r
    }
}

/// Merging a clock with itself gives it back unchanged.
pub proof fn lemma_merge_idempotent(c: Map<Seq<char>, u64>)
    ensures
        merged(c, c) == c,
{
    assert(merged(c, c) =~= c);
}

/// Merging is symmetric: the order of the two clocks does not matter.
pub proof fn lemma_merge_commutative(a: Map<Seq<char>, u64>, b: Map<Seq<char>, u64>)
    ensures
        merged(a, b) == merged(b, a),
{
    assert(merged(a, b) =~= merged(b, a));
}

/// After a merge every entry is at least the corresponding entry of either clock.
pub proof fn lemma_merge_dominates(a: Map<Seq<char>, u64>, b: Map<Seq<char>, u64>, k: Seq<char>)
    ensures
        date_or_zero(merged(a, b), k) >= date_or_zero(a, k),
        date_or_zero(merged(a, b), k) >= date_or_zero(b, k),
{
}

} // verus!
