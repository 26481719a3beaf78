//! A canonical ascending association list from entity keys to capacities.
//!
//! Every capacity snapshot is a sparse, ascending, key-deduplicated list, so one set of learned
//! capacities has exactly one representation. Raising an entry keeps the larger capacity.

use vstd::prelude::*;

verus! {

/// Keys strictly ascend along the list.
pub open spec fn keys_ascend(s: Seq<(usize, usize)>) -> bool {
    forall|i: int, j: int| 0 <= i < j < s.len() ==> s[i].0 < s[j].0
}

/// The capacity the list records for `key`, if any.
pub open spec fn spec_lookup(s: Seq<(usize, usize)>, key: usize) -> Option<usize>
    decreases s.len(),
{
    if s.len() == 0 {
        None
    } else if s[0].0 == key {
        Some(s[0].1)
    } else {
        spec_lookup(s.drop_first(), key)
    }
}

/// The list after raising `key` to at least `capacity`, keeping ascending order.
pub open spec fn spec_raise(s: Seq<(usize, usize)>, key: usize, capacity: usize) -> Seq<
    (usize, usize),
>
    decreases s.len(),
{
    if s.len() == 0 {
        seq![(key, capacity)]
    } else if s[0].0 == key {
        seq![(key, if s[0].1 >= capacity { s[0].1 } else { capacity })] + s.drop_first()
    } else if s[0].0 > key {
        seq![(key, capacity)] + s
    } else {
        seq![s[0]] + spec_raise(s.drop_first(), key, capacity)
    }
}

/// Max-merges an arbitrary association list, in order, into the canonical form.
pub open spec fn spec_merge_all(pairs: Seq<(usize, usize)>) -> Seq<(usize, usize)>
    decreases pairs.len(),
{
    if pairs.len() == 0 {
        Seq::empty()
    } else {
        let last = pairs.last();
        spec_raise(spec_merge_all(pairs.drop_last()), last.0, last.1)
    }
}

pub proof fn lemma_lookup_absent_below(s: Seq<(usize, usize)>, key: usize)
    requires
        keys_ascend(s),
        s.len() > 0,
        key < s[0].0,
    ensures
        spec_lookup(s, key) is None,
    decreases s.len(),
{
    let tail = s.drop_first();
    if s.len() > 1 {
        assert(tail[0] == s[1]);
        assert forall|i: int, j: int| 0 <= i < j < tail.len() implies tail[i].0 < tail[j].0 by {
            assert(tail[i] == s[i + 1] && tail[j] == s[j + 1]);
        }
        lemma_lookup_absent_below(tail, key);
    } else {
        assert(tail.len() == 0);
        assert(spec_lookup(tail, key) is None);
    }
}

pub proof fn lemma_lookup_member(s: Seq<(usize, usize)>, i: int)
    requires
        keys_ascend(s),
        0 <= i < s.len(),
    ensures
        spec_lookup(s, s[i].0) == Some(s[i].1),
    decreases s.len(),
{
    if i > 0 {
        lemma_lookup_member(s.drop_first(), i - 1);
    }
}

pub proof fn lemma_lookup_none(s: Seq<(usize, usize)>, key: usize)
    requires
        forall|i: int| 0 <= i < s.len() ==> s[i].0 != key,
    ensures
        spec_lookup(s, key) is None,
    decreases s.len(),
{
    if s.len() > 0 {
        lemma_lookup_none(s.drop_first(), key);
    }
}

pub proof fn lemma_lookup_some(s: Seq<(usize, usize)>, key: usize)
    requires
        spec_lookup(s, key) is Some,
    ensures
        exists|i: int| 0 <= i < s.len() && s[i].0 == key && s[i].1 == spec_lookup(s, key)->Some_0,
    decreases s.len(),
{
    if s[0].0 != key {
        lemma_lookup_some(s.drop_first(), key);
        let i = choose|i: int|
            0 <= i < s.drop_first().len() && s.drop_first()[i].0 == key && s.drop_first()[i].1
                == spec_lookup(s, key)->Some_0;
        assert(s[i + 1] == s.drop_first()[i]);
    }
}

/// Raising keeps the keys ascending, records the larger capacity for the raised key, and leaves
/// every other key unchanged.
pub proof fn lemma_raise(s: Seq<(usize, usize)>, key: usize, capacity: usize)
    requires
        keys_ascend(s),
    ensures
        keys_ascend(spec_raise(s, key, capacity)),
        forall|k: usize|
            #![trigger spec_lookup(spec_raise(s, key, capacity), k)]
            spec_lookup(spec_raise(s, key, capacity), k) == if k == key {
                match spec_lookup(s, key) {
                    None => Some(capacity),
                    Some(old) => Some(if old >= capacity { old } else { capacity }),
                }
            } else {
                spec_lookup(s, k)
            },
        forall|i: int|
            0 <= i < spec_raise(s, key, capacity).len() ==> (spec_raise(s, key, capacity)[i].0
                == key || exists|j: int| 0 <= j < s.len() && s[j].0 == spec_raise(s, key, capacity)[i].0),
    decreases s.len(),
{
    let r = spec_raise(s, key, capacity);
    if s.len() == 0 {
    } else if s[0].0 == key {
        assert(r.drop_first() =~= s.drop_first());
        assert forall|i: int| 0 <= i < r.len() implies (r[i].0 == key || exists|j: int|
            0 <= j < s.len() && s[j].0 == r[i].0) by {
            if i > 0 {
                assert(s[i].0 == r[i].0);
            }
        }
    } else if s[0].0 > key {
        assert(r.drop_first() =~= s);
        assert forall|k: usize| #![trigger spec_lookup(r, k)] k == key implies spec_lookup(s, k) is None by {
            lemma_lookup_absent_below(s, k);
        }
        assert forall|i: int| 0 <= i < r.len() implies (r[i].0 == key || exists|j: int|
            0 <= j < s.len() && s[j].0 == r[i].0) by {
            if i > 0 {
                assert(s[i - 1].0 == r[i].0);
            }
        }
    } else {
        let tail = s.drop_first();
        lemma_raise(tail, key, capacity);
        let rt = spec_raise(tail, key, capacity);
        assert(r.drop_first() =~= rt);
        assert forall|i: int| 0 <= i < r.len() implies (r[i].0 == key || exists|j: int|
            0 <= j < s.len() && s[j].0 == r[i].0) by {
            if i == 0 {
                assert(s[0].0 == r[0].0);
            } else {
                assert(r[i] == rt[i - 1]);
                if rt[i - 1].0 != key {
                    let j = choose|j: int| 0 <= j < tail.len() && tail[j].0 == rt[i - 1].0;
                    assert(s[j + 1].0 == r[i].0);
                }
            }
        }
        assert forall|i: int, j: int| 0 <= i < j < r.len() implies r[i].0 < r[j].0 by {
            if i == 0 {
                assert(r[j] == rt[j - 1]);
                if rt[j - 1].0 != key {
                    let m = choose|m: int| 0 <= m < tail.len() && tail[m].0 == rt[j - 1].0;
                    assert(s[m + 1].0 == rt[j - 1].0);
                }
            } else {
                assert(r[i] == rt[i - 1]);
                assert(r[j] == rt[j - 1]);
            }
        }
    }
}

/// A canonical ascending association list.
#[derive(Clone, Debug, PartialEq, Eq, Default)]
pub struct CapacityMap {
    entries: Vec<(usize, usize)>,
}

impl CapacityMap {
    pub closed spec fn entries_seq(&self) -> Seq<(usize, usize)> {
        self.entries@
    }

    pub open spec fn wf(&self) -> bool {
        keys_ascend(self.entries_seq())
    }

    pub fn new() -> (map: CapacityMap)
        ensures
            map.wf(),
            map.entries_seq() == Seq::<(usize, usize)>::empty(),
    {
        CapacityMap { entries: Vec::new() }
    }

    /// The recorded capacity of `key`.
    pub fn get(&self, key: usize) -> (capacity: Option<usize>)
        requires
            self.wf(),
        ensures
            capacity == spec_lookup(self.entries_seq(), key),
    {
        let mut i: usize = 0;
        while i < self.entries.len()
            invariant
                i <= self.entries@.len(),
                keys_ascend(self.entries@),
                forall|j: int| 0 <= j < i ==> self.entries@[j].0 != key,
            decreases self.entries@.len() - i,
        {
            if self.entries[i].0 == key {
                proof {
                    lemma_lookup_member(self.entries@, i as int);
                }
                return Some(self.entries[i].1);
            }
            i = i + 1;
        }
        proof {
            lemma_lookup_none(self.entries@, key);
        }
        None
    }

    /// The recorded capacity of `key`, or zero.
    pub fn floor(&self, key: usize) -> (capacity: usize)
        requires
            self.wf(),
        ensures
            capacity == match spec_lookup(self.entries_seq(), key) {
                None => 0,
                Some(c) => c,
            },
    {
        match self.get(key) {
            None => 0,
            Some(capacity) => capacity,
        }
    }

    /// Raises `key` to at least `capacity`, inserting it when absent.
    pub fn raise(&mut self, key: usize, capacity: usize)
        requires
            old(self).wf(),
        ensures
            final(self).wf(),
            final(self).entries_seq() == spec_raise(old(self).entries_seq(), key, capacity),
    {
        proof {
            lemma_raise(self.entries@, key, capacity);
        }
        let ghost initial = self.entries@;
        proof {
            assert(initial.subrange(0, initial.len() as int) =~= initial);
            assert(initial.subrange(0, 0) + spec_raise(initial, key, capacity) =~= spec_raise(
                initial,
                key,
                capacity,
            ));
        }
        let mut i: usize = 0;
        while i < self.entries.len() && self.entries[i].0 < key
            invariant
                i <= self.entries@.len(),
                self.entries@ == initial,
                keys_ascend(initial),
                forall|j: int| 0 <= j < i ==> initial[j].0 < key,
                spec_raise(initial, key, capacity) == initial.subrange(0, i as int)
                    + spec_raise(initial.subrange(i as int, initial.len() as int), key, capacity),
            decreases self.entries@.len() - i,
        {
            proof {
                let rest = initial.subrange(i as int, initial.len() as int);
                assert(rest.drop_first() =~= initial.subrange(i + 1, initial.len() as int));
                assert(initial.subrange(0, i + 1) =~= initial.subrange(0, i as int) + seq![
                    initial[i as int],
                ]);
                assert(initial.subrange(0, i as int) + spec_raise(rest, key, capacity)
                    =~= initial.subrange(0, i + 1) + spec_raise(
                    initial.subrange(i + 1, initial.len() as int),
                    key,
                    capacity,
                ));
            }
            i = i + 1;
        }
        let ghost rest = initial.subrange(i as int, initial.len() as int);
        if i < self.entries.len() && self.entries[i].0 == key {
            let current = self.entries[i].1;
            let raised = if current >= capacity { current } else { capacity };
            self.entries.set(i, (key, raised));
            proof {
                assert(rest.drop_first() =~= initial.subrange(i + 1, initial.len() as int));
                assert(self.entries@ =~= initial.subrange(0, i as int) + spec_raise(
                    rest,
                    key,
                    capacity,
                ));
            }
        } else {
            self.entries.insert(i, (key, capacity));
            proof {
                if i < initial.len() {
                    assert(rest[0].0 > key);
                } else {
                    assert(rest.len() == 0);
                }
                assert(self.entries@ =~= initial.subrange(0, i as int) + spec_raise(
                    rest,
                    key,
                    capacity,
                ));
            }
        }
    }

    /// The canonical ascending entries.
    pub fn to_vec(&self) -> (entries: Vec<(usize, usize)>)
        ensures
            entries@ == self.entries_seq(),
    {
        let mut out: Vec<(usize, usize)> = Vec::new();
        let mut i: usize = 0;
        while i < self.entries.len()
            invariant
                i <= self.entries@.len(),
                out@ == self.entries@.subrange(0, i as int),
            decreases self.entries@.len() - i,
        {
            out.push(self.entries[i]);
            proof {
                assert(out@ =~= self.entries@.subrange(0, i + 1));
            }
            i = i + 1;
        }
        proof {
            assert(out@ =~= self.entries@);
        }
        out
    }

    /// Collapses an arbitrary association list into the canonical ascending, max-merged form.
    pub fn from_pairs(pairs: &[(usize, usize)]) -> (map: CapacityMap)
        ensures
            map.wf(),
            map.entries_seq() == spec_merge_all(pairs@),
    {
        let mut map = CapacityMap::new();
        let mut i: usize = 0;
        while i < pairs.len()
            invariant
                i <= pairs@.len(),
                map.wf(),
                map.entries_seq() == spec_merge_all(pairs@.subrange(0, i as int)),
            decreases pairs@.len() - i,
        {
            proof {
                let next = pairs@.subrange(0, i + 1);
                assert(next.drop_last() =~= pairs@.subrange(0, i as int));
                assert(next.last() == pairs@[i as int]);
            }
            map.raise(pairs[i].0, pairs[i].1);
            i = i + 1;
        }
        proof {
            assert(pairs@.subrange(0, pairs@.len() as int) =~= pairs@);
        }
        map
    }
}

} // verus!
