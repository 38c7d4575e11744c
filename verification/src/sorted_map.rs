//! A map whose keys are kept in ascending order.
use vstd::prelude::*;

use crate::order;
use crate::order::{OrderedKey, Relative};

verus! {

/// A map from ordered keys, held as a vector of entries with ascending keys.
pub struct SortedMap<K: OrderedKey, V> {
    entries: Vec<(K, V)>,
}

/// The keys of a sequence of entries.
pub open spec fn entry_keys<K, V>(entries: Seq<(K, V)>) -> Seq<K> {
    Seq::new(entries.len(), |i: int| entries[i].0)
}

/// The map that a sequence of entries with distinct keys stands for.
pub open spec fn entry_map<K, V>(entries: Seq<(K, V)>) -> Map<K, V> {
    Map::new(
        |k: K| entry_keys(entries).contains(k),
        |k: K| entries[entry_keys(entries).index_of(k)].1,
    )
}

proof fn lemma_entry<K: OrderedKey, V>(entries: Seq<(K, V)>, i: int)
    requires
        order::ascending(entry_keys(entries)),
        0 <= i < entries.len(),
    ensures
        entry_map(entries).contains_key(entries[i].0),
        entry_map(entries)[entries[i].0] == entries[i].1,
{
    let keys = entry_keys(entries);
    order::lemma_ascending_distinct(keys);
    assert(keys[i] == entries[i].0);
    assert(keys.contains(keys[i]));
    let j = keys.index_of(keys[i]);
    assert(keys[j] == keys[i]);
}

proof fn lemma_no_entry<K: OrderedKey, V>(entries: Seq<(K, V)>, k: K)
    requires
        forall|i: int| 0 <= i < entries.len() ==> (#[trigger] entries[i]).0 != k,
    ensures
        !entry_map(entries).contains_key(k),
{
    let keys = entry_keys(entries);
    if keys.contains(k) {
        let i = choose|i: int| 0 <= i < keys.len() && keys[i] == k;
        assert(entries[i].0 == k);
    }
}

impl<K: OrderedKey, V> View for SortedMap<K, V> {
    type V = Map<K, V>;

    closed spec fn view(&self) -> Map<K, V> {
        entry_map(self.entries@)
    }
}

impl<K: OrderedKey, V> SortedMap<K, V> {
    #[verifier::type_invariant]
    spec fn well_formed(self) -> bool {
        order::ascending(entry_keys(self.entries@))
    }
}

impl<K: OrderedKey + Copy, V> SortedMap<K, V> {
    /// The empty map.
    pub fn new() -> (m: Self)
        ensures
            m@ == Map::<K, V>::empty(),
    {
        let m = SortedMap { entries: Vec::new() };
        assert(m@ =~= Map::<K, V>::empty());
        m
    }

    /// The position of the first entry whose key is not before `k`, and whether
    /// that entry's key is `k`.
    fn position(entries: &Vec<(K, V)>, k: &K) -> (r: (usize, bool))
        requires
            order::ascending(entry_keys(entries@)),
        ensures
            r.0 <= entries@.len(),
            r.1 ==> r.0 < entries@.len() && entries@[r.0 as int].0 == *k,
            forall|i: int| 0 <= i < r.0 ==> order::before((#[trigger] entries@[i]).0, *k),
            forall|i: int|
                (if r.1 {
                    r.0 + 1
                } else {
                    r.0 as int
                }) <= i < entries@.len() ==> order::before(*k, (#[trigger] entries@[i]).0),
    {
        let mut low: usize = 0;
        let mut high: usize = entries.len();
        let ghost keys = entry_keys(entries@);
        while low < high
            invariant
                keys == entry_keys(entries@),
                order::ascending(keys),
                low <= high <= entries@.len(),
                forall|i: int| 0 <= i < low ==> order::before((#[trigger] entries@[i]).0, *k),
                forall|i: int|
                    high <= i < entries@.len() ==> order::before(*k, (#[trigger] entries@[i]).0),
            decreases high - low,
        {
            let mid: usize = low + (high - low) / 2;
            match entries[mid].0.relate(k) {
                Relative::Less => {
                    proof {
                        assert forall|i: int| 0 <= i < mid + 1 implies order::before(
                            (#[trigger] entries@[i]).0,
                            *k,
                        ) by {
                            if i < mid {
                                assert(order::before(keys[i], keys[mid as int]));
                                order::lemma_before_transitive(entries@[i].0, entries@[mid as int].0, *k);
                            }
                        }
                    }
                    low = mid + 1;
                },
                Relative::Same => {
                    proof {
                        assert forall|i: int| 0 <= i < mid implies order::before(
                            (#[trigger] entries@[i]).0,
                            *k,
                        ) by {
                            assert(order::before(keys[i], keys[mid as int]));
                        }
                        assert forall|i: int| mid + 1 <= i < entries@.len() implies order::before(
                            *k,
                            (#[trigger] entries@[i]).0,
                        ) by {
                            assert(order::before(keys[mid as int], keys[i]));
                        }
                    }
                    return (mid, true);
                },
                Relative::Greater => {
                    proof {
                        assert forall|i: int| mid <= i < entries@.len() implies order::before(
                            *k,
                            (#[trigger] entries@[i]).0,
                        ) by {
                            if i > mid {
                                assert(order::before(keys[mid as int], keys[i]));
                                order::lemma_before_transitive(*k, entries@[mid as int].0, entries@[i].0);
                            }
                        }
                    }
                    high = mid;
                },
            }
        }
        (low, false)
    }

    /// The value of a key.
    pub fn get(&self, k: &K) -> (r: Option<&V>)
        ensures
            match r {
                Some(v) => self@.contains_key(*k) && self@[*k] == *v,
                None => !self@.contains_key(*k),
            },
    {
        proof {
            use_type_invariant(self);
        }
        let (at, found) = Self::position(&self.entries, k);
        if found {
            proof {
                lemma_entry(self.entries@, at as int);
            }
            Some(&self.entries[at].1)
        } else {
            proof {
                self.lemma_absent(*k, at as int);
            }
            None
        }
    }

    proof fn lemma_absent(self, k: K, at: int)
        requires
            0 <= at <= self.entries@.len(),
            forall|i: int| 0 <= i < at ==> order::before((#[trigger] self.entries@[i]).0, k),
            forall|i: int|
                at <= i < self.entries@.len() ==> order::before(k, (#[trigger] self.entries@[i]).0),
        ensures
            !self@.contains_key(k),
    {
        assert forall|i: int| 0 <= i < self.entries@.len() implies (#[trigger] self.entries@[i]).0
            != k by {
            if i < at {
                order::lemma_before_asymmetric(self.entries@[i].0, k);
            } else {
                order::lemma_before_asymmetric(k, self.entries@[i].0);
            }
        }
        lemma_no_entry(self.entries@, k);
    }

    /// Whether a key has a value.
    pub fn contains_key(&self, k: &K) -> (r: bool)
        ensures
            r == self@.contains_key(*k),
    {
        match self.get(k) {
            Some(_) => true,
            None => false,
        }
    }

    /// Sets the value of a key and hands back the value that it had.
    pub fn insert(&mut self, k: K, v: V) -> (r: Option<V>)
        ensures
            final(self)@ == old(self)@.insert(k, v),
            match r {
                Some(w) => old(self)@.contains_key(k) && old(self)@[k] == w,
                None => !old(self)@.contains_key(k),
            },
    {
        proof {
            use_type_invariant(&*self);
        }
        let removed = self.remove(&k);
        proof {
            use_type_invariant(&*self);
        }
        let mut entries: Vec<(K, V)> = Vec::new();
        std::mem::swap(&mut entries, &mut self.entries);
        let ghost before_insert = entries@;
        let (at, found) = Self::position(&entries, &k);
        proof {
            if found {
                lemma_entry(entries@, at as int);
            }
        }
        entries.insert(at, (k, v));
        proof {
            let keys = entry_keys(entries@);
            assert forall|i: int, j: int| 0 <= i < j < keys.len() implies order::before(
                #[trigger] keys[i],
                #[trigger] keys[j],
            ) by {
                let old_keys = entry_keys(before_insert);
                if j < at {
                    assert(keys[i] == old_keys[i] && keys[j] == old_keys[j]);
                } else if i > at {
                    assert(keys[i] == old_keys[i - 1] && keys[j] == old_keys[j - 1]);
                } else if i == at {
                    assert(keys[j] == before_insert[j - 1].0);
                } else if j == at {
                    assert(keys[i] == before_insert[i].0);
                } else {
                    assert(keys[i] == old_keys[i] && keys[j] == old_keys[j - 1]);
                }
            }
            lemma_insert_entry(before_insert, at as int, k, v);
        }
        self.entries = entries;
        assert(self@ =~= old(self)@.insert(k, v));
        removed
    }

    /// Removes a key and hands back the value that it had.
    pub fn remove(&mut self, k: &K) -> (r: Option<V>)
        ensures
            final(self)@ == old(self)@.remove(*k),
            match r {
                Some(w) => old(self)@.contains_key(*k) && old(self)@[*k] == w,
                None => !old(self)@.contains_key(*k),
            },
    {
        proof {
            use_type_invariant(&*self);
        }
        let (at, found) = Self::position(&self.entries, k);
        if !found {
            proof {
                self.lemma_absent(*k, at as int);
                assert(self@.remove(*k) =~= self@);
            }
            return None;
        }
        let mut entries: Vec<(K, V)> = Vec::new();
        std::mem::swap(&mut entries, &mut self.entries);
        let ghost before_removal = entries@;
        proof {
            lemma_entry(before_removal, at as int);
        }
        let (_, v) = entries.remove(at);
        proof {
            let keys = entry_keys(entries@);
            let old_keys = entry_keys(before_removal);
            assert forall|i: int, j: int| 0 <= i < j < keys.len() implies order::before(
                #[trigger] keys[i],
                #[trigger] keys[j],
            ) by {
                let a = if i < at {
                    i
                } else {
                    i + 1
                };
                let b = if j < at {
                    j
                } else {
                    j + 1
                };
                assert(keys[i] == old_keys[a] && keys[j] == old_keys[b]);
            }
            lemma_remove_entry(before_removal, at as int);
        }
        self.entries = entries;
        assert(self@ =~= old(self)@.remove(*k));
        Some(v)
    }

    /// The number of keys.
    pub fn len(&self) -> (r: usize)
        ensures
            r == self@.len(),
            self@.dom().finite(),
    {
        proof {
            use_type_invariant(self);
            let keys = entry_keys(self.entries@);
            order::lemma_ascending_distinct(keys);
            keys.unique_seq_to_set();
            assert(self@.dom() =~= keys.to_set());
        }
        self.entries.len()
    }

    /// The keys in ascending order.
    pub fn keys(&self) -> (r: Vec<K>)
        ensures
            r@ == order::sorted(self@.dom()),
            order::ascending(r@),
            r@.no_duplicates(),
            r@.to_set() == self@.dom(),
            self@.dom().finite(),
    {
        proof {
            use_type_invariant(self);
        }
        let mut out: Vec<K> = Vec::new();
        let mut i: usize = 0;
        while i < self.entries.len()
            invariant
                i <= self.entries@.len(),
                out@ == entry_keys(self.entries@).take(i as int),
            decreases self.entries@.len() - i,
        {
            out.push(self.entries[i].0);
            i += 1;
            assert(out@ =~= entry_keys(self.entries@).take(i as int));
        }
        proof {
            let keys = entry_keys(self.entries@);
            assert(out@ =~= keys);
            assert(keys.to_set() =~= self@.dom());
            order::lemma_sorted_is(keys);
            order::lemma_ascending_distinct(keys);
        }
        out
    }
}

proof fn lemma_insert_entry<K: OrderedKey, V>(entries: Seq<(K, V)>, at: int, k: K, v: V)
    requires
        0 <= at <= entries.len(),
        order::ascending(entry_keys(entries)),
        order::ascending(entry_keys(entries.insert(at, (k, v)))),
    ensures
        entry_map(entries.insert(at, (k, v))) == entry_map(entries).insert(k, v),
{
    let next = entries.insert(at, (k, v));
    let a = entry_map(next);
    let b = entry_map(entries).insert(k, v);
    assert forall|x: K| #[trigger]
        a.contains_key(x) == b.contains_key(x) && (a.contains_key(x) ==> a[x] == b[x]) by {
        if a.contains_key(x) {
            let i = entry_keys(next).index_of(x);
            assert(entry_keys(next)[i] == x);
            if i < at {
                assert(next[i] == entries[i]);
                lemma_entry(entries, i);
                order::lemma_ascending_distinct(entry_keys(next));
                assert(entry_keys(next)[at] == k);
            } else if i > at {
                assert(next[i] == entries[i - 1]);
                lemma_entry(entries, i - 1);
                order::lemma_ascending_distinct(entry_keys(next));
                assert(entry_keys(next)[at] == k);
            } else {
                assert(next[i] == (k, v));
            }
        }
        if b.contains_key(x) {
            if x == k {
                assert(next[at] == (k, v));
                lemma_entry(next, at);
            } else {
                let i = entry_keys(entries).index_of(x);
                assert(entry_keys(entries)[i] == x);
                if i < at {
                    assert(next[i] == entries[i]);
                    lemma_entry(next, i);
                } else {
                    assert(next[i + 1] == entries[i]);
                    lemma_entry(next, i + 1);
                }
            }
        }
    }
    assert(a.dom() =~= b.dom());
    assert(a =~= b);
}

proof fn lemma_remove_entry<K: OrderedKey, V>(entries: Seq<(K, V)>, at: int)
    requires
        0 <= at < entries.len(),
        order::ascending(entry_keys(entries)),
        order::ascending(entry_keys(entries.remove(at))),
    ensures
        entry_map(entries.remove(at)) == entry_map(entries).remove(entries[at].0),
{
    let next = entries.remove(at);
    assert(next.insert(at, entries[at]) =~= entries);
    lemma_insert_entry(next, at, entries[at].0, entries[at].1);
    let k = entries[at].0;
    order::lemma_ascending_distinct(entry_keys(entries));
    assert forall|i: int| 0 <= i < next.len() implies (#[trigger] next[i]).0 != k by {
        let j = if i < at {
            i
        } else {
            i + 1
        };
        assert(next[i] == entries[j]);
        assert(entry_keys(entries)[j] == entries[j].0);
        assert(entry_keys(entries)[at] == k);
    }
    lemma_no_entry(next, k);
    assert(entry_map(entries).remove(k) =~= entry_map(next));
}

} // verus!
