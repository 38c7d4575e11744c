//! A set whose elements are kept in ascending order.
use vstd::prelude::*;

use crate::order;
use crate::order::OrderedKey;
use crate::sorted_map::SortedMap;

verus! {

/// A set of ordered keys.
pub struct SortedSet<K: OrderedKey> {
    members: SortedMap<K, ()>,
}

impl<K: OrderedKey> View for SortedSet<K> {
    type V = Set<K>;

    closed spec fn view(&self) -> Set<K> {
        self.members@.dom()
    }
}

impl<K: OrderedKey + Copy> SortedSet<K> {
    /// The empty set.
    pub fn new() -> (s: Self)
        ensures
            s@ == Set::<K>::empty(),
    {
        let s = SortedSet { members: SortedMap::new() };
        assert(s@ =~= Set::<K>::empty());
        s
    }

    /// Adds an element, and says whether it was absent.
    pub fn insert(&mut self, k: K) -> (r: bool)
        ensures
            final(self)@ == old(self)@.insert(k),
            r == !old(self)@.contains(k),
    {
        let r = match self.members.insert(k, ()) {
            Some(_) => false,
            None => true,
        };
        assert(self@ =~= old(self)@.insert(k));
        r
    }

    /// Whether an element is present.
    pub fn contains(&self, k: &K) -> (r: bool)
        ensures
            r == self@.contains(*k),
    {
        self.members.contains_key(k)
    }

    /// The number of elements.
    pub fn len(&self) -> (r: usize)
        ensures
            r == self@.len(),
            self@.finite(),
    {
        self.members.len()
    }

    /// The elements in ascending order.
    pub fn to_vec(&self) -> (r: Vec<K>)
        ensures
            r@ == order::sorted(self@),
            order::ascending(r@),
            r@.no_duplicates(),
            r@.to_set() == self@,
            self@.finite(),
    {
        self.members.keys()
    }

    /// Adds every element of a slice.
    pub fn extend_from_slice(&mut self, items: &[K])
        ensures
            final(self)@ == old(self)@.union(items@.to_set()),
    {
        let mut i: usize = 0;
        assert(self@ =~= old(self)@.union(items@.take(0).to_set()));
        while i < items.len()
            invariant
                i <= items@.len(),
                self@ == old(self)@.union(items@.take(i as int).to_set()),
            decreases items@.len() - i,
        {
            let ghost now = self@;
            self.insert(items[i]);
            i += 1;
            proof {
                let next = items@.take(i as int);
                let last = items@.take(i - 1);
                assert(next =~= last.push(items@[i - 1]));
                assert forall|k: K| next.to_set().contains(k) <==> last.to_set().insert(
                    items@[i - 1],
                ).contains(k) by {
                    if last.contains(k) {
                        let m = choose|m: int| 0 <= m < last.len() && last[m] == k;
                        assert(next[m] == k);
                    }
                    assert(next[i - 1] == items@[i - 1]);
                    if next.contains(k) && k != items@[i - 1] {
                        let m = choose|m: int| 0 <= m < next.len() && next[m] == k;
                        assert(last[m] == k);
                    }
                }
                assert(self@ =~= old(self)@.union(next.to_set()));
            }
        }
        assert(items@.take(i as int) =~= items@);
    }
}

} // verus!
