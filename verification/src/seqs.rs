//! Facts about sequences.
use vstd::prelude::*;

verus! {

/// The prefix that ends with the item at `i` is the prefix before it and the
/// item.
pub proof fn lemma_take_next<T>(s: Seq<T>, i: int)
    requires
        0 <= i < s.len(),
    ensures
        s.take(i + 1) == s.take(i).push(s[i]),
        s.take(i + 1).drop_last() == s.take(i),
        s.take(i + 1).last() == s[i],
        forall|x: T| s.take(i + 1).contains(x) <==> s.take(i).contains(x) || x == s[i],
        s.contains(s[i]),
{
    let before = s.take(i);
    let after = s.take(i + 1);
    assert(after =~= before.push(s[i]));
    assert(after.drop_last() =~= before);
    assert forall|x: T| after.contains(x) <==> before.contains(x) || x == s[i] by {
        assert(after[i] == s[i]);
        if before.contains(x) {
            let m = choose|m: int| 0 <= m < before.len() && before[m] == x;
            assert(after[m] == x);
        }
        if after.contains(x) && x != s[i] {
            let m = choose|m: int| 0 <= m < after.len() && after[m] == x;
            assert(before[m] == x);
        }
    }
}

/// The empty prefix and the whole sequence as a prefix.
pub proof fn lemma_take_ends<T>(s: Seq<T>)
    ensures
        s.take(0) == Seq::<T>::empty(),
        s.take(s.len() as int) == s,
{
    assert(s.take(0) =~= Seq::<T>::empty());
    assert(s.take(s.len() as int) =~= s);
}

/// What is in a sequence with one item more.
pub proof fn lemma_contains_pushed<T>(s: Seq<T>, y: T, x: T)
    ensures
        s.push(y).contains(x) <==> s.contains(x) || x == y,
{
    lemma_take_next(s.push(y), s.len() as int);
    lemma_take_ends(s.push(y));
    assert(s.push(y).take(s.len() as int) =~= s);
}

/// Filtering one item more keeps it where it is wanted.
pub proof fn lemma_filter_next<T>(s: Seq<T>, i: int, wanted: spec_fn(T) -> bool)
    requires
        0 <= i < s.len(),
    ensures
        s.take(i + 1).filter(wanted) == (if wanted(s[i]) {
            s.take(i).filter(wanted).push(s[i])
        } else {
            s.take(i).filter(wanted)
        }),
{
    lemma_take_next(s, i);
    reveal(Seq::filter);
}

/// Nothing is kept of nothing.
pub proof fn lemma_filter_empty<T>(s: Seq<T>, wanted: spec_fn(T) -> bool)
    ensures
        s.take(0).filter(wanted) == Seq::<T>::empty(),
{
    reveal(Seq::filter);
}

/// Where the items before a wanted one are all dropped, the filter starts with
/// it.
pub proof fn lemma_filter_first<T>(s: Seq<T>, i: int, wanted: spec_fn(T) -> bool)
    requires
        0 <= i < s.len(),
        wanted(s[i]),
        s.take(i).filter(wanted).len() == 0,
    ensures
        s.filter(wanted).len() > 0,
        s.filter(wanted)[0] == s[i],
{
    lemma_filter_next(s, i, wanted);
    let rest = s.skip(i + 1);
    assert(s =~= s.take(i + 1) + rest);
    Seq::filter_distributes_over_add(s.take(i + 1), rest, wanted);
}

/// A filter keeps exactly the wanted items.
pub proof fn lemma_filter_members<T>(s: Seq<T>, wanted: spec_fn(T) -> bool, x: T)
    ensures
        s.filter(wanted).contains(x) <==> s.contains(x) && wanted(x),
    decreases s.len(),
{
    reveal(Seq::filter);
    if s.len() > 0 {
        let rest = s.drop_last();
        let before = rest.filter(wanted);
        let kept = s.filter(wanted);
        lemma_filter_members(rest, wanted, x);
        lemma_take_next(s, s.len() - 1);
        lemma_take_ends(s);
        assert(s.take(s.len() - 1) =~= rest);
        if wanted(s.last()) {
            lemma_take_next(kept, before.len() as int);
            lemma_take_ends(kept);
            assert(kept.take(before.len() as int) =~= before);
        }
    }
}

/// The seeds and all items of the lists.
pub open spec fn all_listed<K, V>(
    seeds: Set<V>,
    lists: Map<K, Seq<V>>,
) -> Set<V> {
    Set::new(
        |k: V|
            seeds.contains(k) || exists|t: K| #[trigger]
                lists.contains_key(t) && lists[t].contains(k),
    )
}

/// Finitely many lists hold finitely many items.
pub proof fn lemma_all_listed_finite<K, V>(
    seeds: Set<V>,
    lists: Map<K, Seq<V>>,
)
    requires
        seeds.finite(),
        lists.dom().finite(),
    ensures
        all_listed(seeds, lists).finite(),
    decreases lists.dom().len(),
{
    if lists.dom().len() == 0 {
        assert(lists.dom() =~= Set::empty());
        assert forall|k: V| all_listed(seeds, lists).contains(k) implies seeds.contains(
            k,
        ) by {
            if !seeds.contains(k) {
                let t = choose|t: K| #[trigger]
                    lists.contains_key(t) && lists[t].contains(k);
                assert(lists.dom().contains(t));
            }
        }
        assert(all_listed(seeds, lists) =~= seeds);
    } else {
        let t = lists.dom().choose();
        let rest = lists.remove(t);
        lemma_all_listed_finite(seeds, rest);
        let u = all_listed(seeds, rest).union(lists[t].to_set());
        assert forall|k: V| all_listed(seeds, lists).contains(k) implies u.contains(
            k,
        ) by {
            if !seeds.contains(k) {
                let s = choose|s: K| #[trigger]
                    lists.contains_key(s) && lists[s].contains(k);
                if s != t {
                    assert(rest.contains_key(s) && rest[s].contains(k));
                }
            }
        }
        assert(u.finite()) by {
            vstd::seq_lib::seq_to_set_is_finite(lists[t]);
        }
        vstd::set_lib::lemma_set_subset_finite(u, all_listed(seeds, lists));
    }
}

} // verus!
