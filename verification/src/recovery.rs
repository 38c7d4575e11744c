//! The closure of conflicted objects over the inputs of their candidates.
use vstd::prelude::*;

use crate::keys::{SnapperObjectKey, SnapperTransactionId};
use crate::seqs;
use crate::sorted_map::SortedMap;
use crate::sorted_set::SortedSet;

verus! {

/// The sets that a map holds, by their contents.
pub open spec fn candidate_sets(
    m: Map<SnapperObjectKey, SortedSet<SnapperTransactionId>>,
) -> Map<SnapperObjectKey, Set<SnapperTransactionId>> {
    m.map_values(|s: SortedSet<SnapperTransactionId>| s@)
}

/// The lists that a map holds, by their contents.
pub open spec fn input_lists(m: Map<SnapperTransactionId, Vec<SnapperObjectKey>>) -> Map<
    SnapperTransactionId,
    Seq<SnapperObjectKey>,
> {
    m.map_values(|v: Vec<SnapperObjectKey>| v@)
}

/// `sibling` is an owned input of some candidate for `object`.
pub open spec fn is_sibling(
    object: SnapperObjectKey,
    sibling: SnapperObjectKey,
    candidates: Map<SnapperObjectKey, Set<SnapperTransactionId>>,
    inputs: Map<SnapperTransactionId, Seq<SnapperObjectKey>>,
) -> bool {
    &&& candidates.contains_key(object)
    &&& exists|t: SnapperTransactionId| #[trigger]
        candidates[object].contains(t) && inputs.contains_key(t) && inputs[t].contains(sibling)
}

/// The set holds, with an object, all owned inputs of its candidates.
pub open spec fn holds_siblings(
    objects: Set<SnapperObjectKey>,
    candidates: Map<SnapperObjectKey, Set<SnapperTransactionId>>,
    inputs: Map<SnapperTransactionId, Seq<SnapperObjectKey>>,
) -> bool {
    forall|o: SnapperObjectKey, k: SnapperObjectKey|
        objects.contains(o) && #[trigger] is_sibling(o, k, candidates, inputs)
            ==> objects.contains(k)
}

/// The least set that contains `seeds` and holds siblings.
pub open spec fn recovery_closure(
    seeds: Set<SnapperObjectKey>,
    candidates: Map<SnapperObjectKey, Set<SnapperTransactionId>>,
    inputs: Map<SnapperTransactionId, Seq<SnapperObjectKey>>,
) -> Set<SnapperObjectKey> {
    Set::new(
        |k: SnapperObjectKey|
            forall|s: Set<SnapperObjectKey>|
                seeds.subset_of(s) && #[trigger] holds_siblings(s, candidates, inputs)
                    ==> s.contains(k),
    )
}

/// The recovery closure contains the seeds and holds siblings, and every set
/// that does so contains it.
pub proof fn recovery_closure_is_least(
    seeds: Set<SnapperObjectKey>,
    candidates: Map<SnapperObjectKey, Set<SnapperTransactionId>>,
    inputs: Map<SnapperTransactionId, Seq<SnapperObjectKey>>,
)
    ensures
        seeds.subset_of(recovery_closure(seeds, candidates, inputs)),
        holds_siblings(recovery_closure(seeds, candidates, inputs), candidates, inputs),
        forall|s: Set<SnapperObjectKey>|
            seeds.subset_of(s) && #[trigger] holds_siblings(s, candidates, inputs)
                ==> recovery_closure(seeds, candidates, inputs).subset_of(s),
{
    let c = recovery_closure(seeds, candidates, inputs);
    assert forall|o: SnapperObjectKey, k: SnapperObjectKey|
        c.contains(o) && #[trigger] is_sibling(o, k, candidates, inputs) implies c.contains(k) by {
        assert forall|s: Set<SnapperObjectKey>|
            seeds.subset_of(s) && #[trigger] holds_siblings(
                s,
                candidates,
                inputs,
            ) implies s.contains(k) by {
            assert(s.contains(o));
        }
    }
}

/// Adds to a set of objects, until nothing changes, all owned inputs of the
/// candidates for its members.
pub fn close_over_siblings(
    seeds: SortedSet<SnapperObjectKey>,
    candidates: &SortedMap<SnapperObjectKey, SortedSet<SnapperTransactionId>>,
    inputs: &SortedMap<SnapperTransactionId, Vec<SnapperObjectKey>>,
) -> (r: SortedSet<SnapperObjectKey>)
    ensures
        r@ == recovery_closure(seeds@, candidate_sets(candidates@), input_lists(inputs@)),
{
    let ghost start = seeds@;
    let ghost cands = candidate_sets(candidates@);
    let ghost lists = input_lists(inputs@);
    let ghost all = seqs::all_listed(start, lists);
    let mut recovery = seeds;
    let seed_count = recovery.len();
    let input_count = inputs.len();
    proof {
        assert(lists.dom() =~= inputs@.dom());
        seqs::lemma_all_listed_finite(start, lists);
    }
    loop
        invariant
            cands == candidate_sets(candidates@),
            lists == input_lists(inputs@),
            all == seqs::all_listed(start, lists),
            all.finite(),
            start.subset_of(recovery@),
            recovery@.subset_of(all),
            recovery@.finite(),
            forall|s: Set<SnapperObjectKey>|
                start.subset_of(s) && #[trigger] holds_siblings(s, cands, lists)
                    ==> recovery@.subset_of(s),
        ensures
            recovery@ == recovery_closure(start, cands, lists),
        decreases all.len() - recovery@.len(),
    {
        let before = recovery.len();
        let ghost previous = recovery@;
        let current = recovery.to_vec();
        let mut i: usize = 0;
        while i < current.len()
            invariant
                i <= current@.len(),
                cands == candidate_sets(candidates@),
                lists == input_lists(inputs@),
                all == seqs::all_listed(start, lists),
                all.finite(),
                previous == current@.to_set(),
                previous.subset_of(recovery@),
                recovery@.subset_of(all),
                forall|s: Set<SnapperObjectKey>|
                    start.subset_of(s) && #[trigger] holds_siblings(s, cands, lists)
                        ==> recovery@.subset_of(s),
                forall|j: int, k: SnapperObjectKey|
                    0 <= j < i && #[trigger] is_sibling(current@[j], k, cands, lists)
                        ==> recovery@.contains(k),
            decreases current@.len() - i,
        {
            let object = current[i];
            let ghost entering = recovery@;
            assert(previous.contains(object)) by {
                assert(current@.contains(object));
            }
            match candidates.get(&object) {
                Some(set) => {
                    let txs = set.to_vec();
                    let mut n: usize = 0;
                    while n < txs.len()
                        invariant
                            n <= txs@.len(),
                            cands == candidate_sets(candidates@),
                            lists == input_lists(inputs@),
                            all == seqs::all_listed(start, lists),
                            cands.contains_key(object),
                            cands[object] == txs@.to_set(),
                            entering.contains(object),
                            entering.subset_of(recovery@),
                            recovery@.subset_of(all),
                            forall|s: Set<SnapperObjectKey>|
                                start.subset_of(s) && #[trigger] holds_siblings(s, cands, lists)
                                    ==> entering.subset_of(s),
                            forall|s: Set<SnapperObjectKey>|
                                start.subset_of(s) && #[trigger] holds_siblings(s, cands, lists)
                                    ==> recovery@.subset_of(s),
                            forall|m: int, k: SnapperObjectKey|
                                #![trigger txs@[m], recovery@.contains(k)]
                                0 <= m < n && lists.contains_key(txs@[m])
                                    && lists[txs@[m]].contains(k) ==> recovery@.contains(k),
                        decreases txs@.len() - n,
                    {
                        let transaction = txs[n];
                        let ghost prior = recovery@;
                        assert(cands[object].contains(transaction)) by {
                            assert(txs@.contains(transaction));
                        }
                        match inputs.get(&transaction) {
                            Some(list) => {
                                recovery.extend_from_slice(list.as_slice());
                                proof {
                                    assert(lists.contains_key(transaction));
                                    assert(lists[transaction] == list@);
                                    assert forall|k: SnapperObjectKey| recovery@.contains(
                                        k,
                                    ) && !prior.contains(k) implies is_sibling(
                                        object,
                                        k,
                                        cands,
                                        lists,
                                    ) && all.contains(k) by {
                                        assert(list@.to_set().contains(k));
                                        assert(list@.contains(k));
                                    }
                                    assert forall|s: Set<SnapperObjectKey>|
                                        start.subset_of(s) && #[trigger] holds_siblings(
                                            s,
                                            cands,
                                            lists,
                                        ) implies recovery@.subset_of(s) by {
                                        assert(s.contains(object));
                                    }
                                    assert forall|m: int, k: SnapperObjectKey|
                                        #![trigger txs@[m], recovery@.contains(k)]
                                        0 <= m < n + 1 && lists.contains_key(txs@[m])
                                            && lists[txs@[m]].contains(
                                            k,
                                        ) implies recovery@.contains(k) by {
                                        if m == n {
                                            assert(list@.to_set().contains(k));
                                        } else {
                                            assert(prior.contains(k));
                                        }
                                    }
                                }
                            },
                            None => {
                                assert(!lists.contains_key(transaction));
                            },
                        }
                        n += 1;
                    }
                    proof {
                        assert forall|k: SnapperObjectKey| #[trigger]
                            is_sibling(object, k, cands, lists) implies recovery@.contains(k) by {
                            let t = choose|t: SnapperTransactionId| #[trigger]
                                cands[object].contains(t) && lists.contains_key(t)
                                    && lists[t].contains(k);
                            assert(txs@.contains(t));
                            let m = choose|m: int| 0 <= m < txs@.len() && txs@[m] == t;
                            assert(recovery@.contains(k));
                        }
                    }
                },
                None => {
                    assert(!cands.contains_key(object));
                },
            }
            i += 1;
        }
        let after = recovery.len();
        proof {
            vstd::set_lib::lemma_len_subset(previous, recovery@);
            vstd::set_lib::lemma_len_subset(recovery@, all);
        }
        if after == before {
            proof {
                vstd::set_lib::lemma_subset_equality(previous, recovery@);
                assert(previous == recovery@);
                assert(holds_siblings(recovery@, cands, lists)) by {
                    assert forall|o: SnapperObjectKey, k: SnapperObjectKey|
                        recovery@.contains(o) && #[trigger] is_sibling(
                            o,
                            k,
                            cands,
                            lists,
                        ) implies recovery@.contains(k) by {
                        assert(current@.contains(o));
                        let j = choose|j: int| 0 <= j < current@.len() && current@[j] == o;
                        assert(is_sibling(current@[j], k, cands, lists));
                    }
                }
                recovery_closure_is_least(start, cands, lists);
                assert(recovery@ =~= recovery_closure(start, cands, lists));
            }
            break;
        }
    }
    recovery
}

} // verus!
