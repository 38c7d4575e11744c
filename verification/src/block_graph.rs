//! The graph of known blocks and the evaluation of Snapper's predicates on it.
use vstd::prelude::*;

use crate::block;
use crate::block::{Transaction, VerifiedBlock};
use crate::committee;
use crate::committee::{Committee, StakeAggregator};
use crate::dag;
use crate::dag::DagView;
use crate::keys::{
    AuthorityIndex, BlockRef, Round, SnapperObjectKey, SnapperTransactionId, GENESIS_ROUND,
};
use crate::order;
use crate::protocol::{SnapperBottomVoteKind, SnapperObjectStance, SnapperObjectStanceVote};
use crate::seqs;
use crate::sorted_map::SortedMap;
use crate::sorted_set::SortedSet;
use crate::state;
use crate::state::SnapperState;

verus! {

/// The known blocks with the committee that builds them.
pub struct BlockGraph {
    committee: Committee,
    blocks: SortedMap<BlockRef, VerifiedBlock>,
}

/// The blocks that a map holds, by their contents.
pub open spec fn block_views(m: Map<BlockRef, VerifiedBlock>) -> Map<BlockRef, block::BlockView> {
    m.map_values(|b: VerifiedBlock| b@)
}

impl View for BlockGraph {
    type V = DagView;

    closed spec fn view(&self) -> DagView {
        DagView { stakes: self.committee@, blocks: block_views(self.blocks@) }
    }
}

impl BlockGraph {
    #[verifier::type_invariant]
    spec fn well_formed(self) -> bool {
        forall|r: BlockRef| #[trigger]
            self.blocks@.contains_key(r) ==> self.blocks@[r]@.reference == r
                && self.blocks@[r]@.valid_in(self.committee@)
    }

    /// No block is known.
    pub fn new(committee: Committee) -> (r: Self)
        ensures
            r@.stakes == committee@,
            r@.blocks == Map::<BlockRef, block::BlockView>::empty(),
            r@.valid(),
    {
        let r = BlockGraph { committee, blocks: SortedMap::new() };
        assert(r@.blocks =~= Map::<BlockRef, block::BlockView>::empty());
        r
    }

    /// The committee that builds the graph.
    pub fn committee(&self) -> (r: &Committee)
        ensures
            r@ == self@.stakes,
            self@.valid(),
    {
        proof {
            use_type_invariant(self);
        }
        &self.committee
    }

    /// The block with the given reference, where it is known.
    pub fn get(&self, r: &BlockRef) -> (b: Option<&VerifiedBlock>)
        ensures
            match b {
                Some(b) => self@.blocks.contains_key(*r) && self@.blocks[*r] == b@,
                None => !self@.blocks.contains_key(*r),
            },
            self@.valid(),
    {
        proof {
            use_type_invariant(self);
        }
        self.blocks.get(r)
    }

    /// The references of the known blocks in ascending order.
    pub fn refs(&self) -> (r: Vec<BlockRef>)
        ensures
            r@ == order::sorted(self@.blocks.dom()),
            r@.to_set() == self@.blocks.dom(),
            order::ascending(r@),
            self@.blocks.dom().finite(),
    {
        let r = self.blocks.keys();
        assert(self@.blocks.dom() =~= self.blocks@.dom());
        r
    }

    /// Adds a block unless one with its reference is known.
    pub fn observe(&mut self, block: &VerifiedBlock)
        requires
            block@.valid_in(old(self)@.stakes),
        ensures
            final(self)@.stakes == old(self)@.stakes,
            final(self)@.blocks == (if old(self)@.blocks.contains_key(block@.reference) {
                old(self)@.blocks
            } else {
                old(self)@.blocks.insert(block@.reference, block@)
            }),
            final(self)@.valid(),
    {
        proof {
            use_type_invariant(&*self);
        }
        let reference = block.reference();
        if !self.blocks.contains_key(&reference) {
            let mut blocks: SortedMap<BlockRef, VerifiedBlock> = SortedMap::new();
            std::mem::swap(&mut blocks, &mut self.blocks);
            blocks.insert(reference, block.clone());
            self.blocks = blocks;
            assert(self@.blocks =~= old(self)@.blocks.insert(block@.reference, block@));
        }
        proof {
            use_type_invariant(&*self);
        }
    }

    /// The previous block in the chain of a block's author.
    pub fn own_ancestor(block: &VerifiedBlock) -> (r: Option<BlockRef>)
        ensures
            r == dag::first_by(block@.ancestors, block@.reference.author),
            r matches Some(a) ==> block@.ancestors.contains(a),
    {
        let ancestors = block.ancestors();
        let mut i: usize = 0;
        proof {
            seqs::lemma_take_ends(ancestors@);
        }
        while i < ancestors.len()
            invariant
                i <= ancestors@.len(),
                ancestors@ == block@.ancestors,
                dag::first_by(ancestors@.take(i as int), block@.reference.author) is None,
            decreases ancestors@.len() - i,
        {
            proof {
                seqs::lemma_take_next(ancestors@, i as int);
            }
            if ancestors[i].author == block.author() {
                proof {
                    lemma_first_by_prefix(ancestors@, i + 1, block@.reference.author);
                }
                return Some(ancestors[i]);
            }
            i += 1;
        }
        proof {
            seqs::lemma_take_ends(ancestors@);
        }
        None
    }

    /// The last declared stance on an object version.
    fn last_declared(votes: &Vec<SnapperObjectStanceVote>, object: &SnapperObjectKey) -> (r: Option<
        SnapperObjectStance,
    >)
        ensures
            r == dag::last_declared(votes@, *object),
    {
        let mut i: usize = votes.len();
        proof {
            seqs::lemma_take_ends(votes@);
        }
        while i > 0
            invariant
                i <= votes@.len(),
                dag::last_declared(votes@, *object) == dag::last_declared(votes@.take(i as int), *object),
            decreases i,
        {
            i -= 1;
            proof {
                seqs::lemma_take_next(votes@, i as int);
            }
            if order::same(&votes[i].object, object) {
                return Some(votes[i].stance);
            }
        }
        None
    }

    /// Stance(id, o, b): the latest declaration for `object` in the chain of the
    /// block's author.
    pub fn stance_at(&self, block_ref: BlockRef, object: &SnapperObjectKey) -> (r: Option<
        SnapperObjectStance,
    >)
        ensures
            r == self@.stance_at(block_ref, *object),
    {
        let mut reference = block_ref;
        loop
            invariant
                self@.stance_at(block_ref, *object) == self@.stance_at(reference, *object),
            decreases reference.round,
        {
            match self.get(&reference) {
                None => {
                    return None;
                },
                Some(block) => {
                    let declared = Self::last_declared(block.snapper_object_stance_votes(), object);
                    if declared.is_some() {
                        return declared;
                    }
                    match Self::own_ancestor(block) {
                        Some(ancestor) => {
                            assert(ancestor.round < reference.round);
                            reference = ancestor;
                        },
                        None => {
                            return None;
                        },
                    }
                },
            }
        }
    }

    /// Whether some declaration acknowledges a transaction on the object version.
    fn declares_ack(votes: &Vec<SnapperObjectStanceVote>, object: &SnapperObjectKey) -> (r: bool)
        ensures
            r == dag::declares_ack(votes@, *object),
    {
        let mut i: usize = 0;
        while i < votes.len()
            invariant
                i <= votes@.len(),
                forall|j: int|
                    0 <= j < i ==> !((#[trigger] votes@[j]).object == *object
                        && votes@[j].stance is Transaction),
            decreases votes@.len() - i,
        {
            let acks = match votes[i].stance {
                SnapperObjectStance::Transaction(_) => true,
                SnapperObjectStance::Bottom => false,
            };
            if acks && order::same(&votes[i].object, object) {
                return true;
            }
            i += 1;
        }
        false
    }

    /// AckedBefore(id, o, b): an earlier declaration in the chain of the block's
    /// author acknowledged a transaction for this object.
    pub fn acked_before(&self, block_ref: BlockRef, object: &SnapperObjectKey) -> (r: bool)
        ensures
            r == self@.acked_before(block_ref, *object),
    {
        let mut current = match self.get(&block_ref) {
            None => {
                return false;
            },
            Some(block) => Self::own_ancestor(block),
        };
        let mut rounds: Round = block_ref.round;
        loop
            invariant
                current matches Some(a) ==> a.round < rounds,
                self@.acked_before(block_ref, *object) == (match current {
                    Some(a) => self@.acked_at(a, *object),
                    None => false,
                }),
            decreases rounds,
        {
            match current {
                None => {
                    return false;
                },
                Some(reference) => match self.get(&reference) {
                    None => {
                        return false;
                    },
                    Some(block) => {
                        if Self::declares_ack(block.snapper_object_stance_votes(), object) {
                            return true;
                        }
                        rounds = reference.round;
                        current = Self::own_ancestor(block);
                    },
                },
            }
        }
    }

    /// The reflexive causal history of a block in ascending order.
    pub fn causal_history_refs(&self, root: BlockRef) -> (r: Vec<BlockRef>)
        ensures
            r@ == order::sorted(self@.history(root)),
            r@.to_set() == self@.history(root),
            order::ascending(r@),
    {
        let ghost lists = self@.blocks.map_values(|b: block::BlockView| b.ancestors);
        let ghost all = seqs::all_listed(set![root], lists);
        let known = self.refs();
        proof {
            assert(lists.dom() =~= self@.blocks.dom());
            seqs::lemma_all_listed_finite(set![root], lists);
            dag::history_is_least(self@, root);
        }
        let mut visited: SortedSet<BlockRef> = SortedSet::new();
        let mut stack: Vec<BlockRef> = Vec::new();
        stack.push(root);
        assert(stack@[0] == root);
        while stack.len() > 0
            invariant
                all.finite(),
                lists == self@.blocks.map_values(|b: block::BlockView| b.ancestors),
                all == seqs::all_listed(set![root], lists),
                self@.history(root).contains(root),
                self@.holds_ancestors(self@.history(root)),
                forall|r: BlockRef| #[trigger]
                    visited@.contains(r) ==> self@.history(root).contains(r) && all.contains(r),
                forall|r: BlockRef| #[trigger]
                    stack@.contains(r) ==> self@.history(root).contains(r) && all.contains(r),
                visited@.contains(root) || stack@.contains(root),
                forall|r: BlockRef, a: BlockRef|
                    #![trigger visited@.contains(r), self@.blocks[r].ancestors.contains(a)]
                    visited@.contains(r) && self@.blocks.contains_key(r)
                        && self@.blocks[r].ancestors.contains(a) ==> visited@.contains(a)
                        || stack@.contains(a),
            decreases all.len() - visited@.len(), stack@.len(),
        {
            let ghost stack_before = stack@;
            let ghost visited_before = visited@;
            let reference = stack.pop().unwrap();
            proof {
                seqs::lemma_take_next(stack_before, stack_before.len() - 1);
                seqs::lemma_take_ends(stack_before);
                assert(stack_before.take(stack_before.len() - 1) =~= stack@);
                vstd::set_lib::lemma_len_subset(visited@, all);
            }
            if visited.insert(reference) {
                proof {
                    vstd::set_lib::lemma_len_subset(visited@, all);
                }
                match self.get(&reference) {
                    None => {},
                    Some(block) => {
                        let ancestors = block.ancestors();
                        let ghost popped = stack@;
                        let mut i: usize = 0;
                        while i < ancestors.len()
                            invariant
                                i <= ancestors@.len(),
                                forall|r: BlockRef| #[trigger]
                                    stack@.contains(r) <==> popped.contains(r) || ancestors@.take(
                                        i as int,
                                    ).contains(r),
                            decreases ancestors@.len() - i,
                        {
                            let ghost grown = stack@;
                            stack.push(ancestors[i]);
                            proof {
                                seqs::lemma_take_next(ancestors@, i as int);
                                seqs::lemma_take_next(stack@, grown.len() as int);
                                seqs::lemma_take_ends(stack@);
                                assert(stack@.take(grown.len() as int) =~= grown);
                                assert forall|r: BlockRef| #[trigger]
                                    stack@.contains(r) <==> popped.contains(r) || ancestors@.take(
                                        i + 1,
                                    ).contains(r) by {
                                    assert(stack@.contains(r) <==> grown.contains(r) || r
                                        == ancestors@[i as int]);
                                }
                            }
                            i += 1;
                        }
                        proof {
                            seqs::lemma_take_ends(ancestors@);
                            assert forall|r: BlockRef| #[trigger] stack@.contains(r) implies {
                                &&& self@.history(root).contains(r)
                                &&& all.contains(r)
                            } by {
                                if !popped.contains(r) {
                                    assert(self@.blocks[reference].ancestors.contains(r));
                                    assert(lists.contains_key(reference)
                                        && lists[reference].contains(r));
                                }
                            }
                        }
                    },
                }
            } else {
                assert(visited@ =~= visited_before);
            }
        }
        proof {
            assert(self@.holds_ancestors(visited@)) by {
                assert forall|r: BlockRef, a: BlockRef|
                    #![trigger visited@.contains(r), self@.blocks[r].ancestors.contains(a)]
                    visited@.contains(r) && self@.blocks.contains_key(r)
                        && self@.blocks[r].ancestors.contains(a) implies visited@.contains(a) by {
                    assert(!stack@.contains(a));
                }
            }
            assert(!stack@.contains(root));
            dag::history_is_least(self@, root);
            assert(visited@ =~= self@.history(root));
        }
        visited.to_vec()
    }

    /// The transactions of the known blocks among `refs`, block after block.
    fn transactions_in(&self, refs: &Vec<BlockRef>) -> (r: Vec<&Transaction>)
        ensures
            r@.len() == self@.transactions_in(refs@).len(),
            forall|i: int|
                0 <= i < r@.len() ==> (#[trigger] r@[i])@ == self@.transactions_in(refs@)[i],
    {
        let mut out: Vec<&Transaction> = Vec::new();
        let mut i: usize = 0;
        proof {
            seqs::lemma_take_ends(refs@);
        }
        while i < refs.len()
            invariant
                i <= refs@.len(),
                out@.len() == self@.transactions_in(refs@.take(i as int)).len(),
                forall|j: int|
                    0 <= j < out@.len() ==> (#[trigger] out@[j])@ == self@.transactions_in(
                        refs@.take(i as int),
                    )[j],
            decreases refs@.len() - i,
        {
            proof {
                seqs::lemma_take_next(refs@, i as int);
            }
            match self.get(&refs[i]) {
                None => {},
                Some(block) => {
                    let transactions = block.transactions();
                    let ghost earlier = self@.transactions_in(refs@.take(i as int));
                    let ghost all = self@.transactions_in(refs@.take(i + 1));
                    let mut k: usize = 0;
                    while k < transactions.len()
                        invariant
                            k <= transactions@.len(),
                            transactions@.len() == block@.transactions.len(),
                            forall|j: int|
                                0 <= j < transactions@.len() ==> (#[trigger] transactions@[j])@
                                    == block@.transactions[j],
                            all == earlier + block@.transactions,
                            out@.len() == earlier.len() + k,
                            forall|j: int|
                                0 <= j < out@.len() ==> (#[trigger] out@[j])@ == all[j],
                        decreases transactions@.len() - k,
                    {
                        assert(all[earlier.len() + k] == block@.transactions[k as int]);
                        out.push(&transactions[k]);
                        k += 1;
                    }
                },
            }
            i += 1;
        }
        proof {
            seqs::lemma_take_ends(refs@);
        }
        out
    }

    /// The transactions in the causal history of a block.
    fn visible_transactions(&self, root: BlockRef) -> (r: Vec<&Transaction>)
        ensures
            r@.len() == self@.transactions_in(order::sorted(self@.history(root))).len(),
            forall|i: int|
                0 <= i < r@.len() ==> (#[trigger] r@[i])@ == self@.transactions_in(
                    order::sorted(self@.history(root)),
                )[i],
            forall|i: int| 0 <= i < r@.len() ==> self@.visible(root, (#[trigger] r@[i])@),
            forall|x: block::TransactionView| #[trigger]
                self@.visible(root, x) ==> exists|i: int| 0 <= i < r@.len() && (#[trigger] r@[i])@
                    == x,
    {
        let refs = self.causal_history_refs(root);
        let r = self.transactions_in(&refs);
        proof {
            let listed = self@.transactions_in(refs@);
            dag::lemma_transactions_in(self@, refs@);
            assert forall|i: int| 0 <= i < r@.len() implies self@.visible(
                root,
                (#[trigger] r@[i])@,
            ) by {
                assert(listed.contains(listed[i]));
                let b = choose|b: BlockRef| #[trigger]
                    refs@.contains(b) && self@.blocks.contains_key(b)
                        && self@.blocks[b].transactions.contains(listed[i]);
                assert(refs@.to_set().contains(b));
                assert(self@.history(root).contains(b));
            }
            assert forall|x: block::TransactionView| #[trigger]
                self@.visible(root, x) implies exists|i: int|
                0 <= i < r@.len() && (#[trigger] r@[i])@ == x by {
                let b = choose|b: BlockRef| #[trigger]
                    self@.history(root).contains(b) && self@.blocks.contains_key(b)
                        && self@.blocks[b].transactions.contains(x);
                assert(refs@.to_set().contains(b));
                assert(refs@.contains(b));
                assert(listed.contains(x));
                let i = choose|i: int| 0 <= i < listed.len() && listed[i] == x;
                assert(r@[i]@ == x);
            }
        }
        r
    }

    /// The owned inputs of a transaction: those recorded, or else those that the
    /// first known block with the transaction gives it.
    pub fn owned_inputs_for_tx(&self, state: &SnapperState, transaction: SnapperTransactionId) -> (r:
        Option<Vec<SnapperObjectKey>>)
        ensures
            match r {
                Some(inputs) => self@.owned_inputs_for(state@.inputs, transaction) == Some(inputs@),
                None => self@.owned_inputs_for(state@.inputs, transaction) is None,
            },
    {
        match state.owned_inputs(transaction) {
            Some(inputs) => {
                return Some(copy_keys(inputs));
            },
            None => {},
        }
        let refs = self.refs();
        let transactions = self.transactions_in(&refs);
        let ghost listed = self@.transactions_in(refs@);
        let mut i: usize = 0;
        proof {
            seqs::lemma_take_ends(listed);
        }
        while i < transactions.len()
            invariant
                i <= transactions@.len(),
                transactions@.len() == listed.len(),
                forall|j: int|
                    0 <= j < transactions@.len() ==> (#[trigger] transactions@[j])@ == listed[j],
                dag::first_inputs(listed.take(i as int), transaction) is None,
                listed == self@.transactions_in(order::sorted(self@.blocks.dom())),
                !state@.inputs.contains_key(transaction),
            decreases transactions@.len() - i,
        {
            proof {
                seqs::lemma_take_next(listed, i as int);
            }
            match transactions[i].metadata() {
                Some(metadata) => {
                    if order::same(&metadata.id, &transaction) {
                        proof {
                            lemma_first_inputs_prefix(listed, i + 1, transaction);
                        }
                        return Some(copy_keys(metadata.owned_inputs.as_slice()));
                    }
                },
                None => {},
            }
            i += 1;
        }
        proof {
            seqs::lemma_take_ends(listed);
        }
        None
    }

    /// Includes(b, tx): the transaction is in the block's reflexive causal
    /// history.
    pub fn includes(&self, root: BlockRef, transaction: SnapperTransactionId) -> (r: bool)
        ensures
            r == self@.includes(root, transaction),
    {
        let transactions = self.visible_transactions(root);
        let mut i: usize = 0;
        while i < transactions.len()
            invariant
                i <= transactions@.len(),
                forall|j: int|
                    0 <= j < transactions@.len() ==> self@.visible(
                        root,
                        (#[trigger] transactions@[j])@,
                    ),
                forall|j: int|
                    0 <= j < i ==> !dag::is_transaction((#[trigger] transactions@[j])@, transaction),
            decreases transactions@.len() - i,
        {
            match transactions[i].metadata() {
                Some(metadata) => {
                    if order::same(&metadata.id, &transaction) {
                        assert(self@.visible(root, transactions@[i as int]@));
                        return true;
                    }
                },
                None => {},
            }
            i += 1;
        }
        false
    }

    /// The transactions in the causal history of a block that own the object
    /// version.
    pub fn visible_candidates(&self, root: BlockRef, object: &SnapperObjectKey) -> (r: SortedSet<
        SnapperTransactionId,
    >)
        ensures
            r@ == self@.visible_candidates(root, *object),
    {
        let transactions = self.visible_transactions(root);
        let ghost goal = self@.visible_candidates(root, *object);
        let mut candidates: SortedSet<SnapperTransactionId> = SortedSet::new();
        let mut i: usize = 0;
        while i < transactions.len()
            invariant
                i <= transactions@.len(),
                goal == self@.visible_candidates(root, *object),
                forall|j: int|
                    0 <= j < transactions@.len() ==> self@.visible(
                        root,
                        (#[trigger] transactions@[j])@,
                    ),
                forall|t: SnapperTransactionId| #[trigger]
                    candidates@.contains(t) ==> goal.contains(t),
                forall|j: int|
                    0 <= j < i && (#[trigger] transactions@[j])@.metadata is Some
                        && transactions@[j]@.metadata->0.owned_inputs.contains(*object)
                        ==> candidates@.contains(transactions@[j]@.metadata->0.id),
            decreases transactions@.len() - i,
        {
            match transactions[i].metadata() {
                Some(metadata) => {
                    if contains_key(metadata.owned_inputs.as_slice(), object) {
                        assert(self@.visible(root, transactions@[i as int]@));
                        assert(dag::is_transaction(transactions@[i as int]@, metadata.id));
                        candidates.insert(metadata.id);
                    }
                },
                None => {},
            }
            i += 1;
        }
        proof {
            assert forall|t: SnapperTransactionId| goal.contains(t) implies candidates@.contains(
                t,
            ) by {
                let x = choose|x: block::TransactionView| #[trigger]
                    self@.visible(root, x) && dag::is_transaction(x, t)
                        && x.metadata->0.owned_inputs.contains(*object);
                let j = choose|j: int|
                    0 <= j < transactions@.len() && (#[trigger] transactions@[j])@ == x;
                assert(transactions@[j]@.metadata is Some);
            }
            assert(candidates@ =~= goal);
        }
        candidates
    }

    /// RecoveryObjs(b): the objects with conflicting transactions in the causal
    /// history of a block, closed over all sibling owned inputs of the
    /// conflicting candidates.
    pub fn recovery_objects_at(&self, root: BlockRef) -> (r: SortedSet<SnapperObjectKey>)
        ensures
            r@ == self@.recovery_objects_at(root),
    {
        let transactions = self.visible_transactions(root);
        let ghost listed = self@.transactions_in(order::sorted(self@.history(root)));
        let ghost start = state::SnapperModel::initial(root.author);
        let mut known = SnapperState::new(root.author);
        let mut i: usize = 0;
        proof {
            seqs::lemma_take_ends(listed);
        }
        while i < transactions.len()
            invariant
                i <= transactions@.len(),
                transactions@.len() == listed.len(),
                forall|j: int|
                    0 <= j < transactions@.len() ==> (#[trigger] transactions@[j])@ == listed[j],
                known@ == dag::after_transactions(start, listed.take(i as int)),
            decreases transactions@.len() - i,
        {
            proof {
                seqs::lemma_take_next(listed, i as int);
            }
            known.record(transactions[i]);
            i += 1;
        }
        proof {
            seqs::lemma_take_ends(listed);
            lemma_no_recorded_candidate_is_dead(root.author, listed);
            let model = known@;
            assert forall|o: SnapperObjectKey| model.conflicted(o) implies #[trigger] model.candidates.contains_key(o) by {}
            assert(model.recovery_seeds() =~= Set::new(|o: SnapperObjectKey| model.conflicted(o)));
        }
        known.current_recovery_objects()
    }

    /// The parents of a block in the round before it.
    pub fn round_parents(&self, block_ref: BlockRef) -> (r: Vec<BlockRef>)
        ensures
            forall|p: BlockRef| #[trigger]
                r@.contains(p) <==> self@.is_round_parent(block_ref, p),
            self@.blocks.contains_key(block_ref) ==> r@ == self@.blocks[block_ref].ancestors.filter(
                |p: BlockRef| p.round == dag::previous_round(block_ref.round),
            ),
    {
        match self.get(&block_ref) {
            None => Vec::new(),
            Some(block) => refs_in_round(
                block.ancestors().as_slice(),
                round_before(block.round()),
            ),
        }
    }

    /// Whether the authors of the counted blocks among `refs` hold a quorum.
    fn quorum_where<F: Fn(BlockRef) -> bool>(
        &self,
        refs: &Vec<BlockRef>,
        counts: F,
        Ghost(counted): Ghost<Set<BlockRef>>,
    ) -> (r: bool)
        requires
            forall|p: BlockRef| refs@.contains(p) ==> #[trigger] counts.requires((p,)),
            forall|p: BlockRef, b: bool| #[trigger]
                counts.ensures((p,), b) && refs@.contains(p) ==> b == counted.contains(p),
            forall|p: BlockRef| #[trigger]
                counted.contains(p) ==> refs@.contains(p) && self@.blocks.contains_key(p),
        ensures
            r == committee::has_quorum(self@.stakes, dag::authors_of(counted)),
    {
        let committee = self.committee();
        let mut authors = StakeAggregator::new();
        let mut i: usize = 0;
        while i < refs.len()
            invariant
                i <= refs@.len(),
                committee@ == self@.stakes,
                self@.valid(),
                authors.counts(committee@),
                forall|p: BlockRef| refs@.contains(p) ==> #[trigger] counts.requires((p,)),
                forall|p: BlockRef, b: bool| #[trigger]
                    counts.ensures((p,), b) && refs@.contains(p) ==> b == counted.contains(p),
                forall|p: BlockRef| #[trigger]
                    counted.contains(p) ==> refs@.contains(p) && self@.blocks.contains_key(p),
                forall|a: AuthorityIndex| #[trigger]
                    authors@.contains(a) ==> dag::authors_of(counted).contains(a),
                forall|j: int|
                    0 <= j < i && counted.contains(#[trigger] refs@[j]) ==> authors@.contains(
                        refs@[j].author,
                    ),
            decreases refs@.len() - i,
        {
            let reference = refs[i];
            assert(refs@.contains(reference));
            assert(counts.requires((reference,)));
            if counts(reference) {
                authors.add_unique(reference.author, committee);
            }
            i += 1;
        }
        proof {
            assert forall|a: AuthorityIndex| dag::authors_of(counted).contains(a) implies authors@.contains(
                a,
            ) by {
                let p = choose|p: BlockRef| #[trigger] counted.contains(p) && p.author == a;
                let j = choose|j: int| 0 <= j < refs@.len() && refs@[j] == p;
                assert(counted.contains(refs@[j]));
            }
            assert(authors@ =~= dag::authors_of(counted));
        }
        authors.reached_quorum(committee)
    }

    /// IsFastVoteTX(b, tx).
    pub fn is_fast_vote(
        &self,
        state: &SnapperState,
        block_ref: BlockRef,
        transaction: SnapperTransactionId,
    ) -> (r: bool)
        ensures
            r == self@.is_fast_vote(state@.inputs, block_ref, transaction),
    {
        if !self.includes(block_ref, transaction) {
            return false;
        }
        let inputs = match self.owned_inputs_for_tx(state, transaction) {
            Some(inputs) => inputs,
            None => {
                return false;
            },
        };
        let wanted = SnapperObjectStance::Transaction(transaction);
        let mut i: usize = 0;
        while i < inputs.len()
            invariant
                i <= inputs@.len(),
                wanted == SnapperObjectStance::Transaction(transaction),
                self@.owned_inputs_for(state@.inputs, transaction) == Some(inputs@),
                forall|j: int|
                    0 <= j < i ==> self@.stance_at(block_ref, #[trigger] inputs@[j]) == Some(wanted),
            decreases inputs@.len() - i,
        {
            let stands = match self.stance_at(block_ref, &inputs[i]) {
                Some(stance) => stance.same_as(&wanted),
                None => false,
            };
            if !stands {
                assert(self@.owned_inputs_for(state@.inputs, transaction)->0.contains(
                    inputs@[i as int],
                ));
                return false;
            }
            i += 1;
        }
        true
    }

    /// IsFastCertTX(b, tx).
    pub fn is_fast_cert(
        &self,
        state: &SnapperState,
        block_ref: BlockRef,
        transaction: SnapperTransactionId,
    ) -> (r: bool)
        ensures
            r == self@.is_fast_cert(state@.inputs, block_ref, transaction),
    {
        if !self.is_fast_vote(state, block_ref, transaction) {
            return false;
        }
        let parents = self.round_parents(block_ref);
        let ghost counted = self@.fast_votes_of(state@.inputs, block_ref, transaction);
        proof {
            assert forall|p: BlockRef| #[trigger] counted.contains(p) implies parents@.contains(p)
                && self@.blocks.contains_key(p) by {
                dag::lemma_includes_only_known(self@, p, transaction);
            }
        }
        let counts = |p: BlockRef| -> (b: bool)
            ensures
                b == self@.is_fast_vote(state@.inputs, p, transaction),
            { self.is_fast_vote(state, p, transaction) };
        self.quorum_where(&parents, counts, Ghost(counted))
    }

    /// HasCertTX(b, tx), reflexive.
    pub fn has_cert(
        &self,
        state: &SnapperState,
        root: BlockRef,
        transaction: SnapperTransactionId,
    ) -> (r: bool)
        ensures
            r == self@.has_cert(state@.inputs, root, transaction),
    {
        let refs = self.causal_history_refs(root);
        let mut i: usize = 0;
        while i < refs.len()
            invariant
                i <= refs@.len(),
                refs@.to_set() == self@.history(root),
                forall|j: int|
                    0 <= j < i ==> !self@.is_fast_cert(
                        state@.inputs,
                        #[trigger] refs@[j],
                        transaction,
                    ),
            decreases refs@.len() - i,
        {
            if self.is_fast_cert(state, refs[i], transaction) {
                assert(refs@.to_set().contains(refs@[i as int]));
                return true;
            }
            i += 1;
        }
        proof {
            assert forall|r: BlockRef| #[trigger]
                self@.history(root).contains(r) implies !self@.is_fast_cert(
                state@.inputs,
                r,
                transaction,
            ) by {
                assert(refs@.contains(r));
            }
        }
        false
    }

    /// CertVisible for the block currently being proposed.
    ///
    /// This reads only the proposed block's parents and their causal histories;
    /// it never reads the stance being chosen for the new block.
    pub fn cert_visible(
        &self,
        state: &SnapperState,
        proposal_round: Round,
        proposal_parents: &[BlockRef],
        transaction: SnapperTransactionId,
    ) -> (r: bool)
        ensures
            r == self@.cert_visible(
                state@.inputs,
                proposal_round,
                proposal_parents@,
                transaction,
            ),
    {
        let parents = refs_in_round(proposal_parents, round_before(proposal_round));
        let ghost counted = Set::new(
            |p: BlockRef|
                proposal_parents@.contains(p) && p.round == dag::previous_round(proposal_round)
                    && self@.is_fast_vote(state@.inputs, p, transaction),
        );
        proof {
            assert forall|p: BlockRef| #[trigger] counted.contains(p) implies parents@.contains(p)
                && self@.blocks.contains_key(p) by {
                dag::lemma_includes_only_known(self@, p, transaction);
            }
        }
        let counts = |p: BlockRef| -> (b: bool)
            ensures
                b == self@.is_fast_vote(state@.inputs, p, transaction),
            { self.is_fast_vote(state, p, transaction) };
        if self.quorum_where(&parents, counts, Ghost(counted)) {
            return true;
        }
        let mut i: usize = 0;
        while i < proposal_parents.len()
            invariant
                i <= proposal_parents@.len(),
                forall|j: int|
                    0 <= j < i ==> !self@.has_cert(
                        state@.inputs,
                        #[trigger] proposal_parents@[j],
                        transaction,
                    ),
            decreases proposal_parents@.len() - i,
        {
            if self.has_cert(state, proposal_parents[i], transaction) {
                assert(proposal_parents@.contains(proposal_parents@[i as int]));
                return true;
            }
            i += 1;
        }
        false
    }

    /// How a block votes against an object version in recovery.
    pub fn bottom_vote_kind_at(&self, block_ref: BlockRef, object: &SnapperObjectKey) -> (r: Option<
        SnapperBottomVoteKind,
    >)
        ensures
            r == self@.bottom_vote_kind_at(block_ref, *object),
    {
        match self.stance_at(block_ref, object) {
            Some(SnapperObjectStance::Bottom) => {},
            _ => {
                return None;
            },
        }
        if !self.recovery_objects_at(block_ref).contains(object) {
            return None;
        }
        if self.acked_before(block_ref, object) {
            Some(SnapperBottomVoteKind::Unlock)
        } else {
            Some(SnapperBottomVoteKind::Skip)
        }
    }

    /// IsSkipCertObj(b, o).
    pub fn is_skip_cert(&self, block_ref: BlockRef, object: &SnapperObjectKey) -> (r: bool)
        ensures
            r == self@.is_skip_cert(block_ref, *object),
    {
        let parents = self.round_parents(block_ref);
        let counts = |p: BlockRef| -> (b: bool)
                ensures
                    b == (self@.bottom_vote_kind_at(p, *object) == Some(
                        SnapperBottomVoteKind::Skip,
                    )),
                {
                    match self.bottom_vote_kind_at(p, object) {
                        Some(SnapperBottomVoteKind::Skip) => true,
                        _ => false,
                    }
                };
        self.quorum_where(
            &parents,
            counts,
            Ghost(
                Set::new(
                    |p: BlockRef|
                        self@.is_round_parent(block_ref, p) && self@.bottom_vote_kind_at(p, *object)
                            == Some(SnapperBottomVoteKind::Skip),
                ),
            ),
        )
    }

    /// IsUnlockCertObj(b, o): both skip and unlock votes count toward the
    /// opposing quorum.
    pub fn is_unlock_cert(&self, block_ref: BlockRef, object: &SnapperObjectKey) -> (r: bool)
        ensures
            r == self@.is_unlock_cert(block_ref, *object),
    {
        let parents = self.round_parents(block_ref);
        let counts = |p: BlockRef| -> (b: bool)
                ensures
                    b == self@.bottom_vote_kind_at(p, *object) is Some,
                { self.bottom_vote_kind_at(p, object).is_some() };
        self.quorum_where(
            &parents,
            counts,
            Ghost(
                Set::new(
                    |p: BlockRef|
                        self@.is_round_parent(block_ref, p) && self@.bottom_vote_kind_at(
                            p,
                            *object,
                        ) is Some,
                ),
            ),
        )
    }

    /// Whether a skip or unlock certificate is in the causal history of a block.
    pub fn has_opposing_cert(&self, root: BlockRef, object: &SnapperObjectKey) -> (r: bool)
        ensures
            r == self@.has_opposing_cert(root, *object),
    {
        let refs = self.causal_history_refs(root);
        let mut i: usize = 0;
        while i < refs.len()
            invariant
                i <= refs@.len(),
                refs@.to_set() == self@.history(root),
                forall|j: int|
                    0 <= j < i ==> !self@.is_skip_cert(#[trigger] refs@[j], *object)
                        && !self@.is_unlock_cert(refs@[j], *object),
            decreases refs@.len() - i,
        {
            if self.is_skip_cert(refs[i], object) || self.is_unlock_cert(refs[i], object) {
                assert(refs@.to_set().contains(refs@[i as int]));
                return true;
            }
            i += 1;
        }
        proof {
            assert forall|r: BlockRef| #[trigger] self@.history(root).contains(r) implies !(
            self@.is_skip_cert(r, *object) || self@.is_unlock_cert(r, *object)) by {
                assert(refs@.contains(r));
            }
        }
        false
    }

    /// The rounds after the first in which a block is known, in ascending order.
    pub fn rounds(&self) -> (r: Vec<Round>)
        ensures
            r@ == order::sorted(self@.rounds()),
            r@.to_set() == self@.rounds(),
    {
        let refs = self.refs();
        let mut rounds: SortedSet<Round> = SortedSet::new();
        let mut i: usize = 0;
        while i < refs.len()
            invariant
                i <= refs@.len(),
                refs@.to_set() == self@.blocks.dom(),
                forall|n: Round| #[trigger] rounds@.contains(n) ==> self@.rounds().contains(n),
                forall|j: int|
                    0 <= j < i && (#[trigger] refs@[j]).round > 0 ==> rounds@.contains(
                        refs@[j].round,
                    ),
            decreases refs@.len() - i,
        {
            let round = refs[i].round;
            if round > GENESIS_ROUND {
                assert(refs@.to_set().contains(refs@[i as int]));
                assert(self@.blocks.contains_key(refs@[i as int]));
                rounds.insert(round);
            }
            i += 1;
        }
        proof {
            assert forall|n: Round| self@.rounds().contains(n) implies rounds@.contains(n) by {
                let r = choose|r: BlockRef| #[trigger]
                    self@.blocks.contains_key(r) && r.round == n;
                assert(refs@.to_set().contains(r));
                let j = choose|j: int| 0 <= j < refs@.len() && refs@[j] == r;
                assert(refs@[j].round > 0);
            }
            assert(rounds@ =~= self@.rounds());
        }
        rounds.to_vec()
    }

    /// The known blocks of a round.
    fn blocks_of_round(&self, round: Round) -> (r: Vec<BlockRef>)
        ensures
            forall|p: BlockRef| #[trigger]
                r@.contains(p) <==> self@.blocks.contains_key(p) && p.round == round,
    {
        let refs = self.refs();
        let r = refs_in_round(refs.as_slice(), round);
        proof {
            assert forall|p: BlockRef| #[trigger]
                r@.contains(p) <==> self@.blocks.contains_key(p) && p.round == round by {
                assert(refs@.contains(p) <==> refs@.to_set().contains(p));
            }
        }
        r
    }

    /// Whether certificates for the transaction in one round are by a quorum.
    pub fn commit_certified(
        &self,
        state: &SnapperState,
        round: Round,
        transaction: SnapperTransactionId,
    ) -> (r: bool)
        ensures
            r == self@.commit_certified(state@.inputs, round, transaction),
    {
        let blocks = self.blocks_of_round(round);
        let counts = |p: BlockRef| -> (b: bool)
            ensures
                b == self@.is_fast_cert(state@.inputs, p, transaction),
            { self.is_fast_cert(state, p, transaction) };
        self.quorum_where(
            &blocks,
            counts,
            Ghost(
                Set::new(
                    |r: BlockRef|
                        self@.blocks.contains_key(r) && r.round == round && self@.is_fast_cert(
                            state@.inputs,
                            r,
                            transaction,
                        ),
                ),
            ),
        )
    }

    /// Whether skip certificates for the object version in one round are by a
    /// quorum.
    pub fn skip_certified(&self, round: Round, object: &SnapperObjectKey) -> (r: bool)
        ensures
            r == self@.skip_certified(round, *object),
    {
        let blocks = self.blocks_of_round(round);
        let counts = |p: BlockRef| -> (b: bool)
            ensures
                b == self@.is_skip_cert(p, *object),
            { self.is_skip_cert(p, object) };
        self.quorum_where(
            &blocks,
            counts,
            Ghost(
                Set::new(
                    |r: BlockRef|
                        self@.blocks.contains_key(r) && r.round == round && self@.is_skip_cert(
                            r,
                            *object,
                        ),
                ),
            ),
        )
    }
}

/// The round before the given one; the first round is its own predecessor.
fn round_before(round: Round) -> (r: Round)
    ensures
        r == dag::previous_round(round),
{
    if round == 0 {
        0
    } else {
        round - 1
    }
}

/// The references of the given round.
fn refs_in_round(refs: &[BlockRef], round: Round) -> (r: Vec<BlockRef>)
    ensures
        r@ == refs@.filter(|p: BlockRef| p.round == round as int),
        forall|p: BlockRef| #[trigger] r@.contains(p) <==> refs@.contains(p) && p.round == round,
{
    let ghost wanted = |p: BlockRef| p.round == round as int;
    let mut r: Vec<BlockRef> = Vec::new();
    let mut i: usize = 0;
    proof {
        seqs::lemma_filter_empty(refs@, wanted);
    }
    while i < refs.len()
        invariant
            i <= refs@.len(),
            wanted == (|p: BlockRef| p.round == round as int),
            r@ == refs@.take(i as int).filter(wanted),
        decreases refs@.len() - i,
    {
        proof {
            seqs::lemma_filter_next(refs@, i as int, wanted);
        }
        if refs[i].round == round {
            r.push(refs[i]);
        }
        i += 1;
    }
    proof {
        seqs::lemma_take_ends(refs@);
        assert forall|p: BlockRef| #[trigger] r@.contains(p) <==> refs@.contains(p) && p.round
            == round by {
            seqs::lemma_filter_members(refs@, wanted, p);
        }
    }
    r
}

/// Where nothing is decided and only transactions are recorded, every candidate
/// is recorded, and none is dead.
proof fn lemma_no_recorded_candidate_is_dead(
    own: AuthorityIndex,
    transactions: Seq<block::TransactionView>,
)
    ensures
        ({
            let model = dag::after_transactions(state::SnapperModel::initial(own), transactions);
            &&& model.decisions == Map::<
                SnapperObjectKey,
                crate::protocol::SnapperObjectDecision,
            >::empty()
            &&& forall|o: SnapperObjectKey, t: SnapperTransactionId| #[trigger]
                model.candidates_of(o).contains(t) ==> model.inputs.contains_key(t) && !model.dead(t)
        }),
    decreases transactions.len(),
{
    if transactions.len() > 0 {
        lemma_no_recorded_candidate_is_dead(own, transactions.drop_last());
        let start = state::SnapperModel::initial(own);
        let before = dag::after_transactions(start, transactions.drop_last());
        let model = dag::after_transactions(start, transactions);
        assert forall|o: SnapperObjectKey, t: SnapperTransactionId| #[trigger]
            model.candidates_of(o).contains(t) implies model.inputs.contains_key(t) && !model.dead(
            t,
        ) by {
            assert(before.candidates_of(o).contains(t) || (transactions.last().metadata is Some
                && transactions.last().metadata->0.id == t));
        }
    }
}

proof fn lemma_first_by_prefix(refs: Seq<BlockRef>, i: int, author: AuthorityIndex)
    requires
        0 <= i <= refs.len(),
        dag::first_by(refs.take(i), author) is Some,
    ensures
        dag::first_by(refs, author) == dag::first_by(refs.take(i), author),
    decreases refs.len() - i,
{
    if i == refs.len() {
        seqs::lemma_take_ends(refs);
    } else {
        seqs::lemma_take_next(refs, i);
        lemma_first_by_prefix(refs, i + 1, author);
    }
}

proof fn lemma_first_inputs_prefix(
    transactions: Seq<block::TransactionView>,
    i: int,
    id: SnapperTransactionId,
)
    requires
        0 <= i <= transactions.len(),
        dag::first_inputs(transactions.take(i), id) is Some,
    ensures
        dag::first_inputs(transactions, id) == dag::first_inputs(transactions.take(i), id),
    decreases transactions.len() - i,
{
    if i == transactions.len() {
        seqs::lemma_take_ends(transactions);
    } else {
        seqs::lemma_take_next(transactions, i);
        lemma_first_inputs_prefix(transactions, i + 1, id);
    }
}

/// A copy of some keys.
fn copy_keys(keys: &[SnapperObjectKey]) -> (r: Vec<SnapperObjectKey>)
    ensures
        r@ == keys@,
{
    let mut r: Vec<SnapperObjectKey> = Vec::new();
    let mut i: usize = 0;
    while i < keys.len()
        invariant
            i <= keys@.len(),
            r@ == keys@.take(i as int),
        decreases keys@.len() - i,
    {
        proof {
            seqs::lemma_take_next(keys@, i as int);
        }
        r.push(keys[i]);
        i += 1;
    }
    proof {
        seqs::lemma_take_ends(keys@);
    }
    r
}

/// Whether a key is among some keys.
fn contains_key(keys: &[SnapperObjectKey], key: &SnapperObjectKey) -> (r: bool)
    ensures
        r == keys@.contains(*key),
{
    let mut i: usize = 0;
    while i < keys.len()
        invariant
            i <= keys@.len(),
            forall|j: int| 0 <= j < i ==> #[trigger] keys@[j] != *key,
        decreases keys@.len() - i,
    {
        if order::same(&keys[i], key) {
            return true;
        }
        i += 1;
    }
    false
}

} // verus!
