//! Votes on transactions and the Snapper protocol of one authority.
use vstd::prelude::*;

use crate::block::{BlockTransactionVotes, Transaction, VerifiedBlock};
use crate::block_graph::BlockGraph;
use crate::committee;
use crate::committee::{Committee, StakeAggregator};
use crate::dag;
use crate::keys;
use crate::keys::{
    AuthorityIndex, BlockRef, Round, SnapperObjectKey, SnapperTransactionId, Stake,
    TransactionIndex, GENESIS_ROUND,
};
use crate::order;
use crate::protocol::{SnapperObjectDecision, SnapperObjectStance, SnapperObjectStanceVote};
use crate::resolution;
use crate::resolution::{Casting, Resolution};
use crate::seqs;
use crate::sorted_map::SortedMap;
use crate::sorted_set::SortedSet;
use crate::state;
use crate::state::SnapperState;
use crate::tracker_model;
use crate::tracker_model::{TrackerModel, VoteInfoView};

verus! {

/// VoteInfo keeps track of votes received for each transaction of a block,
/// possibly even before the block is received by this authority.
pub struct VoteInfo {
    block: Option<VerifiedBlock>,
    own_reject_txn_votes: Vec<TransactionIndex>,
    reject_txn_votes: SortedMap<TransactionIndex, StakeAggregator>,
}

impl View for VoteInfo {
    type V = VoteInfoView;

    closed spec fn view(&self) -> VoteInfoView {
        VoteInfoView {
            block: match self.block {
                Some(b) => Some(b@),
                None => None,
            },
            own_rejects: self.own_reject_txn_votes@,
            rejects: self.reject_txn_votes@.map_values(|a: StakeAggregator| a@),
        }
    }
}

impl VoteInfo {
    /// Every counted stake is that of the authorities that reject.
    pub closed spec fn counts(self, stakes: Seq<u64>) -> bool {
        forall|i: TransactionIndex| #[trigger]
            self.reject_txn_votes@.contains_key(i) ==> self.reject_txn_votes@[i].counts(stakes)
    }

    fn new() -> (r: Self)
        ensures
            r@ == tracker_model::no_votes(),
            forall|stakes: Seq<u64>| r.counts(stakes),
    {
        let r = VoteInfo {
            block: None,
            own_reject_txn_votes: Vec::new(),
            reject_txn_votes: SortedMap::new(),
        };
        assert(r@ =~= tracker_model::no_votes());
        r
    }

    /// Counts the rejects by an authority of some transactions.
    fn add_rejects(
        &mut self,
        author: AuthorityIndex,
        rejects: &Vec<TransactionIndex>,
        committee: &Committee,
    )
        requires
            old(self).counts(committee@),
            author.0 < committee@.len(),
        ensures
            final(self).counts(committee@),
            final(self)@ == (VoteInfoView {
                rejects: tracker_model::with_rejects(old(self)@.rejects, author, rejects@),
                ..old(self)@
            }),
    {
        let ghost start = self@.rejects;
        let mut i: usize = 0;
        proof {
            seqs::lemma_take_ends(rejects@);
            assert(start =~= tracker_model::with_rejects(start, author, rejects@.take(0)));
        }
        while i < rejects.len()
            invariant
                i <= rejects@.len(),
                self.counts(committee@),
                author.0 < committee@.len(),
                self@.block == old(self)@.block,
                self@.own_rejects == old(self)@.own_rejects,
                self@.rejects == tracker_model::with_rejects(start, author, rejects@.take(i as int)),
            decreases rejects@.len() - i,
        {
            let ghost before = self@.rejects;
            let index = rejects[i];
            let mut votes = match self.reject_txn_votes.remove(&index) {
                Some(votes) => votes,
                None => StakeAggregator::new(),
            };
            votes.add_unique(author, committee);
            self.reject_txn_votes.insert(index, votes);
            proof {
                seqs::lemma_take_next(rejects@, i as int);
                let goal = tracker_model::with_rejects(start, author, rejects@.take(i + 1));
                let grown = if before.contains_key(index) {
                    before[index].insert(author)
                } else {
                    set![author]
                };
                assert(votes@ =~= grown);
                assert(self@.rejects =~= before.insert(index, grown));
                assert(goal.dom() =~= before.insert(index, grown).dom());
                assert forall|j: TransactionIndex| #[trigger] goal.contains_key(j) implies goal[j]
                    =~= before.insert(index, grown)[j] by {}
                assert(goal =~= before.insert(index, grown));
            }
            i += 1;
        }
        proof {
            seqs::lemma_take_ends(rejects@);
        }
    }
}

/// VoteTrackerState keeps track of votes received by each transaction and block,
/// and helps determine if votes reach a quorum. Reject votes can start
/// accumulating even before the target block is received by this authority.
pub struct VoteTrackerState {
    graph: BlockGraph,
    votes: SortedMap<BlockRef, VoteInfo>,
    gc_round: Round,
    snapper_state: SnapperState,
    snapper_processed_blocks: SortedSet<BlockRef>,
}

impl View for VoteTrackerState {
    type V = TrackerModel;

    closed spec fn view(&self) -> TrackerModel {
        TrackerModel {
            dag: self.graph@,
            votes: self.votes@.map_values(|v: VoteInfo| v@),
            gc_round: self.gc_round,
            snapper: self.snapper_state@,
            processed: self.snapper_processed_blocks@,
        }
    }
}

impl VoteTrackerState {
    /// Every counted stake is that of the authorities that reject.
    pub closed spec fn well_formed(self) -> bool {
        forall|r: BlockRef| #[trigger]
            self.votes@.contains_key(r) ==> self.votes@[r].counts(self.graph@.stakes)
    }

    pub fn new(own_authority: AuthorityIndex, committee: Committee) -> (r: Self)
        ensures
            r.well_formed(),
            r@ == TrackerModel::initial(own_authority, committee@),
    {
        let r = VoteTrackerState {
            graph: BlockGraph::new(committee),
            votes: SortedMap::new(),
            gc_round: GENESIS_ROUND,
            snapper_state: SnapperState::new(own_authority),
            snapper_processed_blocks: SortedSet::new(),
        };
        assert(r@ =~= TrackerModel::initial(own_authority, committee@));
        r
    }

    /// The last round whose votes are dropped.
    pub fn gc_round(&self) -> (r: Round)
        ensures
            r == self@.gc_round,
    {
        self.gc_round
    }

    /// The blocks that Snapper reads.
    pub fn graph(&self) -> (r: &BlockGraph)
        ensures
            r@ == self@.dag,
    {
        &self.graph
    }

    /// The state of the unlocking layer.
    pub fn snapper_state(&self) -> (r: &SnapperState)
        ensures
            r@ == self@.snapper,
    {
        &self.snapper_state
    }

    /// Adds the blocks to those that Snapper reads.
    pub fn observe_snapper_blocks(&mut self, blocks: &[VerifiedBlock])
        requires
            old(self).well_formed(),
            forall|i: int|
                0 <= i < blocks@.len() ==> (#[trigger] blocks@[i])@.valid_in(old(self)@.dag.stakes),
        ensures
            final(self).well_formed(),
            final(self)@ == (TrackerModel {
                dag: tracker_model::with_blocks(old(self)@.dag, blocks@),
                ..old(self)@
            }),
    {
        let mut i: usize = 0;
        proof {
            seqs::lemma_take_ends(blocks@);
        }
        while i < blocks.len()
            invariant
                i <= blocks@.len(),
                forall|j: int|
                    0 <= j < blocks@.len() ==> (#[trigger] blocks@[j])@.valid_in(
                        old(self)@.dag.stakes,
                    ),
                self.graph@ == tracker_model::with_blocks(old(self)@.dag, blocks@.take(i as int)),
                self.graph@.stakes == old(self)@.dag.stakes,
                self.votes == old(self).votes,
                self.gc_round == old(self).gc_round,
                self.snapper_state == old(self).snapper_state,
                self.snapper_processed_blocks == old(self).snapper_processed_blocks,
            decreases blocks@.len() - i,
        {
            proof {
                seqs::lemma_take_next(blocks@, i as int);
            }
            self.graph.observe(&blocks[i]);
            i += 1;
        }
        proof {
            seqs::lemma_take_ends(blocks@);
        }
    }

    /// Takes in, in ascending order, the known blocks among those given that
    /// were not taken in before.
    pub fn process_snapper_blocks(&mut self, block_refs: &[BlockRef])
        requires
            old(self).well_formed(),
        ensures
            final(self).well_formed(),
            final(self)@ == old(self)@.with_processed(order::sorted(block_refs@.to_set())),
    {
        let mut refs: SortedSet<BlockRef> = SortedSet::new();
        refs.extend_from_slice(block_refs);
        assert(refs@ =~= block_refs@.to_set());
        self.process_in_order(&refs.to_vec());
    }

    /// Takes in the known blocks that were not taken in before, in the order
    /// given.
    fn process_in_order(&mut self, refs: &Vec<BlockRef>)
        requires
            old(self).well_formed(),
        ensures
            final(self).well_formed(),
            final(self)@ == old(self)@.with_processed(refs@),
    {
        let mut i: usize = 0;
        proof {
            seqs::lemma_take_ends(refs@);
        }
        while i < refs.len()
            invariant
                i <= refs@.len(),
                self.well_formed(),
                self@ == old(self)@.with_processed(refs@.take(i as int)),
                self@.dag == old(self)@.dag,
            decreases refs@.len() - i,
        {
            proof {
                seqs::lemma_take_next(refs@, i as int);
            }
            let ghost goal = old(self)@.with_processed(refs@.take(i + 1));
            let reference = refs[i];
            if !self.snapper_processed_blocks.contains(&reference) {
                match self.graph.get(&reference) {
                    Some(block) => {
                        let block = block.clone();
                        take_in(&mut self.snapper_state, &block);
                        self.snapper_processed_blocks.insert(reference);
                        assert(self@ =~= goal);
                    },
                    None => {},
                }
            }
            i += 1;
        }
        proof {
            seqs::lemma_take_ends(refs@);
        }
    }

    /// Commits the transactions one after the other, where they can be.
    fn commit_all(
        &mut self,
        transactions: &Vec<SnapperTransactionId>,
        changed: &mut Vec<(SnapperObjectKey, SnapperObjectDecision)>,
    )
        requires
            old(self).well_formed(),
        ensures
            final(self).well_formed(),
            ({
                let before = Resolution { snapper: old(self)@.snapper, changed: old(changed)@ };
                let after = before.commit_all(transactions@);
                &&& final(self)@ == (TrackerModel { snapper: after.snapper, ..old(self)@ })
                &&& final(changed)@ == after.changed
            }),
    {
        let ghost before = Resolution { snapper: self@.snapper, changed: changed@ };
        let mut i: usize = 0;
        proof {
            seqs::lemma_take_ends(transactions@);
        }
        while i < transactions.len()
            invariant
                i <= transactions@.len(),
                self.well_formed(),
                self@ == (TrackerModel {
                    snapper: before.commit_all(transactions@.take(i as int)).snapper,
                    ..old(self)@
                }),
                changed@ == before.commit_all(transactions@.take(i as int)).changed,
            decreases transactions@.len() - i,
        {
            proof {
                seqs::lemma_take_next(transactions@, i as int);
            }
            self.commit(transactions[i], changed);
            i += 1;
        }
        proof {
            seqs::lemma_take_ends(transactions@);
        }
    }

    /// Commits the transaction, where it can be.
    fn commit(
        &mut self,
        transaction: SnapperTransactionId,
        changed: &mut Vec<(SnapperObjectKey, SnapperObjectDecision)>,
    )
        requires
            old(self).well_formed(),
        ensures
            final(self).well_formed(),
            final(self)@ == (TrackerModel {
                snapper: old(self)@.snapper.with_commit(transaction),
                ..old(self)@
            }),
            final(changed)@ == old(changed)@ + old(self)@.snapper.commit_changes(transaction),
    {
        match self.snapper_state.commit_transaction(transaction) {
            Ok(mut decisions) => {
                changed.append(&mut decisions);
            },
            Err(_) => {
                assert(changed@ =~= old(changed)@ + old(self)@.snapper.commit_changes(transaction));
            },
        }
    }

    /// Releases the object version, where it is unresolved.
    fn release(
        &mut self,
        object: SnapperObjectKey,
        changed: &mut Vec<(SnapperObjectKey, SnapperObjectDecision)>,
    )
        requires
            old(self).well_formed(),
        ensures
            final(self).well_formed(),
            final(self)@ == (TrackerModel {
                snapper: old(self)@.snapper.with_release(object),
                ..old(self)@
            }),
            final(changed)@ == old(changed)@ + old(self)@.snapper.release_changes(object),
    {
        match self.snapper_state.release_object(object) {
            Ok(mut decisions) => {
                changed.append(&mut decisions);
            },
            Err(_) => {
                assert(changed@ =~= old(changed)@ + old(self)@.snapper.release_changes(object));
            },
        }
    }

    /// Releases the object versions one after the other, where they are
    /// unresolved.
    fn release_all(
        &mut self,
        objects: &Vec<SnapperObjectKey>,
        changed: &mut Vec<(SnapperObjectKey, SnapperObjectDecision)>,
    )
        requires
            old(self).well_formed(),
        ensures
            final(self).well_formed(),
            ({
                let before = Resolution { snapper: old(self)@.snapper, changed: old(changed)@ };
                let after = before.release_all(objects@);
                &&& final(self)@ == (TrackerModel { snapper: after.snapper, ..old(self)@ })
                &&& final(changed)@ == after.changed
            }),
    {
        let ghost before = Resolution { snapper: self@.snapper, changed: changed@ };
        let mut i: usize = 0;
        proof {
            seqs::lemma_take_ends(objects@);
        }
        while i < objects.len()
            invariant
                i <= objects@.len(),
                self.well_formed(),
                self@ == (TrackerModel {
                    snapper: before.release_all(objects@.take(i as int)).snapper,
                    ..old(self)@
                }),
                changed@ == before.release_all(objects@.take(i as int)).changed,
            decreases objects@.len() - i,
        {
            proof {
                seqs::lemma_take_next(objects@, i as int);
            }
            self.release(objects[i], changed);
            i += 1;
        }
        proof {
            seqs::lemma_take_ends(objects@);
        }
    }

    /// The transactions that a round commits, in ascending order.
    fn fast_commits(&self, round: Round) -> (r: Vec<SnapperTransactionId>)
        ensures
            r@ == self@.dag.fast_commits(self@.snapper, round),
    {
        let ids = self.snapper_state.transaction_ids();
        let ghost wanted = |t: SnapperTransactionId|
            self@.snapper.may_go_fast(t) && self@.dag.commit_certified(
                self@.snapper.inputs,
                round,
                t,
            );
        let mut r: Vec<SnapperTransactionId> = Vec::new();
        let mut i: usize = 0;
        proof {
            seqs::lemma_filter_empty(ids@, wanted);
        }
        while i < ids.len()
            invariant
                i <= ids@.len(),
                wanted == (|t: SnapperTransactionId|
                    self@.snapper.may_go_fast(t) && self@.dag.commit_certified(
                        self@.snapper.inputs,
                        round,
                        t,
                    )),
                r@ == ids@.take(i as int).filter(wanted),
            decreases ids@.len() - i,
        {
            proof {
                seqs::lemma_filter_next(ids@, i as int, wanted);
            }
            if self.snapper_state.can_commit_transaction(ids[i]) && !self.snapper_state.is_mixed(
                ids[i],
            ) && self.graph.commit_certified(&self.snapper_state, round, ids[i]) {
                r.push(ids[i]);
            }
            i += 1;
        }
        proof {
            seqs::lemma_take_ends(ids@);
        }
        r
    }

    /// The object versions that a round releases, in ascending order.
    fn fast_releases(&self, round: Round) -> (r: Vec<SnapperObjectKey>)
        ensures
            r@ == self@.dag.fast_releases(self@.snapper, round),
    {
        let objects = self.snapper_state.objects();
        let ghost wanted = |o: SnapperObjectKey|
            !self@.snapper.resolved(o) && self@.dag.skip_certified(round, o);
        let mut r: Vec<SnapperObjectKey> = Vec::new();
        let mut i: usize = 0;
        proof {
            seqs::lemma_filter_empty(objects@, wanted);
        }
        while i < objects.len()
            invariant
                i <= objects@.len(),
                wanted == (|o: SnapperObjectKey|
                    !self@.snapper.resolved(o) && self@.dag.skip_certified(round, o)),
                r@ == objects@.take(i as int).filter(wanted),
            decreases objects@.len() - i,
        {
            proof {
                seqs::lemma_filter_next(objects@, i as int, wanted);
            }
            if !self.snapper_state.is_resolved(&objects[i]) && self.graph.skip_certified(
                round,
                &objects[i],
            ) {
                r.push(objects[i]);
            }
            i += 1;
        }
        proof {
            seqs::lemma_take_ends(objects@);
        }
        r
    }

    /// TryFastDecideTX and TrySkipDecideObj. Mixed transactions are left to a
    /// committed anchor.
    pub fn try_fast_decisions(&mut self) -> (r: Vec<(SnapperObjectKey, SnapperObjectDecision)>)
        requires
            old(self).well_formed(),
        ensures
            final(self).well_formed(),
            ({
                let after = old(self)@.dag.fast_decisions(old(self)@.snapper);
                &&& final(self)@ == (TrackerModel { snapper: after.snapper, ..old(self)@ })
                &&& r@ == after.changed
            }),
    {
        let mut changed: Vec<(SnapperObjectKey, SnapperObjectDecision)> = Vec::new();
        let rounds = self.graph.rounds();
        let ghost start = Resolution::start(self@.snapper);
        let mut i: usize = 0;
        proof {
            seqs::lemma_take_ends(rounds@);
        }
        while i < rounds.len()
            invariant
                i <= rounds@.len(),
                self.well_formed(),
                self@ == (TrackerModel {
                    snapper: old(self)@.dag.decide_rounds(start, rounds@.take(i as int)).snapper,
                    ..old(self)@
                }),
                changed@ == old(self)@.dag.decide_rounds(start, rounds@.take(i as int)).changed,
            decreases rounds@.len() - i,
        {
            proof {
                seqs::lemma_take_next(rounds@, i as int);
            }
            let ghost before = old(self)@.dag.decide_rounds(start, rounds@.take(i as int));
            let round = rounds[i];
            let commits = self.fast_commits(round);
            assert(before =~= Resolution { snapper: self@.snapper, changed: changed@ });
            self.commit_all(&commits, &mut changed);
            let releases = self.fast_releases(round);
            assert(before.commit_all(commits@) =~= Resolution {
                snapper: self@.snapper,
                changed: changed@,
            });
            self.release_all(&releases, &mut changed);
            i += 1;
        }
        proof {
            seqs::lemma_take_ends(rounds@);
        }
        changed
    }

    /// Whether the own authority no longer stands for the transaction on all its
    /// inputs.
    fn sibling_abandoned(&self, transaction: SnapperTransactionId) -> (r: bool)
        ensures
            r == resolution::sibling_abandoned(self@.snapper, transaction),
    {
        let wanted = SnapperObjectStance::Transaction(transaction);
        match self.snapper_state.owned_inputs(transaction) {
            None => true,
            Some(inputs) => {
                let mut i: usize = 0;
                while i < inputs.len()
                    invariant
                        i <= inputs@.len(),
                        wanted == SnapperObjectStance::Transaction(transaction),
                        self@.snapper.inputs.contains_key(transaction),
                        self@.snapper.inputs[transaction] == inputs@,
                        forall|j: int|
                            0 <= j < i ==> self@.snapper.own_stance(#[trigger] inputs@[j]) == Some(
                                wanted,
                            ),
                    decreases inputs@.len() - i,
                {
                    let stands = match self.snapper_state.own_stance(&inputs[i]) {
                        Some(stance) => stance.same_as(&wanted),
                        None => false,
                    };
                    if !stands {
                        assert(self@.snapper.inputs[transaction].contains(inputs@[i as int]));
                        return true;
                    }
                    i += 1;
                }
                false
            },
        }
    }

    /// Whether an object version in recovery is to be left to Bottom.
    fn abandons(
        &self,
        proposal_round: Round,
        proposal_parents: &[BlockRef],
        object: &SnapperObjectKey,
    ) -> (r: bool)
        ensures
            r == self@.dag.abandons(
                self@.snapper,
                proposal_round,
                proposal_parents@,
                *object,
            ),
    {
        if self.snapper_state.is_resolved(object) {
            return false;
        }
        match self.snapper_state.own_stance(object) {
            None => true,
            Some(SnapperObjectStance::Bottom) => false,
            Some(SnapperObjectStance::Transaction(transaction)) => {
                self.snapper_state.is_transaction_dead(transaction) || self.sibling_abandoned(
                    transaction,
                ) || !self.graph.cert_visible(
                    &self.snapper_state,
                    proposal_round,
                    proposal_parents,
                    transaction,
                )
            },
        }
    }

    /// CastVotes for the block currently being built.
    pub fn take_stance_changes(
        &mut self,
        proposal_round: Round,
        proposal_parents: &[BlockRef],
    ) -> (r: Vec<SnapperObjectStanceVote>)
        requires
            old(self).well_formed(),
        ensures
            final(self).well_formed(),
            ({
                let after = old(self)@.dag.cast_votes(
                    old(self)@.snapper,
                    proposal_round,
                    proposal_parents@,
                );
                &&& final(self)@ == (TrackerModel { snapper: after.snapper, ..old(self)@ })
                &&& r@ == after.changes
            }),
    {
        let ghost dag = self@.dag;
        let ghost parents = proposal_parents@;
        let ghost start = Casting::start(self@.snapper);
        let recovery = self.snapper_state.current_recovery_objects();
        let mut changes: Vec<SnapperObjectStanceVote> = Vec::new();
        let contested = recovery.to_vec();
        let mut i: usize = 0;
        proof {
            seqs::lemma_take_ends(contested@);
        }
        while i < contested.len()
            invariant
                i <= contested@.len(),
                self.well_formed(),
                dag == old(self)@.dag,
                parents == proposal_parents@,
                self@ == (TrackerModel { snapper: self@.snapper, ..old(self)@ }),
                (Casting { snapper: self@.snapper, changes: changes@ }) == dag.abandon_all(
                    start,
                    proposal_round,
                    parents,
                    contested@.take(i as int),
                ),
            decreases contested@.len() - i,
        {
            proof {
                seqs::lemma_take_next(contested@, i as int);
            }
            let object = contested[i];
            if self.abandons(proposal_round, proposal_parents, &object) {
                self.declare(object, SnapperObjectStance::Bottom, &mut changes);
            }
            i += 1;
        }
        proof {
            seqs::lemma_take_ends(contested@);
        }
        let ghost abandoned = Casting { snapper: self@.snapper, changes: changes@ };
        let objects = self.snapper_state.objects();
        let mut k: usize = 0;
        proof {
            seqs::lemma_take_ends(objects@);
        }
        while k < objects.len()
            invariant
                k <= objects@.len(),
                self.well_formed(),
                self@ == (TrackerModel { snapper: self@.snapper, ..old(self)@ }),
                (Casting { snapper: self@.snapper, changes: changes@ })
                    == abandoned.acknowledge_all(recovery@, objects@.take(k as int)),
            decreases objects@.len() - k,
        {
            proof {
                seqs::lemma_take_next(objects@, k as int);
            }
            let object = objects[k];
            if !self.snapper_state.is_resolved(&object) && !recovery.contains(&object)
                && self.snapper_state.own_stance(&object).is_none() {
                let candidates = self.snapper_state.candidates(&object);
                proof {
                    candidates@.unique_seq_to_set();
                }
                if candidates.len() == 1 {
                    self.declare(
                        object,
                        SnapperObjectStance::Transaction(candidates[0]),
                        &mut changes,
                    );
                }
            }
            k += 1;
        }
        proof {
            seqs::lemma_take_ends(objects@);
        }
        changes
    }

    /// Declares a stance of the own authority. The stance may be declared: it
    /// is Bottom, or none was taken.
    fn declare(
        &mut self,
        object: SnapperObjectKey,
        stance: SnapperObjectStance,
        changes: &mut Vec<SnapperObjectStanceVote>,
    )
        requires
            old(self).well_formed(),
            state::legal_move(old(self)@.snapper.own_stance(object), stance),
        ensures
            final(self).well_formed(),
            ({
                let after = (Casting {
                    snapper: old(self)@.snapper,
                    changes: old(changes)@,
                }).declare(object, stance);
                &&& final(self)@ == (TrackerModel { snapper: after.snapper, ..old(self)@ })
                &&& final(changes)@ == after.changes
            }),
    {
        let _ = self.snapper_state.apply_own_stance(object, stance);
        changes.push(SnapperObjectStanceVote { object, stance });
    }

    /// Processes the newly linked causal history for Snapper and returns local
    /// stance changes to include in the next proposed block.
    pub fn get_snapper_stance_votes(
        &mut self,
        proposal_round: Round,
        proposal_parents: &[BlockRef],
        block_refs: &[BlockRef],
        current_transactions: &[Transaction],
    ) -> (r: Vec<SnapperObjectStanceVote>)
        requires
            old(self).well_formed(),
        ensures
            final(self).well_formed(),
            ({
                let before = old(self)@.before_casting(
                    proposal_parents@,
                    block_refs@,
                    tracker_model::transaction_views(current_transactions@),
                );
                let after = before.dag.cast_votes(
                    before.snapper,
                    proposal_round,
                    proposal_parents@,
                );
                &&& final(self)@ == (TrackerModel { snapper: after.snapper, ..before })
                &&& r@ == after.changes
            }),
    {
        let mut to_process: SortedSet<BlockRef> = SortedSet::new();
        to_process.extend_from_slice(block_refs);
        let mut i: usize = 0;
        while i < proposal_parents.len()
            invariant
                i <= proposal_parents@.len(),
                *self == *old(self),
                forall|r: BlockRef| #[trigger]
                    to_process@.contains(r) ==> tracker_model::linked(
                        self@.dag,
                        proposal_parents@,
                        block_refs@,
                    ).contains(r),
                forall|r: BlockRef| #[trigger] block_refs@.contains(r) ==> to_process@.contains(r),
                forall|j: int, r: BlockRef|
                    #![trigger proposal_parents@[j], to_process@.contains(r)]
                    0 <= j < i && self@.dag.history(proposal_parents@[j]).contains(r)
                        ==> to_process@.contains(r),
            decreases proposal_parents@.len() - i,
        {
            let history = self.graph.causal_history_refs(proposal_parents[i]);
            let ghost before = to_process@;
            to_process.extend_from_slice(history.as_slice());
            proof {
                assert(proposal_parents@.contains(proposal_parents@[i as int]));
                assert(to_process@ =~= before.union(self@.dag.history(proposal_parents@[i as int])));
                assert forall|j: int, r: BlockRef|
                    #![trigger proposal_parents@[j], to_process@.contains(r)]
                    0 <= j < i + 1 && self@.dag.history(proposal_parents@[j]).contains(
                        r,
                    ) implies to_process@.contains(r) by {
                    if j < i {
                        assert(before.contains(r));
                    }
                }
            }
            i += 1;
        }
        proof {
            let all = tracker_model::linked(self@.dag, proposal_parents@, block_refs@);
            assert forall|r: BlockRef| all.contains(r) implies to_process@.contains(r) by {
                if !block_refs@.contains(r) {
                    let p = choose|p: BlockRef| #[trigger]
                        proposal_parents@.contains(p) && self@.dag.history(p).contains(r);
                    let j = choose|j: int|
                        0 <= j < proposal_parents@.len() && proposal_parents@[j] == p;
                    assert(proposal_parents@[j] == p);
                }
            }
            assert(to_process@ =~= all);
            tracker_model::lemma_processing_keeps_graph(self@, order::sorted(all));
        }
        self.process_in_order(&to_process.to_vec());
        record_all(&mut self.snapper_state, current_transactions);
        let _ = self.try_fast_decisions();
        self.take_stance_changes(proposal_round, proposal_parents)
    }

    /// FinalizeOnCommitTX + ResolveOnCommitObj for a committed anchor.
    ///
    /// Transaction certificates have priority over skip/unlock certificates. Two
    /// conflicting transactions should not both have certificates; the first in
    /// ascending order is taken.
    pub fn resolve_snapper_committed_anchor(
        &mut self,
        anchor: BlockRef,
        committed_blocks: &[VerifiedBlock],
    ) -> (r: Vec<(SnapperObjectKey, SnapperObjectDecision)>)
        requires
            old(self).well_formed(),
            forall|i: int|
                0 <= i < committed_blocks@.len() ==> (#[trigger] committed_blocks@[i])@.valid_in(
                    old(self)@.dag.stakes,
                ),
        ensures
            final(self).well_formed(),
            ({
                let before = old(self)@.before_anchor(anchor, committed_blocks@);
                let after = before.dag.resolve_anchor(before.snapper, anchor);
                &&& final(self)@ == (TrackerModel { snapper: after.snapper, ..before })
                &&& r@ == after.changed
            }),
    {
        self.observe_snapper_blocks(committed_blocks);
        let history = self.graph.causal_history_refs(anchor);
        proof {
            tracker_model::lemma_processing_keeps_graph(self@, history@);
        }
        self.process_in_order(&history);
        let ghost before = self@;
        let mut changed = self.try_fast_decisions();
        let ghost fast = before.dag.fast_decisions(before.snapper);
        let recovery = self.graph.recovery_objects_at(anchor);
        let ids = self.snapper_state.transaction_ids();
        let mut i: usize = 0;
        proof {
            seqs::lemma_take_ends(ids@);
        }
        while i < ids.len()
            invariant
                i <= ids@.len(),
                self.well_formed(),
                recovery@ == before.dag.recovery_objects_at(anchor),
                self@ == (TrackerModel { snapper: self@.snapper, ..before }),
                (Resolution { snapper: self@.snapper, changed: changed@ })
                    == before.dag.finalize_all(fast, anchor, ids@.take(i as int)),
            decreases ids@.len() - i,
        {
            proof {
                seqs::lemma_take_next(ids@, i as int);
            }
            if self.finalizes(anchor, &recovery, ids[i]) {
                self.commit(ids[i], &mut changed);
            }
            i += 1;
        }
        proof {
            seqs::lemma_take_ends(ids@);
        }
        let ghost finalized = Resolution { snapper: self@.snapper, changed: changed@ };
        let objects = recovery.to_vec();
        let mut k: usize = 0;
        proof {
            seqs::lemma_take_ends(objects@);
        }
        while k < objects.len()
            invariant
                k <= objects@.len(),
                self.well_formed(),
                self@ == (TrackerModel { snapper: self@.snapper, ..before }),
                (Resolution { snapper: self@.snapper, changed: changed@ })
                    == before.dag.resolve_all(finalized, anchor, objects@.take(k as int)),
            decreases objects@.len() - k,
        {
            proof {
                seqs::lemma_take_next(objects@, k as int);
            }
            let object = objects[k];
            if !self.snapper_state.is_resolved(&object) {
                match self.first_certified_at(anchor, &object) {
                    Some(transaction) => {
                        self.commit(transaction, &mut changed);
                    },
                    None => {
                        if self.graph.has_opposing_cert(anchor, &object) {
                            self.release(object, &mut changed);
                        }
                    },
                }
            }
            k += 1;
        }
        proof {
            seqs::lemma_take_ends(objects@);
        }
        changed
    }

    /// Whether the committed anchor finalizes the transaction outside recovery.
    fn finalizes(
        &self,
        anchor: BlockRef,
        recovery: &SortedSet<SnapperObjectKey>,
        transaction: SnapperTransactionId,
    ) -> (r: bool)
        requires
            recovery@ == self@.dag.recovery_objects_at(anchor),
        ensures
            r == self@.dag.finalizes(self@.snapper, anchor, transaction),
    {
        if !self.snapper_state.can_commit_transaction(transaction) || !self.graph.includes(
            anchor,
            transaction,
        ) || !self.graph.has_cert(&self.snapper_state, anchor, transaction) {
            return false;
        }
        match self.snapper_state.owned_inputs(transaction) {
            None => false,
            Some(inputs) => {
                let mut i: usize = 0;
                while i < inputs.len()
                    invariant
                        i <= inputs@.len(),
                        self@.snapper.inputs[transaction] == inputs@,
                        recovery@ == self@.dag.recovery_objects_at(anchor),
                        forall|j: int|
                            0 <= j < i ==> !recovery@.contains(#[trigger] inputs@[j]),
                    decreases inputs@.len() - i,
                {
                    if recovery.contains(&inputs[i]) {
                        assert(inputs@.contains(inputs@[i as int]));
                        return false;
                    }
                    i += 1;
                }
                true
            },
        }
    }

    /// The first candidate in the anchor's history that can be committed and has
    /// a certificate there.
    fn first_certified_at(&self, anchor: BlockRef, object: &SnapperObjectKey) -> (r: Option<
        SnapperTransactionId,
    >)
        ensures
            ({
                let certified = self@.dag.certified_at(self@.snapper, anchor, *object);
                r == (if certified.len() > 0 {
                    Some(certified[0])
                } else {
                    None
                })
            }),
    {
        let candidates = self.graph.visible_candidates(anchor, object).to_vec();
        let ghost wanted = |t: SnapperTransactionId|
            self@.snapper.can_commit(t) && self@.dag.has_cert(self@.snapper.inputs, anchor, t);
        let mut i: usize = 0;
        proof {
            seqs::lemma_filter_empty(candidates@, wanted);
        }
        while i < candidates.len()
            invariant
                i <= candidates@.len(),
                candidates@ == order::sorted(self@.dag.visible_candidates(anchor, *object)),
                wanted == (|t: SnapperTransactionId|
                    self@.snapper.can_commit(t) && self@.dag.has_cert(
                        self@.snapper.inputs,
                        anchor,
                        t,
                    )),
                candidates@.take(i as int).filter(wanted) == Seq::<SnapperTransactionId>::empty(),
            decreases candidates@.len() - i,
        {
            proof {
                seqs::lemma_filter_next(candidates@, i as int, wanted);
            }
            if self.snapper_state.can_commit_transaction(candidates[i]) && self.graph.has_cert(
                &self.snapper_state,
                anchor,
                candidates[i],
            ) {
                proof {
                    seqs::lemma_filter_first(candidates@, i as int, wanted);
                }
                return Some(candidates[i]);
            }
            i += 1;
        }
        proof {
            seqs::lemma_take_ends(candidates@);
        }
        None
    }

    /// Adds blocks with the own reject votes on each.
    pub fn add_voted_blocks(&mut self, voted_blocks: Vec<(VerifiedBlock, Vec<TransactionIndex>)>)
        requires
            old(self).well_formed(),
            forall|i: int|
                0 <= i < voted_blocks@.len() ==> (#[trigger] voted_blocks@[i]).0@.valid_in(
                    old(self)@.dag.stakes,
                ),
        ensures
            final(self).well_formed(),
            final(self)@ == old(self)@.with_voted_blocks(tracker_model::voted_views(voted_blocks@)),
    {
        let ghost views = tracker_model::voted_views(voted_blocks@);
        let mut i: usize = 0;
        proof {
            seqs::lemma_take_ends(views);
        }
        while i < voted_blocks.len()
            invariant
                i <= voted_blocks@.len(),
                self.well_formed(),
                forall|j: int|
                    0 <= j < voted_blocks@.len() ==> (#[trigger] voted_blocks@[j]).0@.valid_in(
                        old(self)@.dag.stakes,
                    ),
                self@.dag.stakes == old(self)@.dag.stakes,
                views == tracker_model::voted_views(voted_blocks@),
                self@ == old(self)@.with_voted_blocks(views.take(i as int)),
            decreases voted_blocks@.len() - i,
        {
            proof {
                seqs::lemma_take_next(views, i as int);
            }
            self.add_voted_block(&voted_blocks[i].0, &voted_blocks[i].1);
            i += 1;
        }
        proof {
            seqs::lemma_take_ends(views);
        }
    }

    /// Adds recovered blocks with the own reject votes on those that need them.
    pub fn add_recovered_blocks(
        &mut self,
        blocks: &[VerifiedBlock],
        should_vote: &[bool],
        votes: &[Vec<TransactionIndex>],
    )
        requires
            old(self).well_formed(),
            should_vote@.len() == blocks@.len(),
            votes@.len() == blocks@.len(),
            forall|i: int|
                0 <= i < blocks@.len() ==> (#[trigger] blocks@[i])@.valid_in(old(self)@.dag.stakes),
        ensures
            final(self).well_formed(),
            final(self)@ == old(self)@.with_voted_blocks(
                tracker_model::recovered_views(blocks@, should_vote@, votes@),
            ),
    {
        let ghost views = tracker_model::recovered_views(blocks@, should_vote@, votes@);
        let none: Vec<TransactionIndex> = Vec::new();
        let mut i: usize = 0;
        proof {
            seqs::lemma_take_ends(views);
        }
        while i < blocks.len()
            invariant
                i <= blocks@.len(),
                self.well_formed(),
                none@ == Seq::<TransactionIndex>::empty(),
                should_vote@.len() == blocks@.len(),
                votes@.len() == blocks@.len(),
                forall|j: int|
                    0 <= j < blocks@.len() ==> (#[trigger] blocks@[j])@.valid_in(
                        old(self)@.dag.stakes,
                    ),
                self@.dag.stakes == old(self)@.dag.stakes,
                views == tracker_model::recovered_views(blocks@, should_vote@, votes@),
                self@ == old(self)@.with_voted_blocks(views.take(i as int)),
            decreases blocks@.len() - i,
        {
            proof {
                seqs::lemma_take_next(views, i as int);
            }
            if should_vote[i] {
                self.add_voted_block(&blocks[i], &votes[i]);
            } else {
                self.add_voted_block(&blocks[i], &none);
            }
            i += 1;
        }
        proof {
            seqs::lemma_take_ends(views);
        }
    }

    /// Adds a block with the own reject votes on it.
    pub fn add_voted_block(
        &mut self,
        voted_block: &VerifiedBlock,
        reject_txn_votes: &Vec<TransactionIndex>,
    )
        requires
            old(self).well_formed(),
            voted_block@.valid_in(old(self)@.dag.stakes),
        ensures
            final(self).well_formed(),
            final(self)@ == old(self)@.with_voted_block(voted_block@, reject_txn_votes@),
            final(self)@.dag.stakes == old(self)@.dag.stakes,
    {
        let ghost start = self@;
        if voted_block.round() <= self.gc_round {
            return;
        }
        self.graph.observe(voted_block);
        let ghost seen = TrackerModel { dag: tracker_model::with_block(start.dag, voted_block@), ..start };
        assert(self@ =~= seen);
        let reference = voted_block.reference();
        let mut info = match self.votes.remove(&reference) {
            Some(info) => info,
            None => VoteInfo::new(),
        };
        assert(info@ =~= start.votes_on(reference));
        assert(info.counts(self.graph@.stakes));
        if info.block.is_some() {
            self.votes.insert(reference, info);
            assert(self@.votes =~= start.votes);
            assert(self@ =~= seen);
            return;
        }
        info.block = Some(voted_block.clone());
        info.own_reject_txn_votes = copy_indices(reject_txn_votes);
        self.votes.insert(reference, info);
        let ghost received = seen.with_received(voted_block@, reject_txn_votes@);
        assert(self@.votes =~= received.votes);
        assert(self@ =~= received);
        let author = voted_block.author();
        let votes = voted_block.transaction_votes();
        let ghost views = voted_block@.transaction_votes;
        let mut i: usize = 0;
        proof {
            seqs::lemma_take_ends(views);
        }
        while i < votes.len()
            invariant
                i <= votes@.len(),
                self.well_formed(),
                votes@.len() == views.len(),
                forall|j: int| 0 <= j < votes@.len() ==> (#[trigger] votes@[j])@ == views[j],
                author.0 < self@.dag.stakes.len(),
                self@.dag.stakes == old(self)@.dag.stakes,
                self@ == received.with_all_reject_votes(author, views.take(i as int)),
            decreases votes@.len() - i,
        {
            proof {
                seqs::lemma_take_next(views, i as int);
            }
            self.add_reject_votes(author, &votes[i]);
            i += 1;
        }
        proof {
            seqs::lemma_take_ends(views);
        }
    }

    /// Counts the rejects by an authority of transactions of one block.
    fn add_reject_votes(&mut self, author: AuthorityIndex, votes: &BlockTransactionVotes)
        requires
            old(self).well_formed(),
            author.0 < old(self)@.dag.stakes.len(),
        ensures
            final(self).well_formed(),
            final(self)@ == old(self)@.with_reject_votes(author, votes@),
    {
        if votes.block_ref.round <= self.gc_round {
            return;
        }
        let mut info = match self.votes.remove(&votes.block_ref) {
            Some(info) => info,
            None => VoteInfo::new(),
        };
        assert(info@ =~= old(self)@.votes_on(votes.block_ref));
        info.add_rejects(author, &votes.rejects, self.graph.committee());
        self.votes.insert(votes.block_ref, info);
        let ghost goal = old(self)@.with_reject_votes(author, votes@);
        assert(self@.votes =~= goal.votes);
        assert(self@ =~= goal);
    }

    /// Updates the GC round and cleans up obsolete internal state.
    pub fn update_gc_round(&mut self, gc_round: Round)
        requires
            old(self).well_formed(),
        ensures
            final(self).well_formed(),
            final(self)@ == old(self)@.with_gc_round(gc_round),
    {
        self.gc_round = gc_round;
        self.drop_votes();
        self.drop_processed();
        assert(self@ =~= old(self)@.with_gc_round(gc_round));
    }

    /// Drops the votes on blocks up to the GC round.
    fn drop_votes(&mut self)
        requires
            old(self).well_formed(),
        ensures
            final(self).well_formed(),
            final(self)@ == (TrackerModel {
                votes: old(self)@.with_gc_round(old(self)@.gc_round).votes,
                ..old(self)@
            }),
    {
        let ghost start = self@.votes;
        let ghost limit = self.gc_round;
        let refs = self.votes.keys();
        assert(start.dom() =~= refs@.to_set());
        let mut i: usize = 0;
        while i < refs.len() && refs[i].round <= self.gc_round
            invariant
                i <= refs@.len(),
                self.well_formed(),
                limit == self.gc_round,
                start == old(self)@.votes,
                start.dom() == refs@.to_set(),
                self@ == (TrackerModel { votes: self@.votes, ..old(self)@ }),
                forall|r: BlockRef| #[trigger]
                    self@.votes.contains_key(r) <==> start.contains_key(r) && !refs@.take(
                        i as int,
                    ).contains(r),
                forall|r: BlockRef| #[trigger]
                    self@.votes.contains_key(r) ==> self@.votes[r] == start[r],
                forall|j: int| 0 <= j < i ==> (#[trigger] refs@[j]).round <= limit,
            decreases refs@.len() - i,
        {
            let ghost before = self@.votes;
            proof {
                seqs::lemma_take_next(refs@, i as int);
            }
            self.votes.remove(&refs[i]);
            assert(self@.votes =~= before.remove(refs@[i as int]));
            i += 1;
        }
        proof {
            let goal = old(self)@.with_gc_round(limit).votes;
            assert forall|r: BlockRef| #[trigger] self@.votes.contains_key(r) <==> goal.contains_key(
                r,
            ) by {
                if start.contains_key(r) {
                    assert(refs@.to_set().contains(r));
                    let j = choose|j: int| 0 <= j < refs@.len() && refs@[j] == r;
                    if j < i {
                        assert(refs@.take(i as int)[j] == r);
                    } else {
                        if refs@.take(i as int).contains(r) {
                            let k = choose|k: int| 0 <= k < i && refs@.take(i as int)[k] == r;
                            assert(refs@[k] == refs@[j]);
                        }
                        if i < j {
                            lemma_ascending_rounds(refs@, i as int, j);
                        }
                    }
                }
            }
            assert(self@.votes =~= goal);
            assert(self@ =~= TrackerModel { votes: goal, ..old(self)@ });
        }
    }

    /// Forgets the processed blocks up to the GC round.
    fn drop_processed(&mut self)
        requires
            old(self).well_formed(),
        ensures
            final(self).well_formed(),
            final(self)@ == (TrackerModel {
                processed: old(self)@.with_gc_round(old(self)@.gc_round).processed,
                ..old(self)@
            }),
    {
        let ghost start = self@.processed;
        let ghost limit = self.gc_round;
        let refs = self.snapper_processed_blocks.to_vec();
        let mut kept: SortedSet<BlockRef> = SortedSet::new();
        let mut i: usize = 0;
        while i < refs.len()
            invariant
                i <= refs@.len(),
                *self == *old(self),
                limit == self.gc_round,
                refs@.to_set() == start,
                forall|r: BlockRef| #[trigger]
                    kept@.contains(r) <==> refs@.take(i as int).contains(r) && r.round > limit,
            decreases refs@.len() - i,
        {
            let ghost before = kept@;
            proof {
                seqs::lemma_take_next(refs@, i as int);
            }
            if refs[i].round > self.gc_round {
                kept.insert(refs[i]);
            }
            assert forall|r: BlockRef| #[trigger]
                kept@.contains(r) <==> refs@.take(i + 1).contains(r) && r.round > limit by {
                assert(before.contains(r) <==> refs@.take(i as int).contains(r) && r.round > limit);
            }
            i += 1;
        }
        proof {
            seqs::lemma_take_ends(refs@);
            assert forall|r: BlockRef| kept@.contains(r) <==> start.contains(r) && r.round
                > limit by {
                assert(refs@.contains(r) <==> refs@.to_set().contains(r));
            }
        }
        self.snapper_processed_blocks = kept;
        assert(self@.processed =~= old(self)@.with_gc_round(limit).processed);
    }

    /// The first of the blocks above the GC round that is not known.
    pub fn first_unknown(&self, block_refs: &[BlockRef]) -> (r: Option<BlockRef>)
        ensures
            match r {
                Some(b) => exists|i: int|
                    0 <= i < block_refs@.len() && #[trigger] block_refs@[i] == b && self@.misses(b)
                        && forall|j: int| 0 <= j < i ==> !self@.misses(#[trigger] block_refs@[j]),
                None => forall|i: int|
                    0 <= i < block_refs@.len() ==> !self@.misses(#[trigger] block_refs@[i]),
            },
    {
        let mut i: usize = 0;
        while i < block_refs.len()
            invariant
                i <= block_refs@.len(),
                forall|j: int| 0 <= j < i ==> !self@.misses(#[trigger] block_refs@[j]),
            decreases block_refs@.len() - i,
        {
            if block_refs[i].round > self.gc_round && !self.votes.contains_key(&block_refs[i]) {
                return Some(block_refs[i]);
            }
            i += 1;
        }
        None
    }

    /// Retrieves own votes on peer block transactions.
    pub fn get_own_votes(&self, block_refs: &[BlockRef]) -> (r: Vec<BlockTransactionVotes>)
        requires
            forall|i: int|
                0 <= i < block_refs@.len() ==> !self@.misses(#[trigger] block_refs@[i]),
        ensures
            r@.map_values(|v: BlockTransactionVotes| v@) == self@.own_votes(block_refs@),
    {
        let ghost as_view = |v: BlockTransactionVotes| v@;
        let mut votes: Vec<BlockTransactionVotes> = Vec::new();
        let mut i: usize = 0;
        proof {
            seqs::lemma_take_ends(block_refs@);
            assert(votes@.map_values(as_view) =~= self@.own_votes(block_refs@.take(0)));
        }
        while i < block_refs.len()
            invariant
                i <= block_refs@.len(),
                forall|j: int|
                    0 <= j < block_refs@.len() ==> !self@.misses(#[trigger] block_refs@[j]),
                as_view == (|v: BlockTransactionVotes| v@),
                votes@.map_values(as_view) == self@.own_votes(block_refs@.take(i as int)),
            decreases block_refs@.len() - i,
        {
            proof {
                seqs::lemma_take_next(block_refs@, i as int);
            }
            let block_ref = block_refs[i];
            if block_ref.round > self.gc_round {
                match self.votes.get(&block_ref) {
                    Some(info) => {
                        if info.own_reject_txn_votes.len() > 0 {
                            let ghost before = votes@;
                            let rejects = copy_indices(&info.own_reject_txn_votes);
                            votes.push(BlockTransactionVotes { block_ref, rejects });
                            assert(votes@.map_values(as_view) =~= before.map_values(as_view).push(
                                votes@.last()@,
                            ));
                        }
                    },
                    None => {
                        assert(self@.misses(block_refs@[i as int]));
                        assert(false);
                    },
                }
            }
            i += 1;
        }
        proof {
            seqs::lemma_take_ends(block_refs@);
        }
        votes
    }

    /// Retrieves transactions in the block that have received reject votes, and
    /// the total stake of the votes. A transaction that is not in the output has
    /// no reject votes. Returns `None` if no information is found for the block.
    pub fn get_reject_votes(&self, block_ref: &BlockRef) -> (r: Option<
        Vec<(TransactionIndex, Stake)>,
    >)
        requires
            self.well_formed(),
        ensures
            match r {
                Some(votes) => {
                    &&& self@.votes.contains_key(*block_ref)
                    &&& tracker_model::reject_stakes(
                        votes@,
                        self@.dag.stakes,
                        self@.votes[*block_ref].rejects,
                    )
                },
                None => !self@.votes.contains_key(*block_ref),
            },
    {
        match self.votes.get(block_ref) {
            None => None,
            Some(info) => {
                let indices = info.reject_txn_votes.keys();
                let ghost rejects = info@.rejects;
                assert(rejects.dom() =~= info.reject_txn_votes@.dom());
                assert(info.counts(self.graph@.stakes));
                let mut votes: Vec<(TransactionIndex, Stake)> = Vec::new();
                let mut i: usize = 0;
                while i < indices.len()
                    invariant
                        i <= indices@.len(),
                        info.counts(self.graph@.stakes),
                        rejects == info@.rejects,
                        indices@ == order::sorted(rejects.dom()),
                        indices@.to_set() == rejects.dom(),
                        order::ascending(indices@),
                        votes@.len() == i,
                        forall|j: int|
                            0 <= j < i ==> {
                                &&& (#[trigger] votes@[j]).0 == indices@[j]
                                &&& votes@[j].1 as nat == committee::stake_of(
                                    self.graph@.stakes,
                                    rejects[indices@[j]],
                                )
                            },
                    decreases indices@.len() - i,
                {
                    assert(indices@.to_set().contains(indices@[i as int]));
                    match info.reject_txn_votes.get(&indices[i]) {
                        Some(aggregator) => {
                            votes.push((indices[i], aggregator.stake()));
                        },
                        None => {
                            assert(rejects.contains_key(indices@[i as int]));
                            assert(false);
                        },
                    }
                    i += 1;
                }
                Some(votes)
            },
        }
    }

    /// The decision on an object version.
    pub fn snapper_decision(&self, object: &SnapperObjectKey) -> (r: Option<SnapperObjectDecision>)
        ensures
            r == self@.snapper.decision(*object),
    {
        self.snapper_state.decision(object)
    }
}

/// Blocks in ascending order are in ascending rounds.
proof fn lemma_ascending_rounds(refs: Seq<BlockRef>, i: int, j: int)
    requires
        order::ascending(refs),
        0 <= i < j < refs.len(),
    ensures
        refs[i].round <= refs[j].round,
{
    assert(order::before(refs[i], refs[j]));
    if refs[j].round < refs[i].round {
        keys::lemma_earlier_round_first(refs[j], refs[i]);
        order::lemma_before_asymmetric(refs[i], refs[j]);
    }
}

/// A copy of some transaction indices.
fn copy_indices(indices: &Vec<TransactionIndex>) -> (r: Vec<TransactionIndex>)
    ensures
        r@ == indices@,
{
    let mut r: Vec<TransactionIndex> = Vec::new();
    let mut i: usize = 0;
    while i < indices.len()
        invariant
            i <= indices@.len(),
            r@ == indices@.take(i as int),
        decreases indices@.len() - i,
    {
        proof {
            seqs::lemma_take_next(indices@, i as int);
        }
        r.push(indices[i]);
        i += 1;
    }
    proof {
        seqs::lemma_take_ends(indices@);
    }
    r
}

/// Records the transactions of a block, then applies its declarations. A
/// declaration that its author may not make is ignored.
fn take_in(snapper: &mut SnapperState, block: &VerifiedBlock)
    ensures
        final(snapper)@ == tracker_model::after_block(old(snapper)@, block@),
{
    let transactions = block.transactions();
    assert(tracker_model::transaction_views(transactions@) =~= block@.transactions);
    record_all(snapper, transactions.as_slice());
    let author = block.author();
    let votes = block.snapper_object_stance_votes();
    let ghost start = snapper@;
    let mut i: usize = 0;
    proof {
        seqs::lemma_take_ends(votes@);
    }
    while i < votes.len()
        invariant
            i <= votes@.len(),
            snapper@ == tracker_model::after_stances(start, author, votes@.take(i as int)),
        decreases votes@.len() - i,
    {
        proof {
            seqs::lemma_take_next(votes@, i as int);
        }
        let _ = snapper.apply_stance(author, votes[i].object, votes[i].stance);
        i += 1;
    }
    proof {
        seqs::lemma_take_ends(votes@);
    }
}

/// Records the transactions one after the other.
fn record_all(snapper: &mut SnapperState, transactions: &[Transaction])
    ensures
        final(snapper)@ == dag::after_transactions(
            old(snapper)@,
            tracker_model::transaction_views(transactions@),
        ),
{
    let ghost views = tracker_model::transaction_views(transactions@);
    let mut i: usize = 0;
    proof {
        seqs::lemma_take_ends(views);
    }
    while i < transactions.len()
        invariant
            i <= transactions@.len(),
            views == tracker_model::transaction_views(transactions@),
            snapper@ == dag::after_transactions(old(snapper)@, views.take(i as int)),
        decreases transactions@.len() - i,
    {
        proof {
            seqs::lemma_take_next(views, i as int);
        }
        snapper.record(&transactions[i]);
        i += 1;
    }
    proof {
        seqs::lemma_take_ends(views);
    }
}

} // verus!
