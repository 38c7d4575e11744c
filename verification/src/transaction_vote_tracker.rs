//! The vote tracker of an authority.
use vstd::prelude::*;

use crate::block::{BlockTransactionVotes, Transaction, VerifiedBlock};
use crate::committee::Committee;
use crate::keys::{AuthorityIndex, BlockRef, Round, SnapperObjectKey, Stake, TransactionIndex};
use crate::order;
use crate::protocol::{SnapperObjectDecision, SnapperObjectStanceVote};
use crate::tracker_model;
use crate::tracker_model::TrackerModel;
use crate::vote_tracker::VoteTrackerState;

verus! {

/// TransactionVoteTracker has the following purposes:
/// 1. Keeps track of own votes on transactions, and allows the votes to be
///    retrieved later in core after acceptance of the blocks containing the
///    transactions.
/// 2. Aggregates reject votes on transactions, and allows the aggregated votes
///    to be retrieved during post-commit finalization.
///
/// A transaction is rejected if a quorum of authorities vote to reject it. When
/// this happens, it is guaranteed that no validator can observe a certification
/// of the transaction, with <= f malicious stake.
pub struct TransactionVoteTracker {
    vote_tracker_state: VoteTrackerState,
}

impl View for TransactionVoteTracker {
    type V = TrackerModel;

    closed spec fn view(&self) -> TrackerModel {
        self.vote_tracker_state@
    }
}

impl TransactionVoteTracker {
    /// Every counted stake is that of the authorities that reject.
    pub closed spec fn well_formed(self) -> bool {
        self.vote_tracker_state.well_formed()
    }

    pub fn new(own_authority: AuthorityIndex, committee: Committee) -> (r: Self)
        ensures
            r.well_formed(),
            r@ == TrackerModel::initial(own_authority, committee@),
    {
        TransactionVoteTracker { vote_tracker_state: VoteTrackerState::new(own_authority, committee) }
    }

    /// The last round whose votes are dropped.
    pub fn gc_round(&self) -> (r: Round)
        ensures
            r == self@.gc_round,
    {
        self.vote_tracker_state.gc_round()
    }

    /// Whether the block may stand in the graph of the tracker's committee, as
    /// every block that the tracker is given must.
    pub fn admits(&self, block: &VerifiedBlock) -> (r: bool)
        ensures
            r == block@.valid_in(self@.dag.stakes),
    {
        block.is_valid_in(self.vote_tracker_state.graph().committee())
    }

    /// The scans that recover the blocks after a round: one for each authority,
    /// from the round after it. Where transactions are not voted on, nothing is
    /// recovered.
    pub fn recovery_scans(&self, after_round: Round, voting_enabled: bool) -> (r: Vec<
        (AuthorityIndex, Round),
    >)
        requires
            voting_enabled ==> after_round < Round::MAX,
        ensures
            r@.len() == (if voting_enabled {
                self@.dag.stakes.len()
            } else {
                0
            }),
            forall|i: int|
                0 <= i < r@.len() ==> (#[trigger] r@[i]).0.0 == i && r@[i].1 == after_round + 1,
    {
        let mut r: Vec<(AuthorityIndex, Round)> = Vec::new();
        if !voting_enabled {
            return r;
        }
        let size: usize = self.vote_tracker_state.graph().committee().size();
        let mut i: usize = 0;
        while i < size
            invariant
                i <= size,
                size < u32::MAX,
                after_round < Round::MAX,
                r@.len() == i,
                forall|j: int|
                    0 <= j < i ==> (#[trigger] r@[j]).0.0 == j && r@[j].1 == after_round + 1,
            decreases size - i,
        {
            r.push((AuthorityIndex(i as u32), after_round + 1));
            i += 1;
        }
        r
    }

    /// The recovered blocks that the own authority is to vote on: those above
    /// the GC round of the graph that no own block has included yet. A block
    /// proposal can include such a block later and retrieve the votes on it.
    pub fn blocks_to_vote_on(
        blocks: &[VerifiedBlock],
        dag_gc_round: Round,
        included: &[BlockRef],
    ) -> (r: Vec<bool>)
        ensures
            r@.len() == blocks@.len(),
            forall|i: int|
                0 <= i < r@.len() ==> #[trigger] r@[i] == (blocks@[i]@.reference.round > dag_gc_round
                    && !included@.contains(blocks@[i]@.reference)),
    {
        let mut r: Vec<bool> = Vec::new();
        let mut i: usize = 0;
        while i < blocks.len()
            invariant
                i <= blocks@.len(),
                r@.len() == i,
                forall|j: int|
                    0 <= j < i ==> #[trigger] r@[j] == (blocks@[j]@.reference.round > dag_gc_round
                        && !included@.contains(blocks@[j]@.reference)),
            decreases blocks@.len() - i,
        {
            let reference = blocks[i].reference();
            r.push(reference.round > dag_gc_round && !names(included, &reference));
            i += 1;
        }
        r
    }

    /// Recovers the given blocks with the own votes on those that need them.
    ///
    /// Because own votes on blocks are not stored, during recovery it is
    /// necessary to vote on blocks that can be included in a future proposed
    /// block.
    pub fn recover_and_vote_on_blocks(
        &mut self,
        blocks: &[VerifiedBlock],
        should_vote: &[bool],
        votes: &[Vec<TransactionIndex>],
    )
        requires
            old(self).well_formed(),
            should_vote@.len() == blocks@.len(),
            votes@.len() == blocks@.len(),
            forall|i: int|
                0 <= i < blocks@.len() ==> (#[trigger] blocks@[i])@.valid_in(old(self)@.dag.stakes),
        ensures
            final(self).well_formed(),
            final(self)@ == old(self)@.with_voted_blocks(
                tracker_model::recovered_views(blocks@, should_vote@, votes@),
            ),
    {
        self.vote_tracker_state.add_recovered_blocks(blocks, should_vote, votes)
    }

    /// Stores own reject votes on input blocks, and aggregates reject votes from
    /// the input blocks.
    pub fn add_voted_blocks(&mut self, voted_blocks: Vec<(VerifiedBlock, Vec<TransactionIndex>)>)
        requires
            old(self).well_formed(),
            forall|i: int|
                0 <= i < voted_blocks@.len() ==> (#[trigger] voted_blocks@[i]).0@.valid_in(
                    old(self)@.dag.stakes,
                ),
        ensures
            final(self).well_formed(),
            final(self)@ == old(self)@.with_voted_blocks(tracker_model::voted_views(voted_blocks@)),
    {
        self.vote_tracker_state.add_voted_blocks(voted_blocks)
    }

    /// The first of the blocks above the GC round that is not known: the own
    /// votes cannot be retrieved while there is one.
    pub fn first_unknown(&self, block_refs: &[BlockRef]) -> (r: Option<BlockRef>)
        ensures
            match r {
                Some(b) => exists|i: int|
                    0 <= i < block_refs@.len() && #[trigger] block_refs@[i] == b && self@.misses(b)
                        && forall|j: int| 0 <= j < i ==> !self@.misses(#[trigger] block_refs@[j]),
                None => forall|i: int|
                    0 <= i < block_refs@.len() ==> !self@.misses(#[trigger] block_refs@[i]),
            },
    {
        self.vote_tracker_state.first_unknown(block_refs)
    }

    /// Retrieves own votes on peer block transactions.
    pub fn get_own_votes(&self, block_refs: Vec<BlockRef>) -> (r: Vec<BlockTransactionVotes>)
        requires
            forall|i: int|
                0 <= i < block_refs@.len() ==> !self@.misses(#[trigger] block_refs@[i]),
        ensures
            r@.map_values(|v: BlockTransactionVotes| v@) == self@.own_votes(block_refs@),
    {
        self.vote_tracker_state.get_own_votes(block_refs.as_slice())
    }

    /// Processes the newly linked causal history for Snapper and returns local
    /// stance changes to include in the next proposed block.
    pub fn get_snapper_stance_votes(
        &mut self,
        proposal_round: Round,
        proposal_parents: &[BlockRef],
        block_refs: &[BlockRef],
        current_transactions: &[Transaction],
    ) -> (r: Vec<SnapperObjectStanceVote>)
        requires
            old(self).well_formed(),
        ensures
            final(self).well_formed(),
            ({
                let before = old(self)@.before_casting(
                    proposal_parents@,
                    block_refs@,
                    tracker_model::transaction_views(current_transactions@),
                );
                let after = before.dag.cast_votes(
                    before.snapper,
                    proposal_round,
                    proposal_parents@,
                );
                &&& final(self)@ == (TrackerModel { snapper: after.snapper, ..before })
                &&& r@ == after.changes
            }),
    {
        self.vote_tracker_state.get_snapper_stance_votes(
            proposal_round,
            proposal_parents,
            block_refs,
            current_transactions,
        )
    }

    /// Applies the Snapper committed-anchor rule to a committed leader.
    /// Transaction certificates have priority over skip/unlock certificates.
    pub fn resolve_snapper_committed_anchor(
        &mut self,
        anchor: BlockRef,
        committed_blocks: &[VerifiedBlock],
    ) -> (r: Vec<(SnapperObjectKey, SnapperObjectDecision)>)
        requires
            old(self).well_formed(),
            forall|i: int|
                0 <= i < committed_blocks@.len() ==> (#[trigger] committed_blocks@[i])@.valid_in(
                    old(self)@.dag.stakes,
                ),
        ensures
            final(self).well_formed(),
            ({
                let before = old(self)@.before_anchor(anchor, committed_blocks@);
                let after = before.dag.resolve_anchor(before.snapper, anchor);
                &&& final(self)@ == (TrackerModel { snapper: after.snapper, ..before })
                &&& r@ == after.changed
            }),
    {
        self.vote_tracker_state.resolve_snapper_committed_anchor(anchor, committed_blocks)
    }

    /// The decision on an object version.
    pub fn snapper_decision(&self, object: &SnapperObjectKey) -> (r: Option<SnapperObjectDecision>)
        ensures
            r == self@.snapper.decision(*object),
    {
        self.vote_tracker_state.snapper_decision(object)
    }

    /// Retrieves transactions in the block that have received reject votes, and
    /// the total stake of the votes. A transaction that is not in the output has
    /// no reject votes. Returns `None` if no information is found for the block.
    pub fn get_reject_votes(&self, block_ref: &BlockRef) -> (r: Option<
        Vec<(TransactionIndex, Stake)>,
    >)
        requires
            self.well_formed(),
        ensures
            match r {
                Some(votes) => {
                    &&& self@.votes.contains_key(*block_ref)
                    &&& tracker_model::reject_stakes(
                        votes@,
                        self@.dag.stakes,
                        self@.votes[*block_ref].rejects,
                    )
                },
                None => !self@.votes.contains_key(*block_ref),
            },
    {
        self.vote_tracker_state.get_reject_votes(block_ref)
    }

    /// Runs garbage collection on the internal state by removing data for blocks
    /// <= gc_round, and updates the GC round for the vote tracker.
    ///
    /// IMPORTANT: the GC round used here can trail the latest GC round of the
    /// graph, but not pass it. Reject votes received by transactions below the
    /// GC round of the graph may still need to be accessed.
    pub fn run_gc(&mut self, gc_round: Round, dag_gc_round: Round)
        requires
            old(self).well_formed(),
            gc_round <= dag_gc_round,
        ensures
            final(self).well_formed(),
            final(self)@ == old(self)@.with_gc_round(gc_round),
    {
        self.vote_tracker_state.update_gc_round(gc_round)
    }
}

/// Whether a block is among some references.
fn names(refs: &[BlockRef], reference: &BlockRef) -> (r: bool)
    ensures
        r == refs@.contains(*reference),
{
    let mut i: usize = 0;
    while i < refs.len()
        invariant
            i <= refs@.len(),
            forall|j: int| 0 <= j < i ==> #[trigger] refs@[j] != *reference,
        decreases refs@.len() - i,
    {
        if order::same(&refs[i], reference) {
            return true;
        }
        i += 1;
    }
    false
}

} // verus!
