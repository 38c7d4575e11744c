//! What the vote tracker knows, and how it changes.
use vstd::prelude::*;

use crate::block;
use crate::block::{Transaction, VerifiedBlock};
use crate::committee;
use crate::dag;
use crate::dag::DagView;
use crate::keys::{AuthorityIndex, BlockRef, Round, Stake, TransactionIndex};
use crate::order;
use crate::protocol::SnapperObjectStanceVote;
use crate::state::SnapperModel;

verus! {

/// What is known of the votes on the transactions of one block.
#[verifier::ext_equal]
pub struct VoteInfoView {
    /// The block, once it is received.
    pub block: Option<block::BlockView>,
    /// The transactions that the own authority rejects.
    pub own_rejects: Seq<TransactionIndex>,
    /// The authorities that reject a transaction.
    pub rejects: Map<TransactionIndex, Set<AuthorityIndex>>,
}

/// What the vote tracker knows.
#[verifier::ext_equal]
pub struct TrackerModel {
    /// The blocks that Snapper reads, and the stakes of the committee.
    pub dag: DagView,
    /// The votes on the blocks that were received or voted on.
    pub votes: Map<BlockRef, VoteInfoView>,
    /// The last round whose votes are dropped.
    pub gc_round: Round,
    /// The state of the unlocking layer.
    pub snapper: SnapperModel,
    /// The blocks that the state of the unlocking layer has taken in.
    pub processed: Set<BlockRef>,
}

/// Nothing is known of the votes on a block.
pub open spec fn no_votes() -> VoteInfoView {
    VoteInfoView { block: None, own_rejects: Seq::empty(), rejects: Map::empty() }
}

/// The state once an authority has declared some stances, one after the other.
pub open spec fn after_stances(
    snapper: SnapperModel,
    author: AuthorityIndex,
    votes: Seq<SnapperObjectStanceVote>,
) -> SnapperModel
    decreases votes.len(),
{
    if votes.len() == 0 {
        snapper
    } else {
        after_stances(snapper, author, votes.drop_last()).with_stance(
            author,
            votes.last().object,
            votes.last().stance,
        )
    }
}

/// The state once a block is taken in: its transactions, then its declarations.
pub open spec fn after_block(snapper: SnapperModel, b: block::BlockView) -> SnapperModel {
    after_stances(
        dag::after_transactions(snapper, b.transactions),
        b.reference.author,
        b.stance_votes,
    )
}

/// The authorities that reject, once an authority rejects some transactions.
pub open spec fn with_rejects(
    rejects: Map<TransactionIndex, Set<AuthorityIndex>>,
    author: AuthorityIndex,
    indices: Seq<TransactionIndex>,
) -> Map<TransactionIndex, Set<AuthorityIndex>> {
    Map::new(
        |i: TransactionIndex| rejects.contains_key(i) || indices.contains(i),
        |i: TransactionIndex|
            if !indices.contains(i) {
                rejects[i]
            } else if rejects.contains_key(i) {
                rejects[i].insert(author)
            } else {
                set![author]
            },
    )
}

/// The blocks of a graph once a block is added, unless one with its reference
/// is known.
pub open spec fn with_block(dag: DagView, b: block::BlockView) -> DagView {
    DagView {
        blocks: if dag.blocks.contains_key(b.reference) {
            dag.blocks
        } else {
            dag.blocks.insert(b.reference, b)
        },
        ..dag
    }
}

/// The graph once some blocks are added.
pub open spec fn with_blocks(dag: DagView, blocks: Seq<VerifiedBlock>) -> DagView
    decreases blocks.len(),
{
    if blocks.len() == 0 {
        dag
    } else {
        with_block(with_blocks(dag, blocks.drop_last()), blocks.last()@)
    }
}

/// The blocks and all that lies in the histories of the parents.
pub open spec fn linked(dag: DagView, parents: Seq<BlockRef>, refs: Seq<BlockRef>) -> Set<BlockRef> {
    Set::new(
        |r: BlockRef|
            refs.contains(r) || exists|p: BlockRef| #[trigger]
                parents.contains(p) && dag.history(p).contains(r),
    )
}

/// The contents of some blocks and of the own votes on each.
pub open spec fn voted_views(voted: Seq<(VerifiedBlock, Vec<TransactionIndex>)>) -> Seq<
    (block::BlockView, Seq<TransactionIndex>),
> {
    voted.map_values(|v: (VerifiedBlock, Vec<TransactionIndex>)| (v.0@, v.1@))
}

/// Recovered blocks with the own votes on each. A block that needs no vote gets
/// none.
pub open spec fn recovered_views(
    blocks: Seq<VerifiedBlock>,
    should_vote: Seq<bool>,
    votes: Seq<Vec<TransactionIndex>>,
) -> Seq<(block::BlockView, Seq<TransactionIndex>)> {
    Seq::new(
        blocks.len(),
        |i: int|
            (
                blocks[i]@,
                if should_vote[i] {
                    votes[i]@
                } else {
                    Seq::empty()
                },
            ),
    )
}

/// The contents of some transactions.
pub open spec fn transaction_views(transactions: Seq<Transaction>) -> Seq<block::TransactionView> {
    transactions.map_values(|t: Transaction| t@)
}

impl TrackerModel {
    /// The tracker of an authority that has seen nothing.
    pub open spec fn initial(own: AuthorityIndex, stakes: Seq<u64>) -> Self {
        TrackerModel {
            dag: DagView { stakes, blocks: Map::empty() },
            votes: Map::empty(),
            gc_round: 0,
            snapper: SnapperModel::initial(own),
            processed: Set::empty(),
        }
    }

    /// The votes on a block.
    pub open spec fn votes_on(self, r: BlockRef) -> VoteInfoView {
        if self.votes.contains_key(r) {
            self.votes[r]
        } else {
            no_votes()
        }
    }

    /// The block is not dropped, and nothing is known of the votes on it.
    pub open spec fn misses(self, r: BlockRef) -> bool {
        r.round > self.gc_round && !self.votes.contains_key(r)
    }

    /// Once the state of the unlocking layer has taken in the known ones of the
    /// blocks that it had not taken in before, in the order given.
    pub open spec fn with_processed(self, refs: Seq<BlockRef>) -> Self
        decreases refs.len(),
    {
        if refs.len() == 0 {
            self
        } else {
            let before = self.with_processed(refs.drop_last());
            let r = refs.last();
            if before.processed.contains(r) || !self.dag.blocks.contains_key(r) {
                before
            } else {
                TrackerModel {
                    snapper: after_block(before.snapper, self.dag.blocks[r]),
                    processed: before.processed.insert(r),
                    ..before
                }
            }
        }
    }

    /// Once the rejects by an authority of transactions of one block are
    /// counted; those of a block that is dropped are not.
    pub open spec fn with_reject_votes(
        self,
        author: AuthorityIndex,
        votes: block::TransactionVotesView,
    ) -> Self {
        if votes.block_ref.round <= self.gc_round {
            self
        } else {
            TrackerModel {
                votes: self.votes.insert(
                    votes.block_ref,
                    VoteInfoView {
                        rejects: with_rejects(
                            self.votes_on(votes.block_ref).rejects,
                            author,
                            votes.rejects,
                        ),
                        ..self.votes_on(votes.block_ref)
                    },
                ),
                ..self
            }
        }
    }

    pub open spec fn with_all_reject_votes(
        self,
        author: AuthorityIndex,
        votes: Seq<block::TransactionVotesView>,
    ) -> Self
        decreases votes.len(),
    {
        if votes.len() == 0 {
            self
        } else {
            self.with_all_reject_votes(author, votes.drop_last()).with_reject_votes(
                author,
                votes.last(),
            )
        }
    }

    /// Once a block is received for the first time, before its votes are
    /// counted.
    pub open spec fn with_received(
        self,
        b: block::BlockView,
        own_rejects: Seq<TransactionIndex>,
    ) -> Self {
        TrackerModel {
            votes: self.votes.insert(
                b.reference,
                VoteInfoView {
                    block: Some(b),
                    own_rejects,
                    rejects: self.votes_on(b.reference).rejects,
                },
            ),
            ..self
        }
    }

    /// Once a block and the own votes on it are added. A block of a dropped
    /// round is ignored, and so are the votes in a block that was received
    /// before.
    pub open spec fn with_voted_block(
        self,
        b: block::BlockView,
        own_rejects: Seq<TransactionIndex>,
    ) -> Self {
        if b.reference.round <= self.gc_round {
            self
        } else {
            let seen = TrackerModel { dag: with_block(self.dag, b), ..self };
            if self.votes_on(b.reference).block is Some {
                seen
            } else {
                seen.with_received(b, own_rejects).with_all_reject_votes(
                    b.reference.author,
                    b.transaction_votes,
                )
            }
        }
    }

    pub open spec fn with_voted_blocks(
        self,
        voted: Seq<(block::BlockView, Seq<TransactionIndex>)>,
    ) -> Self
        decreases voted.len(),
    {
        if voted.len() == 0 {
            self
        } else {
            self.with_voted_blocks(voted.drop_last()).with_voted_block(
                voted.last().0,
                voted.last().1,
            )
        }
    }

    /// Once the votes up to a round are dropped. The blocks stay.
    pub open spec fn with_gc_round(self, gc_round: Round) -> Self {
        TrackerModel {
            gc_round,
            votes: self.votes.restrict(
                Set::new(|r: BlockRef| self.votes.contains_key(r) && r.round > gc_round),
            ),
            processed: self.processed.filter(|r: BlockRef| r.round > gc_round),
            ..self
        }
    }

    /// The own votes on some blocks: of each block that is not dropped, the
    /// transactions that the own authority rejects, where there are any.
    pub open spec fn own_votes(self, refs: Seq<BlockRef>) -> Seq<block::TransactionVotesView>
        decreases refs.len(),
    {
        if refs.len() == 0 {
            Seq::empty()
        } else {
            let earlier = self.own_votes(refs.drop_last());
            let r = refs.last();
            if r.round <= self.gc_round || self.votes_on(r).own_rejects.len() == 0 {
                earlier
            } else {
                earlier.push(
                    block::TransactionVotesView {
                        block_ref: r,
                        rejects: self.votes_on(r).own_rejects,
                    },
                )
            }
        }
    }

    /// Before the votes of a proposed block are cast: what is newly linked is
    /// taken in, the block's own transactions are recorded, and the fast path
    /// decides.
    pub open spec fn before_casting(
        self,
        parents: Seq<BlockRef>,
        refs: Seq<BlockRef>,
        transactions: Seq<block::TransactionView>,
    ) -> Self {
        let taken_in = self.with_processed(order::sorted(linked(self.dag, parents, refs)));
        TrackerModel {
            snapper: self.dag.fast_decisions(
                dag::after_transactions(taken_in.snapper, transactions),
            ).snapper,
            ..taken_in
        }
    }

    /// Before a committed anchor decides: its blocks are known, and its history
    /// is taken in.
    pub open spec fn before_anchor(self, anchor: BlockRef, blocks: Seq<VerifiedBlock>) -> Self {
        let seen = TrackerModel { dag: with_blocks(self.dag, blocks), ..self };
        seen.with_processed(order::sorted(seen.dag.history(anchor)))
    }
}

/// The rejected transactions in ascending order, each with the stake of the
/// authorities that reject it.
pub open spec fn reject_stakes(
    votes: Seq<(TransactionIndex, Stake)>,
    stakes: Seq<u64>,
    rejects: Map<TransactionIndex, Set<AuthorityIndex>>,
) -> bool {
    let indices = order::sorted(rejects.dom());
    &&& indices.to_set() == rejects.dom()
    &&& order::ascending(indices)
    &&& votes.len() == indices.len()
    &&& forall|i: int|
        0 <= i < votes.len() ==> {
            &&& (#[trigger] votes[i]).0 == indices[i]
            &&& votes[i].1 as nat == committee::stake_of(stakes, rejects[indices[i]])
        }
}

/// Taking in blocks changes neither the graph nor the votes.
pub proof fn lemma_processing_keeps_graph(m: TrackerModel, refs: Seq<BlockRef>)
    ensures
        m.with_processed(refs).dag == m.dag,
        m.with_processed(refs).votes == m.votes,
        m.with_processed(refs).gc_round == m.gc_round,
    decreases refs.len(),
{
    if refs.len() > 0 {
        lemma_processing_keeps_graph(m, refs.drop_last());
    }
}

} // verus!
