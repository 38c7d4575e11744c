//! Snapper's predicates on the graph of blocks.
use vstd::prelude::*;

use crate::block;
use crate::committee;
use crate::keys::{AuthorityIndex, BlockRef, Round, SnapperObjectKey, SnapperTransactionId};
use crate::order;
use crate::protocol::{SnapperBottomVoteKind, SnapperObjectStance, SnapperObjectStanceVote};
use crate::recovery;
use crate::seqs;
use crate::state;

verus! {

/// The owned inputs of the transactions that the Snapper state has recorded.
pub type KnownInputs = Map<SnapperTransactionId, Seq<SnapperObjectKey>>;

/// A graph of blocks and the stakes of the committee that builds it.
pub struct DagView {
    pub stakes: Seq<u64>,
    pub blocks: Map<BlockRef, block::BlockView>,
}

/// The round before the given one; the first round is its own predecessor.
pub open spec fn previous_round(round: Round) -> int {
    if round == 0 {
        0
    } else {
        round - 1
    }
}

/// The first of the references by the given author.
pub open spec fn first_by(refs: Seq<BlockRef>, author: AuthorityIndex) -> Option<BlockRef>
    decreases refs.len(),
{
    if refs.len() == 0 {
        None
    } else if first_by(refs.drop_last(), author) is Some {
        first_by(refs.drop_last(), author)
    } else if refs.last().author == author {
        Some(refs.last())
    } else {
        None
    }
}

/// The last declared stance on an object version.
pub open spec fn last_declared(
    votes: Seq<SnapperObjectStanceVote>,
    object: SnapperObjectKey,
) -> Option<SnapperObjectStance>
    decreases votes.len(),
{
    if votes.len() == 0 {
        None
    } else if votes.last().object == object {
        Some(votes.last().stance)
    } else {
        last_declared(votes.drop_last(), object)
    }
}

/// Some declaration acknowledges a transaction on the object version.
pub open spec fn declares_ack(
    votes: Seq<SnapperObjectStanceVote>,
    object: SnapperObjectKey,
) -> bool {
    exists|i: int|
        0 <= i < votes.len() && (#[trigger] votes[i]).object == object
            && votes[i].stance is Transaction
}

/// The owned inputs of the first of the transactions with the given identifier.
pub open spec fn first_inputs(
    transactions: Seq<block::TransactionView>,
    id: SnapperTransactionId,
) -> Option<Seq<SnapperObjectKey>>
    decreases transactions.len(),
{
    if transactions.len() == 0 {
        None
    } else if first_inputs(transactions.drop_last(), id) is Some {
        first_inputs(transactions.drop_last(), id)
    } else {
        match transactions.last().metadata {
            Some(m) => if m.id == id {
                Some(m.owned_inputs)
            } else {
                None
            },
            None => None,
        }
    }
}

/// The transaction is one of Snapper's with the given identifier.
pub open spec fn is_transaction(x: block::TransactionView, id: SnapperTransactionId) -> bool {
    x.metadata is Some && x.metadata->0.id == id
}

/// The authors of some blocks.
pub open spec fn authors_of(refs: Set<BlockRef>) -> Set<AuthorityIndex> {
    Set::new(|a: AuthorityIndex| exists|r: BlockRef| #[trigger] refs.contains(r) && r.author == a)
}

/// What a Snapper state knows once some transactions are recorded.
pub open spec fn after_transactions(
    model: state::SnapperModel,
    transactions: Seq<block::TransactionView>,
) -> state::SnapperModel
    decreases transactions.len(),
{
    if transactions.len() == 0 {
        model
    } else {
        after_transactions(model, transactions.drop_last()).with_metadata(
            transactions.last().metadata,
        )
    }
}

impl DagView {
    /// Every block stands under its own reference and may stand in the graph of
    /// the committee.
    pub open spec fn valid(self) -> bool {
        forall|r: BlockRef| #[trigger]
            self.blocks.contains_key(r) ==> self.blocks[r].reference == r && self.blocks[r].valid_in(
                self.stakes,
            )
    }

    /// The set holds, with a known block, its ancestors.
    pub open spec fn holds_ancestors(self, refs: Set<BlockRef>) -> bool {
        forall|r: BlockRef, a: BlockRef|
            #![trigger refs.contains(r), self.blocks[r].ancestors.contains(a)]
            refs.contains(r) && self.blocks.contains_key(r) && self.blocks[r].ancestors.contains(a)
                ==> refs.contains(a)
    }

    /// The reflexive causal history of a block: the least set that contains it
    /// and holds ancestors. It names ancestors also where their block is unknown.
    pub open spec fn history(self, root: BlockRef) -> Set<BlockRef> {
        Set::new(
            |r: BlockRef|
                forall|s: Set<BlockRef>|
                    s.contains(root) && #[trigger] self.holds_ancestors(s) ==> s.contains(r),
        )
    }

    /// The previous block in the chain of a block's author.
    pub open spec fn own_ancestor(self, r: BlockRef) -> Option<BlockRef> {
        first_by(self.blocks[r].ancestors, self.blocks[r].reference.author)
    }

    /// The latest declaration on an object version in the chain of a block's
    /// author, up to and with the block.
    pub open spec fn stance_at(self, r: BlockRef, object: SnapperObjectKey) -> Option<
        SnapperObjectStance,
    >
        decreases r.round,
    {
        if !self.blocks.contains_key(r) {
            None
        } else if last_declared(self.blocks[r].stance_votes, object) is Some {
            last_declared(self.blocks[r].stance_votes, object)
        } else {
            match self.own_ancestor(r) {
                Some(a) => if a.round < r.round {
                    self.stance_at(a, object)
                } else {
                    None
                },
                None => None,
            }
        }
    }

    /// A declaration in the chain of a block's author, up to and with the block,
    /// acknowledged a transaction on the object version.
    pub open spec fn acked_at(self, r: BlockRef, object: SnapperObjectKey) -> bool
        decreases r.round,
    {
        self.blocks.contains_key(r) && (declares_ack(self.blocks[r].stance_votes, object) || (
        match self.own_ancestor(r) {
            Some(a) => a.round < r.round && self.acked_at(a, object),
            None => false,
        }))
    }

    /// An earlier declaration in the chain of a block's author acknowledged a
    /// transaction on the object version.
    pub open spec fn acked_before(self, r: BlockRef, object: SnapperObjectKey) -> bool {
        self.blocks.contains_key(r) && (match self.own_ancestor(r) {
            Some(a) => self.acked_at(a, object),
            None => false,
        })
    }

    /// The transactions of the known blocks among `refs`, block after block.
    pub open spec fn transactions_in(self, refs: Seq<BlockRef>) -> Seq<block::TransactionView>
        decreases refs.len(),
    {
        if refs.len() == 0 {
            Seq::empty()
        } else if self.blocks.contains_key(refs.last()) {
            self.transactions_in(refs.drop_last()) + self.blocks[refs.last()].transactions
        } else {
            self.transactions_in(refs.drop_last())
        }
    }

    /// The transaction is in the causal history of a block.
    pub open spec fn visible(self, root: BlockRef, x: block::TransactionView) -> bool {
        exists|r: BlockRef| #[trigger]
            self.history(root).contains(r) && self.blocks.contains_key(r)
                && self.blocks[r].transactions.contains(x)
    }

    /// Includes(b, tx): a transaction with the identifier is in the causal
    /// history of a block.
    pub open spec fn includes(self, root: BlockRef, id: SnapperTransactionId) -> bool {
        exists|x: block::TransactionView| #[trigger] self.visible(root, x) && is_transaction(x, id)
    }

    /// The owned inputs of a transaction: those recorded, or else those that the
    /// first known block with the transaction gives it.
    pub open spec fn owned_inputs_for(self, known: KnownInputs, id: SnapperTransactionId) -> Option<
        Seq<SnapperObjectKey>,
    > {
        if known.contains_key(id) {
            Some(known[id])
        } else {
            first_inputs(self.transactions_in(order::sorted(self.blocks.dom())), id)
        }
    }

    /// The transactions in the causal history of a block that own the object
    /// version.
    pub open spec fn visible_candidates(self, root: BlockRef, object: SnapperObjectKey) -> Set<
        SnapperTransactionId,
    > {
        Set::new(
            |id: SnapperTransactionId|
                exists|x: block::TransactionView| #[trigger]
                    self.visible(root, x) && is_transaction(x, id)
                        && x.metadata->0.owned_inputs.contains(object),
        )
    }

    /// What a Snapper state would know that had recorded the transactions in
    /// the causal history of a block, and nothing else.
    pub open spec fn known_at(self, root: BlockRef) -> state::SnapperModel {
        after_transactions(
            state::SnapperModel::initial(root.author),
            self.transactions_in(order::sorted(self.history(root))),
        )
    }

    /// RecoveryObjs(b): the object versions with conflicting transactions in
    /// the causal history of a block and, with each object, all owned inputs of
    /// its candidates there.
    pub open spec fn recovery_objects_at(self, root: BlockRef) -> Set<SnapperObjectKey> {
        let model = self.known_at(root);
        recovery::recovery_closure(
            Set::new(|o: SnapperObjectKey| model.conflicted(o)),
            model.candidates,
            model.inputs,
        )
    }

    /// `parent` is an ancestor of a known block in the round before it.
    pub open spec fn is_round_parent(self, r: BlockRef, parent: BlockRef) -> bool {
        self.blocks.contains_key(r) && self.blocks[r].ancestors.contains(parent) && parent.round
            == previous_round(r.round)
    }

    /// IsFastVoteTX(b, tx): the block includes the transaction, and its author
    /// stands for it on every owned input.
    pub open spec fn is_fast_vote(
        self,
        known: KnownInputs,
        r: BlockRef,
        id: SnapperTransactionId,
    ) -> bool {
        &&& self.includes(r, id)
        &&& self.owned_inputs_for(known, id) is Some
        &&& forall|o: SnapperObjectKey| #[trigger]
            self.owned_inputs_for(known, id)->0.contains(o) ==> self.stance_at(r, o) == Some(
                SnapperObjectStance::Transaction(id),
            )
    }

    /// The parents in the previous round that are fast votes.
    pub open spec fn fast_votes_of(
        self,
        known: KnownInputs,
        r: BlockRef,
        id: SnapperTransactionId,
    ) -> Set<BlockRef> {
        Set::new(|p: BlockRef| self.is_round_parent(r, p) && self.is_fast_vote(known, p, id))
    }

    /// IsFastCertTX(b, tx): the block is a fast vote, and so are parents by a
    /// quorum.
    pub open spec fn is_fast_cert(
        self,
        known: KnownInputs,
        r: BlockRef,
        id: SnapperTransactionId,
    ) -> bool {
        self.is_fast_vote(known, r, id) && committee::has_quorum(
            self.stakes,
            authors_of(self.fast_votes_of(known, r, id)),
        )
    }

    /// HasCertTX(b, tx): a certificate is in the causal history of the block.
    pub open spec fn has_cert(
        self,
        known: KnownInputs,
        root: BlockRef,
        id: SnapperTransactionId,
    ) -> bool {
        exists|r: BlockRef| #[trigger]
            self.history(root).contains(r) && self.is_fast_cert(known, r, id)
    }

    /// CertVisible for a block of the given round on the given parents: the
    /// parents of the previous round make a quorum of fast votes, or a parent's
    /// history has a certificate.
    pub open spec fn cert_visible(
        self,
        known: KnownInputs,
        round: Round,
        parents: Seq<BlockRef>,
        id: SnapperTransactionId,
    ) -> bool {
        ||| committee::has_quorum(
            self.stakes,
            authors_of(
                Set::new(
                    |p: BlockRef|
                        parents.contains(p) && p.round == previous_round(round)
                            && self.is_fast_vote(known, p, id),
                ),
            ),
        )
        ||| exists|p: BlockRef| #[trigger] parents.contains(p) && self.has_cert(known, p, id)
    }

    /// How a block votes against an object version in recovery: to unlock where
    /// its author acknowledged a transaction before, else to skip.
    pub open spec fn bottom_vote_kind_at(self, r: BlockRef, object: SnapperObjectKey) -> Option<
        SnapperBottomVoteKind,
    > {
        if self.stance_at(r, object) != Some(SnapperObjectStance::Bottom)
            || !self.recovery_objects_at(r).contains(object) {
            None
        } else if self.acked_before(r, object) {
            Some(SnapperBottomVoteKind::Unlock)
        } else {
            Some(SnapperBottomVoteKind::Skip)
        }
    }

    /// IsSkipCertObj(b, o): parents by a quorum vote to skip.
    pub open spec fn is_skip_cert(self, r: BlockRef, object: SnapperObjectKey) -> bool {
        committee::has_quorum(
            self.stakes,
            authors_of(
                Set::new(
                    |p: BlockRef|
                        self.is_round_parent(r, p) && self.bottom_vote_kind_at(p, object) == Some(
                            SnapperBottomVoteKind::Skip,
                        ),
                ),
            ),
        )
    }

    /// IsUnlockCertObj(b, o): parents by a quorum vote to skip or to unlock.
    pub open spec fn is_unlock_cert(self, r: BlockRef, object: SnapperObjectKey) -> bool {
        committee::has_quorum(
            self.stakes,
            authors_of(
                Set::new(
                    |p: BlockRef|
                        self.is_round_parent(r, p) && self.bottom_vote_kind_at(p, object) is Some,
                ),
            ),
        )
    }

    /// A skip or unlock certificate is in the causal history of the block.
    pub open spec fn has_opposing_cert(self, root: BlockRef, object: SnapperObjectKey) -> bool {
        exists|r: BlockRef| #[trigger]
            self.history(root).contains(r) && (self.is_skip_cert(r, object) || self.is_unlock_cert(
                r,
                object,
            ))
    }
}

/// The causal history of a block contains it, holds ancestors, and lies in every
/// set that does so.
pub proof fn history_is_least(dag: DagView, root: BlockRef)
    ensures
        dag.history(root).contains(root),
        dag.holds_ancestors(dag.history(root)),
        forall|s: Set<BlockRef>|
            s.contains(root) && #[trigger] dag.holds_ancestors(s) ==> dag.history(root).subset_of(s),
{
    let h = dag.history(root);
    assert forall|r: BlockRef, a: BlockRef|
        #![trigger h.contains(r), dag.blocks[r].ancestors.contains(a)]
        h.contains(r) && dag.blocks.contains_key(r) && dag.blocks[r].ancestors.contains(
            a,
        ) implies h.contains(a) by {
        assert forall|s: Set<BlockRef>|
            s.contains(root) && #[trigger] dag.holds_ancestors(s) implies s.contains(a) by {
            assert(s.contains(r));
        }
    }
}

/// The history of a block in a history lies in that history.
pub proof fn history_is_transitive(dag: DagView, root: BlockRef, middle: BlockRef)
    requires
        dag.history(root).contains(middle),
    ensures
        dag.history(middle).subset_of(dag.history(root)),
{
    history_is_least(dag, root);
    history_is_least(dag, middle);
}

/// The history of a block that is not known is the block alone.
pub proof fn lemma_history_of_unknown(dag: DagView, root: BlockRef)
    requires
        !dag.blocks.contains_key(root),
    ensures
        dag.history(root) =~= set![root],
{
    history_is_least(dag, root);
    let only: Set<BlockRef> = set![root];
    assert(dag.holds_ancestors(only));
}

/// Only a known block includes a transaction.
pub proof fn lemma_includes_only_known(dag: DagView, root: BlockRef, id: SnapperTransactionId)
    requires
        dag.includes(root, id),
    ensures
        dag.blocks.contains_key(root),
{
    if !dag.blocks.contains_key(root) {
        lemma_history_of_unknown(dag, root);
    }
}

/// What stands in the transactions of some blocks stands in one of them.
pub proof fn lemma_transactions_in(dag: DagView, refs: Seq<BlockRef>)
    ensures
        forall|x: block::TransactionView| #[trigger]
            dag.transactions_in(refs).contains(x) <==> exists|r: BlockRef| #[trigger]
                refs.contains(r) && dag.blocks.contains_key(r)
                    && dag.blocks[r].transactions.contains(x),
    decreases refs.len(),
{
    if refs.len() > 0 {
        let rest = refs.drop_last();
        let last = refs.last();
        lemma_transactions_in(dag, rest);
        let earlier = dag.transactions_in(rest);
        let all = dag.transactions_in(refs);
        seqs::lemma_take_next(refs, refs.len() - 1);
        seqs::lemma_take_ends(refs);
        assert(refs.take(refs.len() - 1) =~= rest);
        assert forall|x: block::TransactionView| #[trigger] all.contains(x) <==> exists|r: BlockRef|
            #[trigger]
            refs.contains(r) && dag.blocks.contains_key(r) && dag.blocks[r].transactions.contains(
                x,
            ) by {
            if dag.blocks.contains_key(last) {
                let more = dag.blocks[last].transactions;
                if all.contains(x) {
                    let i = choose|i: int| 0 <= i < all.len() && all[i] == x;
                    if i < earlier.len() {
                        assert(earlier[i] == x);
                        assert(earlier.contains(x));
                    } else {
                        assert(more[i - earlier.len()] == x);
                        assert(refs.contains(last));
                    }
                }
                if earlier.contains(x) {
                    let i = choose|i: int| 0 <= i < earlier.len() && earlier[i] == x;
                    assert(all[i] == x);
                }
                if more.contains(x) {
                    let i = choose|i: int| 0 <= i < more.len() && more[i] == x;
                    assert(all[earlier.len() + i] == x);
                }
            }
            if exists|r: BlockRef| #[trigger]
                refs.contains(r) && dag.blocks.contains_key(r)
                    && dag.blocks[r].transactions.contains(x) {
                let r = choose|r: BlockRef| #[trigger]
                    refs.contains(r) && dag.blocks.contains_key(r)
                        && dag.blocks[r].transactions.contains(x);
                assert(rest.contains(r) || r == last);
            }
        }
    }
}

} // verus!
