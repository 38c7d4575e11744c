//! How Snapper decides: the fast path, the votes of a proposed block and the
//! committed anchor, as functions of the block graph and the state.
use vstd::prelude::*;

use crate::committee;
use crate::dag;
use crate::dag::DagView;
use crate::keys::{BlockRef, Round, SnapperObjectKey, SnapperTransactionId};
use crate::order;
use crate::protocol::{SnapperObjectDecision, SnapperObjectStance, SnapperObjectStanceVote};
use crate::state::SnapperModel;

verus! {

/// A state and the decisions that led to it.
#[verifier::ext_equal]
pub struct Resolution {
    pub snapper: SnapperModel,
    pub changed: Seq<(SnapperObjectKey, SnapperObjectDecision)>,
}

impl Resolution {
    /// Nothing has been decided yet.
    pub open spec fn start(snapper: SnapperModel) -> Self {
        Resolution { snapper, changed: Seq::empty() }
    }

    /// Once the transaction is committed, where it can be.
    pub open spec fn commit(self, transaction: SnapperTransactionId) -> Self {
        Resolution {
            snapper: self.snapper.with_commit(transaction),
            changed: self.changed + self.snapper.commit_changes(transaction),
        }
    }

    /// Once the object version is released, where it is unresolved.
    pub open spec fn release(self, object: SnapperObjectKey) -> Self {
        Resolution {
            snapper: self.snapper.with_release(object),
            changed: self.changed + self.snapper.release_changes(object),
        }
    }

    pub open spec fn commit_all(self, transactions: Seq<SnapperTransactionId>) -> Self
        decreases transactions.len(),
    {
        if transactions.len() == 0 {
            self
        } else {
            self.commit_all(transactions.drop_last()).commit(transactions.last())
        }
    }

    pub open spec fn release_all(self, objects: Seq<SnapperObjectKey>) -> Self
        decreases objects.len(),
    {
        if objects.len() == 0 {
            self
        } else {
            self.release_all(objects.drop_last()).release(objects.last())
        }
    }
}

/// A state and the stances that were declared on the way to it.
#[verifier::ext_equal]
pub struct Casting {
    pub snapper: SnapperModel,
    pub changes: Seq<SnapperObjectStanceVote>,
}

impl Casting {
    /// Nothing has been declared yet.
    pub open spec fn start(snapper: SnapperModel) -> Self {
        Casting { snapper, changes: Seq::empty() }
    }

    /// Once the own authority has declared a stance.
    pub open spec fn declare(self, object: SnapperObjectKey, stance: SnapperObjectStance) -> Self {
        Casting {
            snapper: self.snapper.with_stance(self.snapper.own, object, stance),
            changes: self.changes.push(SnapperObjectStanceVote { object, stance }),
        }
    }

    /// An uncontested transaction is acknowledged: the only candidate for an
    /// unresolved object version outside recovery on which no stance was taken.
    pub open spec fn acknowledges(
        self,
        recovery: Set<SnapperObjectKey>,
        object: SnapperObjectKey,
    ) -> bool {
        &&& !self.snapper.resolved(object)
        &&& !recovery.contains(object)
        &&& self.snapper.candidates_of(object).len() == 1
        &&& self.snapper.own_stance(object) is None
    }

    pub open spec fn acknowledge(
        self,
        recovery: Set<SnapperObjectKey>,
        object: SnapperObjectKey,
    ) -> Self {
        if self.acknowledges(recovery, object) {
            self.declare(
                object,
                SnapperObjectStance::Transaction(
                    order::sorted(self.snapper.candidates_of(object))[0],
                ),
            )
        } else {
            self
        }
    }

    pub open spec fn acknowledge_all(
        self,
        recovery: Set<SnapperObjectKey>,
        objects: Seq<SnapperObjectKey>,
    ) -> Self
        decreases objects.len(),
    {
        if objects.len() == 0 {
            self
        } else {
            self.acknowledge_all(recovery, objects.drop_last()).acknowledge(
                recovery,
                objects.last(),
            )
        }
    }
}

/// The own authority no longer stands for the transaction on all its inputs.
pub open spec fn sibling_abandoned(snapper: SnapperModel, id: SnapperTransactionId) -> bool {
    !snapper.inputs.contains_key(id) || exists|o: SnapperObjectKey| #[trigger]
        snapper.inputs[id].contains(o) && snapper.own_stance(o) != Some(
            SnapperObjectStance::Transaction(id),
        )
}

impl DagView {
    /// The rounds after the first in which a block is known.
    pub open spec fn rounds(self) -> Set<Round> {
        Set::new(
            |n: Round|
                n > 0 && exists|r: BlockRef| #[trigger] self.blocks.contains_key(r) && r.round == n,
        )
    }

    /// Certificates for the transaction in one round are by a quorum.
    pub open spec fn commit_certified(
        self,
        known: dag::KnownInputs,
        round: Round,
        id: SnapperTransactionId,
    ) -> bool {
        committee::has_quorum(
            self.stakes,
            dag::authors_of(
                Set::new(
                    |r: BlockRef|
                        self.blocks.contains_key(r) && r.round == round && self.is_fast_cert(
                            known,
                            r,
                            id,
                        ),
                ),
            ),
        )
    }

    /// Skip certificates for the object version in one round are by a quorum.
    pub open spec fn skip_certified(self, round: Round, object: SnapperObjectKey) -> bool {
        committee::has_quorum(
            self.stakes,
            dag::authors_of(
                Set::new(
                    |r: BlockRef|
                        self.blocks.contains_key(r) && r.round == round && self.is_skip_cert(
                            r,
                            object,
                        ),
                ),
            ),
        )
    }

    /// The transactions that a round commits, in ascending order. Mixed ones are
    /// left to a committed anchor.
    pub open spec fn fast_commits(self, snapper: SnapperModel, round: Round) -> Seq<
        SnapperTransactionId,
    > {
        order::sorted(snapper.inputs.dom()).filter(
            |t: SnapperTransactionId|
                snapper.may_go_fast(t) && self.commit_certified(snapper.inputs, round, t),
        )
    }

    /// The object versions that a round releases, in ascending order.
    pub open spec fn fast_releases(self, snapper: SnapperModel, round: Round) -> Seq<
        SnapperObjectKey,
    > {
        order::sorted(snapper.candidates.dom()).filter(
            |o: SnapperObjectKey| !snapper.resolved(o) && self.skip_certified(round, o),
        )
    }

    /// What the blocks of one round decide: first the commits, then the
    /// releases.
    pub open spec fn decide_round(self, before: Resolution, round: Round) -> Resolution {
        let committed = before.commit_all(self.fast_commits(before.snapper, round));
        committed.release_all(self.fast_releases(committed.snapper, round))
    }

    pub open spec fn decide_rounds(self, before: Resolution, rounds: Seq<Round>) -> Resolution
        decreases rounds.len(),
    {
        if rounds.len() == 0 {
            before
        } else {
            self.decide_round(self.decide_rounds(before, rounds.drop_last()), rounds.last())
        }
    }

    /// TryFastDecideTX and TrySkipDecideObj, round by round.
    pub open spec fn fast_decisions(self, snapper: SnapperModel) -> Resolution {
        self.decide_rounds(Resolution::start(snapper), order::sorted(self.rounds()))
    }

    /// An unresolved object version in recovery is to be left to Bottom by a
    /// block of the given round on the given parents: no stance was taken on it,
    /// or the transaction that the own authority stands for is dead, abandoned
    /// on a sibling, or without a visible certificate.
    pub open spec fn abandons(
        self,
        snapper: SnapperModel,
        round: Round,
        parents: Seq<BlockRef>,
        object: SnapperObjectKey,
    ) -> bool {
        !snapper.resolved(object) && (match snapper.own_stance(object) {
            None => true,
            Some(SnapperObjectStance::Bottom) => false,
            Some(SnapperObjectStance::Transaction(t)) => {
                ||| snapper.dead(t)
                ||| sibling_abandoned(snapper, t)
                ||| !self.cert_visible(snapper.inputs, round, parents, t)
            },
        })
    }

    pub open spec fn abandon_all(
        self,
        before: Casting,
        round: Round,
        parents: Seq<BlockRef>,
        objects: Seq<SnapperObjectKey>,
    ) -> Casting
        decreases objects.len(),
    {
        if objects.len() == 0 {
            before
        } else {
            let earlier = self.abandon_all(before, round, parents, objects.drop_last());
            if self.abandons(earlier.snapper, round, parents, objects.last()) {
                earlier.declare(objects.last(), SnapperObjectStance::Bottom)
            } else {
                earlier
            }
        }
    }

    /// CastVotes for a block of the given round on the given parents: first the
    /// object versions in recovery, then the uncontested acknowledgements.
    pub open spec fn cast_votes(
        self,
        snapper: SnapperModel,
        round: Round,
        parents: Seq<BlockRef>,
    ) -> Casting {
        let recovery = snapper.recovery();
        let abandoned = self.abandon_all(
            Casting::start(snapper),
            round,
            parents,
            order::sorted(recovery),
        );
        abandoned.acknowledge_all(recovery, order::sorted(abandoned.snapper.candidates.dom()))
    }

    /// FinalizeOnCommitTX: the committed anchor finalizes the transaction, which
    /// can be committed, has a certificate in the anchor's history and no input
    /// in recovery there.
    pub open spec fn finalizes(
        self,
        snapper: SnapperModel,
        anchor: BlockRef,
        id: SnapperTransactionId,
    ) -> bool {
        &&& snapper.can_commit(id)
        &&& self.includes(anchor, id)
        &&& self.has_cert(snapper.inputs, anchor, id)
        &&& forall|o: SnapperObjectKey|
            snapper.inputs[id].contains(o) ==> !#[trigger] self.recovery_objects_at(anchor).contains(
                o,
            )
    }

    pub open spec fn finalize_all(
        self,
        before: Resolution,
        anchor: BlockRef,
        transactions: Seq<SnapperTransactionId>,
    ) -> Resolution
        decreases transactions.len(),
    {
        if transactions.len() == 0 {
            before
        } else {
            let earlier = self.finalize_all(before, anchor, transactions.drop_last());
            if self.finalizes(earlier.snapper, anchor, transactions.last()) {
                earlier.commit(transactions.last())
            } else {
                earlier
            }
        }
    }

    /// The candidates in the anchor's history that can be committed and have a
    /// certificate there, in ascending order.
    pub open spec fn certified_at(
        self,
        snapper: SnapperModel,
        anchor: BlockRef,
        object: SnapperObjectKey,
    ) -> Seq<SnapperTransactionId> {
        order::sorted(self.visible_candidates(anchor, object)).filter(
            |t: SnapperTransactionId|
                snapper.can_commit(t) && self.has_cert(snapper.inputs, anchor, t),
        )
    }

    /// ResolveOnCommitObj: an unresolved object version goes to its certified
    /// candidate; only where there is none can a skip or unlock certificate
    /// release it.
    pub open spec fn resolve_object(
        self,
        before: Resolution,
        anchor: BlockRef,
        object: SnapperObjectKey,
    ) -> Resolution {
        let certified = self.certified_at(before.snapper, anchor, object);
        if before.snapper.resolved(object) {
            before
        } else if certified.len() > 0 {
            before.commit(certified[0])
        } else if self.has_opposing_cert(anchor, object) {
            before.release(object)
        } else {
            before
        }
    }

    pub open spec fn resolve_all(
        self,
        before: Resolution,
        anchor: BlockRef,
        objects: Seq<SnapperObjectKey>,
    ) -> Resolution
        decreases objects.len(),
    {
        if objects.len() == 0 {
            before
        } else {
            self.resolve_object(
                self.resolve_all(before, anchor, objects.drop_last()),
                anchor,
                objects.last(),
            )
        }
    }

    /// What a committed anchor decides: the fast path, then certified
    /// transactions outside recovery, then the object versions in recovery.
    pub open spec fn resolve_anchor(self, snapper: SnapperModel, anchor: BlockRef) -> Resolution {
        let fast = self.fast_decisions(snapper);
        let finalized = self.finalize_all(
            fast,
            anchor,
            order::sorted(fast.snapper.inputs.dom()),
        );
        self.resolve_all(finalized, anchor, order::sorted(self.recovery_objects_at(anchor)))
    }
}

} // verus!
