//! Laws of the Snapper state.
use vstd::prelude::*;

use crate::block;
use crate::envelope;
use crate::keys::{AuthorityIndex, SnapperObjectKey, SnapperTransactionId};
use crate::protocol::{SnapperBottomVoteKind, SnapperObjectDecision, SnapperObjectStance};
use crate::recovery;
use crate::seqs;
use crate::state;
use crate::state::SnapperModel;

verus! {

impl SnapperModel {
    /// `later` is a state that this one can become: nothing that was learnt is
    /// forgotten, decisions stay, stances move only as honest validators may
    /// move, and no authority that declared Bottom is newly counted as having
    /// acknowledged before.
    pub open spec fn evolves_to(self, later: Self) -> bool {
        &&& later.own == self.own
        &&& forall|o: SnapperObjectKey, t: SnapperTransactionId|
            #![trigger self.candidates_of(o).contains(t)]
            #![trigger later.candidates_of(o).contains(t)]
            self.candidates_of(o).contains(t) ==> later.candidates_of(o).contains(t)
        &&& forall|t: SnapperTransactionId|
            #![trigger self.inputs.contains_key(t)]
            #![trigger later.inputs.contains_key(t)]
            self.inputs.contains_key(t) ==> later.inputs.contains_key(t) && later.inputs[t]
                == self.inputs[t] && later.mixed.contains(t) == self.mixed.contains(t)
        &&& forall|o: SnapperObjectKey|
            #![trigger self.decisions.contains_key(o)]
            #![trigger later.decisions.contains_key(o)]
            self.decisions.contains_key(o) ==> later.decisions.contains_key(o)
                && later.decisions[o] == self.decisions[o]
        &&& forall|o: SnapperObjectKey, a: AuthorityIndex|
            #![trigger self.acked.contains((o, a))]
            #![trigger later.acked.contains((o, a))]
            self.acked.contains((o, a)) ==> later.acked.contains((o, a))
        &&& forall|o: SnapperObjectKey, a: AuthorityIndex|
            #![trigger self.stance(a, o)]
            #![trigger later.stance(a, o)]
            self.stance(a, o) is Some ==> later.stance(a, o) == self.stance(a, o) || later.stance(
                a,
                o,
            ) == Some(SnapperObjectStance::Bottom)
        &&& forall|o: SnapperObjectKey, a: AuthorityIndex|
            #![trigger self.stance(a, o)]
            #![trigger later.stance(a, o)]
            self.stance(a, o) == Some(SnapperObjectStance::Bottom) ==> self.acked.contains((o, a))
                == later.acked.contains((o, a))
    }

    /// Every state that is reached from the initial one is consistent: whoever
    /// stands for a transaction has acknowledged one, and the transaction is a
    /// candidate; a recorded transaction is a candidate for each owned input;
    /// a committed transaction is recorded and committed on exactly its owned
    /// inputs; only recorded transactions are mixed.
    pub open spec fn consistent(self) -> bool {
        &&& forall|o: SnapperObjectKey, a: AuthorityIndex|
            #![trigger self.stance(a, o)]
            self.stance(a, o) matches Some(SnapperObjectStance::Transaction(t))
                ==> self.acked.contains((o, a)) && self.candidates_of(o).contains(t)
        &&& forall|t: SnapperTransactionId, o: SnapperObjectKey|
            #![trigger self.inputs[t].contains(o)]
            self.inputs.contains_key(t) && self.inputs[t].contains(o) ==> self.candidates_of(
                o,
            ).contains(t)
        &&& forall|o: SnapperObjectKey|
            #![trigger self.decisions[o]]
            self.decision(o) matches Some(SnapperObjectDecision::Commit(t))
                ==> self.inputs.contains_key(t) && self.inputs[t].contains(o)
                && self.committed_everywhere(t)
        &&& forall|t: SnapperTransactionId| #[trigger]
            self.mixed.contains(t) ==> self.inputs.contains_key(t)
    }

    /// Every owned input of the transaction is committed to it.
    pub open spec fn committed_everywhere(self, transaction: SnapperTransactionId) -> bool {
        forall|o: SnapperObjectKey| #[trigger]
            self.inputs[transaction].contains(o) ==> self.decision(o) == Some(
                SnapperObjectDecision::Commit(transaction),
            )
    }
}

/// A state evolves to itself.
pub proof fn evolution_is_reflexive(m: SnapperModel)
    ensures
        m.evolves_to(m),
{
}

/// What a later state evolves to, the earlier one evolves to.
pub proof fn evolution_is_transitive(a: SnapperModel, b: SnapperModel, c: SnapperModel)
    requires
        a.evolves_to(b),
        b.evolves_to(c),
    ensures
        a.evolves_to(c),
{
}

/// Recording a transaction forgets nothing and keeps the state consistent.
pub proof fn recording_a_transaction_evolves(
    m: SnapperModel,
    transaction: SnapperTransactionId,
    owned_inputs: Seq<SnapperObjectKey>,
    mixed: bool,
)
    ensures
        m.evolves_to(m.with_transaction(transaction, owned_inputs, mixed)),
        m.consistent() ==> m.with_transaction(transaction, owned_inputs, mixed).consistent(),
{
    let n = m.with_transaction(transaction, owned_inputs, mixed);
    assert forall|o: SnapperObjectKey, a: AuthorityIndex| n.stance(a, o) == m.stance(a, o) by {}
    assert forall|o: SnapperObjectKey, t: SnapperTransactionId|
        m.candidates_of(o).contains(t) implies n.candidates_of(o).contains(t) by {}
    if m.consistent() {
        assert forall|o: SnapperObjectKey, a: AuthorityIndex|
            #![trigger n.stance(a, o)]
            n.stance(a, o) matches Some(SnapperObjectStance::Transaction(t))
                ==> n.acked.contains((o, a)) && n.candidates_of(o).contains(t) by {
            assert(n.stance(a, o) == m.stance(a, o));
        }
        assert forall|o: SnapperObjectKey|
            #![trigger n.decisions[o]]
            n.decision(o) matches Some(SnapperObjectDecision::Commit(t)) ==> n.inputs.contains_key(
                t,
            ) && n.inputs[t].contains(o) && n.committed_everywhere(t) by {
            assert(n.decision(o) == m.decision(o));
            assert(m.decisions[o] == n.decisions[o]);
            if let Some(SnapperObjectDecision::Commit(t)) = n.decision(o) {
                assert(m.committed_everywhere(t));
                assert forall|p: SnapperObjectKey| #[trigger]
                    n.inputs[t].contains(p) implies n.decision(p) == Some(
                    SnapperObjectDecision::Commit(t),
                ) by {
                    assert(m.inputs[t].contains(p));
                    assert(m.decision(p) == n.decision(p));
                }
            }
        }
    }
}

/// A transaction that is recorded for the first time is mixed exactly where its
/// bytes say so, and stays so in every later state.
pub proof fn mixed_transactions_stay_mixed(
    m: SnapperModel,
    later: SnapperModel,
    data: Seq<u8>,
    mixed: bool,
    owned_inputs: Seq<SnapperObjectKey>,
    payload: Seq<u8>,
)
    requires
        envelope::is_envelope(data, mixed, owned_inputs, payload),
        !m.inputs.contains_key(envelope::transaction_id_of(data)),
        m.consistent(),
        m.with_metadata(block::metadata_of(data)).evolves_to(later),
    ensures
        later.inputs.contains_key(envelope::transaction_id_of(data)),
        later.inputs[envelope::transaction_id_of(data)] == owned_inputs,
        later.mixed.contains(envelope::transaction_id_of(data)) == mixed,
{
    envelope::envelope_encoding_is_injective(
        data,
        mixed,
        owned_inputs,
        payload,
        mixed,
        owned_inputs,
        payload,
    );
    let recorded = m.with_metadata(block::metadata_of(data));
    assert(recorded.inputs.contains_key(envelope::transaction_id_of(data)));
}

/// A new candidate forgets nothing and keeps the state consistent.
pub proof fn recording_a_candidate_evolves(
    m: SnapperModel,
    object: SnapperObjectKey,
    transaction: SnapperTransactionId,
)
    ensures
        m.evolves_to(m.with_candidate(object, transaction)),
        m.consistent() ==> m.with_candidate(object, transaction).consistent(),
{
    let n = m.with_candidate(object, transaction);
    assert forall|o: SnapperObjectKey, a: AuthorityIndex| n.stance(a, o) == m.stance(a, o) by {}
    if m.consistent() {
        assert forall|o: SnapperObjectKey, a: AuthorityIndex|
            #![trigger n.stance(a, o)]
            n.stance(a, o) matches Some(SnapperObjectStance::Transaction(t))
                ==> n.acked.contains((o, a)) && n.candidates_of(o).contains(t) by {
            assert(n.stance(a, o) == m.stance(a, o));
        }
        lemma_same_decisions_consistent(m, n);
    }
}

proof fn lemma_same_decisions_consistent(m: SnapperModel, n: SnapperModel)
    requires
        m.consistent(),
        m.decisions == n.decisions,
        m.inputs == n.inputs,
    ensures
        forall|o: SnapperObjectKey|
            #![trigger n.decisions[o]]
            n.decision(o) matches Some(SnapperObjectDecision::Commit(t)) ==> n.inputs.contains_key(
                t,
            ) && n.inputs[t].contains(o) && n.committed_everywhere(t),
{
    assert forall|o: SnapperObjectKey|
        #![trigger n.decisions[o]]
        n.decision(o) matches Some(SnapperObjectDecision::Commit(t)) ==> n.inputs.contains_key(t)
            && n.inputs[t].contains(o) && n.committed_everywhere(t) by {
        assert(m.decision(o) == n.decision(o));
        if let Some(SnapperObjectDecision::Commit(t)) = n.decision(o) {
            assert(m.committed_everywhere(t));
            assert forall|p: SnapperObjectKey| #[trigger]
                n.inputs[t].contains(p) implies n.decision(p) == Some(
                SnapperObjectDecision::Commit(t),
            ) by {
                assert(m.inputs[t].contains(p));
                assert(m.decision(p) == n.decision(p));
            }
        }
    }
}

/// A declaration moves a stance only as honest validators may move, forgets
/// nothing and keeps the state consistent. So Bottom is never left and an
/// acknowledged transaction is never replaced by another.
pub proof fn declaring_a_stance_evolves(
    m: SnapperModel,
    authority: AuthorityIndex,
    object: SnapperObjectKey,
    stance: SnapperObjectStance,
)
    ensures
        m.evolves_to(m.with_stance(authority, object, stance)),
        m.consistent() ==> m.with_stance(authority, object, stance).consistent(),
{
    let n = m.with_stance(authority, object, stance);
    assert forall|o: SnapperObjectKey, a: AuthorityIndex|
        !(o == object && a == authority) implies n.stance(a, o) == m.stance(a, o) by {}
    assert forall|o: SnapperObjectKey, t: SnapperTransactionId|
        m.candidates_of(o).contains(t) implies n.candidates_of(o).contains(t) by {}
    if m.consistent() {
        assert forall|o: SnapperObjectKey, a: AuthorityIndex|
            #![trigger n.stance(a, o)]
            n.stance(a, o) matches Some(SnapperObjectStance::Transaction(t))
                ==> n.acked.contains((o, a)) && n.candidates_of(o).contains(t) by {
            if !(o == object && a == authority) {
                assert(n.stance(a, o) == m.stance(a, o));
            } else {
                assert(m.stance(a, o) == m.stance(a, o));
            }
        }
        assert forall|t: SnapperTransactionId, o: SnapperObjectKey|
            #![trigger n.inputs[t].contains(o)]
            n.inputs.contains_key(t) && n.inputs[t].contains(o) implies n.candidates_of(
            o,
        ).contains(t) by {
            assert(m.inputs[t].contains(o));
        }
        lemma_same_decisions_consistent(m, n);
    }
}

/// A commit keeps the decisions that stand and keeps the state consistent.
pub proof fn committing_evolves(m: SnapperModel, transaction: SnapperTransactionId)
    ensures
        m.evolves_to(m.with_commit(transaction)),
        m.consistent() ==> m.with_commit(transaction).consistent(),
{
    let n = m.with_commit(transaction);
    assert forall|o: SnapperObjectKey, a: AuthorityIndex| n.stance(a, o) == m.stance(a, o) by {}
    assert forall|o: SnapperObjectKey, t: SnapperTransactionId|
        m.candidates_of(o).contains(t) implies n.candidates_of(o).contains(t) by {}
    if m.consistent() && m.can_commit(transaction) {
        assert forall|o: SnapperObjectKey, a: AuthorityIndex|
            #![trigger n.stance(a, o)]
            n.stance(a, o) matches Some(SnapperObjectStance::Transaction(t))
                ==> n.acked.contains((o, a)) && n.candidates_of(o).contains(t) by {
            assert(n.stance(a, o) == m.stance(a, o));
        }
        commit_is_atomic(m, transaction);
        assert forall|o: SnapperObjectKey|
            #![trigger n.decisions[o]]
            n.decision(o) matches Some(SnapperObjectDecision::Commit(t)) ==> n.inputs.contains_key(
                t,
            ) && n.inputs[t].contains(o) && n.committed_everywhere(t) by {
            if let Some(SnapperObjectDecision::Commit(t)) = n.decision(o) {
                if m.decisions.contains_key(o) {
                    assert(m.decisions[o] == n.decisions[o]);
                    assert(m.committed_everywhere(t));
                    assert forall|p: SnapperObjectKey| #[trigger]
                        n.inputs[t].contains(p) implies n.decision(p) == Some(
                        SnapperObjectDecision::Commit(t),
                    ) by {
                        assert(m.inputs[t].contains(p));
                    }
                } else {
                    assert(t == transaction);
                }
            }
        }
    }
}

/// A release keeps the decisions that stand and keeps the state consistent.
pub proof fn releasing_evolves(m: SnapperModel, object: SnapperObjectKey)
    ensures
        m.evolves_to(m.with_release(object)),
        m.consistent() ==> m.with_release(object).consistent(),
{
    let n = m.with_release(object);
    assert forall|o: SnapperObjectKey, a: AuthorityIndex| n.stance(a, o) == m.stance(a, o) by {}
    assert forall|o: SnapperObjectKey, t: SnapperTransactionId|
        m.candidates_of(o).contains(t) implies n.candidates_of(o).contains(t) by {}
    if m.consistent() {
        assert forall|o: SnapperObjectKey, a: AuthorityIndex|
            #![trigger n.stance(a, o)]
            n.stance(a, o) matches Some(SnapperObjectStance::Transaction(t))
                ==> n.acked.contains((o, a)) && n.candidates_of(o).contains(t) by {
            assert(n.stance(a, o) == m.stance(a, o));
        }
        assert forall|o: SnapperObjectKey|
            #![trigger n.decisions[o]]
            n.decision(o) matches Some(SnapperObjectDecision::Commit(t)) ==> n.inputs.contains_key(
                t,
            ) && n.inputs[t].contains(o) && n.committed_everywhere(t) by {
            if let Some(SnapperObjectDecision::Commit(t)) = n.decision(o) {
                assert(m.decisions.contains_key(o));
                assert(m.decisions[o] == n.decisions[o]);
                assert(m.committed_everywhere(t));
                assert forall|p: SnapperObjectKey| #[trigger]
                    n.inputs[t].contains(p) implies n.decision(p) == Some(
                    SnapperObjectDecision::Commit(t),
                ) by {
                    assert(m.inputs[t].contains(p));
                }
            }
        }
    }
}

/// The initial state is consistent.
pub proof fn initial_state_is_consistent(own: AuthorityIndex)
    ensures
        SnapperModel::initial(own).consistent(),
{
}

/// A transaction can be committed exactly when it is not dead.
pub proof fn can_commit_unless_dead(m: SnapperModel, transaction: SnapperTransactionId)
    ensures
        m.can_commit(transaction) == !m.dead(transaction),
{
}

/// A commit decides every owned input of the transaction and no other object
/// version.
pub proof fn commit_is_atomic(m: SnapperModel, transaction: SnapperTransactionId)
    requires
        m.can_commit(transaction),
    ensures
        m.with_commit(transaction).committed_everywhere(transaction),
        forall|o: SnapperObjectKey|
            !m.inputs[transaction].contains(o) ==> #[trigger] m.with_commit(transaction).decision(o)
                == m.decision(o),
{
    let n = m.with_commit(transaction);
    assert forall|o: SnapperObjectKey| #[trigger]
        n.inputs[transaction].contains(o) implies n.decision(o) == Some(
        SnapperObjectDecision::Commit(transaction),
    ) by {
        assert(m.inputs[transaction].contains(o));
        assert(!m.decides_against(o, transaction));
    }
}

/// Committing a transaction a second time changes nothing.
pub proof fn commit_is_idempotent(m: SnapperModel, transaction: SnapperTransactionId)
    ensures
        m.with_commit(transaction).with_commit(transaction) == m.with_commit(transaction),
{
    let n = m.with_commit(transaction);
    assert(n.with_commit(transaction) =~= n);
}

/// Two committed transactions share no owned input.
pub proof fn committed_transactions_share_no_input(
    m: SnapperModel,
    a: SnapperTransactionId,
    b: SnapperTransactionId,
    object_a: SnapperObjectKey,
    object_b: SnapperObjectKey,
    object: SnapperObjectKey,
)
    requires
        m.consistent(),
        a != b,
        m.decision(object_a) == Some(SnapperObjectDecision::Commit(a)),
        m.decision(object_b) == Some(SnapperObjectDecision::Commit(b)),
    ensures
        !(m.inputs[a].contains(object) && m.inputs[b].contains(object)),
{
    let first = m.decisions[object_a];
    let second = m.decisions[object_b];
    assert(m.committed_everywhere(a));
    assert(m.committed_everywhere(b));
}

/// Whoever acknowledged a transaction and then declares Bottom votes to unlock.
pub proof fn bottom_after_ack_is_unlock(
    m: SnapperModel,
    authority: AuthorityIndex,
    object: SnapperObjectKey,
    transaction: SnapperTransactionId,
)
    requires
        m.stance(authority, object) is None,
    ensures
        m.with_stance(
            authority,
            object,
            SnapperObjectStance::Transaction(transaction),
        ).with_stance(authority, object, SnapperObjectStance::Bottom).bottom_vote_kind(
            authority,
            object,
        ) == Some(SnapperBottomVoteKind::Unlock),
{
}

/// Whoever declares Bottom without an acknowledgement votes to skip.
pub proof fn bottom_without_ack_is_skip(
    m: SnapperModel,
    authority: AuthorityIndex,
    object: SnapperObjectKey,
)
    requires
        m.stance(authority, object) is None,
        !m.acked.contains((object, authority)),
    ensures
        m.with_stance(authority, object, SnapperObjectStance::Bottom).bottom_vote_kind(
            authority,
            object,
        ) == Some(SnapperBottomVoteKind::Skip),
{
}

/// A Bottom vote keeps its kind in every later state.
pub proof fn bottom_vote_kind_is_final(
    m: SnapperModel,
    later: SnapperModel,
    authority: AuthorityIndex,
    object: SnapperObjectKey,
)
    requires
        m.evolves_to(later),
        m.bottom_vote_kind(authority, object) is Some,
    ensures
        later.bottom_vote_kind(authority, object) == m.bottom_vote_kind(authority, object),
{
    assert(later.stance(authority, object) == Some(SnapperObjectStance::Bottom));
}

/// A transaction that is dead stays dead.
pub proof fn dead_transactions_stay_dead(
    m: SnapperModel,
    later: SnapperModel,
    transaction: SnapperTransactionId,
)
    requires
        m.evolves_to(later),
        m.inputs.contains_key(transaction),
        m.dead(transaction),
    ensures
        later.dead(transaction),
{
    let o = choose|o: SnapperObjectKey|
        m.inputs[transaction].contains(o) && m.decides_against(o, transaction);
    assert(later.decides_against(o, transaction));
    assert(later.inputs[transaction].contains(o));
}

/// The objects in recovery hold the conflicted ones and those with a dead
/// candidate, and with each object all owned inputs of its candidates.
pub proof fn recovery_closes_over_siblings(
    m: SnapperModel,
    object: SnapperObjectKey,
    transaction: SnapperTransactionId,
    sibling: SnapperObjectKey,
)
    requires
        m.recovery().contains(object),
        m.candidates_of(object).contains(transaction),
        m.inputs.contains_key(transaction),
        m.inputs[transaction].contains(sibling),
    ensures
        m.recovery().contains(sibling),
        m.recovery_seeds().subset_of(m.recovery()),
{
    recovery::recovery_closure_is_least(m.recovery_seeds(), m.candidates, m.inputs);
    assert(recovery::is_sibling(object, sibling, m.candidates, m.inputs));
}

/// A set has two members or more exactly where two of them differ.
proof fn lemma_two_members<T>(s: Set<T>)
    requires
        s.finite(),
    ensures
        s.len() >= 2 <==> exists|a: T, b: T| #[trigger]
            s.contains(a) && #[trigger] s.contains(b) && a != b,
{
    if s.len() >= 2 {
        let a = s.choose();
        let b = s.remove(a).choose();
        assert(s.remove(a).len() == s.len() - 1);
        assert(s.remove(a).contains(b));
        assert(s.contains(a) && s.contains(b) && a != b);
    }
    if exists|a: T, b: T| #[trigger] s.contains(a) && #[trigger] s.contains(b) && a != b {
        let (a, b) = choose|a: T, b: T| #[trigger]
            s.contains(a) && #[trigger] s.contains(b) && a != b;
        let two: Set<T> = set![a, b];
        assert(two.len() == 2);
        assert(two.subset_of(s));
        vstd::set_lib::lemma_len_subset(two, s);
    }
}

/// An object version is conflicted exactly where two different transactions
/// compete for it.
pub proof fn conflict_is_two_candidates(m: SnapperModel, object: SnapperObjectKey)
    requires
        m.candidates_of(object).finite(),
    ensures
        m.conflicted(object) <==> exists|t: SnapperTransactionId, u: SnapperTransactionId|
            #[trigger]
            m.candidates_of(object).contains(t) && #[trigger] m.candidates_of(object).contains(u)
                && t != u,
{
    lemma_two_members(m.candidates_of(object));
}

/// A transaction is recorded with its first inputs, and competes, besides those
/// that competed before, for each of the given inputs and for nothing else.
pub proof fn recording_adds_one_candidate_per_input(
    m: SnapperModel,
    transaction: SnapperTransactionId,
    owned_inputs: Seq<SnapperObjectKey>,
    mixed: bool,
    object: SnapperObjectKey,
    other: SnapperTransactionId,
)
    ensures
        ({
            let n = m.with_transaction(transaction, owned_inputs, mixed);
            &&& n.candidates_of(object).contains(other) <==> m.candidates_of(object).contains(other)
                || (other == transaction && owned_inputs.contains(object))
            &&& n.inputs.contains_key(other) <==> m.inputs.contains_key(other) || other
                == transaction
            &&& m.inputs.contains_key(other) ==> n.inputs[other] == m.inputs[other]
            &&& !m.inputs.contains_key(transaction) ==> n.inputs[transaction] == owned_inputs
            &&& n.own == m.own
            &&& n.stances == m.stances
            &&& n.acked == m.acked
            &&& n.decisions == m.decisions
        }),
{
}

/// A candidate competes for its object version and for nothing else.
pub proof fn candidate_is_added_alone(
    m: SnapperModel,
    object: SnapperObjectKey,
    transaction: SnapperTransactionId,
    elsewhere: SnapperObjectKey,
    other: SnapperTransactionId,
)
    ensures
        ({
            let n = m.with_candidate(object, transaction);
            &&& n.candidates_of(elsewhere).contains(other) <==> m.candidates_of(elsewhere).contains(
                other,
            ) || (elsewhere == object && other == transaction)
            &&& n.inputs == m.inputs
            &&& n.mixed == m.mixed
            &&& n.stances == m.stances
            &&& n.acked == m.acked
            &&& n.decisions == m.decisions
        }),
{
}

/// Where no stance was taken, any is taken. From a transaction an authority
/// moves to Bottom only, and from Bottom nowhere. No other stance moves.
pub proof fn stances_move_as_declared(
    m: SnapperModel,
    authority: AuthorityIndex,
    object: SnapperObjectKey,
    stance: SnapperObjectStance,
    other: AuthorityIndex,
    elsewhere: SnapperObjectKey,
)
    ensures
        ({
            let n = m.with_stance(authority, object, stance);
            &&& m.stance(authority, object) is None ==> n.stance(authority, object) == Some(stance)
            &&& m.stance(authority, object) is Some && stance is Bottom ==> n.stance(
                authority,
                object,
            ) == Some(SnapperObjectStance::Bottom)
            &&& m.stance(authority, object) is Some && stance is Transaction ==> n == m
            &&& other != authority || elsewhere != object ==> n.stance(other, elsewhere)
                == m.stance(other, elsewhere) && n.acked.contains((elsewhere, other))
                == m.acked.contains((elsewhere, other))
            &&& n.acked.contains((object, authority)) <==> m.acked.contains((object, authority)) || (
            m.stance(authority, object) is None && stance is Transaction)
            &&& m.stance(authority, object) is None ==> (stance matches SnapperObjectStance::Transaction(
                t,
            ) ==> n.candidates_of(object).contains(t))
            &&& state::legal_move(m.stance(authority, object), stance) <==> {
                ||| m.stance(authority, object) is None
                ||| m.stance(authority, object) == Some(stance)
                ||| stance == SnapperObjectStance::Bottom
            }
        }),
{
}

/// A commit tells, for each undecided input, that it is committed; and nothing
/// else.
pub proof fn commit_tells_undecided_inputs(
    m: SnapperModel,
    transaction: SnapperTransactionId,
    object: SnapperObjectKey,
    decision: SnapperObjectDecision,
)
    requires
        m.can_commit(transaction),
    ensures
        m.commit_changes(transaction).contains((object, decision))
            <==> m.inputs[transaction].contains(object) && m.decision(object) is None && decision
            == SnapperObjectDecision::Commit(transaction),
{
    lemma_newly_decided(
        m.inputs[transaction],
        m.decisions,
        SnapperObjectDecision::Commit(transaction),
        object,
        decision,
    );
}

/// What is newly decided is each undecided input, by the decision.
pub proof fn lemma_newly_decided(
    inputs: Seq<SnapperObjectKey>,
    decisions: Map<SnapperObjectKey, SnapperObjectDecision>,
    decision: SnapperObjectDecision,
    o: SnapperObjectKey,
    x: SnapperObjectDecision,
)
    ensures
        state::newly_decided(inputs, decisions, decision).contains((o, x)) <==> inputs.contains(o)
            && !decisions.contains_key(o) && x == decision,
    decreases inputs.len(),
{
    if inputs.len() > 0 {
        let rest = inputs.drop_last();
        lemma_newly_decided(rest, decisions, decision, o, x);
        seqs::lemma_take_next(inputs, inputs.len() - 1);
        seqs::lemma_take_ends(inputs);
        assert(inputs.take(inputs.len() - 1) =~= rest);
        let earlier = state::newly_decided(rest, decisions, decision);
        let all = state::newly_decided(inputs, decisions, decision);
        if !(decisions.contains_key(inputs.last()) || rest.contains(inputs.last())) {
            seqs::lemma_contains_pushed(earlier, (inputs.last(), decision), (o, x));
        }
    }
}

/// A release decides its object version, where it is undecided, and no other.
pub proof fn release_decides_its_object(
    m: SnapperModel,
    object: SnapperObjectKey,
    other: SnapperObjectKey,
)
    requires
        other != object,
    ensures
        m.decision(object) is None ==> m.with_release(object).decision(object) == Some(
            SnapperObjectDecision::Release,
        ) && m.release_changes(object) == seq![(object, SnapperObjectDecision::Release)],
        m.decision(object) is Some ==> m.with_release(object) == m && m.release_changes(
            object,
        ).len() == 0,
        m.with_release(object).decision(other) == m.decision(other),
{
}

/// A transaction can be committed exactly where it is recorded and each of its
/// inputs is undecided or committed to it.
pub proof fn can_commit_where_inputs_are_free(m: SnapperModel, transaction: SnapperTransactionId)
    ensures
        m.can_commit(transaction) <==> m.inputs.contains_key(transaction) && forall|
            o: SnapperObjectKey,
        | #[trigger]
            m.inputs[transaction].contains(o) ==> m.decision(o) is None || m.decision(o) == Some(
                SnapperObjectDecision::Commit(transaction),
            ),
{
    if m.inputs.contains_key(transaction) && forall|o: SnapperObjectKey| #[trigger]
        m.inputs[transaction].contains(o) ==> m.decision(o) is None || m.decision(o) == Some(
            SnapperObjectDecision::Commit(transaction),
        ) {
        assert forall|o: SnapperObjectKey|
            m.inputs[transaction].contains(o) implies !m.decides_against(o, transaction) by {}
    }
    if m.can_commit(transaction) {
        assert forall|o: SnapperObjectKey| #[trigger]
            m.inputs[transaction].contains(o) implies m.decision(o) is None || m.decision(o) == Some(
            SnapperObjectDecision::Commit(transaction),
        ) by {
            assert(!m.decides_against(o, transaction));
        }
    }
}

/// Conflicted object versions, and those with a candidate that is unrecorded or
/// has an input decided otherwise, are in recovery; with an object version in
/// recovery all recorded inputs of its candidates are; and nothing else is: any
/// set of which this can be said holds all object versions in recovery.
pub proof fn recovery_is_least(
    m: SnapperModel,
    s: Set<SnapperObjectKey>,
    object: SnapperObjectKey,
)
    requires
        forall|o: SnapperObjectKey| (#[trigger] m.candidates_of(o)).finite(),
    ensures
        (exists|t: SnapperTransactionId, u: SnapperTransactionId| #[trigger]
            m.candidates_of(object).contains(t) && #[trigger] m.candidates_of(object).contains(u)
                && t != u) ==> m.recovery().contains(object),
        (exists|t: SnapperTransactionId| #[trigger]
            m.candidates_of(object).contains(t) && !m.can_commit(t)) ==> m.recovery().contains(
            object,
        ),
        ({
            &&& forall|o: SnapperObjectKey, t: SnapperTransactionId, u: SnapperTransactionId|
                #[trigger]
                m.candidates_of(o).contains(t) && #[trigger] m.candidates_of(o).contains(u) && t
                    != u ==> s.contains(o)
            &&& forall|o: SnapperObjectKey, t: SnapperTransactionId| #[trigger]
                m.candidates_of(o).contains(t) && !m.can_commit(t) ==> s.contains(o)
            &&& forall|o: SnapperObjectKey, t: SnapperTransactionId, k: SnapperObjectKey|
                s.contains(o) && #[trigger] m.candidates_of(o).contains(t)
                    && m.inputs.contains_key(t) && #[trigger] m.inputs[t].contains(k) ==> s.contains(
                    k,
                )
        }) ==> m.recovery().subset_of(s),
{
    let seeds = m.recovery_seeds();
    recovery::recovery_closure_is_least(seeds, m.candidates, m.inputs);
    conflict_is_two_candidates(m, object);
    assert forall|t: SnapperTransactionId| #[trigger]
        m.candidates_of(object).contains(t) && !m.can_commit(t) implies seeds.contains(object) by {
        can_commit_unless_dead(m, t);
    }
    if ({
        &&& forall|o: SnapperObjectKey, t: SnapperTransactionId, u: SnapperTransactionId|
            #[trigger]
            m.candidates_of(o).contains(t) && #[trigger] m.candidates_of(o).contains(u) && t != u
                ==> s.contains(o)
        &&& forall|o: SnapperObjectKey, t: SnapperTransactionId| #[trigger]
            m.candidates_of(o).contains(t) && !m.can_commit(t) ==> s.contains(o)
        &&& forall|o: SnapperObjectKey, t: SnapperTransactionId, k: SnapperObjectKey|
            s.contains(o) && #[trigger] m.candidates_of(o).contains(t) && m.inputs.contains_key(t)
                && #[trigger] m.inputs[t].contains(k) ==> s.contains(k)
    }) {
        assert forall|o: SnapperObjectKey| seeds.contains(o) implies s.contains(o) by {
            conflict_is_two_candidates(m, o);
            if !m.conflicted(o) {
                let t = choose|t: SnapperTransactionId| #[trigger]
                    m.candidates_of(o).contains(t) && m.dead(t);
                can_commit_unless_dead(m, t);
            }
        }
        assert forall|o: SnapperObjectKey, k: SnapperObjectKey|
            s.contains(o) && #[trigger] recovery::is_sibling(
                o,
                k,
                m.candidates,
                m.inputs,
            ) implies s.contains(k) by {
            let t = choose|t: SnapperTransactionId| #[trigger]
                m.candidates[o].contains(t) && m.inputs.contains_key(t) && m.inputs[t].contains(k);
            assert(m.candidates_of(o).contains(t));
        }
        assert(recovery::holds_siblings(s, m.candidates, m.inputs));
    }
}

impl SnapperModel {
    /// The state knows finitely many transactions and object versions.
    pub open spec fn finite(self) -> bool {
        &&& self.inputs.dom().finite()
        &&& self.candidates.dom().finite()
        &&& forall|o: SnapperObjectKey| (#[trigger] self.candidates_of(o)).finite()
    }
}

/// The initial state is finite, and every change keeps a state so.
pub proof fn states_are_finite(
    m: SnapperModel,
    own: AuthorityIndex,
    transaction: SnapperTransactionId,
    owned_inputs: Seq<SnapperObjectKey>,
    mixed: bool,
    authority: AuthorityIndex,
    object: SnapperObjectKey,
    stance: SnapperObjectStance,
)
    ensures
        SnapperModel::initial(own).finite(),
        m.finite() ==> {
            &&& m.with_transaction(transaction, owned_inputs, mixed).finite()
            &&& m.with_candidate(object, transaction).finite()
            &&& m.with_stance(authority, object, stance).finite()
            &&& m.with_commit(transaction).finite()
            &&& m.with_release(object).finite()
        },
{
    let i = SnapperModel::initial(own);
    assert(i.inputs.dom() =~= Set::empty());
    assert(i.candidates.dom() =~= Set::empty());
    assert forall|o: SnapperObjectKey| (#[trigger] i.candidates_of(o)).finite() by {}
    if m.finite() {
        let n = m.with_transaction(transaction, owned_inputs, mixed);
        vstd::seq_lib::seq_to_set_is_finite(owned_inputs);
        assert(n.candidates.dom() =~= m.candidates.dom().union(owned_inputs.to_set()));
        assert(n.inputs.dom() =~= m.inputs.dom().insert(transaction));
        assert forall|o: SnapperObjectKey| (#[trigger] n.candidates_of(o)).finite() by {
            assert(m.candidates_of(o).finite());
        }
        let c = m.with_candidate(object, transaction);
        assert(c.candidates.dom() =~= m.candidates.dom().insert(object));
        assert forall|o: SnapperObjectKey| (#[trigger] c.candidates_of(o)).finite() by {
            assert(m.candidates_of(o).finite());
        }
        let s = m.with_stance(authority, object, stance);
        if let SnapperObjectStance::Transaction(t) = stance {
            let e = m.with_candidate(object, t);
            assert(e.candidates.dom() =~= m.candidates.dom().insert(object));
            assert forall|o: SnapperObjectKey| (#[trigger] s.candidates_of(o)).finite() by {
                assert(m.candidates_of(o).finite());
            }
        } else {
            assert forall|o: SnapperObjectKey| (#[trigger] s.candidates_of(o)).finite() by {
                assert(m.candidates_of(o).finite());
            }
        }
        let w = m.with_commit(transaction);
        assert forall|o: SnapperObjectKey| (#[trigger] w.candidates_of(o)).finite() by {
            assert(m.candidates_of(o).finite());
        }
        let r = m.with_release(object);
        assert forall|o: SnapperObjectKey| (#[trigger] r.candidates_of(o)).finite() by {
            assert(m.candidates_of(o).finite());
        }
    }
}

/// A finite state has finitely many object versions in recovery.
pub proof fn lemma_recovery_of_finite(m: SnapperModel)
    requires
        m.finite(),
    ensures
        m.recovery().finite(),
{
    let seeds = m.recovery_seeds();
    assert(seeds.subset_of(m.candidates.dom()));
    vstd::set_lib::lemma_set_subset_finite(m.candidates.dom(), seeds);
    let all = seqs::all_listed(seeds, m.inputs);
    seqs::lemma_all_listed_finite(seeds, m.inputs);
    recovery::recovery_closure_is_least(seeds, m.candidates, m.inputs);
    assert(recovery::holds_siblings(all, m.candidates, m.inputs)) by {
        assert forall|o: SnapperObjectKey, k: SnapperObjectKey|
            all.contains(o) && #[trigger] recovery::is_sibling(
                o,
                k,
                m.candidates,
                m.inputs,
            ) implies all.contains(k) by {
            let t = choose|t: SnapperTransactionId| #[trigger]
                m.candidates[o].contains(t) && m.inputs.contains_key(t) && m.inputs[t].contains(k);
            assert(m.inputs.contains_key(t) && m.inputs[t].contains(k));
        }
    }
    vstd::set_lib::lemma_set_subset_finite(all, m.recovery());
}

/// A commit tells the inputs in their order: what is told earlier occurs where
/// what is told later has not occurred yet.
pub proof fn commit_tells_inputs_in_order(
    inputs: Seq<SnapperObjectKey>,
    decisions: Map<SnapperObjectKey, SnapperObjectDecision>,
    decision: SnapperObjectDecision,
    i: int,
    j: int,
)
    requires
        0 <= i < j < state::newly_decided(inputs, decisions, decision).len(),
    ensures
        ({
            let told = state::newly_decided(inputs, decisions, decision);
            exists|p: int|
                0 <= p < inputs.len() && #[trigger] inputs[p] == told[i].0 && !inputs.take(
                    p + 1,
                ).contains(told[j].0)
        }),
    decreases inputs.len(),
{
    let rest = inputs.drop_last();
    let earlier = state::newly_decided(rest, decisions, decision);
    let told = state::newly_decided(inputs, decisions, decision);
    if j < earlier.len() {
        commit_tells_inputs_in_order(rest, decisions, decision, i, j);
        assert(told[i] == earlier[i] && told[j] == earlier[j]);
        let p = choose|p: int|
            0 <= p < rest.len() && #[trigger] rest[p] == earlier[i].0 && !rest.take(p + 1).contains(
                earlier[j].0,
            );
        assert(inputs[p] == rest[p]);
        assert(inputs.take(p + 1) =~= rest.take(p + 1));
    } else {
        assert(told[i] == earlier[i]);
        let (o, x) = earlier[i];
        assert(earlier.contains((o, x)));
        lemma_newly_decided(rest, decisions, decision, o, x);
        let p = choose|p: int| 0 <= p < rest.len() && rest[p] == o;
        assert(inputs[p] == o);
        assert(told[j].0 == inputs.last());
        if inputs.take(p + 1).contains(told[j].0) {
            let head = inputs.take(p + 1);
            let q = choose|q: int| 0 <= q < head.len() && head[q] == told[j].0;
            assert(rest[q] == told[j].0);
        }
    }
}

/// The input that refuses a commit is the first that is decided otherwise.
pub proof fn refusing_input_is_the_first(
    m: SnapperModel,
    transaction: SnapperTransactionId,
    i: int,
    j: int,
)
    requires
        state::first_against(m, transaction, i),
        m.inputs.contains_key(transaction),
    ensures
        !m.can_commit(transaction),
        m.decision(m.inputs[transaction][i]) is Some,
        m.decision(m.inputs[transaction][i]) != Some(SnapperObjectDecision::Commit(transaction)),
        0 <= j < i ==> m.decision(m.inputs[transaction][j]) is None || m.decision(
            m.inputs[transaction][j],
        ) == Some(SnapperObjectDecision::Commit(transaction)),
{
    let inputs = m.inputs[transaction];
    assert(inputs.contains(inputs[i]));
    if 0 <= j < i {
        assert(!m.decides_against(inputs[j], transaction));
    }
}

} // verus!
