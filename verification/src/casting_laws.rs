//! Which stances a proposed block declares, and which it does not.
use vstd::prelude::*;

use crate::committee;
use crate::dag::DagView;
use crate::graph_laws;
use crate::keys::{BlockRef, Round, SnapperObjectKey, SnapperTransactionId};
use crate::order;
use crate::protocol::{SnapperObjectStance, SnapperObjectStanceVote};
use crate::resolution;
use crate::resolution::Casting;
use crate::seqs;
use crate::state::SnapperModel;
use crate::state_laws;

verus! {

/// The changes declare Bottom on the object version.
pub open spec fn declares_bottom(
    changes: Seq<SnapperObjectStanceVote>,
    object: SnapperObjectKey,
) -> bool {
    changes.contains(SnapperObjectStanceVote { object, stance: SnapperObjectStance::Bottom })
}

/// The changes acknowledge the transaction on the object version.
pub open spec fn declares_ack_of(
    changes: Seq<SnapperObjectStanceVote>,
    object: SnapperObjectKey,
    t: SnapperTransactionId,
) -> bool {
    changes.contains(
        SnapperObjectStanceVote { object, stance: SnapperObjectStance::Transaction(t) },
    )
}

/// The own authority stands for the transaction on the object version.
pub open spec fn stands(m: SnapperModel, o: SnapperObjectKey, t: SnapperTransactionId) -> bool {
    m.own_stance(o) == Some(SnapperObjectStance::Transaction(t))
}

/// While object versions are abandoned, only own stances move, and only to
/// Bottom, each as the changes tell.
spec fn only_abandons(m: SnapperModel, c: Casting) -> bool {
    &&& c.snapper.own == m.own
    &&& c.snapper.inputs == m.inputs
    &&& c.snapper.candidates == m.candidates
    &&& c.snapper.decisions == m.decisions
    &&& forall|o: SnapperObjectKey| #[trigger]
        c.snapper.own_stance(o) == (if declares_bottom(c.changes, o) {
            Some(SnapperObjectStance::Bottom)
        } else {
            m.own_stance(o)
        })
    &&& forall|i: int|
        0 <= i < c.changes.len() ==> (#[trigger] c.changes[i]).stance
            == SnapperObjectStance::Bottom
}

proof fn lemma_abandon_step(m: SnapperModel, c: Casting, o: SnapperObjectKey)
    requires
        only_abandons(m, c),
    ensures
        only_abandons(m, c.declare(o, SnapperObjectStance::Bottom)),
        declares_bottom(c.declare(o, SnapperObjectStance::Bottom).changes, o),
        forall|q: SnapperObjectKey|
            q != o ==> declares_bottom(c.declare(o, SnapperObjectStance::Bottom).changes, q)
                == #[trigger] declares_bottom(c.changes, q),
{
    let n = c.declare(o, SnapperObjectStance::Bottom);
    let v = SnapperObjectStanceVote { object: o, stance: SnapperObjectStance::Bottom };
    assert(n.changes == c.changes.push(v));
    seqs::lemma_contains_pushed(c.changes, v, v);
    assert forall|q: SnapperObjectKey|
        declares_bottom(n.changes, q) <==> #[trigger] declares_bottom(c.changes, q) || q == o by {
        seqs::lemma_contains_pushed(
            c.changes,
            v,
            SnapperObjectStanceVote { object: q, stance: SnapperObjectStance::Bottom },
        );
    }
    assert forall|q: SnapperObjectKey| #[trigger]
        n.snapper.own_stance(q) == (if declares_bottom(n.changes, q) {
            Some(SnapperObjectStance::Bottom)
        } else {
            m.own_stance(q)
        }) by {
        assert(declares_bottom(n.changes, q) <==> declares_bottom(c.changes, q) || q == o);
        assert(c.snapper.own_stance(q) == c.snapper.own_stance(q));
        if q != o {
            assert(n.snapper.own_stance(q) == c.snapper.own_stance(q));
        }
    }
    assert forall|i: int| 0 <= i < n.changes.len() implies (#[trigger] n.changes[i]).stance
        == SnapperObjectStance::Bottom by {
        if i < c.changes.len() {
            assert(n.changes[i] == c.changes[i]);
        }
    }
}

proof fn lemma_abandon_all(
    d: DagView,
    m: SnapperModel,
    round: Round,
    parents: Seq<BlockRef>,
    os: Seq<SnapperObjectKey>,
    o: SnapperObjectKey,
)
    ensures
        ({
            let c = d.abandon_all(Casting::start(m), round, parents, os);
            &&& only_abandons(m, c)
            &&& declares_bottom(c.changes, o) ==> os.contains(o) && !m.resolved(o)
                && m.own_stance(o) != Some(SnapperObjectStance::Bottom)
        }),
    decreases os.len(),
{
    let c = d.abandon_all(Casting::start(m), round, parents, os);
    if os.len() == 0 {
        assert forall|q: SnapperObjectKey| !declares_bottom(c.changes, q) by {}
    } else {
        let rest = os.drop_last();
        let last = os.last();
        lemma_abandon_all(d, m, round, parents, rest, o);
        lemma_abandon_all(d, m, round, parents, rest, last);
        let p = d.abandon_all(Casting::start(m), round, parents, rest);
        seqs::lemma_take_next(os, os.len() - 1);
        seqs::lemma_take_ends(os);
        assert(os.take(os.len() - 1) =~= rest);
        if d.abandons(p.snapper, round, parents, last) {
            lemma_abandon_step(m, p, last);
            assert(p.snapper.own_stance(last) == p.snapper.own_stance(last));
        }
    }
}

/// The own authority must leave the object version: it took no stance on it, or
/// the transaction that it stands for cannot be committed, or is not stood for
/// on some input, or has no certificate in sight.
pub open spec fn must_leave(
    d: DagView,
    m: SnapperModel,
    round: Round,
    parents: Seq<BlockRef>,
    o: SnapperObjectKey,
) -> bool {
    match m.own_stance(o) {
        None => true,
        Some(SnapperObjectStance::Bottom) => false,
        Some(SnapperObjectStance::Transaction(t)) => {
            ||| !m.can_commit(t)
            ||| loses_an_input(m, t)
            ||| !certificate_in_sight(d, m, round, parents, t)
        },
    }
}

/// The own authority does not stand for the transaction on some input.
pub open spec fn loses_an_input(m: SnapperModel, t: SnapperTransactionId) -> bool {
    exists|p: SnapperObjectKey| #[trigger] m.inputs[t].contains(p) && !stands(m, p, t)
}

/// The parents of the round before that stand for the transaction are by authors
/// with more than two thirds of all stake, or a walk from a parent leads to a
/// certificate.
pub open spec fn certificate_in_sight(
    d: DagView,
    m: SnapperModel,
    round: Round,
    parents: Seq<BlockRef>,
    t: SnapperTransactionId,
) -> bool {
    ||| 3 * committee::stake_of(
        d.stakes,
        graph_laws::authors_before(
            round,
            parents,
            Set::new(|p: BlockRef| graph_laws::stands_for(d, p, t, m.inputs[t])),
        ),
    ) > 2 * committee::total_stake(d.stakes)
    ||| certificate_reached(d, m, parents, t)
}

/// A walk from a parent leads to a certificate.
pub open spec fn certificate_reached(
    d: DagView,
    m: SnapperModel,
    parents: Seq<BlockRef>,
    t: SnapperTransactionId,
) -> bool {
    exists|p: BlockRef, r: BlockRef|
        parents.contains(p) && #[trigger] graph_laws::leads_to(d, p, r) && d.is_fast_cert(
            m.inputs,
            r,
            t,
        )
}

proof fn lemma_reached(
    d: DagView,
    m: SnapperModel,
    parents: Seq<BlockRef>,
    t: SnapperTransactionId,
)
    ensures
        certificate_reached(d, m, parents, t) <==> exists|p: BlockRef| #[trigger]
            parents.contains(p) && d.has_cert(m.inputs, p, t),
{
    if certificate_reached(d, m, parents, t) {
        let (p, r) = choose|p: BlockRef, r: BlockRef|
            parents.contains(p) && #[trigger] graph_laws::leads_to(d, p, r) && d.is_fast_cert(
                m.inputs,
                r,
                t,
            );
        assert(graph_laws::certified_in_history(d, m.inputs, p, t));
        graph_laws::certificate_in_history_is_reached(d, m.inputs, p, t);
        assert(parents.contains(p) && d.has_cert(m.inputs, p, t));
    }
    if exists|p: BlockRef| #[trigger] parents.contains(p) && d.has_cert(m.inputs, p, t) {
        let p = choose|p: BlockRef| #[trigger] parents.contains(p) && d.has_cert(m.inputs, p, t);
        graph_laws::certificate_in_history_is_reached(d, m.inputs, p, t);
        let r = choose|r: BlockRef| #[trigger]
            graph_laws::leads_to(d, p, r) && d.is_fast_cert(m.inputs, r, t);
        assert(graph_laws::leads_to(d, p, r));
    }
}

proof fn lemma_in_sight(
    d: DagView,
    m: SnapperModel,
    round: Round,
    parents: Seq<BlockRef>,
    t: SnapperTransactionId,
)
    requires
        committee::usable_stakes(d.stakes),
        m.inputs.contains_key(t),
        round > 0,
    ensures
        d.cert_visible(m.inputs, round, parents, t) == certificate_in_sight(
            d,
            m,
            round,
            parents,
            t,
        ),
{
    graph_laws::visible_certificate_is_formed_or_reached(d, m.inputs, round, parents, t);
    lemma_reached(d, m, parents, t);
    assert forall|p: BlockRef| #[trigger] parents.contains(p) implies d.has_cert(m.inputs, p, t)
        == graph_laws::certified_in_history(d, m.inputs, p, t) by {
        graph_laws::certificate_in_history_is_reached(d, m.inputs, p, t);
    }
}

/// Whoever must leave an object version leaves it when its turn comes.
proof fn lemma_must_leave(
    d: DagView,
    m: SnapperModel,
    round: Round,
    parents: Seq<BlockRef>,
    os: Seq<SnapperObjectKey>,
    o: SnapperObjectKey,
)
    requires
        committee::usable_stakes(d.stakes),
        round > 0,
        os.no_duplicates(),
        os.contains(o),
        !m.resolved(o),
        must_leave(d, m, round, parents, o),
    ensures
        declares_bottom(d.abandon_all(Casting::start(m), round, parents, os).changes, o),
    decreases os.len(),
{
    let rest = os.drop_last();
    let last = os.last();
    let p = d.abandon_all(Casting::start(m), round, parents, rest);
    lemma_abandon_all(d, m, round, parents, rest, o);
    lemma_abandon_all(d, m, round, parents, rest, last);
    assert(rest.no_duplicates());
    seqs::lemma_take_next(os, os.len() - 1);
    seqs::lemma_take_ends(os);
    assert(os.take(os.len() - 1) =~= rest);
    if rest.contains(o) {
        lemma_must_leave(d, m, round, parents, rest, o);
        if d.abandons(p.snapper, round, parents, last) {
            lemma_abandon_step(m, p, last);
            assert(declares_bottom(p.changes, o));
        }
    } else {
        assert(last == o);
        assert(!declares_bottom(p.changes, o));
        assert(p.snapper.own_stance(o) == m.own_stance(o));
        match m.own_stance(o) {
            Some(SnapperObjectStance::Transaction(t)) => {
                if !m.can_commit(t) {
                    state_laws::can_commit_unless_dead(m, t);
                    assert(p.snapper.dead(t)) by {
                        if m.inputs.contains_key(t) {
                            let q = choose|q: SnapperObjectKey|
                                m.inputs[t].contains(q) && m.decides_against(q, t);
                            assert(m.inputs[t].contains(q) && m.decides_against(q, t));
                            assert(p.snapper.inputs[t].contains(q)
                                && p.snapper.decides_against(q, t));
                        }
                    }
                } else if loses_an_input(m, t) {
                    let q = choose|q: SnapperObjectKey| #[trigger]
                        m.inputs[t].contains(q) && !stands(m, q, t);
                    assert(p.snapper.own_stance(q) != Some(SnapperObjectStance::Transaction(t)));
                    assert(p.snapper.inputs[t].contains(q));
                    assert(resolution::sibling_abandoned(p.snapper, t));
                } else {
                    lemma_in_sight(d, m, round, parents, t);
                }
            },
            _ => {},
        }
        assert(d.abandons(p.snapper, round, parents, o));
        lemma_abandon_step(m, p, o);
    }
}

/// Where a certificate is reached, nothing that is stood for is left.
proof fn lemma_keeps(
    d: DagView,
    m: SnapperModel,
    round: Round,
    parents: Seq<BlockRef>,
    os: Seq<SnapperObjectKey>,
    t: SnapperTransactionId,
    o: SnapperObjectKey,
)
    requires
        stands(m, o, t),
        m.can_commit(t),
        !loses_an_input(m, t),
        d.cert_visible(m.inputs, round, parents, t),
    ensures
        !declares_bottom(d.abandon_all(Casting::start(m), round, parents, os).changes, o),
    decreases os.len(),
{
    let c = d.abandon_all(Casting::start(m), round, parents, os);
    if os.len() > 0 {
        let rest = os.drop_last();
        let last = os.last();
        let p = d.abandon_all(Casting::start(m), round, parents, rest);
        lemma_abandon_all(d, m, round, parents, rest, o);
        lemma_keeps(d, m, round, parents, rest, t, o);
        if d.abandons(p.snapper, round, parents, last) {
            lemma_abandon_step(m, p, last);
            if last == o {
                assert(p.snapper.own_stance(o) == m.own_stance(o));
                assert(!p.snapper.dead(t)) by {
                    assert(p.snapper.inputs.contains_key(t));
                    assert forall|q: SnapperObjectKey|
                        p.snapper.inputs[t].contains(q) implies !p.snapper.decides_against(
                        q,
                        t,
                    ) by {
                        assert(!m.decides_against(q, t));
                    }
                }
                assert(!resolution::sibling_abandoned(p.snapper, t)) by {
                    assert forall|q: SnapperObjectKey| #[trigger]
                        p.snapper.inputs[t].contains(q) implies p.snapper.own_stance(q) == Some(
                        SnapperObjectStance::Transaction(t),
                    ) by {
                        assert(m.inputs[t].contains(q));
                        assert(stands(m, q, t));
                        lemma_keeps(d, m, round, parents, rest, t, q);
                    }
                }
            }
            assert(declares_bottom(c.changes, o) == declares_bottom(p.changes, o));
        }
    }
}

/// While uncontested transactions are acknowledged, nothing moves but own
/// stances that were not taken.
spec fn only_acknowledges(a: Casting, c: Casting) -> bool {
    &&& c.snapper.own == a.snapper.own
    &&& c.snapper.inputs == a.snapper.inputs
    &&& c.snapper.candidates == a.snapper.candidates
    &&& c.snapper.decisions == a.snapper.decisions
}

proof fn lemma_only_candidate(s: Set<SnapperTransactionId>)
    requires
        s.finite(),
        s.len() == 1,
    ensures
        s.contains(order::sorted(s)[0]),
        forall|t: SnapperTransactionId| #[trigger] s.contains(t) ==> t == order::sorted(s)[0],
{
    order::lemma_sorted_lists(s);
    let q = order::sorted(s);
    order::lemma_ascending_distinct(q);
    q.unique_seq_to_set();
    assert(q.len() == 1);
    assert(q.contains(q[0]));
    assert(q.to_set().contains(q[0]));
    assert forall|t: SnapperTransactionId| #[trigger] s.contains(t) implies t == q[0] by {
        assert(q.to_set().contains(t));
        let i = choose|i: int| 0 <= i < q.len() && q[i] == t;
    }
}

proof fn lemma_acknowledge_all(
    a: Casting,
    recovery: Set<SnapperObjectKey>,
    os: Seq<SnapperObjectKey>,
    o: SnapperObjectKey,
    t: SnapperTransactionId,
)
    requires
        a.snapper.finite(),
        os.no_duplicates(),
        forall|i: int|
            0 <= i < os.len() ==> a.snapper.candidates.contains_key(#[trigger] os[i]),
    ensures
        ({
            let c = a.acknowledge_all(recovery, os);
            &&& only_acknowledges(a, c)
            &&& !os.contains(o) ==> c.snapper.own_stance(o) == a.snapper.own_stance(o)
            &&& declares_bottom(c.changes, o) == declares_bottom(a.changes, o)
            &&& declares_ack_of(c.changes, o, t) <==> declares_ack_of(a.changes, o, t) || (
            os.contains(o) && a.acknowledges(recovery, o) && a.snapper.candidates_of(o).contains(t))
        }),
    decreases os.len(),
{
    if os.len() > 0 {
        let rest = os.drop_last();
        let last = os.last();
        assert forall|i: int| 0 <= i < rest.len() implies a.snapper.candidates.contains_key(
            #[trigger] rest[i],
        ) by {
            assert(rest[i] == os[i]);
        }
        assert(rest.no_duplicates());
        lemma_acknowledge_all(a, recovery, rest, o, t);
        lemma_acknowledge_all(a, recovery, rest, last, t);
        let p = a.acknowledge_all(recovery, rest);
        let c = a.acknowledge_all(recovery, os);
        seqs::lemma_take_next(os, os.len() - 1);
        seqs::lemma_take_ends(os);
        assert(os.take(os.len() - 1) =~= rest);
        assert(!rest.contains(last)) by {
            if rest.contains(last) {
                let i = choose|i: int| 0 <= i < rest.len() && rest[i] == last;
                assert(os[i] == os[os.len() - 1]);
            }
        }
        assert(p.snapper.own_stance(last) == a.snapper.own_stance(last));
        assert(p.acknowledges(recovery, last) == a.acknowledges(recovery, last));
        if p.acknowledges(recovery, last) {
            let all = a.snapper.candidates_of(last);
            assert(a.snapper.candidates_of(last).finite());
            lemma_only_candidate(all);
            let u = order::sorted(all)[0];
            let v = SnapperObjectStanceVote {
                object: last,
                stance: SnapperObjectStance::Transaction(u),
            };
            assert(p.snapper.candidates_of(last) == all);
            assert(c.changes == p.changes.push(v));
            assert(c.snapper.candidates =~= p.snapper.candidates) by {
                assert(all.insert(u) =~= all);
                assert(os[os.len() - 1] == last);
                assert(p.snapper.candidates.contains_key(last));
            }
            seqs::lemma_contains_pushed(
                p.changes,
                v,
                SnapperObjectStanceVote { object: o, stance: SnapperObjectStance::Bottom },
            );
            seqs::lemma_contains_pushed(
                p.changes,
                v,
                SnapperObjectStanceVote { object: o, stance: SnapperObjectStance::Transaction(t) },
            );
            if o != last {
                assert(c.snapper.own_stance(o) == p.snapper.own_stance(o));
            }
        }
    }
}

/// Both parts of casting.
proof fn lemma_cast(
    d: DagView,
    m: SnapperModel,
    round: Round,
    parents: Seq<BlockRef>,
    o: SnapperObjectKey,
    t: SnapperTransactionId,
)
    requires
        m.finite(),
    ensures
        ({
            let os = order::sorted(m.recovery());
            let a = d.abandon_all(Casting::start(m), round, parents, os);
            let c = d.cast_votes(m, round, parents);
            &&& os.no_duplicates()
            &&& os.to_set() == m.recovery()
            &&& declares_bottom(c.changes, o) == declares_bottom(a.changes, o)
            &&& declares_ack_of(c.changes, o, t) <==> {
                &&& m.candidates.contains_key(o)
                &&& !m.recovery().contains(o)
                &&& !m.resolved(o)
                &&& m.own_stance(o) is None
                &&& m.candidates_of(o).len() == 1
                &&& m.candidates_of(o).contains(t)
            }
        }),
{
    let recovery = m.recovery();
    let os = order::sorted(recovery);
    state_laws::lemma_recovery_of_finite(m);
    order::lemma_sorted_lists(recovery);
    order::lemma_ascending_distinct(os);
    let a = d.abandon_all(Casting::start(m), round, parents, os);
    lemma_abandon_all(d, m, round, parents, os, o);
    let objects = order::sorted(a.snapper.candidates.dom());
    order::lemma_sorted_lists(m.candidates.dom());
    order::lemma_ascending_distinct(objects);
    assert forall|i: int| 0 <= i < objects.len() implies a.snapper.candidates.contains_key(
        #[trigger] objects[i],
    ) by {
        assert(objects.contains(objects[i]));
        assert(objects.to_set().contains(objects[i]));
    }
    assert(a.snapper.finite()) by {
        assert forall|q: SnapperObjectKey| (#[trigger] a.snapper.candidates_of(q)).finite() by {
            assert(m.candidates_of(q).finite());
        }
    }
    lemma_acknowledge_all(a, recovery, objects, o, t);
    assert(!declares_ack_of(a.changes, o, t)) by {
        if declares_ack_of(a.changes, o, t) {
            let v = SnapperObjectStanceVote {
                object: o,
                stance: SnapperObjectStance::Transaction(t),
            };
            let i = choose|i: int| 0 <= i < a.changes.len() && a.changes[i] == v;
            assert(a.changes[i].stance == SnapperObjectStance::Bottom);
        }
    }
    assert(objects.contains(o) <==> objects.to_set().contains(o));
    assert(a.snapper.own_stance(o) == a.snapper.own_stance(o));
    assert(declares_bottom(a.changes, o) ==> recovery.contains(o)) by {
        assert(os.contains(o) <==> os.to_set().contains(o));
    }
}

/// A proposed block declares Bottom on every unresolved object version in
/// recovery that its author must leave: one without a stance, and one on which
/// the author stands for a transaction that cannot be committed, or is not stood
/// for on some input, or has no certificate in sight, be it formed by the
/// parents or in the causal history of one.
pub proof fn contested_objects_are_left(
    d: DagView,
    m: SnapperModel,
    round: Round,
    parents: Seq<BlockRef>,
    o: SnapperObjectKey,
)
    requires
        m.finite(),
        committee::usable_stakes(d.stakes),
        round > 0,
        m.recovery().contains(o),
        !m.resolved(o),
        must_leave(d, m, round, parents, o),
    ensures
        declares_bottom(d.cast_votes(m, round, parents).changes, o),
{
    let os = order::sorted(m.recovery());
    lemma_cast(d, m, round, parents, o, arbitrary());
    assert(os.to_set().contains(o));
    lemma_must_leave(d, m, round, parents, os, o);
}

/// A proposed block keeps, on every object version, a transaction that its
/// author stands for there and on each input, that can be committed, and for
/// which a walk from a parent leads to a certificate.
pub proof fn certified_transaction_is_kept(
    d: DagView,
    m: SnapperModel,
    round: Round,
    parents: Seq<BlockRef>,
    t: SnapperTransactionId,
    o: SnapperObjectKey,
)
    requires
        m.finite(),
        stands(m, o, t),
        m.can_commit(t),
        !loses_an_input(m, t),
        certificate_reached(d, m, parents, t),
    ensures
        !declares_bottom(d.cast_votes(m, round, parents).changes, o),
{
    lemma_cast(d, m, round, parents, o, t);
    lemma_reached(d, m, parents, t);
    lemma_keeps(d, m, round, parents, order::sorted(m.recovery()), t, o);
}

/// The same where the parents themselves form the certificate.
pub proof fn transaction_with_quorum_of_parents_is_kept(
    d: DagView,
    m: SnapperModel,
    round: Round,
    parents: Seq<BlockRef>,
    t: SnapperTransactionId,
    o: SnapperObjectKey,
)
    requires
        m.finite(),
        committee::usable_stakes(d.stakes),
        round > 0,
        stands(m, o, t),
        m.can_commit(t),
        !loses_an_input(m, t),
        certificate_in_sight(d, m, round, parents, t),
    ensures
        !declares_bottom(d.cast_votes(m, round, parents).changes, o),
{
    lemma_cast(d, m, round, parents, o, t);
    lemma_in_sight(d, m, round, parents, t);
    lemma_keeps(d, m, round, parents, order::sorted(m.recovery()), t, o);
}

/// A proposed block declares Bottom only on unresolved object versions in
/// recovery on which its author does not stand at Bottom already.
pub proof fn only_contested_objects_are_left(
    d: DagView,
    m: SnapperModel,
    round: Round,
    parents: Seq<BlockRef>,
    o: SnapperObjectKey,
)
    requires
        m.finite(),
        declares_bottom(d.cast_votes(m, round, parents).changes, o),
    ensures
        m.recovery().contains(o),
        !m.resolved(o),
        m.own_stance(o) != Some(SnapperObjectStance::Bottom),
{
    let os = order::sorted(m.recovery());
    lemma_cast(d, m, round, parents, o, arbitrary());
    lemma_abandon_all(d, m, round, parents, os, o);
    assert(os.to_set().contains(o));
}

/// A proposed block acknowledges a transaction exactly on the unresolved object
/// versions outside recovery on which its author has taken no stance and for
/// which the transaction, and no other, competes.
pub proof fn uncontested_transactions_are_acknowledged(
    d: DagView,
    m: SnapperModel,
    round: Round,
    parents: Seq<BlockRef>,
    o: SnapperObjectKey,
    t: SnapperTransactionId,
)
    requires
        m.finite(),
    ensures
        declares_ack_of(d.cast_votes(m, round, parents).changes, o, t) <==> {
            &&& !m.recovery().contains(o)
            &&& m.decision(o) is None
            &&& m.own_stance(o) is None
            &&& m.candidates_of(o).contains(t)
            &&& forall|u: SnapperTransactionId| #[trigger] m.candidates_of(o).contains(u) ==> u == t
        },
{
    lemma_cast(d, m, round, parents, o, t);
    let s = m.candidates_of(o);
    assert(m.candidates_of(o).finite());
    if s.len() == 1 {
        lemma_only_candidate(s);
    }
    if s.contains(t) && forall|u: SnapperTransactionId| #[trigger] s.contains(u) ==> u == t {
        assert(s =~= set![t]);
    }
}

/// One change comes before another: Bottom before an acknowledgement, and those
/// of one kind by their object versions.
pub open spec fn change_before(a: SnapperObjectStanceVote, b: SnapperObjectStanceVote) -> bool {
    if a.stance is Bottom == b.stance is Bottom {
        order::before(a.object, b.object)
    } else {
        a.stance is Bottom
    }
}

/// The changes are in order.
pub open spec fn changes_ascend(changes: Seq<SnapperObjectStanceVote>) -> bool {
    forall|i: int, j: int|
        0 <= i < j < changes.len() ==> change_before(#[trigger] changes[i], #[trigger] changes[j])
}

proof fn lemma_last_is_greatest(os: Seq<SnapperObjectKey>, o: SnapperObjectKey)
    requires
        order::ascending(os),
        os.len() > 0,
        os.drop_last().contains(o),
    ensures
        order::before(o, os.last()),
{
    let rest = os.drop_last();
    let i = choose|i: int| 0 <= i < rest.len() && rest[i] == o;
    assert(order::before(os[i], os[os.len() - 1]));
}

proof fn lemma_ascending_rest(os: Seq<SnapperObjectKey>)
    requires
        order::ascending(os),
        os.len() > 0,
    ensures
        order::ascending(os.drop_last()),
{
    let rest = os.drop_last();
    assert forall|i: int, j: int| 0 <= i < j < rest.len() implies order::before(
        #[trigger] rest[i],
        #[trigger] rest[j],
    ) by {
        assert(order::before(os[i], os[j]));
    }
}

proof fn lemma_bottoms_ascend(
    d: DagView,
    m: SnapperModel,
    round: Round,
    parents: Seq<BlockRef>,
    os: Seq<SnapperObjectKey>,
)
    requires
        order::ascending(os),
    ensures
        ({
            let c = d.abandon_all(Casting::start(m), round, parents, os);
            &&& changes_ascend(c.changes)
            &&& forall|i: int|
                0 <= i < c.changes.len() ==> os.contains((#[trigger] c.changes[i]).object)
                    && c.changes[i].stance is Bottom
        }),
    decreases os.len(),
{
    if os.len() > 0 {
        let rest = os.drop_last();
        let last = os.last();
        lemma_ascending_rest(os);
        lemma_bottoms_ascend(d, m, round, parents, rest);
        let p = d.abandon_all(Casting::start(m), round, parents, rest);
        let c = d.abandon_all(Casting::start(m), round, parents, os);
        seqs::lemma_take_next(os, os.len() - 1);
        seqs::lemma_take_ends(os);
        assert(os.take(os.len() - 1) =~= rest);
        assert(os.contains(last));
        assert forall|i: int| 0 <= i < c.changes.len() implies os.contains(
            (#[trigger] c.changes[i]).object,
        ) && c.changes[i].stance is Bottom by {
            if i < p.changes.len() {
                assert(c.changes[i] == p.changes[i]);
                assert(rest.contains(p.changes[i].object));
            }
        }
        assert forall|i: int, j: int| 0 <= i < j < c.changes.len() implies change_before(
            #[trigger] c.changes[i],
            #[trigger] c.changes[j],
        ) by {
            assert(c.changes[i] == p.changes[i]);
            if j < p.changes.len() {
                assert(c.changes[j] == p.changes[j]);
            } else {
                assert(rest.contains(p.changes[i].object));
                lemma_last_is_greatest(os, p.changes[i].object);
            }
        }
    }
}

proof fn lemma_acks_ascend(
    a: Casting,
    recovery: Set<SnapperObjectKey>,
    os: Seq<SnapperObjectKey>,
)
    requires
        order::ascending(os),
        changes_ascend(a.changes),
        forall|i: int| 0 <= i < a.changes.len() ==> (#[trigger] a.changes[i]).stance is Bottom,
    ensures
        ({
            let c = a.acknowledge_all(recovery, os);
            &&& changes_ascend(c.changes)
            &&& a.changes.len() <= c.changes.len()
            &&& forall|i: int|
                0 <= i < c.changes.len() ==> (#[trigger] c.changes[i]).stance is Bottom
                    || os.contains(c.changes[i].object)
        }),
    decreases os.len(),
{
    if os.len() > 0 {
        let rest = os.drop_last();
        let last = os.last();
        lemma_ascending_rest(os);
        lemma_acks_ascend(a, recovery, rest);
        let p = a.acknowledge_all(recovery, rest);
        let c = a.acknowledge_all(recovery, os);
        seqs::lemma_take_next(os, os.len() - 1);
        seqs::lemma_take_ends(os);
        assert(os.take(os.len() - 1) =~= rest);
        assert(os.contains(last));
        assert forall|i: int| 0 <= i < c.changes.len() implies (#[trigger] c.changes[i]).stance
            is Bottom || os.contains(c.changes[i].object) by {
            if i < p.changes.len() {
                assert(c.changes[i] == p.changes[i]);
                if !(p.changes[i].stance is Bottom) {
                    assert(rest.contains(p.changes[i].object));
                }
            }
        }
        assert forall|i: int, j: int| 0 <= i < j < c.changes.len() implies change_before(
            #[trigger] c.changes[i],
            #[trigger] c.changes[j],
        ) by {
            assert(c.changes[i] == p.changes[i]);
            if j < p.changes.len() {
                assert(c.changes[j] == p.changes[j]);
            } else if !(p.changes[i].stance is Bottom) {
                assert(rest.contains(p.changes[i].object));
                lemma_last_is_greatest(os, p.changes[i].object);
            }
        }
    }
}

/// The changes of a proposed block are in order: first Bottom, then the
/// acknowledgements, each by ascending object version, so none twice.
pub proof fn stance_changes_are_in_order(
    d: DagView,
    m: SnapperModel,
    round: Round,
    parents: Seq<BlockRef>,
)
    requires
        m.finite(),
    ensures
        changes_ascend(d.cast_votes(m, round, parents).changes),
{
    let recovery = m.recovery();
    let os = order::sorted(recovery);
    state_laws::lemma_recovery_of_finite(m);
    order::lemma_sorted_lists(recovery);
    let a = d.abandon_all(Casting::start(m), round, parents, os);
    lemma_bottoms_ascend(d, m, round, parents, os);
    lemma_abandon_all(d, m, round, parents, os, arbitrary());
    order::lemma_sorted_lists(m.candidates.dom());
    lemma_acks_ascend(a, recovery, order::sorted(a.snapper.candidates.dom()));
}

} // verus!
