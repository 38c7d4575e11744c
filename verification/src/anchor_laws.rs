//! Laws of the fast path and of a committed anchor as a whole.
use vstd::prelude::*;

use crate::block;
use crate::block::VerifiedBlock;
use crate::committee;
use crate::dag;
use crate::dag::DagView;
use crate::graph_laws;
use crate::keys::{
    AuthorityIndex, BlockRef, Round, SnapperObjectKey, SnapperTransactionId, TransactionIndex,
};
use crate::order;
use crate::order_laws;
use crate::protocol::{SnapperObjectDecision, SnapperObjectStanceVote};
use crate::recovery;
use crate::resolution::Resolution;
use crate::seqs;
use crate::state;
use crate::state::SnapperModel;
use crate::state_laws;
use crate::tracker_laws;
use crate::tracker_model;
use crate::tracker_model::TrackerModel;

verus! {

/// From one state to the other only decisions were taken, and none revised.
pub open spec fn only_decides(m: SnapperModel, later: SnapperModel) -> bool {
    &&& m.evolves_to(later)
    &&& later.inputs == m.inputs
    &&& later.mixed == m.mixed
    &&& later.candidates == m.candidates
}

/// The changes list each object version once, and only decided ones.
pub open spec fn lists_once(r: Resolution) -> bool {
    &&& forall|i: int|
        0 <= i < r.changed.len() ==> r.snapper.resolved((#[trigger] r.changed[i]).0)
    &&& forall|i: int, j: int|
        0 <= i < j < r.changed.len() ==> (#[trigger] r.changed[i]).0 != (
        #[trigger] r.changed[j]).0
}

/// From one resolution to the other only decisions were taken, and the changes
/// tell exactly the new ones, each once, behind the earlier ones.
pub open spec fn continues(a: Resolution, b: Resolution) -> bool {
    &&& only_decides(a.snapper, b.snapper)
    &&& a.changed.len() <= b.changed.len()
    &&& b.changed.take(a.changed.len() as int) == a.changed
    &&& lists_once(a) ==> lists_once(b)
    &&& forall|o: SnapperObjectKey, x: SnapperObjectDecision| #[trigger]
        b.changed.contains((o, x)) <==> a.changed.contains((o, x)) || (a.snapper.decision(o) is None
            && b.snapper.decision(o) == Some(x))
}

proof fn lemma_continues_reflexive(a: Resolution)
    ensures
        continues(a, a),
{
    state_laws::evolution_is_reflexive(a.snapper);
    seqs::lemma_take_ends(a.changed);
}

proof fn lemma_continues_transitive(a: Resolution, b: Resolution, c: Resolution)
    requires
        continues(a, b),
        continues(b, c),
    ensures
        continues(a, c),
{
    state_laws::evolution_is_transitive(a.snapper, b.snapper, c.snapper);
    let n = a.changed.len() as int;
    assert(c.changed.take(n) =~= c.changed.take(b.changed.len() as int).take(n));
    assert forall|o: SnapperObjectKey, x: SnapperObjectDecision| #[trigger]
        c.changed.contains((o, x)) <==> a.changed.contains((o, x)) || (a.snapper.decision(o) is None
            && c.snapper.decision(o) == Some(x)) by {
        assert(b.changed.contains((o, x)) <==> a.changed.contains((o, x)) || (a.snapper.decision(o)
            is None && b.snapper.decision(o) == Some(x)));
        assert(a.snapper.decisions.contains_key(o) ==> b.snapper.decisions.contains_key(o));
        assert(b.snapper.decisions.contains_key(o) ==> c.snapper.decisions.contains_key(o)
            && c.snapper.decisions[o] == b.snapper.decisions[o]);
    }
}

/// What is newly decided is listed once.
proof fn lemma_newly_decided_once(
    inputs: Seq<SnapperObjectKey>,
    decisions: Map<SnapperObjectKey, SnapperObjectDecision>,
    decision: SnapperObjectDecision,
)
    ensures
        ({
            let listed = state::newly_decided(inputs, decisions, decision);
            forall|i: int, j: int|
                0 <= i < j < listed.len() ==> (#[trigger] listed[i]).0 != (#[trigger] listed[j]).0
        }),
    decreases inputs.len(),
{
    if inputs.len() > 0 {
        let rest = inputs.drop_last();
        lemma_newly_decided_once(rest, decisions, decision);
        let earlier = state::newly_decided(rest, decisions, decision);
        let listed = state::newly_decided(inputs, decisions, decision);
        assert forall|i: int, j: int| 0 <= i < j < listed.len() implies (#[trigger] listed[i]).0
            != (#[trigger] listed[j]).0 by {
            if j < earlier.len() {
                assert(listed[i] == earlier[i] && listed[j] == earlier[j]);
            } else {
                let (o, x) = earlier[i];
                assert(listed[i] == earlier[i]);
                assert(earlier.contains((o, x)));
                state_laws::lemma_newly_decided(rest, decisions, decision, o, x);
            }
        }
    }
}

/// Adding new decisions, each listed once, to what is listed once.
proof fn lemma_lists_once(
    r: Resolution,
    after: Resolution,
    changes: Seq<(SnapperObjectKey, SnapperObjectDecision)>,
)
    requires
        lists_once(r),
        only_decides(r.snapper, after.snapper),
        after.changed == r.changed + changes,
        forall|i: int|
            0 <= i < changes.len() ==> !r.snapper.resolved((#[trigger] changes[i]).0)
                && after.snapper.resolved(changes[i].0),
        forall|i: int, j: int|
            0 <= i < j < changes.len() ==> (#[trigger] changes[i]).0 != (#[trigger] changes[j]).0,
    ensures
        lists_once(after),
{
    let n = r.changed.len();
    assert forall|i: int| 0 <= i < after.changed.len() implies after.snapper.resolved(
        (#[trigger] after.changed[i]).0,
    ) by {
        if i < n {
            assert(after.changed[i] == r.changed[i]);
            assert(r.snapper.resolved(r.changed[i].0));
        } else {
            assert(after.changed[i] == changes[i - n]);
        }
    }
    assert forall|i: int, j: int| 0 <= i < j < after.changed.len() implies (
    #[trigger] after.changed[i]).0 != (#[trigger] after.changed[j]).0 by {
        if j < n {
            assert(after.changed[i] == r.changed[i] && after.changed[j] == r.changed[j]);
        } else if i < n {
            assert(after.changed[i] == r.changed[i] && after.changed[j] == changes[j - n]);
            assert(r.snapper.resolved(r.changed[i].0));
        } else {
            assert(after.changed[i] == changes[i - n] && after.changed[j] == changes[j - n]);
        }
    }
}

proof fn lemma_contains_added<T>(s: Seq<T>, t: Seq<T>, x: T)
    ensures
        (s + t).contains(x) <==> s.contains(x) || t.contains(x),
{
    let both = s + t;
    if s.contains(x) {
        let i = choose|i: int| 0 <= i < s.len() && s[i] == x;
        assert(both[i] == x);
    }
    if t.contains(x) {
        let i = choose|i: int| 0 <= i < t.len() && t[i] == x;
        assert(both[s.len() + i] == x);
    }
    if both.contains(x) {
        let i = choose|i: int| 0 <= i < both.len() && both[i] == x;
        if i < s.len() {
            assert(s[i] == x);
        } else {
            assert(t[i - s.len()] == x);
        }
    }
}

proof fn lemma_commit_continues(r: Resolution, t: SnapperTransactionId)
    ensures
        continues(r, r.commit(t)),
{
    state_laws::committing_evolves(r.snapper, t);
    let after = r.commit(t);
    let changes = r.snapper.commit_changes(t);
    assert(after.changed.take(r.changed.len() as int) =~= r.changed);
    let x0 = SnapperObjectDecision::Commit(t);
    assert forall|o: SnapperObjectKey, x: SnapperObjectDecision| #[trigger]
        after.changed.contains((o, x)) <==> r.changed.contains((o, x)) || (r.snapper.decision(o)
            is None && after.snapper.decision(o) == Some(x)) by {
        lemma_contains_added(r.changed, changes, (o, x));
        state_laws::lemma_newly_decided(r.snapper.inputs[t], r.snapper.decisions, x0, o, x);
        assert(!Seq::<(SnapperObjectKey, SnapperObjectDecision)>::empty().contains((o, x)));
    }
    if lists_once(r) {
        if r.snapper.can_commit(t) {
            lemma_newly_decided_once(r.snapper.inputs[t], r.snapper.decisions, x0);
            assert forall|i: int| 0 <= i < changes.len() implies !r.snapper.resolved(
                (#[trigger] changes[i]).0,
            ) && after.snapper.resolved(changes[i].0) by {
                let (o, x) = changes[i];
                assert(changes.contains((o, x)));
                state_laws::lemma_newly_decided(r.snapper.inputs[t], r.snapper.decisions, x0, o, x);
            }
        }
        lemma_lists_once(r, after, changes);
    }
}

proof fn lemma_release_continues(r: Resolution, object: SnapperObjectKey)
    ensures
        continues(r, r.release(object)),
{
    state_laws::releasing_evolves(r.snapper, object);
    let after = r.release(object);
    let changes = r.snapper.release_changes(object);
    assert(after.changed.take(r.changed.len() as int) =~= r.changed);
    assert forall|o: SnapperObjectKey, x: SnapperObjectDecision| #[trigger]
        after.changed.contains((o, x)) <==> r.changed.contains((o, x)) || (r.snapper.decision(o)
            is None && after.snapper.decision(o) == Some(x)) by {
        lemma_contains_added(r.changed, changes, (o, x));
        if r.snapper.resolved(object) {
            assert(!changes.contains((o, x)));
        } else {
            assert(changes[0] == (object, SnapperObjectDecision::Release));
            assert(changes.contains((o, x)) <==> (o, x) == (
                object,
                SnapperObjectDecision::Release,
            ));
        }
    }
    if lists_once(r) {
        lemma_lists_once(r, after, changes);
    }
}

/// The transaction can no longer be committed, or is committed on every input.
pub open spec fn settled(m: SnapperModel, t: SnapperTransactionId) -> bool {
    !m.can_commit(t) || m.committed_everywhere(t)
}

/// What can be committed later could be committed before.
proof fn lemma_can_commit_before(m: SnapperModel, later: SnapperModel, t: SnapperTransactionId)
    requires
        only_decides(m, later),
        later.can_commit(t),
    ensures
        m.can_commit(t),
{
    if !m.can_commit(t) {
        assert(m.dead(t));
        state_laws::dead_transactions_stay_dead(m, later, t);
    }
}

/// What is committed everywhere can be committed again.
proof fn lemma_committed_can_commit(m: SnapperModel, t: SnapperTransactionId)
    requires
        m.inputs.contains_key(t),
        m.committed_everywhere(t),
    ensures
        m.can_commit(t),
{
    assert forall|o: SnapperObjectKey| m.inputs[t].contains(o) implies !m.decides_against(o, t) by {
        assert(m.decision(o) == Some(SnapperObjectDecision::Commit(t)));
    }
}

proof fn lemma_committed_stays(m: SnapperModel, later: SnapperModel, t: SnapperTransactionId)
    requires
        only_decides(m, later),
        m.committed_everywhere(t),
    ensures
        later.committed_everywhere(t),
{
    assert forall|o: SnapperObjectKey| #[trigger] later.inputs[t].contains(o) implies later.decision(
        o,
    ) == Some(SnapperObjectDecision::Commit(t)) by {
        assert(m.inputs[t].contains(o));
        assert(m.decisions.contains_key(o));
    }
}

proof fn lemma_settled_stays(m: SnapperModel, later: SnapperModel, t: SnapperTransactionId)
    requires
        only_decides(m, later),
        settled(m, t),
    ensures
        settled(later, t),
{
    if later.can_commit(t) {
        lemma_can_commit_before(m, later, t);
        lemma_committed_stays(m, later, t);
    }
}

proof fn lemma_commit_settles(m: SnapperModel, t: SnapperTransactionId)
    ensures
        settled(m.with_commit(t), t),
        m.can_commit(t) ==> m.with_commit(t).committed_everywhere(t),
{
    if m.can_commit(t) {
        state_laws::commit_is_atomic(m, t);
    }
}

/// Committing what is settled changes nothing.
proof fn lemma_commit_settled(r: Resolution, t: SnapperTransactionId)
    requires
        settled(r.snapper, t),
    ensures
        r.commit(t) == r,
{
    let m = r.snapper;
    let changes = m.commit_changes(t);
    if m.can_commit(t) {
        let x0 = SnapperObjectDecision::Commit(t);
        assert forall|o: SnapperObjectKey| m.inputs[t].contains(o) implies m.decisions.contains_key(
            o,
        ) by {
            assert(m.decision(o) == Some(x0));
        }
        assert(m.with_commit(t) =~= m);
        if changes.len() > 0 {
            let (o, x) = changes[0];
            assert(changes.contains((o, x)));
            state_laws::lemma_newly_decided(m.inputs[t], m.decisions, x0, o, x);
        }
    }
    assert(changes =~= Seq::empty());
    assert(r.commit(t).changed =~= r.changed);
}

proof fn lemma_commit_all(r: Resolution, ts: Seq<SnapperTransactionId>)
    ensures
        continues(r, r.commit_all(ts)),
        forall|i: int| 0 <= i < ts.len() ==> settled(r.commit_all(ts).snapper, #[trigger] ts[i]),
    decreases ts.len(),
{
    if ts.len() == 0 {
        lemma_continues_reflexive(r);
    } else {
        let rest = ts.drop_last();
        lemma_commit_all(r, rest);
        let before = r.commit_all(rest);
        let after = r.commit_all(ts);
        lemma_commit_continues(before, ts.last());
        lemma_continues_transitive(r, before, after);
        lemma_commit_settles(before.snapper, ts.last());
        assert forall|i: int| 0 <= i < ts.len() implies settled(after.snapper, #[trigger] ts[i]) by {
            if i < rest.len() {
                assert(rest[i] == ts[i]);
                lemma_settled_stays(before.snapper, after.snapper, ts[i]);
            }
        }
    }
}

proof fn lemma_commit_all_settled(r: Resolution, ts: Seq<SnapperTransactionId>)
    requires
        forall|i: int| 0 <= i < ts.len() ==> settled(r.snapper, #[trigger] ts[i]),
    ensures
        r.commit_all(ts) == r,
    decreases ts.len(),
{
    if ts.len() > 0 {
        let rest = ts.drop_last();
        assert forall|i: int| 0 <= i < rest.len() implies settled(r.snapper, #[trigger] rest[i]) by {
            assert(rest[i] == ts[i]);
        }
        lemma_commit_all_settled(r, rest);
        assert(settled(r.snapper, ts[ts.len() - 1]));
        lemma_commit_settled(r, ts.last());
    }
}

proof fn lemma_release_all(r: Resolution, os: Seq<SnapperObjectKey>)
    ensures
        continues(r, r.release_all(os)),
        forall|i: int| 0 <= i < os.len() ==> r.release_all(os).snapper.resolved(#[trigger] os[i]),
    decreases os.len(),
{
    if os.len() == 0 {
        lemma_continues_reflexive(r);
    } else {
        let rest = os.drop_last();
        lemma_release_all(r, rest);
        let before = r.release_all(rest);
        let after = r.release_all(os);
        lemma_release_continues(before, os.last());
        lemma_continues_transitive(r, before, after);
        assert forall|i: int| 0 <= i < os.len() implies after.snapper.resolved(
            #[trigger] os[i],
        ) by {
            if i < rest.len() {
                assert(rest[i] == os[i]);
                assert(before.snapper.resolved(rest[i]));
            }
        }
    }
}

/// The fast path has nothing left to decide in a round.
spec fn round_settled(d: DagView, m: SnapperModel, n: Round) -> bool {
    &&& forall|t: SnapperTransactionId|
        order::sorted(m.inputs.dom()).contains(t) && !m.mixed.contains(t)
            && #[trigger] d.commit_certified(m.inputs, n, t) ==> settled(m, t)
    &&& forall|o: SnapperObjectKey|
        order::sorted(m.candidates.dom()).contains(o) && #[trigger] d.skip_certified(n, o)
            ==> m.resolved(o)
}

proof fn lemma_round_settled_stays(d: DagView, m: SnapperModel, later: SnapperModel, n: Round)
    requires
        only_decides(m, later),
        round_settled(d, m, n),
    ensures
        round_settled(d, later, n),
{
    assert forall|t: SnapperTransactionId|
        order::sorted(later.inputs.dom()).contains(t) && !later.mixed.contains(t)
            && #[trigger] d.commit_certified(later.inputs, n, t) implies settled(later, t) by {
        assert(d.commit_certified(m.inputs, n, t));
        lemma_settled_stays(m, later, t);
    }
    assert forall|o: SnapperObjectKey|
        order::sorted(later.candidates.dom()).contains(o) && #[trigger] d.skip_certified(
            n,
            o,
        ) implies later.resolved(o) by {
        assert(m.resolved(o));
    }
}

proof fn lemma_decide_round(d: DagView, r: Resolution, n: Round)
    ensures
        continues(r, d.decide_round(r, n)),
        round_settled(d, d.decide_round(r, n).snapper, n),
{
    let m = r.snapper;
    let ids = order::sorted(m.inputs.dom());
    let commits = d.fast_commits(m, n);
    let committed = r.commit_all(commits);
    let releases = d.fast_releases(committed.snapper, n);
    let after = committed.release_all(releases);
    lemma_commit_all(r, commits);
    lemma_release_all(committed, releases);
    lemma_continues_transitive(r, committed, after);
    let s = after.snapper;
    assert forall|t: SnapperTransactionId|
        order::sorted(s.inputs.dom()).contains(t) && !s.mixed.contains(t)
            && #[trigger] d.commit_certified(s.inputs, n, t) implies settled(s, t) by {
        if m.can_commit(t) {
            let wanted = |t: SnapperTransactionId|
                m.may_go_fast(t) && d.commit_certified(m.inputs, n, t);
            seqs::lemma_filter_members(ids, wanted, t);
            let i = choose|i: int| 0 <= i < commits.len() && commits[i] == t;
            assert(settled(committed.snapper, commits[i]));
            lemma_settled_stays(committed.snapper, s, t);
        } else {
            lemma_settled_stays(m, s, t);
        }
    }
    let objects = order::sorted(committed.snapper.candidates.dom());
    assert forall|o: SnapperObjectKey|
        order::sorted(s.candidates.dom()).contains(o) && #[trigger] d.skip_certified(
            n,
            o,
        ) implies s.resolved(o) by {
        if !committed.snapper.resolved(o) {
            let wanted = |o: SnapperObjectKey|
                !committed.snapper.resolved(o) && d.skip_certified(n, o);
            seqs::lemma_filter_members(objects, wanted, o);
            let i = choose|i: int| 0 <= i < releases.len() && releases[i] == o;
            assert(s.resolved(releases[i]));
        }
    }
}

proof fn lemma_decide_round_settled(d: DagView, r: Resolution, n: Round)
    requires
        round_settled(d, r.snapper, n),
    ensures
        d.decide_round(r, n) == r,
{
    let m = r.snapper;
    let ids = order::sorted(m.inputs.dom());
    let commits = d.fast_commits(m, n);
    let committable = |t: SnapperTransactionId|
        m.may_go_fast(t) && d.commit_certified(m.inputs, n, t);
    assert forall|i: int| 0 <= i < commits.len() implies settled(m, #[trigger] commits[i]) by {
        assert(commits.contains(commits[i]));
        seqs::lemma_filter_members(ids, committable, commits[i]);
    }
    lemma_commit_all_settled(r, commits);
    let releases = d.fast_releases(m, n);
    let objects = order::sorted(m.candidates.dom());
    let releasable = |o: SnapperObjectKey| !m.resolved(o) && d.skip_certified(n, o);
    if releases.len() > 0 {
        assert(releases.contains(releases[0]));
        seqs::lemma_filter_members(objects, releasable, releases[0]);
    }
}

proof fn lemma_decide_rounds(d: DagView, r: Resolution, rounds: Seq<Round>)
    ensures
        continues(r, d.decide_rounds(r, rounds)),
        forall|i: int|
            0 <= i < rounds.len() ==> round_settled(
                d,
                d.decide_rounds(r, rounds).snapper,
                #[trigger] rounds[i],
            ),
    decreases rounds.len(),
{
    if rounds.len() == 0 {
        lemma_continues_reflexive(r);
    } else {
        let rest = rounds.drop_last();
        lemma_decide_rounds(d, r, rest);
        let before = d.decide_rounds(r, rest);
        let after = d.decide_rounds(r, rounds);
        lemma_decide_round(d, before, rounds.last());
        lemma_continues_transitive(r, before, after);
        assert forall|i: int| 0 <= i < rounds.len() implies round_settled(
            d,
            after.snapper,
            #[trigger] rounds[i],
        ) by {
            if i < rest.len() {
                assert(rest[i] == rounds[i]);
                lemma_round_settled_stays(d, before.snapper, after.snapper, rounds[i]);
            }
        }
    }
}

proof fn lemma_decide_rounds_settled(d: DagView, r: Resolution, rounds: Seq<Round>)
    requires
        forall|i: int| 0 <= i < rounds.len() ==> round_settled(d, r.snapper, #[trigger] rounds[i]),
    ensures
        d.decide_rounds(r, rounds) == r,
    decreases rounds.len(),
{
    if rounds.len() > 0 {
        let rest = rounds.drop_last();
        assert forall|i: int| 0 <= i < rest.len() implies round_settled(
            d,
            r.snapper,
            #[trigger] rest[i],
        ) by {
            assert(rest[i] == rounds[i]);
        }
        lemma_decide_rounds_settled(d, r, rest);
        assert(round_settled(d, r.snapper, rounds[rounds.len() - 1]));
        lemma_decide_round_settled(d, r, rounds.last());
    }
}

/// A second pass of the fast path decides nothing.
pub proof fn second_fast_pass_decides_nothing(d: DagView, m: SnapperModel)
    ensures
        d.fast_decisions(d.fast_decisions(m).snapper) == Resolution::start(
            d.fast_decisions(m).snapper,
        ),
{
    let rounds = order::sorted(d.rounds());
    lemma_decide_rounds(d, Resolution::start(m), rounds);
    lemma_decide_rounds_settled(d, Resolution::start(d.fast_decisions(m).snapper), rounds);
}

/// The anchor has nothing left to finalize of the transaction.
spec fn finalization_settled(
    d: DagView,
    m: SnapperModel,
    anchor: BlockRef,
    t: SnapperTransactionId,
) -> bool {
    d.finalizes(m, anchor, t) ==> settled(m, t)
}

proof fn lemma_finalization_settled_stays(
    d: DagView,
    m: SnapperModel,
    later: SnapperModel,
    anchor: BlockRef,
    t: SnapperTransactionId,
)
    requires
        only_decides(m, later),
        finalization_settled(d, m, anchor, t),
    ensures
        finalization_settled(d, later, anchor, t),
{
    if d.finalizes(later, anchor, t) {
        lemma_can_commit_before(m, later, t);
        assert(d.finalizes(m, anchor, t));
        lemma_settled_stays(m, later, t);
    }
}

proof fn lemma_finalize_all(
    d: DagView,
    r: Resolution,
    anchor: BlockRef,
    ts: Seq<SnapperTransactionId>,
)
    ensures
        continues(r, d.finalize_all(r, anchor, ts)),
        forall|i: int|
            0 <= i < ts.len() ==> finalization_settled(
                d,
                d.finalize_all(r, anchor, ts).snapper,
                anchor,
                #[trigger] ts[i],
            ),
        forall|o: SnapperObjectKey|
            r.snapper.decision(o) is None ==> (#[trigger] d.finalize_all(
                r,
                anchor,
                ts,
            ).snapper.decision(o)) != Some(SnapperObjectDecision::Release),
    decreases ts.len(),
{
    if ts.len() == 0 {
        lemma_continues_reflexive(r);
    } else {
        let rest = ts.drop_last();
        let t = ts.last();
        lemma_finalize_all(d, r, anchor, rest);
        let before = d.finalize_all(r, anchor, rest);
        let after = d.finalize_all(r, anchor, ts);
        lemma_commit_continues(before, t);
        lemma_commit_settles(before.snapper, t);
        lemma_continues_reflexive(before);
        lemma_continues_transitive(r, before, after);
        assert forall|i: int| 0 <= i < ts.len() implies finalization_settled(
            d,
            after.snapper,
            anchor,
            #[trigger] ts[i],
        ) by {
            if i < rest.len() {
                assert(rest[i] == ts[i]);
                lemma_finalization_settled_stays(
                    d,
                    before.snapper,
                    after.snapper,
                    anchor,
                    ts[i],
                );
            }
        }
        assert forall|o: SnapperObjectKey| r.snapper.decision(o) is None implies (
        #[trigger] after.snapper.decision(o)) != Some(SnapperObjectDecision::Release) by {
            assert(before.snapper.decision(o) != Some(SnapperObjectDecision::Release));
        }
    }
}

proof fn lemma_finalize_all_settled(
    d: DagView,
    r: Resolution,
    anchor: BlockRef,
    ts: Seq<SnapperTransactionId>,
)
    requires
        forall|i: int|
            0 <= i < ts.len() ==> finalization_settled(d, r.snapper, anchor, #[trigger] ts[i]),
    ensures
        d.finalize_all(r, anchor, ts) == r,
    decreases ts.len(),
{
    if ts.len() > 0 {
        let rest = ts.drop_last();
        assert forall|i: int| 0 <= i < rest.len() implies finalization_settled(
            d,
            r.snapper,
            anchor,
            #[trigger] rest[i],
        ) by {
            assert(rest[i] == ts[i]);
        }
        lemma_finalize_all_settled(d, r, anchor, rest);
        assert(finalization_settled(d, r.snapper, anchor, ts[ts.len() - 1]));
        if d.finalizes(r.snapper, anchor, ts.last()) {
            lemma_commit_settled(r, ts.last());
        }
    }
}

/// What a narrower filter keeps of the first item that a wider one keeps.
proof fn lemma_first_stays<T>(
    s: Seq<T>,
    wide: spec_fn(T) -> bool,
    narrow: spec_fn(T) -> bool,
)
    requires
        forall|x: T| #[trigger] narrow(x) ==> wide(x),
        s.filter(wide).len() > 0,
        narrow(s.filter(wide)[0]),
    ensures
        s.filter(narrow).len() > 0,
        s.filter(narrow)[0] == s.filter(wide)[0],
    decreases s.len(),
{
    reveal(Seq::filter);
    if s.len() > 0 {
        let rest = s.drop_last();
        if rest.filter(wide).len() > 0 {
            lemma_first_stays(rest, wide, narrow);
        } else {
            lemma_nothing_stays(rest, wide, narrow);
        }
    }
}

/// Where a wider filter keeps nothing, a narrower one keeps nothing.
proof fn lemma_nothing_stays<T>(
    s: Seq<T>,
    wide: spec_fn(T) -> bool,
    narrow: spec_fn(T) -> bool,
)
    requires
        forall|x: T| #[trigger] narrow(x) ==> wide(x),
        s.filter(wide).len() == 0,
    ensures
        s.filter(narrow).len() == 0,
{
    let kept = s.filter(narrow);
    if kept.len() > 0 {
        assert(kept.contains(kept[0]));
        seqs::lemma_filter_members(s, narrow, kept[0]);
        seqs::lemma_filter_members(s, wide, kept[0]);
    }
}

/// The anchor has nothing left to resolve of the object version.
spec fn object_settled(
    d: DagView,
    m: SnapperModel,
    anchor: BlockRef,
    o: SnapperObjectKey,
) -> bool {
    let certified = d.certified_at(m, anchor, o);
    ||| m.resolved(o)
    ||| certified.len() > 0 && m.inputs.contains_key(certified[0]) && m.committed_everywhere(
        certified[0],
    )
    ||| certified.len() == 0 && !d.has_opposing_cert(anchor, o)
}

/// Of the certified candidates, the first stays the first while it can be
/// committed.
proof fn lemma_certified_later(
    d: DagView,
    m: SnapperModel,
    later: SnapperModel,
    anchor: BlockRef,
    o: SnapperObjectKey,
)
    requires
        only_decides(m, later),
    ensures
        d.certified_at(m, anchor, o).len() == 0 ==> d.certified_at(later, anchor, o).len() == 0,
        d.certified_at(m, anchor, o).len() > 0 && later.can_commit(
            d.certified_at(m, anchor, o)[0],
        ) ==> d.certified_at(later, anchor, o).len() > 0 && d.certified_at(later, anchor, o)[0]
            == d.certified_at(m, anchor, o)[0],
{
    let candidates = order::sorted(d.visible_candidates(anchor, o));
    let wide = |t: SnapperTransactionId| m.can_commit(t) && d.has_cert(m.inputs, anchor, t);
    let narrow = |t: SnapperTransactionId|
        later.can_commit(t) && d.has_cert(later.inputs, anchor, t);
    assert forall|t: SnapperTransactionId| #[trigger] narrow(t) implies wide(t) by {
        lemma_can_commit_before(m, later, t);
    }
    let certified = d.certified_at(m, anchor, o);
    if certified.len() == 0 {
        lemma_nothing_stays(candidates, wide, narrow);
    } else if later.can_commit(certified[0]) {
        assert(certified.contains(certified[0]));
        seqs::lemma_filter_members(candidates, wide, certified[0]);
        assert(narrow(certified[0]));
        lemma_first_stays(candidates, wide, narrow);
    }
}

proof fn lemma_object_settled_stays(
    d: DagView,
    m: SnapperModel,
    later: SnapperModel,
    anchor: BlockRef,
    o: SnapperObjectKey,
)
    requires
        only_decides(m, later),
        object_settled(d, m, anchor, o),
    ensures
        object_settled(d, later, anchor, o),
{
    let certified = d.certified_at(m, anchor, o);
    if m.resolved(o) {
        assert(later.resolved(o));
    } else {
        if certified.len() > 0 {
            lemma_committed_stays(m, later, certified[0]);
            lemma_committed_can_commit(later, certified[0]);
        }
        lemma_certified_later(d, m, later, anchor, o);
    }
}

/// What the certified candidates are.
proof fn lemma_certified_first(d: DagView, m: SnapperModel, anchor: BlockRef, o: SnapperObjectKey)
    requires
        d.certified_at(m, anchor, o).len() > 0,
    ensures
        m.can_commit(d.certified_at(m, anchor, o)[0]),
        d.has_cert(m.inputs, anchor, d.certified_at(m, anchor, o)[0]),
{
    let certified = d.certified_at(m, anchor, o);
    let candidates = order::sorted(d.visible_candidates(anchor, o));
    let wanted = |t: SnapperTransactionId| m.can_commit(t) && d.has_cert(m.inputs, anchor, t);
    assert(certified.contains(certified[0]));
    seqs::lemma_filter_members(candidates, wanted, certified[0]);
}

proof fn lemma_resolve_object(d: DagView, r: Resolution, anchor: BlockRef, o: SnapperObjectKey)
    ensures
        continues(r, d.resolve_object(r, anchor, o)),
        object_settled(d, d.resolve_object(r, anchor, o).snapper, anchor, o),
{
    let m = r.snapper;
    let certified = d.certified_at(m, anchor, o);
    let after = d.resolve_object(r, anchor, o);
    lemma_continues_reflexive(r);
    if m.resolved(o) {
    } else if certified.len() > 0 {
        let t = certified[0];
        lemma_certified_first(d, m, anchor, o);
        lemma_commit_continues(r, t);
        lemma_commit_settles(m, t);
        lemma_committed_can_commit(after.snapper, t);
        lemma_certified_later(d, m, after.snapper, anchor, o);
    } else if d.has_opposing_cert(anchor, o) {
        lemma_release_continues(r, o);
    }
}

proof fn lemma_resolve_all(
    d: DagView,
    r: Resolution,
    anchor: BlockRef,
    os: Seq<SnapperObjectKey>,
)
    ensures
        continues(r, d.resolve_all(r, anchor, os)),
        forall|i: int|
            0 <= i < os.len() ==> object_settled(
                d,
                d.resolve_all(r, anchor, os).snapper,
                anchor,
                #[trigger] os[i],
            ),
    decreases os.len(),
{
    if os.len() == 0 {
        lemma_continues_reflexive(r);
    } else {
        let rest = os.drop_last();
        lemma_resolve_all(d, r, anchor, rest);
        let before = d.resolve_all(r, anchor, rest);
        let after = d.resolve_all(r, anchor, os);
        lemma_resolve_object(d, before, anchor, os.last());
        lemma_continues_transitive(r, before, after);
        assert forall|i: int| 0 <= i < os.len() implies object_settled(
            d,
            after.snapper,
            anchor,
            #[trigger] os[i],
        ) by {
            if i < rest.len() {
                assert(rest[i] == os[i]);
                lemma_object_settled_stays(d, before.snapper, after.snapper, anchor, os[i]);
            }
        }
    }
}

proof fn lemma_resolve_all_settled(
    d: DagView,
    r: Resolution,
    anchor: BlockRef,
    os: Seq<SnapperObjectKey>,
)
    requires
        forall|i: int|
            0 <= i < os.len() ==> object_settled(d, r.snapper, anchor, #[trigger] os[i]),
    ensures
        d.resolve_all(r, anchor, os) == r,
    decreases os.len(),
{
    if os.len() > 0 {
        let rest = os.drop_last();
        assert forall|i: int| 0 <= i < rest.len() implies object_settled(
            d,
            r.snapper,
            anchor,
            #[trigger] rest[i],
        ) by {
            assert(rest[i] == os[i]);
        }
        lemma_resolve_all_settled(d, r, anchor, rest);
        assert(object_settled(d, r.snapper, anchor, os[os.len() - 1]));
        let certified = d.certified_at(r.snapper, anchor, os.last());
        if certified.len() > 0 && r.snapper.committed_everywhere(certified[0]) {
            lemma_commit_settled(r, certified[0]);
        }
    }
}

/// The changes that the fast path gives are exactly the new decisions, and list
/// each object version once.
pub proof fn fast_changes_tell_all(
    d: DagView,
    m: SnapperModel,
    o: SnapperObjectKey,
    x: SnapperObjectDecision,
)
    ensures
        d.fast_decisions(m).changed.contains((o, x)) <==> m.decision(o) is None
            && d.fast_decisions(m).snapper.decision(o) == Some(x),
        lists_once(d.fast_decisions(m)),
{
    lemma_decide_rounds(d, Resolution::start(m), order::sorted(d.rounds()));
    assert(!Resolution::start(m).changed.contains((o, x)));
    assert(lists_once(Resolution::start(m)));
}

/// The changes that a committed anchor gives are exactly the new decisions, and
/// list each object version once.
pub proof fn anchor_changes_tell_all(
    d: DagView,
    m: SnapperModel,
    anchor: BlockRef,
    o: SnapperObjectKey,
    x: SnapperObjectDecision,
)
    ensures
        d.resolve_anchor(m, anchor).changed.contains((o, x)) <==> m.decision(o) is None
            && d.resolve_anchor(m, anchor).snapper.decision(o) == Some(x),
        lists_once(d.resolve_anchor(m, anchor)),
{
    lemma_resolve_anchor(d, m, anchor);
    assert(!Resolution::start(m).changed.contains((o, x)));
    assert(lists_once(Resolution::start(m)));
}

/// A mixed transaction takes no fast route: whatever certificates there are, the
/// fast path commits it on no object version.
pub proof fn mixed_transaction_takes_no_fast_route(
    d: DagView,
    m: SnapperModel,
    t: SnapperTransactionId,
    o: SnapperObjectKey,
)
    requires
        m.mixed.contains(t),
    ensures
        !d.fast_decisions(m).changed.contains((o, SnapperObjectDecision::Commit(t))),
        d.fast_decisions(m).snapper.decision(o) == Some(SnapperObjectDecision::Commit(t))
            ==> m.decision(o) == Some(SnapperObjectDecision::Commit(t)),
{
    let x = SnapperObjectDecision::Commit(t);
    let after = d.fast_decisions(m).snapper;
    fast_changes_tell_all(d, m, o, x);
    tracker_laws::fast_decisions_need_a_quorum(d, m);
    lemma_decide_rounds(d, Resolution::start(m), order::sorted(d.rounds()));
    if after.decision(o) == Some(x) && m.decision(o) is None {
        assert(tracker_laws::decision_certified(d, m, o, x));
    }
    if m.decision(o) is Some {
        assert(m.decisions.contains_key(o));
    }
}

/// Preparing the votes of a proposed block commits no mixed transaction: only a
/// committed anchor does.
pub proof fn proposing_commits_no_mixed_transaction(
    m: TrackerModel,
    round: Round,
    parents: Seq<BlockRef>,
    refs: Seq<BlockRef>,
    transactions: Seq<block::TransactionView>,
    t: SnapperTransactionId,
    o: SnapperObjectKey,
)
    requires
        m.before_casting(parents, refs, transactions).snapper.mixed.contains(t),
    ensures
        ({
            let before = m.before_casting(parents, refs, transactions);
            let after = before.dag.cast_votes(before.snapper, round, parents).snapper;
            after.decision(o) == Some(SnapperObjectDecision::Commit(t)) ==> m.snapper.decision(o)
                == Some(SnapperObjectDecision::Commit(t))
        }),
{
    let linked = order::sorted(tracker_model::linked(m.dag, parents, refs));
    let taken_in = m.with_processed(linked);
    let recorded = dag::after_transactions(taken_in.snapper, transactions);
    let before = m.before_casting(parents, refs, transactions);
    let votes = before.dag.cast_votes(before.snapper, round, parents);
    lemma_processing_decides_nothing(m, linked);
    lemma_recording_decides_nothing(taken_in.snapper, transactions);
    lemma_decide_rounds(m.dag, Resolution::start(recorded), order::sorted(m.dag.rounds()));
    mixed_transaction_takes_no_fast_route(m.dag, recorded, t, o);
    tracker_laws::stance_changes_tell_all(before.dag, before.snapper, round, parents);
    lemma_declaring_decides_nothing(before.snapper, before.snapper.own, votes.changes);
}

proof fn lemma_recording_decides_nothing(
    m: SnapperModel,
    transactions: Seq<block::TransactionView>,
)
    ensures
        dag::after_transactions(m, transactions).decisions == m.decisions,
    decreases transactions.len(),
{
    if transactions.len() > 0 {
        lemma_recording_decides_nothing(m, transactions.drop_last());
    }
}

proof fn lemma_declaring_decides_nothing(
    m: SnapperModel,
    author: AuthorityIndex,
    votes: Seq<SnapperObjectStanceVote>,
)
    ensures
        tracker_model::after_stances(m, author, votes).decisions == m.decisions,
    decreases votes.len(),
{
    if votes.len() > 0 {
        lemma_declaring_decides_nothing(m, author, votes.drop_last());
    }
}

proof fn lemma_processing_decides_nothing(m: TrackerModel, refs: Seq<BlockRef>)
    ensures
        m.with_processed(refs).snapper.decisions == m.snapper.decisions,
    decreases refs.len(),
{
    if refs.len() > 0 {
        lemma_processing_decides_nothing(m, refs.drop_last());
        let before = m.with_processed(refs.drop_last());
        let b = m.dag.blocks[refs.last()];
        let recorded = dag::after_transactions(before.snapper, b.transactions);
        lemma_recording_decides_nothing(before.snapper, b.transactions);
        lemma_declaring_decides_nothing(recorded, b.reference.author, b.stance_votes);
    }
}

/// A committed anchor finalizes every recorded transaction, mixed or not, that
/// is in its history with a certificate and has no input in recovery there: it
/// is then committed on every input, or dead.
pub proof fn anchor_finalizes_certified_transactions(
    d: DagView,
    m: SnapperModel,
    anchor: BlockRef,
    t: SnapperTransactionId,
)
    requires
        m.inputs.dom().finite(),
        m.inputs.contains_key(t),
        d.includes(anchor, t),
        d.has_cert(m.inputs, anchor, t),
        forall|o: SnapperObjectKey|
            m.inputs[t].contains(o) ==> !#[trigger] d.recovery_objects_at(anchor).contains(o),
    ensures
        ({
            let after = d.resolve_anchor(m, anchor).snapper;
            after.dead(t) || after.committed_everywhere(t)
        }),
{
    let start = Resolution::start(m);
    let fast = d.fast_decisions(m);
    let ids = order::sorted(fast.snapper.inputs.dom());
    let finalized = d.finalize_all(fast, anchor, ids);
    let after = d.resolve_anchor(m, anchor);
    lemma_decide_rounds(d, start, order::sorted(d.rounds()));
    lemma_finalize_all(d, fast, anchor, ids);
    lemma_resolve_all(d, finalized, anchor, order::sorted(d.recovery_objects_at(anchor)));
    order::lemma_sorted_lists(m.inputs.dom());
    assert(ids.to_set().contains(t));
    let i = choose|i: int| 0 <= i < ids.len() && ids[i] == t;
    assert(finalization_settled(d, finalized.snapper, anchor, ids[i]));
    lemma_finalization_settled_stays(d, finalized.snapper, after.snapper, anchor, t);
    state_laws::can_commit_unless_dead(after.snapper, t);
}

proof fn lemma_resolve_anchor(d: DagView, m: SnapperModel, anchor: BlockRef)
    ensures
        continues(Resolution::start(m), d.resolve_anchor(m, anchor)),
        continues(d.fast_decisions(m), d.resolve_anchor(m, anchor)),
{
    let start = Resolution::start(m);
    let fast = d.fast_decisions(m);
    let ids = order::sorted(fast.snapper.inputs.dom());
    let finalized = d.finalize_all(fast, anchor, ids);
    let objects = order::sorted(d.recovery_objects_at(anchor));
    let after = d.resolve_anchor(m, anchor);
    lemma_decide_rounds(d, start, order::sorted(d.rounds()));
    lemma_finalize_all(d, fast, anchor, ids);
    lemma_resolve_all(d, finalized, anchor, objects);
    lemma_continues_transitive(fast, finalized, after);
    lemma_continues_transitive(start, fast, after);
}

/// A committed anchor that is resolved again decides nothing.
pub proof fn second_resolution_decides_nothing(d: DagView, m: SnapperModel, anchor: BlockRef)
    ensures
        d.resolve_anchor(d.resolve_anchor(m, anchor).snapper, anchor) == Resolution::start(
            d.resolve_anchor(m, anchor).snapper,
        ),
{
    let start = Resolution::start(m);
    let rounds = order::sorted(d.rounds());
    let fast = d.fast_decisions(m);
    let ids = order::sorted(fast.snapper.inputs.dom());
    let finalized = d.finalize_all(fast, anchor, ids);
    let objects = order::sorted(d.recovery_objects_at(anchor));
    let after = d.resolve_anchor(m, anchor);
    let n = after.snapper;
    lemma_decide_rounds(d, start, rounds);
    lemma_finalize_all(d, fast, anchor, ids);
    lemma_resolve_all(d, finalized, anchor, objects);
    lemma_continues_transitive(fast, finalized, after);
    assert forall|i: int| 0 <= i < rounds.len() implies round_settled(
        d,
        n,
        #[trigger] rounds[i],
    ) by {
        lemma_round_settled_stays(d, fast.snapper, n, rounds[i]);
    }
    assert forall|i: int| 0 <= i < ids.len() implies finalization_settled(
        d,
        n,
        anchor,
        #[trigger] ids[i],
    ) by {
        lemma_finalization_settled_stays(d, finalized.snapper, n, anchor, ids[i]);
    }
    let again = Resolution::start(n);
    lemma_decide_rounds_settled(d, again, rounds);
    lemma_finalize_all_settled(d, again, anchor, ids);
    lemma_resolve_all_settled(d, again, anchor, objects);
}

/// An input of the transaction other than the object version is decided against
/// it.
pub open spec fn blocked_elsewhere(
    m: SnapperModel,
    object: SnapperObjectKey,
    t: SnapperTransactionId,
) -> bool {
    exists|p: SnapperObjectKey|
        p != object && m.inputs[t].contains(p) && #[trigger] m.decides_against(p, t)
}

proof fn lemma_blocked_stays(
    m: SnapperModel,
    later: SnapperModel,
    object: SnapperObjectKey,
    t: SnapperTransactionId,
)
    requires
        only_decides(m, later),
        blocked_elsewhere(m, object, t),
    ensures
        blocked_elsewhere(later, object, t),
{
    let p = choose|p: SnapperObjectKey|
        p != object && m.inputs[t].contains(p) && #[trigger] m.decides_against(p, t);
    assert(m.decisions.contains_key(p));
    assert(later.decides_against(p, t));
}

/// Why an object version was released on the way through those in recovery.
proof fn lemma_resolve_all_releases(
    d: DagView,
    r: Resolution,
    anchor: BlockRef,
    os: Seq<SnapperObjectKey>,
    o: SnapperObjectKey,
)
    requires
        r.snapper.decision(o) is None,
        d.resolve_all(r, anchor, os).snapper.decision(o) == Some(SnapperObjectDecision::Release),
    ensures
        os.contains(o),
        d.has_opposing_cert(anchor, o),
        forall|t: SnapperTransactionId|
            order::sorted(d.visible_candidates(anchor, o)).contains(t) && #[trigger] d.has_cert(
                r.snapper.inputs,
                anchor,
                t,
            ) && r.snapper.inputs.contains_key(t) ==> blocked_elsewhere(
                d.resolve_all(r, anchor, os).snapper,
                o,
                t,
            ),
    decreases os.len(),
{
    let rest = os.drop_last();
    let before = d.resolve_all(r, anchor, rest);
    let after = d.resolve_all(r, anchor, os);
    let m = before.snapper;
    lemma_resolve_all(d, r, anchor, rest);
    lemma_resolve_object(d, before, anchor, os.last());
    seqs::lemma_take_next(os, os.len() - 1);
    seqs::lemma_take_ends(os);
    assert(os.take(os.len() - 1) =~= rest);
    if m.decision(o) is Some {
        assert(m.decisions.contains_key(o));
        lemma_resolve_all_releases(d, r, anchor, rest, o);
        assert forall|t: SnapperTransactionId|
            order::sorted(d.visible_candidates(anchor, o)).contains(t) && #[trigger] d.has_cert(
                r.snapper.inputs,
                anchor,
                t,
            ) && r.snapper.inputs.contains_key(t) implies blocked_elsewhere(
            after.snapper,
            o,
            t,
        ) by {
            lemma_blocked_stays(m, after.snapper, o, t);
        }
    } else {
        assert(os.last() == o);
        let candidates = order::sorted(d.visible_candidates(anchor, o));
        let wanted = |t: SnapperTransactionId| m.can_commit(t) && d.has_cert(m.inputs, anchor, t);
        assert(d.certified_at(m, anchor, o).len() == 0);
        assert forall|t: SnapperTransactionId|
            candidates.contains(t) && #[trigger] d.has_cert(r.snapper.inputs, anchor, t)
                && r.snapper.inputs.contains_key(t) implies blocked_elsewhere(
            after.snapper,
            o,
            t,
        ) by {
            seqs::lemma_filter_members(candidates, wanted, t);
            assert(!m.can_commit(t));
            let p = choose|p: SnapperObjectKey|
                m.inputs[t].contains(p) && m.decides_against(p, t);
            assert(m.inputs[t].contains(p) && m.decides_against(p, t));
            assert(m.decisions.contains_key(p));
            assert(p != o);
            assert(blocked_elsewhere(m, o, t));
            lemma_blocked_stays(m, after.snapper, o, t);
        }
    }
}

pub proof fn lemma_history_finite(d: DagView, root: BlockRef)
    requires
        d.blocks.dom().finite(),
    ensures
        d.history(root).finite(),
{
    let lists = d.blocks.map_values(|b: block::BlockView| b.ancestors);
    let all = seqs::all_listed(set![root], lists);
    assert(lists.dom() =~= d.blocks.dom());
    seqs::lemma_all_listed_finite(set![root], lists);
    dag::history_is_least(d, root);
    assert(d.holds_ancestors(all)) by {
        assert forall|r: BlockRef, a: BlockRef|
            #![trigger all.contains(r), d.blocks[r].ancestors.contains(a)]
            all.contains(r) && d.blocks.contains_key(r) && d.blocks[r].ancestors.contains(
                a,
            ) implies all.contains(a) by {
            assert(lists.contains_key(r) && lists[r].contains(a));
        }
    }
    vstd::set_lib::lemma_set_subset_finite(all, d.history(root));
}

pub proof fn lemma_visible_candidates_finite(d: DagView, root: BlockRef, o: SnapperObjectKey)
    requires
        d.blocks.dom().finite(),
    ensures
        d.visible_candidates(root, o).finite(),
{
    lemma_history_finite(d, root);
    order::lemma_sorted_lists(d.history(root));
    let refs = order::sorted(d.history(root));
    let listed = d.transactions_in(refs);
    let ids = listed.map_values(|x: block::TransactionView| x.metadata->0.id);
    dag::lemma_transactions_in(d, refs);
    vstd::seq_lib::seq_to_set_is_finite(ids);
    assert forall|t: SnapperTransactionId| d.visible_candidates(root, o).contains(
        t,
    ) implies ids.to_set().contains(t) by {
        let x = choose|x: block::TransactionView| #[trigger]
            d.visible(root, x) && dag::is_transaction(x, t)
                && x.metadata->0.owned_inputs.contains(o);
        let r = choose|r: BlockRef| #[trigger]
            d.history(root).contains(r) && d.blocks.contains_key(r)
                && d.blocks[r].transactions.contains(x);
        assert(refs.to_set().contains(r));
        assert(refs.contains(r));
        assert(listed.contains(x));
        let i = choose|i: int| 0 <= i < listed.len() && listed[i] == x;
        assert(ids[i] == t);
    }
    vstd::set_lib::lemma_set_subset_finite(ids.to_set(), d.visible_candidates(root, o));
}

proof fn lemma_recorded_finite(m: SnapperModel, transactions: Seq<block::TransactionView>)
    requires
        m.inputs.dom().finite(),
        m.candidates.dom().finite(),
    ensures
        dag::after_transactions(m, transactions).inputs.dom().finite(),
        dag::after_transactions(m, transactions).candidates.dom().finite(),
    decreases transactions.len(),
{
    if transactions.len() > 0 {
        lemma_recorded_finite(m, transactions.drop_last());
        let before = dag::after_transactions(m, transactions.drop_last());
        match transactions.last().metadata {
            Some(x) => {
                let after = before.with_transaction(x.id, x.owned_inputs, x.mixed);
                vstd::seq_lib::seq_to_set_is_finite(x.owned_inputs);
                assert(after.candidates.dom() =~= before.candidates.dom().union(
                    x.owned_inputs.to_set(),
                ));
                assert(after.inputs.dom() =~= before.inputs.dom().insert(x.id));
            },
            None => {},
        }
    }
}

pub proof fn lemma_recovery_finite(d: DagView, root: BlockRef)
    ensures
        d.recovery_objects_at(root).finite(),
{
    let start = state::SnapperModel::initial(root.author);
    let listed = d.transactions_in(order::sorted(d.history(root)));
    assert(start.inputs.dom() =~= Set::empty());
    assert(start.candidates.dom() =~= Set::empty());
    lemma_recorded_finite(start, listed);
    let model = d.known_at(root);
    let seeds = Set::new(|o: SnapperObjectKey| model.conflicted(o));
    assert(seeds.subset_of(model.candidates.dom()));
    vstd::set_lib::lemma_set_subset_finite(model.candidates.dom(), seeds);
    let all = seqs::all_listed(seeds, model.inputs);
    seqs::lemma_all_listed_finite(seeds, model.inputs);
    recovery::recovery_closure_is_least(seeds, model.candidates, model.inputs);
    assert(recovery::holds_siblings(all, model.candidates, model.inputs)) by {
        assert forall|o: SnapperObjectKey, k: SnapperObjectKey|
            all.contains(o) && #[trigger] recovery::is_sibling(
                o,
                k,
                model.candidates,
                model.inputs,
            ) implies all.contains(k) by {
            let t = choose|t: SnapperTransactionId| #[trigger]
                model.candidates[o].contains(t) && model.inputs.contains_key(t)
                    && model.inputs[t].contains(k);
            assert(model.inputs.contains_key(t) && model.inputs[t].contains(k));
        }
    }
    vstd::set_lib::lemma_set_subset_finite(all, d.recovery_objects_at(root));
}

/// A committed anchor releases an object version that the fast path did not
/// release only where the object version is in recovery in the anchor's history
/// and has a skip or unlock certificate there, and where every candidate in the
/// history with a certificate there is dead: a recorded one by the decision on
/// another of its inputs. So a certified transaction that can be committed wins
/// over skip and unlock.
pub proof fn anchor_release_has_no_viable_certificate(
    d: DagView,
    m: SnapperModel,
    anchor: BlockRef,
    o: SnapperObjectKey,
)
    requires
        d.blocks.dom().finite(),
        d.resolve_anchor(m, anchor).changed.contains((o, SnapperObjectDecision::Release)),
        !d.fast_decisions(m).changed.contains((o, SnapperObjectDecision::Release)),
    ensures
        d.recovery_objects_at(anchor).contains(o),
        d.has_opposing_cert(anchor, o),
        forall|t: SnapperTransactionId|
            d.visible_candidates(anchor, o).contains(t) && #[trigger] d.has_cert(
                m.inputs,
                anchor,
                t,
            ) ==> {
                &&& d.resolve_anchor(m, anchor).snapper.dead(t)
                &&& m.inputs.contains_key(t) ==> blocked_elsewhere(
                    d.resolve_anchor(m, anchor).snapper,
                    o,
                    t,
                )
            },
{
    let x = SnapperObjectDecision::Release;
    let start = Resolution::start(m);
    let fast = d.fast_decisions(m);
    let ids = order::sorted(fast.snapper.inputs.dom());
    let finalized = d.finalize_all(fast, anchor, ids);
    let recovering = d.recovery_objects_at(anchor);
    let objects = order::sorted(recovering);
    let after = d.resolve_anchor(m, anchor);
    anchor_changes_tell_all(d, m, anchor, o, x);
    lemma_decide_rounds(d, start, order::sorted(d.rounds()));
    lemma_resolve_anchor(d, m, anchor);
    lemma_finalize_all(d, fast, anchor, ids);
    assert(fast.snapper.decision(o) is None) by {
        if fast.snapper.decisions.contains_key(o) {
            assert(fast.snapper.decision(o) == Some(x));
            assert(fast.changed.contains((o, x)));
        }
    }
    lemma_resolve_all(d, finalized, anchor, objects);
    assert(finalized.snapper.decision(o) is None) by {
        if finalized.snapper.decisions.contains_key(o) {
            assert(after.snapper.decision(o) == finalized.snapper.decision(o));
        }
    }
    lemma_resolve_all_releases(d, finalized, anchor, objects, o);
    lemma_recovery_finite(d, anchor);
    order::lemma_sorted_lists(recovering);
    assert(objects.to_set().contains(o));
    lemma_visible_candidates_finite(d, anchor, o);
    let visible = d.visible_candidates(anchor, o);
    order::lemma_sorted_lists(visible);
    assert forall|t: SnapperTransactionId|
        visible.contains(t) && #[trigger] d.has_cert(m.inputs, anchor, t) implies {
        &&& after.snapper.dead(t)
        &&& m.inputs.contains_key(t) ==> blocked_elsewhere(after.snapper, o, t)
    } by {
        assert(order::sorted(visible).to_set().contains(t));
        assert(d.has_cert(finalized.snapper.inputs, anchor, t));
        if m.inputs.contains_key(t) {
            assert(blocked_elsewhere(after.snapper, o, t));
            let p = choose|p: SnapperObjectKey|
                p != o && after.snapper.inputs[t].contains(p)
                    && #[trigger] after.snapper.decides_against(p, t);
            assert(after.snapper.inputs[t].contains(p) && after.snapper.decides_against(p, t));
        }
    }
}

/// Finitely many blocks are known, the state has taken in known blocks only, and
/// it has recorded the transactions of those that it has taken in.
pub open spec fn sound(m: TrackerModel) -> bool {
    &&& m.dag.blocks.dom().finite()
    &&& forall|r: BlockRef| #[trigger]
        m.processed.contains(r) ==> m.dag.blocks.contains_key(r) && has_recorded_all(
            m.snapper,
            m.dag.blocks[r],
        )
}

/// The transactions of the block are recorded.
pub open spec fn has_recorded_all(m: SnapperModel, b: block::BlockView) -> bool {
    forall|x: block::TransactionView| #[trigger]
        b.transactions.contains(x) && x.metadata is Some ==> m.inputs.contains_key(
            x.metadata->0.id,
        )
}

/// A tracker that has seen nothing is sound.
pub proof fn initial_tracker_is_sound(own: AuthorityIndex, stakes: Seq<u64>)
    ensures
        sound(TrackerModel::initial(own, stakes)),
{
    assert(TrackerModel::initial(own, stakes).dag.blocks.dom() =~= Set::empty());
}

proof fn lemma_recorded_all_stays(m: SnapperModel, later: SnapperModel, b: block::BlockView)
    requires
        m.evolves_to(later),
        has_recorded_all(m, b),
    ensures
        has_recorded_all(later, b),
{
    assert forall|x: block::TransactionView| #[trigger]
        b.transactions.contains(x) && x.metadata is Some implies later.inputs.contains_key(
        x.metadata->0.id,
    ) by {
        assert(m.inputs.contains_key(x.metadata->0.id));
    }
}

/// A tracker stays sound when its state learns more.
pub proof fn learning_keeps_tracker_sound(m: TrackerModel, later: SnapperModel)
    requires
        sound(m),
        m.snapper.evolves_to(later),
    ensures
        sound(TrackerModel { snapper: later, ..m }),
{
    assert forall|r: BlockRef| #[trigger] m.processed.contains(r) implies has_recorded_all(
        later,
        m.dag.blocks[r],
    ) by {
        lemma_recorded_all_stays(m.snapper, later, m.dag.blocks[r]);
    }
}

proof fn lemma_transactions_known(m: SnapperModel, transactions: Seq<block::TransactionView>)
    ensures
        forall|x: block::TransactionView| #[trigger]
            transactions.contains(x) && x.metadata is Some ==> dag::after_transactions(
                m,
                transactions,
            ).inputs.contains_key(x.metadata->0.id),
    decreases transactions.len(),
{
    if transactions.len() > 0 {
        let rest = transactions.drop_last();
        lemma_transactions_known(m, rest);
        seqs::lemma_take_next(transactions, transactions.len() - 1);
        seqs::lemma_take_ends(transactions);
        assert(transactions.take(transactions.len() - 1) =~= rest);
        let after = dag::after_transactions(m, transactions);
        assert forall|x: block::TransactionView| #[trigger]
            transactions.contains(x) && x.metadata is Some implies after.inputs.contains_key(
            x.metadata->0.id,
        ) by {
            assert(rest.contains(x) || x == transactions.last());
        }
    }
}

/// Taking in blocks keeps the tracker sound, and all known ones of them are then
/// taken in.
pub proof fn processing_takes_in_all(m: TrackerModel, refs: Seq<BlockRef>)
    ensures
        sound(m) ==> sound(m.with_processed(refs)),
        forall|r: BlockRef| #[trigger]
            refs.contains(r) && m.dag.blocks.contains_key(r) ==> m.with_processed(
                refs,
            ).processed.contains(r),
    decreases refs.len(),
{
    if refs.len() > 0 {
        let rest = refs.drop_last();
        let r = refs.last();
        processing_takes_in_all(m, rest);
        seqs::lemma_take_next(refs, refs.len() - 1);
        seqs::lemma_take_ends(refs);
        assert(refs.take(refs.len() - 1) =~= rest);
        tracker_model::lemma_processing_keeps_graph(m, rest);
        let before = m.with_processed(rest);
        let after = m.with_processed(refs);
        assert forall|q: BlockRef| #[trigger]
            refs.contains(q) && m.dag.blocks.contains_key(q) implies after.processed.contains(q) by {
            assert(rest.contains(q) || q == r);
        }
        if sound(m) && !before.processed.contains(r) && m.dag.blocks.contains_key(r) {
            let b = m.dag.blocks[r];
            let recorded = dag::after_transactions(before.snapper, b.transactions);
            tracker_laws::recording_transactions_develops(before.snapper, b.transactions);
            tracker_laws::declaring_stances_develops(recorded, b.reference.author, b.stance_votes);
            state_laws::evolution_is_transitive(before.snapper, recorded, after.snapper);
            learning_keeps_tracker_sound(before, after.snapper);
            lemma_transactions_known(before.snapper, b.transactions);
            assert(has_recorded_all(recorded, b));
            lemma_recorded_all_stays(recorded, after.snapper, b);
            let learnt = TrackerModel { snapper: after.snapper, ..before };
            assert forall|q: BlockRef| #[trigger] after.processed.contains(q) implies {
                &&& after.dag.blocks.contains_key(q)
                &&& has_recorded_all(after.snapper, after.dag.blocks[q])
            } by {
                if q != r {
                    assert(learnt.processed.contains(q));
                }
            }
        }
    }
}

/// Once all known ones of some blocks are taken in, taking them in again changes
/// nothing.
pub proof fn processing_again_changes_nothing(m: TrackerModel, refs: Seq<BlockRef>)
    requires
        forall|r: BlockRef| #[trigger]
            refs.contains(r) && m.dag.blocks.contains_key(r) ==> m.processed.contains(r),
    ensures
        m.with_processed(refs) == m,
    decreases refs.len(),
{
    if refs.len() > 0 {
        let rest = refs.drop_last();
        seqs::lemma_take_next(refs, refs.len() - 1);
        seqs::lemma_take_ends(refs);
        assert(refs.take(refs.len() - 1) =~= rest);
        processing_again_changes_nothing(m, rest);
        assert(refs.contains(refs.last()));
    }
}

proof fn lemma_with_blocks(d: DagView, blocks: Seq<VerifiedBlock>)
    ensures
        d.blocks.dom().finite() ==> tracker_model::with_blocks(d, blocks).blocks.dom().finite(),
        forall|r: BlockRef| #[trigger]
            d.blocks.contains_key(r) ==> tracker_model::with_blocks(d, blocks).blocks.contains_key(r)
                && tracker_model::with_blocks(d, blocks).blocks[r] == d.blocks[r],
        forall|i: int|
            0 <= i < blocks.len() ==> tracker_model::with_blocks(d, blocks).blocks.contains_key(
                (#[trigger] blocks[i])@.reference,
            ),
    decreases blocks.len(),
{
    if blocks.len() > 0 {
        let rest = blocks.drop_last();
        lemma_with_blocks(d, rest);
        let before = tracker_model::with_blocks(d, rest);
        let after = tracker_model::with_blocks(d, blocks);
        let b = blocks.last()@;
        if !before.blocks.contains_key(b.reference) {
            assert(after.blocks.dom() =~= before.blocks.dom().insert(b.reference));
        }
        assert forall|i: int| 0 <= i < blocks.len() implies after.blocks.contains_key(
            (#[trigger] blocks[i])@.reference,
        ) by {
            if i < rest.len() {
                assert(rest[i] == blocks[i]);
                assert(before.blocks.contains_key(rest[i]@.reference));
            }
        }
    }
}

proof fn lemma_with_known_blocks(d: DagView, blocks: Seq<VerifiedBlock>)
    requires
        forall|i: int|
            0 <= i < blocks.len() ==> d.blocks.contains_key((#[trigger] blocks[i])@.reference),
    ensures
        tracker_model::with_blocks(d, blocks) == d,
    decreases blocks.len(),
{
    if blocks.len() > 0 {
        let rest = blocks.drop_last();
        assert forall|i: int| 0 <= i < rest.len() implies d.blocks.contains_key(
            (#[trigger] rest[i])@.reference,
        ) by {
            assert(rest[i] == blocks[i]);
        }
        lemma_with_known_blocks(d, rest);
        assert(d.blocks.contains_key(blocks[blocks.len() - 1]@.reference));
    }
}

/// Counting the votes of a block and garbage collection keep the tracker sound.
pub proof fn counting_votes_keeps_tracker_sound(
    m: TrackerModel,
    b: block::BlockView,
    own_rejects: Seq<TransactionIndex>,
    gc_round: Round,
)
    requires
        sound(m),
    ensures
        sound(m.with_voted_block(b, own_rejects)),
        sound(m.with_gc_round(gc_round)),
{
    let n = m.with_voted_block(b, own_rejects);
    tracker_laws::counting_votes_decides_nothing(m, b, own_rejects);
    tracker_laws::lemma_voted_block_graph(m, b, own_rejects);
    assert(n.dag.blocks.dom().finite()) by {
        assert(n.dag.blocks.dom() =~= m.dag.blocks.dom() || n.dag.blocks.dom()
            =~= m.dag.blocks.dom().insert(b.reference));
    }
}

/// Before a committed anchor decides, the tracker is sound, and every
/// transaction in the anchor's history is recorded.
pub proof fn anchor_history_is_recorded(
    m: TrackerModel,
    anchor: BlockRef,
    blocks: Seq<VerifiedBlock>,
)
    requires
        sound(m),
    ensures
        sound(m.before_anchor(anchor, blocks)),
        forall|t: SnapperTransactionId| #[trigger]
            m.before_anchor(anchor, blocks).dag.includes(anchor, t) ==> m.before_anchor(
                anchor,
                blocks,
            ).snapper.inputs.contains_key(t),
{
    let seen = TrackerModel { dag: tracker_model::with_blocks(m.dag, blocks), ..m };
    let history = order::sorted(seen.dag.history(anchor));
    let before = m.before_anchor(anchor, blocks);
    lemma_with_blocks(m.dag, blocks);
    assert(sound(seen)) by {
        assert forall|r: BlockRef| #[trigger] seen.processed.contains(r) implies {
            &&& seen.dag.blocks.contains_key(r)
            &&& has_recorded_all(seen.snapper, seen.dag.blocks[r])
        } by {
            assert(m.dag.blocks.contains_key(r));
        }
    }
    processing_takes_in_all(seen, history);
    tracker_model::lemma_processing_keeps_graph(seen, history);
    lemma_history_finite(seen.dag, anchor);
    order::lemma_sorted_lists(seen.dag.history(anchor));
    assert forall|t: SnapperTransactionId| #[trigger]
        before.dag.includes(anchor, t) implies before.snapper.inputs.contains_key(t) by {
        let x = choose|x: block::TransactionView| #[trigger]
            before.dag.visible(anchor, x) && dag::is_transaction(x, t);
        let r = choose|r: BlockRef| #[trigger]
            before.dag.history(anchor).contains(r) && before.dag.blocks.contains_key(r)
                && before.dag.blocks[r].transactions.contains(x);
        assert(history.to_set().contains(r));
        assert(history.contains(r));
        assert(before.processed.contains(r));
    }
}

/// The rule of the committed anchor, for the whole of it: where it releases an
/// object version that the fast path did not release, the object version is in
/// recovery in the anchor's history and has a skip or unlock certificate there,
/// and every candidate in the history with a certificate there has another input
/// that is decided otherwise.
pub proof fn committed_anchor_prefers_certificates(
    m: TrackerModel,
    anchor: BlockRef,
    blocks: Seq<VerifiedBlock>,
    o: SnapperObjectKey,
)
    requires
        sound(m),
        ({
            let before = m.before_anchor(anchor, blocks);
            let x = SnapperObjectDecision::Release;
            &&& before.dag.resolve_anchor(before.snapper, anchor).changed.contains((o, x))
            &&& !before.dag.fast_decisions(before.snapper).changed.contains((o, x))
        }),
    ensures
        ({
            let before = m.before_anchor(anchor, blocks);
            let after = before.dag.resolve_anchor(before.snapper, anchor).snapper;
            &&& before.dag.recovery_objects_at(anchor).contains(o)
            &&& before.dag.has_opposing_cert(anchor, o)
            &&& forall|t: SnapperTransactionId|
                before.dag.visible_candidates(anchor, o).contains(t)
                    && #[trigger] before.dag.has_cert(before.snapper.inputs, anchor, t)
                    ==> blocked_elsewhere(after, o, t)
        }),
{
    let before = m.before_anchor(anchor, blocks);
    anchor_history_is_recorded(m, anchor, blocks);
    anchor_release_has_no_viable_certificate(before.dag, before.snapper, anchor, o);
    let after = before.dag.resolve_anchor(before.snapper, anchor).snapper;
    assert forall|t: SnapperTransactionId|
        before.dag.visible_candidates(anchor, o).contains(t) && #[trigger] before.dag.has_cert(
            before.snapper.inputs,
            anchor,
            t,
        ) implies blocked_elsewhere(after, o, t) by {
        let x = choose|x: block::TransactionView| #[trigger]
            before.dag.visible(anchor, x) && dag::is_transaction(x, t)
                && x.metadata->0.owned_inputs.contains(o);
        assert(before.dag.includes(anchor, t));
    }
}

/// A committed anchor that is given again, with the same blocks, changes nothing
/// and gives no decisions; and the tracker stays sound.
pub proof fn committed_anchor_again_decides_nothing(
    m: TrackerModel,
    anchor: BlockRef,
    blocks: Seq<VerifiedBlock>,
)
    ensures
        ({
            let before = m.before_anchor(anchor, blocks);
            let after = before.dag.resolve_anchor(before.snapper, anchor);
            let once = TrackerModel { snapper: after.snapper, ..before };
            &&& once.before_anchor(anchor, blocks) == once
            &&& once.dag.resolve_anchor(once.snapper, anchor) == Resolution::start(once.snapper)
            &&& sound(m) ==> sound(once)
        }),
{
    let seen = TrackerModel { dag: tracker_model::with_blocks(m.dag, blocks), ..m };
    let history = order::sorted(seen.dag.history(anchor));
    let before = m.before_anchor(anchor, blocks);
    let after = before.dag.resolve_anchor(before.snapper, anchor);
    let once = TrackerModel { snapper: after.snapper, ..before };
    lemma_with_blocks(m.dag, blocks);
    tracker_model::lemma_processing_keeps_graph(seen, history);
    lemma_with_known_blocks(seen.dag, blocks);
    processing_takes_in_all(seen, history);
    assert(once.dag == seen.dag);
    assert(TrackerModel { dag: tracker_model::with_blocks(once.dag, blocks), ..once } == once);
    processing_again_changes_nothing(once, history);
    second_resolution_decides_nothing(before.dag, before.snapper, anchor);
    if sound(m) {
        anchor_history_is_recorded(m, anchor, blocks);
        lemma_resolve_anchor(before.dag, before.snapper, anchor);
        learning_keeps_tracker_sound(before, after.snapper);
    }
}

/// Preparing the votes of a proposed block keeps the tracker sound.
pub proof fn proposing_keeps_tracker_sound(
    m: TrackerModel,
    round: Round,
    parents: Seq<BlockRef>,
    refs: Seq<BlockRef>,
    transactions: Seq<block::TransactionView>,
)
    requires
        sound(m),
    ensures
        ({
            let before = m.before_casting(parents, refs, transactions);
            let after = before.dag.cast_votes(before.snapper, round, parents);
            sound(TrackerModel { snapper: after.snapper, ..before })
        }),
{
    let linked = order::sorted(tracker_model::linked(m.dag, parents, refs));
    let taken_in = m.with_processed(linked);
    let recorded = dag::after_transactions(taken_in.snapper, transactions);
    let before = m.before_casting(parents, refs, transactions);
    let after = before.dag.cast_votes(before.snapper, round, parents);
    processing_takes_in_all(m, linked);
    tracker_laws::recording_transactions_develops(taken_in.snapper, transactions);
    tracker_laws::fast_decisions_are_final(m.dag, recorded);
    tracker_laws::stance_changes_tell_all(before.dag, before.snapper, round, parents);
    state_laws::evolution_is_transitive(taken_in.snapper, recorded, before.snapper);
    state_laws::evolution_is_transitive(taken_in.snapper, before.snapper, after.snapper);
    learning_keeps_tracker_sound(taken_in, after.snapper);
}

/// The candidate is in the history of the block, owns the object version, and a
/// walk from the block leads to a certificate for it.
pub open spec fn is_certified_candidate(
    d: DagView,
    m: SnapperModel,
    anchor: BlockRef,
    o: SnapperObjectKey,
    t: SnapperTransactionId,
) -> bool {
    &&& exists|inputs: Seq<SnapperObjectKey>| #[trigger]
        graph_laws::carried(d, anchor, t, inputs) && inputs.contains(o)
    &&& graph_laws::certified_in_history(d, m.inputs, anchor, t)
}

/// After a committed anchor, an object version in recovery there is decided
/// wherever more than two thirds of all stake stands at Bottom on it, in
/// recovery, below some block of the anchor's history, acknowledged before or
/// not; unless a certified candidate that can be committed is in the history and
/// was not recorded with the object version as an input.
pub proof fn opposed_object_is_decided(
    d: DagView,
    m: SnapperModel,
    anchor: BlockRef,
    o: SnapperObjectKey,
)
    requires
        d.valid(),
        d.blocks.dom().finite(),
        committee::usable_stakes(d.stakes),
        d.recovery_objects_at(anchor).contains(o),
        graph_laws::opposed_in_history(d, anchor, o),
    ensures
        ({
            let after = d.resolve_anchor(m, anchor).snapper;
            ||| after.decision(o) is Some
            ||| exists|t: SnapperTransactionId|
                #![trigger m.inputs[t]]
                is_certified_candidate(d, m, anchor, o, t) && after.can_commit(t)
                    && !m.inputs[t].contains(o)
        }),
{
    let after = d.resolve_anchor(m, anchor);
    lemma_object_settled_after_anchor(d, m, anchor, o);
    graph_laws::opposing_certificate_is_opposition(d, anchor, o);
    let certified = d.certified_at(after.snapper, anchor, o);
    if !after.snapper.resolved(o) {
        let t = certified[0];
        lemma_certified_is_candidate(d, after.snapper, anchor, o);
        assert(is_certified_candidate(d, m, anchor, o, t));
        if m.inputs[t].contains(o) {
            assert(after.snapper.inputs[t].contains(o));
            assert(after.snapper.decision(o) == Some(SnapperObjectDecision::Commit(t)));
        }
    }
}

/// After a committed anchor, an object version in recovery there is decided
/// wherever a candidate in the history, recorded with the object version as an
/// input, is certified there and can still be committed; and it is then
/// committed.
pub proof fn certified_object_is_committed(
    d: DagView,
    m: SnapperModel,
    anchor: BlockRef,
    o: SnapperObjectKey,
    t: SnapperTransactionId,
)
    requires
        d.blocks.dom().finite(),
        d.recovery_objects_at(anchor).contains(o),
        is_certified_candidate(d, m, anchor, o, t),
        forall|u: SnapperTransactionId|
            is_certified_candidate(d, m, anchor, o, u) ==> (#[trigger] m.inputs[u]).contains(o),
        d.resolve_anchor(m, anchor).snapper.can_commit(t),
    ensures
        d.resolve_anchor(m, anchor).snapper.decision(o) == Some(SnapperObjectDecision::Commit(t)),
{
    let after = d.resolve_anchor(m, anchor);
    let n = after.snapper;
    lemma_object_settled_after_anchor(d, m, anchor, o);
    lemma_resolve_anchor(d, m, anchor);
    let certified = d.certified_at(n, anchor, o);
    let visible = d.visible_candidates(anchor, o);
    let candidates = order::sorted(visible);
    lemma_visible_candidates_finite(d, anchor, o);
    order::lemma_sorted_lists(visible);
    graph_laws::visible_candidates_are_carried(d, anchor, o, t);
    graph_laws::certificate_in_history_is_reached(d, m.inputs, anchor, t);
    assert(candidates.to_set().contains(t));
    let wanted = |u: SnapperTransactionId| n.can_commit(u) && d.has_cert(n.inputs, anchor, u);
    seqs::lemma_filter_members(candidates, wanted, t);
    assert(certified.contains(t));
    if !n.resolved(o) {
        let u = certified[0];
        lemma_certified_is_candidate(d, n, anchor, o);
        assert(is_certified_candidate(d, m, anchor, o, u));
        assert(m.inputs[u].contains(o));
        assert(n.inputs[u].contains(o));
        assert(n.decision(o) == Some(SnapperObjectDecision::Commit(u)));
    }
    assert(n.inputs[t].contains(o)) by {
        assert(m.inputs[t].contains(o));
    }
    assert(!n.decides_against(o, t));
}

proof fn lemma_certified_is_candidate(
    d: DagView,
    n: SnapperModel,
    anchor: BlockRef,
    o: SnapperObjectKey,
)
    requires
        d.blocks.dom().finite(),
        d.certified_at(n, anchor, o).len() > 0,
    ensures
        is_certified_candidate(d, n, anchor, o, d.certified_at(n, anchor, o)[0]),
        n.can_commit(d.certified_at(n, anchor, o)[0]),
{
    let certified = d.certified_at(n, anchor, o);
    let t = certified[0];
    let visible = d.visible_candidates(anchor, o);
    let candidates = order::sorted(visible);
    lemma_visible_candidates_finite(d, anchor, o);
    order::lemma_sorted_lists(visible);
    let wanted = |u: SnapperTransactionId| n.can_commit(u) && d.has_cert(n.inputs, anchor, u);
    assert(certified.contains(t));
    seqs::lemma_filter_members(candidates, wanted, t);
    assert(candidates.to_set().contains(t));
    graph_laws::visible_candidates_are_carried(d, anchor, o, t);
    graph_laws::certificate_in_history_is_reached(d, n.inputs, anchor, t);
}

proof fn lemma_object_settled_after_anchor(
    d: DagView,
    m: SnapperModel,
    anchor: BlockRef,
    o: SnapperObjectKey,
)
    requires
        d.recovery_objects_at(anchor).contains(o),
    ensures
        object_settled(d, d.resolve_anchor(m, anchor).snapper, anchor, o),
        d.resolve_anchor(m, anchor).snapper.inputs == m.inputs,
{
    let fast = d.fast_decisions(m);
    let ids = order::sorted(fast.snapper.inputs.dom());
    let finalized = d.finalize_all(fast, anchor, ids);
    let recovering = d.recovery_objects_at(anchor);
    let objects = order::sorted(recovering);
    lemma_resolve_anchor(d, m, anchor);
    lemma_resolve_all(d, finalized, anchor, objects);
    lemma_recovery_finite(d, anchor);
    order::lemma_sorted_lists(recovering);
    assert(objects.to_set().contains(o));
    let i = choose|i: int| 0 <= i < objects.len() && objects[i] == o;
    assert(object_settled(d, d.resolve_anchor(m, anchor).snapper, anchor, objects[i]));
}

/// The authors of the known blocks of a round that are among the given ones.
pub open spec fn authors_in(d: DagView, round: Round, given: Set<BlockRef>) -> Set<AuthorityIndex> {
    Set::new(
        |a: AuthorityIndex|
            exists|r: BlockRef| #[trigger]
                d.blocks.contains_key(r) && r.round == round && r.author == a && given.contains(r),
    )
}

/// The known blocks of a round that are certificates for the transaction are by
/// authors with more than two thirds of all stake.
pub open spec fn two_thirds_certify(
    d: DagView,
    known: dag::KnownInputs,
    round: Round,
    t: SnapperTransactionId,
) -> bool {
    3 * committee::stake_of(
        d.stakes,
        authors_in(d, round, Set::new(|r: BlockRef| d.is_fast_cert(known, r, t))),
    ) > 2 * committee::total_stake(d.stakes)
}

/// The known blocks of a round that are skip certificates for the object version
/// are by authors with more than two thirds of all stake.
pub open spec fn two_thirds_skip(d: DagView, round: Round, o: SnapperObjectKey) -> bool {
    3 * committee::stake_of(
        d.stakes,
        authors_in(d, round, Set::new(|r: BlockRef| d.is_skip_cert(r, o))),
    ) > 2 * committee::total_stake(d.stakes)
}

proof fn lemma_authors_in(d: DagView, round: Round, given: Set<BlockRef>, counted: Set<BlockRef>)
    requires
        forall|r: BlockRef| #[trigger]
            counted.contains(r) <==> d.blocks.contains_key(r) && r.round == round && given.contains(
                r,
            ),
    ensures
        dag::authors_of(counted) == authors_in(d, round, given),
{
    assert forall|a: AuthorityIndex| dag::authors_of(counted).contains(a) <==> authors_in(
        d,
        round,
        given,
    ).contains(a) by {
        if dag::authors_of(counted).contains(a) {
            let r = choose|r: BlockRef| #[trigger] counted.contains(r) && r.author == a;
            assert(d.blocks.contains_key(r));
        }
        if authors_in(d, round, given).contains(a) {
            let r = choose|r: BlockRef| #[trigger]
                d.blocks.contains_key(r) && r.round == round && r.author == a && given.contains(r);
            assert(counted.contains(r));
        }
    }
    assert(dag::authors_of(counted) =~= authors_in(d, round, given));
}

/// A round certifies a commit or a skip exactly where two thirds of all stake
/// and more do so in it.
pub proof fn round_certifies_by_two_thirds(
    d: DagView,
    known: dag::KnownInputs,
    round: Round,
    t: SnapperTransactionId,
    o: SnapperObjectKey,
)
    requires
        committee::usable_stakes(d.stakes),
    ensures
        d.commit_certified(known, round, t) <==> two_thirds_certify(d, known, round, t),
        d.skip_certified(round, o) <==> two_thirds_skip(d, round, o),
{
    let commits = Set::new(
        |r: BlockRef|
            d.blocks.contains_key(r) && r.round == round && d.is_fast_cert(known, r, t),
    );
    let skips = Set::new(
        |r: BlockRef| d.blocks.contains_key(r) && r.round == round && d.is_skip_cert(r, o),
    );
    lemma_authors_in(d, round, Set::new(|r: BlockRef| d.is_fast_cert(known, r, t)), commits);
    lemma_authors_in(d, round, Set::new(|r: BlockRef| d.is_skip_cert(r, o)), skips);
    committee::quorum_is_more_than_two_thirds(d.stakes, dag::authors_of(commits));
    committee::quorum_is_more_than_two_thirds(d.stakes, dag::authors_of(skips));
}

proof fn lemma_certified_round(d: DagView, round: Round, given: Set<BlockRef>)
    requires
        committee::usable_stakes(d.stakes),
        round > 0,
        3 * committee::stake_of(d.stakes, authors_in(d, round, given)) > 2 * committee::total_stake(
            d.stakes,
        ),
    ensures
        order::sorted(d.rounds()).contains(round),
        order::ascending(order::sorted(d.rounds())),
{
    let authors = authors_in(d, round, given);
    assert(exists|a: AuthorityIndex| authors.contains(a)) by {
        if forall|a: AuthorityIndex| !authors.contains(a) {
            assert(authors =~= Set::empty());
            committee::lemma_stake_of_empty(d.stakes);
        }
    }
    let a = choose|a: AuthorityIndex| authors.contains(a);
    let r = choose|r: BlockRef| #[trigger]
        d.blocks.contains_key(r) && r.round == round && r.author == a && given.contains(r);
    assert(d.blocks.contains_key(r) && r.round == round);
    assert(d.rounds().contains(round));
    tracker_laws::lemma_rounds_finite(d.rounds());
    order::lemma_sorted_lists(d.rounds());
    assert(order::sorted(d.rounds()).to_set().contains(round));
}

/// The fast path commits every recorded transaction, mixed ones aside, for which
/// two thirds of all stake and more are behind certificates in one round after
/// the first: it is then committed on every input, or some input is decided
/// otherwise.
pub proof fn fast_path_settles_certified_transactions(
    d: DagView,
    m: SnapperModel,
    round: Round,
    t: SnapperTransactionId,
)
    requires
        committee::usable_stakes(d.stakes),
        m.inputs.dom().finite(),
        m.inputs.contains_key(t),
        !m.mixed.contains(t),
        round > 0,
        two_thirds_certify(d, m.inputs, round, t),
    ensures
        d.fast_decisions(m).snapper.committed_everywhere(t) || !d.fast_decisions(
            m,
        ).snapper.can_commit(t),
{
    let rounds = order::sorted(d.rounds());
    let after = d.fast_decisions(m).snapper;
    round_certifies_by_two_thirds(d, m.inputs, round, t, arbitrary());
    lemma_certified_round(d, round, Set::new(|r: BlockRef| d.is_fast_cert(m.inputs, r, t)));
    lemma_decide_rounds(d, Resolution::start(m), rounds);
    let i = choose|i: int| 0 <= i < rounds.len() && rounds[i] == round;
    assert(round_settled(d, after, rounds[i]));
    order::lemma_sorted_lists(m.inputs.dom());
    assert(order::sorted(after.inputs.dom()).to_set().contains(t));
    assert(d.commit_certified(after.inputs, round, t));
}

/// The fast path decides every object version with candidates for which two
/// thirds of all stake and more are behind skip certificates in one round after
/// the first.
pub proof fn fast_path_decides_skipped_objects(
    d: DagView,
    m: SnapperModel,
    round: Round,
    o: SnapperObjectKey,
)
    requires
        committee::usable_stakes(d.stakes),
        m.candidates.dom().finite(),
        m.candidates.contains_key(o),
        round > 0,
        two_thirds_skip(d, round, o),
    ensures
        d.fast_decisions(m).snapper.decision(o) is Some,
{
    let rounds = order::sorted(d.rounds());
    let after = d.fast_decisions(m).snapper;
    round_certifies_by_two_thirds(d, m.inputs, round, arbitrary(), o);
    lemma_certified_round(d, round, Set::new(|r: BlockRef| d.is_skip_cert(r, o)));
    lemma_decide_rounds(d, Resolution::start(m), rounds);
    let i = choose|i: int| 0 <= i < rounds.len() && rounds[i] == round;
    assert(round_settled(d, after, rounds[i]));
    order::lemma_sorted_lists(m.candidates.dom());
    assert(order::sorted(after.candidates.dom()).to_set().contains(o));
    assert(after.resolved(o));
}

/// Where a new decision comes from when transactions are committed.
proof fn lemma_commit_all_reason(
    r: Resolution,
    ts: Seq<SnapperTransactionId>,
    o: SnapperObjectKey,
)
    requires
        r.snapper.decision(o) is None,
        r.commit_all(ts).snapper.decision(o) is Some,
    ensures
        exists|u: SnapperTransactionId|
            #![trigger r.snapper.inputs[u]]
            ts.contains(u) && r.snapper.inputs[u].contains(o) && r.commit_all(
                ts,
            ).snapper.decision(o) == Some(SnapperObjectDecision::Commit(u)),
    decreases ts.len(),
{
    if ts.len() > 0 {
        let rest = ts.drop_last();
        let before = r.commit_all(rest);
        let after = r.commit_all(ts);
        lemma_commit_all(r, rest);
        lemma_commit_continues(before, ts.last());
        seqs::lemma_take_next(ts, ts.len() - 1);
        seqs::lemma_take_ends(ts);
        assert(ts.take(ts.len() - 1) =~= rest);
        if before.snapper.decision(o) is Some {
            lemma_commit_all_reason(r, rest, o);
            let u = choose|u: SnapperTransactionId|
                #![trigger r.snapper.inputs[u]]
                rest.contains(u) && r.snapper.inputs[u].contains(o) && before.snapper.decision(o)
                    == Some(SnapperObjectDecision::Commit(u));
            assert(before.snapper.decisions.contains_key(o));
            assert(ts.contains(u));
            assert(r.snapper.inputs[u].contains(o));
        } else {
            let u = ts.last();
            assert(before.snapper.inputs[u].contains(o));
            assert(r.snapper.inputs[u].contains(o));
        }
    }
}

proof fn lemma_release_all_reason(r: Resolution, os: Seq<SnapperObjectKey>, o: SnapperObjectKey)
    requires
        r.snapper.decision(o) is None,
        r.release_all(os).snapper.decision(o) is Some,
    ensures
        os.contains(o),
        r.release_all(os).snapper.decision(o) == Some(SnapperObjectDecision::Release),
    decreases os.len(),
{
    if os.len() > 0 {
        let rest = os.drop_last();
        let before = r.release_all(rest);
        lemma_release_all(r, rest);
        lemma_release_continues(before, os.last());
        seqs::lemma_take_next(os, os.len() - 1);
        seqs::lemma_take_ends(os);
        assert(os.take(os.len() - 1) =~= rest);
        if before.snapper.decision(o) is Some {
            lemma_release_all_reason(r, rest, o);
            assert(before.snapper.decisions.contains_key(o));
        }
    }
}

/// Where a new decision comes from in one round.
proof fn lemma_decide_round_reason(d: DagView, r: Resolution, n: Round, o: SnapperObjectKey)
    requires
        r.snapper.decision(o) is None,
        d.decide_round(r, n).snapper.decision(o) is Some,
    ensures
        ({
            let x = d.decide_round(r, n).snapper.decision(o)->0;
            ||| exists|u: SnapperTransactionId|
                #![trigger r.snapper.inputs[u]]
                x == SnapperObjectDecision::Commit(u) && r.snapper.inputs[u].contains(o)
                    && d.commit_certified(r.snapper.inputs, n, u)
            ||| x == SnapperObjectDecision::Release && d.skip_certified(n, o)
        }),
{
    let m = r.snapper;
    let commits = d.fast_commits(m, n);
    let committed = r.commit_all(commits);
    let releases = d.fast_releases(committed.snapper, n);
    let after = committed.release_all(releases);
    lemma_commit_all(r, commits);
    lemma_release_all(committed, releases);
    if committed.snapper.decision(o) is Some {
        lemma_commit_all_reason(r, commits, o);
        let u = choose|u: SnapperTransactionId|
            #![trigger r.snapper.inputs[u]]
            commits.contains(u) && r.snapper.inputs[u].contains(o) && committed.snapper.decision(o)
                == Some(SnapperObjectDecision::Commit(u));
        let wanted = |t: SnapperTransactionId|
            m.may_go_fast(t) && d.commit_certified(m.inputs, n, t);
        seqs::lemma_filter_members(order::sorted(m.inputs.dom()), wanted, u);
        assert(committed.snapper.decisions.contains_key(o));
        assert(r.snapper.inputs[u].contains(o));
    } else {
        lemma_release_all_reason(committed, releases, o);
        let wanted = |q: SnapperObjectKey|
            !committed.snapper.resolved(q) && d.skip_certified(n, q);
        seqs::lemma_filter_members(
            order::sorted(committed.snapper.candidates.dom()),
            wanted,
            o,
        );
    }
}

/// Two transactions share an input.
pub open spec fn share_an_input(
    m: SnapperModel,
    t: SnapperTransactionId,
    u: SnapperTransactionId,
) -> bool {
    exists|o: SnapperObjectKey| #[trigger] m.inputs[t].contains(o) && m.inputs[u].contains(o)
}

/// Until its round comes, a transaction whose inputs no earlier round decides
/// can be committed.
proof fn lemma_can_commit_until(
    d: DagView,
    m: SnapperModel,
    rounds: Seq<Round>,
    n: Round,
    t: SnapperTransactionId,
)
    requires
        m.can_commit(t),
        forall|i: int| 0 <= i < rounds.len() ==> #[trigger] rounds[i] < n,
        forall|k: Round, u: SnapperTransactionId|
            k < n && u != t && #[trigger] d.commit_certified(m.inputs, k, u) ==> !share_an_input(
                m,
                t,
                u,
            ),
        forall|k: Round, o: SnapperObjectKey|
            k < n && m.inputs[t].contains(o) ==> !#[trigger] d.skip_certified(k, o),
    ensures
        d.decide_rounds(Resolution::start(m), rounds).snapper.can_commit(t),
    decreases rounds.len(),
{
    if rounds.len() > 0 {
        let rest = rounds.drop_last();
        let k = rounds.last();
        assert forall|i: int| 0 <= i < rest.len() implies #[trigger] rest[i] < n by {
            assert(rest[i] == rounds[i]);
        }
        assert(rounds[rounds.len() - 1] < n);
        lemma_can_commit_until(d, m, rest, n, t);
        let before = d.decide_rounds(Resolution::start(m), rest);
        let after = d.decide_rounds(Resolution::start(m), rounds);
        lemma_decide_rounds(d, Resolution::start(m), rest);
        lemma_decide_round(d, before, k);
        assert forall|o: SnapperObjectKey|
            after.snapper.inputs[t].contains(o) implies !after.snapper.decides_against(o, t) by {
            assert(before.snapper.inputs[t].contains(o));
            assert(!before.snapper.decides_against(o, t));
            if before.snapper.decisions.contains_key(o) {
                assert(after.snapper.decisions[o] == before.snapper.decisions[o]);
            } else if after.snapper.decision(o) is Some {
                lemma_decide_round_reason(d, before, k, o);
                let x = after.snapper.decision(o)->0;
                assert(!d.skip_certified(k, o));
                let u = choose|u: SnapperTransactionId|
                    #![trigger before.snapper.inputs[u]]
                    x == SnapperObjectDecision::Commit(u) && before.snapper.inputs[u].contains(o)
                        && d.commit_certified(before.snapper.inputs, k, u);
                assert(d.commit_certified(m.inputs, k, u));
                assert(m.inputs[t].contains(o) && m.inputs[u].contains(o));
                assert(share_an_input(m, t, u));
            }
        }
    }
}

/// What is decided after some of the rounds stays so after all of them.
proof fn lemma_decide_rounds_prefix(d: DagView, r: Resolution, rounds: Seq<Round>, i: int)
    requires
        0 <= i <= rounds.len(),
    ensures
        continues(d.decide_rounds(r, rounds.take(i)), d.decide_rounds(r, rounds)),
    decreases rounds.len() - i,
{
    let a = d.decide_rounds(r, rounds.take(i));
    if i == rounds.len() {
        seqs::lemma_take_ends(rounds);
        lemma_continues_reflexive(a);
    } else {
        seqs::lemma_take_next(rounds, i);
        let b = d.decide_rounds(r, rounds.take(i + 1));
        lemma_decide_round(d, a, rounds[i]);
        lemma_decide_rounds_prefix(d, r, rounds, i + 1);
        lemma_continues_transitive(a, b, d.decide_rounds(r, rounds));
    }
}

/// The place of a round in ascending order, with all earlier ones before it.
proof fn lemma_round_place(rounds: Seq<Round>, n: Round) -> (i: int)
    requires
        order::ascending(rounds),
        rounds.contains(n),
    ensures
        0 <= i < rounds.len(),
        rounds[i] == n,
        forall|j: int| 0 <= j < i ==> #[trigger] rounds[j] < n,
{
    let i = choose|i: int| 0 <= i < rounds.len() && rounds[i] == n;
    assert forall|j: int| 0 <= j < i implies #[trigger] rounds[j] < n by {
        assert(order::before(rounds[j], rounds[i]));
        order_laws::numbers_are_ordered(rounds[j], rounds[i]);
    }
    i
}

/// The earliest certificates win, and a commit wins over a release of the same
/// round: a transaction that can be committed, is not mixed and is certified in
/// a round is committed on every input, where no transaction that shares an
/// input is certified up to that round and no input is skipped before it.
pub proof fn earliest_certified_round_commits(
    d: DagView,
    m: SnapperModel,
    n: Round,
    t: SnapperTransactionId,
)
    requires
        committee::usable_stakes(d.stakes),
        m.inputs.dom().finite(),
        m.can_commit(t),
        !m.mixed.contains(t),
        n > 0,
        two_thirds_certify(d, m.inputs, n, t),
        forall|k: Round, u: SnapperTransactionId|
            k <= n && u != t && share_an_input(m, t, u) ==> !#[trigger] two_thirds_certify(
                d,
                m.inputs,
                k,
                u,
            ),
        forall|k: Round, o: SnapperObjectKey|
            k < n && m.inputs[t].contains(o) ==> !#[trigger] two_thirds_skip(d, k, o),
    ensures
        d.fast_decisions(m).snapper.committed_everywhere(t),
{
    let start = Resolution::start(m);
    let rounds = order::sorted(d.rounds());
    assert forall|k: Round, u: SnapperTransactionId|
        k <= n && u != t && #[trigger] d.commit_certified(m.inputs, k, u) implies !share_an_input(
        m,
        t,
        u,
    ) by {
        round_certifies_by_two_thirds(d, m.inputs, k, u, arbitrary());
        assert(two_thirds_certify(d, m.inputs, k, u));
    }
    assert forall|k: Round, o: SnapperObjectKey|
        k < n && m.inputs[t].contains(o) implies !#[trigger] d.skip_certified(k, o) by {
        round_certifies_by_two_thirds(d, m.inputs, k, t, o);
        assert(!two_thirds_skip(d, k, o));
    }
    round_certifies_by_two_thirds(d, m.inputs, n, t, arbitrary());
    lemma_certified_round(d, n, Set::new(|r: BlockRef| d.is_fast_cert(m.inputs, r, t)));
    let i = lemma_round_place(rounds, n);
    let earlier = rounds.take(i);
    assert forall|j: int| 0 <= j < earlier.len() implies #[trigger] earlier[j] < n by {
        assert(earlier[j] == rounds[j]);
    }
    lemma_can_commit_until(d, m, earlier, n, t);
    let before = d.decide_rounds(start, earlier);
    lemma_decide_rounds(d, start, earlier);
    let commits = d.fast_commits(before.snapper, n);
    let committed = before.commit_all(commits);
    let releases = d.fast_releases(committed.snapper, n);
    let decided = d.decide_round(before, n);
    lemma_commit_all(before, commits);
    lemma_release_all(committed, releases);
    order::lemma_sorted_lists(m.inputs.dom());
    assert(order::sorted(m.inputs.dom()).to_set().contains(t));
    let wanted = |u: SnapperTransactionId|
        before.snapper.may_go_fast(u) && d.commit_certified(before.snapper.inputs, n, u);
    seqs::lemma_filter_members(order::sorted(before.snapper.inputs.dom()), wanted, t);
    let j = choose|j: int| 0 <= j < commits.len() && commits[j] == t;
    assert(settled(committed.snapper, commits[j]));
    assert(committed.snapper.can_commit(t)) by {
        assert forall|o: SnapperObjectKey|
            committed.snapper.inputs[t].contains(o) implies !committed.snapper.decides_against(
            o,
            t,
        ) by {
            assert(before.snapper.inputs[t].contains(o));
            assert(!before.snapper.decides_against(o, t));
            if before.snapper.decisions.contains_key(o) {
                assert(committed.snapper.decisions[o] == before.snapper.decisions[o]);
            } else if committed.snapper.decision(o) is Some {
                lemma_commit_all_reason(before, commits, o);
                let u = choose|u: SnapperTransactionId|
                    #![trigger before.snapper.inputs[u]]
                    commits.contains(u) && before.snapper.inputs[u].contains(o)
                        && committed.snapper.decision(o) == Some(
                        SnapperObjectDecision::Commit(u),
                    );
                seqs::lemma_filter_members(
                    order::sorted(before.snapper.inputs.dom()),
                    wanted,
                    u,
                );
                assert(d.commit_certified(m.inputs, n, u));
                assert(m.inputs[t].contains(o) && m.inputs[u].contains(o));
                assert(share_an_input(m, t, u));
            }
        }
    }
    lemma_committed_stays(committed.snapper, decided.snapper, t);
    seqs::lemma_take_next(rounds, i);
    lemma_decide_rounds_prefix(d, start, rounds, i + 1);
    lemma_committed_stays(decided.snapper, d.fast_decisions(m).snapper, t);
}

/// An object version with candidates that is skipped in a round is released,
/// where it is undecided and no transaction that owns it is certified up to that
/// round.
pub proof fn skipped_object_is_released(
    d: DagView,
    m: SnapperModel,
    n: Round,
    o: SnapperObjectKey,
)
    requires
        committee::usable_stakes(d.stakes),
        m.candidates.dom().finite(),
        m.candidates.contains_key(o),
        m.decision(o) is None,
        n > 0,
        two_thirds_skip(d, n, o),
        forall|k: Round, u: SnapperTransactionId|
            k <= n && m.inputs[u].contains(o) ==> !#[trigger] two_thirds_certify(
                d,
                m.inputs,
                k,
                u,
            ),
    ensures
        d.fast_decisions(m).snapper.decision(o) == Some(SnapperObjectDecision::Release),
{
    let start = Resolution::start(m);
    let rounds = order::sorted(d.rounds());
    lemma_certified_round(d, n, Set::new(|r: BlockRef| d.is_skip_cert(r, o)));
    round_certifies_by_two_thirds(d, m.inputs, n, arbitrary(), o);
    let i = lemma_round_place(rounds, n);
    let first = rounds.take(i + 1);
    assert forall|j: int| 0 <= j < first.len() implies #[trigger] first[j] <= n by {
        assert(first[j] == rounds[j]);
    }
    let decided = d.decide_rounds(start, first);
    lemma_only_released(d, m, first, n, o);
    lemma_decide_rounds(d, start, first);
    assert(first[i] == n);
    assert(round_settled(d, decided.snapper, first[i]));
    order::lemma_sorted_lists(m.candidates.dom());
    assert(order::sorted(decided.snapper.candidates.dom()).to_set().contains(o));
    assert(decided.snapper.resolved(o));
    lemma_decide_rounds_prefix(d, start, rounds, i + 1);
    assert(decided.snapper.decisions.contains_key(o));
}

proof fn lemma_only_released(
    d: DagView,
    m: SnapperModel,
    rounds: Seq<Round>,
    n: Round,
    o: SnapperObjectKey,
)
    requires
        committee::usable_stakes(d.stakes),
        m.decision(o) is None,
        forall|i: int| 0 <= i < rounds.len() ==> #[trigger] rounds[i] <= n,
        forall|k: Round, u: SnapperTransactionId|
            k <= n && m.inputs[u].contains(o) ==> !#[trigger] two_thirds_certify(
                d,
                m.inputs,
                k,
                u,
            ),
    ensures
        ({
            let x = d.decide_rounds(Resolution::start(m), rounds).snapper.decision(o);
            x is None || x == Some(SnapperObjectDecision::Release)
        }),
    decreases rounds.len(),
{
    if rounds.len() > 0 {
        let rest = rounds.drop_last();
        let k = rounds.last();
        assert forall|i: int| 0 <= i < rest.len() implies #[trigger] rest[i] <= n by {
            assert(rest[i] == rounds[i]);
        }
        assert(rounds[rounds.len() - 1] <= n);
        lemma_only_released(d, m, rest, n, o);
        let before = d.decide_rounds(Resolution::start(m), rest);
        let after = d.decide_rounds(Resolution::start(m), rounds);
        lemma_decide_rounds(d, Resolution::start(m), rest);
        lemma_decide_round(d, before, k);
        if before.snapper.decision(o) is Some {
            assert(before.snapper.decisions.contains_key(o));
        } else if after.snapper.decision(o) is Some {
            lemma_decide_round_reason(d, before, k, o);
            let x = after.snapper.decision(o)->0;
            if x != SnapperObjectDecision::Release {
                let u = choose|u: SnapperTransactionId|
                    #![trigger before.snapper.inputs[u]]
                    x == SnapperObjectDecision::Commit(u) && before.snapper.inputs[u].contains(o)
                        && d.commit_certified(before.snapper.inputs, k, u);
                round_certifies_by_two_thirds(d, m.inputs, k, u, o);
                assert(two_thirds_certify(d, m.inputs, k, u));
                assert(m.inputs[u].contains(o));
            }
        }
    }
}

/// Before the votes of a proposed block are cast, every known block that is
/// given or to which a walk from a parent leads is taken in, with its
/// transactions recorded, and so are the transactions of the block itself.
pub proof fn proposing_takes_in_linked_history(
    m: TrackerModel,
    parents: Seq<BlockRef>,
    refs: Seq<BlockRef>,
    transactions: Seq<block::TransactionView>,
    r: BlockRef,
    t: SnapperTransactionId,
)
    requires
        sound(m),
    ensures
        ({
            let before = m.before_casting(parents, refs, transactions);
            let linked = refs.contains(r) || exists|p: BlockRef|
                parents.contains(p) && #[trigger] graph_laws::leads_to(m.dag, p, r);
            &&& linked && m.dag.blocks.contains_key(r) ==> before.processed.contains(r)
            &&& linked && m.dag.blocks.contains_key(r) && graph_laws::carries(
                m.dag.blocks[r],
                t,
            ) ==> before.snapper.inputs.contains_key(t)
            &&& graph_laws::some_is(transactions, t) ==> before.snapper.inputs.contains_key(t)
            &&& before.dag == m.dag
            &&& before.votes == m.votes
        }),
{
    let all = tracker_model::linked(m.dag, parents, refs);
    let listed = order::sorted(all);
    let taken_in = m.with_processed(listed);
    let recorded = dag::after_transactions(taken_in.snapper, transactions);
    let before = m.before_casting(parents, refs, transactions);
    lemma_linked_finite(m.dag, parents, refs);
    order::lemma_sorted_lists(all);
    processing_takes_in_all(m, listed);
    tracker_model::lemma_processing_keeps_graph(m, listed);
    graph_laws::recording_tells_transactions(taken_in.snapper, transactions, arbitrary(), t);
    lemma_decide_rounds(m.dag, Resolution::start(recorded), order::sorted(m.dag.rounds()));
    if exists|p: BlockRef|
        parents.contains(p) && #[trigger] graph_laws::leads_to(m.dag, p, r) {
        let p = choose|p: BlockRef|
            parents.contains(p) && #[trigger] graph_laws::leads_to(m.dag, p, r);
        graph_laws::history_is_what_walks_reach(m.dag, p, r);
        assert(parents.contains(p) && m.dag.history(p).contains(r));
    }
    if all.contains(r) && m.dag.blocks.contains_key(r) {
        assert(listed.to_set().contains(r));
        assert(listed.contains(r));
        assert(taken_in.processed.contains(r));
        if graph_laws::carries(m.dag.blocks[r], t) {
            let b = m.dag.blocks[r];
            let i = choose|i: int|
                0 <= i < b.transactions.len() && (#[trigger] b.transactions[i]).metadata is Some
                    && b.transactions[i].metadata->0.id == t;
            assert(b.transactions.contains(b.transactions[i]));
            assert(taken_in.snapper.inputs.contains_key(t));
        }
    }
}

proof fn lemma_linked_finite(d: DagView, parents: Seq<BlockRef>, refs: Seq<BlockRef>)
    requires
        d.blocks.dom().finite(),
    ensures
        tracker_model::linked(d, parents, refs).finite(),
    decreases parents.len(),
{
    let all = tracker_model::linked(d, parents, refs);
    vstd::seq_lib::seq_to_set_is_finite(refs);
    if parents.len() == 0 {
        assert forall|r: BlockRef| all.contains(r) implies refs.to_set().contains(r) by {
            assert(refs.contains(r));
        }
        vstd::set_lib::lemma_set_subset_finite(refs.to_set(), all);
    } else {
        let rest = parents.drop_last();
        lemma_linked_finite(d, rest, refs);
        lemma_history_finite(d, parents.last());
        let fewer = tracker_model::linked(d, rest, refs);
        let both = fewer.union(d.history(parents.last()));
        seqs::lemma_take_next(parents, parents.len() - 1);
        seqs::lemma_take_ends(parents);
        assert(parents.take(parents.len() - 1) =~= rest);
        assert forall|r: BlockRef| all.contains(r) implies both.contains(r) by {
            if !refs.contains(r) {
                let p = choose|p: BlockRef| #[trigger]
                    parents.contains(p) && d.history(p).contains(r);
                assert(rest.contains(p) || p == parents.last());
            }
        }
        vstd::set_lib::lemma_set_subset_finite(both, all);
    }
}

/// What the fast path decided stands first among the changes of an anchor.
pub proof fn fast_changes_come_first(d: DagView, m: SnapperModel, anchor: BlockRef)
    ensures
        d.resolve_anchor(m, anchor).changed.take(d.fast_decisions(m).changed.len() as int)
            == d.fast_decisions(m).changed,
{
    lemma_resolve_anchor(d, m, anchor);
}

/// An anchor finalizes, outside recovery, only transactions in its history with
/// a certificate there and no input in recovery there.
pub proof fn only_certified_outside_recovery_are_finalized(
    d: DagView,
    r: Resolution,
    anchor: BlockRef,
    ts: Seq<SnapperTransactionId>,
    o: SnapperObjectKey,
)
    requires
        r.snapper.decision(o) is None,
        d.finalize_all(r, anchor, ts).snapper.decision(o) is Some,
    ensures
        exists|t: SnapperTransactionId|
            #![trigger r.snapper.inputs[t]]
            {
                &&& d.finalize_all(r, anchor, ts).snapper.decision(o) == Some(
                    SnapperObjectDecision::Commit(t),
                )
                &&& ts.contains(t)
                &&& r.snapper.inputs[t].contains(o)
                &&& graph_laws::certified_in_history(d, r.snapper.inputs, anchor, t)
                &&& exists|inputs: Seq<SnapperObjectKey>|
                    graph_laws::carried(d, anchor, t, inputs)
                &&& forall|p: SnapperObjectKey|
                    r.snapper.inputs[t].contains(p) ==> !#[trigger] d.recovery_objects_at(
                        anchor,
                    ).contains(p)
            },
    decreases ts.len(),
{
    if ts.len() > 0 {
        let rest = ts.drop_last();
        let t = ts.last();
        let before = d.finalize_all(r, anchor, rest);
        let after = d.finalize_all(r, anchor, ts);
        lemma_finalize_all(d, r, anchor, rest);
        lemma_commit_continues(before, t);
        seqs::lemma_take_next(ts, ts.len() - 1);
        seqs::lemma_take_ends(ts);
        assert(ts.take(ts.len() - 1) =~= rest);
        if before.snapper.decision(o) is Some {
            only_certified_outside_recovery_are_finalized(d, r, anchor, rest, o);
            let u = choose|u: SnapperTransactionId|
                #![trigger r.snapper.inputs[u]]
                {
                    &&& before.snapper.decision(o) == Some(SnapperObjectDecision::Commit(u))
                    &&& rest.contains(u)
                    &&& r.snapper.inputs[u].contains(o)
                    &&& graph_laws::certified_in_history(d, r.snapper.inputs, anchor, u)
                    &&& exists|inputs: Seq<SnapperObjectKey>|
                        graph_laws::carried(d, anchor, u, inputs)
                    &&& forall|p: SnapperObjectKey|
                        r.snapper.inputs[u].contains(p) ==> !#[trigger] d.recovery_objects_at(
                            anchor,
                        ).contains(p)
                };
            assert(before.snapper.decisions.contains_key(o));
            assert(ts.contains(u));
            assert(r.snapper.inputs[u].contains(o));
        } else {
            assert(d.finalizes(before.snapper, anchor, t));
            graph_laws::certificate_in_history_is_reached(d, r.snapper.inputs, anchor, t);
            graph_laws::included_is_carried(d, anchor, t);
            assert(before.snapper.inputs[t].contains(o));
            assert(r.snapper.inputs[t].contains(o));
        }
    }
}

/// What is resolved after some of the object versions stays so after all.
proof fn lemma_resolve_all_prefix(
    d: DagView,
    r: Resolution,
    anchor: BlockRef,
    os: Seq<SnapperObjectKey>,
    i: int,
)
    requires
        0 <= i <= os.len(),
    ensures
        continues(d.resolve_all(r, anchor, os.take(i)), d.resolve_all(r, anchor, os)),
    decreases os.len() - i,
{
    let a = d.resolve_all(r, anchor, os.take(i));
    if i == os.len() {
        seqs::lemma_take_ends(os);
        lemma_continues_reflexive(a);
    } else {
        seqs::lemma_take_next(os, i);
        let b = d.resolve_all(r, anchor, os.take(i + 1));
        lemma_resolve_object(d, a, anchor, os[i]);
        lemma_resolve_all_prefix(d, r, anchor, os, i + 1);
        lemma_continues_transitive(a, b, d.resolve_all(r, anchor, os));
    }
}

/// Object versions in recovery are resolved in ascending order, and of several
/// certified candidates the least is taken: the least object version in
/// recovery, where it is undecided when its turn comes, goes to the least
/// certified candidate that can be committed then.
pub proof fn least_object_goes_to_least_candidate(
    d: DagView,
    r: Resolution,
    anchor: BlockRef,
    o: SnapperObjectKey,
    t: SnapperTransactionId,
)
    requires
        d.blocks.dom().finite(),
        d.recovery_objects_at(anchor).contains(o),
        forall|p: SnapperObjectKey| #[trigger]
            d.recovery_objects_at(anchor).contains(p) ==> p == o || order::before(o, p),
        r.snapper.decision(o) is None,
        is_certified_candidate(d, r.snapper, anchor, o, t),
        r.snapper.can_commit(t),
        forall|u: SnapperTransactionId|
            #![trigger r.snapper.can_commit(u)]
            is_certified_candidate(d, r.snapper, anchor, o, u) && r.snapper.can_commit(u) ==> u == t
                || order::before(t, u),
    ensures
        d.resolve_all(
            r,
            anchor,
            order::sorted(d.recovery_objects_at(anchor)),
        ).snapper.committed_everywhere(t),
{
    let m = r.snapper;
    let recovering = d.recovery_objects_at(anchor);
    let objects = order::sorted(recovering);
    lemma_recovery_finite(d, anchor);
    order::lemma_sorted_lists(recovering);
    assert(objects.to_set().contains(o));
    let i = choose|i: int| 0 <= i < objects.len() && objects[i] == o;
    assert(objects.to_set().contains(objects[0]));
    if i != 0 {
        assert(order::before(objects[0], objects[i]));
        order::lemma_before_asymmetric(objects[0], o);
    }
    lemma_least_certified(d, m, anchor, o, t);
    let first = objects.take(1);
    seqs::lemma_take_next(objects, 0);
    seqs::lemma_take_ends(objects);
    assert(first.drop_last() =~= Seq::empty());
    let after = d.resolve_all(r, anchor, first);
    assert(after == d.resolve_object(r, anchor, o)) by {
        assert(first.last() == o);
        assert(d.resolve_all(r, anchor, first.drop_last()) == r);
    }
    lemma_commit_settles(m, t);
    lemma_resolve_all_prefix(d, r, anchor, objects, 1);
    lemma_committed_stays(after.snapper, d.resolve_all(r, anchor, objects).snapper, t);
}

/// The first of the certified candidates is the least.
proof fn lemma_least_certified(
    d: DagView,
    m: SnapperModel,
    anchor: BlockRef,
    o: SnapperObjectKey,
    t: SnapperTransactionId,
)
    requires
        d.blocks.dom().finite(),
        is_certified_candidate(d, m, anchor, o, t),
        m.can_commit(t),
        forall|u: SnapperTransactionId|
            #![trigger m.can_commit(u)]
            is_certified_candidate(d, m, anchor, o, u) && m.can_commit(u) ==> u == t
                || order::before(t, u),
    ensures
        d.certified_at(m, anchor, o).len() > 0,
        d.certified_at(m, anchor, o)[0] == t,
{
    let certified = d.certified_at(m, anchor, o);
    let visible = d.visible_candidates(anchor, o);
    let candidates = order::sorted(visible);
    lemma_visible_candidates_finite(d, anchor, o);
    order::lemma_sorted_lists(visible);
    graph_laws::visible_candidates_are_carried(d, anchor, o, t);
    graph_laws::certificate_in_history_is_reached(d, m.inputs, anchor, t);
    let wanted = |u: SnapperTransactionId| m.can_commit(u) && d.has_cert(m.inputs, anchor, u);
    assert(candidates.to_set().contains(t));
    seqs::lemma_filter_members(candidates, wanted, t);
    let i = choose|i: int| 0 <= i < certified.len() && certified[i] == t;
    lemma_certified_is_candidate(d, m, anchor, o);
    assert(m.can_commit(certified[0]));
    lemma_filter_ascends(candidates, wanted);
    if i != 0 {
        assert(order::before(certified[0], certified[i]));
        order::lemma_before_asymmetric(certified[0], t);
        order::lemma_before_irreflexive(t);
    }
}

/// What a filter keeps of an ascending sequence ascends.
proof fn lemma_filter_ascends<K: order::OrderedKey>(s: Seq<K>, wanted: spec_fn(K) -> bool)
    requires
        order::ascending(s),
    ensures
        order::ascending(s.filter(wanted)),
    decreases s.len(),
{
    reveal(Seq::filter);
    if s.len() > 0 {
        let rest = s.drop_last();
        let n = s.len() - 1;
        assert(order::ascending(rest)) by {
            assert forall|i: int, j: int| 0 <= i < j < rest.len() implies order::before(
                #[trigger] rest[i],
                #[trigger] rest[j],
            ) by {
                assert(order::before(s[i], s[j]));
            }
        }
        lemma_filter_ascends(rest, wanted);
        let kept = s.filter(wanted);
        let before = rest.filter(wanted);
        assert forall|i: int, j: int| 0 <= i < j < kept.len() implies order::before(
            #[trigger] kept[i],
            #[trigger] kept[j],
        ) by {
            if j < before.len() {
                assert(kept[i] == before[i] && kept[j] == before[j]);
            } else {
                assert(kept[i] == before[i]);
                assert(before.contains(before[i]));
                seqs::lemma_filter_members(rest, wanted, before[i]);
                let k = choose|k: int| 0 <= k < rest.len() && rest[k] == before[i];
                assert(order::before(s[k], s[n]));
            }
        }
    }
}

/// What is committed after some of the transactions stays so after all.
proof fn lemma_commit_all_prefix(r: Resolution, ts: Seq<SnapperTransactionId>, i: int)
    requires
        0 <= i <= ts.len(),
    ensures
        continues(r.commit_all(ts.take(i)), r.commit_all(ts)),
    decreases ts.len() - i,
{
    let a = r.commit_all(ts.take(i));
    if i == ts.len() {
        seqs::lemma_take_ends(ts);
        lemma_continues_reflexive(a);
    } else {
        seqs::lemma_take_next(ts, i);
        lemma_commit_continues(a, ts[i]);
        lemma_commit_all_prefix(r, ts, i + 1);
        lemma_continues_transitive(a, r.commit_all(ts.take(i + 1)), r.commit_all(ts));
    }
}

/// Of transactions certified in one round that share an input the least is
/// committed, whatever the round skips: a transaction that may go fast and is
/// certified in a round is committed on every input in that round, where every
/// transaction certified in it that shares an input comes later.
pub proof fn least_certified_transaction_of_round_commits(
    d: DagView,
    r: Resolution,
    n: Round,
    t: SnapperTransactionId,
)
    requires
        committee::usable_stakes(d.stakes),
        r.snapper.inputs.dom().finite(),
        r.snapper.can_commit(t),
        !r.snapper.mixed.contains(t),
        two_thirds_certify(d, r.snapper.inputs, n, t),
        forall|u: SnapperTransactionId|
            u != t && share_an_input(r.snapper, t, u) && #[trigger] two_thirds_certify(
                d,
                r.snapper.inputs,
                n,
                u,
            ) ==> order::before(t, u),
    ensures
        d.decide_round(r, n).snapper.committed_everywhere(t),
{
    let m = r.snapper;
    let ids = order::sorted(m.inputs.dom());
    let commits = d.fast_commits(m, n);
    let committed = r.commit_all(commits);
    let releases = d.fast_releases(committed.snapper, n);
    let wanted = |u: SnapperTransactionId| m.may_go_fast(u) && d.commit_certified(m.inputs, n, u);
    order::lemma_sorted_lists(m.inputs.dom());
    round_certifies_by_two_thirds(d, m.inputs, n, t, arbitrary());
    assert(ids.to_set().contains(t));
    seqs::lemma_filter_members(ids, wanted, t);
    lemma_filter_ascends(ids, wanted);
    let j = choose|j: int| 0 <= j < commits.len() && commits[j] == t;
    let head = commits.take(j);
    let before = r.commit_all(head);
    lemma_commit_all(r, head);
    assert(before.snapper.can_commit(t)) by {
        assert forall|o: SnapperObjectKey|
            before.snapper.inputs[t].contains(o) implies !before.snapper.decides_against(o, t) by {
            assert(m.inputs[t].contains(o));
            assert(!m.decides_against(o, t));
            if m.decisions.contains_key(o) {
                assert(before.snapper.decisions[o] == m.decisions[o]);
            } else if before.snapper.decision(o) is Some {
                lemma_commit_all_reason(r, head, o);
                let u = choose|u: SnapperTransactionId|
                    #![trigger r.snapper.inputs[u]]
                    head.contains(u) && r.snapper.inputs[u].contains(o) && before.snapper.decision(
                        o,
                    ) == Some(SnapperObjectDecision::Commit(u));
                let k = choose|k: int| 0 <= k < head.len() && head[k] == u;
                assert(commits[k] == u);
                assert(order::before(commits[k], commits[j]));
                assert(commits.contains(u));
                seqs::lemma_filter_members(ids, wanted, u);
                round_certifies_by_two_thirds(d, m.inputs, n, u, o);
                assert(m.inputs[t].contains(o) && m.inputs[u].contains(o));
                assert(share_an_input(m, t, u));
                assert(two_thirds_certify(d, m.inputs, n, u));
                if u != t {
                    order::lemma_before_asymmetric(u, t);
                }
            }
        }
    }
    seqs::lemma_take_next(commits, j);
    let done = r.commit_all(commits.take(j + 1));
    lemma_commit_settles(before.snapper, t);
    lemma_commit_all_prefix(r, commits, j + 1);
    lemma_committed_stays(done.snapper, committed.snapper, t);
    lemma_release_all(committed, releases);
    lemma_committed_stays(committed.snapper, d.decide_round(r, n).snapper, t);
}

/// Before a committed anchor decides, the given blocks are known, and every
/// known block to which a walk from the anchor leads is taken in.
pub proof fn anchor_takes_in_its_history(
    m: TrackerModel,
    anchor: BlockRef,
    blocks: Seq<VerifiedBlock>,
    r: BlockRef,
)
    requires
        sound(m),
    ensures
        ({
            let before = m.before_anchor(anchor, blocks);
            &&& before.dag.blocks.contains_key(r) <==> m.dag.blocks.contains_key(r) || exists|i: int|
                0 <= i < blocks.len() && (#[trigger] blocks[i])@.reference == r
            &&& m.dag.blocks.contains_key(r) ==> before.dag.blocks[r] == m.dag.blocks[r]
            &&& graph_laws::leads_to(before.dag, anchor, r) && before.dag.blocks.contains_key(r)
                ==> before.processed.contains(r)
            &&& before.votes == m.votes
            &&& before.gc_round == m.gc_round
        }),
{
    let seen = TrackerModel { dag: tracker_model::with_blocks(m.dag, blocks), ..m };
    let history = order::sorted(seen.dag.history(anchor));
    lemma_with_blocks(m.dag, blocks);
    lemma_with_blocks_only(m.dag, blocks, r);
    tracker_model::lemma_processing_keeps_graph(seen, history);
    processing_takes_in_all(seen, history);
    lemma_history_finite(seen.dag, anchor);
    order::lemma_sorted_lists(seen.dag.history(anchor));
    graph_laws::history_is_what_walks_reach(seen.dag, anchor, r);
    if graph_laws::leads_to(seen.dag, anchor, r) {
        assert(history.to_set().contains(r));
        assert(history.contains(r));
    }
}

proof fn lemma_with_blocks_only(d: DagView, blocks: Seq<VerifiedBlock>, r: BlockRef)
    ensures
        tracker_model::with_blocks(d, blocks).blocks.contains_key(r) ==> d.blocks.contains_key(r)
            || exists|i: int| 0 <= i < blocks.len() && (#[trigger] blocks[i])@.reference == r,
    decreases blocks.len(),
{
    if blocks.len() > 0 {
        let rest = blocks.drop_last();
        lemma_with_blocks_only(d, rest, r);
        assert(blocks[blocks.len() - 1] == blocks.last());
        if exists|i: int| 0 <= i < rest.len() && (#[trigger] rest[i])@.reference == r {
            let i = choose|i: int| 0 <= i < rest.len() && (#[trigger] rest[i])@.reference == r;
            assert(blocks[i] == rest[i]);
        }
    }
}

} // verus!
