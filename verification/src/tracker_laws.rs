//! Laws of the votes on transactions and of the Snapper protocol.
use vstd::prelude::*;

use crate::block;
use crate::block::VerifiedBlock;
use crate::committee;
use crate::dag;
use crate::dag::DagView;
use crate::graph_laws;
use crate::keys::{
    AuthorityIndex, BlockRef, Round, SnapperObjectKey, SnapperTransactionId, TransactionIndex,
};
use crate::order;
use crate::protocol::{
    SnapperBottomVoteKind, SnapperObjectDecision, SnapperObjectStance, SnapperObjectStanceVote,
};
use crate::resolution::{Casting, Resolution};
use crate::seqs;
use crate::state::SnapperModel;
use crate::state_laws;
use crate::tracker_model;
use crate::tracker_model::TrackerModel;

verus! {

/// `after` is reached from `before` without forgetting anything, and it is
/// consistent where `before` is.
pub open spec fn develops(before: SnapperModel, after: SnapperModel) -> bool {
    before.evolves_to(after) && (before.consistent() ==> after.consistent())
}

/// Recording transactions forgets nothing.
pub proof fn recording_transactions_develops(
    m: SnapperModel,
    transactions: Seq<block::TransactionView>,
)
    ensures
        develops(m, dag::after_transactions(m, transactions)),
    decreases transactions.len(),
{
    if transactions.len() == 0 {
        state_laws::evolution_is_reflexive(m);
    } else {
        recording_transactions_develops(m, transactions.drop_last());
        let before = dag::after_transactions(m, transactions.drop_last());
        match transactions.last().metadata {
            Some(d) => {
                state_laws::recording_a_transaction_evolves(before, d.id, d.owned_inputs, d.mixed);
                state_laws::evolution_is_transitive(
                    m,
                    before,
                    before.with_transaction(d.id, d.owned_inputs, d.mixed),
                );
            },
            None => {},
        }
    }
}

/// Declarations forget nothing.
pub proof fn declaring_stances_develops(
    m: SnapperModel,
    author: AuthorityIndex,
    votes: Seq<SnapperObjectStanceVote>,
)
    ensures
        develops(m, tracker_model::after_stances(m, author, votes)),
    decreases votes.len(),
{
    if votes.len() == 0 {
        state_laws::evolution_is_reflexive(m);
    } else {
        declaring_stances_develops(m, author, votes.drop_last());
        let before = tracker_model::after_stances(m, author, votes.drop_last());
        state_laws::declaring_a_stance_evolves(
            before,
            author,
            votes.last().object,
            votes.last().stance,
        );
        state_laws::evolution_is_transitive(
            m,
            before,
            before.with_stance(author, votes.last().object, votes.last().stance),
        );
    }
}

/// Taking in blocks forgets nothing.
pub proof fn processing_develops(m: TrackerModel, refs: Seq<BlockRef>)
    ensures
        develops(m.snapper, m.with_processed(refs).snapper),
    decreases refs.len(),
{
    if refs.len() == 0 {
        state_laws::evolution_is_reflexive(m.snapper);
    } else {
        processing_develops(m, refs.drop_last());
        let before = m.with_processed(refs.drop_last());
        let b = m.dag.blocks[refs.last()];
        let recorded = dag::after_transactions(before.snapper, b.transactions);
        let after = tracker_model::after_block(before.snapper, b);
        recording_transactions_develops(before.snapper, b.transactions);
        declaring_stances_develops(recorded, b.reference.author, b.stance_votes);
        state_laws::evolution_is_transitive(before.snapper, recorded, after);
        state_laws::evolution_is_transitive(m.snapper, before.snapper, after);
    }
}

proof fn lemma_commit_all_develops(r: Resolution, transactions: Seq<SnapperTransactionId>)
    ensures
        develops(r.snapper, r.commit_all(transactions).snapper),
        r.commit_all(transactions).snapper.inputs == r.snapper.inputs,
        r.commit_all(transactions).snapper.mixed == r.snapper.mixed,
        r.commit_all(transactions).snapper.candidates == r.snapper.candidates,
    decreases transactions.len(),
{
    if transactions.len() == 0 {
        state_laws::evolution_is_reflexive(r.snapper);
    } else {
        lemma_commit_all_develops(r, transactions.drop_last());
        let before = r.commit_all(transactions.drop_last()).snapper;
        state_laws::committing_evolves(before, transactions.last());
        state_laws::evolution_is_transitive(
            r.snapper,
            before,
            before.with_commit(transactions.last()),
        );
    }
}

proof fn lemma_release_all_develops(r: Resolution, objects: Seq<SnapperObjectKey>)
    ensures
        develops(r.snapper, r.release_all(objects).snapper),
        r.release_all(objects).snapper.inputs == r.snapper.inputs,
        r.release_all(objects).snapper.mixed == r.snapper.mixed,
        r.release_all(objects).snapper.candidates == r.snapper.candidates,
    decreases objects.len(),
{
    if objects.len() == 0 {
        state_laws::evolution_is_reflexive(r.snapper);
    } else {
        lemma_release_all_develops(r, objects.drop_last());
        let before = r.release_all(objects.drop_last()).snapper;
        state_laws::releasing_evolves(before, objects.last());
        state_laws::evolution_is_transitive(
            r.snapper,
            before,
            before.with_release(objects.last()),
        );
    }
}

proof fn lemma_decide_rounds_develops(d: DagView, r: Resolution, rounds: Seq<Round>)
    ensures
        develops(r.snapper, d.decide_rounds(r, rounds).snapper),
        d.decide_rounds(r, rounds).snapper.inputs == r.snapper.inputs,
        d.decide_rounds(r, rounds).snapper.mixed == r.snapper.mixed,
    decreases rounds.len(),
{
    if rounds.len() == 0 {
        state_laws::evolution_is_reflexive(r.snapper);
    } else {
        lemma_decide_rounds_develops(d, r, rounds.drop_last());
        let before = d.decide_rounds(r, rounds.drop_last());
        let round = rounds.last();
        let commits = d.fast_commits(before.snapper, round);
        let committed = before.commit_all(commits);
        let releases = d.fast_releases(committed.snapper, round);
        let after = committed.release_all(releases);
        lemma_commit_all_develops(before, commits);
        lemma_release_all_develops(committed, releases);
        state_laws::evolution_is_transitive(before.snapper, committed.snapper, after.snapper);
        state_laws::evolution_is_transitive(r.snapper, before.snapper, after.snapper);
    }
}

/// The fast path revises no decision.
pub proof fn fast_decisions_are_final(d: DagView, m: SnapperModel)
    ensures
        develops(m, d.fast_decisions(m).snapper),
{
    lemma_decide_rounds_develops(d, Resolution::start(m), order::sorted(d.rounds()));
}

proof fn lemma_finalize_all_develops(
    d: DagView,
    r: Resolution,
    anchor: BlockRef,
    transactions: Seq<SnapperTransactionId>,
)
    ensures
        develops(r.snapper, d.finalize_all(r, anchor, transactions).snapper),
    decreases transactions.len(),
{
    if transactions.len() == 0 {
        state_laws::evolution_is_reflexive(r.snapper);
    } else {
        lemma_finalize_all_develops(d, r, anchor, transactions.drop_last());
        let before = d.finalize_all(r, anchor, transactions.drop_last()).snapper;
        state_laws::committing_evolves(before, transactions.last());
        state_laws::evolution_is_transitive(
            r.snapper,
            before,
            before.with_commit(transactions.last()),
        );
    }
}

proof fn lemma_resolve_all_develops(
    d: DagView,
    r: Resolution,
    anchor: BlockRef,
    objects: Seq<SnapperObjectKey>,
)
    ensures
        develops(r.snapper, d.resolve_all(r, anchor, objects).snapper),
    decreases objects.len(),
{
    if objects.len() == 0 {
        state_laws::evolution_is_reflexive(r.snapper);
    } else {
        lemma_resolve_all_develops(d, r, anchor, objects.drop_last());
        let before = d.resolve_all(r, anchor, objects.drop_last()).snapper;
        let o = objects.last();
        let certified = d.certified_at(before, anchor, o);
        if certified.len() > 0 {
            state_laws::committing_evolves(before, certified[0]);
            state_laws::evolution_is_transitive(
                r.snapper,
                before,
                before.with_commit(certified[0]),
            );
        }
        state_laws::releasing_evolves(before, o);
        state_laws::evolution_is_transitive(r.snapper, before, before.with_release(o));
    }
}

/// A committed anchor forgets nothing and revises no decision.
pub proof fn committed_anchor_revises_nothing(
    m: TrackerModel,
    anchor: BlockRef,
    blocks: Seq<VerifiedBlock>,
)
    ensures
        ({
            let before = m.before_anchor(anchor, blocks);
            develops(m.snapper, before.dag.resolve_anchor(before.snapper, anchor).snapper)
        }),
{
    let seen = TrackerModel { dag: tracker_model::with_blocks(m.dag, blocks), ..m };
    let history = order::sorted(seen.dag.history(anchor));
    let before = m.before_anchor(anchor, blocks);
    let d = before.dag;
    processing_develops(seen, history);
    let fast = d.fast_decisions(before.snapper);
    fast_decisions_are_final(d, before.snapper);
    let ids = order::sorted(fast.snapper.inputs.dom());
    let finalized = d.finalize_all(fast, anchor, ids);
    lemma_finalize_all_develops(d, fast, anchor, ids);
    let objects = order::sorted(d.recovery_objects_at(anchor));
    let after = d.resolve_all(finalized, anchor, objects);
    lemma_resolve_all_develops(d, finalized, anchor, objects);
    state_laws::evolution_is_transitive(m.snapper, before.snapper, fast.snapper);
    state_laws::evolution_is_transitive(m.snapper, fast.snapper, finalized.snapper);
    state_laws::evolution_is_transitive(m.snapper, finalized.snapper, after.snapper);
}

/// The state after some stances are declared is the one that any authority comes
/// to that takes in the declarations.
pub open spec fn declared(start: SnapperModel, c: Casting) -> bool {
    c.snapper == tracker_model::after_stances(start, start.own, c.changes)
}

proof fn lemma_declare(
    start: SnapperModel,
    c: Casting,
    object: SnapperObjectKey,
    stance: SnapperObjectStance,
)
    requires
        declared(start, c),
    ensures
        declared(start, c.declare(object, stance)),
{
    declaring_stances_develops(start, start.own, c.changes);
    assert(c.declare(object, stance).changes.drop_last() =~= c.changes);
}

proof fn lemma_abandon_all_declared(
    d: DagView,
    start: SnapperModel,
    round: Round,
    parents: Seq<BlockRef>,
    objects: Seq<SnapperObjectKey>,
)
    ensures
        declared(start, d.abandon_all(Casting::start(start), round, parents, objects)),
    decreases objects.len(),
{
    if objects.len() > 0 {
        lemma_abandon_all_declared(d, start, round, parents, objects.drop_last());
        lemma_declare(
            start,
            d.abandon_all(Casting::start(start), round, parents, objects.drop_last()),
            objects.last(),
            SnapperObjectStance::Bottom,
        );
    }
}

proof fn lemma_acknowledge_all_declared(
    start: SnapperModel,
    c: Casting,
    recovery: Set<SnapperObjectKey>,
    objects: Seq<SnapperObjectKey>,
)
    requires
        declared(start, c),
    ensures
        declared(start, c.acknowledge_all(recovery, objects)),
    decreases objects.len(),
{
    if objects.len() > 0 {
        lemma_acknowledge_all_declared(start, c, recovery, objects.drop_last());
        let before = c.acknowledge_all(recovery, objects.drop_last());
        lemma_declare(
            start,
            before,
            objects.last(),
            SnapperObjectStance::Transaction(
                order::sorted(before.snapper.candidates_of(objects.last()))[0],
            ),
        );
    }
}

/// The stance changes that a proposed block carries tell all that changed: who
/// applies them to the state before the votes were cast comes to the state
/// after. And casting votes forgets nothing.
pub proof fn stance_changes_tell_all(
    d: DagView,
    m: SnapperModel,
    round: Round,
    parents: Seq<BlockRef>,
)
    ensures
        d.cast_votes(m, round, parents).snapper == tracker_model::after_stances(
            m,
            m.own,
            d.cast_votes(m, round, parents).changes,
        ),
        develops(m, d.cast_votes(m, round, parents).snapper),
{
    let recovery = m.recovery();
    let contested = order::sorted(recovery);
    lemma_abandon_all_declared(d, m, round, parents, contested);
    let abandoned = d.abandon_all(Casting::start(m), round, parents, contested);
    lemma_acknowledge_all_declared(
        m,
        abandoned,
        recovery,
        order::sorted(abandoned.snapper.candidates.dom()),
    );
    declaring_stances_develops(m, m.own, d.cast_votes(m, round, parents).changes);
}

/// Preparing the votes of a proposed block forgets nothing and revises no
/// decision.
pub proof fn proposing_revises_nothing(
    m: TrackerModel,
    round: Round,
    parents: Seq<BlockRef>,
    refs: Seq<BlockRef>,
    transactions: Seq<block::TransactionView>,
)
    ensures
        ({
            let before = m.before_casting(parents, refs, transactions);
            develops(m.snapper, before.dag.cast_votes(before.snapper, round, parents).snapper)
        }),
{
    let linked = order::sorted(tracker_model::linked(m.dag, parents, refs));
    let taken_in = m.with_processed(linked);
    let recorded = dag::after_transactions(taken_in.snapper, transactions);
    let before = m.before_casting(parents, refs, transactions);
    let after = before.dag.cast_votes(before.snapper, round, parents);
    processing_develops(m, linked);
    recording_transactions_develops(taken_in.snapper, transactions);
    fast_decisions_are_final(m.dag, recorded);
    stance_changes_tell_all(before.dag, before.snapper, round, parents);
    state_laws::evolution_is_transitive(m.snapper, taken_in.snapper, recorded);
    state_laws::evolution_is_transitive(m.snapper, recorded, before.snapper);
    state_laws::evolution_is_transitive(m.snapper, before.snapper, after.snapper);
}

/// Certificates for the transaction in some round after the first are by a
/// quorum.
pub open spec fn commit_certified_once(
    d: DagView,
    known: dag::KnownInputs,
    id: SnapperTransactionId,
) -> bool {
    exists|n: Round| n > 0 && #[trigger] d.commit_certified(known, n, id)
}

/// Skip certificates for the object version in some round after the first are by
/// a quorum.
pub open spec fn skip_certified_once(d: DagView, object: SnapperObjectKey) -> bool {
    exists|n: Round| n > 0 && #[trigger] d.skip_certified(n, object)
}

/// A decision of the fast path has its reason, and is no commit of a mixed
/// transaction.
pub open spec fn decision_certified(
    d: DagView,
    m: SnapperModel,
    object: SnapperObjectKey,
    decision: SnapperObjectDecision,
) -> bool {
    match decision {
        SnapperObjectDecision::Commit(t) => commit_certified_once(d, m.inputs, t)
            && !m.mixed.contains(t),
        SnapperObjectDecision::Release => skip_certified_once(d, object),
    }
}

/// Every new decision has its reason.
pub open spec fn decisions_certified(d: DagView, before: SnapperModel, after: SnapperModel) -> bool {
    forall|o: SnapperObjectKey|
        (#[trigger] after.decision(o)) is Some && before.decision(o) is None
            ==> decision_certified(d, before, o, after.decision(o)->0)
}

proof fn lemma_commits_certified(
    d: DagView,
    start: SnapperModel,
    r: Resolution,
    round: Round,
    transactions: Seq<SnapperTransactionId>,
)
    requires
        decisions_certified(d, start, r.snapper),
        round > 0,
        forall|i: int|
            0 <= i < transactions.len() ==> d.commit_certified(
                start.inputs,
                round,
                #[trigger] transactions[i],
            ) && !start.mixed.contains(transactions[i]),
    ensures
        decisions_certified(d, start, r.commit_all(transactions).snapper),
    decreases transactions.len(),
{
    if transactions.len() > 0 {
        let rest = transactions.drop_last();
        assert forall|i: int| 0 <= i < rest.len() implies d.commit_certified(
            start.inputs,
            round,
            #[trigger] rest[i],
        ) && !start.mixed.contains(rest[i]) by {
            assert(rest[i] == transactions[i]);
        }
        lemma_commits_certified(d, start, r, round, rest);
        let before = r.commit_all(rest).snapper;
        let after = before.with_commit(transactions.last());
        assert(d.commit_certified(start.inputs, round, transactions[transactions.len() - 1]));
        assert forall|o: SnapperObjectKey|
            (#[trigger] after.decision(o)) is Some && start.decision(o)
                is None implies decision_certified(d, start, o, after.decision(o)->0) by {
            if before.decision(o) is Some {
                assert(after.decision(o) == before.decision(o));
            } else {
                assert(after.decision(o) == Some(
                    SnapperObjectDecision::Commit(transactions.last()),
                ));
                assert(commit_certified_once(d, start.inputs, transactions.last()));
            }
        }
    }
}

proof fn lemma_releases_certified(
    d: DagView,
    start: SnapperModel,
    r: Resolution,
    round: Round,
    objects: Seq<SnapperObjectKey>,
)
    requires
        decisions_certified(d, start, r.snapper),
        round > 0,
        forall|i: int| 0 <= i < objects.len() ==> d.skip_certified(round, #[trigger] objects[i]),
    ensures
        decisions_certified(d, start, r.release_all(objects).snapper),
    decreases objects.len(),
{
    if objects.len() > 0 {
        let rest = objects.drop_last();
        assert forall|i: int| 0 <= i < rest.len() implies d.skip_certified(
            round,
            #[trigger] rest[i],
        ) by {
            assert(rest[i] == objects[i]);
        }
        lemma_releases_certified(d, start, r, round, rest);
        let before = r.release_all(rest).snapper;
        let after = before.with_release(objects.last());
        assert(d.skip_certified(round, objects[objects.len() - 1]));
        assert forall|o: SnapperObjectKey|
            (#[trigger] after.decision(o)) is Some && start.decision(o)
                is None implies decision_certified(d, start, o, after.decision(o)->0) by {
            if before.decision(o) is Some {
                assert(after.decision(o) == before.decision(o));
            }
        }
    }
}

proof fn lemma_rounds_certified(d: DagView, start: SnapperModel, rounds: Seq<Round>)
    requires
        forall|i: int| 0 <= i < rounds.len() ==> #[trigger] rounds[i] > 0,
    ensures
        decisions_certified(d, start, d.decide_rounds(Resolution::start(start), rounds).snapper),
    decreases rounds.len(),
{
    if rounds.len() > 0 {
        let rest = rounds.drop_last();
        let round = rounds.last();
        assert(rounds[rounds.len() - 1] > 0);
        assert forall|i: int| 0 <= i < rest.len() implies #[trigger] rest[i] > 0 by {
            assert(rest[i] == rounds[i]);
        }
        lemma_rounds_certified(d, start, rest);
        let before = d.decide_rounds(Resolution::start(start), rest);
        lemma_decide_rounds_develops(d, Resolution::start(start), rest);
        let ids = order::sorted(before.snapper.inputs.dom());
        let commits = d.fast_commits(before.snapper, round);
        let committable = |t: SnapperTransactionId|
            before.snapper.may_go_fast(t) && d.commit_certified(before.snapper.inputs, round, t);
        assert forall|i: int| 0 <= i < commits.len() implies d.commit_certified(
            start.inputs,
            round,
            #[trigger] commits[i],
        ) && !start.mixed.contains(commits[i]) by {
            assert(commits.contains(commits[i]));
            seqs::lemma_filter_members(ids, committable, commits[i]);
        }
        lemma_commits_certified(d, start, before, round, commits);
        let committed = before.commit_all(commits);
        let releases = d.fast_releases(committed.snapper, round);
        let objects = order::sorted(committed.snapper.candidates.dom());
        let releasable = |o: SnapperObjectKey|
            !committed.snapper.resolved(o) && d.skip_certified(round, o);
        assert forall|i: int| 0 <= i < releases.len() implies d.skip_certified(
            round,
            #[trigger] releases[i],
        ) by {
            assert(releases.contains(releases[i]));
            seqs::lemma_filter_members(objects, releasable, releases[i]);
        }
        lemma_releases_certified(d, start, committed, round, releases);
    }
}

/// The fast path commits a transaction only where it is not mixed, on
/// certificates by a quorum in one round after the first, and releases an object
/// version only on skip certificates by a quorum in one such round.
pub proof fn fast_decisions_need_a_quorum(d: DagView, m: SnapperModel)
    ensures
        decisions_certified(d, m, d.fast_decisions(m).snapper),
{
    let rounds = order::sorted(d.rounds());
    lemma_rounds_finite(d.rounds());
    order::lemma_sorted_lists(d.rounds());
    assert forall|i: int| 0 <= i < rounds.len() implies #[trigger] rounds[i] > 0 by {
        assert(rounds.contains(rounds[i]));
        assert(rounds.to_set().contains(rounds[i]));
    }
    lemma_rounds_certified(d, m, rounds);
}

/// There are finitely many rounds.
pub proof fn lemma_rounds_finite(rounds: Set<Round>)
    ensures
        rounds.finite(),
{
    let numbers = vstd::set_lib::set_int_range(0, 0x1_0000_0000);
    vstd::set_lib::lemma_int_range(0, 0x1_0000_0000);
    let all = numbers.map(|n: int| n as Round);
    assert forall|n: Round| rounds.contains(n) implies all.contains(n) by {
        assert(numbers.contains(n as int));
        assert((n as int) as Round == n);
    }
    numbers.lemma_map_finite(|n: int| n as Round);
    vstd::set_lib::lemma_set_subset_finite(all, rounds);
}

/// At a committed anchor a certified transaction takes its object version,
/// whatever skip or unlock certificates there are.
pub proof fn certificate_has_priority(
    d: DagView,
    before: Resolution,
    anchor: BlockRef,
    object: SnapperObjectKey,
)
    requires
        !before.snapper.resolved(object),
        d.certified_at(before.snapper, anchor, object).len() > 0,
        before.snapper.inputs[d.certified_at(before.snapper, anchor, object)[0]].contains(object),
    ensures
        d.resolve_object(before, anchor, object).snapper.decision(object) == Some(
            SnapperObjectDecision::Commit(d.certified_at(before.snapper, anchor, object)[0]),
        ),
{
    let certified = d.certified_at(before.snapper, anchor, object);
    let t = certified[0];
    let candidates = order::sorted(d.visible_candidates(anchor, object));
    let wanted = |t: SnapperTransactionId|
        before.snapper.can_commit(t) && d.has_cert(before.snapper.inputs, anchor, t);
    assert(certified.contains(t));
    seqs::lemma_filter_members(candidates, wanted, t);
    state_laws::commit_is_atomic(before.snapper, t);
}

/// At a committed anchor an object version is released only on a skip or unlock
/// certificate, and only where no candidate in the history can be committed on
/// a certificate.
pub proof fn release_needs_absence_of_certificates(
    d: DagView,
    before: Resolution,
    anchor: BlockRef,
    object: SnapperObjectKey,
)
    requires
        !before.snapper.resolved(object),
        d.resolve_object(before, anchor, object).snapper.decision(object) == Some(
            SnapperObjectDecision::Release,
        ),
    ensures
        d.has_opposing_cert(anchor, object),
        forall|t: SnapperTransactionId|
            order::sorted(d.visible_candidates(anchor, object)).contains(t)
                && before.snapper.can_commit(t) ==> !#[trigger] d.has_cert(
                before.snapper.inputs,
                anchor,
                t,
            ),
{
    let candidates = order::sorted(d.visible_candidates(anchor, object));
    let wanted = |t: SnapperTransactionId|
        before.snapper.can_commit(t) && d.has_cert(before.snapper.inputs, anchor, t);
    assert forall|t: SnapperTransactionId|
        candidates.contains(t) && before.snapper.can_commit(t) implies !#[trigger] d.has_cert(
        before.snapper.inputs,
        anchor,
        t,
    ) by {
        seqs::lemma_filter_members(candidates, wanted, t);
    }
}

/// A skip certificate is also an unlock certificate.
pub proof fn skip_certificate_is_unlock_certificate(
    d: DagView,
    r: BlockRef,
    object: SnapperObjectKey,
)
    requires
        d.is_skip_cert(r, object),
    ensures
        d.is_unlock_cert(r, object),
{
    let skips = Set::new(
        |p: BlockRef|
            d.is_round_parent(r, p) && d.bottom_vote_kind_at(p, object) == Some(
                SnapperBottomVoteKind::Skip,
            ),
    );
    let bottoms = Set::new(
        |p: BlockRef| d.is_round_parent(r, p) && d.bottom_vote_kind_at(p, object) is Some,
    );
    assert forall|a: AuthorityIndex| dag::authors_of(skips).contains(a) implies dag::authors_of(
        bottoms,
    ).contains(a) by {
        let p = choose|p: BlockRef| #[trigger] skips.contains(p) && p.author == a;
        assert(bottoms.contains(p));
    }
    committee::lemma_stake_of_monotone(
        d.stakes,
        dag::authors_of(skips),
        dag::authors_of(bottoms),
    );
}

/// The authority stands for different things on an object version in two blocks
/// of the given rounds.
pub open spec fn stands_for_both(
    d: DagView,
    author: AuthorityIndex,
    object: SnapperObjectKey,
    first: (int, SnapperObjectStance),
    second: (int, SnapperObjectStance),
) -> bool {
    exists|p: BlockRef, q: BlockRef|
        #![trigger d.stance_at(p, object), d.stance_at(q, object)]
        p.author == author && q.author == author && p.round == first.0 && q.round == second.0
            && d.stance_at(p, object) == Some(first.1) && d.stance_at(q, object) == Some(second.1)
}

/// Certificates for two transactions that own one object version take more
/// stake than may be faulty to stand for both, each in a block of the round
/// before the certificate's.
pub proof fn conflicting_certificates_need_faulty_stake(
    d: DagView,
    known: dag::KnownInputs,
    a: BlockRef,
    b: BlockRef,
    t: SnapperTransactionId,
    u: SnapperTransactionId,
    object: SnapperObjectKey,
)
    requires
        committee::usable_stakes(d.stakes),
        d.is_fast_cert(known, a, t),
        d.is_fast_cert(known, b, u),
        d.owned_inputs_for(known, t)->0.contains(object),
        d.owned_inputs_for(known, u)->0.contains(object),
    ensures
        exists|both: Set<AuthorityIndex>|
            #![trigger committee::stake_of(d.stakes, both)]
            committee::stake_of(d.stakes, both) > committee::fault_tolerance(d.stakes) && forall|
                x: AuthorityIndex,
            | #[trigger]
                both.contains(x) ==> stands_for_both(
                    d,
                    x,
                    object,
                    (dag::previous_round(a.round), SnapperObjectStance::Transaction(t)),
                    (dag::previous_round(b.round), SnapperObjectStance::Transaction(u)),
                ),
{
    let at = dag::authors_of(d.fast_votes_of(known, a, t));
    let bu = dag::authors_of(d.fast_votes_of(known, b, u));
    committee::quorums_intersect(d.stakes, at, bu);
    let both = at.intersect(bu);
    assert forall|x: AuthorityIndex| #[trigger] both.contains(x) implies stands_for_both(
        d,
        x,
        object,
        (dag::previous_round(a.round), SnapperObjectStance::Transaction(t)),
        (dag::previous_round(b.round), SnapperObjectStance::Transaction(u)),
    ) by {
        let p = choose|p: BlockRef| #[trigger]
            d.fast_votes_of(known, a, t).contains(p) && p.author == x;
        let q = choose|q: BlockRef| #[trigger]
            d.fast_votes_of(known, b, u).contains(q) && q.author == x;
        assert(d.stance_at(p, object) == Some(SnapperObjectStance::Transaction(t)));
        assert(d.stance_at(q, object) == Some(SnapperObjectStance::Transaction(u)));
    }
}

/// A certificate for a transaction and an unlock certificate for one of its
/// inputs take more stake than may be faulty to stand for both, each in a block
/// of the round before the certificate's.
pub proof fn opposing_certificates_need_faulty_stake(
    d: DagView,
    known: dag::KnownInputs,
    a: BlockRef,
    b: BlockRef,
    t: SnapperTransactionId,
    object: SnapperObjectKey,
)
    requires
        committee::usable_stakes(d.stakes),
        d.is_fast_cert(known, a, t),
        d.owned_inputs_for(known, t)->0.contains(object),
        d.is_unlock_cert(b, object),
    ensures
        exists|both: Set<AuthorityIndex>|
            #![trigger committee::stake_of(d.stakes, both)]
            committee::stake_of(d.stakes, both) > committee::fault_tolerance(d.stakes) && forall|
                x: AuthorityIndex,
            | #[trigger]
                both.contains(x) ==> stands_for_both(
                    d,
                    x,
                    object,
                    (dag::previous_round(a.round), SnapperObjectStance::Transaction(t)),
                    (dag::previous_round(b.round), SnapperObjectStance::Bottom),
                ),
{
    let bottoms = Set::new(
        |p: BlockRef| d.is_round_parent(b, p) && d.bottom_vote_kind_at(p, object) is Some,
    );
    let at = dag::authors_of(d.fast_votes_of(known, a, t));
    let bu = dag::authors_of(bottoms);
    committee::quorums_intersect(d.stakes, at, bu);
    let both = at.intersect(bu);
    assert forall|x: AuthorityIndex| #[trigger] both.contains(x) implies stands_for_both(
        d,
        x,
        object,
        (dag::previous_round(a.round), SnapperObjectStance::Transaction(t)),
        (dag::previous_round(b.round), SnapperObjectStance::Bottom),
    ) by {
        let p = choose|p: BlockRef| #[trigger]
            d.fast_votes_of(known, a, t).contains(p) && p.author == x;
        let q = choose|q: BlockRef| #[trigger] bottoms.contains(q) && q.author == x;
        assert(d.stance_at(p, object) == Some(SnapperObjectStance::Transaction(t)));
        assert(d.stance_at(q, object) == Some(SnapperObjectStance::Bottom));
    }
}

pub proof fn lemma_reject_votes_keep_blocks(
    m: TrackerModel,
    author: AuthorityIndex,
    votes: Seq<block::TransactionVotesView>,
    r: BlockRef,
)
    ensures
        ({
            let n = m.with_all_reject_votes(author, votes);
            &&& n.votes_on(r).block == m.votes_on(r).block
            &&& n.votes_on(r).own_rejects == m.votes_on(r).own_rejects
            &&& n.dag == m.dag
            &&& n.gc_round == m.gc_round
            &&& n.snapper == m.snapper
            &&& n.processed == m.processed
        }),
    decreases votes.len(),
{
    if votes.len() > 0 {
        lemma_reject_votes_keep_blocks(m, author, votes.drop_last(), r);
    }
}

/// Adding a block a second time changes nothing, whatever own votes come with
/// it.
pub proof fn block_is_added_once(
    m: TrackerModel,
    b: block::BlockView,
    own_rejects: Seq<TransactionIndex>,
    other_rejects: Seq<TransactionIndex>,
)
    ensures
        m.with_voted_block(b, own_rejects).with_voted_block(b, other_rejects)
            == m.with_voted_block(b, own_rejects),
{
    let once = m.with_voted_block(b, own_rejects);
    if b.reference.round > m.gc_round {
        let seen = TrackerModel { dag: tracker_model::with_block(m.dag, b), ..m };
        if m.votes_on(b.reference).block is None {
            let received = seen.with_received(b, own_rejects);
            lemma_reject_votes_keep_blocks(
                received,
                b.reference.author,
                b.transaction_votes,
                b.reference,
            );
            assert(received.votes_on(b.reference).block == Some(b));
        }
        assert(once.dag == tracker_model::with_block(m.dag, b));
        assert(tracker_model::with_block(once.dag, b) == once.dag);
        assert(once.with_voted_block(b, other_rejects) =~= once);
    }
}

/// What adding a block does to the graph.
pub proof fn lemma_voted_block_graph(
    m: TrackerModel,
    b: block::BlockView,
    own_rejects: Seq<TransactionIndex>,
)
    ensures
        m.with_voted_block(b, own_rejects).dag == (if b.reference.round <= m.gc_round {
            m.dag
        } else {
            tracker_model::with_block(m.dag, b)
        }),
{
    let seen = TrackerModel { dag: tracker_model::with_block(m.dag, b), ..m };
    lemma_reject_votes_keep_blocks(
        seen.with_received(b, own_rejects),
        b.reference.author,
        b.transaction_votes,
        b.reference,
    );
}

/// Counting votes decides nothing: adding a block leaves the state of the
/// unlocking layer as it was.
pub proof fn counting_votes_decides_nothing(
    m: TrackerModel,
    b: block::BlockView,
    own_rejects: Seq<TransactionIndex>,
)
    ensures
        m.with_voted_block(b, own_rejects).snapper == m.snapper,
        m.with_voted_block(b, own_rejects).processed == m.processed,
        m.with_voted_block(b, own_rejects).gc_round == m.gc_round,
{
    let seen = TrackerModel { dag: tracker_model::with_block(m.dag, b), ..m };
    lemma_reject_votes_keep_blocks(
        seen.with_received(b, own_rejects),
        b.reference.author,
        b.transaction_votes,
        b.reference,
    );
}

/// The own votes on a block are those that came with it when it was first
/// received.
pub proof fn own_votes_are_those_first_given(
    m: TrackerModel,
    b: block::BlockView,
    own_rejects: Seq<TransactionIndex>,
)
    requires
        b.reference.round > m.gc_round,
        m.votes_on(b.reference).block is None,
    ensures
        m.with_voted_block(b, own_rejects).votes_on(b.reference).own_rejects == own_rejects,
        m.with_voted_block(b, own_rejects).votes_on(b.reference).block == Some(b),
{
    let seen = TrackerModel { dag: tracker_model::with_block(m.dag, b), ..m };
    lemma_reject_votes_keep_blocks(
        seen.with_received(b, own_rejects),
        b.reference.author,
        b.transaction_votes,
        b.reference,
    );
}

/// An authority that rejects a transaction again is not counted again.
pub proof fn rejects_count_once(
    rejects: Map<TransactionIndex, Set<AuthorityIndex>>,
    author: AuthorityIndex,
    indices: Seq<TransactionIndex>,
)
    ensures
        tracker_model::with_rejects(
            tracker_model::with_rejects(rejects, author, indices),
            author,
            indices,
        ) == tracker_model::with_rejects(rejects, author, indices),
{
    let once = tracker_model::with_rejects(rejects, author, indices);
    let twice = tracker_model::with_rejects(once, author, indices);
    assert(once.dom() =~= twice.dom());
    assert forall|i: TransactionIndex| #[trigger] once.contains_key(i) implies once[i]
        =~= twice[i] by {}
    assert(once =~= twice);
}

/// No votes are kept on blocks up to the GC round.
pub open spec fn votes_above_gc_round(m: TrackerModel) -> bool {
    forall|r: BlockRef| #[trigger] m.votes.contains_key(r) ==> r.round > m.gc_round
}

proof fn lemma_reject_votes_above_gc_round(
    m: TrackerModel,
    author: AuthorityIndex,
    votes: Seq<block::TransactionVotesView>,
)
    requires
        votes_above_gc_round(m),
    ensures
        votes_above_gc_round(m.with_all_reject_votes(author, votes)),
        m.with_all_reject_votes(author, votes).gc_round == m.gc_round,
    decreases votes.len(),
{
    if votes.len() > 0 {
        lemma_reject_votes_above_gc_round(m, author, votes.drop_last());
    }
}

/// Garbage collection leaves no votes on blocks up to the GC round, and adding
/// blocks brings none back.
pub proof fn votes_stay_above_gc_round(
    m: TrackerModel,
    gc_round: Round,
    b: block::BlockView,
    own_rejects: Seq<TransactionIndex>,
)
    ensures
        votes_above_gc_round(m.with_gc_round(gc_round)),
        votes_above_gc_round(m) ==> votes_above_gc_round(m.with_voted_block(b, own_rejects)),
{
    if votes_above_gc_round(m) && b.reference.round > m.gc_round {
        let seen = TrackerModel { dag: tracker_model::with_block(m.dag, b), ..m };
        if m.votes_on(b.reference).block is None {
            lemma_reject_votes_above_gc_round(
                seen.with_received(b, own_rejects),
                b.reference.author,
                b.transaction_votes,
            );
        }
    }
}

/// Garbage collection keeps the votes on blocks above the GC round, the known
/// blocks and the state of the unlocking layer.
pub proof fn gc_keeps_later_votes(m: TrackerModel, gc_round: Round, r: BlockRef)
    requires
        r.round > gc_round,
    ensures
        m.with_gc_round(gc_round).votes_on(r) == m.votes_on(r),
        m.with_gc_round(gc_round).dag == m.dag,
        m.with_gc_round(gc_round).snapper == m.snapper,
{
}

/// Declarations move no stance but their author's.
pub proof fn declarations_move_only_their_author(
    m: SnapperModel,
    author: AuthorityIndex,
    votes: Seq<SnapperObjectStanceVote>,
    other: AuthorityIndex,
    object: SnapperObjectKey,
)
    requires
        other != author,
    ensures
        tracker_model::after_stances(m, author, votes).stance(other, object) == m.stance(
            other,
            object,
        ),
    decreases votes.len(),
{
    if votes.len() > 0 {
        declarations_move_only_their_author(m, author, votes.drop_last(), other, object);
    }
}

/// The transaction is recorded, and competes for each of its inputs.
spec fn has_recorded(m: SnapperModel, x: block::TransactionView) -> bool {
    x.metadata matches Some(d) ==> m.inputs.contains_key(d.id) && forall|o: SnapperObjectKey|
        d.owned_inputs.contains(o) ==> #[trigger] m.candidates_of(o).contains(d.id)
}

/// The author has taken a stance on the object version, and is at Bottom where
/// the declaration says so.
spec fn has_declared(m: SnapperModel, author: AuthorityIndex, v: SnapperObjectStanceVote) -> bool {
    &&& m.stance(author, v.object) is Some
    &&& v.stance is Bottom ==> m.stance(author, v.object) == Some(SnapperObjectStance::Bottom)
}

proof fn lemma_recorded_stays(m: SnapperModel, later: SnapperModel, x: block::TransactionView)
    requires
        m.evolves_to(later),
        has_recorded(m, x),
    ensures
        has_recorded(later, x),
        later.with_metadata(x.metadata) == later,
{
    match x.metadata {
        Some(d) => {
            assert forall|o: SnapperObjectKey|
                d.owned_inputs.contains(o) implies #[trigger] later.candidates_of(o).contains(
                d.id,
            ) by {
                assert(m.candidates_of(o).contains(d.id));
            }
            assert(m.inputs.contains_key(d.id));
            let again = later.with_transaction(d.id, d.owned_inputs, d.mixed);
            assert forall|o: SnapperObjectKey| #[trigger]
                again.candidates.contains_key(o) <==> later.candidates.contains_key(o) by {
                if d.owned_inputs.contains(o) {
                    assert(later.candidates_of(o).contains(d.id));
                }
            }
            assert forall|o: SnapperObjectKey| #[trigger]
                later.candidates.contains_key(o) implies again.candidates[o]
                =~= later.candidates[o] by {
                if d.owned_inputs.contains(o) {
                    assert(later.candidates_of(o).contains(d.id));
                }
            }
            assert(again.candidates =~= later.candidates);
            assert(again =~= later);
        },
        None => {},
    }
}

proof fn lemma_transactions_recorded(m: SnapperModel, transactions: Seq<block::TransactionView>)
    ensures
        forall|i: int|
            0 <= i < transactions.len() ==> has_recorded(
                dag::after_transactions(m, transactions),
                #[trigger] transactions[i],
            ),
    decreases transactions.len(),
{
    if transactions.len() > 0 {
        let rest = transactions.drop_last();
        let last = transactions.last();
        let before = dag::after_transactions(m, rest);
        let after = dag::after_transactions(m, transactions);
        lemma_transactions_recorded(m, rest);
        match last.metadata {
            Some(d) => {
                state_laws::recording_a_transaction_evolves(before, d.id, d.owned_inputs, d.mixed);
            },
            None => {
                state_laws::evolution_is_reflexive(before);
            },
        }
        assert forall|i: int| 0 <= i < transactions.len() implies has_recorded(
            after,
            #[trigger] transactions[i],
        ) by {
            if i < rest.len() {
                assert(rest[i] == transactions[i]);
                lemma_recorded_stays(before, after, transactions[i]);
            }
        }
    }
}

proof fn lemma_recorded_again(
    m: SnapperModel,
    later: SnapperModel,
    transactions: Seq<block::TransactionView>,
)
    requires
        m.evolves_to(later),
        forall|i: int|
            0 <= i < transactions.len() ==> has_recorded(m, #[trigger] transactions[i]),
    ensures
        dag::after_transactions(later, transactions) == later,
    decreases transactions.len(),
{
    if transactions.len() > 0 {
        let rest = transactions.drop_last();
        assert forall|i: int| 0 <= i < rest.len() implies has_recorded(m, #[trigger] rest[i]) by {
            assert(rest[i] == transactions[i]);
        }
        lemma_recorded_again(m, later, rest);
        assert(has_recorded(m, transactions[transactions.len() - 1]));
        lemma_recorded_stays(m, later, transactions.last());
    }
}

proof fn lemma_declared_stays(
    m: SnapperModel,
    later: SnapperModel,
    author: AuthorityIndex,
    v: SnapperObjectStanceVote,
)
    requires
        m.evolves_to(later),
        has_declared(m, author, v),
    ensures
        has_declared(later, author, v),
        later.with_stance(author, v.object, v.stance) == later,
{
    assert(m.stance(author, v.object) is Some);
}

proof fn lemma_stances_declared(
    m: SnapperModel,
    author: AuthorityIndex,
    votes: Seq<SnapperObjectStanceVote>,
)
    ensures
        forall|i: int|
            0 <= i < votes.len() ==> has_declared(
                tracker_model::after_stances(m, author, votes),
                author,
                #[trigger] votes[i],
            ),
    decreases votes.len(),
{
    if votes.len() > 0 {
        let rest = votes.drop_last();
        let last = votes.last();
        let before = tracker_model::after_stances(m, author, rest);
        let after = tracker_model::after_stances(m, author, votes);
        lemma_stances_declared(m, author, rest);
        state_laws::declaring_a_stance_evolves(before, author, last.object, last.stance);
        assert forall|i: int| 0 <= i < votes.len() implies has_declared(
            after,
            author,
            #[trigger] votes[i],
        ) by {
            if i < rest.len() {
                assert(rest[i] == votes[i]);
                lemma_declared_stays(before, after, author, votes[i]);
            }
        }
    }
}

proof fn lemma_declared_again(
    m: SnapperModel,
    later: SnapperModel,
    author: AuthorityIndex,
    votes: Seq<SnapperObjectStanceVote>,
)
    requires
        m.evolves_to(later),
        forall|i: int| 0 <= i < votes.len() ==> has_declared(m, author, #[trigger] votes[i]),
    ensures
        tracker_model::after_stances(later, author, votes) == later,
    decreases votes.len(),
{
    if votes.len() > 0 {
        let rest = votes.drop_last();
        assert forall|i: int| 0 <= i < rest.len() implies has_declared(
            m,
            author,
            #[trigger] rest[i],
        ) by {
            assert(rest[i] == votes[i]);
        }
        lemma_declared_again(m, later, author, rest);
        assert(has_declared(m, author, votes[votes.len() - 1]));
        lemma_declared_stays(m, later, author, votes.last());
    }
}

/// A block that was taken in and is taken in again, in any later state, changes
/// nothing. So it does no harm to forget which blocks of dropped rounds were
/// taken in.
pub proof fn block_taken_in_again_changes_nothing(
    m: SnapperModel,
    b: block::BlockView,
    later: SnapperModel,
)
    requires
        tracker_model::after_block(m, b).evolves_to(later),
    ensures
        tracker_model::after_block(later, b) == later,
{
    let author = b.reference.author;
    let recorded = dag::after_transactions(m, b.transactions);
    let taken_in = tracker_model::after_block(m, b);
    lemma_transactions_recorded(m, b.transactions);
    declaring_stances_develops(recorded, author, b.stance_votes);
    state_laws::evolution_is_transitive(recorded, taken_in, later);
    lemma_recorded_again(recorded, later, b.transactions);
    lemma_stances_declared(recorded, author, b.stance_votes);
    lemma_declared_again(taken_in, later, author, b.stance_votes);
}

/// What lies in a history still does when a block becomes known.
pub proof fn history_grows(d: DagView, b: block::BlockView, root: BlockRef)
    ensures
        d.history(root).subset_of(tracker_model::with_block(d, b).history(root)),
{
    let e = tracker_model::with_block(d, b);
    dag::history_is_least(d, root);
    dag::history_is_least(e, root);
    assert(d.holds_ancestors(e.history(root))) by {
        let h = e.history(root);
        assert forall|r: BlockRef, a: BlockRef|
            #![trigger h.contains(r), d.blocks[r].ancestors.contains(a)]
            h.contains(r) && d.blocks.contains_key(r) && d.blocks[r].ancestors.contains(
                a,
            ) implies h.contains(a) by {
            assert(e.blocks.contains_key(r) && e.blocks[r] == d.blocks[r]);
            assert(e.blocks[r].ancestors.contains(a));
        }
    }
}

/// A stance that was found in a chain stays when a block becomes known.
pub proof fn stances_persist(
    d: DagView,
    b: block::BlockView,
    r: BlockRef,
    object: SnapperObjectKey,
)
    requires
        d.stance_at(r, object) is Some,
    ensures
        tracker_model::with_block(d, b).stance_at(r, object) == d.stance_at(r, object),
    decreases r.round,
{
    let e = tracker_model::with_block(d, b);
    assert(e.blocks[r] == d.blocks[r]);
    if dag::last_declared(d.blocks[r].stance_votes, object) is None {
        match d.own_ancestor(r) {
            Some(a) => {
                stances_persist(d, b, a, object);
            },
            None => {},
        }
    }
}

/// A fast vote stays one when a block becomes known.
pub proof fn fast_votes_persist(
    d: DagView,
    b: block::BlockView,
    known: dag::KnownInputs,
    r: BlockRef,
    id: SnapperTransactionId,
)
    requires
        known.contains_key(id),
        d.is_fast_vote(known, r, id),
    ensures
        tracker_model::with_block(d, b).is_fast_vote(known, r, id),
{
    let e = tracker_model::with_block(d, b);
    let x = choose|x: block::TransactionView| #[trigger]
        d.visible(r, x) && dag::is_transaction(x, id);
    let c = choose|c: BlockRef| #[trigger]
        d.history(r).contains(c) && d.blocks.contains_key(c) && d.blocks[c].transactions.contains(
            x,
        );
    history_grows(d, b, r);
    assert(e.history(r).contains(c) && e.blocks.contains_key(c)
        && e.blocks[c].transactions.contains(x));
    assert(e.visible(r, x));
    assert forall|o: SnapperObjectKey| #[trigger]
        e.owned_inputs_for(known, id)->0.contains(o) implies e.stance_at(r, o) == Some(
        SnapperObjectStance::Transaction(id),
    ) by {
        assert(d.owned_inputs_for(known, id)->0.contains(o));
        stances_persist(d, b, r, o);
    }
}

/// A transaction certificate stays one when a block becomes known.
pub proof fn certificates_persist(
    d: DagView,
    b: block::BlockView,
    known: dag::KnownInputs,
    r: BlockRef,
    id: SnapperTransactionId,
)
    requires
        known.contains_key(id),
        d.is_fast_cert(known, r, id),
    ensures
        tracker_model::with_block(d, b).is_fast_cert(known, r, id),
{
    let e = tracker_model::with_block(d, b);
    fast_votes_persist(d, b, known, r, id);
    let few = dag::authors_of(d.fast_votes_of(known, r, id));
    let many = dag::authors_of(e.fast_votes_of(known, r, id));
    assert forall|a: AuthorityIndex| few.contains(a) implies many.contains(a) by {
        let p = choose|p: BlockRef| #[trigger]
            d.fast_votes_of(known, r, id).contains(p) && p.author == a;
        fast_votes_persist(d, b, known, p, id);
        assert(e.is_round_parent(r, p));
        assert(e.fast_votes_of(known, r, id).contains(p));
    }
    committee::lemma_stake_of_monotone(d.stakes, few, many);
}

/// A decision of a committed anchor has its reason in the anchor's history: a
/// commit has a certificate there, a release a skip or unlock certificate.
pub open spec fn anchor_certified(
    d: DagView,
    known: dag::KnownInputs,
    anchor: BlockRef,
    object: SnapperObjectKey,
    decision: SnapperObjectDecision,
) -> bool {
    match decision {
        SnapperObjectDecision::Commit(t) => d.has_cert(known, anchor, t),
        SnapperObjectDecision::Release => d.has_opposing_cert(anchor, object),
    }
}

/// Every new decision has its reason on the fast path or in the anchor's
/// history.
pub open spec fn decisions_justified(
    d: DagView,
    anchor: BlockRef,
    before: SnapperModel,
    after: SnapperModel,
) -> bool {
    &&& after.inputs == before.inputs
    &&& forall|o: SnapperObjectKey|
        (#[trigger] after.decision(o)) is Some && before.decision(o) is None
            ==> decision_certified(d, before, o, after.decision(o)->0) || anchor_certified(
            d,
            before.inputs,
            anchor,
            o,
            after.decision(o)->0,
        )
}

proof fn lemma_justified_commit(
    d: DagView,
    anchor: BlockRef,
    start: SnapperModel,
    m: SnapperModel,
    id: SnapperTransactionId,
)
    requires
        decisions_justified(d, anchor, start, m),
        d.has_cert(start.inputs, anchor, id),
    ensures
        decisions_justified(d, anchor, start, m.with_commit(id)),
{
    let after = m.with_commit(id);
    assert forall|o: SnapperObjectKey|
        (#[trigger] after.decision(o)) is Some && start.decision(o)
            is None implies decision_certified(d, start, o, after.decision(o)->0)
        || anchor_certified(d, start.inputs, anchor, o, after.decision(o)->0) by {
        if m.decision(o) is Some {
            assert(after.decision(o) == m.decision(o));
        } else {
            assert(after.decision(o) == Some(SnapperObjectDecision::Commit(id)));
        }
    }
}

proof fn lemma_justified_release(
    d: DagView,
    anchor: BlockRef,
    start: SnapperModel,
    m: SnapperModel,
    object: SnapperObjectKey,
)
    requires
        decisions_justified(d, anchor, start, m),
        d.has_opposing_cert(anchor, object),
    ensures
        decisions_justified(d, anchor, start, m.with_release(object)),
{
    let after = m.with_release(object);
    assert forall|o: SnapperObjectKey|
        (#[trigger] after.decision(o)) is Some && start.decision(o)
            is None implies decision_certified(d, start, o, after.decision(o)->0)
        || anchor_certified(d, start.inputs, anchor, o, after.decision(o)->0) by {
        if m.decision(o) is Some {
            assert(after.decision(o) == m.decision(o));
        }
    }
}

proof fn lemma_finalize_all_justified(
    d: DagView,
    anchor: BlockRef,
    start: SnapperModel,
    r: Resolution,
    transactions: Seq<SnapperTransactionId>,
)
    requires
        decisions_justified(d, anchor, start, r.snapper),
    ensures
        decisions_justified(d, anchor, start, d.finalize_all(r, anchor, transactions).snapper),
    decreases transactions.len(),
{
    if transactions.len() > 0 {
        lemma_finalize_all_justified(d, anchor, start, r, transactions.drop_last());
        let before = d.finalize_all(r, anchor, transactions.drop_last()).snapper;
        if d.finalizes(before, anchor, transactions.last()) {
            lemma_justified_commit(d, anchor, start, before, transactions.last());
        }
    }
}

proof fn lemma_resolve_all_justified(
    d: DagView,
    anchor: BlockRef,
    start: SnapperModel,
    r: Resolution,
    objects: Seq<SnapperObjectKey>,
)
    requires
        decisions_justified(d, anchor, start, r.snapper),
    ensures
        decisions_justified(d, anchor, start, d.resolve_all(r, anchor, objects).snapper),
    decreases objects.len(),
{
    if objects.len() > 0 {
        lemma_resolve_all_justified(d, anchor, start, r, objects.drop_last());
        let before = d.resolve_all(r, anchor, objects.drop_last()).snapper;
        let o = objects.last();
        let certified = d.certified_at(before, anchor, o);
        if certified.len() > 0 {
            let wanted = |t: SnapperTransactionId|
                before.can_commit(t) && d.has_cert(before.inputs, anchor, t);
            assert(certified.contains(certified[0]));
            seqs::lemma_filter_members(
                order::sorted(d.visible_candidates(anchor, o)),
                wanted,
                certified[0],
            );
            lemma_justified_commit(d, anchor, start, before, certified[0]);
        } else if d.has_opposing_cert(anchor, o) {
            lemma_justified_release(d, anchor, start, before, o);
        }
    }
}

/// Every decision that comes with a committed anchor rests on certificates: by
/// a quorum in one round, or in the anchor's history.
pub proof fn anchor_decisions_rest_on_certificates(d: DagView, m: SnapperModel, anchor: BlockRef)
    ensures
        decisions_justified(d, anchor, m, d.resolve_anchor(m, anchor).snapper),
{
    let fast = d.fast_decisions(m);
    fast_decisions_need_a_quorum(d, m);
    lemma_decide_rounds_develops(d, Resolution::start(m), order::sorted(d.rounds()));
    let ids = order::sorted(fast.snapper.inputs.dom());
    lemma_finalize_all_justified(d, anchor, m, fast, ids);
    lemma_resolve_all_justified(
        d,
        anchor,
        m,
        d.finalize_all(fast, anchor, ids),
        order::sorted(d.recovery_objects_at(anchor)),
    );
}

proof fn lemma_quorum_has_a_block(stakes: Seq<u64>, refs: Set<BlockRef>)
    requires
        committee::usable_stakes(stakes),
        committee::has_quorum(stakes, dag::authors_of(refs)),
    ensures
        exists|r: BlockRef| refs.contains(r),
{
    if forall|r: BlockRef| !refs.contains(r) {
        assert(dag::authors_of(refs) =~= Set::empty());
        committee::lemma_stake_of_empty(stakes);
    }
}

/// A fast commit and a fast release of one of its inputs take more stake than
/// may be faulty to stand both for the transaction and for Bottom.
pub proof fn opposing_fast_decisions_need_faulty_stake(
    d: DagView,
    known: dag::KnownInputs,
    commit_round: Round,
    skip_round: Round,
    t: SnapperTransactionId,
    object: SnapperObjectKey,
)
    requires
        committee::usable_stakes(d.stakes),
        d.commit_certified(known, commit_round, t),
        d.owned_inputs_for(known, t)->0.contains(object),
        d.skip_certified(skip_round, object),
    ensures
        exists|both: Set<AuthorityIndex>|
            #![trigger committee::stake_of(d.stakes, both)]
            committee::stake_of(d.stakes, both) > committee::fault_tolerance(d.stakes) && forall|
                x: AuthorityIndex,
            | #[trigger]
                both.contains(x) ==> stands_for_both(
                    d,
                    x,
                    object,
                    (dag::previous_round(commit_round), SnapperObjectStance::Transaction(t)),
                    (dag::previous_round(skip_round), SnapperObjectStance::Bottom),
                ),
{
    let commits = Set::new(
        |r: BlockRef|
            d.blocks.contains_key(r) && r.round == commit_round && d.is_fast_cert(known, r, t),
    );
    let skips = Set::new(
        |r: BlockRef|
            d.blocks.contains_key(r) && r.round == skip_round && d.is_skip_cert(r, object),
    );
    lemma_quorum_has_a_block(d.stakes, commits);
    lemma_quorum_has_a_block(d.stakes, skips);
    let a = choose|r: BlockRef| commits.contains(r);
    let b = choose|r: BlockRef| skips.contains(r);
    skip_certificate_is_unlock_certificate(d, b, object);
    opposing_certificates_need_faulty_stake(d, known, a, b, t, object);
}

/// The own authority is known to reject some transaction of the block, which is
/// above the GC round.
pub open spec fn has_own_votes(m: TrackerModel, r: BlockRef) -> bool {
    r.round > m.gc_round && m.votes.contains_key(r) && m.votes[r].own_rejects.len() > 0
}

/// The own votes on some blocks are exactly those that are stored: there is one
/// entry for each of the blocks above the GC round with own reject votes, with
/// the votes that are stored, in the order of the blocks.
pub proof fn own_votes_are_those_stored(m: TrackerModel, refs: Seq<BlockRef>, r: BlockRef)
    ensures
        ({
            let given = m.own_votes(refs);
            &&& given.map_values(|v: block::TransactionVotesView| v.block_ref) == refs.filter(
                |q: BlockRef| has_own_votes(m, q),
            )
            &&& forall|i: int|
                0 <= i < given.len() ==> (#[trigger] given[i]).rejects
                    == m.votes[given[i].block_ref].own_rejects
            &&& (exists|i: int| 0 <= i < given.len() && (#[trigger] given[i]).block_ref == r)
                <==> refs.contains(r) && has_own_votes(m, r)
        }),
    decreases refs.len(),
{
    let wanted = |q: BlockRef| has_own_votes(m, q);
    let named = |v: block::TransactionVotesView| v.block_ref;
    let given = m.own_votes(refs);
    reveal(Seq::filter);
    if refs.len() == 0 {
        assert(given.map_values(named) =~= refs.filter(wanted));
    } else {
        let rest = refs.drop_last();
        let last = refs.last();
        own_votes_are_those_stored(m, rest, r);
        let earlier = m.own_votes(rest);
        assert(wanted(last) == (last.round > m.gc_round && m.votes_on(last).own_rejects.len() > 0));
        if wanted(last) {
            assert(given.map_values(named) =~= earlier.map_values(named).push(last));
            assert(given[earlier.len() as int].block_ref == last);
        }
        assert forall|i: int| 0 <= i < given.len() implies (#[trigger] given[i]).rejects
            == m.votes[given[i].block_ref].own_rejects by {
            if i < earlier.len() {
                assert(given[i] == earlier[i]);
            }
        }
        seqs::lemma_take_next(refs, refs.len() - 1);
        seqs::lemma_take_ends(refs);
        assert(refs.take(refs.len() - 1) =~= rest);
        if exists|i: int| 0 <= i < given.len() && (#[trigger] given[i]).block_ref == r {
            let i = choose|i: int| 0 <= i < given.len() && (#[trigger] given[i]).block_ref == r;
            if i < earlier.len() {
                assert(earlier[i] == given[i]);
            }
        }
        if exists|i: int| 0 <= i < earlier.len() && (#[trigger] earlier[i]).block_ref == r {
            let i = choose|i: int| 0 <= i < earlier.len() && (#[trigger] earlier[i]).block_ref == r;
            assert(given[i] == earlier[i]);
        }
    }
}

/// Some declaration is on the object version.
pub open spec fn speaks_of(votes: Seq<SnapperObjectStanceVote>, o: SnapperObjectKey) -> bool {
    exists|i: int| 0 <= i < votes.len() && (#[trigger] votes[i]).object == o
}

/// The first declaration on the object version is the stance.
pub open spec fn speaks_first(
    votes: Seq<SnapperObjectStanceVote>,
    o: SnapperObjectKey,
    s: SnapperObjectStance,
) -> bool {
    exists|i: int|
        {
            &&& 0 <= i < votes.len()
            &&& (#[trigger] votes[i]).object == o
            &&& votes[i].stance == s
            &&& forall|j: int| 0 <= j < i ==> (#[trigger] votes[j]).object != o
        }
}

/// Some declaration is Bottom on the object version.
pub open spec fn speaks_bottom(votes: Seq<SnapperObjectStanceVote>, o: SnapperObjectKey) -> bool {
    votes.contains(SnapperObjectStanceVote { object: o, stance: SnapperObjectStance::Bottom })
}

/// After some declarations an authority is at Bottom wherever it was or one of
/// them is Bottom; else it keeps the stance that it had; else it has the one
/// that was declared first. It has acknowledged where it had, or where it had no
/// stance and the first declaration is for a transaction.
pub proof fn declarations_lead_to_stance(
    m: SnapperModel,
    author: AuthorityIndex,
    votes: Seq<SnapperObjectStanceVote>,
    o: SnapperObjectKey,
)
    ensures
        ({
            let n = tracker_model::after_stances(m, author, votes);
            &&& speaks_bottom(votes, o) ==> n.stance(author, o) == Some(SnapperObjectStance::Bottom)
            &&& !speaks_bottom(votes, o) && m.stance(author, o) is Some ==> n.stance(author, o)
                == m.stance(author, o)
            &&& !speaks_of(votes, o) ==> n.stance(author, o) == m.stance(author, o)
                && n.acked.contains((o, author)) == m.acked.contains((o, author))
            &&& !speaks_bottom(votes, o) && m.stance(author, o) is None && speaks_of(votes, o)
                ==> n.stance(author, o) is Some && speaks_first(votes, o, n.stance(author, o)->0)
            &&& n.acked.contains((o, author)) <==> m.acked.contains((o, author)) || (m.stance(
                author,
                o,
            ) is None && exists|t: SnapperTransactionId|
                speaks_first(votes, o, SnapperObjectStance::Transaction(t)))
            &&& speaks_of(votes, o) ==> n.stance(author, o) is Some
            &&& n.inputs == m.inputs
            &&& n.mixed == m.mixed
            &&& n.decisions == m.decisions
        }),
    decreases votes.len(),
{
    let n = tracker_model::after_stances(m, author, votes);
    if votes.len() > 0 {
        let rest = votes.drop_last();
        let last = votes.last();
        let k = votes.len() - 1;
        declarations_lead_to_stance(m, author, rest, o);
        let p = tracker_model::after_stances(m, author, rest);
        state_laws::stances_move_as_declared(p, author, last.object, last.stance, author, o);
        assert(votes[k] == last);
        assert forall|j: int| 0 <= j < k implies #[trigger] votes[j] == rest[j] by {}
        let bottom = SnapperObjectStanceVote { object: o, stance: SnapperObjectStance::Bottom };
        seqs::lemma_take_next(votes, k);
        seqs::lemma_take_ends(votes);
        assert(votes.take(k) =~= rest);
        assert(speaks_bottom(votes, o) <==> speaks_bottom(rest, o) || last == bottom);
        if speaks_of(rest, o) {
            let i = choose|i: int| 0 <= i < rest.len() && (#[trigger] rest[i]).object == o;
            assert(votes[i].object == o);
        }
        if speaks_of(votes, o) && !speaks_of(rest, o) {
            let i = choose|i: int| 0 <= i < votes.len() && (#[trigger] votes[i]).object == o;
            if i < k {
                assert(rest[i].object == o);
            }
            assert(last.object == o);
        }
        assert forall|s: SnapperObjectStance| speaks_first(votes, o, s) <==> speaks_first(
            rest,
            o,
            s,
        ) || (!speaks_of(rest, o) && last.object == o && last.stance == s) by {
            if speaks_first(rest, o, s) {
                let i = choose|i: int|
                    {
                        &&& 0 <= i < rest.len()
                        &&& (#[trigger] rest[i]).object == o
                        &&& rest[i].stance == s
                        &&& forall|j: int| 0 <= j < i ==> (#[trigger] rest[j]).object != o
                    };
                assert(votes[i] == rest[i]);
                assert forall|j: int| 0 <= j < i implies (#[trigger] votes[j]).object != o by {
                    assert(votes[j] == rest[j]);
                }
            }
            if !speaks_of(rest, o) && last.object == o && last.stance == s {
                assert forall|j: int| 0 <= j < k implies (#[trigger] votes[j]).object != o by {
                    assert(votes[j] == rest[j]);
                    assert(rest[j].object != o);
                }
                assert(votes[k].object == o);
            }
            if speaks_first(votes, o, s) {
                let i = choose|i: int|
                    {
                        &&& 0 <= i < votes.len()
                        &&& (#[trigger] votes[i]).object == o
                        &&& votes[i].stance == s
                        &&& forall|j: int| 0 <= j < i ==> (#[trigger] votes[j]).object != o
                    };
                if i < k {
                    assert(rest[i] == votes[i]);
                    assert forall|j: int| 0 <= j < i implies (#[trigger] rest[j]).object != o by {
                        assert(votes[j] == rest[j]);
                    }
                } else {
                    assert forall|j: int| 0 <= j < rest.len() implies (#[trigger] rest[j]).object
                        != o by {
                        assert(votes[j] == rest[j]);
                    }
                }
            }
        }
        if last.object == o && !speaks_of(rest, o) {
            assert(speaks_first(votes, o, last.stance));
        }
        if speaks_of(rest, o) && !speaks_bottom(rest, o) && m.stance(author, o) is None {
            assert(speaks_first(votes, o, p.stance(author, o)->0));
        }
    } else {
        assert(!speaks_bottom(votes, o));
    }
}

/// A block is taken in as its transactions, and then the declarations of its
/// author.
pub proof fn block_is_taken_in_as_declared(
    m: SnapperModel,
    b: block::BlockView,
    o: SnapperObjectKey,
    t: SnapperTransactionId,
    other: AuthorityIndex,
)
    ensures
        ({
            let n = tracker_model::after_block(m, b);
            let author = b.reference.author;
            &&& speaks_bottom(b.stance_votes, o) ==> n.stance(author, o) == Some(
                SnapperObjectStance::Bottom,
            )
            &&& speaks_of(b.stance_votes, o) ==> n.stance(author, o) is Some
            &&& !speaks_of(b.stance_votes, o) ==> n.stance(author, o) == m.stance(author, o)
            &&& other != author ==> n.stance(other, o) == m.stance(other, o)
            &&& n.inputs.contains_key(t) <==> m.inputs.contains_key(t) || graph_laws::some_is(
                b.transactions,
                t,
            )
            &&& graph_laws::some_owns(b.transactions, t, o) ==> n.candidates_of(o).contains(t)
            &&& n.decisions == m.decisions
        }),
{
    let recorded = dag::after_transactions(m, b.transactions);
    graph_laws::recording_tells_transactions(m, b.transactions, o, t);
    declarations_lead_to_stance(recorded, b.reference.author, b.stance_votes, o);
    declaring_stances_develops(recorded, b.reference.author, b.stance_votes);
    if other != b.reference.author {
        declarations_move_only_their_author(
            recorded,
            b.reference.author,
            b.stance_votes,
            other,
            o,
        );
    }
    if graph_laws::some_owns(b.transactions, t, o) {
        assert(recorded.candidates_of(o).contains(t));
    }
}

/// Recovered blocks come with the own votes on them where they need votes, and
/// with none where they do not.
pub proof fn recovered_blocks_come_with_their_votes(
    blocks: Seq<VerifiedBlock>,
    should_vote: Seq<bool>,
    votes: Seq<Vec<TransactionIndex>>,
    i: int,
)
    requires
        0 <= i < blocks.len(),
    ensures
        ({
            let given = tracker_model::recovered_views(blocks, should_vote, votes);
            &&& given.len() == blocks.len()
            &&& given[i].0 == blocks[i]@
            &&& should_vote[i] ==> given[i].1 == votes[i]@
            &&& !should_vote[i] ==> given[i].1.len() == 0
        }),
{
}

/// A block that becomes known stands under its reference, unless one did before;
/// no other changes.
pub proof fn block_becomes_known(d: DagView, b: block::BlockView, r: BlockRef)
    ensures
        ({
            let e = tracker_model::with_block(d, b);
            &&& e.blocks.contains_key(r) <==> d.blocks.contains_key(r) || r == b.reference
            &&& d.blocks.contains_key(r) ==> e.blocks[r] == d.blocks[r]
            &&& !d.blocks.contains_key(b.reference) ==> e.blocks[b.reference] == b
            &&& e.stakes == d.stakes
        }),
{
}

/// Garbage collection forgets which blocks were taken in exactly up to its
/// round, and votes alike.
pub proof fn gc_forgets_up_to_its_round(m: TrackerModel, gc_round: Round, r: BlockRef)
    ensures
        ({
            let n = m.with_gc_round(gc_round);
            &&& n.processed.contains(r) <==> m.processed.contains(r) && r.round > gc_round
            &&& n.votes.contains_key(r) <==> m.votes.contains_key(r) && r.round > gc_round
            &&& n.gc_round == gc_round
        }),
{
}

/// Blocks are taken in in the order given: where no block before the given one
/// says anything for its author on an object version, and the author had no
/// stance on it, the author acknowledges by its first declaration.
pub proof fn blocks_are_taken_in_in_order(
    m: TrackerModel,
    refs: Seq<BlockRef>,
    k: int,
    o: SnapperObjectKey,
    t: SnapperTransactionId,
)
    requires
        0 <= k < refs.len(),
        m.dag.valid(),
        m.dag.blocks.contains_key(refs[k]),
        !m.processed.contains(refs[k]),
        !refs.take(k).contains(refs[k]),
        m.snapper.stance(refs[k].author, o) is None,
        forall|j: int|
            0 <= j < k && m.dag.blocks.contains_key(#[trigger] refs[j]) && refs[j].author
                == refs[k].author ==> !speaks_of(m.dag.blocks[refs[j]].stance_votes, o),
        speaks_first(
            m.dag.blocks[refs[k]].stance_votes,
            o,
            SnapperObjectStance::Transaction(t),
        ),
    ensures
        m.with_processed(refs).snapper.acked.contains((o, refs[k].author)),
{
    let r = refs[k];
    let b = m.dag.blocks[r];
    let head = refs.take(k);
    let before = m.with_processed(head);
    lemma_silent_blocks(m, head, r.author, o);
    lemma_processed_only_given(m, head, r);
    seqs::lemma_take_next(refs, k);
    let after = m.with_processed(refs.take(k + 1));
    assert(b.reference == r);
    let recorded = dag::after_transactions(before.snapper, b.transactions);
    graph_laws::recording_tells_transactions(before.snapper, b.transactions, o, t);
    declarations_lead_to_stance(recorded, r.author, b.stance_votes, o);
    assert(recorded.stance(r.author, o) is None);
    assert(after.snapper == tracker_model::after_block(before.snapper, b));
    lemma_processing_prefix(m, refs, k + 1);
    assert(after.snapper.acked.contains((o, r.author)));
}

proof fn lemma_silent_blocks(
    m: TrackerModel,
    refs: Seq<BlockRef>,
    author: AuthorityIndex,
    o: SnapperObjectKey,
)
    requires
        m.dag.valid(),
        m.snapper.stance(author, o) is None,
        forall|j: int|
            0 <= j < refs.len() && m.dag.blocks.contains_key(#[trigger] refs[j]) && refs[j].author
                == author ==> !speaks_of(m.dag.blocks[refs[j]].stance_votes, o),
    ensures
        m.with_processed(refs).snapper.stance(author, o) is None,
    decreases refs.len(),
{
    if refs.len() > 0 {
        let rest = refs.drop_last();
        let r = refs.last();
        assert(refs[refs.len() - 1] == r);
        assert forall|j: int|
            0 <= j < rest.len() && m.dag.blocks.contains_key(#[trigger] rest[j]) && rest[j].author
                == author implies !speaks_of(m.dag.blocks[rest[j]].stance_votes, o) by {
            assert(refs[j] == rest[j]);
        }
        lemma_silent_blocks(m, rest, author, o);
        let before = m.with_processed(rest);
        if m.dag.blocks.contains_key(r) {
            let b = m.dag.blocks[r];
            block_is_taken_in_as_declared(before.snapper, b, o, arbitrary(), author);
        }
    }
}

proof fn lemma_processed_only_given(m: TrackerModel, refs: Seq<BlockRef>, r: BlockRef)
    requires
        !m.processed.contains(r),
        !refs.contains(r),
    ensures
        !m.with_processed(refs).processed.contains(r),
    decreases refs.len(),
{
    if refs.len() > 0 {
        let rest = refs.drop_last();
        seqs::lemma_take_next(refs, refs.len() - 1);
        seqs::lemma_take_ends(refs);
        assert(refs.take(refs.len() - 1) =~= rest);
        assert(!rest.contains(r));
        assert(refs.contains(refs.last()));
        lemma_processed_only_given(m, rest, r);
    }
}

proof fn lemma_processing_prefix(m: TrackerModel, refs: Seq<BlockRef>, i: int)
    requires
        0 <= i <= refs.len(),
    ensures
        m.with_processed(refs.take(i)).snapper.evolves_to(m.with_processed(refs).snapper),
    decreases refs.len() - i,
{
    let a = m.with_processed(refs.take(i));
    if i == refs.len() {
        seqs::lemma_take_ends(refs);
        state_laws::evolution_is_reflexive(a.snapper);
    } else {
        seqs::lemma_take_next(refs, i);
        lemma_processing_prefix(m, refs, i + 1);
        let b = m.with_processed(refs.take(i + 1));
        let x = m.dag.blocks[refs[i]];
        let recorded = dag::after_transactions(a.snapper, x.transactions);
        recording_transactions_develops(a.snapper, x.transactions);
        declaring_stances_develops(recorded, x.reference.author, x.stance_votes);
        state_laws::evolution_is_reflexive(a.snapper);
        state_laws::evolution_is_transitive(
            a.snapper,
            recorded,
            tracker_model::after_block(a.snapper, x),
        );
        state_laws::evolution_is_transitive(
            a.snapper,
            b.snapper,
            m.with_processed(refs).snapper,
        );
    }
}

/// Only the given blocks are taken in, and only where they are known.
pub proof fn only_given_blocks_are_taken_in(m: TrackerModel, refs: Seq<BlockRef>, r: BlockRef)
    ensures
        m.with_processed(refs).processed.contains(r) <==> m.processed.contains(r) || (refs.contains(
            r,
        ) && m.dag.blocks.contains_key(r)),
    decreases refs.len(),
{
    if refs.len() > 0 {
        let rest = refs.drop_last();
        seqs::lemma_take_next(refs, refs.len() - 1);
        seqs::lemma_take_ends(refs);
        assert(refs.take(refs.len() - 1) =~= rest);
        only_given_blocks_are_taken_in(m, rest, r);
        assert(refs.contains(r) <==> rest.contains(r) || r == refs.last());
    }
}

/// Blocks with their votes, and transactions, are read one by one.
pub proof fn views_are_read_one_by_one(
    voted: Seq<(VerifiedBlock, Vec<TransactionIndex>)>,
    transactions: Seq<block::Transaction>,
    i: int,
)
    ensures
        tracker_model::voted_views(voted).len() == voted.len(),
        0 <= i < voted.len() ==> tracker_model::voted_views(voted)[i] == (
            voted[i].0@,
            voted[i].1@,
        ),
        tracker_model::transaction_views(transactions).len() == transactions.len(),
        0 <= i < transactions.len() ==> tracker_model::transaction_views(transactions)[i]
            == transactions[i]@,
{
}

} // verus!
