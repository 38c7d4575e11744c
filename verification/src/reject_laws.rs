//! What the reject votes are after a series of blocks.
use vstd::prelude::*;

use crate::block;
use crate::committee;
use crate::keys::{AuthorityIndex, BlockRef, Round, Stake, TransactionIndex};
use crate::order;
use crate::order::OrderedKey;
use crate::tracker_laws;
use crate::tracker_model;
use crate::tracker_model::TrackerModel;

verus! {

/// Blocks with the own votes on each.
pub type VotedBlocks = Seq<(block::BlockView, Seq<TransactionIndex>)>;

/// Blocks with one reference are one block.
pub open spec fn references_are_unique(bs: VotedBlocks) -> bool {
    forall|i: int, j: int|
        0 <= i < bs.len() && 0 <= j < bs.len() && (#[trigger] bs[i]).0.reference == (
        #[trigger] bs[j]).0.reference ==> bs[i].0 == bs[j].0
}

/// The votes are on the block.
pub open spec fn votes_on(votes: Seq<block::TransactionVotesView>, r: BlockRef) -> bool {
    exists|j: int| 0 <= j < votes.len() && (#[trigger] votes[j]).block_ref == r
}

/// The votes reject the transaction of the block.
pub open spec fn votes_against(
    votes: Seq<block::TransactionVotesView>,
    r: BlockRef,
    index: TransactionIndex,
) -> bool {
    exists|j: int|
        0 <= j < votes.len() && (#[trigger] votes[j]).block_ref == r && votes[j].rejects.contains(
            index,
        )
}

/// The block is among those above the GC round.
pub open spec fn is_added(bs: VotedBlocks, gc_round: Round, r: BlockRef) -> bool {
    r.round > gc_round && exists|i: int|
        0 <= i < bs.len() && (#[trigger] bs[i]).0.reference == r
}

/// The block is above the GC round, and another such block votes on it.
pub open spec fn is_named(bs: VotedBlocks, gc_round: Round, r: BlockRef) -> bool {
    r.round > gc_round && exists|i: int|
        0 <= i < bs.len() && (#[trigger] bs[i]).0.reference.round > gc_round && votes_on(
            bs[i].0.transaction_votes,
            r,
        )
}

/// The authors of the blocks above the GC round that reject the transaction of
/// a block above it.
pub open spec fn rejecters(
    bs: VotedBlocks,
    gc_round: Round,
    r: BlockRef,
    index: TransactionIndex,
) -> Set<AuthorityIndex> {
    Set::new(
        |a: AuthorityIndex|
            r.round > gc_round && exists|i: int|
                0 <= i < bs.len() && (#[trigger] bs[i]).0.reference.round > gc_round
                    && bs[i].0.reference.author == a && votes_against(
                    bs[i].0.transaction_votes,
                    r,
                    index,
                ),
    )
}

/// Some block above the GC round rejects the transaction of a block above it.
pub open spec fn is_rejected(
    bs: VotedBlocks,
    gc_round: Round,
    r: BlockRef,
    index: TransactionIndex,
) -> bool {
    exists|a: AuthorityIndex| #[trigger] rejecters(bs, gc_round, r, index).contains(a)
}

/// The tracker knows of the votes on a block exactly what the blocks tell.
pub open spec fn tells_history(
    m: TrackerModel,
    bs: VotedBlocks,
    r: BlockRef,
    index: TransactionIndex,
) -> bool {
    let rejects = m.votes_on(r).rejects;
    &&& m.votes.contains_key(r) <==> is_added(bs, m.gc_round, r) || is_named(bs, m.gc_round, r)
    &&& m.votes_on(r).block is Some <==> is_added(bs, m.gc_round, r)
    &&& rejects.contains_key(index) <==> is_rejected(bs, m.gc_round, r, index)
    &&& rejects.contains_key(index) ==> rejects[index] == rejecters(bs, m.gc_round, r, index)
}

/// The authorities that reject a transaction, as the tracker knows them.
spec fn known_rejecters(m: TrackerModel, r: BlockRef, index: TransactionIndex) -> Set<
    AuthorityIndex,
> {
    if m.votes_on(r).rejects.contains_key(index) {
        m.votes_on(r).rejects[index]
    } else {
        Set::empty()
    }
}

/// What counting the votes of one block does.
proof fn lemma_count_votes(
    m: TrackerModel,
    author: AuthorityIndex,
    votes: Seq<block::TransactionVotesView>,
    r: BlockRef,
    index: TransactionIndex,
)
    ensures
        ({
            let n = m.with_all_reject_votes(author, votes);
            let against = r.round > m.gc_round && votes_against(votes, r, index);
            &&& n.gc_round == m.gc_round
            &&& n.dag == m.dag
            &&& n.votes.contains_key(r) <==> m.votes.contains_key(r) || (r.round > m.gc_round
                && votes_on(votes, r))
            &&& n.votes_on(r).block == m.votes_on(r).block
            &&& n.votes_on(r).rejects.contains_key(index) <==> m.votes_on(r).rejects.contains_key(
                index,
            ) || against
            &&& known_rejecters(n, r, index) == (if against {
                known_rejecters(m, r, index).insert(author)
            } else {
                known_rejecters(m, r, index)
            })
        }),
    decreases votes.len(),
{
    if votes.len() > 0 {
        let rest = votes.drop_last();
        let last = votes.last();
        lemma_count_votes(m, author, rest, r, index);
        lemma_last_vote(votes, r, index);
        let p = m.with_all_reject_votes(author, rest);
        let n = m.with_all_reject_votes(author, votes);
        assert(n == p.with_reject_votes(author, last));
        let before = known_rejecters(p, r, index);
        if r.round > m.gc_round && last.block_ref == r && last.rejects.contains(index) {
            assert(known_rejecters(n, r, index) =~= before.insert(author));
            assert(before.insert(author) =~= known_rejecters(m, r, index).insert(author));
        } else {
            assert(known_rejecters(n, r, index) =~= before);
        }
    }
}

proof fn lemma_last_vote(
    votes: Seq<block::TransactionVotesView>,
    r: BlockRef,
    index: TransactionIndex,
)
    requires
        votes.len() > 0,
    ensures
        votes_on(votes, r) <==> votes_on(votes.drop_last(), r) || votes.last().block_ref == r,
        votes_against(votes, r, index) <==> votes_against(votes.drop_last(), r, index) || (
        votes.last().block_ref == r && votes.last().rejects.contains(index)),
{
    let rest = votes.drop_last();
    let n = votes.len() - 1;
    assert(votes[n] == votes.last());
    if votes_on(votes, r) {
        let j = choose|j: int| 0 <= j < votes.len() && (#[trigger] votes[j]).block_ref == r;
        if j < n {
            assert(rest[j].block_ref == r);
        }
    }
    if votes_on(rest, r) {
        let j = choose|j: int| 0 <= j < rest.len() && (#[trigger] rest[j]).block_ref == r;
        assert(votes[j].block_ref == r);
    }
    if votes_against(votes, r, index) {
        let j = choose|j: int|
            0 <= j < votes.len() && (#[trigger] votes[j]).block_ref == r
                && votes[j].rejects.contains(index);
        if j < n {
            assert(rest[j].block_ref == r);
        }
    }
    if votes_against(rest, r, index) {
        let j = choose|j: int|
            0 <= j < rest.len() && (#[trigger] rest[j]).block_ref == r && rest[j].rejects.contains(
                index,
            );
        assert(votes[j].block_ref == r);
    }
}

/// What one block more adds to the history.
proof fn lemma_last_block(bs: VotedBlocks, g: Round, r: BlockRef, index: TransactionIndex)
    requires
        bs.len() > 0,
    ensures
        ({
            let rest = bs.drop_last();
            let b = bs.last().0;
            let counts = b.reference.round > g && r.round > g;
            &&& is_added(bs, g, r) <==> is_added(rest, g, r) || (counts && b.reference == r)
            &&& is_named(bs, g, r) <==> is_named(rest, g, r) || (counts && votes_on(
                b.transaction_votes,
                r,
            ))
            &&& rejecters(bs, g, r, index) == (if counts && votes_against(
                b.transaction_votes,
                r,
                index,
            ) {
                rejecters(rest, g, r, index).insert(b.reference.author)
            } else {
                rejecters(rest, g, r, index)
            })
        }),
{
    let rest = bs.drop_last();
    let n = bs.len() - 1;
    let b = bs.last().0;
    let counts = b.reference.round > g && r.round > g;
    assert(bs[n] == bs.last());
    if is_added(bs, g, r) {
        let i = choose|i: int| 0 <= i < bs.len() && (#[trigger] bs[i]).0.reference == r;
        if i < n {
            assert(rest[i].0.reference == r);
        }
    }
    if is_added(rest, g, r) {
        let i = choose|i: int| 0 <= i < rest.len() && (#[trigger] rest[i]).0.reference == r;
        assert(bs[i].0.reference == r);
    }
    if is_named(bs, g, r) {
        let i = choose|i: int|
            0 <= i < bs.len() && (#[trigger] bs[i]).0.reference.round > g && votes_on(
                bs[i].0.transaction_votes,
                r,
            );
        if i < n {
            assert(rest[i].0.reference.round > g);
        }
    }
    if is_named(rest, g, r) {
        let i = choose|i: int|
            0 <= i < rest.len() && (#[trigger] rest[i]).0.reference.round > g && votes_on(
                rest[i].0.transaction_votes,
                r,
            );
        assert(bs[i].0.reference.round > g);
    }
    let goal = if counts && votes_against(b.transaction_votes, r, index) {
        rejecters(rest, g, r, index).insert(b.reference.author)
    } else {
        rejecters(rest, g, r, index)
    };
    assert forall|a: AuthorityIndex| rejecters(bs, g, r, index).contains(a) <==> goal.contains(
        a,
    ) by {
        if rejecters(bs, g, r, index).contains(a) {
            let i = choose|i: int|
                0 <= i < bs.len() && (#[trigger] bs[i]).0.reference.round > g
                    && bs[i].0.reference.author == a && votes_against(
                    bs[i].0.transaction_votes,
                    r,
                    index,
                );
            if i < n {
                assert(rest[i].0.reference.round > g);
            }
        }
        if rejecters(rest, g, r, index).contains(a) {
            let i = choose|i: int|
                0 <= i < rest.len() && (#[trigger] rest[i]).0.reference.round > g
                    && rest[i].0.reference.author == a && votes_against(
                    rest[i].0.transaction_votes,
                    r,
                    index,
                );
            assert(bs[i].0.reference.round > g);
        }
    }
    assert(rejecters(bs, g, r, index) =~= goal);
}

/// From a tracker without votes, whatever blocks are added, in whatever order
/// and however often, the tracker knows of the votes exactly what the blocks
/// above its GC round tell: it has an entry for each of them and for each block
/// that they vote on, and a transaction is rejected by exactly the authors whose
/// blocks reject it.
pub proof fn votes_tell_history(
    m: TrackerModel,
    bs: VotedBlocks,
    r: BlockRef,
    index: TransactionIndex,
)
    requires
        m.votes == Map::<BlockRef, tracker_model::VoteInfoView>::empty(),
        references_are_unique(bs),
    ensures
        tells_history(m.with_voted_blocks(bs), bs, r, index),
        m.with_voted_blocks(bs).gc_round == m.gc_round,
        m.with_voted_blocks(bs).dag.stakes == m.dag.stakes,
    decreases bs.len(),
{
    let g = m.gc_round;
    let n = m.with_voted_blocks(bs);
    if bs.len() > 0 {
        let rest = bs.drop_last();
        let b = bs.last().0;
        let own = bs.last().1;
        assert(references_are_unique(rest)) by {
            assert forall|i: int, j: int|
                0 <= i < rest.len() && 0 <= j < rest.len() && (#[trigger] rest[i]).0.reference == (
                #[trigger] rest[j]).0.reference implies rest[i].0 == rest[j].0 by {
                assert(rest[i] == bs[i] && rest[j] == bs[j]);
            }
        }
        votes_tell_history(m, rest, r, index);
        votes_tell_history(m, rest, b.reference, index);
        lemma_last_block(bs, g, r, index);
        let p = m.with_voted_blocks(rest);
        assert(n == p.with_voted_block(b, own));
        assert(known_rejecters(p, r, index) =~= rejecters(rest, g, r, index));
        let against = r.round > g && votes_against(b.transaction_votes, r, index);
        if b.reference.round > g {
            if p.votes_on(b.reference).block is Some {
                let i = choose|i: int|
                    0 <= i < rest.len() && (#[trigger] rest[i]).0.reference == b.reference;
                assert(rest[i] == bs[i]);
                assert(bs[bs.len() - 1].0 == b);
                assert(rest[i].0 == b);
                if r.round > g && votes_on(b.transaction_votes, r) {
                    assert(is_named(rest, g, r));
                }
                if against {
                    assert(rejecters(rest, g, r, index).contains(b.reference.author));
                    assert(rejecters(bs, g, r, index) =~= rejecters(rest, g, r, index));
                }
                assert(n.votes_on(r) == p.votes_on(r));
            } else {
                let seen = TrackerModel { dag: tracker_model::with_block(p.dag, b), ..p };
                let received = seen.with_received(b, own);
                lemma_count_votes(received, b.reference.author, b.transaction_votes, r, index);
                assert(received.votes_on(r).rejects == p.votes_on(r).rejects);
                assert(known_rejecters(n, r, index) == rejecters(bs, g, r, index));
                if against {
                    assert(rejecters(bs, g, r, index).contains(b.reference.author));
                }
            }
        }
    }
}

/// After some blocks are given to a new tracker, the reject votes that it gives
/// on a block are those of the blocks, where blocks of round zero count for
/// nothing: there are none to give exactly where the block is neither among them
/// nor voted on by one of them; otherwise they are, by ascending index, exactly
/// the rejected transactions, each with the stake of the distinct authors that
/// reject it.
pub proof fn reject_votes_tell_history(
    own: AuthorityIndex,
    stakes: Seq<u64>,
    bs: VotedBlocks,
    r: BlockRef,
    given: Seq<(TransactionIndex, Stake)>,
)
    requires
        references_are_unique(bs),
    ensures
        ({
            let m = TrackerModel::initial(own, stakes).with_voted_blocks(bs);
            &&& m.votes.contains_key(r) <==> is_added(bs, 0, r) || is_named(bs, 0, r)
            &&& m.votes.contains_key(r) && tracker_model::reject_stakes(
                given,
                m.dag.stakes,
                m.votes[r].rejects,
            ) ==> {
                &&& forall|i: int, j: int|
                    0 <= i < j < given.len() ==> (#[trigger] given[i]).0 < (#[trigger] given[j]).0
                &&& forall|index: TransactionIndex| #[trigger]
                    is_rejected(bs, 0, r, index) <==> exists|i: int|
                        0 <= i < given.len() && (#[trigger] given[i]).0 == index
                &&& forall|i: int|
                    0 <= i < given.len() ==> (#[trigger] given[i]).1 as nat
                        == committee::stake_of(stakes, rejecters(bs, 0, r, given[i].0))
            }
        }),
{
    let start = TrackerModel::initial(own, stakes);
    votes_tell_history(start, bs, r, 0);
    let m = start.with_voted_blocks(bs);
    if m.votes.contains_key(r) && tracker_model::reject_stakes(
        given,
        m.dag.stakes,
        m.votes[r].rejects,
    ) {
        let rejects = m.votes_on(r).rejects;
        let indices = order::sorted(rejects.dom());
        assert forall|i: int, j: int| 0 <= i < j < given.len() implies (#[trigger] given[i]).0 < (
        #[trigger] given[j]).0 by {
            assert(order::before(indices[i], indices[j]));
            let k = choose|k: int| order::lex_less_at(indices[i].words(), indices[j].words(), k);
            assert(k == 0);
        }
        assert forall|index: TransactionIndex| #[trigger]
            is_rejected(bs, 0, r, index) <==> exists|i: int|
                0 <= i < given.len() && (#[trigger] given[i]).0 == index by {
            votes_tell_history(start, bs, r, index);
            assert(rejects.dom().contains(index) <==> indices.to_set().contains(index));
            if rejects.contains_key(index) {
                let i = choose|i: int| 0 <= i < indices.len() && indices[i] == index;
                assert(given[i].0 == index);
            }
            if exists|i: int| 0 <= i < given.len() && (#[trigger] given[i]).0 == index {
                let i = choose|i: int| 0 <= i < given.len() && (#[trigger] given[i]).0 == index;
                assert(indices[i] == index);
                assert(indices.contains(index));
            }
        }
        assert forall|i: int| 0 <= i < given.len() implies (#[trigger] given[i]).1 as nat
            == committee::stake_of(stakes, rejecters(bs, 0, r, given[i].0)) by {
            assert(indices.contains(indices[i]));
            assert(indices.to_set().contains(indices[i]));
            assert(rejects.contains_key(indices[i]));
            votes_tell_history(start, bs, r, indices[i]);
        }
    }
}

/// The votes came with the block when it was first given.
pub open spec fn first_given_with(
    bs: VotedBlocks,
    r: BlockRef,
    own: Seq<TransactionIndex>,
) -> bool {
    exists|i: int|
        {
            &&& 0 <= i < bs.len()
            &&& (#[trigger] bs[i]).0.reference == r
            &&& bs[i].1 == own
            &&& forall|j: int| 0 <= j < i ==> (#[trigger] bs[j]).0.reference != r
        }
}

/// From a tracker without votes, the own votes on an added block are those that
/// came with it when it was first given; on other blocks there are none.
pub proof fn own_votes_tell_history(m: TrackerModel, bs: VotedBlocks, r: BlockRef)
    requires
        m.votes == Map::<BlockRef, tracker_model::VoteInfoView>::empty(),
        references_are_unique(bs),
    ensures
        is_added(bs, m.gc_round, r) ==> first_given_with(
            bs,
            r,
            m.with_voted_blocks(bs).votes_on(r).own_rejects,
        ),
        !is_added(bs, m.gc_round, r) ==> m.with_voted_blocks(bs).votes_on(r).own_rejects.len() == 0,
    decreases bs.len(),
{
    let g = m.gc_round;
    let n = m.with_voted_blocks(bs);
    if bs.len() > 0 {
        let rest = bs.drop_last();
        let b = bs.last().0;
        let own = bs.last().1;
        let k = bs.len() - 1;
        assert(references_are_unique(rest)) by {
            assert forall|i: int, j: int|
                0 <= i < rest.len() && 0 <= j < rest.len() && (#[trigger] rest[i]).0.reference == (
                #[trigger] rest[j]).0.reference implies rest[i].0 == rest[j].0 by {
                assert(rest[i] == bs[i] && rest[j] == bs[j]);
            }
        }
        own_votes_tell_history(m, rest, r);
        votes_tell_history(m, rest, r, 0);
        votes_tell_history(m, rest, b.reference, 0);
        lemma_last_block(bs, g, r, 0);
        let p = m.with_voted_blocks(rest);
        assert(n == p.with_voted_block(b, own));
        assert(bs[k] == bs.last());
        if b.reference.round > g && p.votes_on(b.reference).block is None {
            let seen = TrackerModel { dag: tracker_model::with_block(p.dag, b), ..p };
            let received = seen.with_received(b, own);
            tracker_laws::lemma_reject_votes_keep_blocks(
                received,
                b.reference.author,
                b.transaction_votes,
                r,
            );
            if r == b.reference {
                assert forall|j: int| 0 <= j < k implies (#[trigger] bs[j]).0.reference != r by {
                    if bs[j].0.reference == r {
                        assert(rest[j].0.reference == r);
                        assert(is_added(rest, g, r));
                    }
                }
                assert(first_given_with(bs, r, own));
            } else {
                assert(received.votes_on(r).own_rejects == p.votes_on(r).own_rejects);
            }
        } else {
            assert(n.votes == p.votes);
        }
        if is_added(rest, g, r) {
            let given = p.votes_on(r).own_rejects;
            assert(n.votes_on(r).own_rejects == given);
            let i = choose|i: int|
                {
                    &&& 0 <= i < rest.len()
                    &&& (#[trigger] rest[i]).0.reference == r
                    &&& rest[i].1 == given
                    &&& forall|j: int| 0 <= j < i ==> (#[trigger] rest[j]).0.reference != r
                };
            assert(bs[i] == rest[i]);
            assert forall|j: int| 0 <= j < i implies (#[trigger] bs[j]).0.reference != r by {
                assert(bs[j] == rest[j]);
            }
            assert(first_given_with(bs, r, given));
        }
    }
}

} // verus!
