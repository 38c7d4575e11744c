//! What Snapper's predicates on the block graph mean, told by paths of blocks,
//! by the blocks of one author and by plain sums of stake.
use vstd::prelude::*;

use crate::block;
use crate::committee;
use crate::dag;
use crate::dag::DagView;
use crate::keys::{AuthorityIndex, BlockRef, Round, SnapperObjectKey, SnapperTransactionId};
use crate::order;
use crate::protocol::{SnapperBottomVoteKind, SnapperObjectStance, SnapperObjectStanceVote};
use crate::anchor_laws;
use crate::recovery;
use crate::state;
use crate::state_laws;
use crate::tracker_laws;

verus! {

/// A walk from a block to an ancestor's ancestor, block by block: every block on
/// it but the last is known and has the next among its ancestors.
pub open spec fn is_walk(d: DagView, w: Seq<BlockRef>) -> bool {
    &&& w.len() > 0
    &&& forall|i: int|
        0 <= i < w.len() - 1 ==> d.blocks.contains_key(#[trigger] w[i])
            && d.blocks[w[i]].ancestors.contains(w[i + 1])
}

/// A walk leads from one block to another.
pub open spec fn leads_to(d: DagView, root: BlockRef, r: BlockRef) -> bool {
    exists|w: Seq<BlockRef>| #[trigger] is_walk(d, w) && w[0] == root && w.last() == r
}

proof fn lemma_walk_on(d: DagView, root: BlockRef, r: BlockRef, a: BlockRef)
    requires
        leads_to(d, root, r),
        d.blocks.contains_key(r),
        d.blocks[r].ancestors.contains(a),
    ensures
        leads_to(d, root, a),
{
    let w = choose|w: Seq<BlockRef>| #[trigger] is_walk(d, w) && w[0] == root && w.last() == r;
    let v = w.push(a);
    assert forall|i: int| 0 <= i < v.len() - 1 implies d.blocks.contains_key(#[trigger] v[i])
        && d.blocks[v[i]].ancestors.contains(v[i + 1]) by {
        if i < w.len() - 1 {
            assert(v[i] == w[i] && v[i + 1] == w[i + 1]);
        }
    }
    assert(is_walk(d, v) && v[0] == root && v.last() == a);
}

proof fn lemma_walk_stays(d: DagView, w: Seq<BlockRef>, s: Set<BlockRef>, i: int)
    requires
        is_walk(d, w),
        s.contains(w[0]),
        d.holds_ancestors(s),
        0 <= i < w.len(),
    ensures
        s.contains(w[i]),
    decreases i,
{
    if i > 0 {
        lemma_walk_stays(d, w, s, i - 1);
        assert(d.blocks.contains_key(w[i - 1]) && d.blocks[w[i - 1]].ancestors.contains(
            w[i - 1 + 1],
        ));
    }
}

/// The causal history of a block is what walks lead to.
pub proof fn history_is_what_walks_reach(d: DagView, root: BlockRef, r: BlockRef)
    ensures
        d.history(root).contains(r) <==> leads_to(d, root, r),
{
    dag::history_is_least(d, root);
    if leads_to(d, root, r) {
        let w = choose|w: Seq<BlockRef>| #[trigger] is_walk(d, w) && w[0] == root && w.last() == r;
        lemma_walk_stays(d, w, d.history(root), w.len() - 1);
    }
    let reached = Set::new(|q: BlockRef| leads_to(d, root, q));
    assert(d.holds_ancestors(reached)) by {
        assert forall|q: BlockRef, a: BlockRef|
            #![trigger reached.contains(q), d.blocks[q].ancestors.contains(a)]
            reached.contains(q) && d.blocks.contains_key(q) && d.blocks[q].ancestors.contains(
                a,
            ) implies reached.contains(a) by {
            lemma_walk_on(d, root, q, a);
        }
    }
    assert(reached.contains(root)) by {
        let w = seq![root];
        assert(is_walk(d, w) && w[0] == root && w.last() == root);
    }
}

/// `a` stands first among the ancestors of the block that are by its author.
pub open spec fn is_previous_own(d: DagView, r: BlockRef, a: BlockRef) -> bool {
    exists|k: int|
        {
            &&& 0 <= k < d.blocks[r].ancestors.len()
            &&& #[trigger] d.blocks[r].ancestors[k] == a
            &&& a.author == d.blocks[r].reference.author
            &&& forall|j: int|
                0 <= j < k ==> (#[trigger] d.blocks[r].ancestors[j]).author
                    != d.blocks[r].reference.author
        }
}

proof fn lemma_first_by(refs: Seq<BlockRef>, author: AuthorityIndex)
    ensures
        match dag::first_by(refs, author) {
            Some(a) => exists|k: int|
                {
                    &&& 0 <= k < refs.len()
                    &&& #[trigger] refs[k] == a
                    &&& a.author == author
                    &&& forall|j: int| 0 <= j < k ==> (#[trigger] refs[j]).author != author
                },
            None => forall|j: int| 0 <= j < refs.len() ==> (#[trigger] refs[j]).author != author,
        },
    decreases refs.len(),
{
    if refs.len() > 0 {
        let rest = refs.drop_last();
        lemma_first_by(rest, author);
        match dag::first_by(rest, author) {
            Some(a) => {
                let k = choose|k: int|
                    {
                        &&& 0 <= k < rest.len()
                        &&& #[trigger] rest[k] == a
                        &&& a.author == author
                        &&& forall|j: int| 0 <= j < k ==> (#[trigger] rest[j]).author != author
                    };
                assert(refs[k] == a);
                assert forall|j: int| 0 <= j < k implies (#[trigger] refs[j]).author != author by {
                    assert(refs[j] == rest[j]);
                }
            },
            None => {
                assert forall|j: int| 0 <= j < rest.len() implies (#[trigger] refs[j]).author
                    != author by {
                    assert(refs[j] == rest[j]);
                }
                assert(refs[refs.len() - 1] == refs.last());
            },
        }
    }
}

/// The previous block in the chain of a block's author is the first ancestor by
/// the author; there is none exactly where no ancestor is by the author.
pub proof fn own_ancestor_is_first_by_author(d: DagView, r: BlockRef, a: BlockRef)
    ensures
        d.own_ancestor(r) == Some(a) <==> is_previous_own(d, r, a),
        d.own_ancestor(r) is None <==> forall|j: int|
            0 <= j < d.blocks[r].ancestors.len() ==> (
            #[trigger] d.blocks[r].ancestors[j]).author != d.blocks[r].reference.author,
{
    let refs = d.blocks[r].ancestors;
    let author = d.blocks[r].reference.author;
    lemma_first_by(refs, author);
    if is_previous_own(d, r, a) {
        let k = choose|k: int|
            {
                &&& 0 <= k < refs.len()
                &&& #[trigger] refs[k] == a
                &&& a.author == author
                &&& forall|j: int| 0 <= j < k ==> (#[trigger] refs[j]).author != author
            };
        assert(refs[k].author == author);
        let b = d.own_ancestor(r)->0;
        let l = choose|l: int|
            {
                &&& 0 <= l < refs.len()
                &&& #[trigger] refs[l] == b
                &&& b.author == author
                &&& forall|j: int| 0 <= j < l ==> (#[trigger] refs[j]).author != author
            };
        assert(refs[l].author == author);
        assert(k == l);
    }
}

/// The blocks of one author from the given one backwards, all known: each is
/// followed by the previous own block.
pub open spec fn is_own_chain(d: DagView, c: Seq<BlockRef>) -> bool {
    &&& c.len() > 0
    &&& forall|i: int| 0 <= i < c.len() ==> d.blocks.contains_key(#[trigger] c[i])
    &&& forall|i: int|
        0 <= i < c.len() - 1 ==> is_previous_own(d, #[trigger] c[i], c[i + 1])
}

/// The declarations say nothing on the object version.
pub open spec fn silent_on(votes: Seq<SnapperObjectStanceVote>, object: SnapperObjectKey) -> bool {
    forall|i: int| 0 <= i < votes.len() ==> (#[trigger] votes[i]).object != object
}

/// The declarations end, on the object version, with the stance.
pub open spec fn ends_with(
    votes: Seq<SnapperObjectStanceVote>,
    object: SnapperObjectKey,
    stance: SnapperObjectStance,
) -> bool {
    exists|k: int|
        {
            &&& 0 <= k < votes.len()
            &&& (#[trigger] votes[k]).object == object
            &&& votes[k].stance == stance
            &&& forall|j: int| k < j < votes.len() ==> (#[trigger] votes[j]).object != object
        }
}

proof fn lemma_last_declared(votes: Seq<SnapperObjectStanceVote>, object: SnapperObjectKey)
    ensures
        match dag::last_declared(votes, object) {
            Some(s) => ends_with(votes, object, s),
            None => silent_on(votes, object),
        },
    decreases votes.len(),
{
    if votes.len() > 0 {
        let rest = votes.drop_last();
        let n = votes.len() - 1;
        lemma_last_declared(rest, object);
        assert(votes[n] == votes.last());
        if votes.last().object != object {
            match dag::last_declared(rest, object) {
                Some(s) => {
                    let k = choose|k: int|
                        {
                            &&& 0 <= k < rest.len()
                            &&& (#[trigger] rest[k]).object == object
                            &&& rest[k].stance == s
                            &&& forall|j: int|
                                k < j < rest.len() ==> (#[trigger] rest[j]).object != object
                        };
                    assert(votes[k] == rest[k]);
                    assert forall|j: int| k < j < votes.len() implies (#[trigger] votes[j]).object
                        != object by {
                        if j < n {
                            assert(votes[j] == rest[j]);
                        }
                    }
                },
                None => {
                    assert forall|j: int| 0 <= j < votes.len() implies (#[trigger] votes[j]).object
                        != object by {
                        if j < n {
                            assert(votes[j] == rest[j]);
                        }
                    }
                },
            }
        }
    }
}

proof fn lemma_ends_once(
    votes: Seq<SnapperObjectStanceVote>,
    object: SnapperObjectKey,
    a: SnapperObjectStance,
    b: SnapperObjectStance,
)
    requires
        ends_with(votes, object, a),
        ends_with(votes, object, b),
    ensures
        a == b,
        !silent_on(votes, object),
{
    let k = choose|k: int|
        {
            &&& 0 <= k < votes.len()
            &&& (#[trigger] votes[k]).object == object
            &&& votes[k].stance == a
            &&& forall|j: int| k < j < votes.len() ==> (#[trigger] votes[j]).object != object
        };
    let l = choose|l: int|
        {
            &&& 0 <= l < votes.len()
            &&& (#[trigger] votes[l]).object == object
            &&& votes[l].stance == b
            &&& forall|j: int| l < j < votes.len() ==> (#[trigger] votes[j]).object != object
        };
    assert(votes[k].object == object && votes[l].object == object);
}

/// The chain leads from the block to one that ends, on the object version, with
/// the stance, over blocks that say nothing on it.
pub open spec fn chain_tells(
    d: DagView,
    c: Seq<BlockRef>,
    r: BlockRef,
    object: SnapperObjectKey,
    stance: SnapperObjectStance,
) -> bool {
    &&& is_own_chain(d, c)
    &&& c[0] == r
    &&& ends_with(d.blocks[c.last()].stance_votes, object, stance)
    &&& forall|i: int|
        0 <= i < c.len() - 1 ==> silent_on(d.blocks[#[trigger] c[i]].stance_votes, object)
}

proof fn lemma_chain_tail(d: DagView, c: Seq<BlockRef>)
    requires
        is_own_chain(d, c),
        c.len() > 1,
    ensures
        is_own_chain(d, c.drop_first()),
        is_previous_own(d, c[0], c[1]),
{
    let t = c.drop_first();
    assert forall|i: int| 0 <= i < t.len() implies d.blocks.contains_key(#[trigger] t[i]) by {
        assert(t[i] == c[i + 1]);
    }
    assert forall|i: int| 0 <= i < t.len() - 1 implies is_previous_own(
        d,
        #[trigger] t[i],
        t[i + 1],
    ) by {
        assert(t[i] == c[i + 1]);
        assert(is_previous_own(d, c[i + 1], c[i + 1 + 1]));
    }
    let zero: int = 0;
    assert(is_previous_own(d, c[zero], c[zero + 1]));
}

proof fn lemma_chain_grow(d: DagView, r: BlockRef, c: Seq<BlockRef>)
    requires
        d.blocks.contains_key(r),
        is_own_chain(d, c),
        is_previous_own(d, r, c[0]),
    ensures
        is_own_chain(d, seq![r] + c),
{
    let e = seq![r] + c;
    assert forall|i: int| 0 <= i < e.len() implies d.blocks.contains_key(#[trigger] e[i]) by {
        if i > 0 {
            assert(e[i] == c[i - 1]);
        }
    }
    assert forall|i: int| 0 <= i < e.len() - 1 implies is_previous_own(
        d,
        #[trigger] e[i],
        e[i + 1],
    ) by {
        if i > 0 {
            assert(e[i] == c[i - 1]);
            assert(is_previous_own(d, c[i - 1], c[i - 1 + 1]));
        }
    }
}

/// In a valid graph the previous own block is of an earlier round.
proof fn lemma_previous_own_earlier(d: DagView, r: BlockRef, a: BlockRef)
    requires
        d.valid(),
        d.blocks.contains_key(r),
        is_previous_own(d, r, a),
    ensures
        a.round < r.round,
        a.author == r.author,
{
    let k = choose|k: int|
        {
            &&& 0 <= k < d.blocks[r].ancestors.len()
            &&& #[trigger] d.blocks[r].ancestors[k] == a
            &&& a.author == d.blocks[r].reference.author
            &&& forall|j: int|
                0 <= j < k ==> (#[trigger] d.blocks[r].ancestors[j]).author
                    != d.blocks[r].reference.author
        };
    assert(d.blocks[r].ancestors[k].round < d.blocks[r].reference.round);
}

/// The stance of an author at a block is the last declaration on the object
/// version in the latest block of the author's chain that says anything on it.
pub proof fn stance_is_latest_in_own_chain(
    d: DagView,
    r: BlockRef,
    object: SnapperObjectKey,
    stance: SnapperObjectStance,
)
    requires
        d.valid(),
    ensures
        d.stance_at(r, object) == Some(stance) <==> exists|c: Seq<BlockRef>|
            chain_tells(d, c, r, object, stance),
    decreases r.round,
{
    if d.blocks.contains_key(r) {
        let votes = d.blocks[r].stance_votes;
        lemma_last_declared(votes, object);
        match dag::last_declared(votes, object) {
            Some(s) => {
                let one = seq![r];
                assert(is_own_chain(d, one));
                assert(chain_tells(d, one, r, object, s));
                assert forall|c: Seq<BlockRef>| chain_tells(d, c, r, object, stance) implies s
                    == stance by {
                    lemma_ends_once(votes, object, s, s);
                    if c.len() > 1 {
                        assert(silent_on(d.blocks[c[0]].stance_votes, object));
                    } else {
                        lemma_ends_once(votes, object, s, stance);
                    }
                }
            },
            None => {
                assert forall|c: Seq<BlockRef>| chain_tells(d, c, r, object, stance) implies c.len()
                    > 1 by {
                    if c.len() == 1 {
                        lemma_ends_once(votes, object, stance, stance);
                    }
                }
                match d.own_ancestor(r) {
                    Some(a) => {
                        own_ancestor_is_first_by_author(d, r, a);
                        lemma_previous_own_earlier(d, r, a);
                        stance_is_latest_in_own_chain(d, a, object, stance);
                        if exists|c: Seq<BlockRef>| chain_tells(d, c, a, object, stance) {
                            let c = choose|c: Seq<BlockRef>| chain_tells(d, c, a, object, stance);
                            let e = seq![r] + c;
                            lemma_chain_grow(d, r, c);
                            assert(e.last() == c.last());
                            assert forall|i: int| 0 <= i < e.len() - 1 implies silent_on(
                                d.blocks[#[trigger] e[i]].stance_votes,
                                object,
                            ) by {
                                if i > 0 {
                                    assert(e[i] == c[i - 1]);
                                }
                            }
                            assert(chain_tells(d, e, r, object, stance));
                        }
                        if exists|c: Seq<BlockRef>| chain_tells(d, c, r, object, stance) {
                            let c = choose|c: Seq<BlockRef>| chain_tells(d, c, r, object, stance);
                            let t = c.drop_first();
                            lemma_chain_tail(d, c);
                            own_ancestor_is_first_by_author(d, r, c[1]);
                            assert(t[0] == a);
                            assert(t.last() == c.last());
                            assert forall|i: int| 0 <= i < t.len() - 1 implies silent_on(
                                d.blocks[#[trigger] t[i]].stance_votes,
                                object,
                            ) by {
                                assert(t[i] == c[i + 1]);
                            }
                            assert(chain_tells(d, t, a, object, stance));
                        }
                    },
                    None => {
                        assert forall|c: Seq<BlockRef>| !chain_tells(d, c, r, object, stance) by {
                            if chain_tells(d, c, r, object, stance) {
                                lemma_chain_tail(d, c);
                                own_ancestor_is_first_by_author(d, r, c[1]);
                            }
                        }
                    },
                }
            },
        }
    } else {
        assert forall|c: Seq<BlockRef>| !chain_tells(d, c, r, object, stance) by {
            if chain_tells(d, c, r, object, stance) {
                assert(d.blocks.contains_key(c[0]));
            }
        }
    }
}

/// Some declaration acknowledges a transaction on the object version.
pub open spec fn acks(votes: Seq<SnapperObjectStanceVote>, object: SnapperObjectKey) -> bool {
    exists|t: SnapperTransactionId|
        votes.contains(
            SnapperObjectStanceVote { object, stance: SnapperObjectStance::Transaction(t) },
        )
}

proof fn lemma_acks(votes: Seq<SnapperObjectStanceVote>, object: SnapperObjectKey)
    ensures
        acks(votes, object) <==> dag::declares_ack(votes, object),
{
    if dag::declares_ack(votes, object) {
        let i = choose|i: int|
            0 <= i < votes.len() && (#[trigger] votes[i]).object == object
                && votes[i].stance is Transaction;
        let t = votes[i].stance->Transaction_0;
        assert(votes[i] == SnapperObjectStanceVote {
            object,
            stance: SnapperObjectStance::Transaction(t),
        });
        assert(votes.contains(votes[i]));
    }
    if acks(votes, object) {
        let t = choose|t: SnapperTransactionId|
            votes.contains(
                SnapperObjectStanceVote { object, stance: SnapperObjectStance::Transaction(t) },
            );
        let v = SnapperObjectStanceVote { object, stance: SnapperObjectStance::Transaction(t) };
        let i = choose|i: int| 0 <= i < votes.len() && votes[i] == v;
        assert(votes[i].object == object && votes[i].stance is Transaction);
    }
}

/// The chain leads from the block to one that acknowledges a transaction on the
/// object version.
pub open spec fn chain_acks(
    d: DagView,
    c: Seq<BlockRef>,
    r: BlockRef,
    object: SnapperObjectKey,
) -> bool {
    is_own_chain(d, c) && c[0] == r && acks(d.blocks[c.last()].stance_votes, object)
}

proof fn lemma_acked_at(d: DagView, r: BlockRef, object: SnapperObjectKey)
    requires
        d.valid(),
    ensures
        d.acked_at(r, object) <==> exists|c: Seq<BlockRef>| chain_acks(d, c, r, object),
    decreases r.round,
{
    if d.blocks.contains_key(r) {
        let votes = d.blocks[r].stance_votes;
        lemma_acks(votes, object);
        if dag::declares_ack(votes, object) {
            let one = seq![r];
            assert(is_own_chain(d, one));
            assert(chain_acks(d, one, r, object));
        } else {
            match d.own_ancestor(r) {
                Some(a) => {
                    own_ancestor_is_first_by_author(d, r, a);
                    lemma_previous_own_earlier(d, r, a);
                    lemma_acked_at(d, a, object);
                    if d.acked_at(a, object) {
                        let c = choose|c: Seq<BlockRef>| chain_acks(d, c, a, object);
                        lemma_chain_grow(d, r, c);
                        assert((seq![r] + c).last() == c.last());
                        assert(chain_acks(d, seq![r] + c, r, object));
                    }
                },
                None => {},
            }
            if exists|c: Seq<BlockRef>| chain_acks(d, c, r, object) {
                let c = choose|c: Seq<BlockRef>| chain_acks(d, c, r, object);
                assert(c.len() > 1);
                lemma_chain_tail(d, c);
                own_ancestor_is_first_by_author(d, r, c[1]);
                assert(c.drop_first().last() == c.last());
                assert(chain_acks(d, c.drop_first(), c[1], object));
            }
        }
    } else {
        assert forall|c: Seq<BlockRef>| !chain_acks(d, c, r, object) by {
            if chain_acks(d, c, r, object) {
                assert(d.blocks.contains_key(c[0]));
            }
        }
    }
}

/// An author acknowledged before a block exactly where an earlier block of the
/// author's chain acknowledges a transaction on the object version.
pub proof fn acked_before_is_told_by_own_chain(d: DagView, r: BlockRef, object: SnapperObjectKey)
    requires
        d.valid(),
    ensures
        d.acked_before(r, object) <==> exists|c: Seq<BlockRef>|
            chain_acks(d, c, r, object) && c.len() > 1,
{
    if d.blocks.contains_key(r) {
        match d.own_ancestor(r) {
            Some(a) => {
                own_ancestor_is_first_by_author(d, r, a);
                lemma_acked_at(d, a, object);
                if d.acked_at(a, object) {
                    let c = choose|c: Seq<BlockRef>| chain_acks(d, c, a, object);
                    lemma_chain_grow(d, r, c);
                    assert((seq![r] + c).last() == c.last());
                    assert(chain_acks(d, seq![r] + c, r, object) && (seq![r] + c).len() > 1);
                }
            },
            None => {},
        }
    }
    if exists|c: Seq<BlockRef>| chain_acks(d, c, r, object) && c.len() > 1 {
        let c = choose|c: Seq<BlockRef>| chain_acks(d, c, r, object) && c.len() > 1;
        assert(d.blocks.contains_key(c[0]));
        lemma_chain_tail(d, c);
        own_ancestor_is_first_by_author(d, r, c[1]);
        assert(c.drop_first().last() == c.last());
        assert(chain_acks(d, c.drop_first(), c[1], object));
    }
}

/// Some known block to which a walk leads carries, at some place, a transaction
/// of Snapper's with the identifier and the owned inputs.
pub open spec fn carried(
    d: DagView,
    root: BlockRef,
    id: SnapperTransactionId,
    inputs: Seq<SnapperObjectKey>,
) -> bool {
    exists|r: BlockRef, i: int|
        {
            &&& leads_to(d, root, r)
            &&& d.blocks.contains_key(r)
            &&& 0 <= i < d.blocks[r].transactions.len()
            &&& (#[trigger] d.blocks[r].transactions[i]).metadata is Some
            &&& d.blocks[r].transactions[i].metadata->0.id == id
            &&& d.blocks[r].transactions[i].metadata->0.owned_inputs == inputs
        }
}

/// A block includes a transaction exactly where some block to which a walk leads
/// carries it.
pub proof fn included_is_carried(d: DagView, root: BlockRef, id: SnapperTransactionId)
    ensures
        d.includes(root, id) <==> exists|inputs: Seq<SnapperObjectKey>| carried(d, root, id, inputs),
{
    if d.includes(root, id) {
        let x = choose|x: block::TransactionView| #[trigger]
            d.visible(root, x) && dag::is_transaction(x, id);
        lemma_visible_carried(d, root, x);
        assert(carried(d, root, id, x.metadata->0.owned_inputs));
    }
    if exists|inputs: Seq<SnapperObjectKey>| carried(d, root, id, inputs) {
        let inputs = choose|inputs: Seq<SnapperObjectKey>| carried(d, root, id, inputs);
        lemma_carried_visible(d, root, id, inputs);
    }
}

proof fn lemma_visible_carried(d: DagView, root: BlockRef, x: block::TransactionView)
    requires
        d.visible(root, x),
        x.metadata is Some,
    ensures
        carried(d, root, x.metadata->0.id, x.metadata->0.owned_inputs),
{
    let r = choose|r: BlockRef| #[trigger]
        d.history(root).contains(r) && d.blocks.contains_key(r) && d.blocks[r].transactions.contains(
            x,
        );
    history_is_what_walks_reach(d, root, r);
    let i = choose|i: int|
        0 <= i < d.blocks[r].transactions.len() && d.blocks[r].transactions[i] == x;
    assert(d.blocks[r].transactions[i].metadata is Some);
}

proof fn lemma_carried_visible(
    d: DagView,
    root: BlockRef,
    id: SnapperTransactionId,
    inputs: Seq<SnapperObjectKey>,
) -> (x: block::TransactionView)
    requires
        carried(d, root, id, inputs),
    ensures
        d.visible(root, x),
        dag::is_transaction(x, id),
        x.metadata->0.owned_inputs == inputs,
{
    let (r, i) = choose|r: BlockRef, i: int|
        {
            &&& leads_to(d, root, r)
            &&& d.blocks.contains_key(r)
            &&& 0 <= i < d.blocks[r].transactions.len()
            &&& (#[trigger] d.blocks[r].transactions[i]).metadata is Some
            &&& d.blocks[r].transactions[i].metadata->0.id == id
            &&& d.blocks[r].transactions[i].metadata->0.owned_inputs == inputs
        };
    history_is_what_walks_reach(d, root, r);
    let x = d.blocks[r].transactions[i];
    assert(d.blocks[r].transactions.contains(x));
    x
}

/// The candidates that a block sees for an object version are the carried
/// transactions that own it.
pub proof fn visible_candidates_are_carried(
    d: DagView,
    root: BlockRef,
    object: SnapperObjectKey,
    id: SnapperTransactionId,
)
    ensures
        d.visible_candidates(root, object).contains(id) <==> exists|inputs: Seq<SnapperObjectKey>|
            #[trigger]
            carried(d, root, id, inputs) && inputs.contains(object),
{
    if d.visible_candidates(root, object).contains(id) {
        let x = choose|x: block::TransactionView| #[trigger]
            d.visible(root, x) && dag::is_transaction(x, id)
                && x.metadata->0.owned_inputs.contains(object);
        lemma_visible_carried(d, root, x);
    }
    if exists|inputs: Seq<SnapperObjectKey>| #[trigger]
        carried(d, root, id, inputs) && inputs.contains(object) {
        let inputs = choose|inputs: Seq<SnapperObjectKey>| #[trigger]
            carried(d, root, id, inputs) && inputs.contains(object);
        let x = lemma_carried_visible(d, root, id, inputs);
        assert(d.visible(root, x) && dag::is_transaction(x, id)
            && x.metadata->0.owned_inputs.contains(object));
    }
}

/// The block carries, somewhere, a transaction with the identifier.
pub open spec fn carries(b: block::BlockView, id: SnapperTransactionId) -> bool {
    exists|i: int|
        0 <= i < b.transactions.len() && (#[trigger] b.transactions[i]).metadata is Some
            && b.transactions[i].metadata->0.id == id
}

/// The first transaction of the block with the identifier has the owned inputs.
pub open spec fn first_carries(
    b: block::BlockView,
    id: SnapperTransactionId,
    inputs: Seq<SnapperObjectKey>,
) -> bool {
    exists|i: int|
        {
            &&& 0 <= i < b.transactions.len()
            &&& (#[trigger] b.transactions[i]).metadata is Some
            &&& b.transactions[i].metadata->0.id == id
            &&& b.transactions[i].metadata->0.owned_inputs == inputs
            &&& forall|j: int|
                0 <= j < i ==> !((#[trigger] b.transactions[j]).metadata is Some
                    && b.transactions[j].metadata->0.id == id)
        }
}

proof fn lemma_first_inputs(xs: Seq<block::TransactionView>, id: SnapperTransactionId)
    ensures
        match dag::first_inputs(xs, id) {
            Some(inputs) => exists|i: int|
                {
                    &&& 0 <= i < xs.len()
                    &&& (#[trigger] xs[i]).metadata is Some
                    &&& xs[i].metadata->0.id == id
                    &&& xs[i].metadata->0.owned_inputs == inputs
                    &&& forall|j: int|
                        0 <= j < i ==> !((#[trigger] xs[j]).metadata is Some
                            && xs[j].metadata->0.id == id)
                },
            None => forall|j: int|
                0 <= j < xs.len() ==> !((#[trigger] xs[j]).metadata is Some
                    && xs[j].metadata->0.id == id),
        },
    decreases xs.len(),
{
    if xs.len() > 0 {
        let rest = xs.drop_last();
        lemma_first_inputs(rest, id);
        assert(xs[xs.len() - 1] == xs.last());
        match dag::first_inputs(rest, id) {
            Some(inputs) => {
                let i = choose|i: int|
                    {
                        &&& 0 <= i < rest.len()
                        &&& (#[trigger] rest[i]).metadata is Some
                        &&& rest[i].metadata->0.id == id
                        &&& rest[i].metadata->0.owned_inputs == inputs
                        &&& forall|j: int|
                            0 <= j < i ==> !((#[trigger] rest[j]).metadata is Some
                                && rest[j].metadata->0.id == id)
                    };
                assert(xs[i] == rest[i]);
                assert forall|j: int| 0 <= j < i implies !((#[trigger] xs[j]).metadata is Some
                    && xs[j].metadata->0.id == id) by {
                    assert(xs[j] == rest[j]);
                }
            },
            None => {
                assert forall|j: int| 0 <= j < rest.len() implies !((#[trigger] xs[j]).metadata
                    is Some && xs[j].metadata->0.id == id) by {
                    assert(xs[j] == rest[j]);
                }
            },
        }
    }
}

proof fn lemma_first_inputs_sum(
    a: Seq<block::TransactionView>,
    b: Seq<block::TransactionView>,
    id: SnapperTransactionId,
)
    ensures
        dag::first_inputs(a + b, id) == (if dag::first_inputs(a, id) is Some {
            dag::first_inputs(a, id)
        } else {
            dag::first_inputs(b, id)
        }),
    decreases b.len(),
{
    if b.len() == 0 {
        assert(a + b =~= a);
    } else {
        lemma_first_inputs_sum(a, b.drop_last(), id);
        assert((a + b).drop_last() =~= a + b.drop_last());
    }
}

proof fn lemma_first_inputs_in(d: DagView, refs: Seq<BlockRef>, id: SnapperTransactionId)
    ensures
        match dag::first_inputs(d.transactions_in(refs), id) {
            Some(inputs) => exists|k: int|
                {
                    &&& 0 <= k < refs.len()
                    &&& d.blocks.contains_key(#[trigger] refs[k])
                    &&& first_carries(d.blocks[refs[k]], id, inputs)
                    &&& forall|j: int|
                        0 <= j < k ==> !(d.blocks.contains_key(#[trigger] refs[j]) && carries(
                            d.blocks[refs[j]],
                            id,
                        ))
                },
            None => forall|j: int|
                0 <= j < refs.len() ==> !(d.blocks.contains_key(#[trigger] refs[j]) && carries(
                    d.blocks[refs[j]],
                    id,
                )),
        },
    decreases refs.len(),
{
    if refs.len() > 0 {
        let rest = refs.drop_last();
        let n = refs.len() - 1;
        let last = refs.last();
        lemma_first_inputs_in(d, rest, id);
        assert(refs[n] == last);
        assert forall|j: int| 0 <= j < n implies #[trigger] refs[j] == rest[j] by {}
        if d.blocks.contains_key(last) {
            let xs = d.blocks[last].transactions;
            lemma_first_inputs_sum(d.transactions_in(rest), xs, id);
            lemma_first_inputs(xs, id);
        }
        match dag::first_inputs(d.transactions_in(rest), id) {
            Some(inputs) => {
                let k = choose|k: int|
                    {
                        &&& 0 <= k < rest.len()
                        &&& d.blocks.contains_key(#[trigger] rest[k])
                        &&& first_carries(d.blocks[rest[k]], id, inputs)
                        &&& forall|j: int|
                            0 <= j < k ==> !(d.blocks.contains_key(#[trigger] rest[j]) && carries(
                                d.blocks[rest[j]],
                                id,
                            ))
                    };
                assert(refs[k] == rest[k]);
                assert forall|j: int| 0 <= j < k implies !(d.blocks.contains_key(
                    #[trigger] refs[j],
                ) && carries(d.blocks[refs[j]], id)) by {
                    assert(refs[j] == rest[j]);
                }
            },
            None => {
                assert forall|j: int| 0 <= j < n implies !(d.blocks.contains_key(
                    #[trigger] refs[j],
                ) && carries(d.blocks[refs[j]], id)) by {
                    assert(refs[j] == rest[j]);
                }
                match dag::first_inputs(d.transactions_in(refs), id) {
                    Some(inputs) => {
                        assert(first_carries(d.blocks[refs[n]], id, inputs));
                    },
                    None => {},
                }
            },
        }
    }
}

/// The owned inputs of a transaction are those recorded; of an unrecorded one
/// they are those that its first place in the least known block with it gives;
/// and there are none exactly where it is unrecorded and no known block carries
/// it.
pub proof fn owned_inputs_are_recorded_or_first_carried(
    d: DagView,
    known: dag::KnownInputs,
    id: SnapperTransactionId,
)
    requires
        d.blocks.dom().finite(),
    ensures
        known.contains_key(id) ==> d.owned_inputs_for(known, id) == Some(known[id]),
        !known.contains_key(id) ==> (match d.owned_inputs_for(known, id) {
            Some(inputs) => exists|r: BlockRef|
                {
                    &&& #[trigger] d.blocks.contains_key(r)
                    &&& first_carries(d.blocks[r], id, inputs)
                    &&& forall|q: BlockRef| #[trigger]
                        d.blocks.contains_key(q) && order::before(q, r) ==> !carries(
                            d.blocks[q],
                            id,
                        )
                },
            None => forall|q: BlockRef| #[trigger]
                d.blocks.contains_key(q) ==> !carries(d.blocks[q], id),
        }),
{
    let refs = order::sorted(d.blocks.dom());
    order::lemma_sorted_lists(d.blocks.dom());
    lemma_first_inputs_in(d, refs, id);
    assert forall|q: BlockRef| #[trigger] d.blocks.contains_key(q) implies exists|j: int|
        0 <= j < refs.len() && #[trigger] refs[j] == q by {
        assert(refs.to_set().contains(q));
        let j = choose|j: int| 0 <= j < refs.len() && refs[j] == q;
        assert(refs[j] == q);
    }
    if !known.contains_key(id) {
        match d.owned_inputs_for(known, id) {
            Some(inputs) => {
                let k = choose|k: int|
                    {
                        &&& 0 <= k < refs.len()
                        &&& d.blocks.contains_key(#[trigger] refs[k])
                        &&& first_carries(d.blocks[refs[k]], id, inputs)
                        &&& forall|j: int|
                            0 <= j < k ==> !(d.blocks.contains_key(#[trigger] refs[j]) && carries(
                                d.blocks[refs[j]],
                                id,
                            ))
                    };
                let r = refs[k];
                assert forall|q: BlockRef| #[trigger]
                    d.blocks.contains_key(q) && order::before(q, r) implies !carries(
                    d.blocks[q],
                    id,
                ) by {
                    let j = choose|j: int| 0 <= j < refs.len() && #[trigger] refs[j] == q;
                    if k < j {
                        order::lemma_before_asymmetric(q, r);
                    } else if j == k {
                        order::lemma_before_irreflexive(q);
                    }
                }
                assert(d.blocks.contains_key(r));
            },
            None => {
                assert forall|q: BlockRef| #[trigger] d.blocks.contains_key(q) implies !carries(
                    d.blocks[q],
                    id,
                ) by {
                    let j = choose|j: int| 0 <= j < refs.len() && #[trigger] refs[j] == q;
                    assert(!(d.blocks.contains_key(refs[j]) && carries(d.blocks[refs[j]], id)));
                }
            },
        }
    }
}

/// Some of the transactions has the identifier and owns the object version.
pub open spec fn some_owns(
    xs: Seq<block::TransactionView>,
    id: SnapperTransactionId,
    object: SnapperObjectKey,
) -> bool {
    exists|i: int|
        0 <= i < xs.len() && (#[trigger] xs[i]).metadata is Some && xs[i].metadata->0.id == id
            && xs[i].metadata->0.owned_inputs.contains(object)
}

/// Some of the transactions has the identifier.
pub open spec fn some_is(xs: Seq<block::TransactionView>, id: SnapperTransactionId) -> bool {
    exists|i: int|
        0 <= i < xs.len() && (#[trigger] xs[i]).metadata is Some && xs[i].metadata->0.id == id
}

/// The first of the transactions with the identifier has the owned inputs, and
/// is mixed or not.
pub open spec fn first_is(
    xs: Seq<block::TransactionView>,
    id: SnapperTransactionId,
    inputs: Seq<SnapperObjectKey>,
    mixed: bool,
) -> bool {
    exists|i: int|
        {
            &&& 0 <= i < xs.len()
            &&& (#[trigger] xs[i]).metadata is Some
            &&& xs[i].metadata->0.id == id
            &&& xs[i].metadata->0.owned_inputs == inputs
            &&& xs[i].metadata->0.mixed == mixed
            &&& forall|j: int|
                0 <= j < i ==> !((#[trigger] xs[j]).metadata is Some && xs[j].metadata->0.id == id)
        }
}

/// Recording transactions makes each a candidate for its owned inputs and for
/// nothing else, and keeps of each identifier what was recorded first.
pub proof fn recording_tells_transactions(
    m: state::SnapperModel,
    xs: Seq<block::TransactionView>,
    object: SnapperObjectKey,
    id: SnapperTransactionId,
)
    ensures
        ({
            let n = dag::after_transactions(m, xs);
            &&& n.candidates_of(object).contains(id) <==> m.candidates_of(object).contains(id)
                || some_owns(xs, id, object)
            &&& n.inputs.contains_key(id) <==> m.inputs.contains_key(id) || some_is(xs, id)
            &&& m.inputs.contains_key(id) ==> n.inputs[id] == m.inputs[id] && n.mixed.contains(id)
                == m.mixed.contains(id)
            &&& !m.inputs.contains_key(id) && !m.mixed.contains(id) && some_is(xs, id) ==> first_is(
                xs,
                id,
                n.inputs[id],
                n.mixed.contains(id),
            )
            &&& !m.inputs.contains_key(id) && !some_is(xs, id) ==> n.mixed.contains(id)
                == m.mixed.contains(id)
            &&& n.own == m.own
            &&& n.stances == m.stances
            &&& n.acked == m.acked
            &&& n.decisions == m.decisions
            &&& m.candidates_of(object).finite() ==> n.candidates_of(object).finite()
        }),
    decreases xs.len(),
{
    if xs.len() > 0 {
        let rest = xs.drop_last();
        let last = xs.last();
        let k = xs.len() - 1;
        recording_tells_transactions(m, rest, object, id);
        let p = dag::after_transactions(m, rest);
        let n = dag::after_transactions(m, xs);
        assert(xs[k] == last);
        assert forall|j: int| 0 <= j < k implies #[trigger] xs[j] == rest[j] by {}
        if some_owns(rest, id, object) {
            let i = choose|i: int|
                0 <= i < rest.len() && (#[trigger] rest[i]).metadata is Some
                    && rest[i].metadata->0.id == id && rest[i].metadata->0.owned_inputs.contains(
                    object,
                );
            assert(xs[i] == rest[i]);
        }
        if some_owns(xs, id, object) {
            let i = choose|i: int|
                0 <= i < xs.len() && (#[trigger] xs[i]).metadata is Some && xs[i].metadata->0.id
                    == id && xs[i].metadata->0.owned_inputs.contains(object);
            if i < k {
                assert(xs[i] == rest[i]);
            }
        }
        if some_is(rest, id) {
            let i = choose|i: int|
                0 <= i < rest.len() && (#[trigger] rest[i]).metadata is Some
                    && rest[i].metadata->0.id == id;
            assert(xs[i] == rest[i]);
        }
        if some_is(xs, id) {
            let i = choose|i: int|
                0 <= i < xs.len() && (#[trigger] xs[i]).metadata is Some && xs[i].metadata->0.id
                    == id;
            if i < k {
                assert(xs[i] == rest[i]);
            }
        }
        if !m.inputs.contains_key(id) && !m.mixed.contains(id) && some_is(xs, id) {
            if some_is(rest, id) {
                let inputs = p.inputs[id];
                let mixed = p.mixed.contains(id);
                let i = choose|i: int|
                    {
                        &&& 0 <= i < rest.len()
                        &&& (#[trigger] rest[i]).metadata is Some
                        &&& rest[i].metadata->0.id == id
                        &&& rest[i].metadata->0.owned_inputs == inputs
                        &&& rest[i].metadata->0.mixed == mixed
                        &&& forall|j: int|
                            0 <= j < i ==> !((#[trigger] rest[j]).metadata is Some
                                && rest[j].metadata->0.id == id)
                    };
                assert(xs[i] == rest[i]);
                assert forall|j: int| 0 <= j < i implies !((#[trigger] xs[j]).metadata is Some
                    && xs[j].metadata->0.id == id) by {
                    assert(xs[j] == rest[j]);
                }
                assert(first_is(xs, id, n.inputs[id], n.mixed.contains(id)));
            } else {
                assert(xs[k].metadata is Some && xs[k].metadata->0.id == id);
                assert forall|j: int| 0 <= j < k implies !((#[trigger] xs[j]).metadata is Some
                    && xs[j].metadata->0.id == id) by {
                    assert(xs[j] == rest[j]);
                    assert(!(rest[j].metadata is Some && rest[j].metadata->0.id == id));
                }
                assert(first_is(xs, id, n.inputs[id], n.mixed.contains(id)));
            }
        }
    }
}

/// Transactions with one identifier in the history have the same owned inputs.
pub open spec fn identifiers_tell_inputs(d: DagView, root: BlockRef) -> bool {
    forall|id: SnapperTransactionId, a: Seq<SnapperObjectKey>, b: Seq<SnapperObjectKey>|
        #[trigger] carried(d, root, id, a) && #[trigger] carried(d, root, id, b) ==> a == b
}

/// Two different transactions that own the object version are carried.
pub open spec fn contested(d: DagView, root: BlockRef, object: SnapperObjectKey) -> bool {
    exists|
        t: SnapperTransactionId,
        u: SnapperTransactionId,
        a: Seq<SnapperObjectKey>,
        b: Seq<SnapperObjectKey>,
    |
        #[trigger] carried(d, root, t, a) && #[trigger] carried(d, root, u, b) && t != u
            && a.contains(object) && b.contains(object)
}

/// What the transactions in a history say, by what is carried.
proof fn lemma_known_at(d: DagView, root: BlockRef, object: SnapperObjectKey, id: SnapperTransactionId)
    requires
        d.blocks.dom().finite(),
    ensures
        ({
            let m = d.known_at(root);
            &&& m.candidates_of(object).contains(id) <==> exists|a: Seq<SnapperObjectKey>|
                #[trigger]
                carried(d, root, id, a) && a.contains(object)
            &&& m.inputs.contains_key(id) <==> exists|a: Seq<SnapperObjectKey>| carried(
                d,
                root,
                id,
                a,
            )
            &&& m.inputs.contains_key(id) ==> carried(d, root, id, m.inputs[id])
            &&& m.candidates_of(object).finite()
        }),
{
    let refs = order::sorted(d.history(root));
    let xs = d.transactions_in(refs);
    let start = state::SnapperModel::initial(root.author);
    let m = d.known_at(root);
    anchor_laws::lemma_history_finite(d, root);
    order::lemma_sorted_lists(d.history(root));
    dag::lemma_transactions_in(d, refs);
    recording_tells_transactions(start, xs, object, id);
    assert forall|i: int| 0 <= i < xs.len() implies d.visible(root, #[trigger] xs[i]) by {
        assert(xs.contains(xs[i]));
        let r = choose|r: BlockRef| #[trigger]
            refs.contains(r) && d.blocks.contains_key(r) && d.blocks[r].transactions.contains(xs[i]);
        assert(refs.to_set().contains(r));
        assert(d.history(root).contains(r));
    }
    assert forall|x: block::TransactionView| d.visible(root, x) implies exists|i: int|
        0 <= i < xs.len() && #[trigger] xs[i] == x by {
        let r = choose|r: BlockRef| #[trigger]
            d.history(root).contains(r) && d.blocks.contains_key(r)
                && d.blocks[r].transactions.contains(x);
        assert(refs.to_set().contains(r));
        assert(refs.contains(r));
        assert(xs.contains(x));
        let i = choose|i: int| 0 <= i < xs.len() && xs[i] == x;
        assert(xs[i] == x);
    }
    if some_owns(xs, id, object) {
        let i = choose|i: int|
            0 <= i < xs.len() && (#[trigger] xs[i]).metadata is Some && xs[i].metadata->0.id == id
                && xs[i].metadata->0.owned_inputs.contains(object);
        lemma_visible_carried(d, root, xs[i]);
    }
    if exists|a: Seq<SnapperObjectKey>| #[trigger] carried(d, root, id, a) && a.contains(object) {
        let a = choose|a: Seq<SnapperObjectKey>| #[trigger]
            carried(d, root, id, a) && a.contains(object);
        let x = lemma_carried_visible(d, root, id, a);
        let i = choose|i: int| 0 <= i < xs.len() && #[trigger] xs[i] == x;
        assert(xs[i].metadata is Some && xs[i].metadata->0.owned_inputs.contains(object));
    }
    if some_is(xs, id) {
        let i = choose|i: int|
            0 <= i < xs.len() && (#[trigger] xs[i]).metadata is Some && xs[i].metadata->0.id == id;
        lemma_visible_carried(d, root, xs[i]);
        let inputs = m.inputs[id];
        let mixed = m.mixed.contains(id);
        let k = choose|k: int|
            {
                &&& 0 <= k < xs.len()
                &&& (#[trigger] xs[k]).metadata is Some
                &&& xs[k].metadata->0.id == id
                &&& xs[k].metadata->0.owned_inputs == inputs
                &&& xs[k].metadata->0.mixed == mixed
                &&& forall|j: int|
                    0 <= j < k ==> !((#[trigger] xs[j]).metadata is Some && xs[j].metadata->0.id
                        == id)
            };
        lemma_visible_carried(d, root, xs[k]);
    }
    if exists|a: Seq<SnapperObjectKey>| carried(d, root, id, a) {
        let a = choose|a: Seq<SnapperObjectKey>| carried(d, root, id, a);
        let x = lemma_carried_visible(d, root, id, a);
        let i = choose|i: int| 0 <= i < xs.len() && #[trigger] xs[i] == x;
        assert(xs[i].metadata is Some && xs[i].metadata->0.id == id);
    }
}

/// At a block the contested object versions are in recovery; with an object
/// version in recovery all inputs of the carried transactions that own it are;
/// and nothing else is: any set of which this can be said holds all object
/// versions in recovery.
pub proof fn recovery_at_block_is_least(
    d: DagView,
    root: BlockRef,
    s: Set<SnapperObjectKey>,
    object: SnapperObjectKey,
    id: SnapperTransactionId,
    inputs: Seq<SnapperObjectKey>,
    sibling: SnapperObjectKey,
)
    requires
        d.blocks.dom().finite(),
        identifiers_tell_inputs(d, root),
    ensures
        contested(d, root, object) ==> d.recovery_objects_at(root).contains(object),
        d.recovery_objects_at(root).contains(object) && carried(d, root, id, inputs)
            && inputs.contains(object) && inputs.contains(sibling) ==> d.recovery_objects_at(
            root,
        ).contains(sibling),
        ({
            &&& forall|o: SnapperObjectKey| #[trigger] contested(d, root, o) ==> s.contains(o)
            &&& forall|
                o: SnapperObjectKey,
                t: SnapperTransactionId,
                a: Seq<SnapperObjectKey>,
                k: SnapperObjectKey,
            |
                #![trigger carried(d, root, t, a), a.contains(o), a.contains(k)]
                s.contains(o) && carried(d, root, t, a) && a.contains(o) && a.contains(k)
                    ==> s.contains(k)
        }) ==> d.recovery_objects_at(root).subset_of(s),
{
    let m = d.known_at(root);
    let seeds = Set::new(|o: SnapperObjectKey| m.conflicted(o));
    recovery::recovery_closure_is_least(seeds, m.candidates, m.inputs);
    assert forall|o: SnapperObjectKey| seeds.contains(o) <==> contested(d, root, o) by {
        lemma_known_at(d, root, o, id);
        state_laws::conflict_is_two_candidates(m, o);
        if m.conflicted(o) {
            let (t, u) = choose|t: SnapperTransactionId, u: SnapperTransactionId| #[trigger]
                m.candidates_of(o).contains(t) && #[trigger] m.candidates_of(o).contains(u) && t
                    != u;
            lemma_known_at(d, root, o, t);
            lemma_known_at(d, root, o, u);
            let a = choose|a: Seq<SnapperObjectKey>| #[trigger]
                carried(d, root, t, a) && a.contains(o);
            let b = choose|b: Seq<SnapperObjectKey>| #[trigger]
                carried(d, root, u, b) && b.contains(o);
            assert(carried(d, root, t, a) && carried(d, root, u, b));
        }
        if contested(d, root, o) {
            let (t, u, a, b) = choose|
                t: SnapperTransactionId,
                u: SnapperTransactionId,
                a: Seq<SnapperObjectKey>,
                b: Seq<SnapperObjectKey>,
            |
                #[trigger] carried(d, root, t, a) && #[trigger] carried(d, root, u, b) && t != u
                    && a.contains(o) && b.contains(o);
            lemma_known_at(d, root, o, t);
            lemma_known_at(d, root, o, u);
            assert(m.candidates_of(o).contains(t) && m.candidates_of(o).contains(u));
        }
    }
    if d.recovery_objects_at(root).contains(object) && carried(d, root, id, inputs)
        && inputs.contains(object) && inputs.contains(sibling) {
        lemma_known_at(d, root, object, id);
        assert(m.candidates_of(object).contains(id));
        assert(carried(d, root, id, m.inputs[id]));
        assert(m.inputs[id] == inputs);
        assert(m.candidates[object].contains(id));
        assert(recovery::is_sibling(object, sibling, m.candidates, m.inputs));
    }
    if ({
        &&& forall|o: SnapperObjectKey| #[trigger] contested(d, root, o) ==> s.contains(o)
        &&& forall|
            o: SnapperObjectKey,
            t: SnapperTransactionId,
            a: Seq<SnapperObjectKey>,
            k: SnapperObjectKey,
        |
            #![trigger carried(d, root, t, a), a.contains(o), a.contains(k)]
            s.contains(o) && carried(d, root, t, a) && a.contains(o) && a.contains(k) ==> s.contains(
                k,
            )
    }) {
        assert forall|o: SnapperObjectKey, k: SnapperObjectKey|
            s.contains(o) && #[trigger] recovery::is_sibling(
                o,
                k,
                m.candidates,
                m.inputs,
            ) implies s.contains(k) by {
            let t = choose|t: SnapperTransactionId| #[trigger]
                m.candidates[o].contains(t) && m.inputs.contains_key(t) && m.inputs[t].contains(k);
            lemma_known_at(d, root, o, t);
            assert(m.candidates_of(o).contains(t));
            let a = choose|a: Seq<SnapperObjectKey>| #[trigger]
                carried(d, root, t, a) && a.contains(o);
            assert(a == m.inputs[t]);
            assert(a.contains(o) && a.contains(k));
        }
        assert(recovery::holds_siblings(s, m.candidates, m.inputs));
        assert(seeds.subset_of(s));
    }
}

/// The block carries the transaction in its history, and its author stands for
/// it on each of the given inputs.
pub open spec fn stands_for(
    d: DagView,
    r: BlockRef,
    id: SnapperTransactionId,
    inputs: Seq<SnapperObjectKey>,
) -> bool {
    &&& exists|a: Seq<SnapperObjectKey>| carried(d, r, id, a)
    &&& forall|o: SnapperObjectKey| #[trigger]
        inputs.contains(o) ==> d.stance_at(r, o) == Some(SnapperObjectStance::Transaction(id))
}

/// A fast vote for a recorded transaction is a block that carries it and stands
/// for it on each recorded input.
pub proof fn fast_vote_stands_for_transaction(
    d: DagView,
    known: dag::KnownInputs,
    r: BlockRef,
    id: SnapperTransactionId,
)
    requires
        known.contains_key(id),
    ensures
        d.is_fast_vote(known, r, id) <==> stands_for(d, r, id, known[id]),
{
    included_is_carried(d, r, id);
    assert(d.owned_inputs_for(known, id) == Some(known[id]));
    if stands_for(d, r, id, known[id]) {
        assert forall|o: SnapperObjectKey| #[trigger]
            d.owned_inputs_for(known, id)->0.contains(o) implies d.stance_at(r, o) == Some(
            SnapperObjectStance::Transaction(id),
        ) by {
            assert(known[id].contains(o));
        }
    }
    if d.is_fast_vote(known, r, id) {
        assert forall|o: SnapperObjectKey| #[trigger] known[id].contains(o) implies d.stance_at(
            r,
            o,
        ) == Some(SnapperObjectStance::Transaction(id)) by {
            assert(d.owned_inputs_for(known, id)->0.contains(o));
        }
    }
}

/// The authors of the given ones among the ancestors of a known block in the
/// round before it.
pub open spec fn parent_authors(d: DagView, r: BlockRef, given: Set<BlockRef>) -> Set<
    AuthorityIndex,
> {
    Set::new(
        |a: AuthorityIndex|
            d.blocks.contains_key(r) && exists|p: BlockRef|
                #![trigger d.blocks[r].ancestors.contains(p)]
                d.blocks[r].ancestors.contains(p) && p.round + 1 == r.round && p.author == a
                    && given.contains(p),
    )
}

proof fn lemma_parent_authors(d: DagView, r: BlockRef, given: Set<BlockRef>, counted: Set<BlockRef>)
    requires
        d.valid(),
        forall|p: BlockRef| #[trigger]
            counted.contains(p) <==> d.is_round_parent(r, p) && given.contains(p),
    ensures
        dag::authors_of(counted) == parent_authors(d, r, given),
{
    assert forall|a: AuthorityIndex| dag::authors_of(counted).contains(a) <==> parent_authors(
        d,
        r,
        given,
    ).contains(a) by {
        if dag::authors_of(counted).contains(a) {
            let p = choose|p: BlockRef| #[trigger] counted.contains(p) && p.author == a;
            assert(d.blocks[r].ancestors.contains(p));
            let i = choose|i: int|
                0 <= i < d.blocks[r].ancestors.len() && d.blocks[r].ancestors[i] == p;
            assert(d.blocks[r].ancestors[i].round < d.blocks[r].reference.round);
        }
        if parent_authors(d, r, given).contains(a) {
            let p = choose|p: BlockRef|
                #![trigger d.blocks[r].ancestors.contains(p)]
                d.blocks[r].ancestors.contains(p) && p.round + 1 == r.round && p.author == a
                    && given.contains(p);
            assert(d.is_round_parent(r, p));
            assert(counted.contains(p));
        }
    }
    assert(dag::authors_of(counted) =~= parent_authors(d, r, given));
}

/// A certificate for a recorded transaction is a block that stands for it on
/// ancestors of the round before that stand for it, by authors with more than
/// two thirds of all stake.
pub proof fn certificate_is_two_thirds_of_votes(
    d: DagView,
    known: dag::KnownInputs,
    r: BlockRef,
    id: SnapperTransactionId,
)
    requires
        d.valid(),
        committee::usable_stakes(d.stakes),
        known.contains_key(id),
    ensures
        d.is_fast_cert(known, r, id) <==> stands_for(d, r, id, known[id]) && 3
            * committee::stake_of(
            d.stakes,
            parent_authors(d, r, Set::new(|p: BlockRef| stands_for(d, p, id, known[id]))),
        ) > 2 * committee::total_stake(d.stakes),
{
    let given = Set::new(|p: BlockRef| stands_for(d, p, id, known[id]));
    let counted = d.fast_votes_of(known, r, id);
    assert forall|p: BlockRef| #[trigger] counted.contains(p) <==> d.is_round_parent(r, p)
        && given.contains(p) by {
        fast_vote_stands_for_transaction(d, known, p, id);
    }
    fast_vote_stands_for_transaction(d, known, r, id);
    lemma_parent_authors(d, r, given, counted);
    committee::quorum_is_more_than_two_thirds(d.stakes, dag::authors_of(counted));
}

/// The block stands at Bottom on an object version that is in recovery at it.
pub open spec fn opposes(d: DagView, p: BlockRef, object: SnapperObjectKey) -> bool {
    d.stance_at(p, object) == Some(SnapperObjectStance::Bottom) && d.recovery_objects_at(
        p,
    ).contains(object)
}

/// A block votes against an object version exactly where it stands at Bottom on
/// it in recovery: to unlock where its author acknowledged a transaction before,
/// else to skip.
pub proof fn bottom_vote_opposes(d: DagView, p: BlockRef, object: SnapperObjectKey)
    ensures
        d.bottom_vote_kind_at(p, object) is Some <==> opposes(d, p, object),
        d.bottom_vote_kind_at(p, object) == Some(SnapperBottomVoteKind::Unlock) <==> opposes(
            d,
            p,
            object,
        ) && d.acked_before(p, object),
        d.bottom_vote_kind_at(p, object) == Some(SnapperBottomVoteKind::Skip) <==> opposes(
            d,
            p,
            object,
        ) && !d.acked_before(p, object),
{
}

/// An unlock certificate is a block on ancestors of the round before that stand
/// at Bottom in recovery, acknowledged before or not, by authors with more than
/// two thirds of all stake.
pub proof fn unlock_certificate_is_two_thirds_at_bottom(
    d: DagView,
    r: BlockRef,
    object: SnapperObjectKey,
)
    requires
        d.valid(),
        committee::usable_stakes(d.stakes),
    ensures
        d.is_unlock_cert(r, object) <==> 3 * committee::stake_of(
            d.stakes,
            parent_authors(d, r, Set::new(|p: BlockRef| opposes(d, p, object))),
        ) > 2 * committee::total_stake(d.stakes),
{
    let given = Set::new(|p: BlockRef| opposes(d, p, object));
    let counted = Set::new(
        |p: BlockRef| d.is_round_parent(r, p) && d.bottom_vote_kind_at(p, object) is Some,
    );
    assert forall|p: BlockRef| #[trigger] counted.contains(p) <==> d.is_round_parent(r, p)
        && given.contains(p) by {
        bottom_vote_opposes(d, p, object);
    }
    lemma_parent_authors(d, r, given, counted);
    committee::quorum_is_more_than_two_thirds(d.stakes, dag::authors_of(counted));
}

/// A skip certificate is a block on ancestors of the round before that stand at
/// Bottom in recovery and never acknowledged, by authors with more than two
/// thirds of all stake.
pub proof fn skip_certificate_is_two_thirds_at_bottom(
    d: DagView,
    r: BlockRef,
    object: SnapperObjectKey,
)
    requires
        d.valid(),
        committee::usable_stakes(d.stakes),
    ensures
        d.is_skip_cert(r, object) <==> 3 * committee::stake_of(
            d.stakes,
            parent_authors(
                d,
                r,
                Set::new(|p: BlockRef| opposes(d, p, object) && !d.acked_before(p, object)),
            ),
        ) > 2 * committee::total_stake(d.stakes),
{
    let given = Set::new(|p: BlockRef| opposes(d, p, object) && !d.acked_before(p, object));
    let counted = Set::new(
        |p: BlockRef|
            d.is_round_parent(r, p) && d.bottom_vote_kind_at(p, object) == Some(
                SnapperBottomVoteKind::Skip,
            ),
    );
    assert forall|p: BlockRef| #[trigger] counted.contains(p) <==> d.is_round_parent(r, p)
        && given.contains(p) by {
        bottom_vote_opposes(d, p, object);
    }
    lemma_parent_authors(d, r, given, counted);
    committee::quorum_is_more_than_two_thirds(d.stakes, dag::authors_of(counted));
}

/// More than two thirds of all stake stands at Bottom in recovery among the
/// ancestors, of the round before, of some block to which a walk leads.
pub open spec fn opposed_in_history(d: DagView, root: BlockRef, object: SnapperObjectKey) -> bool {
    exists|r: BlockRef| #[trigger]
        leads_to(d, root, r) && 3 * committee::stake_of(
            d.stakes,
            parent_authors(d, r, Set::new(|p: BlockRef| opposes(d, p, object))),
        ) > 2 * committee::total_stake(d.stakes)
}

/// The history of a block has an opposing certificate exactly where more than
/// two thirds of all stake stands at Bottom below some block of it, whoever
/// acknowledged before.
pub proof fn opposing_certificate_is_opposition(
    d: DagView,
    root: BlockRef,
    object: SnapperObjectKey,
)
    requires
        d.valid(),
        committee::usable_stakes(d.stakes),
    ensures
        d.has_opposing_cert(root, object) <==> opposed_in_history(d, root, object),
{
    if d.has_opposing_cert(root, object) {
        let r = choose|r: BlockRef| #[trigger]
            d.history(root).contains(r) && (d.is_skip_cert(r, object) || d.is_unlock_cert(
                r,
                object,
            ));
        history_is_what_walks_reach(d, root, r);
        if d.is_skip_cert(r, object) {
            tracker_laws::skip_certificate_is_unlock_certificate(d, r, object);
        }
        unlock_certificate_is_two_thirds_at_bottom(d, r, object);
    }
    if opposed_in_history(d, root, object) {
        let r = choose|r: BlockRef| #[trigger]
            leads_to(d, root, r) && 3 * committee::stake_of(
                d.stakes,
                parent_authors(d, r, Set::new(|p: BlockRef| opposes(d, p, object))),
            ) > 2 * committee::total_stake(d.stakes);
        history_is_what_walks_reach(d, root, r);
        unlock_certificate_is_two_thirds_at_bottom(d, r, object);
        assert(d.history(root).contains(r));
    }
}

/// Some block to which a walk leads is a certificate for the transaction.
pub open spec fn certified_in_history(
    d: DagView,
    known: dag::KnownInputs,
    root: BlockRef,
    id: SnapperTransactionId,
) -> bool {
    exists|r: BlockRef| #[trigger] leads_to(d, root, r) && d.is_fast_cert(known, r, id)
}

/// The history of a block has a certificate exactly where a walk from it leads
/// to one.
pub proof fn certificate_in_history_is_reached(
    d: DagView,
    known: dag::KnownInputs,
    root: BlockRef,
    id: SnapperTransactionId,
)
    ensures
        d.has_cert(known, root, id) <==> certified_in_history(d, known, root, id),
{
    if d.has_cert(known, root, id) {
        let r = choose|r: BlockRef| #[trigger]
            d.history(root).contains(r) && d.is_fast_cert(known, r, id);
        history_is_what_walks_reach(d, root, r);
    }
    if certified_in_history(d, known, root, id) {
        let r = choose|r: BlockRef| #[trigger]
            leads_to(d, root, r) && d.is_fast_cert(known, r, id);
        history_is_what_walks_reach(d, root, r);
        assert(d.history(root).contains(r));
    }
}

/// The authors of the given ones among some blocks of the round before.
pub open spec fn authors_before(round: Round, refs: Seq<BlockRef>, given: Set<BlockRef>) -> Set<
    AuthorityIndex,
> {
    Set::new(
        |a: AuthorityIndex|
            exists|p: BlockRef| #[trigger]
                refs.contains(p) && p.round + 1 == round && p.author == a && given.contains(p),
    )
}

/// For a block of a round after the first on the given parents, a certificate is
/// visible exactly where the parents of the round before that stand for the
/// transaction are by authors with more than two thirds of all stake, or a walk
/// from a parent leads to a certificate.
pub proof fn visible_certificate_is_formed_or_reached(
    d: DagView,
    known: dag::KnownInputs,
    round: Round,
    parents: Seq<BlockRef>,
    id: SnapperTransactionId,
)
    requires
        committee::usable_stakes(d.stakes),
        known.contains_key(id),
        round > 0,
    ensures
        d.cert_visible(known, round, parents, id) <==> {
            ||| 3 * committee::stake_of(
                d.stakes,
                authors_before(
                    round,
                    parents,
                    Set::new(|p: BlockRef| stands_for(d, p, id, known[id])),
                ),
            ) > 2 * committee::total_stake(d.stakes)
            ||| exists|p: BlockRef| #[trigger]
                parents.contains(p) && certified_in_history(d, known, p, id)
        },
{
    let given = Set::new(|p: BlockRef| stands_for(d, p, id, known[id]));
    let counted = Set::new(
        |p: BlockRef|
            parents.contains(p) && p.round == dag::previous_round(round) && d.is_fast_vote(
                known,
                p,
                id,
            ),
    );
    let authors = authors_before(round, parents, given);
    assert forall|a: AuthorityIndex| dag::authors_of(counted).contains(a) <==> authors.contains(
        a,
    ) by {
        if dag::authors_of(counted).contains(a) {
            let p = choose|p: BlockRef| #[trigger] counted.contains(p) && p.author == a;
            fast_vote_stands_for_transaction(d, known, p, id);
            assert(parents.contains(p));
        }
        if authors.contains(a) {
            let p = choose|p: BlockRef| #[trigger]
                parents.contains(p) && p.round + 1 == round && p.author == a && given.contains(p);
            fast_vote_stands_for_transaction(d, known, p, id);
            assert(counted.contains(p));
        }
    }
    assert(dag::authors_of(counted) =~= authors);
    committee::quorum_is_more_than_two_thirds(d.stakes, authors);
    assert forall|p: BlockRef| #[trigger] parents.contains(p) implies d.has_cert(known, p, id)
        == certified_in_history(d, known, p, id) by {
        certificate_in_history_is_reached(d, known, p, id);
    }
}

} // verus!
