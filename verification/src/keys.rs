//! Identifiers of authorities, blocks, objects and transactions.
use vstd::prelude::*;

use crate::order;
use crate::order::{FixedWidthKey, OrderedKey, Relative};

verus! {

/// Length of an object identifier.
pub const SNAPPER_OBJECT_ID_LENGTH: usize = 32;

/// A round of the block graph.
pub type Round = u32;

/// The position of a transaction in its block.
pub type TransactionIndex = u16;

/// Voting power of an authority.
pub type Stake = u64;

/// The round of the blocks that every authority starts from.
pub const GENESIS_ROUND: u32 = 0;

/// The position of an authority in the committee.
#[derive(Clone, Copy, Debug, PartialEq, Eq, PartialOrd, Ord, Hash, Structural)]
pub struct AuthorityIndex(pub u32);

/// Digest of a block's bytes.
#[derive(Clone, Copy, Debug, PartialEq, Eq, PartialOrd, Ord, Hash)]
pub struct BlockDigest(pub [u8; 32]);

/// A block, named by its round, its author and its digest.
#[derive(Clone, Copy, Debug, PartialEq, Eq, PartialOrd, Ord, Hash)]
pub struct BlockRef {
    pub round: Round,
    pub author: AuthorityIndex,
    pub digest: BlockDigest,
}

/// An owned-object version tracked by Snapper.
#[derive(Clone, Copy, Debug, PartialEq, Eq, PartialOrd, Ord, Hash)]
pub struct SnapperObjectKey {
    pub object_id: [u8; 32],
    pub version: u64,
}

/// Stable identifier for a transaction, computed from the transaction bytes.
///
/// A transaction cannot be identified by the block that introduces it, because
/// a block may carry both the transaction and the stance that acknowledges it:
/// the digest of the block would depend on itself.
#[derive(Clone, Copy, Debug, PartialEq, Eq, PartialOrd, Ord, Hash)]
pub struct SnapperTransactionId(pub [u8; 32]);

impl OrderedKey for AuthorityIndex {
    open spec fn words(self) -> Seq<int> {
        self.0.words()
    }

    proof fn words_tell(a: Self, b: Self) {
        u32::words_tell(a.0, b.0);
    }

    fn relate(&self, other: &Self) -> (r: Relative) {
        self.0.relate(&other.0)
    }
}

impl FixedWidthKey for AuthorityIndex {
    open spec fn width() -> nat {
        1
    }

    proof fn words_len(a: Self) {
    }
}

impl OrderedKey for SnapperTransactionId {
    open spec fn words(self) -> Seq<int> {
        self.0.words()
    }

    proof fn words_tell(a: Self, b: Self) {
        <[u8; 32]>::words_tell(a.0, b.0);
    }

    fn relate(&self, other: &Self) -> (r: Relative) {
        self.0.relate(&other.0)
    }
}

impl FixedWidthKey for SnapperTransactionId {
    open spec fn width() -> nat {
        32
    }

    proof fn words_len(a: Self) {
    }
}

impl OrderedKey for SnapperObjectKey {
    open spec fn words(self) -> Seq<int> {
        (self.object_id, self.version).words()
    }

    proof fn words_tell(a: Self, b: Self) {
        <([u8; 32], u64)>::words_tell((a.object_id, a.version), (b.object_id, b.version));
    }

    fn relate(&self, other: &Self) -> (r: Relative) {
        (self.object_id, self.version).relate(&(other.object_id, other.version))
    }
}

impl FixedWidthKey for SnapperObjectKey {
    open spec fn width() -> nat {
        33
    }

    proof fn words_len(a: Self) {
    }
}

impl OrderedKey for BlockRef {
    open spec fn words(self) -> Seq<int> {
        (self.round, (self.author, self.digest.0)).words()
    }

    proof fn words_tell(a: Self, b: Self) {
        <(Round, (AuthorityIndex, [u8; 32]))>::words_tell(
            (a.round, (a.author, a.digest.0)),
            (b.round, (b.author, b.digest.0)),
        );
        assert(a.digest == b.digest);
    }

    fn relate(&self, other: &Self) -> (r: Relative) {
        (self.round, (self.author, self.digest.0)).relate(
            &(other.round, (other.author, other.digest.0)),
        )
    }
}

/// A block of an earlier round comes first.
pub proof fn lemma_earlier_round_first(a: BlockRef, b: BlockRef)
    requires
        a.round < b.round,
    ensures
        order::before(a, b),
{
    assert(a.words()[0] == a.round && b.words()[0] == b.round);
    assert(order::lex_less_at(a.words(), b.words(), 0));
}

} // verus!
