//! Blocks of the consensus graph, as far as voting reads them.
use std::sync::Arc;
use vstd::prelude::*;

use crate::committee::Committee;
use crate::envelope;
use crate::envelope::SnapperTransactionEnvelope;
use crate::keys::{
    AuthorityIndex, BlockRef, Round, SnapperObjectKey, SnapperTransactionId, TransactionIndex,
};
use crate::protocol::SnapperObjectStanceVote;

verus! {

/// What Snapper reads of a transaction: its identifier, whether it is mixed, and
/// its owned inputs.
pub struct SnapperMetadata {
    pub id: SnapperTransactionId,
    pub mixed: bool,
    pub owned_inputs: Vec<SnapperObjectKey>,
}

/// The contents of [`SnapperMetadata`].
pub struct MetadataView {
    pub id: SnapperTransactionId,
    pub mixed: bool,
    pub owned_inputs: Seq<SnapperObjectKey>,
}

impl View for SnapperMetadata {
    type V = MetadataView;

    open spec fn view(&self) -> MetadataView {
        MetadataView { id: self.id, mixed: self.mixed, owned_inputs: self.owned_inputs@ }
    }
}

/// A transaction as a block carries it. Its bytes are read once, when it is
/// built.
pub struct Transaction {
    data: Vec<u8>,
    metadata: Option<SnapperMetadata>,
}

/// The contents of [`Transaction`].
pub struct TransactionView {
    pub data: Seq<u8>,
    pub metadata: Option<MetadataView>,
}

impl View for Transaction {
    type V = TransactionView;

    closed spec fn view(&self) -> TransactionView {
        TransactionView {
            data: self.data@,
            metadata: match self.metadata {
                Some(m) => Some(m@),
                None => None,
            },
        }
    }
}

/// What Snapper reads of a transaction with the given bytes; nothing for an
/// ordinary transaction.
pub open spec fn metadata_of(data: Seq<u8>) -> Option<MetadataView> {
    match envelope::envelope_metadata(data) {
        Some((mixed, owned_inputs)) => Some(
            MetadataView { id: envelope::transaction_id_of(data), mixed, owned_inputs },
        ),
        None => None,
    }
}

impl Transaction {
    /// The transaction with the given bytes.
    pub fn new(data: Vec<u8>) -> (r: Self)
        ensures
            r@.data == data@,
            r@.metadata == metadata_of(data@),
    {
        match SnapperTransactionEnvelope::decode(data.as_slice()) {
            Some(envelope) => {
                let id = SnapperTransactionEnvelope::transaction_id(data.as_slice());
                Transaction::with_metadata(
                    data,
                    Some(
                        SnapperMetadata {
                            id,
                            mixed: envelope.mixed,
                            owned_inputs: envelope.owned_inputs,
                        },
                    ),
                )
            },
            None => Transaction::with_metadata(data, None),
        }
    }

    /// A transaction with the given bytes and what Snapper is to read of it.
    pub fn with_metadata(data: Vec<u8>, metadata: Option<SnapperMetadata>) -> (r: Self)
        ensures
            r@.data == data@,
            r@.metadata == (match metadata {
                Some(m) => Some(m@),
                None => None,
            }),
    {
        Transaction { data, metadata }
    }

    /// The bytes of the transaction.
    pub fn data(&self) -> (r: &[u8])
        ensures
            r@ == self@.data,
    {
        self.data.as_slice()
    }

    /// What Snapper reads of the transaction.
    pub fn metadata(&self) -> (r: Option<&SnapperMetadata>)
        ensures
            self@.metadata == (match r {
                Some(m) => Some(m@),
                None => None,
            }),
    {
        self.metadata.as_ref()
    }
}

/// Transactions of one block that the author of another block rejects.
pub struct BlockTransactionVotes {
    pub block_ref: BlockRef,
    pub rejects: Vec<TransactionIndex>,
}

/// The contents of [`BlockTransactionVotes`].
pub struct TransactionVotesView {
    pub block_ref: BlockRef,
    pub rejects: Seq<TransactionIndex>,
}

impl View for BlockTransactionVotes {
    type V = TransactionVotesView;

    open spec fn view(&self) -> TransactionVotesView {
        TransactionVotesView { block_ref: self.block_ref, rejects: self.rejects@ }
    }
}

/// The contents of a block.
pub struct Block {
    pub reference: BlockRef,
    pub ancestors: Vec<BlockRef>,
    pub transactions: Vec<Transaction>,
    pub transaction_votes: Vec<BlockTransactionVotes>,
    pub snapper_object_stance_votes: Vec<SnapperObjectStanceVote>,
}

/// A block that passed verification. Clones share its contents.
pub struct VerifiedBlock {
    block: Arc<Block>,
}

/// The contents of [`VerifiedBlock`].
pub struct BlockView {
    pub reference: BlockRef,
    pub ancestors: Seq<BlockRef>,
    pub transactions: Seq<TransactionView>,
    pub transaction_votes: Seq<TransactionVotesView>,
    pub stance_votes: Seq<SnapperObjectStanceVote>,
}

impl View for Block {
    type V = BlockView;

    open spec fn view(&self) -> BlockView {
        BlockView {
            reference: self.reference,
            ancestors: self.ancestors@,
            transactions: Seq::new(self.transactions@.len(), |i: int| self.transactions@[i]@),
            transaction_votes: Seq::new(
                self.transaction_votes@.len(),
                |i: int| self.transaction_votes@[i]@,
            ),
            stance_votes: self.snapper_object_stance_votes@,
        }
    }
}

impl View for VerifiedBlock {
    type V = BlockView;

    closed spec fn view(&self) -> BlockView {
        self.block@
    }
}

impl BlockView {
    /// Whether the block may stand in the graph of a committee with the given
    /// stakes: its author and those of its ancestors are in the committee, and
    /// its ancestors are of earlier rounds.
    pub open spec fn valid_in(self, stakes: Seq<u64>) -> bool {
        &&& self.reference.author.0 < stakes.len()
        &&& forall|i: int|
            0 <= i < self.ancestors.len() ==> {
                &&& (#[trigger] self.ancestors[i]).round < self.reference.round
                &&& self.ancestors[i].author.0 < stakes.len()
            }
    }
}

impl Block {
    /// Whether the block may stand in the graph of a committee.
    fn is_valid_in(&self, committee: &Committee) -> (r: bool)
        ensures
            r == self@.valid_in(committee@),
    {
        let size = committee.size();
        if self.reference.author.0 as usize >= size {
            return false;
        }
        let mut i: usize = 0;
        while i < self.ancestors.len()
            invariant
                i <= self.ancestors@.len(),
                size == committee@.len(),
                forall|j: int|
                    0 <= j < i ==> {
                        &&& (#[trigger] self.ancestors@[j]).round < self.reference.round
                        &&& self.ancestors@[j].author.0 < committee@.len()
                    },
            decreases self.ancestors@.len() - i,
        {
            if self.ancestors[i].round >= self.reference.round
                || self.ancestors[i].author.0 as usize >= size {
                assert(!self@.valid_in(committee@)) by {
                    assert(self@.ancestors[i as int] == self.ancestors@[i as int]);
                }
                return false;
            }
            i += 1;
        }
        true
    }
}

impl Clone for VerifiedBlock {
    fn clone(&self) -> (r: Self)
        ensures
            r == *self,
    {
        VerifiedBlock { block: self.block.clone() }
    }
}

impl VerifiedBlock {
    /// The block, where it may stand in the graph of the committee.
    pub fn new(block: Block, committee: &Committee) -> (r: Option<Self>)
        ensures
            r is Some <==> block@.valid_in(committee@),
            r matches Some(b) ==> b@ == block@,
    {
        if block.is_valid_in(committee) {
            Some(VerifiedBlock { block: Arc::new(block) })
        } else {
            None
        }
    }

    /// Whether the block may stand in the graph of the committee.
    pub fn is_valid_in(&self, committee: &Committee) -> (r: bool)
        ensures
            r == self@.valid_in(committee@),
    {
        self.block.is_valid_in(committee)
    }

    pub fn reference(&self) -> (r: BlockRef)
        ensures
            r == self@.reference,
    {
        self.block.reference
    }

    pub fn round(&self) -> (r: Round)
        ensures
            r == self@.reference.round,
    {
        self.block.reference.round
    }

    pub fn author(&self) -> (r: AuthorityIndex)
        ensures
            r == self@.reference.author,
    {
        self.block.reference.author
    }

    pub fn ancestors(&self) -> (r: &Vec<BlockRef>)
        ensures
            r@ == self@.ancestors,
    {
        &self.block.ancestors
    }

    pub fn transactions(&self) -> (r: &Vec<Transaction>)
        ensures
            r@.len() == self@.transactions.len(),
            forall|i: int| 0 <= i < r@.len() ==> (#[trigger] r@[i])@ == self@.transactions[i],
    {
        &self.block.transactions
    }

    pub fn transaction_votes(&self) -> (r: &Vec<BlockTransactionVotes>)
        ensures
            r@.len() == self@.transaction_votes.len(),
            forall|i: int| 0 <= i < r@.len() ==> (#[trigger] r@[i])@ == self@.transaction_votes[i],
    {
        &self.block.transaction_votes
    }

    pub fn snapper_object_stance_votes(&self) -> (r: &Vec<SnapperObjectStanceVote>)
        ensures
            r@ == self@.stance_votes,
    {
        &self.block.snapper_object_stance_votes
    }
}

/// A block is valid in a committee exactly where its author and those of its
/// ancestors are members, and every ancestor is of an earlier round.
pub proof fn valid_block_is_of_the_committee(b: BlockView, stakes: Seq<u64>)
    ensures
        b.valid_in(stakes) <==> {
            &&& b.reference.author.0 < stakes.len()
            &&& forall|a: BlockRef| #[trigger]
                b.ancestors.contains(a) ==> a.round < b.reference.round && a.author.0 < stakes.len()
        },
{
    if b.valid_in(stakes) {
        assert forall|a: BlockRef| #[trigger] b.ancestors.contains(a) implies a.round
            < b.reference.round && a.author.0 < stakes.len() by {
            let i = choose|i: int| 0 <= i < b.ancestors.len() && b.ancestors[i] == a;
            assert(b.ancestors[i].round < b.reference.round);
        }
    }
    if forall|a: BlockRef| #[trigger]
        b.ancestors.contains(a) ==> a.round < b.reference.round && a.author.0 < stakes.len() {
        assert forall|i: int| 0 <= i < b.ancestors.len() implies {
            &&& (#[trigger] b.ancestors[i]).round < b.reference.round
            &&& b.ancestors[i].author.0 < stakes.len()
        } by {
            assert(b.ancestors.contains(b.ancestors[i]));
        }
    }
}

/// What is read of an envelope is its kind, its owned inputs and the identifier
/// of its bytes.
pub proof fn metadata_tells_envelope(
    mixed: bool,
    owned_inputs: Seq<SnapperObjectKey>,
    payload: Seq<u8>,
)
    requires
        envelope::encodable(owned_inputs, payload),
    ensures
        ({
            let data = envelope::envelope_bytes(mixed, owned_inputs, payload);
            metadata_of(data) == Some(
                MetadataView {
                    id: SnapperTransactionId(envelope::blake2b256(data)),
                    mixed,
                    owned_inputs,
                },
            )
        }),
{
    envelope::envelope_tells_kind_and_inputs(mixed, owned_inputs, payload);
}

} // verus!
