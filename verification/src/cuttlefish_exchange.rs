//! Unlock requests and votes between a client and the validators.
use fastcrypto::ed25519::{Ed25519KeyPair, Ed25519PublicKey, Ed25519Signature};
use fastcrypto::traits::{KeyPair, Signer, ToFromBytes, VerifyingKey};
use vstd::prelude::*;

use crate::block::VerifiedBlock;
use crate::bytes;
use crate::bytes::{has_bytes_at, push_bytes, push_u32, read_u32};
use crate::cuttlefish;
use crate::cuttlefish::{
    CuttlefishError, CuttlefishFastUnlockState, CuttlefishUnlockCertificate,
    CuttlefishUnlockRequest, CuttlefishUnlockVote, FastUnlockModel,
};
use crate::cuttlefish_wire;
use crate::cuttlefish_wire::{
    decode_unlock_request, decode_unlock_vote, encode_unlock_vote, REQUEST_LENGTH,
};

verus! {

/// Length of an Ed25519 signature.
pub const SIGNATURE_LENGTH: usize = 64;

/// The signature of a message under a private key.
pub uninterp spec fn ed25519_signature(private_key: Seq<u8>, message: Seq<u8>) -> Seq<u8>;

/// The public key of a private key.
pub uninterp spec fn ed25519_public_key(private_key: Seq<u8>) -> Seq<u8>;

/// The signature of a message is valid under a public key.
pub uninterp spec fn ed25519_verifies(
    public_key: Seq<u8>,
    message: Seq<u8>,
    signature: Seq<u8>,
) -> bool;

/// `Ed25519KeyPair::sign` on the pair with the given private key, of which any
/// thirty-two bytes are one. The signature depends on the key and the message
/// alone, has sixty-four bytes, and is valid under the public key of the pair.
#[verifier::external_body]
fn ed25519_sign(private_key: &[u8; 32], message: &[u8]) -> (r: Vec<u8>)
    ensures
        r@ == ed25519_signature(private_key@, message@),
        r@.len() == 64,
        ed25519_verifies(ed25519_public_key(private_key@), message@, r@),
{
    let pair = Ed25519KeyPair::from_bytes(private_key).expect("a private key has this length");
    let signature: Ed25519Signature = pair.sign(message);
    signature.as_ref().to_vec()
}

/// `Ed25519KeyPair::public` on the pair with the given private key, as bytes.
#[verifier::external_body]
fn ed25519_public(private_key: &[u8; 32]) -> (r: [u8; 32])
    ensures
        r@ == ed25519_public_key(private_key@),
{
    let pair = Ed25519KeyPair::from_bytes(private_key).expect("a private key has this length");
    pair.public().0.to_bytes()
}

/// `Ed25519PublicKey::verify`: whether the bytes are a public key and a
/// signature, and the signature of the message is valid under the key. The
/// answer depends on the arguments alone.
#[verifier::external_body]
fn ed25519_verify(public_key: &[u8; 32], message: &[u8], signature: &[u8]) -> (r: bool)
    ensures
        r == ed25519_verifies(public_key@, message@, signature@),
{
    match (Ed25519PublicKey::from_bytes(public_key), Ed25519Signature::from_bytes(signature)) {
        (Ok(key), Ok(signature)) => key.verify(message, &signature).is_ok(),
        _ => false,
    }
}

/// A message with its signature behind it.
pub open spec fn signed(message: Seq<u8>, private_key: Seq<u8>) -> Seq<u8> {
    message + ed25519_signature(private_key, message)
}

/// What stands before the signature.
pub open spec fn message_of(response: Seq<u8>) -> Seq<u8> {
    response.take(response.len() - 64)
}

/// The signature at the end.
pub open spec fn signature_of(response: Seq<u8>) -> Seq<u8> {
    response.skip(response.len() - 64)
}

/// Why a response to an unlock request is refused.
#[derive(Clone, Copy, Debug, PartialEq, Eq, Structural)]
pub enum UnlockResponseError {
    TooShort,
    InvalidSignature,
    MalformedVote,
}

/// What a response is read as, once its signature is verified.
pub open spec fn response_read(
    response: Seq<u8>,
    verified: bool,
    r: Result<CuttlefishUnlockVote, UnlockResponseError>,
) -> bool {
    match r {
        Ok(vote) => response.len() > 64 && verified && message_of(response) == cuttlefish_wire::vote_bytes(vote),
        Err(UnlockResponseError::TooShort) => response.len() <= 64,
        Err(UnlockResponseError::InvalidSignature) => response.len() > 64 && !verified,
        Err(UnlockResponseError::MalformedVote) => {
            &&& response.len() > 64
            &&& verified
            &&& forall|vote: CuttlefishUnlockVote|
                message_of(response) != #[trigger] cuttlefish_wire::vote_bytes(vote)
        },
    }
}

/// The public key under which the signatures of a private key are valid.
pub fn unlock_public_key(private_key: &[u8; 32]) -> (r: [u8; 32])
    ensures
        r@ == ed25519_public_key(private_key@),
{
    ed25519_public(private_key)
}

/// The bytes of a vote with their signature behind them.
pub fn sign_unlock_vote(vote: &CuttlefishUnlockVote, private_key: &[u8; 32]) -> (response: Vec<u8>)
    ensures
        response@ == signed(cuttlefish_wire::vote_bytes(*vote), private_key@),
        response@.len() > 64,
        message_of(response@) == cuttlefish_wire::vote_bytes(*vote),
        ed25519_verifies(
            ed25519_public_key(private_key@),
            message_of(response@),
            signature_of(response@),
        ),
{
    let mut response = encode_unlock_vote(vote);
    let ghost message = response@;
    let signature = ed25519_sign(private_key, response.as_slice());
    push_bytes(&mut response, signature.as_slice());
    proof {
        cuttlefish_wire::lemma_vote_parts(message, *vote);
        assert(message_of(response@) =~= message);
        assert(signature_of(response@) =~= signature@);
    }
    response
}

/// Reads a response, given whether its signature is valid.
pub fn read_unlock_response(response: &[u8], verified: bool) -> (r: Result<
    CuttlefishUnlockVote,
    UnlockResponseError,
>)
    ensures
        response_read(response@, verified, r),
{
    let total: usize = response.len();
    if total <= SIGNATURE_LENGTH {
        return Err(UnlockResponseError::TooShort);
    }
    if !verified {
        return Err(UnlockResponseError::InvalidSignature);
    }
    let message = vstd::slice::slice_subrange(response, 0, total - SIGNATURE_LENGTH);
    assert(message@ =~= message_of(response@));
    match decode_unlock_vote(message) {
        Some(vote) => Ok(vote),
        None => Err(UnlockResponseError::MalformedVote),
    }
}

/// Verifies the signature of a response and reads the vote.
pub fn open_unlock_response(response: &[u8], public_key: &[u8; 32]) -> (r: Result<
    CuttlefishUnlockVote,
    UnlockResponseError,
>)
    ensures
        response_read(
            response@,
            ed25519_verifies(public_key@, message_of(response@), signature_of(response@)),
            r,
        ),
{
    let total: usize = response.len();
    if total <= SIGNATURE_LENGTH {
        return Err(UnlockResponseError::TooShort);
    }
    let split: usize = total - SIGNATURE_LENGTH;
    let message = vstd::slice::slice_subrange(response, 0, split);
    let signature = vstd::slice::slice_subrange(response, split, total);
    assert(message@ =~= message_of(response@));
    assert(signature@ =~= signature_of(response@));
    let verified = ed25519_verify(public_key, message, signature);
    read_unlock_response(response, verified)
}

/// A signed vote is read back as the vote under the public key of its signer.
pub proof fn signed_vote_is_read_back(
    vote: CuttlefishUnlockVote,
    response: Seq<u8>,
    r: Result<CuttlefishUnlockVote, UnlockResponseError>,
)
    requires
        response.len() > 64,
        message_of(response) == cuttlefish_wire::vote_bytes(vote),
        response_read(response, true, r),
    ensures
        r == Ok::<CuttlefishUnlockVote, UnlockResponseError>(vote),
{
    match r {
        Ok(other) => {
            cuttlefish_wire::vote_encoding_is_injective(vote, other);
        },
        Err(_) => {
            assert(message_of(response) == cuttlefish_wire::vote_bytes(vote));
        },
    }
}

/// The answer of a validator to the bytes of a request.
pub open spec fn answer_to(
    before: FastUnlockModel,
    request: CuttlefishUnlockRequest,
    authority: u32,
    private_key: Seq<u8>,
) -> Seq<u8> {
    signed(
        cuttlefish_wire::vote_bytes(
            CuttlefishUnlockVote {
                request,
                certificate: before.lock_certificate(request.object),
                authority,
            },
        ),
        private_key,
    )
}

/// Answers the bytes of an authenticated request with a signed vote, and takes
/// the object version off the fast path. Bytes that are no request change
/// nothing.
pub fn answer_unlock_request(
    state: &mut CuttlefishFastUnlockState,
    payload: &[u8],
    authority: u32,
    private_key: &[u8; 32],
) -> (r: Option<Vec<u8>>)
    ensures
        r is Some <==> payload@.len() == REQUEST_LENGTH,
        r is None ==> final(state)@ == old(state)@,
        forall|request: CuttlefishUnlockRequest|
            payload@ == #[trigger] cuttlefish_wire::request_bytes(request) ==> {
                &&& final(state)@ == old(state)@.with_request(request, true)
                &&& r is Some
                &&& r->0@ == answer_to(old(state)@, request, authority, private_key@)
            },
{
    match decode_unlock_request(payload) {
        None => None,
        Some(request) => {
            proof {
                cuttlefish_wire::lemma_request_bytes_len(request);
            }
            match state.process_unlock_request(request, authority, true) {
                Some(vote) => Some(sign_unlock_vote(&vote, private_key)),
                None => {
                    assert(false);
                    None
                },
            }
        },
    }
}

/// A frame: the length of the payload and the payload.
pub open spec fn frame_bytes(payload: Seq<u8>) -> Seq<u8> {
    bytes::le_bytes(payload.len(), 4) + payload
}

/// Puts the length of a payload before it.
pub fn encode_frame(payload: &[u8]) -> (out: Vec<u8>)
    requires
        payload@.len() <= u32::MAX,
    ensures
        out@ == frame_bytes(payload@),
{
    let mut out: Vec<u8> = Vec::new();
    let length: usize = payload.len();
    push_u32(&mut out, length as u32);
    push_bytes(&mut out, payload);
    assert(out@ =~= frame_bytes(payload@));
    out
}

/// The length of the payload behind a header of four bytes.
pub fn frame_length(header: &[u8]) -> (r: u32)
    requires
        header@.len() == 4,
    ensures
        r as nat == bytes::le_value(header@),
{
    let r: u32 = read_u32(header, 0);
    assert(header@.subrange(0, 4) =~= header@);
    r
}

/// The header of a frame tells the length of the payload, which is the rest of
/// the frame.
pub proof fn frame_header_tells_length(payload: Seq<u8>)
    requires
        payload.len() <= u32::MAX,
    ensures
        frame_bytes(payload).len() == 4 + payload.len(),
        bytes::le_value(frame_bytes(payload).take(4)) == payload.len(),
        frame_bytes(payload).skip(4) == payload,
{
    bytes::lemma_byte_ranges();
    bytes::lemma_le_bytes_len(payload.len(), 4);
    bytes::lemma_le_value_of_bytes(payload.len(), 4);
    assert(frame_bytes(payload).take(4) =~= bytes::le_bytes(payload.len(), 4));
    assert(frame_bytes(payload).skip(4) =~= payload);
}

/// Some transaction of the committed blocks has the given bytes.
pub open spec fn commits_payload(blocks: Seq<VerifiedBlock>, payload: Seq<u8>) -> bool {
    exists|i: int, j: int|
        0 <= i < blocks.len() && 0 <= j < blocks[i]@.transactions.len()
            && (#[trigger] blocks[i]@.transactions[j]).data == payload
}

/// Whether some transaction of the committed blocks has the given bytes.
pub fn commit_contains_payload(blocks: &[VerifiedBlock], payload: &[u8]) -> (r: bool)
    ensures
        r == commits_payload(blocks@, payload@),
{
    let mut i: usize = 0;
    while i < blocks.len()
        invariant
            i <= blocks@.len(),
            forall|a: int, j: int|
                0 <= a < i && 0 <= j < blocks@[a]@.transactions.len() ==> (
                #[trigger] blocks@[a]@.transactions[j]).data != payload@,
        decreases blocks@.len() - i,
    {
        let transactions = blocks[i].transactions();
        let mut k: usize = 0;
        while k < transactions.len()
            invariant
                i < blocks@.len(),
                k <= transactions@.len(),
                transactions@.len() == blocks@[i as int]@.transactions.len(),
                forall|j: int|
                    0 <= j < transactions@.len() ==> (#[trigger] transactions@[j])@
                        == blocks@[i as int]@.transactions[j],
                forall|j: int|
                    0 <= j < k ==> (#[trigger] blocks@[i as int]@.transactions[j]).data != payload@,
            decreases transactions@.len() - k,
        {
            let data = transactions[k].data();
            assert(data@ == blocks@[i as int]@.transactions[k as int].data);
            if data.len() == payload.len() && has_bytes_at(data, 0, payload) {
                assert(data@.subrange(0, data@.len() as int) =~= data@);
                return true;
            }
            assert(data@.subrange(0, data@.len() as int) =~= data@);
            k += 1;
        }
        i += 1;
    }
    false
}

/// The states of some validators.
pub open spec fn models(states: Seq<CuttlefishFastUnlockState>) -> Seq<FastUnlockModel> {
    states.map_values(|s: CuttlefishFastUnlockState| s@)
}

/// The votes of the first `n` validators on a request.
pub open spec fn votes_of(
    states: Seq<FastUnlockModel>,
    request: CuttlefishUnlockRequest,
    n: nat,
) -> Seq<CuttlefishUnlockVote> {
    Seq::new(
        n,
        |i: int|
            CuttlefishUnlockVote {
                request,
                certificate: states[i].lock_certificate(request.object),
                authority: i as u32,
            },
    )
}

/// Asks the first validators, as many as the quorum takes, to unlock, and
/// assembles their votes.
pub fn build_unlock_certificate(
    states: &mut Vec<CuttlefishFastUnlockState>,
    request: CuttlefishUnlockRequest,
    quorum: usize,
) -> (r: Result<CuttlefishUnlockCertificate, CuttlefishError>)
    requires
        old(states)@.len() <= u32::MAX,
    ensures
        ({
            let n = if quorum <= old(states)@.len() {
                quorum as nat
            } else {
                old(states)@.len()
            };
            &&& final(states)@.len() == old(states)@.len()
            &&& forall|i: int|
                0 <= i < final(states)@.len() ==> (#[trigger] final(states)@[i])@ == (if i < n {
                    old(states)@[i]@.with_request(request, true)
                } else {
                    old(states)@[i]@
                })
            &&& cuttlefish::assembled(
                votes_of(models(old(states)@), request, n),
                quorum as nat,
                r,
            )
        }),
{
    let count: usize = states.len();
    let n: usize = if quorum <= count {
        quorum
    } else {
        count
    };
    let ghost start = states@;
    let mut votes: Vec<CuttlefishUnlockVote> = Vec::new();
    let mut i: usize = 0;
    while i < n
        invariant
            i <= n <= count,
            count == start.len(),
            count <= u32::MAX,
            states@.len() == start.len(),
            forall|j: int| i <= j < start.len() ==> #[trigger] states@[j] == start[j],
            forall|j: int|
                0 <= j < i ==> (#[trigger] states@[j])@ == start[j]@.with_request(request, true),
            votes@ == votes_of(models(start), request, i as nat),
        decreases n - i,
    {
        assert(states@[i as int] == start[i as int]);
        match states[i].process_unlock_request(request, i as u32, true) {
            Some(vote) => {
                votes.push(vote);
            },
            None => {
                assert(false);
            },
        }
        i += 1;
        assert(votes@ =~= votes_of(models(start), request, i as nat));
    }
    CuttlefishFastUnlockState::assemble_unlock_certificate(votes, quorum)
}

/// A signed message is the message and, in the last sixty-four bytes, its
/// signature.
pub proof fn signed_message_splits(message: Seq<u8>, private_key: Seq<u8>)
    requires
        ed25519_signature(private_key, message).len() == 64,
    ensures
        signed(message, private_key).len() == message.len() + 64,
        message_of(signed(message, private_key)) == message,
        signature_of(signed(message, private_key)) == ed25519_signature(private_key, message),
{
    let s = signed(message, private_key);
    assert(message_of(s) =~= message);
    assert(signature_of(s) =~= ed25519_signature(private_key, message));
}

/// A response is accepted only where it is longer than a signature and the
/// signature is valid, and then as the vote that stands before the signature.
pub proof fn accepted_response_is_a_signed_vote(
    response: Seq<u8>,
    verified: bool,
    r: Result<CuttlefishUnlockVote, UnlockResponseError>,
    vote: CuttlefishUnlockVote,
)
    requires
        response_read(response, verified, r),
    ensures
        r == Ok::<CuttlefishUnlockVote, UnlockResponseError>(vote) <==> verified && response.len()
            > 64 && response.take(response.len() - 64) == cuttlefish_wire::vote_bytes(vote),
        r == Err::<CuttlefishUnlockVote, UnlockResponseError>(UnlockResponseError::TooShort)
            <==> response.len() <= 64,
        r == Err::<CuttlefishUnlockVote, UnlockResponseError>(UnlockResponseError::InvalidSignature)
            <==> response.len() > 64 && !verified,
{
    if verified && response.len() > 64 && response.take(response.len() - 64)
        == cuttlefish_wire::vote_bytes(vote) {
        signed_vote_is_read_back(vote, response, r);
    }
}

/// The votes of some validators are one each, by their places, with the
/// transaction certificates of their locks.
pub proof fn votes_are_one_per_validator(
    states: Seq<FastUnlockModel>,
    request: CuttlefishUnlockRequest,
    n: nat,
    i: int,
)
    requires
        0 <= i < n <= states.len(),
        n <= u32::MAX,
    ensures
        ({
            let votes = votes_of(states, request, n);
            &&& votes.len() == n
            &&& votes[i].authority == i
            &&& votes[i].request == request
            &&& votes[i].certificate == states[i].lock_certificate(request.object)
        }),
{
}

/// Committed blocks contain a payload exactly where one of them carries a
/// transaction with these bytes.
pub proof fn committed_payload_is_carried(
    blocks: Seq<VerifiedBlock>,
    payload: Seq<u8>,
    i: int,
    j: int,
)
    ensures
        0 <= i < blocks.len() && 0 <= j < blocks[i]@.transactions.len()
            && blocks[i]@.transactions[j].data == payload ==> commits_payload(blocks, payload),
        commits_payload(blocks, payload) ==> exists|a: int, b: int|
            0 <= a < blocks.len() && 0 <= b < blocks[a]@.transactions.len()
                && (#[trigger] blocks[a]@.transactions[b]).data == payload,
{
}

/// The answer to a request is, before the signature, the vote of the authority
/// with the transaction certificate of its lock.
pub proof fn answer_is_a_signed_vote(
    before: FastUnlockModel,
    request: CuttlefishUnlockRequest,
    authority: u32,
    private_key: Seq<u8>,
    vote: CuttlefishUnlockVote,
)
    requires
        vote.request == request,
        vote.authority == authority,
        vote.certificate == before.lock_certificate(request.object),
        ed25519_signature(private_key, cuttlefish_wire::vote_bytes(vote)).len() == 64,
    ensures
        ({
            let s = answer_to(before, request, authority, private_key);
            &&& s.len() == cuttlefish_wire::vote_bytes(vote).len() + 64
            &&& s.take(s.len() - 64) == cuttlefish_wire::vote_bytes(vote)
            &&& s.skip(s.len() - 64) == ed25519_signature(
                private_key,
                cuttlefish_wire::vote_bytes(vote),
            )
        }),
{
    signed_message_splits(cuttlefish_wire::vote_bytes(vote), private_key);
}

/// The states of validators are read one by one.
pub proof fn models_are_read_one_by_one(states: Seq<CuttlefishFastUnlockState>, i: int)
    requires
        0 <= i < states.len(),
    ensures
        models(states).len() == states.len(),
        models(states)[i] == states[i]@,
{
}

} // verus!
