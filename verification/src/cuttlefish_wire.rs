//! Bytes in which unlock requests, votes and certificates travel.
use std::collections::BTreeSet;
use vstd::prelude::*;

use crate::bytes;
use crate::bytes::{
    has_bytes_at, push_array, push_bytes, push_u32, push_u64, read_array, read_u32, read_u64,
};
use crate::cuttlefish::{
    CuttlefishCertificateId, CuttlefishObjectKey, CuttlefishUnlockCertificate,
    CuttlefishUnlockRequest, CuttlefishUnlockVote,
};
use crate::order;
use crate::seqs;
use crate::sorted_set::SortedSet;

verus! {

broadcast use vstd::std_specs::btree::group_btree_axioms;

/// The bytes that an unlock certificate starts with: `CUTFULK` and a zero.
pub const CUTTLEFISH_UNLOCK_CERT_MAGIC: [u8; 8] = [67, 85, 84, 70, 85, 76, 75, 0];

/// Length of an encoded request.
pub const REQUEST_LENGTH: usize = 72;

/// The object, its version and the authorizing transaction.
pub open spec fn request_bytes(request: CuttlefishUnlockRequest) -> Seq<u8> {
    request.object.object_id@ + bytes::le_bytes(request.object.version as nat, 8)
        + request.auth_transaction@
}

/// A zero, or a one and the certificate.
pub open spec fn certificate_bytes(certificate: Option<CuttlefishCertificateId>) -> Seq<u8> {
    match certificate {
        Some(c) => seq![1u8] + c.0@,
        None => seq![0u8],
    }
}

/// The request, the transaction certificate and the authority.
pub open spec fn vote_bytes(vote: CuttlefishUnlockVote) -> Seq<u8> {
    request_bytes(vote.request) + certificate_bytes(vote.certificate) + bytes::le_bytes(
        vote.authority as nat,
        4,
    )
}

/// The numbers one after the other.
pub open spec fn list_bytes(numbers: Seq<u32>) -> Seq<u8>
    decreases numbers.len(),
{
    if numbers.len() == 0 {
        Seq::empty()
    } else {
        list_bytes(numbers.drop_last()) + bytes::le_bytes(numbers.last() as nat, 4)
    }
}

/// The marker, the request, the transaction certificate, the number of voters
/// and the voters.
pub open spec fn unlock_certificate_bytes(
    request: CuttlefishUnlockRequest,
    certificate: Option<CuttlefishCertificateId>,
    voters: Seq<u32>,
) -> Seq<u8> {
    CUTTLEFISH_UNLOCK_CERT_MAGIC@ + request_bytes(request) + certificate_bytes(certificate)
        + bytes::le_bytes(voters.len(), 4) + list_bytes(voters)
}

/// The data is an unlock certificate whose voters are listed, each once, in the
/// given order.
pub open spec fn is_unlock_certificate(
    data: Seq<u8>,
    request: CuttlefishUnlockRequest,
    certificate: Option<CuttlefishCertificateId>,
    voters: Seq<u32>,
) -> bool {
    &&& voters.no_duplicates()
    &&& voters.len() <= u32::MAX
    &&& data == unlock_certificate_bytes(request, certificate, voters)
}

/// The data is the unlock certificate, with its voters listed in some order.
pub open spec fn encodes(data: Seq<u8>, c: CuttlefishUnlockCertificate) -> bool {
    exists|voters: Seq<u32>| #[trigger]
        is_unlock_certificate(data, c.request, c.certificate, voters) && c.voters@
            == voters.to_set()
}

/// The part stands in the data at an offset.
pub open spec fn stands_at(data: Seq<u8>, at: int, part: Seq<u8>) -> bool {
    0 <= at && at + part.len() <= data.len() && data.subrange(at, at + part.len()) == part
}

pub proof fn lemma_request_bytes_len(request: CuttlefishUnlockRequest)
    ensures
        request_bytes(request).len() == 72,
{
    bytes::lemma_le_bytes_len(request.object.version as nat, 8);
}

/// A request has one encoding, and no other request has it.
pub proof fn request_encoding_is_injective(a: CuttlefishUnlockRequest, b: CuttlefishUnlockRequest)
    requires
        request_bytes(a) == request_bytes(b),
    ensures
        a == b,
{
    let data = request_bytes(a);
    lemma_request_bytes_len(a);
    lemma_request_at(data, 0, a);
    lemma_request_at(data, 0, b);
    assert(data.subrange(0, 72) =~= data);
    bytes::lemma_byte_ranges();
    bytes::lemma_le_value_of_bytes(a.object.version as nat, 8);
    bytes::lemma_le_value_of_bytes(b.object.version as nat, 8);
    assert(a.object.object_id@ =~= b.object.object_id@);
    assert(a.auth_transaction@ =~= b.auth_transaction@);
    assert(a.object.object_id == b.object.object_id);
    assert(a.auth_transaction == b.auth_transaction);
    assert(a.object.version as nat == b.object.version as nat);
    assert(a.object == b.object);
}

/// The parts of a request that stands in some data.
proof fn lemma_request_at(data: Seq<u8>, at: int, request: CuttlefishUnlockRequest)
    requires
        0 <= at,
        at + 72 <= data.len(),
    ensures
        stands_at(data, at, request_bytes(request)) <==> {
            &&& data.subrange(at, at + 32) == request.object.object_id@
            &&& data.subrange(at + 32, at + 40) == bytes::le_bytes(
                request.object.version as nat,
                8,
            )
            &&& data.subrange(at + 40, at + 72) == request.auth_transaction@
        },
{
    lemma_request_bytes_len(request);
    bytes::lemma_le_bytes_len(request.object.version as nat, 8);
    let whole = data.subrange(at, at + 72);
    let id = request.object.object_id@;
    let version = bytes::le_bytes(request.object.version as nat, 8);
    let auth = request.auth_transaction@;
    let r = request_bytes(request);
    assert(data.subrange(at, at + 32) =~= whole.subrange(0, 32));
    assert(data.subrange(at + 32, at + 40) =~= whole.subrange(32, 40));
    assert(data.subrange(at + 40, at + 72) =~= whole.subrange(40, 72));
    assert(r.subrange(0, 32) =~= id);
    assert(r.subrange(32, 40) =~= version);
    assert(r.subrange(40, 72) =~= auth);
    assert(whole =~= whole.subrange(0, 32) + whole.subrange(32, 40) + whole.subrange(40, 72));
}

/// At one place stands at most one certificate.
proof fn lemma_one_certificate_at(
    data: Seq<u8>,
    at: int,
    a: Option<CuttlefishCertificateId>,
    b: Option<CuttlefishCertificateId>,
)
    requires
        stands_at(data, at, certificate_bytes(a)),
        stands_at(data, at, certificate_bytes(b)),
    ensures
        a == b,
{
    let pa = certificate_bytes(a);
    let pb = certificate_bytes(b);
    assert(data[at] == data.subrange(at, at + pa.len())[0]);
    assert(data[at] == data.subrange(at, at + pb.len())[0]);
    if a is Some && b is Some {
        let ca = a->0;
        let cb = b->0;
        assert(pa == pb);
        assert(pa.subrange(1, 33) =~= ca.0@);
        assert(pb.subrange(1, 33) =~= cb.0@);
        assert(ca.0 == cb.0);
    }
}

/// What is put together of two parts holds the first at its start and the
/// second behind it.
proof fn lemma_stands_in_sum(data: Seq<u8>, at: int, first: Seq<u8>, second: Seq<u8>)
    requires
        0 <= at,
    ensures
        stands_at(data, at, first + second) <==> stands_at(data, at, first) && stands_at(
            data,
            at + first.len(),
            second,
        ),
{
    let both = first + second;
    assert(both.len() == first.len() + second.len());
    if at + both.len() <= data.len() {
        let whole = data.subrange(at, at + both.len());
        let a = data.subrange(at, at + first.len());
        let b = data.subrange(at + first.len(), at + both.len());
        assert(whole =~= a + b);
        assert(both.subrange(0, first.len() as int) =~= first);
        assert(both.subrange(first.len() as int, both.len() as int) =~= second);
        assert(whole.subrange(0, first.len() as int) =~= a);
        assert(whole.subrange(first.len() as int, both.len() as int) =~= b);
    }
}

/// The whole data stands at its start.
proof fn lemma_whole_stands(data: Seq<u8>, part: Seq<u8>)
    ensures
        data == part <==> stands_at(data, 0, part) && data.len() == part.len(),
{
    assert(data.subrange(0, data.len() as int) =~= data);
}

/// The bytes of a request, in the order object, version, authorization.
pub fn encode_unlock_request(request: &CuttlefishUnlockRequest) -> (out: Vec<u8>)
    ensures
        out@ == request_bytes(*request),
        out@.len() == REQUEST_LENGTH,
{
    let mut out: Vec<u8> = Vec::new();
    push_request(&mut out, request);
    assert(out@ =~= request_bytes(*request));
    proof {
        lemma_request_bytes_len(*request);
    }
    out
}

fn push_request(out: &mut Vec<u8>, request: &CuttlefishUnlockRequest)
    ensures
        final(out)@ == old(out)@ + request_bytes(*request),
{
    push_array(out, &request.object.object_id);
    push_u64(out, request.object.version);
    push_array(out, &request.auth_transaction);
    assert(out@ =~= old(out)@ + request_bytes(*request));
}

fn push_certificate(out: &mut Vec<u8>, certificate: &Option<CuttlefishCertificateId>)
    ensures
        final(out)@ == old(out)@ + certificate_bytes(*certificate),
{
    match certificate {
        Some(c) => {
            out.push(1);
            push_array(out, &c.0);
        },
        None => {
            out.push(0);
        },
    }
    assert(out@ =~= old(out)@ + certificate_bytes(*certificate));
}

/// The request at an offset.
fn read_request(data: &[u8], at: usize) -> (r: CuttlefishUnlockRequest)
    requires
        at + 72 <= data@.len(),
    ensures
        stands_at(data@, at as int, request_bytes(r)),
{
    let total: usize = data.len();
    assert(at + 72 <= total);
    let object_id = read_array(data, at);
    let version: u64 = read_u64(data, at + 32);
    let auth_transaction = read_array(data, at + 40);
    let r = CuttlefishUnlockRequest {
        object: CuttlefishObjectKey { object_id, version },
        auth_transaction,
    };
    proof {
        lemma_request_at(data@, at as int, r);
    }
    r
}

/// The transaction certificate at an offset, with the offset behind it.
fn read_certificate(data: &[u8], at: usize) -> (r: Option<
    (Option<CuttlefishCertificateId>, usize),
>)
    ensures
        match r {
            Some((c, end)) => {
                &&& stands_at(data@, at as int, certificate_bytes(c))
                &&& end == at + certificate_bytes(c).len()
            },
            None => forall|c: Option<CuttlefishCertificateId>|
                !stands_at(data@, at as int, #[trigger] certificate_bytes(c)),
        },
{
    let total: usize = data.len();
    if at >= total {
        assert forall|c: Option<CuttlefishCertificateId>|
            !stands_at(data@, at as int, #[trigger] certificate_bytes(c)) by {
            assert(certificate_bytes(c).len() >= 1);
        }
        return None;
    }
    let tag: u8 = data[at];
    if tag == 0 {
        assert(data@.subrange(at as int, at + 1) =~= seq![0u8]);
        return Some((None, at + 1));
    }
    if tag == 1 && total - at >= 33 {
        let c = CuttlefishCertificateId(read_array(data, at + 1));
        proof {
            assert(certificate_bytes(Some(c)).len() == 33);
            assert(data@.subrange(at as int, at + 33) =~= certificate_bytes(Some(c)));
        }
        return Some((Some(c), at + 33));
    }
    proof {
        assert forall|c: Option<CuttlefishCertificateId>|
            !stands_at(data@, at as int, #[trigger] certificate_bytes(c)) by {
            let part = certificate_bytes(c);
            if stands_at(data@, at as int, part) {
                assert(data@.subrange(at as int, at + part.len())[0] == data@[at as int]);
                assert(part[0] == (if c is Some {
                    1u8
                } else {
                    0u8
                }));
            }
        }
    }
    None
}

/// The request that the data encodes: any data of the right length is one.
pub fn decode_unlock_request(data: &[u8]) -> (r: Option<CuttlefishUnlockRequest>)
    ensures
        match r {
            Some(request) => data@ == request_bytes(request),
            None => data@.len() != REQUEST_LENGTH,
        },
        forall|request: CuttlefishUnlockRequest|
            data@ == #[trigger] request_bytes(request) ==> r == Some(request),
{
    proof {
        assert forall|request: CuttlefishUnlockRequest|
            data@ == #[trigger] request_bytes(request) implies data@.len() == 72 by {
            lemma_request_bytes_len(request);
        }
    }
    if data.len() != REQUEST_LENGTH {
        return None;
    }
    let request = read_request(data, 0);
    proof {
        lemma_request_bytes_len(request);
        lemma_whole_stands(data@, request_bytes(request));
        assert forall|other: CuttlefishUnlockRequest|
            data@ == #[trigger] request_bytes(other) implies other == request by {
            request_encoding_is_injective(other, request);
        }
    }
    Some(request)
}

/// The bytes of a vote.
pub fn encode_unlock_vote(vote: &CuttlefishUnlockVote) -> (out: Vec<u8>)
    ensures
        out@ == vote_bytes(*vote),
{
    let mut out = encode_unlock_request(&vote.request);
    push_certificate(&mut out, &vote.certificate);
    push_u32(&mut out, vote.authority);
    out
}

/// The parts of an encoded vote.
pub proof fn lemma_vote_parts(data: Seq<u8>, vote: CuttlefishUnlockVote)
    ensures
        data == vote_bytes(vote) <==> {
            &&& stands_at(data, 0, request_bytes(vote.request))
            &&& stands_at(data, 72, certificate_bytes(vote.certificate))
            &&& stands_at(
                data,
                72int + certificate_bytes(vote.certificate).len(),
                bytes::le_bytes(vote.authority as nat, 4),
            )
            &&& data.len() == 72 + certificate_bytes(vote.certificate).len() + 4
        },
{
    let q = request_bytes(vote.request);
    let c = certificate_bytes(vote.certificate);
    let a = bytes::le_bytes(vote.authority as nat, 4);
    lemma_request_bytes_len(vote.request);
    bytes::lemma_le_bytes_len(vote.authority as nat, 4);
    lemma_whole_stands(data, q + c + a);
    lemma_stands_in_sum(data, 0, q + c, a);
    lemma_stands_in_sum(data, 0, q, c);
}

/// A vote has one encoding, and no other vote has it.
pub proof fn vote_encoding_is_injective(a: CuttlefishUnlockVote, b: CuttlefishUnlockVote)
    requires
        vote_bytes(a) == vote_bytes(b),
    ensures
        a == b,
{
    let data = vote_bytes(a);
    lemma_vote_parts(data, a);
    lemma_vote_parts(data, b);
    lemma_request_bytes_len(a.request);
    lemma_request_bytes_len(b.request);
    request_encoding_is_injective(a.request, b.request);
    lemma_one_certificate_at(data, 72, a.certificate, b.certificate);
    bytes::lemma_byte_ranges();
    bytes::lemma_le_bytes_len(a.authority as nat, 4);
    bytes::lemma_le_bytes_len(b.authority as nat, 4);
    bytes::lemma_le_value_of_bytes(a.authority as nat, 4);
    bytes::lemma_le_value_of_bytes(b.authority as nat, 4);
}

/// The vote that the data encodes.
pub fn decode_unlock_vote(data: &[u8]) -> (r: Option<CuttlefishUnlockVote>)
    ensures
        match r {
            Some(vote) => data@ == vote_bytes(vote),
            None => forall|vote: CuttlefishUnlockVote| data@ != #[trigger] vote_bytes(vote),
        },
{
    let total: usize = data.len();
    if total < REQUEST_LENGTH {
        proof {
            assert forall|vote: CuttlefishUnlockVote| data@ != #[trigger] vote_bytes(vote) by {
                lemma_vote_parts(data@, vote);
            }
        }
        return None;
    }
    let request = read_request(data, 0);
    match read_certificate(data, REQUEST_LENGTH) {
        Some((certificate, end)) => {
            if total - end != 4 {
                proof {
                    assert forall|vote: CuttlefishUnlockVote| data@ != #[trigger] vote_bytes(
                        vote,
                    ) by {
                        lemma_vote_parts(data@, vote);
                        if data@ == vote_bytes(vote) {
                            lemma_one_certificate_at(data@, 72, certificate, vote.certificate);
                        }
                    }
                }
                return None;
            }
            let authority: u32 = read_u32(data, end);
            let vote = CuttlefishUnlockVote { request, certificate, authority };
            proof {
                bytes::lemma_le_bytes_len(authority as nat, 4);
                lemma_vote_parts(data@, vote);
            }
            Some(vote)
        },
        None => {
            proof {
                assert forall|vote: CuttlefishUnlockVote| data@ != #[trigger] vote_bytes(vote) by {
                    lemma_vote_parts(data@, vote);
                }
            }
            None
        },
    }
}

/// The voters in ascending order.
fn voters_in_order(voters: &BTreeSet<u32>) -> (r: Vec<u32>)
    ensures
        r@ == order::sorted(voters@),
        r@.to_set() == voters@,
        r@.no_duplicates(),
        r@.len() == voters@.len(),
{
    let mut sorted: SortedSet<u32> = SortedSet::new();
    for v in it: voters.iter()
        invariant
            it.seq().unref().to_set() == voters@,
            forall|x: u32| #[trigger] sorted@.contains(x) ==> voters@.contains(x),
            forall|i: int|
                0 <= i < it.index() ==> sorted@.contains(#[trigger] it.seq().unref()[i]),
    {
        assert(it.seq().unref()[it.index()] == *v);
        assert(it.seq().unref().to_set().contains(*v));
        sorted.insert(*v);
    }
    assert(sorted@ =~= voters@);
    let r = sorted.to_vec();
    proof {
        r@.unique_seq_to_set();
    }
    r
}

proof fn lemma_list_bytes_len(numbers: Seq<u32>)
    ensures
        list_bytes(numbers).len() == 4 * numbers.len(),
    decreases numbers.len(),
{
    if numbers.len() > 0 {
        lemma_list_bytes_len(numbers.drop_last());
        bytes::lemma_le_bytes_len(numbers.last() as nat, 4);
    }
}

/// The numbers of a list that stands in some data.
proof fn lemma_list_at(data: Seq<u8>, at: int, numbers: Seq<u32>)
    requires
        0 <= at,
        at + 4 * numbers.len() <= data.len(),
    ensures
        stands_at(data, at, list_bytes(numbers)) <==> forall|i: int|
            0 <= i < numbers.len() ==> data.subrange(at + 4 * i, at + 4 * i + 4)
                == bytes::le_bytes(#[trigger] numbers[i] as nat, 4),
    decreases numbers.len(),
{
    if numbers.len() == 0 {
        assert(data.subrange(at, at) =~= Seq::<u8>::empty());
    } else {
        let rest = numbers.drop_last();
        let n = numbers.len() - 1;
        let last = bytes::le_bytes(numbers.last() as nat, 4);
        lemma_list_at(data, at, rest);
        lemma_list_bytes_len(rest);
        bytes::lemma_le_bytes_len(numbers.last() as nat, 4);
        lemma_stands_in_sum(data, at, list_bytes(rest), last);
        if stands_at(data, at, list_bytes(numbers)) {
            assert forall|i: int| 0 <= i < numbers.len() implies data.subrange(
                at + 4 * i,
                at + 4 * i + 4,
            ) == bytes::le_bytes(#[trigger] numbers[i] as nat, 4) by {
                if i < n {
                    assert(rest[i] == numbers[i]);
                }
            }
        }
        if forall|i: int|
            0 <= i < numbers.len() ==> data.subrange(at + 4 * i, at + 4 * i + 4)
                == bytes::le_bytes(#[trigger] numbers[i] as nat, 4) {
            assert forall|i: int| 0 <= i < rest.len() implies data.subrange(
                at + 4 * i,
                at + 4 * i + 4,
            ) == bytes::le_bytes(#[trigger] rest[i] as nat, 4) by {
                assert(rest[i] == numbers[i]);
            }
            assert(numbers[n] == numbers.last());
        }
    }
}

/// At one place stands at most one list of a given length.
proof fn lemma_one_list_at(data: Seq<u8>, at: int, a: Seq<u32>, b: Seq<u32>)
    requires
        stands_at(data, at, list_bytes(a)),
        stands_at(data, at, list_bytes(b)),
        a.len() == b.len(),
    ensures
        a == b,
{
    lemma_list_bytes_len(a);
    lemma_list_bytes_len(b);
    lemma_list_at(data, at, a);
    lemma_list_at(data, at, b);
    bytes::lemma_byte_ranges();
    assert forall|i: int| 0 <= i < a.len() implies a[i] == b[i] by {
        bytes::lemma_le_value_of_bytes(a[i] as nat, 4);
        bytes::lemma_le_value_of_bytes(b[i] as nat, 4);
        assert(data.subrange(at + 4 * i, at + 4 * i + 4) == bytes::le_bytes(a[i] as nat, 4));
        assert(data.subrange(at + 4 * i, at + 4 * i + 4) == bytes::le_bytes(b[i] as nat, 4));
    }
    assert(a =~= b);
}

/// The parts of an encoded unlock certificate.
proof fn lemma_unlock_certificate_parts(
    data: Seq<u8>,
    request: CuttlefishUnlockRequest,
    certificate: Option<CuttlefishCertificateId>,
    voters: Seq<u32>,
)
    ensures
        ({
            let end = 80int + certificate_bytes(certificate).len();
            data == unlock_certificate_bytes(request, certificate, voters) <==> {
                &&& stands_at(data, 0, CUTTLEFISH_UNLOCK_CERT_MAGIC@)
                &&& stands_at(data, 8, request_bytes(request))
                &&& stands_at(data, 80, certificate_bytes(certificate))
                &&& stands_at(data, end, bytes::le_bytes(voters.len(), 4))
                &&& stands_at(data, end + 4, list_bytes(voters))
                &&& data.len() == end + 4 + 4 * voters.len()
            }
        }),
{
    let m = CUTTLEFISH_UNLOCK_CERT_MAGIC@;
    let q = request_bytes(request);
    let c = certificate_bytes(certificate);
    let n = bytes::le_bytes(voters.len(), 4);
    let l = list_bytes(voters);
    lemma_request_bytes_len(request);
    bytes::lemma_le_bytes_len(voters.len(), 4);
    lemma_list_bytes_len(voters);
    lemma_whole_stands(data, m + q + c + n + l);
    lemma_stands_in_sum(data, 0, m + q + c + n, l);
    lemma_stands_in_sum(data, 0, m + q + c, n);
    lemma_stands_in_sum(data, 0, m + q, c);
    lemma_stands_in_sum(data, 0, m, q);
}

/// Data is at most one unlock certificate: what is decoded is what was encoded.
pub proof fn unlock_certificate_encoding_is_injective(
    data: Seq<u8>,
    request_a: CuttlefishUnlockRequest,
    certificate_a: Option<CuttlefishCertificateId>,
    voters_a: Seq<u32>,
    request_b: CuttlefishUnlockRequest,
    certificate_b: Option<CuttlefishCertificateId>,
    voters_b: Seq<u32>,
)
    requires
        is_unlock_certificate(data, request_a, certificate_a, voters_a),
        is_unlock_certificate(data, request_b, certificate_b, voters_b),
    ensures
        request_a == request_b,
        certificate_a == certificate_b,
        voters_a == voters_b,
{
    lemma_unlock_certificate_parts(data, request_a, certificate_a, voters_a);
    lemma_unlock_certificate_parts(data, request_b, certificate_b, voters_b);
    lemma_request_bytes_len(request_a);
    lemma_request_bytes_len(request_b);
    request_encoding_is_injective(request_a, request_b);
    lemma_one_certificate_at(data, 80, certificate_a, certificate_b);
    let end = 80int + certificate_bytes(certificate_a).len();
    lemma_one_list_at(data, end + 4, voters_a, voters_b);
}

/// What is decoded from an encoded certificate is the certificate.
pub proof fn unlock_certificate_round_trips(
    data: Seq<u8>,
    encoded: CuttlefishUnlockCertificate,
    decoded: CuttlefishUnlockCertificate,
)
    requires
        encodes(data, encoded),
        encodes(data, decoded),
    ensures
        decoded.request == encoded.request,
        decoded.certificate == encoded.certificate,
        decoded.voters@ == encoded.voters@,
{
    let a = choose|voters: Seq<u32>| #[trigger]
        is_unlock_certificate(data, encoded.request, encoded.certificate, voters)
            && encoded.voters@ == voters.to_set();
    let b = choose|voters: Seq<u32>| #[trigger]
        is_unlock_certificate(data, decoded.request, decoded.certificate, voters)
            && decoded.voters@ == voters.to_set();
    unlock_certificate_encoding_is_injective(
        data,
        encoded.request,
        encoded.certificate,
        a,
        decoded.request,
        decoded.certificate,
        b,
    );
}

/// Encoding a decoded certificate again gives the same bytes exactly where its
/// voters ascend.
pub proof fn reencoding_keeps_ascending_voters(
    data: Seq<u8>,
    request: CuttlefishUnlockRequest,
    certificate: Option<CuttlefishCertificateId>,
    voters: Seq<u32>,
)
    requires
        is_unlock_certificate(data, request, certificate, voters),
    ensures
        unlock_certificate_bytes(request, certificate, order::sorted(voters.to_set())) == data
            <==> order::ascending(voters),
{
    let s = voters.to_set();
    vstd::seq_lib::seq_to_set_is_finite(voters);
    order::lemma_sorted_lists(s);
    let listed = order::sorted(s);
    if order::ascending(voters) {
        order::lemma_sorted_is(voters);
    }
    if unlock_certificate_bytes(request, certificate, listed) == data {
        order::lemma_ascending_distinct(listed);
        listed.unique_seq_to_set();
        voters.unique_seq_to_set();
        unlock_certificate_encoding_is_injective(
            data,
            request,
            certificate,
            voters,
            request,
            certificate,
            listed,
        );
    }
}

/// No unlock certificate is the start of another: with bytes behind it, the
/// data is none.
pub proof fn unlock_certificate_has_no_trailing_bytes(
    data: Seq<u8>,
    more: Seq<u8>,
    request: CuttlefishUnlockRequest,
    certificate: Option<CuttlefishCertificateId>,
    voters: Seq<u32>,
    request_b: CuttlefishUnlockRequest,
    certificate_b: Option<CuttlefishCertificateId>,
    voters_b: Seq<u32>,
)
    requires
        is_unlock_certificate(data, request, certificate, voters),
        more.len() > 0,
    ensures
        !is_unlock_certificate(data + more, request_b, certificate_b, voters_b),
{
    let longer = data + more;
    if is_unlock_certificate(longer, request_b, certificate_b, voters_b) {
        lemma_unlock_certificate_parts(data, request, certificate, voters);
        lemma_unlock_certificate_parts(longer, request_b, certificate_b, voters_b);
        let c = certificate_bytes(certificate);
        let end = 80int + c.len();
        assert(longer.subrange(80, end) =~= data.subrange(80, end));
        lemma_one_certificate_at(longer, 80, certificate, certificate_b);
        bytes::lemma_le_bytes_len(voters.len(), 4);
        bytes::lemma_le_bytes_len(voters_b.len(), 4);
        assert(longer.subrange(end, end + 4) =~= data.subrange(end, end + 4));
        bytes::lemma_byte_ranges();
        bytes::lemma_le_value_of_bytes(voters.len(), 4);
        bytes::lemma_le_value_of_bytes(voters_b.len(), 4);
    }
}

impl CuttlefishUnlockCertificate {
    /// Deterministic bytes submitted as one transaction to the consensus
    /// black box.
    pub fn encode_consensus_transaction(&self) -> (out: Vec<u8>)
        requires
            self.voters@.len() <= u32::MAX,
        ensures
            out@ == unlock_certificate_bytes(
                self.request,
                self.certificate,
                order::sorted(self.voters@),
            ),
            encodes(out@, *self),
    {
        let mut out: Vec<u8> = Vec::new();
        push_bytes(&mut out, &CUTTLEFISH_UNLOCK_CERT_MAGIC);
        assert(out@ =~= CUTTLEFISH_UNLOCK_CERT_MAGIC@);
        push_request(&mut out, &self.request);
        push_certificate(&mut out, &self.certificate);
        let voters = voters_in_order(&self.voters);
        let count: usize = voters.len();
        push_u32(&mut out, count as u32);
        let ghost head = out@;
        let mut i: usize = 0;
        proof {
            seqs::lemma_take_ends(voters@);
            assert(out@ =~= head + list_bytes(voters@.take(0)));
        }
        while i < voters.len()
            invariant
                i <= voters@.len(),
                out@ == head + list_bytes(voters@.take(i as int)),
            decreases voters@.len() - i,
        {
            proof {
                seqs::lemma_take_next(voters@, i as int);
            }
            push_u32(&mut out, voters[i]);
            i += 1;
            assert(out@ =~= head + list_bytes(voters@.take(i as int)));
        }
        proof {
            seqs::lemma_take_ends(voters@);
            assert(is_unlock_certificate(out@, self.request, self.certificate, voters@));
        }
        out
    }

    /// The certificate that the data encodes, with the voters in any order, each
    /// once.
    pub fn decode_consensus_transaction(data: &[u8]) -> (r: Option<Self>)
        ensures
            match r {
                Some(c) => encodes(data@, c),
                None => forall|
                    request: CuttlefishUnlockRequest,
                    certificate: Option<CuttlefishCertificateId>,
                    voters: Seq<u32>,
                | !#[trigger] is_unlock_certificate(data@, request, certificate, voters),
            },
    {
        let total: usize = data.len();
        proof {
            assert forall|
                request: CuttlefishUnlockRequest,
                certificate: Option<CuttlefishCertificateId>,
                voters: Seq<u32>,
            | #[trigger] is_unlock_certificate(data@, request, certificate, voters) implies {
                let end = 80int + certificate_bytes(certificate).len();
                &&& stands_at(data@, 0, CUTTLEFISH_UNLOCK_CERT_MAGIC@)
                &&& stands_at(data@, 80, certificate_bytes(certificate))
                &&& stands_at(data@, end, bytes::le_bytes(voters.len(), 4))
                &&& stands_at(data@, end + 4, list_bytes(voters))
                &&& data@.len() == end + 4 + 4 * voters.len()
                &&& bytes::le_bytes(voters.len(), 4).len() == 4
                &&& bytes::le_value(bytes::le_bytes(voters.len(), 4)) == voters.len()
            } by {
                lemma_unlock_certificate_parts(data@, request, certificate, voters);
                bytes::lemma_le_bytes_len(voters.len(), 4);
                bytes::lemma_byte_ranges();
                bytes::lemma_le_value_of_bytes(voters.len(), 4);
            }
        }
        if total < 80 || !has_bytes_at(data, 0, &CUTTLEFISH_UNLOCK_CERT_MAGIC) {
            return None;
        }
        let request = read_request(data, 8);
        let (certificate, end) = match read_certificate(data, 80) {
            Some((certificate, end)) => (certificate, end),
            None => {
                return None;
            },
        };
        proof {
            assert forall|
                q: CuttlefishUnlockRequest,
                c: Option<CuttlefishCertificateId>,
                l: Seq<u32>,
            | #[trigger] is_unlock_certificate(data@, q, c, l) implies c == certificate by {
                lemma_one_certificate_at(data@, 80, certificate, c);
            }
        }
        if total - end < 4 {
            return None;
        }
        let count: u32 = read_u32(data, end);
        let listed: u64 = (total - end - 4) as u64;
        if listed != count as u64 * 4 {
            return None;
        }
        let mut voters: BTreeSet<u32> = BTreeSet::new();
        let mut read: Vec<u32> = Vec::new();
        let start: usize = end + 4;
        let mut at: usize = start;
        let mut i: u32 = 0;
        while i < count
            invariant
                i <= count,
                start == end + 4,
                total == data@.len(),
                total == start + 4 * count,
                at == start + 4 * i,
                read@.len() == i,
                read@.no_duplicates(),
                voters@ == read@.to_set(),
                forall|j: int|
                    0 <= j < i ==> data@.subrange(start + 4 * j, start + 4 * j + 4)
                        == bytes::le_bytes(#[trigger] read@[j] as nat, 4),
                forall|
                    q: CuttlefishUnlockRequest,
                    c: Option<CuttlefishCertificateId>,
                    l: Seq<u32>,
                | #[trigger]
                    is_unlock_certificate(data@, q, c, l) ==> l.len() == count && stands_at(
                        data@,
                        start as int,
                        list_bytes(l),
                    ),
            decreases count - i,
        {
            let authority: u32 = read_u32(data, at);
            let ghost before = read@;
            let fresh = voters.insert(authority);
            read.push(authority);
            assert(read@ =~= before.push(authority));
            assert forall|j: int| 0 <= j < i + 1 implies data@.subrange(
                start + 4 * j,
                start + 4 * j + 4,
            ) == bytes::le_bytes(#[trigger] read@[j] as nat, 4) by {
                if j < i {
                    assert(read@[j] == before[j]);
                }
            }
            if !fresh {
                proof {
                    assert(before.to_set().contains(authority));
                    let k = choose|k: int| 0 <= k < before.len() && before[k] == authority;
                    assert forall|
                        q: CuttlefishUnlockRequest,
                        c: Option<CuttlefishCertificateId>,
                        l: Seq<u32>,
                    | !#[trigger] is_unlock_certificate(data@, q, c, l) by {
                        if is_unlock_certificate(data@, q, c, l) {
                            lemma_list_bytes_len(l);
                            let head = l.take(i + 1);
                            lemma_list_at(data@, start as int, l);
                            assert forall|j: int| 0 <= j < i + 1 implies data@.subrange(
                                start + 4 * j,
                                start + 4 * j + 4,
                            ) == bytes::le_bytes(#[trigger] head[j] as nat, 4) by {
                                assert(head[j] == l[j]);
                            }
                            lemma_list_bytes_len(head);
                            lemma_list_bytes_len(read@);
                            lemma_list_at(data@, start as int, head);
                            lemma_list_at(data@, start as int, read@);
                            lemma_one_list_at(data@, start as int, head, read@);
                            assert(l[k] == head[k] && l[i as int] == head[i as int]);
                            assert(read@[k] == before[k]);
                        }
                    }
                }
                return None;
            }
            proof {
                assert(read@.no_duplicates()) by {
                    assert forall|a: int, b: int|
                        0 <= a < read@.len() && 0 <= b < read@.len() && a != b implies read@[a]
                        != read@[b] by {
                        if a == i {
                            assert(before.contains(before[b]));
                            assert(before.to_set().contains(before[b]));
                        } else if b == i {
                            assert(before.contains(before[a]));
                            assert(before.to_set().contains(before[a]));
                        } else {
                            assert(before[a] != before[b]);
                        }
                    }
                }
                assert(voters@ =~= read@.to_set()) by {
                    seqs::lemma_take_next(read@, i as int);
                    seqs::lemma_take_ends(read@);
                    assert(read@.take(i as int) =~= before);
                }
            }
            i += 1;
            at += 4;
        }
        proof {
            lemma_list_at(data@, start as int, read@);
            lemma_list_bytes_len(read@);
            bytes::lemma_le_bytes_len(count as nat, 4);
            lemma_unlock_certificate_parts(data@, request, certificate, read@);
        }
        let r = CuttlefishUnlockCertificate { request, certificate, voters };
        assert(is_unlock_certificate(data@, r.request, r.certificate, read@));
        assert(encodes(data@, r));
        Some(r)
    }
}

/// A request is seventy-two bytes: the object, eight of the version, and the
/// authorizing transaction.
pub proof fn request_is_laid_out(request: CuttlefishUnlockRequest)
    ensures
        ({
            let s = request_bytes(request);
            &&& s.len() == 72
            &&& s.subrange(0, 32) == request.object.object_id@
            &&& bytes::le_value(s.subrange(32, 40)) == request.object.version
            &&& s.subrange(40, 72) == request.auth_transaction@
        }),
{
    let s = request_bytes(request);
    lemma_request_bytes_len(request);
    lemma_request_at(s, 0, request);
    assert(s.subrange(0, 72) =~= s);
    bytes::lemma_byte_ranges();
    bytes::lemma_le_value_of_bytes(request.object.version as nat, 8);
}

/// A vote is the request, a byte that tells whether a certificate follows, the
/// certificate, and four bytes of the authority.
pub proof fn vote_is_laid_out(vote: CuttlefishUnlockVote)
    ensures
        ({
            let s = vote_bytes(vote);
            &&& s.len() == (if vote.certificate is Some {
                109int
            } else {
                77int
            })
            &&& s.subrange(0, 72) == request_bytes(vote.request)
            &&& s[72] == (if vote.certificate is Some {
                1u8
            } else {
                0u8
            })
            &&& vote.certificate is Some ==> s.subrange(73, 105) == (vote.certificate->Some_0).0@
            &&& bytes::le_value(s.subrange(s.len() - 4, s.len() as int)) == vote.authority
        }),
{
    let s = vote_bytes(vote);
    let c = certificate_bytes(vote.certificate);
    lemma_vote_parts(s, vote);
    lemma_request_bytes_len(vote.request);
    bytes::lemma_byte_ranges();
    bytes::lemma_le_bytes_len(vote.authority as nat, 4);
    bytes::lemma_le_value_of_bytes(vote.authority as nat, 4);
    assert(s[72] == s.subrange(72, 72int + c.len())[0]);
    if vote.certificate is Some {
        assert(c.subrange(1, 33) =~= (vote.certificate->Some_0).0@);
        assert(s.subrange(73, 105) =~= s.subrange(72, 105).subrange(1, 33));
    }
}

/// An unlock certificate is the letters `CUTFULK` and a zero, the request, a
/// byte that tells whether a transaction certificate follows, that certificate,
/// four bytes of the number of voters, and four bytes of each voter.
pub proof fn unlock_certificate_is_laid_out(
    request: CuttlefishUnlockRequest,
    certificate: Option<CuttlefishCertificateId>,
    voters: Seq<u32>,
    i: int,
)
    requires
        voters.len() <= u32::MAX,
    ensures
        ({
            let s = unlock_certificate_bytes(request, certificate, voters);
            let end = if certificate is Some {
                113int
            } else {
                81int
            };
            &&& s.len() == end + 4 + 4 * voters.len()
            &&& s.subrange(0, 8) == seq![67u8, 85u8, 84u8, 70u8, 85u8, 76u8, 75u8, 0u8]
            &&& s.subrange(8, 80) == request_bytes(request)
            &&& s[80] == (if certificate is Some {
                1u8
            } else {
                0u8
            })
            &&& certificate is Some ==> s.subrange(81, 113) == (certificate->Some_0).0@
            &&& bytes::le_value(s.subrange(end, end + 4)) == voters.len()
            &&& 0 <= i < voters.len() ==> bytes::le_value(
                s.subrange(end + 4 + 4 * i, end + 8 + 4 * i),
            ) == voters[i]
        }),
{
    let s = unlock_certificate_bytes(request, certificate, voters);
    let c = certificate_bytes(certificate);
    let end = 80 + c.len() as int;
    lemma_unlock_certificate_parts(s, request, certificate, voters);
    lemma_request_bytes_len(request);
    bytes::lemma_byte_ranges();
    bytes::lemma_le_bytes_len(voters.len(), 4);
    bytes::lemma_le_value_of_bytes(voters.len(), 4);
    assert(s.subrange(0, 8) =~= seq![67u8, 85u8, 84u8, 70u8, 85u8, 76u8, 75u8, 0u8]) by {
        assert(CUTTLEFISH_UNLOCK_CERT_MAGIC@ =~= seq![
            67u8,
            85u8,
            84u8,
            70u8,
            85u8,
            76u8,
            75u8,
            0u8,
        ]);
    }
    assert(s[80] == s.subrange(80, end)[0]);
    if certificate is Some {
        assert(c.subrange(1, 33) =~= (certificate->Some_0).0@);
        assert(s.subrange(81, 113) =~= s.subrange(80, 113).subrange(1, 33));
    }
    if 0 <= i < voters.len() {
        lemma_list_bytes_len(voters);
        lemma_list_at(s, end + 4, voters);
        bytes::lemma_le_value_of_bytes(voters[i] as nat, 4);
        assert(s.subrange(end + 4 + 4 * i, end + 4 + 4 * i + 4) == bytes::le_bytes(
            voters[i] as nat,
            4,
        ));
    }
}

} // verus!
