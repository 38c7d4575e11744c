//! Transactions that carry Snapper metadata, and how they are named.
use fastcrypto::hash::{Blake2b256, HashFunction};
use vstd::prelude::*;

use crate::bytes;
use crate::keys::{SnapperObjectKey, SnapperTransactionId};

verus! {

/// Marker that tells transactions with Snapper metadata from ordinary opaque
/// ones: `SNAP3F1` and a zero byte.
pub const SNAPPER_TRANSACTION_MAGIC: [u8; 8] = [
    0x53u8,
    0x4Eu8,
    0x41u8,
    0x50u8,
    0x33u8,
    0x46u8,
    0x31u8,
    0u8,
];

/// Marker of mixed transactions, which are ordered by consensus as well as
/// certified: `SNAP3F1M`.
pub const SNAPPER_MIXED_TRANSACTION_MAGIC: [u8; 8] = [
    0x53u8,
    0x4Eu8,
    0x41u8,
    0x50u8,
    0x33u8,
    0x46u8,
    0x31u8,
    0x4Du8,
];

/// The greatest length of a sequence that BCS encodes.
pub const MAX_SEQUENCE_LENGTH: usize = 0x7fff_ffff;

/// A number in base 128, least significant digit first, with the high bit set
/// in every byte but the last.
pub open spec fn uleb128(n: nat) -> Seq<u8>
    decreases n,
{
    if n < 128 {
        seq![n as u8]
    } else {
        seq![(128 + n % 128) as u8] + uleb128(n / 128)
    }
}

/// The BCS bytes of a sequence of object identifiers with versions, without
/// its length.
pub open spec fn bcs_items(items: Seq<([u8; 32], u64)>) -> Seq<u8>
    decreases items.len(),
{
    if items.len() == 0 {
        Seq::empty()
    } else {
        items[0].0@ + bytes::le_bytes(items[0].1 as nat, 8) + bcs_items(items.drop_first())
    }
}

/// The BCS bytes of a marker, a sequence of object identifiers with versions,
/// and a byte string: the fields in order, each sequence after its length.
pub open spec fn bcs_fields(
    magic: Seq<u8>,
    items: Seq<([u8; 32], u64)>,
    payload: Seq<u8>,
) -> Seq<u8> {
    magic + uleb128(items.len()) + bcs_items(items) + uleb128(payload.len()) + payload
}

/// The sequences are short enough for BCS.
pub open spec fn bcs_encodable(items: Seq<([u8; 32], u64)>, payload: Seq<u8>) -> bool {
    items.len() <= MAX_SEQUENCE_LENGTH && payload.len() <= MAX_SEQUENCE_LENGTH
}

/// The error of the BCS codec.
#[verifier::external_type_specification]
#[verifier::external_body]
pub struct ExBcsError(bcs::Error);

/// `bcs::to_bytes` on a tuple. BCS writes the components one after the other:
/// a byte array as its bytes, a sequence as its ULEB128 length and its items,
/// a `u64` as eight little-endian bytes. It fails exactly on a sequence that
/// is longer than the codec's limit.
#[verifier::external_body]
fn bcs_to_bytes(fields: &([u8; 8], Vec<([u8; 32], u64)>, Vec<u8>)) -> (r: Result<
    Vec<u8>,
    bcs::Error,
>)
    ensures
        r is Ok <==> bcs_encodable(fields.1@, fields.2@),
        r matches Ok(out) ==> out@ == bcs_fields(fields.0@, fields.1@, fields.2@),
{
    bcs::to_bytes(fields)
}

/// `bcs::from_bytes` into the same tuple. The codec accepts only canonical
/// lengths, no sequence beyond its limit and no bytes after the value, so it
/// succeeds exactly on the bytes that `bcs::to_bytes` writes, and gives the
/// value that they were written for.
#[verifier::external_body]
fn bcs_from_bytes(data: &[u8]) -> (r: Result<([u8; 8], Vec<([u8; 32], u64)>, Vec<u8>), bcs::Error>)
    ensures
        match r {
            Ok(fields) => bcs_encodable(fields.1@, fields.2@) && data@ == bcs_fields(
                fields.0@,
                fields.1@,
                fields.2@,
            ),
            Err(_) => forall|magic: [u8; 8], items: Seq<([u8; 32], u64)>, payload: Seq<u8>|
                bcs_encodable(items, payload) ==> data@ != #[trigger] bcs_fields(
                    magic@,
                    items,
                    payload,
                ),
        },
{
    bcs::from_bytes(data)
}

/// The BLAKE2b digest, of thirty-two bytes, of a byte string.
pub uninterp spec fn blake2b256(data: Seq<u8>) -> [u8; 32];

/// `fastcrypto::hash::Blake2b256`: a fresh hasher, fed with the data, and its
/// digest. The digest depends on nothing but the data.
#[verifier::external_body]
fn blake2b256_digest(data: &[u8]) -> (r: [u8; 32])
    ensures
        r == blake2b256(data@),
{
    let mut hasher = Blake2b256::new();
    hasher.update(data);
    hasher.finalize().into()
}

/// The identifier of the transaction with the given bytes.
pub open spec fn transaction_id_of(data: Seq<u8>) -> SnapperTransactionId {
    SnapperTransactionId(blake2b256(data))
}

impl SnapperTransactionId {
    /// The identifier of the transaction with the given bytes.
    pub fn from_transaction_bytes(data: &[u8]) -> (r: Self)
        ensures
            r == transaction_id_of(data@),
    {
        SnapperTransactionId(blake2b256_digest(data))
    }
}

/// Transaction envelope used by the Snapper evaluation.
///
/// Normal transactions remain opaque to consensus. Evaluation transactions
/// carry only the owned-object metadata needed by the Snapper unlocking layer.
/// On the wire a marker stands before the fields, which tells whether the
/// transaction is mixed. A mixed transaction is barred from the fast route: it is
/// finalized from a committed anchor only.
#[derive(Clone, Debug, PartialEq, Eq)]
pub struct SnapperTransactionEnvelope {
    pub mixed: bool,
    pub owned_inputs: Vec<SnapperObjectKey>,
    pub payload: Vec<u8>,
}

/// Object versions as pairs of identifier and version.
pub open spec fn as_items(keys: Seq<SnapperObjectKey>) -> Seq<([u8; 32], u64)> {
    Seq::new(keys.len(), |i: int| (keys[i].object_id, keys[i].version))
}

/// Pairs of identifier and version as object versions.
pub open spec fn as_keys(items: Seq<([u8; 32], u64)>) -> Seq<SnapperObjectKey> {
    Seq::new(
        items.len(),
        |i: int| SnapperObjectKey { object_id: items[i].0, version: items[i].1 },
    )
}

/// The marker of mixed transactions, or that of the others.
pub open spec fn marker(mixed: bool) -> [u8; 8] {
    if mixed {
        SNAPPER_MIXED_TRANSACTION_MAGIC
    } else {
        SNAPPER_TRANSACTION_MAGIC
    }
}

/// The bytes of an envelope.
pub open spec fn envelope_bytes(
    mixed: bool,
    owned_inputs: Seq<SnapperObjectKey>,
    payload: Seq<u8>,
) -> Seq<u8> {
    bcs_fields(marker(mixed)@, as_items(owned_inputs), payload)
}

/// The envelope is short enough to be encoded.
pub open spec fn encodable(owned_inputs: Seq<SnapperObjectKey>, payload: Seq<u8>) -> bool {
    owned_inputs.len() <= MAX_SEQUENCE_LENGTH && payload.len() <= MAX_SEQUENCE_LENGTH
}

/// `data` is the encoding of an envelope with these fields.
pub open spec fn is_envelope(
    data: Seq<u8>,
    mixed: bool,
    owned_inputs: Seq<SnapperObjectKey>,
    payload: Seq<u8>,
) -> bool {
    encodable(owned_inputs, payload) && data == envelope_bytes(mixed, owned_inputs, payload)
}

/// Whether the transaction with the given bytes is mixed, and its owned inputs;
/// nothing for an ordinary transaction.
pub open spec fn envelope_metadata(data: Seq<u8>) -> Option<(bool, Seq<SnapperObjectKey>)> {
    if exists|mixed: bool, owned_inputs: Seq<SnapperObjectKey>, payload: Seq<u8>|
        is_envelope(data, mixed, owned_inputs, payload) {
        let (mixed, owned_inputs, payload) = choose|
            mixed: bool,
            owned_inputs: Seq<SnapperObjectKey>,
            payload: Seq<u8>,
        |
            is_envelope(data, mixed, owned_inputs, payload);
        Some((mixed, owned_inputs))
    } else {
        None
    }
}

proof fn lemma_uleb128_prefix_free(a: nat, b: nat, x: Seq<u8>, y: Seq<u8>)
    requires
        uleb128(a) + x == uleb128(b) + y,
    ensures
        a == b,
        x == y,
    decreases a,
{
    let s = uleb128(a) + x;
    let t = uleb128(b) + y;
    assert(s[0] == uleb128(a)[0]);
    assert(t[0] == uleb128(b)[0]);
    if a < 128 {
        assert(b < 128);
        assert(s.drop_first() =~= x);
        assert(t.drop_first() =~= y);
    } else {
        assert(b >= 128);
        assert(a % 128 == b % 128);
        assert(s.drop_first() =~= uleb128(a / 128) + x);
        assert(t.drop_first() =~= uleb128(b / 128) + y);
        lemma_uleb128_prefix_free(a / 128, b / 128, x, y);
    }
}

proof fn lemma_bcs_items_injective(
    a: Seq<([u8; 32], u64)>,
    b: Seq<([u8; 32], u64)>,
    x: Seq<u8>,
    y: Seq<u8>,
)
    requires
        a.len() == b.len(),
        bcs_items(a) + x == bcs_items(b) + y,
    ensures
        a == b,
        x == y,
    decreases a.len(),
{
    let s = bcs_items(a) + x;
    let t = bcs_items(b) + y;
    if a.len() == 0 {
        assert(s =~= x);
        assert(t =~= y);
        assert(a =~= b);
    } else {
        let va = bytes::le_bytes(a[0].1 as nat, 8);
        let vb = bytes::le_bytes(b[0].1 as nat, 8);
        bytes::lemma_le_bytes_len(a[0].1 as nat, 8);
        bytes::lemma_le_bytes_len(b[0].1 as nat, 8);
        assert(s =~= a[0].0@ + va + (bcs_items(a.drop_first()) + x));
        assert(t =~= b[0].0@ + vb + (bcs_items(b.drop_first()) + y));
        assert(s.subrange(0, 32) =~= a[0].0@);
        assert(t.subrange(0, 32) =~= b[0].0@);
        assert(s.subrange(32, 40) =~= va);
        assert(t.subrange(32, 40) =~= vb);
        assert(s.skip(40) =~= bcs_items(a.drop_first()) + x);
        assert(t.skip(40) =~= bcs_items(b.drop_first()) + y);
        bytes::lemma_byte_ranges();
        bytes::lemma_le_value_of_bytes(a[0].1 as nat, 8);
        bytes::lemma_le_value_of_bytes(b[0].1 as nat, 8);
        assert(a[0].0 == b[0].0);
        lemma_bcs_items_injective(a.drop_first(), b.drop_first(), x, y);
        assert(a =~= seq![a[0]] + a.drop_first());
        assert(b =~= seq![b[0]] + b.drop_first());
    }
}

/// Different values have different bytes.
pub proof fn lemma_bcs_fields_injective(
    magic_a: Seq<u8>,
    items_a: Seq<([u8; 32], u64)>,
    payload_a: Seq<u8>,
    magic_b: Seq<u8>,
    items_b: Seq<([u8; 32], u64)>,
    payload_b: Seq<u8>,
)
    requires
        magic_a.len() == magic_b.len(),
        bcs_fields(magic_a, items_a, payload_a) == bcs_fields(magic_b, items_b, payload_b),
    ensures
        magic_a == magic_b,
        items_a == items_b,
        payload_a == payload_b,
{
    let n = magic_a.len() as int;
    let s = bcs_fields(magic_a, items_a, payload_a);
    let t = bcs_fields(magic_b, items_b, payload_b);
    let rest_a = bcs_items(items_a) + (uleb128(payload_a.len()) + payload_a);
    let rest_b = bcs_items(items_b) + (uleb128(payload_b.len()) + payload_b);
    assert(s =~= magic_a + (uleb128(items_a.len()) + rest_a));
    assert(t =~= magic_b + (uleb128(items_b.len()) + rest_b));
    assert(s.take(n) =~= magic_a);
    assert(t.take(n) =~= magic_b);
    assert(s.skip(n) =~= uleb128(items_a.len()) + rest_a);
    assert(t.skip(n) =~= uleb128(items_b.len()) + rest_b);
    lemma_uleb128_prefix_free(items_a.len(), items_b.len(), rest_a, rest_b);
    lemma_bcs_items_injective(
        items_a,
        items_b,
        uleb128(payload_a.len()) + payload_a,
        uleb128(payload_b.len()) + payload_b,
    );
    lemma_uleb128_prefix_free(payload_a.len(), payload_b.len(), payload_a, payload_b);
}

/// The two markers differ.
proof fn lemma_markers_differ(a: bool, b: bool)
    requires
        marker(a)@ == marker(b)@,
    ensures
        a == b,
{
    assert(marker(a)@[7] == (if a {
        0x4Du8
    } else {
        0u8
    }));
    assert(marker(b)@[7] == (if b {
        0x4Du8
    } else {
        0u8
    }));
}

/// A byte string encodes at most one envelope: decoding what was encoded gives
/// back the envelope.
pub proof fn envelope_encoding_is_injective(
    data: Seq<u8>,
    mixed_a: bool,
    inputs_a: Seq<SnapperObjectKey>,
    payload_a: Seq<u8>,
    mixed_b: bool,
    inputs_b: Seq<SnapperObjectKey>,
    payload_b: Seq<u8>,
)
    requires
        is_envelope(data, mixed_a, inputs_a, payload_a),
        is_envelope(data, mixed_b, inputs_b, payload_b),
    ensures
        mixed_a == mixed_b,
        inputs_a == inputs_b,
        payload_a == payload_b,
        envelope_metadata(data) == Some((mixed_a, inputs_a)),
{
    lemma_same_envelope(data, mixed_a, inputs_a, payload_a, mixed_b, inputs_b, payload_b);
    let (mixed_c, inputs_c, payload_c) = choose|
        mixed: bool,
        inputs: Seq<SnapperObjectKey>,
        payload: Seq<u8>,
    |
        is_envelope(data, mixed, inputs, payload);
    lemma_same_envelope(data, mixed_a, inputs_a, payload_a, mixed_c, inputs_c, payload_c);
}

proof fn lemma_same_envelope(
    data: Seq<u8>,
    mixed_a: bool,
    inputs_a: Seq<SnapperObjectKey>,
    payload_a: Seq<u8>,
    mixed_b: bool,
    inputs_b: Seq<SnapperObjectKey>,
    payload_b: Seq<u8>,
)
    requires
        is_envelope(data, mixed_a, inputs_a, payload_a),
        is_envelope(data, mixed_b, inputs_b, payload_b),
    ensures
        mixed_a == mixed_b,
        inputs_a == inputs_b,
        payload_a == payload_b,
{
    lemma_bcs_fields_injective(
        marker(mixed_a)@,
        as_items(inputs_a),
        payload_a,
        marker(mixed_b)@,
        as_items(inputs_b),
        payload_b,
    );
    lemma_markers_differ(mixed_a, mixed_b);
    assert(inputs_a.len() == as_items(inputs_a).len());
    assert(inputs_b.len() == as_items(inputs_b).len());
    assert forall|i: int| 0 <= i < inputs_a.len() implies inputs_a[i] == inputs_b[i] by {
        assert(as_items(inputs_a)[i] == as_items(inputs_b)[i]);
    }
    assert(inputs_a =~= inputs_b);
}

/// An envelope starts with the letters `SNAP3F1` and a zero, or an M where it is
/// mixed; and its bytes are read as its kind and its owned inputs.
pub proof fn envelope_tells_kind_and_inputs(
    mixed: bool,
    owned_inputs: Seq<SnapperObjectKey>,
    payload: Seq<u8>,
)
    requires
        encodable(owned_inputs, payload),
    ensures
        ({
            let s = envelope_bytes(mixed, owned_inputs, payload);
            &&& s.take(8) == seq![
                83u8,
                78u8,
                65u8,
                80u8,
                51u8,
                70u8,
                49u8,
                if mixed {
                    77u8
                } else {
                    0u8
                },
            ]
            &&& envelope_metadata(s) == Some((mixed, owned_inputs))
        }),
{
    let s = envelope_bytes(mixed, owned_inputs, payload);
    assert(is_envelope(s, mixed, owned_inputs, payload));
    envelope_encoding_is_injective(
        s,
        mixed,
        owned_inputs,
        payload,
        mixed,
        owned_inputs,
        payload,
    );
    assert(s.take(8) =~= marker(mixed)@);
    assert(marker(mixed)@ =~= seq![
        83u8,
        78u8,
        65u8,
        80u8,
        51u8,
        70u8,
        49u8,
        if mixed {
            77u8
        } else {
            0u8
        },
    ]);
}

/// Whether two markers are equal.
fn same_marker(a: &[u8; 8], b: &[u8; 8]) -> (r: bool)
    ensures
        r == (a@ == b@),
{
    let mut i: usize = 0;
    while i < 8
        invariant
            i <= 8,
            forall|j: int| 0 <= j < i ==> a@[j] == b@[j],
        decreases 8 - i,
    {
        if a[i] != b[i] {
            return false;
        }
        i += 1;
    }
    assert(a@ =~= b@);
    true
}

impl SnapperTransactionEnvelope {
    /// An envelope that may take the fast route.
    pub fn new(owned_inputs: Vec<SnapperObjectKey>, payload: Vec<u8>) -> (r: Self)
        ensures
            r.owned_inputs == owned_inputs,
            r.payload == payload,
            !r.mixed,
    {
        SnapperTransactionEnvelope { mixed: false, owned_inputs, payload }
    }

    /// An envelope of a mixed transaction.
    pub fn new_mixed(owned_inputs: Vec<SnapperObjectKey>, payload: Vec<u8>) -> (r: Self)
        ensures
            r.owned_inputs == owned_inputs,
            r.payload == payload,
            r.mixed,
    {
        SnapperTransactionEnvelope { mixed: true, owned_inputs, payload }
    }

    /// The bytes of the envelope.
    pub fn encode(&self) -> (r: Vec<u8>)
        requires
            encodable(self.owned_inputs@, self.payload@),
        ensures
            r@ == envelope_bytes(self.mixed, self.owned_inputs@, self.payload@),
            is_envelope(r@, self.mixed, self.owned_inputs@, self.payload@),
    {
        let mut items: Vec<([u8; 32], u64)> = Vec::new();
        let mut i: usize = 0;
        while i < self.owned_inputs.len()
            invariant
                i <= self.owned_inputs@.len(),
                items@ == as_items(self.owned_inputs@).take(i as int),
            decreases self.owned_inputs@.len() - i,
        {
            items.push((self.owned_inputs[i].object_id, self.owned_inputs[i].version));
            i += 1;
            assert(items@ =~= as_items(self.owned_inputs@).take(i as int));
        }
        assert(items@ =~= as_items(self.owned_inputs@));
        let mut payload: Vec<u8> = Vec::new();
        bytes::push_bytes(&mut payload, self.payload.as_slice());
        assert(payload@ =~= self.payload@);
        let magic = if self.mixed {
            SNAPPER_MIXED_TRANSACTION_MAGIC
        } else {
            SNAPPER_TRANSACTION_MAGIC
        };
        let fields = (magic, items, payload);
        match bcs_to_bytes(&fields) {
            Ok(out) => out,
            Err(_) => {
                assert(false);
                Vec::new()
            },
        }
    }

    /// The envelope with the given bytes, or nothing for an ordinary
    /// transaction.
    pub fn decode(data: &[u8]) -> (r: Option<Self>)
        ensures
            match r {
                Some(e) => is_envelope(data@, e.mixed, e.owned_inputs@, e.payload@),
                None => forall|mixed: bool, owned_inputs: Seq<SnapperObjectKey>, payload: Seq<u8>|
                    !is_envelope(data@, mixed, owned_inputs, payload),
            },
            envelope_metadata(data@) == (match r {
                Some(e) => Some((e.mixed, e.owned_inputs@)),
                None => None,
            }),
    {
        match bcs_from_bytes(data) {
            Ok((magic, items, payload)) => {
                let mixed = same_marker(&magic, &SNAPPER_MIXED_TRANSACTION_MAGIC);
                if !mixed && !same_marker(&magic, &SNAPPER_TRANSACTION_MAGIC) {
                    proof {
                        assert forall|
                            kind: bool,
                            owned_inputs: Seq<SnapperObjectKey>,
                            rest: Seq<u8>,
                        | !is_envelope(data@, kind, owned_inputs, rest) by {
                            if is_envelope(data@, kind, owned_inputs, rest) {
                                lemma_bcs_fields_injective(
                                    magic@,
                                    items@,
                                    payload@,
                                    marker(kind)@,
                                    as_items(owned_inputs),
                                    rest,
                                );
                            }
                        }
                    }
                    return None;
                }
                assert(magic@ == marker(mixed)@);
                let mut owned_inputs: Vec<SnapperObjectKey> = Vec::new();
                let mut k: usize = 0;
                while k < items.len()
                    invariant
                        k <= items@.len(),
                        owned_inputs@ == as_keys(items@).take(k as int),
                    decreases items@.len() - k,
                {
                    owned_inputs.push(
                        SnapperObjectKey { object_id: items[k].0, version: items[k].1 },
                    );
                    k += 1;
                    assert(owned_inputs@ =~= as_keys(items@).take(k as int));
                }
                proof {
                    assert(owned_inputs@ =~= as_keys(items@));
                    assert(as_items(owned_inputs@) =~= items@);
                    assert(is_envelope(data@, mixed, owned_inputs@, payload@));
                    envelope_encoding_is_injective(
                        data@,
                        mixed,
                        owned_inputs@,
                        payload@,
                        mixed,
                        owned_inputs@,
                        payload@,
                    );
                }
                Some(SnapperTransactionEnvelope { mixed, owned_inputs, payload })
            },
            Err(_) => {
                proof {
                    assert forall|
                        mixed: bool,
                        owned_inputs: Seq<SnapperObjectKey>,
                        payload: Seq<u8>,
                    | !is_envelope(data@, mixed, owned_inputs, payload) by {
                        assert(bcs_fields(marker(mixed)@, as_items(owned_inputs), payload)
                            == envelope_bytes(mixed, owned_inputs, payload));
                    }
                }
                None
            },
        }
    }

    /// The identifier of the transaction with the given bytes.
    pub fn transaction_id(data: &[u8]) -> (r: SnapperTransactionId)
        ensures
            r == transaction_id_of(data@),
    {
        SnapperTransactionId::from_transaction_bytes(data)
    }
}

} // verus!
