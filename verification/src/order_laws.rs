//! What the order of keys is.
use vstd::prelude::*;

use crate::keys::{BlockRef, SnapperObjectKey, SnapperTransactionId};
use crate::order;
use crate::order::OrderedKey;

verus! {

/// Numbers are ordered by size.
pub proof fn numbers_are_ordered(a: u32, b: u32)
    ensures
        order::before(a, b) <==> a < b,
{
    if order::before(a, b) {
        let k = choose|k: int| order::lex_less_at(a.words(), b.words(), k);
        assert(k == 0);
    }
    if a < b {
        assert(order::lex_less_at(a.words(), b.words(), 0));
    }
}

/// At the first byte where two identifiers differ, the one is less.
pub open spec fn bytes_before(a: [u8; 32], b: [u8; 32]) -> bool {
    exists|i: int|
        0 <= i < 32 && #[trigger] a@[i] < b@[i] && forall|j: int| 0 <= j < i ==> a@[j] == b@[j]
}

/// Identifiers are ordered by their first different byte.
pub proof fn identifiers_are_ordered(a: [u8; 32], b: [u8; 32])
    ensures
        order::before(a, b) <==> bytes_before(a, b),
{
    if order::before(a, b) {
        let k = choose|k: int| order::lex_less_at(a.words(), b.words(), k);
        assert(a.words()[k] < b.words()[k]);
        assert(a@[k] < b@[k]);
        assert forall|j: int| 0 <= j < k implies a@[j] == b@[j] by {
            assert(a.words()[j] == b.words()[j]);
        }
    }
    if bytes_before(a, b) {
        let i = choose|i: int|
            0 <= i < 32 && #[trigger] a@[i] < b@[i] && forall|j: int|
                0 <= j < i ==> a@[j] == b@[j];
        assert(order::lex_less_at(a.words(), b.words(), i));
    }
}

/// Transactions are ordered by their identifiers.
pub proof fn transactions_are_ordered(a: SnapperTransactionId, b: SnapperTransactionId)
    ensures
        order::before(a, b) <==> bytes_before(a.0, b.0),
{
    identifiers_are_ordered(a.0, b.0);
}

proof fn lemma_pair<A: order::FixedWidthKey, B: OrderedKey>(a: (A, B), b: (A, B))
    ensures
        order::before(a, b) <==> order::before(a.0, b.0) || (a.0 == b.0 && order::before(a.1, b.1)),
{
    A::words_len(a.0);
    A::words_len(b.0);
    let n = A::width() as int;
    if order::before(a.0, b.0) {
        order::lemma_lex_before_suffix(a.0.words(), b.0.words(), a.1.words(), b.1.words());
    }
    if a.0 == b.0 && order::before(a.1, b.1) {
        order::lemma_lex_after_prefix(a.0.words(), a.1.words(), b.1.words());
    }
    if order::before(a, b) {
        let k = choose|k: int| order::lex_less_at(a.words(), b.words(), k);
        if k < n {
            assert(order::lex_less_at(a.0.words(), b.0.words(), k)) by {
                assert(a.words()[k] == a.0.words()[k]);
                assert(b.words()[k] == b.0.words()[k]);
                assert forall|j: int| 0 <= j < k implies a.0.words()[j] == b.0.words()[j] by {
                    assert(a.words()[j] == b.words()[j]);
                }
            }
        } else {
            assert(a.0.words() =~= b.0.words()) by {
                assert forall|j: int| 0 <= j < n implies a.0.words()[j] == b.0.words()[j] by {
                    assert(a.words()[j] == b.words()[j]);
                }
            }
            A::words_tell(a.0, b.0);
            assert(order::lex_less_at(a.1.words(), b.1.words(), k - n)) by {
                assert forall|j: int| 0 <= j < k - n implies a.1.words()[j] == b.1.words()[j] by {
                    assert(a.words()[n + j] == b.words()[n + j]);
                }
                if k < a.words().len() {
                    assert(a.words()[k] == a.1.words()[k - n]);
                    assert(b.words()[k] == b.1.words()[k - n]);
                }
            }
        }
    }
}

/// Object versions are ordered by identifier, then by version.
pub proof fn object_versions_are_ordered(a: SnapperObjectKey, b: SnapperObjectKey)
    ensures
        order::before(a, b) <==> bytes_before(a.object_id, b.object_id) || (a.object_id
            == b.object_id && a.version < b.version),
{
    lemma_pair((a.object_id, a.version), (b.object_id, b.version));
    identifiers_are_ordered(a.object_id, b.object_id);
    if order::before(a.version, b.version) {
        let k = choose|k: int| order::lex_less_at(a.version.words(), b.version.words(), k);
        assert(k == 0);
    }
    if a.version < b.version {
        assert(order::lex_less_at(a.version.words(), b.version.words(), 0));
    }
}

/// Blocks are ordered by round, then by author, then by digest.
pub proof fn blocks_are_ordered(a: BlockRef, b: BlockRef)
    ensures
        order::before(a, b) <==> {
            ||| a.round < b.round
            ||| a.round == b.round && a.author.0 < b.author.0
            ||| a.round == b.round && a.author == b.author && bytes_before(a.digest.0, b.digest.0)
        },
{
    lemma_pair((a.round, (a.author, a.digest.0)), (b.round, (b.author, b.digest.0)));
    lemma_pair((a.author, a.digest.0), (b.author, b.digest.0));
    numbers_are_ordered(a.round, b.round);
    numbers_are_ordered(a.author.0, b.author.0);
    identifiers_are_ordered(a.digest.0, b.digest.0);
}

} // verus!
