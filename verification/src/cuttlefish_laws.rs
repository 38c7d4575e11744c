//! Laws of FastUnlock.
use vstd::prelude::*;

use crate::cuttlefish;
use crate::cuttlefish::{
    CuttlefishCertificateId, CuttlefishError, CuttlefishObjectKey, CuttlefishResolution,
    CuttlefishUnlockCertificate, CuttlefishUnlockRequest, CuttlefishUnlockStatus,
    CuttlefishUnlockVote, FastUnlockModel, VoteKey,
};
use crate::order;

verus! {

/// An authenticated request takes its object version off the fast path, and no
/// other: the next version, among others, stays as it was.
pub proof fn request_disables_fast_path_of_that_version(
    m: FastUnlockModel,
    request: CuttlefishUnlockRequest,
    other: CuttlefishObjectKey,
)
    requires
        other != request.object,
    ensures
        !m.with_request(request, true).fast_path_allowed(request.object),
        m.with_request(request, true).fast_path_allowed(other) == m.fast_path_allowed(other),
        m.with_request(request, true).unlock_status(other) == m.unlock_status(other),
        m.with_request(request, true).locks == m.locks,
{
}

/// The next version is another object version.
pub proof fn next_version_is_another(object: CuttlefishObjectKey)
    requires
        object.version < u64::MAX,
    ensures
        object.next() != object,
        object.next().object_id == object.object_id,
{
    assert(object.next().version == object.version + 1);
}

/// A request that is not authenticated changes nothing.
pub proof fn unauthenticated_request_changes_nothing(
    m: FastUnlockModel,
    request: CuttlefishUnlockRequest,
)
    ensures
        m.with_request(request, false) == m,
{
}

/// Once off the fast path, an object version never comes back to it.
pub proof fn fast_path_is_never_enabled_again(
    m: FastUnlockModel,
    object: CuttlefishObjectKey,
    request: CuttlefishUnlockRequest,
    authenticated: bool,
    certified: CuttlefishObjectKey,
    voters: nat,
    quorum: nat,
)
    requires
        !m.fast_path_allowed(object),
    ensures
        !m.with_request(request, authenticated).fast_path_allowed(object),
        !m.with_certificate(certified, voters, quorum).fast_path_allowed(object),
{
}

/// After a certificate is processed, no other for the object version is, until
/// the object version is requested again; what happens to other object versions
/// does not matter.
pub proof fn certificate_is_processed_once(
    m: FastUnlockModel,
    object: CuttlefishObjectKey,
    voters: nat,
    quorum: nat,
    request: CuttlefishUnlockRequest,
    authenticated: bool,
    other: CuttlefishObjectKey,
    other_voters: nat,
    other_quorum: nat,
)
    requires
        m.accepts(object, voters, quorum),
        request.object != object,
    ensures
        ({
            let processed = m.with_certificate(object, voters, quorum);
            &&& !processed.accepts(object, other_voters, other_quorum)
            &&& !processed.with_request(request, authenticated).accepts(
                object,
                other_voters,
                other_quorum,
            )
            &&& !processed.with_certificate(other, other_voters, other_quorum).accepts(
                object,
                other_voters,
                other_quorum,
            )
        }),
{
}

/// A certificate that was assembled for a quorum is not refused for want of
/// votes.
pub proof fn assembled_certificate_is_accepted(
    m: FastUnlockModel,
    votes: Seq<CuttlefishUnlockVote>,
    quorum: nat,
    certificate: CuttlefishUnlockCertificate,
)
    requires
        cuttlefish::assembled(
            votes,
            quorum,
            Ok::<CuttlefishUnlockCertificate, CuttlefishError>(certificate),
        ),
        m.unlock_status(certificate.request.object) != Some(CuttlefishUnlockStatus::Confirmed),
    ensures
        m.accepts(certificate.request.object, certificate.voters@.len(), quorum),
{
}

/// A transaction certificate that the voters had is executed; the version is
/// bumped only where they had none.
pub proof fn existing_certificate_is_executed(
    object: CuttlefishObjectKey,
    certificate: Option<CuttlefishCertificateId>,
)
    ensures
        certificate is Some <==> cuttlefish::resolution_of(object, certificate)
            is ExecuteCertificate,
        certificate is Some ==> cuttlefish::resolution_of(object, certificate)
            == CuttlefishResolution::ExecuteCertificate(certificate->0),
{
}

/// At most one key leads, so what is assembled does not depend on anything but
/// the votes and the quorum.
pub proof fn leading_key_is_unique(votes: Seq<CuttlefishUnlockVote>, a: VoteKey, b: VoteKey)
    requires
        cuttlefish::leads(votes, a),
        cuttlefish::leads(votes, b),
    ensures
        a == b,
{
    let i = choose|i: int| 0 <= i < votes.len() && (#[trigger] votes[i]).key() == a;
    let j = choose|j: int| 0 <= j < votes.len() && (#[trigger] votes[j]).key() == b;
    if a != b {
        assert(votes[i].key() == a);
        assert(votes[j].key() == b);
        if order::before(a, b) && order::before(b, a) {
            order::lemma_before_asymmetric(a, b);
        }
    }
}

/// Matching votes by distinct authorities, as many as the quorum takes, form a
/// certificate with all of them.
pub proof fn matching_votes_form_a_certificate(
    votes: Seq<CuttlefishUnlockVote>,
    key: VoteKey,
    quorum: nat,
    r: Result<CuttlefishUnlockCertificate, CuttlefishError>,
)
    requires
        0 < votes.len(),
        quorum <= votes.len(),
        forall|i: int| 0 <= i < votes.len() ==> (#[trigger] votes[i]).key() == key,
        forall|i: int, j: int|
            0 <= i < j < votes.len() ==> (#[trigger] votes[i]).authority != (
            #[trigger] votes[j]).authority,
        cuttlefish::assembled(votes, quorum, r),
    ensures
        r is Ok,
        r->Ok_0.request.object == key.0,
        r->Ok_0.request.auth_transaction == key.1.0,
        r->Ok_0.certificate == key.1.1,
        r->Ok_0.voters@ == cuttlefish::voters_for(votes, key),
        r->Ok_0.voters@.len() == votes.len(),
{
    let authorities = votes.map_values(|v: CuttlefishUnlockVote| v.authority);
    assert(authorities.no_duplicates());
    authorities.unique_seq_to_set();
    assert(cuttlefish::voters_for(votes, key) =~= authorities.to_set()) by {
        assert forall|a: u32| cuttlefish::voters_for(votes, key).contains(a) <==> authorities.to_set().contains(
            a,
        ) by {
            if cuttlefish::voters_for(votes, key).contains(a) {
                let i = choose|i: int|
                    0 <= i < votes.len() && (#[trigger] votes[i]).key() == key && votes[i].authority
                        == a;
                assert(authorities[i] == a);
            }
            if authorities.contains(a) {
                let i = choose|i: int| 0 <= i < authorities.len() && authorities[i] == a;
                assert(votes[i].key() == key && votes[i].authority == a);
            }
        }
    }
    assert forall|j: int| !cuttlefish::first_repeat(votes, j) by {
        if cuttlefish::first_repeat(votes, j) {
            let i = choose|i: int| 0 <= i < j && #[trigger] votes[i] == votes[j];
            assert(votes[i].authority != votes[j].authority);
        }
    }
    assert forall|k: VoteKey| cuttlefish::leads(votes, k) implies k == key by {
        let i = choose|i: int| 0 <= i < votes.len() && (#[trigger] votes[i]).key() == k;
        assert(votes[i].key() == key);
    }
}

/// Where no vote is repeated, the order of the votes plays no part: either both
/// orders form the same certificate, or both lack the same number of votes.
pub proof fn order_of_votes_plays_no_part(
    a: Seq<CuttlefishUnlockVote>,
    b: Seq<CuttlefishUnlockVote>,
    quorum: nat,
    from_a: Result<CuttlefishUnlockCertificate, CuttlefishError>,
    from_b: Result<CuttlefishUnlockCertificate, CuttlefishError>,
)
    requires
        a.no_duplicates(),
        b.no_duplicates(),
        a.to_set() == b.to_set(),
        cuttlefish::assembled(a, quorum, from_a),
        cuttlefish::assembled(b, quorum, from_b),
    ensures
        from_a is Ok <==> from_b is Ok,
        from_a is Ok ==> {
            &&& from_a->Ok_0.request == from_b->Ok_0.request
            &&& from_a->Ok_0.certificate == from_b->Ok_0.certificate
            &&& from_a->Ok_0.voters@ == from_b->Ok_0.voters@
        },
        from_a is Err ==> from_a == from_b,
{
    lemma_same_votes(a, b);
    lemma_same_votes(b, a);
    assert forall|j: int| !cuttlefish::first_repeat(a, j) by {
        if cuttlefish::first_repeat(a, j) {
            let i = choose|i: int| 0 <= i < j && #[trigger] a[i] == a[j];
            assert(a[i] == a[j]);
        }
    }
    assert forall|j: int| !cuttlefish::first_repeat(b, j) by {
        if cuttlefish::first_repeat(b, j) {
            let i = choose|i: int| 0 <= i < j && #[trigger] b[i] == b[j];
            assert(b[i] == b[j]);
        }
    }
    assert(a.len() == 0 <==> b.len() == 0) by {
        if a.len() > 0 {
            assert(a.contains(a[0]));
            assert(b.to_set().contains(a[0]));
        }
        if b.len() > 0 {
            assert(b.contains(b[0]));
            assert(a.to_set().contains(b[0]));
        }
    }
    assert forall|x: VoteKey, y: VoteKey|
        cuttlefish::leads(a, x) && cuttlefish::leads(b, y) implies x == y by {
        assert(cuttlefish::leads(a, y));
        leading_key_is_unique(a, x, y);
    }
}

/// What is led and voted for in one order is so in the other.
proof fn lemma_same_votes(a: Seq<CuttlefishUnlockVote>, b: Seq<CuttlefishUnlockVote>)
    requires
        a.to_set() == b.to_set(),
    ensures
        forall|k: VoteKey| #[trigger]
            cuttlefish::voters_for(a, k) == cuttlefish::voters_for(b, k),
        forall|k: VoteKey| #[trigger] cuttlefish::leads(a, k) ==> cuttlefish::leads(b, k),
{
    assert forall|k: VoteKey| #[trigger]
        cuttlefish::voters_for(a, k) == cuttlefish::voters_for(b, k) by {
        assert forall|x: u32| cuttlefish::voters_for(a, k).contains(x)
            == cuttlefish::voters_for(b, k).contains(x) by {
            if cuttlefish::voters_for(a, k).contains(x) {
                let i = choose|i: int|
                    0 <= i < a.len() && (#[trigger] a[i]).key() == k && a[i].authority == x;
                assert(b.to_set().contains(a[i]));
                let j = choose|j: int| 0 <= j < b.len() && b[j] == a[i];
                assert(b[j].key() == k && b[j].authority == x);
            }
            if cuttlefish::voters_for(b, k).contains(x) {
                let i = choose|i: int|
                    0 <= i < b.len() && (#[trigger] b[i]).key() == k && b[i].authority == x;
                assert(a.to_set().contains(b[i]));
                let j = choose|j: int| 0 <= j < a.len() && a[j] == b[i];
                assert(a[j].key() == k && a[j].authority == x);
            }
        }
        assert(cuttlefish::voters_for(a, k) =~= cuttlefish::voters_for(b, k));
    }
    assert forall|k: VoteKey| #[trigger] cuttlefish::leads(a, k) implies cuttlefish::leads(
        b,
        k,
    ) by {
        let i = choose|i: int| 0 <= i < a.len() && (#[trigger] a[i]).key() == k;
        assert(b.to_set().contains(a[i]));
        let j = choose|j: int| 0 <= j < b.len() && b[j] == a[i];
        assert(b[j].key() == k);
        assert forall|n: int| 0 <= n < b.len() implies {
            let other = (#[trigger] b[n]).key();
            ||| other == k
            ||| cuttlefish::voters_for(b, other).len() < cuttlefish::voters_for(b, k).len()
            ||| cuttlefish::voters_for(b, other).len() == cuttlefish::voters_for(b, k).len()
                && order::before(other, k)
        } by {
            assert(a.to_set().contains(b[n]));
            let p = choose|p: int| 0 <= p < a.len() && a[p] == b[n];
            assert(a[p].key() == b[n].key());
            assert(cuttlefish::voters_for(a, b[n].key()) == cuttlefish::voters_for(b, b[n].key()));
            assert(cuttlefish::voters_for(a, k) == cuttlefish::voters_for(b, k));
        }
    }
}

/// Two votes are for the same request and transaction certificate.
pub open spec fn agree(a: CuttlefishUnlockVote, b: CuttlefishUnlockVote) -> bool {
    a.request == b.request && a.certificate == b.certificate
}

/// The authorities whose votes agree with the given one.
pub open spec fn supporters(votes: Seq<CuttlefishUnlockVote>, v: CuttlefishUnlockVote) -> Set<u32> {
    Set::new(
        |a: u32|
            exists|i: int|
                0 <= i < votes.len() && agree(#[trigger] votes[i], v) && votes[i].authority == a,
    )
}

proof fn lemma_supporters(votes: Seq<CuttlefishUnlockVote>, v: CuttlefishUnlockVote)
    ensures
        cuttlefish::voters_for(votes, v.key()) == supporters(votes, v),
{
    assert forall|i: int| 0 <= i < votes.len() implies ((#[trigger] votes[i]).key() == v.key()
        <==> agree(votes[i], v)) by {
        if votes[i].key() == v.key() {
            assert(votes[i].request.object == v.request.object);
            assert(votes[i].request == v.request);
        }
    }
    assert forall|a: u32| cuttlefish::voters_for(votes, v.key()).contains(a) <==> supporters(
        votes,
        v,
    ).contains(a) by {
        if cuttlefish::voters_for(votes, v.key()).contains(a) {
            let i = choose|i: int|
                0 <= i < votes.len() && (#[trigger] votes[i]).key() == v.key()
                    && votes[i].authority == a;
            assert(agree(votes[i], v));
        }
        if supporters(votes, v).contains(a) {
            let i = choose|i: int|
                0 <= i < votes.len() && agree(#[trigger] votes[i], v) && votes[i].authority == a;
            assert(votes[i].key() == v.key());
        }
    }
    assert(cuttlefish::voters_for(votes, v.key()) =~= supporters(votes, v));
}

/// Assembling refuses exactly the votes among which two are equal, and names the
/// authority of such a vote.
pub proof fn equal_votes_are_refused(
    votes: Seq<CuttlefishUnlockVote>,
    quorum: nat,
    r: Result<CuttlefishUnlockCertificate, CuttlefishError>,
)
    requires
        cuttlefish::assembled(votes, quorum, r),
    ensures
        (exists|a: u32| r == Err::<CuttlefishUnlockCertificate, _>(
            CuttlefishError::DuplicateAuthority(a),
        )) <==> !votes.no_duplicates(),
        r matches Err(CuttlefishError::DuplicateAuthority(a)) ==> exists|i: int, j: int|
            0 <= i < j < votes.len() && #[trigger] votes[i] == #[trigger] votes[j]
                && votes[j].authority == a,
{
    if !votes.no_duplicates() {
        let (i, j) = choose|i: int, j: int|
            0 <= i < votes.len() && 0 <= j < votes.len() && i != j && votes[i] == votes[j];
        let (x, y) = if i < j {
            (i, j)
        } else {
            (j, i)
        };
        assert(votes[x] == votes[y]);
        assert(cuttlefish::repeats(votes, y));
        lemma_first_repeat(votes, y);
    }
    if let Err(CuttlefishError::DuplicateAuthority(a)) = r {
        let j = choose|j: int| #[trigger]
            cuttlefish::first_repeat(votes, j) && votes[j].authority == a;
        let i = choose|i: int| 0 <= i < j && #[trigger] votes[i] == votes[j];
        assert(votes[i] == votes[j]);
        assert(r == Err::<CuttlefishUnlockCertificate, _>(CuttlefishError::DuplicateAuthority(a)));
    }
}

proof fn lemma_first_repeat(votes: Seq<CuttlefishUnlockVote>, n: int)
    requires
        0 <= n < votes.len(),
        cuttlefish::repeats(votes, n),
    ensures
        exists|j: int| cuttlefish::first_repeat(votes, j),
    decreases n,
{
    if forall|k: int| 0 <= k < n ==> !#[trigger] cuttlefish::repeats(votes, k) {
        assert(cuttlefish::first_repeat(votes, n));
    } else {
        let k = choose|k: int| 0 <= k < n && #[trigger] cuttlefish::repeats(votes, k);
        lemma_first_repeat(votes, k);
    }
}

/// Of votes that all differ, a certificate is assembled exactly where some votes
/// that agree are by at least as many authorities as the quorum takes. It holds
/// the request and the transaction certificate of votes with the most
/// authorities behind them, and just these authorities; and of several such it
/// takes the last in the order of object version, authorizing transaction and
/// transaction certificate.
pub proof fn most_supported_votes_are_assembled(
    votes: Seq<CuttlefishUnlockVote>,
    quorum: nat,
    r: Result<CuttlefishUnlockCertificate, CuttlefishError>,
    v: CuttlefishUnlockVote,
)
    requires
        cuttlefish::assembled(votes, quorum, r),
        votes.no_duplicates(),
        votes.contains(v),
    ensures
        supporters(votes, v).len() >= quorum ==> r is Ok,
        r matches Ok(c) ==> exists|w: CuttlefishUnlockVote|
            #![trigger supporters(votes, w)]
            {
                &&& votes.contains(w)
                &&& w.request == c.request
                &&& w.certificate == c.certificate
                &&& c.voters@ == supporters(votes, w)
                &&& c.voters@.len() >= quorum
                &&& supporters(votes, v).len() <= c.voters@.len()
                &&& supporters(votes, v).len() == c.voters@.len() && !agree(v, w) ==> order::before(
                    v.key(),
                    w.key(),
                )
            },
        r matches Err(CuttlefishError::NotEnoughVotes { got, required }) ==> required == quorum
            && supporters(votes, v).len() <= got && got < quorum,
        r is Ok || r matches Err(CuttlefishError::NotEnoughVotes { got, required }),
{
    equal_votes_are_refused(votes, quorum, r);
    let n = choose|n: int| 0 <= n < votes.len() && votes[n] == v;
    assert(votes[n].key() == v.key());
    lemma_supporters(votes, v);
    match r {
        Ok(c) => {
            let key = (c.request.object, (c.request.auth_transaction, c.certificate));
            let i = choose|i: int| 0 <= i < votes.len() && (#[trigger] votes[i]).key() == key;
            let w = votes[i];
            assert(votes.contains(w));
            lemma_supporters(votes, w);
            assert(w.request == c.request);
            if agree(v, w) {
                assert(v.key() == key);
            }
            if v.key() == key {
                assert(v.request == w.request);
            }
            assert(c.voters@ == supporters(votes, w));
        },
        Err(CuttlefishError::NotEnoughVotes { got, required }) => {
            let key = choose|key: VoteKey| #[trigger]
                cuttlefish::leads(votes, key) && got == cuttlefish::voters_for(votes, key).len();
            assert(cuttlefish::leads(votes, key));
        },
        Err(CuttlefishError::DuplicateAuthority(a)) => {
            assert(r == Err::<CuttlefishUnlockCertificate, _>(
                CuttlefishError::DuplicateAuthority(a),
            ));
        },
        Err(CuttlefishError::AlreadyConfirmed(_)) => {},
    }
}

/// A certificate is processed exactly where its voters make the quorum and the
/// object version is not confirmed; it confirms the object version and no other.
pub proof fn certificate_confirms_its_object(
    m: FastUnlockModel,
    object: CuttlefishObjectKey,
    voters: nat,
    quorum: nat,
    other: CuttlefishObjectKey,
)
    requires
        other != object,
    ensures
        ({
            let n = m.with_certificate(object, voters, quorum);
            let confirmed = m.unlocks.contains_key(object) && m.unlocks[object]
                == CuttlefishUnlockStatus::Confirmed;
            &&& m.accepts(object, voters, quorum) <==> voters >= quorum && !confirmed
            &&& voters >= quorum ==> n.unlock_status(object) == Some(
                CuttlefishUnlockStatus::Confirmed,
            )
            &&& voters < quorum ==> n == m
            &&& n.unlock_status(other) == m.unlock_status(other)
            &&& n.locks == m.locks
        }),
{
}

/// An authenticated request unlocks its object version, whatever its status was,
/// and the answer carries the transaction certificate of the lock.
pub proof fn request_unlocks_its_object(
    m: FastUnlockModel,
    request: CuttlefishUnlockRequest,
    certificate: Option<CuttlefishCertificateId>,
)
    ensures
        m.with_request(request, true).unlock_status(request.object) == Some(
            CuttlefishUnlockStatus::Unlocked,
        ),
        m.locks.contains_key(request.object) ==> m.lock_certificate(request.object)
            == m.locks[request.object],
        !m.locks.contains_key(request.object) ==> m.lock_certificate(request.object) is None,
        (FastUnlockModel {
            locks: m.locks.insert(request.object, certificate),
            ..m
        }).lock_certificate(request.object) == certificate,
        m.fast_path_allowed(request.object) <==> m.unlock_status(request.object) is None,
{
}

/// Without a transaction certificate the old version gives way to the next one
/// of the same object.
pub proof fn version_is_bumped_by_one(object: CuttlefishObjectKey)
    requires
        object.version < u64::MAX,
    ensures
        cuttlefish::resolution_of(object, None) matches CuttlefishResolution::NoopVersionBump {
            old_object,
            new_object,
        } && old_object == object && new_object.object_id == object.object_id && new_object.version
            == object.version + 1,
{
}

} // verus!
