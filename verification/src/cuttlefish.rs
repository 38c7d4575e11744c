//! Baseline FastUnlock for single owned objects.
//!
//! A client whose object is locked by conflicting transactions asks the
//! validators to unlock it. Votes by a quorum form a certificate; once the
//! certificate is sequenced by consensus, either a transaction certificate that
//! already existed is executed, or the version of the object is bumped.
use std::collections::BTreeSet;
use vstd::prelude::*;

use crate::order;
use crate::order::{FixedWidthKey, OrderedKey, Relative};
use crate::seqs;
use crate::sorted_map::SortedMap;

verus! {

broadcast use vstd::std_specs::btree::group_btree_axioms;

/// An owned-object version.
#[derive(Clone, Copy, Debug, Eq, PartialEq, Ord, PartialOrd, Hash)]
pub struct CuttlefishObjectKey {
    pub object_id: [u8; 32],
    pub version: u64,
}

/// Identifier of a transaction certificate.
#[derive(Clone, Copy, Debug, Eq, PartialEq, Ord, PartialOrd, Hash)]
pub struct CuttlefishCertificateId(pub [u8; 32]);

/// How far unlocking an object version has come.
#[derive(Clone, Copy, Debug, Eq, PartialEq, Structural)]
pub enum CuttlefishUnlockStatus {
    Unlocked,
    Confirmed,
}

/// A request to unlock an object version.
#[derive(Clone, Copy, Debug, Eq, PartialEq)]
pub struct CuttlefishUnlockRequest {
    pub object: CuttlefishObjectKey,
    pub auth_transaction: [u8; 32],
}

/// A validator's answer to a request: the transaction certificate that it has
/// for the object version, if it has one.
#[derive(Clone, Copy, Debug, Eq, PartialEq)]
pub struct CuttlefishUnlockVote {
    pub request: CuttlefishUnlockRequest,
    pub certificate: Option<CuttlefishCertificateId>,
    pub authority: u32,
}

/// Votes by a quorum over the same request and transaction certificate.
#[derive(Clone, Debug, Eq, PartialEq)]
pub struct CuttlefishUnlockCertificate {
    pub request: CuttlefishUnlockRequest,
    pub certificate: Option<CuttlefishCertificateId>,
    pub voters: BTreeSet<u32>,
}

/// What a sequenced certificate leads to.
#[derive(Clone, Copy, Debug, Eq, PartialEq)]
pub enum CuttlefishResolution {
    ExecuteCertificate(CuttlefishCertificateId),
    NoopVersionBump { old_object: CuttlefishObjectKey, new_object: CuttlefishObjectKey },
}

/// Why unlocking failed.
#[derive(Clone, Debug, Eq, PartialEq)]
pub enum CuttlefishError {
    NotEnoughVotes { got: usize, required: usize },
    DuplicateAuthority(u32),
    AlreadyConfirmed(CuttlefishObjectKey),
}

impl OrderedKey for CuttlefishObjectKey {
    open spec fn words(self) -> Seq<int> {
        (self.object_id, self.version).words()
    }

    proof fn words_tell(a: Self, b: Self) {
        <([u8; 32], u64)>::words_tell((a.object_id, a.version), (b.object_id, b.version));
    }

    fn relate(&self, other: &Self) -> (r: Relative) {
        (self.object_id, self.version).relate(&(other.object_id, other.version))
    }
}

impl FixedWidthKey for CuttlefishObjectKey {
    open spec fn width() -> nat {
        33
    }

    proof fn words_len(a: Self) {
    }
}

impl OrderedKey for CuttlefishCertificateId {
    open spec fn words(self) -> Seq<int> {
        self.0.words()
    }

    proof fn words_tell(a: Self, b: Self) {
        <[u8; 32]>::words_tell(a.0, b.0);
    }

    fn relate(&self, other: &Self) -> (r: Relative) {
        let r = self.0.relate(&other.0);
        assert(self.0 == other.0 ==> *self == *other);
        r
    }
}

impl CuttlefishObjectKey {
    /// The next version of the object.
    pub open spec fn next(self) -> Self {
        CuttlefishObjectKey { object_id: self.object_id, version: (self.version + 1) as u64 }
    }

    /// The next version of the object.
    pub fn next_version(self) -> (r: Self)
        requires
            self.version < u64::MAX,
        ensures
            r == self.next(),
            r.object_id == self.object_id,
            r.version == self.version + 1,
    {
        CuttlefishObjectKey { object_id: self.object_id, version: self.version + 1 }
    }
}

/// What votes must agree on to count together, in the order in which ties are
/// broken.
pub type VoteKey = (CuttlefishObjectKey, ([u8; 32], Option<CuttlefishCertificateId>));

impl CuttlefishUnlockVote {
    /// What votes must agree on to count together.
    pub open spec fn key(self) -> VoteKey {
        (self.request.object, (self.request.auth_transaction, self.certificate))
    }
}

/// The authorities whose vote has the given key.
pub open spec fn voters_for(votes: Seq<CuttlefishUnlockVote>, key: VoteKey) -> Set<u32> {
    Set::new(
        |a: u32|
            exists|i: int|
                0 <= i < votes.len() && (#[trigger] votes[i]).key() == key && votes[i].authority
                    == a,
    )
}

/// The vote repeats an earlier one.
pub open spec fn repeats(votes: Seq<CuttlefishUnlockVote>, j: int) -> bool {
    exists|i: int| 0 <= i < j && #[trigger] votes[i] == votes[j]
}

/// The first vote that repeats an earlier one.
pub open spec fn first_repeat(votes: Seq<CuttlefishUnlockVote>, j: int) -> bool {
    &&& 0 <= j < votes.len()
    &&& repeats(votes, j)
    &&& forall|k: int| 0 <= k < j ==> !#[trigger] repeats(votes, k)
}

/// No other key has more voters, and none that has as many comes later.
pub open spec fn leads(votes: Seq<CuttlefishUnlockVote>, key: VoteKey) -> bool {
    &&& exists|i: int| 0 <= i < votes.len() && (#[trigger] votes[i]).key() == key
    &&& forall|i: int|
        0 <= i < votes.len() ==> {
            let other = (#[trigger] votes[i]).key();
            ||| other == key
            ||| voters_for(votes, other).len() < voters_for(votes, key).len()
            ||| voters_for(votes, other).len() == voters_for(votes, key).len() && order::before(
                other,
                key,
            )
        }
}

/// What assembling votes gives: a repeated vote is refused; otherwise the
/// leading key wins, where its voters make the quorum.
pub open spec fn assembled(
    votes: Seq<CuttlefishUnlockVote>,
    quorum: nat,
    r: Result<CuttlefishUnlockCertificate, CuttlefishError>,
) -> bool {
    match r {
        Ok(c) => {
            let key = (c.request.object, (c.request.auth_transaction, c.certificate));
            &&& forall|j: int| !first_repeat(votes, j)
            &&& leads(votes, key)
            &&& c.voters@ == voters_for(votes, key)
            &&& c.voters@.len() >= quorum
        },
        Err(CuttlefishError::DuplicateAuthority(a)) => exists|j: int| #[trigger]
            first_repeat(votes, j) && votes[j].authority == a,
        Err(CuttlefishError::NotEnoughVotes { got, required }) => {
            &&& forall|j: int| !first_repeat(votes, j)
            &&& required == quorum
            &&& if votes.len() == 0 {
                got == 0
            } else {
                got < quorum && exists|key: VoteKey| #[trigger]
                    leads(votes, key) && got == voters_for(votes, key).len()
            }
        },
        Err(CuttlefishError::AlreadyConfirmed(_)) => false,
    }
}

/// What a validator knows of locks and unlocking.
#[verifier::ext_equal]
pub struct FastUnlockModel {
    /// The transaction certificate, if there is one, of locked object versions.
    pub locks: Map<CuttlefishObjectKey, Option<CuttlefishCertificateId>>,
    /// How far unlocking has come.
    pub unlocks: Map<CuttlefishObjectKey, CuttlefishUnlockStatus>,
}

impl FastUnlockModel {
    pub open spec fn lock_certificate(self, object: CuttlefishObjectKey) -> Option<
        CuttlefishCertificateId,
    > {
        if self.locks.contains_key(object) {
            self.locks[object]
        } else {
            None
        }
    }

    pub open spec fn unlock_status(self, object: CuttlefishObjectKey) -> Option<
        CuttlefishUnlockStatus,
    > {
        if self.unlocks.contains_key(object) {
            Some(self.unlocks[object])
        } else {
            None
        }
    }

    pub open spec fn fast_path_allowed(self, object: CuttlefishObjectKey) -> bool {
        !self.unlocks.contains_key(object)
    }

    pub open spec fn with_status(
        self,
        object: CuttlefishObjectKey,
        status: CuttlefishUnlockStatus,
    ) -> Self {
        FastUnlockModel { unlocks: self.unlocks.insert(object, status), ..self }
    }

    /// Once a request is answered; one without a valid authorization changes
    /// nothing.
    pub open spec fn with_request(
        self,
        request: CuttlefishUnlockRequest,
        authenticated: bool,
    ) -> Self {
        if authenticated {
            self.with_status(request.object, CuttlefishUnlockStatus::Unlocked)
        } else {
            self
        }
    }

    /// A certificate with this many voters for the object version is processed.
    pub open spec fn accepts(
        self,
        object: CuttlefishObjectKey,
        voters: nat,
        quorum: nat,
    ) -> bool {
        voters >= quorum && self.unlock_status(object) != Some(CuttlefishUnlockStatus::Confirmed)
    }

    /// Once a certificate is processed; one that is refused changes nothing.
    pub open spec fn with_certificate(
        self,
        object: CuttlefishObjectKey,
        voters: nat,
        quorum: nat,
    ) -> Self {
        if self.accepts(object, voters, quorum) {
            self.with_status(object, CuttlefishUnlockStatus::Confirmed)
        } else {
            self
        }
    }
}

/// What a processed certificate leads to: the transaction certificate is
/// executed, or else the version is bumped.
pub open spec fn resolution_of(
    object: CuttlefishObjectKey,
    certificate: Option<CuttlefishCertificateId>,
) -> CuttlefishResolution {
    match certificate {
        Some(c) => CuttlefishResolution::ExecuteCertificate(c),
        None => CuttlefishResolution::NoopVersionBump {
            old_object: object,
            new_object: object.next(),
        },
    }
}

/// The locks of a validator and the object versions that are being unlocked.
pub struct CuttlefishFastUnlockState {
    lock_db: SortedMap<CuttlefishObjectKey, Option<CuttlefishCertificateId>>,
    unlock_db: SortedMap<CuttlefishObjectKey, CuttlefishUnlockStatus>,
}

impl View for CuttlefishFastUnlockState {
    type V = FastUnlockModel;

    closed spec fn view(&self) -> FastUnlockModel {
        FastUnlockModel { locks: self.lock_db@, unlocks: self.unlock_db@ }
    }
}

impl Default for CuttlefishFastUnlockState {
    fn default() -> (r: Self)
        ensures
            r@ == (FastUnlockModel { locks: Map::empty(), unlocks: Map::empty() }),
    {
        CuttlefishFastUnlockState { lock_db: SortedMap::new(), unlock_db: SortedMap::new() }
    }
}

impl CuttlefishFastUnlockState {
    pub fn new() -> (r: Self)
        ensures
            r@ == (FastUnlockModel { locks: Map::empty(), unlocks: Map::empty() }),
    {
        Self::default()
    }

    /// Locks an object version, with its transaction certificate if there is
    /// one.
    pub fn set_lock(
        &mut self,
        object: CuttlefishObjectKey,
        certificate: Option<CuttlefishCertificateId>,
    )
        ensures
            final(self)@ == (FastUnlockModel {
                locks: old(self)@.locks.insert(object, certificate),
                ..old(self)@
            }),
    {
        self.lock_db.insert(object, certificate);
    }

    /// The transaction certificate of a locked object version.
    pub fn lock_certificate(&self, object: &CuttlefishObjectKey) -> (r: Option<
        CuttlefishCertificateId,
    >)
        ensures
            r == self@.lock_certificate(*object),
    {
        match self.lock_db.get(object) {
            Some(certificate) => *certificate,
            None => None,
        }
    }

    /// How far unlocking an object version has come.
    pub fn unlock_status(&self, object: &CuttlefishObjectKey) -> (r: Option<
        CuttlefishUnlockStatus,
    >)
        ensures
            r == self@.unlock_status(*object),
    {
        match self.unlock_db.get(object) {
            Some(status) => Some(*status),
            None => None,
        }
    }

    /// Whether the fast path may still use an object version.
    pub fn fast_path_allowed(&self, object: &CuttlefishObjectKey) -> (r: bool)
        ensures
            r == self@.fast_path_allowed(*object),
    {
        self.unlock_status(object).is_none()
    }

    /// ProcessUnlockTx: answers an authenticated request with a vote, and takes
    /// the object version off the fast path.
    pub fn process_unlock_request(
        &mut self,
        request: CuttlefishUnlockRequest,
        authority: u32,
        authenticated: bool,
    ) -> (r: Option<CuttlefishUnlockVote>)
        ensures
            final(self)@ == old(self)@.with_request(request, authenticated),
            r == (if authenticated {
                Some(
                    CuttlefishUnlockVote {
                        request,
                        certificate: old(self)@.lock_certificate(request.object),
                        authority,
                    },
                )
            } else {
                None
            }),
    {
        if !authenticated {
            return None;
        }
        let certificate = self.lock_certificate(&request.object);
        self.unlock_db.insert(request.object, CuttlefishUnlockStatus::Unlocked);
        Some(CuttlefishUnlockVote { request, certificate, authority })
    }

    /// Client-side assembly of votes by a quorum over the same request and
    /// transaction certificate.
    pub fn assemble_unlock_certificate(
        votes: Vec<CuttlefishUnlockVote>,
        quorum: usize,
    ) -> (r: Result<CuttlefishUnlockCertificate, CuttlefishError>)
        ensures
            assembled(votes@, quorum as nat, r),
    {
        let mut groups: SortedMap<VoteKey, BTreeSet<u32>> = SortedMap::new();
        let mut i: usize = 0;
        while i < votes.len()
            invariant
                i <= votes@.len(),
                forall|k: VoteKey| #[trigger]
                    groups@.contains_key(k) <==> exists|j: int|
                        0 <= j < i && (#[trigger] votes@[j]).key() == k,
                forall|k: VoteKey| #[trigger]
                    groups@.contains_key(k) ==> groups@[k]@ == voters_for(
                        votes@.take(i as int),
                        k,
                    ),
                forall|k: int| 0 <= k < i ==> !#[trigger] repeats(votes@, k),
            decreases votes@.len() - i,
        {
            let vote = votes[i];
            let key = (vote.request.object, (vote.request.auth_transaction, vote.certificate));
            let ghost before = groups@;
            let ghost seen = votes@.take(i as int);
            let mut voters = match groups.remove(&key) {
                Some(voters) => voters,
                None => BTreeSet::new(),
            };
            proof {
                if !before.contains_key(key) {
                    assert(voters_for(seen, key) =~= Set::<u32>::empty()) by {
                        assert forall|a: u32| !voters_for(seen, key).contains(a) by {
                            if voters_for(seen, key).contains(a) {
                                let j = choose|j: int|
                                    0 <= j < seen.len() && (#[trigger] seen[j]).key() == key
                                        && seen[j].authority == a;
                                assert(votes@[j].key() == key);
                            }
                        }
                    }
                }
                assert(voters@ == voters_for(seen, key));
            }
            let fresh = voters.insert(vote.authority);
            if !fresh {
                proof {
                    let j = choose|j: int|
                        0 <= j < seen.len() && (#[trigger] seen[j]).key() == key
                            && seen[j].authority == vote.authority;
                    assert(votes@[j] == votes@[i as int]);
                    assert(repeats(votes@, i as int));
                    assert(first_repeat(votes@, i as int));
                }
                return Err(CuttlefishError::DuplicateAuthority(vote.authority));
            }
            groups.insert(key, voters);
            proof {
                seqs::lemma_take_next(votes@, i as int);
                lemma_one_vote_more(votes@, i as int);
                assert(!repeats(votes@, i as int)) by {
                    if repeats(votes@, i as int) {
                        let j = choose|j: int| 0 <= j < i && #[trigger] votes@[j] == vote;
                        assert(seen[j].key() == key && seen[j].authority == vote.authority);
                    }
                }
                assert forall|k: VoteKey| #[trigger]
                    groups@.contains_key(k) <==> exists|j: int|
                        0 <= j < i + 1 && (#[trigger] votes@[j]).key() == k by {
                    if k == key {
                        assert(votes@[i as int].key() == k);
                    } else if exists|j: int| 0 <= j < i + 1 && (#[trigger] votes@[j]).key() == k {
                        let j = choose|j: int| 0 <= j < i + 1 && (#[trigger] votes@[j]).key() == k;
                        assert(j < i);
                        assert(before.contains_key(k));
                    } else {
                        assert(!before.contains_key(k));
                    }
                }
            }
            i += 1;
        }
        proof {
            seqs::lemma_take_ends(votes@);
            assert forall|j: int| !first_repeat(votes@, j) by {
                if first_repeat(votes@, j) {
                    assert(!repeats(votes@, j));
                }
            }
        }
        let keys = groups.keys();
        if keys.len() == 0 {
            proof {
                if votes@.len() > 0 {
                    assert(groups@.contains_key(votes@[0].key()));
                    assert(keys@.to_set().contains(votes@[0].key()));
                }
            }
            return Err(CuttlefishError::NotEnoughVotes { got: 0, required: quorum });
        }
        let mut best: usize = 0;
        let mut size: usize = group_size(&groups, &keys[0]);
        let mut n: usize = 1;
        assert(keys@.to_set().contains(keys@[0]));
        while n < keys.len()
            invariant
                1 <= n <= keys@.len(),
                best < n,
                order::ascending(keys@),
                keys@.to_set() == groups@.dom(),
                size == groups@[keys@[best as int]]@.len(),
                forall|m: int|
                    0 <= m < n && m != best ==> {
                        ||| groups@[#[trigger] keys@[m]]@.len() < size
                        ||| groups@[keys@[m]]@.len() == size && m < best
                    },
            decreases keys@.len() - n,
        {
            assert(keys@.to_set().contains(keys@[n as int]));
            let next: usize = group_size(&groups, &keys[n]);
            if next >= size {
                best = n;
                size = next;
            }
            n += 1;
        }
        let key = keys[best];
        proof {
            assert(keys@.to_set().contains(key));
            assert(groups@.contains_key(key));
            assert forall|j: int| 0 <= j < votes@.len() implies {
                let other = (#[trigger] votes@[j]).key();
                ||| other == key
                ||| voters_for(votes@, other).len() < voters_for(votes@, key).len()
                ||| voters_for(votes@, other).len() == voters_for(votes@, key).len()
                    && order::before(other, key)
            } by {
                let other = votes@[j].key();
                assert(groups@.contains_key(other));
                assert(keys@.to_set().contains(other));
                let m = choose|m: int| 0 <= m < keys@.len() && keys@[m] == other;
                assert(groups@[keys@[m]]@ == voters_for(votes@, other));
                assert(groups@[key]@ == voters_for(votes@, key));
            }
            assert(leads(votes@, key));
        }
        if size < quorum {
            return Err(CuttlefishError::NotEnoughVotes { got: size, required: quorum });
        }
        let request = CuttlefishUnlockRequest { object: key.0, auth_transaction: key.1.0 };
        match groups.remove(&key) {
            Some(voters) => Ok(
                CuttlefishUnlockCertificate { request, certificate: key.1.1, voters },
            ),
            None => {
                assert(false);
                Err(CuttlefishError::NotEnoughVotes { got: 0, required: quorum })
            },
        }
    }

    /// ProcessUnlockCert after consensus sequencing.
    pub fn process_unlock_certificate(
        &mut self,
        certificate: &CuttlefishUnlockCertificate,
        quorum: usize,
    ) -> (r: Result<CuttlefishResolution, CuttlefishError>)
        requires
            old(self)@.accepts(
                certificate.request.object,
                certificate.voters@.len(),
                quorum as nat,
            ) && certificate.certificate is None ==> certificate.request.object.version < u64::MAX,
        ensures
            final(self)@ == old(self)@.with_certificate(
                certificate.request.object,
                certificate.voters@.len(),
                quorum as nat,
            ),
            match r {
                Ok(resolution) => {
                    &&& old(self)@.accepts(
                        certificate.request.object,
                        certificate.voters@.len(),
                        quorum as nat,
                    )
                    &&& resolution == resolution_of(
                        certificate.request.object,
                        certificate.certificate,
                    )
                },
                Err(CuttlefishError::NotEnoughVotes { got, required }) => {
                    &&& got == certificate.voters@.len()
                    &&& required == quorum
                    &&& got < quorum
                },
                Err(CuttlefishError::AlreadyConfirmed(object)) => {
                    &&& object == certificate.request.object
                    &&& certificate.voters@.len() >= quorum
                    &&& old(self)@.unlock_status(object) == Some(CuttlefishUnlockStatus::Confirmed)
                },
                Err(CuttlefishError::DuplicateAuthority(_)) => false,
            },
    {
        let got: usize = certificate.voters.len();
        if got < quorum {
            return Err(CuttlefishError::NotEnoughVotes { got, required: quorum });
        }
        let object = certificate.request.object;
        if self.unlock_status(&object) == Some(CuttlefishUnlockStatus::Confirmed) {
            return Err(CuttlefishError::AlreadyConfirmed(object));
        }
        let resolution = match certificate.certificate {
            Some(transaction_certificate) => CuttlefishResolution::ExecuteCertificate(
                transaction_certificate,
            ),
            None => CuttlefishResolution::NoopVersionBump {
                old_object: object,
                new_object: object.next_version(),
            },
        };
        self.unlock_db.insert(object, CuttlefishUnlockStatus::Confirmed);
        Ok(resolution)
    }
}

/// The number of voters of a group.
fn group_size(groups: &SortedMap<VoteKey, BTreeSet<u32>>, key: &VoteKey) -> (r: usize)
    requires
        groups@.contains_key(*key),
    ensures
        r == groups@[*key]@.len(),
{
    match groups.get(key) {
        Some(voters) => voters.len(),
        None => {
            assert(false);
            0
        },
    }
}

/// One vote more adds its authority to the voters for its key.
proof fn lemma_one_vote_more(votes: Seq<CuttlefishUnlockVote>, i: int)
    requires
        0 <= i < votes.len(),
    ensures
        forall|k: VoteKey| #[trigger]
            voters_for(votes.take(i + 1), k) == (if k == votes[i].key() {
                voters_for(votes.take(i), k).insert(votes[i].authority)
            } else {
                voters_for(votes.take(i), k)
            }),
{
    let before = votes.take(i);
    let after = votes.take(i + 1);
    assert forall|k: VoteKey| #[trigger]
        voters_for(after, k) == (if k == votes[i].key() {
            voters_for(before, k).insert(votes[i].authority)
        } else {
            voters_for(before, k)
        }) by {
        let goal = if k == votes[i].key() {
            voters_for(before, k).insert(votes[i].authority)
        } else {
            voters_for(before, k)
        };
        assert forall|a: u32| voters_for(after, k).contains(a) <==> goal.contains(a) by {
            if voters_for(after, k).contains(a) {
                let j = choose|j: int|
                    0 <= j < after.len() && (#[trigger] after[j]).key() == k && after[j].authority
                        == a;
                if j < i {
                    assert(before[j].key() == k && before[j].authority == a);
                }
            }
            if voters_for(before, k).contains(a) {
                let j = choose|j: int|
                    0 <= j < before.len() && (#[trigger] before[j]).key() == k
                        && before[j].authority == a;
                assert(after[j].key() == k && after[j].authority == a);
            }
            assert(after[i] == votes[i]);
        }
        assert(voters_for(after, k) =~= goal);
    }
}

} // verus!
