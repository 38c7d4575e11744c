//! Common consensus evaluation harness.
//!
//! This module is deliberately protocol-independent. It measures lifecycle
//! events that every comparison can expose: submission, block inclusion, and
//! sequencing. The events come from outside; the decisions on them, and the
//! accounting, stand here. Times are in nanoseconds since a common start, and
//! in milliseconds where they are read off a wall clock.
use vstd::prelude::*;

use crate::bytes;
use crate::bytes::push_u64;
use crate::keys::BlockRef;
use crate::order;
use crate::protocol::SnapperResolutionObservation;
use crate::seqs;
use crate::sorted_set::SortedSet;

verus! {

/// The bytes that an opaque payload starts with: `CEVAL001`.
pub const EVALUATION_MAGIC: [u8; 8] = [67, 69, 86, 65, 76, 48, 48, 49];

/// The least length of an opaque payload: the marker and the index.
pub const EVALUATION_HEADER_LENGTH: usize = 16;

/// A transaction of the workload and the authority that submits it.
#[derive(Clone, Debug, PartialEq, Eq)]
pub struct CommonEvalTransaction {
    pub id: u64,
    pub submitter: usize,
    pub payload: Vec<u8>,
}

/// What was measured of one transaction.
#[derive(Clone, Copy, Debug, PartialEq, Eq)]
pub struct CommonEvalSample {
    pub id: u64,
    pub submitter: usize,
    pub payload_bytes: usize,
    pub submitted_at_ms: u64,
    pub included_at_ms: u64,
    pub sequenced_at_ms: u64,
    pub included_block: BlockRef,
    pub included_round: u32,
    pub inclusion_latency: u64,
    pub sequencing_after_inclusion: u64,
    pub end_to_end_latency: u64,
}

/// What was measured of a workload.
#[derive(Clone, Debug, PartialEq, Eq)]
pub struct CommonEvalReport {
    pub samples: Vec<CommonEvalSample>,
    pub elapsed: u64,
    pub unique_inclusion_blocks: usize,
    pub inclusion_block_bytes: usize,
}

/// A moment, on the monotonic clock and on the wall clock.
#[derive(Clone, Copy, Debug, PartialEq, Eq)]
pub struct Moment {
    pub nanoseconds: u64,
    pub unix_ms: u64,
}

/// A transaction that was handed to its submitter.
#[derive(Clone, Copy, Debug, PartialEq, Eq)]
pub struct Submission {
    pub id: u64,
    pub submitter: usize,
    pub payload_bytes: usize,
    pub submitted: Moment,
}

/// A submitted transaction that a block includes.
#[derive(Clone, Copy, Debug, PartialEq, Eq)]
pub struct Inclusion {
    pub submission: Submission,
    pub block: BlockRef,
    pub included: Moment,
}

/// How a submission ended.
#[derive(Clone, Copy, Debug, PartialEq, Eq)]
pub enum SubmitOutcome {
    TimedOut,
    Failed,
    Included { block: BlockRef, index_count: usize },
}

/// How waiting for an inclusion block ended.
#[derive(Clone, Copy, Debug, PartialEq, Eq)]
pub enum StatusOutcome {
    TimedOut,
    ChannelClosed,
    Sequenced(BlockRef),
    GarbageCollected(BlockRef),
}

/// Why a workload failed.
#[derive(Clone, Copy, Debug, PartialEq, Eq)]
pub enum WorkloadError {
    NoAuthority,
    NothingInFlight,
    InclusionTimedOut { id: u64 },
    SubmissionFailed { id: u64 },
    UnexpectedIndexCount { id: u64, got: usize },
    SequencingTimedOut { id: u64, block: BlockRef },
    StatusChannelClosed { id: u64, block: BlockRef },
    SequencedElsewhere { id: u64, included: BlockRef, sequenced: BlockRef },
    GarbageCollected { id: u64, block: BlockRef },
}

/// The payload of an opaque transaction: the marker, the index, and a body that
/// differs from index to index.
pub open spec fn opaque_payload(index: nat, length: nat) -> Seq<u8> {
    Seq::new(
        length,
        |k: int|
            if k < 8 {
                EVALUATION_MAGIC@[k]
            } else if k < 16 {
                bytes::le_bytes(index, 8)[k - 8]
            } else {
                ((index * 31 + (k - 16)) % 256) as u8
            },
    )
}

/// Payloads of different transactions differ.
pub proof fn opaque_payloads_are_distinct(i: u64, j: u64, length: nat)
    requires
        i != j,
        length >= 16,
    ensures
        opaque_payload(i as nat, length) != opaque_payload(j as nat, length),
{
    let a = opaque_payload(i as nat, length);
    let b = opaque_payload(j as nat, length);
    bytes::lemma_byte_ranges();
    bytes::lemma_le_bytes_len(i as nat, 8);
    bytes::lemma_le_bytes_len(j as nat, 8);
    bytes::lemma_le_value_of_bytes(i as nat, 8);
    bytes::lemma_le_value_of_bytes(j as nat, 8);
    assert(a.subrange(8, 16) =~= bytes::le_bytes(i as nat, 8));
    assert(b.subrange(8, 16) =~= bytes::le_bytes(j as nat, 8));
}

/// The byte of a body at an offset.
fn body_byte(index: u64, offset: usize) -> (r: u8)
    ensures
        r == ((index * 31 + offset) % 256) as u8,
{
    let a: u64 = index % 256;
    let b: u64 = offset as u64 % 256;
    let r: u64 = (a * 31 + b) % 256;
    proof {
        let q = index as int / 256;
        let p = offset as int / 256;
        assert(index as int * 31 + offset as int == 256 * (q * 31 + p) + (a as int * 31 + b as int))
            by (nonlinear_arith)
            requires
                index as int == 256 * q + a as int,
                offset as int == 256 * p + b as int,
        ;
        vstd::arithmetic::div_mod::lemma_mod_multiples_vanish(
            q * 31 + p,
            a as int * 31 + b as int,
            256,
        );
    }
    r as u8
}

/// Produces opaque benchmark transactions. The encoding intentionally has no
/// protocol semantics, and is the same on every run.
pub fn opaque_workload(
    transaction_count: usize,
    payload_bytes: usize,
    authority_count: usize,
) -> (r: Vec<CommonEvalTransaction>)
    requires
        payload_bytes >= 16,
        authority_count > 0,
    ensures
        r@.len() == transaction_count,
        forall|i: int|
            0 <= i < r@.len() ==> {
                &&& (#[trigger] r@[i]).id == i
                &&& r@[i].submitter == i % authority_count as int
                &&& r@[i].payload@ == opaque_payload(i as nat, payload_bytes as nat)
            },
{
    let mut r: Vec<CommonEvalTransaction> = Vec::new();
    let mut index: usize = 0;
    while index < transaction_count
        invariant
            index <= transaction_count,
            authority_count > 0,
            payload_bytes >= 16,
            r@.len() == index,
            forall|i: int|
                0 <= i < r@.len() ==> {
                    &&& (#[trigger] r@[i]).id == i
                    &&& r@[i].submitter == i % authority_count as int
                    &&& r@[i].payload@ == opaque_payload(i as nat, payload_bytes as nat)
                },
        decreases transaction_count - index,
    {
        let id: u64 = index as u64;
        let payload = fill_payload(id, payload_bytes);
        r.push(CommonEvalTransaction { id, submitter: index % authority_count, payload });
        index += 1;
    }
    r
}

fn fill_payload(index: u64, payload_bytes: usize) -> (payload: Vec<u8>)
    requires
        payload_bytes >= 16,
    ensures
        payload@ == opaque_payload(index as nat, payload_bytes as nat),
{
    let ghost goal = opaque_payload(index as nat, payload_bytes as nat);
    let mut payload: Vec<u8> = Vec::new();
    bytes::push_bytes(&mut payload, &EVALUATION_MAGIC);
    push_u64(&mut payload, index);
    let mut k: usize = 16;
    proof {
        bytes::lemma_le_bytes_len(index as nat, 8);
        assert(payload@ =~= goal.take(16));
    }
    while k < payload_bytes
        invariant
            16 <= k <= payload_bytes,
            goal == opaque_payload(index as nat, payload_bytes as nat),
            payload@ == goal.take(k as int),
        decreases payload_bytes - k,
    {
        payload.push(body_byte(index, k - 16));
        k += 1;
        assert(payload@ =~= goal.take(k as int));
    }
    assert(payload@ =~= goal);
    payload
}

/// What a workload asks for before it starts.
pub fn check_workload(authority_count: usize, max_in_flight: usize) -> (r: Result<
    (),
    WorkloadError,
>)
    ensures
        r == (if authority_count == 0 {
            Err::<(), WorkloadError>(WorkloadError::NoAuthority)
        } else if max_in_flight == 0 {
            Err(WorkloadError::NothingInFlight)
        } else {
            Ok(())
        }),
{
    if authority_count == 0 {
        Err(WorkloadError::NoAuthority)
    } else if max_in_flight == 0 {
        Err(WorkloadError::NothingInFlight)
    } else {
        Ok(())
    }
}

/// The time from one moment to a later one; none where the clock went back.
pub open spec fn time_between(from: Moment, to: Moment) -> u64 {
    if from.nanoseconds <= to.nanoseconds {
        (to.nanoseconds - from.nanoseconds) as u64
    } else {
        0
    }
}

fn elapsed_between(from: &Moment, to: &Moment) -> (r: u64)
    ensures
        r == time_between(*from, *to),
{
    if from.nanoseconds <= to.nanoseconds {
        to.nanoseconds - from.nanoseconds
    } else {
        0
    }
}

impl Submission {
    /// What becomes of a submission: it is included as one transaction of a
    /// block, or it fails.
    pub open spec fn inclusion(self, outcome: SubmitOutcome, at: Moment) -> Result<
        Inclusion,
        WorkloadError,
    > {
        match outcome {
            SubmitOutcome::TimedOut => Err(WorkloadError::InclusionTimedOut { id: self.id }),
            SubmitOutcome::Failed => Err(WorkloadError::SubmissionFailed { id: self.id }),
            SubmitOutcome::Included { block, index_count } => if index_count != 1 {
                Err(WorkloadError::UnexpectedIndexCount { id: self.id, got: index_count })
            } else {
                Ok(Inclusion { submission: self, block, included: at })
            },
        }
    }

    /// Takes in how a submission ended.
    pub fn settle(self, outcome: SubmitOutcome, at: Moment) -> (r: Result<
        Inclusion,
        WorkloadError,
    >)
        ensures
            r == self.inclusion(outcome, at),
    {
        match outcome {
            SubmitOutcome::TimedOut => Err(WorkloadError::InclusionTimedOut { id: self.id }),
            SubmitOutcome::Failed => Err(WorkloadError::SubmissionFailed { id: self.id }),
            SubmitOutcome::Included { block, index_count } => if index_count != 1 {
                Err(WorkloadError::UnexpectedIndexCount { id: self.id, got: index_count })
            } else {
                Ok(Inclusion { submission: self, block, included: at })
            },
        }
    }
}

impl Inclusion {
    /// The sample of a transaction whose block was sequenced.
    pub open spec fn measured(self, at: Moment) -> CommonEvalSample {
        CommonEvalSample {
            id: self.submission.id,
            submitter: self.submission.submitter,
            payload_bytes: self.submission.payload_bytes,
            submitted_at_ms: self.submission.submitted.unix_ms,
            included_at_ms: self.included.unix_ms,
            sequenced_at_ms: at.unix_ms,
            included_block: self.block,
            included_round: self.block.round,
            inclusion_latency: time_between(self.submission.submitted, self.included),
            sequencing_after_inclusion: time_between(self.included, at),
            end_to_end_latency: time_between(self.submission.submitted, at),
        }
    }

    /// What becomes of an inclusion: its block is sequenced, or it fails.
    pub open spec fn sample(self, outcome: StatusOutcome, at: Moment) -> Result<
        CommonEvalSample,
        WorkloadError,
    > {
        let id = self.submission.id;
        match outcome {
            StatusOutcome::TimedOut => Err(
                WorkloadError::SequencingTimedOut { id, block: self.block },
            ),
            StatusOutcome::ChannelClosed => Err(
                WorkloadError::StatusChannelClosed { id, block: self.block },
            ),
            StatusOutcome::GarbageCollected(block) => Err(
                WorkloadError::GarbageCollected { id, block },
            ),
            StatusOutcome::Sequenced(block) => if block != self.block {
                Err(
                    WorkloadError::SequencedElsewhere {
                        id,
                        included: self.block,
                        sequenced: block,
                    },
                )
            } else {
                Ok(self.measured(at))
            },
        }
    }

    /// Takes in how waiting for the inclusion block ended.
    pub fn settle(self, outcome: StatusOutcome, at: Moment) -> (r: Result<
        CommonEvalSample,
        WorkloadError,
    >)
        ensures
            r == self.sample(outcome, at),
    {
        let id: u64 = self.submission.id;
        match outcome {
            StatusOutcome::TimedOut => Err(
                WorkloadError::SequencingTimedOut { id, block: self.block },
            ),
            StatusOutcome::ChannelClosed => Err(
                WorkloadError::StatusChannelClosed { id, block: self.block },
            ),
            StatusOutcome::GarbageCollected(block) => Err(
                WorkloadError::GarbageCollected { id, block },
            ),
            StatusOutcome::Sequenced(block) => if !order::same(&block, &self.block) {
                Err(
                    WorkloadError::SequencedElsewhere {
                        id,
                        included: self.block,
                        sequenced: block,
                    },
                )
            } else {
                Ok(
                    CommonEvalSample {
                        id,
                        submitter: self.submission.submitter,
                        payload_bytes: self.submission.payload_bytes,
                        submitted_at_ms: self.submission.submitted.unix_ms,
                        included_at_ms: self.included.unix_ms,
                        sequenced_at_ms: at.unix_ms,
                        included_block: self.block,
                        included_round: self.block.round,
                        inclusion_latency: elapsed_between(
                            &self.submission.submitted,
                            &self.included,
                        ),
                        sequencing_after_inclusion: elapsed_between(&self.included, &at),
                        end_to_end_latency: elapsed_between(&self.submission.submitted, &at),
                    },
                )
            },
        }
    }
}

/// The item behind all that do not come after it.
pub open spec fn insert_by<T>(s: Seq<T>, x: T, key: spec_fn(T) -> int) -> Seq<T>
    decreases s.len(),
{
    if s.len() == 0 || key(s.last()) <= key(x) {
        s.push(x)
    } else {
        insert_by(s.drop_last(), x, key).push(s.last())
    }
}

/// The items in ascending order of their keys; those with equal keys stay in
/// the order in which they came.
pub open spec fn sort_by<T>(s: Seq<T>, key: spec_fn(T) -> int) -> Seq<T>
    decreases s.len(),
{
    if s.len() == 0 {
        s
    } else {
        insert_by(sort_by(s.drop_last(), key), s.last(), key)
    }
}

/// Sorting gives the same items, in ascending order of their keys.
pub proof fn sorting_orders<T>(s: Seq<T>, key: spec_fn(T) -> int)
    ensures
        sort_by(s, key).to_multiset() =~= s.to_multiset(),
        sort_by(s, key).len() == s.len(),
        forall|i: int, j: int|
            0 <= i < j < s.len() ==> key(#[trigger] sort_by(s, key)[i]) <= key(
                #[trigger] sort_by(s, key)[j],
            ),
    decreases s.len(),
{
    if s.len() > 0 {
        let rest = s.drop_last();
        sorting_orders(rest, key);
        lemma_insert_by(sort_by(rest, key), s.last(), key);
        assert(s =~= rest.push(s.last()));
        vstd::seq_lib::to_multiset_build(rest, s.last());
    }
}

proof fn lemma_insert_by<T>(s: Seq<T>, x: T, key: spec_fn(T) -> int)
    requires
        forall|i: int, j: int| 0 <= i < j < s.len() ==> key(#[trigger] s[i]) <= key(#[trigger] s[j]),
    ensures
        insert_by(s, x, key).to_multiset() =~= s.to_multiset().insert(x),
        insert_by(s, x, key).len() == s.len() + 1,
        forall|i: int, j: int|
            0 <= i < j < s.len() + 1 ==> key(#[trigger] insert_by(s, x, key)[i]) <= key(
                #[trigger] insert_by(s, x, key)[j],
            ),
        forall|i: int|
            0 <= i < s.len() + 1 ==> (#[trigger] insert_by(s, x, key)[i] == x || s.contains(
                insert_by(s, x, key)[i],
            )),
    decreases s.len(),
{
    let r = insert_by(s, x, key);
    if s.len() == 0 || key(s.last()) <= key(x) {
        vstd::seq_lib::to_multiset_build(s, x);
        assert forall|i: int, j: int| 0 <= i < j < s.len() + 1 implies key(#[trigger] r[i]) <= key(
            #[trigger] r[j],
        ) by {
            if j == s.len() {
                assert(r[i] == s[i]);
                assert(i == s.len() - 1 || key(s[i]) <= key(s[s.len() - 1]));
            } else {
                assert(r[i] == s[i] && r[j] == s[j]);
            }
        }
        assert forall|i: int| 0 <= i < s.len() + 1 implies (#[trigger] r[i] == x || s.contains(
            r[i],
        )) by {
            if i < s.len() {
                assert(r[i] == s[i]);
            }
        }
    } else {
        let rest = s.drop_last();
        let t = insert_by(rest, x, key);
        assert forall|i: int, j: int| 0 <= i < j < rest.len() implies key(#[trigger] rest[i]) <= key(
            #[trigger] rest[j],
        ) by {
            assert(rest[i] == s[i] && rest[j] == s[j]);
        }
        lemma_insert_by(rest, x, key);
        vstd::seq_lib::to_multiset_build(t, s.last());
        vstd::seq_lib::to_multiset_build(rest, s.last());
        assert(s =~= rest.push(s.last()));
        assert forall|i: int| 0 <= i < s.len() + 1 implies (#[trigger] r[i] == x || s.contains(
            r[i],
        )) by {
            if i < t.len() {
                assert(r[i] == t[i]);
                if t[i] != x {
                    let k = choose|k: int| 0 <= k < rest.len() && rest[k] == t[i];
                    assert(s[k] == r[i]);
                }
            } else {
                assert(r[i] == s[s.len() - 1]);
            }
        }
        assert forall|i: int, j: int| 0 <= i < j < s.len() + 1 implies key(#[trigger] r[i]) <= key(
            #[trigger] r[j],
        ) by {
            if j < t.len() {
                assert(r[i] == t[i] && r[j] == t[j]);
            } else {
                assert(r[i] == t[i]);
                if t[i] != x {
                    let k = choose|k: int| 0 <= k < rest.len() && rest[k] == t[i];
                    assert(rest[k] == s[k]);
                    assert(key(s[k]) <= key(s[s.len() - 1]));
                }
            }
        }
    }
}

/// Inserting where the later items come after the new one, and the one before
/// does not.
proof fn lemma_insert_at<T>(s: Seq<T>, x: T, key: spec_fn(T) -> int, k: int)
    requires
        0 <= k <= s.len(),
        forall|j: int| k <= j < s.len() ==> key(#[trigger] s[j]) > key(x),
        k == 0 || key(s[k - 1]) <= key(x),
    ensures
        insert_by(s, x, key) == s.insert(k, x),
    decreases s.len(),
{
    if k < s.len() {
        let rest = s.drop_last();
        assert forall|j: int| k <= j < rest.len() implies key(#[trigger] rest[j]) > key(x) by {
            assert(rest[j] == s[j]);
        }
        assert(key(s[s.len() - 1]) > key(x));
        lemma_insert_at(rest, x, key, k);
        assert(s.insert(k, x) =~= rest.insert(k, x).push(s.last()));
    } else {
        assert(s.insert(k, x) =~= s.push(x));
    }
}

/// The samples in ascending order of their transactions.
pub open spec fn by_id(samples: Seq<CommonEvalSample>) -> Seq<CommonEvalSample> {
    sort_by(samples, |s: CommonEvalSample| s.id as int)
}

/// The samples of some results, up to the first error.
pub open spec fn samples_of(results: Seq<Result<CommonEvalSample, WorkloadError>>) -> Seq<
    CommonEvalSample,
> {
    results.map_values(|r: Result<CommonEvalSample, WorkloadError>| r->Ok_0)
}

/// The samples in ascending order of their transactions, or the first error.
pub fn collect_samples(results: Vec<Result<CommonEvalSample, WorkloadError>>) -> (r: Result<
    Vec<CommonEvalSample>,
    WorkloadError,
>)
    ensures
        match r {
            Ok(samples) => {
                &&& forall|i: int| 0 <= i < results@.len() ==> (#[trigger] results@[i]) is Ok
                &&& samples@ == by_id(samples_of(results@))
            },
            Err(e) => exists|i: int|
                0 <= i < results@.len() && (#[trigger] results@[i]) == Err::<
                    CommonEvalSample,
                    WorkloadError,
                >(e) && forall|j: int| 0 <= j < i ==> (#[trigger] results@[j]) is Ok,
        },
{
    let ghost all = samples_of(results@);
    let ghost key = |s: CommonEvalSample| s.id as int;
    let mut samples: Vec<CommonEvalSample> = Vec::new();
    let mut i: usize = 0;
    proof {
        seqs::lemma_take_ends(all);
        assert(samples@ =~= sort_by(all.take(0), key));
    }
    while i < results.len()
        invariant
            i <= results@.len(),
            all == samples_of(results@),
            key == (|s: CommonEvalSample| s.id as int),
            forall|j: int| 0 <= j < i ==> (#[trigger] results@[j]) is Ok,
            samples@ == sort_by(all.take(i as int), key),
        decreases results@.len() - i,
    {
        match &results[i] {
            Ok(sample) => {
                let mut k: usize = samples.len();
                while k > 0 && samples[k - 1].id > sample.id
                    invariant
                        k <= samples@.len(),
                        forall|j: int|
                            k <= j < samples@.len() ==> (#[trigger] samples@[j]).id > sample.id,
                    decreases k,
                {
                    k -= 1;
                }
                proof {
                    seqs::lemma_take_next(all, i as int);
                    lemma_insert_at(samples@, *sample, key, k as int);
                }
                samples.insert(k, *sample);
            },
            Err(e) => {
                assert(results@[i as int] == Err::<CommonEvalSample, WorkloadError>(*e));
                return Err(*e);
            },
        }
        i += 1;
    }
    proof {
        seqs::lemma_take_ends(all);
    }
    Ok(samples)
}

/// The inclusion blocks of some samples, each with its submitter.
pub open spec fn inclusion_blocks(samples: Seq<CommonEvalSample>) -> Set<(usize, BlockRef)> {
    samples.map_values(|s: CommonEvalSample| (s.submitter, s.included_block)).to_set()
}

/// The inclusion blocks of some samples, each with its submitter, once and in
/// ascending order.
pub fn unique_inclusion_blocks(samples: &[CommonEvalSample]) -> (r: Vec<(usize, BlockRef)>)
    ensures
        r@ == order::sorted(inclusion_blocks(samples@)),
        r@.to_set() == inclusion_blocks(samples@),
        r@.no_duplicates(),
{
    let ghost pairs = samples@.map_values(|s: CommonEvalSample| (s.submitter, s.included_block));
    let mut blocks: SortedSet<(usize, BlockRef)> = SortedSet::new();
    let mut i: usize = 0;
    proof {
        seqs::lemma_take_ends(pairs);
        assert(blocks@ =~= pairs.take(0).to_set());
    }
    while i < samples.len()
        invariant
            i <= samples@.len(),
            pairs == samples@.map_values(
                |s: CommonEvalSample| (s.submitter, s.included_block),
            ),
            blocks@ == pairs.take(i as int).to_set(),
        decreases samples@.len() - i,
    {
        proof {
            seqs::lemma_take_next(pairs, i as int);
        }
        blocks.insert((samples[i].submitter, samples[i].included_block));
        i += 1;
        assert(blocks@ =~= pairs.take(i as int).to_set());
    }
    proof {
        seqs::lemma_take_ends(pairs);
    }
    blocks.to_vec()
}

/// The sum of some numbers.
pub open spec fn sum(numbers: Seq<usize>) -> nat
    decreases numbers.len(),
{
    if numbers.len() == 0 {
        0
    } else {
        sum(numbers.drop_last()) + numbers.last() as nat
    }
}

/// The bytes of all inclusion blocks together, where the number is not too
/// large.
pub fn inclusion_block_bytes(lengths: &[usize]) -> (r: Option<usize>)
    ensures
        match r {
            Some(total) => total as nat == sum(lengths@),
            None => sum(lengths@) > usize::MAX,
        },
{
    let mut total: usize = 0;
    let mut i: usize = 0;
    proof {
        seqs::lemma_take_ends(lengths@);
    }
    while i < lengths.len()
        invariant
            i <= lengths@.len(),
            total as nat == sum(lengths@.take(i as int)),
        decreases lengths@.len() - i,
    {
        proof {
            seqs::lemma_take_next(lengths@, i as int);
        }
        match total.checked_add(lengths[i]) {
            Some(more) => {
                total = more;
            },
            None => {
                proof {
                    lemma_sum_prefix(lengths@, i + 1);
                }
                return None;
            },
        }
        i += 1;
    }
    proof {
        seqs::lemma_take_ends(lengths@);
    }
    Some(total)
}

proof fn lemma_sum_prefix(numbers: Seq<usize>, i: int)
    requires
        0 <= i <= numbers.len(),
    ensures
        sum(numbers.take(i)) <= sum(numbers),
    decreases numbers.len() - i,
{
    if i == numbers.len() {
        seqs::lemma_take_ends(numbers);
    } else {
        seqs::lemma_take_next(numbers, i);
        lemma_sum_prefix(numbers, i + 1);
    }
}

/// The durations in ascending order.
pub open spec fn in_order(durations: Seq<u64>) -> Seq<u64> {
    sort_by(durations, |d: u64| d as int)
}

/// The place in ascending order that a percentile asks for, given the number of
/// durations that it covers, rounded up: the last of those covered, or the first
/// of all where it covers none.
pub open spec fn percentile_rank(covered: nat, count: nat) -> int {
    if covered == 0 {
        0
    } else if covered > count {
        count - 1
    } else {
        covered - 1
    }
}

/// The duration at a percentile, given the number of durations that it covers,
/// rounded up. No durations have none.
pub fn duration_percentile(durations: &[u64], covered: usize) -> (r: Option<u64>)
    ensures
        match r {
            Some(d) => {
                &&& durations@.len() > 0
                &&& d == in_order(durations@)[percentile_rank(covered as nat, durations@.len())]
            },
            None => durations@.len() == 0,
        },
{
    let ghost key = |d: u64| d as int;
    let mut ordered: Vec<u64> = Vec::new();
    let mut i: usize = 0;
    proof {
        seqs::lemma_take_ends(durations@);
        assert(ordered@ =~= sort_by(durations@.take(0), key));
    }
    while i < durations.len()
        invariant
            i <= durations@.len(),
            key == (|d: u64| d as int),
            ordered@ == sort_by(durations@.take(i as int), key),
        decreases durations@.len() - i,
    {
        let duration: u64 = durations[i];
        let mut k: usize = ordered.len();
        while k > 0 && ordered[k - 1] > duration
            invariant
                k <= ordered@.len(),
                forall|j: int| k <= j < ordered@.len() ==> #[trigger] ordered@[j] > duration,
            decreases k,
        {
            k -= 1;
        }
        proof {
            seqs::lemma_take_next(durations@, i as int);
            lemma_insert_at(ordered@, duration, key, k as int);
        }
        ordered.insert(k, duration);
        i += 1;
    }
    proof {
        seqs::lemma_take_ends(durations@);
        sorting_orders(durations@, key);
    }
    if ordered.len() == 0 {
        return None;
    }
    let rank: usize = if covered == 0 {
        0
    } else if covered > ordered.len() {
        ordered.len() - 1
    } else {
        covered - 1
    };
    Some(ordered[rank])
}

impl CommonEvalReport {
    /// The report on samples whose inclusion blocks have the given lengths.
    pub fn new(
        samples: Vec<CommonEvalSample>,
        elapsed: u64,
        block_lengths: &[usize],
    ) -> (r: Option<Self>)
        ensures
            r is Some <==> sum(block_lengths@) <= usize::MAX,
            r matches Some(report) ==> {
                &&& report.samples == samples
                &&& report.elapsed == elapsed
                &&& report.unique_inclusion_blocks as nat == inclusion_blocks(samples@).len()
                &&& report.inclusion_block_bytes as nat == sum(block_lengths@)
            },
    {
        let blocks = unique_inclusion_blocks(samples.as_slice());
        proof {
            blocks@.unique_seq_to_set();
        }
        match inclusion_block_bytes(block_lengths) {
            Some(total) => Some(
                CommonEvalReport {
                    samples,
                    elapsed,
                    unique_inclusion_blocks: blocks.len(),
                    inclusion_block_bytes: total,
                },
            ),
            None => None,
        }
    }

    pub fn tx_count(&self) -> (r: usize)
        ensures
            r == self.samples@.len(),
    {
        self.samples.len()
    }

    /// The inclusion latency at a percentile.
    pub fn inclusion_percentile(&self, covered: usize) -> (r: Option<u64>)
        ensures
            match r {
                Some(d) => {
                    let latencies = self.samples@.map_values(
                        |s: CommonEvalSample| s.inclusion_latency,
                    );
                    &&& self.samples@.len() > 0
                    &&& d == in_order(latencies)[percentile_rank(
                        covered as nat,
                        self.samples@.len(),
                    )]
                },
                None => self.samples@.len() == 0,
            },
    {
        let ghost goal = self.samples@.map_values(|s: CommonEvalSample| s.inclusion_latency);
        let mut latencies: Vec<u64> = Vec::new();
        let mut i: usize = 0;
        while i < self.samples.len()
            invariant
                i <= self.samples@.len(),
                goal == self.samples@.map_values(|s: CommonEvalSample| s.inclusion_latency),
                latencies@ == goal.take(i as int),
            decreases self.samples@.len() - i,
        {
            latencies.push(self.samples[i].inclusion_latency);
            i += 1;
            assert(latencies@ =~= goal.take(i as int));
        }
        assert(latencies@ =~= goal);
        duration_percentile(latencies.as_slice(), covered)
    }

    /// The time from submission to sequencing at a percentile.
    pub fn end_to_end_percentile(&self, covered: usize) -> (r: Option<u64>)
        ensures
            match r {
                Some(d) => {
                    let latencies = self.samples@.map_values(
                        |s: CommonEvalSample| s.end_to_end_latency,
                    );
                    &&& self.samples@.len() > 0
                    &&& d == in_order(latencies)[percentile_rank(
                        covered as nat,
                        self.samples@.len(),
                    )]
                },
                None => self.samples@.len() == 0,
            },
    {
        let ghost goal = self.samples@.map_values(|s: CommonEvalSample| s.end_to_end_latency);
        let mut latencies: Vec<u64> = Vec::new();
        let mut i: usize = 0;
        while i < self.samples.len()
            invariant
                i <= self.samples@.len(),
                goal == self.samples@.map_values(|s: CommonEvalSample| s.end_to_end_latency),
                latencies@ == goal.take(i as int),
            decreases self.samples@.len() - i,
        {
            latencies.push(self.samples[i].end_to_end_latency);
            i += 1;
            assert(latencies@ =~= goal.take(i as int));
        }
        assert(latencies@ =~= goal);
        duration_percentile(latencies.as_slice(), covered)
    }

    /// Every transaction was measured, in a block after the first round.
    pub open spec fn sane(self, expected_transactions: nat) -> bool {
        &&& self.samples@.len() == expected_transactions
        &&& self.unique_inclusion_blocks > 0
        &&& self.inclusion_block_bytes > 0
        &&& forall|i: int| 0 <= i < self.samples@.len() ==> (#[trigger] self.samples@[i]).included_round > 0
    }

    /// Whether every transaction was measured, in a block after the first round.
    pub fn is_sane(&self, expected_transactions: usize) -> (r: bool)
        ensures
            r == self.sane(expected_transactions as nat),
    {
        if self.samples.len() != expected_transactions || self.unique_inclusion_blocks == 0
            || self.inclusion_block_bytes == 0 {
            return false;
        }
        let mut i: usize = 0;
        while i < self.samples.len()
            invariant
                i <= self.samples@.len(),
                forall|j: int|
                    0 <= j < i ==> (#[trigger] self.samples@[j]).included_round > 0,
            decreases self.samples@.len() - i,
        {
            if self.samples[i].included_round == 0 {
                return false;
            }
            i += 1;
        }
        true
    }
}

/// The observations of all authorities, once each has one.
pub fn all_resolved(observations: &[Option<SnapperResolutionObservation>]) -> (r: Option<
    Vec<SnapperResolutionObservation>,
>)
    ensures
        match r {
            Some(seen) => {
                &&& seen@.len() == observations@.len()
                &&& forall|i: int|
                    0 <= i < seen@.len() ==> #[trigger] observations@[i] == Some(seen@[i])
            },
            None => exists|i: int|
                0 <= i < observations@.len() && (#[trigger] observations@[i]) is None,
        },
{
    let mut seen: Vec<SnapperResolutionObservation> = Vec::new();
    let mut i: usize = 0;
    while i < observations.len()
        invariant
            i <= observations@.len(),
            seen@.len() == i,
            forall|j: int| 0 <= j < i ==> #[trigger] observations@[j] == Some(seen@[j]),
        decreases observations@.len() - i,
    {
        match observations[i] {
            Some(observation) => {
                seen.push(observation);
            },
            None => {
                return None;
            },
        }
        i += 1;
    }
    Some(seen)
}

} // verus!
