//! What the figures of the evaluation are.
use vstd::prelude::*;

use crate::bytes;
use crate::evaluation;
use crate::evaluation::{
    CommonEvalReport, CommonEvalSample, Inclusion, Moment, StatusOutcome, Submission,
    SubmitOutcome, WorkloadError,
};
use crate::keys::BlockRef;
use crate::seqs;

verus! {

proof fn lemma_filter_pushed<T>(s: Seq<T>, x: T, p: spec_fn(T) -> bool)
    ensures
        s.push(x).filter(p) == (if p(x) {
            s.filter(p).push(x)
        } else {
            s.filter(p)
        }),
{
    reveal(Seq::filter);
    assert(s.push(x).drop_last() =~= s);
}

proof fn lemma_filter_len_inserted<T>(
    s: Seq<T>,
    x: T,
    key: spec_fn(T) -> int,
    p: spec_fn(T) -> bool,
)
    ensures
        evaluation::insert_by(s, x, key).filter(p).len() == s.filter(p).len() + (if p(x) {
            1int
        } else {
            0int
        }),
    decreases s.len(),
{
    if s.len() == 0 || key(s.last()) <= key(x) {
        lemma_filter_pushed(s, x, p);
    } else {
        let rest = s.drop_last();
        lemma_filter_len_inserted(rest, x, key, p);
        lemma_filter_pushed(evaluation::insert_by(rest, x, key), s.last(), p);
        lemma_filter_pushed(rest, s.last(), p);
        assert(rest.push(s.last()) =~= s);
    }
}

/// Sorting keeps how many items are of a kind.
proof fn lemma_filter_len_sorted<T>(s: Seq<T>, key: spec_fn(T) -> int, p: spec_fn(T) -> bool)
    ensures
        evaluation::sort_by(s, key).filter(p).len() == s.filter(p).len(),
    decreases s.len(),
{
    if s.len() > 0 {
        let rest = s.drop_last();
        lemma_filter_len_sorted(rest, key, p);
        lemma_filter_len_inserted(evaluation::sort_by(rest, key), s.last(), key, p);
        lemma_filter_pushed(rest, s.last(), p);
        assert(rest.push(s.last()) =~= s);
    }
}

/// What lies before a place bounds how many items are of a kind.
proof fn lemma_filter_len_bounds<T>(s: Seq<T>, p: spec_fn(T) -> bool, k: int, i: int)
    requires
        0 <= i <= s.len(),
        0 <= k <= s.len(),
    ensures
        (forall|j: int| k <= j < s.len() ==> !p(#[trigger] s[j])) ==> s.take(i).filter(p).len() <= k,
        (forall|j: int| 0 <= j < k ==> p(#[trigger] s[j])) && i >= k ==> s.take(i).filter(p).len()
            >= k,
        s.take(i).filter(p).len() <= i,
        (forall|j: int| 0 <= j < k ==> p(#[trigger] s[j])) && i <= k ==> s.take(i).filter(p).len()
            == i,
    decreases i,
{
    if i == 0 {
        seqs::lemma_filter_empty(s, p);
    } else {
        lemma_filter_len_bounds(s, p, k, i - 1);
        seqs::lemma_filter_next(s, i - 1, p);
    }
}

/// The duration at a percentile that covers some of the durations, but not more
/// than there are, is the smallest that so many do not exceed: fewer than the
/// covered ones are less, and no fewer than the covered ones are no greater.
pub proof fn percentile_covers(durations: Seq<u64>, covered: nat, d: u64)
    requires
        1 <= covered <= durations.len(),
        d == evaluation::in_order(durations)[evaluation::percentile_rank(
            covered,
            durations.len(),
        )],
    ensures
        durations.contains(d),
        durations.filter(|x: u64| x < d).len() < covered,
        durations.filter(|x: u64| x <= d).len() >= covered,
{
    let key = |x: u64| x as int;
    let s = evaluation::in_order(durations);
    let k = covered - 1;
    evaluation::sorting_orders(durations, key);
    assert(s[k] == d);
    let less = |x: u64| x < d;
    let fits = |x: u64| x <= d;
    lemma_filter_len_sorted(durations, key, less);
    lemma_filter_len_sorted(durations, key, fits);
    seqs::lemma_take_ends(s);
    assert forall|j: int| k <= j < s.len() implies !less(#[trigger] s[j]) by {
        if k < j {
            assert(key(s[k]) <= key(s[j]));
        }
    }
    lemma_filter_len_bounds(s, less, k, s.len() as int);
    assert forall|j: int| 0 <= j < k + 1 implies fits(#[trigger] s[j]) by {
        if j < k {
            assert(key(s[j]) <= key(s[k]));
        }
    }
    lemma_filter_len_bounds(s, fits, k + 1, s.len() as int);
    lemma_sorted_holds(durations, key, d);
}

/// Sorting keeps the items.
proof fn lemma_sorted_holds<T>(s: Seq<T>, key: spec_fn(T) -> int, x: T)
    ensures
        evaluation::sort_by(s, key).contains(x) <==> s.contains(x),
{
    let p = |y: T| y == x;
    lemma_filter_len_sorted(s, key, p);
    lemma_holds_filter(s, x);
    lemma_holds_filter(evaluation::sort_by(s, key), x);
}

proof fn lemma_holds_filter<T>(s: Seq<T>, x: T)
    ensures
        s.contains(x) <==> s.filter(|y: T| y == x).len() > 0,
{
    let p = |y: T| y == x;
    seqs::lemma_filter_members(s, p, x);
    let f = s.filter(p);
    if f.len() > 0 {
        assert(f.contains(f[0]));
        seqs::lemma_filter_members(s, p, f[0]);
    }
}

/// A percentile that covers nothing gives the smallest duration, and one that
/// covers more than there are gives the greatest.
pub proof fn percentile_at_the_ends(durations: Seq<u64>, covered: nat, d: u64, x: u64)
    requires
        durations.len() > 0,
        durations.contains(x),
        d == evaluation::in_order(durations)[evaluation::percentile_rank(
            covered,
            durations.len(),
        )],
    ensures
        durations.contains(d),
        covered == 0 ==> d <= x,
        covered >= durations.len() ==> x <= d,
{
    let key = |y: u64| y as int;
    let s = evaluation::in_order(durations);
    evaluation::sorting_orders(durations, key);
    lemma_sorted_holds(durations, key, x);
    lemma_sorted_holds(durations, key, d);
    let i = choose|i: int| 0 <= i < s.len() && s[i] == x;
    let k = evaluation::percentile_rank(covered, durations.len());
    assert(s[k] == d);
    assert(s.contains(s[k]));
    if covered == 0 && i != 0 {
        assert(key(s[0]) <= key(s[i]));
    }
    if covered >= durations.len() && i != s.len() - 1 {
        assert(key(s[i]) <= key(s[s.len() - 1]));
    }
}

proof fn lemma_insert_stable<T>(s: Seq<T>, x: T, key: spec_fn(T) -> int, k: int)
    requires
        forall|i: int, j: int| 0 <= i < j < s.len() ==> key(#[trigger] s[i]) <= key(#[trigger] s[j]),
    ensures
        evaluation::insert_by(s, x, key).filter(|y: T| key(y) == k) == s.push(x).filter(
            |y: T| key(y) == k,
        ),
    decreases s.len(),
{
    let p = |y: T| key(y) == k;
    if !(s.len() == 0 || key(s.last()) <= key(x)) {
        let rest = s.drop_last();
        assert forall|i: int, j: int| 0 <= i < j < rest.len() implies key(#[trigger] rest[i])
            <= key(#[trigger] rest[j]) by {
            assert(rest[i] == s[i] && rest[j] == s[j]);
        }
        lemma_insert_stable(rest, x, key, k);
        lemma_filter_pushed(evaluation::insert_by(rest, x, key), s.last(), p);
        lemma_filter_pushed(rest, x, p);
        lemma_filter_pushed(rest, s.last(), p);
        lemma_filter_pushed(s, x, p);
        assert(rest.push(s.last()) =~= s);
    }
}

/// Sorting keeps, of each key, the items with it in the order in which they
/// came.
pub proof fn sorting_is_stable<T>(s: Seq<T>, key: spec_fn(T) -> int, k: int)
    ensures
        evaluation::sort_by(s, key).filter(|y: T| key(y) == k) == s.filter(|y: T| key(y) == k),
    decreases s.len(),
{
    if s.len() > 0 {
        let rest = s.drop_last();
        let p = |y: T| key(y) == k;
        sorting_is_stable(rest, key, k);
        evaluation::sorting_orders(rest, key);
        lemma_insert_stable(evaluation::sort_by(rest, key), s.last(), key, k);
        lemma_filter_pushed(evaluation::sort_by(rest, key), s.last(), p);
        lemma_filter_pushed(rest, s.last(), p);
        assert(rest.push(s.last()) =~= s);
    }
}

/// The collected samples are those of the results, in ascending order of their
/// transactions; those of one transaction are in the order in which they came.
pub proof fn samples_are_in_order(samples: Seq<CommonEvalSample>, id: u64, i: int, j: int)
    ensures
        evaluation::by_id(samples).len() == samples.len(),
        evaluation::by_id(samples).filter(|s: CommonEvalSample| s.id == id) == samples.filter(
            |s: CommonEvalSample| s.id == id,
        ),
        0 <= i < j < samples.len() ==> evaluation::by_id(samples)[i].id <= evaluation::by_id(
            samples,
        )[j].id,
{
    let key = |s: CommonEvalSample| s.id as int;
    evaluation::sorting_orders(samples, key);
    sorting_is_stable(samples, key, id as int);
    let a = |s: CommonEvalSample| key(s) == id as int;
    let b = |s: CommonEvalSample| s.id == id;
    lemma_filters_agree(samples, a, b);
    lemma_filters_agree(evaluation::by_id(samples), a, b);
    if 0 <= i < j < samples.len() {
        assert(key(evaluation::sort_by(samples, key)[i]) <= key(
            evaluation::sort_by(samples, key)[j],
        ));
    }
}

proof fn lemma_filters_agree<T>(s: Seq<T>, a: spec_fn(T) -> bool, b: spec_fn(T) -> bool)
    requires
        forall|x: T| #[trigger] a(x) == b(x),
    ensures
        s.filter(a) == s.filter(b),
    decreases s.len(),
{
    reveal(Seq::filter);
    if s.len() > 0 {
        lemma_filters_agree(s.drop_last(), a, b);
        assert(a(s.last()) == b(s.last()));
    }
}

/// An opaque payload is the eight letters `CEVAL001`, the index, and a body that
/// counts up from thirty-one times the index.
pub proof fn opaque_payload_is_laid_out(index: u64, length: nat, k: int)
    requires
        length >= 16,
    ensures
        ({
            let p = evaluation::opaque_payload(index as nat, length);
            &&& p.len() == length
            &&& p.take(8) == seq![67u8, 69u8, 86u8, 65u8, 76u8, 48u8, 48u8, 49u8]
            &&& bytes::le_value(p.subrange(8, 16)) == index
            &&& 16 <= k < length ==> (p[k] as int - (31 * index + (k - 16))) % 256 == 0
        }),
{
    let p = evaluation::opaque_payload(index as nat, length);
    bytes::lemma_byte_ranges();
    bytes::lemma_le_bytes_len(index as nat, 8);
    bytes::lemma_le_value_of_bytes(index as nat, 8);
    assert(p.subrange(8, 16) =~= bytes::le_bytes(index as nat, 8));
    assert(p.take(8) =~= seq![67u8, 69u8, 86u8, 65u8, 76u8, 48u8, 48u8, 49u8]);
    if 16 <= k < length {
        let x = index * 31 + (k - 16);
        assert(p[k] as int == x % 256);
        assert((x % 256 - x) % 256 == 0);
        assert(31 * index == index * 31);
    }
}

/// A submission becomes an inclusion exactly where a block includes it as one
/// transaction; otherwise the error tells what came instead.
pub proof fn submission_is_included_once(s: Submission, outcome: SubmitOutcome, at: Moment)
    ensures
        match s.inclusion(outcome, at) {
            Ok(i) => {
                &&& outcome == (SubmitOutcome::Included { block: i.block, index_count: 1 })
                &&& i.submission == s
                &&& i.included == at
            },
            Err(WorkloadError::UnexpectedIndexCount { id, got }) => {
                &&& outcome matches SubmitOutcome::Included { block, index_count }
                &&& index_count == got
                &&& got != 1
                &&& id == s.id
            },
            Err(WorkloadError::InclusionTimedOut { id }) => outcome == SubmitOutcome::TimedOut && id
                == s.id,
            Err(WorkloadError::SubmissionFailed { id }) => outcome == SubmitOutcome::Failed && id
                == s.id,
            Err(_) => false,
        },
{
}

/// An inclusion is measured exactly where its own block is sequenced; otherwise
/// the error tells what came instead.
pub proof fn inclusion_is_measured_in_its_block(i: Inclusion, outcome: StatusOutcome, at: Moment)
    ensures
        match i.sample(outcome, at) {
            Ok(s) => {
                &&& outcome == StatusOutcome::Sequenced(i.block)
                &&& s.id == i.submission.id
                &&& s.submitter == i.submission.submitter
                &&& s.payload_bytes == i.submission.payload_bytes
                &&& s.included_block == i.block
                &&& s.included_round == i.block.round
                &&& s.submitted_at_ms == i.submission.submitted.unix_ms
                &&& s.included_at_ms == i.included.unix_ms
                &&& s.sequenced_at_ms == at.unix_ms
            },
            Err(WorkloadError::SequencedElsewhere { id, included, sequenced }) => {
                &&& outcome == StatusOutcome::Sequenced(sequenced)
                &&& sequenced != i.block
                &&& included == i.block
                &&& id == i.submission.id
            },
            Err(WorkloadError::GarbageCollected { id, block }) => outcome
                == StatusOutcome::GarbageCollected(block) && id == i.submission.id,
            Err(WorkloadError::SequencingTimedOut { id, block }) => outcome
                == StatusOutcome::TimedOut && block == i.block && id == i.submission.id,
            Err(WorkloadError::StatusChannelClosed { id, block }) => outcome
                == StatusOutcome::ChannelClosed && block == i.block && id == i.submission.id,
            Err(_) => false,
        },
{
}

/// Where the clock does not go back, the time to inclusion and the time from
/// inclusion to sequencing make the time from end to end, and each leads from
/// its first moment to its second.
pub proof fn latencies_add_up(i: Inclusion, at: Moment)
    requires
        i.submission.submitted.nanoseconds <= i.included.nanoseconds <= at.nanoseconds,
    ensures
        ({
            let s = i.measured(at);
            &&& i.submission.submitted.nanoseconds + s.inclusion_latency == i.included.nanoseconds
            &&& i.included.nanoseconds + s.sequencing_after_inclusion == at.nanoseconds
            &&& s.inclusion_latency + s.sequencing_after_inclusion == s.end_to_end_latency
        }),
{
}

/// The inclusion blocks are those of the samples, with their submitters.
pub proof fn inclusion_blocks_are_of_samples(
    samples: Seq<CommonEvalSample>,
    submitter: usize,
    block: BlockRef,
)
    ensures
        evaluation::inclusion_blocks(samples).contains((submitter, block)) <==> exists|i: int|
            0 <= i < samples.len() && (#[trigger] samples[i]).submitter == submitter
                && samples[i].included_block == block,
{
    let pairs = samples.map_values(|s: CommonEvalSample| (s.submitter, s.included_block));
    if pairs.contains((submitter, block)) {
        let i = choose|i: int| 0 <= i < pairs.len() && pairs[i] == (submitter, block);
        assert(samples[i].submitter == submitter);
    }
    if exists|i: int|
        0 <= i < samples.len() && (#[trigger] samples[i]).submitter == submitter
            && samples[i].included_block == block {
        let i = choose|i: int|
            0 <= i < samples.len() && (#[trigger] samples[i]).submitter == submitter
                && samples[i].included_block == block;
        assert(pairs[i] == (submitter, block));
    }
}

/// A sum is that of its parts, and of one number it is the number.
pub proof fn sums_add_up(a: Seq<usize>, b: Seq<usize>, x: usize)
    ensures
        evaluation::sum(a + b) == evaluation::sum(a) + evaluation::sum(b),
        evaluation::sum(seq![x]) == x,
    decreases b.len(),
{
    reveal_with_fuel(evaluation::sum, 2);
    assert(seq![x].drop_last() =~= Seq::<usize>::empty());
    if b.len() == 0 {
        assert(a + b =~= a);
    } else {
        sums_add_up(a, b.drop_last(), x);
        assert((a + b).drop_last() =~= a + b.drop_last());
    }
}

/// A report that is sane has as many samples as transactions, in blocks after
/// the first round, and bytes in some block.
pub proof fn sane_report_is_complete(report: CommonEvalReport, expected: nat, i: int)
    ensures
        report.sane(expected) && 0 <= i < report.samples@.len()
            ==> report.samples@[i].included_round > 0,
        report.sane(expected) ==> report.samples@.len() == expected
            && report.unique_inclusion_blocks > 0 && report.inclusion_block_bytes > 0,
        report.samples@.len() == expected && report.unique_inclusion_blocks > 0
            && report.inclusion_block_bytes > 0 && (forall|j: int|
            0 <= j < report.samples@.len() ==> (#[trigger] report.samples@[j]).included_round > 0)
            ==> report.sane(expected),
{
}

/// The samples of some results are read one by one.
pub proof fn samples_are_read_one_by_one(
    results: Seq<Result<CommonEvalSample, WorkloadError>>,
    i: int,
    s: CommonEvalSample,
)
    requires
        0 <= i < results.len(),
        results[i] == Ok::<CommonEvalSample, WorkloadError>(s),
    ensures
        evaluation::samples_of(results).len() == results.len(),
        evaluation::samples_of(results)[i] == s,
{
}

} // verus!
