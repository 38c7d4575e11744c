use std::time::Duration;

use snapper::evaluation::{
    all_resolved, check_workload, collect_samples, duration_percentile, inclusion_block_bytes,
    opaque_workload, unique_inclusion_blocks, CommonEvalReport, CommonEvalSample, Inclusion,
    Moment, StatusOutcome, Submission, SubmitOutcome, WorkloadError,
};
use snapper::keys::{AuthorityIndex, BlockDigest, BlockRef};
use snapper::protocol::{
    SnapperObjectDecision, SnapperResolutionObservation, SnapperResolutionPath,
};

fn duration_percentile_ms(durations: Vec<Duration>, percentile: f64) -> f64 {
    let nanoseconds = durations.iter().map(|d| d.as_nanos() as u64).collect::<Vec<_>>();
    let covered = (percentile.clamp(0.0, 1.0) * nanoseconds.len() as f64).ceil() as usize;
    duration_percentile(&nanoseconds, covered)
        .map(|d| Duration::from_nanos(d).as_secs_f64() * 1000.0)
        .unwrap_or(0.0)
}

fn block(round: u32, tag: u8) -> BlockRef {
    BlockRef { round, author: AuthorityIndex(0), digest: BlockDigest([tag; 32]) }
}

fn moment(nanoseconds: u64) -> Moment {
    Moment { nanoseconds, unix_ms: 1_000 + nanoseconds }
}

fn submission() -> Submission {
    Submission { id: 7, submitter: 2, payload_bytes: 256, submitted: moment(10) }
}

fn sample(id: u64, submitter: usize, included_block: BlockRef) -> CommonEvalSample {
    let included = Submission { id, submitter, payload_bytes: 16, submitted: moment(0) }
        .settle(SubmitOutcome::Included { block: included_block, index_count: 1 }, moment(id))
        .unwrap();
    included.settle(StatusOutcome::Sequenced(included_block), moment(3 * id)).unwrap()
}

#[test]
fn consensus_eval_percentile_helper() {
    let durations =
        [1, 2, 3, 4, 100].into_iter().map(Duration::from_millis).collect::<Vec<_>>();

    assert_eq!(duration_percentile_ms(durations.clone(), 0.50), 3.0);
    assert_eq!(duration_percentile_ms(durations.clone(), 0.95), 100.0);
    assert_eq!(duration_percentile_ms(durations, 0.99), 100.0);
}

#[test]
fn percentile_edges() {
    assert_eq!(duration_percentile_ms(vec![], 0.5), 0.0);
    assert_eq!(duration_percentile(&[5, 1, 3], 0), Some(1));
    assert_eq!(duration_percentile(&[5, 1, 3], 1), Some(1));
    assert_eq!(duration_percentile(&[5, 1, 3], 2), Some(3));
    assert_eq!(duration_percentile(&[5, 1, 3], 9), Some(5));
}

#[test]
fn workload_has_exact_payloads() {
    let workload = opaque_workload(5, 18, 2);
    assert_eq!(workload.len(), 5);
    assert_eq!(workload[3].id, 3);
    assert_eq!(workload[3].submitter, 1);
    let mut expected = b"CEVAL001".to_vec();
    expected.extend_from_slice(&[3, 0, 0, 0, 0, 0, 0, 0]);
    expected.extend_from_slice(&[93, 94]);
    assert_eq!(workload[3].payload, expected);
    assert_eq!(opaque_workload(5, 18, 2), workload);
}

#[test]
fn workload_bodies_wrap_around() {
    let workload = opaque_workload(300, 16 + 300, 7);
    let payload = &workload[299].payload;
    assert_eq!(&payload[8..10], &[43, 1]);
    for offset in 0..300u64 {
        let expected = 299u64.wrapping_mul(31).wrapping_add(offset) as u8;
        assert_eq!(payload[16 + offset as usize], expected);
    }
    assert_ne!(workload[0].payload, workload[256].payload);
}

#[test]
fn workload_parameters_are_checked() {
    assert_eq!(check_workload(4, 16), Ok(()));
    assert_eq!(check_workload(0, 16), Err(WorkloadError::NoAuthority));
    assert_eq!(check_workload(4, 0), Err(WorkloadError::NothingInFlight));
}

#[test]
fn submission_is_included_as_one_transaction() {
    let included = submission()
        .settle(SubmitOutcome::Included { block: block(3, 1), index_count: 1 }, moment(25));
    assert_eq!(
        included,
        Ok(Inclusion { submission: submission(), block: block(3, 1), included: moment(25) })
    );
    assert_eq!(
        submission()
            .settle(SubmitOutcome::Included { block: block(3, 1), index_count: 2 }, moment(25)),
        Err(WorkloadError::UnexpectedIndexCount { id: 7, got: 2 })
    );
    assert_eq!(
        submission().settle(SubmitOutcome::TimedOut, moment(25)),
        Err(WorkloadError::InclusionTimedOut { id: 7 })
    );
    assert_eq!(
        submission().settle(SubmitOutcome::Failed, moment(25)),
        Err(WorkloadError::SubmissionFailed { id: 7 })
    );
}

#[test]
fn inclusion_is_measured_once_sequenced() {
    let included =
        Inclusion { submission: submission(), block: block(3, 1), included: moment(25) };
    assert_eq!(
        included.settle(StatusOutcome::Sequenced(block(3, 1)), moment(45)),
        Ok(CommonEvalSample {
            id: 7,
            submitter: 2,
            payload_bytes: 256,
            submitted_at_ms: 1_010,
            included_at_ms: 1_025,
            sequenced_at_ms: 1_045,
            included_block: block(3, 1),
            included_round: 3,
            inclusion_latency: 15,
            sequencing_after_inclusion: 20,
            end_to_end_latency: 35,
        })
    );
    assert_eq!(
        included.settle(StatusOutcome::Sequenced(block(3, 2)), moment(45)),
        Err(WorkloadError::SequencedElsewhere {
            id: 7,
            included: block(3, 1),
            sequenced: block(3, 2),
        })
    );
    assert_eq!(
        included.settle(StatusOutcome::GarbageCollected(block(3, 1)), moment(45)),
        Err(WorkloadError::GarbageCollected { id: 7, block: block(3, 1) })
    );
    assert_eq!(
        included.settle(StatusOutcome::TimedOut, moment(45)),
        Err(WorkloadError::SequencingTimedOut { id: 7, block: block(3, 1) })
    );
    assert_eq!(
        included.settle(StatusOutcome::ChannelClosed, moment(45)),
        Err(WorkloadError::StatusChannelClosed { id: 7, block: block(3, 1) })
    );
}

#[test]
fn samples_are_collected_in_order() {
    let samples = collect_samples(vec![
        Ok(sample(2, 0, block(1, 1))),
        Ok(sample(1, 0, block(1, 2))),
        Ok(sample(2, 1, block(1, 3))),
    ])
    .unwrap();
    assert_eq!(
        samples.iter().map(|s| (s.id, s.submitter)).collect::<Vec<_>>(),
        vec![(1, 0), (2, 0), (2, 1)]
    );
    assert_eq!(
        collect_samples(vec![
            Ok(sample(1, 0, block(1, 1))),
            Err(WorkloadError::SubmissionFailed { id: 5 }),
            Err(WorkloadError::NoAuthority),
        ]),
        Err(WorkloadError::SubmissionFailed { id: 5 })
    );
}

#[test]
fn report_counts_blocks_once_per_submitter() {
    let samples = vec![
        sample(1, 0, block(2, 1)),
        sample(2, 0, block(2, 1)),
        sample(3, 1, block(2, 1)),
        sample(4, 0, block(1, 9)),
    ];
    assert_eq!(
        unique_inclusion_blocks(&samples),
        vec![(0, block(1, 9)), (0, block(2, 1)), (1, block(2, 1))]
    );
    let report = CommonEvalReport::new(samples, 500, &[10, 20, 30]).unwrap();
    assert_eq!(report.tx_count(), 4);
    assert_eq!(report.unique_inclusion_blocks, 3);
    assert_eq!(report.inclusion_block_bytes, 60);
    assert_eq!(report.inclusion_percentile(2), Some(2));
    assert_eq!(report.end_to_end_percentile(4), Some(12));
    assert!(report.is_sane(4));
    assert!(!report.is_sane(5));
    assert_eq!(inclusion_block_bytes(&[usize::MAX, 1]), None);
    assert!(CommonEvalReport::new(vec![], 0, &[usize::MAX, 1]).is_none());
}

#[test]
fn block_of_the_first_round_is_not_sane() {
    let report = CommonEvalReport::new(vec![sample(1, 0, block(0, 1))], 500, &[10]).unwrap();
    assert!(!report.is_sane(1));
}

#[test]
fn resolution_takes_every_authority() {
    let seen = SnapperResolutionObservation {
        decision: SnapperObjectDecision::Release,
        path: SnapperResolutionPath::CommittedAnchor,
        round: 4,
        timestamp_ms: 9,
    };
    assert_eq!(all_resolved(&[Some(seen), None]), None);
    assert_eq!(all_resolved(&[Some(seen), Some(seen)]), Some(vec![seen, seen]));
    assert_eq!(all_resolved(&[]), Some(vec![]));
}
