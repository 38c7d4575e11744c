use snapper::block::{
    Block, BlockTransactionVotes, SnapperMetadata, Transaction, VerifiedBlock,
};
use snapper::committee::{Committee, StakeAggregator};
use snapper::cuttlefish_exchange::commit_contains_payload;
use snapper::envelope::SnapperTransactionEnvelope;
use snapper::keys::{
    AuthorityIndex, BlockDigest, BlockRef, Round, SnapperObjectKey, SnapperTransactionId,
    SNAPPER_OBJECT_ID_LENGTH,
};
use snapper::protocol::{
    SnapperBottomVoteKind, SnapperObjectDecision, SnapperObjectStance, SnapperObjectStanceVote,
};
use snapper::transaction_vote_tracker::TransactionVoteTracker;
use snapper::vote_tracker::VoteTrackerState;

fn committee() -> Committee {
    Committee::new(vec![1; 4]).unwrap()
}

fn new_state() -> VoteTrackerState {
    VoteTrackerState::new(AuthorityIndex(0), committee())
}

fn object(tag: u8) -> SnapperObjectKey {
    SnapperObjectKey { object_id: [tag; SNAPPER_OBJECT_ID_LENGTH], version: 0 }
}

fn transaction(object: SnapperObjectKey, seed: u8) -> Transaction {
    Transaction::new(SnapperTransactionEnvelope::new(vec![object], vec![seed; 16]).encode())
}

fn transaction_id(transaction: &Transaction) -> SnapperTransactionId {
    SnapperTransactionEnvelope::transaction_id(transaction.data())
}

fn reference(round: Round, author: u32) -> BlockRef {
    let mut digest = [0; 32];
    digest[0] = round as u8;
    digest[1] = author as u8;
    BlockRef { round, author: AuthorityIndex(author), digest: BlockDigest(digest) }
}

fn block_with_votes(
    round: Round,
    author: u32,
    ancestors: Vec<BlockRef>,
    transactions: Vec<Transaction>,
    transaction_votes: Vec<BlockTransactionVotes>,
    stance_votes: Vec<SnapperObjectStanceVote>,
) -> VerifiedBlock {
    let block = Block {
        reference: reference(round, author),
        ancestors,
        transactions,
        transaction_votes,
        snapper_object_stance_votes: stance_votes,
    };
    VerifiedBlock::new(block, &committee()).unwrap()
}

fn block(
    round: Round,
    author: u32,
    parents: &[VerifiedBlock],
    transactions: Vec<Transaction>,
    stance_votes: Vec<SnapperObjectStanceVote>,
) -> VerifiedBlock {
    let ancestors = parents.iter().map(|block| block.reference()).collect();
    block_with_votes(round, author, ancestors, transactions, vec![], stance_votes)
}

fn add_and_process(state: &mut VoteTrackerState, blocks: &[VerifiedBlock]) {
    state.add_voted_blocks(blocks.iter().map(|block| (block.clone(), vec![])).collect());
    let refs = blocks.iter().map(|block| block.reference()).collect::<Vec<_>>();
    state.process_snapper_blocks(&refs);
}

fn own_rejects(state: &VoteTrackerState, block: &VerifiedBlock) -> Vec<u16> {
    state
        .get_own_votes(&[block.reference()])
        .into_iter()
        .flat_map(|votes| votes.rejects)
        .collect()
}

// 4 authorities with stakes [1, 2, 3, 4], total 10.
#[test]
fn test_reject_vote_tracking() {
    let committee = Committee::new(vec![1, 2, 3, 4]).unwrap();
    let transactions = || (0..4).map(|_| Transaction::new(vec![0u8; 16])).collect::<Vec<_>>();

    // Round 1: create a block from each authority.
    let round_1_blocks: Vec<VerifiedBlock> =
        (0..4).map(|author| block(1, author, &[], transactions(), vec![])).collect();

    // Add round 1 blocks with own reject votes:
    // - reject txn 0 of block from authority 0
    // - reject txns 1 and 2 of block from authority 1
    // - no rejects for blocks from authorities 2 and 3
    let mut state = VoteTrackerState::new(AuthorityIndex(0), committee);
    state.add_voted_blocks(vec![
        (round_1_blocks[0].clone(), vec![0]),
        (round_1_blocks[1].clone(), vec![1, 2]),
        (round_1_blocks[2].clone(), vec![]),
        (round_1_blocks[3].clone(), vec![]),
    ]);

    // Verify own reject votes are stored correctly.
    assert_eq!(own_rejects(&state, &round_1_blocks[0]), vec![0]);
    assert_eq!(own_rejects(&state, &round_1_blocks[1]), vec![1, 2]);
    assert!(own_rejects(&state, &round_1_blocks[2]).is_empty());

    // No reject votes have been aggregated yet (round 1 blocks have no transaction_votes).
    assert!(state.get_reject_votes(&round_1_blocks[0].reference()).unwrap().is_empty());
    assert!(state.get_reject_votes(&round_1_blocks[1].reference()).unwrap().is_empty());

    // Round 2: authorities 0, 1, 2 create blocks that reject transactions in round 1 blocks.
    let ancestors: Vec<BlockRef> = round_1_blocks.iter().map(|b| b.reference()).collect();

    // Authority 0 (stake 1) rejects txn 0 of block[0] and txn 1 of block[1].
    let block_r2_a0 = block_with_votes(
        2,
        0,
        ancestors.clone(),
        transactions(),
        vec![
            BlockTransactionVotes { block_ref: round_1_blocks[0].reference(), rejects: vec![0] },
            BlockTransactionVotes { block_ref: round_1_blocks[1].reference(), rejects: vec![1] },
        ],
        vec![],
    );

    // Authority 1 (stake 2) rejects txn 0 of block[0] and txns 1,2 of block[1].
    let block_r2_a1 = block_with_votes(
        2,
        1,
        ancestors.clone(),
        transactions(),
        vec![
            BlockTransactionVotes { block_ref: round_1_blocks[0].reference(), rejects: vec![0] },
            BlockTransactionVotes { block_ref: round_1_blocks[1].reference(), rejects: vec![1, 2] },
        ],
        vec![],
    );

    // Authority 2 (stake 3) rejects txn 2 of block[1] only.
    let block_r2_a2 = block_with_votes(
        2,
        2,
        ancestors.clone(),
        transactions(),
        vec![BlockTransactionVotes {
            block_ref: round_1_blocks[1].reference(),
            rejects: vec![2],
        }],
        vec![],
    );

    state.add_voted_blocks(vec![
        (block_r2_a0, vec![]),
        (block_r2_a1, vec![]),
        (block_r2_a2, vec![]),
    ]);

    // Verify aggregated reject votes for block[0]:
    // txn 0: authority 0 (stake 1) + authority 1 (stake 2) = 3
    let reject_votes_0 = state.get_reject_votes(&round_1_blocks[0].reference()).unwrap();
    assert_eq!(reject_votes_0.len(), 1);
    assert_eq!(reject_votes_0, vec![(0, 3)]);

    // Verify aggregated reject votes for block[1]:
    // txn 1: authority 0 (stake 1) + authority 1 (stake 2) = 3
    // txn 2: authority 1 (stake 2) + authority 2 (stake 3) = 5
    let reject_votes_1 = state.get_reject_votes(&round_1_blocks[1].reference()).unwrap();
    assert_eq!(reject_votes_1.len(), 2);
    assert_eq!(reject_votes_1[0], (1, 3));
    assert_eq!(reject_votes_1[1], (2, 5));

    // block[2] and block[3] have no reject votes from others.
    assert!(state.get_reject_votes(&round_1_blocks[2].reference()).unwrap().is_empty());
}

#[test]
fn snapper_fast_commit_requires_quorum_of_certificate_blocks() {
    let mut state = new_state();
    let object = object(1);
    let tx = transaction(object, 1);
    let tx_id = transaction_id(&tx);

    let r1 = vec![
        block(1, 0, &[], vec![tx], vec![]),
        block(1, 1, &[], vec![], vec![]),
        block(1, 2, &[], vec![], vec![]),
        block(1, 3, &[], vec![], vec![]),
    ];

    let ack = SnapperObjectStanceVote { object, stance: SnapperObjectStance::Transaction(tx_id) };
    let r2 = (0..4).map(|author| block(2, author, &r1, vec![], vec![ack])).collect::<Vec<_>>();
    let r3 = (0..4).map(|author| block(3, author, &r2, vec![], vec![])).collect::<Vec<_>>();

    let all = r1.iter().chain(&r2).chain(&r3).cloned().collect::<Vec<_>>();
    add_and_process(&mut state, &all);

    let decisions = state.try_fast_decisions();
    assert_eq!(
        state.snapper_state().decision(&object),
        Some(SnapperObjectDecision::Commit(tx_id))
    );
    assert!(!decisions.is_empty());
}

#[test]
fn two_certificate_blocks_do_not_commit() {
    let mut state = new_state();
    let object = object(1);
    let tx = transaction(object, 1);
    let tx_id = transaction_id(&tx);
    let r1 = vec![block(1, 0, &[], vec![tx], vec![])];
    let ack = SnapperObjectStanceVote { object, stance: SnapperObjectStance::Transaction(tx_id) };
    let r2 = (0..4).map(|author| block(2, author, &r1, vec![], vec![ack])).collect::<Vec<_>>();
    let r3 = (0..2).map(|author| block(3, author, &r2, vec![], vec![])).collect::<Vec<_>>();
    let all = r1.iter().chain(&r2).chain(&r3).cloned().collect::<Vec<_>>();
    add_and_process(&mut state, &all);
    assert!(state.graph().is_fast_cert(state.snapper_state(), r3[0].reference(), tx_id));
    assert!(state.graph().has_cert(state.snapper_state(), r3[1].reference(), tx_id));
    assert!(!state.graph().is_fast_cert(state.snapper_state(), r2[0].reference(), tx_id));
    assert!(state.try_fast_decisions().is_empty());
    assert_eq!(state.snapper_decision(&object), None);
}

#[test]
fn snapper_fast_skip_releases_object() {
    let mut state = new_state();
    let object = object(2);
    let tx0 = transaction(object, 1);
    let tx1 = transaction(object, 2);

    let r1 = vec![
        block(1, 0, &[], vec![tx0], vec![]),
        block(1, 1, &[], vec![tx1], vec![]),
        block(1, 2, &[], vec![], vec![]),
        block(1, 3, &[], vec![], vec![]),
    ];
    let bottom = SnapperObjectStanceVote { object, stance: SnapperObjectStance::Bottom };
    let r2 = (0..4).map(|author| block(2, author, &r1, vec![], vec![bottom])).collect::<Vec<_>>();
    let r3 = (0..4).map(|author| block(3, author, &r2, vec![], vec![])).collect::<Vec<_>>();

    let all = r1.iter().chain(&r2).chain(&r3).cloned().collect::<Vec<_>>();
    add_and_process(&mut state, &all);

    state.try_fast_decisions();
    assert_eq!(
        state.snapper_state().decision(&object),
        Some(SnapperObjectDecision::Release)
    );
}

#[test]
fn committed_anchor_prioritizes_hidden_tx_certificate_over_unlock_certificate() {
    let mut state = new_state();
    let object = object(3);
    let tx0 = transaction(object, 1);
    let tx1 = transaction(object, 2);
    let tx0_id = transaction_id(&tx0);

    let r1 = vec![
        block(1, 0, &[], vec![tx0], vec![]),
        block(1, 1, &[], vec![], vec![]),
        block(1, 2, &[], vec![], vec![]),
        block(1, 3, &[], vec![], vec![]),
    ];

    let ack = SnapperObjectStanceVote { object, stance: SnapperObjectStance::Transaction(tx0_id) };
    let bottom = SnapperObjectStanceVote { object, stance: SnapperObjectStance::Bottom };

    let r2a = block(2, 0, &r1, vec![], vec![ack]);
    let r2b = block(2, 1, &r1, vec![], vec![ack]);
    let r2c = block(2, 2, &r1, vec![], vec![ack]);
    let r2d = block(2, 3, &r1, vec![tx1], vec![bottom]);

    // A3 sees only the three ACKing round-2 blocks and therefore forms a
    // transaction certificate for tx0.
    let r3a = block(3, 0, &[r2a.clone(), r2b.clone(), r2c.clone()], vec![], vec![]);

    // B3 and C3 saw the conflict after ACKing tx0, so Bottom is an unlock
    // vote. D3 remains a skip vote.
    let r3b = block(3, 1, &[r2b.clone(), r2c.clone(), r2d.clone()], vec![], vec![bottom]);
    let r3c = block(3, 2, &[r2c.clone(), r2b.clone(), r2d.clone()], vec![], vec![bottom]);
    let r3d = block(3, 3, &[r2d.clone(), r2b.clone(), r2c.clone()], vec![], vec![]);

    // U4 sees B3,C3,D3: two unlocks plus one skip form an unlock
    // certificate, but U4 does not see A3's transaction certificate.
    let r4u = block(4, 3, &[r3b.clone(), r3c.clone(), r3d.clone()], vec![], vec![]);
    let r4a = block(4, 0, &[r3a.clone(), r3b.clone(), r3c.clone()], vec![], vec![]);
    let r4b = block(4, 1, &[r3a.clone(), r3b.clone(), r3c.clone()], vec![], vec![]);

    let anchor = block(5, 0, &[r4a.clone(), r4b.clone(), r4u.clone()], vec![], vec![]);

    let kinds = [r3b.reference(), r3c.reference(), r3d.reference()];
    let all = r1
        .iter()
        .cloned()
        .chain([r2a, r2b, r2c, r2d])
        .chain([r3a.clone(), r3b, r3c, r3d])
        .chain([r4u.clone(), r4a, r4b])
        .chain([anchor.clone()])
        .collect::<Vec<_>>();
    add_and_process(&mut state, &all);

    assert!(state.graph().is_fast_cert(state.snapper_state(), r3a.reference(), tx0_id));
    assert!(state.graph().is_unlock_cert(r4u.reference(), &object));
    assert!(!state.graph().is_skip_cert(r4u.reference(), &object));
    assert_eq!(
        kinds.map(|r| state.graph().bottom_vote_kind_at(r, &object)),
        [
            Some(SnapperBottomVoteKind::Unlock),
            Some(SnapperBottomVoteKind::Unlock),
            Some(SnapperBottomVoteKind::Skip),
        ]
    );

    state.resolve_snapper_committed_anchor(anchor.reference(), &all);
    assert_eq!(
        state.snapper_state().decision(&object),
        Some(SnapperObjectDecision::Commit(tx0_id))
    );
}

#[test]
fn committed_anchor_releases_on_unlock_when_no_tx_certificate_exists() {
    let mut state = new_state();
    let object = object(4);
    let tx0 = transaction(object, 1);
    let tx1 = transaction(object, 2);
    let tx0_id = transaction_id(&tx0);

    let r1a = block(1, 0, &[], vec![tx0], vec![]);
    let r1b = block(1, 1, &[], vec![], vec![]);
    let r1c = block(1, 2, &[], vec![], vec![]);
    let r1d = block(1, 3, &[], vec![tx1], vec![]);

    let ack = SnapperObjectStanceVote { object, stance: SnapperObjectStance::Transaction(tx0_id) };
    let bottom = SnapperObjectStanceVote { object, stance: SnapperObjectStance::Bottom };

    let r2a = block(2, 0, &[r1a.clone(), r1b.clone(), r1c.clone()], vec![], vec![ack]);
    let r2b = block(2, 1, &[r1a.clone(), r1b.clone(), r1c.clone()], vec![], vec![ack]);
    let r2c = block(2, 2, &[r1a.clone(), r1c.clone(), r1d.clone()], vec![], vec![bottom]);
    let r2d = block(2, 3, &[r1a.clone(), r1c.clone(), r1d.clone()], vec![], vec![bottom]);

    let r3a = block(3, 0, &[r2a.clone(), r2c.clone(), r2d.clone()], vec![], vec![bottom]);
    let r3b = block(3, 1, &[r2b.clone(), r2c.clone(), r2d.clone()], vec![], vec![bottom]);
    let r3c = block(3, 2, &[r2a.clone(), r2c.clone(), r2d.clone()], vec![], vec![]);

    let unlock_cert = block(4, 0, &[r3a.clone(), r3b.clone(), r3c.clone()], vec![], vec![]);
    let anchor = block(5, 0, &[unlock_cert.clone()], vec![], vec![]);

    let all = [
        r1a,
        r1b,
        r1c,
        r1d,
        r2a,
        r2b,
        r2c,
        r2d,
        r3a,
        r3b,
        r3c,
        unlock_cert.clone(),
        anchor.clone(),
    ];
    add_and_process(&mut state, &all);

    assert!(state.graph().is_unlock_cert(unlock_cert.reference(), &object));
    assert!(!state.graph().has_cert(state.snapper_state(), anchor.reference(), tx0_id));

    state.resolve_snapper_committed_anchor(anchor.reference(), &all);
    assert_eq!(
        state.snapper_state().decision(&object),
        Some(SnapperObjectDecision::Release)
    );
}

#[test]
fn committed_anchor_finalizes_outside_recovery() {
    let mut tracker = TransactionVoteTracker::new(AuthorityIndex(0), committee());
    let object = object(5);
    let tx = transaction(object, 1);
    let tx_id = transaction_id(&tx);
    let r1 = vec![block(1, 0, &[], vec![tx], vec![])];
    let ack = SnapperObjectStanceVote { object, stance: SnapperObjectStance::Transaction(tx_id) };
    let r2 = (0..3).map(|author| block(2, author, &r1, vec![], vec![ack])).collect::<Vec<_>>();
    let r3 = block(3, 0, &r2, vec![], vec![]);
    let blocks = [r1[0].clone(), r2[0].clone(), r2[1].clone(), r2[2].clone(), r3.clone()];
    assert_eq!(
        tracker.resolve_snapper_committed_anchor(r3.reference(), &blocks),
        vec![(object, SnapperObjectDecision::Commit(tx_id))]
    );
    assert_eq!(
        tracker.snapper_decision(&object),
        Some(SnapperObjectDecision::Commit(tx_id))
    );
    assert!(tracker.resolve_snapper_committed_anchor(r3.reference(), &blocks).is_empty());
}

#[test]
fn uncontested_transaction_is_acknowledged() {
    let mut tracker = TransactionVoteTracker::new(AuthorityIndex(0), committee());
    let object = object(6);
    let tx = transaction(object, 1);
    let tx_id = transaction_id(&tx);
    let r1 = block(1, 1, &[], vec![tx], vec![]);
    tracker.add_voted_blocks(vec![(r1.clone(), vec![])]);
    let ack = SnapperObjectStanceVote { object, stance: SnapperObjectStance::Transaction(tx_id) };
    assert_eq!(
        tracker.get_snapper_stance_votes(2, &[r1.reference()], &[r1.reference()], &[]),
        vec![ack]
    );
    assert!(tracker.get_snapper_stance_votes(2, &[r1.reference()], &[], &[]).is_empty());
}

#[test]
fn own_transactions_are_acknowledged_too() {
    let mut tracker = TransactionVoteTracker::new(AuthorityIndex(0), committee());
    let tx = transaction(object(6), 1);
    let ack = SnapperObjectStanceVote {
        object: object(6),
        stance: SnapperObjectStance::Transaction(transaction_id(&tx)),
    };
    assert_eq!(tracker.get_snapper_stance_votes(1, &[], &[], &[tx]), vec![ack]);
}

#[test]
fn conflict_without_visible_certificate_is_abandoned() {
    let mut tracker = TransactionVoteTracker::new(AuthorityIndex(0), committee());
    let object = object(7);
    let tx0 = transaction(object, 1);
    let tx1 = transaction(object, 2);
    let r1 = block(1, 1, &[], vec![tx0], vec![]);
    tracker.add_voted_blocks(vec![(r1.clone(), vec![])]);
    assert_eq!(
        tracker.get_snapper_stance_votes(2, &[r1.reference()], &[r1.reference()], &[]).len(),
        1
    );
    let r2 = block(2, 2, &[r1.clone()], vec![tx1], vec![]);
    tracker.add_voted_blocks(vec![(r2.clone(), vec![])]);
    let bottom = SnapperObjectStanceVote { object, stance: SnapperObjectStance::Bottom };
    assert_eq!(
        tracker.get_snapper_stance_votes(3, &[r2.reference()], &[r2.reference()], &[]),
        vec![bottom]
    );
}

#[test]
fn conflict_with_visible_certificate_is_kept() {
    let mut tracker = TransactionVoteTracker::new(AuthorityIndex(0), committee());
    let object = object(8);
    let tx0 = transaction(object, 1);
    let tx0_id = transaction_id(&tx0);
    let tx1 = transaction(object, 2);
    let ack = SnapperObjectStanceVote { object, stance: SnapperObjectStance::Transaction(tx0_id) };
    let r1 = vec![block(1, 0, &[], vec![tx0], vec![])];
    let r2 = (0..3).map(|author| block(2, author, &r1, vec![], vec![ack])).collect::<Vec<_>>();
    let late = block(2, 3, &r1, vec![tx1], vec![]);
    tracker.add_voted_blocks(
        r1.iter().chain(&r2).chain([&late]).map(|b| (b.clone(), vec![])).collect(),
    );
    let parents = r2.iter().chain([&late]).map(|b| b.reference()).collect::<Vec<_>>();
    assert!(tracker.get_snapper_stance_votes(3, &parents, &[], &[]).is_empty());
}

#[test]
fn block_is_counted_once() {
    let target = block(1, 0, &[], vec![], vec![]);
    let votes = || {
        vec![BlockTransactionVotes { block_ref: target.reference(), rejects: vec![4, 4] }]
    };
    let voter = block_with_votes(2, 1, vec![target.reference()], vec![], votes(), vec![]);
    let mut tracker =
        TransactionVoteTracker::new(AuthorityIndex(0), Committee::new(vec![1, 2, 3, 4]).unwrap());
    assert_eq!(tracker.get_reject_votes(&target.reference()), None);
    tracker.add_voted_blocks(vec![(voter.clone(), vec![3])]);
    tracker.add_voted_blocks(vec![(voter.clone(), vec![5])]);
    assert_eq!(tracker.get_reject_votes(&target.reference()), Some(vec![(4, 2)]));
    let own = tracker.get_own_votes(vec![voter.reference()]);
    assert_eq!(own.len(), 1);
    assert_eq!(own[0].rejects, vec![3]);
}

#[test]
fn garbage_collection_drops_votes_up_to_its_round() {
    let r1 = block(1, 0, &[], vec![], vec![]);
    let r2 = block(2, 0, &[r1.clone()], vec![], vec![]);
    let mut tracker = TransactionVoteTracker::new(AuthorityIndex(0), committee());
    tracker.add_voted_blocks(vec![(r1.clone(), vec![1]), (r2.clone(), vec![2])]);
    tracker.run_gc(1, 3);
    assert_eq!(tracker.get_reject_votes(&r1.reference()), None);
    assert_eq!(tracker.get_reject_votes(&r2.reference()), Some(vec![]));
    tracker.add_voted_blocks(vec![(r1.clone(), vec![1])]);
    assert_eq!(tracker.get_reject_votes(&r1.reference()), None);
    assert_eq!(tracker.first_unknown(&[r1.reference(), r2.reference()]), None);
    assert_eq!(tracker.first_unknown(&[reference(9, 1)]), Some(reference(9, 1)));
    let own = tracker.get_own_votes(vec![r1.reference(), r2.reference()]);
    assert_eq!(own.len(), 1);
    assert_eq!(own[0].block_ref, r2.reference());
}

#[test]
fn recovered_blocks_get_votes_where_needed() {
    let r1 = block(1, 0, &[], vec![], vec![]);
    let r2 = block(2, 0, &[r1.clone()], vec![], vec![]);
    let r3 = block(3, 0, &[r2.clone()], vec![], vec![]);
    let blocks = [r1, r2.clone(), r3.clone()];
    let should_vote = TransactionVoteTracker::blocks_to_vote_on(&blocks, 1, &[r2.reference()]);
    assert_eq!(should_vote, vec![false, false, true]);
    let mut tracker = TransactionVoteTracker::new(AuthorityIndex(0), committee());
    tracker.recover_and_vote_on_blocks(&blocks, &should_vote, &[vec![1], vec![2], vec![3]]);
    let own = tracker.get_own_votes(blocks.iter().map(|b| b.reference()).collect());
    assert_eq!(own.len(), 1);
    assert_eq!(own[0].block_ref, r3.reference());
    assert_eq!(own[0].rejects, vec![3]);
}

#[test]
fn graph_predicates_on_a_small_graph() {
    let mut state = new_state();
    let object = object(9);
    let id = SnapperTransactionId([1; 32]);
    let tx = Transaction::with_metadata(
        vec![9],
        Some(SnapperMetadata { id, mixed: false, owned_inputs: vec![object] }),
    );
    let ack = SnapperObjectStanceVote { object, stance: SnapperObjectStance::Transaction(id) };
    let bottom = SnapperObjectStanceVote { object, stance: SnapperObjectStance::Bottom };
    let r1 = block(1, 1, &[], vec![tx], vec![ack]);
    let r2 = block(2, 1, &[r1.clone()], vec![], vec![]);
    let r3 = block(3, 1, &[r2.clone()], vec![], vec![ack, bottom]);
    state.observe_snapper_blocks(&[r1.clone(), r3.clone(), r2.clone()]);
    let graph = state.graph();
    let snapper = state.snapper_state();
    assert_eq!(
        graph.causal_history_refs(r3.reference()),
        vec![r1.reference(), r2.reference(), r3.reference()]
    );
    assert_eq!(graph.causal_history_refs(reference(7, 2)), vec![reference(7, 2)]);
    assert_eq!(graph.stance_at(r2.reference(), &object), Some(ack.stance));
    assert_eq!(graph.stance_at(r3.reference(), &object), Some(SnapperObjectStance::Bottom));
    assert!(!graph.acked_before(r1.reference(), &object));
    assert!(graph.acked_before(r3.reference(), &object));
    assert!(graph.includes(r3.reference(), id));
    assert_eq!(graph.visible_candidates(r3.reference(), &object).to_vec(), vec![id]);
    assert!(graph.recovery_objects_at(r3.reference()).to_vec().is_empty());
    assert_eq!(graph.owned_inputs_for_tx(snapper, id), Some(vec![object]));
    assert_eq!(graph.round_parents(r3.reference()), vec![r2.reference()]);
    assert!(graph.is_fast_vote(snapper, r2.reference(), id));
    assert!(!graph.is_fast_vote(snapper, r3.reference(), id));
    assert_eq!(graph.bottom_vote_kind_at(r3.reference(), &object), None);
    assert!(commit_contains_payload(&[r2, r1], &[9]));
    assert!(!commit_contains_payload(&[r3], &[9]));
}

#[test]
fn blocks_outside_the_committee_are_refused() {
    let build = |reference: BlockRef, ancestors: Vec<BlockRef>| {
        let block = Block {
            reference,
            ancestors,
            transactions: vec![],
            transaction_votes: vec![],
            snapper_object_stance_votes: vec![],
        };
        VerifiedBlock::new(block, &committee())
    };
    assert!(build(reference(2, 3), vec![reference(1, 3)]).is_some());
    assert!(build(reference(2, 4), vec![]).is_none());
    assert!(build(reference(2, 3), vec![reference(1, 4)]).is_none());
    assert!(build(reference(2, 3), vec![reference(2, 1)]).is_none());
}

#[test]
fn quorum_is_more_than_two_thirds() {
    let committee = Committee::new(vec![1, 2, 3, 4]).unwrap();
    assert_eq!(committee.size(), 4);
    assert_eq!(committee.stake(AuthorityIndex(2)), 3);
    assert!(!committee.reached_quorum(6));
    assert!(committee.reached_quorum(7));
    let mut votes = StakeAggregator::new();
    assert!(votes.add_unique(AuthorityIndex(3), &committee));
    assert!(!votes.add_unique(AuthorityIndex(3), &committee));
    assert_eq!(votes.stake(), 4);
    assert!(!votes.reached_quorum(&committee));
    assert!(votes.add_unique(AuthorityIndex(2), &committee));
    assert!(votes.reached_quorum(&committee));
    assert!(Committee::new(vec![]).is_none());
}

#[test]
fn quorums_share_more_than_the_faulty_stake() {
    let committee = Committee::new(vec![1, 2, 3, 4]).unwrap();
    let stake = |members: u32| {
        let mut votes = StakeAggregator::new();
        for author in 0..4 {
            if members & (1 << author) != 0 {
                votes.add_unique(AuthorityIndex(author), &committee);
            }
        }
        votes.stake()
    };
    for a in 0..16 {
        for b in 0..16 {
            if committee.reached_quorum(stake(a)) && committee.reached_quorum(stake(b)) {
                assert!(stake(a & b) > 3);
            }
        }
        if stake(a) <= 3 {
            assert!(committee.reached_quorum(stake(15 & !a)));
        }
    }
}

#[test]
fn conflicting_certificates_take_equivocation() {
    let mut state = new_state();
    let object = object(10);
    let tx0 = transaction(object, 1);
    let tx1 = transaction(object, 2);
    let ids = [transaction_id(&tx0), transaction_id(&tx1)];
    let r1 = vec![block(1, 0, &[], vec![tx0, tx1], vec![])];
    let second = |author: u32, tag: u8, id: SnapperTransactionId| {
        let mut reference = reference(2, author);
        reference.digest.0[31] = tag;
        let block = Block {
            reference,
            ancestors: vec![r1[0].reference()],
            transactions: vec![],
            transaction_votes: vec![],
            snapper_object_stance_votes: vec![SnapperObjectStanceVote {
                object,
                stance: SnapperObjectStance::Transaction(id),
            }],
        };
        VerifiedBlock::new(block, &committee()).unwrap()
    };
    let first_votes = [0, 1, 2].map(|author| second(author, 0, ids[0]));
    let second_votes = [1, 2, 3].map(|author| second(author, 1, ids[1]));
    let certificates =
        [block(3, 0, &first_votes, vec![], vec![]), block(3, 3, &second_votes, vec![], vec![])];
    let all = r1
        .iter()
        .chain(&first_votes)
        .chain(&second_votes)
        .chain(&certificates)
        .cloned()
        .collect::<Vec<_>>();
    add_and_process(&mut state, &all);
    for (certificate, id) in certificates.iter().zip(ids) {
        assert!(state.graph().is_fast_cert(state.snapper_state(), certificate.reference(), id));
    }
}

#[test]
fn skip_certificates_are_unlock_certificates() {
    let mut state = new_state();
    let object = object(11);
    let r1 = vec![block(1, 0, &[], vec![transaction(object, 1), transaction(object, 2)], vec![])];
    let bottom = SnapperObjectStanceVote { object, stance: SnapperObjectStance::Bottom };
    let r2 = (0..3).map(|author| block(2, author, &r1, vec![], vec![bottom])).collect::<Vec<_>>();
    let r3 = block(3, 0, &r2, vec![], vec![]);
    let all = r1.iter().chain(&r2).chain([&r3]).cloned().collect::<Vec<_>>();
    add_and_process(&mut state, &all);
    assert!(state.graph().is_skip_cert(r3.reference(), &object));
    assert!(state.graph().is_unlock_cert(r3.reference(), &object));
    assert!(state.graph().has_opposing_cert(r3.reference(), &object));
    assert_eq!(state.graph().recovery_objects_at(r3.reference()).to_vec(), vec![object]);
}

#[test]
fn certificate_stays_when_more_is_known() {
    let mut state = new_state();
    let object = object(12);
    let tx = transaction(object, 1);
    let id = transaction_id(&tx);
    let ack = SnapperObjectStanceVote { object, stance: SnapperObjectStance::Transaction(id) };
    let r1 = vec![block(1, 0, &[], vec![tx], vec![])];
    let r2 = (0..3).map(|author| block(2, author, &r1, vec![], vec![ack])).collect::<Vec<_>>();
    let r3 = block(3, 0, &r2, vec![], vec![]);
    let all = r1.iter().chain(&r2).chain([&r3]).cloned().collect::<Vec<_>>();
    add_and_process(&mut state, &all);
    assert!(state.graph().is_fast_cert(state.snapper_state(), r3.reference(), id));
    let late = block(2, 3, &r1, vec![transaction(object, 2)], vec![]);
    add_and_process(&mut state, &[late]);
    assert!(state.graph().is_fast_cert(state.snapper_state(), r3.reference(), id));
    assert!(state.graph().cert_visible(state.snapper_state(), 4, &[r3.reference()], id));
}

#[test]
fn block_taken_in_again_changes_no_stance() {
    let mut state = new_state();
    let object = object(13);
    let tx = transaction(object, 1);
    let ack = SnapperObjectStanceVote {
        object,
        stance: SnapperObjectStance::Transaction(transaction_id(&tx)),
    };
    let bottom = SnapperObjectStanceVote { object, stance: SnapperObjectStance::Bottom };
    let r1 = block(1, 1, &[], vec![tx], vec![ack]);
    let r2 = block(2, 1, &[r1.clone()], vec![], vec![bottom]);
    add_and_process(&mut state, &[r1.clone(), r2.clone()]);
    state.update_gc_round(2);
    state.process_snapper_blocks(&[r1.reference(), r2.reference(), r1.reference()]);
    assert_eq!(
        state.snapper_state().bottom_vote_kind(AuthorityIndex(1), &object),
        Some(SnapperBottomVoteKind::Unlock)
    );
    assert_eq!(state.snapper_state().candidate_count(&object), 1);
}

#[test]
fn peers_come_to_the_declared_stances() {
    let mut tracker = VoteTrackerState::new(AuthorityIndex(0), committee());
    let r1 = block(
        1,
        1,
        &[],
        vec![transaction(object(14), 1), transaction(object(15), 2), transaction(object(15), 3)],
        vec![],
    );
    tracker.add_voted_blocks(vec![(r1.clone(), vec![])]);
    let changes =
        tracker.get_snapper_stance_votes(2, &[r1.reference()], &[r1.reference()], &[]);
    assert_eq!(changes.len(), 2);

    let mut peer = VoteTrackerState::new(AuthorityIndex(1), committee());
    let r2 = block(2, 0, &[r1.clone()], vec![], changes);
    add_and_process(&mut peer, &[r1, r2]);
    for tag in [14, 15] {
        assert_eq!(
            peer.snapper_state().stance(AuthorityIndex(0), &object(tag)),
            tracker.snapper_state().own_stance(&object(tag))
        );
        assert_eq!(peer.snapper_state().own_stance(&object(tag)), None);
    }
    assert_eq!(
        tracker.snapper_state().own_stance(&object(15)),
        Some(SnapperObjectStance::Bottom)
    );
}

#[test]
fn recovery_scans_every_authority() {
    let tracker = TransactionVoteTracker::new(AuthorityIndex(0), committee());
    assert_eq!(
        tracker.recovery_scans(7, true),
        (0..4).map(|author| (AuthorityIndex(author), 8)).collect::<Vec<_>>()
    );
    assert!(tracker.recovery_scans(7, false).is_empty());
    assert_eq!(tracker.gc_round(), 0);
}

#[test]
fn reject_votes_do_not_depend_on_order_or_repeats() {
    let target = block(1, 0, &[], vec![], vec![]);
    let votes = |rejects: Vec<u16>| {
        vec![BlockTransactionVotes { block_ref: target.reference(), rejects }]
    };
    let first = block_with_votes(2, 1, vec![], vec![], votes(vec![7, 2]), vec![]);
    let second = block_with_votes(3, 1, vec![], vec![], votes(vec![2]), vec![]);
    let third = block_with_votes(2, 3, vec![], vec![], votes(vec![2]), vec![]);
    let expected = Some(vec![(2, 6), (7, 2)]);
    for order in [
        vec![&target, &first, &second, &third],
        vec![&third, &second, &third, &first, &target],
        vec![&first, &third, &second],
    ] {
        let mut tracker = TransactionVoteTracker::new(
            AuthorityIndex(0),
            Committee::new(vec![1, 2, 3, 4]).unwrap(),
        );
        for block in order {
            tracker.add_voted_blocks(vec![(block.clone(), vec![])]);
        }
        assert_eq!(tracker.get_reject_votes(&target.reference()), expected);
        assert_eq!(tracker.get_reject_votes(&reference(5, 0)), None);
    }
}

#[test]
fn votes_on_the_first_round_are_dropped() {
    let genesis = reference(0, 2);
    let voter = block_with_votes(
        1,
        1,
        vec![genesis],
        vec![],
        vec![BlockTransactionVotes { block_ref: genesis, rejects: vec![0] }],
        vec![],
    );
    let mut tracker = TransactionVoteTracker::new(AuthorityIndex(0), committee());
    tracker.add_voted_blocks(vec![(voter, vec![])]);
    assert_eq!(tracker.get_reject_votes(&genesis), None);
}

#[test]
fn anchor_releases_once_and_only_what_is_contested() {
    let mut state = new_state();
    let object = object(16);
    let r1 = vec![block(1, 0, &[], vec![transaction(object, 1), transaction(object, 2)], vec![])];
    let bottom = SnapperObjectStanceVote { object, stance: SnapperObjectStance::Bottom };
    let r2 = (0..3).map(|author| block(2, author, &r1, vec![], vec![bottom])).collect::<Vec<_>>();
    let anchor = block(3, 0, &r2, vec![], vec![]);
    let blocks = r1.iter().chain(&r2).chain([&anchor]).cloned().collect::<Vec<_>>();
    assert_eq!(
        state.resolve_snapper_committed_anchor(anchor.reference(), &blocks),
        vec![(object, SnapperObjectDecision::Release)]
    );
    assert!(state.graph().recovery_objects_at(anchor.reference()).contains(&object));
    assert!(state.graph().has_opposing_cert(anchor.reference(), &object));
    assert!(state.resolve_snapper_committed_anchor(anchor.reference(), &blocks).is_empty());
    assert!(state.try_fast_decisions().is_empty());
}

#[test]
fn tracker_admits_blocks_of_its_committee() {
    let tracker =
        TransactionVoteTracker::new(AuthorityIndex(0), Committee::new(vec![1, 1]).unwrap());
    assert!(tracker.admits(&block(1, 1, &[], vec![], vec![])));
    assert!(!tracker.admits(&block(1, 2, &[], vec![], vec![])));
}

#[test]
fn mixed_transaction_is_committed_from_an_anchor_only() {
    let mut state = new_state();
    let object = object(0x71);
    let tx = Transaction::new(
        SnapperTransactionEnvelope::new_mixed(vec![object], vec![0x72; 256]).encode(),
    );
    let id = transaction_id(&tx);
    let ack = SnapperObjectStanceVote { object, stance: SnapperObjectStance::Transaction(id) };
    let r1 = vec![block(1, 0, &[], vec![tx], vec![])];
    let r2 = (0..4).map(|author| block(2, author, &r1, vec![], vec![ack])).collect::<Vec<_>>();
    let r3 = (0..4).map(|author| block(3, author, &r2, vec![], vec![])).collect::<Vec<_>>();
    let all = r1.iter().chain(&r2).chain(&r3).cloned().collect::<Vec<_>>();
    add_and_process(&mut state, &all);

    assert!(state.snapper_state().is_mixed(id));
    assert!(state.graph().commit_certified(state.snapper_state(), 3, id));
    assert!(state.try_fast_decisions().is_empty());
    assert_eq!(state.snapper_decision(&object), None);
    let parents = r3.iter().map(|block| block.reference()).collect::<Vec<_>>();
    state.get_snapper_stance_votes(4, &parents, &[], &[]);
    assert_eq!(state.snapper_decision(&object), None);

    assert_eq!(
        state.resolve_snapper_committed_anchor(r3[0].reference(), &all),
        vec![(object, SnapperObjectDecision::Commit(id))]
    );
    assert_eq!(state.snapper_decision(&object), Some(SnapperObjectDecision::Commit(id)));
}
