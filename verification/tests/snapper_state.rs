use snapper::block::Transaction;
use snapper::envelope::SnapperTransactionEnvelope;
use snapper::keys::{
    AuthorityIndex, SnapperObjectKey, SnapperTransactionId, SNAPPER_OBJECT_ID_LENGTH,
};
use snapper::protocol::{
    SnapperBottomVoteKind, SnapperObjectDecision, SnapperObjectStance, SnapperStateError,
};
use snapper::state::SnapperState;

fn object(version: u64) -> SnapperObjectKey {
    SnapperObjectKey { object_id: [7; SNAPPER_OBJECT_ID_LENGTH], version }
}

fn transaction_bytes(inputs: Vec<SnapperObjectKey>, seed: u8) -> Vec<u8> {
    SnapperTransactionEnvelope::new(inputs, vec![seed; 16]).encode()
}

fn id(tag: u8) -> SnapperTransactionId {
    SnapperTransactionId([tag; 32])
}

#[test]
fn envelope_round_trip() {
    let object = object(3);
    let envelope = SnapperTransactionEnvelope::new(vec![object], vec![1, 2, 3]);
    let encoded = envelope.encode();

    assert_eq!(SnapperTransactionEnvelope::decode(&encoded), Some(envelope));
    assert!(SnapperTransactionEnvelope::decode(b"ordinary transaction").is_none());
}

#[test]
fn ack_then_bottom_is_unlock_vote() {
    let authority = AuthorityIndex(0);
    let mut state = SnapperState::new(authority);
    let object = object(0);
    let bytes = transaction_bytes(vec![object], 1);
    let tx = state.record_transaction(&bytes).unwrap();

    state.apply_own_stance(object, SnapperObjectStance::Transaction(tx)).unwrap();
    state.apply_own_stance(object, SnapperObjectStance::Bottom).unwrap();

    assert_eq!(
        state.bottom_vote_kind(authority, &object),
        Some(SnapperBottomVoteKind::Unlock)
    );
}

#[test]
fn bottom_without_ack_is_skip_vote() {
    let authority = AuthorityIndex(0);
    let mut state = SnapperState::new(authority);
    let object = object(0);

    state.apply_own_stance(object, SnapperObjectStance::Bottom).unwrap();

    assert_eq!(
        state.bottom_vote_kind(authority, &object),
        Some(SnapperBottomVoteKind::Skip)
    );
}

#[test]
fn recovery_closes_over_sibling_inputs() {
    let authority = AuthorityIndex(0);
    let mut state = SnapperState::new(authority);
    let o0 = object(0);
    let o1 = object(1);

    let tx0 = state.record_transaction(&transaction_bytes(vec![o0, o1], 1)).unwrap();
    let tx1 = state.record_transaction(&transaction_bytes(vec![o0], 2)).unwrap();

    assert_ne!(tx0, tx1);

    let recovery = state.current_recovery_objects();
    assert!(recovery.contains(&o0));
    assert!(recovery.contains(&o1));
}

#[test]
fn transaction_decision_is_atomic_across_owned_inputs() {
    let authority = AuthorityIndex(0);
    let mut state = SnapperState::new(authority);
    let o0 = object(0);
    let o1 = object(1);
    let tx = state.record_transaction(&transaction_bytes(vec![o0, o1], 1)).unwrap();

    let changed = state.commit_transaction(tx).unwrap();
    assert_eq!(changed.len(), 2);
    assert_eq!(state.decision(&o0), Some(SnapperObjectDecision::Commit(tx)));
    assert_eq!(state.decision(&o1), Some(SnapperObjectDecision::Commit(tx)));
}

#[test]
fn envelope_has_exact_bytes() {
    let encoded = SnapperTransactionEnvelope::new(vec![object(0x0103)], vec![1, 2, 3]).encode();
    let mut expected = b"SNAP3F1\0".to_vec();
    expected.push(1);
    expected.extend_from_slice(&[7; 32]);
    expected.extend_from_slice(&[3, 1, 0, 0, 0, 0, 0, 0]);
    expected.extend_from_slice(&[3, 1, 2, 3]);
    assert_eq!(encoded, expected);
}

#[test]
fn long_sequences_have_long_lengths() {
    let envelope = SnapperTransactionEnvelope::new(vec![object(1); 130], vec![5; 300]);
    let encoded = envelope.encode();
    assert_eq!(&encoded[8..10], &[0x82, 1]);
    assert_eq!(&encoded[10 + 130 * 40..12 + 130 * 40], &[0xAC, 2]);
    assert_eq!(SnapperTransactionEnvelope::decode(&encoded), Some(envelope));
}

#[test]
fn only_canonical_envelopes_decode() {
    let encoded = SnapperTransactionEnvelope::new(vec![], vec![1]).encode();
    assert_eq!(encoded, b"SNAP3F1\0\0\x01\x01".to_vec());

    let mut trailing = encoded.clone();
    trailing.push(0);
    assert_eq!(SnapperTransactionEnvelope::decode(&trailing), None);

    let mut marked = encoded.clone();
    marked[7] = 1;
    assert_eq!(SnapperTransactionEnvelope::decode(&marked), None);

    assert_eq!(SnapperTransactionEnvelope::decode(&encoded[..10]), None);
    assert_eq!(SnapperTransactionEnvelope::decode(b"SNAP3F1\0\x80\x00\x01\x01"), None);
}

#[test]
fn transaction_id_is_the_digest_of_the_bytes() {
    let empty = [
        0x0e, 0x57, 0x51, 0xc0, 0x26, 0xe5, 0x43, 0xb2, 0xe8, 0xab, 0x2e, 0xb0, 0x60, 0x99, 0xda,
        0xa1, 0xd1, 0xe5, 0xdf, 0x47, 0x77, 0x8f, 0x77, 0x87, 0xfa, 0xab, 0x45, 0xcd, 0xf1, 0x2f,
        0xe3, 0xa8,
    ];
    assert_eq!(SnapperTransactionEnvelope::transaction_id(&[]), SnapperTransactionId(empty));
    assert_eq!(
        SnapperTransactionId::from_transaction_bytes(b"abc"),
        SnapperTransactionEnvelope::transaction_id(b"abc")
    );
    assert_ne!(
        SnapperTransactionId::from_transaction_bytes(b"abc"),
        SnapperTransactionId::from_transaction_bytes(b"abd")
    );
}

#[test]
fn ordinary_transactions_are_ignored() {
    let mut state = SnapperState::new(AuthorityIndex(0));
    assert_eq!(state.record_transaction(b"ordinary transaction"), None);
    assert!(state.transaction_ids().is_empty());
    assert!(state.objects().is_empty());
    assert!(Transaction::new(b"ordinary transaction".to_vec()).metadata().is_none());
}

#[test]
fn recorded_transaction_competes_for_its_inputs() {
    let mut state = SnapperState::new(AuthorityIndex(3));
    let bytes = transaction_bytes(vec![object(2), object(1)], 1);
    let tx = state.record_transaction(&bytes).unwrap();
    assert_eq!(state.own_authority(), AuthorityIndex(3));
    assert_eq!(tx, SnapperTransactionEnvelope::transaction_id(&bytes));
    assert_eq!(state.transaction_ids(), vec![tx]);
    assert_eq!(state.objects(), vec![object(1), object(2)]);
    assert_eq!(state.candidates(&object(1)), vec![tx]);
    assert_eq!(state.candidate_count(&object(3)), 0);
    assert_eq!(state.owned_inputs(tx), Some(&[object(2), object(1)][..]));
    assert_eq!(state.owned_inputs(id(1)), None);
    let transaction = Transaction::new(bytes.clone());
    assert_eq!(transaction.data(), &bytes[..]);
    assert_eq!(transaction.metadata().unwrap().id, tx);
}

#[test]
fn first_recorded_inputs_stay() {
    let mut state = SnapperState::new(AuthorityIndex(0));
    state.record_owned_inputs(id(1), &vec![object(0)], false);
    state.record_owned_inputs(id(1), &vec![object(1)], false);
    assert_eq!(state.owned_inputs(id(1)), Some(&[object(0)][..]));
    assert_eq!(state.candidates(&object(1)), vec![id(1)]);
}

#[test]
fn conflict_takes_two_candidates() {
    let mut state = SnapperState::new(AuthorityIndex(0));
    state.record_candidate(object(0), id(2));
    state.record_candidate(object(0), id(2));
    assert!(!state.is_conflicted(&object(0)));
    state.record_candidate(object(0), id(1));
    assert!(state.is_conflicted(&object(0)));
    assert_eq!(state.candidates(&object(0)), vec![id(1), id(2)]);
}

#[test]
fn stances_move_only_as_honest_validators_may() {
    let own = AuthorityIndex(0);
    let peer = AuthorityIndex(1);
    let mut state = SnapperState::new(own);
    let acks = SnapperObjectStance::Transaction(id(1));
    let other = SnapperObjectStance::Transaction(id(2));

    assert_eq!(state.stance(peer, &object(0)), None);
    assert_eq!(state.apply_stance(peer, object(0), acks), Ok(()));
    assert_eq!(state.apply_stance(peer, object(0), acks), Ok(()));
    assert_eq!(
        state.apply_stance(peer, object(0), other),
        Err(SnapperStateError::IllegalStanceTransition {
            authority: peer,
            object: object(0),
            from: acks,
            to: other,
        })
    );
    assert_eq!(state.candidates(&object(0)), vec![id(1)]);
    assert!(state.previously_acked(peer, &object(0)));
    assert!(!state.previously_acked(own, &object(0)));
    assert_eq!(state.bottom_vote_kind(peer, &object(0)), None);

    assert_eq!(state.apply_stance(peer, object(0), SnapperObjectStance::Bottom), Ok(()));
    assert_eq!(state.apply_stance(peer, object(0), SnapperObjectStance::Bottom), Ok(()));
    assert_eq!(
        state.apply_stance(peer, object(0), acks),
        Err(SnapperStateError::IllegalStanceTransition {
            authority: peer,
            object: object(0),
            from: SnapperObjectStance::Bottom,
            to: acks,
        })
    );
    assert_eq!(state.own_stance(&object(0)), None);
}

#[test]
fn decisions_are_final() {
    let mut state = SnapperState::new(AuthorityIndex(0));
    state.record_owned_inputs(id(1), &vec![object(0), object(1), object(0)], false);
    state.record_owned_inputs(id(2), &vec![object(2), object(1), object(0)], false);
    assert_eq!(
        state.commit_transaction(id(9)),
        Err(SnapperStateError::UnknownTransaction(id(9)))
    );
    assert_eq!(
        state.commit_transaction(id(1)),
        Ok(vec![
            (object(0), SnapperObjectDecision::Commit(id(1))),
            (object(1), SnapperObjectDecision::Commit(id(1))),
        ])
    );
    assert_eq!(state.commit_transaction(id(1)), Ok(vec![]));
    assert!(state.is_transaction_dead(id(2)));
    assert!(!state.can_commit_transaction(id(2)));
    assert_eq!(
        state.commit_transaction(id(2)),
        Err(SnapperStateError::ConflictingDecision {
            object: object(1),
            existing: SnapperObjectDecision::Commit(id(1)),
            new: SnapperObjectDecision::Commit(id(2)),
        })
    );
    assert!(!state.is_resolved(&object(2)));
    assert_eq!(
        state.release_object(object(0)),
        Err(SnapperStateError::ConflictingDecision {
            object: object(0),
            existing: SnapperObjectDecision::Commit(id(1)),
            new: SnapperObjectDecision::Release,
        })
    );
    assert_eq!(
        state.release_object(object(2)),
        Ok(vec![(object(2), SnapperObjectDecision::Release)])
    );
    assert_eq!(state.release_object(object(2)), Ok(vec![]));
    assert_eq!(
        state.decisions(),
        vec![
            (object(0), SnapperObjectDecision::Commit(id(1))),
            (object(1), SnapperObjectDecision::Commit(id(1))),
            (object(2), SnapperObjectDecision::Release),
        ]
    );
}

#[test]
fn unknown_transaction_is_dead() {
    let state = SnapperState::new(AuthorityIndex(0));
    assert!(state.is_transaction_dead(id(1)));
    assert!(!state.can_commit_transaction(id(1)));
}

#[test]
fn dead_candidate_puts_its_objects_in_recovery() {
    let mut state = SnapperState::new(AuthorityIndex(0));
    state.record_owned_inputs(id(1), &vec![object(0), object(1)], false);
    state.record_owned_inputs(id(3), &vec![object(5)], false);
    assert!(state.current_recovery_objects().to_vec().is_empty());
    state.release_object(object(0)).unwrap();
    assert_eq!(state.current_recovery_objects().to_vec(), vec![object(0), object(1)]);
}

#[test]
fn recovery_follows_chains_of_siblings() {
    let mut state = SnapperState::new(AuthorityIndex(0));
    state.record_owned_inputs(id(1), &vec![object(0)], false);
    state.record_owned_inputs(id(2), &vec![object(0), object(1)], false);
    state.record_owned_inputs(id(3), &vec![object(1), object(2)], false);
    state.record_owned_inputs(id(4), &vec![object(4)], false);
    assert_eq!(
        state.current_recovery_objects().to_vec(),
        vec![object(0), object(1), object(2)]
    );
}

#[test]
fn mixed_envelope_has_its_own_marker() {
    let mixed = SnapperTransactionEnvelope::new_mixed(vec![object(1)], vec![4]);
    let plain = SnapperTransactionEnvelope::new(vec![object(1)], vec![4]);
    let bytes = mixed.encode();
    assert_eq!(&bytes[..8], b"SNAP3F1M");
    assert_eq!(&bytes[8..], &plain.encode()[8..]);
    assert!(mixed.mixed);
    assert!(!plain.mixed);
    assert_eq!(SnapperTransactionEnvelope::decode(&plain.encode()), Some(plain));
    assert_eq!(SnapperTransactionEnvelope::decode(&bytes), Some(mixed));
    assert!(Transaction::new(bytes).metadata().unwrap().mixed);
}

#[test]
fn mixed_transactions_are_recorded_as_such() {
    let mut state = SnapperState::new(AuthorityIndex(0));
    let bytes = SnapperTransactionEnvelope::new_mixed(vec![object(1)], vec![4]).encode();
    let mixed = state.record_transaction(&bytes).unwrap();
    let plain = state.record_transaction(&transaction_bytes(vec![object(2)], 1)).unwrap();
    assert!(state.is_mixed(mixed));
    assert!(!state.is_mixed(plain));
    state.record_owned_inputs(plain, &vec![object(2)], true);
    assert!(!state.is_mixed(plain));
    assert!(state.commit_transaction(mixed).is_ok());
}
