use std::collections::BTreeSet;

use snapper::cuttlefish::{
    CuttlefishCertificateId, CuttlefishError, CuttlefishFastUnlockState, CuttlefishObjectKey,
    CuttlefishResolution, CuttlefishUnlockCertificate, CuttlefishUnlockRequest,
    CuttlefishUnlockStatus, CuttlefishUnlockVote,
};
use snapper::cuttlefish_exchange::{
    answer_unlock_request, build_unlock_certificate, commit_contains_payload, encode_frame,
    frame_length, open_unlock_response, read_unlock_response, sign_unlock_vote, unlock_public_key,
    UnlockResponseError,
};
use snapper::cuttlefish_wire::{
    decode_unlock_request, decode_unlock_vote, encode_unlock_request, encode_unlock_vote,
};

fn object(tag: u8, version: u64) -> CuttlefishObjectKey {
    CuttlefishObjectKey { object_id: [tag; 32], version }
}

fn request(object: CuttlefishObjectKey) -> CuttlefishUnlockRequest {
    CuttlefishUnlockRequest { object, auth_transaction: [0xA5; 32] }
}

fn vote(authority: u32, certificate: Option<CuttlefishCertificateId>) -> CuttlefishUnlockVote {
    CuttlefishUnlockVote { request: request(object(9, 1)), certificate, authority }
}

#[test]
fn unlock_vote_disables_fast_path_for_that_version() {
    let object = object(1, 9);
    let request = request(object);
    let mut state = CuttlefishFastUnlockState::new();
    state.set_lock(object, None);

    assert!(state.fast_path_allowed(&object));

    let vote = state
        .process_unlock_request(request, 0, true)
        .expect("authorized unlock request should produce a vote");

    assert_eq!(vote.certificate, None);
    assert_eq!(state.unlock_status(&object), Some(CuttlefishUnlockStatus::Unlocked));
    assert!(!state.fast_path_allowed(&object));
    assert!(state.fast_path_allowed(&object.next_version()));
}

#[test]
fn no_commit_quorum_produces_noop_version_bump() {
    let object = object(2, 17);
    let request = request(object);
    let quorum = 3;

    let mut validators = (0..4)
        .map(|_| {
            let mut state = CuttlefishFastUnlockState::new();
            state.set_lock(object, None);
            state
        })
        .collect::<Vec<_>>();

    let votes = validators
        .iter_mut()
        .enumerate()
        .map(|(authority, state)| {
            state.process_unlock_request(request, authority as u32, true).unwrap()
        })
        .take(quorum)
        .collect::<Vec<_>>();

    let unlock_cert = CuttlefishFastUnlockState::assemble_unlock_certificate(votes, quorum)
        .expect("three matching votes should form UnlockCert");

    assert_eq!(unlock_cert.certificate, None);

    for state in &mut validators {
        let resolution = state
            .process_unlock_certificate(&unlock_cert, quorum)
            .expect("consensus-sequenced UnlockCert should process");

        assert_eq!(
            resolution,
            CuttlefishResolution::NoopVersionBump {
                old_object: object,
                new_object: object.next_version(),
            }
        );
        assert_eq!(state.unlock_status(&object), Some(CuttlefishUnlockStatus::Confirmed));
    }
}

#[test]
fn preexisting_certificate_is_executed_instead_of_noop() {
    let object = object(3, 4);
    let request = request(object);
    let tx_cert = CuttlefishCertificateId([0xC7; 32]);
    let quorum = 3;

    let mut validators = (0..4)
        .map(|_| {
            let mut state = CuttlefishFastUnlockState::new();
            state.set_lock(object, Some(tx_cert));
            state
        })
        .collect::<Vec<_>>();

    let votes = validators
        .iter_mut()
        .enumerate()
        .map(|(authority, state)| {
            state.process_unlock_request(request, authority as u32, true).unwrap()
        })
        .take(quorum)
        .collect::<Vec<_>>();

    let unlock_cert = CuttlefishFastUnlockState::assemble_unlock_certificate(votes, quorum)
        .expect("quorum should form UnlockCert");

    assert_eq!(unlock_cert.certificate, Some(tx_cert));

    let resolution = validators[0]
        .process_unlock_certificate(&unlock_cert, quorum)
        .expect("UnlockCert should process");

    assert_eq!(resolution, CuttlefishResolution::ExecuteCertificate(tx_cert));
}

#[test]
fn unauthenticated_request_does_not_lock_fast_path() {
    let object = object(4, 1);
    let request = request(object);
    let mut state = CuttlefishFastUnlockState::new();
    state.set_lock(object, None);

    assert_eq!(state.process_unlock_request(request, 0, false), None);
    assert!(state.fast_path_allowed(&object));
    assert_eq!(state.unlock_status(&object), None);
}

#[test]
fn duplicate_authority_cannot_count_twice() {
    let object = object(5, 1);
    let request = request(object);

    let vote = CuttlefishUnlockVote { request, certificate: None, authority: 0 };

    let result = CuttlefishFastUnlockState::assemble_unlock_certificate(
        vec![vote, vote, CuttlefishUnlockVote { authority: 1, ..vote }],
        3,
    );

    assert_eq!(result, Err(CuttlefishError::DuplicateAuthority(0)));
}

#[test]
fn unlock_certificate_consensus_encoding_round_trips() {
    let object = object(6, 11);
    let request = request(object);
    let certificate = CuttlefishUnlockCertificate {
        request,
        certificate: Some(CuttlefishCertificateId([0xDD; 32])),
        voters: [0u32, 1, 3].into_iter().collect(),
    };

    let encoded = certificate.encode_consensus_transaction();
    let decoded = CuttlefishUnlockCertificate::decode_consensus_transaction(&encoded)
        .expect("valid encoded UnlockCert should decode");

    assert_eq!(decoded, certificate);

    let mut malformed = encoded.clone();
    malformed.push(0);
    assert_eq!(CuttlefishUnlockCertificate::decode_consensus_transaction(&malformed), None);
}

#[test]
fn unlock_certificate_has_exact_bytes() {
    let certificate = CuttlefishUnlockCertificate {
        request: request(object(6, 0x0102)),
        certificate: None,
        voters: [300u32, 2].into_iter().collect(),
    };
    let mut expected = b"CUTFULK\0".to_vec();
    expected.extend_from_slice(&[6; 32]);
    expected.extend_from_slice(&[2, 1, 0, 0, 0, 0, 0, 0]);
    expected.extend_from_slice(&[0xA5; 32]);
    expected.push(0);
    expected.extend_from_slice(&[2, 0, 0, 0]);
    expected.extend_from_slice(&[2, 0, 0, 0, 44, 1, 0, 0]);
    assert_eq!(certificate.encode_consensus_transaction(), expected);
}

#[test]
fn unlock_certificate_accepts_voters_in_any_order_but_once() {
    let certificate = CuttlefishUnlockCertificate {
        request: request(object(6, 1)),
        certificate: None,
        voters: [1u32, 2].into_iter().collect(),
    };
    let encoded = certificate.encode_consensus_transaction();
    let start = encoded.len() - 8;

    let mut swapped = encoded.clone();
    swapped[start] = 2;
    swapped[start + 4] = 1;
    assert_eq!(
        CuttlefishUnlockCertificate::decode_consensus_transaction(&swapped),
        Some(certificate)
    );

    let mut repeated = encoded.clone();
    repeated[start] = 2;
    assert_eq!(CuttlefishUnlockCertificate::decode_consensus_transaction(&repeated), None);

    for length in 0..encoded.len() {
        assert_eq!(
            CuttlefishUnlockCertificate::decode_consensus_transaction(&encoded[..length]),
            None
        );
    }

    let mut tagged = encoded.clone();
    tagged[80] = 2;
    assert_eq!(CuttlefishUnlockCertificate::decode_consensus_transaction(&tagged), None);

    let mut marked = encoded;
    marked[0] = 0;
    assert_eq!(CuttlefishUnlockCertificate::decode_consensus_transaction(&marked), None);
}

#[test]
fn largest_group_of_votes_wins() {
    let certified = Some(CuttlefishCertificateId([1; 32]));
    let result = CuttlefishFastUnlockState::assemble_unlock_certificate(
        vec![vote(0, certified), vote(1, None), vote(2, None)],
        2,
    )
    .unwrap();
    assert_eq!(result.certificate, None);
    assert_eq!(result.voters, BTreeSet::from([1, 2]));
}

#[test]
fn tie_between_groups_goes_to_the_later_key() {
    let certified = Some(CuttlefishCertificateId([1; 32]));
    let result = CuttlefishFastUnlockState::assemble_unlock_certificate(
        vec![vote(0, certified), vote(1, None)],
        1,
    )
    .unwrap();
    assert_eq!(result.certificate, certified);
    assert_eq!(result.voters, BTreeSet::from([0]));
}

#[test]
fn authority_may_vote_in_two_groups() {
    let certified = Some(CuttlefishCertificateId([1; 32]));
    let result = CuttlefishFastUnlockState::assemble_unlock_certificate(
        vec![vote(0, certified), vote(0, None), vote(1, None)],
        2,
    )
    .unwrap();
    assert_eq!(result.voters, BTreeSet::from([0, 1]));
}

#[test]
fn missing_votes_are_counted() {
    assert_eq!(
        CuttlefishFastUnlockState::assemble_unlock_certificate(vec![], 3),
        Err(CuttlefishError::NotEnoughVotes { got: 0, required: 3 })
    );
    assert_eq!(
        CuttlefishFastUnlockState::assemble_unlock_certificate(vec![], 0),
        Err(CuttlefishError::NotEnoughVotes { got: 0, required: 0 })
    );
    assert_eq!(
        CuttlefishFastUnlockState::assemble_unlock_certificate(vec![vote(0, None), vote(1, None)], 3),
        Err(CuttlefishError::NotEnoughVotes { got: 2, required: 3 })
    );
}

#[test]
fn certificate_without_quorum_is_refused() {
    let mut state = CuttlefishFastUnlockState::new();
    let certificate = CuttlefishUnlockCertificate {
        request: request(object(7, 1)),
        certificate: None,
        voters: BTreeSet::from([0, 1]),
    };
    assert_eq!(
        state.process_unlock_certificate(&certificate, 3),
        Err(CuttlefishError::NotEnoughVotes { got: 2, required: 3 })
    );
    assert!(state.fast_path_allowed(&object(7, 1)));
}

#[test]
fn confirmed_object_is_not_processed_again_until_requested() {
    let target = object(7, 1);
    let mut state = CuttlefishFastUnlockState::default();
    let certificate = CuttlefishUnlockCertificate {
        request: request(target),
        certificate: Some(CuttlefishCertificateId([3; 32])),
        voters: BTreeSet::from([0, 1, 2]),
    };
    assert!(state.process_unlock_certificate(&certificate, 3).is_ok());
    assert_eq!(
        state.process_unlock_certificate(&certificate, 3),
        Err(CuttlefishError::AlreadyConfirmed(target))
    );
    assert!(state.process_unlock_request(request(target), 0, true).is_some());
    assert!(state.process_unlock_certificate(&certificate, 3).is_ok());
}

#[test]
fn request_and_vote_round_trip() {
    let request = request(object(8, 0x0A0B));
    let bytes = encode_unlock_request(&request);
    assert_eq!(bytes.len(), 72);
    assert_eq!(&bytes[32..40], &[0x0B, 0x0A, 0, 0, 0, 0, 0, 0]);
    assert_eq!(decode_unlock_request(&bytes), Some(request));
    assert_eq!(decode_unlock_request(&bytes[1..]), None);

    for certificate in [None, Some(CuttlefishCertificateId([4; 32]))] {
        let vote = CuttlefishUnlockVote { request, certificate, authority: 258 };
        let bytes = encode_unlock_vote(&vote);
        assert_eq!(bytes.len(), if certificate.is_some() { 109 } else { 77 });
        assert_eq!(&bytes[bytes.len() - 4..], &[2, 1, 0, 0]);
        assert_eq!(decode_unlock_vote(&bytes), Some(vote));
        assert_eq!(decode_unlock_vote(&bytes[..bytes.len() - 1]), None);
        let mut longer = bytes.clone();
        longer.push(0);
        assert_eq!(decode_unlock_vote(&longer), None);
        let mut tagged = bytes;
        tagged[72] = 7;
        assert_eq!(decode_unlock_vote(&tagged), None);
    }
}

#[test]
fn frame_carries_its_length() {
    let frame = encode_frame(&[9; 300]);
    assert_eq!(&frame[..4], &[44, 1, 0, 0]);
    assert_eq!(frame_length(&frame[..4]), 300);
    assert_eq!(&frame[4..], &[9; 300]);
}

#[test]
fn public_key_belongs_to_the_private_key() {
    let private_key = [
        0x9d, 0x61, 0xb1, 0x9d, 0xef, 0xfd, 0x5a, 0x60, 0xba, 0x84, 0x4a, 0xf4, 0x92, 0xec, 0x2c,
        0xc4, 0x44, 0x49, 0xc5, 0x69, 0x7b, 0x32, 0x69, 0x19, 0x70, 0x3b, 0xac, 0x03, 0x1c, 0xae,
        0x7f, 0x60,
    ];
    let public_key = [
        0xd7, 0x5a, 0x98, 0x01, 0x82, 0xb1, 0x0a, 0xb7, 0xd5, 0x4b, 0xfe, 0xd3, 0xc9, 0x64, 0x07,
        0x3a, 0x0e, 0xe1, 0x72, 0xf3, 0xda, 0xa6, 0x23, 0x25, 0xaf, 0x02, 0x1a, 0x68, 0xf7, 0x07,
        0x51, 0x1a,
    ];
    assert_eq!(unlock_public_key(&private_key), public_key);
}

#[test]
fn signed_vote_opens_under_its_key_only() {
    let private_key = [0xC7; 32];
    let public_key = unlock_public_key(&private_key);
    let vote = vote(3, Some(CuttlefishCertificateId([5; 32])));
    let response = sign_unlock_vote(&vote, &private_key);
    assert_eq!(response.len(), 109 + 64);
    assert_eq!(&response[..109], &encode_unlock_vote(&vote)[..]);
    assert_eq!(open_unlock_response(&response, &public_key), Ok(vote));

    let other_key = unlock_public_key(&[0xC8; 32]);
    assert_eq!(
        open_unlock_response(&response, &other_key),
        Err(UnlockResponseError::InvalidSignature)
    );

    let mut tampered = response.clone();
    tampered[0] ^= 1;
    assert_eq!(
        open_unlock_response(&tampered, &public_key),
        Err(UnlockResponseError::InvalidSignature)
    );
    assert_eq!(
        open_unlock_response(&response[..64], &public_key),
        Err(UnlockResponseError::TooShort)
    );
}

#[test]
fn response_is_read_once_its_signature_is_verified() {
    let vote = vote(3, None);
    let mut response = encode_unlock_vote(&vote);
    response.extend_from_slice(&[0; 64]);
    assert_eq!(read_unlock_response(&response, true), Ok(vote));
    assert_eq!(read_unlock_response(&response, false), Err(UnlockResponseError::InvalidSignature));
    assert_eq!(
        read_unlock_response(&response[1..], true),
        Err(UnlockResponseError::MalformedVote)
    );
    assert_eq!(read_unlock_response(&[0; 64], true), Err(UnlockResponseError::TooShort));
}

#[test]
fn validator_answers_a_request_with_its_certificate() {
    let target = object(1, 2);
    let lock = Some(CuttlefishCertificateId([6; 32]));
    let mut state = CuttlefishFastUnlockState::new();
    state.set_lock(target, lock);
    let private_key = [1; 32];
    assert_eq!(answer_unlock_request(&mut state, &[0; 71], 5, &private_key), None);
    assert!(state.fast_path_allowed(&target));

    let payload = encode_unlock_request(&request(target));
    let response = answer_unlock_request(&mut state, &payload, 5, &private_key).unwrap();
    assert!(!state.fast_path_allowed(&target));
    assert_eq!(
        open_unlock_response(&response, &unlock_public_key(&private_key)),
        Ok(CuttlefishUnlockVote { request: request(target), certificate: lock, authority: 5 })
    );
}

#[test]
fn quorum_of_validators_builds_a_certificate() {
    let target = object(0x31, 7);
    let mut states = (0..4).map(|_| CuttlefishFastUnlockState::new()).collect::<Vec<_>>();
    let certificate = build_unlock_certificate(&mut states, request(target), 3).unwrap();
    assert_eq!(certificate.voters, BTreeSet::from([0, 1, 2]));
    assert!(!states[2].fast_path_allowed(&target));
    assert!(states[3].fast_path_allowed(&target));

    assert_eq!(
        build_unlock_certificate(&mut states, request(target), 5),
        Err(CuttlefishError::NotEnoughVotes { got: 4, required: 5 })
    );
}

#[test]
fn no_blocks_contain_no_payload() {
    assert!(!commit_contains_payload(&[], b"payload"));
}

#[test]
fn order_of_votes_does_not_matter() {
    let certified = Some(CuttlefishCertificateId([1; 32]));
    let votes = vec![vote(0, certified), vote(1, None), vote(2, None), vote(3, certified)];
    let mut reversed = votes.clone();
    reversed.reverse();
    assert_eq!(
        CuttlefishFastUnlockState::assemble_unlock_certificate(votes, 2),
        CuttlefishFastUnlockState::assemble_unlock_certificate(reversed, 2)
    );
}
