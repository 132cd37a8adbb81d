use approval_voting::multiplexer::multiplex_single;
use approval_voting::multiplexer::RequestMultiplexer;
use approval_voting::session::SessionInfo;
use approval_voting::subsystem::ApprovalVoteRequest;
use approval_voting::subsystem::ApprovalVotingSubsystem;

fn triple_payload(block_hash: u64, candidate_index: u32, validator_index: u32) -> Vec<u8> {
    let mut bytes = Vec::new();
    bytes.extend_from_slice(&block_hash.to_le_bytes());
    bytes.extend_from_slice(&candidate_index.to_le_bytes());
    bytes.extend_from_slice(&validator_index.to_le_bytes());
    bytes
}

#[test]
fn vote_payload_is_little_endian() {
    let mut sub = ApprovalVotingSubsystem::new(None, 4);
    sub.handle_session_advance(
        0,
        SessionInfo { validators: vec![1], n_tranches: 1, no_show_delay: 1, needed_approvals: 1 },
    );
    assert!(sub.handle_new_block(0x0102030405060708, 0, 0, 1, &vec![7]));
    let req = ApprovalVoteRequest {
        validator_index: 0,
        block_hash: 0x0102030405060708,
        candidate_index: 0,
    };
    let payload = sub.prepare_vote(req).unwrap();
    assert_eq!(
        payload,
        vec![0x08, 0x07, 0x06, 0x05, 0x04, 0x03, 0x02, 0x01, 0x00, 0x00, 0x00, 0x00]
    );
}

#[test]
fn short_payload_is_rejected_with_peer() {
    let bytes = vec![1, 2, 3];
    let err = match multiplex_single(77, &bytes) {
        Ok(_) => panic!("short payload must not decode"),
        Err(e) => e,
    };
    assert_eq!(err.peer, 77);
}

#[test]
fn multiplex_single_decodes_request() {
    let bytes = triple_payload(42, 3, 9);
    let m = match multiplex_single(77, &bytes) {
        Ok(m) => m,
        Err(_) => panic!("well-formed payload must decode"),
    };
    assert_eq!(m.peer, 77);
    assert_eq!(m.block_hash, 42);
    assert_eq!(m.candidate_index, 3);
    assert_eq!(m.validator_index, 9);
}

#[test]
fn trailing_bytes_are_tolerated() {
    let mut bytes = triple_payload(0xFFFF_FFFF_FFFF_FFFF, 0, 1);
    bytes.push(0xEE);
    let m = match multiplex_single(5, &bytes) {
        Ok(m) => m,
        Err(_) => panic!("payload with trailing bytes must decode"),
    };
    assert_eq!(m.block_hash, u64::MAX);
    assert_eq!(m.candidate_index, 0);
    assert_eq!(m.validator_index, 1);
}

#[test]
fn round_robin_poll_order() {
    let mut m = RequestMultiplexer::new(3);
    assert_eq!(m.poll_order(), vec![0, 1, 2]);
    m.advance_cursor(2);
    assert_eq!(m.poll_order(), vec![2, 0, 1]);
    m.advance_cursor(3);
    assert_eq!(m.poll_order(), vec![2, 0, 1]);
}
