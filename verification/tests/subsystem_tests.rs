use approval_voting::session::SessionInfo;
use approval_voting::store::ApprovalStatus;
use approval_voting::store::ValidatorState;
use approval_voting::subsystem::ApprovalVoteRequest;
use approval_voting::subsystem::ApprovalVotingSubsystem;
use approval_voting::subsystem::PipelineError;
use approval_voting::subsystem::SignOutcome;

const VAL_A: u32 = 0;
const VAL_B: u32 = 1;
const VAL_C: u32 = 2;
const BLOCK: u64 = 100;
const CAND: u64 = 7;

fn session_info() -> SessionInfo {
    SessionInfo {
        validators: vec![11, 22, 33],
        n_tranches: 2,
        no_show_delay: 10,
        needed_approvals: 2,
    }
}

/// Threshold 2, validators {A, B, C} assigned at tranches {0, 0, 1}.
fn setup() -> ApprovalVotingSubsystem {
    let mut sub = ApprovalVotingSubsystem::new(None, 8);
    let evicted = sub.handle_session_advance(0, session_info());
    assert!(evicted.is_empty());
    assert!(sub.handle_new_block(BLOCK, 99, 0, 50, &vec![CAND]));
    assert_eq!(sub.import_assignment(BLOCK, 0, VAL_A, 0, 50), Ok(()));
    assert_eq!(sub.import_assignment(BLOCK, 0, VAL_B, 0, 50), Ok(()));
    assert_eq!(sub.import_assignment(BLOCK, 0, VAL_C, 1, 60), Ok(()));
    sub
}

#[test]
fn two_approvals_meet_threshold_and_stop_wakeups() {
    let mut sub = setup();
    assert_eq!(sub.import_approval(BLOCK, 0, VAL_A), Ok(()));
    assert_eq!(sub.import_approval(BLOCK, 0, VAL_B), Ok(()));
    assert_eq!(
        sub.store.approval_status(BLOCK, 0, 2, 2),
        Ok(ApprovalStatus::Approved)
    );
    // the tranche-zero wakeup fires and finds the candidate approved
    let due = sub.scheduler.next_due(50);
    assert_eq!(due, vec![(BLOCK, CAND)]);
    let actions = sub.process_wakeup(50, BLOCK, CAND);
    assert!(actions.is_empty());
    // no further obligation: C's tranche-one assignment is never triggered
    assert!(sub.scheduler.wakeups.is_empty());
    assert_eq!(
        sub.store.assignment_of(BLOCK, 0, VAL_C).unwrap().state,
        ValidatorState::Pending
    );
    assert_eq!(
        sub.store.approval_status(BLOCK, 0, 2, 2),
        Ok(ApprovalStatus::Approved)
    );
}

#[test]
fn missing_approval_marks_no_show_and_activates_replacement() {
    let mut sub = setup();
    assert_eq!(sub.import_approval(BLOCK, 0, VAL_A), Ok(()));
    // B's no-show delay elapses at tick 60 (activation 50 + delay 10)
    let due = sub.scheduler.next_due(60);
    assert_eq!(due, vec![(BLOCK, CAND)]);
    let actions = sub.process_wakeup(60, BLOCK, CAND);
    assert!(actions.is_empty());
    assert_eq!(
        sub.store.assignment_of(BLOCK, 0, VAL_B).unwrap().state,
        ValidatorState::NoShow
    );
    assert_eq!(
        sub.store.assignment_of(BLOCK, 0, VAL_A).unwrap().state,
        ValidatorState::Approved
    );
    // the tranche-one replacement (C) is active and its own check is scheduled
    assert_eq!(
        sub.store.assignment_of(BLOCK, 0, VAL_C).unwrap().state,
        ValidatorState::Pending
    );
    assert_eq!(sub.scheduler.wakeups.len(), 1);
    assert_eq!(sub.scheduler.wakeups[0].block_hash, BLOCK);
    assert_eq!(sub.scheduler.wakeups[0].candidate_hash, CAND);
    assert_eq!(sub.scheduler.wakeups[0].tick, 70);
    assert_eq!(
        sub.store.approval_status(BLOCK, 0, 2, 2),
        Ok(ApprovalStatus::Pending)
    );
}

#[test]
fn vote_request_for_pruned_candidate_is_dropped() {
    let mut sub = setup();
    let req = ApprovalVoteRequest {
        validator_index: VAL_A,
        block_hash: BLOCK,
        candidate_index: 0,
    };
    assert!(sub.enqueue_vote_request(req));
    // sessions advance until session 0 falls out of the window
    for s in 1..=6u32 {
        let evicted = sub.handle_session_advance(s, session_info());
        if s == 6 {
            assert_eq!(evicted, vec![0]);
        } else {
            assert!(evicted.is_empty());
        }
    }
    // the block is gone; its wakeups are inert
    let actions = sub.process_wakeup(50, BLOCK, CAND);
    assert!(actions.is_empty());
    // the stale pipeline request completes with UnknownCandidate, no message
    let taken = sub.next_vote_request().unwrap();
    assert_eq!(taken, req);
    assert_eq!(
        sub.prepare_vote(taken).unwrap_err(),
        PipelineError::UnknownCandidate
    );
    let out = sub.complete_vote(taken, SignOutcome::Signed(vec![9, 9, 9]));
    assert!(matches!(out, Err(PipelineError::UnknownCandidate)));
}

#[test]
fn queue_is_bounded_and_ordered() {
    let mut sub = ApprovalVotingSubsystem::new(None, 2);
    let mk = |ci: u32| ApprovalVoteRequest {
        validator_index: VAL_A,
        block_hash: BLOCK,
        candidate_index: ci,
    };
    assert!(sub.enqueue_vote_request(mk(0)));
    assert!(sub.enqueue_vote_request(mk(1)));
    // full: the producer must wait, nothing is dropped
    assert!(!sub.enqueue_vote_request(mk(2)));
    assert_eq!(sub.next_vote_request().unwrap().candidate_index, 0);
    assert!(sub.enqueue_vote_request(mk(2)));
    assert_eq!(sub.next_vote_request().unwrap().candidate_index, 1);
    assert_eq!(sub.next_vote_request().unwrap().candidate_index, 2);
    assert!(sub.next_vote_request().is_none());
}

#[test]
fn signed_vote_records_approval_and_builds_message() {
    let mut sub = setup();
    let req = ApprovalVoteRequest {
        validator_index: VAL_A,
        block_hash: BLOCK,
        candidate_index: 0,
    };
    let payload = sub.prepare_vote(req).unwrap();
    assert_eq!(payload.len(), 12);
    let msg = sub
        .complete_vote(req, SignOutcome::Signed(vec![5, 6]))
        .unwrap();
    assert_eq!(msg.block_hash, BLOCK);
    assert_eq!(msg.candidate_index, 0);
    assert_eq!(msg.validator, VAL_A);
    assert_eq!(msg.signature, vec![5, 6]);
    assert_eq!(
        sub.store.assignment_of(BLOCK, 0, VAL_A).unwrap().state,
        ValidatorState::Approved
    );
}

#[test]
fn key_unavailable_drops_request_without_state_change() {
    let mut sub = setup();
    let req = ApprovalVoteRequest {
        validator_index: VAL_A,
        block_hash: BLOCK,
        candidate_index: 0,
    };
    assert_eq!(
        sub.complete_vote(req, SignOutcome::KeyUnavailable).unwrap_err(),
        PipelineError::KeyUnavailable
    );
    assert_eq!(
        sub.complete_vote(req, SignOutcome::SigningFailed).unwrap_err(),
        PipelineError::SigningFailed
    );
    assert_eq!(
        sub.store.assignment_of(BLOCK, 0, VAL_A).unwrap().state,
        ValidatorState::Pending
    );
}

#[test]
fn unassigned_vote_is_rejected() {
    let mut sub = setup();
    let req = ApprovalVoteRequest {
        validator_index: 9,
        block_hash: BLOCK,
        candidate_index: 0,
    };
    let out = sub.complete_vote(req, SignOutcome::Signed(vec![1]));
    assert!(matches!(out, Err(PipelineError::UnassignedValidator)));
}

#[test]
fn own_assignment_is_broadcast_once() {
    let mut sub = ApprovalVotingSubsystem::new(Some(VAL_A), 8);
    let evicted = sub.handle_session_advance(0, session_info());
    assert!(evicted.is_empty());
    assert!(sub.handle_new_block(BLOCK, 99, 0, 50, &vec![CAND]));
    assert_eq!(sub.import_assignment(BLOCK, 0, VAL_A, 0, 50), Ok(()));
    let due = sub.scheduler.next_due(50);
    assert_eq!(due, vec![(BLOCK, CAND)]);
    let actions = sub.process_wakeup(50, BLOCK, CAND);
    assert_eq!(actions.len(), 1);
    // a follow-up no-show check is programmed one delay later
    assert_eq!(sub.scheduler.wakeups.len(), 1);
    assert_eq!(sub.scheduler.wakeups[0].tick, 60);
    // the assignment is not broadcast a second time
    let actions = sub.process_wakeup(55, BLOCK, CAND);
    assert!(actions.is_empty());
}

#[test]
fn finality_prunes_the_ancestor_chain() {
    let mut sub = ApprovalVotingSubsystem::new(None, 8);
    let evicted = sub.handle_session_advance(0, session_info());
    assert!(evicted.is_empty());
    assert!(sub.handle_new_block(100, 99, 0, 50, &vec![7]));
    assert!(sub.handle_new_block(101, 100, 0, 52, &vec![8]));
    assert!(sub.handle_new_block(102, 101, 0, 54, &vec![9]));
    // finalizing the middle block prunes it and its ancestor, keeps the tip
    let pruned = sub.handle_finalized(101);
    assert_eq!(pruned, vec![101, 100]);
    assert_eq!(sub.store.blocks.len(), 1);
    assert_eq!(sub.store.blocks[0].block_hash, 102);
    // wakeups of pruned blocks are inert
    let actions = sub.process_wakeup(60, 100, 7);
    assert!(actions.is_empty());
}

#[test]
fn session_jump_evicts_skipped_sessions_records() {
    let mut sub = ApprovalVotingSubsystem::new(None, 8);
    assert!(sub.handle_session_advance(3, session_info()).is_empty());
    assert!(sub.handle_new_block(BLOCK, 99, 3, 50, &vec![CAND]));
    // the chain jumps to session 9: session 3 leaves the window and its
    // candidate records leave the store in the same step
    let evicted = sub.handle_session_advance(9, session_info());
    assert_eq!(evicted, vec![3]);
    assert!(sub.store.blocks.is_empty());
    assert!(sub.process_wakeup(50, BLOCK, CAND).is_empty());
}
