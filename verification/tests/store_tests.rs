use approval_voting::store::ApprovalStatus;
use approval_voting::store::CandidateEntry;
use approval_voting::store::Store;
use approval_voting::store::StoreError;
use approval_voting::store::ValidatorState;

fn store_with_one_block() -> Store {
    let mut store = Store::new();
    let inserted = store.insert_block(100, 99, 1, 50, &vec![7, 8]);
    assert!(inserted);
    store
}

#[test]
fn insert_block_is_idempotent() {
    let mut store = store_with_one_block();
    let inserted_again = store.insert_block(100, 99, 1, 50, &vec![7, 8]);
    assert!(!inserted_again);
    assert_eq!(store.blocks.len(), 1);
}

#[test]
fn record_assignment_unknown_candidate() {
    let mut store = store_with_one_block();
    assert_eq!(
        store.record_assignment(555, 0, 1, 0, 50),
        Err(StoreError::UnknownCandidate)
    );
    assert_eq!(
        store.record_assignment(100, 9, 1, 0, 50),
        Err(StoreError::UnknownCandidate)
    );
}

#[test]
fn record_assignment_duplicate() {
    let mut store = store_with_one_block();
    assert_eq!(store.record_assignment(100, 0, 1, 0, 50), Ok(()));
    assert_eq!(
        store.record_assignment(100, 0, 1, 1, 60),
        Err(StoreError::DuplicateAssignment)
    );
}

#[test]
fn record_approval_requires_assignment() {
    let mut store = store_with_one_block();
    assert_eq!(
        store.record_approval(555, 0, 1),
        Err(StoreError::UnknownCandidate)
    );
    assert_eq!(
        store.record_approval(100, 0, 1),
        Err(StoreError::UnassignedValidator)
    );
    assert_eq!(store.record_assignment(100, 0, 1, 0, 50), Ok(()));
    assert_eq!(store.record_approval(100, 0, 1), Ok(()));
    // idempotent: an approval never regresses
    assert_eq!(store.record_approval(100, 0, 1), Ok(()));
}

#[test]
fn states_partition_assigned_validators() {
    let mut c = CandidateEntry::new(7);
    assert_eq!(c.record_assignment(1, 0, 50), Ok(()));
    assert_eq!(c.record_assignment(2, 0, 50), Ok(()));
    assert_eq!(c.record_assignment(3, 1, 60), Ok(()));
    assert_eq!(c.record_approval(1), Ok(()));
    let _ = c.mark_no_shows(100, 10);
    // every assigned validator is in exactly one state
    assert_eq!(c.assignments.len(), 3);
    assert_eq!(c.count_state(ValidatorState::Approved), 1);
    assert_eq!(c.count_state(ValidatorState::NoShow), 2);
    assert_eq!(c.count_state(ValidatorState::Pending), 0);
}

#[test]
fn status_formula() {
    let mut c = CandidateEntry::new(7);
    // no assignments yet: pending
    assert_eq!(c.status(2, 2), ApprovalStatus::Pending);
    assert_eq!(c.record_assignment(1, 0, 50), Ok(()));
    assert_eq!(c.record_assignment(2, 0, 50), Ok(()));
    assert_eq!(c.status(2, 2), ApprovalStatus::Pending);
    assert_eq!(c.record_approval(1), Ok(()));
    assert_eq!(c.status(2, 2), ApprovalStatus::Pending);
    assert_eq!(c.record_approval(2), Ok(()));
    assert_eq!(c.status(2, 2), ApprovalStatus::Approved);
    // higher threshold: not approved; still pending because tranche 1 remains
    assert_eq!(c.status(3, 2), ApprovalStatus::Pending);
    // exhausted: add the final tranche, let it no-show
    assert_eq!(c.record_assignment(3, 1, 60), Ok(()));
    let marked = c.mark_no_shows(1000, 10);
    assert_eq!(marked, vec![3]);
    assert_eq!(c.status(3, 2), ApprovalStatus::Undetermined);
}

#[test]
fn no_show_only_after_delay() {
    let mut c = CandidateEntry::new(7);
    assert_eq!(c.record_assignment(1, 0, 50), Ok(()));
    // delay not yet elapsed: 50 + 10 > 59
    let marked = c.mark_no_shows(59, 10);
    assert!(marked.is_empty());
    assert_eq!(c.count_state(ValidatorState::Pending), 1);
    // exactly at activation + delay the validator is marked
    let marked = c.mark_no_shows(60, 10);
    assert_eq!(marked, vec![1]);
    assert_eq!(c.count_state(ValidatorState::NoShow), 1);
}

#[test]
fn approval_recovers_a_no_show() {
    let mut c = CandidateEntry::new(7);
    assert_eq!(c.record_assignment(1, 0, 50), Ok(()));
    let marked = c.mark_no_shows(100, 10);
    assert_eq!(marked, vec![1]);
    assert_eq!(c.record_approval(1), Ok(()));
    assert_eq!(c.count_state(ValidatorState::Approved), 1);
    assert_eq!(c.count_state(ValidatorState::NoShow), 0);
}

#[test]
fn prune_session_evicts_blocks() {
    let mut store = Store::new();
    assert!(store.insert_block(100, 99, 1, 50, &vec![7]));
    assert!(store.insert_block(200, 100, 2, 60, &vec![8]));
    store.prune_session(1);
    assert_eq!(store.blocks.len(), 1);
    assert_eq!(store.blocks[0].block_hash, 200);
    assert_eq!(
        store.record_approval(100, 0, 1),
        Err(StoreError::UnknownCandidate)
    );
}
