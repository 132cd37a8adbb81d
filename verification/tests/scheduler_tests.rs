use approval_voting::scheduler::Scheduler;

#[test]
fn earliest_tick_wins() {
    let mut s = Scheduler::new();
    s.schedule(10, 1, 7);
    // a later tick for the same pair leaves the obligation where it was
    s.schedule(20, 1, 7);
    assert_eq!(s.wakeups.len(), 1);
    assert_eq!(s.wakeups[0].tick, 10);
    // an earlier tick moves it forward
    s.schedule(5, 1, 7);
    assert_eq!(s.wakeups.len(), 1);
    assert_eq!(s.wakeups[0].tick, 5);
}

#[test]
fn next_due_pops_in_tick_order() {
    let mut s = Scheduler::new();
    s.schedule(30, 1, 7);
    s.schedule(10, 2, 8);
    s.schedule(20, 3, 9);
    let due = s.next_due(25);
    assert_eq!(due, vec![(2, 8), (3, 9)]);
    assert_eq!(s.wakeups.len(), 1);
    assert_eq!(s.wakeups[0].tick, 30);
    let due = s.next_due(25);
    assert!(due.is_empty());
    let due = s.next_due(30);
    assert_eq!(due, vec![(1, 7)]);
    assert!(s.wakeups.is_empty());
}

#[test]
fn reschedule_does_not_duplicate() {
    let mut s = Scheduler::new();
    s.schedule(10, 1, 7);
    s.schedule(4, 1, 7);
    s.schedule(8, 2, 7);
    assert_eq!(s.wakeups.len(), 2);
    let due = s.next_due(100);
    assert_eq!(due, vec![(1, 7), (2, 7)]);
}
