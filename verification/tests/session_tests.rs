use approval_voting::session::SessionError;
use approval_voting::session::SessionInfo;
use approval_voting::session::SessionWindow;
use approval_voting::session::RETAINED_SESSIONS;

fn info(needed: u32) -> SessionInfo {
    SessionInfo {
        validators: vec![11, 22, 33],
        n_tranches: 2,
        no_show_delay: 10,
        needed_approvals: needed,
    }
}

#[test]
fn unknown_before_any_session() {
    let w = SessionWindow::new();
    assert!(matches!(w.info(0), Err(SessionError::SessionUnknown)));
}

#[test]
fn window_keeps_at_most_six_sessions() {
    let mut w = SessionWindow::new();
    for s in 0..RETAINED_SESSIONS {
        let evicted = w.advance(s, info(s));
        assert!(evicted.is_empty());
    }
    assert_eq!(w.sessions.len(), RETAINED_SESSIONS as usize);
    let evicted = w.advance(RETAINED_SESSIONS, info(RETAINED_SESSIONS));
    assert_eq!(evicted, vec![0]);
    assert_eq!(w.sessions.len(), RETAINED_SESSIONS as usize);
    assert!(matches!(w.info(0), Err(SessionError::SessionPruned)));
    assert!(w.info(1).is_ok());
    assert_eq!(w.info(6).unwrap().needed_approvals, 6);
    assert!(matches!(w.info(7), Err(SessionError::SessionUnknown)));
}

#[test]
fn session_jump_restarts_the_window() {
    let mut w = SessionWindow::new();
    assert!(w.advance(3, info(3)).is_empty());
    assert!(w.advance(4, info(4)).is_empty());
    // sessions 5..=8 were never observed: the window restarts at 9
    let evicted = w.advance(9, info(9));
    assert_eq!(evicted, vec![3, 4]);
    assert_eq!(w.sessions.len(), 1);
    assert!(matches!(w.info(4), Err(SessionError::SessionPruned)));
    assert_eq!(w.info(9).unwrap().needed_approvals, 9);
    assert!(matches!(w.info(10), Err(SessionError::SessionUnknown)));
}
