//! Bounded sliding window of per-session validator-set metadata: the most
//! recent sessions are retained, older ones are evicted together with their
//! candidate records.

use vstd::prelude::*;

verus! {

/// How many sessions the window retains.
pub const RETAINED_SESSIONS: u32 = 6;

/// Immutable metadata of one session.
pub struct SessionInfo {
    /// Key identifiers of the session's validators, ordered; a validator index
    /// names a position in this list.
    pub validators: Vec<u64>,
    /// Number of assignment tranches of the session.
    pub n_tranches: u32,
    /// Ticks past a tranche's activation before a pending assignment becomes a
    /// no-show.
    pub no_show_delay: u64,
    /// Approvals required for a candidate to count as approved.
    pub needed_approvals: u32,
}

/// Errors of the session window; both are non-fatal and mark a request stale.
#[derive(Clone, Copy, PartialEq, Eq, Structural, Debug)]
pub enum SessionError {
    /// The session fell out of the retained window.
    SessionPruned,
    /// The session has not been observed yet.
    SessionUnknown,
}

/// The session window: metadata of the most recent consecutive sessions.
pub struct SessionWindow {
    /// Index of the oldest retained session (meaningful when nonempty).
    pub earliest_session: u32,
    /// Metadata, position `i` belonging to session `earliest_session + i`.
    pub sessions: Vec<SessionInfo>,
}

/// The sessions that one `advance` to `new_session` evicts: none while the
/// window grows; the oldest once the window is full; every retained session
/// when sessions were skipped and the window restarts at `new_session`.
pub open spec fn evicted_by_advance(pre: SessionWindow, new_session: u32) -> Seq<u32> {
    if pre.sessions@.len() == 0 {
        Seq::empty()
    } else if new_session == pre.earliest_session + pre.sessions@.len() {
        if pre.sessions@.len() == RETAINED_SESSIONS {
            seq![pre.earliest_session]
        } else {
            Seq::empty()
        }
    } else {
        Seq::new(pre.sessions@.len(), |i: int| (pre.earliest_session + i) as u32)
    }
}

impl SessionWindow {
    /// Internal invariant: bounded size, indices fit.
    pub open spec fn wf(self) -> bool {
        &&& self.sessions@.len() <= RETAINED_SESSIONS
        &&& self.earliest_session + self.sessions@.len() <= u32::MAX as int + 1
    }

    /// Whether session `s` is inside the retained window.
    pub open spec fn has_session(self, s: u32) -> bool {
        self.earliest_session <= s && s < self.earliest_session + self.sessions@.len()
    }

    /// Metadata of session `s` (meaningful only when retained).
    pub open spec fn info_of(self, s: u32) -> SessionInfo {
        self.sessions@[s - self.earliest_session]
    }

    /// An empty window: no session observed yet.
    pub fn new() -> (r: SessionWindow)
        ensures
            r.wf(),
            r.sessions@.len() == 0,
    {
        SessionWindow { earliest_session: 0, sessions: Vec::new() }
    }

    /// Append the metadata of a newer session. When the new session is the
    /// next consecutive one, the window grows, evicting the oldest session
    /// once the bound is reached; when sessions were skipped (their metadata
    /// was never observed), the window restarts at the new session and every
    /// previously retained session is evicted. The evicted session indices
    /// are returned so the caller can evict their candidate records in the
    /// same step.
    pub fn advance(&mut self, new_session: u32, info: SessionInfo) -> (evicted: Vec<u32>)
        requires
            old(self).wf(),
            old(self).sessions@.len() == 0 || new_session >= old(self).earliest_session
                + old(self).sessions@.len(),
        ensures
            final(self).wf(),
            final(self).has_session(new_session),
            final(self).info_of(new_session) == info,
            evicted@ == evicted_by_advance(*old(self), new_session),
            forall|s: u32|
                old(self).has_session(s) && !evicted@.contains(s)
                    ==> final(self).has_session(s) && final(self).info_of(s) == old(self).info_of(
                    s,
                ),
            forall|s: u32|
                final(self).has_session(s) == ((old(self).has_session(s) || s == new_session)
                    && !evicted@.contains(s)),
    {
        let mut evicted: Vec<u32> = Vec::new();
        if self.sessions.len() == 0 {
            self.earliest_session = new_session;
            self.sessions.push(info);
            proof {
                assert(evicted@ =~= evicted_by_advance(*old(self), new_session));
            }
            return evicted;
        }
        let next = self.earliest_session as u64 + self.sessions.len() as u64;
        if new_session as u64 == next {
            self.sessions.push(info);
            if self.sessions.len() > RETAINED_SESSIONS as usize {
                self.sessions.remove(0);
                evicted.push(self.earliest_session);
                self.earliest_session = self.earliest_session + 1;
            }
            proof {
                assert(evicted@ =~= evicted_by_advance(*old(self), new_session));
                assert forall|s: u32|
                    self.has_session(s) == ((old(self).has_session(s) || s == new_session)
                        && !evicted@.contains(s)) by {
                    if evicted@.len() > 0 {
                        assert(evicted@[0] == old(self).earliest_session);
                        if s == old(self).earliest_session {
                            assert(evicted@.contains(s));
                        }
                        if evicted@.contains(s) {
                            let i = choose|i: int| 0 <= i < evicted@.len() && evicted@[i] == s;
                            assert(i == 0);
                        }
                    }
                }
            }
            return evicted;
        }
        // sessions were skipped: their metadata was never observed, so the
        // retained run cannot be extended across the hole; restart the window
        let n = self.sessions.len();
        let mut i: usize = 0;
        while i < n
            invariant
                self.wf(),
                *self == *old(self),
                n == self.sessions@.len(),
                i <= n,
                evicted@.len() == i,
                forall|j: int|
                    0 <= j < i ==> evicted@[j] == (old(self).earliest_session + j) as u32,
            decreases n - i,
        {
            evicted.push(self.earliest_session + i as u32);
            i = i + 1;
        }
        self.sessions.clear();
        self.sessions.push(info);
        self.earliest_session = new_session;
        proof {
            assert(evicted@ =~= evicted_by_advance(*old(self), new_session));
            assert forall|s: u32|
                self.has_session(s) == ((old(self).has_session(s) || s == new_session)
                    && !evicted@.contains(s)) by {
                if old(self).has_session(s) {
                    let j = s - old(self).earliest_session;
                    assert(evicted@[j] == s);
                    assert(evicted@.contains(s));
                }
                if evicted@.contains(s) {
                    let j = choose|j: int| 0 <= j < evicted@.len() && evicted@[j] == s;
                    assert(old(self).has_session(s));
                }
            }
            assert forall|s: u32|
                old(self).has_session(s) && !evicted@.contains(s) implies self.has_session(s)
                && self.info_of(s) == old(self).info_of(s) by {
                let j = s - old(self).earliest_session;
                assert(evicted@[j] == s);
                assert(evicted@.contains(s));
            }
        }
        evicted
    }

    /// Metadata of session `s`: fails with `SessionPruned` when `s` fell out
    /// of the window, with `SessionUnknown` when `s` was not observed yet.
    pub fn info(&self, s: u32) -> (r: Result<&SessionInfo, SessionError>)
        requires
            self.wf(),
        ensures
            match r {
                Ok(i) => self.has_session(s) && *i == self.info_of(s),
                Err(e) => !self.has_session(s) && (e == SessionError::SessionPruned <==> (
                self.sessions@.len() > 0 && s < self.earliest_session)),
            },
    {
        if self.sessions.len() == 0 {
            return Err(SessionError::SessionUnknown);
        }
        if s < self.earliest_session {
            return Err(SessionError::SessionPruned);
        }
        let offset = (s - self.earliest_session) as usize;
        if offset >= self.sessions.len() {
            return Err(SessionError::SessionUnknown);
        }
        Ok(&self.sessions[offset])
    }
}

} // verus!
