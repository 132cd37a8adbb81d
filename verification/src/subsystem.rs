//! The approval-voting subsystem driver: merges chain updates, peer messages
//! and due wakeups into state-store mutations and scheduler reprogramming, and
//! serialises local approval-vote production through a bounded ordered queue.

use vstd::prelude::*;
use crate::codec::encode_vote_payload;
use crate::codec::vote_payload_bytes;
use crate::scheduler::Scheduler;
use crate::session::SessionInfo;
use crate::session::SessionWindow;
use crate::store::count_in_state;
use crate::store::is_assigned;
use crate::store::index_of_validator;
use crate::store::next_wake;
use crate::store::no_show_due;
use crate::store::same_outside_candidate;
use crate::store::spec_status;
use crate::store::ApprovalStatus;
use crate::store::Store;
use crate::store::StoreError;
use crate::store::ValidatorState;

verus! {

/// A request to produce and locally record a signed approval for a specific
/// candidate, using the signing key of the given validator.
#[derive(Clone, Copy, PartialEq, Eq, Structural, Debug)]
pub struct ApprovalVoteRequest {
    /// The local validator the vote speaks for.
    pub validator_index: u32,
    /// Relay block of the candidate.
    pub block_hash: u64,
    /// Candidate index within that block.
    pub candidate_index: u32,
}

/// An outbound message the driver asks the network layer to send.
#[derive(Clone, Copy, PartialEq, Eq, Structural, Debug)]
pub enum Action {
    /// Broadcast the local validator's own assignment for a candidate.
    BroadcastAssignment {
        /// Relay block of the candidate.
        block_hash: u64,
        /// Candidate index within that block.
        candidate_index: u32,
        /// The local validator whose assignment is broadcast.
        validator: u32,
    },
}

/// What the keystore collaborator reported for one signing request.
pub enum SignOutcome {
    /// The payload was signed.
    Signed(Vec<u8>),
    /// The validator has no local signing key; the request is dropped.
    KeyUnavailable,
    /// Signing failed; fatal to this request only.
    SigningFailed,
}

/// A signed approval vote, ready for outbound gossip.
#[derive(Debug)]
pub struct ApprovalMessage {
    /// Relay block of the approved candidate.
    pub block_hash: u64,
    /// Candidate index within that block.
    pub candidate_index: u32,
    /// The validator the vote speaks for.
    pub validator: u32,
    /// Signature over the canonical vote payload.
    pub signature: Vec<u8>,
}

/// Failure modes of the approval vote pipeline; all are non-fatal to the
/// subsystem as a whole.
#[derive(Clone, Copy, PartialEq, Eq, Structural, Debug)]
pub enum PipelineError {
    /// The validator has no local signing key.
    KeyUnavailable,
    /// The keystore failed to sign.
    SigningFailed,
    /// The request references a candidate the store no longer (or never) has.
    UnknownCandidate,
    /// The validator was never assigned to the candidate.
    UnassignedValidator,
}

/// The tick at which a newly programmed wakeup for a pair ends up pending:
/// the requested tick, unless an earlier obligation was already pending.
pub open spec fn programmed_tick(pre: Scheduler, tick: u64, bh: u64, ch: u64) -> u64 {
    if pre.has_pending(bh, ch) && pre.pending_tick(bh, ch) <= tick {
        pre.pending_tick(bh, ch)
    } else {
        tick
    }
}

/// The approval voting subsystem: session window, candidate/block state store,
/// wakeup scheduler and the bounded queue of pending vote requests.
pub struct ApprovalVotingSubsystem {
    /// Sliding window of recent sessions' metadata.
    pub window: SessionWindow,
    /// Per-block, per-candidate assignment and approval state.
    pub store: Store,
    /// Tick-ordered pending wakeups.
    pub scheduler: Scheduler,
    /// Pending approval-vote requests, in arrival order.
    pub vote_queue: Vec<ApprovalVoteRequest>,
    /// Bound on the vote queue; producers wait when it is reached.
    pub queue_capacity: usize,
    /// The local validator's index, if this node runs a validator.
    pub our_validator: Option<u32>,
}

impl ApprovalVotingSubsystem {
    /// Internal invariant of the whole subsystem.
    pub open spec fn wf(self) -> bool {
        &&& self.window.wf()
        &&& self.store.wf()
        &&& self.scheduler.wf()
        &&& self.vote_queue@.len() <= self.queue_capacity
    }

    /// A fresh subsystem with no state.
    pub fn new(our_validator: Option<u32>, queue_capacity: usize) -> (r: ApprovalVotingSubsystem)
        ensures
            r.wf(),
            r.store.blocks@.len() == 0,
            r.scheduler.wakeups@.len() == 0,
            r.vote_queue@.len() == 0,
            r.window.sessions@.len() == 0,
            r.queue_capacity == queue_capacity,
            r.our_validator == our_validator,
    {
        ApprovalVotingSubsystem {
            window: SessionWindow::new(),
            store: Store::new(),
            scheduler: Scheduler::new(),
            vote_queue: Vec::new(),
            queue_capacity,
            our_validator,
        }
    }

    /// Handle a new-leaf notification: create empty candidate records for the
    /// block and program a tranche-zero wakeup for each of its candidates at
    /// the block's tick. A block hash seen before changes nothing.
    pub fn handle_new_block(
        &mut self,
        block_hash: u64,
        parent_hash: u64,
        session: u32,
        block_tick: u64,
        candidate_hashes: &Vec<u64>,
    ) -> (inserted: bool)
        requires
            old(self).wf(),
            candidate_hashes@.len() <= u32::MAX,
        ensures
            final(self).wf(),
            inserted == !old(self).store.has_block(block_hash),
            final(self).window == old(self).window,
            final(self).vote_queue@ == old(self).vote_queue@,
            final(self).our_validator == old(self).our_validator,
            final(self).queue_capacity == old(self).queue_capacity,
            !inserted ==> final(self).store.blocks@ == old(self).store.blocks@ && final(self).scheduler == old(self).scheduler,
            inserted ==> {
                &&& final(self).store.has_block(block_hash)
                &&& final(self).store.block_of(block_hash).session == session
                &&& final(self).store.block_of(block_hash).block_tick == block_tick
                &&& final(self).store.block_of(block_hash).candidates@.len()
                    == candidate_hashes@.len()
                &&& forall|k: int|
                    0 <= k < candidate_hashes@.len() ==> {
                        &&& (#[trigger] final(self).store.block_of(
                            block_hash,
                        ).candidates@[k]).candidate_hash == candidate_hashes@[k]
                        &&& final(self).store.block_of(
                            block_hash,
                        ).candidates@[k].assignments@.len() == 0
                        &&& !final(self).store.block_of(
                            block_hash,
                        ).candidates@[k].our_assignment_broadcast
                    }
                &&& forall|bh2: u64|
                    old(self).store.has_block(bh2) ==> final(self).store.has_block(bh2) && final(self).store.block_of(bh2) == old(self).store.block_of(bh2)
                &&& forall|k: int|
                    0 <= k < candidate_hashes@.len() ==> #[trigger] final(self).scheduler.has_pending(block_hash, candidate_hashes@[k])
                &&& forall|k: int|
                    0 <= k < candidate_hashes@.len()
                        ==> #[trigger] final(self).scheduler.pending_tick(
                        block_hash,
                        candidate_hashes@[k],
                    ) == programmed_tick(
                        old(self).scheduler,
                        block_tick,
                        block_hash,
                        candidate_hashes@[k],
                    )
                &&& forall|bh2: u64, ch2: u64|
                    !(bh2 == block_hash && candidate_hashes@.contains(ch2))
                        ==> #[trigger] final(self).scheduler.has_pending(bh2, ch2) == old(
                        self,
                    ).scheduler.has_pending(bh2, ch2)
                &&& forall|bh2: u64, ch2: u64|
                    !(bh2 == block_hash && candidate_hashes@.contains(ch2)) && old(
                        self,
                    ).scheduler.has_pending(bh2, ch2)
                        ==> #[trigger] final(self).scheduler.pending_tick(bh2, ch2) == old(
                        self,
                    ).scheduler.pending_tick(bh2, ch2)
            },
    {
        let inserted = self.store.insert_block(
            block_hash,
            parent_hash,
            session,
            block_tick,
            candidate_hashes,
        );
        if !inserted {
            return false;
        }
        let ghost mid = *self;
        let n = candidate_hashes.len();
        let mut k: usize = 0;
        while k < n
            invariant
                self.scheduler.wf(),
                self.store == mid.store,
                self.window == mid.window,
                self.vote_queue == mid.vote_queue,
                self.queue_capacity == mid.queue_capacity,
                self.our_validator == mid.our_validator,
                mid.store.wf(),
                mid.window.wf(),
                mid.vote_queue@.len() <= mid.queue_capacity,
                n == candidate_hashes@.len(),
                k <= n,
                forall|j: int|
                    0 <= j < k ==> #[trigger] self.scheduler.has_pending(
                        block_hash,
                        candidate_hashes@[j],
                    ),
                forall|j: int|
                    0 <= j < k ==> #[trigger] self.scheduler.pending_tick(
                        block_hash,
                        candidate_hashes@[j],
                    ) == programmed_tick(
                        old(self).scheduler,
                        block_tick,
                        block_hash,
                        candidate_hashes@[j],
                    ),
                forall|bh2: u64, ch2: u64|
                    !(bh2 == block_hash && candidate_hashes@.take(k as int).contains(ch2))
                        ==> #[trigger] self.scheduler.has_pending(bh2, ch2) == old(
                        self,
                    ).scheduler.has_pending(bh2, ch2),
                forall|bh2: u64, ch2: u64|
                    !(bh2 == block_hash && candidate_hashes@.take(k as int).contains(ch2)) && old(
                        self,
                    ).scheduler.has_pending(bh2, ch2) ==> #[trigger] self.scheduler.pending_tick(
                        bh2,
                        ch2,
                    ) == old(self).scheduler.pending_tick(bh2, ch2),
            decreases n - k,
        {
            let ghost pre_sched = self.scheduler;
            let ghost ch_k = candidate_hashes@[k as int];
            self.scheduler.schedule(block_tick, block_hash, candidate_hashes[k]);
            proof {
                let osched = old(self).scheduler;
                let prefix = candidate_hashes@.take(k as int);
                let prefix1 = candidate_hashes@.take(k + 1);
                assert(prefix1[k as int] == ch_k);
                assert(prefix1.contains(ch_k));
                assert(self.scheduler.pending_tick(block_hash, ch_k) == programmed_tick(
                    osched,
                    block_tick,
                    block_hash,
                    ch_k,
                )) by {
                    if prefix.contains(ch_k) {
                        let j = choose|j: int| 0 <= j < prefix.len() && prefix[j] == ch_k;
                        assert(candidate_hashes@[j] == ch_k);
                        assert(pre_sched.has_pending(block_hash, ch_k));
                        assert(pre_sched.pending_tick(block_hash, ch_k) == programmed_tick(
                            osched,
                            block_tick,
                            block_hash,
                            ch_k,
                        ));
                    } else {
                        assert(pre_sched.has_pending(block_hash, ch_k) == osched.has_pending(
                            block_hash,
                            ch_k,
                        ));
                    }
                }
                assert forall|j: int|
                    0 <= j < k + 1 implies #[trigger] self.scheduler.has_pending(
                    block_hash,
                    candidate_hashes@[j],
                ) by {
                    if j < k && candidate_hashes@[j] != ch_k {
                        assert(self.scheduler.has_pending(block_hash, candidate_hashes@[j])
                            == pre_sched.has_pending(block_hash, candidate_hashes@[j]));
                    }
                }
                assert forall|j: int|
                    0 <= j < k + 1 implies #[trigger] self.scheduler.pending_tick(
                    block_hash,
                    candidate_hashes@[j],
                ) == programmed_tick(osched, block_tick, block_hash, candidate_hashes@[j]) by {
                    if j < k && candidate_hashes@[j] != ch_k {
                        assert(self.scheduler.pending_tick(block_hash, candidate_hashes@[j])
                            == pre_sched.pending_tick(block_hash, candidate_hashes@[j]));
                    }
                }
                assert forall|bh2: u64, ch2: u64|
                    !(bh2 == block_hash && prefix1.contains(ch2)) implies (
                #[trigger] self.scheduler.has_pending(bh2, ch2) == osched.has_pending(bh2, ch2)
                    && (osched.has_pending(bh2, ch2) ==> self.scheduler.pending_tick(bh2, ch2)
                    == osched.pending_tick(bh2, ch2))) by {
                    assert(!(bh2 == block_hash && ch2 == ch_k));
                    if bh2 == block_hash && prefix.contains(ch2) {
                        let j = choose|j: int| 0 <= j < prefix.len() && prefix[j] == ch2;
                        assert(prefix1[j] == ch2);
                        assert(prefix1.contains(ch2));
                    }
                    assert(self.scheduler.has_pending(bh2, ch2) == pre_sched.has_pending(
                        bh2,
                        ch2,
                    ));
                    if pre_sched.has_pending(bh2, ch2) {
                        assert(self.scheduler.pending_tick(bh2, ch2) == pre_sched.pending_tick(
                            bh2,
                            ch2,
                        ));
                    }
                }
            }
            k = k + 1;
        }
        proof {
            assert(candidate_hashes@.take(n as int) =~= candidate_hashes@);
        }
        true
    }

    /// Advance the session window to `new_session` and, in the same step,
    /// evict from the store every candidate record of a session that fell out
    /// of the window. Returns the evicted session indices.
    pub fn handle_session_advance(&mut self, new_session: u32, info: SessionInfo) -> (evicted: Vec<
        u32,
    >)
        requires
            old(self).wf(),
            old(self).window.sessions@.len() == 0 || new_session >= old(
                self,
            ).window.earliest_session + old(self).window.sessions@.len(),
        ensures
            final(self).wf(),
            final(self).window.has_session(new_session),
            final(self).window.info_of(new_session) == info,
            evicted@ == crate::session::evicted_by_advance(old(self).window, new_session),
            forall|s: u32|
                old(self).window.has_session(s) && !evicted@.contains(s)
                    ==> final(self).window.has_session(s) && final(self).window.info_of(s) == old(
                    self,
                ).window.info_of(s),
            forall|s: u32|
                final(self).window.has_session(s) == ((old(self).window.has_session(s) || s
                    == new_session) && !evicted@.contains(s)),
            final(self).scheduler == old(self).scheduler,
            final(self).vote_queue@ == old(self).vote_queue@,
            final(self).our_validator == old(self).our_validator,
            final(self).queue_capacity == old(self).queue_capacity,
            forall|bh: u64|
                old(self).store.has_block(bh) && evicted@.contains(
                    old(self).store.block_of(bh).session,
                ) ==> !final(self).store.has_block(bh),
            forall|bh: u64|
                final(self).store.has_block(bh) ==> old(self).store.has_block(bh) && final(self).store.block_of(bh) == old(self).store.block_of(bh),
            forall|bh: u64|
                old(self).store.has_block(bh) && !evicted@.contains(
                    old(self).store.block_of(bh).session,
                ) ==> final(self).store.has_block(bh),
    {
        let evicted = self.window.advance(new_session, info);
        let ghost mid = *self;
        let n = evicted.len();
        let mut i: usize = 0;
        proof {
            assert(evicted@.take(0) =~= Seq::<u32>::empty());
        }
        while i < n
            invariant
                self.store.wf(),
                self.window == mid.window,
                self.scheduler == mid.scheduler,
                self.vote_queue == mid.vote_queue,
                self.queue_capacity == mid.queue_capacity,
                self.our_validator == mid.our_validator,
                old(self).store.wf(),
                n == evicted@.len(),
                i <= n,
                forall|bh: u64|
                    #![trigger self.store.has_block(bh)]
                    #![trigger old(self).store.has_block(bh)]
                    self.store.has_block(bh) == (old(self).store.has_block(bh) && !evicted@.take(
                        i as int,
                    ).contains(old(self).store.block_of(bh).session)),
                forall|bh: u64|
                    self.store.has_block(bh) ==> self.store.block_of(bh) == old(
                        self,
                    ).store.block_of(bh),
            decreases n - i,
        {
            let ghost store_pre = self.store;
            let sess = evicted[i];
            self.store.prune_session(sess);
            proof {
                let prefix = evicted@.take(i as int);
                let prefix1 = evicted@.take(i + 1);
                assert(prefix1[i as int] == sess);
                assert(prefix1.contains(sess));
                assert forall|bh: u64|
                    #![trigger self.store.has_block(bh)]
                    #![trigger old(self).store.has_block(bh)]
                    self.store.has_block(bh) == (old(self).store.has_block(bh)
                        && !prefix1.contains(old(self).store.block_of(bh).session)) by {
                    let bsess = old(self).store.block_of(bh).session;
                    if prefix.contains(bsess) {
                        let j = choose|j: int| 0 <= j < prefix.len() && prefix[j] == bsess;
                        assert(prefix1[j] == bsess);
                        assert(prefix1.contains(bsess));
                    }
                    if prefix1.contains(bsess) && !prefix.contains(bsess) && bsess != sess {
                        let j = choose|j: int| 0 <= j < prefix1.len() && prefix1[j] == bsess;
                        assert(prefix[j] == bsess);
                    }
                    if store_pre.has_block(bh) {
                        assert(store_pre.block_of(bh) == old(self).store.block_of(bh));
                    }
                }
            }
            i = i + 1;
        }
        proof {
            assert(evicted@.take(n as int) =~= evicted@);
        }
        evicted
    }

    /// Import a peer-delivered assignment for the candidate under
    /// (`bh`, `ci`). A message for an unknown candidate or a session outside
    /// the window is dropped with the exact store or session error; a
    /// duplicate assignment is likewise dropped. Never changes anything on
    /// failure.
    pub fn import_assignment(
        &mut self,
        bh: u64,
        ci: u32,
        validator: u32,
        tranche: u32,
        activation_tick: u64,
    ) -> (r: Result<(), StoreError>)
        requires
            old(self).wf(),
        ensures
            final(self).wf(),
            final(self).window == old(self).window,
            final(self).scheduler == old(self).scheduler,
            final(self).vote_queue@ == old(self).vote_queue@,
            r is Ok ==> {
                &&& old(self).store.has_candidate(bh, ci)
                &&& old(self).window.has_session(old(self).store.block_of(bh).session)
                &&& !is_assigned(old(self).store.candidate_of(bh, ci).assignments@, validator)
                &&& same_outside_candidate(old(self).store, final(self).store, bh, ci)
                &&& final(self).store.candidate_of(bh, ci).assignments@ == old(
                    self,
                ).store.candidate_of(bh, ci).assignments@.push(
                    (crate::store::AssignmentEntry {
                        validator,
                        tranche,
                        activation_tick,
                        state: ValidatorState::Pending,
                    }),
                )
            },
            r matches Err(e) ==> final(self).store.blocks@ == old(self).store.blocks@ && (e
                == StoreError::UnknownCandidate ==> !old(self).store.has_candidate(bh, ci)
                || !old(self).window.has_session(old(self).store.block_of(bh).session)) && (e
                == StoreError::DuplicateAssignment ==> is_assigned(
                old(self).store.candidate_of(bh, ci).assignments@,
                validator,
            )),
            r is Ok <==> old(self).store.has_candidate(bh, ci) && old(self).window.has_session(
                old(self).store.block_of(bh).session,
            ) && !is_assigned(old(self).store.candidate_of(bh, ci).assignments@, validator),
            final(self).our_validator == old(self).our_validator,
            final(self).queue_capacity == old(self).queue_capacity,
    {
        let sess = match self.store.block_meta(bh) {
            None => {
                return Err(StoreError::UnknownCandidate);
            },
            Some(m) => m.0,
        };
        match self.window.info(sess) {
            Err(_) => {
                return Err(StoreError::UnknownCandidate);
            },
            Ok(_) => {},
        }
        self.store.record_assignment(bh, ci, validator, tranche, activation_tick)
    }

    /// Import a peer-delivered approval for the candidate under (`bh`, `ci`):
    /// moves the validator into approved. Errors are dropped by the caller;
    /// nothing changes on failure. An already-approved candidate can never
    /// regress: the approved count only grows.
    pub fn import_approval(&mut self, bh: u64, ci: u32, validator: u32) -> (r: Result<
        (),
        StoreError,
    >)
        requires
            old(self).wf(),
        ensures
            final(self).wf(),
            final(self).window == old(self).window,
            final(self).scheduler == old(self).scheduler,
            final(self).vote_queue@ == old(self).vote_queue@,
            final(self).our_validator == old(self).our_validator,
            final(self).queue_capacity == old(self).queue_capacity,
            r is Ok <==> old(self).store.has_candidate(bh, ci) && is_assigned(
                old(self).store.candidate_of(bh, ci).assignments@,
                validator,
            ),
            r is Ok ==> {
                &&& same_outside_candidate(old(self).store, final(self).store, bh, ci)
                &&& crate::store::state_of(
                    final(self).store.candidate_of(bh, ci).assignments@,
                    validator,
                ) == ValidatorState::Approved
                &&& count_in_state(
                    final(self).store.candidate_of(bh, ci).assignments@,
                    ValidatorState::Approved,
                ) >= count_in_state(
                    old(self).store.candidate_of(bh, ci).assignments@,
                    ValidatorState::Approved,
                )
                &&& forall|needed: u32, tranches: u32|
                    spec_status(
                        old(self).store.candidate_of(bh, ci).assignments@,
                        needed,
                        tranches,
                    ) == ApprovalStatus::Approved ==> #[trigger] spec_status(
                        final(self).store.candidate_of(bh, ci).assignments@,
                        needed,
                        tranches,
                    ) == ApprovalStatus::Approved
            },
            !(r is Ok) ==> final(self).store.blocks@ == old(self).store.blocks@,
    {
        let r = self.store.record_approval(bh, ci, validator);
        proof {
            match r {
                Ok(_) => {},
                Err(e) => {
                    if e == StoreError::UnknownCandidate {
                        assert(r == Err::<(), StoreError>(StoreError::UnknownCandidate));
                    } else if e == StoreError::UnassignedValidator {
                        assert(r == Err::<(), StoreError>(StoreError::UnassignedValidator));
                    } else {
                        assert(r == Err::<(), StoreError>(StoreError::DuplicateAssignment));
                    }
                },
            }
            if r is Ok {
                assert forall|needed: u32, tranches: u32|
                    spec_status(
                        old(self).store.candidate_of(bh, ci).assignments@,
                        needed,
                        tranches,
                    ) == ApprovalStatus::Approved implies #[trigger] spec_status(
                    final(self).store.candidate_of(bh, ci).assignments@,
                    needed,
                    tranches,
                ) == ApprovalStatus::Approved by {
                    crate::store::lemma_status_monotone(
                        old(self).store.candidate_of(bh, ci).assignments@,
                        self.store.candidate_of(bh, ci).assignments@,
                        needed,
                        tranches,
                    );
                }
            }
        }
        r
    }

    /// Enqueue a vote request onto the bounded pipeline queue. Returns whether
    /// the request was accepted; when the queue is full nothing is dropped —
    /// the caller must wait and retry.
    pub fn enqueue_vote_request(&mut self, req: ApprovalVoteRequest) -> (accepted: bool)
        requires
            old(self).wf(),
        ensures
            final(self).wf(),
            final(self).window == old(self).window,
            final(self).store == old(self).store,
            final(self).scheduler == old(self).scheduler,
            final(self).our_validator == old(self).our_validator,
            final(self).queue_capacity == old(self).queue_capacity,
            accepted == (old(self).vote_queue@.len() < old(self).queue_capacity),
            accepted ==> final(self).vote_queue@ == old(self).vote_queue@.push(req),
            !accepted ==> final(self).vote_queue@ == old(self).vote_queue@,
    {
        if self.vote_queue.len() < self.queue_capacity {
            self.vote_queue.push(req);
            true
        } else {
            false
        }
    }

    /// Take the oldest pending vote request off the queue, if any: the single
    /// pipeline consumer drains requests strictly in arrival order.
    pub fn next_vote_request(&mut self) -> (r: Option<ApprovalVoteRequest>)
        requires
            old(self).wf(),
        ensures
            final(self).wf(),
            final(self).window == old(self).window,
            final(self).store == old(self).store,
            final(self).scheduler == old(self).scheduler,
            final(self).our_validator == old(self).our_validator,
            final(self).queue_capacity == old(self).queue_capacity,
            old(self).vote_queue@.len() == 0 ==> r is None && final(self).vote_queue@ == old(self).vote_queue@,
            old(self).vote_queue@.len() > 0 ==> r == Some(old(self).vote_queue@[0]) && final(self).vote_queue@ == old(self).vote_queue@.skip(1),
    {
        if self.vote_queue.len() == 0 {
            None
        } else {
            let req = self.vote_queue.remove(0);
            proof {
                assert(self.vote_queue@ =~= old(self).vote_queue@.skip(1));
            }
            Some(req)
        }
    }

    /// First pipeline stage for one vote request: look the candidate up and
    /// produce the canonical payload to sign. A request whose candidate was
    /// pruned (or never seen) fails with `UnknownCandidate` and nothing is
    /// signed or sent for it.
    pub fn prepare_vote(&self, req: ApprovalVoteRequest) -> (r: Result<Vec<u8>, PipelineError>)
        requires
            self.wf(),
        ensures
            r is Ok <==> self.store.has_candidate(req.block_hash, req.candidate_index),
            r matches Ok(p) ==> p@ == vote_payload_bytes(req.block_hash, req.candidate_index),
            r matches Err(e) ==> e == PipelineError::UnknownCandidate,
    {
        if self.store.contains_candidate(req.block_hash, req.candidate_index) {
            Ok(encode_vote_payload(req.block_hash, req.candidate_index))
        } else {
            Err(PipelineError::UnknownCandidate)
        }
    }

    /// Final pipeline stage for one vote request, given what the keystore
    /// reported: on a signature, record the approval and hand back the
    /// outbound approval message; on `KeyUnavailable` or `SigningFailed`, or
    /// when the candidate was pruned between enqueue and processing
    /// (`UnknownCandidate`), no message is produced and the store keeps its
    /// state.
    pub fn complete_vote(&mut self, req: ApprovalVoteRequest, outcome: SignOutcome) -> (r: Result<
        ApprovalMessage,
        PipelineError,
    >)
        requires
            old(self).wf(),
        ensures
            final(self).wf(),
            final(self).window == old(self).window,
            final(self).scheduler == old(self).scheduler,
            final(self).vote_queue@ == old(self).vote_queue@,
            final(self).our_validator == old(self).our_validator,
            final(self).queue_capacity == old(self).queue_capacity,
            outcome matches SignOutcome::Signed(sig) ==> (r is Ok <==> old(
                self,
            ).store.has_candidate(req.block_hash, req.candidate_index) && is_assigned(
                old(self).store.candidate_of(req.block_hash, req.candidate_index).assignments@,
                req.validator_index,
            )),
            outcome matches SignOutcome::Signed(sig) ==> match r {
                Ok(m) => {
                    &&& old(self).store.has_candidate(req.block_hash, req.candidate_index)
                    &&& is_assigned(
                        old(self).store.candidate_of(req.block_hash, req.candidate_index).assignments@,
                        req.validator_index,
                    )
                    &&& same_outside_candidate(
                        old(self).store,
                        final(self).store,
                        req.block_hash,
                        req.candidate_index,
                    )
                    &&& crate::store::state_of(
                        final(self).store.candidate_of(
                            req.block_hash,
                            req.candidate_index,
                        ).assignments@,
                        req.validator_index,
                    ) == ValidatorState::Approved
                    &&& m.block_hash == req.block_hash
                    &&& m.candidate_index == req.candidate_index
                    &&& m.validator == req.validator_index
                    &&& m.signature@ == sig@
                },
                Err(e) => {
                    &&& final(self).store.blocks@ == old(self).store.blocks@
                    &&& (e == PipelineError::UnknownCandidate <==> !old(self).store.has_candidate(
                        req.block_hash,
                        req.candidate_index,
                    ))
                    &&& (e == PipelineError::UnassignedValidator <==> old(self).store.has_candidate(req.block_hash, req.candidate_index) && !is_assigned(
                        old(self).store.candidate_of(req.block_hash, req.candidate_index).assignments@,
                        req.validator_index,
                    ))
                },
            },
            outcome == SignOutcome::KeyUnavailable ==> r == Err::<ApprovalMessage, PipelineError>(
                PipelineError::KeyUnavailable,
            ) && final(self).store.blocks@ == old(self).store.blocks@,
            outcome == SignOutcome::SigningFailed ==> r == Err::<ApprovalMessage, PipelineError>(
                PipelineError::SigningFailed,
            ) && final(self).store.blocks@ == old(self).store.blocks@,
    {
        match outcome {
            SignOutcome::KeyUnavailable => Err(PipelineError::KeyUnavailable),
            SignOutcome::SigningFailed => Err(PipelineError::SigningFailed),
            SignOutcome::Signed(sig) => {
                match self.store.record_approval(
                    req.block_hash,
                    req.candidate_index,
                    req.validator_index,
                ) {
                    Ok(()) => Ok(
                        ApprovalMessage {
                            block_hash: req.block_hash,
                            candidate_index: req.candidate_index,
                            validator: req.validator_index,
                            signature: sig,
                        },
                    ),
                    Err(StoreError::UnknownCandidate) => Err(PipelineError::UnknownCandidate),
                    Err(_) => Err(PipelineError::UnassignedValidator),
                }
            },
        }
    }
}

/// Whether the local validator's own assignment for the candidate under
/// (`bh`, `ci`) has become active by `current_tick` and was not broadcast yet.
pub open spec fn broadcast_due(
    pre: ApprovalVotingSubsystem,
    current_tick: u64,
    bh: u64,
    ci: u32,
) -> bool {
    let c = pre.store.candidate_of(bh, ci);
    &&& pre.our_validator is Some
    &&& is_assigned(c.assignments@, pre.our_validator.unwrap())
    &&& c.assignments@[index_of_validator(c.assignments@, pre.our_validator.unwrap())].activation_tick
        <= current_tick
    &&& !c.our_assignment_broadcast
}

/// What processing one live wakeup for candidate `ci` (carrying hash `ch`) at
/// `current_tick` does: no-shows are marked exactly where the delay elapsed,
/// approvals are never touched, the local assignment is broadcast at most
/// once, no other pair's wakeup moves, and a follow-up wakeup stays pending
/// while the candidate still needs attention and is not approved.
pub open spec fn wakeup_transition(
    pre: ApprovalVotingSubsystem,
    post: ApprovalVotingSubsystem,
    current_tick: u64,
    bh: u64,
    ch: u64,
    ci: u32,
    actions: Seq<Action>,
) -> bool {
    let sess = pre.store.block_of(bh).session;
    let info = pre.window.info_of(sess);
    let delay = info.no_show_delay;
    let pre_c = pre.store.candidate_of(bh, ci);
    let post_c = post.store.candidate_of(bh, ci);
    &&& pre.store.has_candidate(bh, ci)
    &&& pre_c.candidate_hash == ch
    &&& same_outside_candidate(pre.store, post.store, bh, ci)
    &&& post_c.assignments@.len() == pre_c.assignments@.len()
    &&& forall|i: int|
        0 <= i < pre_c.assignments@.len() ==> {
            &&& (#[trigger] post_c.assignments@[i]).validator == pre_c.assignments@[i].validator
            &&& post_c.assignments@[i].tranche == pre_c.assignments@[i].tranche
            &&& post_c.assignments@[i].activation_tick == pre_c.assignments@[i].activation_tick
            &&& post_c.assignments@[i].state == (if no_show_due(
                pre_c.assignments@[i],
                current_tick,
                delay,
            ) {
                ValidatorState::NoShow
            } else {
                pre_c.assignments@[i].state
            })
        }
    &&& count_in_state(post_c.assignments@, ValidatorState::Approved) == count_in_state(
        pre_c.assignments@,
        ValidatorState::Approved,
    )
    &&& (broadcast_due(pre, current_tick, bh, ci) ==> actions == seq![
        Action::BroadcastAssignment {
            block_hash: bh,
            candidate_index: ci,
            validator: pre.our_validator.unwrap(),
        },
    ] && post_c.our_assignment_broadcast)
    &&& (!broadcast_due(pre, current_tick, bh, ci) ==> actions == Seq::<Action>::empty()
        && post_c.our_assignment_broadcast == pre_c.our_assignment_broadcast)
    &&& forall|bh2: u64, ch2: u64|
        !(bh2 == bh && ch2 == ch) ==> #[trigger] post.scheduler.has_pending(bh2, ch2)
            == pre.scheduler.has_pending(bh2, ch2)
    &&& forall|bh2: u64, ch2: u64|
        !(bh2 == bh && ch2 == ch) && pre.scheduler.has_pending(bh2, ch2)
            ==> #[trigger] post.scheduler.pending_tick(bh2, ch2) == pre.scheduler.pending_tick(
            bh2,
            ch2,
        )
    &&& (spec_status(post_c.assignments@, info.needed_approvals, info.n_tranches)
        != ApprovalStatus::Approved && next_wake(post_c.assignments@, current_tick, delay) is Some
        ==> post.scheduler.has_pending(bh, ch))
    &&& (spec_status(post_c.assignments@, info.needed_approvals, info.n_tranches)
        == ApprovalStatus::Approved && !broadcast_due(pre, current_tick, bh, ci)
        ==> post.scheduler == pre.scheduler)
}

impl ApprovalVotingSubsystem {
    /// Whether a wakeup for (`bh`, `ch`) still refers to live state: the block
    /// is known, one of its candidates carries hash `ch`, and the block's
    /// session is inside the window.
    pub open spec fn wakeup_live(self, bh: u64, ch: u64) -> bool {
        &&& self.store.has_block(bh)
        &&& exists|k: int|
            0 <= k < self.store.block_of(bh).candidates@.len() && (#[trigger] self.store.block_of(
                bh,
            ).candidates@[k]).candidate_hash == ch
        &&& self.window.has_session(self.store.block_of(bh).session)
    }

    /// Process one due wakeup for the pair (`bh`, `ch`) at `current_tick`.
    /// A wakeup whose candidate was pruned, or whose session fell out of the
    /// window, is inert: nothing changes and nothing is sent. Otherwise the
    /// obligation is classified: pending validators whose no-show delay has
    /// elapsed are marked no-show; the local validator's own newly active
    /// assignment is broadcast once, with a follow-up check one no-show delay
    /// later; and while the candidate is not yet approved and some assignment
    /// is still pending, a wakeup for the pair stays programmed.
    pub fn process_wakeup(&mut self, current_tick: u64, bh: u64, ch: u64) -> (actions: Vec<Action>)
        requires
            old(self).wf(),
        ensures
            final(self).wf(),
            final(self).window == old(self).window,
            final(self).vote_queue@ == old(self).vote_queue@,
            final(self).our_validator == old(self).our_validator,
            final(self).queue_capacity == old(self).queue_capacity,
            !old(self).wakeup_live(bh, ch) ==> *final(self) == *old(self) && actions@.len() == 0,
            old(self).wakeup_live(bh, ch) ==> exists|ci: u32|
                #[trigger] wakeup_transition(
                    *old(self),
                    *final(self),
                    current_tick,
                    bh,
                    ch,
                    ci,
                    actions@,
                ),
    {
        let sess = match self.store.block_meta(bh) {
            None => {
                return Vec::new();
            },
            Some(m) => m.0,
        };
        let ci = match self.store.find_candidate_by_hash(bh, ch) {
            None => {
                return Vec::new();
            },
            Some(ci) => ci,
        };
        let (delay, needed, tranches) = match self.window.info(sess) {
            Err(_) => {
                return Vec::new();
            },
            Ok(info) => (info.no_show_delay, info.needed_approvals, info.n_tranches),
        };
        proof {
            assert(old(self).wakeup_live(bh, ch));
        }
        let mut actions: Vec<Action> = Vec::new();
        match self.store.mark_no_shows(bh, ci, current_tick, delay) {
            Err(_) => {
                return Vec::new();
            },
            Ok(_) => {},
        }
        let ghost marked_state = *self;
        proof {
            crate::store::lemma_same_outside_lookups(old(self).store, self.store, bh, ci);
        }
        match self.our_validator {
            None => {},
            Some(v) => {
                proof {
                    crate::store::lemma_same_validators_assigned(
                        old(self).store.candidate_of(bh, ci).assignments@,
                        self.store.candidate_of(bh, ci).assignments@,
                        v,
                    );
                }
                match self.store.assignment_of(bh, ci, v) {
                    None => {},
                    Some(e) => {
                        if e.activation_tick <= current_tick {
                            let flag = match self.store.is_our_broadcast(bh, ci) {
                                None => true,
                                Some(b) => b,
                            };
                            if !flag {
                                match self.store.set_our_broadcast(bh, ci) {
                                    Err(_) => {},
                                    Ok(_) => {},
                                }
                                proof {
                                    crate::store::lemma_same_outside_trans(
                                        old(self).store,
                                        marked_state.store,
                                        self.store,
                                        bh,
                                        ci,
                                    );
                                }
                                actions.push(
                                    Action::BroadcastAssignment {
                                        block_hash: bh,
                                        candidate_index: ci,
                                        validator: v,
                                    },
                                );
                                let t = if delay <= u64::MAX - e.activation_tick {
                                    e.activation_tick + delay
                                } else {
                                    u64::MAX
                                };
                                self.scheduler.schedule(t, bh, ch);
                            }
                        }
                    },
                }
            },
        }
        let ghost broadcast_state = *self;
        let status = match self.store.approval_status(bh, ci, needed, tranches) {
            Err(_) => {
                return actions;
            },
            Ok(st) => st,
        };
        if !matches!(status, ApprovalStatus::Approved) {
            match self.store.candidate_next_wake(bh, ci, current_tick, delay) {
                None => {},
                Some(t) => {
                    self.scheduler.schedule(t, bh, ch);
                },
            }
        }
        proof {
            assert(wakeup_transition(
                *old(self),
                *self,
                current_tick,
                bh,
                ch,
                ci,
                actions@,
            ));
        }
        actions
    }
}

impl ApprovalVotingSubsystem {
    /// Handle a finality notification: the finalized block and its ancestors
    /// are final, so their candidate records are removed from the store.
    /// Pending wakeups that reference them are not touched: they become inert,
    /// found stale when they fire. Returns the pruned block hashes, the
    /// finalized block first, each followed by its parent.
    pub fn handle_finalized(&mut self, bh: u64) -> (pruned: Vec<u64>)
        requires
            old(self).wf(),
        ensures
            final(self).wf(),
            final(self).window == old(self).window,
            final(self).scheduler == old(self).scheduler,
            final(self).vote_queue@ == old(self).vote_queue@,
            forall|x: u64|
                #![trigger final(self).store.has_block(x)]
                #![trigger old(self).store.has_block(x)]
                final(self).store.has_block(x) == (old(self).store.has_block(x)
                    && !pruned@.contains(x)),
            forall|x: u64|
                final(self).store.has_block(x) ==> final(self).store.block_of(x) == old(
                    self,
                ).store.block_of(x),
            final(self).our_validator == old(self).our_validator,
            final(self).queue_capacity == old(self).queue_capacity,
            pruned@.len() == 0 ==> !old(self).store.has_block(bh),
            pruned@.len() > 0 ==> pruned@[0] == bh,
            pruned@.len() > 0 ==> !final(self).store.has_block(
                old(self).store.block_of(pruned@.last()).parent_hash,
            ),
            forall|i: int| 0 <= i < pruned@.len() ==> old(self).store.has_block(pruned@[i]),
            forall|i: int|
                0 < i < pruned@.len() ==> #[trigger] pruned@[i] == old(self).store.block_of(
                    pruned@[i - 1],
                ).parent_hash,
    {
        let mut pruned: Vec<u64> = Vec::new();
        let mut cur = bh;
        let mut go = true;
        while go
            invariant
                self.wf(),
                self.window == old(self).window,
                self.scheduler == old(self).scheduler,
                self.vote_queue == old(self).vote_queue,
                self.queue_capacity == old(self).queue_capacity,
                self.our_validator == old(self).our_validator,
                forall|x: u64|
                    #![trigger self.store.has_block(x)]
                    #![trigger old(self).store.has_block(x)]
                    self.store.has_block(x) == (old(self).store.has_block(x)
                        && !pruned@.contains(x)),
                forall|x: u64|
                    self.store.has_block(x) ==> self.store.block_of(x) == old(self).store.block_of(
                        x,
                    ),
                pruned@.len() == 0 ==> cur == bh,
                pruned@.len() > 0 ==> pruned@[0] == bh && cur == old(self).store.block_of(
                    pruned@.last(),
                ).parent_hash,
                forall|i: int| 0 <= i < pruned@.len() ==> old(self).store.has_block(pruned@[i]),
                forall|i: int|
                    0 < i < pruned@.len() ==> #[trigger] pruned@[i] == old(self).store.block_of(
                        pruned@[i - 1],
                    ).parent_hash,
                !go ==> !self.store.has_block(cur) && (pruned@.len() == 0 ==> !old(
                    self,
                ).store.has_block(bh)),
            decreases self.store.blocks@.len(), (if go {
                1int
            } else {
                0int
            }),
        {
            match self.store.parent_of(cur) {
                None => {
                    proof {
                        assert(!pruned@.contains(bh) ==> self.store.has_block(bh) == old(
                            self,
                        ).store.has_block(bh));
                        if pruned@.len() == 0 {
                            assert(!pruned@.contains(bh));
                        }
                    }
                    go = false;
                },
                Some(parent) => {
                    let ghost pruned_pre = pruned@;
                    let ghost store_pre = self.store;
                    self.store.prune_block(cur);
                    pruned.push(cur);
                    proof {
                        assert(!pruned_pre.contains(cur));
                        assert(store_pre.has_block(cur));
                        assert(old(self).store.has_block(cur));
                        assert(store_pre.block_of(cur) == old(self).store.block_of(cur));
                        assert(pruned@.last() == cur);
                        assert forall|x: u64|
                            self.store.has_block(x) == (old(self).store.has_block(x)
                                && !pruned@.contains(x)) by {
                            if pruned@.contains(x) {
                                let i = choose|i: int| 0 <= i < pruned@.len() && pruned@[i] == x;
                                if i < pruned_pre.len() {
                                    assert(pruned_pre[i] == x);
                                    assert(pruned_pre.contains(x));
                                } else {
                                    assert(x == cur);
                                }
                            }
                            if pruned_pre.contains(x) {
                                let i = choose|i: int|
                                    0 <= i < pruned_pre.len() && pruned_pre[i] == x;
                                assert(pruned@[i] == x);
                                assert(pruned@.contains(x));
                            }
                            if x == cur {
                                assert(pruned@.contains(x));
                            }
                        }
                        assert forall|i: int|
                            0 <= i < pruned@.len() implies old(self).store.has_block(
                            pruned@[i],
                        ) by {
                            if i < pruned_pre.len() {
                                assert(pruned@[i] == pruned_pre[i]);
                                assert(old(self).store.has_block(pruned_pre[i]));
                            } else {
                                assert(pruned@[i] == cur);
                            }
                        }
                        assert forall|i: int|
                            0 < i < pruned@.len() implies #[trigger] pruned@[i] == old(
                            self,
                        ).store.block_of(pruned@[i - 1]).parent_hash by {
                            if i < pruned_pre.len() {
                                assert(pruned@[i] == pruned_pre[i]);
                                assert(pruned@[i - 1] == pruned_pre[i - 1]);
                            } else {
                                assert(pruned@[i] == cur);
                                if pruned_pre.len() > 0 {
                                    assert(pruned@[i - 1] == pruned_pre.last());
                                }
                            }
                        }
                    }
                    cur = parent;
                },
            }
        }
        pruned
    }
}

} // verus!
