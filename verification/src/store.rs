//! Per-relay-block, per-candidate record of assignments and approvals: the
//! ground truth that the wakeup scheduler and the vote pipeline read and write.

use vstd::prelude::*;

verus! {

/// State of one assigned validator with respect to one candidate.
/// A validator is in exactly one state at a time; approvals only ever move a
/// validator into `Approved`, never out of it.
#[derive(Clone, Copy, PartialEq, Eq, Structural, Debug)]
pub enum ValidatorState {
    /// Assigned, no approval received yet.
    Pending,
    /// An approval from this validator was recorded.
    Approved,
    /// Assigned, its no-show delay elapsed with no approval recorded.
    NoShow,
}

/// Approval status of a whole candidate.
#[derive(Clone, Copy, PartialEq, Eq, Structural, Debug)]
pub enum ApprovalStatus {
    /// Not enough approvals yet, and assignments remain that may still come in.
    Pending,
    /// The required number of approvals was met.
    Approved,
    /// Every assignment is exhausted up to the final tranche and the required
    /// count was not met.
    Undetermined,
}

/// Errors of the state store; all are non-fatal to the subsystem.
#[derive(Clone, Copy, PartialEq, Eq, Structural, Debug)]
pub enum StoreError {
    /// The (relay block, candidate) key refers to no record in the store.
    UnknownCandidate,
    /// The validator is already assigned to this candidate.
    DuplicateAssignment,
    /// The validator was never assigned to this candidate.
    UnassignedValidator,
}

/// One validator's assignment to one candidate.
#[derive(Clone, Copy, PartialEq, Eq, Structural, Debug)]
pub struct AssignmentEntry {
    /// Index of the validator in the session's validator list.
    pub validator: u32,
    /// Tranche at which this assignment becomes active.
    pub tranche: u32,
    /// Tick at which the tranche becomes active (supplied by the
    /// assignment-certification collaborator's policy).
    pub activation_tick: u64,
    /// Current state of the validator for this candidate.
    pub state: ValidatorState,
}

/// Record of one candidate included at one relay block.
pub struct CandidateEntry {
    /// Hash of the candidate, modelled as a plain integer key.
    pub candidate_hash: u64,
    /// Assignments recorded so far; at most one entry per validator.
    pub assignments: Vec<AssignmentEntry>,
    /// Whether the local validator's own assignment was already broadcast.
    pub our_assignment_broadcast: bool,
}

/// Record of one relay-chain block and its included candidates.
pub struct BlockEntry {
    /// Hash of the relay block, modelled as a plain integer key.
    pub block_hash: u64,
    /// Hash of the parent relay block.
    pub parent_hash: u64,
    /// Session the block belongs to.
    pub session: u32,
    /// Tick at which the block was observed; tranche zero activates here.
    pub block_tick: u64,
    /// Candidate records, indexed by candidate index within the block.
    pub candidates: Vec<CandidateEntry>,
}

/// The candidate/block state store: one entry per known relay block.
pub struct Store {
    /// Block entries; block hashes are unique.
    pub blocks: Vec<BlockEntry>,
}

/// No two entries name the same validator.
pub open spec fn entries_wf(s: Seq<AssignmentEntry>) -> bool {
    forall|i: int, j: int|
        0 <= i < j < s.len() ==> s[i].validator != s[j].validator
}

/// Whether some entry names validator `v`.
pub open spec fn is_assigned(s: Seq<AssignmentEntry>, v: u32) -> bool {
    exists|i: int| 0 <= i < s.len() && s[i].validator == v
}

/// Index of the entry naming validator `v` (meaningful only when assigned).
pub open spec fn index_of_validator(s: Seq<AssignmentEntry>, v: u32) -> int {
    choose|i: int| 0 <= i < s.len() && s[i].validator == v
}

/// State of validator `v` (meaningful only when assigned).
pub open spec fn state_of(s: Seq<AssignmentEntry>, v: u32) -> ValidatorState {
    s[index_of_validator(s, v)].state
}

/// Number of entries currently in state `st`.
pub open spec fn count_in_state(s: Seq<AssignmentEntry>, st: ValidatorState) -> nat
    decreases s.len(),
{
    if s.len() == 0 {
        0
    } else {
        count_in_state(s.drop_last(), st) + (if s.last().state == st {
            1nat
        } else {
            0nat
        })
    }
}

/// The set of all assigned validators.
pub open spec fn assigned_validators(s: Seq<AssignmentEntry>) -> Set<u32> {
    Set::new(|v: u32| is_assigned(s, v))
}

/// The set of assigned validators currently in state `st`.
pub open spec fn validators_in_state(s: Seq<AssignmentEntry>, st: ValidatorState) -> Set<u32> {
    Set::new(|v: u32| is_assigned(s, v) && state_of(s, v) == st)
}

/// Whether validator entry `e` must be marked no-show at `current_tick`: still
/// pending, and at least `delay` ticks have elapsed past its activation tick.
pub open spec fn no_show_due(e: AssignmentEntry, current_tick: u64, delay: u64) -> bool {
    e.state == ValidatorState::Pending && e.activation_tick + delay <= current_tick
}

/// Whether some assignment has reached the final tranche of the session.
pub open spec fn reached_final_tranche(s: Seq<AssignmentEntry>, n_tranches: u32) -> bool {
    exists|i: int| 0 <= i < s.len() && s[i].tranche + 1 >= n_tranches
}

/// Approval status of a candidate with assignments `s`, given the session's
/// required approval count and number of tranches: `Approved` once enough
/// approvals were recorded, `Undetermined` once every assignment is exhausted
/// up to the final tranche without meeting the count, else `Pending`.
pub open spec fn spec_status(s: Seq<AssignmentEntry>, needed: u32, n_tranches: u32) -> ApprovalStatus {
    if count_in_state(s, ValidatorState::Approved) >= needed {
        ApprovalStatus::Approved
    } else if count_in_state(s, ValidatorState::Pending) == 0 && reached_final_tranche(
        s,
        n_tranches,
    ) {
        ApprovalStatus::Undetermined
    } else {
        ApprovalStatus::Pending
    }
}

/// The validators of the entries that `no_show_due` selects, in entry order.
pub open spec fn due_no_show_validators(s: Seq<AssignmentEntry>, current_tick: u64, delay: u64) -> Seq<u32>
    decreases s.len(),
{
    if s.len() == 0 {
        Seq::empty()
    } else if no_show_due(s.last(), current_tick, delay) {
        due_no_show_validators(s.drop_last(), current_tick, delay).push(s.last().validator)
    } else {
        due_no_show_validators(s.drop_last(), current_tick, delay)
    }
}

/// Counting is unchanged on every entry but one; updating that entry moves the
/// count by the two entries' contributions.
proof fn lemma_count_update(s: Seq<AssignmentEntry>, k: int, e: AssignmentEntry, st: ValidatorState)
    requires
        0 <= k < s.len(),
    ensures
        count_in_state(s.update(k, e), st) == count_in_state(s, st) - (if s[k].state == st {
            1int
        } else {
            0int
        }) + (if e.state == st {
            1int
        } else {
            0int
        }),
    decreases s.len(),
{
    if k == s.len() - 1 {
        assert(s.update(k, e).drop_last() =~= s.drop_last());
    } else {
        lemma_count_update(s.drop_last(), k, e, st);
        assert(s.update(k, e).drop_last() =~= s.drop_last().update(k, e));
    }
}

/// Appending one entry adds its contribution to the count.
proof fn lemma_count_push(s: Seq<AssignmentEntry>, e: AssignmentEntry, st: ValidatorState)
    ensures
        count_in_state(s.push(e), st) == count_in_state(s, st) + (if e.state == st {
            1nat
        } else {
            0nat
        }),
{
    assert(s.push(e).drop_last() =~= s);
}

/// Under `entries_wf`, the index of a validator's entry is unique.
proof fn lemma_index_unique(s: Seq<AssignmentEntry>, v: u32, i: int)
    requires
        entries_wf(s),
        0 <= i < s.len(),
        s[i].validator == v,
    ensures
        is_assigned(s, v),
        index_of_validator(s, v) == i,
{
    assert(is_assigned(s, v));
    let j = index_of_validator(s, v);
    assert(0 <= j < s.len() && s[j].validator == v);
    if i < j {
        assert(s[i].validator != s[j].validator);
    } else if j < i {
        assert(s[j].validator != s[i].validator);
    }
}

/// Updating entry `k` without changing its validator preserves well-formedness,
/// the assigned set, and every other validator's entry.
proof fn lemma_update_same_validator(s: Seq<AssignmentEntry>, k: int, e: AssignmentEntry)
    requires
        entries_wf(s),
        0 <= k < s.len(),
        e.validator == s[k].validator,
    ensures
        entries_wf(s.update(k, e)),
        forall|v: u32| is_assigned(s.update(k, e), v) == is_assigned(s, v),
        forall|v: u32|
            is_assigned(s, v) ==> index_of_validator(s.update(k, e), v) == index_of_validator(
                s,
                v,
            ),
        state_of(s.update(k, e), e.validator) == e.state,
        forall|v: u32|
            is_assigned(s, v) && v != e.validator ==> state_of(s.update(k, e), v) == state_of(
                s,
                v,
            ),
{
    let t = s.update(k, e);
    assert forall|v: u32| is_assigned(t, v) == is_assigned(s, v) by {
        if is_assigned(t, v) {
            let i = choose|i: int| 0 <= i < t.len() && t[i].validator == v;
            assert(s[i].validator == v);
        }
        if is_assigned(s, v) {
            let i = choose|i: int| 0 <= i < s.len() && s[i].validator == v;
            assert(t[i].validator == v);
        }
    }
    assert forall|v: u32| is_assigned(s, v) implies index_of_validator(t, v)
        == index_of_validator(s, v) by {
        let i = index_of_validator(s, v);
        assert(t[i].validator == v);
        lemma_index_unique(t, v, i);
    }
    lemma_index_unique(s, e.validator, k);
    lemma_index_unique(t, e.validator, k);
}

impl CandidateEntry {
    /// Internal invariant: at most one assignment per validator.
    pub open spec fn wf(self) -> bool {
        entries_wf(self.assignments@)
    }

    /// A fresh record: no assignments, nothing broadcast.
    pub fn new(candidate_hash: u64) -> (r: CandidateEntry)
        ensures
            r.wf(),
            r.candidate_hash == candidate_hash,
            r.assignments@.len() == 0,
            !r.our_assignment_broadcast,
    {
        CandidateEntry { candidate_hash, assignments: Vec::new(), our_assignment_broadcast: false }
    }

    /// Position of validator `v`'s assignment, if any.
    pub fn find_assignment(&self, v: u32) -> (r: Option<usize>)
        requires
            self.wf(),
        ensures
            match r {
                Some(i) => i < self.assignments@.len() && self.assignments@[i as int].validator
                    == v && is_assigned(self.assignments@, v) && index_of_validator(
                    self.assignments@,
                    v,
                ) == i as int,
                None => !is_assigned(self.assignments@, v),
            },
    {
        let n = self.assignments.len();
        let mut i: usize = 0;
        while i < n
            invariant
                self.wf(),
                n == self.assignments@.len(),
                i <= n,
                forall|j: int| 0 <= j < i ==> self.assignments@[j].validator != v,
            decreases n - i,
        {
            if self.assignments[i].validator == v {
                proof {
                    assert(is_assigned(self.assignments@, v));
                    let w = index_of_validator(self.assignments@, v);
                    assert(self.assignments@[w].validator == v);
                    assert(w == i as int);
                }
                return Some(i);
            }
            i = i + 1;
        }
        None
    }

    /// Number of assignments currently in state `st`.
    pub fn count_state(&self, st: ValidatorState) -> (r: usize)
        ensures
            r == count_in_state(self.assignments@, st),
    {
        let n = self.assignments.len();
        let mut i: usize = 0;
        let mut cnt: usize = 0;
        while i < n
            invariant
                n == self.assignments@.len(),
                i <= n,
                cnt <= i,
                cnt == count_in_state(self.assignments@.take(i as int), st),
            decreases n - i,
        {
            proof {
                assert(self.assignments@.take(i + 1).drop_last() =~= self.assignments@.take(
                    i as int,
                ));
                assert(self.assignments@.take(i + 1).last() == self.assignments@[i as int]);
            }
            if self.assignments[i].state == st {
                cnt = cnt + 1;
            }
            i = i + 1;
        }
        proof {
            assert(self.assignments@.take(n as int) =~= self.assignments@);
        }
        cnt
    }

    /// Whether some assignment has reached the session's final tranche.
    pub fn has_final_tranche(&self, n_tranches: u32) -> (r: bool)
        ensures
            r == reached_final_tranche(self.assignments@, n_tranches),
    {
        let n = self.assignments.len();
        let mut i: usize = 0;
        while i < n
            invariant
                n == self.assignments@.len(),
                i <= n,
                forall|j: int| 0 <= j < i ==> !(self.assignments@[j].tranche + 1 >= n_tranches),
            decreases n - i,
        {
            let t = self.assignments[i].tranche;
            if t >= n_tranches || n_tranches - t <= 1 {
                return true;
            }
            i = i + 1;
        }
        false
    }

    /// Approval status against the session's required approval count and
    /// number of tranches.
    pub fn status(&self, needed_approvals: u32, n_tranches: u32) -> (r: ApprovalStatus)
        ensures
            r == spec_status(self.assignments@, needed_approvals, n_tranches),
    {
        let approved = self.count_state(ValidatorState::Approved);
        if approved >= needed_approvals as usize {
            return ApprovalStatus::Approved;
        }
        let pending = self.count_state(ValidatorState::Pending);
        if pending == 0 && self.has_final_tranche(n_tranches) {
            ApprovalStatus::Undetermined
        } else {
            ApprovalStatus::Pending
        }
    }

    /// Record a fresh pending assignment of validator `v` at `tranche`,
    /// activating at `activation_tick`. Fails with `DuplicateAssignment`, and
    /// changes nothing, exactly when `v` already has an assignment here.
    pub fn record_assignment(&mut self, v: u32, tranche: u32, activation_tick: u64) -> (r: Result<
        (),
        StoreError,
    >)
        requires
            old(self).wf(),
        ensures
            final(self).wf(),
            final(self).candidate_hash == old(self).candidate_hash,
            final(self).our_assignment_broadcast == old(self).our_assignment_broadcast,
            match r {
                Ok(()) => !is_assigned(old(self).assignments@, v) && final(self).assignments@
                    == old(self).assignments@.push(
                    (AssignmentEntry {
                        validator: v,
                        tranche,
                        activation_tick,
                        state: ValidatorState::Pending,
                    }),
                ),
                Err(e) => e == StoreError::DuplicateAssignment && is_assigned(
                    old(self).assignments@,
                    v,
                ) && final(self).assignments@ == old(self).assignments@,
            },
            count_in_state(final(self).assignments@, ValidatorState::Approved) == count_in_state(
                old(self).assignments@,
                ValidatorState::Approved,
            ),
    {
        match self.find_assignment(v) {
            Some(_) => Err(StoreError::DuplicateAssignment),
            None => {
                let e = AssignmentEntry {
                    validator: v,
                    tranche,
                    activation_tick,
                    state: ValidatorState::Pending,
                };
                self.assignments.push(e);
                proof {
                    lemma_count_push(old(self).assignments@, e, ValidatorState::Approved);
                }
                Ok(())
            },
        }
    }

    /// Record an approval from validator `v`: moves `v` from pending or
    /// no-show into approved (idempotent if already approved). Fails with
    /// `UnassignedValidator`, and changes nothing, exactly when `v` was never
    /// assigned here.
    pub fn record_approval(&mut self, v: u32) -> (r: Result<(), StoreError>)
        requires
            old(self).wf(),
        ensures
            final(self).wf(),
            final(self).candidate_hash == old(self).candidate_hash,
            final(self).our_assignment_broadcast == old(self).our_assignment_broadcast,
            match r {
                Ok(()) => {
                    &&& is_assigned(old(self).assignments@, v)
                    &&& forall|v2: u32|
                        is_assigned(final(self).assignments@, v2) == is_assigned(
                            old(self).assignments@,
                            v2,
                        )
                    &&& state_of(final(self).assignments@, v) == ValidatorState::Approved
                    &&& forall|v2: u32|
                        is_assigned(old(self).assignments@, v2) && v2 != v ==> state_of(
                            final(self).assignments@,
                            v2,
                        ) == state_of(old(self).assignments@, v2)
                    &&& final(self).assignments@.len() == old(self).assignments@.len()
                    &&& forall|i: int|
                        0 <= i < old(self).assignments@.len() ==> {
                            &&& final(self).assignments@[i].validator == old(
                                self,
                            ).assignments@[i].validator
                            &&& final(self).assignments@[i].tranche == old(
                                self,
                            ).assignments@[i].tranche
                            &&& final(self).assignments@[i].activation_tick == old(
                                self,
                            ).assignments@[i].activation_tick
                        }
                },
                Err(e) => e == StoreError::UnassignedValidator && !is_assigned(
                    old(self).assignments@,
                    v,
                ) && final(self).assignments@ == old(self).assignments@,
            },
            count_in_state(final(self).assignments@, ValidatorState::Approved) >= count_in_state(
                old(self).assignments@,
                ValidatorState::Approved,
            ),
    {
        match self.find_assignment(v) {
            None => Err(StoreError::UnassignedValidator),
            Some(i) => {
                let mut e = self.assignments[i];
                e.state = ValidatorState::Approved;
                proof {
                    lemma_update_same_validator(old(self).assignments@, i as int, e);
                    lemma_count_update(
                        old(self).assignments@,
                        i as int,
                        e,
                        ValidatorState::Approved,
                    );
                }
                self.assignments.set(i, e);
                Ok(())
            },
        }
    }

    /// Mark every pending validator whose no-show delay has elapsed at
    /// `current_tick` as no-show, and return the newly marked validators in
    /// entry order. No other entry changes; approvals are never touched.
    pub fn mark_no_shows(&mut self, current_tick: u64, delay: u64) -> (marked: Vec<u32>)
        requires
            old(self).wf(),
        ensures
            final(self).wf(),
            final(self).candidate_hash == old(self).candidate_hash,
            final(self).our_assignment_broadcast == old(self).our_assignment_broadcast,
            final(self).assignments@.len() == old(self).assignments@.len(),
            forall|i: int|
                0 <= i < old(self).assignments@.len() ==> {
                    &&& final(self).assignments@[i].validator == old(
                        self,
                    ).assignments@[i].validator
                    &&& final(self).assignments@[i].tranche == old(self).assignments@[i].tranche
                    &&& final(self).assignments@[i].activation_tick == old(
                        self,
                    ).assignments@[i].activation_tick
                    &&& final(self).assignments@[i].state == (if no_show_due(
                        old(self).assignments@[i],
                        current_tick,
                        delay,
                    ) {
                        ValidatorState::NoShow
                    } else {
                        old(self).assignments@[i].state
                    })
                },
            marked@ == due_no_show_validators(old(self).assignments@, current_tick, delay),
            count_in_state(final(self).assignments@, ValidatorState::Approved) == count_in_state(
                old(self).assignments@,
                ValidatorState::Approved,
            ),
    {
        let n = self.assignments.len();
        let mut marked: Vec<u32> = Vec::new();
        let mut i: usize = 0;
        while i < n
            invariant
                old(self).wf(),
                n == old(self).assignments@.len(),
                self.assignments@.len() == n,
                i <= n,
                self.candidate_hash == old(self).candidate_hash,
                self.our_assignment_broadcast == old(self).our_assignment_broadcast,
                forall|j: int| i <= j < n ==> self.assignments@[j] == old(self).assignments@[j],
                forall|j: int|
                    0 <= j < i ==> {
                        &&& self.assignments@[j].validator == old(self).assignments@[j].validator
                        &&& self.assignments@[j].tranche == old(self).assignments@[j].tranche
                        &&& self.assignments@[j].activation_tick == old(
                            self,
                        ).assignments@[j].activation_tick
                        &&& self.assignments@[j].state == (if no_show_due(
                            old(self).assignments@[j],
                            current_tick,
                            delay,
                        ) {
                            ValidatorState::NoShow
                        } else {
                            old(self).assignments@[j].state
                        })
                    },
                marked@ == due_no_show_validators(
                    old(self).assignments@.take(i as int),
                    current_tick,
                    delay,
                ),
                count_in_state(self.assignments@, ValidatorState::Approved) == count_in_state(
                    old(self).assignments@,
                    ValidatorState::Approved,
                ),
            decreases n - i,
        {
            proof {
                assert(old(self).assignments@.take(i + 1).drop_last() =~= old(
                    self,
                ).assignments@.take(i as int));
                assert(old(self).assignments@.take(i + 1).last() == old(self).assignments@[i as int]);
            }
            let e = self.assignments[i];
            let due = matches!(e.state, ValidatorState::Pending) && current_tick
                >= e.activation_tick && current_tick - e.activation_tick >= delay;
            if due {
                let mut e2 = e;
                e2.state = ValidatorState::NoShow;
                proof {
                    lemma_count_update(self.assignments@, i as int, e2, ValidatorState::Approved);
                }
                self.assignments.set(i, e2);
                marked.push(e.validator);
            }
            i = i + 1;
        }
        proof {
            assert(old(self).assignments@.take(n as int) =~= old(self).assignments@);
            assert forall|i2: int, j2: int|
                0 <= i2 < j2 < self.assignments@.len() implies self.assignments@[i2].validator
                != self.assignments@[j2].validator by {
                assert(self.assignments@[i2].validator == old(self).assignments@[i2].validator);
                assert(self.assignments@[j2].validator == old(self).assignments@[j2].validator);
            }
        }
        marked
    }
}

/// A validator is always in exactly one of the three states: for a
/// well-formed record, the pending, approved and no-show sets are pairwise
/// disjoint and their union is exactly the assigned-validator set.
pub proof fn lemma_validator_states_partition(c: CandidateEntry)
    requires
        c.wf(),
    ensures
        validators_in_state(c.assignments@, ValidatorState::Pending).union(
            validators_in_state(c.assignments@, ValidatorState::Approved),
        ).union(validators_in_state(c.assignments@, ValidatorState::NoShow))
            =~= assigned_validators(c.assignments@),
        validators_in_state(c.assignments@, ValidatorState::Pending).intersect(
            validators_in_state(c.assignments@, ValidatorState::Approved),
        ) =~= Set::<u32>::empty(),
        validators_in_state(c.assignments@, ValidatorState::Pending).intersect(
            validators_in_state(c.assignments@, ValidatorState::NoShow),
        ) =~= Set::<u32>::empty(),
        validators_in_state(c.assignments@, ValidatorState::Approved).intersect(
            validators_in_state(c.assignments@, ValidatorState::NoShow),
        ) =~= Set::<u32>::empty(),
{
    let s = c.assignments@;
    assert forall|v: u32| assigned_validators(s).contains(v) implies validators_in_state(
        s,
        ValidatorState::Pending,
    ).union(validators_in_state(s, ValidatorState::Approved)).union(
        validators_in_state(s, ValidatorState::NoShow),
    ).contains(v) by {
        let st = state_of(s, v);
        assert(st == ValidatorState::Pending || st == ValidatorState::Approved || st
            == ValidatorState::NoShow);
    }
}

/// No two blocks share a hash, and every candidate record is well-formed.
pub open spec fn blocks_wf(s: Seq<BlockEntry>) -> bool {
    &&& forall|i: int, j: int| 0 <= i < j < s.len() ==> s[i].block_hash != s[j].block_hash
    &&& forall|i: int, k: int|
        0 <= i < s.len() && 0 <= k < s[i].candidates@.len() ==> (#[trigger] s[i].candidates@[k]).wf()
    &&& forall|i: int| 0 <= i < s.len() ==> (#[trigger] s[i].candidates@.len()) <= u32::MAX
}

/// The blocks of `s` whose session is not `sess`, in order.
pub open spec fn drop_session(s: Seq<BlockEntry>, sess: u32) -> Seq<BlockEntry>
    decreases s.len(),
{
    if s.len() == 0 {
        Seq::empty()
    } else if s.last().session == sess {
        drop_session(s.drop_last(), sess)
    } else {
        drop_session(s.drop_last(), sess).push(s.last())
    }
}

/// `drop_session` keeps exactly the blocks of other sessions.
proof fn lemma_drop_session_contains(s: Seq<BlockEntry>, sess: u32, b: BlockEntry)
    ensures
        drop_session(s, sess).contains(b) == (s.contains(b) && b.session != sess),
    decreases s.len(),
{
    if s.len() > 0 {
        lemma_drop_session_contains(s.drop_last(), sess, b);
        let t = drop_session(s.drop_last(), sess);
        let d = drop_session(s, sess);
        if s.contains(b) && b.session != sess {
            let i = choose|i: int| 0 <= i < s.len() && s[i] == b;
            if i < s.len() - 1 {
                assert(s.drop_last()[i] == b);
                assert(s.drop_last().contains(b));
                let j = choose|j: int| 0 <= j < t.len() && t[j] == b;
                if s.last().session != sess {
                    assert(d == t.push(s.last()));
                }
                assert(d[j] == b);
                assert(d.contains(b));
            } else {
                assert(b == s.last());
                assert(d == t.push(s.last()));
                assert(d[d.len() - 1] == b);
                assert(d.contains(b));
            }
        }
        if d.contains(b) {
            if s.last().session == sess {
                assert(t.contains(b));
                assert(s.drop_last().contains(b));
                let i = choose|i: int| 0 <= i < s.drop_last().len() && s.drop_last()[i] == b;
                assert(s.drop_last()[i] == s[i]);
                assert(s.contains(b));
            } else {
                assert(d == t.push(s.last()));
                let j = choose|j: int| 0 <= j < d.len() && d[j] == b;
                if j < t.len() {
                    assert(t[j] == b);
                    assert(t.contains(b));
                    assert(s.drop_last().contains(b));
                    let i = choose|i: int|
                        0 <= i < s.drop_last().len() && s.drop_last()[i] == b;
                    assert(s.drop_last()[i] == s[i]);
                    assert(s.contains(b));
                } else {
                    assert(b == s.last());
                    assert(s[s.len() - 1] == b);
                    assert(s.contains(b));
                }
            }
        }
    }
}

/// Two blocks of a hash-unique sequence with the same hash are the same block.
proof fn lemma_unique_hash_element(s: Seq<BlockEntry>, b1: BlockEntry, b2: BlockEntry)
    requires
        forall|i: int, j: int| 0 <= i < j < s.len() ==> s[i].block_hash != s[j].block_hash,
        s.contains(b1),
        s.contains(b2),
        b1.block_hash == b2.block_hash,
    ensures
        b1 == b2,
{
    let i = choose|i: int| 0 <= i < s.len() && s[i] == b1;
    let j = choose|j: int| 0 <= j < s.len() && s[j] == b2;
    if i < j {
        assert(s[i].block_hash != s[j].block_hash);
    } else if j < i {
        assert(s[j].block_hash != s[i].block_hash);
    }
}

impl Store {
    /// Internal invariant of the whole store.
    pub open spec fn wf(self) -> bool {
        blocks_wf(self.blocks@)
    }

    /// An empty store.
    pub fn new() -> (r: Store)
        ensures
            r.wf(),
            r.blocks@.len() == 0,
    {
        Store { blocks: Vec::new() }
    }

    /// Whether a block with hash `bh` is known.
    pub open spec fn has_block(self, bh: u64) -> bool {
        exists|i: int| 0 <= i < self.blocks@.len() && self.blocks@[i].block_hash == bh
    }

    /// Index of the block with hash `bh` (meaningful only when present).
    pub open spec fn block_index(self, bh: u64) -> int {
        choose|i: int| 0 <= i < self.blocks@.len() && self.blocks@[i].block_hash == bh
    }

    /// The block with hash `bh` (meaningful only when present).
    pub open spec fn block_of(self, bh: u64) -> BlockEntry {
        self.blocks@[self.block_index(bh)]
    }

    /// Whether the key (block hash `bh`, candidate index `ci`) names a record.
    pub open spec fn has_candidate(self, bh: u64, ci: u32) -> bool {
        self.has_block(bh) && (ci as int) < self.block_of(bh).candidates@.len()
    }

    /// The candidate record under that key (meaningful only when present).
    pub open spec fn candidate_of(self, bh: u64, ci: u32) -> CandidateEntry {
        self.block_of(bh).candidates@[ci as int]
    }

    /// Position of the block with hash `bh`, if any.
    pub fn find_block(&self, bh: u64) -> (r: Option<usize>)
        requires
            self.wf(),
        ensures
            match r {
                Some(i) => i < self.blocks@.len() && self.blocks@[i as int].block_hash == bh
                    && self.has_block(bh) && self.block_index(bh) == i as int,
                None => !self.has_block(bh),
            },
    {
        let n = self.blocks.len();
        let mut i: usize = 0;
        while i < n
            invariant
                self.wf(),
                n == self.blocks@.len(),
                i <= n,
                forall|j: int| 0 <= j < i ==> self.blocks@[j].block_hash != bh,
            decreases n - i,
        {
            if self.blocks[i].block_hash == bh {
                proof {
                    assert(self.has_block(bh));
                    let w = self.block_index(bh);
                    assert(self.blocks@[w].block_hash == bh);
                    if w < i as int {
                        assert(self.blocks@[w].block_hash != self.blocks@[i as int].block_hash);
                    } else if (i as int) < w {
                        assert(self.blocks@[i as int].block_hash != self.blocks@[w].block_hash);
                    }
                }
                return Some(i);
            }
            i = i + 1;
        }
        None
    }

    /// Create fresh, empty candidate records for a newly observed relay block.
    /// Does nothing if a block with this hash is already known.
    pub fn insert_block(
        &mut self,
        block_hash: u64,
        parent_hash: u64,
        session: u32,
        block_tick: u64,
        candidate_hashes: &Vec<u64>,
    ) -> (inserted: bool)
        requires
            old(self).wf(),
            candidate_hashes@.len() <= u32::MAX,
        ensures
            final(self).wf(),
            inserted == !old(self).has_block(block_hash),
            !inserted ==> final(self).blocks@ == old(self).blocks@,
            inserted ==> {
                &&& final(self).blocks@.len() == old(self).blocks@.len() + 1
                &&& forall|j: int|
                    0 <= j < old(self).blocks@.len() ==> final(self).blocks@[j] == old(
                        self,
                    ).blocks@[j]
                &&& final(self).blocks@.last().block_hash == block_hash
                &&& final(self).blocks@.last().parent_hash == parent_hash
                &&& final(self).blocks@.last().session == session
                &&& final(self).blocks@.last().block_tick == block_tick
                &&& final(self).blocks@.last().candidates@.len() == candidate_hashes@.len()
                &&& forall|k: int|
                    0 <= k < candidate_hashes@.len() ==> {
                        &&& (#[trigger] final(self).blocks@.last().candidates@[k]).candidate_hash
                            == candidate_hashes@[k]
                        &&& final(self).blocks@.last().candidates@[k].assignments@.len() == 0
                        &&& !final(self).blocks@.last().candidates@[k].our_assignment_broadcast
                    }
            },
            final(self).has_block(block_hash),
            forall|bh2: u64|
                old(self).has_block(bh2) ==> final(self).has_block(bh2) && final(self).block_of(
                    bh2,
                ) == old(self).block_of(bh2),
    {
        match self.find_block(block_hash) {
            Some(_) => false,
            None => {
                let n = candidate_hashes.len();
                let mut candidates: Vec<CandidateEntry> = Vec::new();
                let mut k: usize = 0;
                while k < n
                    invariant
                        n == candidate_hashes@.len(),
                        k <= n,
                        candidates@.len() == k,
                        forall|j: int|
                            0 <= j < k ==> {
                                &&& (#[trigger] candidates@[j]).candidate_hash
                                    == candidate_hashes@[j]
                                &&& candidates@[j].assignments@.len() == 0
                                &&& !candidates@[j].our_assignment_broadcast
                                &&& candidates@[j].wf()
                            },
                    decreases n - k,
                {
                    candidates.push(CandidateEntry::new(candidate_hashes[k]));
                    k = k + 1;
                }
                let b = BlockEntry { block_hash, parent_hash, session, block_tick, candidates };
                self.blocks.push(b);
                proof {
                    let pre = old(self).blocks@;
                    let post = self.blocks@;
                    assert forall|bh2: u64| old(self).has_block(bh2) implies self.has_block(bh2)
                        && self.block_of(bh2) == old(self).block_of(bh2) by {
                        let i = old(self).block_index(bh2);
                        assert(post[i].block_hash == bh2);
                        assert(self.has_block(bh2));
                        let w = self.block_index(bh2);
                        assert(post[w].block_hash == bh2);
                        if w < i {
                            assert(post[w].block_hash != post[i].block_hash);
                        } else if i < w {
                            assert(post[i].block_hash != post[w].block_hash);
                        }
                    }
                }
                true
            },
        }
    }

    /// Evict every block that belongs to session `sess`, together with all its
    /// candidate records. Blocks of other sessions are untouched.
    pub fn prune_session(&mut self, sess: u32)
        requires
            old(self).wf(),
        ensures
            final(self).wf(),
            final(self).blocks@ == drop_session(old(self).blocks@, sess),
            forall|bh: u64|
                final(self).has_block(bh) == (old(self).has_block(bh) && old(self).block_of(
                    bh,
                ).session != sess),
            forall|bh: u64|
                final(self).has_block(bh) ==> final(self).block_of(bh) == old(self).block_of(bh),
    {
        let n = self.blocks.len();
        let mut kept: Vec<BlockEntry> = Vec::new();
        let mut i: usize = 0;
        while i < n
            invariant
                old(self).wf(),
                n == old(self).blocks@.len(),
                i <= n,
                self.blocks@ == old(self).blocks@.skip(i as int),
                kept@ == drop_session(old(self).blocks@.take(i as int), sess),
            decreases n - i,
        {
            proof {
                assert(old(self).blocks@.take(i + 1).drop_last() =~= old(self).blocks@.take(
                    i as int,
                ));
                assert(old(self).blocks@.take(i + 1).last() == old(self).blocks@[i as int]);
                assert(self.blocks@[0] == old(self).blocks@[i as int]);
            }
            let b = self.blocks.remove(0);
            if b.session != sess {
                kept.push(b);
            }
            proof {
                assert(self.blocks@ =~= old(self).blocks@.skip(i + 1));
            }
            i = i + 1;
        }
        proof {
            assert(old(self).blocks@.take(n as int) =~= old(self).blocks@);
        }
        self.blocks = kept;
        proof {
            let pre = old(self).blocks@;
            let post = self.blocks@;
            assert(post == drop_session(pre, sess));
            assert forall|i2: int, j2: int|
                0 <= i2 < j2 < post.len() implies post[i2].block_hash != post[j2].block_hash by {
                assert(post == drop_session(pre, sess));
                assert(post.contains(post[i2]));
                assert(post.contains(post[j2]));
                lemma_drop_session_contains(pre, sess, post[i2]);
                lemma_drop_session_contains(pre, sess, post[j2]);
                if post[i2].block_hash == post[j2].block_hash {
                    lemma_unique_hash_element(pre, post[i2], post[j2]);
                    lemma_drop_session_distinct_indices(pre, sess, i2, j2);
                }
            }
            assert forall|i2: int, k2: int|
                0 <= i2 < post.len() && 0 <= k2 < post[i2].candidates@.len() implies (
            #[trigger] post[i2].candidates@[k2]).wf() by {
                assert(post == drop_session(pre, sess));
                assert(post.contains(post[i2]));
                lemma_drop_session_contains(pre, sess, post[i2]);
                assert(pre.contains(post[i2]));
                let w = choose|w: int| 0 <= w < pre.len() && pre[w] == post[i2];
                assert(pre[w].candidates@[k2].wf());
            }
            assert forall|i2: int|
                0 <= i2 < post.len() implies (#[trigger] post[i2].candidates@.len())
                <= u32::MAX by {
                assert(post == drop_session(pre, sess));
                assert(post.contains(post[i2]));
                lemma_drop_session_contains(pre, sess, post[i2]);
                let w = choose|w: int| 0 <= w < pre.len() && pre[w] == post[i2];
                assert(pre[w].candidates@.len() <= u32::MAX);
            }
            assert forall|bh: u64|
                self.has_block(bh) == (old(self).has_block(bh) && old(self).block_of(
                    bh,
                ).session != sess) by {
                if self.has_block(bh) {
                    assert(post == drop_session(pre, sess));
                    let i2 = self.block_index(bh);
                    assert(post.contains(post[i2]));
                    let b = post[i2];
                    lemma_drop_session_contains(pre, sess, b);
                    assert(pre.contains(b) && b.session != sess);
                    let w = choose|w: int| 0 <= w < pre.len() && pre[w] == b;
                    assert(old(self).has_block(bh));
                    let w2 = old(self).block_index(bh);
                    if w < w2 {
                        assert(pre[w].block_hash != pre[w2].block_hash);
                    } else if w2 < w {
                        assert(pre[w2].block_hash != pre[w].block_hash);
                    }
                    assert(old(self).block_of(bh).session != sess);
                }
                if old(self).has_block(bh) && old(self).block_of(bh).session != sess {
                    assert(post == drop_session(pre, sess));
                    let b = old(self).block_of(bh);
                    assert(pre.contains(b));
                    lemma_drop_session_contains(pre, sess, b);
                    assert(post.contains(b));
                    let w = choose|w: int| 0 <= w < post.len() && post[w] == b;
                    assert(self.has_block(bh));
                }
            }
            assert forall|bh: u64| self.has_block(bh) implies self.block_of(bh)
                == old(self).block_of(bh) by {
                assert(post == drop_session(pre, sess));
                let b = self.block_of(bh);
                let i2 = self.block_index(bh);
                assert(post.contains(post[i2]));
                lemma_drop_session_contains(pre, sess, b);
                assert(pre.contains(b));
                let b2 = old(self).block_of(bh);
                assert(old(self).has_block(bh) && old(self).block_of(bh).session != sess);
                assert(pre.contains(b2));
                lemma_unique_hash_element(pre, b, b2);
            }
        }
    }
}

/// Stores with pointwise-equal block hashes resolve every hash alike.
proof fn lemma_same_hashes_lookup(pre: Store, post: Store)
    requires
        pre.wf(),
        post.blocks@.len() == pre.blocks@.len(),
        forall|i: int|
            0 <= i < pre.blocks@.len() ==> post.blocks@[i].block_hash
                == pre.blocks@[i].block_hash,
    ensures
        forall|bh: u64| post.has_block(bh) == pre.has_block(bh),
        forall|bh: u64|
            #[trigger] pre.has_block(bh) ==> post.block_index(bh) == pre.block_index(bh),
{
    assert forall|bh: u64| post.has_block(bh) == pre.has_block(bh) by {
        if post.has_block(bh) {
            let i = post.block_index(bh);
            assert(pre.blocks@[i].block_hash == bh);
            assert(pre.has_block(bh));
        }
        if pre.has_block(bh) {
            let i = pre.block_index(bh);
            assert(post.blocks@[i].block_hash == bh);
            assert(post.has_block(bh));
        }
    }
    assert forall|bh: u64| #[trigger] pre.has_block(bh) implies post.block_index(bh)
        == pre.block_index(bh) by {
        let i = pre.block_index(bh);
        assert(post.blocks@[i].block_hash == bh);
        let j = post.block_index(bh);
        assert(post.blocks@[j].block_hash == bh);
        assert(pre.blocks@[j].block_hash == bh);
        if i < j {
            assert(pre.blocks@[i].block_hash != pre.blocks@[j].block_hash);
        } else if j < i {
            assert(pre.blocks@[j].block_hash != pre.blocks@[i].block_hash);
        }
    }
}

/// The store after a mutation confined to the candidate record under
/// (`bh`, `ci`): every other block, every other candidate of that block, and
/// the block's own fields are unchanged, and every block hash still resolves
/// as before.
pub open spec fn same_outside_candidate(pre: Store, post: Store, bh: u64, ci: u32) -> bool {
    &&& pre.has_candidate(bh, ci)
    &&& post.blocks@.len() == pre.blocks@.len()
    &&& forall|j: int|
        0 <= j < pre.blocks@.len() && j != pre.block_index(bh) ==> post.blocks@[j]
            == pre.blocks@[j]
    &&& post.blocks@[pre.block_index(bh)].block_hash == bh
    &&& post.blocks@[pre.block_index(bh)].parent_hash == pre.block_of(bh).parent_hash
    &&& post.blocks@[pre.block_index(bh)].session == pre.block_of(bh).session
    &&& post.blocks@[pre.block_index(bh)].block_tick == pre.block_of(bh).block_tick
    &&& post.blocks@[pre.block_index(bh)].candidates@.len() == pre.block_of(
        bh,
    ).candidates@.len()
    &&& forall|k: int|
        0 <= k < pre.block_of(bh).candidates@.len() && k != ci as int ==> post.blocks@[pre.block_index(
            bh,
        )].candidates@[k] == pre.block_of(bh).candidates@[k]
}

/// Lookups survive a mutation confined to one candidate record.
pub proof fn lemma_same_outside_lookups(pre: Store, post: Store, bh: u64, ci: u32)
    requires
        pre.wf(),
        same_outside_candidate(pre, post, bh, ci),
    ensures
        forall|bh2: u64| post.has_block(bh2) == pre.has_block(bh2),
        forall|bh2: u64|
            #[trigger] pre.has_block(bh2) ==> post.block_index(bh2) == pre.block_index(bh2),
        forall|bh2: u64|
            pre.has_block(bh2) && bh2 != bh ==> post.block_of(bh2) == pre.block_of(bh2),
        post.has_candidate(bh, ci),
        forall|cj: u32|
            pre.has_candidate(bh, cj) && cj != ci ==> post.has_candidate(bh, cj)
                && post.candidate_of(bh, cj) == pre.candidate_of(bh, cj),
        post.candidate_of(bh, ci) == post.blocks@[pre.block_index(bh)].candidates@[ci as int],
{
    assert forall|i: int|
        0 <= i < pre.blocks@.len() implies post.blocks@[i].block_hash
        == pre.blocks@[i].block_hash by {
        if i != pre.block_index(bh) {
            assert(post.blocks@[i] == pre.blocks@[i]);
        }
    }
    lemma_same_hashes_lookup(pre, post);
    assert forall|bh2: u64|
        pre.has_block(bh2) && bh2 != bh implies post.block_of(bh2) == pre.block_of(bh2) by {
        let i = pre.block_index(bh2);
        assert(pre.blocks@[i].block_hash == bh2);
        assert(i != pre.block_index(bh));
        assert(post.blocks@[i] == pre.blocks@[i]);
        assert(post.block_index(bh2) == i);
    }
    assert(post.block_index(bh) == pre.block_index(bh));
}

/// Distinct positions of `drop_session`'s result come from distinct blocks
/// when the source blocks are hash-unique; stated via hash inequality.
proof fn lemma_drop_session_distinct_indices(s: Seq<BlockEntry>, sess: u32, i: int, j: int)
    requires
        forall|a: int, b: int| 0 <= a < b < s.len() ==> s[a].block_hash != s[b].block_hash,
        0 <= i < j < drop_session(s, sess).len(),
    ensures
        drop_session(s, sess)[i].block_hash != drop_session(s, sess)[j].block_hash,
    decreases s.len(),
{
    if s.len() > 0 {
        let t = drop_session(s.drop_last(), sess);
        if s.last().session == sess {
            lemma_drop_session_distinct_indices(s.drop_last(), sess, i, j);
        } else {
            if j < t.len() {
                lemma_drop_session_distinct_indices(s.drop_last(), sess, i, j);
            } else {
                assert(drop_session(s, sess)[j] == s.last());
                lemma_drop_session_contains(s.drop_last(), sess, t[i]);
                assert(t.contains(t[i]));
                assert(s.drop_last().contains(t[i]));
                let w = choose|w: int| 0 <= w < s.drop_last().len() && s.drop_last()[w] == t[i];
                assert(s.drop_last()[w] == s[w]);
                assert(s[w] == t[i]);
                assert(s[w].block_hash != s[s.len() - 1].block_hash);
                assert(drop_session(s, sess)[i] == t[i]);
            }
        }
    }
}

/// A wakeup for a candidate of a pruned session is inert: after pruning
/// session `sess`, no (block, candidate) key of one of its blocks resolves in
/// the store any more, so processing such a wakeup finds nothing to act on.
pub proof fn lemma_pruned_wakeups_inert(pre: Store, post: Store, sess: u32, bh: u64)
    requires
        pre.wf(),
        post.blocks@ == drop_session(pre.blocks@, sess),
        pre.has_block(bh),
        pre.block_of(bh).session == sess,
    ensures
        !post.has_block(bh),
        forall|ci: u32| !post.has_candidate(bh, ci),
{
    if post.has_block(bh) {
        let i = post.block_index(bh);
        assert(post.blocks@.contains(post.blocks@[i]));
        let b = post.blocks@[i];
        lemma_drop_session_contains(pre.blocks@, sess, b);
        assert(pre.blocks@.contains(b) && b.session != sess);
        let b2 = pre.block_of(bh);
        assert(pre.blocks@.contains(b2));
        lemma_unique_hash_element(pre.blocks@, b, b2);
    }
}

/// Approval status is monotone in the approved count: any step that does not
/// lose approvals keeps an `Approved` candidate approved.
pub proof fn lemma_status_monotone(
    pre: Seq<AssignmentEntry>,
    post: Seq<AssignmentEntry>,
    needed: u32,
    n_tranches: u32,
)
    requires
        count_in_state(post, ValidatorState::Approved) >= count_in_state(
            pre,
            ValidatorState::Approved,
        ),
    ensures
        spec_status(pre, needed, n_tranches) == ApprovalStatus::Approved ==> spec_status(
            post,
            needed,
            n_tranches,
        ) == ApprovalStatus::Approved,
{
}

impl Store {
    /// Record a pending assignment of validator `v` for the candidate under
    /// (`bh`, `ci`). Fails with `UnknownCandidate` when the key resolves to no
    /// record, with `DuplicateAssignment` when `v` is already assigned there;
    /// on failure the store is unchanged.
    pub fn record_assignment(
        &mut self,
        bh: u64,
        ci: u32,
        v: u32,
        tranche: u32,
        activation_tick: u64,
    ) -> (r: Result<(), StoreError>)
        requires
            old(self).wf(),
        ensures
            final(self).wf(),
            r is Ok ==> {
                &&& old(self).has_candidate(bh, ci)
                &&& !is_assigned(old(self).candidate_of(bh, ci).assignments@, v)
                &&& same_outside_candidate(*old(self), *final(self), bh, ci)
                &&& final(self).candidate_of(bh, ci).assignments@ == old(self).candidate_of(
                    bh,
                    ci,
                ).assignments@.push(
                    (AssignmentEntry {
                        validator: v,
                        tranche,
                        activation_tick,
                        state: ValidatorState::Pending,
                    }),
                )
                &&& final(self).candidate_of(bh, ci).candidate_hash == old(self).candidate_of(
                    bh,
                    ci,
                ).candidate_hash
                &&& final(self).candidate_of(bh, ci).our_assignment_broadcast == old(
                    self,
                ).candidate_of(bh, ci).our_assignment_broadcast
            },
            r == Err::<(), StoreError>(StoreError::UnknownCandidate) ==> !old(self).has_candidate(
                bh,
                ci,
            ) && final(self).blocks@ == old(self).blocks@,
            r == Err::<(), StoreError>(StoreError::DuplicateAssignment) ==> old(
                self,
            ).has_candidate(bh, ci) && is_assigned(old(self).candidate_of(bh, ci).assignments@, v)
                && final(self).blocks@ == old(self).blocks@,
            r != Err::<(), StoreError>(StoreError::UnassignedValidator),
            r is Ok <==> old(self).has_candidate(bh, ci) && !is_assigned(
                old(self).candidate_of(bh, ci).assignments@,
                v,
            ),
    {
        let bi = match self.find_block(bh) {
            None => {
                return Err(StoreError::UnknownCandidate);
            },
            Some(bi) => bi,
        };
        if ci as usize >= self.blocks[bi].candidates.len() {
            return Err(StoreError::UnknownCandidate);
        }
        if self.blocks[bi].candidates[ci as usize].find_assignment(v).is_some() {
            return Err(StoreError::DuplicateAssignment);
        }
        let r = self.blocks[bi].candidates[ci as usize].record_assignment(
            v,
            tranche,
            activation_tick,
        );
        proof {
            lemma_store_wf_after_candidate_update(*old(self), *self, bh, ci);
        }
        r
    }

    /// Record an approval from validator `v` for the candidate under
    /// (`bh`, `ci`): moves `v` from pending or no-show into approved. Fails
    /// with `UnknownCandidate` when the key resolves to no record, with
    /// `UnassignedValidator` when `v` was never assigned there; on failure the
    /// store is unchanged. Never lowers the approved count of any candidate.
    pub fn record_approval(&mut self, bh: u64, ci: u32, v: u32) -> (r: Result<(), StoreError>)
        requires
            old(self).wf(),
        ensures
            final(self).wf(),
            r is Ok ==> {
                &&& old(self).has_candidate(bh, ci)
                &&& is_assigned(old(self).candidate_of(bh, ci).assignments@, v)
                &&& same_outside_candidate(*old(self), *final(self), bh, ci)
                &&& state_of(final(self).candidate_of(bh, ci).assignments@, v)
                    == ValidatorState::Approved
                &&& forall|v2: u32|
                    is_assigned(final(self).candidate_of(bh, ci).assignments@, v2) == is_assigned(
                        old(self).candidate_of(bh, ci).assignments@,
                        v2,
                    )
                &&& forall|v2: u32|
                    is_assigned(old(self).candidate_of(bh, ci).assignments@, v2) && v2 != v
                        ==> state_of(final(self).candidate_of(bh, ci).assignments@, v2)
                        == state_of(old(self).candidate_of(bh, ci).assignments@, v2)
                &&& count_in_state(
                    final(self).candidate_of(bh, ci).assignments@,
                    ValidatorState::Approved,
                ) >= count_in_state(
                    old(self).candidate_of(bh, ci).assignments@,
                    ValidatorState::Approved,
                )
                &&& final(self).candidate_of(bh, ci).candidate_hash == old(self).candidate_of(
                    bh,
                    ci,
                ).candidate_hash
                &&& final(self).candidate_of(bh, ci).our_assignment_broadcast == old(
                    self,
                ).candidate_of(bh, ci).our_assignment_broadcast
                &&& final(self).candidate_of(bh, ci).assignments@.len() == old(self).candidate_of(
                    bh,
                    ci,
                ).assignments@.len()
                &&& forall|i: int|
                    0 <= i < old(self).candidate_of(bh, ci).assignments@.len() ==> {
                        &&& final(self).candidate_of(bh, ci).assignments@[i].validator == old(
                            self,
                        ).candidate_of(bh, ci).assignments@[i].validator
                        &&& final(self).candidate_of(bh, ci).assignments@[i].tranche == old(
                            self,
                        ).candidate_of(bh, ci).assignments@[i].tranche
                        &&& final(self).candidate_of(bh, ci).assignments@[i].activation_tick
                            == old(self).candidate_of(bh, ci).assignments@[i].activation_tick
                    }
            },
            r == Err::<(), StoreError>(StoreError::UnknownCandidate) ==> !old(self).has_candidate(
                bh,
                ci,
            ) && final(self).blocks@ == old(self).blocks@,
            r == Err::<(), StoreError>(StoreError::UnassignedValidator) ==> old(
                self,
            ).has_candidate(bh, ci) && !is_assigned(old(self).candidate_of(bh, ci).assignments@, v)
                && final(self).blocks@ == old(self).blocks@,
            r != Err::<(), StoreError>(StoreError::DuplicateAssignment),
            r is Ok <==> old(self).has_candidate(bh, ci) && is_assigned(
                old(self).candidate_of(bh, ci).assignments@,
                v,
            ),
    {
        let bi = match self.find_block(bh) {
            None => {
                return Err(StoreError::UnknownCandidate);
            },
            Some(bi) => bi,
        };
        if ci as usize >= self.blocks[bi].candidates.len() {
            return Err(StoreError::UnknownCandidate);
        }
        if self.blocks[bi].candidates[ci as usize].find_assignment(v).is_none() {
            return Err(StoreError::UnassignedValidator);
        }
        let r = self.blocks[bi].candidates[ci as usize].record_approval(v);
        proof {
            lemma_store_wf_after_candidate_update(*old(self), *self, bh, ci);
        }
        r
    }

    /// Mark, for the candidate under (`bh`, `ci`), every pending validator
    /// whose no-show delay elapsed at `current_tick` as no-show, returning the
    /// newly marked validators. Fails with `UnknownCandidate`, leaving the
    /// store unchanged, exactly when the key resolves to no record.
    pub fn mark_no_shows(&mut self, bh: u64, ci: u32, current_tick: u64, delay: u64) -> (r: Result<
        Vec<u32>,
        StoreError,
    >)
        requires
            old(self).wf(),
        ensures
            final(self).wf(),
            match r {
                Ok(marked) => {
                    &&& old(self).has_candidate(bh, ci)
                    &&& same_outside_candidate(*old(self), *final(self), bh, ci)
                    &&& marked@ == due_no_show_validators(
                        old(self).candidate_of(bh, ci).assignments@,
                        current_tick,
                        delay,
                    )
                    &&& final(self).candidate_of(bh, ci).assignments@.len() == old(
                        self,
                    ).candidate_of(bh, ci).assignments@.len()
                    &&& forall|i: int|
                        0 <= i < old(self).candidate_of(bh, ci).assignments@.len() ==> {
                            &&& final(self).candidate_of(bh, ci).assignments@[i].validator == old(
                                self,
                            ).candidate_of(bh, ci).assignments@[i].validator
                            &&& final(self).candidate_of(bh, ci).assignments@[i].tranche == old(
                                self,
                            ).candidate_of(bh, ci).assignments@[i].tranche
                            &&& final(self).candidate_of(bh, ci).assignments@[i].activation_tick
                                == old(self).candidate_of(bh, ci).assignments@[i].activation_tick
                            &&& final(self).candidate_of(bh, ci).assignments@[i].state == (
                            if no_show_due(
                                old(self).candidate_of(bh, ci).assignments@[i],
                                current_tick,
                                delay,
                            ) {
                                ValidatorState::NoShow
                            } else {
                                old(self).candidate_of(bh, ci).assignments@[i].state
                            })
                        }
                    &&& count_in_state(
                        final(self).candidate_of(bh, ci).assignments@,
                        ValidatorState::Approved,
                    ) == count_in_state(
                        old(self).candidate_of(bh, ci).assignments@,
                        ValidatorState::Approved,
                    )
                    &&& final(self).candidate_of(bh, ci).candidate_hash == old(self).candidate_of(
                        bh,
                        ci,
                    ).candidate_hash
                    &&& final(self).candidate_of(bh, ci).our_assignment_broadcast == old(
                        self,
                    ).candidate_of(bh, ci).our_assignment_broadcast
                },
                Err(e) => e == StoreError::UnknownCandidate && !old(self).has_candidate(bh, ci)
                    && final(self).blocks@ == old(self).blocks@,
            },
            r is Ok <==> old(self).has_candidate(bh, ci),
    {
        let bi = match self.find_block(bh) {
            None => {
                return Err(StoreError::UnknownCandidate);
            },
            Some(bi) => bi,
        };
        if ci as usize >= self.blocks[bi].candidates.len() {
            return Err(StoreError::UnknownCandidate);
        }
        let marked = self.blocks[bi].candidates[ci as usize].mark_no_shows(current_tick, delay);
        proof {
            lemma_store_wf_after_candidate_update(*old(self), *self, bh, ci);
        }
        Ok(marked)
    }

    /// Record that the local validator's own assignment for the candidate
    /// under (`bh`, `ci`) was broadcast. Fails with `UnknownCandidate`,
    /// leaving the store unchanged, exactly when the key resolves to no record.
    pub fn set_our_broadcast(&mut self, bh: u64, ci: u32) -> (r: Result<(), StoreError>)
        requires
            old(self).wf(),
        ensures
            final(self).wf(),
            r is Ok ==> {
                &&& old(self).has_candidate(bh, ci)
                &&& same_outside_candidate(*old(self), *final(self), bh, ci)
                &&& final(self).candidate_of(bh, ci).our_assignment_broadcast
                &&& final(self).candidate_of(bh, ci).assignments@ == old(self).candidate_of(
                    bh,
                    ci,
                ).assignments@
                &&& final(self).candidate_of(bh, ci).candidate_hash == old(self).candidate_of(
                    bh,
                    ci,
                ).candidate_hash
            },
            r matches Err(e) ==> e == StoreError::UnknownCandidate && !old(self).has_candidate(
                bh,
                ci,
            ) && final(self).blocks@ == old(self).blocks@,
            r is Ok <==> old(self).has_candidate(bh, ci),
    {
        let bi = match self.find_block(bh) {
            None => {
                return Err(StoreError::UnknownCandidate);
            },
            Some(bi) => bi,
        };
        if ci as usize >= self.blocks[bi].candidates.len() {
            return Err(StoreError::UnknownCandidate);
        }
        self.blocks[bi].candidates[ci as usize].our_assignment_broadcast = true;
        proof {
            lemma_store_wf_after_candidate_update(*old(self), *self, bh, ci);
        }
        Ok(())
    }

    /// Approval status of the candidate under (`bh`, `ci`), against the
    /// session's required approval count and number of tranches. Fails with
    /// `UnknownCandidate` exactly when the key resolves to no record.
    pub fn approval_status(&self, bh: u64, ci: u32, needed_approvals: u32, n_tranches: u32) -> (r:
        Result<ApprovalStatus, StoreError>)
        requires
            self.wf(),
        ensures
            match r {
                Ok(st) => self.has_candidate(bh, ci) && st == spec_status(
                    self.candidate_of(bh, ci).assignments@,
                    needed_approvals,
                    n_tranches,
                ),
                Err(e) => e == StoreError::UnknownCandidate && !self.has_candidate(bh, ci),
            },
    {
        let bi = match self.find_block(bh) {
            None => {
                return Err(StoreError::UnknownCandidate);
            },
            Some(bi) => bi,
        };
        if ci as usize >= self.blocks[bi].candidates.len() {
            return Err(StoreError::UnknownCandidate);
        }
        Ok(self.blocks[bi].candidates[ci as usize].status(needed_approvals, n_tranches))
    }
}

/// After a mutation that left every block but (`bh`, `ci`)'s block equal and
/// only touched candidate `ci` there, the store is still well-formed provided
/// the touched candidate is.
proof fn lemma_store_wf_after_candidate_update(pre: Store, post: Store, bh: u64, ci: u32)
    requires
        pre.wf(),
        pre.has_candidate(bh, ci),
        post.blocks@.len() == pre.blocks@.len(),
        forall|j: int|
            0 <= j < pre.blocks@.len() && j != pre.block_index(bh) ==> post.blocks@[j]
                == pre.blocks@[j],
        post.blocks@[pre.block_index(bh)].block_hash == bh,
        post.blocks@[pre.block_index(bh)].candidates@.len() == pre.block_of(bh).candidates@.len(),
        forall|k: int|
            0 <= k < pre.block_of(bh).candidates@.len() && k != ci as int ==> post.blocks@[pre.block_index(
                bh,
            )].candidates@[k] == pre.block_of(bh).candidates@[k],
        post.blocks@[pre.block_index(bh)].candidates@[ci as int].wf(),
    ensures
        post.wf(),
{
    let bi = pre.block_index(bh);
    assert forall|i: int, j: int|
        0 <= i < j < post.blocks@.len() implies post.blocks@[i].block_hash
        != post.blocks@[j].block_hash by {
        if i != bi {
            assert(post.blocks@[i] == pre.blocks@[i]);
        }
        if j != bi {
            assert(post.blocks@[j] == pre.blocks@[j]);
        }
        assert(pre.blocks@[bi].block_hash == bh);
    }
    assert forall|i: int, k: int|
        0 <= i < post.blocks@.len() && 0 <= k < post.blocks@[i].candidates@.len() implies (
    #[trigger] post.blocks@[i].candidates@[k]).wf() by {
        if i != bi {
            assert(post.blocks@[i] == pre.blocks@[i]);
            assert(pre.blocks@[i].candidates@[k].wf());
        } else if k != ci as int {
            assert(post.blocks@[i].candidates@[k] == pre.blocks@[i].candidates@[k]);
            assert(pre.blocks@[i].candidates@[k].wf());
        }
    }
    assert forall|i: int|
        0 <= i < post.blocks@.len() implies (#[trigger] post.blocks@[i].candidates@.len())
        <= u32::MAX by {
        if i != bi {
            assert(post.blocks@[i] == pre.blocks@[i]);
        }
        assert(pre.blocks@[i].candidates@.len() <= u32::MAX);
    }
}

/// The tick at which validator entry `e` next needs attention: its activation
/// tick while the tranche is still in the future, else the instant its
/// no-show delay elapses (saturating).
pub open spec fn wake_tick_of(e: AssignmentEntry, current_tick: u64, delay: u64) -> u64 {
    if e.activation_tick > current_tick {
        e.activation_tick
    } else if e.activation_tick + delay <= u64::MAX {
        (e.activation_tick + delay) as u64
    } else {
        u64::MAX
    }
}

/// The earliest tick at which some pending assignment needs attention, if any.
pub open spec fn next_wake(s: Seq<AssignmentEntry>, current_tick: u64, delay: u64) -> Option<u64>
    decreases s.len(),
{
    if s.len() == 0 {
        None
    } else {
        let rest = next_wake(s.drop_last(), current_tick, delay);
        if s.last().state != ValidatorState::Pending {
            rest
        } else {
            let c = wake_tick_of(s.last(), current_tick, delay);
            match rest {
                None => Some(c),
                Some(m) => Some(
                    if c < m {
                        c
                    } else {
                        m
                    },
                ),
            }
        }
    }
}

impl CandidateEntry {
    /// The assignment entry of validator `v`, if any.
    pub fn get_assignment(&self, v: u32) -> (r: Option<AssignmentEntry>)
        requires
            self.wf(),
        ensures
            match r {
                Some(e) => is_assigned(self.assignments@, v) && e
                    == self.assignments@[index_of_validator(self.assignments@, v)],
                None => !is_assigned(self.assignments@, v),
            },
    {
        match self.find_assignment(v) {
            None => None,
            Some(i) => Some(self.assignments[i]),
        }
    }

    /// The earliest tick at which some still-pending assignment of this
    /// candidate needs attention, if any assignment is still pending.
    pub fn next_wake_tick(&self, current_tick: u64, delay: u64) -> (r: Option<u64>)
        ensures
            r == next_wake(self.assignments@, current_tick, delay),
    {
        let n = self.assignments.len();
        let mut r: Option<u64> = None;
        let mut i: usize = 0;
        while i < n
            invariant
                n == self.assignments@.len(),
                i <= n,
                r == next_wake(self.assignments@.take(i as int), current_tick, delay),
            decreases n - i,
        {
            proof {
                assert(self.assignments@.take(i + 1).drop_last() =~= self.assignments@.take(
                    i as int,
                ));
                assert(self.assignments@.take(i + 1).last() == self.assignments@[i as int]);
            }
            let e = self.assignments[i];
            if matches!(e.state, ValidatorState::Pending) {
                let c = if e.activation_tick > current_tick {
                    e.activation_tick
                } else if delay <= u64::MAX - e.activation_tick {
                    e.activation_tick + delay
                } else {
                    u64::MAX
                };
                r = match r {
                    None => Some(c),
                    Some(m) => Some(
                        if c < m {
                            c
                        } else {
                            m
                        },
                    ),
                };
            }
            i = i + 1;
        }
        proof {
            assert(self.assignments@.take(n as int) =~= self.assignments@);
        }
        r
    }
}

impl Store {
    /// Index of the candidate with hash `ch` at block `bh`, if both resolve.
    pub fn find_candidate_by_hash(&self, bh: u64, ch: u64) -> (r: Option<u32>)
        requires
            self.wf(),
        ensures
            match r {
                Some(ci) => self.has_candidate(bh, ci) && self.candidate_of(bh, ci).candidate_hash
                    == ch,
                None => !self.has_block(bh) || forall|k: int|
                    0 <= k < self.block_of(bh).candidates@.len() ==> (#[trigger] self.block_of(
                        bh,
                    ).candidates@[k]).candidate_hash != ch,
            },
    {
        let bi = match self.find_block(bh) {
            None => {
                return None;
            },
            Some(bi) => bi,
        };
        let n = self.blocks[bi].candidates.len();
        let mut k: usize = 0;
        while k < n
            invariant
                self.wf(),
                bi < self.blocks@.len(),
                self.blocks@[bi as int].block_hash == bh,
                self.has_block(bh),
                self.block_index(bh) == bi as int,
                n == self.blocks@[bi as int].candidates@.len(),
                k <= n,
                forall|j: int|
                    0 <= j < k ==> (#[trigger] self.block_of(bh).candidates@[j]).candidate_hash
                        != ch,
            decreases n - k,
        {
            if self.blocks[bi].candidates[k].candidate_hash == ch {
                return Some(k as u32);
            }
            k = k + 1;
        }
        None
    }

    /// Parent hash of block `bh`, if the block is known.
    pub fn parent_of(&self, bh: u64) -> (r: Option<u64>)
        requires
            self.wf(),
        ensures
            match r {
                Some(p) => self.has_block(bh) && p == self.block_of(bh).parent_hash,
                None => !self.has_block(bh),
            },
    {
        match self.find_block(bh) {
            None => None,
            Some(bi) => Some(self.blocks[bi].parent_hash),
        }
    }

    /// Session and observation tick of block `bh`, if known.
    pub fn block_meta(&self, bh: u64) -> (r: Option<(u32, u64)>)
        requires
            self.wf(),
        ensures
            match r {
                Some(m) => self.has_block(bh) && m.0 == self.block_of(bh).session && m.1
                    == self.block_of(bh).block_tick,
                None => !self.has_block(bh),
            },
    {
        match self.find_block(bh) {
            None => None,
            Some(bi) => Some((self.blocks[bi].session, self.blocks[bi].block_tick)),
        }
    }

    /// The assignment entry of validator `v` for the candidate under
    /// (`bh`, `ci`), if the key resolves and `v` is assigned there.
    pub fn assignment_of(&self, bh: u64, ci: u32, v: u32) -> (r: Option<AssignmentEntry>)
        requires
            self.wf(),
        ensures
            match r {
                Some(e) => self.has_candidate(bh, ci) && is_assigned(
                    self.candidate_of(bh, ci).assignments@,
                    v,
                ) && e == self.candidate_of(bh, ci).assignments@[index_of_validator(
                    self.candidate_of(bh, ci).assignments@,
                    v,
                )],
                None => !self.has_candidate(bh, ci) || !is_assigned(
                    self.candidate_of(bh, ci).assignments@,
                    v,
                ),
            },
    {
        let bi = match self.find_block(bh) {
            None => {
                return None;
            },
            Some(bi) => bi,
        };
        if ci as usize >= self.blocks[bi].candidates.len() {
            return None;
        }
        self.blocks[bi].candidates[ci as usize].get_assignment(v)
    }

    /// The earliest tick at which the candidate under (`bh`, `ci`) next needs
    /// attention, if the key resolves and some assignment is still pending.
    pub fn candidate_next_wake(&self, bh: u64, ci: u32, current_tick: u64, delay: u64) -> (r:
        Option<u64>)
        requires
            self.wf(),
        ensures
            self.has_candidate(bh, ci) ==> r == next_wake(
                self.candidate_of(bh, ci).assignments@,
                current_tick,
                delay,
            ),
            !self.has_candidate(bh, ci) ==> r is None,
    {
        let bi = match self.find_block(bh) {
            None => {
                return None;
            },
            Some(bi) => bi,
        };
        if ci as usize >= self.blocks[bi].candidates.len() {
            return None;
        }
        self.blocks[bi].candidates[ci as usize].next_wake_tick(current_tick, delay)
    }
}

/// Sequences with the same validator at every position agree on who is
/// assigned and where.
pub proof fn lemma_same_validators_assigned(a: Seq<AssignmentEntry>, b: Seq<AssignmentEntry>, v: u32)
    requires
        entries_wf(a),
        a.len() == b.len(),
        forall|i: int| 0 <= i < a.len() ==> a[i].validator == b[i].validator,
    ensures
        entries_wf(b),
        is_assigned(a, v) == is_assigned(b, v),
        is_assigned(a, v) ==> index_of_validator(a, v) == index_of_validator(b, v),
{
    assert forall|i: int, j: int|
        0 <= i < j < b.len() implies b[i].validator != b[j].validator by {
        assert(a[i].validator != a[j].validator);
    }
    if is_assigned(a, v) {
        let i = index_of_validator(a, v);
        assert(b[i].validator == v);
        assert(is_assigned(b, v));
        let j = index_of_validator(b, v);
        if i < j {
            assert(b[i].validator != b[j].validator);
        } else if j < i {
            assert(b[j].validator != b[i].validator);
        }
    }
    if is_assigned(b, v) {
        let i = choose|i: int| 0 <= i < b.len() && b[i].validator == v;
        assert(a[i].validator == v);
        assert(is_assigned(a, v));
    }
}

/// Two successive mutations each confined to the candidate under (`bh`, `ci`)
/// compose to one such mutation.
pub proof fn lemma_same_outside_trans(pre: Store, midd: Store, post: Store, bh: u64, ci: u32)
    requires
        pre.wf(),
        same_outside_candidate(pre, midd, bh, ci),
        same_outside_candidate(midd, post, bh, ci),
    ensures
        same_outside_candidate(pre, post, bh, ci),
{
    lemma_same_outside_lookups(pre, midd, bh, ci);
    assert(midd.block_index(bh) == pre.block_index(bh));
    let bi = pre.block_index(bh);
    assert(midd.block_of(bh) == midd.blocks@[bi]);
    assert forall|j: int|
        0 <= j < pre.blocks@.len() && j != bi implies post.blocks@[j] == pre.blocks@[j] by {
        assert(midd.blocks@[j] == pre.blocks@[j]);
        assert(post.blocks@[j] == midd.blocks@[j]);
    }
    assert forall|k: int|
        0 <= k < pre.block_of(bh).candidates@.len() && k != ci as int implies post.blocks@[bi].candidates@[k]
        == pre.block_of(bh).candidates@[k] by {
        assert(midd.blocks@[bi].candidates@[k] == pre.block_of(bh).candidates@[k]);
        assert(post.blocks@[bi].candidates@[k] == midd.block_of(bh).candidates@[k]);
    }
}

impl Store {
    /// Whether the key (block hash `bh`, candidate index `ci`) resolves to a
    /// candidate record.
    pub fn contains_candidate(&self, bh: u64, ci: u32) -> (r: bool)
        requires
            self.wf(),
        ensures
            r == self.has_candidate(bh, ci),
    {
        match self.find_block(bh) {
            None => false,
            Some(bi) => (ci as usize) < self.blocks[bi].candidates.len(),
        }
    }

    /// Whether the local assignment for the candidate under (`bh`, `ci`) was
    /// already broadcast, if the key resolves.
    pub fn is_our_broadcast(&self, bh: u64, ci: u32) -> (r: Option<bool>)
        requires
            self.wf(),
        ensures
            match r {
                Some(b) => self.has_candidate(bh, ci) && b == self.candidate_of(
                    bh,
                    ci,
                ).our_assignment_broadcast,
                None => !self.has_candidate(bh, ci),
            },
    {
        let bi = match self.find_block(bh) {
            None => {
                return None;
            },
            Some(bi) => bi,
        };
        if ci as usize >= self.blocks[bi].candidates.len() {
            return None;
        }
        Some(self.blocks[bi].candidates[ci as usize].our_assignment_broadcast)
    }
}

impl Store {
    /// Remove the single block with hash `bh`, with all its candidate
    /// records; nothing else moves. Returns whether the block was present.
    pub fn prune_block(&mut self, bh: u64) -> (removed: bool)
        requires
            old(self).wf(),
        ensures
            final(self).wf(),
            removed == old(self).has_block(bh),
            !removed ==> final(self).blocks@ == old(self).blocks@,
            removed ==> final(self).blocks@ == old(self).blocks@.remove(
                old(self).block_index(bh),
            ),
            forall|x: u64| final(self).has_block(x) == (old(self).has_block(x) && x != bh),
            forall|x: u64|
                final(self).has_block(x) ==> final(self).block_of(x) == old(self).block_of(x),
    {
        let bi = match self.find_block(bh) {
            None => {
                proof {
                    assert forall|x: u64|
                        self.has_block(x) == (old(self).has_block(x) && x != bh) by {
                        if old(self).has_block(x) && x == bh {
                            assert(false);
                        }
                    }
                }
                return false;
            },
            Some(bi) => bi,
        };
        self.blocks.remove(bi);
        proof {
            let pre = old(self).blocks@;
            let post = self.blocks@;
            let b = bi as int;
            assert forall|i: int, j: int|
                0 <= i < j < post.len() implies post[i].block_hash != post[j].block_hash by {
                let i2 = if i < b {
                    i
                } else {
                    i + 1
                };
                let j2 = if j < b {
                    j
                } else {
                    j + 1
                };
                assert(post[i] == pre[i2] && post[j] == pre[j2]);
            }
            assert forall|i: int, k: int|
                0 <= i < post.len() && 0 <= k < post[i].candidates@.len() implies (
            #[trigger] post[i].candidates@[k]).wf() by {
                let i2 = if i < b {
                    i
                } else {
                    i + 1
                };
                assert(post[i] == pre[i2]);
                assert(pre[i2].candidates@[k].wf());
            }
            assert forall|i: int|
                0 <= i < post.len() implies (#[trigger] post[i].candidates@.len())
                <= u32::MAX by {
                let i2 = if i < b {
                    i
                } else {
                    i + 1
                };
                assert(post[i] == pre[i2]);
                assert(pre[i2].candidates@.len() <= u32::MAX);
            }
            assert forall|x: u64|
                self.has_block(x) == (old(self).has_block(x) && x != bh) by {
                if self.has_block(x) {
                    let i = self.block_index(x);
                    let i2 = if i < b {
                        i
                    } else {
                        i + 1
                    };
                    assert(pre[i2] == post[i]);
                    assert(old(self).has_block(x));
                    if x == bh {
                        assert(pre[i2].block_hash == pre[b].block_hash);
                        if i2 < b {
                            assert(pre[i2].block_hash != pre[b].block_hash);
                        } else {
                            assert(pre[b].block_hash != pre[i2].block_hash);
                        }
                    }
                }
                if old(self).has_block(x) && x != bh {
                    let i = old(self).block_index(x);
                    assert(pre[i].block_hash == x);
                    assert(i != b);
                    let i2 = if i < b {
                        i
                    } else {
                        i - 1
                    };
                    assert(post[i2] == pre[i]);
                    assert(self.has_block(x));
                }
            }
            assert forall|x: u64|
                self.has_block(x) implies self.block_of(x) == old(self).block_of(x) by {
                let i = self.block_index(x);
                let i2 = if i < b {
                    i
                } else {
                    i + 1
                };
                assert(post[i] == pre[i2]);
                assert(old(self).has_block(x));
                let j = old(self).block_index(x);
                if j < i2 {
                    assert(pre[j].block_hash != pre[i2].block_hash);
                } else if i2 < j {
                    assert(pre[i2].block_hash != pre[j].block_hash);
                }
            }
        }
        true
    }
}

} // verus!
