//! Tick-ordered queue of wakeup obligations, one per (relay block, candidate)
//! pair. Rescheduling keeps the earlier tick; popping returns every obligation
//! due at the current tick, in tick order.

use vstd::prelude::*;

verus! {

/// One pending wake obligation.
#[derive(Clone, Copy, PartialEq, Eq, Structural, Debug)]
pub struct Wakeup {
    /// Tick at which the obligation falls due.
    pub tick: u64,
    /// Relay block of the candidate the obligation refers to.
    pub block_hash: u64,
    /// Hash of the candidate the obligation refers to.
    pub candidate_hash: u64,
}

/// The wakeup scheduler: pending obligations sorted by tick, at most one per
/// (relay block, candidate) pair.
pub struct Scheduler {
    /// Pending obligations, sorted by tick, pairs unique.
    pub wakeups: Vec<Wakeup>,
}

/// Sorted by tick (ties in any order).
pub open spec fn sorted_by_tick(s: Seq<Wakeup>) -> bool {
    forall|i: int, j: int| 0 <= i < j < s.len() ==> s[i].tick <= s[j].tick
}

/// At most one obligation per (relay block, candidate) pair.
pub open spec fn unique_pairs(s: Seq<Wakeup>) -> bool {
    forall|i: int, j: int|
        0 <= i < j < s.len() ==> !(s[i].block_hash == s[j].block_hash && s[i].candidate_hash
            == s[j].candidate_hash)
}

impl Scheduler {
    /// Internal invariant of the scheduler.
    pub open spec fn wf(self) -> bool {
        sorted_by_tick(self.wakeups@) && unique_pairs(self.wakeups@)
    }

    /// Whether a wakeup for the pair (`bh`, `ch`) is pending.
    pub open spec fn has_pending(self, bh: u64, ch: u64) -> bool {
        exists|i: int|
            0 <= i < self.wakeups@.len() && self.wakeups@[i].block_hash == bh
                && self.wakeups@[i].candidate_hash == ch
    }

    /// Index of the pending wakeup for (`bh`, `ch`) (meaningful when pending).
    pub open spec fn pending_index(self, bh: u64, ch: u64) -> int {
        choose|i: int|
            0 <= i < self.wakeups@.len() && self.wakeups@[i].block_hash == bh
                && self.wakeups@[i].candidate_hash == ch
    }

    /// Tick of the pending wakeup for (`bh`, `ch`) (meaningful when pending).
    pub open spec fn pending_tick(self, bh: u64, ch: u64) -> u64 {
        self.wakeups@[self.pending_index(bh, ch)].tick
    }

    /// An empty scheduler.
    pub fn new() -> (r: Scheduler)
        ensures
            r.wf(),
            r.wakeups@.len() == 0,
    {
        Scheduler { wakeups: Vec::new() }
    }

    /// Position of the pending wakeup for the pair, if any.
    fn find_pair(&self, bh: u64, ch: u64) -> (r: Option<usize>)
        requires
            self.wf(),
        ensures
            match r {
                Some(i) => i < self.wakeups@.len() && self.wakeups@[i as int].block_hash == bh
                    && self.wakeups@[i as int].candidate_hash == ch && self.has_pending(bh, ch)
                    && self.pending_index(bh, ch) == i as int,
                None => !self.has_pending(bh, ch),
            },
    {
        let n = self.wakeups.len();
        let mut i: usize = 0;
        while i < n
            invariant
                self.wf(),
                n == self.wakeups@.len(),
                i <= n,
                forall|j: int|
                    0 <= j < i ==> !(self.wakeups@[j].block_hash == bh
                        && self.wakeups@[j].candidate_hash == ch),
            decreases n - i,
        {
            if self.wakeups[i].block_hash == bh && self.wakeups[i].candidate_hash == ch {
                proof {
                    assert(self.has_pending(bh, ch));
                    let w = self.pending_index(bh, ch);
                    if w < i as int {
                        assert(!(self.wakeups@[w].block_hash == self.wakeups@[i as int].block_hash
                            && self.wakeups@[w].candidate_hash
                            == self.wakeups@[i as int].candidate_hash));
                    } else if (i as int) < w {
                        assert(!(self.wakeups@[i as int].block_hash == self.wakeups@[w].block_hash
                            && self.wakeups@[i as int].candidate_hash
                            == self.wakeups@[w].candidate_hash));
                    }
                }
                return Some(i);
            }
            i = i + 1;
        }
        None
    }

    /// First position whose tick exceeds `tick` (all earlier positions do not).
    fn upper_bound(&self, tick: u64) -> (r: usize)
        requires
            self.wf(),
        ensures
            r <= self.wakeups@.len(),
            forall|j: int| 0 <= j < r ==> self.wakeups@[j].tick <= tick,
            forall|j: int| r <= j < self.wakeups@.len() ==> self.wakeups@[j].tick > tick,
    {
        let n = self.wakeups.len();
        let mut i: usize = 0;
        while i < n
            invariant
                self.wf(),
                n == self.wakeups@.len(),
                i <= n,
                forall|j: int| 0 <= j < i ==> self.wakeups@[j].tick <= tick,
            decreases n - i,
        {
            if self.wakeups[i].tick > tick {
                return i;
            }
            i = i + 1;
        }
        n
    }

    /// Register a wake obligation for (`bh`, `ch`) at `tick`, or reschedule an
    /// existing one: the pending tick afterwards is the earlier of the two —
    /// a reschedule never delays a wake. No other pair is affected.
    pub fn schedule(&mut self, tick: u64, bh: u64, ch: u64)
        requires
            old(self).wf(),
        ensures
            final(self).wf(),
            final(self).has_pending(bh, ch),
            final(self).pending_tick(bh, ch) == (if old(self).has_pending(bh, ch) && old(
                self,
            ).pending_tick(bh, ch) <= tick {
                old(self).pending_tick(bh, ch)
            } else {
                tick
            }),
            forall|bh2: u64, ch2: u64|
                !(bh2 == bh && ch2 == ch) ==> #[trigger] final(self).has_pending(bh2, ch2)
                    == old(self).has_pending(bh2, ch2),
            forall|bh2: u64, ch2: u64|
                !(bh2 == bh && ch2 == ch) && old(self).has_pending(bh2, ch2)
                    ==> #[trigger] final(self).pending_tick(bh2, ch2)
                    == old(self).pending_tick(bh2, ch2),
            final(self).wakeups@.len() == old(self).wakeups@.len() + (if old(self).has_pending(
                bh,
                ch,
            ) {
                0int
            } else {
                1int
            }),
    {
        let ghost pre = *old(self);
        match self.find_pair(bh, ch) {
            Some(i) => {
                if self.wakeups[i].tick <= tick {
                    proof {
                        lemma_pending_stable(pre, *self, bh, ch);
                    }
                    return ;
                }
                self.wakeups.remove(i);
                proof {
                    lemma_remove_keeps_order(pre.wakeups@, i as int);
                }
            },
            None => {},
        }
        let ghost mid = *self;
        proof {
            if pre.has_pending(bh, ch) {
                lemma_no_pair_after_remove(pre.wakeups@, bh, ch, pre.pending_index(bh, ch));
            }
        }
        let k = self.upper_bound(tick);
        let w = Wakeup { tick, block_hash: bh, candidate_hash: ch };
        self.wakeups.insert(k, w);
        proof {
            lemma_insert_keeps_order(mid.wakeups@, k as int, w);
            lemma_insert_unique(mid.wakeups@, k as int, w);
            assert(self.wakeups@[k as int] == w);
            assert(self.has_pending(bh, ch));
            lemma_pair_unique(*self, bh, ch, k as int);
            assert forall|bh2: u64, ch2: u64|
                !(bh2 == bh && ch2 == ch) implies #[trigger] self.has_pending(bh2, ch2)
                == pre.has_pending(bh2, ch2) by {
                lemma_other_pairs(pre, mid, *self, bh, ch, bh2, ch2, k as int, tick);
            }
            assert forall|bh2: u64, ch2: u64|
                !(bh2 == bh && ch2 == ch) && pre.has_pending(bh2, ch2) implies #[trigger] self.pending_tick(
                bh2,
                ch2,
            ) == pre.pending_tick(bh2, ch2) by {
                lemma_other_pairs(pre, mid, *self, bh, ch, bh2, ch2, k as int, tick);
            }
        }
    }

    /// Remove and return, in tick order, every obligation due at
    /// `current_tick`. The result is exactly the sorted prefix of due
    /// obligations; everything later stays pending.
    pub fn next_due(&mut self, current_tick: u64) -> (due: Vec<(u64, u64)>)
        requires
            old(self).wf(),
        ensures
            final(self).wf(),
            final(self).wakeups@ == old(self).wakeups@.skip(due@.len() as int),
            due@.len() <= old(self).wakeups@.len(),
            forall|i: int|
                0 <= i < due@.len() ==> {
                    &&& old(self).wakeups@[i].tick <= current_tick
                    &&& due@[i] == (
                    (old(self).wakeups@[i].block_hash, old(self).wakeups@[i].candidate_hash))
                },
            due@.len() < old(self).wakeups@.len() ==> old(self).wakeups@[due@.len() as int].tick
                > current_tick,
    {
        let k = self.upper_bound(current_tick);
        let mut due: Vec<(u64, u64)> = Vec::new();
        let mut i: usize = 0;
        proof {
            assert(self.wakeups@ =~= old(self).wakeups@.skip(0));
        }
        while i < k
            invariant
                old(self).wf(),
                k <= old(self).wakeups@.len(),
                i <= k,
                due@.len() == i,
                self.wakeups@ == old(self).wakeups@.skip(i as int),
                forall|j: int| 0 <= j < k ==> old(self).wakeups@[j].tick <= current_tick,
                forall|j: int|
                    0 <= j < i ==> due@[j] == (
                    (old(self).wakeups@[j].block_hash, old(self).wakeups@[j].candidate_hash)),
            decreases k - i,
        {
            let w = self.wakeups.remove(0);
            proof {
                assert(old(self).wakeups@.skip(i as int)[0] == old(self).wakeups@[i as int]);
                assert(self.wakeups@ =~= old(self).wakeups@.skip(i + 1));
            }
            due.push((w.block_hash, w.candidate_hash));
            i = i + 1;
        }
        proof {
            lemma_suffix_wf(old(self).wakeups@, k as int);
        }
        due
    }
}

/// A suffix of a sorted, pair-unique sequence is sorted and pair-unique.
proof fn lemma_suffix_wf(s: Seq<Wakeup>, k: int)
    requires
        sorted_by_tick(s),
        unique_pairs(s),
        0 <= k <= s.len(),
    ensures
        sorted_by_tick(s.skip(k)),
        unique_pairs(s.skip(k)),
{
    let t = s.skip(k);
    assert forall|a: int, b: int| 0 <= a < b < t.len() implies t[a].tick <= t[b].tick && !(
    t[a].block_hash == t[b].block_hash && t[a].candidate_hash == t[b].candidate_hash) by {
        assert(t[a] == s[a + k] && t[b] == s[b + k]);
    }
}

/// Inserting a pair that occurs nowhere keeps pairs unique.
proof fn lemma_insert_unique(s: Seq<Wakeup>, k: int, w: Wakeup)
    requires
        unique_pairs(s),
        0 <= k <= s.len(),
        forall|a: int|
            0 <= a < s.len() ==> !(s[a].block_hash == w.block_hash && s[a].candidate_hash
                == w.candidate_hash),
    ensures
        unique_pairs(s.insert(k, w)),
{
    let t = s.insert(k, w);
    assert forall|a: int, b: int|
        0 <= a < b < t.len() implies !(t[a].block_hash == t[b].block_hash && t[a].candidate_hash
        == t[b].candidate_hash) by {
        if a < k {
            assert(t[a] == s[a]);
        } else if a == k {
            assert(t[a] == w);
        } else {
            assert(t[a] == s[a - 1]);
        }
        if b < k {
            assert(t[b] == s[b]);
        } else if b == k {
            assert(t[b] == w);
        } else {
            assert(t[b] == s[b - 1]);
        }
    }
}

/// After removing the one position holding a pair, the pair occurs nowhere.
proof fn lemma_no_pair_after_remove(s: Seq<Wakeup>, bh: u64, ch: u64, r: int)
    requires
        unique_pairs(s),
        0 <= r < s.len(),
        s[r].block_hash == bh,
        s[r].candidate_hash == ch,
    ensures
        forall|a: int|
            0 <= a < s.remove(r).len() ==> !(s.remove(r)[a].block_hash == bh && s.remove(
                r,
            )[a].candidate_hash == ch),
{
    let t = s.remove(r);
    assert forall|a: int|
        0 <= a < t.len() implies !(t[a].block_hash == bh && t[a].candidate_hash == ch) by {
        let a2 = if a < r {
            a
        } else {
            a + 1
        };
        assert(t[a] == s[a2]);
        if a2 < r {
            assert(!(s[a2].block_hash == s[r].block_hash && s[a2].candidate_hash
                == s[r].candidate_hash));
        } else {
            assert(!(s[r].block_hash == s[a2].block_hash && s[r].candidate_hash
                == s[a2].candidate_hash));
        }
    }
}

/// Removing one element of a sorted, pair-unique sequence keeps both.
proof fn lemma_remove_keeps_order(s: Seq<Wakeup>, i: int)
    requires
        sorted_by_tick(s),
        unique_pairs(s),
        0 <= i < s.len(),
    ensures
        sorted_by_tick(s.remove(i)),
        unique_pairs(s.remove(i)),
        forall|w: Wakeup| s.remove(i).contains(w) ==> s.contains(w),
{
    let t = s.remove(i);
    assert forall|a: int, b: int| 0 <= a < b < t.len() implies t[a].tick <= t[b].tick by {
        let a2 = if a < i {
            a
        } else {
            a + 1
        };
        let b2 = if b < i {
            b
        } else {
            b + 1
        };
        assert(t[a] == s[a2] && t[b] == s[b2]);
    }
    assert forall|a: int, b: int|
        0 <= a < b < t.len() implies !(t[a].block_hash == t[b].block_hash && t[a].candidate_hash
        == t[b].candidate_hash) by {
        let a2 = if a < i {
            a
        } else {
            a + 1
        };
        let b2 = if b < i {
            b
        } else {
            b + 1
        };
        assert(t[a] == s[a2] && t[b] == s[b2]);
    }
    assert forall|w: Wakeup| t.contains(w) implies s.contains(w) by {
        let a = choose|a: int| 0 <= a < t.len() && t[a] == w;
        let a2 = if a < i {
            a
        } else {
            a + 1
        };
        assert(s[a2] == w);
    }
}

/// Inserting at the position `upper_bound` found keeps the sequence sorted.
proof fn lemma_insert_keeps_order(s: Seq<Wakeup>, k: int, w: Wakeup)
    requires
        sorted_by_tick(s),
        0 <= k <= s.len(),
        forall|j: int| 0 <= j < k ==> s[j].tick <= w.tick,
        forall|j: int| k <= j < s.len() ==> s[j].tick > w.tick,
    ensures
        sorted_by_tick(s.insert(k, w)),
{
    let t = s.insert(k, w);
    assert forall|a: int, b: int| 0 <= a < b < t.len() implies t[a].tick <= t[b].tick by {
        if a < k {
            assert(t[a] == s[a]);
        } else if a == k {
            assert(t[a] == w);
        } else {
            assert(t[a] == s[a - 1]);
        }
        if b < k {
            assert(t[b] == s[b]);
        } else if b == k {
            assert(t[b] == w);
        } else {
            assert(t[b] == s[b - 1]);
        }
    }
}

/// An unchanged scheduler keeps every pending pair and tick.
proof fn lemma_pending_stable(pre: Scheduler, post: Scheduler, bh: u64, ch: u64)
    requires
        pre.wakeups@ == post.wakeups@,
    ensures
        forall|bh2: u64, ch2: u64| #[trigger] post.has_pending(bh2, ch2) == pre.has_pending(bh2, ch2),
        forall|bh2: u64, ch2: u64|
            pre.has_pending(bh2, ch2) ==> #[trigger] post.pending_tick(bh2, ch2)
                == pre.pending_tick(bh2, ch2),
{
}

/// In a pair-unique scheduler, any position holding the pair is the pair's
/// pending index.
proof fn lemma_pair_unique(s: Scheduler, bh: u64, ch: u64, i: int)
    requires
        unique_pairs(s.wakeups@),
        0 <= i < s.wakeups@.len(),
        s.wakeups@[i].block_hash == bh,
        s.wakeups@[i].candidate_hash == ch,
    ensures
        s.has_pending(bh, ch),
        s.pending_index(bh, ch) == i,
{
    assert(s.has_pending(bh, ch));
    let j = s.pending_index(bh, ch);
    if i < j {
        assert(!(s.wakeups@[i].block_hash == s.wakeups@[j].block_hash
            && s.wakeups@[i].candidate_hash == s.wakeups@[j].candidate_hash));
    } else if j < i {
        assert(!(s.wakeups@[j].block_hash == s.wakeups@[i].block_hash
            && s.wakeups@[j].candidate_hash == s.wakeups@[i].candidate_hash));
    }
}

/// Pairs other than the rescheduled one survive a remove-then-insert step with
/// their ticks intact.
proof fn lemma_other_pairs(
    pre: Scheduler,
    mid: Scheduler,
    post: Scheduler,
    bh: u64,
    ch: u64,
    bh2: u64,
    ch2: u64,
    k: int,
    tick: u64,
)
    requires
        pre.wf(),
        unique_pairs(mid.wakeups@),
        unique_pairs(post.wakeups@),
        !(bh2 == bh && ch2 == ch),
        0 <= k <= mid.wakeups@.len(),
        post.wakeups@ == mid.wakeups@.insert(
            k,
            (Wakeup { tick, block_hash: bh, candidate_hash: ch }),
        ),
        mid.wakeups@ == pre.wakeups@ || (pre.has_pending(bh, ch) && mid.wakeups@
            == pre.wakeups@.remove(pre.pending_index(bh, ch))),
    ensures
        post.has_pending(bh2, ch2) == pre.has_pending(bh2, ch2),
        pre.has_pending(bh2, ch2) ==> post.pending_tick(bh2, ch2) == pre.pending_tick(bh2, ch2),
{
    if pre.has_pending(bh2, ch2) {
        let i = pre.pending_index(bh2, ch2);
        let w = pre.wakeups@[i];
        if mid.wakeups@ == pre.wakeups@ {
            assert(mid.wakeups@[i] == w);
        } else {
            let r = pre.pending_index(bh, ch);
            assert(i != r);
            let i2 = if i < r {
                i
            } else {
                i - 1
            };
            assert(mid.wakeups@[i2] == w);
        }
        let i3 = choose|a: int| 0 <= a < mid.wakeups@.len() && mid.wakeups@[a] == w;
        let i4 = if i3 < k {
            i3
        } else {
            i3 + 1
        };
        assert(post.wakeups@[i4] == w);
        lemma_pair_unique(post, bh2, ch2, i4);
    }
    if post.has_pending(bh2, ch2) {
        let i = post.pending_index(bh2, ch2);
        let w = post.wakeups@[i];
        assert(i != k);
        let i2 = if i < k {
            i
        } else {
            i - 1
        };
        assert(mid.wakeups@[i2] == w);
        if mid.wakeups@ == pre.wakeups@ {
            assert(pre.wakeups@[i2] == w);
            lemma_pair_unique(pre, bh2, ch2, i2);
        } else {
            let r = pre.pending_index(bh, ch);
            let i3 = if i2 < r {
                i2
            } else {
                i2 + 1
            };
            assert(pre.wakeups@[i3] == w);
            lemma_pair_unique(pre, bh2, ch2, i3);
        }
    }
}

} // verus!
