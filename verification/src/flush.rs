//! When to commit and when to flush, and how long an append waits for its
//! bytes to become durable.
//!
//! Nothing here sleeps or reads a clock: the caller runs the loop, hands in
//! the time, performs what is decided and reports how it went.

use crate::error::StoreError;
use vstd::prelude::*;

verus! {

/// How one background loop is tuned.
#[derive(Clone, Copy, Debug, PartialEq, Eq, Structural)]
pub struct FlushPolicy {
    /// The pause between two rounds.
    pub interval_ms: u64,
    /// Below this many dirty pages a round does nothing.
    pub least_pages: usize,
    /// After this long without a thorough round, a round counts as thorough
    /// and ignores the threshold.
    pub thorough_interval_ms: u64,
}

/// Whether the store can make its bytes durable.
#[derive(Clone, Copy, Debug, PartialEq, Eq, Structural)]
pub enum Health {
    Healthy,
    /// Rounds have failed one after the other for too long.
    Degraded,
}

/// What one round is to do.
#[derive(Clone, Copy, Debug, PartialEq, Eq, Structural)]
pub struct RoundPlan {
    /// The threshold to hand to `commit` or `flush`; 0 in a thorough round.
    pub least_pages: usize,
    /// When the next round is due.
    pub next_round_ms: u64,
}

/// A scheduler as a value.
pub struct SchedulerView {
    pub policy: FlushPolicy,
    /// When the last thorough round was planned.
    pub last_thorough_ms: u64,
    /// How many rounds have failed since the last one that went well.
    pub failures: nat,
    /// From how many failures in a row on the store counts as degraded.
    pub degraded_after: nat,
}

impl SchedulerView {
    /// Whether a round at `now_ms` is thorough.
    pub open spec fn thorough_due(self, now_ms: u64) -> bool {
        now_ms >= self.last_thorough_ms + self.policy.thorough_interval_ms
    }

    /// What a round at `now_ms` is to do.
    pub open spec fn plan(self, now_ms: u64) -> RoundPlan {
        RoundPlan {
            least_pages: if self.thorough_due(now_ms) {
                0
            } else {
                self.policy.least_pages
            },
            next_round_ms: if now_ms + self.policy.interval_ms > u64::MAX {
                u64::MAX
            } else {
                (now_ms + self.policy.interval_ms) as u64
            },
        }
    }

    /// The scheduler after a round at `now_ms` was planned.
    pub open spec fn after_round(self, now_ms: u64) -> SchedulerView {
        SchedulerView {
            last_thorough_ms: if self.thorough_due(now_ms) {
                now_ms
            } else {
                self.last_thorough_ms
            },
            ..self
        }
    }

    /// The scheduler after a round was reported.
    pub open spec fn after_report(self, ok: bool) -> SchedulerView {
        SchedulerView {
            failures: if ok {
                0
            } else if self.failures < u32::MAX {
                self.failures + 1
            } else {
                self.failures
            },
            ..self
        }
    }

    pub open spec fn health(self) -> Health {
        if self.degraded_after > 0 && self.failures >= self.degraded_after {
            Health::Degraded
        } else {
            Health::Healthy
        }
    }
}

/// The state of one background loop: commit, flush, or consume-queue flush.
#[derive(Debug)]
pub struct FlushScheduler {
    policy: FlushPolicy,
    last_thorough_ms: u64,
    failures: u32,
    degraded_after: u32,
}

impl View for FlushScheduler {
    type V = SchedulerView;

    closed spec fn view(&self) -> SchedulerView {
        SchedulerView {
            policy: self.policy,
            last_thorough_ms: self.last_thorough_ms,
            failures: self.failures as nat,
            degraded_after: self.degraded_after as nat,
        }
    }
}

impl FlushScheduler {
    /// A scheduler that starts at `now_ms`, with no failure yet. With
    /// `degraded_after` 0 the store never counts as degraded.
    pub fn new(policy: FlushPolicy, now_ms: u64, degraded_after: u32) -> (scheduler: Self)
        ensures
            scheduler@ == (SchedulerView {
                policy,
                last_thorough_ms: now_ms,
                failures: 0,
                degraded_after: degraded_after as nat,
            }),
    {
        FlushScheduler { policy, last_thorough_ms: now_ms, failures: 0, degraded_after }
    }

    /// Plans the round at `now_ms`: with the policy's threshold, or, where a
    /// thorough round is due, without one.
    pub fn on_tick(&mut self, now_ms: u64) -> (plan: RoundPlan)
        ensures
            plan == old(self)@.plan(now_ms),
            final(self)@ == old(self)@.after_round(now_ms),
    {
        let due = now_ms as u128 >= self.last_thorough_ms as u128
            + self.policy.thorough_interval_ms as u128;
        let least_pages = if due {
            self.last_thorough_ms = now_ms;
            0
        } else {
            self.policy.least_pages
        };
        let next_round_ms = if now_ms > u64::MAX - self.policy.interval_ms {
            u64::MAX
        } else {
            now_ms + self.policy.interval_ms
        };
        RoundPlan { least_pages, next_round_ms }
    }

    /// Takes note of how a round went. A failed round is simply tried again
    /// in the next one; only failures in a row, `degraded_after` of them,
    /// make the store degraded, and one good round makes it healthy again.
    pub fn on_result(&mut self, ok: bool) -> (health: Health)
        ensures
            final(self)@ == old(self)@.after_report(ok),
            health == final(self)@.health(),
    {
        if ok {
            self.failures = 0;
        } else if self.failures < u32::MAX {
            self.failures = self.failures + 1;
        }
        self.health()
    }

    pub fn health(&self) -> (health: Health)
        ensures
            health == self@.health(),
    {
        if self.degraded_after > 0 && self.failures >= self.degraded_after {
            Health::Degraded
        } else {
            Health::Healthy
        }
    }
}

/// Where a waiting append stands.
#[derive(Clone, Copy, Debug, PartialEq, Eq, Structural)]
pub enum WaitStatus {
    /// The offset was not reached yet and the deadline has not passed.
    Pending,
    /// The offset was reached.
    Done,
    /// The deadline passed before the offset was reached.
    TimedOut,
}

/// An append that waits until the log is durable, or replicated, up to the
/// end of its record.
#[derive(Clone, Copy, Debug, PartialEq, Eq, Structural)]
pub struct GroupCommitRequest {
    /// The caller's name for the request.
    pub id: u64,
    /// The offset that has to be reached: the end of the record.
    pub next_offset: u64,
    /// When the wait is given up.
    pub deadline_ms: u64,
}

impl GroupCommitRequest {
    /// Where the request stands when `reached` is reached at `now_ms`.
    /// Reaching the offset counts even at the deadline.
    pub open spec fn spec_status(self, reached: u64, now_ms: u64) -> WaitStatus {
        if reached >= self.next_offset {
            WaitStatus::Done
        } else if now_ms >= self.deadline_ms {
            WaitStatus::TimedOut
        } else {
            WaitStatus::Pending
        }
    }

    /// A request for the record of `wrote_bytes` bytes at `physical_offset`,
    /// made at `now_ms`, that waits for at most `timeout_ms`.
    pub fn new(id: u64, physical_offset: u64, wrote_bytes: usize, now_ms: u64, timeout_ms: u64) -> (request:
        Self)
        requires
            physical_offset + wrote_bytes <= u64::MAX,
        ensures
            request.id == id,
            request.next_offset == physical_offset + wrote_bytes,
            request.deadline_ms == if now_ms + timeout_ms > u64::MAX {
                u64::MAX
            } else {
                (now_ms + timeout_ms) as u64
            },
    {
        GroupCommitRequest {
            id,
            next_offset: physical_offset + wrote_bytes as u64,
            deadline_ms: now_ms.saturating_add(timeout_ms),
        }
    }

    pub fn status(&self, reached: u64, now_ms: u64) -> (status: WaitStatus)
        ensures
            status == self.spec_status(reached, now_ms),
    {
        if reached >= self.next_offset {
            WaitStatus::Done
        } else if now_ms >= self.deadline_ms {
            WaitStatus::TimedOut
        } else {
            WaitStatus::Pending
        }
    }
}

/// What becomes of a wait that ended: success, or the timeout that `timeout`
/// names. A timeout does not undo the append.
pub fn wait_outcome(status: WaitStatus, timeout: StoreError) -> (outcome: Option<
    Result<(), StoreError>,
>)
    ensures
        status == WaitStatus::Pending ==> outcome is None,
        status == WaitStatus::Done ==> outcome == Some(Ok::<(), StoreError>(())),
        status == WaitStatus::TimedOut ==> outcome == Some(Err::<(), StoreError>(timeout)),
{
    match status {
        WaitStatus::Pending => None,
        WaitStatus::Done => Some(Ok(())),
        WaitStatus::TimedOut => Some(Err(timeout)),
    }
}

/// The requests among `pending` that are still pending, in their order.
pub open spec fn still_pending(pending: Seq<GroupCommitRequest>, reached: u64, now_ms: u64) -> Seq<
    GroupCommitRequest,
> {
    pending.filter(|r: GroupCommitRequest| r.spec_status(reached, now_ms) == WaitStatus::Pending)
}

/// The requests among `pending` that have ended, in their order.
pub open spec fn ended(pending: Seq<GroupCommitRequest>, reached: u64, now_ms: u64) -> Seq<
    GroupCommitRequest,
> {
    pending.filter(|r: GroupCommitRequest| r.spec_status(reached, now_ms) != WaitStatus::Pending)
}

/// Takes out of `pending` the requests that have ended, now that `reached`
/// is reached at `now_ms`, and returns them; each is done or timed out as
/// its `status` says. The others stay, in their order.
pub fn release(pending: &mut Vec<GroupCommitRequest>, reached: u64, now_ms: u64) -> (released: Vec<
    GroupCommitRequest,
>)
    ensures
        final(pending)@ == still_pending(old(pending)@, reached, now_ms),
        released@ == ended(old(pending)@, reached, now_ms),
{
    let ghost all = pending@;
    let ghost keep = |r: GroupCommitRequest| r.spec_status(reached, now_ms) == WaitStatus::Pending;
    let ghost go = |r: GroupCommitRequest| r.spec_status(reached, now_ms) != WaitStatus::Pending;
    let mut kept: Vec<GroupCommitRequest> = Vec::new();
    let mut released: Vec<GroupCommitRequest> = Vec::new();
    let n = pending.len();
    let mut i: usize = 0;
    while i < n
        invariant
            i <= n,
            n == all.len(),
            pending@ == all,
            keep == |r: GroupCommitRequest| r.spec_status(reached, now_ms) == WaitStatus::Pending,
            go == |r: GroupCommitRequest| r.spec_status(reached, now_ms) != WaitStatus::Pending,
            kept@ == all.subrange(0, i as int).filter(keep),
            released@ == all.subrange(0, i as int).filter(go),
        decreases n - i,
    {
        let request = pending[i];
        proof {
            let head = all.subrange(0, i as int);
            let next = all.subrange(0, i + 1);
            assert(next.drop_last() =~= head);
            assert(next.last() == request);
            reveal(Seq::filter);
        }
        match request.status(reached, now_ms) {
            WaitStatus::Pending => {
                kept.push(request);
            },
            _ => {
                released.push(request);
            },
        }
        i += 1;
    }
    assert(all.subrange(0, n as int) =~= all);
    *pending = kept;
    released
}

/// Whether an append has to be turned away because an earlier one has held
/// the append point for too long: since `held_since_ms`, for more than
/// `timeout_ms`. A hold of ten million milliseconds or more is a stale
/// mark, not a hold.
pub open spec fn page_cache_busy(held_since_ms: Option<u64>, now_ms: u64, timeout_ms: u64) -> bool {
    match held_since_ms {
        Some(since) => now_ms >= since && now_ms - since > timeout_ms && now_ms - since
            < 10_000_000,
        None => false,
    }
}

/// Decides whether the append point counts as busy.
pub fn is_page_cache_busy(held_since_ms: Option<u64>, now_ms: u64, timeout_ms: u64) -> (busy: bool)
    ensures
        busy == page_cache_busy(held_since_ms, now_ms, timeout_ms),
{
    match held_since_ms {
        Some(since) => {
            if now_ms < since {
                false
            } else {
                let held = now_ms - since;
                held > timeout_ms && held < 10_000_000
            }
        },
        None => false,
    }
}

} // verus!
