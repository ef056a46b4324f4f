use vstd::prelude::*;

verus! {

/// How a reconciler waits after failed snapshot fetches.
pub struct BackoffPolicy {
    /// The wait after the first failure in a row.
    pub base_delay_ms: u64,
    /// The longest wait.
    pub max_delay_ms: u64,
    /// From this many failures in a row on, reconciliation counts as degraded.
    pub degraded_after: u32,
}

/// `base` doubled `n` times, never more than `max`.
pub open spec fn capped_delay(base: nat, max: nat, n: nat) -> nat
    decreases n,
{
    if base >= max {
        max
    } else if n == 0 {
        base
    } else {
        capped_delay(2 * base, max, (n - 1) as nat)
    }
}

/// What to do after a failed fetch: wait, and whether to raise the
/// degraded alert. Fetching is retried whatever the count.
pub struct FailureDecision {
    pub delay_ms: u64,
    pub degraded: bool,
}

/// The reconciler's record of recent fetch failures.
pub struct FetchState {
    pub consecutive_failures: u32,
}

impl FetchState {
    pub fn new() -> (s: FetchState)
        ensures
            s.consecutive_failures == 0,
    {
        FetchState { consecutive_failures: 0 }
    }

    /// A fetch failed: count it, and wait the base delay doubled once for
    /// each earlier failure in a row, up to the longest wait.
    pub fn on_fetch_failure(&mut self, policy: &BackoffPolicy) -> (d: FailureDecision)
        ensures
            final(self).consecutive_failures == if old(self).consecutive_failures == u32::MAX {
                u32::MAX
            } else {
                (old(self).consecutive_failures + 1) as u32
            },
            d.delay_ms == capped_delay(
                policy.base_delay_ms as nat,
                policy.max_delay_ms as nat,
                old(self).consecutive_failures as nat,
            ),
            d.degraded == (final(self).consecutive_failures >= policy.degraded_after),
    {
        let max = policy.max_delay_ms;
        let mut d: u64 = policy.base_delay_ms;
        let mut n: u32 = self.consecutive_failures;
        while n > 0 && d < max
            invariant
                max == policy.max_delay_ms,
                capped_delay(policy.base_delay_ms as nat, max as nat, self.consecutive_failures as nat)
                    == capped_delay(d as nat, max as nat, n as nat),
            decreases n,
        {
            if d > max / 2 {
                assert(2 * d >= max);
                assert(capped_delay(2 * d as nat, max as nat, (n - 1) as nat) == max);
                d = max;
                n = 0;
            } else {
                d = d * 2;
                n = n - 1;
            }
        }
        let delay = if d >= max { max } else { d };
        if self.consecutive_failures < u32::MAX {
            self.consecutive_failures = self.consecutive_failures + 1;
        }
        FailureDecision { delay_ms: delay, degraded: self.consecutive_failures >= policy.degraded_after }
    }

    /// A fetch succeeded: the count of failures starts again.
    pub fn on_fetch_success(&mut self)
        ensures
            final(self).consecutive_failures == 0,
    {
        self.consecutive_failures = 0;
    }
}

/// How long to wait before the next cycle: none when a consumer reported a
/// closed shard, the poll interval otherwise.
pub fn next_cycle_delay(poll_interval_ms: u64, shard_closed: bool) -> (r: u64)
    ensures
        r == if shard_closed { 0 } else { poll_interval_ms },
{
    if shard_closed {
        0
    } else {
        poll_interval_ms
    }
}

} // verus!
