use vstd::prelude::*;

verus! {

/// Seconds between two passes once a pass has succeeded.
pub const RUN_INTERVAL_SECS: u64 = 1200;

/// Consecutive failures tolerated; one more stops the loop.
pub const MAX_FAILURES: u32 = 10;

/// Delay after the first failure.
pub const FIRST_BACKOFF_SECS: u64 = 5;

pub const SECS_PER_DAY: u64 = 86400;

pub const SECS_PER_HOUR: u64 = 3600;

/// The state of the loop between ticks. Times are seconds since the Unix
/// epoch.
#[derive(Debug, Clone, Copy)]
pub struct SchedulerState {
    pub last_success: Option<u64>,
    pub last_attempt: Option<u64>,
    pub consecutive_failures: u32,
    pub backoff_secs: u64,
}

/// What the loop does on a tick.
#[derive(Debug, Clone, Copy, PartialEq, Eq, Structural)]
pub enum Decision {
    /// Nothing is due, or the backoff delay has not passed.
    Wait,
    /// Run one pass now.
    Run,
    /// Too many consecutive failures: stop for good.
    Stop,
}

/// Delays from this one on saturate at the largest `u64` instead of growing.
pub const GOLDEN_LIMIT: u64 = 0x4000_0000_0000_0000;

/// Whether `s` is the integer square root of `n`.
pub open spec fn is_isqrt(n: int, s: int) -> bool {
    0 <= s && s * s <= n && n < (s + 1) * (s + 1)
}

pub open spec fn isqrt(n: int) -> int {
    choose|s: int| is_isqrt(n, s)
}

/// `prev` times the golden ratio, rounded to the nearest integer. As
/// `prev * phi == (prev + sqrt(5 * prev^2)) / 2` and that root is irrational
/// for `prev > 0`, the rounded value is `(prev + 1 + isqrt(5 * prev^2)) / 2`.
pub open spec fn golden_step(prev: int) -> int {
    (prev + 1 + isqrt(5 * prev * prev)) / 2
}

/// The delay after one more failure: 5 s for the first failure, then the
/// previous delay times the golden ratio, rounded to the nearest second
/// (saturating from `GOLDEN_LIMIT` on).
pub open spec fn next_delay(failures: int, prev: int) -> int {
    if failures == 0 {
        FIRST_BACKOFF_SECS as int
    } else if prev >= GOLDEN_LIMIT {
        u64::MAX as int
    } else {
        golden_step(prev)
    }
}

/// A root, once found, is the one `isqrt` names.
pub proof fn lemma_isqrt_unique(n: int, s: int)
    requires
        is_isqrt(n, s),
    ensures
        isqrt(n) == s,
{
    let t = isqrt(n);
    assert(is_isqrt(n, t));
    if t < s {
        assert((t + 1) * (t + 1) <= s * s) by (nonlinear_arith)
            requires
                0 <= t + 1 <= s,
        ;
    } else if s < t {
        assert((s + 1) * (s + 1) <= t * t) by (nonlinear_arith)
            requires
                0 <= s + 1 <= t,
        ;
    }
}

/// The integer square root, by bisection.
fn isqrt_u128(n: u128) -> (s: u128)
    requires
        n < 0x8000_0000_0000_0000_0000_0000_0000_0000,
    ensures
        is_isqrt(n as int, s as int),
        s < 0x1_0000_0000_0000_0000,
{
    let mut lo: u128 = 0;
    let mut hi: u128 = 0x1_0000_0000_0000_0000;
    assert(n < hi * hi);
    while hi - lo > 1
        invariant
            lo < hi <= 0x1_0000_0000_0000_0000,
            lo * lo <= n,
            n < hi * hi,
        decreases hi - lo,
    {
        let mid = lo + (hi - lo) / 2;
        assert(mid * mid <= 0xFFFF_FFFF_FFFF_FFFE_0000_0000_0000_0001) by (nonlinear_arith)
            requires
                mid <= 0xFFFF_FFFF_FFFF_FFFF,
        ;
        if mid * mid <= n {
            lo = mid;
        } else {
            hi = mid;
        }
    }
    lo
}

/// Whether a pass is due: never succeeded, or the interval has passed, or
/// the day or the hour of the day has changed since the last success.
pub open spec fn due(s: SchedulerState, now: u64) -> bool {
    match s.last_success {
        None => true,
        Some(t) => now >= t + RUN_INTERVAL_SECS || now / SECS_PER_DAY != t / SECS_PER_DAY || (now
            / SECS_PER_HOUR) % 24 != (t / SECS_PER_HOUR) % 24,
    }
}

/// Whether the backoff delay since the last failed attempt has passed.
pub open spec fn backoff_passed(s: SchedulerState, now: u64) -> bool {
    match s.last_attempt {
        None => true,
        Some(t) => now >= t + s.backoff_secs,
    }
}

pub open spec fn decide_spec(s: SchedulerState, now: u64) -> Decision {
    if s.consecutive_failures > MAX_FAILURES {
        Decision::Stop
    } else if due(s, now) && backoff_passed(s, now) {
        Decision::Run
    } else {
        Decision::Wait
    }
}

pub open spec fn success_spec(s: SchedulerState, now: u64) -> SchedulerState {
    SchedulerState {
        last_success: Some(now),
        last_attempt: None,
        consecutive_failures: 0,
        backoff_secs: 0,
    }
}

pub open spec fn failure_spec(s: SchedulerState, now: u64) -> SchedulerState {
    SchedulerState {
        last_success: s.last_success,
        last_attempt: Some(now),
        consecutive_failures: if s.consecutive_failures < u32::MAX {
            (s.consecutive_failures + 1) as u32
        } else {
            u32::MAX
        },
        backoff_secs: next_delay(s.consecutive_failures as int, s.backoff_secs as int) as u64,
    }
}

/// The delay after one more failure, given the failures counted so far
/// and the current delay.
pub fn next_backoff(failures: u32, prev: u64) -> (r: u64)
    ensures
        r as int == next_delay(failures as int, prev as int),
{
    if failures == 0 {
        FIRST_BACKOFF_SECS
    } else if prev >= GOLDEN_LIMIT {
        u64::MAX
    } else {
        let p = prev as u128;
        assert(p * p < 0x1000_0000_0000_0000_0000_0000_0000_0000) by (nonlinear_arith)
            requires
                p < 0x4000_0000_0000_0000,
        ;
        let n = 5 * (p * p);
        let s = isqrt_u128(n);
        proof {
            assert(5 * (p * p) == 5 * p * p) by (nonlinear_arith);
            lemma_isqrt_unique(n as int, s as int);
            let si = s as int;
            let pi = p as int;
            if si >= 3 * pi {
                assert(si * si >= 9 * pi * pi) by (nonlinear_arith)
                    requires
                        si >= 3 * pi,
                        pi >= 0,
                ;
                assert(9 * pi * pi >= 5 * pi * pi + 1 || pi == 0) by (nonlinear_arith);
            }
        }
        ((p + 1 + s) / 2) as u64
    }
}

impl SchedulerState {
    /// No pass yet, no failure.
    pub fn initial() -> (s: SchedulerState)
        ensures
            s.last_success is None,
            s.last_attempt is None,
            s.consecutive_failures == 0,
            s.backoff_secs == 0,
    {
        SchedulerState { last_success: None, last_attempt: None, consecutive_failures: 0, backoff_secs: 0 }
    }

    /// Whether a pass is due at `now`.
    pub fn is_due(&self, now: u64) -> (r: bool)
        ensures
            r == due(*self, now),
    {
        match self.last_success {
            None => true,
            Some(t) => (now >= t && now - t >= RUN_INTERVAL_SECS) || now / SECS_PER_DAY != t
                / SECS_PER_DAY || (now / SECS_PER_HOUR) % 24 != (t / SECS_PER_HOUR) % 24,
        }
    }

    /// Whether the backoff delay has passed at `now`.
    pub fn backoff_elapsed(&self, now: u64) -> (r: bool)
        ensures
            r == backoff_passed(*self, now),
    {
        match self.last_attempt {
            None => true,
            Some(t) => now >= t && now - t >= self.backoff_secs,
        }
    }

    /// What to do on the tick at `now`.
    pub fn decide(&self, now: u64) -> (d: Decision)
        ensures
            d == decide_spec(*self, now),
    {
        if self.consecutive_failures > MAX_FAILURES {
            Decision::Stop
        } else if self.is_due(now) && self.backoff_elapsed(now) {
            Decision::Run
        } else {
            Decision::Wait
        }
    }

    /// The state after a pass that started at `now` succeeded.
    pub fn on_success(&self, now: u64) -> (s: SchedulerState)
        ensures
            s == success_spec(*self, now),
    {
        SchedulerState { last_success: Some(now), last_attempt: None, consecutive_failures: 0, backoff_secs: 0 }
    }

    /// The state after a pass that started at `now` failed.
    pub fn on_failure(&self, now: u64) -> (s: SchedulerState)
        ensures
            s == failure_spec(*self, now),
    {
        let failures = if self.consecutive_failures < u32::MAX {
            self.consecutive_failures + 1
        } else {
            u32::MAX
        };
        SchedulerState {
            last_success: self.last_success,
            last_attempt: Some(now),
            consecutive_failures: failures,
            backoff_secs: next_backoff(self.consecutive_failures, self.backoff_secs),
        }
    }

    /// The state after a pass that started at `now`, by its outcome.
    pub fn after_pass(&self, now: u64, succeeded: bool) -> (s: SchedulerState)
        ensures
            s == (if succeeded {
                success_spec(*self, now)
            } else {
                failure_spec(*self, now)
            }),
    {
        if succeeded {
            self.on_success(now)
        } else {
            self.on_failure(now)
        }
    }
}

/// The state after `k` failed passes in a row from the initial state, each
/// at time `now`.
pub open spec fn after_failures(k: nat, now: u64) -> SchedulerState
    decreases k,
{
    if k == 0 {
        SchedulerState { last_success: None, last_attempt: None, consecutive_failures: 0, backoff_secs: 0 }
    } else {
        failure_spec(after_failures((k - 1) as nat, now), now)
    }
}

/// From no failures, the delays run 5, 8, 13, 21, 34, 55 seconds.
pub proof fn lemma_backoff_sequence(now: u64)
    ensures
        after_failures(1, now).backoff_secs == 5,
        after_failures(2, now).backoff_secs == 8,
        after_failures(3, now).backoff_secs == 13,
        after_failures(4, now).backoff_secs == 21,
        after_failures(5, now).backoff_secs == 34,
        after_failures(6, now).backoff_secs == 55,
{
    reveal_with_fuel(after_failures, 7);
    lemma_isqrt_unique(125, 11);
    lemma_isqrt_unique(320, 17);
    lemma_isqrt_unique(845, 29);
    lemma_isqrt_unique(2205, 46);
    lemma_isqrt_unique(5780, 76);
    assert(after_failures(1, now).backoff_secs == 5);
    assert(after_failures(1, now).consecutive_failures == 1);
    assert(golden_step(5) == 8);
    assert(after_failures(2, now).backoff_secs == 8);
    assert(after_failures(2, now).consecutive_failures == 2);
    assert(golden_step(8) == 13);
    assert(after_failures(3, now).backoff_secs == 13);
    assert(after_failures(3, now).consecutive_failures == 3);
    assert(golden_step(13) == 21);
    assert(after_failures(4, now).backoff_secs == 21);
    assert(after_failures(4, now).consecutive_failures == 4);
    assert(golden_step(21) == 34);
    assert(after_failures(5, now).backoff_secs == 34);
    assert(after_failures(5, now).consecutive_failures == 5);
    assert(golden_step(34) == 55);
}

/// After `k` failures in a row from the initial state the loop has counted
/// `k` of them, and it stops exactly when `k` exceeds ten: the eleventh
/// consecutive failure ends the scheduling.
pub proof fn lemma_stops_after_eleventh_failure(k: nat, now: u64, later: u64)
    requires
        k <= u32::MAX,
    ensures
        after_failures(k, now).consecutive_failures == k,
        (decide_spec(after_failures(k, now), later) == Decision::Stop) <==> k >= 11,
    decreases k,
{
    if k > 0 {
        lemma_stops_after_eleventh_failure((k - 1) as nat, now, later);
    }
}

} // verus!
