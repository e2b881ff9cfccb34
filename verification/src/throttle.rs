//! Adaptive concurrency limit for outbound requests: multiplicative growth
//! until the first setback, then additive increase and multiplicative
//! decrease. The state is plain; the caller supplies the clock and serialises
//! the calls.

use vstd::prelude::*;

verus! {

/// Workers the throttle starts at.
pub const INITIAL_WORKERS: usize = 4;

/// Default ceiling on concurrent in-flight requests. Decoupled from the number
/// of processors because the throttle's job is network parallelism.
pub const MAX_FETCH_WORKERS: usize = 128;

/// Successful fetches required before each scale-up tick.
pub const SUCCESSES_TO_SCALE_UP: usize = 10;

/// Minimum interval between scale-ups, in seconds.
pub const SCALE_UP_INTERVAL_SECS: i64 = 90;

/// Cooldown after a rate limit before scaling up resumes, in seconds.
pub const RATE_LIMIT_COOLDOWN_SECS: i64 = 60;

/// Cooldown after a timeout before scaling up resumes, in seconds.
pub const TIMEOUT_COOLDOWN_SECS: i64 = 60;

/// Maximum rate-limit retries for a single operation before giving up.
pub const MAX_RATE_LIMIT_RETRIES: u32 = 10;

/// Maximum transient retries for a single operation before giving up.
pub const MAX_TIMEOUT_RETRIES: u32 = 5;

/// Decorrelated jitter base, in milliseconds.
pub const BACKOFF_BASE_MS: u64 = 1000;

/// Decorrelated jitter cap, in milliseconds.
pub const BACKOFF_CAP_MS: u64 = 64_000;

/// Wait before a retry after a transient failure, in milliseconds.
pub const TIMEOUT_BACKOFF_MS: u64 = 2000;

/// The state of a throttle. Instants are seconds since the epoch, and 0 stands
/// for "never".
#[derive(Clone, Copy, Debug)]
pub struct Throttle {
    pub max_workers: usize,
    pub active_limit: usize,
    pub in_flight: usize,
    pub last_rate_limit: i64,
    pub last_timeout: i64,
    pub last_scale_up: i64,
    pub successes_since_scale_up: usize,
    /// Counter feeding the jitter, so that different operations land on
    /// different sleeps.
    pub jitter_nonce: u64,
    pub total_rate_limits: u64,
    pub total_timeouts: u64,
    /// Tasks currently sleeping between retries.
    pub in_backoff: usize,
}

/// Snapshot of the counters.
#[derive(Clone, Copy, Debug)]
pub struct ThrottleStats {
    pub in_flight: usize,
    pub active_limit: usize,
    pub max_workers: usize,
    pub in_backoff: usize,
    pub total_rate_limits: u64,
    pub total_timeouts: u64,
}

/// How a failed request is to be taken.
#[derive(Debug, Clone, Copy, PartialEq, Eq, Structural)]
pub enum Outcome {
    RateLimit,
    Timeout,
    Permanent,
}

/// Errors that know how they are to be taken.
pub trait ErrorClassify {
    spec fn outcome(&self) -> Outcome;

    fn classify(&self) -> (r: Outcome)
        ensures
            r == self.outcome(),
    ;
}

/// What is known of a failed request to the Hub.
#[derive(Debug, Clone, Copy)]
pub struct RequestFailure {
    /// The status of the response, if one came.
    pub status: Option<u16>,
    /// Whether the request timed out, could not connect, or could not be sent.
    pub transport: bool,
}

/// How a response with the given status is to be taken.
pub open spec fn status_outcome(status: u16) -> Outcome {
    if status == 429 {
        Outcome::RateLimit
    } else if status == 500 || status == 502 || status == 503 || status == 504 {
        Outcome::Timeout
    } else {
        Outcome::Permanent
    }
}

/// Classifies a response by its status: 429 is a rate limit, 500, 502, 503 and
/// 504 are transient, and all else is permanent.
pub fn classify_status(status: u16) -> (r: Outcome)
    ensures
        r == status_outcome(status),
{
    match status {
        429 => Outcome::RateLimit,
        500 | 502 | 503 | 504 => Outcome::Timeout,
        _ => Outcome::Permanent,
    }
}

impl ErrorClassify for RequestFailure {
    open spec fn outcome(&self) -> Outcome {
        match self.status {
            Some(status) => status_outcome(status),
            None => if self.transport {
                Outcome::Timeout
            } else {
                Outcome::Permanent
            },
        }
    }

    fn classify(&self) -> (r: Outcome) {
        match self.status {
            Some(status) => classify_status(status),
            None => if self.transport {
                Outcome::Timeout
            } else {
                Outcome::Permanent
            },
        }
    }
}

/// The smaller of two numbers.
pub open spec fn smaller(a: int, b: int) -> int {
    if a <= b {
        a
    } else {
        b
    }
}

/// The larger of two numbers.
pub open spec fn larger(a: int, b: int) -> int {
    if a >= b {
        a
    } else {
        b
    }
}

/// The floor of a reduction that keeps one worker in `share`: at least four
/// workers, and never more than the ceiling.
pub open spec fn reduction_floor(max: int, share: int) -> int {
    smaller(larger(max / share, 4), max)
}

/// The limit after a rate limit: half, with a tight floor.
pub open spec fn rate_limited(limit: int, max: int) -> int {
    larger(limit / 2, reduction_floor(max, 64))
}

/// The limit after a transient failure: a tenth less, with a gentler floor, and
/// never more than before.
pub open spec fn timed_out(limit: int, max: int) -> int {
    smaller(larger(limit * 9 / 10, reduction_floor(max, 16)), limit)
}

/// The limit after a scale-up: double before the first setback, one more after
/// it, and never more than the ceiling.
pub open spec fn scaled_up(limit: int, max: int, slow_start: bool) -> int {
    if slow_start {
        smaller(2 * limit, max)
    } else {
        limit + 1
    }
}

impl Throttle {
    /// A throttle that its operations can reach: the limit lies between one
    /// worker and the ceiling, no instant lies before the epoch, and the
    /// successes counted are too few for a scale-up.
    pub open spec fn wf(self) -> bool {
        &&& 1 <= self.active_limit <= self.max_workers
        &&& 0 <= self.last_rate_limit
        &&& 0 <= self.last_timeout
        &&& 0 <= self.last_scale_up
        &&& self.successes_since_scale_up < SUCCESSES_TO_SCALE_UP
    }

    /// Whether no setback was seen yet.
    pub open spec fn slow_start(self) -> bool {
        self.last_rate_limit == 0 && self.last_timeout == 0
    }

    /// Whether a success at `now` counts towards a scale-up: there is room
    /// below the ceiling, and the last rate limit, transient failure and
    /// scale-up are long enough ago.
    pub open spec fn counts_success(self, now: i64) -> bool {
        &&& self.active_limit < self.max_workers
        &&& self.last_rate_limit == 0 || now - self.last_rate_limit > RATE_LIMIT_COOLDOWN_SECS
        &&& self.last_timeout == 0 || now - self.last_timeout > TIMEOUT_COOLDOWN_SECS
        &&& self.last_scale_up == 0 || now - self.last_scale_up >= SCALE_UP_INTERVAL_SECS
    }

    /// Whether a success at `now` scales up.
    pub open spec fn scales_up(self, now: i64) -> bool {
        self.counts_success(now) && self.successes_since_scale_up + 1 >= SUCCESSES_TO_SCALE_UP
    }

    /// The throttle after a success at `now`.
    pub open spec fn after_success(self, now: i64) -> Throttle {
        if self.scales_up(now) {
            Throttle {
                active_limit: scaled_up(
                    self.active_limit as int,
                    self.max_workers as int,
                    self.slow_start(),
                ) as usize,
                last_scale_up: now,
                successes_since_scale_up: 0,
                ..self
            }
        } else if self.counts_success(now) {
            Throttle {
                successes_since_scale_up: (self.successes_since_scale_up + 1) as usize,
                ..self
            }
        } else {
            self
        }
    }

    /// The throttle after a rate limit at `now`.
    pub open spec fn after_rate_limit(self, now: i64) -> Throttle {
        Throttle {
            active_limit: rate_limited(self.active_limit as int, self.max_workers as int) as usize,
            last_rate_limit: now,
            successes_since_scale_up: 0,
            total_rate_limits: self.total_rate_limits.wrapping_add(1),
            ..self
        }
    }

    /// The throttle after a transient failure at `now`. The instant is kept
    /// only where the limit went down.
    pub open spec fn after_timeout(self, now: i64) -> Throttle {
        let limit = timed_out(self.active_limit as int, self.max_workers as int);
        let total = self.total_timeouts.wrapping_add(1);
        if limit < self.active_limit {
            Throttle {
                active_limit: limit as usize,
                last_timeout: now,
                successes_since_scale_up: 0,
                total_timeouts: total,
                ..self
            }
        } else {
            Throttle { total_timeouts: total, ..self }
        }
    }

    /// A throttle with the given ceiling; a ceiling of 0 is taken as 1.
    pub fn new(max_workers: usize) -> (t: Throttle)
        ensures
            t.wf(),
            t == (Throttle {
                max_workers: larger(max_workers as int, 1) as usize,
                active_limit: smaller(INITIAL_WORKERS as int, larger(max_workers as int, 1)) as usize,
                in_flight: 0,
                last_rate_limit: 0,
                last_timeout: 0,
                last_scale_up: 0,
                successes_since_scale_up: 0,
                jitter_nonce: 0,
                total_rate_limits: 0,
                total_timeouts: 0,
                in_backoff: 0,
            }),
    {
        let max_workers: usize = if max_workers < 1 { 1 } else { max_workers };
        let active_limit: usize = if max_workers < INITIAL_WORKERS {
            max_workers
        } else {
            INITIAL_WORKERS
        };
        Throttle {
            max_workers,
            active_limit,
            in_flight: 0,
            last_rate_limit: 0,
            last_timeout: 0,
            last_scale_up: 0,
            successes_since_scale_up: 0,
            jitter_nonce: 0,
            total_rate_limits: 0,
            total_timeouts: 0,
            in_backoff: 0,
        }
    }

    /// Snapshot of the counters.
    pub fn stats(&self) -> (s: ThrottleStats)
        ensures
            s == (ThrottleStats {
                in_flight: self.in_flight,
                active_limit: self.active_limit,
                max_workers: self.max_workers,
                in_backoff: self.in_backoff,
                total_rate_limits: self.total_rate_limits,
                total_timeouts: self.total_timeouts,
            }),
    {
        ThrottleStats {
            in_flight: self.in_flight,
            active_limit: self.active_limit,
            max_workers: self.max_workers,
            in_backoff: self.in_backoff,
            total_rate_limits: self.total_rate_limits,
            total_timeouts: self.total_timeouts,
        }
    }

    /// Takes a permit if fewer requests are in flight than the limit allows.
    /// Says whether it did; a caller that got none waits for a wake-up and
    /// asks again.
    pub fn acquire(&mut self) -> (got: bool)
        ensures
            got == (old(self).in_flight < old(self).active_limit),
            *final(self) == (if got {
                Throttle { in_flight: (old(self).in_flight + 1) as usize, ..*old(self) }
            } else {
                *old(self)
            }),
            got ==> final(self).in_flight <= final(self).active_limit,
    {
        if self.in_flight < self.active_limit {
            self.in_flight = self.in_flight + 1;
            true
        } else {
            false
        }
    }

    /// Gives a permit back. Waiting callers are to be woken.
    pub fn release(&mut self)
        requires
            old(self).in_flight > 0,
        ensures
            *final(self) == (Throttle {
                in_flight: (old(self).in_flight - 1) as usize,
                ..*old(self)
            }),
    {
        self.in_flight = self.in_flight - 1;
    }

    /// Records a successful exchange. Says whether the limit was raised, in
    /// which case waiting callers are to be woken.
    pub fn record_success(&mut self, now: i64) -> (scaled: bool)
        requires
            old(self).wf(),
            0 <= now,
        ensures
            final(self).wf(),
            *final(self) == old(self).after_success(now),
            scaled == old(self).scales_up(now),
            scaled ==> final(self).active_limit > old(self).active_limit,
    {
        if self.active_limit >= self.max_workers {
            return false;
        }
        if !(self.last_rate_limit == 0 || now - self.last_rate_limit > RATE_LIMIT_COOLDOWN_SECS) {
            return false;
        }
        if !(self.last_timeout == 0 || now - self.last_timeout > TIMEOUT_COOLDOWN_SECS) {
            return false;
        }
        if !(self.last_scale_up == 0 || now - self.last_scale_up >= SCALE_UP_INTERVAL_SECS) {
            return false;
        }
        let successes: usize = self.successes_since_scale_up + 1;
        if successes < SUCCESSES_TO_SCALE_UP {
            self.successes_since_scale_up = successes;
            return false;
        }
        self.successes_since_scale_up = 0;
        let in_slow_start = self.last_rate_limit == 0 && self.last_timeout == 0;
        if in_slow_start {
            if self.active_limit > self.max_workers - self.active_limit {
                self.active_limit = self.max_workers;
            } else {
                self.active_limit = 2 * self.active_limit;
            }
        } else {
            self.active_limit = self.active_limit + 1;
        }
        self.last_scale_up = now;
        true
    }

    /// Records a rate limit: halves the limit, with a tight floor.
    pub fn record_rate_limit(&mut self, now: i64)
        requires
            old(self).wf(),
            0 <= now,
        ensures
            final(self).wf(),
            *final(self) == old(self).after_rate_limit(now),
    {
        self.total_rate_limits = self.total_rate_limits.wrapping_add(1);
        self.last_rate_limit = now;
        let floor = reduction_floor_of(self.max_workers, 64);
        let half: usize = self.active_limit / 2;
        self.active_limit = if half < floor { floor } else { half };
        self.successes_since_scale_up = 0;
    }

    /// Records a transient failure: takes a tenth off the limit, with a gentler
    /// floor.
    pub fn record_timeout(&mut self, now: i64)
        requires
            old(self).wf(),
            0 <= now,
            old(self).active_limit * 9 <= usize::MAX,
        ensures
            final(self).wf(),
            *final(self) == old(self).after_timeout(now),
    {
        self.total_timeouts = self.total_timeouts.wrapping_add(1);
        let floor = reduction_floor_of(self.max_workers, 16);
        let less: usize = self.active_limit * 9 / 10;
        let limit: usize = if less < floor { floor } else { less };
        if limit < self.active_limit {
            self.active_limit = limit;
            self.successes_since_scale_up = 0;
            self.last_timeout = now;
        }
    }
}

fn reduction_floor_of(max: usize, share: usize) -> (f: usize)
    requires
        share > 0,
    ensures
        f == reduction_floor(max as int, share as int),
{
    let part: usize = max / share;
    let floor: usize = if part < 4 { 4 } else { part };
    if floor < max {
        floor
    } else {
        max
    }
}

/// A number scattered over all 64 bits (the finaliser of SplitMix64).
pub open spec fn scattered(x: u64) -> u64 {
    let a = x.wrapping_add(0x9E37_79B9_7F4A_7C15);
    let b = (a ^ (a >> 30)).wrapping_mul(0xBF58_476D_1CE4_E5B9);
    let c = (b ^ (b >> 27)).wrapping_mul(0x94D0_49BB_1331_11EB);
    c ^ (c >> 31)
}

fn splitmix64(x: u64) -> (r: u64)
    ensures
        r == scattered(x),
{
    let a: u64 = x.wrapping_add(0x9E37_79B9_7F4A_7C15);
    let b: u64 = (a ^ (a >> 30)).wrapping_mul(0xBF58_476D_1CE4_E5B9);
    let c: u64 = (b ^ (b >> 27)).wrapping_mul(0x94D0_49BB_1331_11EB);
    c ^ (c >> 31)
}

/// The jitter that the counter `nonce` stands for.
pub open spec fn jitter_of(nonce: u64) -> u64 {
    scattered(nonce.wrapping_mul(0x9E37_79B9_7F4A_7C15))
}

/// How far above the base the wait before retry `attempt` may lie, plus one:
/// the window grows fourfold with each retry, up to the fourth.
pub open spec fn backoff_span(attempt: u32) -> u64 {
    if attempt <= 1 {
        2001
    } else if attempt == 2 {
        11_001
    } else if attempt == 3 {
        47_001
    } else {
        191_001
    }
}

/// The wait before retry `attempt` for the random number `r`, in milliseconds.
pub open spec fn backoff_ms(attempt: u32, r: u64) -> int {
    smaller(BACKOFF_BASE_MS + r % backoff_span(attempt), BACKOFF_CAP_MS as int)
}

/// The wait before retry `attempt` for the random number `r`: decorrelated
/// jitter between the base and the cap.
pub fn backoff_for(attempt: u32, r: u64) -> (ms: u64)
    ensures
        ms == backoff_ms(attempt, r),
        BACKOFF_BASE_MS <= ms <= BACKOFF_CAP_MS,
{
    let below: u32 = if attempt == 0 { 0 } else { attempt - 1 };
    let pow: u32 = if below < 3 { below } else { 3 };
    let mut prev_ms: u64 = BACKOFF_BASE_MS;
    let mut i: u32 = 0;
    while i < pow
        invariant
            i <= pow <= 3,
            i == 0 ==> prev_ms == 1000,
            i == 1 ==> prev_ms == 4000,
            i == 2 ==> prev_ms == 16_000,
            i == 3 ==> prev_ms == 64_000,
        decreases pow - i,
    {
        prev_ms = prev_ms * 4;
        i = i + 1;
    }
    let span: u64 = prev_ms * 3 - BACKOFF_BASE_MS + 1;
    let ms: u64 = BACKOFF_BASE_MS + r % span;
    if ms < BACKOFF_CAP_MS {
        ms
    } else {
        BACKOFF_CAP_MS
    }
}

impl Throttle {
    /// Wait before the `attempt`-th rate-limit retry (counted from one), in
    /// milliseconds. Each call draws a fresh jitter.
    pub fn rate_limit_backoff(&mut self, attempt: u32) -> (ms: u64)
        ensures
            ms == backoff_ms(attempt, jitter_of(old(self).jitter_nonce)),
            BACKOFF_BASE_MS <= ms <= BACKOFF_CAP_MS,
            *final(self) == (Throttle {
                jitter_nonce: old(self).jitter_nonce.wrapping_add(1),
                ..*old(self)
            }),
    {
        let r = self.next_rand();
        backoff_for(attempt, r)
    }

    /// Wait before a retry after a transient failure, in milliseconds.
    pub fn timeout_backoff(&self, _attempt: u32) -> (ms: u64)
        ensures
            ms == TIMEOUT_BACKOFF_MS,
    {
        TIMEOUT_BACKOFF_MS
    }

    fn next_rand(&mut self) -> (r: u64)
        ensures
            r == jitter_of(old(self).jitter_nonce),
            *final(self) == (Throttle {
                jitter_nonce: old(self).jitter_nonce.wrapping_add(1),
                ..*old(self)
            }),
    {
        let n: u64 = self.jitter_nonce;
        self.jitter_nonce = n.wrapping_add(1);
        splitmix64(n.wrapping_mul(0x9E37_79B9_7F4A_7C15))
    }

    /// Counts a task that starts to sleep between retries.
    pub fn begin_backoff(&mut self)
        requires
            old(self).in_backoff < usize::MAX,
        ensures
            *final(self) == (Throttle {
                in_backoff: (old(self).in_backoff + 1) as usize,
                ..*old(self)
            }),
    {
        self.in_backoff = self.in_backoff + 1;
    }

    /// Counts a task out that woke from its sleep.
    pub fn end_backoff(&mut self)
        requires
            old(self).in_backoff > 0,
        ensures
            *final(self) == (Throttle {
                in_backoff: (old(self).in_backoff - 1) as usize,
                ..*old(self)
            }),
    {
        self.in_backoff = self.in_backoff - 1;
    }

    /// Current ceiling on concurrent requests.
    pub fn active_limit(&self) -> (n: usize)
        ensures
            n == self.active_limit,
    {
        self.active_limit
    }

    /// Requests in flight. They exceed the limit only after the limit was
    /// lowered, until outstanding permits come back.
    pub fn in_flight(&self) -> (n: usize)
        ensures
            n == self.in_flight,
    {
        self.in_flight
    }

    /// Configured ceiling on the limit, constant over the throttle's life.
    pub fn max_workers(&self) -> (n: usize)
        ensures
            n == self.max_workers,
    {
        self.max_workers
    }
}

/// Retries of one operation so far.
#[derive(Clone, Copy, Debug)]
pub struct Retries {
    pub rate_limit_retries: u32,
    pub timeout_retries: u32,
}

/// What to do after an attempt of an operation.
#[derive(Clone, Copy, Debug, PartialEq, Eq, Structural)]
pub enum RetryStep {
    /// Hand the result to the caller.
    Finish,
    /// Sleep for so many milliseconds without a permit, then try again.
    SleepThenRetry { ms: u64 },
}

impl Retries {
    /// An operation that was not tried yet.
    pub fn none() -> (r: Retries)
        ensures
            r.rate_limit_retries == 0,
            r.timeout_retries == 0,
    {
        Retries { rate_limit_retries: 0, timeout_retries: 0 }
    }

    /// Whether another failure leaves the counters in range.
    pub open spec fn wf(self) -> bool {
        &&& self.rate_limit_retries <= MAX_RATE_LIMIT_RETRIES
        &&& self.timeout_retries <= MAX_TIMEOUT_RETRIES
    }
}

/// The counters after an attempt that ended with `outcome`, none where it
/// succeeded.
pub open spec fn counted(r: Retries, outcome: Option<Outcome>) -> Retries {
    match outcome {
        Some(Outcome::RateLimit) => Retries {
            rate_limit_retries: (r.rate_limit_retries + 1) as u32,
            ..r
        },
        Some(Outcome::Timeout) => Retries { timeout_retries: (r.timeout_retries + 1) as u32, ..r },
        _ => r,
    }
}

/// Whether an attempt that ended with `outcome` is followed by another: it
/// failed in a way that may pass, and the retries of that kind are not used up.
pub open spec fn tries_again(r: Retries, outcome: Option<Outcome>) -> bool {
    match outcome {
        Some(Outcome::RateLimit) => r.rate_limit_retries < MAX_RATE_LIMIT_RETRIES,
        Some(Outcome::Timeout) => r.timeout_retries < MAX_TIMEOUT_RETRIES,
        _ => false,
    }
}

/// The throttle after an attempt that ended with `outcome` at `now`, before
/// any wait is drawn.
pub open spec fn recorded(t: Throttle, outcome: Option<Outcome>, now: i64) -> Throttle {
    match outcome {
        None => t.after_success(now),
        Some(Outcome::RateLimit) => t.after_rate_limit(now),
        Some(Outcome::Timeout) => t.after_timeout(now),
        Some(Outcome::Permanent) => t,
    }
}

/// Decides what follows an attempt of an operation under the throttle. The
/// permit of the attempt was given back, `outcome` says how the attempt failed
/// (`None`: it did not), and the outcome is recorded with the throttle.
pub fn with_throttle(
    throttle: &mut Throttle,
    retries: &mut Retries,
    outcome: Option<Outcome>,
    now: i64,
) -> (step: RetryStep)
    requires
        old(throttle).wf(),
        old(throttle).active_limit * 9 <= usize::MAX,
        old(retries).wf(),
        0 <= now,
    ensures
        final(throttle).wf(),
        *final(retries) == counted(*old(retries), outcome),
        (step is SleepThenRetry) == tries_again(*old(retries), outcome),
        step is SleepThenRetry ==> final(retries).wf(),
        match step {
            RetryStep::Finish => *final(throttle) == recorded(*old(throttle), outcome, now),
            RetryStep::SleepThenRetry { ms } => if outcome == Some(Outcome::RateLimit) {
                &&& ms == backoff_ms(
                    final(retries).rate_limit_retries,
                    jitter_of(old(throttle).jitter_nonce),
                )
                &&& *final(throttle) == (Throttle {
                    jitter_nonce: old(throttle).jitter_nonce.wrapping_add(1),
                    ..recorded(*old(throttle), outcome, now)
                })
            } else {
                &&& ms == TIMEOUT_BACKOFF_MS
                &&& *final(throttle) == recorded(*old(throttle), outcome, now)
            },
        },
{
    match outcome {
        None => {
            throttle.record_success(now);
            RetryStep::Finish
        },
        Some(Outcome::RateLimit) => {
            retries.rate_limit_retries = retries.rate_limit_retries + 1;
            throttle.record_rate_limit(now);
            if retries.rate_limit_retries > MAX_RATE_LIMIT_RETRIES {
                return RetryStep::Finish;
            }
            RetryStep::SleepThenRetry { ms: throttle.rate_limit_backoff(retries.rate_limit_retries) }
        },
        Some(Outcome::Timeout) => {
            retries.timeout_retries = retries.timeout_retries + 1;
            throttle.record_timeout(now);
            if retries.timeout_retries > MAX_TIMEOUT_RETRIES {
                return RetryStep::Finish;
            }
            RetryStep::SleepThenRetry { ms: throttle.timeout_backoff(retries.timeout_retries) }
        },
        Some(Outcome::Permanent) => RetryStep::Finish,
    }
}

/// No setback raises a limit that lies at or above the setback's floor, and
/// none takes it below the floor.
pub proof fn setbacks_lower_the_limit(limit: int, max: int)
    requires
        1 <= limit <= max,
    ensures
        timed_out(limit, max) <= limit,
        limit >= reduction_floor(max, 64) ==> reduction_floor(max, 64) <= rate_limited(limit, max)
            <= limit,
        limit >= reduction_floor(max, 16) ==> reduction_floor(max, 16) <= timed_out(limit, max),
{
}

/// The limit after `n` rate limits in a row.
pub open spec fn rate_limited_times(limit: int, max: int, n: nat) -> int
    decreases n,
{
    if n == 0 {
        limit
    } else {
        rate_limited(rate_limited_times(limit, max, (n - 1) as nat), max)
    }
}

/// Rate limits in a row take any limit down to the floor: after as many of them
/// as there are workers, the limit is the floor.
pub proof fn rate_limits_reach_the_floor(limit: int, max: int, n: nat)
    requires
        1 <= limit <= max,
        n >= limit,
    ensures
        rate_limited_times(limit, max, n) == reduction_floor(max, 64),
{
    lemma_rate_limits(limit, max, n);
}

proof fn lemma_rate_limits(limit: int, max: int, n: nat)
    requires
        1 <= limit <= max,
    ensures
        n > 0 ==> rate_limited_times(limit, max, n) == reduction_floor(max, 64)
            || reduction_floor(max, 64) < rate_limited_times(limit, max, n) <= limit - n,
    decreases n,
{
    reveal_with_fuel(rate_limited_times, 2);
    if n > 0 {
        lemma_rate_limits(limit, max, (n - 1) as nat);
    }
}

/// The limit after `n` scale-ups in a row.
pub open spec fn scaled_up_times(limit: int, max: int, slow_start: bool, n: nat) -> int
    decreases n,
{
    if n == 0 {
        limit
    } else {
        let before = scaled_up_times(limit, max, slow_start, (n - 1) as nat);
        if before < max {
            scaled_up(before, max, slow_start)
        } else {
            before
        }
    }
}

/// Without setbacks five scale-ups take the limit from its start to the
/// default ceiling, and no scale-up ever takes it beyond the ceiling.
pub proof fn slow_start_reaches_ceiling(limit: int, max: int, slow_start: bool, n: nat)
    requires
        1 <= limit <= max,
    ensures
        limit <= scaled_up_times(limit, max, slow_start, n) <= max,
        limit == INITIAL_WORKERS && max == MAX_FETCH_WORKERS && slow_start && n >= 5
            ==> scaled_up_times(limit, max, slow_start, n) == max,
    decreases n,
{
    if n > 0 {
        slow_start_reaches_ceiling(limit, max, slow_start, (n - 1) as nat);
        if limit == INITIAL_WORKERS && max == MAX_FETCH_WORKERS && slow_start {
            assert(scaled_up_times(4, 128, true, 5) == 128) by {
                reveal_with_fuel(scaled_up_times, 6);
            }
        }
    }
}

} // verus!
