//! Resilience decisions around a node execution: admission (rate limit, then
//! circuit breaker), retry with capped exponential backoff, and the circuit
//! breaker itself. Durations and instants are milliseconds; the caller reads
//! the clock and passes the current instant in.

use vstd::prelude::*;
use crate::error::{KernelError, KernelResult};

verus! {

/// Timeout, retry, rate-limit and circuit-breaker settings (durations in milliseconds).
pub struct ResilienceConfig {
    pub timeout: u64,
    pub max_retries: u32,
    pub initial_backoff: u64,
    pub max_backoff: u64,
    pub rps: u32,
    /// Consecutive failures before the circuit opens.
    pub circuit_threshold: u8,
    pub circuit_cooldown: u64,
}

impl ResilienceConfig {
    /// The default settings: 30 s timeout, 3 attempts, backoff from 100 ms
    /// capped at 5 s, 1000 requests per second, circuit opens after 5
    /// consecutive failures for 10 s.
    pub open spec fn default_values() -> Self {
        ResilienceConfig {
            timeout: 30_000,
            max_retries: 3,
            initial_backoff: 100,
            max_backoff: 5_000,
            rps: 1000,
            circuit_threshold: 5,
            circuit_cooldown: 10_000,
        }
    }

    /// The rate the limiter is built with: `rps`, but at least one per second.
    pub fn effective_rps(&self) -> (r: u32)
        ensures
            r == if self.rps == 0 { 1 } else { self.rps },
    {
        if self.rps == 0 { 1 } else { self.rps }
    }
}

impl Default for ResilienceConfig {
    fn default() -> (r: Self)
        ensures
            r == ResilienceConfig::default_values(),
    {
        ResilienceConfig {
            timeout: 30_000,
            max_retries: 3,
            initial_backoff: 100,
            max_backoff: 5_000,
            rps: 1000,
            circuit_threshold: 5,
            circuit_cooldown: 10_000,
        }
    }
}

/// Counts consecutive failures and, once `threshold` is reached, refuses
/// calls until `cooldown` milliseconds have passed.
pub struct CircuitBreaker {
    pub threshold: u8,
    pub cooldown: u64,
    pub failures: u8,
    /// Instant (ms) until which the circuit is open, if it is.
    pub open_until: Option<u64>,
}

impl CircuitBreaker {
    pub fn new(threshold: u8, cooldown: u64) -> (r: Self)
        ensures
            r.threshold == threshold,
            r.cooldown == cooldown,
            r.failures == 0,
            r.open_until is None,
    {
        CircuitBreaker { threshold, cooldown, failures: 0, open_until: None }
    }

    /// Does the breaker let a call through at instant `now`: is the circuit
    /// closed, or its reopening instant reached?
    pub open spec fn admits(self, now: u64) -> bool {
        !(self.open_until matches Some(t) && now < t)
    }

    /// The breaker after an admission check at `now`: an open circuit whose
    /// reopening instant is reached closes and forgets the failures.
    pub open spec fn after_allow(self, now: u64) -> CircuitBreaker {
        match self.open_until {
            Some(t) => if now < t {
                self
            } else {
                CircuitBreaker { threshold: self.threshold, cooldown: self.cooldown, failures: 0, open_until: None }
            },
            None => self,
        }
    }

    /// May a call go through at instant `now`? An open circuit refuses until
    /// its reopening instant; reaching it closes the circuit and forgets the
    /// failures.
    pub fn allow(&mut self, now: u64) -> (r: bool)
        ensures
            r == old(self).admits(now),
            *final(self) == old(self).after_allow(now),
            final(self).threshold == old(self).threshold,
            final(self).cooldown == old(self).cooldown,
            match old(self).open_until {
                Some(t) => if now < t {
                    !r && *final(self) == *old(self)
                } else {
                    r && final(self).open_until is None && final(self).failures == 0
                },
                None => r && *final(self) == *old(self),
            },
    {
        if let Some(t) = self.open_until {
            if now < t {
                return false;
            }
            self.open_until = None;
            self.failures = 0;
        }
        true
    }

    /// A call succeeded: the consecutive-failure count restarts.
    pub fn on_success(&mut self)
        ensures
            final(self).failures == 0,
            final(self).threshold == old(self).threshold,
            final(self).cooldown == old(self).cooldown,
            final(self).open_until == old(self).open_until,
    {
        self.failures = 0;
    }

    /// The breaker after a failure at instant `now`.
    pub open spec fn after_failure(self, now: u64) -> CircuitBreaker {
        let failures = if self.failures == 255 { 255u8 } else { (self.failures + 1) as u8 };
        CircuitBreaker {
            threshold: self.threshold,
            cooldown: self.cooldown,
            failures,
            open_until: if failures >= self.threshold { Some((now + self.cooldown) as u64) } else { self.open_until },
        }
    }

    /// Recording a failure at `now` cannot overflow the reopening instant.
    pub open spec fn failure_fits(self, now: u64) -> bool {
        (if self.failures == 255 { 255 } else { self.failures + 1 }) >= self.threshold ==> now + self.cooldown <= u64::MAX
    }

    /// A call failed at instant `now`: count it (saturating), and open the
    /// circuit for `cooldown` ms once the threshold is reached.
    pub fn on_failure(&mut self, now: u64)
        requires
            old(self).failure_fits(now),
        ensures
            *final(self) == old(self).after_failure(now),
    {
        self.failures = self.failures.saturating_add(1);
        if self.failures >= self.threshold {
            self.open_until = Some(now + self.cooldown);
        }
    }
}

/// The breaker after consecutive failures at the instants `times`.
pub open spec fn after_failures(b: CircuitBreaker, times: Seq<u64>) -> CircuitBreaker
    decreases times.len(),
{
    if times.len() == 0 {
        b
    } else {
        after_failures(b, times.drop_last()).after_failure(times.last())
    }
}

/// Consecutive failures add up, saturating at 255.
pub proof fn lemma_failures_count(b: CircuitBreaker, times: Seq<u64>)
    ensures
        after_failures(b, times).failures == if b.failures + times.len() >= 255 { 255 } else { b.failures + times.len() },
        after_failures(b, times).threshold == b.threshold,
        after_failures(b, times).cooldown == b.cooldown,
    decreases times.len(),
{
    if times.len() > 0 {
        lemma_failures_count(b, times.drop_last());
    }
}

/// The breaker's cycle. After `threshold` consecutive failures (with no
/// success in between) the circuit is open until `cooldown` after the last of
/// them: before that instant it refuses every call and stays as it is; from
/// that instant on it lets the call through, closing the circuit and
/// forgetting the failures.
pub proof fn lemma_breaker_cycle(b: CircuitBreaker, times: Seq<u64>, now: u64)
    requires
        times.len() > 0,
        b.failures + times.len() >= b.threshold,
        times.last() + b.cooldown <= u64::MAX,
    ensures
        after_failures(b, times).open_until == Some((times.last() + b.cooldown) as u64),
        after_failures(b, times).admits(now) <==> now >= times.last() + b.cooldown,
        !after_failures(b, times).admits(now) ==> after_failures(b, times).after_allow(now) == after_failures(b, times),
        after_failures(b, times).admits(now) ==> after_failures(b, times).after_allow(now).open_until is None
            && after_failures(b, times).after_allow(now).failures == 0
            && after_failures(b, times).after_allow(now).threshold == b.threshold
            && after_failures(b, times).after_allow(now).cooldown == b.cooldown,
{
    lemma_failures_count(b, times.drop_last());
    lemma_failures_count(b, times);
}

/// Admission check of a call: a rate-limited call is refused first, without
/// touching the breaker; otherwise the breaker decides.
pub fn check_admission(breaker: &mut CircuitBreaker, rate_limited: bool, now: u64) -> (r: KernelResult<()>)
    ensures
        rate_limited ==> (r matches Err(KernelError::RateLimited)) && *final(breaker) == *old(breaker),
        !rate_limited ==> {
            let opened = (old(breaker).open_until matches Some(t) && now < t);
            &&& (r is Ok <==> !opened)
            &&& (r is Err ==> r matches Err(KernelError::CircuitOpen))
            &&& opened ==> *final(breaker) == *old(breaker)
            &&& !opened && old(breaker).open_until is Some ==> final(breaker).open_until is None && final(breaker).failures == 0
            &&& old(breaker).open_until is None ==> *final(breaker) == *old(breaker)
            &&& final(breaker).threshold == old(breaker).threshold
            &&& final(breaker).cooldown == old(breaker).cooldown
        },
{
    if rate_limited {
        return Err(KernelError::RateLimited);
    }
    if !breaker.allow(now) {
        return Err(KernelError::CircuitOpen);
    }
    Ok(())
}

/// Backoff before the retry that follows `k` failed retries: the initial
/// backoff, then doubled each time and capped at `max`.
pub open spec fn backoff_after(initial: u64, max: u64, k: nat) -> int
    decreases k,
{
    if k == 0 {
        initial as int
    } else {
        let b = backoff_after(initial, max, (k - 1) as nat);
        if 2 * b <= max { 2 * b } else { max as int }
    }
}

/// After the first retry the backoff is the initial one doubled `k` times,
/// capped at `max`: `min(initial * 2^k, max)`.
pub proof fn lemma_backoff_closed_form(initial: u64, max: u64, k: nat)
    requires
        k >= 1,
    ensures
        backoff_after(initial, max, k) == if initial * vstd::arithmetic::power2::pow2(k) <= max {
            initial * vstd::arithmetic::power2::pow2(k)
        } else {
            max as int
        },
    decreases k,
{
    vstd::arithmetic::power2::lemma_pow2_unfold(k);
    let p = vstd::arithmetic::power2::pow2((k - 1) as nat);
    assert(vstd::arithmetic::power2::pow2(k) == 2 * p);
    assert(initial * (2 * p) == 2 * (initial * p)) by (nonlinear_arith);
    if k == 1 {
        vstd::arithmetic::power2::lemma2_to64();
        assert(p == 1);
        assert(backoff_after(initial, max, 0) == initial);
    } else {
        lemma_backoff_closed_form(initial, max, (k - 1) as nat);
        assert(initial * p >= 0) by (nonlinear_arith);
    }
}

/// What to do after a failed attempt.
pub enum RetryDecision {
    /// No attempts left: report the failure.
    GiveUp,
    /// Sleep this many milliseconds, then try again.
    RetryAfter(u64),
}

/// Attempt bookkeeping of one resilient call. The first attempt starts when
/// the bookkeeping is created.
pub struct Retry {
    pub attempt: u32,
    pub backoff: u64,
    pub max_retries: u32,
    pub initial_backoff: u64,
    pub max_backoff: u64,
}

impl Retry {
    /// Attempts made so far never exceed the larger of `max_retries` and one,
    /// and the next backoff is the doubled, capped initial backoff.
    pub open spec fn wf(&self) -> bool {
        &&& 1 <= self.attempt
        &&& self.attempt <= self.max_retries || self.attempt == 1
        &&& self.backoff == backoff_after(self.initial_backoff, self.max_backoff, (self.attempt - 1) as nat)
    }

    pub fn start(cfg: &ResilienceConfig) -> (r: Self)
        ensures
            r.wf(),
            r.attempt == 1,
            r.backoff == cfg.initial_backoff,
            r.max_retries == cfg.max_retries,
            r.initial_backoff == cfg.initial_backoff,
            r.max_backoff == cfg.max_backoff,
    {
        Retry {
            attempt: 1,
            backoff: cfg.initial_backoff,
            max_retries: cfg.max_retries,
            initial_backoff: cfg.initial_backoff,
            max_backoff: cfg.max_backoff,
        }
    }

    /// The current attempt failed: give up once `max_retries` attempts were
    /// made, else sleep the current backoff, double it (capped) and start the
    /// next attempt.
    pub fn on_error(&mut self) -> (r: RetryDecision)
        requires
            old(self).wf(),
        ensures
            final(self).wf(),
            final(self).max_retries == old(self).max_retries,
            final(self).initial_backoff == old(self).initial_backoff,
            final(self).max_backoff == old(self).max_backoff,
            old(self).attempt >= old(self).max_retries ==> r is GiveUp && *final(self) == *old(self),
            old(self).attempt < old(self).max_retries ==> {
                &&& r == RetryDecision::RetryAfter(old(self).backoff)
                &&& final(self).attempt == old(self).attempt + 1
                &&& final(self).backoff == backoff_after(old(self).initial_backoff, old(self).max_backoff, old(self).attempt as nat)
            },
    {
        if self.attempt >= self.max_retries {
            return RetryDecision::GiveUp;
        }
        let sleep = self.backoff;
        let next = if self.backoff <= self.max_backoff / 2 { 2 * self.backoff } else { self.max_backoff };
        self.backoff = next;
        self.attempt = self.attempt + 1;
        RetryDecision::RetryAfter(sleep)
    }
}

} // verus!
