//! The decision logic of a resilient fetcher: error classification, exponential
//! backoff, a circuit breaker, result summaries and resource accounting. The network,
//! the timers and the concurrency stay with the caller.
use vstd::prelude::*;
use crate::text::{owned, append_str, append_chars, decimal, decimal_chars, string_from_chars};
use crate::packets::{clock_now, elapsed_between, duration_shorter};

verus! {

/// Why a fetch failed.
#[derive(Debug, Clone)]
pub enum ScraperError {
    NetworkError(String),
    TimeoutError(u64),
    HttpError { status: u16, url: String },
    ParseError(String),
    CircuitBreakerOpen,
    ResourceLimitExceeded(String),
}

/// The message of an error.
pub open spec fn error_text(e: ScraperError) -> Seq<char> {
    match e {
        ScraperError::NetworkError(m) => "Network error: "@ + m@,
        ScraperError::TimeoutError(ms) => "Request timed out after "@ + decimal(ms as nat) + "ms"@,
        ScraperError::HttpError { status, url } => "HTTP "@ + decimal(status as nat) + " error for "@ + url@,
        ScraperError::ParseError(m) => "Failed to parse response: "@ + m@,
        ScraperError::CircuitBreakerOpen => "Circuit breaker is open"@,
        ScraperError::ResourceLimitExceeded(m) => "Resource limit exceeded: "@ + m@,
    }
}

impl ScraperError {
    /// Network errors, timeouts and server errors (status 500 to 599) are worth
    /// retrying; nothing else is.
    pub fn is_retryable(&self) -> (r: bool)
        ensures
            r == match *self {
                ScraperError::NetworkError(_) => true,
                ScraperError::TimeoutError(_) => true,
                ScraperError::HttpError { status, .. } => 500 <= status <= 599,
                _ => false,
            },
    {
        match self {
            ScraperError::NetworkError(_) => true,
            ScraperError::TimeoutError(_) => true,
            ScraperError::HttpError { status, .. } => 500 <= *status && *status <= 599,
            _ => false,
        }
    }

    /// The error's message.
    pub fn to_text(&self) -> (r: String)
        ensures
            r@ == error_text(*self),
    {
        let mut v: Vec<char> = Vec::new();
        match self {
            ScraperError::NetworkError(m) => {
                append_str(&mut v, "Network error: ");
                append_str(&mut v, m.as_str());
            },
            ScraperError::TimeoutError(ms) => {
                append_str(&mut v, "Request timed out after ");
                let d = decimal_chars(*ms);
                append_chars(&mut v, d.as_slice());
                append_str(&mut v, "ms");
            },
            ScraperError::HttpError { status, url } => {
                append_str(&mut v, "HTTP ");
                let d = decimal_chars(*status as u64);
                append_chars(&mut v, d.as_slice());
                append_str(&mut v, " error for ");
                append_str(&mut v, url.as_str());
            },
            ScraperError::ParseError(m) => {
                append_str(&mut v, "Failed to parse response: ");
                append_str(&mut v, m.as_str());
            },
            ScraperError::CircuitBreakerOpen => {
                append_str(&mut v, "Circuit breaker is open");
            },
            ScraperError::ResourceLimitExceeded(m) => {
                append_str(&mut v, "Resource limit exceeded: ");
                append_str(&mut v, m.as_str());
            },
        }
        string_from_chars(v.as_slice())
    }
}

/// How often and how patiently to retry.
#[derive(Debug, Clone)]
pub struct RetryConfig {
    pub max_attempts: usize,
    pub initial_backoff_ms: u64,
    pub max_backoff_ms: u64,
    pub jitter: bool,
}

/// The backoff before jitter: the initial backoff times `2^attempt` (the factor is
/// `u64::MAX` once the shift reaches 64 bits, and the product saturates), capped at
/// the maximum.
pub open spec fn capped_backoff(c: RetryConfig, attempt: usize) -> nat {
    let shift = #[verifier::truncate] (attempt as u32);
    let factor: nat = if shift < 64 { (1u64 << shift) as nat } else { u64::MAX as nat };
    let base: nat = if c.initial_backoff_ms * factor > u64::MAX { u64::MAX as nat } else { (c.initial_backoff_ms * factor) as nat };
    if base < c.max_backoff_ms { base } else { c.max_backoff_ms as nat }
}

impl RetryConfig {
    /// Three attempts, backing off from one second up to thirty, with jitter.
    pub fn default() -> (r: Self)
        ensures
            r.max_attempts == 3,
            r.initial_backoff_ms == 1000,
            r.max_backoff_ms == 30000,
            r.jitter,
    {
        RetryConfig { max_attempts: 3, initial_backoff_ms: 1_000, max_backoff_ms: 30_000, jitter: true }
    }

    /// The backoff in milliseconds before retry number `attempt + 1`, before jitter
    /// (see `capped_backoff`).
    pub fn capped_backoff_ms(&self, attempt: usize) -> (r: u64)
        ensures
            r == capped_backoff(*self, attempt),
    {
        let shift = #[verifier::truncate] (attempt as u32);
        let factor: u64 = if shift < 64 { 1u64 << shift } else { u64::MAX };
        let base: u64 = if factor != 0 && self.initial_backoff_ms > u64::MAX / factor {
            proof {
                assert(self.initial_backoff_ms * factor > u64::MAX) by (nonlinear_arith)
                    requires
                        factor > 0,
                        self.initial_backoff_ms > u64::MAX / factor;
            }
            u64::MAX
        } else {
            proof {
                if factor != 0 {
                    assert(self.initial_backoff_ms * factor <= u64::MAX) by (nonlinear_arith)
                        requires
                            factor > 0,
                            self.initial_backoff_ms <= u64::MAX / factor;
                } else {
                    assert(self.initial_backoff_ms * factor == 0) by (nonlinear_arith)
                        requires
                            factor == 0;
                }
            }
            self.initial_backoff_ms * factor
        };
        if base < self.max_backoff_ms { base } else { self.max_backoff_ms }
    }
}

/// The state of a circuit breaker.
#[derive(Debug, Clone, Copy, PartialEq)]
pub enum CircuitState {
    Closed,
    Open { opened_at: std::time::Instant },
    HalfOpen,
}

/// Stops calling a failing service for a while: after `failure_threshold` failures in a
/// row it opens; once `timeout` has passed it lets one trial call through (half-open),
/// and a success closes it again.
pub struct CircuitBreaker {
    state: CircuitState,
    failure_threshold: usize,
    success_threshold: usize,
    timeout: std::time::Duration,
    consecutive_failures: usize,
    consecutive_successes: usize,
}

impl CircuitBreaker {
    /// The current state.
    pub closed spec fn current(&self) -> CircuitState {
        self.state
    }

    /// Failures in a row that open the breaker.
    pub closed spec fn failure_limit(&self) -> nat {
        self.failure_threshold as nat
    }

    /// Successes in a row, while half-open, that close the breaker.
    pub closed spec fn success_limit(&self) -> nat {
        self.success_threshold as nat
    }

    /// Failures in a row so far.
    pub closed spec fn failures(&self) -> nat {
        self.consecutive_failures as nat
    }

    /// Successes in a row so far.
    pub closed spec fn successes(&self) -> nat {
        self.consecutive_successes as nat
    }

    /// The thresholds are positive and the failure count stays below its threshold.
    pub closed spec fn wf(&self) -> bool {
        &&& self.failure_threshold >= 1
        &&& self.success_threshold >= 1
        &&& self.consecutive_failures < self.failure_threshold
    }

    /// A closed breaker that opens after `failure_threshold` failures (at least one) in
    /// a row and waits `timeout` before a trial call.
    pub fn new(failure_threshold: usize, timeout: std::time::Duration) -> (r: Self)
        ensures
            r.wf(),
            r.current() == CircuitState::Closed,
            r.failure_limit() == if failure_threshold >= 1 { failure_threshold as nat } else { 1 },
            r.success_limit() == 1,
            r.failures() == 0,
            r.successes() == 0,
    {
        CircuitBreaker {
            state: CircuitState::Closed,
            failure_threshold: if failure_threshold >= 1 { failure_threshold } else { 1 },
            success_threshold: 1,
            timeout,
            consecutive_failures: 0,
            consecutive_successes: 0,
        }
    }

    /// The current state.
    pub fn state(&self) -> (r: CircuitState)
        ensures
            r == self.current(),
    {
        self.state
    }

    /// Whether a call may go ahead, given whether the timeout has passed since the
    /// breaker opened: an open breaker whose timeout has passed turns half-open and lets
    /// the call through; one whose timeout has not passed refuses it; otherwise the
    /// call goes ahead.
    pub fn decide_attempt(&mut self, timeout_passed: bool) -> (r: bool)
        ensures
            final(self).failure_limit() == old(self).failure_limit(),
            final(self).success_limit() == old(self).success_limit(),
            final(self).failures() == old(self).failures(),
            final(self).successes() == old(self).successes(),
            old(self).wf() ==> final(self).wf(),
            old(self).current() is Open && timeout_passed ==> r && final(self).current() == CircuitState::HalfOpen,
            old(self).current() is Open && !timeout_passed ==> !r && final(self).current() == old(self).current(),
            !(old(self).current() is Open) ==> r && final(self).current() == old(self).current(),
    {
        match self.state {
            CircuitState::Open { .. } => {
                if timeout_passed {
                    self.state = CircuitState::HalfOpen;
                    true
                } else {
                    false
                }
            },
            _ => true,
        }
    }

    /// Whether a call may go ahead now (see `decide_attempt`); whether the timeout has passed
    /// is read from the clock.
    pub fn should_attempt(&mut self) -> (r: bool)
        ensures
            final(self).failure_limit() == old(self).failure_limit(),
            final(self).success_limit() == old(self).success_limit(),
            final(self).failures() == old(self).failures(),
            final(self).successes() == old(self).successes(),
            old(self).wf() ==> final(self).wf(),
            old(self).current() is Open ==> (r && final(self).current() == CircuitState::HalfOpen) || (!r
                && final(self).current() == old(self).current()),
            !(old(self).current() is Open) ==> r && final(self).current() == old(self).current(),
    {
        let passed = match self.state {
            CircuitState::Open { opened_at } => {
                let now = clock_now();
                let elapsed = elapsed_between(&now, &opened_at);
                !duration_shorter(&elapsed, &self.timeout)
            },
            _ => false,
        };
        self.decide_attempt(passed)
    }

    /// Records a successful call: the failure count restarts, and a half-open breaker
    /// that has seen enough successes closes.
    pub fn on_success(&mut self)
        requires
            old(self).successes() < usize::MAX,
        ensures
            final(self).failure_limit() == old(self).failure_limit(),
            final(self).success_limit() == old(self).success_limit(),
            old(self).wf() ==> final(self).wf(),
            final(self).failures() == 0,
            old(self).current() is HalfOpen && old(self).successes() + 1 >= old(self).success_limit() ==> final(self).current()
                == CircuitState::Closed && final(self).successes() == 0,
            !(old(self).current() is HalfOpen && old(self).successes() + 1 >= old(self).success_limit()) ==> final(self).current()
                == old(self).current() && final(self).successes() == old(self).successes() + 1,
    {
        self.consecutive_failures = 0;
        self.consecutive_successes = self.consecutive_successes + 1;
        let half_open = match self.state {
            CircuitState::HalfOpen => true,
            _ => false,
        };
        if half_open && self.consecutive_successes >= self.success_threshold {
            self.state = CircuitState::Closed;
            self.consecutive_successes = 0;
        }
    }

    /// Records a failed call: the success count restarts, and the breaker opens (now)
    /// once the failures in a row reach the threshold.
    pub fn on_failure(&mut self)
        requires
            old(self).wf(),
        ensures
            final(self).wf(),
            final(self).failure_limit() == old(self).failure_limit(),
            final(self).success_limit() == old(self).success_limit(),
            final(self).successes() == 0,
            old(self).failures() + 1 >= old(self).failure_limit() ==> final(self).current() is Open && final(self).failures() == 0,
            old(self).failures() + 1 < old(self).failure_limit() ==> final(self).current() == old(self).current()
                && final(self).failures() == old(self).failures() + 1,
    {
        self.consecutive_successes = 0;
        self.consecutive_failures = self.consecutive_failures + 1;
        if self.consecutive_failures >= self.failure_threshold {
            self.state = CircuitState::Open { opened_at: clock_now() };
            self.consecutive_failures = 0;
        }
    }
}

/// The outcome of fetching one URL.
#[derive(Debug)]
pub struct FetchResult {
    pub url: String,
    pub result: Result<String, ScraperError>,
    pub duration_ms: u64,
    pub attempt_count: usize,
}

impl FetchResult {
    /// Whether the fetch succeeded.
    pub fn is_success(&self) -> (r: bool)
        ensures
            r == self.result is Ok,
    {
        self.result.is_ok()
    }

    /// The body, when the fetch succeeded.
    pub fn content(&self) -> (r: Option<&str>)
        ensures
            match self.result {
                Ok(body) => r matches Some(s) && s@ == body@,
                Err(_) => r is None,
            },
    {
        match &self.result {
            Ok(body) => Some(body.as_str()),
            Err(_) => None,
        }
    }
}

/// Counts and timings over a batch of fetches.
#[derive(Debug)]
pub struct FetchSummary {
    pub total: usize,
    pub success: usize,
    pub failed: usize,
    pub total_duration_ms: u64,
    pub avg_duration_ms: u64,
}

/// The number of successful fetches among `rs`.
pub open spec fn successes_in(rs: Seq<FetchResult>) -> nat
    decreases rs.len(),
{
    if rs.len() == 0 {
        0
    } else {
        successes_in(rs.drop_last()) + if rs.last().result is Ok { 1nat } else { 0nat }
    }
}

/// The sum of the durations of `rs`.
pub open spec fn duration_sum(rs: Seq<FetchResult>) -> nat
    decreases rs.len(),
{
    if rs.len() == 0 {
        0
    } else {
        duration_sum(rs.drop_last()) + rs.last().duration_ms as nat
    }
}

proof fn lemma_successes_bound(rs: Seq<FetchResult>)
    ensures
        successes_in(rs) <= rs.len(),
    decreases rs.len(),
{
    if rs.len() > 0 {
        lemma_successes_bound(rs.drop_last());
    }
}

proof fn lemma_duration_prefix(rs: Seq<FetchResult>, i: int)
    requires
        0 <= i <= rs.len(),
    ensures
        duration_sum(rs.take(i)) <= duration_sum(rs),
    decreases rs.len() - i,
{
    if i < rs.len() {
        lemma_duration_prefix(rs, i + 1);
        assert(rs.take(i + 1).drop_last() =~= rs.take(i));
    } else {
        assert(rs.take(i) =~= rs);
    }
}

impl FetchSummary {
    /// Counts the fetches, the successes and the failures, and sums and averages
    /// (rounding down) the durations.
    pub fn from_results(results: &[FetchResult]) -> (r: Self)
        requires
            duration_sum(results@) <= u64::MAX,
        ensures
            r.total == results@.len(),
            r.success == successes_in(results@),
            r.failed == results@.len() - successes_in(results@),
            r.total_duration_ms == duration_sum(results@),
            results@.len() > 0 ==> r.avg_duration_ms == duration_sum(results@) / (results@.len() as nat),
            results@.len() == 0 ==> r.avg_duration_ms == 0,
    {
        let total = results.len();
        let mut success: usize = 0;
        let mut sum: u64 = 0;
        let mut i: usize = 0;
        assert(results@.take(0) =~= Seq::<FetchResult>::empty());
        while i < total
            invariant
                total == results@.len(),
                i <= total,
                success == successes_in(results@.take(i as int)),
                sum == duration_sum(results@.take(i as int)),
                duration_sum(results@) <= u64::MAX,
            decreases total - i,
        {
            proof {
                assert(results@.take(i + 1).drop_last() =~= results@.take(i as int));
                lemma_successes_bound(results@.take(i as int));
                lemma_duration_prefix(results@, i + 1);
            }
            if results[i].is_success() {
                success = success + 1;
            }
            sum = sum + results[i].duration_ms;
            i = i + 1;
        }
        assert(results@.take(total as int) =~= results@);
        proof {
            lemma_successes_bound(results@);
        }
        let avg = if total > 0 { sum / (total as u64) } else { 0 };
        FetchSummary {
            total,
            success,
            failed: total - success,
            total_duration_ms: sum,
            avg_duration_ms: avg,
        }
    }
}

/// Counts requests in flight and the bytes fetched, against a memory budget.
pub struct ResourceManager {
    active_requests: usize,
    total_bytes: u64,
    max_memory_bytes: u64,
}

impl ResourceManager {
    /// Requests in flight.
    pub closed spec fn active(&self) -> nat {
        self.active_requests as nat
    }

    /// Bytes fetched so far.
    pub closed spec fn bytes(&self) -> nat {
        self.total_bytes as nat
    }

    /// The memory budget in bytes.
    pub closed spec fn budget(&self) -> nat {
        self.max_memory_bytes as nat
    }

    /// Nothing in flight or fetched yet.
    pub fn new(max_memory_bytes: u64) -> (r: Self)
        ensures
            r.active() == 0,
            r.bytes() == 0,
            r.budget() == max_memory_bytes,
    {
        ResourceManager { active_requests: 0, total_bytes: 0, max_memory_bytes }
    }

    /// Whether the bytes fetched are still within the budget.
    pub fn can_proceed(&self) -> (r: bool)
        ensures
            r == (self.bytes() <= self.budget()),
    {
        self.total_bytes <= self.max_memory_bytes
    }

    /// Records a request that starts.
    pub fn start_request(&mut self)
        requires
            old(self).active() < usize::MAX,
        ensures
            final(self).active() == old(self).active() + 1,
            final(self).bytes() == old(self).bytes(),
            final(self).budget() == old(self).budget(),
    {
        self.active_requests = self.active_requests + 1;
    }

    /// Records a request that ended after fetching `bytes` bytes.
    pub fn end_request(&mut self, bytes: u64)
        requires
            old(self).bytes() + bytes <= u64::MAX,
        ensures
            final(self).active() == if old(self).active() > 0 { old(self).active() - 1 } else { 0 },
            final(self).bytes() == old(self).bytes() + bytes,
            final(self).budget() == old(self).budget(),
    {
        if self.active_requests > 0 {
            self.active_requests = self.active_requests - 1;
        }
        self.total_bytes = self.total_bytes + bytes;
    }
}

} // verus!
