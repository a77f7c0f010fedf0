use rand::Rng;
use vstd::arithmetic::power2::*;
use vstd::prelude::*;

use crate::error::AppError;
use crate::proxy::key_pool::{
    after_failure, after_success, cooldown_ticket, AcquiredKey, KeyPool,
};
use crate::text::{decimal, to_decimal};

verus! {

/// Whether a downstream HTTP status code is worth retrying with another key.
pub open spec fn spec_is_retryable(status: u16) -> bool {
    status == 429 || status == 502 || status == 503 || status == 504
}

/// Statuses 429, 502, 503 and 504 are retried; every other status is final.
pub fn is_retryable(status: u16) -> (r: bool)
    ensures
        r == spec_is_retryable(status),
{
    status == 429 || status == 502 || status == 503 || status == 504
}

/// A 2xx status.
pub open spec fn spec_is_success(status: u16) -> bool {
    200 <= status <= 299
}

/// Whether a status is a success (2xx).
pub fn is_success(status: u16) -> (r: bool)
    ensures
        r == spec_is_success(status),
{
    200 <= status && status <= 299
}

/// The delay before the retry that follows attempt `attempt`, before jitter:
/// `base_ms * 2^attempt`.
pub open spec fn exponential_delay(base_ms: u64, attempt: nat) -> nat {
    (base_ms as nat) * pow2(attempt)
}

/// The delay of attempt `attempt` can be computed in 64 bits: the
/// exponential delay plus a quarter of it fits.
pub open spec fn delay_defined(base_ms: u64, attempt: nat) -> bool {
    &&& attempt < 64
    &&& exponential_delay(base_ms, attempt) + exponential_delay(base_ms, attempt) / 4 <= u64::MAX
}

/// Whether `delay_defined(base_ms, attempt)` holds.
pub fn delay_is_defined(base_ms: u64, attempt: u32) -> (r: bool)
    ensures
        r == delay_defined(base_ms, attempt as nat),
{
    if attempt >= 64 {
        return false;
    }
    let mut pow: u64 = 1;
    let mut i: u32 = 0;
    proof {
        lemma2_to64();
    }
    while i < attempt
        invariant
            i <= attempt < 64,
            pow == pow2(i as nat),
            pow2(i as nat) <= 0x8000_0000_0000_0000,
        decreases attempt - i,
    {
        proof {
            lemma_pow2_unfold((i + 1) as nat);
            if i + 1 < 63 {
                lemma_pow2_strictly_increases((i + 1) as nat, 63);
            }
            lemma2_to64_rest();
        }
        pow = pow * 2;
        i = i + 1;
    }
    match base_ms.checked_mul(pow) {
        None => false,
        Some(e) => e.checked_add(e / 4).is_some(),
    }
}

/// A number drawn from `low..=high` (`rand::Rng::gen_range` on the thread's
/// generator). Only its range is known.
#[verifier::external_body]
fn random_between(low: u64, high: u64) -> (r: u64)
    requires
        low <= high,
    ensures
        low <= r <= high,
{
    rand::thread_rng().gen_range(low..=high)
}

/// The delay in milliseconds before retrying after attempt `attempt`: the
/// exponential delay `base_ms * 2^attempt` with up to a quarter of it of
/// random jitter either way.
pub fn calculate_delay(base_ms: u64, attempt: u32) -> (r: u64)
    requires
        delay_defined(base_ms, attempt as nat),
    ensures
        exponential_delay(base_ms, attempt as nat) - exponential_delay(base_ms, attempt as nat) / 4
            <= r <= exponential_delay(base_ms, attempt as nat) + exponential_delay(base_ms, attempt as nat) / 4,
{
    let mut pow: u64 = 1;
    let mut i: u32 = 0;
    proof {
        lemma2_to64();
    }
    while i < attempt
        invariant
            i <= attempt < 64,
            pow == pow2(i as nat),
            pow2(i as nat) <= 0x8000_0000_0000_0000,
        decreases attempt - i,
    {
        proof {
            lemma_pow2_unfold((i + 1) as nat);
            if i + 1 < 63 {
                lemma_pow2_strictly_increases((i + 1) as nat, 63);
            }
            lemma2_to64_rest();
        }
        pow = pow * 2;
        i = i + 1;
    }
    let exponential = base_ms * pow;
    let jitter = exponential / 4;
    random_between(exponential.saturating_sub(jitter), exponential + jitter)
}

/// What came of one attempt: a response with an HTTP status, or a transport
/// error with its description.
pub enum AttemptOutcome {
    Status(u16),
    Failed(String),
}

/// What to do after an attempt.
pub enum RetryStep {
    /// Hand the response to the caller.
    Done,
    /// Wait this many milliseconds, then make the next attempt.
    RetryAfter(u64),
    /// No attempt is left: fail with this error. The delay that would have
    /// followed is only reported.
    GiveUp(u64, AppError),
}

/// The error recorded for a failed attempt: `HTTP <status>` for a retryable
/// status, or the transport error's description.
pub open spec fn attempt_error(outcome: AttemptOutcome) -> Seq<char> {
    match outcome {
        AttemptOutcome::Status(code) => "HTTP "@ + decimal(code as nat),
        AttemptOutcome::Failed(msg) => msg@,
    }
}

/// Whether an attempt's outcome ends the request with that response: any
/// status that is a success or not worth retrying.
pub open spec fn accepts(outcome: AttemptOutcome) -> bool {
    match outcome {
        AttemptOutcome::Status(code) => spec_is_success(code) || !spec_is_retryable(code),
        AttemptOutcome::Failed(_) => false,
    }
}

/// Whether an attempt's outcome ends the request with that response (see
/// `accepts`).
pub fn outcome_accepted(outcome: &AttemptOutcome) -> (r: bool)
    ensures
        r == accepts(*outcome),
{
    match outcome {
        AttemptOutcome::Status(code) => is_success(*code) || !is_retryable(*code),
        AttemptOutcome::Failed(_) => false,
    }
}

/// Exactly the statuses 429 (Too Many Requests), 502 (Bad Gateway), 503
/// (Service Unavailable) and 504 (Gateway Timeout) are retried with another
/// key; a response with any other status, a success or not, is final.
pub proof fn law_statuses_retried(code: u16)
    ensures
        accepts(AttemptOutcome::Status(code)) <==> !(code == 429 || code == 502 || code == 503
            || code == 504),
        200 <= code <= 299 ==> accepts(AttemptOutcome::Status(code)),
{
}

/// A transport error is never final: the request is retried, or fails once
/// no attempt is left.
pub proof fn law_transport_errors_retried(message: String)
    ensures
        !accepts(AttemptOutcome::Failed(message)),
{
}

/// The retry policy of one forwarded request: up to `max_retries + 1`
/// attempts, each with a key from the pool, with exponentially growing,
/// jittered delays between them.
pub struct RetryState {
    pub max_retries: u32,
    pub base_delay_ms: u64,
    /// Number of the current attempt, counted from 0.
    pub attempt: u32,
}

impl RetryState {
    /// The attempt counter never passes the last attempt.
    pub open spec fn wf(&self) -> bool {
        self.attempt <= self.max_retries
    }

    /// A policy at its first attempt.
    pub fn new(max_retries: u32, base_delay_ms: u64) -> (r: RetryState)
        ensures
            r.wf(),
            r.attempt == 0,
            r.max_retries == max_retries,
            r.base_delay_ms == base_delay_ms,
    {
        RetryState { max_retries, base_delay_ms, attempt: 0 }
    }

    /// Settles the current attempt, made with key `acquired`. A failed
    /// attempt computes its delay, which must fit in 64 bits.
    ///
    /// A success, or a status that is not worth retrying, ends the request
    /// with that response and counts as a success of the key. A retryable
    /// status or a transport error counts as a failure of the key; then the
    /// next attempt follows after a delay of `base * 2^attempt` milliseconds
    /// give or take a quarter, unless this was the last attempt, in which case
    /// the request fails with `Downstream(attempt_error(outcome))`. When the
    /// key's failure took it out of rotation, the second result is the
    /// identity of the entry whose cooldown must be scheduled.
    pub fn on_outcome(
        &mut self,
        pool: &mut KeyPool,
        acquired: &AcquiredKey,
        outcome: AttemptOutcome,
    ) -> (r: (RetryStep, Option<u64>))
        requires
            old(self).wf(),
            old(pool).wf(),
            accepts(outcome) || delay_defined(old(self).base_delay_ms, old(self).attempt as nat),
        ensures
            final(self).wf(),
            final(pool).wf(),
            final(self).max_retries == old(self).max_retries,
            final(self).base_delay_ms == old(self).base_delay_ms,
            final(pool)@.cursor == old(pool)@.cursor,
            final(pool)@.next_id == old(pool)@.next_id,
            accepts(outcome) ==> {
                &&& r.0 is Done
                &&& r.1 is None
                &&& final(pool)@.keys == after_success(old(pool)@.keys, acquired.key@)
                &&& final(self).attempt == old(self).attempt
            },
            !accepts(outcome) ==> {
                let e = exponential_delay(old(self).base_delay_ms, old(self).attempt as nat);
                let delay = match r.0 {
                    RetryStep::RetryAfter(d) => d,
                    RetryStep::GiveUp(d, _) => d,
                    RetryStep::Done => 0,
                };
                &&& r.1 == cooldown_ticket(old(pool)@.keys, acquired.key@)
                &&& final(pool)@.keys == after_failure(old(pool)@.keys, acquired.key@)
                &&& e - e / 4 <= delay <= e + e / 4
                &&& old(self).attempt < old(self).max_retries ==> r.0 is RetryAfter
                    && final(self).attempt == old(self).attempt + 1
                &&& old(self).attempt == old(self).max_retries ==> r.0 is GiveUp
                    && final(self).attempt == old(self).attempt
                    && (r.0->GiveUp_1 matches AppError::Downstream(m) && m@ == attempt_error(outcome))
            },
            (r.0 is Done) <==> (outcome matches AttemptOutcome::Status(c) && !(c == 429 || c == 502
                || c == 503 || c == 504)),
            (outcome matches AttemptOutcome::Status(c) && (c == 429 || c == 502 || c == 503 || c
                == 504)) ==> {
                &&& final(pool)@.keys == after_failure(old(pool)@.keys, acquired.key@)
                &&& old(self).attempt < old(self).max_retries ==> r.0 is RetryAfter
                    && final(self).attempt == old(self).attempt + 1
            },
    {
        proof {
            match outcome {
                AttemptOutcome::Status(c) => law_statuses_retried(c),
                AttemptOutcome::Failed(_) => {},
            }
        }
        if outcome_accepted(&outcome) {
            pool.report_success(acquired);
            return (RetryStep::Done, None);
        }
        let cooldown = pool.report_failure(acquired);
        let delay = calculate_delay(self.base_delay_ms, self.attempt);
        let message = match outcome {
            AttemptOutcome::Status(code) => String::from_str("HTTP ").concat(
                to_decimal(code as u64).as_str(),
            ),
            AttemptOutcome::Failed(msg) => msg,
        };
        if self.attempt < self.max_retries {
            self.attempt = self.attempt + 1;
            (RetryStep::RetryAfter(delay), cooldown)
        } else {
            (RetryStep::GiveUp(delay, AppError::Downstream(message)), cooldown)
        }
    }
}

} // verus!
