//! The request engine's decision logic: the retry/timeout policy of one
//! request, separated from the waiting itself.
//!
//! The engine's loop sends the encoded datagram, then waits for the waiter
//! to be fulfilled or for the deadline to elapse.  What each attempt
//! observed is an [`AttemptOutcome`]; [`engine_step`] is the decision taken
//! after it.  [`resolve_attempts`] and [`perform_exchange`] run the same
//! decisions against a whole trace of outcomes, which is how the policy —
//! success short-circuits, send failures abort, the timeout comes after
//! exactly [`MAX_ATTEMPTS`] expired deadlines — is stated and proved.

use vstd::prelude::*;
use crate::packet::{CorrelationKey, DeviceError, ResponsePacket};
use crate::table::CorrelationTable;

verus! {

/// Fixed retry bound: a request is attempted at most this many times.
pub const MAX_ATTEMPTS: u32 = 3;

/// Fixed per-attempt deadline, in milliseconds.
pub const ATTEMPT_TIMEOUT_MS: u64 = 1000;

/// What one send-and-wait attempt observed.
#[derive(PartialEq, Debug)]
pub enum AttemptOutcome {
    /// The waiter was fulfilled with this response before the deadline.
    Response(ResponsePacket),
    /// The datagram could not be sent.
    SendFailed,
    /// The waiter's channel broke without being fulfilled.
    ChannelClosed,
    /// The deadline elapsed with no response.
    DeadlineElapsed,
}

/// The engine's decision after an attempt.
#[derive(PartialEq, Debug)]
pub enum EngineDecision {
    /// The operation is over, with this result.
    Finish(Result<ResponsePacket, DeviceError>),
    /// Send again and wait again.
    Retry,
}

/// The decision after attempt number `attempt` (counted from 1) observed
/// `outcome`: a response ends the operation at once with that response; a
/// send failure and a broken channel end it at once with their errors; an
/// expired deadline retries, until the attempts are exhausted.
pub open spec fn spec_step(attempt: int, outcome: AttemptOutcome) -> EngineDecision {
    match outcome {
        AttemptOutcome::Response(p) => EngineDecision::Finish(Ok(p)),
        AttemptOutcome::SendFailed => EngineDecision::Finish(Err(DeviceError::Io)),
        AttemptOutcome::ChannelClosed => EngineDecision::Finish(Err(DeviceError::InternalError)),
        AttemptOutcome::DeadlineElapsed => {
            if attempt >= MAX_ATTEMPTS {
                EngineDecision::Finish(Err(DeviceError::Timeout))
            } else {
                EngineDecision::Retry
            }
        },
    }
}

/// Executable form of [`spec_step`].
pub fn engine_step(attempt: u32, outcome: AttemptOutcome) -> (d: EngineDecision)
    requires
        1 <= attempt <= MAX_ATTEMPTS,
    ensures
        d == spec_step(attempt as int, outcome),
{
    match outcome {
        AttemptOutcome::Response(p) => EngineDecision::Finish(Ok(p)),
        AttemptOutcome::SendFailed => EngineDecision::Finish(Err(DeviceError::Io)),
        AttemptOutcome::ChannelClosed => EngineDecision::Finish(Err(DeviceError::InternalError)),
        AttemptOutcome::DeadlineElapsed => {
            if attempt == MAX_ATTEMPTS {
                EngineDecision::Finish(Err(DeviceError::Timeout))
            } else {
                EngineDecision::Retry
            }
        },
    }
}

/// The result of the whole retry loop with `left` attempts remaining, when
/// the successive attempts observe `outcomes`.
pub open spec fn spec_run(outcomes: Seq<AttemptOutcome>, left: int) -> Result<
    ResponsePacket,
    DeviceError,
>
    decreases left,
{
    if left <= 0 || outcomes.len() == 0 {
        Err(DeviceError::Timeout)
    } else {
        match spec_step(MAX_ATTEMPTS - left + 1, outcomes[0]) {
            EngineDecision::Finish(r) => r,
            EngineDecision::Retry => spec_run(outcomes.subrange(1, outcomes.len() as int), left
                - 1),
        }
    }
}

/// How many attempts the loop performs before it stops.
pub open spec fn spec_attempts_used(outcomes: Seq<AttemptOutcome>, left: int) -> int
    decreases left,
{
    if left <= 0 || outcomes.len() == 0 {
        0
    } else {
        match spec_step(MAX_ATTEMPTS - left + 1, outcomes[0]) {
            EngineDecision::Finish(r) => 1,
            EngineDecision::Retry => 1 + spec_attempts_used(
                outcomes.subrange(1, outcomes.len() as int),
                left - 1,
            ),
        }
    }
}

/// Runs the retry decisions against a prerecorded trace of attempt
/// outcomes, one outcome per attempt the loop makes.
pub fn resolve_attempts(outcomes: Vec<AttemptOutcome>) -> (r: Result<ResponsePacket, DeviceError>)
    requires
        outcomes@.len() >= MAX_ATTEMPTS,
    ensures
        r == spec_run(outcomes@, MAX_ATTEMPTS as int),
{
    let mut pending = outcomes;
    let ghost full = pending@;
    let mut attempt: u32 = 1;
    while attempt <= MAX_ATTEMPTS
        invariant
            1 <= attempt <= MAX_ATTEMPTS + 1,
            full == outcomes@,
            pending@.len() >= MAX_ATTEMPTS + 1 - attempt,
            spec_run(pending@, MAX_ATTEMPTS + 1 - attempt) == spec_run(full, MAX_ATTEMPTS as int),
        decreases MAX_ATTEMPTS + 1 - attempt,
    {
        let ghost before = pending@;
        let outcome = pending.remove(0);
        proof {
            assert(pending@ =~= before.subrange(1, before.len() as int));
        }
        match engine_step(attempt, outcome) {
            EngineDecision::Finish(r) => {
                proof {
                    assert(spec_step(attempt as int, before[0]) == EngineDecision::Finish(r));
                    assert(spec_run(before, MAX_ATTEMPTS + 1 - attempt) == r);
                    assert(spec_run(before, MAX_ATTEMPTS + 1 - attempt) == spec_run(
                        full,
                        MAX_ATTEMPTS as int,
                    ));
                }
                return r;
            },
            EngineDecision::Retry => {
                attempt = attempt + 1;
            },
        }
    }
    Err(DeviceError::Timeout)
}

/// Runs one whole exchange against a prerecorded trace: registers the
/// waiter under `key` before the first send could happen, walks the retry
/// loop, and removes the correlation entry on the way out whatever the
/// outcome was — the cleanup guarantee.  Afterwards no entry for `key`
/// remains, whether the exchange succeeded, timed out or failed.
pub fn perform_exchange<V>(
    table: &mut CorrelationTable<V>,
    key: CorrelationKey,
    waiter: V,
    outcomes: Vec<AttemptOutcome>,
) -> (r: Result<ResponsePacket, DeviceError>)
    requires
        outcomes@.len() >= MAX_ATTEMPTS,
    ensures
        r == spec_run(outcomes@, MAX_ATTEMPTS as int),
        !final(table)@.dom().contains(key),
        final(table)@ == old(table)@.remove(key),
{
    table.insert(key, waiter);
    let result = resolve_attempts(outcomes);
    let _ = table.take(key);
    proof {
        assert(final(table)@ =~= old(table)@.remove(key));
    }
    result
}

/// A response arriving on attempt `k` (the earlier attempts having timed
/// out) makes the whole operation return exactly that response, after
/// exactly `k` attempts.
pub proof fn lemma_response_on_attempt(outcomes: Seq<AttemptOutcome>, k: int, p: ResponsePacket)
    requires
        1 <= k <= MAX_ATTEMPTS,
        outcomes.len() >= MAX_ATTEMPTS,
        forall|i: int| 0 <= i < k - 1 ==> outcomes[i] == AttemptOutcome::DeadlineElapsed,
        outcomes[k - 1] == AttemptOutcome::Response(p),
    ensures
        spec_run(outcomes, MAX_ATTEMPTS as int) == Ok::<ResponsePacket, DeviceError>(p),
        spec_attempts_used(outcomes, MAX_ATTEMPTS as int) == k,
{
    lemma_response_on_attempt_rec(outcomes, k, p, MAX_ATTEMPTS as int);
}

proof fn lemma_response_on_attempt_rec(
    outcomes: Seq<AttemptOutcome>,
    k: int,
    p: ResponsePacket,
    left: int,
)
    requires
        1 <= k <= left <= MAX_ATTEMPTS,
        outcomes.len() >= left,
        forall|i: int| 0 <= i < k - 1 ==> outcomes[i] == AttemptOutcome::DeadlineElapsed,
        outcomes[k - 1] == AttemptOutcome::Response(p),
    ensures
        spec_run(outcomes, left) == Ok::<ResponsePacket, DeviceError>(p),
        spec_attempts_used(outcomes, left) == k,
    decreases k,
{
    if k == 1 {
    } else {
        let rest = outcomes.subrange(1, outcomes.len() as int);
        assert(outcomes[0] == AttemptOutcome::DeadlineElapsed);
        assert forall|i: int| 0 <= i < k - 2 implies rest[i]
            == AttemptOutcome::DeadlineElapsed by {
            assert(rest[i] == outcomes[i + 1]);
        }
        assert(rest[k - 2] == outcomes[k - 1]);
        lemma_response_on_attempt_rec(rest, k - 1, p, left - 1);
    }
}

/// A request that never receives a response fails with `Timeout`, after
/// exactly [`MAX_ATTEMPTS`] attempts.
pub proof fn lemma_timeout_when_unanswered(outcomes: Seq<AttemptOutcome>)
    requires
        outcomes.len() >= MAX_ATTEMPTS,
        forall|i: int| 0 <= i < MAX_ATTEMPTS ==> outcomes[i] == AttemptOutcome::DeadlineElapsed,
    ensures
        spec_run(outcomes, MAX_ATTEMPTS as int) == Err::<ResponsePacket, DeviceError>(
            DeviceError::Timeout,
        ),
        spec_attempts_used(outcomes, MAX_ATTEMPTS as int) == MAX_ATTEMPTS,
{
    reveal_with_fuel(spec_run, 4);
    reveal_with_fuel(spec_attempts_used, 4);
    let r1 = outcomes.subrange(1, outcomes.len() as int);
    let r2 = r1.subrange(1, r1.len() as int);
    assert(outcomes[0] == AttemptOutcome::DeadlineElapsed);
    assert(r1[0] == outcomes[1]);
    assert(r2[0] == r1[1] && r1[1] == outcomes[2]);
    assert(spec_run(r2, 1) == Err::<ResponsePacket, DeviceError>(DeviceError::Timeout));
    assert(spec_attempts_used(r2, 1) == 1);
}

/// A send failure on the first attempt aborts the operation at once with
/// an I/O error: it is never retried.
pub proof fn lemma_send_failure_aborts(outcomes: Seq<AttemptOutcome>)
    requires
        outcomes.len() >= MAX_ATTEMPTS,
        outcomes[0] == AttemptOutcome::SendFailed,
    ensures
        spec_run(outcomes, MAX_ATTEMPTS as int) == Err::<ResponsePacket, DeviceError>(
            DeviceError::Io,
        ),
        spec_attempts_used(outcomes, MAX_ATTEMPTS as int) == 1,
{
}

/// The shared correlation-id generator: a monotonically increasing 64-bit
/// counter, seeded from a random value at startup.  Ignoring 64-bit
/// wraparound (explicitly out of scope), no two issued ids collide,
/// whatever kinds the requests carry.
pub struct IdGenerator {
    next: u64,
}

impl IdGenerator {
    /// The id the next call to [`Self::fresh`] will issue.
    pub closed spec fn current(self) -> u64 {
        self.next
    }

    /// A generator whose first id is `seed`.
    pub fn new(seed: u64) -> (g: Self)
        ensures
            g.current() == seed,
    {
        IdGenerator { next: seed }
    }

    /// Issues the next id and advances the counter, wrapping at the top of
    /// the 64-bit range.
    pub fn fresh(&mut self) -> (id: u64)
        ensures
            id == old(self).current(),
            old(self).current() < u64::MAX ==> final(self).current() == old(self).current() + 1,
            old(self).current() == u64::MAX ==> final(self).current() == 0,
    {
        let id = self.next;
        self.next = self.next.wrapping_add(1);
        id
    }
}

} // verus!
