//! Waiting for the lock of the archive.
use vstd::prelude::*;

verus! {

/// Time between two attempts, in milliseconds.
pub const RETRY_MS: u64 = 50;

/// How long a command waits for the lock, in milliseconds.
pub const LOCK_TIMEOUT_MS: u64 = 5000;

/// What to do after an attempt to take the lock.
#[derive(Clone, Copy, Debug, PartialEq, Eq, Structural)]
pub enum LockStep {
    /// The lock is held.
    Acquired,
    /// Somebody else holds it, and the time is up.
    TimedOut,
    /// Try again after this many milliseconds.
    Retry(u64),
}

/// Decides what to do after an attempt that was made `elapsed_ms` after the
/// first one.
pub fn next_step(locked: bool, elapsed_ms: u64, timeout_ms: u64) -> (r: LockStep)
    ensures
        r == step(locked, elapsed_ms, timeout_ms),
{
    if locked {
        LockStep::Acquired
    } else if elapsed_ms > timeout_ms {
        LockStep::TimedOut
    } else {
        LockStep::Retry(RETRY_MS)
    }
}

/// What `next_step` decides.
pub open spec fn step(locked: bool, elapsed_ms: u64, timeout_ms: u64) -> LockStep {
    if locked {
        LockStep::Acquired
    } else if elapsed_ms > timeout_ms {
        LockStep::TimedOut
    } else {
        LockStep::Retry(RETRY_MS)
    }
}

/// Waiting ends: where every wait takes at least as long as it should, the
/// attempt behind enough waits to outlast the timeout is the last one.
pub proof fn law_waiting_ends(attempt: nat, locked: bool, elapsed_ms: u64, timeout_ms: u64)
    requires
        elapsed_ms >= attempt * RETRY_MS,
        attempt * RETRY_MS > timeout_ms,
    ensures
        step(locked, elapsed_ms, timeout_ms) == LockStep::Acquired || step(
            locked,
            elapsed_ms,
            timeout_ms,
        ) == LockStep::TimedOut,
{
}

} // verus!
