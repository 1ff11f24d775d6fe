//! The shutdown signal of the refresh loop: a flag that stays raised once
//! it is raised, beside a wake-up that only reaches who waits at that
//! moment.

use vstd::prelude::*;

verus! {

/// What a timed wait saw.
#[derive(Clone, Copy, Debug, PartialEq, Eq, Structural)]
pub struct WaitObservation {
    /// Whether the flag was raised when the wait began.
    pub raised_before: bool,
    /// Whether the wake-up came during the wait.
    pub woken: bool,
    /// Whether the flag was raised when the wait ended.
    pub raised_after: bool,
}

/// Whether a wait that saw `seen` reports shutdown: it does where the flag
/// was raised at either end, or the wake-up came. The flag is read at both
/// ends because a wake-up that comes while nobody waits is lost.
pub open spec fn reports_shutdown(seen: WaitObservation) -> bool {
    seen.raised_before || seen.woken || seen.raised_after
}

/// Whether the wait sleeps at all: it does not where the flag is raised
/// already.
pub fn must_sleep(raised_before: bool) -> (sleep: bool)
    ensures
        sleep == !raised_before,
{
    !raised_before
}

/// Whether a wait that saw `seen` reports shutdown.
pub fn wait_outcome(seen: WaitObservation) -> (shutdown: bool)
    ensures
        shutdown == reports_shutdown(seen),
{
    seen.raised_before || seen.woken || seen.raised_after
}

/// Once the flag is raised, every wait reports shutdown, whether a wake-up
/// reaches it or not.
pub proof fn lemma_no_missed_wakeup(seen: WaitObservation)
    requires
        seen.raised_before,
    ensures
        reports_shutdown(seen),
{
}

} // verus!
