//! The wall clock that bounds the schedule search.

use vstd::prelude::*;
use std::time::{Duration, Instant};

verus! {

/// `std::time::Instant`, carried through the search as an opaque value.
#[verifier::external_type_specification]
#[verifier::external_body]
pub struct ExInstant(Instant);

/// Trusted: calls `Instant::now`, which reads the monotonic clock. Nothing is
/// stated of the result: it depends on the time of the call.
#[verifier::external_body]
pub(crate) fn start_clock() -> Instant {
    Instant::now()
}

/// Trusted: calls `Instant::elapsed`, the time passed since `start`. Nothing
/// is stated of the result: it depends on the time of the call.
#[verifier::external_body]
pub(crate) fn elapsed_since(start: &Instant) -> Duration {
    start.elapsed()
}

/// The most nanoseconds a `Duration` holds: `u64::MAX` whole seconds and
/// 999,999,999 nanoseconds.
pub const DURATION_MAX_NANOS: u128 = 18446744073709551615999999999;

/// Trusted: calls `Duration::as_nanos`, the whole nanoseconds of `d`. A
/// `Duration` holds a `u64` count of whole seconds (`as_secs`) and a fraction
/// below one second (`subsec_nanos`, documented to be under one billion), so
/// the result is at most `DURATION_MAX_NANOS`. Nothing more is stated: a
/// `Duration` is opaque here.
#[verifier::external_body]
pub(crate) fn whole_nanos(d: &Duration) -> (n: u128)
    ensures
        n <= DURATION_MAX_NANOS,
{
    d.as_nanos()
}

/// Whether at least `budget_nanos` nanoseconds have passed since `start`.
/// What the clock reads is not known here; a budget of zero has always passed,
/// and a budget beyond what a `Duration` can hold never passes.
pub(crate) fn deadline_passed(start: &Instant, budget_nanos: u128) -> (passed: bool)
    ensures
        budget_nanos == 0 ==> passed,
        budget_nanos > DURATION_MAX_NANOS ==> !passed,
{
    let d = elapsed_since(start);
    whole_nanos(&d) >= budget_nanos
}

/// The deadline of a search: a start, a budget, and whether the budget has
/// been seen used up. Once seen used up it stays so, and the clock is not
/// read again. It also counts the checks that found time left.
pub struct Deadline {
    start: Instant,
    budget_nanos: u128,
    passed: bool,
    time_left_answers: Ghost<nat>,
}

impl Deadline {
    /// The budget, in nanoseconds.
    pub closed spec fn budget(&self) -> u128 {
        self.budget_nanos
    }

    /// Whether a check has found the budget used up.
    pub closed spec fn is_passed(&self) -> bool {
        self.passed
    }

    /// How many checks have found time left.
    pub closed spec fn time_left_count(&self) -> nat {
        self.time_left_answers@
    }

    /// A budget beyond what a `Duration` holds is never used up.
    pub open spec fn wf(&self) -> bool {
        self.budget() > DURATION_MAX_NANOS ==> !self.is_passed()
    }

    /// Starts the clock with a budget of `budget_nanos` nanoseconds.
    pub fn start(budget_nanos: u128) -> (d: Deadline)
        ensures
            d.wf(),
            d.budget() == budget_nanos,
            !d.is_passed(),
            d.time_left_count() == 0,
    {
        Deadline {
            start: start_clock(),
            budget_nanos,
            passed: false,
            time_left_answers: Ghost(0),
        }
    }

    /// Whether the budget is used up. Once it has been found so, the answer
    /// stays so without reading the clock; a budget of zero is used up at the
    /// first check.
    pub fn check(&mut self) -> (passed: bool)
        requires
            old(self).wf(),
        ensures
            final(self).wf(),
            final(self).budget() == old(self).budget(),
            passed == final(self).is_passed(),
            old(self).is_passed() ==> passed && final(self).time_left_count() == old(
                self,
            ).time_left_count(),
            !old(self).is_passed() && passed ==> final(self).time_left_count() == old(
                self,
            ).time_left_count(),
            !old(self).is_passed() && !passed ==> final(self).time_left_count() == old(
                self,
            ).time_left_count() + 1,
            old(self).budget() == 0 ==> passed,
    {
        if self.passed {
            return true;
        }
        if deadline_passed(&self.start, self.budget_nanos) {
            self.passed = true;
            true
        } else {
            proof {
                self.time_left_answers = Ghost(self.time_left_answers@ + 1);
            }
            false
        }
    }
}

} // verus!
