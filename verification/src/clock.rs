use vstd::prelude::*;

verus! {

/// Nanoseconds in one second. Instants are read from a monotonic clock as nanoseconds
/// since a starting point that the caller picks.
pub const NANOS_PER_SEC: u64 = 1_000_000_000;

/// The time from `then` to `now` in nanoseconds; zero when `then` is not earlier than `now`.
pub open spec fn nanos_between(now: u64, then: u64) -> nat {
    if now >= then {
        (now - then) as nat
    } else {
        0
    }
}

/// The whole seconds from `then` to `now`; zero when `then` is not earlier than `now`.
pub open spec fn secs_between(now: u64, then: u64) -> nat {
    nanos_between(now, then) / (NANOS_PER_SEC as nat)
}

/// The time from `then` to `now` in nanoseconds, saturating at zero.
pub fn elapsed_nanos(now: u64, then: u64) -> (d: u64)
    ensures
        d == nanos_between(now, then),
{
    if now >= then {
        now - then
    } else {
        0
    }
}

/// The whole seconds from `then` to `now`, saturating at zero.
pub fn elapsed_secs(now: u64, then: u64) -> (d: u64)
    ensures
        d == secs_between(now, then),
{
    elapsed_nanos(now, then) / NANOS_PER_SEC
}

} // verus!
