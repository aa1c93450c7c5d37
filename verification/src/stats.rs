//! Per-step diagnostics and the timer that fills them.
use vstd::prelude::*;
use std::time::{Duration, Instant};

verus! {

/// Counts and timings collected during one simulation step.
#[derive(Debug, Clone)]
pub struct StepStats {
    /// Dynamic bodies that are awake.
    pub bodies_active: u32,
    /// Dynamic bodies that are asleep.
    pub bodies_sleeping: u32,
    /// Static bodies.
    pub bodies_static: u32,
    /// Candidate pairs after the broadphase.
    pub broadphase_pairs: u32,
    /// Pairs that produced a contact manifold.
    pub narrowphase_hits: u32,
    /// Contact points this step.
    pub contacts_total: u32,
    pub islands_active: u32,
    pub islands_sleeping: u32,
    pub time_integrate_us: u64,
    pub time_broadphase_us: u64,
    pub time_narrowphase_us: u64,
    pub time_island_build_us: u64,
    pub time_solve_us: u64,
    pub time_position_us: u64,
    pub time_sleep_us: u64,
    pub time_total_us: u64,
}

/// Every count and timing is zero.
pub open spec fn all_zero(s: StepStats) -> bool {
    &&& s.bodies_active == 0
    &&& s.bodies_sleeping == 0
    &&& s.bodies_static == 0
    &&& s.broadphase_pairs == 0
    &&& s.narrowphase_hits == 0
    &&& s.contacts_total == 0
    &&& s.islands_active == 0
    &&& s.islands_sleeping == 0
    &&& s.time_integrate_us == 0
    &&& s.time_broadphase_us == 0
    &&& s.time_narrowphase_us == 0
    &&& s.time_island_build_us == 0
    &&& s.time_solve_us == 0
    &&& s.time_position_us == 0
    &&& s.time_sleep_us == 0
    &&& s.time_total_us == 0
}

impl StepStats {
    /// Sets every count and timing back to zero.
    pub fn reset(&mut self)
        ensures
            all_zero(*final(self)),
    {
        *self = StepStats {
            bodies_active: 0,
            bodies_sleeping: 0,
            bodies_static: 0,
            broadphase_pairs: 0,
            narrowphase_hits: 0,
            contacts_total: 0,
            islands_active: 0,
            islands_sleeping: 0,
            time_integrate_us: 0,
            time_broadphase_us: 0,
            time_narrowphase_us: 0,
            time_island_build_us: 0,
            time_solve_us: 0,
            time_position_us: 0,
            time_sleep_us: 0,
            time_total_us: 0,
        }
    }
}

impl Default for StepStats {
    /// All counts and timings zero.
    fn default() -> (s: Self)
        ensures
            all_zero(s),
    {
        StepStats {
            bodies_active: 0,
            bodies_sleeping: 0,
            bodies_static: 0,
            broadphase_pairs: 0,
            narrowphase_hits: 0,
            contacts_total: 0,
            islands_active: 0,
            islands_sleeping: 0,
            time_integrate_us: 0,
            time_broadphase_us: 0,
            time_narrowphase_us: 0,
            time_island_build_us: 0,
            time_solve_us: 0,
            time_position_us: 0,
            time_sleep_us: 0,
            time_total_us: 0,
        }
    }
}

/// `std::time::Instant`, a reading of the monotonic clock.
#[verifier::external_type_specification]
#[verifier::external_body]
pub struct ExInstant(Instant);

/// Calls `std::time::Instant::now`. The reading depends on the clock, so
/// nothing is stated of it.
#[verifier::external_body]
fn clock_now() -> Instant {
    Instant::now()
}

/// Calls `std::time::Instant::elapsed`: the time since `start`, as the clock
/// says; nothing is stated of it.
#[verifier::external_body]
fn clock_elapsed(start: &Instant) -> Duration {
    start.elapsed()
}

/// Calls `std::time::Duration::as_micros`: the whole microseconds of `d`.
/// `Duration` is opaque here, so nothing is stated of the number.
#[verifier::external_body]
fn duration_micros(d: &Duration) -> u128 {
    d.as_micros()
}

/// A count of microseconds truncated to 64 bits.
fn micros_to_u64(us: u128) -> (r: u64)
    ensures
        r == us as u64,
{
    us as u64
}

/// Runs `f`, stores the microseconds it took (truncated to 64 bits) in
/// `*slot`, and returns what `f` returned. The stored time comes from the
/// clock, so nothing is stated of it.
pub fn timed<T, F: FnOnce() -> T>(slot: &mut u64, f: F) -> (r: T)
    requires
        f.requires(()),
    ensures
        f.ensures((), r),
{
    let start = clock_now();
    let result = f();
    let elapsed = clock_elapsed(&start);
    *slot = micros_to_u64(duration_micros(&elapsed));
    result
}

} // verus!
