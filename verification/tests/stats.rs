use ironphysics::threads::worker_threads;
use ironphysics::stats::{timed, StepStats};

#[test]
fn step_stats_reset_zeroes_everything() {
    let mut s = StepStats::default();
    s.bodies_active = 3;
    s.contacts_total = 9;
    s.time_total_us = 1234;
    s.time_solve_us = 5;
    s.reset();
    assert_eq!(s.bodies_active, 0);
    assert_eq!(s.contacts_total, 0);
    assert_eq!(s.time_total_us, 0);
    assert_eq!(s.time_solve_us, 0);
    assert_eq!(s.islands_sleeping, 0);
}

#[test]
fn timed_returns_the_closure_result() {
    let mut slot = u64::MAX;
    let r = timed(&mut slot, || 6 * 7);
    assert_eq!(r, 42);
    assert!(slot < 60_000_000);
}

#[test]
fn worker_threads_leave_one_core_free() {
    assert_eq!(worker_threads(Some(3), 16), 3);
    assert_eq!(worker_threads(None, 8), 7);
    assert_eq!(worker_threads(None, 2), 1);
    assert_eq!(worker_threads(None, 1), 1);
    assert_eq!(worker_threads(None, 0), 1);
}
