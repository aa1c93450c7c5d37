//! How many worker threads the solver pool gets.
use vstd::prelude::*;

verus! {

/// The number of worker threads for a machine with `cpus` logical cores:
/// `requested` when given, otherwise every core but one, and never fewer
/// than one.
pub open spec fn worker_count(requested: Option<usize>, cpus: usize) -> usize {
    match requested {
        Some(n) => n,
        None => if cpus > 1 {
            (cpus - 1) as usize
        } else {
            1
        },
    }
}

/// The number of worker threads: `requested` when given, otherwise one
/// fewer than the `cpus` logical cores, and at least one.
pub fn worker_threads(requested: Option<usize>, cpus: usize) -> (n: usize)
    ensures
        n == worker_count(requested, cpus),
        requested is None ==> n >= 1,
{
    match requested {
        Some(n) => n,
        None => {
            let spare = cpus.saturating_sub(1);
            if spare > 1 {
                spare
            } else {
                1
            }
        },
    }
}

} // verus!
