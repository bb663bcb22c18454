//! How many workers a burn is given by default.

use vstd::prelude::*;

verus! {

/// The workers for a machine of `cores` logical cores: half of the cores,
/// and one worker where there are no more than two cores.
pub open spec fn worker_count_spec(cores: int) -> int {
    if cores > 2 {
        cores / 2
    } else {
        1
    }
}

/// The workers for a machine of `cores` logical cores: half of the cores,
/// and one worker where there are no more than two cores.
pub fn worker_count(cores: usize) -> (workers: usize)
    ensures
        workers == worker_count_spec(cores as int),
        workers >= 1,
{
    if cores > 2 {
        cores / 2
    } else {
        1
    }
}

/// The number of logical cores of this machine, as `num_cpus::get` reports
/// it. Nothing is claimed of the number: it depends on the machine and on
/// the limits that the process runs under.
#[verifier::external_body]
fn available_cores() -> usize {
    num_cpus::get()
}

/// The workers that a burn is given on this machine: `worker_count` of the
/// cores that the machine reports. Whatever it reports, there is one worker
/// at least.
pub fn default_workers() -> (workers: usize)
    ensures
        workers >= 1,
        exists|cores: int| 0 <= cores && workers == #[trigger] worker_count_spec(cores),
{
    let cores = available_cores();
    let workers = worker_count(cores);
    assert(workers == worker_count_spec(cores as int));
    workers
}

} // verus!
