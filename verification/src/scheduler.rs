use vstd::prelude::*;

verus! {

/// Scheduler accounting from `/proc/[pid]/schedstat`: time on a CPU, time
/// runnable but waiting for one, and the number of timeslices.
#[derive(Debug, Clone, Copy, PartialEq, Eq, Default, Structural)]
pub struct SchedulerStats {
    pub on_cpu_ns: u64,
    pub wait_ns: u64,
    pub timeslices: u64,
}

} // verus!
