use vstd::prelude::*;

verus! {

/// CPU accounting for a process or thread.
///
/// The utilization over the last refresh interval is not something a single
/// `/proc` read can give: it is computed by `ProcessIntelligence` from the
/// tick delta between two snapshots, and held here in fixed point, in
/// hundredths of a percent (`10000` is one full core).
#[derive(Debug, Clone, Copy, PartialEq, Eq, Default, Structural)]
pub struct CpuStats {
    pub utime_ticks: u64,
    pub stime_ticks: u64,
    pub percent_centi: u64,
    pub voluntary_ctxt_switches: u64,
    pub nonvoluntary_ctxt_switches: u64,
}

impl CpuStats {
    /// Ticks (user + system) accumulated since process start, as an integer.
    pub open spec fn spec_total_ticks(&self) -> int {
        self.utime_ticks + self.stime_ticks
    }

    /// Total ticks (user + system) this snapshot has accumulated since
    /// process start.
    pub fn total_ticks(&self) -> (t: u64)
        requires
            self.spec_total_ticks() <= u64::MAX,
        ensures
            t == self.spec_total_ticks(),
    {
        self.utime_ticks + self.stime_ticks
    }
}

} // verus!
