use vstd::prelude::*;

verus! {

/// System-wide memory totals, in bytes.
#[derive(Debug, Clone, Copy, Default, PartialEq, Eq, Structural)]
pub struct SystemMemory {
    pub total: u64,
    pub free: u64,
    /// The kernel's estimate of memory available without swapping.
    pub available: u64,
    pub buffers: u64,
    pub cached: u64,
    pub swap_total: u64,
    pub swap_free: u64,
}

impl SystemMemory {
    /// Memory in use: `total - free`, or zero when `free` exceeds `total`.
    pub fn used(&self) -> (u: u64)
        ensures
            u == (if self.total >= self.free { self.total - self.free } else { 0 }),
    {
        self.total.saturating_sub(self.free)
    }

    /// Swap in use: `swap_total - swap_free`, or zero when `swap_free`
    /// exceeds `swap_total`.
    pub fn swap_used(&self) -> (u: u64)
        ensures
            u == (if self.swap_total >= self.swap_free {
                self.swap_total - self.swap_free
            } else {
                0
            }),
    {
        self.swap_total.saturating_sub(self.swap_free)
    }
}

/// Seconds per day, hour and minute.
pub const SECS_PER_DAY: u64 = 86_400;
pub const SECS_PER_HOUR: u64 = 3_600;
pub const SECS_PER_MINUTE: u64 = 60;

/// An uptime as whole days, the hours past the last whole day and the
/// minutes past the last whole hour.
pub fn uptime_breakdown(uptime_secs: u64) -> (r: (u64, u64, u64))
    ensures
        r.0 == uptime_secs / SECS_PER_DAY,
        r.1 == (uptime_secs % SECS_PER_DAY) / SECS_PER_HOUR,
        r.2 == (uptime_secs % SECS_PER_HOUR) / SECS_PER_MINUTE,
        r.0 * SECS_PER_DAY + r.1 * SECS_PER_HOUR + r.2 * SECS_PER_MINUTE <= uptime_secs,
        uptime_secs < r.0 * SECS_PER_DAY + r.1 * SECS_PER_HOUR + r.2 * SECS_PER_MINUTE + SECS_PER_MINUTE,
{
    let days = uptime_secs / SECS_PER_DAY;
    let hours = (uptime_secs % SECS_PER_DAY) / SECS_PER_HOUR;
    let minutes = (uptime_secs % SECS_PER_HOUR) / SECS_PER_MINUTE;
    proof {
        let u = uptime_secs as int;
        assert(u == (u / 86400) * 86400 + u % 86400) by (nonlinear_arith);
        assert(u % 86400 == ((u % 86400) / 3600) * 3600 + (u % 86400) % 3600) by (nonlinear_arith);
        assert((u % 86400) % 3600 == u % 3600) by (nonlinear_arith);
        assert(u % 3600 == ((u % 3600) / 60) * 60 + (u % 3600) % 60) by (nonlinear_arith);
        assert(0 <= (u % 3600) % 60 < 60) by (nonlinear_arith);
    }
    (days, hours, minutes)
}

} // verus!
