//! The decisions of the background sampler: how often it samples, how
//! long persisted history is kept, and when old history is pruned. The
//! sampling, sleeping and persisting themselves belong to the caller.

use vstd::prelude::*;

pub use crate::system::SECS_PER_DAY;

verus! {

/// How often old history is pruned, in seconds.
pub const PRUNE_EVERY_SECS: i64 = 3600;

/// The seconds between sampling ticks: as requested, but at least one.
pub fn tick_interval_secs(requested: u64) -> (s: u64)
    ensures
        s == (if requested >= 1 { requested } else { 1 }),
{
    if requested >= 1 { requested } else { 1 }
}

/// The retention period in days, at least one.
pub open spec fn retention_days(days: u64) -> int {
    if days >= 1 { days as int } else { 1 }
}

/// How long persisted history is kept, in seconds: the requested number of
/// days (at least one) in seconds, as a signed count of seconds.
pub fn retention_secs(days: u64) -> (s: i64)
    requires
        retention_days(days) * SECS_PER_DAY <= u64::MAX,
    ensures
        s == ((retention_days(days) * SECS_PER_DAY) as u64) as i64,
{
    let d: u64 = if days >= 1 { days } else { 1 };
    (d * SECS_PER_DAY) as i64
}

/// When the sampler last pruned old history.
pub struct PruneSchedule {
    pub last_prune: i64,
}

impl PruneSchedule {
    /// A schedule that starts counting at `now`: the first prune comes
    /// `PRUNE_EVERY_SECS` later.
    pub fn new(now: i64) -> (s: Self)
        ensures
            s.last_prune == now,
    {
        PruneSchedule { last_prune: now }
    }

    /// The decision at a tick at `now`: when at least `PRUNE_EVERY_SECS`
    /// have passed since the last prune, prune everything sampled before
    /// `now - retention_secs` (returned) and count from `now`; otherwise
    /// nothing.
    pub fn tick(&mut self, now: i64, retention_secs: i64) -> (cutoff: Option<i64>)
        requires
            i64::MIN <= now - old(self).last_prune <= i64::MAX,
            i64::MIN <= now - retention_secs <= i64::MAX,
        ensures
            now - old(self).last_prune >= PRUNE_EVERY_SECS ==> {
                &&& cutoff == Some((now - retention_secs) as i64)
                &&& final(self).last_prune == now
            },
            now - old(self).last_prune < PRUNE_EVERY_SECS ==> {
                &&& cutoff is None
                &&& final(self).last_prune == old(self).last_prune
            },
    {
        if now - self.last_prune >= PRUNE_EVERY_SECS {
            self.last_prune = now;
            Some(now - retention_secs)
        } else {
            None
        }
    }
}

} // verus!
