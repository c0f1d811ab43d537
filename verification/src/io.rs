use vstd::prelude::*;

verus! {

/// Cumulative disk I/O accounting for a process (`/proc/[pid]/io`'s
/// `read_bytes`/`write_bytes`).
#[derive(Debug, Clone, Copy, PartialEq, Eq, Default, Structural)]
pub struct DiskIoStats {
    pub read_bytes: u64,
    pub write_bytes: u64,
}

} // verus!
