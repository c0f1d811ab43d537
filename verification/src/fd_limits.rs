use vstd::prelude::*;

verus! {

/// File-descriptor limits for a process (`RLIMIT_NOFILE`). `None` means
/// unlimited, not an unread value.
#[derive(Debug, Clone, Copy, PartialEq, Eq, Default, Structural)]
pub struct FdLimits {
    pub soft: Option<u64>,
    pub hard: Option<u64>,
}

} // verus!
