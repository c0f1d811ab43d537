use vstd::prelude::*;

verus! {

/// Security-relevant identity and privilege state of a process.
#[derive(Debug, Clone, PartialEq)]
pub struct SecurityContext {
    pub uid: u32,
    pub gid: u32,
    pub euid: u32,
    pub egid: u32,
    /// Effective capability set, decoded to capability names.
    pub capabilities_effective: Vec<String>,
    /// Bounding capability set, decoded the same way.
    pub capabilities_bounding: Vec<String>,
    /// Best-effort LSM label, `None` when no LSM is active.
    pub lsm_label: Option<String>,
    /// 0 = disabled, 1 = strict, 2 = filter.
    pub seccomp_mode: u8,
}

} // verus!
