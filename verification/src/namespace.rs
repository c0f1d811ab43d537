use vstd::prelude::*;

use crate::Pid;

verus! {

/// Namespace membership of a process, as inode numbers of
/// `/proc/[pid]/ns/*`. `cgroup` is `None` without cgroup-namespace support.
#[derive(Debug, Clone, Copy, PartialEq, Eq, Structural)]
pub struct NamespaceInfo {
    pub pid: Pid,
    pub mnt: u64,
    pub net: u64,
    pub user: u64,
    pub uts: u64,
    pub ipc: u64,
    pub cgroup: Option<u64>,
}

} // verus!
