use vstd::prelude::*;

use crate::cpu::CpuStats;
use crate::process::ProcessState;
use crate::Pid;

verus! {

/// A single thread (task) within a process.
#[derive(Debug, Clone, PartialEq)]
pub struct ThreadSnapshot {
    pub tid: Pid,
    pub name: String,
    pub state: ProcessState,
    pub cpu: CpuStats,
    pub priority: i32,
    pub nice: i32,
    /// CPU indices this thread may run on, empty if not queried.
    pub affinity: Vec<u32>,
}

} // verus!
