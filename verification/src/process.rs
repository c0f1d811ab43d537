use vstd::prelude::*;

use crate::cgroup::{CgroupInfo, CgroupView};
use crate::cpu::CpuStats;
use crate::memory::MemoryBreakdown;
use crate::Pid;

verus! {

/// Coarse process run-state, mirroring the single-letter codes in
/// `/proc/[pid]/stat` field 3.
#[derive(Debug, Clone, Copy, PartialEq, Eq, Structural)]
pub enum ProcessState {
    Running,
    Sleeping,
    DiskSleep,
    Zombie,
    Stopped,
    TracingStop,
    Dead,
    Idle,
    /// A state code that is not recognized; kept rather than rejected so a
    /// kernel version skew never breaks a snapshot.
    Unknown(char),
}

/// The state that a `/proc/[pid]/stat` state character denotes.
pub open spec fn state_of_char(c: char) -> ProcessState {
    if c == 'R' {
        ProcessState::Running
    } else if c == 'S' {
        ProcessState::Sleeping
    } else if c == 'D' {
        ProcessState::DiskSleep
    } else if c == 'Z' {
        ProcessState::Zombie
    } else if c == 'T' || c == 't' {
        ProcessState::Stopped
    } else if c == 'X' || c == 'x' {
        ProcessState::Dead
    } else if c == 'I' {
        ProcessState::Idle
    } else {
        ProcessState::Unknown(c)
    }
}

impl ProcessState {
    /// Parses a `/proc/[pid]/stat` state character.
    pub fn from_proc_char(c: char) -> (state: Self)
        ensures
            state == state_of_char(c),
    {
        match c {
            'R' => ProcessState::Running,
            'S' => ProcessState::Sleeping,
            'D' => ProcessState::DiskSleep,
            'Z' => ProcessState::Zombie,
            'T' | 't' => ProcessState::Stopped,
            'X' | 'x' => ProcessState::Dead,
            'I' => ProcessState::Idle,
            other => ProcessState::Unknown(other),
        }
    }
}

} // verus!

verus! {

/// A single point-in-time view of one process: what one refresh pass reads
/// cheaply. Thread, file and network detail are read separately, on demand.
#[derive(Debug, PartialEq)]
pub struct ProcessSnapshot {
    pub pid: Pid,
    pub ppid: Pid,
    pub name: String,
    pub cmdline: Vec<String>,
    pub exe: Option<String>,
    pub state: ProcessState,
    pub uid: u32,
    pub gid: u32,
    /// Process start time in clock ticks since boot. Paired with `pid` it
    /// is the history key: the kernel reuses pids but never
    /// `(pid, start_time)`.
    pub start_time: u64,
    pub cpu: CpuStats,
    pub memory: MemoryBreakdown,
    pub thread_count: u32,
    pub open_file_count: u32,
    pub cgroup: Option<CgroupInfo>,
}

/// The value of a `ProcessSnapshot`, with its vectors as sequences.
pub struct SnapshotView {
    pub pid: Pid,
    pub ppid: Pid,
    pub name: String,
    pub cmdline: Seq<String>,
    pub exe: Option<String>,
    pub state: ProcessState,
    pub uid: u32,
    pub gid: u32,
    pub start_time: u64,
    pub cpu: CpuStats,
    pub memory: MemoryBreakdown,
    pub thread_count: u32,
    pub open_file_count: u32,
    pub cgroup: Option<CgroupView>,
}

pub open spec fn cgroup_view(c: Option<CgroupInfo>) -> Option<CgroupView> {
    match c {
        Some(info) => Some(info@),
        None => None,
    }
}

impl View for ProcessSnapshot {
    type V = SnapshotView;

    open spec fn view(&self) -> SnapshotView {
        SnapshotView {
            pid: self.pid,
            ppid: self.ppid,
            name: self.name,
            cmdline: self.cmdline@,
            exe: self.exe,
            state: self.state,
            uid: self.uid,
            gid: self.gid,
            start_time: self.start_time,
            cpu: self.cpu,
            memory: self.memory,
            thread_count: self.thread_count,
            open_file_count: self.open_file_count,
            cgroup: cgroup_view(self.cgroup),
        }
    }
}

impl Clone for ProcessSnapshot {
    fn clone(&self) -> (r: Self)
        ensures
            r@ == self@,
    {
        let cmdline = self.cmdline.clone();
        assert(cmdline@ =~= self.cmdline@);
        let exe = match &self.exe {
            Some(e) => Some(e.clone()),
            None => None,
        };
        let cgroup = match &self.cgroup {
            Some(c) => Some(c.clone()),
            None => None,
        };
        ProcessSnapshot {
            pid: self.pid,
            ppid: self.ppid,
            name: self.name.clone(),
            cmdline,
            exe,
            state: self.state,
            uid: self.uid,
            gid: self.gid,
            start_time: self.start_time,
            cpu: self.cpu,
            memory: self.memory,
            thread_count: self.thread_count,
            open_file_count: self.open_file_count,
            cgroup,
        }
    }
}

} // verus!
