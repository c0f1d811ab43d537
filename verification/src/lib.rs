//! Process-explorer core: the data model of a Linux process table, the
//! process tree and its family rollups, the tick-by-tick intelligence that
//! tracks history and lifecycle events, and the rule-based investigation
//! engine that turns them into evidence-backed findings.

use vstd::prelude::*;

pub mod cgroup;
pub mod chronology;
pub mod container;
pub mod control;
pub mod cpu;
pub mod environment;
pub mod evidence;
pub mod fd_limits;
pub mod inspection;
pub mod files;
pub mod intelligence;
pub mod investigation;
pub mod io;
pub mod log_entry;
pub mod mapped_file;
pub mod memory;
pub mod namespace;
pub mod network;
pub mod panels;
pub mod process;
pub mod process_control;
pub mod sampler;
pub mod scheduler;
pub mod security;
pub mod seqs;
pub mod system;
pub mod text;
pub mod thread;
pub mod timeline;
pub mod trace_event;
pub mod tree;
pub mod treeview;

verus! {

/// Linux process/thread identifier, the kernel's `pid_t`.
pub type Pid = i32;

} // verus!
