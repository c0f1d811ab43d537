use vstd::prelude::*;

use crate::Pid;

verus! {

/// One structured journald entry.
#[derive(Debug, Clone, PartialEq, Eq)]
pub struct LogEntry {
    /// Microseconds since the Unix epoch.
    pub at_us: i64,
    pub message: String,
    /// Syslog priority (0 = emergency, 7 = debug), when present.
    pub priority: Option<u8>,
    pub pid: Option<Pid>,
    /// `SYSLOG_IDENTIFIER`, e.g. `"systemd"`.
    pub identifier: Option<String>,
}

} // verus!
