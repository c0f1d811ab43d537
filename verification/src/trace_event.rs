use vstd::prelude::*;

verus! {

/// One syscall entry from a live deep trace. `at_ns` is relative to the
/// first captured event of the trace.
#[derive(Debug, Clone, PartialEq, Eq)]
pub struct TraceEvent {
    pub at_ns: u64,
    pub syscall: String,
}

} // verus!
