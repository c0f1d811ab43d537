use vstd::prelude::*;

verus! {

/// One real file mapped into a process's address space, its segments
/// collapsed into one entry with their sizes summed.
#[derive(Debug, Clone, PartialEq)]
pub struct MappedFile {
    pub path: String,
    pub size_bytes: u64,
}

} // verus!
