use vstd::prelude::*;

verus! {

/// Memory breakdown for a process, in bytes. The anonymous/file-backed/
/// shared/private split is only known when the kernel offers
/// `smaps_rollup`; otherwise those four fields are zero.
#[derive(Debug, Clone, Copy, PartialEq, Eq, Default, Structural)]
pub struct MemoryBreakdown {
    pub rss: u64,
    pub vsz: u64,
    pub anonymous: u64,
    pub file_backed: u64,
    pub shared: u64,
    pub private: u64,
    pub swap: u64,
}

impl MemoryBreakdown {
    /// True when the detailed split is present, i.e. at least one of its
    /// four fields is non-zero.
    pub fn is_detailed(&self) -> (b: bool)
        ensures
            b == (self.anonymous != 0 || self.file_backed != 0 || self.shared != 0
                || self.private != 0),
    {
        self.anonymous != 0 || self.file_backed != 0 || self.shared != 0 || self.private != 0
    }
}

} // verus!
