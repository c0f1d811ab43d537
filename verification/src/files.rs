use vstd::prelude::*;

verus! {

/// Classification of a `/proc/[pid]/fd/*` entry, derived from what its
/// symlink target looks like.
#[derive(Debug, Clone, Copy, PartialEq, Eq, Structural)]
pub enum FileKind {
    Regular,
    Directory,
    Socket,
    Pipe,
    CharDevice,
    BlockDevice,
    Unknown,
}

/// One open file descriptor.
#[derive(Debug, Clone, PartialEq)]
pub struct OpenFile {
    pub fd: i32,
    /// The resolved symlink target, e.g. `socket:[12345]`.
    pub path: String,
    pub kind: FileKind,
}

} // verus!
