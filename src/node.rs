//! What a node of the virtual file tree carries, and the errors of the tree.
use vstd::prelude::*;

verus! {

/// The kind of a file, as a no-follow stat reports it.
#[derive(Clone, Copy, Debug, PartialEq, Eq, Structural)]
pub enum FileKind {
    Directory,
    RegularFile,
    Symlink,
    BlockDevice,
    CharDevice,
    NamedPipe,
    Socket,
}

/// A node of the tree: the real path it resolves to (or a path under
/// `<VIRTUAL>` for a purely virtual directory), its kind, and whether it is
/// the root.
pub struct VirtualFileData {
    pub path: Vec<u8>,
    pub kind: FileKind,
    pub is_root: bool,
}

impl VirtualFileData {
    /// This node's real path.
    pub fn real_path(&self) -> (r: &Vec<u8>)
        ensures
            r@ == self.path@,
    {
        &self.path
    }
}

/// Errors of the tree and of the log that replays edits on it.
#[derive(Clone, Copy, Debug, PartialEq, Eq, Structural)]
pub enum FsError {
    /// A path or a handle does not resolve.
    NotFound,
    /// A virtual path lacks a parent segment, or a path lies outside the
    /// directory it must lie in.
    InvalidInput,
    /// The operation needs a single physical inode, which a directory of
    /// the tree does not have.
    NotSupported,
    /// No free directory handle was drawn within the allowed attempts.
    Exhausted,
}

} // verus!
