//! An in-memory filesystem core for a small kernel: a directory tree with
//! lookup, creation, removal, paginated enumeration and rename, together with
//! the supporting hash map and early bump allocator used by the same kernel.
//!
//! The directory tree is kept in an arena: nodes are slots of a vector and
//! refer to each other by index, so parent links are plain non-owning values
//! and ownership of a subtree runs strictly downward through the child tables.
use vstd::prelude::*;

pub mod allocator;
pub mod dir;
pub mod hashmap;
pub mod laws;
pub mod mmap;
pub mod name;
pub mod path;

verus! {

/// The errors the filesystem operations report.
#[derive(Clone, Copy, Debug, PartialEq, Eq, Structural)]
pub enum VfsError {
    /// A path component or a rename source does not exist.
    NotFound,
    /// A create or rename target name is already occupied.
    AlreadyExists,
    /// A directory with children cannot be removed.
    DirectoryNotEmpty,
    /// Creation was requested for a node type this subsystem does not produce.
    Unsupported,
    /// A structurally nonsensical request, such as removing `.` or `..`.
    InvalidInput,
}

/// The kinds a tree node can have. Only `File` and `Dir` nodes are ever
/// produced here; the other kinds exist so that a request for them can be
/// refused as unsupported.
#[derive(Clone, Copy, Debug, PartialEq, Eq, Structural)]
pub enum VfsNodeType {
    Fifo,
    CharDevice,
    BlockDevice,
    File,
    Dir,
    SymLink,
    Socket,
}

} // verus!
