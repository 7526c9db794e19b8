use vstd::prelude::*;

verus! {

/// Why an operation on a node failed.
#[derive(Debug, Clone, Copy, PartialEq, Eq, Structural)]
pub enum ErrorKind {
    /// There is no such node.
    NotFound,
    /// The node was to be listed and is no directory.
    NotADirectory,
    /// The node does not allow the operation.
    PermissionDenied,
}

/// A failed operation: why it failed, and on which node.
#[derive(Debug, Clone, Copy, PartialEq, Eq, Structural)]
pub struct Error {
    pub kind: ErrorKind,
    pub node: usize,
}

} // verus!
