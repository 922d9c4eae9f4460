//! Mounts that cannot be made, and why.

use vstd::prelude::*;

verus! {

/// The mount primitive that a failure belongs to.
#[derive(Debug, Clone, Copy, PartialEq, Eq, Structural)]
pub enum MountOp {
    Union,
    Bind,
    Tmpfs,
}

/// Why a mount could not be made.
#[derive(Debug, Clone, Copy, PartialEq, Eq, Structural)]
pub enum MountCause {
    /// The layers do not fit one mount call, and layers that are written to
    /// cannot be mounted in stages.
    StagedReadWrite,
    /// An argument holds a NUL character.
    InteriorNul,
    /// The system refused the mount.
    SystemCall,
}

/// A failed mount: which primitive, at which path, and why.
#[derive(Debug, Clone)]
pub struct MountError {
    pub op: MountOp,
    pub path: String,
    pub cause: MountCause,
}

} // verus!
