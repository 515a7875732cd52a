use vstd::prelude::*;

verus! {

/// The errors that the registry reports, and the operating-system errors
/// that pass through it unchanged.
#[derive(Clone, Copy, Debug, PartialEq, Eq, Structural)]
pub enum Error {
    /// The file descriptor (or source) is not registered.
    NotFound,
    /// The file descriptor (or source) is registered already.
    AlreadyExists,
    /// The operation would block; readiness must be awaited.
    WouldBlock,
    /// Any other error, by its operating-system error number.
    Os(i32),
    /// An error without an operating-system error number.
    Other,
}

} // verus!
