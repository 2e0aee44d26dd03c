use vstd::prelude::*;

verus! {

/// The two ways in which an operation on a reference string can fail.
#[derive(Clone, Copy, Debug, PartialEq, Eq, Structural)]
pub enum SrsError {
    /// The file could not be opened for the requested operation.
    IoError,
    /// An argument is structurally invalid for the operation: a depth that
    /// is not positive, or a domain size with no evaluation domain.
    ConfigError,
}

} // verus!
