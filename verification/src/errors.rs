//! What can go wrong when a log is turned into bytes or read from them.
use vstd::prelude::*;

verus! {

/// The failures that the library reports.
#[derive(Clone, Copy, Debug, PartialEq, Eq, Structural)]
pub enum DiskStructError {
    /// Bytes could not be turned into a value, or a value into bytes.
    Serialization,
}

/// What the functions that may fail hand back.
pub type DiskStructResult<T> = Result<T, DiskStructError>;

} // verus!
