//! Types for command execution.

use vstd::prelude::*;

pub use crate::expansion::Field;

verus! {

/// Error returned when the status of a process that is still running is
/// asked for its exit status.
#[derive(Clone, Copy, Debug, Default, Eq, Hash, Ord, PartialEq, PartialOrd)]
pub struct StillAliveError;

/// Types of built-in utilities.
#[derive(Clone, Copy, Debug, Eq, PartialEq)]
pub enum Type {
    /// Special built-in: found before functions and external utilities.
    Special,
    /// Intrinsic regular built-in: found regardless of `$PATH`.
    Intrinsic,
    /// Non-intrinsic regular built-in: must be found in `$PATH`.
    NonIntrinsic,
}

} // verus!
