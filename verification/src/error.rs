//! The failures that the library reports.

use vstd::prelude::*;

verus! {

/// Why a constructor or a solver gave up.
#[derive(Clone, Copy, Debug, PartialEq, Eq, Structural)]
pub enum Error {
    /// A pivot, or the largest entry of a row, is exactly zero.
    SingularMatrix,
    /// The rows handed to a constructor differ in length.
    MangledMatrix,
}

} // verus!
