//! The ways in which a request to the models can fail.

use vstd::prelude::*;

verus! {

/// Why a model refused its input.
#[derive(Debug, Clone, Copy, PartialEq, Eq, Structural)]
pub enum ModelError {
    /// A prediction was asked for an empty prefix.
    InvalidInput,
    /// A saved record is malformed.
    FormatError,
}

} // verus!
