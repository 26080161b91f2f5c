//! The ways in which a request can fail.

use vstd::prelude::*;

verus! {

/// Why a function of this library returned no result.
#[derive(Clone, Copy, Debug, PartialEq, Eq, Structural)]
pub enum PrimeError {
    /// The argument lies outside the domain of the function, such as an index or a number
    /// to factorize of zero.
    InvalidArgument,
    /// The result does not fit the machine's unsigned integer.
    Overflow,
}

} // verus!
