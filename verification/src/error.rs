//! The failures that the library reports.

use vstd::prelude::*;

verus! {

/// Why an expression could not be read or a product could not be formed.
#[derive(Clone, Copy, Debug, PartialEq, Eq, Structural)]
pub enum QuaternionError {
    /// The numeric text of a monomial is not a number.
    MalformedNumericLiteral,
    /// A product was asked of no quaternions at all.
    EmptyProductInput,
}

} // verus!
