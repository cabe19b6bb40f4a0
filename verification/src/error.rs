//! The ways in which a computation of this crate can fail.

use vstd::prelude::*;

verus! {

/// A failure that ends a computation.
#[derive(Debug, Clone, Copy, PartialEq, Eq, Structural)]
pub enum Error {
    /// Division was asked of GF(2), which has none.
    DivisionUndefined,
    /// The matrix to invert was found to be singular.
    SingularMatrix,
    /// The giant steps ran out before any of them met a baby step.
    RemainderNotFound,
    /// The moduli of a system of congruences are zero, too large, or
    /// share a factor.
    BadModuli,
}

} // verus!
