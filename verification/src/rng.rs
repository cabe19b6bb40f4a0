//! What a generator offers to the jump and distance computations.

use crate::error::Error;
use crate::matrix::GF2Matrix;
use vstd::prelude::*;

verus! {

/// A generator whose state transition is linear over GF(2).
pub trait RNG: Sized {
    /// The type of step counts and of the state taken as one number.
    type AdvanceInt;

    /// The type of the entries of the transition matrix.
    type MatrixInt;

    /// Advances the state by one step.
    fn next_state(&mut self);

    /// The matrix of the state transition: a state, as a row of bits,
    /// times this matrix is the next state.
    fn matrix() -> GF2Matrix;

    /// Advances the state by `adv` steps, one at a time.
    fn advance(&mut self, adv: Self::AdvanceInt);

    /// Advances the state by `jmp` steps in logarithmic time.
    fn jump(&mut self, jmp: Self::AdvanceInt);

    /// The number of steps from this state to `other`.
    fn distance(&mut self, other: Self) -> Result<Self::AdvanceInt, Error>;

    /// The state as one number.
    fn state(&mut self) -> Self::AdvanceInt;
}

} // verus!
