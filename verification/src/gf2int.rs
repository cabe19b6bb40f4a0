//! The two-element field GF(2).

use crate::error::Error;
use vstd::prelude::*;

verus! {

/// An element of GF(2), held in the low bit of a byte.
#[derive(Clone, Copy, Debug, PartialEq, Eq, Structural)]
pub struct GF2Int {
    pub val: u8,
}

impl GF2Int {
    /// The element is one of the two canonical values.
    pub open spec fn wf(self) -> bool {
        self.val == 0 || self.val == 1
    }

    /// The element as a truth value: the parity of the byte, so `true`
    /// for one.
    pub open spec fn bit(self) -> bool {
        self.val % 2 == 1
    }

    /// The element as a truth value.
    pub fn is_set(self) -> (r: bool)
        ensures
            r == self.bit(),
    {
        self.val % 2 == 1
    }

    /// The element that stands for a truth value.
    pub fn from_bool(b: bool) -> (r: GF2Int)
        ensures
            r.wf(),
            r.bit() == b,
            r.val == (if b { 1u8 } else { 0u8 }),
    {
        if b {
            GF2Int { val: 1 }
        } else {
            GF2Int { val: 0 }
        }
    }

    /// Reduces a byte to its parity.
    pub fn new(val: u8) -> (r: GF2Int)
        ensures
            r.val == val % 2,
            r.val == val & 1,
            r.wf(),
            r.bit() == (val % 2 == 1),
    {
        assert(val & 1 == val % 2) by (bit_vector);
        GF2Int { val: val & 1 }
    }

    /// The additive identity.
    pub fn zero() -> (r: GF2Int)
        ensures
            r.val == 0,
    {
        GF2Int { val: 0 }
    }

    /// The multiplicative identity.
    pub fn one() -> (r: GF2Int)
        ensures
            r.val == 1,
    {
        GF2Int { val: 1 }
    }

    /// Tells whether the byte is zero.
    pub fn is_zero(&self) -> (r: bool)
        ensures
            r == (self.val == 0),
    {
        self.val == 0
    }

    /// Tells whether the byte is one.
    pub fn is_one(&self) -> (r: bool)
        ensures
            r == (self.val == 1),
    {
        self.val == 1
    }

    /// Addition in GF(2) is exclusive or.
    pub fn add(self, other: GF2Int) -> (r: GF2Int)
        ensures
            r.val == self.val ^ other.val,
            r.bit() == (self.bit() != other.bit()),
            self.wf() && other.wf() ==> r.wf(),
    {
        let a: u8 = self.val;
        let b: u8 = other.val;
        assert((a == 0 || a == 1) && (b == 0 || b == 1) ==> (a ^ b == 0 || a ^ b == 1))
            by (bit_vector);
        assert(((a ^ b) % 2 == 1) == ((a % 2 == 1) != (b % 2 == 1))) by (bit_vector);
        GF2Int { val: a ^ b }
    }

    /// Subtraction in GF(2) coincides with addition.
    pub fn sub(self, other: GF2Int) -> (r: GF2Int)
        ensures
            r.val == self.val ^ other.val,
            r.bit() == (self.bit() != other.bit()),
            self.wf() && other.wf() ==> r.wf(),
    {
        self.add(other)
    }

    /// Division, which GF(2) does not offer: every call is refused.
    pub fn div(self, other: GF2Int) -> (r: Result<GF2Int, Error>)
        ensures
            r == Err::<GF2Int, Error>(Error::DivisionUndefined),
    {
        Err(Error::DivisionUndefined)
    }

    /// Multiplication in GF(2) is conjunction.
    pub fn mul(self, other: GF2Int) -> (r: GF2Int)
        ensures
            r.val == self.val & other.val,
            r.bit() == (self.bit() && other.bit()),
            self.wf() && other.wf() ==> r.wf(),
    {
        let a: u8 = self.val;
        let b: u8 = other.val;
        assert((a == 0 || a == 1) && (b == 0 || b == 1) ==> (a & b == 0 || a & b == 1))
            by (bit_vector);
        assert(((a & b) % 2 == 1) == ((a % 2 == 1) && (b % 2 == 1))) by (bit_vector);
        GF2Int { val: a & b }
    }
}

} // verus!
