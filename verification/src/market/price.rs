//! Quoted prices.
//!
//! A price is a single precision binary number. It is held as the 32 bits of
//! its encoding: one sign bit, eight exponent bits, twenty-three fraction
//! bits. Everything the stages need of a price (whether it is a number, and
//! which of two prices is the greater) is read off those bits in integer
//! arithmetic.
use vstd::prelude::*;

verus! {

/// The encoding of a price without its sign bit.
pub const SIGN: u32 = 0x8000_0000;

/// The greatest magnitude that encodes a number: infinity. Greater
/// magnitudes encode no number.
pub const INFINITY: u32 = 0x7f80_0000;

/// A quoted price, as the bits of its single precision encoding.
#[derive(PartialEq, Eq, Clone, Copy, Debug, Structural)]
pub struct Price {
    pub bits: u32,
}

impl Price {
    /// The sign bit is set.
    pub open spec fn negative(self) -> bool {
        self.bits >= SIGN
    }

    /// The encoding without its sign bit.
    pub open spec fn magnitude(self) -> int {
        if self.bits >= SIGN {
            self.bits - SIGN
        } else {
            self.bits as int
        }
    }

    /// The encoding stands for no number.
    pub open spec fn spec_is_nan(&self) -> bool {
        self.magnitude() > INFINITY
    }

    /// The place of a price among all prices that are numbers: a price is
    /// numerically less than another exactly when its rank is less, and
    /// numerically equal exactly when the ranks are equal. Both zeros have
    /// rank 0.
    pub open spec fn rank(self) -> int {
        if self.negative() {
            -self.magnitude()
        } else {
            self.magnitude()
        }
    }

    pub fn from_bits(bits: u32) -> (price: Price)
        ensures
            price.bits == bits,
    {
        Price { bits }
    }

    pub fn to_bits(&self) -> (bits: u32)
        ensures
            bits == self.bits,
    {
        self.bits
    }

    #[verifier::when_used_as_spec(spec_is_nan)]
    pub fn is_nan(&self) -> (nan: bool)
        ensures
            nan == self.spec_is_nan(),
    {
        if self.bits >= SIGN {
            self.bits - SIGN > INFINITY
        } else {
            self.bits > INFINITY
        }
    }

    /// The rank of the price as a machine number.
    pub fn key(&self) -> (key: i64)
        ensures
            key == self.rank(),
    {
        if self.bits >= SIGN {
            -((self.bits - SIGN) as i64)
        } else {
            self.bits as i64
        }
    }
}

} // verus!
