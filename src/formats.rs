//! Binary32 and binary64 values, held as their IEEE-754 bit patterns.
use crate::ieee::{approx_eq_fields, approx_eq_of_fields};
use crate::ApproxEq;
use vstd::arithmetic::power2::{lemma2_to64, lemma2_to64_rest};
use vstd::prelude::*;

verus! {

/// A binary32 value: 1 sign bit, 8 exponent bits, 23 fraction bits.
#[derive(Clone, Copy, Debug, PartialEq, Eq, Structural)]
pub struct F32 {
    pub bits: u32,
}

/// A binary64 value: 1 sign bit, 11 exponent bits, 52 fraction bits.
#[derive(Clone, Copy, Debug, PartialEq, Eq, Structural)]
pub struct F64 {
    pub bits: u64,
}

impl F32 {
    pub fn from_bits(bits: u32) -> (r: F32)
        ensures
            r.bits == bits,
    {
        F32 { bits }
    }

    pub fn to_bits(self) -> (r: u32)
        ensures
            r == self.bits,
    {
        self.bits
    }

    pub open spec fn negative(self) -> bool {
        self.bits >= 0x8000_0000
    }

    pub open spec fn exponent_field(self) -> nat {
        ((self.bits / 0x80_0000) % 0x100) as nat
    }

    pub open spec fn fraction_field(self) -> nat {
        (self.bits % 0x80_0000) as nat
    }

    pub open spec fn is_nan(self) -> bool {
        self.exponent_field() == 0xff && self.fraction_field() != 0
    }

    pub open spec fn is_finite(self) -> bool {
        self.exponent_field() != 0xff
    }

    pub open spec fn is_infinite(self) -> bool {
        self.exponent_field() == 0xff && self.fraction_field() == 0
    }

    /// Positive or negative zero.
    pub open spec fn is_zero(self) -> bool {
        self.exponent_field() == 0 && self.fraction_field() == 0
    }
}

impl F64 {
    pub fn from_bits(bits: u64) -> (r: F64)
        ensures
            r.bits == bits,
    {
        F64 { bits }
    }

    pub fn to_bits(self) -> (r: u64)
        ensures
            r == self.bits,
    {
        self.bits
    }

    pub open spec fn negative(self) -> bool {
        self.bits >= 0x8000_0000_0000_0000
    }

    pub open spec fn exponent_field(self) -> nat {
        ((self.bits / 0x10_0000_0000_0000) % 0x800) as nat
    }

    pub open spec fn fraction_field(self) -> nat {
        (self.bits % 0x10_0000_0000_0000) as nat
    }

    pub open spec fn is_nan(self) -> bool {
        self.exponent_field() == 0x7ff && self.fraction_field() != 0
    }

    pub open spec fn is_finite(self) -> bool {
        self.exponent_field() != 0x7ff
    }

    pub open spec fn is_infinite(self) -> bool {
        self.exponent_field() == 0x7ff && self.fraction_field() == 0
    }

    /// Positive or negative zero.
    pub open spec fn is_zero(self) -> bool {
        self.exponent_field() == 0 && self.fraction_field() == 0
    }
}

impl ApproxEq for F32 {
    open spec fn approx_eq_spec(self, other: F32) -> bool {
        approx_eq_fields(
            self.negative(),
            self.exponent_field(),
            self.fraction_field(),
            other.negative(),
            other.exponent_field(),
            other.fraction_field(),
            23,
            0xff,
        )
    }

    fn approx_eq(self, other: F32) -> (r: bool) {
        proof {
            lemma2_to64();
        }
        approx_eq_of_fields(
            self.bits >= 0x8000_0000,
            ((self.bits / 0x80_0000) % 0x100) as u64,
            (self.bits % 0x80_0000) as u64,
            other.bits >= 0x8000_0000,
            ((other.bits / 0x80_0000) % 0x100) as u64,
            (other.bits % 0x80_0000) as u64,
            23,
            0xff,
        )
    }
}

impl ApproxEq for F64 {
    open spec fn approx_eq_spec(self, other: F64) -> bool {
        approx_eq_fields(
            self.negative(),
            self.exponent_field(),
            self.fraction_field(),
            other.negative(),
            other.exponent_field(),
            other.fraction_field(),
            52,
            0x7ff,
        )
    }

    fn approx_eq(self, other: F64) -> (r: bool) {
        proof {
            lemma2_to64_rest();
        }
        approx_eq_of_fields(
            self.bits >= 0x8000_0000_0000_0000,
            (self.bits / 0x10_0000_0000_0000) % 0x800,
            self.bits % 0x10_0000_0000_0000,
            other.bits >= 0x8000_0000_0000_0000,
            (other.bits / 0x10_0000_0000_0000) % 0x800,
            other.bits % 0x10_0000_0000_0000,
            52,
            0x7ff,
        )
    }
}

} // verus!
