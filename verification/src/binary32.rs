use vstd::prelude::*;
use vstd::arithmetic::power2::{pow2, lemma2_to64};

verus! {

/// What a single-precision bit pattern stands for. The magnitude of a finite
/// value is counted in units of 2^-149, the spacing of the smallest
/// subnormals, so that every finite value is a whole number of units.
pub enum FloatValue {
    Nan,
    Infinite { negative: bool },
    Finite { negative: bool, units: nat },
}

/// A single-precision number held as its IEEE 754 bit pattern.
#[derive(Clone, Copy, Debug, PartialEq, Eq, Structural)]
pub struct Binary32 {
    pub bits: u32,
}

/// Whether the sign bit of a pattern is set.
pub open spec fn sign_of(bits: u32) -> bool {
    bits >= 0x8000_0000
}

/// The eight-bit exponent field of a pattern.
pub open spec fn exponent_of(bits: u32) -> nat {
    ((bits / 0x80_0000) % 256) as nat
}

/// The twenty-three-bit fraction field of a pattern.
pub open spec fn fraction_of(bits: u32) -> nat {
    (bits % 0x80_0000) as nat
}

/// The value that a bit pattern stands for.
pub open spec fn value_of_bits(bits: u32) -> FloatValue {
    let exponent = exponent_of(bits);
    let fraction = fraction_of(bits);
    if exponent == 255 {
        if fraction == 0 {
            FloatValue::Infinite { negative: sign_of(bits) }
        } else {
            FloatValue::Nan
        }
    } else if exponent == 0 {
        FloatValue::Finite { negative: sign_of(bits), units: fraction }
    } else {
        FloatValue::Finite {
            negative: sign_of(bits),
            units: (0x80_0000 + fraction) * pow2((exponent - 1) as nat),
        }
    }
}

impl View for Binary32 {
    type V = FloatValue;

    open spec fn view(&self) -> FloatValue {
        value_of_bits(self.bits)
    }
}

/// The kind of value that a pattern stands for.
#[derive(Clone, Copy, Debug, PartialEq, Eq, Structural)]
pub enum Class {
    Nan,
    Infinite,
    Finite,
}

/// A bit pattern taken apart: for a finite value the magnitude is
/// `significand * 2^shift` units.
#[derive(Clone, Copy, Debug)]
pub struct Decoded {
    pub class: Class,
    pub negative: bool,
    pub significand: u64,
    pub shift: u32,
}

impl Decoded {
    /// The value that the parts stand for.
    pub open spec fn value(self) -> FloatValue {
        match self.class {
            Class::Nan => FloatValue::Nan,
            Class::Infinite => FloatValue::Infinite { negative: self.negative },
            Class::Finite => FloatValue::Finite {
                negative: self.negative,
                units: self.significand as nat * pow2(self.shift as nat),
            },
        }
    }

    /// The parts are in the one form that `decode` produces: a significand of
    /// at most 24 bits that has all 24 whenever the shift is not zero.
    pub open spec fn canonical(self) -> bool {
        &&& self.significand < 0x100_0000
        &&& self.shift <= 253
        &&& self.shift > 0 ==> self.significand >= 0x80_0000
        &&& self.class != Class::Finite ==> self.significand == 0 && self.shift == 0
    }
}

impl Binary32 {
    /// Takes the pattern apart into sign, significand and shift.
    pub fn decode(self) -> (parts: Decoded)
        ensures
            parts.value() == self@,
            parts.canonical(),
    {
        let negative = self.bits >= 0x8000_0000;
        let exponent: u32 = (self.bits / 0x80_0000) % 256;
        let fraction: u32 = self.bits % 0x80_0000;
        proof {
            lemma2_to64();
        }
        if exponent == 255 {
            if fraction == 0 {
                Decoded { class: Class::Infinite, negative, significand: 0, shift: 0 }
            } else {
                Decoded { class: Class::Nan, negative, significand: 0, shift: 0 }
            }
        } else if exponent == 0 {
            assert(fraction as nat * pow2(0) == fraction) by (nonlinear_arith)
                requires
                    pow2(0) == 1,
            ;
            Decoded { class: Class::Finite, negative, significand: fraction as u64, shift: 0 }
        } else {
            Decoded {
                class: Class::Finite,
                negative,
                significand: (0x80_0000 + fraction) as u64,
                shift: exponent - 1,
            }
        }
    }
}

impl Binary32 {
    /// A quiet not-a-number.
    pub fn nan() -> (r: Binary32)
        ensures
            r@ == FloatValue::Nan,
    {
        Binary32 { bits: 0x7fc0_0000 }
    }

    /// Infinity of the given sign.
    pub fn infinity(negative: bool) -> (r: Binary32)
        ensures
            r@ == (FloatValue::Infinite { negative }),
    {
        if negative {
            Binary32 { bits: 0xff80_0000 }
        } else {
            Binary32 { bits: 0x7f80_0000 }
        }
    }

    /// Zero of the given sign.
    pub fn zero(negative: bool) -> (r: Binary32)
        ensures
            r@ == (FloatValue::Finite { negative, units: 0 }),
    {
        if negative {
            Binary32 { bits: 0x8000_0000 }
        } else {
            Binary32 { bits: 0 }
        }
    }

    /// Puts a finite value together from its sign, significand and shift.
    pub fn from_parts(negative: bool, significand: u32, shift: u32) -> (r: Binary32)
        requires
            significand < 0x100_0000,
            shift <= 253,
            shift > 0 ==> significand >= 0x80_0000,
        ensures
            r@ == (FloatValue::Finite {
                negative,
                units: significand as nat * pow2(shift as nat),
            }),
    {
        let sign: u32 = if negative { 0x8000_0000 } else { 0 };
        if significand < 0x80_0000 {
            proof {
                lemma2_to64();
                assert(significand as nat * pow2(0) == significand) by (nonlinear_arith)
                    requires
                        pow2(0) == 1,
                ;
            }
            Binary32 { bits: sign + significand }
        } else {
            let bits: u32 = sign + (shift + 1) * 0x80_0000 + (significand - 0x80_0000);
            assert(exponent_of(bits) == shift + 1);
            assert(fraction_of(bits) == significand - 0x80_0000);
            Binary32 { bits }
        }
    }
}

} // verus!
