use vstd::prelude::*;
use vstd::arithmetic::power2::{pow2, lemma2_to64, lemma_pow2_pos, lemma_pow2_adds};
use crate::binary32::{Binary32, Class, FloatValue};
use vstd::arithmetic::div_mod::{lemma_truncate_middle, lemma_mul_mod_noop_right, lemma_small_mod, lemma_mod_bound};
use crate::binary32::{exponent_of, fraction_of, Decoded};
use crate::power::{lemma_pow2_increases, pow2_u64};
use crate::rounding::{lemma_nearest_units_absorbs, lemma_nearest_units_exact, round_pack, rounded};

verus! {

impl FloatValue {
    /// The whole number `k` as a value.
    pub open spec fn whole(k: nat) -> FloatValue {
        FloatValue::Finite { negative: false, units: k * pow2(149) }
    }

    /// Whether the value is a zero of either sign.
    pub open spec fn is_zero(self) -> bool {
        self matches FloatValue::Finite { units, .. } && units == 0
    }

    /// The value with the opposite sign.
    pub open spec fn negated(self) -> FloatValue {
        match self {
            FloatValue::Nan => FloatValue::Nan,
            FloatValue::Infinite { negative } => FloatValue::Infinite { negative: !negative },
            FloatValue::Finite { negative, units } => FloatValue::Finite {
                negative: !negative,
                units,
            },
        }
    }

    /// The value without its sign.
    pub open spec fn magnitude(self) -> FloatValue {
        match self {
            FloatValue::Nan => FloatValue::Nan,
            FloatValue::Infinite { .. } => FloatValue::Infinite { negative: false },
            FloatValue::Finite { units, .. } => FloatValue::Finite { negative: false, units },
        }
    }

    /// The sum of two values, rounded to nearest, ties to even. A sum that
    /// is exactly zero is negative only where both terms are.
    pub open spec fn sum(self, other: FloatValue) -> FloatValue {
        match (self, other) {
            (FloatValue::Nan, _) => FloatValue::Nan,
            (_, FloatValue::Nan) => FloatValue::Nan,
            (FloatValue::Infinite { negative: a }, FloatValue::Infinite { negative: b }) => {
                if a == b {
                    self
                } else {
                    FloatValue::Nan
                }
            },
            (FloatValue::Infinite { .. }, FloatValue::Finite { .. }) => self,
            (FloatValue::Finite { .. }, FloatValue::Infinite { .. }) => other,
            (
                FloatValue::Finite { negative: a, units: x },
                FloatValue::Finite { negative: b, units: y },
            ) => {
                let total = signed_units(a, x) + signed_units(b, y);
                if total == 0 {
                    FloatValue::Finite { negative: a && b, units: 0 }
                } else if total > 0 {
                    rounded(false, total as nat, 1)
                } else {
                    rounded(true, (-total) as nat, 1)
                }
            },
        }
    }

    /// The difference of two values, rounded to nearest, ties to even.
    pub open spec fn difference(self, other: FloatValue) -> FloatValue {
        self.sum(other.negated())
    }

    /// What is left of `self` after taking away the largest whole multiple
    /// of `other` that is no larger in magnitude; it has the sign of `self`
    /// and is exact.
    pub open spec fn remainder(self, other: FloatValue) -> FloatValue {
        match (self, other) {
            (FloatValue::Nan, _) => FloatValue::Nan,
            (_, FloatValue::Nan) => FloatValue::Nan,
            (FloatValue::Infinite { .. }, _) => FloatValue::Nan,
            (FloatValue::Finite { .. }, FloatValue::Infinite { .. }) => self,
            (
                FloatValue::Finite { negative, units: x },
                FloatValue::Finite { units: y, .. },
            ) => {
                if y == 0 {
                    FloatValue::Nan
                } else {
                    FloatValue::Finite { negative, units: x % y }
                }
            },
        }
    }

    /// The product of two values, rounded to nearest, ties to even.
    pub open spec fn product(self, other: FloatValue) -> FloatValue {
        match (self, other) {
            (FloatValue::Nan, _) => FloatValue::Nan,
            (_, FloatValue::Nan) => FloatValue::Nan,
            (FloatValue::Infinite { negative: a }, FloatValue::Infinite { negative: b }) => {
                FloatValue::Infinite { negative: a != b }
            },
            (FloatValue::Infinite { negative: a }, FloatValue::Finite { negative: b, units }) => {
                if units == 0 {
                    FloatValue::Nan
                } else {
                    FloatValue::Infinite { negative: a != b }
                }
            },
            (FloatValue::Finite { negative: a, units }, FloatValue::Infinite { negative: b }) => {
                if units == 0 {
                    FloatValue::Nan
                } else {
                    FloatValue::Infinite { negative: a != b }
                }
            },
            (
                FloatValue::Finite { negative: a, units: x },
                FloatValue::Finite { negative: b, units: y },
            ) => rounded(a != b, x * y, pow2(149)),
        }
    }

    /// The quotient of two values, rounded to nearest, ties to even.
    pub open spec fn quotient(self, other: FloatValue) -> FloatValue {
        match (self, other) {
            (FloatValue::Nan, _) => FloatValue::Nan,
            (_, FloatValue::Nan) => FloatValue::Nan,
            (FloatValue::Infinite { .. }, FloatValue::Infinite { .. }) => FloatValue::Nan,
            (FloatValue::Infinite { negative: a }, FloatValue::Finite { negative: b, .. }) => {
                FloatValue::Infinite { negative: a != b }
            },
            (FloatValue::Finite { negative: a, .. }, FloatValue::Infinite { negative: b }) => {
                FloatValue::Finite { negative: a != b, units: 0 }
            },
            (
                FloatValue::Finite { negative: a, units: x },
                FloatValue::Finite { negative: b, units: y },
            ) => {
                if y == 0 {
                    if x == 0 {
                        FloatValue::Nan
                    } else {
                        FloatValue::Infinite { negative: a != b }
                    }
                } else {
                    rounded(a != b, x * pow2(149), y)
                }
            },
        }
    }
}

/// A magnitude with its sign, as an integer number of units.
pub open spec fn signed_units(negative: bool, units: nat) -> int {
    if negative {
        -(units as int)
    } else {
        units as int
    }
}

/// A denominator of one needs no scaling.
proof fn lemma_unit_denominator()
    ensures
        1nat * pow2(0) == 1,
{
    lemma2_to64();
    assert(1nat * pow2(0) == 1) by (nonlinear_arith)
        requires
            pow2(0) == 1,
    ;
}

impl Binary32 {
    /// The whole number `k`, which single precision holds exactly.
    pub fn from_u16(k: u16) -> (r: Binary32)
        ensures
            r@ == FloatValue::whole(k as nat),
    {
        proof {
            lemma2_to64();
            lemma_unit_denominator();
            lemma_nearest_units_exact(k as nat, 149);
            lemma_pow2_adds(24, 149);
            lemma_pow2_increases(173, 277);
            lemma_pow2_pos(149);
            assert(k as nat * pow2(149) < pow2(173)) by (nonlinear_arith)
                requires
                    k < 0x100_0000,
                    pow2(173) == 0x100_0000 * pow2(149),
                    pow2(149) > 0,
            ;
        }
        round_pack(false, k as u64, 149, 1, 0)
    }

    /// Multiplies two numbers.
    pub fn mul(self, other: Binary32) -> (r: Binary32)
        ensures
            r@ == self@.product(other@),
    {
        let a = self.decode();
        let b = other.decode();
        let negative = a.negative != b.negative;
        match (a.class, b.class) {
            (Class::Nan, _) => Binary32::nan(),
            (_, Class::Nan) => Binary32::nan(),
            (Class::Infinite, Class::Infinite) => Binary32::infinity(negative),
            (Class::Infinite, Class::Finite) => {
                proof {
                    lemma_pow2_pos(b.shift as nat);
                    assert(b.significand == 0 <==> b.significand as nat * pow2(b.shift as nat) == 0)
                        by (nonlinear_arith)
                        requires
                            pow2(b.shift as nat) > 0,
                    ;
                }
                if b.significand == 0 {
                    Binary32::nan()
                } else {
                    Binary32::infinity(negative)
                }
            },
            (Class::Finite, Class::Infinite) => {
                proof {
                    lemma_pow2_pos(a.shift as nat);
                    assert(a.significand == 0 <==> a.significand as nat * pow2(a.shift as nat) == 0)
                        by (nonlinear_arith)
                        requires
                            pow2(a.shift as nat) > 0,
                    ;
                }
                if a.significand == 0 {
                    Binary32::nan()
                } else {
                    Binary32::infinity(negative)
                }
            },
            (Class::Finite, Class::Finite) => {
                proof {
                    lemma_unit_denominator();
                    lemma_pow2_adds(a.shift as nat, b.shift as nat);
                    let (x, y) = (a.significand as nat, b.significand as nat);
                    let (p, q) = (pow2(a.shift as nat), pow2(b.shift as nat));
                    assert((x * p) * (y * q) == (x * y) * (p * q)) by (nonlinear_arith);
                    assert(x * y < 0x100_0000_0000_0000) by (nonlinear_arith)
                        requires
                            x < 0x100_0000,
                            y < 0x100_0000,
                    ;
                    assert(1nat * pow2(149) == pow2(149)) by (nonlinear_arith);
                }
                round_pack(negative, a.significand * b.significand, a.shift + b.shift, 1, 149)
            },
        }
    }

    /// Divides one number by another.
    pub fn div(self, other: Binary32) -> (r: Binary32)
        ensures
            r@ == self@.quotient(other@),
    {
        let a = self.decode();
        let b = other.decode();
        let negative = a.negative != b.negative;
        match (a.class, b.class) {
            (Class::Nan, _) => Binary32::nan(),
            (_, Class::Nan) => Binary32::nan(),
            (Class::Infinite, Class::Infinite) => Binary32::nan(),
            (Class::Infinite, Class::Finite) => Binary32::infinity(negative),
            (Class::Finite, Class::Infinite) => Binary32::zero(negative),
            (Class::Finite, Class::Finite) => {
                proof {
                    lemma_pow2_pos(a.shift as nat);
                    lemma_pow2_pos(b.shift as nat);
                    assert(a.significand == 0 <==> a.significand as nat * pow2(a.shift as nat) == 0)
                        by (nonlinear_arith)
                        requires
                            pow2(a.shift as nat) > 0,
                    ;
                    assert(b.significand == 0 <==> b.significand as nat * pow2(b.shift as nat) == 0)
                        by (nonlinear_arith)
                        requires
                            pow2(b.shift as nat) > 0,
                    ;
                }
                if b.significand == 0 {
                    if a.significand == 0 {
                        Binary32::nan()
                    } else {
                        Binary32::infinity(negative)
                    }
                } else {
                    proof {
                        lemma_pow2_adds(a.shift as nat, 149);
                        let x = a.significand as nat;
                        let p = pow2(a.shift as nat);
                        assert((x * p) * pow2(149) == x * (p * pow2(149))) by (nonlinear_arith);
                    }
                    round_pack(negative, a.significand, a.shift + 149, b.significand, b.shift)
                }
            },
        }
    }
}

/// The exponent and the fraction of a pattern are those of the pattern
/// without its sign bit.
proof fn lemma_sign_apart(bits: u32)
    ensures
        exponent_of(bits) == (bits % 0x8000_0000) / 0x80_0000,
        fraction_of(bits) == (bits % 0x8000_0000) % 0x80_0000,
{
    assert((bits / 0x80_0000) % 256 == (bits % 0x8000_0000) / 0x80_0000) by (bit_vector);
    assert(bits % 0x80_0000 == (bits % 0x8000_0000) % 0x80_0000) by (bit_vector);
}

/// A finite pattern is below the overflow threshold.
proof fn lemma_decoded_in_range(parts: Decoded)
    requires
        parts.canonical(),
    ensures
        parts.significand as nat * pow2(parts.shift as nat) < pow2(277),
{
    lemma2_to64();
    lemma_pow2_increases(parts.shift as nat, 253);
    lemma_pow2_adds(24, 253);
    lemma_pow2_pos(253);
    assert(parts.significand as nat * pow2(parts.shift as nat) < pow2(277)) by (nonlinear_arith)
        requires
            parts.significand < 0x100_0000,
            pow2(parts.shift as nat) <= pow2(253),
            pow2(277) == 0x100_0000 * pow2(253),
            pow2(253) > 0,
    ;
}

/// Adds two finite values of which the first has the larger shift.
fn add_ordered(high: Decoded, low: Decoded, high_bits: Binary32) -> (r: Binary32)
    requires
        high.class == Class::Finite,
        low.class == Class::Finite,
        high.canonical(),
        low.canonical(),
        high.shift >= low.shift,
        high_bits@ == high.value(),
    ensures
        r@ == high.value().sum(low.value()),
{
    let gap: u32 = high.shift - low.shift;
    let ghost base: nat = pow2(low.shift as nat);
    let ghost x: nat = high.significand as nat * pow2(high.shift as nat);
    let ghost y: nat = low.significand as nat * base;
    proof {
        lemma2_to64();
        lemma_pow2_pos(low.shift as nat);
        lemma_pow2_adds(gap as nat, low.shift as nat);
        lemma_unit_denominator();
        lemma_decoded_in_range(high);
    }
    if gap > 30 {
        proof {
            lemma_pow2_increases(31, gap as nat);
            let scale = pow2(gap as nat);
            assert(8 * y < pow2(high.shift as nat)) by (nonlinear_arith)
                requires
                    y == low.significand as nat * base,
                    low.significand < 0x100_0000,
                    pow2(high.shift as nat) == scale * base,
                    scale >= 0x8000_0000,
                    base > 0,
            ;
            let minus = high.negative != low.negative;
            lemma_nearest_units_absorbs(
                high.significand as nat,
                high.shift as nat,
                y,
                minus,
            );
            assert(x > y) by (nonlinear_arith)
                requires
                    x == high.significand as nat * pow2(high.shift as nat),
                    high.significand >= 0x80_0000,
                    8 * y < pow2(high.shift as nat),
            ;
        }
        return high_bits;
    }
    let scale = pow2_u64(gap);
    proof {
        lemma_pow2_increases(gap as nat, 30);
        assert(high.significand * scale < 0x40_0000_0000_0000) by (nonlinear_arith)
            requires
                high.significand < 0x100_0000,
                scale <= 0x4000_0000,
        ;
    }
    let big: u64 = high.significand * scale;
    proof {
        assert(x == big * base) by (nonlinear_arith)
            requires
                x == high.significand as nat * pow2(high.shift as nat),
                pow2(high.shift as nat) == scale * base,
                big == high.significand * scale,
        ;
    }
    if high.negative == low.negative {
        proof {
            assert((big + low.significand) as nat * base == x + y) by (nonlinear_arith)
                requires
                    x == big * base,
                    y == low.significand as nat * base,
            ;
            assert(x + y == 0 <==> big + low.significand == 0) by (nonlinear_arith)
                requires
                    (big + low.significand) as nat * base == x + y,
                    base > 0,
            ;
            if x + y == 0 {
                assert(0nat * base == 0);
            }
        }
        if big + low.significand == 0 {
            Binary32::zero(high.negative)
        } else {
            round_pack(high.negative, big + low.significand, low.shift, 1, 0)
        }
    } else if big > low.significand {
        proof {
            assert((big - low.significand) as nat * base == x - y && x > y) by (nonlinear_arith)
                requires
                    x == big * base,
                    y == low.significand as nat * base,
                    big > low.significand,
                    base > 0,
            ;
        }
        round_pack(high.negative, big - low.significand, low.shift, 1, 0)
    } else if big < low.significand {
        proof {
            assert((low.significand - big) as nat * base == y - x && y > x) by (nonlinear_arith)
                requires
                    x == big * base,
                    y == low.significand as nat * base,
                    big < low.significand,
                    base > 0,
            ;
        }
        round_pack(low.negative, low.significand - big, low.shift, 1, 0)
    } else {
        Binary32::zero(false)
    }
}

impl Binary32 {
    /// The number with the opposite sign.
    pub fn neg(self) -> (r: Binary32)
        ensures
            r@ == self@.negated(),
    {
        let flipped: u32 = if self.bits >= 0x8000_0000 {
            self.bits - 0x8000_0000
        } else {
            self.bits + 0x8000_0000
        };
        proof {
            lemma_sign_apart(self.bits);
            lemma_sign_apart(flipped);
        }
        Binary32 { bits: flipped }
    }

    /// The number without its sign.
    pub fn abs(self) -> (r: Binary32)
        ensures
            r@ == self@.magnitude(),
    {
        let cleared: u32 = self.bits % 0x8000_0000;
        proof {
            lemma_sign_apart(self.bits);
            lemma_sign_apart(cleared);
        }
        Binary32 { bits: cleared }
    }

    /// Adds two numbers.
    pub fn add(self, other: Binary32) -> (r: Binary32)
        ensures
            r@ == self@.sum(other@),
    {
        let a = self.decode();
        let b = other.decode();
        match (a.class, b.class) {
            (Class::Nan, _) => Binary32::nan(),
            (_, Class::Nan) => Binary32::nan(),
            (Class::Infinite, Class::Infinite) => {
                if a.negative == b.negative {
                    self
                } else {
                    Binary32::nan()
                }
            },
            (Class::Infinite, Class::Finite) => self,
            (Class::Finite, Class::Infinite) => other,
            (Class::Finite, Class::Finite) => {
                if a.shift >= b.shift {
                    add_ordered(a, b, self)
                } else {
                    add_ordered(b, a, other)
                }
            },
        }
    }

    /// Subtracts one number from another.
    pub fn sub(self, other: Binary32) -> (r: Binary32)
        ensures
            r@ == self@.difference(other@),
    {
        self.add(other.neg())
    }

    /// The remainder of dividing one number by another, with the sign of
    /// the dividend.
    pub fn rem(self, other: Binary32) -> (r: Binary32)
        ensures
            r@ == self@.remainder(other@),
    {
        let a = self.decode();
        let b = other.decode();
        match (a.class, b.class) {
            (Class::Nan, _) => Binary32::nan(),
            (_, Class::Nan) => Binary32::nan(),
            (Class::Infinite, _) => Binary32::nan(),
            (Class::Finite, Class::Infinite) => self,
            (Class::Finite, Class::Finite) => {
                let ghost x: nat = a.significand as nat * pow2(a.shift as nat);
                let ghost y: nat = b.significand as nat * pow2(b.shift as nat);
                let ghost base: nat = pow2(b.shift as nat);
                proof {
                    lemma2_to64();
                    lemma_pow2_pos(b.shift as nat);
                    lemma_pow2_pos(a.shift as nat);
                    assert(b.significand == 0 <==> y == 0) by (nonlinear_arith)
                        requires
                            y == b.significand as nat * base,
                            base > 0,
                    ;
                }
                if b.significand == 0 {
                    return Binary32::nan();
                }
                if a.shift < b.shift {
                    proof {
                        lemma_pow2_increases((a.shift + 1) as nat, b.shift as nat);
                        lemma_pow2_adds(1, a.shift as nat);
                        let pa = pow2(a.shift as nat);
                        assert(x < y) by (nonlinear_arith)
                            requires
                                x == a.significand as nat * pa,
                                y == b.significand as nat * base,
                                a.significand < 0x100_0000,
                                b.significand >= 0x80_0000,
                                2 * pa <= base,
                                pa > 0,
                        ;
                        lemma_small_mod(x, y);
                    }
                    return self;
                }
                let mut rest: u64 = a.significand % b.significand;
                let mut at: u32 = b.shift;
                proof {
                    assert(a.significand as nat * pow2(0) == a.significand) by (nonlinear_arith)
                        requires
                            pow2(0) == 1,
                    ;
                }
                while at < a.shift
                    invariant
                        b.shift <= at <= a.shift,
                        0 < b.significand < 0x100_0000,
                        rest as nat == (a.significand as nat * pow2((at - b.shift) as nat)) % (
                        b.significand as nat),
                    decreases a.shift - at,
                {
                    proof {
                        let step = (at - b.shift) as nat;
                        let whole = a.significand as nat * pow2(step);
                        lemma2_to64();
                        lemma_pow2_adds(1, step);
                        lemma_mul_mod_noop_right(2, whole as int, b.significand as int);
                        assert(2 * whole == a.significand as nat * pow2(step + 1)) by (nonlinear_arith)
                            requires
                                whole == a.significand as nat * pow2(step),
                                pow2(step + 1) == 2 * pow2(step),
                        ;
                        lemma_mod_bound(whole as int, b.significand as int);
                    }
                    rest = (2 * rest) % b.significand;
                    at = at + 1;
                }
                proof {
                    let gap = (a.shift - b.shift) as nat;
                    let whole = a.significand as nat * pow2(gap);
                    lemma_pow2_adds(gap, b.shift as nat);
                    lemma_mod_bound(whole as int, b.significand as int);
                    lemma_truncate_middle(whole as int, base as int, b.significand as int);
                    assert(base * whole == x) by (nonlinear_arith)
                        requires
                            whole == a.significand as nat * pow2(gap),
                            x == a.significand as nat * pow2(a.shift as nat),
                            pow2(a.shift as nat) == pow2(gap) * base,
                    ;
                    assert(base * (b.significand as nat) == y && base * (rest as nat) == rest as nat
                        * base) by (nonlinear_arith)
                        requires
                            y == b.significand as nat * base,
                    ;
                    assert(x % y == rest as nat * base);
                    lemma_unit_denominator();
                    lemma_nearest_units_exact(rest as nat, b.shift as nat);
                    lemma_pow2_increases(b.shift as nat, 253);
                    lemma_pow2_adds(24, 253);
                    lemma_pow2_pos(253);
                    assert(rest as nat * base < pow2(277)) by (nonlinear_arith)
                        requires
                            rest < 0x100_0000,
                            base <= pow2(253),
                            pow2(277) == 0x100_0000 * pow2(253),
                            pow2(253) > 0,
                    ;
                }
                round_pack(a.negative, rest, b.shift, 1, 0)
            },
        }
    }
}

} // verus!
