use vstd::prelude::*;
use vstd::arithmetic::power2::{pow2, lemma2_to64, lemma_pow2_pos, lemma_pow2_adds};
use vstd::arithmetic::div_mod::{lemma_div_multiples_vanish_quotient, lemma_div_by_multiple, lemma_basic_div, lemma_mod_multiples_basic};
use crate::binary32::{Binary32, Class, FloatValue};
use crate::power::{lemma_pow2_increases, pow2_u64};

verus! {

impl FloatValue {
    /// Whether the value is less than zero. Not-a-number is not, and
    /// neither is a zero of either sign.
    pub open spec fn below_zero(self) -> bool {
        match self {
            FloatValue::Nan => false,
            FloatValue::Infinite { negative } => negative,
            FloatValue::Finite { negative, units } => negative && units > 0,
        }
    }

    /// The value brought into the range from zero to one: what is below
    /// the range, and not-a-number, becomes zero; what is above becomes one.
    pub open spec fn clamped_to_unit(self) -> FloatValue {
        match self {
            FloatValue::Nan => FloatValue::Finite { negative: false, units: 0 },
            FloatValue::Infinite { negative } => {
                if negative {
                    FloatValue::Finite { negative: false, units: 0 }
                } else {
                    FloatValue::whole(1)
                }
            },
            FloatValue::Finite { negative, units } => {
                if negative || units == 0 {
                    FloatValue::Finite { negative: false, units: 0 }
                } else if units >= pow2(149) {
                    FloatValue::whole(1)
                } else {
                    self
                }
            },
        }
    }

    /// The whole part of a value, as eight bits keep it: reduced modulo
    /// 256. A value that has no whole part of its own, being negative,
    /// infinite or not a number, gives 0.
    pub open spec fn low_byte(self) -> nat {
        match self {
            FloatValue::Finite { negative: false, units } => (units / pow2(149)) % 256,
            _ => 0,
        }
    }
}

/// A whole number written with a significand `k * 2^j` at the shift
/// `149 - j` is that number.
proof fn lemma_whole_pattern(k: nat, j: nat)
    requires
        j <= 149,
    ensures
        (k * pow2(j)) * pow2((149 - j) as nat) == k * pow2(149),
{
    lemma_pow2_adds(j, (149 - j) as nat);
    let (p, q) = (pow2(j), pow2((149 - j) as nat));
    assert((k * p) * q == k * (p * q)) by (nonlinear_arith);
}

impl Binary32 {
    /// The number one.
    pub fn one() -> (r: Binary32)
        ensures
            r@ == FloatValue::whole(1),
    {
        proof {
            lemma2_to64();
            lemma_whole_pattern(1, 23);
        }
        Binary32 { bits: 0x3f80_0000 }
    }

    /// The number two.
    pub fn two() -> (r: Binary32)
        ensures
            r@ == FloatValue::whole(2),
    {
        proof {
            lemma2_to64();
            lemma_whole_pattern(2, 22);
        }
        Binary32 { bits: 0x4000_0000 }
    }

    /// The number three.
    pub fn three() -> (r: Binary32)
        ensures
            r@ == FloatValue::whole(3),
    {
        proof {
            lemma2_to64();
            lemma_whole_pattern(3, 22);
        }
        Binary32 { bits: 0x4040_0000 }
    }

    /// The number four.
    pub fn four() -> (r: Binary32)
        ensures
            r@ == FloatValue::whole(4),
    {
        proof {
            lemma2_to64();
            lemma_whole_pattern(4, 21);
        }
        Binary32 { bits: 0x4080_0000 }
    }

    /// The number six.
    pub fn six() -> (r: Binary32)
        ensures
            r@ == FloatValue::whole(6),
    {
        proof {
            lemma2_to64();
            lemma_whole_pattern(6, 21);
        }
        Binary32 { bits: 0x40c0_0000 }
    }

    /// The number 256.
    pub fn byte_span() -> (r: Binary32)
        ensures
            r@ == FloatValue::whole(256),
    {
        proof {
            lemma2_to64();
            lemma_whole_pattern(256, 15);
        }
        Binary32 { bits: 0x4380_0000 }
    }

    /// The number 255.
    pub fn full_scale() -> (r: Binary32)
        ensures
            r@ == FloatValue::whole(255),
    {
        proof {
            lemma2_to64();
            lemma_whole_pattern(255, 16);
        }
        Binary32 { bits: 0x437f_0000 }
    }

    /// Whether the number is less than zero.
    pub fn is_below_zero(self) -> (below: bool)
        ensures
            below == self@.below_zero(),
    {
        let parts = self.decode();
        match parts.class {
            Class::Nan => false,
            Class::Infinite => parts.negative,
            Class::Finite => {
                proof {
                    lemma_pow2_pos(parts.shift as nat);
                    assert(parts.significand == 0 <==> parts.significand as nat * pow2(
                        parts.shift as nat,
                    ) == 0) by (nonlinear_arith)
                        requires
                            pow2(parts.shift as nat) > 0,
                    ;
                }
                parts.negative && parts.significand != 0
            },
        }
    }

    /// Brings the number into the range from zero to one.
    pub fn clamp_to_unit(self) -> (r: Binary32)
        ensures
            r@ == self@.clamped_to_unit(),
    {
        let parts = self.decode();
        match parts.class {
            Class::Nan => Binary32::zero(false),
            Class::Infinite => {
                if parts.negative {
                    Binary32::zero(false)
                } else {
                    Binary32::one()
                }
            },
            Class::Finite => {
                let ghost units: nat = parts.significand as nat * pow2(parts.shift as nat);
                proof {
                    lemma2_to64();
                    lemma_pow2_pos(parts.shift as nat);
                    assert(parts.significand == 0 <==> units == 0) by (nonlinear_arith)
                        requires
                            units == parts.significand as nat * pow2(parts.shift as nat),
                            pow2(parts.shift as nat) > 0,
                    ;
                    if parts.shift >= 126 {
                        lemma_pow2_increases(126, parts.shift as nat);
                        lemma_pow2_adds(23, 126);
                        assert(units >= pow2(149)) by (nonlinear_arith)
                            requires
                                units == parts.significand as nat * pow2(parts.shift as nat),
                                parts.significand >= 0x80_0000,
                                pow2(parts.shift as nat) >= pow2(126),
                                pow2(149) == 0x80_0000 * pow2(126),
                        ;
                    } else {
                        lemma_pow2_increases(parts.shift as nat, 125);
                        lemma_pow2_adds(24, 125);
                        lemma_pow2_pos(125);
                        assert(units < pow2(149)) by (nonlinear_arith)
                            requires
                                units == parts.significand as nat * pow2(parts.shift as nat),
                                parts.significand < 0x100_0000,
                                pow2(parts.shift as nat) <= pow2(125),
                                pow2(149) == 0x100_0000 * pow2(125),
                                pow2(125) > 0,
                        ;
                    }
                }
                if parts.negative || parts.significand == 0 {
                    Binary32::zero(false)
                } else if parts.shift >= 126 {
                    Binary32::one()
                } else {
                    self
                }
            },
        }
    }

    /// The whole part of the number, reduced modulo 256.
    pub fn truncate_to_byte(self) -> (byte: u8)
        ensures
            byte == self@.low_byte(),
    {
        let parts = self.decode();
        match parts.class {
            Class::Nan => 0,
            Class::Infinite => 0,
            Class::Finite => {
                if parts.negative {
                    return 0;
                }
                let ghost units: nat = parts.significand as nat * pow2(parts.shift as nat);
                let ghost m: nat = parts.significand as nat;
                proof {
                    lemma2_to64();
                    lemma_pow2_pos(149);
                    lemma_pow2_pos(parts.shift as nat);
                }
                if parts.shift >= 149 {
                    let gain: u32 = parts.shift - 149;
                    proof {
                        lemma_pow2_adds(gain as nat, 149);
                        let g = pow2(gain as nat);
                        assert(units == (m * g) * pow2(149)) by (nonlinear_arith)
                            requires
                                units == m * pow2(parts.shift as nat),
                                pow2(parts.shift as nat) == g * pow2(149),
                        ;
                        lemma_div_by_multiple((m * g) as int, pow2(149) as int);
                    }
                    if gain >= 8 {
                        proof {
                            lemma_pow2_adds(8, (gain - 8) as nat);
                            let rest = pow2((gain - 8) as nat);
                            assert(m * pow2(gain as nat) == (m * rest) * 256) by (nonlinear_arith)
                                requires
                                    pow2(gain as nat) == 256 * rest,
                            ;
                            lemma_mod_multiples_basic((m * rest) as int, 256);
                        }
                        0
                    } else {
                        let scale = pow2_u64(gain);
                        proof {
                            lemma_pow2_increases(gain as nat, 7);
                            assert(parts.significand * scale < 0x8000_0000) by (nonlinear_arith)
                                requires
                                    parts.significand < 0x100_0000,
                                    scale <= 0x80,
                            ;
                        }
                        ((parts.significand * scale) % 256) as u8
                    }
                } else {
                    let loss: u32 = 149 - parts.shift;
                    proof {
                        lemma_pow2_adds(parts.shift as nat, loss as nat);
                        lemma_pow2_pos(loss as nat);
                        let p = pow2(parts.shift as nat);
                        lemma_div_multiples_vanish_quotient(
                            p as int,
                            m as int,
                            pow2(loss as nat) as int,
                        );
                        assert(p * m == units) by (nonlinear_arith)
                            requires
                                units == m * p,
                        ;
                    }
                    if loss >= 24 {
                        proof {
                            lemma_pow2_increases(24, loss as nat);
                            lemma_basic_div(m as int, pow2(loss as nat) as int);
                        }
                        0
                    } else {
                        ((parts.significand / pow2_u64(loss)) % 256) as u8
                    }
                }
            },
        }
    }
}

} // verus!
