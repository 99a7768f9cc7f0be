use vstd::prelude::*;
use vstd::arithmetic::power2::{pow2, lemma2_to64, lemma_pow2_adds, lemma_pow2_pos, lemma_pow2_strictly_increases};
use crate::binary32::{Binary32, FloatValue, value_of_bits};
use crate::rounding::{nearest_units, lemma_nearest_units_at_least, lemma_nearest_units_at_most};

verus! {

/// Bit pattern of the slope of the calibration line, -0.0030711016.
pub const SLOPE_BITS: u32 = 0xbb49_4489;

/// Bit pattern of the offset of the calibration line, 3.3309495161.
pub const OFFSET_BITS: u32 = 0x4055_2e47;

/// The last raw reading at which the calibration line is above zero.
pub const LAST_READING_IN_RANGE: u16 = 1084;

/// The calibration line at a raw reading: `raw * slope + offset`, each step
/// rounded to single precision.
pub open spec fn denominator_value(raw: u16) -> FloatValue {
    FloatValue::whole(raw as nat).product(value_of_bits(SLOPE_BITS)).sum(
        value_of_bits(OFFSET_BITS),
    )
}

/// The distance, in metres, that a raw 11-bit reading stands for: the
/// reciprocal of the calibration line, rounded to single precision.
pub open spec fn distance_value(raw: u16) -> FloatValue {
    FloatValue::whole(1).quotient(denominator_value(raw))
}

/// Estimates the distance, in metres, that a raw 11-bit reading stands for.
pub fn estimate_distance(raw: u16) -> (distance: Binary32)
    ensures
        distance@ == distance_value(raw),
        distance@ is Finite,
        distance@.below_zero() <==> raw > LAST_READING_IN_RANGE,
{
    proof {
        lemma_distance_is_finite(raw);
    }
    let slope = Binary32 { bits: SLOPE_BITS };
    let offset = Binary32 { bits: OFFSET_BITS };
    let line = Binary32::from_u16(raw).mul(slope).add(offset);
    Binary32::one().div(line)
}

/// The magnitude of the rounded product `raw * slope` stays below the
/// offset of the line up to the last reading in range, and lies above it
/// from the next one on.
proof fn lemma_product_units(raw: u16)
    ensures
        raw <= LAST_READING_IN_RANGE ==> nearest_units(
            (raw as nat * pow2(149)) * (0xc9_4489 * pow2(117)),
            pow2(149),
        ) <= 0xd5_2e46 * pow2(127),
        raw > LAST_READING_IN_RANGE ==> nearest_units(
            (raw as nat * pow2(149)) * (0xc9_4489 * pow2(117)),
            pow2(149),
        ) >= 0xd5_2e48 * pow2(127),
        nearest_units((raw as nat * pow2(149)) * (0xc9_4489 * pow2(117)), pow2(149)) <= 1 * pow2(157),
{
    lemma2_to64();
    let unit = pow2(149);
    let fine = pow2(117);
    let coarse = pow2(127);
    let n = (raw as nat * unit) * (0xc9_4489 * fine);
    lemma_pow2_pos(149);
    lemma_pow2_pos(117);
    lemma_pow2_adds(40, 117);
    lemma_pow2_adds(10, 117);
    assert(pow2(40) == 0x100_0000_0000) by {
        lemma_pow2_adds(20, 20);
    }
    assert(n <= unit * (1 * pow2(157))) by (nonlinear_arith)
        requires
            n == (raw as nat * unit) * (0xc9_4489 * fine),
            raw <= 0xffff,
            pow2(157) == 0x100_0000_0000 * fine,
    ;
    lemma_nearest_units_at_most(n, unit, 1, 157);
    if raw <= LAST_READING_IN_RANGE {
        assert(n <= unit * (0xd5_2e46 * coarse)) by (nonlinear_arith)
            requires
                n == (raw as nat * unit) * (0xc9_4489 * fine),
                raw <= 1084,
                coarse == 1024 * fine,
        ;
        lemma_nearest_units_at_most(n, unit, 0xd5_2e46, 127);
    } else {
        assert(n >= unit * (0xd5_2e48 * coarse)) by (nonlinear_arith)
            requires
                n == (raw as nat * unit) * (0xc9_4489 * fine),
                raw >= 1085,
                coarse == 1024 * fine,
        ;
        lemma_nearest_units_at_least(n, unit, 0xd5_2e48, 127);
    }
}

/// The calibration line is never exactly zero and the distance is finite at
/// every reading: positive up to the last reading in range, negative from
/// the next one on.
pub proof fn lemma_distance_is_finite(raw: u16)
    ensures
        denominator_value(raw) is Finite,
        !denominator_value(raw).is_zero(),
        distance_value(raw) is Finite,
        distance_value(raw).below_zero() <==> raw > LAST_READING_IN_RANGE,
{
    lemma2_to64();
    let unit = pow2(149);
    let fine = pow2(117);
    let coarse = pow2(127);
    let slope = 0xc9_4489 * fine;
    let offset = 0xd5_2e47 * coarse;
    assert(value_of_bits(SLOPE_BITS) == (FloatValue::Finite { negative: true, units: slope }));
    assert(value_of_bits(OFFSET_BITS) == (FloatValue::Finite { negative: false, units: offset }));
    lemma_product_units(raw);
    let product = nearest_units((raw as nat * unit) * slope, unit);
    lemma_pow2_strictly_increases(157, 277);
    lemma_pow2_strictly_increases(158, 277);
    lemma_pow2_strictly_increases(181, 277);
    lemma_pow2_adds(1, 157);
    lemma_pow2_adds(24, 127);
    lemma_pow2_adds(6, 151);
    lemma_pow2_pos(127);
    lemma_pow2_pos(149);
    assert(1 * pow2(157) == pow2(157));
    assert(FloatValue::whole(raw as nat).product(value_of_bits(SLOPE_BITS)) == (
    FloatValue::Finite { negative: true, units: product }));
    let total: int = offset - product;
    let size: nat = if total > 0 { total as nat } else { (-total) as nat };
    assert(size >= 1 * coarse && size <= 1 * pow2(158) && (total < 0 <==> raw > LAST_READING_IN_RANGE))
        by (nonlinear_arith)
        requires
            offset == 0xd5_2e47 * coarse,
            total == offset - product,
            size == (if total > 0 { total } else { -total }),
            raw <= LAST_READING_IN_RANGE ==> product <= 0xd5_2e46 * coarse,
            raw > LAST_READING_IN_RANGE ==> product >= 0xd5_2e48 * coarse,
            product <= pow2(157),
            pow2(158) == 2 * pow2(157),
            pow2(157) == 64 * pow2(151),
            pow2(151) == 0x100_0000 * coarse,
            coarse > 0,
    ;
    lemma_nearest_units_at_least(size, 1, 1, 127);
    lemma_nearest_units_at_most(size, 1, 1, 158);
    let line = nearest_units(size, 1);
    assert(1 * pow2(158) == pow2(158) && 1 * coarse == coarse);
    assert(denominator_value(raw) == (FloatValue::Finite { negative: total < 0, units: line }));
    lemma_pow2_adds(149, 149);
    lemma_pow2_adds(127, 171);
    lemma_pow2_adds(149, 22);
    lemma_pow2_strictly_increases(171, 277);
    assert((1 * unit) * unit <= line * (1 * pow2(171))) by (nonlinear_arith)
        requires
            line >= coarse,
            unit * unit == coarse * pow2(171),
    ;
    lemma_nearest_units_at_most((1 * unit) * unit, line, 1, 171);
    assert(1 * pow2(171) == pow2(171));
    // The quotient is not zero either: it is at least 2^-9.
    lemma_pow2_adds(158, 140);
    lemma_pow2_pos(140);
    assert((1 * unit) * unit >= line * (1 * pow2(140))) by (nonlinear_arith)
        requires
            line <= pow2(158),
            unit * unit == pow2(158) * pow2(140),
            pow2(140) > 0,
    ;
    lemma_nearest_units_at_least((1 * unit) * unit, line, 1, 140);
    lemma_pow2_pos(140);
    assert(1 * pow2(140) == pow2(140));
}

} // verus!
