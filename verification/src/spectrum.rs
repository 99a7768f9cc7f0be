use vstd::prelude::*;
use vstd::arithmetic::div_mod::{
    lemma_fundamental_div_mod, lemma_mod_bound, lemma_mod_mod, lemma_mod_multiples_basic,
    lemma_mod_multiples_vanish, lemma_small_mod, lemma_truncate_middle,
};
use vstd::arithmetic::power2::{
    lemma2_to64, lemma_pow2_adds, lemma_pow2_pos, lemma_pow2_strictly_increases, pow2,
};
use crate::binary32::{exponent_of, fraction_of, Binary32, FloatValue};
use crate::frame::DisplayColor;
use crate::power::lemma_pow2_exponent_lt;
use crate::rounding::{
    lemma_nearest_units_at_least, lemma_nearest_units_at_most, lemma_nearest_units_exact,
    lemma_nearest_units_zero, nearest_units, rounded,
};

verus! {

/// The fractional part of a distance: the distance is reduced modulo 256,
/// and of what is left the whole part is taken away. Both steps are exact.
pub open spec fn fraction_value(distance: FloatValue) -> FloatValue {
    let reduced = distance.remainder(FloatValue::whole(256));
    reduced.difference(FloatValue::whole(reduced.low_byte()))
}

/// The position on the colour wheel, from 0 to 6, for a fractional
/// distance `t`: `6 * (3 t^2 - 2 t^3)`, each step rounded to single
/// precision.
pub open spec fn spectrum_value(decimal: FloatValue) -> FloatValue {
    let square = decimal.product(decimal);
    let cube = square.product(decimal);
    FloatValue::whole(6).product(
        FloatValue::whole(3).product(square).difference(FloatValue::whole(2).product(cube)),
    )
}

/// The level, from 0 to 255, of a channel whose peak lies `input` away on
/// the colour wheel: `clamp(2 - |input|, 0, 1) * 255`.
pub open spec fn curve_value(input: FloatValue) -> FloatValue {
    FloatValue::whole(2).difference(input.magnitude()).clamped_to_unit().product(
        FloatValue::whole(255),
    )
}

/// The intensity of a channel: its level cut to a whole number.
pub open spec fn channel_level(input: FloatValue) -> nat {
    curve_value(input).low_byte()
}

/// A wheel position moved on by `phase`, wrapped to one turn of the wheel
/// and taken relative to the channel's peak at 2.
pub open spec fn wrapped_phase(spectrum: FloatValue, phase: nat) -> FloatValue {
    spectrum.sum(FloatValue::whole(phase)).remainder(FloatValue::whole(6)).difference(
        FloatValue::whole(2),
    )
}

/// The colour that stands for a distance: black below zero, else a point
/// on the colour wheel chosen by the fractional part of the distance.
pub open spec fn color_value(distance: FloatValue) -> DisplayColor {
    if distance.below_zero() {
        DisplayColor { red: 0, green: 0, blue: 0, alpha: 255 }
    } else {
        let spectrum = spectrum_value(fraction_value(distance));
        DisplayColor {
            red: channel_level(wrapped_phase(spectrum, 2)) as u8,
            green: channel_level(spectrum.difference(FloatValue::whole(2))) as u8,
            blue: channel_level(wrapped_phase(spectrum, 4)) as u8,
            alpha: 255,
        }
    }
}

/// Computes the level of a channel whose peak lies `input` away on the
/// colour wheel.
pub fn spectrum_curve(input: Binary32) -> (level: Binary32)
    ensures
        level@ == curve_value(input@),
        level@ is Finite,
{
    proof {
        lemma_curve_shape(input);
    }
    Binary32::two().sub(input.abs()).clamp_to_unit().mul(Binary32::full_scale())
}

/// Computes the colour that stands for a distance.
pub fn distance_to_color(distance: Binary32) -> (color: DisplayColor)
    ensures
        color == color_value(distance@),
        color.alpha == 255,
        distance@.below_zero() ==> color == DisplayColor::gray(0),
{
    if distance.is_below_zero() {
        return DisplayColor { red: 0, green: 0, blue: 0, alpha: 255 };
    }
    let reduced = distance.rem(Binary32::byte_span());
    let whole_part = Binary32::from_u16(reduced.truncate_to_byte() as u16);
    let decimal = reduced.sub(whole_part);
    let square = decimal.mul(decimal);
    let cube = square.mul(decimal);
    let spectrum = Binary32::six().mul(
        Binary32::three().mul(square).sub(Binary32::two().mul(cube)),
    );
    let two = Binary32::two();
    let six = Binary32::six();
    let red = spectrum_curve(spectrum.add(two).rem(six).sub(two)).truncate_to_byte();
    let green = spectrum_curve(spectrum.sub(two)).truncate_to_byte();
    let blue = spectrum_curve(spectrum.add(Binary32::four()).rem(six).sub(two)).truncate_to_byte();
    DisplayColor { red, green, blue, alpha: 255 }
}

/// The whole part that eight bits keep is a byte: it lies between 0 and
/// 255, and so does every channel of a colour.
pub proof fn lemma_low_byte_in_range(value: FloatValue)
    ensures
        value.low_byte() <= 255,
        channel_level(value) <= 255,
{
    lemma_low_byte_of_any(value);
    lemma_low_byte_of_any(curve_value(value));
}

proof fn lemma_low_byte_of_any(value: FloatValue)
    ensures
        value.low_byte() <= 255,
{
    lemma_pow2_pos(149);
    if let FloatValue::Finite { negative, units } = value {
        lemma_mod_bound(units as int / pow2(149) as int, 256);
    }
}

/// Every distance below zero is shown black.
pub proof fn lemma_negative_is_black(distance: FloatValue)
    requires
        distance.below_zero(),
    ensures
        color_value(distance) == (DisplayColor { red: 0, green: 0, blue: 0, alpha: 255 }),
{
}

/// The fractional part of a distance that is not negative is exact: it is
/// what is left of the distance after its whole units are taken away.
pub proof fn lemma_fraction_is_exact(m: nat, s: nat)
    requires
        m < 0x100_0000,
    ensures
        fraction_value(FloatValue::Finite { negative: false, units: m * pow2(s) }) == (
        FloatValue::Finite { negative: false, units: (m * pow2(s)) % pow2(149) }),
{
    lemma2_to64();
    let unit = pow2(149);
    let span = 256 * unit;
    let units = m * pow2(s);
    lemma_pow2_pos(149);
    lemma_pow2_pos(s);
    // Reduced modulo 256.
    let reduced = units % span;
    assert(FloatValue::whole(256) == (FloatValue::Finite { negative: false, units: span }));
    lemma_mod_bound(units as int, span as int);
    lemma_mod_mod(units as int, unit as int, 256);
    assert(unit * 256 == span);
    assert(reduced % unit == units % unit);
    // The whole part of what is left.
    lemma_fundamental_div_mod(reduced as int, unit as int);
    let whole = reduced / unit;
    let rest = reduced % unit;
    assert(whole < 256) by (nonlinear_arith)
        requires
            reduced == unit * whole + rest,
            rest >= 0,
            reduced < 256 * unit,
            unit > 0,
    ;
    lemma_small_mod(whole, 256);
    assert(whole * unit == unit * whole) by (nonlinear_arith);
    lemma_pow2_strictly_increases(149, 277);
    lemma_mod_bound(units as int, unit as int);
    // What is left after that is a significand of at most 24 bits.
    if s >= 149 {
        lemma_pow2_adds((s - 149) as nat, 149);
        assert(units == (m * pow2((s - 149) as nat)) * unit) by (nonlinear_arith)
            requires
                units == m * pow2(s),
                pow2(s) == pow2((s - 149) as nat) * unit,
        ;
        lemma_mod_multiples_basic((m * pow2((s - 149) as nat)) as int, unit as int);
    } else {
        let above = pow2((149 - s) as nat);
        lemma_pow2_adds(s, (149 - s) as nat);
        lemma_pow2_pos((149 - s) as nat);
        lemma_truncate_middle(m as int, pow2(s) as int, above as int);
        lemma_mod_bound(m as int, above as int);
        let kept = m % above;
        assert(pow2(s) * m == units && pow2(s) * kept == kept * pow2(s)) by (nonlinear_arith)
            requires
                units == m * pow2(s),
        ;
        assert(kept <= m) by {
            lemma_fundamental_div_mod(m as int, above as int);
            assert(above * (m / above) >= 0) by (nonlinear_arith)
                requires
                    above > 0,
                    m / above >= 0,
            ;
        }
        lemma_nearest_units_exact(kept, s);
    }
}

/// The colour depends on the fractional part of the distance alone: two
/// distances that differ by a whole number have the same colour.
pub proof fn lemma_color_repeats(m1: nat, s1: nat, m2: nat, s2: nat)
    requires
        m1 < 0x100_0000,
        m2 < 0x100_0000,
        (m1 * pow2(s1)) % pow2(149) == (m2 * pow2(s2)) % pow2(149),
    ensures
        color_value(FloatValue::Finite { negative: false, units: m1 * pow2(s1) }) == color_value(
            FloatValue::Finite { negative: false, units: m2 * pow2(s2) },
        ),
{
    lemma_fraction_is_exact(m1, s1);
    lemma_fraction_is_exact(m2, s2);
}

/// The colour repeats every 256: a distance and the distance 256 further
/// on have the same colour.
pub proof fn lemma_color_repeats_after_256(m1: nat, s1: nat, m2: nat, s2: nat)
    requires
        m1 < 0x100_0000,
        m2 < 0x100_0000,
        m2 * pow2(s2) == m1 * pow2(s1) + 256 * pow2(149),
    ensures
        color_value(FloatValue::Finite { negative: false, units: m1 * pow2(s1) }) == color_value(
            FloatValue::Finite { negative: false, units: m2 * pow2(s2) },
        ),
{
    lemma_pow2_pos(149);
    lemma_mod_multiples_vanish(256, (m1 * pow2(s1)) as int, pow2(149) as int);
    lemma_color_repeats(m1, s1, m2, s2);
}

/// The size of a finite value, in units; zero for what is not finite.
pub open spec fn size_of(value: FloatValue) -> nat {
    match value {
        FloatValue::Finite { units, .. } => units,
        _ => 0,
    }
}

/// The level of a channel is a trapezoid over the distance from its peak:
/// 255 up to a distance of 1, zero from a distance of 2 on, and strictly
/// between the two in between, where it is `(2 - |input|) * 255` rounded
/// once, the difference being exact. What is not finite gives zero.
pub proof fn lemma_curve_shape(input: Binary32)
    ensures
        curve_value(input@) is Finite,
        curve_value(input@) == FloatValue::whole(255) <==> input@ is Finite && size_of(input@)
            <= pow2(149),
        curve_value(input@).is_zero() <==> !(input@ is Finite) || size_of(input@) >= 2 * pow2(149),
        input@ is Finite && pow2(149) < size_of(input@) < 2 * pow2(149) ==> curve_value(input@)
            == (FloatValue::Finite { negative: false, units: size_of(curve_value(input@)) }) && 0
            < size_of(curve_value(input@)) < 255 * pow2(149),
        input@ is Finite && pow2(149) < size_of(input@) < 2 * pow2(149) ==> curve_value(input@)
            == rounded(
            false,
            ((2 * pow2(149) - size_of(input@)) as nat) * (255 * pow2(149)),
            pow2(149),
        ),
{
    lemma2_to64();
    let unit = pow2(149);
    lemma_pow2_pos(149);
    lemma_pow2_adds(1, 149);
    lemma_pow2_strictly_increases(149, 277);
    lemma_pow2_strictly_increases(150, 277);
    lemma_pow2_strictly_increases(157, 277);
    lemma_pow2_adds(8, 149);
    lemma_nearest_units_zero(unit);
    assert(0 * (255 * unit) == 0);
    assert(FloatValue::whole(2) == (FloatValue::Finite { negative: false, units: 2 * unit }));
    assert(FloatValue::whole(1) == (FloatValue::Finite { negative: false, units: unit })) by {
        assert(1 * unit == unit);
    }
    let zero = FloatValue::Finite { negative: false, units: 0 };
    assert(zero.product(FloatValue::whole(255)) == zero);
    assert(255 * unit > 0);
    // One times 255 is 255.
    assert(FloatValue::whole(1).product(FloatValue::whole(255)) == FloatValue::whole(255)) by {
        let n = unit * (255 * unit);
        lemma_nearest_units_at_most(n, unit, 255, 149);
        lemma_nearest_units_at_least(n, unit, 255, 149);
        assert(255 * unit < pow2(277)) by (nonlinear_arith)
            requires
                pow2(157) == 256 * unit,
                pow2(157) < pow2(277),
                unit > 0,
        ;
    }
    match input@ {
        FloatValue::Nan => {},
        FloatValue::Infinite { .. } => {},
        FloatValue::Finite { negative, units } => {
            let total: int = 2 * unit - units;
            if units <= unit {
                assert(1 * (1 * unit) == unit);
                lemma_nearest_units_at_least(total as nat, 1, 1, 149);
            } else if units >= 2 * unit {
            } else {
                // The pattern lies between one and two: its shift is 126.
                let exponent = exponent_of(input.bits);
                let m = 0x80_0000 + fraction_of(input.bits);
                let fine = pow2(126);
                lemma_pow2_pos(126);
                lemma_pow2_adds(23, 126);
                lemma_pow2_adds(24, 126);
                assert(exponent == 127) by {
                    if exponent == 0 {
                        assert(units < unit) by (nonlinear_arith)
                            requires
                                units < 0x80_0000,
                                unit == 0x80_0000 * fine,
                                fine > 0,
                        ;
                    } else {
                        let s = (exponent - 1) as nat;
                        lemma_pow2_pos(s);
                        lemma_pow2_adds(24, s);
                        lemma_pow2_adds(23, s);
                        assert(pow2(149) < pow2(24 + s) && pow2(23 + s) < pow2(150)) by (nonlinear_arith)
                            requires
                                units == m * pow2(s),
                                0x80_0000 <= m < 0x100_0000,
                                unit < units < 2 * unit,
                                unit == pow2(149),
                                pow2(150) == 2 * unit,
                                pow2(24 + s) == 0x100_0000 * pow2(s),
                                pow2(23 + s) == 0x80_0000 * pow2(s),
                                pow2(s) > 0,
                        ;
                        lemma_pow2_exponent_lt(149, 24 + s);
                        lemma_pow2_exponent_lt(23 + s, 150);
                    }
                }
                let left = (0x100_0000 - m) as nat;
                assert(total == left * fine && 0 < left < 0x80_0000) by (nonlinear_arith)
                    requires
                        total == 2 * unit - units,
                        units == m * fine,
                        unit == 0x80_0000 * fine,
                        left == 0x100_0000 - m,
                        unit < units < 2 * unit,
                        fine > 0,
                ;
                lemma_nearest_units_exact(left, 126);
                assert(1 * fine == fine);
                assert(nearest_units(total as nat, 1) == total);
                let part = FloatValue::Finite { negative: false, units: total as nat };
                assert(FloatValue::whole(2).difference(input@.magnitude()) == part);
                assert(part.clamped_to_unit() == part);
                let n = (total as nat) * (255 * unit);
                lemma_pow2_adds(7, 126);
                lemma_pow2_adds(16, 133);
                assert(n >= unit * (255 * fine) && n <= unit * (0xfe_ffff * pow2(133))) by (nonlinear_arith)
                    requires
                        n == (total as nat) * (255 * unit),
                        total == left * fine,
                        0 < left < 0x80_0000,
                        unit == 0x80_0000 * fine,
                        pow2(133) == 128 * fine,
                        unit == 0x1_0000 * pow2(133),
                        fine > 0,
                ;
                lemma_nearest_units_at_least(n, unit, 255, 126);
                lemma_nearest_units_at_most(n, unit, 0xfe_ffff, 133);
                assert(0xfe_ffff * pow2(133) < 255 * unit && 255 * fine > 0) by (nonlinear_arith)
                    requires
                        unit == 0x1_0000 * pow2(133),
                        pow2(133) == 128 * fine,
                        fine > 0,
                ;
                assert(255 * unit < pow2(277)) by (nonlinear_arith)
                    requires
                        pow2(157) == 256 * unit,
                        pow2(157) < pow2(277),
                        unit > 0,
                ;
            }
        },
    }
}

} // verus!
