use depth_colorizer::binary32::{Binary32, Class};
use depth_colorizer::power::{bit_length, pow2_u64};
use depth_colorizer::rounding::round_pack;

fn pattern(x: f32) -> Binary32 {
    Binary32 { bits: x.to_bits() }
}

fn agrees(got: Binary32, want: f32) -> bool {
    let value = f32::from_bits(got.bits);
    if want.is_nan() {
        value.is_nan()
    } else {
        got.bits == want.to_bits()
    }
}

struct Stream {
    state: u64,
}

impl Stream {
    fn next(&mut self) -> u32 {
        self.state = self.state.wrapping_mul(6364136223846793005).wrapping_add(1442695040888963407);
        (self.state >> 32) as u32
    }

    /// Patterns of every kind: arbitrary ones, ones of middling size, and
    /// the values at the edges of the format.
    fn pattern(&mut self) -> u32 {
        let edges: [u32; 14] = [
            0x0000_0000, 0x8000_0000, 0x7f80_0000, 0xff80_0000, 0x7fc0_0000, 0x0000_0001,
            0x007f_ffff, 0x0080_0000, 0x7f7f_ffff, 0x3f80_0000, 0x4000_0000, 0x40c0_0000,
            0x8000_0001, 0xff7f_ffff,
        ];
        let pick: u32 = self.next() % 10;
        if pick == 0 {
            edges[(self.next() % 14) as usize]
        } else if pick < 5 {
            self.next()
        } else {
            let sign: u32 = self.next() & 0x8000_0000;
            let exponent: u32 = 100 + self.next() % 60;
            sign | (exponent << 23) | (self.next() & 0x007f_ffff)
        }
    }
}

#[test]
fn products_match_hardware() {
    let mut stream = Stream { state: 1 };
    for _ in 0..200_000 {
        let (a, b) = (stream.pattern(), stream.pattern());
        let want = f32::from_bits(a) * f32::from_bits(b);
        let got = Binary32 { bits: a }.mul(Binary32 { bits: b });
        assert!(agrees(got, want), "{:#x} * {:#x}: {:#x} != {:#x}", a, b, got.bits, want.to_bits());
    }
}

#[test]
fn sums_match_hardware() {
    let mut stream = Stream { state: 2 };
    for _ in 0..200_000 {
        let (a, b) = (stream.pattern(), stream.pattern());
        let want = f32::from_bits(a) + f32::from_bits(b);
        let got = Binary32 { bits: a }.add(Binary32 { bits: b });
        assert!(agrees(got, want), "{:#x} + {:#x}: {:#x} != {:#x}", a, b, got.bits, want.to_bits());
    }
}

#[test]
fn differences_match_hardware() {
    let mut stream = Stream { state: 3 };
    for _ in 0..200_000 {
        let (a, b) = (stream.pattern(), stream.pattern());
        let want = f32::from_bits(a) - f32::from_bits(b);
        let got = Binary32 { bits: a }.sub(Binary32 { bits: b });
        assert!(agrees(got, want), "{:#x} - {:#x}: {:#x} != {:#x}", a, b, got.bits, want.to_bits());
    }
}

#[test]
fn quotients_match_hardware() {
    let mut stream = Stream { state: 4 };
    for _ in 0..200_000 {
        let (a, b) = (stream.pattern(), stream.pattern());
        let want = f32::from_bits(a) / f32::from_bits(b);
        let got = Binary32 { bits: a }.div(Binary32 { bits: b });
        assert!(agrees(got, want), "{:#x} / {:#x}: {:#x} != {:#x}", a, b, got.bits, want.to_bits());
    }
}

#[test]
fn remainders_match_hardware() {
    let mut stream = Stream { state: 5 };
    for _ in 0..100_000 {
        let (a, b) = (stream.pattern(), stream.pattern());
        let want = f32::from_bits(a) % f32::from_bits(b);
        let got = Binary32 { bits: a }.rem(Binary32 { bits: b });
        assert!(agrees(got, want), "{:#x} % {:#x}: {:#x} != {:#x}", a, b, got.bits, want.to_bits());
    }
}

#[test]
fn sums_of_nearby_sizes_match_hardware() {
    let mut stream = Stream { state: 6 };
    for _ in 0..200_000 {
        let a: u32 = stream.pattern();
        let exponent: u32 = (a >> 23) & 0xff;
        let shifted: u32 = (exponent + 224 + stream.next() % 64) % 255;
        let b: u32 = (stream.next() & 0x807f_ffff) | (shifted << 23);
        let want = f32::from_bits(a) + f32::from_bits(b);
        let got = Binary32 { bits: a }.add(Binary32 { bits: b });
        assert!(agrees(got, want), "{:#x} + {:#x}: {:#x} != {:#x}", a, b, got.bits, want.to_bits());
    }
}

#[test]
fn ties_round_to_even() {
    // 1 + 2^-24 lies halfway between 1 and the next number: it stays 1.
    assert_eq!(pattern(1.0).add(Binary32 { bits: 0x3380_0000 }).bits, 0x3f80_0000);
    // 1 + 2^-23 + 2^-24 lies halfway too, and goes up to the even neighbour.
    assert_eq!(Binary32 { bits: 0x3f80_0001 }.add(Binary32 { bits: 0x3380_0000 }).bits, 0x3f80_0002);
}

#[test]
fn overflow_gives_infinity() {
    let big = Binary32 { bits: 0x7f7f_ffff };
    assert_eq!(big.mul(pattern(2.0)).bits, 0x7f80_0000);
    assert_eq!(big.add(big).bits, 0x7f80_0000);
    assert_eq!(big.neg().mul(pattern(2.0)).bits, 0xff80_0000);
}

#[test]
fn underflow_gives_subnormals_and_zero() {
    let tiny = Binary32 { bits: 0x0000_0001 };
    assert_eq!(tiny.mul(pattern(0.5)).bits, 0);
    assert_eq!(tiny.mul(pattern(1.5)).bits, 2);
    assert_eq!(Binary32 { bits: 0x0080_0000 }.mul(pattern(0.5)).bits, 0x0040_0000);
}

#[test]
fn invalid_operations_give_not_a_number() {
    let infinity = Binary32::infinity(false);
    let zero = Binary32::zero(false);
    assert!(f32::from_bits(infinity.sub(infinity).bits).is_nan());
    assert!(f32::from_bits(infinity.mul(zero).bits).is_nan());
    assert!(f32::from_bits(zero.div(zero).bits).is_nan());
    assert!(f32::from_bits(infinity.div(infinity).bits).is_nan());
    assert!(f32::from_bits(pattern(1.0).rem(zero).bits).is_nan());
    assert!(f32::from_bits(infinity.rem(pattern(1.0)).bits).is_nan());
    assert!(f32::from_bits(Binary32::nan().bits).is_nan());
}

#[test]
fn zero_sums_keep_the_sign_only_of_two_negative_zeros() {
    let plus = Binary32::zero(false);
    let minus = Binary32::zero(true);
    assert_eq!(minus.add(minus).bits, 0x8000_0000);
    assert_eq!(plus.add(minus).bits, 0);
    assert_eq!(pattern(3.5).sub(pattern(3.5)).bits, 0);
    assert_eq!(pattern(-3.5).add(pattern(3.5)).bits, 0);
}

#[test]
fn whole_numbers_are_exact() {
    for k in 0..=65535u16 {
        assert_eq!(Binary32::from_u16(k).bits, (k as f32).to_bits());
    }
}

#[test]
fn named_constants_have_their_values() {
    assert_eq!(f32::from_bits(Binary32::one().bits), 1.0);
    assert_eq!(f32::from_bits(Binary32::two().bits), 2.0);
    assert_eq!(f32::from_bits(Binary32::three().bits), 3.0);
    assert_eq!(f32::from_bits(Binary32::four().bits), 4.0);
    assert_eq!(f32::from_bits(Binary32::six().bits), 6.0);
    assert_eq!(f32::from_bits(Binary32::full_scale().bits), 255.0);
    assert_eq!(f32::from_bits(Binary32::byte_span().bits), 256.0);
}

#[test]
fn negation_and_magnitude_touch_only_the_sign() {
    let mut stream = Stream { state: 7 };
    for _ in 0..10_000 {
        let a: u32 = stream.pattern();
        assert_eq!(Binary32 { bits: a }.neg().bits, a ^ 0x8000_0000);
        assert_eq!(Binary32 { bits: a }.abs().bits, a & 0x7fff_ffff);
    }
}

#[test]
fn decode_and_from_parts_are_inverse() {
    let mut stream = Stream { state: 8 };
    for _ in 0..10_000 {
        let a: u32 = stream.pattern();
        let value = f32::from_bits(a);
        if value.is_finite() {
            let parts = Binary32 { bits: a }.decode();
            let back = Binary32::from_parts(parts.negative, parts.significand as u32, parts.shift);
            assert_eq!(back.bits, a);
        }
    }
}

#[test]
fn comparison_with_zero_matches_hardware() {
    let mut stream = Stream { state: 9 };
    for _ in 0..50_000 {
        let a: u32 = stream.pattern();
        assert_eq!(Binary32 { bits: a }.is_below_zero(), f32::from_bits(a) < 0.0);
    }
    assert!(!Binary32::zero(true).is_below_zero());
    assert!(!Binary32::nan().is_below_zero());
    assert!(Binary32::infinity(true).is_below_zero());
}

#[test]
fn clamping_matches_hardware() {
    let mut stream = Stream { state: 10 };
    for _ in 0..50_000 {
        let a: u32 = stream.pattern();
        let want = f32::min(f32::max(f32::from_bits(a), 0.0), 1.0);
        let got = f32::from_bits(Binary32 { bits: a }.clamp_to_unit().bits);
        assert_eq!(got, want, "{:#x}", a);
    }
    assert_eq!(Binary32::nan().clamp_to_unit().bits, 0);
    assert_eq!(pattern(0.25).clamp_to_unit().bits, 0.25f32.to_bits());
    assert_eq!(pattern(7.0).clamp_to_unit().bits, 1.0f32.to_bits());
    assert_eq!(pattern(-7.0).clamp_to_unit().bits, 0);
}

#[test]
fn truncation_keeps_the_whole_part_modulo_256() {
    let mut stream = Stream { state: 11 };
    for _ in 0..50_000 {
        let a: u32 = stream.pattern() & 0x7fff_ffff;
        let value = f32::from_bits(a);
        if value.is_finite() {
            // Every finite value fits in 128 bits, so this cast keeps the
            // whole part and the next one reduces it modulo 256.
            let want: u8 = (value as u128) as u8;
            assert_eq!(Binary32 { bits: a }.truncate_to_byte(), want, "{:#x}", a);
            if value < 256.0 {
                assert_eq!(Binary32 { bits: a }.truncate_to_byte(), value as u8, "{:#x}", a);
            }
        }
    }
    assert_eq!(pattern(0.999).truncate_to_byte(), 0);
    assert_eq!(pattern(255.5).truncate_to_byte(), 255);
    assert_eq!(pattern(256.5).truncate_to_byte(), 0);
    assert_eq!(pattern(300.25).truncate_to_byte(), 44);
    assert_eq!(pattern(-3.0).truncate_to_byte(), 0);
    assert_eq!(Binary32::infinity(false).truncate_to_byte(), 0);
    assert_eq!(Binary32::infinity(true).truncate_to_byte(), 0);
    assert_eq!(Binary32::nan().truncate_to_byte(), 0);
}

#[test]
fn bit_length_counts_up_to_the_highest_set_bit() {
    assert_eq!(bit_length(0), 0);
    assert_eq!(bit_length(1), 1);
    assert_eq!(bit_length(2), 2);
    assert_eq!(bit_length(255), 8);
    assert_eq!(bit_length(256), 9);
    assert_eq!(bit_length(0x00ff_ffff), 24);
    assert_eq!(bit_length(u64::MAX), 64);
    for k in 0..64u32 {
        assert_eq!(bit_length(1u64 << k), k + 1);
        assert_eq!(bit_length((1u64 << k) - 1), k);
    }
}

#[test]
fn powers_of_two_in_a_word() {
    assert_eq!(pow2_u64(0), 1);
    assert_eq!(pow2_u64(10), 1024);
    assert_eq!(pow2_u64(63), 0x8000_0000_0000_0000);
}

#[test]
fn round_pack_rounds_a_ratio_of_units() {
    // Three halves: 3 * 2^149 units over 2.
    assert_eq!(round_pack(false, 3, 149, 2, 0).bits, 1.5f32.to_bits());
    // One third, which has no exact pattern.
    assert_eq!(round_pack(false, 1, 149, 3, 0).bits, (1.0f32 / 3.0f32).to_bits());
    assert_eq!(round_pack(true, 1, 149, 3, 0).bits, (-1.0f32 / 3.0f32).to_bits());
    // Half a unit is a tie and goes to the even neighbour, zero; three
    // halves of a unit go to two.
    assert_eq!(round_pack(false, 1, 0, 2, 0).bits, 0);
    assert_eq!(round_pack(false, 3, 0, 2, 0).bits, 2);
    assert_eq!(round_pack(false, 1, 0, 1, 0).bits, 1);
    assert_eq!(round_pack(false, 0, 7, 5, 3).bits, 0);
    assert_eq!(round_pack(true, 0, 7, 5, 3).bits, 0x8000_0000);
    // 2^128 does not fit.
    assert_eq!(round_pack(false, 1, 277, 1, 0).bits, 0x7f80_0000);
    assert_eq!(round_pack(false, 0x00ff_ffff, 253, 1, 0).bits, 0x7f7f_ffff);
}

#[test]
fn decode_tells_the_kinds_apart() {
    assert_eq!(Binary32::nan().decode().class, Class::Nan);
    assert_eq!(Binary32::infinity(true).decode().class, Class::Infinite);
    assert!(Binary32::infinity(true).decode().negative);
    let one = Binary32::one().decode();
    assert_eq!(one.class, Class::Finite);
    assert_eq!((one.negative, one.significand, one.shift), (false, 0x0080_0000, 126));
    let least = Binary32 { bits: 1 }.decode();
    assert_eq!((least.significand, least.shift), (1, 0));
}
