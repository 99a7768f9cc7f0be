use depth_colorizer::binary32::Binary32;
use depth_colorizer::colorize::{CaptureMode, Colorizer};
use depth_colorizer::distance::{estimate_distance, LAST_READING_IN_RANGE, OFFSET_BITS, SLOPE_BITS};
use depth_colorizer::frame::DisplayColor;
use depth_colorizer::grayscale::grayscale;
use depth_colorizer::spectrum::{distance_to_color, spectrum_curve};

fn hardware_distance(raw: u16) -> f32 {
    1.0 / (raw as f32 * -0.0030711016 + 3.3309495161)
}

fn hardware_curve(input: f32) -> f32 {
    f32::min(f32::max(2.0 - input.abs(), 0.0), 1.0) * 255.0
}

/// The colour curve in hardware arithmetic. The distance is reduced modulo
/// 256 before its whole part is taken away.
fn hardware_color(distance: f32) -> (u8, u8, u8) {
    if distance < 0.0 {
        return (0, 0, 0);
    }
    let reduced: f32 = distance % 256.0;
    let decimal: f32 = reduced - ((reduced as u8) as f32);
    let square: f32 = decimal * decimal;
    let cube: f32 = square * decimal;
    let spectrum: f32 = 6.0 * ((3.0 * square) - (2.0 * cube));
    let red = hardware_curve(((spectrum + 2.0) % 6.0) - 2.0);
    let green = hardware_curve(spectrum - 2.0);
    let blue = hardware_curve(((spectrum + 4.0) % 6.0) - 2.0);
    (red as u8, green as u8, blue as u8)
}

fn level_of(input: f32) -> f32 {
    f32::from_bits(spectrum_curve(Binary32 { bits: input.to_bits() }).bits)
}

fn color_of(distance: f32) -> (u8, u8, u8) {
    let color = distance_to_color(Binary32 { bits: distance.to_bits() });
    assert_eq!(color.alpha, 255);
    (color.red, color.green, color.blue)
}

#[test]
fn calibration_constants_are_the_nearest_patterns() {
    assert_eq!(SLOPE_BITS, (-0.0030711016f32).to_bits());
    assert_eq!(OFFSET_BITS, 3.3309495161f32.to_bits());
}

#[test]
fn distance_matches_hardware_for_every_reading() {
    for raw in 0..=65535u16 {
        let got = estimate_distance(raw);
        assert_eq!(got.bits, hardware_distance(raw).to_bits(), "raw {}", raw);
    }
}

#[test]
fn distance_is_the_same_on_every_call() {
    for raw in [0u16, 1, 500, 1084, 1085, 2047, 65535] {
        assert_eq!(estimate_distance(raw), estimate_distance(raw));
    }
}

#[test]
fn distance_is_finite_for_every_reading() {
    for raw in 0..=65535u16 {
        assert!(f32::from_bits(estimate_distance(raw).bits).is_finite(), "raw {}", raw);
    }
}

#[test]
fn distance_of_zero_reading() {
    let distance = f32::from_bits(estimate_distance(0).bits);
    assert_eq!(distance, 1.0f32 / 3.3309495161f32);
    assert!((distance - 0.3002).abs() < 0.0001);
}

#[test]
fn distance_turns_negative_past_the_pole() {
    assert!(f32::from_bits(estimate_distance(1084).bits) > 500.0);
    // About 533.22 metres: the colour is that of 21.22 metres.
    assert_eq!(
        color_of(f32::from_bits(estimate_distance(1084).bits)),
        hardware_color(533.2194)
    );
    assert!(f32::from_bits(estimate_distance(1085).bits) < -800.0);
    assert_eq!(color_of(f32::from_bits(estimate_distance(1085).bits)), (0, 0, 0));
}

#[test]
fn negative_distance_is_black() {
    assert_eq!(color_of(-1.0), (0, 0, 0));
    assert_eq!(color_of(-0.000001), (0, 0, 0));
    assert_eq!(color_of(-1.0e30), (0, 0, 0));
    assert_eq!(color_of(f32::NEG_INFINITY), (0, 0, 0));
    assert_eq!(
        distance_to_color(Binary32 { bits: (-1.0f32).to_bits() }),
        DisplayColor { red: 0, green: 0, blue: 0, alpha: 255 }
    );
}

#[test]
fn color_of_zero_distance_is_red() {
    assert_eq!(color_of(0.0), (255, 0, 0));
    assert_eq!(color_of(-0.0), (255, 0, 0));
}

#[test]
fn colors_along_one_turn_of_the_wheel() {
    assert_eq!(color_of(0.25), (255, 239, 0));
    assert_eq!(color_of(0.5), (0, 255, 255));
    assert_eq!(color_of(0.75), (255, 0, 239));
    assert_eq!(color_of(0.3002), (179, 255, 0));
    assert_ne!(color_of(0.5), color_of(0.0));
}

#[test]
fn color_repeats_with_the_whole_part() {
    assert_eq!(color_of(1.5), color_of(0.5));
    assert_eq!(color_of(7.25), color_of(0.25));
    assert_eq!(color_of(255.5), color_of(0.5));
}

#[test]
fn color_repeats_after_256() {
    assert_eq!(color_of(256.0), (255, 0, 0));
    assert_eq!(color_of(256.5), (0, 255, 255));
    assert_eq!(color_of(256.25), (255, 239, 0));
    assert_eq!(color_of(512.75), color_of(0.75));
    assert_eq!(color_of(65536.5), color_of(0.5));
    for step in 0..4096u32 {
        let distance: f32 = step as f32 * 0.0625;
        assert_eq!(color_of(distance + 256.0), color_of(distance), "distance {}", distance);
    }
    // From 2^24 on every distance is a whole number.
    assert_eq!(color_of(1.0e30), (255, 0, 0));
}

#[test]
fn distance_that_is_not_finite_is_black() {
    assert_eq!(color_of(f32::INFINITY), (0, 0, 0));
    assert_eq!(color_of(f32::NAN), (0, 0, 0));
}

#[test]
fn color_matches_hardware_for_every_reading() {
    for raw in 0..=65535u16 {
        let distance = hardware_distance(raw);
        assert_eq!(color_of(distance), hardware_color(distance), "raw {}", raw);
    }
}

#[test]
fn color_matches_hardware_across_the_wheel() {
    for step in 0..=100_000u32 {
        let distance: f32 = step as f32 * 0.00257;
        assert_eq!(color_of(distance), hardware_color(distance), "distance {}", distance);
    }
    let mut state: u64 = 99;
    for _ in 0..100_000 {
        state = state.wrapping_mul(6364136223846793005).wrapping_add(1442695040888963407);
        let distance = f32::from_bits((state >> 32) as u32);
        assert_eq!(color_of(distance), hardware_color(distance), "distance {}", distance);
    }
}

#[test]
fn curve_matches_hardware() {
    for step in 0..=80_000u32 {
        let input: f32 = step as f32 * 0.0001 - 4.0;
        assert_eq!(level_of(input).to_bits(), hardware_curve(input).to_bits(), "input {}", input);
    }
    let mut state: u64 = 7;
    for _ in 0..100_000 {
        state = state.wrapping_mul(6364136223846793005).wrapping_add(1442695040888963407);
        let input = f32::from_bits((state >> 32) as u32);
        assert_eq!(level_of(input).to_bits(), hardware_curve(input).to_bits(), "input {}", input);
    }
}

#[test]
fn curve_is_a_trapezoid() {
    assert_eq!(level_of(0.0), 255.0);
    assert_eq!(level_of(1.0), 255.0);
    assert_eq!(level_of(-1.0), 255.0);
    assert_eq!(level_of(1.5), 127.5);
    assert_eq!(level_of(-1.5), 127.5);
    assert_eq!(level_of(1.25), 191.25);
    assert_eq!(level_of(2.0), 0.0);
    assert_eq!(level_of(-2.0), 0.0);
    assert_eq!(level_of(1000.0), 0.0);
    assert_eq!(level_of(f32::INFINITY), 0.0);
    assert_eq!(level_of(f32::NAN), 0.0);
    // Just inside the ends the level is neither 255 nor 0.
    let past_one = f32::from_bits(1.0f32.to_bits() + 1);
    let before_two = f32::from_bits(2.0f32.to_bits() - 1);
    assert!(level_of(past_one) < 255.0 && level_of(past_one) > 254.9);
    assert!(level_of(before_two) > 0.0 && level_of(before_two) < 0.0001);
    // The cut to a byte drops what is behind the point.
    assert_eq!(spectrum_curve(Binary32 { bits: 1.5f32.to_bits() }).truncate_to_byte(), 127);
    assert_eq!(spectrum_curve(Binary32 { bits: before_two.to_bits() }).truncate_to_byte(), 0);
}

#[test]
fn millimetres_map_to_gray() {
    assert_eq!(grayscale(600), DisplayColor { red: 0, green: 0, blue: 0, alpha: 255 });
    assert_eq!(grayscale(1110), DisplayColor { red: 255, green: 255, blue: 255, alpha: 255 });
    assert_eq!(grayscale(0), DisplayColor { red: 0, green: 0, blue: 0, alpha: 255 });
    assert_eq!(grayscale(599), DisplayColor { red: 0, green: 0, blue: 0, alpha: 255 });
    assert_eq!(grayscale(601), DisplayColor { red: 0, green: 0, blue: 0, alpha: 255 });
    assert_eq!(grayscale(602), DisplayColor { red: 1, green: 1, blue: 1, alpha: 255 });
    assert_eq!(grayscale(1000), DisplayColor { red: 200, green: 200, blue: 200, alpha: 255 });
    assert_eq!(grayscale(1109), DisplayColor { red: 254, green: 254, blue: 254, alpha: 255 });
    assert_eq!(grayscale(65535), DisplayColor { red: 255, green: 255, blue: 255, alpha: 255 });
}

#[test]
fn gray_below_the_near_limit_is_black() {
    for val in 0..=600u16 {
        assert_eq!(grayscale(val), DisplayColor { red: 0, green: 0, blue: 0, alpha: 255 });
    }
}

#[test]
fn readings_past_the_last_in_range_are_black() {
    assert_eq!(LAST_READING_IN_RANGE, 1084);
    let colorizer = Colorizer { mode: CaptureMode::Bit11, mark_center: false };
    let black = DisplayColor { red: 0, green: 0, blue: 0, alpha: 255 };
    for raw in 0..=65535u16 {
        let distance = estimate_distance(raw);
        assert_eq!(distance.is_below_zero(), raw > 1084, "raw {}", raw);
        if raw > 1084 {
            assert_eq!(colorizer.color_of_sample(raw), black, "raw {}", raw);
        } else {
            assert_ne!(colorizer.color_of_sample(raw), black, "raw {}", raw);
        }
    }
}
