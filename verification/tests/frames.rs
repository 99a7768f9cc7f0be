use depth_colorizer::colorize::{center_distance, CaptureMode, Colorizer};
use depth_colorizer::control::{Action, InputHandler, Key, TILT_STEP_DEGREES};
use depth_colorizer::distance::estimate_distance;
use depth_colorizer::frame::{sample_position, DisplayColor, FRAME_HEIGHT, FRAME_SAMPLES, FRAME_WIDTH};
use depth_colorizer::imaging::{blank_frame, colorize_frame, frame_bytes, next_frame, video_frame, Source};

fn ramp() -> Vec<u16> {
    let mut samples: Vec<u16> = Vec::with_capacity(FRAME_SAMPLES);
    for i in 0..FRAME_SAMPLES {
        samples.push((i % 2048) as u16);
    }
    samples
}

fn pixel_in(bytes: &[u8], x: u32, y: u32) -> DisplayColor {
    let at: usize = 4 * (y as usize * 640 + x as usize);
    DisplayColor { red: bytes[at], green: bytes[at + 1], blue: bytes[at + 2], alpha: bytes[at + 3] }
}

#[test]
fn frame_constants() {
    assert_eq!(FRAME_WIDTH, 640);
    assert_eq!(FRAME_HEIGHT, 480);
    assert_eq!(FRAME_SAMPLES, 640 * 480);
}

#[test]
fn sample_positions_are_row_major() {
    assert_eq!(sample_position(0, 0), 0);
    assert_eq!(sample_position(639, 0), 639);
    assert_eq!(sample_position(0, 1), 640);
    assert_eq!(sample_position(320, 240), 153_920);
    assert_eq!(sample_position(639, 479), 307_199);
}

#[test]
fn pixel_bytes_are_in_channel_order() {
    let color = DisplayColor { red: 1, green: 2, blue: 3, alpha: 4 };
    assert_eq!(color.to_bytes(), [1, 2, 3, 4]);
}

#[test]
fn millimetre_frame_has_the_size_of_its_input() {
    let samples = ramp();
    let colorizer = Colorizer { mode: CaptureMode::Millimeter, mark_center: false };
    let bytes = frame_bytes(&colorize_frame(&colorizer, &samples));
    assert_eq!(bytes.len(), 640 * 480 * 4);
}

#[test]
fn millimetre_frame_shows_gray_levels() {
    let samples = ramp();
    let colorizer = Colorizer { mode: CaptureMode::Millimeter, mark_center: false };
    let bytes = frame_bytes(&colorize_frame(&colorizer, &samples));
    for y in 0..480u32 {
        for x in 0..640u32 {
            let raw: u16 = samples[(y * 640 + x) as usize];
            let level: u8 = if raw > 600 { ((raw - 600) / 2).min(255) as u8 } else { 0 };
            assert_eq!(
                pixel_in(&bytes, x, y),
                DisplayColor { red: level, green: level, blue: level, alpha: 255 }
            );
        }
    }
}

#[test]
fn distance_frame_shows_the_color_of_each_sample() {
    let samples = ramp();
    let colorizer = Colorizer { mode: CaptureMode::Bit11, mark_center: false };
    let bytes = frame_bytes(&colorize_frame(&colorizer, &samples));
    assert_eq!(bytes.len(), 640 * 480 * 4);
    let mut at: usize = 0;
    while at < FRAME_SAMPLES {
        let x: u32 = (at % 640) as u32;
        let y: u32 = (at / 640) as u32;
        assert_eq!(pixel_in(&bytes, x, y), colorizer.color_of_sample(samples[at]));
        at += 97;
    }
    // The sample 0 stands for about 0.3002 metres.
    assert_eq!(pixel_in(&bytes, 0, 0), DisplayColor { red: 179, green: 255, blue: 0, alpha: 255 });
}

#[test]
fn center_pixel_is_white_when_marked() {
    let samples = ramp();
    let marked = Colorizer { mode: CaptureMode::Bit11, mark_center: true };
    let plain = Colorizer { mode: CaptureMode::Bit11, mark_center: false };
    let white = DisplayColor { red: 255, green: 255, blue: 255, alpha: 255 };
    assert_eq!(marked.pixel_at(&samples, 320, 240), white);
    assert_eq!(plain.pixel_at(&samples, 320, 240), plain.color_of_sample(samples[153_920]));
    assert_ne!(plain.pixel_at(&samples, 320, 240), white);
    assert_eq!(marked.pixel_at(&samples, 321, 240), plain.pixel_at(&samples, 321, 240));
    assert_eq!(marked.pixel_at(&samples, 320, 241), plain.pixel_at(&samples, 320, 241));
    let gray = Colorizer { mode: CaptureMode::Millimeter, mark_center: true };
    let bytes = frame_bytes(&colorize_frame(&gray, &samples));
    assert_eq!(pixel_in(&bytes, 320, 240), white);
    assert_eq!(pixel_in(&bytes, 319, 240), DisplayColor { red: 0, green: 0, blue: 0, alpha: 255 });
}

#[test]
fn center_distance_is_that_of_the_center_sample() {
    let samples = ramp();
    assert_eq!(center_distance(&samples), estimate_distance(samples[153_920]));
}

#[test]
fn samples_beyond_one_frame_are_left_aside() {
    let mut samples = ramp();
    let colorizer = Colorizer { mode: CaptureMode::Millimeter, mark_center: false };
    let short = frame_bytes(&colorize_frame(&colorizer, &samples));
    samples.push(4000);
    samples.push(5000);
    let long = frame_bytes(&colorize_frame(&colorizer, &samples));
    assert_eq!(short, long);
}

#[test]
fn video_frame_adds_full_opacity() {
    let mut bytes: Vec<u8> = Vec::with_capacity(3 * FRAME_SAMPLES);
    for i in 0..3 * FRAME_SAMPLES {
        bytes.push((i % 251) as u8);
    }
    let shown = frame_bytes(&video_frame(&bytes));
    assert_eq!(shown.len(), 4 * FRAME_SAMPLES);
    for i in 0..FRAME_SAMPLES {
        assert_eq!(shown[4 * i], bytes[3 * i]);
        assert_eq!(shown[4 * i + 1], bytes[3 * i + 1]);
        assert_eq!(shown[4 * i + 2], bytes[3 * i + 2]);
        assert_eq!(shown[4 * i + 3], 255);
    }
}

#[test]
fn source_gives_the_pixel_of_each_kind() {
    let samples = ramp();
    let colorizer = Colorizer { mode: CaptureMode::Millimeter, mark_center: false };
    let depth = Source::Depth { colorizer, samples: &samples };
    assert_eq!(depth.pixel_at(10, 2), colorizer.pixel_at(&samples, 10, 2));
    let bytes: Vec<u8> = vec![7; 3 * FRAME_SAMPLES];
    let video = Source::Video { bytes: &bytes };
    assert_eq!(video.pixel_at(5, 5), DisplayColor { red: 7, green: 7, blue: 7, alpha: 255 });
}

#[test]
fn blank_frame_is_all_zero() {
    let bytes = frame_bytes(&blank_frame());
    assert_eq!(bytes.len(), 4 * FRAME_SAMPLES);
    assert!(bytes.iter().all(|b| *b == 0));
}

#[test]
fn next_frame_keeps_the_old_one_when_nothing_arrived() {
    let samples = ramp();
    let colorizer = Colorizer { mode: CaptureMode::Millimeter, mark_center: false };
    let first = next_frame(blank_frame(), &colorizer, Some(&samples));
    let shown = frame_bytes(&first);
    assert_eq!(shown, frame_bytes(&colorize_frame(&colorizer, &samples)));
    let second = next_frame(first, &colorizer, None);
    assert_eq!(frame_bytes(&second), shown);
    let blank = next_frame(blank_frame(), &colorizer, None);
    assert_eq!(frame_bytes(&blank), frame_bytes(&blank_frame()));
}

#[test]
fn arrow_keys_tilt_by_ten_degrees() {
    let mut handler = InputHandler::new();
    assert_eq!(TILT_STEP_DEGREES, 10);
    assert_eq!(handler.key_event(Some(Key::Up)), Action::TiltBy { degrees: 10 });
    assert_eq!(handler.key_event(Some(Key::Down)), Action::TiltBy { degrees: -10 });
    assert!(!handler.is_closed);
}

#[test]
fn q_key_ends_the_viewer() {
    let mut handler = InputHandler::new();
    assert!(!handler.is_closed);
    assert_eq!(handler.key_event(Some(Key::Other)), Action::Nothing);
    assert_eq!(handler.key_event(None), Action::Nothing);
    assert!(!handler.is_closed);
    assert_eq!(handler.key_event(Some(Key::Q)), Action::Nothing);
    assert!(handler.is_closed);
    assert_eq!(handler.key_event(Some(Key::Up)), Action::TiltBy { degrees: 10 });
    assert!(handler.is_closed);
}

#[test]
fn closing_the_window_ends_the_viewer() {
    let mut handler = InputHandler::new();
    handler.close_event();
    assert!(handler.is_closed);
}
