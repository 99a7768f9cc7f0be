use vstd::prelude::*;
use crate::binary32::Binary32;
use crate::distance::{distance_value, estimate_distance, lemma_distance_is_finite, LAST_READING_IN_RANGE};
use crate::frame::{DisplayColor, FRAME_WIDTH, FRAME_HEIGHT, FRAME_SAMPLES, is_center, sample_index, sample_position};
use crate::grayscale::{gray_level, grayscale};
use crate::spectrum::{color_value, distance_to_color};

verus! {

/// How the sensor encodes depth.
#[derive(Clone, Copy, Debug, PartialEq, Eq, Structural)]
pub enum CaptureMode {
    /// Raw 11-bit readings that are not linear in distance.
    Bit11,
    /// Readings in millimetres.
    Millimeter,
}

/// The mapping from depth samples to display pixels.
#[derive(Clone, Copy, Debug, PartialEq, Eq, Structural)]
pub struct Colorizer {
    /// The encoding of the samples, which selects the mapping.
    pub mode: CaptureMode,
    /// Whether the pixel at the centre of the grid is shown white.
    pub mark_center: bool,
}

impl Colorizer {
    /// The colour that stands for one sample.
    pub open spec fn sample_color(self, raw: u16) -> DisplayColor {
        match self.mode {
            CaptureMode::Bit11 => color_value(distance_value(raw)),
            CaptureMode::Millimeter => DisplayColor::gray(gray_level(raw)),
        }
    }

    /// The pixel shown at (`x`, `y`) for a frame of samples.
    pub open spec fn pixel(self, samples: Seq<u16>, x: int, y: int) -> DisplayColor {
        if self.mark_center && is_center(x, y) {
            DisplayColor::white()
        } else {
            self.sample_color(samples[sample_index(x, y)])
        }
    }

    /// Computes the colour that stands for one sample.
    pub fn color_of_sample(&self, raw: u16) -> (color: DisplayColor)
        ensures
            color == self.sample_color(raw),
    {
        match self.mode {
            CaptureMode::Bit11 => distance_to_color(estimate_distance(raw)),
            CaptureMode::Millimeter => grayscale(raw),
        }
    }

    /// Computes the pixel shown at (`x`, `y`) for a frame of samples.
    pub fn pixel_at(&self, samples: &[u16], x: u32, y: u32) -> (color: DisplayColor)
        requires
            samples@.len() >= FRAME_SAMPLES,
            x < FRAME_WIDTH,
            y < FRAME_HEIGHT,
        ensures
            color == self.pixel(samples@, x as int, y as int),
    {
        if self.mark_center && x == FRAME_WIDTH / 2 && y == FRAME_HEIGHT / 2 {
            DisplayColor { red: 255, green: 255, blue: 255, alpha: 255 }
        } else {
            self.color_of_sample(samples[sample_position(x, y)])
        }
    }
}

/// The distance estimated for the sample at the centre of the grid.
pub fn center_distance(samples: &[u16]) -> (distance: Binary32)
    requires
        samples@.len() >= FRAME_SAMPLES,
    ensures
        distance@ == distance_value(
            samples@[sample_index(FRAME_WIDTH as int / 2, FRAME_HEIGHT as int / 2)],
        ),
{
    estimate_distance(samples[sample_position(FRAME_WIDTH / 2, FRAME_HEIGHT / 2)])
}

/// In the 11-bit mode every reading past the last one in range stands for a
/// distance below zero and is shown black.
pub proof fn lemma_out_of_range_is_black(raw: u16)
    requires
        raw > LAST_READING_IN_RANGE,
    ensures
        (Colorizer { mode: CaptureMode::Bit11, mark_center: false }).sample_color(raw)
            == DisplayColor::gray(0),
{
    lemma_distance_is_finite(raw);
}

/// In the millimetre mode every reading up to 600 is shown black and every
/// reading from 1110 on white.
pub proof fn lemma_gray_ends(raw: u16)
    ensures
        raw <= 600 ==> (Colorizer { mode: CaptureMode::Millimeter, mark_center: false }).sample_color(
            raw,
        ) == DisplayColor::gray(0),
        raw >= 1110 ==> (Colorizer { mode: CaptureMode::Millimeter, mark_center: false }).sample_color(
            raw,
        ) == DisplayColor::white(),
{
}

} // verus!
