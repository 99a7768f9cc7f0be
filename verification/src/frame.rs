use vstd::prelude::*;

verus! {

/// Number of samples in one row of a sensor frame.
pub const FRAME_WIDTH: u32 = 640;

/// Number of rows in a sensor frame.
pub const FRAME_HEIGHT: u32 = 480;

/// Number of samples in a whole sensor frame.
pub const FRAME_SAMPLES: usize = 307200;

/// One display pixel: three colour channels and an opacity channel.
#[derive(Clone, Copy, Debug, PartialEq, Eq, Structural)]
pub struct DisplayColor {
    pub red: u8,
    pub green: u8,
    pub blue: u8,
    pub alpha: u8,
}

impl DisplayColor {
    /// The four channels in the order in which a pixel buffer stores them.
    pub open spec fn channels(self) -> (u8, u8, u8, u8) {
        (self.red, self.green, self.blue, self.alpha)
    }

    /// A fully opaque pixel with the same value in every colour channel.
    pub open spec fn gray(level: u8) -> DisplayColor {
        DisplayColor { red: level, green: level, blue: level, alpha: 255 }
    }

    /// Fully opaque white.
    pub open spec fn white() -> DisplayColor {
        DisplayColor::gray(255)
    }

    /// The channels as the byte array that a pixel buffer takes.
    pub fn to_bytes(self) -> (bytes: [u8; 4])
        ensures
            bytes@ == seq![self.red, self.green, self.blue, self.alpha],
    {
        [self.red, self.green, self.blue, self.alpha]
    }
}

/// Position of the sample for pixel (`x`, `y`) in a row-major frame.
pub open spec fn sample_index(x: int, y: int) -> int {
    y * FRAME_WIDTH + x
}

/// Whether (`x`, `y`) is the pixel at the exact centre of the grid.
pub open spec fn is_center(x: int, y: int) -> bool {
    x == FRAME_WIDTH / 2 && y == FRAME_HEIGHT / 2
}

/// Computes the position of the sample for pixel (`x`, `y`).
pub fn sample_position(x: u32, y: u32) -> (idx: usize)
    requires
        x < FRAME_WIDTH,
        y < FRAME_HEIGHT,
    ensures
        idx == sample_index(x as int, y as int),
        idx < FRAME_SAMPLES,
{
    let row: u32 = y * FRAME_WIDTH;
    (row + x) as usize
}

} // verus!
