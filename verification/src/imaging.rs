use vstd::prelude::*;
use crate::colorize::Colorizer;
use crate::frame::{DisplayColor, FRAME_WIDTH, FRAME_HEIGHT, FRAME_SAMPLES, sample_index, sample_position};

verus! {

/// A display frame: a grid of pixels kept in an `image::RgbaImage`. The
/// verifier does not look into the image; what it holds goes by the name
/// `frame_rows`.
#[verifier::external_body]
pub struct Frame {
    buffer: image::RgbaImage,
}

/// The pixels that a frame holds, row by row from the top, each row from
/// the left, each pixel as its red, green, blue and opacity channels.
pub uninterp spec fn frame_rows(frame: Frame) -> Seq<Seq<(u8, u8, u8, u8)>>;

/// One channel of a pixel, by its place in the pixel.
pub open spec fn channel_of(pixel: (u8, u8, u8, u8), place: int) -> u8 {
    if place == 0 {
        pixel.0
    } else if place == 1 {
        pixel.1
    } else if place == 2 {
        pixel.2
    } else {
        pixel.3
    }
}

/// The bytes of a grid of pixels: row after row, pixel after pixel, four
/// channels each.
pub open spec fn packed_bytes(rows: Seq<Seq<(u8, u8, u8, u8)>>) -> Seq<u8> {
    let width = if rows.len() == 0 {
        0
    } else {
        rows[0].len()
    };
    Seq::new(
        4 * width * rows.len(),
        |i: int| channel_of(rows[(i / 4) / (width as int)][(i / 4) % (width as int)], i % 4),
    )
}

/// Where the pixels of a frame come from.
pub enum Source<'a> {
    /// Depth samples, one per pixel, shown through a colorizer.
    Depth { colorizer: Colorizer, samples: &'a [u16] },
    /// Colour samples: red, green and blue bytes for each pixel.
    Video { bytes: &'a [u8] },
}

impl<'a> Source<'a> {
    /// The source holds at least one full frame.
    pub open spec fn complete(self) -> bool {
        match self {
            Source::Depth { samples, .. } => samples@.len() >= FRAME_SAMPLES,
            Source::Video { bytes } => bytes@.len() >= 3 * FRAME_SAMPLES,
        }
    }

    /// The pixel that the source gives at (`x`, `y`).
    pub open spec fn pixel(self, x: int, y: int) -> DisplayColor {
        match self {
            Source::Depth { colorizer, samples } => colorizer.pixel(samples@, x, y),
            Source::Video { bytes } => {
                let at = 3 * sample_index(x, y);
                DisplayColor { red: bytes@[at], green: bytes@[at + 1], blue: bytes@[at + 2], alpha: 255 }
            },
        }
    }

    /// The whole grid that the source gives, as rows of channel tuples.
    pub open spec fn rows(self, width: nat, height: nat) -> Seq<Seq<(u8, u8, u8, u8)>> {
        Seq::new(height, |y: int| Seq::new(width, |x: int| self.pixel(x, y).channels()))
    }

    /// Computes the pixel that the source gives at (`x`, `y`).
    pub fn pixel_at(&self, x: u32, y: u32) -> (color: DisplayColor)
        requires
            self.complete(),
            x < FRAME_WIDTH,
            y < FRAME_HEIGHT,
        ensures
            color == self.pixel(x as int, y as int),
    {
        match self {
            Source::Depth { colorizer, samples } => colorizer.pixel_at(samples, x, y),
            Source::Video { bytes } => {
                let at: usize = 3 * sample_position(x, y);
                DisplayColor { red: bytes[at], green: bytes[at + 1], blue: bytes[at + 2], alpha: 255 }
            },
        }
    }
}

/// `image::ImageBuffer::from_fn`: builds an image of the given size in which
/// the pixel at column `x` of row `y` is what the function handed to it
/// returns for (`x`, `y`).
#[verifier::external_body]
fn image_from_source(width: u32, height: u32, source: &Source) -> (frame: Frame)
    requires
        width == FRAME_WIDTH,
        height == FRAME_HEIGHT,
        source.complete(),
    ensures
        frame_rows(frame) == source.rows(width as nat, height as nat),
{
    Frame { buffer: image::RgbaImage::from_fn(width, height, |x, y| image::Rgba(source.pixel_at(x, y).to_bytes())) }
}

/// `image::ImageBuffer::new`: builds an image of the given size in which
/// every channel of every pixel is zero.
#[verifier::external_body]
fn image_of_zeros(width: u32, height: u32) -> (frame: Frame)
    requires
        4 * width * height <= isize::MAX,
    ensures
        frame_rows(frame) == Seq::new(
            height as nat,
            |y: int| Seq::new(width as nat, |x: int| (0u8, 0u8, 0u8, 0u8)),
        ),
{
    Frame { buffer: image::RgbaImage::new(width, height) }
}

/// `image::ImageBuffer::as_raw`: the buffer of the image, which holds the
/// pixels row after row with four channels each; the result is a copy of it.
#[verifier::external_body]
fn image_as_raw(frame: &Frame) -> (bytes: Vec<u8>)
    ensures
        bytes@ == packed_bytes(frame_rows(*frame)),
{
    frame.buffer.as_raw().clone()
}

/// Whether a grid of pixels has the size of a frame and, at each place, the
/// pixel that `source` gives there.
pub open spec fn shows(rows: Seq<Seq<(u8, u8, u8, u8)>>, source: Source) -> bool {
    &&& rows.len() == FRAME_HEIGHT
    &&& forall|y: int| 0 <= y < FRAME_HEIGHT ==> (#[trigger] rows[y]).len() == FRAME_WIDTH
    &&& forall|x: int, y: int|
        0 <= x < FRAME_WIDTH && 0 <= y < FRAME_HEIGHT ==> (#[trigger] rows[y][x]) == source.pixel(
            x,
            y,
        ).channels()
}

/// Builds the frame that a source gives.
pub fn render_frame(source: &Source) -> (frame: Frame)
    requires
        source.complete(),
    ensures
        frame_rows(frame) == source.rows(FRAME_WIDTH as nat, FRAME_HEIGHT as nat),
        shows(frame_rows(frame), *source),
{
    image_from_source(FRAME_WIDTH, FRAME_HEIGHT, source)
}

/// Maps a frame of depth samples to a frame of pixels.
pub fn colorize_frame(colorizer: &Colorizer, samples: &[u16]) -> (frame: Frame)
    requires
        samples@.len() >= FRAME_SAMPLES,
    ensures
        shows(frame_rows(frame), Source::Depth { colorizer: *colorizer, samples }),
{
    render_frame(&Source::Depth { colorizer: *colorizer, samples })
}

/// Maps a frame of red, green and blue bytes to a frame of opaque pixels.
pub fn video_frame(bytes: &[u8]) -> (frame: Frame)
    requires
        bytes@.len() >= 3 * FRAME_SAMPLES,
    ensures
        shows(frame_rows(frame), Source::Video { bytes }),
{
    render_frame(&Source::Video { bytes })
}

/// The frame shown before any sample has arrived: every channel zero.
pub fn blank_frame() -> (frame: Frame)
    ensures
        frame_rows(frame).len() == FRAME_HEIGHT,
        forall|y: int| 0 <= y < FRAME_HEIGHT ==> (#[trigger] frame_rows(frame)[y]).len() == FRAME_WIDTH,
        forall|x: int, y: int|
            0 <= x < FRAME_WIDTH && 0 <= y < FRAME_HEIGHT ==> (#[trigger] frame_rows(frame)[y][x])
                == (0u8, 0u8, 0u8, 0u8),
{
    image_of_zeros(FRAME_WIDTH, FRAME_HEIGHT)
}

/// The frame to show next: the colorized samples where a frame of samples
/// has arrived, else the frame shown before.
pub fn next_frame(previous: Frame, colorizer: &Colorizer, arrived: Option<&[u16]>) -> (frame: Frame)
    requires
        arrived matches Some(samples) ==> samples@.len() >= FRAME_SAMPLES,
    ensures
        arrived is None ==> frame == previous,
        arrived matches Some(samples) ==> shows(
            frame_rows(frame),
            Source::Depth { colorizer: *colorizer, samples },
        ),
{
    match arrived {
        Some(samples) => colorize_frame(colorizer, samples),
        None => previous,
    }
}

/// Copies out the bytes of a frame for display: row after row, pixel after
/// pixel, red, green, blue and opacity.
pub fn frame_bytes(frame: &Frame) -> (bytes: Vec<u8>)
    ensures
        bytes@ == packed_bytes(frame_rows(*frame)),
{
    image_as_raw(frame)
}

} // verus!
