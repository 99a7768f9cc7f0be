use vstd::prelude::*;
use crate::frame::DisplayColor;

verus! {

/// Depth, in millimetres, up to which a sample is shown black.
pub const NEAR_LIMIT_MM: u16 = 600;

/// The intensity that stands for a millimetre reading: zero up to the near
/// limit, then one step for every two millimetres, capped at full white.
pub open spec fn gray_level(val: u16) -> u8 {
    if val <= NEAR_LIMIT_MM {
        0
    } else if (val - NEAR_LIMIT_MM) / 2 > 255 {
        255
    } else {
        ((val - NEAR_LIMIT_MM) / 2) as u8
    }
}

/// Maps a millimetre reading to an opaque gray pixel.
pub fn grayscale(val: u16) -> (color: DisplayColor)
    ensures
        color == DisplayColor::gray(gray_level(val)),
        val <= NEAR_LIMIT_MM ==> color == DisplayColor::gray(0),
        val >= NEAR_LIMIT_MM + 510 ==> color == DisplayColor::white(),
{
    let above: u16 = if val > NEAR_LIMIT_MM { val - NEAR_LIMIT_MM } else { 0 };
    let half: u16 = above / 2;
    let level: u8 = if half > 255 { 255 } else { half as u8 };
    DisplayColor { red: level, green: level, blue: level, alpha: 255 }
}

} // verus!
