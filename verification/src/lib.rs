//! False colour for depth frames of a Kinect sensor.
//!
//! A frame of raw samples becomes a frame of pixels, either by estimated
//! distance on a colour wheel or by millimetres in gray. The distance and
//! the colour curve are computed in IEEE 754 single precision, carried out
//! on bit patterns in integer arithmetic, so that every result is the same
//! on every machine.
//!
//! * `binary32`, `rounding`, `arith`, `classify`: single-precision numbers.
//! * `distance`, `spectrum`, `grayscale`: the mappings of one sample.
//! * `colorize`, `frame`, `imaging`: the mapping of a whole frame.
//! * `control`: what the viewer does on key presses.

pub mod arith;
pub mod binary32;
pub mod classify;
pub mod colorize;
pub mod control;
pub mod distance;
pub mod frame;
pub mod grayscale;
pub mod imaging;
pub mod power;
pub mod rounding;
pub mod spectrum;
