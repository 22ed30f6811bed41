//! Nearest-palette-color engine: a perceptual color metric over
//! alpha-premultiplied colors and a vantage-point tree built over a palette,
//! answering "which palette entry is closest to this color?" queries.

pub mod bounds;
pub mod color;
pub mod nearest;
pub mod pal;
pub mod seacow;
pub mod simd;

use vstd::prelude::*;

verus! {

/// The one failure mode of this crate: tree construction over an empty
/// palette, or over one with more entries than a palette index can address.
#[derive(Clone, Copy, Debug, PartialEq, Eq, Structural)]
pub enum Error {
    Unsupported,
}

} // verus!
