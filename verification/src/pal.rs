//! The palette: an ordered, fixed-length sequence of colors, each with a
//! popularity weight that is consulted only while the tree is built.

use vstd::prelude::*;
use crate::color::Color;

verus! {

/// A small unsigned integer identifying one entry of the palette.
pub type PalIndex = u8;

/// The largest number of entries a palette may hold: one more than the
/// largest value a `PalIndex` can take.
pub const MAX_COLORS: usize = 256;

/// An ordered palette of colors with a popularity weight per entry.
pub struct Palette {
    pub colors: Vec<Color>,
    pub weights: Vec<u32>,
}

impl Palette {
    /// One weight per color, and every color well-formed.
    pub open spec fn wf(self) -> bool {
        self.colors@.len() == self.weights@.len()
            && forall|i: int| 0 <= i < self.colors@.len() ==> (#[trigger] self.colors@[i]).wf()
    }

    /// Build a palette from parallel lists of colors and weights.
    pub fn new(colors: Vec<Color>, weights: Vec<u32>) -> (p: Palette)
        requires
            colors@.len() == weights@.len(),
            forall|i: int| 0 <= i < colors@.len() ==> (#[trigger] colors@[i]).wf(),
        ensures
            p.wf(),
            p.colors@ == colors@,
            p.weights@ == weights@,
    {
        Palette { colors, weights }
    }

    /// The number of entries.
    pub fn len(&self) -> (n: usize)
        ensures
            n == self.colors@.len(),
    {
        self.colors.len()
    }
}

} // verus!
