//! The perceptual color-distance metric.
//!
//! A color has four channels (alpha, red, green, blue), alpha-premultiplied,
//! each a fixed-point value in `0 ..= CHANNEL_ONE` standing for the normalized
//! range `[0, 1]`. All distance arithmetic is exact integer arithmetic, so the
//! metric is deterministic on every machine.

use vstd::prelude::*;

verus! {

/// Fixed-point representation of the normalized channel value `1.0`.
pub const CHANNEL_ONE: u32 = 65536;

/// Upper bound on any squared distance the metric can return for
/// well-formed colors: three channels, each at most `(2 * CHANNEL_ONE)^2`.
pub const MAX_DIFF: u64 = 51539607552;

/// A 4-channel alpha-premultiplied color; each channel is a fixed-point
/// value in `0 ..= CHANNEL_ONE`.
#[derive(Clone, Copy, Debug, PartialEq, Eq, Structural)]
pub struct Color {
    pub a: u32,
    pub r: u32,
    pub g: u32,
    pub b: u32,
}

impl Color {
    /// Every channel lies in the normalized fixed-point range.
    pub open spec fn wf(self) -> bool {
        self.a <= CHANNEL_ONE
            && self.r <= CHANNEL_ONE
            && self.g <= CHANNEL_ONE
            && self.b <= CHANNEL_ONE
    }
}

impl Default for Color {
    /// The zero color: fully transparent black.
    fn default() -> (c: Color)
        ensures
            c == (Color { a: 0, r: 0, g: 0, b: 0 }),
            c.wf(),
    {
        Color { a: 0, r: 0, g: 0, b: 0 }
    }
}

/// Squared contribution of one color channel: the difference as composited
/// on a black background, and on a white background (the black difference
/// shifted by the alpha difference); the larger square of the two counts.
pub open spec fn chan_term(av: int, aa: int, bv: int, ba: int) -> int {
    let black = av - bv;
    let white = black + (ba - aa);
    vstd::math::max(black * black, white * white)
}

/// The squared perceptual distance between two colors: the sum of the three
/// per-channel maxima. The alpha channel contributes no term of its own; its
/// effect is folded into the white-background shift.
pub open spec fn spec_diff(x: Color, y: Color) -> int {
    chan_term(x.r as int, x.a as int, y.r as int, y.a as int)
        + chan_term(x.g as int, x.a as int, y.g as int, y.a as int)
        + chan_term(x.b as int, x.a as int, y.b as int, y.a as int)
}

proof fn lemma_square_nonneg(x: int)
    ensures
        x * x >= 0,
{
    assert(x * x >= 0) by (nonlinear_arith);
}

proof fn lemma_square_bound(x: int, b: int)
    requires
        -b <= x <= b,
        0 <= b,
    ensures
        x * x <= b * b,
{
    assert(x * x <= b * b) by (nonlinear_arith)
        requires
            -b <= x <= b,
            0 <= b,
    ;
}

/// A channel term is a square, so it is non-negative; for well-formed
/// channel values it is at most `(2 * CHANNEL_ONE)^2`.
proof fn lemma_chan_term_bounds(av: int, aa: int, bv: int, ba: int)
    requires
        0 <= av <= CHANNEL_ONE,
        0 <= aa <= CHANNEL_ONE,
        0 <= bv <= CHANNEL_ONE,
        0 <= ba <= CHANNEL_ONE,
    ensures
        0 <= chan_term(av, aa, bv, ba),
        chan_term(av, aa, bv, ba) <= 4 * (CHANNEL_ONE as int) * (CHANNEL_ONE as int),
{
    let black = av - bv;
    let white = black + (ba - aa);
    lemma_square_nonneg(black);
    lemma_square_nonneg(white);
    lemma_square_bound(black, 2 * CHANNEL_ONE as int);
    lemma_square_bound(white, 2 * CHANNEL_ONE as int);
    assert((2 * CHANNEL_ONE as int) * (2 * CHANNEL_ONE as int) == 4 * (CHANNEL_ONE as int) * (
    CHANNEL_ONE as int)) by (nonlinear_arith);
}

/// The metric is non-negative and never exceeds `MAX_DIFF` on well-formed
/// colors.
pub proof fn lemma_diff_bounds(x: Color, y: Color)
    requires
        x.wf(),
        y.wf(),
    ensures
        0 <= spec_diff(x, y) <= MAX_DIFF,
{
    lemma_chan_term_bounds(x.r as int, x.a as int, y.r as int, y.a as int);
    lemma_chan_term_bounds(x.g as int, x.a as int, y.g as int, y.a as int);
    lemma_chan_term_bounds(x.b as int, x.a as int, y.b as int, y.a as int);
}

/// The metric is symmetric: swapping the operands negates each black and
/// white difference, and the squares are unchanged.
pub proof fn lemma_diff_symmetric(x: Color, y: Color)
    ensures
        spec_diff(x, y) == spec_diff(y, x),
{
    assert forall|av: int, aa: int, bv: int, ba: int|
        chan_term(av, aa, bv, ba) == chan_term(bv, ba, av, aa) by {
        assert((av - bv) * (av - bv) == (bv - av) * (bv - av)) by (nonlinear_arith);
        assert(((av - bv) + (ba - aa)) * ((av - bv) + (ba - aa)) == ((bv - av) + (aa - ba)) * (
        (bv - av) + (aa - ba))) by (nonlinear_arith);
    }
}

/// Scalar form of the perceptual color distance: per channel (R, G, B), the
/// larger of the squared difference against a black background and against a
/// white background, summed over the three channels.
pub fn diff_scalar(x: &Color, y: &Color) -> (d: u64)
    requires
        x.wf(),
        y.wf(),
    ensures
        d == spec_diff(*x, *y),
        d <= MAX_DIFF,
{
    proof {
        lemma_diff_bounds(*x, *y);
    }
    let alpha_diff: i64 = y.a as i64 - x.a as i64;
    let black_r: i64 = x.r as i64 - y.r as i64;
    let black_g: i64 = x.g as i64 - y.g as i64;
    let black_b: i64 = x.b as i64 - y.b as i64;
    let white_r: i64 = black_r + alpha_diff;
    let white_g: i64 = black_g + alpha_diff;
    let white_b: i64 = black_b + alpha_diff;
    proof {
        lemma_square_bound(black_r as int, 2 * CHANNEL_ONE as int);
        lemma_square_bound(black_g as int, 2 * CHANNEL_ONE as int);
        lemma_square_bound(black_b as int, 2 * CHANNEL_ONE as int);
        lemma_square_bound(white_r as int, 2 * CHANNEL_ONE as int);
        lemma_square_bound(white_g as int, 2 * CHANNEL_ONE as int);
        lemma_square_bound(white_b as int, 2 * CHANNEL_ONE as int);
        lemma_square_nonneg(black_r as int);
        lemma_square_nonneg(black_g as int);
        lemma_square_nonneg(black_b as int);
        lemma_square_nonneg(white_r as int);
        lemma_square_nonneg(white_g as int);
        lemma_square_nonneg(white_b as int);
    }
    let sq_black_r: i64 = black_r * black_r;
    let sq_black_g: i64 = black_g * black_g;
    let sq_black_b: i64 = black_b * black_b;
    let sq_white_r: i64 = white_r * white_r;
    let sq_white_g: i64 = white_g * white_g;
    let sq_white_b: i64 = white_b * white_b;
    let term_r: i64 = if sq_black_r >= sq_white_r { sq_black_r } else { sq_white_r };
    let term_g: i64 = if sq_black_g >= sq_white_g { sq_black_g } else { sq_white_g };
    let term_b: i64 = if sq_black_b >= sq_white_b { sq_black_b } else { sq_white_b };
    (term_r + term_g + term_b) as u64
}

} // verus!
