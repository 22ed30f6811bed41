//! Integer encodings of the square-root comparisons that branch-and-bound
//! search relies on, and the triangle inequality of the color metric.
//!
//! All distances this crate computes are *squared* distances, held as
//! integers. A comparison between sums of un-squared distances, such as
//! `sqrt(a) <= sqrt(b) + sqrt(c)`, is decided exactly over the squares:
//! squaring both sides once gives `a <= b + c + 2*sqrt(b*c)`, and squaring
//! the remainder once more removes the last root. No floating point and no
//! rounding is involved anywhere.

use vstd::prelude::*;
use crate::color::{chan_term, spec_diff, Color};

verus! {

/// `sqrt(a) <= sqrt(b) + sqrt(c)`, stated over the squares `a`, `b`, `c`
/// (all non-negative): either `a <= b + c`, or the positive remainder
/// `a - b - c` satisfies `(a - b - c)^2 <= 4*b*c`.
pub open spec fn sqrt_le_sum(a: int, b: int, c: int) -> bool {
    a <= b + c || (a - b - c) * (a - b - c) <= 4 * b * c
}

/// `sqrt(c) < sqrt(a) + sqrt(b)` fails, i.e. `sqrt(a) + sqrt(b) < sqrt(c)`,
/// stated over the squares: the remainder `c - a - b` is positive and its
/// square exceeds `4*a*b`.
pub open spec fn sqrt_sum_lt(a: int, b: int, c: int) -> bool {
    c - a - b > 0 && (c - a - b) * (c - a - b) > 4 * a * b
}

/// The per-channel distance before squaring: the larger of the absolute
/// black-background and white-background differences.
pub open spec fn chan_dist(av: int, aa: int, bv: int, ba: int) -> int {
    let black = av - bv;
    let white = black + (ba - aa);
    vstd::math::max(vstd::math::abs(black) as int, vstd::math::abs(white) as int)
}

/// A channel's squared term is the square of its un-squared distance.
proof fn lemma_chan_term_is_square(av: int, aa: int, bv: int, ba: int)
    ensures
        chan_term(av, aa, bv, ba) == chan_dist(av, aa, bv, ba) * chan_dist(av, aa, bv, ba),
        chan_dist(av, aa, bv, ba) >= 0,
{
    let black = av - bv;
    let white = black + (ba - aa);
    assert(black * black == vstd::math::abs(black) as int * vstd::math::abs(black) as int)
        by (nonlinear_arith);
    assert(white * white == vstd::math::abs(white) as int * vstd::math::abs(white) as int)
        by (nonlinear_arith);
    let ab = vstd::math::abs(black) as int;
    let aw = vstd::math::abs(white) as int;
    if ab >= aw {
        assert(ab * ab >= aw * aw) by (nonlinear_arith)
            requires
                ab >= aw >= 0,
        ;
    } else {
        assert(aw * aw >= ab * ab) by (nonlinear_arith)
            requires
                aw >= ab >= 0,
        ;
    }
}

/// Per-channel triangle inequality: the channel distance from `x` to `z` is
/// at most the sum of the distances through `y`, because both the black and
/// the white differences add up exactly along the path.
proof fn lemma_chan_dist_triangle(
    xv: int,
    xa: int,
    yv: int,
    ya: int,
    zv: int,
    za: int,
)
    ensures
        chan_dist(xv, xa, zv, za) <= chan_dist(xv, xa, yv, ya) + chan_dist(yv, ya, zv, za),
{
}

/// Distributing a product of two-term sums into its four partial products.
proof fn lemma_expand_product(x: int, y: int, z: int, w: int)
    ensures
        (x + y) * (z + w) == x * z + x * w + y * z + y * w,
{
    assert((x + y) * (z + w) == x * z + x * w + y * z + y * w) by (nonlinear_arith);
}

/// The square of a two-term sum, written over its partial products.
proof fn lemma_expand_square(x: int, y: int)
    ensures
        (x + y) * (x + y) == x * x + 2 * (x * y) + y * y,
        (x - y) * (x - y) == x * x - 2 * (x * y) + y * y,
{
    assert((x + y) * (x + y) == x * x + 2 * (x * y) + y * y) by (nonlinear_arith);
    assert((x - y) * (x - y) == x * x - 2 * (x * y) + y * y) by (nonlinear_arith);
}

/// Cauchy-Schwarz for two components, by the Lagrange identity: the square
/// of the dot product differs from the product of the squared norms by a
/// square. The identity is assembled from monomial-level steps.
proof fn lemma_cauchy_schwarz_2(p1: int, p2: int, q1: int, q2: int)
    ensures
        (p1 * q1 + p2 * q2) * (p1 * q1 + p2 * q2) <= (p1 * p1 + p2 * p2) * (q1 * q1 + q2 * q2),
{
    lemma_expand_square(p1 * q1, p2 * q2);
    lemma_expand_square(p1 * q2, p2 * q1);
    lemma_expand_product(p1 * p1, p2 * p2, q1 * q1, q2 * q2);
    assert((p1 * p1) * (q1 * q1) == (p1 * q1) * (p1 * q1)) by (nonlinear_arith);
    assert((p1 * p1) * (q2 * q2) == (p1 * q2) * (p1 * q2)) by (nonlinear_arith);
    assert((p2 * p2) * (q1 * q1) == (p2 * q1) * (p2 * q1)) by (nonlinear_arith);
    assert((p2 * p2) * (q2 * q2) == (p2 * q2) * (p2 * q2)) by (nonlinear_arith);
    assert((p1 * q1) * (p2 * q2) == (p1 * q2) * (p2 * q1)) by (nonlinear_arith);
    assert((p1 * q2 - p2 * q1) * (p1 * q2 - p2 * q1) >= 0) by (nonlinear_arith);
}

/// Folding one more component into a Cauchy-Schwarz bound: from
/// `t12^2 <= b12 * c12` and a component pair packed as `x3 = p3^2`,
/// `y3 = q3^2`, `z3 = p3 * q3`, conclude the bound for the extended sums.
#[verifier::rlimit(30)]
proof fn lemma_cs3_combine(b12: int, c12: int, t12: int, x3: int, y3: int, z3: int)
    requires
        t12 * t12 <= b12 * c12,
        b12 >= 0,
        c12 >= 0,
        x3 >= 0,
        y3 >= 0,
        x3 * y3 == z3 * z3,
    ensures
        (t12 + z3) * (t12 + z3) <= (b12 + x3) * (c12 + y3),
{
    let u = b12 * y3;
    let v = c12 * x3;
    assert(u >= 0) by (nonlinear_arith)
        requires
            b12 >= 0,
            y3 >= 0,
            u == b12 * y3,
    ;
    assert(v >= 0) by (nonlinear_arith)
        requires
            c12 >= 0,
            x3 >= 0,
            v == c12 * x3,
    ;
    assert((u + v) * (u + v) - 4 * (u * v) == (u - v) * (u - v)) by (nonlinear_arith);
    assert((u - v) * (u - v) >= 0) by (nonlinear_arith);
    assert(u * v == (b12 * c12) * (z3 * z3)) by (nonlinear_arith)
        requires
            u == b12 * y3,
            v == c12 * x3,
            x3 * y3 == z3 * z3,
    ;
    assert((b12 * c12) * (z3 * z3) >= (t12 * t12) * (z3 * z3)) by (nonlinear_arith)
        requires
            b12 * c12 >= t12 * t12,
    ;
    let cr = 2 * (t12 * z3);
    assert(4 * ((t12 * t12) * (z3 * z3)) == cr * cr) by (nonlinear_arith)
        requires
            cr == 2 * (t12 * z3),
    ;
    assert((u + v) * (u + v) >= cr * cr);
    if cr >= 0 {
        assert(u + v >= cr) by (nonlinear_arith)
            requires
                (u + v) * (u + v) >= cr * cr,
                u + v >= 0,
                cr >= 0,
        ;
    }
    assert(u + v >= cr);
    assert((b12 + x3) * (c12 + y3) - (t12 + z3) * (t12 + z3) == (b12 * c12 - t12 * t12) + ((b12 * y3
        + c12 * x3) - 2 * (t12 * z3)) + (x3 * y3 - z3 * z3)) by (nonlinear_arith);
}

/// Cauchy-Schwarz for three components, built from the two-component case:
/// the third component is folded in by `lemma_cs3_combine`.
proof fn lemma_cauchy_schwarz_3(p1: int, p2: int, p3: int, q1: int, q2: int, q3: int)
    ensures
        (p1 * q1 + p2 * q2 + p3 * q3) * (p1 * q1 + p2 * q2 + p3 * q3) <= (p1 * p1 + p2 * p2 + p3
            * p3) * (q1 * q1 + q2 * q2 + q3 * q3),
{
    lemma_cauchy_schwarz_2(p1, p2, q1, q2);
    assert(p1 * p1 >= 0) by (nonlinear_arith);
    assert(p2 * p2 >= 0) by (nonlinear_arith);
    assert(p3 * p3 >= 0) by (nonlinear_arith);
    assert(q1 * q1 >= 0) by (nonlinear_arith);
    assert(q2 * q2 >= 0) by (nonlinear_arith);
    assert(q3 * q3 >= 0) by (nonlinear_arith);
    assert((p3 * p3) * (q3 * q3) == (p3 * q3) * (p3 * q3)) by (nonlinear_arith);
    lemma_cs3_combine(
        p1 * p1 + p2 * p2,
        q1 * q1 + q2 * q2,
        p1 * q1 + p2 * q2,
        p3 * p3,
        q3 * q3,
        p3 * q3,
    );
}

/// Minkowski-style step: three per-component bounds `s_k <= p_k + q_k` over
/// non-negative components lift to `sqrt_le_sum` of the summed squares.
proof fn lemma_minkowski_3(
    s1: int,
    s2: int,
    s3: int,
    p1: int,
    p2: int,
    p3: int,
    q1: int,
    q2: int,
    q3: int,
)
    requires
        0 <= s1 <= p1 + q1,
        0 <= s2 <= p2 + q2,
        0 <= s3 <= p3 + q3,
        p1 >= 0,
        p2 >= 0,
        p3 >= 0,
        q1 >= 0,
        q2 >= 0,
        q3 >= 0,
    ensures
        sqrt_le_sum(
            s1 * s1 + s2 * s2 + s3 * s3,
            p1 * p1 + p2 * p2 + p3 * p3,
            q1 * q1 + q2 * q2 + q3 * q3,
        ),
{
    let a = s1 * s1 + s2 * s2 + s3 * s3;
    let b = p1 * p1 + p2 * p2 + p3 * p3;
    let c = q1 * q1 + q2 * q2 + q3 * q3;
    let t = p1 * q1 + p2 * q2 + p3 * q3;
    lemma_square_le_nonneg(s1, p1 + q1);
    lemma_square_le_nonneg(s2, p2 + q2);
    lemma_square_le_nonneg(s3, p3 + q3);
    lemma_expand_square(p1, q1);
    lemma_expand_square(p2, q2);
    lemma_expand_square(p3, q3);
    lemma_mul_nonneg(p1, q1);
    lemma_mul_nonneg(p2, q2);
    lemma_mul_nonneg(p3, q3);
    assert(a <= b + c + 2 * t);
    lemma_cauchy_schwarz_3(p1, p2, p3, q1, q2, q3);
    if a > b + c {
        lemma_square_le_nonneg(a - b - c, 2 * t);
        lemma_four_square(t);
        lemma_four_product(b, c);
        assert((a - b - c) * (a - b - c) <= 4 * b * c);
    }
}

/// Squaring keeps the order of non-negative values.
pub(crate) proof fn lemma_square_le_nonneg(x: int, y: int)
    requires
        0 <= x <= y,
    ensures
        x * x <= y * y,
{
    assert(x * x <= y * y) by (nonlinear_arith)
        requires
            0 <= x <= y,
    ;
}

/// A product of non-negative values is non-negative.
pub(crate) proof fn lemma_mul_nonneg(x: int, y: int)
    requires
        x >= 0,
        y >= 0,
    ensures
        x * y >= 0,
{
    assert(x * y >= 0) by (nonlinear_arith)
        requires
            x >= 0,
            y >= 0,
    ;
}

/// The square of a doubled value, as four times the squared value.
proof fn lemma_four_square(x: int)
    ensures
        (2 * x) * (2 * x) == 4 * (x * x),
{
    assert((2 * x) * (2 * x) == 4 * (x * x)) by (nonlinear_arith);
}

/// Scaling a product by four, in both groupings.
proof fn lemma_four_product(x: int, y: int)
    ensures
        4 * (x * y) == 4 * x * y,
{
    assert(4 * (x * y) == 4 * x * y) by (nonlinear_arith);
}

/// Triangle inequality of the color metric: the distance from `x` to `z`
/// (before squaring) is at most the sum of the distances through `y`.
/// Stated over the squared values with `sqrt_le_sum`.
pub proof fn lemma_diff_triangle(x: Color, y: Color, z: Color)
    ensures
        sqrt_le_sum(spec_diff(x, z), spec_diff(x, y), spec_diff(y, z)),
{
    lemma_chan_term_is_square(x.r as int, x.a as int, y.r as int, y.a as int);
    lemma_chan_term_is_square(x.g as int, x.a as int, y.g as int, y.a as int);
    lemma_chan_term_is_square(x.b as int, x.a as int, y.b as int, y.a as int);
    lemma_chan_term_is_square(y.r as int, y.a as int, z.r as int, z.a as int);
    lemma_chan_term_is_square(y.g as int, y.a as int, z.g as int, z.a as int);
    lemma_chan_term_is_square(y.b as int, y.a as int, z.b as int, z.a as int);
    lemma_chan_term_is_square(x.r as int, x.a as int, z.r as int, z.a as int);
    lemma_chan_term_is_square(x.g as int, x.a as int, z.g as int, z.a as int);
    lemma_chan_term_is_square(x.b as int, x.a as int, z.b as int, z.a as int);
    lemma_chan_dist_triangle(x.r as int, x.a as int, y.r as int, y.a as int, z.r as int, z.a as int);
    lemma_chan_dist_triangle(x.g as int, x.a as int, y.g as int, y.a as int, z.g as int, z.a as int);
    lemma_chan_dist_triangle(x.b as int, x.a as int, y.b as int, y.a as int, z.b as int, z.a as int);
    lemma_minkowski_3(
        chan_dist(x.r as int, x.a as int, z.r as int, z.a as int),
        chan_dist(x.g as int, x.a as int, z.g as int, z.a as int),
        chan_dist(x.b as int, x.a as int, z.b as int, z.a as int),
        chan_dist(x.r as int, x.a as int, y.r as int, y.a as int),
        chan_dist(x.g as int, x.a as int, y.g as int, y.a as int),
        chan_dist(x.b as int, x.a as int, y.b as int, y.a as int),
        chan_dist(y.r as int, y.a as int, z.r as int, z.a as int),
        chan_dist(y.g as int, y.a as int, z.g as int, z.a as int),
        chan_dist(y.b as int, y.a as int, z.b as int, z.a as int),
    );
}

/// A product grows with each non-negative factor.
pub(crate) proof fn lemma_mul_le_both(x: int, y: int, bx: int, by: int)
    requires
        0 <= x <= bx,
        0 <= y <= by,
    ensures
        x * y <= bx * by,
{
    assert(x * y <= bx * by) by (nonlinear_arith)
        requires
            0 <= x <= bx,
            0 <= y <= by,
    ;
}

/// Soundness of skipping the "far" child: when the query is inside the
/// radius, the best candidate is close enough (`sqrt(d) + sqrt(b) <
/// sqrt(r)`), and a point `p` lies at squared distance `v >= r` from the
/// vantage, that point cannot beat the current best.
///
/// `d` = squared distance query-to-vantage, `b` = squared best, `r` =
/// squared radius, `v` = squared distance vantage-to-point, `p` = squared
/// distance query-to-point (related to `d` and `v` by the triangle
/// inequality).
pub proof fn lemma_skip_far_sound(d: int, b: int, r: int, v: int, p: int)
    requires
        d >= 0,
        b >= 0,
        r >= 0,
        v >= 0,
        p >= 0,
        sqrt_sum_lt(d, b, r),
        v >= r,
        sqrt_le_sum(v, d, p),
    ensures
        p > b,
{
    if v <= d + p {
    } else {
        let w = v - d - p;
        let s = r - d - b;
        if p <= b {
            assert(w >= s);
            lemma_square_le_nonneg(s, w);
            assert(4 * d * p >= w * w);
            assert(d * p > d * b) by (nonlinear_arith)
                requires
                    4 * d * p > 4 * d * b,
            ;
            assert(d * p <= d * b) by (nonlinear_arith)
                requires
                    d >= 0,
                    p <= b,
            ;
            assert(false);
        }
    }
}

/// Soundness of skipping the "near" child: when the query is outside the
/// radius and too far out (`sqrt(d) > sqrt(r) + sqrt(b)`), a point `p` at
/// squared distance `v <= r` from the vantage cannot beat the current best.
pub proof fn lemma_skip_near_sound(d: int, b: int, r: int, v: int, p: int)
    requires
        d >= 0,
        b >= 0,
        r >= 0,
        v >= 0,
        p >= 0,
        sqrt_sum_lt(r, b, d),
        v <= r,
        sqrt_le_sum(d, v, p),
    ensures
        p > b,
{
    if d <= v + p {
    } else {
        let w = d - v - p;
        let s = d - r - b;
        if p <= b {
            assert(w >= s);
            lemma_square_le_nonneg(s, w);
            assert(4 * v * p >= w * w);
            assert(v * p > r * b) by (nonlinear_arith)
                requires
                    4 * v * p > 4 * r * b,
            ;
            assert(v * p <= r * b) by (nonlinear_arith)
                requires
                    0 <= v <= r,
                    0 <= p <= b,
            ;
            assert(false);
        }
    }
}

/// Soundness of the fast-path short-circuit: if the direct squared distance
/// `d` to the guessed entry is under a quarter of the squared distance `m`
/// from that entry to any other entry, then any other entry `p` (related to
/// `m` and `d` by the triangle inequality) is strictly farther than `d`.
pub proof fn lemma_fast_path_sound(m: int, d: int, p: int)
    requires
        m >= 0,
        d >= 0,
        p >= 0,
        4 * d < m,
        sqrt_le_sum(m, p, d),
    ensures
        p > d,
{
    if m <= p + d {
    } else {
        let w = m - p - d;
        if p <= d {
            assert(w * w <= 4 * p * d);
            assert(4 * p * d <= (2 * d) * (2 * d)) by (nonlinear_arith)
                requires
                    0 <= p <= d,
            ;
            assert(w <= 2 * d) by (nonlinear_arith)
                requires
                    w * w <= (2 * d) * (2 * d),
                    w > 0,
                    d >= 0,
            ;
            assert(false);
        }
    }
}

} // verus!
