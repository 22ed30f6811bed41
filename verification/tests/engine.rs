//! End-to-end tests of the nearest-palette-color engine: the metric, the
//! tree, the fast path, the degenerate palettes, and the row buffers.

use nearest_palette::color::{diff_scalar, Color, CHANNEL_ONE};
use nearest_palette::nearest::Nearest;
use nearest_palette::pal::{Palette, MAX_COLORS};
use nearest_palette::simd::{diff, summon_token};
use nearest_palette::Error;

fn color(a: u32, r: u32, g: u32, b: u32) -> Color {
    Color { a, r, g, b }
}

/// The four pure corner colors of the cube: black, red, green, blue, all
/// fully opaque.
fn corner_palette() -> Palette {
    let one = CHANNEL_ONE;
    let colors = vec![
        color(one, 0, 0, 0),
        color(one, one, 0, 0),
        color(one, 0, one, 0),
        color(one, 0, 0, one),
    ];
    let weights = vec![4, 3, 2, 1];
    Palette::new(colors, weights)
}

/// Brute-force nearest entry: index and squared distance of the first
/// minimum.
fn brute_force(palette_colors: &[Color], q: &Color) -> (u8, u64) {
    let mut best_idx: u8 = 0;
    let mut best = u64::MAX;
    for (i, c) in palette_colors.iter().enumerate() {
        let d = diff_scalar(c, q);
        if d < best {
            best = d;
            best_idx = i as u8;
        }
    }
    (best_idx, best)
}

#[test]
fn test_simd_path() {
    // This should use the SIMD path if available
    let one = CHANNEL_ONE;
    let palette_data = vec![
        color(one, 0, 0, 0),
        color(one, one, 0, 0),
        color(one, 0, one, 0),
        color(one, 0, 0, one),
    ];
    assert_eq!(palette_data.len(), 4);
    if let Some(_token) = summon_token() {
        println!("SIMD token available");
    }
}

#[test]
fn test_diff_matches_scalar() {
    let cases = [
        (color(32768, 13107, 19661, 26214), color(39322, 19661, 26214, 32768)),
        (color(0, 0, 0, 0), color(CHANNEL_ONE, CHANNEL_ONE, CHANNEL_ONE, CHANNEL_ONE)),
        (color(CHANNEL_ONE, 32768, 32768, 32768), color(32768, 32768, 32768, 32768)),
    ];
    for (a, b) in &cases {
        let scalar = diff_scalar(a, b);
        let dispatch = diff(a, b);
        assert_eq!(scalar, dispatch, "Mismatch: scalar={scalar}, dispatch={dispatch}");
    }
}

#[test]
fn diff_formula_exact_value() {
    // alpha_diff = 16384 - 49152 = -32768 (from a to b)
    // r: black = 16384 - 8192 = 8192,  white = 8192 - 32768 = -24576
    // g: black = 24576 - 16384 = 8192, white = -24576
    // b: black = 40960 - 0 = 40960,    white = 8192
    // each channel takes the larger square:
    // r,g: 24576^2 = 603979776; b: 40960^2 = 1677721600
    let a = color(49152, 16384, 24576, 40960);
    let b = color(16384, 8192, 16384, 0);
    assert_eq!(diff_scalar(&a, &b), 603979776 + 603979776 + 1677721600);
    // symmetric
    assert_eq!(diff_scalar(&b, &a), diff_scalar(&a, &b));
}

#[test]
fn corner_palette_near_red_query() {
    let palette = corner_palette();
    let nearest = Nearest::new(&palette).unwrap();
    // near-red: slightly off the pure red corner
    let q = color(CHANNEL_ONE, 60000, 3000, 2000);
    let (idx, dist) = nearest.search(&q, 0);
    assert_eq!(idx, 1);
    // r: 60000 - 65536 = -5536; g: 3000; b: 2000; alpha_diff = 0
    assert_eq!(dist, 5536 * 5536 + 3000 * 3000 + 2000 * 2000);
    let (bidx, bdist) = brute_force(&palette.colors, &q);
    assert_eq!((idx, dist), (bidx, bdist));
}

#[test]
fn search_matches_brute_force_on_corners() {
    let palette = corner_palette();
    let nearest = Nearest::new(&palette).unwrap();
    let one = CHANNEL_ONE;
    let queries = [
        color(0, 0, 0, 0),
        color(one, 0, 0, 0),
        color(one, one, one, one),
        color(one, one / 2, one / 2, one / 2),
        color(one / 2, one / 4, 0, one / 4),
        color(one, 100, 200, 65000),
        color(one, 65000, 65000, 0),
    ];
    for q in &queries {
        for hint in 0..6u8 {
            let (idx, dist) = nearest.search(q, hint);
            let (_, bdist) = brute_force(&palette.colors, q);
            assert_eq!(dist, bdist);
            assert_eq!(diff_scalar(&palette.colors[idx as usize], q), dist);
        }
    }
}

#[test]
fn search_matches_brute_force_on_large_palette() {
    // 64 colors spread over the cube, enough for several internal nodes
    let mut colors = Vec::new();
    let mut weights = Vec::new();
    for i in 0..64u32 {
        let a = CHANNEL_ONE - (i * 512) % 4096;
        let r = (i * 7919) % (CHANNEL_ONE + 1);
        let g = (i * 104729) % (CHANNEL_ONE + 1);
        let b = (i * 130363) % (CHANNEL_ONE + 1);
        colors.push(color(a, r, g, b));
        weights.push((i * 37) % 11);
    }
    let palette = Palette::new(colors, weights);
    let nearest = Nearest::new(&palette).unwrap();
    for k in 0..40u32 {
        let q = color(
            CHANNEL_ONE - (k * 1021) % 3000,
            (k * 50021) % (CHANNEL_ONE + 1),
            (k * 20011) % (CHANNEL_ONE + 1),
            (k * 90001) % (CHANNEL_ONE + 1),
        );
        let hint = (k % 70) as u8; // sometimes out of range
        let (idx, dist) = nearest.search(&q, hint);
        let (_, bdist) = brute_force(&palette.colors, &q);
        assert_eq!(dist, bdist);
        assert_eq!(diff_scalar(&palette.colors[idx as usize], &q), dist);
    }
}

#[test]
fn fast_path_agrees_with_brute_force() {
    // query equal to a palette entry: the direct distance is zero, which is
    // below the quartered nearest-other-color distance, so the shortcut
    // fires; the result must still be the brute-force minimum
    let palette = corner_palette();
    let nearest = Nearest::new(&palette).unwrap();
    for i in 0..4u8 {
        let q = palette.colors[i as usize];
        let (idx, dist) = nearest.search(&q, i);
        let (bidx, bdist) = brute_force(&palette.colors, &q);
        assert_eq!((idx, dist), (bidx, bdist));
        assert_eq!(dist, 0);
        assert_eq!(idx, i);
    }
}

#[test]
fn single_entry_palette() {
    let palette = Palette::new(vec![color(CHANNEL_ONE, 100, 200, 300)], vec![1]);
    let nearest = Nearest::new(&palette).unwrap();
    let q = color(CHANNEL_ONE, 0, 0, 0);
    let (idx, dist) = nearest.search(&q, 77);
    assert_eq!(idx, 0);
    assert_eq!(dist, diff_scalar(&palette.colors[0], &q));
    // the nearest-other-color cache never reports the entry itself: with no
    // other entry it holds the quartered sentinel, not zero
    assert_eq!(nearest.nearest_other_dist(0), Some(u64::MAX / 4));
    assert_eq!(nearest.nearest_other_dist(1), None);
}

#[test]
fn cache_excludes_self_on_two_entries() {
    let c0 = color(CHANNEL_ONE, 0, 0, 0);
    let c1 = color(CHANNEL_ONE, CHANNEL_ONE, 0, 0);
    let palette = Palette::new(vec![c0, c1], vec![1, 1]);
    let nearest = Nearest::new(&palette).unwrap();
    let expected = diff_scalar(&c0, &c1) / 4;
    assert_eq!(nearest.nearest_other_dist(0), Some(expected));
    assert_eq!(nearest.nearest_other_dist(1), Some(expected));
    assert_ne!(nearest.nearest_other_dist(0), Some(0));
}

#[test]
fn empty_palette_is_unsupported() {
    let palette = Palette::new(Vec::new(), Vec::new());
    let r = Nearest::new(&palette);
    assert!(matches!(r, Err(Error::Unsupported)));
}

#[test]
fn max_colors_palette_builds() {
    let mut colors = Vec::new();
    let mut weights = Vec::new();
    for i in 0..MAX_COLORS as u32 {
        colors.push(color(CHANNEL_ONE, i * 256, 65536 - i * 256, (i * 3) % 65537));
        weights.push(i % 5);
    }
    let palette = Palette::new(colors, weights);
    let nearest = Nearest::new(&palette).unwrap();
    let q = color(CHANNEL_ONE, 12345, 54321, 11111);
    let (idx, dist) = nearest.search(&q, 0);
    let (_, bdist) = brute_force(&palette.colors, &q);
    assert_eq!(dist, bdist);
    assert_eq!(diff_scalar(&palette.colors[idx as usize], &q), dist);
}

#[test]
fn oversized_palette_is_unsupported() {
    let mut colors = Vec::new();
    let mut weights = Vec::new();
    for i in 0..(MAX_COLORS as u32 + 1) {
        colors.push(color(CHANNEL_ONE, i % 65537, 0, 0));
        weights.push(1);
    }
    let palette = Palette::new(colors, weights);
    assert!(matches!(Nearest::new(&palette), Err(Error::Unsupported)));
}

#[test]
fn building_twice_gives_identical_search_results() {
    let palette = corner_palette();
    let first = Nearest::new(&palette).unwrap();
    let second = Nearest::new(&palette).unwrap();
    let one = CHANNEL_ONE;
    let queries = [
        color(one, 60000, 3000, 2000),
        color(one / 2, one / 3, one / 5, one / 7),
        color(0, 0, 0, 0),
        color(one, one, one, one),
    ];
    for q in &queries {
        for hint in 0..5u8 {
            assert_eq!(first.search(q, hint), second.search(q, hint));
        }
    }
}

#[test]
fn duplicate_colors_and_ties() {
    // two identical entries: the cache distance between them is zero, any
    // query resolves to distance of the shared color, and search still
    // returns a true minimum
    let c = color(CHANNEL_ONE, 30000, 20000, 10000);
    let other = color(CHANNEL_ONE, 0, 0, 0);
    let palette = Palette::new(vec![c, c, other], vec![5, 5, 1]);
    let nearest = Nearest::new(&palette).unwrap();
    assert_eq!(nearest.nearest_other_dist(0), Some(0));
    assert_eq!(nearest.nearest_other_dist(1), Some(0));
    let q = color(CHANNEL_ONE, 29000, 21000, 11000);
    let (idx, dist) = nearest.search(&q, 2);
    let (_, bdist) = brute_force(&palette.colors, &q);
    assert_eq!(dist, bdist);
    assert!(idx == 0 || idx == 1);
    // a hint that achieves the minimum wins the tie
    assert_eq!(nearest.search(&q, 0), (0, dist));
    assert_eq!(nearest.search(&q, 1), (1, dist));
}
