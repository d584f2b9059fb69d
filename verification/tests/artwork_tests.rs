use fabbula::artwork::{
    build_sat, count_on_in_window, is_svg, is_svg_extension, threshold_bitmap, ArtworkBitmap, ThresholdMode,
};
use fabbula::density::{clamp_region, enforce_density_count, enforce_density_region_count};
use fabbula::mask::apply_exclusion_mask_dbu;
use fabbula::polygon::Rect;

/// The sky130 artwork layer (met5): 1.6 um minimum width and spacing on a
/// 0.005 um grid, 1000 database units per um.
const SKY130_MIN_WIDTH_UM: f64 = 1.6;
const SKY130_MIN_SPACING_UM: f64 = 1.6;
const SKY130_GRID_UM: f64 = 0.005;
const SKY130_DBU: f64 = 1000.0;

fn snap(um: f64) -> f64 {
    (um / SKY130_GRID_UM).round() * SKY130_GRID_UM
}

fn dbu(um: f64) -> i32 {
    (um * SKY130_DBU).round() as i32
}

/// Clear the pixels near `rects`, with the sky130 pixel pitch.
fn apply_exclusion_mask(bmp: &mut ArtworkBitmap, rects: &[Rect], margin_dbu: i32) -> usize {
    let min_w_um = snap(SKY130_MIN_WIDTH_UM);
    let min_s_um = snap(SKY130_MIN_SPACING_UM);
    apply_exclusion_mask_dbu(bmp, rects, dbu(min_w_um + min_s_um), dbu(min_w_um), margin_dbu)
}

/// Thin `bmp` so that no window of `win` pixels is denser than `density_max`.
fn enforce_density(bmp: &mut ArtworkBitmap, density_max: f64, win: u32) -> usize {
    if density_max >= 1.0 || win == 0 {
        return 0;
    }
    let max_count = (density_max * (win * win) as f64).floor() as u32;
    enforce_density_count(bmp, max_count, win)
}

/// Thin the region so that it is no denser than `density_max`.
fn enforce_density_region(bmp: &mut ArtworkBitmap, density_max: f64, x: u32, y: u32, w: u32, h: u32) -> usize {
    if density_max >= 1.0 || w == 0 || h == 0 {
        return 0;
    }
    let (rx, ry, rw, rh) = clamp_region(bmp.width, bmp.height, x, y, w, h);
    if rw == 0 || rh == 0 {
        return 0;
    }
    let max_count = (density_max * (rw * rh) as f64).floor() as u32;
    enforce_density_region_count(bmp, max_count, rx, ry, rw, rh)
}

#[test]
fn test_bitmap_basics() {
    let bmp = ArtworkBitmap::from_bools(
        4,
        4,
        &[
            true, true, false, false, true, true, false, false, false, false, true, true, false, false, true, true,
        ],
    );
    assert_eq!(bmp.metal_count(), 8);
    let density = bmp.metal_count() as f64 / (bmp.width * bmp.height) as f64;
    assert!((density - 0.5).abs() < 1e-6);
}

#[test]
fn test_bitset_roundtrip() {
    let width = 7u32;
    let height = 5u32;
    let bools: Vec<bool> = (0..width * height).map(|i| i % 3 == 0).collect();
    let expected_count = bools.iter().filter(|&&b| b).count();

    let bmp = ArtworkBitmap::from_bools(width, height, &bools);
    assert_eq!(bmp.metal_count(), expected_count);

    for y in 0..height {
        for x in 0..width {
            let expected = bools[(y * width + x) as usize];
            assert_eq!(bmp.get(x, y), expected, "mismatch at ({x}, {y})");
        }
    }

    let mut bmp2 = bmp.clone();
    bmp2.set(0, 0, false);
    assert!(!bmp2.get(0, 0));
    bmp2.set(0, 0, true);
    assert!(bmp2.get(0, 0));

    let mut bmp3 = bmp.clone();
    bmp3.invert();
    assert_eq!(bmp3.metal_count(), (width * height) as usize - expected_count);
    for y in 0..height {
        for x in 0..width {
            assert_eq!(bmp3.get(x, y), !bmp.get(x, y));
        }
    }
}

#[test]
fn test_bitset_exact_64_width() {
    let bmp = ArtworkBitmap::from_bools(64, 1, &[true; 64]);
    assert_eq!(bmp.metal_count(), 64);
}

#[test]
fn test_is_svg() {
    assert!(is_svg("logo.svg"));
    assert!(is_svg("logo.SVG"));
    assert!(is_svg("logo.svgz"));
    assert!(!is_svg("logo.png"));
    assert!(!is_svg("logo.jpg"));
}

#[test]
fn test_enforce_density_noop_below_threshold() {
    let mut bmp = ArtworkBitmap::from_bools(10, 10, &{
        let mut v = vec![false; 100];
        for i in (0..100).step_by(10) {
            v[i] = true;
        }
        v
    });
    let original_count = bmp.metal_count();
    let cleared = enforce_density(&mut bmp, 0.80, 10);
    assert_eq!(cleared, 0);
    assert_eq!(bmp.metal_count(), original_count);
}

#[test]
fn test_enforce_density_solid_thinned() {
    let mut bmp = ArtworkBitmap::from_bools(20, 20, &vec![true; 400]);
    let cleared = enforce_density(&mut bmp, 0.80, 20);
    assert!(cleared > 0, "Should have cleared some pixels");
    let count = bmp.metal_count();
    let density = count as f64 / 400.0;
    assert!(density <= 0.80 + 0.01, "Density {:.2} should be <= 0.80", density);
}

#[test]
fn test_enforce_density_preserves_edges() {
    let mut bmp = ArtworkBitmap::new_zeroed(20, 20);
    for x in 0..20 {
        bmp.set(x, 10, true);
    }
    let original_count = bmp.metal_count();
    let cleared = enforce_density(&mut bmp, 0.10, 20);
    assert_eq!(cleared, 0);
    assert_eq!(bmp.metal_count(), original_count);
}

#[test]
fn test_enforce_density_multiple_windows() {
    let mut bmp = ArtworkBitmap::new_zeroed(30, 10);
    for y in 0..10 {
        for x in 0..10 {
            bmp.set(x, y, true);
        }
    }
    for y in 0..10 {
        for x in 20..30 {
            bmp.set(x, y, true);
        }
    }
    let cleared = enforce_density(&mut bmp, 0.70, 10);
    assert!(cleared > 0, "Should thin dense blocks");
}

#[test]
fn test_enforce_density_converges() {
    let mut bmp = ArtworkBitmap::from_bools(50, 50, &vec![true; 2500]);
    let cleared = enforce_density(&mut bmp, 0.75, 25);
    assert!(cleared > 0);
    let win = 25u32;
    let step = win / 2;
    let mut wx = 0u32;
    while wx + win <= 50 {
        let mut wy = 0u32;
        while wy + win <= 50 {
            let mut count = 0u32;
            for y in wy..wy + win {
                for x in wx..wx + win {
                    count += bmp.get(x, y) as u32;
                }
            }
            let density = count as f64 / (win * win) as f64;
            assert!(density <= 0.75 + 0.02, "Window ({},{}) density {:.3} exceeds limit", wx, wy, density);
            wy += step;
        }
        wx += step;
    }
}

#[test]
fn test_enforce_density_region_thins_target_only() {
    let mut bmp = ArtworkBitmap::new_zeroed(30, 30);
    for y in 0..10u32 {
        for x in 0..10u32 {
            bmp.set(x, y, true);
        }
    }
    for y in 20..30u32 {
        for x in 20..30u32 {
            bmp.set(x, y, true);
        }
    }
    let cleared = enforce_density_region(&mut bmp, 0.70, 0, 0, 10, 10);
    assert!(cleared > 0, "Should thin the targeted region");
    let mut block1_count = 0u32;
    for y in 0..10u32 {
        for x in 0..10u32 {
            block1_count += bmp.get(x, y) as u32;
        }
    }
    assert!(block1_count <= 70, "Block 1 density should be <= 70%, got {}%", block1_count);
    let mut block2_count = 0u32;
    for y in 20..30u32 {
        for x in 20..30u32 {
            block2_count += bmp.get(x, y) as u32;
        }
    }
    assert_eq!(block2_count, 100, "Block 2 should be unaffected");
}

#[test]
fn test_enforce_density_region_noop_sparse() {
    let mut bmp = ArtworkBitmap::new_zeroed(20, 20);
    bmp.set(5, 5, true);
    bmp.set(10, 10, true);
    bmp.set(15, 15, true);
    let cleared = enforce_density_region(&mut bmp, 0.80, 0, 0, 20, 20);
    assert_eq!(cleared, 0);
    assert_eq!(bmp.metal_count(), 3);
}

#[test]
fn enforce_density_only_clears_and_counts() {
    let mut bmp = ArtworkBitmap::from_bools(16, 16, &vec![true; 256]);
    let before = bmp.clone();
    let cleared = enforce_density_count(&mut bmp, 100, 16);
    assert_eq!(cleared, before.metal_count() - bmp.metal_count());
    for y in 0..16 {
        for x in 0..16 {
            assert!(!bmp.get(x, y) || before.get(x, y));
        }
    }
}

#[test]
fn enforce_density_zero_window_is_noop() {
    let mut bmp = ArtworkBitmap::from_bools(8, 8, &vec![true; 64]);
    assert_eq!(enforce_density_count(&mut bmp, 0, 0), 0);
    assert_eq!(bmp.metal_count(), 64);
}

#[test]
fn clamp_region_cuts_at_the_edge() {
    assert_eq!(clamp_region(10, 8, 6, 5, 10, 10), (6, 5, 4, 3));
    assert_eq!(clamp_region(10, 8, 12, 0, 3, 3), (10, 0, 0, 3));
    assert_eq!(clamp_region(10, 8, 1, 2, 3, 4), (1, 2, 3, 4));
}

#[test]
fn is_svg_extension_ignores_ascii_case_only() {
    assert!(is_svg_extension(Some("svg")));
    assert!(is_svg_extension(Some("SvGz")));
    assert!(!is_svg_extension(Some("svgzz")));
    assert!(!is_svg_extension(Some("sv")));
    assert!(!is_svg_extension(None));
    assert!(!is_svg("svg"));
    assert!(!is_svg("logo"));
    assert!(is_svg("dir/logo.Svg"));
}

#[test]
fn window_count_and_summed_area_table_agree() {
    let bools: Vec<bool> = (0..6 * 5).map(|i| i % 4 != 1).collect();
    let bmp = ArtworkBitmap::from_bools(6, 5, &bools);
    let sat = build_sat(&bmp, 6, 5);
    assert_eq!(sat.len(), 7 * 6);
    for y0 in 0..5u32 {
        for x0 in 0..6u32 {
            let mut naive = 0u32;
            for y in y0..(y0 + 2).min(5) {
                for x in x0..(x0 + 3).min(6) {
                    naive += bmp.get(x, y) as u32;
                }
            }
            if x0 + 3 <= 6 && y0 + 2 <= 5 {
                assert_eq!(count_on_in_window(&bmp, x0, y0, 3, 2), naive);
            }
        }
    }
    assert_eq!(sat[7 * 6 - 1] as usize, bmp.metal_count());
}

#[test]
fn threshold_bitmap_luminance_and_channels() {
    let gray = [0u8, 100, 127, 128, 200, 255];
    let below = threshold_bitmap(3, 2, &gray, 1, 0, 128, true);
    let expect_below = [true, true, true, false, false, false];
    let at_or_above = threshold_bitmap(3, 2, &gray, 1, 0, 128, false);
    for i in 0..6u32 {
        assert_eq!(below.get(i % 3, i / 3), expect_below[i as usize]);
        assert_eq!(at_or_above.get(i % 3, i / 3), !expect_below[i as usize]);
    }
    let rgba = [10u8, 200, 30, 255, 250, 20, 30, 0];
    let alpha = threshold_bitmap(2, 1, &rgba, 4, 3, 128, false);
    assert!(alpha.get(0, 0));
    assert!(!alpha.get(1, 0));
    assert_eq!(ThresholdMode::Alpha(128), ThresholdMode::Alpha(128));
}

#[test]
fn new_zeroed_is_empty_and_words_match() {
    let bmp = ArtworkBitmap::new_zeroed(65, 2);
    assert_eq!(bmp.metal_count(), 0);
    assert_eq!(bmp.words().len(), 3);
    let (row, offset) = bmp.row_words(1);
    assert_eq!(offset, 1);
    assert!(!row.is_empty());
}

#[test]
fn test_exclusion_mask() {
    let min_w_um = snap(SKY130_MIN_WIDTH_UM);
    let min_s_um = snap(SKY130_MIN_SPACING_UM);
    let pitch = dbu(min_w_um + min_s_um);
    let pw = dbu(min_w_um);

    // 4x4 bitmap, all on
    let mut bmp = ArtworkBitmap::from_bools(4, 4, &[true; 16]);

    // Exclusion rect covering pixel (1, 0): x = [pitch, pitch + pw], y = [3 * pitch, 3 * pitch + pw]
    let excl = vec![Rect::new(pitch, 3 * pitch, pitch + pw, 3 * pitch + pw)];

    apply_exclusion_mask(&mut bmp, &excl, 0);
    assert!(!bmp.get(1, 0), "Pixel (1,0) should be masked");
    assert!(bmp.get(0, 0), "Pixel (0,0) should remain");
    assert_eq!(bmp.metal_count(), 15);
}

#[test]
fn test_exclusion_mask_with_margin() {
    let min_w_um = snap(SKY130_MIN_WIDTH_UM);
    let min_s_um = snap(SKY130_MIN_SPACING_UM);
    let pitch = dbu(min_w_um + min_s_um);
    let pw = dbu(min_w_um);

    let mut bmp = ArtworkBitmap::from_bools(4, 4, &[true; 16]);

    // Small exclusion rect; with a large margin it catches neighbours
    let excl = vec![Rect::new(pitch + pw / 2, 3 * pitch + pw / 2, pitch + pw / 2 + 1, 3 * pitch + pw / 2 + 1)];

    apply_exclusion_mask(&mut bmp, &excl, pitch);
    assert!(!bmp.get(1, 0), "Pixel (1,0) should be masked with margin");
    assert!(bmp.metal_count() < 16, "Some pixels should be masked");
}

#[test]
fn from_bools_leaves_padding_clear() {
    let bmp = ArtworkBitmap::from_bools(3, 3, &vec![true; 9]);
    assert_eq!(bmp.words().len(), 1);
    assert_eq!(bmp.words()[0], 0x1ff);
}

#[test]
fn invert_clears_padding_and_twice_restores_words() {
    let mut bools = vec![false; 70];
    bools[0] = true;
    bools[65] = true;
    let mut bmp = ArtworkBitmap::from_bools(10, 7, &bools);
    let before = bmp.words().to_vec();
    bmp.invert();
    assert_eq!(bmp.words()[1] >> 6, 0);
    assert!(!bmp.get(0, 0));
    assert!(bmp.get(1, 0));
    bmp.invert();
    assert_eq!(bmp.words().to_vec(), before);
}

#[test]
fn set_out_of_bounds_leaves_words() {
    let mut bmp = ArtworkBitmap::from_bools(5, 5, &vec![true; 25]);
    let before = bmp.words().to_vec();
    bmp.set(5, 0, false);
    bmp.set(0, 5, true);
    assert_eq!(bmp.words().to_vec(), before);
    bmp.set(4, 4, false);
    assert_eq!(bmp.words()[0], (1u64 << 24) - 1);
}

#[test]
fn enforce_density_keeps_thin_stripes_when_stuck() {
    let mut bools = vec![false; 20 * 20];
    for y in (0..20).step_by(2) {
        for x in 0..20 {
            bools[y * 20 + x] = true;
        }
    }
    let mut bmp = ArtworkBitmap::from_bools(20, 20, &bools);
    let before = bmp.words().to_vec();
    let cleared = enforce_density_count(&mut bmp, 30, 10);
    assert_eq!(cleared, 0);
    assert_eq!(bmp.words().to_vec(), before);
}

#[test]
fn enforce_density_meets_a_count_above_the_thin_bound() {
    let mut bmp = ArtworkBitmap::from_bools(40, 40, &vec![true; 1600]);
    let cleared = enforce_density_count(&mut bmp, 80, 10);
    assert!(cleared > 0);
    let mut wx = 0u32;
    while wx + 10 <= 40 {
        let mut wy = 0u32;
        while wy + 10 <= 40 {
            assert!(count_on_in_window(&bmp, wx, wy, 10, 10) <= 80);
            wy += 5;
        }
        wx += 5;
    }
}

#[test]
fn enforce_density_region_meets_a_count_above_the_thin_bound() {
    let mut bmp = ArtworkBitmap::from_bools(12, 12, &vec![true; 144]);
    let cleared = enforce_density_region_count(&mut bmp, 27, 1, 1, 6, 6);
    assert!(cleared > 0);
    assert!(count_on_in_window(&bmp, 1, 1, 6, 6) <= 27);
    assert!(bmp.get(0, 0) && bmp.get(7, 7));
}

#[test]
fn enforce_density_clears_exactly_the_excess_of_a_full_block() {
    let mut bmp = ArtworkBitmap::from_bools(2, 2, &vec![true; 4]);
    let cleared = enforce_density_count(&mut bmp, 2, 2);
    assert_eq!(cleared, 2);
    assert_eq!(count_on_in_window(&bmp, 0, 0, 2, 2), 2);
}

#[test]
fn enforce_density_region_stops_at_the_count() {
    let mut bmp = ArtworkBitmap::from_bools(12, 12, &vec![true; 144]);
    enforce_density_region_count(&mut bmp, 30, 2, 2, 8, 8);
    assert_eq!(count_on_in_window(&bmp, 2, 2, 8, 8), 30);
}
