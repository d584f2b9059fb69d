use fabbula::artwork::{clear_knockout_rect, resize_bitmap, ArtworkBitmap};
use fabbula::density::enforce_density_count;
use fabbula::drc::{check_density_only, DensityLimits, DrcLimits};
use fabbula::polygon::Rect;
use fabbula::generation::{
    generate_layer_polygons, generate_with_density_loop, window_region, DensityPlan, LayerError,
};
use fabbula::polygon::{generate_polygons_dbu, GenerateError, PolygonStrategy};

fn filled(w: u32, h: u32) -> ArtworkBitmap {
    ArtworkBitmap::from_bools(w, h, &vec![true; (w * h) as usize])
}

/// Pixels of 10 dbu laid edge to edge, density windows of 80 dbu (8
/// pixels) that may hold at most half metal.
fn half_density_limits() -> DrcLimits {
    DrcLimits {
        min_width: 10,
        min_spacing: 0,
        min_area: 0,
        max_width: None,
        wide_metal_threshold: None,
        wide_metal_spacing: None,
        density: Some(DensityLimits {
            window: 80,
            max_metal: 3200,
            min_metal: 0,
            max_permille: 500,
            min_permille: 0,
        }),
    }
}

fn no_density_limits() -> DrcLimits {
    DrcLimits { density: None, ..half_density_limits() }
}

#[test]
fn window_region_maps_window_to_pixels() {
    // px: 0 .. ceil(10 / 2) = 5; rows from the top: 10 - 1 - 5 = 4 .. 10.
    assert_eq!(window_region(0, 0, 10, 2, 10, 10), Some((0, 4, 5, 6)));
    // Division rounds toward zero for negative coordinates.
    assert_eq!(window_region(0, -1, 10, 2, 10, 10), Some((0, 5, 5, 5)));
    // The region is cut to the bitmap.
    assert_eq!(window_region(16, 0, 10, 2, 10, 10), Some((8, 4, 2, 6)));
}

#[test]
fn window_region_beyond_bitmap() {
    assert_eq!(window_region(100, 0, 10, 2, 10, 10), None);
}

#[test]
fn density_loop_without_density_rules_keeps_bitmap() {
    let mut bmp = filled(16, 16);
    let before = bmp.clone();
    let rects = generate_with_density_loop(&mut bmp, 10, 10, PolygonStrategy::RowMerge, None, &no_density_limits(), 475_000, 3)
        .unwrap();
    assert_eq!(bmp.metal_count(), 256);
    assert_eq!(bmp.words(), before.words());
    let direct = generate_polygons_dbu(&before, 10, 10, PolygonStrategy::RowMerge, None).unwrap();
    assert_eq!(rects, direct);
}

#[test]
fn density_loop_thins_dense_windows() {
    let lim = half_density_limits();
    let mut bmp = filled(16, 16);
    let first = generate_polygons_dbu(&bmp, 10, 10, PolygonStrategy::RowMerge, None).unwrap();
    assert!(!check_density_only(&first, &lim, Some(1)).is_empty());
    let rects = generate_with_density_loop(&mut bmp, 10, 10, PolygonStrategy::RowMerge, None, &lim, 475_000, 3).unwrap();
    assert!(bmp.metal_count() < 256);
    assert!(!rects.is_empty());
    // The result is the rectangles of the thinned bitmap.
    let again = generate_polygons_dbu(&bmp, 10, 10, PolygonStrategy::RowMerge, None).unwrap();
    assert_eq!(rects, again);
}

#[test]
fn density_loop_zero_retries_keeps_bitmap() {
    let lim = half_density_limits();
    let mut bmp = filled(16, 16);
    let rects = generate_with_density_loop(&mut bmp, 10, 10, PolygonStrategy::PixelRects, None, &lim, 475_000, 0).unwrap();
    assert_eq!(bmp.metal_count(), 256);
    assert_eq!(rects.len(), 256);
}

#[test]
fn density_loop_reports_coordinate_overflow() {
    let mut bmp = filled(4, 4);
    let r = generate_with_density_loop(&mut bmp, 10, i32::MAX, PolygonStrategy::RowMerge, None, &half_density_limits(), 475_000, 3);
    assert_eq!(r, Err(GenerateError::CoordinateOverflow));
    assert_eq!(bmp.metal_count(), 16);
}

#[test]
fn layer_without_plan_is_plain_generation() {
    let mut bmp = filled(16, 16);
    let rects = generate_layer_polygons(&mut bmp, 10, 10, PolygonStrategy::GreedyMerge, None, &half_density_limits(), None, false).unwrap();
    assert_eq!(bmp.metal_count(), 256);
    assert_eq!(rects.len(), 1);
}

#[test]
fn layer_with_plan_thins_or_fails() {
    let lim = half_density_limits();
    let plan = DensityPlan { window_px: 8, max_ppm: 500_000, region_ppm: 475_000 };
    let mut bmp = filled(16, 16);
    let r = generate_layer_polygons(&mut bmp, 10, 10, PolygonStrategy::RowMerge, None, &lim, Some(plan), false);
    assert!(bmp.metal_count() < 256);
    match r {
        Ok(rects) => assert!(check_density_only(&rects, &lim, Some(1)).is_empty()),
        Err(LayerError::DensityNotConverged(n)) => assert!(n >= 1),
        Err(e) => panic!("unexpected {:?}", e),
    }
}

#[test]
fn layer_with_plan_and_force_succeeds() {
    let lim = half_density_limits();
    let plan = DensityPlan { window_px: 8, max_ppm: 500_000, region_ppm: 475_000 };
    let mut bmp = filled(16, 16);
    let r = generate_layer_polygons(&mut bmp, 10, 10, PolygonStrategy::RowMerge, None, &lim, Some(plan), true);
    assert!(r.is_ok());
}

#[test]
fn knockout_clears_padded_rect() {
    let mut bmp = filled(6, 6);
    clear_knockout_rect(&mut bmp, 2, 2, 1, 1, 1);
    assert_eq!(bmp.metal_count(), 36 - 9);
    assert!(!bmp.get(1, 1));
    assert!(!bmp.get(3, 3));
    assert!(bmp.get(4, 4));
    assert!(bmp.get(0, 2));
}

#[test]
fn knockout_saturates_at_edges() {
    let mut bmp = filled(6, 6);
    clear_knockout_rect(&mut bmp, 0, 4, u32::MAX, 1, 5);
    // Every column, rows 0 ..= 5 (from 4 - 5 saturating to 0).
    assert_eq!(bmp.metal_count(), 0);
    let mut bmp = filled(6, 6);
    clear_knockout_rect(&mut bmp, 5, 5, 3, 3, 0);
    assert_eq!(bmp.metal_count(), 35);
}

#[test]
fn resize_halves_by_nearest_neighbour() {
    let bools: Vec<bool> = (0..16).map(|i| (i % 4) % 2 == 0 && (i / 4) % 2 == 0).collect();
    let bmp = ArtworkBitmap::from_bools(4, 4, &bools);
    let r = resize_bitmap(&bmp, 2, 2);
    assert_eq!((r.width, r.height), (2, 2));
    // Sources (0, 0), (2, 0), (0, 2), (2, 2) are all metal.
    assert_eq!(r.metal_count(), 4);
}

#[test]
fn resize_keeps_bitmap_that_fits() {
    let bools: Vec<bool> = (0..12).map(|i| i % 3 == 0).collect();
    let bmp = ArtworkBitmap::from_bools(4, 3, &bools);
    let r = resize_bitmap(&bmp, 10, 10);
    assert_eq!((r.width, r.height), (4, 3));
    assert_eq!(r.words(), bmp.words());
}

#[test]
fn resize_keeps_aspect_and_rounds() {
    // Scale 2/3: 3 x 1 becomes 2 x 1 (1 * 2/3 rounds to 1).
    let bmp = ArtworkBitmap::from_bools(3, 1, &[false, true, false]);
    let r = resize_bitmap(&bmp, 2, 10);
    assert_eq!((r.width, r.height), (2, 1));
    // Target x = 1 reads source floor(1 * 3 / 2) = 1.
    assert!(!r.get(0, 0));
    assert!(r.get(1, 0));
}

#[test]
fn resize_to_zero() {
    let bmp = ArtworkBitmap::from_bools(3, 1, &[true, true, true]);
    let r = resize_bitmap(&bmp, 0, 10);
    assert_eq!((r.width, r.height), (0, 0));
}

/// Design rules in micrometres, as a PDK states them.
struct Rules {
    min_width: f64,
    min_spacing: f64,
    min_area: f64,
    density_min: f64,
    density_max: f64,
    density_window_um: f64,
}

const GRID_UM: f64 = 0.005;
const DBU_PER_UM: f64 = 1000.0;

/// sky130's artwork layer (met5): 1.6 um wide and apart, 4 um^2 minimum
/// area; the density values are the configuration defaults.
fn sky130_met5() -> Rules {
    Rules { min_width: 1.6, min_spacing: 1.6, min_area: 4.0, density_min: 0.0, density_max: 0.8, density_window_um: 500.0 }
}

/// sky130's alternative artwork layer (met4): 0.3 um wide and apart,
/// 0.24 um^2 minimum area, at most 77% dense.
fn sky130_met4() -> Rules {
    Rules { min_width: 0.3, min_spacing: 0.3, min_area: 0.24, density_min: 0.0, density_max: 0.77, density_window_um: 500.0 }
}

fn snap(um: f64) -> f64 {
    (um / GRID_UM).round() * GRID_UM
}

fn dbu(um: f64) -> i32 {
    (um * DBU_PER_UM).round() as i32
}

fn limits_of(r: &Rules) -> DrcLimits {
    let min_area = if r.min_area > 0.0 {
        let side = dbu(r.min_area.sqrt()) as i64;
        side * side
    } else {
        0
    };
    let density = if r.density_max >= 1.0 && r.density_min <= 0.0 {
        None
    } else {
        let window = dbu(r.density_window_um);
        let area = window as i64 * window as i64;
        Some(DensityLimits {
            window,
            max_metal: (r.density_max * area as f64) as i64,
            min_metal: (r.density_min * area as f64) as i64,
            max_permille: (r.density_max * 1000.0) as i64,
            min_permille: (r.density_min * 1000.0) as i64,
        })
    };
    DrcLimits {
        min_width: dbu(r.min_width),
        min_spacing: dbu(r.min_spacing),
        min_area,
        max_width: None,
        wide_metal_threshold: None,
        wide_metal_spacing: None,
        density,
    }
}

fn pitch_um(r: &Rules, touching: bool) -> f64 {
    if touching {
        snap(r.min_width)
    } else {
        snap(r.min_width) + snap(r.min_spacing)
    }
}

fn ppm(f: f64) -> u32 {
    (f * 1_000_000.0).round() as u32
}

/// A layer's rectangles with the rules in micrometres.
fn generate_layer(
    bitmap: &mut ArtworkBitmap,
    r: &Rules,
    strategy: PolygonStrategy,
    touching: bool,
    density_enforce: bool,
    force: bool,
) -> Result<Vec<Rect>, LayerError> {
    let pitch = pitch_um(r, touching);
    let min_area = if r.min_area > 0.0 {
        let side = dbu(r.min_area.sqrt()) as i64;
        Some(side * side)
    } else {
        None
    };
    let plan = if density_enforce && r.density_max < 1.0 {
        Some(DensityPlan {
            window_px: (r.density_window_um / pitch).floor() as u32,
            max_ppm: ppm(r.density_max),
            region_ppm: ppm(r.density_max * 0.95),
        })
    } else {
        None
    };
    generate_layer_polygons(bitmap, dbu(snap(r.min_width)), dbu(pitch), strategy, min_area, &limits_of(r), plan, force)
}

/// The bitmap-level density pass: thin every density window to the maximum.
fn density_prepass(bitmap: &mut ArtworkBitmap, r: &Rules, touching: bool) {
    let window_px = (r.density_window_um / pitch_um(r, touching)).floor() as u32;
    let density = bitmap.metal_count() as f64 / (bitmap.width * bitmap.height) as f64;
    if window_px > 0 && density > r.density_max {
        let max_count = (r.density_max * (window_px * window_px) as f64).floor() as u32;
        enforce_density_count(bitmap, max_count, window_px);
    }
}

/// Runs of `run` metal pixels alternating with runs of `run` gaps.
fn make_striped(width: u32, height: u32, run: u32) -> ArtworkBitmap {
    let mut bools = vec![false; (width * height) as usize];
    for y in 0..height {
        for x in 0..width {
            if (x / run) % 2 == 0 {
                bools[(y * width + x) as usize] = true;
            }
        }
    }
    ArtworkBitmap::from_bools(width, height, &bools)
}

#[test]
fn generate_layer_polygons_basic() {
    let drc = sky130_met5();
    let mut bitmap = filled(16, 16);
    let rects = generate_layer(&mut bitmap, &drc, PolygonStrategy::RowMerge, true, false, false).unwrap();
    assert!(!rects.is_empty(), "Should produce non-empty rects from filled bitmap with Touching placement");
}

#[test]
fn generate_layer_polygons_density_enforce_false() {
    let drc = sky130_met4();
    let mut bitmap = make_striped(16, 16, 4);
    let rects = generate_layer(&mut bitmap, &drc, PolygonStrategy::RowMerge, true, false, false).unwrap();
    assert!(!rects.is_empty(), "Should produce rects without density enforcement");
}

#[test]
fn generate_layer_polygons_density_enforce_true() {
    let drc = sky130_met4();
    let mut bitmap = make_striped(16, 16, 4);
    let rects = generate_layer(&mut bitmap, &drc, PolygonStrategy::RowMerge, true, true, false).unwrap();
    assert!(!rects.is_empty(), "Should produce rects with density enforcement enabled");
}

#[test]
fn generate_layer_polygons_force_flag() {
    let drc = sky130_met4();
    assert!(drc.density_max < 1.0, "Alt DRC rules should have density_max < 1.0");
    let mut bitmap = filled(16, 16);
    let result = generate_layer(&mut bitmap, &drc, PolygonStrategy::RowMerge, true, true, true);
    assert!(result.is_ok(), "force=true should not error on density violations");
}

#[test]
fn density_prepass_clears_pixels() {
    // floor(48.0 / 1.6) = 30 px window on a 32 x 32 bitmap.
    let drc = Rules { min_width: 1.6, min_spacing: 1.6, min_area: 0.0, density_min: 0.0, density_max: 0.70, density_window_um: 48.0 };
    let mut bitmap = filled(32, 32);
    let density_before = bitmap.metal_count() as f64 / 1024.0;
    assert!((density_before - 1.0).abs() < f64::EPSILON, "Filled bitmap should start at 100% density");
    density_prepass(&mut bitmap, &drc, true);
    let density_after = bitmap.metal_count() as f64 / 1024.0;
    assert!(density_after < density_before, "Density prepass should reduce density");
    assert!(density_after < 0.85, "Density after prepass ({:.3}) should be significantly reduced", density_after);
}
