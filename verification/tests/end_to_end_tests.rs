use fabbula::artwork::ArtworkBitmap;
use fabbula::drc::{check_drc, drc_input_fits, DrcLimits, DrcRule, DrcViolation};
use fabbula::polygon::{generate_polygons_dbu, GenerateError, PolygonStrategy, Rect};

const GRID_UM: f64 = 0.005;
const DBU_PER_UM: f64 = 1000.0;

/// An artwork layer's width, spacing and area rules in micrometres.
struct Rules {
    min_width: f64,
    min_spacing: f64,
    min_area: f64,
}

/// sky130's artwork layer (met5): 1.6 um wide and apart, 4 um^2 minimum area.
fn sky130() -> Rules {
    Rules { min_width: 1.6, min_spacing: 1.6, min_area: 4.0 }
}

fn snap(um: f64) -> f64 {
    (um / GRID_UM).round() * GRID_UM
}

fn dbu(um: f64) -> i32 {
    (um * DBU_PER_UM).round() as i32
}

fn min_area_dbu(r: &Rules) -> Option<i64> {
    if r.min_area > 0.0 {
        let side = dbu(r.min_area.sqrt()) as i64;
        Some(side * side)
    } else {
        None
    }
}

fn limits(r: &Rules) -> DrcLimits {
    DrcLimits {
        min_width: dbu(r.min_width),
        min_spacing: dbu(r.min_spacing),
        min_area: min_area_dbu(r).unwrap_or(0),
        max_width: None,
        wide_metal_threshold: None,
        wide_metal_spacing: None,
        density: None,
    }
}

/// Separated placement: pixels `min_width` wide, `min_width + min_spacing` apart.
fn generate_separated(bitmap: &ArtworkBitmap, r: &Rules, strategy: PolygonStrategy) -> Result<Vec<Rect>, GenerateError> {
    let pw = snap(r.min_width);
    let pitch = pw + snap(r.min_spacing);
    generate_polygons_dbu(bitmap, dbu(pw), dbu(pitch), strategy, min_area_dbu(r))
}

fn drc(rects: &[Rect], r: &Rules) -> Vec<DrcViolation> {
    let lim = limits(r);
    assert!(drc_input_fits(rects, &lim));
    check_drc(rects, &lim)
}

#[test]
fn empty_bitmap_produces_empty_gds() {
    let bitmap = ArtworkBitmap::from_bools(16, 16, &[false; 256]);
    let rects = generate_separated(&bitmap, &sky130(), PolygonStrategy::GreedyMerge).unwrap();
    assert!(rects.is_empty(), "all-white bitmap should produce 0 rects");
}

#[test]
fn single_pixel_bitmap() {
    let bitmap = ArtworkBitmap::from_bools(1, 1, &[true]);
    // A layer without a minimum area, so the single pixel is not filtered.
    let rules = Rules { min_area: 0.0, ..sky130() };
    let rects = generate_separated(&bitmap, &rules, PolygonStrategy::PixelRects).unwrap();
    assert_eq!(rects.len(), 1, "single pixel should produce exactly 1 rect");
    let width_violations: Vec<DrcViolation> =
        drc(&rects, &rules).into_iter().filter(|v| matches!(v.rule, DrcRule::MinWidth)).collect();
    assert!(width_violations.is_empty(), "single pixel should satisfy min_width");
}

#[test]
fn all_strategies_drc_clean() {
    let bitmap = ArtworkBitmap::from_bools(
        8,
        8,
        &[
            true, true, false, false, true, true, false, false, true, true, false, false, true, true, false, false,
            false, false, true, true, false, false, true, true, false, false, true, true, false, false, true, true,
            true, true, false, false, true, true, false, false, true, true, false, false, true, true, false, false,
            false, false, true, true, false, false, true, true, false, false, true, true, false, false, true, true,
        ],
    );
    let rules = sky130();
    for strategy in [PolygonStrategy::PixelRects, PolygonStrategy::RowMerge, PolygonStrategy::GreedyMerge] {
        let rects = generate_separated(&bitmap, &rules, strategy).unwrap();
        let violations = drc(&rects, &rules);
        assert!(violations.is_empty(), "{:?} produced DRC violations: {:?}", strategy, violations);
    }
}

#[test]
fn coordinate_overflow_detected() {
    // sky130 pitch = 3200 dbu: 700,000 pixels overflow i32 coordinates.
    let bitmap = ArtworkBitmap::from_bools(700_000, 1, &vec![false; 700_000]);
    let result = generate_separated(&bitmap, &sky130(), PolygonStrategy::PixelRects);
    assert!(result.is_err(), "should detect coordinate overflow");
    assert!(format!("{:?}", result.unwrap_err()).to_lowercase().contains("overflow"), "error should mention overflow");
}

#[test]
fn min_area_filters_small_rects() {
    // Single pixel: 1.6 um square, 2.56 um^2 < min_area 4.0
    let bitmap = ArtworkBitmap::from_bools(1, 1, &[true]);
    let rects = generate_separated(&bitmap, &sky130(), PolygonStrategy::PixelRects).unwrap();
    assert!(rects.is_empty(), "single pixel should be filtered by min_area on sky130");
    // 2x2 block: one merged rect 4.8 um square
    let bitmap2 = ArtworkBitmap::from_bools(2, 2, &[true, true, true, true]);
    let rects2 = generate_separated(&bitmap2, &sky130(), PolygonStrategy::GreedyMerge).unwrap();
    assert!(!rects2.is_empty(), "2x2 block should pass min_area on sky130");
}
