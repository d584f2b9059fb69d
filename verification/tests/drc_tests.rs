use fabbula::artwork::ArtworkBitmap;
use fabbula::drc::{
    check_density_only, check_drc, check_drc_capped, DensityLimits, DrcLimits, DrcRule, DrcViolation,
};
use fabbula::polygon::{generate_polygons_dbu, PolygonStrategy, Rect};

const DBU_PER_UM: u32 = 1000;

/// Design rules in micrometres, as a PDK states them.
#[derive(Clone)]
struct Rules {
    min_width: f64,
    min_spacing: f64,
    min_area: f64,
    density_min: f64,
    density_max: f64,
    density_window_um: f64,
    max_width: Option<f64>,
    wide_metal_threshold: Option<f64>,
    wide_metal_spacing: Option<f64>,
}

fn um_to_dbu(um: f64, dbu: u32) -> i32 {
    (um * dbu as f64).round() as i32
}

fn limits(r: &Rules, dbu: u32) -> DrcLimits {
    let min_area = if r.min_area > 0.0 {
        let side = um_to_dbu(r.min_area.sqrt(), dbu) as i64;
        side * side
    } else {
        0
    };
    let density = if r.density_max >= 1.0 && r.density_min <= 0.0 {
        None
    } else {
        let window = um_to_dbu(r.density_window_um, dbu);
        let area = window as i64 * window as i64;
        Some(DensityLimits {
            window,
            max_metal: (r.density_max * area as f64) as i64,
            min_metal: (r.density_min * area as f64) as i64,
            max_permille: (r.density_max * 1000.0) as i64,
            min_permille: (r.density_min * 1000.0) as i64,
        })
    };
    DrcLimits {
        min_width: um_to_dbu(r.min_width, dbu),
        min_spacing: um_to_dbu(r.min_spacing, dbu),
        min_area,
        max_width: r.max_width.map(|w| um_to_dbu(w, dbu)),
        wide_metal_threshold: r.wide_metal_threshold.map(|t| um_to_dbu(t, dbu)),
        wide_metal_spacing: r.wide_metal_spacing.map(|s| um_to_dbu(s, dbu)),
        density,
    }
}

fn basic_rules() -> Rules {
    Rules {
        min_width: 1.0,
        min_spacing: 0.5,
        min_area: 2.0,
        density_min: 0.0,
        density_max: 1.0,
        density_window_um: 500.0,
        max_width: None,
        wide_metal_threshold: None,
        wide_metal_spacing: None,
    }
}

fn cu_rules() -> Rules {
    Rules {
        min_width: 0.300,
        min_spacing: 0.300,
        min_area: 0.240,
        density_min: 0.0,
        density_max: 0.77,
        density_window_um: 50.0,
        max_width: Some(10.0),
        wide_metal_threshold: Some(1.5),
        wide_metal_spacing: Some(0.400),
    }
}

fn drc(rects: &[Rect], r: &Rules) -> Vec<DrcViolation> {
    check_drc(rects, &limits(r, DBU_PER_UM))
}

#[test]
fn test_width_violation() {
    let rules = basic_rules();
    let min_w = um_to_dbu(rules.min_width, DBU_PER_UM);
    let rects = vec![Rect::new(0, 0, min_w - 1, min_w)];
    let v = drc(&rects, &rules);
    assert!(v.iter().any(|v| v.rule == DrcRule::MinWidth));
}

#[test]
fn test_spacing_violation() {
    let rules = basic_rules();
    let min_w = um_to_dbu(rules.min_width, DBU_PER_UM);
    let min_s = um_to_dbu(rules.min_spacing, DBU_PER_UM);
    let rects = vec![Rect::new(0, 0, min_w, min_w), Rect::new(min_w + min_s - 1, 0, min_w + min_s - 1 + min_w, min_w)];
    let v = drc(&rects, &rules);
    assert!(v.iter().any(|v| v.rule == DrcRule::MinSpacing));
}

#[test]
fn test_clean_rects() {
    let rules = basic_rules();
    let min_w = um_to_dbu(rules.min_width, DBU_PER_UM);
    let min_s = um_to_dbu(rules.min_spacing, DBU_PER_UM);
    let size = min_w * 2;
    let rects = vec![Rect::new(0, 0, size, size), Rect::new(size + min_s, 0, 2 * size + min_s, size)];
    let v = drc(&rects, &rules);
    let non_density: Vec<_> =
        v.iter().filter(|v| !matches!(v.rule, DrcRule::DensityMax | DrcRule::DensityMin)).collect();
    assert!(non_density.is_empty(), "Unexpected violations: {:?}", non_density);
}

#[test]
fn test_large_rect_count_no_skip() {
    let rules = basic_rules();
    let min_w = um_to_dbu(rules.min_width, DBU_PER_UM);
    let min_s = um_to_dbu(rules.min_spacing, DBU_PER_UM);
    let size = min_w * 2;
    let pitch = size + min_s;
    let mut rects = Vec::new();
    let side = 110;
    for iy in 0..side {
        for ix in 0..side {
            rects.push(Rect::new(ix * pitch, iy * pitch, ix * pitch + size, iy * pitch + size));
        }
    }
    assert!(rects.len() > 10_000);
    let v = drc(&rects, &rules);
    let structural: Vec<_> = v
        .iter()
        .filter(|v| matches!(v.rule, DrcRule::MinWidth | DrcRule::MinSpacing | DrcRule::MinArea))
        .collect();
    assert!(structural.is_empty(), "Unexpected violations: {:?}", structural);
}

#[test]
fn test_density_violation() {
    let rules = Rules { density_max: 0.77, density_window_um: 50.0, ..basic_rules() };
    let window_dbu = um_to_dbu(rules.density_window_um, DBU_PER_UM);
    let rects = vec![Rect::new(0, 0, window_dbu, window_dbu)];
    let v = drc(&rects, &rules);
    assert!(v.iter().any(|v| v.rule == DrcRule::DensityMax), "Expected density violation for 100% fill");
}

#[test]
fn test_max_width_violation() {
    let rules = cu_rules();
    let max_w_dbu = um_to_dbu(rules.max_width.unwrap(), DBU_PER_UM);
    let rects = vec![Rect::new(0, 0, max_w_dbu + 100, 500)];
    let v = drc(&rects, &rules);
    assert!(v.iter().any(|v| v.rule == DrcRule::MaxWidth), "Expected max_width violation for oversized rect");
}

#[test]
fn test_wide_metal_spacing_violation() {
    let rules = cu_rules();
    let thresh_dbu = um_to_dbu(rules.wide_metal_threshold.unwrap(), DBU_PER_UM);
    let min_s_dbu = um_to_dbu(rules.min_spacing, DBU_PER_UM);
    let wide_s_dbu = um_to_dbu(rules.wide_metal_spacing.unwrap(), DBU_PER_UM);
    let gap = (min_s_dbu + wide_s_dbu) / 2;
    let rects = vec![
        Rect::new(0, 0, thresh_dbu, thresh_dbu),
        Rect::new(thresh_dbu + gap, 0, 2 * thresh_dbu + gap, thresh_dbu),
    ];
    let v = drc(&rects, &rules);
    assert!(
        v.iter().any(|v| v.rule == DrcRule::WideMetalSpacing),
        "Expected wide_metal_spacing violation, got: {:?}",
        v
    );
}

#[test]
fn test_wide_metal_spacing_clean() {
    let rules = cu_rules();
    let min_s_dbu = um_to_dbu(rules.min_spacing, DBU_PER_UM);
    let min_w_dbu = um_to_dbu(rules.min_width, DBU_PER_UM);
    let size = min_w_dbu * 2;
    let rects = vec![Rect::new(0, 0, size, size), Rect::new(size + min_s_dbu, 0, 2 * size + min_s_dbu, size)];
    let v = drc(&rects, &rules);
    let spacing_violations: Vec<_> =
        v.iter().filter(|v| matches!(v.rule, DrcRule::MinSpacing | DrcRule::WideMetalSpacing)).collect();
    assert!(spacing_violations.is_empty(), "Unexpected spacing violations: {:?}", spacing_violations);
}

#[test]
fn test_early_exit_cap() {
    let rules = basic_rules();
    let rects: Vec<Rect> = (0..100).map(|i| Rect::new(i * 100, 0, i * 100 + 1, 1)).collect();
    let lim = limits(&rules, DBU_PER_UM);
    let uncapped = check_drc(&rects, &lim);
    let capped = check_drc_capped(&rects, &lim, Some(10));
    assert!(capped.len() <= 15, "cap should limit violations, got {}", capped.len());
    assert!(capped.len() < uncapped.len(), "capped ({}) should be less than uncapped ({})", capped.len(), uncapped.len());
}

#[test]
fn test_check_density_only() {
    let rules = Rules { density_max: 0.77, density_window_um: 50.0, ..basic_rules() };
    let window_dbu = um_to_dbu(rules.density_window_um, DBU_PER_UM);
    let rects = vec![Rect::new(0, 0, window_dbu, window_dbu)];
    let v = check_density_only(&rects, &limits(&rules, DBU_PER_UM), None);
    assert!(v.iter().any(|v| v.rule == DrcRule::DensityMax), "Expected density violation for 100% fill");
    assert!(
        v.iter().all(|v| matches!(v.rule, DrcRule::DensityMax | DrcRule::DensityMin)),
        "check_density_only should only return density violations"
    );
}

#[test]
fn test_check_density_only_clean() {
    let rules = Rules { density_max: 0.77, density_window_um: 50.0, ..basic_rules() };
    let window_dbu = um_to_dbu(rules.density_window_um, DBU_PER_UM);
    let half = window_dbu / 2;
    let rects = vec![Rect::new(0, 0, half, window_dbu)];
    let v = check_density_only(&rects, &limits(&rules, DBU_PER_UM), None);
    assert!(v.is_empty(), "50% fill should pass 77% density limit, got {:?}", v);
}

fn plain_limits() -> DrcLimits {
    DrcLimits {
        min_width: 10,
        min_spacing: 5,
        min_area: 0,
        max_width: None,
        wide_metal_threshold: None,
        wide_metal_spacing: None,
        density: None,
    }
}

#[test]
fn width_violations_report_each_dimension() {
    let lim = DrcLimits { min_area: 200, max_width: Some(30), ..plain_limits() };
    let v = check_drc(&[Rect::new(0, 0, 8, 40)], &lim);
    assert_eq!(
        v,
        vec![
            DrcViolation { rule: DrcRule::MinWidth, rect_index: 0, other_index: 0, value: 8, limit: 10, location: (0, 0) },
            DrcViolation { rule: DrcRule::MaxWidth, rect_index: 0, other_index: 0, value: 40, limit: 30, location: (0, 0) },
        ]
    );
    let v = check_drc(&[Rect::new(3, 4, 12, 12)], &lim);
    assert_eq!(v.len(), 3);
    assert_eq!(v[0].value, 9);
    assert_eq!(v[1].value, 8);
    assert_eq!((v[2].rule, v[2].value, v[2].limit, v[2].location), (DrcRule::MinArea, 72, 200, (3, 4)));
}

#[test]
fn spacing_is_reported_once_per_pair() {
    let rects = [Rect::new(0, 0, 10, 10), Rect::new(13, 0, 23, 10), Rect::new(0, 12, 10, 22)];
    let v = check_drc(&rects, &plain_limits());
    assert_eq!(v.len(), 3);
    assert!(v.iter().all(|x| x.rule == DrcRule::MinSpacing && x.limit == 5));
    let mut pairs: Vec<(u32, u32, i64)> = v.iter().map(|x| (x.rect_index, x.other_index, x.value)).collect();
    pairs.sort();
    // The diagonal pair measures the smaller of its two gaps.
    assert_eq!(pairs, vec![(0, 1, 3), (0, 2, 2), (1, 2, 2)]);
}

#[test]
fn touching_and_diagonal_rects() {
    // Touching rects have spacing 0 and are never reported; diagonal ones
    // measure the smaller axis gap.
    let rects = [Rect::new(0, 0, 10, 10), Rect::new(10, 0, 20, 10), Rect::new(22, 13, 32, 23)];
    let v = check_drc(&rects, &plain_limits());
    assert_eq!(v.len(), 1);
    assert_eq!((v[0].rect_index, v[0].other_index, v[0].value), (1, 2, 2));
}

#[test]
fn density_reports_permille_per_window() {
    let lim = DrcLimits {
        density: Some(DensityLimits { window: 10, max_metal: 50, min_metal: 20, max_permille: 500, min_permille: 200 }),
        ..plain_limits()
    };
    // A 20x10 box: left half full, right half empty; windows step by 5.
    let rects = [Rect::new(0, 0, 10, 10), Rect::new(19, 9, 20, 10)];
    let v = check_density_only(&rects, &lim, None);
    let reported: Vec<(DrcRule, i64, (i32, i32))> = v.iter().map(|x| (x.rule, x.value, x.location)).collect();
    assert_eq!(
        reported,
        vec![(DrcRule::DensityMax, 1000, (0, 0)), (DrcRule::DensityMin, 10, (10, 0))]
    );
}

#[test]
fn capped_check_is_prefix_of_full_check() {
    let rects: Vec<Rect> = (0..20).map(|i| Rect::new(i * 30, 0, i * 30 + 5, 5)).collect();
    let lim = plain_limits();
    let full = check_drc(&rects, &lim);
    assert_eq!(full.len(), 40);
    for cap in [0usize, 1, 3, 10, 39, 40, 100] {
        let part = check_drc_capped(&rects, &lim, Some(cap));
        assert_eq!(&full[..part.len()], &part[..]);
        assert!(part.len() == full.len() || part.len() >= cap);
    }
}

#[test]
fn generated_rects_have_no_width_or_spacing_violations() {
    let bools: Vec<bool> = (0..12 * 12).map(|i| (i * 5) % 7 < 4).collect();
    let bmp = ArtworkBitmap::from_bools(12, 12, &bools);
    let lim = DrcLimits { min_width: 300, min_spacing: 150, ..plain_limits() };
    for strategy in [PolygonStrategy::PixelRects, PolygonStrategy::RowMerge, PolygonStrategy::GreedyMerge] {
        let rects = generate_polygons_dbu(&bmp, 300, 450, strategy, None).unwrap();
        let v = check_drc(&rects, &lim);
        assert!(v.iter().all(|x| x.rule != DrcRule::MinWidth && x.rule != DrcRule::MinSpacing), "{:?}", v);
    }
}

#[test]
fn rule_names() {
    assert_eq!(DrcRule::MinWidth.name(), "min_width");
    assert_eq!(DrcRule::WideMetalSpacing.name(), "wide_metal_spacing");
    assert_eq!(DrcRule::DensityMin.name(), "density_min");
}
