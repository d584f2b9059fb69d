use fabbula::artwork::ArtworkBitmap;
use fabbula::polygon::{
    bounding_box, generate_polygons_dbu, greedy_merged_rects, pixel_rects, row_merged_rects, GenerateError,
    PolygonStrategy, Rect,
};

#[test]
fn test_pixel_rects() {
    let bmp = ArtworkBitmap::from_bools(4, 2, &[true, true, true, false, false, true, true, true]);
    let rects = pixel_rects(&bmp, 100, 200);
    assert_eq!(rects.len(), 6);
}

#[test]
fn test_row_merge() {
    let bmp = ArtworkBitmap::from_bools(4, 2, &[true, true, true, false, false, true, true, true]);
    let rects = row_merged_rects(&bmp, 100, 200);
    assert_eq!(rects.len(), 2);
}

#[test]
fn test_greedy_merge() {
    let bmp = ArtworkBitmap::from_bools(3, 3, &[true; 9]);
    let rects = greedy_merged_rects(&bmp, 100, 100);
    assert_eq!(rects.len(), 1);
}

#[test]
fn pixel_rects_places_rows_from_the_top() {
    let bmp = ArtworkBitmap::from_bools(2, 2, &[true, false, false, true]);
    let rects = pixel_rects(&bmp, 10, 15);
    assert_eq!(rects, vec![Rect::new(0, 15, 10, 25), Rect::new(15, 0, 25, 10)]);
}

#[test]
fn row_merge_spans_runs() {
    let bmp = ArtworkBitmap::from_bools(4, 1, &[true, true, false, true]);
    let rects = row_merged_rects(&bmp, 10, 15);
    assert_eq!(rects, vec![Rect::new(0, 0, 25, 10), Rect::new(45, 0, 55, 10)]);
}

#[test]
fn greedy_merge_covers_every_metal_pixel() {
    let bools = [true, true, false, true, true, true, false, true, true];
    let bmp = ArtworkBitmap::from_bools(3, 3, &bools);
    let rects = greedy_merged_rects(&bmp, 10, 10);
    for y in 0..3i32 {
        for x in 0..3i32 {
            let cx = x * 10 + 5;
            let cy = (2 - y) * 10 + 5;
            let covered = rects.iter().any(|r| r.x0 <= cx && cx < r.x1 && r.y0 <= cy && cy < r.y1);
            assert_eq!(covered, bools[(y * 3 + x) as usize]);
        }
    }
}

#[test]
fn generate_reports_coordinate_overflow() {
    let bmp = ArtworkBitmap::from_bools(2, 1, &[true, true]);
    assert_eq!(
        generate_polygons_dbu(&bmp, 10, i32::MAX, PolygonStrategy::PixelRects, None),
        Err(GenerateError::CoordinateOverflow)
    );
}

#[test]
fn generate_filters_small_rects() {
    let bmp = ArtworkBitmap::from_bools(3, 1, &[true, false, true]);
    let all = generate_polygons_dbu(&bmp, 10, 20, PolygonStrategy::RowMerge, None).unwrap();
    assert_eq!(all.len(), 2);
    let none = generate_polygons_dbu(&bmp, 10, 20, PolygonStrategy::RowMerge, Some(101)).unwrap();
    assert!(none.is_empty());
    let kept = generate_polygons_dbu(&bmp, 10, 20, PolygonStrategy::PixelRects, Some(100)).unwrap();
    assert_eq!(kept.len(), 2);
}

#[test]
fn generated_rects_keep_width_and_spacing() {
    let bools: Vec<bool> = (0..8 * 8).map(|i| (i * 7) % 5 != 0).collect();
    let bmp = ArtworkBitmap::from_bools(8, 8, &bools);
    for strategy in [PolygonStrategy::PixelRects, PolygonStrategy::RowMerge, PolygonStrategy::GreedyMerge] {
        let rects = generate_polygons_dbu(&bmp, 300, 450, strategy, None).unwrap();
        for r in &rects {
            assert!(r.width() >= 300 && r.height() >= 300);
        }
    }
}

#[test]
fn rect_basics() {
    let r = Rect::new(10, 20, 0, 5);
    assert_eq!(r, Rect { x0: 0, y0: 5, x1: 10, y1: 20 });
    assert_eq!(r.width(), 10);
    assert_eq!(r.height(), 15);
    assert_eq!(r.area(), 150);
    let s = Rect::new(10, 5, 12, 20);
    assert!(r.can_merge_right(&s));
    assert_eq!(r.merge_right(&s), Rect::new(0, 5, 12, 20));
    assert_eq!(r.to_gds_xy(), vec![0, 5, 10, 5, 10, 20, 0, 20, 0, 5]);
    assert_eq!(bounding_box(&[r, Rect::new(-5, 30, -1, 40)]), Some(Rect::new(-5, 5, 10, 40)));
    assert_eq!(bounding_box(&[]), None);
}

#[test]
fn greedy_merge_prefers_the_larger_block() {
    // Rows (top first): "##", "#.", "#.". From (0, 0) the tallest block
    // (1 x 3, area 3) beats the widest (2 x 1, area 2); (1, 0) is left.
    let bmp = ArtworkBitmap::from_bools(2, 3, &[true, true, true, false, true, false]);
    let rects = greedy_merged_rects(&bmp, 10, 10);
    // Pixel (x, y) spans [x * 10, x * 10 + 10] and rows grow upwards.
    assert_eq!(rects, vec![Rect::new(0, 0, 10, 30), Rect::new(10, 20, 20, 30)]);
}

#[test]
fn greedy_merge_keeps_fewest_rows_on_equal_area() {
    // Rows: "##", "#.": a 2 x 1 block and a 1 x 2 block tie at area 2; the
    // first found (one row) is kept.
    let bmp = ArtworkBitmap::from_bools(2, 2, &[true, true, true, false]);
    let rects = greedy_merged_rects(&bmp, 10, 10);
    assert_eq!(rects, vec![Rect::new(0, 10, 20, 20), Rect::new(0, 0, 10, 10)]);
}
