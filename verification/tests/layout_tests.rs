use fabbula::layout::{bitmap_box_to_layout_rect, default_core_area_rect};
use fabbula::polygon::Rect;

#[test]
fn core_area_insets_a_tenth() {
    let r = default_core_area_rect(Rect::new(0, 0, 100, 50));
    assert_eq!(r, Rect::new(10, 5, 90, 45));
}

#[test]
fn core_area_of_small_outline_is_outline() {
    let full = Rect::new(0, 0, 3, 10);
    assert_eq!(default_core_area_rect(full), full);
}

#[test]
fn core_area_keeps_something_of_narrow_outline() {
    assert_eq!(default_core_area_rect(Rect::new(0, 0, 4, 4)), Rect::new(1, 1, 3, 3));
}

#[test]
fn bitmap_box_maps_to_layout() {
    // Columns 2..=4, rows 1..=2 of a 10-row bitmap, pitch 10, pixel 8.
    assert_eq!(bitmap_box_to_layout_rect(2, 1, 3, 2, 10, 10, 8), Rect::new(20, 70, 48, 88));
}

#[test]
fn bitmap_box_of_zero_width() {
    assert_eq!(bitmap_box_to_layout_rect(2, 1, 0, 0, 10, 10, 8), Rect::new(20, 88, 28, 90));
}
