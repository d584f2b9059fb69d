use fabbula::artwork::ArtworkBitmap;
use fabbula::text::render_text;

fn bitmaps_equal(a: &ArtworkBitmap, b: &ArtworkBitmap) -> bool {
    if a.width != b.width || a.height != b.height {
        return false;
    }
    for y in 0..a.height {
        for x in 0..a.width {
            if a.get(x, y) != b.get(x, y) {
                return false;
            }
        }
    }
    true
}

#[test]
fn test_render_single_char_dimensions() {
    let bmp = render_text("A", 1, 0, 2);
    assert_eq!(bmp.width, 8);
    assert_eq!(bmp.height, 16);
    assert!(bmp.metal_count() > 0);
}

#[test]
fn test_render_string_dimensions() {
    let bmp = render_text("HELLO", 1, 0, 2);
    assert_eq!(bmp.width, 40);
    assert_eq!(bmp.height, 16);
}

#[test]
fn test_render_scale_2() {
    let bmp = render_text("A", 2, 0, 2);
    assert_eq!(bmp.width, 16);
    assert_eq!(bmp.height, 32);
}

#[test]
fn test_render_multiline_dimensions() {
    let bmp = render_text("A\nB", 1, 0, 2);
    assert_eq!(bmp.width, 8);
    assert_eq!(bmp.height, 34);
}

#[test]
fn test_render_char_spacing() {
    let a = render_text("AB", 1, 0, 2);
    let b = render_text("AB", 1, 3, 2);
    assert_eq!(a.width + 3, b.width);
}

#[test]
fn test_render_line_spacing() {
    let a = render_text("A\nB", 1, 0, 2);
    let b = render_text("A\nB", 1, 0, 5);
    assert_eq!(a.height + 3, b.height);
}

#[test]
fn test_render_non_ascii_fallback() {
    let bmp = render_text("ä", 1, 0, 2);
    assert!(bmp.metal_count() > 0);
}

#[test]
fn test_render_empty_string() {
    let bmp = render_text("", 1, 0, 2);
    assert_eq!(bmp.width, 1);
    assert_eq!(bmp.height, 16);
}

#[test]
fn test_render_space_char_is_empty() {
    let bmp = render_text(" ", 1, 0, 2);
    assert_eq!(bmp.width, 8);
    assert_eq!(bmp.height, 16);
    assert_eq!(bmp.metal_count(), 0);
}

#[test]
fn test_lowercase_maps_to_uppercase() {
    let lower = render_text("abcxyz", 1, 1, 2);
    let upper = render_text("ABCXYZ", 1, 1, 2);
    assert!(bitmaps_equal(&lower, &upper));
}

#[test]
fn test_render_all_supported_glyph_branches() {
    let text = " -_.:/?0123456789ABCDEFGHIJKLMNOPQRSTUVWXYZ";
    let bmp = render_text(text, 1, 0, 2);
    assert!(bmp.width > 0);
    assert_eq!(bmp.height, 16);
    assert!(bmp.metal_count() > 0);
}

#[test]
fn dash_glyph_pixels() {
    // '-' is row 3 = 0b01111100, doubled to rows 6 and 7.
    let bmp = render_text("-", 1, 0, 0);
    for y in 0..16u32 {
        for x in 0..8u32 {
            let expected = (y == 6 || y == 7) && (1..=5).contains(&x);
            assert_eq!(bmp.get(x, y), expected, "pixel ({x}, {y})");
        }
    }
    assert_eq!(bmp.metal_count(), 10);
}

#[test]
fn scale_zero_counts_as_one() {
    let a = render_text("Q", 0, 0, 0);
    let b = render_text("Q", 1, 0, 0);
    assert!(bitmaps_equal(&a, &b));
}

#[test]
fn scaled_pixels_are_blocks() {
    let small = render_text("7", 1, 0, 0);
    let big = render_text("7", 3, 0, 0);
    for y in 0..big.height {
        for x in 0..big.width {
            assert_eq!(big.get(x, y), small.get(x / 3, y / 3));
        }
    }
}

#[test]
fn unknown_ascii_and_non_ascii_draw_question_mark() {
    let q = render_text("?", 1, 0, 0);
    assert!(bitmaps_equal(&render_text("#", 1, 0, 0), &q));
    assert!(bitmaps_equal(&render_text("é", 1, 0, 0), &q));
}

#[test]
fn trailing_newline_adds_an_empty_line() {
    let bmp = render_text("A\n", 1, 0, 4);
    assert_eq!(bmp.height, 16 * 2 + 4);
    assert_eq!(bmp.width, 8);
    let only_first = render_text("A", 1, 0, 4);
    assert_eq!(bmp.metal_count(), only_first.metal_count());
}
