//! Placement of artwork on the layout: the default core area inside a die
//! outline, and the layout rectangle covered by a box of bitmap pixels.
use vstd::prelude::*;

use crate::polygon::{fits_i32, max_i, min_i, rect_spec, Rect};

verus! {

/// The core area is inset from the die outline by a tenth of each side.
pub const DEFAULT_CORE_INSET_DIV: i32 = 10;

/// The inset along a side of length `n` (at least 4): a tenth of it, at
/// least 1 and less than half of it.
pub open spec fn core_inset(n: int) -> int {
    min_i(max_i(n / DEFAULT_CORE_INSET_DIV as int, 1), n / 2 - 1)
}

/// The default core area of a die outline `full`: the outline inset by
/// `core_inset` of its width and height on every side; the outline itself
/// when a side is shorter than 4 or nothing would remain.
pub open spec fn core_area(full: Rect) -> Rect {
    let w = max_i(full.x1 - full.x0, 1);
    let h = max_i(full.y1 - full.y0, 1);
    if w < 4 || h < 4 {
        full
    } else {
        let x0 = full.x0 + core_inset(w);
        let y0 = full.y0 + core_inset(h);
        let x1 = full.x1 - core_inset(w);
        let y1 = full.y1 - core_inset(h);
        if x1 <= x0 || y1 <= y0 {
            full
        } else {
            rect_spec(x0, y0, x1, y1)
        }
    }
}

/// The default core area inside a die outline (`core_area`).
pub fn default_core_area_rect(full: Rect) -> (r: Rect)
    requires
        full.width_fits(),
        full.height_fits(),
    ensures
        r == core_area(full),
{
    let fw = full.width();
    let fh = full.height();
    let w = if fw > 1 { fw } else { 1 };
    let h = if fh > 1 { fh } else { 1 };
    if w < 4 || h < 4 {
        return full;
    }
    let mut inset_x = if w / DEFAULT_CORE_INSET_DIV > 1 { w / DEFAULT_CORE_INSET_DIV } else { 1 };
    let mut inset_y = if h / DEFAULT_CORE_INSET_DIV > 1 { h / DEFAULT_CORE_INSET_DIV } else { 1 };
    let half_x = w / 2 - 1;
    let half_y = h / 2 - 1;
    if half_x < inset_x {
        inset_x = half_x;
    }
    if half_y < inset_y {
        inset_y = half_y;
    }
    let x0 = full.x0 + inset_x;
    let y0 = full.y0 + inset_y;
    let x1 = full.x1 - inset_x;
    let y1 = full.y1 - inset_y;
    if x1 <= x0 || y1 <= y0 {
        full
    } else {
        Rect::new(x0, y0, x1, y1)
    }
}

/// The corners of the layout rectangle covered by the `w x h` box of
/// pixels at `(x, y)` (row 0 at the top) of a bitmap `bitmap_h` pixels
/// high, for pixels of side `pixel_w` laid `pitch` apart.
pub open spec fn box_corners(x: int, y: int, w: int, h: int, bitmap_h: int, pitch: int, pixel_w: int) -> (
    int,
    int,
    int,
    int,
) {
    (
        x * pitch,
        max_i(bitmap_h - (y + h), 0) * pitch,
        (x + max_i(w - 1, 0)) * pitch + pixel_w,
        max_i(bitmap_h - (y + 1), 0) * pitch + pixel_w,
    )
}

/// The pixel indices of the box fit an `i32`, and so do its corners.
pub open spec fn box_fits(x: int, y: int, w: int, h: int, bitmap_h: int, pitch: int, pixel_w: int) -> bool {
    let (x0, y0, x1, y1) = box_corners(x, y, w, h, bitmap_h, pitch, pixel_w);
    &&& x + max_i(w - 1, 0) <= i32::MAX
    &&& y + h <= u32::MAX
    &&& y + 1 <= u32::MAX
    &&& bitmap_h <= i32::MAX
    &&& fits_i32(x0, y0, x1, y1)
    &&& i32::MIN <= x * pitch <= i32::MAX
    &&& i32::MIN <= (x + max_i(w - 1, 0)) * pitch <= i32::MAX
    &&& i32::MIN <= max_i(bitmap_h - (y + h), 0) * pitch <= i32::MAX
    &&& i32::MIN <= max_i(bitmap_h - (y + 1), 0) * pitch <= i32::MAX
}

/// The layout rectangle covered by a box of bitmap pixels.
pub fn bitmap_box_to_layout_rect(
    x: u32,
    y: u32,
    w: u32,
    h: u32,
    bitmap_h: u32,
    pitch_dbu: i32,
    pixel_w_dbu: i32,
) -> (r: Rect)
    requires
        box_fits(x as int, y as int, w as int, h as int, bitmap_h as int, pitch_dbu as int, pixel_w_dbu as int),
    ensures
        ({
            let (x0, y0, x1, y1) = box_corners(
                x as int,
                y as int,
                w as int,
                h as int,
                bitmap_h as int,
                pitch_dbu as int,
                pixel_w_dbu as int,
            );
            r == rect_spec(x0, y0, x1, y1)
        }),
{
    let x_last = x + w.saturating_sub(1);
    let y_low = bitmap_h.saturating_sub(y + h);
    let y_high = bitmap_h.saturating_sub(y + 1);
    let x0 = (x as i32) * pitch_dbu;
    let x1 = (x_last as i32) * pitch_dbu + pixel_w_dbu;
    let y0 = (y_low as i32) * pitch_dbu;
    let y1 = (y_high as i32) * pitch_dbu + pixel_w_dbu;
    Rect::new(x0, y0, x1, y1)
}

} // verus!
