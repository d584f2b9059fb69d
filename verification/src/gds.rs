//! The geometry written to GDSII: rectangles as closed boundaries.
use vstd::prelude::*;

use crate::polygon::Rect;

verus! {

/// Rectangles associated with a specific GDS layer/datatype pair.
pub struct LayerRects<'a> {
    pub rects: &'a [Rect],
    pub layer: i16,
    pub datatype: i16,
}

/// The boundary points of `rect` shifted by `(offset_x, offset_y)` all fit
/// an `i32`.
pub open spec fn boundary_fits(rect: Rect, offset_x: int, offset_y: int) -> bool {
    &&& i32::MIN <= rect.x0 + offset_x <= i32::MAX
    &&& i32::MIN <= rect.x1 + offset_x <= i32::MAX
    &&& i32::MIN <= rect.y0 + offset_y <= i32::MAX
    &&& i32::MIN <= rect.y1 + offset_y <= i32::MAX
}

/// The closed boundary of `rect` shifted by `(offset_x, offset_y)`:
/// lower-left, lower-right, upper-right, upper-left, and lower-left again.
pub fn boundary_points(rect: &Rect, offset_x: i32, offset_y: i32) -> (r: Vec<(i32, i32)>)
    requires
        boundary_fits(*rect, offset_x as int, offset_y as int),
    ensures
        r@ == seq![
            ((rect.x0 + offset_x) as i32, (rect.y0 + offset_y) as i32),
            ((rect.x1 + offset_x) as i32, (rect.y0 + offset_y) as i32),
            ((rect.x1 + offset_x) as i32, (rect.y1 + offset_y) as i32),
            ((rect.x0 + offset_x) as i32, (rect.y1 + offset_y) as i32),
            ((rect.x0 + offset_x) as i32, (rect.y0 + offset_y) as i32),
        ],
{
    let x0 = rect.x0 + offset_x;
    let x1 = rect.x1 + offset_x;
    let y0 = rect.y0 + offset_y;
    let y1 = rect.y1 + offset_y;
    let r = vec![(x0, y0), (x1, y0), (x1, y1), (x0, y1), (x0, y0)];
    assert(r@ =~= seq![(x0, y0), (x1, y0), (x1, y1), (x0, y1), (x0, y0)]);
    r
}

}
