//! Layers of the SVG and HTML previews.
use vstd::prelude::*;

use crate::polygon::Rect;

verus! {

/// Multi-layer entry for SVG preview.
pub struct SvgLayer<'a> {
    pub rects: &'a [Rect],
    pub color: &'a str,
}

/// Multi-layer entry for HTML preview.
pub struct HtmlLayer<'a> {
    pub rects: &'a [Rect],
    pub name: &'a str,
    pub color: &'a str,
}

}
