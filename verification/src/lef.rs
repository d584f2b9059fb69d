//! Layers of a LEF macro.
use vstd::prelude::*;

use crate::polygon::Rect;

verus! {

/// Layer entry for multi-layer LEF output.
pub struct LefLayer<'a> {
    pub rects: &'a [Rect],
    pub layer_name: &'a str,
}

}
