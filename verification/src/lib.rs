//! DRC-aware conversion of binary artwork bitmaps into chip layout rectangles.
//!
//! The library holds the verified core of an image-to-GDSII artwork
//! generator: a packed artwork bitmap, rectangle generation strategies whose
//! output is DRC-clean by construction, integer design-rule checks, density
//! enforcement with a feedback loop, text and QR overlays, tile-pyramid
//! arithmetic, and the small parsers used by the command line front end.
use vstd::prelude::*;

pub mod artwork;
pub mod bits;
pub mod cli;
pub mod color;
pub mod density;
pub mod drc;
pub mod gds;
pub mod generation;
pub mod layout;
pub mod lef;
pub mod lint;
pub mod mask;
pub mod pdk;
pub mod polygon;
pub mod preview;
pub mod qr;
pub mod text;
pub mod tiles;
