//! Multi-layer artwork from colour images: each layer whose profile names
//! a colour channel gets that channel thresholded into its own bitmap.
use vstd::prelude::*;

use crate::artwork::{
    ArtworkBitmap, chars_of, eq_ignore_ascii_case, matches_ignore_case, threshold_bitmap, threshold_pixel,
};

verus! {

/// Colour extraction mode for multi-layer artwork.
#[derive(Debug, Clone, Copy, PartialEq, Eq, Structural)]
pub enum ColorMode {
    /// Extract R/G/B channels and map them to layers by the profiles' colour.
    Channel,
    /// Quantize into N colours, one per layer.
    Palette,
}

/// A bitmap associated with a specific layer profile index.
pub struct LayerBitmap {
    pub bitmap: ArtworkBitmap,
    pub layer_index: usize,
}

/// Why channel extraction produced nothing.
#[derive(Debug, Clone, Copy, PartialEq, Eq, Structural)]
pub enum ColorError {
    /// No layer profile names a red, green or blue channel.
    NoChannelLayers,
}

/// The RGBA channel a colour name selects: `red`/`r` 0, `green`/`g` 1,
/// `blue`/`b` 2, in any case.
pub open spec fn channel_of(name: Seq<char>) -> Option<int> {
    if eq_ignore_ascii_case(name, seq!['r', 'e', 'd']) || eq_ignore_ascii_case(name, seq!['r']) {
        Some(0)
    } else if eq_ignore_ascii_case(name, seq!['g', 'r', 'e', 'e', 'n']) || eq_ignore_ascii_case(name, seq!['g']) {
        Some(1)
    } else if eq_ignore_ascii_case(name, seq!['b', 'l', 'u', 'e']) || eq_ignore_ascii_case(name, seq!['b']) {
        Some(2)
    } else {
        None
    }
}

/// The channel of a layer's optional colour.
pub open spec fn layer_channel(color: Option<String>) -> Option<int> {
    match color {
        Some(c) => channel_of(c@),
        None => None,
    }
}

/// The layers among `colors` that select a channel, in order, with the
/// channel each selects.
pub open spec fn channel_layers(colors: Seq<Option<String>>) -> Seq<(int, int)>
    decreases colors.len(),
{
    if colors.len() == 0 {
        Seq::empty()
    } else {
        let rest = channel_layers(colors.drop_last());
        match layer_channel(colors.last()) {
            Some(ch) => rest.push(((colors.len() - 1) as int, ch)),
            None => rest,
        }
    }
}

/// The channel selected by a colour name.
pub fn channel_index(color: &str) -> (r: Option<usize>)
    ensures
        r matches Some(c) ==> channel_of(color@) == Some(c as int),
        r is None ==> channel_of(color@) is None,
{
    let cs = chars_of(color);
    let red = vec!['r', 'e', 'd'];
    let r = vec!['r'];
    let green = vec!['g', 'r', 'e', 'e', 'n'];
    let g = vec!['g'];
    let blue = vec!['b', 'l', 'u', 'e'];
    let b = vec!['b'];
    assert(red@ =~= seq!['r', 'e', 'd']);
    assert(r@ =~= seq!['r']);
    assert(green@ =~= seq!['g', 'r', 'e', 'e', 'n']);
    assert(g@ =~= seq!['g']);
    assert(blue@ =~= seq!['b', 'l', 'u', 'e']);
    assert(b@ =~= seq!['b']);
    if matches_ignore_case(&cs, &red) || matches_ignore_case(&cs, &r) {
        Some(0)
    } else if matches_ignore_case(&cs, &green) || matches_ignore_case(&cs, &g) {
        Some(1)
    } else if matches_ignore_case(&cs, &blue) || matches_ignore_case(&cs, &b) {
        Some(2)
    } else {
        None
    }
}

/// Threshold the channel that each layer's colour selects out of an RGBA
/// image (metal where the channel is at or above `thresh`), one bitmap per
/// such layer in layer order; an error when no layer selects a channel.
pub fn extract_channel_layers(
    width: u32,
    height: u32,
    rgba: &[u8],
    colors: &[Option<String>],
    thresh: u8,
) -> (r: Result<Vec<LayerBitmap>, ColorError>)
    requires
        width * height <= u32::MAX,
        rgba@.len() == width * height * 4,
    ensures
        r is Err <==> channel_layers(colors@).len() == 0,
        r matches Ok(layers) ==> {
            &&& layers@.len() == channel_layers(colors@).len()
            &&& forall|k: int|
                0 <= k < layers@.len() ==> {
                    let (li, ch) = channel_layers(colors@)[k];
                    &&& (#[trigger] layers@[k]).layer_index == li
                    &&& layers@[k].bitmap.wf()
                    &&& layers@[k].bitmap.width == width
                    &&& layers@[k].bitmap.height == height
                    &&& layers@[k].bitmap@ == Seq::new(
                        (width * height) as nat,
                        |i: int| threshold_pixel(rgba@[i * 4 + ch], thresh, false),
                    )
                }
        },
{
    let mut out: Vec<LayerBitmap> = Vec::new();
    let mut i: usize = 0;
    while i < colors.len()
        invariant
            0 <= i <= colors@.len(),
            width * height <= u32::MAX,
            rgba@.len() == width * height * 4,
            out@.len() == channel_layers(colors@.take(i as int)).len(),
            forall|k: int|
                0 <= k < out@.len() ==> {
                    let (li, ch) = channel_layers(colors@.take(i as int))[k];
                    &&& (#[trigger] out@[k]).layer_index == li
                    &&& out@[k].bitmap.wf()
                    &&& out@[k].bitmap.width == width
                    &&& out@[k].bitmap.height == height
                    &&& out@[k].bitmap@ == Seq::new(
                        (width * height) as nat,
                        |p: int| threshold_pixel(rgba@[p * 4 + ch], thresh, false),
                    )
                },
        decreases colors@.len() - i,
    {
        let ghost pre = colors@.take(i as int);
        let ghost next = colors@.take(i + 1);
        proof {
            assert(next.drop_last() =~= pre);
            assert(next.last() == colors@[i as int]);
        }
        let ch = match &colors[i] {
            Some(c) => channel_index(c.as_str()),
            None => None,
        };
        assert(ch matches Some(c) ==> layer_channel(colors@[i as int]) == Some(c as int));
        assert(ch is None ==> layer_channel(colors@[i as int]) is None);
        if let Some(c) = ch {
            let bm = threshold_bitmap(width, height, rgba, 4, c, thresh, false);
            out.push(LayerBitmap { bitmap: bm, layer_index: i });
            proof {
                assert(channel_layers(next) == channel_layers(pre).push((i as int, c as int)));
            }
        }
        i = i + 1;
    }
    proof {
        assert(colors@.take(colors@.len() as int) =~= colors@);
    }
    if out.len() == 0 {
        Err(ColorError::NoChannelLayers)
    } else {
        Ok(out)
    }
}

}
