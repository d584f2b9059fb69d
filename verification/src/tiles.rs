//! The integer parts of the deep-zoom tile pyramid: colour parsing, tile
//! counting and the per-cell polygon density grid.
use vstd::prelude::*;
use vstd::string::StringSliceAdditionalSpecFns;

use crate::polygon::Rect;

verus! {

/// Configuration for tile generation.
pub struct TileConfig {
    /// Tile size in pixels.
    pub tile_size: u32,
    /// Maximum full-image resolution in pixels (longest side).
    pub max_resolution: u32,
}

impl Default for TileConfig {
    fn default() -> (r: Self)
        ensures
            r.tile_size == 256,
            r.max_resolution == 4096,
    {
        TileConfig { tile_size: 256, max_resolution: 4096 }
    }
}

/// Metadata for a generated tile pyramid.
#[derive(Debug)]
pub struct TilePyramid {
    pub width: u32,
    pub height: u32,
    pub tile_size: u32,
    pub num_levels: u32,
    pub density_grid: Vec<Vec<u32>>,
}

/// A layer of rectangles with an associated colour for rendering.
pub struct TileLayer<'a> {
    pub rects: &'a [Rect],
    pub color: [u8; 3],
    pub name: &'a str,
}

/// Whether `b` is an ASCII hexadecimal digit.
pub open spec fn is_hex_digit(b: u8) -> bool {
    (48 <= b <= 57) || (65 <= b <= 70) || (97 <= b <= 102)
}

/// The value of the hexadecimal digit `b`.
pub open spec fn hex_value(b: u8) -> int {
    if 48 <= b <= 57 {
        b - 48
    } else if 65 <= b <= 70 {
        b - 55
    } else {
        b - 87
    }
}

/// A two-byte field parsed as a base-16 `u8` (an optional `+` and hex
/// digits); 192 when it is not one.
pub open spec fn hex_pair(a: u8, b: u8) -> u8 {
    if is_hex_digit(a) && is_hex_digit(b) {
        (16 * hex_value(a) + hex_value(b)) as u8
    } else if a == 43 && is_hex_digit(b) {
        hex_value(b) as u8
    } else {
        192
    }
}

/// Number of leading `'#'` bytes of `b`.
pub open spec fn leading_hashes(b: Seq<u8>) -> int
    decreases b.len(),
{
    if b.len() > 0 && b[0] == 35 {
        1 + leading_hashes(b.drop_first())
    } else {
        0
    }
}

/// The colour denoted by the UTF-8 bytes `b`: leading `'#'`s are skipped and
/// the next six bytes are read as three hex pairs; silver-grey `[192; 3]`
/// when fewer than six bytes remain.
pub open spec fn hex_color(b: Seq<u8>) -> Seq<u8> {
    let k = leading_hashes(b);
    if b.len() - k >= 6 {
        seq![hex_pair(b[k], b[k + 1]), hex_pair(b[k + 2], b[k + 3]), hex_pair(b[k + 4], b[k + 5])]
    } else {
        seq![192u8, 192, 192]
    }
}

proof fn lemma_leading_hashes(b: Seq<u8>)
    ensures
        0 <= leading_hashes(b) <= b.len(),
        forall|i: int| 0 <= i < leading_hashes(b) ==> b[i] == 35,
        leading_hashes(b) < b.len() ==> b[leading_hashes(b)] != 35,
    decreases b.len(),
{
    if b.len() > 0 && b[0] == 35 {
        lemma_leading_hashes(b.drop_first());
        assert forall|i: int| 0 <= i < leading_hashes(b) implies b[i] == 35 by {
            if i > 0 {
                assert(b[i] == b.drop_first()[i - 1]);
            }
        }
    }
}

fn hex_digit(b: u8) -> (r: Option<u8>)
    ensures
        r is Some <==> is_hex_digit(b),
        r is Some ==> r->0 == hex_value(b),
{
    if 48 <= b && b <= 57 {
        Some(b - 48)
    } else if 65 <= b && b <= 70 {
        Some(b - 55)
    } else if 97 <= b && b <= 102 {
        Some(b - 87)
    } else {
        None
    }
}

fn parse_hex_pair(a: u8, b: u8) -> (r: u8)
    ensures
        r == hex_pair(a, b),
{
    match (hex_digit(a), hex_digit(b)) {
        (Some(hi), Some(lo)) => 16 * hi + lo,
        (None, Some(lo)) => {
            if a == 43 {
                lo
            } else {
                192
            }
        },
        _ => 192,
    }
}

/// Parse a hex colour string such as `"#c0c0c0"` into `[R, G, B]`.
/// Fields that are not hexadecimal read as 192, and a string with fewer
/// than six characters after its leading `'#'`s gives `[192, 192, 192]`.
pub fn parse_hex_color(s: &str) -> (r: [u8; 3])
    requires
        s.spec_bytes().len() - leading_hashes(s.spec_bytes()) >= 6 ==> {
            let k = leading_hashes(s.spec_bytes());
            &&& vstd::utf8::is_char_boundary(s.spec_bytes(), k + 2)
            &&& vstd::utf8::is_char_boundary(s.spec_bytes(), k + 4)
            &&& vstd::utf8::is_char_boundary(s.spec_bytes(), k + 6)
        },
    ensures
        r@ == hex_color(s.spec_bytes()),
{
    let b = s.as_bytes();
    proof {
        lemma_leading_hashes(b@);
    }
    let mut k: usize = 0;
    while k < b.len() && b[k] == 35
        invariant
            b@ == s.spec_bytes(),
            0 <= k <= leading_hashes(b@),
            leading_hashes(b@) <= b@.len(),
            forall|i: int| 0 <= i < leading_hashes(b@) ==> b@[i] == 35,
            leading_hashes(b@) < b@.len() ==> b@[leading_hashes(b@)] != 35,
        decreases b.len() - k,
    {
        k = k + 1;
    }
    if b.len() - k >= 6 {
        let r = [
            parse_hex_pair(b[k], b[k + 1]),
            parse_hex_pair(b[k + 2], b[k + 3]),
            parse_hex_pair(b[k + 4], b[k + 5]),
        ];
        assert(r@ =~= hex_color(s.spec_bytes()));
        r
    } else {
        let r = [192u8, 192, 192];
        assert(r@ =~= hex_color(s.spec_bytes()));
        r
    }
}


/// `a / b` rounded up.
pub open spec fn ceil_div(a: int, b: int) -> int {
    if a % b == 0 {
        a / b
    } else {
        a / b + 1
    }
}

/// Half of `n`, at least 1.
pub open spec fn halve(n: int) -> int {
    if n / 2 < 1 {
        1
    } else {
        n / 2
    }
}

/// Tiles in `levels` pyramid levels whose largest is `w x h` pixels, each
/// level half the size of the one above it.
pub open spec fn tiles_total(w: int, h: int, ts: int, levels: nat) -> int
    decreases levels,
{
    if levels == 0 {
        0
    } else {
        ceil_div(w, ts) * ceil_div(h, ts) + tiles_total(halve(w), halve(h), ts, (levels - 1) as nat)
    }
}

proof fn lemma_tiles_total_nonneg(w: int, h: int, ts: int, levels: nat)
    requires
        w >= 0,
        h >= 0,
        ts > 0,
    ensures
        tiles_total(w, h, ts, levels) >= 0,
    decreases levels,
{
    if levels > 0 {
        lemma_tiles_total_nonneg(halve(w), halve(h), ts, (levels - 1) as nat);
        assert(ceil_div(w, ts) * ceil_div(h, ts) >= 0) by (nonlinear_arith)
            requires
                ceil_div(w, ts) >= 0,
                ceil_div(h, ts) >= 0,
        ;
    }
}

fn div_ceil_u32(a: u32, b: u32) -> (r: u32)
    requires
        b > 0,
    ensures
        r == ceil_div(a as int, b as int),
{
    if a % b == 0 {
        a / b
    } else {
        assert(a / b < u32::MAX) by (nonlinear_arith)
            requires
                b > 0,
                a % b != 0,
                a <= u32::MAX,
        ;
        a / b + 1
    }
}

/// Number of tiles in a pyramid of `levels` levels whose full-resolution
/// level is `w x h` pixels, cut into `ts x ts` tiles.
pub fn count_tiles(w: u32, h: u32, ts: u32, levels: u32) -> (r: u32)
    requires
        ts > 0,
        tiles_total(w as int, h as int, ts as int, levels as nat) <= u32::MAX,
    ensures
        r == tiles_total(w as int, h as int, ts as int, levels as nat),
{
    let mut total: u32 = 0;
    let mut cw = w;
    let mut ch = h;
    let mut i: u32 = 0;
    while i < levels
        invariant
            ts > 0,
            i <= levels,
            total + tiles_total(cw as int, ch as int, ts as int, (levels - i) as nat)
                == tiles_total(w as int, h as int, ts as int, levels as nat),
            tiles_total(w as int, h as int, ts as int, levels as nat) <= u32::MAX,
        decreases levels - i,
    {
        let a = div_ceil_u32(cw, ts);
        let b = div_ceil_u32(ch, ts);
        proof {
            lemma_tiles_total_nonneg(halve(cw as int), halve(ch as int), ts as int, (levels - i - 1) as nat);
            assert(a * b >= 0) by (nonlinear_arith)
                requires
                    a >= 0,
                    b >= 0,
            ;
        }
        total = total + a * b;
        cw = if cw / 2 < 1 {
            1
        } else {
            cw / 2
        };
        ch = if ch / 2 < 1 {
            1
        } else {
            ch / 2
        };
        i = i + 1;
    }
    total
}

/// The tile count of `count_tiles`, or `None` when the tile size is 0 or
/// the count exceeds `u32::MAX`.
pub fn count_tiles_checked(w: u32, h: u32, ts: u32, levels: u32) -> (r: Option<u32>)
    ensures
        r matches Some(n) ==> ts > 0 && n == tiles_total(w as int, h as int, ts as int, levels as nat),
        r is None ==> ts == 0 || tiles_total(w as int, h as int, ts as int, levels as nat) > u32::MAX,
{
    if ts == 0 {
        return None;
    }
    let mut total: u64 = 0;
    let mut cw = w;
    let mut ch = h;
    let mut i: u32 = 0;
    while i < levels
        invariant
            ts > 0,
            i <= levels,
            total <= u32::MAX,
            total + tiles_total(cw as int, ch as int, ts as int, (levels - i) as nat)
                == tiles_total(w as int, h as int, ts as int, levels as nat),
        decreases levels - i,
    {
        let a = div_ceil_u32(cw, ts);
        let b = div_ceil_u32(ch, ts);
        proof {
            lemma_tiles_total_nonneg(halve(cw as int), halve(ch as int), ts as int, (levels - i - 1) as nat);
            assert(0 <= a * b <= u32::MAX * u32::MAX) by (nonlinear_arith)
                requires
                    0 <= a <= u32::MAX,
                    0 <= b <= u32::MAX,
            ;
        }
        let t = (a as u64) * (b as u64);
        if t > u32::MAX as u64 - total {
            return None;
        }
        total = total + t;
        cw = if cw / 2 < 1 {
            1
        } else {
            cw / 2
        };
        ch = if ch / 2 < 1 {
            1
        } else {
            ch / 2
        };
        i = i + 1;
    }
    Some(total as u32)
}

/// The grid cell, among `g`, of offset `d` along an extent of `w`: the
/// whole number of `w / g`-wide cells before `d`, clamped to the grid; an
/// offset on the wrong side of the origin falls in cell 0, and on an empty
/// extent every offset past the origin falls in the last cell.
pub open spec fn cell_of(d: int, w: int, g: int) -> int {
    if w == 0 {
        if d > 0 {
            g - 1
        } else {
            0
        }
    } else if d > 0 && w > 0 {
        if d * g / w < g - 1 {
            d * g / w
        } else {
            g - 1
        }
    } else if d < 0 && w < 0 {
        if (-d) * g / (-w) < g - 1 {
            (-d) * g / (-w)
        } else {
            g - 1
        }
    } else {
        0
    }
}

/// Row-major index of the cell of `r`'s lower-left corner in the `g x g`
/// grid over `bb`.
pub open spec fn cell_index(r: Rect, bb: Rect, g: int) -> int {
    let cx = cell_of(r.x0 - bb.x0, bb.x1 - bb.x0, g);
    let cy = cell_of(r.y0 - bb.y0, bb.y1 - bb.y0, g);
    cy * g + cx
}

/// All rectangles of `layers`, layer by layer.
pub open spec fn layer_rects(layers: Seq<TileLayer>) -> Seq<Rect>
    decreases layers.len(),
{
    if layers.len() == 0 {
        Seq::empty()
    } else {
        layer_rects(layers.drop_last()) + layers.last().rects@
    }
}

/// How many of `rs` have their lower-left corner in cell `c`.
pub open spec fn cell_count(rs: Seq<Rect>, bb: Rect, g: int, c: int) -> int
    decreases rs.len(),
{
    if rs.len() == 0 {
        0
    } else {
        cell_count(rs.drop_last(), bb, g, c) + if cell_index(rs.last(), bb, g) == c {
            1int
        } else {
            0
        }
    }
}

proof fn lemma_cell_count_bound(rs: Seq<Rect>, bb: Rect, g: int, c: int)
    ensures
        0 <= cell_count(rs, bb, g, c) <= rs.len(),
    decreases rs.len(),
{
    if rs.len() > 0 {
        lemma_cell_count_bound(rs.drop_last(), bb, g, c);
    }
}

proof fn lemma_cell_of_range(d: int, w: int, g: int)
    requires
        g >= 1,
    ensures
        0 <= cell_of(d, w, g) < g,
{
    if w > 0 && d > 0 {
        assert(d * g / w >= 0) by (nonlinear_arith)
            requires
                d > 0,
                w > 0,
                g > 0,
        ;
    }
    if w < 0 && d < 0 {
        assert((-d) * g / (-w) >= 0) by (nonlinear_arith)
            requires
                -d > 0,
                -w > 0,
                g > 0,
        ;
    }
}

fn cell_of_exec(d: i64, w: i64, g: u32) -> (r: u32)
    requires
        g >= 1,
        -0x1_0000_0000 <= d <= 0x1_0000_0000,
        -0x1_0000_0000 <= w <= 0x1_0000_0000,
    ensures
        r == cell_of(d as int, w as int, g as int),
{
    proof {
        lemma_cell_of_range(d as int, w as int, g as int);
    }
    if w == 0 {
        if d > 0 {
            g - 1
        } else {
            0
        }
    } else if d > 0 && w > 0 {
        assert(0 <= (d as i128) * (g as i128) <= 0x1_0000_0000 * 0x1_0000_0000) by (nonlinear_arith)
            requires
                0 < d <= 0x1_0000_0000,
                1 <= g <= 0x1_0000_0000,
        ;
        let q = (d as i128) * (g as i128) / (w as i128);
        if q < (g as i128) - 1 {
            q as u32
        } else {
            g - 1
        }
    } else if d < 0 && w < 0 {
        assert(0 <= (-(d as i128)) * (g as i128) <= 0x1_0000_0000 * 0x1_0000_0000) by (nonlinear_arith)
            requires
                0 < -d <= 0x1_0000_0000,
                1 <= g <= 0x1_0000_0000,
        ;
        let q = (-(d as i128)) * (g as i128) / (-(w as i128));
        if q < (g as i128) - 1 {
            q as u32
        } else {
            g - 1
        }
    } else {
        0
    }
}

/// Whether every offset that the density grid computes fits an `i32`.
pub open spec fn grid_offsets_fit(layers: Seq<TileLayer>, bb: Rect) -> bool {
    &&& i32::MIN <= bb.x1 - bb.x0 <= i32::MAX
    &&& i32::MIN <= bb.y1 - bb.y0 <= i32::MAX
    &&& forall|i: int|
        0 <= i < layer_rects(layers).len() ==> {
            let r = #[trigger] layer_rects(layers)[i];
            &&& i32::MIN <= r.x0 - bb.x0 <= i32::MAX
            &&& i32::MIN <= r.y0 - bb.y0 <= i32::MAX
        }
}

/// Count the polygons whose lower-left corner falls in each cell of a
/// `grid_size x grid_size` grid over `bb`; row `cy` of the result holds
/// cells `cy * grid_size .. (cy + 1) * grid_size`.
pub fn compute_density_grid(layers: &[TileLayer], bb: &Rect, grid_size: u32) -> (r: Vec<Vec<u32>>)
    requires
        grid_size > 0 || layer_rects(layers@).len() == 0,
        grid_size * grid_size <= usize::MAX,
        layer_rects(layers@).len() <= u32::MAX,
        grid_offsets_fit(layers@, *bb),
    ensures
        r@.len() == grid_size,
        forall|cy: int| 0 <= cy < grid_size ==> (#[trigger] r@[cy])@.len() == grid_size,
        forall|cy: int, cx: int|
            0 <= cy < grid_size && 0 <= cx < grid_size ==> (#[trigger] r@[cy]@[cx]) == cell_count(
                layer_rects(layers@),
                *bb,
                grid_size as int,
                cy * grid_size + cx,
            ),
{
    let g = grid_size as usize;
    let total = g * g;
    let ghost all = layer_rects(layers@);
    let mut flat: Vec<u32> = Vec::new();
    let mut k: usize = 0;
    while k < total
        invariant
            k <= total,
            flat@.len() == k,
            forall|c: int| 0 <= c < k ==> flat@[c] == 0,
        decreases total - k,
    {
        flat.push(0);
        k = k + 1;
    }
    let w = (bb.x1 as i64) - (bb.x0 as i64);
    let h = (bb.y1 as i64) - (bb.y0 as i64);
    let mut li: usize = 0;
    proof {
        assert(layers@.take(0) =~= Seq::<TileLayer>::empty());
        assert(layers@.skip(0) =~= layers@);
        assert(layer_rects(layers@.take(0)) =~= Seq::<Rect>::empty());
        assert(all =~= layer_rects(layers@.take(0)) + layer_rects(layers@.skip(0)));
    }
    while li < layers.len()
        invariant
            0 <= li <= layers.len(),
            all == layer_rects(layers@),
            grid_offsets_fit(layers@, *bb),
            grid_size > 0 || all.len() == 0,
            all.len() <= u32::MAX,
            g == grid_size,
            total == g * g,
            w == bb.x1 - bb.x0,
            h == bb.y1 - bb.y0,
            flat@.len() == total,
            forall|c: int|
                0 <= c < total ==> flat@[c] == cell_count(layer_rects(layers@.take(li as int)), *bb, grid_size as int, c),
            layer_rects(layers@.take(li as int)).len() <= all.len(),
            all == layer_rects(layers@.take(li as int)) + layer_rects(layers@.skip(li as int)),
        decreases layers.len() - li,
    {
        let rects = layers[li].rects;
        let ghost before = layer_rects(layers@.take(li as int));
        proof {
            assert(layers@.take(li + 1).drop_last() =~= layers@.take(li as int));
            assert(layers@.take(li + 1).last() == layers@[li as int]);
            assert(layer_rects(layers@.take(li + 1)) == before + rects@);
            assert(layers@.skip(li as int) =~= seq![layers@[li as int]] + layers@.skip(li + 1));
            lemma_layer_rects_split(layers@.skip(li as int));
            assert(layers@.skip(li as int).skip(1) =~= layers@.skip(li + 1));
            assert(all =~= before + rects@ + layer_rects(layers@.skip(li + 1)));
            assert(rects@.take(0) =~= Seq::<Rect>::empty());
            assert(before + rects@.take(0) =~= before);
        }
        let mut j: usize = 0;
        while j < rects.len()
            invariant
                0 <= j <= rects.len(),
                all == layer_rects(layers@),
                grid_offsets_fit(layers@, *bb),
                grid_size > 0 || all.len() == 0,
                all.len() <= u32::MAX,
                g == grid_size,
                total == g * g,
                w == bb.x1 - bb.x0,
                h == bb.y1 - bb.y0,
                flat@.len() == total,
                forall|c: int|
                    0 <= c < total ==> flat@[c] == cell_count(before + rects@.take(j as int), *bb, grid_size as int, c),
                all == before + rects@ + layer_rects(layers@.skip(li + 1)),
            decreases rects.len() - j,
        {
            let r = rects[j];
            let ghost pre = before + rects@.take(j as int);
            proof {
                assert((before + rects@.take(j + 1)).drop_last() =~= pre);
                assert((before + rects@.take(j + 1)).last() == r);
                assert(all[before.len() + j] == r);
                assert(all.len() >= 1);
            }
            let dx = (r.x0 as i64) - (bb.x0 as i64);
            let dy = (r.y0 as i64) - (bb.y0 as i64);
            let cx = cell_of_exec(dx, w, grid_size);
            let cy = cell_of_exec(dy, h, grid_size);
            assert(cy * g + cx < total) by (nonlinear_arith)
                requires
                    cx < g,
                    cy < g,
                    total == g * g,
            ;
            let idx = (cy as usize) * g + (cx as usize);
            proof {
                lemma_cell_count_bound(pre, *bb, grid_size as int, idx as int);
                assert(pre.len() < all.len());
            }
            let v = flat[idx];
            flat.set(idx, v + 1);
            proof {
                assert forall|c: int| 0 <= c < total implies flat@[c] == cell_count(
                    before + rects@.take(j + 1),
                    *bb,
                    grid_size as int,
                    c,
                ) by {
                    assert((before + rects@.take(j + 1)).drop_last() =~= pre);
                }
            }
            j = j + 1;
        }
        proof {
            assert(rects@.take(rects@.len() as int) =~= rects@);
            assert(all =~= layer_rects(layers@.take(li + 1)) + layer_rects(layers@.skip(li + 1)));
        }
        li = li + 1;
    }
    proof {
        assert(layers@.take(layers@.len() as int) =~= layers@);
        assert(forall|c: int| 0 <= c < total ==> flat@[c] == cell_count(all, *bb, grid_size as int, c));
    }
    let mut out: Vec<Vec<u32>> = Vec::new();
    let mut cy: usize = 0;
    while cy < g
        invariant
            cy <= g,
            g == grid_size,
            total == g * g,
            flat@.len() == total,
            out@.len() == cy,
            forall|y: int| 0 <= y < cy ==> (#[trigger] out@[y])@.len() == g,
            forall|y: int, x: int| 0 <= y < cy && 0 <= x < g ==> (#[trigger] out@[y]@[x]) == flat@[y * g + x],
            forall|c: int| 0 <= c < total ==> flat@[c] == cell_count(all, *bb, grid_size as int, c),
            all == layer_rects(layers@),
        decreases g - cy,
    {
        let mut row: Vec<u32> = Vec::new();
        let mut cx: usize = 0;
        while cx < g
            invariant
                cx <= g,
                cy < g,
                g == grid_size,
                total == g * g,
                flat@.len() == total,
                row@.len() == cx,
                forall|x: int| 0 <= x < cx ==> row@[x] == flat@[cy * g + x],
            decreases g - cx,
        {
            assert(cy * g + cx < total) by (nonlinear_arith)
                requires
                    cx < g,
                    cy < g,
                    total == g * g,
            ;
            row.push(flat[cy * g + cx]);
            cx = cx + 1;
        }
        out.push(row);
        cy = cy + 1;
    }
    proof {
        assert forall|y: int, x: int| 0 <= y < grid_size && 0 <= x < grid_size implies (#[trigger] out@[y]@[x])
            == cell_count(all, *bb, grid_size as int, y * grid_size + x) by {
            assert(0 <= y * g + x < total) by (nonlinear_arith)
                requires
                    0 <= x < g,
                    0 <= y < g,
                    total == g * g,
            ;
        }
    }
    out
}

proof fn lemma_layer_rects_split(layers: Seq<TileLayer>)
    requires
        layers.len() >= 1,
    ensures
        layer_rects(layers) == layers[0].rects@ + layer_rects(layers.skip(1)),
    decreases layers.len(),
{
    if layers.len() == 1 {
        assert(layers.drop_last() =~= Seq::<TileLayer>::empty());
        assert(layers.skip(1) =~= Seq::<TileLayer>::empty());
        assert(layer_rects(layers.drop_last()) == Seq::<Rect>::empty());
        assert(layer_rects(layers.skip(1)) == Seq::<Rect>::empty());
        assert(layers.last() == layers[0]);
        assert(layer_rects(layers) =~= layers[0].rects@);
    } else {
        let d = layers.drop_last();
        lemma_layer_rects_split(d);
        assert(d.skip(1) =~= layers.skip(1).drop_last());
        assert(layers.skip(1).last() == layers.last());
        assert(layer_rects(layers) =~= layers[0].rects@ + layer_rects(layers.skip(1)));
    }
}

}
