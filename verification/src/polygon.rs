//! Rectangles in database units and the bitmap-to-rectangle strategies.
//!
//! Pixel `(x, y)` of a `W x H` bitmap maps to the physical cell whose lower
//! left corner is `(x * pitch, (H - 1 - y) * pitch)` and whose side is
//! `pixel_w`; the y axis is flipped because bitmap rows grow downwards.
use vstd::prelude::*;

use crate::artwork::ArtworkBitmap;
use crate::bits::{count_on, count_range, lemma_count_split};

verus! {

/// A rectangle in database units (nm typically).
#[derive(Debug, Clone, Copy, PartialEq, Eq, Structural, Hash)]
pub struct Rect {
    pub x0: i32,
    pub y0: i32,
    pub x1: i32,
    pub y1: i32,
}

pub open spec fn min_i(a: int, b: int) -> int {
    if a <= b {
        a
    } else {
        b
    }
}

pub open spec fn max_i(a: int, b: int) -> int {
    if a >= b {
        a
    } else {
        b
    }
}

/// The rectangle `Rect::new` builds from two corners.
pub open spec fn rect_spec(x0: int, y0: int, x1: int, y1: int) -> Rect {
    Rect {
        x0: min_i(x0, x1) as i32,
        y0: min_i(y0, y1) as i32,
        x1: max_i(x0, x1) as i32,
        y1: max_i(y0, y1) as i32,
    }
}

/// All four coordinates fit in an `i32`.
pub open spec fn fits_i32(x0: int, y0: int, x1: int, y1: int) -> bool {
    &&& i32::MIN <= x0 <= i32::MAX
    &&& i32::MIN <= y0 <= i32::MAX
    &&& i32::MIN <= x1 <= i32::MAX
    &&& i32::MIN <= y1 <= i32::MAX
}

impl Rect {
    /// A rectangle from two corners, normalised so that `x0 <= x1` and
    /// `y0 <= y1`.
    pub fn new(x0: i32, y0: i32, x1: i32, y1: i32) -> (r: Self)
        ensures
            r == rect_spec(x0 as int, y0 as int, x1 as int, y1 as int),
    {
        Self {
            x0: if x0 <= x1 {
                x0
            } else {
                x1
            },
            y0: if y0 <= y1 {
                y0
            } else {
                y1
            },
            x1: if x0 >= x1 {
                x0
            } else {
                x1
            },
            y1: if y0 >= y1 {
                y0
            } else {
                y1
            },
        }
    }

    pub open spec fn width_spec(&self) -> int {
        self.x1 - self.x0
    }

    pub open spec fn height_spec(&self) -> int {
        self.y1 - self.y0
    }

    /// The width `x1 - x0` fits an `i32`.
    pub open spec fn width_fits(&self) -> bool {
        i32::MIN <= self.x1 - self.x0 <= i32::MAX
    }

    /// The height `y1 - y0` fits an `i32`.
    pub open spec fn height_fits(&self) -> bool {
        i32::MIN <= self.y1 - self.y0 <= i32::MAX
    }

    pub fn width(&self) -> (r: i32)
        requires
            self.width_fits(),
        ensures
            r == self.width_spec(),
    {
        self.x1 - self.x0
    }

    pub fn height(&self) -> (r: i32)
        requires
            self.height_fits(),
        ensures
            r == self.height_spec(),
    {
        self.y1 - self.y0
    }

    pub fn area(&self) -> (r: i64)
        requires
            self.width_fits(),
            self.height_fits(),
        ensures
            r == self.width_spec() * self.height_spec(),
    {
        let w = self.width() as i64;
        let h = self.height() as i64;
        assert(-0x8000_0000 * 0x8000_0000 <= w * h <= 0x8000_0000 * 0x8000_0000) by (nonlinear_arith)
            requires
                -0x8000_0000 <= w <= 0x7fff_ffff,
                -0x8000_0000 <= h <= 0x7fff_ffff,
        ;
        w * h
    }

    /// Can this rect merge horizontally with another (same y extent,
    /// adjacent x)?
    pub fn can_merge_right(&self, other: &Rect) -> (r: bool)
        ensures
            r == (self.y0 == other.y0 && self.y1 == other.y1 && self.x1 == other.x0),
    {
        self.y0 == other.y0 && self.y1 == other.y1 && self.x1 == other.x0
    }

    /// Merge with an adjacent rect: the rectangle from this one's lower left
    /// corner to the other's right edge.
    pub fn merge_right(&self, other: &Rect) -> (r: Rect)
        ensures
            r == rect_spec(self.x0 as int, self.y0 as int, other.x1 as int, self.y1 as int),
    {
        Rect::new(self.x0, self.y0, other.x1, self.y1)
    }

    /// Convert to GDSII boundary coordinates (closed polygon, 5 points).
    pub fn to_gds_xy(&self) -> (r: Vec<i32>)
        ensures
            r@ == seq![
                self.x0,
                self.y0,
                self.x1,
                self.y0,
                self.x1,
                self.y1,
                self.x0,
                self.y1,
                self.x0,
                self.y0,
            ],
    {
        let mut v: Vec<i32> = Vec::new();
        v.push(self.x0);
        v.push(self.y0);
        v.push(self.x1);
        v.push(self.y0);
        v.push(self.x1);
        v.push(self.y1);
        v.push(self.x0);
        v.push(self.y1);
        v.push(self.x0);
        v.push(self.y0);
        v
    }
}

/// Strategy for converting bitmap pixels to polygons.
#[derive(Debug, Clone, Copy, PartialEq, Eq, Structural)]
pub enum PolygonStrategy {
    /// Each pixel becomes one rectangle. Simple but produces many polygons.
    PixelRects,
    /// Merge adjacent pixels into horizontal runs. Good balance of
    /// simplicity and efficiency.
    RowMerge,
    /// Merge into maximal rectangles. Fewest polygons, most complex.
    GreedyMerge,
}

/// `bb` is the bounding box of the non-empty `rects`: each of its edges is
/// the extreme of that edge over the rectangles.
pub open spec fn is_bounding_box(rects: Seq<Rect>, bb: Rect) -> bool {
    &&& forall|i: int|
        0 <= i < rects.len() ==> bb.x0 <= #[trigger] rects[i].x0 && bb.y0 <= rects[i].y0
            && rects[i].x1 <= bb.x1 && rects[i].y1 <= bb.y1
    &&& exists|i: int| 0 <= i < rects.len() && #[trigger] rects[i].x0 == bb.x0
    &&& exists|i: int| 0 <= i < rects.len() && #[trigger] rects[i].y0 == bb.y0
    &&& exists|i: int| 0 <= i < rects.len() && #[trigger] rects[i].x1 == bb.x1
    &&& exists|i: int| 0 <= i < rects.len() && #[trigger] rects[i].y1 == bb.y1
}

/// Compute the bounding box of all rectangles; `None` when there are none.
pub fn bounding_box(rects: &[Rect]) -> (r: Option<Rect>)
    ensures
        r is None <==> rects@.len() == 0,
        r matches Some(bb) ==> is_bounding_box(rects@, bb),
{
    if rects.len() == 0 {
        return None;
    }
    let mut bb = rects[0];
    let mut i: usize = 1;
    proof {
        let s0 = rects@.subrange(0, 1);
        assert(s0[0] == bb);
        assert(s0[0].x0 == bb.x0 && s0[0].y0 == bb.y0 && s0[0].x1 == bb.x1 && s0[0].y1 == bb.y1);
    }
    while i < rects.len()
        invariant
            1 <= i <= rects@.len(),
            is_bounding_box(rects@.subrange(0, i as int), bb),
        decreases rects@.len() - i,
    {
        let r = rects[i];
        let ghost old_bb = bb;
        let ghost pre = rects@.subrange(0, i as int);
        let ghost post = rects@.subrange(0, i + 1);
        bb = Rect {
            x0: if bb.x0 <= r.x0 {
                bb.x0
            } else {
                r.x0
            },
            y0: if bb.y0 <= r.y0 {
                bb.y0
            } else {
                r.y0
            },
            x1: if bb.x1 >= r.x1 {
                bb.x1
            } else {
                r.x1
            },
            y1: if bb.y1 >= r.y1 {
                bb.y1
            } else {
                r.y1
            },
        };
        proof {
            assert forall|k: int| 0 <= k < pre.len() implies post[k] == #[trigger] pre[k] by {}
            assert(post[i as int] == r);
            let k0 = choose|k: int| 0 <= k < pre.len() && #[trigger] pre[k].x0 == old_bb.x0;
            let k1 = choose|k: int| 0 <= k < pre.len() && #[trigger] pre[k].y0 == old_bb.y0;
            let k2 = choose|k: int| 0 <= k < pre.len() && #[trigger] pre[k].x1 == old_bb.x1;
            let k3 = choose|k: int| 0 <= k < pre.len() && #[trigger] pre[k].y1 == old_bb.y1;
            assert(post[k0] == pre[k0]);
            assert(post[k1] == pre[k1]);
            assert(post[k2] == pre[k2]);
            assert(post[k3] == pre[k3]);
            assert forall|k: int| 0 <= k < post.len() implies bb.x0 <= #[trigger] post[k].x0 && bb.y0 <= post[k].y0
                && post[k].x1 <= bb.x1 && post[k].y1 <= bb.y1 by {
                if k < i {
                    assert(post[k] == pre[k]);
                    assert(old_bb.x0 <= pre[k].x0 && old_bb.y0 <= pre[k].y0 && pre[k].x1 <= old_bb.x1
                        && pre[k].y1 <= old_bb.y1);
                } else {
                    assert(post[k] == r);
                }
            }
        }
        i = i + 1;
    }
    proof {
        assert(rects@.subrange(0, rects@.len() as int) =~= rects@);
    }
    Some(bb)
}

/// The rectangle covering the pixel block of columns `a..b` and rows `c..d`
/// of a bitmap of height `h`, for pixel side `pw` and pixel pitch `p`.
pub open spec fn block_rect(h: int, pw: int, p: int, a: int, c: int, b: int, d: int) -> Rect {
    rect_spec(a * p, (h - d) * p, (b - 1) * p + pw, (h - 1 - c) * p + pw)
}

/// Every coordinate `v * p` and `v * p + pw` for `0 <= v < n` fits an `i32`.
pub open spec fn axis_fits(n: int, pw: int, p: int) -> bool {
    n <= 0 || (n - 1 <= i32::MAX && i32::MIN <= (n - 1) * p <= i32::MAX && i32::MIN <= (n - 1) * p
        + pw <= i32::MAX)
}

/// The pixel grid of `bm` maps to `i32` coordinates without overflow.
pub open spec fn grid_fits(bm: ArtworkBitmap, pw: int, p: int) -> bool {
    &&& i32::MIN <= pw <= i32::MAX
    &&& i32::MIN <= p <= i32::MAX
    &&& axis_fits(bm.width as int, pw, p)
    &&& axis_fits(bm.height as int, pw, p)
}

pub proof fn lemma_axis_fits(n: int, pw: int, p: int, v: int)
    requires
        axis_fits(n, pw, p),
        i32::MIN <= pw <= i32::MAX,
        i32::MIN <= p <= i32::MAX,
        0 <= v < n,
    ensures
        v <= i32::MAX,
        i32::MIN <= v * p <= i32::MAX,
        i32::MIN <= v * p + pw <= i32::MAX,
{
    if p >= 0 {
        assert(0 <= v * p <= (n - 1) * p) by (nonlinear_arith)
            requires
                0 <= v <= n - 1,
                p >= 0,
        ;
    } else {
        assert((n - 1) * p <= v * p <= 0) by (nonlinear_arith)
            requires
                0 <= v <= n - 1,
                p < 0,
        ;
    }
}

/// Cells of the metal pixels of row `y` with column `< x`, left to right.
pub open spec fn row_cells(bm: ArtworkBitmap, pw: int, p: int, y: int, x: int) -> Seq<Rect>
    decreases x,
{
    if x <= 0 {
        seq![]
    } else {
        row_cells(bm, pw, p, y, x - 1) + if bm.pixel(x - 1, y) {
            seq![block_rect(bm.height as int, pw, p, x - 1, y, x, y + 1)]
        } else {
            seq![]
        }
    }
}

/// Cells of the metal pixels of the rows `< y`, in row-major order.
pub open spec fn pixel_cells(bm: ArtworkBitmap, pw: int, p: int, y: int) -> Seq<Rect>
    decreases y,
{
    if y <= 0 {
        seq![]
    } else {
        pixel_cells(bm, pw, p, y - 1) + row_cells(bm, pw, p, y - 1, bm.width as int)
    }
}

/// The first column at or after `x` whose pixel in row `y` is not metal (or
/// the width): the end of the metal run containing `x`.
pub open spec fn run_end(bm: ArtworkBitmap, y: int, x: int) -> int
    decreases bm.width - x,
{
    if x >= bm.width || !bm.pixel(x, y) {
        x
    } else {
        run_end(bm, y, x + 1)
    }
}

pub proof fn lemma_run_end(bm: ArtworkBitmap, y: int, x: int)
    requires
        x <= bm.width,
    ensures
        x <= run_end(bm, y, x) <= bm.width,
        bm.pixel(x, y) ==> run_end(bm, y, x) > x,
        forall|j: int| x <= j < run_end(bm, y, x) ==> bm.pixel(j, y),
        run_end(bm, y, x) < bm.width ==> !bm.pixel(run_end(bm, y, x), y),
    decreases bm.width - x,
{
    if x < bm.width && bm.pixel(x, y) {
        lemma_run_end(bm, y, x + 1);
    }
}

/// The maximal metal runs of row `y` that start at or after column `x`,
/// left to right, as rectangles.
pub open spec fn row_runs(bm: ArtworkBitmap, pw: int, p: int, y: int, x: int) -> Seq<Rect>
    decreases bm.width - x,
{
    if x >= bm.width || x < 0 {
        seq![]
    } else if !bm.pixel(x, y) {
        row_runs(bm, pw, p, y, x + 1)
    } else {
        let e = run_end(bm, y, x);
        proof {
            lemma_run_end(bm, y, x);
        }
        seq![block_rect(bm.height as int, pw, p, x, y, e, y + 1)] + row_runs(bm, pw, p, y, e)
    }
}

/// The maximal metal runs of the rows `< y`, row by row.
pub open spec fn row_merged(bm: ArtworkBitmap, pw: int, p: int, y: int) -> Seq<Rect>
    decreases y,
{
    if y <= 0 {
        seq![]
    } else {
        row_merged(bm, pw, p, y - 1) + row_runs(bm, pw, p, y - 1, 0)
    }
}

/// Simplest strategy: one rectangle per metal pixel, in row-major order.
pub fn pixel_rects(bitmap: &ArtworkBitmap, pixel_w: i32, pitch: i32) -> (r: Vec<Rect>)
    requires
        bitmap.wf(),
        grid_fits(*bitmap, pixel_w as int, pitch as int),
    ensures
        r@ == pixel_cells(*bitmap, pixel_w as int, pitch as int, bitmap.height as int),
{
    let ghost bm = *bitmap;
    let ghost pw = pixel_w as int;
    let ghost p = pitch as int;
    let mut rects: Vec<Rect> = Vec::new();
    let mut y: u32 = 0;
    while y < bitmap.height
        invariant
            bitmap.wf(),
            bm == *bitmap,
            pw == pixel_w,
            p == pitch,
            grid_fits(bm, pw, p),
            y <= bitmap.height,
            rects@ == pixel_cells(bm, pw, p, y as int),
        decreases bitmap.height - y,
    {
        let mut x: u32 = 0;
        while x < bitmap.width
            invariant
                bitmap.wf(),
                bm == *bitmap,
                pw == pixel_w,
                p == pitch,
                grid_fits(bm, pw, p),
                y < bitmap.height,
                x <= bitmap.width,
                rects@ == pixel_cells(bm, pw, p, y as int) + row_cells(bm, pw, p, y as int, x as int),
            decreases bitmap.width - x,
        {
            if bitmap.get(x, y) {
                proof {
                    lemma_axis_fits(bm.width as int, pw, p, x as int);
                    lemma_axis_fits(bm.height as int, pw, p, bm.height - 1 - y);
                }
                let x0 = x as i32 * pitch;
                let y0 = (bitmap.height - 1 - y) as i32 * pitch;
                rects.push(Rect::new(x0, y0, x0 + pixel_w, y0 + pixel_w));
            }
            proof {
                assert(rects@ =~= pixel_cells(bm, pw, p, y as int) + row_cells(bm, pw, p, y as int, x + 1));
            }
            x = x + 1;
        }
        y = y + 1;
    }
    rects
}

/// Merge horizontally adjacent pixels into runs: one rectangle per maximal
/// run of metal pixels in a row, rows top to bottom, runs left to right.
pub fn row_merged_rects(bitmap: &ArtworkBitmap, pixel_w: i32, pitch: i32) -> (r: Vec<Rect>)
    requires
        bitmap.wf(),
        grid_fits(*bitmap, pixel_w as int, pitch as int),
    ensures
        r@ == row_merged(*bitmap, pixel_w as int, pitch as int, bitmap.height as int),
{
    let ghost bm = *bitmap;
    let ghost pw = pixel_w as int;
    let ghost p = pitch as int;
    let mut rects: Vec<Rect> = Vec::new();
    let mut y: u32 = 0;
    while y < bitmap.height
        invariant
            bitmap.wf(),
            bm == *bitmap,
            pw == pixel_w,
            p == pitch,
            grid_fits(bm, pw, p),
            y <= bitmap.height,
            rects@ == row_merged(bm, pw, p, y as int),
        decreases bitmap.height - y,
    {
        proof {
            lemma_axis_fits(bm.height as int, pw, p, bm.height - 1 - y);
        }
        let y0 = (bitmap.height - 1 - y) as i32 * pitch;
        let mut run_start: Option<u32> = None;
        let ghost done = rects@;
        let w = bitmap.width as u64;
        let mut x: u64 = 0;
        proof {
            assert(rects@ =~= done + Seq::<Rect>::empty());
            assert(row_runs(bm, pw, p, y as int, 0) =~= Seq::<Rect>::empty() + row_runs(bm, pw, p, y as int, 0));
        }
        while x <= w
            invariant
                bitmap.wf(),
                bm == *bitmap,
                pw == pixel_w,
                p == pitch,
                grid_fits(bm, pw, p),
                y < bitmap.height,
                w == bitmap.width,
                x <= w + 1,
                y0 == (bm.height - 1 - y) * p,
                i32::MIN <= y0 + pixel_w <= i32::MAX,
                done == row_merged(bm, pw, p, y as int),
                x <= w ==> match run_start {
                    None => exists|emitted: Seq<Rect>|
                        #![trigger emitted + row_runs(bm, pw, p, y as int, x as int)]
                        rects@ == done + emitted && row_runs(bm, pw, p, y as int, 0) == emitted
                            + row_runs(bm, pw, p, y as int, x as int),
                    Some(s) => s < x && (forall|j: int| s <= j < x ==> bm.pixel(j, y as int))
                        && run_end(bm, y as int, s as int) == run_end(bm, y as int, x as int)
                        && exists|emitted: Seq<Rect>|
                        #![trigger emitted + row_runs(bm, pw, p, y as int, s as int)]
                        rects@ == done + emitted && row_runs(bm, pw, p, y as int, 0) == emitted
                            + row_runs(bm, pw, p, y as int, s as int),
                },
                x == w + 1 ==> rects@ == done + row_runs(bm, pw, p, y as int, 0),
            decreases w + 1 - x,
        {
            let on = x < w && bitmap.get(x as u32, y);
            proof {
                if x < w {
                    lemma_run_end(bm, y as int, x as int);
                }
            }
            match (on, run_start) {
                (true, None) => {
                    proof {
                        let emitted = choose|emitted: Seq<Rect>|
                            #![trigger emitted + row_runs(bm, pw, p, y as int, x as int)]
                            rects@ == done + emitted && row_runs(bm, pw, p, y as int, 0) == emitted
                                + row_runs(bm, pw, p, y as int, x as int);
                        assert(run_end(bm, y as int, x as int) == run_end(bm, y as int, x + 1));
                        assert(rects@ == done + emitted && row_runs(bm, pw, p, y as int, 0) == emitted
                            + row_runs(bm, pw, p, y as int, x as int));
                    }
                    run_start = Some(x as u32);
                },
                (false, Some(start)) => {
                    proof {
                        lemma_run_end(bm, y as int, start as int);
                        lemma_axis_fits(bm.width as int, pw, p, start as int);
                        lemma_axis_fits(bm.width as int, pw, p, x - 1);
                    }
                    let x0 = start as i32 * pitch;
                    let x1 = (x - 1) as i32 * pitch + pixel_w;
                    let ghost before = rects@;
                    rects.push(Rect::new(x0, y0, x1, y0 + pixel_w));
                    proof {
                        let emitted = choose|emitted: Seq<Rect>|
                            #![trigger emitted + row_runs(bm, pw, p, y as int, start as int)]
                            before == done + emitted && row_runs(bm, pw, p, y as int, 0) == emitted
                                + row_runs(bm, pw, p, y as int, start as int);
                        assert(run_end(bm, y as int, start as int) == x);
                        let blk = block_rect(bm.height as int, pw, p, start as int, y as int, x as int, y + 1);
                        assert(rects@[rects@.len() - 1] == blk);
                        assert(row_runs(bm, pw, p, y as int, start as int) == seq![blk] + row_runs(bm, pw, p, y as int, x as int));
                        let em2 = emitted.push(blk);
                        assert(rects@ =~= done + em2);
                        assert(row_runs(bm, pw, p, y as int, 0) =~= em2 + row_runs(bm, pw, p, y as int, x as int));
                        if x < w {
                            assert(row_runs(bm, pw, p, y as int, x as int) == row_runs(bm, pw, p, y as int, x + 1));
                            assert(rects@ == done + em2 && row_runs(bm, pw, p, y as int, 0) == em2 + row_runs(bm, pw, p, y as int, x + 1));
                        } else {
                            assert(row_runs(bm, pw, p, y as int, x as int) == Seq::<Rect>::empty());
                            assert(em2 + Seq::<Rect>::empty() =~= em2);
                        }
                    }
                    run_start = None;
                },
                (true, Some(s)) => {
                    proof {
                        assert(run_end(bm, y as int, x as int) == run_end(bm, y as int, x + 1));
                    }
                },
                (false, None) => {
                    proof {
                        let emitted = choose|emitted: Seq<Rect>|
                            #![trigger emitted + row_runs(bm, pw, p, y as int, x as int)]
                            rects@ == done + emitted && row_runs(bm, pw, p, y as int, 0) == emitted
                                + row_runs(bm, pw, p, y as int, x as int);
                        if x < w {
                            assert(row_runs(bm, pw, p, y as int, x as int) == row_runs(bm, pw, p, y as int, x + 1));
                            assert(rects@ == done + emitted && row_runs(bm, pw, p, y as int, 0) == emitted + row_runs(bm, pw, p, y as int, x + 1));
                        } else {
                            assert(row_runs(bm, pw, p, y as int, x as int) == Seq::<Rect>::empty());
                            assert(emitted + Seq::<Rect>::empty() =~= emitted);
                        }
                    }
                },
            }
            x = x + 1;
        }
        proof {
            assert(rects@ == row_merged(bm, pw, p, y + 1));
        }
        y = y + 1;
    }
    rects
}

/// A pixel block: columns `.0..(.2)`, rows `.1..(.3)`.
pub type Block = (int, int, int, int);

pub open spec fn in_block(blk: Block, x: int, y: int) -> bool {
    blk.0 <= x < blk.2 && blk.1 <= y < blk.3
}

/// Some block of `blocks` holds pixel `(x, y)`.
pub open spec fn covered(blocks: Seq<Block>, x: int, y: int) -> bool {
    exists|k: int| 0 <= k < blocks.len() && #[trigger] in_block(blocks[k], x, y)
}

/// Each block is a non-empty block of metal pixels of `bm`.
pub open spec fn metal_blocks(bm: ArtworkBitmap, blocks: Seq<Block>) -> bool {
    &&& forall|k: int|
        0 <= k < blocks.len() ==> 0 <= (#[trigger] blocks[k]).0 < blocks[k].2 <= bm.width && 0
            <= blocks[k].1 < blocks[k].3 <= bm.height
    &&& forall|k: int, x: int, y: int|
        0 <= k < blocks.len() && #[trigger] in_block(blocks[k], x, y) ==> bm.pixel(x, y)
}

/// The blocks cover exactly the metal pixels of `bm`.
pub open spec fn is_cover(bm: ArtworkBitmap, blocks: Seq<Block>) -> bool {
    &&& metal_blocks(bm, blocks)
    &&& forall|x: int, y: int| #[trigger] bm.pixel(x, y) ==> covered(blocks, x, y)
}

/// The top-left corners of the blocks come in strictly increasing
/// row-major order, and no block's top-left corner lies in an earlier block.
pub open spec fn scan_ordered(blocks: Seq<Block>) -> bool {
    &&& forall|i: int, j: int|
        0 <= i < j < blocks.len() ==> (#[trigger] blocks[i]).1 < (#[trigger] blocks[j]).1 || (
        blocks[i].1 == blocks[j].1 && blocks[i].0 < blocks[j].0)
    &&& forall|k: int|
        0 <= k < blocks.len() ==> !covered(blocks.subrange(0, k), (#[trigger] blocks[k]).0, blocks[k].1)
}

/// The rectangles of the blocks.
pub open spec fn blocks_rects(h: int, pw: int, p: int, blocks: Seq<Block>) -> Seq<Rect> {
    Seq::new(
        blocks.len(),
        |k: int| block_rect(h, pw, p, blocks[k].0, blocks[k].1, blocks[k].2, blocks[k].3),
    )
}

pub proof fn lemma_cell_index(w: int, x: int, y: int)
    requires
        0 <= x < w,
        0 <= y,
    ensures
        (y * w + x) / w == y,
        (y * w + x) % w == x,
        y * w + x >= 0,
{
    assert((y * w + x) / w == y && (y * w + x) % w == x) by (nonlinear_arith)
        requires
            0 <= x < w,
            0 <= y,
    ;
    assert(y * w >= 0) by (nonlinear_arith)
        requires
            0 <= y,
            w > 0,
    ;
}

pub proof fn lemma_cell_bound(w: int, h: int, x: int, y: int)
    requires
        0 <= x < w,
        0 <= y < h,
    ensures
        0 <= y * w + x < w * h,
{
    assert(0 <= y * w + x < w * h) by (nonlinear_arith)
        requires
            0 <= x < w,
            0 <= y < h,
    ;
}

pub proof fn lemma_cell_unique(w: int, x1: int, y1: int, x2: int, y2: int)
    requires
        0 <= x1 < w,
        0 <= x2 < w,
        0 <= y1,
        0 <= y2,
        y1 * w + x1 == y2 * w + x2,
    ensures
        x1 == x2 && y1 == y2,
{
    lemma_cell_index(w, x1, y1);
    lemma_cell_index(w, x2, y2);
}

/// Pixel `(x, py)` can join a new block: it is metal and no block of
/// `blocks` holds it.
pub open spec fn free_metal(bm: ArtworkBitmap, blocks: Seq<Block>, x: int, py: int) -> bool {
    bm.pixel(x, py) && !covered(blocks, x, py)
}

/// How many pixels down from `(x, py)` are free metal in a row.
pub open spec fn free_depth(bm: ArtworkBitmap, blocks: Seq<Block>, x: int, py: int) -> int
    decreases bm.height - py,
{
    if py < 0 || py >= bm.height || !free_metal(bm, blocks, x, py) {
        0
    } else {
        1 + free_depth(bm, blocks, x, py + 1)
    }
}

/// Length of the metal run starting at `(x, py)`.
pub open spec fn run_len(bm: ArtworkBitmap, x: int, py: int) -> int {
    run_end(bm, py, x) - x
}

/// The shortest run starting in column `x` among rows `y .. y + k` (the
/// first row's when `k <= 1`).
pub open spec fn shortest_run(bm: ArtworkBitmap, x: int, y: int, k: int) -> int
    decreases k,
{
    if k <= 1 {
        run_len(bm, x, y)
    } else {
        min_i(shortest_run(bm, x, y, k - 1), run_len(bm, x, y + k - 1))
    }
}

/// `(area, width, height)` of the largest block with top-left `(x, y)` and
/// at most `k` rows, each as wide as the shortest run among its rows; the
/// fewest rows among equal areas.
pub open spec fn best_block(bm: ArtworkBitmap, x: int, y: int, k: int) -> (int, int, int)
    decreases k,
{
    if k <= 0 {
        (0, 0, 0)
    } else {
        let prev = best_block(bm, x, y, k - 1);
        let a = shortest_run(bm, x, y, k) * k;
        if a > prev.0 {
            (a, shortest_run(bm, x, y, k), k)
        } else {
            prev
        }
    }
}

/// The block that free metal pixel `(x, y)` starts: the largest over the
/// free metal pixels below it.
pub open spec fn greedy_block(bm: ArtworkBitmap, blocks: Seq<Block>, x: int, y: int) -> Block {
    let b = best_block(bm, x, y, free_depth(bm, blocks, x, y));
    (x, y, x + b.1, y + b.2)
}

/// The blocks that greedy merging has started after visiting the first `i`
/// pixels in row-major order.
pub open spec fn greedy_blocks(bm: ArtworkBitmap, i: nat) -> Seq<Block>
    decreases i,
{
    if i == 0 {
        seq![]
    } else {
        let prev = greedy_blocks(bm, (i - 1) as nat);
        let x = (i - 1) % (bm.width as int);
        let y = (i - 1) / (bm.width as int);
        if free_metal(bm, prev, x, y) {
            prev.push(greedy_block(bm, prev, x, y))
        } else {
            prev
        }
    }
}

/// The blocks of greedy merging over the whole bitmap.
pub open spec fn greedy_cover(bm: ArtworkBitmap) -> Seq<Block> {
    greedy_blocks(bm, (bm.width * bm.height) as nat)
}

proof fn lemma_free_depth(bm: ArtworkBitmap, blocks: Seq<Block>, x: int, y: int, d: int)
    requires
        0 <= y,
        0 <= d,
        y + d <= bm.height,
        forall|py: int| y <= py < y + d ==> #[trigger] free_metal(bm, blocks, x, py),
        y + d == bm.height || !free_metal(bm, blocks, x, y + d),
    ensures
        free_depth(bm, blocks, x, y) == d,
    decreases d,
{
    if d > 0 {
        assert(free_metal(bm, blocks, x, y));
        lemma_free_depth(bm, blocks, x, y + 1, d - 1);
    }
}

/// Greedy maximal rectangle merging (row-then-column): scanning in row-major
/// order, each metal pixel not yet covered starts a rectangle that extends
/// right as far as every one of its rows allows and down as far as gives
/// the largest area.
pub fn greedy_merged_rects(bitmap: &ArtworkBitmap, pixel_w: i32, pitch: i32) -> (r: Vec<Rect>)
    requires
        bitmap.wf(),
        grid_fits(*bitmap, pixel_w as int, pitch as int),
        bitmap.width <= i32::MAX,
        bitmap.height <= i32::MAX,
    ensures
        is_cover(*bitmap, greedy_cover(*bitmap)),
        scan_ordered(greedy_cover(*bitmap)),
        r@ == blocks_rects(bitmap.height as int, pixel_w as int, pitch as int, greedy_cover(*bitmap)),
{
    let ghost bm = *bitmap;
    let ghost pw = pixel_w as int;
    let ghost p = pitch as int;
    let ghost wi = bitmap.width as int;
    let ghost hi = bitmap.height as int;
    let w = bitmap.width as usize;
    let h = bitmap.height as usize;
    proof {
        bm.lemma_view();
    }
    let n = w * h;

    // First pass: runs[y * w + x] = number of consecutive metal pixels
    // starting at (x, y) going right.
    let mut runs: Vec<u32> = Vec::new();
    let mut k: usize = 0;
    while k < n
        invariant
            k <= n,
            runs@.len() == k,
        decreases n - k,
    {
        runs.push(0u32);
        k = k + 1;
    }
    let mut y: usize = 0;
    while y < h
        invariant
            bitmap.wf(),
            bm == *bitmap,
            wi == w,
            hi == h,
            w == bitmap.width,
            h == bitmap.height,
            n == w * h,
            y <= h,
            runs@.len() == n,
            forall|px: int, py: int|
                0 <= px < w && 0 <= py < y ==> #[trigger] runs@[py * w + px] == run_end(bm, py, px)
                    - px,
        decreases h - y,
    {
        let mut count = 0u32;
        let mut i: usize = w;
        while i > 0
            invariant
                bitmap.wf(),
                bm == *bitmap,
                wi == w,
                hi == h,
                w == bitmap.width,
                h == bitmap.height,
                n == w * h,
                y < h,
                i <= w,
                runs@.len() == n,
                count == run_end(bm, y as int, i as int) - i,
                forall|px: int, py: int|
                    0 <= px < w && 0 <= py < y ==> #[trigger] runs@[py * w + px] == run_end(bm, py, px)
                        - px,
                forall|px: int|
                    i <= px < w ==> #[trigger] runs@[y * w + px] == run_end(bm, y as int, px) - px,
            decreases i,
        {
            let x = i - 1;
            proof {
                lemma_run_end(bm, y as int, i as int);
                lemma_cell_bound(w as int, h as int, x as int, y as int);
            }
            if bitmap.get(x as u32, y as u32) {
                count = count + 1;
            } else {
                count = 0;
            }
            let ghost before = runs@;
            runs.set(y * w + x, count);
            proof {
                assert forall|px: int, py: int| 0 <= px < w && 0 <= py < y implies #[trigger] runs@[py * w + px] == run_end(bm, py, px) - px by {
                    lemma_cell_bound(w as int, h as int, px, py);
                    if py * w + px == y * w + x {
                        lemma_cell_unique(w as int, px, py, x as int, y as int);
                    }
                    assert(runs@[py * w + px] == before[py * w + px]);
                }
                assert forall|px: int| x <= px < w implies #[trigger] runs@[y * w + px] == run_end(bm, y as int, px) - px by {
                    if px != x {
                        lemma_cell_bound(w as int, h as int, px, y as int);
                        if y * w + px == y * w + x {
                            lemma_cell_unique(w as int, px, y as int, x as int, y as int);
                        }
                        assert(runs@[y * w + px] == before[y * w + px]);
                    }
                }
            }
            i = x;
        }
        y = y + 1;
    }

    // Second pass: each uncovered metal pixel starts the largest rectangle
    // that extends down from it.
    let mut used: Vec<bool> = Vec::new();
    let mut k: usize = 0;
    while k < n
        invariant
            k <= n,
            used@.len() == k,
            forall|m: int| 0 <= m < k ==> !used@[m],
        decreases n - k,
    {
        used.push(false);
        k = k + 1;
    }
    let mut rects: Vec<Rect> = Vec::new();
    let ghost mut blocks: Seq<Block> = Seq::empty();
    proof {
        assert forall|px: int, py: int| 0 <= px < w && 0 <= py < h implies #[trigger] used@[py * w + px] == covered(blocks, px, py) by {
            lemma_cell_bound(w as int, h as int, px, py);
        }
        assert(rects@ =~= blocks_rects(hi, pw, p, blocks));
    }
    let mut y: usize = 0;
    while y < h
        invariant
            bitmap.wf(),
            bm == *bitmap,
            pw == pixel_w,
            p == pitch,
            grid_fits(bm, pw, p),
            w <= i32::MAX,
            h <= i32::MAX,
            wi == w,
            hi == h,
            w == bitmap.width,
            h == bitmap.height,
            n == w * h,
            y <= h,
            runs@.len() == n,
            used@.len() == n,
            forall|px: int, py: int|
                0 <= px < w && 0 <= py < h ==> #[trigger] runs@[py * w + px] == run_end(bm, py, px)
                    - px,
            forall|px: int, py: int|
                0 <= px < w && 0 <= py < h ==> #[trigger] used@[py * w + px] == covered(blocks, px, py),
            metal_blocks(bm, blocks),
            scan_ordered(blocks),
            forall|k: int| 0 <= k < blocks.len() ==> (#[trigger] blocks[k]).1 < y,
            forall|px: int, py: int| 0 <= py < y && #[trigger] bm.pixel(px, py) ==> covered(blocks, px, py),
            rects@ == blocks_rects(hi, pw, p, blocks),
            blocks == greedy_blocks(bm, (y * w) as nat),
        decreases h - y,
    {
        let mut x: usize = 0;
        while x < w
            invariant
                bitmap.wf(),
                bm == *bitmap,
                pw == pixel_w,
                p == pitch,
                grid_fits(bm, pw, p),
                w <= i32::MAX,
                h <= i32::MAX,
            h <= i32::MAX,
                wi == w,
                hi == h,
                w == bitmap.width,
                h == bitmap.height,
                n == w * h,
                y < h,
                x <= w,
                runs@.len() == n,
                used@.len() == n,
                forall|px: int, py: int|
                    0 <= px < w && 0 <= py < h ==> #[trigger] runs@[py * w + px] == run_end(bm, py, px)
                        - px,
                forall|px: int, py: int|
                    0 <= px < w && 0 <= py < h ==> #[trigger] used@[py * w + px] == covered(blocks, px, py),
                metal_blocks(bm, blocks),
                scan_ordered(blocks),
                forall|k: int| 0 <= k < blocks.len() ==> (#[trigger] blocks[k]).1 < y || (blocks[k].1 == y && blocks[k].0 < x),
                forall|px: int, py: int| (0 <= py < y || (py == y && px < x)) && #[trigger] bm.pixel(px, py) ==> covered(blocks, px, py),
                rects@ == blocks_rects(hi, pw, p, blocks),
                blocks == greedy_blocks(bm, (y * w + x) as nat),
            decreases w - x,
        {
            proof {
                lemma_cell_bound(w as int, h as int, x as int, y as int);
                lemma_cell_index(w as int, x as int, y as int);
            }
            if used[y * w + x] || !bitmap.get(x as u32, y as u32) {
                proof {
                    assert(!free_metal(bm, blocks, x as int, y as int));
                    assert(greedy_blocks(bm, (y * w + x + 1) as nat) == blocks);
                }
                x = x + 1;
                continue;
            }
            proof {
                lemma_run_end(bm, y as int, x as int);
            }
            // Find the largest rectangle starting at (x, y) extending down.
            let mut min_run = runs[y * w + x];
            let mut best_area = 0u64;
            let mut best_w = 0u32;
            let mut best_h = 0u32;
            let mut dy: usize = 0;
            let mut go = true;
            while go && dy < h - y
                invariant
                    bitmap.wf(),
                    bm == *bitmap,
                    wi == w,
                    hi == h,
                    w == bitmap.width,
                    h == bitmap.height,
                    n == w * h,
                    y < h,
                    x < w,
                    dy <= h - y,
                    runs@.len() == n,
                    used@.len() == n,
                    forall|px: int, py: int|
                        0 <= px < w && 0 <= py < h ==> #[trigger] runs@[py * w + px] == run_end(bm, py, px)
                            - px,
                    1 <= min_run <= w - x,
                    bm.pixel(x as int, y as int),
                    !covered(blocks, x as int, y as int),
                    forall|px: int, py: int|
                        0 <= px < w && 0 <= py < h ==> #[trigger] used@[py * w + px] == covered(blocks, px, py),
                    forall|py: int| y <= py < y + dy ==> #[trigger] bm.pixel(x as int, py),
                    forall|py: int| y <= py < y + dy ==> min_run <= #[trigger] runs@[py * w + x],
                    best_h <= dy,
                    dy > 0 ==> best_h > 0,
                    best_h > 0 ==> 1 <= best_w <= w - x,
                    forall|py: int| y <= py < y + best_h ==> best_w <= #[trigger] runs@[py * w + x],
                    forall|py: int| y <= py < y + dy ==> !#[trigger] covered(blocks, x as int, py),
                    forall|py: int| y <= py < y + dy ==> #[trigger] free_metal(bm, blocks, x as int, py),
                    best_area == best_w * best_h,
                    best_area <= w * h,
                    !go ==> dy > 0,
                    !go ==> y + dy < h && !free_metal(bm, blocks, x as int, y + dy),
                    min_run == shortest_run(bm, x as int, y as int, dy as int),
                    best_area == best_block(bm, x as int, y as int, dy as int).0,
                    best_w == best_block(bm, x as int, y as int, dy as int).1,
                    best_h == best_block(bm, x as int, y as int, dy as int).2,
                decreases h - y - dy + if go {
                    1int
                } else {
                    0int
                },
            {
                let cy = y + dy;
                proof {
                    lemma_cell_bound(w as int, h as int, x as int, cy as int);
                }
                if !bitmap.get(x as u32, cy as u32) || used[cy * w + x] {
                    go = false;
                    continue;
                }
                proof {
                    lemma_run_end(bm, cy as int, x as int);
                }
                let r = runs[cy * w + x];
                if r < min_run {
                    min_run = r;
                }
                proof {
                    assert(min_run as int * (dy + 1) <= w * h) by (nonlinear_arith)
                        requires
                            min_run <= w - x,
                            dy + 1 <= h - y,
                            x < w,
                            y < h,
                    ;
                }
                let area = min_run as u64 * (dy as u64 + 1);
                if area > best_area {
                    best_area = area;
                    best_w = min_run;
                    best_h = dy as u32 + 1;
                    proof {
                        assert forall|py: int| y <= py < y + best_h implies best_w <= #[trigger] runs@[py * w + x] by {
                            if py < y + dy {
                                assert(min_run <= runs@[py * w + x]);
                            }
                        }
                    }
                }
                dy = dy + 1;
            }
            proof {
                assert(best_h > 0) by {
                    if dy == 0 {
                        // the first row always qualifies: (x, y) is metal and uncovered
                        assert(!used@[y * w + x]);
                    }
                }
                lemma_free_depth(bm, blocks, x as int, y as int, dy as int);
            }
            let ghost nb: Block = (x as int, y as int, x + best_w, y + best_h);
            assert(nb == greedy_block(bm, blocks, x as int, y as int));
            proof {
                assert(y + best_h <= h);
                assert forall|i: int, py: int| y <= py < y + best_h && x <= i < x + best_w implies #[trigger] bm.pixel(i, py) by {
                    assert(best_w <= runs@[py * w + x]);
                    assert(bm.pixel(x as int, py));
                    lemma_run_end(bm, py, x as int);
                }
            }
            // Mark used
            let mut dy: usize = 0;
            while dy < best_h as usize
                invariant
                    bitmap.wf(),
                    bm == *bitmap,
                    wi == w,
                    hi == h,
                    w == bitmap.width,
                    h == bitmap.height,
                    n == w * h,
                    y < h,
                    x < w,
                    nb == (x as int, y as int, x + best_w, y + best_h),
                    x + best_w <= w,
                    y + best_h <= h,
                    dy <= best_h,
                    used@.len() == n,
                    forall|px: int, py: int|
                        0 <= px < w && 0 <= py < h ==> #[trigger] used@[py * w + px] == (covered(blocks, px, py)
                            || in_block((x as int, y as int, x + best_w, y + dy), px, py)),
                decreases best_h - dy,
            {
                let mut dx: usize = 0;
                while dx < best_w as usize
                    invariant
                        bitmap.wf(),
                        bm == *bitmap,
                        n == w * h,
                        y < h,
                        x < w,
                        x + best_w <= w,
                        y + best_h <= h,
                        dy < best_h,
                        dx <= best_w,
                        used@.len() == n,
                        forall|px: int, py: int|
                            0 <= px < w && 0 <= py < h ==> #[trigger] used@[py * w + px] == (covered(blocks, px, py)
                                || in_block((x as int, y as int, x + best_w, y + dy), px, py)
                                || (py == y + dy && x <= px < x + dx)),
                    decreases best_w - dx,
                {
                    proof {
                        lemma_cell_bound(w as int, h as int, x + dx, y + dy);
                    }
                    let ghost before = used@;
                    let idx = (y + dy) * w + x + dx;
                    used.set(idx, true);
                    proof {
                        assert forall|px: int, py: int| 0 <= px < w && 0 <= py < h implies #[trigger] used@[py * w + px] == (covered(blocks, px, py)
                            || in_block((x as int, y as int, x + best_w, y + dy), px, py)
                            || (py == y + dy && x <= px < x + dx + 1)) by {
                            lemma_cell_bound(w as int, h as int, px, py);
                            if py * w + px == idx {
                                lemma_cell_unique(w as int, px, py, x + dx, y + dy);
                            } else {
                                assert(used@[py * w + px] == before[py * w + px]);
                            }
                        }
                    }
                    dx = dx + 1;
                }
                dy = dy + 1;
            }
            // Create rectangle
            proof {
                lemma_axis_fits(wi, pw, p, x as int);
                lemma_axis_fits(wi, pw, p, x + best_w - 1);
                lemma_axis_fits(hi, pw, p, hi - 1 - y);
                lemma_axis_fits(hi, pw, p, hi - y - best_h);
            }
            let x0 = x as i32 * pitch;
            let y_flipped = (h - 1 - y) as i32;
            let y0 = (y_flipped - best_h as i32 + 1) * pitch;
            let x1 = (x as i32 + best_w as i32 - 1) * pitch + pixel_w;
            let y1 = y_flipped * pitch + pixel_w;
            rects.push(Rect::new(x0, y0, x1, y1));
            proof {
                let old_blocks = blocks;
                assert(free_metal(bm, old_blocks, x as int, y as int));
                assert(greedy_blocks(bm, (y * w + x + 1) as nat) == old_blocks.push(nb));
                blocks = blocks.push(nb);
                assert(rects@ =~= blocks_rects(hi, pw, p, blocks));
                assert forall|px: int, py: int| 0 <= px < w && 0 <= py < h implies #[trigger] used@[py * w + px] == covered(blocks, px, py) by {
                    if covered(old_blocks, px, py) {
                        let k = choose|k: int| 0 <= k < old_blocks.len() && #[trigger] in_block(old_blocks[k], px, py);
                        assert(blocks[k] == old_blocks[k]);
                    }
                    if in_block(nb, px, py) {
                        assert(blocks[old_blocks.len() as int] == nb);
                    }
                    if covered(blocks, px, py) {
                        let k = choose|k: int| 0 <= k < blocks.len() && #[trigger] in_block(blocks[k], px, py);
                        if k < old_blocks.len() {
                            assert(blocks[k] == old_blocks[k]);
                        }
                    }
                }
                assert(metal_blocks(bm, blocks)) by {
                    assert forall|k: int, px: int, py: int| 0 <= k < blocks.len() && #[trigger] in_block(blocks[k], px, py) implies bm.pixel(px, py) by {
                        if k < old_blocks.len() {
                            assert(blocks[k] == old_blocks[k]);
                        } else {
                            assert(blocks[k] == nb);
                            assert(x <= px < x + best_w && y <= py < y + best_h);
                        }
                    }
                    assert forall|k: int| 0 <= k < blocks.len() implies 0 <= (#[trigger] blocks[k]).0 < blocks[k].2 <= bm.width && 0
                        <= blocks[k].1 < blocks[k].3 <= bm.height by {
                        if k < old_blocks.len() {
                            assert(blocks[k] == old_blocks[k]);
                        }
                    }
                }
                assert(scan_ordered(blocks)) by {
                    assert forall|i: int, j: int| 0 <= i < j < blocks.len() implies (#[trigger] blocks[i]).1 < (#[trigger] blocks[j]).1 || (
                        blocks[i].1 == blocks[j].1 && blocks[i].0 < blocks[j].0) by {
                        assert(blocks[i] == old_blocks[i]);
                        if j < old_blocks.len() {
                            assert(blocks[j] == old_blocks[j]);
                        }
                    }
                    assert forall|k: int| 0 <= k < blocks.len() implies !covered(blocks.subrange(0, k), (#[trigger] blocks[k]).0, blocks[k].1) by {
                        if k < old_blocks.len() {
                            assert(blocks[k] == old_blocks[k]);
                            assert(blocks.subrange(0, k) =~= old_blocks.subrange(0, k));
                        } else {
                            assert(blocks.subrange(0, k) =~= old_blocks);
                            assert(!used@[y * w + x] || true);
                        }
                    }
                }
                assert forall|k: int| 0 <= k < blocks.len() implies (#[trigger] blocks[k]).1 < y || (blocks[k].1 == y && blocks[k].0 < x + 1) by {
                    if k < old_blocks.len() {
                        assert(blocks[k] == old_blocks[k]);
                    }
                }
                assert forall|px: int, py: int| (0 <= py < y || (py == y && px < x + 1)) && #[trigger] bm.pixel(px, py) implies covered(blocks, px, py) by {
                    if py == y && px == x {
                        assert(in_block(blocks[old_blocks.len() as int], px, py));
                    } else {
                        assert(covered(old_blocks, px, py));
                        let k = choose|k: int| 0 <= k < old_blocks.len() && #[trigger] in_block(old_blocks[k], px, py);
                        assert(blocks[k] == old_blocks[k]);
                    }
                }
            }
            x = x + 1;
        }
        proof {
            assert(y * w + w == (y + 1) * w) by (nonlinear_arith);
        }
        y = y + 1;
    }
    proof {
        assert forall|px: int, py: int| #[trigger] bm.pixel(px, py) implies covered(blocks, px, py) by {
            assert(0 <= py < h);
        }
        assert(is_cover(bm, blocks));
        assert(h * w == w * h) by (nonlinear_arith);
        assert(blocks == greedy_cover(bm));
    }
    rects
}

// ---------------------------------------------------------------------------
// Geometry of the generated rectangles.
/// Distance between the intervals `[a0, a1]` and `[b0, b1]`; 0 when they
/// touch or overlap.
pub open spec fn axis_gap(a0: int, a1: int, b0: int, b1: int) -> int {
    if a1 <= b0 {
        b0 - a1
    } else if b1 <= a0 {
        a0 - b1
    } else {
        0
    }
}

/// Spacing between two rectangles as design rule checks measure it: the
/// smaller axis gap when they are apart on both axes, else the larger one;
/// 0 when they touch or overlap.
pub open spec fn spacing(a: Rect, b: Rect) -> int {
    let dx = axis_gap(a.x0 as int, a.x1 as int, b.x0 as int, b.x1 as int);
    let dy = axis_gap(a.y0 as int, a.y1 as int, b.y0 as int, b.y1 as int);
    if dx > 0 && dy > 0 {
        min_i(dx, dy)
    } else {
        max_i(dx, dy)
    }
}

/// The block lies in the pixel grid of `bm`.
pub open spec fn block_in_grid(bm: ArtworkBitmap, blk: Block) -> bool {
    0 <= blk.0 < blk.2 <= bm.width && 0 <= blk.1 < blk.3 <= bm.height
}

/// Two blocks share a pixel.
pub open spec fn blocks_overlap(b1: Block, b2: Block) -> bool {
    b1.0 < b2.2 && b2.0 < b1.2 && b1.1 < b2.3 && b2.1 < b1.3
}

/// The edges of a block's rectangle, when the pixels do not overlap their
/// neighbours' cells (`0 <= pw <= p`).
pub proof fn lemma_block_rect(bm: ArtworkBitmap, pw: int, p: int, blk: Block)
    requires
        grid_fits(bm, pw, p),
        0 <= pw <= p,
        block_in_grid(bm, blk),
    ensures
        ({
            let r = block_rect(bm.height as int, pw, p, blk.0, blk.1, blk.2, blk.3);
            &&& r.x0 == blk.0 * p
            &&& r.x1 == (blk.2 - 1) * p + pw
            &&& r.y0 == (bm.height - blk.3) * p
            &&& r.y1 == (bm.height - 1 - blk.1) * p + pw
            &&& r.x1 - r.x0 >= pw
            &&& r.y1 - r.y0 >= pw
        }),
{
    let h = bm.height as int;
    lemma_axis_fits(bm.width as int, pw, p, blk.0);
    lemma_axis_fits(bm.width as int, pw, p, blk.2 - 1);
    lemma_axis_fits(h, pw, p, h - blk.3);
    lemma_axis_fits(h, pw, p, h - 1 - blk.1);
    assert(blk.0 * p <= (blk.2 - 1) * p) by (nonlinear_arith)
        requires
            blk.0 <= blk.2 - 1,
            p >= 0,
    ;
    assert((h - blk.3) * p <= (h - 1 - blk.1) * p) by (nonlinear_arith)
        requires
            h - blk.3 <= h - 1 - blk.1,
            p >= 0,
    ;
}

/// The gap along one axis between the cells of index ranges `a0..a1` and
/// `b0..b1`: 0 when the ranges share an index, at least `p - pw` otherwise.
pub proof fn lemma_axis_gap(pw: int, p: int, a0: int, a1: int, b0: int, b1: int)
    requires
        0 <= pw <= p,
        a0 < a1,
        b0 < b1,
    ensures
        (a0 < b1 && b0 < a1) ==> axis_gap(a0 * p, (a1 - 1) * p + pw, b0 * p, (b1 - 1) * p + pw)
            == 0,
        !(a0 < b1 && b0 < a1) ==> axis_gap(a0 * p, (a1 - 1) * p + pw, b0 * p, (b1 - 1) * p + pw)
            >= p - pw,
{
    if a1 <= b0 {
        assert((b0 - (a1 - 1)) * p >= p) by (nonlinear_arith)
            requires
                b0 - (a1 - 1) >= 1,
                p >= 0,
        ;
        assert(b0 * p - ((a1 - 1) * p + pw) == (b0 - (a1 - 1)) * p - pw) by (nonlinear_arith);
    } else if b1 <= a0 {
        assert((a0 - (b1 - 1)) * p >= p) by (nonlinear_arith)
            requires
                a0 - (b1 - 1) >= 1,
                p >= 0,
        ;
        assert(a0 * p - ((b1 - 1) * p + pw) == (a0 - (b1 - 1)) * p - pw) by (nonlinear_arith);
        assert((a1 - 1) * p >= b0 * p + p) by (nonlinear_arith)
            requires
                a1 - 1 >= b0 + 1,
                p >= 0,
        ;
    } else {
        assert(a0 * p <= (b1 - 1) * p) by (nonlinear_arith)
            requires
                a0 <= b1 - 1,
                p >= 0,
        ;
        assert(b0 * p <= (a1 - 1) * p) by (nonlinear_arith)
            requires
                b0 <= a1 - 1,
                p >= 0,
        ;
    }
}

/// The rectangles of two blocks are either touching or overlapping
/// (spacing 0), which happens exactly when the blocks share a pixel, or at
/// least `p - pw` apart.
pub proof fn lemma_block_spacing(bm: ArtworkBitmap, pw: int, p: int, b1: Block, b2: Block)
    requires
        grid_fits(bm, pw, p),
        0 <= pw <= p,
        block_in_grid(bm, b1),
        block_in_grid(bm, b2),
    ensures
        ({
            let h = bm.height as int;
            let s = spacing(
                block_rect(h, pw, p, b1.0, b1.1, b1.2, b1.3),
                block_rect(h, pw, p, b2.0, b2.1, b2.2, b2.3),
            );
            &&& blocks_overlap(b1, b2) ==> s == 0
            &&& !blocks_overlap(b1, b2) ==> s >= p - pw
        }),
{
    let h = bm.height as int;
    lemma_block_rect(bm, pw, p, b1);
    lemma_block_rect(bm, pw, p, b2);
    lemma_axis_gap(pw, p, b1.0, b1.2, b2.0, b2.2);
    // rows are flipped: block rows c..d map to flipped rows h-d..h-c
    lemma_axis_gap(pw, p, h - b1.3, h - b1.1, h - b2.3, h - b2.1);
    assert((h - b1.1 - 1) * p + pw == (h - 1 - b1.1) * p + pw);
    assert((h - b2.1 - 1) * p + pw == (h - 1 - b2.1) * p + pw);
}

/// Every rectangle of a cover is at least `pw` wide and high, and any two of
/// them either touch or overlap or are at least `s` apart, whenever the
/// pitch leaves a gap of `s` between neighbouring pixel cells. With the
/// pitch `min_width + min_spacing` and the pixel side `min_width`, the
/// rectangles satisfy the width and spacing rules by construction.
pub proof fn lemma_cover_drc_clean(bm: ArtworkBitmap, blocks: Seq<Block>, pw: int, p: int, s: int)
    requires
        grid_fits(bm, pw, p),
        0 <= pw,
        pw + s <= p,
        0 <= s,
        metal_blocks(bm, blocks),
    ensures
        forall|i: int|
            #![trigger blocks_rects(bm.height as int, pw, p, blocks)[i]]
            0 <= i < blocks.len() ==> blocks_rects(bm.height as int, pw, p, blocks)[i].x1
                - blocks_rects(bm.height as int, pw, p, blocks)[i].x0 >= pw && blocks_rects(
                bm.height as int,
                pw,
                p,
                blocks,
            )[i].y1 - blocks_rects(bm.height as int, pw, p, blocks)[i].y0 >= pw,
        forall|i: int, j: int|
            0 <= i < blocks.len() && 0 <= j < blocks.len() ==> spacing(
                #[trigger] blocks_rects(bm.height as int, pw, p, blocks)[i],
                #[trigger] blocks_rects(bm.height as int, pw, p, blocks)[j],
            ) <= 0 || spacing(
                blocks_rects(bm.height as int, pw, p, blocks)[i],
                blocks_rects(bm.height as int, pw, p, blocks)[j],
            ) >= s,
{
    let rs = blocks_rects(bm.height as int, pw, p, blocks);
    assert forall|i: int| 0 <= i < blocks.len() implies #[trigger] rs[i].x1 - rs[i].x0 >= pw
        && rs[i].y1 - rs[i].y0 >= pw by {
        lemma_block_rect(bm, pw, p, blocks[i]);
    }
    assert forall|i: int, j: int| 0 <= i < blocks.len() && 0 <= j < blocks.len() implies spacing(
        #[trigger] rs[i],
        #[trigger] rs[j],
    ) <= 0 || spacing(rs[i], rs[j]) >= s by {
        lemma_block_spacing(bm, pw, p, blocks[i], blocks[j]);
    }
}

// ---------------------------------------------------------------------------
// The block structure of the pixel and row strategies.
/// The single-pixel blocks of the metal pixels of row `y` with column `< x`.
pub open spec fn row_pixel_blocks(bm: ArtworkBitmap, y: int, x: int) -> Seq<Block>
    decreases x,
{
    if x <= 0 {
        seq![]
    } else {
        row_pixel_blocks(bm, y, x - 1) + if bm.pixel(x - 1, y) {
            seq![(x - 1, y, x, y + 1)]
        } else {
            seq![]
        }
    }
}

/// The single-pixel blocks of the metal pixels of the rows `< y`.
pub open spec fn pixel_blocks(bm: ArtworkBitmap, y: int) -> Seq<Block>
    decreases y,
{
    if y <= 0 {
        seq![]
    } else {
        pixel_blocks(bm, y - 1) + row_pixel_blocks(bm, y - 1, bm.width as int)
    }
}

/// The maximal runs of row `y` starting at or after column `x`, as blocks.
pub open spec fn row_run_blocks(bm: ArtworkBitmap, y: int, x: int) -> Seq<Block>
    decreases bm.width - x,
{
    if x >= bm.width || x < 0 {
        seq![]
    } else if !bm.pixel(x, y) {
        row_run_blocks(bm, y, x + 1)
    } else {
        let e = run_end(bm, y, x);
        proof {
            lemma_run_end(bm, y, x);
        }
        seq![(x, y, e, y + 1)] + row_run_blocks(bm, y, e)
    }
}

/// The maximal runs of the rows `< y`, as blocks.
pub open spec fn run_blocks(bm: ArtworkBitmap, y: int) -> Seq<Block>
    decreases y,
{
    if y <= 0 {
        seq![]
    } else {
        run_blocks(bm, y - 1) + row_run_blocks(bm, y - 1, 0)
    }
}

/// One-row blocks, ordered top to bottom and, within a row, left to right
/// without overlap.
pub open spec fn row_sorted(blocks: Seq<Block>) -> bool {
    &&& forall|k: int| 0 <= k < blocks.len() ==> (#[trigger] blocks[k]).3 == blocks[k].1 + 1
    &&& forall|i: int, j: int|
        0 <= i < j < blocks.len() ==> (#[trigger] blocks[i]).1 < (#[trigger] blocks[j]).1 || (
        blocks[i].1 == blocks[j].1 && blocks[i].2 <= blocks[j].0)
}

pub proof fn lemma_blocks_rects_add(h: int, pw: int, p: int, a: Seq<Block>, b: Seq<Block>)
    ensures
        blocks_rects(h, pw, p, a + b) == blocks_rects(h, pw, p, a) + blocks_rects(h, pw, p, b),
{
    assert(blocks_rects(h, pw, p, a + b) =~= blocks_rects(h, pw, p, a) + blocks_rects(h, pw, p, b));
}

/// Row-sorted blocks never share a pixel.
pub proof fn lemma_row_sorted_disjoint(blocks: Seq<Block>)
    requires
        row_sorted(blocks),
        forall|k: int| 0 <= k < blocks.len() ==> (#[trigger] blocks[k]).0 < blocks[k].2,
    ensures
        forall|i: int, j: int|
            0 <= i < blocks.len() && 0 <= j < blocks.len() && i != j ==> !blocks_overlap(
                #[trigger] blocks[i],
                #[trigger] blocks[j],
            ),
{
    assert forall|i: int, j: int| 0 <= i < blocks.len() && 0 <= j < blocks.len() && i != j implies !blocks_overlap(
        #[trigger] blocks[i],
        #[trigger] blocks[j],
    ) by {
        let _ = blocks[i];
        let _ = blocks[j];
        if i < j {
            assert(blocks[i].1 < blocks[j].1 || (blocks[i].1 == blocks[j].1 && blocks[i].2 <= blocks[j].0));
        } else {
            assert(blocks[j].1 < blocks[i].1 || (blocks[j].1 == blocks[i].1 && blocks[j].2 <= blocks[i].0));
        }
    }
}

/// The pixel strategy's rectangles are those of its single-pixel blocks,
/// which cover the metal pixels one each: one rectangle per metal pixel.
pub proof fn lemma_pixel_blocks(bm: ArtworkBitmap, pw: int, p: int, y: int)
    requires
        bm.wf(),
        0 <= y <= bm.height,
    ensures
        pixel_cells(bm, pw, p, y) == blocks_rects(bm.height as int, pw, p, pixel_blocks(bm, y)),
        metal_blocks(bm, pixel_blocks(bm, y)),
        row_sorted(pixel_blocks(bm, y)),
        forall|k: int| 0 <= k < pixel_blocks(bm, y).len() ==> (#[trigger] pixel_blocks(bm, y)[k]).1 < y,
        forall|k: int| 0 <= k < pixel_blocks(bm, y).len() ==> (#[trigger] pixel_blocks(bm, y)[k]).2 == pixel_blocks(bm, y)[k].0 + 1,
        forall|px: int, py: int| py < y && #[trigger] bm.pixel(px, py) ==> covered(pixel_blocks(bm, y), px, py),
        pixel_blocks(bm, y).len() == count_range(bm@, 0, y * bm.width),
    decreases y,
{
    if y > 0 {
        lemma_pixel_blocks(bm, pw, p, y - 1);
        lemma_row_pixel_blocks(bm, pw, p, y - 1, bm.width as int);
        let a = pixel_blocks(bm, y - 1);
        let b = row_pixel_blocks(bm, y - 1, bm.width as int);
        lemma_blocks_rects_add(bm.height as int, pw, p, a, b);
        assert(pixel_blocks(bm, y) == a + b);
        let ab = a + b;
        assert forall|k: int| 0 <= k < ab.len() implies #[trigger] ab[k] == if k < a.len() { a[k] } else { b[k - a.len()] } by {}
        assert(metal_blocks(bm, ab)) by {
            assert forall|k: int, px: int, py: int| 0 <= k < ab.len() && #[trigger] in_block(ab[k], px, py) implies bm.pixel(px, py) by {
                if k < a.len() {
                    assert(in_block(a[k], px, py));
                } else {
                    assert(in_block(b[k - a.len()], px, py));
                }
            }
            assert forall|k: int| 0 <= k < ab.len() implies 0 <= (#[trigger] ab[k]).0 < ab[k].2 <= bm.width && 0
                <= ab[k].1 < ab[k].3 <= bm.height by {
                if k < a.len() {
                    let _ = a[k];
                } else {
                    let _ = b[k - a.len()];
                }
            }
        }
        assert(row_sorted(ab)) by {
            assert forall|k: int| 0 <= k < ab.len() implies (#[trigger] ab[k]).3 == ab[k].1 + 1 by {
                if k < a.len() {
                    let _ = a[k];
                } else {
                    let _ = b[k - a.len()];
                }
            }
            assert forall|i: int, j: int| 0 <= i < j < ab.len() implies (#[trigger] ab[i]).1 < (#[trigger] ab[j]).1 || (
                ab[i].1 == ab[j].1 && ab[i].2 <= ab[j].0) by {
                if j < a.len() {
                    let _ = a[i];
                    let _ = a[j];
                } else if i < a.len() {
                    let _ = a[i];
                    let _ = b[j - a.len()];
                } else {
                    let _ = b[i - a.len()];
                    let _ = b[j - a.len()];
                }
            }
        }
        assert forall|k: int| 0 <= k < ab.len() implies (#[trigger] ab[k]).1 < y && ab[k].2 == ab[k].0 + 1 by {
            if k < a.len() {
                let _ = a[k];
            } else {
                let _ = b[k - a.len()];
            }
        }
        assert forall|px: int, py: int| py < y && #[trigger] bm.pixel(px, py) implies covered(ab, px, py) by {
            if py < y - 1 {
                let k = choose|k: int| 0 <= k < a.len() && #[trigger] in_block(a[k], px, py);
                assert(ab[k] == a[k]);
            } else {
                let k = choose|k: int| 0 <= k < b.len() && #[trigger] in_block(b[k], px, py);
                assert(ab[a.len() + k] == b[k]);
            }
        }
        assert(0 <= (y - 1) * bm.width) by (nonlinear_arith)
            requires
                y >= 1,
        ;
        assert((y - 1) * bm.width + bm.width == y * bm.width) by (nonlinear_arith);
        lemma_count_split(bm@, 0, (y - 1) * bm.width, y * bm.width);
    }
}

pub proof fn lemma_row_pixel_blocks(bm: ArtworkBitmap, pw: int, p: int, y: int, x: int)
    requires
        bm.wf(),
        0 <= y < bm.height,
        0 <= x <= bm.width,
    ensures
        row_cells(bm, pw, p, y, x) == blocks_rects(bm.height as int, pw, p, row_pixel_blocks(bm, y, x)),
        metal_blocks(bm, row_pixel_blocks(bm, y, x)),
        row_sorted(row_pixel_blocks(bm, y, x)),
        forall|k: int|
            0 <= k < row_pixel_blocks(bm, y, x).len() ==> (#[trigger] row_pixel_blocks(bm, y, x)[k]).1 == y
                && row_pixel_blocks(bm, y, x)[k].2 <= x && row_pixel_blocks(bm, y, x)[k].2
                == row_pixel_blocks(bm, y, x)[k].0 + 1,
        forall|px: int| px < x && #[trigger] bm.pixel(px, y) ==> covered(row_pixel_blocks(bm, y, x), px, y),
        row_pixel_blocks(bm, y, x).len() == count_range(bm@, y * bm.width, y * bm.width + x),
    decreases x,
{
    if x > 0 {
        lemma_row_pixel_blocks(bm, pw, p, y, x - 1);
        let a = row_pixel_blocks(bm, y, x - 1);
        let b = if bm.pixel(x - 1, y) {
            seq![(x - 1, y, x, y + 1)]
        } else {
            seq![]
        };
        lemma_blocks_rects_add(bm.height as int, pw, p, a, b);
        assert(blocks_rects(bm.height as int, pw, p, b) =~= if bm.pixel(x - 1, y) {
            seq![block_rect(bm.height as int, pw, p, x - 1, y, x, y + 1)]
        } else {
            seq![]
        });
        let ab = a + b;
        assert(row_pixel_blocks(bm, y, x) == ab);
        assert forall|k: int| 0 <= k < ab.len() implies #[trigger] ab[k] == if k < a.len() { a[k] } else { b[k - a.len()] } by {}
        assert(metal_blocks(bm, ab)) by {
            assert forall|k: int, px: int, py: int| 0 <= k < ab.len() && #[trigger] in_block(ab[k], px, py) implies bm.pixel(px, py) by {
                if k < a.len() {
                    assert(in_block(a[k], px, py));
                }
            }
            assert forall|k: int| 0 <= k < ab.len() implies 0 <= (#[trigger] ab[k]).0 < ab[k].2 <= bm.width && 0
                <= ab[k].1 < ab[k].3 <= bm.height by {
                if k < a.len() {
                    let _ = a[k];
                }
            }
        }
        assert(row_sorted(ab)) by {
            assert forall|k: int| 0 <= k < ab.len() implies (#[trigger] ab[k]).3 == ab[k].1 + 1 by {
                if k < a.len() {
                    let _ = a[k];
                }
            }
            assert forall|i: int, j: int| 0 <= i < j < ab.len() implies (#[trigger] ab[i]).1 < (#[trigger] ab[j]).1 || (
                ab[i].1 == ab[j].1 && ab[i].2 <= ab[j].0) by {
                if j < a.len() {
                    let _ = a[i];
                    let _ = a[j];
                } else {
                    let _ = a[i];
                }
            }
        }
        assert forall|k: int| 0 <= k < ab.len() implies (#[trigger] ab[k]).1 == y && ab[k].2 <= x && ab[k].2 == ab[k].0 + 1 by {
            if k < a.len() {
                let _ = a[k];
            }
        }
        assert forall|px: int| px < x && #[trigger] bm.pixel(px, y) implies covered(ab, px, y) by {
            if px < x - 1 {
                let k = choose|k: int| 0 <= k < a.len() && #[trigger] in_block(a[k], px, y);
                assert(ab[k] == a[k]);
            } else {
                assert(in_block(ab[a.len() as int], px, y));
            }
        }
        bm.lemma_index(x - 1, y);
        bm.lemma_view();
        assert(0 <= y * bm.width) by (nonlinear_arith)
            requires
                y >= 0,
        ;
    }
}

/// No two blocks share a pixel.
pub open spec fn pairwise_disjoint(blocks: Seq<Block>) -> bool {
    forall|i: int, j: int|
        0 <= i < blocks.len() && 0 <= j < blocks.len() && i != j ==> !blocks_overlap(
            #[trigger] blocks[i],
            #[trigger] blocks[j],
        )
}

/// Each block is a maximal run of metal pixels within one row.
pub open spec fn maximal_runs(bm: ArtworkBitmap, blocks: Seq<Block>) -> bool {
    forall|k: int|
        0 <= k < blocks.len() ==> (#[trigger] blocks[k]).3 == blocks[k].1 + 1 && blocks[k].2
            == run_end(bm, blocks[k].1, blocks[k].0) && (blocks[k].0 == 0 || !bm.pixel(
            blocks[k].0 - 1,
            blocks[k].1,
        ))
}

pub proof fn lemma_row_run_blocks(bm: ArtworkBitmap, pw: int, p: int, y: int, x: int)
    requires
        bm.wf(),
        0 <= y < bm.height,
        0 <= x <= bm.width,
        x == 0 || !bm.pixel(x - 1, y) || !bm.pixel(x, y),
    ensures
        row_runs(bm, pw, p, y, x) == blocks_rects(bm.height as int, pw, p, row_run_blocks(bm, y, x)),
        metal_blocks(bm, row_run_blocks(bm, y, x)),
        row_sorted(row_run_blocks(bm, y, x)),
        maximal_runs(bm, row_run_blocks(bm, y, x)),
        forall|k: int|
            0 <= k < row_run_blocks(bm, y, x).len() ==> (#[trigger] row_run_blocks(bm, y, x)[k]).1 == y
                && row_run_blocks(bm, y, x)[k].0 >= x,
        forall|px: int| px >= x && #[trigger] bm.pixel(px, y) ==> covered(row_run_blocks(bm, y, x), px, y),
    decreases bm.width - x,
{
    let h = bm.height as int;
    if x < bm.width {
        if !bm.pixel(x, y) {
            lemma_row_run_blocks(bm, pw, p, y, x + 1);
        } else {
            lemma_run_end(bm, y, x);
            let e = run_end(bm, y, x);
            lemma_row_run_blocks(bm, pw, p, y, e);
            let a: Seq<Block> = seq![(x, y, e, y + 1)];
            let b = row_run_blocks(bm, y, e);
            lemma_blocks_rects_add(h, pw, p, a, b);
            assert(blocks_rects(h, pw, p, a) =~= seq![block_rect(h, pw, p, x, y, e, y + 1)]);
            let ab = a + b;
            assert(row_run_blocks(bm, y, x) == ab);
            assert forall|k: int| 0 <= k < ab.len() implies #[trigger] ab[k] == if k < 1 { a[k] } else { b[k - 1] } by {}
            assert(metal_blocks(bm, ab)) by {
                assert forall|k: int, px: int, py: int| 0 <= k < ab.len() && #[trigger] in_block(ab[k], px, py) implies bm.pixel(px, py) by {
                    if k >= 1 {
                        assert(in_block(b[k - 1], px, py));
                    }
                }
                assert forall|k: int| 0 <= k < ab.len() implies 0 <= (#[trigger] ab[k]).0 < ab[k].2 <= bm.width && 0
                    <= ab[k].1 < ab[k].3 <= bm.height by {
                    if k >= 1 {
                        let _ = b[k - 1];
                    }
                }
            }
            assert(row_sorted(ab)) by {
                assert forall|k: int| 0 <= k < ab.len() implies (#[trigger] ab[k]).3 == ab[k].1 + 1 by {
                    if k >= 1 {
                        let _ = b[k - 1];
                    }
                }
                assert forall|i: int, j: int| 0 <= i < j < ab.len() implies (#[trigger] ab[i]).1 < (#[trigger] ab[j]).1 || (
                    ab[i].1 == ab[j].1 && ab[i].2 <= ab[j].0) by {
                    let _ = b[j - 1];
                    if i >= 1 {
                        let _ = b[i - 1];
                    }
                }
            }
            assert(maximal_runs(bm, ab)) by {
                assert forall|k: int| 0 <= k < ab.len() implies (#[trigger] ab[k]).3 == ab[k].1 + 1 && ab[k].2
                    == run_end(bm, ab[k].1, ab[k].0) && (ab[k].0 == 0 || !bm.pixel(ab[k].0 - 1, ab[k].1)) by {
                    if k >= 1 {
                        let _ = b[k - 1];
                    }
                }
            }
            assert forall|k: int| 0 <= k < ab.len() implies (#[trigger] ab[k]).1 == y && ab[k].0 >= x by {
                if k >= 1 {
                    let _ = b[k - 1];
                }
            }
            assert forall|px: int| px >= x && #[trigger] bm.pixel(px, y) implies covered(ab, px, y) by {
                if px < e {
                    assert(in_block(ab[0], px, y));
                } else {
                    let k = choose|k: int| 0 <= k < b.len() && #[trigger] in_block(b[k], px, y);
                    assert(ab[k + 1] == b[k]);
                }
            }
        }
    }
}

/// The maximal runs of the rows `< y`: they are the row strategy's
/// rectangles and cover the metal pixels of those rows.
pub proof fn lemma_run_blocks(bm: ArtworkBitmap, pw: int, p: int, y: int)
    requires
        bm.wf(),
        0 <= y <= bm.height,
    ensures
        row_merged(bm, pw, p, y) == blocks_rects(bm.height as int, pw, p, run_blocks(bm, y)),
        metal_blocks(bm, run_blocks(bm, y)),
        row_sorted(run_blocks(bm, y)),
        maximal_runs(bm, run_blocks(bm, y)),
        forall|k: int| 0 <= k < run_blocks(bm, y).len() ==> (#[trigger] run_blocks(bm, y)[k]).1 < y,
        forall|px: int, py: int| py < y && #[trigger] bm.pixel(px, py) ==> covered(run_blocks(bm, y), px, py),
    decreases y,
{
    if y > 0 {
        lemma_run_blocks(bm, pw, p, y - 1);
        lemma_row_run_blocks(bm, pw, p, y - 1, 0);
        let a = run_blocks(bm, y - 1);
        let b = row_run_blocks(bm, y - 1, 0);
        lemma_blocks_rects_add(bm.height as int, pw, p, a, b);
        let ab = a + b;
        assert(run_blocks(bm, y) == ab);
        assert forall|k: int| 0 <= k < ab.len() implies #[trigger] ab[k] == if k < a.len() { a[k] } else { b[k - a.len()] } by {}
        assert(metal_blocks(bm, ab)) by {
            assert forall|k: int, px: int, py: int| 0 <= k < ab.len() && #[trigger] in_block(ab[k], px, py) implies bm.pixel(px, py) by {
                if k < a.len() {
                    assert(in_block(a[k], px, py));
                } else {
                    assert(in_block(b[k - a.len()], px, py));
                }
            }
            assert forall|k: int| 0 <= k < ab.len() implies 0 <= (#[trigger] ab[k]).0 < ab[k].2 <= bm.width && 0
                <= ab[k].1 < ab[k].3 <= bm.height by {
                if k < a.len() {
                    let _ = a[k];
                } else {
                    let _ = b[k - a.len()];
                }
            }
        }
        assert(row_sorted(ab)) by {
            assert forall|k: int| 0 <= k < ab.len() implies (#[trigger] ab[k]).3 == ab[k].1 + 1 by {
                if k < a.len() {
                    let _ = a[k];
                } else {
                    let _ = b[k - a.len()];
                }
            }
            assert forall|i: int, j: int| 0 <= i < j < ab.len() implies (#[trigger] ab[i]).1 < (#[trigger] ab[j]).1 || (
                ab[i].1 == ab[j].1 && ab[i].2 <= ab[j].0) by {
                if j < a.len() {
                    let _ = a[i];
                    let _ = a[j];
                } else if i < a.len() {
                    let _ = a[i];
                    let _ = b[j - a.len()];
                } else {
                    let _ = b[i - a.len()];
                    let _ = b[j - a.len()];
                }
            }
        }
        assert(maximal_runs(bm, ab)) by {
            assert forall|k: int| 0 <= k < ab.len() implies (#[trigger] ab[k]).3 == ab[k].1 + 1 && ab[k].2
                == run_end(bm, ab[k].1, ab[k].0) && (ab[k].0 == 0 || !bm.pixel(ab[k].0 - 1, ab[k].1)) by {
                if k < a.len() {
                    let _ = a[k];
                } else {
                    let _ = b[k - a.len()];
                }
            }
        }
        assert forall|k: int| 0 <= k < ab.len() implies (#[trigger] ab[k]).1 < y by {
            if k < a.len() {
                let _ = a[k];
            } else {
                let _ = b[k - a.len()];
            }
        }
        assert forall|px: int, py: int| py < y && #[trigger] bm.pixel(px, py) implies covered(ab, px, py) by {
            if py < y - 1 {
                let k = choose|k: int| 0 <= k < a.len() && #[trigger] in_block(a[k], px, py);
                assert(ab[k] == a[k]);
            } else {
                assert(px >= 0);
                let k = choose|k: int| 0 <= k < b.len() && #[trigger] in_block(b[k], px, py);
                assert(ab[a.len() + k] == b[k]);
            }
        }
    }
}

/// The pixel strategy gives one rectangle per metal pixel: its rectangles
/// are those of single-pixel blocks that cover the metal pixels without
/// overlap, as many as there are metal pixels.
pub proof fn law_pixel_rects(bm: ArtworkBitmap, pw: int, p: int)
    requires
        bm.wf(),
    ensures
        pixel_cells(bm, pw, p, bm.height as int) == blocks_rects(
            bm.height as int,
            pw,
            p,
            pixel_blocks(bm, bm.height as int),
        ),
        is_cover(bm, pixel_blocks(bm, bm.height as int)),
        pairwise_disjoint(pixel_blocks(bm, bm.height as int)),
        pixel_cells(bm, pw, p, bm.height as int).len() == count_on(bm@),
{
    let h = bm.height as int;
    lemma_pixel_blocks(bm, pw, p, h);
    lemma_row_sorted_disjoint(pixel_blocks(bm, h));
    bm.lemma_view();
    assert(h * bm.width == bm.width * h) by (nonlinear_arith);
    assert forall|px: int, py: int| #[trigger] bm.pixel(px, py) implies covered(pixel_blocks(bm, h), px, py) by {}
}

/// The row strategy gives one rectangle per maximal horizontal run of
/// metal: the runs cover the metal pixels without overlap.
pub proof fn law_row_merged_rects(bm: ArtworkBitmap, pw: int, p: int)
    requires
        bm.wf(),
    ensures
        row_merged(bm, pw, p, bm.height as int) == blocks_rects(
            bm.height as int,
            pw,
            p,
            run_blocks(bm, bm.height as int),
        ),
        is_cover(bm, run_blocks(bm, bm.height as int)),
        pairwise_disjoint(run_blocks(bm, bm.height as int)),
        maximal_runs(bm, run_blocks(bm, bm.height as int)),
{
    let h = bm.height as int;
    lemma_run_blocks(bm, pw, p, h);
    lemma_row_sorted_disjoint(run_blocks(bm, h));
    assert forall|px: int, py: int| #[trigger] bm.pixel(px, py) implies covered(run_blocks(bm, h), px, py) by {}
}

// ---------------------------------------------------------------------------
// The generation entry point.
/// Why rectangles could not be generated.
#[derive(Debug, Clone, Copy, PartialEq, Eq, Structural)]
pub enum GenerateError {
    /// Some pixel coordinate does not fit a 32-bit database unit value.
    CoordinateOverflow,
}

/// The area of a rectangle.
pub open spec fn rect_area(r: Rect) -> int {
    (r.x1 - r.x0) * (r.y1 - r.y0)
}

/// The rectangles kept by the minimum-area filter.
pub open spec fn area_filter(rs: Seq<Rect>, min_area: Option<i64>) -> Seq<Rect> {
    match min_area {
        Some(limit) => rs.filter(|r: Rect| rect_area(r) >= limit),
        None => rs,
    }
}

/// The grid of a `w x h` bitmap fits 32-bit coordinates, with both
/// dimensions at most `i32::MAX`.
pub open spec fn generation_fits(bm: ArtworkBitmap, pw: int, p: int) -> bool {
    grid_fits(bm, pw, p) && bm.width <= i32::MAX && bm.height <= i32::MAX
}

fn axis_fits_check(n: u32, pixel_w: i32, pitch: i32) -> (ok: bool)
    ensures
        ok == (axis_fits(n as int, pixel_w as int, pitch as int) && n <= i32::MAX),
{
    if n == 0 {
        return true;
    }
    if n > i32::MAX as u32 {
        return false;
    }
    let m = (n - 1) as i64;
    assert(-0x8000_0000 * 0x7fff_ffff <= m * pitch <= 0x7fff_ffff * 0x7fff_ffff) by (nonlinear_arith)
        requires
            0 <= m <= 0x7fff_ffff,
            -0x8000_0000 <= pitch <= 0x7fff_ffff,
    ;
    let a = m * pitch as i64;
    let b = a + pixel_w as i64;
    a >= i32::MIN as i64 && a <= i32::MAX as i64 && b >= i32::MIN as i64 && b <= i32::MAX as i64
}

/// The width and spacing properties carry over to rectangles taken from a
/// list that has them.
pub(crate) proof fn lemma_sub_drc_clean(raw: Seq<Rect>, out: Seq<Rect>, pw: int, p: int)
    requires
        forall|i: int| 0 <= i < raw.len() ==> (#[trigger] raw[i]).x1 - raw[i].x0 >= pw && raw[i].y1
            - raw[i].y0 >= pw,
        forall|i: int, j: int|
            0 <= i < raw.len() && 0 <= j < raw.len() ==> spacing(#[trigger] raw[i], #[trigger] raw[j])
                <= 0 || spacing(raw[i], raw[j]) >= p - pw,
        forall|k: int| 0 <= k < out.len() ==> raw.contains(#[trigger] out[k]),
    ensures
        forall|i: int| 0 <= i < out.len() ==> (#[trigger] out[i]).x1 - out[i].x0 >= pw && out[i].y1
            - out[i].y0 >= pw,
        forall|i: int, j: int|
            0 <= i < out.len() && 0 <= j < out.len() ==> spacing(#[trigger] out[i], #[trigger] out[j])
                <= 0 || spacing(out[i], out[j]) >= p - pw,
{
    assert forall|i: int| 0 <= i < out.len() implies (#[trigger] out[i]).x1 - out[i].x0 >= pw
        && out[i].y1 - out[i].y0 >= pw by {
        let j = choose|j: int| 0 <= j < raw.len() && #[trigger] raw[j] == out[i];
    }
    assert forall|i: int, j: int| 0 <= i < out.len() && 0 <= j < out.len() implies spacing(
        #[trigger] out[i],
        #[trigger] out[j],
    ) <= 0 || spacing(out[i], out[j]) >= p - pw by {
        let a = choose|a: int| 0 <= a < raw.len() && #[trigger] raw[a] == out[i];
        let b = choose|b: int| 0 <= b < raw.len() && #[trigger] raw[b] == out[j];
    }
}

/// Generate the rectangles of the metal pixels of `bitmap` with the given
/// strategy, pixel side `pixel_w` and pixel pitch `pitch` (both in database
/// units), dropping those smaller than `min_area` when it is given.
///
/// With `pitch = pixel_w` neighbouring pixels touch; with `pitch = pixel_w +
/// spacing` every gap between rectangles is at least `spacing`, so the output
/// is clean for the width and spacing rules by construction.
#[verifier::spinoff_prover]
#[verifier::rlimit(40)]
pub fn generate_polygons_dbu(
    bitmap: &ArtworkBitmap,
    pixel_w: i32,
    pitch: i32,
    strategy: PolygonStrategy,
    min_area: Option<i64>,
) -> (r: Result<Vec<Rect>, GenerateError>)
    requires
        bitmap.wf(),
    ensures
        r is Err <==> !generation_fits(*bitmap, pixel_w as int, pitch as int),
        r matches Ok(rects) ==> match strategy {
            PolygonStrategy::PixelRects => rects@ == area_filter(
                pixel_cells(*bitmap, pixel_w as int, pitch as int, bitmap.height as int),
                min_area,
            ),
            PolygonStrategy::RowMerge => rects@ == area_filter(
                row_merged(*bitmap, pixel_w as int, pitch as int, bitmap.height as int),
                min_area,
            ),
            PolygonStrategy::GreedyMerge => is_cover(*bitmap, greedy_cover(*bitmap)) && scan_ordered(
                greedy_cover(*bitmap),
            ) && rects@ == area_filter(
                blocks_rects(bitmap.height as int, pixel_w as int, pitch as int, greedy_cover(*bitmap)),
                min_area,
            ),
        },
        r matches Ok(rects) ==> (0 <= pixel_w <= pitch ==> (forall|i: int|
            0 <= i < rects@.len() ==> (#[trigger] rects@[i]).x1 - rects@[i].x0 >= pixel_w
                && rects@[i].y1 - rects@[i].y0 >= pixel_w) && (forall|i: int, j: int|
            0 <= i < rects@.len() && 0 <= j < rects@.len() ==> spacing(
                #[trigger] rects@[i],
                #[trigger] rects@[j],
            ) <= 0 || spacing(rects@[i], rects@[j]) >= pitch - pixel_w)),
{
    if !(axis_fits_check(bitmap.width, pixel_w, pitch) && axis_fits_check(bitmap.height, pixel_w, pitch)) {
        return Err(GenerateError::CoordinateOverflow);
    }
    let ghost bm = *bitmap;
    let ghost pw = pixel_w as int;
    let ghost p = pitch as int;
    let ghost h = bitmap.height as int;
    let raw = match strategy {
        PolygonStrategy::PixelRects => pixel_rects(bitmap, pixel_w, pitch),
        PolygonStrategy::RowMerge => row_merged_rects(bitmap, pixel_w, pitch),
        PolygonStrategy::GreedyMerge => greedy_merged_rects(bitmap, pixel_w, pitch),
    };
    // The rectangles before filtering come from metal blocks.
    let ghost blocks: Seq<Block> = match strategy {
        PolygonStrategy::PixelRects => pixel_blocks(bm, h),
        PolygonStrategy::RowMerge => run_blocks(bm, h),
        PolygonStrategy::GreedyMerge => greedy_cover(bm),
    };
    proof {
        match strategy {
            PolygonStrategy::PixelRects => {
                law_pixel_rects(bm, pw, p);
            },
            PolygonStrategy::RowMerge => {
                law_row_merged_rects(bm, pw, p);
            },
            PolygonStrategy::GreedyMerge => {},
        }
        assert(metal_blocks(bm, blocks));
        assert(raw@ == blocks_rects(h, pw, p, blocks));
        if 0 <= pw <= p {
            lemma_cover_drc_clean(bm, blocks, pw, p, p - pw);
        }
    }
    let mut out: Vec<Rect> = Vec::new();
    let mut i: usize = 0;
    while i < raw.len()
        invariant
            i <= raw@.len(),
            out@ == area_filter(raw@.subrange(0, i as int), min_area),
            forall|k: int| #![trigger out@[k]] 0 <= k < out@.len() ==> exists|j: int| 0 <= j < i && #[trigger] raw@[j] == out@[k],
        decreases raw@.len() - i,
    {
        let r = raw[i];
        let keep = match min_area {
            Some(limit) => {
                let dx = r.x1 as i128 - r.x0 as i128;
                let dy = r.y1 as i128 - r.y0 as i128;
                assert(-0x1_0000_0000 * 0x1_0000_0000 <= dx * dy <= 0x1_0000_0000 * 0x1_0000_0000)
                    by (nonlinear_arith)
                    requires
                        -0x1_0000_0000 <= dx <= 0x1_0000_0000,
                        -0x1_0000_0000 <= dy <= 0x1_0000_0000,
                ;
                let area = dx * dy;
                area >= limit as i128
            },
            None => true,
        };
        let ghost before = out@;
        if keep {
            out.push(r);
        }
        proof {
            let s0 = raw@.subrange(0, i as int);
            let s1 = raw@.subrange(0, i + 1);
            assert(s1.drop_last() =~= s0);
            assert(s1.last() == r);
            reveal(Seq::filter);
            assert forall|k: int| #![trigger out@[k]] 0 <= k < out@.len() implies exists|j: int| 0 <= j < i + 1 && #[trigger] raw@[j] == out@[k] by {
                if k < before.len() {
                    let j = choose|j: int| 0 <= j < i && #[trigger] raw@[j] == before[k];
                    assert(raw@[j] == out@[k]);
                } else {
                    assert(raw@[i as int] == out@[k]);
                }
            }
        }
        i = i + 1;
    }
    proof {
        assert(raw@.subrange(0, raw@.len() as int) =~= raw@);
        assert(i == raw@.len());
        let rs = raw@;
        let os = out@;
        assert forall|k: int| 0 <= k < os.len() implies rs.contains(#[trigger] os[k]) by {
            let j = choose|j: int| 0 <= j < i && #[trigger] raw@[j] == out@[k];
            assert(rs[j] == os[k]);
        }
        if 0 <= pw <= p {
            lemma_cover_drc_clean(bm, blocks, pw, p, p - pw);
            assert(rs == blocks_rects(h, pw, p, blocks));
            assert(forall|i: int| 0 <= i < rs.len() ==> (#[trigger] rs[i]).x1 - rs[i].x0 >= pw && rs[i].y1
                - rs[i].y0 >= pw);
            assert(forall|i: int, j: int|
                0 <= i < rs.len() && 0 <= j < rs.len() ==> spacing(#[trigger] rs[i], #[trigger] rs[j])
                    <= 0 || spacing(rs[i], rs[j]) >= p - pw);
            lemma_sub_drc_clean(rs, os, pw, p);
        }
    }
    Ok(out)
}

} // verus!
