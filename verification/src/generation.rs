//! Layer generation with density feedback: rectangles are generated from the
//! bitmap, checked against the density rules, and the bitmap is thinned under
//! every over-dense window before the rectangles are generated again.
use vstd::prelude::*;

use crate::artwork::ArtworkBitmap;
use crate::bits::{count_on, count_range};
use crate::artwork::window_count;
use crate::density::{
    enforce_density_count, enforce_density_region_count, lemma_stuck_mono, lemma_thin_mono,
    density_visits, lemma_thin_same, lemma_thinning_compose, lemma_window_mono, only_cleared,
    region_thinned, thin_kept, thin_rect, windows_stuck,
};
use crate::drc::{
    capped_run, check_density_only, density_chunks, drc_input_fits, drc_input_ok, drc_result,
    law_generated_rects_clean, no_width_or_spacing, valid_hits, DrcLimits, DrcRule, DrcViolation,
};
use crate::polygon::{
    area_filter, blocks_rects, covered, generate_polygons_dbu, generation_fits, grid_fits, in_block,
    is_cover, law_pixel_rects, law_row_merged_rects, lemma_cover_drc_clean, lemma_run_end,
    lemma_sub_drc_clean, metal_blocks, pixel_blocks, pixel_cells, row_cells, row_merged, row_runs,
    run_blocks, run_end, scan_ordered, spacing, Block, GenerateError, PolygonStrategy, Rect,
    best_block, free_depth, free_metal, greedy_blocks, greedy_cover, shortest_run,
};

verus! {

/// `rects` is what `generate_polygons_dbu` gives for `bm` with these
/// parameters.
pub open spec fn generated(
    bm: ArtworkBitmap,
    pw: int,
    p: int,
    strategy: PolygonStrategy,
    min_area: Option<i64>,
    rects: Seq<Rect>,
) -> bool {
    match strategy {
        PolygonStrategy::PixelRects => rects == area_filter(
            pixel_cells(bm, pw, p, bm.height as int),
            min_area,
        ),
        PolygonStrategy::RowMerge => rects == area_filter(
            row_merged(bm, pw, p, bm.height as int),
            min_area,
        ),
        PolygonStrategy::GreedyMerge => is_cover(bm, greedy_cover(bm)) && scan_ordered(greedy_cover(bm))
            && rects == area_filter(blocks_rects(bm.height as int, pw, p, greedy_cover(bm)), min_area),
    }
}

/// Integer division rounding toward zero, for `b > 0`.
pub open spec fn trunc_div(a: int, b: int) -> int {
    if a >= 0 {
        a / b
    } else {
        -((-a) / b)
    }
}

pub open spec fn max0(a: int) -> int {
    if a > 0 {
        a
    } else {
        0
    }
}

pub open spec fn min_of(a: int, b: int) -> int {
    if a <= b {
        a
    } else {
        b
    }
}

/// The bitmap region `(x, y, w, h)`, in pixels with row 0 at the top, under
/// the density window of side `window` whose lower-left corner is `(wx, wy)`
/// in database units, for pixels laid out `pitch` apart on a bitmap of
/// `width x height` pixels.
pub open spec fn window_region_of(
    wx: int,
    wy: int,
    window: int,
    pitch: int,
    width: int,
    height: int,
) -> (int, int, int, int) {
    let px_start = max0(trunc_div(wx, pitch));
    let px_end = max0(trunc_div(wx + window + pitch - 1, pitch));
    let py_start = max0(height - 1 - trunc_div(wy + window, pitch));
    let py_end = max0(height - trunc_div(wy, pitch));
    (
        px_start,
        py_start,
        min_of(max0(px_end - px_start), width - px_start),
        min_of(max0(py_end - py_start), height - py_start),
    )
}

fn trunc_div_exec(a: i64, b: i64) -> (r: i64)
    requires
        b > 0,
        -0x1_0000_0000_0000 <= a <= 0x1_0000_0000_0000,
    ensures
        r == trunc_div(a as int, b as int),
{
    if a >= 0 {
        a / b
    } else {
        -((-a) / b)
    }
}

/// The bitmap region under a density window (`window_region_of`), or `None`
/// when the region starts beyond the bitmap.
pub fn window_region(wx: i32, wy: i32, window: i32, pitch: i32, width: u32, height: u32) -> (r: Option<
    (u32, u32, u32, u32),
>)
    requires
        pitch > 0,
    ensures
        ({
            let (x, y, w, h) = window_region_of(
                wx as int,
                wy as int,
                window as int,
                pitch as int,
                width as int,
                height as int,
            );
            match r {
                Some(t) => x <= width && y <= height && t == (x as u32, y as u32, w as u32, h as u32),
                None => !(x <= width && y <= height),
            }
        }),
{
    let p = pitch as i64;
    let px_start_t = trunc_div_exec(wx as i64, p);
    let px_end_t = trunc_div_exec(wx as i64 + window as i64 + p - 1, p);
    let py_start_t = height as i64 - 1 - trunc_div_exec(wy as i64 + window as i64, p);
    let py_end_t = height as i64 - trunc_div_exec(wy as i64, p);
    let px_start: i64 = if px_start_t > 0 { px_start_t } else { 0 };
    let px_end: i64 = if px_end_t > 0 { px_end_t } else { 0 };
    let py_start: i64 = if py_start_t > 0 { py_start_t } else { 0 };
    let py_end: i64 = if py_end_t > 0 { py_end_t } else { 0 };
    if px_start > width as i64 || py_start > height as i64 {
        return None;
    }
    let dx: i64 = if px_end - px_start > 0 { px_end - px_start } else { 0 };
    let dy: i64 = if py_end - py_start > 0 { py_end - py_start } else { 0 };
    let rw: i64 = if dx <= width as i64 - px_start { dx } else { width as i64 - px_start };
    let rh: i64 = if dy <= height as i64 - py_start { dy } else { height as i64 - py_start };
    Some((px_start as u32, py_start as u32, rw as u32, rh as u32))
}

/// The most metal pixels a `w x h` region may keep at `ppm` parts per
/// million, rounded down and capped at `u32::MAX`.
pub open spec fn region_limit(w: int, h: int, ppm: int) -> int {
    min_of(w * h * ppm / 1_000_000, u32::MAX as int)
}

fn region_limit_exec(w: u32, h: u32, ppm: u32) -> (r: u32)
    ensures
        r == region_limit(w as int, h as int, ppm as int),
{
    assert((w as int) * (h as int) <= 0xffff_ffff * 0xffff_ffff) by (nonlinear_arith)
        requires
            w <= 0xffff_ffff,
            h <= 0xffff_ffff,
    ;
    assert((w as int) * (h as int) * (ppm as int) <= 0xffff_ffff * 0xffff_ffff * 0xffff_ffff)
        by (nonlinear_arith)
        requires
            w <= 0xffff_ffff,
            h <= 0xffff_ffff,
            ppm <= 0xffff_ffff,
    ;
    let v: u128 = (w as u128) * (h as u128) * (ppm as u128) / 1_000_000;
    if v <= u32::MAX as u128 {
        v as u32
    } else {
        u32::MAX
    }
}

/// `a` and `b` have the same size and the same pixels.
pub open spec fn same_pixels(a: ArtworkBitmap, b: ArtworkBitmap) -> bool {
    &&& a.width == b.width
    &&& a.height == b.height
    &&& forall|x: int, y: int| #[trigger] a.pixel(x, y) == b.pixel(x, y)
}

proof fn lemma_row_cells_same(a: ArtworkBitmap, b: ArtworkBitmap, pw: int, p: int, y: int, x: int)
    requires
        same_pixels(a, b),
    ensures
        row_cells(a, pw, p, y, x) == row_cells(b, pw, p, y, x),
    decreases x,
{
    if x > 0 {
        lemma_row_cells_same(a, b, pw, p, y, x - 1);
        assert(a.pixel(x - 1, y) == b.pixel(x - 1, y));
    }
}

proof fn lemma_pixel_cells_same(a: ArtworkBitmap, b: ArtworkBitmap, pw: int, p: int, y: int)
    requires
        same_pixels(a, b),
    ensures
        pixel_cells(a, pw, p, y) == pixel_cells(b, pw, p, y),
    decreases y,
{
    if y > 0 {
        lemma_pixel_cells_same(a, b, pw, p, y - 1);
        lemma_row_cells_same(a, b, pw, p, y - 1, a.width as int);
    }
}

proof fn lemma_run_end_same(a: ArtworkBitmap, b: ArtworkBitmap, y: int, x: int)
    requires
        same_pixels(a, b),
    ensures
        run_end(a, y, x) == run_end(b, y, x),
    decreases a.width - x,
{
    assert(a.pixel(x, y) == b.pixel(x, y));
    if x < a.width && a.pixel(x, y) {
        lemma_run_end_same(a, b, y, x + 1);
    }
}

proof fn lemma_row_runs_same(a: ArtworkBitmap, b: ArtworkBitmap, pw: int, p: int, y: int, x: int)
    requires
        same_pixels(a, b),
    ensures
        row_runs(a, pw, p, y, x) == row_runs(b, pw, p, y, x),
    decreases a.width - x,
{
    assert(a.pixel(x, y) == b.pixel(x, y));
    if x < a.width && x >= 0 {
        if !a.pixel(x, y) {
            lemma_row_runs_same(a, b, pw, p, y, x + 1);
        } else {
            lemma_run_end(a, y, x);
            lemma_run_end_same(a, b, y, x);
            lemma_row_runs_same(a, b, pw, p, y, run_end(a, y, x));
        }
    }
}

proof fn lemma_row_merged_same(a: ArtworkBitmap, b: ArtworkBitmap, pw: int, p: int, y: int)
    requires
        same_pixels(a, b),
    ensures
        row_merged(a, pw, p, y) == row_merged(b, pw, p, y),
    decreases y,
{
    if y > 0 {
        lemma_row_merged_same(a, b, pw, p, y - 1);
        lemma_row_runs_same(a, b, pw, p, y - 1, 0);
    }
}

proof fn lemma_free_depth_same(a: ArtworkBitmap, b: ArtworkBitmap, blocks: Seq<Block>, x: int, py: int)
    requires
        same_pixels(a, b),
    ensures
        free_depth(a, blocks, x, py) == free_depth(b, blocks, x, py),
    decreases a.height - py,
{
    assert(a.pixel(x, py) == b.pixel(x, py));
    if 0 <= py < a.height && free_metal(a, blocks, x, py) {
        lemma_free_depth_same(a, b, blocks, x, py + 1);
    }
}

proof fn lemma_best_block_same(a: ArtworkBitmap, b: ArtworkBitmap, x: int, y: int, k: int)
    requires
        same_pixels(a, b),
    ensures
        shortest_run(a, x, y, k) == shortest_run(b, x, y, k),
        best_block(a, x, y, k) == best_block(b, x, y, k),
    decreases k,
{
    lemma_run_end_same(a, b, y, x);
    lemma_run_end_same(a, b, y + k - 1, x);
    if k > 0 {
        lemma_best_block_same(a, b, x, y, k - 1);
    }
}

proof fn lemma_greedy_blocks_same(a: ArtworkBitmap, b: ArtworkBitmap, i: nat)
    requires
        same_pixels(a, b),
    ensures
        greedy_blocks(a, i) == greedy_blocks(b, i),
    decreases i,
{
    if i > 0 {
        lemma_greedy_blocks_same(a, b, (i - 1) as nat);
        let prev = greedy_blocks(a, (i - 1) as nat);
        let x = (i - 1) % (a.width as int);
        let y = (i - 1) / (a.width as int);
        assert(a.pixel(x, y) == b.pixel(x, y));
        lemma_free_depth_same(a, b, prev, x, y);
        lemma_best_block_same(a, b, x, y, free_depth(a, prev, x, y));
    }
}

/// What the strategies generate depends on the pixels alone.
pub proof fn lemma_generated_same(
    a: ArtworkBitmap,
    b: ArtworkBitmap,
    pw: int,
    p: int,
    strategy: PolygonStrategy,
    min_area: Option<i64>,
    rects: Seq<Rect>,
)
    requires
        same_pixels(a, b),
        generated(a, pw, p, strategy, min_area, rects),
    ensures
        generated(b, pw, p, strategy, min_area, rects),
{
    match strategy {
        PolygonStrategy::PixelRects => {
            lemma_pixel_cells_same(a, b, pw, p, a.height as int);
        },
        PolygonStrategy::RowMerge => {
            lemma_row_merged_same(a, b, pw, p, a.height as int);
        },
        PolygonStrategy::GreedyMerge => {
            lemma_greedy_blocks_same(a, b, (a.width * a.height) as nat);
            let blocks = greedy_cover(a);
            assert forall|k: int, x: int, y: int|
                0 <= k < blocks.len() && #[trigger] in_block(blocks[k], x, y) implies b.pixel(x, y) by {
                assert(a.pixel(x, y) == b.pixel(x, y));
            }
            assert forall|x: int, y: int| #[trigger] b.pixel(x, y) implies covered(blocks, x, y) by {
                assert(a.pixel(x, y) == b.pixel(x, y));
            }
            assert(is_cover(b, blocks));
        },
    }
}

/// Equal views of equally sized bitmaps have the same pixels.
proof fn lemma_same_view(a: ArtworkBitmap, b: ArtworkBitmap)
    requires
        a.width == b.width,
        a.height == b.height,
        a@ == b@,
    ensures
        same_pixels(a, b),
{
}

/// DRC-clean by construction: whatever a strategy generates from a bitmap
/// whose pixel grid fits 32-bit coordinates, with pixels of side `pw` laid
/// `p` apart (`0 <= pw <= p`), the minimum width and minimum spacing checks
/// report nothing for rules with `min_width <= pw` and
/// `min_spacing <= p - pw`, with or without a violation cap.
pub proof fn law_generation_drc_clean(
    bm: ArtworkBitmap,
    pw: int,
    p: int,
    strategy: PolygonStrategy,
    min_area: Option<i64>,
    rects: Seq<Rect>,
    lim: DrcLimits,
    cap: Option<usize>,
    hits: Seq<Seq<u32>>,
)
    requires
        bm.wf(),
        grid_fits(bm, pw, p),
        0 <= pw <= p,
        generated(bm, pw, p, strategy, min_area, rects),
        valid_hits(rects, lim, hits),
        lim.min_width <= pw,
        lim.min_spacing <= p - pw,
    ensures
        no_width_or_spacing(drc_result(rects, lim, cap, hits)),
{
    let h = bm.height as int;
    let blocks: Seq<Block> = match strategy {
        PolygonStrategy::PixelRects => pixel_blocks(bm, h),
        PolygonStrategy::RowMerge => run_blocks(bm, h),
        PolygonStrategy::GreedyMerge => greedy_cover(bm),
    };
    match strategy {
        PolygonStrategy::PixelRects => {
            law_pixel_rects(bm, pw, p);
        },
        PolygonStrategy::RowMerge => {
            law_row_merged_rects(bm, pw, p);
        },
        PolygonStrategy::GreedyMerge => {},
    }
    let raw = blocks_rects(h, pw, p, blocks);
    assert(metal_blocks(bm, blocks));
    assert(rects == area_filter(raw, min_area));
    lemma_cover_drc_clean(bm, blocks, pw, p, p - pw);
    assert forall|k: int| 0 <= k < rects.len() implies raw.contains(#[trigger] rects[k]) by {
        match min_area {
            Some(limit) => {
                let pred = |r: Rect| crate::polygon::rect_area(r) >= limit;
                assert(rects == raw.filter(pred));
                assert(rects.contains(rects[k]));
                raw.lemma_filter_contains_rev(pred, rects[k]);
            },
            None => {
                assert(raw[k] == rects[k]);
            },
        }
    }
    assert(forall|i: int| 0 <= i < raw.len() ==> (#[trigger] raw[i]).x1 - raw[i].x0 >= pw && raw[i].y1
        - raw[i].y0 >= pw);
    assert(forall|i: int, j: int|
        0 <= i < raw.len() && 0 <= j < raw.len() ==> spacing(#[trigger] raw[i], #[trigger] raw[j]) <= 0
            || spacing(raw[i], raw[j]) >= p - pw);
    lemma_sub_drc_clean(raw, rects, pw, p);
    law_generated_rects_clean(rects, lim, cap, hits, pw, p - pw);
}

proof fn lemma_count_sub(s: Seq<bool>, t: Seq<bool>, a: int, b: int)
    requires
        forall|j: int| a <= j < b && #[trigger] t[j] ==> s[j],
    ensures
        count_range(t, a, b) <= count_range(s, a, b),
        count_range(t, a, b) == count_range(s, a, b) ==> forall|j: int| a <= j < b ==> #[trigger] s[j] == t[j],
    decreases b - a,
{
    if b > a {
        lemma_count_sub(s, t, a, b - 1);
    }
}

/// A bitmap that only lost pixels but kept its count of metal pixels is
/// unchanged.
proof fn lemma_no_loss(a: ArtworkBitmap, b: ArtworkBitmap)
    requires
        a.wf(),
        b.wf(),
        only_cleared(a, b),
        count_on(a@) == count_on(b@),
    ensures
        b@ == a@,
{
    a.lemma_view();
    b.lemma_view();
    let w = a.width as int;
    let n = a@.len() as int;
    assert forall|j: int| 0 <= j < n && #[trigger] b@[j] implies a@[j] by {
        let x = j % w;
        let y = j / w;
        assert(w > 0 && 0 <= x < w && 0 <= y < a.height && y * w + x == j) by (nonlinear_arith)
            requires
                0 <= j < n,
                n == w * a.height,
                x == j % w,
                y == j / w,
        ;
        assert(b.pixel(x, y));
    }
    lemma_count_sub(a@, b@, 0, n);
    assert(b@ =~= a@);
}

/// The density violations that a check of `rects` reports.
pub open spec fn density_report(rects: Seq<Rect>, lim: DrcLimits) -> Seq<DrcViolation> {
    capped_run(Seq::empty(), density_chunks(rects, lim), None)
}

/// Thinning the bitmap region under the density window at `loc` can do
/// nothing more: the region starts beyond the bitmap or is empty, holds no
/// more metal than `region_limit` allows, or is thin.
pub open spec fn region_settled(bm: ArtworkBitmap, loc: (i32, i32), window: int, pitch: int, ppm: int) -> bool {
    let (x, y, w, h) = window_region_of(loc.0 as int, loc.1 as int, window, pitch, bm.width as int, bm.height as int);
    ||| !(x <= bm.width && y <= bm.height)
    ||| w <= 0 || h <= 0
    ||| window_count(bm@, bm.width as int, x, y, x + w, y + h) <= region_limit(w, h, ppm)
    ||| thin_rect(bm, x, y, x + w, y + h)
}

/// Every maximum-density violation that a check of `rects` reports lies
/// over a settled region of `bm`.
pub open spec fn density_settled(bm: ArtworkBitmap, rects: Seq<Rect>, lim: DrcLimits, pitch: int, ppm: int) -> bool {
    pitch > 0 ==> forall|k: int|
        0 <= k < density_report(rects, lim).len() && (#[trigger] density_report(rects, lim)[k]).rule
            == DrcRule::DensityMax ==> region_settled(
            bm,
            density_report(rects, lim)[k].location,
            lim.density->0.window as int,
            pitch,
            ppm,
        )
}

/// A settled region stays settled when pixels are only cleared.
pub proof fn lemma_settled_mono(a: ArtworkBitmap, b: ArtworkBitmap, loc: (i32, i32), window: int, pitch: int, ppm: int)
    requires
        only_cleared(a, b),
        region_settled(a, loc, window, pitch, ppm),
    ensures
        region_settled(b, loc, window, pitch, ppm),
{
    let (x, y, w, h) = window_region_of(loc.0 as int, loc.1 as int, window, pitch, a.width as int, a.height as int);
    if x <= a.width && y <= a.height && w > 0 && h > 0 {
        if window_count(a@, a.width as int, x, y, x + w, y + h) <= region_limit(w, h, ppm) {
            lemma_window_mono(a, b, x, y, x + w, y + h);
        } else {
            lemma_thin_mono(a, b, x, y, x + w, y + h);
        }
    }
}

/// `b` is `a` with the bitmap region under one maximum-density violation
/// that a check of `rects` reports thinned towards that region's limit.
pub open spec fn report_visit(
    a: ArtworkBitmap,
    b: ArtworkBitmap,
    rects: Seq<Rect>,
    lim: DrcLimits,
    p: int,
    ppm: int,
) -> bool {
    exists|k: int|
        #![trigger density_report(rects, lim)[k]]
        0 <= k < density_report(rects, lim).len() && density_report(rects, lim)[k].rule == DrcRule::DensityMax && {
            let loc = density_report(rects, lim)[k].location;
            let (x, y, w, h) = window_region_of(
                loc.0 as int,
                loc.1 as int,
                lim.density->0.window as int,
                p,
                a.width as int,
                a.height as int,
            );
            &&& x <= a.width && y <= a.height && w > 0 && h > 0
            &&& region_thinned(a, b, x, y, x + w, y + h, region_limit(w, h, ppm))
        }
}

/// `v` is a run of region visits for the violations that a check of
/// `rects` reports, each state taken to the next by one.
pub open spec fn report_visits(v: Seq<ArtworkBitmap>, rects: Seq<Rect>, lim: DrcLimits, p: int, ppm: int) -> bool {
    &&& v.len() >= 1
    &&& forall|i: int| 0 <= i < v.len() - 1 ==> #[trigger] report_visit(v[i], v[i + 1], rects, lim, p, ppm)
}

/// One round of the density feedback loop takes `a` to `b`: the rectangles
/// generated from `a` can be checked and fail the density check, and
/// thinning, a run of visits of the regions under the maximum-density
/// violations they report, clears at least one pixel and leaves every such
/// violation over a settled region of `b`.
pub open spec fn density_round(
    a: ArtworkBitmap,
    b: ArtworkBitmap,
    pw: int,
    p: int,
    strategy: PolygonStrategy,
    min_area: Option<i64>,
    lim: DrcLimits,
    ppm: int,
) -> bool {
    &&& only_cleared(a, b)
    &&& thin_kept(a, b)
    &&& count_on(b@) < count_on(a@)
    &&& exists|rects: Seq<Rect>|
        #[trigger] generated(a, pw, p, strategy, min_area, rects) && drc_input_ok(rects, lim) && !density_clean(
            rects,
            lim,
        ) && density_settled(b, rects, lim, p, ppm) && exists|v: Seq<ArtworkBitmap>|
            #[trigger] report_visits(v, rects, lim, p, ppm) && v[0] == a && v.last() == b
}

/// `s` is a run of rounds of the density feedback loop, each state taken
/// to the next by one round.
pub open spec fn density_rounds(
    s: Seq<ArtworkBitmap>,
    pw: int,
    p: int,
    strategy: PolygonStrategy,
    min_area: Option<i64>,
    lim: DrcLimits,
    ppm: int,
) -> bool {
    &&& s.len() >= 1
    &&& forall|i: int| 0 <= i < s.len() - 1 ==> #[trigger] density_round(s[i], s[i + 1], pw, p, strategy, min_area, lim, ppm)
}

/// Generate the rectangles of `bitmap` and, while the density rules report
/// over-dense windows, thin the bitmap region under each of them to
/// `region_ppm` parts per million of metal and generate again, at most
/// `max_retries` times.
///
/// The loop stops early once the rectangles pass the density check, once a
/// round clears nothing, or once the check cannot run on the rectangles
/// (`drc_input_ok` fails). Each round that clears pixels is a
/// `density_round`: every region under a reported window ends within its
/// limit or thin. The result is always the rectangles of the bitmap as
/// finally thinned, reached from the input by at most `max_retries` such
/// rounds; fewer only when one of the early stops holds.
pub fn generate_with_density_loop(
    bitmap: &mut ArtworkBitmap,
    pixel_w: i32,
    pitch: i32,
    strategy: PolygonStrategy,
    min_area: Option<i64>,
    lim: &DrcLimits,
    region_ppm: u32,
    max_retries: u32,
) -> (r: Result<Vec<Rect>, GenerateError>)
    requires
        old(bitmap).wf(),
    ensures
        final(bitmap).wf(),
        only_cleared(*old(bitmap), *final(bitmap)),
        thin_kept(*old(bitmap), *final(bitmap)),
        r is Err <==> !generation_fits(*old(bitmap), pixel_w as int, pitch as int),
        (r is Err || lim.density is None || max_retries == 0) ==> final(bitmap)@ == old(bitmap)@,
        r matches Ok(rects) ==> generated(
            *final(bitmap),
            pixel_w as int,
            pitch as int,
            strategy,
            min_area,
            rects@,
        ),
        r matches Ok(rects) ==> exists|s: Seq<ArtworkBitmap>|
            #[trigger] density_rounds(s, pixel_w as int, pitch as int, strategy, min_area, *lim, region_ppm as int)
                && same_pixels(s[0], *old(bitmap)) && same_pixels(s.last(), *final(bitmap)) && s.len()
                <= max_retries + 1 && (
            lim.density is None || density_clean(rects@, *lim) || !drc_input_ok(rects@, *lim) || s.len()
                == max_retries + 1 || density_settled(*final(bitmap), rects@, *lim, pitch as int, region_ppm as int)),
{
    let ghost orig = *bitmap;
    let mut best = match generate_polygons_dbu(bitmap, pixel_w, pitch, strategy, min_area) {
        Ok(v) => v,
        Err(e) => {
            return Err(e);
        },
    };
    let ghost mut states: Seq<ArtworkBitmap> = seq![orig];
    proof {
        assert(density_rounds(states, pixel_w as int, pitch as int, strategy, min_area, *lim, region_ppm as int));
    }
    let d = match lim.density {
        Some(d) => d,
        None => {
            return Ok(best);
        },
    };
    let mut attempt: u32 = 0;
    while attempt < max_retries
        invariant
            orig == *old(bitmap),
            orig.wf(),
            bitmap.wf(),
            only_cleared(orig, *bitmap),
            thin_kept(orig, *bitmap),
            generation_fits(orig, pixel_w as int, pitch as int),
            generated(*bitmap, pixel_w as int, pitch as int, strategy, min_area, best@),
            attempt <= max_retries,
            attempt == 0 ==> bitmap@ == orig@,
            lim.density == Some(d),
            count_on(orig@) - count_on(bitmap@) >= attempt,
            density_rounds(states, pixel_w as int, pitch as int, strategy, min_area, *lim, region_ppm as int),
            states.len() == attempt + 1,
            states[0] == orig,
            states.last() == *bitmap,
        decreases max_retries - attempt,
    {
        if !drc_input_fits(best.as_slice(), lim) {
            return Ok(best);
        }
        let first = check_density_only(best.as_slice(), lim, Some(1));
        if first.len() == 0 {
            return Ok(best);
        }
        let all = check_density_only(best.as_slice(), lim, None);
        let ghost start = *bitmap;
        let ghost mut rv: Seq<ArtworkBitmap> = seq![start];
        proof {
            assert(report_visits(rv, best@, *lim, pitch as int, region_ppm as int));
        }
        let mut cleared_any = false;
        let mut k: usize = 0;
        while k < all.len()
            invariant
                orig.wf(),
                start.wf(),
                bitmap.wf(),
                only_cleared(orig, start),
                thin_kept(orig, start),
                only_cleared(start, *bitmap),
                thin_kept(start, *bitmap),
                !cleared_any ==> bitmap@ == start@,
                k <= all.len(),
                start.width == bitmap.width,
                start.height == bitmap.height,
                lim.density == Some(d),
                all@ == density_report(best@, *lim),
                count_on(bitmap@) <= count_on(start@),
                cleared_any ==> count_on(bitmap@) < count_on(start@),
                !cleared_any ==> forall|kk: int|
                    0 <= kk < k && (#[trigger] all@[kk]).rule == DrcRule::DensityMax && pitch > 0
                        ==> region_settled(start, all@[kk].location, d.window as int, pitch as int, region_ppm as int),
                forall|kk: int|
                    0 <= kk < k && (#[trigger] all@[kk]).rule == DrcRule::DensityMax && pitch > 0
                        ==> region_settled(*bitmap, all@[kk].location, d.window as int, pitch as int, region_ppm as int),
                report_visits(rv, best@, *lim, pitch as int, region_ppm as int),
                rv[0] == start,
                rv.last() == *bitmap,
            decreases all.len() - k,
        {
            let v: DrcViolation = all[k];
            if v.rule == DrcRule::DensityMax && pitch > 0 {
                match window_region(v.location.0, v.location.1, d.window, pitch, bitmap.width, bitmap.height) {
                    Some((x, y, w, h)) => {
                        if w > 0 && h > 0 {
                            let limit = region_limit_exec(w, h, region_ppm);
                            let ghost before = *bitmap;
                            let c = enforce_density_region_count(bitmap, limit, x, y, w, h);
                            proof {
                                assert(density_report(best@, *lim)[k as int] == v);
                                assert(report_visit(before, *bitmap, best@, *lim, pitch as int, region_ppm as int));
                                let next = rv.push(*bitmap);
                                assert forall|i: int| 0 <= i < next.len() - 1 implies #[trigger] report_visit(
                                    next[i],
                                    next[i + 1],
                                    best@,
                                    *lim,
                                    pitch as int,
                                    region_ppm as int,
                                ) by {
                                    if i < next.len() - 2 {
                                        assert(next[i] == rv[i] && next[i + 1] == rv[i + 1]);
                                        assert(report_visit(rv[i], rv[i + 1], best@, *lim, pitch as int, region_ppm as int));
                                    }
                                }
                                rv = next;
                            }
                            proof {
                                lemma_thinning_compose(start, before, *bitmap);
                                assert forall|kk: int|
                                    0 <= kk < k + 1 && (#[trigger] all@[kk]).rule == DrcRule::DensityMax && pitch > 0
                                        implies region_settled(*bitmap, all@[kk].location, d.window as int, pitch as int, region_ppm as int) by {
                                    if kk < k {
                                        lemma_settled_mono(before, *bitmap, all@[kk].location, d.window as int, pitch as int, region_ppm as int);
                                    }
                                }
                                if c == 0 {
                                    lemma_no_loss(before, *bitmap);
                                    if !cleared_any {
                                        if thin_rect(*bitmap, x as int, y as int, x + w, y + h) {
                                            lemma_thin_same(*bitmap, start, x as int, y as int, x + w, y + h);
                                        }
                                        assert(region_settled(start, v.location, d.window as int, pitch as int, region_ppm as int));
                                    }
                                }
                            }
                            if c > 0 {
                                cleared_any = true;
                            }
                        }
                    },
                    None => {},
                }
            }
            k = k + 1;
        }
        proof {
            lemma_thinning_compose(orig, start, *bitmap);
        }
        if !cleared_any {
            proof {
                lemma_same_view(start, *bitmap);
                lemma_generated_same(start, *bitmap, pixel_w as int, pitch as int, strategy, min_area, best@);
                assert forall|kk: int|
                    0 <= kk < density_report(best@, *lim).len() && (#[trigger] density_report(best@, *lim)[kk]).rule
                        == DrcRule::DensityMax && pitch > 0 implies region_settled(
                    *bitmap,
                    density_report(best@, *lim)[kk].location,
                    lim.density->0.window as int,
                    pitch as int,
                    region_ppm as int,
                ) by {
                    assert(all@[kk] == density_report(best@, *lim)[kk]);
                    let loc = all@[kk].location;
                    let (x, y, w, h) = window_region_of(
                        loc.0 as int,
                        loc.1 as int,
                        d.window as int,
                        pitch as int,
                        start.width as int,
                        start.height as int,
                    );
                    if thin_rect(start, x, y, x + w, y + h) {
                        lemma_thin_same(start, *bitmap, x, y, x + w, y + h);
                    }
                }
                lemma_same_view(start, *bitmap);
                assert(same_pixels(states.last(), *bitmap));
            }
            return Ok(best);
        }
        proof {
            assert(density_settled(*bitmap, best@, *lim, pitch as int, region_ppm as int)) by {
                assert forall|kk: int|
                    0 <= kk < density_report(best@, *lim).len() && (#[trigger] density_report(best@, *lim)[kk]).rule
                        == DrcRule::DensityMax && pitch > 0 implies region_settled(
                    *bitmap,
                    density_report(best@, *lim)[kk].location,
                    lim.density->0.window as int,
                    pitch as int,
                    region_ppm as int,
                ) by {
                    assert(all@[kk] == density_report(best@, *lim)[kk]);
                }
            }
            assert(generated(start, pixel_w as int, pitch as int, strategy, min_area, best@));
            assert(report_visits(rv, best@, *lim, pitch as int, region_ppm as int));
            assert(density_round(start, *bitmap, pixel_w as int, pitch as int, strategy, min_area, *lim, region_ppm as int));
            let next = states.push(*bitmap);
            assert forall|i: int| 0 <= i < next.len() - 1 implies #[trigger] density_round(
                next[i],
                next[i + 1],
                pixel_w as int,
                pitch as int,
                strategy,
                min_area,
                *lim,
                region_ppm as int,
            ) by {
                if i < next.len() - 2 {
                    assert(next[i] == states[i] && next[i + 1] == states[i + 1]);
                    assert(density_round(states[i], states[i + 1], pixel_w as int, pitch as int, strategy, min_area, *lim, region_ppm as int));
                } else {
                    assert(next[i] == start);
                }
            }
            states = next;
        }
        best = match generate_polygons_dbu(bitmap, pixel_w, pitch, strategy, min_area) {
            Ok(v) => v,
            Err(e) => {
                return Err(e);
            },
        };
        attempt = attempt + 1;
    }
    Ok(best)
}

/// How a layer is held to its maximum density, in integer units worked out
/// from the design rules.
#[derive(Debug, Clone, Copy)]
pub struct DensityPlan {
    /// Side of the bitmap-level density window in pixels; 0 skips the
    /// bitmap-level pass.
    pub window_px: u32,
    /// The maximum density, in parts per million.
    pub max_ppm: u32,
    /// The density that over-dense regions are thinned to, in parts per
    /// million.
    pub region_ppm: u32,
}

/// Why a layer could not be generated.
#[derive(Debug, Clone, Copy, PartialEq, Eq)]
pub enum LayerError {
    Generate(GenerateError),
    /// Density violations remain after the feedback loop; the count of
    /// those reported.
    DensityNotConverged(usize),
    /// The density check cannot run on the generated rectangles.
    DensityUnchecked,
}

/// Rounds of the density feedback loop in `generate_layer_polygons`.
pub const DENSITY_RETRIES: u32 = 3;

/// The density check on `rects` passes: it can run and reports nothing.
pub open spec fn density_clean(rects: Seq<Rect>, lim: DrcLimits) -> bool {
    drc_input_ok(rects, lim) && capped_run(Seq::empty(), density_chunks(rects, lim), Some(1usize)).len() == 0
}

/// The bitmap-level pass of `generate_layer_polygons` runs on `bm`: the plan
/// has a window, the bitmap's summed-area table fits in memory, and the
/// bitmap holds more than `max_ppm` parts per million of metal.
pub open spec fn prepass_applies(bm: ArtworkBitmap, plan: DensityPlan) -> bool {
    &&& plan.window_px > 0
    &&& bm.width < u32::MAX
    &&& (bm.width + 1) * (bm.height + 1) <= usize::MAX
    &&& count_on(bm@) * 1_000_000 > plan.max_ppm * (bm.width * bm.height)
}

/// Generate a layer's rectangles. Without a plan the bitmap is left as it is;
/// with one, an over-dense bitmap is first thinned window by window
/// (`enforce_density_count`, a run of window visits after which every
/// window over the plan's limit is thin, and stays so), then the density
/// feedback loop runs its rounds, and the layer fails when density
/// violations remain, unless `force` is set.
pub fn generate_layer_polygons(
    bitmap: &mut ArtworkBitmap,
    pixel_w: i32,
    pitch: i32,
    strategy: PolygonStrategy,
    min_area: Option<i64>,
    lim: &DrcLimits,
    plan: Option<DensityPlan>,
    force: bool,
) -> (r: Result<Vec<Rect>, LayerError>)
    requires
        old(bitmap).wf(),
    ensures
        final(bitmap).wf(),
        only_cleared(*old(bitmap), *final(bitmap)),
        thin_kept(*old(bitmap), *final(bitmap)),
        plan is None ==> final(bitmap)@ == old(bitmap)@,
        r matches Err(LayerError::Generate(_)) <==> !generation_fits(*old(bitmap), pixel_w as int, pitch as int),
        r matches Ok(rects) ==> generated(*final(bitmap), pixel_w as int, pitch as int, strategy, min_area, rects@),
        r matches Ok(rects) ==> plan is None || force || density_clean(rects@, *lim),
        force && generation_fits(*old(bitmap), pixel_w as int, pitch as int) ==> r is Ok,
        plan is Some ==> exists|s: Seq<ArtworkBitmap>, t: Seq<ArtworkBitmap>|
            #![trigger density_visits(s, region_limit(plan->0.window_px as int, plan->0.window_px as int, plan->0.max_ppm as int), plan->0.window_px as int), density_rounds(t, pixel_w as int, pitch as int, strategy, min_area, *lim, plan->0.region_ppm as int)]
            density_visits(
                s,
                region_limit(plan->0.window_px as int, plan->0.window_px as int, plan->0.max_ppm as int),
                plan->0.window_px as int,
            ) && s[0] == *old(bitmap) && (prepass_applies(*old(bitmap), plan->0) || s.len() == 1) && density_rounds(
                t,
                pixel_w as int,
                pitch as int,
                strategy,
                min_area,
                *lim,
                plan->0.region_ppm as int,
            ) && same_pixels(t[0], s.last()) && same_pixels(t.last(), *final(bitmap)) && t.len() <= DENSITY_RETRIES + 1,
        plan is Some && prepass_applies(*old(bitmap), plan->0) ==> windows_stuck(
            *final(bitmap),
            region_limit(plan->0.window_px as int, plan->0.window_px as int, plan->0.max_ppm as int),
            plan->0.window_px as int,
        ),
        r matches Err(LayerError::DensityNotConverged(n)) ==> plan is Some && !force && n >= 1 && exists|rects: Seq<Rect>|
            generated(*final(bitmap), pixel_w as int, pitch as int, strategy, min_area, rects)
                && drc_input_ok(rects, *lim) && capped_run(Seq::empty(), density_chunks(rects, *lim), Some(1usize)).len() == n,
        r matches Err(LayerError::DensityUnchecked) ==> plan is Some && !force && exists|rects: Seq<Rect>|
            generated(*final(bitmap), pixel_w as int, pitch as int, strategy, min_area, rects)
                && !drc_input_ok(rects, *lim),
{
    let plan = match plan {
        None => {
            return match generate_polygons_dbu(bitmap, pixel_w, pitch, strategy, min_area) {
                Ok(v) => Ok(v),
                Err(e) => Err(LayerError::Generate(e)),
            };
        },
        Some(p) => p,
    };
    let ghost orig = *bitmap;
    let w = bitmap.width;
    let h = bitmap.height;
    assert((w as u64 + 1) * (h as u64 + 1) <= 0x1_0000_0000 * 0x1_0000_0000) by (nonlinear_arith)
        requires
            w <= 0xffff_ffff,
            h <= 0xffff_ffff,
    ;
    let ghost lim_px = region_limit(plan.window_px as int, plan.window_px as int, plan.max_ppm as int);
    let ghost mut pre: Seq<ArtworkBitmap> = seq![orig];
    proof {
        assert(density_visits(pre, lim_px, plan.window_px as int));
    }
    if plan.window_px > 0 && w < u32::MAX && (w as u128 + 1) * (h as u128 + 1) <= usize::MAX as u128 {
        let metal = bitmap.metal_count();
        proof {
            orig.lemma_view();
        }
        let total: u64 = (w as u64) * (h as u64);
        assert(total <= u32::MAX);
        assert((plan.max_ppm as u128) * (total as u128) <= 0xffff_ffff * 0xffff_ffff) by (nonlinear_arith)
            requires
                plan.max_ppm <= 0xffff_ffff,
                total <= 0xffff_ffff,
        ;
        if (metal as u128) * 1_000_000 > (plan.max_ppm as u128) * (total as u128) {
            let win = plan.window_px;
            let limit = region_limit_exec(win, win, plan.max_ppm);
            enforce_density_count(bitmap, limit, win);
            proof {
                pre = choose|sq: Seq<ArtworkBitmap>|
                    #[trigger] density_visits(sq, limit as int, win as int) && sq[0] == orig && sq.last() == *bitmap;
            }
        }
    }
    let ghost mid = *bitmap;
    proof {
        assert(pre[0] == orig && pre.last() == mid);
        if prepass_applies(orig, plan) {
            assert(windows_stuck(mid, region_limit(plan.window_px as int, plan.window_px as int, plan.max_ppm as int), plan.window_px as int));
        }
    }
    let rects = match generate_with_density_loop(
        bitmap,
        pixel_w,
        pitch,
        strategy,
        min_area,
        lim,
        plan.region_ppm,
        DENSITY_RETRIES,
    ) {
        Ok(v) => v,
        Err(e) => {
            proof {
                if prepass_applies(orig, plan) {
                    lemma_stuck_mono(mid, *bitmap, region_limit(plan.window_px as int, plan.window_px as int, plan.max_ppm as int), plan.window_px as int);
                }
                let t = seq![mid];
                assert(density_rounds(t, pixel_w as int, pitch as int, strategy, min_area, *lim, plan.region_ppm as int));
                lemma_same_view(mid, *bitmap);
                assert(density_visits(pre, lim_px, plan.window_px as int) && density_rounds(t, pixel_w as int, pitch as int, strategy, min_area, *lim, plan.region_ppm as int));
            }
            return Err(LayerError::Generate(e));
        },
    };
    proof {
        let t = choose|t: Seq<ArtworkBitmap>|
            #[trigger] density_rounds(t, pixel_w as int, pitch as int, strategy, min_area, *lim, plan.region_ppm as int)
                && same_pixels(t[0], mid) && same_pixels(t.last(), *bitmap) && t.len() <= DENSITY_RETRIES + 1 && (
            lim.density is None || density_clean(rects@, *lim) || !drc_input_ok(rects@, *lim) || t.len()
                == DENSITY_RETRIES + 1 || density_settled(*bitmap, rects@, *lim, pitch as int, plan.region_ppm as int));
        assert(density_visits(pre, lim_px, plan.window_px as int) && density_rounds(t, pixel_w as int, pitch as int, strategy, min_area, *lim, plan.region_ppm as int));
        lemma_thinning_compose(orig, mid, *bitmap);
        if prepass_applies(orig, plan) {
            lemma_stuck_mono(mid, *bitmap, region_limit(plan.window_px as int, plan.window_px as int, plan.max_ppm as int), plan.window_px as int);
        }
    }
    if !drc_input_fits(rects.as_slice(), lim) {
        if force {
            return Ok(rects);
        }
        return Err(LayerError::DensityUnchecked);
    }
    let fv = check_density_only(rects.as_slice(), lim, Some(1));
    if fv.len() > 0 && !force {
        return Err(LayerError::DensityNotConverged(fv.len()));
    }
    Ok(rects)
}

} // verus!
