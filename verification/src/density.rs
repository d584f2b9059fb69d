//! Maximum-density enforcement: thinning dense windows of the bitmap by
//! clearing interior pixels first, so that thin lines and edges survive.
use vstd::prelude::*;

use crate::artwork::{
    b2n, build_sat_from, count_neighbors, count_on_in_window, is_sat, lemma_window_bound,
    lemma_window_split_cols, lemma_window_split_rows, neighbor_count, sat_query, window_count,
    ArtworkBitmap,
};
use crate::bits::{count_on, count_range, lemma_count_same, lemma_count_split};

verus! {

/// The step between density windows: half a window, at least one pixel.
pub open spec fn window_step(win: int) -> int {
    if win / 2 >= 1 {
        win / 2
    } else {
        1
    }
}

/// `(wx, wy)` is the corner of a `win x win` window of the density grid of
/// `bm`: a multiple of the step on both axes, inside the bitmap.
pub open spec fn on_window_grid(bm: ArtworkBitmap, win: int, wx: int, wy: int) -> bool {
    &&& 0 <= wx && 0 <= wy
    &&& wx % window_step(win) == 0
    &&& wy % window_step(win) == 0
    &&& wx + win <= bm.width
    &&& wy + win <= bm.height
}

/// No window of the density grid holds more than `max_count` metal pixels.
pub open spec fn density_ok(bm: ArtworkBitmap, max_count: int, win: int) -> bool {
    forall|wx: int, wy: int|
        #[trigger] on_window_grid(bm, win, wx, wy) ==> window_count(
            bm@,
            bm.width as int,
            wx,
            wy,
            wx + win,
            wy + win,
        ) <= max_count
}

/// No metal pixel of columns `x0..x1`, rows `y0..y1` has 3 or more metal
/// neighbours: enforcement may clear none of them.
pub open spec fn thin_rect(bm: ArtworkBitmap, x0: int, y0: int, x1: int, y1: int) -> bool {
    forall|x: int, y: int|
        x0 <= x < x1 && y0 <= y < y1 && #[trigger] bm.pixel(x, y) ==> neighbor_count(bm, x, y) < 3
}

/// Every window of the density grid that holds more than `max_count` metal
/// pixels is thin: enforcement can do nothing more.
pub open spec fn windows_stuck(bm: ArtworkBitmap, max_count: int, win: int) -> bool {
    forall|wx: int, wy: int|
        #[trigger] on_window_grid(bm, win, wx, wy) && window_count(bm@, bm.width as int, wx, wy, wx + win, wy + win)
            > max_count ==> thin_rect(bm, wx, wy, wx + win, wy + win)
}

/// Pixel `(x, y)` lies in a window of the density grid of `bm` that holds
/// more than `max_count` metal pixels.
pub open spec fn in_dense_window(bm: ArtworkBitmap, max_count: int, win: int, x: int, y: int) -> bool {
    exists|wx: int, wy: int|
        #[trigger] on_window_grid(bm, win, wx, wy) && wx <= x < wx + win && wy <= y < wy + win && window_count(
            bm@,
            bm.width as int,
            wx,
            wy,
            wx + win,
            wy + win,
        ) > max_count
}

/// Every pixel that `b` lacks and `a` has lies in a window of the density
/// grid of `a` that held more than `max_count` metal pixels.
pub open spec fn cleared_in_dense(a: ArtworkBitmap, b: ArtworkBitmap, max_count: int, win: int) -> bool {
    forall|x: int, y: int| a.pixel(x, y) && !#[trigger] b.pixel(x, y) ==> in_dense_window(a, max_count, win, x, y)
}

/// `b` is `a` with the region of columns `x0..x1`, rows `y0..y1` thinned
/// towards `max_count`: pixels are cleared only in the region, never one
/// with fewer than 3 metal neighbours, and never below `max_count` there
/// (or below what it held); and the region stays above `max_count` only
/// once every metal pixel of it that had 3 or more neighbours is cleared.
pub open spec fn region_thinned(a: ArtworkBitmap, b: ArtworkBitmap, x0: int, y0: int, x1: int, y1: int, max_count: int) -> bool {
    &&& only_cleared(a, b)
    &&& thin_kept(a, b)
    &&& forall|x: int, y: int| !(x0 <= x < x1 && y0 <= y < y1) ==> #[trigger] b.pixel(x, y) == a.pixel(x, y)
    &&& window_count(b@, b.width as int, x0, y0, x1, y1) >= min_int(
        window_count(a@, a.width as int, x0, y0, x1, y1) as int,
        max_count,
    )
    &&& window_count(b@, b.width as int, x0, y0, x1, y1) > max_count ==> forall|x: int, y: int|
        x0 <= x < x1 && y0 <= y < y1 && a.pixel(x, y) && neighbor_count(a, x, y) >= 3 ==> !#[trigger] b.pixel(x, y)
}

/// One visit of a window, columns `x0..x1` and rows `y0..y1`, that held
/// more than `max_count` metal pixels, takes `a` to `b`: pixels are cleared
/// only in the window, never one with fewer than 3 metal neighbours, and
/// never below `max_count` in it; and it stops above `max_count` only once
/// every metal pixel of the window that had 3 or more neighbours is cleared.
pub open spec fn window_visit(a: ArtworkBitmap, b: ArtworkBitmap, x0: int, y0: int, x1: int, y1: int, max_count: int) -> bool {
    &&& only_cleared(a, b)
    &&& thin_kept(a, b)
    &&& forall|x: int, y: int| !(x0 <= x < x1 && y0 <= y < y1) ==> #[trigger] b.pixel(x, y) == a.pixel(x, y)
    &&& window_count(a@, a.width as int, x0, y0, x1, y1) > max_count
    &&& window_count(b@, b.width as int, x0, y0, x1, y1) >= max_count
    &&& window_count(b@, b.width as int, x0, y0, x1, y1) > max_count ==> forall|x: int, y: int|
        x0 <= x < x1 && y0 <= y < y1 && a.pixel(x, y) && neighbor_count(a, x, y) >= 3 ==> !#[trigger] b.pixel(x, y)
}

/// `b` is `a` after the visit of one window of the density grid.
pub open spec fn grid_visit(a: ArtworkBitmap, b: ArtworkBitmap, max_count: int, win: int) -> bool {
    exists|wx: int, wy: int|
        #[trigger] on_window_grid(a, win, wx, wy) && window_visit(a, b, wx, wy, wx + win, wy + win, max_count)
}

/// `s` is a run of window visits, each state taken to the next by one.
pub open spec fn density_visits(s: Seq<ArtworkBitmap>, max_count: int, win: int) -> bool {
    &&& s.len() >= 1
    &&& forall|i: int| 0 <= i < s.len() - 1 ==> #[trigger] grid_visit(s[i], s[i + 1], max_count, win)
}

/// Some entry of `v` names the window at `(x, y)`.
pub open spec fn listed(v: Seq<(u32, u32, u32)>, x: int, y: int) -> bool {
    exists|k: int| 0 <= k < v.len() && (#[trigger] v[k]).1 == x && v[k].2 == y
}

/// Some candidate of `c` is pixel `(x, y)`.
pub open spec fn cand_listed(c: Seq<(u8, u32, u32)>, x: int, y: int) -> bool {
    exists|k: int| 0 <= k < c.len() && (#[trigger] c[k]).1 == x && c[k].2 == y
}

/// Bitmaps with the same size and view are thin alike.
pub proof fn lemma_thin_same(a: ArtworkBitmap, b: ArtworkBitmap, x0: int, y0: int, x1: int, y1: int)
    requires
        a.width == b.width,
        a.height == b.height,
        a@ == b@,
        thin_rect(a, x0, y0, x1, y1),
    ensures
        thin_rect(b, x0, y0, x1, y1),
{
    assert forall|x: int, y: int| x0 <= x < x1 && y0 <= y < y1 && #[trigger] b.pixel(x, y) implies neighbor_count(
        b,
        x,
        y,
    ) < 3 by {
        assert(a.pixel(x, y));
    }
}

/// Bitmaps with the same size and view are stuck alike.
proof fn lemma_stuck_same(a: ArtworkBitmap, b: ArtworkBitmap, max_count: int, win: int)
    requires
        a.width == b.width,
        a.height == b.height,
        a@ == b@,
        windows_stuck(a, max_count, win),
    ensures
        windows_stuck(b, max_count, win),
{
    assert forall|wx: int, wy: int|
        #[trigger] on_window_grid(b, win, wx, wy) && window_count(b@, b.width as int, wx, wy, wx + win, wy + win)
            > max_count implies thin_rect(b, wx, wy, wx + win, wy + win) by {
        assert(on_window_grid(a, win, wx, wy));
        lemma_thin_same(a, b, wx, wy, wx + win, wy + win);
    }
}

/// Windows that can do nothing more stay so when pixels are only cleared.
pub proof fn lemma_stuck_mono(a: ArtworkBitmap, b: ArtworkBitmap, max_count: int, win: int)
    requires
        only_cleared(a, b),
        windows_stuck(a, max_count, win),
        win >= 0,
    ensures
        windows_stuck(b, max_count, win),
{
    assert forall|wx: int, wy: int|
        #[trigger] on_window_grid(b, win, wx, wy) && window_count(b@, b.width as int, wx, wy, wx + win, wy + win)
            > max_count implies thin_rect(b, wx, wy, wx + win, wy + win) by {
        assert(on_window_grid(a, win, wx, wy));
        lemma_window_mono(a, b, wx, wy, wx + win, wy + win);
        lemma_thin_mono(a, b, wx, wy, wx + win, wy + win);
    }
}

/// A 2 x 2 block of a thin region holds at most 3 metal pixels: were all
/// four metal, each would have 3 metal neighbours.
proof fn lemma_thin_block(bm: ArtworkBitmap, x0: int, y0: int, x1: int, y1: int, x: int, y: int)
    requires
        thin_rect(bm, x0, y0, x1, y1),
        x0 <= x,
        x + 2 <= x1,
        y0 <= y,
        y + 2 <= y1,
        0 <= x,
        0 <= y,
        x1 <= bm.width,
        y1 <= bm.height,
    ensures
        window_count(bm@, bm.width as int, x, y, x + 2, y + 2) <= 3,
{
    let w = bm.width as int;
    let s = bm@;
    assert(window_count(s, w, x, y, x + 2, y + 2) == window_count(s, w, x, y, x + 2, y + 1) + count_range(
        s,
        (y + 1) * w + x,
        (y + 1) * w + x + 2,
    ));
    assert(window_count(s, w, x, y, x + 2, y + 1) == window_count(s, w, x, y, x + 2, y) + count_range(
        s,
        y * w + x,
        y * w + x + 2,
    ));
    assert(window_count(s, w, x, y, x + 2, y) == 0);
    assert(count_range(s, y * w + x, y * w + x + 2) == count_range(s, y * w + x, y * w + x + 1) + b2n(
        s[y * w + x + 1],
    ));
    assert(count_range(s, y * w + x, y * w + x) == 0);
    assert(count_range(s, y * w + x, y * w + x + 1) == b2n(s[y * w + x]));
    assert(count_range(s, (y + 1) * w + x, (y + 1) * w + x + 2) == count_range(
        s,
        (y + 1) * w + x,
        (y + 1) * w + x + 1,
    ) + b2n(s[(y + 1) * w + x + 1]));
    assert(count_range(s, (y + 1) * w + x, (y + 1) * w + x) == 0);
    assert(count_range(s, (y + 1) * w + x, (y + 1) * w + x + 1) == b2n(s[(y + 1) * w + x]));
    assert((y + 1) * w + x == y * w + w + x) by (nonlinear_arith);
    assert(bm.pixel(x, y) == s[y * w + x]);
    assert(bm.pixel(x + 1, y) == s[y * w + x + 1]);
    assert(bm.pixel(x, y + 1) == s[(y + 1) * w + x]);
    assert(bm.pixel(x + 1, y + 1) == s[(y + 1) * w + x + 1]);
    if bm.pixel(x, y) && bm.pixel(x + 1, y) && bm.pixel(x, y + 1) && bm.pixel(x + 1, y + 1) {
        assert(neighbor_count(bm, x, y) >= 3);
    }
}

/// Two rows of a thin region hold at most 3 metal pixels per pair of
/// columns, counting a last odd column as a pair.
proof fn lemma_thin_strip(bm: ArtworkBitmap, x0: int, y0: int, x1: int, y1: int, xa: int, xb: int, y: int)
    requires
        thin_rect(bm, x0, y0, x1, y1),
        x0 <= xa <= xb <= x1,
        y0 <= y,
        y + 2 <= y1,
        0 <= xa,
        0 <= y,
        x1 <= bm.width,
        y1 <= bm.height,
    ensures
        window_count(bm@, bm.width as int, xa, y, xb, y + 2) <= 3 * ((xb - xa + 1) / 2),
    decreases xb - xa,
{
    let w = bm.width as int;
    let s = bm@;
    if xb - xa >= 2 {
        lemma_thin_strip(bm, x0, y0, x1, y1, xa + 2, xb, y);
        lemma_window_split_cols(s, w, xa, xa + 2, xb, y, y + 2);
        lemma_thin_block(bm, x0, y0, x1, y1, xa, y);
    } else {
        lemma_window_bound(s, w, xa, y, xb, y + 2);
        assert((xb - xa) * 2 <= 3 * ((xb - xa + 1) / 2)) by (nonlinear_arith)
            requires
                0 <= xb - xa < 2,
        ;
    }
}

/// A thin region of `wd x ht` pixels holds at most
/// `3 * ceil(wd / 2) * ceil(ht / 2)` metal pixels: no 2 x 2 block of it is
/// full.
pub proof fn lemma_thin_count(bm: ArtworkBitmap, x0: int, y0: int, x1: int, y1: int, ya: int)
    requires
        thin_rect(bm, x0, y0, x1, y1),
        0 <= x0 <= x1 <= bm.width,
        0 <= y0 <= ya <= y1 <= bm.height,
    ensures
        window_count(bm@, bm.width as int, x0, ya, x1, y1) <= 3 * ((x1 - x0 + 1) / 2) * ((y1 - ya + 1) / 2),
    decreases y1 - ya,
{
    let w = bm.width as int;
    let s = bm@;
    let c = (x1 - x0 + 1) / 2;
    if y1 - ya >= 2 {
        lemma_thin_count(bm, x0, y0, x1, y1, ya + 2);
        lemma_window_split_rows(s, w, x0, ya, ya + 2, x1, y1);
        lemma_thin_strip(bm, x0, y0, x1, y1, x0, x1, ya);
        assert(3 * c + 3 * c * ((y1 - ya - 2 + 1) / 2) == 3 * c * ((y1 - ya + 1) / 2)) by (nonlinear_arith)
            requires
                y1 - ya >= 2,
        ;
    } else {
        lemma_window_bound(s, w, x0, ya, x1, y1);
        assert((x1 - x0) * (y1 - ya) <= 3 * c * ((y1 - ya + 1) / 2)) by (nonlinear_arith)
            requires
                0 <= y1 - ya < 2,
                c == (x1 - x0 + 1) / 2,
                x1 - x0 >= 0,
        ;
    }
}

/// The density grid is the half-window grid: a bitmap within the count on
/// its density grid holds at most `max_count` metal pixels in every
/// `win x win` window inside it whose corner is a multiple of `win / 2` on
/// both axes (every window, for `win == 1`).
pub proof fn law_density_half_window_grid(bm: ArtworkBitmap, max_count: int, win: int, wx: int, wy: int)
    requires
        density_ok(bm, max_count, win),
        win > 0,
        0 <= wx,
        0 <= wy,
        wx + win <= bm.width,
        wy + win <= bm.height,
        win == 1 || (wx % (win / 2) == 0 && wy % (win / 2) == 0),
    ensures
        window_count(bm@, bm.width as int, wx, wy, wx + win, wy + win) <= max_count,
{
    assert(on_window_grid(bm, win, wx, wy));
}

/// When thin windows cannot exceed the count, windows that can do nothing
/// more are within it: the grid meets the limit.
pub proof fn lemma_stuck_meets_limit(bm: ArtworkBitmap, max_count: int, win: int)
    requires
        windows_stuck(bm, max_count, win),
        win > 0,
        3 * ((win + 1) / 2) * ((win + 1) / 2) <= max_count,
    ensures
        density_ok(bm, max_count, win),
{
    assert forall|wx: int, wy: int| #[trigger] on_window_grid(bm, win, wx, wy) implies window_count(
        bm@,
        bm.width as int,
        wx,
        wy,
        wx + win,
        wy + win,
    ) <= max_count by {
        if window_count(bm@, bm.width as int, wx, wy, wx + win, wy + win) > max_count {
            lemma_thin_count(bm, wx, wy, wx + win, wy + win, wy);
        }
    }
}

/// Pixels are only ever cleared: every metal pixel of `b` is metal in `a`.
pub open spec fn only_cleared(a: ArtworkBitmap, b: ArtworkBitmap) -> bool {
    &&& b.width == a.width
    &&& b.height == a.height
    &&& forall|x: int, y: int| #[trigger] b.pixel(x, y) ==> a.pixel(x, y)
}

/// Every metal pixel of `a` that `b` lacks had at least 3 metal neighbours in
/// `a`: thin lines and the tips and edges of shapes are kept.
pub open spec fn thin_kept(a: ArtworkBitmap, b: ArtworkBitmap) -> bool {
    forall|x: int, y: int| a.pixel(x, y) && !#[trigger] b.pixel(x, y) ==> neighbor_count(a, x, y) >= 3
}

/// Clearing pixels never adds neighbours.
pub proof fn lemma_neighbors_monotone(a: ArtworkBitmap, b: ArtworkBitmap, x: int, y: int)
    requires
        only_cleared(a, b),
    ensures
        neighbor_count(b, x, y) <= neighbor_count(a, x, y),
{
    assert(b.pixel(x - 1, y - 1) ==> a.pixel(x - 1, y - 1));
    assert(b.pixel(x, y - 1) ==> a.pixel(x, y - 1));
    assert(b.pixel(x + 1, y - 1) ==> a.pixel(x + 1, y - 1));
    assert(b.pixel(x - 1, y) ==> a.pixel(x - 1, y));
    assert(b.pixel(x + 1, y) ==> a.pixel(x + 1, y));
    assert(b.pixel(x - 1, y + 1) ==> a.pixel(x - 1, y + 1));
    assert(b.pixel(x, y + 1) ==> a.pixel(x, y + 1));
    assert(b.pixel(x + 1, y + 1) ==> a.pixel(x + 1, y + 1));
}

/// Clearing pixels and keeping thin features compose.
pub proof fn lemma_thinning_compose(a: ArtworkBitmap, b: ArtworkBitmap, c: ArtworkBitmap)
    requires
        only_cleared(a, b),
        thin_kept(a, b),
        only_cleared(b, c),
        thin_kept(b, c),
    ensures
        only_cleared(a, c),
        thin_kept(a, c),
{
    assert forall|x: int, y: int| a.pixel(x, y) && !#[trigger] c.pixel(x, y) implies neighbor_count(a, x, y) >= 3 by {
        if b.pixel(x, y) {
            lemma_neighbors_monotone(a, b, x, y);
        }
    }
}

/// The SAT entries of rows `0..=r` are those of `bm`, and column 0 is zero.
pub open spec fn sat_valid_upto(bm: ArtworkBitmap, w: int, h: int, sat: Seq<u32>, r: int) -> bool {
    &&& sat.len() == (w + 1) * (h + 1)
    &&& forall|x: int, y: int|
        #![trigger sat[y * (w + 1) + x]]
        0 <= x <= w && 0 <= y <= r ==> sat[y * (w + 1) + x] == window_count(
            bm@,
            bm.width as int,
            0,
            0,
            x,
            y,
        )
    &&& forall|y: int| 0 <= y <= h ==> #[trigger] sat[y * (w + 1)] == 0u32
}

/// Clearing one metal pixel lowers the metal count by one.
pub proof fn lemma_count_clear(s: Seq<bool>, i: int)
    requires
        0 <= i < s.len(),
        s[i],
    ensures
        count_on(s.update(i, false)) + 1 == count_on(s),
{
    let t = s.update(i, false);
    let n = s.len() as int;
    lemma_count_split(s, 0, i, n);
    lemma_count_split(t, 0, i, n);
    lemma_count_split(s, i, i + 1, n);
    lemma_count_split(t, i, i + 1, n);
    lemma_count_same(s, t, 0, i);
    lemma_count_same(s, t, i + 1, n);
    assert(t.len() == n);
    assert(count_range(s, i, i + 1) == count_range(s, i, i) + 1);
    assert(count_range(t, i, i + 1) == count_range(t, i, i) + 0);
}

/// Clearing one metal pixel lowers the count of a range holding it by one
/// and leaves the count of any other range alone.
pub proof fn lemma_range_clear(s: Seq<bool>, i: int, a: int, b: int)
    requires
        0 <= i < s.len(),
        s[i],
        0 <= a,
        b <= s.len(),
    ensures
        count_range(s.update(i, false), a, b) + (if a <= i < b { 1int } else { 0int }) == count_range(s, a, b),
    decreases b - a,
{
    if b > a {
        lemma_range_clear(s, i, a, b - 1);
    }
}

/// Clearing the metal pixel at `(xi, yi)` lowers the count of a window
/// holding it by one and leaves the count of any other window alone.
pub proof fn lemma_window_clear(
    s: Seq<bool>,
    w: int,
    xi: int,
    yi: int,
    x0: int,
    y0: int,
    x1: int,
    y1: int,
)
    requires
        0 <= xi < w,
        0 <= yi,
        0 <= yi * w + xi < s.len(),
        s[yi * w + xi],
        0 <= x0 <= x1 <= w,
        0 <= y0,
        y1 * w <= s.len(),
    ensures
        window_count(s.update(yi * w + xi, false), w, x0, y0, x1, y1) + (if x0 <= xi < x1 && y0 <= yi < y1 {
            1int
        } else {
            0int
        }) == window_count(s, w, x0, y0, x1, y1),
    decreases y1 - y0,
{
    if y1 > y0 {
        let y = y1 - 1;
        let i = yi * w + xi;
        assert((y1 - 1) * w <= s.len()) by (nonlinear_arith)
            requires
                y1 * w <= s.len(),
                w >= 0,
        ;
        lemma_window_clear(s, w, xi, yi, x0, y0, x1, y1 - 1);
        assert(0 <= y * w) by (nonlinear_arith)
            requires
                y >= 0,
                w >= 0,
        ;
        assert(y * w + x1 <= s.len()) by (nonlinear_arith)
            requires
                y1 * w <= s.len(),
                y == y1 - 1,
                x1 <= w,
        ;
        lemma_range_clear(s, i, y * w + x0, y * w + x1);
        if yi < y {
            assert(i < y * w + x0) by (nonlinear_arith)
                requires
                    i == yi * w + xi,
                    0 <= xi < w,
                    yi + 1 <= y,
                    x0 >= 0,
            {
                assert((yi + 1) * w <= y * w) by (nonlinear_arith)
                    requires
                        yi + 1 <= y,
                        w >= 0,
                ;
                assert((yi + 1) * w == yi * w + w) by (nonlinear_arith);
            }
        } else if yi > y {
            assert(i >= y * w + x1) by (nonlinear_arith)
                requires
                    i == yi * w + xi,
                    0 <= xi < w,
                    yi >= y + 1,
                    x1 <= w,
            {
                assert((y + 1) * w <= yi * w) by (nonlinear_arith)
                    requires
                        yi >= y + 1,
                        w >= 0,
                ;
                assert((y + 1) * w == y * w + w) by (nonlinear_arith);
            }
        }
    }
}

/// Windows only lose metal pixels when pixels are only cleared.
pub proof fn lemma_window_mono(a: ArtworkBitmap, b: ArtworkBitmap, x0: int, y0: int, x1: int, y1: int)
    requires
        only_cleared(a, b),
        0 <= x0 <= x1 <= a.width,
        0 <= y0,
        y1 <= a.height,
    ensures
        window_count(b@, b.width as int, x0, y0, x1, y1) <= window_count(a@, a.width as int, x0, y0, x1, y1),
    decreases y1 - y0,
{
    if y1 > y0 {
        let w = a.width as int;
        let y = y1 - 1;
        lemma_window_mono(a, b, x0, y0, x1, y1 - 1);
        assert forall|j: int| y * w + x0 <= j < y * w + x1 implies (b@[j] ==> a@[j]) by {
            let x = j - y * w;
            assert(y * w + x == j);
            if b@[j] {
                assert(b.pixel(x, y));
            }
        }
        lemma_range_mono(a@, b@, y * w + x0, y * w + x1);
    }
}

/// Within one row, a range of `t` has at most as many metal pixels as the
/// same range of `s` when every metal pixel of `t` is metal in `s`.
proof fn lemma_range_mono(s: Seq<bool>, t: Seq<bool>, a: int, b: int)
    requires
        forall|j: int| a <= j < b ==> (t[j] ==> s[j]),
    ensures
        count_range(t, a, b) <= count_range(s, a, b),
    decreases b - a,
{
    if b > a {
        lemma_range_mono(s, t, a, b - 1);
    }
}

/// Thin windows stay thin when pixels are only cleared.
pub proof fn lemma_thin_mono(a: ArtworkBitmap, b: ArtworkBitmap, x0: int, y0: int, x1: int, y1: int)
    requires
        only_cleared(a, b),
        thin_rect(a, x0, y0, x1, y1),
    ensures
        thin_rect(b, x0, y0, x1, y1),
{
    assert forall|x: int, y: int| x0 <= x < x1 && y0 <= y < y1 && #[trigger] b.pixel(x, y) implies neighbor_count(
        b,
        x,
        y,
    ) < 3 by {
        assert(a.pixel(x, y));
        lemma_neighbors_monotone(a, b, x, y);
    }
}

/// A full summed-area table is valid up to every row.
pub proof fn lemma_sat_full(bm: ArtworkBitmap, w: int, h: int, sat: Seq<u32>, r: int)
    requires
        is_sat(bm, w, h, sat),
        0 <= r <= h,
        0 <= w,
    ensures
        sat_valid_upto(bm, w, h, sat, r),
{
    assert forall|y: int| 0 <= y <= h implies #[trigger] sat[y * (w + 1)] == 0u32 by {
        assert(sat[y * (w + 1) + 0] == window_count(bm@, bm.width as int, 0, 0, 0, y));
        crate::artwork::lemma_window_empty_cols(bm@, bm.width as int, 0, 0, y);
    }
}

/// Window counts over the top rows only see those rows.
pub proof fn lemma_window_top_rows(a: ArtworkBitmap, b: ArtworkBitmap, x: int, y: int, r: int)
    requires
        a.wf(),
        b.wf(),
        a.width == b.width,
        a.height == b.height,
        0 <= x <= a.width,
        0 <= y <= r <= a.height,
        forall|px: int, py: int| 0 <= py < r ==> #[trigger] a.pixel(px, py) == b.pixel(px, py),
    ensures
        window_count(a@, a.width as int, 0, 0, x, y) == window_count(b@, b.width as int, 0, 0, x, y),
    decreases y,
{
    if y > 0 {
        lemma_window_top_rows(a, b, x, y - 1, r);
        a.lemma_view();
        b.lemma_view();
        assert forall|i: int| (y - 1) * a.width + 0 <= i < (y - 1) * a.width + x implies a@[i] == b@[i] by {
            let px = i - (y - 1) * a.width;
            a.lemma_index(px, y - 1);
            assert(a.pixel(px, y - 1) == b.pixel(px, y - 1));
        }
        lemma_count_same(a@, b@, (y - 1) * a.width + 0, (y - 1) * a.width + x);
    }
}

/// Clearing a pixel in row `py` keeps the SAT rows up to `py` valid.
pub proof fn lemma_sat_after_clear(a: ArtworkBitmap, b: ArtworkBitmap, sat: Seq<u32>, r: int, py: int)
    requires
        a.wf(),
        b.wf(),
        a.width == b.width,
        a.height == b.height,
        0 <= py < a.height,
        r <= a.height,
        sat_valid_upto(a, a.width as int, a.height as int, sat, r),
        forall|x: int, y: int| y < py ==> #[trigger] a.pixel(x, y) == b.pixel(x, y),
    ensures
        sat_valid_upto(b, a.width as int, a.height as int, sat, if py < r { py } else { r }),
{
    let w = a.width as int;
    let nr = if py < r {
        py
    } else {
        r
    };
    assert forall|x: int, y: int| 0 <= x <= w && 0 <= y <= nr implies #[trigger] sat[y * (w + 1) + x]
        == window_count(b@, b.width as int, 0, 0, x, y) by {
        lemma_window_top_rows(a, b, x, y, nr);
    }
}

/// Sort window entries `(count, x, y)` so that the counts do not increase,
/// keeping the entries.
fn sort_worst_first(v: &mut Vec<(u32, u32, u32)>)
    ensures
        final(v)@.len() == old(v)@.len(),
        forall|k: int| 0 <= k < final(v)@.len() ==> old(v)@.contains(#[trigger] final(v)@[k]),
        forall|k: int| 0 <= k < old(v)@.len() ==> final(v)@.contains(#[trigger] old(v)@[k]),
        forall|i: int, j: int| 0 <= i < j < final(v)@.len() ==> (#[trigger] final(v)@[i]).0 >= (#[trigger] final(v)@[j]).0,
{
    let n = v.len();
    let mut i: usize = 1;
    while i < n
        invariant
            n == v@.len(),
            n == old(v)@.len(),
            1 <= i || n == 0,
            i <= n || n == 0,
            forall|k: int| 0 <= k < v@.len() ==> old(v)@.contains(#[trigger] v@[k]),
            forall|k: int| 0 <= k < old(v)@.len() ==> v@.contains(#[trigger] old(v)@[k]),
            forall|a: int, b: int| 0 <= a < b < i && b < n ==> (#[trigger] v@[a]).0 >= (#[trigger] v@[b]).0,
        decreases n - i,
    {
        let mut j = i;
        while j > 0 && v[j - 1].0 < v[j].0
            invariant
                n == v@.len(),
                n == old(v)@.len(),
                0 <= j <= i < n,
                forall|k: int| 0 <= k < v@.len() ==> old(v)@.contains(#[trigger] v@[k]),
                forall|k: int| 0 <= k < old(v)@.len() ==> v@.contains(#[trigger] old(v)@[k]),
                forall|a: int, b: int| 0 <= a < b <= i && b != j && a != j ==> (#[trigger] v@[a]).0 >= (#[trigger] v@[b]).0,
                forall|a: int| j < a <= i ==> v@[j as int].0 > (#[trigger] v@[a]).0,
            decreases j,
        {
            let a = v[j - 1];
            let b = v[j];
            let ghost before = v@;
            v.set(j - 1, b);
            v.set(j, a);
            proof {
                assert forall|k: int| 0 <= k < v@.len() implies old(v)@.contains(#[trigger] v@[k]) by {
                    if k == j - 1 {
                        assert(before[j as int] == v@[k]);
                    } else if k == j {
                        assert(before[j - 1] == v@[k]);
                    } else {
                        assert(before[k] == v@[k]);
                    }
                }
                assert forall|k: int| 0 <= k < old(v)@.len() implies v@.contains(#[trigger] old(v)@[k]) by {
                    let e = old(v)@[k];
                    assert(before.contains(e));
                    let m = choose|m: int| 0 <= m < before.len() && before[m] == e;
                    if m == j - 1 {
                        assert(v@[j as int] == e);
                    } else if m == j {
                        assert(v@[j - 1] == e);
                    } else {
                        assert(v@[m] == e);
                    }
                }
            }
            j = j - 1;
        }
        i = i + 1;
    }
}

/// Clear up to `excess` metal pixels of columns `x0..x0 + ww`, rows
/// `y0..y0 + hh`: those with the most metal neighbours first (counted before
/// any is cleared, in row-major order among equals), never one with fewer
/// than 3. Returns how many were cleared.
/// Every metal pixel of the window listed as a candidate with more than 2
/// neighbours is cleared: then every metal pixel with 3 or more neighbours
/// is.
proof fn lemma_candidates_cleared(
    orig: ArtworkBitmap,
    bm: ArtworkBitmap,
    candidates: Seq<(u8, u32, u32)>,
    x0: int,
    y0: int,
    x1: int,
    y1: int,
)
    requires
        forall|k: int| 0 <= k < candidates.len() ==> (#[trigger] candidates[k]).0 == neighbor_count(
            orig,
            candidates[k].1 as int,
            candidates[k].2 as int,
        ),
        forall|x: int, y: int| x0 <= x < x1 && y0 <= y < y1 && #[trigger] orig.pixel(x, y) ==> cand_listed(
            candidates,
            x,
            y,
        ),
        forall|k: int| 0 <= k < candidates.len() && (#[trigger] candidates[k]).0 > 2
            ==> !bm.pixel(candidates[k].1 as int, candidates[k].2 as int),
    ensures
        forall|x: int, y: int|
            x0 <= x < x1 && y0 <= y < y1 && orig.pixel(x, y) && neighbor_count(orig, x, y) >= 3 ==> !#[trigger] bm.pixel(x, y),
{
    assert forall|x: int, y: int|
        x0 <= x < x1 && y0 <= y < y1 && orig.pixel(x, y) && neighbor_count(orig, x, y) >= 3 implies !#[trigger] bm.pixel(x, y) by {
        assert(cand_listed(candidates, x, y));
        let k = choose|k: int| 0 <= k < candidates.len() && (#[trigger] candidates[k]).1 == x && candidates[k].2 == y;
        assert(candidates[k].0 > 2);
    }
}

/// A window whose pixels with 3 or more neighbours were all cleared is thin.
proof fn lemma_cleared_thin(orig: ArtworkBitmap, bm: ArtworkBitmap, x0: int, y0: int, x1: int, y1: int)
    requires
        only_cleared(orig, bm),
        forall|x: int, y: int|
            x0 <= x < x1 && y0 <= y < y1 && orig.pixel(x, y) && neighbor_count(orig, x, y) >= 3 ==> !#[trigger] bm.pixel(x, y),
    ensures
        thin_rect(bm, x0, y0, x1, y1),
{
    assert forall|x: int, y: int| x0 <= x < x1 && y0 <= y < y1 && #[trigger] bm.pixel(x, y) implies neighbor_count(
        bm,
        x,
        y,
    ) < 3 by {
        assert(orig.pixel(x, y));
        lemma_neighbors_monotone(orig, bm, x, y);
    }
}

fn clear_interior(bitmap: &mut ArtworkBitmap, x0: u32, y0: u32, ww: u32, hh: u32, excess: u32) -> (removed: u32)
    requires
        old(bitmap).wf(),
        x0 + ww <= old(bitmap).width,
        y0 + hh <= old(bitmap).height,
    ensures
        final(bitmap).wf(),
        final(bitmap).width == old(bitmap).width,
        final(bitmap).height == old(bitmap).height,
        only_cleared(*old(bitmap), *final(bitmap)),
        thin_kept(*old(bitmap), *final(bitmap)),
        removed == count_on(old(bitmap)@) - count_on(final(bitmap)@),
        removed <= excess,
        forall|x: int, y: int|
            !(x0 <= x < x0 + ww && y0 <= y < y0 + hh) ==> #[trigger] final(bitmap).pixel(x, y)
                == old(bitmap).pixel(x, y),
        removed == 0 ==> final(bitmap)@ == old(bitmap)@,
        excess > 0 && removed == 0 ==> thin_rect(*old(bitmap), x0 as int, y0 as int, x0 + ww, y0 + hh),
        removed < excess ==> thin_rect(*final(bitmap), x0 as int, y0 as int, x0 + ww, y0 + hh),
        removed < excess ==> forall|x: int, y: int|
            x0 <= x < x0 + ww && y0 <= y < y0 + hh && old(bitmap).pixel(x, y) && neighbor_count(*old(bitmap), x, y)
                >= 3 ==> !#[trigger] final(bitmap).pixel(x, y),
        window_count(final(bitmap)@, final(bitmap).width as int, x0 as int, y0 as int, x0 + ww, y0 + hh) + removed
            == window_count(old(bitmap)@, old(bitmap).width as int, x0 as int, y0 as int, x0 + ww, y0 + hh),
{
    let ghost orig = *bitmap;
    let w = bitmap.width;
    let h = bitmap.height;
    let x1 = x0 + ww;
    let y1 = y0 + hh;
    proof {
        orig.lemma_view();
        crate::bits::lemma_count_bound(orig@, 0, orig@.len() as int);
        assert(y1 * w <= w * h) by (nonlinear_arith)
            requires
                y1 <= h,
                w >= 0,
        ;
    }
    // Collect the metal pixels with their neighbour counts.
    let mut candidates: Vec<(u8, u32, u32)> = Vec::new();
    let mut py = y0;
    while py < y1
        invariant
            bitmap.wf(),
            *bitmap == orig,
            w == bitmap.width,
            h == bitmap.height,
            y0 <= py <= y1,
            x1 == x0 + ww,
            y1 == y0 + hh,
            x1 <= w,
            y1 <= h,
            forall|k: int| 0 <= k < candidates@.len() ==> x0 <= (#[trigger] candidates@[k]).1 < x1
                && y0 <= candidates@[k].2 < y1,
            forall|k: int| 0 <= k < candidates@.len() ==> (#[trigger] candidates@[k]).0 == neighbor_count(
                orig,
                candidates@[k].1 as int,
                candidates@[k].2 as int,
            ) && orig.pixel(candidates@[k].1 as int, candidates@[k].2 as int),
            forall|x: int, y: int| x0 <= x < x1 && y0 <= y < py && #[trigger] orig.pixel(x, y) ==> cand_listed(
                candidates@,
                x,
                y,
            ),
        decreases y1 - py,
    {
        let mut px = x0;
        while px < x1
            invariant
                bitmap.wf(),
                *bitmap == orig,
                w == bitmap.width,
                h == bitmap.height,
                y0 <= py < y1,
                x0 <= px <= x1,
                x1 == x0 + ww,
                y1 == y0 + hh,
                x1 <= w,
                y1 <= h,
                forall|k: int| 0 <= k < candidates@.len() ==> x0 <= (#[trigger] candidates@[k]).1 < x1
                    && y0 <= candidates@[k].2 < y1,
                forall|k: int| 0 <= k < candidates@.len() ==> (#[trigger] candidates@[k]).0 == neighbor_count(
                    orig,
                    candidates@[k].1 as int,
                    candidates@[k].2 as int,
                ) && orig.pixel(candidates@[k].1 as int, candidates@[k].2 as int),
                forall|x: int, y: int| x0 <= x < x1 && (y0 <= y < py || (y == py && x < px)) && #[trigger] orig.pixel(x, y)
                    ==> cand_listed(candidates@, x, y),
            decreases x1 - px,
        {
            let ghost cbefore = candidates@;
            if bitmap.get(px, py) {
                let nb = count_neighbors(bitmap, px, py);
                candidates.push((nb, px, py));
            }
            proof {
                assert forall|x: int, y: int| x0 <= x < x1 && (y0 <= y < py || (y == py && x < px + 1)) && #[trigger] orig.pixel(x, y)
                    implies cand_listed(candidates@, x, y) by {
                    if y == py && x == px {
                        assert(candidates@[candidates@.len() - 1].1 == x);
                    } else {
                        assert(cand_listed(cbefore, x, y));
                        let k = choose|k: int| 0 <= k < cbefore.len() && (#[trigger] cbefore[k]).1 == x && cbefore[k].2 == y;
                        assert(candidates@[k] == cbefore[k]);
                    }
                }
            }
            px = px + 1;
        }
        py = py + 1;
    }
    proof {
        assert forall|k: int| 0 <= k < candidates@.len() implies (#[trigger] candidates@[k]).0 <= 8 by {
            assert(neighbor_count(orig, candidates@[k].1 as int, candidates@[k].2 as int) <= 8);
        }
    }
    // Highest neighbour count first; never below 3 neighbours.
    let mut removed = 0u32;
    let mut level = 8u8;
    while level >= 3 && removed < excess
        invariant
            bitmap.wf(),
            orig.wf(),
            w == bitmap.width,
            h == bitmap.height,
            w == orig.width,
            h == orig.height,
            x1 == x0 + ww,
            y1 == y0 + hh,
            x1 <= w,
            y1 <= h,
            2 <= level <= 8,
            removed <= excess,
            only_cleared(orig, *bitmap),
            thin_kept(orig, *bitmap),
            removed == count_on(orig@) - count_on(bitmap@),
            window_count(bitmap@, w as int, x0 as int, y0 as int, x1 as int, y1 as int) + removed
                == window_count(orig@, w as int, x0 as int, y0 as int, x1 as int, y1 as int),
            count_on(orig@) <= u32::MAX,
            forall|x: int, y: int|
                !(x0 <= x < x1 && y0 <= y < y1) ==> #[trigger] bitmap.pixel(x, y) == orig.pixel(x, y),
            removed == 0 ==> bitmap@ == orig@,
            removed == 0 ==> forall|k: int| 0 <= k < candidates@.len() ==> (#[trigger] candidates@[k]).0 <= level,
            removed < excess ==> forall|k: int| 0 <= k < candidates@.len() && (#[trigger] candidates@[k]).0 > level
                ==> !bitmap.pixel(candidates@[k].1 as int, candidates@[k].2 as int),
            forall|k: int| 0 <= k < candidates@.len() ==> x0 <= (#[trigger] candidates@[k]).1 < x1
                && y0 <= candidates@[k].2 < y1,
            forall|k: int| 0 <= k < candidates@.len() ==> (#[trigger] candidates@[k]).0 == neighbor_count(
                orig,
                candidates@[k].1 as int,
                candidates@[k].2 as int,
            ) && orig.pixel(candidates@[k].1 as int, candidates@[k].2 as int),
            forall|x: int, y: int| x0 <= x < x1 && y0 <= y < y1 && #[trigger] orig.pixel(x, y) ==> cand_listed(
                candidates@,
                x,
                y,
            ),
        decreases level,
    {
        let mut ci: usize = 0;
        while ci < candidates.len() && removed < excess
            invariant
                3 <= level <= 8,
                bitmap.wf(),
                orig.wf(),
                w == bitmap.width,
                h == bitmap.height,
                w == orig.width,
                h == orig.height,
                x1 == x0 + ww,
                y1 == y0 + hh,
                x1 <= w,
                y1 <= h,
                ci <= candidates@.len(),
                removed <= excess,
                only_cleared(orig, *bitmap),
                thin_kept(orig, *bitmap),
                removed == count_on(orig@) - count_on(bitmap@),
            window_count(bitmap@, w as int, x0 as int, y0 as int, x1 as int, y1 as int) + removed
                == window_count(orig@, w as int, x0 as int, y0 as int, x1 as int, y1 as int),
                count_on(orig@) <= u32::MAX,
                forall|x: int, y: int|
                    !(x0 <= x < x1 && y0 <= y < y1) ==> #[trigger] bitmap.pixel(x, y) == orig.pixel(x, y),
                removed == 0 ==> bitmap@ == orig@,
                removed == 0 ==> forall|k: int| 0 <= k < candidates@.len() ==> (#[trigger] candidates@[k]).0 <= level,
                removed == 0 ==> forall|k: int| 0 <= k < ci ==> (#[trigger] candidates@[k]).0 != level,
                removed < excess ==> forall|k: int| 0 <= k < candidates@.len() && (#[trigger] candidates@[k]).0 > level
                    ==> !bitmap.pixel(candidates@[k].1 as int, candidates@[k].2 as int),
                removed < excess ==> forall|k: int| 0 <= k < ci && (#[trigger] candidates@[k]).0 == level
                    ==> !bitmap.pixel(candidates@[k].1 as int, candidates@[k].2 as int),
                forall|k: int| 0 <= k < candidates@.len() ==> x0 <= (#[trigger] candidates@[k]).1 < x1
                    && y0 <= candidates@[k].2 < y1,
                forall|k: int| 0 <= k < candidates@.len() ==> (#[trigger] candidates@[k]).0 == neighbor_count(
                    orig,
                    candidates@[k].1 as int,
                    candidates@[k].2 as int,
                ) && orig.pixel(candidates@[k].1 as int, candidates@[k].2 as int),
                forall|x: int, y: int| x0 <= x < x1 && y0 <= y < y1 && #[trigger] orig.pixel(x, y) ==> cand_listed(
                    candidates@,
                    x,
                    y,
                ),
            decreases candidates@.len() - ci,
        {
            let (nb, px, py) = candidates[ci];
            if nb == level && bitmap.get(px, py) {
                let ghost before = *bitmap;
                proof {
                    before.lemma_index(px as int, py as int);
                    before.lemma_view();
                }
                bitmap.set(px, py, false);
                proof {
                    let i = py * w + px;
                    lemma_count_clear(before@, i);
                    assert(y1 * w <= w * h) by (nonlinear_arith)
                        requires
                            y1 <= h,
                            w >= 0,
                    ;
                    lemma_window_clear(before@, w as int, px as int, py as int, x0 as int, y0 as int, x1 as int, y1 as int);
                    assert(neighbor_count(orig, px as int, py as int) >= 3);
                    assert forall|x: int, y: int| orig.pixel(x, y) && !#[trigger] bitmap.pixel(x, y) implies neighbor_count(orig, x, y) >= 3 by {
                        if !(x == px && y == py) && 0 <= x < w && 0 <= y < h {
                            before.lemma_index(x, y);
                            crate::polygon::lemma_cell_bound(w as int, h as int, x, y);
                            if y * w + x == i {
                                crate::polygon::lemma_cell_unique(w as int, x, y, px as int, py as int);
                            }
                            assert(before.pixel(x, y) == bitmap.pixel(x, y));
                        }
                    }
                    assert forall|x: int, y: int| #[trigger] bitmap.pixel(x, y) implies before.pixel(x, y) by {
                        if 0 <= x < w && 0 <= y < h {
                            before.lemma_index(x, y);
                        }
                    }
                    assert forall|x: int, y: int| !(x0 <= x < x1 && y0 <= y < y1) implies #[trigger] bitmap.pixel(x, y) == orig.pixel(x, y) by {
                        if 0 <= x < w && 0 <= y < h {
                            before.lemma_index(x, y);
                            crate::polygon::lemma_cell_bound(w as int, h as int, x, y);
                            if y * w + x == i {
                                crate::polygon::lemma_cell_unique(w as int, x, y, px as int, py as int);
                            }
                            assert(before.pixel(x, y) == orig.pixel(x, y));
                        }
                    }
                }
                removed = removed + 1;
            }
            proof {
                if removed == 0 && nb == level {
                    assert(orig.pixel(px as int, py as int));
                    assert(bitmap.pixel(px as int, py as int));
                }
            }
            ci = ci + 1;
        }
        proof {
            if removed < excess {
                assert(ci == candidates@.len());
            }
        }
        level = level - 1;
    }
    proof {
        if excess > 0 && removed == 0 {
            assert(level == 2);
            assert forall|x: int, y: int| x0 <= x < x1 && y0 <= y < y1 && #[trigger] orig.pixel(x, y) implies neighbor_count(
                orig,
                x,
                y,
            ) < 3 by {
                assert(cand_listed(candidates@, x, y));
                let k = choose|k: int| 0 <= k < candidates@.len() && (#[trigger] candidates@[k]).1 == x && candidates@[k].2 == y;
                assert(candidates@[k].0 <= 2);
            }
        }
        if removed < excess {
            lemma_candidates_cleared(orig, *bitmap, candidates@, x0 as int, y0 as int, x1 as int, y1 as int);
            lemma_cleared_thin(orig, *bitmap, x0 as int, y0 as int, x1 as int, y1 as int);
        }
    }
    removed
}

/// Enforce a maximum pixel count per density window by clearing interior
/// pixels in dense windows.
///
/// Windows are `window_pixels` square and placed every half window (at least
/// one pixel) on both axes. A pass counts every window with a summed-area
/// table, visits the windows holding more than `max_count` metal pixels
/// worst first, and in each one clears up to the excess, taking the pixels
/// with the most metal neighbours first and never one with fewer than 3.
/// Passes repeat until no window exceeds the count, a pass clears nothing,
/// or 20 passes have run. A window still over the count after its visit has
/// no metal pixel left with 3 or more metal neighbours, so after the first
/// full pass every window of the grid is within the count or thin, and only
/// pixels of windows that were over the count are cleared. A thin window
/// holds at most `3 * ceil(win / 2)^2` metal pixels, so every window ends
/// within any count at least that large. Returns the number of pixels
/// cleared.
pub fn enforce_density_count(bitmap: &mut ArtworkBitmap, max_count: u32, window_pixels: u32) -> (r: usize)
    requires
        old(bitmap).wf(),
        old(bitmap).width < u32::MAX,
        (old(bitmap).width + 1) * (old(bitmap).height + 1) <= usize::MAX,
    ensures
        final(bitmap).wf(),
        only_cleared(*old(bitmap), *final(bitmap)),
        thin_kept(*old(bitmap), *final(bitmap)),
        r == count_on(old(bitmap)@) - count_on(final(bitmap)@),
        (window_pixels == 0 || density_ok(*old(bitmap), max_count as int, window_pixels as int))
            ==> final(bitmap)@ == old(bitmap)@,
        window_pixels == 0 || windows_stuck(*final(bitmap), max_count as int, window_pixels as int),
        window_pixels > 0 && 3 * ((window_pixels + 1) / 2) * ((window_pixels + 1) / 2) <= max_count
            ==> density_ok(*final(bitmap), max_count as int, window_pixels as int),
        window_pixels > 0 && 3 * ((window_pixels + 1) / 2) * ((window_pixels + 1) / 2) <= max_count
            ==> forall|wx: int, wy: int|
            0 <= wx && 0 <= wy && wx + window_pixels <= final(bitmap).width && wy + window_pixels <= final(bitmap).height
                && (window_pixels == 1 || (wx % (window_pixels as int / 2) == 0 && wy % (window_pixels as int / 2) == 0))
                ==> #[trigger] window_count(
                final(bitmap)@,
                final(bitmap).width as int,
                wx,
                wy,
                wx + window_pixels,
                wy + window_pixels,
            ) <= max_count,
        cleared_in_dense(*old(bitmap), *final(bitmap), max_count as int, window_pixels as int),
        exists|s: Seq<ArtworkBitmap>|
            #[trigger] density_visits(s, max_count as int, window_pixels as int) && s[0] == *old(bitmap) && s.last()
                == *final(bitmap),
{
    if window_pixels == 0 {
        proof {
            assert(density_visits(seq![*bitmap], max_count as int, window_pixels as int));
        }
        return 0;
    }
    let ghost orig = *bitmap;
    let ghost mut visits: Seq<ArtworkBitmap> = seq![orig];
    proof {
        assert(density_visits(visits, max_count as int, window_pixels as int));
    }
    let w = bitmap.width;
    let h = bitmap.height;
    let win = window_pixels;
    let step = if win / 2 > 1 {
        win / 2
    } else {
        1
    };
    let mut total_cleared = 0usize;
    let max_iters = 20u32;
    proof {
        orig.lemma_view();
        crate::bits::lemma_count_bound(orig@, 0, orig@.len() as int);
        assert(0 <= (w + 1) * (h + 1)) by (nonlinear_arith);
    }

    // Pre-allocate SAT buffer and reuse across iterations
    let stride = (w + 1) as usize;
    proof {
        assert(stride * (h + 1) == (w + 1) * (h + 1));
        assert(h + 1 <= usize::MAX) by (nonlinear_arith)
            requires
                (w + 1) * (h + 1) <= usize::MAX,
                w >= 0,
        ;
    }
    let sat_len = stride * (h as usize + 1);
    let mut sat: Vec<u32> = Vec::new();
    let mut k: usize = 0;
    while k < sat_len
        invariant
            k <= sat_len,
            sat@.len() == k,
            forall|m: int| 0 <= m < k ==> sat@[m] == 0u32,
        decreases sat_len - k,
    {
        sat.push(0u32);
        k = k + 1;
    }
    let mut min_dirty_y = 0u32;
    proof {
        assert forall|x: int, y: int| 0 <= x <= w && 0 <= y <= 0 implies #[trigger] sat@[y * (w + 1) + x] == window_count(bitmap@, bitmap.width as int, 0, 0, x, y) by {
            assert(y * (w + 1) + x == x) by (nonlinear_arith) requires y == 0;
            assert(x < (w + 1) * (h + 1)) by (nonlinear_arith) requires x <= w, h >= 0;
        }
        assert forall|y: int| 0 <= y <= h implies #[trigger] sat@[y * (w + 1)] == 0u32 by {
            assert(0 <= y * (w + 1) < (w + 1) * (h + 1)) by (nonlinear_arith) requires 0 <= y <= h, w >= 0;
        }
    }

    let mut iter = 0u32;
    let mut done = false;
    while iter < max_iters && !done
        invariant
            bitmap.wf(),
            only_cleared(orig, *bitmap),
            thin_kept(orig, *bitmap),
            w == bitmap.width,
            h == bitmap.height,
            w < u32::MAX,
            (w + 1) * (h + 1) <= usize::MAX,
            win == window_pixels,
            win > 0,
            step == window_step(win as int),
            min_dirty_y <= h,
            sat_valid_upto(*bitmap, w as int, h as int, sat@, min_dirty_y as int),
            total_cleared == count_on(orig@) - count_on(bitmap@),
            count_on(orig@) <= u32::MAX,
            density_ok(orig, max_count as int, win as int) ==> bitmap@ == orig@ && iter == 0,
            iter == 0 && !done ==> bitmap@ == orig@ && min_dirty_y == 0,
            total_cleared >= iter,
            iter <= max_iters,
            max_iters == 20,
            done || iter > 0 ==> windows_stuck(*bitmap, max_count as int, win as int),
            cleared_in_dense(orig, *bitmap, max_count as int, win as int),
            orig.width == w,
            orig.height == h,
            density_visits(visits, max_count as int, win as int),
            visits[0] == orig,
            visits.last() == *bitmap,
        decreases max_iters - iter, if done { 0int } else { 1int },
    {
        // Incremental SAT rebuild: only recompute from min_dirty_y
        build_sat_from(bitmap, w, h, sat.as_mut_slice(), min_dirty_y);

        // Find violating windows
        let mut violations: Vec<(u32, u32, u32)> = Vec::new();
        let mut wx = 0u32;
        while wx as u64 + win as u64 <= w as u64
            invariant
                bitmap.wf(),
                w == bitmap.width,
                h == bitmap.height,
                w < u32::MAX,
                (w + 1) * (h + 1) <= usize::MAX,
                win == window_pixels,
                win > 0,
                step == window_step(win as int),
                is_sat(*bitmap, w as int, h as int, sat@),
                wx % step == 0,
                wx <= w,
                forall|k: int| 0 <= k < violations@.len() ==> (#[trigger] violations@[k]).1 + win <= w
                    && violations@[k].2 + win <= h,
                forall|k: int| 0 <= k < violations@.len() ==> on_window_grid(*bitmap, win as int, (#[trigger] violations@[k]).1 as int, violations@[k].2 as int)
                    && window_count(bitmap@, w as int, violations@[k].1 as int, violations@[k].2 as int, violations@[k].1 + win, violations@[k].2 + win) > max_count,
                violations@.len() == 0 ==> forall|vx: int, vy: int| vx < wx && #[trigger] on_window_grid(*bitmap, win as int, vx, vy) ==> window_count(
                    bitmap@, w as int, vx, vy, vx + win, vy + win) <= max_count,
                forall|vx: int, vy: int| vx < wx && #[trigger] on_window_grid(*bitmap, win as int, vx, vy) && window_count(
                    bitmap@, w as int, vx, vy, vx + win, vy + win) > max_count ==> listed(violations@, vx, vy),
            decreases w - wx,
        {
            let mut wy = 0u32;
            while wy as u64 + win as u64 <= h as u64
                invariant
                    bitmap.wf(),
                    w == bitmap.width,
                    h == bitmap.height,
                    w < u32::MAX,
                    (w + 1) * (h + 1) <= usize::MAX,
                    win == window_pixels,
                    win > 0,
                    step == window_step(win as int),
                    is_sat(*bitmap, w as int, h as int, sat@),
                    wx % step == 0,
                    wx + win <= w,
                    wy % step == 0,
                    wy <= h,
                    forall|k: int| 0 <= k < violations@.len() ==> (#[trigger] violations@[k]).1 + win <= w
                        && violations@[k].2 + win <= h,
                    forall|k: int| 0 <= k < violations@.len() ==> on_window_grid(*bitmap, win as int, (#[trigger] violations@[k]).1 as int, violations@[k].2 as int)
                        && window_count(bitmap@, w as int, violations@[k].1 as int, violations@[k].2 as int, violations@[k].1 + win, violations@[k].2 + win) > max_count,
                    violations@.len() == 0 ==> forall|vx: int, vy: int| (vx < wx || (vx == wx && vy < wy)) && #[trigger] on_window_grid(*bitmap, win as int, vx, vy) ==> window_count(
                        bitmap@, w as int, vx, vy, vx + win, vy + win) <= max_count,
                    forall|vx: int, vy: int| (vx < wx || (vx == wx && vy < wy)) && #[trigger] on_window_grid(*bitmap, win as int, vx, vy) && window_count(
                        bitmap@, w as int, vx, vy, vx + win, vy + win) > max_count ==> listed(violations@, vx, vy),
                decreases h - wy,
            {
                let count = sat_query(sat.as_slice(), w, wx, wy, wx + win, wy + win, Ghost(*bitmap), Ghost(h as int));
                let ghost vbefore = violations@;
                if count > max_count {
                    violations.push((count, wx, wy));
                }
                proof {
                    assert forall|vx: int, vy: int| (vx < wx || (vx == wx && vy < wy + step)) && #[trigger] on_window_grid(*bitmap, win as int, vx, vy) && window_count(
                        bitmap@, w as int, vx, vy, vx + win, vy + win) > max_count implies listed(violations@, vx, vy) by {
                        if vx == wx && vy >= wy {
                            let st = step as int;
                            let wyi = wy as int;
                            assert(vy == wyi) by (nonlinear_arith)
                                requires
                                    vy % st == 0,
                                    wyi % st == 0,
                                    wyi <= vy < wyi + st,
                                    st > 0,
                            ;
                            assert(violations@[violations@.len() - 1].1 == vx);
                        } else {
                            assert(listed(vbefore, vx, vy));
                            let k = choose|k: int| 0 <= k < vbefore.len() && (#[trigger] vbefore[k]).1 == vx && vbefore[k].2 == vy;
                            assert(violations@[k] == vbefore[k]);
                        }
                    }
                }
                proof {
                    assert forall|vx: int, vy: int| (vx < wx || (vx == wx && vy < wy + step)) && #[trigger] on_window_grid(*bitmap, win as int, vx, vy) && violations@.len() == 0 implies window_count(
                        bitmap@, w as int, vx, vy, vx + win, vy + win) <= max_count by {
                        if vx == wx && vy >= wy {
                            let st = step as int;
                            let wyi = wy as int;
                            assert(vy == wyi) by (nonlinear_arith)
                                requires
                                    vy % st == 0,
                                    wyi % st == 0,
                                    wyi <= vy < wyi + st,
                                    st > 0,
                            ;
                        }
                    }
                }
                proof {
                    let st = step as int;
                    let wyi = wy as int;
                    assert((wyi + st) % st == 0) by (nonlinear_arith)
                        requires
                            wyi % st == 0,
                            st > 0,
                    ;
                }
                wy = wy + step;
            }
            proof {
                assert forall|vx: int, vy: int| (vx < wx + step) && #[trigger] on_window_grid(*bitmap, win as int, vx, vy) && window_count(
                    bitmap@, w as int, vx, vy, vx + win, vy + win) > max_count implies listed(violations@, vx, vy) by {
                    if vx >= wx {
                        let st = step as int;
                        let wxi = wx as int;
                        assert(vx == wxi) by (nonlinear_arith)
                            requires
                                vx % st == 0,
                                wxi % st == 0,
                                wxi <= vx < wxi + st,
                                st > 0,
                        ;
                    }
                }
            }
            proof {
                assert forall|vx: int, vy: int| (vx < wx + step) && #[trigger] on_window_grid(*bitmap, win as int, vx, vy) && violations@.len() == 0 implies window_count(
                    bitmap@, w as int, vx, vy, vx + win, vy + win) <= max_count by {
                    if vx >= wx {
                        let st = step as int;
                        let wxi = wx as int;
                        assert(vx == wxi) by (nonlinear_arith)
                            requires
                                vx % st == 0,
                                wxi % st == 0,
                                wxi <= vx < wxi + st,
                                st > 0,
                        ;
                    }
                }
            }
            proof {
                let st = step as int;
                let wxi = wx as int;
                assert((wxi + st) % st == 0) by (nonlinear_arith)
                    requires
                        wxi % st == 0,
                        st > 0,
                ;
            }
            wx = wx + step;
        }

        proof {
            lemma_sat_full(*bitmap, w as int, h as int, sat@, min_dirty_y as int);
            if violations@.len() > 0 {
                let v0 = violations@[0];
                assert(on_window_grid(*bitmap, win as int, v0.1 as int, v0.2 as int));
                assert(!density_ok(*bitmap, max_count as int, win as int));
                if density_ok(orig, max_count as int, win as int) {
                    assert(on_window_grid(orig, win as int, v0.1 as int, v0.2 as int));
                    assert(bitmap@ == orig@);
                }
            }
        }
        proof {
            assert forall|vx: int, vy: int| #[trigger] on_window_grid(*bitmap, win as int, vx, vy) && window_count(
                bitmap@, w as int, vx, vy, vx + win, vy + win) > max_count implies listed(violations@, vx, vy) by {
                assert(vx < wx);
            }
        }
        if violations.len() == 0 {
            proof {
                assert forall|vx: int, vy: int| #[trigger] on_window_grid(*bitmap, win as int, vx, vy) implies window_count(
                    bitmap@, w as int, vx, vy, vx + win, vy + win) <= max_count by {
                    if window_count(bitmap@, w as int, vx, vy, vx + win, vy + win) > max_count {
                        assert(listed(violations@, vx, vy));
                    }
                }
            }
            done = true;
        } else {
        // Sort worst-first (highest density)
        let ghost unsorted = violations@;
        sort_worst_first(&mut violations);
        proof {
            assert forall|vx: int, vy: int| #[trigger] on_window_grid(*bitmap, win as int, vx, vy) && window_count(
                bitmap@, w as int, vx, vy, vx + win, vy + win) > max_count implies listed(violations@, vx, vy) by {
                assert(listed(unsorted, vx, vy));
                let k = choose|k: int| 0 <= k < unsorted.len() && (#[trigger] unsorted[k]).1 == vx && unsorted[k].2 == vy;
                assert(violations@.contains(unsorted[k]));
                let m = choose|m: int| 0 <= m < violations@.len() && violations@[m] == unsorted[k];
                assert(violations@[m].1 == vx);
            }
            assert forall|k: int| 0 <= k < violations@.len() implies on_window_grid(*bitmap, win as int, (#[trigger] violations@[k]).1 as int, violations@[k].2 as int)
                && window_count(bitmap@, w as int, violations@[k].1 as int, violations@[k].2 as int, violations@[k].1 + win, violations@[k].2 + win) > max_count by {
                assert(unsorted.contains(violations@[k]));
            }
        }

        let mut cleared_this_iter = 0usize;
        proof {
            lemma_sat_full(*bitmap, w as int, h as int, sat@, h as int);
        }
        min_dirty_y = h;
        let ghost pass_start = *bitmap;
        let mut vi: usize = 0;
        while vi < violations.len()
            invariant
                bitmap.wf(),
                only_cleared(orig, *bitmap),
            thin_kept(orig, *bitmap),
                only_cleared(pass_start, *bitmap),
                w == bitmap.width,
                h == bitmap.height,
                w < u32::MAX,
                (w + 1) * (h + 1) <= usize::MAX,
                win == window_pixels,
                win > 0,
                min_dirty_y <= h,
                sat_valid_upto(*bitmap, w as int, h as int, sat@, min_dirty_y as int),
                forall|k: int| 0 <= k < violations@.len() ==> (#[trigger] violations@[k]).1 + win <= w
                    && violations@[k].2 + win <= h,
                total_cleared + cleared_this_iter == count_on(orig@) - count_on(bitmap@),
                cleared_this_iter == count_on(pass_start@) - count_on(bitmap@),
                count_on(orig@) <= u32::MAX,
                cleared_this_iter == 0 ==> bitmap@ == pass_start@,
                pass_start.wf(),
                pass_start.width == w,
                pass_start.height == h,
                0 <= vi <= violations@.len(),
                forall|vx: int, vy: int| #[trigger] on_window_grid(pass_start, win as int, vx, vy) && window_count(
                    pass_start@, w as int, vx, vy, vx + win, vy + win) > max_count ==> listed(violations@, vx, vy),
                cleared_this_iter == 0 ==> forall|k: int| 0 <= k < vi ==> thin_rect(
                    pass_start,
                    (#[trigger] violations@[k]).1 as int,
                    violations@[k].2 as int,
                    violations@[k].1 + win,
                    violations@[k].2 + win,
                ) || window_count(
                    pass_start@,
                    w as int,
                    violations@[k].1 as int,
                    violations@[k].2 as int,
                    violations@[k].1 + win,
                    violations@[k].2 + win,
                ) <= max_count,
                cleared_in_dense(orig, *bitmap, max_count as int, win as int),
                orig.width == w,
                orig.height == h,
                density_visits(visits, max_count as int, win as int),
                visits[0] == orig,
                visits.last() == *bitmap,
                only_cleared(orig, pass_start),
                forall|k: int| 0 <= k < violations@.len() ==> on_window_grid(pass_start, win as int, (#[trigger] violations@[k]).1 as int, violations@[k].2 as int)
                    && window_count(pass_start@, w as int, violations@[k].1 as int, violations@[k].2 as int, violations@[k].1 + win, violations@[k].2 + win) > max_count,
                forall|k: int| 0 <= k < vi ==> window_count(
                    bitmap@,
                    w as int,
                    (#[trigger] violations@[k]).1 as int,
                    violations@[k].2 as int,
                    violations@[k].1 + win,
                    violations@[k].2 + win,
                ) <= max_count || thin_rect(
                    *bitmap,
                    violations@[k].1 as int,
                    violations@[k].2 as int,
                    violations@[k].1 + win,
                    violations@[k].2 + win,
                ),
            decreases violations@.len() - vi,
        {
            let (_count, vx, vy) = violations[vi];
            proof {
                assert((vy + win - 1) * w + vx + win <= w * h) by (nonlinear_arith)
                    requires
                        vy + win <= h,
                        vx + win <= w,
                        win > 0,
                ;
            }
            // Recount since previous removals in this pass may have helped
            let current = count_on_in_window(bitmap, vx, vy, win, win);
            if current <= max_count {
                vi = vi + 1;
                continue;
            }
            let excess = current - max_count;
            let ghost before = *bitmap;
            let removed = clear_interior(bitmap, vx, vy, win, win, excess);
            proof {
                assert(on_window_grid(before, win as int, vx as int, vy as int));
                assert(window_visit(before, *bitmap, vx as int, vy as int, vx + win, vy + win, max_count as int));
                assert(grid_visit(before, *bitmap, max_count as int, win as int));
                let next = visits.push(*bitmap);
                assert forall|k: int| 0 <= k < next.len() - 1 implies #[trigger] grid_visit(
                    next[k],
                    next[k + 1],
                    max_count as int,
                    win as int,
                ) by {
                    if k < next.len() - 2 {
                        assert(next[k] == visits[k] && next[k + 1] == visits[k + 1]);
                        assert(grid_visit(visits[k], visits[k + 1], max_count as int, win as int));
                    }
                }
                visits = next;
            }
            proof {
                lemma_thinning_compose(orig, before, *bitmap);
                assert forall|k: int| 0 <= k < vi + 1 implies window_count(
                    bitmap@,
                    w as int,
                    (#[trigger] violations@[k]).1 as int,
                    violations@[k].2 as int,
                    violations@[k].1 + win,
                    violations@[k].2 + win,
                ) <= max_count || thin_rect(
                    *bitmap,
                    violations@[k].1 as int,
                    violations@[k].2 as int,
                    violations@[k].1 + win,
                    violations@[k].2 + win,
                ) by {
                    if k < vi {
                        let (_c, kx, ky) = violations@[k];
                        assert(kx + win <= w && ky + win <= h);
                        lemma_window_mono(before, *bitmap, kx as int, ky as int, kx + win, ky + win);
                        if thin_rect(before, kx as int, ky as int, kx + win, ky + win) {
                            lemma_thin_mono(before, *bitmap, kx as int, ky as int, kx + win, ky + win);
                        }
                    }
                }
                assert forall|x: int, y: int| #[trigger] bitmap.pixel(x, y) implies pass_start.pixel(x, y) by {
                    assert(before.pixel(x, y));
                }
                assert forall|x: int, y: int| orig.pixel(x, y) && !#[trigger] bitmap.pixel(x, y) implies in_dense_window(
                    orig,
                    max_count as int,
                    win as int,
                    x,
                    y,
                ) by {
                    if before.pixel(x, y) {
                        assert(vx <= x < vx + win && vy <= y < vy + win);
                        lemma_window_mono(orig, pass_start, vx as int, vy as int, vx + win, vy + win);
                        assert(on_window_grid(orig, win as int, vx as int, vy as int));
                    }
                }
                if removed > 0 {
                    assert forall|x: int, y: int| y < vy implies #[trigger] before.pixel(x, y) == bitmap.pixel(x, y) by {}
                    lemma_sat_after_clear(before, *bitmap, sat@, min_dirty_y as int, vy as int);
                } else {
                    if cleared_this_iter == 0 {
                        lemma_thin_same(before, pass_start, vx as int, vy as int, vx + win, vy + win);
                    }
                }
            }
            if removed > 0 && vy < min_dirty_y {
                min_dirty_y = vy;
            }
            cleared_this_iter = cleared_this_iter + removed as usize;
            vi = vi + 1;
        }

        proof {
            assert forall|wx: int, wy: int|
                #[trigger] on_window_grid(*bitmap, win as int, wx, wy) && window_count(
                    bitmap@,
                    bitmap.width as int,
                    wx,
                    wy,
                    wx + win,
                    wy + win,
                ) > max_count implies thin_rect(*bitmap, wx, wy, wx + win, wy + win) by {
                lemma_window_mono(pass_start, *bitmap, wx, wy, wx + win, wy + win);
                assert(on_window_grid(pass_start, win as int, wx, wy));
                assert(listed(violations@, wx, wy));
                let k = choose|k: int| 0 <= k < violations@.len() && (#[trigger] violations@[k]).1 == wx && violations@[k].2 == wy;
                assert(window_count(
                    bitmap@,
                    w as int,
                    violations@[k].1 as int,
                    violations@[k].2 as int,
                    violations@[k].1 + win,
                    violations@[k].2 + win,
                ) <= max_count || thin_rect(
                    *bitmap,
                    violations@[k].1 as int,
                    violations@[k].2 as int,
                    violations@[k].1 + win,
                    violations@[k].2 + win,
                ));
            }
        }
        total_cleared = total_cleared + cleared_this_iter;
        if cleared_this_iter == 0 {
            // No progress possible (all remaining pixels have < 3 neighbors)
            proof {
                assert forall|wx: int, wy: int|
                    #[trigger] on_window_grid(pass_start, win as int, wx, wy) && window_count(
                        pass_start@,
                        pass_start.width as int,
                        wx,
                        wy,
                        wx + win,
                        wy + win,
                    ) > max_count implies thin_rect(pass_start, wx, wy, wx + win, wy + win) by {
                    assert(listed(violations@, wx, wy));
                    let k = choose|k: int| 0 <= k < violations@.len() && (#[trigger] violations@[k]).1 == wx && violations@[k].2 == wy;
                    assert(thin_rect(pass_start, violations@[k].1 as int, violations@[k].2 as int, violations@[k].1 + win, violations@[k].2 + win) || window_count(
                        pass_start@,
                        w as int,
                        violations@[k].1 as int,
                        violations@[k].2 as int,
                        violations@[k].1 + win,
                        violations@[k].2 + win,
                    ) <= max_count);
                }
                assert(windows_stuck(pass_start, max_count as int, win as int));
                lemma_stuck_same(pass_start, *bitmap, max_count as int, win as int);
            }
            done = true;
        } else {
            iter = iter + 1;
        }
        }
    }
    proof {
        if 3 * ((window_pixels + 1) / 2) * ((window_pixels + 1) / 2) <= max_count {
            lemma_stuck_meets_limit(*bitmap, max_count as int, win as int);
            assert forall|wx: int, wy: int|
                0 <= wx && 0 <= wy && wx + window_pixels <= bitmap.width && wy + window_pixels <= bitmap.height
                    && (window_pixels == 1 || (wx % (window_pixels as int / 2) == 0 && wy % (window_pixels as int / 2) == 0))
                    implies #[trigger] window_count(
                    bitmap@,
                    bitmap.width as int,
                    wx,
                    wy,
                    wx + window_pixels,
                    wy + window_pixels,
                ) <= max_count by {
                law_density_half_window_grid(*bitmap, max_count as int, win as int, wx, wy);
            }
        }
    }
    total_cleared
}

/// Clamp the region at `(region_x, region_y)` of `region_w x region_h`
/// pixels to a `width x height` bitmap: `(x0, y0, w, h)` of the part inside.
pub fn clamp_region(width: u32, height: u32, region_x: u32, region_y: u32, region_w: u32, region_h: u32) -> (r: (u32, u32, u32, u32))
    ensures
        ({
            let x1 = min_int(region_x + region_w, width as int);
            let y1 = min_int(region_y + region_h, height as int);
            let x0 = min_int(region_x as int, x1);
            let y0 = min_int(region_y as int, y1);
            r == (x0 as u32, y0 as u32, (x1 - x0) as u32, (y1 - y0) as u32)
        }),
        r.0 + r.2 <= width,
        r.1 + r.3 <= height,
{
    let rx1 = if region_x as u64 + region_w as u64 <= width as u64 {
        region_x + region_w
    } else {
        width
    };
    let ry1 = if region_y as u64 + region_h as u64 <= height as u64 {
        region_y + region_h
    } else {
        height
    };
    let rx0 = if region_x <= rx1 {
        region_x
    } else {
        rx1
    };
    let ry0 = if region_y <= ry1 {
        region_y
    } else {
        ry1
    };
    (rx0, ry0, rx1 - rx0, ry1 - ry0)
}

pub open spec fn min_int(a: int, b: int) -> int {
    if a <= b {
        a
    } else {
        b
    }
}

/// Enforce a maximum pixel count in one region of the bitmap: while the
/// region holds more than `max_count` metal pixels (for at most 10 passes),
/// clear up to the excess, taking the pixels with the most metal neighbours
/// first and never one with fewer than 3; stop when a pass clears nothing.
/// After the first pass the region is within the count or has no metal
/// pixel left with 3 or more metal neighbours, and so within any count of
/// at least `3 * ceil(w / 2) * ceil(h / 2)`. Returns the number of pixels
/// cleared.
pub fn enforce_density_region_count(
    bitmap: &mut ArtworkBitmap,
    max_count: u32,
    rx0: u32,
    ry0: u32,
    rw: u32,
    rh: u32,
) -> (r: usize)
    requires
        old(bitmap).wf(),
        rx0 + rw <= old(bitmap).width,
        ry0 + rh <= old(bitmap).height,
    ensures
        final(bitmap).wf(),
        only_cleared(*old(bitmap), *final(bitmap)),
        thin_kept(*old(bitmap), *final(bitmap)),
        r == count_on(old(bitmap)@) - count_on(final(bitmap)@),
        forall|x: int, y: int|
            !(rx0 <= x < rx0 + rw && ry0 <= y < ry0 + rh) ==> #[trigger] final(bitmap).pixel(x, y)
                == old(bitmap).pixel(x, y),
        window_count(old(bitmap)@, old(bitmap).width as int, rx0 as int, ry0 as int, rx0 + rw, ry0 + rh)
            <= max_count ==> final(bitmap)@ == old(bitmap)@,
        window_count(final(bitmap)@, final(bitmap).width as int, rx0 as int, ry0 as int, rx0 + rw, ry0 + rh)
            <= max_count || thin_rect(*final(bitmap), rx0 as int, ry0 as int, rx0 + rw, ry0 + rh),
        region_thinned(*old(bitmap), *final(bitmap), rx0 as int, ry0 as int, rx0 + rw, ry0 + rh, max_count as int),
        window_count(final(bitmap)@, final(bitmap).width as int, rx0 as int, ry0 as int, rx0 + rw, ry0 + rh)
            >= min_int(
            window_count(old(bitmap)@, old(bitmap).width as int, rx0 as int, ry0 as int, rx0 + rw, ry0 + rh) as int,
            max_count as int,
        ),
        window_count(final(bitmap)@, final(bitmap).width as int, rx0 as int, ry0 as int, rx0 + rw, ry0 + rh)
            > max_count ==> forall|x: int, y: int|
            rx0 <= x < rx0 + rw && ry0 <= y < ry0 + rh && old(bitmap).pixel(x, y) && neighbor_count(*old(bitmap), x, y)
                >= 3 ==> !#[trigger] final(bitmap).pixel(x, y),
        3 * ((rw + 1) / 2) * ((rh + 1) / 2) <= max_count ==> window_count(
            final(bitmap)@,
            final(bitmap).width as int,
            rx0 as int,
            ry0 as int,
            rx0 + rw,
            ry0 + rh,
        ) <= max_count,
{
    if rw == 0 || rh == 0 {
        proof {
            crate::artwork::lemma_window_empty_cols(bitmap@, bitmap.width as int, rx0 as int, ry0 as int, ry0 + rh);
        }
        return 0;
    }
    let ghost orig = *bitmap;
    let rx1 = rx0 + rw;
    let ry1 = ry0 + rh;
    let w = bitmap.width;
    let h = bitmap.height;
    let mut total_cleared = 0usize;
    proof {
        orig.lemma_view();
        crate::bits::lemma_count_bound(orig@, 0, orig@.len() as int);
        assert((ry0 + rh - 1) * w + rx0 + rw <= w * h) by (nonlinear_arith)
            requires
                ry0 + rh <= h,
                rx0 + rw <= w,
                rh > 0,
        ;
    }
    let mut iter = 0u32;
    let mut done = false;
    while iter < 10 && !done
        invariant
            bitmap.wf(),
            only_cleared(orig, *bitmap),
            thin_kept(orig, *bitmap),
            w == bitmap.width,
            h == bitmap.height,
            rx1 == rx0 + rw,
            ry1 == ry0 + rh,
            rx1 <= w,
            ry1 <= h,
            rw > 0,
            rh > 0,
            (ry0 + rh - 1) * w + rx0 + rw <= w * h,
            total_cleared == count_on(orig@) - count_on(bitmap@),
            count_on(orig@) <= u32::MAX,
            forall|x: int, y: int|
                !(rx0 <= x < rx1 && ry0 <= y < ry1) ==> #[trigger] bitmap.pixel(x, y) == orig.pixel(x, y),
            window_count(orig@, w as int, rx0 as int, ry0 as int, rx1 as int, ry1 as int) <= max_count
                ==> bitmap@ == orig@,
            iter <= 10,
            total_cleared >= iter,
            done || iter > 0 ==> window_count(bitmap@, w as int, rx0 as int, ry0 as int, rx1 as int, ry1 as int)
                <= max_count || thin_rect(*bitmap, rx0 as int, ry0 as int, rx1 as int, ry1 as int),
            window_count(bitmap@, w as int, rx0 as int, ry0 as int, rx1 as int, ry1 as int) >= min_int(
                window_count(orig@, w as int, rx0 as int, ry0 as int, rx1 as int, ry1 as int) as int,
                max_count as int,
            ),
            (done || iter > 0) && window_count(bitmap@, w as int, rx0 as int, ry0 as int, rx1 as int, ry1 as int)
                > max_count ==> forall|x: int, y: int|
                rx0 <= x < rx1 && ry0 <= y < ry1 && orig.pixel(x, y) && neighbor_count(orig, x, y) >= 3
                    ==> !#[trigger] bitmap.pixel(x, y),
            iter == 0 && !done ==> *bitmap == orig,
        decreases 10 - iter, if done { 0int } else { 1int },
    {
        // Count current on-pixels in the region
        let current = count_on_in_window(bitmap, rx0, ry0, rw, rh);
        if current <= max_count {
            done = true;
        } else {
            let excess = current - max_count;
            proof {
                if window_count(orig@, w as int, rx0 as int, ry0 as int, rx1 as int, ry1 as int) <= max_count {
                    assert(bitmap@ == orig@);
                }
            }

            let ghost before = *bitmap;
            let removed = clear_interior(bitmap, rx0, ry0, rw, rh, excess);
            proof {
                lemma_thinning_compose(orig, before, *bitmap);
                assert forall|x: int, y: int| !(rx0 <= x < rx1 && ry0 <= y < ry1) implies #[trigger] bitmap.pixel(x, y)
                    == orig.pixel(x, y) by {
                    assert(before.pixel(x, y) == orig.pixel(x, y));
                }
                if removed == 0 {
                    lemma_thin_same(before, *bitmap, rx0 as int, ry0 as int, rx1 as int, ry1 as int);
                }
            }
            proof {
                if window_count(bitmap@, w as int, rx0 as int, ry0 as int, rx1 as int, ry1 as int) > max_count {
                    assert forall|x: int, y: int|
                        rx0 <= x < rx1 && ry0 <= y < ry1 && orig.pixel(x, y) && neighbor_count(orig, x, y) >= 3
                            implies !#[trigger] bitmap.pixel(x, y) by {
                        if before.pixel(x, y) {
                            assert(before == orig);
                        }
                    }
                }
            }
            total_cleared = total_cleared + removed as usize;
            if removed == 0 {
                done = true; // No progress possible
            } else {
                iter = iter + 1;
            }
        }
    }
    proof {
        if window_count(bitmap@, w as int, rx0 as int, ry0 as int, rx1 as int, ry1 as int) > max_count {
            lemma_thin_count(*bitmap, rx0 as int, ry0 as int, rx1 as int, ry1 as int, ry0 as int);
        }
    }
    total_cleared
}

} // verus!
