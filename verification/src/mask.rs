//! Exclusion masking: clearing the artwork pixels whose physical cells come
//! near existing metal (bond pads, power straps, seal ring, ...).
use vstd::prelude::*;

use crate::artwork::{bulk_clear_bits, count_bits_in_range, ArtworkBitmap};
use crate::bits::{bits_seq, count_on, count_range, lemma_bits_seq_len, lemma_count_split, word_bit};
use crate::polygon::{lemma_cell_bound, lemma_cell_unique, Rect};

verus! {

/// The physical cell of the pixel in column `cx` and flipped row `cy`
/// (`cy = H - 1 - y`) overlaps the rectangle `r` grown by `margin` on every
/// side; cells are `pw` wide and placed every `p` database units.
pub open spec fn cell_overlaps(p: int, pw: int, r: Rect, margin: int, cx: int, cy: int) -> bool {
    &&& axis_hit(p, pw, r.x0 - margin, r.x1 + margin, cx)
    &&& axis_hit(p, pw, r.y0 - margin, r.y1 + margin, cy)
}

/// Cell `c` of side `pw` at pitch `p` reaches into the open interval
/// `(g0, g1)`.
pub open spec fn axis_hit(p: int, pw: int, g0: int, g1: int, c: int) -> bool {
    c * p + pw > g0 && c * p < g1
}

/// Pixel `(x, y)` of a bitmap of height `h` overlaps one of the grown
/// exclusion rectangles.
pub open spec fn excluded(rects: Seq<Rect>, p: int, pw: int, margin: int, h: int, x: int, y: int) -> bool {
    exists|k: int| 0 <= k < rects.len() && #[trigger] cell_overlaps(p, pw, rects[k], margin, x, h - 1 - y)
}

/// For `p > 0` and `a >= 0`: `x >= ceil(a / p)` exactly when `x * p >= a`.
pub proof fn lemma_ceil_div(a: int, p: int, x: int)
    requires
        p > 0,
        a >= 0,
        x >= 0,
    ensures
        (x >= (a + p - 1) / p) == (x * p >= a),
{
    let q = (a + p - 1) / p;
    let r = (a + p - 1) % p;
    assert(a + p - 1 == q * p + r && 0 <= r < p) by (nonlinear_arith)
        requires
            p > 0,
            q == (a + p - 1) / p,
            r == (a + p - 1) % p,
    ;
    if x >= q {
        assert(x * p >= q * p) by (nonlinear_arith)
            requires
                x >= q,
                p > 0,
        ;
    } else {
        assert(x * p <= q * p - p) by (nonlinear_arith)
            requires
                x <= q - 1,
                p > 0,
        ;
    }
}

/// For `p > 0` and `g >= 1`: `x < (g - 1) / p + 1` exactly when `x * p < g`.
pub proof fn lemma_floor_div(g: int, p: int, x: int)
    requires
        p > 0,
        g >= 1,
        x >= 0,
    ensures
        (x < (g - 1) / p + 1) == (x * p < g),
{
    let q = (g - 1) / p;
    let r = (g - 1) % p;
    assert(g - 1 == q * p + r && 0 <= r < p) by (nonlinear_arith)
        requires
            p > 0,
            q == (g - 1) / p,
            r == (g - 1) % p,
    ;
    if x <= q {
        assert(x * p <= q * p) by (nonlinear_arith)
            requires
                x <= q,
                p > 0,
        ;
    } else {
        assert(x * p >= q * p + p) by (nonlinear_arith)
            requires
                x >= q + 1,
                p > 0,
        ;
    }
}

/// The index range `start..end` of the cells `c >= 0` (below `limit`) with
/// `c * p + pw > g0` and `c * p < g1`.
fn cell_range(g0: i64, g1: i64, p: i64, pw: i64, limit: i64) -> (r: (i64, i64))
    requires
        p > 0,
        0 <= limit,
        -0x4_0000_0000 <= g0 <= 0x4_0000_0000,
        -0x4_0000_0000 <= g1 <= 0x4_0000_0000,
        -0x8000_0000 <= pw <= 0x8000_0000,
        p <= 0x8000_0000,
        limit <= 0x1_0000_0000,
    ensures
        0 <= r.0,
        r.1 <= limit,
        forall|c: int| 0 <= c < limit ==> (r.0 <= c < r.1) == #[trigger] axis_hit(p as int, pw as int, g0 as int, g1 as int, c),
{
    let a = if g0 - pw + 1 > 0 {
        g0 - pw + 1
    } else {
        0
    };
    let start = (a + p - 1) / p;
    let end = if g1 <= 0 {
        0
    } else {
        let e = (g1 - 1) / p + 1;
        if e < limit {
            e
        } else {
            limit
        }
    };
    proof {
        assert forall|c: int| 0 <= c < limit implies (start <= c < end) == #[trigger] axis_hit(p as int, pw as int, g0 as int, g1 as int, c) by {
            lemma_ceil_div(a as int, p as int, c);
            assert(c * p >= 0) by (nonlinear_arith)
                requires
                    c >= 0,
                    p > 0,
            ;
            if g1 > 0 {
                lemma_floor_div(g1 as int, p as int, c);
            }
        }
        let ai = a as int;
        let pi = p as int;
        assert(0 <= (ai + pi - 1) / pi) by (nonlinear_arith)
            requires
                ai >= 0,
                pi > 0,
        ;
    }
    (start, end)
}

/// Clear every pixel whose physical cell overlaps an exclusion rectangle
/// grown by `margin_dbu`. Pixel `(x, y)` covers the physical range
/// `[x * pitch, x * pitch + pixel_w] x [(H-1-y) * pitch, (H-1-y) * pitch +
/// pixel_w]` in database units. Nothing changes unless both `pitch_dbu` and
/// `pixel_w_dbu` are positive. Returns the number of pixels cleared.
pub fn apply_exclusion_mask_dbu(
    bitmap: &mut ArtworkBitmap,
    exclusion_rects: &[Rect],
    pitch_dbu: i32,
    pixel_w_dbu: i32,
    margin_dbu: i32,
) -> (masked: usize)
    requires
        old(bitmap).wf(),
    ensures
        final(bitmap).wf(),
        final(bitmap).width == old(bitmap).width,
        final(bitmap).height == old(bitmap).height,
        forall|x: int, y: int|
            #![trigger final(bitmap).pixel(x, y)]
            final(bitmap).pixel(x, y) == (old(bitmap).pixel(x, y) && !(pitch_dbu > 0 && pixel_w_dbu > 0
                && excluded(
                exclusion_rects@,
                pitch_dbu as int,
                pixel_w_dbu as int,
                margin_dbu as int,
                old(bitmap).height as int,
                x,
                y,
            ))),
        masked == count_on(old(bitmap)@) - count_on(final(bitmap)@),
{
    let ghost old_bm = *bitmap;
    let ghost rs = exclusion_rects@;
    let ghost p = pitch_dbu as int;
    let ghost pw = pixel_w_dbu as int;
    let ghost mg = margin_dbu as int;
    let ghost hh = bitmap.height as int;
    if pitch_dbu <= 0 || pixel_w_dbu <= 0 {
        return 0;
    }
    let bw = bitmap.width as usize;
    let bh = bitmap.height as i64;
    let mut masked = 0usize;
    proof {
        old_bm.lemma_view();
        crate::bits::lemma_count_bound(old_bm@, 0, old_bm@.len() as int);
    }
    let mut k: usize = 0;
    while k < exclusion_rects.len()
        invariant
            bitmap.wf(),
            bitmap.width == old_bm.width,
            bitmap.height == old_bm.height,
            bw == bitmap.width,
            bh == bitmap.height,
            hh == bitmap.height,
            rs == exclusion_rects@,
            p == pitch_dbu,
            pw == pixel_w_dbu,
            mg == margin_dbu,
            p > 0,
            pw > 0,
            k <= rs.len(),
            forall|x: int, y: int|
                #![trigger bitmap.pixel(x, y)]
                bitmap.pixel(x, y) == (old_bm.pixel(x, y) && !excluded(rs.subrange(0, k as int), p, pw, mg, hh, x, y)),
            masked == count_on(old_bm@) - count_on(bitmap@),
            count_on(bitmap@) <= count_on(old_bm@),
            count_on(old_bm@) <= u32::MAX,
        decreases rs.len() - k,
    {
        let er = exclusion_rects[k];
        // Grow by margin
        let gx0 = er.x0 as i64 - margin_dbu as i64;
        let gy0 = er.y0 as i64 - margin_dbu as i64;
        let gx1 = er.x1 as i64 + margin_dbu as i64;
        let gy1 = er.y1 as i64 + margin_dbu as i64;
        let (x_start, x_end) = cell_range(gx0, gx1, pitch_dbu as i64, pixel_w_dbu as i64, bw as i64);
        let (j_start, j_end) = cell_range(gy0, gy1, pitch_dbu as i64, pixel_w_dbu as i64, bh);
        let ghost before_rect = *bitmap;
        if x_start < x_end && j_start < j_end {
            let col_len = (x_end - x_start) as usize;
            let mut j = j_start;
            while j < j_end
                invariant
                    bitmap.wf(),
                    bitmap.width == old_bm.width,
                    bitmap.height == old_bm.height,
                    before_rect.wf(),
                    before_rect.width == old_bm.width,
                    before_rect.height == old_bm.height,
                    bw == bitmap.width,
                    bh == bitmap.height,
                    0 <= x_start < x_end <= bw,
                    0 <= j_start <= j <= j_end <= bh,
                    col_len == x_end - x_start,
                    forall|x: int, y: int|
                        #![trigger bitmap.pixel(x, y)]
                        bitmap.pixel(x, y) == (before_rect.pixel(x, y) && !(x_start <= x < x_end
                            && j_start <= bh - 1 - y < j)),
                    masked + count_on(bitmap@) == count_on(old_bm@),
                    count_on(bitmap@) <= count_on(before_rect@),
                    count_on(old_bm@) <= u32::MAX,
                decreases j_end - j,
            {
                let y = (bh - 1 - j) as usize;
                proof {
                    lemma_cell_bound(bw as int, bh as int, x_start as int, y as int);
                    lemma_cell_bound(bw as int, bh as int, x_end - 1, y as int);
                    bitmap.lemma_view();
                    lemma_bits_seq_len(bitmap.pixels@);
                }
                let row_bit_start = y * bw + x_start as usize;
                let ghost cur = *bitmap;
                let ghost a = row_bit_start as int;
                let ghost b = row_bit_start + col_len;
                let words = bitmap.words_mut();
                let c = count_bits_in_range(words, row_bit_start, col_len);
                bulk_clear_bits(words, row_bit_start, col_len);
                proof {
                    bitmap.lemma_view();
                    cur.lemma_view();
                    let n = cur.num_pixels();
                    let s0 = cur@;
                    let s1 = bitmap@;
                    assert forall|i: int| 0 <= i < n implies #[trigger] s1[i] == (s0[i] && !(a <= i < b)) by {}
                    lemma_count_split(s0, 0, a, n);
                    lemma_count_split(s0, a, b, n);
                    lemma_count_split(s1, 0, a, n);
                    lemma_count_split(s1, a, b, n);
                    crate::bits::lemma_count_same(s0, s1, 0, a);
                    crate::bits::lemma_count_same(s0, s1, b, n);
                    crate::bits::lemma_count_none(s1, a, b);
                    crate::bits::lemma_count_same(s0, bits_seq(cur.pixels@), a, b);
                    assert(count_on(s0) == count_on(s1) + c);
                    assert forall|x: int, yy: int| #![trigger bitmap.pixel(x, yy)] true implies bitmap.pixel(x, yy) == (before_rect.pixel(x, yy) && !(x_start <= x < x_end
                        && j_start <= bh - 1 - yy < j + 1)) by {
                        if 0 <= x < bw && 0 <= yy < bh {
                            cur.lemma_index(x, yy);
                            lemma_cell_bound(bw as int, bh as int, x, yy);
                            if a <= yy * bw + x < b {
                                lemma_cell_unique(bw as int, x, yy, (yy * bw + x) - (y * bw), y as int);
                            }
                            if yy == y && x_start <= x < x_end {
                                assert(a <= yy * bw + x < b);
                            }
                            assert(cur.pixel(x, yy) == s0[yy * bw + x]);
                        }
                    }
                }
                masked = masked + c;
                j = j + 1;
            }
        }
        proof {
            let r = rs[k as int];
            assert forall|x: int, y: int| #![trigger bitmap.pixel(x, y)] true implies bitmap.pixel(x, y) == (old_bm.pixel(x, y) && !excluded(rs.subrange(0, k + 1), p, pw, mg, hh, x, y)) by {
                assert(rs.subrange(0, k + 1)[k as int] == r);
                if 0 <= x < bw && 0 <= y < bh {
                    let cy = hh - 1 - y;
                    let this_rect = cell_overlaps(p, pw, r, mg, x, cy);
                    assert(this_rect == (x_start <= x < x_end && j_start <= cy < j_end));
                    if excluded(rs.subrange(0, k + 1), p, pw, mg, hh, x, y) {
                        let kk = choose|kk: int| 0 <= kk < k + 1 && #[trigger] cell_overlaps(p, pw, rs.subrange(0, k + 1)[kk], mg, x, hh - 1 - y);
                        if kk < k {
                            assert(rs.subrange(0, k as int)[kk] == rs.subrange(0, k + 1)[kk]);
                        }
                    }
                    if excluded(rs.subrange(0, k as int), p, pw, mg, hh, x, y) {
                        let kk = choose|kk: int| 0 <= kk < k && #[trigger] cell_overlaps(p, pw, rs.subrange(0, k as int)[kk], mg, x, hh - 1 - y);
                        assert(rs.subrange(0, k as int)[kk] == rs.subrange(0, k + 1)[kk]);
                    }
                    if this_rect {
                        assert(cell_overlaps(p, pw, rs.subrange(0, k + 1)[k as int], mg, x, hh - 1 - y));
                    }
                }
            }
        }
        k = k + 1;
    }
    proof {
        assert(rs.subrange(0, rs.len() as int) =~= rs);
    }
    masked
}

} // verus!
