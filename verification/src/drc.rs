//! Design rule checking of generated rectangles, in database units.
//!
//! Checks minimum and maximum width, minimum spacing (wide-metal spacing
//! for wide shapes), minimum area and metal density. Spacing candidates are
//! found with an R-tree over the rectangles' envelopes; density is measured
//! over sliding windows with a summed-area table of per-cell metal area.
use vstd::prelude::*;

use crate::polygon::{
    Rect, bounding_box, is_bounding_box, lemma_cell_bound, lemma_cell_index, max_i, min_i, spacing,
};

verus! {

/// DRC rule categories.
#[derive(Debug, Clone, Copy, PartialEq, Eq, Structural)]
pub enum DrcRule {
    MinWidth,
    MaxWidth,
    MinSpacing,
    WideMetalSpacing,
    MinArea,
    DensityMax,
    DensityMin,
}

/// The name of each rule, as reports print it.
pub open spec fn rule_name(rule: DrcRule) -> Seq<char> {
    match rule {
        DrcRule::MinWidth => "min_width"@,
        DrcRule::MaxWidth => "max_width"@,
        DrcRule::MinSpacing => "min_spacing"@,
        DrcRule::WideMetalSpacing => "wide_metal_spacing"@,
        DrcRule::MinArea => "min_area"@,
        DrcRule::DensityMax => "density_max"@,
        DrcRule::DensityMin => "density_min"@,
    }
}

impl DrcRule {
    /// The rule's name as reports print it.
    pub fn name(&self) -> (r: &'static str)
        ensures
            r@ == rule_name(*self),
    {
        match self {
            DrcRule::MinWidth => "min_width",
            DrcRule::MaxWidth => "max_width",
            DrcRule::MinSpacing => "min_spacing",
            DrcRule::WideMetalSpacing => "wide_metal_spacing",
            DrcRule::MinArea => "min_area",
            DrcRule::DensityMax => "density_max",
            DrcRule::DensityMin => "density_min",
        }
    }
}

/// A DRC violation. For density violations `value` and `limit` are in
/// permille and `location` is the window's lower-left corner; otherwise
/// they are in database units (squared for area) and `location` is the
/// lower-left corner of rectangle `rect_index`.
#[derive(Debug, Clone, Copy, PartialEq, Eq)]
pub struct DrcViolation {
    pub rule: DrcRule,
    pub rect_index: u32,
    pub other_index: u32,
    pub value: i64,
    pub limit: i64,
    pub location: (i32, i32),
}

/// Density limits of a layer over square windows.
#[derive(Debug, Clone, Copy, PartialEq, Eq, Structural)]
pub struct DensityLimits {
    /// Window side in database units.
    pub window: i32,
    /// Most metal area a window may hold.
    pub max_metal: i64,
    /// Least metal area a window must hold (checked when positive).
    pub min_metal: i64,
    /// The maximum density in permille, as reported.
    pub max_permille: i64,
    /// The minimum density in permille, as reported.
    pub min_permille: i64,
}

/// A layer's design rules in database units.
#[derive(Debug, Clone, Copy, PartialEq, Eq, Structural)]
pub struct DrcLimits {
    pub min_width: i32,
    pub min_spacing: i32,
    /// Minimum area in square database units; 0 disables the check.
    pub min_area: i64,
    pub max_width: Option<i32>,
    pub wide_metal_threshold: Option<i32>,
    pub wide_metal_spacing: Option<i32>,
    /// `None` when the density rules constrain nothing.
    pub density: Option<DensityLimits>,
}

// ---------------------------------------------------------------------------
// The violation stream and the violation cap.

/// Whether `acc` has reached the cap.
pub open spec fn reached(acc: Seq<DrcViolation>, cap: Option<usize>) -> bool {
    match cap {
        Some(c) => acc.len() >= c,
        None => false,
    }
}

/// Append the chunks to `acc` one after the other, stopping before the
/// first chunk met with the cap already reached.
pub open spec fn capped_run(acc: Seq<DrcViolation>, chunks: Seq<Seq<DrcViolation>>, cap: Option<usize>) -> Seq<
    DrcViolation,
>
    decreases chunks.len(),
{
    if chunks.len() == 0 || reached(acc, cap) {
        acc
    } else {
        capped_run(acc + chunks[0], chunks.drop_first(), cap)
    }
}

proof fn lemma_capped_run_append(
    acc: Seq<DrcViolation>,
    a: Seq<Seq<DrcViolation>>,
    b: Seq<Seq<DrcViolation>>,
    cap: Option<usize>,
)
    ensures
        capped_run(acc, a + b, cap) == capped_run(capped_run(acc, a, cap), b, cap),
    decreases a.len(),
{
    if a.len() == 0 {
        assert(a + b =~= b);
    } else if reached(acc, cap) {
        lemma_capped_run_reached(acc, b, cap);
    } else {
        assert((a + b).drop_first() =~= a.drop_first() + b);
        assert((a + b)[0] == a[0]);
        lemma_capped_run_append(acc + a[0], a.drop_first(), b, cap);
    }
}

proof fn lemma_capped_run_reached(acc: Seq<DrcViolation>, b: Seq<Seq<DrcViolation>>, cap: Option<usize>)
    requires
        reached(acc, cap),
    ensures
        capped_run(acc, b, cap) == acc,
{
}

proof fn lemma_capped_run_one(acc: Seq<DrcViolation>, c: Seq<DrcViolation>, cap: Option<usize>)
    requires
        !reached(acc, cap),
    ensures
        capped_run(acc, seq![c], cap) == acc + c,
{
    assert(seq![c].drop_first() =~= Seq::<Seq<DrcViolation>>::empty());
    assert(capped_run(acc + c, Seq::<Seq<DrcViolation>>::empty(), cap) == acc + c);
}

fn is_reached(v: &Vec<DrcViolation>, cap: Option<usize>) -> (r: bool)
    ensures
        r == reached(v@, cap),
{
    match cap {
        Some(c) => v.len() >= c,
        None => false,
    }
}

// ---------------------------------------------------------------------------
// Width, maximum width and area.

/// The width, maximum-width and area violations of rectangle `i`.
pub open spec fn width_chunk(r: Rect, i: int, lim: DrcLimits) -> Seq<DrcViolation> {
    let w = r.x1 - r.x0;
    let h = r.y1 - r.y0;
    let loc = (r.x0, r.y0);
    let narrow = if w < lim.min_width {
        seq![DrcViolation { rule: DrcRule::MinWidth, rect_index: i as u32, other_index: 0, value: w as i64, limit: lim.min_width as i64, location: loc }]
    } else {
        Seq::empty()
    };
    let short = if h < lim.min_width {
        seq![DrcViolation { rule: DrcRule::MinWidth, rect_index: i as u32, other_index: 0, value: h as i64, limit: lim.min_width as i64, location: loc }]
    } else {
        Seq::empty()
    };
    let wide = match lim.max_width {
        Some(m) => if w > m || h > m {
            seq![DrcViolation { rule: DrcRule::MaxWidth, rect_index: i as u32, other_index: 0, value: max_i(w, h) as i64, limit: m as i64, location: loc }]
        } else {
            Seq::empty()
        },
        None => Seq::empty(),
    };
    let small = if lim.min_area > 0 && w * h < lim.min_area {
        seq![DrcViolation { rule: DrcRule::MinArea, rect_index: i as u32, other_index: 0, value: (w * h) as i64, limit: lim.min_area, location: loc }]
    } else {
        Seq::empty()
    };
    narrow + short + wide + small
}

/// The width chunks of all rectangles, in order.
pub open spec fn width_chunks(rects: Seq<Rect>, lim: DrcLimits) -> Seq<Seq<DrcViolation>> {
    Seq::new(rects.len(), |i: int| width_chunk(rects[i], i, lim))
}

/// Every rectangle's width and height fit an `i32`.
pub open spec fn dims_fit(rects: Seq<Rect>) -> bool {
    forall|i: int| 0 <= i < rects.len() ==> (#[trigger] rects[i]).width_fits() && rects[i].height_fits()
}

fn push_width_chunk(v: &mut Vec<DrcViolation>, r: Rect, i: usize, lim: &DrcLimits)
    requires
        r.width_fits(),
        r.height_fits(),
        i <= u32::MAX,
    ensures
        final(v)@ == old(v)@ + width_chunk(r, i as int, *lim),
{
    let w = r.width();
    let h = r.height();
    let idx = i as u32;
    let loc = (r.x0, r.y0);
    let ghost start = v@;
    if w < lim.min_width {
        v.push(DrcViolation { rule: DrcRule::MinWidth, rect_index: idx, other_index: 0, value: w as i64, limit: lim.min_width as i64, location: loc });
    }
    let ghost a = v@;
    if h < lim.min_width {
        v.push(DrcViolation { rule: DrcRule::MinWidth, rect_index: idx, other_index: 0, value: h as i64, limit: lim.min_width as i64, location: loc });
    }
    let ghost b = v@;
    if let Some(m) = lim.max_width {
        if w > m || h > m {
            let big = if w >= h {
                w
            } else {
                h
            };
            v.push(DrcViolation { rule: DrcRule::MaxWidth, rect_index: idx, other_index: 0, value: big as i64, limit: m as i64, location: loc });
        }
    }
    let ghost c = v@;
    assert(i32::MIN * i32::MAX <= (w as i64) * (h as i64) <= i32::MIN * i32::MIN) by (nonlinear_arith)
        requires
            i32::MIN <= w <= i32::MAX,
            i32::MIN <= h <= i32::MAX,
    ;
    let area = (w as i64) * (h as i64);
    if lim.min_area > 0 && area < lim.min_area {
        v.push(DrcViolation { rule: DrcRule::MinArea, rect_index: idx, other_index: 0, value: area, limit: lim.min_area, location: loc });
    }
    assert(v@ =~= start + width_chunk(r, i as int, *lim));
}


// ---------------------------------------------------------------------------
// Spacing.

/// The axis-aligned box spanned by two corners: `(lo_x, lo_y, hi_x, hi_y)`.
pub open spec fn envelope(ax: int, ay: int, bx: int, by: int) -> (int, int, int, int) {
    (min_i(ax, bx), min_i(ay, by), max_i(ax, bx), max_i(ay, by))
}

/// The envelope of a rectangle.
pub open spec fn rect_envelope(r: Rect) -> (int, int, int, int) {
    envelope(r.x0 as int, r.y0 as int, r.x1 as int, r.y1 as int)
}

/// Whether two boxes share a point (touching counts).
pub open spec fn intersects(a: (int, int, int, int), b: (int, int, int, int)) -> bool {
    a.0 <= b.2 && a.1 <= b.3 && a.2 >= b.0 && a.3 >= b.1
}

/// The envelopes of `rects`, by index.
pub open spec fn rect_envelopes(rects: Seq<Rect>) -> Map<u32, (int, int, int, int)> {
    Map::new(|k: u32| k < rects.len(), |k: u32| rect_envelope(rects[k as int]))
}

/// `found` lists, once each, exactly the keys of `entries` whose box meets `env`.
pub open spec fn lists_intersecting(
    found: Seq<u32>,
    entries: Map<u32, (int, int, int, int)>,
    env: (int, int, int, int),
) -> bool {
    &&& found.no_duplicates()
    &&& forall|k: u32| found.contains(k) <==> entries.dom().contains(k) && intersects(entries[k], env)
}

/// A spatial index over rectangles, each stored under its index in the
/// slice it was built from.
#[verifier::external_body]
pub struct RectIndex {
    tree: rstar::RTree<rstar::primitives::GeomWithData<rstar::primitives::Rectangle<[i32; 2]>, u32>>,
}

/// The envelopes that the index holds, by stored index.
pub uninterp spec fn index_entries(index: RectIndex) -> Map<u32, (int, int, int, int)>;

/// Bulk-load an rstar `RTree` (`RTree::bulk_load`) with each rectangle's
/// envelope (`Rectangle::from_corners`, which orders the corners) under its
/// index. The contract claims that the tree holds exactly those entries.
#[verifier::external_body]
fn build_rect_index(rects: &[Rect]) -> (t: RectIndex)
    requires
        rects@.len() <= u32::MAX,
    ensures
        index_entries(t) == rect_envelopes(rects@),
{
    let items: Vec<rstar::primitives::GeomWithData<rstar::primitives::Rectangle<[i32; 2]>, u32>> = rects
        .iter()
        .enumerate()
        .map(|(i, r)| rstar::primitives::GeomWithData::new(rstar::primitives::Rectangle::from_corners([r.x0, r.y0], [r.x1, r.y1]), i as u32))
        .collect();
    RectIndex { tree: rstar::RTree::bulk_load(items) }
}

/// `RTree::locate_in_envelope_intersecting` with the envelope spanned by
/// `(ax, ay)` and `(bx, by)` (`AABB::from_corners`): the stored indices of
/// all entries whose envelope intersects it, touching included. The
/// contract claims each such index once and no other; the order is the
/// tree's and is not stated.
#[verifier::external_body]
fn query_rect_index(index: &RectIndex, ax: i32, ay: i32, bx: i32, by: i32) -> (r: Vec<u32>)
    ensures
        lists_intersecting(r@, index_entries(*index), envelope(ax as int, ay as int, bx as int, by as int)),
{
    let env = rstar::AABB::from_corners([ax, ay], [bx, by]);
    index.tree.locate_in_envelope_intersecting(env).map(|g| g.data).collect()
}

/// How far around a rectangle spacing candidates are searched.
pub open spec fn search_margin(lim: DrcLimits) -> int {
    match lim.wide_metal_spacing {
        Some(ws) => max_i(lim.min_spacing as int, ws as int),
        None => lim.min_spacing as int,
    }
}

/// The search envelope around `r`.
pub open spec fn search_envelope(r: Rect, m: int) -> (int, int, int, int) {
    envelope(r.x0 - m, r.y0 - m, r.x1 + m, r.y1 + m)
}

/// Every search envelope's corners fit an `i32`.
pub open spec fn search_fits(rects: Seq<Rect>, lim: DrcLimits) -> bool {
    forall|i: int|
        0 <= i < rects.len() ==> {
            let r = #[trigger] rects[i];
            let m = search_margin(lim);
            &&& i32::MIN <= r.x0 - m <= i32::MAX
            &&& i32::MIN <= r.y0 - m <= i32::MAX
            &&& i32::MIN <= r.x1 + m <= i32::MAX
            &&& i32::MIN <= r.y1 + m <= i32::MAX
        }
}

/// `h` lists, once each and in some order, the rectangles whose envelope
/// meets the search envelope of rectangle `i`.
pub open spec fn hits_of(rects: Seq<Rect>, lim: DrcLimits, i: int, h: Seq<u32>) -> bool {
    &&& h.no_duplicates()
    &&& forall|k: u32|
        h.contains(k) <==> k < rects.len() && intersects(
            rect_envelope(rects[k as int]),
            search_envelope(rects[i], search_margin(lim)),
        )
}

/// `hits` lists the spacing candidates of every rectangle.
pub open spec fn valid_hits(rects: Seq<Rect>, lim: DrcLimits, hits: Seq<Seq<u32>>) -> bool {
    &&& hits.len() == rects.len()
    &&& forall|i: int| 0 <= i < rects.len() ==> hits_of(rects, lim, i, #[trigger] hits[i])
}

/// Whether either rectangle is wide metal.
pub open spec fn either_wide(a: Rect, b: Rect, t: int) -> bool {
    a.x1 - a.x0 >= t || a.y1 - a.y0 >= t || b.x1 - b.x0 >= t || b.y1 - b.y0 >= t
}

/// The spacing violation, if any, between rectangle `i` and a later
/// rectangle `j`: the pair is closer than the spacing that applies to it
/// (wide-metal spacing when either is wide and both wide-metal rules are
/// set) but not touching.
pub open spec fn pair_violations(rects: Seq<Rect>, lim: DrcLimits, i: int, j: int) -> Seq<DrcViolation> {
    let a = rects[i];
    let b = rects[j];
    let d = spacing(a, b);
    let (eff, rule) = match (lim.wide_metal_threshold, lim.wide_metal_spacing) {
        (Some(t), Some(ws)) => if either_wide(a, b, t as int) {
            (ws as int, DrcRule::WideMetalSpacing)
        } else {
            (lim.min_spacing as int, DrcRule::MinSpacing)
        },
        _ => (lim.min_spacing as int, DrcRule::MinSpacing),
    };
    if j <= i || d <= 0 || d >= eff {
        Seq::empty()
    } else {
        seq![DrcViolation { rule: rule, rect_index: i as u32, other_index: j as u32, value: d as i64, limit: eff as i64, location: (a.x0, a.y0) }]
    }
}

/// The spacing violations of rectangle `i` against the candidates `h`, in
/// the order of `h`.
pub open spec fn spacing_chunk(rects: Seq<Rect>, lim: DrcLimits, i: int, h: Seq<u32>) -> Seq<DrcViolation>
    decreases h.len(),
{
    if h.len() == 0 {
        Seq::empty()
    } else {
        spacing_chunk(rects, lim, i, h.drop_last()) + pair_violations(rects, lim, i, h.last() as int)
    }
}

/// The spacing chunks of the rectangles whose candidates are listed.
pub open spec fn spacing_chunks(rects: Seq<Rect>, lim: DrcLimits, hits: Seq<Seq<u32>>) -> Seq<Seq<DrcViolation>> {
    Seq::new(hits.len(), |i: int| spacing_chunk(rects, lim, i, hits[i]))
}

/// The candidates of rectangle `i` among the first `k`, in index order.
pub open spec fn ordered_hits(rects: Seq<Rect>, lim: DrcLimits, i: int, k: int) -> Seq<u32>
    decreases k,
{
    if k <= 0 {
        Seq::empty()
    } else {
        let rest = ordered_hits(rects, lim, i, k - 1);
        if intersects(rect_envelope(rects[k - 1]), search_envelope(rects[i], search_margin(lim))) {
            rest.push((k - 1) as u32)
        } else {
            rest
        }
    }
}

proof fn lemma_ordered_hits(rects: Seq<Rect>, lim: DrcLimits, i: int, k: int)
    requires
        0 <= k <= rects.len() <= u32::MAX,
    ensures
        ordered_hits(rects, lim, i, k).no_duplicates(),
        forall|j: u32|
            ordered_hits(rects, lim, i, k).contains(j) <==> j < k && intersects(
                rect_envelope(rects[j as int]),
                search_envelope(rects[i], search_margin(lim)),
            ),
    decreases k,
{
    if k > 0 {
        lemma_ordered_hits(rects, lim, i, k - 1);
        let rest = ordered_hits(rects, lim, i, k - 1);
        if intersects(rect_envelope(rects[k - 1]), search_envelope(rects[i], search_margin(lim))) {
            let h = rest.push((k - 1) as u32);
            assert forall|j: u32| h.contains(j) <==> j < k && intersects(
                rect_envelope(rects[j as int]),
                search_envelope(rects[i], search_margin(lim)),
            ) by {
                assert(((k - 1) as u32) as int == k - 1);
                if h.contains(j) {
                    let p = choose|p: int| 0 <= p < h.len() && h[p] == j;
                    if p < rest.len() {
                        assert(rest[p] == j);
                        assert(rest.contains(j));
                    } else {
                        assert(j as int == k - 1);
                    }
                }
                if j < k && intersects(rect_envelope(rects[j as int]), search_envelope(rects[i], search_margin(lim))) {
                    if j == k - 1 {
                        assert(h[rest.len() as int] == j);
                    } else {
                        assert(rest.contains(j));
                        let p = choose|p: int| 0 <= p < rest.len() && rest[p] == j;
                        assert(h[p] == j);
                    }
                }
            }
            assert forall|a: int, b: int| 0 <= a < h.len() && 0 <= b < h.len() && a != b implies h[a] != h[b] by {
                if a < rest.len() && b < rest.len() {
                } else if a < rest.len() {
                    assert(rest.contains(h[a]));
                } else if b < rest.len() {
                    assert(rest.contains(h[b]));
                }
            }
        }
    }
}

/// Candidate lists for every rectangle exist.
pub open spec fn some_hits(rects: Seq<Rect>, lim: DrcLimits) -> Seq<Seq<u32>> {
    Seq::new(rects.len(), |i: int| ordered_hits(rects, lim, i, rects.len() as int))
}

proof fn lemma_some_hits(rects: Seq<Rect>, lim: DrcLimits, start: Seq<Seq<u32>>)
    requires
        rects.len() <= u32::MAX,
        start.len() <= rects.len(),
        forall|i: int| 0 <= i < start.len() ==> hits_of(rects, lim, i, #[trigger] start[i]),
    ensures
        valid_hits(rects, lim, start + some_hits(rects, lim).skip(start.len() as int)),
{
    let all = start + some_hits(rects, lim).skip(start.len() as int);
    assert forall|i: int| 0 <= i < rects.len() implies hits_of(rects, lim, i, #[trigger] all[i]) by {
        if i >= start.len() {
            lemma_ordered_hits(rects, lim, i, rects.len() as int);
            assert(all[i] == ordered_hits(rects, lim, i, rects.len() as int));
        }
    }
}

fn rect_spacing(a: &Rect, b: &Rect) -> (r: i64)
    ensures
        r == spacing(*a, *b),
{
    let dx: i64 = if a.x1 <= b.x0 {
        b.x0 as i64 - a.x1 as i64
    } else if b.x1 <= a.x0 {
        a.x0 as i64 - b.x1 as i64
    } else {
        0
    };
    let dy: i64 = if a.y1 <= b.y0 {
        b.y0 as i64 - a.y1 as i64
    } else if b.y1 <= a.y0 {
        a.y0 as i64 - b.y1 as i64
    } else {
        0
    };
    if dx > 0 && dy > 0 {
        if dx <= dy {
            dx
        } else {
            dy
        }
    } else {
        if dx >= dy {
            dx
        } else {
            dy
        }
    }
}

fn push_pair_violation(v: &mut Vec<DrcViolation>, rects: &[Rect], lim: &DrcLimits, i: usize, j: usize)
    requires
        i < rects@.len(),
        j < rects@.len(),
        rects@.len() <= u32::MAX,
    ensures
        final(v)@ == old(v)@ + pair_violations(rects@, *lim, i as int, j as int),
{
    let ghost start = v@;
    if j <= i {
        return;
    }
    let a = &rects[i];
    let b = &rects[j];
    let d = rect_spacing(a, b);
    if d <= 0 {
        return;
    }
    let mut eff: i64 = lim.min_spacing as i64;
    let mut rule = DrcRule::MinSpacing;
    match (lim.wide_metal_threshold, lim.wide_metal_spacing) {
        (Some(t), Some(ws)) => {
            let t64 = t as i64;
            let a_wide = a.x1 as i64 - a.x0 as i64 >= t64 || a.y1 as i64 - a.y0 as i64 >= t64;
            let b_wide = b.x1 as i64 - b.x0 as i64 >= t64 || b.y1 as i64 - b.y0 as i64 >= t64;
            if a_wide || b_wide {
                eff = ws as i64;
                rule = DrcRule::WideMetalSpacing;
            }
        },
        _ => {},
    }
    if d < eff {
        v.push(DrcViolation { rule, rect_index: i as u32, other_index: j as u32, value: d, limit: eff, location: (a.x0, a.y0) });
    }
    assert(v@ =~= start + pair_violations(rects@, *lim, i as int, j as int));
}


// ---------------------------------------------------------------------------
// Metal density.

/// The bounding box of the rectangles.
pub open spec fn bbox(rects: Seq<Rect>) -> Rect {
    choose|bb: Rect| is_bounding_box(rects, bb)
}

proof fn lemma_bbox(rects: Seq<Rect>, a: Rect)
    requires
        is_bounding_box(rects, a),
    ensures
        bbox(rects) == a,
{
    let b = bbox(rects);
    assert(is_bounding_box(rects, b));
    let k0 = choose|i: int| 0 <= i < rects.len() && #[trigger] rects[i].x0 == b.x0;
    let k1 = choose|i: int| 0 <= i < rects.len() && #[trigger] rects[i].y0 == b.y0;
    let k2 = choose|i: int| 0 <= i < rects.len() && #[trigger] rects[i].x1 == b.x1;
    let k3 = choose|i: int| 0 <= i < rects.len() && #[trigger] rects[i].y1 == b.y1;
    let j0 = choose|i: int| 0 <= i < rects.len() && #[trigger] rects[i].x0 == a.x0;
    let j1 = choose|i: int| 0 <= i < rects.len() && #[trigger] rects[i].y0 == a.y0;
    let j2 = choose|i: int| 0 <= i < rects.len() && #[trigger] rects[i].x1 == a.x1;
    let j3 = choose|i: int| 0 <= i < rects.len() && #[trigger] rects[i].y1 == a.y1;
    assert(a.x0 <= rects[k0].x0 && b.x0 <= rects[j0].x0);
    assert(a.x0 <= rects[k1].x0 && b.x0 <= rects[j1].x0);
    assert(a.x0 <= rects[k2].x0 && b.x0 <= rects[j2].x0);
    assert(a.x0 <= rects[k3].x0 && b.x0 <= rects[j3].x0);
    assert(a.y0 <= rects[k1].y0 && b.y0 <= rects[j1].y0);
    assert(rects[k2].x1 <= a.x1 && rects[j2].x1 <= b.x1);
    assert(rects[k3].y1 <= a.y1 && rects[j3].y1 <= b.y1);
}

/// The grid step of a density window: half the window, at least 1.
pub open spec fn step_of(win: int) -> int {
    if win / 2 < 1 {
        1
    } else {
        win / 2
    }
}

/// `a / b` rounded up, for `a >= 0` and `b > 0`.
pub open spec fn div_up(a: int, b: int) -> int {
    (a + b - 1) / b
}

/// Length of the overlap of `[a0, a1]` and `[b0, b1]`; 0 when they do not
/// overlap.
pub open spec fn seg(a0: int, a1: int, b0: int, b1: int) -> int {
    let lo = max_i(a0, b0);
    let hi = min_i(a1, b1);
    if hi > lo {
        hi - lo
    } else {
        0
    }
}

/// Metal area of `r` inside the `s x s` cell with lower-left corner
/// `(cx, cy)`.
pub open spec fn cell_area(r: Rect, cx: int, cy: int, s: int) -> int {
    seg(r.x0 as int, r.x1 as int, cx, cx + s) * seg(r.y0 as int, r.y1 as int, cy, cy + s)
}

/// Metal area of all of `rects` inside grid cell `(gx, gy)` of the grid of
/// `s x s` cells with origin `(ox, oy)`.
pub open spec fn cell_metal(rects: Seq<Rect>, ox: int, oy: int, s: int, gx: int, gy: int) -> int
    decreases rects.len(),
{
    if rects.len() == 0 {
        0
    } else {
        cell_metal(rects.drop_last(), ox, oy, s, gx, gy) + cell_area(rects.last(), ox + gx * s, oy + gy * s, s)
    }
}

/// The cell metal areas as a function of the cell.
pub open spec fn metal_fn(rects: Seq<Rect>, ox: int, oy: int, s: int) -> spec_fn(int, int) -> int {
    |gx: int, gy: int| cell_metal(rects, ox, oy, s, gx, gy)
}

/// `f(x, y)` summed over `x0 <= x < x1`.
pub open spec fn row_sum(f: spec_fn(int, int) -> int, y: int, x0: int, x1: int) -> int
    decreases x1 - x0,
{
    if x1 <= x0 {
        0
    } else {
        row_sum(f, y, x0, x1 - 1) + f(x1 - 1, y)
    }
}

/// `f(x, y)` summed over `x0 <= x < x1`, `y0 <= y < y1`.
pub open spec fn block_sum(f: spec_fn(int, int) -> int, x0: int, x1: int, y0: int, y1: int) -> int
    decreases y1 - y0,
{
    if y1 <= y0 {
        0
    } else {
        block_sum(f, x0, x1, y0, y1 - 1) + row_sum(f, y1 - 1, x0, x1)
    }
}

/// Whether the density rules are checked at all: there are limits, there
/// are rectangles and the window is positive.
pub open spec fn density_on(rects: Seq<Rect>, lim: DrcLimits) -> bool {
    &&& lim.density is Some
    &&& rects.len() > 0
    &&& lim.density->0.window > 0
}

/// The density grid step.
pub open spec fn grid_step(lim: DrcLimits) -> int {
    step_of(lim.density->0.window as int)
}

/// Columns of the density grid over the bounding box.
pub open spec fn grid_cols(rects: Seq<Rect>, lim: DrcLimits) -> int {
    div_up(bbox(rects).x1 - bbox(rects).x0, grid_step(lim))
}

/// Rows of the density grid over the bounding box.
pub open spec fn grid_rows(rects: Seq<Rect>, lim: DrcLimits) -> int {
    div_up(bbox(rects).y1 - bbox(rects).y0, grid_step(lim))
}

/// The cell metal areas of the density grid.
pub open spec fn grid_metal(rects: Seq<Rect>, lim: DrcLimits) -> spec_fn(int, int) -> int {
    metal_fn(rects, bbox(rects).x0 as int, bbox(rects).y0 as int, grid_step(lim))
}

/// Window positions along an extent: windows start every step while they
/// fit inside it.
pub open spec fn window_count(extent: int, win: int, s: int) -> int {
    if extent >= win {
        (extent - win) / s + 1
    } else {
        0
    }
}

/// Metal area of window `(ix, iy)`: the cells it covers, cut at the grid's
/// edge.
pub open spec fn window_metal(rects: Seq<Rect>, lim: DrcLimits, ix: int, iy: int) -> int {
    let wc = (lim.density->0.window as int) / grid_step(lim);
    block_sum(
        grid_metal(rects, lim),
        ix,
        min_i(ix + wc, grid_cols(rects, lim)),
        iy,
        min_i(iy + wc, grid_rows(rects, lim)),
    )
}

/// The density violations of window `(ix, iy)`.
pub open spec fn window_chunk(rects: Seq<Rect>, lim: DrcLimits, ix: int, iy: int) -> Seq<DrcViolation> {
    let d = lim.density->0;
    let s = grid_step(lim);
    let m = window_metal(rects, lim, ix, iy);
    let area = d.window * d.window;
    let loc = ((bbox(rects).x0 + ix * s) as i32, (bbox(rects).y0 + iy * s) as i32);
    let over = if m > d.max_metal {
        seq![DrcViolation { rule: DrcRule::DensityMax, rect_index: 0, other_index: 0, value: (m * 1000 / area) as i64, limit: d.max_permille, location: loc }]
    } else {
        Seq::empty()
    };
    let under = if d.min_metal > 0 && m < d.min_metal {
        seq![DrcViolation { rule: DrcRule::DensityMin, rect_index: 0, other_index: 0, value: (m * 1000 / area) as i64, limit: d.min_permille, location: loc }]
    } else {
        Seq::empty()
    };
    over + under
}

/// The density chunks: one per window, windows ordered by column, then
/// row within a column.
pub open spec fn density_chunks(rects: Seq<Rect>, lim: DrcLimits) -> Seq<Seq<DrcViolation>> {
    let bb = bbox(rects);
    let win = lim.density->0.window as int;
    let s = grid_step(lim);
    let nx = window_count(bb.x1 - bb.x0, win, s);
    let ny = window_count(bb.y1 - bb.y0, win, s);
    if !density_on(rects, lim) || grid_cols(rects, lim) == 0 || grid_rows(rects, lim) == 0 {
        Seq::empty()
    } else {
        Seq::new((nx * ny) as nat, |k: int| window_chunk(rects, lim, k / ny, k % ny))
    }
}

/// Where density is checked: the bounding box is not inverted, the grid
/// and its summed-area table can be allocated, and the metal of the whole
/// grid, in permille of a unit area, fits an `i64`.
pub open spec fn density_fits(rects: Seq<Rect>, lim: DrcLimits) -> bool {
    density_on(rects, lim) ==> {
        &&& bbox(rects).x1 >= bbox(rects).x0
        &&& bbox(rects).y1 >= bbox(rects).y0
        &&& (grid_cols(rects, lim) + 1) * (grid_rows(rects, lim) + 1) <= usize::MAX
        &&& total_area(rects) * 1000 <= i64::MAX
    }
}

/// Area of a rectangle, 0 when it is inverted.
pub open spec fn pos_area(r: Rect) -> int {
    max_i(0, r.x1 - r.x0) * max_i(0, r.y1 - r.y0)
}

/// Total area of the rectangles.
pub open spec fn total_area(rects: Seq<Rect>) -> int
    decreases rects.len(),
{
    if rects.len() == 0 {
        0
    } else {
        total_area(rects.drop_last()) + pos_area(rects.last())
    }
}

/// `[a0, a1]`'s overlaps with the `k` cells of side `s` from `o`, summed.
pub open spec fn seg_cells(a0: int, a1: int, o: int, s: int, k: int) -> int
    decreases k,
{
    if k <= 0 {
        0
    } else {
        seg_cells(a0, a1, o, s, k - 1) + seg(a0, a1, o + (k - 1) * s, o + (k - 1) * s + s)
    }
}

/// The cell metal areas of one rectangle.
pub open spec fn rect_fn(r: Rect, ox: int, oy: int, s: int) -> spec_fn(int, int) -> int {
    |gx: int, gy: int| cell_area(r, ox + gx * s, oy + gy * s, s)
}

proof fn lemma_seg_split(a0: int, a1: int, lo: int, mid: int, hi: int)
    requires
        lo <= mid <= hi,
    ensures
        seg(a0, a1, lo, hi) == seg(a0, a1, lo, mid) + seg(a0, a1, mid, hi),
{
}

proof fn lemma_seg_cells(a0: int, a1: int, o: int, s: int, k: int)
    requires
        s >= 1,
        k >= 0,
    ensures
        seg_cells(a0, a1, o, s, k) == seg(a0, a1, o, o + k * s),
        0 <= seg_cells(a0, a1, o, s, k) <= max_i(0, a1 - a0),
    decreases k,
{
    if k > 0 {
        lemma_seg_cells(a0, a1, o, s, k - 1);
        assert(o + (k - 1) * s + s == o + k * s) by (nonlinear_arith);
        assert(o + (k - 1) * s <= o + k * s) by (nonlinear_arith)
            requires
                s >= 1,
        ;
        assert(o <= o + (k - 1) * s) by (nonlinear_arith)
            requires
                s >= 1,
                k >= 1,
        ;
        lemma_seg_split(a0, a1, o, o + (k - 1) * s, o + k * s);
    } else {
        assert(k * s == 0) by (nonlinear_arith)
            requires
                k == 0,
        ;
    }
}

proof fn lemma_rect_row(r: Rect, ox: int, oy: int, s: int, gy: int, k: int)
    requires
        s >= 1,
        k >= 0,
    ensures
        row_sum(rect_fn(r, ox, oy, s), gy, 0, k) == seg_cells(r.x0 as int, r.x1 as int, ox, s, k) * seg(
            r.y0 as int,
            r.y1 as int,
            oy + gy * s,
            oy + gy * s + s,
        ),
    decreases k,
{
    if k > 0 {
        lemma_rect_row(r, ox, oy, s, gy, k - 1);
        let a = seg_cells(r.x0 as int, r.x1 as int, ox, s, k - 1);
        let b = seg(r.x0 as int, r.x1 as int, ox + (k - 1) * s, ox + (k - 1) * s + s);
        let c = seg(r.y0 as int, r.y1 as int, oy + gy * s, oy + gy * s + s);
        assert(a * c + b * c == (a + b) * c) by (nonlinear_arith);
    }
}

proof fn lemma_rect_block(r: Rect, ox: int, oy: int, s: int, gw: int, h: int)
    requires
        s >= 1,
        gw >= 0,
        h >= 0,
    ensures
        block_sum(rect_fn(r, ox, oy, s), 0, gw, 0, h) == seg_cells(r.x0 as int, r.x1 as int, ox, s, gw)
            * seg_cells(r.y0 as int, r.y1 as int, oy, s, h),
    decreases h,
{
    if h > 0 {
        lemma_rect_block(r, ox, oy, s, gw, h - 1);
        lemma_rect_row(r, ox, oy, s, h - 1, gw);
        let a = seg_cells(r.x0 as int, r.x1 as int, ox, s, gw);
        let b = seg_cells(r.y0 as int, r.y1 as int, oy, s, h - 1);
        let c = seg(r.y0 as int, r.y1 as int, oy + (h - 1) * s, oy + (h - 1) * s + s);
        assert(a * b + a * c == a * (b + c)) by (nonlinear_arith);
    }
}

proof fn lemma_row_add(f: spec_fn(int, int) -> int, g: spec_fn(int, int) -> int, h: spec_fn(int, int) -> int, y: int, x0: int, x1: int)
    requires
        forall|x: int, yy: int| #[trigger] f(x, yy) == g(x, yy) + h(x, yy),
    ensures
        row_sum(f, y, x0, x1) == row_sum(g, y, x0, x1) + row_sum(h, y, x0, x1),
    decreases x1 - x0,
{
    if x1 > x0 {
        lemma_row_add(f, g, h, y, x0, x1 - 1);
        assert(f(x1 - 1, y) == g(x1 - 1, y) + h(x1 - 1, y));
    }
}

proof fn lemma_block_add(
    f: spec_fn(int, int) -> int,
    g: spec_fn(int, int) -> int,
    h: spec_fn(int, int) -> int,
    x0: int,
    x1: int,
    y0: int,
    y1: int,
)
    requires
        forall|x: int, yy: int| #[trigger] f(x, yy) == g(x, yy) + h(x, yy),
    ensures
        block_sum(f, x0, x1, y0, y1) == block_sum(g, x0, x1, y0, y1) + block_sum(h, x0, x1, y0, y1),
    decreases y1 - y0,
{
    if y1 > y0 {
        lemma_block_add(f, g, h, x0, x1, y0, y1 - 1);
        lemma_row_add(f, g, h, y1 - 1, x0, x1);
    }
}

proof fn lemma_row_zero(f: spec_fn(int, int) -> int, y: int, x0: int, x1: int)
    requires
        forall|x: int, yy: int| #[trigger] f(x, yy) == 0,
    ensures
        row_sum(f, y, x0, x1) == 0,
    decreases x1 - x0,
{
    if x1 > x0 {
        lemma_row_zero(f, y, x0, x1 - 1);
        assert(f(x1 - 1, y) == 0);
    }
}

proof fn lemma_block_zero(f: spec_fn(int, int) -> int, x0: int, x1: int, y0: int, y1: int)
    requires
        forall|x: int, yy: int| #[trigger] f(x, yy) == 0,
    ensures
        block_sum(f, x0, x1, y0, y1) == 0,
    decreases y1 - y0,
{
    if y1 > y0 {
        lemma_block_zero(f, x0, x1, y0, y1 - 1);
        lemma_row_zero(f, y1 - 1, x0, x1);
    }
}

/// The metal of the whole grid is at most the rectangles' total area.
proof fn lemma_grid_total(rects: Seq<Rect>, ox: int, oy: int, s: int, gw: int, gh: int)
    requires
        s >= 1,
        gw >= 0,
        gh >= 0,
    ensures
        block_sum(metal_fn(rects, ox, oy, s), 0, gw, 0, gh) <= total_area(rects),
    decreases rects.len(),
{
    let f = metal_fn(rects, ox, oy, s);
    if rects.len() == 0 {
        assert forall|x: int, yy: int| #[trigger] f(x, yy) == 0 by {}
        lemma_block_zero(f, 0, gw, 0, gh);
    } else {
        let d = rects.drop_last();
        let r = rects.last();
        let g = metal_fn(d, ox, oy, s);
        let h = rect_fn(r, ox, oy, s);
        assert forall|x: int, yy: int| #[trigger] f(x, yy) == g(x, yy) + h(x, yy) by {}
        lemma_block_add(f, g, h, 0, gw, 0, gh);
        lemma_grid_total(d, ox, oy, s, gw, gh);
        lemma_rect_block(r, ox, oy, s, gw, gh);
        lemma_seg_cells(r.x0 as int, r.x1 as int, ox, s, gw);
        lemma_seg_cells(r.y0 as int, r.y1 as int, oy, s, gh);
        let a = seg_cells(r.x0 as int, r.x1 as int, ox, s, gw);
        let b = seg_cells(r.y0 as int, r.y1 as int, oy, s, gh);
        let wx = max_i(0, r.x1 - r.x0);
        let wy = max_i(0, r.y1 - r.y0);
        assert(a * b <= wx * wy) by (nonlinear_arith)
            requires
                0 <= a <= wx,
                0 <= b <= wy,
        ;
    }
}


proof fn lemma_row_split(f: spec_fn(int, int) -> int, y: int, x0: int, x1: int)
    requires
        0 <= x0 <= x1,
    ensures
        row_sum(f, y, 0, x1) == row_sum(f, y, 0, x0) + row_sum(f, y, x0, x1),
    decreases x1 - x0,
{
    if x1 > x0 {
        lemma_row_split(f, y, x0, x1 - 1);
    }
}

proof fn lemma_block_cols(f: spec_fn(int, int) -> int, x0: int, x1: int, y: int)
    requires
        0 <= x0 <= x1,
        y >= 0,
    ensures
        block_sum(f, 0, x1, 0, y) == block_sum(f, 0, x0, 0, y) + block_sum(f, x0, x1, 0, y),
    decreases y,
{
    if y > 0 {
        lemma_block_cols(f, x0, x1, y - 1);
        lemma_row_split(f, y - 1, x0, x1);
    }
}

proof fn lemma_block_rows(f: spec_fn(int, int) -> int, a: int, b: int, y0: int, y1: int)
    requires
        0 <= y0 <= y1,
    ensures
        block_sum(f, a, b, 0, y1) == block_sum(f, a, b, 0, y0) + block_sum(f, a, b, y0, y1),
    decreases y1 - y0,
{
    if y1 > y0 {
        lemma_block_rows(f, a, b, y0, y1 - 1);
    }
}

proof fn lemma_window_sum(f: spec_fn(int, int) -> int, x0: int, x1: int, y0: int, y1: int)
    requires
        0 <= x0 <= x1,
        0 <= y0 <= y1,
    ensures
        block_sum(f, 0, x1, 0, y1) - block_sum(f, 0, x1, 0, y0) - block_sum(f, 0, x0, 0, y1) + block_sum(
            f,
            0,
            x0,
            0,
            y0,
        ) == block_sum(f, x0, x1, y0, y1),
        block_sum(f, x0, x1, y0, y1) == block_sum(f, 0, x1, 0, y1) - block_sum(f, 0, x0, 0, y1) - block_sum(
            f,
            x0,
            x1,
            0,
            y0,
        ),
{
    lemma_block_cols(f, x0, x1, y1);
    lemma_block_cols(f, x0, x1, y0);
    lemma_block_rows(f, x0, x1, y0, y1);
}

/// `f` is non-negative on the `gw x gh` grid.
pub open spec fn nonneg_on(f: spec_fn(int, int) -> int, gw: int, gh: int) -> bool {
    forall|x: int, y: int| 0 <= x < gw && 0 <= y < gh ==> #[trigger] f(x, y) >= 0
}

proof fn lemma_row_nonneg(f: spec_fn(int, int) -> int, gw: int, gh: int, y: int, x0: int, x1: int)
    requires
        nonneg_on(f, gw, gh),
        0 <= y < gh,
        0 <= x0,
        x1 <= gw,
    ensures
        row_sum(f, y, x0, x1) >= 0,
    decreases x1 - x0,
{
    if x1 > x0 {
        lemma_row_nonneg(f, gw, gh, y, x0, x1 - 1);
        assert(f(x1 - 1, y) >= 0);
    }
}

proof fn lemma_block_nonneg(f: spec_fn(int, int) -> int, gw: int, gh: int, x0: int, x1: int, y0: int, y1: int)
    requires
        nonneg_on(f, gw, gh),
        0 <= x0,
        x1 <= gw,
        0 <= y0,
        y1 <= gh,
    ensures
        block_sum(f, x0, x1, y0, y1) >= 0,
    decreases y1 - y0,
{
    if y1 > y0 {
        lemma_block_nonneg(f, gw, gh, x0, x1, y0, y1 - 1);
        lemma_row_nonneg(f, gw, gh, y1 - 1, x0, x1);
    }
}

/// Every partial sum of the grid is between 0 and the grid's total.
proof fn lemma_sums_bounded(f: spec_fn(int, int) -> int, gw: int, gh: int)
    requires
        nonneg_on(f, gw, gh),
        gw >= 0,
        gh >= 0,
    ensures
        forall|x: int, y: int|
            0 <= x <= gw && 0 <= y <= gh ==> 0 <= #[trigger] block_sum(f, 0, x, 0, y) <= block_sum(f, 0, gw, 0, gh),
        forall|x: int, y: int|
            0 <= x <= gw && 0 <= y < gh ==> 0 <= #[trigger] row_sum(f, y, 0, x) <= block_sum(f, 0, gw, 0, gh),
        forall|x: int, y: int| 0 <= x < gw && 0 <= y < gh ==> #[trigger] f(x, y) <= block_sum(f, 0, gw, 0, gh),
        forall|x0: int, x1: int, y0: int, y1: int|
            0 <= x0 <= x1 <= gw && 0 <= y0 <= y1 <= gh ==> 0 <= #[trigger] block_sum(f, x0, x1, y0, y1)
                <= block_sum(f, 0, gw, 0, gh),
{
    let total = block_sum(f, 0, gw, 0, gh);
    assert forall|x: int, y: int| 0 <= x <= gw && 0 <= y <= gh implies 0 <= #[trigger] block_sum(f, 0, x, 0, y)
        <= total by {
        lemma_block_cols(f, x, gw, y);
        lemma_block_nonneg(f, gw, gh, x, gw, 0, y);
        lemma_block_nonneg(f, gw, gh, 0, x, 0, y);
        lemma_block_rows(f, 0, gw, y, gh);
        lemma_block_nonneg(f, gw, gh, 0, gw, y, gh);
    }
    assert forall|x: int, y: int| 0 <= x <= gw && 0 <= y < gh implies 0 <= #[trigger] row_sum(f, y, 0, x)
        <= total by {
        lemma_row_split(f, y, x, gw);
        lemma_row_nonneg(f, gw, gh, y, x, gw);
        lemma_row_nonneg(f, gw, gh, y, 0, x);
        lemma_block_rows(f, 0, gw, y + 1, gh);
        lemma_block_nonneg(f, gw, gh, 0, gw, y + 1, gh);
        lemma_block_nonneg(f, gw, gh, 0, gw, 0, y);
        assert(block_sum(f, 0, gw, 0, y + 1) == block_sum(f, 0, gw, 0, y) + row_sum(f, y, 0, gw));
    }
    assert forall|x: int, y: int| 0 <= x < gw && 0 <= y < gh implies #[trigger] f(x, y) <= total by {
        assert(row_sum(f, y, 0, x + 1) == row_sum(f, y, 0, x) + f(x, y));
        assert(0 <= row_sum(f, y, 0, x) <= total);
        assert(0 <= row_sum(f, y, 0, x + 1) <= total);
    }
    assert forall|x0: int, x1: int, y0: int, y1: int|
        0 <= x0 <= x1 <= gw && 0 <= y0 <= y1 <= gh implies 0 <= #[trigger] block_sum(f, x0, x1, y0, y1)
        <= total by {
        lemma_window_sum(f, x0, x1, y0, y1);
        lemma_block_nonneg(f, gw, gh, x0, x1, y0, y1);
        lemma_block_nonneg(f, gw, gh, x0, x1, 0, y0);
        lemma_block_nonneg(f, gw, gh, 0, x0, 0, y1);
        assert(0 <= block_sum(f, 0, x1, 0, y1) <= total);
    }
}

proof fn lemma_cell_metal_prefix(rects: Seq<Rect>, ox: int, oy: int, s: int, gx: int, gy: int, k: int)
    requires
        0 <= k <= rects.len(),
    ensures
        0 <= cell_metal(rects.take(k), ox, oy, s, gx, gy) <= cell_metal(rects, ox, oy, s, gx, gy),
    decreases rects.len(),
{
    lemma_cell_area_nonneg_all(rects, ox, oy, s, gx, gy);
    if k < rects.len() {
        lemma_cell_metal_prefix(rects.drop_last(), ox, oy, s, gx, gy, k);
        assert(rects.drop_last().take(k) =~= rects.take(k));
    } else {
        assert(rects.take(k) =~= rects);
    }
    lemma_cell_metal_nonneg(rects.take(k), ox, oy, s, gx, gy);
}

proof fn lemma_cell_area_nonneg(r: Rect, cx: int, cy: int, s: int)
    ensures
        cell_area(r, cx, cy, s) >= 0,
{
    let a = seg(r.x0 as int, r.x1 as int, cx, cx + s);
    let b = seg(r.y0 as int, r.y1 as int, cy, cy + s);
    assert(a * b >= 0) by (nonlinear_arith)
        requires
            a >= 0,
            b >= 0,
    ;
}

proof fn lemma_cell_area_nonneg_all(rects: Seq<Rect>, ox: int, oy: int, s: int, gx: int, gy: int)
    ensures
        rects.len() > 0 ==> cell_area(rects.last(), ox + gx * s, oy + gy * s, s) >= 0,
{
    if rects.len() > 0 {
        lemma_cell_area_nonneg(rects.last(), ox + gx * s, oy + gy * s, s);
    }
}

proof fn lemma_cell_metal_nonneg(rects: Seq<Rect>, ox: int, oy: int, s: int, gx: int, gy: int)
    ensures
        cell_metal(rects, ox, oy, s, gx, gy) >= 0,
    decreases rects.len(),
{
    if rects.len() > 0 {
        lemma_cell_metal_nonneg(rects.drop_last(), ox, oy, s, gx, gy);
        lemma_cell_area_nonneg(rects.last(), ox + gx * s, oy + gy * s, s);
    }
}

/// First grid cell that `[a, ..)` can reach along an axis with origin `o`.
pub open spec fn first_cell(a: int, o: int, s: int) -> int {
    if a > o {
        (a - o) / s
    } else {
        0
    }
}

/// One past the last grid cell that `[.., b]` can reach.
pub open spec fn end_cell(b: int, o: int, s: int) -> int {
    if b > o {
        div_up(b - o, s)
    } else {
        0
    }
}

/// First grid cell lying wholly at or after `a`.
pub open spec fn first_inner(a: int, o: int, s: int) -> int {
    if a > o {
        div_up(a - o, s)
    } else {
        0
    }
}

/// One past the last grid cell lying wholly at or before `b`.
pub open spec fn end_inner(b: int, o: int, s: int) -> int {
    if b > o {
        (b - o) / s
    } else {
        0
    }
}

proof fn lemma_seg_outside(a0: int, a1: int, o: int, s: int, g: int)
    requires
        s >= 1,
        g >= 0,
        g < first_cell(a0, o, s) || g >= end_cell(a1, o, s),
    ensures
        seg(a0, a1, o + g * s, o + g * s + s) == 0,
{
    if g < first_cell(a0, o, s) {
        let q = (a0 - o) / s;
        assert((g + 1) * s <= q * s <= a0 - o) by (nonlinear_arith)
            requires
                g + 1 <= q,
                s >= 1,
                q == (a0 - o) / s,
                a0 - o > 0,
        ;
        assert(o + g * s + s == o + (g + 1) * s) by (nonlinear_arith);
    } else {
        if a1 > o {
            let q = div_up(a1 - o, s);
            assert(q * s >= a1 - o) by (nonlinear_arith)
                requires
                    q == (a1 - o + s - 1) / s,
                    s >= 1,
                    a1 - o > 0,
            ;
            assert(g * s >= q * s) by (nonlinear_arith)
                requires
                    g >= q,
                    s >= 1,
            ;
        } else {
            assert(g * s >= 0) by (nonlinear_arith)
                requires
                    g >= 0,
                    s >= 1,
            ;
        }
    }
}

proof fn lemma_seg_inside(a0: int, a1: int, o: int, s: int, g: int)
    requires
        s >= 1,
        first_inner(a0, o, s) <= g < end_inner(a1, o, s),
    ensures
        seg(a0, a1, o + g * s, o + g * s + s) == s,
{
    let q = (a1 - o) / s;
    assert((g + 1) * s <= a1 - o) by (nonlinear_arith)
        requires
            g + 1 <= q,
            s >= 1,
            q == (a1 - o) / s,
            a1 - o > 0,
    ;
    assert(o + g * s + s == o + (g + 1) * s) by (nonlinear_arith);
    if a0 > o {
        let p = div_up(a0 - o, s);
        assert(g * s >= a0 - o) by (nonlinear_arith)
            requires
                g >= p,
                p == (a0 - o + s - 1) / s,
                s >= 1,
                a0 - o > 0,
        ;
    } else {
        assert(g * s >= 0) by (nonlinear_arith)
            requires
                g >= 0,
                s >= 1,
        ;
    }
}

/// Metal area of `r` in the cell with row-major index `c` of a grid `gw`
/// cells wide.
pub open spec fn rect_cell(r: Rect, ox: int, oy: int, s: int, gw: int, c: int) -> int {
    cell_area(r, ox + (c % gw) * s, oy + (c / gw) * s, s)
}

/// Whether cell `(gx, gy)` comes before `(cx, cy)` in row-major order.
pub open spec fn before_cell(gx: int, gy: int, cx: int, cy: int) -> bool {
    gy < cy || (gy == cy && gx < cx)
}

/// Adds `r`'s metal to every cell of the `gw x gh` grid of `s x s` cells
/// with origin `(ox, oy)`.
fn add_rect_metal(grid: &mut Vec<i64>, r: Rect, ox: i64, oy: i64, s: i64, gw: usize, gh: usize)
    requires
        old(grid)@.len() == gw * gh,
        gw * gh <= usize::MAX,
        1 <= s <= 0x4000_0000,
        i32::MIN <= ox <= i32::MAX,
        i32::MIN <= oy <= i32::MAX,
        gw <= 0x1_0000_0001,
        gh <= 0x1_0000_0001,
        forall|c: int|
            0 <= c < gw * gh ==> #[trigger] old(grid)@[c] + rect_cell(r, ox as int, oy as int, s as int, gw as int, c)
                <= i64::MAX,
    ensures
        final(grid)@.len() == gw * gh,
        forall|c: int|
            0 <= c < gw * gh ==> #[trigger] final(grid)@[c] == old(grid)@[c] + rect_cell(r, ox as int, oy as int, s as int, gw as int, c),
{
    let ghost start = grid@;
    let ghost n = gw * gh;
    let x0 = r.x0 as i64;
    let x1 = r.x1 as i64;
    let y0 = r.y0 as i64;
    let y1 = r.y1 as i64;
    let gx0: i64 = if x0 > ox { (x0 - ox) / s } else { 0 };
    let gy0: i64 = if y0 > oy { (y0 - oy) / s } else { 0 };
    let ex: i64 = if x1 > ox { (x1 - ox + s - 1) / s } else { 0 };
    let ey: i64 = if y1 > oy { (y1 - oy + s - 1) / s } else { 0 };
    let gx1: i64 = if ex < gw as i64 { ex } else { gw as i64 };
    let gy1: i64 = if ey < gh as i64 { ey } else { gh as i64 };
    let igx0: i64 = if x0 > ox { (x0 - ox + s - 1) / s } else { 0 };
    let igy0: i64 = if y0 > oy { (y0 - oy + s - 1) / s } else { 0 };
    let ix1: i64 = if x1 > ox { (x1 - ox) / s } else { 0 };
    let iy1: i64 = if y1 > oy { (y1 - oy) / s } else { 0 };
    let igx1: i64 = if ix1 < gw as i64 { ix1 } else { gw as i64 };
    let igy1: i64 = if iy1 < gh as i64 { iy1 } else { gh as i64 };
    assert(s * s <= 0x4000_0000 * 0x4000_0000) by (nonlinear_arith)
        requires
            1 <= s <= 0x4000_0000,
    ;
    let full = s * s;
    assert(gx0 == first_cell(x0 as int, ox as int, s as int));
    assert(gy0 == first_cell(y0 as int, oy as int, s as int));
    assert(ex == end_cell(x1 as int, ox as int, s as int));
    assert(ey == end_cell(y1 as int, oy as int, s as int));
    assert(igx0 == first_inner(x0 as int, ox as int, s as int));
    assert(igy0 == first_inner(y0 as int, oy as int, s as int));
    assert(ix1 == end_inner(x1 as int, ox as int, s as int));
    assert(iy1 == end_inner(y1 as int, oy as int, s as int));
    assert(0 <= gx0 && 0 <= gy0);
    proof {
        assert forall|c: int| 0 <= c < n && before_cell(c % gw as int, c / gw as int, gx0 as int, gy0 as int)
            implies rect_cell(r, ox as int, oy as int, s as int, gw as int, c) == 0 by {
            let gx = c % gw as int;
            let gy = c / gw as int;
            assert(gx >= 0 && gy >= 0) by (nonlinear_arith)
                requires
                    gx == c % gw as int,
                    gy == c / gw as int,
                    c >= 0,
                    gw > 0,
            ;
            if gy < gy0 {
                lemma_seg_outside(y0 as int, y1 as int, oy as int, s as int, gy);
            } else {
                lemma_seg_outside(x0 as int, x1 as int, ox as int, s as int, gx);
            }
        }
    }
    let mut gy: i64 = gy0;
    while gy < gy1
        invariant
            grid@.len() == n,
            n == gw * gh,
            gy0 <= gy,
            gy1 <= gh,
            gh <= 0x1_0000_0001,
            n <= usize::MAX,
            1 <= s <= 0x4000_0000,
            full == s * s,
            i32::MIN <= ox <= i32::MAX,
            i32::MIN <= oy <= i32::MAX,
            gw <= 0x1_0000_0001,
            gx0 == first_cell(x0 as int, ox as int, s as int),
            gy0 == first_cell(y0 as int, oy as int, s as int),
            gx1 <= gw,
            gx1 == gw || gx1 == end_cell(x1 as int, ox as int, s as int),
            gy1 == gh || gy1 == end_cell(y1 as int, oy as int, s as int),
            igx0 == first_inner(x0 as int, ox as int, s as int),
            igy0 == first_inner(y0 as int, oy as int, s as int),
            igx1 <= end_inner(x1 as int, ox as int, s as int),
            igy1 <= end_inner(y1 as int, oy as int, s as int),
            x0 == r.x0,
            x1 == r.x1,
            y0 == r.y0,
            y1 == r.y1,
            forall|c: int|
                0 <= c < n ==> #[trigger] start[c] + rect_cell(r, ox as int, oy as int, s as int, gw as int, c)
                    <= i64::MAX,
            forall|c: int|
                0 <= c < n ==> #[trigger] grid@[c] == start[c] + if before_cell(
                    c % gw as int,
                    c / gw as int,
                    gx0 as int,
                    gy as int,
                ) {
                    rect_cell(r, ox as int, oy as int, s as int, gw as int, c)
                } else {
                    0
                },
        decreases gy1 - gy,
    {
        let inner_y = gy >= igy0 && gy < igy1;
        let mut gx: i64 = gx0;
        while gx < gx1
            invariant
                grid@.len() == n,
                n == gw * gh,
                gx0 <= gx,
                0 <= gy < gh,
                gh <= 0x1_0000_0001,
                n <= usize::MAX,
                gx1 <= gw,
                gx1 == gw || gx1 == end_cell(x1 as int, ox as int, s as int),
                1 <= s <= 0x4000_0000,
                full == s * s,
                i32::MIN <= ox <= i32::MAX,
                i32::MIN <= oy <= i32::MAX,
                gw <= 0x1_0000_0001,
                gx0 == first_cell(x0 as int, ox as int, s as int),
                igx0 == first_inner(x0 as int, ox as int, s as int),
                igx1 <= end_inner(x1 as int, ox as int, s as int),
                inner_y == (igy0 <= gy < igy1),
                igy0 == first_inner(y0 as int, oy as int, s as int),
                igy1 <= end_inner(y1 as int, oy as int, s as int),
                x0 == r.x0,
                x1 == r.x1,
                y0 == r.y0,
                y1 == r.y1,
                forall|c: int|
                    0 <= c < n ==> #[trigger] start[c] + rect_cell(r, ox as int, oy as int, s as int, gw as int, c)
                        <= i64::MAX,
                forall|c: int|
                    0 <= c < n ==> #[trigger] grid@[c] == start[c] + if before_cell(
                        c % gw as int,
                        c / gw as int,
                        gx as int,
                        gy as int,
                    ) {
                        rect_cell(r, ox as int, oy as int, s as int, gw as int, c)
                    } else {
                        0
                    },
            decreases gx1 - gx,
        {
            proof {
                lemma_cell_bound(gw as int, gh as int, gx as int, gy as int);
                lemma_cell_index(gw as int, gx as int, gy as int);
                assert(gx * s <= 0x1_0000_0001 * 0x4000_0000 && gy * s <= 0x1_0000_0001 * 0x4000_0000)
                    by (nonlinear_arith)
                    requires
                        0 <= gx <= 0x1_0000_0001,
                        0 <= gy <= 0x1_0000_0001,
                        1 <= s <= 0x4000_0000,
                ;
            }
            let idx = (gy as usize) * gw + (gx as usize);
            let cx = ox + gx * s;
            let cy = oy + gy * s;
            let add: i64 = if inner_y && gx >= igx0 && gx < igx1 {
                proof {
                    lemma_seg_inside(x0 as int, x1 as int, ox as int, s as int, gx as int);
                    lemma_seg_inside(y0 as int, y1 as int, oy as int, s as int, gy as int);
                }
                full
            } else {
                let lo_x = if cx >= x0 { cx } else { x0 };
                let hi_x = if cx + s <= x1 { cx + s } else { x1 };
                let lo_y = if cy >= y0 { cy } else { y0 };
                let hi_y = if cy + s <= y1 { cy + s } else { y1 };
                if hi_x > lo_x && hi_y > lo_y {
                    assert((hi_x - lo_x) * (hi_y - lo_y) <= s * s) by (nonlinear_arith)
                        requires
                            0 < hi_x - lo_x <= s,
                            0 < hi_y - lo_y <= s,
                    ;
                    (hi_x - lo_x) * (hi_y - lo_y)
                } else {
                    proof {
                        let a = seg(x0 as int, x1 as int, cx as int, cx + s);
                        let b = seg(y0 as int, y1 as int, cy as int, cy + s);
                        assert(a == 0 || b == 0);
                        assert(a * b == 0) by (nonlinear_arith)
                            requires
                                a == 0 || b == 0,
                        ;
                    }
                    0
                }
            };
            assert(add == cell_area(r, cx as int, cy as int, s as int));
            let old_v = grid[idx];
            assert(old_v == start[idx as int]);
            grid.set(idx, old_v + add);
            proof {
                assert forall|c: int| 0 <= c < n implies #[trigger] grid@[c] == start[c] + if before_cell(
                    c % gw as int,
                    c / gw as int,
                    gx + 1,
                    gy as int,
                ) {
                    rect_cell(r, ox as int, oy as int, s as int, gw as int, c)
                } else {
                    0
                } by {
                    if c != idx {
                        let a = c % gw as int;
                        let b = c / gw as int;
                        lemma_cell_index(gw as int, a, b);
                        if a == gx && b == gy {
                            assert(c == b * gw + a) by (nonlinear_arith)
                                requires
                                    a == c % gw as int,
                                    b == c / gw as int,
                                    gw > 0,
                            ;
                        }
                    }
                }
            }
            gx = gx + 1;
        }
        proof {
            assert forall|c: int| 0 <= c < n implies #[trigger] grid@[c] == start[c] + if before_cell(
                c % gw as int,
                c / gw as int,
                gx0 as int,
                gy + 1,
            ) {
                rect_cell(r, ox as int, oy as int, s as int, gw as int, c)
            } else {
                0
            } by {
                let a = c % gw as int;
                let b = c / gw as int;
                assert(a >= 0 && b >= 0 && a < gw) by (nonlinear_arith)
                    requires
                        a == c % gw as int,
                        b == c / gw as int,
                        c >= 0,
                        gw > 0,
                ;
                if b == gy && a >= gx {
                    assert(gx1 == end_cell(x1 as int, ox as int, s as int));
                    lemma_seg_outside(x0 as int, x1 as int, ox as int, s as int, a);
                }
                if b == gy + 1 && a < gx0 {
                    lemma_seg_outside(x0 as int, x1 as int, ox as int, s as int, a);
                }
            }
        }
        gy = gy + 1;
    }
    proof {
        assert forall|c: int| 0 <= c < n implies #[trigger] grid@[c] == start[c] + rect_cell(r, ox as int, oy as int, s as int, gw as int, c) by {
            let a = c % gw as int;
            let b = c / gw as int;
            assert(a >= 0 && b >= 0 && a < gw && b < gh) by (nonlinear_arith)
                requires
                    a == c % gw as int,
                    b == c / gw as int,
                    0 <= c < gw * gh,
                    gw > 0,
            ;
            if !before_cell(a, b, gx0 as int, gy as int) {
                assert(gy1 == end_cell(y1 as int, oy as int, s as int));
                lemma_seg_outside(y0 as int, y1 as int, oy as int, s as int, b);
            }
        }
    }
}

proof fn lemma_block_no_cols(f: spec_fn(int, int) -> int, y: int)
    requires
        y >= 0,
    ensures
        block_sum(f, 0, 0, 0, y) == 0,
    decreases y,
{
    if y > 0 {
        lemma_block_no_cols(f, y - 1);
    }
}

/// Builds the summed-area table of the `gw x gh` grid: entry
/// `y * (gw + 1) + x` is the sum of the cells left of column `x` and below
/// row `y`.
fn build_metal_sat(grid: &Vec<i64>, gw: usize, gh: usize, Ghost(f): Ghost<spec_fn(int, int) -> int>) -> (sat: Vec<i64>)
    requires
        grid@.len() == gw * gh,
        (gw + 1) * (gh + 1) <= usize::MAX,
        nonneg_on(f, gw as int, gh as int),
        block_sum(f, 0, gw as int, 0, gh as int) <= i64::MAX,
        forall|c: int| 0 <= c < gw * gh ==> #[trigger] grid@[c] == f(c % gw as int, c / gw as int),
    ensures
        sat@.len() == (gw + 1) * (gh + 1),
        forall|c: int|
            0 <= c < (gw + 1) * (gh + 1) ==> #[trigger] sat@[c] == block_sum(
                f,
                0,
                c % (gw as int + 1),
                0,
                c / (gw as int + 1),
            ),
{
    assert(gw + 1 <= usize::MAX && gh + 1 <= usize::MAX) by (nonlinear_arith)
        requires
            (gw + 1) * (gh + 1) <= usize::MAX,
            gw >= 0,
            gh >= 0,
    ;
    let sw = gw + 1;
    let total = sw * (gh + 1);
    let ghost t = block_sum(f, 0, gw as int, 0, gh as int);
    proof {
        lemma_sums_bounded(f, gw as int, gh as int);
    }
    let mut sat: Vec<i64> = Vec::new();
    let mut k: usize = 0;
    while k < total
        invariant
            k <= total,
            sat@.len() == k,
            forall|c: int| 0 <= c < k ==> sat@[c] == 0,
        decreases total - k,
    {
        sat.push(0);
        k = k + 1;
    }
    proof {
        assert forall|c: int| 0 <= c < total implies #[trigger] sat@[c] == if c / (sw as int) <= 0 {
            block_sum(f, 0, c % (sw as int), 0, c / (sw as int))
        } else {
            0
        } by {
            assert(c / (sw as int) >= 0) by (nonlinear_arith)
                requires
                    c >= 0,
                    sw > 0,
            ;
        }
    }
    let mut gy: usize = 0;
    while gy < gh
        invariant
            gy <= gh,
            sw == gw + 1,
            total == sw * (gh + 1),
            total <= usize::MAX,
            grid@.len() == gw * gh,
            sat@.len() == total,
            nonneg_on(f, gw as int, gh as int),
            t == block_sum(f, 0, gw as int, 0, gh as int),
            t <= i64::MAX,
            forall|c: int| 0 <= c < gw * gh ==> #[trigger] grid@[c] == f(c % gw as int, c / gw as int),
            forall|x: int, y: int|
                0 <= x <= gw && 0 <= y <= gh ==> 0 <= #[trigger] block_sum(f, 0, x, 0, y) <= t,
            forall|x: int, y: int| 0 <= x <= gw && 0 <= y < gh ==> 0 <= #[trigger] row_sum(f, y, 0, x) <= t,
            forall|c: int|
                0 <= c < total ==> #[trigger] sat@[c] == if c / (sw as int) <= gy {
                    block_sum(f, 0, c % (sw as int), 0, c / (sw as int))
                } else {
                    0
                },
        decreases gh - gy,
    {
        let mut row: i64 = 0;
        let mut gx: usize = 0;
        proof {
            lemma_block_no_cols(f, gy + 1);
        }
        while gx < gw
            invariant
                gx <= gw,
                gy < gh,
                sw == gw + 1,
                total == sw * (gh + 1),
                total <= usize::MAX,
                grid@.len() == gw * gh,
                sat@.len() == total,
                t <= i64::MAX,
                forall|c: int| 0 <= c < gw * gh ==> #[trigger] grid@[c] == f(c % gw as int, c / gw as int),
                forall|x: int, y: int|
                    0 <= x <= gw && 0 <= y <= gh ==> 0 <= #[trigger] block_sum(f, 0, x, 0, y) <= t,
                forall|x: int, y: int| 0 <= x <= gw && 0 <= y < gh ==> 0 <= #[trigger] row_sum(f, y, 0, x) <= t,
                row == row_sum(f, gy as int, 0, gx as int),
                block_sum(f, 0, 0, 0, gy + 1) == 0,
                forall|c: int|
                    0 <= c < total ==> #[trigger] sat@[c] == if c / (sw as int) <= gy || (c / (sw as int) == gy + 1
                        && c % (sw as int) <= gx) {
                        block_sum(f, 0, c % (sw as int), 0, c / (sw as int))
                    } else {
                        0
                    },
            decreases gw - gx,
        {
            proof {
                lemma_cell_bound(gw as int, gh as int, gx as int, gy as int);
                lemma_cell_index(gw as int, gx as int, gy as int);
                lemma_cell_bound(sw as int, gh + 1, gx + 1, gy as int);
                lemma_cell_index(sw as int, gx + 1, gy as int);
                lemma_cell_bound(sw as int, gh + 1, gx + 1, gy + 1);
                lemma_cell_index(sw as int, gx + 1, gy + 1);
                assert(gw * gh <= total) by (nonlinear_arith)
                    requires
                        total == (gw + 1) * (gh + 1),
                ;
            }
            let g = grid[gy * gw + gx];
            assert(row + g == row_sum(f, gy as int, 0, gx + 1));
            row = row + g;
            let above = sat[gy * sw + gx + 1];
            assert(above == block_sum(f, 0, gx + 1, 0, gy as int));
            assert(row + above == block_sum(f, 0, gx + 1, 0, gy + 1));
            let dst = (gy + 1) * sw + gx + 1;
            sat.set(dst, row + above);
            proof {
                assert forall|c: int| 0 <= c < total implies #[trigger] sat@[c] == if c / (sw as int) <= gy || (c
                    / (sw as int) == gy + 1 && c % (sw as int) <= gx + 1) {
                    block_sum(f, 0, c % (sw as int), 0, c / (sw as int))
                } else {
                    0
                } by {
                    if c != dst {
                        let a = c % (sw as int);
                        let b = c / (sw as int);
                        assert(0 <= a < sw) by (nonlinear_arith)
                            requires
                                a == c % (sw as int),
                                sw > 0,
                        ;
                        assert(c == b * sw + a) by (nonlinear_arith)
                            requires
                                a == c % (sw as int),
                                b == c / (sw as int),
                                sw > 0,
                        ;
                    }
                }
            }
            gx = gx + 1;
        }
        proof {
            assert forall|c: int| 0 <= c < total implies #[trigger] sat@[c] == if c / (sw as int) <= gy + 1 {
                block_sum(f, 0, c % (sw as int), 0, c / (sw as int))
            } else {
                0
            } by {
                let a = c % (sw as int);
                assert(0 <= a < sw) by (nonlinear_arith)
                    requires
                        a == c % (sw as int),
                        sw > 0,
                ;
            }
        }
        gy = gy + 1;
    }
    proof {
        assert forall|c: int| 0 <= c < total implies #[trigger] sat@[c] == block_sum(
            f,
            0,
            c % (gw as int + 1),
            0,
            c / (gw as int + 1),
        ) by {
            assert(c / (sw as int) <= gh) by (nonlinear_arith)
                requires
                    0 <= c < sw * (gh + 1),
                    sw > 0,
            ;
        }
    }
    sat
}

proof fn lemma_steps_below(i: int, s: int, a: int)
    requires
        s >= 1,
        i >= 0,
    ensures
        (i * s <= a) == (a >= 0 && i < a / s + 1),
{
    if a >= 0 {
        let q = a / s;
        assert((i * s <= a) == (i <= q)) by (nonlinear_arith)
            requires
                q == a / s,
                s >= 1,
                i >= 0,
                a >= 0,
        ;
    } else {
        assert(i * s >= 0) by (nonlinear_arith)
            requires
                s >= 1,
                i >= 0,
        ;
    }
}

/// Scans the density windows, appending each window's violations.
#[verifier::rlimit(60)]
fn scan_windows(
    rects: &[Rect],
    lim: &DrcLimits,
    d: DensityLimits,
    bb: Rect,
    sat: &Vec<i64>,
    s: i64,
    gw: usize,
    gh: usize,
    v: &mut Vec<DrcViolation>,
    cap: Option<usize>,
)
    requires
        lim.density == Some(d),
        density_on(rects@, *lim),
        bb == bbox(rects@),
        bb.x1 >= bb.x0,
        bb.y1 >= bb.y0,
        s == grid_step(*lim),
        gw == grid_cols(rects@, *lim),
        gh == grid_rows(rects@, *lim),
        gw > 0,
        gh > 0,
        (gw + 1) * (gh + 1) <= usize::MAX,
        sat@.len() == (gw + 1) * (gh + 1),
        nonneg_on(grid_metal(rects@, *lim), gw as int, gh as int),
        block_sum(grid_metal(rects@, *lim), 0, gw as int, 0, gh as int) * 1000 <= i64::MAX,
        forall|c: int|
            0 <= c < (gw + 1) * (gh + 1) ==> #[trigger] sat@[c] == block_sum(
                grid_metal(rects@, *lim),
                0,
                c % (gw as int + 1),
                0,
                c / (gw as int + 1),
            ),
    ensures
        final(v)@ == capped_run(old(v)@, density_chunks(rects@, *lim), cap),
{
    let ghost f = grid_metal(rects@, *lim);
    let ghost t = block_sum(f, 0, gw as int, 0, gh as int);
    let ghost dc = density_chunks(rects@, *lim);
    let win = d.window as i64;
    let ox = bb.x0 as i64;
    let oy = bb.y0 as i64;
    let ghost nx = window_count(bb.x1 - bb.x0, win as int, s as int);
    let ghost ny = window_count(bb.y1 - bb.y0, win as int, s as int);
    proof {
        lemma_sums_bounded(f, gw as int, gh as int);
        assert(s >= 1);
        assert(nx >= 0 && ny >= 0);
        assert(nx * ny >= 0) by (nonlinear_arith)
            requires
                nx >= 0,
                ny >= 0,
        ;
        assert(dc.len() == nx * ny);
        assert(win * win <= 0x8000_0000 * 0x8000_0000) by (nonlinear_arith)
            requires
                1 <= win <= 0x7fff_ffff,
        ;
        assert(gw + 1 <= usize::MAX) by (nonlinear_arith)
            requires
                (gw + 1) * (gh + 1) <= usize::MAX,
                gh >= 0,
        ;
    }
    let sw = gw + 1;
    let wc: i64 = win / s;
    let area = win * win;
    let ghost v0 = v@;
    let ghost mut k: int = 0;
    let ghost mut ix: int = 0;
    let mut wx: i64 = ox;
    proof {
        assert(dc.skip(0) =~= dc);
    }
    while wx + win <= bb.x1 as i64
        invariant
            lim.density == Some(d),
            density_on(rects@, *lim),
            bb == bbox(rects@),
            bb.x1 >= bb.x0,
            bb.y1 >= bb.y0,
            s == grid_step(*lim),
            s >= 1,
            win == d.window,
            win >= 1,
            area == win * win,
            wc == win / s,
            ox == bb.x0,
            oy == bb.y0,
            gw == grid_cols(rects@, *lim),
            gh == grid_rows(rects@, *lim),
            sw == gw + 1,
            (gw + 1) * (gh + 1) <= usize::MAX,
            sat@.len() == (gw + 1) * (gh + 1),
            f == grid_metal(rects@, *lim),
            t == block_sum(f, 0, gw as int, 0, gh as int),
            t * 1000 <= i64::MAX,
            forall|c: int|
                0 <= c < (gw + 1) * (gh + 1) ==> #[trigger] sat@[c] == block_sum(
                    f,
                    0,
                    c % (gw as int + 1),
                    0,
                    c / (gw as int + 1),
                ),
            forall|x0: int, x1: int, y0: int, y1: int|
                0 <= x0 <= x1 <= gw && 0 <= y0 <= y1 <= gh ==> 0 <= #[trigger] block_sum(f, x0, x1, y0, y1) <= t,
            dc == density_chunks(rects@, *lim),
            nx == window_count(bb.x1 - bb.x0, win as int, s as int),
            ny == window_count(bb.y1 - bb.y0, win as int, s as int),
            dc.len() == nx * ny,
            ny >= 0,
            0 <= ix <= nx,
            wx == ox + ix * s,
            k == ix * ny,
            old(v)@ == v0,
            oy <= bb.y1,
            ox <= wx <= bb.x1 as i64 + s,
            capped_run(v0, dc, cap) == capped_run(v@, dc.skip(k), cap),
        decreases bb.x1 - wx,
    {
        proof {
            lemma_steps_below(ix, s as int, bb.x1 - bb.x0 - win);
            assert(ix < nx);
        }
        let ghost mut iy: int = 0;
        let mut wy: i64 = oy;
        while wy + win <= bb.y1 as i64
            invariant
                lim.density == Some(d),
                density_on(rects@, *lim),
                bb == bbox(rects@),
                bb.x1 >= bb.x0,
                bb.y1 >= bb.y0,
                s == grid_step(*lim),
                s >= 1,
                win == d.window,
                win >= 1,
                area == win * win,
                wc == win / s,
                ox == bb.x0,
                oy == bb.y0,
                gw == grid_cols(rects@, *lim),
                gh == grid_rows(rects@, *lim),
                sw == gw + 1,
                (gw + 1) * (gh + 1) <= usize::MAX,
                sat@.len() == (gw + 1) * (gh + 1),
                f == grid_metal(rects@, *lim),
                t == block_sum(f, 0, gw as int, 0, gh as int),
                t * 1000 <= i64::MAX,
                forall|c: int|
                    0 <= c < (gw + 1) * (gh + 1) ==> #[trigger] sat@[c] == block_sum(
                        f,
                        0,
                        c % (gw as int + 1),
                        0,
                        c / (gw as int + 1),
                    ),
                forall|x0: int, x1: int, y0: int, y1: int|
                    0 <= x0 <= x1 <= gw && 0 <= y0 <= y1 <= gh ==> 0 <= #[trigger] block_sum(f, x0, x1, y0, y1)
                        <= t,
                dc == density_chunks(rects@, *lim),
                nx == window_count(bb.x1 - bb.x0, win as int, s as int),
                ny == window_count(bb.y1 - bb.y0, win as int, s as int),
                dc.len() == nx * ny,
                0 <= ix < nx,
                wx == ox + ix * s,
                wx + win <= bb.x1,
                0 <= iy <= ny,
                wy == oy + iy * s,
                k == ix * ny + iy,
                old(v)@ == v0,
                oy <= wy <= bb.y1 as i64 + s,
                capped_run(v0, dc, cap) == capped_run(v@, dc.skip(k), cap),
            decreases bb.y1 - wy,
        {
            proof {
                lemma_steps_below(iy, s as int, bb.y1 - bb.y0 - win);
                assert(iy < ny);
                assert(k < nx * ny) by (nonlinear_arith)
                    requires
                        k == ix * ny + iy,
                        0 <= ix < nx,
                        0 <= iy < ny,
                ;
            }
            if is_reached(v, cap) {
                proof {
                    lemma_capped_run_reached(v@, dc.skip(k), cap);
                }
                return;
            }
            // The window's cells.
            proof {
                assert(ix * s <= bb.x1 - bb.x0 && iy * s <= bb.y1 - bb.y0);
                assert(ix <= gw && iy <= gh) by (nonlinear_arith)
                    requires
                        ix * s <= bb.x1 - bb.x0,
                        iy * s <= bb.y1 - bb.y0,
                        gw == (bb.x1 - bb.x0 + s - 1) / (s as int),
                        gh == (bb.y1 - bb.y0 + s - 1) / (s as int),
                        s >= 1,
                        ix >= 0,
                        iy >= 0,
                ;
                assert((wx - ox) / (s as int) == ix && (wy - oy) / (s as int) == iy) by (nonlinear_arith)
                    requires
                        wx - ox == ix * s,
                        wy - oy == iy * s,
                        s >= 1,
                ;
            }
            let gx0 = ((wx - ox) / s) as usize;
            let gy0 = ((wy - oy) / s) as usize;
            let gx1: usize = if (gx0 as i64) + wc < gw as i64 {
                ((gx0 as i64) + wc) as usize
            } else {
                gw
            };
            let gy1: usize = if (gy0 as i64) + wc < gh as i64 {
                ((gy0 as i64) + wc) as usize
            } else {
                gh
            };
            proof {
                lemma_cell_bound(sw as int, gh + 1, gx1 as int, gy1 as int);
                lemma_cell_index(sw as int, gx1 as int, gy1 as int);
                lemma_cell_bound(sw as int, gh + 1, gx1 as int, gy0 as int);
                lemma_cell_index(sw as int, gx1 as int, gy0 as int);
                lemma_cell_bound(sw as int, gh + 1, gx0 as int, gy1 as int);
                lemma_cell_index(sw as int, gx0 as int, gy1 as int);
                lemma_cell_bound(sw as int, gh + 1, gx0 as int, gy0 as int);
                lemma_cell_index(sw as int, gx0 as int, gy0 as int);
                lemma_window_sum(f, gx0 as int, gx1 as int, gy0 as int, gy1 as int);
            }
            let s11 = sat[gy1 * sw + gx1];
            let s10 = sat[gy0 * sw + gx1];
            let s01 = sat[gy1 * sw + gx0];
            let s00 = sat[gy0 * sw + gx0];
            let metal = s11 - s10 - s01 + s00;
            assert(metal == window_metal(rects@, *lim, ix, iy));
            proof {
                assert(0 <= metal <= t);
                assert(0 <= metal * 1000 <= i64::MAX) by (nonlinear_arith)
                    requires
                        0 <= metal <= t,
                        t * 1000 <= i64::MAX,
                ;
                assert(area >= 1) by (nonlinear_arith)
                    requires
                        area == win * win,
                        win >= 1,
                ;
            }
            let permille = metal * 1000 / area;
            let ghost before = v@;
            let loc = (wx as i32, wy as i32);
            if metal > d.max_metal {
                v.push(DrcViolation { rule: DrcRule::DensityMax, rect_index: 0, other_index: 0, value: permille, limit: d.max_permille, location: loc });
            }
            if d.min_metal > 0 && metal < d.min_metal {
                v.push(DrcViolation { rule: DrcRule::DensityMin, rect_index: 0, other_index: 0, value: permille, limit: d.min_permille, location: loc });
            }
            proof {
                lemma_cell_index(ny, iy, ix);
                assert(dc[k] == window_chunk(rects@, *lim, ix, iy));
                assert(v@ =~= before + dc[k]);
                assert(dc.skip(k)[0] == dc[k]);
                assert(dc.skip(k).drop_first() =~= dc.skip(k + 1));
                k = k + 1;
                iy = iy + 1;
                assert(oy + (iy - 1) * s + s == oy + iy * s) by (nonlinear_arith);
            }
            wy = wy + s;
        }
        proof {
            lemma_steps_below(iy, s as int, bb.y1 - bb.y0 - win);
            assert(iy == ny);
            assert(k == (ix + 1) * ny) by (nonlinear_arith)
                requires
                    k == ix * ny + ny,
            ;
            ix = ix + 1;
            assert(ox + (ix - 1) * s + s == ox + ix * s) by (nonlinear_arith);
        }
        wx = wx + s;
    }
    proof {
        lemma_steps_below(ix, s as int, bb.x1 - bb.x0 - win);
        assert(ix == nx);
        assert(dc.skip(k) =~= Seq::<Seq<DrcViolation>>::empty());
    }
}

/// Appends the density violations, window by window.
fn check_density(rects: &[Rect], lim: &DrcLimits, v: &mut Vec<DrcViolation>, cap: Option<usize>)
    requires
        density_fits(rects@, *lim),
    ensures
        final(v)@ == capped_run(old(v)@, density_chunks(rects@, *lim), cap),
{
    let d = match lim.density {
        Some(d) => d,
        None => {
            return ;
        },
    };
    let bb = match bounding_box(rects) {
        Some(bb) => bb,
        None => {
            return ;
        },
    };
    proof {
        lemma_bbox(rects@, bb);
    }
    if d.window <= 0 {
        return ;
    }
    let win = d.window as i64;
    let s: i64 = if win / 2 < 1 {
        1
    } else {
        win / 2
    };
    let wbb = bb.x1 as i64 - bb.x0 as i64;
    let hbb = bb.y1 as i64 - bb.y0 as i64;
    proof {
        assert(density_on(rects@, *lim));
        assert(density_fits(rects@, *lim));
        assert(s == grid_step(*lim));
        assert(0 <= wbb <= 0xffff_ffff && 0 <= hbb <= 0xffff_ffff);
        assert((wbb + s - 1) / (s as int) <= 0xffff_ffff && (hbb + s - 1) / (s as int) <= 0xffff_ffff)
            by (nonlinear_arith)
            requires
                0 <= wbb <= 0xffff_ffff,
                0 <= hbb <= 0xffff_ffff,
                s >= 1,
        ;
    }
    let gw = ((wbb + s - 1) / s) as usize;
    let gh = ((hbb + s - 1) / s) as usize;
    assert(gw == grid_cols(rects@, *lim) && gh == grid_rows(rects@, *lim));
    if gw == 0 || gh == 0 {
        return ;
    }
    let ghost f = grid_metal(rects@, *lim);
    let ghost t = block_sum(f, 0, gw as int, 0, gh as int);
    proof {
        assert(gw <= 0x1_0000_0001 && gh <= 0x1_0000_0001) by (nonlinear_arith)
            requires
                gw == (wbb + s - 1) / (s as int),
                gh == (hbb + s - 1) / (s as int),
                0 <= wbb <= 0xffff_ffff,
                0 <= hbb <= 0xffff_ffff,
                s >= 1,
        ;
        assert(gw * gh <= (gw + 1) * (gh + 1)) by (nonlinear_arith)
            requires
                gw >= 0,
                gh >= 0,
        ;
        assert forall|x: int, y: int| 0 <= x < gw && 0 <= y < gh implies #[trigger] f(x, y) >= 0 by {
            lemma_cell_metal_nonneg(rects@, bb.x0 as int, bb.y0 as int, s as int, x, y);
        }
        lemma_sums_bounded(f, gw as int, gh as int);
        lemma_grid_total(rects@, bb.x0 as int, bb.y0 as int, s as int, gw as int, gh as int);
        assert(t * 1000 <= i64::MAX);
    }
    let n = gw * gh;
    let mut grid: Vec<i64> = Vec::new();
    let mut c: usize = 0;
    while c < n
        invariant
            c <= n,
            grid@.len() == c,
            forall|j: int| 0 <= j < c ==> grid@[j] == 0,
        decreases n - c,
    {
        grid.push(0);
        c = c + 1;
    }
    let ox = bb.x0 as i64;
    let oy = bb.y0 as i64;
    let mut k: usize = 0;
    proof {
        assert forall|j: int| 0 <= j < n implies #[trigger] grid@[j] == cell_metal(
            rects@.take(0),
            ox as int,
            oy as int,
            s as int,
            j % gw as int,
            j / gw as int,
        ) by {
            assert(rects@.take(0) =~= Seq::<Rect>::empty());
        }
    }
    while k < rects.len()
        invariant
            k <= rects@.len(),
            grid@.len() == n,
            n == gw * gh,
            n <= usize::MAX,
            1 <= s <= 0x4000_0000,
            ox == bb.x0,
            oy == bb.y0,
            gw <= 0x1_0000_0001,
            gh <= 0x1_0000_0001,
            f == metal_fn(rects@, bb.x0 as int, bb.y0 as int, s as int),
            t == block_sum(f, 0, gw as int, 0, gh as int),
            t * 1000 <= i64::MAX,
            forall|x: int, y: int| 0 <= x < gw && 0 <= y < gh ==> #[trigger] f(x, y) <= t,
            forall|j: int|
                0 <= j < n ==> #[trigger] grid@[j] == cell_metal(
                    rects@.take(k as int),
                    ox as int,
                    oy as int,
                    s as int,
                    j % gw as int,
                    j / gw as int,
                ),
        decreases rects@.len() - k,
    {
        let r = rects[k];
        proof {
            assert forall|j: int| 0 <= j < n implies #[trigger] grid@[j] + rect_cell(
                r,
                ox as int,
                oy as int,
                s as int,
                gw as int,
                j,
            ) <= i64::MAX by {
                let x = j % gw as int;
                let y = j / gw as int;
                assert(0 <= x < gw && 0 <= y < gh) by (nonlinear_arith)
                    requires
                        x == j % gw as int,
                        y == j / gw as int,
                        0 <= j < gw * gh,
                        gw > 0,
                ;
                assert(rects@.take(k + 1).drop_last() =~= rects@.take(k as int));
                assert(rects@.take(k + 1).last() == r);
                lemma_cell_metal_prefix(rects@, ox as int, oy as int, s as int, x, y, k + 1);
                assert(f(x, y) <= t);
            }
        }
        add_rect_metal(&mut grid, r, ox, oy, s, gw, gh);
        proof {
            assert forall|j: int| 0 <= j < n implies #[trigger] grid@[j] == cell_metal(
                rects@.take(k + 1),
                ox as int,
                oy as int,
                s as int,
                j % gw as int,
                j / gw as int,
            ) by {
                assert(rects@.take(k + 1).drop_last() =~= rects@.take(k as int));
                assert(rects@.take(k + 1).last() == r);
            }
        }
        k = k + 1;
    }
    proof {
        assert(rects@.take(rects@.len() as int) =~= rects@);
        assert(nonneg_on(f, gw as int, gh as int));
    }
    let sat = build_metal_sat(&grid, gw, gh, Ghost(f));
    scan_windows(rects, lim, d, bb, &sat, s, gw, gh, v, cap);
}

// ---------------------------------------------------------------------------
// The whole check.

/// What the checks compute fits the integer types they use.
pub open spec fn drc_input_ok(rects: Seq<Rect>, lim: DrcLimits) -> bool {
    &&& rects.len() <= u32::MAX
    &&& dims_fit(rects)
    &&& search_fits(rects, lim)
    &&& density_fits(rects, lim)
}

/// The violations that a check reports when spacing candidates are listed
/// by `hits`: per rectangle its width, maximum-width and area violations,
/// then per rectangle its spacing violations, then per density window its
/// density violations; with a cap, the check stops at the first rectangle
/// or window met once the cap is reached.
pub open spec fn drc_result(
    rects: Seq<Rect>,
    lim: DrcLimits,
    cap: Option<usize>,
    hits: Seq<Seq<u32>>,
) -> Seq<DrcViolation> {
    capped_run(
        Seq::empty(),
        width_chunks(rects, lim) + spacing_chunks(rects, lim, hits) + density_chunks(rects, lim),
        cap,
    )
}

proof fn lemma_result_split(
    rects: Seq<Rect>,
    lim: DrcLimits,
    cap: Option<usize>,
    hits: Seq<Seq<u32>>,
)
    ensures
        drc_result(rects, lim, cap, hits) == capped_run(
            capped_run(capped_run(Seq::empty(), width_chunks(rects, lim), cap), spacing_chunks(rects, lim, hits), cap),
            density_chunks(rects, lim),
            cap,
        ),
{
    let wc = width_chunks(rects, lim);
    let sc = spacing_chunks(rects, lim, hits);
    let dc = density_chunks(rects, lim);
    lemma_capped_run_append(Seq::empty(), wc + sc, dc, cap);
    lemma_capped_run_append(Seq::empty(), wc, sc, cap);
}

/// Check `rects` against the design rules, stopping once `max_violations`
/// violations are found (the rectangle or window being checked when the
/// cap is reached still reports all its violations). Spacing candidates
/// come from an R-tree, whose order is not stated: the result is that of
/// some listing of the candidates.
pub fn check_drc_capped(rects: &[Rect], lim: &DrcLimits, max_violations: Option<usize>) -> (r: Vec<DrcViolation>)
    requires
        drc_input_ok(rects@, *lim),
    ensures
        exists|hits: Seq<Seq<u32>>|
            valid_hits(rects@, *lim, hits) && r@ == drc_result(rects@, *lim, max_violations, hits),
{
    let cap = max_violations;
    let mut v: Vec<DrcViolation> = Vec::new();
    let ghost wc = width_chunks(rects@, *lim);
    let n = rects.len();
    let mut i: usize = 0;
    proof {
        assert(wc.skip(0) =~= wc);
    }
    while i < n
        invariant
            0 <= i <= n,
            n == rects@.len(),
            drc_input_ok(rects@, *lim),
            wc == width_chunks(rects@, *lim),
            cap == max_violations,
            capped_run(Seq::empty(), wc, cap) == capped_run(v@, wc.skip(i as int), cap),
        decreases n - i,
    {
        if is_reached(&v, cap) {
            proof {
                let hits = Seq::<Seq<u32>>::empty() + some_hits(rects@, *lim).skip(0);
                lemma_some_hits(rects@, *lim, Seq::empty());
                lemma_result_split(rects@, *lim, cap, hits);
                lemma_capped_run_reached(v@, wc.skip(i as int), cap);
                lemma_capped_run_reached(v@, spacing_chunks(rects@, *lim, hits), cap);
                lemma_capped_run_reached(v@, density_chunks(rects@, *lim), cap);
                assert(valid_hits(rects@, *lim, hits) && v@ == drc_result(rects@, *lim, max_violations, hits));
                assert(exists|h: Seq<Seq<u32>>|
                    valid_hits(rects@, *lim, h) && v@ == drc_result(rects@, *lim, max_violations, h));
            }
            return v;
        }
        let ghost before = v@;
        proof {
            assert(wc.skip(i as int)[0] == wc[i as int]);
            assert(wc.skip(i as int).drop_first() =~= wc.skip(i + 1));
            assert(dims_fit(rects@));
            assert(rects@[i as int].width_fits() && rects@[i as int].height_fits());
        }
        push_width_chunk(&mut v, rects[i], i, lim);
        i = i + 1;
    }
    let ghost v1 = v@;
    proof {
        assert(wc.skip(n as int) =~= Seq::<Seq<DrcViolation>>::empty());
        assert(v1 == capped_run(Seq::empty(), wc, cap));
    }
    let index = build_rect_index(rects);
    let margin: i64 = match lim.wide_metal_spacing {
        Some(ws) => if lim.min_spacing >= ws {
            lim.min_spacing as i64
        } else {
            ws as i64
        },
        None => lim.min_spacing as i64,
    };
    let ghost mut hs: Seq<Seq<u32>> = Seq::empty();
    let mut i: usize = 0;
    proof {
        assert(spacing_chunks(rects@, *lim, hs) =~= Seq::<Seq<DrcViolation>>::empty());
    }
    while i < n
        invariant
            0 <= i <= n,
            n == rects@.len(),
            drc_input_ok(rects@, *lim),
            margin == search_margin(*lim),
            cap == max_violations,
            index_entries(index) == rect_envelopes(rects@),
            hs.len() == i,
            forall|k: int| 0 <= k < i ==> hits_of(rects@, *lim, k, #[trigger] hs[k]),
            v1 == capped_run(Seq::empty(), width_chunks(rects@, *lim), cap),
            v@ == capped_run(v1, spacing_chunks(rects@, *lim, hs), cap),
        decreases n - i,
    {
        if is_reached(&v, cap) {
            proof {
                lemma_some_hits(rects@, *lim, hs);
                let hits = hs + some_hits(rects@, *lim).skip(hs.len() as int);
                let rest = spacing_chunks(rects@, *lim, hits).skip(i as int);
                assert(spacing_chunks(rects@, *lim, hits) =~= spacing_chunks(rects@, *lim, hs) + rest);
                lemma_capped_run_append(v1, spacing_chunks(rects@, *lim, hs), rest, cap);
                lemma_capped_run_reached(v@, rest, cap);
                lemma_capped_run_reached(v@, density_chunks(rects@, *lim), cap);
                lemma_result_split(rects@, *lim, cap, hits);
                assert(valid_hits(rects@, *lim, hits) && v@ == drc_result(rects@, *lim, max_violations, hits));
                assert(exists|h: Seq<Seq<u32>>|
                    valid_hits(rects@, *lim, h) && v@ == drc_result(rects@, *lim, max_violations, h));
            }
            return v;
        }
        let r = &rects[i];
        proof {
            assert(search_fits(rects@, *lim));
            assert(rects@[i as int] == *r);
        }
        let hits = query_rect_index(
            &index,
            (r.x0 as i64 - margin) as i32,
            (r.y0 as i64 - margin) as i32,
            (r.x1 as i64 + margin) as i32,
            (r.y1 as i64 + margin) as i32,
        );
        proof {
            assert forall|k: u32| hits@.contains(k) <==> k < rects@.len() && intersects(
                rect_envelope(rects@[k as int]),
                search_envelope(rects@[i as int], search_margin(*lim)),
            ) by {
                if k < rects@.len() {
                    assert(rect_envelopes(rects@).dom().contains(k));
                }
            }
        }
        let ghost vs = v@;
        let mut t: usize = 0;
        while t < hits.len()
            invariant
                0 <= t <= hits@.len(),
                n == rects@.len(),
                i < n,
                drc_input_ok(rects@, *lim),
                hits_of(rects@, *lim, i as int, hits@),
                v@ == vs + spacing_chunk(rects@, *lim, i as int, hits@.take(t as int)),
            decreases hits.len() - t,
        {
            let j = hits[t];
            proof {
                assert(hits@.contains(j));
                assert(hits@.take(t + 1).drop_last() =~= hits@.take(t as int));
                assert(hits@.take(t + 1).last() == j);
            }
            push_pair_violation(&mut v, rects, lim, i, j as usize);
            t = t + 1;
        }
        proof {
            assert(hits@.take(hits@.len() as int) =~= hits@);
            let chunk = spacing_chunk(rects@, *lim, i as int, hits@);
            let hs2 = hs.push(hits@);
            assert(spacing_chunks(rects@, *lim, hs2) =~= spacing_chunks(rects@, *lim, hs) + seq![chunk]);
            lemma_capped_run_append(v1, spacing_chunks(rects@, *lim, hs), seq![chunk], cap);
            lemma_capped_run_one(vs, chunk, cap);
            assert forall|k: int| 0 <= k < i + 1 implies hits_of(rects@, *lim, k, #[trigger] hs2[k]) by {
                if k < i {
                    assert(hs2[k] == hs[k]);
                }
            }
            hs = hs2;
        }
        i = i + 1;
    }
    let ghost v2 = v@;
    check_density(rects, lim, &mut v, cap);
    proof {
        lemma_result_split(rects@, *lim, cap, hs);
        assert(valid_hits(rects@, *lim, hs));
    }
    v
}


/// Check `rects` against all the design rules.
pub fn check_drc(rects: &[Rect], lim: &DrcLimits) -> (r: Vec<DrcViolation>)
    requires
        drc_input_ok(rects@, *lim),
    ensures
        exists|hits: Seq<Seq<u32>>| valid_hits(rects@, *lim, hits) && r@ == drc_result(rects@, *lim, None, hits),
{
    check_drc_capped(rects, lim, None)
}

/// Check only the density rules, stopping at the first window met once
/// `max_violations` violations are found.
pub fn check_density_only(rects: &[Rect], lim: &DrcLimits, max_violations: Option<usize>) -> (r: Vec<
    DrcViolation,
>)
    requires
        density_fits(rects@, *lim),
    ensures
        r@ == capped_run(Seq::empty(), density_chunks(rects@, *lim), max_violations),
{
    let mut v: Vec<DrcViolation> = Vec::new();
    check_density(rects, lim, &mut v, max_violations);
    v
}

/// The chunks laid end to end.
pub open spec fn concat(chunks: Seq<Seq<DrcViolation>>) -> Seq<DrcViolation>
    decreases chunks.len(),
{
    if chunks.len() == 0 {
        Seq::empty()
    } else {
        chunks[0] + concat(chunks.drop_first())
    }
}

proof fn lemma_capped_prefix(acc: Seq<DrcViolation>, chunks: Seq<Seq<DrcViolation>>, c: usize)
    ensures
        capped_run(acc, chunks, None) == acc + concat(chunks),
        capped_run(acc, chunks, Some(c)).len() <= capped_run(acc, chunks, None).len(),
        capped_run(acc, chunks, Some(c)) == capped_run(acc, chunks, None).take(
            capped_run(acc, chunks, Some(c)).len() as int,
        ),
        capped_run(acc, chunks, Some(c)).len() < capped_run(acc, chunks, None).len() ==> capped_run(
            acc,
            chunks,
            Some(c),
        ).len() >= c,
        capped_run(acc, chunks, Some(c)).len() >= acc.len(),
    decreases chunks.len(),
{
    if chunks.len() == 0 {
        assert(acc + concat(chunks) =~= acc);
        assert(acc.take(acc.len() as int) =~= acc);
    } else {
        lemma_capped_prefix(acc + chunks[0], chunks.drop_first(), c);
        assert(acc + chunks[0] + concat(chunks.drop_first()) =~= acc + concat(chunks));
        if reached(acc, Some(c)) {
            assert((acc + concat(chunks)).take(acc.len() as int) =~= acc);
        }
    }
}

/// A violation of one rectangle's candidates appears in its spacing chunk.
proof fn lemma_chunk_contains(rects: Seq<Rect>, lim: DrcLimits, i: int, h: Seq<u32>, p: int, v: DrcViolation)
    requires
        0 <= p < h.len(),
        pair_violations(rects, lim, i, h[p] as int).contains(v),
    ensures
        spacing_chunk(rects, lim, i, h).contains(v),
    decreases h.len(),
{
    let rest = spacing_chunk(rects, lim, i, h.drop_last());
    let last = pair_violations(rects, lim, i, h.last() as int);
    assert(spacing_chunk(rects, lim, i, h) == rest + last);
    if p < h.len() - 1 {
        assert(h.drop_last()[p] == h[p]);
        lemma_chunk_contains(rects, lim, i, h.drop_last(), p, v);
        let q = choose|q: int| 0 <= q < rest.len() && rest[q] == v;
        assert((rest + last)[q] == v);
    } else {
        let q = choose|q: int| 0 <= q < last.len() && last[q] == v;
        assert((rest + last)[rest.len() + q] == v);
    }
}

/// A violation of one chunk appears in the chunks laid end to end.
proof fn lemma_concat_contains(chunks: Seq<Seq<DrcViolation>>, c: int, v: DrcViolation)
    requires
        0 <= c < chunks.len(),
        chunks[c].contains(v),
    ensures
        concat(chunks).contains(v),
    decreases chunks.len(),
{
    let rest = concat(chunks.drop_first());
    if c == 0 {
        let q = choose|q: int| 0 <= q < chunks[0].len() && chunks[0][q] == v;
        assert((chunks[0] + rest)[q] == v);
    } else {
        assert(chunks.drop_first()[c - 1] == chunks[c]);
        lemma_concat_contains(chunks.drop_first(), c - 1, v);
        let q = choose|q: int| 0 <= q < rest.len() && rest[q] == v;
        assert((chunks[0] + rest)[chunks[0].len() + q] == v);
    }
}

/// Wide-metal spacing is symmetric: when the wide-metal rules are set and
/// either rectangle of a pair (the lower- or the higher-indexed one) is at
/// least `wide_metal_threshold` wide or high, a pair that lies within the
/// wide-metal spacing of each other on both axes, closer than the
/// wide-metal spacing but not touching, is reported as a wide-metal spacing
/// violation, whatever `min_spacing` is, by every uncapped check.
pub proof fn law_wide_metal_spacing_reported(
    rects: Seq<Rect>,
    lim: DrcLimits,
    hits: Seq<Seq<u32>>,
    i: int,
    j: int,
    t: i32,
    ws: i32,
)
    requires
        valid_hits(rects, lim, hits),
        rects.len() <= u32::MAX,
        0 <= i < j < rects.len(),
        lim.wide_metal_threshold == Some(t),
        lim.wide_metal_spacing == Some(ws),
        rects[i].x0 <= rects[i].x1 && rects[i].y0 <= rects[i].y1,
        rects[j].x0 <= rects[j].x1 && rects[j].y0 <= rects[j].y1,
        rects[i].x1 - rects[i].x0 >= t || rects[i].y1 - rects[i].y0 >= t || rects[j].x1 - rects[j].x0 >= t
            || rects[j].y1 - rects[j].y0 >= t,
        rects[j].x0 <= rects[i].x1 + ws && rects[i].x0 <= rects[j].x1 + ws,
        rects[j].y0 <= rects[i].y1 + ws && rects[i].y0 <= rects[j].y1 + ws,
        0 < spacing(rects[i], rects[j]) < ws,
    ensures
        drc_result(rects, lim, None, hits).contains(
            DrcViolation {
                rule: DrcRule::WideMetalSpacing,
                rect_index: i as u32,
                other_index: j as u32,
                value: spacing(rects[i], rects[j]) as i64,
                limit: ws as i64,
                location: (rects[i].x0, rects[i].y0),
            },
        ),
{
    let a = rects[i];
    let b = rects[j];
    let v = DrcViolation {
        rule: DrcRule::WideMetalSpacing,
        rect_index: i as u32,
        other_index: j as u32,
        value: spacing(a, b) as i64,
        limit: ws as i64,
        location: (a.x0, a.y0),
    };
    let m = search_margin(lim);
    assert(m >= ws);
    assert(intersects(rect_envelope(b), search_envelope(a, m)));
    assert(hits_of(rects, lim, i, hits[i]));
    assert(hits[i].contains(j as u32));
    let p = choose|p: int| 0 <= p < hits[i].len() && hits[i][p] == j as u32;
    assert(pair_violations(rects, lim, i, j) == seq![v]);
    assert(seq![v][0] == v);
    lemma_chunk_contains(rects, lim, i, hits[i], p, v);
    let w = width_chunks(rects, lim);
    let sc = spacing_chunks(rects, lim, hits);
    let all = w + sc + density_chunks(rects, lim);
    assert(all[w.len() + i] == sc[i]);
    lemma_concat_contains(all, w.len() + i, v);
    lemma_capped_prefix(Seq::empty(), all, 0);
    assert(Seq::<DrcViolation>::empty() + concat(all) =~= concat(all));
}

/// With a cap, a check reports the beginning of what it reports without
/// one, and it stops short only after reporting at least `cap` violations,
/// when both work through the same listing `hits` of spacing candidates.
/// The R-tree's listing order is not stated (rstar promises none), so two
/// checks are related by this law only through a shared listing.
pub proof fn law_capped_is_prefix(rects: Seq<Rect>, lim: DrcLimits, hits: Seq<Seq<u32>>, cap: usize)
    ensures
        ({
            let full = drc_result(rects, lim, None, hits);
            let part = drc_result(rects, lim, Some(cap), hits);
            &&& part.len() <= full.len()
            &&& part == full.take(part.len() as int)
            &&& part.len() < full.len() ==> part.len() >= cap
        }),
{
    lemma_capped_prefix(
        Seq::empty(),
        width_chunks(rects, lim) + spacing_chunks(rects, lim, hits) + density_chunks(rects, lim),
        cap,
    );
}

/// No violation of `v` is of the minimum width or minimum spacing rule.
pub open spec fn no_width_or_spacing(v: Seq<DrcViolation>) -> bool {
    forall|k: int| 0 <= k < v.len() ==> (#[trigger] v[k]).rule != DrcRule::MinWidth && v[k].rule != DrcRule::MinSpacing
}

proof fn lemma_run_keeps(acc: Seq<DrcViolation>, chunks: Seq<Seq<DrcViolation>>, cap: Option<usize>)
    requires
        no_width_or_spacing(acc),
        forall|i: int| 0 <= i < chunks.len() ==> no_width_or_spacing(#[trigger] chunks[i]),
    ensures
        no_width_or_spacing(capped_run(acc, chunks, cap)),
    decreases chunks.len(),
{
    if chunks.len() > 0 && !reached(acc, cap) {
        let next = acc + chunks[0];
        assert(no_width_or_spacing(chunks[0]));
        assert forall|k: int| 0 <= k < next.len() implies (#[trigger] next[k]).rule != DrcRule::MinWidth
            && next[k].rule != DrcRule::MinSpacing by {
            if k >= acc.len() {
                assert(next[k] == chunks[0][k - acc.len()]);
            }
        }
        assert forall|i: int| 0 <= i < chunks.drop_first().len() implies no_width_or_spacing(
            #[trigger] chunks.drop_first()[i],
        ) by {
            assert(chunks.drop_first()[i] == chunks[i + 1]);
        }
        lemma_run_keeps(next, chunks.drop_first(), cap);
    }
}

proof fn lemma_spacing_chunk_clean(rects: Seq<Rect>, lim: DrcLimits, i: int, h: Seq<u32>, gap: int)
    requires
        lim.min_spacing <= gap,
        0 <= i < rects.len(),
        forall|j: int| 0 <= j < rects.len() ==> spacing(rects[i], #[trigger] rects[j]) <= 0 || spacing(rects[i], rects[j]) >= gap,
        forall|k: int| 0 <= k < h.len() ==> (#[trigger] h[k]) < rects.len(),
    ensures
        no_width_or_spacing(spacing_chunk(rects, lim, i, h)),
    decreases h.len(),
{
    if h.len() > 0 {
        lemma_spacing_chunk_clean(rects, lim, i, h.drop_last(), gap);
        let j = h.last() as int;
        assert(h[h.len() - 1] < rects.len());
        assert(spacing(rects[i], rects[j]) <= 0 || spacing(rects[i], rects[j]) >= gap);
        let a = spacing_chunk(rects, lim, i, h.drop_last());
        let b = pair_violations(rects, lim, i, j);
        assert forall|k: int| 0 <= k < (a + b).len() implies (#[trigger] (a + b)[k]).rule != DrcRule::MinWidth
            && (a + b)[k].rule != DrcRule::MinSpacing by {
            if k >= a.len() {
                assert((a + b)[k] == b[k - a.len()]);
            }
        }
    }
}

/// Rectangles at least `pw` wide and high whose pairwise spacing is 0 or at
/// least `gap`, as pixel generation produces with `gap = pitch - pw`, are
/// clean for the minimum width and minimum spacing rules by construction:
/// whenever `min_width <= pw` and `min_spacing <= gap`, no check reports a
/// violation of either rule.
pub proof fn law_generated_rects_clean(
    rects: Seq<Rect>,
    lim: DrcLimits,
    cap: Option<usize>,
    hits: Seq<Seq<u32>>,
    pw: int,
    gap: int,
)
    requires
        valid_hits(rects, lim, hits),
        forall|i: int| 0 <= i < rects.len() ==> (#[trigger] rects[i]).x1 - rects[i].x0 >= pw && rects[i].y1 - rects[i].y0 >= pw,
        forall|i: int, j: int|
            0 <= i < rects.len() && 0 <= j < rects.len() ==> spacing(#[trigger] rects[i], #[trigger] rects[j]) <= 0
                || spacing(rects[i], rects[j]) >= gap,
        lim.min_width <= pw,
        lim.min_spacing <= gap,
    ensures
        no_width_or_spacing(drc_result(rects, lim, cap, hits)),
{
    let wc = width_chunks(rects, lim);
    let sc = spacing_chunks(rects, lim, hits);
    let dc = density_chunks(rects, lim);
    let all = wc + sc + dc;
    assert forall|i: int| 0 <= i < all.len() implies no_width_or_spacing(#[trigger] all[i]) by {
        if i < wc.len() {
            let r = rects[i];
            assert(r.x1 - r.x0 >= pw && r.y1 - r.y0 >= pw);
            assert(all[i] == width_chunk(r, i, lim));
        } else if i < wc.len() + sc.len() {
            let q = i - wc.len();
            assert(all[i] == spacing_chunk(rects, lim, q, hits[q]));
            assert(hits_of(rects, lim, q, hits[q]));
            assert forall|k: int| 0 <= k < hits[q].len() implies (#[trigger] hits[q][k]) < rects.len() by {
                assert(hits[q].contains(hits[q][k]));
            }
            assert forall|j: int| 0 <= j < rects.len() implies spacing(rects[q], #[trigger] rects[j]) <= 0
                || spacing(rects[q], rects[j]) >= gap by {}
            lemma_spacing_chunk_clean(rects, lim, q, hits[q], gap);
        } else {
            let q = i - wc.len() - sc.len();
            assert(all[i] == dc[q]);
        }
    }
    lemma_run_keeps(Seq::empty(), all, cap);
}


/// Whether the checks can run on `rects` with `lim`: the precondition of
/// `check_drc_capped`, tested.
pub fn drc_input_fits(rects: &[Rect], lim: &DrcLimits) -> (r: bool)
    ensures
        r == drc_input_ok(rects@, *lim),
{
    let n = rects.len();
    if n as u64 > u32::MAX as u64 {
        return false;
    }
    let margin: i64 = match lim.wide_metal_spacing {
        Some(ws) => if lim.min_spacing >= ws {
            lim.min_spacing as i64
        } else {
            ws as i64
        },
        None => lim.min_spacing as i64,
    };
    let lo = i32::MIN as i64;
    let hi = i32::MAX as i64;
    let mut i: usize = 0;
    let mut total: i128 = 0;
    while i < n
        invariant
            0 <= i <= n,
            n == rects@.len(),
            n <= u32::MAX,
            lo == i32::MIN,
            hi == i32::MAX,
            margin == search_margin(*lim),
            forall|k: int| 0 <= k < i ==> (#[trigger] rects@[k]).width_fits() && rects@[k].height_fits(),
            forall|k: int|
                0 <= k < i ==> {
                    let r = #[trigger] rects@[k];
                    &&& i32::MIN <= r.x0 - margin <= i32::MAX
                    &&& i32::MIN <= r.y0 - margin <= i32::MAX
                    &&& i32::MIN <= r.x1 + margin <= i32::MAX
                    &&& i32::MIN <= r.y1 + margin <= i32::MAX
                },
            total == total_area(rects@.take(i as int)),
            0 <= total <= i * 0x1_0000_0000_0000_0000,
        decreases n - i,
    {
        let r = rects[i];
        let w = r.x1 as i64 - r.x0 as i64;
        let h = r.y1 as i64 - r.y0 as i64;
        if w < lo || w > hi || h < lo || h > hi {
            assert(!dims_fit(rects@));
            return false;
        }
        let ax = r.x0 as i64 - margin;
        let ay = r.y0 as i64 - margin;
        let bx = r.x1 as i64 + margin;
        let by = r.y1 as i64 + margin;
        if ax < lo || ax > hi || ay < lo || ay > hi || bx < lo || bx > hi || by < lo || by > hi {
            assert(!search_fits(rects@, *lim));
            return false;
        }
        let pw: i128 = if w > 0 {
            w as i128
        } else {
            0
        };
        let ph: i128 = if h > 0 {
            h as i128
        } else {
            0
        };
        assert(0 <= pw * ph <= 0x1_0000_0000_0000_0000) by (nonlinear_arith)
            requires
                0 <= pw <= 0xffff_ffff,
                0 <= ph <= 0xffff_ffff,
        ;
        proof {
            assert(rects@.take(i + 1).drop_last() =~= rects@.take(i as int));
            assert(rects@.take(i + 1).last() == r);
            assert(pw * ph == pos_area(r));
            assert((i + 1) * 0x1_0000_0000_0000_0000 == i * 0x1_0000_0000_0000_0000 + 0x1_0000_0000_0000_0000)
                by (nonlinear_arith);
        }
        total = total + pw * ph;
        i = i + 1;
    }
    proof {
        assert(rects@.take(n as int) =~= rects@);
    }
    assert(dims_fit(rects@) && search_fits(rects@, *lim));
    let d = match lim.density {
        Some(d) => d,
        None => {
            return true;
        },
    };
    if n == 0 || d.window <= 0 {
        return true;
    }
    let bb = match bounding_box(rects) {
        Some(bb) => bb,
        None => {
            return true;
        },
    };
    proof {
        lemma_bbox(rects@, bb);
    }
    let wbb = bb.x1 as i64 - bb.x0 as i64;
    let hbb = bb.y1 as i64 - bb.y0 as i64;
    if wbb < 0 || hbb < 0 {
        return false;
    }
    let win = d.window as i64;
    let s: i64 = if win / 2 < 1 {
        1
    } else {
        win / 2
    };
    assert((wbb + s - 1) / (s as int) <= 0xffff_ffff && (hbb + s - 1) / (s as int) <= 0xffff_ffff)
        by (nonlinear_arith)
        requires
            0 <= wbb <= 0xffff_ffff,
            0 <= hbb <= 0xffff_ffff,
            s >= 1,
    ;
    let gw = ((wbb + s - 1) / s) as u128;
    let gh = ((hbb + s - 1) / s) as u128;
    assert(gw == grid_cols(rects@, *lim) && gh == grid_rows(rects@, *lim));
    assert((gw + 1) * (gh + 1) <= 0x1_0000_0001 * 0x1_0000_0001) by (nonlinear_arith)
        requires
            gw <= 0xffff_ffff,
            gh <= 0xffff_ffff,
    ;
    if (gw + 1) * (gh + 1) > usize::MAX as u128 {
        return false;
    }
    total <= (i64::MAX / 1000) as i128
}

}
