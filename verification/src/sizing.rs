//! Region sizing — grow / shrink merged rectilinear geometry by a margin.
//!
//! `sized(d)` is the standard DRC "bias": grow the region by `d` on every side for
//! `d > 0`, shrink it for `d < 0`. It is the primitive behind rules that build a mask
//! from a shape (e.g. an enclosure/keep-out ring) before intersecting or subtracting.
//!
//! Implementation is exact for rectilinear input via the boolean kernel:
//! - **grow** is a Minkowski sum with a `2d`-square. Since the region is the union of its
//!   tiles and the sum distributes over union, growing = the union of each tile inflated by
//!   `d`.
//! - **shrink** is the morphological dual — erosion = complement(dilate(complement)) inside
//!   a frame large enough to hold the region and its margin.

use vstd::prelude::*;
use crate::boolean::{boolean, Op, op_holds, all_wf, row_merged, col_maximal, col_edge_clear};
use crate::sort::{rects_sorted, rkey_le};
use crate::geom::{Rect, rcount, covers, ind, inflated, inflate_fits, rect_contains, rect_wf, imin, imax, lemma_rcount_covers};

verus! {

/// Bounding box of a non-empty rectangle list: the least `x0`/`y0` and greatest `x1`/`y1`.
pub open spec fn tiles_bbox(s: Seq<Rect>) -> Rect
    decreases s.len(),
{
    if s.len() <= 1 {
        s[0]
    } else {
        let b = tiles_bbox(s.drop_last());
        let r = s.last();
        Rect {
            x0: imin(b.x0 as int, r.x0 as int) as i32,
            y0: imin(b.y0 as int, r.y0 as int) as i32,
            x1: imax(b.x1 as int, r.x1 as int) as i32,
            y1: imax(b.y1 as int, r.y1 as int) as i32,
        }
    }
}

/// Every tile inflated by `d`.
pub open spec fn grown(tiles: Seq<Rect>, d: int) -> Seq<Rect> {
    tiles.map_values(|r: Rect| inflated(r, d).0)
}

/// Every tile can be inflated by `d` within the `i32` range.
pub open spec fn all_fit(tiles: Seq<Rect>, d: int) -> bool {
    forall|i: int| 0 <= i < tiles.len() ==> inflate_fits(#[trigger] tiles[i], d)
}

/// Each corner coordinate of `b`, moved by `m` either way, stays in the `i32` range.
pub open spec fn frame_fits(b: Rect, m: int) -> bool {
    &&& i32::MIN <= imin(b.x0 as int, b.x1 as int) - m
    &&& imax(b.x0 as int, b.x1 as int) + m <= i32::MAX
    &&& i32::MIN <= imin(b.y0 as int, b.y1 as int) - m
    &&& imax(b.y0 as int, b.y1 as int) + m <= i32::MAX
}

/// The frame the erosion works in: the bounding box grown by `d + 1`.
pub open spec fn frame_of(tiles: Seq<Rect>, d: int) -> Rect {
    inflated(tiles_bbox(tiles), d + 1).0
}

/// Some covered cell lies within Chebyshev distance `d` of `(x, y)`.
pub open spec fn near(tiles: Seq<Rect>, d: int, x: int, y: int) -> bool {
    exists|u: int, v: int| x - d <= u <= x + d && y - d <= v <= y + d && #[trigger] covers(tiles, u, v)
}

/// Every cell of `f` within Chebyshev distance `d` of `(x, y)` is covered.
pub open spec fn all_near_covered(tiles: Seq<Rect>, f: Rect, d: int, x: int, y: int) -> bool {
    forall|u: int, v: int| x - d <= u <= x + d && y - d <= v <= y + d && rect_contains(f, u, v) ==> #[trigger] covers(tiles, u, v)
}

/// Every cell within Chebyshev distance `d` of `(x, y)` is covered.
pub open spec fn all_within_covered(tiles: Seq<Rect>, d: int, x: int, y: int) -> bool {
    forall|u: int, v: int| x - d <= u <= x + d && y - d <= v <= y + d ==> #[trigger] covers(tiles, u, v)
}

/// The erosion computed inside the frame: `(x, y)` is in the frame and every frame cell
/// within `d` of it is covered.
pub open spec fn eroded(tiles: Seq<Rect>, d: int, x: int, y: int) -> bool {
    rect_contains(frame_of(tiles, d), x, y) && all_near_covered(tiles, frame_of(tiles, d), d, x, y)
}

/// Bounding box of a set of rectangles (`None` if empty).
fn bbox_of(tiles: &[Rect]) -> (res: Option<Rect>)
    ensures
        res == if tiles@.len() == 0 { None } else { Some(tiles_bbox(tiles@)) },
{
    if tiles.len() == 0 {
        return None;
    }
    let mut b = tiles[0];
    let mut i: usize = 1;
    while i < tiles.len()
        invariant
            1 <= i <= tiles@.len(),
            b == tiles_bbox(tiles@.take(i as int)),
        decreases tiles@.len() - i,
    {
        let r = tiles[i];
        b = Rect {
            x0: if r.x0 < b.x0 { r.x0 } else { b.x0 },
            y0: if r.y0 < b.y0 { r.y0 } else { b.y0 },
            x1: if r.x1 > b.x1 { r.x1 } else { b.x1 },
            y1: if r.y1 > b.y1 { r.y1 } else { b.y1 },
        };
        proof {
            assert(tiles@.take(i + 1).drop_last() =~= tiles@.take(i as int));
        }
        i += 1;
    }
    proof {
        assert(tiles@.take(tiles@.len() as int) =~= tiles@);
    }
    Some(b)
}

/// Nothing is covered by an empty list.
proof fn lemma_covers_empty(x: int, y: int)
    ensures
        !covers(Seq::<Rect>::empty(), x, y),
{
}

/// At column `x`, the cells just below and just above `r` are not covered by `res`.
pub open spec fn run_clear(res: Seq<Rect>, r: Rect, x: int) -> bool {
    !covers(res, x, r.y0 - 1) && !covers(res, x, r.y1 as int)
}

/// Each rectangle is a full column run of the region the list covers: at every x it
/// spans, the cells just below and just above it are uncovered.
pub open spec fn col_runs(res: Seq<Rect>) -> bool {
    forall|i: int, x: int| 0 <= i < res.len() && res[i].x0 <= x < res[i].x1 ==> #[trigger] run_clear(res, res[i], x)
}

/// A tiling of a target set whose rectangles are full column runs of that set has full
/// column runs of what it covers.
proof fn lemma_col_runs(res: Seq<Rect>, t: spec_fn(int, int) -> bool)
    requires
        col_maximal(res, t),
        forall|x: int, y: int| #[trigger] rcount(res, x, y) == ind(t(x, y)),
    ensures
        col_runs(res),
{
    assert forall|i: int, x: int| 0 <= i < res.len() && res[i].x0 <= x < res[i].x1 implies #[trigger] run_clear(res, res[i], x) by {
        assert(col_edge_clear(res[i], t, x));
        lemma_rcount_covers(res, x, res[i].y0 - 1);
        lemma_rcount_covers(res, x, res[i].y1 as int);
        assert(rcount(res, x, res[i].y0 - 1) == ind(t(x, res[i].y0 - 1)));
        assert(rcount(res, x, res[i].y1 as int) == ind(t(x, res[i].y1 as int)));
    }
}

/// Merging alone: the tiles run through an OR with nothing.
fn merged(tiles: &[Rect]) -> (res: Vec<Rect>)
    ensures
        forall|x: int, y: int| #[trigger] rcount(res@, x, y) == ind(covers(tiles@, x, y)),
        all_wf(res@),
        rects_sorted(res@),
        row_merged(res@),
        col_runs(res@),
{
    let none: Vec<Rect> = Vec::new();
    let res = boolean(tiles, none.as_slice(), Op::Or);
    proof {
        lemma_col_runs(res@, crate::boolean::rect_bool_region(tiles@, none@, Op::Or));
        assert forall|x: int, y: int| #[trigger] rcount(res@, x, y) == ind(covers(tiles@, x, y)) by {
            lemma_covers_empty(x, y);
            assert(none@ =~= Seq::<Rect>::empty());
        }
    }
    res
}

/// Grow the region (given as covering tiles) by `d > 0` on every side; the result is the
/// merged grown region as tiles. `d <= 0` just merges.
pub fn grow(tiles: &[Rect], d: i32) -> (res: Vec<Rect>)
    requires
        d > 0 ==> all_fit(tiles@, d as int),
    ensures
        forall|x: int, y: int| #[trigger] rcount(res@, x, y) == ind(covers(if d > 0 { grown(tiles@, d as int) } else { tiles@ }, x, y)),
        all_wf(res@),
        rects_sorted(res@),
        row_merged(res@),
        col_runs(res@),
{
    if d <= 0 {
        return merged(tiles);
    }
    let mut infl: Vec<Rect> = Vec::new();
    let mut i: usize = 0;
    while i < tiles.len()
        invariant
            i <= tiles@.len(),
            d > 0,
            all_fit(tiles@, d as int),
            infl@ == grown(tiles@.take(i as int), d as int),
        decreases tiles@.len() - i,
    {
        let r = tiles[i].inflate(d);
        infl.push(r);
        proof {
            assert(infl@ =~= grown(tiles@.take(i + 1), d as int));
        }
        i += 1;
    }
    proof {
        assert(tiles@.take(tiles@.len() as int) =~= tiles@);
    }
    merged(infl.as_slice())
}

/// A covered cell of a list lies in the list's rectangle `s[i]` for some `i`; and the
/// converse, counted: a cell of `s[i]` has a positive count.
proof fn lemma_member_count(s: Seq<Rect>, i: int, x: int, y: int)
    requires
        0 <= i < s.len(),
        rect_contains(s[i], x, y),
    ensures
        rcount(s, x, y) >= 1,
{
    lemma_rcount_covers(s, x, y);
}

/// The bounding box spans every tile: `x0 <= t.x0`, `t.x1 <= x1`, and likewise in y.
proof fn lemma_bbox_spans(s: Seq<Rect>, i: int)
    requires
        0 <= i < s.len(),
    ensures
        tiles_bbox(s).x0 <= s[i].x0,
        tiles_bbox(s).y0 <= s[i].y0,
        s[i].x1 <= tiles_bbox(s).x1,
        s[i].y1 <= tiles_bbox(s).y1,
    decreases s.len(),
{
    if s.len() > 1 && i < s.len() - 1 {
        lemma_bbox_spans(s.drop_last(), i);
        assert(s.drop_last()[i] == s[i]);
    }
}

/// Bounds on every tile bound the bounding box.
proof fn lemma_bbox_within(s: Seq<Rect>, lx: int, ly: int, hx: int, hy: int)
    requires
        s.len() > 0,
        forall|i: int| 0 <= i < s.len() ==> lx <= (#[trigger] s[i]).x0 && ly <= s[i].y0 && s[i].x1 <= hx && s[i].y1 <= hy,
    ensures
        lx <= tiles_bbox(s).x0,
        ly <= tiles_bbox(s).y0,
        tiles_bbox(s).x1 <= hx,
        tiles_bbox(s).y1 <= hy,
    decreases s.len(),
{
    if s.len() > 1 {
        assert forall|i: int| 0 <= i < s.drop_last().len() implies lx <= (#[trigger] s.drop_last()[i]).x0 && ly <= s.drop_last()[i].y0 && s.drop_last()[i].x1 <= hx && s.drop_last()[i].y1 <= hy by {
            assert(s.drop_last()[i] == s[i]);
        }
        lemma_bbox_within(s.drop_last(), lx, ly, hx, hy);
        assert(s[s.len() - 1] == s.last());
    }
}

/// Growing normalized tiles by `d >= 0` covers exactly the cells within Chebyshev
/// distance `d` of the region: the Minkowski sum with a `2d` square.
pub proof fn lemma_grow_is_dilation(tiles: Seq<Rect>, d: int, x: int, y: int)
    requires
        all_wf(tiles),
        d >= 0,
        all_fit(tiles, d),
    ensures
        covers(grown(tiles, d), x, y) <==> near(tiles, d, x, y),
{
    let g = grown(tiles, d);
    if covers(g, x, y) {
        let i = choose|i: int| 0 <= i < g.len() && rect_contains(#[trigger] g[i], x, y);
        let t = tiles[i];
        assert(g[i] == inflated(t, d).0);
        assert(inflate_fits(t, d));
        assert(rect_wf(t));
        let u = if x < t.x0 { t.x0 as int } else if x >= t.x1 { t.x1 - 1 } else { x };
        let v = if y < t.y0 { t.y0 as int } else if y >= t.y1 { t.y1 - 1 } else { y };
        assert(rect_contains(tiles[i], u, v));
        assert(covers(tiles, u, v));
    }
    if near(tiles, d, x, y) {
        let (u, v) = choose|u: int, v: int| x - d <= u <= x + d && y - d <= v <= y + d && #[trigger] covers(tiles, u, v);
        let i = choose|i: int| 0 <= i < tiles.len() && rect_contains(#[trigger] tiles[i], u, v);
        assert(rect_wf(tiles[i]));
        assert(inflate_fits(tiles[i], d));
        assert(g[i] == inflated(tiles[i], d).0);
        assert(rect_contains(g[i], x, y));
    }
}

/// Shrink the region by `d > 0` on every side (erosion). `d <= 0` just merges.
pub fn shrink(tiles: &[Rect], d: i32) -> (res: Vec<Rect>)
    requires
        d > 0 && tiles@.len() > 0 ==> frame_fits(tiles_bbox(tiles@), 2 * d + 1),
    ensures
        forall|x: int, y: int| #[trigger] rcount(res@, x, y) == ind(
            if d <= 0 { covers(tiles@, x, y) } else { tiles@.len() > 0 && eroded(tiles@, d as int, x, y) },
        ),
        all_wf(res@),
        rects_sorted(res@),
        row_merged(res@),
        col_runs(res@),
{
    if d <= 0 {
        return merged(tiles);
    }
    let b = match bbox_of(tiles) {
        Some(b) => b,
        None => {
            return Vec::new();
        },
    };
    let ghost dd = d as int;
    proof {
        assert(inflate_fits(b, dd + 1));
    }
    let frame = b.inflate(d + 1);
    let frames: Vec<Rect> = vec![frame];
    let ghost fs = frames@;
    proof {
        assert(fs =~= seq![frame]);
        assert forall|x: int, y: int| covers(fs, x, y) <==> rect_contains(frame, x, y) by {
            if rect_contains(frame, x, y) {
                assert(rect_contains(fs[0], x, y));
            }
        }
    }
    // erosion(R, d) = frame \ dilate(frame \ R, d)
    let comp = boolean(frames.as_slice(), tiles, Op::Not);
    proof {
        // every complement tile lies inside the frame, so it inflates by d in range
        assert forall|i: int| 0 <= i < comp@.len() implies inflate_fits(#[trigger] comp@[i], dd) by {
            let t = comp@[i];
            assert(rect_wf(t));
            lemma_member_count(comp@, i, t.x0 as int, t.y0 as int);
            lemma_member_count(comp@, i, t.x1 - 1, t.y1 - 1);
            assert(rcount(comp@, t.x0 as int, t.y0 as int) == ind(op_holds(Op::Not, covers(fs, t.x0 as int, t.y0 as int), covers(tiles@, t.x0 as int, t.y0 as int))));
            assert(rcount(comp@, t.x1 - 1, t.y1 - 1) == ind(op_holds(Op::Not, covers(fs, t.x1 - 1, t.y1 - 1), covers(tiles@, t.x1 - 1, t.y1 - 1))));
            assert(rect_contains(frame, t.x0 as int, t.y0 as int));
            assert(rect_contains(frame, t.x1 - 1, t.y1 - 1));
        }
    }
    let grown_comp = grow(comp.as_slice(), d);
    let res = boolean(frames.as_slice(), grown_comp.as_slice(), Op::Not);
    proof {
        lemma_col_runs(res@, crate::boolean::rect_bool_region(frames@, grown_comp@, Op::Not));
        assert(frame == frame_of(tiles@, dd));
        assert forall|x: int, y: int| #[trigger] rcount(res@, x, y) == ind(tiles@.len() > 0 && eroded(tiles@, dd, x, y)) by {
            lemma_rcount_covers(grown_comp@, x, y);
            lemma_grow_is_dilation(comp@, dd, x, y);
            if near(comp@, dd, x, y) {
                let (u, v) = choose|u: int, v: int| x - dd <= u <= x + dd && y - dd <= v <= y + dd && #[trigger] covers(comp@, u, v);
                lemma_rcount_covers(comp@, u, v);
                assert(rcount(comp@, u, v) == ind(op_holds(Op::Not, covers(fs, u, v), covers(tiles@, u, v))));
                assert(rect_contains(frame, u, v) && !covers(tiles@, u, v));
                assert(!all_near_covered(tiles@, frame, dd, x, y));
            }
            if !all_near_covered(tiles@, frame, dd, x, y) {
                let (u, v) = choose|u: int, v: int| !(x - dd <= u <= x + dd && y - dd <= v <= y + dd && rect_contains(frame, u, v) ==> #[trigger] covers(tiles@, u, v));
                lemma_rcount_covers(comp@, u, v);
                assert(rcount(comp@, u, v) == ind(op_holds(Op::Not, covers(fs, u, v), covers(tiles@, u, v))));
                assert(covers(comp@, u, v));
                assert(near(comp@, dd, x, y));
            }
        }
    }
    res
}

/// Clamping a coordinate into `[lo, hi)` moves it no further from a point of that range.
proof fn lemma_clamp(u: int, x: int, lo: int, hi: int, d: int)
    requires
        lo < hi,
        lo <= x < hi,
        x - d <= u <= x + d,
    ensures
        ({
            let c = if u < lo { lo } else if u >= hi { hi - 1 } else { u };
            &&& lo <= c < hi
            &&& x - d <= c <= x + d
            &&& (c != u ==> (c == lo && u < lo) || (c == hi - 1 && u >= hi))
        }),
{
}

/// For normalized tiles, the erosion inside the frame is the true erosion: a cell stays
/// exactly when every cell within Chebyshev distance `d` of it is covered.
pub proof fn lemma_shrink_is_erosion(tiles: Seq<Rect>, d: int, x: int, y: int)
    requires
        tiles.len() > 0,
        all_wf(tiles),
        d >= 0,
        inflate_fits(tiles_bbox(tiles), d + 1),
    ensures
        eroded(tiles, d, x, y) <==> all_within_covered(tiles, d, x, y),
{
    let b = tiles_bbox(tiles);
    let f = frame_of(tiles, d);
    // the bounding box is normalized and holds every covered cell
    assert(rect_wf(tiles[0]));
    lemma_bbox_spans(tiles, 0);
    assert forall|u: int, v: int| covers(tiles, u, v) implies b.x0 <= u < b.x1 && b.y0 <= v < b.y1 by {
        let i = choose|i: int| 0 <= i < tiles.len() && rect_contains(#[trigger] tiles[i], u, v);
        lemma_bbox_spans(tiles, i);
        assert(rect_wf(tiles[i]));
    }
    assert(f.x0 == b.x0 - d - 1 && f.x1 == b.x1 + d + 1 && f.y0 == b.y0 - d - 1 && f.y1 == b.y1 + d + 1);
    if all_within_covered(tiles, d, x, y) {
        assert(covers(tiles, x, y));
        assert(rect_contains(f, x, y));
        assert forall|u: int, v: int| x - d <= u <= x + d && y - d <= v <= y + d && rect_contains(f, u, v) implies #[trigger] covers(tiles, u, v) by {
            assert(covers(tiles, u, v));
        }
    }
    if eroded(tiles, d, x, y) && !all_within_covered(tiles, d, x, y) {
        let (u, v) = choose|u: int, v: int| !(x - d <= u <= x + d && y - d <= v <= y + d ==> #[trigger] covers(tiles, u, v));
        lemma_clamp(u, x, f.x0 as int, f.x1 as int, d);
        lemma_clamp(v, y, f.y0 as int, f.y1 as int, d);
        let cu = if u < f.x0 { f.x0 as int } else if u >= f.x1 { f.x1 - 1 } else { u };
        let cv = if v < f.y0 { f.y0 as int } else if v >= f.y1 { f.y1 - 1 } else { v };
        assert(rect_contains(f, cu, cv));
        assert(covers(tiles, cu, cv));
        assert(cu == u && cv == v);
    }
}

/// `sized(±d)`: grow for `d > 0`, shrink for `d < 0`, merge for `d == 0`.
pub fn sized(tiles: &[Rect], d: i32) -> (res: Vec<Rect>)
    requires
        d > i32::MIN,
        d > 0 ==> all_fit(tiles@, d as int),
        d < 0 && tiles@.len() > 0 ==> frame_fits(tiles_bbox(tiles@), 2 * (-d) + 1),
    ensures
        forall|x: int, y: int| #[trigger] rcount(res@, x, y) == ind(
            if d > 0 {
                covers(grown(tiles@, d as int), x, y)
            } else if d < 0 {
                tiles@.len() > 0 && eroded(tiles@, -d, x, y)
            } else {
                covers(tiles@, x, y)
            },
        ),
        all_wf(res@),
        rects_sorted(res@),
        row_merged(res@),
        col_runs(res@),
{
    if d > 0 {
        grow(tiles, d)
    } else if d < 0 {
        shrink(tiles, -d)
    } else {
        merged(tiles)
    }
}

/// Closing a rectangle is the identity: shrinking by `d` any normalized tiling of the
/// rectangle grown by `d` gives back exactly the rectangle's cells.
pub proof fn lemma_close_rect(r: Rect, g: Seq<Rect>, d: int, x: int, y: int)
    requires
        rect_wf(r),
        d > 0,
        inflate_fits(r, 2 * d + 1),
        g.len() > 0,
        all_wf(g),
        forall|u: int, v: int| #[trigger] rcount(g, u, v) == ind(covers(grown(seq![r], d), u, v)),
    ensures
        eroded(g, d, x, y) <==> rect_contains(r, x, y),
{
    let big = inflated(r, d).0;
    assert(grown(seq![r], d) =~= seq![big]);
    assert forall|u: int, v: int| covers(g, u, v) <==> rect_contains(big, u, v) by {
        lemma_rcount_covers(g, u, v);
        assert(rcount(g, u, v) == ind(covers(grown(seq![r], d), u, v)));
        if rect_contains(big, u, v) {
            assert(rect_contains(seq![big][0], u, v));
        }
    }
    assert forall|i: int| 0 <= i < g.len() implies big.x0 <= (#[trigger] g[i]).x0 && big.y0 <= g[i].y0 && g[i].x1 <= big.x1 && g[i].y1 <= big.y1 by {
        let t = g[i];
        assert(rect_wf(t));
        assert(rect_contains(t, t.x0 as int, t.y0 as int));
        assert(rect_contains(t, t.x1 - 1, t.y1 - 1));
        lemma_rcount_covers(g, t.x0 as int, t.y0 as int);
        lemma_rcount_covers(g, t.x1 - 1, t.y1 - 1);
        assert(covers(g, t.x0 as int, t.y0 as int));
        assert(covers(g, t.x1 - 1, t.y1 - 1));
    }
    lemma_bbox_within(g, big.x0 as int, big.y0 as int, big.x1 as int, big.y1 as int);
    let bb = tiles_bbox(g);
    lemma_bbox_spans(g, 0);
    assert(rect_wf(g[0]));
    assert(inflate_fits(bb, d + 1));
    lemma_shrink_is_erosion(g, d, x, y);
    if rect_contains(r, x, y) {
        assert forall|u: int, v: int| x - d <= u <= x + d && y - d <= v <= y + d implies #[trigger] covers(g, u, v) by {
            assert(rect_contains(big, u, v));
        }
    }
    if all_within_covered(g, d, x, y) {
        assert(covers(g, x - d, y - d));
        assert(covers(g, x + d, y + d));
    }
}

// ---- the canonical tiling is unique ------------------------------------------------

/// A canonical tiling of the target set `t`: rectangles with area, each target cell
/// covered exactly once and no other cell, sorted by `(y0, y1, x0)`, each a full column
/// run of `t`, and no two neighbours in the list side by side with the same rows.
pub open spec fn canonical_tiling(s: Seq<Rect>, t: spec_fn(int, int) -> bool) -> bool {
    &&& all_wf(s)
    &&& rects_sorted(s)
    &&& row_merged(s)
    &&& col_runs(s)
    &&& forall|x: int, y: int| #[trigger] rcount(s, x, y) == ind(t(x, y))
}

/// Two rectangles of a list that both hold a cell make its count at least two.
proof fn lemma_two_hold(s: Seq<Rect>, i: int, j: int, x: int, y: int)
    requires
        0 <= i < j < s.len(),
        rect_contains(s[i], x, y),
        rect_contains(s[j], x, y),
    ensures
        rcount(s, x, y) >= 2,
    decreases s.len(),
{
    if j < s.len() - 1 {
        assert(s.drop_last()[i] == s[i] && s.drop_last()[j] == s[j]);
        lemma_two_hold(s.drop_last(), i, j, x, y);
        lemma_rcount_covers(s, x, y);
    } else {
        assert(s.drop_last()[i] == s[i]);
        lemma_rcount_covers(s.drop_last(), x, y);
    }
}

/// In a canonical tiling, distinct rectangles share no cell.
proof fn lemma_disjoint(s: Seq<Rect>, t: spec_fn(int, int) -> bool, i: int, j: int, x: int, y: int)
    requires
        canonical_tiling(s, t),
        0 <= i < s.len(),
        0 <= j < s.len(),
        i != j,
        rect_contains(s[i], x, y),
    ensures
        !rect_contains(s[j], x, y),
{
    if rect_contains(s[j], x, y) {
        if i < j {
            lemma_two_hold(s, i, j, x, y);
        } else {
            lemma_two_hold(s, j, i, x, y);
        }
        assert(rcount(s, x, y) == ind(t(x, y)));
    }
}

/// In a canonical tiling no rectangle has a neighbour with the same rows ending where it
/// begins.
proof fn lemma_no_left_twin(s: Seq<Rect>, t: spec_fn(int, int) -> bool, i: int, k: int)
    requires
        canonical_tiling(s, t),
        0 <= i < s.len(),
        0 <= k < s.len(),
    ensures
        !(s[k].y0 == s[i].y0 && s[k].y1 == s[i].y1 && s[k].x1 == s[i].x0),
{
    let (r, c) = (s[i], s[k]);
    if c.y0 == r.y0 && c.y1 == r.y1 && c.x1 == r.x0 {
        assert(rect_wf(r) && rect_wf(c));
        if k > i {
            assert(rkey_le(r, c));
        }
        assert(k < i);
        if k + 1 < i {
            let d = s[k + 1];
            assert(rkey_le(c, d) && rkey_le(d, r));
            assert(rect_wf(d));
            assert(d.y0 == r.y0 && d.y1 == r.y1 && c.x0 <= d.x0 && d.x0 <= r.x0);
            if d.x0 < r.x0 {
                lemma_disjoint(s, t, k + 1, k, d.x0 as int, d.y0 as int);
            } else {
                lemma_disjoint(s, t, k + 1, i, d.x0 as int, d.y0 as int);
            }
        }
        assert(s[k + 1] == r);
    }
}

/// Two canonical tilings of one target set: rectangles that share a cell share their rows.
proof fn lemma_same_rows(a: Seq<Rect>, b: Seq<Rect>, t: spec_fn(int, int) -> bool, i: int, j: int, x: int, y: int)
    requires
        canonical_tiling(a, t),
        canonical_tiling(b, t),
        0 <= i < a.len(),
        0 <= j < b.len(),
        rect_contains(a[i], x, y),
        rect_contains(b[j], x, y),
    ensures
        a[i].y0 == b[j].y0,
        a[i].y1 == b[j].y1,
{
    let (r, q) = (a[i], b[j]);
    assert(rect_wf(r) && rect_wf(q));
    assert(run_clear(a, r, x));
    assert(run_clear(b, q, x));
    assert forall|u: int, v: int| covers(a, u, v) <==> covers(b, u, v) by {
        lemma_rcount_covers(a, u, v);
        lemma_rcount_covers(b, u, v);
        assert(rcount(a, u, v) == ind(t(u, v)));
        assert(rcount(b, u, v) == ind(t(u, v)));
    }
    if q.y0 < r.y0 {
        assert(rect_contains(b[j], x, r.y0 - 1));
        assert(covers(b, x, r.y0 - 1));
    }
    if r.y0 < q.y0 {
        assert(rect_contains(a[i], x, q.y0 - 1));
        assert(covers(a, x, q.y0 - 1));
    }
    if q.y1 > r.y1 {
        assert(rect_contains(b[j], x, r.y1 as int));
        assert(covers(b, x, r.y1 as int));
    }
    if r.y1 > q.y1 {
        assert(rect_contains(a[i], x, q.y1 as int));
        assert(covers(a, x, q.y1 as int));
    }
}

/// Two canonical tilings of one target set: a rectangle of the second holding the
/// lower-left cell of one of the first does not reach further left.
proof fn lemma_no_further_left(a: Seq<Rect>, b: Seq<Rect>, t: spec_fn(int, int) -> bool, i: int, j: int)
    requires
        canonical_tiling(a, t),
        canonical_tiling(b, t),
        0 <= i < a.len(),
        0 <= j < b.len(),
        rect_contains(b[j], a[i].x0 as int, a[i].y0 as int),
    ensures
        b[j].x0 >= a[i].x0,
{
    let (r, q) = (a[i], b[j]);
    assert(rect_wf(r) && rect_wf(q));
    if q.x0 < r.x0 {
        let x = r.x0 - 1;
        assert(rect_contains(q, x, r.y0 as int));
        lemma_rcount_covers(a, x, r.y0 as int);
        lemma_rcount_covers(b, x, r.y0 as int);
        assert(rcount(a, x, r.y0 as int) == ind(t(x, r.y0 as int)));
        assert(rcount(b, x, r.y0 as int) == ind(t(x, r.y0 as int)));
        assert(covers(b, x, r.y0 as int));
        let k = choose|k: int| 0 <= k < a.len() && rect_contains(#[trigger] a[k], x, r.y0 as int);
        lemma_same_rows(a, b, t, k, j, x, r.y0 as int);
        lemma_same_rows(a, b, t, i, j, r.x0 as int, r.y0 as int);
        let c = a[k];
        assert(rect_wf(c));
        if c.x1 > r.x0 {
            lemma_disjoint(a, t, k, i, r.x0 as int, r.y0 as int);
        }
        lemma_no_left_twin(a, t, i, k);
    }
}

/// Two canonical tilings of one target set: a rectangle of the second holding the
/// lower-left cell of one of the first with the same left side does not reach further
/// right.
proof fn lemma_no_further_right(a: Seq<Rect>, b: Seq<Rect>, t: spec_fn(int, int) -> bool, i: int, j: int)
    requires
        canonical_tiling(a, t),
        canonical_tiling(b, t),
        0 <= i < a.len(),
        0 <= j < b.len(),
        b[j].x0 == a[i].x0,
        b[j].y0 == a[i].y0,
        b[j].y1 == a[i].y1,
    ensures
        b[j].x1 <= a[i].x1,
{
    let (r, q) = (a[i], b[j]);
    assert(rect_wf(r) && rect_wf(q));
    if q.x1 > r.x1 {
        let x = r.x1 as int;
        assert(rect_contains(q, x, r.y0 as int));
        lemma_rcount_covers(a, x, r.y0 as int);
        lemma_rcount_covers(b, x, r.y0 as int);
        assert(rcount(a, x, r.y0 as int) == ind(t(x, r.y0 as int)));
        assert(rcount(b, x, r.y0 as int) == ind(t(x, r.y0 as int)));
        assert(covers(b, x, r.y0 as int));
        let k = choose|k: int| 0 <= k < a.len() && rect_contains(#[trigger] a[k], x, r.y0 as int);
        lemma_same_rows(a, b, t, k, j, x, r.y0 as int);
        let c = a[k];
        assert(rect_wf(c));
        if c.x0 < r.x1 {
            let px: int = if c.x0 < r.x0 { r.x0 as int } else { c.x0 as int };
            assert(rect_contains(a[i], px, r.y0 as int));
            lemma_disjoint(a, t, i, k, px, r.y0 as int);
        }
        lemma_no_left_twin(a, t, k, i);
    }
}

/// Two canonical tilings of one target set: each rectangle of the first is a rectangle of
/// the second.
proof fn lemma_rect_in_other(a: Seq<Rect>, b: Seq<Rect>, t: spec_fn(int, int) -> bool, i: int) -> (j: int)
    requires
        canonical_tiling(a, t),
        canonical_tiling(b, t),
        0 <= i < a.len(),
    ensures
        0 <= j < b.len(),
        b[j] == a[i],
{
    let r = a[i];
    assert(rect_wf(r));
    let (x, y) = (r.x0 as int, r.y0 as int);
    assert(rect_contains(a[i], x, y));
    lemma_rcount_covers(a, x, y);
    lemma_rcount_covers(b, x, y);
    assert(rcount(a, x, y) == ind(t(x, y)));
    assert(rcount(b, x, y) == ind(t(x, y)));
    assert(covers(b, x, y));
    let j = choose|j: int| 0 <= j < b.len() && rect_contains(#[trigger] b[j], x, y);
    lemma_same_rows(a, b, t, i, j, x, y);
    lemma_no_further_left(a, b, t, i, j);
    assert(b[j].x0 == r.x0);
    lemma_no_further_right(a, b, t, i, j);
    lemma_no_further_right(b, a, t, j, i);
    j
}

/// The canonical tiling of a target set is unique: two lists of rectangles that both tile
/// it canonically are the same list. So [`grow`], [`shrink`], [`sized`] and the union
/// that `boolean` gives are each determined by the cells they cover.
pub proof fn lemma_tiling_unique(a: Seq<Rect>, b: Seq<Rect>, t: spec_fn(int, int) -> bool)
    requires
        canonical_tiling(a, t),
        canonical_tiling(b, t),
    ensures
        a == b,
    decreases a.len() + b.len(),
{
    if a.len() == 0 && b.len() == 0 {
        assert(a =~= b);
    } else if a.len() == 0 {
        let i = lemma_rect_in_other(b, a, t, 0);
    } else if b.len() == 0 {
        let j = lemma_rect_in_other(a, b, t, 0);
    } else {
        let j = lemma_rect_in_other(a, b, t, 0);
        let i = lemma_rect_in_other(b, a, t, 0);
        // a[0] and b[0] have the same sort key, and two rectangles of one tiling with the
        // same key share their lower-left cell, so they are one rectangle
        assert(rkey_le(a[0], a[i]) && rkey_le(b[0], b[j]));
        assert(rect_wf(a[0]) && rect_wf(b[0]));
        assert(a[i].y0 == a[0].y0 && a[i].y1 == a[0].y1 && a[i].x0 == a[0].x0);
        if i != 0 {
            lemma_disjoint(a, t, i, 0, a[i].x0 as int, a[i].y0 as int);
        }
        assert(a[0] == b[0]);
        // the rest tiles the target without the first rectangle
        let r0 = a[0];
        let t2 = |x: int, y: int| t(x, y) && !rect_contains(r0, x, y);
        lemma_drop_first_canonical(a, t, t2);
        lemma_drop_first_canonical(b, t, t2);
        lemma_tiling_unique(a.drop_first(), b.drop_first(), t2);
        assert(a =~= b) by {
            assert forall|k: int| 0 <= k < a.len() implies a[k] == b[k] by {
                if k > 0 {
                    assert(a[k] == a.drop_first()[k - 1]);
                    assert(b[k] == b.drop_first()[k - 1]);
                }
            }
        }
    }
}

/// `sized` by a distance `d` gives what `grow` gives for `d > 0`, what `shrink` by `-d`
/// gives for `d < 0`, and for `d == 0` the union that `boolean` gives of the tiles with
/// nothing: any two lists that meet those contracts are the same list.
pub proof fn lemma_sized_law(tiles: Seq<Rect>, d: int, s: Seq<Rect>, g: Seq<Rect>)
    requires
        canonical_tiling(
            s,
            |x: int, y: int|
                if d > 0 {
                    covers(grown(tiles, d), x, y)
                } else if d < 0 {
                    tiles.len() > 0 && eroded(tiles, -d, x, y)
                } else {
                    covers(tiles, x, y)
                },
        ),
        d > 0 ==> canonical_tiling(g, |x: int, y: int| covers(grown(tiles, d), x, y)),
        d < 0 ==> canonical_tiling(g, |x: int, y: int| tiles.len() > 0 && eroded(tiles, -d, x, y)),
        d == 0 ==> {
            &&& forall|x: int, y: int|
                #[trigger] rcount(g, x, y) == ind(op_holds(Op::Or, covers(tiles, x, y), covers(Seq::<Rect>::empty(), x, y)))
            &&& all_wf(g)
            &&& rects_sorted(g)
            &&& row_merged(g)
            &&& col_maximal(g, crate::boolean::rect_bool_region(tiles, Seq::<Rect>::empty(), Op::Or))
        },
    ensures
        s == g,
{
    let ts = |x: int, y: int|
        if d > 0 {
            covers(grown(tiles, d), x, y)
        } else if d < 0 {
            tiles.len() > 0 && eroded(tiles, -d, x, y)
        } else {
            covers(tiles, x, y)
        };
    if d > 0 {
        let tg = |x: int, y: int| covers(grown(tiles, d), x, y);
        assert(ts =~= tg);
    } else if d < 0 {
        let tg = |x: int, y: int| tiles.len() > 0 && eroded(tiles, -d, x, y);
        assert(ts =~= tg);
    } else {
        let tb = crate::boolean::rect_bool_region(tiles, Seq::<Rect>::empty(), Op::Or);
        assert forall|x: int, y: int| #[trigger] rcount(g, x, y) == ind(tb(x, y)) by {
            lemma_covers_empty(x, y);
        }
        lemma_col_runs(g, tb);
        assert forall|x: int, y: int| #[trigger] rcount(g, x, y) == ind(ts(x, y)) by {
            lemma_covers_empty(x, y);
        }
        assert(canonical_tiling(g, ts));
    }
    lemma_tiling_unique(s, g, ts);
}

/// A canonical tiling without its first rectangle tiles the rest canonically.
proof fn lemma_drop_first_canonical(s: Seq<Rect>, t: spec_fn(int, int) -> bool, t2: spec_fn(int, int) -> bool)
    requires
        canonical_tiling(s, t),
        s.len() > 0,
        forall|x: int, y: int| #[trigger] t2(x, y) == (t(x, y) && !rect_contains(s[0], x, y)),
    ensures
        canonical_tiling(s.drop_first(), t2),
{
    let d = s.drop_first();
    assert forall|x: int, y: int| #[trigger] rcount(d, x, y) == ind(t2(x, y)) by {
        assert(s =~= seq![s[0]] + d);
        crate::sort::lemma_rcount_concat(seq![s[0]], d, x, y);
        assert(seq![s[0]].drop_last() =~= Seq::<Rect>::empty());
        assert(rcount(Seq::<Rect>::empty(), x, y) == 0);
        assert(rcount(seq![s[0]], x, y) == ind(rect_contains(s[0], x, y)));
        assert(t2(x, y) == (t(x, y) && !rect_contains(s[0], x, y)));
        assert(rcount(s, x, y) == ind(t(x, y)));
        lemma_rcount_covers(d, x, y);
    }
    assert forall|i: int| 0 <= i < d.len() implies rect_wf(#[trigger] d[i]) by {
        assert(d[i] == s[i + 1]);
    }
    assert forall|i: int, j: int| 0 <= i < j < d.len() implies rkey_le(d[i], d[j]) by {
        assert(d[i] == s[i + 1] && d[j] == s[j + 1]);
    }
    assert forall|i: int| 0 <= i < d.len() - 1 implies !((#[trigger] d[i]).y0 == d[i + 1].y0 && d[i].y1 == d[i + 1].y1 && d[i].x1
        == d[i + 1].x0) by {
        assert(d[i] == s[i + 1] && d[i + 1] == s[i + 2]);
    }
    assert forall|i: int, x: int| 0 <= i < d.len() && d[i].x0 <= x < d[i].x1 implies #[trigger] run_clear(d, d[i], x) by {
        assert(d[i] == s[i + 1]);
        assert(run_clear(s, s[i + 1], x));
        if covers(d, x, d[i].y0 - 1) {
            let k = choose|k: int| 0 <= k < d.len() && rect_contains(#[trigger] d[k], x, d[i].y0 - 1);
            assert(d[k] == s[k + 1]);
        }
        if covers(d, x, d[i].y1 as int) {
            let k = choose|k: int| 0 <= k < d.len() && rect_contains(#[trigger] d[k], x, d[i].y1 as int);
            assert(d[k] == s[k + 1]);
        }
    }
}

} // verus!
