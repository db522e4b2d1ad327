//! A spatial index over axis-aligned rectangles — the region-query primitive the
//! layout-side engines need to scale.
//!
//! DRC (width/spacing), LVS net tracing, and the viewer all ask the same question:
//! *"which shapes are near this one?"* Answering it by scanning all N shapes is
//! O(N) per query — O(N²) across a layer. A **uniform grid** buckets each rectangle
//! into the cells it covers, so a region query touches only the handful of cells the
//! region spans, not the whole layer.
//!
//! The index is **static** (build once over a shape set, then query). Its exactness is
//! stated in the contracts: for normalized shapes and regions, `overlaps` returns exactly
//! the ids a brute-force scan would.

use vstd::prelude::*;
use vstd::arithmetic::div_mod::{lemma_div_is_ordered, lemma_div_is_ordered_by_denominator, lemma_div_pos_is_pos};
use crate::geom::{Rect, rects_intersect, inflated, inflate_fits, imin, imax};
use crate::sort::{sort_dedup_u32, strictly_sorted_u32};

verus! {

/// Cap on the number of grid cells, so pathological inputs cannot allocate without bound.
pub const MAX_CELLS: i64 = 4_000_000;

/// Largest grid pitch the build loop can reach.
pub const MAX_PITCH: i64 = 0x4_0000_0000;

/// Grid position of coordinate `c` along an axis with origin `o`, pitch `cell` and `n`
/// cells: `(c - o) / cell` clamped to `[0, n - 1]` (coordinates below the origin map to 0).
pub open spec fn grid_pos(c: int, o: int, cell: int, n: int) -> int {
    let q = if c - o < 0 { 0 } else { (c - o) / cell };
    if q > n - 1 { n - 1 } else { q }
}

/// Two closed integer ranges share a value.
pub open spec fn ranges_meet(a0: int, a1: int, b0: int, b1: int) -> bool {
    imax(a0, b0) <= imin(a1, b1)
}

/// Two rectangles meet as closed boxes: they overlap or touch.
pub open spec fn boxes_meet(a: Rect, b: Rect) -> bool {
    a.x0 <= b.x1 && b.x0 <= a.x1 && a.y0 <= b.y1 && b.y0 <= a.y1
}

/// `x0 <= x1` and `y0 <= y1`.
pub open spec fn proper(r: Rect) -> bool {
    r.x0 <= r.x1 && r.y0 <= r.y1
}

/// Every rectangle is proper.
pub open spec fn all_proper(s: Seq<Rect>) -> bool {
    forall|i: int| 0 <= i < s.len() ==> proper(#[trigger] s[i])
}

/// Some rectangle's `x0` is at most some rectangle's `x1`, and likewise in y: the
/// bounding extent is not negative.
pub open spec fn extent_ok(s: Seq<Rect>) -> bool {
    &&& exists|i: int, j: int| 0 <= i < s.len() && 0 <= j < s.len() && #[trigger] s[i].x0 <= #[trigger] s[j].x1
    &&& exists|i: int, j: int| 0 <= i < s.len() && 0 <= j < s.len() && #[trigger] s[i].y0 <= #[trigger] s[j].y1
}

/// The grid cell `(cx, cy)` lies in the cell range of `r`.
pub open spec fn in_cell_range(r: Rect, ox: int, oy: int, cell: int, cols: int, rows: int, cx: int, cy: int) -> bool {
    &&& grid_pos(r.x0 as int, ox, cell, cols) <= cx <= grid_pos(r.x1 as int, ox, cell, cols)
    &&& grid_pos(r.y0 as int, oy, cell, rows) <= cy <= grid_pos(r.y1 as int, oy, cell, rows)
}

/// The contents of bucket `(cx, cy)` of a row-major bucket list.
pub open spec fn bucket_at(buckets: Seq<Vec<u32>>, cols: int, cx: int, cy: int) -> Seq<u32> {
    buckets[cy * cols + cx]@
}

/// A uniform-grid spatial index over a fixed set of rectangles (referenced by their
/// index in the slice passed to [`RegionIndex::build`]).
pub struct RegionIndex {
    ox: i32,
    oy: i32,
    cell: i64,
    cols: i64,
    rows: i64,
    buckets: Vec<Vec<u32>>,
    rects: Vec<Rect>,
}

impl View for RegionIndex {
    type V = Seq<Rect>;

    /// The indexed rectangles, by id.
    closed spec fn view(&self) -> Seq<Rect> {
        self.rects@
    }
}

/// `cy * cols + cx` is a valid, unique bucket position for an in-grid cell.
proof fn lemma_bucket_pos(cx: int, cy: int, cols: int, rows: int)
    requires
        0 <= cx < cols,
        0 <= cy < rows,
    ensures
        0 <= cy * cols + cx < cols * rows,
{
    assert(0 <= cy * cols + cx < cols * rows) by (nonlinear_arith)
        requires
            0 <= cx < cols,
            0 <= cy < rows,
    ;
}

/// Distinct in-grid cells have distinct bucket positions.
proof fn lemma_bucket_pos_inj(cx: int, cy: int, dx: int, dy: int, cols: int)
    requires
        0 <= cx < cols,
        0 <= dx < cols,
        0 <= cy,
        0 <= dy,
        cy * cols + cx == dy * cols + dx,
    ensures
        cx == dx,
        cy == dy,
{
    if cy < dy {
        assert(cy * cols + cx < dy * cols + dx) by (nonlinear_arith)
            requires
                0 <= cx < cols,
                0 <= dx,
                cy < dy,
        ;
    } else if cy > dy {
        assert(dy * cols + dx < cy * cols + cx) by (nonlinear_arith)
            requires
                0 <= dx < cols,
                0 <= cx,
                dy < cy,
        ;
    }
}

/// The grid position is monotone in the coordinate and lies in `[0, n - 1]`.
proof fn lemma_grid_pos(c1: int, c2: int, o: int, cell: int, n: int)
    requires
        c1 <= c2,
        cell >= 1,
        n >= 1,
    ensures
        grid_pos(c1, o, cell, n) <= grid_pos(c2, o, cell, n),
        0 <= grid_pos(c1, o, cell, n) < n,
{
    if c1 - o >= 0 {
        lemma_div_is_ordered(c1 - o, c2 - o, cell);
        lemma_div_pos_is_pos(c1 - o, cell);
    } else if c2 - o >= 0 {
        lemma_div_pos_is_pos(c2 - o, cell);
    }
}

/// Grid position of `c` (see [`grid_pos`]), computed without overflow.
fn grid_pos_exec(c: i32, o: i32, cell: i64, n: i64) -> (p: i64)
    requires
        cell >= 1,
        n >= 1,
    ensures
        p == grid_pos(c as int, o as int, cell as int, n as int),
        0 <= p < n,
{
    let d: i64 = c as i64 - o as i64;
    let q: i64 = if d < 0 { 0 } else { d / cell };
    proof {
        lemma_grid_pos(c as int, c as int, o as int, cell as int, n as int);
    }
    if q > n - 1 { n - 1 } else { q }
}

/// An owned copy of a rectangle slice.
fn copy_rects(rects: &[Rect]) -> (v: Vec<Rect>)
    ensures
        v@ == rects@,
{
    let mut v: Vec<Rect> = Vec::new();
    let mut i: usize = 0;
    while i < rects.len()
        invariant
            i <= rects@.len(),
            v@ == rects@.take(i as int),
        decreases rects@.len() - i,
    {
        v.push(rects[i]);
        i += 1;
        proof {
            assert(v@ =~= rects@.take(i as int));
        }
    }
    proof {
        assert(rects@.take(rects@.len() as int) =~= rects@);
    }
    v
}

impl RegionIndex {
    /// Grid column of `x`.
    pub closed spec fn col_of(&self, x: int) -> int {
        grid_pos(x, self.ox as int, self.cell as int, self.cols as int)
    }

    /// Grid row of `y`.
    pub closed spec fn row_of(&self, y: int) -> int {
        grid_pos(y, self.oy as int, self.cell as int, self.rows as int)
    }

    /// The cell ranges of the region `q` and of indexed rectangle `id` share a grid cell.
    pub closed spec fn touches(&self, q: Rect, id: int) -> bool {
        let r = self.rects@[id];
        &&& ranges_meet(self.col_of(q.x0 as int), self.col_of(q.x1 as int), self.col_of(r.x0 as int), self.col_of(r.x1 as int))
        &&& ranges_meet(self.row_of(q.y0 as int), self.row_of(q.y1 as int), self.row_of(r.y0 as int), self.row_of(r.y1 as int))
    }

    /// The ids stored for grid cell `(cx, cy)`.
    closed spec fn bucket(&self, cx: int, cy: int) -> Seq<u32> {
        bucket_at(self.buckets@, self.cols as int, cx, cy)
    }

    /// The grid is sized within its caps and each bucket holds exactly the ids whose
    /// cell range includes it.
    #[verifier::type_invariant]
    closed spec fn wf(&self) -> bool {
        &&& 1 <= self.cell <= MAX_PITCH
        &&& 1 <= self.cols
        &&& 1 <= self.rows
        &&& self.cols * self.rows <= MAX_CELLS
        &&& self.buckets@.len() == self.cols * self.rows
        &&& self.rects@.len() <= 0x1_0000_0000
        &&& forall|cx: int, cy: int, id: u32|
            0 <= cx < self.cols && 0 <= cy < self.rows ==> (#[trigger] bucket_at(self.buckets@, self.cols as int, cx, cy).contains(id) <==> (id
                < self.rects@.len() && in_cell_range(
                self.rects@[id as int],
                self.ox as int,
                self.oy as int,
                self.cell as int,
                self.cols as int,
                self.rows as int,
                cx,
                cy,
            )))
    }

    /// For proper shapes and regions, sharing positive area implies sharing a grid cell.
    proof fn lemma_intersect_touches(&self, q: Rect, id: int)
        requires
            1 <= self.cell,
            1 <= self.cols,
            1 <= self.rows,
            0 <= id < self@.len(),
            proper(q),
            proper(self@[id]),
            rects_intersect(self@[id], q),
        ensures
            self.touches(q, id),
    {
        let r = self.rects@[id];
        let (ox, oy, c, nc, nr) = (self.ox as int, self.oy as int, self.cell as int, self.cols as int, self.rows as int);
        lemma_grid_pos(r.x0 as int, q.x1 as int, ox, c, nc);
        lemma_grid_pos(q.x0 as int, r.x1 as int, ox, c, nc);
        lemma_grid_pos(r.x0 as int, r.x1 as int, ox, c, nc);
        lemma_grid_pos(q.x0 as int, q.x1 as int, ox, c, nc);
        lemma_grid_pos(r.y0 as int, q.y1 as int, oy, c, nr);
        lemma_grid_pos(q.y0 as int, r.y1 as int, oy, c, nr);
        lemma_grid_pos(r.y0 as int, r.y1 as int, oy, c, nr);
        lemma_grid_pos(q.y0 as int, q.y1 as int, oy, c, nr);
    }

    /// For proper shapes and regions, meeting as closed boxes (touching counts) implies
    /// sharing a grid cell.
    proof fn lemma_meet_touches(&self, q: Rect, id: int)
        requires
            1 <= self.cell,
            1 <= self.cols,
            1 <= self.rows,
            0 <= id < self@.len(),
            proper(q),
            proper(self@[id]),
            boxes_meet(self@[id], q),
        ensures
            self.touches(q, id),
    {
        let r = self.rects@[id];
        let (ox, oy, c, nc, nr) = (self.ox as int, self.oy as int, self.cell as int, self.cols as int, self.rows as int);
        lemma_grid_pos(r.x0 as int, q.x1 as int, ox, c, nc);
        lemma_grid_pos(q.x0 as int, r.x1 as int, ox, c, nc);
        lemma_grid_pos(r.x0 as int, r.x1 as int, ox, c, nc);
        lemma_grid_pos(q.x0 as int, q.x1 as int, ox, c, nc);
        lemma_grid_pos(r.y0 as int, q.y1 as int, oy, c, nr);
        lemma_grid_pos(q.y0 as int, r.y1 as int, oy, c, nr);
        lemma_grid_pos(r.y0 as int, r.y1 as int, oy, c, nr);
        lemma_grid_pos(q.y0 as int, q.y1 as int, oy, c, nr);
    }

    /// Build an index over `rects`. The grid pitch is chosen from the shapes' average
    /// size so a typical shape spans ~1 cell; the grid is capped so pathological
    /// inputs cannot allocate an unbounded number of buckets.
    pub fn build(rects: &[Rect]) -> (idx: RegionIndex)
        requires
            rects@.len() <= 0x1_0000_0000,
            rects@.len() > 0 ==> extent_ok(rects@),
        ensures
            idx@ == rects@,
    {
        if rects.len() == 0 {
            let mut buckets: Vec<Vec<u32>> = Vec::new();
            buckets.push(Vec::new());
            let idx = RegionIndex { ox: 0, oy: 0, cell: 1, cols: 1, rows: 1, buckets, rects: Vec::new() };
            proof {
                assert forall|cx: int, cy: int, id: u32| 0 <= cx < 1 && 0 <= cy < 1 implies !(#[trigger] bucket_at(idx.buckets@, 1, cx, cy).contains(id)) by {
                    assert(bucket_at(idx.buckets@, 1, cx, cy) =~= Seq::<u32>::empty());
                }
                assert(idx.rects@ =~= rects@);
            }
            return idx;
        }
        // extent + average shape size
        let n = rects.len();
        let (mut x0, mut y0, mut x1, mut y1) = (rects[0].x0, rects[0].y0, rects[0].x1, rects[0].y1);
        let mut sw: i128 = 0;
        let mut sh: i128 = 0;
        let mut i: usize = 0;
        while i < n
            invariant
                i <= n,
                n == rects@.len(),
                n <= 0x1_0000_0000,
                forall|k: int| 0 <= k < i ==> x0 <= (#[trigger] rects@[k]).x0 && y0 <= rects@[k].y0 && rects@[k].x1 <= x1 && rects@[k].y1 <= y1,
                x0 <= rects@[0].x0 && y0 <= rects@[0].y0 && rects@[0].x1 <= x1 && rects@[0].y1 <= y1,
                -0x1_0000_0000 * i <= sw <= 0x1_0000_0000 * i,
                -0x1_0000_0000 * i <= sh <= 0x1_0000_0000 * i,
            decreases n - i,
        {
            let r = rects[i];
            if r.x0 < x0 {
                x0 = r.x0;
            }
            if r.y0 < y0 {
                y0 = r.y0;
            }
            if r.x1 > x1 {
                x1 = r.x1;
            }
            if r.y1 > y1 {
                y1 = r.y1;
            }
            sw = sw + (r.x1 as i128 - r.x0 as i128);
            sh = sh + (r.y1 as i128 - r.y0 as i128);
            i += 1;
        }
        proof {
            let (a, b) = choose|a: int, b: int| 0 <= a < n && 0 <= b < n && #[trigger] rects@[a].x0 <= #[trigger] rects@[b].x1;
            assert(x0 <= rects@[a].x0 && rects@[b].x1 <= x1);
            let (c, d) = choose|c: int, d: int| 0 <= c < n && 0 <= d < n && #[trigger] rects@[c].y0 <= #[trigger] rects@[d].y1;
            assert(y0 <= rects@[c].y0 && rects@[d].y1 <= y1);
        }
        let nn = n as i128;
        // truncating averages, as signed integer division rounds toward zero
        let qw: i128 = if sw >= 0 { sw / nn } else { -((-sw) / nn) };
        let qh: i128 = if sh >= 0 { sh / nn } else { -((-sh) / nn) };
        proof {
            let bnd: int = 0x1_0000_0000 * (nn as int);
            if sw >= 0 {
                lemma_div_is_ordered(sw as int, bnd, nn as int);
                lemma_div_pos_is_pos(sw as int, nn as int);
            } else {
                lemma_div_is_ordered(-sw as int, bnd, nn as int);
                lemma_div_pos_is_pos(-sw as int, nn as int);
            }
            if sh >= 0 {
                lemma_div_is_ordered(sh as int, bnd, nn as int);
                lemma_div_pos_is_pos(sh as int, nn as int);
            } else {
                lemma_div_is_ordered(-sh as int, bnd, nn as int);
                lemma_div_pos_is_pos(-sh as int, nn as int);
            }
            vstd::arithmetic::div_mod::lemma_div_by_multiple(0x1_0000_0000, nn as int);
            assert(bnd / (nn as int) == 0x1_0000_0000);
        }
        let s = qw + qh;
        let avg: i128 = (if s > 1 { s } else { 1 }) / 2;
        let mut cell: i64 = if avg > 1 { avg as i64 } else { 1 };
        let ext_w: i64 = x1 as i64 - x0 as i64;
        let ext_h: i64 = y1 as i64 - y0 as i64;
        // cap the grid: grow the pitch until cols * rows fits
        loop
            invariant
                1 <= cell <= MAX_PITCH,
                0 <= ext_w <= 0x1_0000_0000,
                0 <= ext_h <= 0x1_0000_0000,
            ensures
                1 <= cell <= MAX_PITCH,
                (ext_w / cell + 1) * (ext_h / cell + 1) <= MAX_CELLS,
            decreases 0x2_0000_0000_0000 - cell,
        {
            proof {
                lemma_div_pos_is_pos(ext_w as int, cell as int);
                lemma_div_pos_is_pos(ext_h as int, cell as int);
                lemma_div_is_ordered_by_denominator(ext_w as int, 1, cell as int);
                lemma_div_is_ordered_by_denominator(ext_h as int, 1, cell as int);
            }
            let cols_t: i128 = (ext_w / cell + 1) as i128;
            let rows_t: i128 = (ext_h / cell + 1) as i128;
            proof {
                assert(cols_t * rows_t <= 0x2_0000_0000 * 0x2_0000_0000) by (nonlinear_arith)
                    requires
                        1 <= cols_t <= 0x2_0000_0000,
                        1 <= rows_t <= 0x2_0000_0000,
                ;
            }
            if cols_t * rows_t <= MAX_CELLS as i128 {
                proof {
                    if cell > MAX_PITCH {
                        assert(ext_w / cell == 0) by {
                            vstd::arithmetic::div_mod::lemma_basic_div(ext_w as int, cell as int);
                        }
                        assert(ext_h / cell == 0) by {
                            vstd::arithmetic::div_mod::lemma_basic_div(ext_h as int, cell as int);
                        }
                    }
                }
                break;
            }
            proof {
                // more than one cell along some axis: the pitch is within the extent
                if cell > 0x1_0000_0000 {
                    vstd::arithmetic::div_mod::lemma_basic_div(ext_w as int, cell as int);
                    vstd::arithmetic::div_mod::lemma_basic_div(ext_h as int, cell as int);
                    assert(cols_t == 1 && rows_t == 1);
                    assert(cols_t * rows_t == 1) by (nonlinear_arith)
                        requires
                            cols_t == 1,
                            rows_t == 1,
                    ;
                }
            }
            cell = cell * 2;
        }
        let cols: i64 = ext_w / cell + 1;
        let rows: i64 = ext_h / cell + 1;
        proof {
            lemma_div_pos_is_pos(ext_w as int, cell as int);
            lemma_div_pos_is_pos(ext_h as int, cell as int);
            assert(cols * rows >= 1) by (nonlinear_arith)
                requires
                    cols >= 1,
                    rows >= 1,
            ;
        }
        let total: usize = (cols * rows) as usize;
        let mut buckets: Vec<Vec<u32>> = Vec::new();
        let mut b: usize = 0;
        while b < total
            invariant
                b <= total,
                buckets@.len() == b,
                forall|k: int| 0 <= k < b ==> (#[trigger] buckets@[k])@.len() == 0,
            decreases total - b,
        {
            buckets.push(Vec::new());
            b += 1;
        }
        let ghost (gox, goy, gc, gnc, gnr) = (x0 as int, y0 as int, cell as int, cols as int, rows as int);
        proof {
            assert forall|cx: int, cy: int, id: u32| 0 <= cx < gnc && 0 <= cy < gnr implies !(#[trigger] bucket_at(buckets@, gnc, cx, cy).contains(id)) by {
                lemma_bucket_pos(cx, cy, gnc, gnr);
                assert(bucket_at(buckets@, gnc, cx, cy).len() == 0);
            }
        }
        let mut i: usize = 0;
        while i < n
            invariant
                i <= n,
                n == rects@.len(),
                n <= 0x1_0000_0000,
                1 <= cell,
                1 <= cols,
                1 <= rows,
                cols * rows <= MAX_CELLS,
                buckets@.len() == cols * rows,
                (gox, goy, gc, gnc, gnr) == (x0 as int, y0 as int, cell as int, cols as int, rows as int),
                forall|cx: int, cy: int, id: u32|
                    0 <= cx < gnc && 0 <= cy < gnr ==> (#[trigger] bucket_at(buckets@, gnc, cx, cy).contains(id) <==> (id < i
                        && in_cell_range(rects@[id as int], gox, goy, gc, gnc, gnr, cx, cy))),
            decreases n - i,
        {
            let r = rects[i];
            let cx0 = grid_pos_exec(r.x0, x0, cell, cols);
            let cx1 = grid_pos_exec(r.x1, x0, cell, cols);
            let cy0 = grid_pos_exec(r.y0, y0, cell, rows);
            let cy1 = grid_pos_exec(r.y1, y0, cell, rows);
            let id: u32 = i as u32;
            let mut cy = cy0;
            while cy <= cy1
                invariant
                    cy0 <= cy <= rows,
                    cy <= cy1 + 1 || cy == cy0,
                    0 <= cy0,
                    0 <= cx0 < cols,
                    0 <= cx1 < cols,
                    0 <= cy1 < rows,
                    i < n,
                    n == rects@.len(),
                    n <= 0x1_0000_0000,
                    id == i,
                    r == rects@[i as int],
                    cx0 == grid_pos(r.x0 as int, gox, gc, gnc),
                    cx1 == grid_pos(r.x1 as int, gox, gc, gnc),
                    cy0 == grid_pos(r.y0 as int, goy, gc, gnr),
                    cy1 == grid_pos(r.y1 as int, goy, gc, gnr),
                    1 <= cols,
                    1 <= rows,
                    cols * rows <= MAX_CELLS,
                    buckets@.len() == cols * rows,
                    (gox, goy, gc, gnc, gnr) == (x0 as int, y0 as int, cell as int, cols as int, rows as int),
                    forall|cx: int, cy2: int, k: u32|
                        0 <= cx < gnc && 0 <= cy2 < gnr ==> (#[trigger] bucket_at(buckets@, gnc, cx, cy2).contains(k) <==> ((k < i
                            && in_cell_range(rects@[k as int], gox, goy, gc, gnc, gnr, cx, cy2)) || (k == i && cy0 <= cy2 < cy && cx0 <= cx
                            <= cx1))),
                decreases cy1 + 1 - cy,
            {
                let mut cx = cx0;
                while cx <= cx1
                    invariant
                        cx0 <= cx <= cols,
                        cx <= cx1 + 1 || cx == cx0,
                        0 <= cx0,
                        0 <= cy0,
                        0 <= cx1 < cols,
                        cy0 <= cy <= cy1,
                        0 <= cy1 < rows,
                        i < n,
                        n == rects@.len(),
                        id == i,
                        1 <= cols,
                        1 <= rows,
                        cols * rows <= MAX_CELLS,
                        buckets@.len() == cols * rows,
                        (gox, goy, gc, gnc, gnr) == (x0 as int, y0 as int, cell as int, cols as int, rows as int),
                        forall|ex: int, ey: int, k: u32|
                            0 <= ex < gnc && 0 <= ey < gnr ==> (#[trigger] bucket_at(buckets@, gnc, ex, ey).contains(k) <==> ((k < i
                                && in_cell_range(rects@[k as int], gox, goy, gc, gnc, gnr, ex, ey)) || (k == i && ((cy0 <= ey < cy && cx0
                                <= ex <= cx1) || (ey == cy && cx0 <= ex < cx))))),
                    decreases cx1 + 1 - cx,
                {
                    proof {
                        lemma_bucket_pos(cx as int, cy as int, gnc, gnr);
                    }
                    let pos = (cy * cols + cx) as usize;
                    let ghost before = buckets@;
                    buckets[pos].push(id);
                    proof {
                        assert forall|ex: int, ey: int, k: u32| 0 <= ex < gnc && 0 <= ey < gnr implies (#[trigger] bucket_at(buckets@, gnc, ex, ey).contains(k) <==> ((k < i
                            && in_cell_range(rects@[k as int], gox, goy, gc, gnc, gnr, ex, ey)) || (k == i && ((cy0 <= ey < cy && cx0
                            <= ex <= cx1) || (ey == cy && cx0 <= ex < cx + 1))))) by {
                            lemma_bucket_pos(ex, ey, gnc, gnr);
                            if ey * gnc + ex == pos as int {
                                lemma_bucket_pos_inj(ex, ey, cx as int, cy as int, gnc);
                                assert(bucket_at(buckets@, gnc, ex, ey) == bucket_at(before, gnc, ex, ey).push(id));
                                assert(bucket_at(before, gnc, ex, ey).push(id).contains(k) <==> (bucket_at(before, gnc, ex, ey).contains(k) || k == id)) by {
                                    if bucket_at(before, gnc, ex, ey).push(id).contains(k) && k != id {
                                        let w = choose|w: int| 0 <= w < bucket_at(before, gnc, ex, ey).push(id).len() && bucket_at(before, gnc, ex, ey).push(id)[w] == k;
                                        assert(bucket_at(before, gnc, ex, ey)[w] == k);
                                    }
                                    if bucket_at(before, gnc, ex, ey).contains(k) {
                                        let w = choose|w: int| 0 <= w < bucket_at(before, gnc, ex, ey).len() && bucket_at(before, gnc, ex, ey)[w] == k;
                                        assert(bucket_at(before, gnc, ex, ey).push(id)[w] == k);
                                    }
                                    if k == id {
                                        assert(bucket_at(before, gnc, ex, ey).push(id)[bucket_at(before, gnc, ex, ey).len() as int] == k);
                                    }
                                }
                            } else {
                                assert(bucket_at(buckets@, gnc, ex, ey) == bucket_at(before, gnc, ex, ey));
                            }
                        }
                    }
                    cx = cx + 1;
                }
                cy = cy + 1;
            }
            i += 1;
            proof {
                assert forall|ex: int, ey: int, k: u32| 0 <= ex < gnc && 0 <= ey < gnr implies (#[trigger] bucket_at(buckets@, gnc, ex, ey).contains(k) <==> (k < i
                    && in_cell_range(rects@[k as int], gox, goy, gc, gnc, gnr, ex, ey))) by {
                    if k == i - 1 {
                        assert(rects@[k as int] == r);
                    }
                }
            }
        }
        let idx = RegionIndex { ox: x0, oy: y0, cell, cols, rows, buckets, rects: copy_rects(rects) };
        proof {
            assert(idx.rects@ =~= rects@);
        }
        idx
    }

    /// Grid column of `x`, clamped to the grid.
    fn col(&self, x: i32) -> (c: i64)
        ensures
            c == self.col_of(x as int),
            0 <= c < self.cols,
    {
        proof {
            use_type_invariant(self);
        }
        grid_pos_exec(x, self.ox, self.cell, self.cols)
    }

    /// Grid row of `y`, clamped to the grid.
    fn row(&self, y: i32) -> (c: i64)
        ensures
            c == self.row_of(y as int),
            0 <= c < self.rows,
    {
        proof {
            use_type_invariant(self);
        }
        grid_pos_exec(y, self.oy, self.cell, self.rows)
    }

    /// The grid cells `(column, row)` a rectangle's cell range covers (clamped to the
    /// grid), row by row.
    fn for_cells(&self, r: &Rect) -> (cells: Vec<(i64, i64)>)
        ensures
            forall|k: int| 0 <= k < cells@.len() ==> 0 <= (#[trigger] cells@[k]).0 < self.cols && 0 <= cells@[k].1 < self.rows,
            forall|k: int| 0 <= k < cells@.len() ==> self.col_of(r.x0 as int) <= (#[trigger] cells@[k]).0 <= self.col_of(r.x1 as int)
                && self.row_of(r.y0 as int) <= cells@[k].1 <= self.row_of(r.y1 as int),
            forall|cx: int, cy: int|
                self.col_of(r.x0 as int) <= cx <= self.col_of(r.x1 as int) && self.row_of(r.y0 as int) <= cy <= self.row_of(r.y1 as int)
                    ==> #[trigger] cells@.contains((cx as i64, cy as i64)),
    {
        let cx0 = self.col(r.x0);
        let cx1 = self.col(r.x1);
        let cy0 = self.row(r.y0);
        let cy1 = self.row(r.y1);
        let mut cells: Vec<(i64, i64)> = Vec::new();
        let mut cy = cy0;
        while cy <= cy1
            invariant
                cy0 <= cy,
                cy <= cy1 + 1 || cy == cy0,
                0 <= cx0,
                cx1 < self.cols,
                0 <= cy0,
                cy1 < self.rows,
                cx0 == self.col_of(r.x0 as int),
                cx1 == self.col_of(r.x1 as int),
                cy0 == self.row_of(r.y0 as int),
                cy1 == self.row_of(r.y1 as int),
                forall|k: int| 0 <= k < cells@.len() ==> 0 <= (#[trigger] cells@[k]).0 < self.cols && 0 <= cells@[k].1 < self.rows,
                forall|k: int| 0 <= k < cells@.len() ==> cx0 <= (#[trigger] cells@[k]).0 <= cx1 && cy0 <= cells@[k].1 <= cy1,
                forall|ex: int, ey: int| cx0 <= ex <= cx1 && cy0 <= ey < cy ==> #[trigger] cells@.contains((ex as i64, ey as i64)),
            decreases cy1 + 1 - cy,
        {
            let mut cx = cx0;
            while cx <= cx1
                invariant
                    cx0 <= cx,
                    cx <= cx1 + 1 || cx == cx0,
                    cy0 <= cy <= cy1,
                    0 <= cx0,
                    cx1 < self.cols,
                    0 <= cy0,
                    cy1 < self.rows,
                    forall|k: int| 0 <= k < cells@.len() ==> 0 <= (#[trigger] cells@[k]).0 < self.cols && 0 <= cells@[k].1 < self.rows,
                    forall|k: int| 0 <= k < cells@.len() ==> cx0 <= (#[trigger] cells@[k]).0 <= cx1 && cy0 <= cells@[k].1 <= cy1,
                    forall|ex: int, ey: int| (cx0 <= ex <= cx1 && cy0 <= ey < cy) || (ey == cy && cx0 <= ex < cx) ==> #[trigger] cells@.contains((ex as i64, ey as i64)),
                decreases cx1 + 1 - cx,
            {
                let ghost before = cells@;
                cells.push((cx, cy));
                proof {
                    assert forall|ex: int, ey: int| (cx0 <= ex <= cx1 && cy0 <= ey < cy) || (ey == cy && cx0 <= ex < cx + 1) implies #[trigger] cells@.contains((ex as i64, ey as i64)) by {
                        if ey == cy && ex == cx {
                            assert(cells@[before.len() as int] == (ex as i64, ey as i64));
                        } else {
                            assert(before.contains((ex as i64, ey as i64)));
                            let w = choose|w: int| 0 <= w < before.len() && before[w] == (ex as i64, ey as i64);
                            assert(cells@[w] == before[w]);
                        }
                    }
                }
                cx = cx + 1;
            }
            cy = cy + 1;
        }
        cells
    }

    /// Candidate ids whose grid cells the `region` touches — a superset of the true
    /// hits (deduplicated). Cheap; use when a following exact test is applied anyway.
    pub fn query(&self, region: &Rect) -> (res: Vec<u32>)
        ensures
            strictly_sorted_u32(res@),
            forall|id: u32| #[trigger] res@.contains(id) <==> (id < self@.len() && self.touches(*region, id as int)),
            proper(*region) && all_proper(self@) ==> forall|id: u32|
                id < self@.len() && boxes_meet(self@[id as int], *region) ==> #[trigger] res@.contains(id),
    {
        proof {
            use_type_invariant(self);
        }
        let cells = self.for_cells(region);
        let mut out: Vec<u32> = Vec::new();
        let mut t: usize = 0;
        while t < cells.len()
            invariant
                t <= cells@.len(),
                forall|k: int| 0 <= k < cells@.len() ==> 0 <= (#[trigger] cells@[k]).0 < self.cols && 0 <= cells@[k].1 < self.rows,
                forall|k: int| 0 <= k < cells@.len() ==> self.col_of(region.x0 as int) <= (#[trigger] cells@[k]).0 <= self.col_of(region.x1 as int)
                    && self.row_of(region.y0 as int) <= cells@[k].1 <= self.row_of(region.y1 as int),
                forall|id: u32| #[trigger] out@.contains(id) ==> (id < self@.len() && self.touches(*region, id as int)),
                forall|k: int, id: u32| 0 <= k < t && #[trigger] self.bucket(cells@[k].0 as int, cells@[k].1 as int).contains(id) ==> out@.contains(id),
            decreases cells@.len() - t,
        {
            proof {
                use_type_invariant(self);
            }
            let (cx, cy) = cells[t];
            proof {
                lemma_bucket_pos(cx as int, cy as int, self.cols as int, self.rows as int);
            }
            let b = &self.buckets[(cy * self.cols + cx) as usize];
            let ghost bs = self.bucket(cx as int, cy as int);
            assert(b@ == bs);
            let mut m: usize = 0;
            while m < b.len()
                invariant
                    m <= b@.len(),
                    b@ == bs,
                    bs == self.bucket(cx as int, cy as int),
                    0 <= cx < self.cols,
                    0 <= cy < self.rows,
                    self.col_of(region.x0 as int) <= cx <= self.col_of(region.x1 as int),
                    self.row_of(region.y0 as int) <= cy <= self.row_of(region.y1 as int),
                    forall|id: u32| #[trigger] out@.contains(id) ==> (id < self@.len() && self.touches(*region, id as int)),
                    forall|k: int, id: u32| 0 <= k < t && #[trigger] self.bucket(cells@[k].0 as int, cells@[k].1 as int).contains(id) ==> out@.contains(id),
                    forall|w: int| 0 <= w < m ==> out@.contains(#[trigger] bs[w]),
                decreases b@.len() - m,
            {
                proof {
                    use_type_invariant(self);
                }
                let id = b[m];
                let ghost before = out@;
                proof {
                    assert(bs.contains(id));
                    assert(bucket_at(self.buckets@, self.cols as int, cx as int, cy as int).contains(id));
                    assert(id < self@.len() && self.touches(*region, id as int));
                }
                out.push(id);
                proof {
                    assert forall|v: u32| #[trigger] out@.contains(v) implies (v < self@.len() && self.touches(*region, v as int)) by {
                        if v != id {
                            let w = choose|w: int| 0 <= w < out@.len() && out@[w] == v;
                            assert(before[w] == v);
                            assert(before.contains(v));
                        }
                    }
                    assert forall|k: int, v: u32| 0 <= k < t && #[trigger] self.bucket(cells@[k].0 as int, cells@[k].1 as int).contains(v) implies out@.contains(v) by {
                        assert(before.contains(v));
                        let w = choose|w: int| 0 <= w < before.len() && before[w] == v;
                        assert(out@[w] == v);
                    }
                    assert forall|w: int| 0 <= w < m + 1 implies out@.contains(#[trigger] bs[w]) by {
                        if w < m {
                            let z = choose|z: int| 0 <= z < before.len() && before[z] == bs[w];
                            assert(out@[z] == bs[w]);
                        } else {
                            assert(out@[before.len() as int] == bs[w]);
                        }
                    }
                }
                m += 1;
            }
            proof {
                assert forall|k: int, v: u32| 0 <= k < t + 1 && #[trigger] self.bucket(cells@[k].0 as int, cells@[k].1 as int).contains(v) implies out@.contains(v) by {
                    if k == t {
                        let w = choose|w: int| 0 <= w < bs.len() && bs[w] == v;
                        assert(out@.contains(bs[w]));
                    }
                }
            }
            t += 1;
        }
        let res = sort_dedup_u32(out.as_slice());
        proof {
            assert forall|id: u32| #[trigger] res@.contains(id) <==> (id < self@.len() && self.touches(*region, id as int)) by {
                if id < self@.len() && self.touches(*region, id as int) {
                    let r = self.rects@[id as int];
                    let cx = imax(self.col_of(region.x0 as int), self.col_of(r.x0 as int));
                    let cy = imax(self.row_of(region.y0 as int), self.row_of(r.y0 as int));
                    lemma_grid_pos(region.x0 as int, region.x0 as int, self.ox as int, self.cell as int, self.cols as int);
                    lemma_grid_pos(r.x0 as int, r.x0 as int, self.ox as int, self.cell as int, self.cols as int);
                    lemma_grid_pos(region.y0 as int, region.y0 as int, self.oy as int, self.cell as int, self.rows as int);
                    lemma_grid_pos(r.y0 as int, r.y0 as int, self.oy as int, self.cell as int, self.rows as int);
                    assert(cells@.contains((cx as i64, cy as i64)));
                    let k = choose|k: int| 0 <= k < cells@.len() && cells@[k] == (cx as i64, cy as i64);
                    assert(bucket_at(self.buckets@, self.cols as int, cx, cy).contains(id));
                    assert(self.bucket(cells@[k].0 as int, cells@[k].1 as int).contains(id));
                }
            }
        }
        proof {
            if proper(*region) && all_proper(self@) {
                assert forall|id: u32| id < self@.len() && boxes_meet(self@[id as int], *region) implies #[trigger] res@.contains(id) by {
                    self.lemma_meet_touches(*region, id as int);
                }
            }
        }
        res
    }

    /// Ids of indexed rectangles that share positive area with `region`. For a proper
    /// region over proper shapes this is exactly the brute-force answer.
    pub fn overlaps(&self, region: &Rect) -> (res: Vec<u32>)
        ensures
            strictly_sorted_u32(res@),
            forall|id: u32| #[trigger] res@.contains(id) <==> (id < self@.len() && self.touches(*region, id as int) && rects_intersect(self@[id as int], *region)),
            proper(*region) && all_proper(self@) ==> forall|id: u32| #[trigger] res@.contains(id) <==> (id < self@.len() && rects_intersect(self@[id as int], *region)),
    {
        proof {
            use_type_invariant(self);
        }
        let cand = self.query(region);
        let mut v: Vec<u32> = Vec::new();
        let mut t: usize = 0;
        while t < cand.len()
            invariant
                t <= cand@.len(),
                strictly_sorted_u32(cand@),
                strictly_sorted_u32(v@),
                forall|id: u32| #[trigger] cand@.contains(id) <==> (id < self@.len() && self.touches(*region, id as int)),
                forall|k: int| 0 <= k < v@.len() ==> exists|j: int| 0 <= j < t && cand@[j] == #[trigger] v@[k],
                forall|id: u32| #[trigger] v@.contains(id) <==> (exists|j: int| 0 <= j < t && cand@[j] == id) && id < self@.len() && rects_intersect(self@[id as int], *region),
            decreases cand@.len() - t,
        {
            let id = cand[t];
            proof {
                assert(cand@.contains(id));
            }
            let ghost before = v@;
            if self.rects[id as usize].intersects(region) {
                v.push(id);
                proof {
                    assert forall|p: int, q: int| 0 <= p < q < v@.len() implies v@[p] < v@[q] by {
                        if q == v@.len() - 1 {
                            let j = choose|j: int| 0 <= j < t && cand@[j] == #[trigger] before[p];
                            assert(cand@[j] < cand@[t as int]);
                        } else {
                            assert(before[p] < before[q]);
                        }
                    }
                    assert forall|k: int| 0 <= k < v@.len() implies exists|j: int| 0 <= j < t + 1 && cand@[j] == #[trigger] v@[k] by {
                        if k < before.len() {
                            let j = choose|j: int| 0 <= j < t && cand@[j] == #[trigger] before[k];
                            assert(cand@[j] == v@[k]);
                        } else {
                            assert(cand@[t as int] == v@[k]);
                        }
                    }
                    assert forall|x: u32| #[trigger] v@.contains(x) <==> (exists|j: int| 0 <= j < t + 1 && cand@[j] == x) && x < self@.len() && rects_intersect(self@[x as int], *region) by {
                        if v@.contains(x) {
                            if x == id {
                                assert(cand@[t as int] == x);
                            } else {
                                let w = choose|w: int| 0 <= w < v@.len() && v@[w] == x;
                                assert(before[w] == x);
                                assert(before.contains(x));
                                let j = choose|j: int| 0 <= j < t && cand@[j] == x;
                                assert(0 <= j < t + 1 && cand@[j] == x);
                            }
                        }
                        if (exists|j: int| 0 <= j < t + 1 && cand@[j] == x) && x < self@.len() && rects_intersect(self@[x as int], *region) {
                            if x == id {
                                assert(v@[before.len() as int] == x);
                            } else {
                                let j = choose|j: int| 0 <= j < t + 1 && cand@[j] == x;
                                assert(j < t);
                                assert(before.contains(x));
                                let w = choose|w: int| 0 <= w < before.len() && before[w] == x;
                                assert(v@[w] == x);
                            }
                        }
                    }
                }
            } else {
                proof {
                    assert forall|k: int| 0 <= k < v@.len() implies exists|j: int| 0 <= j < t + 1 && cand@[j] == #[trigger] v@[k] by {
                        let j = choose|j: int| 0 <= j < t && cand@[j] == #[trigger] v@[k];
                    }
                    assert forall|x: u32| #[trigger] v@.contains(x) <==> (exists|j: int| 0 <= j < t + 1 && cand@[j] == x) && x < self@.len() && rects_intersect(self@[x as int], *region) by {
                        if (exists|j: int| 0 <= j < t + 1 && cand@[j] == x) && x < self@.len() && rects_intersect(self@[x as int], *region) {
                            let j = choose|j: int| 0 <= j < t + 1 && cand@[j] == x;
                            assert(j < t);
                        }
                    }
                }
            }
            t += 1;
        }
        proof {
            assert forall|id: u32| #[trigger] v@.contains(id) <==> (id < self@.len() && self.touches(*region, id as int) && rects_intersect(self@[id as int], *region)) by {
                if id < self@.len() && self.touches(*region, id as int) {
                    assert(cand@.contains(id));
                    let j = choose|j: int| 0 <= j < cand@.len() && cand@[j] == id;
                }
                if v@.contains(id) {
                    let j = choose|j: int| 0 <= j < cand@.len() && cand@[j] == id;
                    assert(cand@.contains(id));
                }
            }
            if proper(*region) && all_proper(self@) {
                assert forall|id: u32| #[trigger] v@.contains(id) <==> (id < self@.len() && rects_intersect(self@[id as int], *region)) by {
                    if id < self@.len() && rects_intersect(self@[id as int], *region) {
                        self.lemma_intersect_touches(*region, id as int);
                    }
                }
            }
        }
        v
    }

    /// Ids of indexed rectangles that meet `region` as closed boxes (touching counts). For
    /// a proper region over proper shapes every such rectangle is found.
    pub fn meets(&self, region: &Rect) -> (res: Vec<u32>)
        ensures
            forall|k: int| 0 <= k < res@.len() ==> #[trigger] res@[k] < self@.len() && boxes_meet(self@[res@[k] as int], *region),
            proper(*region) && all_proper(self@) ==> forall|id: u32|
                id < self@.len() && boxes_meet(self@[id as int], *region) ==> #[trigger] res@.contains(id),
    {
        proof {
            use_type_invariant(self);
        }
        let cand = self.query(region);
        let mut v: Vec<u32> = Vec::new();
        let mut t: usize = 0;
        while t < cand.len()
            invariant
                t <= cand@.len(),
                forall|id: u32| #[trigger] cand@.contains(id) <==> (id < self@.len() && self.touches(*region, id as int)),
                forall|k: int| 0 <= k < v@.len() ==> #[trigger] v@[k] < self@.len() && boxes_meet(self@[v@[k] as int], *region),
                forall|j: int| 0 <= j < t && boxes_meet(self@[cand@[j] as int], *region) ==> v@.contains(#[trigger] cand@[j]),
            decreases cand@.len() - t,
        {
            let id = cand[t];
            proof {
                assert(cand@.contains(id));
            }
            let r = self.rects[id as usize];
            if r.x0 <= region.x1 && region.x0 <= r.x1 && r.y0 <= region.y1 && region.y0 <= r.y1 {
                let ghost before = v@;
                v.push(id);
                proof {
                    assert(v@[before.len() as int] == id);
                    assert forall|j: int| 0 <= j < t + 1 && boxes_meet(self@[cand@[j] as int], *region) implies v@.contains(#[trigger] cand@[j]) by {
                        if j < t {
                            let w = choose|w: int| 0 <= w < before.len() && before[w] == cand@[j];
                            assert(v@[w] == cand@[j]);
                        } else {
                            assert(v@[before.len() as int] == cand@[j]);
                        }
                    }
                }
            }
            t += 1;
        }
        proof {
            if proper(*region) && all_proper(self@) {
                assert forall|id: u32| id < self@.len() && boxes_meet(self@[id as int], *region) implies #[trigger] v@.contains(id) by {
                    self.lemma_meet_touches(*region, id as int);
                    assert(cand@.contains(id));
                    let j = choose|j: int| 0 <= j < cand@.len() && cand@[j] == id;
                    assert(boxes_meet(self@[cand@[j] as int], *region));
                }
            }
        }
        v
    }

    /// True if any indexed rectangle overlaps `region`, optionally ignoring one id
    /// (e.g. a shape must not test against itself).
    pub fn any_overlap(&self, region: &Rect, exclude: Option<u32>) -> (res: bool)
        ensures
            res == exists|id: u32| id < self@.len() && Some(id) != exclude && self.touches(*region, id as int) && #[trigger] rects_intersect(self@[id as int], *region),
            proper(*region) && all_proper(self@) ==> (res == exists|id: u32| id < self@.len() && Some(id) != exclude && #[trigger] rects_intersect(self@[id as int], *region)),
    {
        proof {
            use_type_invariant(self);
        }
        let cand = self.query(region);
        let mut t: usize = 0;
        while t < cand.len()
            invariant
                t <= cand@.len(),
                forall|id: u32| #[trigger] cand@.contains(id) <==> (id < self@.len() && self.touches(*region, id as int)),
                forall|j: int| 0 <= j < t ==> !(Some(#[trigger] cand@[j]) != exclude && rects_intersect(self@[cand@[j] as int], *region)),
            decreases cand@.len() - t,
        {
            let id = cand[t];
            proof {
                assert(cand@.contains(id));
            }
            let excluded = match exclude {
                Some(e) => e == id,
                None => false,
            };
            if !excluded && self.rects[id as usize].intersects(region) {
                return true;
            }
            t += 1;
        }
        proof {
            if exists|id: u32| id < self@.len() && Some(id) != exclude && self.touches(*region, id as int) && #[trigger] rects_intersect(self@[id as int], *region) {
                let id = choose|id: u32| id < self@.len() && Some(id) != exclude && self.touches(*region, id as int) && #[trigger] rects_intersect(self@[id as int], *region);
                assert(cand@.contains(id));
                let j = choose|j: int| 0 <= j < cand@.len() && cand@[j] == id;
                assert(!(Some(cand@[j]) != exclude && rects_intersect(self@[cand@[j] as int], *region)));
            }
            if proper(*region) && all_proper(self@) {
                if exists|id: u32| id < self@.len() && Some(id) != exclude && #[trigger] rects_intersect(self@[id as int], *region) {
                    let id = choose|id: u32| id < self@.len() && Some(id) != exclude && #[trigger] rects_intersect(self@[id as int], *region);
                    self.lemma_intersect_touches(*region, id as int);
                }
            }
        }
        false
    }

    /// Ids of rectangles within `dist` of `region` (a spacing halo) — overlaps of the
    /// region inflated by `dist`. `exclude` drops one id (typically the query shape).
    pub fn within(&self, region: &Rect, dist: i32, exclude: Option<u32>) -> (res: Vec<u32>)
        requires
            inflate_fits(*region, dist as int),
        ensures
            strictly_sorted_u32(res@),
            forall|id: u32| #[trigger] res@.contains(id) <==> (id < self@.len() && Some(id) != exclude && self.touches(inflated(*region, dist as int).0, id as int)
                && rects_intersect(self@[id as int], inflated(*region, dist as int).0)),
            proper(inflated(*region, dist as int).0) && all_proper(self@) ==> forall|id: u32| #[trigger] res@.contains(id) <==> (id < self@.len() && Some(id) != exclude
                && rects_intersect(self@[id as int], inflated(*region, dist as int).0)),
    {
        let halo = region.inflate(dist);
        let hits = self.overlaps(&halo);
        let mut out: Vec<u32> = Vec::new();
        let mut t: usize = 0;
        while t < hits.len()
            invariant
                t <= hits@.len(),
                strictly_sorted_u32(hits@),
                strictly_sorted_u32(out@),
                forall|k: int| 0 <= k < out@.len() ==> exists|j: int| 0 <= j < t && hits@[j] == #[trigger] out@[k],
                forall|id: u32| #[trigger] out@.contains(id) <==> (exists|j: int| 0 <= j < t && hits@[j] == id) && Some(id) != exclude,
            decreases hits@.len() - t,
        {
            let id = hits[t];
            let excluded = match exclude {
                Some(e) => e == id,
                None => false,
            };
            let ghost before = out@;
            if !excluded {
                out.push(id);
                proof {
                    assert forall|p: int, q: int| 0 <= p < q < out@.len() implies out@[p] < out@[q] by {
                        if q == out@.len() - 1 {
                            let j = choose|j: int| 0 <= j < t && hits@[j] == #[trigger] before[p];
                            assert(hits@[j] < hits@[t as int]);
                        } else {
                            assert(before[p] < before[q]);
                        }
                    }
                    assert forall|k: int| 0 <= k < out@.len() implies exists|j: int| 0 <= j < t + 1 && hits@[j] == #[trigger] out@[k] by {
                        if k < before.len() {
                            let j = choose|j: int| 0 <= j < t && hits@[j] == #[trigger] before[k];
                            assert(hits@[j] == out@[k]);
                        } else {
                            assert(hits@[t as int] == out@[k]);
                        }
                    }
                    assert forall|x: u32| #[trigger] out@.contains(x) <==> (exists|j: int| 0 <= j < t + 1 && hits@[j] == x) && Some(x) != exclude by {
                        if out@.contains(x) {
                            if x == id {
                                assert(hits@[t as int] == x);
                            } else {
                                let w = choose|w: int| 0 <= w < out@.len() && out@[w] == x;
                                assert(before[w] == x);
                                assert(before.contains(x));
                                let j = choose|j: int| 0 <= j < t && hits@[j] == x;
                                assert(0 <= j < t + 1 && hits@[j] == x);
                            }
                        }
                        if (exists|j: int| 0 <= j < t + 1 && hits@[j] == x) && Some(x) != exclude {
                            if x == id {
                                assert(out@[before.len() as int] == x);
                            } else {
                                let j = choose|j: int| 0 <= j < t + 1 && hits@[j] == x;
                                assert(j < t);
                                assert(before.contains(x));
                                let w = choose|w: int| 0 <= w < before.len() && before[w] == x;
                                assert(out@[w] == x);
                            }
                        }
                    }
                }
            } else {
                proof {
                    assert forall|k: int| 0 <= k < out@.len() implies exists|j: int| 0 <= j < t + 1 && hits@[j] == #[trigger] out@[k] by {
                        let j = choose|j: int| 0 <= j < t && hits@[j] == #[trigger] out@[k];
                    }
                    assert forall|x: u32| #[trigger] out@.contains(x) <==> (exists|j: int| 0 <= j < t + 1 && hits@[j] == x) && Some(x) != exclude by {
                        if (exists|j: int| 0 <= j < t + 1 && hits@[j] == x) && Some(x) != exclude {
                            let j = choose|j: int| 0 <= j < t + 1 && hits@[j] == x;
                            assert(j < t);
                        }
                    }
                }
            }
            t += 1;
        }
        proof {
            assert forall|id: u32| #[trigger] out@.contains(id) <==> (hits@.contains(id) && Some(id) != exclude) by {
                if hits@.contains(id) && Some(id) != exclude {
                    let j = choose|j: int| 0 <= j < hits@.len() && hits@[j] == id;
                }
            }
        }
        out
    }

    /// Number of indexed rectangles.
    pub fn len(&self) -> (n: usize)
        ensures
            n == self@.len(),
    {
        self.rects.len()
    }

    /// No rectangle is indexed.
    pub fn is_empty(&self) -> (b: bool)
        ensures
            b == (self@.len() == 0),
    {
        self.rects.len() == 0
    }
}

} // verus!
