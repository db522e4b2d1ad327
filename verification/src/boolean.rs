//! Manhattan boolean operations on **rectilinear polygons**, via a vertical scanline.
//!
//! Each input region is reduced to its **vertical edges** with a winding sign (after
//! normalizing every polygon to counter-clockwise: a down-going edge enters the
//! region, +1; an up-going edge exits, -1). Sweeping x, the coverage of A and of B at
//! a slab is the set of y where the accumulated sign is positive — an interval set.
//! The op (AND/OR/NOT/XOR) is applied on those interval sets and emitted as
//! rectangles tiling the result, then merged horizontally. Integer coordinates make
//! the result exact.
//!
//! The region of a polygon list is stated cell by cell: the cell `(x, y)` is inside
//! when the signed vertical edges at or left of `x` that span `y` sum to a positive
//! winding number.

use vstd::prelude::*;
use vstd::string::StringSliceAdditionalSpecFns;
use crate::coverage::{Coverage, psum, total, abs_total, delta_wf, DELTA_BOUND};
use crate::geom::{Rect, imin, imax, ring_len, signed_area2_spec, shoelace_prefix, ring_count, signed_area2, rcount, rect_contains, rect_wf, ind, covers, boundary_of, lemma_rcount_covers};
use crate::sort::{sort_dedup, sort_rects, strictly_sorted, rects_sorted, rkey_le, lemma_rcount_push, lemma_contains_push};
use crate::spans::{canon, in_spans, union, intersect, difference, lemma_in_push};

verus! {

/// A boolean operation between two regions.
#[derive(Debug, Clone, Copy, PartialEq, Eq, Structural)]
pub enum Op {
    And,
    Or,
    /// A minus B.
    Not,
    Xor,
}

/// Whether a cell is in the result, given whether it is in A and in B.
pub open spec fn op_holds(op: Op, a: bool, b: bool) -> bool {
    match op {
        Op::And => a && b,
        Op::Or => a || b,
        Op::Not => a && !b,
        Op::Xor => a != b,
    }
}

/// ASCII lower-casing of one byte.
pub open spec fn lower(c: u8) -> u8 {
    if 65 <= c <= 90 { (c + 32) as u8 } else { c }
}

/// ASCII lower-casing of a byte string.
pub open spec fn lower_seq(s: Seq<u8>) -> Seq<u8> {
    s.map_values(|c: u8| lower(c))
}

/// The operation a lower-cased word names.
pub open spec fn op_of_word(w: Seq<u8>) -> Option<Op> {
    if w == seq![97u8, 110, 100] || w == seq![105u8, 110, 116, 101, 114, 115, 101, 99, 116] {
        Some(Op::And)
    } else if w == seq![111u8, 114] || w == seq![117u8, 110, 105, 111, 110] {
        Some(Op::Or)
    } else if w == seq![110u8, 111, 116] || w == seq![100u8, 105, 102, 102] || w == seq![97u8, 110, 100, 110, 111, 116] {
        Some(Op::Not)
    } else if w == seq![120u8, 111, 114] {
        Some(Op::Xor)
    } else {
        None
    }
}

/// `s` equals `w` once ASCII upper case is lowered.
fn eq_lower(s: &[u8], w: &[u8]) -> (r: bool)
    ensures
        r == (lower_seq(s@) == w@),
{
    if s.len() != w.len() {
        proof {
            assert(lower_seq(s@).len() != w@.len());
        }
        return false;
    }
    let mut i: usize = 0;
    while i < s.len()
        invariant
            i <= s.len(),
            s.len() == w.len(),
            forall|k: int| 0 <= k < i ==> lower(#[trigger] s@[k]) == w@[k],
        decreases s.len() - i,
    {
        let c = s[i];
        let lc = if 65 <= c && c <= 90 { c + 32 } else { c };
        if lc != w[i] {
            proof {
                assert(lower_seq(s@)[i as int] != w@[i as int]);
            }
            return false;
        }
        i += 1;
    }
    proof {
        assert(lower_seq(s@) =~= w@);
    }
    true
}

impl Op {
    /// Parse an operation name, ignoring ASCII case: `and`/`intersect`, `or`/`union`,
    /// `not`/`diff`/`andnot`, `xor`.
    pub fn parse(s: &str) -> (res: Option<Op>)
        ensures
            res == op_of_word(lower_seq(s.spec_bytes())),
    {
        let b = s.as_bytes();
        let w_and: [u8; 3] = [97, 110, 100];
        let w_intersect: [u8; 9] = [105, 110, 116, 101, 114, 115, 101, 99, 116];
        let w_or: [u8; 2] = [111, 114];
        let w_union: [u8; 5] = [117, 110, 105, 111, 110];
        let w_not: [u8; 3] = [110, 111, 116];
        let w_diff: [u8; 4] = [100, 105, 102, 102];
        let w_andnot: [u8; 6] = [97, 110, 100, 110, 111, 116];
        let w_xor: [u8; 3] = [120, 111, 114];
        proof {
            assert(w_and@ =~= seq![97u8, 110, 100]);
            assert(w_intersect@ =~= seq![105u8, 110, 116, 101, 114, 115, 101, 99, 116]);
            assert(w_or@ =~= seq![111u8, 114]);
            assert(w_union@ =~= seq![117u8, 110, 105, 111, 110]);
            assert(w_not@ =~= seq![110u8, 111, 116]);
            assert(w_diff@ =~= seq![100u8, 105, 102, 102]);
            assert(w_andnot@ =~= seq![97u8, 110, 100, 110, 111, 116]);
            assert(w_xor@ =~= seq![120u8, 111, 114]);
        }
        if eq_lower(b, &w_and) || eq_lower(b, &w_intersect) {
            Some(Op::And)
        } else if eq_lower(b, &w_or) || eq_lower(b, &w_union) {
            Some(Op::Or)
        } else if eq_lower(b, &w_not) || eq_lower(b, &w_diff) || eq_lower(b, &w_andnot) {
            Some(Op::Not)
        } else if eq_lower(b, &w_xor) {
            Some(Op::Xor)
        } else {
            None
        }
    }
}

/// A vertical polygon edge at `x` spanning `[ylo, yhi)`, with its winding sign.
#[derive(Debug, Clone, Copy, PartialEq, Eq, Structural)]
pub struct VEdge {
    pub x: i32,
    pub ylo: i32,
    pub yhi: i32,
    pub sign: i32,
}

/// The vertical edge (if any) from vertex `i` to vertex `(i + 1) mod n` of a ring.
pub open spec fn edge_at(poly: Seq<(i32, i32)>, i: int, n: int, ccw: bool) -> Seq<VEdge> {
    let j = if i + 1 == n { 0 } else { i + 1 };
    let (x1, y1) = poly[i];
    let (x2, y2) = poly[j];
    if x1 != x2 || y1 == y2 {
        Seq::empty()
    } else {
        let s0: i32 = if y2 < y1 { 1i32 } else { -1i32 };
        let s: i32 = if ccw { s0 } else { (-s0) as i32 };
        seq![VEdge { x: x1, ylo: imin(y1 as int, y2 as int) as i32, yhi: imax(y1 as int, y2 as int) as i32, sign: s }]
    }
}

/// Vertical edges among the first `k` edges of an `n`-vertex ring.
pub open spec fn ring_vedges(poly: Seq<(i32, i32)>, k: int, n: int, ccw: bool) -> Seq<VEdge>
    decreases k,
{
    if k <= 0 {
        Seq::empty()
    } else {
        ring_vedges(poly, k - 1, n, ccw) + edge_at(poly, k - 1, n, ccw)
    }
}

/// The signed vertical edges of one polygon (oriented as if counter-clockwise); a ring
/// of fewer than three vertices has none.
pub open spec fn poly_vedges(poly: Seq<(i32, i32)>) -> Seq<VEdge> {
    let n = ring_len(poly);
    if n < 3 {
        Seq::empty()
    } else {
        ring_vedges(poly, n, n, signed_area2_spec(poly.take(n)) >= 0)
    }
}

/// The signed vertical edges of a list of polygons.
pub open spec fn polys_vedges(polys: Seq<Seq<(i32, i32)>>) -> Seq<VEdge>
    decreases polys.len(),
{
    if polys.len() == 0 {
        Seq::empty()
    } else {
        polys_vedges(polys.drop_last()) + poly_vedges(polys.last())
    }
}

/// The point lists of a list of polygons.
pub open spec fn views(polys: Seq<Vec<(i32, i32)>>) -> Seq<Seq<(i32, i32)>> {
    polys.map_values(|p: Vec<(i32, i32)>| p@)
}

/// Total number of points in a list of polygons.
pub open spec fn pts_total(polys: Seq<Seq<(i32, i32)>>) -> int
    decreases polys.len(),
{
    if polys.len() == 0 {
        0
    } else {
        pts_total(polys.drop_last()) + polys.last().len()
    }
}

/// Contribution of an edge to the winding number of the cell `(x, y)`.
pub open spec fn edge_weight(e: VEdge, x: int, y: int) -> int {
    if e.x <= x && e.ylo <= y < e.yhi { e.sign as int } else { 0 }
}

/// Winding number of the cell `(x, y)`: signed edges at or left of `x` spanning `y`.
pub open spec fn winding(es: Seq<VEdge>, x: int, y: int) -> int
    decreases es.len(),
{
    if es.len() == 0 {
        0
    } else {
        winding(es.drop_last(), x, y) + edge_weight(es.last(), x, y)
    }
}

/// Contribution of edges lying exactly at `x`.
pub open spec fn weight_at(e: VEdge, x: int, y: int) -> int {
    if e.x == x && e.ylo <= y < e.yhi { e.sign as int } else { 0 }
}

/// Sum of the contributions of the edges exactly at `x`.
pub open spec fn winding_at(es: Seq<VEdge>, x: int, y: int) -> int
    decreases es.len(),
{
    if es.len() == 0 {
        0
    } else {
        winding_at(es.drop_last(), x, y) + weight_at(es.last(), x, y)
    }
}

/// Number of edges at or left of `x`.
pub open spec fn cnt_le(es: Seq<VEdge>, x: int) -> int
    decreases es.len(),
{
    if es.len() == 0 {
        0
    } else {
        cnt_le(es.drop_last(), x) + if es.last().x <= x { 1int } else { 0int }
    }
}

/// Number of edges exactly at `x`.
pub open spec fn cnt_at(es: Seq<VEdge>, x: int) -> int
    decreases es.len(),
{
    if es.len() == 0 {
        0
    } else {
        cnt_at(es.drop_last(), x) + if es.last().x == x { 1int } else { 0int }
    }
}

/// The cell `(x, y)` lies in the region of the polygon list (positive winding).
pub open spec fn in_region(polys: Seq<Seq<(i32, i32)>>, x: int, y: int) -> bool {
    winding(polys_vedges(polys), x, y) > 0
}

/// Some vertical edge of either operand lies strictly right of `x`.
pub open spec fn edge_right_of(es: Seq<VEdge>, x: int) -> bool {
    exists|i: int| 0 <= i < es.len() && (#[trigger] es[i]).x > x
}

/// The cell `(x, y)` belongs to the result of `op` on the regions of `a` and `b`; the
/// sweep ends at the rightmost vertical edge of either operand.
pub open spec fn bool_target(a: Seq<Seq<(i32, i32)>>, b: Seq<Seq<(i32, i32)>>, op: Op, x: int, y: int) -> bool {
    edge_right_of(polys_vedges(a) + polys_vedges(b), x) && op_holds(op, in_region(a, x, y), in_region(b, x, y))
}

/// The target cells of `op` on the regions of `a` and `b`, as a predicate.
pub open spec fn bool_region(a: Seq<Seq<(i32, i32)>>, b: Seq<Seq<(i32, i32)>>, op: Op) -> spec_fn(int, int) -> bool {
    |x: int, y: int| bool_target(a, b, op, x, y)
}

/// Each rectangle is a full column run of the target set: the cells just below and
/// just above it are outside the target, at every x it spans.
pub open spec fn col_maximal(res: Seq<Rect>, t: spec_fn(int, int) -> bool) -> bool {
    forall|i: int, x: int| 0 <= i < res.len() && res[i].x0 <= x < res[i].x1 ==> #[trigger] col_edge_clear(res[i], t, x)
}

/// At column `x`, the cells just below and just above `r` are outside `t`.
pub open spec fn col_edge_clear(r: Rect, t: spec_fn(int, int) -> bool, x: int) -> bool {
    !t(x, r.y0 - 1) && !t(x, r.y1 as int)
}

/// No two neighbouring rectangles (in `(y0, y1, x0)` order) could be joined
/// side by side.
pub open spec fn row_merged(res: Seq<Rect>) -> bool {
    forall|i: int|
        0 <= i < res.len() - 1 ==> !((#[trigger] res[i]).y0 == res[i + 1].y0 && res[i].y1 == res[i + 1].y1 && res[i].x1
            == res[i + 1].x0)
}

/// Every rectangle is normalized with positive area.
pub open spec fn all_wf(res: Seq<Rect>) -> bool {
    forall|i: int| 0 <= i < res.len() ==> rect_wf(#[trigger] res[i])
}

/// Bound on the total number of polygon points: far beyond what any address space holds.
pub const BOOL_PTS_BOUND: u128 = 0x1_0000_0000_0000_0000_0000_0000;

// ---- lemmas on windings ---------------------------------------------------------

/// Crossing from `x1` to `x2` with no edge strictly between them adds the edges at `x2`.
proof fn lemma_winding_step(es: Seq<VEdge>, x1: int, x2: int, y: int)
    requires
        x1 < x2,
        forall|i: int| 0 <= i < es.len() ==> !(x1 < (#[trigger] es[i]).x < x2),
    ensures
        winding(es, x2, y) == winding(es, x1, y) + winding_at(es, x2, y),
        cnt_le(es, x2) == cnt_le(es, x1) + cnt_at(es, x2),
    decreases es.len(),
{
    if es.len() > 0 {
        assert forall|i: int| 0 <= i < es.drop_last().len() implies !(x1 < (#[trigger] es.drop_last()[i]).x < x2) by {
            assert(es.drop_last()[i] == es[i]);
        }
        lemma_winding_step(es.drop_last(), x1, x2, y);
        assert(!(x1 < es[es.len() - 1].x < x2));
    }
}

/// With no edge left of `x`, the winding at `x` is that of the edges at `x`.
proof fn lemma_winding_first(es: Seq<VEdge>, x: int, y: int)
    requires
        forall|i: int| 0 <= i < es.len() ==> (#[trigger] es[i]).x >= x,
    ensures
        winding(es, x, y) == winding_at(es, x, y),
        cnt_le(es, x) == cnt_at(es, x),
    decreases es.len(),
{
    if es.len() > 0 {
        assert forall|i: int| 0 <= i < es.drop_last().len() implies (#[trigger] es.drop_last()[i]).x >= x by {
            assert(es.drop_last()[i] == es[i]);
        }
        lemma_winding_first(es.drop_last(), x, y);
        assert(es[es.len() - 1].x >= x);
    }
}

/// With no edge in `(x1, x2]`, the winding does not change from `x1` to `x2`.
proof fn lemma_winding_flat(es: Seq<VEdge>, x1: int, x2: int, y: int)
    requires
        x1 <= x2,
        forall|i: int| 0 <= i < es.len() ==> !(x1 < (#[trigger] es[i]).x <= x2),
    ensures
        winding(es, x2, y) == winding(es, x1, y),
    decreases es.len(),
{
    if es.len() > 0 {
        assert forall|i: int| 0 <= i < es.drop_last().len() implies !(x1 < (#[trigger] es.drop_last()[i]).x <= x2) by {
            assert(es.drop_last()[i] == es[i]);
        }
        lemma_winding_flat(es.drop_last(), x1, x2, y);
        assert(!(x1 < es[es.len() - 1].x <= x2));
    }
}

/// Left of every edge the winding is zero.
proof fn lemma_winding_left(es: Seq<VEdge>, x: int, y: int)
    requires
        forall|i: int| 0 <= i < es.len() ==> (#[trigger] es[i]).x > x,
    ensures
        winding(es, x, y) == 0,
    decreases es.len(),
{
    if es.len() > 0 {
        assert forall|i: int| 0 <= i < es.drop_last().len() implies (#[trigger] es.drop_last()[i]).x > x by {
            assert(es.drop_last()[i] == es[i]);
        }
        lemma_winding_left(es.drop_last(), x, y);
        assert(es[es.len() - 1].x > x);
    }
}

proof fn lemma_cnt_bounds(es: Seq<VEdge>, x: int)
    ensures
        0 <= cnt_le(es, x) <= es.len(),
        0 <= cnt_at(es, x) <= es.len(),
    decreases es.len(),
{
    if es.len() > 0 {
        lemma_cnt_bounds(es.drop_last(), x);
    }
}

pub(crate) proof fn lemma_winding_concat(a: Seq<VEdge>, b: Seq<VEdge>, x: int, y: int)
    ensures
        winding(a + b, x, y) == winding(a, x, y) + winding(b, x, y),
    decreases b.len(),
{
    if b.len() == 0 {
        assert(a + b =~= a);
    } else {
        lemma_winding_concat(a, b.drop_last(), x, y);
        assert((a + b).drop_last() =~= a + b.drop_last());
    }
}

proof fn lemma_ring_vedges_len(poly: Seq<(i32, i32)>, k: int, n: int, ccw: bool)
    ensures
        ring_vedges(poly, k, n, ccw).len() <= if k < 0 { 0 } else { k },
    decreases k,
{
    if k > 0 {
        lemma_ring_vedges_len(poly, k - 1, n, ccw);
    }
}

proof fn lemma_polys_vedges_len(polys: Seq<Seq<(i32, i32)>>)
    ensures
        polys_vedges(polys).len() <= pts_total(polys),
        pts_total(polys) >= 0,
    decreases polys.len(),
{
    if polys.len() > 0 {
        lemma_polys_vedges_len(polys.drop_last());
        let p = polys.last();
        let n = ring_len(p);
        if n >= 3 {
            lemma_ring_vedges_len(p, n, n, signed_area2_spec(p.take(n)) >= 0);
        }
    }
}

proof fn lemma_pts_total_member(polys: Seq<Seq<(i32, i32)>>, i: int)
    requires
        0 <= i < polys.len(),
    ensures
        polys[i].len() <= pts_total(polys),
    decreases polys.len(),
{
    if i < polys.len() - 1 {
        lemma_pts_total_member(polys.drop_last(), i);
        assert(polys.drop_last()[i] == polys[i]);
    }
    assert(pts_total(polys.drop_last()) >= 0) by {
        lemma_polys_vedges_len(polys.drop_last());
    }
}

proof fn lemma_views_take(polys: Seq<Vec<(i32, i32)>>, k: int)
    requires
        0 <= k < polys.len(),
    ensures
        views(polys).take(k + 1).drop_last() == views(polys).take(k),
        views(polys).take(k + 1).last() == polys[k]@,
{
    assert(views(polys).take(k + 1).drop_last() =~= views(polys).take(k));
}

// ---- edge extraction ------------------------------------------------------------

/// Vertical edges of a set of rectilinear polygons, with counter-clockwise winding signs.
pub fn edges(polys: &[Vec<(i32, i32)>]) -> (out: Vec<VEdge>)
    requires
        pts_total(views(polys@)) <= BOOL_PTS_BOUND,
    ensures
        out@ == polys_vedges(views(polys@)),
{
    let mut out: Vec<VEdge> = Vec::new();
    let mut pi: usize = 0;
    proof {
        assert(views(polys@).take(0) =~= Seq::<Seq<(i32, i32)>>::empty());
    }
    while pi < polys.len()
        invariant
            pi <= polys.len(),
            pts_total(views(polys@)) <= BOOL_PTS_BOUND,
            out@ == polys_vedges(views(polys@).take(pi as int)),
        decreases polys.len() - pi,
    {
        let poly = &polys[pi];
        let ghost pv = poly@;
        proof {
            lemma_views_take(polys@, pi as int);
            lemma_pts_total_member(views(polys@), pi as int);
            assert(views(polys@)[pi as int] == pv);
        }
        let n = ring_count(poly.as_slice());
        if n >= 3 {
            let ccw = signed_area2(poly.as_slice(), n) >= 0;
            let ghost base = out@;
            let mut i: usize = 0;
            while i < n
                invariant
                    i <= n,
                    n == ring_len(pv),
                    n <= pv.len(),
                    pv == poly@,
                    ccw == (signed_area2_spec(pv.take(n as int)) >= 0),
                    out@ == base + ring_vedges(pv, i as int, n as int, ccw),
                decreases n - i,
            {
                let (x1, y1) = poly[i];
                let j = if i + 1 == n { 0 } else { i + 1 };
                let (x2, y2) = poly[j];
                let ghost before = out@;
                if !(x1 != x2 || y1 == y2) {
                    let mut sign: i32 = if y2 < y1 { 1 } else { -1 };
                    if !ccw {
                        sign = -sign;
                    }
                    let ylo = if y1 <= y2 { y1 } else { y2 };
                    let yhi = if y1 <= y2 { y2 } else { y1 };
                    out.push(VEdge { x: x1, ylo, yhi, sign });
                }
                proof {
                    assert(out@ =~= before + edge_at(pv, i as int, n as int, ccw));
                    assert(base + ring_vedges(pv, i + 1, n as int, ccw) =~= base + ring_vedges(pv, i as int, n as int, ccw) + edge_at(pv, i as int, n as int, ccw));
                }
                i += 1;
            }
        } else {
            proof {
                assert(out@ =~= out@ + poly_vedges(pv));
            }
        }
        pi += 1;
    }
    proof {
        assert(views(polys@).take(polys.len() as int) =~= views(polys@));
    }
    out
}


/// Every vertical edge has a unit sign and a non-empty span.
pub open spec fn edges_shaped(es: Seq<VEdge>) -> bool {
    forall|i: int| 0 <= i < es.len() ==> ((#[trigger] es[i]).sign == 1 || es[i].sign == -1) && es[i].ylo < es[i].yhi
}

proof fn lemma_shaped_concat(a: Seq<VEdge>, b: Seq<VEdge>)
    requires
        edges_shaped(a),
        edges_shaped(b),
    ensures
        edges_shaped(a + b),
{
    assert forall|i: int| 0 <= i < (a + b).len() implies ((#[trigger] (a + b)[i]).sign == 1 || (a + b)[i].sign == -1) && (a + b)[i].ylo < (a + b)[i].yhi by {
        if i < a.len() {
            assert((a + b)[i] == a[i]);
        } else {
            assert((a + b)[i] == b[i - a.len()]);
        }
    }
}

proof fn lemma_ring_shaped(poly: Seq<(i32, i32)>, k: int, n: int, ccw: bool)
    requires
        0 <= k <= n <= poly.len(),
    ensures
        edges_shaped(ring_vedges(poly, k, n, ccw)),
    decreases k,
{
    if k > 0 {
        lemma_ring_shaped(poly, k - 1, n, ccw);
        lemma_shaped_concat(ring_vedges(poly, k - 1, n, ccw), edge_at(poly, k - 1, n, ccw));
    }
}

proof fn lemma_polys_shaped(polys: Seq<Seq<(i32, i32)>>)
    ensures
        edges_shaped(polys_vedges(polys)),
    decreases polys.len(),
{
    if polys.len() > 0 {
        lemma_polys_shaped(polys.drop_last());
        let p = polys.last();
        let n = ring_len(p);
        if n >= 3 {
            lemma_ring_shaped(p, n, n, signed_area2_spec(p.take(n)) >= 0);
        }
        lemma_shaped_concat(polys_vedges(polys.drop_last()), poly_vedges(p));
    }
}

/// Between two neighbouring values of a strictly sorted list there is no member.
proof fn lemma_gap(xs: Seq<i32>, v: i32, k: int)
    requires
        strictly_sorted(xs),
        xs.contains(v),
        0 <= k,
        k + 1 < xs.len(),
    ensures
        !(xs[k] < v < xs[k + 1]),
{
    let m = choose|m: int| 0 <= m < xs.len() && xs[m] == v;
    if xs[k] < v && v < xs[k + 1] {
        if m <= k {
            if m < k {
                assert(xs[m] < xs[k]);
            }
        } else {
            if m > k + 1 {
                assert(xs[k + 1] < xs[m]);
            }
        }
    }
}

proof fn lemma_min_max(xs: Seq<i32>, v: i32)
    requires
        strictly_sorted(xs),
        xs.contains(v),
    ensures
        xs[0] <= v <= xs[xs.len() - 1],
{
    let m = choose|m: int| 0 <= m < xs.len() && xs[m] == v;
    if m > 0 {
        assert(xs[0] < xs[m]);
    }
    if m < xs.len() - 1 {
        assert(xs[m] < xs[xs.len() - 1]);
    }
}

/// The rectangle `r` lies in the rows `src` already uses at column `x`.
pub open spec fn row_covered_by(r: Rect, src: Seq<Rect>, x: int) -> bool {
    exists|i: int| 0 <= i < src.len() && (#[trigger] src[i]).y0 == r.y0 && src[i].y1 == r.y1 && src[i].x0 <= x < src[i].x1
}

/// Sort by `(y0, y1, x0)`, then join rectangles of equal y-range that abut in x.
fn merge_horizontal(rects: Vec<Rect>) -> (out: Vec<Rect>)
    requires
        all_wf(rects@),
    ensures
        all_wf(out@),
        rects_sorted(out@),
        row_merged(out@),
        forall|x: int, y: int| #[trigger] rcount(out@, x, y) == rcount(rects@, x, y),
        forall|k: int, x: int| 0 <= k < out@.len() && out@[k].x0 <= x < out@[k].x1 ==> #[trigger] row_covered_by(out@[k], rects@, x),
{
    let sorted = sort_rects(rects.as_slice());
    proof {
        assert forall|i: int| 0 <= i < sorted@.len() implies rect_wf(#[trigger] sorted@[i]) by {
            assert(rects@.contains(sorted@[i]));
        }
    }
    let mut out: Vec<Rect> = Vec::new();
    let mut t: usize = 0;
    while t < sorted.len()
        invariant
            t <= sorted@.len(),
            all_wf(sorted@),
            rects_sorted(sorted@),
            forall|k: int| 0 <= k < sorted@.len() ==> rects@.contains(#[trigger] sorted@[k]),
            all_wf(out@),
            rects_sorted(out@),
            row_merged(out@),
            forall|x: int, y: int| #[trigger] rcount(out@, x, y) == rcount(sorted@.take(t as int), x, y),
            forall|k: int, x: int| 0 <= k < out@.len() && out@[k].x0 <= x < out@[k].x1 ==> #[trigger] row_covered_by(out@[k], rects@, x),
            out@.len() > 0 && t < sorted@.len() ==> rkey_le(out@.last(), sorted@[t as int]),
        decreases sorted@.len() - t,
    {
        let r = sorted[t];
        let ghost old_out = out@;
        let n = out.len();
        proof {
            assert(sorted@.take(t + 1) =~= sorted@.take(t as int).push(r));
            assert(rects@.contains(r));
        }
        let ghost ri = choose|i: int| 0 <= i < rects@.len() && rects@[i] == r;
        if n > 0 && out[n - 1].y0 == r.y0 && out[n - 1].y1 == r.y1 && out[n - 1].x1 == r.x0 {
            let last = out[n - 1];
            let m = Rect { x0: last.x0, y0: last.y0, x1: r.x1, y1: last.y1 };
            out.set(n - 1, m);
            proof {
                assert(out@ =~= old_out.drop_last().push(m));
                assert(old_out =~= old_out.drop_last().push(last));
                assert forall|x: int, y: int| #[trigger] rcount(out@, x, y) == rcount(sorted@.take(t + 1), x, y) by {
                    lemma_rcount_push(old_out.drop_last(), m, x, y);
                    lemma_rcount_push(old_out.drop_last(), last, x, y);
                    lemma_rcount_push(sorted@.take(t as int), r, x, y);
                }
                assert forall|k: int, x: int| 0 <= k < out@.len() && out@[k].x0 <= x < out@[k].x1 implies #[trigger] row_covered_by(out@[k], rects@, x) by {
                    if k < n - 1 {
                        assert(out@[k] == old_out[k]);
                    } else if x < last.x1 {
                        assert(row_covered_by(old_out[k], rects@, x));
                    } else {
                        assert(rects@[ri] == r);
                    }
                }
                assert forall|p: int, q: int| 0 <= p < q < out@.len() implies rkey_le(out@[p], out@[q]) by {
                    assert(rkey_le(old_out[p], old_out[q]));
                }
                assert forall|i: int| 0 <= i < out@.len() - 1 implies !((#[trigger] out@[i]).y0 == out@[i + 1].y0 && out@[i].y1 == out@[i + 1].y1 && out@[i].x1 == out@[i + 1].x0) by {
                    assert(old_out[i] == out@[i]);
                }
            }
        } else {
            out.push(r);
            proof {
                assert forall|x: int, y: int| #[trigger] rcount(out@, x, y) == rcount(sorted@.take(t + 1), x, y) by {
                    lemma_rcount_push(old_out, r, x, y);
                    lemma_rcount_push(sorted@.take(t as int), r, x, y);
                }
                assert forall|k: int, x: int| 0 <= k < out@.len() && out@[k].x0 <= x < out@[k].x1 implies #[trigger] row_covered_by(out@[k], rects@, x) by {
                    if k < n {
                        assert(out@[k] == old_out[k]);
                    } else {
                        assert(rects@[ri] == r);
                    }
                }
                assert forall|p: int, q: int| 0 <= p < q < out@.len() implies rkey_le(out@[p], out@[q]) by {
                    if q < n {
                        assert(rkey_le(old_out[p], old_out[q]));
                    } else if p < n - 1 {
                        assert(rkey_le(old_out[p], old_out[n - 1]));
                    }
                }
                assert forall|i: int| 0 <= i < out@.len() - 1 implies !((#[trigger] out@[i]).y0 == out@[i + 1].y0 && out@[i].y1 == out@[i + 1].y1 && out@[i].x1 == out@[i + 1].x0) by {
                    assert(old_out[i] == out@[i]);
                }
            }
        }
        t += 1;
        proof {
            if t < sorted@.len() {
                assert(rkey_le(sorted@[t - 1], sorted@[t as int]));
            }
        }
    }
    proof {
        assert(sorted@.take(sorted@.len() as int) =~= sorted@);
    }
    out
}

/// The span list for one slab: `op` applied to the coverages of A and B.
fn apply_op(op: Op, ia: &Vec<(i32, i32)>, ib: &Vec<(i32, i32)>) -> (ir: Vec<(i32, i32)>)
    requires
        canon(ia@),
        canon(ib@),
    ensures
        canon(ir@),
        forall|y: int| #[trigger] in_spans(ir@, y) <==> op_holds(op, in_spans(ia@, y), in_spans(ib@, y)),
{
    match op {
        Op::And => intersect(ia, ib),
        Op::Or => union(ia, ib),
        Op::Not => difference(ia, ib),
        Op::Xor => {
            let d1 = difference(ia, ib);
            let d2 = difference(ib, ia);
            union(&d1, &d2)
        },
    }
}

/// Fold every edge of `es` lying at `xl` into the coverage.
fn fold_edges_at(cov: &mut Coverage, es: &Vec<VEdge>, xl: i32, Ghost(bound): Ghost<int>)
    requires
        delta_wf(old(cov).delta@),
        edges_shaped(es@),
        abs_total(old(cov).delta@) + 2 * es@.len() <= DELTA_BOUND,
    ensures
        delta_wf(final(cov).delta@),
        forall|z: int| #[trigger] psum(final(cov).delta@, z) == psum(old(cov).delta@, z) + winding_at(es@, xl as int, z),
        abs_total(final(cov).delta@) <= abs_total(old(cov).delta@) + 2 * cnt_at(es@, xl as int),
{
    let ghost s0 = cov.delta@;
    let mut m: usize = 0;
    proof {
        assert(es@.take(0) =~= Seq::<VEdge>::empty());
        lemma_cnt_bounds(es@, xl as int);
    }
    while m < es.len()
        invariant
            m <= es@.len(),
            edges_shaped(es@),
            delta_wf(cov.delta@),
            abs_total(s0) + 2 * es@.len() <= DELTA_BOUND,
            forall|z: int| #[trigger] psum(cov.delta@, z) == psum(s0, z) + winding_at(es@.take(m as int), xl as int, z),
            abs_total(cov.delta@) <= abs_total(s0) + 2 * cnt_at(es@.take(m as int), xl as int),
        decreases es@.len() - m,
    {
        let e = es[m];
        let ghost before = cov.delta@;
        proof {
            assert(es@.take(m + 1).drop_last() =~= es@.take(m as int));
            assert(es@.take(m + 1).last() == e);
            lemma_cnt_bounds(es@.take(m as int), xl as int);
        }
        if e.x == xl {
            cov.apply(e.ylo, e.yhi, e.sign);
        }
        m += 1;
        proof {
            assert forall|z: int| #[trigger] psum(cov.delta@, z) == psum(s0, z) + winding_at(es@.take(m as int), xl as int, z) by {
                assert(psum(before, z) == psum(s0, z) + winding_at(es@.take(m - 1), xl as int, z));
            }
        }
    }
    proof {
        assert(es@.take(es@.len() as int) =~= es@);
    }
}

/// Boolean on rectilinear polygons → the result as rectangles tiling the region.
///
/// Active-interval plane sweep: sweep x left→right over the sorted distinct edge
/// x-coordinates, folding each region's edges at a slab's left boundary into its
/// running y-coverage, reading off the covered intervals, and applying the op on those
/// interval sets. The slab rectangles are then merged horizontally.
pub fn boolean_poly(a: &[Vec<(i32, i32)>], b: &[Vec<(i32, i32)>], op: Op) -> (res: Vec<Rect>)
    requires
        pts_total(views(a@)) + pts_total(views(b@)) <= BOOL_PTS_BOUND,
    ensures
        forall|x: int, y: int| #[trigger] rcount(res@, x, y) == ind(bool_target(views(a@), views(b@), op, x, y)),
        all_wf(res@),
        rects_sorted(res@),
        row_merged(res@),
        col_maximal(res@, bool_region(views(a@), views(b@), op)),
{
    let ghost pa = views(a@);
    let ghost pb = views(b@);
    let ghost tgt = bool_region(pa, pb, op);
    proof {
        lemma_polys_vedges_len(pa);
        lemma_polys_vedges_len(pb);
        lemma_polys_shaped(pa);
        lemma_polys_shaped(pb);
    }
    let ea = edges(a);
    let eb = edges(b);
    let ghost all = ea@ + eb@;
    // every edge x, in order
    let mut allx: Vec<i32> = Vec::new();
    let mut i: usize = 0;
    while i < ea.len()
        invariant
            i <= ea@.len(),
            allx@.len() == i,
            forall|k: int| 0 <= k < i ==> #[trigger] allx@[k] == ea@[k].x,
        decreases ea@.len() - i,
    {
        allx.push(ea[i].x);
        i += 1;
    }
    let mut j: usize = 0;
    while j < eb.len()
        invariant
            j <= eb@.len(),
            allx@.len() == ea@.len() + j,
            forall|k: int| 0 <= k < ea@.len() ==> #[trigger] allx@[k] == ea@[k].x,
            forall|k: int| 0 <= k < j ==> #[trigger] allx@[ea@.len() + k] == eb@[k].x,
        decreases eb@.len() - j,
    {
        allx.push(eb[j].x);
        j += 1;
    }
    let xs = sort_dedup(allx.as_slice());
    let nx = xs.len();
    proof {
        assert forall|k: int| 0 <= k < ea@.len() implies xs@.contains((#[trigger] ea@[k]).x) by {
            assert(allx@[k] == ea@[k].x);
            assert(allx@.contains(ea@[k].x));
        }
        assert forall|k: int| 0 <= k < eb@.len() implies xs@.contains((#[trigger] eb@[k]).x) by {
            assert(allx@[ea@.len() + k] == eb@[k].x);
            assert(allx@.contains(eb@[k].x));
        }
        assert forall|k: int| 0 <= k < all.len() implies xs@.contains((#[trigger] all[k]).x) by {
            if k < ea@.len() {
                assert(all[k] == ea@[k]);
                assert(xs@.contains(ea@[k].x));
            } else {
                assert(all[k] == eb@[k - ea@.len()]);
                assert(xs@.contains(eb@[k - ea@.len()].x));
            }
        }
    }
    if nx < 2 {
        proof {
            assert forall|x: int, y: int| #[trigger] rcount(Seq::<Rect>::empty(), x, y) == ind(bool_target(pa, pb, op, x, y)) by {
                if bool_target(pa, pb, op, x, y) {
                    let k = choose|k: int| 0 <= k < all.len() && (#[trigger] all[k]).x > x;
                    assert(xs@.contains(all[k].x));
                    lemma_min_max(xs@, all[k].x);
                    assert forall|q: int| 0 <= q < ea@.len() implies (#[trigger] ea@[q]).x > x by {
                        lemma_min_max(xs@, ea@[q].x);
                    }
                    assert forall|q: int| 0 <= q < eb@.len() implies (#[trigger] eb@[q]).x > x by {
                        lemma_min_max(xs@, eb@[q].x);
                    }
                    lemma_winding_left(ea@, x, y);
                    lemma_winding_left(eb@, x, y);
                }
            }
        }
        return Vec::new();
    }
    let mut cov_a = Coverage::new();
    let mut cov_b = Coverage::new();
    let mut out: Vec<Rect> = Vec::new();
    let mut k: usize = 0;
    proof {
        // the last sweep position is the x of some edge
        let top = xs@[nx - 1];
        assert(xs@.contains(top));
        assert(allx@.contains(top));
        let kk = choose|kk: int| 0 <= kk < allx@.len() && allx@[kk] == top;
        if kk < ea@.len() {
            assert(all[kk] == ea@[kk]);
        } else {
            assert(all[kk] == eb@[kk - ea@.len()]);
            assert(allx@[ea@.len() + (kk - ea@.len())] == eb@[kk - ea@.len()].x);
        }
        assert(all[kk].x == top);
        lemma_cnt_bounds(ea@, 0);
        lemma_cnt_bounds(eb@, 0);
        assert forall|x: int, y: int| #[trigger] rcount(out@, x, y) == ind(x < xs@[0] && tgt(x, y)) by {
            if x < xs@[0] {
                assert forall|q: int| 0 <= q < ea@.len() implies (#[trigger] ea@[q]).x > x by {
                    lemma_min_max(xs@, ea@[q].x);
                }
                assert forall|q: int| 0 <= q < eb@.len() implies (#[trigger] eb@[q]).x > x by {
                    lemma_min_max(xs@, eb@[q].x);
                }
                lemma_winding_left(ea@, x, y);
                lemma_winding_left(eb@, x, y);
            }
        }
    }
    while k + 1 < nx
        invariant
            k + 1 <= nx,
            nx == xs@.len(),
            nx >= 2,
            strictly_sorted(xs@),
            ea@ == polys_vedges(pa),
            eb@ == polys_vedges(pb),
            all == ea@ + eb@,
            edges_shaped(ea@),
            edges_shaped(eb@),
            ea@.len() <= BOOL_PTS_BOUND,
            eb@.len() <= BOOL_PTS_BOUND,
            forall|q: int| 0 <= q < ea@.len() ==> xs@.contains((#[trigger] ea@[q]).x),
            forall|q: int| 0 <= q < eb@.len() ==> xs@.contains((#[trigger] eb@[q]).x),
            forall|q: int| 0 <= q < all.len() ==> xs@.contains((#[trigger] all[q]).x),
            exists|e: int| 0 <= e < all.len() && (#[trigger] all[e]).x == xs@[nx - 1],
            tgt == bool_region(pa, pb, op),
            delta_wf(cov_a.delta@),
            delta_wf(cov_b.delta@),
            total(cov_a.delta@) == 0,
            total(cov_b.delta@) == 0,
            k == 0 ==> cov_a.delta@.len() == 0 && cov_b.delta@.len() == 0,
            k > 0 ==> forall|y: int| #[trigger] psum(cov_a.delta@, y) == winding(ea@, xs@[k - 1] as int, y),
            k > 0 ==> forall|y: int| #[trigger] psum(cov_b.delta@, y) == winding(eb@, xs@[k - 1] as int, y),
            abs_total(cov_a.delta@) <= 2 * (if k > 0 { cnt_le(ea@, xs@[k - 1] as int) } else { 0 }),
            abs_total(cov_b.delta@) <= 2 * (if k > 0 { cnt_le(eb@, xs@[k - 1] as int) } else { 0 }),
            forall|x: int, y: int| #[trigger] rcount(out@, x, y) == ind(x < xs@[k as int] && tgt(x, y)),
            all_wf(out@),
            col_maximal(out@, tgt),
        decreases nx - k,
    {
        let xl = xs[k];
        let xr = xs[k + 1];
        let ghost sa = cov_a.delta@;
        let ghost sb = cov_b.delta@;
        proof {
            lemma_cnt_bounds(ea@, xl as int);
            lemma_cnt_bounds(eb@, xl as int);
            if k > 0 {
                lemma_cnt_bounds(ea@, xs@[k - 1] as int);
                lemma_cnt_bounds(eb@, xs@[k - 1] as int);
            }
            if k == 0 {
                assert(abs_total(sa) == 0 && abs_total(sb) == 0);
            }
        }
        fold_edges_at(&mut cov_a, &ea, xl, Ghost(0));
        fold_edges_at(&mut cov_b, &eb, xl, Ghost(0));
        proof {
            // the coverage now reflects every edge at or left of xl
            if k > 0 {
                let xp = xs@[k - 1];
                assert forall|q: int| 0 <= q < ea@.len() implies !(xp < (#[trigger] ea@[q]).x < xl) by {
                    lemma_gap(xs@, ea@[q].x, k - 1);
                }
                assert forall|q: int| 0 <= q < eb@.len() implies !(xp < (#[trigger] eb@[q]).x < xl) by {
                    lemma_gap(xs@, eb@[q].x, k - 1);
                }
                assert forall|y: int| #[trigger] psum(cov_a.delta@, y) == winding(ea@, xl as int, y) by {
                    lemma_winding_step(ea@, xp as int, xl as int, y);
                }
                assert forall|y: int| #[trigger] psum(cov_b.delta@, y) == winding(eb@, xl as int, y) by {
                    lemma_winding_step(eb@, xp as int, xl as int, y);
                }
                lemma_winding_step(ea@, xp as int, xl as int, 0);
                lemma_winding_step(eb@, xp as int, xl as int, 0);
            } else {
                assert forall|q: int| 0 <= q < ea@.len() implies (#[trigger] ea@[q]).x >= xl by {
                    lemma_min_max(xs@, ea@[q].x);
                }
                assert forall|q: int| 0 <= q < eb@.len() implies (#[trigger] eb@[q]).x >= xl by {
                    lemma_min_max(xs@, eb@[q].x);
                }
                assert forall|y: int| #[trigger] psum(cov_a.delta@, y) == winding(ea@, xl as int, y) by {
                    lemma_winding_first(ea@, xl as int, y);
                    assert(psum(sa, y) == 0);
                }
                assert forall|y: int| #[trigger] psum(cov_b.delta@, y) == winding(eb@, xl as int, y) by {
                    lemma_winding_first(eb@, xl as int, y);
                    assert(psum(sb, y) == 0);
                }
                lemma_winding_first(ea@, xl as int, 0);
                lemma_winding_first(eb@, xl as int, 0);
            }
            // the sum of all deltas stays zero: no edge spans i32::MAX
            lemma_winding_at_top(ea@, xl as int);
            lemma_winding_at_top(eb@, xl as int);
            assert(psum(cov_a.delta@, i32::MAX as int) == psum(sa, i32::MAX as int) + winding_at(ea@, xl as int, i32::MAX as int));
            assert(psum(cov_b.delta@, i32::MAX as int) == psum(sb, i32::MAX as int) + winding_at(eb@, xl as int, i32::MAX as int));
        }
        let ia = cov_a.intervals();
        let ib = cov_b.intervals();
        let ir = apply_op(op, &ia, &ib);
        let ghost out_k = out@;
        proof {
            // inside the slab the target is exactly the span list
            assert forall|x: int, y: int| xl <= x < xr implies (#[trigger] tgt(x, y) <==> in_spans(ir@, y)) by {
                assert forall|q: int| 0 <= q < ea@.len() implies !(xl < (#[trigger] ea@[q]).x <= x) by {
                    lemma_gap(xs@, ea@[q].x, k as int);
                }
                assert forall|q: int| 0 <= q < eb@.len() implies !(xl < (#[trigger] eb@[q]).x <= x) by {
                    lemma_gap(xs@, eb@[q].x, k as int);
                }
                lemma_winding_flat(ea@, xl as int, x, y);
                lemma_winding_flat(eb@, xl as int, x, y);
                let e = choose|e: int| 0 <= e < all.len() && (#[trigger] all[e]).x == xs@[nx - 1];
                if k + 1 < nx - 1 {
                    assert(xs@[k + 1] < xs@[nx - 1]);
                }
                assert(all[e].x > x);
                assert(edge_right_of(polys_vedges(pa) + polys_vedges(pb), x));
                assert(in_spans(ia@, y) <==> psum(cov_a.delta@, y) > 0);
                assert(in_spans(ib@, y) <==> psum(cov_b.delta@, y) > 0);
            }
        }
        let mut t: usize = 0;
        while t < ir.len()
            invariant
                t <= ir@.len(),
                canon(ir@),
                xl < xr,
                forall|x: int, y: int| #[trigger] rcount(out@, x, y) == rcount(out_k, x, y) + ind(xl <= x < xr && in_spans(ir@.take(t as int), y)),
                all_wf(out@),
                col_maximal(out@, tgt),
                forall|x: int, y: int| xl <= x < xr ==> (#[trigger] tgt(x, y) <==> in_spans(ir@, y)),
            decreases ir@.len() - t,
        {
            let (y0, y1) = ir[t];
            let r = Rect { x0: xl, y0, x1: xr, y1 };
            let ghost before = out@;
            out.push(r);
            t += 1;
            proof {
                assert(ir@.take(t as int) =~= ir@.take(t - 1).push((y0, y1)));
                assert forall|x: int, y: int| #[trigger] rcount(out@, x, y) == rcount(out_k, x, y) + ind(xl <= x < xr && in_spans(ir@.take(t as int), y)) by {
                    lemma_rcount_push(before, r, x, y);
                    lemma_in_push(ir@.take(t - 1), (y0, y1), y);
                    if in_spans(ir@.take(t - 1), y) && y0 <= y < y1 {
                        let q = choose|q: int| 0 <= q < ir@.take(t - 1).len() && (#[trigger] ir@.take(t - 1)[q]).0 <= y < ir@.take(t - 1)[q].1;
                        assert(ir@[q].1 < ir@[t - 1].0);
                    }
                }
                assert forall|i: int, x: int| 0 <= i < out@.len() && out@[i].x0 <= x < out@[i].x1 implies #[trigger] col_edge_clear(out@[i], tgt, x) by {
                    if i < before.len() {
                        assert(out@[i] == before[i]);
                    } else {
                        lemma_canon_edges(ir@, t - 1);
                    }
                }
            }
        }
        k += 1;
        proof {
            assert(ir@.take(ir@.len() as int) =~= ir@);
            assert forall|x: int, y: int| #[trigger] rcount(out@, x, y) == ind(x < xs@[k as int] && tgt(x, y)) by {
                assert(rcount(out_k, x, y) == ind(x < xl && tgt(x, y)));
            }
            lemma_cnt_bounds(ea@, xl as int);
            lemma_cnt_bounds(eb@, xl as int);
        }
    }
    let res = merge_horizontal(out);
    proof {
        assert forall|x: int, y: int| #[trigger] rcount(res@, x, y) == ind(bool_target(pa, pb, op, x, y)) by {
            if bool_target(pa, pb, op, x, y) {
                let q = choose|q: int| 0 <= q < all.len() && (#[trigger] all[q]).x > x;
                lemma_min_max(xs@, all[q].x);
            }
            assert(rcount(out@, x, y) == ind(x < xs@[nx - 1] && tgt(x, y)));
        }
        assert forall|i: int, x: int| 0 <= i < res@.len() && res@[i].x0 <= x < res@[i].x1 implies #[trigger] col_edge_clear(res@[i], tgt, x) by {
            assert(row_covered_by(res@[i], out@, x));
            let q = choose|q: int| 0 <= q < out@.len() && (#[trigger] out@[q]).y0 == res@[i].y0 && out@[q].y1 == res@[i].y1 && out@[q].x0 <= x < out@[q].x1;
            assert(col_edge_clear(out@[q], tgt, x));
        }
    }
    res
}

/// No vertical edge spans the top coordinate `i32::MAX`.
proof fn lemma_winding_at_top(es: Seq<VEdge>, x: int)
    ensures
        winding_at(es, x, i32::MAX as int) == 0,
    decreases es.len(),
{
    if es.len() > 0 {
        lemma_winding_at_top(es.drop_last(), x);
    }
}

/// In a canonical list, the integer just below a span and the span's end are uncovered.
proof fn lemma_canon_edges(s: Seq<(i32, i32)>, i: int)
    requires
        canon(s),
        0 <= i < s.len(),
    ensures
        !in_spans(s, s[i].0 - 1),
        !in_spans(s, s[i].1 as int),
{
    if in_spans(s, s[i].0 - 1) {
        let q = choose|q: int| 0 <= q < s.len() && (#[trigger] s[q]).0 <= s[i].0 - 1 < s[q].1;
        if q < i {
            assert(s[q].1 < s[i].0);
        } else if q > i {
            assert(s[i].1 < s[q].0);
        }
    }
    if in_spans(s, s[i].1 as int) {
        let q = choose|q: int| 0 <= q < s.len() && (#[trigger] s[q]).0 <= s[i].1 < s[q].1;
        if q < i {
            assert(s[q].1 < s[i].0);
        } else if q > i {
            assert(s[i].1 < s[q].0);
        }
    }
}

/// The boundary rings of a list of rectangles.
pub open spec fn rect_rings(rs: Seq<Rect>) -> Seq<Seq<(i32, i32)>> {
    rs.map_values(|r: Rect| boundary_of(r))
}

/// The cell `(x, y)` belongs to the result of `op` on the areas covered by `a` and `b`.
pub open spec fn rect_bool_region(a: Seq<Rect>, b: Seq<Rect>, op: Op) -> spec_fn(int, int) -> bool {
    |x: int, y: int| op_holds(op, covers(a, x, y), covers(b, x, y))
}

/// The boundary ring of one rectangle winds once around each of its cells and nowhere
/// else, whatever the order of its corners.
proof fn lemma_rect_winding(r: Rect, x: int, y: int)
    ensures
        winding(poly_vedges(boundary_of(r)), x, y) == ind(rect_contains(r, x, y)),
{
    let p = boundary_of(r);
    let (x0, y0, x1, y1) = (r.x0 as int, r.y0 as int, r.x1 as int, r.y1 as int);
    assert(ring_len(p) == 4);
    let t = p.take(4);
    assert(t[0] == (r.x0, r.y0) && t[1] == (r.x1, r.y0) && t[2] == (r.x1, r.y1) && t[3] == (r.x0, r.y1));
    reveal_with_fuel(shoelace_prefix, 5);
    assert(signed_area2_spec(t) == (x0 * y0 - x1 * y0) + (x1 * y1 - x1 * y0) + (x1 * y1 - x0 * y1) + (x0 * y0 - x0 * y1));
    assert((x0 * y0 - x1 * y0) + (x1 * y1 - x1 * y0) + (x1 * y1 - x0 * y1) + (x0 * y0 - x0 * y1) == 2 * ((x1 - x0) * (y1 - y0))) by (nonlinear_arith);
    let w = x1 - x0;
    let h = y1 - y0;
    if w > 0 && h < 0 {
        assert(w * h < 0) by (nonlinear_arith) requires w > 0, h < 0;
    } else if w < 0 && h > 0 {
        assert(w * h < 0) by (nonlinear_arith) requires w < 0, h > 0;
    } else if w >= 0 && h >= 0 {
        assert(w * h >= 0) by (nonlinear_arith) requires w >= 0, h >= 0;
    } else {
        assert(w * h >= 0) by (nonlinear_arith) requires w <= 0, h <= 0;
    }
    let ccw = signed_area2_spec(t) >= 0;
    reveal_with_fuel(ring_vedges, 5);
    let es = ring_vedges(p, 4, 4, ccw);
    assert(es == edge_at(p, 0, 4, ccw) + edge_at(p, 1, 4, ccw) + edge_at(p, 2, 4, ccw) + edge_at(p, 3, 4, ccw)) by {
        assert(ring_vedges(p, 0, 4, ccw) =~= Seq::<VEdge>::empty());
        assert(ring_vedges(p, 1, 4, ccw) =~= edge_at(p, 0, 4, ccw));
    }
    assert(edge_at(p, 0, 4, ccw) =~= Seq::<VEdge>::empty());
    assert(edge_at(p, 2, 4, ccw) =~= Seq::<VEdge>::empty());
    let e1 = edge_at(p, 1, 4, ccw);
    let e3 = edge_at(p, 3, 4, ccw);
    assert(es =~= e1 + e3);
    lemma_winding_concat(e1, e3, x, y);
    reveal_with_fuel(winding, 2);
    if y0 == y1 {
        assert(e1 =~= Seq::<VEdge>::empty());
        assert(e3 =~= Seq::<VEdge>::empty());
    }
}

/// Stacked rectangle rings wind around a cell as often as rectangles contain it.
proof fn lemma_rings_winding(rs: Seq<Rect>, x: int, y: int)
    ensures
        winding(polys_vedges(rect_rings(rs)), x, y) == rcount(rs, x, y),
        pts_total(rect_rings(rs)) == 5 * rs.len(),
    decreases rs.len(),
{
    if rs.len() > 0 {
        assert(rect_rings(rs).drop_last() =~= rect_rings(rs.drop_last()));
        assert(rect_rings(rs).last() == boundary_of(rs.last()));
        lemma_rings_winding(rs.drop_last(), x, y);
        lemma_rect_winding(rs.last(), x, y);
        lemma_winding_concat(polys_vedges(rect_rings(rs.drop_last())), poly_vedges(boundary_of(rs.last())), x, y);
    }
}

/// A rectangle's cells lie left of its right edge, which is a vertical ring edge.
proof fn lemma_rings_right_of(rs: Seq<Rect>, x: int, y: int)
    requires
        covers(rs, x, y),
    ensures
        edge_right_of(polys_vedges(rect_rings(rs)), x),
    decreases rs.len(),
{
    let es = polys_vedges(rect_rings(rs));
    assert(rect_rings(rs).drop_last() =~= rect_rings(rs.drop_last()));
    let head = polys_vedges(rect_rings(rs.drop_last()));
    let r = rs.last();
    let tail = poly_vedges(boundary_of(r));
    assert(es == head + tail);
    if covers(rs.drop_last(), x, y) {
        lemma_rings_right_of(rs.drop_last(), x, y);
        let i = choose|i: int| 0 <= i < head.len() && (#[trigger] head[i]).x > x;
        assert(es[i] == head[i]);
    } else {
        if !rect_contains(r, x, y) {
            let i = choose|i: int| 0 <= i < rs.len() && rect_contains(#[trigger] rs[i], x, y);
            assert(rs.drop_last()[i] == rs[i]);
        }
        // the cell lies in r: its winding is one, so some ring edge lies beyond x
        lemma_rect_winding(r, x, y);
        if forall|q: int| 0 <= q < tail.len() ==> (#[trigger] tail[q]).x <= x {
            let xm = x + 1;
            assert(rect_contains(r, x, y));
            lemma_rect_winding(r, imax(r.x0 as int, r.x1 as int), y);
            lemma_winding_flat(tail, x, imax(r.x0 as int, r.x1 as int), y);
        }
        let q = choose|q: int| 0 <= q < tail.len() && (#[trigger] tail[q]).x > x;
        assert(es[head.len() + q] == tail[q]);
    }
}

/// Boolean on rectangle lists: the result tiles exactly the cells where `op` holds
/// between the area covered by `a` and the area covered by `b`.
pub fn boolean(a: &[Rect], b: &[Rect], op: Op) -> (res: Vec<Rect>)
    ensures
        forall|x: int, y: int| #[trigger] rcount(res@, x, y) == ind(op_holds(op, covers(a@, x, y), covers(b@, x, y))),
        all_wf(res@),
        rects_sorted(res@),
        row_merged(res@),
        col_maximal(res@, rect_bool_region(a@, b@, op)),
{
    let mut pa: Vec<Vec<(i32, i32)>> = Vec::new();
    let mut i: usize = 0;
    while i < a.len()
        invariant
            i <= a@.len(),
            pa@.len() == i,
            views(pa@) == rect_rings(a@.take(i as int)),
        decreases a@.len() - i,
    {
        let ring = a[i].as_boundary();
        let ghost before = pa@;
        pa.push(ring);
        proof {
            assert forall|k: int| 0 <= k < i + 1 implies #[trigger] views(pa@)[k] == rect_rings(a@.take(i + 1))[k] by {
                if k < i {
                    assert(pa@[k] == before[k]);
                    assert(views(before)[k] == rect_rings(a@.take(i as int))[k]);
                }
            }
            assert(views(pa@) =~= rect_rings(a@.take(i + 1)));
        }
        i += 1;
    }
    let mut pb: Vec<Vec<(i32, i32)>> = Vec::new();
    let mut j: usize = 0;
    while j < b.len()
        invariant
            j <= b@.len(),
            pb@.len() == j,
            views(pb@) == rect_rings(b@.take(j as int)),
        decreases b@.len() - j,
    {
        let ring = b[j].as_boundary();
        let ghost before = pb@;
        pb.push(ring);
        proof {
            assert forall|k: int| 0 <= k < j + 1 implies #[trigger] views(pb@)[k] == rect_rings(b@.take(j + 1))[k] by {
                if k < j {
                    assert(pb@[k] == before[k]);
                    assert(views(before)[k] == rect_rings(b@.take(j as int))[k]);
                }
            }
            assert(views(pb@) =~= rect_rings(b@.take(j + 1)));
        }
        j += 1;
    }
    proof {
        assert(a@.take(a@.len() as int) =~= a@);
        assert(b@.take(b@.len() as int) =~= b@);
        lemma_rings_winding(a@, 0, 0);
        lemma_rings_winding(b@, 0, 0);
    }
    let res = boolean_poly(pa.as_slice(), pb.as_slice(), op);
    proof {
        let ra = rect_rings(a@);
        let rb = rect_rings(b@);
        assert(views(pa@) == ra);
        assert(views(pb@) == rb);
        assert forall|x: int, y: int| bool_target(ra, rb, op, x, y) == op_holds(op, covers(a@, x, y), covers(b@, x, y)) by {
            lemma_rings_winding(a@, x, y);
            lemma_rings_winding(b@, x, y);
            lemma_rcount_covers(a@, x, y);
            lemma_rcount_covers(b@, x, y);
            if covers(a@, x, y) {
                lemma_rings_right_of(a@, x, y);
                let q = choose|q: int| 0 <= q < polys_vedges(ra).len() && (#[trigger] polys_vedges(ra)[q]).x > x;
                assert((polys_vedges(ra) + polys_vedges(rb))[q] == polys_vedges(ra)[q]);
            } else if covers(b@, x, y) {
                lemma_rings_right_of(b@, x, y);
                let q = choose|q: int| 0 <= q < polys_vedges(rb).len() && (#[trigger] polys_vedges(rb)[q]).x > x;
                assert((polys_vedges(ra) + polys_vedges(rb))[polys_vedges(ra).len() + q] == polys_vedges(rb)[q]);
            }
        }
        assert forall|i: int, x: int| 0 <= i < res@.len() && res@[i].x0 <= x < res@[i].x1 implies #[trigger] col_edge_clear(res@[i], rect_bool_region(a@, b@, op), x) by {
            assert(col_edge_clear(res@[i], bool_region(ra, rb, op), x));
            assert(bool_target(ra, rb, op, x, res@[i].y0 - 1) == op_holds(op, covers(a@, x, res@[i].y0 - 1), covers(b@, x, res@[i].y0 - 1)));
            assert(bool_target(ra, rb, op, x, res@[i].y1 as int) == op_holds(op, covers(a@, x, res@[i].y1 as int), covers(b@, x, res@[i].y1 as int)));
        }
    }
    res
}

} // verus!
