//! Engine: the computations behind the command verbs — picking the cell to work on,
//! collecting the shapes of a layer, the `boolean` verb on a library, and the built-in
//! demo. Reading and writing files is left to the caller.

use vstd::prelude::*;
use vstd::string::StringExecFns;
use vstd::arithmetic::div_mod::{lemma_small_mod, lemma_mod_self_0};
use crate::boolean::{boolean, boolean_poly, bool_target, bool_region, col_maximal, op_holds, rect_bool_region, pts_total, views, all_wf, row_merged, Op, BOOL_PTS_BOUND};
use crate::sort::rects_sorted;
use crate::gds::{copy_pts, lemma_gds_round_trip, writable, cell_ok, elem_ok, str_ok, Cell, ElemV, Element, Library, REAL8_MILLI, REAL8_NANO};
use crate::geom::{imin, covers, bbox, boundary_of, is_bbox, is_rect_ring, ring_count, ring_len, rcount, ind, rect_wf, Rect};

verus! {

/// Why the engine could not run.
#[derive(Debug, Clone, PartialEq, Eq)]
pub enum RunError {
    /// No cell has the requested name.
    NotFound,
    /// The library holds no cells.
    NoCells,
    /// The library holds this many cells and none was named.
    Ambiguous(usize),
    /// The two layers together hold more points than the boolean engine's arithmetic
    /// bound (far beyond any addressable input).
    TooManyPoints,
}

// ---- picking a cell -----------------------------------------------------------------

/// The index of the first cell at or after `i` named `t`, or -1.
pub open spec fn find_name(cs: Seq<Cell>, t: Seq<char>, i: int) -> int
    decreases cs.len() - i,
{
    if i < 0 || i >= cs.len() {
        -1
    } else if cs[i].name@ == t {
        i
    } else {
        find_name(cs, t, i + 1)
    }
}

/// The requested name, as characters.
pub open spec fn top_view(top: Option<&str>) -> Option<Seq<char>> {
    match top {
        Some(t) => Some(t@),
        None => None,
    }
}

/// The cell to operate on: the first one with the requested name; without a name, the
/// only cell of the library.
pub open spec fn pick_spec(cs: Seq<Cell>, top: Option<Seq<char>>) -> Result<int, RunError> {
    match top {
        Some(t) => {
            let k = find_name(cs, t, 0);
            if k >= 0 {
                Ok(k)
            } else {
                Err(RunError::NotFound)
            }
        },
        None => {
            if cs.len() == 1 {
                Ok(0)
            } else if cs.len() == 0 {
                Err(RunError::NoCells)
            } else {
                Err(RunError::Ambiguous(cs.len() as usize))
            }
        },
    }
}

proof fn lemma_find_name_range(cs: Seq<Cell>, t: Seq<char>, i: int)
    requires
        i >= 0,
    ensures
        find_name(cs, t, i) == -1 || (i <= find_name(cs, t, i) < cs.len() && cs[find_name(cs, t, i)].name@ == t),
        find_name(cs, t, i) == -1 ==> forall|j: int| i <= j < cs.len() ==> cs[j].name@ != t,
    decreases cs.len() - i,
{
    if 0 <= i < cs.len() && cs[i].name@ != t {
        lemma_find_name_range(cs, t, i + 1);
    }
}

/// Pick the cell to operate on: the named one, the single one, else an error.
pub fn pick<'a>(lib: &'a Library, top: Option<&str>) -> (r: Result<&'a Cell, RunError>)
    ensures
        match pick_spec(lib.cells@, top_view(top)) {
            Ok(k) => 0 <= k < lib.cells@.len() && (r matches Ok(c) && *c == lib.cells@[k]),
            Err(e) => (r matches Err(e2) && e2 == e),
        },
{
    match top {
        Some(t) => {
            let want = String::from_str(t);
            let n = lib.cells.len();
            let mut i: usize = 0;
            while i < n
                invariant
                    i <= n,
                    n == lib.cells@.len(),
                    want@ == t@,
                    top_view(top) == Some(t@),
                    find_name(lib.cells@, t@, 0) == find_name(lib.cells@, t@, i as int),
                decreases n - i,
            {
                if lib.cells[i].name == want {
                    assert(find_name(lib.cells@, t@, i as int) == i);
                    assert(top_view(top) == Some(t@));
                    assert(pick_spec(lib.cells@, top_view(top)) == Ok::<int, RunError>(i as int));
                    let c = &lib.cells[i];
                    assert(*c == lib.cells@[i as int]);
                    return Ok(c);
                }
                i += 1;
            }
            assert(find_name(lib.cells@, t@, n as int) == -1);
            Err(RunError::NotFound)
        },
        None => {
            let n = lib.cells.len();
            if n == 1 {
                Ok(&lib.cells[0])
            } else if n == 0 {
                Err(RunError::NoCells)
            } else {
                Err(RunError::Ambiguous(n))
            }
        },
    }
}

// ---- the shapes of a layer ------------------------------------------------------------

/// The two points share an x or a y: the edge between them is axis-parallel.
pub open spec fn axis_step(a: (i32, i32), b: (i32, i32)) -> bool {
    a.0 == b.0 || a.1 == b.1
}

/// Every edge of the ring (a repeated closing point dropped, the ring closed implicitly)
/// is horizontal or vertical.
pub open spec fn manhattan(pts: Seq<(i32, i32)>) -> bool {
    forall|i: int| 0 <= i < ring_len(pts) ==> #[trigger] axis_step(pts[i], pts[(i + 1) % ring_len(pts)])
}

/// Whether every edge of the ring is horizontal or vertical.
pub fn is_manhattan(pts: &[(i32, i32)]) -> (b: bool)
    ensures
        b == manhattan(pts@),
{
    let n = ring_count(pts);
    let mut i: usize = 0;
    while i < n
        invariant
            n == ring_len(pts@),
            n <= pts@.len(),
            i <= n,
            forall|k: int| 0 <= k < i ==> #[trigger] axis_step(pts@[k], pts@[(k + 1) % (n as int)]),
        decreases n - i,
    {
        let j: usize = if i + 1 == n { 0 } else { i + 1 };
        proof {
            if i + 1 == n {
                lemma_mod_self_0(n as int);
            } else {
                lemma_small_mod((i + 1) as nat, n as nat);
            }
            assert(j == (i + 1) % (n as int));
        }
        if !(pts[i].0 == pts[j].0 || pts[i].1 == pts[j].1) {
            assert(!axis_step(pts@[i as int], pts@[(i + 1) % (n as int)]));
            return false;
        }
        i += 1;
    }
    true
}

/// Being Manhattan is about every side of the closed ring, the closing side included:
/// with `n` the number of distinct vertices (a repeated closing point dropped), each
/// vertex shares an x or a y with the next, and the last vertex with the first.
pub proof fn lemma_manhattan_sides(pts: Seq<(i32, i32)>)
    ensures
        ({
            let n = if pts.len() >= 2 && pts[0] == pts[pts.len() - 1] { pts.len() - 1 } else { pts.len() as int };
            manhattan(pts) <==> {
                &&& forall|i: int| 0 <= i < n - 1 ==> (#[trigger] pts[i]).0 == pts[i + 1].0 || pts[i].1 == pts[i + 1].1
                &&& n > 0 ==> (pts[n - 1].0 == pts[0].0 || pts[n - 1].1 == pts[0].1)
            }
        }),
{
    let n = if pts.len() >= 2 && pts[0] == pts[pts.len() - 1] { pts.len() - 1 } else { pts.len() as int };
    assert(ring_len(pts) == n);
    if manhattan(pts) {
        assert forall|i: int| 0 <= i < n - 1 implies (#[trigger] pts[i]).0 == pts[i + 1].0 || pts[i].1 == pts[i + 1].1 by {
            lemma_small_mod((i + 1) as nat, n as nat);
            assert(axis_step(pts[i], pts[(i + 1) % n]));
        }
        if n > 0 {
            lemma_mod_self_0(n);
            assert(axis_step(pts[n - 1], pts[(n - 1 + 1) % n]));
        }
    }
    if (forall|i: int| 0 <= i < n - 1 ==> (#[trigger] pts[i]).0 == pts[i + 1].0 || pts[i].1 == pts[i + 1].1) && (n > 0 ==> (
    pts[n - 1].0 == pts[0].0 || pts[n - 1].1 == pts[0].1)) {
        assert forall|i: int| 0 <= i < ring_len(pts) implies #[trigger] axis_step(pts[i], pts[(i + 1) % ring_len(pts)]) by {
            if i + 1 == n {
                lemma_mod_self_0(n);
            } else {
                lemma_small_mod((i + 1) as nat, n as nat);
                assert(pts[i].0 == pts[i + 1].0 || pts[i].1 == pts[i + 1].1);
            }
        }
    }
}

/// The point lists of the boundaries and boxes of `es` on layer `layer` and datatype (box
/// type) `dt`, in order.
pub open spec fn shapes_on(es: Seq<ElemV>, layer: i16, dt: i16) -> Seq<Seq<(i32, i32)>>
    decreases es.len(),
{
    if es.len() == 0 {
        Seq::empty()
    } else {
        let rest = shapes_on(es.drop_last(), layer, dt);
        match es.last() {
            ElemV::Boundary { layer: l, datatype: d, pts } => if l == layer && d == dt {
                rest.push(pts)
            } else {
                rest
            },
            ElemV::Box { layer: l, boxtype: d, pts } => if l == layer && d == dt {
                rest.push(pts)
            } else {
                rest
            },
            _ => rest,
        }
    }
}

/// The bounding box of a non-empty point list.
pub open spec fn bbox_rect(p: Seq<(i32, i32)>) -> Rect {
    choose|r: Rect| is_bbox(p, r)
}

/// A shape as the engine works on it: a Manhattan ring as it is, any other by the ring of
/// its bounding box.
pub open spec fn poly_out(p: Seq<(i32, i32)>) -> Seq<(i32, i32)> {
    if manhattan(p) {
        p
    } else {
        boundary_of(bbox_rect(p))
    }
}

/// The shapes of a layer as the engine works on them.
pub open spec fn layer_polys(es: Seq<ElemV>, layer: i16, dt: i16) -> Seq<Seq<(i32, i32)>> {
    shapes_on(es, layer, dt).map_values(|p: Seq<(i32, i32)>| poly_out(p))
}

/// How many of the shapes are not Manhattan (and were replaced by their bounding box).
pub open spec fn approx_count(ps: Seq<Seq<(i32, i32)>>) -> nat
    decreases ps.len(),
{
    if ps.len() == 0 {
        0
    } else {
        approx_count(ps.drop_last()) + if manhattan(ps.last()) { 0nat } else { 1nat }
    }
}

/// A bounding box is determined by its points.
pub proof fn lemma_bbox_unique(p: Seq<(i32, i32)>, r1: Rect, r2: Rect)
    requires
        is_bbox(p, r1),
        is_bbox(p, r2),
    ensures
        r1 == r2,
{
    let a = choose|k: int| 0 <= k < p.len() && #[trigger] p[k].0 == r2.x0;
    let b = choose|k: int| 0 <= k < p.len() && #[trigger] p[k].0 == r1.x0;
    let c = choose|k: int| 0 <= k < p.len() && #[trigger] p[k].0 == r2.x1;
    let d = choose|k: int| 0 <= k < p.len() && #[trigger] p[k].0 == r1.x1;
    let e = choose|k: int| 0 <= k < p.len() && #[trigger] p[k].1 == r2.y0;
    let f = choose|k: int| 0 <= k < p.len() && #[trigger] p[k].1 == r1.y0;
    let g = choose|k: int| 0 <= k < p.len() && #[trigger] p[k].1 == r2.y1;
    let h = choose|k: int| 0 <= k < p.len() && #[trigger] p[k].1 == r1.y1;
    assert(r1.x0 <= p[a].0 && r2.x0 <= p[b].0 && p[c].0 <= r1.x1 && p[d].0 <= r2.x1);
    assert(r1.y0 <= p[e].1 && r2.y0 <= p[f].1 && p[g].1 <= r1.y1 && p[h].1 <= r2.y1);
}

/// A rectangle ring names one rectangle.
pub proof fn lemma_rect_ring_unique(p: Seq<(i32, i32)>, r1: Rect, r2: Rect)
    requires
        is_rect_ring(p, r1),
        is_rect_ring(p, r2),
    ensures
        r1 == r2,
{
    let a = choose|k: int| 0 <= k < 4 && #[trigger] p[k].0 == r2.x0;
    let c = choose|k: int| 0 <= k < 4 && #[trigger] p[k].0 == r2.x1;
    let e = choose|k: int| 0 <= k < 4 && #[trigger] p[k].1 == r2.y0;
    let g = choose|k: int| 0 <= k < 4 && #[trigger] p[k].1 == r2.y1;
    assert(p[a].0 == r1.x0 || p[a].0 == r1.x1);
    assert(p[c].0 == r1.x0 || p[c].0 == r1.x1);
    assert(p[e].1 == r1.y0 || p[e].1 == r1.y1);
    assert(p[g].1 == r1.y0 || p[g].1 == r1.y1);
}

proof fn lemma_shapes_step(es: Seq<ElemV>, i: int, layer: i16, dt: i16)
    requires
        0 <= i < es.len(),
    ensures
        shapes_on(es.take(i + 1), layer, dt) == (match es[i] {
            ElemV::Boundary { layer: l, datatype: d, pts } => if l == layer && d == dt {
                shapes_on(es.take(i), layer, dt).push(pts)
            } else {
                shapes_on(es.take(i), layer, dt)
            },
            ElemV::Box { layer: l, boxtype: d, pts } => if l == layer && d == dt {
                shapes_on(es.take(i), layer, dt).push(pts)
            } else {
                shapes_on(es.take(i), layer, dt)
            },
            _ => shapes_on(es.take(i), layer, dt),
        }),
{
    assert(es.take(i + 1).drop_last() =~= es.take(i));
    assert(es.take(i + 1).last() == es[i]);
}

proof fn lemma_views_push(
    before: Seq<Vec<(i32, i32)>>,
    after: Seq<Vec<(i32, i32)>>,
    sh: Seq<Seq<(i32, i32)>>,
    p: Seq<(i32, i32)>,
)
    requires
        views(before) == sh.map_values(|q: Seq<(i32, i32)>| poly_out(q)),
        after.len() == before.len() + 1,
        forall|k: int| 0 <= k < before.len() ==> #[trigger] after[k] == before[k],
        after[before.len() as int]@ == poly_out(p),
    ensures
        views(after) == sh.push(p).map_values(|q: Seq<(i32, i32)>| poly_out(q)),
{
    assert(views(before).len() == before.len());
    assert(sh.map_values(|q: Seq<(i32, i32)>| poly_out(q)).len() == sh.len());
    assert(sh.len() == before.len());
    assert forall|k: int| 0 <= k < after.len() implies #[trigger] views(after)[k] == sh.push(p).map_values(
        |q: Seq<(i32, i32)>| poly_out(q),
    )[k] by {
        assert(sh.push(p)[k] == if k < sh.len() { sh[k] } else { p });
        if k < before.len() {
            assert(views(before)[k] == before[k]@);
            assert(views(after)[k] == after[k]@);
        } else {
            assert(views(after)[k] == after[k]@);
        }
    }
    assert(views(after) =~= sh.push(p).map_values(|q: Seq<(i32, i32)>| poly_out(q)));
}

/// Collect the shape `pts` into `polys` (as it is, or by its bounding box), counting the
/// replaced ones in `approx`.
fn collect_shape(polys: &mut Vec<Vec<(i32, i32)>>, approx: &mut usize, pts: &Vec<(i32, i32)>)
    requires
        *old(approx) < usize::MAX,
    ensures
        final(polys)@.len() == old(polys)@.len() + 1,
        forall|k: int| 0 <= k < old(polys)@.len() ==> #[trigger] final(polys)@[k] == old(polys)@[k],
        final(polys)@[old(polys)@.len() as int]@ == poly_out(pts@),
        *final(approx) == *old(approx) + if manhattan(pts@) { 0usize } else { 1usize },
{
    if is_manhattan(pts.as_slice()) {
        polys.push(copy_pts(pts));
    } else {
        proof {
            assert(pts@.len() > 0) by {
                let i = choose|i: int| !(0 <= i < ring_len(pts@) ==> #[trigger] axis_step(pts@[i], pts@[(i + 1) % ring_len(pts@)]));
            }
        }
        match bbox(pts.as_slice()) {
            Some(b) => {
                proof {
                    lemma_bbox_unique(pts@, b, bbox_rect(pts@));
                }
                polys.push(b.as_boundary());
            },
            None => {},
        }
        *approx = *approx + 1;
    }
}

/// Manhattan polygons on a (layer, datatype): each boundary or box of the cell on it, in
/// order; a genuinely non-Manhattan shape (a diagonal edge) is replaced by its bounding
/// box and counted, never silently dropped.
pub fn polys_on(cell: &Cell, layer: i16, datatype: i16) -> (res: (Vec<Vec<(i32, i32)>>, usize))
    ensures
        views(res.0@) == layer_polys(cell@.elements, layer, datatype),
        res.1 == approx_count(shapes_on(cell@.elements, layer, datatype)),
{
    let ghost es = cell@.elements;
    let mut polys: Vec<Vec<(i32, i32)>> = Vec::new();
    let mut approx: usize = 0;
    let n = cell.elements.len();
    let mut i: usize = 0;
    while i < n
        invariant
            i <= n,
            n == es.len(),
            es == cell@.elements,
            n == cell.elements@.len(),
            views(polys@) == layer_polys(es.take(i as int), layer, datatype),
            approx == approx_count(shapes_on(es.take(i as int), layer, datatype)),
            approx <= i,
        decreases n - i,
    {
        proof {
            lemma_shapes_step(es, i as int, layer, datatype);
            assert(es[i as int] == cell.elements@[i as int]@);
        }
        let ghost before = polys@;
        let ghost sh = shapes_on(es.take(i as int), layer, datatype);
        match &cell.elements[i] {
            Element::Boundary { layer: l, datatype: d, pts } => {
                if *l == layer && *d == datatype {
                    collect_shape(&mut polys, &mut approx, pts);
                    proof {
                        assert(sh.push(pts@).drop_last() =~= sh);
                        lemma_views_push(before, polys@, sh, pts@);
                    }
                }
            },
            Element::Box { layer: l, boxtype: d, pts } => {
                if *l == layer && *d == datatype {
                    collect_shape(&mut polys, &mut approx, pts);
                    proof {
                        assert(sh.push(pts@).drop_last() =~= sh);
                        lemma_views_push(before, polys@, sh, pts@);
                    }
                }
            },
            _ => {},
        }
        i += 1;
    }
    proof {
        assert(es.take(n as int) =~= es);
    }
    (polys, approx)
}

/// The rectangle a polygon stands for: itself when it is a rectangle ring, else its
/// bounding box; none for an empty point list.
pub open spec fn ring_rect(p: Seq<(i32, i32)>) -> Option<Rect> {
    if exists|r: Rect| is_rect_ring(p, r) {
        Some(choose|r: Rect| is_rect_ring(p, r))
    } else if p.len() > 0 {
        Some(bbox_rect(p))
    } else {
        None
    }
}

/// The rectangles that a list of polygons stands for, in order.
pub open spec fn rects_of(ps: Seq<Seq<(i32, i32)>>) -> Seq<Rect>
    decreases ps.len(),
{
    if ps.len() == 0 {
        Seq::empty()
    } else {
        let r = rects_of(ps.drop_last());
        match ring_rect(ps.last()) {
            Some(x) => r.push(x),
            None => r,
        }
    }
}

/// Rectangles on a (layer, datatype): each polygon of [`polys_on`] as the rectangle it
/// is, or by its bounding box.
pub fn rects_on(cell: &Cell, layer: i16, datatype: i16) -> (res: (Vec<Rect>, usize))
    ensures
        res.0@ == rects_of(layer_polys(cell@.elements, layer, datatype)),
        res.1 == approx_count(shapes_on(cell@.elements, layer, datatype)),
{
    let (polys, approx) = polys_on(cell, layer, datatype);
    let ghost ps = views(polys@);
    let mut out: Vec<Rect> = Vec::new();
    let n = polys.len();
    let mut i: usize = 0;
    while i < n
        invariant
            i <= n,
            n == polys@.len(),
            ps == views(polys@),
            out@ == rects_of(ps.take(i as int)),
        decreases n - i,
    {
        proof {
            assert(ps.take(i + 1).drop_last() =~= ps.take(i as int));
            assert(ps.take(i + 1).last() == polys@[i as int]@);
        }
        let p = polys[i].as_slice();
        match Rect::from_boundary(p) {
            Some(r) => {
                proof {
                    lemma_rect_ring_unique(p@, r, choose|q: Rect| is_rect_ring(p@, q));
                }
                out.push(r);
            },
            None => {
                match bbox(p) {
                    Some(b) => {
                        proof {
                            lemma_bbox_unique(p@, b, bbox_rect(p@));
                        }
                        out.push(b);
                    },
                    None => {},
                }
            },
        }
        i += 1;
    }
    proof {
        assert(ps.take(n as int) =~= ps);
    }
    (out, approx)
}

// ---- the boolean verb ---------------------------------------------------------------

/// What the boolean verb reports: the polygons read on each input layer, the rectangles
/// written, their total area (saturating at `i64::MAX`), and how many input shapes were
/// replaced by their bounding box (saturating at `usize::MAX`).
#[derive(Debug, Clone, Copy, PartialEq, Eq)]
pub struct BoolSummary {
    pub a: usize,
    pub b: usize,
    pub out: usize,
    pub out_area: i64,
    pub approx: usize,
}

/// Total area of a list of rectangles.
pub open spec fn area_sum(rs: Seq<Rect>) -> int
    decreases rs.len(),
{
    if rs.len() == 0 {
        0
    } else {
        area_sum(rs.drop_last()) + (rs.last().x1 - rs.last().x0) * (rs.last().y1 - rs.last().y0)
    }
}

/// `v`, saturated at `i64::MAX`.
pub open spec fn sat_i64(v: int) -> int {
    if v > i64::MAX {
        i64::MAX as int
    } else {
        v
    }
}

/// What the boolean engine promises of its rectangles for the polygon lists `pa`, `pb`.
pub open spec fn bool_result(res: Seq<Rect>, pa: Seq<Seq<(i32, i32)>>, pb: Seq<Seq<(i32, i32)>>, op: Op) -> bool {
    &&& forall|x: int, y: int| #[trigger] rcount(res, x, y) == ind(bool_target(pa, pb, op, x, y))
    &&& all_wf(res)
    &&& rects_sorted(res)
    &&& row_merged(res)
    &&& col_maximal(res, bool_region(pa, pb, op))
}

/// The elements are the boundary rings of the rectangles, in order, on (layer, datatype).
pub open spec fn rect_elems(es: Seq<Element>, rs: Seq<Rect>, layer: i16, datatype: i16) -> bool {
    &&& es.len() == rs.len()
    &&& forall|k: int|
        0 <= k < es.len() ==> (#[trigger] es[k] matches Element::Boundary { layer: l, datatype: d, pts } && l == layer && d
            == datatype && pts@ == boundary_of(rs[k]))
}

/// Sum the areas of normalized rectangles, saturating at `i64::MAX`.
fn sat_area(rs: &Vec<Rect>) -> (t: i64)
    requires
        all_wf(rs@),
    ensures
        t == sat_i64(area_sum(rs@)),
{
    let mut t: i64 = 0;
    let n = rs.len();
    let mut i: usize = 0;
    while i < n
        invariant
            i <= n,
            n == rs@.len(),
            all_wf(rs@),
            area_sum(rs@.take(i as int)) >= 0,
            t == sat_i64(area_sum(rs@.take(i as int))),
        decreases n - i,
    {
        let r = rs[i];
        proof {
            assert(rs@.take(i + 1).drop_last() =~= rs@.take(i as int));
            assert(rect_wf(rs@[i as int]));
        }
        let w = (r.x1 as i128) - (r.x0 as i128);
        let h = (r.y1 as i128) - (r.y0 as i128);
        assert(0 < w * h <= 0x1_0000_0000_0000_0000) by (nonlinear_arith)
            requires
                0 < w <= 0x1_0000_0000,
                0 < h <= 0x1_0000_0000,
        ;
        let a = w * h;
        if (t as i128) + a > i64::MAX as i128 {
            t = i64::MAX;
        } else {
            t = ((t as i128) + a) as i64;
        }
        i += 1;
    }
    proof {
        assert(rs@.take(n as int) =~= rs@);
    }
    t
}

/// Total number of points of the polygons, counted up to just past `BOOL_PTS_BOUND`.
fn count_points(a: &Vec<Vec<(i32, i32)>>, b: &Vec<Vec<(i32, i32)>>) -> (within: bool)
    ensures
        within == (pts_total(views(a@)) + pts_total(views(b@)) <= BOOL_PTS_BOUND),
{
    let ta = count_one(a);
    let tb = count_one(b);
    ta + tb <= BOOL_PTS_BOUND
}

/// The number of points of the polygons, capped just past `BOOL_PTS_BOUND`.
fn count_one(a: &Vec<Vec<(i32, i32)>>) -> (t: u128)
    ensures
        t == if pts_total(views(a@)) > BOOL_PTS_BOUND { BOOL_PTS_BOUND + 1 } else { pts_total(views(a@)) },
{
    let mut t: u128 = 0;
    let n = a.len();
    let mut i: usize = 0;
    while i < n
        invariant
            i <= n,
            n == a@.len(),
            pts_total(views(a@).take(i as int)) >= 0,
            t == if pts_total(views(a@).take(i as int)) > BOOL_PTS_BOUND {
                BOOL_PTS_BOUND + 1
            } else {
                pts_total(views(a@).take(i as int))
            },
        decreases n - i,
    {
        proof {
            assert(views(a@).take(i + 1).drop_last() =~= views(a@).take(i as int));
            assert(views(a@).take(i + 1).last() == a@[i as int]@);
        }
        let k = a[i].len() as u128;
        if t + k > BOOL_PTS_BOUND {
            t = BOOL_PTS_BOUND + 1;
        } else {
            t = t + k;
        }
        i += 1;
    }
    proof {
        assert(views(a@).take(n as int) =~= views(a@));
    }
    t
}

/// The boolean verb on a library: pick the cell, combine its polygons on layers `a` and
/// `b` with `op`, and return a library with one cell `<name>_bool` holding the resulting
/// rectangles on `out_ld`, with the summary of the run.
pub fn run_boolean(lib: &Library, top: Option<&str>, a: (i16, i16), b: (i16, i16), out_ld: (i16, i16), op: Op) -> (r: Result<
    (Library, BoolSummary),
    RunError,
>)
    ensures
        match pick_spec(lib.cells@, top_view(top)) {
            Err(e) => (r matches Err(e2) && e2 == e),
            Ok(k) => {
                let es = lib.cells@[k]@.elements;
                let pa = layer_polys(es, a.0, a.1);
                let pb = layer_polys(es, b.0, b.1);
                if pts_total(pa) + pts_total(pb) > BOOL_PTS_BOUND {
                    (r matches Err(e2) && e2 == RunError::TooManyPoints)
                } else {
                    &&& r is Ok
                    &&& exists|res: Seq<Rect>| #[trigger] bool_result(res, pa, pb, op) && r->Ok_0.1.out == res.len() && r->Ok_0.1.out_area
                        == sat_i64(area_sum(res)) && r->Ok_0.0.cells@.len() == 1 && rect_elems(r->Ok_0.0.cells@[0].elements@, res, out_ld.0, out_ld.1)
                    &&& r->Ok_0.1.a == pa.len()
                    &&& r->Ok_0.1.b == pb.len()
                    &&& r->Ok_0.1.approx == imin(
                        (approx_count(shapes_on(es, a.0, a.1)) + approx_count(shapes_on(es, b.0, b.1))) as int,
                        usize::MAX as int,
                    )
                    &&& r->Ok_0.0.name@ == lib.name@
                    &&& r->Ok_0.0.user_unit == lib.user_unit
                    &&& r->Ok_0.0.db_unit == lib.db_unit
                    &&& r->Ok_0.0.cells@.len() == 1
                    &&& r->Ok_0.0.cells@[0].name@ == lib.cells@[k].name@ + "_bool"@
                }
            },
        },
{
    let cell = match pick(lib, top) {
        Ok(c) => c,
        Err(e) => {
            return Err(e);
        },
    };
    let (pa, aa) = polys_on(cell, a.0, a.1);
    let (pb, ab) = polys_on(cell, b.0, b.1);
    if !count_points(&pa, &pb) {
        return Err(RunError::TooManyPoints);
    }
    proof {
        lemma_approx_le(shapes_on(cell@.elements, a.0, a.1));
        lemma_approx_le(shapes_on(cell@.elements, b.0, b.1));
        lemma_shapes_le(cell@.elements, a.0, a.1);
        lemma_shapes_le(cell@.elements, b.0, b.1);
    }
    let res = boolean_poly(pa.as_slice(), pb.as_slice(), op);
    let out_area = sat_area(&res);
    let mut name = cell.name.clone();
    name.append("_bool");
    let mut elements: Vec<Element> = Vec::new();
    let n = res.len();
    let mut i: usize = 0;
    while i < n
        invariant
            i <= n,
            n == res@.len(),
            rect_elems(elements@, res@.take(i as int), out_ld.0, out_ld.1),
        decreases n - i,
    {
        let ring = res[i].as_boundary();
        elements.push(Element::Boundary { layer: out_ld.0, datatype: out_ld.1, pts: ring });
        i += 1;
    }
    proof {
        assert(res@.take(n as int) =~= res@);
    }
    let oc = Cell { name, elements };
    let mut cells: Vec<Cell> = Vec::new();
    cells.push(oc);
    let olib = Library { name: lib.name.clone(), user_unit: lib.user_unit, db_unit: lib.db_unit, cells };
    let summary = BoolSummary { a: pa.len(), b: pb.len(), out: res.len(), out_area, approx: aa.saturating_add(ab) };
    proof {
        assert(bool_result(res@, views(pa@), views(pb@), op));
    }
    Ok((olib, summary))
}

proof fn lemma_approx_le(ps: Seq<Seq<(i32, i32)>>)
    ensures
        approx_count(ps) <= ps.len(),
    decreases ps.len(),
{
    if ps.len() > 0 {
        lemma_approx_le(ps.drop_last());
    }
}

proof fn lemma_shapes_le(es: Seq<ElemV>, layer: i16, dt: i16)
    ensures
        shapes_on(es, layer, dt).len() <= es.len(),
    decreases es.len(),
{
    if es.len() > 0 {
        lemma_shapes_le(es.drop_last(), layer, dt);
    }
}

// ---- the demo ---------------------------------------------------------------------

/// The decimal digit `d`.
pub open spec fn digit_char(d: nat) -> char {
    if d == 0 {
        '0'
    } else if d == 1 {
        '1'
    } else if d == 2 {
        '2'
    } else if d == 3 {
        '3'
    } else if d == 4 {
        '4'
    } else if d == 5 {
        '5'
    } else if d == 6 {
        '6'
    } else if d == 7 {
        '7'
    } else if d == 8 {
        '8'
    } else {
        '9'
    }
}

/// The decimal numeral of `v`.
pub open spec fn dec(v: nat) -> Seq<char>
    decreases v,
{
    if v < 10 {
        seq![digit_char(v)]
    } else {
        dec(v / 10) + seq![digit_char(v % 10)]
    }
}

fn digit_str(d: u64) -> (s: &'static str)
    requires
        d < 10,
    ensures
        s@ == seq![digit_char(d as nat)],
{
    if d == 0 {
        proof { reveal_strlit("0"); }
        "0"
    } else if d == 1 {
        proof { reveal_strlit("1"); }
        "1"
    } else if d == 2 {
        proof { reveal_strlit("2"); }
        "2"
    } else if d == 3 {
        proof { reveal_strlit("3"); }
        "3"
    } else if d == 4 {
        proof { reveal_strlit("4"); }
        "4"
    } else if d == 5 {
        proof { reveal_strlit("5"); }
        "5"
    } else if d == 6 {
        proof { reveal_strlit("6"); }
        "6"
    } else if d == 7 {
        proof { reveal_strlit("7"); }
        "7"
    } else if d == 8 {
        proof { reveal_strlit("8"); }
        "8"
    } else {
        proof { reveal_strlit("9"); }
        "9"
    }
}

/// The decimal numeral of `v`.
pub fn decimal(v: u64) -> (s: String)
    ensures
        s@ == dec(v as nat),
    decreases v,
{
    if v < 10 {
        String::from_str(digit_str(v))
    } else {
        let mut s = decimal(v / 10);
        s.append(digit_str(v % 10));
        s
    }
}

/// The first box of the demo, on layer 1/0.
pub open spec fn demo_a() -> Rect {
    Rect { x0: 0, y0: 0, x1: 100, y1: 100 }
}

/// The second box of the demo, on layer 2/0.
pub open spec fn demo_b() -> Rect {
    Rect { x0: 50, y0: 0, x1: 150, y1: 100 }
}

/// What the rectangle boolean engine promises of the AND of the two demo boxes.
pub open spec fn demo_and(res: Seq<Rect>) -> bool {
    &&& forall|x: int, y: int| #[trigger] rcount(res, x, y) == ind(covers(seq![demo_a()], x, y) && covers(seq![demo_b()], x, y))
    &&& all_wf(res)
    &&& rects_sorted(res)
    &&& row_merged(res)
    &&& col_maximal(res, rect_bool_region(seq![demo_a()], seq![demo_b()], Op::And))
}

/// The demo's report, from the library name and cell count read back, the rectangle
/// counts of the two layers, and the AND's rectangle count and area.
pub open spec fn demo_report(name: Seq<char>, ncells: nat, na: nat, nb: nat, nand: nat, area: nat) -> Seq<char> {
    "vyges-layout demo — two overlapping boxes, layer 1/0 AND layer 2/0\n"@ + "  GDS round-trip ok: lib \""@ + name + "\", "@
        + dec(ncells) + " cell(s)\n"@ + "  layer 1/0: "@ + dec(na) + " rect   layer 2/0: "@ + dec(nb) + " rect\n"@
        + "  AND -> "@ + dec(nand) + " rect, area "@ + dec(area) + " dbu² (expect 5000 = 50×100)\n"@
}

proof fn lemma_area_sum_nonneg(rs: Seq<Rect>)
    requires
        all_wf(rs),
    ensures
        area_sum(rs) >= 0,
    decreases rs.len(),
{
    if rs.len() > 0 {
        assert(all_wf(rs.drop_last())) by {
            assert forall|i: int| 0 <= i < rs.drop_last().len() implies rect_wf(#[trigger] rs.drop_last()[i]) by {
                assert(rect_wf(rs[i]));
            }
        }
        lemma_area_sum_nonneg(rs.drop_last());
        let r = rs.last();
        assert(rect_wf(rs[rs.len() - 1]));
        assert((r.x1 - r.x0) * (r.y1 - r.y0) > 0) by (nonlinear_arith)
            requires
                r.x0 < r.x1,
                r.y0 < r.y1,
        ;
    }
}

/// A rectangle with area is read back from its own boundary ring, and from nothing
/// else: its closed boundary is a rectangle ring of it and of no other rectangle.
pub proof fn lemma_boundary_ring_names_rect(r: Rect)
    requires
        rect_wf(r),
    ensures
        is_rect_ring(boundary_of(r), r),
        forall|q: Rect| #[trigger] is_rect_ring(boundary_of(r), q) ==> q == r,
{
    lemma_boundary_shape(r);
    assert forall|q: Rect| #[trigger] is_rect_ring(boundary_of(r), q) implies q == r by {
        lemma_rect_ring_unique(boundary_of(r), r, q);
    }
}

/// A closed rectangle boundary is a Manhattan ring of that rectangle.
proof fn lemma_boundary_shape(r: Rect)
    requires
        r.x0 < r.x1,
        r.y0 < r.y1,
    ensures
        manhattan(boundary_of(r)),
        is_rect_ring(boundary_of(r), r),
        poly_out(boundary_of(r)) == boundary_of(r),
        ring_rect(boundary_of(r)) == Some(r),
{
    let p = boundary_of(r);
    assert(ring_len(p) == 4);
    assert forall|i: int| 0 <= i < ring_len(p) implies #[trigger] axis_step(p[i], p[(i + 1) % ring_len(p)]) by {
        if i == 3 {
            assert((i + 1) % 4 == 0);
        } else {
            assert((i + 1) % 4 == i + 1);
        }
    }
    assert(p[0].0 == r.x0 && p[1].0 == r.x1 && p[0].1 == r.y0 && p[2].1 == r.y1);
    assert(is_rect_ring(p, r));
    lemma_rect_ring_unique(p, r, choose|q: Rect| is_rect_ring(p, q));
}

/// Built-in demo: two overlapping boxes on two layers, written to GDS bytes, read back,
/// and ANDed — no files.
pub fn demo() -> (s: String)
    ensures
        exists|res: Seq<Rect>| #[trigger] demo_and(res) && s@ == demo_report(
            "DEMO"@,
            1,
            1,
            1,
            res.len(),
            sat_i64(area_sum(res)) as nat,
        ),
{
    let ra = Rect { x0: 0, y0: 0, x1: 100, y1: 100 };
    let rb = Rect { x0: 50, y0: 0, x1: 150, y1: 100 };
    let mut elements: Vec<Element> = Vec::new();
    elements.push(Element::Boundary { layer: 1, datatype: 0, pts: ra.as_boundary() });
    elements.push(Element::Boundary { layer: 2, datatype: 0, pts: rb.as_boundary() });
    let mut cells: Vec<Cell> = Vec::new();
    cells.push(Cell { name: String::from_str("demo"), elements });
    let lib = Library { name: String::from_str("DEMO"), user_unit: REAL8_MILLI, db_unit: REAL8_NANO, cells };
    proof {
        reveal_strlit("demo");
        reveal_strlit("DEMO");
        assert(vstd::utf8::is_ascii_chars(lib.name@));
        assert(vstd::utf8::is_ascii_chars(lib.cells@[0].name@));
        vstd::utf8::is_ascii_chars_encode_utf8(lib.name@);
        vstd::utf8::is_ascii_chars_encode_utf8(lib.cells@[0].name@);
        assert(str_ok(lib.name@));
        assert(str_ok(lib.cells@[0].name@));
        assert(elem_ok(lib.cells@[0].elements@[0]));
        assert(elem_ok(lib.cells@[0].elements@[1]));
        assert(cell_ok(lib.cells@[0]));
        assert(writable(lib));
        lemma_gds_round_trip(lib);
    }
    let bytes = lib.to_bytes();
    let back = Library::parse(bytes.as_slice()).unwrap();
    proof {
        assert(back@ == lib@);
        assert(back.cells@.map_values(|c: Cell| c@).len() == back.cells@.len());
        assert(back@.cells[0] == back.cells@[0]@);
        assert(lib@.cells[0] == lib.cells@[0]@);
    }
    let cell = &back.cells[0];
    let (a, _) = rects_on(cell, 1, 0);
    let (b, _) = rects_on(cell, 2, 0);
    proof {
        let es = cell@.elements;
        assert(es == lib.cells@[0]@.elements);
        assert(es.len() == 2);
        assert(es[0] == lib.cells@[0].elements@[0]@);
        assert(es[1] == lib.cells@[0].elements@[1]@);
        assert(es[0] == ElemV::Boundary { layer: 1, datatype: 0, pts: boundary_of(demo_a()) });
        assert(es[1] == ElemV::Boundary { layer: 2, datatype: 0, pts: boundary_of(demo_b()) });
        lemma_boundary_shape(demo_a());
        lemma_boundary_shape(demo_b());
        let e1 = es.drop_last();
        assert(e1.len() == 1);
        assert(e1.last() == es[0]);
        assert(e1.drop_last() =~= Seq::<ElemV>::empty());
        assert(shapes_on(e1.drop_last(), 1, 0) =~= Seq::<Seq<(i32, i32)>>::empty());
        assert(shapes_on(e1.drop_last(), 2, 0) =~= Seq::<Seq<(i32, i32)>>::empty());
        assert(shapes_on(e1, 1, 0) =~= seq![boundary_of(demo_a())]);
        assert(shapes_on(e1, 2, 0) =~= Seq::<Seq<(i32, i32)>>::empty());
        assert(shapes_on(es, 1, 0) =~= seq![boundary_of(demo_a())]);
        assert(shapes_on(es, 2, 0) =~= seq![boundary_of(demo_b())]);
        assert(layer_polys(es, 1, 0) =~= seq![boundary_of(demo_a())]);
        assert(layer_polys(es, 2, 0) =~= seq![boundary_of(demo_b())]);
        assert(seq![boundary_of(demo_a())].drop_last() =~= Seq::<Seq<(i32, i32)>>::empty());
        assert(seq![boundary_of(demo_b())].drop_last() =~= Seq::<Seq<(i32, i32)>>::empty());
        assert(rects_of(Seq::<Seq<(i32, i32)>>::empty()) =~= Seq::<Rect>::empty());
        assert(rects_of(seq![boundary_of(demo_a())]) =~= seq![demo_a()]);
        assert(rects_of(seq![boundary_of(demo_b())]) =~= seq![demo_b()]);
        assert(a@ =~= seq![demo_a()]);
        assert(b@ =~= seq![demo_b()]);
    }
    let and = boolean(a.as_slice(), b.as_slice(), Op::And);
    let area = sat_area(&and);
    proof {
        assert(demo_and(and@));
        assert(back.name@ == "DEMO"@);
        assert(back.cells@.len() == 1);
        lemma_area_sum_nonneg(and@);
    }
    let mut s = String::from_str("vyges-layout demo — two overlapping boxes, layer 1/0 AND layer 2/0\n");
    s.append("  GDS round-trip ok: lib \"");
    s.append(back.name.as_str());
    s.append("\", ");
    s.append(decimal(back.cells.len() as u64).as_str());
    s.append(" cell(s)\n");
    s.append("  layer 1/0: ");
    s.append(decimal(a.len() as u64).as_str());
    s.append(" rect   layer 2/0: ");
    s.append(decimal(b.len() as u64).as_str());
    s.append(" rect\n");
    s.append("  AND -> ");
    s.append(decimal(and.len() as u64).as_str());
    s.append(" rect, area ");
    s.append(decimal(area as u64).as_str());
    s.append(" dbu² (expect 5000 = 50×100)\n");
    proof {
        assert(s@ =~= demo_report("DEMO"@, 1, 1, 1, and@.len(), sat_i64(area_sum(and@)) as nat));
    }
    s
}

} // verus!
