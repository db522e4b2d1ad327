//! The area of the traced rings: for corner-ordered rectangles that overlap nowhere, the
//! rings' shoelace sums add up to twice the area the rectangles cover.

use vstd::prelude::*;
use crate::geom::{Rect, rcount, covers, ind, rect_contains, lemma_rcount_covers};
use crate::contour_law::{path_w, rings_w, vw, step_ok, axis_seg, tiles_ok, lemma_vw_formula};

verus! {

/// `g(a) + ... + g(b - 1)`.
pub open spec fn rsum(g: spec_fn(int) -> int, a: int, b: int) -> int
    decreases b - a,
{
    if b <= a {
        0
    } else {
        rsum(g, a, b - 1) + g(b - 1)
    }
}

/// The sum of `g` over the cells of the box `[x0, x1) x [y0, y1)`.
pub open spec fn bsum(g: spec_fn(int, int) -> int, x0: int, x1: int, y0: int, y1: int) -> int {
    rsum(|y: int| rsum(|x: int| g(x, y), x0, x1), y0, y1)
}

/// Twice the signed area of the path through `pts` by the shoelace formula (positive for
/// a counter-clockwise closed ring).
pub open spec fn path_area2(pts: Seq<(i32, i32)>) -> int
    decreases pts.len(),
{
    if pts.len() < 2 {
        0
    } else {
        (pts[0].0 * pts[1].1 - pts[1].0 * pts[0].1) + path_area2(pts.drop_first())
    }
}

/// The rings' shoelace sums added up.
pub open spec fn rings_area2(rings: Seq<Seq<(i32, i32)>>) -> int
    decreases rings.len(),
{
    if rings.len() == 0 {
        0
    } else {
        rings_area2(rings.drop_last()) + path_area2(rings.last())
    }
}

/// The rectangles' areas added up.
pub open spec fn rects_area(rects: Seq<Rect>) -> int
    decreases rects.len(),
{
    if rects.len() == 0 {
        0
    } else {
        rects_area(rects.drop_last()) + (rects.last().x1 - rects.last().x0) * (rects.last().y1 - rects.last().y0)
    }
}

/// The half-sum `x_i * (y_{i+1} - y_i)` over the steps of a path.
pub open spec fn vsum(pts: Seq<(i32, i32)>) -> int
    decreases pts.len(),
{
    if pts.len() < 2 {
        0
    } else {
        pts[0].0 * (pts[1].1 - pts[0].1) + vsum(pts.drop_first())
    }
}

proof fn lemma_rsum_add(f: spec_fn(int) -> int, h: spec_fn(int) -> int, a: int, b: int)
    ensures
        rsum(|t: int| f(t) + h(t), a, b) == rsum(f, a, b) + rsum(h, a, b),
    decreases b - a,
{
    if b > a {
        lemma_rsum_add(f, h, a, b - 1);
    }
}

proof fn lemma_rsum_scale(f: spec_fn(int) -> int, c: int, a: int, b: int)
    ensures
        rsum(|t: int| c * f(t), a, b) == c * rsum(f, a, b),
    decreases b - a,
{
    if b > a {
        lemma_rsum_scale(f, c, a, b - 1);
        assert(c * rsum(f, a, b - 1) + c * f(b - 1) == c * (rsum(f, a, b - 1) + f(b - 1))) by (nonlinear_arith);
    }
}

proof fn lemma_rsum_ext(f: spec_fn(int) -> int, h: spec_fn(int) -> int, a: int, b: int)
    requires
        forall|t: int| a <= t < b ==> #[trigger] f(t) == h(t),
    ensures
        rsum(f, a, b) == rsum(h, a, b),
    decreases b - a,
{
    if b > a {
        lemma_rsum_ext(f, h, a, b - 1);
    }
}

/// Counting the positions at or after `v` in `[a, b)`.
proof fn lemma_rsum_from(v: int, a: int, b: int)
    requires
        a <= v <= b,
    ensures
        rsum(|t: int| ind(v <= t), a, b) == b - v,
    decreases b - a,
{
    if b > a {
        if v <= b - 1 {
            lemma_rsum_from(v, a, b - 1);
        } else {
            lemma_rsum_zero_below(v, a, b);
        }
    }
}

proof fn lemma_rsum_zero_below(v: int, a: int, b: int)
    requires
        b <= v,
    ensures
        rsum(|t: int| ind(v <= t), a, b) == 0,
    decreases b - a,
{
    if b > a {
        lemma_rsum_zero_below(v, a, b - 1);
    }
}

/// Counting the positions before `v` in `[a, b)`.
proof fn lemma_rsum_below(v: int, a: int, b: int)
    requires
        a <= v,
        a <= b,
    ensures
        rsum(|t: int| ind(t < v), a, b) == if v <= b { v - a } else { b - a },
    decreases b - a,
{
    if b > a {
        lemma_rsum_below(v, a, b - 1);
    }
}

/// Counting the positions in `[v, w)` within `[a, b)`.
proof fn lemma_rsum_between(v: int, w: int, a: int, b: int)
    requires
        a <= v <= w <= b,
    ensures
        rsum(|t: int| ind(v <= t < w), a, b) == w - v,
{
    let fv = |t: int| ind(v <= t);
    let fw = |t: int| ind(w <= t);
    lemma_rsum_from(v, a, b);
    lemma_rsum_from(w, a, b);
    assert(rsum(fv, a, b) == b - v);
    assert(rsum(fw, a, b) == b - w);
    let g = |t: int| -1 * fw(t);
    lemma_rsum_scale(fw, -1, a, b);
    assert(rsum(g, a, b) == -1 * (b - w));
    lemma_rsum_add(fv, g, a, b);
    let h = |t: int| fv(t) + g(t);
    let e = |t: int| ind(v <= t < w);
    assert forall|t: int| a <= t < b implies #[trigger] e(t) == h(t) by {}
    lemma_rsum_ext(e, h, a, b);
}

proof fn lemma_bsum_add(f: spec_fn(int, int) -> int, g: spec_fn(int, int) -> int, x0: int, x1: int, y0: int, y1: int)
    ensures
        bsum(|x: int, y: int| f(x, y) + g(x, y), x0, x1, y0, y1) == bsum(f, x0, x1, y0, y1) + bsum(g, x0, x1, y0, y1),
{
    let h = |x: int, y: int| f(x, y) + g(x, y);
    let rf = |y: int| rsum(|x: int| f(x, y), x0, x1);
    let rg = |y: int| rsum(|x: int| g(x, y), x0, x1);
    let rh = |y: int| rsum(|x: int| h(x, y), x0, x1);
    assert forall|y: int| y0 <= y < y1 implies #[trigger] rh(y) == rf(y) + rg(y) by {
        lemma_rsum_add(|x: int| f(x, y), |x: int| g(x, y), x0, x1);
        lemma_rsum_ext(|x: int| h(x, y), |x: int| (|x: int| f(x, y))(x) + (|x: int| g(x, y))(x), x0, x1);
    }
    lemma_rsum_ext(rh, |y: int| rf(y) + rg(y), y0, y1);
    lemma_rsum_add(rf, rg, y0, y1);
}

proof fn lemma_bsum_ext(f: spec_fn(int, int) -> int, g: spec_fn(int, int) -> int, x0: int, x1: int, y0: int, y1: int)
    requires
        forall|x: int, y: int| #[trigger] f(x, y) == g(x, y),
    ensures
        bsum(f, x0, x1, y0, y1) == bsum(g, x0, x1, y0, y1),
{
    assert(f =~= g);
}

/// The lowest and highest `i32` coordinates bound the box every ring lies in.
pub open spec fn lo_b() -> int {
    i32::MIN as int
}

pub open spec fn hi_b() -> int {
    i32::MAX as int
}

/// Over the box, an axis-parallel step winds `(hi - x) * (y_start - y_end)` in all.
proof fn lemma_step_box(a: (i32, i32), b: (i32, i32))
    requires
        axis_seg((a, b)),
    ensures
        bsum(|x: int, y: int| vw(a, b, x, y), lo_b(), hi_b(), lo_b(), hi_b()) == (hi_b() - a.0) * (a.1 - b.1),
{
    let (x0, x1, y0, y1) = (lo_b(), hi_b(), lo_b(), hi_b());
    let d = |y: int| ind(y < a.1) - ind(y < b.1);
    let g2 = |x: int, y: int| vw(a, b, x, y);
    let inner = |y: int| rsum(|x: int| g2(x, y), x0, x1);
    let fa = |x: int| ind(a.0 <= x);
    lemma_rsum_from(a.0 as int, x0, x1);
    assert(rsum(fa, x0, x1) == x1 - a.0);
    assert forall|y: int| y0 <= y < y1 implies #[trigger] inner(y) == (x1 - a.0) * d(y) by {
        let row = |x: int| g2(x, y);
        let sc = |x: int| d(y) * fa(x);
        assert forall|x: int| x0 <= x < x1 implies #[trigger] row(x) == sc(x) by {
            lemma_vw_formula(a, b, x, y);
        }
        lemma_rsum_ext(row, sc, x0, x1);
        lemma_rsum_scale(fa, d(y), x0, x1);
        assert(rsum(sc, x0, x1) == d(y) * (x1 - a.0));
        assert(d(y) * (x1 - a.0) == (x1 - a.0) * d(y)) by (nonlinear_arith);
    }
    let outer = |y: int| (x1 - a.0) * d(y);
    lemma_rsum_ext(inner, outer, y0, y1);
    lemma_rsum_scale(d, x1 - a.0, y0, y1);
    let fa1 = |t: int| ind(t < a.1);
    let fb1 = |t: int| ind(t < b.1);
    lemma_rsum_below(a.1 as int, y0, y1);
    lemma_rsum_below(b.1 as int, y0, y1);
    assert(rsum(fa1, y0, y1) == a.1 - y0);
    assert(rsum(fb1, y0, y1) == b.1 - y0);
    let nb = |t: int| -1 * fb1(t);
    lemma_rsum_scale(fb1, -1, y0, y1);
    lemma_rsum_add(fa1, nb, y0, y1);
    let sum = |t: int| fa1(t) + nb(t);
    assert forall|t: int| y0 <= t < y1 implies #[trigger] d(t) == sum(t) by {}
    lemma_rsum_ext(d, sum, y0, y1);
    assert(rsum(d, y0, y1) == a.1 - b.1);
    assert(bsum(|x: int, y: int| vw(a, b, x, y), x0, x1, y0, y1) == rsum(inner, y0, y1));
    assert((x1 - a.0) * rsum(d, y0, y1) == (x1 - a.0) * (a.1 - b.1));
}

/// Over the box, a path of axis-parallel steps winds `hi * (y_first - y_last)` plus its
/// half-sum.
proof fn lemma_path_box(pts: Seq<(i32, i32)>)
    requires
        pts.len() >= 1,
        forall|i: int| 0 <= i < pts.len() - 1 ==> #[trigger] step_ok(pts, i),
    ensures
        bsum(|x: int, y: int| path_w(pts, x, y), lo_b(), hi_b(), lo_b(), hi_b()) == hi_b() * (pts[0].1 - pts[pts.len() - 1].1) + vsum(pts),
    decreases pts.len(),
{
    let (x0, x1, y0, y1) = (lo_b(), hi_b(), lo_b(), hi_b());
    if pts.len() == 1 {
        lemma_bsum_zero(|x: int, y: int| path_w(pts, x, y));
    } else {
        let rest = pts.drop_first();
        assert forall|i: int| 0 <= i < rest.len() - 1 implies #[trigger] step_ok(rest, i) by {
            assert(step_ok(pts, i + 1));
            assert(rest[i] == pts[i + 1] && rest[i + 1] == pts[i + 2]);
        }
        lemma_path_box(rest);
        assert(step_ok(pts, 0));
        lemma_step_box(pts[0], pts[1]);
        let f = |x: int, y: int| vw(pts[0], pts[1], x, y);
        let g = |x: int, y: int| path_w(rest, x, y);
        lemma_bsum_add(f, g, x0, x1, y0, y1);
        lemma_bsum_ext(|x: int, y: int| path_w(pts, x, y), |x: int, y: int| f(x, y) + g(x, y), x0, x1, y0, y1);
        assert(rest[0] == pts[1] && rest[rest.len() - 1] == pts[pts.len() - 1]);
        let (ax, ay, by, ly) = (pts[0].0 as int, pts[0].1 as int, pts[1].1 as int, pts[pts.len() - 1].1 as int);
        assert((x1 - ax) * (ay - by) + x1 * (by - ly) == x1 * (ay - ly) + ax * (by - ay)) by (nonlinear_arith);
    }
}

proof fn lemma_bsum_zero(f: spec_fn(int, int) -> int)
    requires
        forall|x: int, y: int| #[trigger] f(x, y) == 0,
    ensures
        bsum(f, lo_b(), hi_b(), lo_b(), hi_b()) == 0,
{
    lemma_bsum_ext(f, |x: int, y: int| 0 * f(x, y), lo_b(), hi_b(), lo_b(), hi_b());
    let inner = |y: int| rsum(|x: int| (|x: int, y: int| 0 * f(x, y))(x, y), lo_b(), hi_b());
    assert forall|y: int| lo_b() <= y < hi_b() implies #[trigger] inner(y) == 0 * inner(y) by {
        lemma_rsum_scale(|x: int| f(x, y), 0, lo_b(), hi_b());
        lemma_rsum_ext(|x: int| (|x: int, y: int| 0 * f(x, y))(x, y), |x: int| 0 * (|x: int| f(x, y))(x), lo_b(), hi_b());
    }
    lemma_rsum_ext(inner, |y: int| 0 * inner(y), lo_b(), hi_b());
    lemma_rsum_scale(inner, 0, lo_b(), hi_b());
}

/// The shoelace sum of a path of axis-parallel steps is twice its half-sum, up to the
/// products at its ends.
proof fn lemma_area_vsum(pts: Seq<(i32, i32)>)
    requires
        pts.len() >= 1,
        forall|i: int| 0 <= i < pts.len() - 1 ==> #[trigger] step_ok(pts, i),
    ensures
        path_area2(pts) == 2 * vsum(pts) + pts[0].0 * pts[0].1 - pts[pts.len() - 1].0 * pts[pts.len() - 1].1,
    decreases pts.len(),
{
    if pts.len() > 1 {
        let rest = pts.drop_first();
        assert forall|i: int| 0 <= i < rest.len() - 1 implies #[trigger] step_ok(rest, i) by {
            assert(step_ok(pts, i + 1));
            assert(rest[i] == pts[i + 1] && rest[i + 1] == pts[i + 2]);
        }
        lemma_area_vsum(rest);
        assert(step_ok(pts, 0));
        assert(rest[0] == pts[1] && rest[rest.len() - 1] == pts[pts.len() - 1]);
        let (ax, ay, bx, by) = (pts[0].0 as int, pts[0].1 as int, pts[1].0 as int, pts[1].1 as int);
        if ax == bx {
            assert(ax * by - bx * ay == 2 * (ax * (by - ay)) + ax * ay - bx * by) by (nonlinear_arith)
                requires
                    ax == bx,
            ;
        } else {
            assert(ay == by);
            assert(ax * by - bx * ay == 2 * (ax * (by - ay)) + ax * ay - bx * by) by (nonlinear_arith)
                requires
                    ay == by,
            ;
        }
    }
}

/// A closed ring of axis-parallel steps: its shoelace sum is twice its winding summed
/// over the box.
proof fn lemma_ring_area(r: Seq<(i32, i32)>)
    requires
        r.len() >= 1,
        r[0] == r[r.len() - 1],
        forall|i: int| 0 <= i < r.len() - 1 ==> #[trigger] step_ok(r, i),
    ensures
        path_area2(r) == 2 * bsum(|x: int, y: int| path_w(r, x, y), lo_b(), hi_b(), lo_b(), hi_b()),
{
    lemma_area_vsum(r);
    lemma_path_box(r);
}

/// A cell-wise sum over a list of rings.
proof fn lemma_rings_box(rings: Seq<Seq<(i32, i32)>>)
    requires
        forall|i: int| 0 <= i < rings.len() ==> (#[trigger] rings[i]).len() >= 1 && rings[i][0] == rings[i][rings[i].len() - 1]
            && forall|j: int| 0 <= j < rings[i].len() - 1 ==> #[trigger] step_ok(rings[i], j),
    ensures
        rings_area2(rings) == 2 * bsum(|x: int, y: int| rings_w(rings, x, y), lo_b(), hi_b(), lo_b(), hi_b()),
    decreases rings.len(),
{
    if rings.len() == 0 {
        lemma_bsum_zero(|x: int, y: int| rings_w(rings, x, y));
    } else {
        let rd = rings.drop_last();
        assert forall|i: int| 0 <= i < rd.len() implies (#[trigger] rd[i]).len() >= 1 && rd[i][0] == rd[i][rd[i].len() - 1]
            && forall|j: int| 0 <= j < rd[i].len() - 1 ==> #[trigger] step_ok(rd[i], j) by {
            assert(rd[i] == rings[i]);
        }
        lemma_rings_box(rd);
        let last = rings.last();
        assert(last == rings[rings.len() - 1]);
        lemma_ring_area(last);
        let f = |x: int, y: int| rings_w(rd, x, y);
        let g = |x: int, y: int| path_w(last, x, y);
        lemma_bsum_add(f, g, lo_b(), hi_b(), lo_b(), hi_b());
        lemma_bsum_ext(|x: int, y: int| rings_w(rings, x, y), |x: int, y: int| f(x, y) + g(x, y), lo_b(), hi_b(), lo_b(), hi_b());
    }
}

/// The cells of corner-ordered rectangles, counted over the box, add up to their areas.
proof fn lemma_rects_box(rects: Seq<Rect>)
    requires
        forall|i: int| 0 <= i < rects.len() ==> (#[trigger] rects[i]).x0 <= rects[i].x1 && rects[i].y0 <= rects[i].y1,
    ensures
        bsum(|x: int, y: int| rcount(rects, x, y), lo_b(), hi_b(), lo_b(), hi_b()) == rects_area(rects),
    decreases rects.len(),
{
    if rects.len() == 0 {
        lemma_bsum_zero(|x: int, y: int| rcount(rects, x, y));
    } else {
        let rd = rects.drop_last();
        assert forall|i: int| 0 <= i < rd.len() implies (#[trigger] rd[i]).x0 <= rd[i].x1 && rd[i].y0 <= rd[i].y1 by {
            assert(rd[i] == rects[i]);
        }
        lemma_rects_box(rd);
        let r = rects.last();
        assert(r == rects[rects.len() - 1]);
        let f = |x: int, y: int| rcount(rd, x, y);
        let g = |x: int, y: int| ind(rect_contains(r, x, y));
        lemma_bsum_add(f, g, lo_b(), hi_b(), lo_b(), hi_b());
        lemma_bsum_ext(|x: int, y: int| rcount(rects, x, y), |x: int, y: int| f(x, y) + g(x, y), lo_b(), hi_b(), lo_b(), hi_b());
        lemma_rect_box(r);
    }
}

/// The cells of one corner-ordered rectangle, counted over the box, are its area.
proof fn lemma_rect_box(r: Rect)
    requires
        r.x0 <= r.x1,
        r.y0 <= r.y1,
    ensures
        bsum(|x: int, y: int| ind(rect_contains(r, x, y)), lo_b(), hi_b(), lo_b(), hi_b()) == (r.x1 - r.x0) * (r.y1 - r.y0),
{
    let (x0, x1, y0, y1) = (lo_b(), hi_b(), lo_b(), hi_b());
    let g2 = |x: int, y: int| ind(rect_contains(r, x, y));
    let dy = |y: int| ind(r.y0 <= y < r.y1);
    let fx = |x: int| ind(r.x0 <= x < r.x1);
    lemma_rsum_between(r.x0 as int, r.x1 as int, x0, x1);
    assert(rsum(fx, x0, x1) == r.x1 - r.x0);
    let inner = |y: int| rsum(|x: int| g2(x, y), x0, x1);
    assert forall|y: int| y0 <= y < y1 implies #[trigger] inner(y) == (r.x1 - r.x0) * dy(y) by {
        let row = |x: int| g2(x, y);
        let sc = |x: int| dy(y) * fx(x);
        assert forall|x: int| x0 <= x < x1 implies #[trigger] row(x) == sc(x) by {}
        lemma_rsum_ext(row, sc, x0, x1);
        lemma_rsum_scale(fx, dy(y), x0, x1);
        assert(dy(y) * (r.x1 - r.x0) == (r.x1 - r.x0) * dy(y)) by (nonlinear_arith);
    }
    let outer = |y: int| (r.x1 - r.x0) * dy(y);
    lemma_rsum_ext(inner, outer, y0, y1);
    lemma_rsum_scale(dy, r.x1 - r.x0, y0, y1);
    lemma_rsum_between(r.y0 as int, r.y1 as int, y0, y1);
    assert(rsum(dy, y0, y1) == r.y1 - r.y0);
    assert(bsum(|x: int, y: int| ind(rect_contains(r, x, y)), x0, x1, y0, y1) == rsum(inner, y0, y1));
}

/// For corner-ordered rectangles that overlap nowhere, rings whose winding is the
/// indicator of the covered cells, each closed with axis-parallel steps, have shoelace
/// sums adding up to twice the rectangles' total area.
pub proof fn lemma_rings_area(rects: Seq<Rect>, rings: Seq<Seq<(i32, i32)>>)
    requires
        tiles_ok(rects),
        forall|x: int, y: int| #[trigger] rings_w(rings, x, y) == ind(covers(rects, x, y)),
        forall|i: int| 0 <= i < rings.len() ==> (#[trigger] rings[i]).len() >= 1 && rings[i][0] == rings[i][rings[i].len() - 1]
            && forall|j: int| 0 <= j < rings[i].len() - 1 ==> #[trigger] step_ok(rings[i], j),
    ensures
        rings_area2(rings) == 2 * rects_area(rects),
{
    lemma_rings_box(rings);
    assert forall|x: int, y: int| #[trigger] rings_w(rings, x, y) == rcount(rects, x, y) by {
        lemma_rcount_covers(rects, x, y);
        assert(rcount(rects, x, y) <= 1);
    }
    lemma_bsum_ext(|x: int, y: int| rings_w(rings, x, y), |x: int, y: int| rcount(rects, x, y), lo_b(), hi_b(), lo_b(), hi_b());
    lemma_rects_box(rects);
}

} // verus!
