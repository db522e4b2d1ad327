//! Geometry primitives — axis-aligned rectangles, bounding boxes, and the integer
//! cell model that every region contract of the crate is stated in.
//!
//! A region is a set of unit cells: the cell `(x, y)` stands for the square
//! `[x, x+1) × [y, y+1)`. A rectangle covers the cells between its two corners, in
//! whichever order the corners were given, and a list of rectangles covers a cell
//! as many times as the number of its members that contain it.

use vstd::prelude::*;

verus! {

/// An axis-aligned rectangle in DB units; normally `x0 < x1` and `y0 < y1`.
#[derive(Debug, Clone, Copy, PartialEq, Eq, Hash, Structural)]
pub struct Rect {
    pub x0: i32,
    pub y0: i32,
    pub x1: i32,
    pub y1: i32,
}

/// Smaller of two integers.
pub open spec fn imin(a: int, b: int) -> int {
    if a <= b { a } else { b }
}

/// Larger of two integers.
pub open spec fn imax(a: int, b: int) -> int {
    if a <= b { b } else { a }
}

/// The cell `(x, y)` lies inside `r` (corners taken in either order).
pub open spec fn rect_contains(r: Rect, x: int, y: int) -> bool {
    &&& imin(r.x0 as int, r.x1 as int) <= x < imax(r.x0 as int, r.x1 as int)
    &&& imin(r.y0 as int, r.y1 as int) <= y < imax(r.y0 as int, r.y1 as int)
}

/// `x0 < x1` and `y0 < y1`: the rectangle is normalized and has positive area.
pub open spec fn rect_wf(r: Rect) -> bool {
    r.x0 < r.x1 && r.y0 < r.y1
}

/// Number of rectangles of `s` that contain the cell `(x, y)`.
pub open spec fn rcount(s: Seq<Rect>, x: int, y: int) -> int
    decreases s.len(),
{
    if s.len() == 0 {
        0
    } else {
        rcount(s.drop_last(), x, y) + if rect_contains(s.last(), x, y) { 1int } else { 0int }
    }
}

/// Some rectangle of `s` contains the cell.
pub open spec fn covers(s: Seq<Rect>, x: int, y: int) -> bool {
    exists|i: int| 0 <= i < s.len() && rect_contains(#[trigger] s[i], x, y)
}

/// 1 when `b` holds, else 0.
pub open spec fn ind(b: bool) -> int {
    if b { 1 } else { 0 }
}

/// The rectangle grown by `d` on every side.
pub open spec fn inflated(r: Rect, d: int) -> (Rect, bool) {
    let ok = i32::MIN <= r.x0 - d && r.x0 - d <= i32::MAX && i32::MIN <= r.y0 - d && r.y0 - d
        <= i32::MAX && i32::MIN <= r.x1 + d && r.x1 + d <= i32::MAX && i32::MIN <= r.y1 + d
        && r.y1 + d <= i32::MAX;
    (Rect { x0: (r.x0 - d) as i32, y0: (r.y0 - d) as i32, x1: (r.x1 + d) as i32, y1: (r.y1 + d) as i32 }, ok)
}

/// The inflation of `r` by `d` stays within the `i32` coordinate range.
pub open spec fn inflate_fits(r: Rect, d: int) -> bool {
    inflated(r, d).1
}

/// Number of points of a ring once a repeated closing point is dropped.
pub open spec fn ring_len(pts: Seq<(i32, i32)>) -> int {
    if pts.len() >= 2 && pts[0] == pts[pts.len() - 1] {
        pts.len() - 1
    } else {
        pts.len() as int
    }
}

/// Two points differ in exactly one coordinate: a side of an axis-aligned ring.
pub open spec fn side_step(p: (i32, i32), q: (i32, i32)) -> bool {
    (p.0 == q.0) != (p.1 == q.1)
}

/// The first four points of `pts` are pairwise distinct, and each consecutive pair
/// (the last with the first) differs in exactly one coordinate.
pub open spec fn four_sides(pts: Seq<(i32, i32)>) -> bool {
    &&& side_step(pts[0], pts[1]) && side_step(pts[1], pts[2]) && side_step(pts[2], pts[3]) && side_step(pts[3], pts[0])
    &&& pts[0] != pts[1] && pts[0] != pts[2] && pts[0] != pts[3]
    &&& pts[1] != pts[2] && pts[1] != pts[3] && pts[2] != pts[3]
}

/// `pts` is a four-corner ring of the axis-aligned rectangle `r`: four distinct corners,
/// each consecutive pair a side (sharing exactly one coordinate), every corner has an x
/// of `r` and a y of `r`, and each of the four values occurs.
pub open spec fn is_rect_ring(pts: Seq<(i32, i32)>, r: Rect) -> bool {
    &&& ring_len(pts) == 4
    &&& rect_wf(r)
    &&& four_sides(pts)
    &&& forall|k: int| 0 <= k < 4 ==> (#[trigger] pts[k].0 == r.x0 || pts[k].0 == r.x1)
    &&& forall|k: int| 0 <= k < 4 ==> (#[trigger] pts[k].1 == r.y0 || pts[k].1 == r.y1)
    &&& exists|k: int| 0 <= k < 4 && #[trigger] pts[k].0 == r.x0
    &&& exists|k: int| 0 <= k < 4 && #[trigger] pts[k].0 == r.x1
    &&& exists|k: int| 0 <= k < 4 && #[trigger] pts[k].1 == r.y0
    &&& exists|k: int| 0 <= k < 4 && #[trigger] pts[k].1 == r.y1
}

/// `r` is the bounding box of the non-empty point sequence `pts`.
pub open spec fn is_bbox(pts: Seq<(i32, i32)>, r: Rect) -> bool {
    &&& forall|k: int| 0 <= k < pts.len() ==> r.x0 <= #[trigger] pts[k].0 <= r.x1
    &&& forall|k: int| 0 <= k < pts.len() ==> r.y0 <= #[trigger] pts[k].1 <= r.y1
    &&& exists|k: int| 0 <= k < pts.len() && #[trigger] pts[k].0 == r.x0
    &&& exists|k: int| 0 <= k < pts.len() && #[trigger] pts[k].0 == r.x1
    &&& exists|k: int| 0 <= k < pts.len() && #[trigger] pts[k].1 == r.y0
    &&& exists|k: int| 0 <= k < pts.len() && #[trigger] pts[k].1 == r.y1
}

/// The closed boundary of `r`: its four corners counter-clockwise from `(x0, y0)`, then
/// `(x0, y0)` again.
pub open spec fn boundary_of(r: Rect) -> Seq<(i32, i32)> {
    seq![(r.x0, r.y0), (r.x1, r.y0), (r.x1, r.y1), (r.x0, r.y1), (r.x0, r.y0)]
}

/// Two rectangles share positive area (as spans `[x0, x1)`, `[y0, y1)`).
pub open spec fn rects_intersect(a: Rect, b: Rect) -> bool {
    a.x0 < b.x1 && b.x0 < a.x1 && a.y0 < b.y1 && b.y0 < a.y1
}

/// Two points are equal.
pub fn same_point(a: (i32, i32), b: (i32, i32)) -> (r: bool)
    ensures
        r == (a == b),
{
    a.0 == b.0 && a.1 == b.1
}

/// Whether two points differ in exactly one coordinate.
fn side(p: (i32, i32), q: (i32, i32)) -> (r: bool)
    ensures
        r == side_step(p, q),
{
    (p.0 == q.0) != (p.1 == q.1)
}

/// Number of ring vertices once a repeated closing point is dropped.
pub fn ring_count(pts: &[(i32, i32)]) -> (n: usize)
    ensures
        n == ring_len(pts@),
{
    if pts.len() >= 2 && same_point(pts[0], pts[pts.len() - 1]) {
        pts.len() - 1
    } else {
        pts.len()
    }
}

impl Rect {
    /// The rectangle spanned by two corners given in any order (normalized).
    pub fn new(x0: i32, y0: i32, x1: i32, y1: i32) -> (r: Rect)
        ensures
            r.x0 == imin(x0 as int, x1 as int),
            r.x1 == imax(x0 as int, x1 as int),
            r.y0 == imin(y0 as int, y1 as int),
            r.y1 == imax(y0 as int, y1 as int),
    {
        Rect {
            x0: if x0 <= x1 { x0 } else { x1 },
            y0: if y0 <= y1 { y0 } else { y1 },
            x1: if x0 <= x1 { x1 } else { x0 },
            y1: if y0 <= y1 { y1 } else { y0 },
        }
    }

    /// Signed area `(x1 - x0) * (y1 - y0)`.
    pub fn area(&self) -> (a: i64)
        requires
            i32::MIN <= self.x1 - self.x0 <= i32::MAX,
            i32::MIN <= self.y1 - self.y0 <= i32::MAX,
        ensures
            a == (self.x1 - self.x0) * (self.y1 - self.y0),
    {
        let w = (self.x1 - self.x0) as i64;
        let h = (self.y1 - self.y0) as i64;
        assert(-0x8000_0000_0000_0000 <= w * h <= 0x7fff_ffff_ffff_ffff) by (nonlinear_arith)
            requires
                -0x8000_0000 <= w <= 0x7fff_ffff,
                -0x8000_0000 <= h <= 0x7fff_ffff,
        ;
        w * h
    }

    /// The closed boundary ring (five points, counter-clockwise for a normalized rect).
    pub fn as_boundary(&self) -> (v: Vec<(i32, i32)>)
        ensures
            v@ == boundary_of(*self),
    {
        let v = vec![
            (self.x0, self.y0),
            (self.x1, self.y0),
            (self.x1, self.y1),
            (self.x0, self.y1),
            (self.x0, self.y0),
        ];
        assert(v@ =~= boundary_of(*self));
        v
    }

    /// `Some(Rect)` iff the polygon is an axis-aligned rectangle ring: four distinct
    /// corners, each consecutive pair a side, with two distinct x and two distinct y;
    /// else `None`.
    pub fn from_boundary(pts: &[(i32, i32)]) -> (res: Option<Rect>)
        ensures
            match res {
                Some(r) => is_rect_ring(pts@, r),
                None => forall|r: Rect| !is_rect_ring(pts@, r),
            },
    {
        let n = ring_count(pts);
        if n != 4 {
            return None;
        }
        let (mut lx, mut hx, mut ly, mut hy) = (pts[0].0, pts[0].0, pts[0].1, pts[0].1);
        let mut k: usize = 1;
        while k < 4
            invariant
                1 <= k <= 4,
                pts.len() >= 4,
                forall|j: int| 0 <= j < k ==> lx <= #[trigger] pts@[j].0 <= hx,
                forall|j: int| 0 <= j < k ==> ly <= #[trigger] pts@[j].1 <= hy,
                exists|j: int| 0 <= j < k && #[trigger] pts@[j].0 == lx,
                exists|j: int| 0 <= j < k && #[trigger] pts@[j].0 == hx,
                exists|j: int| 0 <= j < k && #[trigger] pts@[j].1 == ly,
                exists|j: int| 0 <= j < k && #[trigger] pts@[j].1 == hy,
            decreases 4 - k,
        {
            let (x, y) = pts[k];
            if x < lx {
                lx = x;
            }
            if x > hx {
                hx = x;
            }
            if y < ly {
                ly = y;
            }
            if y > hy {
                hy = y;
            }
            k += 1;
        }
        let mut ok = lx < hx && ly < hy;
        let mut j: usize = 0;
        while j < 4
            invariant
                j <= 4,
                pts.len() >= 4,
                ok ==> lx < hx && ly < hy,
                ok ==> forall|i: int| 0 <= i < j ==> (#[trigger] pts@[i].0 == lx || pts@[i].0 == hx),
                ok ==> forall|i: int| 0 <= i < j ==> (#[trigger] pts@[i].1 == ly || pts@[i].1 == hy),
                !ok ==> (lx >= hx || ly >= hy || exists|i: int|
                    0 <= i < 4 && ((#[trigger] pts@[i].0 != lx && pts@[i].0 != hx) || (pts@[i].1
                        != ly && pts@[i].1 != hy))),
            decreases 4 - j,
        {
            let (x, y) = pts[j];
            if (x != lx && x != hx) || (y != ly && y != hy) {
                ok = false;
                assert(pts@[j as int] == (x, y));
                assert((pts@[j as int].0 != lx && pts@[j as int].0 != hx) || (pts@[j as int].1 != ly && pts@[j as int].1 != hy));
            }
            j += 1;
        }
        let (p0, p1, p2, p3) = (pts[0], pts[1], pts[2], pts[3]);
        let sides = side(p0, p1) && side(p1, p2) && side(p2, p3) && side(p3, p0) && !same_point(p0, p1) && !same_point(p0, p2)
            && !same_point(p0, p3) && !same_point(p1, p2) && !same_point(p1, p3) && !same_point(p2, p3);
        proof {
            assert(sides == four_sides(pts@));
        }
        if !sides {
            return None;
        }
        if ok {
            let r = Rect { x0: lx, y0: ly, x1: hx, y1: hy };
            assert(is_rect_ring(pts@, r));
            Some(r)
        } else {
            assert forall|r: Rect| !is_rect_ring(pts@, r) by {
                if is_rect_ring(pts@, r) {
                    // every corner is on r's x/y values, and both values occur, so r's
                    // extremes are exactly the running extremes
                    let a = choose|k: int| 0 <= k < 4 && #[trigger] pts@[k].0 == r.x0;
                    let b = choose|k: int| 0 <= k < 4 && #[trigger] pts@[k].0 == r.x1;
                    let c = choose|k: int| 0 <= k < 4 && #[trigger] pts@[k].1 == r.y0;
                    let d = choose|k: int| 0 <= k < 4 && #[trigger] pts@[k].1 == r.y1;
                    let e = choose|k: int| 0 <= k < 4 && #[trigger] pts@[k].0 == lx;
                    let f = choose|k: int| 0 <= k < 4 && #[trigger] pts@[k].0 == hx;
                    let g = choose|k: int| 0 <= k < 4 && #[trigger] pts@[k].1 == ly;
                    let h = choose|k: int| 0 <= k < 4 && #[trigger] pts@[k].1 == hy;
                    assert(lx <= pts@[a].0 && pts@[b].0 <= hx);
                    assert(pts@[e].0 == r.x0 || pts@[e].0 == r.x1);
                    assert(pts@[f].0 == r.x0 || pts@[f].0 == r.x1);
                    assert(pts@[g].1 == r.y0 || pts@[g].1 == r.y1);
                    assert(pts@[h].1 == r.y0 || pts@[h].1 == r.y1);
                    assert(ly <= pts@[c].1 && pts@[d].1 <= hy);
                    assert(lx == r.x0 && hx == r.x1 && ly == r.y0 && hy == r.y1);
                }
            }
            None
        }
    }

    /// The rectangle grown by `d` on every side (shrunk for negative `d`).
    pub fn inflate(&self, d: i32) -> (r: Rect)
        requires
            inflate_fits(*self, d as int),
        ensures
            r == inflated(*self, d as int).0,
    {
        Rect { x0: self.x0 - d, y0: self.y0 - d, x1: self.x1 + d, y1: self.y1 + d }
    }

    /// The two rectangles share positive area.
    pub fn intersects(&self, other: &Rect) -> (b: bool)
        ensures
            b == rects_intersect(*self, *other),
    {
        self.x0 < other.x1 && other.x0 < self.x1 && self.y0 < other.y1 && other.y0 < self.y1
    }
}

/// Bounding box of a point set (`None` if empty).
pub fn bbox(pts: &[(i32, i32)]) -> (res: Option<Rect>)
    ensures
        match res {
            Some(r) => pts@.len() > 0 && is_bbox(pts@, r),
            None => pts@.len() == 0,
        },
{
    if pts.len() == 0 {
        return None;
    }
    let (mut x0, mut y0, mut x1, mut y1) = (pts[0].0, pts[0].1, pts[0].0, pts[0].1);
    let mut k: usize = 1;
    while k < pts.len()
        invariant
            1 <= k <= pts.len(),
            forall|j: int| 0 <= j < k ==> x0 <= #[trigger] pts@[j].0 <= x1,
            forall|j: int| 0 <= j < k ==> y0 <= #[trigger] pts@[j].1 <= y1,
            exists|j: int| 0 <= j < k && #[trigger] pts@[j].0 == x0,
            exists|j: int| 0 <= j < k && #[trigger] pts@[j].0 == x1,
            exists|j: int| 0 <= j < k && #[trigger] pts@[j].1 == y0,
            exists|j: int| 0 <= j < k && #[trigger] pts@[j].1 == y1,
        decreases pts.len() - k,
    {
        let (x, y) = pts[k];
        if x < x0 {
            x0 = x;
        }
        if x > x1 {
            x1 = x;
        }
        if y < y0 {
            y0 = y;
        }
        if y > y1 {
            y1 = y;
        }
        k += 1;
    }
    Some(Rect { x0, y0, x1, y1 })
}

/// The shoelace term of the edge from vertex `i` to vertex `(i + 1) mod n`.
pub open spec fn cross_term(pts: Seq<(i32, i32)>, i: int, n: int) -> int {
    let j = if i + 1 == n { 0 } else { i + 1 };
    pts[i].0 * pts[j].1 - pts[j].0 * pts[i].1
}

/// The product of two `i32` values is at most `2^62` in magnitude.
pub proof fn lemma_i32_product(a: int, b: int)
    requires
        -0x8000_0000 <= a <= 0x7fff_ffff,
        -0x8000_0000 <= b <= 0x7fff_ffff,
    ensures
        -0x4000_0000_0000_0000 <= a * b <= 0x4000_0000_0000_0000,
{
    assert(-0x4000_0000_0000_0000 <= a * b <= 0x4000_0000_0000_0000) by (nonlinear_arith)
        requires
            -0x8000_0000 <= a <= 0x7fff_ffff,
            -0x8000_0000 <= b <= 0x7fff_ffff,
    ;
}

/// Each shoelace term fits comfortably in `i128` arithmetic.
proof fn lemma_cross_bound(pts: Seq<(i32, i32)>, i: int, n: int)
    requires
        0 <= i < n <= pts.len(),
    ensures
        -0x8000_0000_0000_0000 <= cross_term(pts, i, n) <= 0x8000_0000_0000_0000,
{
    let j = if i + 1 == n { 0 } else { i + 1 };
    let (a, b, c, d) = (pts[i].0 as int, pts[j].1 as int, pts[j].0 as int, pts[i].1 as int);
    assert(-0x4000_0000_0000_0000 <= a * b <= 0x4000_0000_0000_0000) by (nonlinear_arith)
        requires
            -0x8000_0000 <= a <= 0x7fff_ffff,
            -0x8000_0000 <= b <= 0x7fff_ffff,
    ;
    assert(-0x4000_0000_0000_0000 <= c * d <= 0x4000_0000_0000_0000) by (nonlinear_arith)
        requires
            -0x8000_0000 <= c <= 0x7fff_ffff,
            -0x8000_0000 <= d <= 0x7fff_ffff,
    ;
}

proof fn lemma_shoelace_bound(pts: Seq<(i32, i32)>, k: int, n: int)
    requires
        0 <= k <= n <= pts.len(),
    ensures
        -0x8000_0000_0000_0000 * k <= shoelace_prefix(pts, k, n) <= 0x8000_0000_0000_0000 * k,
    decreases k,
{
    if k > 0 {
        lemma_shoelace_bound(pts, k - 1, n);
        lemma_cross_bound(pts, k - 1, n);
    }
}

/// Sum of the first `k` shoelace terms of the `n`-vertex ring `pts`.
pub open spec fn shoelace_prefix(pts: Seq<(i32, i32)>, k: int, n: int) -> int
    decreases k,
{
    if k <= 0 {
        0
    } else {
        shoelace_prefix(pts, k - 1, n) + cross_term(pts, k - 1, n)
    }
}

/// Twice the signed area of the ring `pts` (its vertices, without a closing repeat):
/// positive for counter-clockwise.
pub open spec fn signed_area2_spec(pts: Seq<(i32, i32)>) -> int {
    shoelace_prefix(pts, pts.len() as int, pts.len() as int)
}

/// 2× the signed area of the ring formed by the first `n` points of `pts` (a closing
/// repeat excluded by the caller); the sign tells the orientation (counter-clockwise > 0).
pub fn signed_area2(pts: &[(i32, i32)], n: usize) -> (a: i128)
    requires
        n <= pts.len(),
    ensures
        a == signed_area2_spec(pts@.take(n as int)),
{
    let ghost t = pts@.take(n as int);
    let mut a: i128 = 0;
    let mut i: usize = 0;
    while i < n
        invariant
            i <= n,
            n <= pts.len(),
            t == pts@.take(n as int),
            a == shoelace_prefix(t, i as int, n as int),
        decreases n - i,
    {
        let (x1, y1) = pts[i];
        let j = if i + 1 == n { 0 } else { i + 1 };
        let (x2, y2) = pts[j];
        proof {
            lemma_shoelace_bound(t, i as int, n as int);
            lemma_cross_bound(t, i as int, n as int);
            lemma_i32_product(x1 as int, y2 as int);
            lemma_i32_product(x2 as int, y1 as int);
            assert(t[i as int] == pts@[i as int] && t[j as int] == pts@[j as int]);
        }
        let (p, q) = (x1 as i128 * y2 as i128, x2 as i128 * y1 as i128);
        let tt = p - q;
        a = a + tt;
        i += 1;
    }
    a
}


/// A cell is covered exactly when at least one rectangle contains it.
pub proof fn lemma_rcount_covers(s: Seq<Rect>, x: int, y: int)
    ensures
        rcount(s, x, y) >= 0,
        rcount(s, x, y) > 0 <==> covers(s, x, y),
    decreases s.len(),
{
    if s.len() > 0 {
        lemma_rcount_covers(s.drop_last(), x, y);
        if covers(s.drop_last(), x, y) {
            let i = choose|i: int| 0 <= i < s.drop_last().len() && rect_contains(#[trigger] s.drop_last()[i], x, y);
            assert(s[i] == s.drop_last()[i]);
        }
        if covers(s, x, y) && !rect_contains(s.last(), x, y) {
            let i = choose|i: int| 0 <= i < s.len() && rect_contains(#[trigger] s[i], x, y);
            assert(s.drop_last()[i] == s[i]);
        }
    }
}

} // verus!
