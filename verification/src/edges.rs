//! Oriented boundary edges and corner classification for merged rectilinear polygons.
//!
//! Consumes `contour::trace_contours` rings — where the solid interior is always on the
//! **left** of every directed edge (outer rings CCW, hole rings CW). From that it derives
//! the two primitives edge-based checks are built on:
//!
//! - **directed edges**, each carrying its axis and length (a short edge is a "tip", a
//!   long one a "side" — the distinction directional-spacing rules turn on);
//! - **corner classification**, convex vs concave *relative to the solid* — uniform across
//!   outer rings and holes because every edge already keeps the solid on its left.

use vstd::prelude::*;
use crate::geom::{imin, imax};
use crate::spans::{canon, in_spans, union, intersect, difference, lemma_in_push};

verus! {

/// The axis an edge runs along.
#[derive(Clone, Copy, Debug, PartialEq, Eq, Structural)]
pub enum Axis {
    Horizontal,
    Vertical,
}

/// A directed boundary edge; the solid interior lies to the left of `a → b`.
#[derive(Clone, Copy, Debug, PartialEq, Eq)]
pub struct Edge {
    pub a: (i32, i32),
    pub b: (i32, i32),
}

/// A polygon vertex, classified relative to the solid interior.
#[derive(Clone, Copy, Debug, PartialEq, Eq)]
pub struct Corner {
    pub p: (i32, i32),
    /// `true` = convex (the solid bulges out here), `false` = concave/reflex (a notch).
    pub convex: bool,
}

/// Sign of an integer: -1, 0 or 1.
pub open spec fn sgn(d: int) -> int {
    if d > 0 {
        1
    } else if d < 0 {
        -1
    } else {
        0
    }
}

/// Absolute value.
pub open spec fn iabs(d: int) -> int {
    if d < 0 { -d } else { d }
}

/// An edge whose endpoints share a y coordinate counts as horizontal.
pub open spec fn is_horizontal(e: Edge) -> bool {
    e.a.1 == e.b.1
}

/// Outward normal of a directed edge: right of travel, pointing away from the solid.
pub open spec fn outward_spec(e: Edge) -> (int, int) {
    (sgn(e.b.1 - e.a.1), -sgn(e.b.0 - e.a.0))
}

impl Edge {
    /// The axis the edge runs along (a point counts as horizontal).
    pub fn axis(&self) -> (ax: Axis)
        ensures
            ax == (if is_horizontal(*self) { Axis::Horizontal } else { Axis::Vertical }),
    {
        if self.a.1 == self.b.1 {
            Axis::Horizontal
        } else {
            Axis::Vertical
        }
    }

    /// Manhattan length (edges are axis-aligned, so this is the exact length).
    pub fn len(&self) -> (l: i64)
        ensures
            l == iabs(self.b.0 - self.a.0) + iabs(self.b.1 - self.a.1),
    {
        let dx = self.b.0 as i64 - self.a.0 as i64;
        let dy = self.b.1 as i64 - self.a.1 as i64;
        let ax = if dx < 0 { -dx } else { dx };
        let ay = if dy < 0 { -dy } else { dy };
        ax + ay
    }

    /// The edge is a single point.
    pub fn is_empty(&self) -> (b: bool)
        ensures
            b == (self.a == self.b),
    {
        self.a.0 == self.b.0 && self.a.1 == self.b.1
    }

    /// Unit travel direction, one of the four axis directions.
    pub fn dir(&self) -> (d: (i32, i32))
        ensures
            d.0 == sgn(self.b.0 - self.a.0),
            d.1 == sgn(self.b.1 - self.a.1),
    {
        (sign_of(self.a.0, self.b.0), sign_of(self.a.1, self.b.1))
    }
}

/// Sign of `b - a`, without overflow.
fn sign_of(a: i32, b: i32) -> (s: i32)
    ensures
        s == sgn(b - a),
{
    if b > a {
        1
    } else if b < a {
        -1
    } else {
        0
    }
}

/// The directed edges of a closed ring (first point == last): one per neighbouring pair.
pub open spec fn ring_edges_spec(ring: Seq<(i32, i32)>) -> Seq<Edge> {
    Seq::new(if ring.len() >= 1 { (ring.len() - 1) as nat } else { 0 }, |i: int| Edge { a: ring[i], b: ring[i + 1] })
}

/// Directed edges of a closed ring (first point == last).
pub fn ring_edges(ring: &[(i32, i32)]) -> (out: Vec<Edge>)
    ensures
        out@ == ring_edges_spec(ring@),
{
    let mut out: Vec<Edge> = Vec::new();
    if ring.len() < 2 {
        proof {
            assert(out@ =~= ring_edges_spec(ring@));
        }
        return out;
    }
    let mut i: usize = 0;
    while i < ring.len() - 1
        invariant
            i + 1 <= ring@.len(),
            ring@.len() >= 2,
            out@.len() == i,
            forall|k: int| 0 <= k < i ==> #[trigger] out@[k] == (Edge { a: ring@[k], b: ring@[k + 1] }),
        decreases ring@.len() - i,
    {
        out.push(Edge { a: ring[i], b: ring[i + 1] });
        i += 1;
    }
    proof {
        assert(out@ =~= ring_edges_spec(ring@));
    }
    out
}

/// The cross product of the turn `p → c → q`.
pub open spec fn turn_cross(p: (i32, i32), c: (i32, i32), q: (i32, i32)) -> int {
    (c.0 - p.0) * (q.1 - c.1) - (c.1 - p.1) * (q.0 - c.0)
}

/// The corner at vertex `i` of an `n`-vertex open ring.
pub open spec fn corner_at(pts: Seq<(i32, i32)>, i: int, n: int) -> Corner {
    let p = pts[if i == 0 { n - 1 } else { i - 1 }];
    let q = pts[if i + 1 == n { 0 } else { i + 1 }];
    Corner { p: pts[i], convex: turn_cross(p, pts[i], q) > 0 }
}

/// Corners of a closed ring: one per vertex (the closing repeat dropped), convex where the
/// ring turns left. Rings of fewer than four points have none.
pub open spec fn ring_corners_spec(ring: Seq<(i32, i32)>) -> Seq<Corner> {
    if ring.len() < 4 {
        Seq::empty()
    } else {
        Seq::new((ring.len() - 1) as nat, |i: int| corner_at(ring, i, ring.len() - 1))
    }
}

/// Cross product of `(c - p)` and `(q - c)`, exact in `i128`.
fn cross_at(p: (i32, i32), c: (i32, i32), q: (i32, i32)) -> (x: i128)
    ensures
        x == turn_cross(p, c, q),
{
    let (ax, ay) = (c.0 as i128 - p.0 as i128, c.1 as i128 - p.1 as i128);
    let (bx, by) = (q.0 as i128 - c.0 as i128, q.1 as i128 - c.1 as i128);
    assert(-0x2_0000_0000 <= ax <= 0x2_0000_0000 && -0x2_0000_0000 <= by <= 0x2_0000_0000);
    assert(-0x4_0000_0000_0000_0000 <= ax * by <= 0x4_0000_0000_0000_0000) by (nonlinear_arith)
        requires
            -0x2_0000_0000 <= ax <= 0x2_0000_0000,
            -0x2_0000_0000 <= by <= 0x2_0000_0000,
    ;
    assert(-0x4_0000_0000_0000_0000 <= ay * bx <= 0x4_0000_0000_0000_0000) by (nonlinear_arith)
        requires
            -0x2_0000_0000 <= ay <= 0x2_0000_0000,
            -0x2_0000_0000 <= bx <= 0x2_0000_0000,
    ;
    ax * by - ay * bx
}

/// Corner classification for a closed ring. Because the solid is always on the left of a
/// directed edge, a left turn (positive cross product) is convex and a right turn concave
/// — the same test for outer rings and holes.
pub fn ring_corners(ring: &[(i32, i32)]) -> (out: Vec<Corner>)
    ensures
        out@ == ring_corners_spec(ring@),
{
    let mut out: Vec<Corner> = Vec::new();
    if ring.len() < 4 {
        proof {
            assert(out@ =~= ring_corners_spec(ring@));
        }
        return out;
    }
    let n = ring.len() - 1;
    let mut i: usize = 0;
    while i < n
        invariant
            i <= n,
            n == ring@.len() - 1,
            n >= 3,
            out@.len() == i,
            forall|k: int| 0 <= k < i ==> #[trigger] out@[k] == corner_at(ring@, k, n as int),
        decreases n - i,
    {
        let p = ring[if i == 0 { n - 1 } else { i - 1 }];
        let c = ring[i];
        let q = ring[if i + 1 == n { 0 } else { i + 1 }];
        let cross = cross_at(p, c, q);
        out.push(Corner { p: c, convex: cross > 0 });
        i += 1;
    }
    proof {
        assert(out@ =~= ring_corners_spec(ring@));
    }
    out
}

/// The points of the convex corners, in order.
pub open spec fn convex_points(cs: Seq<Corner>) -> Seq<(i32, i32)>
    decreases cs.len(),
{
    if cs.len() == 0 {
        Seq::empty()
    } else {
        convex_points(cs.drop_last()) + if cs.last().convex { seq![cs.last().p] } else { Seq::empty() }
    }
}

/// Convex corners of a ring (relative to the solid) — the seed set for convex-corner rules.
pub fn convex_corners(ring: &[(i32, i32)]) -> (out: Vec<(i32, i32)>)
    ensures
        out@ == convex_points(ring_corners_spec(ring@)),
{
    let cs = ring_corners(ring);
    let mut out: Vec<(i32, i32)> = Vec::new();
    let mut i: usize = 0;
    while i < cs.len()
        invariant
            i <= cs@.len(),
            out@ == convex_points(cs@.take(i as int)),
        decreases cs@.len() - i,
    {
        proof {
            assert(cs@.take(i + 1).drop_last() =~= cs@.take(i as int));
        }
        if cs[i].convex {
            out.push(cs[i].p);
        }
        i += 1;
    }
    proof {
        assert(cs@.take(cs@.len() as int) =~= cs@);
    }
    out
}

// ---- edge-set booleans -------------------------------------------------------
//
// Coincidence booleans on axis-aligned edges: `edges_and` keeps the parts of `a` that lie
// on an edge of `b` (collinear overlap), `edges_not` keeps the parts that do not. These are
// per-supporting-line 1-D interval operations. Direction is ignored when matching, but the
// result keeps each `a` edge's own direction.

/// Supporting line, span `(lo, hi)` with `lo < hi`, and whether the edge travels lo → hi.
/// A line is `(axis, coord)`: axis 0 = horizontal (coord is y), 1 = vertical (coord is x).
/// `None` for a degenerate or slanted edge.
pub open spec fn span_of(e: Edge) -> Option<((u8, i32), (i32, i32), bool)> {
    if e.a.1 == e.b.1 && e.a.0 != e.b.0 {
        Some(((0u8, e.a.1), (imin(e.a.0 as int, e.b.0 as int) as i32, imax(e.a.0 as int, e.b.0 as int) as i32), e.b.0 > e.a.0))
    } else if e.a.0 == e.b.0 && e.a.1 != e.b.1 {
        Some(((1u8, e.a.0), (imin(e.a.1 as int, e.b.1 as int) as i32, imax(e.a.1 as int, e.b.1 as int) as i32), e.b.1 > e.a.1))
    } else {
        None
    }
}

/// Edge `e` covers position `t` of line `k`.
pub open spec fn edge_covers(e: Edge, k: (u8, i32), t: int) -> bool {
    match span_of(e) {
        Some((k2, s, _)) => k2 == k && s.0 <= t < s.1,
        None => false,
    }
}

/// Some edge of `b` covers position `t` of line `k`.
pub open spec fn on_edges(b: Seq<Edge>, k: (u8, i32), t: int) -> bool {
    exists|i: int| 0 <= i < b.len() && edge_covers(#[trigger] b[i], k, t)
}

/// The oriented edge on line `k` for span `s`, in the given direction.
pub open spec fn emit_edge(k: (u8, i32), s: (i32, i32), forward: bool) -> Edge {
    let (p, q) = if forward { (s.0, s.1) } else { (s.1, s.0) };
    if k.0 == 0 {
        Edge { a: (p, k.1), b: (q, k.1) }
    } else {
        Edge { a: (k.1, p), b: (k.1, q) }
    }
}

/// The oriented edges on line `k` for a list of spans.
pub open spec fn emit_spec(k: (u8, i32), spans: Seq<(i32, i32)>, forward: bool) -> Seq<Edge> {
    spans.map_values(|s: (i32, i32)| emit_edge(k, s, forward))
}

/// Concatenation, over the edges of `a`, of the pieces `parts[i]` re-emitted on the
/// edge's line in its direction (nothing for a degenerate edge).
pub open spec fn emit_all(a: Seq<Edge>, parts: Seq<Seq<(i32, i32)>>) -> Seq<Edge>
    decreases a.len(),
{
    if a.len() == 0 {
        Seq::empty()
    } else {
        emit_all(a.drop_last(), parts.drop_last()) + match span_of(a.last()) {
            Some((k, _, fwd)) => emit_spec(k, parts.last(), fwd),
            None => Seq::empty(),
        }
    }
}

/// `p` is the canonical span list of the part of `e` that lies (when `on`) or does not
/// lie (when `!on`) on an edge of `b`.
pub open spec fn part_ok(e: Edge, b: Seq<Edge>, p: Seq<(i32, i32)>, on: bool) -> bool {
    match span_of(e) {
        Some((k, s, _)) => canon(p) && forall|t: int| #[trigger] in_spans(p, t) <==> (s.0 <= t < s.1 && on_edges(b, k, t) == on),
        None => p.len() == 0,
    }
}

/// Supporting line, span and direction of an edge (see [`span_of`]).
fn line_span(e: &Edge) -> (r: Option<((u8, i32), (i32, i32), bool)>)
    ensures
        r == span_of(*e),
{
    if e.a.1 == e.b.1 && e.a.0 != e.b.0 {
        let lo = if e.a.0 <= e.b.0 { e.a.0 } else { e.b.0 };
        let hi = if e.a.0 <= e.b.0 { e.b.0 } else { e.a.0 };
        Some(((0u8, e.a.1), (lo, hi), e.b.0 > e.a.0))
    } else if e.a.0 == e.b.0 && e.a.1 != e.b.1 {
        let lo = if e.a.1 <= e.b.1 { e.a.1 } else { e.b.1 };
        let hi = if e.a.1 <= e.b.1 { e.b.1 } else { e.a.1 };
        Some(((1u8, e.a.0), (lo, hi), e.b.1 > e.a.1))
    } else {
        None
    }
}

/// Merge a set of non-empty 1-D intervals into disjoint sorted spans.
fn merge_1d(v: Vec<(i32, i32)>) -> (out: Vec<(i32, i32)>)
    requires
        forall|i: int| 0 <= i < v@.len() ==> (#[trigger] v@[i]).0 < v@[i].1,
    ensures
        canon(out@),
        forall|t: int| #[trigger] in_spans(out@, t) <==> in_spans(v@, t),
{
    let mut out: Vec<(i32, i32)> = Vec::new();
    let mut i: usize = 0;
    while i < v.len()
        invariant
            i <= v@.len(),
            forall|k: int| 0 <= k < v@.len() ==> (#[trigger] v@[k]).0 < v@[k].1,
            canon(out@),
            forall|t: int| #[trigger] in_spans(out@, t) <==> in_spans(v@.take(i as int), t),
        decreases v@.len() - i,
    {
        let one: Vec<(i32, i32)> = vec![v[i]];
        proof {
            assert(one@ =~= seq![v@[i as int]]);
        }
        let merged = union(out.as_slice(), one.as_slice());
        proof {
            assert(v@.take(i + 1) =~= v@.take(i as int).push(v@[i as int]));
            assert forall|t: int| #[trigger] in_spans(merged@, t) <==> in_spans(v@.take(i + 1), t) by {
                lemma_in_push(v@.take(i as int), v@[i as int], t);
                lemma_in_push(Seq::<(i32, i32)>::empty(), v@[i as int], t);
                assert(Seq::<(i32, i32)>::empty().push(v@[i as int]) =~= one@);
            }
        }
        out = merged;
        i += 1;
    }
    proof {
        assert(v@.take(v@.len() as int) =~= v@);
    }
    out
}

/// `span ∩ ⋃covers` — the parts of one span covered by the canonical `covers`.
fn intersect_1d(span: (i32, i32), covers: &[(i32, i32)]) -> (out: Vec<(i32, i32)>)
    requires
        span.0 < span.1,
        canon(covers@),
    ensures
        canon(out@),
        forall|t: int| #[trigger] in_spans(out@, t) <==> (span.0 <= t < span.1 && in_spans(covers@, t)),
{
    let one: Vec<(i32, i32)> = vec![span];
    proof {
        assert(one@ =~= seq![span]);
        assert forall|t: int| #[trigger] in_spans(one@, t) <==> span.0 <= t < span.1 by {
            lemma_in_push(Seq::<(i32, i32)>::empty(), span, t);
            assert(Seq::<(i32, i32)>::empty().push(span) =~= one@);
        }
    }
    intersect(one.as_slice(), covers)
}

/// `span \ ⋃covers` — the parts of one span not covered by the canonical `covers`.
fn difference_1d(span: (i32, i32), covers: &[(i32, i32)]) -> (out: Vec<(i32, i32)>)
    requires
        span.0 < span.1,
        canon(covers@),
    ensures
        canon(out@),
        forall|t: int| #[trigger] in_spans(out@, t) <==> (span.0 <= t < span.1 && !in_spans(covers@, t)),
{
    let one: Vec<(i32, i32)> = vec![span];
    proof {
        assert(one@ =~= seq![span]);
        assert forall|t: int| #[trigger] in_spans(one@, t) <==> span.0 <= t < span.1 by {
            lemma_in_push(Seq::<(i32, i32)>::empty(), span, t);
            assert(Seq::<(i32, i32)>::empty().push(span) =~= one@);
        }
    }
    difference(one.as_slice(), covers)
}

/// The entry for line `k` in a per-line span table, if any.
fn cover_get(m: &Vec<((u8, i32), Vec<(i32, i32)>)>, k: (u8, i32)) -> (r: Option<usize>)
    ensures
        match r {
            Some(j) => j < m@.len() && m@[j as int].0 == k,
            None => forall|j: int| 0 <= j < m@.len() ==> (#[trigger] m@[j]).0 != k,
        },
{
    let mut j: usize = 0;
    while j < m.len()
        invariant
            j <= m@.len(),
            forall|q: int| 0 <= q < j ==> (#[trigger] m@[q]).0 != k,
        decreases m@.len() - j,
    {
        if m[j].0 .0 == k.0 && m[j].0 .1 == k.1 {
            return Some(j);
        }
        j += 1;
    }
    None
}

/// Some listed `(line, span)` pair covers position `t` of line `k`.
pub open spec fn flat_covers(flat: Seq<((u8, i32), (i32, i32))>, k: (u8, i32), t: int) -> bool {
    exists|i: int| 0 <= i < flat.len() && (#[trigger] flat[i]).0 == k && flat[i].1.0 <= t < flat[i].1.1
}

/// `b`'s spans grouped and merged per supporting line: each entry holds the canonical
/// list of the positions of its line covered by `b`, and every covered line has an entry.
fn cover_map(b: &[Edge]) -> (m: Vec<((u8, i32), Vec<(i32, i32)>)>)
    ensures
        forall|j: int| 0 <= j < m@.len() ==> canon((#[trigger] m@[j]).1@),
        forall|j: int, t: int| 0 <= j < m@.len() ==> (#[trigger] in_spans(m@[j].1@, t) <==> on_edges(b@, m@[j].0, t)),
        forall|k: (u8, i32), t: int| #[trigger] on_edges(b@, k, t) ==> exists|j: int| 0 <= j < m@.len() && (#[trigger] m@[j]).0 == k,
{
    // every (line, span) of b, and the distinct lines
    let mut flat: Vec<((u8, i32), (i32, i32))> = Vec::new();
    let mut keys: Vec<(u8, i32)> = Vec::new();
    let mut i: usize = 0;
    while i < b.len()
        invariant
            i <= b@.len(),
            forall|q: int| 0 <= q < flat@.len() ==> (#[trigger] flat@[q]).1.0 < flat@[q].1.1,
            forall|q: int| 0 <= q < flat@.len() ==> keys@.contains((#[trigger] flat@[q]).0),
            forall|k: (u8, i32), t: int| #[trigger] on_edges(b@.take(i as int), k, t) <==> flat_covers(flat@, k, t),
        decreases b@.len() - i,
    {
        let e = b[i];
        let ghost old_flat = flat@;
        let ghost old_keys = keys@;
        proof {
            assert(b@.take(i + 1) =~= b@.take(i as int).push(e));
            assert forall|k: (u8, i32), t: int| #[trigger] on_edges(b@.take(i + 1), k, t) <==> (on_edges(b@.take(i as int), k, t) || edge_covers(e, k, t)) by {
                if on_edges(b@.take(i + 1), k, t) {
                    let w = choose|w: int| 0 <= w < b@.take(i + 1).len() && edge_covers(#[trigger] b@.take(i + 1)[w], k, t);
                    if w < i {
                        assert(b@.take(i as int)[w] == b@.take(i + 1)[w]);
                    }
                }
                if on_edges(b@.take(i as int), k, t) {
                    let w = choose|w: int| 0 <= w < b@.take(i as int).len() && edge_covers(#[trigger] b@.take(i as int)[w], k, t);
                    assert(b@.take(i + 1)[w] == b@.take(i as int)[w]);
                }
                if edge_covers(e, k, t) {
                    assert(b@.take(i + 1)[i as int] == e);
                }
            }
        }
        match line_span(&e) {
            Some((k, span, _)) => {
                flat.push((k, span));
                if cover_get_key(&keys, k).is_none() {
                    keys.push(k);
                }
                proof {
                    assert forall|q: int| 0 <= q < flat@.len() implies keys@.contains((#[trigger] flat@[q]).0) by {
                        if q < old_flat.len() {
                            assert(flat@[q] == old_flat[q]);
                            assert(old_keys.contains(old_flat[q].0));
                            let w = choose|w: int| 0 <= w < old_keys.len() && old_keys[w] == old_flat[q].0;
                            assert(keys@[w] == old_keys[w]);
                        } else if keys@.len() > old_keys.len() {
                            assert(keys@[old_keys.len() as int] == k);
                        } else {
                            assert(old_keys.contains(k));
                        }
                    }
                    assert forall|kk: (u8, i32), t: int| #[trigger] on_edges(b@.take(i + 1), kk, t) <==> flat_covers(flat@, kk, t) by {
                        if flat_covers(flat@, kk, t) {
                            let w = choose|w: int| 0 <= w < flat@.len() && (#[trigger] flat@[w]).0 == kk && flat@[w].1.0 <= t < flat@[w].1.1;
                            if w < old_flat.len() {
                                assert(old_flat[w] == flat@[w]);
                                assert(flat_covers(old_flat, kk, t));
                            }
                        }
                        if flat_covers(old_flat, kk, t) {
                            let w = choose|w: int| 0 <= w < old_flat.len() && (#[trigger] old_flat[w]).0 == kk && old_flat[w].1.0 <= t < old_flat[w].1.1;
                            assert(flat@[w] == old_flat[w]);
                        }
                        if edge_covers(e, kk, t) {
                            assert(flat@[old_flat.len() as int] == (k, span));
                        }
                    }
                }
            },
            None => {
                proof {
                    assert forall|kk: (u8, i32), t: int| #[trigger] on_edges(b@.take(i + 1), kk, t) <==> flat_covers(flat@, kk, t) by {
                        assert(!edge_covers(e, kk, t));
                    }
                }
            },
        }
        i += 1;
    }
    proof {
        assert(b@.take(b@.len() as int) =~= b@);
    }
    // gather and merge each line's spans
    let mut m: Vec<((u8, i32), Vec<(i32, i32)>)> = Vec::new();
    let mut j: usize = 0;
    while j < keys.len()
        invariant
            j <= keys@.len(),
            m@.len() == j,
            forall|q: int| 0 <= q < flat@.len() ==> (#[trigger] flat@[q]).1.0 < flat@[q].1.1,
            forall|q: int| 0 <= q < flat@.len() ==> keys@.contains((#[trigger] flat@[q]).0),
            forall|k: (u8, i32), t: int| #[trigger] on_edges(b@, k, t) <==> flat_covers(flat@, k, t),
            forall|q: int| 0 <= q < j ==> (#[trigger] m@[q]).0 == keys@[q] && canon(m@[q].1@),
            forall|q: int, t: int| 0 <= q < j ==> (#[trigger] in_spans(m@[q].1@, t) <==> on_edges(b@, m@[q].0, t)),
        decreases keys@.len() - j,
    {
        let k = keys[j];
        let mut raw: Vec<(i32, i32)> = Vec::new();
        let mut f: usize = 0;
        while f < flat.len()
            invariant
                f <= flat@.len(),
                forall|q: int| 0 <= q < flat@.len() ==> (#[trigger] flat@[q]).1.0 < flat@[q].1.1,
                forall|q: int| 0 <= q < raw@.len() ==> (#[trigger] raw@[q]).0 < raw@[q].1,
                forall|t: int| #[trigger] in_spans(raw@, t) <==> flat_covers(flat@.take(f as int), k, t),
            decreases flat@.len() - f,
        {
            let (fk, fs) = flat[f];
            let ghost old_raw = raw@;
            if fk.0 == k.0 && fk.1 == k.1 {
                raw.push(fs);
            }
            proof {
                assert(flat@.take(f + 1) =~= flat@.take(f as int).push(flat@[f as int]));
                assert(flat@[f as int] == (fk, fs));
                assert((fk.0 == k.0 && fk.1 == k.1) <==> fk == k);
                assert forall|t: int| #[trigger] in_spans(raw@, t) <==> flat_covers(flat@.take(f + 1), k, t) by {
                    assert(flat@.take(f + 1)[f as int] == (fk, fs));
                    if raw@.len() > old_raw.len() {
                        lemma_in_push(old_raw, fs, t);
                        assert(raw@ == old_raw.push(fs));
                    }
                    if flat_covers(flat@.take(f + 1), k, t) {
                        let w = choose|w: int| 0 <= w < flat@.take(f + 1).len() && (#[trigger] flat@.take(f + 1)[w]).0 == k && flat@.take(f + 1)[w].1.0 <= t < flat@.take(f + 1)[w].1.1;
                        if w < f {
                            assert(flat@.take(f as int)[w] == flat@.take(f + 1)[w]);
                        }
                    }
                    if flat_covers(flat@.take(f as int), k, t) {
                        let w = choose|w: int| 0 <= w < flat@.take(f as int).len() && (#[trigger] flat@.take(f as int)[w]).0 == k && flat@.take(f as int)[w].1.0 <= t < flat@.take(f as int)[w].1.1;
                        assert(flat@.take(f + 1)[w] == flat@.take(f as int)[w]);
                    }
                }
            }
            f += 1;
        }
        proof {
            assert(flat@.take(flat@.len() as int) =~= flat@);
        }
        let merged = merge_1d(raw);
        m.push((k, merged));
        j += 1;
    }
    proof {
        assert forall|k: (u8, i32), t: int| #[trigger] on_edges(b@, k, t) implies exists|p: int| 0 <= p < m@.len() && (#[trigger] m@[p]).0 == k by {
            let w = choose|w: int| 0 <= w < flat@.len() && (#[trigger] flat@[w]).0 == k && flat@[w].1.0 <= t < flat@[w].1.1;
            assert(keys@.contains(flat@[w].0));
            let p = choose|p: int| 0 <= p < keys@.len() && keys@[p] == k;
            assert(m@[p].0 == k);
        }
    }
    m
}

/// Position of line `k` in a key list, if present.
fn cover_get_key(keys: &Vec<(u8, i32)>, k: (u8, i32)) -> (r: Option<usize>)
    ensures
        match r {
            Some(j) => j < keys@.len() && keys@[j as int] == k,
            None => !keys@.contains(k),
        },
{
    let mut j: usize = 0;
    while j < keys.len()
        invariant
            j <= keys@.len(),
            forall|q: int| 0 <= q < j ==> keys@[q] != k,
        decreases keys@.len() - j,
    {
        if keys[j].0 == k.0 && keys[j].1 == k.1 {
            return Some(j);
        }
        j += 1;
    }
    None
}

/// Rebuild oriented edges on line `key` from result spans, keeping `a`'s direction.
fn emit(key: (u8, i32), spans: &[(i32, i32)], forward: bool) -> (out: Vec<Edge>)
    ensures
        out@ == emit_spec(key, spans@, forward),
{
    let mut out: Vec<Edge> = Vec::new();
    let mut i: usize = 0;
    while i < spans.len()
        invariant
            i <= spans@.len(),
            out@.len() == i,
            forall|k: int| 0 <= k < i ==> #[trigger] out@[k] == emit_edge(key, spans@[k], forward),
        decreases spans@.len() - i,
    {
        let (lo, hi) = spans[i];
        let (p, q) = if forward { (lo, hi) } else { (hi, lo) };
        let e = if key.0 == 0 { Edge { a: (p, key.1), b: (q, key.1) } } else { Edge { a: (key.1, p), b: (key.1, q) } };
        out.push(e);
        i += 1;
    }
    proof {
        assert(out@ =~= emit_spec(key, spans@, forward));
    }
    out
}

/// Keeps (`on`) or drops (`!on`) the parts of `a`'s edges lying on `b`'s edges.
fn edges_filter(a: &[Edge], b: &[Edge], on: bool) -> (out: Vec<Edge>)
    ensures
        exists|parts: Seq<Seq<(i32, i32)>>|
            parts.len() == a@.len() && out@ == emit_all(a@, parts) && forall|i: int| 0 <= i < a@.len() ==> part_ok(a@[i], b@, #[trigger] parts[i], on),
{
    let cov = cover_map(b);
    let mut out: Vec<Edge> = Vec::new();
    let ghost mut parts: Seq<Seq<(i32, i32)>> = Seq::empty();
    let mut i: usize = 0;
    while i < a.len()
        invariant
            i <= a@.len(),
            parts.len() == i,
            out@ == emit_all(a@.take(i as int), parts),
            forall|j: int| 0 <= j < i ==> part_ok(a@[j], b@, #[trigger] parts[j], on),
            forall|j: int| 0 <= j < cov@.len() ==> canon((#[trigger] cov@[j]).1@),
            forall|j: int, t: int| 0 <= j < cov@.len() ==> (#[trigger] in_spans(cov@[j].1@, t) <==> on_edges(b@, cov@[j].0, t)),
            forall|k: (u8, i32), t: int| #[trigger] on_edges(b@, k, t) ==> exists|j: int| 0 <= j < cov@.len() && (#[trigger] cov@[j]).0 == k,
        decreases a@.len() - i,
    {
        let e = a[i];
        let ghost mut p: Seq<(i32, i32)> = Seq::empty();
        let ghost before = out@;
        match line_span(&e) {
            Some((k, span, fwd)) => {
                let pieces: Vec<(i32, i32)> = match cover_get(&cov, k) {
                    Some(j) => {
                        if on {
                            intersect_1d(span, cov[j].1.as_slice())
                        } else {
                            difference_1d(span, cov[j].1.as_slice())
                        }
                    },
                    None => {
                        proof {
                            assert forall|t: int| !on_edges(b@, k, t) by {
                                if on_edges(b@, k, t) {
                                    let j = choose|j: int| 0 <= j < cov@.len() && (#[trigger] cov@[j]).0 == k;
                                }
                            }
                        }
                        if on {
                            Vec::new()
                        } else {
                            let whole: Vec<(i32, i32)> = vec![span];
                            proof {
                                assert(whole@ =~= seq![span]);
                                assert forall|t: int| #[trigger] in_spans(whole@, t) <==> span.0 <= t < span.1 by {
                                    lemma_in_push(Seq::<(i32, i32)>::empty(), span, t);
                                    assert(Seq::<(i32, i32)>::empty().push(span) =~= whole@);
                                }
                            }
                            whole
                        }
                    },
                };
                let mut em = emit(k, pieces.as_slice(), fwd);
                out.append(&mut em);
                proof {
                    p = pieces@;
                    assert forall|t: int| #[trigger] in_spans(p, t) <==> (span.0 <= t < span.1 && on_edges(b@, k, t) == on) by {
                        if on {
                            assert(!in_spans(Seq::<(i32, i32)>::empty(), t));
                        }
                    }
                }
            },
            None => {},
        }
        proof {
            assert(a@.take(i + 1).drop_last() =~= a@.take(i as int));
            assert(parts.push(p).drop_last() =~= parts);
            assert(a@.take(i + 1).last() == e);
        }
        proof {
            parts = parts.push(p);
        }
        i += 1;
        proof {
            assert forall|j: int| 0 <= j < i implies part_ok(a@[j], b@, #[trigger] parts[j], on) by {
                if j == i - 1 {
                    assert(parts[j] == p);
                }
            }
        }
    }
    proof {
        assert(a@.take(a@.len() as int) =~= a@);
    }
    out
}

/// Parts of `a` that lie on (are collinear-overlapping with) an edge of `b`, each edge's
/// pieces in order along its line and in its direction.
pub fn edges_and(a: &[Edge], b: &[Edge]) -> (out: Vec<Edge>)
    ensures
        exists|parts: Seq<Seq<(i32, i32)>>|
            parts.len() == a@.len() && out@ == emit_all(a@, parts) && forall|i: int| 0 <= i < a@.len() ==> part_ok(a@[i], b@, #[trigger] parts[i], true),
{
    edges_filter(a, b, true)
}

/// Parts of `a` that do **not** lie on any edge of `b`.
pub fn edges_not(a: &[Edge], b: &[Edge]) -> (out: Vec<Edge>)
    ensures
        exists|parts: Seq<Seq<(i32, i32)>>|
            parts.len() == a@.len() && out@ == emit_all(a@, parts) && forall|i: int| 0 <= i < a@.len() ==> part_ok(a@[i], b@, #[trigger] parts[i], false),
{
    edges_filter(a, b, false)
}

// ---- lengths -------------------------------------------------------------------

/// The length of an edge (Manhattan; exact for an axis-aligned edge).
pub open spec fn edge_len(e: Edge) -> int {
    iabs(e.b.0 - e.a.0) + iabs(e.b.1 - e.a.1)
}

/// The total length of a list of edges.
pub open spec fn total_len(es: Seq<Edge>) -> int
    decreases es.len(),
{
    if es.len() == 0 {
        0
    } else {
        total_len(es.drop_last()) + edge_len(es.last())
    }
}

/// The total length of the edges of `a` that lie along an axis with positive length.
pub open spec fn axis_len(a: Seq<Edge>) -> int
    decreases a.len(),
{
    if a.len() == 0 {
        0
    } else {
        axis_len(a.drop_last()) + if span_of(a.last()) is Some { edge_len(a.last()) } else { 0 }
    }
}

/// The total length of a list of spans.
pub open spec fn spans_len(s: Seq<(i32, i32)>) -> int
    decreases s.len(),
{
    if s.len() == 0 {
        0
    } else {
        spans_len(s.drop_last()) + (s.last().1 - s.last().0)
    }
}

/// The number of integers `t` in `[lo, lo + n)` with `f(t)`.
pub open spec fn count_where(f: spec_fn(int) -> bool, lo: int, n: nat) -> nat
    decreases n,
{
    if n == 0 {
        0
    } else {
        count_where(f, lo, (n - 1) as nat) + if f(lo + n - 1) { 1nat } else { 0nat }
    }
}

/// Counting is pointwise: equal predicates on the range count alike, and the counts of
/// two predicates that never hold together add up to the count of either.
proof fn lemma_count_split(f: spec_fn(int) -> bool, g: spec_fn(int) -> bool, h: spec_fn(int) -> bool, lo: int, n: nat)
    requires
        forall|t: int| lo <= t < lo + n ==> (#[trigger] h(t) <==> (f(t) || g(t))),
        forall|t: int| lo <= t < lo + n ==> !(#[trigger] f(t) && g(t)),
    ensures
        count_where(h, lo, n) == count_where(f, lo, n) + count_where(g, lo, n),
    decreases n,
{
    if n > 0 {
        lemma_count_split(f, g, h, lo, (n - 1) as nat);
    }
}

/// The integers of `[a, b)` inside `[lo, lo + n)` number `b - a` when the range holds it.
proof fn lemma_count_interval(a: int, b: int, lo: int, n: nat)
    requires
        lo <= a <= b <= lo + n,
    ensures
        count_where(|t: int| a <= t < b, lo, n) == b - a,
    decreases n,
{
    if n > 0 {
        if b == lo + n {
            if a < b {
                lemma_count_interval(a, b - 1, lo, (n - 1) as nat);
                assert(count_where(|t: int| a <= t < b - 1, lo, (n - 1) as nat) == count_where(|t: int| a <= t < b, lo, (n - 1) as nat)) by {
                    lemma_count_same(|t: int| a <= t < b - 1, |t: int| a <= t < b, lo, (n - 1) as nat);
                }
            } else {
                lemma_count_none(|t: int| a <= t < b, lo, n);
            }
        } else {
            lemma_count_interval(a, b, lo, (n - 1) as nat);
        }
    }
}

/// Predicates that agree on the range count alike.
proof fn lemma_count_same(f: spec_fn(int) -> bool, g: spec_fn(int) -> bool, lo: int, n: nat)
    requires
        forall|t: int| lo <= t < lo + n ==> (#[trigger] f(t) <==> g(t)),
    ensures
        count_where(f, lo, n) == count_where(g, lo, n),
    decreases n,
{
    if n > 0 {
        lemma_count_same(f, g, lo, (n - 1) as nat);
    }
}

/// A predicate that never holds on the range counts nothing.
proof fn lemma_count_none(f: spec_fn(int) -> bool, lo: int, n: nat)
    requires
        forall|t: int| lo <= t < lo + n ==> !#[trigger] f(t),
    ensures
        count_where(f, lo, n) == 0,
    decreases n,
{
    if n > 0 {
        lemma_count_none(f, lo, (n - 1) as nat);
    }
}

/// A canonical span list inside `[lo, lo + n)` is as long as the number of integers it
/// holds there.
proof fn lemma_spans_count(s: Seq<(i32, i32)>, lo: int, n: nat)
    requires
        canon(s),
        forall|i: int| 0 <= i < s.len() ==> lo <= (#[trigger] s[i]).0 && s[i].1 <= lo + n,
    ensures
        spans_len(s) == count_where(|t: int| in_spans(s, t), lo, n),
    decreases s.len(),
{
    if s.len() == 0 {
        lemma_count_none(|t: int| in_spans(s, t), lo, n);
    } else {
        let d = s.drop_last();
        let p = s.last();
        assert forall|i: int, j: int| 0 <= i < j < d.len() implies (#[trigger] d[i]).1 < (#[trigger] d[j]).0 by {
            assert(d[i] == s[i] && d[j] == s[j]);
        }
        assert forall|i: int| 0 <= i < d.len() implies (#[trigger] d[i]).0 < d[i].1 && lo <= d[i].0 && d[i].1 <= lo + n by {
            assert(d[i] == s[i]);
        }
        lemma_spans_count(d, lo, n);
        assert(s =~= d.push(p));
        assert forall|t: int| lo <= t < lo + n implies (in_spans(s, t) <==> (in_spans(d, t) || (p.0 <= t < p.1))) by {
            lemma_in_push(d, p, t);
        }
        assert forall|t: int| lo <= t < lo + n implies !(in_spans(d, t) && (p.0 <= t < p.1)) by {
            if in_spans(d, t) {
                let i = choose|i: int| 0 <= i < d.len() && (#[trigger] d[i]).0 <= t < d[i].1;
                assert(s[i].1 < s[s.len() - 1].0);
            }
        }
        lemma_count_split(|t: int| in_spans(d, t), |t: int| p.0 <= t < p.1, |t: int| in_spans(s, t), lo, n);
        assert(p.0 < p.1 && lo <= p.0 && p.1 <= lo + n);
        lemma_count_interval(p.0 as int, p.1 as int, lo, n);
    }
}

/// The edges emitted for a list of spans are as long as the spans.
proof fn lemma_emit_len(k: (u8, i32), spans: Seq<(i32, i32)>, forward: bool)
    requires
        forall|i: int| 0 <= i < spans.len() ==> (#[trigger] spans[i]).0 < spans[i].1,
    ensures
        total_len(emit_spec(k, spans, forward)) == spans_len(spans),
    decreases spans.len(),
{
    if spans.len() > 0 {
        let d = spans.drop_last();
        assert(emit_spec(k, spans, forward).drop_last() =~= emit_spec(k, d, forward));
        assert forall|i: int| 0 <= i < d.len() implies (#[trigger] d[i]).0 < d[i].1 by {
            assert(d[i] == spans[i]);
        }
        lemma_emit_len(k, d, forward);
    }
}

/// The total length of two lists joined.
proof fn lemma_total_len_add(x: Seq<Edge>, y: Seq<Edge>)
    ensures
        total_len(x + y) == total_len(x) + total_len(y),
    decreases y.len(),
{
    if y.len() > 0 {
        assert((x + y).drop_last() =~= x + y.drop_last());
        lemma_total_len_add(x, y.drop_last());
    }
}

/// The pieces of one edge that lie on `b` and those that do not together are as long as
/// the edge.
proof fn lemma_edge_parts_len(e: Edge, b: Seq<Edge>, on: Seq<(i32, i32)>, off: Seq<(i32, i32)>)
    requires
        part_ok(e, b, on, true),
        part_ok(e, b, off, false),
    ensures
        (match span_of(e) {
            Some((k, _, fwd)) => total_len(emit_spec(k, on, fwd)) + total_len(emit_spec(k, off, fwd)),
            None => 0,
        }) == if span_of(e) is Some { edge_len(e) } else { 0 },
{
    match span_of(e) {
        Some((k, s, fwd)) => {
            let n = (s.1 - s.0) as nat;
            assert forall|i: int| 0 <= i < on.len() implies s.0 <= (#[trigger] on[i]).0 && on[i].1 <= s.0 + n by {
                assert(in_spans(on, on[i].0 as int));
                assert(in_spans(on, on[i].1 - 1));
            }
            assert forall|i: int| 0 <= i < off.len() implies s.0 <= (#[trigger] off[i]).0 && off[i].1 <= s.0 + n by {
                assert(in_spans(off, off[i].0 as int));
                assert(in_spans(off, off[i].1 - 1));
            }
            lemma_spans_count(on, s.0 as int, n);
            lemma_spans_count(off, s.0 as int, n);
            lemma_emit_len(k, on, fwd);
            lemma_emit_len(k, off, fwd);
            lemma_count_split(|t: int| in_spans(on, t), |t: int| in_spans(off, t), |t: int| s.0 <= t < s.1, s.0 as int, n);
            lemma_count_interval(s.0 as int, s.1 as int, s.0 as int, n);
        },
        None => {},
    }
}

/// Length is conserved by the edge booleans: for axis-aligned edges `a` and any edges
/// `b`, the parts of `a` on `b` (what [`edges_and`] gives) and the parts off `b` (what
/// [`edges_not`] gives) together are exactly as long as the edges of `a` with positive
/// length.
pub proof fn lemma_edges_length_partition(a: Seq<Edge>, b: Seq<Edge>, on_out: Seq<Edge>, off_out: Seq<Edge>)
    requires
        exists|parts: Seq<Seq<(i32, i32)>>|
            parts.len() == a.len() && on_out == emit_all(a, parts) && forall|i: int| 0 <= i < a.len() ==> part_ok(a[i], b, #[trigger] parts[i], true),
        exists|parts: Seq<Seq<(i32, i32)>>|
            parts.len() == a.len() && off_out == emit_all(a, parts) && forall|i: int| 0 <= i < a.len() ==> part_ok(a[i], b, #[trigger] parts[i], false),
    ensures
        total_len(on_out) + total_len(off_out) == axis_len(a),
{
    let pon = choose|parts: Seq<Seq<(i32, i32)>>|
        parts.len() == a.len() && on_out == emit_all(a, parts) && forall|i: int| 0 <= i < a.len() ==> part_ok(a[i], b, #[trigger] parts[i], true);
    let poff = choose|parts: Seq<Seq<(i32, i32)>>|
        parts.len() == a.len() && off_out == emit_all(a, parts) && forall|i: int| 0 <= i < a.len() ==> part_ok(a[i], b, #[trigger] parts[i], false);
    lemma_parts_len(a, b, pon, poff);
}

/// The length conservation over every edge of `a`, by induction.
proof fn lemma_parts_len(a: Seq<Edge>, b: Seq<Edge>, pon: Seq<Seq<(i32, i32)>>, poff: Seq<Seq<(i32, i32)>>)
    requires
        pon.len() == a.len(),
        poff.len() == a.len(),
        forall|i: int| 0 <= i < a.len() ==> part_ok(a[i], b, #[trigger] pon[i], true),
        forall|i: int| 0 <= i < a.len() ==> part_ok(a[i], b, #[trigger] poff[i], false),
    ensures
        total_len(emit_all(a, pon)) + total_len(emit_all(a, poff)) == axis_len(a),
    decreases a.len(),
{
    if a.len() > 0 {
        let n = a.len() - 1;
        assert forall|i: int| 0 <= i < n implies part_ok(a.drop_last()[i], b, #[trigger] pon.drop_last()[i], true) by {
            assert(a.drop_last()[i] == a[i] && pon.drop_last()[i] == pon[i]);
        }
        assert forall|i: int| 0 <= i < n implies part_ok(a.drop_last()[i], b, #[trigger] poff.drop_last()[i], false) by {
            assert(a.drop_last()[i] == a[i] && poff.drop_last()[i] == poff[i]);
        }
        lemma_parts_len(a.drop_last(), b, pon.drop_last(), poff.drop_last());
        assert(part_ok(a[n], b, pon[n], true));
        assert(part_ok(a[n], b, poff[n], false));
        lemma_edge_parts_len(a.last(), b, pon.last(), poff.last());
        let tail_on = match span_of(a.last()) {
            Some((k, _, fwd)) => emit_spec(k, pon.last(), fwd),
            None => Seq::<Edge>::empty(),
        };
        let tail_off = match span_of(a.last()) {
            Some((k, _, fwd)) => emit_spec(k, poff.last(), fwd),
            None => Seq::<Edge>::empty(),
        };
        lemma_total_len_add(emit_all(a.drop_last(), pon.drop_last()), tail_on);
        lemma_total_len_add(emit_all(a.drop_last(), poff.drop_last()), tail_off);
    }
}

// ---- edge separation --------------------------------------------------------
//
// `separation` is the directional edge-to-edge spacing check: which edges of `a` face an
// edge of `b` across empty space, closer than a distance.

/// Outward normal of a directed edge (right of travel; the solid is on the left, as
/// `ring_edges` produces, so the normal points into the empty space).
fn outward(e: &Edge) -> (n: (i64, i64))
    ensures
        n.0 == outward_spec(*e).0,
        n.1 == outward_spec(*e).1,
{
    let dx = sign_of(e.a.0, e.b.0) as i64;
    let dy = sign_of(e.a.1, e.b.1) as i64;
    (dy, -dx)
}

/// `ea` and `eb` are parallel, face each other across empty space, overlap in
/// projection, and lie a perpendicular gap in `(0, dist)` apart.
pub open spec fn faces(ea: Edge, eb: Edge, dist: int) -> bool {
    if is_horizontal(ea) != is_horizontal(eb) {
        false
    } else if is_horizontal(ea) {
        let (ya, yb) = (ea.a.1 as int, eb.a.1 as int);
        &&& 0 < iabs(ya - yb) < dist
        &&& imax(ea.a.0 as int, ea.b.0 as int) >= imin(eb.a.0 as int, eb.b.0 as int)
        &&& imax(eb.a.0 as int, eb.b.0 as int) >= imin(ea.a.0 as int, ea.b.0 as int)
        &&& outward_spec(ea).1 * (yb - ya) > 0
        &&& outward_spec(eb).1 * (ya - yb) > 0
    } else {
        let (xa, xb) = (ea.a.0 as int, eb.a.0 as int);
        &&& 0 < iabs(xa - xb) < dist
        &&& imax(ea.a.1 as int, ea.b.1 as int) >= imin(eb.a.1 as int, eb.b.1 as int)
        &&& imax(eb.a.1 as int, eb.b.1 as int) >= imin(ea.a.1 as int, ea.b.1 as int)
        &&& outward_spec(ea).0 * (xb - xa) > 0
        &&& outward_spec(eb).0 * (xa - xb) > 0
    }
}

/// The facing pairs `(ea, eb)` for one edge `ea`, in the order of `b`.
pub open spec fn sep_row(ea: Edge, b: Seq<Edge>, dist: int) -> Seq<(Edge, Edge)>
    decreases b.len(),
{
    if b.len() == 0 {
        Seq::empty()
    } else {
        sep_row(ea, b.drop_last(), dist) + if faces(ea, b.last(), dist) { seq![(ea, b.last())] } else { Seq::empty() }
    }
}

/// The facing pairs of `a × b`, `a`-major.
pub open spec fn sep_all(a: Seq<Edge>, b: Seq<Edge>, dist: int) -> Seq<(Edge, Edge)>
    decreases a.len(),
{
    if a.len() == 0 {
        Seq::empty()
    } else {
        sep_all(a.drop_last(), b, dist) + sep_row(a.last(), b, dist)
    }
}

/// `s * d > 0` for a sign `s`.
fn pos_product(s: i64, d: i64) -> (r: bool)
    requires
        -1 <= s <= 1,
    ensures
        r == (s * d > 0),
{
    if s == 1 {
        assert(s * d == d);
        d > 0
    } else if s == -1 {
        assert(s * d == -d) by (nonlinear_arith)
            requires
                s == -1,
        ;
        d < 0
    } else {
        assert(s * d == 0);
        false
    }
}

/// Whether `ea` faces `eb` closer than `dist` (see [`faces`]).
fn faces_exec(ea: &Edge, eb: &Edge, dist: i64) -> (r: bool)
    ensures
        r == faces(*ea, *eb, dist as int),
{
    let ha = ea.a.1 == ea.b.1;
    let hb = eb.a.1 == eb.b.1;
    if ha != hb {
        return false;
    }
    if ha {
        let (ya, yb) = (ea.a.1 as i64, eb.a.1 as i64);
        let gap = if ya >= yb { ya - yb } else { yb - ya };
        if gap == 0 || gap >= dist {
            return false;
        }
        let (xa0, xa1) = (if ea.a.0 <= ea.b.0 { ea.a.0 } else { ea.b.0 }, if ea.a.0 <= ea.b.0 { ea.b.0 } else { ea.a.0 });
        let (xb0, xb1) = (if eb.a.0 <= eb.b.0 { eb.a.0 } else { eb.b.0 }, if eb.a.0 <= eb.b.0 { eb.b.0 } else { eb.a.0 });
        if !(xa1 >= xb0 && xb1 >= xa0) {
            return false;
        }
        let oa = outward(ea);
        let ob = outward(eb);
        pos_product(oa.1, yb - ya) && pos_product(ob.1, ya - yb)
    } else {
        let (xa, xb) = (ea.a.0 as i64, eb.a.0 as i64);
        let gap = if xa >= xb { xa - xb } else { xb - xa };
        if gap == 0 || gap >= dist {
            return false;
        }
        let (ya0, ya1) = (if ea.a.1 <= ea.b.1 { ea.a.1 } else { ea.b.1 }, if ea.a.1 <= ea.b.1 { ea.b.1 } else { ea.a.1 });
        let (yb0, yb1) = (if eb.a.1 <= eb.b.1 { eb.a.1 } else { eb.b.1 }, if eb.a.1 <= eb.b.1 { eb.b.1 } else { eb.a.1 });
        if !(ya1 >= yb0 && yb1 >= ya0) {
            return false;
        }
        let oa = outward(ea);
        let ob = outward(eb);
        pos_product(oa.0, xb - xa) && pos_product(ob.0, xa - xb)
    }
}

/// Edge pairs `(ea in a, eb in b)` that are **parallel**, **face** each other (outward
/// normals point toward one another across empty space), **overlap in projection**, and are
/// a perpendicular gap in `(0, dist)` apart. The facing test assumes both inputs are
/// oriented with the solid on the left (as [`ring_edges`] yields). For same-set spacing
/// (`a == b`) each unordered pair is produced twice — dedupe on the caller side.
pub fn separation(a: &[Edge], b: &[Edge], dist: i64) -> (out: Vec<(Edge, Edge)>)
    ensures
        out@ == sep_all(a@, b@, dist as int),
{
    let mut out: Vec<(Edge, Edge)> = Vec::new();
    let mut i: usize = 0;
    while i < a.len()
        invariant
            i <= a@.len(),
            out@ == sep_all(a@.take(i as int), b@, dist as int),
        decreases a@.len() - i,
    {
        let ea = a[i];
        let ghost base = out@;
        let mut j: usize = 0;
        while j < b.len()
            invariant
                j <= b@.len(),
                out@ == base + sep_row(ea, b@.take(j as int), dist as int),
            decreases b@.len() - j,
        {
            let eb = b[j];
            let ghost before = out@;
            if faces_exec(&ea, &eb, dist) {
                out.push((ea, eb));
            }
            proof {
                assert(b@.take(j + 1).drop_last() =~= b@.take(j as int));
                assert(b@.take(j + 1).last() == eb);
                assert(out@ =~= base + sep_row(ea, b@.take(j + 1), dist as int));
            }
            j += 1;
        }
        proof {
            assert(b@.take(b@.len() as int) =~= b@);
            assert(a@.take(i + 1).drop_last() =~= a@.take(i as int));
            assert(a@.take(i + 1).last() == ea);
        }
        i += 1;
    }
    proof {
        assert(a@.take(a@.len() as int) =~= a@);
    }
    out
}


/// `e` is a piece of `f`: on the same line, pointing the same way, within `f`'s span,
/// and each unit step of it lies on an edge of `b` exactly when `on`.
pub open spec fn piece_on(e: Edge, f: Edge, b: Seq<Edge>, on: bool) -> bool {
    match (span_of(e), span_of(f)) {
        (Some((k, s, fwd)), Some((kf, sf, fwdf))) => {
            &&& k == kf
            &&& fwd == fwdf
            &&& sf.0 <= s.0
            &&& s.1 <= sf.1
            &&& forall|t: int| s.0 <= t < s.1 ==> #[trigger] on_edges(b, k, t) == on
        },
        _ => false,
    }
}

/// What the edge booleans give is made of pieces of the edges of `a`: each edge that
/// [`edges_and`] (`on`) or [`edges_not`] (`!on`) returns lies on one edge of `a`, within
/// it and in its direction, and each of its unit steps lies on an edge of `b` (for
/// [`edges_and`]) or on none (for [`edges_not`]).
pub proof fn lemma_edges_pieces(a: Seq<Edge>, b: Seq<Edge>, out: Seq<Edge>, on: bool)
    requires
        exists|parts: Seq<Seq<(i32, i32)>>|
            parts.len() == a.len() && out == emit_all(a, parts) && forall|i: int| 0 <= i < a.len() ==> part_ok(a[i], b, #[trigger] parts[i], on),
    ensures
        forall|n: int| 0 <= n < out.len() ==> exists|i: int| 0 <= i < a.len() && piece_on(#[trigger] out[n], a[i], b, on),
{
    let parts = choose|parts: Seq<Seq<(i32, i32)>>|
        parts.len() == a.len() && out == emit_all(a, parts) && forall|i: int| 0 <= i < a.len() ==> part_ok(a[i], b, #[trigger] parts[i], on);
    lemma_pieces_rec(a, b, parts, on);
}

/// The pieces property over every edge of `a`, by induction.
proof fn lemma_pieces_rec(a: Seq<Edge>, b: Seq<Edge>, parts: Seq<Seq<(i32, i32)>>, on: bool)
    requires
        parts.len() == a.len(),
        forall|i: int| 0 <= i < a.len() ==> part_ok(a[i], b, #[trigger] parts[i], on),
    ensures
        forall|n: int| 0 <= n < emit_all(a, parts).len() ==> exists|i: int| 0 <= i < a.len() && piece_on(#[trigger] emit_all(a, parts)[n], a[i], b, on),
    decreases a.len(),
{
    if a.len() > 0 {
        let n0 = a.len() - 1;
        let ad = a.drop_last();
        let pd = parts.drop_last();
        assert forall|i: int| 0 <= i < ad.len() implies part_ok(ad[i], b, #[trigger] pd[i], on) by {
            assert(ad[i] == a[i] && pd[i] == parts[i]);
        }
        lemma_pieces_rec(ad, b, pd, on);
        let head = emit_all(ad, pd);
        let out = emit_all(a, parts);
        let e = a[n0];
        let tail = match span_of(e) {
            Some((k, _, fwd)) => emit_spec(k, parts[n0], fwd),
            None => Seq::<Edge>::empty(),
        };
        assert(out == head + tail);
        assert forall|n: int| 0 <= n < out.len() implies exists|i: int| 0 <= i < a.len() && piece_on(#[trigger] out[n], a[i], b, on) by {
            if n < head.len() {
                assert(out[n] == head[n]);
                let i = choose|i: int| 0 <= i < ad.len() && piece_on(#[trigger] head[n], ad[i], b, on);
                assert(ad[i] == a[i]);
                assert(piece_on(out[n], a[i], b, on));
            } else {
                match span_of(e) {
                    Some((k, s, fwd)) => {
                        let p = parts[n0];
                        let m = n - head.len();
                        let sp = p[m];
                        assert(part_ok(e, b, p, on));
                        assert(out[n] == tail[m]);
                        assert(tail[m] == emit_edge(k, sp, fwd));
                        assert(sp.0 < sp.1);
                        assert(in_spans(p, sp.0 as int));
                        assert(in_spans(p, sp.1 - 1));
                        assert forall|t: int| sp.0 <= t < sp.1 implies #[trigger] on_edges(b, k, t) == on by {
                            assert(in_spans(p, t));
                        }
                        assert(span_of(emit_edge(k, sp, fwd)) == Some((k, sp, fwd)));
                        assert(piece_on(out[n], a[n0], b, on));
                    },
                    None => {},
                }
            }
        }
    }
}


/// `ea` and `eb` face each other across a gap: both run along the same axis on distinct
/// lines less than `dist` apart, their extents along that axis overlap, and each lies on
/// the other's empty side, right of its direction of travel (the solid is on the left).
pub open spec fn facing_pair(ea: Edge, eb: Edge, dist: int) -> bool {
    let ha = ea.a.1 == ea.b.1;
    let hb = eb.a.1 == eb.b.1;
    if ha != hb {
        false
    } else if ha {
        let (ya, yb) = (ea.a.1 as int, eb.a.1 as int);
        &&& 0 < iabs(ya - yb) < dist
        &&& imax(ea.a.0 as int, ea.b.0 as int) >= imin(eb.a.0 as int, eb.b.0 as int)
        &&& imax(eb.a.0 as int, eb.b.0 as int) >= imin(ea.a.0 as int, ea.b.0 as int)
        &&& (ea.b.0 > ea.a.0 && yb < ya) || (ea.b.0 < ea.a.0 && yb > ya)
        &&& (eb.b.0 > eb.a.0 && ya < yb) || (eb.b.0 < eb.a.0 && ya > yb)
    } else {
        let (xa, xb) = (ea.a.0 as int, eb.a.0 as int);
        &&& 0 < iabs(xa - xb) < dist
        &&& imax(ea.a.1 as int, ea.b.1 as int) >= imin(eb.a.1 as int, eb.b.1 as int)
        &&& imax(eb.a.1 as int, eb.b.1 as int) >= imin(ea.a.1 as int, ea.b.1 as int)
        &&& (ea.b.1 > ea.a.1 && xb > xa) || (ea.b.1 < ea.a.1 && xb < xa)
        &&& (eb.b.1 > eb.a.1 && xa > xb) || (eb.b.1 < eb.a.1 && xa < xb)
    }
}

proof fn lemma_faces_facing(ea: Edge, eb: Edge, dist: int)
    ensures
        faces(ea, eb, dist) == facing_pair(ea, eb, dist),
{
    let oa = outward_spec(ea);
    let ob = outward_spec(eb);
    if is_horizontal(ea) && is_horizontal(eb) {
        let (ya, yb) = (ea.a.1 as int, eb.a.1 as int);
        assert((oa.1 * (yb - ya) > 0) == ((ea.b.0 > ea.a.0 && yb < ya) || (ea.b.0 < ea.a.0 && yb > ya))) by (nonlinear_arith)
            requires
                oa.1 == -sgn(ea.b.0 - ea.a.0),
                sgn(ea.b.0 - ea.a.0) == (if ea.b.0 - ea.a.0 > 0 { 1int } else if ea.b.0 - ea.a.0 < 0 { -1int } else { 0int }),
        ;
        assert((ob.1 * (ya - yb) > 0) == ((eb.b.0 > eb.a.0 && ya < yb) || (eb.b.0 < eb.a.0 && ya > yb))) by (nonlinear_arith)
            requires
                ob.1 == -sgn(eb.b.0 - eb.a.0),
                sgn(eb.b.0 - eb.a.0) == (if eb.b.0 - eb.a.0 > 0 { 1int } else if eb.b.0 - eb.a.0 < 0 { -1int } else { 0int }),
        ;
    } else if !is_horizontal(ea) && !is_horizontal(eb) {
        let (xa, xb) = (ea.a.0 as int, eb.a.0 as int);
        assert((oa.0 * (xb - xa) > 0) == ((ea.b.1 > ea.a.1 && xb > xa) || (ea.b.1 < ea.a.1 && xb < xa))) by (nonlinear_arith)
            requires
                oa.0 == sgn(ea.b.1 - ea.a.1),
                sgn(ea.b.1 - ea.a.1) == (if ea.b.1 - ea.a.1 > 0 { 1int } else if ea.b.1 - ea.a.1 < 0 { -1int } else { 0int }),
        ;
        assert((ob.0 * (xa - xb) > 0) == ((eb.b.1 > eb.a.1 && xa > xb) || (eb.b.1 < eb.a.1 && xa < xb))) by (nonlinear_arith)
            requires
                ob.0 == sgn(eb.b.1 - eb.a.1),
                sgn(eb.b.1 - eb.a.1) == (if eb.b.1 - eb.a.1 > 0 { 1int } else if eb.b.1 - eb.a.1 < 0 { -1int } else { 0int }),
        ;
    }
}

proof fn lemma_sep_row_members(ea: Edge, b: Seq<Edge>, dist: int, p: (Edge, Edge))
    ensures
        sep_row(ea, b, dist).contains(p) <==> (p.0 == ea && exists|j: int| 0 <= j < b.len() && b[j] == p.1 && faces(ea, b[j], dist)),
    decreases b.len(),
{
    if b.len() > 0 {
        let bd = b.drop_last();
        lemma_sep_row_members(ea, bd, dist, p);
        let tail = if faces(ea, b.last(), dist) { seq![(ea, b.last())] } else { Seq::<(Edge, Edge)>::empty() };
        let s = sep_row(ea, b, dist);
        assert(s == sep_row(ea, bd, dist) + tail);
        if s.contains(p) {
            let k = choose|k: int| 0 <= k < s.len() && s[k] == p;
            if k < sep_row(ea, bd, dist).len() {
                assert(sep_row(ea, bd, dist)[k] == p);
                let j = choose|j: int| 0 <= j < bd.len() && bd[j] == p.1 && faces(ea, bd[j], dist);
                assert(b[j] == bd[j]);
            } else {
                assert(tail[k - sep_row(ea, bd, dist).len()] == p);
                assert(b[b.len() - 1] == b.last());
            }
        }
        if p.0 == ea && exists|j: int| 0 <= j < b.len() && b[j] == p.1 && faces(ea, b[j], dist) {
            let j = choose|j: int| 0 <= j < b.len() && b[j] == p.1 && faces(ea, b[j], dist);
            if j < bd.len() {
                assert(bd[j] == b[j]);
                let k = choose|k: int| 0 <= k < sep_row(ea, bd, dist).len() && sep_row(ea, bd, dist)[k] == p;
                assert(s[k] == p);
            } else {
                assert(s[s.len() - 1] == p);
            }
        }
    }
}

proof fn lemma_sep_all_members(a: Seq<Edge>, b: Seq<Edge>, dist: int, p: (Edge, Edge))
    ensures
        sep_all(a, b, dist).contains(p) <==> exists|i: int| 0 <= i < a.len() && a[i] == p.0 && sep_row(a[i], b, dist).contains(p),
    decreases a.len(),
{
    if a.len() > 0 {
        let ad = a.drop_last();
        lemma_sep_all_members(ad, b, dist, p);
        let s = sep_all(a, b, dist);
        let h = sep_all(ad, b, dist);
        let r = sep_row(a.last(), b, dist);
        assert(s == h + r);
        lemma_sep_row_members(a.last(), b, dist, p);
        if s.contains(p) {
            let k = choose|k: int| 0 <= k < s.len() && s[k] == p;
            if k < h.len() {
                assert(h[k] == p);
                let i = choose|i: int| 0 <= i < ad.len() && ad[i] == p.0 && sep_row(ad[i], b, dist).contains(p);
                assert(a[i] == ad[i]);
            } else {
                assert(r[k - h.len()] == p);
                assert(a[a.len() - 1] == a.last());
            }
        }
        if exists|i: int| 0 <= i < a.len() && a[i] == p.0 && sep_row(a[i], b, dist).contains(p) {
            let i = choose|i: int| 0 <= i < a.len() && a[i] == p.0 && sep_row(a[i], b, dist).contains(p);
            if i < ad.len() {
                assert(ad[i] == a[i]);
                let k = choose|k: int| 0 <= k < h.len() && h[k] == p;
                assert(s[k] == p);
            } else {
                assert(a[i] == a.last());
                let k = choose|k: int| 0 <= k < r.len() && r[k] == p;
                assert(s[h.len() + k] == p);
            }
        }
    }
}

/// What [`separation`] reports: exactly the pairs of an edge of `a` and an edge of `b`
/// that face each other across a gap less than `dist` (see [`facing_pair`]).
pub proof fn lemma_separation_pairs(a: Seq<Edge>, b: Seq<Edge>, dist: int, p: (Edge, Edge))
    ensures
        sep_all(a, b, dist).contains(p) <==> exists|i: int, j: int|
            0 <= i < a.len() && 0 <= j < b.len() && a[i] == p.0 && b[j] == p.1 && facing_pair(p.0, p.1, dist),
{
    lemma_sep_all_members(a, b, dist, p);
    lemma_faces_facing(p.0, p.1, dist);
    if sep_all(a, b, dist).contains(p) {
        let i = choose|i: int| 0 <= i < a.len() && a[i] == p.0 && sep_row(a[i], b, dist).contains(p);
        lemma_sep_row_members(a[i], b, dist, p);
        let j = choose|j: int| 0 <= j < b.len() && b[j] == p.1 && faces(a[i], b[j], dist);
        assert(0 <= i < a.len() && 0 <= j < b.len() && a[i] == p.0 && b[j] == p.1 && facing_pair(p.0, p.1, dist));
    }
    if exists|i: int, j: int| 0 <= i < a.len() && 0 <= j < b.len() && a[i] == p.0 && b[j] == p.1 && facing_pair(p.0, p.1, dist) {
        let (i, j) = choose|i: int, j: int| 0 <= i < a.len() && 0 <= j < b.len() && a[i] == p.0 && b[j] == p.1 && facing_pair(p.0, p.1, dist);
        lemma_sep_row_members(a[i], b, dist, p);
        assert(sep_row(a[i], b, dist).contains(p));
    }
}


/// The corners of a closed ring with axis-parallel steps between distinct points: one per
/// vertex (the closing repeat dropped), at that vertex, convex exactly where the ring
/// turns left, that is where the step out of the vertex points a quarter turn
/// counter-clockwise from the step into it.
pub proof fn lemma_corner_turns(ring: Seq<(i32, i32)>, i: int)
    requires
        ring.len() >= 4,
        ring[0] == ring[ring.len() - 1],
        forall|k: int| 0 <= k < ring.len() - 1 ==> (#[trigger] ring[k]).0 == ring[k + 1].0 || ring[k].1 == ring[k + 1].1,
        forall|k: int| 0 <= k < ring.len() - 1 ==> #[trigger] ring[k] != ring[k + 1],
        0 <= i < ring.len() - 1,
    ensures
        ring_corners_spec(ring).len() == ring.len() - 1,
        ring_corners_spec(ring)[i].p == ring[i],
        ({
            let n = ring.len() - 1;
            let p = if i == 0 { ring[n - 1] } else { ring[i - 1] };
            let c = ring[i];
            let q = ring[i + 1];
            let din = (sgn(c.0 - p.0), sgn(c.1 - p.1));
            let dout = (sgn(q.0 - c.0), sgn(q.1 - c.1));
            ring_corners_spec(ring)[i].convex == (dout == (-din.1, din.0))
        }),
{
    let n = ring.len() - 1;
    let p = if i == 0 { ring[n - 1] } else { ring[i - 1] };
    let c = ring[i];
    let q = ring[i + 1];
    assert(q == (if i + 1 == n { ring[0] } else { ring[i + 1] }));
    if i == 0 {
        assert(ring[n - 1].0 == ring[n].0 || ring[n - 1].1 == ring[n].1);
        assert(ring[n - 1] != ring[n]);
    } else {
        assert(ring[i - 1].0 == ring[i].0 || ring[i - 1].1 == ring[i].1);
        assert(ring[i - 1] != ring[i]);
    }
    assert(c.0 == q.0 || c.1 == q.1);
    assert(c != q);
    let (px, py, cx, cy, qx, qy) = (p.0 as int, p.1 as int, c.0 as int, c.1 as int, q.0 as int, q.1 as int);
    assert(turn_cross(p, c, q) == (cx - px) * (qy - cy) - (cy - py) * (qx - cx));
    if px == cx {
        if cx == qx {
            assert((cx - px) * (qy - cy) - (cy - py) * (qx - cx) == 0) by (nonlinear_arith)
                requires
                    px == cx,
                    cx == qx,
            ;
        } else {
            assert((cx - px) * (qy - cy) - (cy - py) * (qx - cx) == -(cy - py) * (qx - cx)) by (nonlinear_arith)
                requires
                    px == cx,
            ;
            assert((-(cy - py) * (qx - cx) > 0) == ((cy > py && qx < cx) || (cy < py && qx > cx))) by (nonlinear_arith)
                requires
                    cy != py,
                    qx != cx,
            ;
        }
    } else {
        assert(py == cy);
        if cy == qy {
            assert((cx - px) * (qy - cy) - (cy - py) * (qx - cx) == 0) by (nonlinear_arith)
                requires
                    py == cy,
                    cy == qy,
            ;
        } else {
            assert((cx - px) * (qy - cy) - (cy - py) * (qx - cx) == (cx - px) * (qy - cy)) by (nonlinear_arith)
                requires
                    py == cy,
            ;
            assert(((cx - px) * (qy - cy) > 0) == ((cx > px && qy > cy) || (cx < px && qy < cy))) by (nonlinear_arith)
                requires
                    cx != px,
                    qy != cy,
            ;
        }
    }
}

} // verus!
