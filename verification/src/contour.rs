//! Contour tracing: a set of tiling rectangles (e.g. `boolean::boolean_poly` output)
//! → merged, oriented rectilinear polygons.
//!
//! The boolean kernel returns the result as *rectangles tiling the region*. Edge-based
//! checks — via enclosure, spacing, and similar rules — instead need the **merged
//! boundary**, the oriented edges of the union. This module recovers that: outer rings
//! come out CCW (signed area > 0), holes CW (< 0).
//!
//! Method (all integer, exact for rectilinear input):
//! 1. Reduce every rectangle to signed edge intervals — a left edge contributes
//!    interior-to-the-right, a right edge interior-to-the-left; abutting opposite
//!    edges cancel. A signed sweep per column (per row) yields the union's boundary
//!    walls as **directed** maximal segments (interior on the left of travel).
//! 2. Split those segments at every shared vertex and stitch head-to-tail into
//!    closed rings; at a point-touch junction the sharpest-clockwise turn keeps the
//!    two rings separate rather than fusing them into a figure-eight.
//!
//! Columns and rows are visited in increasing coordinate order, so the output is
//! deterministic. Input rectangles may abut or share partial edges but must not overlap
//! in area (the `boolean_poly` output guarantees this).

use vstd::prelude::*;
use crate::geom::{Rect, imin, imax, covers, ind};
use crate::contour_law::{stops_ok, stops_good, tiles_ok, rings_w, ring_shape, step_ok, lemma_rings_bound_union, lemma_rings_shape};
use crate::contour_area::{rings_area2, rects_area, lemma_rings_area};
use crate::coverage::{Coverage, psum, total, abs_total, delta_wf, DELTA_BOUND, lemma_psum_between, lemma_take_total, lemma_psum_bounded, lemma_abs_nonneg};
use crate::sort::{sort_dedup, strictly_sorted, lemma_contains_push};

verus! {

/// Contribution of one signed interval `(lo, hi, s)` at `t`: `s` on `[lo, hi)`, `-s` on
/// `[hi, lo)` when the interval is given backwards.
pub open spec fn sig_at(iv: (i32, i32, i32), t: int) -> int {
    if iv.0 <= t < iv.1 {
        iv.2 as int
    } else if iv.1 <= t < iv.0 {
        -iv.2
    } else {
        0
    }
}

/// Signed coverage of a list of signed intervals at `t`.
pub open spec fn sig_cov(ivals: Seq<(i32, i32, i32)>, t: int) -> int
    decreases ivals.len(),
{
    if ivals.len() == 0 {
        0
    } else {
        sig_cov(ivals.drop_last(), t) + sig_at(ivals.last(), t)
    }
}

/// `runs` lists the maximal runs of constant nonzero signed coverage of `ivals`, in order.
pub open spec fn runs_of(runs: Seq<(i32, i32, i128)>, ivals: Seq<(i32, i32, i32)>) -> bool {
    &&& forall|i: int| 0 <= i < runs.len() ==> (#[trigger] runs[i]).0 < runs[i].1 && runs[i].2 != 0
    &&& forall|i: int, j: int| 0 <= i < j < runs.len() ==> (#[trigger] runs[i]).1 <= (#[trigger] runs[j]).0
    &&& forall|i: int, t: int| 0 <= i < runs.len() && runs[i].0 <= t < runs[i].1 ==> #[trigger] sig_cov(ivals, t) == (#[trigger] runs[i]).2
    &&& forall|t: int| #[trigger] sig_cov(ivals, t) != 0 ==> exists|i: int| 0 <= i < runs.len() && (#[trigger] runs[i]).0 <= t < runs[i].1
    &&& forall|i: int| 0 <= i < runs.len() - 1 && (#[trigger] runs[i]).1 == runs[i + 1].0 ==> runs[i].2 != runs[i + 1].2
}

/// Maximal runs of constant nonzero signed coverage over a set of unit-signed intervals,
/// as `(lo, hi, net)`.
fn signed_runs(ivals: &[(i32, i32, i32)]) -> (out: Vec<(i32, i32, i128)>)
    requires
        forall|i: int| 0 <= i < ivals@.len() ==> (#[trigger] ivals@[i]).2 == 1 || ivals@[i].2 == -1,
    ensures
        runs_of(out@, ivals@),
{
    let mut cov = Coverage::new();
    let mut i: usize = 0;
    while i < ivals.len()
        invariant
            i <= ivals@.len(),
            forall|k: int| 0 <= k < ivals@.len() ==> (#[trigger] ivals@[k]).2 == 1 || ivals@[k].2 == -1,
            delta_wf(cov.delta@),
            forall|z: int| #[trigger] psum(cov.delta@, z) == sig_cov(ivals@.take(i as int), z),
            abs_total(cov.delta@) <= 2 * i,
        decreases ivals@.len() - i,
    {
        let (lo, hi, s) = ivals[i];
        let ghost before = cov.delta@;
        cov.apply(lo, hi, s);
        proof {
            assert(ivals@.take(i + 1).drop_last() =~= ivals@.take(i as int));
            assert(ivals@.take(i + 1).last() == (lo, hi, s));
        }
        i += 1;
    }
    proof {
        assert(ivals@.take(ivals@.len() as int) =~= ivals@);
    }
    let d = &cov.delta;
    let ghost s = d@;
    let n = d.len();
    proof {
        // every interval adds and removes the same amount: nothing is left at the top
        assert(psum(s, i32::MAX as int) == sig_cov(ivals@, i32::MAX as int));
        lemma_sig_top(ivals@);
        lemma_abs_nonneg(s);
    }
    let mut out: Vec<(i32, i32, i128)> = Vec::new();
    let mut acc: i128 = 0;
    let mut start: i32 = 0;
    let mut k: usize = 0;
    while k < n
        invariant
            k <= n,
            n == s.len(),
            s == d@,
            delta_wf(s),
            total(s) == 0,
            abs_total(s) <= DELTA_BOUND,
            forall|z: int| #[trigger] psum(s, z) == sig_cov(ivals@, z),
            acc == total(s.take(k as int)),
            k > 0 ==> start == s[k - 1].0,
            forall|i: int| 0 <= i < out@.len() ==> (#[trigger] out@[i]).0 < out@[i].1 && out@[i].2 != 0,
            forall|i: int, j: int| 0 <= i < j < out@.len() ==> (#[trigger] out@[i]).1 <= (#[trigger] out@[j]).0,
            k > 0 ==> forall|i: int| 0 <= i < out@.len() ==> (#[trigger] out@[i]).1 <= start,
            k == 0 ==> out@.len() == 0,
            forall|i: int, t: int| 0 <= i < out@.len() && out@[i].0 <= t < out@[i].1 ==> #[trigger] sig_cov(ivals@, t) == (#[trigger] out@[i]).2,
            k > 0 ==> forall|t: int| t < start && #[trigger] sig_cov(ivals@, t) != 0 ==> exists|i: int| 0 <= i < out@.len() && (#[trigger] out@[i]).0 <= t < out@[i].1,
            forall|i: int| 0 <= i < out@.len() - 1 && (#[trigger] out@[i]).1 == out@[i + 1].0 ==> out@[i].2 != out@[i + 1].2,
            out@.len() > 0 && out@.last().1 == start ==> out@.last().2 != acc,
        decreases n - k,
    {
        let (y, dd) = d[k];
        proof {
            lemma_take_total(s, k as int);
            lemma_psum_bounded(s.take(k + 1), i32::MAX as int);
            lemma_psum_bounded(s.take(k as int), i32::MAX as int);
            // on [start, y) the coverage is the running sum
            assert forall|t: int| (k == 0 || s[k - 1].0 <= t) && t < y implies psum(s, t) == acc by {
                lemma_psum_between(s, k as int, t);
            }
            if k > 0 {
                assert(s[k - 1].0 < s[k as int].0);
            }
        }
        let ghost before = out@;
        if acc != 0 {
            out.push((start, y, acc));
            proof {
                assert forall|i: int, j: int| 0 <= i < j < out@.len() implies (#[trigger] out@[i]).1 <= (#[trigger] out@[j]).0 by {
                    if j == out@.len() - 1 && i < before.len() {
                        assert(before[i].1 <= start);
                    }
                }
                assert forall|i: int, t: int| 0 <= i < out@.len() && out@[i].0 <= t < out@[i].1 implies #[trigger] sig_cov(ivals@, t) == (#[trigger] out@[i]).2 by {
                    if i < before.len() {
                        assert(out@[i] == before[i]);
                    } else {
                        assert(psum(s, t) == acc);
                    }
                }
                assert forall|i: int| 0 <= i < out@.len() - 1 && (#[trigger] out@[i]).1 == out@[i + 1].0 implies out@[i].2 != out@[i + 1].2 by {
                    if i < before.len() - 1 {
                        assert(out@[i] == before[i] && out@[i + 1] == before[i + 1]);
                    } else {
                        assert(out@[i] == before.last());
                    }
                }
            }
        }
        let ghost old_acc = acc;
        let ghost old_start = start;
        acc = acc + dd;
        start = y;
        k += 1;
        proof {
            assert forall|t: int| t < start && #[trigger] sig_cov(ivals@, t) != 0 implies exists|i: int| 0 <= i < out@.len() && (#[trigger] out@[i]).0 <= t < out@[i].1 by {
                if k >= 2 && t < old_start {
                    let i = choose|i: int| 0 <= i < before.len() && (#[trigger] before[i]).0 <= t < before[i].1;
                    assert(out@[i] == before[i]);
                } else {
                    assert(psum(s, t) == old_acc);
                    assert(out@[before.len() as int] == (old_start, y, old_acc));
                }
            }
            assert forall|i: int| 0 <= i < out@.len() implies (#[trigger] out@[i]).1 <= start by {
                if i < before.len() {
                    assert(out@[i] == before[i]);
                }
            }
        }
    }
    proof {
        assert(s.take(n as int) =~= s);
        assert forall|t: int| #[trigger] sig_cov(ivals@, t) != 0 implies exists|i: int| 0 <= i < out@.len() && (#[trigger] out@[i]).0 <= t < out@[i].1 by {
            if n == 0 || t >= s[n - 1].0 {
                lemma_psum_between(s, n as int, t);
            }
        }
    }
    out
}

/// At the top coordinate no interval is open, so the signed coverage is zero there.
proof fn lemma_sig_top(ivals: Seq<(i32, i32, i32)>)
    ensures
        sig_cov(ivals, i32::MAX as int) == 0,
    decreases ivals.len(),
{
    if ivals.len() > 0 {
        lemma_sig_top(ivals.drop_last());
    }
}

/// Direction of travel from `a` to `b`: the signs of the coordinate differences.
fn dir(a: (i32, i32), b: (i32, i32)) -> (d: (i32, i32))
    ensures
        d == dir_spec(a, b),
        d.0 == (if b.0 > a.0 { 1int } else if b.0 < a.0 { -1int } else { 0int }),
        d.1 == (if b.1 > a.1 { 1int } else if b.1 < a.1 { -1int } else { 0int }),
{
    (if b.0 > a.0 { 1 } else if b.0 < a.0 { -1 } else { 0 }, if b.1 > a.1 { 1 } else if b.1 < a.1 { -1 } else { 0 })
}

/// Preference of the outgoing direction relative to the incoming one, tracing with the
/// interior on the left: left turn first, then straight, then right, then a reversal.
pub open spec fn turn_rank_spec(din: (i32, i32), dout: (i32, i32)) -> i32 {
    let right = (din.1 as int, -din.0);
    let left = (-din.1, din.0 as int);
    let rev = (-din.0, -din.1);
    let d = (dout.0 as int, dout.1 as int);
    if d == left {
        0
    } else if d == (din.0 as int, din.1 as int) {
        1
    } else if d == right {
        2
    } else if d == rev {
        3
    } else {
        4
    }
}

/// Preference for the outgoing direction relative to the incoming one (lower is preferred).
/// At a point-touch junction this keeps a shape hugging its own interior instead of fusing
/// with the shape it merely touches.
fn turn_rank(din: (i32, i32), dout: (i32, i32)) -> (r: i32)
    requires
        -1 <= din.0 <= 1,
        -1 <= din.1 <= 1,
    ensures
        r == turn_rank_spec(din, dout),
        0 <= r <= 4,
{
    let (rx, ry) = (din.1, -din.0);
    let (lx, ly) = (-din.1, din.0);
    let (bx, by) = (-din.0, -din.1);
    if dout.0 == lx && dout.1 == ly {
        0
    } else if dout.0 == din.0 && dout.1 == din.1 {
        1
    } else if dout.0 == rx && dout.1 == ry {
        2
    } else if dout.0 == bx && dout.1 == by {
        3
    } else {
        4
    }
}

/// Twice the cross product of `(c - p)` and `(q - c)`.
pub open spec fn cross3(p: (i32, i32), c: (i32, i32), q: (i32, i32)) -> int {
    (c.0 - p.0) * (q.1 - c.1) - (c.1 - p.1) * (q.0 - c.0)
}

/// The first `k` of the `n` ring vertices that are not collinear with their neighbours.
pub open spec fn kept(pts: Seq<(i32, i32)>, n: int, k: int) -> Seq<(i32, i32)>
    decreases k,
{
    if k <= 0 {
        Seq::empty()
    } else {
        let i = k - 1;
        let p = pts[if i == 0 { n - 1 } else { i - 1 }];
        let q = pts[if i + 1 == n { 0 } else { i + 1 }];
        kept(pts, n, k - 1) + if cross3(p, pts[i], q) != 0 { seq![pts[i]] } else { Seq::empty() }
    }
}

/// A closed ring with collinear interior vertices dropped (and closed again).
pub open spec fn simplify_spec(ring: Seq<(i32, i32)>) -> Seq<(i32, i32)> {
    if ring.len() < 4 {
        ring
    } else {
        let k = kept(ring, ring.len() - 1, ring.len() - 1);
        if k.len() > 0 { k.push(k[0]) } else { k }
    }
}

/// Cross product of `(c - p)` and `(q - c)`, exact.
fn cross_exec(p: (i32, i32), c: (i32, i32), q: (i32, i32)) -> (x: i128)
    ensures
        x == cross3(p, c, q),
{
    let (ax, ay) = (c.0 as i128 - p.0 as i128, c.1 as i128 - p.1 as i128);
    let (bx, by) = (q.0 as i128 - c.0 as i128, q.1 as i128 - c.1 as i128);
    assert(-0x4_0000_0000_0000_0000 <= ax * by <= 0x4_0000_0000_0000_0000) by (nonlinear_arith)
        requires
            -0x2_0000_0000 <= ax <= 0x2_0000_0000,
            -0x2_0000_0000 <= by <= 0x2_0000_0000,
    ;
    assert(-0x4_0000_0000_0000_0000 <= ay * bx <= 0x4_0000_0000_0000_0000) by (nonlinear_arith)
        requires
            -0x2_0000_0000 <= ay <= 0x2_0000_0000,
            -0x2_0000_0000 <= bx <= 0x2_0000_0000,
    ;
    ax * by - ay * bx
}

/// Drop collinear interior vertices from a closed ring.
fn simplify(ring: Vec<(i32, i32)>) -> (out: Vec<(i32, i32)>)
    ensures
        out@ == simplify_spec(ring@),
{
    if ring.len() < 4 {
        return ring;
    }
    // work on the open sequence (drop the duplicated closing point)
    let n = ring.len() - 1;
    let mut keep: Vec<(i32, i32)> = Vec::new();
    let mut i: usize = 0;
    while i < n
        invariant
            i <= n,
            n == ring@.len() - 1,
            n >= 3,
            keep@ == kept(ring@, n as int, i as int),
        decreases n - i,
    {
        let p = ring[if i == 0 { n - 1 } else { i - 1 }];
        let c = ring[i];
        let q = ring[if i + 1 == n { 0 } else { i + 1 }];
        // collinear if the cross product of (c-p) and (q-c) is zero
        if cross_exec(p, c, q) != 0 {
            keep.push(c);
        }
        i += 1;
    }
    if keep.len() > 0 {
        let first = keep[0];
        keep.push(first);
    }
    keep
}

/// Number of `false` entries.
pub open spec fn count_false(s: Seq<bool>) -> nat
    decreases s.len(),
{
    if s.len() == 0 {
        0
    } else {
        count_false(s.drop_last()) + if s.last() { 0nat } else { 1nat }
    }
}

/// Setting a `false` entry to `true` removes one `false`.
pub proof fn lemma_count_false_set(s: Seq<bool>, i: int)
    requires
        0 <= i < s.len(),
        !s[i],
    ensures
        count_false(s.update(i, true)) + 1 == count_false(s),
    decreases s.len(),
{
    if i < s.len() - 1 {
        assert(s.update(i, true).drop_last() =~= s.drop_last().update(i, true));
        lemma_count_false_set(s.drop_last(), i);
    } else {
        assert(s.update(i, true).drop_last() =~= s.drop_last());
    }
}

/// A list of `n` copies of `false` has `n` of them.
proof fn lemma_count_false_all(s: Seq<bool>)
    requires
        forall|i: int| 0 <= i < s.len() ==> !(#[trigger] s[i]),
    ensures
        count_false(s) == s.len(),
    decreases s.len(),
{
    if s.len() > 0 {
        lemma_count_false_all(s.drop_last());
    }
}

/// The signed intervals `(lo, hi, sign)` of the walls `(coordinate, lo, hi, sign)` that
/// lie at coordinate `c`, in order.
pub open spec fn walls_at_spec(walls: Seq<(i32, i32, i32, i32)>, c: i32) -> Seq<(i32, i32, i32)>
    decreases walls.len(),
{
    if walls.len() == 0 {
        Seq::empty()
    } else {
        let w = walls.last();
        walls_at_spec(walls.drop_last(), c) + if w.0 == c { seq![(w.1, w.2, w.3)] } else { Seq::empty() }
    }
}

/// Signed wall intervals `(lo, hi, sign)` lying at coordinate `c`.
fn walls_at(walls: &Vec<(i32, i32, i32, i32)>, c: i32) -> (iv: Vec<(i32, i32, i32)>)
    requires
        forall|i: int| 0 <= i < walls@.len() ==> (#[trigger] walls@[i]).3 == 1 || walls@[i].3 == -1,
    ensures
        iv@ == walls_at_spec(walls@, c),
        forall|i: int| 0 <= i < iv@.len() ==> (#[trigger] iv@[i]).2 == 1 || iv@[i].2 == -1,
{
    let mut iv: Vec<(i32, i32, i32)> = Vec::new();
    let mut i: usize = 0;
    while i < walls.len()
        invariant
            i <= walls@.len(),
            iv@ == walls_at_spec(walls@.take(i as int), c),
            forall|k: int| 0 <= k < walls@.len() ==> (#[trigger] walls@[k]).3 == 1 || walls@[k].3 == -1,
            forall|k: int| 0 <= k < iv@.len() ==> (#[trigger] iv@[k]).2 == 1 || iv@[k].2 == -1,
        decreases walls@.len() - i,
    {
        let (wc, lo, hi, s) = walls[i];
        proof {
            assert(walls@.take(i + 1).drop_last() =~= walls@.take(i as int));
            assert(walls@.take(i + 1).last() == walls@[i as int]);
        }
        if wc == c {
            iv.push((lo, hi, s));
        }
        proof {
            assert(iv@ =~= walls_at_spec(walls@.take(i + 1), c));
        }
        i += 1;
    }
    proof {
        assert(walls@.take(walls@.len() as int) =~= walls@);
    }
    iv
}

/// `x` is the other coordinate of an endpoint of edge `e` that lies on the line `x == c`
/// (when `vertical`) or `y == c`, between `lo` and `hi` inclusive.
pub open spec fn stop_of(e: ((i32, i32), (i32, i32)), vertical: bool, c: i32, lo: i32, hi: i32, x: i32) -> bool {
    &&& lo <= x <= hi
    &&& if vertical {
        (e.0.0 == c && e.0.1 == x) || (e.1.0 == c && e.1.1 == x)
    } else {
        (e.0.1 == c && e.0.0 == x) || (e.1.1 == c && e.1.0 == x)
    }
}

/// The sorted distinct coordinates at which some endpoint of `edges` lies on the line
/// `x == c` (when `vertical`) or `y == c`, between `lo` and `hi` inclusive.
fn stops_on(edges: &Vec<((i32, i32), (i32, i32))>, vertical: bool, c: i32, lo: i32, hi: i32) -> (s: Vec<i32>)
    ensures
        s@ == sorted_stops(edges@, vertical, c, lo, hi),
        strictly_sorted(s@),
        forall|x: i32| s@.contains(x) <==> exists|k: int| 0 <= k < edges@.len() && #[trigger] stop_of(edges@[k], vertical, c, lo, hi, x),
{
    let mut v: Vec<i32> = Vec::new();
    let mut i: usize = 0;
    while i < edges.len()
        invariant
            i <= edges@.len(),
            forall|x: i32| v@.contains(x) <==> exists|k: int| 0 <= k < i && #[trigger] stop_of(edges@[k], vertical, c, lo, hi, x),
        decreases edges@.len() - i,
    {
        let (p, q) = edges[i];
        let ghost v0 = v@;
        if vertical {
            if p.0 == c && lo <= p.1 && p.1 <= hi {
                v.push(p.1);
            }
            let ghost v1 = v@;
            if q.0 == c && lo <= q.1 && q.1 <= hi {
                v.push(q.1);
            }
            proof {
                assert forall|x: i32| v@.contains(x) <==> (v0.contains(x) || stop_of(edges@[i as int], vertical, c, lo, hi, x)) by {
                    lemma_contains_push(v0, p.1, x);
                    lemma_contains_push(v1, q.1, x);
                }
            }
        } else {
            if p.1 == c && lo <= p.0 && p.0 <= hi {
                v.push(p.0);
            }
            let ghost v1 = v@;
            if q.1 == c && lo <= q.0 && q.0 <= hi {
                v.push(q.0);
            }
            proof {
                assert forall|x: i32| v@.contains(x) <==> (v0.contains(x) || stop_of(edges@[i as int], vertical, c, lo, hi, x)) by {
                    lemma_contains_push(v0, p.0, x);
                    lemma_contains_push(v1, q.0, x);
                }
            }
        }
        proof {
            assert forall|x: i32| v@.contains(x) <==> exists|k: int| 0 <= k < i + 1 && #[trigger] stop_of(edges@[k], vertical, c, lo, hi, x) by {
                if v0.contains(x) {
                    let k = choose|k: int| 0 <= k < i && #[trigger] stop_of(edges@[k], vertical, c, lo, hi, x);
                    assert(0 <= k < i + 1 && stop_of(edges@[k], vertical, c, lo, hi, x));
                } else if v@.contains(x) {
                    assert(stop_of(edges@[i as int], vertical, c, lo, hi, x));
                }
                if exists|k: int| 0 <= k < i + 1 && #[trigger] stop_of(edges@[k], vertical, c, lo, hi, x) {
                    let k = choose|k: int| 0 <= k < i + 1 && #[trigger] stop_of(edges@[k], vertical, c, lo, hi, x);
                    if k < i {
                        assert(v0.contains(x));
                    }
                }
            }
        }
        i += 1;
    }
    let s = sort_dedup(v.as_slice());
    proof {
        let t = sorted_stops(edges@, vertical, c, lo, hi);
        assert(strictly_sorted(t) && forall|x: i32|
            t.contains(x) <==> exists|k: int| 0 <= k < edges@.len() && #[trigger] stop_of(edges@[k], vertical, c, lo, hi, x));
        lemma_sorted_unique(s@, t);
    }
    s
}

/// The directed wall of one run `(lo, hi, net)` at coordinate `c`, interior on the left of
/// travel: a run of net `+1` is a left (bottom) wall, one of `-1` a right (top) wall, and
/// any other run gives none.
pub open spec fn run_edge(r: (i32, i32, i128), c: i32, vertical: bool) -> Seq<((i32, i32), (i32, i32))> {
    let (lo, hi, net) = r;
    if net == 1 {
        if vertical { seq![((c, hi), (c, lo))] } else { seq![((lo, c), (hi, c))] }
    } else if net == -1 {
        if vertical { seq![((c, lo), (c, hi))] } else { seq![((hi, c), (lo, c))] }
    } else {
        Seq::empty()
    }
}

/// The directed walls of a list of runs at coordinate `c`, in order.
pub open spec fn run_edges(runs: Seq<(i32, i32, i128)>, c: i32, vertical: bool) -> Seq<((i32, i32), (i32, i32))>
    decreases runs.len(),
{
    if runs.len() == 0 {
        Seq::empty()
    } else {
        run_edges(runs.drop_last(), c, vertical) + run_edge(runs.last(), c, vertical)
    }
}

/// The directed walls at coordinates `cs`, coordinate `cs[j]` having the runs `rs[j]`.
pub open spec fn wall_edges(cs: Seq<i32>, rs: Seq<Seq<(i32, i32, i128)>>, vertical: bool) -> Seq<((i32, i32), (i32, i32))>
    decreases cs.len(),
{
    if cs.len() == 0 || rs.len() == 0 {
        Seq::empty()
    } else {
        wall_edges(cs.drop_last(), rs.drop_last(), vertical) + run_edges(rs.last(), cs.last(), vertical)
    }
}

/// `out` is the directed boundary of the walls `(coordinate, lo, hi, sign)`: for each
/// distinct wall coordinate in increasing order, the walls of the maximal runs of net
/// signed coverage there.
pub open spec fn union_boundary(walls: Seq<(i32, i32, i32, i32)>, vertical: bool, out: Seq<((i32, i32), (i32, i32))>) -> bool {
    exists|cs: Seq<i32>, rs: Seq<Seq<(i32, i32, i128)>>|
        #[trigger] wall_edges(cs, rs, vertical) == out && strictly_sorted(cs) && (forall|x: i32|
            cs.contains(x) <==> walls.map_values(|w: (i32, i32, i32, i32)| w.0).contains(x)) && rs.len() == cs.len() && (forall|j: int|
            0 <= j < cs.len() ==> runs_of(#[trigger] rs[j], walls_at_spec(walls, cs[j])))
}

/// Directed boundary walls of the union, interior on the left of travel: per distinct
/// wall coordinate (ascending), the maximal runs of net coverage `+1` or `-1`.
fn union_walls(walls: &Vec<(i32, i32, i32, i32)>, vertical: bool, edges: &mut Vec<((i32, i32), (i32, i32))>)
    requires
        forall|i: int| 0 <= i < walls@.len() ==> (#[trigger] walls@[i]).3 == 1 || walls@[i].3 == -1,
    ensures
        final(edges)@.len() >= old(edges)@.len(),
        final(edges)@.take(old(edges)@.len() as int) == old(edges)@,
        union_boundary(walls@, vertical, final(edges)@.skip(old(edges)@.len() as int)),
{
    let mut cs: Vec<i32> = Vec::new();
    let mut i: usize = 0;
    while i < walls.len()
        invariant
            i <= walls@.len(),
            cs@ == walls@.take(i as int).map_values(|w: (i32, i32, i32, i32)| w.0),
        decreases walls@.len() - i,
    {
        cs.push(walls[i].0);
        proof {
            assert(walls@.take(i + 1) =~= walls@.take(i as int).push(walls@[i as int]));
            assert(cs@ =~= walls@.take(i + 1).map_values(|w: (i32, i32, i32, i32)| w.0));
        }
        i += 1;
    }
    proof {
        assert(walls@.take(walls@.len() as int) =~= walls@);
    }
    let cs = sort_dedup(cs.as_slice());
    let ghost e0 = edges@;
    let ghost mut rs: Seq<Seq<(i32, i32, i128)>> = Seq::empty();
    let mut j: usize = 0;
    while j < cs.len()
        invariant
            j <= cs@.len(),
            forall|i: int| 0 <= i < walls@.len() ==> (#[trigger] walls@[i]).3 == 1 || walls@[i].3 == -1,
            rs.len() == j,
            forall|t: int| 0 <= t < j ==> runs_of(#[trigger] rs[t], walls_at_spec(walls@, cs@[t])),
            edges@ == e0 + wall_edges(cs@.take(j as int), rs, vertical),
        decreases cs@.len() - j,
    {
        let c = cs[j];
        let iv = walls_at(walls, c);
        let runs = signed_runs(iv.as_slice());
        let ghost e1 = edges@;
        let mut k: usize = 0;
        while k < runs.len()
            invariant
                k <= runs@.len(),
                edges@ == e1 + run_edges(runs@.take(k as int), c, vertical),
            decreases runs@.len() - k,
        {
            let (lo, hi, net) = runs[k];
            let ghost before = edges@;
            if vertical {
                if net == 1 {
                    // union left wall: interior to the east → travel south
                    edges.push(((c, hi), (c, lo)));
                } else if net == -1 {
                    // union right wall: interior to the west → travel north
                    edges.push(((c, lo), (c, hi)));
                }
            } else {
                if net == 1 {
                    // union bottom wall: interior to the north → travel east
                    edges.push(((lo, c), (hi, c)));
                } else if net == -1 {
                    // union top wall: interior to the south → travel west
                    edges.push(((hi, c), (lo, c)));
                }
            }
            proof {
                assert(runs@.take(k + 1).drop_last() =~= runs@.take(k as int));
                assert(runs@.take(k + 1).last() == runs@[k as int]);
                assert(edges@ =~= before + run_edge(runs@[k as int], c, vertical));
                assert(edges@ =~= e1 + run_edges(runs@.take(k + 1), c, vertical));
            }
            k += 1;
        }
        proof {
            assert(runs@.take(runs@.len() as int) =~= runs@);
            let rs2 = rs.push(runs@);
            assert(cs@.take(j + 1).drop_last() =~= cs@.take(j as int));
            assert(rs2.drop_last() =~= rs);
            assert(wall_edges(cs@.take(j + 1), rs2, vertical) == wall_edges(cs@.take(j as int), rs, vertical) + run_edges(runs@, c, vertical));
            assert(edges@ =~= e0 + wall_edges(cs@.take(j + 1), rs2, vertical));
            rs = rs2;
        }
        j += 1;
    }
    proof {
        assert(cs@.take(cs@.len() as int) =~= cs@);
        assert(edges@.take(e0.len() as int) =~= e0);
        assert(edges@.skip(e0.len() as int) =~= wall_edges(cs@, rs, vertical));
        assert(union_boundary(walls@, vertical, edges@.skip(e0.len() as int)));
    }
}

/// Every ring is closed (first point == last) and has at least four points.
pub open spec fn rings_closed(rings: Seq<Vec<(i32, i32)>>) -> bool {
    forall|i: int| 0 <= i < rings.len() ==> (#[trigger] rings[i])@.len() >= 4 && rings[i]@[0] == rings[i]@[rings[i]@.len() - 1]
}

/// A directed edge between two points.
pub type Edge = ((i32, i32), (i32, i32));

/// Two strictly increasing lists with the same elements are the same list.
proof fn lemma_sorted_unique(a: Seq<i32>, b: Seq<i32>)
    requires
        strictly_sorted(a),
        strictly_sorted(b),
        forall|x: i32| a.contains(x) <==> b.contains(x),
    ensures
        a == b,
    decreases a.len(),
{
    if a.len() == 0 {
        if b.len() > 0 {
            assert(b.contains(b[0]));
        }
        assert(a =~= b);
    } else {
        assert(a.contains(a[0]));
        assert(b.contains(b[0]));
        let i = choose|i: int| 0 <= i < a.len() && a[i] == b[0];
        let j = choose|j: int| 0 <= j < b.len() && b[j] == a[0];
        assert(a[0] == b[0]) by {
            if i > 0 {
                assert(a[0] < a[i]);
            }
            if j > 0 {
                assert(b[0] < b[j]);
            }
        }
        let (a1, b1) = (a.drop_first(), b.drop_first());
        assert forall|x: i32| a1.contains(x) <==> b1.contains(x) by {
            if a1.contains(x) {
                let k = choose|k: int| 0 <= k < a1.len() && a1[k] == x;
                assert(a[k + 1] == x && a[0] < a[k + 1]);
                assert(b.contains(x));
                let t = choose|t: int| 0 <= t < b.len() && b[t] == x;
                assert(t > 0);
                assert(b1[t - 1] == x);
            }
            if b1.contains(x) {
                let k = choose|k: int| 0 <= k < b1.len() && b1[k] == x;
                assert(b[k + 1] == x && b[0] < b[k + 1]);
                assert(a.contains(x));
                let t = choose|t: int| 0 <= t < a.len() && a[t] == x;
                assert(t > 0);
                assert(a1[t - 1] == x);
            }
        }
        lemma_sorted_unique(a1, b1);
        assert(a =~= b) by {
            assert forall|k: int| 0 <= k < a.len() implies a[k] == b[k] by {
                if k > 0 {
                    assert(a[k] == a1[k - 1]);
                    assert(b[k] == b1[k - 1]);
                }
            }
        }
    }
}

/// The rectangles' vertical walls `(x, ylo, yhi, sign)`: each rectangle with area gives
/// its left edge (`+1`) and right edge (`-1`).
pub open spec fn vwalls_of(rects: Seq<Rect>) -> Seq<(i32, i32, i32, i32)>
    decreases rects.len(),
{
    if rects.len() == 0 {
        Seq::empty()
    } else {
        let r = rects.last();
        vwalls_of(rects.drop_last()) + if r.x0 == r.x1 || r.y0 == r.y1 {
            Seq::empty()
        } else {
            seq![(r.x0, r.y0, r.y1, 1i32), (r.x1, r.y0, r.y1, -1i32)]
        }
    }
}

/// The rectangles' horizontal walls `(y, xlo, xhi, sign)`: each rectangle with area gives
/// its bottom edge (`+1`) and top edge (`-1`).
pub open spec fn hwalls_of(rects: Seq<Rect>) -> Seq<(i32, i32, i32, i32)>
    decreases rects.len(),
{
    if rects.len() == 0 {
        Seq::empty()
    } else {
        let r = rects.last();
        hwalls_of(rects.drop_last()) + if r.x0 == r.x1 || r.y0 == r.y1 {
            Seq::empty()
        } else {
            seq![(r.y0, r.x0, r.x1, 1i32), (r.y1, r.x0, r.x1, -1i32)]
        }
    }
}

/// The stops of a line among the endpoints of `edges`, increasing (see [`stop_of`]).
pub open spec fn sorted_stops(edges: Seq<Edge>, vertical: bool, c: i32, lo: i32, hi: i32) -> Seq<i32> {
    choose|s: Seq<i32>|
        strictly_sorted(s) && forall|x: i32|
            s.contains(x) <==> exists|k: int| 0 <= k < edges.len() && #[trigger] stop_of(edges[k], vertical, c, lo, hi, x)
}

/// Edge `e` cut at every stop on it among the endpoints of `all`, each piece keeping
/// `e`'s direction.
pub open spec fn split_edge(e: Edge, all: Seq<Edge>) -> Seq<Edge> {
    let (a, b) = e;
    if a.0 == b.0 {
        let ys = sorted_stops(all, true, a.0, if a.1 <= b.1 { a.1 } else { b.1 }, if a.1 <= b.1 { b.1 } else { a.1 });
        if ys.len() < 2 {
            Seq::empty()
        } else {
            Seq::new(
                (ys.len() - 1) as nat,
                |w: int| if b.1 > a.1 { ((a.0, ys[w]), (a.0, ys[w + 1])) } else { ((a.0, ys[w + 1]), (a.0, ys[w])) },
            )
        }
    } else {
        let xs = sorted_stops(all, false, a.1, if a.0 <= b.0 { a.0 } else { b.0 }, if a.0 <= b.0 { b.0 } else { a.0 });
        if xs.len() < 2 {
            Seq::empty()
        } else {
            Seq::new(
                (xs.len() - 1) as nat,
                |w: int| if b.0 > a.0 { ((xs[w], a.1), (xs[w + 1], a.1)) } else { ((xs[w + 1], a.1), (xs[w], a.1)) },
            )
        }
    }
}

/// The pieces of every edge of `es`, in order, cut at the endpoints of `all`.
pub open spec fn units_of(es: Seq<Edge>, all: Seq<Edge>) -> Seq<Edge>
    decreases es.len(),
{
    if es.len() == 0 {
        Seq::empty()
    } else {
        units_of(es.drop_last(), all) + split_edge(es.last(), all)
    }
}

/// The sign of `b - a`.
pub open spec fn sgn(a: i32, b: i32) -> i32 {
    if b > a {
        1
    } else if b < a {
        -1i32
    } else {
        0
    }
}

/// The direction of travel from `a` to `b`.
pub open spec fn dir_spec(a: (i32, i32), b: (i32, i32)) -> (i32, i32) {
    (sgn(a.0, b.0), sgn(a.1, b.1))
}

/// Among the first `c` pieces, the unused one starting at `p` whose direction ranks best
/// after `din` (the first of equal rank), with its rank; `(None, 5)` where there is none.
pub open spec fn pick(units: Seq<Edge>, used: Seq<bool>, p: (i32, i32), din: (i32, i32), c: int) -> (Option<int>, i32)
    decreases c,
{
    if c <= 0 {
        (None, 5)
    } else {
        let (next, best) = pick(units, used, p, din, c - 1);
        let u = units[c - 1];
        if !used[c - 1] && u.0 == p && turn_rank_spec(din, dir_spec(u.0, u.1)) < best {
            (Some(c - 1), turn_rank_spec(din, dir_spec(u.0, u.1)))
        } else {
            (next, best)
        }
    }
}

/// The walk from unused piece `ei`: mark it used, take its start point, and go on along
/// the best unused piece leaving its end, until there is none.
pub open spec fn walk_spec(units: Seq<Edge>, used: Seq<bool>, ei: int, ring: Seq<(i32, i32)>) -> (Seq<bool>, Seq<(i32, i32)>)
    decreases count_false(used),
{
    if 0 <= ei < used.len() && !used[ei] && used.len() == units.len() {
        let used2 = used.update(ei, true);
        let u = units[ei];
        proof {
            lemma_count_false_set(used, ei);
        }
        match pick(units, used2, u.1, dir_spec(u.0, u.1), units.len() as int).0 {
            Some(m) => walk_spec(units, used2, m, ring.push(u.0)),
            None => (used2, ring.push(u.0)),
        }
    } else {
        (used, ring)
    }
}

/// The rings traced from every piece from `start` on that is still unused, each closed,
/// simplified, and kept when it has at least four points.
pub open spec fn trace_from(units: Seq<Edge>, used: Seq<bool>, start: int, rings: Seq<Seq<(i32, i32)>>) -> Seq<Seq<(i32, i32)>>
    decreases units.len() - start,
{
    if start < 0 || start >= units.len() || used.len() != units.len() {
        rings
    } else if used[start] {
        trace_from(units, used, start + 1, rings)
    } else {
        let (used2, ring) = walk_spec(units, used, start, Seq::empty());
        let r = simplify_spec(if ring.len() > 0 { ring.push(ring[0]) } else { ring });
        trace_from(units, used2, start + 1, if r.len() >= 4 { rings.push(r) } else { rings })
    }
}

/// The rings traced from the directed boundary walls `ev` (vertical) and `eh`
/// (horizontal): the walls cut at every vertex, then stitched head to tail.
pub open spec fn contours_of(ev: Seq<Edge>, eh: Seq<Edge>) -> Seq<Seq<(i32, i32)>> {
    let units = units_of(ev + eh, ev + eh);
    trace_from(units, Seq::new(units.len(), |i: int| false), 0, Seq::empty())
}

/// The points of each ring.
pub open spec fn ring_views(rings: Seq<Vec<(i32, i32)>>) -> Seq<Seq<(i32, i32)>> {
    rings.map_values(|r: Vec<(i32, i32)>| r@)
}

/// Trace the boundary of the union of `rects` into closed, oriented rings.
/// Each ring is closed (first point == last). For corner-ordered rectangles that overlap
/// nowhere in area, the rings read in their direction wind once around each covered cell
/// and nowhere else, so outer rings run counter-clockwise and holes clockwise; and each
/// ring has axis-parallel steps between distinct points and only true corners; their
/// shoelace sums add up to twice the rectangles' total area.
pub fn trace_contours(rects: &[Rect]) -> (rings: Vec<Vec<(i32, i32)>>)
    ensures
        rings_closed(rings@),
        exists|ev: Seq<Edge>, eh: Seq<Edge>|
            union_boundary(vwalls_of(rects@), true, ev) && union_boundary(hwalls_of(rects@), false, eh) && ring_views(rings@)
                == #[trigger] contours_of(ev, eh),
        tiles_ok(rects@) ==> forall|x: int, y: int| #[trigger] rings_w(ring_views(rings@), x, y) == ind(covers(rects@, x, y)),
        tiles_ok(rects@) ==> forall|i: int| 0 <= i < rings@.len() ==> #[trigger] ring_shape(rings@[i]@),
        tiles_ok(rects@) ==> rings_area2(ring_views(rings@)) == 2 * rects_area(rects@),
{
    // --- 1. boundary walls as directed maximal segments -----------------------
    let mut vwalls: Vec<(i32, i32, i32, i32)> = Vec::new(); // (x, ylo, yhi, sign)
    let mut hwalls: Vec<(i32, i32, i32, i32)> = Vec::new(); // (y, xlo, xhi, sign)
    let mut i: usize = 0;
    while i < rects.len()
        invariant
            i <= rects@.len(),
            vwalls@ == vwalls_of(rects@.take(i as int)),
            hwalls@ == hwalls_of(rects@.take(i as int)),
            forall|k: int| 0 <= k < vwalls@.len() ==> (#[trigger] vwalls@[k]).3 == 1 || vwalls@[k].3 == -1,
            forall|k: int| 0 <= k < hwalls@.len() ==> (#[trigger] hwalls@[k]).3 == 1 || hwalls@[k].3 == -1,
        decreases rects@.len() - i,
    {
        let r = rects[i];
        proof {
            assert(rects@.take(i + 1).drop_last() =~= rects@.take(i as int));
            assert(rects@.take(i + 1).last() == r);
        }
        if !(r.x0 == r.x1 || r.y0 == r.y1) {
            vwalls.push((r.x0, r.y0, r.y1, 1)); // left edge
            vwalls.push((r.x1, r.y0, r.y1, -1)); // right edge
            hwalls.push((r.y0, r.x0, r.x1, 1)); // bottom edge
            hwalls.push((r.y1, r.x0, r.x1, -1)); // top edge
        }
        proof {
            assert(vwalls@ =~= vwalls_of(rects@.take(i + 1)));
            assert(hwalls@ =~= hwalls_of(rects@.take(i + 1)));
        }
        i += 1;
    }
    proof {
        assert(rects@.take(rects@.len() as int) =~= rects@);
    }
    let mut edges: Vec<Edge> = Vec::new(); // directed (from, to)
    union_walls(&vwalls, true, &mut edges);
    let ghost ev = edges@;
    proof {
        assert(edges@.skip(0) =~= edges@);
    }
    union_walls(&hwalls, false, &mut edges);
    let ghost eh = edges@.skip(ev.len() as int);
    proof {
        assert(edges@ =~= ev + eh);
    }

    // --- 2. split every segment at all vertices, then stitch ------------------
    let mut units: Vec<Edge> = Vec::new();
    let mut e: usize = 0;
    while e < edges.len()
        invariant
            e <= edges@.len(),
            units@ == units_of(edges@.take(e as int), edges@),
            forall|k: int| 0 <= k < e ==> #[trigger] stops_ok(edges@, edges@[k]),
        decreases edges@.len() - e,
    {
        let (a, b) = edges[e];
        let ghost base = units@;
        let ghost pieces = split_edge(edges@[e as int], edges@);
        if a.0 == b.0 {
            // vertical: vertices on this column between a.y and b.y
            let x = a.0;
            let (lo, hi) = (if a.1 <= b.1 { a.1 } else { b.1 }, if a.1 <= b.1 { b.1 } else { a.1 });
            let ys = stops_on(&edges, true, x, lo, hi);
            proof {
                assert(lo == imin(a.1 as int, b.1 as int) as i32 && hi == imax(a.1 as int, b.1 as int) as i32);
                assert(stops_good(edges@, true, x, lo, hi));
                assert(stops_ok(edges@, edges@[e as int]));
            }
            let going_up = b.1 > a.1;
            let mut w: usize = 1;
            while w < ys.len()
                invariant
                    w >= 1,
                    ys@.len() < 2 ==> w == 1,
                    ys@.len() >= 2 ==> w <= ys@.len(),
                    ys@ == sorted_stops(edges@, true, x, lo, hi),
                    pieces == split_edge((a, b), edges@),
                    a.0 == b.0,
                    x == a.0,
                    lo == (if a.1 <= b.1 { a.1 } else { b.1 }),
                    hi == (if a.1 <= b.1 { b.1 } else { a.1 }),
                    going_up == (b.1 > a.1),
                    units@ == base + pieces.take(w - 1),
                decreases ys@.len() - w,
            {
                if going_up {
                    units.push(((x, ys[w - 1]), (x, ys[w])));
                } else {
                    units.push(((x, ys[w]), (x, ys[w - 1])));
                }
                proof {
                    assert(units@ =~= base + pieces.take(w as int));
                }
                w += 1;
            }
            proof {
                if ys@.len() >= 2 {
                    assert(pieces.take(w - 1) =~= pieces);
                } else {
                    assert(pieces.take(0) =~= pieces);
                }
            }
        } else {
            let y = a.1;
            let (lo, hi) = (if a.0 <= b.0 { a.0 } else { b.0 }, if a.0 <= b.0 { b.0 } else { a.0 });
            let xs = stops_on(&edges, false, y, lo, hi);
            proof {
                assert(lo == imin(a.0 as int, b.0 as int) as i32 && hi == imax(a.0 as int, b.0 as int) as i32);
                assert(stops_good(edges@, false, y, lo, hi));
                assert(stops_ok(edges@, edges@[e as int]));
            }
            let going_right = b.0 > a.0;
            let mut w: usize = 1;
            while w < xs.len()
                invariant
                    w >= 1,
                    xs@.len() < 2 ==> w == 1,
                    xs@.len() >= 2 ==> w <= xs@.len(),
                    xs@ == sorted_stops(edges@, false, y, lo, hi),
                    pieces == split_edge((a, b), edges@),
                    a.0 != b.0,
                    y == a.1,
                    lo == (if a.0 <= b.0 { a.0 } else { b.0 }),
                    hi == (if a.0 <= b.0 { b.0 } else { a.0 }),
                    going_right == (b.0 > a.0),
                    units@ == base + pieces.take(w - 1),
                decreases xs@.len() - w,
            {
                if going_right {
                    units.push(((xs[w - 1], y), (xs[w], y)));
                } else {
                    units.push(((xs[w], y), (xs[w - 1], y)));
                }
                proof {
                    assert(units@ =~= base + pieces.take(w as int));
                }
                w += 1;
            }
            proof {
                if xs@.len() >= 2 {
                    assert(pieces.take(w - 1) =~= pieces);
                } else {
                    assert(pieces.take(0) =~= pieces);
                }
            }
        }
        proof {
            assert(edges@.take(e + 1).drop_last() =~= edges@.take(e as int));
            assert(edges@.take(e + 1).last() == edges@[e as int]);
            assert(units@ =~= units_of(edges@.take(e + 1), edges@));
        }
        e += 1;
    }
    proof {
        assert(edges@.take(edges@.len() as int) =~= edges@);
    }

    let nu = units.len();
    let mut used: Vec<bool> = Vec::new();
    let mut z: usize = 0;
    while z < nu
        invariant
            z <= nu,
            used@.len() == z,
            forall|k: int| 0 <= k < z ==> !(#[trigger] used@[k]),
        decreases nu - z,
    {
        used.push(false);
        z += 1;
    }
    let mut remaining: usize = nu;
    proof {
        lemma_count_false_all(used@);
        assert(used@ =~= Seq::new(units@.len(), |i: int| false));
    }
    let ghost target = contours_of(ev, eh);

    let mut rings: Vec<Vec<(i32, i32)>> = Vec::new();
    let mut start: usize = 0;
    proof {
        assert(ring_views(rings@) =~= Seq::<Seq<(i32, i32)>>::empty());
    }
    while start < nu
        invariant
            start <= nu,
            nu == units@.len(),
            used@.len() == nu,
            remaining == count_false(used@),
            rings_closed(rings@),
            trace_from(units@, used@, start as int, ring_views(rings@)) == target,
        decreases nu - start,
    {
        if !used[start] {
            let ghost used_s = used@;
            let mut ring: Vec<(i32, i32)> = Vec::new();
            let mut ei: usize = start;
            loop
                invariant_except_break
                    !used@[ei as int],
                    walk_spec(units@, used_s, start as int, Seq::empty()) == walk_spec(units@, used@, ei as int, ring@),
                invariant
                    nu == units@.len(),
                    used@.len() == nu,
                    ei < nu,
                    remaining == count_false(used@),
                ensures
                    walk_spec(units@, used_s, start as int, Seq::empty()) == (used@, ring@),
                decreases remaining,
            {
                proof {
                    lemma_count_false_set(used@, ei as int);
                }
                used.set(ei, true);
                remaining = remaining - 1;
                let (e0, e1) = units[ei];
                ring.push(e0);
                let din = dir(e0, e1);
                // pick the sharpest-left unused outgoing edge at e1
                let mut next: Option<usize> = None;
                let mut best: i32 = 5;
                let mut c: usize = 0;
                while c < nu
                    invariant
                        c <= nu,
                        nu == units@.len(),
                        used@.len() == nu,
                        -1 <= din.0 <= 1,
                        -1 <= din.1 <= 1,
                        match next {
                            Some(m) => m < nu && !used@[m as int],
                            None => true,
                        },
                        pick(units@, used@, e1, din, c as int) == (
                        match next {
                            Some(m) => Some(m as int),
                            None => None::<int>,
                        },
                        best),
                    decreases nu - c,
                {
                    let (c0, c1) = units[c];
                    if !used[c] && c0.0 == e1.0 && c0.1 == e1.1 {
                        let rank = turn_rank(din, dir(c0, c1));
                        if rank < best {
                            best = rank;
                            next = Some(c);
                        }
                    }
                    c += 1;
                }
                match next {
                    Some(m) => {
                        ei = m;
                    },
                    None => {
                        break;  // the ring closes back at `start`
                    },
                }
            }
            let ghost walked = ring@;
            if ring.len() > 0 {
                let first = ring[0];
                ring.push(first);  // close
            }
            proof {
                assert(ring@ == if walked.len() > 0 { walked.push(walked[0]) } else { walked });
            }
            let ring = simplify(ring);
            let ghost rv = ring_views(rings@);
            if ring.len() >= 4 {
                let ghost rr = ring@;
                rings.push(ring);
                proof {
                    assert(ring_views(rings@) =~= rv.push(rr));
                }
            }
        }
        start += 1;
    }
    proof {
        assert(ring_views(rings@) == contours_of(ev, eh));
        if tiles_ok(rects@) {
            lemma_rings_bound_union(rects@, ev, eh);
            lemma_rings_shape(rects@, ev, eh);
            assert forall|i: int| 0 <= i < rings@.len() implies #[trigger] ring_shape(rings@[i]@) by {
                assert(ring_views(rings@)[i] == rings@[i]@);
            }
            let rv = ring_views(rings@);
            assert forall|i: int| 0 <= i < rv.len() implies (#[trigger] rv[i]).len() >= 1 && rv[i][0] == rv[i][rv[i].len() - 1]
                && forall|j: int| 0 <= j < rv[i].len() - 1 ==> #[trigger] step_ok(rv[i], j) by {
                assert(rv[i] == rings@[i]@);
                assert(ring_shape(rings@[i]@));
            }
            lemma_rings_area(rects@, rv);
        }
    }
    rings
}

} // verus!
