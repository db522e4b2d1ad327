//! What the traced rings mean. For corner-ordered rectangles that overlap nowhere in
//! area, the directed walls that [`trace_contours`](crate::contour::trace_contours) finds,
//! the pieces it cuts them into, and the rings it stitches from those pieces are each the
//! oriented boundary of the union: read in their direction, with the interior on the
//! left, they wind once around every covered cell and nowhere else. Every point is left
//! by as many pieces as enter it, so each stitched walk returns to where it began; no
//! walk doubles back; and each kept ring has axis-parallel steps and only true corners.

use vstd::prelude::*;
use crate::geom::{Rect, imin, imax, rcount, covers, ind, lemma_rcount_covers};
use crate::boolean::{VEdge, winding, edge_weight, lemma_winding_concat};
use crate::contour::{Edge, contours_of, kept, cross3, simplify_spec, trace_from, pick, walk_spec, turn_rank_spec, dir_spec, lemma_count_false_set, count_false, sig_at, sig_cov, runs_of, run_edge, run_edges, wall_edges, union_boundary, walls_at_spec, vwalls_of, hwalls_of, sorted_stops, stop_of, split_edge, units_of};
use crate::sort::strictly_sorted;

verus! {

/// The signed vertical edge of a directed segment, counted as an edge of a
/// counter-clockwise ring: `+1` travelling down, `-1` travelling up; a segment that is
/// not vertical gives none.
pub open spec fn seg_vedge(e: Edge) -> Seq<VEdge> {
    let (a, b) = e;
    if a.0 == b.0 && a.1 != b.1 {
        seq![VEdge { x: a.0, ylo: imin(a.1 as int, b.1 as int) as i32, yhi: imax(a.1 as int, b.1 as int) as i32, sign: if b.1 < a.1 { 1i32 } else { -1i32 } }]
    } else {
        Seq::empty()
    }
}

/// The signed vertical edges of a list of directed segments, in order.
pub open spec fn segs_vedges(es: Seq<Edge>) -> Seq<VEdge>
    decreases es.len(),
{
    if es.len() == 0 {
        Seq::empty()
    } else {
        segs_vedges(es.drop_last()) + seg_vedge(es.last())
    }
}

/// Rectangles given corner-ordered (`x0 <= x1`, `y0 <= y1`) that overlap nowhere in
/// area: the input `trace_contours` is meant for.
pub open spec fn tiles_ok(rects: Seq<Rect>) -> bool {
    &&& forall|i: int| 0 <= i < rects.len() ==> (#[trigger] rects[i]).x0 <= rects[i].x1 && rects[i].y0 <= rects[i].y1
    &&& forall|x: int, y: int| #[trigger] rcount(rects, x, y) <= 1
}

/// Signed walls `(c, lo, hi, sign)` at or left of `x`, summed at `y`.
pub open spec fn wsum(ws: Seq<(i32, i32, i32, i32)>, x: int, y: int) -> int
    decreases ws.len(),
{
    if ws.len() == 0 {
        0
    } else {
        let w = ws.last();
        wsum(ws.drop_last(), x, y) + if w.0 <= x { sig_at((w.1, w.2, w.3), y) } else { 0 }
    }
}

/// Signed coverage at `y` of the walls at the columns of `cs` that lie at or left of `x`.
pub open spec fn colsum(cs: Seq<i32>, ws: Seq<(i32, i32, i32, i32)>, x: int, y: int) -> int
    decreases cs.len(),
{
    if cs.len() == 0 {
        0
    } else {
        colsum(cs.drop_last(), ws, x, y) + if cs.last() <= x { sig_cov(walls_at_spec(ws, cs.last()), y) } else { 0 }
    }
}

proof fn lemma_segs_concat(a: Seq<Edge>, b: Seq<Edge>)
    ensures
        segs_vedges(a + b) == segs_vedges(a) + segs_vedges(b),
    decreases b.len(),
{
    if b.len() == 0 {
        assert(a + b =~= a);
        assert(segs_vedges(a) + segs_vedges(b) =~= segs_vedges(a));
    } else {
        lemma_segs_concat(a, b.drop_last());
        assert((a + b).drop_last() =~= a + b.drop_last());
        assert(segs_vedges(a + b) =~= segs_vedges(a) + segs_vedges(b));
    }
}

proof fn lemma_wsum_concat(a: Seq<(i32, i32, i32, i32)>, b: Seq<(i32, i32, i32, i32)>, x: int, y: int)
    ensures
        wsum(a + b, x, y) == wsum(a, x, y) + wsum(b, x, y),
    decreases b.len(),
{
    if b.len() == 0 {
        assert(a + b =~= a);
    } else {
        lemma_wsum_concat(a, b.drop_last(), x, y);
        assert((a + b).drop_last() =~= a + b.drop_last());
    }
}

/// The walls of corner-ordered rectangles, summed at or left of `x`, count the
/// rectangles holding the cell.
proof fn lemma_wsum_rects(rects: Seq<Rect>, x: int, y: int)
    requires
        forall|i: int| 0 <= i < rects.len() ==> (#[trigger] rects[i]).x0 <= rects[i].x1 && rects[i].y0 <= rects[i].y1,
    ensures
        wsum(vwalls_of(rects), x, y) == rcount(rects, x, y),
    decreases rects.len(),
{
    if rects.len() > 0 {
        let r = rects.last();
        let rd = rects.drop_last();
        assert forall|i: int| 0 <= i < rd.len() implies (#[trigger] rd[i]).x0 <= rd[i].x1 && rd[i].y0 <= rd[i].y1 by {
            assert(rd[i] == rects[i]);
        }
        lemma_wsum_rects(rd, x, y);
        assert(r == rects[rects.len() - 1]);
        if r.x0 == r.x1 || r.y0 == r.y1 {
            assert(vwalls_of(rects) =~= vwalls_of(rd));
        } else {
            let pair = seq![(r.x0, r.y0, r.y1, 1i32), (r.x1, r.y0, r.y1, -1i32)];
            assert(vwalls_of(rects) == vwalls_of(rd) + pair);
            lemma_wsum_concat(vwalls_of(rd), pair, x, y);
            let one = seq![(r.x0, r.y0, r.y1, 1i32)];
            assert(pair.drop_last() =~= one);
            assert(one.drop_last() =~= Seq::<(i32, i32, i32, i32)>::empty());
            assert(wsum(Seq::<(i32, i32, i32, i32)>::empty(), x, y) == 0);
            assert(wsum(one, x, y) == if r.x0 <= x { sig_at((r.y0, r.y1, 1i32), y) } else { 0 });
            assert(wsum(pair, x, y) == wsum(one, x, y) + if r.x1 <= x { sig_at((r.y0, r.y1, -1i32), y) } else { 0 });
            assert(rcount(rects, x, y) == rcount(rd, x, y) + if crate::geom::rect_contains(r, x, y) { 1int } else { 0int });
        }
    }
}

/// The walls at column `c` of corner-ordered rectangles have net signed coverage equal
/// to the change in count from column `c - 1` to column `c`.
proof fn lemma_col_rects(rects: Seq<Rect>, c: i32, y: int)
    requires
        forall|i: int| 0 <= i < rects.len() ==> (#[trigger] rects[i]).x0 <= rects[i].x1 && rects[i].y0 <= rects[i].y1,
    ensures
        sig_cov(walls_at_spec(vwalls_of(rects), c), y) == rcount(rects, c as int, y) - rcount(rects, c - 1, y),
    decreases rects.len(),
{
    if rects.len() > 0 {
        let r = rects.last();
        let rd = rects.drop_last();
        assert forall|i: int| 0 <= i < rd.len() implies (#[trigger] rd[i]).x0 <= rd[i].x1 && rd[i].y0 <= rd[i].y1 by {
            assert(rd[i] == rects[i]);
        }
        lemma_col_rects(rd, c, y);
        assert(r == rects[rects.len() - 1]);
        let base = walls_at_spec(vwalls_of(rd), c);
        if r.x0 == r.x1 || r.y0 == r.y1 {
            assert(vwalls_of(rects) =~= vwalls_of(rd));
        } else {
            let w1 = (r.x0, r.y0, r.y1, 1i32);
            let w2 = (r.x1, r.y0, r.y1, -1i32);
            let s1 = vwalls_of(rd).push(w1);
            assert(vwalls_of(rects) =~= s1.push(w2));
            assert(s1.drop_last() =~= vwalls_of(rd));
            let a1 = if r.x0 == c { seq![(r.y0, r.y1, 1i32)] } else { Seq::<(i32, i32, i32)>::empty() };
            let a2 = if r.x1 == c { seq![(r.y0, r.y1, -1i32)] } else { Seq::<(i32, i32, i32)>::empty() };
            assert(walls_at_spec(s1, c) == base + a1);
            assert(s1.push(w2).drop_last() =~= s1);
            assert(s1.push(w2).last() == w2);
            assert(walls_at_spec(vwalls_of(rects), c) == (base + a1) + a2);
            lemma_sig_push(base, a1, y);
            lemma_sig_push(base + a1, a2, y);
        }
    }
}

/// Signed coverage of a list extended by at most one interval.
proof fn lemma_sig_push(a: Seq<(i32, i32, i32)>, b: Seq<(i32, i32, i32)>, t: int)
    requires
        b.len() <= 1,
    ensures
        sig_cov(a + b, t) == sig_cov(a, t) + if b.len() == 1 { sig_at(b[0], t) } else { 0 },
{
    if b.len() == 0 {
        assert(a + b =~= a);
    } else {
        assert((a + b).drop_last() =~= a);
        assert((a + b).last() == b[0]);
    }
}

/// Adding one wall to the walls changes the column sum by that wall's contribution, when
/// its column is listed once.
proof fn lemma_colsum_push(cs: Seq<i32>, ws: Seq<(i32, i32, i32, i32)>, w: (i32, i32, i32, i32), x: int, y: int)
    requires
        strictly_sorted(cs),
    ensures
        colsum(cs, ws.push(w), x, y) == colsum(cs, ws, x, y) + if cs.contains(w.0) && w.0 <= x { sig_at((w.1, w.2, w.3), y) } else { 0 },
    decreases cs.len(),
{
    if cs.len() > 0 {
        let cd = cs.drop_last();
        let c = cs.last();
        assert(strictly_sorted(cd)) by {
            assert forall|i: int, j: int| 0 <= i < j < cd.len() implies cd[i] < cd[j] by {
                assert(cd[i] == cs[i] && cd[j] == cs[j]);
            }
        }
        lemma_colsum_push(cd, ws, w, x, y);
        assert(ws.push(w).drop_last() =~= ws);
        let extra = if w.0 == c { seq![(w.1, w.2, w.3)] } else { Seq::<(i32, i32, i32)>::empty() };
        assert(walls_at_spec(ws.push(w), c) == walls_at_spec(ws, c) + extra);
        lemma_sig_push(walls_at_spec(ws, c), extra, y);
        if cs.contains(w.0) {
            let k = choose|k: int| 0 <= k < cs.len() && cs[k] == w.0;
            if w.0 == c {
                assert(!cd.contains(w.0)) by {
                    if cd.contains(w.0) {
                        let m = choose|m: int| 0 <= m < cd.len() && cd[m] == w.0;
                        assert(cs[m] == cd[m]);
                        assert(cs[m] < cs[cs.len() - 1]);
                    }
                }
            } else {
                assert(k < cs.len() - 1);
                assert(cd[k] == cs[k]);
                assert(cd.contains(w.0));
            }
        } else {
            assert(!cd.contains(w.0)) by {
                if cd.contains(w.0) {
                    let m = choose|m: int| 0 <= m < cd.len() && cd[m] == w.0;
                    assert(cs[m] == cd[m]);
                }
            }
        }
    }
}

/// Summed over columns listed once each that include every wall's column, the walls'
/// signed coverage is their sum.
proof fn lemma_colsum_walls(cs: Seq<i32>, ws: Seq<(i32, i32, i32, i32)>, x: int, y: int)
    requires
        strictly_sorted(cs),
        forall|i: int| 0 <= i < ws.len() ==> cs.contains((#[trigger] ws[i]).0),
    ensures
        colsum(cs, ws, x, y) == wsum(ws, x, y),
    decreases ws.len(),
{
    if ws.len() == 0 {
        lemma_colsum_empty(cs, ws, x, y);
    } else {
        let wd = ws.drop_last();
        assert forall|i: int| 0 <= i < wd.len() implies cs.contains((#[trigger] wd[i]).0) by {
            assert(wd[i] == ws[i]);
        }
        lemma_colsum_walls(cs, wd, x, y);
        assert(wd.push(ws.last()) =~= ws);
        assert(cs.contains(ws[ws.len() - 1].0));
        lemma_colsum_push(cs, wd, ws.last(), x, y);
    }
}

proof fn lemma_colsum_empty(cs: Seq<i32>, ws: Seq<(i32, i32, i32, i32)>, x: int, y: int)
    requires
        ws.len() == 0,
    ensures
        colsum(cs, ws, x, y) == 0,
    decreases cs.len(),
{
    if cs.len() > 0 {
        lemma_colsum_empty(cs.drop_last(), ws, x, y);
        assert(walls_at_spec(ws, cs.last()) =~= Seq::<(i32, i32, i32)>::empty());
    }
}

/// The walls of the first `k` runs at column `c` wind, at `(x, y)`, by the net of the one
/// among them holding `y` (if any, and if `c <= x`).
proof fn lemma_runs_prefix(runs: Seq<(i32, i32, i128)>, ivals: Seq<(i32, i32, i32)>, c: i32, k: int, x: int, y: int)
    requires
        runs_of(runs, ivals),
        forall|t: int| -1 <= #[trigger] sig_cov(ivals, t) <= 1,
        0 <= k <= runs.len(),
    ensures
        winding(segs_vedges(run_edges(runs.take(k), c, true)), x, y) == if c <= x && exists|i: int|
            0 <= i < k && (#[trigger] runs[i]).0 <= y < runs[i].1 {
            sig_cov(ivals, y)
        } else {
            0
        },
    decreases k,
{
    if k > 0 {
        lemma_runs_prefix(runs, ivals, c, k - 1, x, y);
        let r = runs[k - 1];
        assert(runs.take(k).drop_last() =~= runs.take(k - 1));
        assert(runs.take(k).last() == r);
        lemma_segs_concat(run_edges(runs.take(k - 1), c, true), run_edge(r, c, true));
        lemma_winding_concat(segs_vedges(run_edges(runs.take(k - 1), c, true)), segs_vedges(run_edge(r, c, true)), x, y);
        assert(r.0 < r.1 && r.2 != 0);
        let on = r.0 <= y < r.1;
        if on {
            assert(sig_cov(ivals, y) == r.2);
            assert(forall|i: int| 0 <= i < k - 1 ==> !((#[trigger] runs[i]).0 <= y < runs[i].1)) by {
                assert forall|i: int| 0 <= i < k - 1 implies !((#[trigger] runs[i]).0 <= y < runs[i].1) by {
                    assert(runs[i].1 <= runs[k - 1].0);
                }
            }
        }
        let e = run_edge(r, c, true);
        if r.2 == 1 || r.2 == -1 {
            assert(e.len() == 1);
            assert(e.drop_last() =~= Seq::<Edge>::empty());
            assert(segs_vedges(Seq::<Edge>::empty()) =~= Seq::<VEdge>::empty());
            assert(segs_vedges(e) =~= seg_vedge(e.last()));
        } else {
            assert(!on) by {
                if on {
                    assert(-1 <= sig_cov(ivals, y) <= 1);
                }
            }
            assert(segs_vedges(e) =~= Seq::<VEdge>::empty());
        }
        let sv = segs_vedges(e);
        if sv.len() == 1 {
            assert(sv.drop_last() =~= Seq::<VEdge>::empty());
            assert(winding(Seq::<VEdge>::empty(), x, y) == 0);
            assert(winding(sv, x, y) == edge_weight(sv[0], x, y));
        }
        if on {
            assert(runs[k - 1].0 <= y < runs[k - 1].1);
        } else {
            if exists|i: int| 0 <= i < k && (#[trigger] runs[i]).0 <= y < runs[i].1 {
                let i = choose|i: int| 0 <= i < k && (#[trigger] runs[i]).0 <= y < runs[i].1;
                assert(i < k - 1);
            }
        }
    }
}

/// The walls of the runs at column `c` wind, at `(x, y)`, by the signed coverage at `y`
/// when `c <= x`.
proof fn lemma_runs_winding(runs: Seq<(i32, i32, i128)>, ivals: Seq<(i32, i32, i32)>, c: i32, x: int, y: int)
    requires
        runs_of(runs, ivals),
        forall|t: int| -1 <= #[trigger] sig_cov(ivals, t) <= 1,
    ensures
        winding(segs_vedges(run_edges(runs, c, true)), x, y) == if c <= x { sig_cov(ivals, y) } else { 0 },
{
    lemma_runs_prefix(runs, ivals, c, runs.len() as int, x, y);
    assert(runs.take(runs.len() as int) =~= runs);
    if c <= x && sig_cov(ivals, y) != 0 {
        let i = choose|i: int| 0 <= i < runs.len() && (#[trigger] runs[i]).0 <= y < runs[i].1;
        assert(runs[i].0 <= y < runs[i].1);
    }
}

/// The directed walls at all columns wind, at `(x, y)`, by the column sum.
proof fn lemma_wall_edges_winding(cs: Seq<i32>, rs: Seq<Seq<(i32, i32, i128)>>, ws: Seq<(i32, i32, i32, i32)>, x: int, y: int)
    requires
        rs.len() == cs.len(),
        forall|j: int| 0 <= j < cs.len() ==> runs_of(#[trigger] rs[j], walls_at_spec(ws, cs[j])),
        forall|c: i32, t: int| -1 <= #[trigger] sig_cov(walls_at_spec(ws, c), t) <= 1,
    ensures
        winding(segs_vedges(wall_edges(cs, rs, true)), x, y) == colsum(cs, ws, x, y),
    decreases cs.len(),
{
    if cs.len() > 0 {
        let cd = cs.drop_last();
        let rd = rs.drop_last();
        assert forall|j: int| 0 <= j < cd.len() implies runs_of(#[trigger] rd[j], walls_at_spec(ws, cd[j])) by {
            assert(rd[j] == rs[j] && cd[j] == cs[j]);
        }
        lemma_wall_edges_winding(cd, rd, ws, x, y);
        let c = cs.last();
        assert(runs_of(rs[cs.len() - 1], walls_at_spec(ws, cs[cs.len() - 1])));
        lemma_runs_winding(rs.last(), walls_at_spec(ws, c), c, x, y);
        lemma_segs_concat(wall_edges(cd, rd, true), run_edges(rs.last(), c, true));
        lemma_winding_concat(segs_vedges(wall_edges(cd, rd, true)), segs_vedges(run_edges(rs.last(), c, true)), x, y);
    }
}

/// The directed vertical walls of the union of corner-ordered, non-overlapping
/// rectangles — the walls [`trace_contours`](crate::contour::trace_contours) cuts and
/// stitches into rings — are the union's oriented boundary: counted as edges of
/// counter-clockwise rings (interior on the left of travel), they wind once around every
/// covered cell and zero times around every other cell.
pub proof fn lemma_walls_bound_union(rects: Seq<Rect>, ev: Seq<Edge>)
    requires
        tiles_ok(rects),
        union_boundary(vwalls_of(rects), true, ev),
    ensures
        forall|x: int, y: int| #[trigger] winding(segs_vedges(ev), x, y) == ind(covers(rects, x, y)),
{
    let ws = vwalls_of(rects);
    let (cs, rs) = choose|cs: Seq<i32>, rs: Seq<Seq<(i32, i32, i128)>>|
        #[trigger] wall_edges(cs, rs, true) == ev && strictly_sorted(cs) && (forall|x: i32|
            cs.contains(x) <==> ws.map_values(|w: (i32, i32, i32, i32)| w.0).contains(x)) && rs.len() == cs.len() && (forall|j: int|
            0 <= j < cs.len() ==> runs_of(#[trigger] rs[j], walls_at_spec(ws, cs[j])));
    assert forall|c: i32, t: int| -1 <= #[trigger] sig_cov(walls_at_spec(ws, c), t) <= 1 by {
        lemma_col_rects(rects, c, t);
        lemma_rcount_covers(rects, c as int, t);
        lemma_rcount_covers(rects, c - 1, t);
        assert(rcount(rects, c as int, t) <= 1);
        assert(rcount(rects, c - 1, t) <= 1);
    }
    assert forall|i: int| 0 <= i < ws.len() implies cs.contains((#[trigger] ws[i]).0) by {
        let m = ws.map_values(|w: (i32, i32, i32, i32)| w.0);
        assert(m[i] == ws[i].0);
        assert(m.contains(ws[i].0));
    }
    assert forall|x: int, y: int| #[trigger] winding(segs_vedges(ev), x, y) == ind(covers(rects, x, y)) by {
        lemma_wall_edges_winding(cs, rs, ws, x, y);
        lemma_colsum_walls(cs, ws, x, y);
        lemma_wsum_rects(rects, x, y);
        lemma_rcount_covers(rects, x, y);
        assert(rcount(rects, x, y) <= 1);
    }
}


/// The stops that [`split_edge`] cuts `e` at are the sorted, distinct endpoints of `all`
/// on `e`'s line within its extent.
pub open spec fn stops_ok(all: Seq<Edge>, e: Edge) -> bool {
    if e.0.0 == e.1.0 {
        stops_good(all, true, e.0.0, imin(e.0.1 as int, e.1.1 as int) as i32, imax(e.0.1 as int, e.1.1 as int) as i32)
    } else {
        stops_good(all, false, e.0.1, imin(e.0.0 as int, e.1.0 as int) as i32, imax(e.0.0 as int, e.1.0 as int) as i32)
    }
}

/// The stops of the line at `c` (vertical or not) between `lo` and `hi` are sorted,
/// distinct, and exactly the endpoints of `all` there.
pub open spec fn stops_good(all: Seq<Edge>, vertical: bool, c: i32, lo: i32, hi: i32) -> bool {
    let s = sorted_stops(all, vertical, c, lo, hi);
    &&& strictly_sorted(s)
    &&& forall|x: i32| #[trigger] s.contains(x) <==> exists|k: int| 0 <= k < all.len() && #[trigger] stop_of(all[k], vertical, c, lo, hi, x)
}

/// Consecutive stops of a sorted list cover, between them, exactly the span from the
/// first to the `k`-th.
proof fn lemma_pieces_prefix(ys: Seq<i32>, cx: i32, up: bool, k: int, x: int, y: int)
    requires
        strictly_sorted(ys),
        1 <= k <= ys.len(),
    ensures
        winding(
            segs_vedges(Seq::new((k - 1) as nat, |w: int| if up { ((cx, ys[w]), (cx, ys[w + 1])) } else { ((cx, ys[w + 1]), (cx, ys[w])) })),
            x,
            y,
        ) == if cx <= x && ys[0] <= y < ys[k - 1] { if up { -1int } else { 1int } } else { 0int },
    decreases k,
{
    let f = |w: int| if up { ((cx, ys[w]), (cx, ys[w + 1])) } else { ((cx, ys[w + 1]), (cx, ys[w])) };
    let p = Seq::new((k - 1) as nat, f);
    if k == 1 {
        assert(p =~= Seq::<Edge>::empty());
        assert(segs_vedges(p) =~= Seq::<VEdge>::empty());
        assert(winding(Seq::<VEdge>::empty(), x, y) == 0);
    } else {
        lemma_pieces_prefix(ys, cx, up, k - 1, x, y);
        let q = Seq::new((k - 2) as nat, f);
        assert(p.drop_last() =~= q);
        assert(p.last() == f(k - 2));
        let e = f(k - 2);
        assert(ys[k - 2] < ys[k - 1]);
        let sv = seg_vedge(e);
        assert(sv.len() == 1);
        lemma_winding_concat(segs_vedges(q), sv, x, y);
        assert(sv.drop_last() =~= Seq::<VEdge>::empty());
        assert(winding(Seq::<VEdge>::empty(), x, y) == 0);
        assert(winding(sv, x, y) == edge_weight(sv[0], x, y));
        assert(ys[0] <= ys[k - 2]) by {
            if k - 2 > 0 {
                assert(ys[0] < ys[k - 2]);
            }
        }
    }
}

/// Cutting an edge of `all` at its stops keeps its winding.
proof fn lemma_split_winding(e: Edge, all: Seq<Edge>, x: int, y: int)
    requires
        stops_ok(all, e),
        all.contains(e),
    ensures
        winding(segs_vedges(split_edge(e, all)), x, y) == winding(seg_vedge(e), x, y),
{
    let (a, b) = e;
    if a.0 == b.0 {
        let lo = imin(a.1 as int, b.1 as int) as i32;
        let hi = imax(a.1 as int, b.1 as int) as i32;
        let ys = sorted_stops(all, true, a.0, lo, hi);
        assert(lo == (if a.1 <= b.1 { a.1 } else { b.1 }));
        assert(hi == (if a.1 <= b.1 { b.1 } else { a.1 }));
        assert(stops_good(all, true, a.0, lo, hi));
        let k = choose|k: int| 0 <= k < all.len() && all[k] == e;
        assert(stop_of(all[k], true, a.0, lo, hi, lo));
        assert(stop_of(all[k], true, a.0, lo, hi, hi));
        assert(ys.contains(lo) && ys.contains(hi));
        assert forall|z: i32| ys.contains(z) implies lo <= z <= hi by {
            let m = choose|m: int| 0 <= m < all.len() && #[trigger] stop_of(all[m], true, a.0, lo, hi, z);
        }
        if a.1 == b.1 {
            assert forall|i: int| 0 <= i < ys.len() implies ys[i] == lo by {
                assert(ys.contains(ys[i]));
            }
            if ys.len() >= 2 {
                assert(ys[0] < ys[1]);
            }
            assert(seg_vedge(e) =~= Seq::<VEdge>::empty());
            assert(split_edge(e, all) =~= Seq::<Edge>::empty());
            assert(segs_vedges(Seq::<Edge>::empty()) =~= Seq::<VEdge>::empty());
        } else {
            let i0 = choose|i: int| 0 <= i < ys.len() && ys[i] == lo;
            let i1 = choose|i: int| 0 <= i < ys.len() && ys[i] == hi;
            let n = ys.len() as int;
            assert(ys[0] == lo) by {
                if i0 > 0 {
                    assert(ys[0] < ys[i0]);
                    assert(ys.contains(ys[0]));
                }
            }
            assert(ys[n - 1] == hi) by {
                if i1 < n - 1 {
                    assert(ys[i1] < ys[n - 1]);
                    assert(ys.contains(ys[n - 1]));
                }
            }
            assert(n >= 2) by {
                if n < 2 {
                    assert(i0 == 0 && i1 == 0);
                }
            }
            let up = b.1 > a.1;
            lemma_pieces_prefix(ys, a.0, up, n, x, y);
            let f = |w: int| if up { ((a.0, ys[w]), (a.0, ys[w + 1])) } else { ((a.0, ys[w + 1]), (a.0, ys[w])) };
            assert(split_edge(e, all) =~= Seq::new((n - 1) as nat, f));
            let sv = seg_vedge(e);
            assert(sv.drop_last() =~= Seq::<VEdge>::empty());
            assert(winding(Seq::<VEdge>::empty(), x, y) == 0);
            assert(winding(sv, x, y) == edge_weight(sv[0], x, y));
        }
    } else {
        lemma_split_horizontal(e, all);
        assert(seg_vedge(e) =~= Seq::<VEdge>::empty());
    }
}

/// The pieces of a non-vertical edge have no vertical edge.
proof fn lemma_split_horizontal(e: Edge, all: Seq<Edge>)
    requires
        e.0.0 != e.1.0,
    ensures
        segs_vedges(split_edge(e, all)) == Seq::<VEdge>::empty(),
{
    let p = split_edge(e, all);
    lemma_no_vertical(p);
}

/// A list of segments none of which is vertical has no vertical edge.
proof fn lemma_no_vertical(p: Seq<Edge>)
    requires
        forall|i: int| 0 <= i < p.len() ==> (#[trigger] p[i]).0.0 != p[i].1.0 || p[i].0.1 == p[i].1.1,
    ensures
        segs_vedges(p) == Seq::<VEdge>::empty(),
    decreases p.len(),
{
    if p.len() > 0 {
        let pd = p.drop_last();
        assert forall|i: int| 0 <= i < pd.len() implies (#[trigger] pd[i]).0.0 != pd[i].1.0 || pd[i].0.1 == pd[i].1.1 by {
            assert(pd[i] == p[i]);
        }
        lemma_no_vertical(pd);
        assert(p.last() == p[p.len() - 1]);
        assert(segs_vedges(p) =~= Seq::<VEdge>::empty());
    }
}

/// Cutting every edge of `es` (each an edge of `all`) at its stops keeps the winding.
proof fn lemma_units_winding(es: Seq<Edge>, all: Seq<Edge>, x: int, y: int)
    requires
        forall|i: int| 0 <= i < es.len() ==> stops_ok(all, #[trigger] es[i]) && all.contains(es[i]),
    ensures
        winding(segs_vedges(units_of(es, all)), x, y) == winding(segs_vedges(es), x, y),
    decreases es.len(),
{
    if es.len() > 0 {
        let ed = es.drop_last();
        assert forall|i: int| 0 <= i < ed.len() implies stops_ok(all, #[trigger] ed[i]) && all.contains(ed[i]) by {
            assert(ed[i] == es[i]);
        }
        lemma_units_winding(ed, all, x, y);
        let e = es.last();
        assert(stops_ok(all, es[es.len() - 1]) && all.contains(es[es.len() - 1]));
        lemma_split_winding(e, all, x, y);
        lemma_segs_concat(units_of(ed, all), split_edge(e, all));
        lemma_winding_concat(segs_vedges(units_of(ed, all)), segs_vedges(split_edge(e, all)), x, y);
        lemma_winding_concat(segs_vedges(ed), seg_vedge(e), x, y);
    }
}

/// Horizontal walls have no vertical edge.
proof fn lemma_hwalls_flat(cs: Seq<i32>, rs: Seq<Seq<(i32, i32, i128)>>)
    ensures
        segs_vedges(wall_edges(cs, rs, false)) == Seq::<VEdge>::empty(),
    decreases cs.len(),
{
    if cs.len() > 0 && rs.len() > 0 {
        lemma_hwalls_flat(cs.drop_last(), rs.drop_last());
        lemma_runs_flat(rs.last(), cs.last());
        lemma_segs_concat(wall_edges(cs.drop_last(), rs.drop_last(), false), run_edges(rs.last(), cs.last(), false));
        assert(segs_vedges(wall_edges(cs, rs, false)) =~= Seq::<VEdge>::empty());
    }
}

proof fn lemma_runs_flat(runs: Seq<(i32, i32, i128)>, c: i32)
    ensures
        segs_vedges(run_edges(runs, c, false)) == Seq::<VEdge>::empty(),
    decreases runs.len(),
{
    if runs.len() > 0 {
        lemma_runs_flat(runs.drop_last(), c);
        let r = runs.last();
        let e = run_edge(r, c, false);
        lemma_segs_concat(run_edges(runs.drop_last(), c, false), e);
        assert forall|i: int| 0 <= i < e.len() implies (#[trigger] e[i]).0.0 != e[i].1.0 || e[i].0.1 == e[i].1.1 by {}
        lemma_no_vertical(e);
        assert(segs_vedges(run_edges(runs, c, false)) =~= Seq::<VEdge>::empty());
    }
}

/// The pieces [`trace_contours`](crate::contour::trace_contours) stitches into rings —
/// the directed walls of the union cut at every wall endpoint — are still the union's
/// oriented boundary: counted as edges of counter-clockwise rings, they wind once around
/// every covered cell and zero times around every other cell.
pub proof fn lemma_pieces_bound_union(rects: Seq<Rect>, ev: Seq<Edge>, eh: Seq<Edge>)
    requires
        tiles_ok(rects),
        union_boundary(vwalls_of(rects), true, ev),
        union_boundary(hwalls_of(rects), false, eh),
        forall|k: int| 0 <= k < (ev + eh).len() ==> stops_ok(ev + eh, #[trigger] (ev + eh)[k]),
    ensures
        forall|x: int, y: int| #[trigger] winding(segs_vedges(units_of(ev + eh, ev + eh)), x, y) == ind(covers(rects, x, y)),
{
    let all = ev + eh;
    lemma_walls_bound_union(rects, ev);
    let (cs, rs) = choose|cs: Seq<i32>, rs: Seq<Seq<(i32, i32, i128)>>|
        #[trigger] wall_edges(cs, rs, false) == eh && strictly_sorted(cs) && (forall|x: i32|
            cs.contains(x) <==> hwalls_of(rects).map_values(|w: (i32, i32, i32, i32)| w.0).contains(x)) && rs.len() == cs.len()
            && (forall|j: int| 0 <= j < cs.len() ==> runs_of(#[trigger] rs[j], walls_at_spec(hwalls_of(rects), cs[j])));
    lemma_hwalls_flat(cs, rs);
    lemma_segs_concat(ev, eh);
    assert(segs_vedges(all) =~= segs_vedges(ev));
    assert forall|x: int, y: int| #[trigger] winding(segs_vedges(units_of(all, all)), x, y) == ind(covers(rects, x, y)) by {
        assert forall|i: int| 0 <= i < all.len() implies stops_ok(all, #[trigger] all[i]) && all.contains(all[i]) by {}
        lemma_units_winding(all, all, x, y);
        assert(winding(segs_vedges(ev), x, y) == ind(covers(rects, x, y)));
    }
}


/// The signed trace of segment `u` along the line at `c`: for a segment on the vertical
/// line `x == c` (when `vertical`) or the horizontal line `y == c`, the difference of the
/// indicators of `t` lying before its start and before its end; zero for any other
/// segment.
pub open spec fn lval(u: Edge, vertical: bool, c: int, t: int) -> int {
    let (a, b) = u;
    if vertical {
        if a.0 == b.0 && a.0 == c { ind(t < a.1) - ind(t < b.1) } else { 0 }
    } else {
        if a.1 == b.1 && a.1 == c { ind(t < a.0) - ind(t < b.0) } else { 0 }
    }
}

/// The signed traces of a list of segments along the line at `c`, summed.
pub open spec fn lsum(us: Seq<Edge>, vertical: bool, c: int, t: int) -> int
    decreases us.len(),
{
    if us.len() == 0 {
        0
    } else {
        lsum(us.drop_last(), vertical, c, t) + lval(us.last(), vertical, c, t)
    }
}

/// How many segments of `us` start at `w`, less how many end there.
pub open spec fn flow(us: Seq<Edge>, w: (i32, i32)) -> int
    decreases us.len(),
{
    if us.len() == 0 {
        0
    } else {
        flow(us.drop_last(), w) + ind(us.last().0 == w) - ind(us.last().1 == w)
    }
}

/// The segment runs along one axis.
pub open spec fn axis_seg(u: Edge) -> bool {
    u.0.0 == u.1.0 || u.0.1 == u.1.1
}

proof fn lemma_lsum_concat(a: Seq<Edge>, b: Seq<Edge>, vertical: bool, c: int, t: int)
    ensures
        lsum(a + b, vertical, c, t) == lsum(a, vertical, c, t) + lsum(b, vertical, c, t),
    decreases b.len(),
{
    if b.len() == 0 {
        assert(a + b =~= a);
    } else {
        lemma_lsum_concat(a, b.drop_last(), vertical, c, t);
        assert((a + b).drop_last() =~= a + b.drop_last());
    }
}

/// The flow at a point is read off the traces along the two lines through it.
proof fn lemma_flow_traces(us: Seq<Edge>, w: (i32, i32))
    requires
        forall|i: int| 0 <= i < us.len() ==> axis_seg(#[trigger] us[i]),
    ensures
        flow(us, w) == lsum(us, true, w.0 as int, w.1 - 1) - lsum(us, true, w.0 as int, w.1 as int) + lsum(us, false, w.1 as int, w.0 - 1)
            - lsum(us, false, w.1 as int, w.0 as int),
    decreases us.len(),
{
    if us.len() > 0 {
        let ud = us.drop_last();
        assert forall|i: int| 0 <= i < ud.len() implies axis_seg(#[trigger] ud[i]) by {
            assert(ud[i] == us[i]);
        }
        lemma_flow_traces(ud, w);
        assert(axis_seg(us[us.len() - 1]));
    }
}

/// Along a vertical line the traces of the segments are the jump of their winding.
proof fn lemma_lsum_winding(us: Seq<Edge>, c: int, t: int)
    ensures
        lsum(us, true, c, t) == winding(segs_vedges(us), c, t) - winding(segs_vedges(us), c - 1, t),
    decreases us.len(),
{
    if us.len() > 0 {
        let ud = us.drop_last();
        lemma_lsum_winding(ud, c, t);
        let sv = seg_vedge(us.last());
        lemma_winding_concat(segs_vedges(ud), sv, c, t);
        lemma_winding_concat(segs_vedges(ud), sv, c - 1, t);
        assert(winding(Seq::<VEdge>::empty(), c, t) == 0);
        assert(winding(Seq::<VEdge>::empty(), c - 1, t) == 0);
        if sv.len() == 1 {
            assert(sv.drop_last() =~= Seq::<VEdge>::empty());
            assert(winding(sv, c, t) == edge_weight(sv[0], c, t));
            assert(winding(sv, c - 1, t) == edge_weight(sv[0], c - 1, t));
        }
    }
}

/// The pieces of every edge are each along one axis.
proof fn lemma_units_axis(es: Seq<Edge>, all: Seq<Edge>)
    ensures
        forall|i: int| 0 <= i < units_of(es, all).len() ==> axis_seg(#[trigger] units_of(es, all)[i]),
    decreases es.len(),
{
    if es.len() > 0 {
        lemma_units_axis(es.drop_last(), all);
        let a = units_of(es.drop_last(), all);
        let p = split_edge(es.last(), all);
        assert(units_of(es, all) == a + p);
        assert forall|i: int| 0 <= i < (a + p).len() implies axis_seg(#[trigger] (a + p)[i]) by {
            if i >= a.len() {
                assert((a + p)[i] == p[i - a.len()]);
            }
        }
    }
}

/// The walls at row `r` of corner-ordered rectangles have net signed coverage equal to
/// the change in count from row `r - 1` to row `r`.
proof fn lemma_row_rects(rects: Seq<Rect>, r: i32, x: int)
    requires
        forall|i: int| 0 <= i < rects.len() ==> (#[trigger] rects[i]).x0 <= rects[i].x1 && rects[i].y0 <= rects[i].y1,
    ensures
        sig_cov(walls_at_spec(hwalls_of(rects), r), x) == rcount(rects, x, r as int) - rcount(rects, x, r - 1),
    decreases rects.len(),
{
    if rects.len() > 0 {
        let q = rects.last();
        let rd = rects.drop_last();
        assert forall|i: int| 0 <= i < rd.len() implies (#[trigger] rd[i]).x0 <= rd[i].x1 && rd[i].y0 <= rd[i].y1 by {
            assert(rd[i] == rects[i]);
        }
        lemma_row_rects(rd, r, x);
        assert(q == rects[rects.len() - 1]);
        let base = walls_at_spec(hwalls_of(rd), r);
        if q.x0 == q.x1 || q.y0 == q.y1 {
            assert(hwalls_of(rects) =~= hwalls_of(rd));
        } else {
            let w1 = (q.y0, q.x0, q.x1, 1i32);
            let w2 = (q.y1, q.x0, q.x1, -1i32);
            let s1 = hwalls_of(rd).push(w1);
            assert(hwalls_of(rects) =~= s1.push(w2));
            assert(s1.drop_last() =~= hwalls_of(rd));
            let a1 = if q.y0 == r { seq![(q.x0, q.x1, 1i32)] } else { Seq::<(i32, i32, i32)>::empty() };
            let a2 = if q.y1 == r { seq![(q.x0, q.x1, -1i32)] } else { Seq::<(i32, i32, i32)>::empty() };
            assert(walls_at_spec(s1, r) == base + a1);
            assert(s1.push(w2).drop_last() =~= s1);
            assert(s1.push(w2).last() == w2);
            assert(walls_at_spec(hwalls_of(rects), r) == (base + a1) + a2);
            lemma_sig_push(base, a1, x);
            lemma_sig_push(base + a1, a2, x);
        }
    }
}

/// The horizontal walls of the first `k` runs at row `r` trace, along row `r`, minus the
/// net of the one among them holding `x` (if any).
proof fn lemma_hruns_prefix(runs: Seq<(i32, i32, i128)>, ivals: Seq<(i32, i32, i32)>, r: i32, k: int, rr: int, x: int)
    requires
        runs_of(runs, ivals),
        forall|t: int| -1 <= #[trigger] sig_cov(ivals, t) <= 1,
        0 <= k <= runs.len(),
    ensures
        lsum(run_edges(runs.take(k), r, false), false, rr, x) == if rr == r && exists|i: int|
            0 <= i < k && (#[trigger] runs[i]).0 <= x < runs[i].1 {
            -sig_cov(ivals, x)
        } else {
            0
        },
    decreases k,
{
    if k > 0 {
        lemma_hruns_prefix(runs, ivals, r, k - 1, rr, x);
        let q = runs[k - 1];
        assert(runs.take(k).drop_last() =~= runs.take(k - 1));
        assert(runs.take(k).last() == q);
        let e = run_edge(q, r, false);
        lemma_lsum_concat(run_edges(runs.take(k - 1), r, false), e, false, rr, x);
        assert(q.0 < q.1 && q.2 != 0);
        let on = q.0 <= x < q.1;
        if on {
            assert(sig_cov(ivals, x) == q.2);
            assert forall|i: int| 0 <= i < k - 1 implies !((#[trigger] runs[i]).0 <= x < runs[i].1) by {
                assert(runs[i].1 <= runs[k - 1].0);
            }
        }
        if q.2 == 1 || q.2 == -1 {
            assert(e.len() == 1);
            assert(e.drop_last() =~= Seq::<Edge>::empty());
            assert(lsum(Seq::<Edge>::empty(), false, rr, x) == 0);
        } else {
            assert(!on) by {
                if on {
                    assert(-1 <= sig_cov(ivals, x) <= 1);
                }
            }
            assert(e =~= Seq::<Edge>::empty());
        }
        if on {
            assert(runs[k - 1].0 <= x < runs[k - 1].1);
        } else {
            if exists|i: int| 0 <= i < k && (#[trigger] runs[i]).0 <= x < runs[i].1 {
                let i = choose|i: int| 0 <= i < k && (#[trigger] runs[i]).0 <= x < runs[i].1;
                assert(i < k - 1);
            }
        }
    }
}

/// Along row `rr`, the horizontal walls trace minus the net signed coverage of the walls
/// at that row.
proof fn lemma_hwall_lsum(cs: Seq<i32>, rs: Seq<Seq<(i32, i32, i128)>>, ws: Seq<(i32, i32, i32, i32)>, rr: i32, x: int)
    requires
        rs.len() == cs.len(),
        strictly_sorted(cs),
        forall|j: int| 0 <= j < cs.len() ==> runs_of(#[trigger] rs[j], walls_at_spec(ws, cs[j])),
        forall|c: i32, t: int| -1 <= #[trigger] sig_cov(walls_at_spec(ws, c), t) <= 1,
    ensures
        lsum(wall_edges(cs, rs, false), false, rr as int, x) == if cs.contains(rr) { -sig_cov(walls_at_spec(ws, rr), x) } else { 0 },
    decreases cs.len(),
{
    if cs.len() > 0 {
        let cd = cs.drop_last();
        let rd = rs.drop_last();
        let c = cs.last();
        assert(strictly_sorted(cd)) by {
            assert forall|i: int, j: int| 0 <= i < j < cd.len() implies cd[i] < cd[j] by {
                assert(cd[i] == cs[i] && cd[j] == cs[j]);
            }
        }
        assert forall|j: int| 0 <= j < cd.len() implies runs_of(#[trigger] rd[j], walls_at_spec(ws, cd[j])) by {
            assert(rd[j] == rs[j] && cd[j] == cs[j]);
        }
        lemma_hwall_lsum(cd, rd, ws, rr, x);
        let runs = rs.last();
        assert(runs_of(rs[cs.len() - 1], walls_at_spec(ws, cs[cs.len() - 1])));
        lemma_hruns_prefix(runs, walls_at_spec(ws, c), c, runs.len() as int, rr as int, x);
        assert(runs.take(runs.len() as int) =~= runs);
        lemma_lsum_concat(wall_edges(cd, rd, false), run_edges(runs, c, false), false, rr as int, x);
        if c == rr && sig_cov(walls_at_spec(ws, c), x) != 0 {
            let i = choose|i: int| 0 <= i < runs.len() && (#[trigger] runs[i]).0 <= x < runs[i].1;
            assert(runs[i].0 <= x < runs[i].1);
        }
        if cs.contains(rr) {
            if c != rr {
                let k = choose|k: int| 0 <= k < cs.len() && cs[k] == rr;
                assert(k < cs.len() - 1);
                assert(cd[k] == cs[k]);
            }
        }
        if c == rr {
            assert(!cd.contains(rr)) by {
                if cd.contains(rr) {
                    let m = choose|m: int| 0 <= m < cd.len() && cd[m] == rr;
                    assert(cs[m] == cd[m]);
                    assert(cs[m] < cs[cs.len() - 1]);
                }
            }
        }
        if cd.contains(rr) {
            let m = choose|m: int| 0 <= m < cd.len() && cd[m] == rr;
            assert(cs[m] == cd[m]);
        }
    }
}

/// Consecutive stops telescope along a horizontal line.
proof fn lemma_hpieces_prefix(xs: Seq<i32>, cy: i32, right: bool, k: int, rr: int, x: int)
    requires
        strictly_sorted(xs),
        1 <= k <= xs.len(),
    ensures
        lsum(Seq::new((k - 1) as nat, |w: int| if right { ((xs[w], cy), (xs[w + 1], cy)) } else { ((xs[w + 1], cy), (xs[w], cy)) }), false, rr, x)
            == if rr == cy { if right { ind(x < xs[0]) - ind(x < xs[k - 1]) } else { ind(x < xs[k - 1]) - ind(x < xs[0]) } } else { 0 },
    decreases k,
{
    let f = |w: int| if right { ((xs[w], cy), (xs[w + 1], cy)) } else { ((xs[w + 1], cy), (xs[w], cy)) };
    let p = Seq::new((k - 1) as nat, f);
    if k == 1 {
        assert(p =~= Seq::<Edge>::empty());
    } else {
        lemma_hpieces_prefix(xs, cy, right, k - 1, rr, x);
        let q = Seq::new((k - 2) as nat, f);
        assert(p.drop_last() =~= q);
        assert(p.last() == f(k - 2));
    }
}

/// Cutting an edge of `all` at its stops keeps its trace along every horizontal line.
proof fn lemma_split_lsum(e: Edge, all: Seq<Edge>, rr: int, x: int)
    requires
        stops_ok(all, e),
        all.contains(e),
        axis_seg(e),
    ensures
        lsum(split_edge(e, all), false, rr, x) == lval(e, false, rr, x),
{
    let (a, b) = e;
    if a.0 == b.0 {
        let p = split_edge(e, all);
        lemma_lsum_zero(p, rr, x);
    } else {
        let lo = imin(a.0 as int, b.0 as int) as i32;
        let hi = imax(a.0 as int, b.0 as int) as i32;
        let xs = sorted_stops(all, false, a.1, lo, hi);
        assert(lo == (if a.0 <= b.0 { a.0 } else { b.0 }));
        assert(hi == (if a.0 <= b.0 { b.0 } else { a.0 }));
        assert(stops_good(all, false, a.1, lo, hi));
        let k = choose|k: int| 0 <= k < all.len() && all[k] == e;
        assert(stop_of(all[k], false, a.1, lo, hi, lo));
        assert(stop_of(all[k], false, a.1, lo, hi, hi));
        assert(xs.contains(lo) && xs.contains(hi));
        let i0 = choose|i: int| 0 <= i < xs.len() && xs[i] == lo;
        let i1 = choose|i: int| 0 <= i < xs.len() && xs[i] == hi;
        let n = xs.len() as int;
        assert(xs[0] == lo) by {
            if i0 > 0 {
                assert(xs[0] < xs[i0]);
                assert(xs.contains(xs[0]));
                let m = choose|m: int| 0 <= m < all.len() && #[trigger] stop_of(all[m], false, a.1, lo, hi, xs[0]);
            }
        }
        assert(xs[n - 1] == hi) by {
            if i1 < n - 1 {
                assert(xs[i1] < xs[n - 1]);
                assert(xs.contains(xs[n - 1]));
                let m = choose|m: int| 0 <= m < all.len() && #[trigger] stop_of(all[m], false, a.1, lo, hi, xs[n - 1]);
            }
        }
        assert(n >= 2) by {
            if n < 2 {
                assert(i0 == 0 && i1 == 0);
            }
        }
        let right = b.0 > a.0;
        lemma_hpieces_prefix(xs, a.1, right, n, rr, x);
        let f = |w: int| if right { ((xs[w], a.1), (xs[w + 1], a.1)) } else { ((xs[w + 1], a.1), (xs[w], a.1)) };
        assert(split_edge(e, all) =~= Seq::new((n - 1) as nat, f));
    }
}

/// Pieces of a vertical edge trace nothing along horizontal lines.
proof fn lemma_lsum_zero(p: Seq<Edge>, rr: int, x: int)
    requires
        forall|i: int| 0 <= i < p.len() ==> (#[trigger] p[i]).0.0 == p[i].1.0,
    ensures
        lsum(p, false, rr, x) == 0,
    decreases p.len(),
{
    if p.len() > 0 {
        let pd = p.drop_last();
        assert forall|i: int| 0 <= i < pd.len() implies (#[trigger] pd[i]).0.0 == pd[i].1.0 by {
            assert(pd[i] == p[i]);
        }
        lemma_lsum_zero(pd, rr, x);
        assert(p.last() == p[p.len() - 1]);
    }
}

/// Cutting every edge of `es` at its stops keeps the traces along horizontal lines.
proof fn lemma_units_lsum(es: Seq<Edge>, all: Seq<Edge>, rr: int, x: int)
    requires
        forall|i: int| 0 <= i < es.len() ==> stops_ok(all, #[trigger] es[i]) && all.contains(es[i]) && axis_seg(es[i]),
    ensures
        lsum(units_of(es, all), false, rr, x) == lsum(es, false, rr, x),
    decreases es.len(),
{
    if es.len() > 0 {
        let ed = es.drop_last();
        assert forall|i: int| 0 <= i < ed.len() implies stops_ok(all, #[trigger] ed[i]) && all.contains(ed[i]) && axis_seg(ed[i]) by {
            assert(ed[i] == es[i]);
        }
        lemma_units_lsum(ed, all, rr, x);
        assert(stops_ok(all, es[es.len() - 1]) && all.contains(es[es.len() - 1]) && axis_seg(es[es.len() - 1]));
        lemma_split_lsum(es.last(), all, rr, x);
        lemma_lsum_concat(units_of(ed, all), split_edge(es.last(), all), false, rr, x);
    }
}

/// Vertical walls trace nothing along horizontal lines.
proof fn lemma_vwalls_lsum(cs: Seq<i32>, rs: Seq<Seq<(i32, i32, i128)>>, rr: int, x: int)
    ensures
        lsum(wall_edges(cs, rs, true), false, rr, x) == 0,
    decreases cs.len(),
{
    if cs.len() > 0 && rs.len() > 0 {
        lemma_vwalls_lsum(cs.drop_last(), rs.drop_last(), rr, x);
        lemma_vruns_lsum(rs.last(), cs.last(), rr, x);
        lemma_lsum_concat(wall_edges(cs.drop_last(), rs.drop_last(), true), run_edges(rs.last(), cs.last(), true), false, rr, x);
    }
}

proof fn lemma_vruns_lsum(runs: Seq<(i32, i32, i128)>, c: i32, rr: int, x: int)
    ensures
        lsum(run_edges(runs, c, true), false, rr, x) == 0,
    decreases runs.len(),
{
    if runs.len() > 0 {
        lemma_vruns_lsum(runs.drop_last(), c, rr, x);
        let e = run_edge(runs.last(), c, true);
        lemma_lsum_concat(run_edges(runs.drop_last(), c, true), e, false, rr, x);
        assert forall|i: int| 0 <= i < e.len() implies (#[trigger] e[i]).0.0 == e[i].1.0 by {}
        lemma_lsum_zero(e, rr, x);
    }
}

/// Every point of the plane is entered by as many of the pieces as leave it.
pub proof fn lemma_pieces_balanced(rects: Seq<Rect>, ev: Seq<Edge>, eh: Seq<Edge>)
    requires
        tiles_ok(rects),
        union_boundary(vwalls_of(rects), true, ev),
        union_boundary(hwalls_of(rects), false, eh),
        forall|k: int| 0 <= k < (ev + eh).len() ==> stops_ok(ev + eh, #[trigger] (ev + eh)[k]),
    ensures
        forall|w: (i32, i32)| #[trigger] flow(units_of(ev + eh, ev + eh), w) == 0,
{
    let all = ev + eh;
    let us = units_of(all, all);
    lemma_pieces_bound_union(rects, ev, eh);
    lemma_units_axis(all, all);
    let hw = hwalls_of(rects);
    let (cs, rs) = choose|cs: Seq<i32>, rs: Seq<Seq<(i32, i32, i128)>>|
        #[trigger] wall_edges(cs, rs, false) == eh && strictly_sorted(cs) && (forall|x: i32|
            cs.contains(x) <==> hw.map_values(|w: (i32, i32, i32, i32)| w.0).contains(x)) && rs.len() == cs.len()
            && (forall|j: int| 0 <= j < cs.len() ==> runs_of(#[trigger] rs[j], walls_at_spec(hw, cs[j])));
    let (vcs, vrs) = choose|cs: Seq<i32>, rs: Seq<Seq<(i32, i32, i128)>>|
        #[trigger] wall_edges(cs, rs, true) == ev && strictly_sorted(cs) && (forall|x: i32|
            cs.contains(x) <==> vwalls_of(rects).map_values(|w: (i32, i32, i32, i32)| w.0).contains(x)) && rs.len() == cs.len()
            && (forall|j: int| 0 <= j < cs.len() ==> runs_of(#[trigger] rs[j], walls_at_spec(vwalls_of(rects), cs[j])));
    lemma_walls_axis(cs, rs, false);
    lemma_walls_axis(vcs, vrs, true);
    assert forall|c: i32, t: int| -1 <= #[trigger] sig_cov(walls_at_spec(hw, c), t) <= 1 by {
        lemma_row_rects(rects, c, t);
        lemma_rcount_covers(rects, t, c as int);
        lemma_rcount_covers(rects, t, c - 1);
        assert(rcount(rects, t, c as int) <= 1);
        assert(rcount(rects, t, c - 1) <= 1);
    }
    assert forall|w: (i32, i32)| #[trigger] flow(us, w) == 0 by {
        lemma_flow_traces(us, w);
        let (wx, wy) = (w.0 as int, w.1 as int);
        lemma_lsum_winding(us, wx, wy);
        lemma_lsum_winding(us, wx, wy - 1);
        assert forall|i: int| 0 <= i < all.len() implies stops_ok(all, #[trigger] all[i]) && all.contains(all[i]) && axis_seg(all[i]) by {
            if i < ev.len() {
                assert(all[i] == ev[i]);
            } else {
                assert(all[i] == eh[i - ev.len()]);
            }
        }
        lemma_units_lsum(all, all, w.1 as int, wx);
        lemma_units_lsum(all, all, w.1 as int, wx - 1);
        lemma_lsum_concat(ev, eh, false, w.1 as int, wx);
        lemma_lsum_concat(ev, eh, false, w.1 as int, wx - 1);
        lemma_vwalls_lsum(vcs, vrs, w.1 as int, wx);
        lemma_vwalls_lsum(vcs, vrs, w.1 as int, wx - 1);
        lemma_hwall_lsum(cs, rs, hw, w.1, wx);
        lemma_hwall_lsum(cs, rs, hw, w.1, wx - 1);
        lemma_row_rects(rects, w.1, wx);
        lemma_row_rects(rects, w.1, wx - 1);
        if !cs.contains(w.1) {
            lemma_no_walls_at(hw, w.1, cs);
        }
        lemma_rcount_covers(rects, wx, wy);
        lemma_rcount_covers(rects, wx - 1, wy);
        lemma_rcount_covers(rects, wx, wy - 1);
        lemma_rcount_covers(rects, wx - 1, wy - 1);
        assert(rcount(rects, wx, wy) <= 1);
        assert(rcount(rects, wx - 1, wy) <= 1);
        assert(rcount(rects, wx, wy - 1) <= 1);
        assert(rcount(rects, wx - 1, wy - 1) <= 1);
    }
}

/// A row that no wall lies on has no walls there.
proof fn lemma_no_walls_at(ws: Seq<(i32, i32, i32, i32)>, r: i32, cs: Seq<i32>)
    requires
        !cs.contains(r),
        forall|x: i32| cs.contains(x) <==> ws.map_values(|w: (i32, i32, i32, i32)| w.0).contains(x),
    ensures
        walls_at_spec(ws, r) == Seq::<(i32, i32, i32)>::empty(),
{
    lemma_walls_at_none(ws, r);
}

proof fn lemma_walls_at_none(ws: Seq<(i32, i32, i32, i32)>, r: i32)
    requires
        !ws.map_values(|w: (i32, i32, i32, i32)| w.0).contains(r),
    ensures
        walls_at_spec(ws, r) == Seq::<(i32, i32, i32)>::empty(),
    decreases ws.len(),
{
    if ws.len() > 0 {
        let wd = ws.drop_last();
        let md = wd.map_values(|w: (i32, i32, i32, i32)| w.0);
        let mw = ws.map_values(|w: (i32, i32, i32, i32)| w.0);
        assert(!md.contains(r)) by {
            if md.contains(r) {
                let k = choose|k: int| 0 <= k < md.len() && md[k] == r;
                assert(md[k] == wd[k].0 && wd[k] == ws[k]);
                assert(mw[k] == r);
            }
        }
        lemma_walls_at_none(wd, r);
        assert(ws.map_values(|w: (i32, i32, i32, i32)| w.0)[ws.len() - 1] == ws.last().0);
        assert(walls_at_spec(ws, r) =~= Seq::<(i32, i32, i32)>::empty());
    }
}


/// Walls run along one axis.
proof fn lemma_walls_axis(cs: Seq<i32>, rs: Seq<Seq<(i32, i32, i128)>>, vertical: bool)
    ensures
        forall|i: int| 0 <= i < wall_edges(cs, rs, vertical).len() ==> axis_seg(#[trigger] wall_edges(cs, rs, vertical)[i]),
    decreases cs.len(),
{
    if cs.len() > 0 && rs.len() > 0 {
        lemma_walls_axis(cs.drop_last(), rs.drop_last(), vertical);
        lemma_runs_axis(rs.last(), cs.last(), vertical);
        let a = wall_edges(cs.drop_last(), rs.drop_last(), vertical);
        let p = run_edges(rs.last(), cs.last(), vertical);
        assert(wall_edges(cs, rs, vertical) == a + p);
        assert forall|i: int| 0 <= i < (a + p).len() implies axis_seg(#[trigger] (a + p)[i]) by {
            if i >= a.len() {
                assert((a + p)[i] == p[i - a.len()]);
            }
        }
    }
}

proof fn lemma_runs_axis(runs: Seq<(i32, i32, i128)>, c: i32, vertical: bool)
    ensures
        forall|i: int| 0 <= i < run_edges(runs, c, vertical).len() ==> axis_seg(#[trigger] run_edges(runs, c, vertical)[i]),
    decreases runs.len(),
{
    if runs.len() > 0 {
        lemma_runs_axis(runs.drop_last(), c, vertical);
        let a = run_edges(runs.drop_last(), c, vertical);
        let p = run_edge(runs.last(), c, vertical);
        assert(run_edges(runs, c, vertical) == a + p);
        assert forall|i: int| 0 <= i < (a + p).len() implies axis_seg(#[trigger] (a + p)[i]) by {
            if i >= a.len() {
                assert((a + p)[i] == p[i - a.len()]);
            }
        }
    }
}

/// Over the first `k` pieces, the flow at `w` of those marked used.
pub open spec fn ufl(us: Seq<Edge>, used: Seq<bool>, w: (i32, i32), k: int) -> int
    decreases k,
{
    if k <= 0 {
        0
    } else {
        ufl(us, used, w, k - 1) + if used[k - 1] { ind(us[k - 1].0 == w) - ind(us[k - 1].1 == w) } else { 0 }
    }
}

/// Over the first `k` pieces, how many unused ones start at `w`.
pub open spec fn fout(us: Seq<Edge>, used: Seq<bool>, w: (i32, i32), k: int) -> int
    decreases k,
{
    if k <= 0 {
        0
    } else {
        fout(us, used, w, k - 1) + if !used[k - 1] && us[k - 1].0 == w { 1int } else { 0int }
    }
}

/// Over the first `k` pieces, how many unused ones end at `w`.
pub open spec fn fin(us: Seq<Edge>, used: Seq<bool>, w: (i32, i32), k: int) -> int
    decreases k,
{
    if k <= 0 {
        0
    } else {
        fin(us, used, w, k - 1) + if !used[k - 1] && us[k - 1].1 == w { 1int } else { 0int }
    }
}

/// Over the first `k` pieces, the winding at `(x, y)` of those marked used.
pub open spec fn wsel(us: Seq<Edge>, used: Seq<bool>, x: int, y: int, k: int) -> int
    decreases k,
{
    if k <= 0 {
        0
    } else {
        wsel(us, used, x, y, k - 1) + if used[k - 1] { winding(seg_vedge(us[k - 1]), x, y) } else { 0 }
    }
}

/// The winding at `(x, y)` of a path through the points `pts`, segment by segment.
pub open spec fn path_w(pts: Seq<(i32, i32)>, x: int, y: int) -> int
    decreases pts.len(),
{
    if pts.len() < 2 {
        0
    } else {
        winding(seg_vedge((pts[0], pts[1])), x, y) + path_w(pts.drop_first(), x, y)
    }
}

proof fn lemma_flow_split(us: Seq<Edge>, used: Seq<bool>, w: (i32, i32), k: int)
    requires
        0 <= k <= us.len(),
        used.len() == us.len(),
    ensures
        flow(us.take(k), w) == ufl(us, used, w, k) + fout(us, used, w, k) - fin(us, used, w, k),
        fin(us, used, w, k) >= 0,
    decreases k,
{
    if k > 0 {
        lemma_flow_split(us, used, w, k - 1);
        assert(us.take(k).drop_last() =~= us.take(k - 1));
        assert(us.take(k).last() == us[k - 1]);
    } else {
        assert(us.take(0) =~= Seq::<Edge>::empty());
    }
}

proof fn lemma_marks(us: Seq<Edge>, used: Seq<bool>, e: int, w: (i32, i32), x: int, y: int, k: int)
    requires
        used.len() == us.len(),
        0 <= e < us.len(),
        !used[e],
        0 <= k <= us.len(),
    ensures
        ufl(us, used.update(e, true), w, k) == ufl(us, used, w, k) + if e < k { ind(us[e].0 == w) - ind(us[e].1 == w) } else { 0 },
        wsel(us, used.update(e, true), x, y, k) == wsel(us, used, x, y, k) + if e < k { winding(seg_vedge(us[e]), x, y) } else { 0 },
    decreases k,
{
    if k > 0 {
        lemma_marks(us, used, e, w, x, y, k - 1);
    }
}

proof fn lemma_fout_zero(us: Seq<Edge>, used: Seq<bool>, w: (i32, i32), k: int)
    requires
        0 <= k <= us.len(),
        used.len() == us.len(),
        forall|i: int| 0 <= i < k ==> used[i] || (#[trigger] us[i]).0 != w,
    ensures
        fout(us, used, w, k) == 0,
    decreases k,
{
    if k > 0 {
        lemma_fout_zero(us, used, w, k - 1);
    }
}

proof fn lemma_pick(units: Seq<Edge>, used: Seq<bool>, p: (i32, i32), din: (i32, i32), c: int)
    requires
        0 <= c <= units.len(),
        used.len() == units.len(),
    ensures
        match pick(units, used, p, din, c).0 {
            Some(m) => 0 <= m < c && !used[m] && units[m].0 == p,
            None => forall|i: int| 0 <= i < c ==> used[i] || (#[trigger] units[i]).0 != p,
        },
        pick(units, used, p, din, c).1 <= 5,
        pick(units, used, p, din, c).0 is None ==> pick(units, used, p, din, c).1 == 5,
    decreases c,
{
    if c > 0 {
        lemma_pick(units, used, p, din, c - 1);
        let u = units[c - 1];
        assert(turn_rank_spec(din, dir_spec(u.0, u.1)) <= 4);
    }
}

proof fn lemma_wsel_all(us: Seq<Edge>, used: Seq<bool>, x: int, y: int, k: int)
    requires
        0 <= k <= us.len(),
        used.len() == us.len(),
        forall|i: int| 0 <= i < k ==> #[trigger] used[i],
    ensures
        wsel(us, used, x, y, k) == winding(segs_vedges(us.take(k)), x, y),
    decreases k,
{
    if k > 0 {
        lemma_wsel_all(us, used, x, y, k - 1);
        assert(us.take(k).drop_last() =~= us.take(k - 1));
        assert(us.take(k).last() == us[k - 1]);
        lemma_winding_concat(segs_vedges(us.take(k - 1)), seg_vedge(us[k - 1]), x, y);
    } else {
        assert(us.take(0) =~= Seq::<Edge>::empty());
        assert(winding(Seq::<VEdge>::empty(), x, y) == 0);
    }
}

proof fn lemma_path_push_front(a: (i32, i32), q: Seq<(i32, i32)>, x: int, y: int)
    requires
        q.len() >= 1,
    ensures
        path_w(seq![a] + q, x, y) == winding(seg_vedge((a, q[0])), x, y) + path_w(q, x, y),
{
    assert((seq![a] + q).drop_first() =~= q);
}

/// A walk of the pieces from `ei`, when every point is entered as often as it is left,
/// returns to the point `s` the walk began at: it takes the points `q` (the first being
/// where piece `ei` starts), ends back at `s`, and the pieces it marks wind exactly as
/// the path through `q` and back to `s`.
proof fn lemma_walk(units: Seq<Edge>, used: Seq<bool>, ei: int, ring: Seq<(i32, i32)>, s: (i32, i32))
    requires
        used.len() == units.len(),
        0 <= ei < units.len(),
        !used[ei],
        forall|w: (i32, i32)| #[trigger] flow(units, w) == 0,
        forall|w: (i32, i32)| #[trigger] ufl(units, used, w, units.len() as int) == ind(w == s) - ind(w == units[ei].0),
        forall|i: int| 0 <= i < units.len() ==> #[trigger] unit_ok(units[i]),
    ensures
        ({
            let (u2, r2) = walk_spec(units, used, ei, ring);
            &&& u2.len() == units.len()
            &&& forall|w: (i32, i32)| #[trigger] ufl(units, u2, w, units.len() as int) == 0
            &&& r2.len() > ring.len()
            &&& r2.subrange(0, ring.len() as int) == ring
            &&& r2[ring.len() as int] == units[ei].0
            &&& forall|i: int| 0 <= i < units.len() && used[i] ==> #[trigger] u2[i]
            &&& u2[ei]
            &&& forall|x: int, y: int| #[trigger] wsel(units, u2, x, y, units.len() as int) - wsel(units, used, x, y, units.len() as int)
                == path_w(r2.subrange(ring.len() as int, r2.len() as int).push(s), x, y)
            &&& forall|j: int| 0 <= j < r2.len() - ring.len() ==> #[trigger] step_ok(r2.subrange(ring.len() as int, r2.len() as int).push(s), j)
        }),
    decreases count_false(used),
{
    let n = units.len() as int;
    let used2 = used.update(ei, true);
    let u = units[ei];
    lemma_count_false_set(used, ei);
    assert forall|w: (i32, i32)| #[trigger] ufl(units, used2, w, n) == ind(w == s) - ind(w == u.1) by {
        lemma_marks(units, used, ei, w, 0, 0, n);
    }
    lemma_pick(units, used2, u.1, dir_spec(u.0, u.1), n);
    match pick(units, used2, u.1, dir_spec(u.0, u.1), n).0 {
        Some(m) => {
            let ring1 = ring.push(u.0);
            lemma_walk(units, used2, m, ring1, s);
            let (u2, r2) = walk_spec(units, used2, m, ring1);
            assert(walk_spec(units, used, ei, ring) == (u2, r2));
            assert(r2.subrange(0, ring.len() as int) =~= ring) by {
                assert(r2.subrange(0, ring1.len() as int) == ring1);
                assert forall|i: int| 0 <= i < ring.len() implies r2.subrange(0, ring.len() as int)[i] == ring[i] by {
                    assert(r2.subrange(0, ring1.len() as int)[i] == ring1[i]);
                }
            }
            assert(r2[ring.len() as int] == u.0) by {
                assert(r2.subrange(0, ring1.len() as int)[ring.len() as int] == ring1[ring.len() as int]);
            }
            assert forall|x: int, y: int| #[trigger] wsel(units, u2, x, y, n) - wsel(units, used, x, y, n)
                == path_w(r2.subrange(ring.len() as int, r2.len() as int).push(s), x, y) by {
                lemma_marks(units, used, ei, (0i32, 0i32), x, y, n);
                let q = r2.subrange(ring1.len() as int, r2.len() as int).push(s);
                let q0 = r2.subrange(ring.len() as int, r2.len() as int).push(s);
                assert(q0 =~= seq![u.0] + q);
                assert(q[0] == units[m].0);
                lemma_path_push_front(u.0, q, x, y);
            }
            let q = r2.subrange(ring1.len() as int, r2.len() as int).push(s);
            let q0 = r2.subrange(ring.len() as int, r2.len() as int).push(s);
            assert(q0 =~= seq![u.0] + q);
            assert(unit_ok(units[ei]));
            assert forall|j: int| 0 <= j < r2.len() - ring.len() implies #[trigger] step_ok(q0, j) by {
                if j == 0 {
                    assert(q0[0] == u.0 && q0[1] == q[0]);
                } else {
                    assert(step_ok(q, j - 1));
                    assert(q0[j] == q[j - 1] && q0[j + 1] == q[j]);
                }
            }
        },
        None => {
            assert(walk_spec(units, used, ei, ring) == (used2, ring.push(u.0)));
            lemma_fout_zero(units, used2, u.1, n);
            lemma_flow_split(units, used2, u.1, n);
            assert(units.take(n) =~= units);
            assert(u.1 == s);
            let r2 = ring.push(u.0);
            assert(r2.subrange(0, ring.len() as int) =~= ring);
            assert forall|x: int, y: int| #[trigger] wsel(units, used2, x, y, n) - wsel(units, used, x, y, n)
                == path_w(r2.subrange(ring.len() as int, r2.len() as int).push(s), x, y) by {
                lemma_marks(units, used, ei, (0i32, 0i32), x, y, n);
                let q0 = r2.subrange(ring.len() as int, r2.len() as int).push(s);
                assert(q0 =~= seq![u.0, s]);
                assert(q0.drop_first() =~= seq![s]);
                assert(path_w(seq![s], x, y) == 0);
            }
            let q0 = r2.subrange(ring.len() as int, r2.len() as int).push(s);
            assert(q0 =~= seq![u.0, s]);
            assert(unit_ok(units[ei]));
            assert(step_ok(q0, 0));
        },
    }
}


/// The winding at `(x, y)` of the directed segment from `a` to `b`.
pub open spec fn vw(a: (i32, i32), b: (i32, i32), x: int, y: int) -> int {
    winding(seg_vedge((a, b)), x, y)
}

pub proof fn lemma_vw_formula(a: (i32, i32), b: (i32, i32), x: int, y: int)
    requires
        axis_seg((a, b)),
    ensures
        vw(a, b, x, y) == if a.0 <= x { ind(y < a.1) - ind(y < b.1) } else { 0 },
{
    let sv = seg_vedge((a, b));
    assert(winding(Seq::<VEdge>::empty(), x, y) == 0);
    if sv.len() == 1 {
        assert(sv.drop_last() =~= Seq::<VEdge>::empty());
        assert(winding(sv, x, y) == edge_weight(sv[0], x, y));
    } else {
        assert(sv =~= Seq::<VEdge>::empty());
    }
}

proof fn lemma_path_step(c: Seq<(i32, i32)>, a: int, e: int, x: int, y: int)
    requires
        0 <= a < e < c.len(),
    ensures
        path_w(c.subrange(a, e + 1), x, y) == vw(c[a], c[a + 1], x, y) + path_w(c.subrange(a + 1, e + 1), x, y),
{
    assert(c.subrange(a, e + 1).drop_first() =~= c.subrange(a + 1, e + 1));
}

proof fn lemma_path_one(c: Seq<(i32, i32)>, a: int, x: int, y: int)
    requires
        0 <= a < c.len(),
    ensures
        path_w(c.subrange(a, a + 1), x, y) == 0,
{
}

/// The winding of a path splits at any of its points.
proof fn lemma_path_split(c: Seq<(i32, i32)>, a: int, b: int, e: int, x: int, y: int)
    requires
        0 <= a <= b <= e < c.len(),
    ensures
        path_w(c.subrange(a, e + 1), x, y) == path_w(c.subrange(a, b + 1), x, y) + path_w(c.subrange(b, e + 1), x, y),
    decreases b - a,
{
    if a < b {
        lemma_path_step(c, a, e, x, y);
        lemma_path_step(c, a, b, x, y);
        lemma_path_split(c, a + 1, b, e, x, y);
    } else {
        lemma_path_one(c, a, x, y);
    }
}

/// A path whose inner points are each collinear with their neighbours, along axis-parallel
/// steps between distinct points, lies on one axis-parallel line and winds as the
/// segment joining its ends.
proof fn lemma_chain(c: Seq<(i32, i32)>, a: int, b: int, x: int, y: int)
    requires
        0 <= a < b < c.len(),
        forall|i: int| a <= i < b ==> #[trigger] step_ok(c, i),
        forall|i: int| a < i < b ==> #[trigger] straight(c, i),
    ensures
        path_w(c.subrange(a, b + 1), x, y) == vw(c[a], c[b], x, y),
        (c[b - 1].0 == c[b].0 && c[a].0 == c[b].0) || (c[b - 1].1 == c[b].1 && c[a].1 == c[b].1),
    decreases b - a,
{
    assert(step_ok(c, b - 1));
    if b == a + 1 {
        lemma_path_step(c, a, b, x, y);
        lemma_path_one(c, b, x, y);
    } else {
        lemma_chain(c, a, b - 1, x, y);
        lemma_path_split(c, a, b - 1, b, x, y);
        lemma_path_step(c, b - 1, b, x, y);
        lemma_path_one(c, b, x, y);
        let (p, m, q) = (c[b - 2], c[b - 1], c[b]);
        assert(straight(c, b - 1));
        assert(step_ok(c, b - 2));
        let (px, py, mx, my, qx, qy) = (p.0 as int, p.1 as int, m.0 as int, m.1 as int, q.0 as int, q.1 as int);
        assert((mx - px) * (qy - my) - (my - py) * (qx - mx) == 0);
        if px == mx {
            assert(py != my);
            assert(qx == mx) by (nonlinear_arith)
                requires
                    (mx - px) * (qy - my) - (my - py) * (qx - mx) == 0,
                    px == mx,
                    py != my,
            ;
        } else {
            assert(py == my);
            assert(qy == my) by (nonlinear_arith)
                requires
                    (mx - px) * (qy - my) - (my - py) * (qx - mx) == 0,
                    py == my,
                    px != mx,
            ;
        }
        lemma_vw_formula(c[a], m, x, y);
        lemma_vw_formula(m, q, x, y);
        lemma_vw_formula(c[a], q, x, y);
    }
}

/// Step `i` of the path `c` joins two distinct points along one axis.
pub open spec fn step_ok(c: Seq<(i32, i32)>, i: int) -> bool {
    axis_seg((c[i], c[i + 1])) && c[i] != c[i + 1]
}

/// Point `i` of the path `c` is collinear with its neighbours.
pub open spec fn straight(c: Seq<(i32, i32)>, i: int) -> bool {
    cross3(c[i - 1], c[i], c[i + 1]) == 0
}

/// Indices of the points that `kept` keeps among the first `k`.
pub open spec fn kidx(pts: Seq<(i32, i32)>, n: int, k: int) -> Seq<int>
    decreases k,
{
    if k <= 0 {
        Seq::empty()
    } else {
        let i = k - 1;
        let p = pts[if i == 0 { n - 1 } else { i - 1 }];
        let q = pts[if i + 1 == n { 0 } else { i + 1 }];
        kidx(pts, n, k - 1) + if cross3(p, pts[i], q) != 0 { seq![i] } else { Seq::empty() }
    }
}

/// Whether point `i` of the `n`-point ring is kept.
pub open spec fn keeps(pts: Seq<(i32, i32)>, n: int, i: int) -> bool {
    cross3(pts[if i == 0 { n - 1 } else { i - 1 }], pts[i], pts[if i + 1 == n { 0 } else { i + 1 }]) != 0
}

proof fn lemma_kidx(pts: Seq<(i32, i32)>, n: int, k: int)
    requires
        0 <= k <= n,
    ensures
        kidx(pts, n, k).len() == kept(pts, n, k).len(),
        forall|j: int| 0 <= j < kidx(pts, n, k).len() ==> kept(pts, n, k)[j] == pts[#[trigger] kidx(pts, n, k)[j]],
        forall|j: int| 0 <= j < kidx(pts, n, k).len() ==> 0 <= #[trigger] kidx(pts, n, k)[j] < k && keeps(pts, n, kidx(pts, n, k)[j]),
        forall|j1: int, j2: int| 0 <= j1 < j2 < kidx(pts, n, k).len() ==> kidx(pts, n, k)[j1] < kidx(pts, n, k)[j2],
        forall|i: int| 0 <= i < k && keeps(pts, n, i) ==> exists|j: int| 0 <= j < kidx(pts, n, k).len() && #[trigger] kidx(pts, n, k)[j] == i,
    decreases k,
{
    if k > 0 {
        lemma_kidx(pts, n, k - 1);
        let a = kidx(pts, n, k - 1);
        let b = kidx(pts, n, k);
        assert forall|i: int| 0 <= i < k && keeps(pts, n, i) implies exists|j: int| 0 <= j < b.len() && #[trigger] b[j] == i by {
            if i < k - 1 {
                let j = choose|j: int| 0 <= j < a.len() && #[trigger] a[j] == i;
                assert(b[j] == a[j]);
            } else {
                assert(b[a.len() as int] == i);
            }
        }
        assert forall|j: int| 0 <= j < b.len() implies kept(pts, n, k)[j] == pts[#[trigger] b[j]] by {
            if j < a.len() {
                assert(b[j] == a[j]);
            }
        }
        assert forall|j: int| 0 <= j < b.len() implies 0 <= #[trigger] b[j] < k && keeps(pts, n, b[j]) by {
            if j < a.len() {
                assert(b[j] == a[j]);
            }
        }
        assert forall|j1: int, j2: int| 0 <= j1 < j2 < b.len() implies b[j1] < b[j2] by {
            if j2 < a.len() {
                assert(b[j1] == a[j1] && b[j2] == a[j2]);
            } else {
                assert(b[j1] == a[j1]);
            }
        }
    }
}


/// Joining two paths that meet at a point adds their windings.
proof fn lemma_path_join(a: Seq<(i32, i32)>, b: Seq<(i32, i32)>, x: int, y: int)
    requires
        a.len() >= 1,
        b.len() >= 1,
        a.last() == b[0],
    ensures
        path_w(a + b.drop_first(), x, y) == path_w(a, x, y) + path_w(b, x, y),
    decreases a.len(),
{
    if a.len() == 1 {
        assert(a + b.drop_first() =~= b);
    } else {
        let ad = a.drop_first();
        lemma_path_join(ad, b, x, y);
        assert((a + b.drop_first()).drop_first() =~= ad + b.drop_first());
        assert((a + b.drop_first())[1] == a[1]);
    }
}

/// Two steps there and back along one axis wind nowhere.
proof fn lemma_back_forth(k0: (i32, i32), k1: (i32, i32), x: int, y: int)
    requires
        axis_seg((k0, k1)),
    ensures
        vw(k0, k1, x, y) + vw(k1, k0, x, y) == 0,
{
    lemma_vw_formula(k0, k1, x, y);
    lemma_vw_formula(k1, k0, x, y);
}

/// The facts about the kept indices `ix` of the `n`-point ring `c` that the proofs use.
pub open spec fn kidx_ok(c: Seq<(i32, i32)>, n: int, ix: Seq<int>) -> bool {
    &&& forall|j: int| 0 <= j < ix.len() ==> 0 <= #[trigger] ix[j] < n
    &&& forall|j1: int, j2: int| 0 <= j1 < j2 < ix.len() ==> ix[j1] < ix[j2]
    &&& forall|i: int| 0 <= i < n && keeps(c, n, i) ==> exists|j: int| 0 <= j < ix.len() && #[trigger] ix[j] == i
}

/// In a closed ring, a point other than the first is kept exactly when it is not straight.
proof fn lemma_keeps_straight(c: Seq<(i32, i32)>, n: int)
    requires
        c.len() == n + 1,
        n >= 1,
        c[0] == c[n],
    ensures
        forall|i: int| 0 < i < n ==> (keeps(c, n, i) <==> !#[trigger] straight(c, i)),
{
    assert forall|i: int| 0 < i < n implies (keeps(c, n, i) <==> !#[trigger] straight(c, i)) by {
        if i + 1 == n {
            assert(c[0] == c[n]);
        }
    }
}

/// Closed rings of at most three points wind nowhere.
proof fn lemma_small_ring(c: Seq<(i32, i32)>, x: int, y: int)
    requires
        2 <= c.len() <= 3,
        c[0] == c[c.len() - 1],
        forall|i: int| 0 <= i < c.len() - 1 ==> #[trigger] step_ok(c, i),
    ensures
        path_w(c, x, y) == 0,
{
    assert(step_ok(c, 0));
    if c.len() == 3 {
        let d1 = c.drop_first();
        assert(d1.drop_first() =~= seq![c[2]]);
        assert(d1[0] == c[1] && d1[1] == c[2]);
        assert(path_w(seq![c[2]], x, y) == 0);
        assert(path_w(d1, x, y) == vw(c[1], c[2], x, y) + path_w(d1.drop_first(), x, y));
        assert(path_w(c, x, y) == vw(c[0], c[1], x, y) + path_w(d1, x, y));
        lemma_back_forth(c[0], c[1], x, y);
    }
}

/// The wrap of a closed ring from its last kept point round to its first winds as the
/// segment joining them.
#[verifier::spinoff_prover]
#[verifier::rlimit(40)]
proof fn lemma_wrap(c: Seq<(i32, i32)>, n: int, ix: Seq<int>, x: int, y: int)
    requires
        c.len() == n + 1,
        n >= 3,
        c[0] == c[n],
        forall|i: int| 0 <= i < n ==> #[trigger] step_ok(c, i),
        kidx_ok(c, n, ix),
        ix.len() >= 1,
    ensures
        path_w(c.subrange(ix[ix.len() - 1], n + 1), x, y) + path_w(c.subrange(0, ix[0] + 1), x, y) == vw(c[ix[ix.len() - 1]], c[ix[0]], x, y),
{
    let m = ix.len() as int;
    let i0 = ix[0];
    let il = ix[m - 1];
    lemma_keeps_straight(c, n);
    assert(i0 <= il) by {
        if m > 1 {
            assert(ix[0] < ix[m - 1]);
        }
    }
    let wa = c.subrange(il, n + 1);
    let wb = c.subrange(0, i0 + 1);
    let w = wa + wb.drop_first();
    lemma_path_join(wa, wb, x, y);
    let d = n - il;
    assert(w.len() == d + 1 + i0);
    assert forall|j: int| 0 <= j <= d implies #[trigger] w[j] == c[il + j] by {}
    assert forall|j: int| d < j < w.len() implies #[trigger] w[j] == c[j - d] by {}
    assert forall|j: int| 0 <= j < w.len() - 1 implies #[trigger] step_ok(w, j) by {
        if j < d {
            assert(w[j] == c[il + j] && w[j + 1] == c[il + j + 1]);
            assert(step_ok(c, il + j));
        } else if j == d {
            assert(w[j] == c[n] && w[j + 1] == c[1]);
            assert(step_ok(c, 0));
        } else {
            assert(w[j] == c[j - d] && w[j + 1] == c[j + 1 - d]);
            assert(step_ok(c, j - d));
        }
    }
    assert forall|j: int| 0 < j < w.len() - 1 implies #[trigger] straight(w, j) by {
        if j < d {
            assert(w[j - 1] == c[il + j - 1] && w[j] == c[il + j] && w[j + 1] == c[il + j + 1]);
            if !straight(c, il + j) {
                let q = choose|q: int| 0 <= q < ix.len() && #[trigger] ix[q] == il + j;
                if q < m - 1 {
                    assert(ix[q] < ix[m - 1]);
                }
            }
        } else if j == d {
            assert(w[j - 1] == c[n - 1] && w[j] == c[n] && w[j + 1] == c[1]);
            if keeps(c, n, 0) {
                let q = choose|q: int| 0 <= q < ix.len() && #[trigger] ix[q] == 0;
                if q > 0 {
                    assert(ix[0] < ix[q]);
                }
            }
        } else {
            let i = j - d;
            assert(w[j - 1] == c[i - 1] && w[j] == c[i] && w[j + 1] == c[i + 1]);
            if !straight(c, i) {
                let q = choose|q: int| 0 <= q < ix.len() && #[trigger] ix[q] == i;
                if q > 0 {
                    assert(ix[0] < ix[q]);
                }
            }
        }
    }
    lemma_chain(w, 0, w.len() - 1, x, y);
    assert(w.subrange(0, w.len() as int) =~= w);
    assert(w[0] == c[il]);
    assert(w[w.len() - 1] == c[i0]) by {
        if i0 == 0 {
            assert(w[w.len() - 1] == c[n]);
        } else {
            assert(w[w.len() - 1] == c[i0]);
        }
    }
}

/// A closed ring of axis-parallel steps between distinct points winds as its simplified
/// form when that is kept (at least four points), and nowhere when it is dropped.
#[verifier::spinoff_prover]
#[verifier::rlimit(40)]
proof fn lemma_simplify_winding(c: Seq<(i32, i32)>, x: int, y: int)
    requires
        c.len() >= 2,
        c[0] == c[c.len() - 1],
        forall|i: int| 0 <= i < c.len() - 1 ==> #[trigger] step_ok(c, i),
    ensures
        path_w(c, x, y) == if simplify_spec(c).len() >= 4 { path_w(simplify_spec(c), x, y) } else { 0 },
{
    let n = c.len() - 1;
    if c.len() < 4 {
        lemma_small_ring(c, x, y);
    } else {
        let k = kept(c, n, n);
        let ix = kidx(c, n, n);
        lemma_kidx(c, n, n);
        lemma_keeps_straight(c, n);
        let m = ix.len() as int;
        assert(c.subrange(0, n + 1) =~= c);
        if m == 0 {
            assert forall|i: int| 0 < i < n implies #[trigger] straight(c, i) by {
                if !straight(c, i) {
                    let j = choose|j: int| 0 <= j < ix.len() && #[trigger] ix[j] == i;
                }
            }
            lemma_chain(c, 0, n, x, y);
            assert(seg_vedge((c[0], c[n])) =~= Seq::<VEdge>::empty());
            assert(winding(Seq::<VEdge>::empty(), x, y) == 0);
        } else {
            lemma_simplify_kept(c, n, k, ix, x, y);
        }
    }
}

/// The case of a closed ring with kept points.
#[verifier::spinoff_prover]
#[verifier::rlimit(40)]
proof fn lemma_simplify_kept(c: Seq<(i32, i32)>, n: int, k: Seq<(i32, i32)>, ix: Seq<int>, x: int, y: int)
    requires
        c.len() == n + 1,
        n >= 3,
        c[0] == c[n],
        forall|i: int| 0 <= i < n ==> #[trigger] step_ok(c, i),
        forall|i: int| 0 < i < n ==> (keeps(c, n, i) <==> !#[trigger] straight(c, i)),
        kidx_ok(c, n, ix),
        ix.len() == k.len(),
        ix.len() >= 1,
        forall|j: int| 0 <= j < ix.len() ==> k[j] == c[#[trigger] ix[j]],
        simplify_spec(c) == k.push(k[0]),
    ensures
        path_w(c, x, y) == if simplify_spec(c).len() >= 4 { path_w(simplify_spec(c), x, y) } else { 0 },
{
    let m = ix.len() as int;
    let i0 = ix[0];
    let il = ix[m - 1];
    let r = k.push(k[0]);
    assert(c.subrange(0, n + 1) =~= c);
    assert(i0 <= il) by {
        if m > 1 {
            assert(ix[0] < ix[m - 1]);
        }
    }
    assert forall|t: int, i: int| #![trigger ix[t], straight(c, i)] 0 < t < m && ix[t - 1] < i < ix[t] implies straight(c, i) by {
        if !straight(c, i) {
            let j = choose|j: int| 0 <= j < ix.len() && #[trigger] ix[j] == i;
            if j < t {
                if j < t - 1 {
                    assert(ix[j] < ix[t - 1]);
                }
            } else {
                if j > t {
                    assert(ix[t] < ix[j]);
                }
            }
        }
    }
    lemma_mid(c, n, ix, k, m - 1, x, y);
    assert(k.subrange(0, m) =~= k);
    lemma_wrap(c, n, ix, x, y);
    lemma_path_split(c, 0, i0, n, x, y);
    lemma_path_split(c, i0, il, n, x, y);
    lemma_path_split(r, 0, m - 1, m, x, y);
    assert(r.subrange(0, m) =~= k);
    lemma_path_step(r, m - 1, m, x, y);
    lemma_path_one(r, m, x, y);
    assert(r.subrange(0, m + 1) =~= r);
    assert(r.subrange(m - 1, m + 1) =~= seq![k[m - 1], k[0]]);
    if m == 2 {
        assert forall|i: int| ix[0] <= i < ix[1] implies #[trigger] step_ok(c, i) by {}
        assert forall|i: int| ix[0] < i < ix[1] implies #[trigger] straight(c, i) by {
            assert(ix[1] == ix[1]);
        }
        lemma_chain(c, i0, il, x, y);
        lemma_back_forth(k[0], k[1], x, y);
        assert(r.drop_first().drop_first() =~= seq![r[2]]);
        assert(r.drop_first()[0] == r[1] && r.drop_first()[1] == r[2]);
    }
    if m == 1 {
        assert(seg_vedge((k[0], k[0])) =~= Seq::<VEdge>::empty());
        assert(winding(Seq::<VEdge>::empty(), x, y) == 0);
        assert(r.drop_first() =~= seq![r[1]]);
    }
}

/// The ring between the first and the `t`-th kept point winds as the kept points joined
/// in order.
proof fn lemma_mid(c: Seq<(i32, i32)>, n: int, ix: Seq<int>, k: Seq<(i32, i32)>, t: int, x: int, y: int)
    requires
        c.len() == n + 1,
        forall|i: int| 0 <= i < n ==> #[trigger] step_ok(c, i),
        ix.len() == k.len(),
        0 <= t < ix.len(),
        forall|j: int| 0 <= j < ix.len() ==> k[j] == c[#[trigger] ix[j]],
        forall|j: int| 0 <= j < ix.len() ==> 0 <= #[trigger] ix[j] < n,
        forall|j1: int, j2: int| 0 <= j1 < j2 < ix.len() ==> ix[j1] < ix[j2],
        forall|u: int, i: int| #![trigger ix[u], straight(c, i)] 0 < u < ix.len() && ix[u - 1] < i < ix[u] ==> straight(c, i),
    ensures
        path_w(c.subrange(ix[0], ix[t] + 1), x, y) == path_w(k.subrange(0, t + 1), x, y),
    decreases t,
{
    if t == 0 {
        lemma_path_one(c, ix[0], x, y);
        lemma_path_one(k, 0, x, y);
    } else {
        lemma_mid(c, n, ix, k, t - 1, x, y);
        assert(ix[0] <= ix[t - 1]) by {
            if t - 1 > 0 {
                assert(ix[0] < ix[t - 1]);
            }
        }
        assert(ix[t - 1] < ix[t]);
        lemma_path_split(c, ix[0], ix[t - 1], ix[t], x, y);
        assert forall|i: int| ix[t - 1] <= i < ix[t] implies #[trigger] step_ok(c, i) by {}
        assert forall|i: int| ix[t - 1] < i < ix[t] implies #[trigger] straight(c, i) by {}
        lemma_chain(c, ix[t - 1], ix[t], x, y);
        lemma_path_split(k, 0, t - 1, t, x, y);
        lemma_path_step(k, t - 1, t, x, y);
        lemma_path_one(k, t, x, y);
    }
}


/// The piece runs along one axis between two distinct points.
pub open spec fn unit_ok(u: Edge) -> bool {
    axis_seg(u) && u.0 != u.1
}

/// The winding at `(x, y)` of a list of rings, each read as the path through its points.
pub open spec fn rings_w(rings: Seq<Seq<(i32, i32)>>, x: int, y: int) -> int
    decreases rings.len(),
{
    if rings.len() == 0 {
        0
    } else {
        rings_w(rings.drop_last(), x, y) + path_w(rings.last(), x, y)
    }
}

/// Every piece of the walls joins two distinct points along one axis.
proof fn lemma_units_proper(es: Seq<Edge>, all: Seq<Edge>)
    requires
        forall|i: int| 0 <= i < es.len() ==> stops_ok(all, #[trigger] es[i]),
    ensures
        forall|i: int| 0 <= i < units_of(es, all).len() ==> #[trigger] unit_ok(units_of(es, all)[i]),
    decreases es.len(),
{
    if es.len() > 0 {
        let ed = es.drop_last();
        assert forall|i: int| 0 <= i < ed.len() implies stops_ok(all, #[trigger] ed[i]) by {
            assert(ed[i] == es[i]);
        }
        lemma_units_proper(ed, all);
        let e = es.last();
        assert(stops_ok(all, es[es.len() - 1]));
        let a = units_of(ed, all);
        let p = split_edge(e, all);
        assert(units_of(es, all) == a + p);
        let (ea, eb) = e;
        if ea.0 == eb.0 {
            assert(stops_good(all, true, ea.0, imin(ea.1 as int, eb.1 as int) as i32, imax(ea.1 as int, eb.1 as int) as i32));
        } else {
            assert(stops_good(all, false, ea.1, imin(ea.0 as int, eb.0 as int) as i32, imax(ea.0 as int, eb.0 as int) as i32));
        }
        assert forall|i: int| 0 <= i < p.len() implies #[trigger] unit_ok(p[i]) by {
            if ea.0 == eb.0 {
                let ys = sorted_stops(all, true, ea.0, if ea.1 <= eb.1 { ea.1 } else { eb.1 }, if ea.1 <= eb.1 { eb.1 } else { ea.1 });
                assert(ys[i] < ys[i + 1]);
            } else {
                let xs = sorted_stops(all, false, ea.1, if ea.0 <= eb.0 { ea.0 } else { eb.0 }, if ea.0 <= eb.0 { eb.0 } else { ea.0 });
                assert(xs[i] < xs[i + 1]);
            }
        }
        assert forall|i: int| 0 <= i < (a + p).len() implies #[trigger] unit_ok((a + p)[i]) by {
            if i >= a.len() {
                assert((a + p)[i] == p[i - a.len()]);
            }
        }
    }
}

proof fn lemma_none_used(us: Seq<Edge>, used: Seq<bool>, w: (i32, i32), x: int, y: int, k: int)
    requires
        0 <= k <= us.len(),
        used.len() == us.len(),
        forall|i: int| 0 <= i < us.len() ==> !#[trigger] used[i],
    ensures
        ufl(us, used, w, k) == 0,
        wsel(us, used, x, y, k) == 0,
    decreases k,
{
    if k > 0 {
        lemma_none_used(us, used, w, x, y, k - 1);
    }
}

/// Tracing rings from every still-unused piece from `start` on adds, to the winding of
/// the rings so far, the winding of the pieces not yet used.
proof fn lemma_trace(units: Seq<Edge>, used: Seq<bool>, start: int, rings: Seq<Seq<(i32, i32)>>, x: int, y: int)
    requires
        used.len() == units.len(),
        0 <= start,
        forall|w: (i32, i32)| #[trigger] flow(units, w) == 0,
        forall|w: (i32, i32)| #[trigger] ufl(units, used, w, units.len() as int) == 0,
        forall|i: int| 0 <= i < start && i < units.len() ==> #[trigger] used[i],
        forall|i: int| 0 <= i < units.len() ==> #[trigger] unit_ok(units[i]),
    ensures
        rings_w(trace_from(units, used, start, rings), x, y) == rings_w(rings, x, y) + winding(segs_vedges(units), x, y) - wsel(
            units,
            used,
            x,
            y,
            units.len() as int,
        ),
    decreases units.len() - start,
{
    let n = units.len() as int;
    if start >= n {
        lemma_wsel_all(units, used, x, y, n);
        assert(units.take(n) =~= units);
    } else if used[start] {
        lemma_trace(units, used, start + 1, rings, x, y);
    } else {
        let s = units[start].0;
        assert forall|w: (i32, i32)| #[trigger] ufl(units, used, w, n) == ind(w == s) - ind(w == units[start].0) by {}
        lemma_walk(units, used, start, Seq::empty(), s);
        let (u2, ring) = walk_spec(units, used, start, Seq::empty());
        assert(ring.subrange(0, ring.len() as int) =~= ring);
        let closed = ring.push(ring[0]);
        assert(ring[0] == s);
        assert(closed =~= ring.subrange(0, ring.len() as int).push(s));
        assert forall|i: int| 0 <= i < closed.len() - 1 implies #[trigger] step_ok(closed, i) by {
            assert(step_ok(ring.subrange(0, ring.len() as int).push(s), i));
        }
        lemma_simplify_winding(closed, x, y);
        let r = simplify_spec(closed);
        let rings2 = if r.len() >= 4 { rings.push(r) } else { rings };
        assert(trace_from(units, used, start, rings) == trace_from(units, u2, start + 1, rings2));
        assert forall|i: int| 0 <= i < start + 1 && i < n implies #[trigger] u2[i] by {
            if i < start {
                assert(used[i]);
            }
        }
        lemma_trace(units, u2, start + 1, rings2, x, y);
        if r.len() >= 4 {
            assert(rings2.drop_last() =~= rings);
        }
        assert(wsel(units, u2, x, y, n) - wsel(units, used, x, y, n) == path_w(closed, x, y));
    }
}

/// The rings traced from the pieces of the union's walls are the union's oriented
/// boundary: read as paths through their points, they wind once around each covered cell
/// and nowhere else.
pub proof fn lemma_rings_bound_union(rects: Seq<Rect>, ev: Seq<Edge>, eh: Seq<Edge>)
    requires
        tiles_ok(rects),
        union_boundary(vwalls_of(rects), true, ev),
        union_boundary(hwalls_of(rects), false, eh),
        forall|k: int| 0 <= k < (ev + eh).len() ==> stops_ok(ev + eh, #[trigger] (ev + eh)[k]),
    ensures
        forall|x: int, y: int| #[trigger] rings_w(contours_of(ev, eh), x, y) == ind(covers(rects, x, y)),
{
    let all = ev + eh;
    let units = units_of(all, all);
    let n = units.len() as int;
    let used = Seq::new(units.len(), |i: int| false);
    lemma_pieces_bound_union(rects, ev, eh);
    lemma_pieces_balanced(rects, ev, eh);
    assert forall|i: int| 0 <= i < all.len() implies stops_ok(all, #[trigger] all[i]) by {}
    lemma_units_proper(all, all);
    assert forall|x: int, y: int| #[trigger] rings_w(contours_of(ev, eh), x, y) == ind(covers(rects, x, y)) by {
        assert forall|w: (i32, i32)| #[trigger] ufl(units, used, w, n) == 0 by {
            lemma_none_used(units, used, w, x, y, n);
        }
        lemma_none_used(units, used, (0i32, 0i32), x, y, n);
        lemma_trace(units, used, 0, Seq::empty(), x, y);
        assert(rings_w(Seq::<Seq<(i32, i32)>>::empty(), x, y) == 0);
    }
}


/// Whether segment `u` lies along the line at `c` over position `t`.
pub open spec fn oval(u: Edge, vertical: bool, c: int, t: int) -> int {
    if lval(u, vertical, c, t) != 0 { 1 } else { 0 }
}

/// How many segments of `us` lie along the line at `c` over position `t`.
pub open spec fn osum(us: Seq<Edge>, vertical: bool, c: int, t: int) -> int
    decreases us.len(),
{
    if us.len() == 0 {
        0
    } else {
        osum(us.drop_last(), vertical, c, t) + oval(us.last(), vertical, c, t)
    }
}

proof fn lemma_osum_concat(a: Seq<Edge>, b: Seq<Edge>, vertical: bool, c: int, t: int)
    ensures
        osum(a + b, vertical, c, t) == osum(a, vertical, c, t) + osum(b, vertical, c, t),
    decreases b.len(),
{
    if b.len() == 0 {
        assert(a + b =~= a);
    } else {
        lemma_osum_concat(a, b.drop_last(), vertical, c, t);
        assert((a + b).drop_last() =~= a + b.drop_last());
    }
}

proof fn lemma_osum_nonneg(a: Seq<Edge>, vertical: bool, c: int, t: int)
    ensures
        osum(a, vertical, c, t) >= 0,
    decreases a.len(),
{
    if a.len() > 0 {
        lemma_osum_nonneg(a.drop_last(), vertical, c, t);
    }
}

/// Two segments of a list both along the line over position `t` make its count at least
/// two.
proof fn lemma_osum_two(s: Seq<Edge>, i: int, j: int, vertical: bool, c: int, t: int)
    requires
        0 <= i < j < s.len(),
        oval(s[i], vertical, c, t) == 1,
        oval(s[j], vertical, c, t) == 1,
    ensures
        osum(s, vertical, c, t) >= 2,
    decreases s.len(),
{
    if j < s.len() - 1 {
        assert(s.drop_last()[i] == s[i] && s.drop_last()[j] == s[j]);
        lemma_osum_two(s.drop_last(), i, j, vertical, c, t);
    } else {
        assert(s.drop_last()[i] == s[i]);
        lemma_osum_one(s.drop_last(), i, vertical, c, t);
    }
}

proof fn lemma_osum_one(s: Seq<Edge>, i: int, vertical: bool, c: int, t: int)
    requires
        0 <= i < s.len(),
        oval(s[i], vertical, c, t) == 1,
    ensures
        osum(s, vertical, c, t) >= 1,
    decreases s.len(),
{
    if i < s.len() - 1 {
        assert(s.drop_last()[i] == s[i]);
        lemma_osum_one(s.drop_last(), i, vertical, c, t);
        lemma_osum_nonneg(s.drop_last(), vertical, c, t);
    } else {
        lemma_osum_nonneg(s.drop_last(), vertical, c, t);
    }
}

/// Piece `w` of a line at `cc` cut at the stops `ys`, in the given direction.
pub open spec fn piece(ys: Seq<i32>, cc: i32, vert: bool, fwd: bool, w: int) -> Edge {
    if vert {
        if fwd { ((cc, ys[w]), (cc, ys[w + 1])) } else { ((cc, ys[w + 1]), (cc, ys[w])) }
    } else {
        if fwd { ((ys[w], cc), (ys[w + 1], cc)) } else { ((ys[w + 1], cc), (ys[w], cc)) }
    }
}

/// The pieces between consecutive stops cover, one each, the span from the first stop
/// to the last one they reach.
proof fn lemma_opieces_prefix(ys: Seq<i32>, cc: i32, vert: bool, fwd: bool, p: Seq<Edge>, vertical: bool, c: int, t: int)
    requires
        strictly_sorted(ys),
        p.len() + 1 <= ys.len(),
        forall|w: int| 0 <= w < p.len() ==> #[trigger] p[w] == piece(ys, cc, vert, fwd, w),
    ensures
        osum(p, vertical, c, t) == if vert == vertical && c == cc && ys[0] <= t < ys[p.len() as int] { 1int } else { 0int },
    decreases p.len(),
{
    let k = p.len() as int;
    if k > 0 {
        let q = p.drop_last();
        assert forall|w: int| 0 <= w < q.len() implies #[trigger] q[w] == piece(ys, cc, vert, fwd, w) by {
            assert(q[w] == p[w]);
        }
        lemma_opieces_prefix(ys, cc, vert, fwd, q, vertical, c, t);
        assert(p.last() == piece(ys, cc, vert, fwd, k - 1));
        assert(ys[k - 1] < ys[k]);
        assert(ys[0] <= ys[k - 1]) by {
            if k - 1 > 0 {
                assert(ys[0] < ys[k - 1]);
            }
        }
    }
}

/// Cutting an axis-parallel edge of `all` at its stops keeps how often each position of
/// each line is covered.
proof fn lemma_split_osum(e: Edge, all: Seq<Edge>, vertical: bool, c: int, t: int)
    requires
        stops_ok(all, e),
        all.contains(e),
        axis_seg(e),
        e.0 != e.1,
    ensures
        osum(split_edge(e, all), vertical, c, t) == oval(e, vertical, c, t),
{
    let (a, b) = e;
    let k = choose|k: int| 0 <= k < all.len() && all[k] == e;
    if a.0 == b.0 {
        let lo = imin(a.1 as int, b.1 as int) as i32;
        let hi = imax(a.1 as int, b.1 as int) as i32;
        let ys = sorted_stops(all, true, a.0, lo, hi);
        assert(lo == (if a.1 <= b.1 { a.1 } else { b.1 }));
        assert(hi == (if a.1 <= b.1 { b.1 } else { a.1 }));
        assert(stops_good(all, true, a.0, lo, hi));
        assert(stop_of(all[k], true, a.0, lo, hi, lo));
        assert(stop_of(all[k], true, a.0, lo, hi, hi));
        assert(ys.contains(lo) && ys.contains(hi));
        let i0 = choose|i: int| 0 <= i < ys.len() && ys[i] == lo;
        let i1 = choose|i: int| 0 <= i < ys.len() && ys[i] == hi;
        let n = ys.len() as int;
        assert(ys[0] == lo) by {
            if i0 > 0 {
                assert(ys[0] < ys[i0]);
                assert(ys.contains(ys[0]));
                let m = choose|m: int| 0 <= m < all.len() && #[trigger] stop_of(all[m], true, a.0, lo, hi, ys[0]);
            }
        }
        assert(ys[n - 1] == hi) by {
            if i1 < n - 1 {
                assert(ys[i1] < ys[n - 1]);
                assert(ys.contains(ys[n - 1]));
                let m = choose|m: int| 0 <= m < all.len() && #[trigger] stop_of(all[m], true, a.0, lo, hi, ys[n - 1]);
            }
        }
        assert(n >= 2) by {
            if n < 2 {
                assert(i0 == 0 && i1 == 0);
            }
        }
        let fwd = b.1 > a.1;
        assert(a.1 != b.1);
        assert(oval(e, vertical, c, t) == if vertical && c == a.0 && lo <= t < hi { 1int } else { 0int });
        let p = split_edge(e, all);
        assert(p.len() == n - 1);
        assert forall|w: int| 0 <= w < p.len() implies #[trigger] p[w] == piece(ys, a.0, true, fwd, w) by {}
        lemma_opieces_prefix(ys, a.0, true, fwd, p, vertical, c, t);
    } else {
        assert(a.1 == b.1);
        let lo = imin(a.0 as int, b.0 as int) as i32;
        let hi = imax(a.0 as int, b.0 as int) as i32;
        let xs = sorted_stops(all, false, a.1, lo, hi);
        assert(lo == (if a.0 <= b.0 { a.0 } else { b.0 }));
        assert(hi == (if a.0 <= b.0 { b.0 } else { a.0 }));
        assert(stops_good(all, false, a.1, lo, hi));
        assert(stop_of(all[k], false, a.1, lo, hi, lo));
        assert(stop_of(all[k], false, a.1, lo, hi, hi));
        assert(xs.contains(lo) && xs.contains(hi));
        let i0 = choose|i: int| 0 <= i < xs.len() && xs[i] == lo;
        let i1 = choose|i: int| 0 <= i < xs.len() && xs[i] == hi;
        let n = xs.len() as int;
        assert(xs[0] == lo) by {
            if i0 > 0 {
                assert(xs[0] < xs[i0]);
                assert(xs.contains(xs[0]));
                let m = choose|m: int| 0 <= m < all.len() && #[trigger] stop_of(all[m], false, a.1, lo, hi, xs[0]);
            }
        }
        assert(xs[n - 1] == hi) by {
            if i1 < n - 1 {
                assert(xs[i1] < xs[n - 1]);
                assert(xs.contains(xs[n - 1]));
                let m = choose|m: int| 0 <= m < all.len() && #[trigger] stop_of(all[m], false, a.1, lo, hi, xs[n - 1]);
            }
        }
        assert(n >= 2) by {
            if n < 2 {
                assert(i0 == 0 && i1 == 0);
            }
        }
        let fwd = b.0 > a.0;
        assert(a.0 != b.0);
        assert(oval(e, vertical, c, t) == if !vertical && c == a.1 && lo <= t < hi { 1int } else { 0int });
        let p = split_edge(e, all);
        assert(p.len() == n - 1);
        assert forall|w: int| 0 <= w < p.len() implies #[trigger] p[w] == piece(xs, a.1, false, fwd, w) by {}
        lemma_opieces_prefix(xs, a.1, false, fwd, p, vertical, c, t);
    }
}

/// Cutting every edge of `es` at its stops keeps how often each position is covered.
proof fn lemma_units_osum(es: Seq<Edge>, all: Seq<Edge>, vertical: bool, c: int, t: int)
    requires
        forall|i: int| 0 <= i < es.len() ==> stops_ok(all, #[trigger] es[i]) && all.contains(es[i]) && unit_ok(es[i]),
    ensures
        osum(units_of(es, all), vertical, c, t) == osum(es, vertical, c, t),
    decreases es.len(),
{
    if es.len() > 0 {
        let ed = es.drop_last();
        assert forall|i: int| 0 <= i < ed.len() implies stops_ok(all, #[trigger] ed[i]) && all.contains(ed[i]) && unit_ok(ed[i]) by {
            assert(ed[i] == es[i]);
        }
        lemma_units_osum(ed, all, vertical, c, t);
        assert(stops_ok(all, es[es.len() - 1]) && all.contains(es[es.len() - 1]) && unit_ok(es[es.len() - 1]));
        lemma_split_osum(es.last(), all, vertical, c, t);
        lemma_osum_concat(units_of(ed, all), split_edge(es.last(), all), vertical, c, t);
    }
}

/// The walls of the first `k` runs at coordinate `cc` cover a position of a line at most
/// once, and only where a run holds it.
proof fn lemma_runs_osum(runs: Seq<(i32, i32, i128)>, ivals: Seq<(i32, i32, i32)>, cc: i32, vert: bool, k: int, vertical: bool, c: int, t: int)
    requires
        runs_of(runs, ivals),
        0 <= k <= runs.len(),
    ensures
        osum(run_edges(runs.take(k), cc, vert), vertical, c, t) == if vert == vertical && c == cc && exists|i: int|
            0 <= i < k && (#[trigger] runs[i]).0 <= t < runs[i].1 && (runs[i].2 == 1 || runs[i].2 == -1) {
            1int
        } else {
            0int
        },
    decreases k,
{
    if k > 0 {
        lemma_runs_osum(runs, ivals, cc, vert, k - 1, vertical, c, t);
        let r = runs[k - 1];
        assert(runs.take(k).drop_last() =~= runs.take(k - 1));
        assert(runs.take(k).last() == r);
        let e = run_edge(r, cc, vert);
        lemma_osum_concat(run_edges(runs.take(k - 1), cc, vert), e, vertical, c, t);
        assert(r.0 < r.1 && r.2 != 0);
        let on = r.0 <= t < r.1;
        if on {
            assert forall|i: int| 0 <= i < k - 1 implies !((#[trigger] runs[i]).0 <= t < runs[i].1) by {
                assert(runs[i].1 <= runs[k - 1].0);
            }
        }
        if r.2 == 1 || r.2 == -1 {
            assert(e.len() == 1);
            assert(e.drop_last() =~= Seq::<Edge>::empty());
            assert(osum(Seq::<Edge>::empty(), vertical, c, t) == 0);
        } else {
            assert(e =~= Seq::<Edge>::empty());
        }
        if exists|i: int| 0 <= i < k && (#[trigger] runs[i]).0 <= t < runs[i].1 && (runs[i].2 == 1 || runs[i].2 == -1) {
            let i = choose|i: int| 0 <= i < k && (#[trigger] runs[i]).0 <= t < runs[i].1 && (runs[i].2 == 1 || runs[i].2 == -1);
            if i < k - 1 {
                assert(!on);
            }
        }
        if on && (r.2 == 1 || r.2 == -1) {
            assert(runs[k - 1].0 <= t < runs[k - 1].1);
        }
    }
}

/// The walls cover each position of each line at most once.
proof fn lemma_walls_osum(cs: Seq<i32>, rs: Seq<Seq<(i32, i32, i128)>>, ws: Seq<(i32, i32, i32, i32)>, vert: bool, vertical: bool, c: int, t: int)
    requires
        rs.len() == cs.len(),
        strictly_sorted(cs),
        forall|j: int| 0 <= j < cs.len() ==> runs_of(#[trigger] rs[j], walls_at_spec(ws, cs[j])),
    ensures
        0 <= osum(wall_edges(cs, rs, vert), vertical, c, t) <= 1,
        vert != vertical ==> osum(wall_edges(cs, rs, vert), vertical, c, t) == 0,
        (vert == vertical && osum(wall_edges(cs, rs, vert), vertical, c, t) == 1) ==> cs.contains(c as i32) && c == c as i32,
    decreases cs.len(),
{
    if cs.len() > 0 {
        let cd = cs.drop_last();
        let rd = rs.drop_last();
        let cc = cs.last();
        assert(strictly_sorted(cd)) by {
            assert forall|i: int, j: int| 0 <= i < j < cd.len() implies cd[i] < cd[j] by {
                assert(cd[i] == cs[i] && cd[j] == cs[j]);
            }
        }
        assert forall|j: int| 0 <= j < cd.len() implies runs_of(#[trigger] rd[j], walls_at_spec(ws, cd[j])) by {
            assert(rd[j] == rs[j] && cd[j] == cs[j]);
        }
        lemma_walls_osum(cd, rd, ws, vert, vertical, c, t);
        let runs = rs.last();
        assert(runs_of(rs[cs.len() - 1], walls_at_spec(ws, cs[cs.len() - 1])));
        lemma_runs_osum(runs, walls_at_spec(ws, cc), cc, vert, runs.len() as int, vertical, c, t);
        assert(runs.take(runs.len() as int) =~= runs);
        lemma_osum_concat(wall_edges(cd, rd, vert), run_edges(runs, cc, vert), vertical, c, t);
        if vert == vertical && osum(wall_edges(cd, rd, vert), vertical, c, t) == 1 && c == cc {
            let m = choose|m: int| 0 <= m < cd.len() && cd[m] == c as i32;
            assert(cs[m] == cd[m]);
            assert(cs[m] < cs[cs.len() - 1]);
        }
        if vert == vertical && osum(wall_edges(cd, rd, vert), vertical, c, t) == 1 {
            let m = choose|m: int| 0 <= m < cd.len() && cd[m] == c as i32;
            assert(cs[m] == cd[m]);
        }
        if vert == vertical && c == cc {
            assert(cs[cs.len() - 1] == c as i32);
        }
    }
}


/// The path turns at `c` or goes straight on, but does not double back.
pub open spec fn no_back3(p: (i32, i32), c: (i32, i32), q: (i32, i32)) -> bool {
    !(cross3(p, c, q) == 0 && (c.0 - p.0) * (q.0 - c.0) + (c.1 - p.1) * (q.1 - c.1) < 0)
}

/// No position of any line is covered twice by the pieces.
pub open spec fn single_cover(us: Seq<Edge>) -> bool {
    forall|vertical: bool, c: int, t: int| #[trigger] osum(us, vertical, c, t) <= 1
}

/// Two distinct pieces covering no position twice, one ending where the other starts,
/// do not double back.
proof fn lemma_no_back(units: Seq<Edge>, i: int, j: int)
    requires
        0 <= i < units.len(),
        0 <= j < units.len(),
        i != j,
        unit_ok(units[i]),
        unit_ok(units[j]),
        units[i].1 == units[j].0,
        single_cover(units),
    ensures
        no_back3(units[i].0, units[i].1, units[j].1),
{
    let (a, p) = units[i];
    let b = units[j].1;
    let (ax, ay, px, py, bx, by) = (a.0 as int, a.1 as int, p.0 as int, p.1 as int, b.0 as int, b.1 as int);
    if !no_back3(a, p, b) {
        assert((px - ax) * (by - py) - (py - ay) * (bx - px) == 0);
        assert((px - ax) * (bx - px) + (py - ay) * (by - py) < 0);
        let (vertical, c, t): (bool, int, int) = if ax == px {
            assert(ay != py);
            assert(bx == px) by (nonlinear_arith)
                requires
                    (px - ax) * (by - py) - (py - ay) * (bx - px) == 0,
                    ax == px,
                    ay != py,
            ;
            if ay < py {
                assert(by < py) by (nonlinear_arith)
                    requires
                        (px - ax) * (bx - px) + (py - ay) * (by - py) < 0,
                        ax == px,
                        ay < py,
                ;
                (true, px, py - 1)
            } else {
                assert(by > py) by (nonlinear_arith)
                    requires
                        (px - ax) * (bx - px) + (py - ay) * (by - py) < 0,
                        ax == px,
                        ay > py,
                ;
                (true, px, py)
            }
        } else {
            assert(ay == py);
            assert(by == py) by (nonlinear_arith)
                requires
                    (px - ax) * (by - py) - (py - ay) * (bx - px) == 0,
                    ay == py,
                    ax != px,
            ;
            if ax < px {
                assert(bx < px) by (nonlinear_arith)
                    requires
                        (px - ax) * (bx - px) + (py - ay) * (by - py) < 0,
                        ay == py,
                        ax < px,
                ;
                (false, py, px - 1)
            } else {
                assert(bx > px) by (nonlinear_arith)
                    requires
                        (px - ax) * (bx - px) + (py - ay) * (by - py) < 0,
                        ay == py,
                        ax > px,
                ;
                (false, py, px)
            }
        };
        assert(oval(units[i], vertical, c, t) == 1);
        assert(oval(units[j], vertical, c, t) == 1);
        if i < j {
            lemma_osum_two(units, i, j, vertical, c, t);
        } else {
            lemma_osum_two(units, j, i, vertical, c, t);
        }
        assert(osum(units, vertical, c, t) <= 1);
    }
}

/// The shape of a walk: its second point is where piece `ei` ends, it does not double
/// back at any inner point, and its last step is a piece it marked.
proof fn lemma_walk_shape(units: Seq<Edge>, used: Seq<bool>, ei: int, ring: Seq<(i32, i32)>, s: (i32, i32))
    requires
        used.len() == units.len(),
        0 <= ei < units.len(),
        !used[ei],
        forall|w: (i32, i32)| #[trigger] flow(units, w) == 0,
        forall|w: (i32, i32)| #[trigger] ufl(units, used, w, units.len() as int) == ind(w == s) - ind(w == units[ei].0),
        forall|i: int| 0 <= i < units.len() ==> #[trigger] unit_ok(units[i]),
        single_cover(units),
    ensures
        ({
            let (u2, r2) = walk_spec(units, used, ei, ring);
            let q0 = r2.subrange(ring.len() as int, r2.len() as int).push(s);
            &&& q0.len() >= 2
            &&& q0[1] == units[ei].1
            &&& forall|j: int| 0 < j < q0.len() - 1 ==> #[trigger] no_back3(q0[j - 1], q0[j], q0[j + 1])
            &&& exists|l: int|
                0 <= l < units.len() && !used[l] && units[l].0 == q0[q0.len() - 2] && units[l].1 == q0[q0.len() - 1]
        }),
    decreases count_false(used),
{
    let n = units.len() as int;
    let used2 = used.update(ei, true);
    let u = units[ei];
    lemma_walk(units, used, ei, ring, s);
    lemma_count_false_set(used, ei);
    assert forall|w: (i32, i32)| #[trigger] ufl(units, used2, w, n) == ind(w == s) - ind(w == u.1) by {
        lemma_marks(units, used, ei, w, 0, 0, n);
    }
    lemma_pick(units, used2, u.1, dir_spec(u.0, u.1), n);
    match pick(units, used2, u.1, dir_spec(u.0, u.1), n).0 {
        Some(m) => {
            let ring1 = ring.push(u.0);
            lemma_walk(units, used2, m, ring1, s);
            lemma_walk_shape(units, used2, m, ring1, s);
            let (u2, r2) = walk_spec(units, used2, m, ring1);
            assert(walk_spec(units, used, ei, ring) == (u2, r2));
            let q = r2.subrange(ring1.len() as int, r2.len() as int).push(s);
            let q0 = r2.subrange(ring.len() as int, r2.len() as int).push(s);
            assert(r2.subrange(0, ring1.len() as int) == ring1);
            assert(r2[ring.len() as int] == u.0) by {
                assert(r2.subrange(0, ring1.len() as int)[ring.len() as int] == ring1[ring.len() as int]);
            }
            assert(q0 =~= seq![u.0] + q);
            assert(q[0] == units[m].0);
            assert(q[1] == units[m].1);
            lemma_no_back(units, ei, m);
            assert forall|j: int| 0 < j < q0.len() - 1 implies #[trigger] no_back3(q0[j - 1], q0[j], q0[j + 1]) by {
                if j == 1 {
                    assert(q0[0] == u.0 && q0[1] == q[0] && q0[2] == q[1]);
                } else {
                    let jj = j - 1;
                    assert(0 < jj < q.len() - 1);
                    assert(no_back3(q[jj - 1], q[jj], q[jj + 1]));
                    assert(q0[j - 1] == q[jj - 1] && q0[j] == q[jj] && q0[j + 1] == q[jj + 1]);
                }
            }
            let l = choose|l: int| 0 <= l < units.len() && !used2[l] && units[l].0 == q[q.len() - 2] && units[l].1 == q[q.len() - 1];
            assert(q0[q0.len() - 2] == q[q.len() - 2] && q0[q0.len() - 1] == q[q.len() - 1]);
            assert(!used[l]);
        },
        None => {
            assert(walk_spec(units, used, ei, ring) == (used2, ring.push(u.0)));
            lemma_fout_zero(units, used2, u.1, n);
            lemma_flow_split(units, used2, u.1, n);
            assert(units.take(n) =~= units);
            assert(u.1 == s);
            let r2 = ring.push(u.0);
            let q0 = r2.subrange(ring.len() as int, r2.len() as int).push(s);
            assert(q0 =~= seq![u.0, s]);
        },
    }
}

/// Walls whose runs have extent join distinct points along one axis.
proof fn lemma_walls_proper(cs: Seq<i32>, rs: Seq<Seq<(i32, i32, i128)>>, ws: Seq<(i32, i32, i32, i32)>, vert: bool)
    requires
        rs.len() == cs.len(),
        forall|j: int| 0 <= j < cs.len() ==> runs_of(#[trigger] rs[j], walls_at_spec(ws, cs[j])),
    ensures
        forall|i: int| 0 <= i < wall_edges(cs, rs, vert).len() ==> #[trigger] unit_ok(wall_edges(cs, rs, vert)[i]),
    decreases cs.len(),
{
    if cs.len() > 0 {
        let cd = cs.drop_last();
        let rd = rs.drop_last();
        assert forall|j: int| 0 <= j < cd.len() implies runs_of(#[trigger] rd[j], walls_at_spec(ws, cd[j])) by {
            assert(rd[j] == rs[j] && cd[j] == cs[j]);
        }
        lemma_walls_proper(cd, rd, ws, vert);
        assert(runs_of(rs[cs.len() - 1], walls_at_spec(ws, cs[cs.len() - 1])));
        lemma_runs_proper(rs.last(), walls_at_spec(ws, cs.last()), cs.last(), vert, rs.last().len() as int);
        assert(rs.last().take(rs.last().len() as int) =~= rs.last());
        let a = wall_edges(cd, rd, vert);
        let p = run_edges(rs.last(), cs.last(), vert);
        assert(wall_edges(cs, rs, vert) == a + p);
        assert forall|i: int| 0 <= i < (a + p).len() implies #[trigger] unit_ok((a + p)[i]) by {
            if i >= a.len() {
                assert((a + p)[i] == p[i - a.len()]);
            }
        }
    }
}

proof fn lemma_runs_proper(runs: Seq<(i32, i32, i128)>, ivals: Seq<(i32, i32, i32)>, c: i32, vert: bool, k: int)
    requires
        runs_of(runs, ivals),
        0 <= k <= runs.len(),
    ensures
        forall|i: int| 0 <= i < run_edges(runs.take(k), c, vert).len() ==> #[trigger] unit_ok(run_edges(runs.take(k), c, vert)[i]),
    decreases k,
{
    if k > 0 {
        lemma_runs_proper(runs, ivals, c, vert, k - 1);
        assert(runs.take(k).drop_last() =~= runs.take(k - 1));
        assert(runs.take(k).last() == runs[k - 1]);
        let a = run_edges(runs.take(k - 1), c, vert);
        let p = run_edge(runs[k - 1], c, vert);
        assert(runs[k - 1].0 < runs[k - 1].1);
        assert(run_edges(runs.take(k), c, vert) == a + p);
        assert forall|i: int| 0 <= i < (a + p).len() implies #[trigger] unit_ok((a + p)[i]) by {
            if i >= a.len() {
                assert((a + p)[i] == p[i - a.len()]);
            }
        }
    }
}

/// The pieces of the union's walls cover each position of each line at most once.
pub proof fn lemma_pieces_single(rects: Seq<Rect>, ev: Seq<Edge>, eh: Seq<Edge>)
    requires
        union_boundary(vwalls_of(rects), true, ev),
        union_boundary(hwalls_of(rects), false, eh),
        forall|k: int| 0 <= k < (ev + eh).len() ==> stops_ok(ev + eh, #[trigger] (ev + eh)[k]),
    ensures
        single_cover(units_of(ev + eh, ev + eh)),
{
    let all = ev + eh;
    let hw = hwalls_of(rects);
    let vw_ = vwalls_of(rects);
    let (cs, rs) = choose|cs: Seq<i32>, rs: Seq<Seq<(i32, i32, i128)>>|
        #[trigger] wall_edges(cs, rs, false) == eh && strictly_sorted(cs) && (forall|x: i32|
            cs.contains(x) <==> hw.map_values(|w: (i32, i32, i32, i32)| w.0).contains(x)) && rs.len() == cs.len()
            && (forall|j: int| 0 <= j < cs.len() ==> runs_of(#[trigger] rs[j], walls_at_spec(hw, cs[j])));
    let (vcs, vrs) = choose|cs: Seq<i32>, rs: Seq<Seq<(i32, i32, i128)>>|
        #[trigger] wall_edges(cs, rs, true) == ev && strictly_sorted(cs) && (forall|x: i32|
            cs.contains(x) <==> vw_.map_values(|w: (i32, i32, i32, i32)| w.0).contains(x)) && rs.len() == cs.len()
            && (forall|j: int| 0 <= j < cs.len() ==> runs_of(#[trigger] rs[j], walls_at_spec(vw_, cs[j])));
    lemma_walls_proper(cs, rs, hw, false);
    lemma_walls_proper(vcs, vrs, vw_, true);
    assert forall|i: int| 0 <= i < all.len() implies stops_ok(all, #[trigger] all[i]) && all.contains(all[i]) && unit_ok(all[i]) by {
        if i < ev.len() {
            assert(all[i] == ev[i]);
        } else {
            assert(all[i] == eh[i - ev.len()]);
        }
    }
    assert forall|vertical: bool, c: int, t: int| #[trigger] osum(units_of(all, all), vertical, c, t) <= 1 by {
        lemma_units_osum(all, all, vertical, c, t);
        lemma_osum_concat(ev, eh, vertical, c, t);
        lemma_walls_osum(cs, rs, hw, false, vertical, c, t);
        lemma_walls_osum(vcs, vrs, vw_, true, vertical, c, t);
    }
}


/// A ring point `j` (its predecessor taken cyclically) is a true corner.
pub open spec fn corner(r: Seq<(i32, i32)>, j: int) -> bool {
    cross3(r[if j == 0 { r.len() - 2 } else { j - 1 }], r[j], r[j + 1]) != 0
}

/// A closed ring whose consecutive points are distinct and differ in one coordinate only,
/// and each of whose points is a true corner.
pub open spec fn ring_shape(r: Seq<(i32, i32)>) -> bool {
    &&& forall|j: int| 0 <= j < r.len() - 1 ==> #[trigger] step_ok(r, j)
    &&& forall|j: int| 0 <= j < r.len() - 1 ==> #[trigger] corner(r, j)
}

/// Going straight on without doubling back keeps the direction of travel.
proof fn lemma_straight_dir(p: (i32, i32), m: (i32, i32), q: (i32, i32))
    requires
        axis_seg((p, m)),
        p != m,
        axis_seg((m, q)),
        m != q,
        cross3(p, m, q) == 0,
        no_back3(p, m, q),
    ensures
        dir_spec(p, m) == dir_spec(m, q),
{
    let (px, py, mx, my, qx, qy) = (p.0 as int, p.1 as int, m.0 as int, m.1 as int, q.0 as int, q.1 as int);
    assert((mx - px) * (qy - my) - (my - py) * (qx - mx) == 0);
    assert(!((mx - px) * (qx - mx) + (my - py) * (qy - my) < 0));
    if px == mx {
        assert(qx == mx) by (nonlinear_arith)
            requires
                (mx - px) * (qy - my) - (my - py) * (qx - mx) == 0,
                px == mx,
                py != my,
        ;
        assert((my < py) == (qy < my)) by (nonlinear_arith)
            requires
                !((mx - px) * (qx - mx) + (my - py) * (qy - my) < 0),
                px == mx,
                qx == mx,
                py != my,
                my != qy,
        ;
    } else {
        assert(py == my);
        assert(qy == my) by (nonlinear_arith)
            requires
                (mx - px) * (qy - my) - (my - py) * (qx - mx) == 0,
                py == my,
                px != mx,
        ;
        assert((mx < px) == (qx < mx)) by (nonlinear_arith)
            requires
                !((mx - px) * (qx - mx) + (my - py) * (qy - my) < 0),
                py == my,
                qy == my,
                px != mx,
                mx != qx,
        ;
    }
}

/// A chain going straight on without doubling back keeps one direction from end to end.
proof fn lemma_chain_dir(c: Seq<(i32, i32)>, a: int, b: int)
    requires
        0 <= a < b < c.len(),
        forall|i: int| a <= i < b ==> #[trigger] step_ok(c, i),
        forall|i: int| a < i < b ==> #[trigger] straight(c, i),
        forall|i: int| a < i < b ==> #[trigger] no_back3(c[i - 1], c[i], c[i + 1]),
    ensures
        dir_spec(c[a], c[b]) == dir_spec(c[a], c[a + 1]),
        dir_spec(c[b - 1], c[b]) == dir_spec(c[a], c[a + 1]),
    decreases b - a,
{
    assert(step_ok(c, b - 1));
    if b > a + 1 {
        lemma_chain_dir(c, a, b - 1);
        assert(step_ok(c, b - 2));
        assert(straight(c, b - 1));
        assert(no_back3(c[b - 2], c[b - 1], c[b]));
        lemma_straight_dir(c[b - 2], c[b - 1], c[b]);
    }
}

/// Whether two axis-parallel steps make a corner depends only on their directions.
proof fn lemma_corner_dirs(p: (i32, i32), m: (i32, i32), q: (i32, i32), p2: (i32, i32), m2: (i32, i32), q2: (i32, i32))
    requires
        axis_seg((p, m)) && p != m,
        axis_seg((m, q)) && m != q,
        axis_seg((p2, m2)) && p2 != m2,
        axis_seg((m2, q2)) && m2 != q2,
        dir_spec(p, m) == dir_spec(p2, m2),
        dir_spec(m, q) == dir_spec(m2, q2),
    ensures
        (cross3(p, m, q) != 0) == (cross3(p2, m2, q2) != 0),
{
    lemma_cross_axis(p, m, q);
    lemma_cross_axis(p2, m2, q2);
}

/// Two axis-parallel steps make a corner exactly when one is vertical and the other
/// horizontal.
proof fn lemma_cross_axis(p: (i32, i32), m: (i32, i32), q: (i32, i32))
    requires
        axis_seg((p, m)) && p != m,
        axis_seg((m, q)) && m != q,
    ensures
        (cross3(p, m, q) != 0) == ((p.0 == m.0) != (m.0 == q.0)),
{
    let (px, py, mx, my, qx, qy) = (p.0 as int, p.1 as int, m.0 as int, m.1 as int, q.0 as int, q.1 as int);
    if px == mx {
        if mx == qx {
            assert((mx - px) * (qy - my) - (my - py) * (qx - mx) == 0);
        } else {
            assert(my == qy);
            assert((mx - px) * (qy - my) - (my - py) * (qx - mx) != 0) by (nonlinear_arith)
                requires
                    px == mx,
                    py != my,
                    my == qy,
                    mx != qx,
            ;
        }
    } else {
        assert(py == my);
        if mx == qx {
            assert(my != qy);
            assert((mx - px) * (qy - my) - (my - py) * (qx - mx) != 0) by (nonlinear_arith)
                requires
                    py == my,
                    px != mx,
                    mx == qx,
                    my != qy,
            ;
        } else {
            assert(my == qy);
            assert((mx - px) * (qy - my) - (my - py) * (qx - mx) == 0);
        }
    }
}

/// The kept points of a closed ring that turns or goes straight on (never doubling back)
/// at every point, its steps axis-parallel between distinct points, form a ring of the
/// same kind whose every point is a corner.
#[verifier::spinoff_prover]
#[verifier::rlimit(60)]
proof fn lemma_simplify_shape(c: Seq<(i32, i32)>)
    requires
        c.len() >= 4,
        c[0] == c[c.len() - 1],
        forall|i: int| 0 <= i < c.len() - 1 ==> #[trigger] step_ok(c, i),
        forall|i: int| 0 < i < c.len() - 1 ==> #[trigger] no_back3(c[i - 1], c[i], c[i + 1]),
        no_back3(c[c.len() - 2], c[0], c[1]),
        simplify_spec(c).len() >= 4,
    ensures
        ring_shape(simplify_spec(c)),
{
    let n = c.len() - 1;
    let k = kept(c, n, n);
    let ix = kidx(c, n, n);
    lemma_kidx(c, n, n);
    lemma_keeps_straight(c, n);
    let m = ix.len() as int;
    let r = simplify_spec(c);
    if m == 0 {
        assert(r.len() == 0);
    }
    assert(r == k.push(k[0]));
    assert(m >= 3);
    assert forall|j: int| 0 <= j < m implies #[trigger] r[j] == c[ix[j]] by {}
    assert(r[m] == c[ix[0]]);
    lemma_kept_steps(c, n, ix);
    lemma_wrap_shape(c, n, ix);
    lemma_out_steps(c, n, ix, r);
    lemma_out_corners(c, n, ix, r);
}

/// Each step of the kept ring joins distinct points along one axis, pointing as the step
/// out of its first point did.
#[verifier::spinoff_prover]
#[verifier::rlimit(60)]
proof fn lemma_out_steps(c: Seq<(i32, i32)>, n: int, ix: Seq<int>, r: Seq<(i32, i32)>)
    requires
        c.len() == n + 1,
        n >= 3,
        forall|i: int| 0 <= i < n ==> #[trigger] step_ok(c, i),
        kidx_ok(c, n, ix),
        ix.len() >= 3,
        r.len() == ix.len() + 1,
        forall|j: int| 0 <= j < ix.len() ==> #[trigger] r[j] == c[ix[j]],
        r[ix.len() as int] == c[ix[0]],
        forall|t: int| #![trigger ix[t]] 0 < t < ix.len() ==> dir_spec(c[ix[t - 1]], c[ix[t]]) == dir_spec(c[ix[t - 1]], c[ix[t - 1] + 1])
            && dir_spec(c[ix[t] - 1], c[ix[t]]) == dir_spec(c[ix[t - 1]], c[ix[t - 1] + 1])
            && ((c[ix[t - 1]].0 == c[ix[t]].0) || (c[ix[t - 1]].1 == c[ix[t]].1)),
        dir_spec(c[ix[ix.len() - 1]], c[ix[0]]) == dir_spec(c[ix[ix.len() - 1]], c[ix[ix.len() - 1] + 1]),
        (c[ix[ix.len() - 1]].0 == c[ix[0]].0 || c[ix[ix.len() - 1]].1 == c[ix[0]].1),
    ensures
        forall|j: int| 0 <= j < r.len() - 1 ==> #[trigger] step_ok(r, j),
        forall|j: int| 0 <= j < r.len() - 1 ==> #[trigger] dir_spec(r[j], r[j + 1]) == dir_spec(c[ix[j]], c[ix[j] + 1]),
{
    let m = ix.len() as int;
    assert forall|j: int| 0 <= j < r.len() - 1 implies #[trigger] step_ok(r, j) && dir_spec(r[j], r[j + 1]) == dir_spec(
        c[ix[j]],
        c[ix[j] + 1],
    ) by {
        assert(step_ok(c, ix[j]));
        if j < m - 1 {
            assert(r[j] == c[ix[j]] && r[j + 1] == c[ix[j + 1]]);
            assert(ix[j + 1] == ix[j + 1]);
        } else {
            assert(r[j] == c[ix[m - 1]] && r[j + 1] == c[ix[0]]);
        }
    }
}

/// Each point of the kept ring is a corner: its steps in and out point as the original
/// steps into and out of it did, and those made a corner.
#[verifier::spinoff_prover]
#[verifier::rlimit(60)]
proof fn lemma_out_corners(c: Seq<(i32, i32)>, n: int, ix: Seq<int>, r: Seq<(i32, i32)>)
    requires
        c.len() == n + 1,
        n >= 3,
        c[0] == c[n],
        forall|i: int| 0 <= i < n ==> #[trigger] step_ok(c, i),
        kidx_ok(c, n, ix),
        forall|j: int| 0 <= j < ix.len() ==> keeps(c, n, #[trigger] ix[j]),
        ix.len() >= 3,
        r.len() == ix.len() + 1,
        forall|j: int| 0 <= j < ix.len() ==> #[trigger] r[j] == c[ix[j]],
        r[ix.len() as int] == c[ix[0]],
        forall|t: int| #![trigger ix[t]] 0 < t < ix.len() ==> dir_spec(c[ix[t - 1]], c[ix[t]]) == dir_spec(c[ix[t - 1]], c[ix[t - 1] + 1])
            && dir_spec(c[ix[t] - 1], c[ix[t]]) == dir_spec(c[ix[t - 1]], c[ix[t - 1] + 1])
            && ((c[ix[t - 1]].0 == c[ix[t]].0) || (c[ix[t - 1]].1 == c[ix[t]].1)),
        dir_spec(if ix[0] == 0 { c[n - 1] } else { c[ix[0] - 1] }, c[ix[0]]) == dir_spec(c[ix[ix.len() - 1]], c[ix[ix.len() - 1] + 1]),
        forall|j: int| 0 <= j < r.len() - 1 ==> #[trigger] step_ok(r, j),
        forall|j: int| 0 <= j < r.len() - 1 ==> #[trigger] dir_spec(r[j], r[j + 1]) == dir_spec(c[ix[j]], c[ix[j] + 1]),
    ensures
        forall|j: int| 0 <= j < r.len() - 1 ==> #[trigger] corner(r, j),
{
    let m = ix.len() as int;
    let i0 = ix[0];
    let il = ix[m - 1];
    assert forall|j: int| 0 <= j < r.len() - 1 implies #[trigger] corner(r, j) by {
        let pj = if j == 0 { r.len() - 2 } else { j - 1 };
        assert(step_ok(r, pj) && dir_spec(r[pj], r[pj + 1]) == dir_spec(c[ix[pj]], c[ix[pj] + 1]));
        assert(step_ok(r, j) && dir_spec(r[j], r[j + 1]) == dir_spec(c[ix[j]], c[ix[j] + 1]));
        assert(keeps(c, n, ix[j]));
        assert(0 <= ix[j] < n);
        let cp = if ix[j] == 0 { c[n - 1] } else { c[ix[j] - 1] };
        let cn = if ix[j] + 1 == n { c[0] } else { c[ix[j] + 1] };
        assert(cn == c[ix[j] + 1]);
        assert(step_ok(c, ix[j]));
        if j == 0 {
            assert(pj == m - 1);
            assert(r[pj] == c[il] && r[pj + 1] == c[i0]);
            if i0 == 0 {
                assert(step_ok(c, n - 1));
            } else {
                assert(step_ok(c, i0 - 1));
            }
            lemma_corner_dirs(cp, c[ix[j]], cn, r[pj], r[j], r[j + 1]);
        } else {
            assert(r[pj] == c[ix[j - 1]] && r[j] == c[ix[j]]);
            assert(ix[j] > 0) by {
                assert(ix[0] < ix[j]);
            }
            assert(step_ok(c, ix[j] - 1));
            assert(ix[j] == ix[j]);
            lemma_corner_dirs(cp, c[ix[j]], cn, r[pj], r[j], r[j + 1]);
        }
    }
}

/// The wrap of a closed ring from its last kept point round to its first keeps the
/// direction of the step out of the last kept point, and arrives along the step into the
/// first.
#[verifier::spinoff_prover]
#[verifier::rlimit(40)]
proof fn lemma_wrap_shape(c: Seq<(i32, i32)>, n: int, ix: Seq<int>)
    requires
        c.len() == n + 1,
        n >= 3,
        c[0] == c[n],
        forall|i: int| 0 <= i < n ==> #[trigger] step_ok(c, i),
        forall|i: int| 0 < i < n ==> #[trigger] no_back3(c[i - 1], c[i], c[i + 1]),
        no_back3(c[n - 1], c[0], c[1]),
        kidx_ok(c, n, ix),
        ix.len() >= 1,
    ensures
        ({
            let i0 = ix[0];
            let il = ix[ix.len() - 1];
            let prev0 = if i0 == 0 { c[n - 1] } else { c[i0 - 1] };
            &&& dir_spec(c[il], c[i0]) == dir_spec(c[il], c[il + 1])
            &&& dir_spec(prev0, c[i0]) == dir_spec(c[il], c[il + 1])
            &&& (c[il].0 == c[i0].0 || c[il].1 == c[i0].1)
        }),
{
    let m = ix.len() as int;
    let i0 = ix[0];
    let il = ix[m - 1];
    lemma_keeps_straight(c, n);
    assert(i0 <= il) by {
        if m > 1 {
            assert(ix[0] < ix[m - 1]);
        }
    }
    let wa = c.subrange(il, n + 1);
    let wb = c.subrange(0, i0 + 1);
    let w = wa + wb.drop_first();
    let d = n - il;
    assert(w.len() == d + 1 + i0);
    assert forall|j: int| 0 <= j <= d implies #[trigger] w[j] == c[il + j] by {}
    assert forall|j: int| d < j < w.len() implies #[trigger] w[j] == c[j - d] by {}
    assert forall|j: int| 0 <= j < w.len() - 1 implies #[trigger] step_ok(w, j) by {
        if j < d {
            assert(w[j] == c[il + j] && w[j + 1] == c[il + j + 1]);
            assert(step_ok(c, il + j));
        } else if j == d {
            assert(w[j] == c[n] && w[j + 1] == c[1]);
            assert(step_ok(c, 0));
        } else {
            assert(w[j] == c[j - d] && w[j + 1] == c[j + 1 - d]);
            assert(step_ok(c, j - d));
        }
    }
    assert forall|j: int| 0 < j < w.len() - 1 implies #[trigger] straight(w, j) && no_back3(w[j - 1], w[j], w[j + 1]) by {
        if j < d {
            assert(w[j - 1] == c[il + j - 1] && w[j] == c[il + j] && w[j + 1] == c[il + j + 1]);
            assert(no_back3(c[il + j - 1], c[il + j], c[il + j + 1]));
            if !straight(c, il + j) {
                let q = choose|q: int| 0 <= q < ix.len() && #[trigger] ix[q] == il + j;
                if q < m - 1 {
                    assert(ix[q] < ix[m - 1]);
                }
            }
        } else if j == d {
            assert(w[j - 1] == c[n - 1] && w[j] == c[n] && w[j + 1] == c[1]);
            if keeps(c, n, 0) {
                let q = choose|q: int| 0 <= q < ix.len() && #[trigger] ix[q] == 0;
                if q > 0 {
                    assert(ix[0] < ix[q]);
                }
            }
        } else {
            let i = j - d;
            assert(w[j - 1] == c[i - 1] && w[j] == c[i] && w[j + 1] == c[i + 1]);
            assert(no_back3(c[i - 1], c[i], c[i + 1]));
            if !straight(c, i) {
                let q = choose|q: int| 0 <= q < ix.len() && #[trigger] ix[q] == i;
                if q > 0 {
                    assert(ix[0] < ix[q]);
                }
            }
        }
    }
    assert forall|j: int| 0 < j < w.len() - 1 implies #[trigger] no_back3(w[j - 1], w[j], w[j + 1]) by {
        assert(straight(w, j));
    }
    lemma_chain_dir(w, 0, w.len() - 1);
    lemma_chain(w, 0, w.len() - 1, 0, 0);
    assert(w[0] == c[il]);
    assert(w[1] == c[il + 1]) by {
        if d >= 1 {
            assert(w[1] == c[il + 1]);
        } else {
            assert(il == n);
        }
    }
    assert(w[w.len() - 1] == c[i0]) by {
        if i0 == 0 {
            assert(w[w.len() - 1] == c[n]);
        } else {
            assert(w[w.len() - 1] == c[i0]);
        }
    }
    assert(w[w.len() - 2] == (if i0 == 0 { c[n - 1] } else { c[i0 - 1] })) by {
        if i0 == 0 {
            assert(w[w.len() - 2] == c[n - 1]);
        } else if i0 == 1 {
            assert(w[w.len() - 2] == c[n]);
        } else {
            assert(w[w.len() - 2] == c[i0 - 1]);
        }
    }
}


/// Between consecutive kept points a closed ring keeps one direction along one axis.
#[verifier::spinoff_prover]
#[verifier::rlimit(60)]
proof fn lemma_kept_steps(c: Seq<(i32, i32)>, n: int, ix: Seq<int>)
    requires
        c.len() == n + 1,
        n >= 3,
        c[0] == c[n],
        forall|i: int| 0 <= i < n ==> #[trigger] step_ok(c, i),
        forall|i: int| 0 < i < n ==> #[trigger] no_back3(c[i - 1], c[i], c[i + 1]),
        forall|i: int| 0 < i < n ==> (keeps(c, n, i) <==> !#[trigger] straight(c, i)),
        kidx_ok(c, n, ix),
    ensures
        forall|t: int| #![trigger ix[t]] 0 < t < ix.len() ==> dir_spec(c[ix[t - 1]], c[ix[t]]) == dir_spec(c[ix[t - 1]], c[ix[t - 1] + 1])
            && dir_spec(c[ix[t] - 1], c[ix[t]]) == dir_spec(c[ix[t - 1]], c[ix[t - 1] + 1])
            && ((c[ix[t - 1]].0 == c[ix[t]].0) || (c[ix[t - 1]].1 == c[ix[t]].1)),
{
    let m = ix.len() as int;
    // consecutive kept points: direction of the step out of the first, into the second
    assert forall|t: int, i: int| #![trigger ix[t], straight(c, i)] 0 < t < m && ix[t - 1] < i < ix[t] implies straight(c, i) by {
        if !straight(c, i) {
            let j = choose|j: int| 0 <= j < ix.len() && #[trigger] ix[j] == i;
            if j < t {
                if j < t - 1 {
                    assert(ix[j] < ix[t - 1]);
                }
            } else {
                if j > t {
                    assert(ix[t] < ix[j]);
                }
            }
        }
    }
    assert forall|t: int| #![trigger ix[t]] 0 < t < m implies dir_spec(c[ix[t - 1]], c[ix[t]]) == dir_spec(c[ix[t - 1]], c[ix[t - 1] + 1])
        && dir_spec(c[ix[t] - 1], c[ix[t]]) == dir_spec(c[ix[t - 1]], c[ix[t - 1] + 1])
        && ((c[ix[t - 1]].0 == c[ix[t]].0) || (c[ix[t - 1]].1 == c[ix[t]].1)) by {
        assert(ix[t - 1] < ix[t]);
        assert forall|i: int| ix[t - 1] <= i < ix[t] implies #[trigger] step_ok(c, i) by {}
        assert forall|i: int| ix[t - 1] < i < ix[t] implies #[trigger] straight(c, i) by {
            assert(ix[t] == ix[t]);
        }
        assert forall|i: int| ix[t - 1] < i < ix[t] implies #[trigger] no_back3(c[i - 1], c[i], c[i + 1]) by {}
        lemma_chain_dir(c, ix[t - 1], ix[t]);
        lemma_chain(c, ix[t - 1], ix[t], 0, 0);
    }
}


/// Every ring traced from every still-unused piece from `start` on is a closed ring of
/// axis-parallel steps whose every point is a corner.
proof fn lemma_trace_shape(units: Seq<Edge>, used: Seq<bool>, start: int, rings: Seq<Seq<(i32, i32)>>)
    requires
        used.len() == units.len(),
        0 <= start,
        forall|w: (i32, i32)| #[trigger] flow(units, w) == 0,
        forall|w: (i32, i32)| #[trigger] ufl(units, used, w, units.len() as int) == 0,
        forall|i: int| 0 <= i < units.len() ==> #[trigger] unit_ok(units[i]),
        single_cover(units),
        forall|i: int| 0 <= i < rings.len() ==> #[trigger] ring_shape(rings[i]),
    ensures
        forall|i: int| 0 <= i < trace_from(units, used, start, rings).len() ==> #[trigger] ring_shape(trace_from(units, used, start, rings)[i]),
    decreases units.len() - start,
{
    let n = units.len() as int;
    if start >= n {
        assert(trace_from(units, used, start, rings) == rings);
    } else if used[start] {
        lemma_trace_shape(units, used, start + 1, rings);
        assert(trace_from(units, used, start, rings) == trace_from(units, used, start + 1, rings));
    } else {
        let s = units[start].0;
        assert forall|w: (i32, i32)| #[trigger] ufl(units, used, w, n) == ind(w == s) - ind(w == units[start].0) by {}
        lemma_walk(units, used, start, Seq::empty(), s);
        lemma_walk_shape(units, used, start, Seq::empty(), s);
        let (u2, ring) = walk_spec(units, used, start, Seq::empty());
        assert(ring.subrange(0, ring.len() as int) =~= ring);
        let closed = ring.push(ring[0]);
        assert(ring[0] == s);
        let q0 = ring.subrange(0, ring.len() as int).push(s);
        assert(closed =~= q0);
        let r = simplify_spec(closed);
        let rings2 = if r.len() >= 4 { rings.push(r) } else { rings };
        assert(trace_from(units, used, start, rings) == trace_from(units, u2, start + 1, rings2));
        if r.len() >= 4 {
            assert(closed.len() >= 4);
            assert forall|i: int| 0 <= i < closed.len() - 1 implies #[trigger] step_ok(closed, i) by {
                assert(step_ok(q0, i));
            }
            assert forall|i: int| 0 < i < closed.len() - 1 implies #[trigger] no_back3(closed[i - 1], closed[i], closed[i + 1]) by {
                assert(no_back3(q0[i - 1], q0[i], q0[i + 1]));
            }
            let l = choose|l: int| 0 <= l < units.len() && !used[l] && units[l].0 == q0[q0.len() - 2] && units[l].1 == q0[q0.len() - 1];
            assert(q0[1] == units[start].1);
            assert(unit_ok(units[start]) && unit_ok(units[l]));
            assert(l != start);
            lemma_no_back(units, l, start);
            assert(no_back3(closed[closed.len() - 2], closed[0], closed[1]));
            lemma_simplify_shape(closed);
            assert forall|i: int| 0 <= i < rings2.len() implies #[trigger] ring_shape(rings2[i]) by {
                if i < rings.len() {
                    assert(rings2[i] == rings[i]);
                }
            }
        }
        lemma_trace_shape(units, u2, start + 1, rings2);
        assert(trace_from(units, used, start, rings) == trace_from(units, u2, start + 1, rings2));
    }
}

/// Every ring traced from the pieces of the union's walls is a closed ring of
/// axis-parallel steps between distinct points, each of whose points is a corner.
pub proof fn lemma_rings_shape(rects: Seq<Rect>, ev: Seq<Edge>, eh: Seq<Edge>)
    requires
        tiles_ok(rects),
        union_boundary(vwalls_of(rects), true, ev),
        union_boundary(hwalls_of(rects), false, eh),
        forall|k: int| 0 <= k < (ev + eh).len() ==> stops_ok(ev + eh, #[trigger] (ev + eh)[k]),
    ensures
        forall|i: int| 0 <= i < contours_of(ev, eh).len() ==> #[trigger] ring_shape(contours_of(ev, eh)[i]),
{
    let all = ev + eh;
    let units = units_of(all, all);
    let n = units.len() as int;
    let used = Seq::new(units.len(), |i: int| false);
    lemma_pieces_balanced(rects, ev, eh);
    lemma_pieces_single(rects, ev, eh);
    assert forall|i: int| 0 <= i < all.len() implies stops_ok(all, #[trigger] all[i]) by {}
    lemma_units_proper(all, all);
    assert forall|w: (i32, i32)| #[trigger] ufl(units, used, w, n) == 0 by {
        lemma_none_used(units, used, w, 0, 0, n);
    }
    lemma_trace_shape(units, used, 0, Seq::empty());
}

} // verus!
