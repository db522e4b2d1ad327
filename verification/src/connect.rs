//! Connectivity: layer-tagged geometry into connected nets.
//!
//! The caller prepares the connective geometry per layer and describes how cut (via)
//! layers join the others:
//!
//! - [`Cut::Enclosed`] joins layers `a` and `b` only where a cut shape is *enclosed* by
//!   a shape on each (a DRC-clean contact).
//! - [`Cut::Overlap`] joins any shapes a cut shape *meets* (looser).
//!
//! [`trace`] returns per-layer **prims** (a prim is one same-layer connected component,
//! true-tiled), a **net id** per prim, an optional **name** per net (from a text label),
//! and a per-net **cut count**.

use vstd::prelude::*;
use vstd::string::StringExecFns;
use crate::boolean::{boolean, boolean_poly, op_holds, views, pts_total, Op};
use crate::engine::{bbox_rect, bool_result, lemma_bbox_unique};
use crate::geom::{bbox, covers, rcount, ind, ring_len, ring_count, rect_wf, lemma_rcount_covers, Rect};
use crate::index::{boxes_meet, proper, all_proper, RegionIndex};

verus! {

/// GDS layer and datatype.
pub type Ld = (i16, i16);

/// A rectilinear polygon (closed ring), in database units.
pub type Poly = Vec<(i32, i32)>;

// ---- geometry helpers ---------------------------------------------------------------

/// Whether two rectangles meet as closed boxes (overlap or touch).
pub fn overlap(a: &Rect, b: &Rect) -> (r: bool)
    ensures
        r == boxes_meet(*a, *b),
{
    a.x0 <= b.x1 && b.x0 <= a.x1 && a.y0 <= b.y1 && b.y0 <= a.y1
}

/// `o` contains `c` as closed boxes.
pub open spec fn contains_spec(o: Rect, c: Rect) -> bool {
    o.x0 <= c.x0 && c.x1 <= o.x1 && o.y0 <= c.y0 && c.y1 <= o.y1
}

/// Whether `o` contains `c` as closed boxes.
pub fn contains(o: &Rect, c: &Rect) -> (r: bool)
    ensures
        r == contains_spec(*o, *c),
{
    o.x0 <= c.x0 && c.x1 <= o.x1 && o.y0 <= c.y0 && c.y1 <= o.y1
}

/// `r` is the bounding box of the corners of the non-empty list `rs`: the least `x0`
/// and `y0`, the greatest `x1` and `y1`.
pub open spec fn is_union_bbox(rs: Seq<Rect>, r: Rect) -> bool {
    &&& forall|k: int| 0 <= k < rs.len() ==> r.x0 <= (#[trigger] rs[k]).x0 && r.y0 <= rs[k].y0 && rs[k].x1 <= r.x1 && rs[k].y1 <= r.y1
    &&& exists|k: int| 0 <= k < rs.len() && (#[trigger] rs[k]).x0 == r.x0
    &&& exists|k: int| 0 <= k < rs.len() && (#[trigger] rs[k]).y0 == r.y0
    &&& exists|k: int| 0 <= k < rs.len() && (#[trigger] rs[k]).x1 == r.x1
    &&& exists|k: int| 0 <= k < rs.len() && (#[trigger] rs[k]).y1 == r.y1
}

/// The bounding box of a non-empty list of rectangles.
pub fn union_bbox(rects: &[Rect]) -> (r: Rect)
    requires
        rects@.len() > 0,
    ensures
        is_union_bbox(rects@, r),
{
    let mut r = rects[0];
    let mut k: usize = 1;
    proof {
        assert(rects@.take(1)[0] == rects@[0]);
    }
    while k < rects.len()
        invariant
            1 <= k <= rects@.len(),
            is_union_bbox(rects@.take(k as int), r),
        decreases rects@.len() - k,
    {
        let x = rects[k];
        let ghost before = r;
        let ghost t = rects@.take(k as int);
        if x.x0 < r.x0 {
            r.x0 = x.x0;
        }
        if x.y0 < r.y0 {
            r.y0 = x.y0;
        }
        if x.x1 > r.x1 {
            r.x1 = x.x1;
        }
        if x.y1 > r.y1 {
            r.y1 = x.y1;
        }
        proof {
            let t2 = rects@.take(k + 1);
            assert(t2 =~= t.push(x));
            assert forall|j: int| 0 <= j < t2.len() implies r.x0 <= (#[trigger] t2[j]).x0 && r.y0 <= t2[j].y0 && t2[j].x1 <= r.x1 && t2[j].y1 <= r.y1 by {
                if j < t.len() {
                    assert(t2[j] == t[j]);
                }
            }
            if r.x0 == before.x0 {
                let j = choose|j: int| 0 <= j < t.len() && (#[trigger] t[j]).x0 == before.x0;
                assert(t2[j] == t[j]);
            } else {
                assert(t2[k as int].x0 == r.x0);
            }
            if r.y0 == before.y0 {
                let j = choose|j: int| 0 <= j < t.len() && (#[trigger] t[j]).y0 == before.y0;
                assert(t2[j] == t[j]);
            } else {
                assert(t2[k as int].y0 == r.y0);
            }
            if r.x1 == before.x1 {
                let j = choose|j: int| 0 <= j < t.len() && (#[trigger] t[j]).x1 == before.x1;
                assert(t2[j] == t[j]);
            } else {
                assert(t2[k as int].x1 == r.x1);
            }
            if r.y1 == before.y1 {
                let j = choose|j: int| 0 <= j < t.len() && (#[trigger] t[j]).y1 == before.y1;
                assert(t2[j] == t[j]);
            } else {
                assert(t2[k as int].y1 == r.y1);
            }
        }
        k += 1;
    }
    proof {
        assert(rects@.take(rects@.len() as int) =~= rects@);
    }
    r
}

/// The bounding box of a non-empty rectangle list.
pub open spec fn ubbox(rs: Seq<Rect>) -> Rect {
    choose|r: Rect| is_union_bbox(rs, r)
}

/// A union bounding box is determined by its rectangles.
pub proof fn lemma_union_bbox_unique(rs: Seq<Rect>, r1: Rect, r2: Rect)
    requires
        is_union_bbox(rs, r1),
        is_union_bbox(rs, r2),
    ensures
        r1 == r2,
{
    let a = choose|k: int| 0 <= k < rs.len() && (#[trigger] rs[k]).x0 == r1.x0;
    let b = choose|k: int| 0 <= k < rs.len() && (#[trigger] rs[k]).x0 == r2.x0;
    let c = choose|k: int| 0 <= k < rs.len() && (#[trigger] rs[k]).y0 == r1.y0;
    let d = choose|k: int| 0 <= k < rs.len() && (#[trigger] rs[k]).y0 == r2.y0;
    let e = choose|k: int| 0 <= k < rs.len() && (#[trigger] rs[k]).x1 == r1.x1;
    let f = choose|k: int| 0 <= k < rs.len() && (#[trigger] rs[k]).x1 == r2.x1;
    let g = choose|k: int| 0 <= k < rs.len() && (#[trigger] rs[k]).y1 == r1.y1;
    let h = choose|k: int| 0 <= k < rs.len() && (#[trigger] rs[k]).y1 == r2.y1;
    assert(r2.x0 <= rs[a].x0 && r1.x0 <= rs[b].x0 && r2.y0 <= rs[c].y0 && r1.y0 <= rs[d].y0);
    assert(rs[e].x1 <= r2.x1 && rs[f].x1 <= r1.x1 && rs[g].y1 <= r2.y1 && rs[h].y1 <= r1.y1);
}

/// Some rectangle of `outer` contains `c`.
pub open spec fn in_some(outer: Seq<Rect>, c: Rect) -> bool {
    exists|j: int| 0 <= j < outer.len() && contains_spec(outer[j], c)
}

/// Every rectangle of `inner` is contained in some rectangle of `outer`.
pub open spec fn all_contained(inner: Seq<Rect>, outer: Seq<Rect>) -> bool {
    forall|i: int| 0 <= i < inner.len() ==> #[trigger] in_some(outer, inner[i])
}

/// `inner` is enclosed by `outer`: both non-empty, their bounding boxes meet, and every
/// rectangle of `inner` lies in one of `outer` or, failing that, every cell `inner`
/// covers `outer` covers too.
pub open spec fn enclosed_spec(inner: Seq<Rect>, outer: Seq<Rect>) -> bool {
    &&& inner.len() > 0
    &&& outer.len() > 0
    &&& boxes_meet(ubbox(inner), ubbox(outer))
    &&& (all_contained(inner, outer) || forall|x: int, y: int| covers(inner, x, y) ==> covers(outer, x, y))
}

/// Whether `inner` is enclosed by `outer` (a DRC-clean contact sits inside its metal).
pub fn enclosed(inner: &[Rect], outer: &[Rect]) -> (r: bool)
    ensures
        r == enclosed_spec(inner@, outer@),
{
    if inner.len() == 0 || outer.len() == 0 {
        return false;
    }
    let bi = union_bbox(inner);
    let bo = union_bbox(outer);
    proof {
        lemma_union_bbox_unique(inner@, bi, ubbox(inner@));
        lemma_union_bbox_unique(outer@, bo, ubbox(outer@));
    }
    if !overlap(&bi, &bo) {
        return false;
    }
    // every rectangle of `inner` inside one of `outer`?
    let mut all = true;
    let mut i: usize = 0;
    while i < inner.len()
        invariant
            i <= inner@.len(),
            all == forall|k: int| 0 <= k < i ==> #[trigger] in_some(outer@, inner@[k]),
        decreases inner@.len() - i,
    {
        let mut found = false;
        let mut j: usize = 0;
        while j < outer.len()
            invariant
                j <= outer@.len(),
                i < inner@.len(),
                found == exists|q: int| 0 <= q < j && contains_spec(outer@[q], inner@[i as int]),
            decreases outer@.len() - j,
        {
            if contains(&outer[j], &inner[i]) {
                found = true;
            }
            j += 1;
        }
        let ghost all0 = all;
        if !found {
            all = false;
        }
        proof {
            assert(found == in_some(outer@, inner@[i as int]));
            if !found {
                assert(!(forall|k: int| 0 <= k < i + 1 ==> #[trigger] in_some(outer@, inner@[k])));
            } else if !all0 {
                let k = choose|k: int| !(0 <= k < i ==> #[trigger] in_some(outer@, inner@[k]));
                assert(!in_some(outer@, inner@[k]));
                assert(!(forall|k: int| 0 <= k < i + 1 ==> #[trigger] in_some(outer@, inner@[k])));
            }
        }
        i += 1;
    }
    if all {
        return true;
    }
    let rest = boolean(inner, outer, Op::Not);
    proof {
        if rest@.len() == 0 {
            assert forall|x: int, y: int| covers(inner@, x, y) implies covers(outer@, x, y) by {
                assert(rcount(rest@, x, y) == 0) by {
                    reveal_with_fuel(rcount, 1);
                }
                assert(ind(op_holds(Op::Not, covers(inner@, x, y), covers(outer@, x, y))) == 0);
            }
        } else {
            let r0 = rest@[0];
            assert(rect_wf(r0));
            let (x, y) = (r0.x0 as int, r0.y0 as int);
            lemma_rcount_covers(rest@, x, y);
            assert(crate::geom::rect_contains(rest@[0], x, y));
            assert(covers(rest@, x, y));
            assert(ind(op_holds(Op::Not, covers(inner@, x, y), covers(outer@, x, y))) >= 1);
        }
    }
    rest.len() == 0
}

/// The corners of a ring all lie on the corners of its bounding box, and it has four of
/// them (a repeated closing point dropped).
pub open spec fn is_rect_spec(poly: Seq<(i32, i32)>) -> bool {
    &&& ring_len(poly) == 4
    &&& forall|k: int|
        0 <= k < 4 ==> ((#[trigger] poly[k]).0 == bbox_rect(poly).x0 || poly[k].0 == bbox_rect(poly).x1) && (poly[k].1
            == bbox_rect(poly).y0 || poly[k].1 == bbox_rect(poly).y1)
}

/// Whether `poly` is a single axis-aligned rectangle (the common case).
pub fn is_rect(poly: &[(i32, i32)]) -> (r: bool)
    ensures
        r == is_rect_spec(poly@),
{
    let n = ring_count(poly);
    if n != 4 {
        return false;
    }
    let bb = match bbox(poly) {
        Some(b) => b,
        None => {
            return false;
        },
    };
    proof {
        lemma_bbox_unique(poly@, bb, bbox_rect(poly@));
    }
    let mut k: usize = 0;
    while k < 4
        invariant
            k <= 4,
            poly@.len() >= 4,
            bb == bbox_rect(poly@),
            forall|j: int|
                0 <= j < k ==> ((#[trigger] poly@[j]).0 == bb.x0 || poly@[j].0 == bb.x1) && (poly@[j].1 == bb.y0 || poly@[j].1
                    == bb.y1),
        decreases 4 - k,
    {
        let (x, y) = poly[k];
        if !((x == bb.x0 || x == bb.x1) && (y == bb.y0 || y == bb.y1)) {
            assert(!(((poly@[k as int]).0 == bb.x0 || poly@[k as int].0 == bb.x1) && (poly@[k as int].1 == bb.y0
                || poly@[k as int].1 == bb.y1)));
            return false;
        }
        k += 1;
    }
    true
}

proof fn lemma_pts_total_one(p: Seq<(i32, i32)>)
    ensures
        pts_total(seq![p]) == p.len(),
        pts_total(Seq::<Seq<(i32, i32)>>::empty()) == 0,
{
    assert(seq![p].drop_last() =~= Seq::<Seq<(i32, i32)>>::empty());
    assert(pts_total(Seq::<Seq<(i32, i32)>>::empty()) == 0);
    assert(seq![p].last() == p);
    assert(pts_total(seq![p]) == pts_total(seq![p].drop_last()) + seq![p].last().len());
}

/// Rect-tiling of a rectilinear polygon — preserves the true geometry (not a bounding
/// box): a rectangle as itself, anything else by the boolean engine's union.
pub fn tile(poly: &[(i32, i32)]) -> (res: Vec<Rect>)
    ensures
        is_rect_spec(poly@) ==> res@ == seq![bbox_rect(poly@)],
        !is_rect_spec(poly@) ==> bool_result(res@, seq![poly@], Seq::empty(), Op::Or),
{
    if is_rect(poly) {
        let b = match bbox(poly) {
            Some(b) => b,
            None => Rect { x0: 0, y0: 0, x1: 0, y1: 0 },
        };
        proof {
            lemma_bbox_unique(poly@, b, bbox_rect(poly@));
        }
        let mut v: Vec<Rect> = Vec::new();
        v.push(b);
        proof {
            assert(v@ =~= seq![bbox_rect(poly@)]);
        }
        return v;
    }
    let mut one: Vec<Vec<(i32, i32)>> = Vec::new();
    let mut copy: Vec<(i32, i32)> = Vec::new();
    let mut k: usize = 0;
    while k < poly.len()
        invariant
            k <= poly@.len(),
            copy@ == poly@.take(k as int),
        decreases poly@.len() - k,
    {
        copy.push(poly[k]);
        k += 1;
        proof {
            assert(copy@ =~= poly@.take(k as int));
        }
    }
    proof {
        assert(poly@.take(poly@.len() as int) =~= poly@);
    }
    one.push(copy);
    let none: Vec<Vec<(i32, i32)>> = Vec::new();
    proof {
        assert(views(one@) =~= seq![poly@]);
        assert(views(none@) =~= Seq::<Seq<(i32, i32)>>::empty());
        lemma_pts_total_one(poly@);
    }
    let res = boolean_poly(one.as_slice(), none.as_slice(), Op::Or);
    res
}

/// Some rectangle contains the point `(x, y)` (edges included).
pub open spec fn pt_in_spec(rects: Seq<Rect>, x: i32, y: i32) -> bool {
    exists|k: int| 0 <= k < rects.len() && (#[trigger] rects[k]).x0 <= x <= rects[k].x1 && rects[k].y0 <= y <= rects[k].y1
}

/// Whether some rectangle contains the point (edges included).
pub fn pt_in(rects: &[Rect], x: i32, y: i32) -> (r: bool)
    ensures
        r == pt_in_spec(rects@, x, y),
{
    let mut k: usize = 0;
    while k < rects.len()
        invariant
            k <= rects@.len(),
            forall|j: int| 0 <= j < k ==> !((#[trigger] rects@[j]).x0 <= x <= rects@[j].x1 && rects@[j].y0 <= y <= rects@[j].y1),
        decreases rects@.len() - k,
    {
        let r = rects[k];
        if r.x0 <= x && x <= r.x1 && r.y0 <= y && y <= r.y1 {
            return true;
        }
        k += 1;
    }
    false
}

// ---- connected components -------------------------------------------------------------

/// `p` walks through rectangles of `rs`, each meeting the next.
pub open spec fn chain(rs: Seq<Rect>, p: Seq<int>) -> bool {
    &&& p.len() >= 1
    &&& forall|k: int| 0 <= k < p.len() ==> 0 <= #[trigger] p[k] < rs.len()
    &&& forall|k: int| 0 <= k < p.len() - 1 ==> #[trigger] boxes_meet(rs[p[k]], rs[p[k + 1]])
}

/// Rectangles `i` and `j` of `rs` are linked by a chain of meeting rectangles.
pub open spec fn linked(rs: Seq<Rect>, i: int, j: int) -> bool {
    exists|p: Seq<int>| #[trigger] chain(rs, p) && p[0] == i && p[p.len() - 1] == j
}

proof fn lemma_linked_refl(rs: Seq<Rect>, i: int)
    requires
        0 <= i < rs.len(),
    ensures
        linked(rs, i, i),
{
    assert(chain(rs, seq![i]));
}

proof fn lemma_linked_step(rs: Seq<Rect>, i: int, x: int, y: int)
    requires
        linked(rs, i, x),
        0 <= y < rs.len(),
        boxes_meet(rs[x], rs[y]),
    ensures
        linked(rs, i, y),
{
    let p = choose|p: Seq<int>| #[trigger] chain(rs, p) && p[0] == i && p[p.len() - 1] == x;
    let q = p.push(y);
    assert forall|k: int| 0 <= k < q.len() - 1 implies #[trigger] boxes_meet(rs[q[k]], rs[q[k + 1]]) by {
        if k < p.len() - 1 {
            assert(boxes_meet(rs[p[k]], rs[p[k + 1]]));
        }
    }
    assert(chain(rs, q));
}

proof fn lemma_linked_sym(rs: Seq<Rect>, i: int, j: int)
    requires
        linked(rs, i, j),
    ensures
        linked(rs, j, i),
{
    let p = choose|p: Seq<int>| #[trigger] chain(rs, p) && p[0] == i && p[p.len() - 1] == j;
    let q = p.reverse();
    assert forall|k: int| 0 <= k < q.len() - 1 implies #[trigger] boxes_meet(rs[q[k]], rs[q[k + 1]]) by {
        let b = p.len() - 2 - k;
        assert(0 <= b < p.len() - 1);
        assert(boxes_meet(rs[p[b]], rs[p[b + 1]]));
        assert(q[k] == p[b + 1] && q[k + 1] == p[b]);
    }
    assert(chain(rs, q));
}

proof fn lemma_linked_trans(rs: Seq<Rect>, i: int, j: int, k: int)
    requires
        linked(rs, i, j),
        linked(rs, j, k),
    ensures
        linked(rs, i, k),
{
    let p = choose|p: Seq<int>| #[trigger] chain(rs, p) && p[0] == i && p[p.len() - 1] == j;
    let q = choose|q: Seq<int>| #[trigger] chain(rs, q) && q[0] == j && q[q.len() - 1] == k;
    let r = p + q.skip(1);
    assert forall|t: int| 0 <= t < r.len() - 1 implies #[trigger] boxes_meet(rs[r[t]], rs[r[t + 1]]) by {
        if t < p.len() - 1 {
            assert(boxes_meet(rs[p[t]], rs[p[t + 1]]));
        } else {
            let u = t - p.len() + 1;
            assert(boxes_meet(rs[q[u]], rs[q[u + 1]]));
        }
    }
    assert(chain(rs, r));
}

/// The label of an unlabeled rectangle.
pub const UNSET: usize = usize::MAX;

/// How many entries are unlabeled.
pub open spec fn unset_count(lab: Seq<usize>) -> nat
    decreases lab.len(),
{
    if lab.len() == 0 {
        0
    } else {
        unset_count(lab.drop_last()) + if lab.last() == UNSET { 1nat } else { 0nat }
    }
}

proof fn lemma_unset_count_update(lab: Seq<usize>, k: int, v: usize)
    requires
        0 <= k < lab.len(),
        lab[k] == UNSET,
        v != UNSET,
    ensures
        unset_count(lab.update(k, v)) + 1 == unset_count(lab),
    decreases lab.len(),
{
    if k < lab.len() - 1 {
        assert(lab.update(k, v).drop_last() =~= lab.drop_last().update(k, v));
        lemma_unset_count_update(lab.drop_last(), k, v);
    } else {
        assert(lab.update(k, v).drop_last() =~= lab.drop_last());
    }
}

/// A grouping of the rectangles `rs`: `lab[i]` is the group of rectangle `i`, `ids[g]`
/// lists the rectangles of group `g` once each, and `groups[g]` holds them.
pub open spec fn grouping(rs: Seq<Rect>, groups: Seq<Seq<Rect>>, lab: Seq<int>, ids: Seq<Seq<int>>) -> bool {
    &&& lab.len() == rs.len()
    &&& ids.len() == groups.len()
    &&& forall|i: int| 0 <= i < rs.len() ==> 0 <= #[trigger] lab[i] < groups.len()
    &&& forall|g: int| 0 <= g < groups.len() ==> (#[trigger] groups[g]).len() == ids[g].len() && ids[g].len() > 0
    &&& forall|g: int, k: int|
        0 <= g < groups.len() && 0 <= k < ids[g].len() ==> 0 <= #[trigger] ids[g][k] < rs.len() && groups[g][k] == rs[ids[g][k]]
            && lab[ids[g][k]] == g
    &&& forall|g: int, k1: int, k2: int|
        0 <= g < ids.len() && 0 <= k1 < k2 < ids[g].len() ==> #[trigger] ids[g][k1] != #[trigger] ids[g][k2]
    &&& forall|i: int| 0 <= i < rs.len() ==> #[trigger] ids[lab[i]].contains(i)
}

/// The connected components of `rs`: rectangles that meet share a group, and a group's
/// rectangles are linked by chains of meeting rectangles.
pub open spec fn is_components(rs: Seq<Rect>, groups: Seq<Seq<Rect>>) -> bool {
    exists|lab: Seq<int>, ids: Seq<Seq<int>>|
        #[trigger] grouping(rs, groups, lab, ids) && (forall|i: int, j: int|
            0 <= i < rs.len() && 0 <= j < rs.len() && boxes_meet(rs[i], rs[j]) ==> #[trigger] lab[i] == #[trigger] lab[j])
            && (forall|i: int, j: int| 0 <= i < rs.len() && 0 <= j < rs.len() && #[trigger] lab[i] == #[trigger] lab[j] ==> linked(rs, i, j))
}

/// The rectangle lists of a list of groups.
pub open spec fn gviews(groups: Seq<Vec<Rect>>) -> Seq<Seq<Rect>> {
    groups.map_values(|g: Vec<Rect>| g@)
}

/// An index over `rects` when every rectangle is proper and there are few enough of them.
fn build_index(rects: &[Rect]) -> (ix: Option<RegionIndex>)
    ensures
        ix matches Some(i) ==> i@ == rects@ && all_proper(rects@) && rects@.len() <= 0x1_0000_0000,
        (ix is Some) == (0 < rects@.len() <= 0x1_0000_0000 && all_proper(rects@)),
{
    if rects.len() == 0 || rects.len() as u64 > 0x1_0000_0000u64 {
        return None;
    }
    let mut k: usize = 0;
    while k < rects.len()
        invariant
            k <= rects@.len(),
            forall|j: int| 0 <= j < k ==> proper(#[trigger] rects@[j]),
        decreases rects@.len() - k,
    {
        if !(rects[k].x0 <= rects[k].x1 && rects[k].y0 <= rects[k].y1) {
            proof {
                assert(!proper(rects@[k as int]));
            }
            return None;
        }
        k += 1;
    }
    proof {
        assert(proper(rects@[0]));
        assert(rects@[0].x0 <= rects@[0].x1 && rects@[0].y0 <= rects@[0].y1);
    }
    Some(RegionIndex::build(rects))
}

/// Every rectangle meeting rectangle `x`: through the index when there is one, else by
/// scanning them all.
fn neighbors(rects: &[Rect], index: &Option<RegionIndex>, x: usize) -> (nb: Vec<usize>)
    requires
        x < rects@.len(),
        index matches Some(ix) ==> ix@ == rects@ && all_proper(rects@) && rects@.len() <= 0x1_0000_0000,
    ensures
        forall|k: int| 0 <= k < nb@.len() ==> (#[trigger] nb@[k]) < rects@.len() && boxes_meet(rects@[x as int], rects@[nb@[k] as int]),
        forall|y: int| 0 <= y < rects@.len() && boxes_meet(rects@[x as int], rects@[y]) ==> nb@.contains(y as usize),
{
    let mut nb: Vec<usize> = Vec::new();
    match index {
        Some(ix) => {
            let r = rects[x];
            let ids = ix.meets(&r);
            proof {
                assert(proper(rects@[x as int]));
            }
            let mut k: usize = 0;
            while k < ids.len()
                invariant
                    k <= ids@.len(),
                    nb@.len() == k,
                    forall|j: int| 0 <= j < k ==> #[trigger] nb@[j] == ids@[j] as usize,
                    forall|j: int| 0 <= j < ids@.len() ==> (#[trigger] ids@[j]) < rects@.len() && boxes_meet(rects@[ids@[j] as int], r),
                    r == rects@[x as int],
                decreases ids@.len() - k,
            {
                nb.push(ids[k] as usize);
                k += 1;
            }
            proof {
                assert forall|y: int| 0 <= y < rects@.len() && boxes_meet(rects@[x as int], rects@[y]) implies nb@.contains(
                    y as usize,
                ) by {
                    assert((y as u32) as int == y);
                    assert(boxes_meet(ix@[(y as u32) as int], r));
                    assert(ids@.contains(y as u32));
                    let j = choose|j: int| 0 <= j < ids@.len() && ids@[j] == y as u32;
                    assert(nb@[j] == ids@[j] as usize);
                }
            }
        },
        None => {
            let mut y: usize = 0;
            while y < rects.len()
                invariant
                    y <= rects@.len(),
                    x < rects@.len(),
                    forall|k: int| 0 <= k < nb@.len() ==> (#[trigger] nb@[k]) < rects@.len() && boxes_meet(rects@[x as int], rects@[nb@[k] as int]),
                    forall|z: int| 0 <= z < y && boxes_meet(rects@[x as int], rects@[z]) ==> nb@.contains(z as usize),
                decreases rects@.len() - y,
            {
                if overlap(&rects[x], &rects[y]) {
                    let ghost before = nb@;
                    nb.push(y);
                    proof {
                        assert forall|z: int| 0 <= z < y + 1 && boxes_meet(rects@[x as int], rects@[z]) implies nb@.contains(z as usize) by {
                            if z < y {
                                let w = choose|w: int| 0 <= w < before.len() && before[w] == z as usize;
                                assert(nb@[w] == z as usize);
                            } else {
                                assert(nb@[before.len() as int] == z as usize);
                            }
                        }
                    }
                }
                y += 1;
            }
        },
    }
    nb
}

/// The labels as integers.
pub open spec fn labs(lab: Seq<usize>) -> Seq<int> {
    lab.map_values(|v: usize| v as int)
}

/// The state of a labeling: groups `0..ng` are complete — each lists its rectangles once,
/// every labeled rectangle is listed in its group, and each is linked to its group's root.
pub open spec fn labeling_ok(rs: Seq<Rect>, lab: Seq<usize>, groups: Seq<Seq<Rect>>, ids: Seq<Seq<int>>, roots: Seq<int>, ng: int) -> bool {
    &&& lab.len() == rs.len()
    &&& ids.len() == ng && roots.len() == ng && groups.len() == ng
    &&& forall|x: int| 0 <= x < rs.len() ==> #[trigger] lab[x] == UNSET || lab[x] < ng
    &&& forall|g: int| 0 <= g < ng ==> (#[trigger] groups[g]).len() == ids[g].len() && ids[g].len() > 0
    &&& forall|g: int, k: int|
        0 <= g < ng && 0 <= k < ids[g].len() ==> 0 <= #[trigger] ids[g][k] < rs.len() && groups[g][k] == rs[ids[g][k]] && lab[ids[g][k]]
            == g
    &&& forall|g: int, k1: int, k2: int| 0 <= g < ng && 0 <= k1 < k2 < ids[g].len() ==> #[trigger] ids[g][k1] != #[trigger] ids[g][k2]
    &&& forall|x: int| 0 <= x < rs.len() && #[trigger] lab[x] < ng ==> ids[lab[x] as int].contains(x)
    &&& forall|x: int| 0 <= x < rs.len() && #[trigger] lab[x] < ng ==> linked(rs, roots[lab[x] as int], x)
}

/// Labeled rectangles that are not waiting (`busy`) have every rectangle they meet in
/// their own group.
pub open spec fn closed_under_meet(rs: Seq<Rect>, lab: Seq<usize>, busy: spec_fn(int) -> bool) -> bool {
    forall|x: int, y: int|
        0 <= x < rs.len() && 0 <= y < rs.len() && #[trigger] lab[x] != UNSET && !busy(x) && #[trigger] boxes_meet(rs[x], rs[y])
            ==> lab[y] == lab[x]
}

/// Grow group `g` from rectangle `root`: label every rectangle linked to it.
fn flood(
    rects: &[Rect],
    index: &Option<RegionIndex>,
    lab: &mut Vec<usize>,
    root: usize,
    g: usize,
    ghost_groups: Ghost<Seq<Seq<Rect>>>,
    ghost_ids: Ghost<Seq<Seq<int>>>,
    ghost_roots: Ghost<Seq<int>>,
) -> (res: (Vec<Rect>, Ghost<Seq<int>>))
    requires
        root < rects@.len(),
        g < UNSET,
        index matches Some(ix) ==> ix@ == rects@ && all_proper(rects@) && rects@.len() <= 0x1_0000_0000,
        labeling_ok(rects@, old(lab)@, ghost_groups@, ghost_ids@, ghost_roots@, g as int),
        old(lab)@[root as int] == UNSET,
        closed_under_meet(rects@, old(lab)@, |x: int| false),
    ensures
        labeling_ok(rects@, final(lab)@, ghost_groups@.push(res.0@), ghost_ids@.push(res.1@), ghost_roots@.push(root as int), g + 1),
        closed_under_meet(rects@, final(lab)@, |x: int| false),
        final(lab)@[root as int] == g,
        forall|x: int| 0 <= x < rects@.len() && old(lab)@[x] != UNSET ==> #[trigger] final(lab)@[x] == old(lab)@[x],
{
    let ghost rs = rects@;
    let nrs = rects.len();
    let ghost groups = ghost_groups@;
    let ghost ids = ghost_ids@;
    let ghost roots = ghost_roots@;
    let ghost lab0 = lab@;
    proof {
        lemma_unset_count_update(lab@, root as int, g);
        lemma_linked_refl(rs, root as int);
    }
    lab.set(root, g);
    let mut members: Vec<Rect> = Vec::new();
    members.push(rects[root]);
    let ghost mut cur: Seq<int> = seq![root as int];
    let mut stack: Vec<usize> = Vec::new();
    stack.push(root);
    proof {
        assert(cur[0] == root as int);
        assert(stack@[0] == root);
        assert forall|x: int, y: int|
            0 <= x < rs.len() && 0 <= y < rs.len() && #[trigger] lab@[x] != UNSET && !((|z: int| lab@[z] == g && stack@.contains(z as usize))(x))
                && #[trigger] boxes_meet(rs[x], rs[y]) implies lab@[y] == lab@[x] by {
            if x == root as int {
                assert(stack@.contains(root));
            } else {
                assert(lab0[x] == lab@[x]);
                assert(lab0[y] == lab0[x]);
                assert(y != root as int);
            }
        }
        assert forall|x: int| 0 <= x < rs.len() && #[trigger] lab@[x] == g implies cur.contains(x) && linked(rs, root as int, x) by {
            if x != root as int {
                assert(lab0[x] == lab@[x]);
                assert(lab0[x] < g);
            } else {
                assert(cur[0] == x);
            }
        }
    }
    while stack.len() > 0
        invariant
            rs == rects@,
            nrs == rs.len(),
            lab@.len() == rs.len(),
            g < UNSET,
            root < rs.len(),
            index matches Some(ix) ==> ix@ == rects@ && all_proper(rects@) && rects@.len() <= 0x1_0000_0000,
            labeling_ok(rs, lab@, groups, ids, roots, g as int) || true,
            // labels only grow, and new ones are g
            forall|x: int| 0 <= x < rs.len() && lab0[x] != UNSET ==> #[trigger] lab@[x] == lab0[x],
            forall|x: int| 0 <= x < rs.len() && lab0[x] == UNSET ==> (#[trigger] lab@[x] == UNSET || lab@[x] == g),
            lab@[root as int] == g,
            // the group so far
            members@.len() == cur.len(),
            cur.len() > 0,
            forall|k: int| 0 <= k < cur.len() ==> 0 <= #[trigger] cur[k] < rs.len() && members@[k] == rs[cur[k]] && lab@[cur[k]] == g,
            forall|k1: int, k2: int| 0 <= k1 < k2 < cur.len() ==> #[trigger] cur[k1] != #[trigger] cur[k2],
            forall|x: int| 0 <= x < rs.len() && #[trigger] lab@[x] == g ==> cur.contains(x) && linked(rs, root as int, x),
            // the waiting rectangles
            forall|k: int| 0 <= k < stack@.len() ==> (#[trigger] stack@[k]) < rs.len() && lab@[stack@[k] as int] == g,
            closed_under_meet(rs, lab@, |x: int| lab@[x] == g && stack@.contains(x as usize)),
        decreases 2 * unset_count(lab@) + stack@.len(),
    {
        let ghost m0 = 2 * unset_count(lab@) + stack@.len();
        let ghost st0 = stack@;
        let ghost labs0 = lab@;
        assert(closed_under_meet(rs, labs0, |z: int| labs0[z] == g && st0.contains(z as usize)));
        let x = stack.pop().unwrap();
        let nb = neighbors(rects, index, x);
        proof {
            assert(st0.last() == x && stack@ =~= st0.drop_last());
            assert(lab@[x as int] == g) by {
                assert(st0[st0.len() - 1] == x);
            }
            assert forall|a: int, y: int|
                0 <= a < rs.len() && 0 <= y < rs.len() && #[trigger] lab@[a] != UNSET && !((|z: int| lab@[z] == g && (stack@.contains(z as usize) || z == x as int))(a))
                    && #[trigger] boxes_meet(rs[a], rs[y]) implies lab@[y] == lab@[a] by {
                if lab@[a] == g && st0.contains(a as usize) {
                    let w = choose|w: int| 0 <= w < st0.len() && st0[w] == a as usize;
                    if w < st0.len() - 1 {
                        assert(stack@[w] == a as usize);
                    } else {
                        assert(a as usize == x);
                        assert(a == x as int);
                    }
                } else {
                    assert(!((|z: int| labs0[z] == g && st0.contains(z as usize))(a)));
                    assert(labs0[y] == labs0[a]);
                }
            }
        }
        let mut t: usize = 0;
        while t < nb.len()
            invariant
                rs == rects@,
                nrs == rs.len(),
                lab@.len() == rs.len(),
                g < UNSET,
                x < rs.len(),
                lab@[x as int] == g,
                forall|k: int| 0 <= k < nb@.len() ==> (#[trigger] nb@[k]) < rs.len() && boxes_meet(rs[x as int], rs[nb@[k] as int]),
                forall|y: int| 0 <= y < rs.len() && boxes_meet(rs[x as int], rs[y]) ==> nb@.contains(y as usize),
                forall|x: int| 0 <= x < rs.len() && lab0[x] != UNSET ==> #[trigger] lab@[x] == lab0[x],
                forall|x: int| 0 <= x < rs.len() && lab0[x] == UNSET ==> (#[trigger] lab@[x] == UNSET || lab@[x] == g),
                lab@[root as int] == g,
                members@.len() == cur.len(),
                cur.len() > 0,
                forall|k: int| 0 <= k < cur.len() ==> 0 <= #[trigger] cur[k] < rs.len() && members@[k] == rs[cur[k]] && lab@[cur[k]] == g,
                forall|k1: int, k2: int| 0 <= k1 < k2 < cur.len() ==> #[trigger] cur[k1] != #[trigger] cur[k2],
                forall|z: int| 0 <= z < rs.len() && #[trigger] lab@[z] == g ==> cur.contains(z) && linked(rs, root as int, z),
                forall|k: int| 0 <= k < stack@.len() ==> (#[trigger] stack@[k]) < rs.len() && lab@[stack@[k] as int] == g,
                closed_under_meet(rs, lab@, |z: int| lab@[z] == g && (stack@.contains(z as usize) || z == x as int)),
                forall|k: int| 0 <= k < t ==> lab@[#[trigger] nb@[k] as int] != UNSET,
                2 * unset_count(lab@) + stack@.len() < m0,
            decreases nb@.len() - t,
        {
            let y = nb[t];
            if lab[y] == UNSET {
                let ghost lab1 = lab@;
                let ghost stack1 = stack@;
                let ghost cur1 = cur;
                proof {
                    lemma_unset_count_update(lab@, y as int, g);
                    assert(boxes_meet(rs[x as int], rs[y as int]));
                    assert(linked(rs, root as int, x as int));
                    lemma_linked_step(rs, root as int, x as int, y as int);
                    assert(!cur.contains(y as int)) by {
                        if cur.contains(y as int) {
                            let w = choose|w: int| 0 <= w < cur.len() && cur[w] == y as int;
                        }
                    }
                }
                lab.set(y, g);
                members.push(rects[y]);
                stack.push(y);
                proof {
                    cur = cur.push(y as int);
                    assert(cur[cur.len() - 1] == y as int);
                    assert forall|k1: int, k2: int| 0 <= k1 < k2 < cur.len() implies #[trigger] cur[k1] != #[trigger] cur[k2] by {
                        if k2 == cur.len() - 1 {
                            assert(cur1.contains(cur[k1]) ==> cur1[k1] == cur[k1]);
                            assert(cur1[k1] == cur[k1]);
                        }
                    }
                    assert forall|z: int| 0 <= z < rs.len() && #[trigger] lab@[z] == g implies cur.contains(z) && linked(rs, root as int, z) by {
                        if z != y as int {
                            assert(lab1[z] == g);
                            let w = choose|w: int| 0 <= w < cur1.len() && cur1[w] == z;
                            assert(cur[w] == z);
                        }
                    }
                    assert forall|a: int, b: int|
                        0 <= a < rs.len() && 0 <= b < rs.len() && #[trigger] lab@[a] != UNSET && !((|z: int| lab@[z] == g && (stack@.contains(z as usize) || z == x as int))(a))
                            && #[trigger] boxes_meet(rs[a], rs[b]) implies lab@[b] == lab@[a] by {
                        if a == y as int {
                            assert(stack@[stack@.len() - 1] == y);
                        } else {
                            assert(lab1[a] == lab@[a]);
                            if lab1[a] == g && (stack1.contains(a as usize) || a == x as int) {
                                if stack1.contains(a as usize) {
                                    let w = choose|w: int| 0 <= w < stack1.len() && stack1[w] == a as usize;
                                    assert(stack@[w] == a as usize);
                                }
                            } else {
                                assert(lab1[b] == lab1[a]);
                                assert(b != y as int);
                            }
                        }
                    }
                    assert forall|k: int| 0 <= k < t + 1 implies lab@[#[trigger] nb@[k] as int] != UNSET by {
                        if k < t {
                            assert(lab1[nb@[k] as int] != UNSET);
                        }
                    }
                }
            }
            t += 1;
        }
        proof {
            let labs2 = lab@;
            let st2 = stack@;
            assert(closed_under_meet(rs, labs2, |z: int| labs2[z] == g && (st2.contains(z as usize) || z == x as int)));
            assert forall|a: int, b: int|
                0 <= a < rs.len() && 0 <= b < rs.len() && #[trigger] lab@[a] != UNSET && !((|z: int| lab@[z] == g && stack@.contains(z as usize))(a))
                    && #[trigger] boxes_meet(rs[a], rs[b]) implies lab@[b] == lab@[a] by {
                if a != x as int {
                    assert(!((|z: int| labs2[z] == g && (st2.contains(z as usize) || z == x as int))(a)));
                }
                if a == x as int {
                    assert(nb@.contains(b as usize));
                    let w = choose|w: int| 0 <= w < nb@.len() && nb@[w] == b as usize;
                    assert(nb@[w] as int == b);
                    assert(lab@[nb@[w] as int] != UNSET);
                    if lab@[b] != g {
                        assert(boxes_meet(rs[b], rs[a]));
                        assert(lab@[b] != UNSET);
                        assert(!((|z: int| labs2[z] == g && (st2.contains(z as usize) || z == x as int))(b)));
                        assert(lab@[a] == lab@[b]);
                    }
                }
            }
        }
    }
    proof {
        let ng = g as int;
        let groups2 = groups.push(members@);
        let ids2 = ids.push(cur);
        let roots2 = roots.push(root as int);
        assert(lab0 == old(lab)@);
        assert forall|x: int| 0 <= x < rs.len() implies #[trigger] lab@[x] == UNSET || lab@[x] < ng + 1 by {
            if lab0[x] != UNSET {
                assert(lab0[x] < ng);
            }
        }
        assert forall|gg: int| 0 <= gg < ng + 1 implies (#[trigger] groups2[gg]).len() == ids2[gg].len() && ids2[gg].len() > 0 by {
            if gg < ng {
                assert(groups2[gg] == groups[gg] && ids2[gg] == ids[gg]);
            }
        }
        assert forall|gg: int, k: int| 0 <= gg < ng + 1 && 0 <= k < ids2[gg].len() implies 0 <= #[trigger] ids2[gg][k] < rs.len()
            && groups2[gg][k] == rs[ids2[gg][k]] && lab@[ids2[gg][k]] == gg by {
            if gg < ng {
                assert(ids2[gg] == ids[gg]);
                assert(groups2[gg] == groups[gg]);
                assert(lab0[ids[gg][k]] == gg);
            } else {
                assert(ids2[gg] == cur);
                assert(groups2[gg] == members@);
            }
        }
        assert forall|gg: int, k1: int, k2: int| 0 <= gg < ng + 1 && 0 <= k1 < k2 < ids2[gg].len() implies #[trigger] ids2[gg][k1]
            != #[trigger] ids2[gg][k2] by {
            if gg < ng {
                assert(ids2[gg] == ids[gg]);
            } else {
                assert(ids2[gg] == cur);
            }
        }
        assert forall|x: int| 0 <= x < rs.len() && #[trigger] lab@[x] < ng + 1 implies ids2[lab@[x] as int].contains(x) by {
            if lab@[x] == g {
                assert(ids2[ng] == cur);
            } else {
                assert(lab0[x] == lab@[x]);
                assert(ids2[lab@[x] as int] == ids[lab@[x] as int]);
            }
        }
        assert forall|x: int| 0 <= x < rs.len() && #[trigger] lab@[x] < ng + 1 implies linked(rs, roots2[lab@[x] as int], x) by {
            if lab@[x] == g {
                assert(roots2[ng] == root as int);
            } else {
                assert(lab0[x] == lab@[x]);
                assert(roots2[lab@[x] as int] == roots[lab@[x] as int]);
            }
        }
        assert(labeling_ok(rs, lab@, groups2, ids2, roots2, ng + 1));
        assert forall|x: int, y: int|
            0 <= x < rs.len() && 0 <= y < rs.len() && #[trigger] lab@[x] != UNSET && !((|z: int| false)(x)) && #[trigger] boxes_meet(rs[x], rs[y])
            implies lab@[y] == lab@[x] by {
            assert(!stack@.contains(x as usize));
        }
    }
    (members, Ghost(cur))
}

/// Connected components of a rectangle set by meeting (overlap or touch), found through
/// a spatial index when the rectangles allow one. The groups come in the order of their
/// first rectangle.
pub fn components(rects: &[Rect]) -> (groups: Vec<Vec<Rect>>)
    ensures
        is_components(rects@, gviews(groups@)),
{
    let ghost rs = rects@;
    let n = rects.len();
    let index = build_index(rects);
    let mut lab: Vec<usize> = Vec::new();
    while lab.len() < n
        invariant
            lab@.len() <= n,
            n == rs.len(),
            forall|x: int| 0 <= x < lab@.len() ==> #[trigger] lab@[x] == UNSET,
        decreases n - lab@.len(),
    {
        lab.push(UNSET);
    }
    let mut groups: Vec<Vec<Rect>> = Vec::new();
    let ghost mut ids: Seq<Seq<int>> = Seq::empty();
    let ghost mut roots: Seq<int> = Seq::empty();
    proof {
        assert(gviews(groups@) =~= Seq::<Seq<Rect>>::empty());
    }
    let mut i: usize = 0;
    while i < n
        invariant
            n == rs.len(),
            rs == rects@,
            i <= n,
            index matches Some(ix) ==> ix@ == rects@ && all_proper(rects@) && rects@.len() <= 0x1_0000_0000,
            groups@.len() <= i,
            labeling_ok(rs, lab@, gviews(groups@), ids, roots, groups@.len() as int),
            closed_under_meet(rs, lab@, |x: int| false),
            forall|x: int| 0 <= x < i ==> #[trigger] lab@[x] != UNSET,
        decreases n - i,
    {
        if lab[i] == UNSET {
            let g = groups.len();
            let ghost gv = gviews(groups@);
            let (members, cur) = flood(rects, &index, &mut lab, i, g, Ghost(gv), Ghost(ids), Ghost(roots));
            groups.push(members);
            proof {
                assert(gviews(groups@) =~= gv.push(members@));
                ids = ids.push(cur@);
                roots = roots.push(i as int);
            }
        }
        i += 1;
    }
    proof {
        let labi = labs(lab@);
        let gs = gviews(groups@);
        let ng = groups@.len() as int;
        assert forall|x: int| 0 <= x < rs.len() implies 0 <= #[trigger] labi[x] < gs.len() by {
            assert(lab@[x] != UNSET);
        }
        assert forall|g: int, k: int|
            0 <= g < gs.len() && 0 <= k < ids[g].len() implies 0 <= #[trigger] ids[g][k] < rs.len() && gs[g][k] == rs[ids[g][k]]
                && labi[ids[g][k]] == g by {}
        assert forall|x: int| 0 <= x < rs.len() implies #[trigger] ids[labi[x]].contains(x) by {
            assert(lab@[x] != UNSET);
            assert(lab@[x] < ng);
        }
        assert(grouping(rs, gs, labi, ids));
        assert forall|x: int, y: int| 0 <= x < rs.len() && 0 <= y < rs.len() && boxes_meet(rs[x], rs[y]) implies #[trigger] labi[x]
            == #[trigger] labi[y] by {
            assert(lab@[x] != UNSET);
            assert(!((|z: int| false)(x)));
        }
        assert forall|x: int, y: int| 0 <= x < rs.len() && 0 <= y < rs.len() && #[trigger] labi[x] == #[trigger] labi[y] implies linked(
            rs,
            x,
            y,
        ) by {
            assert(lab@[x] != UNSET && lab@[y] != UNSET);
            assert(lab@[x] < ng);
            let r = roots[lab@[x] as int];
            assert(linked(rs, r, x));
            assert(linked(rs, r, y));
            lemma_linked_sym(rs, r, x);
            lemma_linked_trans(rs, x, r, y);
        }
    }
    groups
}

// ---- tracing nets ---------------------------------------------------------------------

/// How a cut (via) layer's geometry joins the connective layers.
pub enum Cut {
    /// Join `a` and `b` where a cut shape is enclosed by a shape on each (DRC-clean).
    Enclosed { cut: Vec<Poly>, a: Ld, b: Ld },
    /// Join any connective shapes a cut shape meets (looser).
    Overlap { cut: Vec<Poly> },
}

/// One same-layer connected component (its true-tiled geometry).
pub struct Prim {
    pub layer: Ld,
    pub rects: Vec<Rect>,
}

/// The result of tracing: the prims, the net of each, and per net its name (from a
/// label) and the number of cut shapes it owns.
pub struct Traced {
    pub prims: Vec<Prim>,
    pub net_id: Vec<usize>,
    pub names: Vec<Option<String>>,
    pub cut_count: Vec<usize>,
    pub nnets: usize,
}

impl Traced {
    /// Net name, falling back to `n<id>` for an unnamed net.
    pub fn net_name(&self, nid: usize) -> (s: String)
        requires
            nid < self.names@.len(),
        ensures
            s@ == match self.names@[nid as int] {
                Some(n) => n@,
                None => "n"@ + crate::engine::dec(nid as nat),
            },
    {
        match &self.names[nid] {
            Some(n) => n.clone(),
            None => {
                let mut s = String::from_str("n");
                s.append(crate::engine::decimal(nid as u64).as_str());
                s
            },
        }
    }
}

/// `res` is the tiling of `poly` that [`tile`] gives.
pub open spec fn tile_ok(poly: Seq<(i32, i32)>, res: Seq<Rect>) -> bool {
    &&& is_rect_spec(poly) ==> res == seq![bbox_rect(poly)]
    &&& !is_rect_spec(poly) ==> bool_result(res, seq![poly], Seq::empty(), Op::Or)
}

/// `t` is the tiling of the polygons: each one's tiles (`pieces`), one after another.
pub open spec fn tiles_of(polys: Seq<Seq<(i32, i32)>>, pieces: Seq<Seq<Rect>>, t: Seq<Rect>) -> bool {
    &&& pieces.len() == polys.len()
    &&& forall|k: int| 0 <= k < polys.len() ==> #[trigger] tile_ok(polys[k], pieces[k])
    &&& t == pieces.flatten()
}

/// The tiles of one layer's polygons, one after another.
fn layer_tiles(polys: &Vec<Poly>) -> (res: (Vec<Rect>, Ghost<Seq<Seq<Rect>>>))
    ensures
        tiles_of(views(polys@), res.1@, res.0@),
{
    let mut t: Vec<Rect> = Vec::new();
    let ghost mut pieces: Seq<Seq<Rect>> = Seq::empty();
    let mut k: usize = 0;
    while k < polys.len()
        invariant
            k <= polys@.len(),
            pieces.len() == k,
            forall|j: int| 0 <= j < k ==> #[trigger] tile_ok(polys@[j]@, pieces[j]),
            t@ == pieces.flatten(),
        decreases polys@.len() - k,
    {
        let mut part = tile(polys[k].as_slice());
        let ghost pv = part@;
        t.append(&mut part);
        proof {
            pieces.lemma_flatten_push(pv);
            pieces = pieces.push(pv);
        }
        k += 1;
    }
    proof {
        assert forall|j: int| 0 <= j < polys@.len() implies #[trigger] tile_ok(views(polys@)[j], pieces[j]) by {
            assert(views(polys@)[j] == polys@[j]@);
        }
    }
    (t, Ghost(pieces))
}

/// The rectangle lists of prims.
pub open spec fn prim_rects(ps: Seq<Prim>) -> Seq<Seq<Rect>> {
    ps.map_values(|p: Prim| p.rects@)
}

/// The prims of one layer entry: components of the tiling of its polygons, on its layer.
pub open spec fn layer_prims_ok(entry: (Ld, Vec<Poly>), pieces: Seq<Seq<Rect>>, tiles: Seq<Rect>, ps: Seq<Prim>) -> bool {
    &&& tiles_of(views(entry.1@), pieces, tiles)
    &&& is_components(tiles, prim_rects(ps))
    &&& forall|k: int| 0 <= k < ps.len() ==> (#[trigger] ps[k]).layer == entry.0
}

/// The prims split into consecutive runs, one per layer entry, each run that entry's
/// components.
pub open spec fn prims_split(layers: Seq<(Ld, Vec<Poly>)>, prims: Seq<Prim>, starts: Seq<int>, pieces: Seq<Seq<Seq<Rect>>>, tiles: Seq<Seq<Rect>>) -> bool {
    &&& starts.len() == layers.len() + 1
    &&& pieces.len() == layers.len()
    &&& tiles.len() == layers.len()
    &&& starts[0] == 0
    &&& starts[layers.len() as int] == prims.len()
    &&& forall|l: int| 0 <= l < layers.len() ==> starts[l] <= #[trigger] starts[l + 1]
    &&& forall|l: int| 0 <= l < layers.len() ==> #[trigger] layer_prims_ok(layers[l], pieces[l], tiles[l], prims.subrange(starts[l], starts[l + 1]))
}

/// The prims are, layer entry by layer entry, the connected components of the entry's
/// tiled polygons.
pub open spec fn prims_ok(layers: Seq<(Ld, Vec<Poly>)>, prims: Seq<Prim>) -> bool {
    exists|starts: Seq<int>, pieces: Seq<Seq<Seq<Rect>>>, tiles: Seq<Seq<Rect>>| #[trigger] prims_split(layers, prims, starts, pieces, tiles)
}

/// A copy of a rectangle list.
fn copy_rect_vec(v: &Vec<Rect>) -> (w: Vec<Rect>)
    ensures
        w@ == v@,
{
    let mut w: Vec<Rect> = Vec::new();
    let mut k: usize = 0;
    while k < v.len()
        invariant
            k <= v@.len(),
            w@ == v@.take(k as int),
        decreases v@.len() - k,
    {
        w.push(v[k]);
        k += 1;
        proof {
            assert(w@ =~= v@.take(k as int));
        }
    }
    proof {
        assert(v@.take(v@.len() as int) =~= v@);
    }
    w
}

/// Phase one of tracing: the prims of every layer entry.
fn build_prims(layers: &[(Ld, Vec<Poly>)]) -> (prims: Vec<Prim>)
    ensures
        prims_ok(layers@, prims@),
{
    let mut prims: Vec<Prim> = Vec::new();
    let ghost mut starts: Seq<int> = seq![0];
    let ghost mut pieces: Seq<Seq<Seq<Rect>>> = Seq::empty();
    let ghost mut tiles: Seq<Seq<Rect>> = Seq::empty();
    let mut l: usize = 0;
    while l < layers.len()
        invariant
            l <= layers@.len(),
            starts.len() == l + 1,
            pieces.len() == l,
            tiles.len() == l,
            starts[0] == 0,
            starts[l as int] == prims@.len(),
            forall|j: int| 0 <= j <= l ==> 0 <= #[trigger] starts[j] <= prims@.len(),
            forall|j: int| 0 <= j < l ==> starts[j] <= #[trigger] starts[j + 1],
            forall|j: int| 0 <= j < l ==> #[trigger] layer_prims_ok(layers@[j], pieces[j], tiles[j], prims@.subrange(starts[j], starts[j + 1])),
        decreases layers@.len() - l,
    {
        let ld = layers[l].0;
        let (t, pc) = layer_tiles(&layers[l].1);
        let comps = components(t.as_slice());
        let ghost p0 = prims@;
        let ghost cv = gviews(comps@);
        let mut k: usize = 0;
        while k < comps.len()
            invariant
                k <= comps@.len(),
                cv == gviews(comps@),
                prims@.len() == p0.len() + k,
                forall|j: int| 0 <= j < p0.len() ==> #[trigger] prims@[j] == p0[j],
                forall|j: int| 0 <= j < k ==> (#[trigger] prims@[p0.len() + j]).rects@ == cv[j] && prims@[p0.len() + j].layer == ld,
            decreases comps@.len() - k,
        {
            let c = copy_rect_vec(&comps[k]);
            prims.push(Prim { layer: ld, rects: c });
            k += 1;
        }
        proof {
            let run = prims@.subrange(p0.len() as int, prims@.len() as int);
            assert forall|j: int| 0 <= j < run.len() implies #[trigger] prim_rects(run)[j] == cv[j] by {
                assert(run[j] == prims@[p0.len() + j]);
            }
            assert(prim_rects(run) =~= cv);
            assert(ld == layers@[l as int].0);
            assert(tiles_of(views(layers@[l as int].1@), pc@, t@));
            assert(is_components(t@, prim_rects(run)));
            assert forall|j: int| 0 <= j < run.len() implies (#[trigger] run[j]).layer == layers@[l as int].0 by {
                assert(run[j] == prims@[p0.len() + j]);
            }
            assert(layer_prims_ok(layers@[l as int], pc@, t@, run));
            let s2 = starts.push(prims@.len() as int);
            assert forall|j: int| 0 <= j < l + 1 implies #[trigger] layer_prims_ok(layers@[j], pieces.push(pc@)[j], tiles.push(t@)[j], prims@.subrange(s2[j], s2[j + 1])) by {
                if j < l {
                    assert(prims@.subrange(s2[j], s2[j + 1]) =~= p0.subrange(starts[j], starts[j + 1]));
                } else {
                    assert(prims@.subrange(s2[j], s2[j + 1]) =~= run);
                }
            }
            starts = s2;
            pieces = pieces.push(pc@);
            tiles = tiles.push(t@);
        }
        l += 1;
    }
    proof {
        assert(prims_split(layers@, prims@, starts, pieces, tiles));
    }
    prims
}

/// The first prim from `p` on with layer `ld` that encloses `ct`, or -1.
pub open spec fn first_enclosing(prims: Seq<Prim>, ld: Ld, ct: Seq<Rect>, p: int) -> int
    decreases prims.len() - p,
{
    if p < 0 || p >= prims.len() {
        -1
    } else if prims[p].layer == ld && enclosed_spec(ct, prims[p].rects@) {
        p
    } else {
        first_enclosing(prims, ld, ct, p + 1)
    }
}

/// Some rectangle of the prim meets some rectangle of `ct`.
pub open spec fn hits(prim: Prim, ct: Seq<Rect>) -> bool {
    exists|r: int, c: int| 0 <= r < prim.rects@.len() && 0 <= c < ct.len() && #[trigger] boxes_meet(prim.rects@[r], ct[c])
}

/// The first prim from `p` on that `ct` hits, or -1.
pub open spec fn first_hit(prims: Seq<Prim>, ct: Seq<Rect>, p: int) -> int
    decreases prims.len() - p,
{
    if p < 0 || p >= prims.len() {
        -1
    } else if hits(prims[p], ct) {
        p
    } else {
        first_hit(prims, ct, p + 1)
    }
}

/// The prim a cut shape (tiled as `ct`) is counted for: for an enclosed cut the prim on
/// `a` enclosing it, else the one on `b`; for an overlap cut the first prim it hits.
pub open spec fn cut_owner(prims: Seq<Prim>, cut: Cut, ct: Seq<Rect>) -> int {
    match cut {
        Cut::Enclosed { a, b, .. } => enclosed_owner(prims, a, b, ct),
        Cut::Overlap { .. } => first_hit(prims, ct, 0),
    }
}

/// What a cut shape (tiled as `ct`) joins, under the relation `same`: for an enclosed cut
/// the prims on `a` and on `b` enclosing it, when both exist; for an overlap cut every
/// prim it hits.
pub open spec fn cut_joined(prims: Seq<Prim>, cut: Cut, ct: Seq<Rect>, same: spec_fn(int, int) -> bool) -> bool {
    match cut {
        Cut::Enclosed { a, b, .. } => enclosed_joined(prims, a, b, ct, same),
        Cut::Overlap { .. } => hits_joined(prims, ct, same),
    }
}

/// The prim an enclosed cut shape is counted for: the one on `a` enclosing it, else the
/// one on `b`, else -1.
pub open spec fn enclosed_owner(prims: Seq<Prim>, a: Ld, b: Ld, ct: Seq<Rect>) -> int {
    let pa = first_enclosing(prims, a, ct, 0);
    if pa >= 0 { pa } else { first_enclosing(prims, b, ct, 0) }
}

/// The prims on `a` and on `b` enclosing `ct`, when both exist, are related by `same`.
pub open spec fn enclosed_joined(prims: Seq<Prim>, a: Ld, b: Ld, ct: Seq<Rect>, same: spec_fn(int, int) -> bool) -> bool {
    let pa = first_enclosing(prims, a, ct, 0);
    let pb = first_enclosing(prims, b, ct, 0);
    pa >= 0 && pb >= 0 ==> same(pa, pb)
}

/// Every two prims that `ct` hits are related by `same`.
pub open spec fn hits_joined(prims: Seq<Prim>, ct: Seq<Rect>, same: spec_fn(int, int) -> bool) -> bool {
    forall|p: int, q: int|
        0 <= p < prims.len() && 0 <= q < prims.len() && #[trigger] hits(prims[p], ct) && #[trigger] hits(prims[q], ct) ==> same(p, q)
}

/// The cut polygons of a cut.
pub open spec fn cut_polys(cut: Cut) -> Seq<Poly> {
    match cut {
        Cut::Enclosed { cut, .. } => cut@,
        Cut::Overlap { cut } => cut@,
    }
}

proof fn lemma_first_enclosing(prims: Seq<Prim>, ld: Ld, ct: Seq<Rect>, p: int)
    requires
        0 <= p,
    ensures
        first_enclosing(prims, ld, ct, p) == -1 || (p <= first_enclosing(prims, ld, ct, p) < prims.len()),
    decreases prims.len() - p,
{
    if p < prims.len() {
        lemma_first_enclosing(prims, ld, ct, p + 1);
    }
}

proof fn lemma_first_hit(prims: Seq<Prim>, ct: Seq<Rect>, p: int)
    requires
        0 <= p,
    ensures
        first_hit(prims, ct, p) == -1 || (p <= first_hit(prims, ct, p) < prims.len() && hits(prims[first_hit(prims, ct, p)], ct)),
    decreases prims.len() - p,
{
    if p < prims.len() {
        lemma_first_hit(prims, ct, p + 1);
    }
}

/// The first prim with layer `ld` enclosing `ct`, scanning them all.
fn find_enclosing(prims: &Vec<Prim>, ld: Ld, ct: &Vec<Rect>) -> (r: Option<usize>)
    ensures
        match r {
            Some(p) => first_enclosing(prims@, ld, ct@, 0) == p as int,
            None => first_enclosing(prims@, ld, ct@, 0) == -1,
        },
{
    let mut p: usize = 0;
    while p < prims.len()
        invariant
            p <= prims@.len(),
            first_enclosing(prims@, ld, ct@, 0) == first_enclosing(prims@, ld, ct@, p as int),
        decreases prims@.len() - p,
    {
        if prims[p].layer.0 == ld.0 && prims[p].layer.1 == ld.1 && enclosed(ct.as_slice(), prims[p].rects.as_slice()) {
            return Some(p);
        }
        p += 1;
    }
    None
}

/// Whether some rectangle of `rects` meets some rectangle of `ct`.
fn any_meet(rects: &Vec<Rect>, ct: &Vec<Rect>) -> (b: bool)
    ensures
        b == exists|r: int, c: int| 0 <= r < rects@.len() && 0 <= c < ct@.len() && #[trigger] boxes_meet(rects@[r], ct@[c]),
{
    let mut r: usize = 0;
    while r < rects.len()
        invariant
            r <= rects@.len(),
            forall|i: int, c: int| 0 <= i < r && 0 <= c < ct@.len() ==> !#[trigger] boxes_meet(rects@[i], ct@[c]),
        decreases rects@.len() - r,
    {
        let mut c: usize = 0;
        while c < ct.len()
            invariant
                c <= ct@.len(),
                r < rects@.len(),
                forall|i: int, k: int| 0 <= i < r && 0 <= k < ct@.len() ==> !#[trigger] boxes_meet(rects@[i], ct@[k]),
                forall|k: int| 0 <= k < c ==> !#[trigger] boxes_meet(rects@[r as int], ct@[k]),
            decreases ct@.len() - c,
        {
            if overlap(&rects[r], &ct[c]) {
                return true;
            }
            c += 1;
        }
        r += 1;
    }
    false
}

/// Relabel so that `p` and `q` carry one label: every entry with `q`'s label takes `p`'s.
fn join(lab: &mut Vec<usize>, p: usize, q: usize)
    requires
        p < old(lab)@.len(),
        q < old(lab)@.len(),
    ensures
        final(lab)@.len() == old(lab)@.len(),
        final(lab)@[p as int] == final(lab)@[q as int],
        forall|x: int, y: int|
            0 <= x < old(lab)@.len() && 0 <= y < old(lab)@.len() && old(lab)@[x] == old(lab)@[y] ==> #[trigger] final(lab)@[x]
                == #[trigger] final(lab)@[y],
        forall|x: int| 0 <= x < old(lab)@.len() ==> #[trigger] final(lab)@[x] == old(lab)@[x] || final(lab)@[x] == old(lab)@[p as int],
        forall|x: int|
            0 <= x < old(lab)@.len() ==> #[trigger] final(lab)@[x] == if old(lab)@[x] == old(lab)@[q as int] {
                old(lab)@[p as int]
            } else {
                old(lab)@[x]
            },
{
    let lp = lab[p];
    let lq = lab[q];
    let ghost l0 = lab@;
    let mut x: usize = 0;
    while x < lab.len()
        invariant
            lab@.len() == l0.len(),
            x <= l0.len(),
            p < l0.len(),
            q < l0.len(),
            lp == l0[p as int],
            lq == l0[q as int],
            forall|z: int| 0 <= z < x ==> #[trigger] lab@[z] == if l0[z] == lq { lp } else { l0[z] },
            forall|z: int| x <= z < l0.len() ==> #[trigger] lab@[z] == l0[z],
        decreases l0.len() - x,
    {
        if lab[x] == lq {
            lab.set(x, lp);
        }
        x += 1;
    }
}

/// Two positions carry the same label.
pub open spec fn same_label(lab: Seq<usize>) -> spec_fn(int, int) -> bool {
    |p: int, q: int| lab[p] == lab[q]
}

/// Every label names a position of the vector.
pub open spec fn labels_in_range(lab: Seq<usize>) -> bool {
    forall|x: int| 0 <= x < lab.len() ==> #[trigger] lab[x] < lab.len()
}

/// Two label vectors: every equality of the first holds in the second.
pub open spec fn refines(l0: Seq<usize>, l1: Seq<usize>) -> bool {
    &&& l1.len() == l0.len()
    &&& forall|x: int, y: int| 0 <= x < l0.len() && 0 <= y < l0.len() && l0[x] == l0[y] ==> #[trigger] l1[x] == #[trigger] l1[y]
}

proof fn lemma_refines_trans(l0: Seq<usize>, l1: Seq<usize>, l2: Seq<usize>)
    requires
        refines(l0, l1),
        refines(l1, l2),
    ensures
        refines(l0, l2),
{
    assert forall|x: int, y: int| 0 <= x < l0.len() && 0 <= y < l0.len() && l0[x] == l0[y] implies #[trigger] l2[x] == #[trigger] l2[y] by {
        assert(l1[x] == l1[y]);
    }
}

proof fn lemma_cut_joined_refines(prims: Seq<Prim>, cut: Cut, ct: Seq<Rect>, l0: Seq<usize>, l1: Seq<usize>)
    requires
        l0.len() == prims.len(),
        refines(l0, l1),
        cut_joined(prims, cut, ct, same_label(l0)),
    ensures
        cut_joined(prims, cut, ct, same_label(l1)),
{
    match cut {
        Cut::Enclosed { a, b, .. } => {
            lemma_first_enclosing(prims, a, ct, 0);
            lemma_first_enclosing(prims, b, ct, 0);
        },
        Cut::Overlap { .. } => {
            assert forall|p: int, q: int|
                0 <= p < prims.len() && 0 <= q < prims.len() && #[trigger] hits(prims[p], ct) && #[trigger] hits(prims[q], ct) implies l1[p]
                == l1[q] by {
                assert(l0[p] == l0[q]);
            }
        },
    }
}

/// One overlap cut shape: join every prim it hits; the first of them owns it.
fn overlap_cut(prims: &Vec<Prim>, ct: &Vec<Rect>, lab: &mut Vec<usize>, Ghost(e): Ghost<spec_fn(int, int) -> bool>) -> (owner: Option<usize>)
    requires
        old(lab)@.len() == prims@.len(),
        labels_in_range(old(lab)@),
        conn_ok(old(lab)@, e),
        forall|a: int, b: int| #[trigger] overlap_joins(prims@, ct@, a, b) ==> e(a, b),
    ensures
        refines(old(lab)@, final(lab)@),
        labels_in_range(final(lab)@),
        conn_ok(final(lab)@, e),
        hits_joined(prims@, ct@, same_label(final(lab)@)),
        match owner {
            Some(o) => first_hit(prims@, ct@, 0) == o as int,
            None => first_hit(prims@, ct@, 0) == -1,
        },
{
    let ghost l0 = lab@;
    let mut first: Option<usize> = None;
    let mut p: usize = 0;
    while p < prims.len()
        invariant
            p <= prims@.len(),
            lab@.len() == prims@.len(),
            refines(l0, lab@),
            labels_in_range(lab@),
            conn_ok(lab@, e),
            forall|a: int, b: int| #[trigger] overlap_joins(prims@, ct@, a, b) ==> e(a, b),
            match first {
                Some(f) => f < p && first_hit(prims@, ct@, 0) == f as int && forall|q: int|
                    0 <= q < p && #[trigger] hits(prims@[q], ct@) ==> lab@[q] == lab@[f as int],
                None => first_hit(prims@, ct@, 0) == first_hit(prims@, ct@, p as int),
            },
        decreases prims@.len() - p,
    {
        if any_meet(&prims[p].rects, ct) {
            let ghost l1 = lab@;
            match first {
                Some(f) => {
                    join(lab, f, p);
                    proof {
                        lemma_first_hit(prims@, ct@, 0);
                        assert(overlap_joins(prims@, ct@, f as int, p as int));
                        assert(overlap_joins(prims@, ct@, p as int, f as int));
                        lemma_join_conn(l1, lab@, f as int, p as int, e);
                        lemma_refines_trans(l0, l1, lab@);
                        assert forall|q: int| 0 <= q < p + 1 && #[trigger] hits(prims@[q], ct@) implies lab@[q] == lab@[f as int] by {
                            if q < p {
                                assert(l1[q] == l1[f as int]);
                            }
                        }
                    }
                },
                None => {
                    first = Some(p);
                    proof {
                        assert(hits(prims@[p as int], ct@));
                        assert forall|q: int| 0 <= q < p + 1 && #[trigger] hits(prims@[q], ct@) implies lab@[q] == lab@[p as int] by {
                            if q < p {
                                assert(first_hit(prims@, ct@, p as int) == p);
                                lemma_first_hit_before(prims@, ct@, q, 0);
                            }
                        }
                    }
                },
            }
        } else {
            proof {
                assert(!hits(prims@[p as int], ct@));
                if first is Some {
                    let f = first->0;
                    assert forall|q: int| 0 <= q < p + 1 && #[trigger] hits(prims@[q], ct@) implies lab@[q] == lab@[f as int] by {
                        if q == p {
                            assert(false);
                        }
                    }
                }
            }
        }
        p += 1;
    }
    proof {
        match first {
            Some(f) => {
                assert forall|a: int, b: int|
                    0 <= a < prims@.len() && 0 <= b < prims@.len() && #[trigger] hits(prims@[a], ct@) && #[trigger] hits(prims@[b], ct@) implies lab@[a]
                    == lab@[b] by {
                    assert(lab@[a] == lab@[f as int]);
                    assert(lab@[b] == lab@[f as int]);
                }
            },
            None => {
                assert(first_hit(prims@, ct@, prims@.len() as int) == -1);
                assert forall|a: int, b: int|
                    0 <= a < prims@.len() && 0 <= b < prims@.len() && #[trigger] hits(prims@[a], ct@) && #[trigger] hits(prims@[b], ct@) implies lab@[a]
                    == lab@[b] by {
                    lemma_first_hit_before(prims@, ct@, a, 0);
                }
            },
        }
    }
    first
}

/// If prim `q` at or after `p` is hit, the first hit from `p` is at most `q`.
proof fn lemma_first_hit_before(prims: Seq<Prim>, ct: Seq<Rect>, q: int, p: int)
    requires
        0 <= p <= q < prims.len(),
        hits(prims[q], ct),
    ensures
        0 <= first_hit(prims, ct, p) <= q,
    decreases q - p,
{
    if !hits(prims[p], ct) {
        lemma_first_hit_before(prims, ct, q, p + 1);
    }
}

/// One enclosed cut shape: join the prims on `a` and on `b` that enclose it, when both
/// exist; the one on `a`, else the one on `b`, owns it.
fn enclosed_cut(prims: &Vec<Prim>, a: Ld, b: Ld, ct: &Vec<Rect>, lab: &mut Vec<usize>, Ghost(e): Ghost<spec_fn(int, int) -> bool>) -> (owner: Option<usize>)
    requires
        old(lab)@.len() == prims@.len(),
        labels_in_range(old(lab)@),
        conn_ok(old(lab)@, e),
        forall|x: int, y: int| #[trigger] enclosed_joins(prims@, a, b, ct@, x, y) ==> e(x, y),
    ensures
        refines(old(lab)@, final(lab)@),
        labels_in_range(final(lab)@),
        conn_ok(final(lab)@, e),
        enclosed_joined(prims@, a, b, ct@, same_label(final(lab)@)),
        match owner {
            Some(o) => o < prims@.len() && enclosed_owner(prims@, a, b, ct@) == o as int,
            None => enclosed_owner(prims@, a, b, ct@) == -1,
        },
{
    let pa = find_enclosing(prims, a, ct);
    let pb = find_enclosing(prims, b, ct);
    proof {
        lemma_first_enclosing(prims@, a, ct@, 0);
        lemma_first_enclosing(prims@, b, ct@, 0);
    }
    let ghost l0 = lab@;
    if let (Some(i), Some(j)) = (pa, pb) {
        join(lab, i, j);
        proof {
            assert(enclosed_joins(prims@, a, b, ct@, i as int, j as int));
            assert(enclosed_joins(prims@, a, b, ct@, j as int, i as int));
            lemma_join_conn(l0, lab@, i as int, j as int, e);
        }
    }
    match pa {
        Some(i) => Some(i),
        None => pb,
    }
}

/// The shapes of one cut, each paired with the cut.
pub open spec fn shapes_of(c: Cut) -> Seq<(Cut, Poly)> {
    cut_polys(c).map_values(|p: Poly| (c, p))
}

/// The shapes of all cuts in order, each paired with the cut it belongs to.
pub open spec fn cut_shapes(cuts: Seq<Cut>) -> Seq<(Cut, Poly)> {
    cuts.map_values(|c: Cut| shapes_of(c)).flatten()
}

/// An optional prim index as an integer, -1 for none.
pub open spec fn opt_index(o: Option<usize>) -> int {
    match o {
        Some(p) => p as int,
        None => -1,
    }
}

/// The cut shapes `shapes`, tiled as `cts`, have been applied: under the labels `lab`
/// each joins what it should, and `owners` holds the prim each is counted for.
pub open spec fn cuts_applied(prims: Seq<Prim>, shapes: Seq<(Cut, Poly)>, cts: Seq<Seq<Rect>>, owners: Seq<Option<usize>>, lab: Seq<usize>) -> bool {
    &&& cts.len() == shapes.len()
    &&& owners.len() == shapes.len()
    &&& forall|k: int| 0 <= k < shapes.len() ==> #[trigger] tile_ok(shapes[k].1@, cts[k])
    &&& forall|k: int| 0 <= k < shapes.len() ==> #[trigger] cut_joined(prims, shapes[k].0, cts[k], same_label(lab))
    &&& forall|k: int| 0 <= k < shapes.len() ==> #[trigger] opt_index(owners[k]) == cut_owner(prims, shapes[k].0, cts[k])
    &&& forall|k: int| 0 <= k < shapes.len() ==> (#[trigger] owners[k] matches Some(o) ==> o < prims.len())
}

/// One cut shape: tile it and apply it.
fn cut_shape(prims: &Vec<Prim>, cut: &Cut, poly: &Poly, lab: &mut Vec<usize>, Ghost(e0): Ghost<spec_fn(int, int) -> bool>) -> (res: (
    Option<usize>,
    Ghost<Seq<Rect>>,
))
    requires
        old(lab)@.len() == prims@.len(),
        labels_in_range(old(lab)@),
        conn_ok(old(lab)@, e0),
    ensures
        refines(old(lab)@, final(lab)@),
        labels_in_range(final(lab)@),
        conn_ok(final(lab)@, with_shape(e0, prims@, *cut, res.1@)),
        tile_ok(poly@, res.1@),
        cut_joined(prims@, *cut, res.1@, same_label(final(lab)@)),
        opt_index(res.0) == cut_owner(prims@, *cut, res.1@),
        res.0 matches Some(o) ==> o < prims@.len(),
{
    let ct = tile(poly.as_slice());
    let ghost e = with_shape(e0, prims@, *cut, ct@);
    proof {
        lemma_conn_mono(lab@, e0, e);
    }
    let o = match cut {
        Cut::Enclosed { a, b, .. } => enclosed_cut(prims, *a, *b, &ct, lab, Ghost(e)),
        Cut::Overlap { .. } => {
            let o = overlap_cut(prims, &ct, lab, Ghost(e));
            proof {
                lemma_first_hit(prims@, ct@, 0);
            }
            o
        },
    };
    (o, Ghost(ct@))
}

/// Phase two of tracing: apply every cut shape to labels that start one per prim.
fn apply_cuts(prims: &Vec<Prim>, cuts: &[Cut]) -> (res: (Vec<usize>, Vec<Option<usize>>, Ghost<Seq<Seq<Rect>>>))
    ensures
        res.0@.len() == prims@.len(),
        labels_in_range(res.0@),
        cuts_applied(prims@, cut_shapes(cuts@), res.2@, res.1@, res.0@),
        conn_ok(res.0@, cut_edge(prims@, cut_shapes(cuts@), res.2@, res.2@.len() as int)),
{
    let mut lab: Vec<usize> = Vec::new();
    let mut i: usize = 0;
    while i < prims.len()
        invariant
            i <= prims@.len(),
            lab@.len() == i,
            forall|x: int| 0 <= x < i ==> #[trigger] lab@[x] == x,
        decreases prims@.len() - i,
    {
        lab.push(i);
        i += 1;
    }
    let mut owners: Vec<Option<usize>> = Vec::new();
    let ghost mut cts: Seq<Seq<Rect>> = Seq::empty();
    let ghost f = |c: Cut| shapes_of(c);
    proof {
        let e0 = cut_edge(prims@, cuts@.take(0).map_values(f).flatten(), cts, 0);
        assert forall|x: int, y: int| 0 <= x < lab@.len() && 0 <= y < lab@.len() && lab@[x] == lab@[y] implies reach(e0, x, y) by {
            assert(lab@[x] == x && lab@[y] == y);
            lemma_reach_refl(e0, x);
        }
    }
    let mut c: usize = 0;
    while c < cuts.len()
        invariant
            c <= cuts@.len(),
            f == (|c: Cut| shapes_of(c)),
            lab@.len() == prims@.len(),
            labels_in_range(lab@),
            cuts_applied(prims@, cuts@.take(c as int).map_values(f).flatten(), cts, owners@, lab@),
            conn_ok(lab@, cut_edge(prims@, cuts@.take(c as int).map_values(f).flatten(), cts, cts.len() as int)),
        decreases cuts@.len() - c,
    {
        let polys = match &cuts[c] {
            Cut::Enclosed { cut, .. } => cut,
            Cut::Overlap { cut } => cut,
        };
        let ghost done = cuts@.take(c as int).map_values(f).flatten();
        let ghost here = shapes_of(cuts@[c as int]);
        assert(polys@ == cut_polys(cuts@[c as int]));
        let mut j: usize = 0;
        while j < polys.len()
            invariant
                j <= polys@.len(),
                c < cuts@.len(),
                polys@ == cut_polys(cuts@[c as int]),
                here == shapes_of(cuts@[c as int]),
                lab@.len() == prims@.len(),
                labels_in_range(lab@),
                cuts_applied(prims@, done + here.take(j as int), cts, owners@, lab@),
                conn_ok(lab@, cut_edge(prims@, done + here.take(j as int), cts, cts.len() as int)),
            decreases polys@.len() - j,
        {
            let ghost l0 = lab@;
            let ghost sh0 = done + here.take(j as int);
            let ghost ow0 = owners@;
            let ghost e0 = cut_edge(prims@, sh0, cts, cts.len() as int);
            let (o, g) = cut_shape(prims, &cuts[c], &polys[j], &mut lab, Ghost(e0));
            owners.push(o);
            proof {
                let sh1 = done + here.take(j + 1);
                let cts1 = cts.push(g@);
                let e1 = cut_edge(prims@, sh1, cts1, cts1.len() as int);
                assert(here[j as int] == (cuts@[c as int], polys@[j as int]));
                assert(sh1 =~= sh0.push(here[j as int]));
                let en = with_shape(e0, prims@, cuts@[c as int], g@);
                assert forall|a: int, b: int| #[trigger] en(a, b) implies e1(a, b) by {
                    if e0(a, b) {
                        let w = choose|w: int| 0 <= w < cts.len() && #[trigger] joins(prims@, sh0[w].0, cts[w], a, b);
                        assert(sh1[w] == sh0[w] && cts1[w] == cts[w]);
                        assert(joins(prims@, sh1[w].0, cts1[w], a, b));
                    } else {
                        let w = cts.len() as int;
                        assert(sh1[w].0 == cuts@[c as int] && cts1[w] == g@);
                        assert(joins(prims@, sh1[w].0, cts1[w], a, b));
                    }
                }
                lemma_conn_mono(lab@, en, e1);
                assert(here[j as int] == (cuts@[c as int], polys@[j as int]));
                assert(sh1 =~= sh0.push(here[j as int]));
                assert forall|k: int| 0 <= k < sh0.len() implies #[trigger] cut_joined(prims@, sh0[k].0, cts[k], same_label(lab@)) by {
                    lemma_cut_joined_refines(prims@, sh0[k].0, cts[k], l0, lab@);
                }
                cts = cts.push(g@);
                assert forall|k: int| 0 <= k < sh1.len() implies #[trigger] cut_joined(prims@, sh1[k].0, cts[k], same_label(lab@)) by {
                    if k < sh0.len() {
                        assert(sh1[k] == sh0[k]);
                    }
                }
                assert forall|k: int| 0 <= k < sh1.len() implies #[trigger] tile_ok(sh1[k].1@, cts[k]) by {
                    if k < sh0.len() {
                        assert(sh1[k] == sh0[k]);
                    }
                }
                assert forall|k: int| 0 <= k < sh1.len() implies #[trigger] opt_index(owners@[k]) == cut_owner(prims@, sh1[k].0, cts[k]) by {
                    if k < sh0.len() {
                        assert(sh1[k] == sh0[k]);
                    }
                }
                assert forall|k: int| 0 <= k < sh1.len() implies (#[trigger] owners@[k] matches Some(o) ==> o < prims@.len()) by {
                    if k < sh0.len() {
                        assert(owners@[k] == ow0[k]);
                    }
                }
            }
            j += 1;
        }
        proof {
            assert(here.take(polys@.len() as int) =~= here);
            let m = cuts@.take(c as int).map_values(f);
            assert(cuts@.take(c + 1).map_values(f) =~= m.push(f(cuts@[c as int])));
            m.lemma_flatten_push(here);
            assert(cuts@.take(c + 1).map_values(f).flatten() == done + here.take(polys@.len() as int));
        }
        c += 1;
    }
    proof {
        assert(cuts@.take(cuts@.len() as int) =~= cuts@);
    }
    (lab, owners, Ghost(cts))
}

/// Net ids numbered by first appearance: each is below `n`, each value below `n`
/// occurs, and each id but 0 has its predecessor somewhere earlier.
pub open spec fn canonical(ids: Seq<usize>, n: nat) -> bool {
    &&& forall|i: int| 0 <= i < ids.len() ==> #[trigger] ids[i] < n
    &&& forall|v: usize| v < n ==> #[trigger] ids.contains(v)
    &&& forall|i: int| 0 <= i < ids.len() ==> #[trigger] ids[i] == 0 || exists|j: int| 0 <= j < i && #[trigger] ids[j] == ids[i] - 1
}

/// Phase three of tracing: number the label classes in order of first appearance.
#[verifier::spinoff_prover]
#[verifier::rlimit(40)]
fn number_nets(lab: &Vec<usize>) -> (res: (Vec<usize>, usize))
    requires
        labels_in_range(lab@),
    ensures
        res.0@.len() == lab@.len(),
        canonical(res.0@, res.1 as nat),
        forall|x: int, y: int| 0 <= x < lab@.len() && 0 <= y < lab@.len() ==> (lab@[x] == lab@[y] <==> #[trigger] res.0@[x] == #[trigger] res.0@[y]),
{
    let n = lab.len();
    let mut canon: Vec<usize> = Vec::new();
    let mut k: usize = 0;
    while k < n
        invariant
            k <= n,
            n == lab@.len(),
            canon@.len() == k,
            forall|v: int| 0 <= v < k ==> #[trigger] canon@[v] == UNSET,
        decreases n - k,
    {
        canon.push(UNSET);
        k += 1;
    }
    let mut ids: Vec<usize> = Vec::new();
    let mut nnets: usize = 0;
    let mut i: usize = 0;
    while i < n
        invariant
            i <= n,
            n == lab@.len(),
            labels_in_range(lab@),
            canon@.len() == n,
            ids@.len() == i,
            nnets <= i,
            forall|v: int| 0 <= v < n && #[trigger] canon@[v] != UNSET ==> canon@[v] < nnets,
            forall|v: int| 0 <= v < n ==> (#[trigger] canon@[v] != UNSET <==> exists|j: int| 0 <= j < i && #[trigger] lab@[j] == v),
            forall|j: int| 0 <= j < i ==> #[trigger] ids@[j] == canon@[lab@[j] as int],
            forall|u: int, v: int| 0 <= u < n && 0 <= v < n && #[trigger] canon@[u] != UNSET && canon@[u] == #[trigger] canon@[v] ==> u == v,
            canonical(ids@, nnets as nat),
        decreases n - i,
    {
        let r = lab[i];
        let ghost c0 = canon@;
        let ghost ids0 = ids@;
        if canon[r] == UNSET {
            canon.set(r, nnets);
            ids.push(nnets);
            proof {
                assert forall|v: int| 0 <= v < n implies (#[trigger] canon@[v] != UNSET <==> exists|j: int| 0 <= j < i + 1 && #[trigger] lab@[j] == v) by {
                    if v == r {
                        assert(lab@[i as int] == v);
                    } else if c0[v] != UNSET {
                        let j = choose|j: int| 0 <= j < i && #[trigger] lab@[j] == v;
                        assert(lab@[j] == v);
                    } else {
                        if exists|j: int| 0 <= j < i + 1 && #[trigger] lab@[j] == v {
                            let j = choose|j: int| 0 <= j < i + 1 && #[trigger] lab@[j] == v;
                            assert(j < i);
                        }
                    }
                }
                assert forall|j: int| 0 <= j < i + 1 implies #[trigger] ids@[j] == canon@[lab@[j] as int] by {
                    if j < i {
                        assert(ids@[j] == ids0[j]);
                        assert(c0[lab@[j] as int] != UNSET) by {
                            assert(lab@[j] == lab@[j]);
                        }
                        if lab@[j] == r {
                            assert(false);
                        }
                    }
                }
                assert forall|v: usize| v < nnets + 1 implies #[trigger] ids@.contains(v) by {
                    if v < nnets {
                        assert(ids0.contains(v));
                        let x = choose|x: int| 0 <= x < ids0.len() && #[trigger] ids0[x] == v;
                        assert(ids@[x] == v);
                    } else {
                        assert(ids@[i as int] == v);
                    }
                }
                assert forall|x: int| 0 <= x < ids@.len() implies #[trigger] ids@[x] == 0 || exists|j: int| 0 <= j < x && #[trigger] ids@[j] == ids@[x] - 1 by {
                    if x < i {
                        assert(ids@[x] == ids0[x]);
                        if ids0[x] != 0 {
                            let j = choose|j: int| 0 <= j < x && #[trigger] ids0[j] == ids0[x] - 1;
                            assert(ids@[j] == ids0[j]);
                        }
                    } else if nnets > 0 {
                        assert(ids0.contains((nnets - 1) as usize));
                        let w = choose|w: int| 0 <= w < ids0.len() && #[trigger] ids0[w] == nnets - 1;
                        assert(ids@[w] == ids0[w]);
                    }
                }
                assert forall|x: int| 0 <= x < ids@.len() implies #[trigger] ids@[x] < nnets + 1 by {
                    if x < i {
                        assert(ids@[x] == ids0[x]);
                    }
                }
            }
            nnets += 1;
        } else {
            let c = canon[r];
            ids.push(c);
            proof {
                let j0 = choose|j: int| 0 <= j < i && #[trigger] lab@[j] == r as int;
                assert(ids0[j0] == c);
                assert forall|v: int| 0 <= v < n implies (#[trigger] canon@[v] != UNSET <==> exists|j: int| 0 <= j < i + 1 && #[trigger] lab@[j] == v) by {
                    if c0[v] != UNSET {
                        let j = choose|j: int| 0 <= j < i && #[trigger] lab@[j] == v;
                        assert(lab@[j] == v);
                    } else {
                        if exists|j: int| 0 <= j < i + 1 && #[trigger] lab@[j] == v {
                            let j = choose|j: int| 0 <= j < i + 1 && #[trigger] lab@[j] == v;
                            assert(j < i);
                        }
                    }
                }
                assert forall|j: int| 0 <= j < i + 1 implies #[trigger] ids@[j] == canon@[lab@[j] as int] by {
                    if j < i {
                        assert(ids@[j] == ids0[j]);
                    }
                }
                assert forall|v: usize| v < nnets implies #[trigger] ids@.contains(v) by {
                    assert(ids0.contains(v));
                    let x = choose|x: int| 0 <= x < ids0.len() && #[trigger] ids0[x] == v;
                    assert(ids@[x] == v);
                }
                assert forall|x: int| 0 <= x < ids@.len() implies #[trigger] ids@[x] == 0 || exists|j: int| 0 <= j < x && #[trigger] ids@[j] == ids@[x] - 1 by {
                    let y = if x < i { x } else { j0 };
                    assert(ids@[y] == ids0[y]);
                    assert(ids@[x] == ids0[y]);
                    if ids0[y] != 0 {
                        let j = choose|j: int| 0 <= j < y && #[trigger] ids0[j] == ids0[y] - 1;
                        assert(ids@[j] == ids0[j]);
                    }
                }
                assert forall|x: int| 0 <= x < ids@.len() implies #[trigger] ids@[x] < nnets by {
                    if x < i {
                        assert(ids@[x] == ids0[x]);
                    }
                }
            }
        }
        i += 1;
    }
    proof {
        assert forall|x: int, y: int| 0 <= x < lab@.len() && 0 <= y < lab@.len() implies (lab@[x] == lab@[y] <==> #[trigger] ids@[x] == #[trigger] ids@[y]) by {
            assert(canon@[lab@[x] as int] != UNSET) by {
                assert(lab@[x] == lab@[x]);
            }
        }
    }
    (ids, nnets)
}

/// How many of the owners (prim indices, -1 for none) lie on net `n`.
pub open spec fn owned_count(ids: Seq<usize>, owners: Seq<int>, n: int) -> nat
    decreases owners.len(),
{
    if owners.len() == 0 {
        0
    } else {
        let o = owners.last();
        owned_count(ids, owners.drop_last(), n) + if 0 <= o && ids[o] == n { 1nat } else { 0nat }
    }
}

proof fn lemma_owned_count_bound(ids: Seq<usize>, owners: Seq<int>, n: int)
    ensures
        owned_count(ids, owners, n) <= owners.len(),
    decreases owners.len(),
{
    if owners.len() > 0 {
        lemma_owned_count_bound(ids, owners.drop_last(), n);
    }
}

/// Phase four of tracing: the number of cut shapes each net owns.
fn count_cuts(ids: &Vec<usize>, nnets: usize, owners: &Vec<Option<usize>>) -> (counts: Vec<usize>)
    requires
        forall|i: int| 0 <= i < ids@.len() ==> #[trigger] ids@[i] < nnets,
        forall|k: int| 0 <= k < owners@.len() ==> (#[trigger] owners@[k] matches Some(o) ==> o < ids@.len()),
    ensures
        counts@.len() == nnets,
        forall|n: int| 0 <= n < nnets ==> #[trigger] counts@[n] == owned_count(ids@, owners@.map_values(|o: Option<usize>| opt_index(o)), n),
{
    let ghost ow = owners@.map_values(|o: Option<usize>| opt_index(o));
    let mut counts: Vec<usize> = Vec::new();
    let mut n: usize = 0;
    while n < nnets
        invariant
            n <= nnets,
            counts@.len() == n,
            forall|m: int| 0 <= m < n ==> #[trigger] counts@[m] == 0,
        decreases nnets - n,
    {
        counts.push(0);
        n += 1;
    }
    let mut k: usize = 0;
    while k < owners.len()
        invariant
            k <= owners@.len(),
            ow == owners@.map_values(|o: Option<usize>| opt_index(o)),
            counts@.len() == nnets,
            forall|i: int| 0 <= i < ids@.len() ==> #[trigger] ids@[i] < nnets,
            forall|j: int| 0 <= j < owners@.len() ==> (#[trigger] owners@[j] matches Some(o) ==> o < ids@.len()),
            forall|m: int| 0 <= m < nnets ==> #[trigger] counts@[m] == owned_count(ids@, ow.take(k as int), m),
        decreases owners@.len() - k,
    {
        proof {
            assert(ow.take(k + 1).drop_last() =~= ow.take(k as int));
            assert(ow.take(k + 1).last() == opt_index(owners@[k as int]));
        }
        if let Some(pi) = owners[k] {
            let nid = ids[pi];
            proof {
                lemma_owned_count_bound(ids@, ow.take(k as int), nid as int);
            }
            let c = counts[nid] + 1;
            counts.set(nid, c);
        }
        k += 1;
    }
    proof {
        assert(ow.take(owners@.len() as int) =~= ow);
    }
    counts
}

/// The first prim from `p` on with layer number `layer` that covers the point, or -1.
pub open spec fn first_on_layer(prims: Seq<Prim>, layer: i16, x: i32, y: i32, p: int) -> int
    decreases prims.len() - p,
{
    if p < 0 || p >= prims.len() {
        -1
    } else if prims[p].layer.0 == layer && pt_in_spec(prims[p].rects@, x, y) {
        p
    } else {
        first_on_layer(prims, layer, x, y, p + 1)
    }
}

/// The first prim from `p` on that covers the point, or -1.
pub open spec fn first_covering(prims: Seq<Prim>, x: i32, y: i32, p: int) -> int
    decreases prims.len() - p,
{
    if p < 0 || p >= prims.len() {
        -1
    } else if pt_in_spec(prims[p].rects@, x, y) {
        p
    } else {
        first_covering(prims, x, y, p + 1)
    }
}

/// The prim a label names: the first on its own layer number under its point, else the
/// first of any layer there, else -1.
pub open spec fn label_prim(prims: Seq<Prim>, layer: i16, x: i32, y: i32) -> int {
    let a = first_on_layer(prims, layer, x, y, 0);
    if a >= 0 { a } else { first_covering(prims, x, y, 0) }
}

proof fn lemma_first_on_layer(prims: Seq<Prim>, layer: i16, x: i32, y: i32, p: int)
    requires
        0 <= p,
    ensures
        first_on_layer(prims, layer, x, y, p) == -1 || p <= first_on_layer(prims, layer, x, y, p) < prims.len(),
    decreases prims.len() - p,
{
    if p < prims.len() {
        lemma_first_on_layer(prims, layer, x, y, p + 1);
    }
}

proof fn lemma_first_covering(prims: Seq<Prim>, x: i32, y: i32, p: int)
    requires
        0 <= p,
    ensures
        first_covering(prims, x, y, p) == -1 || p <= first_covering(prims, x, y, p) < prims.len(),
    decreases prims.len() - p,
{
    if p < prims.len() {
        lemma_first_covering(prims, x, y, p + 1);
    }
}

/// The prim a label names, scanning them all.
fn find_label_prim(prims: &Vec<Prim>, layer: i16, x: i32, y: i32) -> (r: Option<usize>)
    ensures
        opt_index(r) == label_prim(prims@, layer, x, y),
        r matches Some(p) ==> p < prims@.len(),
{
    proof {
        lemma_first_on_layer(prims@, layer, x, y, 0);
        lemma_first_covering(prims@, x, y, 0);
    }
    let mut p: usize = 0;
    while p < prims.len()
        invariant
            p <= prims@.len(),
            first_on_layer(prims@, layer, x, y, 0) == first_on_layer(prims@, layer, x, y, p as int),
        decreases prims@.len() - p,
    {
        if prims[p].layer.0 == layer && pt_in(prims[p].rects.as_slice(), x, y) {
            return Some(p);
        }
        p += 1;
    }
    let mut q: usize = 0;
    while q < prims.len()
        invariant
            q <= prims@.len(),
            first_on_layer(prims@, layer, x, y, 0) == -1,
            first_covering(prims@, x, y, 0) == first_covering(prims@, x, y, q as int),
        decreases prims@.len() - q,
    {
        if pt_in(prims[q].rects.as_slice(), x, y) {
            return Some(q);
        }
        q += 1;
    }
    None
}

/// The names of a name list, as character sequences.
pub open spec fn names_view(names: Seq<Option<String>>) -> Seq<Option<Seq<char>>> {
    names.map_values(|o: Option<String>| match o {
        Some(s) => Some(s@),
        None => None,
    })
}

/// The net names after the first `k` labels: each label names the net of its prim, a
/// later label overriding an earlier one; `nnets` nets start unnamed.
pub open spec fn names_after(prims: Seq<Prim>, ids: Seq<usize>, labels: Seq<(String, i16, i32, i32)>, nnets: nat, k: int) -> Seq<Option<Seq<char>>>
    decreases k,
{
    if k <= 0 {
        Seq::new(nnets, |n: int| None)
    } else {
        let prev = names_after(prims, ids, labels, nnets, k - 1);
        let l = labels[k - 1];
        let pi = label_prim(prims, l.1, l.2, l.3);
        if pi >= 0 {
            prev.update(ids[pi] as int, Some(l.0@))
        } else {
            prev
        }
    }
}

proof fn lemma_names_after_len(prims: Seq<Prim>, ids: Seq<usize>, labels: Seq<(String, i16, i32, i32)>, nnets: nat, k: int)
    requires
        ids.len() == prims.len(),
        forall|i: int| 0 <= i < ids.len() ==> #[trigger] ids[i] < nnets,
    ensures
        names_after(prims, ids, labels, nnets, k).len() == nnets,
    decreases k,
{
    if k > 0 {
        let l = labels[k - 1];
        lemma_first_on_layer(prims, l.1, l.2, l.3, 0);
        lemma_first_covering(prims, l.2, l.3, 0);
        lemma_names_after_len(prims, ids, labels, nnets, k - 1);
    }
}

/// Phase five of tracing: name the nets from the labels.
fn name_nets(prims: &Vec<Prim>, ids: &Vec<usize>, nnets: usize, labels: &[(String, i16, i32, i32)]) -> (names: Vec<Option<String>>)
    requires
        ids@.len() == prims@.len(),
        forall|i: int| 0 <= i < ids@.len() ==> #[trigger] ids@[i] < nnets,
    ensures
        names_view(names@) == names_after(prims@, ids@, labels@, nnets as nat, labels@.len() as int),
{
    let mut names: Vec<Option<String>> = Vec::new();
    let mut n: usize = 0;
    while n < nnets
        invariant
            n <= nnets,
            names@.len() == n,
            forall|m: int| 0 <= m < n ==> #[trigger] names@[m] is None,
        decreases nnets - n,
    {
        names.push(None);
        n += 1;
    }
    proof {
        assert(names_view(names@) =~= names_after(prims@, ids@, labels@, nnets as nat, 0));
    }
    let mut k: usize = 0;
    while k < labels.len()
        invariant
            k <= labels@.len(),
            ids@.len() == prims@.len(),
            forall|i: int| 0 <= i < ids@.len() ==> #[trigger] ids@[i] < nnets,
            names@.len() == nnets,
            names_view(names@) == names_after(prims@, ids@, labels@, nnets as nat, k as int),
        decreases labels@.len() - k,
    {
        let pi = find_label_prim(prims, labels[k].1, labels[k].2, labels[k].3);
        if let Some(pi) = pi {
            let nid = ids[pi];
            let ghost before = names@;
            names.set(nid, Some(labels[k].0.clone()));
            proof {
                lemma_names_after_len(prims@, ids@, labels@, nnets as nat, k as int);
                assert(names_view(names@) =~= names_view(before).update(nid as int, Some(labels@[k as int].0@)));
            }
        }
        k += 1;
    }
    names
}

/// The prim each cut shape (tiled as `cts`) is counted for, -1 for none.
pub open spec fn shape_owners(prims: Seq<Prim>, shapes: Seq<(Cut, Poly)>, cts: Seq<Seq<Rect>>) -> Seq<int> {
    Seq::new(shapes.len(), |k: int| cut_owner(prims, shapes[k].0, cts[k]))
}

/// Under the tiling `cts` of the cut shapes, each shape joins what it should into one
/// net of `ids`, and `counts` holds per net the number of shapes it owns.
pub open spec fn cuts_traced(prims: Seq<Prim>, shapes: Seq<(Cut, Poly)>, cts: Seq<Seq<Rect>>, ids: Seq<usize>, counts: Seq<usize>) -> bool {
    &&& cts.len() == shapes.len()
    &&& forall|k: int| 0 <= k < shapes.len() ==> #[trigger] tile_ok(shapes[k].1@, cts[k])
    &&& forall|k: int| 0 <= k < shapes.len() ==> #[trigger] cut_joined(prims, shapes[k].0, cts[k], same_label(ids))
    &&& forall|n: int| 0 <= n < counts.len() ==> #[trigger] counts[n] == owned_count(ids, shape_owners(prims, shapes, cts), n)
    &&& forall|x: int, y: int| #![trigger ids[x], ids[y]]
        0 <= x < ids.len() && 0 <= y < ids.len() ==> (ids[x] == ids[y] <==> reach(cut_edge(prims, shapes, cts, shapes.len() as int), x, y))
}

/// Trace connected nets.
///
/// `layers` is the connective geometry per layer; `cuts` join those layers; `labels` are
/// `(name, layer, x, y)` points naming the net they land on, a prim on the label's own
/// layer number preferred.
pub fn trace(layers: &[(Ld, Vec<Poly>)], cuts: &[Cut], labels: &[(String, i16, i32, i32)]) -> (t: Traced)
    ensures
        prims_ok(layers@, t.prims@),
        t.net_id@.len() == t.prims@.len(),
        canonical(t.net_id@, t.nnets as nat),
        t.cut_count@.len() == t.nnets,
        exists|cts: Seq<Seq<Rect>>| #[trigger] cuts_traced(t.prims@, cut_shapes(cuts@), cts, t.net_id@, t.cut_count@),
        t.names@.len() == t.nnets,
        names_view(t.names@) == names_after(t.prims@, t.net_id@, labels@, t.nnets as nat, labels@.len() as int),
{
    let prims = build_prims(layers);
    let (lab, owners, cts) = apply_cuts(&prims, cuts);
    let (net_id, nnets) = number_nets(&lab);
    let ghost shapes = cut_shapes(cuts@);
    proof {
        assert forall|k: int| 0 <= k < owners@.len() implies (#[trigger] owners@[k] matches Some(o) ==> o < net_id@.len()) by {
            assert(owners@[k] matches Some(o) ==> o < prims@.len());
        }
    }
    let cut_count = count_cuts(&net_id, nnets, &owners);
    let names = name_nets(&prims, &net_id, nnets, labels);
    proof {
        assert(refines(lab@, net_id@));
        assert forall|k: int| 0 <= k < shapes.len() implies #[trigger] cut_joined(prims@, shapes[k].0, cts@[k], same_label(net_id@)) by {
            assert(cut_joined(prims@, shapes[k].0, cts@[k], same_label(lab@)));
            lemma_cut_joined_refines(prims@, shapes[k].0, cts@[k], lab@, net_id@);
        }
        assert(owners@.map_values(|o: Option<usize>| opt_index(o)) =~= shape_owners(prims@, shapes, cts@)) by {
            assert forall|k: int| 0 <= k < shapes.len() implies opt_index(#[trigger] owners@[k]) == cut_owner(prims@, shapes[k].0, cts@[k]) by {}
        }
        let e = cut_edge(prims@, shapes, cts@, shapes.len() as int);
        assert forall|a: int, b: int| #[trigger] e(a, b) implies 0 <= a < net_id@.len() && 0 <= b < net_id@.len() && net_id@[a] == net_id@[b] by {
            let j = choose|j: int| 0 <= j < shapes.len() && #[trigger] joins(prims@, shapes[j].0, cts@[j], a, b);
            assert(cut_joined(prims@, shapes[j].0, cts@[j], same_label(net_id@)));
        }
        assert forall|x: int, y: int| 0 <= x < net_id@.len() && 0 <= y < net_id@.len() implies (net_id@[x] == net_id@[y] <==> reach(e, x, y)) by {
            if net_id@[x] == net_id@[y] {
                assert(lab@[x] == lab@[y]);
            }
            if reach(e, x, y) {
                lemma_reach_keeps(e, net_id@, x, y);
            }
        }
        assert(cuts_traced(prims@, shapes, cts@, net_id@, cut_count@));
        lemma_names_after_len(prims@, net_id@, labels@, nnets as nat, labels@.len() as int);
    }
    Traced { prims, net_id, names, cut_count, nnets }
}

// ---- nets as reachability ---------------------------------------------------------------

/// A cut shape (tiled as `ct`) joins prims `a` and `b` directly: for an enclosed cut the
/// prims on its two layers that enclose it, for an overlap cut any two prims it hits.
pub open spec fn joins(prims: Seq<Prim>, cut: Cut, ct: Seq<Rect>, a: int, b: int) -> bool {
    match cut {
        Cut::Enclosed { a: la, b: lb, .. } => enclosed_joins(prims, la, lb, ct, a, b),
        Cut::Overlap { .. } => overlap_joins(prims, ct, a, b),
    }
}

/// An enclosed cut shape joins the prims on its two layers that enclose it.
pub open spec fn enclosed_joins(prims: Seq<Prim>, la: Ld, lb: Ld, ct: Seq<Rect>, a: int, b: int) -> bool {
    let pa = first_enclosing(prims, la, ct, 0);
    let pb = first_enclosing(prims, lb, ct, 0);
    &&& 0 <= a < prims.len()
    &&& 0 <= b < prims.len()
    &&& pa >= 0 && pb >= 0 && ((a == pa && b == pb) || (a == pb && b == pa))
}

/// An overlap cut shape joins any two prims it hits.
pub open spec fn overlap_joins(prims: Seq<Prim>, ct: Seq<Rect>, a: int, b: int) -> bool {
    &&& 0 <= a < prims.len()
    &&& 0 <= b < prims.len()
    &&& hits(prims[a], ct) && hits(prims[b], ct)
}

/// The relation `e0` with the direct joins of one more cut shape added.
pub open spec fn with_shape(e0: spec_fn(int, int) -> bool, prims: Seq<Prim>, cut: Cut, ct: Seq<Rect>) -> spec_fn(int, int) -> bool {
    |a: int, b: int| e0(a, b) || joins(prims, cut, ct, a, b)
}

/// Some one of the first `k` cut shapes joins `a` and `b` directly.
pub open spec fn cut_edge(prims: Seq<Prim>, shapes: Seq<(Cut, Poly)>, cts: Seq<Seq<Rect>>, k: int) -> spec_fn(int, int) -> bool {
    |a: int, b: int| exists|j: int| 0 <= j < k && #[trigger] joins(prims, shapes[j].0, cts[j], a, b)
}

/// `p` is a walk along the relation `e`.
pub open spec fn is_walk(e: spec_fn(int, int) -> bool, p: Seq<int>) -> bool {
    &&& p.len() >= 1
    &&& forall|i: int| 0 <= i < p.len() - 1 ==> #[trigger] e(p[i], p[i + 1])
}

/// Some walk along `e` leads from `x` to `y`.
pub open spec fn reach(e: spec_fn(int, int) -> bool, x: int, y: int) -> bool {
    exists|p: Seq<int>| #[trigger] is_walk(e, p) && p[0] == x && p.last() == y
}

/// Positions with equal labels are reachable from each other along `e`.
pub open spec fn conn_ok(lab: Seq<usize>, e: spec_fn(int, int) -> bool) -> bool {
    forall|x: int, y: int| #![trigger lab[x], lab[y]] 0 <= x < lab.len() && 0 <= y < lab.len() && lab[x] == lab[y] ==> reach(e, x, y)
}

proof fn lemma_reach_refl(e: spec_fn(int, int) -> bool, x: int)
    ensures
        reach(e, x, x),
{
    let p = seq![x];
    assert(is_walk(e, p));
}

proof fn lemma_reach_edge(e: spec_fn(int, int) -> bool, x: int, y: int)
    requires
        e(x, y),
    ensures
        reach(e, x, y),
{
    let p = seq![x, y];
    assert(is_walk(e, p));
}

proof fn lemma_reach_trans(e: spec_fn(int, int) -> bool, x: int, y: int, z: int)
    requires
        reach(e, x, y),
        reach(e, y, z),
    ensures
        reach(e, x, z),
{
    let p = choose|p: Seq<int>| #[trigger] is_walk(e, p) && p[0] == x && p.last() == y;
    let q = choose|q: Seq<int>| #[trigger] is_walk(e, q) && q[0] == y && q.last() == z;
    let r = p + q.drop_first();
    assert forall|i: int| 0 <= i < r.len() - 1 implies #[trigger] e(r[i], r[i + 1]) by {
        if i < p.len() - 1 {
            assert(r[i] == p[i] && r[i + 1] == p[i + 1]);
        } else if i == p.len() - 1 {
            assert(r[i] == q[0] && r[i + 1] == q[1]);
        } else {
            let j = i - p.len() + 1;
            assert(r[i] == q[j] && r[i + 1] == q[j + 1]);
        }
    }
    assert(is_walk(e, r));
    if q.len() == 1 {
        assert(r.last() == p.last());
    } else {
        assert(r.last() == q.last());
    }
}

proof fn lemma_reach_mono(e1: spec_fn(int, int) -> bool, e2: spec_fn(int, int) -> bool, x: int, y: int)
    requires
        reach(e1, x, y),
        forall|a: int, b: int| #[trigger] e1(a, b) ==> e2(a, b),
    ensures
        reach(e2, x, y),
{
    let p = choose|p: Seq<int>| #[trigger] is_walk(e1, p) && p[0] == x && p.last() == y;
    assert forall|i: int| 0 <= i < p.len() - 1 implies #[trigger] e2(p[i], p[i + 1]) by {
        assert(e1(p[i], p[i + 1]));
    }
    assert(is_walk(e2, p));
}

/// Along a relation whose steps keep a value, every walk keeps it.
proof fn lemma_walk_keeps(e: spec_fn(int, int) -> bool, ids: Seq<usize>, p: Seq<int>)
    requires
        is_walk(e, p),
        forall|a: int, b: int| #[trigger] e(a, b) ==> 0 <= a < ids.len() && 0 <= b < ids.len() && ids[a] == ids[b],
        0 <= p[0] < ids.len(),
    ensures
        0 <= p.last() < ids.len(),
        ids[p.last()] == ids[p[0]],
    decreases p.len(),
{
    if p.len() > 1 {
        let q = p.drop_last();
        assert(is_walk(e, q)) by {
            assert forall|i: int| 0 <= i < q.len() - 1 implies #[trigger] e(q[i], q[i + 1]) by {
                assert(e(p[i], p[i + 1]));
            }
        }
        lemma_walk_keeps(e, ids, q);
        let i = p.len() - 2;
        assert(e(p[i], p[i + 1]));
        assert(q.last() == p[i] && p.last() == p[i + 1]);
    }
}

proof fn lemma_reach_keeps(e: spec_fn(int, int) -> bool, ids: Seq<usize>, x: int, y: int)
    requires
        reach(e, x, y),
        forall|a: int, b: int| #[trigger] e(a, b) ==> 0 <= a < ids.len() && 0 <= b < ids.len() && ids[a] == ids[b],
        0 <= x < ids.len(),
    ensures
        ids[x] == ids[y],
{
    let p = choose|p: Seq<int>| #[trigger] is_walk(e, p) && p[0] == x && p.last() == y;
    lemma_walk_keeps(e, ids, p);
}

proof fn lemma_conn_mono(lab: Seq<usize>, e1: spec_fn(int, int) -> bool, e2: spec_fn(int, int) -> bool)
    requires
        conn_ok(lab, e1),
        forall|a: int, b: int| #[trigger] e1(a, b) ==> e2(a, b),
    ensures
        conn_ok(lab, e2),
{
    assert forall|x: int, y: int| 0 <= x < lab.len() && 0 <= y < lab.len() && lab[x] == lab[y] implies reach(e2, x, y) by {
        assert(lab[x] == lab[y]);
        lemma_reach_mono(e1, e2, x, y);
    }
}

/// Joining two positions linked by a step of `e` keeps labels reachable.
proof fn lemma_join_conn(l0: Seq<usize>, l1: Seq<usize>, p: int, q: int, e: spec_fn(int, int) -> bool)
    requires
        conn_ok(l0, e),
        0 <= p < l0.len(),
        0 <= q < l0.len(),
        e(p, q),
        e(q, p),
        l1.len() == l0.len(),
        forall|x: int| 0 <= x < l0.len() ==> #[trigger] l1[x] == if l0[x] == l0[q] { l0[p] } else { l0[x] },
    ensures
        conn_ok(l1, e),
{
    assert forall|x: int, y: int| 0 <= x < l1.len() && 0 <= y < l1.len() && l1[x] == l1[y] implies reach(e, x, y) by {
        if l0[x] == l0[y] {
            assert(l0[x] == l0[y]);
        } else if l0[x] == l0[q] {
            // x sits with q, y with p
            assert(l0[y] == l0[p]);
            assert(reach(e, x, q)) by {
                assert(l0[x] == l0[q]);
            }
            assert(reach(e, p, y)) by {
                assert(l0[p] == l0[y]);
            }
            lemma_reach_edge(e, q, p);
            lemma_reach_trans(e, x, q, p);
            lemma_reach_trans(e, x, p, y);
        } else {
            assert(l0[y] == l0[q]);
            assert(l0[x] == l0[p]);
            assert(reach(e, x, p)) by {
                assert(l0[x] == l0[p]);
            }
            assert(reach(e, q, y)) by {
                assert(l0[q] == l0[y]);
            }
            lemma_reach_edge(e, p, q);
            lemma_reach_trans(e, x, p, q);
            lemma_reach_trans(e, x, q, y);
        }
    }
}

} // verus!
