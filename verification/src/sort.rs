//! Verified merge sorts: integer keys sorted with duplicates removed, and rectangles
//! ordered by `(y0, y1, x0)`.

use vstd::prelude::*;
use crate::geom::{Rect, rcount, rect_contains};

verus! {

/// Strictly increasing.
pub open spec fn strictly_sorted(s: Seq<i32>) -> bool {
    forall|i: int, j: int| 0 <= i < j < s.len() ==> s[i] < s[j]
}

/// Strictly increasing.
pub open spec fn strictly_sorted_u32(s: Seq<u32>) -> bool {
    forall|i: int, j: int| 0 <= i < j < s.len() ==> s[i] < s[j]
}

/// Membership in a list extended by one element.
pub proof fn lemma_contains_push<A>(s: Seq<A>, v: A, x: A)
    ensures
        s.push(v).contains(x) <==> (s.contains(x) || v == x),
{
    if s.contains(x) {
        let k = choose|k: int| 0 <= k < s.len() && s[k] == x;
        assert(s.push(v)[k] == x);
    }
    if s.push(v).contains(x) {
        let k = choose|k: int| 0 <= k < s.push(v).len() && s.push(v)[k] == x;
        if k < s.len() {
            assert(s[k] == x);
        }
    }
    assert(s.push(v)[s.len() as int] == v);
}

/// Membership in a prefix one element longer.
pub proof fn lemma_contains_take<A>(s: Seq<A>, k: int, x: A)
    requires
        0 <= k < s.len(),
    ensures
        s.take(k + 1).contains(x) <==> (s.take(k).contains(x) || s[k] == x),
{
    assert(s.take(k + 1) =~= s.take(k).push(s[k]));
    lemma_contains_push(s.take(k), s[k], x);
}

fn merge_dedup(a: &Vec<i32>, b: &Vec<i32>) -> (r: Vec<i32>)
    requires
        strictly_sorted(a@),
        strictly_sorted(b@),
    ensures
        strictly_sorted(r@),
        forall|x: i32| r@.contains(x) <==> (a@.contains(x) || b@.contains(x)),
{
    let mut out: Vec<i32> = Vec::new();
    let (mut i, mut j): (usize, usize) = (0, 0);
    while i < a.len() || j < b.len()
        invariant
            i <= a.len(),
            j <= b.len(),
            strictly_sorted(a@),
            strictly_sorted(b@),
            strictly_sorted(out@),
            forall|x: i32| out@.contains(x) <==> (a@.take(i as int).contains(x) || b@.take(j as int).contains(x)),
            out@.len() > 0 && i < a.len() ==> out@.last() < a@[i as int],
            out@.len() > 0 && j < b.len() ==> out@.last() < b@[j as int],
        decreases a.len() + b.len() - i - j,
    {
        let ghost (gi, gj) = (i as int, j as int);
        let ghost old_out = out@;
        let v;
        if j >= b.len() || (i < a.len() && a[i] < b[j]) {
            v = a[i];
            i += 1;
        } else if i >= a.len() || b[j] < a[i] {
            v = b[j];
            j += 1;
        } else {
            v = a[i];
            i += 1;
            j += 1;
        }
        out.push(v);
        proof {
            assert(a@.take(i as int) =~= if i as int > gi { a@.take(gi).push(a@[gi]) } else { a@.take(gi) });
            assert(b@.take(j as int) =~= if j as int > gj { b@.take(gj).push(b@[gj]) } else { b@.take(gj) });
            assert forall|x: i32| out@.contains(x) <==> (a@.take(i as int).contains(x) || b@.take(j as int).contains(x)) by {
                lemma_contains_push(old_out, v, x);
                if i as int > gi {
                    lemma_contains_take(a@, gi, x);
                }
                if j as int > gj {
                    lemma_contains_take(b@, gj, x);
                }
            }
            assert forall|p: int, q: int| 0 <= p < q < out@.len() implies out@[p] < out@[q] by {
                if q < old_out.len() {
                } else if p < old_out.len() {
                    assert(old_out[p] <= old_out.last());
                }
            }
            if i < a.len() {
                if i as int > gi {
                    assert(a@[i - 1] < a@[i as int]);
                }
            }
            if j < b.len() {
                if j as int > gj {
                    assert(b@[j - 1] < b@[j as int]);
                }
            }
        }
    }
    proof {
        assert(a@.take(a.len() as int) =~= a@);
        assert(b@.take(b.len() as int) =~= b@);
    }
    out
}

fn sort_dedup_range(v: &[i32], lo: usize, hi: usize) -> (r: Vec<i32>)
    requires
        lo <= hi <= v.len(),
    ensures
        strictly_sorted(r@),
        forall|x: i32| r@.contains(x) <==> v@.subrange(lo as int, hi as int).contains(x),
    decreases hi - lo,
{
    if hi - lo == 0 {
        let r: Vec<i32> = Vec::new();
        proof {
            assert forall|x: i32| !v@.subrange(lo as int, hi as int).contains(x) by {}
        }
        return r;
    }
    if hi - lo == 1 {
        let mut r: Vec<i32> = Vec::new();
        r.push(v[lo]);
        proof {
            assert forall|x: i32| r@.contains(x) <==> v@.subrange(lo as int, hi as int).contains(x) by {
                if v@.subrange(lo as int, hi as int).contains(x) {
                    let k = choose|k: int| 0 <= k < 1 && v@.subrange(lo as int, hi as int)[k] == x;
                    assert(r@[0] == x);
                }
                if r@.contains(x) {
                    assert(v@.subrange(lo as int, hi as int)[0] == x);
                }
            }
        }
        return r;
    }
    let mid = lo + (hi - lo) / 2;
    let left = sort_dedup_range(v, lo, mid);
    let right = sort_dedup_range(v, mid, hi);
    let r = merge_dedup(&left, &right);
    proof {
        assert forall|x: i32| v@.subrange(lo as int, hi as int).contains(x) <==> (v@.subrange(lo as int, mid as int).contains(x) || v@.subrange(mid as int, hi as int).contains(x)) by {
            if v@.subrange(lo as int, hi as int).contains(x) {
                let k = choose|k: int| 0 <= k < hi - lo && v@.subrange(lo as int, hi as int)[k] == x;
                if k < mid - lo {
                    assert(v@.subrange(lo as int, mid as int)[k] == x);
                } else {
                    assert(v@.subrange(mid as int, hi as int)[k - (mid - lo)] == x);
                }
            }
            if v@.subrange(lo as int, mid as int).contains(x) {
                let k = choose|k: int| 0 <= k < mid - lo && v@.subrange(lo as int, mid as int)[k] == x;
                assert(v@.subrange(lo as int, hi as int)[k] == x);
            }
            if v@.subrange(mid as int, hi as int).contains(x) {
                let k = choose|k: int| 0 <= k < hi - mid && v@.subrange(mid as int, hi as int)[k] == x;
                assert(v@.subrange(lo as int, hi as int)[k + (mid - lo)] == x);
            }
        }
    }
    r
}

/// The distinct values of `v`, in increasing order.
pub fn sort_dedup(v: &[i32]) -> (r: Vec<i32>)
    ensures
        strictly_sorted(r@),
        forall|x: i32| r@.contains(x) <==> v@.contains(x),
{
    let r = sort_dedup_range(v, 0, v.len());
    proof {
        assert(v@.subrange(0, v.len() as int) =~= v@);
    }
    r
}

fn merge_dedup_u32(a: &Vec<u32>, b: &Vec<u32>) -> (r: Vec<u32>)
    requires
        strictly_sorted_u32(a@),
        strictly_sorted_u32(b@),
    ensures
        strictly_sorted_u32(r@),
        forall|x: u32| r@.contains(x) <==> (a@.contains(x) || b@.contains(x)),
{
    let mut out: Vec<u32> = Vec::new();
    let (mut i, mut j): (usize, usize) = (0, 0);
    while i < a.len() || j < b.len()
        invariant
            i <= a.len(),
            j <= b.len(),
            strictly_sorted_u32(a@),
            strictly_sorted_u32(b@),
            strictly_sorted_u32(out@),
            forall|x: u32| out@.contains(x) <==> (a@.take(i as int).contains(x) || b@.take(j as int).contains(x)),
            out@.len() > 0 && i < a.len() ==> out@.last() < a@[i as int],
            out@.len() > 0 && j < b.len() ==> out@.last() < b@[j as int],
        decreases a.len() + b.len() - i - j,
    {
        let ghost (gi, gj) = (i as int, j as int);
        let ghost old_out = out@;
        let v;
        if j >= b.len() || (i < a.len() && a[i] < b[j]) {
            v = a[i];
            i += 1;
        } else if i >= a.len() || b[j] < a[i] {
            v = b[j];
            j += 1;
        } else {
            v = a[i];
            i += 1;
            j += 1;
        }
        out.push(v);
        proof {
            assert(a@.take(i as int) =~= if i as int > gi { a@.take(gi).push(a@[gi]) } else { a@.take(gi) });
            assert(b@.take(j as int) =~= if j as int > gj { b@.take(gj).push(b@[gj]) } else { b@.take(gj) });
            assert forall|x: u32| out@.contains(x) <==> (a@.take(i as int).contains(x) || b@.take(j as int).contains(x)) by {
                lemma_contains_push(old_out, v, x);
                if i as int > gi {
                    lemma_contains_take(a@, gi, x);
                }
                if j as int > gj {
                    lemma_contains_take(b@, gj, x);
                }
            }
            assert forall|p: int, q: int| 0 <= p < q < out@.len() implies out@[p] < out@[q] by {
                if q < old_out.len() {
                } else if p < old_out.len() {
                    assert(old_out[p] <= old_out.last());
                }
            }
            if i < a.len() {
                if i as int > gi {
                    assert(a@[i - 1] < a@[i as int]);
                }
            }
            if j < b.len() {
                if j as int > gj {
                    assert(b@[j - 1] < b@[j as int]);
                }
            }
        }
    }
    proof {
        assert(a@.take(a.len() as int) =~= a@);
        assert(b@.take(b.len() as int) =~= b@);
    }
    out
}

fn sort_dedup_u32_range(v: &[u32], lo: usize, hi: usize) -> (r: Vec<u32>)
    requires
        lo <= hi <= v.len(),
    ensures
        strictly_sorted_u32(r@),
        forall|x: u32| r@.contains(x) <==> v@.subrange(lo as int, hi as int).contains(x),
    decreases hi - lo,
{
    if hi - lo == 0 {
        let r: Vec<u32> = Vec::new();
        proof {
            assert forall|x: u32| !v@.subrange(lo as int, hi as int).contains(x) by {}
        }
        return r;
    }
    if hi - lo == 1 {
        let mut r: Vec<u32> = Vec::new();
        r.push(v[lo]);
        proof {
            assert forall|x: u32| r@.contains(x) <==> v@.subrange(lo as int, hi as int).contains(x) by {
                if v@.subrange(lo as int, hi as int).contains(x) {
                    let k = choose|k: int| 0 <= k < 1 && v@.subrange(lo as int, hi as int)[k] == x;
                    assert(r@[0] == x);
                }
                if r@.contains(x) {
                    assert(v@.subrange(lo as int, hi as int)[0] == x);
                }
            }
        }
        return r;
    }
    let mid = lo + (hi - lo) / 2;
    let left = sort_dedup_u32_range(v, lo, mid);
    let right = sort_dedup_u32_range(v, mid, hi);
    let r = merge_dedup_u32(&left, &right);
    proof {
        assert forall|x: u32| v@.subrange(lo as int, hi as int).contains(x) <==> (v@.subrange(lo as int, mid as int).contains(x) || v@.subrange(mid as int, hi as int).contains(x)) by {
            if v@.subrange(lo as int, hi as int).contains(x) {
                let k = choose|k: int| 0 <= k < hi - lo && v@.subrange(lo as int, hi as int)[k] == x;
                if k < mid - lo {
                    assert(v@.subrange(lo as int, mid as int)[k] == x);
                } else {
                    assert(v@.subrange(mid as int, hi as int)[k - (mid - lo)] == x);
                }
            }
            if v@.subrange(lo as int, mid as int).contains(x) {
                let k = choose|k: int| 0 <= k < mid - lo && v@.subrange(lo as int, mid as int)[k] == x;
                assert(v@.subrange(lo as int, hi as int)[k] == x);
            }
            if v@.subrange(mid as int, hi as int).contains(x) {
                let k = choose|k: int| 0 <= k < hi - mid && v@.subrange(mid as int, hi as int)[k] == x;
                assert(v@.subrange(lo as int, hi as int)[k + (mid - lo)] == x);
            }
        }
    }
    r
}

/// The distinct values of `v`, in increasing order.
pub fn sort_dedup_u32(v: &[u32]) -> (r: Vec<u32>)
    ensures
        strictly_sorted_u32(r@),
        forall|x: u32| r@.contains(x) <==> v@.contains(x),
{
    let r = sort_dedup_u32_range(v, 0, v.len());
    proof {
        assert(v@.subrange(0, v.len() as int) =~= v@);
    }
    r
}

/// `a` comes no later than `b` in `(y0, y1, x0)` order.
pub open spec fn rkey_le(a: Rect, b: Rect) -> bool {
    a.y0 < b.y0 || (a.y0 == b.y0 && (a.y1 < b.y1 || (a.y1 == b.y1 && a.x0 <= b.x0)))
}

/// Sorted by `(y0, y1, x0)`.
pub open spec fn rects_sorted(s: Seq<Rect>) -> bool {
    forall|i: int, j: int| 0 <= i < j < s.len() ==> rkey_le(s[i], s[j])
}

fn rkey_le_exec(a: &Rect, b: &Rect) -> (r: bool)
    ensures
        r == rkey_le(*a, *b),
{
    a.y0 < b.y0 || (a.y0 == b.y0 && (a.y1 < b.y1 || (a.y1 == b.y1 && a.x0 <= b.x0)))
}

/// Counting over a list extended by one rectangle.
pub proof fn lemma_rcount_push(s: Seq<Rect>, r: Rect, x: int, y: int)
    ensures
        rcount(s.push(r), x, y) == rcount(s, x, y) + if rect_contains(r, x, y) { 1int } else { 0int },
{
    assert(s.push(r).drop_last() =~= s);
}

/// Counting over a concatenation.
pub proof fn lemma_rcount_concat(a: Seq<Rect>, b: Seq<Rect>, x: int, y: int)
    ensures
        rcount(a + b, x, y) == rcount(a, x, y) + rcount(b, x, y),
    decreases b.len(),
{
    if b.len() == 0 {
        assert(a + b =~= a);
    } else {
        lemma_rcount_concat(a, b.drop_last(), x, y);
        assert((a + b).drop_last() =~= a + b.drop_last());
    }
}

fn merge_rects(a: &Vec<Rect>, b: &Vec<Rect>) -> (r: Vec<Rect>)
    requires
        rects_sorted(a@),
        rects_sorted(b@),
    ensures
        rects_sorted(r@),
        forall|x: int, y: int| #[trigger] rcount(r@, x, y) == rcount(a@, x, y) + rcount(b@, x, y),
        forall|k: int| 0 <= k < r@.len() ==> a@.contains(#[trigger] r@[k]) || b@.contains(r@[k]),
{
    let mut out: Vec<Rect> = Vec::new();
    let (mut i, mut j): (usize, usize) = (0, 0);
    while i < a.len() || j < b.len()
        invariant
            i <= a.len(),
            j <= b.len(),
            rects_sorted(a@),
            rects_sorted(b@),
            rects_sorted(out@),
            forall|x: int, y: int| #[trigger] rcount(out@, x, y) == rcount(a@.take(i as int), x, y) + rcount(b@.take(j as int), x, y),
            forall|k: int| 0 <= k < out@.len() ==> a@.contains(#[trigger] out@[k]) || b@.contains(out@[k]),
            out@.len() > 0 && i < a.len() ==> rkey_le(out@.last(), a@[i as int]),
            out@.len() > 0 && j < b.len() ==> rkey_le(out@.last(), b@[j as int]),
        decreases a.len() + b.len() - i - j,
    {
        let ghost (gi, gj) = (i as int, j as int);
        let ghost old_out = out@;
        let take_a = j >= b.len() || (i < a.len() && rkey_le_exec(&a[i], &b[j]));
        let v = if take_a { a[i] } else { b[j] };
        if take_a {
            i += 1;
        } else {
            j += 1;
        }
        out.push(v);
        proof {
            assert(a@.take(i as int) =~= if take_a { a@.take(gi).push(a@[gi]) } else { a@.take(gi) });
            assert(b@.take(j as int) =~= if !take_a { b@.take(gj).push(b@[gj]) } else { b@.take(gj) });
            assert forall|x: int, y: int| #[trigger] rcount(out@, x, y) == rcount(a@.take(i as int), x, y) + rcount(b@.take(j as int), x, y) by {
                lemma_rcount_push(old_out, v, x, y);
                if take_a {
                    lemma_rcount_push(a@.take(gi), a@[gi], x, y);
                } else {
                    lemma_rcount_push(b@.take(gj), b@[gj], x, y);
                }
            }
            assert forall|k: int| 0 <= k < out@.len() implies a@.contains(#[trigger] out@[k]) || b@.contains(out@[k]) by {
                if k < old_out.len() {
                    assert(out@[k] == old_out[k]);
                } else if take_a {
                    assert(a@[gi] == out@[k]);
                } else {
                    assert(b@[gj] == out@[k]);
                }
            }
            assert forall|p: int, q: int| 0 <= p < q < out@.len() implies rkey_le(out@[p], out@[q]) by {
                if q < old_out.len() {
                    assert(out@[p] == old_out[p] && out@[q] == old_out[q]);
                } else if p < old_out.len() {
                    assert(out@[p] == old_out[p]);
                    if p < old_out.len() - 1 {
                        assert(rkey_le(old_out[p], old_out[old_out.len() - 1]));
                    }
                }
            }
            if i < a.len() {
                if take_a {
                    assert(rkey_le(a@[i - 1], a@[i as int]));
                }
            }
            if j < b.len() {
                if !take_a {
                    assert(rkey_le(b@[j - 1], b@[j as int]));
                }
            }
        }
    }
    proof {
        assert(a@.take(a.len() as int) =~= a@);
        assert(b@.take(b.len() as int) =~= b@);
    }
    out
}

fn sort_rects_range(v: &[Rect], lo: usize, hi: usize) -> (r: Vec<Rect>)
    requires
        lo <= hi <= v.len(),
    ensures
        rects_sorted(r@),
        forall|x: int, y: int| #[trigger] rcount(r@, x, y) == rcount(v@.subrange(lo as int, hi as int), x, y),
        forall|k: int| 0 <= k < r@.len() ==> v@.subrange(lo as int, hi as int).contains(#[trigger] r@[k]),
    decreases hi - lo,
{
    if hi - lo == 0 {
        let r: Vec<Rect> = Vec::new();
        proof {
            assert(v@.subrange(lo as int, hi as int) =~= r@);
        }
        return r;
    }
    if hi - lo == 1 {
        let mut r: Vec<Rect> = Vec::new();
        r.push(v[lo]);
        proof {
            assert(v@.subrange(lo as int, hi as int) =~= r@);
            assert forall|k: int| 0 <= k < r@.len() implies v@.subrange(lo as int, hi as int).contains(#[trigger] r@[k]) by {
                assert(v@.subrange(lo as int, hi as int)[0] == r@[k]);
            }
        }
        return r;
    }
    let mid = lo + (hi - lo) / 2;
    let left = sort_rects_range(v, lo, mid);
    let right = sort_rects_range(v, mid, hi);
    let r = merge_rects(&left, &right);
    proof {
        assert(v@.subrange(lo as int, hi as int) =~= v@.subrange(lo as int, mid as int) + v@.subrange(mid as int, hi as int));
        assert forall|x: int, y: int| #[trigger] rcount(r@, x, y) == rcount(v@.subrange(lo as int, hi as int), x, y) by {
            lemma_rcount_concat(v@.subrange(lo as int, mid as int), v@.subrange(mid as int, hi as int), x, y);
        }
        assert forall|k: int| 0 <= k < r@.len() implies v@.subrange(lo as int, hi as int).contains(#[trigger] r@[k]) by {
            let e = r@[k];
            if left@.contains(e) {
                let p = choose|p: int| 0 <= p < left@.len() && left@[p] == e;
                assert(v@.subrange(lo as int, mid as int).contains(left@[p]));
                let q = choose|q: int| 0 <= q < mid - lo && v@.subrange(lo as int, mid as int)[q] == e;
                assert(v@.subrange(lo as int, hi as int)[q] == e);
            } else {
                let p = choose|p: int| 0 <= p < right@.len() && right@[p] == e;
                assert(v@.subrange(mid as int, hi as int).contains(right@[p]));
                let q = choose|q: int| 0 <= q < hi - mid && v@.subrange(mid as int, hi as int)[q] == e;
                assert(v@.subrange(lo as int, hi as int)[q + (mid - lo)] == e);
            }
        }
    }
    r
}

/// `v` reordered by `(y0, y1, x0)`: the same rectangles, counted cell by cell.
pub fn sort_rects(v: &[Rect]) -> (r: Vec<Rect>)
    ensures
        rects_sorted(r@),
        forall|x: int, y: int| #[trigger] rcount(r@, x, y) == rcount(v@, x, y),
        forall|k: int| 0 <= k < r@.len() ==> v@.contains(#[trigger] r@[k]),
{
    let r = sort_rects_range(v, 0, v.len());
    proof {
        assert(v@.subrange(0, v.len() as int) =~= v@);
    }
    r
}

} // verus!
