//! Canonical 1-D interval lists: sorted, non-empty, strictly separated half-open spans
//! `[lo, hi)` of integers, with exact union / intersection / difference.
//!
//! A set of integers has exactly one canonical list, so each operation below returns
//! *the* canonical list of its result set.

use vstd::prelude::*;

verus! {

/// The spans are non-empty, sorted, and separated by at least one uncovered integer.
pub open spec fn canon(s: Seq<(i32, i32)>) -> bool {
    &&& forall|i: int| 0 <= i < s.len() ==> (#[trigger] s[i]).0 < s[i].1
    &&& forall|i: int, j: int| 0 <= i < j < s.len() ==> (#[trigger] s[i]).1 < (#[trigger] s[j]).0
}

/// `y` lies in one of the spans.
pub open spec fn in_spans(s: Seq<(i32, i32)>, y: int) -> bool {
    exists|i: int| 0 <= i < s.len() && (#[trigger] s[i]).0 <= y < s[i].1
}

/// Membership in a list extended by one span.
pub proof fn lemma_in_push(s: Seq<(i32, i32)>, p: (i32, i32), y: int)
    ensures
        in_spans(s.push(p), y) <==> (in_spans(s, y) || (p.0 <= y < p.1)),
{
    if in_spans(s, y) {
        let i = choose|i: int| 0 <= i < s.len() && (#[trigger] s[i]).0 <= y < s[i].1;
        assert(s.push(p)[i] == s[i]);
    }
    if p.0 <= y < p.1 {
        assert(s.push(p)[s.len() as int] == p);
    }
    if in_spans(s.push(p), y) {
        let i = choose|i: int| 0 <= i < s.push(p).len() && (#[trigger] s.push(p)[i]).0 <= y < s.push(
            p,
        )[i].1;
        if i < s.len() {
            assert(s[i] == s.push(p)[i]);
        }
    }
}

proof fn lemma_in_update_last(s: Seq<(i32, i32)>, p: (i32, i32), y: int)
    requires
        s.len() > 0,
    ensures
        in_spans(s.update(s.len() - 1, p), y) <==> (in_spans(s.drop_last(), y) || (p.0 <= y < p.1)),
{
    assert(s.update(s.len() - 1, p) =~= s.drop_last().push(p));
    lemma_in_push(s.drop_last(), p, y);
}

proof fn lemma_in_last_split(s: Seq<(i32, i32)>, y: int)
    requires
        s.len() > 0,
    ensures
        in_spans(s, y) <==> (in_spans(s.drop_last(), y) || (s.last().0 <= y < s.last().1)),
{
    assert(s =~= s.drop_last().push(s.last()));
    lemma_in_push(s.drop_last(), s.last(), y);
}

proof fn lemma_in_take(s: Seq<(i32, i32)>, k: int, y: int)
    requires
        0 <= k < s.len(),
    ensures
        in_spans(s.take(k + 1), y) <==> (in_spans(s.take(k), y) || (s[k].0 <= y < s[k].1)),
{
    assert(s.take(k + 1) =~= s.take(k).push(s[k]));
    lemma_in_push(s.take(k), s[k], y);
}

/// Union of two canonical lists.
pub fn union(a: &[(i32, i32)], b: &[(i32, i32)]) -> (r: Vec<(i32, i32)>)
    requires
        canon(a@),
        canon(b@),
    ensures
        canon(r@),
        forall|y: int| in_spans(r@, y) <==> (in_spans(a@, y) || in_spans(b@, y)),
{
    let mut out: Vec<(i32, i32)> = Vec::new();
    let (mut i, mut j): (usize, usize) = (0, 0);
    while i < a.len() || j < b.len()
        invariant
            i <= a.len(),
            j <= b.len(),
            canon(a@),
            canon(b@),
            canon(out@),
            forall|y: int| in_spans(out@, y) <==> (in_spans(a@.take(i as int), y) || in_spans(b@.take(j as int), y)),
            out@.len() > 0 ==> i < a.len() ==> out@.last().0 <= a@[i as int].0,
            out@.len() > 0 ==> j < b.len() ==> out@.last().0 <= b@[j as int].0,
        decreases a.len() + b.len() - i - j,
    {
        let take_a = j >= b.len() || (i < a.len() && a[i].0 <= b[j].0);
        let (lo, hi) = if take_a { a[i] } else { b[j] };
        let ghost old_out = out@;
        let n = out.len();
        if n > 0 && lo <= out[n - 1].1 {
            let last = out[n - 1];
            let nh = if hi > last.1 { hi } else { last.1 };
            out.set(n - 1, (last.0, nh));
            proof {
                assert forall|y: int| in_spans(out@, y) <==> (in_spans(old_out, y) || (lo <= y < hi)) by {
                    lemma_in_update_last(old_out, (last.0, nh), y);
                    lemma_in_last_split(old_out, y);
                }
                assert(canon(out@)) by {
                    assert forall|p: int, q: int| 0 <= p < q < out@.len() implies (#[trigger] out@[p]).1 < (#[trigger] out@[q]).0 by {
                        assert(old_out[p].1 < old_out[q].0);
                    }
                }
            }
        } else {
            out.push((lo, hi));
            proof {
                assert forall|y: int| in_spans(out@, y) <==> (in_spans(old_out, y) || (lo <= y < hi)) by {
                    lemma_in_push(old_out, (lo, hi), y);
                }
                assert(canon(out@)) by {
                    assert forall|p: int, q: int| 0 <= p < q < out@.len() implies (#[trigger] out@[p]).1 < (#[trigger] out@[q]).0 by {
                        if q < old_out.len() {
                            assert(old_out[p].1 < old_out[q].0);
                        } else if p < old_out.len() - 1 {
                            assert(old_out[p].1 < old_out[old_out.len() - 1].0);
                        }
                    }
                }
            }
        }
        let ghost (gi, gj) = (i as int, j as int);
        if take_a {
            i += 1;
        } else {
            j += 1;
        }
        proof {
            assert forall|y: int| in_spans(out@, y) <==> (in_spans(a@.take(i as int), y) || in_spans(b@.take(j as int), y)) by {
                assert(in_spans(out@, y) <==> (in_spans(old_out, y) || (lo <= y < hi)));
                assert(in_spans(old_out, y) <==> (in_spans(a@.take(gi), y) || in_spans(b@.take(gj), y)));
                if take_a {
                    lemma_in_take(a@, gi, y);
                    assert(a@[gi] == (lo, hi));
                    assert(b@.take(j as int) == b@.take(gj));
                } else {
                    lemma_in_take(b@, gj, y);
                    assert(b@[gj] == (lo, hi));
                    assert(a@.take(i as int) == a@.take(gi));
                }
            }
            if i < a.len() && out@.len() > 0 {
                if take_a {
                    assert(a@[i - 1].1 < a@[i as int].0);
                }
            }
            if j < b.len() && out@.len() > 0 {
                if !take_a {
                    assert(b@[j - 1].1 < b@[j as int].0);
                }
            }
        }
    }
    proof {
        assert(a@.take(a.len() as int) =~= a@);
        assert(b@.take(b.len() as int) =~= b@);
    }
    out
}

/// Pairs `(k, l)` already handled by the two-pointer intersection at `(i, j)`.
spec fn pair_done(k: int, l: int, i: int, j: int) -> bool {
    k < i || l < j
}

/// Intersection of two canonical lists.
pub fn intersect(a: &[(i32, i32)], b: &[(i32, i32)]) -> (r: Vec<(i32, i32)>)
    requires
        canon(a@),
        canon(b@),
    ensures
        canon(r@),
        forall|y: int| in_spans(r@, y) <==> (in_spans(a@, y) && in_spans(b@, y)),
{
    let mut out: Vec<(i32, i32)> = Vec::new();
    let (mut i, mut j): (usize, usize) = (0, 0);
    while i < a.len() && j < b.len()
        invariant
            i <= a.len(),
            j <= b.len(),
            canon(a@),
            canon(b@),
            canon(out@),
            forall|y: int| in_spans(out@, y) <==> exists|k: int, l: int|
                0 <= k < a.len() && 0 <= l < b.len() && pair_done(k, l, i as int, j as int) && (#[trigger] a@[k]).0
                    <= y < a@[k].1 && (#[trigger] b@[l]).0 <= y < b@[l].1,
            out@.len() > 0 ==> (i >= a.len() || j >= b.len() || out@.last().1 < a@[i as int].0
                || out@.last().1 < b@[j as int].0),
        decreases a.len() + b.len() - i - j,
    {
        let lo = if a[i].0 >= b[j].0 { a[i].0 } else { b[j].0 };
        let hi = if a[i].1 <= b[j].1 { a[i].1 } else { b[j].1 };
        let ghost old_out = out@;
        let ghost (gi, gj) = (i as int, j as int);
        if lo < hi {
            out.push((lo, hi));
            proof {
                assert(canon(out@)) by {
                    assert forall|p: int, q: int| 0 <= p < q < out@.len() implies (#[trigger] out@[p]).1 < (#[trigger] out@[q]).0 by {
                        if q < old_out.len() {
                            assert(old_out[p].1 < old_out[q].0);
                        } else if p < old_out.len() - 1 {
                            assert(old_out[p].1 < old_out[old_out.len() - 1].0);
                        }
                    }
                }
            }
        }
        let adv_a = a[i].1 < b[j].1;
        if adv_a {
            i += 1;
        } else {
            j += 1;
        }
        proof {
            assert forall|y: int| in_spans(out@, y) <==> exists|k: int, l: int|
                0 <= k < a.len() && 0 <= l < b.len() && pair_done(k, l, i as int, j as int) && (#[trigger] a@[k]).0
                    <= y < a@[k].1 && (#[trigger] b@[l]).0 <= y < b@[l].1 by {
                let cur = lo <= y < hi;
                if lo < hi {
                    lemma_in_push(old_out, (lo, hi), y);
                }
                assert(in_spans(out@, y) <==> (in_spans(old_out, y) || cur));
                if cur {
                    assert(a@[gi].0 <= y < a@[gi].1 && b@[gj].0 <= y < b@[gj].1);
                    assert(pair_done(gi, gj, i as int, j as int));
                }
                if exists|k: int, l: int|
                    0 <= k < a.len() && 0 <= l < b.len() && pair_done(k, l, i as int, j as int) && (#[trigger] a@[k]).0
                        <= y < a@[k].1 && (#[trigger] b@[l]).0 <= y < b@[l].1 {
                    let (k, l) = choose|k: int, l: int|
                        0 <= k < a.len() && 0 <= l < b.len() && pair_done(k, l, i as int, j as int) && (#[trigger] a@[k]).0
                            <= y < a@[k].1 && (#[trigger] b@[l]).0 <= y < b@[l].1;
                    if !pair_done(k, l, gi, gj) {
                        // the only newly handled pairs are (gi, l) or (k, gj); all but
                        // (gi, gj) are empty
                        if adv_a {
                            assert(k == gi);
                            if l > gj {
                                assert(b@[gj].1 < b@[l].0);
                            }
                            assert(l == gj);
                        } else {
                            assert(l == gj);
                            if k > gi {
                                assert(a@[gi].1 < a@[k].0);
                            }
                            assert(k == gi);
                        }
                        assert(cur);
                    }
                }
            }
            assert(a@[gi].0 < a@[gi].1 && b@[gj].0 < b@[gj].1);
            if adv_a && i < a.len() {
                assert(a@[i - 1].1 < a@[i as int].0);
            }
            if !adv_a && j < b.len() {
                assert(b@[j - 1].1 < b@[j as int].0);
            }
        }
    }
    proof {
        assert forall|y: int| in_spans(out@, y) <==> (in_spans(a@, y) && in_spans(b@, y)) by {
            if in_spans(a@, y) && in_spans(b@, y) {
                let k = choose|k: int| 0 <= k < a@.len() && (#[trigger] a@[k]).0 <= y < a@[k].1;
                let l = choose|l: int| 0 <= l < b@.len() && (#[trigger] b@[l]).0 <= y < b@[l].1;
                assert(pair_done(k, l, i as int, j as int));
            }
        }
    }
    out
}

/// No span among the first `m` of `s` contains `y`.
spec fn free_of(s: Seq<(i32, i32)>, m: int, y: int) -> bool {
    forall|q: int| 0 <= q < m ==> !((#[trigger] s[q]).0 <= y < s[q].1)
}

/// Difference `a \ b` of two canonical lists.
pub fn difference(a: &[(i32, i32)], b: &[(i32, i32)]) -> (r: Vec<(i32, i32)>)
    requires
        canon(a@),
        canon(b@),
    ensures
        canon(r@),
        forall|y: int| in_spans(r@, y) <==> (in_spans(a@, y) && !in_spans(b@, y)),
{
    let mut out: Vec<(i32, i32)> = Vec::new();
    let mut k: usize = 0;
    while k < a.len()
        invariant
            k <= a.len(),
            canon(a@),
            canon(b@),
            canon(out@),
            forall|y: int| in_spans(out@, y) <==> (in_spans(a@.take(k as int), y) && !in_spans(b@, y)),
            out@.len() > 0 ==> k > 0 && out@.last().1 <= a@[k - 1].1,
        decreases a.len() - k,
    {
        let (alo, hi) = a[k];
        let mut lo = alo;
        let ghost base = out@;
        proof {
            if base.len() > 0 {
                assert(a@[k - 1].1 < a@[k as int].0);
            }
        }
        let mut m: usize = 0;
        while m < b.len() && lo < hi
            invariant
                m <= b.len(),
                k < a.len(),
                canon(b@),
                canon(out@),
                a@[k as int] == (alo, hi),
                alo < hi,
                alo <= lo,
                base.len() <= out@.len(),
                out@.take(base.len() as int) == base,
                base.len() > 0 ==> base.last().1 < alo,
                out@.len() > base.len() ==> out@.last().1 < lo && out@.last().1 < hi,
                forall|y: int| in_spans(base, y) ==> !in_spans(b@, y),
                forall|y: int| #[trigger] in_spans(out@, y) <==> (in_spans(base, y) || (alo <= y < lo && y < hi && !in_spans(b@, y))),
                forall|y: int| lo <= y < hi ==> #[trigger] free_of(b@, m as int, y),
            decreases b.len() - m,
        {
            let (blo, bhi) = b[m];
            let ghost old_out = out@;
            let ghost old_lo = lo;
            assert(forall|y: int| #[trigger] in_spans(out@, y) <==> (in_spans(base, y) || (alo <= y < lo && y < hi && !in_spans(b@, y))));
            if bhi <= lo || blo >= hi {
                m += 1;
                proof {
                    assert forall|y: int| lo <= y < hi implies #[trigger] free_of(b@, m as int, y) by {
                        assert(free_of(b@, m - 1, y));
                    }
                }
            } else {
                if blo > lo {
                    out.push((lo, blo));
                    proof {
                        assert(out@.take(base.len() as int) =~= old_out.take(base.len() as int));
                        assert(canon(out@)) by {
                            assert forall|p: int, q: int| 0 <= p < q < out@.len() implies (#[trigger] out@[p]).1 < (#[trigger] out@[q]).0 by {
                                if q < old_out.len() {
                                    assert(old_out[p].1 < old_out[q].0);
                                } else if p < old_out.len() - 1 {
                                    assert(old_out[p].1 < old_out[old_out.len() - 1].0);
                                } else if old_out.len() > base.len() {
                                } else {
                                    assert(base[p] == old_out[p]);
                                    assert(old_out =~= base);
                                    if p < base.len() - 1 {
                                        assert(base[p].1 < base[base.len() - 1].0);
                                    }
                                }
                            }
                        }
                        assert forall|y: int| lo <= y < blo implies !in_spans(b@, y) by {
                            assert(free_of(b@, m as int, y));
                            if in_spans(b@, y) {
                                let q = choose|q: int| 0 <= q < b@.len() && (#[trigger] b@[q]).0 <= y < b@[q].1;
                                if q > m {
                                    assert(b@[m as int].1 < b@[q].0);
                                }
                            }
                        }
                        assert forall|y: int| in_spans(out@, y) <==> (in_spans(old_out, y) || (lo <= y < blo)) by {
                            lemma_in_push(old_out, (lo, blo), y);
                        }
                    }
                }
                lo = if lo >= bhi { lo } else { bhi };
                m += 1;
                proof {
                    assert forall|y: int| in_spans(out@, y) <==> (in_spans(base, y) || (alo <= y < lo && y < hi && !in_spans(b@, y))) by {
                        assert(in_spans(old_out, y) <==> (in_spans(base, y) || (alo <= y < old_lo && y < hi && !in_spans(b@, y))));
                        if blo > old_lo {
                            assert(in_spans(out@, y) <==> (in_spans(old_out, y) || (old_lo <= y < blo)));
                            if old_lo <= y < blo {
                                assert(!in_spans(b@, y));
                            }
                        } else {
                            assert(out@ == old_out);
                        }
                        if old_lo <= y < lo && y < hi && y >= blo {
                            assert(b@[m - 1] == (blo, bhi));
                            assert(b@[m - 1].0 <= y < b@[m - 1].1);
                            assert(in_spans(b@, y));
                        }
                    }
                    assert forall|y: int| lo <= y < hi implies #[trigger] free_of(b@, m as int, y) by {
                        assert(free_of(b@, m - 1, y));
                    }
                }
            }
        }
        let ghost pre_out = out@;
        if lo < hi {
            out.push((lo, hi));
            proof {
                assert forall|y: int| lo <= y < hi implies !in_spans(b@, y) by {
                    assert(free_of(b@, m as int, y));
                    if in_spans(b@, y) {
                        let q = choose|q: int| 0 <= q < b@.len() && (#[trigger] b@[q]).0 <= y < b@[q].1;
                    }
                }
                assert forall|y: int| in_spans(out@, y) <==> (in_spans(pre_out, y) || (lo <= y < hi)) by {
                    lemma_in_push(pre_out, (lo, hi), y);
                }
                assert(canon(out@)) by {
                    assert forall|p: int, q: int| 0 <= p < q < out@.len() implies (#[trigger] out@[p]).1 < (#[trigger] out@[q]).0 by {
                        if q < pre_out.len() {
                            assert(pre_out[p].1 < pre_out[q].0);
                        } else if p < pre_out.len() - 1 {
                            assert(pre_out[p].1 < pre_out[pre_out.len() - 1].0);
                        } else if pre_out.len() > base.len() {
                        } else {
                            assert(base[p] == pre_out[p]);
                            assert(pre_out =~= base);
                            if p < base.len() - 1 {
                                assert(base[p].1 < base[base.len() - 1].0);
                            }
                        }
                    }
                }
            }
        }
        proof {
            assert forall|y: int| #[trigger] in_spans(out@, y) <==> (in_spans(base, y) || (alo <= y < hi && !in_spans(b@, y))) by {
                assert(in_spans(pre_out, y) <==> (in_spans(base, y) || (alo <= y < lo && y < hi && !in_spans(b@, y))));
                if lo < hi {
                    assert(in_spans(out@, y) <==> (in_spans(pre_out, y) || (lo <= y < hi)));
                    if lo <= y < hi {
                        assert(!in_spans(b@, y));
                    }
                }
            }
        }
        k += 1;
        proof {
            assert forall|y: int| #[trigger] in_spans(out@, y) <==> (in_spans(a@.take(k as int), y) && !in_spans(b@, y)) by {
                lemma_in_take(a@, k - 1, y);
                assert(in_spans(base, y) <==> (in_spans(a@.take(k - 1), y) && !in_spans(b@, y)));
                assert(in_spans(out@, y) <==> (in_spans(base, y) || (alo <= y < hi && !in_spans(b@, y))));
            }
            if out@.len() > 0 {
                if out@.len() > base.len() {
                } else {
                    assert(out@ =~= base);
                    if k >= 2 {
                        assert(a@[k - 2].1 < a@[k - 1].0);
                    }
                }
            }
        }
    }
    proof {
        assert(a@.take(a.len() as int) =~= a@);
    }
    out
}

} // verus!
