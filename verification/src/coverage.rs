//! Signed y-coverage of one region, maintained incrementally across an x-sweep.
//!
//! The coverage is a list of `(y, delta)` boundaries sorted by `y`: a vertical edge
//! crossed by the sweep adds `+sign` at its `ylo` and `-sign` at its `yhi`. The region
//! covers the `y` where the running sum of deltas (over boundaries at or below `y`) is
//! positive. Boundaries whose delta nets to zero are pruned, so the list holds only the
//! active ones and reading off the covered intervals walks only those.

use vstd::prelude::*;
use crate::spans::{canon, in_spans, lemma_in_push};

verus! {

/// Magnitude cap on the summed deltas, far above any edge count that fits in memory.
pub const DELTA_BOUND: i128 = 0x10_0000_0000_0000_0000_0000_0000;

/// Sum of the deltas at boundaries `<= y`.
pub open spec fn psum(s: Seq<(i32, i128)>, y: int) -> int
    decreases s.len(),
{
    if s.len() == 0 {
        0
    } else {
        psum(s.drop_last(), y) + if s.last().0 <= y { s.last().1 as int } else { 0int }
    }
}

/// Sum of the magnitudes of all deltas.
pub open spec fn abs_total(s: Seq<(i32, i128)>) -> int
    decreases s.len(),
{
    if s.len() == 0 {
        0
    } else {
        abs_total(s.drop_last()) + if s.last().1 >= 0 { s.last().1 as int } else { -s.last().1 }
    }
}

/// Sum of every delta.
pub open spec fn total(s: Seq<(i32, i128)>) -> int {
    psum(s, i32::MAX as int)
}

/// Boundaries strictly increasing in `y`, no zero delta.
pub open spec fn delta_wf(s: Seq<(i32, i128)>) -> bool {
    &&& forall|i: int, j: int| 0 <= i < j < s.len() ==> (#[trigger] s[i]).0 < (#[trigger] s[j]).0
    &&& forall|i: int| 0 <= i < s.len() ==> (#[trigger] s[i]).1 != 0
}

proof fn lemma_psum_concat(a: Seq<(i32, i128)>, b: Seq<(i32, i128)>, y: int)
    ensures
        psum(a + b, y) == psum(a, y) + psum(b, y),
    decreases b.len(),
{
    if b.len() == 0 {
        assert(a + b =~= a);
    } else {
        lemma_psum_concat(a, b.drop_last(), y);
        assert((a + b).drop_last() =~= a + b.drop_last());
    }
}

proof fn lemma_abs_concat(a: Seq<(i32, i128)>, b: Seq<(i32, i128)>)
    ensures
        abs_total(a + b) == abs_total(a) + abs_total(b),
    decreases b.len(),
{
    if b.len() == 0 {
        assert(a + b =~= a);
    } else {
        lemma_abs_concat(a, b.drop_last());
        assert((a + b).drop_last() =~= a + b.drop_last());
    }
}

proof fn lemma_psum_single(e: (i32, i128), y: int)
    ensures
        psum(seq![e], y) == if e.0 <= y { e.1 as int } else { 0int },
        abs_total(seq![e]) == if e.1 >= 0 { e.1 as int } else { -e.1 },
{
    assert(seq![e].drop_last() =~= Seq::<(i32, i128)>::empty());
    assert(psum(Seq::<(i32, i128)>::empty(), y) == 0);
    assert(abs_total(Seq::<(i32, i128)>::empty()) == 0);
    assert(seq![e].last() == e);
}

pub proof fn lemma_abs_nonneg(s: Seq<(i32, i128)>)
    ensures
        abs_total(s) >= 0,
    decreases s.len(),
{
    if s.len() > 0 {
        lemma_abs_nonneg(s.drop_last());
    }
}

/// Every partial sum is bounded by the total magnitude.
pub proof fn lemma_psum_bounded(s: Seq<(i32, i128)>, y: int)
    ensures
        -abs_total(s) <= psum(s, y) <= abs_total(s),
    decreases s.len(),
{
    if s.len() > 0 {
        lemma_psum_bounded(s.drop_last(), y);
    }
}

/// Boundaries all above `y` contribute nothing at `y`.
proof fn lemma_psum_above(s: Seq<(i32, i128)>, y: int)
    requires
        forall|i: int| 0 <= i < s.len() ==> (#[trigger] s[i]).0 > y,
    ensures
        psum(s, y) == 0,
    decreases s.len(),
{
    if s.len() > 0 {
        lemma_psum_above(s.drop_last(), y);
    }
}

/// Boundaries all at or below `y` contribute their full sum.
proof fn lemma_psum_below(s: Seq<(i32, i128)>, y: int)
    requires
        forall|i: int| 0 <= i < s.len() ==> (#[trigger] s[i]).0 <= y,
    ensures
        psum(s, y) == total(s),
    decreases s.len(),
{
    if s.len() > 0 {
        lemma_psum_below(s.drop_last(), y);
    }
}

/// Between the `k`-th boundary and the next, the running sum is that of the first `k`.
pub proof fn lemma_psum_between(s: Seq<(i32, i128)>, k: int, y: int)
    requires
        delta_wf(s),
        0 <= k <= s.len(),
        k > 0 ==> s[k - 1].0 <= y,
        k < s.len() ==> y < s[k].0,
    ensures
        psum(s, y) == total(s.take(k)),
{
    assert(s =~= s.take(k) + s.skip(k));
    lemma_psum_concat(s.take(k), s.skip(k), y);
    assert forall|i: int| 0 <= i < s.skip(k).len() implies (#[trigger] s.skip(k)[i]).0 > y by {
        if i > 0 {
            assert(s[k].0 < s[k + i].0);
        }
    }
    lemma_psum_above(s.skip(k), y);
    assert forall|i: int| 0 <= i < s.take(k).len() implies (#[trigger] s.take(k)[i]).0 <= y by {
        if i < k - 1 {
            assert(s[i].0 < s[k - 1].0);
        }
    }
    lemma_psum_below(s.take(k), y);
}

pub proof fn lemma_take_total(s: Seq<(i32, i128)>, k: int)
    requires
        0 <= k < s.len(),
    ensures
        total(s.take(k + 1)) == total(s.take(k)) + s[k].1,
        abs_total(s.take(k + 1)) <= abs_total(s),
{
    assert(s.take(k + 1).drop_last() =~= s.take(k));
    assert(s =~= s.take(k + 1) + s.skip(k + 1));
    lemma_abs_concat(s.take(k + 1), s.skip(k + 1));
    lemma_abs_nonneg(s.skip(k + 1));
}

/// The signed coverage of one region: sorted `(y, delta)` boundaries.
pub struct Coverage {
    pub delta: Vec<(i32, i128)>,
}

impl Coverage {
    /// No boundaries: nothing covered.
    pub fn new() -> (c: Coverage)
        ensures
            c.delta@.len() == 0,
    {
        Coverage { delta: Vec::new() }
    }

    /// Add `d` to the delta at `y`, inserting or pruning the boundary as needed.
    #[verifier::spinoff_prover]
    #[verifier::rlimit(60)]
    pub fn bump(&mut self, y: i32, d: i128)
        requires
            delta_wf(old(self).delta@),
            d != 0,
            -DELTA_BOUND <= d <= DELTA_BOUND,
            abs_total(old(self).delta@) <= DELTA_BOUND,
        ensures
            delta_wf(final(self).delta@),
            forall|z: int| #[trigger] psum(final(self).delta@, z) == psum(old(self).delta@, z) + if y <= z { d as int } else { 0int },
            abs_total(final(self).delta@) <= abs_total(old(self).delta@) + if d >= 0 { d as int } else { -d },
    {
        let ghost s = self.delta@;
        let n = self.delta.len();
        let mut p: usize = 0;
        while p < n && self.delta[p].0 < y
            invariant
                p <= n,
                n == self.delta@.len(),
                self.delta@ == s,
                forall|i: int| 0 <= i < p ==> (#[trigger] s[i]).0 < y,
            decreases n - p,
        {
            p += 1;
        }
        proof {
            assert(s =~= s.take(p as int) + s.skip(p as int));
            lemma_abs_nonneg(s.take(p as int));
            lemma_abs_nonneg(s.skip(p as int));
        }
        if p < n && self.delta[p].0 == y {
            let old_d = self.delta[p].1;
            proof {
                assert(s.skip(p as int) =~= seq![s[p as int]] + s.skip(p + 1));
                lemma_abs_concat(s.take(p as int), s.skip(p as int));
                lemma_abs_concat(seq![s[p as int]], s.skip(p + 1));
                lemma_psum_single(s[p as int], 0);
                lemma_abs_nonneg(s.skip(p + 1));
            }
            let nd = old_d + d;
            if nd == 0 {
                self.delta.remove(p);
                proof {
                    assert(self.delta@ =~= s.take(p as int) + s.skip(p + 1));
                    assert forall|z: int| #[trigger] psum(self.delta@, z) == psum(s, z) + if y <= z { d as int } else { 0int } by {
                        lemma_psum_concat(s.take(p as int), s.skip(p + 1), z);
                        lemma_psum_concat(s.take(p as int), s.skip(p as int), z);
                        lemma_psum_concat(seq![s[p as int]], s.skip(p + 1), z);
                        lemma_psum_single(s[p as int], z);
                    }
                    lemma_abs_concat(s.take(p as int), s.skip(p + 1));
                    assert forall|i: int, j: int| 0 <= i < j < self.delta@.len() implies (#[trigger] self.delta@[i]).0 < (#[trigger] self.delta@[j]).0 by {
                        let (ii, jj) = (if i < p { i } else { i + 1 }, if j < p { j } else { j + 1 });
                        assert(self.delta@[i] == s[ii] && self.delta@[j] == s[jj]);
                    }
                    assert forall|i: int| 0 <= i < self.delta@.len() implies (#[trigger] self.delta@[i]).1 != 0 by {
                        let ii = if i < p { i } else { i + 1 };
                        assert(self.delta@[i] == s[ii]);
                    }
                }
            } else {
                self.delta.set(p, (y, nd));
                proof {
                    let e = (y, nd);
                    assert(self.delta@ =~= s.take(p as int) + seq![e] + s.skip(p + 1));
                    assert forall|z: int| #[trigger] psum(self.delta@, z) == psum(s, z) + if y <= z { d as int } else { 0int } by {
                        lemma_psum_concat(s.take(p as int) + seq![e], s.skip(p + 1), z);
                        lemma_psum_concat(s.take(p as int), seq![e], z);
                        lemma_psum_concat(s.take(p as int), s.skip(p as int), z);
                        lemma_psum_concat(seq![s[p as int]], s.skip(p + 1), z);
                        lemma_psum_single(s[p as int], z);
                        lemma_psum_single(e, z);
                    }
                    lemma_abs_concat(s.take(p as int) + seq![e], s.skip(p + 1));
                    lemma_abs_concat(s.take(p as int), seq![e]);
                    lemma_psum_single(e, 0);
                }
            }
        } else {
            self.delta.insert(p, (y, d));
            proof {
                let e = (y, d);
                assert(self.delta@ =~= s.take(p as int) + seq![e] + s.skip(p as int));
                assert forall|z: int| #[trigger] psum(self.delta@, z) == psum(s, z) + if y <= z { d as int } else { 0int } by {
                    lemma_psum_concat(s.take(p as int) + seq![e], s.skip(p as int), z);
                    lemma_psum_concat(s.take(p as int), seq![e], z);
                    lemma_psum_concat(s.take(p as int), s.skip(p as int), z);
                    lemma_psum_single(e, z);
                }
                lemma_abs_concat(s.take(p as int) + seq![e], s.skip(p as int));
                lemma_abs_concat(s.take(p as int), seq![e]);
                lemma_abs_concat(s.take(p as int), s.skip(p as int));
                lemma_psum_single(e, 0);
                assert forall|i: int, j: int| 0 <= i < j < self.delta@.len() implies (#[trigger] self.delta@[i]).0 < (#[trigger] self.delta@[j]).0 by {
                    if i < p && j > p {
                        assert(s[i].0 < y);
                        assert(self.delta@[j] == s[j - 1]);
                    } else if i == p && j > p {
                        assert(self.delta@[j] == s[j - 1]);
                        assert(s[j - 1].0 >= y);
                        assert(s[j - 1].0 != y || p < n);
                    } else if i > p {
                        assert(self.delta@[i] == s[i - 1] && self.delta@[j] == s[j - 1]);
                    }
                }
                assert forall|i: int| 0 <= i < self.delta@.len() implies (#[trigger] self.delta@[i]).1 != 0 by {
                    if i < p {
                    } else if i > p {
                        assert(self.delta@[i] == s[i - 1]);
                    }
                }
            }
        }
    }

    /// Fold one vertical edge into the coverage: `sign` over `[ylo, yhi)`.
    pub fn apply(&mut self, ylo: i32, yhi: i32, sign: i32)
        requires
            delta_wf(old(self).delta@),
            sign == 1 || sign == -1,
            abs_total(old(self).delta@) <= DELTA_BOUND - 2,
        ensures
            delta_wf(final(self).delta@),
            forall|z: int| #[trigger] psum(final(self).delta@, z) == psum(old(self).delta@, z) + if ylo <= z < yhi { sign as int } else if yhi <= z < ylo { -sign } else { 0int },
            abs_total(final(self).delta@) <= abs_total(old(self).delta@) + 2,
    {
        let ghost s0 = self.delta@;
        self.bump(ylo, sign as i128);
        let ghost s1 = self.delta@;
        self.bump(yhi, -(sign as i128));
        proof {
            assert forall|z: int| #[trigger] psum(self.delta@, z) == psum(s0, z) + if ylo <= z < yhi { sign as int } else if yhi <= z < ylo { -sign } else { 0int } by {
                assert(psum(s1, z) == psum(s0, z) + if ylo <= z { sign as int } else { 0int });
            }
        }
    }

    /// Maximal y-intervals where the accumulated count is positive.
    pub fn intervals(&self) -> (out: Vec<(i32, i32)>)
        requires
            delta_wf(self.delta@),
            total(self.delta@) == 0,
            abs_total(self.delta@) <= DELTA_BOUND,
        ensures
            canon(out@),
            forall|y: int| #[trigger] in_spans(out@, y) <==> psum(self.delta@, y) > 0,
    {
        let ghost s = self.delta@;
        let n = self.delta.len();
        let mut out: Vec<(i32, i32)> = Vec::new();
        let mut count: i128 = 0;
        let mut start: i32 = 0;
        let mut k: usize = 0;
        while k < n
            invariant
                k <= n,
                n == s.len(),
                s == self.delta@,
                delta_wf(s),
                total(s) == 0,
                abs_total(s) <= DELTA_BOUND,
                count == total(s.take(k as int)),
                canon(out@),
                k == 0 ==> out@.len() == 0 && count == 0,
                k > 0 ==> forall|y: int| y < s[k - 1].0 ==> (psum(s, y) > 0 <==> (#[trigger] in_spans(out@, y) || (count > 0 && start <= y))),
                k > 0 ==> forall|y: int| #[trigger] in_spans(out@, y) ==> y < s[k - 1].0,
                k > 0 && count > 0 ==> start <= s[k - 1].0 && (out@.len() > 0 ==> out@.last().1 < start),
                k > 0 && count <= 0 ==> (out@.len() > 0 ==> out@.last().1 <= s[k - 1].0),
            decreases n - k,
        {
            let (y, d) = self.delta[k];
            let prev = count;
            proof {
                lemma_take_total(s, k as int);
                lemma_psum_bounded(s.take(k + 1), i32::MAX as int);
            }
            count = count + d;
            let ghost old_out = out@;
            let ghost old_start = start;
            if prev <= 0 && count > 0 {
                start = y;
            } else if prev > 0 && count <= 0 && y > start {
                out.push((start, y));
            }
            proof {
                // every y in [s[k-1].0, s[k].0) sees the running sum of the first k boundaries
                assert forall|z: int| (k == 0 || s[k - 1].0 <= z) && z < y implies psum(s, z) == prev by {
                    lemma_psum_between(s, k as int, z);
                }
                if k > 0 {
                    assert(s[k - 1].0 < s[k as int].0);
                }
                if out@.len() > old_out.len() {
                    assert forall|z: int| #[trigger] in_spans(out@, z) <==> (in_spans(old_out, z) || (old_start <= z < y)) by {
                        lemma_in_push(old_out, (old_start, y), z);
                    }
                    assert(canon(out@)) by {
                        assert forall|p: int, q: int| 0 <= p < q < out@.len() implies (#[trigger] out@[p]).1 < (#[trigger] out@[q]).0 by {
                            if q < old_out.len() {
                                assert(old_out[p].1 < old_out[q].0);
                            } else if p < old_out.len() - 1 {
                                assert(old_out[p].1 < old_out[old_out.len() - 1].0);
                            }
                        }
                    }
                }
            }
            k += 1;
            proof {
                assert forall|z: int| z < s[k - 1].0 implies (psum(s, z) > 0 <==> (#[trigger] in_spans(out@, z) || (count > 0 && start <= z))) by {
                    if out@.len() > old_out.len() {
                        assert(in_spans(out@, z) <==> (in_spans(old_out, z) || (old_start <= z < y)));
                    } else {
                        assert(out@ == old_out);
                    }
                    if k >= 2 && z < s[k - 2].0 {
                        assert(psum(s, z) > 0 <==> (in_spans(old_out, z) || (prev > 0 && old_start <= z)));
                    } else {
                        if k >= 2 {
                            assert(in_spans(old_out, z) ==> z < s[k - 2].0);
                        }
                        assert(psum(s, z) == prev);
                        if out@.len() > old_out.len() {
                            assert(in_spans(out@, z) <==> (in_spans(old_out, z) || (old_start <= z < y)));
                        }
                    }
                }
                assert forall|z: int| #[trigger] in_spans(out@, z) implies z < s[k - 1].0 by {
                    if out@.len() > old_out.len() {
                        assert(in_spans(out@, z) <==> (in_spans(old_out, z) || (old_start <= z < y)));
                    }
                    if k >= 2 && in_spans(old_out, z) {
                        assert(s[k - 2].0 < s[k - 1].0);
                    }
                }
            }
        }
        proof {
            assert(s.take(n as int) =~= s);
            assert forall|y: int| #[trigger] in_spans(out@, y) <==> psum(s, y) > 0 by {
                if n > 0 && y >= s[n - 1].0 {
                    lemma_psum_between(s, n as int, y);
                }
                if n == 0 {
                    lemma_psum_above(s, y);
                }
            }
        }
        out
    }
}

} // verus!
