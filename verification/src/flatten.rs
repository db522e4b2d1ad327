//! Hierarchy flattening: which elements a cell's SREF/AREF hierarchy expands to, and the
//! chain of reference placements that carries each one into the top cell's coordinates.
//!
//! The walk is exact and is verified here: references are followed depth first in
//! element order, an array expands column by column over its pitch, a reference back
//! into the current path (a cycle) and a reference to a missing cell expand to nothing,
//! and a path deeper than [`MAX_DEPTH`] fails. Composing the placements (reflection,
//! magnification, rotation by any angle, then translation) is floating-point work left
//! to the caller.

use vstd::prelude::*;
use crate::gds::{Cell, Element, Library};

verus! {

/// How deep a reference path may go before flattening fails.
pub const MAX_DEPTH: usize = 64;

/// One reference placement on the way down to an element: the origin, the reflection
/// about x, and the magnification and angle as 8-byte GDS reals.
#[derive(Clone, Copy, Debug, PartialEq, Eq, Structural)]
pub struct Place {
    pub x: i32,
    pub y: i32,
    pub reflect: bool,
    pub mag: u64,
    pub angle: u64,
}

/// One element of the flattened cell: the cell and element it comes from, and the
/// placements composed on the way down, outermost first.
pub struct Placed {
    pub cell: usize,
    pub elem: usize,
    pub chain: Vec<Place>,
}

/// A placed element as plain values.
pub struct PlacedV {
    pub cell: int,
    pub elem: int,
    pub chain: Seq<Place>,
}

impl View for Placed {
    type V = PlacedV;

    open spec fn view(&self) -> PlacedV {
        PlacedV { cell: self.cell as int, elem: self.elem as int, chain: self.chain@ }
    }
}

/// The placed elements of a list, as plain values.
pub open spec fn pviews(s: Seq<Placed>) -> Seq<PlacedV> {
    s.map_values(|p: Placed| p@)
}

/// Why flattening failed.
#[derive(Clone, Copy, Debug, PartialEq, Eq, Structural)]
pub enum FlattenError {
    /// No cell has the requested name.
    NotFound,
    /// A reference path went deeper than [`MAX_DEPTH`] (a cycle through a long chain).
    TooDeep,
}

/// The last cell before `i` with the given name, or -1 (a later cell of the same name
/// shadows an earlier one).
pub open spec fn last_named(cs: Seq<Cell>, name: Seq<char>, i: int) -> int
    decreases i,
{
    if i <= 0 || i > cs.len() {
        -1
    } else if cs[i - 1].name@ == name {
        i - 1
    } else {
        last_named(cs, name, i - 1)
    }
}

/// The names on a stack, as characters.
pub open spec fn names(stack: Seq<String>) -> Seq<Seq<char>> {
    stack.map_values(|s: String| s@)
}

/// Division rounding toward zero.
pub open spec fn trunc_div(a: int, b: int) -> int {
    if a >= 0 {
        a / b
    } else {
        -((-a) / b)
    }
}

/// An array dimension, at least one.
pub open spec fn at_least_one(n: i16) -> int {
    if n < 1 {
        1
    } else {
        n as int
    }
}

/// The number of instances an element expands over: columns times rows for an array.
pub open spec fn aref_total(e: Element) -> int {
    match e {
        Element::Aref { cols, rows, .. } => at_least_one(cols) * at_least_one(rows),
        _ => 0,
    }
}

/// The placement of instance `idx` of an array (column `idx / rows`, row `idx % rows`):
/// the origin stepped by the column and row pitches, in wrapping 32-bit arithmetic.
pub open spec fn aref_place(cols: int, rows: int, pts: Seq<(i32, i32)>, idx: int, reflect: bool, mag: u64, angle: u64) -> Place {
    let o = pts[0];
    let csx = trunc_div(((pts[1].0 - o.0) as i32) as int, cols);
    let csy = trunc_div(((pts[1].1 - o.1) as i32) as int, cols);
    let rsx = trunc_div(((pts[2].0 - o.0) as i32) as int, rows);
    let rsy = trunc_div(((pts[2].1 - o.1) as i32) as int, rows);
    let cc = idx / rows;
    let rr = idx % rows;
    Place { x: (o.0 + cc * csx + rr * rsx) as i32, y: (o.1 + cc * csy + rr * rsy) as i32, reflect, mag, angle }
}

/// A prefix in front of an expansion that may have failed.
pub open spec fn cat(a: Seq<PlacedV>, o: Option<Seq<PlacedV>>) -> Option<Seq<PlacedV>> {
    match o {
        Some(t) => Some(a + t),
        None => None,
    }
}

/// What the cell `name` expands to under the placements `chain`, with the names in
/// `stack` on the current path; `None` when the path grows too deep.
pub open spec fn expand_spec(cs: Seq<Cell>, name: Seq<char>, chain: Seq<Place>, stack: Seq<Seq<char>>) -> Option<Seq<PlacedV>>
    decreases 66 - stack.len(), 0int, 0int,
{
    if stack.len() > MAX_DEPTH {
        None
    } else if stack.contains(name) {
        Some(Seq::empty())
    } else {
        let ci = last_named(cs, name, cs.len() as int);
        if ci < 0 {
            Some(Seq::empty())
        } else {
            elems_spec(cs, ci, 0, chain, stack.push(name))
        }
    }
}

/// What the elements of cell `ci` from `k` on expand to.
pub open spec fn elems_spec(cs: Seq<Cell>, ci: int, k: int, chain: Seq<Place>, stack: Seq<Seq<char>>) -> Option<Seq<PlacedV>>
    decreases 66 - stack.len(), cs[ci].elements@.len() - k + 1, 0int,
{
    if ci < 0 || ci >= cs.len() || k < 0 || k >= cs[ci].elements@.len() {
        Some(Seq::empty())
    } else {
        let head = match cs[ci].elements@[k] {
            Element::Sref { sname, x, y, reflect, mag, angle } => expand_spec(
                cs,
                sname@,
                chain.push(Place { x, y, reflect, mag, angle }),
                stack,
            ),
            Element::Aref { pts, .. } => if pts@.len() >= 3 {
                aref_spec(cs, ci, k, 0, chain, stack)
            } else {
                Some(Seq::empty())
            },
            _ => Some(seq![PlacedV { cell: ci, elem: k, chain }]),
        };
        match head {
            Some(h) => cat(h, elems_spec(cs, ci, k + 1, chain, stack)),
            None => None,
        }
    }
}

/// What the instances of array element `k` of cell `ci` from `idx` on expand to.
pub open spec fn aref_spec(cs: Seq<Cell>, ci: int, k: int, idx: int, chain: Seq<Place>, stack: Seq<Seq<char>>) -> Option<Seq<PlacedV>>
    decreases 66 - stack.len(), cs[ci].elements@.len() - k, aref_total(cs[ci].elements@[k]) - idx + 1,
{
    if ci < 0 || ci >= cs.len() || k < 0 || k >= cs[ci].elements@.len() || idx < 0 || idx >= aref_total(cs[ci].elements@[k]) {
        Some(Seq::empty())
    } else {
        match cs[ci].elements@[k] {
            Element::Aref { sname, cols, rows, pts, reflect, mag, angle } => {
                let p = aref_place(at_least_one(cols), at_least_one(rows), pts@, idx, reflect, mag, angle);
                match expand_spec(cs, sname@, chain.push(p), stack) {
                    Some(h) => cat(h, aref_spec(cs, ci, k, idx + 1, chain, stack)),
                    None => None,
                }
            },
            _ => Some(Seq::empty()),
        }
    }
}

/// What flattening cell `top` gives: `NotFound` without such a cell, else its expansion.
pub open spec fn flatten_spec(cs: Seq<Cell>, top: Seq<char>) -> Result<Seq<PlacedV>, FlattenError> {
    if last_named(cs, top, cs.len() as int) < 0 {
        Err(FlattenError::NotFound)
    } else {
        match expand_spec(cs, top, Seq::empty(), Seq::empty()) {
            Some(p) => Ok(p),
            None => Err(FlattenError::TooDeep),
        }
    }
}

proof fn lemma_cat_assoc(a: Seq<PlacedV>, h: Seq<PlacedV>, o: Option<Seq<PlacedV>>)
    ensures
        cat(a, cat(h, o)) == cat(a + h, o),
{
    if let Some(t) = o {
        assert(a + (h + t) =~= (a + h) + t);
    }
}

proof fn lemma_last_named(cs: Seq<Cell>, name: Seq<char>, i: int)
    requires
        0 <= i <= cs.len(),
    ensures
        last_named(cs, name, i) == -1 || (0 <= last_named(cs, name, i) < i && cs[last_named(cs, name, i)].name@ == name),
    decreases i,
{
    if i > 0 {
        lemma_last_named(cs, name, i - 1);
    }
}

/// The last cell named `name`, scanning from the end.
fn find_last(cells: &Vec<Cell>, name: &String) -> (r: Option<usize>)
    ensures
        match r {
            Some(i) => last_named(cells@, name@, cells@.len() as int) == i as int && i < cells@.len(),
            None => last_named(cells@, name@, cells@.len() as int) == -1,
        },
{
    let mut i: usize = cells.len();
    while i > 0
        invariant
            i <= cells@.len(),
            last_named(cells@, name@, cells@.len() as int) == last_named(cells@, name@, i as int),
        decreases i,
    {
        if cells[i - 1].name == *name {
            return Some(i - 1);
        }
        i -= 1;
    }
    None
}

/// Whether `name` is on the stack.
fn on_stack(stack: &Vec<String>, name: &String) -> (b: bool)
    ensures
        b == names(stack@).contains(name@),
{
    let mut i: usize = 0;
    while i < stack.len()
        invariant
            i <= stack@.len(),
            forall|j: int| 0 <= j < i ==> #[trigger] names(stack@)[j] != name@,
        decreases stack@.len() - i,
    {
        if stack[i] == *name {
            assert(names(stack@)[i as int] == name@);
            return true;
        }
        i += 1;
    }
    false
}

/// A copy of a placement chain.
fn copy_chain(v: &Vec<Place>) -> (w: Vec<Place>)
    ensures
        w@ == v@,
{
    let mut w: Vec<Place> = Vec::new();
    let mut k: usize = 0;
    while k < v.len()
        invariant
            k <= v@.len(),
            w@ == v@.take(k as int),
        decreases v@.len() - k,
    {
        w.push(v[k]);
        k += 1;
        proof {
            assert(w@ =~= v@.take(k as int));
        }
    }
    proof {
        assert(v@.take(v@.len() as int) =~= v@);
    }
    w
}

/// Division of a 32-bit value by a positive one, rounding toward zero.
fn tdiv(a: i32, b: i32) -> (q: i32)
    requires
        b >= 1,
    ensures
        q == trunc_div(a as int, b as int),
{
    if a >= 0 {
        ((a as u32) / (b as u32)) as i32
    } else {
        let m: i64 = -(a as i64);
        let d: i64 = ((m as u64) / (b as u64)) as i64;
        proof {
            assert(d <= m);
        }
        (-d) as i32
    }
}

/// The placement of array instance (`cc`, `rr`).
pub(crate) fn aref_at(c: i32, r: i32, pts: &Vec<(i32, i32)>, cc: i32, rr: i32, reflect: bool, mag: u64, angle: u64) -> (p: Place)
    requires
        1 <= c <= 32767,
        1 <= r <= 32767,
        0 <= cc < c,
        0 <= rr < r,
        pts@.len() >= 3,
    ensures
        p == aref_place(c as int, r as int, pts@, cc * r + rr, reflect, mag, angle),
{
    let o = pts[0];
    let dcx: i32 = ((pts[1].0 as i64) - (o.0 as i64)) as i32;
    let dcy: i32 = ((pts[1].1 as i64) - (o.1 as i64)) as i32;
    let drx: i32 = ((pts[2].0 as i64) - (o.0 as i64)) as i32;
    let dry: i32 = ((pts[2].1 as i64) - (o.1 as i64)) as i32;
    let csx = tdiv(dcx, c);
    let csy = tdiv(dcy, c);
    let rsx = tdiv(drx, r);
    let rsy = tdiv(dry, r);
    proof {
        vstd::arithmetic::div_mod::lemma_fundamental_div_mod_converse(cc * r + rr, r as int, cc as int, rr as int);
        assert(-0x8000_0000 * 0x8000 <= cc * csx <= 0x8000_0000 * 0x8000) by (nonlinear_arith)
            requires
                0 <= cc < 0x8000,
                -0x8000_0000 <= csx < 0x8000_0000,
        ;
        assert(-0x8000_0000 * 0x8000 <= cc * csy <= 0x8000_0000 * 0x8000) by (nonlinear_arith)
            requires
                0 <= cc < 0x8000,
                -0x8000_0000 <= csy < 0x8000_0000,
        ;
        assert(-0x8000_0000 * 0x8000 <= rr * rsx <= 0x8000_0000 * 0x8000) by (nonlinear_arith)
            requires
                0 <= rr < 0x8000,
                -0x8000_0000 <= rsx < 0x8000_0000,
        ;
        assert(-0x8000_0000 * 0x8000 <= rr * rsy <= 0x8000_0000 * 0x8000) by (nonlinear_arith)
            requires
                0 <= rr < 0x8000,
                -0x8000_0000 <= rsy < 0x8000_0000,
        ;
    }
    let x: i32 = ((o.0 as i64) + (cc as i64) * (csx as i64) + (rr as i64) * (rsx as i64)) as i32;
    let y: i32 = ((o.1 as i64) + (cc as i64) * (csy as i64) + (rr as i64) * (rsy as i64)) as i32;
    Place { x, y, reflect, mag, angle }
}

/// Expand cell `name` under the placements `chain`, appending what it gives to `out`;
/// `stack` holds the names on the current path.
fn expand(cells: &Vec<Cell>, name: &String, chain: &mut Vec<Place>, out: &mut Vec<Placed>, stack: &mut Vec<String>) -> (r: Result<(), FlattenError>)
    requires
        old(stack)@.len() <= MAX_DEPTH + 1,
    ensures
        match expand_spec(cells@, name@, old(chain)@, names(old(stack)@)) {
            Some(p) => r is Ok && pviews(final(out)@) == pviews(old(out)@) + p && final(stack)@ == old(stack)@ && final(chain)@
                == old(chain)@,
            None => r == Err::<(), FlattenError>(FlattenError::TooDeep),
        },
    decreases 66 - old(stack)@.len(),
{
    if stack.len() > MAX_DEPTH {
        return Err(FlattenError::TooDeep);
    }
    if on_stack(stack, name) {
        return Ok(());
    }
    let ci = match find_last(cells, name) {
        Some(i) => i,
        None => {
            return Ok(());
        },
    };
    let ghost st0 = stack@;
    stack.push(name.clone());
    let ghost st1 = stack@;
    let ghost s1 = names(st1);
    let ghost ch = chain@;
    let ghost out0 = pviews(out@);
    let ghost mut done: Seq<PlacedV> = Seq::empty();
    proof {
        assert(s1 =~= names(st0).push(name@));
        assert(expand_spec(cells@, name@, ch, names(st0)) == elems_spec(cells@, ci as int, 0, ch, s1));
        assert(out0 + done =~= out0);
    }
    let n = cells[ci].elements.len();
    let mut k: usize = 0;
    while k < n
        invariant
            k <= n,
            ci < cells@.len(),
            n == cells@[ci as int].elements@.len(),
            stack@ == st1,
            st1.len() <= MAX_DEPTH + 1,
            st0 == old(stack)@,
            st1.len() == st0.len() + 1,
            ch == old(chain)@,
            expand_spec(cells@, name@, ch, names(st0)) == elems_spec(cells@, ci as int, 0, ch, s1),
            s1 == names(st1),
            chain@ == ch,
            pviews(out@) == out0 + done,
            elems_spec(cells@, ci as int, 0, ch, s1) == cat(done, elems_spec(cells@, ci as int, k as int, ch, s1)),
        decreases n - k,
    {
        let ghost head: Seq<PlacedV>;
        match &cells[ci].elements[k] {
            Element::Sref { sname, x, y, reflect, mag, angle } => {
                let p = Place { x: *x, y: *y, reflect: *reflect, mag: *mag, angle: *angle };
                chain.push(p);
                let res = expand(cells, sname, chain, out, stack);
                if let Err(e) = res {
                    proof {
                        assert(elems_spec(cells@, ci as int, k as int, ch, s1) is None);
                    }
                    return Err(e);
                }
                chain.pop();
                proof {
                    head = expand_spec(cells@, sname@, ch.push(p), s1)->0;
                    assert(chain@ =~= ch);
                    assert(pviews(out@) =~= out0 + (done + head));
                }
            },
            Element::Aref { sname, cols, rows, pts, reflect, mag, angle } => {
                if pts.len() >= 3 {
                    let c: i32 = if *cols < 1 { 1 } else { *cols as i32 };
                    let r: i32 = if *rows < 1 { 1 } else { *rows as i32 };
                    let ghost e = cells@[ci as int].elements@[k as int];
                    let ghost mut done_a: Seq<PlacedV> = Seq::empty();
                    let ghost outk = pviews(out@);
                    proof {
                        assert(aref_total(e) == c * r);
                        assert(outk + done_a =~= outk);
                    }
                    let mut cc: i32 = 0;
                    while cc < c
                        invariant
                            1 <= c <= 32767,
                            1 <= r <= 32767,
                            0 <= cc <= c,
                            ci < cells@.len(),
                            k < n,
                            n == cells@[ci as int].elements@.len(),
                            e == cells@[ci as int].elements@[k as int],
                            e == (Element::Aref { sname: *sname, cols: *cols, rows: *rows, pts: *pts, reflect: *reflect, mag: *mag, angle: *angle }),
                            c == at_least_one(*cols),
                            r == at_least_one(*rows),
                            aref_total(e) == c * r,
                            pts@.len() >= 3,
                            stack@ == st1,
                            st1.len() <= MAX_DEPTH + 1,
                            st0 == old(stack)@,
                            st1.len() == st0.len() + 1,
                            ch == old(chain)@,
                            expand_spec(cells@, name@, ch, names(st0)) == elems_spec(cells@, ci as int, 0, ch, s1),
                            elems_spec(cells@, ci as int, 0, ch, s1) == cat(done, elems_spec(cells@, ci as int, k as int, ch, s1)),
                            s1 == names(st1),
                            chain@ == ch,
                            pviews(out@) == outk + done_a,
                            aref_spec(cells@, ci as int, k as int, 0, ch, s1) == cat(done_a, aref_spec(cells@, ci as int, k as int, cc * r, ch, s1)),
                        decreases c - cc,
                    {
                        let mut rr: i32 = 0;
                        while rr < r
                            invariant
                                1 <= c <= 32767,
                                1 <= r <= 32767,
                                0 <= cc < c,
                                0 <= rr <= r,
                                ci < cells@.len(),
                                k < n,
                                n == cells@[ci as int].elements@.len(),
                                e == cells@[ci as int].elements@[k as int],
                                e == (Element::Aref { sname: *sname, cols: *cols, rows: *rows, pts: *pts, reflect: *reflect, mag: *mag, angle: *angle }),
                                c == at_least_one(*cols),
                                r == at_least_one(*rows),
                                aref_total(e) == c * r,
                                pts@.len() >= 3,
                                stack@ == st1,
                                st1.len() <= MAX_DEPTH + 1,
                                st0 == old(stack)@,
                                st1.len() == st0.len() + 1,
                                ch == old(chain)@,
                                expand_spec(cells@, name@, ch, names(st0)) == elems_spec(cells@, ci as int, 0, ch, s1),
                                elems_spec(cells@, ci as int, 0, ch, s1) == cat(done, elems_spec(cells@, ci as int, k as int, ch, s1)),
                                s1 == names(st1),
                                chain@ == ch,
                                pviews(out@) == outk + done_a,
                                aref_spec(cells@, ci as int, k as int, 0, ch, s1) == cat(done_a, aref_spec(cells@, ci as int, k as int, cc * r + rr, ch, s1)),
                            decreases r - rr,
                        {
                            let p = aref_at(c, r, pts, cc, rr, *reflect, *mag, *angle);
                            let ghost idx = cc * r + rr;
                            proof {
                                assert(0 <= idx < c * r) by (nonlinear_arith)
                                    requires
                                        0 <= cc < c,
                                        0 <= rr < r,
                                        idx == cc * r + rr,
                                ;
                            }
                            chain.push(p);
                            let res = expand(cells, sname, chain, out, stack);
                            if let Err(er) = res {
                                proof {
                                    assert(aref_spec(cells@, ci as int, k as int, idx, ch, s1) is None);
                                    assert(aref_spec(cells@, ci as int, k as int, 0, ch, s1) is None);
                                    assert(elems_spec(cells@, ci as int, k as int, ch, s1) is None);
                                }
                                return Err(er);
                            }
                            chain.pop();
                            proof {
                                let h = expand_spec(cells@, sname@, ch.push(p), s1)->0;
                                assert(aref_spec(cells@, ci as int, k as int, idx, ch, s1) == cat(h, aref_spec(cells@, ci as int, k as int, idx + 1, ch, s1)));
                                lemma_cat_assoc(done_a, h, aref_spec(cells@, ci as int, k as int, idx + 1, ch, s1));
                                assert(pviews(out@) =~= outk + (done_a + h));
                                done_a = done_a + h;
                                assert(chain@ =~= ch);
                                assert(cc * r + (rr + 1) == idx + 1);
                            }
                            rr += 1;
                        }
                        proof {
                            assert(cc * r + r == (cc + 1) * r) by (nonlinear_arith);
                        }
                        cc += 1;
                    }
                    proof {
                        assert(aref_spec(cells@, ci as int, k as int, c * r, ch, s1) == Some(Seq::<PlacedV>::empty()));
                        assert(done_a + Seq::<PlacedV>::empty() =~= done_a);
                        head = done_a;
                        assert(pviews(out@) =~= out0 + (done + head));
                    }
                } else {
                    proof {
                        head = Seq::empty();
                        assert(pviews(out@) =~= out0 + (done + head));
                    }
                }
            },
            _ => {
                let c = copy_chain(chain);
                let pl = Placed { cell: ci, elem: k, chain: c };
                let ghost ob = out@;
                out.push(pl);
                proof {
                    head = seq![PlacedV { cell: ci as int, elem: k as int, chain: ch }];
                    assert(pviews(out@) =~= pviews(ob).push(pl@));
                    assert(pl@ == PlacedV { cell: ci as int, elem: k as int, chain: ch });
                    assert(pviews(out@) =~= out0 + (done + head));
                }
            },
        }
        proof {
            assert(elems_spec(cells@, ci as int, k as int, ch, s1) == cat(head, elems_spec(cells@, ci as int, k + 1, ch, s1)));
            lemma_cat_assoc(done, head, elems_spec(cells@, ci as int, k + 1, ch, s1));
            assert(pviews(out@) =~= out0 + (done + head));
            done = done + head;
        }
        k += 1;
    }
    stack.pop();
    proof {
        assert(stack@ =~= st0);
        assert(done + Seq::<PlacedV>::empty() =~= done);
    }
    Ok(())
}

/// Plan the flattening of cell `top`: every element its hierarchy expands to, in order,
/// with the placements that carry it into `top`.
pub fn flatten_plan(lib: &Library, top: &str) -> (r: Result<Vec<Placed>, FlattenError>)
    ensures
        match flatten_spec(lib.cells@, top@) {
            Ok(p) => r matches Ok(v) && pviews(v@) == p,
            Err(e) => r matches Err(e2) && e2 == e,
        },
{
    let name = String::from_str(top);
    if find_last(&lib.cells, &name).is_none() {
        return Err(FlattenError::NotFound);
    }
    let mut chain: Vec<Place> = Vec::new();
    let mut out: Vec<Placed> = Vec::new();
    let mut stack: Vec<String> = Vec::new();
    proof {
        assert(names(stack@) =~= Seq::<Seq<char>>::empty());
        assert(pviews(out@) =~= Seq::<PlacedV>::empty());
    }
    match expand(&lib.cells, &name, &mut chain, &mut out, &mut stack) {
        Ok(()) => {
            proof {
                let p = expand_spec(lib.cells@, top@, Seq::empty(), Seq::empty())->0;
                assert(pviews(out@) =~= Seq::<PlacedV>::empty() + p);
            }
            Ok(out)
        },
        Err(e) => Err(e),
    }
}

/// The element list of a cell holds no references.
pub open spec fn no_refs(es: Seq<Element>) -> bool {
    forall|k: int| 0 <= k < es.len() ==> !(#[trigger] es[k] is Sref) && !(es[k] is Aref)
}

proof fn lemma_leaf_elems(cs: Seq<Cell>, ci: int, k: int, chain: Seq<Place>, stack: Seq<Seq<char>>)
    requires
        0 <= ci < cs.len(),
        0 <= k <= cs[ci].elements@.len(),
        no_refs(cs[ci].elements@),
    ensures
        elems_spec(cs, ci, k, chain, stack) == Some(
            Seq::new((cs[ci].elements@.len() - k) as nat, |j: int| PlacedV { cell: ci, elem: k + j, chain }),
        ),
    decreases cs[ci].elements@.len() - k,
{
    let n = cs[ci].elements@.len();
    if k < n {
        lemma_leaf_elems(cs, ci, k + 1, chain, stack);
        let e = cs[ci].elements@[k];
        assert(!(e is Sref) && !(e is Aref));
        let rest = Seq::new((n - k - 1) as nat, |j: int| PlacedV { cell: ci, elem: k + 1 + j, chain });
        assert(seq![PlacedV { cell: ci, elem: k, chain }] + rest =~= Seq::new(
            (n - k) as nat,
            |j: int| PlacedV { cell: ci, elem: k + j, chain },
        ));
    } else {
        assert(Seq::<PlacedV>::empty() =~= Seq::new(0, |j: int| PlacedV { cell: ci, elem: k + j, chain }));
    }
}

/// Flattening a cell whose elements hold no references gives exactly its own elements,
/// in order, each with no placements.
pub proof fn lemma_flat_leaf(cs: Seq<Cell>, top: Seq<char>)
    requires
        last_named(cs, top, cs.len() as int) >= 0,
        no_refs(cs[last_named(cs, top, cs.len() as int)].elements@),
    ensures
        ({
            let ci = last_named(cs, top, cs.len() as int);
            flatten_spec(cs, top) == Ok::<Seq<PlacedV>, FlattenError>(
                Seq::new(cs[ci].elements@.len(), |j: int| PlacedV { cell: ci, elem: j, chain: Seq::empty() }),
            )
        }),
{
    let ci = last_named(cs, top, cs.len() as int);
    lemma_last_named(cs, top, cs.len() as int);
    let stack = Seq::<Seq<char>>::empty().push(top);
    lemma_leaf_elems(cs, ci, 0, Seq::empty(), stack);
    assert(!Seq::<Seq<char>>::empty().contains(top));
    assert(Seq::new((cs[ci].elements@.len() - 0) as nat, |j: int| PlacedV { cell: ci, elem: 0 + j, chain: Seq::<Place>::empty() })
        =~= Seq::new(cs[ci].elements@.len(), |j: int| PlacedV { cell: ci, elem: j, chain: Seq::<Place>::empty() }));
}


/// Expanding a reference to a cell without references places each of that cell's
/// elements once, in order, under the placements so far followed by the reference's own
/// placement: its `x`, `y`, `reflect`, `mag` and `angle`.
pub proof fn lemma_sref_places(cs: Seq<Cell>, ci: int, k: int, chain: Seq<Place>, stack: Seq<Seq<char>>)
    requires
        0 <= ci < cs.len(),
        0 <= k < cs[ci].elements@.len(),
        cs[ci].elements@[k] is Sref,
        stack.len() <= MAX_DEPTH,
        !stack.contains(cs[ci].elements@[k]->Sref_sname@),
        last_named(cs, cs[ci].elements@[k]->Sref_sname@, cs.len() as int) >= 0,
        no_refs(cs[last_named(cs, cs[ci].elements@[k]->Sref_sname@, cs.len() as int)].elements@),
    ensures
        ({
            let e = cs[ci].elements@[k];
            let leaf = last_named(cs, e->Sref_sname@, cs.len() as int);
            let place = Place { x: e->Sref_x, y: e->Sref_y, reflect: e->Sref_reflect, mag: e->Sref_mag, angle: e->Sref_angle };
            elems_spec(cs, ci, k, chain, stack) == cat(
                Seq::new(cs[leaf].elements@.len(), |j: int| PlacedV { cell: leaf, elem: j, chain: chain.push(place) }),
                elems_spec(cs, ci, k + 1, chain, stack),
            )
        }),
{
    let e = cs[ci].elements@[k];
    let name = e->Sref_sname@;
    let leaf = last_named(cs, name, cs.len() as int);
    let place = Place { x: e->Sref_x, y: e->Sref_y, reflect: e->Sref_reflect, mag: e->Sref_mag, angle: e->Sref_angle };
    lemma_last_named(cs, name, cs.len() as int);
    lemma_leaf_elems(cs, leaf, 0, chain.push(place), stack.push(name));
    assert(Seq::new((cs[leaf].elements@.len() - 0) as nat, |j: int| PlacedV { cell: leaf, elem: 0 + j, chain: chain.push(place) })
        =~= Seq::new(cs[leaf].elements@.len(), |j: int| PlacedV { cell: leaf, elem: j, chain: chain.push(place) }));
    assert(expand_spec(cs, name, chain.push(place), stack) == elems_spec(cs, leaf, 0, chain.push(place), stack.push(name)));
}


/// Expanding any reference descends into the cell it names under the placements so far
/// followed by the reference's own placement (its `x`, `y`, `reflect`, `mag` and
/// `angle`), then goes on with the elements after it.
pub proof fn lemma_sref_chain(cs: Seq<Cell>, ci: int, k: int, chain: Seq<Place>, stack: Seq<Seq<char>>)
    requires
        0 <= ci < cs.len(),
        0 <= k < cs[ci].elements@.len(),
        cs[ci].elements@[k] is Sref,
    ensures
        ({
            let e = cs[ci].elements@[k];
            let place = Place { x: e->Sref_x, y: e->Sref_y, reflect: e->Sref_reflect, mag: e->Sref_mag, angle: e->Sref_angle };
            elems_spec(cs, ci, k, chain, stack) == match expand_spec(cs, e->Sref_sname@, chain.push(place), stack) {
                Some(h) => cat(h, elems_spec(cs, ci, k + 1, chain, stack)),
                None => None,
            }
        }),
{
}


/// Expanding instance `idx` of an array reference descends into the cell it names under
/// the placements so far followed by that instance's placement, which carries the
/// reference's own `reflect`, `mag` and `angle`; the first instance sits at the array's
/// origin.
pub proof fn lemma_aref_chain(cs: Seq<Cell>, ci: int, k: int, idx: int, chain: Seq<Place>, stack: Seq<Seq<char>>)
    requires
        0 <= ci < cs.len(),
        0 <= k < cs[ci].elements@.len(),
        cs[ci].elements@[k] is Aref,
        cs[ci].elements@[k]->Aref_pts@.len() >= 3,
        0 <= idx < aref_total(cs[ci].elements@[k]),
    ensures
        ({
            let e = cs[ci].elements@[k];
            let pts = e->Aref_pts@;
            let p = aref_place(at_least_one(e->Aref_cols), at_least_one(e->Aref_rows), pts, idx, e->Aref_reflect, e->Aref_mag, e->Aref_angle);
            &&& p.reflect == e->Aref_reflect
            &&& p.mag == e->Aref_mag
            &&& p.angle == e->Aref_angle
            &&& idx == 0 ==> p.x == pts[0].0 && p.y == pts[0].1
            &&& aref_spec(cs, ci, k, idx, chain, stack) == match expand_spec(cs, e->Aref_sname@, chain.push(p), stack) {
                Some(h) => cat(h, aref_spec(cs, ci, k, idx + 1, chain, stack)),
                None => None,
            }
        }),
{
    let e = cs[ci].elements@[k];
    let rows = at_least_one(e->Aref_rows);
    assert(rows >= 1);
    if idx == 0 {
        assert(0int / rows == 0) by (nonlinear_arith)
            requires
                rows >= 1,
        ;
        assert(0int % rows == 0) by (nonlinear_arith)
            requires
                rows >= 1,
        ;
    }
}

} // verus!
