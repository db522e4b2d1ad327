//! OASIS writer: a library as an OASIS file. Every cell is named in an implicit
//! CELLNAME table, then written as a CELL by reference number with absolute
//! coordinates: boundaries and boxes as RECTANGLE or POLYGON records, paths as one
//! RECTANGLE per stroked segment, references as PLACEMENT records (an array expanded into
//! one per instance), and texts left out. A placement's form (a quarter-turn code, or an
//! explicit magnification and angle as IEEE doubles) and the file's unit are decided on
//! floating-point values by the caller and handed in.

use vstd::prelude::*;
use vstd::utf8::encode_utf8;
use crate::geom::{Rect, is_rect_ring};
use crate::gds::{Cell, Element, Library};
use crate::oasis::{
    wu, ws, wstr, write_end, write_rectangle, write_shape, stroke_path, stroke_rect, stroke_fits, enc_u, zig, end_record,
    rectangle_record, polygon_record, distinct_spec,
};
use crate::oasis_read::{
    magic, ref_name, place_read, bit, ShapeV, Rotation, Modal, lemma_u_at, lemma_s_at, StateV, OCellV, run_v, step_v, lemma_run_step,
    CBLOCK_NESTING,
};
use crate::gds::utf8_text;
use crate::geom::{boundary_of, rect_wf};
use crate::oasis::{read_u, read_str, u_list};
use crate::oasis_read::{place_name, geo_read, geo_step, push_stamped, stamped, poly_read, table_step, cell_step, finish_v, start_v, parse_spec, resolved, LayoutV};
use crate::oasis::{read_real_spec, le_bytes, Real};
use crate::flatten::{aref_at, aref_place};
use crate::engine::lemma_rect_ring_unique;

verus! {

/// How a placement is written: PLACEMENT with a quarter-turn count, or PLACEMENT with an
/// explicit magnification and angle (the bits of IEEE doubles).
#[derive(Clone, Copy, Debug)]
pub enum PlacementForm {
    Quarter { turns: u8 },
    Explicit { mag_bits: u64, angle_bits: u64 },
}

/// Byte `j` (little-endian) of `bits`.
pub open spec fn le_byte(bits: u64, j: int) -> u8 {
    ((bits >> ((8 * j) as u64)) & 0xffu64) as u8
}

/// A real of type 7: the IEEE double with bits `bits`, little-endian.
pub open spec fn double_bytes(bits: u64) -> Seq<u8> {
    seq![7u8] + Seq::new(8, |j: int| le_byte(bits, j))
}

/// Append a real of type 7 given its bits.
fn push_double(o: &mut Vec<u8>, bits: u64)
    ensures
        final(o)@ == old(o)@ + double_bytes(bits),
{
    let ghost o0 = o@;
    o.push(7u8);
    let mut k: u64 = 0;
    while k < 8
        invariant
            k <= 8,
            o@ == o0 + seq![7u8] + Seq::new(k as nat, |j: int| le_byte(bits, j)),
        decreases 8 - k,
    {
        o.push(((bits >> (8 * k)) & 0xff) as u8);
        proof {
            assert(o@ =~= o0 + seq![7u8] + Seq::new((k + 1) as nat, |j: int| le_byte(bits, j)));
        }
        k += 1;
    }
    proof {
        assert(o@ =~= o0 + double_bytes(bits));
    }
}

/// A PLACEMENT record of cell reference number `rn` at `(x, y)`: info byte `CNXYRAAF`
/// (quarter turns) or `CNXYRMAF` with the magnification and angle, F the reflection.
pub open spec fn placement_bytes(rn: nat, x: i32, y: i32, reflect: bool, form: PlacementForm) -> Seq<u8> {
    let flip: int = if reflect { 1 } else { 0 };
    match form {
        PlacementForm::Quarter { turns } => enc_u(17) + seq![(0xF0 + (turns % 4) * 2 + flip) as u8] + enc_u(rn) + enc_u(zig(x as i64))
            + enc_u(zig(y as i64)),
        PlacementForm::Explicit { mag_bits, angle_bits } => enc_u(18) + seq![(0xF6 + flip) as u8] + enc_u(rn) + double_bytes(mag_bits)
            + double_bytes(angle_bits) + enc_u(zig(x as i64)) + enc_u(zig(y as i64)),
    }
}

/// Append a PLACEMENT record.
fn write_placement(o: &mut Vec<u8>, rn: u64, x: i32, y: i32, reflect: bool, form: PlacementForm)
    ensures
        final(o)@ == old(o)@ + placement_bytes(rn as nat, x, y, reflect, form),
{
    let ghost o0 = o@;
    let flip: u8 = if reflect { 1 } else { 0 };
    match form {
        PlacementForm::Quarter { turns } => {
            wu(o, 17);
            o.push(0xF0u8 + (turns % 4) * 2 + flip);
            wu(o, rn);
            ws(o, x as i64);
            ws(o, y as i64);
        },
        PlacementForm::Explicit { mag_bits, angle_bits } => {
            wu(o, 18);
            o.push(0xF6u8 + flip);
            wu(o, rn);
            push_double(o, mag_bits);
            push_double(o, angle_bits);
            ws(o, x as i64);
            ws(o, y as i64);
        },
    }
    proof {
        assert(o@ =~= o0 + placement_bytes(rn as nat, x, y, reflect, form));
    }
}

/// A boundary's record: RECTANGLE when it is an axis-aligned rectangle ring, else
/// POLYGON of its distinct vertices (nothing with fewer than three).
pub open spec fn shape_bytes(layer: i16, datatype: i16, pts: Seq<(i32, i32)>) -> Seq<u8> {
    if exists|r: Rect| is_rect_ring(pts, r) {
        rectangle_record(layer, datatype, choose|r: Rect| is_rect_ring(pts, r))
    } else if distinct_spec(pts).len() < 3 {
        Seq::empty()
    } else {
        polygon_record(layer, datatype, distinct_spec(pts))
    }
}

/// The RECTANGLE records of the first `n` stroked segments of a path of half-width `h`.
pub open spec fn strokes(layer: i16, datatype: i16, pts: Seq<(i32, i32)>, h: int, n: int) -> Seq<u8>
    decreases n,
{
    if n <= 0 {
        Seq::empty()
    } else {
        strokes(layer, datatype, pts, h, n - 1) + rectangle_record(layer, datatype, stroke_rect(pts[n - 1], pts[n], h))
    }
}

/// A path's records: one RECTANGLE per stroked segment, none for a non-positive width.
pub open spec fn path_bytes(layer: i16, datatype: i16, width: i32, pts: Seq<(i32, i32)>) -> Seq<u8> {
    if width <= 0 || pts.len() < 2 {
        Seq::empty()
    } else {
        strokes(layer, datatype, pts, (width / 2) as int, pts.len() - 1)
    }
}

/// The index of the first of the first `n` cells named `name`, or `-1`.
pub open spec fn first_named(cs: Seq<Cell>, name: Seq<char>, n: int) -> int
    decreases n,
{
    if n <= 0 {
        -1
    } else if first_named(cs, name, n - 1) >= 0 {
        first_named(cs, name, n - 1)
    } else if cs[n - 1].name@ == name {
        n - 1
    } else {
        -1
    }
}

/// The placements of the first `n` instances of an array, row by row (instance
/// `(c, r)` at index `r * cols + c`).
pub open spec fn aref_records(rn: nat, cols: int, rows: int, pts: Seq<(i32, i32)>, reflect: bool, form: PlacementForm, n: int) -> Seq<u8>
    decreases n,
{
    if n <= 0 {
        Seq::empty()
    } else {
        let (c, r) = ((n - 1) % cols, (n - 1) / cols);
        let p = aref_place(cols, rows, pts, c * rows + r, reflect, 0, 0);
        aref_records(rn, cols, rows, pts, reflect, form, n - 1) + placement_bytes(rn, p.x, p.y, reflect, form)
    }
}

/// One element's records among the cells `cs`, a reference written in form `form`.
pub open spec fn elem_records(e: Element, cs: Seq<Cell>, form: PlacementForm) -> Seq<u8> {
    match e {
        Element::Boundary { layer, datatype, pts } => shape_bytes(layer, datatype, pts@),
        Element::Box { layer, boxtype, pts } => shape_bytes(layer, boxtype, pts@),
        Element::Path { layer, datatype, width, pts } => path_bytes(layer, datatype, width, pts@),
        Element::Sref { sname, x, y, reflect, .. } => {
            let f = first_named(cs, sname@, cs.len() as int);
            if f >= 0 {
                placement_bytes(f as nat, x, y, reflect, form)
            } else {
                Seq::empty()
            }
        },
        Element::Aref { sname, cols, rows, pts, reflect, .. } => {
            let f = first_named(cs, sname@, cs.len() as int);
            if f >= 0 && pts@.len() >= 3 && cols > 0 && rows > 0 {
                aref_records(f as nat, cols as int, rows as int, pts@, reflect, form, cols * rows)
            } else {
                Seq::empty()
            }
        },
        Element::Text { .. } => Seq::empty(),
    }
}

/// Whether an element is a reference (and so takes a placement form).
pub open spec fn is_ref(e: Element) -> bool {
    e is Sref || e is Aref
}

/// The number of references among the first `n` elements.
pub open spec fn refs_in(es: Seq<Element>, n: int) -> nat
    decreases n,
{
    if n <= 0 {
        0
    } else {
        refs_in(es, n - 1) + if is_ref(es[n - 1]) { 1nat } else { 0nat }
    }
}

/// The number of references in the first `n` cells.
pub open spec fn refs_before(cs: Seq<Cell>, n: int) -> nat
    decreases n,
{
    if n <= 0 {
        0
    } else {
        refs_before(cs, n - 1) + refs_in(cs[n - 1].elements@, cs[n - 1].elements@.len() as int)
    }
}

/// The records of the first `n` elements, the `k`-th reference taking form `forms[k]`.
pub open spec fn elems_records(es: Seq<Element>, n: int, cs: Seq<Cell>, forms: Seq<PlacementForm>) -> Seq<u8>
    decreases n,
{
    if n <= 0 {
        Seq::empty()
    } else {
        elems_records(es, n - 1, cs, forms) + elem_records(es[n - 1], cs, forms[refs_in(es, n - 1) as int])
    }
}

/// The CELL records of the first `n` cells (by reference number, absolute coordinates).
pub open spec fn cells_records(cs: Seq<Cell>, n: int, forms: Seq<PlacementForm>) -> Seq<u8>
    decreases n,
{
    if n <= 0 {
        Seq::empty()
    } else {
        let c = cs[n - 1];
        cells_records(cs, n - 1, forms) + enc_u(13) + enc_u((n - 1) as nat) + enc_u(15) + elems_records(
            c.elements@,
            c.elements@.len() as int,
            cs,
            forms.skip(refs_before(cs, n - 1) as int),
        )
    }
}

/// The implicit CELLNAME records of the first `n` cells.
pub open spec fn names_records(cs: Seq<Cell>, n: int) -> Seq<u8>
    decreases n,
{
    if n <= 0 {
        Seq::empty()
    } else {
        names_records(cs, n - 1) + enc_u(3) + enc_u(encode_utf8(cs[n - 1].name@).len()) + encode_utf8(cs[n - 1].name@)
    }
}

/// The START record after the magic: version "1.0", the unit (a double), and a zero
/// offset flag with twelve zero table offsets.
pub open spec fn start_record(unit_bits: u64) -> Seq<u8> {
    enc_u(1) + seq![3u8, 0x31u8, 0x2eu8, 0x30u8] + double_bytes(unit_bits) + Seq::new(13, |j: int| 0u8)
}

/// The whole OASIS file of a library.
pub open spec fn oasis_file(lib: Library, unit_bits: u64, forms: Seq<PlacementForm>) -> Seq<u8> {
    let cs = lib.cells@;
    magic() + start_record(unit_bits) + names_records(cs, cs.len() as int) + cells_records(cs, cs.len() as int, forms)
        + end_record()
}

/// Every path of positive width can be stroked within the 32-bit range.
pub open spec fn strokable(lib: Library) -> bool {
    forall|c: int, k: int|
        0 <= c < lib.cells@.len() && 0 <= k < lib.cells@[c].elements@.len() ==> match #[trigger] lib.cells@[c].elements@[k] {
            Element::Path { width, pts, .. } => width > 0 ==> stroke_fits(pts@, (width / 2) as int),
            _ => true,
        }
}

/// The first cell named `name`.
fn find_first(cells: &Vec<Cell>, name: &String) -> (r: Option<usize>)
    ensures
        match r {
            Some(i) => first_named(cells@, name@, cells@.len() as int) == i as int && i < cells@.len(),
            None => first_named(cells@, name@, cells@.len() as int) == -1,
        },
{
    let mut i: usize = 0;
    while i < cells.len()
        invariant
            i <= cells@.len(),
            first_named(cells@, name@, i as int) == -1,
        decreases cells@.len() - i,
    {
        if cells[i].name == *name {
            proof {
                lemma_first_named_stays(cells@, name@, i as int + 1, cells@.len() as int);
            }
            return Some(i);
        }
        i += 1;
    }
    None
}

/// Once a cell named `name` is among the first `n`, the first one stays the first.
proof fn lemma_first_named_stays(cs: Seq<Cell>, name: Seq<char>, n: int, m: int)
    requires
        0 <= n <= m,
        first_named(cs, name, n) >= 0,
    ensures
        first_named(cs, name, m) == first_named(cs, name, n),
    decreases m - n,
{
    if n < m {
        lemma_first_named_stays(cs, name, n, m - 1);
    }
}

/// Append a boundary's record (see [`shape_bytes`]).
fn write_shape_exact(o: &mut Vec<u8>, layer: i16, datatype: i16, pts: &Vec<(i32, i32)>)
    ensures
        final(o)@ == old(o)@ + shape_bytes(layer, datatype, pts@),
{
    write_shape(o, layer, datatype, pts.as_slice());
    proof {
        if exists|r: Rect| is_rect_ring(pts@, r) {
            let r = choose|r: Rect| #[trigger] is_rect_ring(pts@, r) && final(o)@ == old(o)@ + rectangle_record(layer, datatype, r);
            lemma_rect_ring_unique(pts@, r, choose|q: Rect| is_rect_ring(pts@, q));
        }
    }
}

/// Append a path's records (see [`path_bytes`]).
fn write_path(o: &mut Vec<u8>, layer: i16, datatype: i16, width: i32, pts: &Vec<(i32, i32)>)
    requires
        width > 0 ==> stroke_fits(pts@, (width / 2) as int),
    ensures
        final(o)@ == old(o)@ + path_bytes(layer, datatype, width, pts@),
{
    let ghost o0 = o@;
    let rs = stroke_path(width, pts.as_slice());
    if width <= 0 || pts.len() < 2 {
        proof {
            assert(o@ =~= o0 + path_bytes(layer, datatype, width, pts@));
        }
        return;
    }
    let mut k: usize = 0;
    while k < rs.len()
        invariant
            k <= rs@.len(),
            width > 0,
            pts@.len() >= 2,
            rs@.len() == pts@.len() - 1,
            forall|j: int| 0 <= j < rs@.len() ==> #[trigger] rs@[j] == stroke_rect(pts@[j], pts@[j + 1], (width / 2) as int),
            o@ == o0 + strokes(layer, datatype, pts@, (width / 2) as int, k as int),
        decreases rs@.len() - k,
    {
        write_rectangle(o, layer, datatype, &rs[k]);
        proof {
            assert(rs@[k as int] == stroke_rect(pts@[k as int], pts@[k + 1], (width / 2) as int));
            assert(o@ =~= o0 + strokes(layer, datatype, pts@, (width / 2) as int, k + 1));
        }
        k += 1;
    }
}

/// Append an array's placements, row by row.
#[verifier::spinoff_prover]
fn write_aref(o: &mut Vec<u8>, rn: u64, cols: i16, rows: i16, pts: &Vec<(i32, i32)>, reflect: bool, mag: u64, angle: u64, form: PlacementForm)
    requires
        cols > 0,
        rows > 0,
        pts@.len() >= 3,
    ensures
        final(o)@ == old(o)@ + aref_records(rn as nat, cols as int, rows as int, pts@, reflect, form, cols * rows),
{
    let ghost o0 = o@;
    let (nc, nr) = (cols as i32, rows as i32);
    let mut r: i32 = 0;
    while r < nr
        invariant
            0 <= r <= nr,
            nc == cols,
            nr == rows,
            cols > 0,
            rows > 0,
            pts@.len() >= 3,
            o@ == o0 + aref_records(rn as nat, cols as int, rows as int, pts@, reflect, form, r * cols),
        decreases nr - r,
    {
        let mut c: i32 = 0;
        while c < nc
            invariant
                0 <= c <= nc,
                0 <= r < nr,
                nc == cols,
                nr == rows,
                cols > 0,
                rows > 0,
                pts@.len() >= 3,
                o@ == o0 + aref_records(rn as nat, cols as int, rows as int, pts@, reflect, form, r * cols + c),
            decreases nc - c,
        {
            let p = aref_at(nc, nr, pts, c, r, reflect, mag, angle);
            let ghost before = o@;
            write_placement(o, rn, p.x, p.y, reflect, form);
            proof {
                let n = r * cols + c + 1;
                vstd::arithmetic::div_mod::lemma_fundamental_div_mod_converse(n - 1, cols as int, r as int, c as int);
                assert((n - 1) % (cols as int) == c && (n - 1) / (cols as int) == r);
                assert(o@ =~= o0 + aref_records(rn as nat, cols as int, rows as int, pts@, reflect, form, n));
            }
            c += 1;
        }
        proof {
            assert(r * cols + cols == (r + 1) * cols) by (nonlinear_arith);
        }
        r += 1;
    }
    proof {
        assert(r * cols == cols * rows) by (nonlinear_arith)
            requires
                r == rows,
        ;
    }
}

/// Append one element's records (see [`elem_records`]).
fn write_elem(o: &mut Vec<u8>, el: &Element, cells: &Vec<Cell>, form: PlacementForm)
    requires
        match *el {
            Element::Path { width, pts, .. } => width > 0 ==> stroke_fits(pts@, (width / 2) as int),
            _ => true,
        },
    ensures
        final(o)@ == old(o)@ + elem_records(*el, cells@, form),
{
    let ghost o0 = o@;
    match el {
        Element::Boundary { layer, datatype, pts } => write_shape_exact(o, *layer, *datatype, pts),
        Element::Box { layer, boxtype, pts } => write_shape_exact(o, *layer, *boxtype, pts),
        Element::Path { layer, datatype, width, pts } => write_path(o, *layer, *datatype, *width, pts),
        Element::Sref { sname, x, y, reflect, .. } => {
            match find_first(cells, sname) {
                Some(rn) => write_placement(o, rn as u64, *x, *y, *reflect, form),
                None => {
                    proof {
                        assert(o@ =~= o0 + Seq::<u8>::empty());
                    }
                },
            }
        },
        Element::Aref { sname, cols, rows, pts, reflect, mag, angle } => {
            match find_first(cells, sname) {
                Some(rn) => {
                    if pts.len() >= 3 && *cols > 0 && *rows > 0 {
                        write_aref(o, rn as u64, *cols, *rows, pts, *reflect, *mag, *angle, form);
                    } else {
                        proof {
                            assert(o@ =~= o0 + Seq::<u8>::empty());
                        }
                    }
                },
                None => {
                    proof {
                        assert(o@ =~= o0 + Seq::<u8>::empty());
                    }
                },
            }
        },
        Element::Text { .. } => {
            proof {
                assert(o@ =~= o0 + Seq::<u8>::empty());
            }
        },
    }
}

/// A library as an OASIS file (see [`oasis_file`]): `unit_bits` are the bits of the unit
/// (database units per micron) as an IEEE double, and `forms` the form of each reference
/// in file order, cell by cell.
pub fn oasis_bytes(lib: &Library, unit_bits: u64, forms: &[PlacementForm]) -> (o: Vec<u8>)
    requires
        forms@.len() == refs_before(lib.cells@, lib.cells@.len() as int),
        strokable(*lib),
    ensures
        o@ == oasis_file(*lib, unit_bits, forms@),
        oasis_writable(*lib) ==> parse_spec(o@) == Some(LayoutV { units: seq![Real::Double(unit_bits)], cells: oasis_cells(*lib, forms@) }),
{
    let cells = &lib.cells;
    let mut o: Vec<u8> = Vec::new();
    let m: [u8; 13] = [37, 83, 69, 77, 73, 45, 79, 65, 83, 73, 83, 13, 10];
    let mut k: usize = 0;
    while k < 13
        invariant
            k <= 13,
            m@ == magic(),
            o@ == magic().take(k as int),
        decreases 13 - k,
    {
        o.push(m[k]);
        proof {
            assert(o@ =~= magic().take(k + 1));
        }
        k += 1;
    }
    proof {
        assert(magic().take(13) =~= magic());
    }
    // START: version, unit, offset flag 0 and twelve zero table offsets
    let ghost s0 = o@;
    wu(&mut o, 1);
    o.push(3u8);
    o.push(0x31u8);
    o.push(0x2eu8);
    o.push(0x30u8);
    push_double(&mut o, unit_bits);
    let ghost s1 = o@;
    let mut z: usize = 0;
    while z < 13
        invariant
            z <= 13,
            o@ == s1 + Seq::new(z as nat, |j: int| 0u8),
        decreases 13 - z,
    {
        o.push(0u8);
        proof {
            assert(o@ =~= s1 + Seq::new((z + 1) as nat, |j: int| 0u8));
        }
        z += 1;
    }
    proof {
        assert(o@ =~= magic() + start_record(unit_bits));
    }
    // every cell named first: implicit CELLNAME gives reference numbers 0, 1, 2, ...
    let ghost h = o@;
    let mut i: usize = 0;
    while i < cells.len()
        invariant
            i <= cells@.len(),
            cells == &lib.cells,
            o@ == h + names_records(cells@, i as int),
        decreases cells@.len() - i,
    {
        wu(&mut o, 3);
        wstr(&mut o, cells[i].name.as_str());
        proof {
            assert(o@ =~= h + names_records(cells@, i + 1));
        }
        i += 1;
    }
    let ghost g = o@;
    let mut ci: usize = 0;
    let mut fi: usize = 0;
    while ci < cells.len()
        invariant
            ci <= cells@.len(),
            cells == &lib.cells,
            forms@.len() == refs_before(cells@, cells@.len() as int),
            strokable(*lib),
            fi == refs_before(cells@, ci as int),
            o@ == g + cells_records(cells@, ci as int, forms@),
        decreases cells@.len() - ci,
    {
        let ghost before = o@;
        wu(&mut o, 13);
        wu(&mut o, ci as u64);
        wu(&mut o, 15);
        let ghost e0 = o@;
        let els = &cells[ci].elements;
        let ghost fs = forms@.skip(fi as int);
        proof {
            lemma_refs_before_grows(cells@, ci as int + 1, cells@.len() as int);
        }
        let mut ei: usize = 0;
        while ei < els.len()
            invariant
                ei <= els@.len(),
                cells == &lib.cells,
                ci < cells@.len(),
                els == &cells@[ci as int].elements,
                strokable(*lib),
                fi == refs_before(cells@, ci as int) + refs_in(els@, ei as int),
                forms@.len() >= refs_before(cells@, ci as int) + refs_in(els@, els@.len() as int),
                fs == forms@.skip(refs_before(cells@, ci as int) as int),
                o@ == e0 + elems_records(els@, ei as int, cells@, fs),
            decreases els@.len() - ei,
        {
            let el = &els[ei];
            proof {
                assert(lib.cells@[ci as int].elements@[ei as int] == *el);
                lemma_refs_in_grows(els@, ei as int + 1, els@.len() as int);
            }
            let form = if is_reference(el) { forms[fi] } else { PlacementForm::Quarter { turns: 0 } };
            let ghost fk = fs[refs_in(els@, ei as int) as int];
            proof {
                if is_ref(*el) {
                    assert(form == fk);
                }
            }
            write_elem(&mut o, el, cells, form);
            proof {
                assert(elem_records(*el, cells@, form) == elem_records(*el, cells@, fk));
                assert(o@ =~= e0 + elems_records(els@, ei + 1, cells@, fs));
            }
            if is_reference(el) {
                fi += 1;
            }
            ei += 1;
        }
        proof {
            assert(o@ =~= g + cells_records(cells@, ci + 1, forms@));
        }
        ci += 1;
    }
    write_end(&mut o);
    proof {
        if oasis_writable(*lib) {
            lemma_oasis_round_trip(*lib, unit_bits, forms@);
        }
    }
    o
}

/// Whether an element is a reference.
fn is_reference(el: &Element) -> (b: bool)
    ensures
        b == is_ref(*el),
{
    match el {
        Element::Sref { .. } | Element::Aref { .. } => true,
        _ => false,
    }
}

/// Counting references over more elements counts no fewer.
proof fn lemma_refs_in_grows(es: Seq<Element>, n: int, m: int)
    requires
        n <= m,
    ensures
        refs_in(es, n) <= refs_in(es, m),
    decreases m - n,
{
    if n < m {
        lemma_refs_in_grows(es, n, m - 1);
    }
}

/// Counting references over more cells counts no fewer.
proof fn lemma_refs_before_grows(cs: Seq<Cell>, n: int, m: int)
    requires
        n <= m,
    ensures
        refs_before(cs, n) <= refs_before(cs, m),
    decreases m - n,
{
    if n < m {
        lemma_refs_before_grows(cs, n, m - 1);
    }
}

/// The eight bytes of `bits`, low first, weighted by powers of 256, give `bits`.
proof fn lemma_le8(bits: u64)
    ensures
        bits == (bits & 0xff) + 256 * (((bits >> 8u64) & 0xff) + 256 * (((bits >> 16u64) & 0xff) + 256 * (((bits >> 24u64) & 0xff)
            + 256 * (((bits >> 32u64) & 0xff) + 256 * (((bits >> 40u64) & 0xff) + 256 * (((bits >> 48u64) & 0xff) + 256 * ((bits
            >> 56u64) & 0xff))))))),
{
    assert(bits == (bits & 0xff) + 256 * (((bits >> 8u64) & 0xff) + 256 * (((bits >> 16u64) & 0xff) + 256 * (((bits >> 24u64) & 0xff)
        + 256 * (((bits >> 32u64) & 0xff) + 256 * (((bits >> 40u64) & 0xff) + 256 * (((bits >> 48u64) & 0xff) + 256 * ((bits
        >> 56u64) & 0xff)))))))) by (bit_vector);
}

/// A real written by [`push_double`] reads back as the double with those bits.
#[verifier::spinoff_prover]
pub proof fn lemma_double_read(b: Seq<u8>, p: int, bits: u64)
    requires
        0 <= p,
        p + 9 <= b.len(),
        b.subrange(p, p + 9) == double_bytes(bits),
    ensures
        read_real_spec(b, p) == Some((Real::Double(bits), p + 9)),
{
    assert(enc_u(7) =~= seq![7u8]);
    assert(b.subrange(p, p + 1) =~= enc_u(7));
    lemma_u_at(b, p, 7);
    let q = p + 1;
    assert(b[q] == b.subrange(p, p + 9)[1] && double_bytes(bits)[1] == le_byte(bits, 0));
    assert(b[q + 1] == b.subrange(p, p + 9)[2] && double_bytes(bits)[2] == le_byte(bits, 1));
    assert(b[q + 2] == b.subrange(p, p + 9)[3] && double_bytes(bits)[3] == le_byte(bits, 2));
    assert(b[q + 3] == b.subrange(p, p + 9)[4] && double_bytes(bits)[4] == le_byte(bits, 3));
    assert(b[q + 4] == b.subrange(p, p + 9)[5] && double_bytes(bits)[5] == le_byte(bits, 4));
    assert(b[q + 5] == b.subrange(p, p + 9)[6] && double_bytes(bits)[6] == le_byte(bits, 5));
    assert(b[q + 6] == b.subrange(p, p + 9)[7] && double_bytes(bits)[7] == le_byte(bits, 6));
    assert(b[q + 7] == b.subrange(p, p + 9)[8] && double_bytes(bits)[8] == le_byte(bits, 7));
    assert(b[q] == le_byte(bits, 0) && b[q + 1] == le_byte(bits, 1) && b[q + 2] == le_byte(bits, 2) && b[q + 3] == le_byte(bits, 3));
    assert(b[q + 4] == le_byte(bits, 4) && b[q + 5] == le_byte(bits, 5) && b[q + 6] == le_byte(bits, 6) && b[q + 7] == le_byte(bits, 7));
    assert(((bits >> 0u64) & 0xff) as u8 as u64 == bits & 0xff) by (bit_vector);
    assert(((bits >> 8u64) & 0xff) as u8 as u64 == (bits >> 8u64) & 0xff) by (bit_vector);
    assert(((bits >> 16u64) & 0xff) as u8 as u64 == (bits >> 16u64) & 0xff) by (bit_vector);
    assert(((bits >> 24u64) & 0xff) as u8 as u64 == (bits >> 24u64) & 0xff) by (bit_vector);
    assert(((bits >> 32u64) & 0xff) as u8 as u64 == (bits >> 32u64) & 0xff) by (bit_vector);
    assert(((bits >> 40u64) & 0xff) as u8 as u64 == (bits >> 40u64) & 0xff) by (bit_vector);
    assert(((bits >> 48u64) & 0xff) as u8 as u64 == (bits >> 48u64) & 0xff) by (bit_vector);
    assert(((bits >> 56u64) & 0xff) as u8 as u64 == (bits >> 56u64) & 0xff) by (bit_vector);
    lemma_le8(bits);
    reveal_with_fuel(le_bytes, 9);
    assert(le_bytes(b, q, 8) == bits);
}

/// The placement a PLACEMENT record writes, as the reader gives it: the cell named by
/// reference number `rn` from `names`, the position, the reflection, and the form's
/// magnification and rotation.
pub open spec fn placement_shape(names: Seq<Seq<char>>, rn: u64, x: i32, y: i32, reflect: bool, form: PlacementForm) -> ShapeV {
    match form {
        PlacementForm::Quarter { turns } => ShapeV::Placement {
            sname: ref_name(names, rn),
            x,
            y,
            reflect,
            mag: None,
            rotation: Rotation::Quarter(turns % 4),
        },
        PlacementForm::Explicit { mag_bits, angle_bits } => ShapeV::Placement {
            sname: ref_name(names, rn),
            x,
            y,
            reflect,
            mag: Some(Real::Double(mag_bits)),
            rotation: Rotation::Degrees(Real::Double(angle_bits)),
        },
    }
}

/// The record id a placement form is written with.
pub open spec fn placement_id(form: PlacementForm) -> u64 {
    match form {
        PlacementForm::Quarter { .. } => 17,
        PlacementForm::Explicit { .. } => 18,
    }
}

/// The placement round trip for a quarter-turn form.
#[verifier::spinoff_prover]
#[verifier::rlimit(100)]
proof fn lemma_placement_quarter(
    rn: u64,
    x: i32,
    y: i32,
    reflect: bool,
    form: PlacementForm,
    pre: Seq<u8>,
    rest: Seq<u8>,
    m: Modal,
    rep: Seq<(i32, i32)>,
    text: Seq<char>,
    names: Seq<Seq<char>>,
)
    requires
        form is Quarter,
    ensures
        ({
            let rec = placement_bytes(rn as nat, x, y, reflect, form);
            let b = pre + rec + rest;
            let k = (pre.len() + enc_u(placement_id(form) as nat).len()) as int;
            let g = place_read(b, k, placement_id(form), m, rep, text, names);
            &&& g is Some
            &&& g->0.shape == Some(placement_shape(names, rn, x, y, reflect, form))
            &&& g->0.reps.len() == 0
            &&& g->0.end == pre.len() + rec.len()
        }),
{
    let rec = placement_bytes(rn as nat, x, y, reflect, form);
    let b = pre + rec + rest;
    let id = placement_id(form);
    let flip: u8 = if reflect { 1 } else { 0 };
    let e_id = enc_u(id as nat);
    let e_rn = enc_u(rn as nat);
    let e_x = enc_u(zig(x as i64));
    let e_y = enc_u(zig(y as i64));
    let k = (pre.len() + e_id.len()) as int;
    let info = b[k];
    let turns = form->turns;
    let t = turns % 4;
    assert(rec =~= e_id + seq![(0xF0 + t * 2 + flip) as u8] + e_rn + e_x + e_y);
    assert(info == (0xF0 + t * 2 + flip) as u8);
    assert(bit(info, 128) && bit(info, 64) && bit(info, 32) && bit(info, 16) && !bit(info, 8)) by (nonlinear_arith)
        requires
            info == (0xF0 + t * 2 + flip) as u8,
            t < 4,
            flip < 2,
    ;
    assert(bit(info, 1) == reflect && ((info / 2) % 4) as u8 == t) by (nonlinear_arith)
        requires
            info == (0xF0 + t * 2 + flip) as u8,
            t < 4,
            flip == (if reflect { 1u8 } else { 0u8 }),
    ;
    let p1 = k + 1;
    assert(b.subrange(p1, p1 + e_rn.len() as int) =~= e_rn);
    lemma_u_at(b, p1, rn);
    let p2 = p1 + e_rn.len() as int;
    assert(place_name(b, p1, info, names) == Some((ref_name(names, rn), p2)));
    assert(b.subrange(p2, p2 + e_x.len() as int) =~= e_x);
    lemma_s_at(b, p2, x as i64);
    let p3 = p2 + e_x.len() as int;
    assert(b.subrange(p3, p3 + e_y.len() as int) =~= e_y);
    lemma_s_at(b, p3, y as i64);
    assert((x as i64 as int) as i32 == x && (y as i64 as int) as i32 == y);
}

/// The placement round trip for an explicit form.
#[verifier::spinoff_prover]
#[verifier::rlimit(100)]
proof fn lemma_placement_explicit(
    rn: u64,
    x: i32,
    y: i32,
    reflect: bool,
    form: PlacementForm,
    pre: Seq<u8>,
    rest: Seq<u8>,
    m: Modal,
    rep: Seq<(i32, i32)>,
    text: Seq<char>,
    names: Seq<Seq<char>>,
)
    requires
        form is Explicit,
    ensures
        ({
            let rec = placement_bytes(rn as nat, x, y, reflect, form);
            let b = pre + rec + rest;
            let k = (pre.len() + enc_u(placement_id(form) as nat).len()) as int;
            let g = place_read(b, k, placement_id(form), m, rep, text, names);
            &&& g is Some
            &&& g->0.shape == Some(placement_shape(names, rn, x, y, reflect, form))
            &&& g->0.reps.len() == 0
            &&& g->0.end == pre.len() + rec.len()
        }),
{
    let rec = placement_bytes(rn as nat, x, y, reflect, form);
    let b = pre + rec + rest;
    let id = placement_id(form);
    let flip: u8 = if reflect { 1 } else { 0 };
    let e_id = enc_u(id as nat);
    let e_rn = enc_u(rn as nat);
    let e_x = enc_u(zig(x as i64));
    let e_y = enc_u(zig(y as i64));
    let k = (pre.len() + e_id.len()) as int;
    let info = b[k];
    let (mag_bits, angle_bits) = (form->mag_bits, form->angle_bits);
    let dm = double_bytes(mag_bits);
    let da = double_bytes(angle_bits);
    assert(rec =~= e_id + seq![(0xF6 + flip) as u8] + e_rn + dm + da + e_x + e_y);
    assert(info == (0xF6 + flip) as u8);
    assert(bit(info, 128) && bit(info, 64) && bit(info, 32) && bit(info, 16) && !bit(info, 8) && bit(info, 4) && bit(info, 2)
        && bit(info, 1) == reflect) by (nonlinear_arith)
        requires
            info == (0xF6 + flip) as u8,
            flip == (if reflect { 1u8 } else { 0u8 }),
    ;
    let p1 = k + 1;
    assert(b.subrange(p1, p1 + e_rn.len() as int) =~= e_rn);
    lemma_u_at(b, p1, rn);
    let p2 = p1 + e_rn.len() as int;
    assert(place_name(b, p1, info, names) == Some((ref_name(names, rn), p2)));
    assert(dm.len() == 9 && da.len() == 9);
    assert(b.subrange(p2, p2 + 9) =~= dm);
    lemma_double_read(b, p2, mag_bits);
    let p3 = p2 + 9;
    assert(b.subrange(p3, p3 + 9) =~= da);
    lemma_double_read(b, p3, angle_bits);
    let p4 = p3 + 9;
    assert(b.subrange(p4, p4 + e_x.len() as int) =~= e_x);
    lemma_s_at(b, p4, x as i64);
    let p5 = p4 + e_x.len() as int;
    assert(b.subrange(p5, p5 + e_y.len() as int) =~= e_y);
    lemma_s_at(b, p5, y as i64);
    assert((x as i64 as int) as i32 == x && (y as i64 as int) as i32 == y);
}

/// Round trip of a placement: reading back the PLACEMENT record that
/// [`write_placement`] writes, whatever the modal state, gives the placement it was
/// written for, with no repetition, and ends where the record ends.
pub proof fn lemma_placement_round_trip(
    rn: u64,
    x: i32,
    y: i32,
    reflect: bool,
    form: PlacementForm,
    pre: Seq<u8>,
    rest: Seq<u8>,
    m: Modal,
    rep: Seq<(i32, i32)>,
    text: Seq<char>,
    names: Seq<Seq<char>>,
)
    ensures
        ({
            let rec = placement_bytes(rn as nat, x, y, reflect, form);
            let b = pre + rec + rest;
            let k = (pre.len() + enc_u(placement_id(form) as nat).len()) as int;
            let g = place_read(b, k, placement_id(form), m, rep, text, names);
            &&& g is Some
            &&& g->0.shape == Some(placement_shape(names, rn, x, y, reflect, form))
            &&& g->0.reps.len() == 0
            &&& g->0.end == pre.len() + rec.len()
        }),
{
    match form {
        PlacementForm::Quarter { .. } => lemma_placement_quarter(rn, x, y, reflect, form, pre, rest, m, rep, text, names),
        PlacementForm::Explicit { .. } => lemma_placement_explicit(rn, x, y, reflect, form, pre, rest, m, rep, text, names),
    }
}

// ---- reading a written file back ---------------------------------------------------

/// The names of the cells of `cs`, in order (what the reader gives back: a name is written as
/// its UTF-8 bytes, which decode to it again).
pub open spec fn read_names(cs: Seq<Cell>) -> Seq<Seq<char>> {
    Seq::new(cs.len(), |i: int| cs[i].name@)
}

/// What a boundary's record reads back as.
pub open spec fn shape_shapes(layer: i16, datatype: i16, pts: Seq<(i32, i32)>) -> Seq<ShapeV> {
    if exists|r: Rect| is_rect_ring(pts, r) {
        seq![ShapeV::Boundary { layer, datatype, pts: boundary_of(choose|r: Rect| is_rect_ring(pts, r)) }]
    } else if distinct_spec(pts).len() < 3 {
        Seq::empty()
    } else {
        seq![ShapeV::Boundary { layer, datatype, pts: distinct_spec(pts).push(distinct_spec(pts)[0]) }]
    }
}

/// What the first `n` stroked segments of a path read back as.
pub open spec fn stroke_shapes(layer: i16, datatype: i16, pts: Seq<(i32, i32)>, h: int, n: int) -> Seq<ShapeV>
    decreases n,
{
    if n <= 0 {
        Seq::empty()
    } else {
        stroke_shapes(layer, datatype, pts, h, n - 1).push(
            ShapeV::Boundary { layer, datatype, pts: boundary_of(stroke_rect(pts[n - 1], pts[n], h)) },
        )
    }
}

/// What the first `n` placements of an array read back as.
pub open spec fn aref_shapes(names: Seq<Seq<char>>, rn: u64, cols: int, rows: int, pts: Seq<(i32, i32)>, reflect: bool, form: PlacementForm, n: int) -> Seq<ShapeV>
    decreases n,
{
    if n <= 0 {
        Seq::empty()
    } else {
        let (c, r) = ((n - 1) % cols, (n - 1) / cols);
        let p = aref_place(cols, rows, pts, c * rows + r, reflect, 0, 0);
        aref_shapes(names, rn, cols, rows, pts, reflect, form, n - 1).push(placement_shape(names, rn, p.x, p.y, reflect, form))
    }
}

/// What one element's records read back as.
pub open spec fn elem_shapes(e: Element, names: Seq<Seq<char>>, cs: Seq<Cell>, form: PlacementForm) -> Seq<ShapeV> {
    match e {
        Element::Boundary { layer, datatype, pts } => shape_shapes(layer, datatype, pts@),
        Element::Box { layer, boxtype, pts } => shape_shapes(layer, boxtype, pts@),
        Element::Path { layer, datatype, width, pts } => if width <= 0 || pts@.len() < 2 {
            Seq::empty()
        } else {
            stroke_shapes(layer, datatype, pts@, (width / 2) as int, pts@.len() - 1)
        },
        Element::Sref { sname, x, y, reflect, .. } => {
            let f = first_named(cs, sname@, cs.len() as int);
            if f >= 0 {
                seq![placement_shape(names, f as u64, x, y, reflect, form)]
            } else {
                Seq::empty()
            }
        },
        Element::Aref { sname, cols, rows, pts, reflect, .. } => {
            let f = first_named(cs, sname@, cs.len() as int);
            if f >= 0 && pts@.len() >= 3 && cols > 0 && rows > 0 {
                aref_shapes(names, f as u64, cols as int, rows as int, pts@, reflect, form, cols * rows)
            } else {
                Seq::empty()
            }
        },
        Element::Text { .. } => Seq::empty(),
    }
}

/// What the first `n` elements read back as.
pub open spec fn elems_shapes(es: Seq<Element>, n: int, names: Seq<Seq<char>>, cs: Seq<Cell>, forms: Seq<PlacementForm>) -> Seq<ShapeV>
    decreases n,
{
    if n <= 0 {
        Seq::empty()
    } else {
        elems_shapes(es, n - 1, names, cs, forms) + elem_shapes(es[n - 1], names, cs, forms[refs_in(es, n - 1) as int])
    }
}

/// What cell `i` of a written library reads back as.
pub open spec fn read_cell(cs: Seq<Cell>, forms: Seq<PlacementForm>, i: int) -> OCellV {
    OCellV {
        name: ref_name(read_names(cs), i as u64),
        shapes: elems_shapes(cs[i].elements@, cs[i].elements@.len() as int, read_names(cs), cs, forms.skip(refs_before(cs, i) as int)),
    }
}

/// What the cells of a written library read back as.
pub open spec fn oasis_cells(lib: Library, forms: Seq<PlacementForm>) -> Seq<OCellV> {
    Seq::new(lib.cells@.len(), |i: int| read_cell(lib.cells@, forms, i))
}

/// An element whose records read back: a boundary's point list has a `u64` length, and
/// each stroked segment of a path of positive width is a rectangle with area.
pub open spec fn elem_readable(e: Element) -> bool {
    match e {
        Element::Boundary { pts, .. } => pts@.len() <= u64::MAX,
        Element::Box { pts, .. } => pts@.len() <= u64::MAX,
        Element::Path { width, pts, .. } => width > 0 ==> forall|j: int|
            0 <= j < pts@.len() - 1 ==> rect_wf(#[trigger] stroke_rect(pts@[j], pts@[j + 1], (width / 2) as int)),
        _ => true,
    }
}

/// A library whose OASIS file reads back: every path strokable, every element readable,
/// every cell name's bytes counted by a `u64`, and fewer cells than `u32` numbers.
pub open spec fn oasis_writable(lib: Library) -> bool {
    &&& strokable(lib)
    &&& lib.cells@.len() < 0x1_0000_0000
    &&& forall|c: int| 0 <= c < lib.cells@.len() ==> encode_utf8(#[trigger] lib.cells@[c].name@).len() <= u64::MAX
    &&& forall|c: int, k: int|
        0 <= c < lib.cells@.len() && 0 <= k < lib.cells@[c].elements@.len() ==> elem_readable(#[trigger] lib.cells@[c].elements@[k])
}

/// The reader state decided by the records: units, names, finished and open cells (each
/// finished cell with its reference number), and END not yet read.
pub open spec fn at(st: StateV, units: Seq<Real>, names: Seq<Seq<char>>, done: Seq<OCellV>, open: Option<OCellV>) -> bool {
    &&& st.units == units
    &&& st.cellnames == names
    &&& st.cells == done
    &&& st.refnums == Seq::new(done.len(), |i: int| Some(i as u64))
    &&& st.cell == open
    &&& st.cur_refnum == (if open is Some { Some(done.len() as u64) } else { None })
    &&& !st.ended
}

/// `x + y` sits at `i` in `b`: so does `x`, and `y` right after it.
proof fn lemma_split_at(b: Seq<u8>, i: int, x: Seq<u8>, y: Seq<u8>)
    requires
        0 <= i,
        i + x.len() + y.len() <= b.len(),
        b.subrange(i, i + x.len() + y.len()) == x + y,
    ensures
        b.subrange(i, i + x.len()) == x,
        b.subrange(i + x.len(), i + x.len() + y.len()) == y,
{
    assert(b.subrange(i, i + x.len()) =~= (x + y).subrange(0, x.len() as int));
    assert(b.subrange(i + x.len(), i + x.len() + y.len()) =~= (x + y).subrange(x.len() as int, (x.len() + y.len()) as int));
}

/// Whether one step from `i` reads the record `rec` into `st2`.
pub open spec fn steps_to(st: StateV, b: Seq<u8>, i: int, rec: Seq<u8>, st2: StateV) -> bool {
    run_v(st, b, i, CBLOCK_NESTING as nat) == run_v(st2, b, i + rec.len(), CBLOCK_NESTING as nat)
}

/// A one-record step, turned into a step of the whole run.
proof fn lemma_step_run(st: StateV, b: Seq<u8>, i: int, rec: Seq<u8>, st2: StateV)
    requires
        0 <= i,
        rec.len() > 0,
        i + rec.len() <= b.len(),
        !st.ended,
        step_v(st, b, i, CBLOCK_NESTING as nat) == Some((st2, i + rec.len())),
    ensures
        steps_to(st, b, i, rec, st2),
{
    lemma_run_step(st, b, i, CBLOCK_NESTING as nat);
}

/// A one-byte record id at `i`.
proof fn lemma_id_at(b: Seq<u8>, i: int, id: u64)
    requires
        0 <= i,
        id < 128,
        i + 1 <= b.len(),
        b[i] == id as u8,
    ensures
        enc_u(id as nat) == seq![id as u8],
        read_u(b, i) == Some((id as nat, i + 1)),
{
    assert(enc_u(id as nat) =~= seq![id as u8]);
    assert(b.subrange(i, i + 1) =~= seq![id as u8]);
    lemma_u_at(b, i, id);
}

/// `st2` is `st` with `add` stamped into the open cell, the rest that the records decide
/// unchanged.
pub open spec fn stamped_into(st: StateV, st2: StateV, add: Seq<ShapeV>) -> bool {
    &&& st2.units == st.units
    &&& st2.cellnames == st.cellnames
    &&& st2.cells == st.cells
    &&& st2.refnums == st.refnums
    &&& st2.cur_refnum == st.cur_refnum
    &&& st2.ended == st.ended
    &&& st2.cell == match st.cell {
        Some(c) => Some(OCellV { name: c.name, shapes: c.shapes + add }),
        None => None,
    }
}

/// The record `rec` at `i` of `b`, whole.
pub open spec fn rec_at(b: Seq<u8>, i: int, rec: Seq<u8>) -> bool {
    0 <= i && i + rec.len() <= b.len() && b.subrange(i, i + rec.len()) == rec
}

/// Reading nothing leaves the run where it is.
proof fn lemma_stamp_none(st: StateV)
    ensures
        stamped_into(st, st, Seq::empty()),
{
    match st.cell {
        Some(c) => {
            assert(c.shapes + Seq::<ShapeV>::empty() =~= c.shapes);
        },
        None => {},
    }
}

/// Stamping twice is stamping both, in order.
proof fn lemma_stamp_trans(s1: StateV, s2: StateV, s3: StateV, a: Seq<ShapeV>, c: Seq<ShapeV>)
    requires
        stamped_into(s1, s2, a),
        stamped_into(s2, s3, c),
    ensures
        stamped_into(s1, s3, a + c),
{
    match s1.cell {
        Some(x) => {
            assert(x.shapes + a + c =~= x.shapes + (a + c));
        },
        None => {},
    }
}

/// Reading a RECTANGLE record stamps its boundary.
#[verifier::spinoff_prover]
#[verifier::rlimit(80)]
proof fn lemma_rect_step(st: StateV, b: Seq<u8>, i: int, layer: i16, datatype: i16, r: Rect) -> (st2: StateV)
    requires
        rect_wf(r),
        rec_at(b, i, rectangle_record(layer, datatype, r)),
        !st.ended,
    ensures
        steps_to(st, b, i, rectangle_record(layer, datatype, r), st2),
        stamped_into(st, st2, seq![ShapeV::Boundary { layer, datatype, pts: boundary_of(r) }]),
{
    let rec = rectangle_record(layer, datatype, r);
    let pre = b.subrange(0, i);
    let rest = b.subrange(i + rec.len(), b.len() as int);
    assert(b =~= pre + rec + rest);
    crate::oasis_read::lemma_rectangle_round_trip(layer, datatype, r, pre, rest, st.modal, st.repetition);
    assert(b[i] == rec[0]);
    lemma_id_at(b, i, 20);
    let g = geo_read(st, b, i + 1, 20)->0;
    let sh = ShapeV::Boundary { layer, datatype, pts: boundary_of(r) };
    let st2 = StateV { modal: g.modal, repetition: g.rep, cell: push_stamped(st.cell, sh, g.reps), ..st };
    assert(stamped(sh, g.reps) == seq![sh]);
    assert(step_v(st, b, i, CBLOCK_NESTING as nat) == Some((st2, i + rec.len())));
    lemma_step_run(st, b, i, rec, st2);
    st2
}

/// A POLYGON record at `i` reads back, from its body, as its closed ring.
#[verifier::spinoff_prover]
#[verifier::rlimit(100)]
proof fn lemma_poly_at(b: Seq<u8>, i: int, layer: i16, datatype: i16, pts: Seq<(i32, i32)>, m: Modal, rep: Seq<(i32, i32)>)
    requires
        distinct_spec(pts).len() >= 3,
        pts.len() <= u64::MAX,
        rec_at(b, i, polygon_record(layer, datatype, distinct_spec(pts))),
    ensures
        read_u(b, i) == Some((21nat, i + 1)),
        poly_read(b, i + 1, m, rep) is Some,
        poly_read(b, i + 1, m, rep)->0.layer == layer,
        poly_read(b, i + 1, m, rep)->0.datatype == datatype,
        poly_read(b, i + 1, m, rep)->0.pts == distinct_spec(pts).push(distinct_spec(pts)[0]),
        poly_read(b, i + 1, m, rep)->0.reps.len() == 0,
        poly_read(b, i + 1, m, rep)->0.end == i + polygon_record(layer, datatype, distinct_spec(pts)).len(),
{
    let v = distinct_spec(pts);
    let rec = polygon_record(layer, datatype, v);
    let pre = b.subrange(0, i);
    let rest = b.subrange(i + rec.len(), b.len() as int);
    assert(b =~= pre + rec + rest);
    assert(enc_u(21) =~= seq![21u8]);
    assert(rec[0] == 21u8);
    assert(b[i] == rec[0]);
    lemma_id_at(b, i, 21);
    crate::oasis_read::lemma_polygon_round_trip(layer, datatype, pts, pre, rest, m, rep);
}

/// Reading a POLYGON record stamps its closed ring.
#[verifier::spinoff_prover]
proof fn lemma_poly_step(st: StateV, b: Seq<u8>, i: int, layer: i16, datatype: i16, pts: Seq<(i32, i32)>) -> (st2: StateV)
    requires
        distinct_spec(pts).len() >= 3,
        pts.len() <= u64::MAX,
        rec_at(b, i, polygon_record(layer, datatype, distinct_spec(pts))),
        !st.ended,
    ensures
        steps_to(st, b, i, polygon_record(layer, datatype, distinct_spec(pts)), st2),
        stamped_into(st, st2, seq![ShapeV::Boundary { layer, datatype, pts: distinct_spec(pts).push(distinct_spec(pts)[0]) }]),
{
    let v = distinct_spec(pts);
    let rec = polygon_record(layer, datatype, v);
    lemma_poly_at(b, i, layer, datatype, pts, st.modal, st.repetition);
    let g = geo_read(st, b, i + 1, 21)->0;
    let sh = ShapeV::Boundary { layer, datatype, pts: v.push(v[0]) };
    let st2 = StateV { modal: g.modal, repetition: g.rep, cell: push_stamped(st.cell, sh, g.reps), ..st };
    assert(stamped(sh, g.reps) == seq![sh]);
    assert(geo_step(st, b, i + 1, 21) == Some((st2, g.end)));
    assert(step_v(st, b, i, CBLOCK_NESTING as nat) == Some((st2, i + rec.len())));
    lemma_step_run(st, b, i, rec, st2);
    st2
}

/// Reading a PLACEMENT record stamps its placement, named from the cell-name table.
#[verifier::spinoff_prover]
#[verifier::rlimit(80)]
proof fn lemma_place_step(st: StateV, b: Seq<u8>, i: int, rn: u64, x: i32, y: i32, reflect: bool, form: PlacementForm) -> (st2: StateV)
    requires
        rec_at(b, i, placement_bytes(rn as nat, x, y, reflect, form)),
        !st.ended,
    ensures
        steps_to(st, b, i, placement_bytes(rn as nat, x, y, reflect, form), st2),
        stamped_into(st, st2, seq![placement_shape(st.cellnames, rn, x, y, reflect, form)]),
{
    let rec = placement_bytes(rn as nat, x, y, reflect, form);
    let pre = b.subrange(0, i);
    let rest = b.subrange(i + rec.len(), b.len() as int);
    assert(b =~= pre + rec + rest);
    let id = placement_id(form);
    lemma_placement_round_trip(rn, x, y, reflect, form, pre, rest, st.modal, st.repetition, Seq::empty(), st.cellnames);
    assert(b[i] == rec[0]);
    lemma_id_at(b, i, id);
    assert(geo_read(st, b, i + 1, id as nat) == place_read(b, i + 1, id, st.modal, st.repetition, Seq::empty(), st.cellnames));
    let g = geo_read(st, b, i + 1, id as nat)->0;
    let sh = placement_shape(st.cellnames, rn, x, y, reflect, form);
    let st2 = StateV { modal: g.modal, repetition: g.rep, cell: push_stamped(st.cell, sh, g.reps), ..st };
    assert(stamped(sh, g.reps) == seq![sh]);
    assert(step_v(st, b, i, CBLOCK_NESTING as nat) == Some((st2, i + rec.len())));
    lemma_step_run(st, b, i, rec, st2);
    st2
}

/// Reading a boundary's record stamps what it reads back as.
proof fn lemma_shape_run(st: StateV, b: Seq<u8>, i: int, layer: i16, datatype: i16, pts: Seq<(i32, i32)>) -> (st2: StateV)
    requires
        rec_at(b, i, shape_bytes(layer, datatype, pts)),
        pts.len() <= u64::MAX,
        !st.ended,
    ensures
        steps_to(st, b, i, shape_bytes(layer, datatype, pts), st2),
        stamped_into(st, st2, shape_shapes(layer, datatype, pts)),
{
    if exists|r: Rect| is_rect_ring(pts, r) {
        let r = choose|r: Rect| is_rect_ring(pts, r);
        lemma_rect_step(st, b, i, layer, datatype, r)
    } else if distinct_spec(pts).len() < 3 {
        lemma_stamp_none(st);
        st
    } else {
        lemma_poly_step(st, b, i, layer, datatype, pts)
    }
}

/// Reading the first `n` stroked segments of a path stamps their rectangles.
proof fn lemma_strokes_run(st: StateV, b: Seq<u8>, i: int, layer: i16, datatype: i16, pts: Seq<(i32, i32)>, h: int, n: int) -> (st2: StateV)
    requires
        0 <= n <= pts.len() - 1,
        forall|j: int| 0 <= j < pts.len() - 1 ==> rect_wf(#[trigger] stroke_rect(pts[j], pts[j + 1], h)),
        rec_at(b, i, strokes(layer, datatype, pts, h, n)),
        !st.ended,
    ensures
        steps_to(st, b, i, strokes(layer, datatype, pts, h, n), st2),
        stamped_into(st, st2, stroke_shapes(layer, datatype, pts, h, n)),
    decreases n,
{
    if n <= 0 {
        lemma_stamp_none(st);
        st
    } else {
        let r = stroke_rect(pts[n - 1], pts[n], h);
        let x = strokes(layer, datatype, pts, h, n - 1);
        let y = rectangle_record(layer, datatype, r);
        assert(strokes(layer, datatype, pts, h, n) == x + y);
        lemma_split_at(b, i, x, y);
        let s1 = lemma_strokes_run(st, b, i, layer, datatype, pts, h, n - 1);
        assert(rect_wf(stroke_rect(pts[n - 1], pts[(n - 1) + 1], h)));
        let s2 = lemma_rect_step(s1, b, i + x.len(), layer, datatype, r);
        let sh = ShapeV::Boundary { layer, datatype, pts: boundary_of(r) };
        lemma_stamp_trans(st, s1, s2, stroke_shapes(layer, datatype, pts, h, n - 1), seq![sh]);
        assert(stroke_shapes(layer, datatype, pts, h, n - 1) + seq![sh] =~= stroke_shapes(layer, datatype, pts, h, n));
        s2
    }
}

/// Reading the first `n` placements of an array stamps them.
proof fn lemma_aref_run(st: StateV, b: Seq<u8>, i: int, rn: u64, cols: int, rows: int, pts: Seq<(i32, i32)>, reflect: bool, form: PlacementForm, n: int) -> (st2: StateV)
    requires
        cols > 0,
        n >= 0,
        rec_at(b, i, aref_records(rn as nat, cols, rows, pts, reflect, form, n)),
        !st.ended,
    ensures
        steps_to(st, b, i, aref_records(rn as nat, cols, rows, pts, reflect, form, n), st2),
        stamped_into(st, st2, aref_shapes(st.cellnames, rn, cols, rows, pts, reflect, form, n)),
    decreases n,
{
    if n <= 0 {
        lemma_stamp_none(st);
        st
    } else {
        let (c, r) = ((n - 1) % cols, (n - 1) / cols);
        let p = aref_place(cols, rows, pts, c * rows + r, reflect, 0, 0);
        let x = aref_records(rn as nat, cols, rows, pts, reflect, form, n - 1);
        let y = placement_bytes(rn as nat, p.x, p.y, reflect, form);
        assert(aref_records(rn as nat, cols, rows, pts, reflect, form, n) == x + y);
        lemma_split_at(b, i, x, y);
        let s1 = lemma_aref_run(st, b, i, rn, cols, rows, pts, reflect, form, n - 1);
        let s2 = lemma_place_step(s1, b, i + x.len(), rn, p.x, p.y, reflect, form);
        let sh = placement_shape(st.cellnames, rn, p.x, p.y, reflect, form);
        lemma_stamp_trans(st, s1, s2, aref_shapes(st.cellnames, rn, cols, rows, pts, reflect, form, n - 1), seq![sh]);
        assert(aref_shapes(st.cellnames, rn, cols, rows, pts, reflect, form, n - 1) + seq![sh] =~= aref_shapes(
            st.cellnames,
            rn,
            cols,
            rows,
            pts,
            reflect,
            form,
            n,
        ));
        s2
    }
}

/// Reading one element's records stamps what it reads back as.
proof fn lemma_elem_run(st: StateV, b: Seq<u8>, i: int, e: Element, cs: Seq<Cell>, form: PlacementForm) -> (st2: StateV)
    requires
        rec_at(b, i, elem_records(e, cs, form)),
        elem_readable(e),
        cs.len() <= u64::MAX,
        !st.ended,
    ensures
        steps_to(st, b, i, elem_records(e, cs, form), st2),
        stamped_into(st, st2, elem_shapes(e, st.cellnames, cs, form)),
{
    match e {
        Element::Boundary { layer, datatype, pts } => lemma_shape_run(st, b, i, layer, datatype, pts@),
        Element::Box { layer, boxtype, pts } => lemma_shape_run(st, b, i, layer, boxtype, pts@),
        Element::Path { layer, datatype, width, pts } => {
            if width <= 0 || pts@.len() < 2 {
                lemma_stamp_none(st);
                st
            } else {
                lemma_strokes_run(st, b, i, layer, datatype, pts@, (width / 2) as int, pts@.len() - 1)
            }
        },
        Element::Sref { sname, x, y, reflect, .. } => {
            let f = first_named(cs, sname@, cs.len() as int);
            lemma_first_named_range(cs, sname@, cs.len() as int);
            if f >= 0 {
                lemma_place_step(st, b, i, f as u64, x, y, reflect, form)
            } else {
                lemma_stamp_none(st);
                st
            }
        },
        Element::Aref { sname, cols, rows, pts, reflect, .. } => {
            let f = first_named(cs, sname@, cs.len() as int);
            lemma_first_named_range(cs, sname@, cs.len() as int);
            if f >= 0 && pts@.len() >= 3 && cols > 0 && rows > 0 {
                lemma_aref_run(st, b, i, f as u64, cols as int, rows as int, pts@, reflect, form, cols * rows)
            } else {
                lemma_stamp_none(st);
                st
            }
        },
        Element::Text { .. } => {
            lemma_stamp_none(st);
            st
        },
    }
}

/// The first cell of a name is one of the cells.
proof fn lemma_first_named_range(cs: Seq<Cell>, name: Seq<char>, n: int)
    requires
        n >= 0,
    ensures
        first_named(cs, name, n) < n,
        first_named(cs, name, n) >= -1,
    decreases n,
{
    if n > 0 {
        lemma_first_named_range(cs, name, n - 1);
    }
}

/// Reading the first `n` elements' records stamps what they read back as.
proof fn lemma_elems_run(st: StateV, b: Seq<u8>, i: int, es: Seq<Element>, n: int, cs: Seq<Cell>, forms: Seq<PlacementForm>) -> (st2: StateV)
    requires
        0 <= n <= es.len(),
        forall|k: int| 0 <= k < es.len() ==> elem_readable(#[trigger] es[k]),
        cs.len() <= u64::MAX,
        rec_at(b, i, elems_records(es, n, cs, forms)),
        !st.ended,
    ensures
        steps_to(st, b, i, elems_records(es, n, cs, forms), st2),
        stamped_into(st, st2, elems_shapes(es, n, st.cellnames, cs, forms)),
    decreases n,
{
    if n <= 0 {
        lemma_stamp_none(st);
        st
    } else {
        let form = forms[refs_in(es, n - 1) as int];
        let x = elems_records(es, n - 1, cs, forms);
        let y = elem_records(es[n - 1], cs, form);
        lemma_split_at(b, i, x, y);
        let s1 = lemma_elems_run(st, b, i, es, n - 1, cs, forms);
        let s2 = lemma_elem_run(s1, b, i + x.len(), es[n - 1], cs, form);
        lemma_stamp_trans(st, s1, s2, elems_shapes(es, n - 1, st.cellnames, cs, forms), elem_shapes(es[n - 1], st.cellnames, cs, form));
        s2
    }
}

/// `n` zero bytes at `p` read as `n` zero varints.
proof fn lemma_zero_list(b: Seq<u8>, p: int, n: nat)
    requires
        0 <= p,
        p + n <= b.len(),
        forall|k: int| 0 <= k < n ==> #[trigger] b[p + k] == 0u8,
    ensures
        u_list(b, p, n) matches Some((_, q)) && q == p + n,
    decreases n,
{
    if n > 0 {
        lemma_zero_list(b, p, (n - 1) as nat);
        assert(b[p + (n - 1)] == 0u8);
        lemma_id_at(b, p + n - 1, 0);
    }
}

/// The fields of a START record at `i`, as the reader reads them.
#[verifier::spinoff_prover]
#[verifier::rlimit(60)]
proof fn lemma_start_fields(b: Seq<u8>, i: int, unit_bits: u64)
    requires
        rec_at(b, i, start_record(unit_bits)),
    ensures
        start_record(unit_bits).len() == 27,
        read_u(b, i) == Some((1nat, i + 1)),
        read_str(b, i + 1) matches Some((_, j)) && j == i + 5,
        read_real_spec(b, i + 5) == Some((Real::Double(unit_bits), i + 14)),
        read_u(b, i + 14) == Some((0nat, i + 15)),
        u_list(b, i + 15, 12) matches Some((_, q)) && q == i + 27,
{
    let rec = start_record(unit_bits);
    let d = double_bytes(unit_bits);
    let p0 = enc_u(1);
    let p1 = seq![3u8, 0x31u8, 0x2eu8, 0x30u8];
    let p3 = Seq::new(13, |j: int| 0u8);
    assert(p0 =~= seq![1u8]);
    assert(d.len() == 9);
    assert(rec == ((p0 + p1) + d) + p3);
    lemma_split_at(b, i, (p0 + p1) + d, p3);
    lemma_split_at(b, i, p0 + p1, d);
    lemma_split_at(b, i, p0, p1);
    assert(b[i] == b.subrange(i, i + 1)[0]);
    lemma_id_at(b, i, 1);
    assert(b[i + 1] == b.subrange(i + 1, i + 5)[0]);
    lemma_id_at(b, i + 1, 3);
    lemma_double_read(b, i + 5, unit_bits);
    assert forall|k: int| 0 <= k < 13 implies #[trigger] b[(i + 14) + k] == 0u8 by {
        assert(b.subrange(i + 14, i + 27)[k] == b[(i + 14) + k]);
    }
    assert(b.subrange(i + 14, i + 27)[0] == b[i + 14]);
    assert(b[i + 14] == 0u8);
    lemma_id_at(b, i + 14, 0);
    assert forall|k: int| 0 <= k < 12 implies #[trigger] b[(i + 15) + k] == 0u8 by {
        assert(b.subrange(i + 14, i + 27)[k + 1] == b[(i + 15) + k]);
    }
    lemma_zero_list(b, i + 15, 12);
}

/// Reading the START record adds its unit.
#[verifier::spinoff_prover]
proof fn lemma_start_run(st: StateV, b: Seq<u8>, i: int, unit_bits: u64) -> (st2: StateV)
    requires
        rec_at(b, i, start_record(unit_bits)),
        !st.ended,
    ensures
        steps_to(st, b, i, start_record(unit_bits), st2),
        st2 == (StateV { units: st.units.push(Real::Double(unit_bits)), ..st }),
{
    lemma_start_fields(b, i, unit_bits);
    let st2 = StateV { units: st.units.push(Real::Double(unit_bits)), ..st };
    assert(table_step(st, b, i + 1, 1) == Some((st2, i + 27)));
    assert(step_v(st, b, i, CBLOCK_NESTING as nat) == Some((st2, i + 27)));
    lemma_step_run(st, b, i, start_record(unit_bits), st2);
    st2
}

/// One implicit CELLNAME record: the name `s` joins the table.
pub open spec fn name_record(s: Seq<char>) -> Seq<u8> {
    enc_u(3) + enc_u(encode_utf8(s).len()) + encode_utf8(s)
}

/// Reading a CELLNAME record adds its name.
#[verifier::spinoff_prover]
proof fn lemma_name_step(st: StateV, b: Seq<u8>, i: int, s: Seq<char>) -> (st2: StateV)
    requires
        rec_at(b, i, name_record(s)),
        encode_utf8(s).len() <= u64::MAX,
        !st.ended,
    ensures
        steps_to(st, b, i, name_record(s), st2),
        st2 == (StateV { cellnames: st.cellnames.push(s), ..st }),
{
    let bytes = encode_utf8(s);
    let n = bytes.len() as u64;
    let x = enc_u(3) + enc_u(n as nat);
    let rec = name_record(s);
    assert(rec == x + bytes);
    lemma_split_at(b, i, x, bytes);
    lemma_split_at(b, i, enc_u(3), enc_u(n as nat));
    assert(enc_u(3) =~= seq![3u8]);
    assert(b[i] == b.subrange(i, i + 1)[0]);
    lemma_id_at(b, i, 3);
    lemma_u_at(b, i + 1, n);
    assert(read_str(b, i + 1) == Some((bytes, i + rec.len())));
    vstd::utf8::encode_utf8_valid_utf8(s);
    vstd::utf8::encode_utf8_decode_utf8(s);
    assert(utf8_text(bytes) == s);
    let st2 = StateV { cellnames: st.cellnames.push(s), ..st };
    assert(table_step(st, b, i + 1, 3) == Some((st2, i + rec.len())));
    assert(step_v(st, b, i, CBLOCK_NESTING as nat) == Some((st2, i + rec.len())));
    lemma_step_run(st, b, i, rec, st2);
    st2
}

/// Reading the first `n` CELLNAME records adds their names in order.
proof fn lemma_names_run(st: StateV, b: Seq<u8>, i: int, cs: Seq<Cell>, n: int) -> (st2: StateV)
    requires
        0 <= n <= cs.len(),
        forall|c: int| 0 <= c < cs.len() ==> encode_utf8(#[trigger] cs[c].name@).len() <= u64::MAX,
        rec_at(b, i, names_records(cs, n)),
        !st.ended,
    ensures
        steps_to(st, b, i, names_records(cs, n), st2),
        st2 == (StateV { cellnames: st.cellnames + read_names(cs).take(n), ..st }),
    decreases n,
{
    if n <= 0 {
        assert(st.cellnames + read_names(cs).take(0) =~= st.cellnames);
        st
    } else {
        let x = names_records(cs, n - 1);
        let y = name_record(cs[n - 1].name@);
        assert(names_records(cs, n) =~= x + y);
        lemma_split_at(b, i, x, y);
        let s1 = lemma_names_run(st, b, i, cs, n - 1);
        let s2 = lemma_name_step(s1, b, i + x.len(), cs[n - 1].name@);
        assert(st.cellnames + read_names(cs).take(n - 1) + seq![read_names(cs)[n - 1]] =~= st.cellnames + read_names(cs).take(n));
        assert(s1.cellnames.push(cs[n - 1].name@) =~= st.cellnames + read_names(cs).take(n));
        s2
    }
}

/// The state after a CELL record by reference number `ci` and the XYABSOLUTE after it:
/// the open cell closed and an empty one opened.
pub open spec fn opened(st: StateV, ci: u64) -> StateV {
    let f = finish_v(st);
    StateV { cur_refnum: Some(ci), cell: Some(OCellV { name: ref_name(f.cellnames, ci), shapes: Seq::empty() }), ..f }
}

/// The CELL record by reference number and the XYABSOLUTE that follows it.
pub open spec fn cell_head(ci: nat) -> Seq<u8> {
    enc_u(13) + enc_u(ci) + enc_u(15)
}

/// Reading a CELL record and the XYABSOLUTE after it opens cell `ci`.
#[verifier::spinoff_prover]
proof fn lemma_cell_open(st: StateV, b: Seq<u8>, i: int, ci: u64) -> (st2: StateV)
    requires
        rec_at(b, i, cell_head(ci as nat)),
        !st.ended,
    ensures
        steps_to(st, b, i, cell_head(ci as nat), st2),
        st2 == opened(st, ci),
{
    let x = enc_u(13) + enc_u(ci as nat);
    let y = enc_u(15);
    assert(cell_head(ci as nat) == x + y);
    lemma_split_at(b, i, x, y);
    lemma_split_at(b, i, enc_u(13), enc_u(ci as nat));
    assert(enc_u(13) =~= seq![13u8]);
    assert(enc_u(15) =~= seq![15u8]);
    assert(b[i] == b.subrange(i, i + 1)[0]);
    lemma_id_at(b, i, 13);
    lemma_u_at(b, i + 1, ci);
    let s1 = opened(st, ci);
    assert(cell_step(st, b, i + 1, 13) == Some((s1, i + x.len())));
    assert(step_v(st, b, i, CBLOCK_NESTING as nat) == Some((s1, i + x.len())));
    lemma_step_run(st, b, i, x, s1);
    let j = i + x.len();
    assert(b[j] == b.subrange(j, j + 1)[0]);
    lemma_id_at(b, j, 15);
    assert(step_v(s1, b, j, CBLOCK_NESTING as nat) == Some((s1, j + 1)));
    lemma_step_run(s1, b, j, y, s1);
    s1
}

/// Reading END ends the run with that state.
proof fn lemma_end_run(st: StateV, b: Seq<u8>, i: int)
    requires
        rec_at(b, i, end_record()),
        !st.ended,
    ensures
        run_v(st, b, i, CBLOCK_NESTING as nat) == Some(StateV { ended: true, ..st }),
{
    let rest = enc_u(252) + Seq::new(252, |k: int| 0u8) + enc_u(0);
    assert(enc_u(2) =~= seq![2u8]);
    assert(end_record() =~= seq![2u8] + rest);
    lemma_split_at(b, i, seq![2u8], rest);
    assert(b[i] == b.subrange(i, i + 1)[0]);
    lemma_id_at(b, i, 2);
    let s1 = StateV { ended: true, ..st };
    assert(step_v(st, b, i, CBLOCK_NESTING as nat) == Some((s1, i + 1)));
    lemma_run_step(st, b, i, CBLOCK_NESTING as nat);
}

/// The first `n` cells of a written library as they read back.
pub open spec fn done_cells(cs: Seq<Cell>, forms: Seq<PlacementForm>, n: int) -> Seq<OCellV> {
    Seq::new(n as nat, |k: int| read_cell(cs, forms, k))
}

/// Reading the first `n` cells' records: every cell but the last finished, the last open.
#[verifier::spinoff_prover]
#[verifier::rlimit(60)]
proof fn lemma_cells_run(st: StateV, b: Seq<u8>, i: int, cs: Seq<Cell>, forms: Seq<PlacementForm>, n: int) -> (st2: StateV)
    requires
        0 <= n <= cs.len(),
        cs.len() < 0x1_0000_0000,
        forall|c: int, k: int| 0 <= c < cs.len() && 0 <= k < cs[c].elements@.len() ==> elem_readable(#[trigger] cs[c].elements@[k]),
        rec_at(b, i, cells_records(cs, n, forms)),
        at(st, st.units, read_names(cs), Seq::empty(), None),
    ensures
        steps_to(st, b, i, cells_records(cs, n, forms), st2),
        n == 0 ==> st2 == st,
        n > 0 ==> at(st2, st.units, read_names(cs), done_cells(cs, forms, n - 1), Some(read_cell(cs, forms, n - 1))),
    decreases n,
{
    if n <= 0 {
        st
    } else {
        let c = cs[n - 1];
        let es = c.elements@;
        let fs = forms.skip(refs_before(cs, n - 1) as int);
        let x = cells_records(cs, n - 1, forms);
        let hd = cell_head((n - 1) as nat);
        let el = elems_records(es, es.len() as int, cs, fs);
        assert(cells_records(cs, n, forms) =~= x + (hd + el));
        lemma_split_at(b, i, x, hd + el);
        lemma_split_at(b, i + x.len(), hd, el);
        let s1 = lemma_cells_run(st, b, i, cs, forms, n - 1);
        let s2 = lemma_cell_open(s1, b, i + x.len(), (n - 1) as u64);
        assert forall|k: int| 0 <= k < es.len() implies elem_readable(#[trigger] es[k]) by {
            assert(elem_readable(cs[n - 1].elements@[k]));
        }
        let s3 = lemma_elems_run(s2, b, i + x.len() + hd.len(), es, es.len() as int, cs, fs);
        let shapes = elems_shapes(es, es.len() as int, read_names(cs), cs, fs);
        assert(Seq::<ShapeV>::empty() + shapes =~= shapes);
        if n - 1 > 0 {
            assert(done_cells(cs, forms, n - 2).push(read_cell(cs, forms, n - 2)) =~= done_cells(cs, forms, n - 1));
            assert(Seq::new((n - 2) as nat, |k: int| Some(k as u64)).push(Some((n - 2) as u64)) =~= Seq::new(
                (n - 1) as nat,
                |k: int| Some(k as u64),
            ));
        } else {
            assert(done_cells(cs, forms, 0) =~= Seq::<OCellV>::empty());
            assert(Seq::new(0, |k: int| Some(k as u64)) =~= Seq::<Option<u64>>::empty());
        }
        assert(s3.cell == Some(read_cell(cs, forms, n - 1)));
        s3
    }
}

/// Round trip of a whole file: reading back the OASIS file that [`oasis_bytes`] writes
/// for a readable library gives one unit, the double that was written, and the cells in
/// order, each with its own name (or `CELL` and its number where the name is empty) and
/// with the shapes its elements read back as: boundaries and boxes as rectangles or
/// closed polygons, paths as their stroked rectangles, references as placements naming
/// the cells they name (an array as one per instance, row by row), and texts as nothing.
pub proof fn lemma_oasis_round_trip(lib: Library, unit_bits: u64, forms: Seq<PlacementForm>)
    requires
        oasis_writable(lib),
    ensures
        parse_spec(oasis_file(lib, unit_bits, forms)) == Some(
            LayoutV { units: seq![Real::Double(unit_bits)], cells: oasis_cells(lib, forms) },
        ),
{
    let cs = lib.cells@;
    let n = cs.len() as int;
    let b = oasis_file(lib, unit_bits, forms);
    let sr = start_record(unit_bits);
    let nr = names_records(cs, n);
    let cr = cells_records(cs, n, forms);
    let er = end_record();
    let body = b.subrange(13, b.len() as int);
    assert(magic().len() == 13);
    assert(b.take(13) =~= magic());
    assert(body =~= ((sr + nr) + cr) + er);
    assert(body.subrange(0, body.len() as int) =~= body);
    lemma_split_at(body, 0, (sr + nr) + cr, er);
    lemma_split_at(body, 0, sr + nr, cr);
    lemma_split_at(body, 0, sr, nr);
    let s0 = start_v();
    let s1 = lemma_start_run(s0, body, 0, unit_bits);
    let s2 = lemma_names_run(s1, body, sr.len() as int, cs, n);
    assert(Seq::<Seq<char>>::empty() + read_names(cs).take(n) =~= read_names(cs));
    assert(Seq::new(0, |k: int| Some(k as u64)) =~= Seq::<Option<u64>>::empty());
    assert(s2.units =~= seq![Real::Double(unit_bits)]);
    assert(at(s2, s2.units, read_names(cs), Seq::empty(), None));
    assert forall|c: int, k: int| 0 <= c < cs.len() && 0 <= k < cs[c].elements@.len() implies elem_readable(#[trigger] cs[c].elements@[k]) by {
        assert(elem_readable(lib.cells@[c].elements@[k]));
    }
    let s3 = lemma_cells_run(s2, body, (sr.len() + nr.len()) as int, cs, forms, n);
    lemma_end_run(s3, body, (sr.len() + nr.len() + cr.len()) as int);
    let s4 = StateV { ended: true, ..s3 };
    assert(run_v(start_v(), body, 0, CBLOCK_NESTING as nat) == Some(s4));
    let f = finish_v(s4);
    let names = read_names(cs);
    if n > 0 {
        assert(f.cells =~= done_cells(cs, forms, n));
        assert(f.refnums =~= Seq::new(n as nat, |k: int| Some(k as u64)));
    } else {
        assert(f.cells =~= done_cells(cs, forms, n));
    }
    assert(f.cellnames == names);
    assert forall|k: int| 0 <= k < n implies #[trigger] resolved(f.cells[k], f.refnums[k], f.cellnames) == read_cell(cs, forms, k) by {
        assert(f.cells[k] == read_cell(cs, forms, k));
        assert(f.refnums[k] == Some(k as u64));
        assert((k as u64) as int == k);
    }
    assert(Seq::new(f.cells.len(), |k: int| resolved(f.cells[k], f.refnums[k], f.cellnames)) =~= oasis_cells(lib, forms));
}

} // verus!
