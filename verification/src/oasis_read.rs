//! OASIS reader: the record stream of a file, and of the CBLOCK-compressed blocks inside
//! it, read into cells of shapes with the modal state and name tables the records share.
//!
//! The shapes are kept as the file states them: a placement keeps its magnification and
//! angle as OASIS reals, a circle keeps its centre and radius. Turning those into
//! floating-point transforms and polygon vertices is left to the caller.

use vstd::prelude::*;
use vstd::string::StringExecFns;
use vstd::wrapping::{i32_specs, i64_specs};
use vstd::arithmetic::div_mod::lemma_fundamental_div_mod_converse;
use crate::geom::{imin, imax, boundary_of, rect_wf, Rect};
use crate::gds::utf8_text;
use crate::engine::dec;
use crate::oasis::{
    ru, rs, rb, rstr, read_u, read_s, read_g, read_gdelta, read_point_list, read_real, read_interval, skip_name_record,
    skip_property, ctrapezoid_polygon, ctrap_in_range, u_list, g_list, read_str, read_real_spec, plist_at, same_deltas,
    interval_end, name_record_end, prop_end, ctrap_corners, closed_ring, lemma_u_list_none, lemma_g_list_none,
    lemma_read_u_bounds, lemma_read_str_bounds, lemma_read_g_bounds, lemma_lists_bounds, lemma_plist_bounds,
    lemma_real_bounds, lemma_interval_bounds, lemma_name_record_bounds, lemma_prop_bounds, OasisError, Real, R_END,
    R_PROPERTY, R_PROPERTY_REPEAT, R_RECTANGLE, R_POLYGON, enc_u, zig, rectangle_record, lemma_varint_round_trip,
    lemma_signed_round_trip, polygon_record, gdelta_chain, gdelta_word, distinct_spec, lemma_gdelta_round_trip,
};

verus! {

// ---- shapes -----------------------------------------------------------------------

/// A placement's rotation: a multiple of 90° (PLACEMENT), or an angle in degrees
/// (PLACEMENT with a transform; absent means 0).
#[derive(Clone, Copy, Debug, PartialEq, Eq)]
pub enum Rotation {
    Quarter(u8),
    Degrees(Real),
}

/// One shape of a cell, as the file states it.
#[derive(Clone, Debug)]
pub enum Shape {
    Boundary { layer: i16, datatype: i16, pts: Vec<(i32, i32)> },
    Path { layer: i16, datatype: i16, width: i32, pts: Vec<(i32, i32)> },
    Text { layer: i16, texttype: i16, x: i32, y: i32, string: String },
    /// A placement of another cell; `mag` absent means 1.
    Placement { sname: String, x: i32, y: i32, reflect: bool, mag: Option<Real>, rotation: Rotation },
    /// A circle: centre and radius.
    Circle { layer: i16, datatype: i16, x: i32, y: i32, radius: i64 },
}

/// A cell: its name and shapes.
#[derive(Clone, Debug)]
pub struct OCell {
    pub name: String,
    pub shapes: Vec<Shape>,
}

/// What a file holds: the units of its START records, in order, and its cells.
#[derive(Clone, Debug)]
pub struct Layout {
    pub units: Vec<Real>,
    pub cells: Vec<OCell>,
}

/// The characters of each string of a table.
pub open spec fn strs(t: Seq<String>) -> Seq<Seq<char>> {
    t.map_values(|s: String| s@)
}

/// A shape as plain values.
pub enum ShapeV {
    Boundary { layer: i16, datatype: i16, pts: Seq<(i32, i32)> },
    Path { layer: i16, datatype: i16, width: i32, pts: Seq<(i32, i32)> },
    Text { layer: i16, texttype: i16, x: i32, y: i32, string: Seq<char> },
    Placement { sname: Seq<char>, x: i32, y: i32, reflect: bool, mag: Option<Real>, rotation: Rotation },
    Circle { layer: i16, datatype: i16, x: i32, y: i32, radius: i64 },
}

impl View for Shape {
    type V = ShapeV;

    open spec fn view(&self) -> ShapeV {
        match *self {
            Shape::Boundary { layer, datatype, pts } => ShapeV::Boundary { layer, datatype, pts: pts@ },
            Shape::Path { layer, datatype, width, pts } => ShapeV::Path { layer, datatype, width, pts: pts@ },
            Shape::Text { layer, texttype, x, y, string } => ShapeV::Text { layer, texttype, x, y, string: string@ },
            Shape::Placement { sname, x, y, reflect, mag, rotation } => ShapeV::Placement {
                sname: sname@,
                x,
                y,
                reflect,
                mag,
                rotation,
            },
            Shape::Circle { layer, datatype, x, y, radius } => ShapeV::Circle { layer, datatype, x, y, radius },
        }
    }
}

/// A cell as plain values.
pub struct OCellV {
    pub name: Seq<char>,
    pub shapes: Seq<ShapeV>,
}

impl View for OCell {
    type V = OCellV;

    open spec fn view(&self) -> OCellV {
        OCellV { name: self.name@, shapes: self.shapes@.map_values(|s: Shape| s@) }
    }
}

/// A layout as plain values.
pub struct LayoutV {
    pub units: Seq<Real>,
    pub cells: Seq<OCellV>,
}

impl View for Layout {
    type V = LayoutV;

    open spec fn view(&self) -> LayoutV {
        LayoutV { units: self.units@, cells: self.cells@.map_values(|c: OCell| c@) }
    }
}

/// An open cell, if any, as plain values.
pub open spec fn cell_v(c: Option<OCell>) -> Option<OCellV> {
    match c {
        Some(c) => Some(c@),
        None => None,
    }
}

/// A point moved by `(dx, dy)`, wrapping in 32 bits.
pub open spec fn shift(p: (i32, i32), dx: i32, dy: i32) -> (i32, i32) {
    (i32_specs::wrapping_add(p.0, dx), i32_specs::wrapping_add(p.1, dy))
}

/// A point list moved by `(dx, dy)`.
pub open spec fn shift_all(pts: Seq<(i32, i32)>, dx: i32, dy: i32) -> Seq<(i32, i32)> {
    pts.map_values(|p: (i32, i32)| shift(p, dx, dy))
}

/// A shape moved by `(dx, dy)`: every point of it, or its anchor.
pub open spec fn moved(s: Shape, t: Shape, dx: i32, dy: i32) -> bool {
    match (s, t) {
        (Shape::Boundary { layer, datatype, pts }, Shape::Boundary { layer: l2, datatype: d2, pts: p2 }) => layer == l2
            && datatype == d2 && p2@ == shift_all(pts@, dx, dy),
        (Shape::Path { layer, datatype, width, pts }, Shape::Path { layer: l2, datatype: d2, width: w2, pts: p2 }) => layer
            == l2 && datatype == d2 && width == w2 && p2@ == shift_all(pts@, dx, dy),
        (Shape::Text { layer, texttype, x, y, string }, Shape::Text { layer: l2, texttype: t2, x: x2, y: y2, string: s2 }) =>
            layer == l2 && texttype == t2 && (x2, y2) == shift((x, y), dx, dy) && s2@ == string@,
        (
            Shape::Placement { sname, x, y, reflect, mag, rotation },
            Shape::Placement { sname: n2, x: x2, y: y2, reflect: f2, mag: m2, rotation: r2 },
        ) => n2@ == sname@ && (x2, y2) == shift((x, y), dx, dy) && f2 == reflect && m2 == mag && r2 == rotation,
        (Shape::Circle { layer, datatype, x, y, radius }, Shape::Circle { layer: l2, datatype: d2, x: x2, y: y2, radius: r2 }) =>
            layer == l2 && datatype == d2 && (x2, y2) == shift((x, y), dx, dy) && r2 == radius,
        _ => false,
    }
}

/// A shape moved by `(dx, dy)`, as plain values: every point of it, or its anchor.
pub open spec fn translate_v(s: ShapeV, dx: i32, dy: i32) -> ShapeV {
    match s {
        ShapeV::Boundary { layer, datatype, pts } => ShapeV::Boundary { layer, datatype, pts: shift_all(pts, dx, dy) },
        ShapeV::Path { layer, datatype, width, pts } => ShapeV::Path { layer, datatype, width, pts: shift_all(pts, dx, dy) },
        ShapeV::Text { layer, texttype, x, y, string } => ShapeV::Text {
            layer,
            texttype,
            x: shift((x, y), dx, dy).0,
            y: shift((x, y), dx, dy).1,
            string,
        },
        ShapeV::Placement { sname, x, y, reflect, mag, rotation } => ShapeV::Placement {
            sname,
            x: shift((x, y), dx, dy).0,
            y: shift((x, y), dx, dy).1,
            reflect,
            mag,
            rotation,
        },
        ShapeV::Circle { layer, datatype, x, y, radius } => ShapeV::Circle {
            layer,
            datatype,
            x: shift((x, y), dx, dy).0,
            y: shift((x, y), dx, dy).1,
            radius,
        },
    }
}

/// Move every point of a list by `(dx, dy)`.
fn shift_pts(pts: &Vec<(i32, i32)>, dx: i32, dy: i32) -> (out: Vec<(i32, i32)>)
    ensures
        out@ == shift_all(pts@, dx, dy),
{
    let mut out: Vec<(i32, i32)> = Vec::new();
    let mut k: usize = 0;
    while k < pts.len()
        invariant
            k <= pts@.len(),
            out@ == shift_all(pts@.take(k as int), dx, dy),
        decreases pts@.len() - k,
    {
        let (x, y) = pts[k];
        out.push((x.wrapping_add(dx), y.wrapping_add(dy)));
        proof {
            assert(pts@.take(k + 1) =~= pts@.take(k as int).push(pts@[k as int]));
            assert(out@ =~= shift_all(pts@.take(k + 1), dx, dy));
        }
        k += 1;
    }
    proof {
        assert(pts@.take(pts@.len() as int) =~= pts@);
    }
    out
}

/// Translate a shape by `(dx, dy)` — used to expand a repetition.
pub fn translate(el: &Shape, dx: i32, dy: i32) -> (t: Shape)
    ensures
        moved(*el, t, dx, dy),
        t@ == translate_v(el@, dx, dy),
{
    match el {
        Shape::Boundary { layer, datatype, pts } => Shape::Boundary { layer: *layer, datatype: *datatype, pts: shift_pts(pts, dx, dy) },
        Shape::Path { layer, datatype, width, pts } => Shape::Path {
            layer: *layer,
            datatype: *datatype,
            width: *width,
            pts: shift_pts(pts, dx, dy),
        },
        Shape::Text { layer, texttype, x, y, string } => Shape::Text {
            layer: *layer,
            texttype: *texttype,
            x: x.wrapping_add(dx),
            y: y.wrapping_add(dy),
            string: string.clone(),
        },
        Shape::Placement { sname, x, y, reflect, mag, rotation } => Shape::Placement {
            sname: sname.clone(),
            x: x.wrapping_add(dx),
            y: y.wrapping_add(dy),
            reflect: *reflect,
            mag: *mag,
            rotation: *rotation,
        },
        Shape::Circle { layer, datatype, x, y, radius } => Shape::Circle {
            layer: *layer,
            datatype: *datatype,
            x: x.wrapping_add(dx),
            y: y.wrapping_add(dy),
            radius: *radius,
        },
    }
}

// ---- repetitions ------------------------------------------------------------------

/// A count read as a signed 64-bit value, plus two (wrapping).
pub open spec fn count2(v: nat) -> i64 {
    i64_specs::wrapping_add(v as u64 as i64, 2)
}

/// The offsets of an `nx` × `ny` grid, row by row, `f(ix, iy)` each.
pub open spec fn grid(nx: i64, ny: i64, f: spec_fn(int, int) -> (i32, i32)) -> Seq<(i32, i32)> {
    if nx <= 0 || ny <= 0 {
        Seq::empty()
    } else {
        Seq::new((nx * ny) as nat, |k: int| f(k % (nx as int), k / (nx as int)))
    }
}

/// Running sum of the first `k` spacings `us[t] * g` (wrapping in 64 bits).
pub open spec fn cum_u(us: Seq<nat>, g: i64, k: int) -> i64
    decreases k,
{
    if k <= 0 {
        0
    } else {
        i64_specs::wrapping_add(cum_u(us, g, k - 1), i64_specs::wrapping_mul(us[k - 1] as u64 as i64, g))
    }
}

/// Running sum of the first `k` displacements `gs[t] * g` (wrapping in 64 bits), its x
/// (`xaxis`) or its y.
pub open spec fn cum_g(gs: Seq<(int, int)>, g: i64, k: int, xaxis: bool) -> i64
    decreases k,
{
    if k <= 0 {
        0
    } else {
        let c = if xaxis { gs[k - 1].0 } else { gs[k - 1].1 };
        i64_specs::wrapping_add(cum_g(gs, g, k - 1, xaxis), i64_specs::wrapping_mul(c as i64, g))
    }
}

/// The origin, then the running sums of the spacings along x (`xaxis`) or y.
pub open spec fn arbitrary_u(us: Seq<nat>, g: i64, xaxis: bool) -> Seq<(i32, i32)> {
    Seq::new(
        us.len() + 1,
        |k: int| if xaxis { (cum_u(us, g, k) as i32, 0i32) } else { (0i32, cum_u(us, g, k) as i32) },
    )
}

/// The origin, then the running sums of the displacements.
pub open spec fn arbitrary_g(gs: Seq<(int, int)>, g: i64) -> Seq<(i32, i32)> {
    Seq::new(gs.len() + 1, |k: int| (cum_g(gs, g, k, true) as i32, cum_g(gs, g, k, false) as i32))
}

/// An optional grid multiplier: read for the `gridded` forms, else 1.
pub open spec fn grid_at(b: Seq<u8>, i: int, gridded: bool) -> Option<(i64, int)> {
    if gridded {
        match read_u(b, i) {
            Some((v, j)) => Some((v as u64 as i64, j)),
            None => None,
        }
    } else {
        Some((1, i))
    }
}

/// The repetition at `i`, given the modal one: its offsets and the position after it.
/// Type 0 reuses the modal repetition; 1 is a grid, 2 and 3 a row and a column, 4–7
/// arbitrary spacings along x or y (5 and 7 on a grid), 8 a skewed grid, 9 a skewed row,
/// 10 and 11 arbitrary displacements (11 on a grid).
pub open spec fn rep_at(b: Seq<u8>, i: int, modal: Seq<(i32, i32)>) -> Option<(Seq<(i32, i32)>, int)> {
    match read_u(b, i) {
        None => None,
        Some((t, j)) => rep_body(b, j, t, modal),
    }
}

/// The repetition of type `t` whose parameters start at `j`.
pub open spec fn rep_body(b: Seq<u8>, j: int, t: nat, modal: Seq<(i32, i32)>) -> Option<(Seq<(i32, i32)>, int)> {
    if t == 0 {
            Some((modal, j))
        } else if t == 1 {
            match u_list(b, j, 4) {
                Some((v, e)) => {
                    let (dx, dy) = (v[2] as u64 as i64, v[3] as u64 as i64);
                    Some((grid(count2(v[0]), count2(v[1]), |ix: int, iy: int| skew_at(ix, iy, dx, 0, 0, dy)), e))
                },
                None => None,
            }
        } else if t == 2 || t == 3 {
            match u_list(b, j, 2) {
                Some((v, e)) => {
                    let d = v[1] as u64 as i64;
                    if t == 2 {
                        Some((grid(count2(v[0]), 1, |ix: int, iy: int| skew_at(ix, iy, d, 0, 0, 0)), e))
                    } else {
                        Some((grid(1, count2(v[0]), |ix: int, iy: int| skew_at(ix, iy, 0, 0, 0, d)), e))
                    }
                },
                None => None,
            }
        } else if 4 <= t <= 7 {
            match read_u(b, j) {
                None => None,
                Some((n, k)) => match grid_at(b, k, t == 5 || t == 7) {
                    None => None,
                    Some((g, m)) => match u_list(b, m, n + 1) {
                        Some((us, e)) => Some((arbitrary_u(us, g, t <= 5), e)),
                        None => None,
                    },
                },
            }
        } else if t == 8 {
            match u_list(b, j, 2) {
                None => None,
                Some((v, k)) => match g_list(b, k, 2) {
                    Some((gs, e)) => {
                        let (ax, ay, bx, by) = (gs[0].0 as i64, gs[0].1 as i64, gs[1].0 as i64, gs[1].1 as i64);
                        Some((grid(count2(v[0]), count2(v[1]), |ix: int, iy: int| skew_at(ix, iy, ax, ay, bx, by)), e))
                    },
                    None => None,
                },
            }
        } else if t == 9 {
            match read_u(b, j) {
                None => None,
                Some((n, k)) => match read_g(b, k) {
                    Some((gv, e)) => {
                        let (gx, gy) = (gv.0 as i64, gv.1 as i64);
                        Some((grid(count2(n), 1, |ix: int, iy: int| skew_at(ix, iy, gx, gy, 0, 0)), e))
                    },
                    None => None,
                },
            }
        } else if t == 10 || t == 11 {
            match read_u(b, j) {
                None => None,
                Some((n, k)) => match grid_at(b, k, t == 11) {
                    None => None,
                    Some((g, m)) => match g_list(b, m, n + 1) {
                        Some((gs, e)) => Some((arbitrary_g(gs, g), e)),
                        None => None,
                    },
                },
            }
        } else {
            None
        }
}

/// The offset `ix * a + iy * b` of a skewed grid, in wrapping 64-bit arithmetic, narrowed
/// to 32 bits.
pub open spec fn skew_at(ix: int, iy: int, ax: i64, ay: i64, bx: i64, by: i64) -> (i32, i32) {
    (
        i64_specs::wrapping_add(i64_specs::wrapping_mul(ix as i64, ax), i64_specs::wrapping_mul(iy as i64, bx)) as i32,
        i64_specs::wrapping_add(i64_specs::wrapping_mul(ix as i64, ay), i64_specs::wrapping_mul(iy as i64, by)) as i32,
    )
}

/// The offsets of an `nx` × `ny` skewed grid.
fn grid_offsets(nx: i64, ny: i64, ax: i64, ay: i64, bx: i64, by: i64) -> (v: Vec<(i32, i32)>)
    ensures
        v@ == grid(
            nx,
            ny,
            |ix: int, iy: int| skew_at(ix, iy, ax, ay, bx, by),
        ),
{
    let ghost f = |ix: int, iy: int| skew_at(ix, iy, ax, ay, bx, by);
    let mut v: Vec<(i32, i32)> = Vec::new();
    if nx <= 0 || ny <= 0 {
        proof {
            assert(v@ =~= grid(nx, ny, f));
        }
        return v;
    }
    let mut iy: i64 = 0;
    while iy < ny
        invariant
            0 < nx,
            0 <= iy <= ny,
            v@.len() == iy * nx,
            forall|k: int| 0 <= k < v@.len() ==> #[trigger] v@[k] == skew_at(k % (nx as int), k / (nx as int), ax, ay, bx, by),
        decreases ny - iy,
    {
        let mut ix: i64 = 0;
        while ix < nx
            invariant
                0 < nx,
                0 <= iy < ny,
                0 <= ix <= nx,
                v@.len() == iy * nx + ix,
                forall|k: int| 0 <= k < v@.len() ==> #[trigger] v@[k] == skew_at(k % (nx as int), k / (nx as int), ax, ay, bx, by),
            decreases nx - ix,
        {
            let px = ix.wrapping_mul(ax).wrapping_add(iy.wrapping_mul(bx)) as i32;
            let py = ix.wrapping_mul(ay).wrapping_add(iy.wrapping_mul(by)) as i32;
            proof {
                let k = iy * nx + ix;
                lemma_fundamental_div_mod_converse(k as int, nx as int, iy as int, ix as int);
                assert(skew_at(ix as int, iy as int, ax, ay, bx, by) == (px, py));
            }
            v.push((px, py));
            ix += 1;
        }
        proof {
            assert((iy + 1) * nx == iy * nx + nx) by (nonlinear_arith);
        }
        iy += 1;
    }
    proof {
        assert(nx * ny == ny * nx) by (nonlinear_arith);
        assert(v@ =~= grid(nx, ny, f));
    }
    v
}

proof fn lemma_cum_u_prefix(us: Seq<nat>, v: nat, g: i64, t: int)
    requires
        t <= us.len(),
    ensures
        cum_u(us.push(v), g, t) == cum_u(us, g, t),
    decreases t,
{
    if t > 0 {
        lemma_cum_u_prefix(us, v, g, t - 1);
    }
}

proof fn lemma_cum_g_prefix(gs: Seq<(int, int)>, v: (int, int), g: i64, t: int, xaxis: bool)
    requires
        t <= gs.len(),
    ensures
        cum_g(gs.push(v), g, t, xaxis) == cum_g(gs, g, t, xaxis),
    decreases t,
{
    if t > 0 {
        lemma_cum_g_prefix(gs, v, g, t - 1, xaxis);
    }
}

/// Read `n + 1` spacings and return the origin followed by their running sums (times
/// `g`) along x (`xaxis`) or y.
fn read_spacings(b: &[u8], i: &mut usize, n: u64, g: i64, xaxis: bool) -> (r: Result<Vec<(i32, i32)>, OasisError>)
    ensures
        match r {
            Ok(v) => u_list(b@, *old(i) as int, (n + 1) as nat) matches Some((us, e)) && e == *final(i) && v@ == arbitrary_u(us, g, xaxis),
            Err(_) => u_list(b@, *old(i) as int, (n + 1) as nat) is None,
        },
{
    let ghost i0 = *i as int;
    let ghost mut us: Seq<nat> = Seq::empty();
    let mut out: Vec<(i32, i32)> = Vec::new();
    out.push((0, 0));
    let mut acc: i64 = 0;
    let total: u128 = n as u128 + 1;
    let mut k: u128 = 0;
    proof {
        assert(out@ =~= arbitrary_u(us, g, xaxis));
    }
    while k < total
        invariant
            k <= total,
            total == n + 1,
            us.len() == k,
            i0 == *old(i) as int,
            u_list(b@, i0, k as nat) == Some((us, *i as int)),
            acc == cum_u(us, g, k as int),
            out@ == arbitrary_u(us, g, xaxis),
        decreases total - k,
    {
        let ghost before = *i as int;
        let v = match ru(b, i) {
            Ok(v) => v,
            Err(e) => {
                proof {
                    assert(u_list(b@, i0, (k + 1) as nat) is None);
                    lemma_u_list_none(b@, i0, (k + 1) as nat, (n + 1) as nat);
                }
                return Err(e);
            },
        };
        acc = acc.wrapping_add((v as i64).wrapping_mul(g));
        let p: (i32, i32) = if xaxis { (acc as i32, 0) } else { (0, acc as i32) };
        let ghost old_us = us;
        proof {
            us = us.push(v as nat);
            assert forall|t: int| 0 <= t <= k implies cum_u(us, g, t) == #[trigger] cum_u(old_us, g, t) by {
                lemma_cum_u_prefix(old_us, v as nat, g, t);
            }
        }
        out.push(p);
        k += 1;
        proof {
            assert(out@ =~= arbitrary_u(us, g, xaxis));
        }
    }
    Ok(out)
}

/// Read `n + 1` displacements and return the origin followed by their running sums
/// (times `g`).
fn read_displacements(b: &[u8], i: &mut usize, n: u64, g: i64) -> (r: Result<Vec<(i32, i32)>, OasisError>)
    ensures
        match r {
            Ok(v) => g_list(b@, *old(i) as int, (n + 1) as nat) matches Some((gs, e)) && e == *final(i) && v@ == arbitrary_g(gs, g),
            Err(_) => g_list(b@, *old(i) as int, (n + 1) as nat) is None,
        },
{
    let ghost i0 = *i as int;
    let ghost mut gs: Seq<(int, int)> = Seq::empty();
    let mut out: Vec<(i32, i32)> = Vec::new();
    out.push((0, 0));
    let mut cx: i64 = 0;
    let mut cy: i64 = 0;
    let total: u128 = n as u128 + 1;
    let mut k: u128 = 0;
    proof {
        assert(out@ =~= arbitrary_g(gs, g));
    }
    while k < total
        invariant
            k <= total,
            total == n + 1,
            gs.len() == k,
            i0 == *old(i) as int,
            g_list(b@, i0, k as nat) == Some((gs, *i as int)),
            cx == cum_g(gs, g, k as int, true),
            cy == cum_g(gs, g, k as int, false),
            out@ == arbitrary_g(gs, g),
        decreases total - k,
    {
        let d = match read_gdelta(b, i) {
            Ok(d) => d,
            Err(e) => {
                proof {
                    assert(g_list(b@, i0, (k + 1) as nat) is None);
                    lemma_g_list_none(b@, i0, (k + 1) as nat, (n + 1) as nat);
                }
                return Err(e);
            },
        };
        cx = cx.wrapping_add(d.0.wrapping_mul(g));
        cy = cy.wrapping_add(d.1.wrapping_mul(g));
        let ghost old_gs = gs;
        proof {
            gs = gs.push((d.0 as int, d.1 as int));
            assert forall|t: int| 0 <= t <= k implies cum_g(gs, g, t, true) == #[trigger] cum_g(old_gs, g, t, true) by {
                lemma_cum_g_prefix(old_gs, (d.0 as int, d.1 as int), g, t, true);
            }
            assert forall|t: int| 0 <= t <= k implies cum_g(gs, g, t, false) == #[trigger] cum_g(old_gs, g, t, false) by {
                lemma_cum_g_prefix(old_gs, (d.0 as int, d.1 as int), g, t, false);
            }
        }
        out.push((cx as i32, cy as i32));
        k += 1;
        proof {
            assert(out@ =~= arbitrary_g(gs, g));
        }
    }
    Ok(out)
}

/// A copy of a point list.
fn copy_points(v: &Vec<(i32, i32)>) -> (w: Vec<(i32, i32)>)
    ensures
        w@ == v@,
{
    crate::gds::copy_pts(v)
}

/// The parameters of a grid repetition (type 1) at `*i`.
fn rep_grid(b: &[u8], i: &mut usize) -> (r: Result<Vec<(i32, i32)>, OasisError>)
    ensures
        match r {
            Ok(v) => rep_body(b@, *old(i) as int, 1, Seq::empty()) == Some((v@, *final(i) as int)),
            Err(_) => rep_body(b@, *old(i) as int, 1, Seq::empty()) is None,
        },
{
    let ghost j = *i as int;
    proof {
        reveal_with_fuel(u_list, 5);
    }
    let a = ru(b, i)?;
    let c = ru(b, i)?;
    let dx = ru(b, i)?;
    let dy = ru(b, i)?;
    let ghost v = seq![a as nat, c as nat, dx as nat, dy as nat];
    proof {
        assert(u_list(b@, j, 4) == Some((v, *i as int)));
    }
    Ok(grid_offsets((a as i64).wrapping_add(2), (c as i64).wrapping_add(2), dx as i64, 0, 0, dy as i64))
}

/// The parameters of a row (type 2) or column (type 3) repetition at `*i`.
fn rep_line(b: &[u8], i: &mut usize, t: u64) -> (r: Result<Vec<(i32, i32)>, OasisError>)
    requires
        t == 2 || t == 3,
    ensures
        match r {
            Ok(v) => rep_body(b@, *old(i) as int, t as nat, Seq::empty()) == Some((v@, *final(i) as int)),
            Err(_) => rep_body(b@, *old(i) as int, t as nat, Seq::empty()) is None,
        },
{
    let ghost j = *i as int;
    proof {
        reveal_with_fuel(u_list, 3);
    }
    let a = ru(b, i)?;
    let d = ru(b, i)?;
    proof {
        assert(u_list(b@, j, 2) == Some((seq![a as nat, d as nat], *i as int)));
    }
    if t == 2 {
        Ok(grid_offsets((a as i64).wrapping_add(2), 1, d as i64, 0, 0, 0))
    } else {
        Ok(grid_offsets(1, (a as i64).wrapping_add(2), 0, 0, 0, d as i64))
    }
}

/// The parameters of an arbitrary-spacing repetition (types 4–7) at `*i`.
fn rep_spacing(b: &[u8], i: &mut usize, t: u64) -> (r: Result<Vec<(i32, i32)>, OasisError>)
    requires
        4 <= t <= 7,
    ensures
        match r {
            Ok(v) => rep_body(b@, *old(i) as int, t as nat, Seq::empty()) == Some((v@, *final(i) as int)),
            Err(_) => rep_body(b@, *old(i) as int, t as nat, Seq::empty()) is None,
        },
{
    let n = ru(b, i)?;
    let g: i64 = if t == 5 || t == 7 { ru(b, i)? as i64 } else { 1 };
    read_spacings(b, i, n, g, t <= 5)
}

/// The parameters of a skewed grid (type 8) at `*i`.
fn rep_skew(b: &[u8], i: &mut usize) -> (r: Result<Vec<(i32, i32)>, OasisError>)
    ensures
        match r {
            Ok(v) => rep_body(b@, *old(i) as int, 8, Seq::empty()) == Some((v@, *final(i) as int)),
            Err(_) => rep_body(b@, *old(i) as int, 8, Seq::empty()) is None,
        },
{
    let ghost j = *i as int;
    proof {
        reveal_with_fuel(u_list, 3);
        reveal_with_fuel(g_list, 3);
    }
    let a = ru(b, i)?;
    let c = ru(b, i)?;
    let ghost k = *i as int;
    proof {
        assert(u_list(b@, j, 2) == Some((seq![a as nat, c as nat], k)));
    }
    let p = read_gdelta(b, i)?;
    let q = read_gdelta(b, i)?;
    proof {
        assert(g_list(b@, k, 2) == Some((seq![(p.0 as int, p.1 as int), (q.0 as int, q.1 as int)], *i as int)));
    }
    Ok(grid_offsets((a as i64).wrapping_add(2), (c as i64).wrapping_add(2), p.0, p.1, q.0, q.1))
}

/// The parameters of a skewed row (type 9) at `*i`.
fn rep_skew_row(b: &[u8], i: &mut usize) -> (r: Result<Vec<(i32, i32)>, OasisError>)
    ensures
        match r {
            Ok(v) => rep_body(b@, *old(i) as int, 9, Seq::empty()) == Some((v@, *final(i) as int)),
            Err(_) => rep_body(b@, *old(i) as int, 9, Seq::empty()) is None,
        },
{
    let a = ru(b, i)?;
    let p = read_gdelta(b, i)?;
    Ok(grid_offsets((a as i64).wrapping_add(2), 1, p.0, p.1, 0, 0))
}

/// The parameters of an arbitrary-displacement repetition (types 10 and 11) at `*i`.
fn rep_disp(b: &[u8], i: &mut usize, t: u64) -> (r: Result<Vec<(i32, i32)>, OasisError>)
    requires
        t == 10 || t == 11,
    ensures
        match r {
            Ok(v) => rep_body(b@, *old(i) as int, t as nat, Seq::empty()) == Some((v@, *final(i) as int)),
            Err(_) => rep_body(b@, *old(i) as int, t as nat, Seq::empty()) is None,
        },
{
    let n = ru(b, i)?;
    let g: i64 = if t == 11 { ru(b, i)? as i64 } else { 1 };
    read_displacements(b, i, n, g)
}

/// Read a repetition at `*i`: the offsets to stamp a shape at. Type 0 reuses the modal
/// repetition; every other type also becomes the modal one.
pub fn read_repetition(b: &[u8], i: &mut usize, modal: &mut Vec<(i32, i32)>) -> (r: Result<Vec<(i32, i32)>, OasisError>)
    ensures
        match r {
            Ok(v) => rep_at(b@, *old(i) as int, old(modal)@) == Some((v@, *final(i) as int)) && final(modal)@ == v@,
            Err(_) => rep_at(b@, *old(i) as int, old(modal)@) is None,
        },
{
    let ghost m = modal@;
    let rtype = ru(b, i)?;
    let reps: Vec<(i32, i32)> = if rtype == 0 {
        return Ok(copy_points(modal));
    } else if rtype == 1 {
        rep_grid(b, i)?
    } else if rtype == 2 || rtype == 3 {
        rep_line(b, i, rtype)?
    } else if 4 <= rtype && rtype <= 7 {
        rep_spacing(b, i, rtype)?
    } else if rtype == 8 {
        rep_skew(b, i)?
    } else if rtype == 9 {
        rep_skew_row(b, i)?
    } else if rtype == 10 || rtype == 11 {
        rep_disp(b, i, rtype)?
    } else {
        return Err(crate::oasis::oasis_err_num("repetition type ", rtype, " not supported"));
    };
    *modal = copy_points(&reps);
    Ok(reps)
}

/// A repetition ends after its start and within the input.
pub proof fn lemma_rep_bounds(b: Seq<u8>, i: int, modal: Seq<(i32, i32)>)
    ensures
        rep_at(b, i, modal) matches Some((_, n)) ==> 0 <= i < n <= b.len(),
{
    lemma_read_u_bounds(b, i);
    if let Some((t, j)) = read_u(b, i) {
        lemma_lists_bounds(b, j, 4);
        lemma_lists_bounds(b, j, 2);
        lemma_read_u_bounds(b, j);
        if let Some((n, k)) = read_u(b, j) {
            lemma_read_g_bounds(b, k);
            lemma_read_u_bounds(b, k);
            let m = if t == 5 || t == 7 || t == 11 {
                match read_u(b, k) { Some((_, m)) => m, None => k }
            } else {
                k
            };
            lemma_lists_bounds(b, m, n + 1);
        }
        if let Some((_, k)) = u_list(b, j, 2) {
            lemma_lists_bounds(b, k, 2);
        }
    }
}

// ---- readers that state their progress --------------------------------------------

fn ru_f(b: &[u8], i: &mut usize) -> (r: Result<u64, OasisError>)
    ensures
        match r {
            Ok(v) => read_u(b@, *old(i) as int) == Some((v as nat, *final(i) as int)) && *old(i) < *final(i) <= b@.len(),
            Err(_) => read_u(b@, *old(i) as int) is None,
        },
{
    proof {
        lemma_read_u_bounds(b@, *i as int);
    }
    ru(b, i)
}

fn rs_f(b: &[u8], i: &mut usize) -> (r: Result<i64, OasisError>)
    ensures
        match r {
            Ok(v) => read_s(b@, *old(i) as int) == Some((v as int, *final(i) as int)) && *old(i) < *final(i) <= b@.len(),
            Err(_) => read_s(b@, *old(i) as int) is None,
        },
{
    proof {
        lemma_read_u_bounds(b@, *i as int);
    }
    rs(b, i)
}

fn rstr_f(b: &[u8], i: &mut usize) -> (r: Result<String, OasisError>)
    ensures
        match r {
            Ok(s) => read_str(b@, *old(i) as int) matches Some((bytes, n)) && *final(i) == n && s@ == utf8_text(bytes) && *old(i)
                < *final(i) <= b@.len(),
            Err(_) => read_str(b@, *old(i) as int) is None,
        },
{
    proof {
        lemma_read_str_bounds(b@, *i as int);
    }
    rstr(b, i)
}

fn plist_f(b: &[u8], i: &mut usize, closed: bool) -> (r: Result<Vec<(i64, i64)>, OasisError>)
    ensures
        match r {
            Ok(v) => plist_at(b@, *old(i) as int, closed) matches Some((d, n)) && same_deltas(v@, d) && *final(i) == n && *old(i)
                < *final(i) <= b@.len(),
            Err(_) => plist_at(b@, *old(i) as int, closed) is None,
        },
{
    proof {
        lemma_plist_bounds(b@, *i as int, closed);
    }
    read_point_list(b, i, closed)
}

fn real_f(b: &[u8], i: &mut usize) -> (r: Result<Real, OasisError>)
    ensures
        match r {
            Ok(v) => read_real_spec(b@, *old(i) as int) == Some((v, *final(i) as int)) && *old(i) < *final(i) <= b@.len(),
            Err(_) => read_real_spec(b@, *old(i) as int) is None,
        },
{
    proof {
        lemma_real_bounds(b@, *i as int);
    }
    read_real(b, i)
}

fn rep_f(b: &[u8], i: &mut usize, modal: &mut Vec<(i32, i32)>) -> (r: Result<Vec<(i32, i32)>, OasisError>)
    ensures
        match r {
            Ok(v) => rep_at(b@, *old(i) as int, old(modal)@) == Some((v@, *final(i) as int)) && final(modal)@ == v@ && *old(i)
                < *final(i) <= b@.len(),
            Err(_) => rep_at(b@, *old(i) as int, old(modal)@) is None,
        },
{
    proof {
        lemma_rep_bounds(b@, *i as int, modal@);
    }
    read_repetition(b, i, modal)
}

// ---- modal state --------------------------------------------------------------------

/// The modal variables that geometry and text records share: what a record leaves out
/// it takes from here, and what it states it leaves here for the next one.
#[derive(Clone, Copy, Debug)]
pub struct Modal {
    pub layer: i16,
    pub datatype: i16,
    pub halfwidth: i64,
    pub geom_w: i64,
    pub geom_h: i64,
    pub x: i32,
    pub y: i32,
    pub textlayer: i16,
    pub texttype: i16,
    pub text_x: i32,
    pub text_y: i32,
}

/// The bit of weight `w` of an info byte.
pub open spec fn bit(info: u8, w: int) -> bool {
    (info as int / w) % 2 == 1
}

/// The text modal variables are the same in both states.
pub open spec fn text_same(m0: Modal, m1: Modal) -> bool {
    m1.textlayer == m0.textlayer && m1.texttype == m0.texttype && m1.text_x == m0.text_x && m1.text_y == m0.text_y
}

/// The geometry modal variables are the same in both states.
pub open spec fn geom_same(m0: Modal, m1: Modal) -> bool {
    m1.layer == m0.layer && m1.datatype == m0.datatype && m1.halfwidth == m0.halfwidth && m1.geom_w == m0.geom_w
        && m1.geom_h == m0.geom_h && m1.x == m0.x && m1.y == m0.y
}

/// A modal variable is kept when its info bit is clear.
pub open spec fn kept<T>(present: bool, before: T, after: T) -> bool {
    !present ==> after == before
}

/// The repetition part of a record: with the bit set, the offsets are the (new) modal
/// repetition; without it there are none and the modal one is kept.
pub open spec fn reps_ok(present: bool, reps: Seq<(i32, i32)>, before: Seq<(i32, i32)>, after: Seq<(i32, i32)>) -> bool {
    if present {
        reps == after
    } else {
        reps.len() == 0 && after == before
    }
}

/// The box with corner `(x, y)` and extent `(w, h)` (added in wrapping 32-bit arithmetic),
/// normalized.
pub open spec fn box_rect(x: i32, y: i32, w: i64, h: i64) -> Rect {
    let x1 = i32_specs::wrapping_add(x, w as i32);
    let y1 = i32_specs::wrapping_add(y, h as i32);
    Rect {
        x0: imin(x as int, x1 as int) as i32,
        y0: imin(y as int, y1 as int) as i32,
        x1: imax(x as int, x1 as int) as i32,
        y1: imax(y as int, y1 as int) as i32,
    }
}

/// An optional unsigned field: when absent nothing is read.
pub open spec fn opt_u(b: Seq<u8>, i: int, present: bool) -> Option<(Option<nat>, int)> {
    if !present {
        Some((None, i))
    } else {
        match read_u(b, i) {
            Some((v, j)) => Some((Some(v), j)),
            None => None,
        }
    }
}

/// An optional signed field: when absent nothing is read.
pub open spec fn opt_s(b: Seq<u8>, i: int, present: bool) -> Option<(Option<int>, int)> {
    if !present {
        Some((None, i))
    } else {
        match read_s(b, i) {
            Some((v, j)) => Some((Some(v), j)),
            None => None,
        }
    }
}

/// An optional read value as a mathematical integer.
pub open spec fn nat_opt(o: Option<u64>) -> Option<nat> {
    match o {
        Some(v) => Some(v as nat),
        None => None,
    }
}

/// An optional read signed value as a mathematical integer.
pub open spec fn int_opt(o: Option<i64>) -> Option<int> {
    match o {
        Some(v) => Some(v as int),
        None => None,
    }
}

/// A read field narrowed to 16 bits, else the modal value.
pub open spec fn or_i16(o: Option<nat>, d: i16) -> i16 {
    match o {
        Some(v) => v as i16,
        None => d,
    }
}

/// A read field as 64 bits, else the modal value.
pub open spec fn or_i64(o: Option<nat>, d: i64) -> i64 {
    match o {
        Some(v) => v as i64,
        None => d,
    }
}

/// A read coordinate narrowed to 32 bits, else the modal value.
pub open spec fn or_i32(o: Option<int>, d: i32) -> i32 {
    match o {
        Some(v) => v as i32,
        None => d,
    }
}

/// What reading a geometry record's body gives: its layer, datatype and points, the
/// stamping offsets, the modal state and repetition after it, and where it ends.
pub struct ShapeRead {
    pub layer: i16,
    pub datatype: i16,
    pub pts: Seq<(i32, i32)>,
    pub reps: Seq<(i32, i32)>,
    pub modal: Modal,
    pub rep: Seq<(i32, i32)>,
    pub end: int,
}

/// The RECTANGLE record body at `i` (info byte `SWHXYRDL`), read against the modal state
/// `m` and modal repetition `rep`; `None` where a field runs past the end.
pub open spec fn rect_read(b: Seq<u8>, i: int, m: Modal, rep: Seq<(i32, i32)>) -> Option<ShapeRead> {
    if i < 0 || i >= b.len() {
        None
    } else {
        let info = b[i];
        match opt_u(b, i + 1, bit(info, 1)) {
            None => None,
            Some((l, i1)) => match opt_u(b, i1, bit(info, 2)) {
                None => None,
                Some((d, i2)) => match opt_u(b, i2, bit(info, 64)) {
                    None => None,
                    Some((w, i3)) => match opt_u(b, i3, bit(info, 32)) {
                        None => None,
                        Some((h, i4)) => match opt_s(b, i4, bit(info, 16)) {
                            None => None,
                            Some((x, i5)) => match opt_s(b, i5, bit(info, 8)) {
                                None => None,
                                Some((y, i6)) => {
                                    let rr = if bit(info, 4) { rep_at(b, i6, rep) } else { Some((Seq::empty(), i6)) };
                                    match rr {
                                        None => None,
                                        Some((reps, i7)) => {
                                            let gw = or_i64(w, m.geom_w);
                                            let gh = match h {
                                                Some(v) => v as i64,
                                                None => if bit(info, 128) { gw } else { m.geom_h },
                                            };
                                            let m1 = Modal {
                                                layer: or_i16(l, m.layer),
                                                datatype: or_i16(d, m.datatype),
                                                halfwidth: m.halfwidth,
                                                geom_w: gw,
                                                geom_h: gh,
                                                x: or_i32(x, m.x),
                                                y: or_i32(y, m.y),
                                                textlayer: m.textlayer,
                                                texttype: m.texttype,
                                                text_x: m.text_x,
                                                text_y: m.text_y,
                                            };
                                            Some(
                                                ShapeRead {
                                                    layer: m1.layer,
                                                    datatype: m1.datatype,
                                                    pts: boundary_of(box_rect(m1.x, m1.y, gw, gh)),
                                                    reps,
                                                    modal: m1,
                                                    rep: if bit(info, 4) { reps } else { rep },
                                                    end: i7,
                                                },
                                            )
                                        },
                                    }
                                },
                            },
                        },
                    },
                },
            },
        }
    }
}

/// The POLYGON record body at `i` (info byte `00PXYRDL`), read against the modal state
/// `m` and modal repetition `rep`: the ring from the position through the point list's
/// deltas, closed; `None` where a field runs past the end.
pub open spec fn poly_read(b: Seq<u8>, i: int, m: Modal, rep: Seq<(i32, i32)>) -> Option<ShapeRead> {
    if i < 0 || i >= b.len() {
        None
    } else {
        let info = b[i];
        match opt_u(b, i + 1, bit(info, 1)) {
            None => None,
            Some((l, i1)) => match opt_u(b, i1, bit(info, 2)) {
                None => None,
                Some((dt, i2)) => {
                    let pl = if bit(info, 32) { plist_at(b, i2, true) } else { Some((Seq::empty(), i2)) };
                    match pl {
                        None => None,
                        Some((d, i3)) => match opt_s(b, i3, bit(info, 16)) {
                            None => None,
                            Some((x, i4)) => match opt_s(b, i4, bit(info, 8)) {
                                None => None,
                                Some((y, i5)) => {
                                    let rr = if bit(info, 4) { rep_at(b, i5, rep) } else { Some((Seq::empty(), i5)) };
                                    match rr {
                                        None => None,
                                        Some((reps, i6)) => {
                                            let m1 = Modal {
                                                layer: or_i16(l, m.layer),
                                                datatype: or_i16(dt, m.datatype),
                                                halfwidth: m.halfwidth,
                                                geom_w: m.geom_w,
                                                geom_h: m.geom_h,
                                                x: or_i32(x, m.x),
                                                y: or_i32(y, m.y),
                                                textlayer: m.textlayer,
                                                texttype: m.texttype,
                                                text_x: m.text_x,
                                                text_y: m.text_y,
                                            };
                                            Some(
                                                ShapeRead {
                                                    layer: m1.layer,
                                                    datatype: m1.datatype,
                                                    pts: close_pts(walk_from(m1.x, m1.y, d)),
                                                    reps,
                                                    modal: m1,
                                                    rep: if bit(info, 4) { reps } else { rep },
                                                    end: i6,
                                                },
                                            )
                                        },
                                    }
                                },
                            },
                        },
                    }
                },
            },
        }
    }
}

/// What reading any geometry record's body gives: the shape (none for a placement naming
/// no cell), the stamping offsets, the modal state, repetition and text after it, and
/// where it ends.
pub struct GeoRead {
    pub shape: Option<ShapeV>,
    pub reps: Seq<(i32, i32)>,
    pub modal: Modal,
    pub rep: Seq<(i32, i32)>,
    pub text: Seq<char>,
    pub end: int,
}

/// A RECTANGLE or POLYGON reading as a geometry reading.
pub open spec fn geo_of(r: Option<ShapeRead>, text: Seq<char>) -> Option<GeoRead> {
    match r {
        Some(sr) => Some(
            GeoRead {
                shape: Some(ShapeV::Boundary { layer: sr.layer, datatype: sr.datatype, pts: sr.pts }),
                reps: sr.reps,
                modal: sr.modal,
                rep: sr.rep,
                text,
                end: sr.end,
            },
        ),
        None => None,
    }
}

/// The repetition field: read when present, else none.
pub open spec fn opt_rep(b: Seq<u8>, i: int, present: bool, rep: Seq<(i32, i32)>) -> Option<(Seq<(i32, i32)>, int)> {
    if present {
        rep_at(b, i, rep)
    } else {
        Some((Seq::empty(), i))
    }
}

/// A modal repetition after a record: the one it read, else unchanged.
pub open spec fn rep_after(present: bool, reps: Seq<(i32, i32)>, rep: Seq<(i32, i32)>) -> Seq<(i32, i32)> {
    if present {
        reps
    } else {
        rep
    }
}

/// A modal state with new geometry fields.
pub open spec fn with_geom(m: Modal, layer: i16, datatype: i16, halfwidth: i64, geom_w: i64, geom_h: i64, x: i32, y: i32) -> Modal {
    Modal {
        layer,
        datatype,
        halfwidth,
        geom_w,
        geom_h,
        x,
        y,
        textlayer: m.textlayer,
        texttype: m.texttype,
        text_x: m.text_x,
        text_y: m.text_y,
    }
}

/// A PATH's extension scheme byte (when present) and its explicit values, skipped.
pub open spec fn ext_skip(b: Seq<u8>, j: int, present: bool) -> Option<int> {
    if !present {
        Some(j)
    } else if j < 0 || j >= b.len() {
        None
    } else {
        let e = b[j];
        let a = if (e / 4) % 4 == 3 {
            match read_s(b, j + 1) {
                Some((_, k)) => Some(k),
                None => None,
            }
        } else {
            Some(j + 1)
        };
        match a {
            None => None,
            Some(k) => if e % 4 == 3 {
                match read_s(b, k) {
                    Some((_, k2)) => Some(k2),
                    None => None,
                }
            } else {
                Some(k)
            },
        }
    }
}

/// The PATH record body at `i` (info byte `EWPXYRDL`): an open centre line from the
/// position through the point list's deltas, twice the half-width wide.
pub open spec fn path_read(b: Seq<u8>, i: int, m: Modal, rep: Seq<(i32, i32)>, text: Seq<char>) -> Option<GeoRead> {
    if i < 0 || i >= b.len() {
        None
    } else {
        let info = b[i];
        match opt_u(b, i + 1, bit(info, 1)) {
            None => None,
            Some((l, i1)) => match opt_u(b, i1, bit(info, 2)) {
                None => None,
                Some((d, i2)) => match opt_u(b, i2, bit(info, 64)) {
                    None => None,
                    Some((hw, i3)) => match ext_skip(b, i3, bit(info, 128)) {
                        None => None,
                        Some(i4) => match (if bit(info, 32) { plist_at(b, i4, false) } else { Some((Seq::empty(), i4)) }) {
                            None => None,
                            Some((dl, i5)) => match opt_s(b, i5, bit(info, 16)) {
                                None => None,
                                Some((x, i6)) => match opt_s(b, i6, bit(info, 8)) {
                                    None => None,
                                    Some((y, i7)) => match opt_rep(b, i7, bit(info, 4), rep) {
                                        None => None,
                                        Some((reps, i8)) => {
                                            let m1 = with_geom(
                                                m,
                                                or_i16(l, m.layer),
                                                or_i16(d, m.datatype),
                                                or_i64(hw, m.halfwidth),
                                                m.geom_w,
                                                m.geom_h,
                                                or_i32(x, m.x),
                                                or_i32(y, m.y),
                                            );
                                            Some(
                                                GeoRead {
                                                    shape: Some(
                                                        ShapeV::Path {
                                                            layer: m1.layer,
                                                            datatype: m1.datatype,
                                                            width: i64_specs::wrapping_mul(2, m1.halfwidth) as i32,
                                                            pts: walk_from(m1.x, m1.y, dl),
                                                        },
                                                    ),
                                                    reps,
                                                    modal: m1,
                                                    rep: rep_after(bit(info, 4), reps, rep),
                                                    text,
                                                    end: i8,
                                                },
                                            )
                                        },
                                    },
                                },
                            },
                        },
                    },
                },
            },
        }
    }
}

/// The CIRCLE record body at `i` (info byte `00rXYRDL`): the radius (present, else the
/// half-width, which it becomes) at the position.
pub open spec fn circle_read(b: Seq<u8>, i: int, m: Modal, rep: Seq<(i32, i32)>, text: Seq<char>) -> Option<GeoRead> {
    if i < 0 || i >= b.len() {
        None
    } else {
        let info = b[i];
        match opt_u(b, i + 1, bit(info, 1)) {
            None => None,
            Some((l, i1)) => match opt_u(b, i1, bit(info, 2)) {
                None => None,
                Some((d, i2)) => match opt_u(b, i2, bit(info, 32)) {
                    None => None,
                    Some((r, i3)) => match opt_s(b, i3, bit(info, 16)) {
                        None => None,
                        Some((x, i4)) => match opt_s(b, i4, bit(info, 8)) {
                            None => None,
                            Some((y, i5)) => match opt_rep(b, i5, bit(info, 4), rep) {
                                None => None,
                                Some((reps, i6)) => {
                                    let m1 = with_geom(
                                        m,
                                        or_i16(l, m.layer),
                                        or_i16(d, m.datatype),
                                        or_i64(r, m.halfwidth),
                                        m.geom_w,
                                        m.geom_h,
                                        or_i32(x, m.x),
                                        or_i32(y, m.y),
                                    );
                                    Some(
                                        GeoRead {
                                            shape: Some(
                                                ShapeV::Circle { layer: m1.layer, datatype: m1.datatype, x: m1.x, y: m1.y, radius: m1.halfwidth },
                                            ),
                                            reps,
                                            modal: m1,
                                            rep: rep_after(bit(info, 4), reps, rep),
                                            text,
                                            end: i6,
                                        },
                                    )
                                },
                            },
                        },
                    },
                },
            },
        }
    }
}

/// A signed field read unless the record id omits it (then 0).
pub open spec fn opt_delta(b: Seq<u8>, i: int, present: bool) -> Option<(int, int)> {
    if present {
        read_s(b, i)
    } else {
        Some((0, i))
    }
}

/// The TRAPEZOID record body at `i` (id 23: both deltas, 24: only `a`, 25: only `b`;
/// info byte `OWHXYRDL`).
pub open spec fn trap_read(b: Seq<u8>, i: int, id: u64, m: Modal, rep: Seq<(i32, i32)>, text: Seq<char>) -> Option<GeoRead> {
    if i < 0 || i >= b.len() {
        None
    } else {
        let info = b[i];
        match opt_u(b, i + 1, bit(info, 1)) {
            None => None,
            Some((l, i1)) => match opt_u(b, i1, bit(info, 2)) {
                None => None,
                Some((d, i2)) => match opt_u(b, i2, bit(info, 64)) {
                    None => None,
                    Some((w, i3)) => match opt_u(b, i3, bit(info, 32)) {
                        None => None,
                        Some((h, i4)) => match opt_delta(b, i4, id != 25) {
                            None => None,
                            Some((da, i5)) => match opt_delta(b, i5, id != 24) {
                                None => None,
                                Some((db, i6)) => match opt_s(b, i6, bit(info, 16)) {
                                    None => None,
                                    Some((x, i7)) => match opt_s(b, i7, bit(info, 8)) {
                                        None => None,
                                        Some((y, i8)) => match opt_rep(b, i8, bit(info, 4), rep) {
                                            None => None,
                                            Some((reps, i9)) => {
                                                let m1 = with_geom(
                                                    m,
                                                    or_i16(l, m.layer),
                                                    or_i16(d, m.datatype),
                                                    m.halfwidth,
                                                    or_i64(w, m.geom_w),
                                                    or_i64(h, m.geom_h),
                                                    or_i32(x, m.x),
                                                    or_i32(y, m.y),
                                                );
                                                Some(
                                                    GeoRead {
                                                        shape: Some(
                                                            ShapeV::Boundary {
                                                                layer: m1.layer,
                                                                datatype: m1.datatype,
                                                                pts: close_pts(
                                                                    narrow(
                                                                        trap_corners(
                                                                            bit(info, 128),
                                                                            m1.x as int,
                                                                            m1.y as int,
                                                                            m1.geom_w as int,
                                                                            m1.geom_h as int,
                                                                            da,
                                                                            db,
                                                                        ),
                                                                    ),
                                                                ),
                                                            },
                                                        ),
                                                        reps,
                                                        modal: m1,
                                                        rep: rep_after(bit(info, 4), reps, rep),
                                                        text,
                                                        end: i9,
                                                    },
                                                )
                                            },
                                        },
                                    },
                                },
                            },
                        },
                    },
                },
            },
        }
    }
}

/// The CTRAPEZOID record body at `i` (info byte `TWHXYRDL`): a compact trapezoid of
/// type T (else 0) in the modal box, a form storing one dimension taking the other from
/// it; `None` also for a box beyond the range the corners are computed in, or a type
/// with no corners.
pub open spec fn ctrap_read(b: Seq<u8>, i: int, m: Modal, rep: Seq<(i32, i32)>, text: Seq<char>) -> Option<GeoRead> {
    if i < 0 || i >= b.len() {
        None
    } else {
        let info = b[i];
        match opt_u(b, i + 1, bit(info, 1)) {
            None => None,
            Some((l, i1)) => match opt_u(b, i1, bit(info, 2)) {
                None => None,
                Some((d, i2)) => match opt_u(b, i2, bit(info, 128)) {
                    None => None,
                    Some((t, i3)) => match opt_u(b, i3, bit(info, 64)) {
                        None => None,
                        Some((w, i4)) => match opt_u(b, i4, bit(info, 32)) {
                            None => None,
                            Some((h, i5)) => match opt_s(b, i5, bit(info, 16)) {
                                None => None,
                                Some((x, i6)) => match opt_s(b, i6, bit(info, 8)) {
                                    None => None,
                                    Some((y, i7)) => match opt_rep(b, i7, bit(info, 4), rep) {
                                        None => None,
                                        Some((reps, i8)) => {
                                            let gw1 = or_i64(w, m.geom_w);
                                            let gh1 = or_i64(h, m.geom_h);
                                            let gh = if !bit(info, 32) { gw1 } else { gh1 };
                                            let gw = if !bit(info, 64) { gh } else { gw1 };
                                            let m1 = with_geom(
                                                m,
                                                or_i16(l, m.layer),
                                                or_i16(d, m.datatype),
                                                m.halfwidth,
                                                gw,
                                                gh,
                                                or_i32(x, m.x),
                                                or_i32(y, m.y),
                                            );
                                            let ct = match t {
                                                Some(v) => v as u64,
                                                None => 0u64,
                                            };
                                            let lim = 0x2000_0000_0000_0000int;
                                            if gw < -lim || gw > lim || gh < -lim || gh > lim {
                                                None
                                            } else {
                                                match ctrap_corners(ct, m1.x as int, m1.y as int, gw as int, gh as int) {
                                                    None => None,
                                                    Some(v) => Some(
                                                        GeoRead {
                                                            shape: Some(ShapeV::Boundary { layer: m1.layer, datatype: m1.datatype, pts: closed_ring(v) }),
                                                            reps,
                                                            modal: m1,
                                                            rep: rep_after(bit(info, 4), reps, rep),
                                                            text,
                                                            end: i8,
                                                        },
                                                    ),
                                                }
                                            }
                                        },
                                    },
                                },
                            },
                        },
                    },
                },
            },
        }
    }
}

/// The text of a TEXT record: a reference into the TEXTSTRING table (absent entries are
/// empty) or a string inline; without one, the modal text.
pub open spec fn text_field(b: Seq<u8>, i: int, info: u8, text: Seq<char>, strings: Seq<Seq<char>>) -> Option<(Seq<char>, int)> {
    if !bit(info, 64) {
        Some((text, i))
    } else if bit(info, 32) {
        match read_u(b, i) {
            Some((rn, j)) => Some(
                (if (rn as u64) < strings.len() && rn < 0x1_0000_0000_0000_0000 { strings[rn as int] } else { Seq::empty() }, j),
            ),
            None => None,
        }
    } else {
        match read_str(b, i) {
            Some((bytes, j)) => Some((utf8_text(bytes), j)),
            None => None,
        }
    }
}

/// The TEXT record body at `i` (info byte `0CNXYRTL`), read against the modal text state
/// (which never touches the geometry one) and the TEXTSTRING table.
pub open spec fn text_read(b: Seq<u8>, i: int, m: Modal, rep: Seq<(i32, i32)>, text: Seq<char>, strings: Seq<Seq<char>>) -> Option<
    GeoRead,
> {
    if i < 0 || i >= b.len() {
        None
    } else {
        let info = b[i];
        match text_field(b, i + 1, info, text, strings) {
            None => None,
            Some((t1, i1)) => match opt_u(b, i1, bit(info, 1)) {
                None => None,
                Some((l, i2)) => match opt_u(b, i2, bit(info, 2)) {
                    None => None,
                    Some((tt, i3)) => match opt_s(b, i3, bit(info, 16)) {
                        None => None,
                        Some((x, i4)) => match opt_s(b, i4, bit(info, 8)) {
                            None => None,
                            Some((y, i5)) => match opt_rep(b, i5, bit(info, 4), rep) {
                                None => None,
                                Some((reps, i6)) => {
                                    let m1 = Modal {
                                        layer: m.layer,
                                        datatype: m.datatype,
                                        halfwidth: m.halfwidth,
                                        geom_w: m.geom_w,
                                        geom_h: m.geom_h,
                                        x: m.x,
                                        y: m.y,
                                        textlayer: or_i16(l, m.textlayer),
                                        texttype: or_i16(tt, m.texttype),
                                        text_x: or_i32(x, m.text_x),
                                        text_y: or_i32(y, m.text_y),
                                    };
                                    Some(
                                        GeoRead {
                                            shape: Some(
                                                ShapeV::Text { layer: m1.textlayer, texttype: m1.texttype, x: m1.text_x, y: m1.text_y, string: t1 },
                                            ),
                                            reps,
                                            modal: m1,
                                            rep: rep_after(bit(info, 4), reps, rep),
                                            text: t1,
                                            end: i6,
                                        },
                                    )
                                },
                            },
                        },
                    },
                },
            },
        }
    }
}

/// The target cell name of a placement: by reference number (through the CELLNAME table)
/// or inline; empty when the record names no cell.
pub open spec fn place_name(b: Seq<u8>, i: int, info: u8, names: Seq<Seq<char>>) -> Option<(Seq<char>, int)> {
    if !bit(info, 128) {
        Some((Seq::empty(), i))
    } else if bit(info, 64) {
        match read_u(b, i) {
            Some((rn, j)) => Some((ref_name(names, rn as u64), j)),
            None => None,
        }
    } else {
        match read_str(b, i) {
            Some((bytes, j)) => Some((utf8_text(bytes), j)),
            None => None,
        }
    }
}

/// An optional real field.
pub open spec fn opt_real(b: Seq<u8>, i: int, present: bool) -> Option<(Option<Real>, int)> {
    if !present {
        Some((None, i))
    } else {
        match read_real_spec(b, i) {
            Some((r, j)) => Some((Some(r), j)),
            None => None,
        }
    }
}

/// The magnification and rotation of a placement: for id 18 an optional magnification
/// and an optional angle (else 0 quarter turns); for id 17 the `AA` quarter turns.
pub open spec fn place_transform(b: Seq<u8>, i: int, id: u64, info: u8) -> Option<(Option<Real>, Rotation, int)> {
    if id == 18 {
        match opt_real(b, i, bit(info, 4)) {
            None => None,
            Some((mag, j)) => if bit(info, 2) {
                match read_real_spec(b, j) {
                    Some((a, k)) => Some((mag, Rotation::Degrees(a), k)),
                    None => None,
                }
            } else {
                Some((mag, Rotation::Quarter(0), j))
            },
        }
    } else {
        Some((None, Rotation::Quarter(((info / 2) % 4) as u8), i))
    }
}

/// The PLACEMENT record body at `i` (id 17: info `CNXYRAAF`; id 18: `CNXYRMAF`).
pub open spec fn place_read(b: Seq<u8>, i: int, id: u64, m: Modal, rep: Seq<(i32, i32)>, text: Seq<char>, names: Seq<Seq<char>>) -> Option<
    GeoRead,
> {
    if i < 0 || i >= b.len() {
        None
    } else {
        let info = b[i];
        match place_name(b, i + 1, info, names) {
            None => None,
            Some((sname, i1)) => match place_transform(b, i1, id, info) {
                None => None,
                Some((mag, rotation, i2)) => match opt_s(b, i2, bit(info, 32)) {
                    None => None,
                    Some((x, i3)) => match opt_s(b, i3, bit(info, 16)) {
                        None => None,
                        Some((y, i4)) => match opt_rep(b, i4, bit(info, 8), rep) {
                            None => None,
                            Some((reps, i5)) => {
                                let m1 = with_geom(m, m.layer, m.datatype, m.halfwidth, m.geom_w, m.geom_h, or_i32(x, m.x), or_i32(y, m.y));
                                Some(
                                    GeoRead {
                                        shape: if bit(info, 128) {
                                            Some(ShapeV::Placement { sname, x: m1.x, y: m1.y, reflect: bit(info, 1), mag, rotation })
                                        } else {
                                            None
                                        },
                                        reps,
                                        modal: m1,
                                        rep: rep_after(bit(info, 8), reps, rep),
                                        text,
                                        end: i5,
                                    },
                                )
                            },
                        },
                    },
                },
            },
        }
    }
}

/// A positive extent below 2^32 narrowed to 32 bits and added back, wrapping, to the start
/// gives the end.
proof fn lemma_wrap_extent(a: i32, e: i32)
    requires
        a < e,
    ensures
        i32_specs::wrapping_add(a, ((e as i64 - a as i64) as i64) as i32) == e,
{
    let d: i64 = (e as i64 - a as i64) as i64;
    assert(0 < d < 0x1_0000_0000);
    assert(0 < d < 0x1_0000_0000 ==> (d as i32) as int == if d <= 0x7fff_ffff { d as int } else { d - 0x1_0000_0000 }) by (bit_vector);
}

/// Reading back a RECTANGLE record as written gives the rectangle's ring on its layer and
/// datatype, with no repetition, and stops right after the record, whatever the modal
/// state before it.
/// A written unsigned varint, found at `p` inside `b`, reads back.
pub proof fn lemma_u_at(b: Seq<u8>, p: int, v: u64)
    requires
        0 <= p,
        p + enc_u(v as nat).len() <= b.len(),
        b.subrange(p, p + enc_u(v as nat).len()) == enc_u(v as nat),
    ensures
        read_u(b, p) == Some((v as nat, p + enc_u(v as nat).len())),
{
    let e = enc_u(v as nat);
    let pre = b.subrange(0, p);
    let rest = b.subrange(p + e.len(), b.len() as int);
    assert(b =~= pre + e + rest);
    lemma_varint_round_trip(v, pre, rest);
}

/// A written signed varint, found at `p` inside `b`, reads back.
pub proof fn lemma_s_at(b: Seq<u8>, p: int, v: i64)
    requires
        v != i64::MIN,
        0 <= p,
        p + enc_u(zig(v)).len() <= b.len(),
        b.subrange(p, p + enc_u(zig(v)).len()) == enc_u(zig(v)),
    ensures
        read_s(b, p) == Some((v as int, p + enc_u(zig(v)).len())),
{
    let e = enc_u(zig(v));
    let pre = b.subrange(0, p);
    let rest = b.subrange(p + e.len(), b.len() as int);
    assert(b =~= pre + e + rest);
    lemma_signed_round_trip(v, pre, rest);
}

/// The fields of a written RECTANGLE record, read back one by one.
#[verifier::spinoff_prover]
proof fn lemma_rectangle_fields(layer: i16, datatype: i16, r: Rect, pre: Seq<u8>, rest: Seq<u8>)
    requires
        rect_wf(r),
    ensures
        ({
            let b = pre + rectangle_record(layer, datatype, r) + rest;
            let k = (pre.len() + enc_u(R_RECTANGLE as nat).len()) as int;
            let f1 = enc_u(layer as u64 as nat);
            let f2 = enc_u(datatype as u64 as nat);
            let f3 = enc_u((r.x1 as i64 - r.x0 as i64) as u64 as nat);
            let f4 = enc_u((r.y1 as i64 - r.y0 as i64) as u64 as nat);
            let f5 = enc_u(zig(r.x0 as i64));
            let f6 = enc_u(zig(r.y0 as i64));
            let k1 = k + 1 + f1.len();
            let k2 = k1 + f2.len();
            let k3 = k2 + f3.len();
            let k4 = k3 + f4.len();
            let k5 = k4 + f5.len();
            let k6 = k5 + f6.len();
            &&& 0 <= k < b.len() && b[k] == 0x7bu8
            &&& read_u(b, k + 1) == Some((layer as u64 as nat, k1))
            &&& read_u(b, k1) == Some((datatype as u64 as nat, k2))
            &&& read_u(b, k2) == Some(((r.x1 as i64 - r.x0 as i64) as u64 as nat, k3))
            &&& read_u(b, k3) == Some(((r.y1 as i64 - r.y0 as i64) as u64 as nat, k4))
            &&& read_s(b, k4) == Some((r.x0 as int, k5))
            &&& read_s(b, k5) == Some((r.y0 as int, k6))
            &&& k6 == pre.len() + rectangle_record(layer, datatype, r).len()
        }),
{
    let e0 = enc_u(R_RECTANGLE as nat);
    let f1 = enc_u(layer as u64 as nat);
    let f2 = enc_u(datatype as u64 as nat);
    let f3 = enc_u((r.x1 as i64 - r.x0 as i64) as u64 as nat);
    let f4 = enc_u((r.y1 as i64 - r.y0 as i64) as u64 as nat);
    let f5 = enc_u(zig(r.x0 as i64));
    let f6 = enc_u(zig(r.y0 as i64));
    let rec = rectangle_record(layer, datatype, r);
    let b = pre + rec + rest;
    let k = (pre.len() + e0.len()) as int;
    let k1 = k + 1 + f1.len();
    let k2 = k1 + f2.len();
    let k3 = k2 + f3.len();
    let k4 = k3 + f4.len();
    let k5 = k4 + f5.len();
    let k6 = k5 + f6.len();
    assert(b.subrange(k, k + 1) =~= seq![0x7bu8]);
    assert(b.subrange(k + 1, k1) =~= f1);
    lemma_u_at(b, k + 1, layer as u64);
    assert(b.subrange(k1, k2) =~= f2);
    lemma_u_at(b, k1, datatype as u64);
    assert(b.subrange(k2, k3) =~= f3);
    lemma_u_at(b, k2, (r.x1 as i64 - r.x0 as i64) as u64);
    assert(b.subrange(k3, k4) =~= f4);
    lemma_u_at(b, k3, (r.y1 as i64 - r.y0 as i64) as u64);
    assert(b.subrange(k4, k5) =~= f5);
    lemma_s_at(b, k4, r.x0 as i64);
    assert(b.subrange(k5, k6) =~= f6);
    lemma_s_at(b, k5, r.y0 as i64);
}

/// Reading back a RECTANGLE record as written gives the rectangle's ring on its layer and
/// datatype, with no repetition, and stops right after the record, whatever the modal
/// state before it.
#[verifier::spinoff_prover]
pub proof fn lemma_rectangle_round_trip(
    layer: i16,
    datatype: i16,
    r: Rect,
    pre: Seq<u8>,
    rest: Seq<u8>,
    m: Modal,
    rep: Seq<(i32, i32)>,
)
    requires
        rect_wf(r),
    ensures
        ({
            let b = pre + rectangle_record(layer, datatype, r) + rest;
            let k = (pre.len() + enc_u(R_RECTANGLE as nat).len()) as int;
            &&& rect_read(b, k, m, rep) is Some
            &&& rect_read(b, k, m, rep)->0.layer == layer
            &&& rect_read(b, k, m, rep)->0.datatype == datatype
            &&& rect_read(b, k, m, rep)->0.pts == boundary_of(r)
            &&& rect_read(b, k, m, rep)->0.reps.len() == 0
            &&& rect_read(b, k, m, rep)->0.end == pre.len() + rectangle_record(layer, datatype, r).len()
        }),
{
    lemma_rectangle_fields(layer, datatype, r, pre, rest);
    let lv = layer as u64;
    let dv = datatype as u64;
    let wv = (r.x1 as i64 - r.x0 as i64) as u64;
    let hv = (r.y1 as i64 - r.y0 as i64) as u64;
    assert(bit(0x7bu8, 1int) && bit(0x7bu8, 2int) && bit(0x7bu8, 64int) && bit(0x7bu8, 32int) && bit(0x7bu8, 16int) && bit(0x7bu8, 8int));
    assert(!bit(0x7bu8, 4int) && !bit(0x7bu8, 128int));
    assert((lv as i16) == layer && (dv as i16) == datatype) by (bit_vector)
        requires
            lv == layer as u64,
            dv == datatype as u64,
    ;
    assert((lv as nat) as i16 == layer);
    assert((dv as nat) as i16 == datatype);
    assert(wv as nat == r.x1 - r.x0 && hv as nat == r.y1 - r.y0);
    lemma_wrap_extent(r.x0, r.x1);
    lemma_wrap_extent(r.y0, r.y1);
    assert(((wv as nat) as i64) as i32 == ((r.x1 as i64 - r.x0 as i64) as i64) as i32);
    assert(((hv as nat) as i64) as i32 == ((r.y1 as i64 - r.y0 as i64) as i64) as i32);
}

/// The edge vectors of a vertex list: from each vertex to the next.
pub open spec fn edge_deltas(v: Seq<(i32, i32)>) -> Seq<(int, int)> {
    Seq::new((v.len() - 1) as nat, |q: int| ((v[q + 1].0 - v[q].0) as int, (v[q + 1].1 - v[q].1) as int))
}

/// A written g-delta, found at `p` inside `b`, reads back.
proof fn lemma_g_at(b: Seq<u8>, p: int, dx: i64, dy: i64)
    requires
        -0x4000_0000_0000_0000 < dx < 0x4000_0000_0000_0000,
        dy != i64::MIN,
        0 <= p,
        p + (enc_u(gdelta_word(dx)) + enc_u(zig(dy))).len() <= b.len(),
        b.subrange(p, p + (enc_u(gdelta_word(dx)) + enc_u(zig(dy))).len()) == enc_u(gdelta_word(dx)) + enc_u(zig(dy)),
    ensures
        read_g(b, p) == Some(((dx as int, dy as int), p + (enc_u(gdelta_word(dx)) + enc_u(zig(dy))).len())),
{
    let w = enc_u(gdelta_word(dx)) + enc_u(zig(dy));
    let pre = b.subrange(0, p);
    let rest = b.subrange(p + w.len(), b.len() as int);
    assert(b =~= pre + w + rest);
    assert(pre + w + rest =~= pre + enc_u(gdelta_word(dx)) + enc_u(zig(dy)) + rest);
    lemma_gdelta_round_trip(dx, dy, pre, rest);
}

/// The first `k` written g-deltas of a vertex list read back as its first `k` edges.
#[verifier::spinoff_prover]
proof fn lemma_gdelta_chain_read(b: Seq<u8>, start: int, v: Seq<(i32, i32)>, k: int)
    requires
        0 <= k < v.len(),
        0 <= start,
        start + gdelta_chain(v, k).len() <= b.len(),
        b.subrange(start, start + gdelta_chain(v, k).len()) == gdelta_chain(v, k),
    ensures
        g_list(b, start, k as nat) == Some((edge_deltas(v).take(k), start + gdelta_chain(v, k).len())),
    decreases k,
{
    if k > 0 {
        let c0 = gdelta_chain(v, k - 1);
        let c1 = gdelta_chain(v, k);
        let dx = (v[k].0 as i64 - v[k - 1].0 as i64) as i64;
        let dy = (v[k].1 as i64 - v[k - 1].1 as i64) as i64;
        let w = enc_u(gdelta_word(dx)) + enc_u(zig(dy));
        assert(c1 == c0 + w);
        assert(b.subrange(start, start + c0.len()) =~= c0) by {
            assert forall|j: int| 0 <= j < c0.len() implies b.subrange(start, start + c0.len())[j] == c0[j] by {
                assert(b.subrange(start, start + c1.len())[j] == c1[j]);
            }
        }
        lemma_gdelta_chain_read(b, start, v, k - 1);
        let p = start + c0.len();
        assert(b.subrange(p, p + w.len()) =~= w) by {
            assert forall|j: int| 0 <= j < w.len() implies b.subrange(p, p + w.len())[j] == w[j] by {
                assert(b.subrange(start, start + c1.len())[c0.len() + j] == c1[c0.len() + j]);
            }
        }
        lemma_g_at(b, p, dx, dy);
        assert(edge_deltas(v).take(k) =~= edge_deltas(v).take(k - 1).push((dx as int, dy as int)));
    } else {
        assert(edge_deltas(v).take(0) =~= Seq::<(int, int)>::empty());
    }
}

/// Walking a vertex list's edges from its first vertex gives back the vertices.
proof fn lemma_walk_edges(v: Seq<(i32, i32)>)
    requires
        v.len() >= 1,
    ensures
        walk_from(v[0].0, v[0].1, edge_deltas(v)) == v,
{
    let d = edge_deltas(v);
    assert forall|k: int| #![trigger v[k]] 0 <= k < v.len() implies cum_d(v[0].0 as i64, d, k, true) == v[k].0 && cum_d(v[0].1 as i64, d, k, false)
        == v[k].1 by {
        lemma_cum_walk(v, k);
    }
    assert(walk_from(v[0].0, v[0].1, d) =~= v);
}

proof fn lemma_cum_walk(v: Seq<(i32, i32)>, k: int)
    requires
        0 <= k < v.len(),
    ensures
        cum_d(v[0].0 as i64, edge_deltas(v), k, true) == v[k].0,
        cum_d(v[0].1 as i64, edge_deltas(v), k, false) == v[k].1,
    decreases k,
{
    if k > 0 {
        lemma_cum_walk(v, k - 1);
    }
}

/// After dropping trailing copies of the first vertex, the first and last differ (or
/// fewer than two remain).
proof fn lemma_distinct_open(pts: Seq<(i32, i32)>)
    ensures
        distinct_spec(pts).len() <= pts.len(),
        distinct_spec(pts).len() >= 2 ==> distinct_spec(pts)[0] != distinct_spec(pts)[distinct_spec(pts).len() - 1],
        forall|k: int| 0 <= k < distinct_spec(pts).len() ==> #[trigger] distinct_spec(pts)[k] == pts[k],
    decreases pts.len(),
{
    if pts.len() >= 2 && pts[0] == pts[pts.len() - 1] {
        lemma_distinct_open(pts.drop_last());
    }
}

/// The fields of a written POLYGON record, read back one by one.
#[verifier::spinoff_prover]
proof fn lemma_polygon_fields(layer: i16, datatype: i16, v: Seq<(i32, i32)>, pre: Seq<u8>, rest: Seq<u8>)
    requires
        3 <= v.len() <= u64::MAX,
    ensures
        ({
            let b = pre + polygon_record(layer, datatype, v) + rest;
            let k = (pre.len() + enc_u(R_POLYGON as nat).len()) as int;
            let f1 = enc_u(layer as u64 as nat);
            let f2 = enc_u(datatype as u64 as nat);
            let k1 = k + 1 + f1.len();
            let k2 = k1 + f2.len();
            let k5 = (pre.len() + polygon_record(layer, datatype, v).len() - enc_u(zig(v[0].0 as i64)).len() - enc_u(zig(v[0].1 as i64)).len()) as int;
            let k6 = k5 + enc_u(zig(v[0].0 as i64)).len();
            &&& 0 <= k < b.len() && b[k] == 0x3bu8
            &&& read_u(b, k + 1) == Some((layer as u64 as nat, k1))
            &&& read_u(b, k1) == Some((datatype as u64 as nat, k2))
            &&& plist_at(b, k2, true) == Some((edge_deltas(v), k5))
            &&& read_s(b, k5) == Some((v[0].0 as int, k6))
            &&& read_s(b, k6) == Some((v[0].1 as int, (pre.len() + polygon_record(layer, datatype, v).len()) as int))
        }),
{
    let e0 = enc_u(R_POLYGON as nat);
    let f1 = enc_u(layer as u64 as nat);
    let f2 = enc_u(datatype as u64 as nat);
    let f3 = enc_u(4);
    let n1 = (v.len() - 1) as nat;
    let f4 = enc_u(n1);
    let ch = gdelta_chain(v, v.len() - 1);
    let f5 = enc_u(zig(v[0].0 as i64));
    let f6 = enc_u(zig(v[0].1 as i64));
    let rec = polygon_record(layer, datatype, v);
    assert(rec =~= e0 + seq![0x3bu8] + f1 + f2 + f3 + f4 + ch + f5 + f6);
    let b = pre + rec + rest;
    let k = (pre.len() + e0.len()) as int;
    let k1 = k + 1 + f1.len();
    let k2 = k1 + f2.len();
    let k3 = k2 + f3.len();
    let k4 = k3 + f4.len();
    let k5 = k4 + ch.len();
    let k6 = k5 + f5.len();
    assert(b.subrange(k, k + 1) =~= seq![0x3bu8]);
    assert(b.subrange(k + 1, k1) =~= f1);
    lemma_u_at(b, k + 1, layer as u64);
    assert(b.subrange(k1, k2) =~= f2);
    lemma_u_at(b, k1, datatype as u64);
    assert(b.subrange(k2, k3) =~= f3);
    lemma_u_at(b, k2, 4);
    assert(b.subrange(k3, k4) =~= f4);
    lemma_u_at(b, k3, n1 as u64);
    assert(b.subrange(k4, k5) =~= ch);
    lemma_gdelta_chain_read(b, k4, v, v.len() - 1);
    assert(edge_deltas(v).take(v.len() - 1) =~= edge_deltas(v));
    assert(b.subrange(k5, k6) =~= f5);
    lemma_s_at(b, k5, v[0].0 as i64);
    assert(b.subrange(k6, k6 + f6.len()) =~= f6);
    lemma_s_at(b, k6, v[0].1 as i64);
}

/// Reading back a POLYGON record as written gives its vertices closed into a ring, on its
/// layer and datatype, with no repetition, whatever the modal state before it.
#[verifier::spinoff_prover]
#[verifier::rlimit(100)]
pub proof fn lemma_polygon_round_trip(
    layer: i16,
    datatype: i16,
    pts: Seq<(i32, i32)>,
    pre: Seq<u8>,
    rest: Seq<u8>,
    m: Modal,
    rep: Seq<(i32, i32)>,
)
    requires
        distinct_spec(pts).len() >= 3,
        pts.len() <= u64::MAX,
    ensures
        ({
            let v = distinct_spec(pts);
            let b = pre + polygon_record(layer, datatype, v) + rest;
            let k = (pre.len() + enc_u(R_POLYGON as nat).len()) as int;
            &&& poly_read(b, k, m, rep) is Some
            &&& poly_read(b, k, m, rep)->0.layer == layer
            &&& poly_read(b, k, m, rep)->0.datatype == datatype
            &&& poly_read(b, k, m, rep)->0.pts == v.push(v[0])
            &&& poly_read(b, k, m, rep)->0.reps.len() == 0
            &&& poly_read(b, k, m, rep)->0.end == pre.len() + polygon_record(layer, datatype, v).len()
        }),
{
    let v = distinct_spec(pts);
    lemma_distinct_open(pts);
    lemma_polygon_fields(layer, datatype, v, pre, rest);
    lemma_walk_edges(v);
    let lv = layer as u64;
    let dv = datatype as u64;
    assert(bit(0x3bu8, 1int) && bit(0x3bu8, 2int) && bit(0x3bu8, 32int) && bit(0x3bu8, 16int) && bit(0x3bu8, 8int));
    assert(!bit(0x3bu8, 4int));
    assert((lv as i16) == layer && (dv as i16) == datatype) by (bit_vector)
        requires
            lv == layer as u64,
            dv == datatype as u64,
    ;
    assert((lv as nat) as i16 == layer);
    assert((dv as nat) as i16 == datatype);
    assert((v[0].0 as int) as i32 == v[0].0 && (v[0].1 as int) as i32 == v[0].1);
}

/// The vertices reached from `(x, y)` by the deltas, summed in wrapping 64-bit arithmetic
/// and narrowed to 32 bits: the start, then one vertex per delta.
pub open spec fn walk_from(x: i32, y: i32, d: Seq<(int, int)>) -> Seq<(i32, i32)> {
    Seq::new(d.len() + 1, |k: int| (cum_d(x as i64, d, k, true) as i32, cum_d(y as i64, d, k, false) as i32))
}

/// The start plus the first `k` deltas along x (`xaxis`) or y, wrapping in 64 bits.
pub open spec fn cum_d(start: i64, d: Seq<(int, int)>, k: int, xaxis: bool) -> i64
    decreases k,
{
    if k <= 0 {
        start
    } else {
        i64_specs::wrapping_add(cum_d(start, d, k - 1, xaxis), if xaxis { d[k - 1].0 as i64 } else { d[k - 1].1 as i64 })
    }
}

/// A vertex list closed by repeating its first vertex unless it already ends there.
pub open spec fn close_pts(v: Seq<(i32, i32)>) -> Seq<(i32, i32)> {
    if v.len() > 0 && v[0] != v[v.len() - 1] {
        v.push(v[0])
    } else {
        v
    }
}

proof fn lemma_cum_d_prefix(start: i64, d: Seq<(int, int)>, e: (int, int), k: int, xaxis: bool)
    requires
        k <= d.len(),
    ensures
        cum_d(start, d.push(e), k, xaxis) == cum_d(start, d, k, xaxis),
    decreases k,
{
    if k > 0 {
        lemma_cum_d_prefix(start, d, e, k - 1, xaxis);
    }
}

/// The vertices reached from `(x, y)` by the deltas `v`.
fn walk_deltas(x: i32, y: i32, v: &Vec<(i64, i64)>, ghost_d: Ghost<Seq<(int, int)>>) -> (pts: Vec<(i32, i32)>)
    requires
        same_deltas(v@, ghost_d@),
    ensures
        pts@ == walk_from(x, y, ghost_d@),
{
    let ghost d = ghost_d@;
    let mut pts: Vec<(i32, i32)> = Vec::new();
    let mut cx: i64 = x as i64;
    let mut cy: i64 = y as i64;
    pts.push((x, y));
    let mut k: usize = 0;
    proof {
        assert(pts@ =~= walk_from(x, y, d.take(0)));
    }
    while k < v.len()
        invariant
            k <= v@.len(),
            same_deltas(v@, d),
            cx == cum_d(x as i64, d.take(k as int), k as int, true),
            cy == cum_d(y as i64, d.take(k as int), k as int, false),
            pts@ == walk_from(x, y, d.take(k as int)),
        decreases v@.len() - k,
    {
        let (dx, dy) = v[k];
        cx = cx.wrapping_add(dx);
        cy = cy.wrapping_add(dy);
        let ghost dk = d.take(k as int);
        proof {
            assert(d.take(k + 1) =~= dk.push(d[k as int]));
            assert forall|t: int| 0 <= t <= k implies cum_d(x as i64, d.take(k + 1), t, true) == #[trigger] cum_d(
                x as i64,
                dk,
                t,
                true,
            ) by {
                lemma_cum_d_prefix(x as i64, dk, d[k as int], t, true);
            }
            assert forall|t: int| 0 <= t <= k implies cum_d(y as i64, d.take(k + 1), t, false) == #[trigger] cum_d(
                y as i64,
                dk,
                t,
                false,
            ) by {
                lemma_cum_d_prefix(y as i64, dk, d[k as int], t, false);
            }
            assert(v@[k as int].0 as int == d[k as int].0);
        }
        pts.push((cx as i32, cy as i32));
        k += 1;
        proof {
            assert(pts@ =~= walk_from(x, y, d.take(k as int)));
        }
    }
    proof {
        assert(d.take(v@.len() as int) =~= d);
    }
    pts
}

/// Close a vertex list by repeating its first vertex unless it already ends there.
fn close_vertices(pts: &mut Vec<(i32, i32)>)
    ensures
        final(pts)@ == close_pts(old(pts)@),
{
    if pts.len() > 0 {
        let first = pts[0];
        let last = pts[pts.len() - 1];
        if first.0 != last.0 || first.1 != last.1 {
            pts.push(first);
        }
    }
}

// ---- geometry records ---------------------------------------------------------------

/// A shape and the offsets to stamp it at (none: once, where it is).
pub type Stamped = (Shape, Vec<(i32, i32)>);

/// RECTANGLE: info byte `SWHXYRDL` (S: square, the height is the width), then the
/// fields its bits announce; the box at the modal position.
#[verifier::rlimit(40)]
fn read_rectangle(b: &[u8], i: &mut usize, m: &mut Modal, rep: &mut Vec<(i32, i32)>) -> (r: Result<Stamped, OasisError>)
    ensures
        (r is Ok) == (rect_read(b@, *old(i) as int, *old(m), old(rep)@) is Some),
        r matches Ok((sh, reps)) ==> {
            let rr = rect_read(b@, *old(i) as int, *old(m), old(rep)@)->0;
            &&& sh matches Shape::Boundary { layer, datatype, pts } && layer == rr.layer && datatype == rr.datatype && pts@ == rr.pts
            &&& reps@ == rr.reps
            &&& *final(m) == rr.modal
            &&& final(rep)@ == rr.rep
            &&& *final(i) == rr.end
        },
        r matches Ok((sh, reps)) ==> {
            let info = b@[*old(i) as int];
            &&& *old(i) < *final(i) <= b@.len()
            &&& text_same(*old(m), *final(m))
            &&& final(m).halfwidth == old(m).halfwidth
            &&& kept(bit(info, 1), old(m).layer, final(m).layer)
            &&& kept(bit(info, 2), old(m).datatype, final(m).datatype)
            &&& kept(bit(info, 64), old(m).geom_w, final(m).geom_w)
            &&& (!bit(info, 32) && bit(info, 128) ==> final(m).geom_h == final(m).geom_w)
            &&& kept(bit(info, 32) || bit(info, 128), old(m).geom_h, final(m).geom_h)
            &&& kept(bit(info, 16), old(m).x, final(m).x)
            &&& kept(bit(info, 8), old(m).y, final(m).y)
            &&& reps_ok(bit(info, 4), reps@, old(rep)@, final(rep)@)
            &&& sh matches Shape::Boundary { layer, datatype, pts } && layer == final(m).layer && datatype == final(m).datatype
                && pts@ == boundary_of(box_rect(final(m).x, final(m).y, final(m).geom_w, final(m).geom_h))
        },
{
    let ghost i0 = *i as int;
    let ghost m0 = *m;
    let ghost rep0 = rep@;
    let info = rb(b, i)?;
    let l: Option<u64> = if info % 2 == 1 { Some(ru_f(b, i)?) } else { None };
    let ghost i1 = *i as int;
    assert(opt_u(b@, i0 + 1, bit(info, 1)) == Some((nat_opt(l), i1)));
    let d: Option<u64> = if (info / 2) % 2 == 1 { Some(ru_f(b, i)?) } else { None };
    let ghost i2 = *i as int;
    assert(opt_u(b@, i1, bit(info, 2)) == Some((nat_opt(d), i2)));
    let w: Option<u64> = if (info / 64) % 2 == 1 { Some(ru_f(b, i)?) } else { None };
    let ghost i3 = *i as int;
    assert(opt_u(b@, i2, bit(info, 64)) == Some((nat_opt(w), i3)));
    let h: Option<u64> = if (info / 32) % 2 == 1 { Some(ru_f(b, i)?) } else { None };
    let ghost i4 = *i as int;
    assert(opt_u(b@, i3, bit(info, 32)) == Some((nat_opt(h), i4)));
    let x: Option<i64> = if (info / 16) % 2 == 1 { Some(rs_f(b, i)?) } else { None };
    let ghost i5 = *i as int;
    assert(opt_s(b@, i4, bit(info, 16)) == Some((int_opt(x), i5)));
    let y: Option<i64> = if (info / 8) % 2 == 1 { Some(rs_f(b, i)?) } else { None };
    let ghost i6 = *i as int;
    assert(opt_s(b@, i5, bit(info, 8)) == Some((int_opt(y), i6)));
    let reps = if (info / 4) % 2 == 1 { rep_f(b, i, rep)? } else { Vec::new() };
    if let Some(v) = l {
        m.layer = v as i16;
    }
    if let Some(v) = d {
        m.datatype = v as i16;
    }
    if let Some(v) = w {
        m.geom_w = v as i64;
    }
    if let Some(v) = h {
        m.geom_h = v as i64;
    } else if (info / 128) % 2 == 1 {
        m.geom_h = m.geom_w;  // square: height mirrors width
    }
    if let Some(v) = x {
        m.x = v as i32;
    }
    if let Some(v) = y {
        m.y = v as i32;
    }
    let rect = Rect::new(m.x, m.y, m.x.wrapping_add(m.geom_w as i32), m.y.wrapping_add(m.geom_h as i32));
    proof {
        assert(i0 < *i as int);
    }
    Ok((Shape::Boundary { layer: m.layer, datatype: m.datatype, pts: rect.as_boundary() }, reps))
}

/// POLYGON: info byte `00PXYRDL`; the ring from the modal position through the point
/// list's deltas, closed.
#[verifier::rlimit(40)]
fn read_polygon(b: &[u8], i: &mut usize, m: &mut Modal, rep: &mut Vec<(i32, i32)>) -> (r: Result<Stamped, OasisError>)
    ensures
        (r is Ok) == (poly_read(b@, *old(i) as int, *old(m), old(rep)@) is Some),
        r matches Ok((sh, reps)) ==> {
            let pr = poly_read(b@, *old(i) as int, *old(m), old(rep)@)->0;
            &&& sh matches Shape::Boundary { layer, datatype, pts } && layer == pr.layer && datatype == pr.datatype && pts@ == pr.pts
            &&& reps@ == pr.reps
            &&& *final(m) == pr.modal
            &&& final(rep)@ == pr.rep
            &&& *final(i) == pr.end
        },
        r matches Ok((sh, reps)) ==> {
            let info = b@[*old(i) as int];
            &&& *old(i) < *final(i) <= b@.len()
            &&& text_same(*old(m), *final(m))
            &&& final(m).halfwidth == old(m).halfwidth && final(m).geom_w == old(m).geom_w && final(m).geom_h == old(m).geom_h
            &&& kept(bit(info, 1), old(m).layer, final(m).layer)
            &&& kept(bit(info, 2), old(m).datatype, final(m).datatype)
            &&& kept(bit(info, 16), old(m).x, final(m).x)
            &&& kept(bit(info, 8), old(m).y, final(m).y)
            &&& reps_ok(bit(info, 4), reps@, old(rep)@, final(rep)@)
            &&& sh matches Shape::Boundary { layer, datatype, pts } && layer == final(m).layer && datatype == final(m).datatype
                && exists|d: Seq<(int, int)>| (!bit(info, 32) ==> d.len() == 0) && #[trigger] close_pts(walk_from(final(m).x, final(m).y, d)) == pts@
        },
{
    let ghost i0 = *i as int;
    let info = rb(b, i)?;
    let l: Option<u64> = if info % 2 == 1 { Some(ru_f(b, i)?) } else { None };
    let ghost i1 = *i as int;
    assert(opt_u(b@, i0 + 1, bit(info, 1)) == Some((nat_opt(l), i1)));
    let dt: Option<u64> = if (info / 2) % 2 == 1 { Some(ru_f(b, i)?) } else { None };
    let ghost i2 = *i as int;
    assert(opt_u(b@, i1, bit(info, 2)) == Some((nat_opt(dt), i2)));
    let ghost mut d: Seq<(int, int)> = Seq::empty();
    let deltas: Vec<(i64, i64)> = if (info / 32) % 2 == 1 {
        let v = plist_f(b, i, true)?;
        proof {
            d = (plist_at(b@, i2, true)->0).0;
        }
        v
    } else {
        Vec::new()
    };
    let ghost i3 = *i as int;
    assert((if bit(info, 32) { plist_at(b@, i2, true) } else { Some((Seq::<(int, int)>::empty(), i2)) }) == Some((d, i3)));
    assert(same_deltas(deltas@, d));
    let x: Option<i64> = if (info / 16) % 2 == 1 { Some(rs_f(b, i)?) } else { None };
    let ghost i4 = *i as int;
    assert(opt_s(b@, i3, bit(info, 16)) == Some((int_opt(x), i4)));
    let y: Option<i64> = if (info / 8) % 2 == 1 { Some(rs_f(b, i)?) } else { None };
    let ghost i5 = *i as int;
    assert(opt_s(b@, i4, bit(info, 8)) == Some((int_opt(y), i5)));
    let reps = if (info / 4) % 2 == 1 { rep_f(b, i, rep)? } else { Vec::new() };
    if let Some(v) = l {
        m.layer = v as i16;
    }
    if let Some(v) = dt {
        m.datatype = v as i16;
    }
    if let Some(v) = x {
        m.x = v as i32;
    }
    if let Some(v) = y {
        m.y = v as i32;
    }
    let mut pts = walk_deltas(m.x, m.y, &deltas, Ghost(d));
    close_vertices(&mut pts);
    proof {
        assert(i0 < *i as int);
    }
    Ok((Shape::Boundary { layer: m.layer, datatype: m.datatype, pts }, reps))
}

/// PATH: info byte `EWPXYRDL`; an open centre line from the modal position through the
/// point list's deltas, twice the modal half-width wide. The extension scheme is read
/// (to stay aligned) but not kept.
#[verifier::spinoff_prover]
#[verifier::rlimit(60)]
fn read_path(b: &[u8], i: &mut usize, m: &mut Modal, rep: &mut Vec<(i32, i32)>) -> (r: Result<Stamped, OasisError>)
    ensures
        (r is Ok) == (path_read(b@, *old(i) as int, *old(m), old(rep)@, Seq::empty()) is Some),
        r matches Ok((sh, reps)) ==> {
            let g = path_read(b@, *old(i) as int, *old(m), old(rep)@, Seq::empty())->0;
            &&& g.shape == Some(sh@)
            &&& reps@ == g.reps
            &&& *final(m) == g.modal
            &&& final(rep)@ == g.rep
            &&& *final(i) == g.end
        },
        r is Ok ==> *old(i) < *final(i) <= b@.len(),
{
    let ghost i0 = *i as int;
    let info = rb(b, i)?;
    let l: Option<u64> = if info % 2 == 1 { Some(ru_f(b, i)?) } else { None };
    let ghost i1 = *i as int;
    assert(opt_u(b@, i0 + 1, bit(info, 1)) == Some((nat_opt(l), i1)));
    let d: Option<u64> = if (info / 2) % 2 == 1 { Some(ru_f(b, i)?) } else { None };
    let ghost i2 = *i as int;
    assert(opt_u(b@, i1, bit(info, 2)) == Some((nat_opt(d), i2)));
    let hw: Option<u64> = if (info / 64) % 2 == 1 { Some(ru_f(b, i)?) } else { None };
    let ghost i3 = *i as int;
    assert(opt_u(b@, i2, bit(info, 64)) == Some((nat_opt(hw), i3)));
    if (info / 128) % 2 == 1 {
        // extension scheme: bits 2-3 the start, bits 0-1 the end; 3 = an explicit value
        let ext = rb(b, i)?;
        if (ext / 4) % 4 == 3 {
            rs_f(b, i)?;
        }
        if ext % 4 == 3 {
            rs_f(b, i)?;
        }
    }
    let ghost i4 = *i as int;
    assert(ext_skip(b@, i3, bit(info, 128)) == Some(i4));
    let ghost mut dl: Seq<(int, int)> = Seq::empty();
    let deltas: Vec<(i64, i64)> = if (info / 32) % 2 == 1 {
        let v = plist_f(b, i, false)?;
        proof {
            dl = (plist_at(b@, i4, false)->0).0;
        }
        v
    } else {
        Vec::new()
    };
    let ghost i5 = *i as int;
    assert((if bit(info, 32) { plist_at(b@, i4, false) } else { Some((Seq::<(int, int)>::empty(), i4)) }) == Some((dl, i5)));
    assert(same_deltas(deltas@, dl));
    let x: Option<i64> = if (info / 16) % 2 == 1 { Some(rs_f(b, i)?) } else { None };
    let ghost i6 = *i as int;
    assert(opt_s(b@, i5, bit(info, 16)) == Some((int_opt(x), i6)));
    let y: Option<i64> = if (info / 8) % 2 == 1 { Some(rs_f(b, i)?) } else { None };
    let ghost i7 = *i as int;
    assert(opt_s(b@, i6, bit(info, 8)) == Some((int_opt(y), i7)));
    let reps = if (info / 4) % 2 == 1 { rep_f(b, i, rep)? } else { Vec::new() };
    if let Some(v) = l {
        m.layer = v as i16;
    }
    if let Some(v) = d {
        m.datatype = v as i16;
    }
    if let Some(v) = hw {
        m.halfwidth = v as i64;
    }
    if let Some(v) = x {
        m.x = v as i32;
    }
    if let Some(v) = y {
        m.y = v as i32;
    }
    let pts = walk_deltas(m.x, m.y, &deltas, Ghost(dl));
    let width = 2i64.wrapping_mul(m.halfwidth) as i32;
    proof {
        assert(i0 < *i as int);
    }
    Ok((Shape::Path { layer: m.layer, datatype: m.datatype, width, pts }, reps))
}

/// The entry `rn` of a table, or the empty string past its end.
fn table_entry(t: &Vec<String>, rn: u64) -> (s: String)
    ensures
        s@ == if rn < t@.len() { t@[rn as int]@ } else { Seq::<char>::empty() },
        s@ == if rn < strs(t@).len() { strs(t@)[rn as int] } else { Seq::<char>::empty() },
{
    if rn < t.len() as u64 {
        t[rn as usize].clone()
    } else {
        String::new()
    }
}

/// TEXT: info byte `0CNXYRTL`; the string inline or from the TEXTSTRING table (C: a
/// string follows, N: as a reference number), at the modal text position. The text
/// modal variables never touch the geometry ones.
#[verifier::spinoff_prover]
#[verifier::rlimit(60)]
fn read_text(b: &[u8], i: &mut usize, m: &mut Modal, text: &mut String, strings: &Vec<String>, rep: &mut Vec<(i32, i32)>) -> (r:
    Result<Stamped, OasisError>)
    ensures
        r is Ok ==> *old(i) < *final(i) <= b@.len(),
        (r is Ok) == (text_read(b@, *old(i) as int, *old(m), old(rep)@, old(text)@, strs(strings@)) is Some),
        r matches Ok((sh, reps)) ==> {
            let g = text_read(b@, *old(i) as int, *old(m), old(rep)@, old(text)@, strs(strings@))->0;
            &&& g.shape == Some(sh@)
            &&& reps@ == g.reps
            &&& *final(m) == g.modal
            &&& final(rep)@ == g.rep
            &&& final(text)@ == g.text
            &&& *final(i) == g.end
        },
{
    let ghost i0 = *i as int;
    let info = rb(b, i)?;
    if (info / 64) % 2 == 1 {
        if (info / 32) % 2 == 1 {
            let rn = ru_f(b, i)?;
            *text = table_entry(strings, rn);
        } else {
            *text = rstr_f(b, i)?;
        }
    }
    let ghost i1 = *i as int;
    assert(text_field(b@, i0 + 1, info, old(text)@, strs(strings@)) == Some((text@, i1)));
    let l: Option<u64> = if info % 2 == 1 { Some(ru_f(b, i)?) } else { None };
    let ghost i2 = *i as int;
    assert(opt_u(b@, i1, bit(info, 1)) == Some((nat_opt(l), i2)));
    let tt: Option<u64> = if (info / 2) % 2 == 1 { Some(ru_f(b, i)?) } else { None };
    let ghost i3 = *i as int;
    assert(opt_u(b@, i2, bit(info, 2)) == Some((nat_opt(tt), i3)));
    let x: Option<i64> = if (info / 16) % 2 == 1 { Some(rs_f(b, i)?) } else { None };
    let ghost i4 = *i as int;
    assert(opt_s(b@, i3, bit(info, 16)) == Some((int_opt(x), i4)));
    let y: Option<i64> = if (info / 8) % 2 == 1 { Some(rs_f(b, i)?) } else { None };
    let ghost i5 = *i as int;
    assert(opt_s(b@, i4, bit(info, 8)) == Some((int_opt(y), i5)));
    let reps = if (info / 4) % 2 == 1 { rep_f(b, i, rep)? } else { Vec::new() };
    if let Some(v) = l {
        m.textlayer = v as i16;
    }
    if let Some(v) = tt {
        m.texttype = v as i16;
    }
    if let Some(v) = x {
        m.text_x = v as i32;
    }
    if let Some(v) = y {
        m.text_y = v as i32;
    }
    let string = text.clone();
    proof {
        assert(i0 < *i as int);
    }
    Ok((Shape::Text { layer: m.textlayer, texttype: m.texttype, x: m.text_x, y: m.text_y, string }, reps))
}

/// The name of cell reference number `rn`: its CELLNAME entry when that is present and
/// not empty, else `CELL<rn>`.
pub open spec fn ref_name(names: Seq<Seq<char>>, rn: u64) -> Seq<char> {
    if rn < names.len() && names[rn as int].len() > 0 {
        names[rn as int]
    } else {
        "CELL"@ + crate::engine::dec(rn as nat)
    }
}

/// The name of cell reference number `rn`.
fn name_of_ref(names: &Vec<String>, rn: u64) -> (s: String)
    ensures
        s@ == ref_name(strs(names@), rn),
{
    if rn < names.len() as u64 && !names[rn as usize].as_str().is_empty() {
        names[rn as usize].clone()
    } else {
        let mut s = String::from_str("CELL");
        s.append(crate::engine::decimal(rn).as_str());
        s
    }
}

/// PLACEMENT (17) or PLACEMENT with a transform (18): info byte `CNXYRAAF` or `CNXYRMAF`.
/// The target cell by name or reference number (C: present); for 17 the rotation is
/// `AA` quarter turns, for 18 an optional magnification (M) and angle (A) follow as
/// reals; F flips. A placement naming no cell makes no shape.
#[verifier::spinoff_prover]
#[verifier::rlimit(60)]
fn read_placement(b: &[u8], i: &mut usize, id: u64, m: &mut Modal, names: &Vec<String>, rep: &mut Vec<(i32, i32)>) -> (r:
    Result<(Option<Shape>, Vec<(i32, i32)>), OasisError>)
    ensures
        r is Ok ==> *old(i) < *final(i) <= b@.len(),
        (r is Ok) == (place_read(b@, *old(i) as int, id, *old(m), old(rep)@, Seq::empty(), strs(names@)) is Some),
        r matches Ok((sh, reps)) ==> {
            let g = place_read(b@, *old(i) as int, id, *old(m), old(rep)@, Seq::empty(), strs(names@))->0;
            &&& g.shape == match sh {
                Some(s) => Some(s@),
                None => None,
            }
            &&& reps@ == g.reps
            &&& *final(m) == g.modal
            &&& final(rep)@ == g.rep
            &&& *final(i) == g.end
        },
{
    let ghost i0 = *i as int;
    let info = rb(b, i)?;
    let mut sname = String::new();
    if (info / 128) % 2 == 1 {
        if (info / 64) % 2 == 1 {
            let rn = ru_f(b, i)?;
            sname = name_of_ref(names, rn);
        } else {
            sname = rstr_f(b, i)?;
        }
    }
    let ghost i1 = *i as int;
    assert(place_name(b@, i0 + 1, info, strs(names@)) == Some((sname@, i1)));
    let reflect = info % 2 == 1;
    let mut mag: Option<Real> = None;
    let rotation: Rotation;
    if id == 18 {
        if (info / 4) % 2 == 1 {
            mag = Some(real_f(b, i)?);
        }
        assert(opt_real(b@, i1, bit(info, 4)) == Some((mag, *i as int)));
        rotation = if (info / 2) % 2 == 1 { Rotation::Degrees(real_f(b, i)?) } else { Rotation::Quarter(0) };
    } else {
        rotation = Rotation::Quarter(((info / 2) % 4) as u8);
    }
    let ghost i2 = *i as int;
    assert(place_transform(b@, i1, id, info) == Some((mag, rotation, i2)));
    let x: Option<i64> = if (info / 32) % 2 == 1 { Some(rs_f(b, i)?) } else { None };
    let ghost i3 = *i as int;
    assert(opt_s(b@, i2, bit(info, 32)) == Some((int_opt(x), i3)));
    let y: Option<i64> = if (info / 16) % 2 == 1 { Some(rs_f(b, i)?) } else { None };
    let ghost i4 = *i as int;
    assert(opt_s(b@, i3, bit(info, 16)) == Some((int_opt(y), i4)));
    let reps = if (info / 8) % 2 == 1 { rep_f(b, i, rep)? } else { Vec::new() };
    if let Some(v) = x {
        m.x = v as i32;
    }
    if let Some(v) = y {
        m.y = v as i32;
    }
    proof {
        assert(i0 < *i as int);
    }
    if (info / 128) % 2 == 0 {
        return Ok((None, reps));  // a placement without a target cell: nothing to place
    }
    Ok((Some(Shape::Placement { sname, x: m.x, y: m.y, reflect, mag, rotation }), reps))
}

/// CIRCLE: info byte `00rXYRDL`; the radius (r: present, else the modal half-width, which
/// it then becomes) at the modal position.
#[verifier::spinoff_prover]
#[verifier::rlimit(60)]
fn read_circle(b: &[u8], i: &mut usize, m: &mut Modal, rep: &mut Vec<(i32, i32)>) -> (r: Result<Stamped, OasisError>)
    ensures
        r is Ok ==> *old(i) < *final(i) <= b@.len(),
        (r is Ok) == (circle_read(b@, *old(i) as int, *old(m), old(rep)@, Seq::empty()) is Some),
        r matches Ok((sh, reps)) ==> {
            let g = circle_read(b@, *old(i) as int, *old(m), old(rep)@, Seq::empty())->0;
            &&& g.shape == Some(sh@)
            &&& reps@ == g.reps
            &&& *final(m) == g.modal
            &&& final(rep)@ == g.rep
            &&& *final(i) == g.end
        },
{
    let ghost i0 = *i as int;
    let info = rb(b, i)?;
    let l: Option<u64> = if info % 2 == 1 { Some(ru_f(b, i)?) } else { None };
    let ghost i1 = *i as int;
    assert(opt_u(b@, i0 + 1, bit(info, 1)) == Some((nat_opt(l), i1)));
    let d: Option<u64> = if (info / 2) % 2 == 1 { Some(ru_f(b, i)?) } else { None };
    let ghost i2 = *i as int;
    assert(opt_u(b@, i1, bit(info, 2)) == Some((nat_opt(d), i2)));
    let rr: Option<u64> = if (info / 32) % 2 == 1 { Some(ru_f(b, i)?) } else { None };
    let ghost i3 = *i as int;
    assert(opt_u(b@, i2, bit(info, 32)) == Some((nat_opt(rr), i3)));
    let x: Option<i64> = if (info / 16) % 2 == 1 { Some(rs_f(b, i)?) } else { None };
    let ghost i4 = *i as int;
    assert(opt_s(b@, i3, bit(info, 16)) == Some((int_opt(x), i4)));
    let y: Option<i64> = if (info / 8) % 2 == 1 { Some(rs_f(b, i)?) } else { None };
    let ghost i5 = *i as int;
    assert(opt_s(b@, i4, bit(info, 8)) == Some((int_opt(y), i5)));
    let reps = if (info / 4) % 2 == 1 { rep_f(b, i, rep)? } else { Vec::new() };
    if let Some(v) = l {
        m.layer = v as i16;
    }
    if let Some(v) = d {
        m.datatype = v as i16;
    }
    if let Some(v) = rr {
        m.halfwidth = v as i64;  // the radius shares the half-width modal
    }
    if let Some(v) = x {
        m.x = v as i32;
    }
    if let Some(v) = y {
        m.y = v as i32;
    }
    proof {
        assert(i0 < *i as int);
    }
    Ok((Shape::Circle { layer: m.layer, datatype: m.datatype, x: m.x, y: m.y, radius: m.halfwidth }, reps))
}

/// The corners of a TRAPEZOID in the box `(w, h)` at `(x, y)`: horizontal parallel edges
/// (or vertical, `vertical`), the two slanted edges offset by `da` and `db`, each
/// reference corner kept on the box edge.
pub open spec fn trap_corners(vertical: bool, x: int, y: int, w: int, h: int, da: int, db: int) -> Seq<(int, int)> {
    let mn = if da < 0 { da } else { 0 };
    let mx = if db > 0 { db } else { 0 };
    if !vertical {
        let xr = x - mn;
        let xs = x + w - mx;
        seq![(xr, y), (xs, y), (xs + db, y + h), (xr + da, y + h)]
    } else {
        let yr = y - mn;
        let ys = y + h - mx;
        seq![(x, yr + da), (x + w, yr), (x + w, ys), (x, ys + db)]
    }
}

/// The corners of a TRAPEZOID as the standard places them. With horizontal parallel
/// edges, corners 0 and 1 are the bottom edge's left and right ends on `y`, corners 3
/// and 2 the top edge's on `y + h`; the top-left corner lies `da` right of the bottom-left
/// one, the top-right `db` right of the bottom-right one, and the leftmost of the left
/// corners sits on `x`, the rightmost of the right corners on `x + w`. With vertical
/// parallel edges the same holds along y: corners 0 and 3 are the left edge's on `x`,
/// corners 1 and 2 the right edge's on `x + w`, the left-bottom corner lies `da` above the
/// right-bottom one and the left-top `db` above the right-top one, the lowest bottom
/// corner on `y` and the highest top corner on `y + h`.
pub proof fn lemma_trapezoid_corners(vertical: bool, x: int, y: int, w: int, h: int, da: int, db: int)
    ensures
        ({
            let c = trap_corners(vertical, x, y, w, h, da, db);
            &&& c.len() == 4
            &&& !vertical ==> {
                &&& c[0].1 == y && c[1].1 == y && c[2].1 == y + h && c[3].1 == y + h
                &&& c[3].0 - c[0].0 == da
                &&& c[2].0 - c[1].0 == db
                &&& imin(c[0].0, c[3].0) == x
                &&& imax(c[1].0, c[2].0) == x + w
            }
            &&& vertical ==> {
                &&& c[0].0 == x && c[3].0 == x && c[1].0 == x + w && c[2].0 == x + w
                &&& c[0].1 - c[1].1 == da
                &&& c[3].1 - c[2].1 == db
                &&& imin(c[0].1, c[1].1) == y
                &&& imax(c[2].1, c[3].1) == y + h
            }
        }),
{
}

/// Integer corners narrowed to `i32` points.
pub open spec fn narrow(v: Seq<(int, int)>) -> Seq<(i32, i32)> {
    v.map_values(|p: (int, int)| (p.0 as i32, p.1 as i32))
}

/// The closed ring of a TRAPEZOID, computed exactly and narrowed to `i32`.
fn trap_points(vertical: bool, x: i32, y: i32, w: i64, h: i64, da: i64, db: i64) -> (pts: Vec<(i32, i32)>)
    ensures
        pts@ == close_pts(narrow(trap_corners(vertical, x as int, y as int, w as int, h as int, da as int, db as int))),
{
    let (px, py, ww, hh) = (x as i128, y as i128, w as i128, h as i128);
    let (a, c) = (da as i128, db as i128);
    let mn: i128 = if a < 0 { a } else { 0 };
    let mx: i128 = if c > 0 { c } else { 0 };
    let v: Vec<(i128, i128)> = if !vertical {
        let xr = px - mn;
        let xs = px + ww - mx;
        vec![(xr, py), (xs, py), (xs + c, py + hh), (xr + a, py + hh)]
    } else {
        let yr = py - mn;
        let ys = py + hh - mx;
        vec![(px, yr + a), (px + ww, yr), (px + ww, ys), (px, ys + c)]
    };
    let mut pts: Vec<(i32, i32)> = vec![
        (v[0].0 as i32, v[0].1 as i32),
        (v[1].0 as i32, v[1].1 as i32),
        (v[2].0 as i32, v[2].1 as i32),
        (v[3].0 as i32, v[3].1 as i32),
    ];
    proof {
        assert(pts@ =~= narrow(trap_corners(vertical, x as int, y as int, w as int, h as int, da as int, db as int)));
    }
    close_vertices(&mut pts);
    pts
}

/// TRAPEZOID (23: both deltas, 24: only `a`, 25: only `b`): info byte `OWHXYRDL`.
#[verifier::spinoff_prover]
#[verifier::rlimit(60)]
fn read_trapezoid(b: &[u8], i: &mut usize, id: u64, m: &mut Modal, rep: &mut Vec<(i32, i32)>) -> (r: Result<Stamped, OasisError>)
    ensures
        r is Ok ==> *old(i) < *final(i) <= b@.len(),
        (r is Ok) == (trap_read(b@, *old(i) as int, id, *old(m), old(rep)@, Seq::empty()) is Some),
        r matches Ok((sh, reps)) ==> {
            let g = trap_read(b@, *old(i) as int, id, *old(m), old(rep)@, Seq::empty())->0;
            &&& g.shape == Some(sh@)
            &&& reps@ == g.reps
            &&& *final(m) == g.modal
            &&& final(rep)@ == g.rep
            &&& *final(i) == g.end
        },
{
    let ghost i0 = *i as int;
    let info = rb(b, i)?;
    let l: Option<u64> = if info % 2 == 1 { Some(ru_f(b, i)?) } else { None };
    let ghost i1 = *i as int;
    assert(opt_u(b@, i0 + 1, bit(info, 1)) == Some((nat_opt(l), i1)));
    let d: Option<u64> = if (info / 2) % 2 == 1 { Some(ru_f(b, i)?) } else { None };
    let ghost i2 = *i as int;
    assert(opt_u(b@, i1, bit(info, 2)) == Some((nat_opt(d), i2)));
    let w: Option<u64> = if (info / 64) % 2 == 1 { Some(ru_f(b, i)?) } else { None };
    let ghost i3 = *i as int;
    assert(opt_u(b@, i2, bit(info, 64)) == Some((nat_opt(w), i3)));
    let h: Option<u64> = if (info / 32) % 2 == 1 { Some(ru_f(b, i)?) } else { None };
    let ghost i4 = *i as int;
    assert(opt_u(b@, i3, bit(info, 32)) == Some((nat_opt(h), i4)));
    let da: i64 = if id != 25 { rs_f(b, i)? } else { 0 };
    let ghost i5 = *i as int;
    assert(opt_delta(b@, i4, id != 25) == Some((da as int, i5)));
    let db: i64 = if id != 24 { rs_f(b, i)? } else { 0 };
    let ghost i6 = *i as int;
    assert(opt_delta(b@, i5, id != 24) == Some((db as int, i6)));
    let x: Option<i64> = if (info / 16) % 2 == 1 { Some(rs_f(b, i)?) } else { None };
    let ghost i7 = *i as int;
    assert(opt_s(b@, i6, bit(info, 16)) == Some((int_opt(x), i7)));
    let y: Option<i64> = if (info / 8) % 2 == 1 { Some(rs_f(b, i)?) } else { None };
    let ghost i8 = *i as int;
    assert(opt_s(b@, i7, bit(info, 8)) == Some((int_opt(y), i8)));
    let reps = if (info / 4) % 2 == 1 { rep_f(b, i, rep)? } else { Vec::new() };
    if let Some(v) = l {
        m.layer = v as i16;
    }
    if let Some(v) = d {
        m.datatype = v as i16;
    }
    if let Some(v) = w {
        m.geom_w = v as i64;
    }
    if let Some(v) = h {
        m.geom_h = v as i64;
    }
    if let Some(v) = x {
        m.x = v as i32;
    }
    if let Some(v) = y {
        m.y = v as i32;
    }
    let pts = trap_points((info / 128) % 2 == 1, m.x, m.y, m.geom_w, m.geom_h, da, db);
    proof {
        assert(bit(info, 128) == ((info / 128) % 2 == 1));
        assert(i0 < *i as int);
    }
    Ok((Shape::Boundary { layer: m.layer, datatype: m.datatype, pts }, reps))
}

/// CTRAPEZOID: info byte `TWHXYRDL`; one of the compact trapezoid forms (T: its type, else
/// 0) in the modal box. A form storing one dimension takes the other from it.
#[verifier::spinoff_prover]
#[verifier::rlimit(60)]
fn read_ctrapezoid(b: &[u8], i: &mut usize, m: &mut Modal, rep: &mut Vec<(i32, i32)>) -> (r: Result<Stamped, OasisError>)
    ensures
        r is Ok ==> *old(i) < *final(i) <= b@.len(),
        (r is Ok) == (ctrap_read(b@, *old(i) as int, *old(m), old(rep)@, Seq::empty()) is Some),
        r matches Ok((sh, reps)) ==> {
            let g = ctrap_read(b@, *old(i) as int, *old(m), old(rep)@, Seq::empty())->0;
            &&& g.shape == Some(sh@)
            &&& reps@ == g.reps
            &&& *final(m) == g.modal
            &&& final(rep)@ == g.rep
            &&& *final(i) == g.end
        },
{
    let ghost i0 = *i as int;
    let info = rb(b, i)?;
    let l: Option<u64> = if info % 2 == 1 { Some(ru_f(b, i)?) } else { None };
    let ghost i1 = *i as int;
    assert(opt_u(b@, i0 + 1, bit(info, 1)) == Some((nat_opt(l), i1)));
    let d: Option<u64> = if (info / 2) % 2 == 1 { Some(ru_f(b, i)?) } else { None };
    let ghost i2 = *i as int;
    assert(opt_u(b@, i1, bit(info, 2)) == Some((nat_opt(d), i2)));
    let t: Option<u64> = if (info / 128) % 2 == 1 { Some(ru_f(b, i)?) } else { None };
    let ghost i3 = *i as int;
    assert(opt_u(b@, i2, bit(info, 128)) == Some((nat_opt(t), i3)));
    let w: Option<u64> = if (info / 64) % 2 == 1 { Some(ru_f(b, i)?) } else { None };
    let ghost i4 = *i as int;
    assert(opt_u(b@, i3, bit(info, 64)) == Some((nat_opt(w), i4)));
    let h: Option<u64> = if (info / 32) % 2 == 1 { Some(ru_f(b, i)?) } else { None };
    let ghost i5 = *i as int;
    assert(opt_u(b@, i4, bit(info, 32)) == Some((nat_opt(h), i5)));
    let x: Option<i64> = if (info / 16) % 2 == 1 { Some(rs_f(b, i)?) } else { None };
    let ghost i6 = *i as int;
    assert(opt_s(b@, i5, bit(info, 16)) == Some((int_opt(x), i6)));
    let y: Option<i64> = if (info / 8) % 2 == 1 { Some(rs_f(b, i)?) } else { None };
    let ghost i7 = *i as int;
    assert(opt_s(b@, i6, bit(info, 8)) == Some((int_opt(y), i7)));
    let reps = if (info / 4) % 2 == 1 { rep_f(b, i, rep)? } else { Vec::new() };
    let ctype: u64 = match t {
        Some(v) => v,
        None => 0,
    };
    if let Some(v) = l {
        m.layer = v as i16;
    }
    if let Some(v) = d {
        m.datatype = v as i16;
    }
    if let Some(v) = w {
        m.geom_w = v as i64;
    }
    if let Some(v) = h {
        m.geom_h = v as i64;
    }
    // a form that stores only one dimension takes the other from it
    if (info / 32) % 2 == 0 {
        m.geom_h = m.geom_w;
    }
    if (info / 64) % 2 == 0 {
        m.geom_w = m.geom_h;
    }
    if let Some(v) = x {
        m.x = v as i32;
    }
    if let Some(v) = y {
        m.y = v as i32;
    }
    let lim: i64 = 0x2000_0000_0000_0000;
    if m.geom_w < -lim || m.geom_w > lim || m.geom_h < -lim || m.geom_h > lim {
        return Err(OasisError(String::from_str("ctrapezoid dimensions out of range")));
    }
    let pts = ctrapezoid_polygon(ctype, m.x as i64, m.y as i64, m.geom_w, m.geom_h)?;
    proof {
        assert(i0 < *i as int);
    }
    Ok((Shape::Boundary { layer: m.layer, datatype: m.datatype, pts }, reps))
}

// ---- skipped records, with their progress ---------------------------------------------

fn interval_f(b: &[u8], i: &mut usize) -> (r: Result<(), OasisError>)
    ensures
        r is Ok ==> interval_end(b@, *old(i) as int) == Some(*final(i) as int) && *old(i) < *final(i) <= b@.len(),
        r is Err ==> interval_end(b@, *old(i) as int) is None,
{
    proof {
        lemma_interval_bounds(b@, *i as int);
    }
    read_interval(b, i)
}

fn name_record_f(b: &[u8], i: &mut usize, id: u64) -> (r: Result<(), OasisError>)
    ensures
        r is Ok ==> name_record_end(b@, *old(i) as int) == Some(*final(i) as int) && *old(i) < *final(i) <= b@.len(),
        r is Err ==> name_record_end(b@, *old(i) as int) is None,
{
    proof {
        lemma_name_record_bounds(b@, *i as int);
    }
    skip_name_record(b, i, id)
}

fn property_f(b: &[u8], i: &mut usize, id: u64) -> (r: Result<(), OasisError>)
    requires
        *old(i) <= b@.len(),
    ensures
        r is Ok ==> prop_end(b@, *old(i) as int, id) == Some(*final(i) as int) && *old(i) <= *final(i) <= b@.len(),
        r is Err ==> prop_end(b@, *old(i) as int, id) is None,
{
    proof {
        lemma_prop_bounds(b@, *i as int, id);
    }
    skip_property(b, i, id)
}

// ---- DEFLATE (miniz_oxide) ------------------------------------------------------------

/// What `miniz_oxide::inflate::decompress_to_vec` gives for a raw DEFLATE stream: the
/// decoded bytes, or none when it reports an error.
pub uninterp spec fn inflate_raw(comp: Seq<u8>) -> Option<Seq<u8>>;

/// What `miniz_oxide::inflate::decompress_to_vec_zlib` gives for a zlib-wrapped DEFLATE
/// stream: the decoded bytes, or none when it reports an error.
pub uninterp spec fn inflate_zlib(comp: Seq<u8>) -> Option<Seq<u8>>;

/// `miniz_oxide::inflate::decompress_to_vec`: decodes a raw DEFLATE stream, a function
/// of its input alone; the result is named `inflate_raw`. Its error is dropped.
#[verifier::external_body]
fn decompress_raw(comp: &[u8]) -> (r: Option<Vec<u8>>)
    ensures
        match r {
            Some(v) => inflate_raw(comp@) == Some(v@),
            None => inflate_raw(comp@) is None,
        },
{
    miniz_oxide::inflate::decompress_to_vec(comp).ok()
}

/// `miniz_oxide::inflate::decompress_to_vec_zlib`: decodes a zlib-wrapped DEFLATE stream,
/// a function of its input alone; the result is named `inflate_zlib`. Its error comes
/// back as its `Debug` text, which is not stated.
#[verifier::external_body]
fn decompress_zlib(comp: &[u8]) -> (r: Result<Vec<u8>, String>)
    ensures
        match r {
            Ok(v) => inflate_zlib(comp@) == Some(v@),
            Err(_) => inflate_zlib(comp@) is None,
        },
{
    match miniz_oxide::inflate::decompress_to_vec_zlib(comp) {
        Ok(v) => Ok(v),
        Err(e) => Err(format!("{e:?}")),
    }
}

/// A CBLOCK payload decoded: as raw DEFLATE, else as zlib-wrapped DEFLATE.
pub open spec fn inflate_spec(comp: Seq<u8>) -> Option<Seq<u8>> {
    match inflate_raw(comp) {
        Some(v) => Some(v),
        None => inflate_zlib(comp),
    }
}

/// DEFLATE-inflate a CBLOCK payload (raw RFC 1951, falling back to zlib-wrapped).
pub fn inflate_cblock(comp: &[u8]) -> (r: Result<Vec<u8>, OasisError>)
    ensures
        match r {
            Ok(v) => inflate_spec(comp@) == Some(v@),
            Err(_) => inflate_spec(comp@) is None,
        },
{
    match decompress_raw(comp) {
        Some(v) => Ok(v),
        None => match decompress_zlib(comp) {
            Ok(v) => Ok(v),
            Err(e) => {
                let mut msg = String::from_str("cblock DEFLATE inflate failed: ");
                msg.append(e.as_str());
                Err(OasisError(msg))
            },
        },
    }
}

// ---- the record stream ------------------------------------------------------------------

/// A shape stamped once per repetition offset, or once where it is when there are none.
pub open spec fn stamped(s: ShapeV, reps: Seq<(i32, i32)>) -> Seq<ShapeV> {
    if reps.len() == 0 {
        seq![s]
    } else {
        reps.map_values(|r: (i32, i32)| translate_v(s, r.0, r.1))
    }
}

/// The open cell, if any, with a shape stamped into it.
pub open spec fn push_stamped(cell: Option<OCellV>, s: ShapeV, reps: Seq<(i32, i32)>) -> Option<OCellV> {
    match cell {
        Some(c) => Some(OCellV { name: c.name, shapes: c.shapes + stamped(s, reps) }),
        None => None,
    }
}

/// Stamp `el` into the open cell once per repetition offset, or once where it is when
/// there are none; without an open cell nothing happens.
fn push_repeated(cell: &mut Option<OCell>, el: Shape, reps: &Vec<(i32, i32)>)
    ensures
        cell_v(*final(cell)) == push_stamped(cell_v(*old(cell)), el@, reps@),
        match *old(cell) {
            None => (*final(cell)).is_none(),
            Some(c) => *final(cell) matches Some(c2) && c2.name == c.name && c2.shapes@.len() == c.shapes@.len() + (if reps@.len()
                == 0 { 1 } else { reps@.len() }) && (forall|k: int| 0 <= k < c.shapes@.len() ==> #[trigger] c2.shapes@[k] == c.shapes@[k])
                && (reps@.len() == 0 ==> c2.shapes@[c.shapes@.len() as int] == el) && (forall|k: int|
                0 <= k < reps@.len() ==> moved(el, #[trigger] c2.shapes@[c.shapes@.len() + k], reps@[k].0, reps@[k].1)),
        },
{
    let taken = cell.take();
    assert(taken == *old(cell));
    match taken {
        Some(mut c) => {
            let ghost c0 = c;
            let ghost n0 = c.shapes@.len();
            let ghost s0 = c.shapes@;
            if reps.len() == 0 {
                c.shapes.push(el);
            } else {
                let mut k: usize = 0;
                while k < reps.len()
                    invariant
                        k <= reps@.len(),
                        c.name == c0.name,
                        c.shapes@.len() == n0 + k,
                        forall|t: int| 0 <= t < n0 ==> #[trigger] c.shapes@[t] == s0[t],
                        forall|t: int| 0 <= t < k ==> moved(el, #[trigger] c.shapes@[n0 + t], reps@[t].0, reps@[t].1),
                        c@.shapes =~= c0@.shapes + reps@.take(k as int).map_values(|r: (i32, i32)| translate_v(el@, r.0, r.1)),
                    decreases reps@.len() - k,
                {
                    let (dx, dy) = reps[k];
                    let t = translate(&el, dx, dy);
                    let ghost before = c@.shapes;
                    c.shapes.push(t);
                    proof {
                        assert(c@.shapes =~= before.push(t@));
                        assert(reps@.take(k + 1) =~= reps@.take(k as int).push(reps@[k as int]));
                        assert(c@.shapes =~= c0@.shapes + reps@.take(k + 1).map_values(|r: (i32, i32)| translate_v(el@, r.0, r.1)));
                    }
                    k += 1;
                }
                proof {
                    assert(reps@.take(reps@.len() as int) =~= reps@);
                }
            }
            let ghost c_new = c;
            proof {
                if reps@.len() == 0 {
                    assert(c@.shapes =~= c0@.shapes + seq![el@]);
                }
                assert(c@.shapes =~= c0@.shapes + stamped(el@, reps@));
            }
            *cell = Some(c);
            proof {
                assert(*cell == Some(c_new));
                assert(c_new.name == c0.name);
                assert(Some(c0) == *old(cell));
                assert(c_new.shapes@.len() == n0 + (if reps@.len() == 0 { 1 } else { reps@.len() }));
            }
        },
        None => {},
    }
}

// ---- the record stream, as plain values ------------------------------------------------

/// The reader's state as plain values: the units of the START records so far, the
/// finished cells with the reference number each was opened by (if any), the name
/// tables, the open cell and its reference number, the modal state, modal text and
/// repetition, and whether END has been read.
pub struct StateV {
    pub units: Seq<Real>,
    pub cells: Seq<OCellV>,
    pub refnums: Seq<Option<u64>>,
    pub cellnames: Seq<Seq<char>>,
    pub textstrings: Seq<Seq<char>>,
    pub cell: Option<OCellV>,
    pub cur_refnum: Option<u64>,
    pub modal: Modal,
    pub text: Seq<char>,
    pub repetition: Seq<(i32, i32)>,
    pub ended: bool,
}

/// The state before the first record.
pub open spec fn start_v() -> StateV {
    StateV {
        units: Seq::empty(),
        cells: Seq::empty(),
        refnums: Seq::empty(),
        cellnames: Seq::empty(),
        textstrings: Seq::empty(),
        cell: None,
        cur_refnum: None,
        modal: Modal { layer: 0, datatype: 0, halfwidth: 0, geom_w: 0, geom_h: 0, x: 0, y: 0, textlayer: 0, texttype: 0, text_x: 0, text_y: 0 },
        text: Seq::empty(),
        repetition: Seq::empty(),
        ended: false,
    }
}

/// The open cell, if any, closed: it joins the finished cells with its reference number.
pub open spec fn finish_v(st: StateV) -> StateV {
    match st.cell {
        Some(c) => StateV { cells: st.cells.push(c), refnums: st.refnums.push(st.cur_refnum), cell: None, cur_refnum: None, ..st },
        None => st,
    }
}

/// Entry `k` of a name table set to `s`, the table first grown with empty names up to it.
pub open spec fn set_v(t: Seq<Seq<char>>, k: int, s: Seq<char>) -> Seq<Seq<char>> {
    let grown = if k < t.len() {
        t
    } else {
        t + Seq::new((k + 1 - t.len()) as nat, |j: int| Seq::<char>::empty())
    };
    grown.update(k, s)
}

/// A name-table or file-level record (START, the name tables, layer names) with record
/// id `id`, its body at `j`: the state after it and where it ends; `None` where the body
/// runs past the end, or for an id that is none of these.
pub open spec fn table_step(st: StateV, b: Seq<u8>, j: int, id: nat) -> Option<(StateV, int)> {
    if id == 1 {
        match read_str(b, j) {
            None => None,
            Some((_, j1)) => match read_real_spec(b, j1) {
                None => None,
                Some((unit, j2)) => match read_u(b, j2) {
                    None => None,
                    Some((flag, j3)) => {
                        let s2 = StateV { units: st.units.push(unit), ..st };
                        if flag == 0 {
                            match u_list(b, j3, 12) {
                                None => None,
                                Some((_, j4)) => Some((s2, j4)),
                            }
                        } else {
                            Some((s2, j3))
                        }
                    },
                },
            },
        }
    } else if id == 3 || id == 5 {
        match read_str(b, j) {
            None => None,
            Some((bytes, j1)) => if id == 3 {
                Some((StateV { cellnames: st.cellnames.push(utf8_text(bytes)), ..st }, j1))
            } else {
                Some((StateV { textstrings: st.textstrings.push(utf8_text(bytes)), ..st }, j1))
            },
        }
    } else if id == 4 || id == 6 {
        match read_str(b, j) {
            None => None,
            Some((bytes, j1)) => match read_u(b, j1) {
                None => None,
                Some((rn, j2)) => {
                    let k = ((rn as u64) as usize) as int;
                    if id == 4 {
                        Some((StateV { cellnames: set_v(st.cellnames, k, utf8_text(bytes)), ..st }, j2))
                    } else {
                        Some((StateV { textstrings: set_v(st.textstrings, k, utf8_text(bytes)), ..st }, j2))
                    }
                },
            },
        }
    } else if id == 7 || id == 9 {
        match read_str(b, j) {
            None => None,
            Some((_, j1)) => Some((st, j1)),
        }
    } else if id == 8 || id == 10 || id == 30 || id == 31 {
        match name_record_end(b, j) {
            None => None,
            Some(j1) => Some((st, j1)),
        }
    } else if id == 11 || id == 12 {
        match read_str(b, j) {
            None => None,
            Some((_, j1)) => match interval_end(b, j1) {
                None => None,
                Some(j2) => match interval_end(b, j2) {
                    None => None,
                    Some(j3) => Some((st, j3)),
                },
            },
        }
    } else {
        None
    }
}

/// CELL by reference number (13) or by name (14), its body at `j`: the open cell closed
/// and a new empty one opened.
pub open spec fn cell_step(st: StateV, b: Seq<u8>, j: int, id: nat) -> Option<(StateV, int)> {
    let f = finish_v(st);
    if id == 13 {
        match read_u(b, j) {
            None => None,
            Some((rn, k)) => Some(
                (
                    StateV {
                        cur_refnum: Some(rn as u64),
                        cell: Some(OCellV { name: ref_name(f.cellnames, rn as u64), shapes: Seq::empty() }),
                        ..f
                    },
                    k,
                ),
            ),
        }
    } else {
        match read_str(b, j) {
            None => None,
            Some((bytes, k)) => Some((StateV { cell: Some(OCellV { name: utf8_text(bytes), shapes: Seq::empty() }), ..f }, k)),
        }
    }
}

/// The reading of geometry record `id` (17 to 27) with its body at `j`.
pub open spec fn geo_read(st: StateV, b: Seq<u8>, j: int, id: nat) -> Option<GeoRead> {
    if id == 20 {
        geo_of(rect_read(b, j, st.modal, st.repetition), Seq::empty())
    } else if id == 21 {
        geo_of(poly_read(b, j, st.modal, st.repetition), Seq::empty())
    } else if id == 22 {
        path_read(b, j, st.modal, st.repetition, Seq::empty())
    } else if 23 <= id <= 25 {
        trap_read(b, j, id as u64, st.modal, st.repetition, Seq::empty())
    } else if id == 26 {
        ctrap_read(b, j, st.modal, st.repetition, Seq::empty())
    } else if id == 27 {
        circle_read(b, j, st.modal, st.repetition, Seq::empty())
    } else if id == 19 {
        text_read(b, j, st.modal, st.repetition, st.text, st.textstrings)
    } else {
        place_read(b, j, id as u64, st.modal, st.repetition, Seq::empty(), st.cellnames)
    }
}

/// A geometry record (17 to 27) with its body at `j`: its shape stamped into the open
/// cell, and the modal state, repetition and (for TEXT) text it leaves.
pub open spec fn geo_step(st: StateV, b: Seq<u8>, j: int, id: nat) -> Option<(StateV, int)> {
    match geo_read(st, b, j, id) {
        None => None,
        Some(g) => Some(
            (
                StateV {
                    modal: g.modal,
                    repetition: g.rep,
                    text: if id == 19 { g.text } else { st.text },
                    cell: match g.shape {
                        Some(sh) => push_stamped(st.cell, sh, g.reps),
                        None => st.cell,
                    },
                    ..st
                },
                g.end,
            ),
        ),
    }
}

/// The record at `i`: the state after it and where the next one starts; `None` where
/// the reader refuses it. A CBLOCK's decoded records are read in the same state, with
/// `left` more levels of CBLOCK inside CBLOCK allowed below this one.
pub open spec fn step_v(st: StateV, b: Seq<u8>, i: int, left: nat) -> Option<(StateV, int)>
    decreases left, b.len() - i, 0int,
{
    match read_u(b, i) {
        None => None,
        Some((id, j)) => if id == 34 {
            match read_u(b, j) {
                None => None,
                Some((ct, j1)) => match read_u(b, j1) {
                    None => None,
                    Some((_, j2)) => match read_u(b, j2) {
                        None => None,
                        Some((cl, j3)) => if cl > b.len() - j3 || ct != 0 || left == 0 {
                            None
                        } else {
                            match inflate_spec(b.subrange(j3, j3 + cl)) {
                                None => None,
                                Some(data) => match run_v(st, data, 0, (left - 1) as nat) {
                                    None => None,
                                    Some(s2) => Some((s2, j3 + cl)),
                                },
                            }
                        },
                    },
                },
            }
        } else if id == 0 || id == 15 || id == 16 {
            Some((st, j))
        } else if id == 2 {
            Some((StateV { ended: true, ..st }, j))
        } else if id == 13 || id == 14 {
            cell_step(st, b, j, id)
        } else if 17 <= id <= 27 {
            geo_step(st, b, j, id)
        } else if id == 28 || id == 29 {
            match prop_end(b, j, id as u64) {
                None => None,
                Some(k) => Some((st, k)),
            }
        } else {
            table_step(st, b, j, id)
        }
    }
}

/// The records of `b` from `i` read into `st`, until END or the end of `b`: the state
/// after them, or `None` where the reader refuses one.
pub open spec fn run_v(st: StateV, b: Seq<u8>, i: int, left: nat) -> Option<StateV>
    decreases left, b.len() - i, 1int,
{
    if i >= b.len() || st.ended {
        Some(st)
    } else {
        match step_v(st, b, i, left) {
            None => None,
            Some((s2, j)) => if i < j <= b.len() {
                run_v(s2, b, j, left)
            } else {
                Some(s2)
            },
        }
    }
}

/// Reading from a record on is reading it, then the rest.
pub proof fn lemma_run_step(st: StateV, b: Seq<u8>, i: int, left: nat)
    requires
        i < b.len(),
        !st.ended,
    ensures
        run_v(st, b, i, left) == match step_v(st, b, i, left) {
            None => None,
            Some((s2, j)) => if i < j <= b.len() {
                run_v(s2, b, j, left)
            } else {
                Some(s2)
            },
        },
{
}

/// The reader's state, threaded through the record stream and any CBLOCK inside it.
struct ParseState {
    units: Vec<Real>,
    cells: Vec<OCell>,
    cellnames: Vec<String>,
    textstrings: Vec<String>,
    cell: Option<OCell>,
    // the reference number of each finished cell, resolved to a name at the end
    refnums: Vec<Option<u64>>,
    cur_refnum: Option<u64>,
    modal: Modal,
    text: String,
    repetition: Vec<(i32, i32)>,
    ended: bool,
}

impl View for ParseState {
    type V = StateV;

    closed spec fn view(&self) -> StateV {
        StateV {
            units: self.units@,
            cells: self.cells@.map_values(|c: OCell| c@),
            refnums: self.refnums@,
            cellnames: strs(self.cellnames@),
            textstrings: strs(self.textstrings@),
            cell: cell_v(self.cell),
            cur_refnum: self.cur_refnum,
            modal: self.modal,
            text: self.text@,
            repetition: self.repetition@,
            ended: self.ended,
        }
    }
}

impl ParseState {
    /// Every finished cell has its reference number (if any).
    spec fn wf(&self) -> bool {
        self.refnums@.len() == self.cells@.len()
    }

    /// Close the open cell, if any: it joins the finished ones with its reference number.
    fn finish_cell(&mut self)
        requires
            old(self).wf(),
        ensures
            final(self).wf(),
            final(self)@ == finish_v(old(self)@),
    {
        let c = self.cell.take();
        match c {
            Some(c) => {
                let ghost before = self.cells@;
                self.cells.push(c);
                let rn = self.cur_refnum.take();
                self.refnums.push(rn);
                proof {
                    assert(self.cells@.map_values(|c: OCell| c@) =~= before.map_values(|c: OCell| c@).push(c@));
                }
            },
            None => {},
        }
    }

    /// An error for a record this reader does not understand, naming it and its offset.
    fn unsupported(id: u64, at: usize) -> (e: OasisError)
        ensures
            e.0@ == "unsupported OASIS record "@ + dec(id as nat) + " ("@ + crate::oasis::record_name_spec(id) + ") at byte "@
                + dec(at as nat)
                + "; reader covers RECTANGLE/POLYGON/PATH/TRAPEZOID/CTRAPEZOID/CIRCLE/TEXT/PLACEMENT + repetitions, properties, name tables, and CBLOCK"@,
    {
        let mut msg = String::from_str("unsupported OASIS record ");
        msg.append(crate::engine::decimal(id).as_str());
        msg.append(" (");
        msg.append(crate::oasis::record_name(id));
        msg.append(") at byte ");
        msg.append(crate::engine::decimal(at as u64).as_str());
        msg.append(
            "; reader covers RECTANGLE/POLYGON/PATH/TRAPEZOID/CTRAPEZOID/CIRCLE/TEXT/PLACEMENT + repetitions, properties, name tables, and CBLOCK",
        );
        OasisError(msg)
    }

    /// Set entry `rn` of a name table, growing it with empty names as needed.
    fn set_entry(t: &mut Vec<String>, rn: u64, s: String)
        ensures
            strs(final(t)@) == set_v(strs(old(t)@), (rn as usize) as int, s@),
    {
        let rn = rn as usize;
        while t.len() <= rn
            invariant
                t@.len() >= old(t)@.len(),
                t@.len() <= if old(t)@.len() > rn { old(t)@.len() as int } else { rn + 1 },
                forall|k: int| 0 <= k < old(t)@.len() ==> #[trigger] t@[k] == old(t)@[k],
                forall|k: int| old(t)@.len() <= k < t@.len() ==> #[trigger] t@[k]@ == Seq::<char>::empty(),
            decreases rn + 1 - t@.len(),
        {
            t.push(String::new());
        }
        let ghost grown = t@;
        t.set(rn, s);
        proof {
            let want = set_v(strs(old(t)@), rn as int, s@);
            assert(want.len() == t@.len());
            assert forall|k: int| 0 <= k < t@.len() implies #[trigger] strs(t@)[k] == want[k] by {
                if k != rn {
                    assert(t@[k] == grown[k]);
                }
            }
            assert(strs(t@) =~= want);
        }
    }

    /// A name-table or file-level record, its id `id` read and its body at `*i`.
    #[verifier::spinoff_prover]
    #[verifier::rlimit(40)]
    fn table_record(&mut self, b: &[u8], i: &mut usize, id: u64) -> (r: Result<(), OasisError>)
        requires
            old(self).wf(),
            *old(i) <= b@.len(),
        ensures
            final(self).wf(),
            match table_step(old(self)@, b@, *old(i) as int, id as nat) {
                Some((s, j)) => r is Ok && final(self)@ == s && *final(i) == j && *old(i) < j <= b@.len(),
                None => r is Err,
            },
    {
        let ghost s0 = self@;
        let ghost j = *i as int;
        if id == 1 {
            // START: version, unit, offset flag (and, with it clear, the table offsets)
            rstr_f(b, i)?;
            let unit = real_f(b, i)?;
            self.units.push(unit);
            let offset_flag = ru_f(b, i)?;
            let ghost j3 = *i as int;
            if offset_flag == 0 {
                let mut k: usize = 0;
                #[verifier::loop_isolation(false)]
                while k < 12
                    invariant
                        k <= 12,
                        j < j3 <= *i <= b@.len(),
                        u_list(b@, j3, k as nat) matches Some((_, p)) && p == *i,
                    decreases 12 - k,
                {
                    match ru_f(b, i) {
                        Ok(_) => {},
                        Err(e) => {
                            proof {
                                lemma_u_list_none(b@, j3, (k + 1) as nat, 12);
                            }
                            return Err(e);
                        },
                    }
                    k += 1;
                }
            }
            proof {
                assert(self@ == StateV { units: s0.units.push(unit), ..s0 });
            }
        } else if id == 3 || id == 5 {
            let s = rstr_f(b, i)?;
            let ghost s_v = s@;
            if id == 3 {
                self.cellnames.push(s);
                proof {
                    assert(strs(self.cellnames@) =~= s0.cellnames.push(s_v));
                }
            } else {
                self.textstrings.push(s);
                proof {
                    assert(strs(self.textstrings@) =~= s0.textstrings.push(s_v));
                }
            }
        } else if id == 4 || id == 6 {
            let s = rstr_f(b, i)?;
            let rn = ru_f(b, i)?;
            if id == 4 {
                Self::set_entry(&mut self.cellnames, rn, s);
            } else {
                Self::set_entry(&mut self.textstrings, rn, s);
            }
        } else if id == 7 || id == 9 {
            rstr_f(b, i)?;  // name/string table entry, not kept
        } else if id == 8 || id == 10 || id == 30 || id == 31 {
            name_record_f(b, i, id)?;
        } else if id == 11 || id == 12 {
            rstr_f(b, i)?;  // layer name
            interval_f(b, i)?;  // layer interval
            interval_f(b, i)?;  // datatype/texttype interval
        } else {
            return Err(Self::unsupported(id, *i));
        }
        Ok(())
    }

    /// CELL by reference number (13) or by name (14), its body at `*i`.
    fn cell_record(&mut self, b: &[u8], i: &mut usize, id: u64) -> (r: Result<(), OasisError>)
        requires
            old(self).wf(),
            id == 13 || id == 14,
        ensures
            final(self).wf(),
            match cell_step(old(self)@, b@, *old(i) as int, id as nat) {
                Some((s, j)) => r is Ok && final(self)@ == s && *final(i) == j && *old(i) < j <= b@.len(),
                None => r is Err,
            },
    {
        self.finish_cell();
        if id == 13 {
            let rn = ru_f(b, i)?;
            let name = name_of_ref(&self.cellnames, rn);
            self.cur_refnum = Some(rn);
            let c = OCell { name, shapes: Vec::new() };
            proof {
                assert(c@.shapes =~= Seq::<ShapeV>::empty());
            }
            self.cell = Some(c);
        } else {
            let name = rstr_f(b, i)?;
            let c = OCell { name, shapes: Vec::new() };
            proof {
                assert(c@.shapes =~= Seq::<ShapeV>::empty());
            }
            self.cell = Some(c);
        }
        Ok(())
    }

    /// A geometry record (17 to 27), its body at `*i`: its shape stamped into the open cell.
    #[verifier::spinoff_prover]
    #[verifier::rlimit(40)]
    fn geo_record(&mut self, b: &[u8], i: &mut usize, id: u64) -> (r: Result<(), OasisError>)
        requires
            old(self).wf(),
            17 <= id <= 27,
        ensures
            final(self).wf(),
            match geo_step(old(self)@, b@, *old(i) as int, id as nat) {
                Some((s, j)) => r is Ok && final(self)@ == s && *final(i) == j && *old(i) < j <= b@.len(),
                None => r is Err,
            },
    {
        if id == R_RECTANGLE {
            let (el, reps) = read_rectangle(b, i, &mut self.modal, &mut self.repetition)?;
            push_repeated(&mut self.cell, el, &reps);
        } else if id == R_POLYGON {
            let (el, reps) = read_polygon(b, i, &mut self.modal, &mut self.repetition)?;
            push_repeated(&mut self.cell, el, &reps);
        } else if id == 22 {
            let (el, reps) = read_path(b, i, &mut self.modal, &mut self.repetition)?;
            push_repeated(&mut self.cell, el, &reps);
        } else if id == 23 || id == 24 || id == 25 {
            let (el, reps) = read_trapezoid(b, i, id, &mut self.modal, &mut self.repetition)?;
            push_repeated(&mut self.cell, el, &reps);
        } else if id == 26 {
            let (el, reps) = read_ctrapezoid(b, i, &mut self.modal, &mut self.repetition)?;
            push_repeated(&mut self.cell, el, &reps);
        } else if id == 27 {
            let (el, reps) = read_circle(b, i, &mut self.modal, &mut self.repetition)?;
            push_repeated(&mut self.cell, el, &reps);
        } else if id == 19 {
            let (el, reps) = read_text(b, i, &mut self.modal, &mut self.text, &self.textstrings, &mut self.repetition)?;
            push_repeated(&mut self.cell, el, &reps);
        } else {
            let (el, reps) = read_placement(b, i, id, &mut self.modal, &self.cellnames, &mut self.repetition)?;
            match el {
                Some(el) => push_repeated(&mut self.cell, el, &reps),
                None => {},
            }
        }
        Ok(())
    }

    /// Read the records of `b` into the state until END or the end of `b`. A CBLOCK's
    /// decoded records are read in the same state; one may hold another, `left` levels deep.
    #[verifier::spinoff_prover]
    #[verifier::rlimit(40)]
    fn process(&mut self, b: &[u8], left: u32) -> (r: Result<(), OasisError>)
        requires
            old(self).wf(),
        ensures
            final(self).wf(),
            match run_v(old(self)@, b@, 0, left as nat) {
                Some(s) => r is Ok && final(self)@ == s,
                None => r is Err,
            },
        decreases left,
    {
        let mut i: usize = 0;
        let blen = b.len();
        while i < blen && !self.ended
            invariant
                blen == b@.len(),
                i <= blen,
                self.wf(),
                run_v(old(self)@, b@, 0, left as nat) == run_v(self@, b@, i as int, left as nat),
            decreases blen - i,
        {
            let ghost s0 = self@;
            let ghost i0 = i as int;
            proof {
                lemma_run_step(s0, b@, i0, left as nat);
            }
            let id = ru_f(b, &mut i)?;
            if id == 34 {
                // CBLOCK: compression type, uncompressed and compressed byte counts, data
                let comp_type = ru_f(b, &mut i)?;
                ru_f(b, &mut i)?;
                let comp_len = ru_f(b, &mut i)?;
                if comp_len > (blen - i) as u64 {
                    return Err(OasisError(String::from_str("cblock length runs past end of file")));
                }
                let end = i + comp_len as usize;
                let comp = crate::gds::sub_bytes(b, i, end);
                i = end;
                if comp_type != 0 {
                    let mut msg = String::from_str("cblock compression type ");
                    msg.append(crate::engine::decimal(comp_type).as_str());
                    msg.append(" unsupported (only DEFLATE=0)");
                    return Err(OasisError(msg));
                }
                if left == 0 {
                    return Err(OasisError(String::from_str("cblocks nested too deep")));
                }
                let data = inflate_cblock(comp.as_slice())?;
                // decoded records continue in this context
                self.process(data.as_slice(), left - 1)?;
            } else if id == 0 || id == 15 || id == 16 {
                // PAD; XYABSOLUTE / XYRELATIVE: only absolute geometry is emitted
            } else if id == R_END {
                self.ended = true;
            } else if id == 13 || id == 14 {
                self.cell_record(b, &mut i, id)?;
            } else if 17 <= id && id <= 27 {
                self.geo_record(b, &mut i, id)?;
            } else if id == R_PROPERTY || id == R_PROPERTY_REPEAT {
                property_f(b, &mut i, id)?;
            } else if id == 1 || (3 <= id && id <= 12) || id == 30 || id == 31 {
                self.table_record(b, &mut i, id)?;
            } else {
                return Err(Self::unsupported(id, i - 1));
            }
            proof {
                assert(step_v(s0, b@, i0, left as nat) == Some((self@, i as int)));
            }
        }
        Ok(())
    }
}

/// How many levels of CBLOCK inside CBLOCK a file may nest.
pub const CBLOCK_NESTING: u32 = 64;

/// The OASIS magic bytes, `%SEMI-OASIS\r\n`.
pub open spec fn magic() -> Seq<u8> {
    seq![37u8, 83, 69, 77, 73, 45, 79, 65, 83, 73, 83, 13, 10]
}

/// `b` starts with the OASIS magic bytes.
pub open spec fn has_magic(b: Seq<u8>) -> bool {
    b.len() >= 13 && b.take(13) == magic()
}

/// A finished cell renamed from the cell-name table when it was opened by a reference
/// number that the table holds a non-empty name for.
pub open spec fn resolved(c: OCellV, rn: Option<u64>, names: Seq<Seq<char>>) -> OCellV {
    match rn {
        Some(rn) => if rn < names.len() && names[rn as int].len() > 0 {
            OCellV { name: names[rn as int], shapes: c.shapes }
        } else {
            c
        },
        None => c,
    }
}

/// What an OASIS file reads as: none without the magic bytes or where a record is
/// refused; else the units and the cells of the records after the magic, the last cell
/// closed and each cell opened by reference number named from the table as it stands at
/// the end of the file.
pub open spec fn parse_spec(b: Seq<u8>) -> Option<LayoutV> {
    if !has_magic(b) {
        None
    } else {
        match run_v(start_v(), b.subrange(13, b.len() as int), 0, CBLOCK_NESTING as nat) {
            None => None,
            Some(st) => {
                let f = finish_v(st);
                Some(
                    LayoutV {
                        units: f.units,
                        cells: Seq::new(f.cells.len(), |k: int| resolved(f.cells[k], f.refnums[k], f.cellnames)),
                    },
                )
            },
        }
    }
}

/// Read an OASIS file: check the magic, read every record (CBLOCKs included), close the
/// last cell, and name each cell opened by reference number from the name table read by
/// the end of the file.
pub fn parse(b: &[u8]) -> (r: Result<Layout, OasisError>)
    ensures
        !has_magic(b@) ==> r is Err,
        match parse_spec(b@) {
            Some(l) => r matches Ok(lay) && lay@ == l,
            None => r is Err,
        },
{
    let m: [u8; 13] = [37, 83, 69, 77, 73, 45, 79, 65, 83, 73, 83, 13, 10];
    if b.len() < 13 {
        return Err(OasisError(String::from_str("not an OASIS file (bad magic)")));
    }
    let mut k: usize = 0;
    while k < 13
        invariant
            k <= 13,
            b@.len() >= 13,
            m@ == magic(),
            forall|t: int| 0 <= t < k ==> b@[t] == magic()[t],
        decreases 13 - k,
    {
        if b[k] != m[k] {
            return Err(OasisError(String::from_str("not an OASIS file (bad magic)")));
        }
        k += 1;
    }
    proof {
        assert(b@.take(13) =~= magic());
    }
    let mut st = ParseState {
        units: Vec::new(),
        cells: Vec::new(),
        cellnames: Vec::new(),
        textstrings: Vec::new(),
        cell: None,
        refnums: Vec::new(),
        cur_refnum: None,
        modal: Modal { layer: 0, datatype: 0, halfwidth: 0, geom_w: 0, geom_h: 0, x: 0, y: 0, textlayer: 0, texttype: 0, text_x: 0, text_y: 0 },
        text: String::new(),
        repetition: Vec::new(),
        ended: false,
    };
    proof {
        assert(st.cells@.map_values(|c: OCell| c@) =~= Seq::<OCellV>::empty());
        assert(strs(st.cellnames@) =~= Seq::<Seq<char>>::empty());
        assert(strs(st.textstrings@) =~= Seq::<Seq<char>>::empty());
        assert(st@ == start_v());
    }
    let body = crate::gds::sub_bytes(b, 13, b.len());
    st.process(body.as_slice(), CBLOCK_NESTING)?;
    st.finish_cell();
    let ghost f = st@;
    // resolve cells opened by reference number from the (possibly end-located) table
    let n = st.cells.len();
    let mut idx: usize = 0;
    while idx < n
        invariant
            idx <= n,
            n == st.cells@.len(),
            st.wf(),
            st.units@ == f.units,
            st.refnums@ == f.refnums,
            strs(st.cellnames@) == f.cellnames,
            f.cells.len() == n,
            f.refnums.len() == n,
            forall|t: int| 0 <= t < idx ==> #[trigger] st.cells@[t]@ == resolved(f.cells[t], f.refnums[t], f.cellnames),
            forall|t: int| idx <= t < n ==> #[trigger] st.cells@[t]@ == f.cells[t],
        decreases n - idx,
    {
        let ghost before = st.cells@;
        match st.refnums[idx] {
            Some(rn) => {
                if rn < st.cellnames.len() as u64 && !st.cellnames[rn as usize].as_str().is_empty() {
                    let name = st.cellnames[rn as usize].clone();
                    st.cells[idx].name = name;
                    proof {
                        assert(strs(st.cellnames@)[rn as int] == st.cellnames@[rn as int]@);
                        assert(st.cells@[idx as int]@.shapes == before[idx as int]@.shapes);
                        assert(st.cells@[idx as int]@ == resolved(f.cells[idx as int], f.refnums[idx as int], f.cellnames));
                    }
                } else {
                    proof {
                        if rn < st.cellnames@.len() {
                            assert(strs(st.cellnames@)[rn as int] == st.cellnames@[rn as int]@);
                        }
                    }
                }
            },
            None => {},
        }
        proof {
            assert forall|t: int| 0 <= t < n && t != idx implies #[trigger] st.cells@[t] == before[t] by {}
        }
        idx += 1;
    }
    let lay = Layout { units: st.units, cells: st.cells };
    proof {
        assert(lay@.cells =~= Seq::new(f.cells.len(), |k: int| resolved(f.cells[k], f.refnums[k], f.cellnames)));
    }
    Ok(lay)
}

} // verus!
