//! GDSII reader + writer (round-trip).
//!
//! GDSII is a stream of records: `u16 length` (big-endian, incl. the 4-byte header),
//! `u8 record-type`, `u8 data-type`, then `length-4` bytes of data. Coordinates are
//! big-endian `i32`; `UNITS` carries two 8-byte GDS reals (user unit, db unit in
//! metres). BOUNDARY/PATH/SREF/AREF/BOX/TEXT are read and written back, a reference's
//! transform (STRANS, MAG, ANGLE) included.
//!
//! The 8-byte GDS reals (units, magnification, angle) are kept exactly as stored: as
//! the big-endian `u64` of their eight bytes.

use vstd::prelude::*;
use vstd::string::StringExecFns;
use vstd::string::StringSliceAdditionalSpecFns;
use vstd::utf8::{encode_utf8, encode_scalar, decode_utf8, valid_utf8};
use vstd::arithmetic::div_mod::lemma_mod_breakdown;

verus! {

/// A layout element.
#[derive(Debug, Clone)]
pub enum Element {
    Boundary { layer: i16, datatype: i16, pts: Vec<(i32, i32)> },
    Path { layer: i16, datatype: i16, width: i32, pts: Vec<(i32, i32)> },
    Sref { sname: String, x: i32, y: i32, reflect: bool, mag: u64, angle: u64 },
    Aref { sname: String, cols: i16, rows: i16, pts: Vec<(i32, i32)>, reflect: bool, mag: u64, angle: u64 },
    Box { layer: i16, boxtype: i16, pts: Vec<(i32, i32)> },
    Text { layer: i16, texttype: i16, x: i32, y: i32, string: String },
}

/// A named cell (structure) and its elements.
#[derive(Debug, Clone)]
pub struct Cell {
    pub name: String,
    pub elements: Vec<Element>,
}

/// A library: its name, its units as 8-byte GDS reals (db units per user unit, metres per
/// db unit), and its cells.
#[derive(Debug, Clone)]
pub struct Library {
    pub name: String,
    pub user_unit: u64,
    pub db_unit: u64,
    pub cells: Vec<Cell>,
}

/// The 8-byte GDS real of `1e-3`.
pub const REAL8_MILLI: u64 = 0x3e41_8937_4bc6_a7f0;
/// The 8-byte GDS real of `1e-9`.
pub const REAL8_NANO: u64 = 0x3944_b82f_a09b_5a54;

impl Library {
    /// An empty library "LIB" in the usual units (1e-3 user unit, 1e-9 m per db unit).
    pub fn default() -> (lib: Library)
        ensures
            lib@ == read_init().lib,
    {
        let lib = Library { name: String::from_str("LIB"), user_unit: REAL8_MILLI, db_unit: REAL8_NANO, cells: Vec::new() };
        proof {
            reveal_strlit("LIB");
            assert(lib.cells@.map_values(|c: Cell| c@) =~= Seq::<CellV>::empty());
            assert(lib.name@ =~= seq!['L', 'I', 'B']);
        }
        lib
    }
}

impl Cell {
    /// An unnamed cell with no elements.
    pub fn default() -> (c: Cell)
        ensures
            c@ == (CellV { name: Seq::empty(), elements: Seq::empty() }),
    {
        let c = Cell { name: String::new(), elements: Vec::new() };
        proof {
            assert(c.elements@.map_values(|e: Element| e@) =~= Seq::<ElemV>::empty());
        }
        c
    }
}

// record types
pub const HEADER: u8 = 0x00;
pub const BGNLIB: u8 = 0x01;
pub const LIBNAME: u8 = 0x02;
pub const UNITS: u8 = 0x03;
pub const ENDLIB: u8 = 0x04;
pub const BGNSTR: u8 = 0x05;
pub const STRNAME: u8 = 0x06;
pub const ENDSTR: u8 = 0x07;
pub const BOUNDARY: u8 = 0x08;
pub const PATH: u8 = 0x09;
pub const SREF: u8 = 0x0A;
pub const AREF: u8 = 0x0B;
pub const TEXT: u8 = 0x0C;
pub const LAYER: u8 = 0x0D;
pub const DATATYPE: u8 = 0x0E;
pub const WIDTH: u8 = 0x0F;
pub const XY: u8 = 0x10;
pub const ENDEL: u8 = 0x11;
pub const SNAME: u8 = 0x12;
pub const COLROW: u8 = 0x13;
pub const TEXTTYPE: u8 = 0x16;
pub const STRING: u8 = 0x19;
pub const STRANS: u8 = 0x1A;
pub const MAG: u8 = 0x1B;
pub const ANGLE: u8 = 0x1C;
pub const BOX: u8 = 0x2D;
pub const BOXTYPE: u8 = 0x2E;

// ---- primitives ---------------------------------------------------------------

/// The big-endian 16-bit value of two bytes.
pub open spec fn be16(hi: u8, lo: u8) -> nat {
    (hi as nat) * 256 + lo as nat
}

/// The big-endian value of the `n` bytes at `i`.
pub open spec fn be_bytes(d: Seq<u8>, i: int, n: nat) -> nat
    decreases n,
{
    if n == 0 {
        0
    } else {
        be_bytes(d, i, (n - 1) as nat) * 256 + d[i + n - 1] as nat
    }
}

/// A record: its total length (header included, modulo 2^16) big-endian, its type and
/// data type, then its data.
pub open spec fn rec_bytes(rtype: u8, dtype: u8, data: Seq<u8>) -> Seq<u8> {
    let len = (4 + data.len()) % 0x1_0000;
    seq![(len / 256) as u8, (len % 256) as u8, rtype, dtype] + data
}

/// Append one record.
pub fn rec(o: &mut Vec<u8>, rtype: u8, dtype: u8, data: &[u8])
    ensures
        final(o)@ == old(o)@ + rec_bytes(rtype, dtype, data@),
{
    let len: u32 = ((data.len() % 0x1_0000) as u32 + 4) % 0x1_0000;
    o.push((len / 256) as u8);
    o.push((len % 256) as u8);
    o.push(rtype);
    o.push(dtype);
    let ghost mid = o@;
    let mut k: usize = 0;
    while k < data.len()
        invariant
            k <= data@.len(),
            o@ == mid + data@.take(k as int),
        decreases data@.len() - k,
    {
        o.push(data[k]);
        k += 1;
        proof {
            assert(o@ =~= mid + data@.take(k as int));
        }
    }
    proof {
        assert(data@.take(data@.len() as int) =~= data@);
        assert((4 + data@.len()) % 0x1_0000 == ((data@.len() % 0x1_0000) + 4) % 0x1_0000);
        assert(final(o)@ =~= old(o)@ + rec_bytes(rtype, dtype, data@));
    }
}

/// The big-endian `i16` at the start of `d` (0 when fewer than two bytes).
pub open spec fn be_i16_spec(d: Seq<u8>) -> i16 {
    if d.len() >= 2 { be16(d[0], d[1]) as u16 as i16 } else { 0 }
}

/// The big-endian `i32` at the start of `d` (0 when fewer than four bytes).
pub open spec fn be_i32_spec(d: Seq<u8>) -> i32 {
    if d.len() >= 4 { be_bytes(d, 0, 4) as u32 as i32 } else { 0 }
}

/// Big-endian `i16` at the start of `d` (0 when fewer than two bytes).
pub fn be_i16(d: &[u8]) -> (v: i16)
    ensures
        v == be_i16_spec(d@),
{
    if d.len() >= 2 {
        ((d[0] as u16) * 256 + d[1] as u16) as i16
    } else {
        0
    }
}

/// Big-endian `i32` at offset `i` of `d`, which holds at least four bytes from there.
fn be_i32_at(d: &[u8], i: usize) -> (v: i32)
    requires
        i + 4 <= d@.len(),
    ensures
        v == be_i32_spec(d@.subrange(i as int, i + 4)),
{
    let u: u32 = (d[i] as u32) * 0x100_0000 + (d[i + 1] as u32) * 0x1_0000 + (d[i + 2] as u32) * 0x100 + d[i + 3] as u32;
    proof {
        let s = d@.subrange(i as int, i + 4);
        reveal_with_fuel(be_bytes, 5);
        assert(be_bytes(s, 0, 4) == u);
    }
    u as i32
}

/// Big-endian `i32` at the start of `d` (0 when fewer than four bytes).
pub fn be_i32(d: &[u8]) -> (v: i32)
    ensures
        v == be_i32_spec(d@),
{
    if d.len() >= 4 {
        let v = be_i32_at(d, 0);
        proof {
            reveal_with_fuel(be_bytes, 5);
            assert(be_bytes(d@.subrange(0, 4), 0, 4) == be_bytes(d@, 0, 4));
        }
        v
    } else {
        0
    }
}

/// The points of an XY record: one big-endian `(x, y)` per eight bytes, a trailing
/// partial group ignored.
pub open spec fn xy_points(d: Seq<u8>) -> Seq<(i32, i32)> {
    Seq::new(
        (d.len() / 8) as nat,
        |k: int| (be_i32_spec(d.subrange(8 * k, 8 * k + 4)), be_i32_spec(d.subrange(8 * k + 4, 8 * k + 8))),
    )
}

/// Decode XY record data into points.
pub fn parse_xy(d: &[u8]) -> (v: Vec<(i32, i32)>)
    ensures
        v@ == xy_points(d@),
{
    let mut v: Vec<(i32, i32)> = Vec::new();
    let mut i: usize = 0;
    let len = d.len();
    while len - i >= 8
        invariant
            len == d@.len(),
            i % 8 == 0,
            i <= len,
            v@.len() == i / 8,
            forall|k: int| 0 <= k < v@.len() ==> #[trigger] v@[k] == xy_points(d@)[k],
        decreases len - i,
    {
        let x = be_i32_at(d, i);
        let y = be_i32_at(d, i + 4);
        proof {
            assert(xy_points(d@)[(i / 8) as int] == (x, y));
        }
        v.push((x, y));
        i += 8;
    }
    proof {
        assert(v@ =~= xy_points(d@));
    }
    v
}

/// The big-endian bytes of an `i32`.
pub open spec fn i32_be(x: i32) -> Seq<u8> {
    let u = x as u32;
    seq![(u / 0x100_0000) as u8, ((u / 0x1_0000) % 256) as u8, ((u / 0x100) % 256) as u8, (u % 256) as u8]
}

/// The big-endian bytes of a point list.
pub open spec fn xy_spec(pts: Seq<(i32, i32)>) -> Seq<u8>
    decreases pts.len(),
{
    if pts.len() == 0 {
        Seq::empty()
    } else {
        xy_spec(pts.drop_last()) + i32_be(pts.last().0) + i32_be(pts.last().1)
    }
}

/// Append the big-endian bytes of an `i32`.
fn push_i32(o: &mut Vec<u8>, x: i32)
    ensures
        final(o)@ == old(o)@ + i32_be(x),
{
    let u = x as u32;
    o.push((u / 0x100_0000) as u8);
    o.push(((u / 0x1_0000) % 256) as u8);
    o.push(((u / 0x100) % 256) as u8);
    o.push((u % 256) as u8);
    proof {
        assert(final(o)@ =~= old(o)@ + i32_be(x));
    }
}

/// Encode points as XY record data.
pub fn xy_bytes(pts: &[(i32, i32)]) -> (o: Vec<u8>)
    ensures
        o@ == xy_spec(pts@),
{
    let mut o: Vec<u8> = Vec::new();
    let mut k: usize = 0;
    while k < pts.len()
        invariant
            k <= pts@.len(),
            o@ == xy_spec(pts@.take(k as int)),
        decreases pts@.len() - k,
    {
        let (x, y) = pts[k];
        push_i32(&mut o, x);
        push_i32(&mut o, y);
        proof {
            assert(pts@.take(k + 1).drop_last() =~= pts@.take(k as int));
        }
        k += 1;
    }
    proof {
        assert(pts@.take(pts@.len() as int) =~= pts@);
    }
    o
}

/// An `i32` survives its big-endian bytes.
proof fn lemma_i32_be_round_trip(x: i32)
    ensures
        be_i32_spec(i32_be(x)) == x,
{
    let u = x as u32;
    let s = i32_be(x);
    reveal_with_fuel(be_bytes, 5);
    let (a, b, c, d) = (u / 0x100_0000, (u / 0x1_0000) % 256, (u / 0x100) % 256, u % 256);
    assert(((a * 256 + b) * 256 + c) * 256 + d == u) by (nonlinear_arith)
        requires
            a == u / 0x100_0000,
            b == (u / 0x1_0000) % 256,
            c == (u / 0x100) % 256,
            d == u % 256,
            u < 0x1_0000_0000,
    {
        assert(u == a * 0x100_0000 + (u % 0x100_0000));
        assert(u % 0x100_0000 == b * 0x1_0000 + (u % 0x1_0000));
        assert(u % 0x1_0000 == c * 0x100 + d);
    }
    assert(be_bytes(s, 0, 4) == u);
    assert((x as u32) as i32 == x) by (bit_vector);
}

proof fn lemma_xy_len(pts: Seq<(i32, i32)>)
    ensures
        xy_spec(pts).len() == 8 * pts.len(),
    decreases pts.len(),
{
    if pts.len() > 0 {
        lemma_xy_len(pts.drop_last());
    }
}

/// Reading XY data back gives the points written.
pub proof fn lemma_xy_round_trip(pts: Seq<(i32, i32)>)
    ensures
        xy_points(xy_spec(pts)) == pts,
    decreases pts.len(),
{
    lemma_xy_len(pts);
    if pts.len() > 0 {
        let head = pts.drop_last();
        lemma_xy_round_trip(head);
        lemma_xy_len(head);
        let d = xy_spec(pts);
        let dh = xy_spec(head);
        let n = head.len() as int;
        assert(d =~= dh + (i32_be(pts.last().0) + i32_be(pts.last().1)));
        assert forall|k: int| 0 <= k < pts.len() implies #[trigger] xy_points(d)[k] == pts[k] by {
            if k < n {
                assert(d.subrange(8 * k, 8 * k + 4) =~= dh.subrange(8 * k, 8 * k + 4));
                assert(d.subrange(8 * k + 4, 8 * k + 8) =~= dh.subrange(8 * k + 4, 8 * k + 8));
                assert(xy_points(dh)[k] == head[k]);
            } else {
                assert(d.subrange(8 * k, 8 * k + 4) =~= i32_be(pts.last().0));
                assert(d.subrange(8 * k + 4, 8 * k + 8) =~= i32_be(pts.last().1));
                lemma_i32_be_round_trip(pts.last().0);
                lemma_i32_be_round_trip(pts.last().1);
            }
        }
        assert(xy_points(d) =~= pts);
    } else {
        assert(xy_points(xy_spec(pts)) =~= pts);
    }
}

/// A string's bytes, padded with one zero to an even length (records must be even).
pub open spec fn str_bytes_spec(s: Seq<u8>) -> Seq<u8> {
    if s.len() % 2 != 0 { s.push(0u8) } else { s }
}

/// A string's bytes, padded to an even length.
pub fn str_bytes(s: &str) -> (b: Vec<u8>)
    ensures
        b@ == str_bytes_spec(s.spec_bytes()),
{
    let src = s.as_bytes();
    let mut b: Vec<u8> = Vec::new();
    let mut k: usize = 0;
    while k < src.len()
        invariant
            k <= src@.len(),
            b@ == src@.take(k as int),
        decreases src@.len() - k,
    {
        b.push(src[k]);
        k += 1;
        proof {
            assert(b@ =~= src@.take(k as int));
        }
    }
    proof {
        assert(src@.take(src@.len() as int) =~= src@);
    }
    if b.len() % 2 != 0 {
        b.push(0);  // records must be even length
    }
    b
}

/// The bytes of `d` before its first zero byte.
pub open spec fn until_nul(d: Seq<u8>) -> Seq<u8>
    decreases d.len(),
{
    if d.len() == 0 {
        d
    } else if d[0] == 0 {
        Seq::empty()
    } else {
        seq![d[0]] + until_nul(d.drop_first())
    }
}

/// What `String::from_utf8_lossy` decodes bytes to.
pub uninterp spec fn lossy_utf8(bytes: Seq<u8>) -> Seq<char>;

/// The text of bytes read as UTF-8: the characters they encode when they are valid UTF-8,
/// else what `String::from_utf8_lossy` makes of them.
pub open spec fn utf8_text(bytes: Seq<u8>) -> Seq<char> {
    if valid_utf8(bytes) {
        decode_utf8(bytes)
    } else {
        lossy_utf8(bytes)
    }
}

/// `String::from_utf8_lossy`: decodes bytes as UTF-8, replacing invalid sequences; its
/// result, a function of the bytes alone, is named [`lossy_utf8`]. Valid UTF-8 decodes
/// unchanged, as its documentation states.
#[verifier::external_body]
pub(crate) fn utf8_lossy(bytes: &[u8]) -> (s: String)
    ensures
        s@ == lossy_utf8(bytes@),
        valid_utf8(bytes@) ==> s@ == decode_utf8(bytes@),
{
    String::from_utf8_lossy(bytes).into_owned()
}

/// A Unicode `White_Space` character: what `char::is_whitespace` accepts, and so what
/// `str::trim_end` drops.
pub open spec fn is_white(c: char) -> bool {
    let u = c as u32;
    ||| 0x09 <= u <= 0x0D
    ||| u == 0x20 || u == 0x85 || u == 0xA0 || u == 0x1680
    ||| 0x2000 <= u <= 0x200A
    ||| u == 0x2028 || u == 0x2029 || u == 0x202F || u == 0x205F || u == 0x3000
}

/// `s` without its trailing whitespace.
pub open spec fn trim_white(s: Seq<char>) -> Seq<char>
    decreases s.len(),
{
    if s.len() > 0 && is_white(s.last()) {
        trim_white(s.drop_last())
    } else {
        s
    }
}

/// Whether `c` is whitespace.
fn white(c: char) -> (b: bool)
    ensures
        b == is_white(c),
{
    let u = c as u32;
    (0x09 <= u && u <= 0x0D) || u == 0x20 || u == 0x85 || u == 0xA0 || u == 0x1680 || (0x2000 <= u && u <= 0x200A) || u
        == 0x2028 || u == 0x2029 || u == 0x202F || u == 0x205F || u == 0x3000
}

/// `s` with its trailing whitespace dropped.
fn trim_end(s: &str) -> (t: String)
    ensures
        t@ == trim_white(s@),
{
    let mut k = s.unicode_len();
    proof {
        assert(s@.take(k as int) =~= s@);
    }
    loop
        invariant
            k <= s@.len(),
            trim_white(s@) == trim_white(s@.take(k as int)),
        ensures
            k <= s@.len(),
            trim_white(s@) == trim_white(s@.take(k as int)),
            trim_white(s@.take(k as int)) == s@.take(k as int),
        decreases k,
    {
        if k == 0 {
            break;
        }
        let c = s.get_char(k - 1);
        if !white(c) {
            proof {
                assert(s@.take(k as int).last() == c);
            }
            break;
        }
        proof {
            assert(s@.take(k as int).drop_last() =~= s@.take(k - 1));
        }
        k -= 1;
    }
    String::from_str(s.substring_char(0, k))
}

/// Text of a string record: the bytes before the first zero, decoded (invalid UTF-8
/// replaced), trailing whitespace trimmed.
pub fn ascii(d: &[u8]) -> (s: String)
    ensures
        s@ == text_of(d@),
{
    let mut end: usize = 0;
    while end < d.len() && d[end] != 0
        invariant
            end <= d@.len(),
            forall|k: int| 0 <= k < end ==> d@[k] != 0,
        decreases d@.len() - end,
    {
        end += 1;
    }
    let head = copy_bytes(d, end);
    proof {
        lemma_until_nul(d@, end as int);
    }
    let raw = utf8_lossy(head.as_slice());
    assert(raw@ == utf8_text(head@));
    trim_end(raw.as_str())
}

/// The first `n` bytes of `d`, copied.
fn copy_bytes(d: &[u8], n: usize) -> (v: Vec<u8>)
    requires
        n <= d@.len(),
    ensures
        v@ == d@.take(n as int),
{
    let mut v: Vec<u8> = Vec::new();
    let mut k: usize = 0;
    while k < n
        invariant
            k <= n <= d@.len(),
            v@ == d@.take(k as int),
        decreases n - k,
    {
        v.push(d[k]);
        k += 1;
        proof {
            assert(v@ =~= d@.take(k as int));
        }
    }
    v
}

/// The bytes before the first zero are the prefix up to that zero (or all).
proof fn lemma_until_nul(d: Seq<u8>, end: int)
    requires
        0 <= end <= d.len(),
        forall|k: int| 0 <= k < end ==> d[k] != 0,
        end == d.len() || d[end] == 0,
    ensures
        until_nul(d) == d.take(end),
    decreases d.len(),
{
    if d.len() > 0 {
        if end == 0 {
            assert(d.take(0) =~= Seq::<u8>::empty());
        } else {
            lemma_until_nul(d.drop_first(), end - 1);
            assert(seq![d[0]] + d.drop_first().take(end - 1) =~= d.take(end));
        }
    } else {
        assert(d.take(end) =~= d);
    }
}

// ---- writer -------------------------------------------------------------------

/// The big-endian bytes of an `i16`.
pub open spec fn i16_be(v: i16) -> Seq<u8> {
    let u = v as u16;
    seq![(u / 256) as u8, (u % 256) as u8]
}

/// The `n` low bytes of `v`, big-endian.
pub open spec fn u64_be(v: nat, n: nat) -> Seq<u8>
    decreases n,
{
    if n == 0 {
        Seq::empty()
    } else {
        u64_be(v / 256, (n - 1) as nat).push((v % 256) as u8)
    }
}

/// `n` zero bytes.
pub open spec fn zeros(n: nat) -> Seq<u8> {
    Seq::new(n, |k: int| 0u8)
}

/// A string record: the UTF-8 bytes, padded to an even length.
pub open spec fn str_rec(rtype: u8, s: Seq<char>) -> Seq<u8> {
    rec_bytes(rtype, 6, str_bytes_spec(encode_utf8(s)))
}

/// A reference's transform records: STRANS (the reflection bit), then MAG and ANGLE
/// where they are set; nothing for a reference with no transform.
pub open spec fn strans_bytes(reflect: bool, mag: u64, angle: u64) -> Seq<u8> {
    let none = Seq::<u8>::empty();
    if reflect || mag != 0 || angle != 0 {
        rec_bytes(STRANS, 1, if reflect { seq![0x80u8, 0u8] } else { seq![0u8, 0u8] }) + (if mag != 0 {
            rec_bytes(MAG, 5, u64_be(mag as nat, 8))
        } else {
            none
        }) + (if angle != 0 { rec_bytes(ANGLE, 5, u64_be(angle as nat, 8)) } else { none })
    } else {
        none
    }
}

/// The records of one element; a reference's transform follows its name.
pub open spec fn elem_bytes(e: Element) -> Seq<u8> {
    let none = Seq::<u8>::empty();
    match e {
        Element::Boundary { layer, datatype, pts } => rec_bytes(BOUNDARY, 0, none) + rec_bytes(LAYER, 2, i16_be(layer)) + rec_bytes(
            DATATYPE,
            2,
            i16_be(datatype),
        ) + rec_bytes(XY, 3, xy_spec(pts@)) + rec_bytes(ENDEL, 0, none),
        Element::Path { layer, datatype, width, pts } => rec_bytes(PATH, 0, none) + rec_bytes(LAYER, 2, i16_be(layer)) + rec_bytes(
            DATATYPE,
            2,
            i16_be(datatype),
        ) + (if width != 0 { rec_bytes(WIDTH, 3, i32_be(width)) } else { none }) + rec_bytes(XY, 3, xy_spec(pts@)) + rec_bytes(
            ENDEL,
            0,
            none,
        ),
        Element::Sref { sname, x, y, reflect, mag, angle } => rec_bytes(SREF, 0, none) + str_rec(SNAME, sname@) + strans_bytes(
            reflect,
            mag,
            angle,
        ) + rec_bytes(XY, 3, i32_be(x) + i32_be(y)) + rec_bytes(ENDEL, 0, none),
        Element::Aref { sname, cols, rows, pts, reflect, mag, angle } => rec_bytes(AREF, 0, none) + str_rec(SNAME, sname@)
            + strans_bytes(reflect, mag, angle) + rec_bytes(
            COLROW,
            2,
            i16_be(cols) + i16_be(rows),
        ) + rec_bytes(XY, 3, xy_spec(pts@)) + rec_bytes(ENDEL, 0, none),
        Element::Box { layer, boxtype, pts } => rec_bytes(BOX, 0, none) + rec_bytes(LAYER, 2, i16_be(layer)) + rec_bytes(
            BOXTYPE,
            2,
            i16_be(boxtype),
        ) + rec_bytes(XY, 3, xy_spec(pts@)) + rec_bytes(ENDEL, 0, none),
        Element::Text { layer, texttype, x, y, string } => rec_bytes(TEXT, 0, none) + rec_bytes(LAYER, 2, i16_be(layer)) + rec_bytes(
            TEXTTYPE,
            2,
            i16_be(texttype),
        ) + rec_bytes(XY, 3, i32_be(x) + i32_be(y)) + str_rec(STRING, string@) + rec_bytes(ENDEL, 0, none),
    }
}

/// The records of a list of elements, in order.
pub open spec fn elems_bytes(es: Seq<Element>) -> Seq<u8>
    decreases es.len(),
{
    if es.len() == 0 {
        Seq::empty()
    } else {
        elems_bytes(es.drop_last()) + elem_bytes(es.last())
    }
}

/// The records of one cell: BGNSTR (zero dates), STRNAME, its elements, ENDSTR.
pub open spec fn cell_bytes(c: Cell) -> Seq<u8> {
    rec_bytes(BGNSTR, 2, zeros(24)) + str_rec(STRNAME, c.name@) + elems_bytes(c.elements@) + rec_bytes(ENDSTR, 0, Seq::empty())
}

/// The records of a list of cells, in order.
pub open spec fn cells_bytes(cs: Seq<Cell>) -> Seq<u8>
    decreases cs.len(),
{
    if cs.len() == 0 {
        Seq::empty()
    } else {
        cells_bytes(cs.drop_last()) + cell_bytes(cs.last())
    }
}

/// A whole stream: HEADER (version 600), BGNLIB (zero dates), LIBNAME, UNITS, the cells,
/// ENDLIB.
pub open spec fn lib_bytes(lib: Library) -> Seq<u8> {
    rec_bytes(HEADER, 2, seq![2u8, 0x58]) + rec_bytes(BGNLIB, 2, zeros(24)) + str_rec(LIBNAME, lib.name@) + rec_bytes(
        UNITS,
        5,
        u64_be(lib.user_unit as nat, 8) + u64_be(lib.db_unit as nat, 8),
    ) + cells_bytes(lib.cells@) + rec_bytes(ENDLIB, 0, Seq::empty())
}

/// The big-endian bytes of an `i16`.
fn i16_bytes(v: i16) -> (b: Vec<u8>)
    ensures
        b@ == i16_be(v),
{
    let u = v as u16;
    let b = vec![(u / 256) as u8, (u % 256) as u8];
    proof {
        assert(b@ =~= i16_be(v));
    }
    b
}

/// The big-endian bytes of an `i32`.
fn i32_bytes(v: i32) -> (b: Vec<u8>)
    ensures
        b@ == i32_be(v),
{
    let mut b: Vec<u8> = Vec::new();
    push_i32(&mut b, v);
    b
}

/// Append a reference's transform records (see [`strans_bytes`]).
fn write_strans(o: &mut Vec<u8>, reflect: bool, mag: u64, angle: u64)
    ensures
        final(o)@ == old(o)@ + strans_bytes(reflect, mag, angle),
{
    let ghost o0 = o@;
    if reflect || mag != 0 || angle != 0 {
        let bits: [u8; 2] = if reflect { [0x80u8, 0u8] } else { [0u8, 0u8] };
        proof {
            assert(bits@ =~= if reflect { seq![0x80u8, 0u8] } else { seq![0u8, 0u8] });
        }
        rec(o, STRANS, 0x01, &bits);
        let ghost o1 = o@;
        if mag != 0 {
            let mut m: Vec<u8> = Vec::new();
            push_u64(&mut m, mag);
            proof {
                assert(m@ =~= u64_be(mag as nat, 8));
            }
            rec(o, MAG, 0x05, m.as_slice());
        }
        let ghost o2 = o@;
        if angle != 0 {
            let mut a: Vec<u8> = Vec::new();
            push_u64(&mut a, angle);
            proof {
                assert(a@ =~= u64_be(angle as nat, 8));
            }
            rec(o, ANGLE, 0x05, a.as_slice());
        }
        proof {
            let none = Seq::<u8>::empty();
            if mag == 0 {
                assert(o2 =~= o1 + none);
            }
            if angle == 0 {
                assert(o@ =~= o2 + none);
            }
            assert(o@ =~= o0 + strans_bytes(reflect, mag, angle));
        }
    } else {
        proof {
            assert(o@ =~= o0 + strans_bytes(reflect, mag, angle));
        }
    }
}

/// Append the eight big-endian bytes of a `u64`.
fn push_u64(o: &mut Vec<u8>, v: u64)
    ensures
        final(o)@ == old(o)@ + u64_be(v as nat, 8),
{
    let mut tmp: [u8; 8] = [0u8; 8];
    let mut w = v;
    let mut k: usize = 8;
    while k > 0
        invariant
            k <= 8,
            u64_be(v as nat, 8) == u64_be(w as nat, k as nat) + tmp@.subrange(k as int, 8),
        decreases k,
    {
        k = k - 1;
        let ghost before = tmp@;
        tmp.set(k, (w % 256) as u8);
        proof {
            assert(tmp@.subrange(k as int, 8) =~= seq![(w % 256) as u8] + before.subrange(k + 1, 8));
            assert(u64_be(w as nat, (k + 1) as nat) == u64_be((w / 256) as nat, k as nat).push((w % 256) as u8));
            assert(u64_be((w / 256) as nat, k as nat).push((w % 256) as u8) + before.subrange(k + 1, 8) =~= u64_be(
                (w / 256) as nat,
                k as nat,
            ) + tmp@.subrange(k as int, 8));
        }
        w = w / 256;
    }
    proof {
        assert(u64_be(w as nat, 0) =~= Seq::<u8>::empty());
        assert(tmp@.subrange(0, 8) =~= tmp@);
    }
    let mut j: usize = 0;
    let ghost mid = o@;
    while j < 8
        invariant
            j <= 8,
            o@ == mid + tmp@.take(j as int),
            u64_be(v as nat, 8) == tmp@,
        decreases 8 - j,
    {
        o.push(tmp[j]);
        j += 1;
        proof {
            assert(o@ =~= mid + tmp@.take(j as int));
        }
    }
    proof {
        assert(tmp@.take(8) =~= tmp@);
    }
}

/// Append the records of one element.
#[verifier::spinoff_prover]
#[verifier::rlimit(40)]
pub fn write_elem(o: &mut Vec<u8>, el: &Element)
    ensures
        final(o)@ == old(o)@ + elem_bytes(*el),
{
    let none: [u8; 0] = [];
    proof {
        assert(none@ =~= Seq::<u8>::empty());
    }
    match el {
        Element::Boundary { layer, datatype, pts } => {
            rec(o, BOUNDARY, 0x00, &none);
            rec(o, LAYER, 0x02, i16_bytes(*layer).as_slice());
            rec(o, DATATYPE, 0x02, i16_bytes(*datatype).as_slice());
            rec(o, XY, 0x03, xy_bytes(pts.as_slice()).as_slice());
            rec(o, ENDEL, 0x00, &none);
        },
        Element::Path { layer, datatype, width, pts } => {
            rec(o, PATH, 0x00, &none);
            rec(o, LAYER, 0x02, i16_bytes(*layer).as_slice());
            rec(o, DATATYPE, 0x02, i16_bytes(*datatype).as_slice());
            let ghost mid = o@;
            if *width != 0 {
                rec(o, WIDTH, 0x03, i32_bytes(*width).as_slice());
            } else {
                proof {
                    assert(o@ =~= mid + Seq::<u8>::empty());
                }
            }
            rec(o, XY, 0x03, xy_bytes(pts.as_slice()).as_slice());
            rec(o, ENDEL, 0x00, &none);
        },
        Element::Sref { sname, x, y, reflect, mag, angle } => {
            rec(o, SREF, 0x00, &none);
            rec(o, SNAME, 0x06, str_bytes(sname.as_str()).as_slice());
            write_strans(o, *reflect, *mag, *angle);
            let mut xy = i32_bytes(*x);
            let mut yb = i32_bytes(*y);
            xy.append(&mut yb);
            rec(o, XY, 0x03, xy.as_slice());
            rec(o, ENDEL, 0x00, &none);
        },
        Element::Aref { sname, cols, rows, pts, reflect, mag, angle } => {
            rec(o, AREF, 0x00, &none);
            rec(o, SNAME, 0x06, str_bytes(sname.as_str()).as_slice());
            write_strans(o, *reflect, *mag, *angle);
            let mut cr = i16_bytes(*cols);
            let mut rb = i16_bytes(*rows);
            cr.append(&mut rb);
            rec(o, COLROW, 0x02, cr.as_slice());
            rec(o, XY, 0x03, xy_bytes(pts.as_slice()).as_slice());
            rec(o, ENDEL, 0x00, &none);
        },
        Element::Box { layer, boxtype, pts } => {
            rec(o, BOX, 0x00, &none);
            rec(o, LAYER, 0x02, i16_bytes(*layer).as_slice());
            rec(o, BOXTYPE, 0x02, i16_bytes(*boxtype).as_slice());
            rec(o, XY, 0x03, xy_bytes(pts.as_slice()).as_slice());
            rec(o, ENDEL, 0x00, &none);
        },
        Element::Text { layer, texttype, x, y, string } => {
            rec(o, TEXT, 0x00, &none);
            rec(o, LAYER, 0x02, i16_bytes(*layer).as_slice());
            rec(o, TEXTTYPE, 0x02, i16_bytes(*texttype).as_slice());
            let mut xy = i32_bytes(*x);
            let mut yb = i32_bytes(*y);
            xy.append(&mut yb);
            rec(o, XY, 0x03, xy.as_slice());
            rec(o, STRING, 0x06, str_bytes(string.as_str()).as_slice());
            rec(o, ENDEL, 0x00, &none);
        },
    }
    proof {
        assert(final(o)@ =~= old(o)@ + elem_bytes(*el));
    }
}

impl Library {
    /// The GDSII byte stream of the library.
    pub fn to_bytes(&self) -> (o: Vec<u8>)
        ensures
            o@ == lib_bytes(*self),
    {
        let mut o: Vec<u8> = Vec::new();
        let none: [u8; 0] = [];
        let dates: [u8; 24] = [0u8; 24];
        let version: [u8; 2] = [2, 0x58];
        proof {
            assert(none@ =~= Seq::<u8>::empty());
            assert(dates@ =~= zeros(24));
            assert(version@ =~= seq![2u8, 0x58]);
        }
        rec(&mut o, HEADER, 0x02, &version);
        rec(&mut o, BGNLIB, 0x02, &dates);  // 12 i16 date fields
        rec(&mut o, LIBNAME, 0x06, str_bytes(self.name.as_str()).as_slice());
        let mut u: Vec<u8> = Vec::new();
        push_u64(&mut u, self.user_unit);
        push_u64(&mut u, self.db_unit);
        rec(&mut o, UNITS, 0x05, u.as_slice());
        let ghost head = o@;
        let mut c: usize = 0;
        while c < self.cells.len()
            invariant
                c <= self.cells@.len(),
                o@ == head + cells_bytes(self.cells@.take(c as int)),
                none@ == Seq::<u8>::empty(),
                dates@ == zeros(24),
            decreases self.cells@.len() - c,
        {
            let cell = &self.cells[c];
            let ghost before = o@;
            rec(&mut o, BGNSTR, 0x02, &dates);
            rec(&mut o, STRNAME, 0x06, str_bytes(cell.name.as_str()).as_slice());
            let ghost el_start = o@;
            let mut k: usize = 0;
            while k < cell.elements.len()
                invariant
                    k <= cell.elements@.len(),
                    o@ == el_start + elems_bytes(cell.elements@.take(k as int)),
                decreases cell.elements@.len() - k,
            {
                write_elem(&mut o, &cell.elements[k]);
                proof {
                    assert(cell.elements@.take(k + 1).drop_last() =~= cell.elements@.take(k as int));
                }
                k += 1;
            }
            rec(&mut o, ENDSTR, 0x00, &none);
            proof {
                assert(cell.elements@.take(cell.elements@.len() as int) =~= cell.elements@);
                assert(self.cells@.take(c + 1).drop_last() =~= self.cells@.take(c as int));
                assert(o@ =~= head + cells_bytes(self.cells@.take(c + 1)));
            }
            c += 1;
        }
        rec(&mut o, ENDLIB, 0x00, &none);
        proof {
            assert(self.cells@.take(self.cells@.len() as int) =~= self.cells@);
            assert(o@ =~= lib_bytes(*self));
        }
        o
    }
}

// ---- reader -------------------------------------------------------------------

/// An element as a value: its point lists and strings as sequences.
pub enum ElemV {
    Boundary { layer: i16, datatype: i16, pts: Seq<(i32, i32)> },
    Path { layer: i16, datatype: i16, width: i32, pts: Seq<(i32, i32)> },
    Sref { sname: Seq<char>, x: i32, y: i32, reflect: bool, mag: u64, angle: u64 },
    Aref { sname: Seq<char>, cols: i16, rows: i16, pts: Seq<(i32, i32)>, reflect: bool, mag: u64, angle: u64 },
    Box { layer: i16, boxtype: i16, pts: Seq<(i32, i32)> },
    Text { layer: i16, texttype: i16, x: i32, y: i32, string: Seq<char> },
}

/// A cell as a value.
pub struct CellV {
    pub name: Seq<char>,
    pub elements: Seq<ElemV>,
}

/// A library as a value.
pub struct LibV {
    pub name: Seq<char>,
    pub user_unit: u64,
    pub db_unit: u64,
    pub cells: Seq<CellV>,
}

impl View for Element {
    type V = ElemV;

    open spec fn view(&self) -> ElemV {
        match *self {
            Element::Boundary { layer, datatype, pts } => ElemV::Boundary { layer, datatype, pts: pts@ },
            Element::Path { layer, datatype, width, pts } => ElemV::Path { layer, datatype, width, pts: pts@ },
            Element::Sref { sname, x, y, reflect, mag, angle } => ElemV::Sref { sname: sname@, x, y, reflect, mag, angle },
            Element::Aref { sname, cols, rows, pts, reflect, mag, angle } => ElemV::Aref {
                sname: sname@,
                cols,
                rows,
                pts: pts@,
                reflect,
                mag,
                angle,
            },
            Element::Box { layer, boxtype, pts } => ElemV::Box { layer, boxtype, pts: pts@ },
            Element::Text { layer, texttype, x, y, string } => ElemV::Text { layer, texttype, x, y, string: string@ },
        }
    }
}

impl View for Cell {
    type V = CellV;

    open spec fn view(&self) -> CellV {
        CellV { name: self.name@, elements: self.elements@.map_values(|e: Element| e@) }
    }
}

impl View for Library {
    type V = LibV;

    open spec fn view(&self) -> LibV {
        LibV { name: self.name@, user_unit: self.user_unit, db_unit: self.db_unit, cells: self.cells@.map_values(|c: Cell| c@) }
    }
}

/// The element under construction, as a value.
pub struct EbV {
    pub rtype: u8,
    pub layer: i16,
    pub datatype: i16,
    pub width: i32,
    pub sname: Seq<char>,
    pub cols: i16,
    pub rows: i16,
    pub reflect: bool,
    pub mag: u64,
    pub angle: u64,
    pub pts: Seq<(i32, i32)>,
    pub text: Seq<char>,
}

/// A fresh builder for an element record of type `t`: every field zero or empty.
pub open spec fn eb_new(t: u8) -> EbV {
    EbV {
        rtype: t,
        layer: 0,
        datatype: 0,
        width: 0,
        sname: Seq::empty(),
        cols: 0,
        rows: 0,
        reflect: false,
        mag: 0,
        angle: 0,
        pts: Seq::empty(),
        text: Seq::empty(),
    }
}

/// The element a builder describes at `ENDEL`: always for boundaries, paths, arrays and
/// boxes; for references and texts only once they have a point.
pub open spec fn build_v(e: EbV) -> Option<ElemV> {
    if e.rtype == BOUNDARY {
        Some(ElemV::Boundary { layer: e.layer, datatype: e.datatype, pts: e.pts })
    } else if e.rtype == PATH {
        Some(ElemV::Path { layer: e.layer, datatype: e.datatype, width: e.width, pts: e.pts })
    } else if e.rtype == SREF {
        if e.pts.len() > 0 {
            Some(
                ElemV::Sref { sname: e.sname, x: e.pts[0].0, y: e.pts[0].1, reflect: e.reflect, mag: e.mag, angle: e.angle },
            )
        } else {
            None
        }
    } else if e.rtype == AREF {
        Some(
            ElemV::Aref {
                sname: e.sname,
                cols: e.cols,
                rows: e.rows,
                pts: e.pts,
                reflect: e.reflect,
                mag: e.mag,
                angle: e.angle,
            },
        )
    } else if e.rtype == BOX {
        Some(ElemV::Box { layer: e.layer, boxtype: e.datatype, pts: e.pts })
    } else if e.rtype == TEXT {
        if e.pts.len() > 0 {
            Some(ElemV::Text { layer: e.layer, texttype: e.datatype, x: e.pts[0].0, y: e.pts[0].1, string: e.text })
        } else {
            None
        }
    } else {
        None
    }
}

/// The text of a string record: the bytes before the first zero, decoded as UTF-8 (what
/// `String::from_utf8_lossy` makes of invalid bytes), trailing whitespace trimmed.
pub open spec fn text_of(d: Seq<u8>) -> Seq<char> {
    trim_white(utf8_text(until_nul(d)))
}

/// Everything the reader holds: the library so far, the open structure, and the element
/// under construction.
pub struct ReadState {
    pub lib: LibV,
    pub cell: Option<CellV>,
    pub eb: EbV,
}

/// The reader state after one record of type `t` with data `d`.
pub open spec fn read_step(st: ReadState, t: u8, d: Seq<u8>) -> ReadState {
    let eb = st.eb;
    if t == LIBNAME {
        ReadState { lib: LibV { name: text_of(d), ..st.lib }, ..st }
    } else if t == UNITS {
        if d.len() >= 16 {
            ReadState {
                lib: LibV { user_unit: be_bytes(d, 0, 8) as u64, db_unit: be_bytes(d, 8, 8) as u64, ..st.lib },
                ..st
            }
        } else {
            st
        }
    } else if t == BGNSTR {
        ReadState { cell: Some(CellV { name: Seq::empty(), elements: Seq::empty() }), ..st }
    } else if t == STRNAME {
        match st.cell {
            Some(c) => ReadState {
                cell: Some(CellV { name: text_of(d), ..c }),
                ..st
            },
            None => st,
        }
    } else if t == ENDSTR {
        match st.cell {
            Some(c) => ReadState { lib: LibV { cells: st.lib.cells.push(c), ..st.lib }, cell: None, ..st },
            None => st,
        }
    } else if t == BOUNDARY || t == PATH || t == SREF || t == AREF || t == TEXT || t == BOX {
        ReadState { eb: eb_new(t), ..st }
    } else if t == LAYER {
        ReadState { eb: EbV { layer: be_i16_spec(d), ..eb }, ..st }
    } else if t == DATATYPE || t == BOXTYPE || t == TEXTTYPE {
        ReadState { eb: EbV { datatype: be_i16_spec(d), ..eb }, ..st }
    } else if t == WIDTH {
        ReadState { eb: EbV { width: be_i32_spec(d), ..eb }, ..st }
    } else if t == SNAME {
        ReadState { eb: EbV { sname: text_of(d), ..eb }, ..st }
    } else if t == STRING {
        ReadState { eb: EbV { text: text_of(d), ..eb }, ..st }
    } else if t == COLROW {
        let rest = if d.len() >= 2 { d.subrange(2, d.len() as int) } else { Seq::empty() };
        ReadState { eb: EbV { cols: be_i16_spec(d), rows: be_i16_spec(rest), ..eb }, ..st }
    } else if t == STRANS {
        ReadState { eb: EbV { reflect: d.len() > 0 && d[0] >= 0x80, ..eb }, ..st }
    } else if t == MAG {
        ReadState { eb: EbV { mag: if d.len() >= 8 { be_bytes(d, 0, 8) as u64 } else { 0 }, ..eb }, ..st }
    } else if t == ANGLE {
        ReadState { eb: EbV { angle: if d.len() >= 8 { be_bytes(d, 0, 8) as u64 } else { 0 }, ..eb }, ..st }
    } else if t == XY {
        ReadState { eb: EbV { pts: xy_points(d), ..eb }, ..st }
    } else if t == ENDEL {
        match (st.cell, build_v(eb)) {
            (Some(c), Some(el)) => ReadState { cell: Some(CellV { elements: c.elements.push(el), ..c }), ..st },
            _ => st,
        }
    } else {
        st
    }
}

/// The record types the reader acts on: the library name and units, structure and
/// element boundaries, and the element fields it keeps.
pub open spec fn acted_on(t: u8) -> bool {
    ||| t == LIBNAME || t == UNITS || t == BGNSTR || t == STRNAME || t == ENDSTR
    ||| t == BOUNDARY || t == PATH || t == SREF || t == AREF || t == TEXT || t == BOX
    ||| t == LAYER || t == DATATYPE || t == BOXTYPE || t == TEXTTYPE || t == WIDTH || t == SNAME
    ||| t == STRING || t == COLROW || t == STRANS || t == MAG || t == ANGLE || t == XY || t == ENDEL
}

/// A record of any other type (PATHTYPE, PROPATTR, ELFLAGS, HEADER, BGNLIB, ...) leaves
/// everything the reader holds as it was.
pub proof fn lemma_other_record_ignored(st: ReadState, t: u8, d: Seq<u8>)
    requires
        !acted_on(t),
    ensures
        read_step(st, t, d) == st,
{
}

/// Inserting a record of a type the reader does not act on anywhere between records
/// changes nothing that is read: from any reader state, the stream with the record reads
/// as the stream without it.
pub proof fn lemma_insert_ignored_record(t: u8, dt: u8, d: Seq<u8>, rest: Seq<u8>, st: ReadState)
    requires
        !acted_on(t),
        d.len() + 4 <= 65535,
    ensures
        read_walk(rec_bytes(t, dt, d) + rest, st) == read_walk(rest, st),
{
    lemma_rec_walk(t, dt, d, rest, st);
    lemma_other_record_ignored(st, t, d);
}

/// The big-endian length field of the record at the start of `b`.
pub open spec fn head_len(b: Seq<u8>) -> int {
    be16(b[0], b[1]) as int
}

/// Read records from the start of `b` while their framing is sound (a full header, a
/// length of at least four that stays within the input), folding each into the state.
pub open spec fn read_walk(b: Seq<u8>, st: ReadState) -> ReadState
    decreases b.len(),
{
    if b.len() < 4 {
        st
    } else {
        let len = head_len(b);
        if len < 4 || len > b.len() {
            st
        } else {
            read_walk(b.skip(len), read_step(st, b[2], b.subrange(4, len)))
        }
    }
}

/// The reader's state before the first record: the default library, no open structure.
pub open spec fn read_init() -> ReadState {
    ReadState {
        lib: LibV { name: seq!['L', 'I', 'B'], user_unit: REAL8_MILLI, db_unit: REAL8_NANO, cells: Seq::empty() },
        cell: None,
        eb: eb_new(0),
    }
}

/// The reader's state after a whole stream.
pub open spec fn read_spec(b: Seq<u8>) -> ReadState {
    read_walk(b, read_init())
}

/// The element under construction: every field a record may set.
struct Eb {
    rtype: u8,
    layer: i16,
    datatype: i16,
    width: i32,
    sname: String,
    cols: i16,
    rows: i16,
    reflect: bool,
    mag: u64,
    angle: u64,
    pts: Vec<(i32, i32)>,
    text: String,
}

impl View for Eb {
    type V = EbV;

    closed spec fn view(&self) -> EbV {
        EbV {
            rtype: self.rtype,
            layer: self.layer,
            datatype: self.datatype,
            width: self.width,
            sname: self.sname@,
            cols: self.cols,
            rows: self.rows,
            reflect: self.reflect,
            mag: self.mag,
            angle: self.angle,
            pts: self.pts@,
            text: self.text@,
        }
    }
}

impl Eb {
    /// A fresh builder for an element record of type `rtype`.
    fn new(rtype: u8) -> (e: Eb)
        ensures
            e@ == eb_new(rtype),
    {
        Eb {
            rtype,
            layer: 0,
            datatype: 0,
            width: 0,
            sname: String::new(),
            cols: 0,
            rows: 0,
            reflect: false,
            mag: 0,
            angle: 0,
            pts: Vec::new(),
            text: String::new(),
        }
    }

    /// The element described so far, if its record type makes one.
    fn build(&self) -> (r: Option<Element>)
        ensures
            match r {
                Some(el) => build_v(self@) == Some(el@),
                None => build_v(self@) is None,
            },
    {
        if self.rtype == BOUNDARY {
            Some(Element::Boundary { layer: self.layer, datatype: self.datatype, pts: copy_pts(&self.pts) })
        } else if self.rtype == PATH {
            Some(Element::Path { layer: self.layer, datatype: self.datatype, width: self.width, pts: copy_pts(&self.pts) })
        } else if self.rtype == SREF {
            if self.pts.len() > 0 {
                let (x, y) = self.pts[0];
                Some(
                    Element::Sref { sname: self.sname.clone(), x, y, reflect: self.reflect, mag: self.mag, angle: self.angle },
                )
            } else {
                None
            }
        } else if self.rtype == AREF {
            Some(
                Element::Aref {
                    sname: self.sname.clone(),
                    cols: self.cols,
                    rows: self.rows,
                    pts: copy_pts(&self.pts),
                    reflect: self.reflect,
                    mag: self.mag,
                    angle: self.angle,
                },
            )
        } else if self.rtype == BOX {
            Some(Element::Box { layer: self.layer, boxtype: self.datatype, pts: copy_pts(&self.pts) })
        } else if self.rtype == TEXT {
            if self.pts.len() > 0 {
                let (x, y) = self.pts[0];
                Some(Element::Text { layer: self.layer, texttype: self.datatype, x, y, string: self.text.clone() })
            } else {
                None
            }
        } else {
            None
        }
    }
}

/// An owned copy of a point list.
pub fn copy_pts(v: &Vec<(i32, i32)>) -> (w: Vec<(i32, i32)>)
    ensures
        w@ == v@,
{
    let mut w: Vec<(i32, i32)> = Vec::new();
    let mut k: usize = 0;
    while k < v.len()
        invariant
            k <= v@.len(),
            w@ == v@.take(k as int),
        decreases v@.len() - k,
    {
        w.push(v[k]);
        k += 1;
        proof {
            assert(w@ =~= v@.take(k as int));
        }
    }
    proof {
        assert(v@.take(v@.len() as int) =~= v@);
    }
    w
}

/// The bytes `b[lo..hi]`, copied.
pub fn sub_bytes(b: &[u8], lo: usize, hi: usize) -> (v: Vec<u8>)
    requires
        lo <= hi <= b@.len(),
    ensures
        v@ == b@.subrange(lo as int, hi as int),
{
    let mut v: Vec<u8> = Vec::new();
    let mut k = lo;
    while k < hi
        invariant
            lo <= k <= hi <= b@.len(),
            v@ == b@.subrange(lo as int, k as int),
        decreases hi - k,
    {
        v.push(b[k]);
        k += 1;
        proof {
            assert(v@ =~= b@.subrange(lo as int, k as int));
        }
    }
    v
}

/// The big-endian `u64` of eight bytes at `i`.
fn be_u64_at(d: &[u8], i: usize) -> (v: u64)
    requires
        i + 8 <= d@.len(),
    ensures
        v == be_bytes(d@, i as int, 8),
{
    let mut v: u64 = 0;
    let mut k: usize = 0;
    let len = d.len();
    while k < 8
        invariant
            k <= 8,
            len == d@.len(),
            i + 8 <= d@.len(),
            v == be_bytes(d@, i as int, k as nat),
            v < pow256(k as nat),
        decreases 8 - k,
    {
        proof {
            lemma_pow256(k as nat);
            assert(v * 256 + 255 < pow256((k + 1) as nat)) by (nonlinear_arith)
                requires
                    v < pow256(k as nat),
                    pow256((k + 1) as nat) == 256 * pow256(k as nat),
            ;
        }
        let byte = d[i + k] as u64;
        v = v * 256 + byte;
        k += 1;
    }
    v
}

/// `256^k`.
pub open spec fn pow256(k: nat) -> nat
    decreases k,
{
    if k == 0 {
        1
    } else {
        256 * pow256((k - 1) as nat)
    }
}

proof fn lemma_pow256(k: nat)
    requires
        k < 8,
    ensures
        pow256(k + 1) == 256 * pow256(k),
        pow256(k + 1) <= 0x1_0000_0000_0000_0000,
{
    reveal_with_fuel(pow256, 9);
    assert(pow256(8) == 0x1_0000_0000_0000_0000);
    assert(pow256(7) == 0x100_0000_0000_0000);
    assert(pow256(6) == 0x1_0000_0000_0000);
    assert(pow256(5) == 0x100_0000_0000);
    assert(pow256(4) == 0x1_0000_0000);
    assert(pow256(3) == 0x100_0000);
    assert(pow256(2) == 0x1_0000);
    assert(pow256(1) == 0x100);
}

/// The open structure, as a value.
pub open spec fn cell_view(c: Option<Cell>) -> Option<CellV> {
    match c {
        Some(c) => Some(c@),
        None => None,
    }
}

impl Library {
    /// Read a GDSII byte stream. Records are consumed while their framing is sound; a
    /// structure becomes a cell at its ENDSTR, an element at its ENDEL. The result is the
    /// library of the reader state of [`read_spec`].
    pub fn parse(b: &[u8]) -> (r: Result<Library, GdsError>)
        ensures
            r is Ok,
            r->Ok_0@ == read_spec(b@).lib,
    {
        let mut lib = Library::default();
        let mut cell: Option<Cell> = None;
        let mut e = Eb::new(0);
        let ghost mut st = read_init();
        let mut i: usize = 0;
        let blen = b.len();
        proof {
            assert(b@.skip(0) =~= b@);
        }
        loop
            invariant
                blen == b@.len(),
                i <= blen,
                read_walk(b@.skip(i as int), st) == read_spec(b@),
                lib.user_unit == st.lib.user_unit,
                lib.db_unit == st.lib.db_unit,
                lib@ == st.lib && cell_view(cell) == st.cell && e@ == st.eb,
            ensures
                read_walk(b@.skip(i as int), st) == st,
                lib.user_unit == st.lib.user_unit,
                lib.db_unit == st.lib.db_unit,
                lib@ == st.lib,
            decreases blen - i,
        {
            if blen - i < 4 {
                break;
            }
            let len = (b[i] as usize) * 256 + b[i + 1] as usize;
            proof {
                assert(head_len(b@.skip(i as int)) == len);
            }
            if len < 4 || len > blen - i {
                break;
            }
            let rtype = b[i + 2];
            let data = sub_bytes(b, i + 4, i + len);
            let ghost d = data@;
            let ghost st0 = st;
            proof {
                let rest = b@.skip(i as int);
                assert(rest[2] == rtype);
                assert(rest.subrange(4, len as int) =~= d);
                assert(rest.skip(len as int) =~= b@.skip(i + len));
                st = read_step(st0, rtype, d);
            }
            if rtype == LIBNAME {
                lib.name = ascii(data.as_slice());
            } else if rtype == UNITS {
                if data.len() >= 16 {
                    lib.user_unit = be_u64_at(data.as_slice(), 0);
                    lib.db_unit = be_u64_at(data.as_slice(), 8);
                }
            } else if rtype == BGNSTR {
                cell = Some(Cell::default());
            } else if rtype == STRNAME {
                match cell {
                    Some(ref mut c) => {
                        c.name = ascii(data.as_slice());
                    },
                    None => {},
                }
            } else if rtype == ENDSTR {
                match cell {
                    Some(c) => {
                        let ghost old_cells = lib.cells@;
                        lib.cells.push(c);
                        proof {
                            assert(lib.cells@.map_values(|c: Cell| c@) =~= old_cells.map_values(|c: Cell| c@).push(c@));
                        }
                    },
                    None => {},
                }
                cell = None;
            } else if rtype == BOUNDARY || rtype == PATH || rtype == SREF || rtype == AREF || rtype == TEXT || rtype == BOX {
                e = Eb::new(rtype);
            } else if rtype == LAYER {
                e.layer = be_i16(data.as_slice());
            } else if rtype == DATATYPE || rtype == BOXTYPE || rtype == TEXTTYPE {
                e.datatype = be_i16(data.as_slice());
            } else if rtype == WIDTH {
                e.width = be_i32(data.as_slice());
            } else if rtype == SNAME {
                e.sname = ascii(data.as_slice());
            } else if rtype == STRING {
                e.text = ascii(data.as_slice());
            } else if rtype == COLROW {
                e.cols = be_i16(data.as_slice());
                let rest = if data.len() >= 2 { sub_bytes(data.as_slice(), 2, data.len()) } else { sub_bytes(data.as_slice(), data.len(), data.len()) };
                proof {
                    if d.len() < 2 {
                        assert(rest@ =~= Seq::<u8>::empty());
                    }
                }
                e.rows = be_i16(rest.as_slice());
            } else if rtype == STRANS {
                e.reflect = data.len() > 0 && data[0] >= 0x80;
            } else if rtype == MAG {
                e.mag = if data.len() >= 8 { be_u64_at(data.as_slice(), 0) } else { 0 };
            } else if rtype == ANGLE {
                e.angle = if data.len() >= 8 { be_u64_at(data.as_slice(), 0) } else { 0 };
            } else if rtype == XY {
                e.pts = parse_xy(data.as_slice());
            } else if rtype == ENDEL {
                match cell {
                    Some(ref mut c) => {
                        match e.build() {
                            Some(el) => {
                                let ghost old_els = c.elements@;
                                c.elements.push(el);
                                proof {
                                    assert(c.elements@.map_values(|e: Element| e@) =~= old_els.map_values(|e: Element| e@).push(
                                        el@,
                                    ));
                                }
                            },
                            None => {},
                        }
                    },
                    None => {},
                }
            }
            i = i + len;
        }
        Ok(lib)
    }
}


// ---- the round trip -------------------------------------------------------------

/// A string that survives writing and reading: without NUL, not ending in whitespace, and
/// with UTF-8 bytes few enough for its record length to fit in sixteen bits.
pub open spec fn str_ok(s: Seq<char>) -> bool {
    &&& forall|k: int| 0 <= k < s.len() ==> #[trigger] s[k] != '\0'
    &&& s.len() == 0 || !is_white(s.last())
    &&& encode_utf8(s).len() <= 65530
}

/// A point list whose XY record length fits in sixteen bits.
pub open spec fn pts_ok(pts: Seq<(i32, i32)>) -> bool {
    pts.len() <= 8191
}

/// An element that survives writing and reading: its strings and point lists fit.
pub open spec fn elem_ok(e: Element) -> bool {
    match e {
        Element::Boundary { pts, .. } => pts_ok(pts@),
        Element::Path { pts, .. } => pts_ok(pts@),
        Element::Sref { sname, .. } => str_ok(sname@),
        Element::Aref { sname, pts, .. } => str_ok(sname@) && pts_ok(pts@),
        Element::Box { pts, .. } => pts_ok(pts@),
        Element::Text { string, .. } => str_ok(string@),
    }
}

/// A cell that survives writing and reading.
pub open spec fn cell_ok(c: Cell) -> bool {
    str_ok(c.name@) && forall|k: int| 0 <= k < c.elements@.len() ==> elem_ok(#[trigger] c.elements@[k])
}

/// A library that survives writing and reading.
pub open spec fn writable(lib: Library) -> bool {
    str_ok(lib.name@) && forall|c: int| 0 <= c < lib.cells@.len() ==> cell_ok(#[trigger] lib.cells@[c])
}

/// Reading one record, framed by the writer, steps the state by its type and data.
proof fn lemma_rec_walk(t: u8, dt: u8, d: Seq<u8>, rest: Seq<u8>, st: ReadState)
    requires
        d.len() + 4 <= 65535,
    ensures
        read_walk(rec_bytes(t, dt, d) + rest, st) == read_walk(rest, read_step(st, t, d)),
{
    let b = rec_bytes(t, dt, d) + rest;
    let len: int = 4 + d.len() as int;
    assert((4 + d.len()) % 0x1_0000 == len);
    assert(b[0] == (len / 256) as u8);
    assert(b[1] == (len % 256) as u8);
    assert(head_len(b) == len);
    assert(b.skip(len) =~= rest);
    assert(b.subrange(4, len) =~= d);
    assert(b[2] == t);
}

/// The UTF-8 bytes of a character other than NUL are all non-zero.
proof fn lemma_scalar_nonzero(c: char)
    requires
        c != '\0',
    ensures
        forall|k: int| 0 <= k < encode_scalar(c as u32).len() ==> #[trigger] encode_scalar(c as u32)[k] != 0,
{
    let u = c as u32;
    assert(u != 0);
    assert(u <= 0x7F ==> (u & 0x7F) as u8 != 0) by (bit_vector)
        requires
            u != 0,
    ;
    assert(0xC0u8 | ((u >> 6) & 0x1F) as u8 != 0) by (bit_vector);
    assert(0xE0u8 | ((u >> 12) & 0x0F) as u8 != 0) by (bit_vector);
    assert(0xF0u8 | ((u >> 18) & 0x7) as u8 != 0) by (bit_vector);
    assert(0x80u8 | (u & 0x3F) as u8 != 0) by (bit_vector);
    assert(0x80u8 | ((u >> 6) & 0x3F) as u8 != 0) by (bit_vector);
    assert(0x80u8 | ((u >> 12) & 0x3F) as u8 != 0) by (bit_vector);
}

/// The UTF-8 bytes of characters other than NUL are all non-zero.
proof fn lemma_encode_nonzero(s: Seq<char>)
    requires
        forall|k: int| 0 <= k < s.len() ==> #[trigger] s[k] != '\0',
    ensures
        forall|k: int| 0 <= k < encode_utf8(s).len() ==> #[trigger] encode_utf8(s)[k] != 0,
    decreases s.len(),
{
    if s.len() > 0 {
        let t = s.drop_first();
        assert forall|k: int| 0 <= k < t.len() implies #[trigger] t[k] != '\0' by {
            assert(t[k] == s[k + 1]);
        }
        lemma_encode_nonzero(t);
        lemma_scalar_nonzero(s[0]);
        let e = encode_scalar(s[0] as u32);
        assert forall|k: int| 0 <= k < encode_utf8(s).len() implies #[trigger] encode_utf8(s)[k] != 0 by {
            if k < e.len() {
                assert(encode_utf8(s)[k] == e[k]);
            } else {
                assert(encode_utf8(s)[k] == encode_utf8(t)[k - e.len()]);
            }
        }
    }
}

/// The text of a written string record is the string again.
proof fn lemma_text_round_trip(s: Seq<char>)
    requires
        str_ok(s),
    ensures
        text_of(str_bytes_spec(encode_utf8(s))) == s,
        str_bytes_spec(encode_utf8(s)).len() <= 65531,
{
    let bytes = encode_utf8(s);
    let p = str_bytes_spec(bytes);
    lemma_encode_nonzero(s);
    assert forall|k: int| 0 <= k < bytes.len() implies #[trigger] p[k] == bytes[k] by {}
    lemma_until_nul(p, bytes.len() as int);
    assert(p.take(bytes.len() as int) =~= bytes);
    vstd::utf8::encode_utf8_valid_utf8(s);
    vstd::utf8::encode_utf8_decode_utf8(s);
    assert(utf8_text(bytes) == s);
}

/// A big-endian `i16` survives its bytes.
proof fn lemma_i16_round_trip(v: i16)
    ensures
        be_i16_spec(i16_be(v)) == v,
{
    let u = v as u16;
    assert(((u / 256) as u8) as nat * 256 + ((u % 256) as u8) as nat == u);
    assert((v as u16) as i16 == v) by (bit_vector);
}

/// The bytes of `u64_be(v, n)` read back as the low `n` bytes of `v`.
proof fn lemma_u64_be_read(d: Seq<u8>, i: int, v: nat, n: nat)
    requires
        0 <= i,
        i + n <= d.len(),
        d.subrange(i, i + n) == u64_be(v, n),
    ensures
        be_bytes(d, i, n) == v % pow256(n),
    decreases n,
{
    if n == 0 {
        assert(v % 1 == 0);
    } else {
        assert(d.subrange(i, i + n - 1) =~= d.subrange(i, i + n).drop_last());
        assert(u64_be(v, n).drop_last() =~= u64_be(v / 256, (n - 1) as nat));
        lemma_u64_be_read(d, i, v / 256, (n - 1) as nat);
        assert(d[i + n - 1] == d.subrange(i, i + n)[n - 1]);
        assert(pow256(n) == 256 * pow256((n - 1) as nat));
        lemma_pow256_pos((n - 1) as nat);
        lemma_mod_breakdown(v as int, 256, pow256((n - 1) as nat) as int);
    }
}

proof fn lemma_pow256_pos(n: nat)
    ensures
        pow256(n) > 0,
    decreases n,
{
    if n > 0 {
        lemma_pow256_pos((n - 1) as nat);
    }
}

proof fn lemma_u64_be_len(v: nat, n: nat)
    ensures
        u64_be(v, n).len() == n,
    decreases n,
{
    if n > 0 {
        lemma_u64_be_len(v / 256, (n - 1) as nat);
    }
}

/// The eight big-endian bytes of a `u64` read back.
proof fn lemma_u64_one(v: u64)
    ensures
        be_bytes(u64_be(v as nat, 8), 0, 8) == v,
        u64_be(v as nat, 8).len() == 8,
{
    let b = u64_be(v as nat, 8);
    lemma_u64_be_len(v as nat, 8);
    assert(b.subrange(0, 8) =~= b);
    lemma_u64_be_read(b, 0, v as nat, 8);
    lemma_pow256(7);
    lemma_pow256(6);
    lemma_pow256(5);
    lemma_pow256(4);
    lemma_pow256(3);
    lemma_pow256(2);
    lemma_pow256(1);
    lemma_pow256(0);
    assert(pow256(0) == 1);
    assert(pow256(8) == 0x1_0000_0000_0000_0000);
    vstd::arithmetic::div_mod::lemma_small_mod(v as nat, pow256(8));
}

/// Reading a reference's transform records sets the builder's reflection,
/// magnification and angle, from a builder that has none yet.
proof fn lemma_strans_walk(reflect: bool, mag: u64, angle: u64, rest: Seq<u8>, st: ReadState)
    requires
        !st.eb.reflect,
        st.eb.mag == 0,
        st.eb.angle == 0,
    ensures
        read_walk(strans_bytes(reflect, mag, angle) + rest, st) == read_walk(
            rest,
            ReadState { eb: EbV { reflect, mag, angle, ..st.eb }, ..st },
        ),
{
    let none = Seq::<u8>::empty();
    let target = ReadState { eb: EbV { reflect, mag, angle, ..st.eb }, ..st };
    if reflect || mag != 0 || angle != 0 {
        lemma_u64_one(mag);
        lemma_u64_one(angle);
        let bits = if reflect { seq![0x80u8, 0u8] } else { seq![0u8, 0u8] };
        let rm = if mag != 0 { rec_bytes(MAG, 5, u64_be(mag as nat, 8)) } else { none };
        let ra = if angle != 0 { rec_bytes(ANGLE, 5, u64_be(angle as nat, 8)) } else { none };
        let r1 = rec_bytes(STRANS, 1, bits);
        assert(strans_bytes(reflect, mag, angle) + rest =~= r1 + (rm + (ra + rest)));
        let s1 = read_step(st, STRANS, bits);
        lemma_rec_walk(STRANS, 1, bits, rm + (ra + rest), st);
        assert(s1.eb.reflect == reflect);
        let s2 = if mag != 0 { read_step(s1, MAG, u64_be(mag as nat, 8)) } else { s1 };
        if mag != 0 {
            lemma_rec_walk(MAG, 5, u64_be(mag as nat, 8), ra + rest, s1);
        } else {
            assert(rm + (ra + rest) =~= ra + rest);
        }
        assert(s2.eb.mag == mag);
        let s3 = if angle != 0 { read_step(s2, ANGLE, u64_be(angle as nat, 8)) } else { s2 };
        if angle != 0 {
            lemma_rec_walk(ANGLE, 5, u64_be(angle as nat, 8), rest, s2);
        } else {
            assert(ra + rest =~= rest);
        }
        assert(s3 == target);
    } else {
        assert(strans_bytes(reflect, mag, angle) + rest =~= rest);
        assert(st == target);
    }
}

/// The state with the element `el` added to the open cell `c`, and builder `eb`.
pub open spec fn with_elem(st: ReadState, c: CellV, el: ElemV, eb: EbV) -> ReadState {
    ReadState { cell: Some(CellV { elements: c.elements.push(el), ..c }), eb, ..st }
}

/// Reading the records of one writable element adds it to the open cell.
proof fn lemma_elem_walk(e: Element, rest: Seq<u8>, st: ReadState, c: CellV) -> (eb2: EbV)
    requires
        st.cell == Some(c),
        elem_ok(e),
    ensures
        read_walk(elem_bytes(e) + rest, st) == read_walk(rest, with_elem(st, c, e@, eb2)),
{
    match e {
        Element::Boundary { .. } => lemma_walk_boundary(e, rest, st, c),
        Element::Path { .. } => lemma_walk_path(e, rest, st, c),
        Element::Sref { .. } => lemma_walk_sref(e, rest, st, c),
        Element::Aref { .. } => lemma_walk_aref(e, rest, st, c),
        Element::Box { .. } => lemma_walk_box(e, rest, st, c),
        Element::Text { .. } => lemma_walk_text(e, rest, st, c),
    }
}

proof fn lemma_walk_boundary(e: Element, rest: Seq<u8>, st: ReadState, c: CellV) -> (eb2: EbV)
    requires
        st.cell == Some(c),
        elem_ok(e),
        e is Boundary,
    ensures
        read_walk(elem_bytes(e) + rest, st) == read_walk(rest, with_elem(st, c, e@, eb2)),
{
    let none = Seq::<u8>::empty();
    match e {
        Element::Boundary { layer, datatype, pts } => {
            lemma_xy_len(pts@);
            lemma_xy_round_trip(pts@);
            lemma_i16_round_trip(layer);
            lemma_i16_round_trip(datatype);
            let (r1, r2, r3, r4, r5) = (rec_bytes(BOUNDARY, 0, none), rec_bytes(LAYER, 2, i16_be(layer)), rec_bytes(DATATYPE, 2, i16_be(datatype)), rec_bytes(XY, 3, xy_spec(pts@)), rec_bytes(ENDEL, 0, none));
            assert(elem_bytes(e) + rest =~= r1 + (r2 + (r3 + (r4 + (r5 + rest)))));
            let s1 = read_step(st, BOUNDARY, none);
            let s2 = read_step(s1, LAYER, i16_be(layer));
            let s3 = read_step(s2, DATATYPE, i16_be(datatype));
            let s4 = read_step(s3, XY, xy_spec(pts@));
            let s5 = read_step(s4, ENDEL, none);
            lemma_rec_walk(BOUNDARY, 0, none, r2 + (r3 + (r4 + (r5 + rest))), st);
            lemma_rec_walk(LAYER, 2, i16_be(layer), r3 + (r4 + (r5 + rest)), s1);
            lemma_rec_walk(DATATYPE, 2, i16_be(datatype), r4 + (r5 + rest), s2);
            lemma_rec_walk(XY, 3, xy_spec(pts@), r5 + rest, s3);
            lemma_rec_walk(ENDEL, 0, none, rest, s4);
            assert(s5 == with_elem(st, c, e@, s4.eb));
            s4.eb
        },
        _ => st.eb,
    }
}

proof fn lemma_walk_path(e: Element, rest: Seq<u8>, st: ReadState, c: CellV) -> (eb2: EbV)
    requires
        st.cell == Some(c),
        elem_ok(e),
        e is Path,
    ensures
        read_walk(elem_bytes(e) + rest, st) == read_walk(rest, with_elem(st, c, e@, eb2)),
{
    let none = Seq::<u8>::empty();
    match e {
        Element::Path { layer, datatype, width, pts } => {
            lemma_xy_len(pts@);
            lemma_xy_round_trip(pts@);
            lemma_i16_round_trip(layer);
            lemma_i16_round_trip(datatype);
            lemma_i32_be_round_trip(width);
            let wrec = if width != 0 { rec_bytes(WIDTH, 3, i32_be(width)) } else { none };
            let (r1, r2, r3, r4, r5) = (rec_bytes(PATH, 0, none), rec_bytes(LAYER, 2, i16_be(layer)), rec_bytes(DATATYPE, 2, i16_be(datatype)), rec_bytes(XY, 3, xy_spec(pts@)), rec_bytes(ENDEL, 0, none));
            assert(elem_bytes(e) + rest =~= r1 + (r2 + (r3 + (wrec + (r4 + (r5 + rest))))));
            let s1 = read_step(st, PATH, none);
            let s2 = read_step(s1, LAYER, i16_be(layer));
            let s3 = read_step(s2, DATATYPE, i16_be(datatype));
            lemma_rec_walk(PATH, 0, none, r2 + (r3 + (wrec + (r4 + (r5 + rest)))), st);
            lemma_rec_walk(LAYER, 2, i16_be(layer), r3 + (wrec + (r4 + (r5 + rest))), s1);
            lemma_rec_walk(DATATYPE, 2, i16_be(datatype), wrec + (r4 + (r5 + rest)), s2);
            let s3w = if width != 0 { read_step(s3, WIDTH, i32_be(width)) } else { s3 };
            if width != 0 {
                lemma_rec_walk(WIDTH, 3, i32_be(width), r4 + (r5 + rest), s3);
            } else {
                assert(wrec + (r4 + (r5 + rest)) =~= r4 + (r5 + rest));
            }
            let s4 = read_step(s3w, XY, xy_spec(pts@));
            let s5 = read_step(s4, ENDEL, none);
            lemma_rec_walk(XY, 3, xy_spec(pts@), r5 + rest, s3w);
            lemma_rec_walk(ENDEL, 0, none, rest, s4);
            assert(s5 == with_elem(st, c, e@, s4.eb));
            s4.eb
        },
        _ => st.eb,
    }
}

#[verifier::spinoff_prover]
proof fn lemma_walk_sref(e: Element, rest: Seq<u8>, st: ReadState, c: CellV) -> (eb2: EbV)
    requires
        st.cell == Some(c),
        elem_ok(e),
        e is Sref,
    ensures
        read_walk(elem_bytes(e) + rest, st) == read_walk(rest, with_elem(st, c, e@, eb2)),
{
    let none = Seq::<u8>::empty();
    match e {
        Element::Sref { sname, x, y, reflect, mag, angle } => {
            let pt = seq![(x, y)];
            lemma_xy_round_trip(pt);
            reveal_with_fuel(xy_spec, 2);
            assert(xy_spec(pt) =~= i32_be(x) + i32_be(y));
            lemma_text_round_trip(sname@);
            let sb = str_bytes_spec(encode_utf8(sname@));
            let (r1, r2, r3, r4) = (rec_bytes(SREF, 0, none), str_rec(SNAME, sname@), rec_bytes(XY, 3, i32_be(x) + i32_be(y)), rec_bytes(ENDEL, 0, none));
            let tr = strans_bytes(reflect, mag, angle);
            assert(elem_bytes(e) + rest =~= r1 + (r2 + (tr + (r3 + (r4 + rest)))));
            let s1 = read_step(st, SREF, none);
            let s2a = read_step(s1, SNAME, sb);
            let s2 = ReadState { eb: EbV { reflect, mag, angle, ..s2a.eb }, ..s2a };
            let s3 = read_step(s2, XY, i32_be(x) + i32_be(y));
            let s4 = read_step(s3, ENDEL, none);
            lemma_rec_walk(SREF, 0, none, r2 + (tr + (r3 + (r4 + rest))), st);
            lemma_rec_walk(SNAME, 6, sb, tr + (r3 + (r4 + rest)), s1);
            lemma_strans_walk(reflect, mag, angle, r3 + (r4 + rest), s2a);
            lemma_rec_walk(XY, 3, i32_be(x) + i32_be(y), r4 + rest, s2);
            lemma_rec_walk(ENDEL, 0, none, rest, s3);
            assert(s3.eb.pts == pt);
            assert(s4 == with_elem(st, c, e@, s3.eb));
            s3.eb
        },
        _ => st.eb,
    }
}

#[verifier::spinoff_prover]
#[verifier::rlimit(100)]
proof fn lemma_walk_aref(e: Element, rest: Seq<u8>, st: ReadState, c: CellV) -> (eb2: EbV)
    requires
        st.cell == Some(c),
        elem_ok(e),
        e is Aref,
    ensures
        read_walk(elem_bytes(e) + rest, st) == read_walk(rest, with_elem(st, c, e@, eb2)),
{
    let none = Seq::<u8>::empty();
    match e {
        Element::Aref { sname, cols, rows, pts, reflect, mag, angle } => {
            lemma_xy_len(pts@);
            lemma_xy_round_trip(pts@);
            lemma_text_round_trip(sname@);
            lemma_i16_round_trip(cols);
            lemma_i16_round_trip(rows);
            let sb = str_bytes_spec(encode_utf8(sname@));
            let cr = i16_be(cols) + i16_be(rows);
            assert(cr.subrange(2, cr.len() as int) =~= i16_be(rows));
            assert(be_i16_spec(cr) == be_i16_spec(i16_be(cols)));
            let (r1, r2, r3, r4, r5) = (rec_bytes(AREF, 0, none), str_rec(SNAME, sname@), rec_bytes(COLROW, 2, cr), rec_bytes(XY, 3, xy_spec(pts@)), rec_bytes(ENDEL, 0, none));
            let tr = strans_bytes(reflect, mag, angle);
            assert(elem_bytes(e) + rest =~= r1 + (r2 + (tr + (r3 + (r4 + (r5 + rest))))));
            let s1 = read_step(st, AREF, none);
            let s2a = read_step(s1, SNAME, sb);
            let s2 = ReadState { eb: EbV { reflect, mag, angle, ..s2a.eb }, ..s2a };
            let s3 = read_step(s2, COLROW, cr);
            let s4 = read_step(s3, XY, xy_spec(pts@));
            let s5 = read_step(s4, ENDEL, none);
            lemma_rec_walk(AREF, 0, none, r2 + (tr + (r3 + (r4 + (r5 + rest)))), st);
            lemma_rec_walk(SNAME, 6, sb, tr + (r3 + (r4 + (r5 + rest))), s1);
            lemma_strans_walk(reflect, mag, angle, r3 + (r4 + (r5 + rest)), s2a);
            lemma_rec_walk(COLROW, 2, cr, r4 + (r5 + rest), s2);
            lemma_rec_walk(XY, 3, xy_spec(pts@), r5 + rest, s3);
            lemma_rec_walk(ENDEL, 0, none, rest, s4);
            assert(s5 == with_elem(st, c, e@, s4.eb));
            s4.eb
        },
        _ => st.eb,
    }
}

proof fn lemma_walk_box(e: Element, rest: Seq<u8>, st: ReadState, c: CellV) -> (eb2: EbV)
    requires
        st.cell == Some(c),
        elem_ok(e),
        e is Box,
    ensures
        read_walk(elem_bytes(e) + rest, st) == read_walk(rest, with_elem(st, c, e@, eb2)),
{
    let none = Seq::<u8>::empty();
    match e {
        Element::Box { layer, boxtype, pts } => {
            lemma_xy_len(pts@);
            lemma_xy_round_trip(pts@);
            lemma_i16_round_trip(layer);
            lemma_i16_round_trip(boxtype);
            let (r1, r2, r3, r4, r5) = (rec_bytes(BOX, 0, none), rec_bytes(LAYER, 2, i16_be(layer)), rec_bytes(BOXTYPE, 2, i16_be(boxtype)), rec_bytes(XY, 3, xy_spec(pts@)), rec_bytes(ENDEL, 0, none));
            assert(elem_bytes(e) + rest =~= r1 + (r2 + (r3 + (r4 + (r5 + rest)))));
            let s1 = read_step(st, BOX, none);
            let s2 = read_step(s1, LAYER, i16_be(layer));
            let s3 = read_step(s2, BOXTYPE, i16_be(boxtype));
            let s4 = read_step(s3, XY, xy_spec(pts@));
            let s5 = read_step(s4, ENDEL, none);
            lemma_rec_walk(BOX, 0, none, r2 + (r3 + (r4 + (r5 + rest))), st);
            lemma_rec_walk(LAYER, 2, i16_be(layer), r3 + (r4 + (r5 + rest)), s1);
            lemma_rec_walk(BOXTYPE, 2, i16_be(boxtype), r4 + (r5 + rest), s2);
            lemma_rec_walk(XY, 3, xy_spec(pts@), r5 + rest, s3);
            lemma_rec_walk(ENDEL, 0, none, rest, s4);
            assert(s5 == with_elem(st, c, e@, s4.eb));
            s4.eb
        },
        _ => st.eb,
    }
}

proof fn lemma_walk_text(e: Element, rest: Seq<u8>, st: ReadState, c: CellV) -> (eb2: EbV)
    requires
        st.cell == Some(c),
        elem_ok(e),
        e is Text,
    ensures
        read_walk(elem_bytes(e) + rest, st) == read_walk(rest, with_elem(st, c, e@, eb2)),
{
    let none = Seq::<u8>::empty();
    match e {
        Element::Text { layer, texttype, x, y, string } => {
            let pt = seq![(x, y)];
            lemma_xy_round_trip(pt);
            reveal_with_fuel(xy_spec, 2);
            assert(xy_spec(pt) =~= i32_be(x) + i32_be(y));
            lemma_text_round_trip(string@);
            lemma_i16_round_trip(layer);
            lemma_i16_round_trip(texttype);
            let sb = str_bytes_spec(encode_utf8(string@));
            let (r1, r2, r3, r4, r5, r6) = (rec_bytes(TEXT, 0, none), rec_bytes(LAYER, 2, i16_be(layer)), rec_bytes(TEXTTYPE, 2, i16_be(texttype)), rec_bytes(XY, 3, i32_be(x) + i32_be(y)), str_rec(STRING, string@), rec_bytes(ENDEL, 0, none));
            assert(elem_bytes(e) + rest =~= r1 + (r2 + (r3 + (r4 + (r5 + (r6 + rest))))));
            let s1 = read_step(st, TEXT, none);
            let s2 = read_step(s1, LAYER, i16_be(layer));
            let s3 = read_step(s2, TEXTTYPE, i16_be(texttype));
            let s4 = read_step(s3, XY, i32_be(x) + i32_be(y));
            let s5 = read_step(s4, STRING, sb);
            let s6 = read_step(s5, ENDEL, none);
            lemma_rec_walk(TEXT, 0, none, r2 + (r3 + (r4 + (r5 + (r6 + rest)))), st);
            lemma_rec_walk(LAYER, 2, i16_be(layer), r3 + (r4 + (r5 + (r6 + rest))), s1);
            lemma_rec_walk(TEXTTYPE, 2, i16_be(texttype), r4 + (r5 + (r6 + rest)), s2);
            lemma_rec_walk(XY, 3, i32_be(x) + i32_be(y), r5 + (r6 + rest), s3);
            lemma_rec_walk(STRING, 6, sb, r6 + rest, s4);
            lemma_rec_walk(ENDEL, 0, none, rest, s5);
            assert(s5.eb.pts == pt);
            assert(s6 == with_elem(st, c, e@, s5.eb));
            s5.eb
        },
        _ => st.eb,
    }
}

/// Reading the records of writable elements adds them to the open cell, in order.
#[verifier::spinoff_prover]
#[verifier::rlimit(60)]
proof fn lemma_elems_walk(es: Seq<Element>, rest: Seq<u8>, st: ReadState, c: CellV) -> (eb2: EbV)
    requires
        st.cell == Some(c),
        forall|k: int| 0 <= k < es.len() ==> elem_ok(#[trigger] es[k]),
    ensures
        read_walk(elems_bytes(es) + rest, st) == read_walk(
            rest,
            ReadState { cell: Some(CellV { elements: c.elements + es.map_values(|e: Element| e@), ..c }), eb: eb2, ..st },
        ),
    decreases es.len(),
{
    if es.len() == 0 {
        assert(elems_bytes(es) + rest =~= rest);
        assert(c.elements + es.map_values(|e: Element| e@) =~= c.elements);
        st.eb
    } else {
        let head = es.drop_last();
        let last = es.last();
        assert(elems_bytes(es) + rest =~= elems_bytes(head) + (elem_bytes(last) + rest));
        let eb1 = lemma_elems_walk(head, elem_bytes(last) + rest, st, c);
        let c1 = CellV { elements: c.elements + head.map_values(|e: Element| e@), ..c };
        let st1 = ReadState { cell: Some(c1), eb: eb1, ..st };
        let eb2 = lemma_elem_walk(last, rest, st1, c1);
        assert(c1.elements.push(last@) =~= c.elements + es.map_values(|e: Element| e@));
        eb2
    }
}

/// Reading the records of a writable cell adds it to the library and closes it.
proof fn lemma_cell_walk(cl: Cell, rest: Seq<u8>, st: ReadState) -> (eb2: EbV)
    requires
        cell_ok(cl),
    ensures
        read_walk(cell_bytes(cl) + rest, st) == read_walk(
            rest,
            ReadState { lib: LibV { cells: st.lib.cells.push(cl@), ..st.lib }, cell: None, eb: eb2, ..st },
        ),
{
    let none = Seq::<u8>::empty();
    lemma_text_round_trip(cl.name@);
    let sb = str_bytes_spec(encode_utf8(cl.name@));
    let es = cl.elements@;
    let (r1, r2, r3, r4) = (rec_bytes(BGNSTR, 2, zeros(24)), str_rec(STRNAME, cl.name@), elems_bytes(es), rec_bytes(ENDSTR, 0, none));
    assert(cell_bytes(cl) + rest =~= r1 + (r2 + (r3 + (r4 + rest))));
    let s1 = read_step(st, BGNSTR, zeros(24));
    let s2 = read_step(s1, STRNAME, sb);
    lemma_rec_walk(BGNSTR, 2, zeros(24), r2 + (r3 + (r4 + rest)), st);
    lemma_rec_walk(STRNAME, 6, sb, r3 + (r4 + rest), s1);
    let c2 = CellV { name: cl.name@, elements: Seq::empty() };
    assert(s2.cell == Some(c2));
    let eb = lemma_elems_walk(es, r4 + rest, s2, c2);
    let c3 = CellV { elements: c2.elements + es.map_values(|e: Element| e@), ..c2 };
    assert(c3 =~= cl@);
    let s3 = ReadState { cell: Some(c3), eb, ..s2 };
    lemma_rec_walk(ENDSTR, 0, none, rest, s3);
    eb
}

/// Reading the records of writable cells adds them to the library, in order.
proof fn lemma_cells_walk(cs: Seq<Cell>, rest: Seq<u8>, st: ReadState) -> (eb2: EbV)
    requires
        st.cell is None,
        forall|k: int| 0 <= k < cs.len() ==> cell_ok(#[trigger] cs[k]),
    ensures
        read_walk(cells_bytes(cs) + rest, st) == read_walk(
            rest,
            ReadState { lib: LibV { cells: st.lib.cells + cs.map_values(|c: Cell| c@), ..st.lib }, eb: eb2, ..st },
        ),
    decreases cs.len(),
{
    if cs.len() == 0 {
        assert(cells_bytes(cs) + rest =~= rest);
        assert(st.lib.cells + cs.map_values(|c: Cell| c@) =~= st.lib.cells);
        st.eb
    } else {
        let head = cs.drop_last();
        let last = cs.last();
        assert(cells_bytes(cs) + rest =~= cells_bytes(head) + (cell_bytes(last) + rest));
        let eb1 = lemma_cells_walk(head, cell_bytes(last) + rest, st);
        let st1 = ReadState { lib: LibV { cells: st.lib.cells + head.map_values(|c: Cell| c@), ..st.lib }, eb: eb1, ..st };
        let eb2 = lemma_cell_walk(last, rest, st1);
        assert(st1.lib.cells.push(last@) =~= st.lib.cells + cs.map_values(|c: Cell| c@));
        eb2
    }
}

/// The units record of a library reads back as its units.
proof fn lemma_units_read(uu: u64, du: u64)
    ensures
        be_bytes(u64_be(uu as nat, 8) + u64_be(du as nat, 8), 0, 8) == uu,
        be_bytes(u64_be(uu as nat, 8) + u64_be(du as nat, 8), 8, 8) == du,
        (u64_be(uu as nat, 8) + u64_be(du as nat, 8)).len() == 16,
{
    let ub = u64_be(uu as nat, 8) + u64_be(du as nat, 8);
    lemma_u64_be_len(uu as nat, 8);
    lemma_u64_be_len(du as nat, 8);
    assert(ub.subrange(0, 8) =~= u64_be(uu as nat, 8));
    assert(ub.subrange(8, 16) =~= u64_be(du as nat, 8));
    lemma_u64_be_read(ub, 0, uu as nat, 8);
    lemma_u64_be_read(ub, 8, du as nat, 8);
    lemma_pow256(7);
    lemma_pow256(6);
    lemma_pow256(5);
    lemma_pow256(4);
    lemma_pow256(3);
    lemma_pow256(2);
    lemma_pow256(1);
    lemma_pow256(0);
    assert(pow256(0) == 1);
    assert(pow256(8) == 0x1_0000_0000_0000_0000);
    vstd::arithmetic::div_mod::lemma_small_mod(uu as nat, pow256(8));
    vstd::arithmetic::div_mod::lemma_small_mod(du as nat, pow256(8));
}

/// The reader's state once a library's header records are read.
pub open spec fn after_header(lib: Library) -> ReadState {
    ReadState {
        lib: LibV { name: lib.name@, user_unit: lib.user_unit, db_unit: lib.db_unit, cells: Seq::empty() },
        cell: None,
        eb: eb_new(0),
    }
}

/// Reading the header records of a library (HEADER, BGNLIB, LIBNAME, UNITS).
proof fn lemma_header_walk(lib: Library, rest: Seq<u8>)
    requires
        str_ok(lib.name@),
    ensures
        read_walk(
            rec_bytes(HEADER, 2, seq![2u8, 0x58]) + (rec_bytes(BGNLIB, 2, zeros(24)) + (str_rec(LIBNAME, lib.name@) + (
            rec_bytes(UNITS, 5, u64_be(lib.user_unit as nat, 8) + u64_be(lib.db_unit as nat, 8)) + rest))),
            read_init(),
        ) == read_walk(rest, after_header(lib)),
{
    lemma_text_round_trip(lib.name@);
    lemma_units_read(lib.user_unit, lib.db_unit);
    let sb = str_bytes_spec(encode_utf8(lib.name@));
    let ub = u64_be(lib.user_unit as nat, 8) + u64_be(lib.db_unit as nat, 8);
    let (r2, r3, r4) = (rec_bytes(BGNLIB, 2, zeros(24)), str_rec(LIBNAME, lib.name@), rec_bytes(UNITS, 5, ub));
    let s0 = read_init();
    let s1 = read_step(s0, HEADER, seq![2u8, 0x58]);
    let s2 = read_step(s1, BGNLIB, zeros(24));
    let s3 = read_step(s2, LIBNAME, sb);
    lemma_rec_walk(HEADER, 2, seq![2u8, 0x58], r2 + (r3 + (r4 + rest)), s0);
    lemma_rec_walk(BGNLIB, 2, zeros(24), r3 + (r4 + rest), s1);
    lemma_rec_walk(LIBNAME, 6, sb, r4 + rest, s2);
    lemma_rec_walk(UNITS, 5, ub, rest, s3);
    assert(read_step(s3, UNITS, ub) == after_header(lib));
}

/// Round trip: reading back the bytes that [`Library::to_bytes`] writes for a writable
/// library gives the library again — its name, units, and every cell with every
/// element, in order.
pub proof fn lemma_gds_round_trip(lib: Library)
    requires
        writable(lib),
    ensures
        read_spec(lib_bytes(lib)).lib == lib@,
{
    let none = Seq::<u8>::empty();
    let ub = u64_be(lib.user_unit as nat, 8) + u64_be(lib.db_unit as nat, 8);
    let (r5, r6) = (cells_bytes(lib.cells@), rec_bytes(ENDLIB, 0, none));
    assert(lib_bytes(lib) =~= rec_bytes(HEADER, 2, seq![2u8, 0x58]) + (rec_bytes(BGNLIB, 2, zeros(24)) + (str_rec(
        LIBNAME,
        lib.name@,
    ) + (rec_bytes(UNITS, 5, ub) + (r5 + (r6 + none))))));
    lemma_header_walk(lib, r5 + (r6 + none));
    let s4 = after_header(lib);
    let eb = lemma_cells_walk(lib.cells@, r6 + none, s4);
    let s5 = ReadState { lib: LibV { cells: s4.lib.cells + lib.cells@.map_values(|c: Cell| c@), ..s4.lib }, eb, ..s4 };
    lemma_rec_walk(ENDLIB, 0, none, none, s5);
    assert(s4.lib.cells + lib.cells@.map_values(|c: Cell| c@) =~= lib.cells@.map_values(|c: Cell| c@));
    assert(read_walk(none, read_step(s5, ENDLIB, none)) == s5);
}

/// An error while reading a GDS stream.
#[derive(Debug)]
pub struct GdsError(pub String);

} // verus!
