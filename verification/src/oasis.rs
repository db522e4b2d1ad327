//! OASIS byte-level encoding: the varints, signed varints, g-deltas, strings, point
//! lists, record skippers and the fixed-size END record the reader and writer are built
//! on.
//!
//! OASIS (Open Artwork System Interchange Standard) is the compact, modern layout
//! interchange format. Unlike GDS, records carry **no length prefix**: every record is
//! an unsigned-integer id followed by a payload whose shape is fixed by that id, so a
//! reader must understand every record it meets. Each reader here states exactly which
//! bytes it consumes and what it decodes; each writer states the bytes it appends.

use vstd::prelude::*;
use vstd::string::StringExecFns;
use vstd::string::StringSliceAdditionalSpecFns;
use crate::boolean::lower_seq;
use crate::geom::{Rect, is_rect_ring, imin, imax};
use crate::gds::{utf8_text, utf8_lossy};

verus! {

/// Record id of END.
pub const R_END: u64 = 2;
/// Record id of PROPERTY.
pub const R_PROPERTY: u64 = 28;
/// Record id of PROPERTY-REPEAT (reuse the modal property).
pub const R_PROPERTY_REPEAT: u64 = 29;

/// An error while reading an OASIS stream.
#[derive(Debug)]
pub struct OasisError(pub String);

/// An error with a fixed message.
fn oasis_err(msg: &str) -> (e: OasisError)
    ensures
        e.0@ == msg@,
{
    OasisError(String::from_str(msg))
}

/// An error whose message is `pre`, the decimal numeral of `n`, then `post`.
pub(crate) fn oasis_err_num(pre: &str, n: u64, post: &str) -> (e: OasisError)
    ensures
        e.0@ == pre@ + crate::engine::dec(n as nat) + post@,
{
    let mut s = String::from_str(pre);
    let d = crate::engine::decimal(n);
    s.append(d.as_str());
    s.append(post);
    OasisError(s)
}

/// `128^k`.
pub open spec fn pow128(k: nat) -> nat
    decreases k,
{
    if k == 0 {
        1
    } else {
        128 * pow128((k - 1) as nat)
    }
}

/// The unsigned-varint encoding of `v`: 7 bits per byte, least significant first, the
/// top bit set on every byte but the last.
pub open spec fn enc_u(v: nat) -> Seq<u8>
    decreases v,
{
    if v < 128 {
        seq![v as u8]
    } else {
        seq![(v % 128 + 128) as u8] + enc_u(v / 128)
    }
}

/// The payload of the `k`-th byte of a varint: its low 7 bits, or only its lowest bit
/// for the tenth byte (bits beyond the 64th are dropped).
pub open spec fn vdigit(byte: u8, k: nat) -> nat {
    if k == 9 {
        (byte % 2) as nat
    } else {
        (byte % 128) as nat
    }
}

/// Decoding the varint whose `k`-th byte is at `i`: the value contributed from there on
/// and the position just past the varint; `None` at the end of the input or when the
/// varint would run past ten bytes.
pub open spec fn dec_u(b: Seq<u8>, i: int, k: nat) -> Option<(nat, int)>
    decreases 10 - k,
{
    if k >= 10 || i < 0 || i >= b.len() {
        None
    } else {
        let d = vdigit(b[i], k) * pow128(k);
        if b[i] < 128 {
            Some((d, i + 1))
        } else {
            match dec_u(b, i + 1, k + 1) {
                Some((v, n)) => Some((d + v, n)),
                None => None,
            }
        }
    }
}

/// The unsigned varint at `i`: its value and the position after it.
pub open spec fn read_u(b: Seq<u8>, i: int) -> Option<(nat, int)> {
    dec_u(b, i, 0)
}

/// The zig-zag mapping of a signed value: twice its magnitude (modulo `2^64`), plus one
/// when negative.
pub open spec fn zig(v: i64) -> nat {
    let m: int = if v < 0 { -v } else { v as int };
    ((2 * m) % 0x1_0000_0000_0000_0000 + if v < 0 { 1int } else { 0int }) as nat
}

/// The signed value of a zig-zag encoded unsigned value.
pub open spec fn unzig(u: nat) -> int {
    if u % 2 == 1 { -(u / 2) } else { (u / 2) as int }
}

/// The signed varint at `i`.
pub open spec fn read_s(b: Seq<u8>, i: int) -> Option<(int, int)> {
    match read_u(b, i) {
        Some((u, n)) => Some((unzig(u), n)),
        None => None,
    }
}

proof fn lemma_pow128_small(k: nat)
    requires
        k <= 9,
    ensures
        1 <= pow128(k) <= 0x8000_0000_0000_0000,
        k < 9 ==> pow128(k) <= 0x100_0000_0000_0000,
        k == 9 ==> pow128(k) == 0x8000_0000_0000_0000,
        pow128(k + 1) == 128 * pow128(k),
{
    reveal_with_fuel(pow128, 11);
    assert(pow128(0) == 1);
    assert(pow128(1) == 128);
    assert(pow128(2) == 0x4000);
    assert(pow128(3) == 0x20_0000);
    assert(pow128(4) == 0x1000_0000);
    assert(pow128(5) == 0x8_0000_0000);
    assert(pow128(6) == 0x400_0000_0000);
    assert(pow128(7) == 0x2_0000_0000_0000);
    assert(pow128(8) == 0x100_0000_0000_0000);
    assert(pow128(9) == 0x8000_0000_0000_0000);
}

/// Append the unsigned-varint encoding of `v`.
pub fn wu(o: &mut Vec<u8>, v: u64)
    ensures
        final(o)@ == old(o)@ + enc_u(v as nat),
{
    let ghost start = old(o)@;
    let ghost v0 = v;
    let mut v = v;
    loop
        invariant_except_break
            start + enc_u(v0 as nat) == o@ + enc_u(v as nat),
        ensures
            o@ == start + enc_u(v0 as nat),
        decreases v,
    {
        let mut byte: u8 = (v % 128) as u8;
        let rest = v / 128;
        if rest != 0 {
            byte = byte + 128;
        }
        let ghost before = o@;
        o.push(byte);
        proof {
            if rest != 0 {
                assert(enc_u(v as nat) == seq![byte] + enc_u(rest as nat));
                assert(before + enc_u(v as nat) =~= o@ + enc_u(rest as nat));
            } else {
                assert(enc_u(v as nat) == seq![byte]);
                assert(o@ =~= start + enc_u(v0 as nat));
            }
        }
        if rest == 0 {
            break;
        }
        v = rest;
    }
}

/// Read an unsigned varint at `*i`, advancing past it.
pub fn ru(b: &[u8], i: &mut usize) -> (r: Result<u64, OasisError>)
    ensures
        match r {
            Ok(v) => read_u(b@, *old(i) as int) == Some((v as nat, *final(i) as int)),
            Err(_) => read_u(b@, *old(i) as int) is None,
        },
{
    let ghost s = *i as int;
    let mut val: u64 = 0;
    let mut mult: u64 = 1;
    let mut k: usize = 0;
    loop
        invariant
            k < 10,
            mult == pow128(k as nat),
            val < pow128(k as nat),
            *i == s + k,
            s == *old(i) as int,
            read_u(b@, s) == match dec_u(b@, s + k, k as nat) {
                Some((v, n)) => Some(((val + v) as nat, n)),
                None => None::<(nat, int)>,
            },
        decreases 10 - k,
    {
        proof {
            lemma_pow128_small(k as nat);
        }
        if *i >= b.len() {
            proof {
                assert(dec_u(b@, s + k, k as nat) is None);
            }
            return Err(oasis_err("unexpected end of file"));
        }
        let byte = b[*i];
        *i = *i + 1;
        let d: u64 = if k == 9 { (byte % 2) as u64 } else { (byte % 128) as u64 };
        proof {
            assert(d * mult <= 127 * mult) by (nonlinear_arith)
                requires
                    d <= 127,
            ;
            if k == 9 {
                assert(d * mult <= mult) by (nonlinear_arith)
                    requires
                        d <= 1,
                ;
            }
        }
        let nv = val + d * mult;
        proof {
            assert(b@[s + k] == byte);
            assert(vdigit(byte, k as nat) == d);
            lemma_pow128_small(k as nat);
        }
        if byte < 128 {
            proof {
                assert(dec_u(b@, s + k, k as nat) == Some(((d * mult) as nat, s + k + 1)));
            }
            return Ok(nv);
        }
        if k == 9 {
            proof {
                assert(dec_u(b@, s + k + 1, 10) is None);
                assert(dec_u(b@, s + k, k as nat) is None);
            }
            return Err(oasis_err("varint longer than ten bytes"));
        }
        proof {
            assert(dec_u(b@, s + k, k as nat) == match dec_u(b@, s + k + 1, (k + 1) as nat) {
                Some((v, n)) => Some(((d * mult + v) as nat, n)),
                None => None::<(nat, int)>,
            });
        }
        val = nv;
        k = k + 1;
        mult = mult * 128;
    }
}

/// Append the signed-varint (zig-zag) encoding of `v`.
pub fn ws(o: &mut Vec<u8>, v: i64)
    ensures
        final(o)@ == old(o)@ + enc_u(zig(v)),
{
    let m: u64 = if v < 0 { if v == i64::MIN { 0x8000_0000_0000_0000u64 } else { (-v) as u64 } } else { v as u64 };
    // twice the magnitude, dropping the bit shifted out of 64
    let twice: u64 = if m >= 0x8000_0000_0000_0000 { 2 * (m - 0x8000_0000_0000_0000) } else { 2 * m };
    let sign: u64 = if v < 0 { 1 } else { 0 };
    wu(o, twice + sign);
}

/// Read a signed (zig-zag) varint at `*i`, advancing past it.
pub fn rs(b: &[u8], i: &mut usize) -> (r: Result<i64, OasisError>)
    ensures
        match r {
            Ok(v) => read_s(b@, *old(i) as int) == Some((v as int, *final(i) as int)),
            Err(_) => read_s(b@, *old(i) as int) is None,
        },
{
    let u = ru(b, i)?;
    let mag = (u / 2) as i64;
    Ok(if u % 2 == 1 { -mag } else { mag })
}

/// Read one raw byte at `*i`, advancing past it.
pub fn rb(b: &[u8], i: &mut usize) -> (r: Result<u8, OasisError>)
    ensures
        match r {
            Ok(v) => *old(i) < b@.len() && v == b@[*old(i) as int] && *final(i) == *old(i) + 1,
            Err(_) => *old(i) >= b@.len(),
        },
{
    if *i >= b.len() {
        return Err(oasis_err("unexpected end of file (info byte)"));
    }
    let v = b[*i];
    *i = *i + 1;
    Ok(v)
}


/// A decoded varint ends after its start and within the input.
pub proof fn lemma_dec_u_bounds(b: Seq<u8>, i: int, k: nat)
    ensures
        dec_u(b, i, k) matches Some((v, n)) ==> i < n <= b.len(),
    decreases 10 - k,
{
    if k < 10 && 0 <= i < b.len() && b[i] >= 128 {
        lemma_dec_u_bounds(b, i + 1, k + 1);
    }
}

/// Writing then reading an unsigned varint: the `k`-th byte onward of `enc_u(w)` decodes
/// to `w * 128^k` when that fits in 64 bits.
proof fn lemma_dec_enc(w: nat, pre: Seq<u8>, rest: Seq<u8>, k: nat)
    requires
        k <= 9,
        w * pow128(k) < 0x1_0000_0000_0000_0000,
    ensures
        dec_u(pre + enc_u(w) + rest, pre.len() as int, k) == Some((w * pow128(k), (pre.len() + enc_u(w).len()) as int)),
    decreases w,
{
    let s = pre + enc_u(w) + rest;
    lemma_pow128_small(k);
    let p = pre.len() as int;
    if w < 128 {
        assert(s[p] == w as u8);
        if k == 9 {
            assert(w <= 1) by (nonlinear_arith)
                requires
                    w * 0x8000_0000_0000_0000 < 0x1_0000_0000_0000_0000,
            ;
        }
        assert(vdigit(w as u8, k) == w);
    } else {
        let byte = (w % 128 + 128) as u8;
        if k == 9 {
            assert(w * 0x8000_0000_0000_0000 >= 0x1_0000_0000_0000_0000) by (nonlinear_arith)
                requires
                    w >= 128,
            ;
        }
        assert(k < 9);
        lemma_pow128_small((k + 1) as nat);
        let pre2 = pre.push(byte);
        assert(enc_u(w) == seq![byte] + enc_u(w / 128));
        assert(s =~= pre2 + enc_u(w / 128) + rest);
        assert(s[p] == byte);
        let q = w / 128;
        let r = w % 128;
        assert(w == 128 * q + r);
        assert(q * pow128((k + 1) as nat) == q * 128 * pow128(k)) by (nonlinear_arith)
            requires
                pow128((k + 1) as nat) == 128 * pow128(k),
        ;
        assert(q * 128 * pow128(k) + r * pow128(k) == w * pow128(k)) by (nonlinear_arith)
            requires
                w == 128 * q + r,
        ;
        assert(r * pow128(k) >= 0) by (nonlinear_arith)
            requires
                r >= 0,
                pow128(k) >= 1,
        ;
        lemma_dec_enc(q, pre2, rest, (k + 1) as nat);
        assert(vdigit(byte, k) == r);
    }
}

/// Reading back a written unsigned varint gives the value, and stops right after it.
pub proof fn lemma_varint_round_trip(v: u64, pre: Seq<u8>, rest: Seq<u8>)
    ensures
        read_u(pre + enc_u(v as nat) + rest, pre.len() as int) == Some((v as nat, (pre.len() + enc_u(v as nat).len()) as int)),
{
    lemma_pow128_small(0);
    assert(pow128(0) == 1);
    assert(v as nat * pow128(0) == v as nat);
    lemma_dec_enc(v as nat, pre, rest, 0);
}

/// Reading back a written signed varint gives the value (for every value but `i64::MIN`,
/// whose magnitude does not survive the doubling).
pub proof fn lemma_signed_round_trip(v: i64, pre: Seq<u8>, rest: Seq<u8>)
    requires
        v != i64::MIN,
    ensures
        read_s(pre + enc_u(zig(v)) + rest, pre.len() as int) == Some((v as int, (pre.len() + enc_u(zig(v)).len()) as int)),
{
    let z = zig(v);
    assert(z < 0x1_0000_0000_0000_0000);
    lemma_varint_round_trip(z as u64, pre, rest);
    assert(unzig(z) == v);
}

// ---- g-deltas -------------------------------------------------------------------

/// The first word of a general (form-2) g-delta for an x offset: the magnitude's low 62
/// bits above a sign bit and the form marker 1.
pub open spec fn gdelta_word(dx: i64) -> nat {
    let m: int = if dx < 0 { -dx } else { dx as int };
    (4 * (m % 0x4000_0000_0000_0000) + if dx < 0 { 2int } else { 0int } + 1) as nat
}

/// One of the eight octangular directions with magnitude `m`.
pub open spec fn oct(dir: nat, m: int) -> (int, int) {
    if dir == 0 {
        (m, 0)
    } else if dir == 1 {
        (0, m)
    } else if dir == 2 {
        (-m, 0)
    } else if dir == 3 {
        (0, -m)
    } else if dir == 4 {
        (m, m)
    } else if dir == 5 {
        (-m, m)
    } else if dir == 6 {
        (-m, -m)
    } else {
        (m, -m)
    }
}

/// The g-delta at `i`: form 2 (odd first word) carries a signed x in the word and a
/// signed varint y after it; form 1 is one octangular delta (direction in bits 1..3,
/// magnitude above).
pub open spec fn read_g(b: Seq<u8>, i: int) -> Option<((int, int), int)> {
    match read_u(b, i) {
        None => None,
        Some((v, n)) => if v % 2 == 1 {
            let xm = (v / 4) as int;
            let x = if (v / 2) % 2 == 1 { -xm } else { xm };
            match read_s(b, n) {
                Some((y, n2)) => Some(((x, y), n2)),
                None => None,
            }
        } else {
            Some((oct((v / 2) % 8, (v / 16) as int), n))
        },
    }
}

/// Write a general (form-2) g-delta: the x component packed in the first integer
/// (bit 0 = form marker 1, bit 1 = x sign, the rest = |x|), then a signed varint y.
pub fn write_gdelta(o: &mut Vec<u8>, dx: i64, dy: i64)
    ensures
        final(o)@ == old(o)@ + enc_u(gdelta_word(dx)) + enc_u(zig(dy)),
{
    let m: u64 = if dx < 0 { if dx == i64::MIN { 0x8000_0000_0000_0000u64 } else { (-dx) as u64 } } else { dx as u64 };
    let xsign: u64 = if dx < 0 { 1 } else { 0 };
    wu(o, (m % 0x4000_0000_0000_0000) * 4 + xsign * 2 + 1);
    ws(o, dy);
}

/// Read a g-delta at `*i`, advancing past it.
pub fn read_gdelta(b: &[u8], i: &mut usize) -> (r: Result<(i64, i64), OasisError>)
    ensures
        match r {
            Ok(d) => read_g(b@, *old(i) as int) == Some(((d.0 as int, d.1 as int), *final(i) as int)),
            Err(_) => read_g(b@, *old(i) as int) is None,
        },
{
    let v = ru(b, i)?;
    if v % 2 == 1 {
        // form 2: general x in this integer, y as a following signed varint
        let xmag = (v / 4) as i64;
        let x = if (v / 2) % 2 == 1 { -xmag } else { xmag };
        let y = rs(b, i)?;
        Ok((x, y))
    } else {
        // form 1: single octangular delta — direction in bits 1..3, magnitude above
        let dir = (v / 2) % 8;
        let mag = (v / 16) as i64;
        Ok(
            if dir == 0 {
                (mag, 0)
            } else if dir == 1 {
                (0, mag)
            } else if dir == 2 {
                (-mag, 0)
            } else if dir == 3 {
                (0, -mag)
            } else if dir == 4 {
                (mag, mag)
            } else if dir == 5 {
                (-mag, mag)
            } else if dir == 6 {
                (-mag, -mag)
            } else {
                (mag, -mag)
            },
        )
    }
}

/// Reading back a written g-delta gives the offsets (x within 62 bits of magnitude, y not
/// `i64::MIN`).
pub proof fn lemma_gdelta_round_trip(dx: i64, dy: i64, pre: Seq<u8>, rest: Seq<u8>)
    requires
        -0x4000_0000_0000_0000 < dx < 0x4000_0000_0000_0000,
        dy != i64::MIN,
    ensures
        read_g(pre + enc_u(gdelta_word(dx)) + enc_u(zig(dy)) + rest, pre.len() as int) == Some(
            ((dx as int, dy as int), (pre.len() + enc_u(gdelta_word(dx)).len() + enc_u(zig(dy)).len()) as int),
        ),
{
    let w = gdelta_word(dx);
    assert(w < 0x1_0000_0000_0000_0000);
    let s = pre + enc_u(w) + enc_u(zig(dy)) + rest;
    assert(s =~= pre + enc_u(w as u64 as nat) + (enc_u(zig(dy)) + rest));
    lemma_varint_round_trip(w as u64, pre, enc_u(zig(dy)) + rest);
    let pre2 = pre + enc_u(w);
    assert(s =~= pre2 + enc_u(zig(dy)) + rest);
    lemma_signed_round_trip(dy, pre2, rest);
}

// ---- strings ----------------------------------------------------------------------

/// The length-prefixed string at `i`: its bytes and the position after it.
pub open spec fn read_str(b: Seq<u8>, i: int) -> Option<(Seq<u8>, int)> {
    match read_u(b, i) {
        Some((n, j)) => if j + n <= b.len() {
            Some((b.subrange(j, j + n), j + n))
        } else {
            None
        },
        None => None,
    }
}

/// Append a length-prefixed string.
pub fn wstr(o: &mut Vec<u8>, s: &str)
    ensures
        final(o)@ == old(o)@ + enc_u(s.spec_bytes().len()) + s.spec_bytes(),
{
    let bytes = s.as_bytes();
    wu(o, bytes.len() as u64);
    let ghost mid = o@;
    let mut k: usize = 0;
    while k < bytes.len()
        invariant
            k <= bytes@.len(),
            o@ == mid + bytes@.take(k as int),
        decreases bytes@.len() - k,
    {
        o.push(bytes[k]);
        k += 1;
        proof {
            assert(o@ =~= mid + bytes@.take(k as int));
        }
    }
    proof {
        assert(bytes@.take(bytes@.len() as int) =~= bytes@);
    }
}

/// Read a length-prefixed string at `*i`, advancing past it (invalid UTF-8 is replaced).
pub fn rstr(b: &[u8], i: &mut usize) -> (r: Result<String, OasisError>)
    ensures
        match r {
            Ok(s) => read_str(b@, *old(i) as int) matches Some((bytes, n)) && *final(i) == n && s@ == utf8_text(bytes),
            Err(_) => read_str(b@, *old(i) as int) is None,
        },
{
    let ghost i0 = *i as int;
    let n = ru(b, i)?;
    proof {
        lemma_dec_u_bounds(b@, i0, 0);
    }
    if n > (b.len() - *i) as u64 {
        return Err(oasis_err("string runs past end of file"));
    }
    let end = *i + n as usize;
    let bytes = slice_of(b, *i, end);
    let s = utf8_lossy(bytes.as_slice());
    *i = end;
    Ok(s)
}

/// The bytes `b[lo..hi]`, copied.
fn slice_of(b: &[u8], lo: usize, hi: usize) -> (v: Vec<u8>)
    requires
        lo <= hi <= b@.len(),
    ensures
        v@ == b@.subrange(lo as int, hi as int),
{
    let mut v: Vec<u8> = Vec::new();
    let mut k = lo;
    while k < hi
        invariant
            lo <= k <= hi,
            hi <= b@.len(),
            v@ == b@.subrange(lo as int, k as int),
        decreases hi - k,
    {
        v.push(b[k]);
        k += 1;
        proof {
            assert(v@ =~= b@.subrange(lo as int, k as int));
        }
    }
    v
}

// ---- the END record ---------------------------------------------------------------

/// The END record: id 2, a 252-byte zero padding string, validation scheme 0 — 256 bytes.
pub open spec fn end_record() -> Seq<u8> {
    enc_u(2) + enc_u(252) + Seq::new(252, |k: int| 0u8) + enc_u(0)
}

/// Append the END record. It is fixed at 256 bytes: id(1) + padding-string + validation
/// scheme (= 0); with offsets already in START, a 252-byte pad string makes the total
/// exactly 256: 1 + wu(252)[2] + 252 + wu(0)[1] = 256.
pub fn write_end(o: &mut Vec<u8>)
    ensures
        final(o)@ == old(o)@ + end_record(),
        final(o)@.len() == old(o)@.len() + 256,
{
    wu(o, R_END);
    wu(o, 252);
    let ghost mid = o@;
    let mut k: usize = 0;
    while k < 252
        invariant
            k <= 252,
            o@ == mid + Seq::new(k as nat, |j: int| 0u8),
        decreases 252 - k,
    {
        o.push(0);
        k += 1;
        proof {
            assert(o@ =~= mid + Seq::new(k as nat, |j: int| 0u8));
        }
    }
    wu(o, 0);
    proof {
        assert(enc_u(2) =~= seq![2u8]);
        assert(enc_u(0) =~= seq![0u8]);
        assert(enc_u(1) =~= seq![1u8]);
        assert(enc_u(252) =~= seq![252u8] + enc_u(1));
        assert(final(o)@ =~= old(o)@ + end_record());
    }
}

// ---- reals -------------------------------------------------------------------------

/// An OASIS real, kept exactly as stored: an integer, a reciprocal, a ratio, or the bits
/// of an IEEE single or double.
#[derive(Clone, Copy, Debug, PartialEq, Eq, Structural)]
pub enum Real {
    PosInt(u64),
    NegInt(u64),
    PosRecip(u64),
    NegRecip(u64),
    PosRatio(u64, u64),
    NegRatio(u64, u64),
    Single(u32),
    Double(u64),
}

/// The little-endian unsigned value of the `n` bytes at `i`.
pub open spec fn le_bytes(b: Seq<u8>, i: int, n: nat) -> nat
    decreases n,
{
    if n == 0 {
        0
    } else {
        b[i] as nat + 256 * le_bytes(b, i + 1, (n - 1) as nat)
    }
}

/// The real payload of type `t` at `i`, and the position after it.
pub open spec fn read_real_typed_spec(b: Seq<u8>, i: int, t: nat) -> Option<(Real, int)> {
    if t <= 3 {
        match read_u(b, i) {
            Some((v, n)) => Some(
                (
                    if t == 0 {
                        Real::PosInt(v as u64)
                    } else if t == 1 {
                        Real::NegInt(v as u64)
                    } else if t == 2 {
                        Real::PosRecip(v as u64)
                    } else {
                        Real::NegRecip(v as u64)
                    },
                    n,
                ),
            ),
            None => None,
        }
    } else if t == 4 || t == 5 {
        match read_u(b, i) {
            Some((num, n)) => match read_u(b, n) {
                Some((den, n2)) => Some(
                    (if t == 4 { Real::PosRatio(num as u64, den as u64) } else { Real::NegRatio(num as u64, den as u64) }, n2),
                ),
                None => None,
            },
            None => None,
        }
    } else if t == 6 {
        if 0 <= i && i + 4 <= b.len() {
            Some((Real::Single(le_bytes(b, i, 4) as u32), i + 4))
        } else {
            None
        }
    } else if t == 7 {
        if 0 <= i && i + 8 <= b.len() {
            Some((Real::Double(le_bytes(b, i, 8) as u64), i + 8))
        } else {
            None
        }
    } else {
        None
    }
}

/// The little-endian value of `n <= 8` bytes at `i`.
fn le_exec(b: &[u8], i: usize, n: usize) -> (v: u64)
    requires
        n <= 8,
        i + n <= b@.len(),
    ensures
        v == le_bytes(b@, i as int, n as nat),
{
    let mut v: u64 = 0;
    let mut k: usize = n;
    let len = b.len();
    while k > 0
        invariant
            k <= n <= 8,
            len == b@.len(),
            i + n <= b@.len(),
            v == le_bytes(b@, (i + k) as int, (n - k) as nat),
            v < pow256((n - k) as nat),
        decreases k,
    {
        k = k - 1;
        proof {
            lemma_pow256_small((n - k - 1) as nat);
            assert(256 * v + 255 < pow256((n - k) as nat)) by (nonlinear_arith)
                requires
                    v < pow256((n - k - 1) as nat),
                    pow256((n - k) as nat) == 256 * pow256((n - k - 1) as nat),
            ;
            assert(pow256((n - k) as nat) <= 0x1_0000_0000_0000_0000);
            assert(256 * v + 255 <= 0xffff_ffff_ffff_ffff);
            assert(i + k < b@.len());
        }
        let byte = b[i + k] as u64;
        v = byte + 256 * v;
    }
    v
}

/// `256^k`.
pub open spec fn pow256(k: nat) -> nat
    decreases k,
{
    if k == 0 {
        1
    } else {
        256 * pow256((k - 1) as nat)
    }
}

proof fn lemma_pow256_small(k: nat)
    requires
        k <= 7,
    ensures
        pow256(k + 1) == 256 * pow256(k),
        pow256(k + 1) <= 0x1_0000_0000_0000_0000,
        pow256(8) == 0x1_0000_0000_0000_0000,
{
    reveal_with_fuel(pow256, 9);
    assert(pow256(0) == 1);
    assert(pow256(1) == 0x100);
    assert(pow256(2) == 0x1_0000);
    assert(pow256(3) == 0x100_0000);
    assert(pow256(4) == 0x1_0000_0000);
    assert(pow256(5) == 0x100_0000_0000);
    assert(pow256(6) == 0x1_0000_0000_0000);
    assert(pow256(7) == 0x100_0000_0000_0000);
    assert(pow256(8) == 0x1_0000_0000_0000_0000);
}

/// Read a real's payload given its already-consumed type.
pub fn read_real_typed(b: &[u8], i: &mut usize, t: u64) -> (r: Result<Real, OasisError>)
    ensures
        match r {
            Ok(v) => read_real_typed_spec(b@, *old(i) as int, t as nat) == Some((v, *final(i) as int)),
            Err(_) => read_real_typed_spec(b@, *old(i) as int, t as nat) is None,
        },
{
    if t <= 3 {
        let v = ru(b, i)?;
        Ok(
            if t == 0 {
                Real::PosInt(v)
            } else if t == 1 {
                Real::NegInt(v)
            } else if t == 2 {
                Real::PosRecip(v)
            } else {
                Real::NegRecip(v)
            },
        )
    } else if t == 4 || t == 5 {
        let num = ru(b, i)?;
        let den = ru(b, i)?;
        Ok(if t == 4 { Real::PosRatio(num, den) } else { Real::NegRatio(num, den) })
    } else if t == 6 || t == 7 {
        let n: usize = if t == 6 { 4 } else { 8 };
        if *i > b.len() || n > b.len() - *i {
            return Err(oasis_err("real runs past end"));
        }
        let v = le_exec(b, *i, n);
        *i = *i + n;
        proof {
            reveal_with_fuel(pow256, 5);
            lemma_le_bound(b@, *old(i) as int, n as nat);
        }
        Ok(if t == 6 { Real::Single(v as u32) } else { Real::Double(v) })
    } else {
        Err(oasis_err("unknown real type"))
    }
}

proof fn lemma_le_bound(b: Seq<u8>, i: int, n: nat)
    requires
        n <= 8,
    ensures
        le_bytes(b, i, n) < pow256(n),
    decreases n,
{
    if n > 0 {
        lemma_le_bound(b, i + 1, (n - 1) as nat);
        lemma_pow256_small((n - 1) as nat);
        let r = le_bytes(b, i + 1, (n - 1) as nat);
        let byte: int = b[i] as int;
        assert(byte + 256 * r < pow256(n)) by (nonlinear_arith)
            requires
                0 <= byte < 256,
                r < pow256((n - 1) as nat),
                pow256(n) == 256 * pow256((n - 1) as nat),
        ;
    }
}

/// The real at `i`: a type varint, then its payload.
pub open spec fn read_real_spec(b: Seq<u8>, i: int) -> Option<(Real, int)> {
    match read_u(b, i) {
        Some((t, n)) => read_real_typed_spec(b, n, t),
        None => None,
    }
}

/// Read a real at `*i`, advancing past it.
pub fn read_real(b: &[u8], i: &mut usize) -> (r: Result<Real, OasisError>)
    ensures
        match r {
            Ok(v) => read_real_spec(b@, *old(i) as int) == Some((v, *final(i) as int)),
            Err(_) => read_real_spec(b@, *old(i) as int) is None,
        },
{
    let t = ru(b, i)?;
    read_real_typed(b, i, t)
}

/// Append a real of type 7 (IEEE double, little-endian) given its bits.
pub fn write_real_bits(o: &mut Vec<u8>, bits: u64)
    ensures
        final(o)@.len() == old(o)@.len() + 9,
        read_real_spec(final(o)@, old(o)@.len() as int) == Some((Real::Double(bits), final(o)@.len() as int)),
{
    let ghost start = o@;
    wu(o, 7);
    let ghost mid = o@;
    proof {
        assert(enc_u(7) =~= seq![7u8]);
    }
    let mut v = bits;
    let mut k: usize = 0;
    proof {
        lemma_pow256_small(0);
        assert(le_bytes(o@, mid.len() as int, 0) == 0);
    }
    while k < 8
        invariant
            k <= 8,
            o@.len() == mid.len() + k,
            mid == start.push(7u8),
            forall|j: int| 0 <= j < mid.len() ==> #[trigger] o@[j] == mid[j],
            bits == le_bytes(o@, mid.len() as int, k as nat) + pow256(k as nat) * v,
            v < pow256((8 - k) as nat),
        decreases 8 - k,
    {
        proof {
            lemma_pow256_small(k as nat);
            lemma_pow256_small((7 - k) as nat);
        }
        let byte = (v % 256) as u8;
        let ghost before = o@;
        o.push(byte);
        proof {
            lemma_le_push(before, mid.len() as int, k as nat, byte);
            assert(pow256(k as nat) * v == pow256(k as nat) * (v % 256) + pow256((k + 1) as nat) * (v / 256)) by (nonlinear_arith)
                requires
                    pow256((k + 1) as nat) == 256 * pow256(k as nat),
            ;
            assert(v / 256 < pow256((8 - k - 1) as nat)) by (nonlinear_arith)
                requires
                    v < pow256((8 - k) as nat),
                    pow256((8 - k) as nat) == 256 * pow256((8 - k - 1) as nat),
            ;
        }
        v = v / 256;
        k += 1;
    }
    proof {
        reveal_with_fuel(pow256, 2);
        assert(v == 0);
        assert(read_u(o@, start.len() as int) == Some((7nat, mid.len() as int))) by {
            assert(mid[start.len() as int] == 7u8);
            assert(o@[start.len() as int] == 7u8);
            assert(pow128(0) == 1);
            assert(vdigit(7u8, 0) == 7);
            assert(dec_u(o@, start.len() as int, 0) == Some(((vdigit(7u8, 0) * pow128(0)) as nat, (start.len() + 1) as int)));
        }
        assert(le_bytes(o@, mid.len() as int, 8) < pow256(8)) by {
            lemma_le_bound(o@, mid.len() as int, 8);
        }
    }
}

/// Little-endian value of a prefix extended by one byte.
proof fn lemma_le_push(s: Seq<u8>, i: int, k: nat, byte: u8)
    requires
        0 <= i,
        i + k == s.len(),
    ensures
        le_bytes(s.push(byte), i, k + 1) == le_bytes(s, i, k) + pow256(k) * byte,
    decreases k,
{
    let t = s.push(byte);
    if k == 0 {
        assert(t[i] == byte);
        assert(le_bytes(t, i + 1, 0) == 0);
        assert(le_bytes(t, i, 1) == t[i] as nat + 256 * le_bytes(t, i + 1, 0));
        assert(pow256(0) == 1);
    } else {
        assert(t[i] == s[i]);
        lemma_le_push(s, i + 1, (k - 1) as nat, byte);
        assert(le_bytes(t, i, k + 1) == t[i] as nat + 256 * le_bytes(t, i + 1, k));
        assert(le_bytes(s, i, k) == s[i] as nat + 256 * le_bytes(s, i + 1, (k - 1) as nat));
        assert(256 * (pow256((k - 1) as nat) * byte) == pow256(k) * byte) by (nonlinear_arith)
            requires
                pow256(k) == 256 * pow256((k - 1) as nat),
        ;
    }
}

// ---- point lists -------------------------------------------------------------------

/// `n` signed varints read one after another from `i`.
pub open spec fn s_list(b: Seq<u8>, i: int, n: nat) -> Option<(Seq<int>, int)>
    decreases n,
{
    if n == 0 {
        Some((Seq::empty(), i))
    } else {
        match s_list(b, i, (n - 1) as nat) {
            Some((vs, p)) => match read_s(b, p) {
                Some((v, q)) => Some((vs.push(v), q)),
                None => None,
            },
            None => None,
        }
    }
}

/// `n` unsigned varints read one after another from `i`.
pub open spec fn u_list(b: Seq<u8>, i: int, n: nat) -> Option<(Seq<nat>, int)>
    decreases n,
{
    if n == 0 {
        Some((Seq::empty(), i))
    } else {
        match u_list(b, i, (n - 1) as nat) {
            Some((vs, p)) => match read_u(b, p) {
                Some((v, q)) => Some((vs.push(v), q)),
                None => None,
            },
            None => None,
        }
    }
}

/// `n` g-deltas read one after another from `i`.
pub open spec fn g_list(b: Seq<u8>, i: int, n: nat) -> Option<(Seq<(int, int)>, int)>
    decreases n,
{
    if n == 0 {
        Some((Seq::empty(), i))
    } else {
        match g_list(b, i, (n - 1) as nat) {
            Some((vs, p)) => match read_g(b, p) {
                Some((v, q)) => Some((vs.push(v), q)),
                None => None,
            },
            None => None,
        }
    }
}

/// In a manhattan alternating point list (types 0 and 1), the `j`-th delta is horizontal.
pub open spec fn horiz_at(ptype: nat, j: int) -> bool {
    (j % 2 == 0) == (ptype == 0)
}

/// A 1-delta along the x axis (`horiz`) or the y axis.
pub open spec fn axis_delta(d: int, horiz: bool) -> (int, int) {
    if horiz { (d, 0) } else { (0, d) }
}

/// Sum of the first `n` alternating deltas lying along the axis `h`.
pub open spec fn sum_axis(ds: Seq<int>, ptype: nat, h: bool, n: int) -> int
    decreases n,
{
    if n <= 0 {
        0
    } else {
        sum_axis(ds, ptype, h, n - 1) + if horiz_at(ptype, n - 1) == h { ds[n - 1] } else { 0 }
    }
}

/// A 2-delta: direction in the two low bits, magnitude above.
pub open spec fn dir2(u: nat) -> (int, int) {
    let m = (u / 4) as int;
    if u % 4 == 0 {
        (m, 0)
    } else if u % 4 == 1 {
        (0, m)
    } else if u % 4 == 2 {
        (-m, 0)
    } else {
        (0, -m)
    }
}

/// A 3-delta: direction in the three low bits, magnitude above.
pub open spec fn dir3(u: nat) -> (int, int) {
    oct(u % 8, (u / 8) as int)
}

/// Fits in `i64`.
pub open spec fn fits64(v: int) -> bool {
    -0x8000_0000_0000_0000 <= v <= 0x7fff_ffff_ffff_ffff
}

/// The point list at `i`: its type, its count, and that many deltas. For the alternating
/// manhattan forms (0/1) a closed shape omits its last delta: the (count+1)-th delta
/// continues the alternation and returns to the start along its axis.
pub open spec fn plist_at(b: Seq<u8>, i: int, closed: bool) -> Option<(Seq<(int, int)>, int)> {
    match read_u(b, i) {
        None => None,
        Some((ptype, j)) => match read_u(b, j) {
            None => None,
            Some((count, k)) => if ptype <= 1 {
                match s_list(b, k, count) {
                    None => None,
                    Some((ds, e)) => {
                        let base = Seq::new(count, |q: int| axis_delta(ds[q], horiz_at(ptype, q)));
                        if closed {
                            let h = horiz_at(ptype, count as int);
                            let back = -sum_axis(ds, ptype, h, count as int);
                            if fits64(back) {
                                Some((base.push(axis_delta(back, h)), e))
                            } else {
                                None
                            }
                        } else {
                            Some((base, e))
                        }
                    },
                }
            } else if ptype == 2 {
                match u_list(b, k, count) {
                    Some((us, e)) => Some((us.map_values(|u: nat| dir2(u)), e)),
                    None => None,
                }
            } else if ptype == 3 {
                match u_list(b, k, count) {
                    Some((us, e)) => Some((us.map_values(|u: nat| dir3(u)), e)),
                    None => None,
                }
            } else if ptype == 4 {
                g_list(b, k, count)
            } else {
                None
            },
        },
    }
}

/// The deltas of `v` are those of `d`.
pub open spec fn same_deltas(v: Seq<(i64, i64)>, d: Seq<(int, int)>) -> bool {
    v.len() == d.len() && forall|q: int| 0 <= q < v.len() ==> (#[trigger] v[q]).0 as int == d[q].0 && v[q].1 as int == d[q].1
}

/// Read an OASIS point-list → the deltas between successive vertices. Covers the
/// manhattan (0/1 alternating, 2 any-direction), octangular (3), and all-angle g-delta
/// (4) forms; the double-delta form (5) is reserved.
///
/// `closed` = the shape auto-closes (a POLYGON, not a PATH). For the alternating
/// manhattan forms (0/1) a closed shape **omits its last delta**, which is synthesized.
pub fn read_point_list(b: &[u8], i: &mut usize, closed: bool) -> (r: Result<Vec<(i64, i64)>, OasisError>)
    ensures
        match r {
            Ok(v) => plist_at(b@, *old(i) as int, closed) matches Some((d, n)) && same_deltas(v@, d) && *final(i) == n,
            Err(_) => plist_at(b@, *old(i) as int, closed) is None,
        },
{
    let ghost i0 = *i as int;
    let ptype = ru(b, i)?;
    let ghost j0 = *i as int;
    let count = ru(b, i)?;
    let ghost k0 = *i as int;
    let mut deltas: Vec<(i64, i64)> = Vec::new();
    if ptype <= 1 {
        // manhattan, alternating 1-deltas; type 0 starts horizontal, 1 vertical
        let mut horiz = ptype == 0;
        let mut sum_h: i128 = 0;
        let mut sum_v: i128 = 0;
        let ghost mut ds: Seq<int> = Seq::empty();
        let mut q: u64 = 0;
        while q < count
            invariant
                i0 == *old(i) as int,
                read_u(b@, i0) == Some((ptype as nat, j0)),
                read_u(b@, j0) == Some((count as nat, k0)),
                q <= count,
                ptype <= 1,
                s_list(b@, k0, q as nat) == Some((ds, *i as int)),
                horiz == horiz_at(ptype as nat, q as int),
                sum_h == sum_axis(ds, ptype as nat, true, q as int),
                sum_v == sum_axis(ds, ptype as nat, false, q as int),
                -0x8000_0000_0000_0000 * q <= sum_h <= 0x8000_0000_0000_0000 * q,
                -0x8000_0000_0000_0000 * q <= sum_v <= 0x8000_0000_0000_0000 * q,
                ds.len() == q,
                same_deltas(deltas@, Seq::new(q as nat, |t: int| axis_delta(ds[t], horiz_at(ptype as nat, t)))),
            decreases count - q,
        {
            let ghost p = *i as int;
            let d1 = rs(b, i);
            match d1 {
                Err(e) => {
                    proof {
                        assert(s_list(b@, k0, (q + 1) as nat) is None);
                        lemma_s_list_none(b@, k0, (q + 1) as nat, count as nat);
                    }
                    return Err(e);
                },
                Ok(d1) => {
                    let ghost old_ds = ds;
                    if horiz {
                        deltas.push((d1, 0));
                        sum_h = sum_h + d1 as i128;
                    } else {
                        deltas.push((0, d1));
                        sum_v = sum_v + d1 as i128;
                    }
                    proof {
                        ds = ds.push(d1 as int);
                        assert(s_list(b@, k0, (q + 1) as nat) == Some((ds, *i as int)));
                        assert(ds.drop_last() =~= old_ds);
                        assert(same_deltas(deltas@, Seq::new((q + 1) as nat, |t: int| axis_delta(ds[t], horiz_at(ptype as nat, t))))) by {
                            assert forall|t: int| 0 <= t < deltas@.len() implies (#[trigger] deltas@[t]).0 as int == Seq::new((q + 1) as nat, |t: int| axis_delta(ds[t], horiz_at(ptype as nat, t)))[t].0
                                && deltas@[t].1 as int == Seq::new((q + 1) as nat, |t: int| axis_delta(ds[t], horiz_at(ptype as nat, t)))[t].1 by {
                                if t < q {
                                    assert(ds[t] == old_ds[t]);
                                }
                            }
                        }
                        lemma_sum_axis_ext(ds, old_ds, ptype as nat, q as int);
                    }
                    horiz = !horiz;
                },
            }
            q = q + 1;
        }
        if closed {
            // `horiz` now holds the orientation of the implied (count+1)-th delta.
            let back: i128 = if horiz { -sum_h } else { -sum_v };
            if back < -0x8000_0000_0000_0000 || back > 0x7fff_ffff_ffff_ffff {
                return Err(oasis_err("point list closure overflows"));
            }
            let bk = back as i64;
            if horiz {
                deltas.push((bk, 0));
            } else {
                deltas.push((0, bk));
            }
        }
        proof {
            assert(same_deltas(deltas@, plist_at(b@, i0, closed)->Some_0.0)) by {
                if closed {
                    assert forall|t: int| 0 <= t < deltas@.len() implies (#[trigger] deltas@[t]).0 as int == plist_at(b@, i0, closed)->Some_0.0[t].0
                        && deltas@[t].1 as int == plist_at(b@, i0, closed)->Some_0.0[t].1 by {
                    }
                }
            }
        }
        Ok(deltas)
    } else if ptype == 2 || ptype == 3 {
        // manhattan 2-deltas or octangular 3-deltas: low bits = direction, rest = magnitude
        let ghost mut us: Seq<nat> = Seq::empty();
        let mut q: u64 = 0;
        while q < count
            invariant
                i0 == *old(i) as int,
                read_u(b@, i0) == Some((ptype as nat, j0)),
                read_u(b@, j0) == Some((count as nat, k0)),
                q <= count,
                ptype == 2 || ptype == 3,
                u_list(b@, k0, q as nat) == Some((us, *i as int)),
                us.len() == q,
                same_deltas(deltas@, us.map_values(|u: nat| if ptype == 2 { dir2(u) } else { dir3(u) })),
            decreases count - q,
        {
            let v = ru(b, i);
            match v {
                Err(e) => {
                    proof {
                        lemma_u_list_none(b@, k0, (q + 1) as nat, count as nat);
                    }
                    return Err(e);
                },
                Ok(v) => {
                    let d: (i64, i64) = if ptype == 2 {
                        let m = (v / 4) as i64;
                        if v % 4 == 0 {
                            (m, 0)
                        } else if v % 4 == 1 {
                            (0, m)
                        } else if v % 4 == 2 {
                            (-m, 0)
                        } else {
                            (0, -m)
                        }
                    } else {
                        let m = (v / 8) as i64;
                        let dir = v % 8;
                        if dir == 0 {
                            (m, 0)
                        } else if dir == 1 {
                            (0, m)
                        } else if dir == 2 {
                            (-m, 0)
                        } else if dir == 3 {
                            (0, -m)
                        } else if dir == 4 {
                            (m, m)
                        } else if dir == 5 {
                            (-m, m)
                        } else if dir == 6 {
                            (-m, -m)
                        } else {
                            (m, -m)
                        }
                    };
                    let ghost old_us = us;
                    deltas.push(d);
                    proof {
                        us = us.push(v as nat);
                        assert(us.map_values(|u: nat| if ptype == 2 { dir2(u) } else { dir3(u) }) =~= old_us.map_values(|u: nat| if ptype == 2 { dir2(u) } else { dir3(u) }).push(if ptype == 2 { dir2(v as nat) } else { dir3(v as nat) }));
                    }
                },
            }
            q = q + 1;
        }
        proof {
            if ptype == 2 {
                assert(us.map_values(|u: nat| if ptype == 2 { dir2(u) } else { dir3(u) }) =~= us.map_values(|u: nat| dir2(u)));
            } else {
                assert(us.map_values(|u: nat| if ptype == 2 { dir2(u) } else { dir3(u) }) =~= us.map_values(|u: nat| dir3(u)));
            }
        }
        Ok(deltas)
    } else if ptype == 4 {
        let ghost mut gs: Seq<(int, int)> = Seq::empty();
        let mut q: u64 = 0;
        while q < count
            invariant
                i0 == *old(i) as int,
                read_u(b@, i0) == Some((ptype as nat, j0)),
                read_u(b@, j0) == Some((count as nat, k0)),
                q <= count,
                ptype == 4,
                g_list(b@, k0, q as nat) == Some((gs, *i as int)),
                same_deltas(deltas@, gs),
            decreases count - q,
        {
            let g = read_gdelta(b, i);
            match g {
                Err(e) => {
                    proof {
                        lemma_g_list_none(b@, k0, (q + 1) as nat, count as nat);
                    }
                    return Err(e);
                },
                Ok(g) => {
                    deltas.push(g);
                    proof {
                        gs = gs.push((g.0 as int, g.1 as int));
                    }
                },
            }
            q = q + 1;
        }
        Ok(deltas)
    } else {
        Err(oasis_err_num("point-list type ", ptype, " not supported in v0"))
    }
}

/// Extending the deltas by one leaves the earlier axis sums unchanged.
proof fn lemma_sum_axis_ext(ds: Seq<int>, old_ds: Seq<int>, ptype: nat, n: int)
    requires
        0 <= n <= old_ds.len(),
        old_ds.len() + 1 == ds.len(),
        forall|t: int| 0 <= t < old_ds.len() ==> ds[t] == old_ds[t],
    ensures
        sum_axis(ds, ptype, true, n) == sum_axis(old_ds, ptype, true, n),
        sum_axis(ds, ptype, false, n) == sum_axis(old_ds, ptype, false, n),
    decreases n,
{
    if n > 0 {
        lemma_sum_axis_ext(ds, old_ds, ptype, n - 1);
    }
}

/// Once a list read fails, every longer read of the same list fails.
proof fn lemma_s_list_none(b: Seq<u8>, i: int, n: nat, m: nat)
    requires
        s_list(b, i, n) is None,
        n <= m,
    ensures
        s_list(b, i, m) is None,
    decreases m - n,
{
    if n < m {
        lemma_s_list_none(b, i, n + 1, m);
    }
}

pub proof fn lemma_u_list_none(b: Seq<u8>, i: int, n: nat, m: nat)
    requires
        u_list(b, i, n) is None,
        n <= m,
    ensures
        u_list(b, i, m) is None,
    decreases m - n,
{
    if n < m {
        lemma_u_list_none(b, i, n + 1, m);
    }
}

pub proof fn lemma_g_list_none(b: Seq<u8>, i: int, n: nat, m: nat)
    requires
        g_list(b, i, n) is None,
        n <= m,
    ensures
        g_list(b, i, m) is None,
    decreases m - n,
{
    if n < m {
        lemma_g_list_none(b, i, n + 1, m);
    }
}

// ---- skipped records ---------------------------------------------------------------

/// The position after the unsigned varint at `i`.
pub open spec fn u_end(b: Seq<u8>, i: int) -> Option<int> {
    match read_u(b, i) {
        Some((_, n)) => Some(n),
        None => None,
    }
}

/// The position after the string at `i`.
pub open spec fn str_end(b: Seq<u8>, i: int) -> Option<int> {
    match read_str(b, i) {
        Some((_, n)) => Some(n),
        None => None,
    }
}

/// The position after a LAYERNAME interval at `i`: a type, then no bound (0), one (1–3)
/// or two (4).
pub open spec fn interval_end(b: Seq<u8>, i: int) -> Option<int> {
    match read_u(b, i) {
        None => None,
        Some((t, n)) => if t == 0 {
            Some(n)
        } else if t <= 3 {
            u_end(b, n)
        } else if t == 4 {
            match u_end(b, n) {
                Some(m) => u_end(b, m),
                None => None,
            }
        } else {
            None
        },
    }
}

/// Skip a LAYERNAME interval (`type` + up to two bounds).
pub fn read_interval(b: &[u8], i: &mut usize) -> (r: Result<(), OasisError>)
    ensures
        match r {
            Ok(_) => interval_end(b@, *old(i) as int) == Some(*final(i) as int),
            Err(_) => interval_end(b@, *old(i) as int) is None,
        },
{
    let t = ru(b, i)?;
    if t == 0 {
    } else if t <= 3 {
        ru(b, i)?;
    } else if t == 4 {
        ru(b, i)?;
        ru(b, i)?;
    } else {
        return Err(oasis_err("bad interval type"));
    }
    Ok(())
}

/// The position after a PROPNAME/PROPSTRING/XNAME explicit record body at `i`: a string,
/// then a reference number.
pub open spec fn name_record_end(b: Seq<u8>, i: int) -> Option<int> {
    match str_end(b, i) {
        Some(n) => u_end(b, n),
        None => None,
    }
}

/// Skip a PROPNAME/PROPSTRING/XNAME explicit record (a string + a reference number).
pub fn skip_name_record(b: &[u8], i: &mut usize, id: u64) -> (r: Result<(), OasisError>)
    ensures
        match r {
            Ok(_) => name_record_end(b@, *old(i) as int) == Some(*final(i) as int),
            Err(_) => name_record_end(b@, *old(i) as int) is None,
        },
{
    rstr(b, i)?;
    ru(b, i)?;
    Ok(())
}

/// The position after one PROPERTY value at `i`, by its leading type: 0–7 a real,
/// 8 an unsigned and 9 a signed integer, 10–12 a string, 13–15 a reference number.
pub open spec fn value_end(b: Seq<u8>, i: int) -> Option<int> {
    match read_u(b, i) {
        None => None,
        Some((t, n)) => if t <= 7 {
            match read_real_typed_spec(b, n, t) {
                Some((_, m)) => Some(m),
                None => None,
            }
        } else if t == 8 || t == 9 || (13 <= t <= 15) {
            u_end(b, n)
        } else if t <= 12 {
            str_end(b, n)
        } else {
            None
        },
    }
}

/// The position after `count` PROPERTY values at `i`.
pub open spec fn values_end(b: Seq<u8>, i: int, count: nat) -> Option<int>
    decreases count,
{
    if count == 0 {
        Some(i)
    } else {
        match values_end(b, i, (count - 1) as nat) {
            Some(p) => value_end(b, p),
            None => None,
        }
    }
}

/// The position after a PROPERTY record body at `i`. Its info byte is `UUUUVCNS`: C = a
/// name follows (a reference number when N, else a string); V clear = a value list
/// follows, with UUUU its count (15 = an explicit count varint); V set = the modal value
/// list is reused and nothing follows. PROPERTY-REPEAT has no body.
pub open spec fn prop_end(b: Seq<u8>, i: int, id: u64) -> Option<int> {
    if id == R_PROPERTY_REPEAT {
        Some(i)
    } else if i < 0 || i >= b.len() {
        None
    } else {
        let info = b[i];
        let after_name = if (info / 4) % 2 == 1 {
            if (info / 2) % 2 == 1 { u_end(b, i + 1) } else { str_end(b, i + 1) }
        } else {
            Some(i + 1)
        };
        match after_name {
            None => None,
            Some(q) => if (info / 8) % 2 == 0 {
                if info / 16 == 15 {
                    match read_u(b, q) {
                        Some((count, q2)) => values_end(b, q2, count),
                        None => None,
                    }
                } else {
                    values_end(b, q, (info / 16) as nat)
                }
            } else {
                Some(q)
            },
        }
    }
}

/// Skip one PROPERTY value by its leading type byte.
pub fn skip_prop_value(b: &[u8], i: &mut usize) -> (r: Result<(), OasisError>)
    ensures
        match r {
            Ok(_) => value_end(b@, *old(i) as int) == Some(*final(i) as int),
            Err(_) => value_end(b@, *old(i) as int) is None,
        },
{
    let t = ru(b, i)?;
    if t <= 7 {
        read_real_typed(b, i, t)?;
    } else if t == 8 || t == 9 || (13 <= t && t <= 15) {
        ru(b, i)?;
    } else if t <= 12 {
        rstr(b, i)?;
    } else {
        return Err(oasis_err("bad property value type"));
    }
    Ok(())
}

/// Skip a PROPERTY record without modeling it — consume its typed value list so the
/// stream stays aligned.
pub fn skip_property(b: &[u8], i: &mut usize, id: u64) -> (r: Result<(), OasisError>)
    ensures
        match r {
            Ok(_) => prop_end(b@, *old(i) as int, id) == Some(*final(i) as int),
            Err(_) => prop_end(b@, *old(i) as int, id) is None,
        },
{
    if id == R_PROPERTY_REPEAT {
        return Ok(());  // reuse the modal property — nothing to consume
    }
    let ghost i0 = *i as int;
    let info = rb(b, i)?;
    if (info / 4) % 2 == 1 {
        if (info / 2) % 2 == 1 {
            ru(b, i)?;  // propname reference number
        } else {
            rstr(b, i)?;  // propname string
        }
    }
    let ghost q = *i as int;
    if (info / 8) % 2 == 0 {
        // value-count is the high nibble of the info byte (15 → an explicit count)
        let count: u64 = if info / 16 == 15 { ru(b, i)? } else { (info / 16) as u64 };
        let ghost q2 = *i as int;
        let mut k: u64 = 0;
        while k < count
            invariant
                k <= count,
                i0 == *old(i) as int,
                id != R_PROPERTY_REPEAT,
                0 <= i0 < b@.len(),
                b@[i0] == info,
                (info / 8) % 2 == 0,
                prop_end(b@, i0, id) == values_end(b@, q2, count as nat),
                values_end(b@, q2, k as nat) == Some(*i as int),
            decreases count - k,
        {
            let ghost p = *i as int;
            let rv = skip_prop_value(b, i);
            match rv {
                Err(e) => {
                    proof {
                        lemma_values_none(b@, q2, (k + 1) as nat, count as nat);
                    }
                    return Err(e);
                },
                Ok(_) => {},
            }
            k = k + 1;
        }
    }
    Ok(())
}

/// Once reading a value list fails, reading a longer one fails too.
proof fn lemma_values_none(b: Seq<u8>, i: int, n: nat, m: nat)
    requires
        values_end(b, i, n) is None,
        n <= m,
    ensures
        values_end(b, i, m) is None,
    decreases m - n,
{
    if n < m {
        lemma_values_none(b, i, n + 1, m);
    }
}

// ---- names and paths ---------------------------------------------------------------

/// Human name of an OASIS record id — makes "unsupported record" errors actionable.
pub open spec fn record_name_spec(id: u64) -> Seq<char> {
    if id == 5 || id == 6 {
        "TEXTSTRING"@
    } else if id == 7 || id == 8 {
        "PROPNAME"@
    } else if id == 9 || id == 10 {
        "PROPSTRING"@
    } else if id == 11 || id == 12 {
        "LAYERNAME"@
    } else if id == 19 {
        "TEXT"@
    } else if 23 <= id <= 25 {
        "TRAPEZOID"@
    } else if id == 26 {
        "CTRAPEZOID"@
    } else if id == 27 {
        "CIRCLE"@
    } else if id == 28 || id == 29 {
        "PROPERTY"@
    } else if id == 30 || id == 31 {
        "XNAME"@
    } else if id == 32 {
        "XELEMENT"@
    } else if id == 33 {
        "XGEOMETRY"@
    } else if id == 34 {
        "CBLOCK"@
    } else {
        "unknown"@
    }
}

/// Human name for an OASIS record id.
pub fn record_name(id: u64) -> (s: &'static str)
    ensures
        s@ == record_name_spec(id),
{
    if id == 5 || id == 6 {
        "TEXTSTRING"
    } else if id == 7 || id == 8 {
        "PROPNAME"
    } else if id == 9 || id == 10 {
        "PROPSTRING"
    } else if id == 11 || id == 12 {
        "LAYERNAME"
    } else if id == 19 {
        "TEXT"
    } else if 23 <= id && id <= 25 {
        "TRAPEZOID"
    } else if id == 26 {
        "CTRAPEZOID"
    } else if id == 27 {
        "CIRCLE"
    } else if id == 28 || id == 29 {
        "PROPERTY"
    } else if id == 30 || id == 31 {
        "XNAME"
    } else if id == 32 {
        "XELEMENT"
    } else if id == 33 {
        "XGEOMETRY"
    } else if id == 34 {
        "CBLOCK"
    } else {
        "unknown"
    }
}

/// The path names an OASIS file: it ends in `.oas` or `.oasis`, ignoring ASCII case.
pub open spec fn oasis_suffix(b: Seq<u8>) -> bool {
    let l = lower_seq(b);
    (l.len() >= 4 && l.subrange(l.len() - 4, l.len() as int) == seq![46u8, 111, 97, 115]) || (l.len() >= 6 && l.subrange(
        l.len() - 6,
        l.len() as int,
    ) == seq![46u8, 111, 97, 115, 105, 115])
}

/// `s` ends with `w` once ASCII upper case is lowered.
fn ends_with_lower(s: &[u8], w: &[u8]) -> (r: bool)
    ensures
        r == (s@.len() >= w@.len() && lower_seq(s@).subrange(s@.len() - w@.len(), s@.len() as int) == w@),
{
    if s.len() < w.len() {
        return false;
    }
    let off = s.len() - w.len();
    let len = s.len();
    let mut k: usize = 0;
    while k < w.len()
        invariant
            k <= w@.len(),
            len == s@.len(),
            off + w@.len() == s@.len(),
            forall|j: int| 0 <= j < k ==> crate::boolean::lower(#[trigger] s@[off + j]) == w@[j],
        decreases w@.len() - k,
    {
        let c = s[off + k];
        let lc = if 65 <= c && c <= 90 { c + 32 } else { c };
        if lc != w[k] {
            proof {
                assert(lower_seq(s@).subrange(off as int, s@.len() as int)[k as int] != w@[k as int]);
            }
            return false;
        }
        k += 1;
    }
    proof {
        assert forall|j: int| 0 <= j < w@.len() implies lower_seq(s@).subrange(off as int, s@.len() as int)[j] == w@[j] by {
            assert(lower_seq(s@)[off + j] == crate::boolean::lower(s@[off + j]));
        }
        assert(lower_seq(s@).subrange(off as int, s@.len() as int) =~= w@);
    }
    true
}

/// The path names an OASIS file (`.oas` / `.oasis`, any ASCII case).
pub fn is_oasis_path(path: &str) -> (r: bool)
    ensures
        r == oasis_suffix(path.spec_bytes()),
{
    let b = path.as_bytes();
    let oas: [u8; 4] = [46, 111, 97, 115];
    let oasis: [u8; 6] = [46, 111, 97, 115, 105, 115];
    proof {
        assert(oas@ =~= seq![46u8, 111, 97, 115]);
        assert(oasis@ =~= seq![46u8, 111, 97, 115, 105, 115]);
    }
    ends_with_lower(b, &oas) || ends_with_lower(b, &oasis)
}

/// A ring with its trailing copies of the first point stripped.
pub open spec fn distinct_spec(pts: Seq<(i32, i32)>) -> Seq<(i32, i32)>
    decreases pts.len(),
{
    if pts.len() >= 2 && pts[0] == pts[pts.len() - 1] {
        distinct_spec(pts.drop_last())
    } else {
        pts
    }
}

/// Strip trailing points equal to the first (an explicitly closed ring).
pub fn distinct_vertices(pts: &[(i32, i32)]) -> (v: Vec<(i32, i32)>)
    ensures
        v@ == distinct_spec(pts@),
{
    let mut n = pts.len();
    proof {
        assert(pts@.take(n as int) =~= pts@);
    }
    while n >= 2 && pts[0].0 == pts[n - 1].0 && pts[0].1 == pts[n - 1].1
        invariant
            n <= pts@.len(),
            distinct_spec(pts@) == distinct_spec(pts@.take(n as int)),
        decreases n,
    {
        proof {
            assert(pts@.take(n as int).drop_last() =~= pts@.take(n - 1));
            assert(pts@.take(n as int)[0] == pts@[0]);
        }
        n = n - 1;
    }
    let mut v: Vec<(i32, i32)> = Vec::new();
    let mut k: usize = 0;
    while k < n
        invariant
            k <= n <= pts@.len(),
            v@ == pts@.take(k as int),
        decreases n - k,
    {
        v.push(pts[k]);
        k += 1;
        proof {
            assert(v@ =~= pts@.take(k as int));
        }
    }
    proof {
        if n >= 2 {
            assert(pts@.take(n as int)[0] == pts@[0]);
            assert(pts@.take(n as int)[n - 1] == pts@[n - 1]);
        }
        assert(distinct_spec(pts@.take(n as int)) == pts@.take(n as int));
    }
    v
}

// ---- writers -----------------------------------------------------------------------

/// Record id of RECTANGLE.
pub const R_RECTANGLE: u64 = 20;
/// Record id of POLYGON.
pub const R_POLYGON: u64 = 21;

/// A RECTANGLE record with width, height, x, y, datatype and layer all present
/// (info byte `0x7b`), the lower-left corner as the position.
pub open spec fn rectangle_record(layer: i16, datatype: i16, r: Rect) -> Seq<u8> {
    enc_u(R_RECTANGLE as nat) + seq![0x7bu8] + enc_u(layer as u64 as nat) + enc_u(datatype as u64 as nat) + enc_u(
        (r.x1 as i64 - r.x0 as i64) as u64 as nat,
    ) + enc_u((r.y1 as i64 - r.y0 as i64) as u64 as nat) + enc_u(zig(r.x0 as i64)) + enc_u(zig(r.y0 as i64))
}

/// Append a RECTANGLE record for `r`.
pub fn write_rectangle(o: &mut Vec<u8>, layer: i16, datatype: i16, r: &Rect)
    ensures
        final(o)@ == old(o)@ + rectangle_record(layer, datatype, *r),
{
    // info byte S W H X Y R D L → width|height|x|y|datatype|layer present.
    wu(o, R_RECTANGLE);
    o.push(0x40 | 0x20 | 0x10 | 0x08 | 0x02 | 0x01);
    wu(o, layer as u64);
    wu(o, datatype as u64);
    wu(o, (r.x1 as i64 - r.x0 as i64) as u64);  // width
    wu(o, (r.y1 as i64 - r.y0 as i64) as u64);  // height
    ws(o, r.x0 as i64);  // geometry-x = lower-left corner
    ws(o, r.y0 as i64);  // geometry-y
    proof {
        assert(0x40u8 | 0x20u8 | 0x10u8 | 0x08u8 | 0x02u8 | 0x01u8 == 0x7bu8) by (bit_vector);
        assert(final(o)@ =~= old(o)@ + rectangle_record(layer, datatype, *r));
    }
}

/// The g-delta words for the edges between the first `k + 1` vertices of `v`.
pub open spec fn gdelta_chain(v: Seq<(i32, i32)>, k: int) -> Seq<u8>
    decreases k,
{
    if k <= 0 {
        Seq::empty()
    } else {
        gdelta_chain(v, k - 1) + enc_u(gdelta_word((v[k].0 as i64 - v[k - 1].0 as i64) as i64)) + enc_u(
            zig((v[k].1 as i64 - v[k - 1].1 as i64) as i64),
        )
    }
}

/// A POLYGON record for the distinct vertices `v` (at least three): point-list type 4
/// (g-deltas) holding the `n - 1` edges from the first vertex, closure implied, and the
/// first vertex as the position.
pub open spec fn polygon_record(layer: i16, datatype: i16, v: Seq<(i32, i32)>) -> Seq<u8> {
    enc_u(R_POLYGON as nat) + seq![0x3bu8] + enc_u(layer as u64 as nat) + enc_u(datatype as u64 as nat) + enc_u(4) + enc_u(
        (v.len() - 1) as nat,
    ) + gdelta_chain(v, v.len() - 1) + enc_u(zig(v[0].0 as i64)) + enc_u(zig(v[0].1 as i64))
}

/// Append a POLYGON record for the ring `pts` (nothing when it has fewer than three
/// distinct vertices).
pub fn write_polygon(o: &mut Vec<u8>, layer: i16, datatype: i16, pts: &[(i32, i32)])
    ensures
        final(o)@ == old(o)@ + if distinct_spec(pts@).len() < 3 {
            Seq::<u8>::empty()
        } else {
            polygon_record(layer, datatype, distinct_spec(pts@))
        },
{
    let v = distinct_vertices(pts);
    if v.len() < 3 {
        proof {
            assert(final(o)@ =~= old(o)@ + Seq::<u8>::empty());
        }
        return;
    }
    // info byte 0 0 P X Y R D L → point-list|x|y|datatype|layer present.
    wu(o, R_POLYGON);
    o.push(0x20 | 0x10 | 0x08 | 0x02 | 0x01);
    wu(o, layer as u64);
    wu(o, datatype as u64);
    // point-list: type 4 (general g-delta chain), then N-1 deltas; close is implicit.
    wu(o, 4);
    wu(o, (v.len() - 1) as u64);
    let ghost head = o@;
    let mut k: usize = 1;
    while k < v.len()
        invariant
            1 <= k <= v@.len(),
            o@ == head + gdelta_chain(v@, k - 1),
        decreases v@.len() - k,
    {
        let dx = v[k].0 as i64 - v[k - 1].0 as i64;
        let dy = v[k].1 as i64 - v[k - 1].1 as i64;
        write_gdelta(o, dx, dy);
        proof {
            assert(o@ =~= head + gdelta_chain(v@, k as int));
        }
        k += 1;
    }
    ws(o, v[0].0 as i64);  // geometry-x = first vertex
    ws(o, v[0].1 as i64);
    proof {
        assert(0x20u8 | 0x10u8 | 0x08u8 | 0x02u8 | 0x01u8 == 0x3bu8) by (bit_vector);
        assert(final(o)@ =~= old(o)@ + polygon_record(layer, datatype, v@));
    }
}

/// A boundary is written as a RECTANGLE when it is an axis-aligned rectangle,
/// otherwise as a POLYGON.
pub fn write_shape(o: &mut Vec<u8>, layer: i16, datatype: i16, pts: &[(i32, i32)])
    ensures
        (exists|r: Rect| is_rect_ring(pts@, r)) ==> exists|r: Rect| #[trigger] is_rect_ring(pts@, r) && final(o)@ == old(o)@ + rectangle_record(layer, datatype, r),
        !(exists|r: Rect| is_rect_ring(pts@, r)) ==> final(o)@ == old(o)@ + if distinct_spec(pts@).len() < 3 {
            Seq::<u8>::empty()
        } else {
            polygon_record(layer, datatype, distinct_spec(pts@))
        },
{
    match Rect::from_boundary(pts) {
        Some(r) => write_rectangle(o, layer, datatype, &r),
        None => write_polygon(o, layer, datatype, pts),
    }
}

/// The rectangle a path segment `p → q` of half-width `h` strokes: flush-ended along a
/// horizontal or vertical segment, the grown bounding box of a diagonal one.
pub open spec fn stroke_rect(p: (i32, i32), q: (i32, i32), h: int) -> Rect {
    let (x0, y0, x1, y1) = (p.0 as int, p.1 as int, q.0 as int, q.1 as int);
    if y0 == y1 {
        Rect { x0: imin(x0, x1) as i32, y0: (y0 - h) as i32, x1: imax(x0, x1) as i32, y1: (y0 + h) as i32 }
    } else if x0 == x1 {
        Rect { x0: (x0 - h) as i32, y0: imin(y0, y1) as i32, x1: (x0 + h) as i32, y1: imax(y0, y1) as i32 }
    } else {
        Rect { x0: (imin(x0, x1) - h) as i32, y0: (imin(y0, y1) - h) as i32, x1: (imax(x0, x1) + h) as i32, y1: (imax(y0, y1) + h) as i32 }
    }
}

/// Every path point moved by `h` either way stays in the `i32` range.
pub open spec fn stroke_fits(pts: Seq<(i32, i32)>, h: int) -> bool {
    forall|k: int| 0 <= k < pts.len() ==> i32::MIN <= (#[trigger] pts[k]).0 - h && pts[k].0 + h <= i32::MAX && i32::MIN <= pts[k].1 - h
        && pts[k].1 + h <= i32::MAX
}

/// Stroke a (Manhattan) centre-line path of full `width` into flush-ended rectangles, one
/// per segment (none for a non-positive width).
pub fn stroke_path(width: i32, pts: &[(i32, i32)]) -> (out: Vec<Rect>)
    requires
        width > 0 ==> stroke_fits(pts@, (width / 2) as int),
    ensures
        width <= 0 ==> out@.len() == 0,
        width > 0 ==> out@.len() == if pts@.len() >= 1 { pts@.len() - 1 } else { 0 },
        width > 0 ==> forall|k: int| 0 <= k < out@.len() ==> #[trigger] out@[k] == stroke_rect(pts@[k], pts@[k + 1], (width / 2) as int),
{
    let mut out: Vec<Rect> = Vec::new();
    if width <= 0 || pts.len() < 2 {
        return out;
    }
    let h = width / 2;
    let mut k: usize = 1;
    while k < pts.len()
        invariant
            1 <= k <= pts@.len(),
            width > 0,
            h == width / 2,
            stroke_fits(pts@, h as int),
            out@.len() == k - 1,
            forall|j: int| 0 <= j < out@.len() ==> #[trigger] out@[j] == stroke_rect(pts@[j], pts@[j + 1], h as int),
        decreases pts@.len() - k,
    {
        let (x0, y0) = pts[k - 1];
        let (x1, y1) = pts[k];
        proof {
            assert(i32::MIN <= pts@[k - 1].0 - h && pts@[k - 1].1 + h <= i32::MAX && pts@[k - 1].0 + h <= i32::MAX && i32::MIN <= pts@[k - 1].1 - h);
            assert(i32::MIN <= pts@[k as int].0 - h && pts@[k as int].1 + h <= i32::MAX && pts@[k as int].0 + h <= i32::MAX && i32::MIN <= pts@[k as int].1 - h);
        }
        let (lx, hx) = (if x0 <= x1 { x0 } else { x1 }, if x0 <= x1 { x1 } else { x0 });
        let (ly, hy) = (if y0 <= y1 { y0 } else { y1 }, if y0 <= y1 { y1 } else { y0 });
        let r = if y0 == y1 {
            Rect::new(lx, y0 - h, hx, y0 + h)
        } else if x0 == x1 {
            Rect::new(x0 - h, ly, x0 + h, hy)
        } else {
            // diagonal segment: bbox-approximate (rare in Manhattan layouts)
            Rect::new(lx - h, ly - h, hx + h, hy + h)
        };
        out.push(r);
        k += 1;
    }
    out
}

// ---- compact trapezoids ------------------------------------------------------------

/// The corner list of CTRAPEZOID type `t` in the box `(w, h)` at `(x, y)` — the SEMI-P39
/// compact set: 0–3 wedges off a full box, 4–7 double wedges, 8–15 the vertical
/// counterparts, 16–19 the four right triangles, 24 a rectangle, 25 a square. The rare
/// 2× forms 20–23 and anything past 25 have none.
pub open spec fn ctrap_corners(t: u64, x: int, y: int, w: int, h: int) -> Option<Seq<(int, int)>> {
    let (x0, y0, x1, y1) = (x, y, x + w, y + h);
    if t == 0 {
        Some(seq![(x0, y0), (x1, y0), (x1 - h, y1), (x0, y1)])
    } else if t == 1 {
        Some(seq![(x0, y0), (x1, y0), (x1, y1), (x0 + h, y1)])
    } else if t == 2 {
        Some(seq![(x0, y0), (x1 - h, y0), (x1, y1), (x0, y1)])
    } else if t == 3 {
        Some(seq![(x0 + h, y0), (x1, y0), (x1, y1), (x0, y1)])
    } else if t == 4 {
        Some(seq![(x0, y0), (x1, y0), (x1 - h, y1), (x0 + h, y1)])
    } else if t == 5 {
        Some(seq![(x0 + h, y0), (x1 - h, y0), (x1, y1), (x0, y1)])
    } else if t == 6 {
        Some(seq![(x0 + h, y0), (x1, y0), (x1 - h, y1), (x0, y1)])
    } else if t == 7 {
        Some(seq![(x0, y0), (x1 - h, y0), (x1, y1), (x0 + h, y1)])
    } else if t == 8 {
        Some(seq![(x0, y0), (x1, y0), (x1, y1 - w), (x0, y1)])
    } else if t == 9 {
        Some(seq![(x0, y0), (x1, y0), (x1, y1), (x0, y1 - w)])
    } else if t == 10 {
        Some(seq![(x0, y0), (x1, y0 + w), (x1, y1), (x0, y1)])
    } else if t == 11 {
        Some(seq![(x0, y0 + w), (x1, y0), (x1, y1), (x0, y1)])
    } else if t == 12 {
        Some(seq![(x0, y0), (x1, y0 + w), (x1, y1 - w), (x0, y1)])
    } else if t == 13 {
        Some(seq![(x0, y0 + w), (x1, y0), (x1, y1), (x0, y1 - w)])
    } else if t == 14 {
        Some(seq![(x0, y0), (x1, y0 + w), (x1, y1), (x0, y1 - w)])
    } else if t == 15 {
        Some(seq![(x0, y0 + w), (x1, y0), (x1, y1 - w), (x0, y1)])
    } else if t == 16 {
        Some(seq![(x0, y0), (x1, y0), (x0, y1)])
    } else if t == 17 {
        Some(seq![(x0, y0), (x1, y0), (x1, y1)])
    } else if t == 18 {
        Some(seq![(x1, y0), (x1, y1), (x0, y1)])
    } else if t == 19 {
        Some(seq![(x0, y0), (x1, y1), (x0, y1)])
    } else if t == 24 || t == 25 {
        Some(seq![(x0, y0), (x1, y0), (x1, y1), (x0, y1)])
    } else {
        None
    }
}

/// A corner list closed (first point repeated unless already last) and narrowed to `i32`.
pub open spec fn closed_ring(v: Seq<(int, int)>) -> Seq<(i32, i32)> {
    let c = if v.len() > 0 && v[0] != v[v.len() - 1] { v.push(v[0]) } else { v };
    c.map_values(|p: (int, int)| (p.0 as i32, p.1 as i32))
}

/// Coordinates small enough that every corner arithmetic fits in `i64`.
pub open spec fn ctrap_in_range(x: i64, y: i64, w: i64, h: i64) -> bool {
    &&& -0x2000_0000_0000_0000 <= x <= 0x2000_0000_0000_0000
    &&& -0x2000_0000_0000_0000 <= y <= 0x2000_0000_0000_0000
    &&& -0x2000_0000_0000_0000 <= w <= 0x2000_0000_0000_0000
    &&& -0x2000_0000_0000_0000 <= h <= 0x2000_0000_0000_0000
}

/// Close a corner list and narrow it to `i32` points.
fn close_ring(v: Vec<(i64, i64)>) -> (out: Vec<(i32, i32)>)
    ensures
        out@ == closed_ring(v@.map_values(|p: (i64, i64)| (p.0 as int, p.1 as int))),
{
    let ghost vi = v@.map_values(|p: (i64, i64)| (p.0 as int, p.1 as int));
    let mut c = v;
    if c.len() > 0 {
        let f = c[0];
        let l = c[c.len() - 1];
        if f.0 != l.0 || f.1 != l.1 {
            c.push(f);
        }
    }
    let ghost ci = c@.map_values(|p: (i64, i64)| (p.0 as int, p.1 as int));
    proof {
        assert(ci =~= if vi.len() > 0 && vi[0] != vi[vi.len() - 1] { vi.push(vi[0]) } else { vi });
    }
    let mut out: Vec<(i32, i32)> = Vec::new();
    let mut k: usize = 0;
    while k < c.len()
        invariant
            k <= c@.len(),
            out@.len() == k,
            forall|j: int| 0 <= j < k ==> #[trigger] out@[j] == (c@[j].0 as i32, c@[j].1 as i32),
        decreases c@.len() - k,
    {
        let p = c[k];
        out.push((p.0 as i32, p.1 as i32));
        k += 1;
    }
    proof {
        assert(out@ =~= closed_ring(vi));
    }
    out
}

/// Expand a CTRAPEZOID type (0..25) at `(x, y)` with box `(w, h)` into a closed polygon;
/// the 2× isosceles-triangle forms (20–23) and types past 25 are refused.
pub fn ctrapezoid_polygon(ctype: u64, x: i64, y: i64, w: i64, h: i64) -> (r: Result<Vec<(i32, i32)>, OasisError>)
    requires
        ctrap_in_range(x, y, w, h),
    ensures
        match r {
            Ok(pts) => ctrap_corners(ctype, x as int, y as int, w as int, h as int) matches Some(v) && pts@ == closed_ring(v),
            Err(_) => ctrap_corners(ctype, x as int, y as int, w as int, h as int) is None,
        },
{
    let (x0, y0, x1, y1) = (x, y, x + w, y + h);
    let (x1h, x0h, y1w, y0w) = (x1 - h, x0 + h, y1 - w, y0 + w);
    let v: Vec<(i64, i64)> = if ctype == 0 {
        vec![(x0, y0), (x1, y0), (x1h, y1), (x0, y1)]
    } else if ctype == 1 {
        vec![(x0, y0), (x1, y0), (x1, y1), (x0h, y1)]
    } else if ctype == 2 {
        vec![(x0, y0), (x1h, y0), (x1, y1), (x0, y1)]
    } else if ctype == 3 {
        vec![(x0h, y0), (x1, y0), (x1, y1), (x0, y1)]
    } else if ctype == 4 {
        vec![(x0, y0), (x1, y0), (x1h, y1), (x0h, y1)]
    } else if ctype == 5 {
        vec![(x0h, y0), (x1h, y0), (x1, y1), (x0, y1)]
    } else if ctype == 6 {
        vec![(x0h, y0), (x1, y0), (x1h, y1), (x0, y1)]
    } else if ctype == 7 {
        vec![(x0, y0), (x1h, y0), (x1, y1), (x0h, y1)]
    } else if ctype == 8 {
        vec![(x0, y0), (x1, y0), (x1, y1w), (x0, y1)]
    } else if ctype == 9 {
        vec![(x0, y0), (x1, y0), (x1, y1), (x0, y1w)]
    } else if ctype == 10 {
        vec![(x0, y0), (x1, y0w), (x1, y1), (x0, y1)]
    } else if ctype == 11 {
        vec![(x0, y0w), (x1, y0), (x1, y1), (x0, y1)]
    } else if ctype == 12 {
        vec![(x0, y0), (x1, y0w), (x1, y1w), (x0, y1)]
    } else if ctype == 13 {
        vec![(x0, y0w), (x1, y0), (x1, y1), (x0, y1w)]
    } else if ctype == 14 {
        vec![(x0, y0), (x1, y0w), (x1, y1), (x0, y1w)]
    } else if ctype == 15 {
        vec![(x0, y0w), (x1, y0), (x1, y1w), (x0, y1)]
    } else if ctype == 16 {
        vec![(x0, y0), (x1, y0), (x0, y1)]
    } else if ctype == 17 {
        vec![(x0, y0), (x1, y0), (x1, y1)]
    } else if ctype == 18 {
        vec![(x1, y0), (x1, y1), (x0, y1)]
    } else if ctype == 19 {
        vec![(x0, y0), (x1, y1), (x0, y1)]
    } else if ctype == 24 || ctype == 25 {
        vec![(x0, y0), (x1, y0), (x1, y1), (x0, y1)]
    } else if 20 <= ctype && ctype <= 23 {
        // the rare 2× isosceles-triangle forms are not validated: refuse rather than
        // emit possibly-wrong geometry
        return Err(oasis_err_num("ctrapezoid type ", ctype, " (2x isoceles triangle) not yet supported \u{2014} please report"));
    } else {
        return Err(oasis_err_num("ctrapezoid type ", ctype, " out of range (0..25)"));
    };
    proof {
        assert(v@.map_values(|p: (i64, i64)| (p.0 as int, p.1 as int)) =~= ctrap_corners(ctype, x as int, y as int, w as int, h as int)->Some_0);
    }
    Ok(close_ring(v))
}

// ---- where readers stop -----------------------------------------------------------

/// A varint ends after its start and within the input.
pub proof fn lemma_read_u_bounds(b: Seq<u8>, i: int)
    ensures
        read_u(b, i) matches Some((_, n)) ==> 0 <= i < n <= b.len(),
{
    lemma_dec_u_bounds(b, i, 0);
    if read_u(b, i) is Some {
        assert(0 <= i < b.len());
    }
}

/// A string ends after its start and within the input.
pub proof fn lemma_read_str_bounds(b: Seq<u8>, i: int)
    ensures
        read_str(b, i) matches Some((_, n)) ==> 0 <= i < n <= b.len(),
{
    lemma_read_u_bounds(b, i);
}

/// A g-delta ends after its start and within the input.
pub proof fn lemma_read_g_bounds(b: Seq<u8>, i: int)
    ensures
        read_g(b, i) matches Some((_, n)) ==> 0 <= i < n <= b.len(),
{
    lemma_read_u_bounds(b, i);
    if let Some((_, n)) = read_u(b, i) {
        lemma_read_u_bounds(b, n);
    }
}

/// A list of varints ends at or after its start and within the input.
pub proof fn lemma_lists_bounds(b: Seq<u8>, i: int, n: nat)
    ensures
        u_list(b, i, n) matches Some((_, e)) ==> i <= e && (n > 0 ==> e <= b.len()),
        s_list(b, i, n) matches Some((_, e)) ==> i <= e && (n > 0 ==> e <= b.len()),
        g_list(b, i, n) matches Some((_, e)) ==> i <= e && (n > 0 ==> e <= b.len()),
    decreases n,
{
    if n > 0 {
        lemma_lists_bounds(b, i, (n - 1) as nat);
        if let Some((_, p)) = u_list(b, i, (n - 1) as nat) {
            lemma_read_u_bounds(b, p);
        }
        if let Some((_, p)) = s_list(b, i, (n - 1) as nat) {
            lemma_read_u_bounds(b, p);
        }
        if let Some((_, p)) = g_list(b, i, (n - 1) as nat) {
            lemma_read_g_bounds(b, p);
        }
    }
}

/// A point list ends after its start and within the input.
pub proof fn lemma_plist_bounds(b: Seq<u8>, i: int, closed: bool)
    ensures
        plist_at(b, i, closed) matches Some((_, n)) ==> 0 <= i < n <= b.len(),
{
    lemma_read_u_bounds(b, i);
    if let Some((_, j)) = read_u(b, i) {
        lemma_read_u_bounds(b, j);
        if let Some((count, k)) = read_u(b, j) {
            lemma_lists_bounds(b, k, count);
        }
    }
}

/// A real ends after its start and within the input.
pub proof fn lemma_real_bounds(b: Seq<u8>, i: int)
    ensures
        read_real_spec(b, i) matches Some((_, n)) ==> 0 <= i < n <= b.len(),
{
    lemma_read_u_bounds(b, i);
    if let Some((t, n)) = read_u(b, i) {
        lemma_read_u_bounds(b, n);
        if let Some((_, n2)) = read_u(b, n) {
            lemma_read_u_bounds(b, n2);
        }
    }
}

/// A LAYERNAME interval ends after its start and within the input.
pub proof fn lemma_interval_bounds(b: Seq<u8>, i: int)
    ensures
        interval_end(b, i) matches Some(n) ==> 0 <= i < n <= b.len(),
{
    lemma_read_u_bounds(b, i);
    if let Some((_, n)) = read_u(b, i) {
        lemma_read_u_bounds(b, n);
        if let Some(m) = u_end(b, n) {
            lemma_read_u_bounds(b, m);
        }
    }
}

/// An explicit name record ends after its start and within the input.
pub proof fn lemma_name_record_bounds(b: Seq<u8>, i: int)
    ensures
        name_record_end(b, i) matches Some(n) ==> 0 <= i < n <= b.len(),
{
    lemma_read_str_bounds(b, i);
    if let Some(n) = str_end(b, i) {
        lemma_read_u_bounds(b, n);
    }
}

/// Property values end at or after their start and within the input.
pub proof fn lemma_values_bounds(b: Seq<u8>, i: int, count: nat)
    requires
        0 <= i <= b.len(),
    ensures
        values_end(b, i, count) matches Some(n) ==> i <= n <= b.len(),
    decreases count,
{
    if count > 0 {
        lemma_values_bounds(b, i, (count - 1) as nat);
        if let Some(p) = values_end(b, i, (count - 1) as nat) {
            lemma_read_u_bounds(b, p);
            if let Some((t, n)) = read_u(b, p) {
                lemma_read_u_bounds(b, n);
                lemma_read_str_bounds(b, n);
                if let Some((_, n2)) = read_u(b, n) {
                    lemma_read_u_bounds(b, n2);
                }
            }
        }
    }
}

/// A property record ends at or after its start and within the input.
pub proof fn lemma_prop_bounds(b: Seq<u8>, i: int, id: u64)
    requires
        0 <= i <= b.len(),
    ensures
        prop_end(b, i, id) matches Some(n) ==> i <= n <= b.len(),
{
    if id != R_PROPERTY_REPEAT && 0 <= i < b.len() {
        lemma_read_u_bounds(b, i + 1);
        lemma_read_str_bounds(b, i + 1);
        let info = b[i];
        let q: int = if (info / 4) % 2 == 1 {
            if (info / 2) % 2 == 1 {
                match u_end(b, i + 1) { Some(q) => q, None => i + 1 }
            } else {
                match str_end(b, i + 1) { Some(q) => q, None => i + 1 }
            }
        } else {
            i + 1
        };
        lemma_read_u_bounds(b, q);
        lemma_values_bounds(b, q, (info / 16) as nat);
        if let Some((count, q2)) = read_u(b, q) {
            lemma_values_bounds(b, q2, count);
        }
    }
}


/// The sum of the x (when `horiz`) or y components of a list of deltas.
pub open spec fn comp_sum(ds: Seq<(int, int)>, horiz: bool) -> int
    decreases ds.len(),
{
    if ds.len() == 0 {
        0
    } else {
        comp_sum(ds.drop_last(), horiz) + if horiz { ds.last().0 } else { ds.last().1 }
    }
}

proof fn lemma_base_sums(ds: Seq<int>, ptype: nat, h: bool, n: int)
    requires
        0 <= n <= ds.len(),
    ensures
        comp_sum(Seq::new(n as nat, |q: int| axis_delta(ds[q], horiz_at(ptype, q))), h) == sum_axis(ds, ptype, h, n),
    decreases n,
{
    if n > 0 {
        lemma_base_sums(ds, ptype, h, n - 1);
        let f = |q: int| axis_delta(ds[q], horiz_at(ptype, q));
        assert(Seq::new(n as nat, f).drop_last() =~= Seq::new((n - 1) as nat, f));
    }
}

/// A Manhattan point list (type 0 or 1) alternates between x and y steps, type 0 starting
/// along x and type 1 along y; closed, it ends with one implied step along the next axis
/// that brings the sum along that axis back to zero.
pub proof fn lemma_manhattan_point_list(b: Seq<u8>, i: int, closed: bool)
    requires
        plist_at(b, i, closed) is Some,
        (read_u(b, i)->0).0 <= 1,
    ensures
        ({
            let ptype = (read_u(b, i)->0).0;
            let count = (read_u(b, (read_u(b, i)->0).1)->0).0;
            let ds = (plist_at(b, i, closed)->0).0;
            &&& ds.len() == if closed { count as int + 1 } else { count as int }
            &&& forall|q: int| 0 <= q < ds.len() ==> if (q % 2 == 0) == (ptype == 0) { (#[trigger] ds[q]).1 == 0 } else { ds[q].0 == 0 }
            &&& closed ==> comp_sum(ds, (count % 2 == 0) == (ptype == 0)) == 0
        }),
{
    let (ptype, j) = read_u(b, i)->0;
    let (count, k) = read_u(b, j)->0;
    let (dv, e) = s_list(b, k, count)->0;
    lemma_s_list_len(b, k, count);
    let f = |q: int| axis_delta(dv[q], horiz_at(ptype, q));
    let base = Seq::new(count, f);
    if closed {
        let h = horiz_at(ptype, count as int);
        let back = -sum_axis(dv, ptype, h, count as int);
        let ds = base.push(axis_delta(back, h));
        assert((plist_at(b, i, closed)->0).0 == ds);
        lemma_base_sums(dv, ptype, h, count as int);
        assert(ds.drop_last() =~= base);
    }
}

proof fn lemma_s_list_len(b: Seq<u8>, i: int, n: nat)
    ensures
        s_list(b, i, n) matches Some((vs, _)) ==> vs.len() == n,
    decreases n,
{
    if n > 0 {
        lemma_s_list_len(b, i, (n - 1) as nat);
    }
}

} // verus!
