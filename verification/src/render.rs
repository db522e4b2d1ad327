//! Pieces of the picture writers that involve no floating point: the calendar year of
//! the clock, text anchors, SVG colour and text escaping, and the PNG container.

use vstd::prelude::*;
use vstd::string::{StrSliceExecFns, StringExecFns};

verus! {

/// 8-bit RGB.
pub type Rgb = (u8, u8, u8);

/// Horizontal placement of text against its anchor point.
#[derive(Debug, Clone, Copy, PartialEq, Eq, Structural)]
pub enum Anchor {
    Start,
    Middle,
    End,
}

impl Default for Anchor {
    fn default() -> (a: Anchor)
        ensures
            a == Anchor::Start,
    {
        Anchor::Start
    }
}

impl Anchor {
    /// The SVG `text-anchor` value.
    pub fn svg(self) -> (s: &'static str)
        ensures
            s@ == match self {
                Anchor::Start => "start"@,
                Anchor::Middle => "middle"@,
                Anchor::End => "end"@,
            },
    {
        match self {
            Anchor::Start => "start",
            Anchor::Middle => "middle",
            Anchor::End => "end",
        }
    }
}

/// The lower-case hexadecimal digit of `n` (below 16).
pub open spec fn hex_digit(n: int) -> char {
    if n < 10 {
        (48 + n) as char
    } else {
        (87 + n) as char
    }
}

/// A byte as two lower-case hexadecimal digits.
pub open spec fn hex2(b: u8) -> Seq<char> {
    seq![hex_digit((b / 16) as int), hex_digit((b % 16) as int)]
}

/// A colour as `#rrggbb`.
pub open spec fn hex_spec(c: Rgb) -> Seq<char> {
    seq!['#'] + hex2(c.0) + hex2(c.1) + hex2(c.2)
}

/// The digit of `n` (below 16) as a one-character string.
fn hex_str(n: u8) -> (d: &'static str)
    requires
        n < 16,
    ensures
        d@ == seq![hex_digit(n as int)],
{
    let digits = "0123456789abcdef";
    proof {
        reveal_strlit("0123456789abcdef");
        assert(digits@[n as int] == hex_digit(n as int));
    }
    let d = digits.substring_char(n as usize, n as usize + 1);
    proof {
        assert(d@ =~= seq![hex_digit(n as int)]);
    }
    d
}

/// A colour as an SVG `#rrggbb` string.
pub fn hex(c: Rgb) -> (s: String)
    ensures
        s@ == hex_spec(c),
{
    proof {
        reveal_strlit("#");
    }
    let mut s = String::from_str("#");
    s.append(hex_str(c.0 / 16));
    s.append(hex_str(c.0 % 16));
    s.append(hex_str(c.1 / 16));
    s.append(hex_str(c.1 % 16));
    s.append(hex_str(c.2 / 16));
    s.append(hex_str(c.2 % 16));
    proof {
        assert(s@ =~= hex_spec(c));
    }
    s
}

/// What one character becomes in SVG text: the five characters that would change the
/// document's structure become entities, any other stays.
pub open spec fn esc_char(c: char) -> Seq<char> {
    if c == '&' {
        "&amp;"@
    } else if c == '<' {
        "&lt;"@
    } else if c == '>' {
        "&gt;"@
    } else if c == '"' {
        "&quot;"@
    } else if c == '\'' {
        "&apos;"@
    } else {
        seq![c]
    }
}

/// Text escaped for SVG.
pub open spec fn esc_spec(s: Seq<char>) -> Seq<char>
    decreases s.len(),
{
    if s.len() == 0 {
        Seq::empty()
    } else {
        esc_spec(s.drop_last()) + esc_char(s.last())
    }
}

/// Escape the five characters that would otherwise change an SVG document's structure.
pub fn esc(s: &str) -> (o: String)
    ensures
        o@ == esc_spec(s@),
{
    let n = s.unicode_len();
    let mut o = String::new();
    let mut i: usize = 0;
    while i < n
        invariant
            i <= n,
            n == s@.len(),
            o@ == esc_spec(s@.take(i as int)),
        decreases n - i,
    {
        let c = s.get_char(i);
        proof {
            assert(s@.take(i + 1).drop_last() =~= s@.take(i as int));
            reveal_strlit("&amp;");
            reveal_strlit("&lt;");
            reveal_strlit("&gt;");
            reveal_strlit("&quot;");
            reveal_strlit("&apos;");
        }
        if c == '&' {
            o.append("&amp;");
        } else if c == '<' {
            o.append("&lt;");
        } else if c == '>' {
            o.append("&gt;");
        } else if c == '"' {
            o.append("&quot;");
        } else if c == '\'' {
            o.append("&apos;");
        } else {
            o.append(s.substring_char(i, i + 1));
            proof {
                assert(s@.subrange(i as int, i + 1) =~= seq![c]);
            }
        }
        i += 1;
    }
    proof {
        assert(s@.take(n as int) =~= s@);
    }
    o
}

/// Leap years of the proleptic Gregorian calendar.
pub open spec fn is_leap(y: int) -> bool {
    (y % 4 == 0 && y % 100 != 0) || y % 400 == 0
}

/// The number of days in year `y`.
pub open spec fn year_len(y: int) -> int {
    if is_leap(y) {
        366
    } else {
        365
    }
}

/// The day number (days since 1970-01-01) of January 1 of year `y`.
pub open spec fn jan1(y: int) -> int
    decreases (if y >= 1970 { y - 1970 } else { 1970 - y }),
{
    if y == 1970 {
        0
    } else if y > 1970 {
        jan1(y - 1) + year_len(y - 1)
    } else {
        jan1(y + 1) - year_len(y)
    }
}

/// Leap days before year `y` (in years `..y`), counted from a fixed origin.
pub open spec fn leaps_before(y: int) -> int {
    (y - 1) / 4 - (y - 1) / 100 + (y - 1) / 400
}

/// Stepping a floor quotient: `y / d` exceeds `(y - 1) / d` exactly when `d` divides `y`.
proof fn lemma_floor_step(y: int, d: int)
    requires
        d > 0,
    ensures
        y / d - (y - 1) / d == if y % d == 0 { 1int } else { 0int },
{
    let q = (y - 1) / d;
    let r = (y - 1) % d;
    vstd::arithmetic::div_mod::lemma_fundamental_div_mod(y - 1, d);
    if r == d - 1 {
        assert(y == (q + 1) * d + 0) by (nonlinear_arith)
            requires
                y - 1 == d * q + r,
                r == d - 1,
        ;
        vstd::arithmetic::div_mod::lemma_fundamental_div_mod_converse(y, d, q + 1, 0);
    } else {
        assert(y == q * d + (r + 1)) by (nonlinear_arith)
            requires
                y - 1 == d * q + r,
        ;
        vstd::arithmetic::div_mod::lemma_fundamental_div_mod_converse(y, d, q, r + 1);
    }
}

/// If `a * k` divides `y`, so does `a`.
proof fn lemma_divides_factor(y: int, a: int, k: int)
    requires
        a > 0,
        k > 0,
        y % (a * k) == 0,
    ensures
        y % a == 0,
{
    assert(a * k > 0) by (nonlinear_arith)
        requires
            a > 0,
            k > 0,
    ;
    vstd::arithmetic::div_mod::lemma_fundamental_div_mod(y, a * k);
    let q = y / (a * k);
    assert(y == a * (k * q)) by (nonlinear_arith)
        requires
            y == (a * k) * q + 0,
    ;
    vstd::arithmetic::div_mod::lemma_fundamental_div_mod_converse(y, a, k * q, 0);
}

proof fn lemma_leaps_step(y: int)
    ensures
        leaps_before(y + 1) - leaps_before(y) == if is_leap(y) { 1int } else { 0int },
{
    lemma_floor_step(y, 4);
    lemma_floor_step(y, 100);
    lemma_floor_step(y, 400);
    if y % 400 == 0 {
        lemma_divides_factor(y, 100, 4);
    }
    if y % 100 == 0 {
        lemma_divides_factor(y, 4, 25);
    }
}

/// January 1 of year `y` in closed form.
proof fn lemma_jan1_closed(y: int)
    ensures
        jan1(y) == 365 * (y - 1970) + leaps_before(y) - 477,
    decreases (if y >= 1970 { y - 1970 } else { 1970 - y }),
{
    if y > 1970 {
        lemma_jan1_closed(y - 1);
        lemma_leaps_step(y - 1);
    } else if y < 1970 {
        lemma_jan1_closed(y + 1);
        lemma_leaps_step(y);
    }
}

/// Within a 400-year era counted from March 1, day `doe` falls in year `yoe`.
#[verifier::rlimit(60)]
proof fn lemma_year_of_era(doe: int)
    requires
        0 <= doe < 146097,
    ensures
        ({
            let yoe = (doe - doe / 1460 + doe / 36524 - doe / 146096) / 365;
            &&& 0 <= yoe < 400
            &&& 365 * yoe + yoe / 4 - yoe / 100 <= doe
            &&& doe < 365 * (yoe + 1) + (yoe + 1) / 4 - (yoe + 1) / 100 + if yoe == 399 { 1int } else { 0int }
        }),
{
    let a = doe / 1460;
    let b = doe / 36524;
    let c = doe / 146096;
    vstd::arithmetic::div_mod::lemma_fundamental_div_mod(doe, 1460);
    vstd::arithmetic::div_mod::lemma_fundamental_div_mod(doe, 36524);
    vstd::arithmetic::div_mod::lemma_fundamental_div_mod(doe, 146096);
    let t = doe - a + b - c;
    let yoe = t / 365;
    vstd::arithmetic::div_mod::lemma_fundamental_div_mod(t, 365);
    vstd::arithmetic::div_mod::lemma_fundamental_div_mod(yoe, 4);
    vstd::arithmetic::div_mod::lemma_fundamental_div_mod(yoe, 100);
    vstd::arithmetic::div_mod::lemma_fundamental_div_mod(yoe + 1, 4);
    vstd::arithmetic::div_mod::lemma_fundamental_div_mod(yoe + 1, 100);
}

/// Consecutive years: each January 1 follows the previous by that year's length.
proof fn lemma_jan1_step(y: int)
    ensures
        jan1(y + 1) == jan1(y) + year_len(y),
{
    lemma_jan1_closed(y);
    lemma_jan1_closed(y + 1);
    lemma_leaps_step(y);
}

/// `n` reduced modulo `d` after adding a multiple of `d`.
proof fn lemma_mod_shift(n: int, d: int, k: int)
    requires
        d > 0,
    ensures
        (d * k + n) % d == n % d,
        (d * k + n) / d == k + n / d,
{
    vstd::arithmetic::div_mod::lemma_fundamental_div_mod(n, d);
    assert(d * k + n == (k + n / d) * d + n % d) by (nonlinear_arith)
        requires
            n == d * (n / d) + n % d,
    ;
    vstd::arithmetic::div_mod::lemma_fundamental_div_mod_converse(d * k + n, d, k + n / d, n % d);
}

/// The calendar (proleptic Gregorian) year holding day number `days` (days since
/// 1970-01-01, counted from 0000-03-01 in 400-year eras, March first).
fn year_of_day(days: i64) -> (y: i64)
    requires
        -0x10_0000_0000_0000 <= days <= 0x10_0000_0000_0000,
    ensures
        jan1(y as int) <= days < jan1(y + 1),
{
    let z: i64 = days + 719_468;
    let era: i64 = match z.checked_div_euclid(146_097) {
        Some(e) => e,
        None => 0,
    };
    let doe: i64 = match z.checked_rem_euclid(146_097) {
        Some(r) => r,
        None => 0,
    };
    proof {
        vstd::arithmetic::div_mod::lemma_fundamental_div_mod(z as int, 146_097);
        lemma_year_of_era(doe as int);
    }
    let d: u64 = doe as u64;
    let yoe: i64 = ((d - d / 1460 + d / 36_524 - d / 146_096) / 365) as i64;
    let doy: i64 = doe - (365 * yoe + yoe / 4 - yoe / 100);
    let mp: i64 = (5 * doy + 2) / 153;
    let y: i64 = yoe + era * 400;
    proof {
        let big_y = y as int;
        let m = 365 * yoe + yoe / 4 - yoe / 100;
        assert(z == 146_097 * era + doe);
        assert(0 <= doy <= 365);
        assert(mp >= 10 <==> doy >= 306);
        lemma_jan1_closed(big_y + 1);
        lemma_mod_shift(yoe as int, 4, 100 * era);
        lemma_mod_shift(yoe as int, 100, 4 * era);
        lemma_mod_shift(yoe as int, 400, era as int);
        assert(400 * era + yoe == 4 * (100 * era) + yoe);
        assert(400 * era + yoe == 100 * (4 * era) + yoe);
        assert(leaps_before(big_y + 1) == 97 * era + yoe / 4 - yoe / 100);
        assert(jan1(big_y + 1) == 146_097 * era + m - 719_162);
        lemma_jan1_step(big_y);
        lemma_jan1_step(big_y + 1);
        lemma_mod_shift(yoe + 1, 4, 100 * era);
        lemma_mod_shift(yoe + 1, 100, 4 * era);
        lemma_mod_shift(yoe + 1, 400, era as int);
        vstd::arithmetic::div_mod::lemma_fundamental_div_mod(yoe as int, 4);
        vstd::arithmetic::div_mod::lemma_fundamental_div_mod(yoe as int, 100);
        vstd::arithmetic::div_mod::lemma_fundamental_div_mod(yoe + 1, 4);
        vstd::arithmetic::div_mod::lemma_fundamental_div_mod(yoe + 1, 100);
        vstd::arithmetic::div_mod::lemma_fundamental_div_mod(yoe + 1, 400);
        assert(doy < year_len(big_y + 1));
    }
    if mp >= 10 {
        y + 1
    } else {
        y
    }
}

/// The calendar (proleptic Gregorian, UTC) year of a time in seconds since the Unix
/// epoch.
pub fn year_of(secs: i64) -> (y: i64)
    ensures
        jan1(y as int) <= secs / 86_400 < jan1(y + 1),
{
    let days: i64 = match secs.checked_div_euclid(86_400) {
        Some(d) => d,
        None => 0,
    };
    year_of_day(days)
}

// ---- PNG container -------------------------------------------------------------------

/// One bit step of the reflected CRC-32 register (polynomial 0xEDB88320).
pub open spec fn crc_bit(c: u32) -> u32 {
    if c & 1 != 0 {
        0xEDB8_8320u32 ^ (c >> 1u32)
    } else {
        c >> 1u32
    }
}

/// `k` bit steps of the register.
pub open spec fn crc_steps(c: u32, k: nat) -> u32
    decreases k,
{
    if k == 0 {
        c
    } else {
        crc_bit(crc_steps(c, (k - 1) as nat))
    }
}

/// The register after all of `data`, starting from all ones.
pub open spec fn crc_reg(data: Seq<u8>) -> u32
    decreases data.len(),
{
    if data.len() == 0 {
        0xFFFF_FFFFu32
    } else {
        crc_steps(crc_reg(data.drop_last()) ^ (data.last() as u32), 8)
    }
}

/// The CRC-32 (as PNG and zlib use it) of `data`.
pub open spec fn crc32_spec(data: Seq<u8>) -> u32 {
    crc_reg(data) ^ 0xFFFF_FFFFu32
}

/// Eight steps of the register, written out.
pub open spec fn crc8(x: u32) -> u32 {
    crc_bit(crc_bit(crc_bit(crc_bit(crc_bit(crc_bit(crc_bit(crc_bit(x))))))))
}

proof fn lemma_crc8_unrolled(x: u32)
    ensures
        crc_steps(x, 8) == crc8(x),
{
    reveal_with_fuel(crc_steps, 9);
}

/// Eight steps act on the low byte alone, the rest shifting through: the identity behind
/// the table-driven update.
proof fn lemma_crc8_split(x: u32)
    ensures
        crc8(x) == crc8(x & 0xFFu32) ^ (x >> 8u32),
{
    assert(crc8(x) == crc8(x & 0xFFu32) ^ (x >> 8u32)) by (bit_vector);
}

/// The CRC-32 of `data`, table driven.
pub fn crc32(data: &[u8]) -> (c: u32)
    ensures
        c == crc32_spec(data@),
{
    let mut table: Vec<u32> = Vec::new();
    let mut i: u32 = 0;
    while i < 256
        invariant
            i <= 256,
            table@.len() == i,
            forall|j: int| 0 <= j < i ==> #[trigger] table@[j] == crc8(j as u32),
        decreases 256 - i,
    {
        let mut c: u32 = i;
        let mut k: u32 = 0;
        while k < 8
            invariant
                k <= 8,
                c == crc_steps(i, k as nat),
            decreases 8 - k,
        {
            c = if c & 1 != 0 { 0xEDB8_8320u32 ^ (c >> 1u32) } else { c >> 1u32 };
            k += 1;
        }
        proof {
            lemma_crc8_unrolled(i);
        }
        table.push(c);
        i += 1;
    }
    let mut c: u32 = 0xFFFF_FFFF;
    let mut n: usize = 0;
    while n < data.len()
        invariant
            n <= data@.len(),
            table@.len() == 256,
            forall|j: int| 0 <= j < 256 ==> #[trigger] table@[j] == crc8(j as u32),
            c == crc_reg(data@.take(n as int)),
        decreases data@.len() - n,
    {
        let b: u32 = data[n] as u32;
        let x: u32 = c ^ b;
        let idx: u32 = x & 0xFF;
        proof {
            let c0 = c;
            assert(b < 256 ==> (c0 ^ b) >> 8u32 == c0 >> 8u32) by (bit_vector);
            assert(x & 0xFFu32 < 256) by (bit_vector);
            lemma_crc8_split(x);
            lemma_crc8_unrolled(x);
            assert(data@.take(n + 1).drop_last() =~= data@.take(n as int));
            assert(table@[idx as int] == crc8(idx));
        }
        c = table[idx as usize] ^ (c >> 8u32);
        n += 1;
    }
    proof {
        assert(data@.take(data@.len() as int) =~= data@);
    }
    c ^ 0xFFFF_FFFF
}

/// A 32-bit value as four big-endian bytes.
pub open spec fn be32(v: u32) -> Seq<u8> {
    seq![(v / 0x100_0000) as u8, ((v / 0x1_0000) % 256) as u8, ((v / 256) % 256) as u8, (v % 256) as u8]
}

fn push_be32(out: &mut Vec<u8>, v: u32)
    ensures
        final(out)@ == old(out)@ + be32(v),
{
    out.push((v / 0x100_0000) as u8);
    out.push(((v / 0x1_0000) % 256) as u8);
    out.push(((v / 256) % 256) as u8);
    out.push((v % 256) as u8);
    proof {
        assert(final(out)@ =~= old(out)@ + be32(v));
    }
}

fn push_all(out: &mut Vec<u8>, data: &[u8])
    ensures
        final(out)@ == old(out)@ + data@,
{
    let ghost o0 = out@;
    let mut k: usize = 0;
    while k < data.len()
        invariant
            k <= data@.len(),
            out@ == o0 + data@.take(k as int),
        decreases data@.len() - k,
    {
        out.push(data[k]);
        k += 1;
        proof {
            assert(out@ =~= o0 + data@.take(k as int));
        }
    }
    proof {
        assert(data@.take(data@.len() as int) =~= data@);
    }
}

/// A PNG chunk: the data's length (in 32 bits), the type, the data, and the CRC-32 of type
/// and data.
pub open spec fn chunk_spec(typ: Seq<u8>, data: Seq<u8>) -> Seq<u8> {
    be32(data.len() as u32) + typ + data + be32(crc32_spec(typ + data))
}

/// Append a PNG chunk.
pub fn chunk(out: &mut Vec<u8>, typ: &[u8; 4], data: &[u8])
    ensures
        final(out)@ == old(out)@ + chunk_spec(typ@, data@),
{
    let ghost o0 = out@;
    push_be32(out, data.len() as u32);
    push_all(out, typ.as_slice());
    push_all(out, data);
    let mut crc_in: Vec<u8> = Vec::new();
    push_all(&mut crc_in, typ.as_slice());
    push_all(&mut crc_in, data);
    let c = crc32(crc_in.as_slice());
    push_be32(out, c);
    proof {
        assert(crc_in@ =~= typ@ + data@);
        assert(out@ =~= o0 + chunk_spec(typ@, data@));
    }
}

/// What zlib-wrapped DEFLATE compression at `level` gives for `data`.
pub uninterp spec fn zlib_deflate(data: Seq<u8>, level: u8) -> Seq<u8>;

/// Compresses through `miniz_oxide::deflate::compress_to_vec_zlib`; its output, a
/// deterministic function of the input and the level, is named [`zlib_deflate`].
#[verifier::external_body]
fn compress_zlib(data: &[u8], level: u8) -> (z: Vec<u8>)
    ensures
        z@ == zlib_deflate(data@, level),
{
    miniz_oxide::deflate::compress_to_vec_zlib(data, level)
}

/// The scanlines of an RGB image `w` pixels wide, each prefixed by filter type 0.
pub open spec fn scanlines(px: Seq<u8>, w: int, h: int) -> Seq<u8>
    decreases h,
{
    if h <= 0 {
        Seq::empty()
    } else {
        scanlines(px, w, h - 1) + seq![0u8] + px.subrange((h - 1) * w * 3, h * w * 3)
    }
}

/// The PNG signature.
pub open spec fn png_magic() -> Seq<u8> {
    seq![0x89u8, 0x50, 0x4E, 0x47, 0x0D, 0x0A, 0x1A, 0x0A]
}

/// The PNG file of an 8-bit RGB image: signature, header, compressed scanlines, end.
pub open spec fn png_spec(px: Seq<u8>, w: u32, h: u32) -> Seq<u8> {
    png_magic() + chunk_spec(seq![0x49u8, 0x48, 0x44, 0x52], be32(w) + be32(h) + seq![8u8, 2, 0, 0, 0]) + chunk_spec(
        seq![0x49u8, 0x44, 0x41, 0x54],
        zlib_deflate(scanlines(px, w as int, h as int), 6),
    ) + chunk_spec(seq![0x49u8, 0x45, 0x4E, 0x44], Seq::empty())
}

/// Encode an 8-bit RGB image (`w` by `h`, rows top down) as a PNG file.
pub fn encode(px: &[u8], w: u32, h: u32) -> (out: Vec<u8>)
    requires
        3 * w * h <= px@.len(),
    ensures
        out@ == png_spec(px@, w, h),
{
    let mut raw: Vec<u8> = Vec::new();
    let mut row: u32 = 0;
    let plen = px.len();
    while row < h
        invariant
            plen == px@.len(),
            row <= h,
            3 * w * h <= px@.len(),
            raw@ == scanlines(px@, w as int, row as int),
        decreases h - row,
    {
        proof {
            assert(3 * w * (row + 1) <= 3 * w * h) by (nonlinear_arith)
                requires
                    row < h,
            ;
            assert(row * w * 3 + w * 3 == (row + 1) * w * 3) by (nonlinear_arith);
            assert(3 * w * (row + 1) == (row + 1) * w * 3) by (nonlinear_arith);
            assert(row * w <= row * w * 3 && w * 3 <= (row + 1) * w * 3) by (nonlinear_arith);
            assert((row + 1) * w * 3 <= px@.len());
        }
        let s: usize = (row as usize) * (w as usize) * 3;
        let e: usize = s + (w as usize) * 3;
        raw.push(0);
        let mut k: usize = s;
        let ghost r0 = raw@;
        while k < e
            invariant
                s <= k <= e,
                e <= px@.len(),
                raw@ == r0 + px@.subrange(s as int, k as int),
            decreases e - k,
        {
            raw.push(px[k]);
            k += 1;
            proof {
                assert(raw@ =~= r0 + px@.subrange(s as int, k as int));
            }
        }
        proof {
            assert(raw@ =~= scanlines(px@, w as int, row + 1));
        }
        row += 1;
    }
    let z = compress_zlib(raw.as_slice(), 6);
    let mut out: Vec<u8> = Vec::new();
    out.push(0x89);
    out.push(0x50);
    out.push(0x4E);
    out.push(0x47);
    out.push(0x0D);
    out.push(0x0A);
    out.push(0x1A);
    out.push(0x0A);
    let mut ihdr: Vec<u8> = Vec::new();
    push_be32(&mut ihdr, w);
    push_be32(&mut ihdr, h);
    ihdr.push(8);
    ihdr.push(2);
    ihdr.push(0);
    ihdr.push(0);
    ihdr.push(0);
    let ghost o1 = out@;
    chunk(&mut out, &[0x49, 0x48, 0x44, 0x52], ihdr.as_slice());
    chunk(&mut out, &[0x49, 0x44, 0x41, 0x54], z.as_slice());
    let empty: Vec<u8> = Vec::new();
    chunk(&mut out, &[0x49, 0x45, 0x4E, 0x44], empty.as_slice());
    proof {
        assert(o1 =~= png_magic());
        assert(ihdr@ =~= be32(w) + be32(h) + seq![8u8, 2, 0, 0, 0]);
        assert(empty@ =~= Seq::<u8>::empty());
        assert(out@ =~= png_spec(px@, w, h));
    }
    out
}

} // verus!
