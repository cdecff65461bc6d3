//! Little-endian integers in byte sequences.
//!
//! Everything that decodes reads against a length-checked slice, and everything that
//! encodes appends to a growing one. The two sides meet in the `at` functions, which say
//! what number a run of bytes stands for, and the `le` functions, which say which bytes
//! stand for a number. Both work on mathematical integers: a negative number is stored in
//! two's complement, which Euclidean division by powers of 256 gives directly.

use vstd::prelude::*;

use crate::error::{Error, Words};

verus! {

/// The unsigned 16-bit number at `o`.
#[verifier::opaque]
pub open spec fn u16_at(s: Seq<u8>, o: int) -> int {
    s[o] + 0x100 * s[o + 1]
}

/// The unsigned 32-bit number at `o`.
pub open spec fn u32_at(s: Seq<u8>, o: int) -> int {
    u16_at(s, o) + 0x1_0000 * u16_at(s, o + 2)
}

/// The unsigned 64-bit number at `o`.
pub open spec fn u64_at(s: Seq<u8>, o: int) -> int {
    u32_at(s, o) + 0x1_0000_0000 * u32_at(s, o + 4)
}

/// The signed 32-bit number at `o`.
pub open spec fn i32_at(s: Seq<u8>, o: int) -> int {
    let u = u32_at(s, o);
    if u < 0x8000_0000 {
        u
    } else {
        u - 0x1_0000_0000
    }
}

/// A 64-bit pattern read as a signed number.
pub open spec fn as_signed(u: int) -> int {
    if u < 0x8000_0000_0000_0000 {
        u
    } else {
        u - 0x1_0000_0000_0000_0000
    }
}

/// The signed 64-bit number at `o`.
pub open spec fn i64_at(s: Seq<u8>, o: int) -> int {
    as_signed(u64_at(s, o))
}

/// The two bytes that store `v`.
#[verifier::opaque]
pub open spec fn le2(v: int) -> Seq<u8> {
    seq![(v % 0x100) as u8, (v / 0x100 % 0x100) as u8]
}

/// The four bytes that store `v`.
pub open spec fn le4(v: int) -> Seq<u8> {
    le2(v) + le2(v / 0x1_0000)
}

/// The eight bytes that store `v`.
pub open spec fn le8(v: int) -> Seq<u8> {
    le4(v) + le4(v / 0x1_0000_0000)
}

/// Two bytes hold a 16-bit number.
pub broadcast proof fn lemma_u16_bounds(s: Seq<u8>, o: int)
    ensures
        0 <= #[trigger] u16_at(s, o) < 0x1_0000,
{
    reveal(u16_at);
}

/// Four bytes hold a 32-bit number.
pub broadcast proof fn lemma_u32_bounds(s: Seq<u8>, o: int)
    ensures
        0 <= #[trigger] u32_at(s, o) < 0x1_0000_0000,
{
    lemma_u16_bounds(s, o);
    lemma_u16_bounds(s, o + 2);
}

/// Eight bytes hold a 64-bit number.
pub broadcast proof fn lemma_u64_bounds(s: Seq<u8>, o: int)
    ensures
        0 <= #[trigger] u64_at(s, o) < 0x1_0000_0000_0000_0000,
{
    lemma_u32_bounds(s, o);
    lemma_u32_bounds(s, o + 4);
}

/// Encoded widths.
pub broadcast proof fn lemma_le2_len(v: int)
    ensures
        (#[trigger] le2(v)).len() == 2,
{
    reveal(le2);
}

/// Encoded widths.
pub broadcast proof fn lemma_le4_len(v: int)
    ensures
        (#[trigger] le4(v)).len() == 4,
{
    reveal(le2);
}

/// Encoded widths.
pub broadcast proof fn lemma_le8_len(v: int)
    ensures
        (#[trigger] le8(v)).len() == 8,
{
    reveal(le2);
}

pub broadcast group group_bytes {
    lemma_u16_bounds,
    lemma_u32_bounds,
    lemma_u64_bounds,
    lemma_le2_len,
    lemma_le4_len,
    lemma_le8_len,
}

/// Numbers are stored with the byte that counts least first, and a signed one is the unsigned one
/// or that less than all there are.
pub proof fn lemma_numbers(s: Seq<u8>, o: int)
    ensures
        u16_at(s, o) == s[o] + 0x100 * s[o + 1],
        u32_at(s, o) == s[o] + 0x100 * s[o + 1] + 0x1_0000 * s[o + 2] + 0x100_0000 * s[o + 3],
        u64_at(s, o) == s[o] + 0x100 * s[o + 1] + 0x1_0000 * s[o + 2] + 0x100_0000 * s[o + 3]
            + 0x1_0000_0000 * s[o + 4] + 0x100_0000_0000 * s[o + 5] + 0x1_0000_0000_0000 * s[o + 6]
            + 0x100_0000_0000_0000 * s[o + 7],
        i32_at(s, o) == u32_at(s, o) || i32_at(s, o) == u32_at(s, o) - 0x1_0000_0000,
        -0x8000_0000 <= i32_at(s, o) < 0x8000_0000,
        i64_at(s, o) == u64_at(s, o) || i64_at(s, o) == u64_at(s, o) - 0x1_0000_0000_0000_0000,
        -0x8000_0000_0000_0000 <= i64_at(s, o) < 0x8000_0000_0000_0000,
{
    reveal(u16_at);
}

/// The bytes of a number are those that it is read from.
pub proof fn lemma_stored(v: int)
    ensures
        0 <= v < 0x1_0000 ==> le2(v).len() == 2 && u16_at(le2(v), 0) == v,
        0 <= v < 0x1_0000_0000 ==> le4(v).len() == 4 && u32_at(le4(v), 0) == v,
        0 <= v < 0x1_0000_0000_0000_0000 ==> le8(v).len() == 8 && u64_at(le8(v), 0) == v,
        -0x8000_0000 <= v < 0x8000_0000 ==> i32_at(le4(v), 0) == v,
        -0x8000_0000_0000_0000 <= v < 0x8000_0000_0000_0000 ==> i64_at(le8(v), 0) == v,
{
    let (a, b, c) = (le2(v), le4(v), le8(v));
    lemma_le2_len(v);
    lemma_le4_len(v);
    lemma_le8_len(v);
    assert(a.subrange(0, 2) =~= a);
    assert(b.subrange(0, 4) =~= b);
    assert(c.subrange(0, 8) =~= c);
    lemma_u16_read_back(a, 0, v);
    lemma_u32_read_back(b, 0, v);
    lemma_u64_read_back(c, 0, v);
}

/// What was written as two bytes reads back modulo 2^16.
pub proof fn lemma_u16_read_back(s: Seq<u8>, o: int, v: int)
    requires
        0 <= o,
        o + 2 <= s.len(),
        s.subrange(o, o + 2) == le2(v),
    ensures
        u16_at(s, o) == v % 0x1_0000,
{
    reveal(u16_at);
    reveal(le2);
    let t = s.subrange(o, o + 2);
    assert(t[0] == s[o] && t[1] == s[o + 1]);
}

/// What was written as four bytes reads back modulo 2^32, and as itself when it is a
/// signed 32-bit number.
pub proof fn lemma_u32_read_back(s: Seq<u8>, o: int, v: int)
    requires
        0 <= o,
        o + 4 <= s.len(),
        s.subrange(o, o + 4) == le4(v),
    ensures
        u32_at(s, o) == v % 0x1_0000_0000,
        -0x8000_0000 <= v < 0x8000_0000 ==> i32_at(s, o) == v,
{
    broadcast use group_bytes;

    let t = s.subrange(o, o + 4);
    assert(s.subrange(o, o + 2) =~= t.subrange(0, 2));
    assert(s.subrange(o + 2, o + 4) =~= t.subrange(2, 4));
    assert(le4(v).subrange(0, 2) =~= le2(v));
    assert(le4(v).subrange(2, 4) =~= le2(v / 0x1_0000));
    lemma_u16_read_back(s, o, v);
    lemma_u16_read_back(s, o + 2, v / 0x1_0000);
}

/// What was written as eight bytes reads back modulo 2^64, and as itself when it is a
/// signed 64-bit number.
pub proof fn lemma_u64_read_back(s: Seq<u8>, o: int, v: int)
    requires
        0 <= o,
        o + 8 <= s.len(),
        s.subrange(o, o + 8) == le8(v),
    ensures
        u64_at(s, o) == v % 0x1_0000_0000_0000_0000,
        -0x8000_0000_0000_0000 <= v < 0x8000_0000_0000_0000 ==> i64_at(s, o) == v,
{
    broadcast use group_bytes;

    let t = s.subrange(o, o + 8);
    assert(s.subrange(o, o + 4) =~= t.subrange(0, 4));
    assert(s.subrange(o + 4, o + 8) =~= t.subrange(4, 8));
    assert(le8(v).subrange(0, 4) =~= le4(v));
    assert(le8(v).subrange(4, 8) =~= le4(v / 0x1_0000_0000));
    lemma_u32_read_back(s, o, v);
    lemma_u32_read_back(s, o + 4, v / 0x1_0000_0000);
}

/// Two bytes hold no more than the number modulo 2^16.
pub proof fn lemma_le2_wraps(v: int, w: int)
    requires
        v % 0x1_0000 == w % 0x1_0000,
    ensures
        le2(v) == le2(w),
{
    let (p, q, r) = (v / 0x1_0000, w / 0x1_0000, v % 0x1_0000);
    let (x, y) = (r / 0x100, r % 0x100);
    assert(v == 0x1_0000 * p + r && w == 0x1_0000 * q + r);
    lemma_two_bytes(v, p, x, y);
    lemma_two_bytes(w, q, x, y);
}

/// The two lowest bytes of a number.
proof fn lemma_two_bytes(v: int, p: int, x: int, y: int)
    requires
        v == 0x1_0000 * p + 0x100 * x + y,
        0 <= x < 0x100,
        0 <= y < 0x100,
    ensures
        le2(v) == seq![y as u8, x as u8],
{
    reveal(le2);
    let h = 0x100 * p + x;
    assert(v == 0x100 * h + y);
    assert(v / 0x100 == h && v % 0x100 == y);
    assert(h % 0x100 == x);
}

/// The halves of a number modulo 2^32.
proof fn lemma_halves(v: int)
    ensures
        v % 0x1_0000 == (v % 0x1_0000_0000) % 0x1_0000,
        v / 0x1_0000 % 0x1_0000 == (v % 0x1_0000_0000) / 0x1_0000,
{
    let q = v / 0x1_0000_0000;
    let r = v % 0x1_0000_0000;
    let a = r / 0x1_0000;
    let b = r % 0x1_0000;
    let c = 0x1_0000 * q + a;
    assert(v == 0x1_0000 * c + b);
    assert(v / 0x1_0000 == c && v % 0x1_0000 == b);
    assert(0 <= a < 0x1_0000);
    assert(c % 0x1_0000 == a);
}

/// Four bytes hold no more than the number modulo 2^32.
pub proof fn lemma_le4_wraps(v: int, w: int)
    requires
        v % 0x1_0000_0000 == w % 0x1_0000_0000,
    ensures
        le4(v) == le4(w),
{
    lemma_halves(v);
    lemma_halves(w);
    lemma_le2_wraps(v, w);
    lemma_le2_wraps(v / 0x1_0000, w / 0x1_0000);
}

/// Eight bytes hold no more than the number modulo 2^64.
pub proof fn lemma_le8_wraps(v: int)
    ensures
        le8(v + 0x1_0000_0000_0000_0000) == le8(v),
{
    let w = v + 0x1_0000_0000_0000_0000;
    let (q, r) = (v / 0x1_0000_0000, v % 0x1_0000_0000);
    let p = q + 0x1_0000_0000;
    assert(w == 0x1_0000_0000 * p + r);
    assert(w / 0x1_0000_0000 == p && w % 0x1_0000_0000 == r) by {
        vstd::arithmetic::div_mod::lemma_fundamental_div_mod_converse(w, 0x1_0000_0000, p, r);
    }
    lemma_le4_wraps(v, w);
    assert(p % 0x1_0000_0000 == q % 0x1_0000_0000) by {
        vstd::arithmetic::div_mod::lemma_mod_add_multiples_vanish(q, 0x1_0000_0000);
    }
    lemma_le4_wraps(q, p);
}

/// A number is the same at the same bytes, wherever they stand.
pub proof fn lemma_u16_moved(s: Seq<u8>, o: int, t: Seq<u8>, p: int)
    requires
        0 <= o,
        o + 2 <= s.len(),
        0 <= p,
        p + 2 <= t.len(),
        s.subrange(o, o + 2) == t.subrange(p, p + 2),
    ensures
        u16_at(s, o) == u16_at(t, p),
{
    reveal(u16_at);
    let a = s.subrange(o, o + 2);
    let b = t.subrange(p, p + 2);
    assert(a[0] == b[0] && a[1] == b[1]);
}

/// A number is the same at the same bytes, wherever they stand.
pub proof fn lemma_u32_moved(s: Seq<u8>, o: int, t: Seq<u8>, p: int)
    requires
        0 <= o,
        o + 4 <= s.len(),
        0 <= p,
        p + 4 <= t.len(),
        s.subrange(o, o + 4) == t.subrange(p, p + 4),
    ensures
        u32_at(s, o) == u32_at(t, p),
{
    let a = s.subrange(o, o + 4);
    assert(s.subrange(o, o + 2) =~= a.subrange(0, 2));
    assert(t.subrange(p, p + 2) =~= a.subrange(0, 2));
    assert(s.subrange(o + 2, o + 4) =~= a.subrange(2, 4));
    assert(t.subrange(p + 2, p + 4) =~= a.subrange(2, 4));
    lemma_u16_moved(s, o, t, p);
    lemma_u16_moved(s, o + 2, t, p + 2);
}

/// The two bytes that store the number read from them.
proof fn lemma_u16_bytes(s: Seq<u8>, o: int)
    requires
        0 <= o,
        o + 2 <= s.len(),
    ensures
        s.subrange(o, o + 2) == le2(u16_at(s, o)),
{
    reveal(u16_at);
    reveal(le2);
    let (a, b) = (s[o] as int, s[o + 1] as int);
    let v = a + 0x100 * b;
    assert(v % 0x100 == a && v / 0x100 == b);
    assert(b % 0x100 == b);
    assert(s.subrange(o, o + 2) =~= le2(v));
}

/// The four bytes that store the number read from them.
pub proof fn lemma_u32_bytes(s: Seq<u8>, o: int)
    requires
        0 <= o,
        o + 4 <= s.len(),
    ensures
        s.subrange(o, o + 4) == le4(u32_at(s, o)),
{
    let (a, b) = (u16_at(s, o), u16_at(s, o + 2));
    let v = u32_at(s, o);
    lemma_u16_bounds(s, o);
    lemma_u16_bounds(s, o + 2);
    lemma_u16_bytes(s, o);
    lemma_u16_bytes(s, o + 2);
    assert(v % 0x1_0000 == a && v / 0x1_0000 == b);
    lemma_le2_wraps(v, a);
    assert(s.subrange(o, o + 4) =~= s.subrange(o, o + 2) + s.subrange(o + 2, o + 4));
}

/// A number is the same at the same bytes, wherever they stand.
pub proof fn lemma_u64_moved(s: Seq<u8>, o: int, t: Seq<u8>, p: int)
    requires
        0 <= o,
        o + 8 <= s.len(),
        0 <= p,
        p + 8 <= t.len(),
        s.subrange(o, o + 8) == t.subrange(p, p + 8),
    ensures
        u64_at(s, o) == u64_at(t, p),
{
    let a = s.subrange(o, o + 8);
    assert(s.subrange(o, o + 4) =~= a.subrange(0, 4));
    assert(t.subrange(p, p + 4) =~= a.subrange(0, 4));
    assert(s.subrange(o + 4, o + 8) =~= a.subrange(4, 8));
    assert(t.subrange(p + 4, p + 8) =~= a.subrange(4, 8));
    lemma_u32_moved(s, o, t, p);
    lemma_u32_moved(s, o + 4, t, p + 4);
}

/// Reads a `u8` at `offset`, or reports corruption.
pub fn read_u8(buf: &[u8], offset: usize) -> (r: Result<u8, Error>)
    ensures
        match r {
            Ok(v) => offset < buf@.len() && v == buf@[offset as int],
            Err(e) => offset >= buf@.len() && e.is_corrupt() && e.location().offset == Some(
                offset as u64,
            ),
        },
{
    if offset < buf.len() {
        Ok(buf[offset])
    } else {
        Err(Error::corrupt("truncated read (u8)").at_offset(offset as u64))
    }
}

/// Whether `len` bytes starting at `offset` are inside a buffer of `total`.
fn span_fits(offset: usize, len: usize, total: usize) -> (r: bool)
    ensures
        r == (offset + len <= total),
{
    offset <= total && len <= total - offset
}

/// Reads a little-endian `u16` at `offset`, or reports corruption.
pub fn read_u16(buf: &[u8], offset: usize) -> (r: Result<u16, Error>)
    ensures
        match r {
            Ok(v) => offset + 2 <= buf@.len() && v == u16_at(buf@, offset as int),
            Err(e) => offset + 2 > buf@.len() && e.is_corrupt() && e.location().offset == Some(
                offset as u64,
            ),
        },
{
    reveal(u16_at);
    if !span_fits(offset, 2, buf.len()) {
        return Err(Error::corrupt("truncated read (u16)").at_offset(offset as u64));
    }
    Ok(buf[offset] as u16 + 0x100 * buf[offset + 1] as u16)
}

/// Reads a little-endian `u32` at `offset`, or reports corruption.
pub fn read_u32(buf: &[u8], offset: usize) -> (r: Result<u32, Error>)
    ensures
        match r {
            Ok(v) => offset + 4 <= buf@.len() && v == u32_at(buf@, offset as int),
            Err(e) => offset + 4 > buf@.len() && e.is_corrupt() && e.location().offset == Some(
                offset as u64,
            ),
        },
{
    if !span_fits(offset, 4, buf.len()) {
        return Err(Error::corrupt("truncated read (i32)").at_offset(offset as u64));
    }
    match (read_u16(buf, offset), read_u16(buf, offset + 2)) {
        (Ok(low), Ok(high)) => Ok(low as u32 + 0x1_0000 * high as u32),
        (_, _) => Err(Error::corrupt("truncated read (i32)").at_offset(offset as u64)),
    }
}

/// Reads a little-endian `i32` at `offset`, or reports corruption.
pub fn read_i32(buf: &[u8], offset: usize) -> (r: Result<i32, Error>)
    ensures
        match r {
            Ok(v) => offset + 4 <= buf@.len() && v == i32_at(buf@, offset as int),
            Err(e) => offset + 4 > buf@.len() && e.is_corrupt() && e.location().offset == Some(
                offset as u64,
            ),
        },
{
    let u = match read_u32(buf, offset) {
        Ok(u) => u,
        Err(e) => return Err(e),
    };
    if u < 0x8000_0000 {
        Ok(u as i32)
    } else {
        Ok((u as i64 - 0x1_0000_0000) as i32)
    }
}

/// Reads a little-endian `u64` at `offset`, or reports corruption.
pub fn read_u64(buf: &[u8], offset: usize) -> (r: Result<u64, Error>)
    ensures
        match r {
            Ok(v) => offset + 8 <= buf@.len() && v == u64_at(buf@, offset as int),
            Err(e) => offset + 8 > buf@.len() && e.is_corrupt() && e.location().offset == Some(
                offset as u64,
            ),
        },
{
    if !span_fits(offset, 8, buf.len()) {
        return Err(Error::corrupt("truncated read (u64)").at_offset(offset as u64));
    }
    match (read_u32(buf, offset), read_u32(buf, offset + 4)) {
        (Ok(low), Ok(high)) => Ok(low as u64 + 0x1_0000_0000 * high as u64),
        (_, _) => Err(Error::corrupt("truncated read (u64)").at_offset(offset as u64)),
    }
}

/// The signed number with the bit pattern of `u`.
pub fn to_signed(u: u64) -> (r: i64)
    ensures
        r == as_signed(u as int),
{
    if u < 0x8000_0000_0000_0000 {
        u as i64
    } else {
        (u as i128 - 0x1_0000_0000_0000_0000) as i64
    }
}

/// Reads a little-endian `i64` at `offset`, or reports corruption.
pub fn read_i64(buf: &[u8], offset: usize) -> (r: Result<i64, Error>)
    ensures
        match r {
            Ok(v) => offset + 8 <= buf@.len() && v == i64_at(buf@, offset as int),
            Err(e) => offset + 8 > buf@.len() && e.is_corrupt() && e.location().offset == Some(
                offset as u64,
            ),
        },
{
    match read_u64(buf, offset) {
        Ok(u) => Ok(to_signed(u)),
        Err(e) => Err(e),
    }
}

/// Reads a length-checked sub-slice.
pub fn read_slice(buf: &[u8], offset: usize, len: usize) -> (r: Result<&[u8], Error>)
    ensures
        match r {
            Ok(v) => offset + len <= buf@.len() && v@ == buf@.subrange(
                offset as int,
                offset + len,
            ),
            Err(e) => offset + len > buf@.len() && e.is_corrupt() && e.location().offset == Some(
                offset as u64,
            ),
        },
{
    if !span_fits(offset, len, buf.len()) {
        return Err(Error::corrupt("slice out of page bounds").at_offset(offset as u64));
    }
    Ok(vstd::slice::slice_subrange(buf, offset, offset + len))
}

/// Converts an on-disk `i32` count or length to `usize`, rejecting negatives.
pub fn checked_len(value: i32, what: &str) -> (r: Result<usize, Error>)
    ensures
        match r {
            Ok(v) => value >= 0 && v == value,
            Err(e) => value < 0 && e.is_corrupt(),
        },
{
    if value < 0 {
        return Err(Error::corrupt_words(Words::new(what).say(": ").signed(value as i64)));
    }
    Ok(value as usize)
}

/// Appends the two bytes of `v`.
pub fn put_le2(out: &mut Vec<u8>, v: u64)
    ensures
        final(out)@ == old(out)@ + le2(v as int),
{
    reveal(le2);
    out.push((v % 0x100) as u8);
    out.push((v / 0x100 % 0x100) as u8);
    proof {
        assert(out@ =~= old(out)@ + le2(v as int));
    }
}

/// Appends the four bytes of `v`.
pub fn put_le4(out: &mut Vec<u8>, v: u64)
    ensures
        final(out)@ == old(out)@ + le4(v as int),
{
    put_le2(out, v);
    put_le2(out, v / 0x1_0000);
    proof {
        assert(out@ =~= old(out)@ + le4(v as int));
    }
}

/// Appends the eight bytes of `v`.
pub fn put_le8(out: &mut Vec<u8>, v: u64)
    ensures
        final(out)@ == old(out)@ + le8(v as int),
{
    put_le4(out, v);
    put_le4(out, v / 0x1_0000_0000);
    proof {
        assert(out@ =~= old(out)@ + le8(v as int));
    }
}

/// The bit pattern of a signed number.
pub fn to_unsigned(v: i64) -> (r: u64)
    ensures
        as_signed(r as int) == v,
        r == (if v < 0 { v + 0x1_0000_0000_0000_0000 } else { v as int }),
{
    if v < 0 {
        (v as i128 + 0x1_0000_0000_0000_0000) as u64
    } else {
        v as u64
    }
}

/// Appends the eight bytes of a signed number.
pub fn put_i64(out: &mut Vec<u8>, v: i64)
    ensures
        final(out)@ == old(out)@ + le8(v as int),
{
    let u = to_unsigned(v);
    put_le8(out, u);
    proof {
        if v < 0 {
            lemma_le8_wraps(v as int);
        }
    }
}

/// Appends a copy of `bytes`.
pub fn put_slice(out: &mut Vec<u8>, bytes: &[u8])
    ensures
        final(out)@ == old(out)@ + bytes@,
{
    let mut i: usize = 0;
    while i < bytes.len()
        invariant
            i <= bytes@.len(),
            out@ == old(out)@ + bytes@.subrange(0, i as int),
        decreases bytes@.len() - i,
    {
        out.push(bytes[i]);
        i += 1;
        proof {
            assert(out@ =~= old(out)@ + bytes@.subrange(0, i as int));
        }
    }
    proof {
        assert(bytes@.subrange(0, i as int) =~= bytes@);
    }
}

/// Whether two byte strings are equal.
pub fn same_bytes(a: &[u8], b: &[u8]) -> (r: bool)
    ensures
        r == (a@ == b@),
{
    if a.len() != b.len() {
        return false;
    }
    let mut i: usize = 0;
    while i < a.len()
        invariant
            i <= a@.len(),
            a@.len() == b@.len(),
            forall|j: int| 0 <= j < i ==> a@[j] == b@[j],
        decreases a@.len() - i,
    {
        if a[i] != b[i] {
            return false;
        }
        i += 1;
    }
    proof {
        assert(a@ =~= b@);
    }
    true
}

/// A buffer of zeroes.
pub fn zeroed(len: usize) -> (r: Vec<u8>)
    ensures
        r@.len() == len,
        forall|i: int| 0 <= i < len ==> #[trigger] r@[i] == 0,
{
    vec![0u8; len]
}

} // verus!
