//! The encodings that come with the crate.

use std::cmp::Ordering;

use vstd::prelude::*;
use vstd::string::*;

use super::order::{self, lex_order};
use super::{KeyEncoding, KeyOrder};
use crate::error::{self, Error, ErrorKind, Words};
use crate::format::bytes::{self, put_i64, read_i64, read_u16, read_u32};
use crate::text::{
    self, hex_digit, parse_hex_key, parse_i64, push_hex, push_hex_byte, push_signed, string_of,
    trimmed_chars,
};

verus! {

broadcast use crate::format::group_format;

/// What is said of a key of the wrong width.
fn wrong_width(id: &str, key: &[u8], len: usize) -> (r: Words)
    ensures
        r.said() == "encoding `"@ + id@ + "` needs "@ + error::decimal(len as nat)
            + " byte keys, got "@ + error::decimal(key@.len() as nat),
{
    Words::new("encoding `").say(id).say("` needs ").number(len as u64).say(
        " byte keys, got ",
    ).number(key.len() as u64)
}

/// Reports a key of the wrong width.
fn need_len(id: &str, key: &[u8], len: usize) -> (r: Result<(), Error>)
    ensures
        match r {
            Ok(_) => key@.len() == len,
            Err(e) => key@.len() != len && e.is_corrupt(),
        },
{
    if key.len() != len {
        return Err(
            Error::corrupt_words(wrong_width(id, key, len)),
        );
    }
    Ok(())
}

/// Whether a key has the width an encoding asks for.
pub open spec fn has_width(width: Option<usize>, key: Seq<u8>) -> bool {
    match width {
        Some(n) => key.len() == n,
        None => true,
    }
}

/// Checks a key against the width an encoding asks for.
pub fn check_width(id: &str, width: Option<usize>, key: &[u8]) -> (r: Result<(), Error>)
    ensures
        match r {
            Ok(_) => has_width(width, key@),
            Err(e) => !has_width(width, key@) && e.kind() == ErrorKind::InvalidArgument,
        },
{
    match width {
        Some(n) => {
            if key.len() != n {
                return Err(
                    Error::invalid_words(wrong_width(id, key, n)),
                );
            }
            Ok(())
        },
        None => Ok(()),
    }
}

/// The order of two keys as the standard library's.
fn as_ordering(o: KeyOrder) -> (r: Ordering)
    ensures
        r == Ordering::Less <==> o == KeyOrder::Less,
        r == Ordering::Greater <==> o == KeyOrder::Greater,
{
    match o {
        KeyOrder::Less => Ordering::Less,
        KeyOrder::Equal => Ordering::Equal,
        KeyOrder::Greater => Ordering::Greater,
    }
}

/// Little-endian signed 64-bit integer keys (`i64`).
///
/// The digest flips the sign bit, which maps the signed order onto the unsigned digest
/// order, so it is exact and pages built with it store no key bytes.
#[derive(Debug, Clone, Copy)]
pub struct Int64Encoding;

impl Default for Int64Encoding {
    fn default() -> (r: Self)
        ensures
            r == Int64Encoding,
    {
        Int64Encoding
    }
}

/// The number a key stores.
pub open spec fn i64_of(key: Seq<u8>) -> int {
    bytes::i64_at(key, 0)
}

impl Int64Encoding {
    /// Encodes an `i64` key.
    pub fn encode(value: i64) -> (r: [u8; 8])
        ensures
            r@ == bytes::le8(value as int),
    {
        let mut out: Vec<u8> = Vec::new();
        put_i64(&mut out, value);
        let r = [out[0], out[1], out[2], out[3], out[4], out[5], out[6], out[7]];
        proof {
            assert(r@ =~= out@);
        }
        r
    }

    /// Decodes an `i64` key.
    pub fn decode(key: &[u8]) -> (r: Result<i64, Error>)
        ensures
            match r {
                Ok(v) => key@.len() == 8 && v == i64_of(key@),
                Err(e) => key@.len() != 8 && e.is_corrupt(),
            },
    {
        need_len("i64", key, 8)?;
        read_i64(key, 0)
    }

    /// A number decodes as itself.
    pub proof fn lemma_round_trip(value: i64)
        ensures
            i64_of(bytes::le8(value as int)) == value,
            bytes::le8(value as int).len() == 8,
    {
        let s = bytes::le8(value as int);
        assert(s.subrange(0, 8) =~= s);
        bytes::lemma_u64_read_back(s, 0, value as int);
    }
}

/// Eight bytes are the bytes of the number they store.
pub proof fn lemma_i64_bytes(key: Seq<u8>)
    requires
        key.len() == 8,
    ensures
        bytes::le8(i64_of(key)) == key,
{
    let v = i64_of(key);
    let u = bytes::u64_at(key, 0);
    if v < 0 {
        bytes::lemma_le8_wraps(v);
    }
    assert(bytes::le8(u) == bytes::le8(v));
    reveal(bytes::u16_at);
    reveal(bytes::le2);
    let a = bytes::u32_at(key, 0);
    let b = bytes::u32_at(key, 4);
    assert(u == a + 0x1_0000_0000 * b);
    assert(u / 0x1_0000_0000 == b);
    bytes::lemma_le4_wraps(u, a);
    lemma_u32_bytes(key, 0);
    lemma_u32_bytes(key, 4);
    assert(bytes::le8(u) =~= key.subrange(0, 4) + key.subrange(4, 8));
    assert(key.subrange(0, 4) + key.subrange(4, 8) =~= key);
}

/// Four bytes are the bytes of the number they store.
proof fn lemma_u32_bytes(key: Seq<u8>, o: int)
    requires
        0 <= o,
        o + 4 <= key.len(),
    ensures
        bytes::le4(bytes::u32_at(key, o)) == key.subrange(o, o + 4),
{
    reveal(bytes::u16_at);
    reveal(bytes::le2);
    let u = bytes::u32_at(key, o);
    let low = bytes::u16_at(key, o);
    let high = bytes::u16_at(key, o + 2);
    assert(u / 0x1_0000 == high && u % 0x1_0000 == low);
    bytes::lemma_le2_wraps(u, low);
    assert(bytes::le2(low) =~= key.subrange(o, o + 2));
    assert(bytes::le2(high) =~= key.subrange(o + 2, o + 4));
    assert(key.subrange(o, o + 2) + key.subrange(o + 2, o + 4) =~= key.subrange(o, o + 4));
}

impl KeyEncoding for Int64Encoding {
    open spec fn name(&self) -> Seq<char> {
        "i64"@
    }

    open spec fn accepts(&self, key: Seq<u8>) -> bool {
        key.len() == 8
    }

    open spec fn sign(&self, a: Seq<u8>, b: Seq<u8>) -> int {
        i64_of(a) - i64_of(b)
    }

    open spec fn digest_of(&self, key: Seq<u8>) -> u64 {
        (i64_of(key) + 0x8000_0000_0000_0000) as u64
    }

    open spec fn exact(&self) -> bool {
        true
    }

    open spec fn admits(&self, key: Seq<u8>, stored: u64) -> bool {
        self.accepts(key) && self.digest_of(key) == stored
    }

    open spec fn rebuilt(&self, digest: u64) -> Option<Seq<u8>> {
        Some(bytes::le8(digest - 0x8000_0000_0000_0000))
    }

    open spec fn width(&self) -> Option<usize> {
        Some(8)
    }

    open spec fn rebuilt_len(&self) -> Option<usize> {
        Some(8)
    }

    open spec fn lexicographic(&self) -> bool {
        false
    }

    open spec fn well_formed(&self, key: Seq<u8>) -> bool {
        has_width(self.width(), key)
    }

    open spec fn rendered(&self, key: Seq<u8>) -> Seq<char> {
        if key.len() == 8 {
            text::signed_decimal(i64_of(key))
        } else {
            "<invalid i64 key>"@
        }
    }

    open spec fn read_text(&self, t: Seq<char>) -> Option<Seq<u8>> {
        match text::i64_value(text::trimmed(t)) {
            Some(v) => Some(bytes::le8(v)),
            None => None,
        }
    }

    open spec fn faults(&self, kind: ErrorKind) -> bool {
        kind == ErrorKind::CorruptData
    }

    open spec fn rejects(&self, kind: ErrorKind) -> bool {
        kind == ErrorKind::InvalidArgument
    }

    fn id(&self) -> (r: &str) {
        "i64"
    }

    fn compare(&self, a: &[u8], b: &[u8]) -> (r: Result<Ordering, Error>)
        ensures
            r matches Err(e) ==> e.is_corrupt(),
    {
        let x = Int64Encoding::decode(a)?;
        let y = Int64Encoding::decode(b)?;
        Ok(
            if x < y {
                Ordering::Less
            } else if x > y {
                Ordering::Greater
            } else {
                Ordering::Equal
            },
        )
    }

    fn digest(&self, key: &[u8]) -> (r: Result<u64, Error>)
        ensures
            r matches Err(e) ==> e.is_corrupt(),
    {
        let v = Int64Encoding::decode(key)?;
        Ok((v as i128 + 0x8000_0000_0000_0000) as u64)
    }

    fn is_digest_exact(&self) -> (r: bool) {
        true
    }

    fn accepts_digest(&self, key: &[u8], stored: u64) -> (r: Result<bool, Error>)
        ensures
            r matches Err(e) ==> e.is_corrupt() && !self.accepts(key@),
    {
        Ok(self.digest(key)? == stored)
    }

    fn decode_key_from_digest(&self, digest: u64, out: &mut Vec<u8>) -> (r: Result<(), Error>) {
        out.clear();
        put_i64(out, (digest as i128 - 0x8000_0000_0000_0000) as i64);
        proof {
            assert(out@ =~= bytes::le8(digest - 0x8000_0000_0000_0000));
        }
        Ok(())
    }

    fn fixed_key_len(&self) -> (r: Option<usize>) {
        Some(8)
    }

    /// The digest is the whole key, so a rebuilt one is always eight bytes.
    fn max_rebuilt_key_len(&self) -> (r: Option<usize>) {
        Some(8)
    }

    fn is_byte_lexicographic(&self) -> (r: bool) {
        false
    }

    fn validate_key(&self, key: &[u8]) -> (r: Result<(), Error>)
        ensures
            r matches Err(e) ==> e.kind() == ErrorKind::InvalidArgument,
    {
        check_width("i64", Some(8), key)
    }

    fn format_key(&self, key: &[u8]) -> (r: String) {
        match Int64Encoding::decode(key) {
            Ok(v) => {
                let mut out = String::new();
                push_signed(&mut out, v);
                proof {
                    assert(out@ =~= text::signed_decimal(v as int));
                }
                out
            },
            Err(_) => "<invalid i64 key>".to_owned(),
        }
    }

    fn parse_key(&self, t: &str) -> (r: Result<Vec<u8>, Error>)
        ensures
            r matches Err(e) ==> e.kind() == ErrorKind::InvalidArgument,
    {
        match parse_i64(t) {
            Some(v) => {
                let mut out: Vec<u8> = Vec::new();
                put_i64(&mut out, v);
                proof {
                    assert(out@ =~= bytes::le8(v as int));
                }
                Ok(out)
            },
            None => Err(
                Error::invalid_words(
                    Words::new("`")
                        .say(t)
                        .say("` is not a 64-bit signed decimal integer"),
                ),
            ),
        }
    }
}

/// The signed order of `i64` keys is total, and the digest preserves it exactly: it is a
/// bijection between keys and 64-bit numbers, and a rebuilt key is the key.
pub proof fn lemma_int64_lawful()
    ensures
        super::lawful(&Int64Encoding),
        forall|k: Seq<u8>|
            k.len() == 8 ==> #[trigger] Int64Encoding.rebuilt(Int64Encoding.digest_of(k)) == Some(
                k,
            ),
        forall|a: Seq<u8>, b: Seq<u8>|
            a.len() == 8 && b.len() == 8 && #[trigger] Int64Encoding.sign(a, b) == 0 ==> a == b,
        forall|d: u64| Int64Encoding.digest_of((#[trigger] Int64Encoding.rebuilt(d))->Some_0) == d,
{
    assert forall|k: Seq<u8>| k.len() == 8 implies #[trigger] Int64Encoding.rebuilt(
        Int64Encoding.digest_of(k),
    ) == Some(k) by {
        lemma_i64_bytes(k);
    }
    assert forall|a: Seq<u8>, b: Seq<u8>|
        a.len() == 8 && b.len() == 8 && #[trigger] Int64Encoding.sign(a, b) == 0 implies a == b by {
        lemma_i64_bytes(a);
        lemma_i64_bytes(b);
    }
    assert forall|d: u64|
        Int64Encoding.digest_of((#[trigger] Int64Encoding.rebuilt(d))->Some_0) == d by {
        let v = d - 0x8000_0000_0000_0000;
        Int64Encoding::lemma_round_trip(v as i64);
    }
}

/// Byte-lexicographic keys (`ascii`).
///
/// The digest is the first eight bytes packed big-endian and zero padded, so keys that
/// share an eight byte prefix collide and fall back to the full comparison.
#[derive(Debug, Clone, Copy)]
pub struct AsciiEncoding;

impl Default for AsciiEncoding {
    fn default() -> (r: Self)
        ensures
            r == AsciiEncoding,
    {
        AsciiEncoding
    }
}

/// The `ascii` digest: first eight bytes, big-endian, zero padded.
pub fn ascii_digest(key: &[u8]) -> (r: u64)
    ensures
        r == order::big_endian(key@, 8),
{
    let mut digest: u64 = 0;
    let mut i: usize = 0;
    proof {
        order::lemma_big_endian_bounds(key@);
        reveal_with_fuel(order::big_endian, 9);
    }
    while i < 8
        invariant
            i <= 8,
            digest == order::big_endian(key@, i as nat),
        decreases 8 - i,
    {
        proof {
            reveal_with_fuel(order::big_endian, 9);
            assert(order::big_endian(key@, i as nat) <= 0xFF_FFFF_FFFF_FFFF);
        }
        let b: u64 = if i < key.len() {
            key[i] as u64
        } else {
            0
        };
        digest = digest * 0x100 + b;
        i += 1;
    }
    digest
}

/// The characters that render one byte of an `ascii` key: itself when it is printable,
/// an escape otherwise.
pub open spec fn escaped_byte(b: u8) -> Seq<char> {
    if b == 0x5c {
        seq!['\\', '\\']
    } else if 0x20 <= b <= 0x7e {
        seq![b as char]
    } else {
        seq!['\\', 'x', text::hex_char((b / 16) as int), text::hex_char((b % 16) as int)]
    }
}

/// The rendering of an `ascii` key.
///
/// Escaped rather than rendered lossily: these keys are byte strings, and two different
/// keys must not print the same.
pub open spec fn escaped(key: Seq<u8>) -> Seq<char>
    decreases key.len(),
{
    if key.len() == 0 {
        Seq::empty()
    } else {
        escaped(key.drop_last()) + escaped_byte(key.last())
    }
}

/// Reads escapes from position `i` on.
pub open spec fn unescaped_from(t: Seq<u8>, i: int) -> Option<Seq<u8>>
    decreases t.len() - i,
{
    if i >= t.len() {
        Some(Seq::empty())
    } else if t[i] != 0x5c {
        match unescaped_from(t, i + 1) {
            Some(rest) => Some(seq![t[i]] + rest),
            None => None,
        }
    } else if i + 1 < t.len() && t[i + 1] == 0x5c {
        match unescaped_from(t, i + 2) {
            Some(rest) => Some(seq![0x5cu8] + rest),
            None => None,
        }
    } else if i + 3 < t.len() && t[i + 1] == 0x78 {
        match (
            text::hex_value(t[i + 2]),
            text::hex_value(t[i + 3]),
            unescaped_from(t, i + 4),
        ) {
            (Some(high), Some(low), Some(rest)) => Some(seq![(16 * high + low) as u8] + rest),
            _ => None,
        }
    } else {
        None
    }
}

/// One printable ASCII character.
fn printable(b: u8) -> (r: char)
    requires
        0x20 <= b <= 0x7e,
    ensures
        r == b as char,
{
    b as char
}

impl KeyEncoding for AsciiEncoding {
    open spec fn name(&self) -> Seq<char> {
        "ascii"@
    }

    open spec fn accepts(&self, key: Seq<u8>) -> bool {
        true
    }

    open spec fn sign(&self, a: Seq<u8>, b: Seq<u8>) -> int {
        order::lex(a, b)
    }

    open spec fn digest_of(&self, key: Seq<u8>) -> u64 {
        order::big_endian(key, 8) as u64
    }

    open spec fn exact(&self) -> bool {
        false
    }

    open spec fn admits(&self, key: Seq<u8>, stored: u64) -> bool {
        self.digest_of(key) == stored
    }

    open spec fn rebuilt(&self, digest: u64) -> Option<Seq<u8>> {
        None
    }

    open spec fn width(&self) -> Option<usize> {
        None
    }

    open spec fn rebuilt_len(&self) -> Option<usize> {
        None
    }

    open spec fn lexicographic(&self) -> bool {
        true
    }

    open spec fn well_formed(&self, key: Seq<u8>) -> bool {
        true
    }

    open spec fn rendered(&self, key: Seq<u8>) -> Seq<char> {
        escaped(key)
    }

    open spec fn read_text(&self, t: Seq<char>) -> Option<Seq<u8>> {
        unescaped_from(vstd::utf8::encode_utf8(t), 0)
    }

    open spec fn faults(&self, kind: ErrorKind) -> bool {
        false
    }

    open spec fn rejects(&self, kind: ErrorKind) -> bool {
        kind == ErrorKind::InvalidArgument
    }

    fn id(&self) -> (r: &str) {
        "ascii"
    }

    fn compare(&self, a: &[u8], b: &[u8]) -> (r: Result<Ordering, Error>) {
        Ok(as_ordering(lex_order(a, b, 0)))
    }

    fn digest(&self, key: &[u8]) -> (r: Result<u64, Error>) {
        Ok(ascii_digest(key))
    }

    fn is_digest_exact(&self) -> (r: bool) {
        false
    }

    fn accepts_digest(&self, key: &[u8], stored: u64) -> (r: Result<bool, Error>)
        ensures
            r is Ok,
    {
        Ok(ascii_digest(key) == stored)
    }

    fn decode_key_from_digest(&self, digest: u64, out: &mut Vec<u8>) -> (r: Result<(), Error>)
        ensures
            r matches Err(e) ==> e.kind() == ErrorKind::Unsupported,
    {
        Err(no_rebuild("ascii"))
    }

    fn fixed_key_len(&self) -> (r: Option<usize>) {
        None
    }

    fn max_rebuilt_key_len(&self) -> (r: Option<usize>) {
        None
    }

    fn is_byte_lexicographic(&self) -> (r: bool) {
        true
    }

    fn validate_key(&self, key: &[u8]) -> (r: Result<(), Error>) {
        Ok(())
    }

    fn format_key(&self, key: &[u8]) -> (r: String) {
        let mut out = String::new();
        let mut i: usize = 0;
        while i < key.len()
            invariant
                i <= key@.len(),
                out@ == escaped(key@.subrange(0, i as int)),
            decreases key@.len() - i,
        {
            let byte = key[i];
            if byte == 0x5c {
                out.push('\\');
                out.push('\\');
            } else if 0x20 <= byte && byte <= 0x7e {
                out.push(printable(byte));
            } else {
                out.push('\\');
                out.push('x');
                push_hex_byte(&mut out, byte);
            }
            proof {
                let upto = key@.subrange(0, i + 1);
                assert(upto.drop_last() =~= key@.subrange(0, i as int));
                assert(upto.last() == byte);
                assert(out@ =~= escaped(upto));
            }
            i += 1;
        }
        proof {
            assert(key@.subrange(0, i as int) =~= key@);
        }
        out
    }

    fn parse_key(&self, t: &str) -> (r: Result<Vec<u8>, Error>)
        ensures
            r matches Err(e) ==> e.kind() == ErrorKind::InvalidArgument,
    {
        let bytes = t.as_bytes();
        let ghost s = vstd::utf8::encode_utf8(t@);
        let mut out: Vec<u8> = Vec::new();
        let mut i: usize = 0;
        proof {
            if unescaped_from(s, 0) is Some {
                assert(out@ + unescaped_from(s, 0)->Some_0 =~= unescaped_from(s, 0)->Some_0);
            }
        }
        while i < bytes.len()
            invariant
                bytes@ == s,
                s == vstd::utf8::encode_utf8(t@),
                i <= s.len(),
                unescaped_from(s, 0) is Some <==> unescaped_from(s, i as int) is Some,
                unescaped_from(s, 0) is Some ==> unescaped_from(s, 0)->Some_0 == out@
                    + unescaped_from(s, i as int)->Some_0,
            decreases s.len() - i,
        {
            let ghost before = out@;
            let ghost at = i as int;
            if bytes[i] != 0x5c {
                out.push(bytes[i]);
                i += 1;
            } else if bytes.len() - i > 1 && bytes[i + 1] == 0x5c {
                out.push(0x5c);
                i += 2;
            } else if bytes.len() - i > 1 && bytes[i + 1] == 0x78 {
                if bytes.len() - i < 4 {
                    return Err(Error::invalid("`\\x` needs two hex digits after it"));
                }
                let high = hex_digit(bytes[i + 2])?;
                let low = hex_digit(bytes[i + 3])?;
                out.push(16 * high + low);
                i += 4;
            } else {
                return Err(
                    Error::invalid("a backslash in a key is written `\\\\`, and a byte `\\xNN`"),
                );
            }
            proof {
                if unescaped_from(s, 0) is Some {
                    let rest = unescaped_from(s, i as int)->Some_0;
                    assert(unescaped_from(s, at)->Some_0 == seq![out@.last()] + rest);
                    assert(before + (seq![out@.last()] + rest) =~= out@ + rest);
                }
            }
        }
        proof {
            if unescaped_from(s, 0) is Some {
                assert(out@ + Seq::<u8>::empty() =~= out@);
            }
        }
        Ok(out)
    }
}

/// Reports an encoding whose digests do not determine its keys.
pub fn no_rebuild(id: &str) -> (e: Error)
    ensures
        e.kind() == ErrorKind::Unsupported,
{
    Error::from_text(
        ErrorKind::Unsupported,
        Words::new("encoding `").say(id).say("` cannot rebuild keys from digests").end(),
    )
}

/// Byte order is total, and the first eight bytes preserve it.
pub proof fn lemma_ascii_lawful()
    ensures
        super::lawful(&AsciiEncoding),
        forall|a: Seq<u8>, b: Seq<u8>| #[trigger] AsciiEncoding.sign(a, b) == 0 ==> a == b,
{
    assert forall|a: Seq<u8>, b: Seq<u8>| #[trigger] AsciiEncoding.sign(a, b) == 0 implies a
        == b by {
        order::lemma_lex_equal(a, b, 0);
        assert(a =~= b);
    }
    assert forall|a: Seq<u8>| #[trigger] AsciiEncoding.accepts(a) implies AsciiEncoding.sign(a, a)
        == 0 by {
        order::lemma_lex_equal(a, a, 0);
    }
    assert forall|a: Seq<u8>, b: Seq<u8>|
        AsciiEncoding.accepts(a) && AsciiEncoding.accepts(b) implies (#[trigger] AsciiEncoding.sign(
        a,
        b,
    ) < 0 <==> AsciiEncoding.sign(b, a) > 0) by {
        order::lemma_lex_flip(a, b, 0);
    }
    assert forall|a: Seq<u8>, b: Seq<u8>, c: Seq<u8>|
        #![trigger AsciiEncoding.sign(a, b), AsciiEncoding.sign(b, c)]
        AsciiEncoding.sign(a, b) <= 0 && AsciiEncoding.sign(b, c) <= 0 implies AsciiEncoding.sign(
        a,
        c,
    ) <= 0 && (AsciiEncoding.sign(a, c) == 0 ==> AsciiEncoding.sign(a, b) == 0
        && AsciiEncoding.sign(b, c) == 0) by {
        order::lemma_lex_transitive(a, b, c, 0);
    }
    assert forall|a: Seq<u8>, b: Seq<u8>|
        AsciiEncoding.accepts(a) && AsciiEncoding.accepts(b) && #[trigger] AsciiEncoding.sign(a, b)
            <= 0 implies AsciiEncoding.digest_of(a) <= AsciiEncoding.digest_of(b) by {
        order::lemma_big_endian_order(a, b, 0, 8);
        order::lemma_big_endian_bounds(a);
        order::lemma_big_endian_bounds(b);
    }
}

/// Escapes read back one after the other.
proof fn lemma_unescape_append(t: Seq<u8>, u: Seq<u8>, b: u8, i: int)
    requires
        0 <= i <= t.len(),
        unescaped_from(t, i) is Some,
        unescaped_from(u, 0) == Some(seq![b]),
    ensures
        unescaped_from(t + u, i) == Some(unescaped_from(t, i)->Some_0.push(b)),
    decreases t.len() - i,
{
    let whole = t + u;
    if i == t.len() {
        lemma_unescape_shift(t, u, 0);
        assert(Seq::<u8>::empty().push(b) =~= seq![b]);
    } else {
        assert(whole[i] == t[i]);
        let step = if t[i] != 0x5c {
            1int
        } else if i + 1 < t.len() && t[i + 1] == 0x5c {
            2
        } else {
            4
        };
        let head = if t[i] != 0x5c {
            t[i]
        } else if i + 1 < t.len() && t[i + 1] == 0x5c {
            0x5cu8
        } else {
            (16 * text::hex_value(t[i + 2])->Some_0 + text::hex_value(t[i + 3])->Some_0) as u8
        };
        lemma_unescape_append(t, u, b, i + step);
        let rest = unescaped_from(t, i + step)->Some_0;
        assert(seq![head] + rest.push(b) =~= (seq![head] + rest).push(b));
    }
}

/// Reading depends on what follows, not on where it stands.
proof fn lemma_unescape_shift(t: Seq<u8>, u: Seq<u8>, i: int)
    requires
        0 <= i <= u.len(),
    ensures
        unescaped_from(t + u, t.len() + i) == unescaped_from(u, i),
    decreases u.len() - i,
{
    let whole = t + u;
    if i < u.len() {
        assert(whole[t.len() + i] == u[i]);
        lemma_unescape_shift(t, u, i + 1);
        if i + 1 < u.len() {
            assert(whole[t.len() + i + 1] == u[i + 1]);
            lemma_unescape_shift(t, u, i + 2);
        }
        if i + 3 < u.len() {
            assert(whole[t.len() + i + 2] == u[i + 2]);
            assert(whole[t.len() + i + 3] == u[i + 3]);
            lemma_unescape_shift(t, u, i + 4);
        }
    }
}

/// One escaped byte reads back as that byte.
proof fn lemma_unescape_byte(b: u8)
    ensures
        vstd::utf8::is_ascii_chars(escaped_byte(b)),
        unescaped_from(vstd::utf8::encode_utf8(escaped_byte(b)), 0) == Some(seq![b]),
{
    let c = escaped_byte(b);
    vstd::utf8::is_ascii_chars_encode_utf8(c);
    let u = vstd::utf8::encode_utf8(c);
    reveal_with_fuel(unescaped_from, 3);
    assert(u.len() == c.len());
    assert(u[0] == c[0] as u8);
    if b == 0x5c {
        assert(u[1] == c[1] as u8);
        assert(seq![0x5cu8] + Seq::<u8>::empty() =~= seq![b]);
    } else if 0x20 <= b <= 0x7e {
        assert(seq![u[0]] + Seq::<u8>::empty() =~= seq![b]);
    } else {
        assert(u[1] == c[1] as u8 && u[2] == c[2] as u8 && u[3] == c[3] as u8);
        let v = (16 * text::hex_value(u[2])->Some_0 + text::hex_value(u[3])->Some_0) as u8;
        assert(v == b);
        assert(seq![v] + Seq::<u8>::empty() =~= seq![b]);
    }
}

/// A rendered `ascii` key reads back as the key, so two different keys never print the
/// same.
pub proof fn lemma_ascii_text_round_trip(key: Seq<u8>)
    ensures
        AsciiEncoding.read_text(AsciiEncoding.rendered(key)) == Some(key),
        vstd::utf8::is_ascii_chars(escaped(key)),
    decreases key.len(),
{
    if key.len() == 0 {
        vstd::utf8::is_ascii_chars_encode_utf8(escaped(key));
        assert(unescaped_from(vstd::utf8::encode_utf8(escaped(key)), 0)->Some_0 =~= key);
    } else {
        let front = key.drop_last();
        lemma_ascii_text_round_trip(front);
        lemma_unescape_byte(key.last());
        let a = escaped(front);
        let c = escaped_byte(key.last());
        vstd::utf8::is_ascii_chars_encode_utf8(a);
        vstd::utf8::is_ascii_chars_encode_utf8(c);
        vstd::utf8::is_ascii_chars_encode_utf8(a + c);
        let t = vstd::utf8::encode_utf8(a);
        let u = vstd::utf8::encode_utf8(c);
        assert(vstd::utf8::encode_utf8(a + c) =~= t + u);
        lemma_unescape_append(t, u, key.last(), 0);
        assert(front.push(key.last()) =~= key);
    }
}

/// A rendered `i64` key reads back as the key.
pub proof fn lemma_int64_text_round_trip(key: Seq<u8>)
    requires
        key.len() == 8,
    ensures
        Int64Encoding.read_text(Int64Encoding.rendered(key)) == Some(key),
{
    let v = i64_of(key);
    let s = text::signed_decimal(v);
    text::lemma_signed_decimal_reads_back(v);
    lemma_i64_bytes(key);
    if v < 0 {
        text::lemma_decimal_reads_back((-v) as nat);
        assert(s.last() == error::decimal((-v) as nat).last());
    } else {
        text::lemma_decimal_reads_back(v as nat);
    }
    assert(text::trimmed(s) == s);
}

/// UUIDv7 keys in .NET's `Guid` byte layout (`uuidv7`).
///
/// The first three fields of the 16 key bytes are little-endian (`u32` at 0, `u16` at 4,
/// `u16` at 6) and bytes 8..16 are stored in order. Keys compare by those three fields as
/// unsigned integers and then by the trailing bytes. Use [`Uuidv7Encoding::from_rfc4122`]
/// to convert a canonical big-endian UUID into this layout.
#[derive(Debug, Clone, Copy)]
pub struct Uuidv7Encoding;

impl Default for Uuidv7Encoding {
    fn default() -> (r: Self)
        ensures
            r == Uuidv7Encoding,
    {
        Uuidv7Encoding
    }
}

/// The three leading fields read as one number.
pub open spec fn uuid_fields(key: Seq<u8>) -> int {
    bytes::u32_at(key, 0) * 0x1_0000_0000 + bytes::u16_at(key, 4) * 0x1_0000 + bytes::u16_at(
        key,
        6,
    )
}

/// The leading fields of a UUID with their bytes reversed.
pub open spec fn uuid_swapped(b: Seq<u8>) -> Seq<u8> {
    seq![b[3], b[2], b[1], b[0], b[5], b[4], b[7], b[6]] + b.subrange(8, 16)
}

/// The text form of a UUID: hex with dashes after four, six, eight and ten bytes.
pub open spec fn uuid_text(r: Seq<u8>) -> Seq<char> {
    text::hex_text(r.subrange(0, 4)).push('-') + text::hex_text(r.subrange(4, 6)).push('-')
        + text::hex_text(r.subrange(6, 8)).push('-') + text::hex_text(r.subrange(8, 10)).push('-')
        + text::hex_text(r.subrange(10, 16))
}

/// A text without its dashes.
pub open spec fn without_dashes(t: Seq<char>) -> Seq<char>
    decreases t.len(),
{
    if t.len() == 0 {
        t
    } else if t.last() == '-' {
        without_dashes(t.drop_last())
    } else {
        without_dashes(t.drop_last()).push(t.last())
    }
}

/// The key a UUID text stands for: the RFC 4122 text form, or the bare hex of the stored
/// bytes.
pub open spec fn uuid_read(t: Seq<char>) -> Option<Seq<u8>> {
    let trimmed = text::trimmed(t);
    if !trimmed.contains('-') {
        text::hex_bytes(vstd::utf8::encode_utf8(trimmed))
    } else {
        let digits = vstd::utf8::encode_utf8(without_dashes(trimmed));
        if digits.len() != 32 {
            None
        } else {
            match text::hex_bytes(digits) {
                Some(b) => Some(uuid_swapped(b)),
                None => None,
            }
        }
    }
}

impl Uuidv7Encoding {
    /// Converts RFC 4122 (big-endian) bytes into the .NET `Guid` layout used on disk.
    pub fn from_rfc4122(bytes: &[u8; 16]) -> (r: [u8; 16])
        ensures
            r@ == uuid_swapped(bytes@),
    {
        let r = [
            bytes[3], bytes[2], bytes[1], bytes[0], bytes[5], bytes[4], bytes[7], bytes[6],
            bytes[8], bytes[9], bytes[10], bytes[11], bytes[12], bytes[13], bytes[14], bytes[15],
        ];
        proof {
            assert(r@ =~= uuid_swapped(bytes@));
        }
        r
    }

    /// Converts the on-disk .NET `Guid` layout back to RFC 4122 byte order.
    pub fn to_rfc4122(bytes: &[u8; 16]) -> (r: [u8; 16])
        ensures
            r@ == uuid_swapped(bytes@),
    {
        // The transform is its own inverse.
        Uuidv7Encoding::from_rfc4122(bytes)
    }

    fn fields(key: &[u8]) -> (r: Result<u64, Error>)
        ensures
            match r {
                Ok(f) => key@.len() == 16 && f == uuid_fields(key@),
                Err(e) => key@.len() != 16 && e.is_corrupt(),
            },
    {
        need_len("uuidv7", key, 16)?;
        let a = read_u32(key, 0)?;
        let b = read_u16(key, 4)?;
        let c = read_u16(key, 6)?;
        Ok(a as u64 * 0x1_0000_0000 + b as u64 * 0x1_0000 + c as u64)
    }
}

/// The conversion between the two UUID layouts is its own inverse.
pub proof fn lemma_uuid_swap_involution(b: Seq<u8>)
    requires
        b.len() == 16,
    ensures
        uuid_swapped(uuid_swapped(b)) == b,
        uuid_swapped(b).len() == 16,
{
    assert(uuid_swapped(uuid_swapped(b)) =~= b);
}

/// The first sixteen bytes as an array.
fn first_sixteen(key: &[u8]) -> (r: [u8; 16])
    requires
        key@.len() >= 16,
    ensures
        r@ == key@.subrange(0, 16),
{
    let r = [
        key[0], key[1], key[2], key[3], key[4], key[5], key[6], key[7], key[8], key[9], key[10],
        key[11], key[12], key[13], key[14], key[15],
    ];
    proof {
        assert(r@ =~= key@.subrange(0, 16));
    }
    r
}

/// Whether a text has a dash in it.
fn has_dash(chars: &Vec<char>) -> (r: bool)
    ensures
        r == chars@.contains('-'),
{
    let mut i: usize = 0;
    while i < chars.len()
        invariant
            i <= chars@.len(),
            forall|j: int| 0 <= j < i ==> chars@[j] != '-',
        decreases chars@.len() - i,
    {
        if chars[i] == '-' {
            proof {
                assert(chars@[i as int] == '-');
            }
            return true;
        }
        i += 1;
    }
    false
}

/// A text without its dashes.
fn drop_dashes(chars: &Vec<char>) -> (r: Vec<char>)
    ensures
        r@ == without_dashes(chars@),
{
    let mut out: Vec<char> = Vec::new();
    let mut i: usize = 0;
    while i < chars.len()
        invariant
            i <= chars@.len(),
            out@ == without_dashes(chars@.subrange(0, i as int)),
        decreases chars@.len() - i,
    {
        proof {
            let upto = chars@.subrange(0, i + 1);
            assert(upto.drop_last() =~= chars@.subrange(0, i as int));
        }
        if chars[i] != '-' {
            out.push(chars[i]);
        }
        i += 1;
    }
    proof {
        assert(chars@.subrange(0, i as int) =~= chars@);
    }
    out
}

impl KeyEncoding for Uuidv7Encoding {
    open spec fn name(&self) -> Seq<char> {
        "uuidv7"@
    }

    open spec fn accepts(&self, key: Seq<u8>) -> bool {
        key.len() == 16
    }

    open spec fn sign(&self, a: Seq<u8>, b: Seq<u8>) -> int {
        if uuid_fields(a) != uuid_fields(b) {
            uuid_fields(a) - uuid_fields(b)
        } else {
            order::lex_from(a, b, 8)
        }
    }

    open spec fn digest_of(&self, key: Seq<u8>) -> u64 {
        uuid_fields(key) as u64
    }

    open spec fn exact(&self) -> bool {
        false
    }

    open spec fn admits(&self, key: Seq<u8>, stored: u64) -> bool {
        self.accepts(key) && self.digest_of(key) == stored
    }

    open spec fn rebuilt(&self, digest: u64) -> Option<Seq<u8>> {
        None
    }

    open spec fn width(&self) -> Option<usize> {
        Some(16)
    }

    open spec fn rebuilt_len(&self) -> Option<usize> {
        None
    }

    open spec fn lexicographic(&self) -> bool {
        false
    }

    open spec fn well_formed(&self, key: Seq<u8>) -> bool {
        has_width(self.width(), key)
    }

    open spec fn rendered(&self, key: Seq<u8>) -> Seq<char> {
        if key.len() == 16 {
            uuid_text(uuid_swapped(key))
        } else {
            "<invalid uuid key>"@
        }
    }

    open spec fn read_text(&self, t: Seq<char>) -> Option<Seq<u8>> {
        uuid_read(t)
    }

    open spec fn faults(&self, kind: ErrorKind) -> bool {
        kind == ErrorKind::CorruptData
    }

    open spec fn rejects(&self, kind: ErrorKind) -> bool {
        kind == ErrorKind::InvalidArgument
    }

    fn id(&self) -> (r: &str) {
        "uuidv7"
    }

    fn compare(&self, a: &[u8], b: &[u8]) -> (r: Result<Ordering, Error>)
        ensures
            r matches Err(e) ==> e.is_corrupt(),
    {
        let x = Uuidv7Encoding::fields(a)?;
        let y = Uuidv7Encoding::fields(b)?;
        Ok(
            if x < y {
                Ordering::Less
            } else if x > y {
                Ordering::Greater
            } else {
                as_ordering(lex_order(a, b, 8))
            },
        )
    }

    fn digest(&self, key: &[u8]) -> (r: Result<u64, Error>)
        ensures
            r matches Err(e) ==> e.is_corrupt(),
    {
        Uuidv7Encoding::fields(key)
    }

    fn is_digest_exact(&self) -> (r: bool) {
        false
    }

    fn accepts_digest(&self, key: &[u8], stored: u64) -> (r: Result<bool, Error>)
        ensures
            r matches Err(e) ==> e.is_corrupt() && !self.accepts(key@),
    {
        Ok(self.digest(key)? == stored)
    }

    fn decode_key_from_digest(&self, digest: u64, out: &mut Vec<u8>) -> (r: Result<(), Error>)
        ensures
            r matches Err(e) ==> e.kind() == ErrorKind::Unsupported,
    {
        Err(no_rebuild("uuidv7"))
    }

    fn fixed_key_len(&self) -> (r: Option<usize>) {
        Some(16)
    }

    fn max_rebuilt_key_len(&self) -> (r: Option<usize>) {
        None
    }

    fn is_byte_lexicographic(&self) -> (r: bool) {
        false
    }

    fn validate_key(&self, key: &[u8]) -> (r: Result<(), Error>)
        ensures
            r matches Err(e) ==> e.kind() == ErrorKind::InvalidArgument,
    {
        check_width("uuidv7", Some(16), key)
    }

    fn format_key(&self, key: &[u8]) -> (r: String) {
        if key.len() != 16 {
            return "<invalid uuid key>".to_owned();
        }
        let b = first_sixteen(key);
        let rfc = Uuidv7Encoding::to_rfc4122(&b);
        let mut out = String::new();
        push_hex(&mut out, vstd::slice::slice_subrange(&rfc, 0, 4));
        out.push('-');
        push_hex(&mut out, vstd::slice::slice_subrange(&rfc, 4, 6));
        out.push('-');
        push_hex(&mut out, vstd::slice::slice_subrange(&rfc, 6, 8));
        out.push('-');
        push_hex(&mut out, vstd::slice::slice_subrange(&rfc, 8, 10));
        out.push('-');
        push_hex(&mut out, vstd::slice::slice_subrange(&rfc, 10, 16));
        proof {
            assert(key@.subrange(0, 16) =~= key@);
            assert(out@ =~= uuid_text(rfc@));
        }
        out
    }

    fn parse_key(&self, t: &str) -> (r: Result<Vec<u8>, Error>)
        ensures
            r matches Err(e) ==> e.kind() == ErrorKind::InvalidArgument,
    {
        let trimmed = trimmed_chars(t);
        if !has_dash(&trimmed) {
            let whole = string_of(&trimmed);
            return parse_hex_key(whole.as_str());
        }
        let bare = drop_dashes(&trimmed);
        let digits = string_of(&bare);
        let count = digits.as_str().as_bytes().len();
        if count != 32 {
            return Err(
                Error::from_text(
                    ErrorKind::InvalidArgument,

                    Words::new("`")
                        .say(string_of(&trimmed).as_str())
                        .say("` is not a uuid: 32 hex digits, got ")
                        .number(count as u64)
                        .end(),
                ),
            );
        }
        let rfc = parse_hex_key(digits.as_str())?;
        let key = Uuidv7Encoding::from_rfc4122(&first_sixteen(rfc.as_slice()));
        proof {
            assert(rfc@.subrange(0, 16) =~= rfc@);
        }
        let out = vstd::slice::slice_to_vec(&key);
        Ok(out)
    }
}

/// The field order of UUID keys is total, and the fields preserve it.
pub proof fn lemma_uuidv7_lawful()
    ensures
        super::lawful(&Uuidv7Encoding),
{
    let e = Uuidv7Encoding;
    assert forall|a: Seq<u8>| #[trigger] e.accepts(a) implies e.sign(a, a) == 0 by {
        order::lemma_lex_equal(a, a, 8);
    }
    assert forall|a: Seq<u8>, b: Seq<u8>| e.accepts(a) && e.accepts(b) implies (#[trigger] e.sign(
        a,
        b,
    ) < 0 <==> e.sign(b, a) > 0) by {
        order::lemma_lex_flip(a, b, 8);
    }
    assert forall|a: Seq<u8>, b: Seq<u8>, c: Seq<u8>|
        #![trigger e.sign(a, b), e.sign(b, c)]
        e.accepts(a) && e.accepts(b) && e.accepts(c) && e.sign(a, b) <= 0 && e.sign(b, c)
            <= 0 implies e.sign(a, c) <= 0 && (e.sign(a, c) == 0 ==> e.sign(a, b) == 0 && e.sign(
        b,
        c,
    ) == 0) by {
        if uuid_fields(a) == uuid_fields(b) && uuid_fields(b) == uuid_fields(c) {
            order::lemma_lex_transitive(a, b, c, 8);
        }
    }
}

/// ULID keys (`ulid`): 16 bytes compared lexicographically.
///
/// The digest is the first eight bytes read big-endian.
#[derive(Debug, Clone, Copy)]
pub struct UlidEncoding;

impl Default for UlidEncoding {
    fn default() -> (r: Self)
        ensures
            r == UlidEncoding,
    {
        UlidEncoding
    }
}

impl KeyEncoding for UlidEncoding {
    open spec fn name(&self) -> Seq<char> {
        "ulid"@
    }

    open spec fn accepts(&self, key: Seq<u8>) -> bool {
        true
    }

    open spec fn sign(&self, a: Seq<u8>, b: Seq<u8>) -> int {
        order::lex(a, b)
    }

    open spec fn digest_of(&self, key: Seq<u8>) -> u64 {
        order::big_endian(key, 8) as u64
    }

    open spec fn exact(&self) -> bool {
        false
    }

    open spec fn admits(&self, key: Seq<u8>, stored: u64) -> bool {
        self.digest_of(key) == stored
    }

    open spec fn rebuilt(&self, digest: u64) -> Option<Seq<u8>> {
        None
    }

    open spec fn width(&self) -> Option<usize> {
        Some(16)
    }

    open spec fn rebuilt_len(&self) -> Option<usize> {
        None
    }

    open spec fn lexicographic(&self) -> bool {
        true
    }

    open spec fn well_formed(&self, key: Seq<u8>) -> bool {
        has_width(self.width(), key)
    }

    open spec fn rendered(&self, key: Seq<u8>) -> Seq<char> {
        text::hex_text(key)
    }

    open spec fn read_text(&self, t: Seq<char>) -> Option<Seq<u8>> {
        text::hex_bytes(vstd::utf8::encode_utf8(t))
    }

    open spec fn faults(&self, kind: ErrorKind) -> bool {
        false
    }

    open spec fn rejects(&self, kind: ErrorKind) -> bool {
        kind == ErrorKind::InvalidArgument
    }

    fn id(&self) -> (r: &str) {
        "ulid"
    }

    /// Byte order, for any length.
    ///
    /// Keys are sixteen bytes, which [`KeyEncoding::validate_key`] enforces. Comparison
    /// and digest accept shorter inputs so that a byte prefix, which is not a key, can
    /// still be placed in the same order as the keys it selects.
    fn compare(&self, a: &[u8], b: &[u8]) -> (r: Result<Ordering, Error>) {
        Ok(as_ordering(lex_order(a, b, 0)))
    }

    fn digest(&self, key: &[u8]) -> (r: Result<u64, Error>) {
        Ok(ascii_digest(key))
    }

    fn is_digest_exact(&self) -> (r: bool) {
        false
    }

    fn accepts_digest(&self, key: &[u8], stored: u64) -> (r: Result<bool, Error>)
        ensures
            r is Ok,
    {
        Ok(ascii_digest(key) == stored)
    }

    fn decode_key_from_digest(&self, digest: u64, out: &mut Vec<u8>) -> (r: Result<(), Error>)
        ensures
            r matches Err(e) ==> e.kind() == ErrorKind::Unsupported,
    {
        Err(no_rebuild("ulid"))
    }

    fn fixed_key_len(&self) -> (r: Option<usize>) {
        Some(16)
    }

    fn max_rebuilt_key_len(&self) -> (r: Option<usize>) {
        None
    }

    fn is_byte_lexicographic(&self) -> (r: bool) {
        true
    }

    fn validate_key(&self, key: &[u8]) -> (r: Result<(), Error>)
        ensures
            r matches Err(e) ==> e.kind() == ErrorKind::InvalidArgument,
    {
        check_width("ulid", Some(16), key)
    }

    fn format_key(&self, key: &[u8]) -> (r: String) {
        let mut out = String::new();
        push_hex(&mut out, key);
        proof {
            assert(out@ =~= text::hex_text(key@));
        }
        out
    }

    fn parse_key(&self, t: &str) -> (r: Result<Vec<u8>, Error>)
        ensures
            r matches Err(e) ==> e.kind() == ErrorKind::InvalidArgument,
    {
        parse_hex_key(t)
    }
}

/// Byte order is total, and the first eight bytes preserve it.
pub proof fn lemma_ulid_lawful()
    ensures
        super::lawful(&UlidEncoding),
        forall|k: Seq<u8>|
            UlidEncoding.read_text(#[trigger] UlidEncoding.rendered(k)) == Some(k),
{
    lemma_ascii_lawful();
    let e = UlidEncoding;
    assert(forall|a: Seq<u8>, b: Seq<u8>| #[trigger] e.sign(a, b) == AsciiEncoding.sign(a, b));
    assert(forall|a: Seq<u8>| #[trigger] e.accepts(a) ==> AsciiEncoding.accepts(a));
    assert forall|k: Seq<u8>| e.read_text(#[trigger] e.rendered(k)) == Some(k) by {
        text::lemma_hex_reads_back(k);
    }
}

} // verus!
