//! What the order, the digest and the text of keys mean.

use vstd::prelude::*;

use super::builtin::{
    self, uuid_fields, uuid_read, uuid_swapped, uuid_text, without_dashes, AsciiEncoding,
    Int64Encoding, UlidEncoding, Uuidv7Encoding,
};
use super::duplicate::{self, DuplicateKeyEncoding};
use super::order;
use super::{KeyEncoding, SharedEncoding};
use crate::format::bytes;
use crate::text;

verus! {

broadcast use crate::format::group_format;

/// Byte order is decided where two strings first differ, or by which of them ends first.
pub proof fn lemma_lex_meaning(a: Seq<u8>, b: Seq<u8>)
    ensures
        order::lex(a, b) == 0 <==> a == b,
        order::lex(a, b) < 0 <==> exists|i: int|
            0 <= i <= a.len() && i <= b.len() && #[trigger] a.subrange(0, i) == b.subrange(0, i) && {
                ||| i == a.len() && i < b.len()
                ||| i < a.len() && i < b.len() && a[i] < b[i]
            },
        order::lex(a, b) < 0 <==> order::lex(b, a) > 0,
{
    order::lemma_lex_equal(a, b, 0);
    order::lemma_lex_flip(a, b, 0);
    assert(order::lex(a, b) == 0 ==> a =~= b);
    assert(a.subrange(0, 0) =~= b.subrange(0, 0));
    lemma_lex_from(a, b, 0);
}

proof fn lemma_lex_from(a: Seq<u8>, b: Seq<u8>, k: int)
    requires
        0 <= k <= a.len(),
        k <= b.len(),
        a.subrange(0, k) == b.subrange(0, k),
    ensures
        order::lex_from(a, b, k) < 0 <==> exists|i: int|
            0 <= i <= a.len() && i <= b.len() && #[trigger] a.subrange(0, i) == b.subrange(0, i) && {
                ||| i == a.len() && i < b.len()
                ||| i < a.len() && i < b.len() && a[i] < b[i]
            },
    decreases a.len() - k,
{
    if k < a.len() && k < b.len() && a[k] == b[k] {
        assert(a.subrange(0, k + 1) =~= b.subrange(0, k + 1)) by {
            assert forall|j: int| 0 <= j < k + 1 implies a[j] == b[j] by {
                if j < k {
                    assert(a.subrange(0, k)[j] == a[j]);
                    assert(b.subrange(0, k)[j] == b[j]);
                }
            }
        }
        lemma_lex_from(a, b, k + 1);
    } else {
        assert forall|i: int|
            0 <= i <= a.len() && i <= b.len() && #[trigger] a.subrange(0, i) == b.subrange(0, i)
                && (i == a.len() && i < b.len() || i < a.len() && i < b.len() && a[i]
                < b[i]) implies i == k by {
            if i < k {
                assert(a.subrange(0, k)[i] == a[i]);
                assert(b.subrange(0, k)[i] == b[i]);
            } else if i > k {
                assert(a.subrange(0, i)[k] == a[k]);
                assert(b.subrange(0, i)[k] == b[k]);
            }
        }
    }
}

/// The digest of a byte string is its first eight bytes as one number, the first byte counting
/// most, with zeros where it has fewer.
pub proof fn lemma_big_endian_meaning(k: Seq<u8>)
    ensures
        k.len() >= 8 ==> order::big_endian(k, 8) == 0x100_0000_0000_0000 * k[0] + 0x1_0000_0000_0000
            * k[1] + 0x100_0000_0000 * k[2] + 0x1_0000_0000 * k[3] + 0x100_0000 * k[4] + 0x1_0000
            * k[5] + 0x100 * k[6] + k[7],
        k.len() < 8 ==> order::big_endian(k, 8) == order::big_endian(k.push(0), 8),
{
    reveal_with_fuel(order::big_endian, 9);
}

/// Numbers that are the same are made of the same bytes.
proof fn lemma_big_endian_equal(a: Seq<u8>, b: Seq<u8>, n: nat)
    requires
        n <= a.len(),
        n <= b.len(),
        order::big_endian(a, n) == order::big_endian(b, n),
    ensures
        forall|i: int| 0 <= i < n ==> #[trigger] a[i] == b[i],
    decreases n,
{
    if n > 0 {
        let m = (n - 1) as nat;
        lemma_big_endian_equal(a, b, m);
    }
}

proof fn lemma_lex_skip(a: Seq<u8>, b: Seq<u8>, i: int, n: int)
    requires
        0 <= i <= n,
        n <= a.len(),
        n <= b.len(),
        forall|j: int| i <= j < n ==> #[trigger] a[j] == b[j],
    ensures
        order::lex_from(a, b, i) == order::lex_from(a, b, n),
    decreases n - i,
{
    if i < n {
        assert(a[i] == b[i]);
        lemma_lex_skip(a, b, i + 1, n);
    }
}

proof fn lemma_lex_same(a: Seq<u8>, b: Seq<u8>, c: Seq<u8>, d: Seq<u8>, i: int)
    requires
        0 <= i,
        a.len() == c.len(),
        b.len() == d.len(),
        forall|j: int| i <= j < a.len() ==> #[trigger] a[j] == c[j],
        forall|j: int| i <= j < b.len() ==> #[trigger] b[j] == d[j],
    ensures
        order::lex_from(a, b, i) == order::lex_from(c, d, i),
    decreases a.len() - i,
{
    if i < a.len() && i < b.len() {
        assert(a[i] == c[i] && b[i] == d[i]);
        lemma_lex_same(a, b, c, d, i + 1);
    }
}

/// `i64` keys order as the numbers they store, and so do their digests, which count up from the
/// least number.
pub proof fn lemma_int64_order(v: i64, w: i64)
    ensures
        ({
            let (a, b) = (bytes::le8(v as int), bytes::le8(w as int));
            &&& Int64Encoding.accepts(a)
            &&& Int64Encoding.well_formed(a)
            &&& Int64Encoding.sign(a, b) < 0 <==> v < w
            &&& Int64Encoding.sign(a, b) > 0 <==> v > w
            &&& Int64Encoding.digest_of(a) - Int64Encoding.digest_of(b) == v - w
            &&& v == i64::MIN ==> Int64Encoding.digest_of(a) == 0
            &&& Int64Encoding.admits(a, Int64Encoding.digest_of(a))
            &&& Int64Encoding.rebuilt(Int64Encoding.digest_of(a)) == Some(a)
        }),
{
    Int64Encoding::lemma_round_trip(v);
    Int64Encoding::lemma_round_trip(w);
    builtin::lemma_int64_lawful();
}

/// Which byte strings are keys: eight bytes for numbers, sixteen for the two kinds of ids, any for
/// byte strings.
pub proof fn lemma_key_widths(k: Seq<u8>)
    ensures
        Int64Encoding.well_formed(k) <==> exists|v: i64| k == #[trigger] bytes::le8(v as int),
        Int64Encoding.well_formed(k) <==> k.len() == 8,
        Uuidv7Encoding.well_formed(k) <==> k.len() == 16,
        UlidEncoding.well_formed(k) <==> k.len() == 16,
        AsciiEncoding.well_formed(k),
        Int64Encoding.width() == Some(8usize),
        Uuidv7Encoding.width() == Some(16usize),
        UlidEncoding.width() == Some(16usize),
        AsciiEncoding.width() is None,
        Int64Encoding.rebuilt_len() == Some(8usize),
        Uuidv7Encoding.rebuilt_len() is None,
        UlidEncoding.rebuilt_len() is None,
        AsciiEncoding.rebuilt_len() is None,
{
    if k.len() == 8 {
        builtin::lemma_i64_bytes(k);
        assert(k == bytes::le8(builtin::i64_of(k) as i64 as int));
    }
}

/// `ascii` and `ulid` keys order by their bytes, and their digests are their first eight bytes.
pub proof fn lemma_byte_keys(a: Seq<u8>, b: Seq<u8>)
    ensures
        AsciiEncoding.sign(a, b) < 0 <==> order::lex(a, b) < 0,
        AsciiEncoding.sign(a, b) > 0 <==> order::lex(a, b) > 0,
        UlidEncoding.sign(a, b) < 0 <==> order::lex(a, b) < 0,
        UlidEncoding.sign(a, b) > 0 <==> order::lex(a, b) > 0,
        AsciiEncoding.accepts(a),
        UlidEncoding.accepts(a),
        AsciiEncoding.digest_of(a) == order::big_endian(a, 8),
        UlidEncoding.digest_of(a) == order::big_endian(a, 8),
        AsciiEncoding.rebuilt(AsciiEncoding.digest_of(a)) is None,
        UlidEncoding.rebuilt(UlidEncoding.digest_of(a)) is None,
{
    order::lemma_big_endian_bounds(a);
}

/// The canonical form of a stored UUID: the three leading fields, which are stored with the byte
/// that counts least first, are read with the byte that counts most first. The rest is the same.
pub proof fn lemma_uuid_layout(k: Seq<u8>)
    requires
        k.len() == 16,
    ensures
        ({
            let c = uuid_swapped(k);
            &&& c.len() == 16
            &&& order::big_endian(c, 4) == bytes::u32_at(k, 0)
            &&& order::big_endian(c.subrange(4, 6), 2) == bytes::u16_at(k, 4)
            &&& order::big_endian(c.subrange(6, 8), 2) == bytes::u16_at(k, 6)
            &&& c.subrange(8, 16) == k.subrange(8, 16)
            &&& uuid_swapped(c) == k
        }),
{
    let c = uuid_swapped(k);
    reveal(bytes::u16_at);
    reveal_with_fuel(order::big_endian, 5);
    assert(c.subrange(8, 16) =~= k.subrange(8, 16));
    builtin::lemma_uuid_swap_involution(k);
}

/// `uuidv7` keys order by the bytes of the canonical UUIDs they store, and their digest is the
/// first eight of those.
pub proof fn lemma_uuid_order(a: Seq<u8>, b: Seq<u8>)
    requires
        a.len() == 16,
        b.len() == 16,
    ensures
        Uuidv7Encoding.accepts(a),
        Uuidv7Encoding.sign(a, b) < 0 <==> order::lex(uuid_swapped(a), uuid_swapped(b)) < 0,
        Uuidv7Encoding.sign(a, b) > 0 <==> order::lex(uuid_swapped(a), uuid_swapped(b)) > 0,
        Uuidv7Encoding.digest_of(a) == order::big_endian(uuid_swapped(a), 8),
        Uuidv7Encoding.rebuilt(Uuidv7Encoding.digest_of(a)) is None,
{
    let (x, y) = (uuid_swapped(a), uuid_swapped(b));
    lemma_uuid_number(a);
    lemma_uuid_number(b);
    order::lemma_lex_flip(x, y, 0);
    order::lemma_big_endian_bounds(x);
    order::lemma_big_endian_bounds(y);
    assert(order::big_endian(x, 0) == order::big_endian(y, 0));
    if order::lex(x, y) <= 0 {
        order::lemma_big_endian_order(x, y, 0, 8);
    }
    if order::lex(y, x) <= 0 {
        order::lemma_big_endian_order(y, x, 0, 8);
    }
    if order::big_endian(x, 8) == order::big_endian(y, 8) {
        lemma_big_endian_equal(x, y, 8);
        lemma_lex_skip(x, y, 0, 8);
        assert forall|j: int| 8 <= j < 16 implies #[trigger] x[j] == a[j] by {}
        assert forall|j: int| 8 <= j < 16 implies #[trigger] y[j] == b[j] by {}
        lemma_lex_same(x, y, a, b, 8);
    }
}

proof fn lemma_uuid_number(k: Seq<u8>)
    requires
        k.len() == 16,
    ensures
        uuid_fields(k) == order::big_endian(uuid_swapped(k), 8),
{
    reveal(bytes::u16_at);
    reveal_with_fuel(order::big_endian, 9);
}

/// An encoding says that it orders keys by their bytes if and only if it does, so that a prefix
/// query is refused only where a prefix is no range of keys.
pub proof fn lemma_byte_order_said()
    ensures
        AsciiEncoding.lexicographic() <==> forall|a: Seq<u8>, b: Seq<u8>|
            AsciiEncoding.accepts(a) && AsciiEncoding.accepts(b) ==> (#[trigger] AsciiEncoding.sign(
                a,
                b,
            ) < 0 <==> order::lex(a, b) < 0),
        UlidEncoding.lexicographic() <==> forall|a: Seq<u8>, b: Seq<u8>|
            UlidEncoding.accepts(a) && UlidEncoding.accepts(b) ==> (#[trigger] UlidEncoding.sign(
                a,
                b,
            ) < 0 <==> order::lex(a, b) < 0),
        Int64Encoding.lexicographic() <==> forall|a: Seq<u8>, b: Seq<u8>|
            Int64Encoding.accepts(a) && Int64Encoding.accepts(b) ==> (#[trigger] Int64Encoding.sign(
                a,
                b,
            ) < 0 <==> order::lex(a, b) < 0),
        Uuidv7Encoding.lexicographic() <==> forall|a: Seq<u8>, b: Seq<u8>|
            Uuidv7Encoding.accepts(a) && Uuidv7Encoding.accepts(b) ==> (
            #[trigger] Uuidv7Encoding.sign(a, b) < 0 <==> order::lex(a, b) < 0),
        AsciiEncoding.lexicographic(),
        UlidEncoding.lexicographic(),
{
    let (x, y) = (bytes::le8(1), bytes::le8(256));
    reveal(bytes::le2);
    reveal(bytes::u16_at);
    assert(Int64Encoding.sign(x, y) < 0 && x[0] > y[0]) by {
        Int64Encoding::lemma_round_trip(1);
        Int64Encoding::lemma_round_trip(256);
    }
    assert(order::lex(x, y) > 0);
    let zero = Seq::new(16, |i: int| 0u8);
    let (u, v) = (zero.update(0, 1), zero.update(1, 1));
    assert(uuid_fields(u) < uuid_fields(v));
    assert(Uuidv7Encoding.sign(u, v) < 0);
    assert(order::lex(u, v) > 0);
}

/// An encoding says that its digests determine its keys if and only if they do.
pub proof fn lemma_exactness_said()
    ensures
        Int64Encoding.exact() <==> forall|a: Seq<u8>, b: Seq<u8>|
            Int64Encoding.accepts(a) && Int64Encoding.accepts(b) && Int64Encoding.digest_of(a)
                == Int64Encoding.digest_of(b) ==> #[trigger] Int64Encoding.sign(a, b) == 0,
        AsciiEncoding.exact() <==> forall|a: Seq<u8>, b: Seq<u8>|
            AsciiEncoding.accepts(a) && AsciiEncoding.accepts(b) && AsciiEncoding.digest_of(a)
                == AsciiEncoding.digest_of(b) ==> #[trigger] AsciiEncoding.sign(a, b) == 0,
        UlidEncoding.exact() <==> forall|a: Seq<u8>, b: Seq<u8>|
            UlidEncoding.accepts(a) && UlidEncoding.accepts(b) && UlidEncoding.digest_of(a)
                == UlidEncoding.digest_of(b) ==> #[trigger] UlidEncoding.sign(a, b) == 0,
        Uuidv7Encoding.exact() <==> forall|a: Seq<u8>, b: Seq<u8>|
            Uuidv7Encoding.accepts(a) && Uuidv7Encoding.accepts(b) && Uuidv7Encoding.digest_of(a)
                == Uuidv7Encoding.digest_of(b) ==> #[trigger] Uuidv7Encoding.sign(a, b) == 0,
        Int64Encoding.exact(),
{
    let (x, y) = (Seq::<u8>::empty(), seq![0u8]);
    reveal_with_fuel(order::big_endian, 9);
    assert(AsciiEncoding.digest_of(x) == AsciiEncoding.digest_of(y));
    assert(AsciiEncoding.sign(x, y) != 0);
    assert(UlidEncoding.digest_of(x) == UlidEncoding.digest_of(y));
    assert(UlidEncoding.sign(x, y) != 0);
    let zero = Seq::new(16, |i: int| 0u8);
    let one = zero.update(15, 1);
    reveal(bytes::u16_at);
    assert(uuid_fields(zero) == uuid_fields(one));
    order::lemma_lex_equal(zero, one, 8);
    assert(zero[15] != one[15]);
    assert(Uuidv7Encoding.sign(zero, one) != 0);
}

/// Composite keys order by index key and then by record id, whatever the index keys are.
pub proof fn lemma_composite_order(
    source: SharedEncoding,
    a: Seq<u8>,
    b: Seq<u8>,
    i: i32,
    j: i32,
)
    requires
        0 <= i,
        0 <= j,
        source.inner.accepts(a),
        source.inner.accepts(b),
    ensures
        ({
            let e = DuplicateKeyEncoding { source };
            let (x, y) = (duplicate::composite(a, i as int), duplicate::composite(b, j as int));
            &&& x.len() == a.len() + 4
            &&& x.subrange(0, a.len() as int) == a
            &&& bytes::u32_at(x, a.len() as int) == i
            &&& e.accepts(x)
            &&& e.sign(x, y) < 0 <==> source.inner.sign(a, b) < 0 || source.inner.sign(a, b) == 0
                && i < j
            &&& e.sign(x, y) > 0 <==> source.inner.sign(a, b) > 0 || source.inner.sign(a, b) == 0
                && i > j
            &&& e.digest_of(x) == source.inner.digest_of(a)
            &&& e.admits(x, source.inner.digest_of(a))
            &&& e.name() == source.inner.name()
            &&& !e.lexicographic()
            &&& !e.exact()
            &&& source.inner.width() matches Some(n) ==> (n <= usize::MAX - 4 ==> (e.well_formed(x)
                <==> a.len() == n))
        }),
{
    duplicate::lemma_split_composite(a, i as int);
    duplicate::lemma_split_composite(b, j as int);
    let x = duplicate::composite(a, i as int);
    assert(x.subrange(0, a.len() as int) =~= a);
    let n = a.len() as int;
    assert(x.subrange(n, n + 4) =~= bytes::le4(i as int));
    bytes::lemma_u32_read_back(x, n, i as int);
}

proof fn lemma_without_dashes_joined(a: Seq<char>, b: Seq<char>)
    ensures
        without_dashes(a + b) == without_dashes(a) + without_dashes(b),
    decreases b.len(),
{
    if b.len() == 0 {
        assert(a + b =~= a);
        assert(without_dashes(a) + without_dashes(b) =~= without_dashes(a));
    } else {
        assert((a + b).drop_last() =~= a + b.drop_last());
        lemma_without_dashes_joined(a, b.drop_last());
        assert(without_dashes(a + b) =~= without_dashes(a) + without_dashes(b));
    }
}

proof fn lemma_hex_has_no_dash(t: Seq<char>, k: Seq<u8>)
    requires
        t.len() <= text::hex_text(k).len(),
        t == text::hex_text(k).subrange(0, t.len() as int),
    ensures
        without_dashes(t) == t,
    decreases t.len(),
{
    if t.len() > 0 {
        let front = t.drop_last();
        assert(front =~= text::hex_text(k).subrange(0, front.len() as int));
        lemma_hex_has_no_dash(front, k);
        assert(t.last() == text::hex_text(k)[t.len() - 1]);
        assert(t.last() != '-');
        assert(front.push(t.last()) =~= t);
    }
}

/// What a dash in front of, or behind, the hex of some bytes leaves without it.
proof fn lemma_dashed(k: Seq<u8>)
    ensures
        without_dashes(text::hex_text(k)) == text::hex_text(k),
        without_dashes(text::hex_text(k).push('-')) == text::hex_text(k),
{
    let t = text::hex_text(k);
    assert(t.subrange(0, t.len() as int) =~= t);
    lemma_hex_has_no_dash(t, k);
    assert(t.push('-').drop_last() =~= t);
}

/// The text of a UUID is the hex of its canonical bytes with four dashes, after eight, twelve,
/// sixteen and twenty digits, and it reads back as the key.
pub proof fn lemma_uuid_text(key: Seq<u8>)
    requires
        key.len() == 16,
    ensures
        ({
            let t = Uuidv7Encoding.rendered(key);
            &&& t.len() == 36
            &&& t[8] == '-' && t[13] == '-' && t[18] == '-' && t[23] == '-'
            &&& without_dashes(t) == text::hex_text(uuid_swapped(key))
            &&& Uuidv7Encoding.read_text(t) == Some(key)
        }),
{
    let c = uuid_swapped(key);
    let t = uuid_text(c);
    builtin::lemma_uuid_swap_involution(key);
    let (p, q, r, s, u) = (
        c.subrange(0, 4),
        c.subrange(4, 6),
        c.subrange(6, 8),
        c.subrange(8, 10),
        c.subrange(10, 16),
    );
    lemma_dashed(p);
    lemma_dashed(q);
    lemma_dashed(r);
    lemma_dashed(s);
    lemma_dashed(u);
    let (hp, hq, hr, hs, hu) = (
        text::hex_text(p).push('-'),
        text::hex_text(q).push('-'),
        text::hex_text(r).push('-'),
        text::hex_text(s).push('-'),
        text::hex_text(u),
    );
    lemma_without_dashes_joined(hp, hq);
    lemma_without_dashes_joined(hp + hq, hr);
    lemma_without_dashes_joined(hp + hq + hr, hs);
    lemma_without_dashes_joined(hp + hq + hr + hs, hu);
    let bare = text::hex_text(c);
    assert(without_dashes(t) =~= bare);
    assert(t[8] == '-');
    assert(t.contains('-'));
    assert(t[0] == bare[0] && t[35] == bare[31]);
    assert(!text::white_space(t[0]) && !text::white_space(t.last()));
    assert(text::trimmed(t) == t);
    text::lemma_hex_reads_back(c);
    vstd::utf8::is_ascii_chars_encode_utf8(bare);
    assert(uuid_read(t) == Some(key));
}

/// A byte of an `ascii` key reads as itself where it is printable, but for the backslash, which is
/// doubled; any other byte as a backslash, an `x` and its two hex digits.
pub proof fn lemma_escaped(key: Seq<u8>, b: u8)
    ensures
        AsciiEncoding.rendered(Seq::empty()) == Seq::<char>::empty(),
        AsciiEncoding.rendered(key.push(b)) == AsciiEncoding.rendered(key)
            + builtin::escaped_byte(b),
        b == 0x5c ==> builtin::escaped_byte(b) == seq!['\\', '\\'],
        0x20 <= b <= 0x7e && b != 0x5c ==> builtin::escaped_byte(b) == seq![b as char],
        b < 0x20 || b > 0x7e ==> builtin::escaped_byte(b) == seq!['\\', 'x'] + text::hex_text(
            seq![b],
        ),
{
    assert(key.push(b).drop_last() =~= key);
    if b < 0x20 || b > 0x7e {
        let t = text::hex_text(seq![b]);
        assert(t.len() == 2);
        assert(builtin::escaped_byte(b) =~= seq!['\\', 'x'] + t);
    }
}

/// A composite key reads as its index key, a dash, and its record id.
pub proof fn lemma_composite_text(source: SharedEncoding, k: Seq<u8>, rid: i32)
    requires
        0 <= rid,
    ensures
        (DuplicateKeyEncoding { source }).rendered(duplicate::composite(k, rid as int))
            == source.inner.rendered(k).push('-') + crate::error::decimal(rid as nat),
{
    duplicate::lemma_split_composite(k, rid as int);
}

/// An `i64` key reads as the number it stores, and a text of digits with or without a sign reads as
/// the number that they are, white space around it or not.
pub proof fn lemma_int64_text(v: i64)
    ensures
        Int64Encoding.rendered(bytes::le8(v as int)) == (if v < 0 {
            seq!['-'] + crate::error::decimal((-v) as nat)
        } else {
            crate::error::decimal(v as nat)
        }),
        Int64Encoding.read_text(Int64Encoding.rendered(bytes::le8(v as int))) == Some(
            bytes::le8(v as int),
        ),
{
    Int64Encoding::lemma_round_trip(v);
    builtin::lemma_int64_text_round_trip(bytes::le8(v as int));
}

} // verus!
