//! Byte-lexicographic order, and the digest that preserves it.

use vstd::prelude::*;

use super::KeyOrder;

verus! {

/// How two byte strings compare from position `i` on: byte by byte, and a string that
/// ends first sorts first.
pub open spec fn lex_from(a: Seq<u8>, b: Seq<u8>, i: int) -> int
    decreases a.len() - i,
{
    if i >= a.len() || i >= b.len() {
        if b.len() > a.len() {
            -1
        } else if b.len() < a.len() {
            1
        } else {
            0
        }
    } else if a[i] < b[i] {
        -1
    } else if a[i] > b[i] {
        1
    } else {
        lex_from(a, b, i + 1)
    }
}

/// Byte-lexicographic order.
pub open spec fn lex(a: Seq<u8>, b: Seq<u8>) -> int {
    lex_from(a, b, 0)
}

/// Equal strings, and only those, compare as equal.
pub proof fn lemma_lex_equal(a: Seq<u8>, b: Seq<u8>, i: int)
    requires
        0 <= i,
    ensures
        lex_from(a, b, i) == 0 <==> a.len() == b.len() && forall|j: int|
            i <= j < a.len() ==> a[j] == b[j],
    decreases a.len() - i,
{
    if i < a.len() && i < b.len() && a[i] == b[i] {
        lemma_lex_equal(a, b, i + 1);
    }
}

/// Swapping the strings flips the order.
pub proof fn lemma_lex_flip(a: Seq<u8>, b: Seq<u8>, i: int)
    requires
        0 <= i,
    ensures
        lex_from(a, b, i) == -lex_from(b, a, i),
    decreases a.len() - i,
{
    if i < a.len() && i < b.len() && a[i] == b[i] {
        lemma_lex_flip(a, b, i + 1);
    }
}

/// The order is transitive.
pub proof fn lemma_lex_transitive(a: Seq<u8>, b: Seq<u8>, c: Seq<u8>, i: int)
    requires
        0 <= i,
        lex_from(a, b, i) <= 0,
        lex_from(b, c, i) <= 0,
    ensures
        lex_from(a, c, i) <= 0,
        lex_from(a, c, i) == 0 ==> lex_from(a, b, i) == 0 && lex_from(b, c, i) == 0,
    decreases a.len() - i,
{
    if i < a.len() && i < b.len() && i < c.len() && a[i] == b[i] && b[i] == c[i] {
        lemma_lex_transitive(a, b, c, i + 1);
    }
}

/// The byte at `i`, or zero past the end.
pub open spec fn byte_or_zero(k: Seq<u8>, i: int) -> int {
    if 0 <= i < k.len() {
        k[i] as int
    } else {
        0
    }
}

/// The first `n` bytes read as one big-endian number, zero padded.
pub open spec fn big_endian(k: Seq<u8>, n: nat) -> int
    decreases n,
{
    if n == 0 {
        0
    } else {
        0x100 * big_endian(k, (n - 1) as nat) + byte_or_zero(k, n - 1)
    }
}

/// Eight bytes are a 64-bit number.
pub proof fn lemma_big_endian_bounds(k: Seq<u8>)
    ensures
        0 <= big_endian(k, 8) <= u64::MAX,
{
    reveal_with_fuel(big_endian, 9);
}

/// Strings that agree up to `i` and order from there have digests that do not disagree.
pub proof fn lemma_big_endian_order(a: Seq<u8>, b: Seq<u8>, i: int, n: nat)
    requires
        0 <= i,
        lex_from(a, b, i) <= 0,
        big_endian(a, i as nat) == big_endian(b, i as nat),
        i <= n,
    ensures
        big_endian(a, n) <= big_endian(b, n),
    decreases n - i,
{
    if i < n {
        if i < a.len() && i < b.len() && a[i] == b[i] {
            lemma_big_endian_order(a, b, i + 1, n);
        } else if i >= a.len() {
            lemma_padded_below(a, b, i as nat, n);
        } else {
            // The byte at `i` decides, whatever follows.
            lemma_decided(a, b, (i + 1) as nat, n);
        }
    }
}

/// A string that has ended is below any continuation.
proof fn lemma_padded_below(a: Seq<u8>, b: Seq<u8>, i: nat, n: nat)
    requires
        i <= n,
        a.len() <= i,
        big_endian(a, i) <= big_endian(b, i),
    ensures
        big_endian(a, n) <= big_endian(b, n),
    decreases n - i,
{
    if i < n {
        lemma_padded_below(a, b, i + 1, n);
    }
}

/// A difference is not made up for by what follows.
proof fn lemma_decided(a: Seq<u8>, b: Seq<u8>, i: nat, n: nat)
    requires
        i <= n,
        big_endian(a, i) < big_endian(b, i),
    ensures
        big_endian(a, n) < big_endian(b, n),
    decreases n - i,
{
    if i < n {
        lemma_decided(a, b, i + 1, n);
    }
}

/// Compares two byte strings from `start` on.
pub fn lex_order(a: &[u8], b: &[u8], start: usize) -> (r: KeyOrder)
    ensures
        r == KeyOrder::of_sign(lex_from(a@, b@, start as int)),
{
    let mut i: usize = start;
    while i < a.len() && i < b.len()
        invariant
            start <= i,
            lex_from(a@, b@, start as int) == lex_from(a@, b@, i as int),
        decreases a@.len() - i,
    {
        if a[i] < b[i] {
            return KeyOrder::Less;
        }
        if a[i] > b[i] {
            return KeyOrder::Greater;
        }
        i += 1;
    }
    if a.len() < b.len() {
        KeyOrder::Less
    } else if a.len() > b.len() {
        KeyOrder::Greater
    } else {
        KeyOrder::Equal
    }
}

} // verus!
