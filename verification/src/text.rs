//! Text forms: decimal integers, hex strings, trimming.

use vstd::prelude::*;
use vstd::string::*;
use vstd::utf8::*;

use crate::error::{self, Error, ErrorKind};

verus! {

/// `String::push` appends the character.
pub assume_specification[ String::push ](s: &mut String, c: char)
    ensures
        final(s)@ == old(s)@.push(c),
;

/// Whether a character has the Unicode `White_Space` property.
pub open spec fn white_space(c: char) -> bool {
    ||| 0x09 <= c as u32 <= 0x0D
    ||| c as u32 == 0x20
    ||| c as u32 == 0x85
    ||| c as u32 == 0xA0
    ||| c as u32 == 0x1680
    ||| 0x2000 <= c as u32 <= 0x200A
    ||| c as u32 == 0x2028
    ||| c as u32 == 0x2029
    ||| c as u32 == 0x202F
    ||| c as u32 == 0x205F
    ||| c as u32 == 0x3000
}

/// Whether a character is white space.
fn is_space(c: char) -> (r: bool)
    ensures
        r == white_space(c),
{
    let n = c as u32;
    (0x09 <= n && n <= 0x0D) || n == 0x20 || n == 0x85 || n == 0xA0 || n == 0x1680 || (0x2000 <= n
        && n <= 0x200A) || n == 0x2028 || n == 0x2029 || n == 0x202F || n == 0x205F || n == 0x3000
}

/// `s` without the white space it starts with.
pub open spec fn trim_start(s: Seq<char>) -> Seq<char>
    decreases s.len(),
{
    if s.len() > 0 && white_space(s[0]) {
        trim_start(s.subrange(1, s.len() as int))
    } else {
        s
    }
}

/// `s` without the white space it ends with.
pub open spec fn trim_end(s: Seq<char>) -> Seq<char>
    decreases s.len(),
{
    if s.len() > 0 && white_space(s.last()) {
        trim_end(s.drop_last())
    } else {
        s
    }
}

/// `s` without the white space around it.
pub open spec fn trimmed(s: Seq<char>) -> Seq<char> {
    trim_end(trim_start(s))
}

/// The characters of a text.
pub fn chars_of(text: &str) -> (r: Vec<char>)
    ensures
        r@ == text@,
{
    let n = text.unicode_len();
    let mut out: Vec<char> = Vec::new();
    let mut i: usize = 0;
    while i < n
        invariant
            n == text@.len(),
            i <= n,
            out@ == text@.subrange(0, i as int),
        decreases n - i,
    {
        out.push(text.get_char(i));
        i += 1;
        proof {
            assert(out@ =~= text@.subrange(0, i as int));
        }
    }
    proof {
        assert(out@ =~= text@);
    }
    out
}

/// The characters of a text without the white space around it.
pub fn trimmed_chars(text: &str) -> (r: Vec<char>)
    ensures
        r@ == trimmed(text@),
{
    let all = chars_of(text);
    let mut start: usize = 0;
    proof {
        assert(all@.subrange(0, all@.len() as int) =~= all@);
    }
    while start < all.len() && is_space(all[start])
        invariant
            start <= all@.len(),
            trim_start(all@) == trim_start(all@.subrange(start as int, all@.len() as int)),
        decreases all@.len() - start,
    {
        proof {
            let rest = all@.subrange(start as int, all@.len() as int);
            assert(rest.subrange(1, rest.len() as int) =~= all@.subrange(
                start + 1,
                all@.len() as int,
            ));
        }
        start += 1;
    }
    let ghost front = all@.subrange(start as int, all@.len() as int);
    proof {
        assert(start < all@.len() ==> front[0] == all@[start as int]);
        assert(trim_start(all@) == front);
    }
    let mut end: usize = all.len();
    proof {
        assert(all@.subrange(start as int, end as int) =~= front);
    }
    while end > start && is_space(all[end - 1])
        invariant
            start <= end <= all@.len(),
            trim_end(front) == trim_end(all@.subrange(start as int, end as int)),
        decreases end,
    {
        proof {
            let rest = all@.subrange(start as int, end as int);
            assert(rest.drop_last() =~= all@.subrange(start as int, end - 1));
        }
        end -= 1;
    }
    proof {
        let rest = all@.subrange(start as int, end as int);
        assert(end > start ==> rest.last() == all@[end - 1]);
        assert(trim_end(front) == rest);
    }
    let mut out: Vec<char> = Vec::new();
    let mut i: usize = start;
    while i < end
        invariant
            start <= i <= end <= all@.len(),
            out@ == all@.subrange(start as int, i as int),
        decreases end - i,
    {
        out.push(all[i]);
        i += 1;
        proof {
            assert(out@ =~= all@.subrange(start as int, i as int));
        }
    }
    out
}

/// A string of these characters.
pub fn string_of(chars: &Vec<char>) -> (r: String)
    ensures
        r@ == chars@,
{
    let mut out = String::new();
    let mut i: usize = 0;
    while i < chars.len()
        invariant
            i <= chars@.len(),
            out@ == chars@.subrange(0, i as int),
        decreases chars@.len() - i,
    {
        out.push(chars[i]);
        i += 1;
        proof {
            assert(out@ =~= chars@.subrange(0, i as int));
        }
    }
    proof {
        assert(out@ =~= chars@);
    }
    out
}

/// The number a decimal digit stands for.
pub open spec fn digit_value(c: char) -> Option<nat> {
    if '0' <= c <= '9' {
        Some((c as u32 - '0' as u32) as nat)
    } else {
        None
    }
}

/// The number a run of decimal digits stands for, if they are all digits.
pub open spec fn digits_value(s: Seq<char>) -> Option<nat>
    decreases s.len(),
{
    if s.len() == 0 {
        Some(0)
    } else {
        match (digits_value(s.drop_last()), digit_value(s.last())) {
            (Some(front), Some(d)) => Some(10 * front + d),
            _ => None,
        }
    }
}

/// The number a signed decimal stands for: an optional sign, then at least one digit.
pub open spec fn signed_value(s: Seq<char>) -> Option<int> {
    if s.len() > 0 && s[0] == '-' {
        match digits_value(s.subrange(1, s.len() as int)) {
            Some(n) if s.len() > 1 => Some(-n),
            _ => None,
        }
    } else if s.len() > 0 && s[0] == '+' {
        match digits_value(s.subrange(1, s.len() as int)) {
            Some(n) if s.len() > 1 => Some(n as int),
            _ => None,
        }
    } else {
        match digits_value(s) {
            Some(n) if s.len() > 0 => Some(n as int),
            _ => None,
        }
    }
}

/// The 64-bit number a signed decimal stands for.
pub open spec fn i64_value(s: Seq<char>) -> Option<int> {
    match signed_value(s) {
        Some(v) if -0x8000_0000_0000_0000 <= v < 0x8000_0000_0000_0000 => Some(v),
        _ => None,
    }
}

/// The text of a signed number.
pub open spec fn signed_decimal(v: int) -> Seq<char> {
    if v < 0 {
        seq!['-'] + error::decimal((-v) as nat)
    } else {
        error::decimal(v as nat)
    }
}

/// Digits further right only make the number larger.
proof fn lemma_digits_grow(s: Seq<char>, i: int)
    requires
        0 <= i <= s.len(),
        digits_value(s) is Some,
    ensures
        digits_value(s.subrange(0, i)) is Some,
        digits_value(s.subrange(0, i))->Some_0 <= digits_value(s)->Some_0,
    decreases s.len(),
{
    if i == s.len() {
        assert(s.subrange(0, i) =~= s);
    } else {
        assert(s.drop_last().subrange(0, i) =~= s.subrange(0, i));
        lemma_digits_grow(s.drop_last(), i);
    }
}

/// What a number's digits read back as.
pub proof fn lemma_decimal_reads_back(n: nat)
    ensures
        digits_value(error::decimal(n)) == Some(n),
        error::decimal(n).len() > 0,
        '0' <= error::decimal(n)[0] <= '9',
        '0' <= error::decimal(n).last() <= '9',
    decreases n,
{
    if n >= 10 {
        lemma_decimal_reads_back(n / 10);
        assert(error::decimal(n).drop_last() =~= error::decimal(n / 10));
        assert(error::decimal(n)[0] == error::decimal(n / 10)[0]);
    } else {
        assert(error::decimal(n).drop_last() =~= Seq::<char>::empty());
        assert(digits_value(Seq::<char>::empty()) == Some(0nat));
    }
}

/// The text of a signed number reads back as the number.
pub proof fn lemma_signed_decimal_reads_back(v: int)
    ensures
        signed_value(signed_decimal(v)) == Some(v),
        signed_decimal(v).len() > 0,
{
    if v < 0 {
        lemma_decimal_reads_back((-v) as nat);
        let s = signed_decimal(v);
        assert(s.subrange(1, s.len() as int) =~= error::decimal((-v) as nat));
    } else {
        lemma_decimal_reads_back(v as nat);
    }
}

/// Where the last dash of a text is, or -1.
pub open spec fn last_dash(s: Seq<char>) -> int
    decreases s.len(),
{
    if s.len() == 0 {
        -1
    } else if s.last() == '-' {
        s.len() - 1
    } else {
        last_dash(s.drop_last())
    }
}

/// The last dash is a dash, and nothing after it is one.
pub proof fn lemma_last_dash(s: Seq<char>)
    ensures
        -1 <= last_dash(s) < s.len(),
        last_dash(s) >= 0 ==> s[last_dash(s)] == '-',
        forall|i: int| last_dash(s) < i < s.len() ==> #[trigger] s[i] != '-',
    decreases s.len(),
{
    if s.len() > 0 && s.last() != '-' {
        lemma_last_dash(s.drop_last());
        assert forall|i: int| last_dash(s) < i < s.len() implies #[trigger] s[i] != '-' by {
            if i < s.len() - 1 {
                assert(s[i] == s.drop_last()[i]);
            }
        }
    }
}

/// Digits hold no dash, so the last dash of a text before some is the text's own.
pub proof fn lemma_dash_before_digits(front: Seq<char>, digits: Seq<char>)
    requires
        digits_value(digits) is Some,
    ensures
        last_dash(front.push('-') + digits) == front.len(),
    decreases digits.len(),
{
    let all = front.push('-') + digits;
    if digits.len() == 0 {
        assert(all.last() == '-');
    } else {
        assert(all.last() == digits.last());
        assert(all.drop_last() =~= front.push('-') + digits.drop_last());
        lemma_dash_before_digits(front, digits.drop_last());
    }
}

/// Where the last dash of some characters is.
pub(crate) fn find_last_dash(chars: &Vec<char>) -> (r: Option<usize>)
    ensures
        match r {
            Some(i) => i == last_dash(chars@),
            None => last_dash(chars@) < 0,
        },
{
    let mut n: usize = chars.len();
    proof {
        assert(chars@.subrange(0, n as int) =~= chars@);
    }
    while n > 0
        invariant
            n <= chars@.len(),
            last_dash(chars@.subrange(0, n as int)) == last_dash(chars@),
        decreases n,
    {
        let ghost upto = chars@.subrange(0, n as int);
        proof {
            assert(upto.drop_last() =~= chars@.subrange(0, n - 1));
        }
        if chars[n - 1] == '-' {
            return Some(n - 1);
        }
        n -= 1;
    }
    None
}

/// Reads the digits from `start` on; `None` when there is none, when one is not a digit,
/// or when the number is past 2^63.
pub(crate) fn read_digits(chars: &Vec<char>, start: usize) -> (r: Option<u64>)
    requires
        start <= chars@.len(),
    ensures
        ({
            let s = chars@.subrange(start as int, chars@.len() as int);
            match r {
                Some(n) => s.len() > 0 && digits_value(s) == Some(n as nat) && n
                    <= 0x8000_0000_0000_0000,
                None => s.len() == 0 || digits_value(s) is None || digits_value(s)->Some_0
                    > 0x8000_0000_0000_0000,
            }
        }),
{
    let ghost s = chars@.subrange(start as int, chars@.len() as int);
    if start == chars.len() {
        return None;
    }
    let mut value: u64 = 0;
    let mut i: usize = start;
    proof {
        assert(s.subrange(0, 0) =~= Seq::<char>::empty());
    }
    while i < chars.len()
        invariant
            start <= i <= chars@.len(),
            s == chars@.subrange(start as int, chars@.len() as int),
            digits_value(s.subrange(0, i - start)) == Some(value as nat),
            value <= 0x8000_0000_0000_0000,
        decreases chars@.len() - i,
    {
        let c = chars[i];
        let ghost upto = s.subrange(0, i + 1 - start);
        proof {
            assert(upto.drop_last() =~= s.subrange(0, i - start));
            assert(upto.last() == c);
            if digits_value(s) is Some {
                lemma_digits_grow(s, i + 1 - start);
            }
        }
        if !('0' <= c && c <= '9') {
            return None;
        }
        let d = c as u32 - '0' as u32;
        if value > 0x8000_0000_0000_0000 / 10 {
            return None;
        }
        value = value * 10 + d as u64;
        if value > 0x8000_0000_0000_0000 {
            return None;
        }
        i += 1;
    }
    proof {
        assert(s.subrange(0, i - start) =~= s);
    }
    Some(value)
}

/// Reads a signed 64-bit decimal, with white space around it.
pub fn parse_i64(text: &str) -> (r: Option<i64>)
    ensures
        match r {
            Some(v) => i64_value(trimmed(text@)) == Some(v as int),
            None => i64_value(trimmed(text@)) is None,
        },
{
    let chars = trimmed_chars(text);
    let ghost s = trimmed(text@);
    if chars.len() > 0 && chars[0] == '-' {
        match read_digits(&chars, 1) {
            Some(n) => if n == 0x8000_0000_0000_0000 {
                Some(i64::MIN)
            } else {
                Some(-(n as i64))
            },
            None => None,
        }
    } else if chars.len() > 0 && chars[0] == '+' {
        match read_digits(&chars, 1) {
            Some(n) => if n == 0x8000_0000_0000_0000 {
                None
            } else {
                Some(n as i64)
            },
            None => None,
        }
    } else {
        proof {
            assert(s.subrange(0, s.len() as int) =~= s);
        }
        match read_digits(&chars, 0) {
            Some(n) => if n == 0x8000_0000_0000_0000 {
                None
            } else {
                Some(n as i64)
            },
            None => None,
        }
    }
}

/// Appends a signed decimal.
pub fn push_signed(out: &mut String, v: i64)
    ensures
        final(out)@ == old(out)@ + signed_decimal(v as int),
{
    if v < 0 {
        out.push('-');
        let magnitude = (-(v as i128)) as u64;
        error::push_decimal(out, magnitude);
        proof {
            assert(out@ =~= old(out)@ + signed_decimal(v as int));
        }
    } else {
        error::push_decimal(out, v as u64);
    }
}

/// The lowercase hex digit of a number below sixteen.
pub open spec fn hex_char(d: int) -> char {
    if d < 10 {
        ('0' as u32 + d) as char
    } else {
        ('a' as u32 + (d - 10)) as char
    }
}

/// The number a hex digit stands for.
pub open spec fn hex_value(b: u8) -> Option<u8> {
    if 48 <= b <= 57 {
        Some((b - 48) as u8)
    } else if 97 <= b <= 102 {
        Some((b - 97 + 10) as u8)
    } else if 65 <= b <= 70 {
        Some((b - 65 + 10) as u8)
    } else {
        None
    }
}

/// The hex text of a byte string, two digits per byte.
pub open spec fn hex_text(k: Seq<u8>) -> Seq<char> {
    Seq::new(
        2 * k.len(),
        |i: int|
            if i % 2 == 0 {
                hex_char((k[i / 2] / 16) as int)
            } else {
                hex_char((k[i / 2] % 16) as int)
            },
    )
}

/// Whether these bytes are pairs of hex digits.
pub open spec fn is_hex(t: Seq<u8>) -> bool {
    t.len() % 2 == 0 && forall|i: int| 0 <= i < t.len() ==> #[trigger] hex_value(t[i]) is Some
}

/// The byte string a hex text stands for.
pub open spec fn hex_bytes(t: Seq<u8>) -> Option<Seq<u8>> {
    if is_hex(t) {
        Some(
            Seq::new(
                t.len() / 2,
                |i: int|
                    (16 * hex_value(t[2 * i])->Some_0 + hex_value(t[2 * i + 1])->Some_0) as u8,
            ),
        )
    } else {
        None
    }
}

/// The single hex digit of `d`.
pub(crate) fn hex_of(d: u8) -> (r: char)
    requires
        d < 16,
    ensures
        r == hex_char(d as int),
{
    match d {
        0 => '0',
        1 => '1',
        2 => '2',
        3 => '3',
        4 => '4',
        5 => '5',
        6 => '6',
        7 => '7',
        8 => '8',
        9 => '9',
        10 => 'a',
        11 => 'b',
        12 => 'c',
        13 => 'd',
        14 => 'e',
        _ => 'f',
    }
}

/// Appends the two hex digits of a byte.
pub fn push_hex_byte(out: &mut String, b: u8)
    ensures
        final(out)@ == old(out)@.push(hex_char((b / 16) as int)).push(hex_char((b % 16) as int)),
{
    out.push(hex_of(b / 16));
    out.push(hex_of(b % 16));
}

/// Appends the hex text of a byte string.
pub fn push_hex(out: &mut String, key: &[u8])
    ensures
        final(out)@ == old(out)@ + hex_text(key@),
{
    let mut i: usize = 0;
    while i < key.len()
        invariant
            i <= key@.len(),
            out@ == old(out)@ + hex_text(key@).subrange(0, 2 * i),
        decreases key@.len() - i,
    {
        push_hex_byte(out, key[i]);
        i += 1;
        proof {
            assert(out@ =~= old(out)@ + hex_text(key@).subrange(0, 2 * i));
        }
    }
    proof {
        assert(hex_text(key@).subrange(0, 2 * i) =~= hex_text(key@));
    }
}

/// The number a hex digit stands for.
pub fn hex_digit(byte: u8) -> (r: Result<u8, Error>)
    ensures
        match r {
            Ok(v) => hex_value(byte) == Some(v) && v < 16,
            Err(e) => hex_value(byte) is None && e.kind()
                == ErrorKind::InvalidArgument,
        },
{
    if 48 <= byte && byte <= 57 {
        Ok(byte - 48)
    } else if 97 <= byte && byte <= 102 {
        Ok(byte - 97 + 10)
    } else if 65 <= byte && byte <= 70 {
        Ok(byte - 65 + 10)
    } else {
        let mut message = "`".to_owned();
        message.push(byte as char);
        message.append("` is not a hex digit");
        Err(Error::from_text(ErrorKind::InvalidArgument, message))
    }
}

/// Reads a lowercase or uppercase hex string, which is what the default rendering is.
pub fn parse_hex_key(text: &str) -> (r: Result<Vec<u8>, Error>)
    ensures
        match r {
            Ok(k) => hex_bytes(text.spec_bytes()) == Some(k@),
            Err(e) => hex_bytes(text.spec_bytes()) is None && e.kind()
                == ErrorKind::InvalidArgument,
        },
{
    let bytes = text.as_bytes();
    let ghost t = text.spec_bytes();
    if bytes.len() % 2 != 0 {
        return Err(
            Error::from_text(
                ErrorKind::InvalidArgument,
                error::message_with(
                    "a hex key needs an even number of digits, got ",
                    bytes.len() as u64,
                    "",
                ),
            ),
        );
    }
    let mut out: Vec<u8> = Vec::new();
    let mut i: usize = 0;
    while i < bytes.len() / 2
        invariant
            bytes@ == t,
            t == text.spec_bytes(),
            t.len() % 2 == 0,
            i <= t.len() / 2,
            out@.len() == i,
            forall|j: int| 0 <= j < 2 * i ==> #[trigger] hex_value(t[j]) is Some,
            forall|j: int|
                0 <= j < i ==> #[trigger] out@[j] == (16 * hex_value(t[2 * j])->Some_0 + hex_value(
                    t[2 * j + 1],
                )->Some_0) as u8,
        decreases t.len() / 2 - i,
    {
        let high = match hex_digit(bytes[2 * i]) {
            Ok(v) => v,
            Err(e) => {
                proof {
                    assert(hex_value(t[2 * i]) is None);
                }
                return Err(e);
            },
        };
        let low = match hex_digit(bytes[2 * i + 1]) {
            Ok(v) => v,
            Err(e) => {
                proof {
                    assert(hex_value(t[2 * i + 1]) is None);
                }
                return Err(e);
            },
        };
        out.push(16 * high + low);
        i += 1;
    }
    proof {
        assert(is_hex(t));
        assert(hex_bytes(t)->Some_0 =~= out@);
    }
    Ok(out)
}

/// A hex rendering reads back as the bytes it renders.
pub proof fn lemma_hex_reads_back(k: Seq<u8>)
    ensures
        hex_bytes(encode_utf8(hex_text(k))) == Some(k),
        is_ascii_chars(hex_text(k)),
{
    let t = hex_text(k);
    assert(is_ascii_chars(t));
    is_ascii_chars_encode_utf8(t);
    let b = encode_utf8(t);
    assert(b.len() == t.len());
    assert forall|i: int| 0 <= i < b.len() implies #[trigger] hex_value(b[i]) is Some && hex_value(
        b[i],
    )->Some_0 == (if i % 2 == 0 {
        k[i / 2] / 16
    } else {
        k[i / 2] % 16
    }) by {
        assert(b[i] == t[i] as u8);
    }
    assert(hex_bytes(b)->Some_0 =~= k) by {
        assert forall|i: int| 0 <= i < k.len() implies #[trigger] hex_bytes(b)->Some_0[i]
            == k[i] by {
            assert(hex_value(b[2 * i]) is Some);
            assert(hex_value(b[2 * i + 1]) is Some);
        }
    }
}

/// The text that bytes stand for, when they are UTF-8: `std::str::from_utf8`, which accepts
/// exactly the byte strings that are valid UTF-8.
#[verifier::external_body]
pub(crate) fn utf8_text(bytes: &[u8]) -> (r: Option<String>)
    ensures
        match r {
            Some(t) => valid_utf8(bytes@) && t@ == decode_utf8(bytes@),
            None => !valid_utf8(bytes@),
        },
{
    match std::str::from_utf8(bytes) {
        Ok(text) => Some(text.to_owned()),
        Err(_) => None,
    }
}

/// A text's bytes are valid UTF-8 and stand for the text.
pub proof fn lemma_text_bytes(t: Seq<char>)
    ensures
        valid_utf8(encode_utf8(t)),
        decode_utf8(encode_utf8(t)) == t,
{
    encode_utf8_valid_utf8(t);
    encode_utf8_decode_utf8(t);
}

/// Trimming takes white space off both ends, all of it and nothing else.
pub proof fn lemma_trimmed(s: Seq<char>)
    ensures
        trimmed(s).len() > 0 ==> !white_space(trimmed(s)[0]) && !white_space(trimmed(s).last()),
        exists|a: int, b: int|
            0 <= a <= b <= s.len() && #[trigger] s.subrange(a, b) == trimmed(s) && (forall|i: int|
                0 <= i < a || b <= i < s.len() ==> white_space(#[trigger] s[i])),
{
    lemma_trim_start(s);
    let front = trim_start(s);
    lemma_trim_end(front);
    let a = s.len() - front.len();
    let b = a + trimmed(s).len();
    assert(s.subrange(a, b) =~= trimmed(s));
    assert forall|i: int| 0 <= i < a || b <= i < s.len() implies white_space(#[trigger] s[i]) by {
        if b <= i {
            assert(front[i - a] == s[i]);
        }
    }
    if trimmed(s).len() > 0 {
        assert(trimmed(s)[0] == front[0]);
    }
}

proof fn lemma_trim_start(s: Seq<char>)
    ensures
        trim_start(s).len() <= s.len(),
        trim_start(s) == s.subrange(s.len() - trim_start(s).len(), s.len() as int),
        trim_start(s).len() > 0 ==> !white_space(trim_start(s)[0]),
        forall|i: int| 0 <= i < s.len() - trim_start(s).len() ==> white_space(#[trigger] s[i]),
    decreases s.len(),
{
    if s.len() > 0 && white_space(s[0]) {
        let rest = s.subrange(1, s.len() as int);
        lemma_trim_start(rest);
        assert(trim_start(s) =~= s.subrange(s.len() - trim_start(s).len(), s.len() as int));
        assert forall|i: int| 0 <= i < s.len() - trim_start(s).len() implies white_space(
            #[trigger] s[i],
        ) by {
            if i > 0 {
                assert(rest[i - 1] == s[i]);
            }
        }
    } else {
        assert(s.subrange(0, s.len() as int) =~= s);
    }
}

proof fn lemma_trim_end(s: Seq<char>)
    ensures
        trim_end(s).len() <= s.len(),
        trim_end(s) == s.subrange(0, trim_end(s).len() as int),
        trim_end(s).len() > 0 ==> !white_space(trim_end(s).last()),
        forall|i: int| trim_end(s).len() <= i < s.len() ==> white_space(#[trigger] s[i]),
    decreases s.len(),
{
    if s.len() > 0 && white_space(s.last()) {
        lemma_trim_end(s.drop_last());
        assert(trim_end(s) =~= s.subrange(0, trim_end(s).len() as int));
        assert forall|i: int| trim_end(s).len() <= i < s.len() implies white_space(
            #[trigger] s[i],
        ) by {
            if i < s.len() - 1 {
                assert(s.drop_last()[i] == s[i]);
            }
        }
    } else {
        assert(s.subrange(0, s.len() as int) =~= s);
    }
}

/// A byte is written as two hex digits, the one that counts more first, and hex digits are read in
/// either case.
pub proof fn lemma_hex_digits(k: Seq<u8>, i: int)
    requires
        0 <= i < k.len(),
    ensures
        hex_text(k).len() == 2 * k.len(),
        ({
            let (a, b) = (hex_text(k)[2 * i], hex_text(k)[2 * i + 1]);
            &&& hex_value(a as u32 as u8) == Some((k[i] / 16) as u8)
            &&& hex_value(b as u32 as u8) == Some((k[i] % 16) as u8)
            &&& k[i] / 16 == 10 ==> a == 'a'
            &&& k[i] % 16 == 15 ==> b == 'f'
            &&& k[i] / 16 == 0 ==> a == '0'
        }),
        hex_value(65) == hex_value(97),
        hex_value(66) == hex_value(98),
        hex_value(67) == hex_value(99),
        hex_value(68) == hex_value(100),
        hex_value(69) == hex_value(101),
        hex_value(70) == hex_value(102),
        hex_value(97) == Some(10u8),
        hex_value(103) is None,
        hex_value(71) is None,
        hex_value(47) is None,
        hex_value(58) is None,
{
}

/// A sign in front of digits makes the number negative, or leaves it as it is.
pub proof fn lemma_signs(digits: Seq<char>, n: nat)
    requires
        digits.len() > 0,
        digits_value(digits) == Some(n),
    ensures
        signed_value(seq!['-'] + digits) == Some(-(n as int)),
        signed_value(seq!['+'] + digits) == Some(n as int),
        signed_value(digits) == Some(n as int),
        signed_value(seq!['-']) is None,
        signed_value(seq!['+']) is None,
        signed_value(Seq::empty()) is None,
        n <= 0x7FFF_FFFF_FFFF_FFFF ==> i64_value(digits) == Some(n as int),
        n > 0x7FFF_FFFF_FFFF_FFFF ==> i64_value(digits) is None,
{
    let (a, b) = (seq!['-'] + digits, seq!['+'] + digits);
    assert(a.subrange(1, a.len() as int) =~= digits);
    assert(b.subrange(1, b.len() as int) =~= digits);
    lemma_digit_first(digits);
}

/// Digits start with a digit.
proof fn lemma_digit_first(s: Seq<char>)
    requires
        s.len() > 0,
        digits_value(s) is Some,
    ensures
        digit_value(s[0]) is Some,
    decreases s.len(),
{
    if s.len() > 1 {
        lemma_digit_first(s.drop_last());
    }
}

/// One more digit is worth itself, and what came before it ten times as much.
pub proof fn lemma_digits(s: Seq<char>, c: char)
    requires
        digits_value(s) is Some,
    ensures
        '0' <= c <= '9' ==> digits_value(s.push(c)) == Some(
            (10 * digits_value(s)->Some_0 + (c as u32 - 48)) as nat,
        ),
        !('0' <= c <= '9') ==> digits_value(s.push(c)) is None,
{
    assert(s.push(c).drop_last() =~= s);
}

} // verus!
