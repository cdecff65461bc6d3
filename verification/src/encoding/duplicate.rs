//! Composite keys of non-unique secondary indexes.

use std::cmp::Ordering;

use vstd::prelude::*;
use vstd::string::*;

use super::{KeyEncoding, SharedEncoding};
use crate::error::{Error, ErrorKind, Words};
use crate::format::bytes::{self, put_le4, put_slice, read_i32};
use crate::text::{self, push_signed};

verus! {

broadcast use crate::format::group_format;

/// Width of the record id appended to a non-unique secondary key.
pub const RID_LEN: usize = 4;

/// Composite `(source key, rid)` encoding used by non-unique secondary index trees.
///
/// The tree itself only stores unique keys, so a duplicate secondary key is made unique
/// by appending a 4-byte little-endian record id. The source key dominates the order,
/// so the source digest stays order preserving for the composite key.
pub struct DuplicateKeyEncoding {
    pub source: SharedEncoding,
}

/// The source key of a composite key.
pub open spec fn source_part(key: Seq<u8>) -> Seq<u8> {
    key.subrange(0, key.len() - RID_LEN)
}

/// The record id of a composite key.
pub open spec fn rid_part(key: Seq<u8>) -> int {
    bytes::i32_at(key, key.len() - RID_LEN)
}

/// Whether a byte string is a source key and a record id.
///
/// Record ids count up from zero within an index key, and a lookup is the composite range
/// `(k, 0)..=(k, i32::MAX)`. A negative one sorts below that whole range, so the row it
/// belongs to would be on the page and in the count but outside every lookup.
pub open spec fn is_composite(key: Seq<u8>) -> bool {
    key.len() >= RID_LEN && rid_part(key) >= 0
}

/// A source key with its record id.
pub open spec fn composite(source_key: Seq<u8>, rid: int) -> Seq<u8> {
    source_key + bytes::le4(rid)
}

/// A composite key splits into what it was made of.
pub proof fn lemma_split_composite(source_key: Seq<u8>, rid: int)
    requires
        0 <= rid < 0x8000_0000,
    ensures
        is_composite(composite(source_key, rid)),
        source_part(composite(source_key, rid)) == source_key,
        rid_part(composite(source_key, rid)) == rid,
{
    let key = composite(source_key, rid);
    let split = source_key.len() as int;
    assert(key.subrange(split, split + 4) =~= bytes::le4(rid));
    bytes::lemma_u32_read_back(key, split, rid);
    assert(source_part(key) =~= source_key);
}

impl DuplicateKeyEncoding {
    /// Wraps a source encoding.
    pub fn new(source: SharedEncoding) -> (r: Self)
        ensures
            r.source == source,
    {
        DuplicateKeyEncoding { source }
    }

    /// The wrapped encoding.
    pub fn source(&self) -> (r: &SharedEncoding)
        ensures
            *r == self.source,
    {
        &self.source
    }

    /// Builds `source_key || rid`.
    pub fn encode(source_key: &[u8], rid: i32) -> (r: Vec<u8>)
        ensures
            r@ == composite(source_key@, rid as int),
    {
        let mut out: Vec<u8> = Vec::new();
        put_slice(&mut out, source_key);
        let pattern: u64 = if rid < 0 {
            (rid as i64 + 0x1_0000_0000) as u64
        } else {
            rid as u64
        };
        put_le4(&mut out, pattern);
        proof {
            bytes::lemma_le4_wraps(pattern as int, rid as int);
            assert(out@ =~= composite(source_key@, rid as int));
        }
        out
    }

    /// Splits a composite key into `(source_key, rid)`.
    pub fn split(key: &[u8]) -> (r: Result<(&[u8], i32), Error>)
        ensures
            match r {
                Ok((source_key, rid)) => is_composite(key@) && source_key@ == source_part(key@)
                    && rid == rid_part(key@),
                Err(e) => !is_composite(key@) && e.is_corrupt(),
            },
    {
        if key.len() < RID_LEN {
            return Err(
                Error::corrupt_number(
                    "duplicate key is ",
                    key.len() as u64,
                    " bytes, shorter than the 4 byte record id",
                ),
            );
        }
        let split = key.len() - RID_LEN;
        let rid = read_i32(key, split)?;
        if rid < 0 {
            return Err(
                Error::corrupt_words(
                    Words::new("duplicate key has record id ")
                        .signed(rid as i64)
                        .say(", which is negative"),
                ),
            );
        }
        Ok((vstd::slice::slice_subrange(key, 0, split), rid))
    }
}

impl KeyEncoding for DuplicateKeyEncoding {
    open spec fn name(&self) -> Seq<char> {
        self.source.inner.name()
    }

    open spec fn accepts(&self, key: Seq<u8>) -> bool {
        is_composite(key) && self.source.inner.accepts(source_part(key))
    }

    open spec fn sign(&self, a: Seq<u8>, b: Seq<u8>) -> int {
        let s = self.source.inner.sign(source_part(a), source_part(b));
        if s != 0 {
            s
        } else {
            rid_part(a) - rid_part(b)
        }
    }

    open spec fn digest_of(&self, key: Seq<u8>) -> u64 {
        self.source.inner.digest_of(source_part(key))
    }

    open spec fn exact(&self) -> bool {
        false
    }

    open spec fn admits(&self, key: Seq<u8>, stored: u64) -> bool {
        self.accepts(key) && (self.digest_of(key) == stored || (self.source.inner.accepts(key)
            && self.source.inner.digest_of(key) == stored))
    }

    open spec fn rebuilt(&self, digest: u64) -> Option<Seq<u8>> {
        match self.source.inner.rebuilt(digest) {
            Some(key) => Some(key + bytes::le4(0)),
            None => None,
        }
    }

    open spec fn width(&self) -> Option<usize> {
        match self.source.inner.width() {
            Some(n) if n <= usize::MAX - RID_LEN => Some((n + RID_LEN) as usize),
            _ => None,
        }
    }

    open spec fn rebuilt_len(&self) -> Option<usize> {
        match self.source.inner.rebuilt_len() {
            Some(n) if n <= usize::MAX - RID_LEN => Some((n + RID_LEN) as usize),
            _ => None,
        }
    }

    open spec fn lexicographic(&self) -> bool {
        false
    }

    open spec fn well_formed(&self, key: Seq<u8>) -> bool {
        super::builtin::has_width(self.width(), key)
    }

    open spec fn rendered(&self, key: Seq<u8>) -> Seq<char> {
        if is_composite(key) {
            self.source.inner.rendered(source_part(key)).push('-') + text::signed_decimal(
                rid_part(key),
            )
        } else {
            "<invalid duplicate key>"@
        }
    }

    open spec fn read_text(&self, t: Seq<char>) -> Option<Seq<u8>> {
        let i = text::last_dash(t);
        if i < 0 {
            None
        } else {
            match (self.source.inner.read_text(t.subrange(0, i)), rid_text(
                t.subrange(i + 1, t.len() as int),
            )) {
                (Some(key), Some(rid)) => Some(composite(key, rid)),
                _ => None,
            }
        }
    }

    open spec fn faults(&self, kind: ErrorKind) -> bool {
        kind == ErrorKind::CorruptData || self.source.inner.faults(kind)
    }

    open spec fn rejects(&self, kind: ErrorKind) -> bool {
        kind == ErrorKind::InvalidArgument || self.source.inner.rejects(kind)
    }

    fn id(&self) -> (r: &str) {
        self.source.inner.id()
    }

    fn compare(&self, a: &[u8], b: &[u8]) -> (r: Result<Ordering, Error>) {
        let (a_key, a_rid) = DuplicateKeyEncoding::split(a)?;
        let (b_key, b_rid) = DuplicateKeyEncoding::split(b)?;
        match self.source.inner.compare(a_key, b_key)? {
            Ordering::Less => Ok(Ordering::Less),
            Ordering::Greater => Ok(Ordering::Greater),
            Ordering::Equal => Ok(
                if a_rid < b_rid {
                    Ordering::Less
                } else if a_rid > b_rid {
                    Ordering::Greater
                } else {
                    Ordering::Equal
                },
            ),
        }
    }

    fn digest(&self, key: &[u8]) -> (r: Result<u64, Error>) {
        let (source_key, _) = DuplicateKeyEncoding::split(key)?;
        self.source.inner.digest(source_key)
    }

    /// Never exact: two rows with the same index key share a digest and differ only in
    /// their record id.
    fn is_digest_exact(&self) -> (r: bool) {
        false
    }

    /// Accepts either convention for a non-unique index page.
    ///
    /// One writer of this format digests the whole composite key and another digests only
    /// the source part, and the two agree only when the source key already fills the eight
    /// digest bytes. Both are order preserving, so a page written either way is read here.
    fn accepts_digest(&self, key: &[u8], stored: u64) -> (r: Result<bool, Error>)
        ensures
            r is Ok <==> self.accepts(key@) && (self.digest_of(key@) == stored
                || self.source.inner.accepts(key@)),
    {
        if self.digest(key)? == stored {
            return Ok(true);
        }
        Ok(self.source.inner.digest(key)? == stored)
    }

    /// Rebuilds `source_key || 0`.
    ///
    /// A page of a non-unique index may omit its keys whenever the *source* encoding has
    /// an exact digest, even though the record id is not part of that digest. On such a
    /// page the record id genuinely is not stored, so the best that can be recovered is
    /// the source key with a zero record id. An index cursor reports the source key and
    /// drops the record id, so nothing depends on the difference.
    fn decode_key_from_digest(&self, digest: u64, out: &mut Vec<u8>) -> (r: Result<(), Error>) {
        self.source.inner.decode_key_from_digest(digest, out)?;
        put_le4(out, 0);
        Ok(())
    }

    fn fixed_key_len(&self) -> (r: Option<usize>) {
        match self.source.inner.fixed_key_len() {
            Some(n) => n.checked_add(RID_LEN),
            None => None,
        }
    }

    /// The source's bound plus the record id this encoding appends.
    fn max_rebuilt_key_len(&self) -> (r: Option<usize>) {
        match self.source.inner.max_rebuilt_key_len() {
            Some(n) => n.checked_add(RID_LEN),
            None => None,
        }
    }

    fn is_byte_lexicographic(&self) -> (r: bool) {
        false
    }

    fn validate_key(&self, key: &[u8]) -> (r: Result<(), Error>)
        ensures
            r matches Err(e) ==> e.kind() == ErrorKind::InvalidArgument,
    {
        super::builtin::check_width(self.id(), self.fixed_key_len(), key)
    }

    fn format_key(&self, key: &[u8]) -> (r: String) {
        match DuplicateKeyEncoding::split(key) {
            Ok((source_key, rid)) => {
                let mut out = self.source.inner.format_key(source_key);
                out.push('-');
                push_signed(&mut out, rid as i64);
                out
            },
            Err(_) => "<invalid duplicate key>".to_owned(),
        }
    }

    /// Reads the source key up to the last dash, and the record id after it.
    fn parse_key(&self, t: &str) -> (r: Result<Vec<u8>, Error>) {
        let chars = text::chars_of(t);
        let at = match text::find_last_dash(&chars) {
            Some(at) => at,
            None => return Err(Error::invalid("a composite key needs a dash and a record id")),
        };
        let total = chars.len();
        proof {
            text::lemma_last_dash(chars@);
            assert(at < total);
        }
        let mut front: Vec<char> = Vec::new();
        let mut i: usize = 0;
        while i < at
            invariant
                total == chars@.len(),
                at < total,
                i <= at,
                front@ == chars@.subrange(0, i as int),
            decreases at - i,
        {
            front.push(chars[i]);
            i += 1;
            proof {
                assert(front@ =~= chars@.subrange(0, i as int));
            }
        }
        let source_text = text::string_of(&front);
        let source_key = match self.source.inner.parse_key(source_text.as_str()) {
            Ok(key) => key,
            Err(e) => return Err(e),
        };
        match text::read_digits(&chars, at + 1) {
            Some(rid) => if rid < 0x8000_0000 {
                return Ok(DuplicateKeyEncoding::encode(source_key.as_slice(), rid as i32));
            },
            None => {},
        }
        Err(Error::invalid("a composite key ends in a record id from 0 to 2147483647"))
    }
}

/// The record id that a text stands for: digits, and no more than a record id may be.
pub open spec fn rid_text(t: Seq<char>) -> Option<int> {
    match text::digits_value(t) {
        Some(n) if t.len() > 0 && n < 0x8000_0000 => Some(n as int),
        _ => None,
    }
}

/// A rendered composite key reads back as the key, where the source reads back what it
/// renders.
pub proof fn lemma_duplicate_text_round_trip(source: SharedEncoding, key: Seq<u8>)
    requires
        is_composite(key),
        source.inner.read_text(source.inner.rendered(source_part(key))) == Some(source_part(key)),
    ensures
        (DuplicateKeyEncoding { source }).read_text((DuplicateKeyEncoding { source }).rendered(key))
            == Some(key),
{
    let rid = rid_part(key);
    let front = source.inner.rendered(source_part(key));
    let digits = text::signed_decimal(rid);
    let t = front.push('-') + digits;
    text::lemma_decimal_reads_back(rid as nat);
    text::lemma_dash_before_digits(front, digits);
    let i = front.len() as int;
    assert(t.subrange(0, i) =~= front);
    assert(t.subrange(i + 1, t.len() as int) =~= digits);
    let split = key.len() - RID_LEN;
    bytes::lemma_u32_bytes(key, split);
    assert(composite(source_part(key), rid) =~= key);
}

/// Composite keys order by source key, then by record id, and the source digest preserves
/// that order.
pub proof fn lemma_duplicate_lawful(source: SharedEncoding)
    requires
        super::lawful(&**source.inner),
    ensures
        super::lawful(&DuplicateKeyEncoding { source }),
{
    let e = DuplicateKeyEncoding { source };
    assert forall|a: Seq<u8>, b: Seq<u8>, c: Seq<u8>|
        #![trigger e.sign(a, b), e.sign(b, c)]
        e.accepts(a) && e.accepts(b) && e.accepts(c) && e.sign(a, b) <= 0 && e.sign(b, c)
            <= 0 implies e.sign(a, c) <= 0 && (e.sign(a, c) == 0 ==> e.sign(a, b) == 0 && e.sign(
        b,
        c,
    ) == 0) by {
        let s = source.inner;
        let (x, y, z) = (source_part(a), source_part(b), source_part(c));
        assert(s.sign(x, y) <= 0 && s.sign(y, z) <= 0);
    }
}

} // verus!
