//! Key encodings.
//!
//! An encoding fixes three things at once: the byte form of a key, its total order,
//! and an order-preserving 64-bit digest. Format 1.4 stores a digest array on every
//! tree page and searches it first, so the digest is not optional:
//! `digest(a) < digest(b)` must imply `a < b`, and `a < b` must imply
//! `digest(a) <= digest(b)`. Equal digests are ambiguous and fall back to
//! [`KeyEncoding::compare`]. [`lawful`] states this.
//!
//! When a digest is a bijection over the key space ([`KeyEncoding::is_digest_exact`]),
//! the builder drops the key bytes from the pages entirely and rebuilds them through
//! [`KeyEncoding::decode_key_from_digest`].
//!
//! The built-in ids are `i64`, `ascii`, `uuidv7`, `ulid`. Anything else must be
//! registered; unknown ids are rejected rather than guessed.

pub mod builtin;
pub mod alike;
pub mod duplicate;
pub mod laws;
pub mod order;
pub mod registry;

use std::cmp::Ordering;
use std::sync::Arc;

use vstd::prelude::*;

pub use self::builtin::{
    ascii_digest, AsciiEncoding, Int64Encoding, UlidEncoding, Uuidv7Encoding,
};


pub use self::duplicate::{DuplicateKeyEncoding, RID_LEN};
pub use self::registry::EncodingRegistry;
pub use crate::text::parse_hex_key;

use crate::error::{Error, ErrorKind};

verus! {

/// How two keys compare.
#[derive(Debug, Clone, Copy, PartialEq, Eq, Structural)]
pub enum KeyOrder {
    /// The first key sorts below the second.
    Less,
    /// The keys are the same key.
    Equal,
    /// The first key sorts above the second.
    Greater,
}

impl KeyOrder {
    /// The order a sign stands for: negative, zero or positive.
    pub open spec fn of_sign(sign: int) -> KeyOrder {
        if sign < 0 {
            KeyOrder::Less
        } else if sign == 0 {
            KeyOrder::Equal
        } else {
            KeyOrder::Greater
        }
    }
}

/// Byte form, order and digest of a key column.
///
/// Implementations must be pure: the same input always produces the same order and
/// digest, for the lifetime of any file built with them. The spec functions are that
/// order and digest; [`lawful`] states what a search and a build rely on.
///
/// The spec functions have defaults, for implementations that nothing is proved of; one that
/// is verified gives its own.
pub trait KeyEncoding: Send + Sync {
    /// The registry id.
    open spec fn name(&self) -> Seq<char> {
        Seq::empty()
    }

    /// Whether a byte string can be compared and digested.
    open spec fn accepts(&self, key: Seq<u8>) -> bool {
        false
    }

    /// The order of two keys: negative, zero or positive.
    open spec fn sign(&self, a: Seq<u8>, b: Seq<u8>) -> int {
        0
    }

    /// The digest of a key.
    open spec fn digest_of(&self, key: Seq<u8>) -> u64 {
        0
    }

    /// Whether the digest is injective.
    open spec fn exact(&self) -> bool {
        false
    }

    /// Whether a stored digest is acceptable for a key.
    open spec fn admits(&self, key: Seq<u8>, stored: u64) -> bool {
        false
    }

    /// The key a digest alone stands for, when there is one.
    open spec fn rebuilt(&self, digest: u64) -> Option<Seq<u8>> {
        None
    }

    /// The fixed key width, when there is one.
    open spec fn width(&self) -> Option<usize> {
        None
    }

    /// The largest rebuilt key, when keys are rebuilt at all.
    open spec fn rebuilt_len(&self) -> Option<usize> {
        None
    }

    /// Whether the order is plain byte-lexicographic order.
    open spec fn lexicographic(&self) -> bool {
        false
    }

    /// Whether a byte string is a well-formed key.
    open spec fn well_formed(&self, key: Seq<u8>) -> bool {
        false
    }

    /// The rendering of a key.
    open spec fn rendered(&self, key: Seq<u8>) -> Seq<char> {
        Seq::empty()
    }

    /// The key that a text stands for, when it stands for one.
    open spec fn read_text(&self, text: Seq<char>) -> Option<Seq<u8>> {
        None
    }

    /// Whether an error of this kind is one that the encoding reports of bytes that it cannot
    /// compare or digest, or of a digest that it cannot rebuild though it rebuilds keys.
    open spec fn faults(&self, kind: ErrorKind) -> bool {
        true
    }

    /// Whether an error of this kind is one that the encoding reports of a malformed key, or
    /// of a text that is not one of a key.
    open spec fn rejects(&self, kind: ErrorKind) -> bool {
        true
    }

    /// Registry id stored in the index descriptor.
    fn id(&self) -> (r: &str)
        ensures
            r@ == self.name(),
    ;

    /// Total order over encoded keys.
    fn compare(&self, a: &[u8], b: &[u8]) -> (r: Result<Ordering, Error>)
        ensures
            match r {
                Ok(o) => self.accepts(a@) && self.accepts(b@) && (o == Ordering::Less
                    <==> self.sign(a@, b@) < 0) && (o == Ordering::Greater <==> self.sign(a@, b@)
                    > 0),
                Err(e) => !(self.accepts(a@) && self.accepts(b@)) && !e.is_resource()
                    && self.faults(e.kind()),
            },
    ;

    /// Order-preserving 64-bit digest.
    fn digest(&self, key: &[u8]) -> (r: Result<u64, Error>)
        ensures
            match r {
                Ok(d) => self.accepts(key@) && d == self.digest_of(key@),
                Err(e) => !self.accepts(key@) && !e.is_resource() && self.faults(e.kind()),
            },
    ;

    /// Whether [`Self::digest`] is injective, so equal digests imply equal keys.
    fn is_digest_exact(&self) -> (r: bool)
        ensures
            r == self.exact(),
    ;

    /// Whether `stored` is an acceptable digest for `key` on a page.
    ///
    /// Normally that means it equals [`Self::digest`]. An encoding answers otherwise when
    /// a writer it has to interoperate with computes the digest differently but still
    /// order preservingly, so that such a file is read rather than rejected.
    fn accepts_digest(&self, key: &[u8], stored: u64) -> (r: Result<bool, Error>)
        ensures
            match r {
                Ok(b) => b == self.admits(key@, stored),
                Err(e) => !self.admits(key@, stored) && !e.is_resource() && self.faults(e.kind()),
            },
    ;

    /// Rebuilds the key bytes that a page storing only digests stands for.
    ///
    /// Called for every entry of a page flagged `OmittedKeys`. An encoding that cannot
    /// do this must return an error, which rejects such a page rather than inventing a
    /// key.
    fn decode_key_from_digest(&self, digest: u64, out: &mut Vec<u8>) -> (r: Result<(), Error>)
        ensures
            match r {
                Ok(_) => self.rebuilt(digest) == Some(final(out)@),
                Err(e) => self.rebuilt(digest) is None && !e.is_resource() && (
                self.rebuilt_len() is Some ==> self.faults(e.kind())),
            },
    ;

    /// Fixed key width, when the encoding has one. Used to reject malformed keys
    /// early, both from callers and from pages.
    fn fixed_key_len(&self) -> (r: Option<usize>)
        ensures
            r == self.width(),
    ;

    /// Largest buffer [`Self::decode_key_from_digest`] can need, when this encoding
    /// rebuilds keys at all.
    ///
    /// This is what decides whether a page that omits its key bytes can be read. Such a
    /// page is nothing but digests: the search compares them instead of keys and
    /// everything that wants a key rebuilds it from one, so an encoding that cannot
    /// rebuild would answer a lookup for a key that is not there with whatever row the
    /// digest landed on. The buffer also has to be reserved against the memory budget
    /// before the rebuild writes into it, which is why the answer is a size and not a
    /// flag.
    fn max_rebuilt_key_len(&self) -> (r: Option<usize>)
        ensures
            r == self.rebuilt_len(),
    ;

    /// Whether [`Self::compare`] is plain byte-lexicographic order.
    ///
    /// Prefix queries are defined in terms of byte prefixes, so they are only
    /// meaningful for encodings where that matches the key order.
    fn is_byte_lexicographic(&self) -> (r: bool)
        ensures
            r == self.lexicographic(),
    ;

    /// Checks that `key` is a well-formed key of this encoding.
    fn validate_key(&self, key: &[u8]) -> (r: Result<(), Error>)
        ensures
            match r {
                Ok(_) => self.well_formed(key@),
                Err(e) => !self.well_formed(key@) && !e.is_resource() && self.rejects(e.kind()),
            },
    ;

    /// Human-readable rendering of a key, for diagnostics and tools.
    fn format_key(&self, key: &[u8]) -> (r: String)
        ensures
            r@ == self.rendered(key@),
    ;

    /// Reads back what [`KeyEncoding::format_key`] wrote.
    ///
    /// The two belong together: a key shown to someone is a key they will hand back, and
    /// an encoding that renders keys its own way is the only thing that knows how to
    /// read that rendering.
    fn parse_key(&self, text: &str) -> (r: Result<Vec<u8>, Error>)
        ensures
            match r {
                Ok(k) => self.read_text(text@) == Some(k@),
                Err(e) => self.read_text(text@) is None && !e.is_resource() && self.rejects(
                    e.kind(),
                ),
            },
    ;
}

/// What a build and a search rely on: a total order, and a digest that preserves it; an
/// exact one gives the key back. An encoding that says it orders byte strings as bytes does
/// so.
pub open spec fn lawful<E: KeyEncoding + ?Sized>(e: &E) -> bool {
    &&& forall|a: Seq<u8>| #[trigger] e.accepts(a) ==> e.sign(a, a) == 0
    &&& forall|a: Seq<u8>, b: Seq<u8>|
        e.accepts(a) && e.accepts(b) ==> (#[trigger] e.sign(a, b) < 0 <==> e.sign(b, a) > 0)
    &&& forall|a: Seq<u8>, b: Seq<u8>, c: Seq<u8>|
        #![trigger e.sign(a, b), e.sign(b, c)]
        e.accepts(a) && e.accepts(b) && e.accepts(c) && e.sign(a, b) <= 0 && e.sign(b, c) <= 0
            ==> e.sign(a, c) <= 0 && (e.sign(a, c) == 0 ==> e.sign(a, b) == 0 && e.sign(b, c) == 0)
    &&& forall|a: Seq<u8>, b: Seq<u8>|
        e.accepts(a) && e.accepts(b) && #[trigger] e.sign(a, b) <= 0 ==> e.digest_of(a)
            <= e.digest_of(b)
    &&& e.exact() ==> forall|a: Seq<u8>, b: Seq<u8>|
        e.accepts(a) && e.accepts(b) && e.digest_of(a) == e.digest_of(b) ==> #[trigger] e.sign(
            a,
            b,
        ) == 0
    &&& forall|a: Seq<u8>| #[trigger] e.accepts(a) ==> e.admits(a, e.digest_of(a))
    &&& e.exact() ==> e.rebuilt_len() is Some && forall|a: Seq<u8>|
        #[trigger] e.accepts(a) ==> e.rebuilt(e.digest_of(a)) == Some(a)
    &&& e.lexicographic() ==> forall|a: Seq<u8>, b: Seq<u8>|
        e.accepts(a) && e.accepts(b) ==> #[trigger] e.sign(a, b) == order::lex(a, b)
}

/// An encoding that several owners share.
pub struct SharedEncoding {
    pub inner: Arc<Box<dyn KeyEncoding>>,
}

impl Clone for SharedEncoding {
    fn clone(&self) -> (r: Self)
        ensures
            r == *self,
    {
        SharedEncoding { inner: self.inner.clone() }
    }
}

impl SharedEncoding {
    /// Whether this is an encoding that does what `e` does.
    pub open spec fn behaves_like<E: KeyEncoding>(&self, e: E) -> bool {
        &&& self.inner.name() == e.name()
        &&& forall|k: Seq<u8>| #[trigger] self.inner.accepts(k) == e.accepts(k)
        &&& forall|a: Seq<u8>, b: Seq<u8>| #[trigger] self.inner.sign(a, b) == e.sign(a, b)
        &&& forall|k: Seq<u8>| #[trigger] self.inner.digest_of(k) == e.digest_of(k)
        &&& self.inner.exact() == e.exact()
        &&& forall|k: Seq<u8>, d: u64| #[trigger] self.inner.admits(k, d) == e.admits(k, d)
        &&& forall|d: u64| #[trigger] self.inner.rebuilt(d) == e.rebuilt(d)
        &&& self.inner.width() == e.width()
        &&& self.inner.rebuilt_len() == e.rebuilt_len()
        &&& self.inner.lexicographic() == e.lexicographic()
        &&& forall|k: Seq<u8>| #[trigger] self.inner.well_formed(k) == e.well_formed(k)
        &&& forall|k: Seq<u8>| #[trigger] self.inner.rendered(k) == e.rendered(k)
        &&& forall|t: Seq<char>| #[trigger] self.inner.read_text(t) == e.read_text(t)
        &&& forall|k: ErrorKind| #[trigger] self.inner.faults(k) == e.faults(k)
        &&& forall|k: ErrorKind| #[trigger] self.inner.rejects(k) == e.rejects(k)
    }

    /// The built-in `i64`.
    pub fn int64() -> (r: SharedEncoding)
        ensures
            r.behaves_like(Int64Encoding),
    {
        SharedEncoding { inner: Arc::new(Box::new(Int64Encoding)) }
    }

    /// The built-in `ascii`.
    pub fn ascii() -> (r: SharedEncoding)
        ensures
            r.behaves_like(AsciiEncoding),
    {
        SharedEncoding { inner: Arc::new(Box::new(AsciiEncoding)) }
    }

    /// The built-in `uuidv7`.
    pub fn uuidv7() -> (r: SharedEncoding)
        ensures
            r.behaves_like(Uuidv7Encoding),
    {
        SharedEncoding { inner: Arc::new(Box::new(Uuidv7Encoding)) }
    }

    /// The built-in `ulid`.
    pub fn ulid() -> (r: SharedEncoding)
        ensures
            r.behaves_like(UlidEncoding),
    {
        SharedEncoding { inner: Arc::new(Box::new(UlidEncoding)) }
    }

    /// The composite encoding of a non-unique index over `source`.
    pub fn duplicate(source: SharedEncoding) -> (r: SharedEncoding)
        ensures
            r.behaves_like(DuplicateKeyEncoding { source }),
    {
        SharedEncoding { inner: Arc::new(Box::new(DuplicateKeyEncoding { source })) }
    }

    /// Compares two keys.
    pub fn order(&self, a: &[u8], b: &[u8]) -> (r: Result<KeyOrder, Error>)
        ensures
            match r {
                Ok(o) => self.inner.accepts(a@) && self.inner.accepts(b@) && o
                    == KeyOrder::of_sign(self.inner.sign(a@, b@)),
                Err(e) => !(self.inner.accepts(a@) && self.inner.accepts(b@)) && !e.is_resource()
                    && self.inner.faults(e.kind()),
            },
    {
        match self.inner.compare(a, b) {
            Ok(Ordering::Less) => Ok(KeyOrder::Less),
            Ok(Ordering::Equal) => Ok(KeyOrder::Equal),
            Ok(Ordering::Greater) => Ok(KeyOrder::Greater),
            Err(e) => Err(e),
        }
    }
}

} // verus!
