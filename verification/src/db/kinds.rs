//! What the built-in key encodings make of errors.
//!
//! An encoding says which kinds of error it reports of a key. The built-in ones report
//! `InvalidArgument` of a key that a caller gave and `CorruptData` of one that a page holds, so
//! a caller of a table of theirs can tell its own mistake from a damaged file.

use vstd::prelude::*;

use super::table;
use crate::btree::Tree;
use crate::encoding::{registry, KeyEncoding, SharedEncoding};
use crate::error::{Error, ErrorKind};
use crate::query::range::{self, Ends};

verus! {

/// The kinds of error that a built-in encoding reports of keys.
pub proof fn lemma_builtin_kinds(id: Seq<char>, e: SharedEncoding, kind: ErrorKind)
    requires
        registry::is_builtin(id),
        registry::builtin_behaviour(id, e),
    ensures
        e.inner.rejects(kind) ==> kind == ErrorKind::InvalidArgument,
        e.inner.faults(kind) ==> kind == ErrorKind::CorruptData,
{
}

/// Looking up a key of the wrong width or form in a table of a built-in encoding is
/// `InvalidArgument`.
pub proof fn lemma_malformed_key(id: Seq<char>, t: &Tree, key: Seq<u8>, e: Error)
    requires
        registry::is_builtin(id),
        registry::builtin_behaviour(id, t.spec_encoding()),
        !t.spec_encoding().inner.well_formed(key),
        table::lookup_failure(t, key, e),
    ensures
        e.kind() == ErrorKind::InvalidArgument,
{
    lemma_builtin_kinds(id, t.spec_encoding(), e.kind());
}

/// A range of a table of a built-in encoding is refused with `InvalidArgument` where one of its
/// bounds is malformed, and where they are in the wrong order.
pub proof fn lemma_malformed_bounds(id: Seq<char>, encoding: SharedEncoding, ends: Ends, e: Error)
    requires
        registry::is_builtin(id),
        registry::builtin_behaviour(id, encoding),
        !ends.well_formed(encoding) || ends.accepted(encoding),
        range::refused(encoding, ends, e),
    ensures
        e.kind() == ErrorKind::InvalidArgument,
{
    lemma_builtin_kinds(id, encoding, e.kind());
}

/// Reading a tree of a built-in encoding fails for want of memory, with an I/O error, or with
/// `CorruptData`: a damaged page is never reported as anything else.
pub proof fn lemma_damage_is_corrupt(id: Seq<char>, t: &Tree, e: Error)
    requires
        registry::is_builtin(id),
        registry::builtin_behaviour(id, t.spec_encoding()),
        t.fault(e),
    ensures
        e.is_refusal() || e.kind() == ErrorKind::Io || e.is_corrupt(),
{
    lemma_builtin_kinds(id, t.spec_encoding(), e.kind());
}

} // verus!
