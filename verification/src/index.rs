//! Secondary index queries.
//!
//! A secondary index tree stores a 16-byte [`PageRef`] in the value position, pointing at
//! the record bytes in the primary tree (or at a blob page). Resolving one costs the page
//! it points at, which is why a secondary cursor materialises its current row rather than
//! borrowing it.
//!
//! Non-unique indexes make duplicate keys unique by appending a 4-byte record id, so a
//! lookup for key `k` is really the composite range `[k||0, k||i32::MAX]`. Record ids run
//! from zero in primary key order within each index key. Exclusive bounds are taken to that
//! composite space so that "everything above `k`" really excludes every row with key `k`.

use std::sync::Arc;

use vstd::prelude::*;

use crate::btree::{paths, Tree};
use crate::budget::{self, Charge, BUFFER_OVERHEAD};
use crate::encoding::duplicate;
use crate::encoding::registry;
use crate::encoding::{
    self, DuplicateKeyEncoding, EncodingRegistry, KeyEncoding, KeyOrder, SharedEncoding, RID_LEN,
};
use crate::error::{Error, ErrorKind};
use crate::format::catalog::{describe_name, IndexDescriptor, ValueKind};
use crate::format::node::{self, NodeLayout};
use crate::format::pageref::{self, PageRef, PAGE_REF_LEN};
use crate::format::PageOrdinal;
use crate::model::{Pages, Row, TreeShape};
use crate::page::ValueGuard;
use crate::query::count::{self, count_range};
use crate::query::cursor::{self, charge_at_least, Cursor, Order, Place};
use crate::query::range::{self, prefix_range, Bound, Ends, KeyRange};
use crate::query::scan;
use crate::store::PageStore;

verus! {

broadcast use crate::format::group_format;

/// Whether a registry resolves an id to an encoding.
pub open spec fn resolves(encodings: Map<Seq<char>, SharedEncoding>, id: Seq<char>, e: SharedEncoding) -> bool {
    if registry::is_builtin(id) {
        registry::builtin_behaviour(id, e)
    } else {
        encodings.contains_key(id) && encodings[id] == e
    }
}

/// Whether a registry knows an id.
pub open spec fn known(encodings: Map<Seq<char>, SharedEncoding>, id: Seq<char>) -> bool {
    registry::is_builtin(id) || encodings.contains_key(id)
}

/// Whether an encoding is the one that the tree of an index over `source` uses.
pub open spec fn tree_encoding(unique: bool, source: SharedEncoding, e: SharedEncoding) -> bool {
    if unique {
        e == source
    } else {
        e.behaves_like(DuplicateKeyEncoding { source })
    }
}

/// What an index handle shares.
pub struct IndexInner {
    descriptor: IndexDescriptor,
    tree: Arc<Tree>,
    source_encoding: SharedEncoding,
    /// Keeps the catalog's reservation alive for as long as this handle holds a copy of
    /// its descriptor, which can be past the end of the database.
    catalog_charge: Arc<Charge>,
}

impl IndexInner {
    /// The index descriptor.
    pub closed spec fn spec_descriptor(&self) -> IndexDescriptor {
        self.descriptor
    }

    /// The tree of the index.
    pub closed spec fn spec_tree(&self) -> Arc<Tree> {
        self.tree
    }

    /// The encoding callers pass keys in.
    pub closed spec fn spec_source(&self) -> SharedEncoding {
        self.source_encoding
    }

    /// Whether the handle and its tree keep a reservation alive.
    pub closed spec fn shares(&self, charge: Arc<Charge>) -> bool {
        self.catalog_charge == charge && self.tree.spec_charge() == charge
    }

    #[verifier::type_invariant]
    spec fn matched(&self) -> bool {
        tree_encoding(
            self.descriptor.is_unique,
            self.source_encoding,
            self.tree.spec_encoding(),
        )
    }

    /// Builds the handle of an index of a store.
    pub(crate) fn build(
        descriptor: &IndexDescriptor,
        store: &Arc<PageStore>,
        encodings: &EncodingRegistry,
        validate_digests: bool,
        catalog_charge: &Arc<Charge>,
    ) -> (r: Result<IndexInner, Error>)
        ensures
            match r {
                Ok(i) => i.opened(*descriptor, *store, encodings@)
                    && i.spec_tree().spec_validates() == validate_digests && i.shares(
                    *catalog_charge,
                ),
                Err(e) => if descriptor.value_kind != ValueKind::PageRef {
                    e.kind() == ErrorKind::UnsupportedFormat
                } else {
                    e.kind() == ErrorKind::UnknownEncoding && !known(
                        encodings@,
                        descriptor.key_encoding_id@,
                    )
                },
            },
    {
        match descriptor.value_kind {
            ValueKind::PageRef => {},
            _ => {
                let mut message = "secondary index `".to_owned();
                message.append(describe_name(descriptor.name.as_str()).as_str());
                message.append("` stores ");
                message.append(descriptor.value_kind.name());
                message.append("; this reader resolves PageRef indexes only");
                return Err(Error::from_text(ErrorKind::UnsupportedFormat, message));
            },
        }
        let source_encoding = match encodings.resolve(descriptor.key_encoding_id.as_str()) {
            Ok(e) => e,
            Err(e) => return Err(e),
        };
        let tree_encoding = if descriptor.is_unique {
            source_encoding.clone()
        } else {
            SharedEncoding::duplicate(source_encoding.clone())
        };
        Ok(
            IndexInner {
                descriptor: descriptor.clone(),
                tree: Arc::new(
                    Tree::new(
                        Arc::clone(store),
                        descriptor.root,
                        tree_encoding,
                        validate_digests,
                        Arc::clone(catalog_charge),
                    ),
                ),
                source_encoding,
                catalog_charge: Arc::clone(catalog_charge),
            },
        )
    }

    /// Whether this is the handle of an index of a store.
    pub open spec fn opened(
        &self,
        descriptor: IndexDescriptor,
        store: Arc<PageStore>,
        encodings: Map<Seq<char>, SharedEncoding>,
    ) -> bool {
        &&& descriptor.value_kind == ValueKind::PageRef
        &&& self.spec_descriptor() == descriptor
        &&& resolves(encodings, descriptor.key_encoding_id@, self.spec_source())
        &&& self.spec_tree().spec_store() == store
        &&& self.spec_tree().spec_root() == descriptor.root
        &&& tree_encoding(
            descriptor.is_unique,
            self.spec_source(),
            self.spec_tree().spec_encoding(),
        )
    }
}

/// A secondary index over a table.
pub struct Index {
    inner: Arc<IndexInner>,
}

impl Clone for Index {
    fn clone(&self) -> (r: Self)
        ensures
            r == *self,
    {
        Index { inner: Arc::clone(&self.inner) }
    }
}

/// Whether bounds meet without overlapping: the same key, which one of them leaves out.
pub open spec fn meets_empty(e: SharedEncoding, lo: Bound<Seq<u8>>, hi: Bound<Seq<u8>>) -> bool {
    match (range::bound_key_of(lo), range::bound_key_of(hi)) {
        (Some(a), Some(b)) => e.inner.sign(a, b) == 0 && (lo is Excluded || hi is Excluded),
        _ => false,
    }
}

/// The bounds of a range of index keys, in the key space of the tree.
///
/// Composite keys sort by `(source key, record id)`. "Everything above k" has to clear the
/// whole run of record ids for k, and "everything below k" must not reach any of them.
pub open spec fn tree_ends(
    unique: bool,
    e: SharedEncoding,
    lo: Bound<Seq<u8>>,
    hi: Bound<Seq<u8>>,
) -> Ends {
    if unique {
        Ends { lower: lo, upper: hi, empty: false }
    } else {
        Ends {
            lower: match lo {
                Bound::Unbounded => Bound::Unbounded,
                Bound::Included(k) => Bound::Included(duplicate::composite(k, 0)),
                Bound::Excluded(k) => Bound::Excluded(duplicate::composite(k, i32::MAX as int)),
            },
            upper: match hi {
                Bound::Unbounded => Bound::Unbounded,
                Bound::Included(k) => Bound::Included(duplicate::composite(k, i32::MAX as int)),
                Bound::Excluded(k) => Bound::Excluded(duplicate::composite(k, 0)),
            },
            empty: meets_empty(e, lo, hi),
        }
    }
}

/// Whether a range is the one that a query of an index is about: an empty one where the
/// bounds meet without overlapping.
pub open spec fn is_tree_range(
    unique: bool,
    e: SharedEncoding,
    lo: Bound<Seq<u8>>,
    hi: Bound<Seq<u8>>,
    ends: Ends,
) -> bool {
    let want = tree_ends(unique, e, lo, hi);
    if want.empty {
        ends.empty
    } else {
        ends == want
    }
}

/// The order of composite keys by their source keys.
proof fn lemma_composite_sign(dup: SharedEncoding, source: SharedEncoding, a: Seq<u8>, k: Seq<u8>, rid: int)
    requires
        dup.behaves_like(DuplicateKeyEncoding { source }),
        0 <= rid <= i32::MAX,
    ensures
        dup.inner.sign(a, duplicate::composite(k, rid)) == (if source.inner.sign(
            duplicate::source_part(a),
            k,
        ) != 0 {
            source.inner.sign(duplicate::source_part(a), k)
        } else {
            duplicate::rid_part(a) - rid
        }),
        dup.inner.accepts(duplicate::composite(k, rid)) <==> source.inner.accepts(k),
{
    duplicate::lemma_split_composite(k, rid);
    let c = duplicate::composite(k, rid);
    assert(dup.inner.sign(a, c) == (DuplicateKeyEncoding { source }).sign(a, c));
    assert(dup.inner.accepts(c) == (DuplicateKeyEncoding { source }).accepts(c));
}

/// A range of index keys selects the composite keys whose source key is in it: an exclusive
/// bound leaves out every row of its key, and an inclusive one takes in every row of it.
pub proof fn lemma_tree_ends(
    dup: SharedEncoding,
    source: SharedEncoding,
    lo: Bound<Seq<u8>>,
    hi: Bound<Seq<u8>>,
    key: Seq<u8>,
)
    requires
        encoding::lawful(&**source.inner),
        dup.behaves_like(DuplicateKeyEncoding { source }),
        dup.inner.accepts(key),
        (Ends { lower: lo, upper: hi, empty: false }).accepted(source),
    ensures
        tree_ends(false, source, lo, hi).selects(dup, key) <==> (Ends {
            lower: lo,
            upper: hi,
            empty: false,
        }).selects(source, duplicate::source_part(key)),
{
    let k = duplicate::source_part(key);
    assert(dup.inner.accepts(key) == (DuplicateKeyEncoding { source }).accepts(key));
    match range::bound_key_of(lo) {
        Some(a) => {
            lemma_composite_sign(dup, source, key, a, 0);
            lemma_composite_sign(dup, source, key, a, i32::MAX as int);
        },
        None => {},
    }
    match range::bound_key_of(hi) {
        Some(b) => {
            lemma_composite_sign(dup, source, key, b, 0);
            lemma_composite_sign(dup, source, key, b, i32::MAX as int);
        },
        None => {},
    }
    if meets_empty(source, lo, hi) {
        // Nothing is on both sides of one key.
        let (a, b) = (range::bound_key_of(lo)->Some_0, range::bound_key_of(hi)->Some_0);
        if source.inner.sign(k, a) >= 0 && source.inner.sign(k, b) <= 0 {
            assert(source.inner.sign(b, a) == 0);
            assert(source.inner.sign(a, k) <= 0);
            assert(source.inner.sign(a, b) == 0);
            assert(source.inner.sign(k, a) == 0 && source.inner.sign(k, b) == 0);
        }
    }
}

/// The key that an entry of an index is found by.
pub open spec fn caller_key(unique: bool, key: Seq<u8>) -> Seq<u8> {
    if unique {
        key
    } else {
        duplicate::source_part(key)
    }
}

/// A query of an index runs over the entries whose index key is inside the bounds that its caller
/// gave, and over no others: an inclusive bound takes its key in and an exclusive one leaves it
/// out, whether or not the index is unique.
pub proof fn lemma_index_range(
    unique: bool,
    source: SharedEncoding,
    e: SharedEncoding,
    lo: Bound<Seq<u8>>,
    hi: Bound<Seq<u8>>,
    ends: Ends,
    key: Seq<u8>,
)
    requires
        encoding::lawful(&**source.inner),
        tree_encoding(unique, source, e),
        e.inner.accepts(key),
        (Ends { lower: lo, upper: hi, empty: false }).accepted(source),
        is_tree_range(unique, source, lo, hi, ends),
    ensures
        ends.selects(e, key) <==> {
            let k = caller_key(unique, key);
            &&& lo matches Bound::Included(a) ==> source.inner.sign(k, a) >= 0
            &&& lo matches Bound::Excluded(a) ==> source.inner.sign(k, a) > 0
            &&& hi matches Bound::Included(b) ==> source.inner.sign(k, b) <= 0
            &&& hi matches Bound::Excluded(b) ==> source.inner.sign(k, b) < 0
        },
{
    if !unique {
        lemma_tree_ends(e, source, lo, hi, key);
    }
}

/// The record bytes that an index entry's value refers to.
pub open spec fn referred(pages: Pages, raw: Seq<u8>) -> Option<Seq<u8>> {
    match pageref::page_ref_at(raw) {
        Some(p) => if raw.len() == PAGE_REF_LEN && pages.contains_key(p.page) && p.fits(
            pages[p.page].len() as int,
        ) {
            Some(pages[p.page].subrange(p.start.get() as int, p.start.get() + p.length))
        } else {
            None
        },
        None => None,
    }
}

/// What an entry of an index tree stands for: an index key and a record.
pub open spec fn index_row(pages: Pages, unique: bool, row: Row) -> Option<Row> {
    match referred(pages, row.value) {
        Some(value) => if unique {
            Some(Row { key: row.key, value })
        } else if duplicate::is_composite(row.key) {
            Some(Row { key: duplicate::source_part(row.key), value })
        } else {
            None
        },
        None => None,
    }
}

/// Whether an entry of the file refers to this value.
pub open spec fn entry_refers(
    t: &Tree,
    unique: bool,
    o: PageOrdinal,
    i: int,
    value: Seq<u8>,
) -> bool {
    let p = t.spec_store().pages()[o];
    &&& t.spec_store().pages().contains_key(o)
    &&& 0 <= i < node::page_count(p)
    &&& cursor::stored_key(t.spec_encoding(), p, i) matches Some(k)
    &&& cursor::stored_value(t, p, i) matches Some(raw)
    &&& index_row(t.spec_store().pages(), unique, Row { key: k, value: raw }) matches Some(row)
    &&& row.value == value
}

/// Whether the file has an entry that refers to this value, whatever else is wrong with it.
pub open spec fn recorded(t: &Tree, unique: bool, value: Seq<u8>) -> bool {
    exists|o: PageOrdinal, i: int| #[trigger] entry_refers(t, unique, o, i, value)
}

/// Whether every entry of an index tree stands for something.
pub open spec fn refers(t: &Tree, unique: bool, s: TreeShape) -> bool {
    forall|r: int|
        0 <= r < s.rows.len() ==> index_row(
            t.spec_store().pages(),
            unique,
            #[trigger] s.rows[r],
        ) is Some
}

/// Whether an entry of the file refers into a page.
pub open spec fn refers_into(t: &Tree, o: PageOrdinal, i: int, page: PageOrdinal) -> bool {
    let p = t.spec_store().pages()[o];
    &&& t.spec_store().pages().contains_key(o)
    &&& 0 <= i < node::page_count(p)
    &&& cursor::stored_value(t, p, i) matches Some(raw)
    &&& pageref::page_ref_at(raw) matches Some(r)
    &&& r.page == page
}

/// Whether an error is one that reading a page that an entry refers into may report.
pub open spec fn refer_failed(t: &Tree, e: Error) -> bool {
    exists|o: PageOrdinal, i: int, page: PageOrdinal| #[trigger]
        refers_into(t, o, i, page) && t.fault_at(page, e)
}

/// Whether an error is one that a scan of an index may report.
pub open spec fn index_failure(t: &Tree, unique: bool, ends: Ends, e: Error) -> bool {
    ||| scan::walk_failure(t, ends, e)
    ||| {
        &&& t.spec_root() is Some
        &&& t.fault(e) || refer_failed(t, e)
        &&& t.spec_store().excused(e) || !t.spec_store().steady() || forall|
            s: TreeShape,
            layout: NodeLayout,
        | #[trigger]
            t.holds(s, layout) ==> !refers(t, unique, s)
    }
}

/// A cursor over a secondary index.
///
/// Each step resolves the stored [`PageRef`] into the record bytes, which means loading the
/// page it points at. The row is materialised into the cursor (the key is copied, the value
/// is an owning guard), so the two pages involved are not both borrowed at once.
pub struct IndexCursor {
    cursor: Cursor,
    unique: bool,
    key: Vec<u8>,
    /// What `key` costs. A cursor is a caller's object and a caller can hold many.
    key_charge: Charge,
    value: Option<ValueGuard>,
}

impl IndexCursor {
    /// The cursor over the index tree.
    pub closed spec fn inner(&self) -> Cursor {
        self.cursor
    }

    /// Whether the index rejects duplicate keys.
    pub closed spec fn spec_unique(&self) -> bool {
        self.unique
    }

    /// The current index key.
    pub closed spec fn spec_key(&self) -> Seq<u8> {
        self.key@
    }

    /// The current record value, until it is taken.
    pub closed spec fn spec_value(&self) -> Option<Seq<u8>> {
        match self.value {
            Some(g) => Some(g@),
            None => None,
        }
    }

    /// Whether the cursor is in a state its methods keep.
    pub closed spec fn wf(&self) -> bool {
        &&& self.cursor.wf()
        &&& self.key_charge.owner() == self.cursor.spec_tree().spec_store().spec_budget()
    }

    /// Whether a cursor made a step: onto an entry, whose index key and record it then has, or
    /// past the last one.
    pub open spec fn advanced(old: IndexCursor, new: IndexCursor, more: bool) -> bool {
        &&& cursor::advanced(old.inner(), new.inner(), Ok::<bool, Error>(more))
        &&& more ==> new.spec_value() is Some && index_row(
            old.inner().spec_tree().spec_store().pages(),
            old.spec_unique(),
            new.inner().entry()->Some_0,
        ) == Some((Row { key: new.spec_key(), value: new.spec_value()->Some_0 }))
        &&& !more ==> new.spec_value() is None && new.spec_key() == Seq::<u8>::empty()
    }

    fn over(cursor: Cursor, unique: bool) -> (r: Result<IndexCursor, Error>)
        requires
            cursor.wf(),
        ensures
            r matches Ok(c) && c.wf() && c.inner() == cursor && c.spec_unique() == unique
                && c.spec_value() is None && c.spec_key() == Seq::<u8>::empty(),
    {
        let key_charge = match cursor.tree().store().budget().try_reserve(0) {
            Ok(c) => c,
            Err(e) => return Err(e),
        };
        Ok(IndexCursor { cursor, unique, key: Vec::new(), key_charge, value: None })
    }

    /// Moves to the next index entry.
    ///
    /// The inner cursor undoes its own failures, but resolving the reference an entry points
    /// at happens after it has already moved, and that read can fail for a reason the caller
    /// can do something about. It is put back then, so a retry returns the row that could not
    /// be read rather than the one after it.
    pub fn advance(&mut self) -> (r: Result<bool, Error>)
        requires
            old(self).wf(),
        ensures
            final(self).wf(),
            final(self).spec_unique() == old(self).spec_unique(),
            match r {
                Ok(more) => IndexCursor::advanced(*old(self), *final(self), more),
                Err(e) => {
                    &&& final(self).inner().place() == old(self).inner().place()
                    &&& final(self).inner().spec_tree() == old(self).inner().spec_tree()
                    &&& final(self).inner().spec_order() == old(self).inner().spec_order()
                    &&& final(self).inner().ends() == old(self).inner().ends()
                    &&& final(self).spec_value() is None
                    &&& final(self).spec_key() == Seq::<u8>::empty()
                    &&& index_failure(
                        &*old(self).inner().spec_tree(),
                        old(self).spec_unique(),
                        old(self).inner().ends(),
                        e,
                    )
                },
            },
    {
        let ghost before = *old(self);
        let ghost t = &*before.cursor.spec_tree();
        let saved = self.cursor.position();
        self.value = None;
        self.key = Vec::new();
        match self.cursor.advance() {
            Ok(true) => {},
            Ok(false) => {
                return Ok(false);
            },
            Err(e) => {
                return Err(e);
            },
        }
        let ghost moved = self.cursor;
        match self.resolve_current() {
            Ok(_) => Ok(true),
            Err(e) => {
                proof {
                    assert forall|s: TreeShape, layout: NodeLayout| #[trigger]
                        t.holds(s, layout) implies t.spec_store().excused(e) || !t.spec_store().steady() || !refers(t, before.unique, s) by {
                        assert(cursor::stepped(before.cursor, moved, true, s));
                        assert(cursor::on_row(moved, s));
                    }
                }
                self.cursor.restore(saved);
                self.key = Vec::new();
                self.value = None;
                Err(e)
            },
        }
    }

    /// Reads what the entry under the inner cursor stands for.
    fn resolve_current(&mut self) -> (r: Result<(), Error>)
        requires
            old(self).wf(),
            cursor::on_entry(old(self).inner()),
        ensures
            final(self).wf(),
            final(self).inner() == old(self).inner(),
            final(self).spec_unique() == old(self).spec_unique(),
            ({
                let t = old(self).inner().spec_tree();
                let row = index_row(
                    t.spec_store().pages(),
                    old(self).spec_unique(),
                    old(self).inner().entry()->Some_0,
                );
                match r {
                    Ok(_) => final(self).spec_value() is Some && row == Some(
                        Row {
                            key: final(self).spec_key(),
                            value: final(self).spec_value()->Some_0,
                        },
                    ),
                    Err(e) => {
                        &&& t.fault(e) || refer_failed(&*t, e) || t.key_denied(e)
                        &&& t.spec_store().excused(e) || !t.spec_store().steady() || row is None
                    },
                }
            }),
    {
        let ghost t = self.cursor.spec_tree();
        let entry = match self.cursor.current() {
            Some(entry) => entry,
            None => return Err(Error::corrupt("index cursor advanced without an entry")),
        };
        let raw = entry.value();
        if raw.len() != PAGE_REF_LEN {
            return Err(
                Error::corrupt_number(
                    "index entry value is ",
                    raw.len() as u64,
                    " bytes, expected a 16 byte PageRef",
                ),
            );
        }
        let reference = match PageRef::parse(raw) {
            Ok(p) => p,
            Err(e) => return Err(e),
        };
        let key = entry.key();
        let source_key = if self.unique {
            key
        } else {
            match DuplicateKeyEncoding::split(key) {
                Ok((source, _)) => source,
                Err(e) => return Err(e),
            }
        };
        // Reserved before the buffer is grown, not after.
        let tree = self.cursor.tree();
        match charge_at_least(&**tree, &mut self.key_charge, source_key.len()) {
            Ok(_) => {},
            Err(e) => {
                proof {
                    let at = old(self).inner().place();
                    let p = t.spec_store().pages()[at->page];
                    t.spec_store().lemma_short_most(
                        budget::capped(source_key@.len() + BUFFER_OVERHEAD),
                        budget::capped(key@.len() + BUFFER_OVERHEAD),
                        e,
                    );
                    assert(t.key_denied_on(p, at->index, e));
                    t.lemma_key_denied(at->page, at->index, e);
                }
                return Err(e);
            },
        }
        self.key = range::copied(source_key);
        proof {
            let at = old(self).inner().place();
            assert(refers_into(&*t, at->page, at->index, reference.page));
        }
        let pin = match tree.store().page(reference.page) {
            Ok(pin) => pin,
            Err(e) => return Err(e),
        };
        let found = match reference.range(pin.len()) {
            Ok(found) => found,
            Err(e) => return Err(e),
        };
        match pin.into_guard(found) {
            Ok(g) => {
                self.value = Some(g);
                Ok(())
            },
            Err(e) => Err(e),
        }
    }

    /// The current index key, without the internal record id.
    pub fn key(&self) -> (r: &[u8])
        ensures
            r@ == self.spec_key(),
    {
        self.key.as_slice()
    }

    /// The current record value.
    pub fn value(&self) -> (r: Option<&ValueGuard>)
        ensures
            match r {
                Some(g) => self.spec_value() == Some(g@),
                None => self.spec_value() is None,
            },
    {
        match &self.value {
            Some(g) => Some(g),
            None => None,
        }
    }

    /// Takes the current value, leaving the cursor positioned.
    pub fn take_value(&mut self) -> (r: Option<ValueGuard>)
        requires
            old(self).wf(),
        ensures
            final(self).wf(),
            final(self).inner() == old(self).inner(),
            final(self).spec_unique() == old(self).spec_unique(),
            final(self).spec_key() == old(self).spec_key(),
            final(self).spec_value() is None,
            match r {
                Some(g) => old(self).spec_value() == Some(g@),
                None => old(self).spec_value() is None,
            },
    {
        self.value.take()
    }
}

/// The key of an owned or borrowed point.
pub open spec fn point_ends(unique: bool, e: SharedEncoding, key: Seq<u8>) -> Ends {
    tree_ends(unique, e, Bound::Included(key), Bound::Included(key))
}

/// Whether a value is that of the first row of a tree in a range, or there is no such row.
pub open spec fn first_record(
    t: &Tree,
    unique: bool,
    ends: Ends,
    s: TreeShape,
    value: Option<Seq<u8>>,
) -> bool {
    match value {
        Some(v) => exists|r: int|
            0 <= r < s.rows.len() && #[trigger] first_selected(t, ends, s, r) && (index_row(
                t.spec_store().pages(),
                unique,
                s.rows[r],
            ) matches Some(row) && row.value == v),
        None => forall|x: int|
            0 <= x < s.rows.len() ==> !ends.selects(
                t.spec_encoding(),
                (#[trigger] s.rows[x]).key,
            ),
    }
}

/// Whether row `r` is the first one in a range.
pub open spec fn first_selected(t: &Tree, ends: Ends, s: TreeShape, r: int) -> bool {
    &&& ends.selects(t.spec_encoding(), s.rows[r].key)
    &&& forall|x: int|
        0 <= x < r ==> !ends.selects(t.spec_encoding(), (#[trigger] s.rows[x]).key)
}

impl Index {
    /// The index descriptor.
    pub closed spec fn spec_descriptor(&self) -> IndexDescriptor {
        self.inner.spec_descriptor()
    }

    /// The tree of the index.
    pub closed spec fn spec_tree(&self) -> Arc<Tree> {
        self.inner.spec_tree()
    }

    /// The encoding callers pass keys in.
    pub closed spec fn spec_source(&self) -> SharedEncoding {
        self.inner.spec_source()
    }

    /// What the handle shares.
    pub closed spec fn spec_inner(&self) -> Arc<IndexInner> {
        self.inner
    }

    /// Whether the index rejects duplicate keys.
    pub open spec fn spec_unique(&self) -> bool {
        self.spec_descriptor().is_unique
    }

    /// The bounds of a range of index keys, in the key space of the tree.
    pub open spec fn tree_ends(&self, lo: Bound<Seq<u8>>, hi: Bound<Seq<u8>>) -> Ends {
        tree_ends(self.spec_unique(), self.spec_source(), lo, hi)
    }

    /// Whether bounds describe a range of the index: the encoding takes both, and the lower
    /// one does not sort above the upper one. Prefixes are not checked as keys.
    pub open spec fn takes(&self, lo: Bound<Seq<u8>>, hi: Bound<Seq<u8>>, keys: bool) -> bool {
        let given = Ends { lower: lo, upper: hi, empty: false };
        let ends = self.tree_ends(lo, hi);
        let e = self.spec_tree().spec_encoding();
        &&& keys ==> given.well_formed(self.spec_source())
        &&& self.spec_unique() || ((lo is Unbounded || hi is Unbounded) || given.accepted(
            self.spec_source(),
        ))
        &&& ends.empty || (keys ==> ends.well_formed(e)) && ends.comparable(e)
    }

    /// Whether an error is what bounds get that describe no range of the index: what the
    /// encoding says of malformed keys, where they are.
    pub open spec fn not_taken(&self, lo: Bound<Seq<u8>>, hi: Bound<Seq<u8>>, e: Error) -> bool {
        let given = Ends { lower: lo, upper: hi, empty: false };
        &&& !self.takes(lo, hi, true)
        &&& !e.is_resource()
        &&& !given.well_formed(self.spec_source()) ==> self.spec_source().inner.rejects(e.kind())
    }

    /// Whether a cursor is a new one over a range of the index.
    pub open spec fn started(
        &self,
        c: IndexCursor,
        lo: Bound<Seq<u8>>,
        hi: Bound<Seq<u8>>,
        order: Order,
    ) -> bool {
        &&& c.wf()
        &&& c.spec_unique() == self.spec_unique()
        &&& c.inner().spec_tree() == self.spec_tree()
        &&& c.inner().spec_order() == order
        &&& is_tree_range(self.spec_unique(), self.spec_source(), lo, hi, c.inner().ends())
        &&& c.inner().place() == (if self.tree_ends(lo, hi).empty {
            Place::Past
        } else {
            Place::Before
        })
        &&& c.inner().entry() is None
        &&& c.spec_value() is None
    }

    /// The tree of the index.
    pub(crate) fn tree(&self) -> (r: &Arc<Tree>)
        ensures
            *r == self.spec_tree(),
    {
        &self.inner.tree
    }

    /// A handle.
    pub(crate) fn new(inner: Arc<IndexInner>) -> (r: Index)
        ensures
            r.spec_inner() == inner,
            r.spec_descriptor() == inner.spec_descriptor(),
            r.spec_tree() == inner.spec_tree(),
            r.spec_source() == inner.spec_source(),
    {
        Index { inner }
    }

    /// Index name.
    pub fn name(&self) -> (r: &str)
        ensures
            r@ == self.spec_descriptor().name@,
    {
        self.inner.descriptor.name.as_str()
    }

    /// Whether the index rejects duplicate keys.
    pub fn is_unique(&self) -> (r: bool)
        ensures
            r == self.spec_unique(),
    {
        self.inner.descriptor.is_unique
    }

    /// The key encoding callers pass keys in. For a non-unique index this is the *source*
    /// encoding; the record id suffix is internal.
    pub fn key_encoding(&self) -> (r: &SharedEncoding)
        ensures
            *r == self.spec_source(),
    {
        &self.inner.source_encoding
    }

    /// The index descriptor.
    pub fn descriptor(&self) -> (r: &IndexDescriptor)
        ensures
            *r == self.spec_descriptor(),
    {
        &self.inner.descriptor
    }

    /// The first value indexed under `key`, or `None`.
    ///
    /// On a non-unique index this is the row with the lowest record id. Record ids are
    /// assigned in primary key order, not in the order rows were appended, so this is the
    /// matching row whose primary key sorts first.
    pub fn get(&self, key: &[u8]) -> (r: Result<Option<ValueGuard>, Error>)
        ensures
            ({
                let t = &*self.spec_tree();
                let ends = point_ends(self.spec_unique(), self.spec_source(), key@);
                let point = Bound::Included(key@);
                match r {
                    Ok(found) => {
                        &&& self.takes(point, point, true)
                        &&& match found {
                            Some(g) => t.spec_root() is Some && recorded(t, self.spec_unique(), g@),
                            None => scan::begun(t, ends, true, None),
                        }
                        &&& forall|s: TreeShape, layout: NodeLayout| #[trigger]
                            t.holds(s, layout) ==> first_record(
                                t,
                                self.spec_unique(),
                                ends,
                                s,
                                match found {
                                    Some(g) => Some(g@),
                                    None => None,
                                },
                            )
                    },
                    Err(e) => self.bounds_denied(point, point, e) || self.not_taken(point, point, e) || index_failure(t, self.spec_unique(), ends, e),
                }
            }),
    {
        let ghost ends = point_ends(self.spec_unique(), self.spec_source(), key@);
        let mut cursor = match self.lookup(key) {
            Ok(c) => c,
            Err(e) => return Err(e),
        };
        let ghost before = cursor.inner();
        let ghost t = &*self.spec_tree();
        match cursor.advance() {
            Ok(true) => {
                proof {
                    let at = cursor.inner().place();
                    assert(cursor::on_entry(cursor.inner()));
                    assert(entry_refers(
                        t,
                        self.spec_unique(),
                        at->page,
                        at->index,
                        cursor.spec_value()->Some_0,
                    ));
                    assert forall|s: TreeShape, layout: NodeLayout| #[trigger]
                        t.holds(s, layout) implies first_record(
                        t,
                        self.spec_unique(),
                        ends,
                        s,
                        cursor.spec_value(),
                    ) by {
                        lemma_first(self, before, cursor, s, layout);
                    }
                }
                Ok(cursor.take_value())
            },
            Ok(false) => {
                proof {
                    assert forall|s: TreeShape, layout: NodeLayout| #[trigger]
                        t.holds(s, layout) implies first_record(
                        t,
                        self.spec_unique(),
                        ends,
                        s,
                        None,
                    ) by {
                        assert(cursor::stepped(before, cursor.inner(), false, s));
                    }
                }
                Ok(None)
            },
            Err(e) => Err(e),
        }
    }

    /// Every value indexed under `key`, in record id order.
    pub fn lookup(&self, key: &[u8]) -> (r: Result<IndexCursor, Error>)
        ensures
            ({
                let point = Bound::Included(key@);
                match r {
                    Ok(c) => self.takes(point, point, true) && self.started(
                        c,
                        point,
                        point,
                        Order::Ascending,
                    ),
                    Err(e) => self.bounds_denied(point, point, e) || self.not_taken(point, point, e),
                }
            }),
    {
        match self.inner.source_encoding.inner.validate_key(key) {
            Ok(_) => {},
            Err(e) => return Err(e),
        }
        self.range(Bound::Included(key), Bound::Included(key), Order::Ascending)
    }

    /// A cursor over an index key range.
    pub fn range(&self, lower: Bound<&[u8]>, upper: Bound<&[u8]>, order: Order) -> (r: Result<
        IndexCursor,
        Error,
    >)
        ensures
            ({
                let (lo, hi) = (range::bound_of_slice(lower), range::bound_of_slice(upper));
                match r {
                    Ok(c) => self.takes(lo, hi, true) && self.started(c, lo, hi, order),
                    Err(e) => self.bounds_denied(lo, hi, e) || self.not_taken(lo, hi, e),
                }
            }),
    {
        let charge = match self.reserve_bounds(lower, upper) {
            Ok(c) => c,
            Err(e) => return Err(e),
        };
        let wanted = match self.tree_range(lower, upper, true) {
            Ok(r) => r,
            Err(e) => return Err(e),
        };
        let cursor = match Cursor::new(Arc::clone(&self.inner.tree), charge, wanted, order) {
            Ok(c) => c,
            Err(e) => return Err(e),
        };
        IndexCursor::over(cursor, self.inner.descriptor.is_unique)
    }

    /// A cursor over every entry.
    pub fn scan(&self, order: Order) -> (r: Result<IndexCursor, Error>)
        ensures
            match r {
                Ok(c) => self.started(c, Bound::Unbounded, Bound::Unbounded, order),
                Err(_) => false,
            },
    {
        self.range(Bound::Unbounded, Bound::Unbounded, order)
    }

    /// A cursor over every index key starting with `prefix`.
    pub fn prefix(&self, prefix: &[u8], order: Order) -> (r: Result<IndexCursor, Error>)
        ensures
            ({
                let ends = range::prefix_ends(prefix@);
                match r {
                    Ok(c) => self.spec_source().inner.lexicographic() && self.takes(
                        ends.lower,
                        ends.upper,
                        false,
                    ) && self.started(c, ends.lower, ends.upper, order),
                    Err(e) => {
                        ||| self.spec_source().inner.lexicographic() && self.bounds_denied(
                            Bound::Included(prefix@),
                            Bound::Included(prefix@),
                            e,
                        )
                        ||| self.spec_source().inner.lexicographic() && self.bounds_denied(
                            ends.lower,
                            ends.upper,
                            e,
                        )
                        ||| !self.spec_source().inner.lexicographic() && e.kind()
                            == ErrorKind::InvalidArgument
                        ||| self.spec_source().inner.lexicographic() && !self.takes(
                            ends.lower,
                            ends.upper,
                            false,
                        ) && !e.is_resource()
                    },
                }
            }),
    {
        if !self.inner.source_encoding.inner.is_byte_lexicographic() {
            return Err(not_lexicographic(&self.inner.source_encoding));
        }
        // Charged twice over: once for the prefix range, once for the composite keys the
        // tree range makes out of it. Both are live at the same time.
        let prefix_charge = match self.reserve_bounds(
            Bound::Included(prefix),
            Bound::Included(prefix),
        ) {
            Ok(c) => c,
            Err(e) => return Err(e),
        };
        let source = prefix_range(prefix);
        let (lower, upper) = (
            range::as_ref_bound(source.lower_bound()),
            range::as_ref_bound(source.upper_bound()),
        );
        let charge = match self.reserve_bounds(lower, upper) {
            Ok(c) => c,
            Err(e) => return Err(e),
        };
        let wanted = match self.tree_range(lower, upper, false) {
            Ok(r) => r,
            Err(e) => return Err(e),
        };
        // The copies go before the reservation that stood for them, not after: between the
        // two the budget would say the memory is free while it is still held, and building
        // the cursor below reserves in exactly that window.
        crate::budget::let_go(source);
        crate::budget::let_go(prefix_charge);
        let cursor = match Cursor::for_prefix(Arc::clone(&self.inner.tree), charge, wanted, order) {
            Ok(c) => c,
            Err(e) => return Err(e),
        };
        IndexCursor::over(cursor, self.inner.descriptor.is_unique)
    }

    /// Counts index entries in a range, without resolving any value.
    pub fn count_range(&self, lower: Bound<&[u8]>, upper: Bound<&[u8]>) -> (r: Result<u64, Error>)
        ensures
            ({
                let (lo, hi) = (range::bound_of_slice(lower), range::bound_of_slice(upper));
                let t = &*self.spec_tree();
                let ends = self.tree_ends(lo, hi);
                match r {
                    Ok(n) => self.takes(lo, hi, true) && (ends.empty ==> n == 0) && (!ends.empty
                        ==> count::counted_along(t, ends, n)) && forall|
                        s: TreeShape,
                        layout: NodeLayout,
                    | #[trigger]
                        t.holds(s, layout) ==> count::is_count(t, ends, s, n),
                    Err(e) => self.bounds_denied(lo, hi, e) || self.not_taken(lo, hi, e) || scan::scan_failure(t, ends, e),
                }
            }),
    {
        let ghost (lo, hi) = (range::bound_of_slice(lower), range::bound_of_slice(upper));
        let _charge = match self.reserve_bounds(lower, upper) {
            Ok(c) => c,
            Err(e) => return Err(e),
        };
        let wanted = match self.tree_range(lower, upper, true) {
            Ok(r) => r,
            Err(e) => return Err(e),
        };
        if wanted.is_empty() {
            proof {
                let t = &*self.spec_tree();
                let ends = self.tree_ends(lo, hi);
                assert forall|s: TreeShape, layout: NodeLayout| #[trigger]
                    t.holds(s, layout) implies count::is_count(t, ends, s, 0) by {
                    assert(crate::query::laws::selected_run(
                        t.spec_encoding(),
                        ends,
                        s.rows,
                        0,
                        0,
                    ));
                }
            }
            return Ok(0);
        }
        count_range(
            &self.inner.tree,
            range::as_ref_bound(wanted.lower_bound()),
            range::as_ref_bound(wanted.upper_bound()),
        )
    }

    /// Counts every index entry.
    pub fn count(&self) -> (r: Result<u64, Error>)
        ensures
            match r {
                Ok(n) => count::counted_along(
                    &*self.spec_tree(),
                    (Ends { lower: Bound::Unbounded, upper: Bound::Unbounded, empty: false }),
                    n,
                ) && forall|s: TreeShape, layout: NodeLayout| #[trigger]
                    self.spec_tree().holds(s, layout) ==> n == crate::budget::capped(
                        s.rows.len() as int,
                    ),
                Err(e) => self.spec_tree().failure(e),
            },
    {
        let r = count_range(&self.inner.tree, Bound::Unbounded, Bound::Unbounded);
        proof {
            count::lemma_count_all(&*self.spec_tree());
        }
        r
    }

    /// Whether an error says that there was no memory for copies of two bounds, as the tree
    /// has them.
    pub open spec fn bounds_denied(
        &self,
        lower: Bound<Seq<u8>>,
        upper: Bound<Seq<u8>>,
        e: Error,
    ) -> bool {
        self.spec_tree().spec_store().lacks(
            cursor::bounds_price(
                lower,
                upper,
                if self.spec_unique() {
                    0
                } else {
                    RID_LEN as u64
                },
            ),
            e,
        )
    }

    /// Reserves what the owned copies of these bounds will cost.
    ///
    /// A non-unique index appends a record id to each bound, so the copy is four bytes
    /// longer than the caller's key.
    fn reserve_bounds(&self, lower: Bound<&[u8]>, upper: Bound<&[u8]>) -> (r: Result<Charge, Error>)
        ensures
            match r {
                Ok(c) => c.owner() == self.spec_tree().spec_store().spec_budget(),
                Err(e) => self.bounds_denied(
                    range::bound_of_slice(lower),
                    range::bound_of_slice(upper),
                    e,
                ),
            },
    {
        let extra: u64 = if self.inner.descriptor.is_unique {
            0
        } else {
            RID_LEN as u64
        };
        cursor::reserve_bounds(&*self.inner.tree, lower, upper, extra)
    }

    /// Takes caller bounds to the tree's key space.
    ///
    /// `validate` is off for prefix bounds, which are shorter than a key by definition. An
    /// empty range stays empty. Widening `k` into `(k, 0)..=(k, i32::MAX)` turns bounds that
    /// merely meet, which select nothing, into bounds that cross, which is what a reversed
    /// range looks like; the primary tree answers the same query with no rows, and so does
    /// this.
    fn tree_range(&self, lower: Bound<&[u8]>, upper: Bound<&[u8]>, validate: bool) -> (r: Result<
        KeyRange,
        Error,
    >)
        ensures
            ({
                let (lo, hi) = (range::bound_of_slice(lower), range::bound_of_slice(upper));
                let given = Ends { lower: lo, upper: hi, empty: false };
                let ok = (validate ==> given.well_formed(self.spec_source())) && (
                self.spec_unique() || (lo is Unbounded || hi is Unbounded) || given.accepted(
                    self.spec_source(),
                ));
                match r {
                    Ok(k) => ok && is_tree_range(
                        self.spec_unique(),
                        self.spec_source(),
                        lo,
                        hi,
                        k@,
                    ),
                    Err(e) => !ok && !e.is_resource() && (validate && !given.well_formed(
                        self.spec_source(),
                    ) ==> self.spec_source().inner.rejects(e.kind())),
                }
            }),
    {
        let low = range::borrowed_key(&lower);
        let high = range::borrowed_key(&upper);
        if validate {
            if let Some(k) = low {
                match self.inner.source_encoding.inner.validate_key(k) {
                    Ok(_) => {},
                    Err(e) => return Err(e),
                }
            }
            if let Some(k) = high {
                match self.inner.source_encoding.inner.validate_key(k) {
                    Ok(_) => {},
                    Err(e) => return Err(e),
                }
            }
        }
        if self.inner.descriptor.is_unique {
            return Ok(KeyRange::new(lower, upper));
        }
        if let (Some(lo), Some(hi)) = (low, high) {
            let same = match self.inner.source_encoding.order(lo, hi) {
                Ok(KeyOrder::Equal) => true,
                Ok(_) => false,
                Err(e) => return Err(e),
            };
            let open = match (&lower, &upper) {
                (Bound::Excluded(_), _) => true,
                (_, Bound::Excluded(_)) => true,
                _ => false,
            };
            if same && open {
                return Ok(KeyRange::empty());
            }
        }
        let tree_lower = match lower {
            Bound::Unbounded => Bound::Unbounded,
            Bound::Included(k) => Bound::Included(DuplicateKeyEncoding::encode(k, 0)),
            Bound::Excluded(k) => Bound::Excluded(DuplicateKeyEncoding::encode(k, i32::MAX)),
        };
        let tree_upper = match upper {
            Bound::Unbounded => Bound::Unbounded,
            Bound::Included(k) => Bound::Included(DuplicateKeyEncoding::encode(k, i32::MAX)),
            Bound::Excluded(k) => Bound::Excluded(DuplicateKeyEncoding::encode(k, 0)),
        };
        Ok(KeyRange::from_bounds(tree_lower, tree_upper))
    }
}

/// Reports a prefix query on an encoding that does not order keys by their bytes.
pub(crate) fn not_lexicographic(encoding: &SharedEncoding) -> (r: Error)
    ensures
        r.kind() == ErrorKind::InvalidArgument,
{
    let mut message = "encoding `".to_owned();
    message.append(encoding.inner.id());
    message.append(
        "` does not order keys by their bytes, so a byte prefix does not describe a key range; use `range` instead",
    );
    Error::from_text(ErrorKind::InvalidArgument, message)
}

/// The first step of a lookup is on the first row in the range.
proof fn lemma_first(
    index: &Index,
    before: Cursor,
    after: IndexCursor,
    s: TreeShape,
    layout: NodeLayout,
)
    requires
        before.spec_tree() == index.spec_tree(),
        before.spec_order() == Order::Ascending,
        before.place() is Before,
        before.spec_tree().holds(s, layout),
        cursor::advanced(before, after.inner(), Ok::<bool, Error>(true)),
        after.spec_value() is Some,
        index_row(
            before.spec_tree().spec_store().pages(),
            index.spec_unique(),
            after.inner().entry()->Some_0,
        ) == Some(Row { key: after.spec_key(), value: after.spec_value()->Some_0 }),
    ensures
        first_record(
            &*index.spec_tree(),
            index.spec_unique(),
            before.ends(),
            s,
            after.spec_value(),
        ),
{
    let t = &*before.spec_tree();
    let (e, ends) = (t.spec_encoding(), before.ends());
    let new = after.inner();
    assert(cursor::stepped(before, new, true, s));
    let (page, i) = (new.place()->page, new.place()->index);
    let r = choose|r: int| #[trigger]
        paths::entry_is_row(s, page, i, r) && scan::starts(e, ends, true, s.rows, r);
    let q = choose|q: int| #[trigger]
        paths::entry_is_row(s, page, i, q) && 0 <= q < s.rows.len() && ends.selects(
            e,
            s.rows[q].key,
        ) && new.entry() == Some(s.rows[q]);
    crate::query::laws::lemma_one_row(t, s, layout, page, i, q, r);
    assert forall|x: int| 0 <= x < r implies !ends.selects(e, (#[trigger] s.rows[x]).key) by {
        assert(!scan::reached(e, ends, true, s.rows[x].key));
    }
    assert(first_selected(t, ends, s, r));
}

} // verus!
