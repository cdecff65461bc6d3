//! Tables.

use std::sync::Arc;

use vstd::prelude::*;
use vstd::string::*;

use crate::blob::{self, BlobReader};
use crate::btree::within::{self, SearchOp};
use crate::btree::{self, paths, resolve_value, resolve_value_cached, Tree};
use crate::budget::{self, Charge, Charged, Reserve, BUFFER_OVERHEAD};
use crate::encoding::{EncodingRegistry, KeyEncoding, SharedEncoding};
use crate::error::{Error, ErrorKind};
use crate::format::catalog::{self, describe_name, TableDescriptor, ValueKind};
use crate::format::node::{self, LeafValue, NodeKind, NodeLayout};
use crate::format::PageOrdinal;
use crate::index::{self, not_lexicographic, Index, IndexInner};
use crate::model::{self, TreeShape};
use crate::page::{PagePin, ValueGuard};
use crate::query::count::{self, count_range};
use crate::query::cursor::{self, Cursor, Order};
use crate::query::range::{self, prefix_range, Bound, Ends, KeyRange};
use crate::query::scan;
use crate::store::PageStore;

verus! {

broadcast use crate::format::group_format;

/// The memory one borrowed name takes in a list.
pub const NAME_SLOT_BYTES: u64 = 16;

/// What a table handle shares.
pub struct TableInner {
    descriptor: TableDescriptor,
    primary: Arc<Tree>,
    secondaries: Vec<Arc<IndexInner>>,
    /// Keeps the catalog's reservation alive for as long as this handle holds a copy of
    /// its descriptor, which can be past the end of the database.
    catalog_charge: Arc<Charge>,
}

impl TableInner {
    /// The table's descriptor.
    pub closed spec fn spec_descriptor(&self) -> TableDescriptor {
        self.descriptor
    }

    /// The primary tree.
    pub closed spec fn spec_primary(&self) -> Arc<Tree> {
        self.primary
    }

    /// The secondary indexes, in descriptor order.
    pub closed spec fn spec_secondaries(&self) -> Seq<Arc<IndexInner>> {
        self.secondaries@
    }

    /// Whether the handle, its tree and its indexes keep a reservation alive.
    pub closed spec fn shares(&self, charge: Arc<Charge>) -> bool {
        &&& self.catalog_charge == charge
        &&& self.primary.spec_charge() == charge
        &&& forall|i: int|
            0 <= i < self.secondaries@.len() ==> (#[trigger] self.secondaries@[i]).shares(charge)
    }

    #[verifier::type_invariant]
    spec fn matched(&self) -> bool {
        &&& self.secondaries@.len() == self.descriptor.secondaries@.len()
        &&& forall|i: int|
            0 <= i < self.secondaries@.len() ==> (
            #[trigger] self.secondaries@[i]).spec_descriptor() == self.descriptor.secondaries@[i]
    }

    /// Whether the trees of the table and of its indexes are in a store.
    pub open spec fn on(&self, store: Arc<PageStore>) -> bool {
        &&& self.spec_primary().spec_store() == store
        &&& forall|k: int|
            0 <= k < self.spec_secondaries().len() ==> (
            #[trigger] self.spec_secondaries()[k]).spec_tree().spec_store() == store
    }

    /// Whether a tree is that of the table or of one of its indexes.
    pub open spec fn has_tree(&self, t: Tree) -> bool {
        ||| t == *self.spec_primary()
        ||| exists|k: int|
            0 <= k < self.spec_secondaries().len() && t == *(
            #[trigger] self.spec_secondaries()[k]).spec_tree()
    }

    /// Whether this is the handle of a table of a store.
    pub open spec fn opened(
        &self,
        descriptor: TableDescriptor,
        store: Arc<PageStore>,
        encodings: Map<Seq<char>, SharedEncoding>,
    ) -> bool {
        &&& self.spec_descriptor()@ == descriptor@
        &&& descriptor.primary.value_kind == ValueKind::RawData
        &&& index::resolves(
            encodings,
            descriptor.primary.key_encoding_id@,
            self.spec_primary().spec_encoding(),
        )
        &&& self.spec_primary().spec_store() == store
        &&& self.spec_primary().spec_root() == descriptor.primary.root
        &&& self.spec_secondaries().len() == descriptor.secondaries@.len()
        &&& forall|i: int|
            0 <= i < descriptor.secondaries@.len() ==> (
            #[trigger] self.spec_secondaries()[i]).opened(
                descriptor.secondaries@[i],
                store,
                encodings,
            )
    }

    /// Whether its trees check the digests of a page before they use it, or do not.
    pub open spec fn validates(&self, validate_digests: bool) -> bool {
        &&& self.spec_primary().spec_validates() == validate_digests
        &&& forall|i: int|
            0 <= i < self.spec_secondaries().len() ==> (
            #[trigger] self.spec_secondaries()[i]).spec_tree().spec_validates() == validate_digests
    }

    /// Builds the handle of a table of a store.
    pub(crate) fn build(
        descriptor: &TableDescriptor,
        store: &Arc<PageStore>,
        encodings: &EncodingRegistry,
        validate_digests: bool,
        catalog_charge: &Arc<Charge>,
    ) -> (r: Result<TableInner, Error>)
        ensures
            match r {
                Ok(t) => {
                    &&& t.opened(*descriptor, *store, encodings@)
                    &&& t.validates(validate_digests)
                    &&& t.shares(*catalog_charge)
                    &&& table_verdict(descriptor@, encodings@) is None
                },
                Err(e) => table_verdict(descriptor@, encodings@) == Some(e.kind()),
            },
    {
        match descriptor.primary.value_kind {
            ValueKind::RawData => {},
            _ => {
                let mut message = "primary index of table `".to_owned();
                message.append(describe_name(descriptor.name.as_str()).as_str());
                message.append("` stores ");
                message.append(descriptor.primary.value_kind.name());
                message.append(", expected RawData");
                return Err(Error::from_text(ErrorKind::UnsupportedFormat, message));
            },
        }
        let encoding = match encodings.resolve(descriptor.primary.key_encoding_id.as_str()) {
            Ok(e) => e,
            Err(e) => return Err(e),
        };
        let primary = Arc::new(
            Tree::new(
                Arc::clone(store),
                descriptor.primary.root,
                encoding,
                validate_digests,
                Arc::clone(catalog_charge),
            ),
        );
        let mut secondaries: Vec<Arc<IndexInner>> = Vec::new();
        let mut i: usize = 0;
        let ghost models = descriptor@.secondaries;
        while i < descriptor.secondaries.len()
            invariant
                i <= descriptor.secondaries@.len(),
                models == descriptor@.secondaries,
                secondaries@.len() == i,
                table_verdict(descriptor@, encodings@) == indexes_verdict(models, encodings@),
                indexes_verdict(models.subrange(0, i as int), encodings@) is None,
                forall|j: int|
                    0 <= j < i ==> (#[trigger] secondaries@[j]).opened(
                        descriptor.secondaries@[j],
                        *store,
                        encodings@,
                    ) && secondaries@[j].spec_tree().spec_validates() == validate_digests
                        && secondaries@[j].shares(*catalog_charge),
            decreases descriptor.secondaries@.len() - i,
        {
            let ghost k = i as int;
            proof {
                let front = models.subrange(0, k + 1);
                assert(front.drop_last() =~= models.subrange(0, k));
                assert(front.last() == descriptor.secondaries@[k]@);
            }
            match IndexInner::build(
                &descriptor.secondaries[i],
                store,
                encodings,
                validate_digests,
                catalog_charge,
            ) {
                Ok(index) => {
                    secondaries.push(Arc::new(index));
                },
                Err(e) => {
                    proof {
                        lemma_indexes_verdict(models, encodings@, k + 1);
                    }
                    return Err(e);
                },
            }
            i += 1;
        }
        proof {
            assert(models.subrange(0, i as int) =~= models);
        }
        Ok(
            TableInner {
                descriptor: descriptor.clone(),
                primary,
                secondaries,
                catalog_charge: Arc::clone(catalog_charge),
            },
        )
    }
}

/// Why an index cannot be opened, if it cannot.
pub open spec fn index_verdict(
    m: catalog::IndexModel,
    kind: ValueKind,
    encodings: Map<Seq<char>, SharedEncoding>,
) -> Option<ErrorKind> {
    if m.value_kind != kind {
        Some(ErrorKind::UnsupportedFormat)
    } else if !index::known(encodings, m.encoding) {
        Some(ErrorKind::UnknownEncoding)
    } else {
        None
    }
}

/// Why one of a list of secondary indexes cannot be opened, the first of them that cannot.
pub open spec fn indexes_verdict(
    l: Seq<catalog::IndexModel>,
    encodings: Map<Seq<char>, SharedEncoding>,
) -> Option<ErrorKind>
    decreases l.len(),
{
    if l.len() == 0 {
        None
    } else {
        match indexes_verdict(l.drop_last(), encodings) {
            Some(k) => Some(k),
            None => index_verdict(l.last(), ValueKind::PageRef, encodings),
        }
    }
}

/// Why a table cannot be opened, if it cannot.
pub open spec fn table_verdict(
    t: catalog::TableModel,
    encodings: Map<Seq<char>, SharedEncoding>,
) -> Option<ErrorKind> {
    match index_verdict(t.primary, ValueKind::RawData, encodings) {
        Some(k) => Some(k),
        None => indexes_verdict(t.secondaries, encodings),
    }
}

/// The first reason stands.
proof fn lemma_indexes_verdict(l: Seq<catalog::IndexModel>, encodings: Map<Seq<char>, SharedEncoding>, n: int)
    requires
        0 <= n <= l.len(),
        indexes_verdict(l.subrange(0, n), encodings) is Some,
    ensures
        indexes_verdict(l, encodings) == indexes_verdict(l.subrange(0, n), encodings),
    decreases l.len(),
{
    if n == l.len() {
        assert(l.subrange(0, n) =~= l);
    } else {
        assert(l.drop_last().subrange(0, n) =~= l.subrange(0, n));
        lemma_indexes_verdict(l.drop_last(), encodings, n);
    }
}

/// The outcome of a lookup that was not allowed to perform I/O.
pub enum CachedLookup {
    /// The key was found and its value is cached.
    Value(ValueGuard),
    /// Every page on the path was cached, and the key is not in the table.
    Missing,
    /// A page on the path is not cached, so the answer is unknown.
    NotCached,
}

impl CachedLookup {
    /// The value, if the lookup completed and found one.
    pub fn value(self) -> (r: Option<ValueGuard>)
        ensures
            match self {
                CachedLookup::Value(v) => r == Some(v),
                _ => r is None,
            },
    {
        match self {
            CachedLookup::Value(v) => Some(v),
            _ => None,
        }
    }

    /// Whether the lookup completed without needing I/O.
    pub fn is_resolved(&self) -> (r: bool)
        ensures
            r == !(self is NotCached),
    {
        match self {
            CachedLookup::NotCached => false,
            _ => true,
        }
    }
}

/// A table: one primary key tree plus its secondary indexes.
pub struct Table {
    inner: Arc<TableInner>,
}

impl Clone for Table {
    fn clone(&self) -> (r: Self)
        ensures
            r == *self,
    {
        Table { inner: Arc::clone(&self.inner) }
    }
}

/// Whether a tree has a row with this key and value.
pub open spec fn has_row(t: &Tree, s: TreeShape, key: Seq<u8>, value: Seq<u8>) -> bool {
    exists|r: int|
        0 <= r < s.rows.len() && t.spec_encoding().inner.sign((#[trigger] s.rows[r]).key, key) == 0
            && s.rows[r].value == value
}

/// Whether a tree has no row with this key.
pub open spec fn lacks_key(t: &Tree, s: TreeShape, key: Seq<u8>) -> bool {
    forall|r: int|
        0 <= r < s.rows.len() ==> t.spec_encoding().inner.sign((#[trigger] s.rows[r]).key, key) != 0
}

/// Whether an error is one that looking a key up may report.
pub open spec fn lookup_failure(t: &Tree, key: Seq<u8>, e: Error) -> bool {
    ||| !t.spec_encoding().inner.well_formed(key) && !e.is_resource()
        && t.spec_encoding().inner.rejects(e.kind())
    ||| t.spec_encoding().inner.well_formed(key) && t.key_failure(key, e)
}

/// Whether an entry of a leaf of the file has a key that compares as equal to this one, and this
/// value.
pub open spec fn entry_has(t: &Tree, key: Seq<u8>, value: Seq<u8>, o: PageOrdinal, i: int) -> bool {
    let pages = t.spec_store().pages();
    &&& pages.contains_key(o)
    &&& node::page_kind(pages[o]) == NodeKind::Leaf
    &&& 0 <= i < node::page_count(pages[o])
    &&& within::entry_sign(t.spec_encoding(), pages[o], i, key) == 0
    &&& cursor::stored_value(t, pages[o], i) == Some(value)
}

/// Whether the file has an entry with such a key and this value, whatever else is wrong with it.
pub open spec fn stored_under(t: &Tree, key: Seq<u8>, value: Seq<u8>) -> bool {
    exists|o: PageOrdinal, i: int| #[trigger] entry_has(t, key, value, o, i)
}

/// Whether an entry of a leaf of the file has a key that compares as equal to this one, and this
/// in the position of its value.
pub open spec fn entry_says(
    t: &Tree,
    key: Seq<u8>,
    o: PageOrdinal,
    i: int,
    value: LeafValue,
) -> bool {
    let pages = t.spec_store().pages();
    &&& t.spec_root() is Some
    &&& pages.contains_key(o)
    &&& node::page_kind(pages[o]) == NodeKind::Leaf
    &&& 0 <= i < node::page_count(pages[o])
    &&& within::entry_sign(t.spec_encoding(), pages[o], i, key) == 0
    &&& node::leaf_entry_at(pages[o], i) matches Some(entry)
    &&& entry.value == value
}

/// Whether the file has an entry with such a key and its value in the leaf.
pub open spec fn inline_under(t: &Tree, key: Seq<u8>) -> bool {
    exists|o: PageOrdinal, i: int, value: LeafValue| #[trigger]
        entry_says(t, key, o, i, value) && value is Inline
}

/// Whether the file has an entry with such a key and its value on this page.
pub open spec fn blob_under(t: &Tree, key: Seq<u8>, page: PageOrdinal) -> bool {
    exists|o: PageOrdinal, i: int| #[trigger]
        entry_says(t, key, o, i, LeafValue::Overflow { page })
}

/// Whether the value of a key is on a page that is not cached.
pub open spec fn value_elsewhere(t: &Tree, key: Seq<u8>) -> bool {
    exists|page: PageOrdinal|
        t.spec_store().not_cached(page) && #[trigger] blob_under(t, key, page)
}

/// Whether the value of a key is stored in its leaf.
pub open spec fn inline_value(t: &Tree, s: TreeShape, key: Seq<u8>) -> bool {
    exists|o: PageOrdinal, i: int, r: int| #[trigger]
        paths::entry_is_row(s, o, i, r) && t.spec_encoding().inner.sign(s.rows[r].key, key) == 0 && (
        node::leaf_entry_at(t.spec_store().pages()[o], i) matches Some(entry)
            && entry.value is Inline)
}

/// Whether the value of a key is stored on a page of its own.
pub open spec fn blob_value(t: &Tree, s: TreeShape, key: Seq<u8>) -> bool {
    exists|o: PageOrdinal, i: int, r: int| #[trigger]
        paths::entry_is_row(s, o, i, r) && t.spec_encoding().inner.sign(s.rows[r].key, key) == 0 && (
        node::leaf_entry_at(t.spec_store().pages()[o], i) matches Some(entry)
            && entry.value is Overflow)
}

/// Whether this is what is answered to who asks for a reader of the value of a key.
pub open spec fn blob_answer(
    t: &Tree,
    key: Seq<u8>,
    r: Result<Option<BlobReader>, Error>,
) -> bool {
    match r {
        Ok(found) => {
            &&& t.spec_encoding().inner.well_formed(key)
            &&& match found {
                Some(b) => t.spec_root() is Some && t.spec_store().file().filter is None
                    && b.spec_store() == t.spec_store() && b.spec_pos() == 0 && blob_under(
                    t,
                    key,
                    b.spec_page(),
                ),
                None => t.missed(key),
            }
            &&& forall|s: TreeShape, layout: NodeLayout| #[trigger]
                t.holds(s, layout) ==> match found {
                    Some(b) => b.complete() && has_row(t, s, key, b.spec_value()) && blob_value(
                        t,
                        s,
                        key,
                    ),
                    None => lacks_key(t, s, key),
                }
        },
        Err(e) => {
            ||| lookup_failure(t, key, e)
            ||| e.kind() == ErrorKind::InvalidArgument && inline_under(t, key) && forall|
                s: TreeShape,
                layout: NodeLayout,
            | #[trigger]
                t.holds(s, layout) ==> inline_value(t, s, key)
            ||| e.kind() == ErrorKind::Unsupported && t.spec_store().file().filter is Some
                && exists|page: PageOrdinal| #[trigger] blob_under(t, key, page)
        },
    }
}

/// What an entry that a search found says.
proof fn lemma_found(
    t: &Tree,
    key: Seq<u8>,
    pin: PagePin,
    index: usize,
    s: TreeShape,
    layout: NodeLayout,
) -> (r: int)
    requires
        t.holds(s, layout),
        btree::search_result(t, key, SearchOp::Equal, Some((pin, index))),
    ensures
        paths::entry_is_row(s, pin.spec_ordinal(), index as int, r),
        0 <= r < s.rows.len(),
        t.spec_encoding().inner.sign(s.rows[r].key, key) == 0,
        node::page_ok(pin@),
        node::leaf_entry_at(pin@, index as int) is Some,
        cursor::stored_value(t, pin@, index as int) == Some(s.rows[r].value),
        has_row(t, s, key, s.rows[r].value),
{
    let e = t.spec_encoding();
    let o = pin.spec_ordinal();
    assert(paths::is_found(s, e, key, SearchOp::Equal, o, index as int));
    let r = choose|r: int| #[trigger]
        paths::entry_is_row(s, o, index as int, r) && paths::is_row(s, e, key, SearchOp::Equal, r);
    cursor::lemma_entry_is_row(t, s, layout, o, index as int, r);
    r
}

impl Reserve for Table {
    fn reserve(&self, bytes: u64) -> (r: Result<Charge, Error>)
        ensures
            self.spec_tree().spec_store().reserved(bytes, r),
    {
        Table::reserve(self, bytes)
    }
}

impl Table {
    /// What the handle shares.
    pub closed spec fn spec_inner(&self) -> Arc<TableInner> {
        self.inner
    }

    /// The primary tree.
    pub open spec fn spec_tree(&self) -> Arc<Tree> {
        self.spec_inner().spec_primary()
    }

    /// The table's descriptor.
    pub open spec fn spec_descriptor(&self) -> TableDescriptor {
        self.spec_inner().spec_descriptor()
    }

    /// A handle.
    pub(crate) fn new(inner: Arc<TableInner>) -> (r: Table)
        ensures
            r.spec_inner() == inner,
    {
        Table { inner }
    }

    /// Table name.
    pub fn name(&self) -> (r: &str)
        ensures
            r@ == self.spec_descriptor().name@,
    {
        self.inner.descriptor.name.as_str()
    }

    /// Reserves `bytes` of the database's memory budget, reclaiming cached pages if it has
    /// to.
    pub fn reserve(&self, bytes: u64) -> (r: Result<Charge, Error>)
        ensures
            self.spec_tree().spec_store().reserved(bytes, r),
    {
        self.inner.primary.store().reserve(bytes)
    }

    /// The primary key encoding.
    pub fn key_encoding(&self) -> (r: &SharedEncoding)
        ensures
            *r == self.spec_tree().spec_encoding(),
    {
        self.inner.primary.encoding()
    }

    /// The table's descriptor.
    pub fn descriptor(&self) -> (r: &TableDescriptor)
        ensures
            *r == self.spec_descriptor(),
    {
        &self.inner.descriptor
    }

    /// Secondary index names, in descriptor order.
    ///
    /// The list is the caller's memory, so it is reserved before it is built and comes back
    /// with the reservation that paid for it. The names themselves are borrowed.
    pub fn index_names(&self) -> (r: Result<Charged<Vec<&str>>, Error>)
        ensures
            match r {
                Ok(names) => {
                    &&& names.spec_value()@.len() == self.spec_descriptor().secondaries@.len()
                    &&& forall|i: int|
                        0 <= i < names.spec_value()@.len() ==> (
                        #[trigger] names.spec_value()@[i])@
                            == self.spec_descriptor().secondaries@[i].name@
                    &&& names.spec_charged() == names_price(
                        self.spec_descriptor().secondaries@.len() as int,
                    )
                    &&& names.owner() == self.spec_tree().spec_store().spec_budget()
                },
                Err(e) => self.spec_tree().spec_store().lacks(
                    names_price(self.spec_descriptor().secondaries@.len() as int),
                    e,
                ),
            },
    {
        let secondaries = &self.inner.descriptor.secondaries;
        let charge = match self.inner.primary.store().reserve(names_cost(secondaries.len())) {
            Ok(c) => c,
            Err(e) => return Err(e),
        };
        let mut names: Vec<&str> = Vec::new();
        let mut i: usize = 0;
        while i < secondaries.len()
            invariant
                i <= secondaries@.len(),
                names@.len() == i,
                forall|j: int|
                    0 <= j < i ==> (#[trigger] names@[j])@ == secondaries@[j].name@,
            decreases secondaries@.len() - i,
        {
            names.push(secondaries[i].name.as_str());
            i += 1;
        }
        Ok(Charged::new(names, charge))
    }

    /// Looks one key up.
    pub fn get(&self, key: &[u8]) -> (r: Result<Option<ValueGuard>, Error>)
        ensures
            ({
                let t = &*self.spec_tree();
                match r {
                    Ok(found) => {
                        &&& t.spec_encoding().inner.well_formed(key@)
                        &&& match found {
                            Some(g) => t.spec_root() is Some && stored_under(t, key@, g@)
                                && g.spec_pin().paid(t.spec_store().spec_budget()),
                            None => t.missed(key@),
                        }
                        &&& forall|s: TreeShape, layout: NodeLayout| #[trigger]
                            t.holds(s, layout) ==> match found {
                                Some(g) => has_row(t, s, key@, g@),
                                None => lacks_key(t, s, key@),
                            }
                    },
                    Err(e) => lookup_failure(t, key@, e),
                }
            }),
    {
        let tree = &self.inner.primary;
        let ghost t = &**tree;
        match tree.encoding().inner.validate_key(key) {
            Ok(_) => {},
            Err(e) => return Err(e),
        }
        let (pin, index) = match tree.find(key) {
            Ok(Some(found)) => found,
            Ok(None) => return Ok(None),
            Err(e) => return Err(e),
        };
        proof {
            assert forall|s: TreeShape, layout: NodeLayout| #[trigger]
                t.holds(s, layout) implies node::page_ok(pin@) && node::leaf_entry_at(
                pin@,
                index as int,
            ) is Some && cursor::stored_value(t, pin@, index as int) is Some && has_row(
                t,
                s,
                key@,
                cursor::stored_value(t, pin@, index as int)->Some_0,
            ) by {
                let r = lemma_found(t, key@, pin, index, s, layout);
            }
        }
        let view = match pin.parsed() {
            Ok(v) => v,
            Err(e) => return Err(e),
        };
        let entry = match view.leaf_entry(index) {
            Ok(entry) => entry,
            Err(e) => return Err(e),
        };
        proof {
            if let LeafValue::Overflow { page } = entry.value {
                assert(node::leaf_entry_at(pin@, index as int) == Some(entry));
                assert(btree::names(pin@, page));
                t.lemma_knows(pin.spec_ordinal(), page);
            }
        }
        let (value_pin, found) = match resolve_value(&**tree.store(), &pin, &entry) {
            Ok(v) => v,
            Err(e) => {
                proof {
                    if let LeafValue::Overflow { page } = entry.value {
                        assert(t.fault_at(page, e));
                    }
                }
                return Err(e);
            },
        };
        match value_pin.into_guard(found) {
            Ok(g) => {
                proof {
                    assert(entry_has(t, key@, g@, pin.spec_ordinal(), index as int));
                }
                Ok(Some(g))
            },
            Err(e) => Err(e),
        }
    }

    /// Looks one key up, but only against pages that are already cached.
    ///
    /// Never performs I/O, so it is safe to call from a context that must not block.
    /// [`CachedLookup::NotCached`] means the answer is unknown, not that the key is absent;
    /// fall back to [`Table::get`] on another thread for that.
    pub fn get_cached(&self, key: &[u8]) -> (r: Result<CachedLookup, Error>)
        ensures
            ({
                let t = &*self.spec_tree();
                match r {
                    Ok(found) => {
                        &&& t.spec_encoding().inner.well_formed(key@)
                        &&& match found {
                            CachedLookup::Value(g) => t.spec_root() is Some && stored_under(
                                t,
                                key@,
                                g@,
                            ) && g.spec_pin().paid(t.spec_store().spec_budget()),
                            CachedLookup::Missing => t.missed(key@),
                            CachedLookup::NotCached => t.stopped(key@) || value_elsewhere(t, key@),
                        }
                        &&& forall|s: TreeShape, layout: NodeLayout| #[trigger]
                            t.holds(s, layout) ==> match found {
                                CachedLookup::Value(g) => has_row(t, s, key@, g@),
                                CachedLookup::Missing => lacks_key(t, s, key@),
                                CachedLookup::NotCached => true,
                            }
                    },
                    Err(e) => lookup_failure(t, key@, e),
                }
            }),
    {
        let tree = &self.inner.primary;
        let ghost t = &**tree;
        match tree.encoding().inner.validate_key(key) {
            Ok(_) => {},
            Err(e) => return Err(e),
        }
        let (pin, index) = match tree.find_cached(key) {
            Ok(Some(Some(found))) => found,
            Ok(Some(None)) => return Ok(CachedLookup::Missing),
            Ok(None) => return Ok(CachedLookup::NotCached),
            Err(e) => return Err(e),
        };
        proof {
            assert forall|s: TreeShape, layout: NodeLayout| #[trigger]
                t.holds(s, layout) implies node::page_ok(pin@) && node::leaf_entry_at(
                pin@,
                index as int,
            ) is Some && cursor::stored_value(t, pin@, index as int) is Some && has_row(
                t,
                s,
                key@,
                cursor::stored_value(t, pin@, index as int)->Some_0,
            ) by {
                let r = lemma_found(t, key@, pin, index, s, layout);
            }
        }
        let view = match pin.parsed() {
            Ok(v) => v,
            Err(e) => return Err(e),
        };
        let entry = match view.leaf_entry(index) {
            Ok(entry) => entry,
            Err(e) => return Err(e),
        };
        match resolve_value_cached(&**tree.store(), &pin, &entry) {
            Ok(None) => {
                proof {
                    let page = entry.value->page;
                    assert(entry_says(t, key@, pin.spec_ordinal(), index as int, entry.value));
                    assert(blob_under(t, key@, page));
                }
                Ok(CachedLookup::NotCached)
            },
            Ok(Some((value_pin, found))) => match value_pin.into_guard(found) {
                Ok(g) => {
                    proof {
                        assert(entry_has(t, key@, g@, pin.spec_ordinal(), index as int));
                    }
                    Ok(CachedLookup::Value(g))
                },
                Err(e) => Err(e),
            },
            Err(e) => Err(e),
        }
    }

    /// Whether a key is present, without materialising its value.
    pub fn contains_key(&self, key: &[u8]) -> (r: Result<bool, Error>)
        ensures
            ({
                let t = &*self.spec_tree();
                match r {
                    Ok(b) => {
                        &&& t.spec_encoding().inner.well_formed(key@)
                        &&& if b {
                            t.spec_root() is Some
                        } else {
                            t.missed(key@)
                        }
                        &&& forall|s: TreeShape, layout: NodeLayout| #[trigger]
                            t.holds(s, layout) ==> b == !lacks_key(t, s, key@)
                    },
                    Err(e) => lookup_failure(t, key@, e),
                }
            }),
    {
        let tree = &self.inner.primary;
        let ghost t = &**tree;
        match tree.encoding().inner.validate_key(key) {
            Ok(_) => {},
            Err(e) => return Err(e),
        }
        match tree.find(key) {
            Ok(Some((pin, index))) => {
                proof {
                    assert forall|s: TreeShape, layout: NodeLayout| #[trigger]
                        t.holds(s, layout) implies !lacks_key(t, s, key@) by {
                        let r = lemma_found(t, key@, pin, index, s, layout);
                    }
                }
                Ok(true)
            },
            Ok(None) => Ok(false),
            Err(e) => Err(e),
        }
    }

    /// A streaming reader over a value stored on its own blob page.
    ///
    /// Returns `Ok(None)` when the key is missing, and [`ErrorKind::InvalidArgument`] when
    /// the value is stored inline (use [`Table::get`], which does not copy either). Blob
    /// streaming reads straight from the file and therefore needs an unfiltered database.
    pub fn blob_reader(&self, key: &[u8]) -> (r: Result<Option<BlobReader>, Error>)
        ensures
            blob_answer(&*self.spec_tree(), key@, r),
    {
        let tree = &self.inner.primary;
        let ghost t = &**tree;
        match tree.encoding().inner.validate_key(key) {
            Ok(_) => {},
            Err(e) => return Err(e),
        }
        let (pin, index) = match tree.find(key) {
            Ok(Some(found)) => found,
            Ok(None) => return Ok(None),
            Err(e) => return Err(e),
        };
        proof {
            assert forall|s: TreeShape, layout: NodeLayout| #[trigger]
                t.holds(s, layout) implies node::page_ok(pin@) && node::leaf_entry_at(
                pin@,
                index as int,
            ) is Some && stored_blob(t, s, key@, pin, index as int) by {
                let r = lemma_found(t, key@, pin, index, s, layout);
                lemma_stored_blob(t, key@, pin, index, s, layout, r);
            }
        }
        let view = match pin.parsed() {
            Ok(v) => v,
            Err(e) => return Err(e),
        };
        let entry = match view.leaf_entry(index) {
            Ok(entry) => entry,
            Err(e) => return Err(e),
        };
        proof {
            assert(entry_says(t, key@, pin.spec_ordinal(), index as int, entry.value));
            if let LeafValue::Overflow { page } = entry.value {
                assert(node::leaf_entry_at(pin@, index as int) == Some(entry));
                assert(btree::names(pin@, page));
                t.lemma_knows(pin.spec_ordinal(), page);
                assert(blob_under(t, key@, page));
            }
        }
        match entry.value {
            LeafValue::Inline { .. } => Err(
                Error::invalid("this value is stored inline in its leaf page; read it with `get`"),
            ),
            LeafValue::Overflow { page } => match BlobReader::open(tree.store(), page) {
                Ok(b) => Ok(Some(b)),
                Err(e) => {
                    proof {
                        if e.kind() != ErrorKind::Unsupported {
                            assert(t.fault_at(page, e));
                        }
                    }
                    Err(e)
                },
            },
        }
    }

    /// A cursor over a key range.
    pub fn range(&self, lower: Bound<&[u8]>, upper: Bound<&[u8]>, order: Order) -> (r: Result<
        Cursor,
        Error,
    >)
        ensures
            ({
                let ends = Ends {
                    lower: range::bound_of_slice(lower),
                    upper: range::bound_of_slice(upper),
                    empty: false,
                };
                let e = self.spec_tree().spec_encoding();
                let valid = ends.well_formed(e) && ends.comparable(e);
                match r {
                    Ok(c) => valid && self.started(c, ends, order),
                    Err(err) => self.spec_tree().spec_store().lacks(
                        cursor::bounds_price(ends.lower, ends.upper, 0),
                        err,
                    ) || !valid && range::refused(e, ends, err),
                }
            }),
    {
        let charge = match cursor::reserve_bounds(&*self.inner.primary, lower, upper, 0) {
            Ok(c) => c,
            Err(e) => return Err(e),
        };
        Cursor::new(Arc::clone(&self.inner.primary), charge, KeyRange::new(lower, upper), order)
    }

    /// Whether a cursor is a new one over a range of the table.
    pub open spec fn started(&self, c: Cursor, ends: Ends, order: Order) -> bool {
        &&& c.wf()
        &&& c.spec_tree() == self.spec_tree()
        &&& c.spec_order() == order
        &&& c.ends() == ends
        &&& c.place() is Before
        &&& c.entry() is None
    }

    /// A cursor over every entry.
    pub fn scan(&self, order: Order) -> (r: Result<Cursor, Error>)
        ensures
            match r {
                Ok(c) => self.started(
                    c,
                    (Ends { lower: Bound::Unbounded, upper: Bound::Unbounded, empty: false }),
                    order,
                ),
                Err(_) => false,
            },
    {
        self.range(Bound::Unbounded, Bound::Unbounded, order)
    }

    /// A cursor over every key starting with `prefix`.
    ///
    /// Only defined for encodings whose order is byte-lexicographic; `i64` and `uuidv7` keys
    /// report [`ErrorKind::InvalidArgument`] rather than returning a range that happens to
    /// be wrong.
    pub fn prefix(&self, prefix: &[u8], order: Order) -> (r: Result<Cursor, Error>)
        ensures
            ({
                let ends = range::prefix_ends(prefix@);
                let e = self.spec_tree().spec_encoding();
                match r {
                    Ok(c) => e.inner.lexicographic() && ends.comparable(e) && self.started(
                        c,
                        ends,
                        order,
                    ),
                    Err(err) => {
                        ||| e.inner.lexicographic() && self.spec_tree().spec_store().lacks(
                            cursor::bounds_price(
                                Bound::Included(prefix@),
                                Bound::Included(prefix@),
                                0,
                            ),
                            err,
                        )
                        ||| !e.inner.lexicographic() && err.kind() == ErrorKind::InvalidArgument
                        ||| e.inner.lexicographic() && !ends.comparable(e) && range::out_of_order(
                            e,
                            ends,
                            err,
                        )
                    },
                }
            }),
    {
        let encoding = self.inner.primary.encoding();
        if !encoding.inner.is_byte_lexicographic() {
            return Err(not_lexicographic(encoding));
        }
        let charge = match cursor::reserve_bounds(
            &*self.inner.primary,
            Bound::Included(prefix),
            Bound::Included(prefix),
            0,
        ) {
            Ok(c) => c,
            Err(e) => return Err(e),
        };
        Cursor::for_prefix(Arc::clone(&self.inner.primary), charge, prefix_range(prefix), order)
    }

    /// Counts entries in a range without reading any value.
    pub fn count_range(&self, lower: Bound<&[u8]>, upper: Bound<&[u8]>) -> (r: Result<u64, Error>)
        ensures
            ({
                let ends = Ends {
                    lower: range::bound_of_slice(lower),
                    upper: range::bound_of_slice(upper),
                    empty: false,
                };
                let t = &*self.spec_tree();
                let e = t.spec_encoding();
                let valid = ends.well_formed(e) && ends.comparable(e);
                match r {
                    Ok(n) => valid && count::counted_along(t, ends, n) && forall|
                        s: TreeShape,
                        layout: NodeLayout,
                    | #[trigger]
                        t.holds(s, layout) ==> count::is_count(t, ends, s, n),
                    Err(err) => if valid {
                        scan::scan_failure(t, ends, err)
                    } else {
                        range::refused(e, ends, err)
                    },
                }
            }),
    {
        count_range(&self.inner.primary, lower, upper)
    }

    /// Counts every entry.
    pub fn count(&self) -> (r: Result<u64, Error>)
        ensures
            match r {
                Ok(n) => count::counted_along(
                    &*self.spec_tree(),
                    (Ends { lower: Bound::Unbounded, upper: Bound::Unbounded, empty: false }),
                    n,
                ) && forall|s: TreeShape, layout: NodeLayout| #[trigger]
                    self.spec_tree().holds(s, layout) ==> n == budget::capped(s.rows.len() as int),
                Err(e) => self.spec_tree().failure(e),
            },
    {
        let r = count_range(&self.inner.primary, Bound::Unbounded, Bound::Unbounded);
        proof {
            count::lemma_count_all(&*self.spec_tree());
        }
        r
    }

    /// Opens a secondary index.
    pub fn index(&self, name: &str) -> (r: Result<Index, Error>)
        ensures
            match r {
                Ok(index) => exists|i: int|
                    0 <= i < self.spec_inner().spec_secondaries().len()
                        && self.spec_descriptor().secondaries@[i].name@ == name@ && (
                    #[trigger] self.spec_inner().spec_secondaries()[i]) == index.spec_inner(),
                Err(e) => e.kind() == ErrorKind::InvalidArgument && forall|i: int|
                    0 <= i < self.spec_descriptor().secondaries@.len() ==> (
                    #[trigger] self.spec_descriptor().secondaries@[i]).name@ != name@,
            },
    {
        proof {
            use_type_invariant(&*self.inner);
        }
        let wanted = name.to_owned();
        let secondaries = &self.inner.descriptor.secondaries;
        let mut i: usize = 0;
        while i < secondaries.len()
            invariant
                i <= secondaries@.len(),
                wanted@ == name@,
                secondaries@ == self.spec_descriptor().secondaries@,
                self.inner.secondaries@.len() == secondaries@.len(),
                self.inner.secondaries@ == self.spec_inner().spec_secondaries(),
                forall|j: int| 0 <= j < i ==> (#[trigger] secondaries@[j]).name@ != name@,
            decreases secondaries@.len() - i,
        {
            if secondaries[i].name == wanted {
                let found = Index::new(Arc::clone(&self.inner.secondaries[i]));
                proof {
                    assert(self.spec_inner().spec_secondaries()[i as int] == found.spec_inner());
                }
                return Ok(found);
            }
            i += 1;
        }
        let mut message = "table `".to_owned();
        message.append(describe_name(self.inner.descriptor.name.as_str()).as_str());
        message.append("` has no index named `");
        message.append(describe_name(name).as_str());
        message.append("`");
        Err(Error::from_text(ErrorKind::InvalidArgument, message))
    }

    /// How many indexes there are.
    pub(crate) fn index_count(&self) -> (r: usize)
        ensures
            r == self.spec_inner().spec_secondaries().len(),
    {
        self.inner.secondaries.len()
    }

    /// An index by its place in the descriptor.
    pub(crate) fn index_at(&self, i: usize) -> (r: Index)
        requires
            i < self.spec_inner().spec_secondaries().len(),
        ensures
            r.spec_inner() == self.spec_inner().spec_secondaries()[i as int],
            r.spec_tree() == self.spec_inner().spec_secondaries()[i as int].spec_tree(),
            r.spec_descriptor()
                == self.spec_inner().spec_secondaries()[i as int].spec_descriptor(),
    {
        Index::new(Arc::clone(&self.inner.secondaries[i]))
    }

    /// The primary tree.
    pub(crate) fn tree(&self) -> (r: &Arc<Tree>)
        ensures
            *r == self.spec_tree(),
    {
        &self.inner.primary
    }
}

/// What a list of so many borrowed names costs.
pub open spec fn names_price(n: int) -> u64 {
    budget::capped(NAME_SLOT_BYTES * n + BUFFER_OVERHEAD)
}

/// What a list of `n` borrowed names costs.
pub(crate) fn names_cost(n: usize) -> (r: u64)
    ensures
        r == names_price(n as int),
{
    let bytes: u128 = 16 * (n as u128) + BUFFER_OVERHEAD as u128;
    if bytes > u64::MAX as u128 {
        u64::MAX
    } else {
        bytes as u64
    }
}

/// What the entry of a key says of where its value is.
pub open spec fn stored_blob(t: &Tree, s: TreeShape, key: Seq<u8>, pin: PagePin, i: int) -> bool {
    match node::leaf_entry_at(pin@, i)->Some_0.value {
        LeafValue::Inline { .. } => inline_value(t, s, key),
        LeafValue::Overflow { page } => blob::streamable(&*t.spec_store(), page) && has_row(
            t,
            s,
            key,
            t.spec_store().pages()[page].subrange(
                crate::format::PAGE_PREFIX_LEN as int,
                t.spec_store().pages()[page].len() as int,
            ),
        ) && blob_value(t, s, key),
    }
}

proof fn lemma_stored_blob(
    t: &Tree,
    key: Seq<u8>,
    pin: PagePin,
    index: usize,
    s: TreeShape,
    layout: NodeLayout,
    r: int,
)
    requires
        t.holds(s, layout),
        t.pins(pin),
        paths::entry_is_row(s, pin.spec_ordinal(), index as int, r),
        0 <= r < s.rows.len(),
        t.spec_encoding().inner.sign(s.rows[r].key, key) == 0,
        has_row(t, s, key, s.rows[r].value),
    ensures
        stored_blob(t, s, key, pin, index as int),
{
    let (o, i) = (pin.spec_ordinal(), index as int);
    let (e, pages, root) = (t.spec_encoding(), t.spec_store().pages(), t.spec_root()->Some_0);
    cursor::lemma_entry_is_row(t, s, layout, o, i, r);
    let j = choose|j: int|
        #[trigger] paths::leaf_at(s, o, j) && 0 <= i < s.levels[0][j].count && r
            == s.levels[0][j].first + i;
    assert(model::node_ok(s, e, layout, pages, 0, j));
    assert(model::value_ok(pages, pages[o], i, s.rows[r].value));
    match node::leaf_entry_at(pin@, i)->Some_0.value {
        LeafValue::Inline { .. } => {
            assert(inline_value(t, s, key));
        },
        LeafValue::Overflow { page } => {
            assert(blob_value(t, s, key));
        },
    }
}

/// What a list of names costs: sixteen bytes for each, and 192.
pub proof fn lemma_names_price(n: int)
    requires
        0 <= n <= 0xFFFF,
    ensures
        names_price(n) == 16 * n + 192,
{
}

} // verus!
