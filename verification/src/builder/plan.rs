//! What a build was asked for, and what it has to make of it.

use std::sync::Arc;

use vstd::prelude::*;
use vstd::utf8::*;

use super::level;
use super::run::{self, Entry};
use super::scratch::Scratch;
use super::spool::{self, RecordSpool};
use super::tree;
use crate::encoding::duplicate;
use crate::encoding::{self, KeyEncoding, SharedEncoding};
use crate::error::Error;
use crate::format::catalog::{IndexModel, TableModel, ValueKind};
use crate::format::node::NodeLayout;
use crate::format::pageref::PageRef;
use crate::format::PageOrdinal;
use crate::index;
use crate::model::{self, Row, TreeShape};

verus! {

/// Derives a secondary index key from a record.
///
/// It receives the record's key and value and runs once per record while the primary tree
/// is written.
///
/// The spec functions have defaults, for implementations that nothing is proved of; one that
/// is verified gives its own.
pub trait SecondaryKeyFn: Send + Sync {
    /// The index key of a record, or `None` when the record has none and the build fails.
    open spec fn index_key(&self, key: Seq<u8>, value: Seq<u8>) -> Option<Seq<u8>> {
        None
    }

    /// Derives the index key of a record.
    fn derive(&self, key: &[u8], value: &[u8]) -> (r: Result<Vec<u8>, Error>)
        ensures
            match r {
                Ok(k) => self.index_key(key@, value@) == Some(k@),
                Err(_) => self.index_key(key@, value@) is None,
            },
    ;
}

/// A derivation of index keys.
pub struct SharedKeyFn {
    pub inner: Arc<Box<dyn SecondaryKeyFn>>,
}

/// A secondary index a build was asked for.
pub struct IndexPlan {
    pub name: Seq<char>,
    pub unique: bool,
    pub encoding: SharedEncoding,
    pub key_fn: SharedKeyFn,
}

/// A table a build was asked for, with the rows appended to it.
pub struct TablePlan {
    pub name: Seq<char>,
    pub encoding: SharedEncoding,
    pub indexes: Seq<IndexPlan>,
    pub rows: Seq<Row>,
}

/// A secondary index that has been declared.
pub struct SecondarySpec {
    pub name: String,
    pub unique: bool,
    pub encoding: SharedEncoding,
    pub key_fn: SharedKeyFn,
}

impl View for SecondarySpec {
    type V = IndexPlan;

    open spec fn view(&self) -> IndexPlan {
        IndexPlan {
            name: self.name@,
            unique: self.unique,
            encoding: self.encoding,
            key_fn: self.key_fn,
        }
    }
}

/// What declared indexes come to.
pub open spec fn index_plans(l: Seq<SecondarySpec>) -> Seq<IndexPlan> {
    Seq::new(l.len(), |i: int| l[i]@)
}

/// A table that has been declared, with the sorter its rows go to.
pub struct TableSpec<S: Scratch> {
    pub name: String,
    pub encoding: SharedEncoding,
    pub secondaries: Vec<SecondarySpec>,
    pub spool: RecordSpool<S>,
}

impl<S: Scratch> View for TableSpec<S> {
    type V = TablePlan;

    open spec fn view(&self) -> TablePlan {
        TablePlan {
            name: self.name@,
            encoding: self.encoding,
            indexes: index_plans(self.secondaries@),
            rows: self.spool.rows(),
        }
    }
}

impl<S: Scratch> TableSpec<S> {
    /// Whether the table is in a state a build keeps.
    pub open spec fn wf(&self) -> bool {
        &&& self.spool.wf()
        &&& self.spool.key_encoding() == self.encoding
        &&& indexes_apart(self.name@, index_plans(self.secondaries@))
    }
}

/// Whether no two indexes of a table have the same name, the primary one among them.
pub open spec fn indexes_apart(table: Seq<char>, l: Seq<IndexPlan>) -> bool {
    &&& forall|i: int| 0 <= i < l.len() ==> (#[trigger] l[i]).name != primary_name(table)
    &&& forall|i: int, j: int|
        0 <= i < j < l.len() ==> (#[trigger] l[i]).name != (#[trigger] l[j]).name
}

/// Whether no two tables have the same name.
pub open spec fn tables_apart(l: Seq<TablePlan>) -> bool {
    forall|i: int, j: int|
        0 <= i < j < l.len() ==> (#[trigger] l[i]).name != (#[trigger] l[j]).name
}

/// What declared tables come to.
pub open spec fn table_plans<S: Scratch>(l: Seq<TableSpec<S>>) -> Seq<TablePlan> {
    Seq::new(l.len(), |i: int| l[i]@)
}

/// How pages are laid out.
pub struct PagePlan {
    pub page_size: int,
    pub eytzinger: bool,
}

/// The name of a table's primary index.
pub open spec fn primary_name(table: Seq<char>) -> Seq<char> {
    table + "_pk"@
}

/// Whether an index descriptor is the one of an index with this name and encoding.
pub open spec fn index_described(
    m: IndexModel,
    name: Seq<char>,
    encoding: SharedEncoding,
    unique: bool,
    value_kind: ValueKind,
) -> bool {
    &&& m.name == name
    &&& m.is_unique == unique
    &&& m.encoding == encoding.inner.name()
    &&& m.value_kind == value_kind
    &&& m.root is Some
}

/// Whether a table descriptor is the one of a table.
pub open spec fn described(m: TableModel, t: TablePlan) -> bool {
    &&& m.name == t.name
    &&& index_described(m.primary, primary_name(t.name), t.encoding, true, ValueKind::RawData)
    &&& m.secondaries.len() == t.indexes.len()
    &&& forall|j: int|
        0 <= j < m.secondaries.len() ==> index_described(
            #[trigger] m.secondaries[j],
            t.indexes[j].name,
            t.indexes[j].encoding,
            t.indexes[j].unique,
            ValueKind::PageRef,
        )
}

/// The rows of records.
pub open spec fn rows_of(l: Seq<Entry>) -> Seq<Row> {
    Seq::new(l.len(), |i: int| Row { key: l[i].key, value: l[i].value })
}

/// Whether the primary tree of a table holds its rows: `order` is the rows sorted by key,
/// and no key occurs twice.
pub open spec fn primary_built(
    p: PagePlan,
    t: TablePlan,
    m: IndexModel,
    pages: Seq<Seq<u8>>,
    order: Seq<Entry>,
) -> bool {
    &&& spool::rows_taken(t.encoding, t.rows)
    &&& run::sorted_run(t.encoding, t.rows, 0, t.rows.len() as int, order)
    &&& m.root is Some
    &&& encoding::lawful(&**t.encoding.inner) ==> model::holds_packed(
        rows_of(order),
        t.encoding,
        tree::layout_for(p.page_size, p.eytzinger, t.encoding, true),
        model::page_map(pages),
        m.root->Some_0,
        p.page_size,
    )
}

/// How many records before this one have the same key, in records sorted by key.
pub open spec fn record_id(e: SharedEncoding, l: Seq<Entry>, i: int) -> int
    decreases i,
{
    if i <= 0 || e.inner.sign(l[i - 1].key, l[i].key) != 0 {
        0
    } else {
        record_id(e, l, i - 1) + 1
    }
}

/// The rows of an index tree. A unique index holds the records as they are; in any other,
/// records with equal keys are told apart by a record id that counts up from zero.
pub open spec fn index_rows(unique: bool, e: SharedEncoding, l: Seq<Entry>) -> Seq<Row> {
    if unique {
        rows_of(l)
    } else {
        Seq::new(
            l.len(),
            |i: int|
                Row {
                    key: duplicate::composite(l[i].key, record_id(e, l, i)),
                    value: l[i].value,
                },
        )
    }
}

/// The records of an index: the index key of each row, with a reference to where its value
/// is, in the order of the table's primary keys.
pub open spec fn index_records(ix: IndexPlan, order: Seq<Entry>, refs: Seq<PageRef>) -> Seq<Row> {
    Seq::new(
        order.len(),
        |i: int|
            Row {
                key: ix.key_fn.inner.index_key(order[i].key, order[i].value)->Some_0,
                value: refs[i].bytes(),
            },
    )
}

/// Where a tree is, and how its pages are laid out.
pub struct TreePlace {
    pub encoding: SharedEncoding,
    pub layout: NodeLayout,
    pub root: PageOrdinal,
}

/// Where the primary tree of a table is.
pub open spec fn primary_tree(p: PagePlan, t: TablePlan, m: IndexModel) -> TreePlace {
    TreePlace {
        encoding: t.encoding,
        layout: tree::layout_for(p.page_size, p.eytzinger, t.encoding, true),
        root: m.root->Some_0,
    }
}

/// Whether these are the references to the values of the first rows of a tree.
pub open spec fn refs_in(s: TreeShape, pages: Seq<Seq<u8>>, refs: Seq<PageRef>) -> bool {
    forall|q: int|
        0 <= q < refs.len() ==> model::row_ref(s, model::page_map(pages), q, #[trigger] refs[q])
}

/// Whether pages hold a tree of rows, and these are the references to their values.
pub open spec fn tree_refs(
    h: TreePlace,
    pages: Seq<Seq<u8>>,
    rows: Seq<Row>,
    refs: Seq<PageRef>,
) -> bool {
    exists|s: TreeShape|
        s.rows == rows && s.levels.len() <= model::MAX_LEVELS && #[trigger] model::tree_ok(
            s,
            h.encoding,
            h.layout,
            model::page_map(pages),
            h.root,
        ) && refs_in(s, pages, refs)
}

/// Whether references designate the values of rows, where the tree that holds the rows has
/// them.
pub open spec fn refs_ok(
    h: TreePlace,
    pages: Seq<Seq<u8>>,
    order: Seq<Entry>,
    refs: Seq<PageRef>,
) -> bool {
    &&& refs.len() == order.len()
    &&& forall|i: int|
        0 <= i < order.len() ==> level::refers_to(pages, #[trigger] refs[i], order[i].value)
    &&& encoding::lawful(&**h.encoding.inner) ==> tree_refs(h, pages, rows_of(order), refs)
}

/// Whether every row of a table has an index key.
pub open spec fn all_keyed(ix: IndexPlan, order: Seq<Entry>) -> bool {
    forall|i: int|
        0 <= i < order.len() ==> ix.key_fn.inner.index_key(
            (#[trigger] order[i]).key,
            order[i].value,
        ) is Some
}

/// Whether a tree holds the records of an index sorted by `l`.
pub open spec fn index_holds(
    p: PagePlan,
    unique: bool,
    source: SharedEncoding,
    l: Seq<Entry>,
    pages: Seq<Seq<u8>>,
    root: PageOrdinal,
) -> bool {
    encoding::lawful(&**source.inner) ==> exists|e: SharedEncoding|
        {
            &&& #[trigger] index::tree_encoding(unique, source, e)
            &&& model::holds_rows(
                index_rows(unique, source, l),
                e,
                tree::layout_for(p.page_size, p.eytzinger, e, unique),
                model::page_map(pages),
                root,
            )
        }
}

/// Whether the tree of an index holds an entry for every row of its table.
pub open spec fn index_built(
    p: PagePlan,
    h: TreePlace,
    ix: IndexPlan,
    m: IndexModel,
    pages: Seq<Seq<u8>>,
    order: Seq<Entry>,
) -> bool {
    &&& m.root is Some
    &&& all_keyed(ix, order)
    &&& exists|refs: Seq<PageRef>, l: Seq<Entry>|
        {
            &&& #[trigger] refs_ok(h, pages, order, refs)
            &&& #[trigger] run::sorted_run(
                ix.encoding,
                index_records(ix, order, refs),
                0,
                order.len() as int,
                l,
            )
            &&& index_holds(p, ix.unique, ix.encoding, l, pages, m.root->Some_0)
        }
}

/// Whether the trees of a table hold what was asked for, given its rows in key order.
pub open spec fn table_holds(
    p: PagePlan,
    t: TablePlan,
    m: TableModel,
    pages: Seq<Seq<u8>>,
    order: Seq<Entry>,
) -> bool {
    &&& primary_built(p, t, m.primary, pages, order)
    &&& forall|j: int|
        0 <= j < t.indexes.len() ==> #[trigger] index_built(
            p,
            primary_tree(p, t, m.primary),
            t.indexes[j],
            m.secondaries[j],
            pages,
            order,
        )
}

/// Whether a table was built as it was asked for.
pub open spec fn table_built(p: PagePlan, t: TablePlan, m: TableModel, pages: Seq<Seq<u8>>) -> bool {
    described(m, t) && exists|order: Seq<Entry>| #[trigger] table_holds(p, t, m, pages, order)
}

} // verus!
