//! What a build writes, a reader finds.

use vstd::prelude::*;

use super::open::{self, Opening};
use super::table;
use super::Database;
use crate::builder::describe;
use crate::builder::image::{self, Image, Plan};
use crate::builder::level;
use crate::builder::plan::{self, TablePlan};
use crate::builder::run::{self, Entry};
use crate::builder::sink;
use crate::builder::spool;
use crate::btree::Tree;
use crate::builder::tree;
use crate::directory;
use crate::encoding::duplicate;
use crate::encoding::{self, alike, KeyEncoding, SharedEncoding};
use crate::filter::{PageFilter, SharedFilter};
use crate::format::bytes;
use crate::format::catalog::{self, CatalogModel, Outcome};
use crate::format::extend;
use crate::format::node;
use crate::format::pageref::PageRef;
use crate::format::{PageOrdinal, DIRECTORY_SLOT_LEN, HEADER_LEN, PAGE_PREFIX_LEN};
use crate::index;
use crate::io::{PageSource, SharedSource};
use crate::model::{self, Row, TreeShape};
use crate::store::PageFile;

verus! {

broadcast use crate::format::group_format;

/// Whether two filters turn stored bytes into the same content.
pub open spec fn filters_alike(a: Option<SharedFilter>, b: Option<SharedFilter>) -> bool {
    match (a, b) {
        (None, None) => true,
        (Some(f), Some(g)) => forall|s: Seq<u8>|
            #![trigger g.inner.content(s)]
            #![trigger g.inner.announced(s)]
            g.inner.content(s) == f.inner.content(s) && g.inner.announced(s)
                == f.inner.announced(s),
        _ => false,
    }
}

/// Whether a reader's limits admit a page.
pub open spec fn admitted(pf: PageFile, filter: Option<SharedFilter>, file: Seq<u8>, im: Image, o: int) -> bool {
    &&& sink::stored_len(filter, file, im.offsets[o] as int, im.pages[o]) <= pf.max_stored
    &&& filter is Some ==> im.pages[o].len() - PAGE_PREFIX_LEN <= pf.max_decoded
}

/// Whether a reader reads the pages of a file.
pub open spec fn reads(pf: PageFile, p: Plan, file: Seq<u8>, im: Image) -> bool {
    &&& pf.section == (directory::Section {
        image: file,
        base: im.position,
        count: im.pages.len() as int,
    })
    &&& filters_alike(p.filter, pf.filter)
    &&& forall|o: int|
        0 <= o < im.pages.len() ==> #[trigger] admitted(pf, p.filter, file, im, o)
}

/// Where the directory of a built file says a page is.
proof fn lemma_slot(p: Plan, file: Seq<u8>, im: Image, o: int)
    requires
        im.of(p, file),
        0 <= o < im.pages.len(),
    ensures
        bytes::i64_at(file, im.position + DIRECTORY_SLOT_LEN * o) == im.offsets[o],
        HEADER_LEN <= im.offsets[o] < im.position,
{
    let at = im.position + DIRECTORY_SLOT_LEN * o;
    let dir = sink::directory_bytes(im.offsets);
    sink::lemma_directory_slot(im.offsets, o);
    assert(file.subrange(at, at + 8) =~= dir.subrange(
        DIRECTORY_SLOT_LEN * o,
        DIRECTORY_SLOT_LEN * o + DIRECTORY_SLOT_LEN,
    ));
    assert(im.page_stored(p.filter, file, o));
    lemma_ascending(p, file, im, o);
    bytes::lemma_u64_read_back(file, at, im.offsets[o] as int);
    describe::lemma_descriptors_behind(file, im.end, p.filter, im.tables);
}

/// Pages come before the page directory.
proof fn lemma_ascending(p: Plan, file: Seq<u8>, im: Image, o: int)
    requires
        im.of(p, file),
        0 <= o < im.pages.len(),
    ensures
        im.offsets[o] < im.position,
    decreases im.pages.len() - o,
{
    assert(im.page_stored(p.filter, file, o));
    if o + 1 < im.pages.len() {
        lemma_ascending(p, file, im, o + 1);
    }
}

/// A page read back is the page that was written.
pub proof fn lemma_page_read_back(pf: PageFile, p: Plan, file: Seq<u8>, im: Image, o: int)
    requires
        im.of(p, file),
        reads(pf, p, file, im),
        0 <= o < im.pages.len(),
    ensures
        pf.page(PageOrdinal::spec_new(o as u64)) == Some(im.pages[o]),
{
    let ordinal = PageOrdinal::spec_new(o as u64);
    let page = im.pages[o];
    let at = im.offsets[o] as int;
    lemma_slot(p, file, im, o);
    assert(im.page_stored(p.filter, file, o));
    assert(admitted(pf, p.filter, file, im, o));
    let len = sink::stored_len(p.filter, file, at, page);
    assert(pf.section.offset(ordinal) == Some(crate::format::FileOffset::spec_new(at as u64)));
    if o + 1 < im.pages.len() {
        lemma_slot(p, file, im, o + 1);
    }
    assert(bytes::i32_at(file, at) == len) by {
        if p.filter is None {
            assert(file.subrange(at, at + 4) =~= page.subrange(0, 4));
            bytes::lemma_u32_moved(file, at, page, 0);
        }
    }
    assert(pf.stored_len(ordinal) == Some(len));
    let stored = file.subrange(at, at + len);
    match (p.filter, pf.filter) {
        (Some(f), Some(g)) => {
            let payload = stored.subrange(PAGE_PREFIX_LEN as int, stored.len() as int);
            let raw = page.subrange(PAGE_PREFIX_LEN as int, page.len() as int);
            assert(payload =~= file.subrange(at + PAGE_PREFIX_LEN, at + len));
            assert(g.inner.content(payload) == f.inner.content(payload));
            assert(g.inner.announced(payload) == f.inner.announced(payload));
            assert(stored.subrange(4, PAGE_PREFIX_LEN as int) =~= file.subrange(
                at + 4,
                at + PAGE_PREFIX_LEN,
            ));
            bytes::lemma_u32_bytes(page, 0);
            assert(bytes::le4(PAGE_PREFIX_LEN + raw.len()) + stored.subrange(
                4,
                PAGE_PREFIX_LEN as int,
            ) + raw =~= page) by {
                assert(page.subrange(0, 4) == bytes::le4(page.len() as int));
                assert(page =~= page.subrange(0, 4) + page.subrange(4, PAGE_PREFIX_LEN as int)
                    + raw);
            }
        },
        _ => {},
    }
}

/// Every page of a built file that a reader accepts reads back as it was written.
pub proof fn lemma_pages_read_back(pf: PageFile, p: Plan, file: Seq<u8>, im: Image)
    requires
        im.of(p, file),
        reads(pf, p, file, im),
    ensures
        model::readable_alike(model::page_map(im.pages), pf.pages()),
        forall|o: u64|
            o < im.pages.len() ==> pf.pages().contains_key(#[trigger] PageOrdinal::spec_new(o)),
{
    let a = model::page_map(im.pages);
    let b = pf.pages();
    assert forall|o: PageOrdinal|
        #[trigger] a.contains_key(o) && node::page_ok(a[o]) && node::entries_ok(
            a[o],
        ) implies b.contains_key(o) && b[o] == a[o] by {
        lemma_page_read_back(pf, p, file, im, o.get() as int);
        assert(PageOrdinal::spec_new(o.get()) == o);
    }
    assert forall|o: u64| o < im.pages.len() implies pf.pages().contains_key(
        #[trigger] PageOrdinal::spec_new(o),
    ) by {
        lemma_page_read_back(pf, p, file, im, o as int);
    }
}

/// Whether a reader's registries know the encodings and the filter a build used.
pub open spec fn registered(p: Plan, o: Opening) -> bool {
    &&& forall|i: int|
        0 <= i < p.tables.len() ==> #[trigger] table_registered(p.tables[i], o.encodings)
    &&& p.filter matches Some(f) ==> open::filter_named(o.filters, f.inner.name(), f)
}

/// Whether a registry knows the encodings of a table.
pub open spec fn table_registered(
    t: TablePlan,
    encodings: Map<Seq<char>, SharedEncoding>,
) -> bool {
    &&& index::resolves(encodings, t.encoding.inner.name(), t.encoding)
    &&& forall|j: int|
        0 <= j < t.indexes.len() ==> index::resolves(
            encodings,
            (#[trigger] t.indexes[j]).encoding.inner.name(),
            t.indexes[j].encoding,
        )
}

/// The descriptors a reader finds are the ones that were written.
proof fn lemma_catalog_read_back(p: Plan, file: Seq<u8>, im: Image, o: Opening)
    requires
        im.of(p, file),
        im.end <= o.limits.max_catalog_bytes,
    ensures
        open::catalog_of(file, im.header(p), o) == (Outcome::Done {
            value: CatalogModel {
                filters: describe::filter_names(p.filter),
                tables: im.tables,
                end: im.end,
            },
            at: im.end,
        }),
{
    let a = open::front(file, o.limits.max_catalog_bytes as int);
    describe::lemma_descriptors_behind(file, im.end, p.filter, im.tables);
    assert(file =~= file.subrange(0, file.len() as int));
    assert(extend::is_front(a, file));
    extend::lemma_catalog(a, file, describe::filter_count(p.filter), p.tables.len());
}

/// A table that was built can be opened.
proof fn lemma_table_verdict(
    t: TablePlan,
    m: catalog::TableModel,
    encodings: Map<Seq<char>, SharedEncoding>,
)
    requires
        plan::described(m, t),
        table_registered(t, encodings),
    ensures
        table::table_verdict(m, encodings) is None,
{
    lemma_indexes_verdict(t, m, encodings, m.secondaries.len());
    assert(m.secondaries.subrange(0, m.secondaries.len() as int) =~= m.secondaries);
}

proof fn lemma_indexes_verdict(
    t: TablePlan,
    m: catalog::TableModel,
    encodings: Map<Seq<char>, SharedEncoding>,
    n: nat,
)
    requires
        plan::described(m, t),
        table_registered(t, encodings),
        n <= m.secondaries.len(),
    ensures
        table::indexes_verdict(m.secondaries.subrange(0, n as int), encodings) is None,
    decreases n,
{
    if n > 0 {
        let l = m.secondaries.subrange(0, n as int);
        lemma_indexes_verdict(t, m, encodings, (n - 1) as nat);
        assert(l.drop_last() =~= m.secondaries.subrange(0, n - 1));
        assert(l.last() == m.secondaries[n - 1]);
        assert(index::resolves(
            encodings,
            t.indexes[n - 1].encoding.inner.name(),
            t.indexes[n - 1].encoding,
        ));
    }
}

proof fn lemma_tables_verdict(p: Plan, im: Image, file: Seq<u8>, o: Opening, n: nat)
    requires
        im.of(p, file),
        registered(p, o),
        n <= im.tables.len(),
    ensures
        open::tables_verdict(im.tables.subrange(0, n as int), o.encodings) is None,
    decreases n,
{
    if n > 0 {
        let l = im.tables.subrange(0, n as int);
        lemma_tables_verdict(p, im, file, o, (n - 1) as nat);
        assert(l.drop_last() =~= im.tables.subrange(0, n - 1));
        assert(l.last() == im.tables[n - 1]);
        assert(plan::table_built(p.paging(), p.tables[n - 1], im.tables[n - 1], im.pages));
        assert(table_registered(p.tables[n - 1], o.encodings));
        lemma_table_verdict(p.tables[n - 1], im.tables[n - 1], o.encodings);
    }
}

/// Nothing is wrong with a file that was built: a reader that knows the encodings and the
/// filter, whose limits admit the descriptors and whose budget is large enough for the page
/// size, has no reason to refuse it.
pub proof fn lemma_built_opens(p: Plan, file: Seq<u8>, im: Image, o: Opening)
    requires
        im.of(p, file),
        registered(p, o),
        im.end <= o.limits.max_catalog_bytes,
        o.memory_budget >= open::least_budget(p.page_size, o.directory_chunk_entries as int),
        0 <= p.page_size <= 0x7FFF_FFFF,
    ensures
        open::verdict(file, o) is None,
{
    let h = im.header(p);
    lemma_catalog_read_back(p, file, im, o);
    lemma_tables_verdict(p, im, file, o, im.tables.len());
    assert(im.tables.subrange(0, im.tables.len() as int) =~= im.tables);
    assert(h.page_count * DIRECTORY_SLOT_LEN == DIRECTORY_SLOT_LEN * im.pages.len());
}

/// What a reader's store reads a built file with.
pub proof fn lemma_reads(p: Plan, im: Image, db: &Database, source: SharedSource, o: Opening)
    requires
        built_and_opened(p, im, db, source, o),
    ensures
        reads(db.spec_store().file(), p, source.inner.image(), im),
        model::readable_alike(model::page_map(im.pages), db.spec_store().pages()),
        db.spec_catalog()@.tables == im.tables,
        forall|q: u64|
            q < im.pages.len() ==> db.spec_store().pages().contains_key(
                #[trigger] PageOrdinal::spec_new(q),
            ),
        db.spec_store().file().section.count == im.pages.len(),
{
    let file = source.inner.image();
    let pf = db.spec_store().file();
    lemma_catalog_read_back(p, file, im, o);
    let c = db.spec_catalog()@;
    assert(c.filters == describe::filter_names(p.filter));
    assert(filters_alike(p.filter, pf.filter)) by {
        if let Some(f) = p.filter {
            assert(c.filters[0] == f.inner.name());
        }
    }
    lemma_pages_read_back(pf, p, file, im);
}

/// Whether a database was opened over a file that was built, by a reader that knows the
/// encodings and the filter and whose limits admit the descriptors and the pages.
pub open spec fn built_and_opened(
    p: Plan,
    im: Image,
    db: &Database,
    source: SharedSource,
    o: Opening,
) -> bool {
    let file = source.inner.image();
    &&& im.of(p, file)
    &&& open::opened(db, source, o)
    &&& registered(p, o)
    &&& im.end <= o.limits.max_catalog_bytes
    &&& model::MAX_LEVELS <= o.limits.max_tree_depth
    &&& forall|q: int|
        0 <= q < im.pages.len() ==> #[trigger] admitted(
            db.spec_store().file(),
            p.filter,
            file,
            im,
            q,
        )
}

/// What a table's tree holds is what was appended to the table.
///
/// The tree of a table in a database that was built holds the rows that were appended, each
/// once, sorted by key.
pub proof fn lemma_built_table(
    p: Plan,
    im: Image,
    db: &Database,
    source: SharedSource,
    o: Opening,
    i: int,
) -> (r: (Seq<Entry>, TreeShape))
    requires
        built_and_opened(p, im, db, source, o),
        0 <= i < p.tables.len(),
        encoding::lawful(&**p.tables[i].encoding.inner),
    ensures
        ({
            let t = p.tables[i];
            &&& plan::table_holds(p.paging(), t, im.tables[i], im.pages, r.0)
            &&& run::sorted_run(t.encoding, t.rows, 0, t.rows.len() as int, r.0)
            &&& r.1.rows == plan::rows_of(r.0)
            &&& db.spec_tables()[i].spec_primary().holds(
                r.1,
                tree::layout_for(p.page_size, p.eytzinger, t.encoding, true),
            )
        }),
{
    let t = p.tables[i];
    let m = im.tables[i];
    lemma_reads(p, im, db, source, o);
    assert(plan::table_built(p.paging(), t, m, im.pages));
    let order = choose|order: Seq<Entry>|
        #[trigger] plan::table_holds(p.paging(), t, m, im.pages, order);
    let s = lemma_built_tree(p, im, db, source, o, i, order);
    (order, s)
}

/// The tree of a table in a database that was built holds its sorted rows, with the values on
/// its leaves that can be there.
pub proof fn lemma_built_tree(
    p: Plan,
    im: Image,
    db: &Database,
    source: SharedSource,
    o: Opening,
    i: int,
    order: Seq<Entry>,
) -> (s: TreeShape)
    requires
        built_and_opened(p, im, db, source, o),
        0 <= i < p.tables.len(),
        encoding::lawful(&**p.tables[i].encoding.inner),
        plan::table_holds(p.paging(), p.tables[i], im.tables[i], im.pages, order),
    ensures
        ({
            let layout = tree::layout_for(
                p.page_size,
                p.eytzinger,
                p.tables[i].encoding,
                true,
            );
            &&& s.rows == plan::rows_of(order)
            &&& db.spec_tables()[i].spec_primary().holds(s, layout)
            &&& model::packed(s, layout, db.spec_store().pages(), p.page_size)
            &&& db.spec_tables()[i].spec_primary().spec_store() == db.spec_store()
        }),
{
    let t = p.tables[i];
    let m = im.tables[i];
    let layout = tree::layout_for(p.page_size, p.eytzinger, t.encoding, true);
    lemma_reads(p, im, db, source, o);
    assert(plan::table_built(p.paging(), t, m, im.pages));
    let root = m.primary.root->Some_0;
    let s = choose|s: TreeShape|
        s.rows == plan::rows_of(order) && s.levels.len() <= model::MAX_LEVELS
            && #[trigger] model::tree_ok(s, t.encoding, layout, model::page_map(im.pages), root)
            && model::packed(s, layout, model::page_map(im.pages), p.page_size);
    let c = db.spec_catalog();
    let h = db.spec_tables()[i];
    assert(catalog::table_models(c.tables@)[i] == m);
    assert(h.opened(c.tables@[i], db.spec_store(), o.encodings));
    assert(c.tables@[i]@ == m);
    let e = h.spec_primary().spec_encoding();
    assert(table_registered(t, o.encodings));
    alike::lemma_resolved(o.encodings, t.encoding.inner.name(), t.encoding, e);
    model::lemma_tree_alike(
        s,
        t.encoding,
        e,
        layout,
        model::page_map(im.pages),
        db.spec_store().pages(),
        root,
    );
    model::lemma_packed_kept(
        s,
        t.encoding,
        layout,
        model::page_map(im.pages),
        db.spec_store().pages(),
        root,
        p.page_size,
    );
    s
}

/// Whether this is what looking a key up found, in whatever shape the tree holds its rows.
pub open spec fn looked_up(t: &Tree, key: Seq<u8>, found: Option<Seq<u8>>) -> bool {
    forall|s: TreeShape, layout: node::NodeLayout| #[trigger]
        t.holds(s, layout) ==> match found {
            Some(v) => table::has_row(t, s, key, v),
            None => table::lacks_key(t, s, key),
        }
}

/// A lookup gives back what was appended.
///
/// In a database that was built, looking up a key that was appended finds the value that was
/// appended with it. Looking up a key finds a value only if a row with that key was appended,
/// and the value is that row's.
pub proof fn lemma_built_lookup(
    p: Plan,
    im: Image,
    db: &Database,
    source: SharedSource,
    o: Opening,
    i: int,
    key: Seq<u8>,
    found: Option<Seq<u8>>,
)
    requires
        built_and_opened(p, im, db, source, o),
        0 <= i < p.tables.len(),
        encoding::lawful(&**p.tables[i].encoding.inner),
        looked_up(&*db.spec_tables()[i].spec_primary(), key, found),
    ensures
        ({
            let t = p.tables[i];
            &&& forall|q: int|
                0 <= q < t.rows.len() && (#[trigger] t.rows[q]).key == key ==> found == Some(
                    t.rows[q].value,
                )
            &&& found matches Some(v) ==> exists|q: int|
                0 <= q < t.rows.len() && t.encoding.inner.sign((#[trigger] t.rows[q]).key, key)
                    == 0 && t.rows[q].value == v
        }),
{
    let t = p.tables[i];
    let n = t.rows.len() as int;
    let (order, s) = lemma_built_table(p, im, db, source, o, i);
    let tree = &*db.spec_tables()[i].spec_primary();
    let e = tree.spec_encoding();
    lemma_reader_encoding(p, im, db, source, o, i);
    if let Some(v) = found {
        let r = choose|r: int|
            0 <= r < s.rows.len() && e.inner.sign((#[trigger] s.rows[r]).key, key) == 0
                && s.rows[r].value == v;
        assert(run::member(t.rows, 0, n, order[r]));
        assert(e.inner.sign(s.rows[r].key, key) == t.encoding.inner.sign(s.rows[r].key, key));
        assert(t.rows[order[r].seq as int].key == s.rows[r].key);
    }
    assert forall|q: int| 0 <= q < n && (#[trigger] t.rows[q]).key == key implies found == Some(
        t.rows[q].value,
    ) by {
        run::lemma_run_complete(t.encoding, t.rows, order, q);
        let a = choose|a: int| 0 <= a < order.len() && (#[trigger] order[a]).seq == q;
        assert(run::member(t.rows, 0, n, order[a]));
        assert(s.rows[a].key == key);
        assert(t.encoding.inner.accepts(key));
        assert(t.encoding.inner.sign(key, key) == 0);
        assert(e.inner.sign(s.rows[a].key, key) == t.encoding.inner.sign(s.rows[a].key, key));
        if let Some(v) = found {
            let r = choose|r: int|
                0 <= r < s.rows.len() && e.inner.sign((#[trigger] s.rows[r]).key, key) == 0
                    && s.rows[r].value == v;
            if r < a {
                assert(e.inner.sign(s.rows[r].key, s.rows[a].key) < 0);
            } else if a < r {
                assert(e.inner.sign(s.rows[a].key, s.rows[r].key) < 0);
                assert(e.inner.accepts(s.rows[r].key));
                assert(e.inner.accepts(s.rows[a].key));
                assert(e.inner.sign(s.rows[r].key, s.rows[a].key) > 0);
            }
        }
    }
}

/// The encoding a reader found does what the encoding of the build does.
pub proof fn lemma_reader_encoding(
    p: Plan,
    im: Image,
    db: &Database,
    source: SharedSource,
    o: Opening,
    i: int,
)
    requires
        built_and_opened(p, im, db, source, o),
        0 <= i < p.tables.len(),
    ensures
        alike::alike(
            &**p.tables[i].encoding.inner,
            &**db.spec_tables()[i].spec_primary().spec_encoding().inner,
        ),
        db.spec_tables()[i].spec_descriptor()@ == im.tables[i],
        db.spec_tables()[i].opened(
            db.spec_catalog().tables@[i],
            db.spec_store(),
            o.encodings,
        ),
        db.spec_catalog().tables@[i]@ == im.tables[i],
{
    let t = p.tables[i];
    lemma_reads(p, im, db, source, o);
    assert(plan::table_built(p.paging(), t, im.tables[i], im.pages));
    let c = db.spec_catalog();
    let h = db.spec_tables()[i];
    assert(catalog::table_models(c.tables@)[i] == im.tables[i]);
    assert(h.opened(c.tables@[i], db.spec_store(), o.encodings));
    assert(table_registered(t, o.encodings));
    alike::lemma_resolved(
        o.encodings,
        t.encoding.inner.name(),
        t.encoding,
        h.spec_primary().spec_encoding(),
    );
}

/// What a build made of an index: references to the values of the table's rows, the records
/// of the index in key order, and the shape of the tree that holds them.
pub struct IndexParts {
    pub order: Seq<Entry>,
    pub refs: Seq<PageRef>,
    pub records: Seq<Entry>,
    pub shape: TreeShape,
}

/// What an index's tree holds is an entry for every row of its table.
///
/// The tree of an index in a database that was built holds one entry per row of the table,
/// sorted by index key, rows with the same index key in the order of their primary keys. What
/// the entry refers to is the value that was appended.
pub proof fn lemma_built_index(
    p: Plan,
    im: Image,
    db: &Database,
    source: SharedSource,
    o: Opening,
    i: int,
    j: int,
) -> (r: IndexParts)
    requires
        built_and_opened(p, im, db, source, o),
        0 <= i < p.tables.len(),
        0 <= j < p.tables[i].indexes.len(),
        encoding::lawful(&**p.tables[i].encoding.inner),
        encoding::lawful(&**p.tables[i].indexes[j].encoding.inner),
    ensures
        ({
            let t = p.tables[i];
            let ix = t.indexes[j];
            let h = db.spec_tables()[i].spec_secondaries()[j];
            let pages = db.spec_store().pages();
            &&& run::sorted_run(t.encoding, t.rows, 0, t.rows.len() as int, r.order)
            &&& r.refs.len() == r.order.len()
            &&& run::sorted_run(
                ix.encoding,
                plan::index_records(ix, r.order, r.refs),
                0,
                r.order.len() as int,
                r.records,
            )
            &&& plan::refs_ok(
                plan::primary_tree(p.paging(), t, im.tables[i].primary),
                im.pages,
                r.order,
                r.refs,
            )
            &&& r.shape.rows == plan::index_rows(ix.unique, ix.encoding, r.records)
            &&& exists|layout: node::NodeLayout| #[trigger] h.spec_tree().holds(r.shape, layout)
                && (layout.omitted_keys ==> ix.unique)
            &&& index::refers(&*h.spec_tree(), ix.unique, r.shape)
            &&& forall|q: int|
                0 <= q < r.records.len() ==> index::index_row(
                    pages,
                    ix.unique,
                    #[trigger] r.shape.rows[q],
                ) == Some(
                    Row {
                        key: r.records[q].key,
                        value: r.order[r.records[q].seq as int].value,
                    },
                )
        }),
{
    let t = p.tables[i];
    let ix = t.indexes[j];
    let m = im.tables[i].secondaries[j];
    let (order, primary) = lemma_built_table(p, im, db, source, o, i);
    lemma_reads(p, im, db, source, o);
    lemma_reader_encoding(p, im, db, source, o, i);
    let pages = db.spec_store().pages();
    let written = model::page_map(im.pages);
    let place = plan::primary_tree(p.paging(), t, im.tables[i].primary);
    assert(plan::index_built(p.paging(), place, ix, m, im.pages, order));
    let (refs, l) = choose|refs: Seq<PageRef>, l: Seq<Entry>|
        {
            &&& #[trigger] plan::refs_ok(place, im.pages, order, refs)
            &&& #[trigger] run::sorted_run(
                ix.encoding,
                plan::index_records(ix, order, refs),
                0,
                order.len() as int,
                l,
            )
            &&& plan::index_holds(
                p.paging(),
                ix.unique,
                ix.encoding,
                l,
                im.pages,
                m.root->Some_0,
            )
        };
    let rows = plan::index_rows(ix.unique, ix.encoding, l);
    let root = m.root->Some_0;
    let e = choose|e: SharedEncoding|
        #[trigger] index::tree_encoding(ix.unique, ix.encoding, e) && model::holds_rows(
            rows,
            e,
            tree::layout_for(p.page_size, p.eytzinger, e, ix.unique),
            written,
            root,
        );
    let layout = tree::layout_for(p.page_size, p.eytzinger, e, ix.unique);
    let s = choose|s: TreeShape|
        s.rows == rows && s.levels.len() <= model::MAX_LEVELS && #[trigger] model::tree_ok(
            s,
            e,
            layout,
            written,
            root,
        );
    let d = db.spec_catalog().tables@[i];
    let table = db.spec_tables()[i];
    assert(plan::table_built(p.paging(), t, im.tables[i], im.pages));
    assert(catalog::index_models(d.secondaries@) == im.tables[i].secondaries);
    assert(catalog::index_models(d.secondaries@)[j] == m);
    let h = table.spec_secondaries()[j];
    assert(h.opened(d.secondaries@[j], db.spec_store(), o.encodings));
    assert(table_registered(t, o.encodings));
    let f = h.spec_tree().spec_encoding();
    assert(plan::index_described(
        im.tables[i].secondaries[j],
        ix.name,
        ix.encoding,
        ix.unique,
        catalog::ValueKind::PageRef,
    ));
    assert(index::resolves(
        o.encodings,
        t.indexes[j].encoding.inner.name(),
        t.indexes[j].encoding,
    ));
    alike::lemma_resolved(o.encodings, ix.encoding.inner.name(), ix.encoding, h.spec_source());
    if !ix.unique {
        alike::lemma_duplicates(e, f, ix.encoding, h.spec_source());
    }
    model::lemma_tree_alike(s, e, f, layout, written, pages, root);
    assert(h.spec_tree().holds(s, layout));
    assert forall|q: int| 0 <= q < l.len() implies index::index_row(
        pages,
        ix.unique,
        #[trigger] s.rows[q],
    ) == Some(Row { key: l[q].key, value: order[l[q].seq as int].value }) by {
        let recs = plan::index_records(ix, order, refs);
        assert(run::member(recs, 0, order.len() as int, l[q]));
        let reference = refs[l[q].seq as int];
        assert(level::refers_to(im.pages, reference, order[l[q].seq as int].value));
        assert(l[q].value == reference.bytes());
        reference.lemma_round_trip(Seq::empty());
        assert(reference.bytes() + Seq::<u8>::empty() =~= reference.bytes());
        assert(written.contains_key(reference.page));
        assert(pages[reference.page] == im.pages[reference.page.get() as int]);
        if !ix.unique {
            let key = s.rows[q].key;
            assert(e.inner.accepts(key));
            assert(duplicate::source_part(key) =~= l[q].key);
        }
    }
    IndexParts { order, refs, records: l, shape: s }
}

/// Every row of a table that was built has a key in every index of the table.
pub proof fn lemma_built_keyed(
    p: Plan,
    im: Image,
    db: &Database,
    source: SharedSource,
    o: Opening,
    i: int,
    j: int,
    order: Seq<Entry>,
)
    requires
        built_and_opened(p, im, db, source, o),
        0 <= i < p.tables.len(),
        0 <= j < p.tables[i].indexes.len(),
        run::sorted_run(
            p.tables[i].encoding,
            p.tables[i].rows,
            0,
            p.tables[i].rows.len() as int,
            order,
        ),
    ensures
        plan::all_keyed(p.tables[i].indexes[j], order),
        spool::rows_taken(p.tables[i].encoding, p.tables[i].rows),
{
    let t = p.tables[i];
    let n = t.rows.len() as int;
    let ix = t.indexes[j];
    assert(plan::table_built(p.paging(), t, im.tables[i], im.pages));
    let other = choose|other: Seq<Entry>| #[trigger]
        plan::table_holds(p.paging(), t, im.tables[i], im.pages, other);
    let place = plan::primary_tree(p.paging(), t, im.tables[i].primary);
    assert(plan::index_built(
        p.paging(),
        place,
        t.indexes[j],
        im.tables[i].secondaries[j],
        im.pages,
        other,
    ));
    assert forall|a: int| 0 <= a < order.len() implies ix.key_fn.inner.index_key(
        (#[trigger] order[a]).key,
        order[a].value,
    ) is Some by {
        assert(run::member(t.rows, 0, n, order[a]));
        run::lemma_run_complete(t.encoding, t.rows, other, order[a].seq as int);
        let b = choose|b: int| 0 <= b < other.len() && (#[trigger] other[b]).seq == order[a].seq;
        assert(run::member(t.rows, 0, n, other[b]));
    }
}

} // verus!
