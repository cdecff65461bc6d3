//! What a build writes passes verification.

use vstd::prelude::*;

use super::indexes;
use super::leaves;
use super::refs;
use super::report::VerifyOptions;
use super::sound::{self, Place};
use crate::btree::Tree;
use crate::builder::image::{Image, Plan};
use crate::builder::level;
use crate::builder::plan;
use crate::builder::run;
use crate::db::laws;
use crate::db::open::Opening;
use crate::db::Database;
use crate::encoding::{self, KeyEncoding};
use crate::format::node::{self, LeafValue, NodeLayout};
use crate::format::pageref::PageRef;
use crate::format::PageOrdinal;
use crate::index;
use crate::io::SharedSource;
use crate::model::{self, Pages, TreeShape};

verus! {

broadcast use crate::format::group_format;

/// An entry of a leaf is one of the entries of the leaves.
proof fn lemma_listed(pages: Pages, l: Seq<PageOrdinal>, j: int, i: int) -> (x: int)
    requires
        0 <= j < l.len(),
        0 <= i < node::page_count(pages[l[j]]),
    ensures
        0 <= x < sound::entry_list(pages, l).len(),
        sound::entry_list(pages, l)[x] == (Place { page: l[j], index: i }),
    decreases l.len(),
{
    let front = sound::entry_list(pages, l.drop_last());
    if j == l.len() - 1 {
        front.len() + i
    } else {
        lemma_listed(pages, l.drop_last(), j, i)
    }
}

/// The reference to the value of a row of a held tree passes the check.
proof fn lemma_reference(t: &Tree, s: TreeShape, layout: NodeLayout, q: int, r: PageRef)
    requires
        t.holds(s, layout),
        model::row_ref(s, t.spec_store().pages(), q, r),
        r.storable(),
        r.fits(t.spec_store().pages()[r.page].len() as int),
    ensures
        indexes::reference_into(t.spec_store().pages(), indexes::leaves_of(t), r.bytes()),
{
    let pages = t.spec_store().pages();
    let root = t.spec_root()->Some_0;
    assert(t.holds((s, layout).0, (s, layout).1));
    let (u, other) = indexes::shape_of(t);
    model::lemma_one_tree(s, u, t.spec_encoding(), layout, other, pages, root);
    let l = indexes::leaves_of(t);
    let j = choose|j: int| 0 <= j < s.levels[0].len() && #[trigger] model::ref_at(s, pages, q, r, j);
    let n = s.levels[0][j];
    let i = q - n.first;
    let p = pages[n.ordinal];
    assert(model::node_ok(s, t.spec_encoding(), layout, pages, 0, j));
    assert(model::node_keys(s, 0, j).len() == n.count);
    assert(model::value_ok(pages, p, i, s.rows[n.first + i].value));
    assert(l[j] == n.ordinal);
    r.lemma_round_trip(Seq::empty());
    assert(r.bytes() + Seq::<u8>::empty() =~= r.bytes());
    let entry = node::leaf_entry_at(p, i)->Some_0;
    match entry.value {
        LeafValue::Inline { offset, len } => {
            assert(refs::inline_at(p, i, r.start.get() as int, r.length as int));
            assert(l.contains(n.ordinal));
        },
        LeafValue::Overflow { page } => {
            let list = sound::entry_list(pages, l);
            let x = lemma_listed(pages, l, j, i);
            assert(leaves::overflow_at(pages, list[x]) == Some(page));
            assert(leaves::is_overflow(pages, list, page));
        },
    }
}

/// The bytes at a leaf entry of a held tree are the value of its row.
proof fn lemma_entry_bytes(t: &Tree, s: TreeShape, layout: NodeLayout, j: int, i: int)
    requires
        t.holds(s, layout),
        0 <= j < s.levels[0].len(),
        0 <= i < s.levels[0][j].count,
    ensures
        sound::entry_bytes(t.spec_store().pages(), s.levels[0][j].ordinal, i)
            == s.rows[s.levels[0][j].first + i].value,
{
    let pages = t.spec_store().pages();
    let n = s.levels[0][j];
    assert(model::node_ok(s, t.spec_encoding(), layout, pages, 0, j));
    assert(model::value_ok(pages, pages[n.ordinal], i, s.rows[n.first + i].value));
}

/// Whether a table of a build, and its indexes, are sorted by total orders.
pub open spec fn lawful_table(t: plan::TablePlan) -> bool {
    &&& encoding::lawful(&**t.encoding.inner)
    &&& forall|j: int|
        0 <= j < t.indexes.len() ==> encoding::lawful(&**(#[trigger] t.indexes[j]).encoding.inner)
}

/// An index that was built passes the check.
proof fn lemma_built_index_intact(
    p: Plan,
    im: Image,
    db: &Database,
    source: SharedSource,
    o: Opening,
    i: int,
    j: int,
)
    requires
        laws::built_and_opened(p, im, db, source, o),
        db.spec_store().steady(),
        0 <= i < p.tables.len(),
        lawful_table(p.tables[i]),
        0 <= j < p.tables[i].indexes.len(),
    ensures
        ({
            let table = db.spec_tables()[i];
            let h = table.spec_secondaries()[j];
            indexes::index_intact(
                &*table.spec_primary(),
                &*h.spec_tree(),
                h.spec_descriptor().is_unique,
            )
        }),
{
    let t = p.tables[i];
    let ix = t.indexes[j];
    let m = im.tables[i];
    let table = db.spec_tables()[i];
    let h = table.spec_secondaries()[j];
    let primary = &*table.spec_primary();
    let tree = &*h.spec_tree();
    let pages = db.spec_store().pages();
    let written = model::page_map(im.pages);
    assert(encoding::lawful(&**t.indexes[j].encoding.inner));
    let parts = laws::lemma_built_index(p, im, db, source, o, i, j);
    laws::lemma_reads(p, im, db, source, o);
    laws::lemma_reader_encoding(p, im, db, source, o, i);
    let place = plan::primary_tree(p.paging(), t, m.primary);
    let e = primary.spec_encoding();
    let root = place.root;
    // The primary tree, as the reader has it.
    let s = choose|s: TreeShape|
        s.rows == plan::rows_of(parts.order) && s.levels.len() <= model::MAX_LEVELS
            && #[trigger] model::tree_ok(s, place.encoding, place.layout, written, root)
            && plan::refs_in(s, im.pages, parts.refs);
    model::lemma_tree_alike(s, place.encoding, e, place.layout, written, pages, root);
    assert(plan::table_built(p.paging(), t, m, im.pages));
    assert(primary.holds(s, place.layout));
    // The tree of the index.
    let layout = choose|layout: NodeLayout|
        #[trigger] tree.holds(parts.shape, layout) && (layout.omitted_keys ==> ix.unique);
    assert(tree.holds((parts.shape, layout).0, (parts.shape, layout).1));
    let (u, other) = indexes::shape_of(tree);
    model::lemma_one_tree(
        parts.shape,
        u,
        tree.spec_encoding(),
        layout,
        other,
        pages,
        tree.spec_root()->Some_0,
    );
    let d = db.spec_catalog().tables@[i];
    assert(h.opened(d.secondaries@[j], db.spec_store(), o.encodings));
    assert(h.spec_descriptor().is_unique == ix.unique) by {
        assert(crate::format::catalog::index_models(d.secondaries@)[j] == m.secondaries[j]);
        assert(plan::index_described(
            m.secondaries[j],
            ix.name,
            ix.encoding,
            ix.unique,
            crate::format::catalog::ValueKind::PageRef,
        ));
    }
    assert(index::refers(tree, ix.unique, u)) by {
        assert forall|q: int| 0 <= q < u.rows.len() implies index::index_row(
            pages,
            ix.unique,
            #[trigger] u.rows[q],
        ) is Some by {
            assert(index::index_row(pages, ix.unique, parts.shape.rows[q]) is Some);
            assert(parts.shape.rows[q].value == u.rows[q].value);
        }
    }
    let recs = plan::index_records(ix, parts.order, parts.refs);
    assert forall|a: int, b: int|
        0 <= a < u.levels[0].len() && 0 <= b < u.levels[0][a].count implies indexes::reference_into(
        pages,
        indexes::leaves_of(primary),
        #[trigger] sound::entry_bytes(pages, u.levels[0][a].ordinal, b),
    ) by {
        let n = u.levels[0][a];
        lemma_entry_bytes(tree, u, other, a, b);
        lemma_within(u, a, b);
        let q = n.first + b;
        assert(parts.shape.rows[q].value == u.rows[q].value);
        assert(run::member(recs, 0, parts.order.len() as int, parts.records[q]));
        let x = parts.records[q].seq as int;
        let r = parts.refs[x];
        assert(u.rows[q].value == r.bytes());
        assert(level::refers_to(im.pages, r, parts.order[x].value));
        assert(written.contains_key(r.page));
        assert(pages[r.page] == im.pages[r.page.get() as int]);
        assert(model::row_ref(s, written, x, r));
        let y = choose|y: int|
            0 <= y < s.levels[0].len() && #[trigger] model::ref_at(s, written, x, r, y);
        model::lemma_ref_kept(s, place.encoding, place.layout, written, pages, root, x, r, y);
        lemma_reference(primary, s, place.layout, x, r);
    }
}

/// The rows of a leaf are rows of the tree.
proof fn lemma_within(s: TreeShape, j: int, i: int)
    requires
        s.is_tree(),
        0 <= j < s.levels[0].len(),
        0 <= i < s.levels[0][j].count,
    ensures
        0 <= s.levels[0][j].first + i < s.rows.len(),
{
    assert(s.tiled(0));
    model::lemma_tiles_inside(s, 0, j);
}

/// A file that was built passes verification.
///
/// Whatever the options, a pass over a database that was built finds nothing wrong: every
/// page of the file is there, every tree is held, and every entry of an index refers to the
/// value of a row of its table. [`Database::verify`] reports such a file as clean.
pub proof fn lemma_built_intact(
    p: Plan,
    im: Image,
    db: &Database,
    source: SharedSource,
    o: Opening,
    options: VerifyOptions,
)
    requires
        laws::built_and_opened(p, im, db, source, o),
        db.spec_store().steady(),
        forall|i: int| 0 <= i < p.tables.len() ==> lawful_table(#[trigger] p.tables[i]),
    ensures
        db.intact(options),
{
    laws::lemma_reads(p, im, db, source, o);
    assert(db.pages_whole());
    assert forall|i: int| 0 <= i < db.spec_tables().len() implies super::table_intact(
        db.spec_store(),
        &*#[trigger] db.spec_tables()[i],
    ) by {
        let table = db.spec_tables()[i];
        let primary = &*table.spec_primary();
        assert(lawful_table(p.tables[i]));
        laws::lemma_reader_encoding(p, im, db, source, o, i);
        let (order, s) = laws::lemma_built_table(p, im, db, source, o, i);
        let layout = crate::builder::tree::layout_for(
            p.page_size,
            p.eytzinger,
            p.tables[i].encoding,
            true,
        );
        assert(primary.holds((s, layout).0, (s, layout).1));
        assert(plan::table_built(p.paging(), p.tables[i], im.tables[i], im.pages));
        let d = db.spec_catalog().tables@[i];
        assert(crate::format::catalog::index_models(d.secondaries@) == im.tables[i].secondaries);
        assert forall|k: int| 0 <= k < table.spec_secondaries().len() implies ({
            let index = #[trigger] table.spec_secondaries()[k];
            indexes::index_intact(primary, &*index.spec_tree(), index.spec_descriptor().is_unique)
        }) by {
            lemma_built_index_intact(p, im, db, source, o, i, k);
        }
    }
}

} // verus!
