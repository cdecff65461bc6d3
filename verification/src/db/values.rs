//! Where the values of a table are, and what reading them there gives.

use vstd::prelude::*;

use super::laws::{self, built_and_opened, looked_up};
use super::open::Opening;
use super::table;
use super::Database;
use crate::blob::BlobReader;
use crate::btree::{paths, Tree};
use crate::builder::image::{Image, Plan};
use crate::builder::plan;
use crate::builder::run::Entry;
use crate::builder::tree;
use crate::encoding::{self, KeyEncoding};
use crate::error::{Error, ErrorKind};
use crate::format::eytzinger;
use crate::format::node::NodeLayout;
use crate::format::PageOrdinal;
use crate::io::SharedSource;
use crate::model::{self, Pages, Row, TreeShape};

verus! {

/// What the first `n` rows take on a leaf at the most: a key each, and its value, or the number
/// of a page where the value is too long to be there.
pub open spec fn rows_most(layout: NodeLayout, rows: Seq<Row>, n: nat) -> int
    decreases n,
{
    if n == 0 {
        0
    } else {
        let row = rows[n - 1];
        rows_most(layout, rows, (n - 1) as nat) + model::stored_key(layout, row.key) + (
        if row.value.len() < 8 || row.value.len() >= 0xFFFF {
            8
        } else {
            row.value.len() as int
        })
    }
}

/// Whether row `a` has room on a page of this size behind all the rows before it, and a value
/// that is short enough to be on a leaf.
pub open spec fn row_roomy(layout: NodeLayout, rows: Seq<Row>, a: int, size: int) -> bool {
    &&& rows[a].value.len() < 0xFFFF
    &&& model::leaf_frame(layout, (a + 1) as nat) + rows_most(layout, rows, a as nat)
        + model::stored_key(layout, rows[a].key) + rows[a].value.len() <= size
}

proof fn lemma_frame_grows(layout: NodeLayout, m: nat, n: nat)
    requires
        m <= n,
    ensures
        model::leaf_frame(layout, m) <= model::leaf_frame(layout, n),
{
    eytzinger::lemma_complete_height(n);
    let c = eytzinger::complete(n) as int;
    assert(eytzinger::is_complete(c)) by {
        assert(vstd::arithmetic::power2::pow2(eytzinger::height(n)) == c + 1);
    }
    eytzinger::lemma_complete_is_smallest(m, c);
}

proof fn lemma_most_grows(layout: NodeLayout, rows: Seq<Row>, m: nat, n: nat)
    requires
        m <= n,
    ensures
        rows_most(layout, rows, m) <= rows_most(layout, rows, n),
    decreases n,
{
    if m < n {
        lemma_most_grows(layout, rows, m, (n - 1) as nat);
    }
}

/// The entries of a leaf take no more than all the rows up to them.
proof fn lemma_taken_most(
    s: TreeShape,
    layout: NodeLayout,
    pages: Pages,
    size: int,
    j: int,
    n: nat,
)
    requires
        model::packed(s, layout, pages, size),
        0 <= j < s.levels[0].len(),
        0 <= s.levels[0][j].first,
        n <= s.levels[0][j].count,
    ensures
        ({
            let x = s.levels[0][j];
            model::leaf_taken(layout, pages[x.ordinal], s.rows, x.first, n) <= rows_most(
                layout,
                s.rows,
                (x.first + n) as nat,
            )
        }),
    decreases n,
{
    let x = s.levels[0][j];
    if n > 0 {
        lemma_taken_most(s, layout, pages, size, j, (n - 1) as nat);
        assert(model::row_packed(s, layout, pages, size, j, n - 1));
    } else {
        lemma_most_grows(layout, s.rows, 0, x.first as nat);
    }
}

/// A key is that of one row.
proof fn lemma_one_key(t: &Tree, s: TreeShape, layout: NodeLayout, key: Seq<u8>, a: int, b: int)
    requires
        t.holds(s, layout),
        t.spec_encoding().inner.accepts(key),
        0 <= a < s.rows.len(),
        0 <= b < s.rows.len(),
        t.spec_encoding().inner.sign(s.rows[a].key, key) == 0,
        t.spec_encoding().inner.sign(s.rows[b].key, key) == 0,
    ensures
        a == b,
    decreases a + b + (if a > b { 1int } else { 0 }),
{
    let e = t.spec_encoding();
    if a > b {
        lemma_one_key(t, s, layout, key, b, a);
    } else if a < b {
        let (x, y) = (s.rows[a].key, s.rows[b].key);
        assert(e.inner.accepts(x) && e.inner.accepts(y));
        assert(e.inner.sign(x, y) < 0);
        assert(e.inner.sign(key, y) == 0) by {
            assert(!(e.inner.sign(key, y) < 0));
            assert(!(e.inner.sign(y, key) < 0));
        }
        assert(e.inner.sign(key, x) == 0) by {
            assert(!(e.inner.sign(key, x) < 0));
            assert(!(e.inner.sign(x, key) < 0));
        }
        assert(e.inner.sign(y, key) <= 0 && e.inner.sign(key, x) <= 0);
        assert(e.inner.sign(y, x) <= 0);
        assert(e.inner.sign(y, x) > 0);
    }
}

/// What a reader of a value reads is what a lookup of its key gives.
///
/// A copy appends the value that the reader is over, so a copy of a value of an undamaged tree
/// is the value that looking its key up finds.
pub proof fn lemma_blob_is_value(
    t: &Tree,
    s: TreeShape,
    layout: NodeLayout,
    key: Seq<u8>,
    b: BlobReader,
    found: Option<Seq<u8>>,
)
    requires
        t.holds(s, layout),
        t.spec_encoding().inner.accepts(key),
        table::blob_answer(t, key, Ok::<Option<BlobReader>, Error>(Some(b))),
        looked_up(t, key, found),
    ensures
        b.complete(),
        found == Some(b.spec_value()),
        b.spec_len() == b.spec_value().len(),
{
    let e = t.spec_encoding();
    b.lemma_complete();
    assert(table::has_row(t, s, key, b.spec_value()));
    let x = choose|x: int|
        0 <= x < s.rows.len() && e.inner.sign((#[trigger] s.rows[x]).key, key) == 0
            && s.rows[x].value == b.spec_value();
    if let Some(v) = found {
        let y = choose|y: int|
            0 <= y < s.rows.len() && e.inner.sign((#[trigger] s.rows[y]).key, key) == 0
                && s.rows[y].value == v;
        lemma_one_key(t, s, layout, key, x, y);
    }
}

/// Where an entry's value is says how long it is and whether it had room.
proof fn lemma_entry_packed(
    t: &Tree,
    s: TreeShape,
    layout: NodeLayout,
    size: int,
    o: PageOrdinal,
    i: int,
    a: int,
)
    requires
        t.holds(s, layout),
        model::packed(s, layout, t.spec_store().pages(), size),
        paths::entry_is_row(s, o, i, a),
        s.rows.len() > 0,
    ensures
        model::kept_inline(t.spec_store().pages()[o], i) ==> s.rows[a].value.len() < 0xFFFF,
        row_roomy(layout, s.rows, a, size) ==> model::kept_inline(t.spec_store().pages()[o], i),
{
    let pages = t.spec_store().pages();
    let j = choose|j: int|
        #[trigger] paths::leaf_at(s, o, j) && 0 <= i < s.levels[0][j].count && a
            == s.levels[0][j].first + i;
    assert(s.tiled(0));
    model::lemma_tiles_inside(s, 0, j);
    assert(model::row_packed(s, layout, pages, size, j, i));
    lemma_taken_most(s, layout, pages, size, j, i as nat);
    lemma_frame_grows(layout, (i + 1) as nat, (a + 1) as nat);
}

/// A reader is had of the values that are not on a leaf, and of those only.
///
/// In an unfiltered database that was built, a value of 65535 bytes or more has a reader, which
/// reads the value. A shorter value that has room on its leaf has none. Nothing but memory or
/// the source keeps the answer from being given.
pub proof fn lemma_built_blob(
    p: Plan,
    im: Image,
    db: &Database,
    source: SharedSource,
    o: Opening,
    i: int,
    order: Seq<Entry>,
    a: int,
    r: Result<Option<BlobReader>, Error>,
)
    requires
        built_and_opened(p, im, db, source, o),
        0 <= i < p.tables.len(),
        encoding::lawful(&**p.tables[i].encoding.inner),
        plan::table_holds(p.paging(), p.tables[i], im.tables[i], im.pages, order),
        0 <= a < order.len(),
        db.spec_store().steady(),
        db.spec_store().file().filter is None,
        table::blob_answer(&*db.spec_tables()[i].spec_primary(), order[a].key, r),
    ensures
        ({
            let rows = plan::rows_of(order);
            let layout = tree::layout_for(
                p.page_size,
                p.eytzinger,
                p.tables[i].encoding,
                true,
            );
            &&& r matches Ok(found) ==> found is Some && !row_roomy(layout, rows, a, p.page_size)
            &&& r matches Ok(Some(b)) ==> b.complete() && b.spec_value() == rows[a].value
                && b.spec_len() == rows[a].value.len()
            &&& r matches Err(e) ==> db.spec_store().excused(e) || e.kind()
                == ErrorKind::InvalidArgument && rows[a].value.len() < 0xFFFF
        }),
{
    let key = order[a].key;
    let rows = plan::rows_of(order);
    let layout = tree::layout_for(p.page_size, p.eytzinger, p.tables[i].encoding, true);
    let t = &*db.spec_tables()[i].spec_primary();
    let e = t.spec_encoding();
    let s = laws::lemma_built_tree(p, im, db, source, o, i, order);
    let pages = t.spec_store().pages();
    laws::lemma_reader_encoding(p, im, db, source, o, i);
    assert(s.rows[a].key == key);
    assert(e.inner.accepts(key) && e.inner.well_formed(key));
    assert(e.inner.sign(s.rows[a].key, key) == 0);
    assert(t.spec_store() == db.spec_store());
    match r {
        Ok(Some(b)) => {
            let x = choose|x: int|
                0 <= x < s.rows.len() && e.inner.sign((#[trigger] s.rows[x]).key, key) == 0
                    && s.rows[x].value == b.spec_value();
            lemma_one_key(t, s, layout, key, x, a);
            b.lemma_complete();
            let (q, n, y) = choose|q: PageOrdinal, n: int, y: int| #[trigger]
                paths::entry_is_row(s, q, n, y) && e.inner.sign(s.rows[y].key, key) == 0 && (
                crate::format::node::leaf_entry_at(pages[q], n) matches Some(entry)
                    && entry.value is Overflow);
            lemma_entry_row(t, s, layout, q, n, y);
            lemma_one_key(t, s, layout, key, y, a);
            lemma_entry_packed(t, s, layout, p.page_size, q, n, a);
        },
        Ok(None) => {},
        Err(err) => {
            if err.kind() == ErrorKind::InvalidArgument && table::inline_value(t, s, key) {
                let (q, n, y) = choose|q: PageOrdinal, n: int, y: int| #[trigger]
                    paths::entry_is_row(s, q, n, y) && e.inner.sign(s.rows[y].key, key) == 0 && (
                    crate::format::node::leaf_entry_at(pages[q], n) matches Some(entry)
                        && entry.value is Inline);
                lemma_entry_row(t, s, layout, q, n, y);
                lemma_one_key(t, s, layout, key, y, a);
                lemma_entry_packed(t, s, layout, p.page_size, q, n, a);
            }
        },
    }
}

proof fn lemma_entry_row(t: &Tree, s: TreeShape, layout: NodeLayout, o: PageOrdinal, i: int, y: int)
    requires
        t.holds(s, layout),
        paths::entry_is_row(s, o, i, y),
        s.rows.len() > 0,
    ensures
        0 <= y < s.rows.len(),
{
    let j = choose|j: int|
        #[trigger] paths::leaf_at(s, o, j) && 0 <= i < s.levels[0][j].count && y
            == s.levels[0][j].first + i;
    assert(s.tiled(0));
    model::lemma_tiles_inside(s, 0, j);
}

} // verus!
