//! Building the tree of a secondary index.

use vstd::prelude::*;

use super::pace;
use super::plan::{self, PagePlan, SecondarySpec};
use super::room;
use super::run::{self, Entry, Record};
use super::scratch::Scratch;
use super::sink::{self, PageSink};
use super::spool::{self, RecordSpool, SortedRecords};
use super::target::BuildTarget;
use super::tree::{self, TreeWriter};
use crate::encoding::duplicate::{self, DuplicateKeyEncoding};
use crate::encoding::{self, alike, KeyEncoding, KeyOrder, SharedEncoding};
use crate::error::{Error, ErrorKind, Words};
use crate::format::PageOrdinal;
use crate::index;
use crate::model::Row;

verus! {

broadcast use crate::format::group_format;

/// Whether two of the rows have keys that are the same key.
pub open spec fn has_twins(e: SharedEncoding, rows: Seq<Row>) -> bool {
    exists|i: int, j: int|
        0 <= i < rows.len() && 0 <= j < rows.len() && i != j && e.inner.sign(
            (#[trigger] rows[i]).key,
            (#[trigger] rows[j]).key,
        ) == 0
}

/// Records that do not ascend where the encoding is a total order are two with one key.
pub proof fn lemma_twins(e: SharedEncoding, rows: Seq<Row>, given: Seq<Entry>)
    requires
        given.len() >= 2,
        run::entries_in_order(e, given),
        encoding::lawful(&**e.inner),
        forall|i: int|
            0 <= i < given.len() ==> run::member(rows, 0, rows.len() as int, #[trigger] given[i]),
        e.inner.sign(given[given.len() - 2].key, given.last().key) >= 0,
    ensures
        has_twins(e, rows),
{
    let a = given[given.len() - 2];
    let b = given.last();
    assert(run::entry_before(e, a, b));
    assert(rows[a.seq as int].key == a.key);
    assert(rows[b.seq as int].key == b.key);
}

/// Whether records given out are rows.
pub open spec fn all_members(rows: Seq<Row>, given: Seq<Entry>) -> bool {
    forall|i: int|
        0 <= i < given.len() ==> run::member(rows, 0, rows.len() as int, #[trigger] given[i])
}

/// A row of a tree that can hold its rows fits.
pub proof fn lemma_row_fits(p: PagePlan, e: SharedEncoding, unique: bool, rows: Seq<Row>, x: Entry)
    requires
        run::member(rows, 0, rows.len() as int, x),
    ensures
        room::rows_unfit(p, e, unique, rows) || !room::row_unfit(
            p.page_size,
            tree::layout_for(p.page_size, p.eytzinger, e, unique),
            x.key.len() + room::key_extra(unique),
            x.value.len() as int,
        ),
{
    assert(rows[x.seq as int].key == x.key);
}

/// Writes the tree of a unique index.
fn build_unique<T: BuildTarget, D: Scratch, S: Scratch>(
    sink: &mut PageSink<T, D>,
    page_size: usize,
    eytzinger: bool,
    table: &str,
    index: &SecondarySpec,
    records: SortedRecords<S>,
) -> (r: Result<PageOrdinal, Error>)
    requires
        old(sink).wf(),
        tree::MIN_PAGE_SIZE <= page_size <= 0x7FFF_FFFF,
        records.wf(),
        records.given() == Seq::<Entry>::empty(),
        records.key_encoding() == index.encoding,
        spool::rows_taken(index.encoding, records.rows()),
    ensures
        final(sink).dependable() == old(sink).dependable(),
        final(sink).filter() == old(sink).filter(),
        match r {
            Ok(root) => {
                &&& tree::sink_grew(old(sink), final(sink), old(sink).pages().len() as int)
                &&& root.get() < 0x8000_0000
                &&& sink::within(
                    old(sink),
                    final(sink),
                    room::tree_pages(records.rows().len() as int),
                )
                &&& exists|l: Seq<Entry>|
                    #[trigger] run::sorted_run(
                        index.encoding,
                        records.rows(),
                        0,
                        records.rows().len() as int,
                        l,
                    ) && plan::index_holds(
                        PagePlan { page_size: page_size as int, eytzinger },
                        true,
                        index.encoding,
                        l,
                        final(sink).pages(),
                        root,
                    )
            },
            Err(e) => {
                ||| room::write_failure(
                    old(sink).dependable() && records.dependable(),
                    room::cramped(
                        old(sink),
                        PagePlan { page_size: page_size as int, eytzinger },
                        index.encoding,
                        true,
                        records.rows(),
                    ),
                    e,
                )
                ||| e.kind() == ErrorKind::InvalidArgument && (encoding::lawful(
                    &**index.encoding.inner,
                ) ==> has_twins(index.encoding, records.rows()))
            },
        },
{
    let ghost e = index.encoding;
    let ghost rows = records.rows();
    let ghost start = sink.pages().len() as int;
    let ghost first = *sink;
    let ghost whole = records.dependable();
    let ghost p = PagePlan { page_size: page_size as int, eytzinger };
    let ghost unfit = room::rows_unfit(p, e, true, rows);
    let mut sorted = records;
    let mut writer = match TreeWriter::new(
        sink,
        page_size,
        eytzinger,
        index.encoding.clone(),
        true,
    ) {
        Ok(writer) => writer,
        Err(e) => return Err(e),
    };
    let mut previous: Option<Vec<u8>> = None;
    let ghost layout = writer.page_layout();
    loop
        invariant
            first == *old(sink),
            e == index.encoding,
            rows == records.rows(),
            whole == records.dependable(),
            start == first.pages().len(),
            sorted.wf(),
            sorted.rows() == rows,
            sorted.key_encoding() == e,
            sorted.dependable() == whole,
            spool::rows_taken(e, rows),
            all_members(rows, sorted.given()),
            writer.wf(sink),
            writer.key_encoding() == e,
            writer.page_layout() == layout,
            writer.first_page() == start,
            writer.size_of_page() == page_size,
            p == (PagePlan { page_size: page_size as int, eytzinger }),
            layout == tree::layout_for(p.page_size, p.eytzinger, e, true),
            unfit == room::rows_unfit(p, e, true, rows),
            unfit || writer.fair(),
            sink::within(&first, sink, tree::PUSH_PAGES * sorted.given().len()),
            sorted.given().len() <= rows.len(),
            writer.rows() == plan::rows_of(sorted.given()),
            tree::sink_grew(&first, sink, start),
            sink.dependable() == first.dependable(),
            sink.filter() == first.filter(),
            match previous {
                None => sorted.given().len() == 0,
                Some(k) => sorted.given().len() > 0 && k@ == sorted.given().last().key,
            },
        ensures
            run::sorted_run(e, rows, 0, rows.len() as int, sorted.given()),
        decreases rows.len() - sorted.given().len(),
    {
        let ghost before = sorted.given();
        let ghost sink0 = *sink;
        proof {
            sorted.lemma_given_len();
        }
        let record = match sorted.next_record() {
            Ok(Some(record)) => record,
            Ok(None) => break,
            Err(e) => return Err(e),
        };
        proof {
            sorted.lemma_given_len();
            assert(sorted.given().last() == record@);
            assert(all_members(rows, sorted.given()));
            assert(rows[record@.seq as int].key == record.key@);
        }
        if let Some(last) = &previous {
            match index.encoding.order(last.as_slice(), record.key.as_slice()) {
                Ok(KeyOrder::Less) => {},
                Ok(_) => {
                    proof {
                        if encoding::lawful(&**e.inner) {
                            assert(sorted.given()[sorted.given().len() - 2] == before.last());
                            lemma_twins(e, rows, sorted.given());
                        }
                    }
                    let key = index.encoding.inner.format_key(record.key.as_slice());
                    return Err(
                        Error::invalid_words(
                            Words::new("unique index `")
                                .say(index.name.as_str())
                                .say("` on table `")
                                .say(table)
                                .say("` was given the key ")
                                .say(key.as_str())
                                .say(" twice"),
                        ),
                    );
                },
                Err(e) => return Err(e),
            }
        }
        proof {
            if writer.rows().len() > 0 {
                assert(writer.rows().last().key == before.last().key);
            }
        }
        proof {
            lemma_row_fits(p, e, true, rows, record@);
        }
        match writer.push(sink, record.key.as_slice(), record.value.as_slice(), Vec::new()) {
            Ok(_) => {},
            Err(e) => return Err(e),
        }
        let placed = writer.take_placed(sink);
        proof {
            tree::lemma_grew_twice(&first, &sink0, sink, start);
            assert(writer.rows() =~= plan::rows_of(sorted.given()));
        }
        previous = Some(record.key);
    }
    let ghost l = sorted.given();
    let ghost sink1 = *sink;
    let ghost full = writer;
    let (root, placed) = match writer.finish(sink) {
        Ok(done) => done,
        Err(e) => return Err(e),
    };
    proof {
        if full.held(sink.pages(), root, placed@) {
            full.lemma_held(sink.pages(), root, placed@);
        }
        tree::lemma_grew_twice(&first, &sink1, sink, start);
        assert(plan::index_rows(true, e, l) == plan::rows_of(l));
        assert(index::tree_encoding(true, e, e));
    }
    Ok(root)
}

/// Record ids do not depend on the records that follow.
proof fn lemma_record_id_kept(e: SharedEncoding, l: Seq<Entry>, x: Entry, i: int)
    requires
        0 <= i < l.len(),
    ensures
        plan::record_id(e, l.push(x), i) == plan::record_id(e, l, i),
    decreases i,
{
    if i > 0 {
        assert(l.push(x)[i - 1] == l[i - 1] && l.push(x)[i] == l[i]);
        lemma_record_id_kept(e, l, x, i - 1);
    }
}

/// One more record is one more row.
proof fn lemma_index_rows_push(e: SharedEncoding, l: Seq<Entry>, x: Entry)
    ensures
        plan::index_rows(false, e, l.push(x)) == plan::index_rows(false, e, l).push(
            Row {
                key: duplicate::composite(x.key, plan::record_id(e, l.push(x), l.len() as int)),
                value: x.value,
            },
        ),
{
    let a = plan::index_rows(false, e, l.push(x));
    let b = plan::index_rows(false, e, l);
    assert forall|i: int| 0 <= i < l.len() implies #[trigger] a[i] == b[i] by {
        lemma_record_id_kept(e, l, x, i);
    }
    assert(a =~= b.push(a[l.len() as int]));
}

/// Whether a row of an index cannot be stored with a record id.
pub open spec fn unstorable(source: SharedEncoding, rows: Seq<Row>) -> bool {
    exists|i: int, rid: int|
        0 <= i < rows.len() && !(DuplicateKeyEncoding { source }).well_formed(
            #[trigger] duplicate::composite(rows[i].key, rid),
        )
}

/// Writes the tree of an index with duplicate keys.
///
/// Duplicate keys are made unique by appending a record id, assigned in append order inside
/// each run of equal keys.
fn build_duplicate<T: BuildTarget, D: Scratch, S: Scratch>(
    sink: &mut PageSink<T, D>,
    page_size: usize,
    eytzinger: bool,
    table: &str,
    index: &SecondarySpec,
    records: SortedRecords<S>,
) -> (r: Result<PageOrdinal, Error>)
    requires
        old(sink).wf(),
        tree::MIN_PAGE_SIZE <= page_size <= 0x7FFF_FFFF,
        records.wf(),
        records.given() == Seq::<Entry>::empty(),
        records.key_encoding() == index.encoding,
        spool::rows_taken(index.encoding, records.rows()),
    ensures
        final(sink).dependable() == old(sink).dependable(),
        final(sink).filter() == old(sink).filter(),
        match r {
            Ok(root) => {
                &&& tree::sink_grew(old(sink), final(sink), old(sink).pages().len() as int)
                &&& root.get() < 0x8000_0000
                &&& sink::within(
                    old(sink),
                    final(sink),
                    room::tree_pages(records.rows().len() as int),
                )
                &&& exists|l: Seq<Entry>|
                    #[trigger] run::sorted_run(
                        index.encoding,
                        records.rows(),
                        0,
                        records.rows().len() as int,
                        l,
                    ) && plan::index_holds(
                        PagePlan { page_size: page_size as int, eytzinger },
                        false,
                        index.encoding,
                        l,
                        final(sink).pages(),
                        root,
                    )
            },
            Err(e) => {
                ||| room::write_failure(
                    old(sink).dependable() && records.dependable(),
                    room::cramped(
                        old(sink),
                        PagePlan { page_size: page_size as int, eytzinger },
                        index.encoding,
                        false,
                        records.rows(),
                    ),
                    e,
                )
                ||| e.kind() == ErrorKind::InvalidArgument && !encoding::lawful(
                    &**index.encoding.inner,
                )
                ||| unstorable(index.encoding, records.rows())
            },
        },
{
    let ghost e = index.encoding;
    let ghost rows = records.rows();
    let ghost start = sink.pages().len() as int;
    let ghost first = *sink;
    let ghost whole = records.dependable();
    let ghost p = PagePlan { page_size: page_size as int, eytzinger };
    let ghost unfit = room::rows_unfit(p, e, false, rows);
    let mut sorted = records;
    let composite = SharedEncoding::duplicate(index.encoding.clone());
    let ghost dup = DuplicateKeyEncoding { source: e };
    // Keys stay on the page: the digest of a composite key covers only its source key, so
    // omitting the bytes would erase the record id that orders duplicates.
    let mut writer = match TreeWriter::new(sink, page_size, eytzinger, composite.clone(), false) {
        Ok(writer) => writer,
        Err(e) => return Err(e),
    };
    let ghost layout = writer.page_layout();
    let mut previous: Option<Vec<u8>> = None;
    let mut rid: i32 = 0;
    proof {
        assert(writer.rows() =~= plan::index_rows(false, e, sorted.given()));
    }
    loop
        invariant
            first == *old(sink),
            e == index.encoding,
            rows == records.rows(),
            whole == records.dependable(),
            start == first.pages().len(),
            dup == (DuplicateKeyEncoding { source: e }),
            composite.behaves_like(dup),
            sorted.wf(),
            sorted.rows() == rows,
            sorted.key_encoding() == e,
            sorted.dependable() == whole,
            spool::rows_taken(e, rows),
            all_members(rows, sorted.given()),
            writer.wf(sink),
            writer.key_encoding() == composite,
            writer.page_layout() == layout,
            writer.first_page() == start,
            writer.size_of_page() == page_size,
            p == (PagePlan { page_size: page_size as int, eytzinger }),
            layout == tree::layout_for(p.page_size, p.eytzinger, e, false),
            unfit == room::rows_unfit(p, e, false, rows),
            unfit || writer.fair(),
            sink::within(&first, sink, tree::PUSH_PAGES * sorted.given().len()),
            sorted.given().len() <= rows.len(),
            writer.rows() == plan::index_rows(false, e, sorted.given()),
            tree::sink_grew(&first, sink, start),
            sink.dependable() == first.dependable(),
            sink.filter() == first.filter(),
            0 <= rid <= sorted.given().len(),
            match previous {
                None => sorted.given().len() == 0,
                Some(k) => {
                    &&& sorted.given().len() > 0
                    &&& k@ == sorted.given().last().key
                    &&& rid == plan::record_id(e, sorted.given(), sorted.given().len() - 1)
                },
            },
        ensures
            run::sorted_run(e, rows, 0, rows.len() as int, sorted.given()),
        decreases rows.len() - sorted.given().len(),
    {
        let ghost before = sorted.given();
        let ghost sink0 = *sink;
        let ghost rid0 = rid as int;
        proof {
            sorted.lemma_given_len();
        }
        let record = match sorted.next_record() {
            Ok(Some(record)) => record,
            Ok(None) => break,
            Err(e) => return Err(e),
        };
        let ghost at = before.len() as int;
        proof {
            sorted.lemma_given_len();
            assert(sorted.given().last() == record@);
            assert(rows[record@.seq as int].key == record.key@);
            assert(at > 0 ==> sorted.given()[at - 1] == before.last());
            assert(all_members(rows, sorted.given()));
        }
        rid = match &previous {
            None => 0,
            Some(last) => match index.encoding.order(last.as_slice(), record.key.as_slice()) {
                Ok(KeyOrder::Equal) => {
                    if rid == 0x7FFF_FFFF {
                        return Err(
                            Error::from_text(
                                ErrorKind::ValueTooLarge,
                                Words::new("index `")
                                    .say(index.name.as_str())
                                    .say("` on table `")
                                    .say(table)
                                    .say("` has more than 2^31-1 rows for one key")
                                    .end(),
                            ),
                        );
                    }
                    rid + 1
                },
                Ok(KeyOrder::Less) => 0,
                Ok(KeyOrder::Greater) => {
                    proof {
                        if encoding::lawful(&**e.inner) {
                            assert(run::entry_before(
                                e,
                                sorted.given()[at - 1],
                                sorted.given()[at],
                            ));
                        }
                    }
                    return Err(
                        Error::invalid_words(
                            Words::new("encoding `")
                                .say(index.encoding.inner.id())
                                .say("` of index `")
                                .say(index.name.as_str())
                                .say("` is not an order"),
                        ),
                    );
                },
                Err(e) => return Err(e),
            },
        };
        let key = DuplicateKeyEncoding::encode(record.key.as_slice(), rid);
        match composite.inner.validate_key(key.as_slice()) {
            Ok(_) => {},
            Err(e) => return Err(e),
        }
        proof {
            assert(rid == plan::record_id(e, sorted.given(), at)) by {
                if at > 0 {
                    lemma_record_id_kept(e, before, record@, at - 1);
                }
            }
            lemma_index_rows_push(e, before, record@);
            duplicate::lemma_split_composite(record.key@, rid as int);
            lemma_row_fits(p, e, false, rows, record@);
            if at > 0 {
                duplicate::lemma_split_composite(before.last().key, rid0);
                assert(writer.rows().last().key == duplicate::composite(
                    before.last().key,
                    plan::record_id(e, before, at - 1),
                ));
                assert(composite.inner.sign(writer.rows().last().key, key@) == dup.sign(
                    writer.rows().last().key,
                    key@,
                ));
            }
        }
        match writer.push(sink, key.as_slice(), record.value.as_slice(), Vec::new()) {
            Ok(_) => {},
            Err(e) => {
                proof {
                    assert(composite.inner.accepts(key@) == dup.accepts(key@));
                }
                return Err(e);
            },
        }
        let placed = writer.take_placed(sink);
        proof {
            tree::lemma_grew_twice(&first, &sink0, sink, start);
        }
        previous = Some(record.key);
    }
    let ghost l = sorted.given();
    let ghost sink1 = *sink;
    let ghost full = writer;
    let (root, placed) = match writer.finish(sink) {
        Ok(done) => done,
        Err(e) => return Err(e),
    };
    proof {
        if full.held(sink.pages(), root, placed@) {
            full.lemma_held(sink.pages(), root, placed@);
        }
        tree::lemma_grew_twice(&first, &sink1, sink, start);
        assert(index::tree_encoding(false, e, composite));
        if encoding::lawful(&**e.inner) {
            duplicate::lemma_duplicate_lawful(e);
            alike::lemma_behaves(composite, dup);
            alike::lemma_lawful(&dup, &**composite.inner);
        }
    }
    Ok(root)
}

/// Builds the tree of a secondary index from its records. Returns the root page.
pub fn build_index_tree<T: BuildTarget, D: Scratch, S: Scratch>(
    sink: &mut PageSink<T, D>,
    page_size: usize,
    eytzinger: bool,
    table: &str,
    index: &SecondarySpec,
    spool: RecordSpool<S>,
) -> (r: Result<PageOrdinal, Error>)
    requires
        old(sink).wf(),
        tree::MIN_PAGE_SIZE <= page_size <= 0x7FFF_FFFF,
        spool.wf(),
        spool.key_encoding() == index.encoding,
    ensures
        final(sink).dependable() == old(sink).dependable(),
        final(sink).filter() == old(sink).filter(),
        match r {
            Ok(root) => {
                &&& tree::sink_grew(old(sink), final(sink), old(sink).pages().len() as int)
                &&& root.get() < 0x8000_0000
                &&& sink::within(
                    old(sink),
                    final(sink),
                    room::tree_pages(spool.rows().len() as int),
                )
                &&& exists|l: Seq<Entry>|
                    #[trigger] run::sorted_run(
                        index.encoding,
                        spool.rows(),
                        0,
                        spool.rows().len() as int,
                        l,
                    ) && plan::index_holds(
                        PagePlan { page_size: page_size as int, eytzinger },
                        index.unique,
                        index.encoding,
                        l,
                        final(sink).pages(),
                        root,
                    )
            },
            Err(e) => index_failure(
                PagePlan { page_size: page_size as int, eytzinger },
                index@,
                &spool,
                old(sink),
                e,
            ),
        },
{
    let unique = index.unique;
    let sorted = match spool.into_sorted() {
        Ok(sorted) => sorted,
        Err(e) => {
            proof {
                if pace::overfull(spool.rows()) {
                    room::lemma_overfull(
                        PagePlan { page_size: page_size as int, eytzinger },
                        index.encoding,
                        unique,
                        spool.rows(),
                    );
                }
            }
            return Err(e);
        },
    };
    if unique {
        build_unique(sink, page_size, eytzinger, table, index, sorted)
    } else {
        build_duplicate(sink, page_size, eytzinger, table, index, sorted)
    }
}

/// Why the tree of an index cannot be built.
pub open spec fn index_failure<T: BuildTarget, D: Scratch, S: Scratch>(
    p: PagePlan,
    ix: plan::IndexPlan,
    spool: &RecordSpool<S>,
    sink: &PageSink<T, D>,
    e: Error,
) -> bool {
    ||| spool.failure() == Some(e.kind())
    ||| room::write_failure(
        sink.dependable() && spool.dependable(),
        room::cramped(sink, p, ix.encoding, ix.unique, spool.rows()),
        e,
    )
    ||| e.kind() == ErrorKind::InvalidArgument && (encoding::lawful(&**ix.encoding.inner)
        ==> ix.unique && has_twins(ix.encoding, spool.rows()))
    ||| !ix.unique && unstorable(ix.encoding, spool.rows())
}

} // verus!
