//! Building a database file.
//!
//! Input arrives in any order through [`DatabaseBuilder::append`], is sorted with a bounded
//! memory buffer that spills to scratch files, and is written out in one forward pass.
//! Secondary index record ids run from zero in primary key order within each index key.
//! Secondary index records are spooled while the primary tree is written, because that is
//! when each record's [`PageRef`](crate::format::pageref::PageRef) becomes known, and then
//! sorted and written the same way. A build of a dataset far larger than memory stays inside
//! the sort buffer you configured.

pub mod balance;
pub mod describe;
pub mod heap;
pub mod image;
pub mod indexing;
pub mod laws;
pub mod level;
pub mod merge;
pub mod offsets;
pub mod pace;
pub mod page;
pub mod plan;
pub mod report;
pub mod room;
pub mod run;
pub mod scratch;
pub mod shape;
pub mod sink;
pub mod spool;
pub mod table;
pub mod target;
pub mod tree;

use vstd::prelude::*;
use vstd::string::*;

use balance::keep_tables_inside;
use describe::write_front;
use image::{Image, Plan};
use offsets::DirectorySpool;
use plan::{PagePlan, SecondarySpec, SharedKeyFn, TablePlan, TableSpec};
use report::{BuildReport, TableReport};
use scratch::{MemoryScratch, Scratch};
use sink::PageSink;
use spool::RecordSpool;
use table::build_table;
use target::{BuildTarget, MemoryTarget};
use tree::{check_key_fits, choose_layout};

use crate::encoding::{self, KeyEncoding, SharedEncoding};
use crate::error::{Error, ErrorKind, Words};
use crate::filter::{PageFilter, SharedFilter};
use crate::format::bytes::{self, put_le4, put_le8};
use crate::format::catalog::TableModel;
use crate::format::header;
use crate::format::{HEADER_LEN, PAGE_COUNT_FIELD_OFFSET};
use crate::model::Row;

pub use tree::MIN_PAGE_SIZE;

verus! {

broadcast use crate::format::group_format;

/// Default page size.
pub const DEFAULT_PAGE_SIZE: usize = 4096;

/// Default number of record bytes buffered before the sorters spill.
pub const DEFAULT_SORT_BUFFER: usize = 67_108_864;

/// The smallest sort buffer.
pub const LEAST_SORT_BUFFER: usize = 65_536;

/// How many bytes of the page directory a build keeps in memory before spilling them.
pub const DIRECTORY_BUFFER: usize = 1_048_576;

/// Identifies a table inside a [`DatabaseBuilder`].
#[derive(Debug, Clone, Copy, PartialEq, Eq, Structural)]
pub struct TableId(usize);

impl TableId {
    /// Which of the builder's tables this is.
    pub closed spec fn spec_index(self) -> int {
        self.0 as int
    }
}

/// Builds a database file. Rows that do not fit in the sort buffer spill to files like the
/// one the builder was given.
pub struct DatabaseBuilder<S: Scratch> {
    page_size: usize,
    /// What every table's sorter holds between them, kept inside `sort_buffer`.
    buffered: u128,
    eytzinger_digests: bool,
    filter: Option<SharedFilter>,
    sort_buffer: usize,
    seed: S,
    tables: Vec<TableSpec<S>>,
}

impl<S: Scratch> View for DatabaseBuilder<S> {
    type V = Plan;

    closed spec fn view(&self) -> Plan {
        Plan {
            page_size: self.page_size as int,
            eytzinger: self.eytzinger_digests,
            filter: self.filter,
            sort_buffer: self.sort_buffer as int,
            tables: plan::table_plans(self.tables@),
        }
    }
}

impl DatabaseBuilder<MemoryScratch> {
    /// A builder with default settings, which spills to memory.
    pub fn new() -> (r: DatabaseBuilder<MemoryScratch>)
        ensures
            r.wf(),
            r.dependable(),
            r@ == (Plan {
                page_size: DEFAULT_PAGE_SIZE as int,
                eytzinger: false,
                filter: None,
                sort_buffer: DEFAULT_SORT_BUFFER as int,
                tables: Seq::empty(),
            }),
    {
        DatabaseBuilder::with_scratch(MemoryScratch::new())
    }
}

impl<S: Scratch> DatabaseBuilder<S> {
    /// Whether the builder is in a state its methods keep.
    pub closed spec fn wf(&self) -> bool {
        &&& MIN_PAGE_SIZE <= self.page_size <= 0x7FFF_FFFF
        &&& self.sort_buffer >= LEAST_SORT_BUFFER
        &&& self.buffered == balance::held(balance::spools_of(self.tables@))
        &&& forall|i: int| 0 <= i < self.tables@.len() ==> (#[trigger] self.tables@[i]).wf()
        &&& forall|i: int|
            0 <= i < self.tables@.len() ==> (#[trigger] self.tables@[i]).spool.dependable()
                == self.seed.dependable()
        &&& plan::tables_apart(plan::table_plans(self.tables@))
    }

    /// Whether spilling cannot fail.
    pub closed spec fn dependable(&self) -> bool {
        self.seed.dependable()
    }

    /// What every table's sorter holds between them.
    pub closed spec fn spec_held(&self) -> int {
        self.buffered as int
    }

    /// What went wrong with a table, once something has.
    pub closed spec fn table_failure(&self, i: int) -> Option<ErrorKind> {
        self.tables@[i].spool.failure()
    }

    /// Whether nothing went wrong with any table.
    pub open spec fn sound(&self) -> bool {
        forall|i: int| 0 <= i < self@.tables.len() ==> #[trigger] self.table_failure(i) is None
    }

    /// A builder with default settings, which spills to files like `seed`.
    pub fn with_scratch(seed: S) -> (r: DatabaseBuilder<S>)
        ensures
            r.wf(),
            r.dependable() == seed.dependable(),
            r@ == (Plan {
                page_size: DEFAULT_PAGE_SIZE as int,
                eytzinger: false,
                filter: None,
                sort_buffer: DEFAULT_SORT_BUFFER as int,
                tables: Seq::empty(),
            }),
    {
        let r = DatabaseBuilder {
            page_size: DEFAULT_PAGE_SIZE,
            buffered: 0,
            eytzinger_digests: false,
            filter: None,
            sort_buffer: DEFAULT_SORT_BUFFER,
            seed,
            tables: Vec::new(),
        };
        proof {
            assert(plan::table_plans(r.tables@) =~= Seq::<TablePlan>::empty());
            assert(balance::spools_of(r.tables@) =~= Seq::<RecordSpool<S>>::empty());
        }
        r
    }

    /// Sets the page size.
    ///
    /// At or below 32767 bytes the builder uses the compact metadata layout, and with
    /// an exact-digest encoding it also drops key bytes from the pages. Larger pages
    /// fall back to the classic fixed-size metadata records.
    pub fn page_size(self, bytes: usize) -> (r: Result<Self, Error>)
        requires
            self.wf(),
        ensures
            match r {
                Ok(b) => {
                    &&& MIN_PAGE_SIZE <= bytes <= i32::MAX
                    &&& b.wf()
                    &&& b@ == (Plan { page_size: bytes as int, ..self@ })
                    &&& b.dependable() == self.dependable()
                    &&& self.sound() ==> b.sound()
                },
                Err(e) => !(MIN_PAGE_SIZE <= bytes <= i32::MAX) && e.kind()
                    == ErrorKind::InvalidArgument,
            },
    {
        if bytes < MIN_PAGE_SIZE {
            return Err(
                Error::from_text(
                    ErrorKind::InvalidArgument,
                    crate::error::message_with(
                        "page size ",
                        bytes as u64,
                        " is below the 60 byte minimum",
                    ),
                ),
            );
        }
        if bytes > 0x7FFF_FFFF {
            return Err(Error::invalid("page size does not fit in the format's i32 field"));
        }
        let mut this = self;
        this.page_size = bytes;
        proof {
            assert forall|i: int| 0 <= i < this@.tables.len() && self.sound() implies (
            #[trigger] this.table_failure(i)) is None by {
                assert(self.table_failure(i) is None);
            }
        }
        Ok(this)
    }

    /// Stores each page's digest array as a padded complete binary tree in Eytzinger
    /// order instead of sorted order.
    ///
    /// It costs up to twice the digest area, and it turns off the key-omitting layout
    /// (enumeration needs digests in sorted order), so it is a trade, not a free win.
    pub fn eytzinger_digests(self, enabled: bool) -> (r: Self)
        requires
            self.wf(),
        ensures
            r.wf(),
            r@ == (Plan { eytzinger: enabled, ..self@ }),
            r.dependable() == self.dependable(),
            self.sound() ==> r.sound(),
    {
        let mut this = self;
        this.eytzinger_digests = enabled;
        proof {
            assert forall|i: int| 0 <= i < this@.tables.len() && self.sound() implies (
            #[trigger] this.table_failure(i)) is None by {
                assert(self.table_failure(i) is None);
            }
        }
        this
    }

    /// Applies a page filter to every page payload.
    pub fn page_filter(self, filter: SharedFilter) -> (r: Self)
        requires
            self.wf(),
        ensures
            r.wf(),
            r@ == (Plan { filter: Some(filter), ..self@ }),
            r.dependable() == self.dependable(),
            self.sound() ==> r.sound(),
    {
        let mut this = self;
        this.filter = Some(filter);
        proof {
            assert forall|i: int| 0 <= i < this@.tables.len() && self.sound() implies (
            #[trigger] this.table_failure(i)) is None by {
                assert(self.table_failure(i) is None);
            }
        }
        this
    }

    /// Bytes of records buffered before the sorters spill to a scratch file.
    ///
    /// The figure is for the whole build, shared by every table: the table holding the
    /// most gives its buffer up when the total goes over. It covers what a record costs
    /// to hold, not only its key and value, so a build of empty records spills as
    /// readily as one of large ones.
    pub fn sort_buffer(self, bytes: usize) -> (r: Self)
        requires
            self.wf(),
        ensures
            r.wf(),
            r@ == (Plan {
                sort_buffer: if bytes < LEAST_SORT_BUFFER {
                    LEAST_SORT_BUFFER as int
                } else {
                    bytes as int
                },
                ..self@
            }),
            r.dependable() == self.dependable(),
            self.sound() ==> r.sound(),
    {
        let mut this = self;
        this.sort_buffer = if bytes < LEAST_SORT_BUFFER {
            LEAST_SORT_BUFFER
        } else {
            bytes
        };
        // Tables already declared hold a sorter of their own, so the new figure has to
        // reach them: a setting that governed only the tables declared after it would
        // quietly do nothing to the ones already there.
        let ghost was = this.tables@;
        let mut i: usize = 0;
        while i < this.tables.len()
            invariant
                i <= this.tables@.len(),
                was == self.tables@,
                self.wf(),
                this.page_size == self.page_size,
                this.buffered == self.buffered,
                this.eytzinger_digests == self.eytzinger_digests,
                this.filter == self.filter,
                this.seed == self.seed,
                this.sort_buffer == (if bytes < LEAST_SORT_BUFFER {
                    LEAST_SORT_BUFFER
                } else {
                    bytes
                }),
                balance::same_tables(was, this.tables@),
                forall|j: int|
                    0 <= j < was.len() ==> (#[trigger] this.tables@[j]).spool.spec_buffered()
                        == was[j].spool.spec_buffered() && this.tables@[j].spool.failure()
                        == was[j].spool.failure(),
            decreases this.tables@.len() - i,
        {
            let ghost now = this.tables@;
            let budget = this.sort_buffer;
            proof {
                assert(balance::same_table(was[i as int], now[i as int]));
            }
            this.tables[i].spool.set_budget(budget);
            proof {
                assert forall|j: int| 0 <= j < was.len() implies #[trigger] balance::same_table(
                    was[j],
                    this.tables@[j],
                ) by {
                    assert(balance::same_table(was[j], now[j]));
                }
                assert forall|j: int| 0 <= j < was.len() implies (
                #[trigger] this.tables@[j]).spool.spec_buffered() == was[j].spool.spec_buffered()
                    && this.tables@[j].spool.failure() == was[j].spool.failure() by {
                    assert(now[j].spool.spec_buffered() == was[j].spool.spec_buffered());
                }
            }
            i += 1;
        }
        proof {
            lemma_same_tables(was, this.tables@);
            lemma_same_held(balance::spools_of(was), balance::spools_of(this.tables@));
            assert forall|j: int| 0 <= j < this@.tables.len() && self.sound() implies (
            #[trigger] this.table_failure(j)) is None by {
                assert(self.table_failure(j) is None);
                assert(this.tables@[j].spool.failure() == was[j].spool.failure());
            }
        }
        this
    }
}

/// Tables that hold the same rows are the same tables.
proof fn lemma_same_tables<S: Scratch>(a: Seq<TableSpec<S>>, b: Seq<TableSpec<S>>)
    requires
        balance::same_tables(a, b),
        forall|i: int| 0 <= i < a.len() ==> (#[trigger] a[i]).wf(),
    ensures
        plan::table_plans(a) == plan::table_plans(b),
        forall|i: int| 0 <= i < b.len() ==> (#[trigger] b[i]).wf(),
        forall|i: int|
            0 <= i < b.len() ==> (#[trigger] b[i]).spool.dependable() == a[i].spool.dependable(),
{
    assert forall|i: int| 0 <= i < b.len() implies (#[trigger] b[i]).wf() && b[i]@ == a[i]@
        && b[i].spool.dependable() == a[i].spool.dependable() by {
        assert(balance::same_table(a[i], b[i]));
        assert(a[i].wf());
    }
    assert(plan::table_plans(a) =~= plan::table_plans(b));
}

/// Sorters that hold as much hold as much between them.
proof fn lemma_same_held<S: Scratch>(a: Seq<RecordSpool<S>>, b: Seq<RecordSpool<S>>)
    requires
        a.len() == b.len(),
        forall|i: int|
            0 <= i < a.len() ==> (#[trigger] b[i]).spec_buffered() == a[i].spec_buffered(),
    ensures
        balance::held(a) == balance::held(b),
    decreases a.len(),
{
    if a.len() > 0 {
        assert forall|i: int| 0 <= i < a.drop_last().len() implies (
        #[trigger] b.drop_last()[i]).spec_buffered() == a.drop_last()[i].spec_buffered() by {
            assert(b[i].spec_buffered() == a[i].spec_buffered());
        }
        lemma_same_held(a.drop_last(), b.drop_last());
        assert(b[a.len() - 1].spec_buffered() == a[a.len() - 1].spec_buffered());
    }
}

impl<S: Scratch> DatabaseBuilder<S> {
    /// Whether everything but the tables is as it was.
    pub open spec fn same_settings(&self, other: &DatabaseBuilder<S>) -> bool {
        &&& self@ == (Plan { tables: self@.tables, ..other@ })
        &&& self.dependable() == other.dependable()
    }

    /// Declares a table with the given primary key encoding.
    pub fn create_table(&mut self, name: &str, encoding: SharedEncoding) -> (r: Result<
        TableId,
        Error,
    >)
        requires
            old(self).wf(),
        ensures
            final(self).wf(),
            match r {
                Ok(id) => {
                    &&& name@.len() > 0
                    &&& forall|i: int|
                        0 <= i < old(self)@.tables.len() ==> (
                        #[trigger] old(self)@.tables[i]).name != name@
                    &&& id.spec_index() == old(self)@.tables.len()
                    &&& final(self).same_settings(old(self))
                    &&& final(self)@.tables == old(self)@.tables.push(
                        TablePlan {
                            name: name@,
                            encoding,
                            indexes: Seq::empty(),
                            rows: Seq::empty(),
                        },
                    )
                    &&& old(self).sound() ==> final(self).sound()
                },
                Err(e) => {
                    &&& *final(self) == *old(self)
                    &&& e.kind() == ErrorKind::InvalidArgument
                    &&& name@.len() == 0 || exists|i: int|
                        0 <= i < old(self)@.tables.len() && (#[trigger] old(self)@.tables[i]).name
                            == name@
                },
            },
    {
        let text = name.to_owned();
        if text.as_str().unicode_len() == 0 {
            return Err(Error::invalid("table names cannot be empty"));
        }
        let ghost was = self.tables@;
        let ghost plans = plan::table_plans(was);
        let mut i: usize = 0;
        while i < self.tables.len()
            invariant
                i <= self.tables@.len(),
                *self == *old(self),
                self.wf(),
                text@ == name@,
                was == self.tables@,
                plans == plan::table_plans(was),
                forall|j: int| 0 <= j < i ==> (#[trigger] plans[j]).name != name@,
            decreases self.tables@.len() - i,
        {
            if self.tables[i].name == text {
                proof {
                    assert(old(self)@.tables[i as int].name == name@);
                }
                return Err(
                    Error::invalid_words(
                        Words::new("table `")
                            .say(name)
                            .say("` is already declared"),
                    ),
                );
            }
            i += 1;
        }
        let spool = RecordSpool::new(encoding.clone(), self.seed.fresh(), self.sort_buffer);
        let id = TableId(self.tables.len());
        self.tables.push(TableSpec { name: text, encoding, secondaries: Vec::new(), spool });
        proof {
            let now = plan::table_plans(self.tables@);
            let fresh = self.tables@.last()@;
            assert(fresh.indexes =~= Seq::<plan::IndexPlan>::empty());
            assert(now =~= plans.push(fresh));
            assert forall|a: int, b: int| 0 <= a < b < now.len() implies (#[trigger] now[a]).name
                != (#[trigger] now[b]).name by {
                if b == plans.len() {
                    assert(plans[a].name != name@);
                } else {
                    assert(plans[a].name != plans[b].name);
                }
            }
            let spools = balance::spools_of(self.tables@);
            assert(spools.drop_last() =~= balance::spools_of(was));
            assert forall|j: int| 0 <= j < self@.tables.len() && old(self).sound() implies (
            #[trigger] self.table_failure(j)) is None by {
                if j < was.len() {
                    assert(old(self).table_failure(j) is None);
                }
            }
        }
        Ok(id)
    }

    /// Declares a secondary index on a table.
    ///
    /// `key_fn` receives the record's key and value and returns the index key. It runs
    /// once per record while the primary tree is written.
    pub fn add_secondary_index(
        &mut self,
        table: TableId,
        name: &str,
        unique: bool,
        encoding: SharedEncoding,
        key_fn: SharedKeyFn,
    ) -> (r: Result<(), Error>)
        requires
            old(self).wf(),
        ensures
            final(self).wf(),
            match r {
                Ok(_) => {
                    let i = table.spec_index();
                    let t = old(self)@.tables[i];
                    &&& 0 <= i < old(self)@.tables.len()
                    &&& forall|j: int|
                        0 <= j < t.indexes.len() ==> (#[trigger] t.indexes[j]).name != name@
                    &&& name@ != plan::primary_name(t.name)
                    &&& t.rows.len() == 0
                    &&& final(self).same_settings(old(self))
                    &&& final(self)@.tables == old(self)@.tables.update(
                        i,
                        TablePlan {
                            indexes: t.indexes.push(
                                plan::IndexPlan { name: name@, unique, encoding, key_fn },
                            ),
                            ..t
                        },
                    )
                    &&& old(self).sound() ==> final(self).sound()
                },
                Err(e) => {
                    let i = table.spec_index();
                    &&& *final(self) == *old(self)
                    &&& e.kind() == ErrorKind::InvalidArgument
                    &&& {
                        ||| i >= old(self)@.tables.len()
                        ||| old(self)@.tables[i].rows.len() > 0
                        ||| name@ == plan::primary_name(old(self)@.tables[i].name)
                        ||| exists|j: int|
                            0 <= j < old(self)@.tables[i].indexes.len() && (
                            #[trigger] old(self)@.tables[i].indexes[j]).name == name@
                    }
                },
            },
    {
        let text = name.to_owned();
        let i = table.0;
        if i >= self.tables.len() {
            return Err(Error::invalid("unknown table handle"));
        }
        let ghost was = self.tables@;
        let ghost t = was[i as int]@;
        let mut j: usize = 0;
        while j < self.tables[i].secondaries.len()
            invariant
                i < self.tables@.len(),
                j <= self.tables@[i as int].secondaries@.len(),
                *self == *old(self),
                self.wf(),
                text@ == name@,
                was == self.tables@,
                t == was[i as int]@,
                i == table.spec_index(),
                forall|q: int| 0 <= q < j ==> (#[trigger] t.indexes[q]).name != name@,
            decreases self.tables@[i as int].secondaries@.len() - j,
        {
            if self.tables[i].secondaries[j].name == text {
                proof {
                    assert(t.indexes[j as int].name == name@);
                    assert(old(self)@.tables[i as int] == t);
                }
                return Err(
                    Error::invalid_words(
                        Words::new("table `")
                            .say(self.tables[i].name.as_str())
                            .say("` already has an index named `")
                            .say(name)
                            .say("`"),
                    ),
                );
            }
            j += 1;
        }
        if describe::primary_index_name(&self.tables[i].name) == text {
            proof {
                assert(old(self)@.tables[i as int] == t);
            }
            return Err(
                Error::invalid_words(
                    Words::new("the primary index of table `")
                        .say(self.tables[i].name.as_str())
                        .say("` is named `")
                        .say(name)
                        .say("`"),
                ),
            );
        }
        if self.tables[i].spool.len() > 0 {
            proof {
                assert(old(self)@.tables[i as int] == t);
            }
            return Err(
                Error::invalid(
                    "secondary indexes have to be declared before the first row is appended",
                ),
            );
        }
        self.tables[i].secondaries.push(SecondarySpec { name: text, unique, encoding, key_fn });
        proof {
            let k = i as int;
            let now = self.tables@[k];
            let fresh = now.secondaries@.last()@;
            let plans = plan::table_plans(was);
            let after = plan::table_plans(self.tables@);
            assert(now@.indexes =~= t.indexes.push(fresh));
            assert(plan::indexes_apart(now@.name, now@.indexes)) by {
                assert forall|a: int, b: int| 0 <= a < b < now@.indexes.len() implies (
                #[trigger] now@.indexes[a]).name != (#[trigger] now@.indexes[b]).name by {
                    if b == t.indexes.len() {
                        assert(t.indexes[a].name != name@);
                    } else {
                        assert(t.indexes[a].name != t.indexes[b].name);
                    }
                }
                assert forall|a: int| 0 <= a < now@.indexes.len() implies (
                #[trigger] now@.indexes[a]).name != plan::primary_name(now@.name) by {
                    if a < t.indexes.len() {
                        assert(t.indexes[a].name != plan::primary_name(t.name));
                    }
                }
            }
            assert(after =~= plans.update(k, TablePlan { indexes: t.indexes.push(fresh), ..t }));
            assert forall|a: int, b: int| 0 <= a < b < after.len() implies (#[trigger] after[a]).name
                != (#[trigger] after[b]).name by {
                assert(plans[a].name != plans[b].name);
            }
            assert forall|a: int| 0 <= a < self.tables@.len() implies (#[trigger] self.tables@[a]).wf() by {
                assert(was[a].wf());
            }
            assert forall|a: int| 0 <= a < self.tables@.len() implies (
            #[trigger] self.tables@[a]).spool.dependable() == self.seed.dependable() by {
                assert(was[a].spool.dependable() == self.seed.dependable());
            }
            assert(balance::spools_of(self.tables@) =~= balance::spools_of(was));
            assert forall|a: int| 0 <= a < self@.tables.len() && old(self).sound() implies (
            #[trigger] self.table_failure(a)) is None by {
                assert(old(self).table_failure(a) is None);
            }
        }
        Ok(())
    }
}

/// Whether a row is one that a table can take: its key is one of the table's encoding, short
/// enough for the format and for the pages.
pub open spec fn row_taken(p: PagePlan, t: TablePlan, key: Seq<u8>) -> bool {
    &&& key_fits(p, t, key)
    &&& t.encoding.inner.well_formed(key)
    &&& t.encoding.inner.accepts(key)
}

/// Whether a key is short enough for the format and for the pages.
pub open spec fn key_fits(p: PagePlan, t: TablePlan, key: Seq<u8>) -> bool {
    &&& key.len() <= u16::MAX
    &&& tree::key_fits(
        p.page_size,
        tree::layout_for(p.page_size, p.eytzinger, t.encoding, true),
        key.len() as int,
    )
}

impl<S: Scratch> DatabaseBuilder<S> {
    /// Whether the tables after a row was put in are those before, with the row.
    pub open spec fn row_added(&self, was: &DatabaseBuilder<S>, i: int, row: Row) -> bool {
        let t = was@.tables[i];
        &&& self.same_settings(was)
        &&& self@.tables == was@.tables.update(i, TablePlan { rows: t.rows.push(row), ..t })
    }

    /// Appends a row. Rows may arrive in any order.
    ///
    /// A row that was refused leaves the table as it was. When spilling fails the row has
    /// gone in and cannot be taken back, and the table's build cannot go on.
    pub fn append(&mut self, table: TableId, key: &[u8], value: &[u8]) -> (r: Result<(), Error>)
        requires
            old(self).wf(),
        ensures
            final(self).wf(),
            final(self).same_settings(old(self)),
            ({
                let i = table.spec_index();
                let t = old(self)@.tables[i];
                match r {
                    Ok(_) => {
                        &&& 0 <= i < old(self)@.tables.len()
                        &&& row_taken(old(self)@.paging(), t, key@)
                        &&& old(self).table_failure(i) is None
                        &&& final(self).row_added(
                            old(self),
                            i,
                            Row { key: key@, value: value@ },
                        )
                        // The buffer is what the build holds.
                        &&& final(self).spec_held() <= old(self)@.sort_buffer
                        &&& old(self).sound() ==> final(self).sound()
                    },
                    Err(e) => {
                        ||| i >= old(self)@.tables.len() && e.kind() == ErrorKind::InvalidArgument
                            && *final(self) == *old(self)
                        ||| i < old(self)@.tables.len() && !key_fits(
                            old(self)@.paging(),
                            t,
                            key@,
                        ) && e.kind() == ErrorKind::ValueTooLarge && *final(self) == *old(self)
                        ||| i < old(self)@.tables.len() && !row_taken(
                            old(self)@.paging(),
                            t,
                            key@,
                        ) && !e.is_resource() && final(self)@ == old(self)@
                        ||| i < old(self)@.tables.len() && e.kind() == ErrorKind::ValueTooLarge
                            && spool::too_long(t.rows, key@, value@) && final(self)@ == old(self)@
                        ||| i < old(self)@.tables.len() && old(self).append_failure(
                            i,
                            Row { key: key@, value: value@ },
                            e,
                        )
                    },
                }
            }),
    {
        let i = table.0;
        if i >= self.tables.len() {
            return Err(Error::invalid("unknown table handle"));
        }
        let ghost was = self.tables@;
        let ghost t = was[i as int]@;
        proof {
            assert(old(self)@.tables[i as int] == t);
            assert(was[i as int].wf());
        }
        if key.len() > 0xFFFF {
            return Err(
                Error::from_text(
                    ErrorKind::ValueTooLarge,
                    crate::error::message_with(
                        "key is ",
                        key.len() as u64,
                        " bytes; the format stores key lengths as u16",
                    ),
                ),
            );
        }
        // The same check the tree writer makes at build time, done here so the caller
        // learns which row is the problem.
        let layout = choose_layout(
            self.page_size,
            self.eytzinger_digests,
            &self.tables[i].encoding,
            true,
        );
        match check_key_fits(self.page_size, layout, key.len()) {
            Ok(_) => {},
            Err(e) => return Err(e),
        }
        let before = self.tables[i].spool.buffered_bytes();
        let pushed = self.tables[i].spool.push(key, value);
        let after = self.tables[i].spool.buffered_bytes();
        proof {
            let spools = balance::spools_of(was);
            let now = balance::spools_of(self.tables@);
            assert(now =~= spools.update(i as int, self.tables@[i as int].spool));
            balance::lemma_held_update(spools, i as int, self.tables@[i as int].spool);
            balance::lemma_share(spools, i as int);
            balance::lemma_held_total(now);
            lemma_table_changed(was, self.tables@, i as int);
            assert(self.tables.len() == now.len());
        }
        self.buffered = self.buffered - before as u128 + after as u128;
        let ghost mid = *self;
        match pushed {
            Ok(_) => {},
            Err(e) => {
                proof {
                    if self.tables@[i as int].spool.rows() == t.rows {
                        assert(self@.tables =~= old(self)@.tables);
                    }
                }
                return Err(e);
            },
        }
        proof {
            assert(self@.tables =~= old(self)@.tables.update(
                i as int,
                TablePlan { rows: t.rows.push(Row { key: key@, value: value@ }), ..t },
            ));
        }
        match self.keep_inside_the_sort_buffer() {
            Ok(_) => {},
            Err(e) => {
                proof {
                    if exists|j: int|
                        0 <= j < mid@.tables.len() && #[trigger] mid.table_failure(j) == Some(
                            e.kind(),
                        ) {
                        let j = choose|j: int|
                            0 <= j < mid@.tables.len() && #[trigger] mid.table_failure(j) == Some(
                                e.kind(),
                            );
                        assert(old(self).table_failure(j) == Some(e.kind()));
                    } else if e.kind() == ErrorKind::ValueTooLarge {
                        let j = choose|j: int|
                            0 <= j < mid@.tables.len() && pace::overfull(
                                (#[trigger] mid@.tables[j]).rows,
                            );
                        if j != i {
                            assert(mid@.tables[j] == old(self)@.tables[j]);
                            assert(pace::overfull(old(self)@.tables[j].rows));
                        }
                    }
                }
                return Err(e);
            },
        }
        proof {
            assert forall|j: int| 0 <= j < self@.tables.len() && old(self).sound() implies (
            #[trigger] self.table_failure(j)) is None by {
                assert(old(self).table_failure(j) is None);
                assert(mid.table_failure(j) is None);
            }
        }
        Ok(())
    }

    /// Why a row that could be taken was not, or why what it displaced could not be spilled.
    pub open spec fn append_failure(&self, i: int, row: Row, e: Error) -> bool {
        let t = self@.tables[i];
        ||| self.spill_failure(e)
        ||| e.kind() == ErrorKind::ValueTooLarge && pace::overfull(t.rows.push(row))
    }

    /// Why what the tables hold could not be spilled.
    pub open spec fn spill_failure(&self, e: Error) -> bool {
        ||| e.kind() == ErrorKind::ValueTooLarge && exists|j: int|
            0 <= j < self@.tables.len() && pace::overfull((#[trigger] self@.tables[j]).rows)
        ||| e.kind() == ErrorKind::Io && !self.dependable()
        ||| exists|j: int|
            0 <= j < self@.tables.len() && #[trigger] self.table_failure(j) == Some(e.kind())
    }

    /// Spills until every table's sorter together holds no more than the sort buffer.
    ///
    /// The figure is what the build may hold, not what each table may hold: giving every
    /// table a buffer of its own would mean that a build of sixty-four tables holds
    /// sixty-four times the number the caller set.
    fn keep_inside_the_sort_buffer(&mut self) -> (r: Result<(), Error>)
        requires
            old(self).wf(),
        ensures
            final(self).wf(),
            final(self)@ == old(self)@,
            final(self).dependable() == old(self).dependable(),
            match r {
                Ok(_) => {
                    &&& final(self).spec_held() <= old(self)@.sort_buffer
                    &&& forall|j: int|
                        0 <= j < old(self)@.tables.len() && #[trigger] old(self).table_failure(
                            j,
                        ) is None ==> final(self).table_failure(j) is None
                },
                Err(e) => old(self).spill_failure(e),
            },
    {
        if self.buffered <= self.sort_buffer as u128 {
            return Ok(());
        }
        let ghost was = self.tables@;
        let budget = self.sort_buffer;
        let kept = keep_tables_inside(&mut self.tables, budget);
        let (held, fullest) = balance::measure_tables(&self.tables);
        self.buffered = held;
        proof {
            lemma_same_tables(was, self.tables@);
            assert forall|j: int|
                0 <= j < old(self)@.tables.len() && #[trigger] old(self).table_failure(
                    j,
                ) is None && kept is Ok implies self.table_failure(j) is None by {
                assert(was[j].spool.failure() is None);
            }
        }
        match kept {
            Ok(_) => Ok(()),
            Err(e) => {
                proof {
                    let spools = balance::spools_of(was);
                    if balance::some_overfull(spools) {
                        let j = choose|j: int|
                            0 <= j < spools.len() && pace::overfull((#[trigger] spools[j]).rows());
                        assert(old(self)@.tables[j].rows == spools[j].rows());
                    }
                    if balance::failed_before(spools, e) {
                        let j = choose|j: int|
                            0 <= j < spools.len() && (#[trigger] spools[j]).failure() == Some(
                                e.kind(),
                            );
                        assert(old(self).table_failure(j) == Some(e.kind()));
                    }
                    if !balance::all_dependable(spools) {
                        let j = choose|j: int|
                            0 <= j < spools.len() && !(#[trigger] spools[j]).dependable();
                        assert(was[j].spool.dependable() == self.seed.dependable());
                    }
                }
                Err(e)
            },
        }
    }
}

/// Tables of which one changed what it holds.
proof fn lemma_table_changed<S: Scratch>(
    a: Seq<TableSpec<S>>,
    b: Seq<TableSpec<S>>,
    i: int,
)
    requires
        0 <= i < a.len(),
        a.len() == b.len(),
        forall|j: int| 0 <= j < a.len() && j != i ==> #[trigger] b[j] == a[j],
        b[i].name == a[i].name,
        b[i].encoding == a[i].encoding,
        b[i].secondaries == a[i].secondaries,
        b[i].spool.wf(),
        b[i].spool.key_encoding() == a[i].spool.key_encoding(),
        forall|j: int| 0 <= j < a.len() ==> (#[trigger] a[j]).wf(),
        plan::tables_apart(plan::table_plans(a)),
    ensures
        forall|j: int| 0 <= j < b.len() ==> (#[trigger] b[j]).wf(),
        plan::tables_apart(plan::table_plans(b)),
{
    assert forall|j: int| 0 <= j < b.len() implies (#[trigger] b[j]).wf() by {
        assert(a[j].wf());
    }
    let (p, q) = (plan::table_plans(a), plan::table_plans(b));
    assert forall|x: int, y: int| 0 <= x < y < q.len() implies (#[trigger] q[x]).name != (
    #[trigger] q[y]).name by {
        assert(p[x].name != p[y].name);
        assert(q[x].name == p[x].name && q[y].name == p[y].name);
    }
}

/// The most pages that tables take.
pub open spec fn plan_pages(tables: Seq<TablePlan>) -> int
    decreases tables.len(),
{
    if tables.len() == 0 {
        0
    } else {
        plan_pages(tables.drop_last()) + table::table_pages(tables.last())
    }
}

/// The first tables take no more pages than all of them.
proof fn lemma_plan_pages(tables: Seq<TablePlan>, k: int)
    requires
        0 <= k <= tables.len(),
    ensures
        0 <= plan_pages(tables.subrange(0, k)) <= plan_pages(tables),
        k < tables.len() ==> plan_pages(tables.subrange(0, k + 1)) == plan_pages(
            tables.subrange(0, k),
        ) + table::table_pages(tables[k]) && plan_pages(tables.subrange(0, k + 1)) <= plan_pages(
            tables,
        ),
    decreases tables.len(), k,
{
    if k < tables.len() {
        table::lemma_table_pages(tables[k]);
        let next = tables.subrange(0, k + 1);
        assert(next.drop_last() =~= tables.subrange(0, k));
    }
    if tables.len() == 0 {
    } else if k == tables.len() {
        assert(tables.subrange(0, k) =~= tables);
        lemma_plan_pages(tables, k - 1);
    } else {
        let front = tables.drop_last();
        table::lemma_table_pages(tables.last());
        lemma_plan_pages(front, k);
        assert(front.subrange(0, k) =~= tables.subrange(0, k));
        if k + 1 == tables.len() {
            assert(tables.subrange(0, k + 1) =~= tables);
        } else {
            assert(front.subrange(0, k + 1) =~= tables.subrange(0, k + 1));
            lemma_plan_pages(front, k);
        }
    }
}

impl<S: Scratch> DatabaseBuilder<S> {
    /// Why a build cannot be finished: its descriptors cannot be written, the file cannot, or
    /// one of its tables cannot be built.
    pub open spec fn build_failure(&self, dependable: bool, e: Error) -> bool {
        ||| e.kind() == ErrorKind::InvalidArgument && describe::unwritable(
            self@.filter,
            self@.tables,
        )
        ||| e.kind() == ErrorKind::Io && !(dependable && self.dependable())
        ||| exists|i: int|
            0 <= i < self@.tables.len() && table::table_failure(
                #[trigger] self@.tables[i],
                self.table_failure(i),
                dependable && self.dependable(),
                self.cramped(i),
                e,
            )
    }

    /// Whether a table has a row or a key that its trees cannot hold, or the build may have
    /// more pages than the format allows, or longer ones.
    pub open spec fn cramped(&self, i: int) -> bool {
        ||| table::table_unfit(self@.paging(), self@.tables[i])
        ||| plan_pages(self@.tables) > 0x7FFF_FFFF
        ||| sink::swells(self@.filter)
    }

    /// Whether nothing about table `i` stands in the way of a build: its rows and keys fit, its
    /// encodings are orders, no key is there twice that must not be, and every index gets a key
    /// that it can hold from every row.
    pub open spec fn table_ready(&self, i: int) -> bool {
        let t = self@.tables[i];
        &&& !self.cramped(i)
        &&& encoding::lawful(&**t.encoding.inner)
        &&& !indexing::has_twins(t.encoding, t.rows)
        &&& !table::key_missing(t)
        &&& !table::key_refused(t)
        &&& !table::key_unfit(t)
        &&& forall|j: int|
            0 <= j < t.indexes.len() ==> encoding::lawful(
                &**(#[trigger] t.indexes[j]).encoding.inner,
            ) && !(t.indexes[j].unique && table::key_twice(t, j))
    }

    /// A build is finished whenever its tables are ready, its names can be written, and
    /// neither its scratch files nor its target fail: no error explains a failure then.
    pub proof fn lemma_ready(&self, e: Error)
        requires
            self.dependable(),
            self.sound(),
            !describe::unwritable(self@.filter, self@.tables),
            forall|i: int| 0 <= i < self@.tables.len() ==> #[trigger] self.table_ready(i),
        ensures
            !self.build_failure(true, e),
    {
        if self.build_failure(true, e) {
            let i = choose|i: int|
                0 <= i < self@.tables.len() && table::table_failure(
                    #[trigger] self@.tables[i],
                    self.table_failure(i),
                    true && self.dependable(),
                    self.cramped(i),
                    e,
                );
            let t = self@.tables[i];
            assert(self.table_ready(i));
            assert(self.table_failure(i) is None);
            assert(exists|j: int| #[trigger] table::index_refused(t, j));
            let j = choose|j: int| #[trigger] table::index_refused(t, j);
            assert(encoding::lawful(&**t.indexes[j].encoding.inner));
        }
    }

    /// Builds the database into memory. Intended for tests and small databases.
    pub fn build_to_vec(self) -> (r: Result<Vec<u8>, Error>)
        requires
            self.wf(),
        ensures
            match r {
                Ok(file) => image::built(self@, file@) && !describe::unwritable(
                    self@.filter,
                    self@.tables,
                ),
                Err(e) => self.build_failure(
                    self@.filter matches Some(f) ==> f.inner.dependable(),
                    e,
                ),
            },
    {
        match self.build_into(MemoryTarget::new()) {
            Ok((target, _)) => Ok(target.into_vec()),
            Err(e) => Err(e),
        }
    }

    /// Failing to spill is failing to build.
    proof fn lemma_spill_failure(
        &self,
        tables: Seq<TableSpec<S>>,
        k: int,
        whole: bool,
        e: Error,
    )
        requires
            0 <= k,
            k + tables.len() <= self@.tables.len(),
            forall|q: int|
                0 <= q < tables.len() ==> (#[trigger] tables[q]).spool.failure()
                    == self.table_failure(k + q),
            forall|q: int|
                0 <= q < tables.len() ==> (#[trigger] tables[q]).spool.dependable()
                    == self.dependable(),
            forall|q: int|
                0 <= q < tables.len() ==> (#[trigger] tables[q]).spool.rows()
                    == self@.tables[k + q].rows,
            balance::spill_failure(balance::spools_of(tables), e),
        ensures
            self.build_failure(whole, e),
    {
        let spools = balance::spools_of(tables);
        if balance::failed_before(spools, e) {
            let q = choose|q: int|
                0 <= q < spools.len() && (#[trigger] spools[q]).failure() == Some(e.kind());
            assert(spools[q] == tables[q].spool);
            assert(table::table_failure(
                self@.tables[k + q],
                self.table_failure(k + q),
                whole && self.dependable(),
                self.cramped(k + q),
                e,
            ));
        } else if e.kind() == ErrorKind::ValueTooLarge {
            let q = choose|q: int|
                0 <= q < spools.len() && pace::overfull((#[trigger] spools[q]).rows());
            assert(spools[q] == tables[q].spool);
            let t = self@.tables[k + q];
            assert(tables[q].spool.rows() == t.rows);
            room::lemma_overfull(self@.paging(), t.encoding, true, t.rows);
            table::lemma_table_pages(t);
            lemma_plan_pages(self@.tables, k + q);
            assert(table::table_failure(
                t,
                self.table_failure(k + q),
                whole && self.dependable(),
                self.cramped(k + q),
                e,
            ));
        } else if e.kind() == ErrorKind::Io {
            let q = choose|q: int| 0 <= q < spools.len() && !(#[trigger] spools[q]).dependable();
            assert(spools[q] == tables[q].spool);
        }
    }

    /// Builds the database into a target with nothing in it. Returns the target with the
    /// database.
    pub fn build_into<T: BuildTarget>(self, target: T) -> (r: Result<(T, BuildReport), Error>)
        requires
            self.wf(),
            target.written().len() == 0,
        ensures
            match r {
                Ok((done, made)) => {
                    &&& image::built(self@, done.written())
                    &&& !describe::unwritable(self@.filter, self@.tables)
                    &&& made.file_size == done.written().len()
                    &&& made.tables@.len() == self@.tables.len()
                    &&& forall|i: int|
                        0 <= i < made.tables@.len() ==> report::reported(
                            #[trigger] made.tables@[i],
                            self@.tables[i],
                        )
                    &&& image::built_pages(self@, done.written(), made.page_count as int)
                },
                Err(e) => self.build_failure(
                    target.dependable() && (self@.filter matches Some(f)
                        ==> f.inner.dependable()),
                    e,
                ),
            },
    {
        let ghost plans = self@.tables;
        let ghost p = self@.paging();
        let ghost n = plans.len() as int;
        let ghost failures = Seq::new(plans.len(), |i: int| self.table_failure(i));
        let DatabaseBuilder {
            page_size,
            buffered,
            eytzinger_digests,
            filter,
            sort_buffer,
            seed,
            tables,
        } = self;
        let mut tables = tables;
        let ghost sound = target.dependable() && (self@.filter matches Some(f)
            ==> f.inner.dependable());
        let directory = DirectorySpool::new(seed.fresh(), DIRECTORY_BUFFER);
        let mut sink = PageSink::new(target, filter.clone(), directory);
        // Descriptors first: every root ordinal is a placeholder that is filled in once the
        // tree exists.
        let roots = match write_front(&mut sink, page_size, &filter, &tables) {
            Ok(roots) => roots,
            Err(e) => return Err(e),
        };
        let ghost mut models = choose|models: Seq<TableModel>|
            models.len() == n && #[trigger] describe::front_written(
                sink.file(),
                sink.base(),
                page_size as int,
                filter,
                models,
            ) && describe::tables_written(models, plans, roots@);
        // The figure can have been lowered after the rows went in, in which case what the
        // tables are holding is over it before a single page is written.
        let ghost were = tables@;
        match keep_tables_inside(&mut tables, sort_buffer) {
            Ok(_) => {},
            Err(e) => {
                proof {
                    self.lemma_spill_failure(were, 0, sound, e);
                }
                return Err(e);
            },
        }
        proof {
            lemma_same_tables(were, tables@);
            assert(plans.subrange(0, n) =~= plans);
        }
        let mut reports: Vec<TableReport> = Vec::new();
        let mut k: usize = 0;
        proof {
            assert(plans.subrange(0, 0) =~= Seq::<TablePlan>::empty());
        }
        while tables.len() > 0
            invariant
                self.wf(),
                plans == self@.tables,
                p == self@.paging(),
                n == plans.len(),
                sink.dependable() == (sound && seed.dependable()),
                page_size == self.page_size,
                eytzinger_digests == self.eytzinger_digests,
                sort_buffer == self.sort_buffer,
                seed == self.seed,
                filter == self.filter,
                sound == (target.dependable() && (self@.filter matches Some(f)
                    ==> f.inner.dependable())),
                k + tables@.len() == n,
                plan::table_plans(tables@) == plans.subrange(k as int, n),
                forall|q: int| 0 <= q < tables@.len() ==> (#[trigger] tables@[q]).wf(),
                forall|q: int|
                    0 <= q < tables@.len() ==> (#[trigger] tables@[q]).spool.dependable()
                        == seed.dependable(),
                forall|q: int|
                    0 <= q < tables@.len() ==> (#[trigger] tables@[q]).spool.failure()
                        == self.table_failure(k + q),
                sink.wf(),
                sink.filter() == filter,
                sink.pages().len() <= plan_pages(plans.subrange(0, k as int)),
                sink.file().len() <= describe::FRONT_SPAN + plan_pages(
                    plans.subrange(0, k as int),
                ) * 0x8000_0000,
                models.len() == n,
                roots@.len() == n,
                describe::front_written(
                    sink.file(),
                    sink.base(),
                    page_size as int,
                    filter,
                    models,
                ),
                forall|j: int|
                    k <= j < n ==> plan::described(#[trigger] models[j], plans[j])
                        && describe::roots_match(roots@[j], models[j]),
                forall|j: int|
                    0 <= j < k ==> #[trigger] plan::table_built(
                        p,
                        plans[j],
                        models[j],
                        sink.pages(),
                    ),
                reports@.len() == k,
                forall|j: int|
                    0 <= j < k ==> report::reported(#[trigger] reports@[j], plans[j]),
            decreases tables@.len(),
        {
            let ghost before = tables@;
            let ghost was = models;
            let ghost sink0 = sink;
            let spec = tables.remove(0);
            proof {
                lemma_plan_pages(plans, k as int);
                assert(spec@ == plan::table_plans(before)[0]);
                assert(plans.subrange(k as int, n)[0] == plans[k as int]);
                assert forall|q: int| 0 <= q < tables@.len() implies (#[trigger] tables@[q]).wf() by {
                    assert(tables@[q] == before[q + 1]);
                }
            }
            // The tables still waiting are holding buffers of their own, and the sorters of
            // the table about to be written share the sort buffer with them. A table that
            // would leave the sorters less than half of it is written out first: its rows
            // have to be sorted and read back in any case.
            let ghost rest = tables@;
            let waiting = match keep_tables_inside(&mut tables, sort_buffer / 2) {
                Ok(waiting) => waiting,
                Err(e) => {
                    proof {
                        assert forall|q: int| 0 <= q < rest.len() implies (
                        #[trigger] rest[q]).spool.failure() == self.table_failure(k + 1 + q)
                            && rest[q].spool.dependable() == seed.dependable()
                            && rest[q].spool.rows() == plans[k + 1 + q].rows by {
                            assert(rest[q] == before[q + 1]);
                            assert(plan::table_plans(before)[q + 1] == plans.subrange(
                                k as int,
                                n,
                            )[q + 1]);
                        }
                        self.lemma_spill_failure(rest, k + 1, sound, e);
                    }
                    return Err(e);
                },
            };
            let (made, now) = match build_table(
                &mut sink,
                page_size,
                eytzinger_digests,
                sort_buffer,
                &seed,
                spec,
                &roots[k],
                waiting,
                Ghost(k as int),
                Ghost(models),
            ) {
                Ok(made) => made,
                Err(e) => {
                    proof {
                        assert(before[0].spool.failure() == self.table_failure(k as int));
                        assert(table::table_failure(
                            plans[k as int],
                            self.table_failure(k as int),
                            sound && self.dependable(),
                            self.cramped(k as int),
                            e,
                        ));
                    }
                    return Err(e);
                },
            };
            reports.push(made);
            proof {
                models = now@;
                lemma_same_tables(rest, tables@);
                assert(plan::table_plans(rest) =~= plans.subrange(k + 1, n)) by {
                    assert(plan::table_plans(before).subrange(1, before.len() as int)
                        =~= plans.subrange(k + 1, n));
                    assert(plan::table_plans(rest) =~= plan::table_plans(before).subrange(
                        1,
                        before.len() as int,
                    ));
                }
                assert forall|q: int| 0 <= q < tables@.len() implies (
                #[trigger] tables@[q]).spool.failure() == self.table_failure(k + 1 + q)
                    && tables@[q].spool.dependable() == seed.dependable() by {
                    assert(tables@[q].spool.failure() == rest[q].spool.failure());
                    assert(rest[q] == before[q + 1]);
                    assert(before[q + 1].spool.dependable() == seed.dependable());
                }
                assert forall|j: int| 0 <= j < k + 1 implies #[trigger] plan::table_built(
                    p,
                    plans[j],
                    models[j],
                    sink.pages(),
                ) by {
                    if j < k {
                        assert(models[j] == was[j]);
                        table::lemma_table_kept(p, plans[j], was[j], sink0.pages(), sink.pages());
                    }
                }
                assert forall|j: int| k + 1 <= j < n implies plan::described(
                    #[trigger] models[j],
                    plans[j],
                ) && describe::roots_match(roots@[j], models[j]) by {
                    assert(models[j] == was[j]);
                }
            }
            k += 1;
        }
        proof {
            assert(plans.subrange(0, n) =~= plans);
            if plan_pages(plans) > 0x7FFF_FFFF {
                assert(n > 0);
                assert(self.cramped(0));
                assert(plans[0] == self@.tables[0]);
            }
        }
        let (done, page_count, file_size) = match seal(sink, Ghost(self@), Ghost(models)) {
            Ok(sealed) => sealed,
            Err(e) => return Err(e),
        };
        let report = BuildReport { page_count, file_size, tables: reports };
        proof {
            assert forall|i: int| 0 <= i < report.tables@.len() implies report::reported(
                #[trigger] report.tables@[i],
                self@.tables[i],
            ) by {
                assert(report::reported(reports@[i], plans[i]));
            }
            let im = choose|im: Image|
                #[trigger] im.of(self@, done.written()) && im.pages.len() == page_count;
            assert(im.of(self@, done.written()));
            assert(image::built(self@, done.written()));
            assert(!describe::unwritable(self@.filter, self@.tables));
        }
        Ok((done, report))
    }
}

/// Writes the page directory, fills in where it is, and gives the target up.
fn seal<T: BuildTarget, D: Scratch>(
    sink: PageSink<T, D>,
    Ghost(p): Ghost<Plan>,
    Ghost(models): Ghost<Seq<TableModel>>,
) -> (r: Result<(T, u64, u64), Error>)
    requires
        sink.wf(),
        sink.filter() == p.filter,
        MIN_PAGE_SIZE <= p.page_size <= 0x7FFF_FFFF,
        models.len() == p.tables.len(),
        describe::front_written(sink.file(), sink.base(), p.page_size, p.filter, models),
        forall|i: int|
            0 <= i < p.tables.len() ==> #[trigger] plan::table_built(
                p.paging(),
                p.tables[i],
                models[i],
                sink.pages(),
            ),
    ensures
        match r {
            Ok((done, page_count, file_size)) => {
                &&& image::built_pages(p, done.written(), page_count as int)
                &&& file_size == done.written().len()
            },
            Err(e) => {
                ||| e.kind() == ErrorKind::Io && !sink.dependable()
                ||| e.kind() == ErrorKind::ValueTooLarge && sink.file().len() + 8
                    * sink.pages().len() >= 0x8000_0000_0000_0000
            },
        },
{
    let mut this = sink;
    let (position, page_count) = match this.finish_directory() {
        Ok(done) => done,
        Err(e) => return Err(e),
    };
    if position >= 0x8000_0000_0000_0000 {
        return Err(Error::new(ErrorKind::ValueTooLarge, "the file is larger than a file can be"));
    }
    let mut patch: Vec<u8> = Vec::new();
    put_le4(&mut patch, page_count);
    put_le8(&mut patch, position);
    match this.patch_at(PAGE_COUNT_FIELD_OFFSET, patch.as_slice()) {
        Ok(_) => {},
        Err(e) => return Err(e),
    }
    match this.flush() {
        Ok(_) => {},
        Err(e) => return Err(e),
    }
    let file_size = this.pos();
    let ghost im = Image {
        tables: models,
        end: this.base(),
        pages: this.pages(),
        offsets: this.offsets(),
        position: position as int,
    };
    proof {
        lemma_finished(p, &sink, &this, im);
        assert(im.of(p, this.file()));
    }
    let done = this.into_target();
    proof {
        assert(im.of(p, done.written()));
        assert(image::built_pages(p, done.written(), page_count as int));
    }
    Ok((done, page_count, file_size))
}

/// What the file is once the page directory is written and the header is filled in.
proof fn lemma_finished<T: BuildTarget, D: Scratch>(
    p: Plan,
    before: &PageSink<T, D>,
    after: &PageSink<T, D>,
    im: Image,
)
    requires
        before.wf(),
        after.wf(),
        before.filter() == p.filter,
        after.filter() == p.filter,
        MIN_PAGE_SIZE <= p.page_size <= 0x7FFF_FFFF,
        im.tables.len() == p.tables.len(),
        im.end == before.base(),
        im.pages == before.pages(),
        im.offsets == before.offsets(),
        im.position == before.file().len(),
        im.position < 0x8000_0000_0000_0000,
        after.pages() == before.pages(),
        after.offsets() == before.offsets(),
        describe::front_written(before.file(), im.end, p.page_size, p.filter, im.tables),
        after.file() == target::spliced(
            before.file() + sink::directory_bytes(before.offsets()),
            PAGE_COUNT_FIELD_OFFSET as int,
            bytes::le4(im.pages.len() as int) + bytes::le8(im.position),
        ),
        forall|i: int|
            0 <= i < p.tables.len() ==> #[trigger] plan::table_built(
                p.paging(),
                p.tables[i],
                im.tables[i],
                im.pages,
            ),
    ensures
        im.of(p, after.file()),
{
    let a = before.file();
    let f = after.file();
    let n = PAGE_COUNT_FIELD_OFFSET as int;
    let h = im.header(p);
    before.lemma_wf();
    sink::lemma_directory_slot(im.offsets, 0);
    let dir = sink::directory_bytes(im.offsets);
    assert(f.len() == a.len() + dir.len());
    // The header.
    let first = describe::header_for(
        p.page_size,
        describe::filter_count(p.filter) as int,
        p.tables.len() as int,
        0,
        0,
    ).bytes();
    assert(f.subrange(0, n) =~= a.subrange(0, n));
    assert(h.bytes().subrange(0, n) =~= first.subrange(0, n));
    assert(f.subrange(n, n + 12) =~= bytes::le4(im.pages.len() as int) + bytes::le8(im.position));
    assert(h.bytes().subrange(n, n + 12) =~= bytes::le4(im.pages.len() as int) + bytes::le8(
        im.position,
    ));
    let rest = f.subrange(HEADER_LEN as int, f.len() as int);
    assert(f =~= h.bytes() + rest) by {
        assert forall|i: int| 0 <= i < f.len() implies f[i] == (h.bytes() + rest)[i] by {
            if i < n {
                assert(f.subrange(0, n)[i] == h.bytes().subrange(0, n)[i]);
            } else if i < n + 12 {
                assert(f.subrange(n, n + 12)[i - n] == h.bytes().subrange(n, n + 12)[i - n]);
            }
        }
    }
    h.lemma_round_trip(rest);
    // The descriptors.
    describe::lemma_catalog_kept(a, f, im.end, p.filter, im.tables);
    // The directory.
    assert(f.subrange(im.position, f.len() as int) =~= dir);
    // The pages.
    assert forall|o: int| 0 <= o < im.pages.len() implies #[trigger] im.page_stored(
        p.filter,
        f,
        o,
    ) by {
        assert(before.page_placed(o));
        sink::lemma_stored_apart(p.filter, a, f, im.offsets[o] as int, im.pages[o]);
    }
}

} // verus!
