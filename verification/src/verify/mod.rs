//! Whole-file verification.
//!
//! Opening a database checks the header, the descriptors and the pages it actually
//! touches. `verify` is the explicit, streaming pass over everything else: every page in
//! the directory, and every tree walked level by level. It holds one page at a time, so
//! it runs inside the same memory budget as a query.
//!
//! A tree is walked one level at a time rather than by descending into children: every
//! page of a level is on that level's sibling chain, so the walk reaches all of them
//! while holding a single page. Descending would either hold one page per level or need
//! a queue the width of the tree.

pub mod chain;
pub mod home;
pub mod indexes;
pub mod laws;
pub mod leaves;
pub mod levels;
pub mod refs;
pub mod report;
pub mod sound;
pub mod whole;

use std::sync::Arc;

use vstd::prelude::*;
use vstd::string::*;

use self::indexes::verify_index;
use self::leaves::verify_tree;
use self::refs::OverflowPages;
use self::report::{short_name, Reporter, VerifyOptions, VerifyProblem, VerifyReport};
use crate::btree::Tree;
use crate::budget::{self, Charged};
use crate::db::table::TableInner;
use crate::db::{Database, Table};
use crate::error::{Error, ErrorKind};
use crate::format::PageOrdinal;
use crate::index::IndexInner;
use crate::model::Pages;
use crate::store::PageStore;

verus! {

broadcast use crate::format::group_format;

/// Whether page `o` of a file is there.
pub open spec fn page_there(store: &PageStore, o: u64) -> bool {
    store.pages().contains_key(PageOrdinal::spec_new(o))
}

/// Whether a problem names a page of the file that is damaged. That a read failed is no damage.
pub open spec fn names_missing(store: &PageStore, problem: VerifyProblem) -> bool {
    problem.page matches Some(o) && o < store.file().section.count && store.damaged(
        PageOrdinal::spec_new(o),
        page_there(store, o),
    )
}

impl Reporter {
    /// Whether the problems found since `a` all name a page that is not there.
    pub open spec fn sweeps(store: &PageStore, a: &Reporter, b: &Reporter) -> bool {
        forall|k: int|
            a.spec_report().problems@.len() <= k < b.spec_report().problems@.len()
                ==> names_missing(store, #[trigger] b.spec_report().problems@[k])
    }
}

/// Loads and validates every page in the directory. Returns whether it stopped because the
/// caller asked for no more findings, which is not the same as stopping because the pass
/// could not go on.
fn sweep_pages(store: &Arc<PageStore>, reporter: &mut Reporter) -> (r: bool)
    requires
        old(reporter).paid(),
        old(reporter).spec_store() == *store,
    ensures
        Reporter::grew(old(reporter), final(reporter)),
        Reporter::sweeps(store, old(reporter), final(reporter)),
        r ==> final(reporter).is_full(),
        final(reporter).spec_report().trees_checked == old(reporter).spec_report().trees_checked,
        final(reporter).spec_report().entries_checked == old(reporter).spec_report().entries_checked,
        !r && Reporter::quiet(old(reporter), final(reporter)) ==> {
            &&& forall|o: u64| o < store.file().section.count ==> #[trigger] page_there(store, o)
            &&& final(reporter).spec_report().pages_checked == budget::capped(
                old(reporter).spec_report().pages_checked + store.file().section.count,
            )
        },
        0 <= store.file().section.count <= u64::MAX,
        old(reporter).spec_max() == 0 && !r && final(reporter).spec_failure() is None
            ==> store.file().section.count == 0 && *final(reporter) == *old(reporter),
        store.steady() && !old(reporter).is_full() && (forall|o: u64|
            o < store.file().section.count ==> #[trigger] page_there(store, o)) ==> {
            &&& Reporter::calm(old(reporter), final(reporter))
            &&& !r
        },
        final(reporter).spec_failure() matches Some(e) ==> old(reporter).spec_failure() == Some(e)
            || e.is_resource(),
{
    let ghost r0 = *reporter;
    let ghost intact = store.steady() && !r0.is_full() && (forall|o: u64|
        o < store.file().section.count ==> #[trigger] page_there(store, o));
    let count = store.page_count();
    proof {
        Reporter::lemma_same(reporter);
    }
    let mut ordinal: u64 = 0;
    while ordinal < count
        invariant
            r0 == *old(reporter),
            count == store.file().section.count,
            ordinal <= count,
            intact == (store.steady() && !r0.is_full() && (forall|o: u64|
                o < store.file().section.count ==> #[trigger] page_there(store, o))),
            reporter.spec_store() == *store,
            Reporter::grew(&r0, reporter),
            Reporter::sweeps(store, &r0, reporter),
            reporter.spec_report().trees_checked == r0.spec_report().trees_checked,
            reporter.spec_report().entries_checked == r0.spec_report().entries_checked,
            Reporter::quiet(&r0, reporter) ==> {
                &&& forall|o: u64| o < ordinal ==> #[trigger] page_there(store, o)
                &&& reporter.spec_report().pages_checked == budget::capped(
                    r0.spec_report().pages_checked + ordinal,
                )
            },
            r0.spec_max() == 0 ==> ordinal == 0 && *reporter == r0,
            intact ==> Reporter::calm(&r0, reporter),
            reporter.spec_failure() matches Some(e) ==> r0.spec_failure() == Some(e)
                || e.is_resource(),
        decreases count - ordinal,
    {
        let ghost r1 = *reporter;
        if reporter.full() {
            return !reporter.stopped();
        }
        match store.page(PageOrdinal::new(ordinal)) {
            Ok(_) => {
                reporter.count_page();
            },
            Err(e) => {
                proof {
                    assert(intact ==> page_there(store, ordinal));
                }
                proof {
                    assert(page_there(store, ordinal) == store.pages().contains_key(
                        PageOrdinal::spec_new(ordinal),
                    ));
                }
                let ghost before = reporter.spec_report().problems@;
                reporter.failed(Some(ordinal), e);
                proof {
                    let after = reporter.spec_report().problems@;
                    assert forall|k: int|
                        r0.spec_report().problems@.len() <= k < after.len() implies names_missing(
                        store,
                        #[trigger] after[k],
                    ) by {
                        if k < before.len() {
                            assert(after.subrange(0, before.len() as int)[k] == after[k]);
                            assert(before[k] == after[k]);
                        } else {
                            assert(after[k] == after.last());
                        }
                    }
                }
            },
        }
        proof {
            Reporter::lemma_quiet(&r0, &r1, reporter);
        }
        ordinal += 1;
    }
    false
}

/// Whether the pages a set holds are blob pages of entries on these leaves.
pub open spec fn remembers(set: &OverflowPages, pages: Pages, l: Seq<PageOrdinal>) -> bool {
    forall|o: PageOrdinal| #[trigger]
        set.has(o) ==> leaves::is_overflow(pages, sound::entry_list(pages, l), o)
}

/// Whether an index was found sound: its tree is, and each of its entries refers to the value
/// of a leaf entry, or to a blob page of one of the entries of the table.
pub open spec fn index_sound(primary: &Tree, l: Seq<PageOrdinal>, index: &IndexInner) -> bool {
    exists|m: Seq<PageOrdinal>, set: OverflowPages| #[trigger]
        leaves::tree_verified(&*index.spec_tree(), m, Some(set)) && remembers(
            &set,
            primary.spec_store().pages(),
            l,
        ) && set.home() == *primary
}

/// Whether a table with these leaves, and the first `n` of its indexes, were found sound.
pub open spec fn part_sound(table: &TableInner, l: Seq<PageOrdinal>, n: int) -> bool {
    &&& leaves::tree_verified(&*table.spec_primary(), l, None)
    &&& forall|k: int|
        0 <= k < n ==> index_sound(
            &*table.spec_primary(),
            l,
            &*#[trigger] table.spec_secondaries()[k],
        )
}

/// Whether a table and all its indexes were found sound.
pub open spec fn table_sound(table: &TableInner) -> bool {
    exists|l: Seq<PageOrdinal>| #[trigger]
        part_sound(table, l, table.spec_secondaries().len() as int)
}

/// Whether a table is one that a pass finds nothing wrong with: its tree is empty or held,
/// and its indexes are held and refer to values of the table.
pub open spec fn table_intact(store: Arc<PageStore>, table: &TableInner) -> bool {
    let t = &*table.spec_primary();
    &&& store.steady()
    &&& t.spec_store() == store
    &&& t.spec_root() is None || indexes::is_held(t)
    &&& forall|k: int|
        0 <= k < table.spec_secondaries().len() ==> {
            let index = #[trigger] table.spec_secondaries()[k];
            indexes::index_intact(t, &*index.spec_tree(), index.spec_descriptor().is_unique)
        }
}

/// How many entries the walk of a held tree counts.
pub open spec fn rows_in(t: &Tree) -> int {
    if t.spec_root() is None {
        0
    } else {
        indexes::shape_of(t).0.rows.len() as int
    }
}

/// How many entries a pass over the first indexes of a table counts: an index is walked and
/// then scanned.
pub open spec fn index_entries(indexes: Seq<Arc<IndexInner>>, n: int) -> int
    decreases n,
{
    if n <= 0 {
        0
    } else {
        index_entries(indexes, n - 1) + 2 * rows_in(&*indexes[n - 1].spec_tree())
    }
}

/// Whether a number of trees and entries were counted, and nothing else.
pub open spec fn work_counted(a: &Reporter, b: &Reporter, trees: int, entries: int) -> bool {
    let (x, y) = (a.spec_report(), b.spec_report());
    &&& y.pages_checked == x.pages_checked
    &&& y.trees_checked == budget::capped(x.trees_checked + trees)
    &&& y.entries_checked == budget::capped(x.entries_checked + entries)
}

/// Stops a pass that has found as much as the caller asked for. Returns whether to go on.
fn keep_going(reporter: &mut Reporter) -> (r: bool)
    requires
        old(reporter).paid(),
    ensures
        Reporter::grew(old(reporter), final(reporter)),
        r == !old(reporter).is_full(),
        r ==> *final(reporter) == *old(reporter),
        !r ==> !Reporter::quiet(old(reporter), final(reporter)) && final(reporter).spec_failure()
            == old(reporter).spec_failure() && (final(reporter).spec_failure() is None ==> final(reporter).spec_report().truncated),
{
    proof {
        Reporter::lemma_same(reporter);
    }
    if reporter.stopped() {
        return false;
    }
    if reporter.full() {
        reporter.truncate();
        return false;
    }
    true
}

/// Whether an error says that there was no memory for looking at a table: for a page, for a copy
/// of a key, or for the set of its overflow pages.
pub open spec fn starved(store: &PageStore, table: &TableInner, e: Error) -> bool {
    ||| store.denied(e)
    ||| exists|t: Tree| table.has_tree(t) && #[trigger] t.key_denied(e)
    ||| table.spec_secondaries().len() > 0 && store.lacks(
        refs::bits_cost(store.file().section.count),
        e,
    )
}

/// Checks a table and its indexes. Returns whether to go on.
fn verify_table(
    table: &Table,
    store: &Arc<PageStore>,
    reporter: &mut Reporter,
) -> (r: Result<bool, Error>)
    requires
        old(reporter).paid(),
        old(reporter).spec_store() == *store,
        table.spec_inner().on(*store),
        forall|t: Tree| #[trigger]
            table.spec_inner().has_tree(t) ==> old(reporter).spec_trees().contains(t),
    ensures
        Reporter::grew(old(reporter), final(reporter)),
        r matches Ok(go) ==> {
            let inner = &*table.spec_inner();
            &&& go ==> !final(reporter).is_full()
            &&& !go ==> final(reporter).spec_failure() is Some
                || final(reporter).spec_report().truncated
            &&& Reporter::quiet(old(reporter), final(reporter)) ==> go && table_sound(inner)
            &&& table_intact(*store, inner) && !old(reporter).is_full() && !old(reporter).spec_report().truncated ==> {
                &&& indexes::held_up(final(reporter)) || Reporter::calm(
                    old(reporter),
                    final(reporter),
                )
                &&& go || indexes::held_up(final(reporter))
                &&& go ==> work_counted(
                    old(reporter),
                    final(reporter),
                    1 + inner.spec_secondaries().len() as int,
                    rows_in(&*inner.spec_primary()) + index_entries(
                        inner.spec_secondaries(),
                        inner.spec_secondaries().len() as int,
                    ),
                )
            }
        },
        r matches Err(e) ==> e.is_refusal() && starved(store, &*table.spec_inner(), e),
{
    let ghost r0 = *reporter;
    let ghost inner = &*table.spec_inner();
    let ghost t = &*inner.spec_primary();
    let ghost pages = t.spec_store().pages();
    let ghost intact = table_intact(*store, inner) && !r0.is_full()
        && !r0.spec_report().truncated;
    proof {
        Reporter::lemma_same(reporter);
    }
    let n = table.index_count();
    // Only a table with an index needs its overflow pages remembered, and the bits are one
    // per page of the file: a table without one should not have to find room for them.
    let mut overflow: Option<OverflowPages> = None;
    if n > 0 {
        match OverflowPages::new(store, Ghost(*t)) {
            Ok(set) => {
                overflow = Some(set);
            },
            Err(e) => return Err(e),
        }
    }
    proof {
        assert(inner.has_tree(*t));
    }
    let ghost none = overflow;
    let mut label = "table `".to_owned();
    let short = short_name(table.name());
    label.append(short.as_str());
    label.append("` primary key");
    let ghost held = if intact && t.spec_root() is Some {
        Some(indexes::shape_of(t))
    } else {
        None
    };
    proof {
        if held is Some {
            let (s, layout) = indexes::shape_of(t);
            leaves::lemma_values_held(t, s, layout, None);
        }
    }
    let walked = verify_tree(
        table.tree(),
        None,
        &mut overflow,
        label,
        reporter,
        Ghost(None),
        Ghost(held),
    );
    let ghost l = match walked {
        Ok(l) => l@,
        Err(_) => Seq::empty(),
    };
    let ghost r1 = *reporter;
    match walked {
        Ok(_) => {},
        Err(e) => return Err(e),
    }
    if !keep_going(reporter) {
        proof {
            Reporter::lemma_quiet(&r0, &r1, reporter);
        }
        return Ok(false);
    }
    proof {
        reveal(leaves::gathered);
        Reporter::lemma_same(reporter);
        if intact {
            assert(Reporter::quiet(&r0, &r1));
            if t.spec_root() is None {
                assert(l =~= Seq::<PageOrdinal>::empty());
            }
        }
    }
    let mut i: usize = 0;
    while i < n
        invariant
            r0 == *old(reporter),
            inner == &*table.spec_inner(),
            t == &*inner.spec_primary(),
            pages == t.spec_store().pages(),
            intact == (table_intact(*store, inner) && !r0.is_full()
                && !r0.spec_report().truncated),
            n == inner.spec_secondaries().len(),
            i <= n,
            n > 0 ==> overflow is Some && overflow->Some_0.home() == *t,
            0 <= index_entries(inner.spec_secondaries(), i as int),
            Reporter::grew(&r0, reporter),
            reporter.spec_store() == *store,
            inner.on(*store),
            forall|t: Tree| #[trigger] inner.has_tree(t) ==> reporter.spec_trees().contains(t),
            !reporter.is_full(),
            Reporter::quiet(&r0, reporter) ==> part_sound(inner, l, i as int) && (n > 0
                ==> remembers(&overflow->Some_0, pages, l)),
            intact ==> Reporter::calm(&r0, reporter),
            intact ==> {
                &&& n > 0 ==> indexes::collected(
                    &overflow->Some_0,
                    pages,
                    t.spec_store().file().section.count,
                    indexes::leaves_of(t),
                )
                &&& work_counted(
                    &r0,
                    reporter,
                    1 + i,
                    rows_in(t) + index_entries(inner.spec_secondaries(), i as int),
                )
            },
        decreases n - i,
    {
        let ghost r2 = *reporter;
        let index = table.index_at(i);
        proof {
            assert(inner.spec_secondaries()[i as int] == index.spec_inner());
            assert(inner.has_tree(*t));
            assert(inner.has_tree(*index.spec_tree()));
        }
        let checked = verify_index(
            table.tree(),
            table.name(),
            &index,
            &mut overflow,
            reporter,
            Ghost(intact),
        );
        let ghost r3 = *reporter;
        proof {
            Reporter::lemma_quiet(&r0, &r2, &r3);
            assert(index_entries(inner.spec_secondaries(), i + 1) == index_entries(
                inner.spec_secondaries(),
                i as int,
            ) + 2 * rows_in(&*index.spec_tree()));
            if intact {
                let x = indexes::shape_of(&*index.spec_tree());
                assert(index.spec_tree().holds(x.0, x.1));
            }
        }
        match checked {
            Ok(_) => {},
            Err(e) => return Err(e),
        }
        if !keep_going(reporter) {
            proof {
                Reporter::lemma_quiet(&r0, &r3, reporter);
            }
            return Ok(false);
        }
        i += 1;
    }
    proof {
        if Reporter::quiet(&r0, reporter) {
            assert(part_sound(inner, l, n as int));
        }
    }
    Ok(true)
}

/// How many trees the first tables have.
pub open spec fn trees_in(tables: Seq<Arc<TableInner>>, n: int) -> int
    decreases n,
{
    if n <= 0 {
        0
    } else {
        trees_in(tables, n - 1) + 1 + tables[n - 1].spec_secondaries().len()
    }
}

/// How many entries a pass over the first tables counts.
pub open spec fn entries_in(tables: Seq<Arc<TableInner>>, n: int) -> int
    decreases n,
{
    if n <= 0 {
        0
    } else {
        let table = tables[n - 1];
        entries_in(tables, n - 1) + rows_in(&*table.spec_primary()) + index_entries(
            table.spec_secondaries(),
            table.spec_secondaries().len() as int,
        )
    }
}

/// Nothing is counted backwards.
proof fn lemma_index_entries(indexes: Seq<Arc<IndexInner>>, n: int)
    ensures
        0 <= index_entries(indexes, n),
    decreases n,
{
    if n > 0 {
        lemma_index_entries(indexes, n - 1);
    }
}

impl Database {
    /// Whether every page of the file is there.
    pub open spec fn pages_whole(&self) -> bool {
        forall|o: u64|
            o < self.spec_store().file().section.count ==> #[trigger] page_there(
                &*self.spec_store(),
                o,
            )
    }

    /// Whether a tree is that of a table or of an index of the file.
    pub open spec fn has_tree(&self, t: Tree) -> bool {
        exists|i: int|
            0 <= i < self.spec_tables().len() && (#[trigger] self.spec_tables()[i]).has_tree(t)
    }

    /// Whether an error is one that keeps a pass from looking at the file: a page could not be
    /// read, or there was no memory for a copy of a key or for the set of the overflow pages of a
    /// table.
    pub open spec fn unverified(&self, e: Error) -> bool {
        &&& e.is_resource()
        &&& {
            ||| self.spec_store().read_failed(e)
            ||| exists|t: Tree| self.has_tree(t) && #[trigger] t.key_denied(e)
            ||| self.spec_store().lacks(
                refs::bits_cost(self.spec_store().file().section.count),
                e,
            )
        }
    }

    proof fn lemma_starved(&self, i: int, e: Error)
        requires
            0 <= i < self.spec_tables().len(),
            e.is_refusal(),
            starved(&*self.spec_store(), &*self.spec_tables()[i], e),
        ensures
            self.unverified(e),
    {
        let table = self.spec_tables()[i];
        if self.spec_store().denied(e) {
            let o = choose|o: PageOrdinal| #[trigger] self.spec_store().denied_at(o, e);
            assert(self.spec_store().failure(o, e, self.spec_store().pages().contains_key(o)));
        } else if exists|t: Tree| table.has_tree(t) && #[trigger] t.key_denied(e) {
            let t = choose|t: Tree| table.has_tree(t) && #[trigger] t.key_denied(e);
            assert(self.has_tree(t) && t.key_denied(e));
        }
    }

    /// Whether every table of the file was found sound.
    pub open spec fn trees_sound(&self) -> bool {
        forall|i: int|
            0 <= i < self.spec_tables().len() ==> table_sound(&*#[trigger] self.spec_tables()[i])
    }

    /// Whether every table of the file is one that a pass finds nothing wrong with.
    pub open spec fn tables_intact(&self) -> bool {
        forall|i: int|
            0 <= i < self.spec_tables().len() ==> table_intact(
                self.spec_store(),
                &*#[trigger] self.spec_tables()[i],
            )
    }

    /// Whether the file is one that a pass finds nothing wrong with.
    pub open spec fn intact(&self, options: VerifyOptions) -> bool {
        &&& self.spec_store().steady()
        &&& options.check_pages ==> self.pages_whole()
        &&& options.check_trees ==> self.tables_intact()
    }

    /// Whether a problem of a report is damage, whatever the source: it names a damaged page, or
    /// the tables were walked and are not intact. After a problem that there was no memory for,
    /// that is said of the problems with pages only.
    pub open spec fn damage(&self, options: VerifyOptions, problem: VerifyProblem) -> bool {
        ||| names_missing(&*self.spec_store(), problem)
        ||| options.check_trees && (!self.tables_intact() || self.spec_store().lacked(
            report::PROBLEM_COST,
        ))
    }

    /// What a pass over an intact file reports.
    pub open spec fn clean_report(&self, options: VerifyOptions, report: VerifyReport) -> bool {
        let tables = self.spec_tables();
        let n = tables.len() as int;
        &&& report.clean()
        &&& report.pages_checked == (if options.check_pages {
            self.spec_store().file().section.count
        } else {
            0
        })
        &&& report.trees_checked == (if options.check_trees {
            budget::capped(trees_in(tables, n))
        } else {
            0
        })
        &&& report.entries_checked == (if options.check_trees {
            budget::capped(entries_in(tables, n))
        } else {
            0
        })
    }

    /// Reads the whole file and reports what is wrong with it.
    ///
    /// Corruption found inside the file is reported, not returned as an error: an error
    /// means the pass itself could not run.
    ///
    /// Turning both passes off is refused rather than answered with an empty report: a
    /// report that nothing is wrong, from a pass that looked at nothing, reads as a
    /// clean file.
    ///
    /// The report is memory the caller holds, so it comes back with the reservation
    /// that paid for it. Dropping it gives the budget its bytes back.
    pub fn verify(&self, options: VerifyOptions) -> (r: Result<Charged<VerifyReport>, Error>)
        ensures
            !options.check_pages && !options.check_trees <==> (r matches Err(e) && e.kind()
                == ErrorKind::InvalidArgument),
            r matches Ok(report) ==> {
                &&& report.spec_value().problems@.len() <= options.max_problems
                &&& report.spec_value().truncated ==> report.spec_value().problems@.len()
                    == options.max_problems || self.spec_store().lacked(report::PROBLEM_COST)
                &&& report.spec_value().clean() && options.check_pages ==> self.pages_whole()
                &&& report.spec_value().clean() && options.check_trees ==> self.trees_sound()
                &&& forall|k: int|
                    0 <= k < report.spec_value().problems@.len() ==> self.damage(
                        options,
                        #[trigger] report.spec_value().problems@[k],
                    )
                &&& report.spec_charged() == report::problems_cost(
                    report.spec_value().problems@.len(),
                )
                &&& report.owner() == self.spec_store().spec_budget()
            },
            r matches Err(e) ==> e.kind() == ErrorKind::InvalidArgument || self.unverified(e),
            (options.check_pages || options.check_trees) && options.max_problems > 0
                && self.intact(options) ==> match r {
                Ok(report) => self.clean_report(options, report.spec_value()),
                Err(e) => self.spec_store().excused(e),
            },
    {
        if !options.check_pages && !options.check_trees {
            return Err(
                Error::new(
                    ErrorKind::InvalidArgument,
                    "verification with both the page sweep and the tree walk turned off would check nothing; leave one of them on",
                ),
            );
        }
        let store = self.store();
        let mut reporter = match Reporter::new(
            options.max_problems,
            store,
            Ghost(Set::new(|t: Tree| self.has_tree(t))),
        ) {
            Ok(reporter) => reporter,
            Err(e) => return Err(e),
        };
        let ghost r0 = reporter;
        let ghost intact = self.intact(options) && options.max_problems > 0;
        proof {
            Reporter::lemma_same(&reporter);
        }
        if options.check_pages {
            let truncated = sweep_pages(store, &mut reporter);
            if truncated {
                reporter.truncate();
                return reporter.finish();
            }
            if reporter.stopped() {
                return reporter.finish();
            }
        }
        let ghost swept = reporter;
        proof {
            if swept.spec_report().problems@.len() == 0 {
                assert(swept.spec_report().problems@ =~= r0.spec_report().problems@);
            }
            if swept.spec_report().clean() && options.check_pages && options.max_problems > 0 {
                assert(Reporter::quiet(&r0, &swept));
            }
            assert(swept.spec_report().clean() && options.check_pages ==> self.pages_whole());
            assert(forall|k: int|
                0 <= k < swept.spec_report().problems@.len() ==> self.damage(
                    options,
                    #[trigger] swept.spec_report().problems@[k],
                ));
            assert(intact ==> Reporter::calm(&r0, &swept) && !swept.is_full()
                && swept.spec_report().clean());
            assert(intact ==> swept.spec_report().pages_checked == (if options.check_pages {
                self.spec_store().file().section.count
            } else {
                0
            }));
        }
        if options.check_trees {
            let n = self.table_count();
            let mut i: usize = 0;
            proof {
                Reporter::lemma_same(&reporter);
            }
            while i < n
                invariant
                    n == self.spec_tables().len(),
                    i <= n,
                    *store == self.spec_store(),
                    reporter.spec_store() == *store,
                    reporter.spec_trees() == Set::new(|t: Tree| self.has_tree(t)),
                    options.check_trees,
                    Reporter::grew(&r0, &swept),
                    Reporter::grew(&swept, &reporter),
                    r0.spec_report().problems@.len() == 0,
                    reporter.spec_failure() is None,
                    r0.spec_max() == options.max_problems,
                    options.max_problems == 0 ==> i == 0,
                    Reporter::quiet(&swept, &reporter) ==> forall|j: int|
                        0 <= j < i ==> table_sound(&*#[trigger] self.spec_tables()[j]),
                    r0.spec_max() >= r0.spec_report().problems@.len(),
                    i > 0 ==> !reporter.is_full(),
                    i == 0 ==> reporter == swept,
                    forall|k: int|
                        0 <= k < swept.spec_report().problems@.len() ==> self.damage(
                            options,
                            #[trigger] swept.spec_report().problems@[k],
                        ),
                    self.tables_intact() && !store.lacked(report::PROBLEM_COST)
                        ==> reporter.spec_report().problems@ == swept.spec_report().problems@,
                    intact == (self.intact(options) && options.max_problems > 0),
                    intact ==> {
                        &&& Reporter::calm(&r0, &swept)
                        &&& Reporter::calm(&swept, &reporter)
                        &&& !reporter.is_full()
                        &&& !r0.spec_report().truncated
                        &&& work_counted(
                            &swept,
                            &reporter,
                            trees_in(self.spec_tables(), i as int),
                            entries_in(self.spec_tables(), i as int),
                        )
                    },
                    0 <= trees_in(self.spec_tables(), i as int),
                    0 <= entries_in(self.spec_tables(), i as int),
                decreases n - i,
            {
                let ghost r1 = reporter;
                let table = self.table_at(i);
                proof {
                    assert(self.spec_tables()[i as int] == table.spec_inner());
                    lemma_index_entries(
                        table.spec_inner().spec_secondaries(),
                        table.spec_inner().spec_secondaries().len() as int,
                    );
                }
                let checked = verify_table(&table, store, &mut reporter);
                proof {
                    Reporter::lemma_quiet(&swept, &r1, &reporter);
                    let (a, b) = (r1.spec_report().problems@, reporter.spec_report().problems@);
                    r1.lemma_cut_short();
                    if r1.is_full() {
                        assert(a.len() == b.len());
                        assert(b.subrange(0, a.len() as int) =~= b);
                    }
                }
                match checked {
                    Ok(true) => {},
                    Ok(false) => return reporter.finish(),
                    Err(e) => {
                        proof {
                            self.lemma_starved(i as int, e);
                        }
                        return Err(e);
                    },
                }
                i += 1;
            }
            proof {
                Reporter::lemma_quiet(&r0, &swept, &reporter);
                let (a, b) = (swept.spec_report().problems@, reporter.spec_report().problems@);
                if b.len() == 0 {
                    assert(a =~= b);
                }
                if reporter.spec_report().clean() && options.max_problems > 0 {
                    assert(Reporter::quiet(&swept, &reporter));
                }
                assert(reporter.spec_report().clean() ==> swept.spec_report().clean());
            }
        }
        reporter.finish()
    }
}

/// What a clean report counts: every slot of the page directory, every tree of every table, and each
/// row once in the table's own tree and twice in each index, whose references are followed too. What
/// was not to be checked is not counted.
pub proof fn lemma_clean_counts(db: &Database, options: VerifyOptions, report: VerifyReport, n: int)
    requires
        db.clean_report(options, report),
        0 <= n < db.spec_tables().len(),
    ensures
        report.problems@.len() == 0 && !report.truncated,
        options.check_pages ==> report.pages_checked == db.spec_store().file().section.count,
        !options.check_pages ==> report.pages_checked == 0,
        !options.check_trees ==> report.trees_checked == 0 && report.entries_checked == 0,
        ({
            let tables = db.spec_tables();
            let all = tables.len() as int;
            let here = tables[n].spec_secondaries();
            &&& options.check_trees && trees_in(tables, all) <= u64::MAX ==> report.trees_checked
                == trees_in(tables, all)
            &&& options.check_trees && entries_in(tables, all) <= u64::MAX
                ==> report.entries_checked == entries_in(tables, all)
            &&& trees_in(tables, 0) == 0 && entries_in(tables, 0) == 0
            &&& trees_in(tables, n + 1) - trees_in(tables, n) == 1 + here.len()
            &&& here.len() == 0 ==> entries_in(tables, n + 1) - entries_in(tables, n) == rows_in(
                &*tables[n].spec_primary(),
            )
            &&& here.len() == 1 ==> entries_in(tables, n + 1) - entries_in(tables, n) == rows_in(
                &*tables[n].spec_primary(),
            ) + rows_in(&*here[0].spec_tree()) + rows_in(&*here[0].spec_tree())
        }),
{
    let tables = db.spec_tables();
    let here = tables[n].spec_secondaries();
    assert(trees_in(tables, n + 1) == trees_in(tables, n) + 1 + here.len());
    assert(entries_in(tables, n + 1) == entries_in(tables, n) + rows_in(
        &*tables[n].spec_primary(),
    ) + index_entries(here, here.len() as int));
    assert(index_entries(here, 0) == 0);
    if here.len() == 1 {
        lemma_index_counts(here, 0);
    }
    lemma_counts_grow(tables, tables.len() as int);
}

/// What is counted is never less than nothing.
proof fn lemma_counts_grow(tables: Seq<Arc<TableInner>>, n: int)
    ensures
        trees_in(tables, n) >= 0,
        entries_in(tables, n) >= 0,
    decreases n,
{
    if n > 0 {
        lemma_counts_grow(tables, n - 1);
        let here = tables[n - 1].spec_secondaries();
        lemma_indexes_grow(here, here.len() as int);
    }
}

/// What is counted in indexes is never less than nothing.
proof fn lemma_indexes_grow(indexes: Seq<Arc<IndexInner>>, n: int)
    ensures
        index_entries(indexes, n) >= 0,
    decreases n,
{
    if n > 0 {
        lemma_indexes_grow(indexes, n - 1);
    }
}

/// What is counted in an index comes on top of what is counted in those before it.
pub proof fn lemma_index_counts(indexes: Seq<Arc<IndexInner>>, n: int)
    requires
        0 <= n < indexes.len(),
    ensures
        index_entries(indexes, n + 1) - index_entries(indexes, n) == rows_in(
            &*indexes[n].spec_tree(),
        ) + rows_in(&*indexes[n].spec_tree()),
        indexes[n].spec_tree().spec_root() is None ==> index_entries(indexes, n + 1)
            == index_entries(indexes, n),
{
}

} // verus!
