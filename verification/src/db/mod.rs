//! Opening a database, and the table API.

use std::sync::Arc;

use vstd::prelude::*;
use vstd::string::*;

pub mod answers;
pub mod built;
pub mod kinds;
pub mod laws;
pub mod open;
pub mod opening;
pub mod table;
pub mod values;

pub use self::open::{
    OpenOptions, DEFAULT_DIRECTORY_CHUNKS, DEFAULT_DIRECTORY_CHUNK_ENTRIES, DEFAULT_MEMORY_BUDGET,
};
pub use self::table::{CachedLookup, Table, TableInner};

use self::table::names_cost;
use crate::budget::{self, Budget, Charge, Charged, Ledger, Reserve};
use crate::error::{Error, ErrorKind};
use crate::format::catalog::{self, describe_name, Catalog};
use crate::metrics::{MemoryReport, Metrics, MetricsSnapshot};
use crate::store::PageStore;

verus! {

/// An open, read-only database.
///
/// Cheap to share: [`Table`] and [`Index`](crate::index::Index) handles are counted
/// references into the same page cache, and every query path is `&self`. Dropping the
/// `Database` does not invalidate a [`ValueGuard`](crate::page::ValueGuard) that is still
/// alive.
pub struct Database {
    catalog: Arc<Catalog>,
    store: Arc<PageStore>,
    tables: Vec<Arc<TableInner>>,
    budget: Arc<Budget>,
    metrics: Arc<Metrics>,
    /// The catalog's own memory.
    ///
    /// Shared with every table and index handle, because those keep copies of the
    /// descriptors and outlive the `Database` they came from. The reservation is released
    /// when the last of them is dropped.
    catalog_charge: Arc<Charge>,
}

impl Database {
    /// The decoded catalog.
    pub closed spec fn spec_catalog(&self) -> Catalog {
        *self.catalog
    }

    /// The pages.
    pub closed spec fn spec_store(&self) -> Arc<PageStore> {
        self.store
    }

    /// What the catalog and the table handles cost.
    pub closed spec fn spec_charge(&self) -> Arc<Charge> {
        self.catalog_charge
    }

    /// The table handles, in file order.
    pub closed spec fn spec_tables(&self) -> Seq<Arc<TableInner>> {
        self.tables@
    }

    #[verifier::type_invariant]
    spec fn matched(&self) -> bool {
        &&& self.tables@.len() == self.catalog.tables@.len()
        &&& self.store.spec_budget() == self.budget
        &&& forall|i: int|
            0 <= i < self.tables@.len() ==> (#[trigger] self.tables@[i]).on(self.store)
    }

    /// Opens an in-memory image with default options.
    pub fn open_bytes(bytes: Vec<u8>) -> (r: Result<Database, Error>)
        ensures
            exists|o: open::Opening| #[trigger]
                open::defaults(o) && match r {
                    Ok(db) => open::verdict(bytes@, o) is None && open::opened(
                        &db,
                        db.spec_store().spec_source(),
                        o,
                    ) && db.spec_store().spec_source().inner.image() == bytes@
                        && db.spec_store().spec_source().inner.dependable(),
                    Err(e) => open::refusal(bytes@, true, o, e),
                },
    {
        let options = OpenOptions::new();
        let r = options.open_bytes(bytes);
        proof {
            assert(open::defaults(options@));
        }
        r
    }

    /// The decoded catalog.
    pub fn catalog(&self) -> (r: &Catalog)
        ensures
            *r == self.spec_catalog(),
    {
        &*self.catalog
    }

    /// Table names, in file order.
    ///
    /// The list is the caller's memory, so it is reserved before it is built and comes back
    /// with the reservation that paid for it. The names themselves are borrowed from the
    /// catalog, which is charged already.
    pub fn table_names(&self) -> (r: Result<Charged<Vec<&str>>, Error>)
        ensures
            match r {
                Ok(names) => {
                    &&& names.spec_value()@.len() == self.spec_catalog().tables@.len()
                    &&& forall|i: int|
                        0 <= i < names.spec_value()@.len() ==> (
                        #[trigger] names.spec_value()@[i])@
                            == self.spec_catalog().tables@[i].name@
                    &&& names.spec_charged() == table::names_price(
                        self.spec_catalog().tables@.len() as int,
                    )
                    &&& names.owner() == self.spec_store().spec_budget()
                },
                Err(e) => self.spec_store().lacks(
                    table::names_price(self.spec_catalog().tables@.len() as int),
                    e,
                ),
            },
    {
        let tables = &self.catalog.tables;
        let charge = match self.reserve(names_cost(tables.len())) {
            Ok(c) => c,
            Err(e) => return Err(e),
        };
        let mut names: Vec<&str> = Vec::new();
        let mut i: usize = 0;
        while i < tables.len()
            invariant
                i <= tables@.len(),
                names@.len() == i,
                forall|j: int| 0 <= j < i ==> (#[trigger] names@[j])@ == tables@[j].name@,
            decreases tables@.len() - i,
        {
            names.push(tables[i].name.as_str());
            i += 1;
        }
        Ok(Charged::new(names, charge))
    }

    /// Opens a table by name.
    pub fn table(&self, name: &str) -> (r: Result<Table, Error>)
        ensures
            match r {
                Ok(t) => exists|i: int|
                    0 <= i < self.spec_tables().len() && self.spec_catalog().tables@[i].name@
                        == name@ && (#[trigger] self.spec_tables()[i]) == t.spec_inner(),
                Err(e) => e.kind() == ErrorKind::InvalidArgument && forall|i: int|
                    0 <= i < self.spec_catalog().tables@.len() ==> (
                    #[trigger] self.spec_catalog().tables@[i]).name@ != name@,
            },
    {
        proof {
            use_type_invariant(self);
        }
        let wanted = name.to_owned();
        let tables = &self.catalog.tables;
        let mut i: usize = 0;
        while i < tables.len()
            invariant
                i <= tables@.len(),
                wanted@ == name@,
                tables@ == self.spec_catalog().tables@,
                self.tables@.len() == tables@.len(),
                self.tables@ == self.spec_tables(),
                forall|j: int| 0 <= j < i ==> (#[trigger] tables@[j]).name@ != name@,
            decreases tables@.len() - i,
        {
            if tables[i].name == wanted {
                let found = Table::new(Arc::clone(&self.tables[i]));
                proof {
                    assert(self.spec_tables()[i as int] == found.spec_inner());
                }
                return Ok(found);
            }
            i += 1;
        }
        // The name is the caller's, of the caller's length, and rendering it whole would
        // spend more memory reporting the mistake than the lookup that failed ever asked
        // for.
        let mut message = "no table named `".to_owned();
        message.append(describe_name(name).as_str());
        message.append("`");
        Err(Error::from_text(ErrorKind::InvalidArgument, message))
    }

    /// Reserves `bytes` of the database's memory budget, reclaiming cached pages if it has
    /// to.
    ///
    /// For a caller that holds memory on this database's behalf, so that it is counted where
    /// everything else this crate allocates is counted. The reservation lasts as long as the
    /// returned [`Charge`].
    pub fn reserve(&self, bytes: u64) -> (r: Result<Charge, Error>)
        ensures
            self.spec_store().reserved(bytes, r),
    {
        self.store.reserve(bytes)
    }

    /// The counters of the page path.
    pub closed spec fn spec_metrics(&self) -> Arc<Metrics> {
        self.metrics
    }

    /// Page path counters since the database was opened.
    pub fn metrics(&self) -> (r: MetricsSnapshot)
        ensures
            self.spec_metrics().said(r),
    {
        self.metrics.snapshot()
    }

    /// What the managed memory budget currently holds.
    ///
    /// `charged` counts live page buffers, decompression scratch and page directory chunks.
    /// It does not count allocator overhead, values the caller copied out, the OS page cache,
    /// or pages a mapped source made resident.
    pub fn memory_report(&self) -> (r: MemoryReport)
        ensures
            r.budget_limit == self.spec_store().spec_budget().spec_limit(),
            r.charged <= r.budget_limit,
            r.peak_charged <= r.budget_limit,
            exists|l: Ledger|
                #![trigger self.spec_store().spec_budget().stood_at(l)]
                self.spec_store().spec_budget().stood_at(l) && r.charged == l.used,
            exists|l: Ledger|
                #![trigger self.spec_store().spec_budget().stood_at(l)]
                self.spec_store().spec_budget().stood_at(l) && r.peak_charged == l.peak,
            self.spec_store().spec_cache().weighed(r.cache_resident),
            r.cache_capacity == self.spec_store().spec_cache().spec_capacity(),
    {
        proof {
            use_type_invariant(self);
        }
        let charged = self.budget.in_use();
        let peak_charged = self.budget.peak();
        proof {
            let budget = self.spec_store().spec_budget();
            assert(self.budget == budget);
            let now = choose|l: Ledger| #[trigger] self.budget.stood_at(l) && charged == l.used;
            assert(budget.stood_at(now));
            let most = choose|l: Ledger| #[trigger] self.budget.stood_at(l) && peak_charged == l.peak;
            assert(budget.stood_at(most));
        }
        MemoryReport {
            budget_limit: self.budget.limit(),
            charged,
            peak_charged,
            cache_resident: self.store.cache().resident_bytes(),
            cache_capacity: self.store.cache().capacity(),
        }
    }

    /// The memory budget this database charges against.
    ///
    /// Shared, so an adapter that allocates on the caller's behalf can charge the same budget
    /// rather than a separate one: what the caller set is then the whole of what reading
    /// costs, however many layers are involved.
    pub fn budget(&self) -> (r: &Arc<Budget>)
        ensures
            *r == self.spec_store().spec_budget(),
    {
        proof {
            use_type_invariant(self);
        }
        &self.budget
    }

    /// Bytes currently charged to the budget.
    pub fn charged_bytes(&self) -> (r: u64)
        ensures
            r <= self.spec_store().spec_budget().spec_limit(),
            exists|l: Ledger|
                #![trigger self.spec_store().spec_budget().stood_at(l)]
                self.spec_store().spec_budget().stood_at(l) && r == l.used,
    {
        proof {
            use_type_invariant(self);
        }
        let charged = self.budget.in_use();
        proof {
            let budget = self.spec_store().spec_budget();
            assert(self.budget == budget);
            let now = choose|l: Ledger| #[trigger] self.budget.stood_at(l) && charged == l.used;
            assert(budget.stood_at(now));
        }
        charged
    }

    /// Pages currently held by the cache.
    pub fn cached_pages(&self) -> (r: usize)
        ensures
            self.spec_store().spec_cache().counted(r),
    {
        self.store.cache().len()
    }

    /// How many tables there are.
    pub(crate) fn table_count(&self) -> (r: usize)
        ensures
            r == self.spec_tables().len(),
    {
        self.tables.len()
    }

    /// A table by its place in the file.
    pub(crate) fn table_at(&self, i: usize) -> (r: Table)
        requires
            i < self.spec_tables().len(),
        ensures
            r.spec_inner() == self.spec_tables()[i as int],
            r.spec_inner().on(self.spec_store()),
    {
        proof {
            use_type_invariant(self);
            assert(self.tables@[i as int].on(self.store));
        }
        Table::new(Arc::clone(&self.tables[i]))
    }

    /// The pages.
    pub(crate) fn store(&self) -> (r: &Arc<PageStore>)
        ensures
            *r == self.spec_store(),
    {
        &self.store
    }
}

impl Reserve for Database {
    fn reserve(&self, bytes: u64) -> (r: Result<Charge, Error>)
        ensures
            self.spec_store().reserved(bytes, r),
    {
        Database::reserve(self, bytes)
    }
}

} // verus!
