//! What a finished file is.

use vstd::prelude::*;

use super::describe;
use super::level;
use super::plan::{self, PagePlan, TablePlan};
use super::sink;
use crate::filter::SharedFilter;
use crate::format::catalog::{self, CatalogModel, Outcome, TableModel};
use crate::format::header::{self, Header, HeaderParse};
use crate::format::DIRECTORY_SLOT_LEN;

verus! {

/// What a build was asked for.
pub struct Plan {
    pub page_size: int,
    pub eytzinger: bool,
    pub filter: Option<SharedFilter>,
    pub sort_buffer: int,
    pub tables: Seq<TablePlan>,
}

impl Plan {
    /// How pages are laid out.
    pub open spec fn paging(self) -> PagePlan {
        PagePlan { page_size: self.page_size, eytzinger: self.eytzinger }
    }
}

/// The parts of a finished file: the descriptors, which end at `end`, the pages as they were
/// before any filter, where each of them is, and where the page directory is.
pub struct Image {
    pub tables: Seq<TableModel>,
    pub end: int,
    pub pages: Seq<Seq<u8>>,
    pub offsets: Seq<u64>,
    pub position: int,
}

impl Image {
    /// Whether page `o` is where the directory says, after the descriptors and before what
    /// follows it.
    pub open spec fn page_stored(self, filter: Option<SharedFilter>, file: Seq<u8>, o: int) -> bool {
        let at = self.offsets[o] as int;
        &&& level::page_sound(self.pages[o])
        &&& self.end <= at
        &&& sink::stored_at(filter, file, at, self.pages[o])
        &&& at + sink::stored_len(filter, file, at, self.pages[o]) <= (if o + 1
            < self.offsets.len() {
            self.offsets[o + 1] as int
        } else {
            self.position
        })
    }

    /// The header of the file.
    pub open spec fn header(self, p: Plan) -> Header {
        describe::header_for(
            p.page_size,
            describe::filter_count(p.filter) as int,
            p.tables.len() as int,
            self.pages.len() as int,
            self.position,
        )
    }

    /// Whether these are the parts of a file built to a plan.
    pub open spec fn of(self, p: Plan, file: Seq<u8>) -> bool {
        &&& header::header_at(file) == HeaderParse::Valid(self.header(p))
        &&& self.tables.len() == p.tables.len()
        &&& p.tables.len() <= u16::MAX
        &&& catalog::catalog_at(file, describe::filter_count(p.filter), p.tables.len()) == (
        Outcome::Done {
            value: CatalogModel {
                filters: describe::filter_names(p.filter),
                tables: self.tables,
                end: self.end,
            },
            at: self.end,
        })
        &&& 0 <= self.end <= self.position < 0x8000_0000_0000_0000
        &&& self.offsets.len() == self.pages.len()
        &&& self.pages.len() <= 0x7FFF_FFFF
        &&& file.len() == self.position + DIRECTORY_SLOT_LEN * self.pages.len()
        &&& file.subrange(self.position, file.len() as int) == sink::directory_bytes(self.offsets)
        &&& forall|o: int|
            0 <= o < self.pages.len() ==> #[trigger] self.page_stored(p.filter, file, o)
        &&& forall|i: int|
            0 <= i < p.tables.len() ==> #[trigger] plan::table_built(
                p.paging(),
                p.tables[i],
                self.tables[i],
                self.pages,
            )
    }
}

/// Whether a file of this many pages was built to a plan.
pub open spec fn built_pages(p: Plan, file: Seq<u8>, n: int) -> bool {
    exists|im: Image| #[trigger] im.of(p, file) && im.pages.len() == n
}

/// Whether a file was built to a plan.
pub open spec fn built(p: Plan, file: Seq<u8>) -> bool {
    exists|im: Image| #[trigger] im.of(p, file)
}

} // verus!
