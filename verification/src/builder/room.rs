//! Whether rows have room: on the pages of their trees, and in a file.

use vstd::prelude::*;

use super::pace;
use super::plan::PagePlan;
use super::sink::{self, PageSink};
use super::scratch::Scratch;
use super::target::BuildTarget;
use super::tree;
use crate::encoding::duplicate::RID_LEN;
use crate::encoding::SharedEncoding;
use crate::error::{Error, ErrorKind};
use crate::format::node::NodeLayout;
use crate::format::PAGE_PREFIX_LEN;
use crate::model::Row;

verus! {

/// The most pages that a tree of `n` rows takes.
pub open spec fn tree_pages(n: int) -> int {
    tree::PUSH_PAGES * n + tree::FINISH_PAGES
}

/// Whether a tree cannot hold a row with a key and a value of these lengths.
pub open spec fn row_unfit(
    page_size: int,
    layout: NodeLayout,
    key_len: int,
    value_len: int,
) -> bool {
    ||| key_len > 0xFFFF
    ||| PAGE_PREFIX_LEN + value_len > 0x7FFF_FFFF
    ||| !tree::key_fits(page_size, layout, key_len)
}

/// What the keys of a tree are longer by than those of its rows: a record id, where a key can
/// be there more than once.
pub open spec fn key_extra(unique: bool) -> int {
    if unique {
        0
    } else {
        RID_LEN as int
    }
}

/// Whether a tree cannot hold some of the rows.
pub open spec fn rows_unfit(p: PagePlan, e: SharedEncoding, unique: bool, rows: Seq<Row>) -> bool {
    exists|i: int|
        0 <= i < rows.len() && row_unfit(
            p.page_size,
            tree::layout_for(p.page_size, p.eytzinger, e, unique),
            (#[trigger] rows[i]).key.len() + key_extra(unique),
            rows[i].value.len() as int,
        )
}

/// Whether a tree cannot hold some of the rows, or may not fit behind the pages there are.
pub open spec fn cramped<T: BuildTarget, D: Scratch>(
    sink: &PageSink<T, D>,
    p: PagePlan,
    e: SharedEncoding,
    unique: bool,
    rows: Seq<Row>,
) -> bool {
    rows_unfit(p, e, unique, rows) || sink.crowded(tree_pages(rows.len() as int))
}

/// Why writing rows can fail: the file cannot be written, or the rows are too large or too
/// many.
pub open spec fn write_failure(dependable: bool, cramped: bool, e: Error) -> bool {
    ||| e.kind() == ErrorKind::Io && !dependable
    ||| (e.kind() == ErrorKind::ValueTooLarge || e.is_corrupt()) && cramped
}

/// Rows that are too many to sort are too many for a tree.
pub proof fn lemma_overfull(p: PagePlan, e: SharedEncoding, unique: bool, rows: Seq<Row>)
    requires
        pace::overfull(rows),
    ensures
        rows_unfit(p, e, unique, rows) || tree_pages(rows.len() as int) > 0x7FFF_FFFF,
{
    if !rows_unfit(p, e, unique, rows) {
        let cap: int = 0x8002_0000;
        assert(pace::rows_within(rows, cap)) by {
            assert forall|i: int| 0 <= i < rows.len() implies super::run::RECORD_HEADER_LEN + (
            #[trigger] rows[i]).key.len() + rows[i].value.len() <= cap by {
                assert(!row_unfit(
                    p.page_size,
                    tree::layout_for(p.page_size, p.eytzinger, e, unique),
                    rows[i].key.len() + key_extra(unique),
                    rows[i].value.len() as int,
                ));
            }
        }
        assert(0 + pace::SORT_PASSES * rows.len() * cap > u64::MAX);
    }
}

} // verus!
