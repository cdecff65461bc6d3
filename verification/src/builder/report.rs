//! What a build produced.

use vstd::prelude::*;

use super::plan::TablePlan;

verus! {

/// What a build produced.
#[derive(Debug, Clone, PartialEq, Eq)]
pub struct BuildReport {
    /// Pages written, i.e. page directory slots.
    pub page_count: u64,
    /// Size of the finished file.
    pub file_size: u64,
    /// Per-table detail.
    pub tables: Vec<TableReport>,
}

/// Per-table build detail.
#[derive(Debug, Clone, PartialEq, Eq)]
pub struct TableReport {
    /// Table name.
    pub name: String,
    /// Rows written.
    pub rows: u64,
    /// Secondary indexes built.
    pub indexes: Vec<IndexReport>,
}

/// Per-index build detail.
#[derive(Debug, Clone, PartialEq, Eq)]
pub struct IndexReport {
    /// Index name.
    pub name: String,
    /// Index entries written.
    pub entries: u64,
}

/// Whether index reports are those of a table's first indexes: every row has an entry in
/// every index.
pub open spec fn indexes_reported(l: Seq<IndexReport>, t: TablePlan) -> bool {
    &&& l.len() <= t.indexes.len()
    &&& forall|j: int|
        0 <= j < l.len() ==> (#[trigger] l[j]).name@ == t.indexes[j].name && l[j].entries
            == t.rows.len()
}

/// Whether a report is that of a table.
pub open spec fn reported(r: TableReport, t: TablePlan) -> bool {
    &&& r.name@ == t.name
    &&& r.rows == t.rows.len()
    &&& r.indexes@.len() == t.indexes.len()
    &&& indexes_reported(r.indexes@, t)
}

/// What is reported of a table: each of its rows, and as many entries in each of its indexes.
pub proof fn lemma_reported(r: TableReport, t: TablePlan, j: int)
    requires
        reported(r, t),
    ensures
        r.name@ == t.name,
        r.rows == t.rows.len(),
        r.indexes@.len() == t.indexes.len(),
        0 <= j < t.indexes.len() ==> r.indexes@[j].name@ == t.indexes[j].name
            && r.indexes@[j].entries == r.rows,
{
}

} // verus!
