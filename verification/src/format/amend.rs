//! Amending the descriptors of a file.
//!
//! A build writes the descriptors before the trees exist, with a placeholder for each root,
//! and fills the roots in as it goes. Filling one in changes that root in what the
//! descriptors say, and nothing else.

use vstd::prelude::*;

use super::bytes;
use super::catalog::{self, IndexModel, Outcome, TableModel};
use super::PageOrdinal;

verus! {

broadcast use super::group_format;

/// Whether two byte strings are the same from `a` to `b`.
pub open spec fn agree(s: Seq<u8>, t: Seq<u8>, a: int, b: int) -> bool {
    &&& b <= s.len()
    &&& b <= t.len()
    &&& forall|k: int| a <= k < b ==> #[trigger] t[k] == s[k]
}

/// A number in bytes that agree is the same.
proof fn lemma_numbers(s: Seq<u8>, t: Seq<u8>, pos: int, end: int)
    requires
        agree(s, t, pos, end),
        0 <= pos,
    ensures
        pos + 2 <= end ==> bytes::u16_at(s, pos) == bytes::u16_at(t, pos),
        pos + 4 <= end ==> bytes::i32_at(s, pos) == bytes::i32_at(t, pos),
        pos + 8 <= end ==> bytes::i64_at(s, pos) == bytes::i64_at(t, pos),
        pos < end ==> s[pos] == t[pos],
{
    if pos + 2 <= end {
        assert(s.subrange(pos, pos + 2) =~= t.subrange(pos, pos + 2));
        bytes::lemma_u16_moved(s, pos, t, pos);
    }
    if pos + 4 <= end {
        assert(s.subrange(pos, pos + 4) =~= t.subrange(pos, pos + 4));
        bytes::lemma_u32_moved(s, pos, t, pos);
    }
    if pos + 8 <= end {
        assert(s.subrange(pos, pos + 8) =~= t.subrange(pos, pos + 8));
        bytes::lemma_u64_moved(s, pos, t, pos);
    }
}

/// A text in bytes that agree is the same.
pub proof fn lemma_text_same(s: Seq<u8>, t: Seq<u8>, pos: int, len: int)
    requires
        catalog::text_at(s, pos, len) matches Outcome::Done { at, .. } && agree(s, t, pos, at),
        0 <= pos,
        0 <= len,
    ensures
        catalog::text_at(t, pos, len) == catalog::text_at(s, pos, len),
{
    assert(s.subrange(pos, pos + len) =~= t.subrange(pos, pos + len));
}

/// What an index descriptor is made of.
proof fn lemma_index_parts(s: Seq<u8>, pos: int) -> (r: (int, int))
    requires
        catalog::index_at(s, pos) is Done,
        0 <= pos,
    ensures
        pos + 4 <= s.len(),
        catalog::text_at(s, pos + 4, bytes::u16_at(s, pos)) is Done,
        catalog::text_at(s, pos + 4, bytes::u16_at(s, pos))->Done_at == r.0,
        catalog::text_at(s, r.0, bytes::u16_at(s, pos + 2)) is Done,
        catalog::text_at(s, r.0, bytes::u16_at(s, pos + 2))->Done_at == r.1,
        pos + 4 <= r.0 <= r.1,
        r.1 + 10 <= s.len(),
        catalog::index_at(s, pos)->Done_at == r.1 + 10,
        catalog::index_at(s, pos)->Done_value.root_field == r.1 + 2,
{
    let a = catalog::text_at(s, pos + 4, bytes::u16_at(s, pos))->Done_at;
    let b = catalog::text_at(s, a, bytes::u16_at(s, pos + 2))->Done_at;
    (a, b)
}

/// An index descriptor in bytes that agree is the same.
pub proof fn lemma_index_same(s: Seq<u8>, t: Seq<u8>, pos: int)
    requires
        catalog::index_at(s, pos) matches Outcome::Done { at, .. } && agree(s, t, pos, at),
        0 <= pos,
    ensures
        catalog::index_at(t, pos) == catalog::index_at(s, pos),
{
    let (a, b) = lemma_index_parts(s, pos);
    lemma_numbers(s, t, pos, b + 10);
    lemma_numbers(s, t, pos + 2, b + 10);
    lemma_text_same(s, t, pos + 4, bytes::u16_at(s, pos));
    lemma_text_same(s, t, a, bytes::u16_at(s, pos + 2));
    lemma_numbers(s, t, b, b + 10);
    lemma_numbers(s, t, b + 1, b + 10);
    lemma_numbers(s, t, b + 2, b + 10);
}

/// An index descriptor with its root filled in.
pub proof fn lemma_index_patched(s: Seq<u8>, t: Seq<u8>, pos: int, root: Option<PageOrdinal>)
    requires
        catalog::index_at(s, pos) matches Outcome::Done { at, .. } && agree(s, t, pos, at - 8)
            && at <= t.len() && super::ordinal_of(bytes::i64_at(t, at - 8)) == Some(root),
        0 <= pos,
    ensures
        catalog::index_at(t, pos) == (Outcome::Done {
            value: IndexModel { root, ..catalog::index_at(s, pos)->Done_value },
            at: catalog::index_at(s, pos)->Done_at,
        }),
{
    let (a, b) = lemma_index_parts(s, pos);
    lemma_numbers(s, t, pos, b + 2);
    lemma_numbers(s, t, pos + 2, b + 2);
    lemma_text_same(s, t, pos + 4, bytes::u16_at(s, pos));
    lemma_text_same(s, t, a, bytes::u16_at(s, pos + 2));
    lemma_numbers(s, t, b, b + 2);
    lemma_numbers(s, t, b + 1, b + 2);
}

/// Where the descriptors of a list are.
pub proof fn lemma_indexes_span(s: Seq<u8>, pos: int, n: nat, k: int)
    requires
        catalog::indexes_at(s, pos, n) is Done,
        0 <= pos,
    ensures
        catalog::indexes_at(s, pos, n)->Done_value.len() == n,
        pos <= catalog::indexes_at(s, pos, n)->Done_at,
        0 <= k < n ==> pos <= catalog::indexes_at(s, pos, n)->Done_value[k].root_field
            && catalog::indexes_at(s, pos, n)->Done_value[k].root_field + 8
            <= catalog::indexes_at(s, pos, n)->Done_at,
        n == 0 || catalog::indexes_at(s, pos, n)->Done_at <= s.len(),
    decreases n,
{
    if n > 0 {
        let m = (n - 1) as nat;
        lemma_indexes_span(s, pos, m, k);
        let at = catalog::indexes_at(s, pos, m)->Done_at;
        let parts = lemma_index_parts(s, at);
    }
}

/// Descriptors in bytes that agree are the same.
pub proof fn lemma_indexes_same(s: Seq<u8>, t: Seq<u8>, pos: int, n: nat)
    requires
        catalog::indexes_at(s, pos, n) matches Outcome::Done { at, .. } && agree(s, t, pos, at),
        0 <= pos,
    ensures
        catalog::indexes_at(t, pos, n) == catalog::indexes_at(s, pos, n),
    decreases n,
{
    if n > 0 {
        let m = (n - 1) as nat;
        let at = catalog::indexes_at(s, pos, m)->Done_at;
        lemma_indexes_span(s, pos, m, 0);
        let parts = lemma_index_parts(s, at);
        lemma_indexes_same(s, t, pos, m);
        lemma_index_same(s, t, at);
    }
}

/// Whether bytes agree but for the eight from `f` on, which are a root.
pub open spec fn filled(
    s: Seq<u8>,
    t: Seq<u8>,
    a: int,
    b: int,
    f: int,
    root: Option<PageOrdinal>,
) -> bool {
    &&& b <= s.len()
    &&& b <= t.len()
    &&& a <= f
    &&& f + 8 <= b
    &&& agree(s, t, a, f)
    &&& agree(s, t, f + 8, b)
    &&& super::ordinal_of(bytes::i64_at(t, f)) == Some(root)
}

/// A list of descriptors with one root filled in.
pub proof fn lemma_indexes_patched(
    s: Seq<u8>,
    t: Seq<u8>,
    pos: int,
    n: nat,
    k: int,
    root: Option<PageOrdinal>,
)
    requires
        catalog::indexes_at(s, pos, n) matches Outcome::Done { value, at } && filled(
            s,
            t,
            pos,
            at,
            value[k].root_field,
            root,
        ),
        0 <= pos,
        0 <= k < n,
    ensures
        catalog::indexes_at(t, pos, n) == (Outcome::Done {
            value: catalog::indexes_at(s, pos, n)->Done_value.update(
                k,
                IndexModel { root, ..catalog::indexes_at(s, pos, n)->Done_value[k] },
            ),
            at: catalog::indexes_at(s, pos, n)->Done_at,
        }),
    decreases n,
{
    let m = (n - 1) as nat;
    let before = catalog::indexes_at(s, pos, m)->Done_value;
    let mid = catalog::indexes_at(s, pos, m)->Done_at;
    let all = catalog::indexes_at(s, pos, n)->Done_value;
    lemma_indexes_span(s, pos, m, k);
    let parts = lemma_index_parts(s, mid);
    if k == m {
        lemma_indexes_same(s, t, pos, m);
        lemma_index_patched(s, t, mid, root);
        assert(all.update(k, IndexModel { root, ..all[k] }) =~= before.push(
            IndexModel { root, ..all[k] },
        ));
    } else {
        assert(all[k] == before[k]);
        lemma_indexes_patched(s, t, pos, m, k, root);
        lemma_index_same(s, t, mid);
        assert(all.update(k, IndexModel { root, ..all[k] }) =~= before.update(
            k,
            IndexModel { root, ..before[k] },
        ).push(all[m as int]));
    }
}

/// The descriptor of a table with one root filled in: that of its primary tree, or that of
/// one of its secondary indexes.
pub open spec fn with_root(m: TableModel, which: int, root: Option<PageOrdinal>) -> TableModel {
    if which == 0 {
        TableModel { primary: IndexModel { root, ..m.primary }, ..m }
    } else {
        TableModel {
            secondaries: m.secondaries.update(
                which - 1,
                IndexModel { root, ..m.secondaries[which - 1] },
            ),
            ..m
        }
    }
}

/// Where that root is.
pub open spec fn root_field_of(m: TableModel, which: int) -> int {
    if which == 0 {
        m.primary.root_field
    } else {
        m.secondaries[which - 1].root_field
    }
}

/// What a table descriptor is made of: where the primary descriptor starts and where the
/// number of secondary indexes is.
proof fn lemma_table_parts(s: Seq<u8>, pos: int) -> (r: (int, int))
    requires
        catalog::table_at(s, pos) is Done,
        0 <= pos,
    ensures
        pos + 4 <= s.len(),
        bytes::i32_at(s, pos) >= 0,
        catalog::text_at(s, pos + 4, bytes::i32_at(s, pos)) matches Outcome::Done { at, .. } && at
            == r.0,
        pos + 4 <= r.0,
        catalog::index_at(s, r.0) matches Outcome::Done { at, .. } && at == r.1,
        r.0 + 8 <= r.1,
        r.1 + 2 <= s.len(),
        catalog::table_at(s, pos)->Done_value.primary.root_field == r.1 - 8,
        catalog::indexes_at(s, r.1 + 2, bytes::u16_at(s, r.1) as nat) matches Outcome::Done {
            value,
            at,
        } && at == catalog::table_at(s, pos)->Done_at && value == catalog::table_at(
            s,
            pos,
        )->Done_value.secondaries,
        r.1 + 2 <= catalog::table_at(s, pos)->Done_at <= s.len(),
{
    let a = catalog::text_at(s, pos + 4, bytes::i32_at(s, pos))->Done_at;
    let parts = lemma_index_parts(s, a);
    let b = catalog::index_at(s, a)->Done_at;
    lemma_indexes_span(s, b + 2, bytes::u16_at(s, b) as nat, 0);
    (a, b)
}

/// A table descriptor in bytes that agree is the same.
pub proof fn lemma_table_same(s: Seq<u8>, t: Seq<u8>, pos: int)
    requires
        catalog::table_at(s, pos) matches Outcome::Done { at, .. } && agree(s, t, pos, at),
        0 <= pos,
    ensures
        catalog::table_at(t, pos) == catalog::table_at(s, pos),
{
    let (a, b) = lemma_table_parts(s, pos);
    let end = catalog::table_at(s, pos)->Done_at;
    lemma_numbers(s, t, pos, end);
    lemma_text_same(s, t, pos + 4, bytes::i32_at(s, pos));
    lemma_index_same(s, t, a);
    lemma_numbers(s, t, b, end);
    lemma_indexes_same(s, t, b + 2, bytes::u16_at(s, b) as nat);
}

/// A table descriptor with one root filled in.
pub proof fn lemma_table_patched(
    s: Seq<u8>,
    t: Seq<u8>,
    pos: int,
    which: int,
    root: Option<PageOrdinal>,
)
    requires
        catalog::table_at(s, pos) matches Outcome::Done { value, at } && 0 <= which
            <= value.secondaries.len() && filled(
            s,
            t,
            pos,
            at,
            root_field_of(value, which),
            root,
        ),
        0 <= pos,
    ensures
        catalog::table_at(t, pos) == (Outcome::Done {
            value: with_root(catalog::table_at(s, pos)->Done_value, which, root),
            at: catalog::table_at(s, pos)->Done_at,
        }),
{
    let (a, b) = lemma_table_parts(s, pos);
    let end = catalog::table_at(s, pos)->Done_at;
    let m = catalog::table_at(s, pos)->Done_value;
    let n = bytes::u16_at(s, b) as nat;
    let f = root_field_of(m, which);
    lemma_indexes_span(s, b + 2, n, which - 1);
    lemma_numbers(s, t, pos, f);
    lemma_text_same(s, t, pos + 4, bytes::i32_at(s, pos));
    if which == 0 {
        lemma_index_patched(s, t, a, root);
        lemma_numbers(s, t, b, end);
        lemma_indexes_same(s, t, b + 2, n);
    } else {
        lemma_index_same(s, t, a);
        lemma_numbers(s, t, b, f);
        lemma_indexes_patched(s, t, b + 2, n, which - 1, root);
    }
    let now = with_root(m, which, root);
    let l = seq![now.primary] + now.secondaries;
    let was = seq![m.primary] + m.secondaries;
    assert(catalog::index_names_apart(l)) by {
        assert forall|i: int, j: int| 0 <= i < j < l.len() implies (#[trigger] l[i]).name != (
        #[trigger] l[j]).name by {
            assert(l[i].name == was[i].name && l[j].name == was[j].name);
        }
    }
}

/// Where the table descriptors are.
pub proof fn lemma_tables_span(s: Seq<u8>, pos: int, n: nat)
    requires
        catalog::tables_at(s, pos, n) is Done,
        0 <= pos,
    ensures
        catalog::tables_at(s, pos, n)->Done_value.len() == n,
        pos <= catalog::tables_at(s, pos, n)->Done_at,
        n == 0 || catalog::tables_at(s, pos, n)->Done_at <= s.len(),
    decreases n,
{
    if n > 0 {
        let m = (n - 1) as nat;
        lemma_tables_span(s, pos, m);
        let parts = lemma_table_parts(s, catalog::tables_at(s, pos, m)->Done_at);
    }
}

/// Where a root of one of the tables is.
pub proof fn lemma_root_span(s: Seq<u8>, pos: int, n: nat, i: int, which: int)
    requires
        catalog::tables_at(s, pos, n) is Done,
        0 <= pos,
        0 <= i < n,
        0 <= which <= catalog::tables_at(s, pos, n)->Done_value[i].secondaries.len(),
    ensures
        pos <= root_field_of(catalog::tables_at(s, pos, n)->Done_value[i], which),
        root_field_of(catalog::tables_at(s, pos, n)->Done_value[i], which) + 8
            <= catalog::tables_at(s, pos, n)->Done_at,
    decreases n,
{
    let m = (n - 1) as nat;
    let mid = catalog::tables_at(s, pos, m)->Done_at;
    lemma_tables_span(s, pos, m);
    let (a, b) = lemma_table_parts(s, mid);
    let all = catalog::tables_at(s, pos, n)->Done_value;
    if i == m {
        lemma_indexes_span(s, b + 2, bytes::u16_at(s, b) as nat, which - 1);
    } else {
        assert(all[i] == catalog::tables_at(s, pos, m)->Done_value[i]);
        lemma_root_span(s, pos, m, i, which);
    }
}

/// Table descriptors in bytes that agree are the same.
pub proof fn lemma_tables_same(s: Seq<u8>, t: Seq<u8>, pos: int, n: nat)
    requires
        catalog::tables_at(s, pos, n) matches Outcome::Done { at, .. } && agree(s, t, pos, at),
        0 <= pos,
    ensures
        catalog::tables_at(t, pos, n) == catalog::tables_at(s, pos, n),
    decreases n,
{
    if n > 0 {
        let m = (n - 1) as nat;
        let at = catalog::tables_at(s, pos, m)->Done_at;
        lemma_tables_span(s, pos, m);
        let parts = lemma_table_parts(s, at);
        lemma_tables_same(s, t, pos, m);
        lemma_table_same(s, t, at);
    }
}

/// Table descriptors with one root filled in.
pub proof fn lemma_tables_patched(
    s: Seq<u8>,
    t: Seq<u8>,
    pos: int,
    n: nat,
    i: int,
    which: int,
    root: Option<PageOrdinal>,
)
    requires
        catalog::tables_at(s, pos, n) matches Outcome::Done { value, at } && 0 <= which
            <= value[i].secondaries.len() && filled(
            s,
            t,
            pos,
            at,
            root_field_of(value[i], which),
            root,
        ),
        0 <= pos,
        0 <= i < n,
    ensures
        catalog::tables_at(t, pos, n) == (Outcome::Done {
            value: catalog::tables_at(s, pos, n)->Done_value.update(
                i,
                with_root(catalog::tables_at(s, pos, n)->Done_value[i], which, root),
            ),
            at: catalog::tables_at(s, pos, n)->Done_at,
        }),
    decreases n,
{
    let m = (n - 1) as nat;
    let before = catalog::tables_at(s, pos, m)->Done_value;
    let mid = catalog::tables_at(s, pos, m)->Done_at;
    let all = catalog::tables_at(s, pos, n)->Done_value;
    lemma_tables_span(s, pos, m);
    let (a, b) = lemma_table_parts(s, mid);
    if i == m {
        lemma_indexes_span(s, b + 2, bytes::u16_at(s, b) as nat, which - 1);
        lemma_tables_same(s, t, pos, m);
        lemma_table_patched(s, t, mid, which, root);
        assert(all.update(i, with_root(all[i], which, root)) =~= before.push(
            with_root(all[i], which, root),
        ));
    } else {
        assert(all[i] == before[i]);
        lemma_root_span(s, pos, m, i, which);
        lemma_tables_patched(s, t, pos, m, i, which, root);
        lemma_table_same(s, t, mid);
        assert(all.update(i, with_root(all[i], which, root)) =~= before.update(
            i,
            with_root(before[i], which, root),
        ).push(all[m as int]));
    }
}

/// Filter ids in bytes that agree are the same.
pub proof fn lemma_filters_same(s: Seq<u8>, t: Seq<u8>, pos: int, n: nat)
    requires
        catalog::filters_at(s, pos, n) matches Outcome::Done { at, .. } && agree(s, t, pos, at),
        0 <= pos,
    ensures
        catalog::filters_at(t, pos, n) == catalog::filters_at(s, pos, n),
        pos <= catalog::filters_at(s, pos, n)->Done_at,
    decreases n,
{
    if n > 0 {
        let m = (n - 1) as nat;
        let at = catalog::filters_at(s, pos, m)->Done_at;
        lemma_filters_span(s, pos, m);
        lemma_filters_same(s, t, pos, m);
        lemma_numbers(s, t, at, catalog::filters_at(s, pos, n)->Done_at);
        lemma_text_same(s, t, at + 1, s[at] as int);
    }
}

/// Where the filter ids are.
pub proof fn lemma_filters_span(s: Seq<u8>, pos: int, n: nat)
    requires
        catalog::filters_at(s, pos, n) is Done,
        0 <= pos,
    ensures
        pos <= catalog::filters_at(s, pos, n)->Done_at,
    decreases n,
{
    if n > 0 {
        lemma_filters_span(s, pos, (n - 1) as nat);
    }
}

} // verus!
