//! Reading the front of a file.
//!
//! Opening a database reads as much of its front as the descriptors turn out to need. What
//! is there in a short piece of the front is there in every longer one.

use vstd::prelude::*;

use super::bytes;
use super::catalog::{self, Outcome};
use super::header;
use super::HEADER_LEN;

verus! {

broadcast use super::group_format;

/// Whether one byte string is the front of another.
pub open spec fn is_front(a: Seq<u8>, b: Seq<u8>) -> bool {
    a.len() <= b.len() && a == b.subrange(0, a.len() as int)
}

/// Whether what a front came to is what the whole comes to, unless the front was too short
/// for it: then it asks for more than there is, and for no more than the whole takes.
pub open spec fn agrees<T>(x: Outcome<T>, y: Outcome<T>, front: int) -> bool {
    match x {
        Outcome::Short { need } => front < need && (y matches Outcome::Done { at, .. } ==> need
            <= at),
        _ => y == x,
    }
}

/// A number inside the front is the same in the whole.
proof fn lemma_numbers(a: Seq<u8>, b: Seq<u8>, pos: int)
    requires
        is_front(a, b),
        0 <= pos,
    ensures
        pos + 2 <= a.len() ==> bytes::u16_at(a, pos) == bytes::u16_at(b, pos),
        pos + 4 <= a.len() ==> bytes::u32_at(a, pos) == bytes::u32_at(b, pos) && bytes::i32_at(
            a,
            pos,
        ) == bytes::i32_at(b, pos),
        pos + 8 <= a.len() ==> bytes::u64_at(a, pos) == bytes::u64_at(b, pos) && bytes::i64_at(
            a,
            pos,
        ) == bytes::i64_at(b, pos),
        pos < a.len() ==> a[pos] == b[pos],
{
    if pos + 2 <= a.len() {
        assert(a.subrange(pos, pos + 2) =~= b.subrange(pos, pos + 2));
        bytes::lemma_u16_moved(a, pos, b, pos);
    }
    if pos + 4 <= a.len() {
        assert(a.subrange(pos, pos + 4) =~= b.subrange(pos, pos + 4));
        bytes::lemma_u32_moved(a, pos, b, pos);
    }
    if pos + 8 <= a.len() {
        assert(a.subrange(pos, pos + 8) =~= b.subrange(pos, pos + 8));
        bytes::lemma_u64_moved(a, pos, b, pos);
    }
}

/// The header of a file is in its first bytes.
pub proof fn lemma_header(a: Seq<u8>, b: Seq<u8>)
    requires
        is_front(a, b),
        a.len() >= HEADER_LEN,
    ensures
        header::header_at(a) == header::header_at(b),
{
    assert(a.subrange(0, 4) =~= b.subrange(0, 4));
    lemma_numbers(a, b, 4);
    lemma_numbers(a, b, 5);
    lemma_numbers(a, b, 6);
    lemma_numbers(a, b, 8);
    lemma_numbers(a, b, 12);
    lemma_numbers(a, b, 14);
    lemma_numbers(a, b, 18);
}

proof fn lemma_text(a: Seq<u8>, b: Seq<u8>, pos: int, len: int)
    requires
        is_front(a, b),
        0 <= pos,
        0 <= len,
    ensures
        agrees(catalog::text_at(a, pos, len), catalog::text_at(b, pos, len), a.len() as int),
        catalog::text_at(b, pos, len) matches Outcome::Done { at, .. } ==> at >= pos,
        catalog::text_at(a, pos, len) matches Outcome::Done { at, .. } ==> at >= pos,
{
    if pos + len <= a.len() {
        assert(a.subrange(pos, pos + len) =~= b.subrange(pos, pos + len));
    }
}

proof fn lemma_index(a: Seq<u8>, b: Seq<u8>, pos: int)
    requires
        is_front(a, b),
        0 <= pos,
    ensures
        agrees(catalog::index_at(a, pos), catalog::index_at(b, pos), a.len() as int),
        catalog::index_at(b, pos) matches Outcome::Done { at, .. } ==> at >= pos,
        catalog::index_at(a, pos) matches Outcome::Done { at, .. } ==> at >= pos,
{
    assert(b =~= b.subrange(0, b.len() as int));
    lemma_numbers(a, b, pos);
    lemma_numbers(a, b, pos + 2);
    let (n, m) = (bytes::u16_at(b, pos), bytes::u16_at(b, pos + 2));
    lemma_text(a, b, pos + 4, n);
    if pos + 4 <= a.len() {
        if let Outcome::Done { value, at } = catalog::text_at(a, pos + 4, n) {
            lemma_text(a, b, at, m);
            if let Outcome::Done { value: second, at: end } = catalog::text_at(a, at, m) {
                lemma_numbers(a, b, end);
                lemma_numbers(a, b, end + 1);
                lemma_numbers(a, b, end + 2);
            }
        } else if let Outcome::Done { value, at } = catalog::text_at(b, pos + 4, n) {
            lemma_text(b, b, at, m);
        }
    } else if pos + 4 <= b.len() {
        if let Outcome::Done { value, at } = catalog::text_at(b, pos + 4, n) {
            lemma_text(b, b, at, m);
        }
    }
}

proof fn lemma_indexes(a: Seq<u8>, b: Seq<u8>, pos: int, n: nat)
    requires
        is_front(a, b),
        0 <= pos <= a.len(),
    ensures
        agrees(catalog::indexes_at(a, pos, n), catalog::indexes_at(b, pos, n), a.len() as int),
        catalog::indexes_at(b, pos, n) matches Outcome::Done { at, .. } ==> at >= pos,
        catalog::indexes_at(a, pos, n) matches Outcome::Done { at, .. } ==> pos <= at <= a.len(),
    decreases n,
{
    assert(b =~= b.subrange(0, b.len() as int));
    if n > 0 {
        let m = (n - 1) as nat;
        lemma_indexes(a, b, pos, m);
        if let Outcome::Done { value, at } = catalog::indexes_at(a, pos, m) {
            lemma_index(a, b, at);
            lemma_index_end(a, at);
        } else if let Outcome::Done { value, at } = catalog::indexes_at(b, pos, m) {
            lemma_index(b, b, at);
        }
    }
}

/// A descriptor ends inside the bytes it was read off.
proof fn lemma_index_end(a: Seq<u8>, pos: int)
    requires
        0 <= pos,
    ensures
        catalog::index_at(a, pos) matches Outcome::Done { at, .. } ==> pos <= at <= a.len(),
{
    let (n, m) = (bytes::u16_at(a, pos), bytes::u16_at(a, pos + 2));
    if let Outcome::Done { value, at } = catalog::text_at(a, pos + 4, n) {
        if let Outcome::Done { value: second, at: end } = catalog::text_at(a, at, m) {
        }
    }
}

proof fn lemma_table(a: Seq<u8>, b: Seq<u8>, pos: int)
    requires
        is_front(a, b),
        0 <= pos <= a.len(),
    ensures
        agrees(catalog::table_at(a, pos), catalog::table_at(b, pos), a.len() as int),
        catalog::table_at(a, pos) matches Outcome::Done { at, .. } ==> pos <= at <= a.len(),
{
    assert(b =~= b.subrange(0, b.len() as int));
    lemma_numbers(a, b, pos);
    let n = bytes::i32_at(b, pos);
    if pos + 4 > b.len() || n < 0 {
    } else {
        lemma_text(a, b, pos + 4, n);
        match catalog::text_at(a, pos + 4, n) {
            Outcome::Done { value: name, at } if pos + 4 <= a.len() => {
                lemma_index(a, b, at);
                lemma_index_end(a, at);
                lemma_index_end(b, at);
                match catalog::index_at(a, at) {
                    Outcome::Done { value: primary, at: next } => {
                        lemma_numbers(a, b, next);
                        if next + 2 <= a.len() {
                            lemma_indexes(a, b, next + 2, bytes::u16_at(b, next) as nat);
                        } else if next + 2 <= b.len() {
                            lemma_indexes(b, b, next + 2, bytes::u16_at(b, next) as nat);
                        }
                    },
                    _ => {
                        lemma_table_past(b, at);
                    },
                }
            },
            _ => {
                if let Outcome::Done { value: name, at } = catalog::text_at(b, pos + 4, n) {
                    lemma_index_end(b, at);
                    lemma_table_past(b, at);
                }
            },
        }
    }
}

/// What follows the name of a table ends past it.
proof fn lemma_table_past(b: Seq<u8>, at: int)
    requires
        0 <= at,
    ensures
        catalog::index_at(b, at) matches Outcome::Done { at: next, .. } ==> next >= at && (next + 2
            <= b.len() ==> (catalog::indexes_at(
            b,
            next + 2,
            bytes::u16_at(b, next) as nat,
        ) matches Outcome::Done { at: end, .. } ==> end > next)),
{
    lemma_index_end(b, at);
    if let Outcome::Done { value, at: next } = catalog::index_at(b, at) {
        if next + 2 <= b.len() {
            assert(b =~= b.subrange(0, b.len() as int));
            lemma_indexes(b, b, next + 2, bytes::u16_at(b, next) as nat);
        }
    }
}

proof fn lemma_tables(a: Seq<u8>, b: Seq<u8>, pos: int, n: nat)
    requires
        is_front(a, b),
        0 <= pos <= a.len(),
    ensures
        agrees(catalog::tables_at(a, pos, n), catalog::tables_at(b, pos, n), a.len() as int),
        catalog::tables_at(a, pos, n) matches Outcome::Done { at, .. } ==> pos <= at <= a.len(),
        catalog::tables_at(b, pos, n) matches Outcome::Done { at, .. } ==> pos <= at <= b.len(),
    decreases n,
{
    if n > 0 {
        let m = (n - 1) as nat;
        lemma_tables(a, b, pos, m);
        assert(b =~= b.subrange(0, b.len() as int));
        if let Outcome::Done { value, at } = catalog::tables_at(b, pos, m) {
            lemma_table(b, b, at);
            if catalog::tables_at(a, pos, m) is Done {
                lemma_table(a, b, at);
            }
        }
    }
}

proof fn lemma_filters(a: Seq<u8>, b: Seq<u8>, pos: int, n: nat)
    requires
        is_front(a, b),
        0 <= pos <= a.len(),
    ensures
        agrees(catalog::filters_at(a, pos, n), catalog::filters_at(b, pos, n), a.len() as int),
        catalog::filters_at(a, pos, n) matches Outcome::Done { at, .. } ==> pos <= at <= a.len(),
        catalog::filters_at(b, pos, n) matches Outcome::Done { at, .. } ==> pos <= at <= b.len(),
    decreases n,
{
    if n > 0 {
        let m = (n - 1) as nat;
        lemma_filters(a, b, pos, m);
        if let Outcome::Done { value, at } = catalog::filters_at(b, pos, m) {
            lemma_numbers(a, b, at);
            lemma_text(a, b, at + 1, b[at] as int);
        }
    }
}

/// The descriptors in the front of a file are the file's, unless the front is too short for
/// them.
pub proof fn lemma_catalog(a: Seq<u8>, b: Seq<u8>, filters: nat, tables: nat)
    requires
        is_front(a, b),
        a.len() >= HEADER_LEN,
    ensures
        agrees(
            catalog::catalog_at(a, filters, tables),
            catalog::catalog_at(b, filters, tables),
            a.len() as int,
        ),
{
    let start = HEADER_LEN as int;
    lemma_filters(a, b, start, filters);
    if let Outcome::Done { value, at } = catalog::filters_at(b, start, filters) {
        assert(b =~= b.subrange(0, b.len() as int));
        lemma_tables(b, b, at, tables);
        if catalog::filters_at(a, start, filters) is Done {
            lemma_tables(a, b, at, tables);
        }
    }
}

/// Descriptors that are cut off ask for more bytes than there are, and for no more than they
/// take up: reading on by what is asked for reaches their end, and never reads past it.
pub proof fn lemma_need_more(full: Seq<u8>, n: int, filters: nat, tables: nat)
    requires
        HEADER_LEN <= n < full.len(),
        catalog::catalog_at(full, filters, tables) matches Outcome::Done { at, .. } && at
            == full.len(),
    ensures
        catalog::catalog_at(full.subrange(0, n), filters, tables) matches Outcome::Short { need }
            && n < need <= full.len(),
{
    let a = full.subrange(0, n);
    let start = HEADER_LEN as int;
    lemma_catalog(a, full, filters, tables);
    lemma_filters(a, full, start, filters);
    if let Outcome::Done { value, at } = catalog::filters_at(a, start, filters) {
        lemma_tables(a, full, at, tables);
    }
}

/// In the descriptors of a file no two tables have the same name, and no two indexes of a table
/// do, its primary index among them.
pub proof fn lemma_names_apart(s: Seq<u8>, filters: nat, tables: nat)
    requires
        catalog::catalog_at(s, filters, tables) is Done,
    ensures
        catalog::table_names_apart(catalog::catalog_at(s, filters, tables)->Done_value.tables),
        forall|i: int|
            #![trigger catalog::catalog_at(s, filters, tables)->Done_value.tables[i]]
            0 <= i < catalog::catalog_at(s, filters, tables)->Done_value.tables.len() ==> {
                let t = catalog::catalog_at(s, filters, tables)->Done_value.tables[i];
                catalog::index_names_apart(seq![t.primary] + t.secondaries)
            },
{
    let at = catalog::filters_at(s, HEADER_LEN as int, filters)->Done_at;
    lemma_tables_named(s, at, tables);
}

proof fn lemma_tables_named(s: Seq<u8>, pos: int, n: nat)
    requires
        catalog::tables_at(s, pos, n) is Done,
    ensures
        forall|i: int|
            #![trigger catalog::tables_at(s, pos, n)->Done_value[i]]
            0 <= i < catalog::tables_at(s, pos, n)->Done_value.len() ==> {
                let t = catalog::tables_at(s, pos, n)->Done_value[i];
                catalog::index_names_apart(seq![t.primary] + t.secondaries)
            },
    decreases n,
{
    if n > 0 {
        lemma_tables_named(s, pos, (n - 1) as nat);
        let before = catalog::tables_at(s, pos, (n - 1) as nat)->Done_value;
        let l = catalog::tables_at(s, pos, n)->Done_value;
        assert forall|i: int| 0 <= i < l.len() implies catalog::index_names_apart(
            seq![(#[trigger] l[i]).primary] + l[i].secondaries,
        ) by {
            if i < before.len() {
                assert(l[i] == before[i]);
            }
        }
    }
}

} // verus!
