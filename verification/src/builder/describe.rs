//! Writing descriptors, and filling in the roots.

use vstd::prelude::*;
use vstd::utf8::*;

use super::plan::{self, SecondarySpec, TablePlan, TableSpec};
use super::scratch::Scratch;
use super::sink::PageSink;
use super::target::BuildTarget;
use crate::encoding::{KeyEncoding, SharedEncoding};
use crate::error::{Error, ErrorKind, Words};
use crate::filter::{PageFilter, SharedFilter};
use crate::format::amend;
use crate::format::bytes::{self, put_le2, put_le4, put_le8};
use crate::format::catalog::{
    self, encode_index_descriptor, CatalogModel, IndexModel, Outcome, TableModel, ValueKind,
};
use crate::format::header::Header;
use crate::format::{
    FileOffset, PageOrdinal, HEADER_LEN, MAJOR_VERSION, MINOR_VERSION, PAGE_COUNT_FIELD_OFFSET,
};

verus! {

broadcast use crate::format::group_format;

/// Where the roots of a table's trees are in the file.
pub struct TableRoots {
    pub primary: u64,
    pub secondaries: Vec<u64>,
}

/// Whether roots are where the descriptor says.
pub open spec fn roots_match(r: TableRoots, m: TableModel) -> bool {
    &&& r.primary == m.primary.root_field
    &&& r.secondaries@.len() == m.secondaries.len()
    &&& forall|j: int|
        0 <= j < m.secondaries.len() ==> (#[trigger] r.secondaries@[j]) as int
            == m.secondaries[j].root_field
}

/// Whether a build cannot write an index descriptor.
pub open spec fn unnameable(name: Seq<char>, e: SharedEncoding) -> bool {
    encode_utf8(name).len() > u16::MAX || encode_utf8(e.inner.name()).len() > u16::MAX
}

/// Whether a build cannot write a table descriptor.
pub open spec fn undescribable(t: TablePlan) -> bool {
    ||| unnameable(plan::primary_name(t.name), t.encoding)
    ||| t.indexes.len() > u16::MAX
    ||| exists|j: int|
        0 <= j < t.indexes.len() && unnameable(
            (#[trigger] t.indexes[j]).name,
            t.indexes[j].encoding,
        )
}

/// The most bytes an index descriptor takes, or what stands around the indexes of a table.
pub const DESCRIPTOR_SPAN: u64 = 0x4_0000;

/// The most bytes a table descriptor takes.
pub const TABLE_SPAN: u64 = 0x4_0008_0000;

/// The most bytes everything before the pages takes.
pub const FRONT_SPAN: u64 = 0x10_0000_0000_0000;

/// Whether writing `more` bytes to the front of a file failed because it cannot be written,
/// or cannot be that large.
pub open spec fn front_failure<T: BuildTarget, D: Scratch>(a: &PageSink<T, D>, more: int, e: Error) -> bool {
    ||| e.kind() == ErrorKind::Io && !a.dependable()
    ||| e.kind() == ErrorKind::ValueTooLarge && a.file().len() + more >= 0x8000_0000_0000_0000
}

/// Whether a file has at most `n` more bytes than before.
pub open spec fn longer<T: BuildTarget, D: Scratch>(a: &PageSink<T, D>, b: &PageSink<T, D>, n: int) -> bool {
    b.file().len() <= a.file().len() + n
}

/// What appending to the front of a file does.
pub open spec fn appended<T: BuildTarget, D: Scratch>(a: &PageSink<T, D>, b: &PageSink<T, D>) -> bool {
    &&& b.wf()
    &&& b.pages() == a.pages()
    &&& b.offsets() == a.offsets()
    &&& b.base() == a.base()
    &&& a.file().len() <= b.file().len()
    &&& b.file().subrange(0, a.file().len() as int) == a.file()
}

/// What was before is still there.
pub proof fn lemma_appended<T: BuildTarget, D: Scratch>(a: &PageSink<T, D>, b: &PageSink<T, D>, from: int)
    requires
        appended(a, b),
        0 <= from,
    ensures
        amend::agree(a.file(), b.file(), from, a.file().len() as int),
{
    assert forall|k: int| from <= k < a.file().len() implies #[trigger] b.file()[k]
        == a.file()[k] by {
        assert(b.file().subrange(0, a.file().len() as int)[k] == b.file()[k]);
    }
}

/// Appending twice is appending.
pub proof fn lemma_appended_twice<T: BuildTarget, D: Scratch>(
    a: &PageSink<T, D>,
    b: &PageSink<T, D>,
    c: &PageSink<T, D>,
)
    requires
        appended(a, b),
        appended(b, c),
    ensures
        appended(a, c),
{
    assert(c.file().subrange(0, a.file().len() as int) =~= b.file().subrange(
        0,
        a.file().len() as int,
    ));
}

/// Writes an index descriptor and returns the file offset of its root ordinal field.
pub fn write_index_descriptor<T: BuildTarget, D: Scratch>(
    sink: &mut PageSink<T, D>,
    name: &str,
    encoding: &SharedEncoding,
    unique: bool,
    value_kind: ValueKind,
) -> (r: Result<u64, Error>)
    requires
        old(sink).wf(),
    ensures
        final(sink).dependable() == old(sink).dependable(),
        final(sink).filter() == old(sink).filter(),
        match r {
            Ok(field) => {
                &&& !unnameable(name@, *encoding)
                &&& longer(old(sink), final(sink), DESCRIPTOR_SPAN as int)
                &&& appended(old(sink), final(sink))
                &&& catalog::index_at(final(sink).file(), old(sink).file().len() as int) matches Outcome::Done {
                    value,
                    at,
                } && at == final(sink).file().len() && plan::index_described(
                    value,
                    name@,
                    *encoding,
                    unique,
                    value_kind,
                ) && value.root_field == field
            },
            Err(e) => front_failure(old(sink), DESCRIPTOR_SPAN as int, e) || e.kind()
                == ErrorKind::InvalidArgument && unnameable(name@, *encoding),
        },
{
    let start = sink.pos();
    let encoded = match encode_index_descriptor(name, encoding.inner.id(), unique, value_kind, 0) {
        Ok(encoded) => encoded,
        Err(e) => return Err(e),
    };
    let ghost k = choose|k: int|
        catalog::value_kind_of(k) == Some(value_kind) && encoded@
            == #[trigger] catalog::descriptor_bytes(
            name@,
            encoding.inner.name(),
            unique,
            k,
            0,
        );
    let mut bytes = encoded;
    let len = bytes.len();
    // The placeholder is the offset just past the descriptor. It is overwritten either way,
    // so it only matters for comparing unfinished files.
    let placeholder = match start.checked_add(len as u64) {
        Some(p) => p,
        None => return Err(
            Error::new(ErrorKind::ValueTooLarge, "the file is larger than a file can be"),
        ),
    };
    if placeholder >= 0x8000_0000_0000_0000 {
        return Err(Error::new(ErrorKind::ValueTooLarge, "the file is larger than a file can be"));
    }
    bytes.truncate(len - 8);
    put_le8(&mut bytes, placeholder);
    let ghost root = Some(PageOrdinal::new(placeholder));
    let ghost d = catalog::descriptor_bytes(
        name@,
        encoding.inner.name(),
        unique,
        k,
        placeholder as int,
    );
    proof {
        assert(bytes@ =~= d);
    }
    sink.write_raw(bytes.as_slice())?;
    proof {
        let s = sink.file();
        assert(s.subrange(start as int, start + d.len()) =~= d);
        assert(s.subrange(0, start as int) =~= old(sink).file());
        catalog::lemma_descriptor_round_trip(
            s,
            start as int,
            name@,
            encoding.inner.name(),
            unique,
            value_kind,
            k,
            root,
        );
    }
    Ok(start + (len - 8) as u64)
}

/// Whether index descriptors are those of declared indexes, with their roots where `roots`
/// says.
pub open spec fn indexes_written(
    l: Seq<IndexModel>,
    plans: Seq<plan::IndexPlan>,
    roots: Seq<u64>,
) -> bool {
    &&& l.len() == roots.len()
    &&& l.len() <= plans.len()
    &&& forall|j: int|
        0 <= j < l.len() ==> plan::index_described(
            #[trigger] l[j],
            plans[j].name,
            plans[j].encoding,
            plans[j].unique,
            ValueKind::PageRef,
        ) && l[j].root_field == roots[j]
}

/// Writes the descriptors of a table's secondary indexes.
fn write_secondaries<T: BuildTarget, D: Scratch>(
    sink: &mut PageSink<T, D>,
    secondaries: &Vec<SecondarySpec>,
) -> (r: Result<Vec<u64>, Error>)
    requires
        old(sink).wf(),
    ensures
        final(sink).dependable() == old(sink).dependable(),
        final(sink).filter() == old(sink).filter(),
        match r {
            Ok(roots) => {
                &&& forall|j: int|
                    0 <= j < secondaries@.len() ==> !unnameable(
                        (#[trigger] secondaries@[j]).name@,
                        secondaries@[j].encoding,
                    )
                &&& appended(old(sink), final(sink))
                &&& longer(old(sink), final(sink), DESCRIPTOR_SPAN * secondaries@.len())
                &&& catalog::indexes_at(
                    final(sink).file(),
                    old(sink).file().len() as int,
                    secondaries@.len(),
                ) matches Outcome::Done { value, at } && at == final(sink).file().len()
                    && value.len() == secondaries@.len() && indexes_written(
                    value,
                    plan::index_plans(secondaries@),
                    roots@,
                )
            },
            Err(e) => front_failure(old(sink), DESCRIPTOR_SPAN * secondaries@.len(), e) || e.kind()
                == ErrorKind::InvalidArgument && exists|j: int|
                0 <= j < secondaries@.len() && unnameable(
                    (#[trigger] secondaries@[j]).name@,
                    secondaries@[j].encoding,
                ),
        },
{
    let ghost pos = sink.file().len() as int;
    let ghost first = *sink;
    let mut roots: Vec<u64> = Vec::new();
    let mut i: usize = 0;
    let ghost mut models = Seq::<IndexModel>::empty();
    proof {
        assert(sink.file() =~= sink.file().subrange(0, pos));
    }
    while i < secondaries.len()
        invariant
            i <= secondaries@.len(),
            pos == first.file().len(),
            *old(sink) == first,
            sink.wf(),
            sink.dependable() == first.dependable(),
            sink.filter() == first.filter(),
            appended(&first, sink),
            longer(&first, sink, DESCRIPTOR_SPAN * i),
            models.len() == i,
            forall|j: int|
                0 <= j < i ==> !unnameable(
                    (#[trigger] secondaries@[j]).name@,
                    secondaries@[j].encoding,
                ),
            catalog::indexes_at(sink.file(), pos, i as nat) == (Outcome::Done {
                value: models,
                at: sink.file().len() as int,
            }),
            indexes_written(models, plan::index_plans(secondaries@), roots@),
        decreases secondaries@.len() - i,
    {
        let ghost before = *sink;
        let spec = &secondaries[i];
        let field = match write_index_descriptor(
            sink,
            spec.name.as_str(),
            &spec.encoding,
            spec.unique,
            ValueKind::PageRef,
        ) {
            Ok(field) => field,
            Err(e) => {
                proof {
                    assert(secondaries@[i as int].name@ == spec.name@);
                }
                return Err(e);
            },
        };
        roots.push(field);
        proof {
            lemma_appended(&before, sink, pos);
            amend::lemma_indexes_same(before.file(), sink.file(), pos, i as nat);
            let m = catalog::index_at(sink.file(), before.file().len() as int)->Done_value;
            models = models.push(m);
            lemma_appended_twice(&first, &before, sink);
            assert(plan::index_plans(secondaries@)[i as int] == spec@);
        }
        i += 1;
    }
    Ok(roots)
}

/// The name of a table's primary index.
pub(crate) fn primary_index_name(table: &String) -> (r: String)
    ensures
        r@ == plan::primary_name(table@),
{
    let mut name = table.clone();
    name.push('_');
    name.push('p');
    name.push('k');
    proof {
        reveal_strlit("_pk");
        assert(name@ =~= table@ + "_pk"@);
    }
    name
}

/// Writes the descriptor of a table, with a placeholder for every root.
pub fn write_table_descriptor<T: BuildTarget, D: Scratch, S: Scratch>(
    sink: &mut PageSink<T, D>,
    spec: &TableSpec<S>,
) -> (r: Result<TableRoots, Error>)
    requires
        old(sink).wf(),
        spec.wf(),
    ensures
        final(sink).dependable() == old(sink).dependable(),
        final(sink).filter() == old(sink).filter(),
        match r {
            Ok(roots) => {
                &&& !undescribable(spec@)
                &&& appended(old(sink), final(sink))
                &&& longer(old(sink), final(sink), TABLE_SPAN as int)
                &&& catalog::table_at(final(sink).file(), old(sink).file().len() as int) matches Outcome::Done {
                    value,
                    at,
                } && at == final(sink).file().len() && plan::described(value, spec@)
                    && roots_match(roots, value)
            },
            Err(e) => front_failure(old(sink), TABLE_SPAN as int, e) || e.kind()
                == ErrorKind::InvalidArgument && undescribable(spec@),
        },
{
    let ghost pos = sink.file().len() as int;
    let ghost s0 = *sink;
    let name = spec.name.as_str().as_bytes();
    let primary_name = primary_index_name(&spec.name);
    if name.len() > 0xFFFF {
        proof {
            lemma_longer_name(spec.name@, "_pk"@);
        }
        return Err(
            Error::invalid_words(
                Words::new("index name `")
                    .say(catalog::describe_name(primary_name.as_str()).as_str())
                    .say("` is longer than 65535 bytes"),
            ),
        );
    }
    let mut length: Vec<u8> = Vec::new();
    put_le4(&mut length, name.len() as u64);
    sink.write_raw(length.as_slice())?;
    sink.write_raw(name)?;
    let ghost s1 = *sink;
    proof {
        lemma_name_written(s0.file(), s1.file(), spec.name@);
        assert(s1.file().subrange(0, pos) =~= s0.file());
    }
    let primary = match write_index_descriptor(
        sink,
        primary_name.as_str(),
        &spec.encoding,
        true,
        ValueKind::RawData,
    ) {
        Ok(primary) => primary,
        Err(e) => return Err(e),
    };
    let ghost s2 = *sink;
    if spec.secondaries.len() > 0xFFFF {
        return Err(Error::invalid("more than 65535 secondary indexes"));
    }
    let mut count: Vec<u8> = Vec::new();
    put_le2(&mut count, spec.secondaries.len() as u64);
    sink.write_raw(count.as_slice())?;
    let ghost s3 = *sink;
    let secondaries = match write_secondaries(sink, &spec.secondaries) {
        Ok(secondaries) => secondaries,
        Err(e) => {
            proof {
                if e.kind() == ErrorKind::InvalidArgument {
                    let j = choose|j: int|
                        0 <= j < spec.secondaries@.len() && unnameable(
                            (#[trigger] spec.secondaries@[j]).name@,
                            spec.secondaries@[j].encoding,
                        );
                    assert(spec@.indexes[j] == spec.secondaries@[j]@);
                }
            }
            return Err(e);
        },
    };
    proof {
        assert(s3.file().subrange(0, s2.file().len() as int) =~= s2.file());
        lemma_appended_twice(&s0, &s1, &s2);
        lemma_appended_twice(&s0, &s2, &s3);
        lemma_appended_twice(&s0, &s3, sink);
        lemma_table_written(&s1, &s2, &s3, sink, pos, spec@, secondaries@);
        assert forall|j: int| 0 <= j < spec@.indexes.len() implies !unnameable(
            (#[trigger] spec@.indexes[j]).name,
            spec@.indexes[j].encoding,
        ) by {
            assert(spec@.indexes[j] == spec.secondaries@[j]@);
        }
    }
    Ok(TableRoots { primary, secondaries })
}

/// The pieces of a table descriptor are a table descriptor.
proof fn lemma_table_written<T: BuildTarget, D: Scratch>(
    s1: &PageSink<T, D>,
    s2: &PageSink<T, D>,
    s3: &PageSink<T, D>,
    s4: &PageSink<T, D>,
    pos: int,
    t: TablePlan,
    roots: Seq<u64>,
)
    requires
        0 <= pos,
        name_at(s1.file(), pos, t.name),
        s1.file().len() == pos + 4 + encode_utf8(t.name).len(),
        appended(s1, s2),
        appended(s2, s3),
        appended(s3, s4),
        catalog::index_at(s2.file(), s1.file().len() as int) matches Outcome::Done { value, at }
            && at == s2.file().len() && plan::index_described(
            value,
            plan::primary_name(t.name),
            t.encoding,
            true,
            ValueKind::RawData,
        ),
        t.indexes.len() <= 0xFFFF,
        s3.file() == s2.file() + bytes::le2(t.indexes.len() as int),
        catalog::indexes_at(s4.file(), s3.file().len() as int, t.indexes.len()) matches Outcome::Done {
            value,
            at,
        } && at == s4.file().len() && value.len() == t.indexes.len() && indexes_written(
            value,
            t.indexes,
            roots,
        ),
        plan::indexes_apart(t.name, t.indexes),
    ensures
        catalog::table_at(s4.file(), pos) matches Outcome::Done { value, at } && at
            == s4.file().len() && plan::described(value, t) && value.primary == catalog::index_at(
            s2.file(),
            s1.file().len() as int,
        )->Done_value && indexes_written(value.secondaries, t.indexes, roots),
{
    let (f1, f2, f3, f4) = (s1.file(), s2.file(), s3.file(), s4.file());
    lemma_appended_twice(s2, s3, s4);
    lemma_appended_twice(s1, s2, s4);
    lemma_appended(s1, s4, pos);
    lemma_appended(s2, s4, f1.len() as int);
    // The name, the primary descriptor and the count are as they were written.
    lemma_name_kept(f1, f4, pos, t.name);
    amend::lemma_index_same(f2, f4, f1.len() as int);
    lemma_appended(s3, s4, 0);
    assert(f4.subrange(f2.len() as int, f2.len() as int + 2) =~= bytes::le2(
        t.indexes.len() as int,
    ));
    bytes::lemma_u16_read_back(f4, f2.len() as int, t.indexes.len() as int);
    let primary = catalog::index_at(f2, f1.len() as int)->Done_value;
    let secondaries = catalog::indexes_at(f4, f3.len() as int, t.indexes.len())->Done_value;
    let l = seq![primary] + secondaries;
    assert(catalog::index_names_apart(l)) by {
        assert forall|i: int, j: int| 0 <= i < j < l.len() implies (#[trigger] l[i]).name != (
        #[trigger] l[j]).name by {
            assert(l[j] == secondaries[j - 1]);
            assert(l[j].name == t.indexes[j - 1].name);
            if i > 0 {
                assert(l[i] == secondaries[i - 1]);
                assert(t.indexes[i - 1].name != t.indexes[j - 1].name);
            }
        }
    }
}

/// A name too long for an index is too long for one with more behind it.
proof fn lemma_longer_name(name: Seq<char>, more: Seq<char>)
    ensures
        encode_utf8(name + more).len() >= encode_utf8(name).len(),
    decreases name.len(),
{
    if name.len() > 0 {
        lemma_longer_name(name.drop_first(), more);
        assert((name + more).drop_first() =~= name.drop_first() + more);
        assert((name + more)[0] == name[0]);
    }
}

/// A name written with its length before it is read back.
proof fn lemma_name_written(before: Seq<u8>, after: Seq<u8>, name: Seq<char>)
    requires
        encode_utf8(name).len() <= 0xFFFF,
        after == before + bytes::le4(encode_utf8(name).len() as int) + encode_utf8(name),
    ensures
        name_at(after, before.len() as int, name),
        after.len() == before.len() + 4 + encode_utf8(name).len(),
{
    let n = encode_utf8(name);
    let pos = before.len() as int;
    assert(after.subrange(pos, pos + 4) =~= bytes::le4(n.len() as int));
    bytes::lemma_u32_read_back(after, pos, n.len() as int);
    assert(after.subrange(pos + 4, pos + 4 + n.len()) =~= n);
    encode_utf8_valid_utf8(name);
    encode_utf8_decode_utf8(name);
}

/// Whether a file has this name at this place, with its length before it.
spec fn name_at(s: Seq<u8>, pos: int, name: Seq<char>) -> bool {
    &&& pos + 4 <= s.len()
    &&& bytes::i32_at(s, pos) == encode_utf8(name).len()
    &&& catalog::text_at(s, pos + 4, bytes::i32_at(s, pos)) == (Outcome::Done {
        value: name,
        at: pos + 4 + encode_utf8(name).len(),
    })
}

/// A name is still there when more is written after it.
proof fn lemma_name_kept(a: Seq<u8>, b: Seq<u8>, pos: int, name: Seq<char>)
    requires
        name_at(a, pos, name),
        0 <= pos,
        a.len() == pos + 4 + encode_utf8(name).len(),
        amend::agree(a, b, pos, a.len() as int),
    ensures
        name_at(b, pos, name),
{
    assert(a.subrange(pos, pos + 4) =~= b.subrange(pos, pos + 4));
    bytes::lemma_u32_moved(a, pos, b, pos);
    amend::lemma_text_same(a, b, pos + 4, bytes::i32_at(a, pos));
}

/// How many filters a file has.
pub open spec fn filter_count(filter: Option<SharedFilter>) -> nat {
    if filter is Some {
        1
    } else {
        0
    }
}

/// The ids of the filters of a file.
pub open spec fn filter_names(filter: Option<SharedFilter>) -> Seq<Seq<char>> {
    match filter {
        Some(f) => seq![f.inner.name()],
        None => Seq::empty(),
    }
}

/// The header of a file.
pub open spec fn header_for(
    page_size: int,
    filters: int,
    tables: int,
    page_count: int,
    position: int,
) -> Header {
    Header {
        major_version: MAJOR_VERSION,
        minor_version: MINOR_VERSION,
        page_filter_count: filters as u16,
        page_size: page_size as usize,
        table_count: tables as u16,
        page_count: page_count as u64,
        page_directory_position: FileOffset::new(position as u64),
    }
}

/// Whether what a file starts with says this: the page size, the filter, and the tables,
/// up to `end`.
pub open spec fn front_written(
    file: Seq<u8>,
    end: int,
    page_size: int,
    filter: Option<SharedFilter>,
    tables: Seq<TableModel>,
) -> bool {
    &&& HEADER_LEN <= end <= file.len()
    &&& tables.len() <= u16::MAX
    &&& file.subrange(0, PAGE_COUNT_FIELD_OFFSET as int) == header_for(
        page_size,
        filter_count(filter) as int,
        tables.len() as int,
        0,
        0,
    ).bytes().subrange(0, PAGE_COUNT_FIELD_OFFSET as int)
    &&& catalog::catalog_at(file, filter_count(filter), tables.len()) == (Outcome::Done {
        value: CatalogModel { filters: filter_names(filter), tables, end },
        at: end,
    })
}

/// What a file starts with is the same while only what follows it changes.
pub proof fn lemma_front_kept(
    a: Seq<u8>,
    b: Seq<u8>,
    end: int,
    page_size: int,
    filter: Option<SharedFilter>,
    tables: Seq<TableModel>,
)
    requires
        front_written(a, end, page_size, filter, tables),
        end <= b.len(),
        b.subrange(0, end) == a.subrange(0, end),
    ensures
        front_written(b, end, page_size, filter, tables),
{
    assert(amend::agree(a, b, 0, end)) by {
        assert forall|k: int| 0 <= k < end implies #[trigger] b[k] == a[k] by {
            assert(b.subrange(0, end)[k] == b[k]);
            assert(a.subrange(0, end)[k] == a[k]);
        }
    }
    lemma_catalog_kept(a, b, end, filter, tables);
    let n = PAGE_COUNT_FIELD_OFFSET as int;
    assert(a.subrange(0, n) =~= b.subrange(0, n));
}

/// The descriptors are the same while the header changes.
pub proof fn lemma_catalog_kept(
    a: Seq<u8>,
    b: Seq<u8>,
    end: int,
    filter: Option<SharedFilter>,
    tables: Seq<TableModel>,
)
    requires
        catalog::catalog_at(a, filter_count(filter), tables.len()) == (Outcome::Done {
            value: CatalogModel { filters: filter_names(filter), tables, end },
            at: end,
        }),
        amend::agree(a, b, HEADER_LEN as int, end),
    ensures
        catalog::catalog_at(b, filter_count(filter), tables.len()) == catalog::catalog_at(
            a,
            filter_count(filter),
            tables.len(),
        ),
{
    let start = HEADER_LEN as int;
    let nf = filter_count(filter);
    let at = catalog::filters_at(a, start, nf)->Done_at;
    amend::lemma_filters_span(a, start, nf);
    amend::lemma_tables_span(a, at, tables.len());
    amend::lemma_filters_same(a, b, start, nf);
    amend::lemma_tables_same(a, b, at, tables.len());
}

/// Descriptors end behind the header.
pub proof fn lemma_descriptors_behind(
    file: Seq<u8>,
    end: int,
    filter: Option<SharedFilter>,
    tables: Seq<TableModel>,
)
    requires
        catalog::catalog_at(file, filter_count(filter), tables.len()) == (Outcome::Done {
            value: CatalogModel { filters: filter_names(filter), tables, end },
            at: end,
        }),
    ensures
        HEADER_LEN <= end,
{
    let start = HEADER_LEN as int;
    let nf = filter_count(filter);
    amend::lemma_filters_span(file, start, nf);
    amend::lemma_tables_span(file, catalog::filters_at(file, start, nf)->Done_at, tables.len());
}

/// Where the roots are: behind the header, before the pages.
pub proof fn lemma_root_inside(
    file: Seq<u8>,
    end: int,
    filter: Option<SharedFilter>,
    tables: Seq<TableModel>,
    i: int,
    which: int,
)
    requires
        catalog::catalog_at(file, filter_count(filter), tables.len()) == (Outcome::Done {
            value: CatalogModel { filters: filter_names(filter), tables, end },
            at: end,
        }),
        0 <= i < tables.len(),
        0 <= which <= tables[i].secondaries.len(),
    ensures
        HEADER_LEN <= amend::root_field_of(tables[i], which),
        amend::root_field_of(tables[i], which) + 8 <= end,
{
    let start = HEADER_LEN as int;
    let nf = filter_count(filter);
    let at = catalog::filters_at(file, start, nf)->Done_at;
    amend::lemma_filters_span(file, start, nf);
    amend::lemma_root_span(file, at, tables.len(), i, which);
}

/// Fills in a root.
pub fn patch_root<T: BuildTarget, D: Scratch>(
    sink: &mut PageSink<T, D>,
    offset: u64,
    root: PageOrdinal,
    Ghost(page_size): Ghost<int>,
    Ghost(tables): Ghost<Seq<TableModel>>,
    Ghost(i): Ghost<int>,
    Ghost(which): Ghost<int>,
) -> (r: Result<(), Error>)
    requires
        old(sink).wf(),
        front_written(old(sink).file(), old(sink).base(), page_size, old(sink).filter(), tables),
        0 <= i < tables.len(),
        0 <= which <= tables[i].secondaries.len(),
        offset == amend::root_field_of(tables[i], which),
        root.get() < 0x8000_0000_0000_0000,
    ensures
        final(sink).dependable() == old(sink).dependable(),
        final(sink).filter() == old(sink).filter(),
        match r {
            Ok(_) => {
                &&& final(sink).wf()
                &&& final(sink).pages() == old(sink).pages()
                &&& final(sink).file().len() == old(sink).file().len()
                &&& final(sink).offsets() == old(sink).offsets()
                &&& final(sink).base() == old(sink).base()
                &&& front_written(
                    final(sink).file(),
                    final(sink).base(),
                    page_size,
                    final(sink).filter(),
                    tables.update(i, amend::with_root(tables[i], which, Some(root))),
                )
            },
            Err(e) => e.kind() == ErrorKind::Io && !old(sink).dependable(),
        },
{
    let ghost a = sink.file();
    let ghost end = sink.base();
    let ghost filter = sink.filter();
    proof {
        lemma_root_inside(a, end, filter, tables, i, which);
    }
    let mut patch: Vec<u8> = Vec::new();
    put_le8(&mut patch, root.get());
    sink.patch_at(offset, patch.as_slice())?;
    proof {
        let b = sink.file();
        let f = offset as int;
        let start = HEADER_LEN as int;
        assert(b.subrange(f, f + 8) =~= patch@);
        bytes::lemma_u64_read_back(b, f, root.get() as int);
        assert(amend::agree(a, b, 0, f));
        assert(amend::agree(a, b, f + 8, end));
        let nf = filter_count(filter);
        let at = catalog::filters_at(a, start, nf)->Done_at;
        amend::lemma_filters_span(a, start, nf);
        amend::lemma_tables_span(a, at, tables.len());
        amend::lemma_root_span(a, at, tables.len(), i, which);
        amend::lemma_filters_same(a, b, start, nf);
        amend::lemma_tables_patched(a, b, at, tables.len(), i, which, Some(root));
        let now = tables.update(i, amend::with_root(tables[i], which, Some(root)));
        assert forall|x: int, y: int| 0 <= x < y < now.len() implies (#[trigger] now[x]).name != (
        #[trigger] now[y]).name by {
            assert(now[x].name == tables[x].name && now[y].name == tables[y].name);
        }
        let n = PAGE_COUNT_FIELD_OFFSET as int;
        assert(b.subrange(0, n) =~= a.subrange(0, n));
    }
    Ok(())
}

/// Whether the descriptors are those of the tables asked for, with their roots where
/// `roots` says.
pub open spec fn tables_written(
    models: Seq<TableModel>,
    plans: Seq<TablePlan>,
    roots: Seq<TableRoots>,
) -> bool {
    &&& models.len() == roots.len()
    &&& models.len() <= plans.len()
    &&& forall|i: int|
        0 <= i < models.len() ==> plan::described(#[trigger] models[i], plans[i]) && roots_match(
            roots[i],
            models[i],
        )
}

/// Whether a build cannot write the descriptors of its tables.
pub open spec fn unwritable(filter: Option<SharedFilter>, tables: Seq<TablePlan>) -> bool {
    ||| tables.len() > u16::MAX
    ||| filter matches Some(f) && encode_utf8(f.inner.name()).len() > u8::MAX
    ||| exists|i: int| 0 <= i < tables.len() && undescribable(#[trigger] tables[i])
}

/// Writes the id of the page filter.
fn write_filter_id<T: BuildTarget, D: Scratch>(
    sink: &mut PageSink<T, D>,
    filter: &Option<SharedFilter>,
) -> (r: Result<(), Error>)
    requires
        old(sink).wf(),
    ensures
        final(sink).dependable() == old(sink).dependable(),
        final(sink).filter() == old(sink).filter(),
        match r {
            Ok(_) => {
                &&& appended(old(sink), final(sink))
                &&& longer(old(sink), final(sink), DESCRIPTOR_SPAN as int)
                &&& filter matches Some(f) ==> encode_utf8(f.inner.name()).len() <= u8::MAX
                &&& catalog::filters_at(
                    final(sink).file(),
                    old(sink).file().len() as int,
                    filter_count(*filter),
                ) == (Outcome::Done {
                    value: filter_names(*filter),
                    at: final(sink).file().len() as int,
                })
            },
            Err(e) => front_failure(old(sink), DESCRIPTOR_SPAN as int, e) || e.kind()
                == ErrorKind::InvalidArgument && (filter matches Some(f) && encode_utf8(
                f.inner.name(),
            ).len() > u8::MAX),
        },
{
    let ghost pos = sink.file().len() as int;
    let ghost before = sink.file();
    match filter {
        None => {
            proof {
                assert(sink.file() =~= sink.file().subrange(0, pos));
            }
            Ok(())
        },
        Some(f) => {
            let id = f.inner.id().as_bytes();
            if id.len() > 0xFF {
                return Err(Error::invalid("page filter ids must be at most 255 bytes"));
            }
            let mut length: Vec<u8> = Vec::new();
            length.push(id.len() as u8);
            sink.write_raw(length.as_slice())?;
            sink.write_raw(id)?;
            proof {
                let s = sink.file();
                let name = f.inner.name();
                assert(s.subrange(0, pos) =~= before);
                assert(s.subrange(pos + 1, pos + 1 + id@.len()) =~= id@);
                encode_utf8_valid_utf8(name);
                encode_utf8_decode_utf8(name);
                assert(s[pos] == id@.len());
                assert(catalog::filters_at(s, pos, 0) == (Outcome::Done {
                    value: Seq::<Seq<char>>::empty(),
                    at: pos,
                }));
                assert(Seq::<Seq<char>>::empty().push(name) =~= seq![name]);
                assert(catalog::filters_at(s, pos, 1) == (Outcome::Done {
                    value: seq![name],
                    at: s.len() as int,
                }));
            }
            Ok(())
        },
    }
}

/// Writes the descriptors of every table.
fn write_tables<T: BuildTarget, D: Scratch, S: Scratch>(
    sink: &mut PageSink<T, D>,
    tables: &Vec<TableSpec<S>>,
) -> (r: Result<Vec<TableRoots>, Error>)
    requires
        old(sink).wf(),
        forall|i: int| 0 <= i < tables@.len() ==> (#[trigger] tables@[i]).wf(),
    ensures
        final(sink).dependable() == old(sink).dependable(),
        final(sink).filter() == old(sink).filter(),
        match r {
            Ok(roots) => {
                &&& appended(old(sink), final(sink))
                &&& longer(old(sink), final(sink), TABLE_SPAN * tables@.len())
                &&& forall|i: int| 0 <= i < tables@.len() ==> !undescribable(#[trigger] tables@[i]@)
                &&& catalog::tables_at(
                    final(sink).file(),
                    old(sink).file().len() as int,
                    tables@.len(),
                ) matches Outcome::Done { value, at } && at == final(sink).file().len()
                    && value.len() == tables@.len() && tables_written(
                    value,
                    plan::table_plans(tables@),
                    roots@,
                )
            },
            Err(e) => front_failure(old(sink), TABLE_SPAN * tables@.len(), e) || e.kind()
                == ErrorKind::InvalidArgument && exists|i: int|
                0 <= i < tables@.len() && undescribable(#[trigger] tables@[i]@),
        },
{
    let ghost first = *sink;
    let ghost pos = sink.file().len() as int;
    let mut roots: Vec<TableRoots> = Vec::new();
    let ghost mut models = Seq::<TableModel>::empty();
    let mut i: usize = 0;
    proof {
        assert(sink.file() =~= sink.file().subrange(0, pos));
    }
    while i < tables.len()
        invariant
            i <= tables@.len(),
            pos == first.file().len(),
            *old(sink) == first,
            sink.wf(),
            sink.dependable() == first.dependable(),
            sink.filter() == first.filter(),
            appended(&first, sink),
            longer(&first, sink, TABLE_SPAN * i),
            models.len() == i,
            forall|j: int| 0 <= j < tables@.len() ==> (#[trigger] tables@[j]).wf(),
            forall|j: int| 0 <= j < i ==> !undescribable(#[trigger] tables@[j]@),
            catalog::tables_at(sink.file(), pos, i as nat) == (Outcome::Done {
                value: models,
                at: sink.file().len() as int,
            }),
            tables_written(models, plan::table_plans(tables@), roots@),
        decreases tables@.len() - i,
    {
        let ghost before = *sink;
        let table_roots = match write_table_descriptor(sink, &tables[i]) {
            Ok(table_roots) => table_roots,
            Err(e) => return Err(e),
        };
        let ghost m = catalog::table_at(sink.file(), before.file().len() as int)->Done_value;
        let ghost was = models;
        let ghost were = roots@;
        roots.push(table_roots);
        proof {
            lemma_appended(&before, sink, pos);
            amend::lemma_tables_same(before.file(), sink.file(), pos, i as nat);
            models = models.push(m);
            lemma_appended_twice(&first, &before, sink);
            assert(plan::table_plans(tables@)[i as int] == tables@[i as int]@);
            assert forall|j: int| 0 <= j < models.len() implies plan::described(
                #[trigger] models[j],
                plan::table_plans(tables@)[j],
            ) && roots_match(roots@[j], models[j]) by {
                if j < i {
                    assert(models[j] == was[j] && roots@[j] == were[j]);
                }
            }
        }
        i += 1;
    }
    Ok(roots)
}

/// Writes everything that comes before the pages: the header, the filter id and the
/// descriptors, with a placeholder for every root.
pub fn write_front<T: BuildTarget, D: Scratch, S: Scratch>(
    sink: &mut PageSink<T, D>,
    page_size: usize,
    filter: &Option<SharedFilter>,
    tables: &Vec<TableSpec<S>>,
) -> (r: Result<Vec<TableRoots>, Error>)
    requires
        old(sink).wf(),
        old(sink).file().len() == 0,
        old(sink).pages().len() == 0,
        *filter == old(sink).filter(),
        forall|i: int| 0 <= i < tables@.len() ==> (#[trigger] tables@[i]).wf(),
        plan::tables_apart(plan::table_plans(tables@)),
    ensures
        final(sink).dependable() == old(sink).dependable(),
        final(sink).filter() == old(sink).filter(),
        match r {
            Ok(roots) => {
                &&& !unwritable(*filter, plan::table_plans(tables@))
                &&& final(sink).wf()
                &&& final(sink).pages().len() == 0
                &&& final(sink).file().len() <= FRONT_SPAN
                &&& final(sink).base() == final(sink).file().len()
                &&& exists|models: Seq<TableModel>|
                    models.len() == tables@.len() && #[trigger] front_written(
                        final(sink).file(),
                        final(sink).base(),
                        page_size as int,
                        *filter,
                        models,
                    ) && tables_written(models, plan::table_plans(tables@), roots@)
            },
            Err(e) => e.kind() == ErrorKind::Io && !old(sink).dependable() || e.kind()
                == ErrorKind::InvalidArgument && unwritable(*filter, plan::table_plans(tables@)),
        },
{
    let ghost plans = plan::table_plans(tables@);
    if tables.len() > 0xFFFF {
        return Err(Error::invalid("more than 65535 tables"));
    }
    let header = Header {
        major_version: MAJOR_VERSION,
        minor_version: MINOR_VERSION,
        page_filter_count: if filter.is_some() {
            1
        } else {
            0
        },
        page_size,
        table_count: tables.len() as u16,
        page_count: 0,
        page_directory_position: FileOffset::new(0),
    };
    let head = header.encode();
    sink.write_raw(head.as_slice())?;
    let ghost s1 = *sink;
    match write_filter_id(sink, filter) {
        Ok(_) => {},
        Err(e) => return Err(e),
    }
    let ghost s2 = *sink;
    let roots = match write_tables(sink, tables) {
        Ok(roots) => roots,
        Err(e) => {
            proof {
                if e.kind() == ErrorKind::InvalidArgument {
                    let i = choose|i: int|
                        0 <= i < tables@.len() && undescribable(#[trigger] tables@[i]@);
                    assert(plans[i] == tables@[i]@);
                }
            }
            return Err(e);
        },
    };
    proof {
        let f = sink.file();
        let start = HEADER_LEN as int;
        let at = s2.file().len() as int;
        let nf = filter_count(*filter);
        let models = catalog::tables_at(f, at, tables@.len())->Done_value;
        assert(s1.file() =~= header.bytes());
        lemma_appended(&s2, sink, start);
        amend::lemma_filters_same(s2.file(), f, start, nf);
        assert forall|i: int, j: int| 0 <= i < j < models.len() implies (#[trigger] models[i]).name
            != (#[trigger] models[j]).name by {
            assert(plans[i].name != plans[j].name);
        }
        lemma_appended_twice(&s1, &s2, sink);
        let n = PAGE_COUNT_FIELD_OFFSET as int;
        assert(f.subrange(0, n) =~= s1.file().subrange(0, n)) by {
            lemma_appended(&s1, sink, 0);
        }
        assert(header == header_for(page_size as int, nf as int, tables@.len() as int, 0, 0));
        assert(front_written(f, f.len() as int, page_size as int, *filter, models));
        assert forall|i: int| 0 <= i < plans.len() implies !undescribable(#[trigger] plans[i]) by {
            assert(plans[i] == tables@[i]@);
        }
    }
    sink.begin_pages();
    Ok(roots)
}

} // verus!
