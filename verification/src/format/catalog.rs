//! Filter ids, table descriptors and index descriptors.
//!
//! ```text
//! PageFilter[n]   name_length(u8) name(utf8)
//! Table[n]        name_length(i32) name(utf8)
//!                 IndexDescriptor  (primary key)
//!                 index_count(u16)
//!                 IndexDescriptor[index_count]  (secondary keys)
//! IndexDescriptor name_length(u16) encoding_id_length(u16)
//!                 name(utf8) encoding_id(utf8)
//!                 is_unique(u8) value_kind(u8) root_ordinal(i64, back-patched)
//! ```

use std::sync::Arc;

use vstd::prelude::*;
use vstd::slice::*;
use vstd::string::*;
use vstd::utf8::*;

use super::bytes::{self, put_i64, put_le2, put_slice, read_i32, read_i64, read_u16, read_u8};
use super::{FileOffset, PageOrdinal, HEADER_LEN};
use crate::budget::{self, Budget, Charge, BUFFER_OVERHEAD};
use crate::error::{Error, ErrorKind, Words};
use crate::text::utf8_text;

verus! {

broadcast use super::group_format;

/// What an index stores in the value position of its tree.
#[derive(Debug, Clone, Copy, PartialEq, Eq, Structural)]
pub enum ValueKind {
    /// The record value itself (primary key trees).
    RawData,
    /// The primary key of the record.
    PrimaryKey,
    /// A reference to the record value.
    PageRef,
}

impl ValueKind {
    /// The kind's name.
    pub(crate) fn name(self) -> (r: &'static str)
        ensures
            r@ == (match self {
                ValueKind::RawData => "RawData"@,
                ValueKind::PrimaryKey => "PrimaryKey"@,
                ValueKind::PageRef => "PageRef"@,
            }),
    {
        match self {
            ValueKind::RawData => "RawData",
            ValueKind::PrimaryKey => "PrimaryKey",
            ValueKind::PageRef => "PageRef",
        }
    }
}

/// The value kind a number stands for.
pub open spec fn value_kind_of(v: int) -> Option<ValueKind> {
    if v == 0 {
        Some(ValueKind::RawData)
    } else if v == 1 {
        Some(ValueKind::PrimaryKey)
    } else if v == 2 {
        Some(ValueKind::PageRef)
    } else {
        None
    }
}

impl ValueKind {
    fn from_u8(v: u8) -> (r: Result<ValueKind, Error>)
        ensures
            match r {
                Ok(k) => value_kind_of(v as int) == Some(k),
                Err(e) => value_kind_of(v as int) is None && e.kind()
                    == ErrorKind::UnsupportedFormat,
            },
    {
        if v == 0 {
            Ok(ValueKind::RawData)
        } else if v == 1 {
            Ok(ValueKind::PrimaryKey)
        } else if v == 2 {
            Ok(ValueKind::PageRef)
        } else {
            Err(
                Error::from_text(
                    ErrorKind::UnsupportedFormat,
                    crate::error::message_with("unknown value kind ", v as u64, ""),
                ),
            )
        }
    }

    /// On-disk discriminant.
    pub fn to_u8(self) -> (r: u8)
        ensures
            value_kind_of(r as int) == Some(self),
    {
        match self {
            ValueKind::RawData => 0,
            ValueKind::PrimaryKey => 1,
            ValueKind::PageRef => 2,
        }
    }
}

/// What an index descriptor says.
pub struct IndexModel {
    pub name: Seq<char>,
    pub is_unique: bool,
    pub encoding: Seq<char>,
    pub value_kind: ValueKind,
    pub root: Option<PageOrdinal>,
    pub root_field: int,
}

/// What a table descriptor says.
pub struct TableModel {
    pub name: Seq<char>,
    pub primary: IndexModel,
    pub secondaries: Seq<IndexModel>,
}

/// What the descriptor section says.
pub struct CatalogModel {
    pub filters: Seq<Seq<char>>,
    pub tables: Seq<TableModel>,
    pub end: int,
}

/// What reading something off a prefix of a file comes to.
pub enum Outcome<T> {
    /// It is there, and ends at `at`.
    Done { value: T, at: int },
    /// It is cut off; at least this many bytes are needed in total.
    Short { need: int },
    /// It cannot be right.
    Bad { kind: ErrorKind },
}

impl<T> Outcome<T> {
    /// The same shortfall, of something else.
    pub open spec fn cast<U>(self) -> Outcome<U> {
        match self {
            Outcome::Short { need } => Outcome::Short { need },
            Outcome::Bad { kind } => Outcome::Bad { kind },
            Outcome::Done { at, .. } => Outcome::Short { need: at },
        }
    }
}

/// Text of a known length.
pub open spec fn text_at(s: Seq<u8>, pos: int, len: int) -> Outcome<Seq<char>> {
    if pos + len > s.len() {
        Outcome::Short { need: pos + len }
    } else if !valid_utf8(s.subrange(pos, pos + len)) {
        Outcome::Bad { kind: ErrorKind::CorruptData }
    } else {
        Outcome::Done { value: decode_utf8(s.subrange(pos, pos + len)), at: pos + len }
    }
}

/// An index descriptor.
pub open spec fn index_at(s: Seq<u8>, pos: int) -> Outcome<IndexModel> {
    if pos + 4 > s.len() {
        Outcome::Short { need: pos + 4 }
    } else {
        match text_at(s, pos + 4, bytes::u16_at(s, pos)) {
            Outcome::Done { value: name, at } => match text_at(s, at, bytes::u16_at(s, pos + 2)) {
                Outcome::Done { value: encoding, at } => tail_at(s, at, name, encoding),
                other => other.cast(),
            },
            other => other.cast(),
        }
    }
}

/// What follows the texts of an index descriptor.
pub open spec fn tail_at(s: Seq<u8>, pos: int, name: Seq<char>, encoding: Seq<char>) -> Outcome<
    IndexModel,
> {
    if pos + 10 > s.len() {
        Outcome::Short { need: pos + 10 }
    } else if s[pos] > 1 {
        Outcome::Bad { kind: ErrorKind::CorruptData }
    } else {
        match value_kind_of(s[pos + 1] as int) {
            None => Outcome::Bad { kind: ErrorKind::UnsupportedFormat },
            Some(value_kind) => match super::ordinal_of(bytes::i64_at(s, pos + 2)) {
                None => Outcome::Bad { kind: ErrorKind::CorruptData },
                Some(root) => Outcome::Done {
                    value: IndexModel {
                        name,
                        is_unique: s[pos] == 1,
                        encoding,
                        value_kind,
                        root,
                        root_field: pos + 2,
                    },
                    at: pos + 10,
                },
            },
        }
    }
}

/// The first `n` index descriptors.
pub open spec fn indexes_at(s: Seq<u8>, pos: int, n: nat) -> Outcome<Seq<IndexModel>>
    decreases n,
{
    if n == 0 {
        Outcome::Done { value: Seq::empty(), at: pos }
    } else {
        match indexes_at(s, pos, (n - 1) as nat) {
            Outcome::Done { value: before, at } => match index_at(s, at) {
                Outcome::Done { value, at } => Outcome::Done { value: before.push(value), at },
                other => other.cast(),
            },
            other => other,
        }
    }
}

/// Whether no two indexes have the same name.
pub open spec fn index_names_apart(l: Seq<IndexModel>) -> bool {
    forall|i: int, j: int|
        0 <= i < j < l.len() ==> (#[trigger] l[i]).name != (#[trigger] l[j]).name
}

/// Whether no two tables have the same name.
pub open spec fn table_names_apart(l: Seq<TableModel>) -> bool {
    forall|i: int, j: int|
        0 <= i < j < l.len() ==> (#[trigger] l[i]).name != (#[trigger] l[j]).name
}

/// A table descriptor. A name stands for one of its indexes, the primary one among them.
pub open spec fn table_at(s: Seq<u8>, pos: int) -> Outcome<TableModel> {
    if pos + 4 > s.len() {
        Outcome::Short { need: pos + 4 }
    } else if bytes::i32_at(s, pos) < 0 {
        Outcome::Bad { kind: ErrorKind::CorruptData }
    } else {
        match text_at(s, pos + 4, bytes::i32_at(s, pos)) {
            Outcome::Done { value: name, at } => match index_at(s, at) {
                Outcome::Done { value: primary, at } => if at + 2 > s.len() {
                    Outcome::Short { need: at + 2 }
                } else {
                    match indexes_at(s, at + 2, bytes::u16_at(s, at) as nat) {
                        Outcome::Done { value: secondaries, at } => if index_names_apart(
                            seq![primary] + secondaries,
                        ) {
                            Outcome::Done { value: TableModel { name, primary, secondaries }, at }
                        } else {
                            Outcome::Bad { kind: ErrorKind::CorruptData }
                        },
                        other => other.cast(),
                    }
                },
                other => other.cast(),
            },
            other => other.cast(),
        }
    }
}

/// The first `n` table descriptors.
pub open spec fn tables_at(s: Seq<u8>, pos: int, n: nat) -> Outcome<Seq<TableModel>>
    decreases n,
{
    if n == 0 {
        Outcome::Done { value: Seq::empty(), at: pos }
    } else {
        match tables_at(s, pos, (n - 1) as nat) {
            Outcome::Done { value: before, at } => match table_at(s, at) {
                Outcome::Done { value, at } => Outcome::Done { value: before.push(value), at },
                other => other.cast(),
            },
            other => other,
        }
    }
}

/// A page filter id.
pub open spec fn filter_at(s: Seq<u8>, pos: int) -> Outcome<Seq<char>> {
    if pos + 1 > s.len() {
        Outcome::Short { need: pos + 1 }
    } else {
        text_at(s, pos + 1, s[pos] as int)
    }
}

/// The first `n` page filter ids.
pub open spec fn filters_at(s: Seq<u8>, pos: int, n: nat) -> Outcome<Seq<Seq<char>>>
    decreases n,
{
    if n == 0 {
        Outcome::Done { value: Seq::empty(), at: pos }
    } else {
        match filters_at(s, pos, (n - 1) as nat) {
            Outcome::Done { value: before, at } => match filter_at(s, at) {
                Outcome::Done { value, at } => Outcome::Done { value: before.push(value), at },
                other => other.cast(),
            },
            other => other,
        }
    }
}

/// The descriptor section of a file with this many filters and tables.
pub open spec fn catalog_at(s: Seq<u8>, filters: nat, tables: nat) -> Outcome<CatalogModel> {
    match filters_at(s, HEADER_LEN as int, filters) {
        Outcome::Done { value: filters, at } => match tables_at(s, at, tables) {
            Outcome::Done { value: tables, at } => if table_names_apart(tables) {
                Outcome::Done { value: CatalogModel { filters, tables, end: at }, at }
            } else {
                Outcome::Bad { kind: ErrorKind::CorruptData }
            },
            other => other.cast(),
        },
        other => other.cast(),
    }
}

/// A list that stops short stops there whatever follows.
proof fn lemma_indexes_stuck(s: Seq<u8>, pos: int, a: nat, b: nat)
    requires
        a <= b,
        !(indexes_at(s, pos, a) is Done),
    ensures
        indexes_at(s, pos, b) == indexes_at(s, pos, a),
    decreases b,
{
    if a < b {
        lemma_indexes_stuck(s, pos, a, (b - 1) as nat);
    }
}

proof fn lemma_tables_stuck(s: Seq<u8>, pos: int, a: nat, b: nat)
    requires
        a <= b,
        !(tables_at(s, pos, a) is Done),
    ensures
        tables_at(s, pos, b) == tables_at(s, pos, a),
    decreases b,
{
    if a < b {
        lemma_tables_stuck(s, pos, a, (b - 1) as nat);
    }
}

proof fn lemma_filters_stuck(s: Seq<u8>, pos: int, a: nat, b: nat)
    requires
        a <= b,
        !(filters_at(s, pos, a) is Done),
    ensures
        filters_at(s, pos, b) == filters_at(s, pos, a),
    decreases b,
{
    if a < b {
        lemma_filters_stuck(s, pos, a, (b - 1) as nat);
    }
}

/// One B+Tree inside a table.
#[derive(Debug, PartialEq, Eq)]
pub struct IndexDescriptor {
    /// Index name, unique within the table.
    pub name: String,
    /// Whether the tree rejects duplicate keys. Non-unique trees store `(key, rid)`
    /// composite keys.
    pub is_unique: bool,
    /// Registered id of the key encoding, e.g. `i64` or `ascii`.
    pub key_encoding_id: String,
    /// What the tree stores as its value.
    pub value_kind: ValueKind,
    /// Root page, or `None` for a tree that was left empty.
    pub root: Option<PageOrdinal>,
    /// File offset of the back-patched root field. Used by the builder, and by
    /// `inspect` tooling.
    pub root_field_offset: u64,
}

impl View for IndexDescriptor {
    type V = IndexModel;

    open spec fn view(&self) -> IndexModel {
        IndexModel {
            name: self.name@,
            is_unique: self.is_unique,
            encoding: self.key_encoding_id@,
            value_kind: self.value_kind,
            root: self.root,
            root_field: self.root_field_offset as int,
        }
    }
}

impl Clone for IndexDescriptor {
    fn clone(&self) -> (r: Self)
        ensures
            r == *self,
    {
        IndexDescriptor {
            name: self.name.clone(),
            is_unique: self.is_unique,
            key_encoding_id: self.key_encoding_id.clone(),
            value_kind: self.value_kind,
            root: self.root,
            root_field_offset: self.root_field_offset,
        }
    }
}

/// One table: a primary key tree plus zero or more secondary index trees.
#[derive(Debug, PartialEq, Eq)]
pub struct TableDescriptor {
    /// Table name.
    pub name: String,
    /// Primary key tree.
    pub primary: IndexDescriptor,
    /// Secondary index trees, in descriptor order.
    pub secondaries: Vec<IndexDescriptor>,
}

/// What a list of index descriptors says.
pub open spec fn index_models(l: Seq<IndexDescriptor>) -> Seq<IndexModel> {
    Seq::new(l.len(), |i: int| l[i]@)
}

/// What a list of table descriptors says.
pub open spec fn table_models(l: Seq<TableDescriptor>) -> Seq<TableModel> {
    Seq::new(l.len(), |i: int| l[i]@)
}

/// The texts of a list.
pub open spec fn texts(l: Seq<String>) -> Seq<Seq<char>> {
    Seq::new(l.len(), |i: int| l[i]@)
}

impl View for TableDescriptor {
    type V = TableModel;

    open spec fn view(&self) -> TableModel {
        TableModel {
            name: self.name@,
            primary: self.primary@,
            secondaries: index_models(self.secondaries@),
        }
    }
}

impl Clone for TableDescriptor {
    fn clone(&self) -> (r: Self)
        ensures
            r.name == self.name,
            r.primary == self.primary,
            r.secondaries@ == self.secondaries@,
            r@ == self@,
    {
        let mut secondaries: Vec<IndexDescriptor> = Vec::new();
        let mut i: usize = 0;
        while i < self.secondaries.len()
            invariant
                i <= self.secondaries@.len(),
                secondaries@ == self.secondaries@.subrange(0, i as int),
            decreases self.secondaries@.len() - i,
        {
            secondaries.push(self.secondaries[i].clone());
            i += 1;
            proof {
                assert(secondaries@ =~= self.secondaries@.subrange(0, i as int));
            }
        }
        proof {
            assert(secondaries@ =~= self.secondaries@);
        }
        TableDescriptor { name: self.name.clone(), primary: self.primary.clone(), secondaries }
    }
}

/// How much of a name an error message shows.
pub const DESCRIBE_NAME_BYTES: usize = 48;

/// Renders a name for an error message, bounded.
///
/// Used for names that come out of a file and for names that come from a caller: both are
/// as long as someone else decided, and neither is worth the memory to render whole.
pub(crate) fn describe_name(name: &str) -> (r: String)
    ensures
        name.spec_bytes().len() <= DESCRIBE_NAME_BYTES ==> r@ == name@,
{
    let bytes = name.as_bytes();
    if bytes.len() <= DESCRIBE_NAME_BYTES {
        return name.to_owned();
    }
    let mut cut: usize = DESCRIBE_NAME_BYTES;
    while cut > 0
        invariant
            cut <= bytes@.len(),
            bytes@ == name.spec_bytes(),
            bytes@.len() > DESCRIBE_NAME_BYTES,
        decreases cut,
    {
        if let Some(front) = utf8_text(vstd::slice::slice_subrange(bytes, 0, cut)) {
            let mut out = front;
            out.append("... (");
            crate::error::push_decimal(&mut out, bytes.len() as u64);
            out.append(" bytes)");
            return out;
        }
        cut -= 1;
    }
    crate::error::message_with("... (", bytes.len() as u64, " bytes)")
}

impl TableDescriptor {
    /// Looks a secondary index up by name.
    pub fn secondary(&self, name: &str) -> (r: Option<&IndexDescriptor>)
        ensures
            match r {
                Some(d) => d.name@ == name@ && self.secondaries@.contains(*d),
                None => forall|i: int|
                    0 <= i < self.secondaries@.len() ==> (#[trigger] self.secondaries@[i]).name@
                        != name@,
            },
    {
        let wanted = name.to_owned();
        let mut i: usize = 0;
        while i < self.secondaries.len()
            invariant
                i <= self.secondaries@.len(),
                wanted@ == name@,
                forall|j: int|
                    0 <= j < i ==> (#[trigger] self.secondaries@[j]).name@ != name@,
            decreases self.secondaries@.len() - i,
        {
            if self.secondaries[i].name == wanted {
                return Some(&self.secondaries[i]);
            }
            i += 1;
        }
        None
    }
}

/// Everything the header section describes.
#[derive(Debug, PartialEq, Eq)]
pub struct Catalog {
    /// Page size recorded in the header.
    pub page_size: usize,
    /// Number of page directory slots.
    pub page_count: u64,
    /// Offset of the page directory section.
    pub directory_position: FileOffset,
    /// Page filter ids, in the order the builder applied them on encode.
    pub filters: Vec<String>,
    /// Table descriptors, in file order.
    pub tables: Vec<TableDescriptor>,
    /// Offset just past the last descriptor, i.e. where the first page starts.
    pub descriptor_end: u64,
}

impl View for Catalog {
    type V = CatalogModel;

    open spec fn view(&self) -> CatalogModel {
        CatalogModel {
            filters: texts(self.filters@),
            tables: table_models(self.tables@),
            end: self.descriptor_end as int,
        }
    }
}

impl Catalog {
    /// Looks a table up by name.
    pub fn table(&self, name: &str) -> (r: Option<&TableDescriptor>)
        ensures
            match r {
                Some(d) => d.name@ == name@ && self.tables@.contains(*d),
                None => forall|i: int|
                    0 <= i < self.tables@.len() ==> (#[trigger] self.tables@[i]).name@ != name@,
            },
    {
        let wanted = name.to_owned();
        let mut i: usize = 0;
        while i < self.tables.len()
            invariant
                i <= self.tables@.len(),
                wanted@ == name@,
                forall|j: int| 0 <= j < i ==> (#[trigger] self.tables@[j]).name@ != name@,
            decreases self.tables@.len() - i,
        {
            if self.tables[i].name == wanted {
                return Some(&self.tables[i]);
            }
            i += 1;
        }
        None
    }
}

/// Outcome of a catalog parse over a prefix of the file.
#[derive(Debug)]
pub enum CatalogParse {
    /// The prefix contained the whole catalog.
    Complete(Box<Catalog>),
    /// More bytes are needed; at least this many in total.
    NeedMore(usize),
}

/// The memory one name in a growing list may hold.
///
/// A list doubles, so a live element can occupy twice its size, and during a growth the
/// old array and the new one exist at the same time. Three times the element size covers
/// both, and one allocation header is added per element rather than per array, which is
/// an over-count that keeps the arithmetic local.
pub const STRING_SLOT_COST: u64 = 264;

/// The memory one index descriptor in a growing list may hold.
pub const INDEX_SLOT_COST: u64 = 456;

/// The memory one table descriptor in a growing list may hold.
pub const TABLE_SLOT_COST: u64 = 600;

/// What the catalog itself costs.
pub const CATALOG_COST: u64 = 304;

/// Whether reading descriptors off this many bytes may ask for so much memory at once: for a
/// slot of a list, for a name of theirs, or for the catalog itself.
pub open spec fn wants(room: int, n: u64) -> bool {
    ||| n == STRING_SLOT_COST
    ||| n == INDEX_SLOT_COST
    ||| n == TABLE_SLOT_COST
    ||| n == CATALOG_COST
    ||| exists|len: int| 0 <= len <= room && n == #[trigger] budget::capped(len + BUFFER_OVERHEAD)
}

/// Whether an error is that of descriptors for which the budget had no room.
pub open spec fn starved(budget: Arc<Budget>, room: int, e: Error) -> bool {
    exists|n: u64| #[trigger] budget.asked(n, Err::<(), Error>(e)) && wants(room, n)
}

/// What a text of a descriptor costs.
pub open spec fn text_price(t: Seq<char>) -> int {
    encode_utf8(t).len() + BUFFER_OVERHEAD
}

/// What the texts of an index descriptor cost.
pub open spec fn index_price(d: IndexModel) -> int {
    text_price(d.name) + text_price(d.encoding)
}

/// What a list of index descriptors costs: a slot for each, and its texts.
pub open spec fn indexes_price(l: Seq<IndexModel>) -> int
    decreases l.len(),
{
    if l.len() == 0 {
        0
    } else {
        indexes_price(l.drop_last()) + INDEX_SLOT_COST + index_price(l.last())
    }
}

/// What a table descriptor costs: its slot, its texts and those of its primary index, and the
/// list of its secondary indexes.
pub open spec fn table_price(t: TableModel) -> int {
    TABLE_SLOT_COST + text_price(t.name) + index_price(t.primary) + indexes_price(t.secondaries)
}

/// What a list of table descriptors costs.
pub open spec fn tables_price(l: Seq<TableModel>) -> int
    decreases l.len(),
{
    if l.len() == 0 {
        0
    } else {
        tables_price(l.drop_last()) + table_price(l.last())
    }
}

/// What a list of page filter ids costs: a slot for each, and its text.
pub open spec fn filters_price(l: Seq<Seq<char>>) -> int
    decreases l.len(),
{
    if l.len() == 0 {
        0
    } else {
        filters_price(l.drop_last()) + STRING_SLOT_COST + text_price(l.last())
    }
}

/// What a catalog costs: its filter ids, its tables, and the catalog itself.
pub open spec fn catalog_price(c: CatalogModel) -> int {
    filters_price(c.filters) + tables_price(c.tables) + CATALOG_COST
}

proof fn lemma_indexes_price(l: Seq<IndexModel>)
    ensures
        indexes_price(l) >= 0,
    decreases l.len(),
{
    if l.len() > 0 {
        lemma_indexes_price(l.drop_last());
    }
}

proof fn lemma_tables_price(l: Seq<TableModel>)
    ensures
        tables_price(l) >= 0,
    decreases l.len(),
{
    if l.len() > 0 {
        lemma_tables_price(l.drop_last());
        lemma_indexes_price(l.last().secondaries);
    }
}

proof fn lemma_filters_price(l: Seq<Seq<char>>)
    ensures
        filters_price(l) >= 0,
    decreases l.len(),
{
    if l.len() > 0 {
        lemma_filters_price(l.drop_last());
    }
}

/// A catalog costs something.
pub proof fn lemma_catalog_price(c: CatalogModel)
    ensures
        catalog_price(c) >= CATALOG_COST,
{
    lemma_filters_price(c.filters);
    lemma_tables_price(c.tables);
}

/// Whether a charge was put up by this much.
pub open spec fn put_up(a: &Charge, b: &Charge, by: int) -> bool {
    b.spec_bytes() == budget::capped(a.spec_bytes() + by)
}

/// Reserves what a `String` of `len` bytes costs before it is built.
fn charge_string(charge: &mut Charge, len: usize) -> (r: Result<(), Error>)
    ensures
        final(charge).owner() == old(charge).owner(),
        r is Ok ==> put_up(old(charge), final(charge), len + BUFFER_OVERHEAD),
        r matches Err(e) ==> starved(old(charge).owner(), len as int, e),
{
    let wanted = (len as u64).saturating_add(BUFFER_OVERHEAD);
    let r = charge.grow(wanted);
    proof {
        assert(wanted == budget::capped(len as int + BUFFER_OVERHEAD));
        assert(wants(len as int, wanted));
    }
    r
}

/// Something read, or how many bytes are needed for it.
enum Read<T> {
    Got(T),
    Need(usize),
}

/// A number of bytes, or as many as there can be.
pub open spec fn needed(need: int) -> int {
    if need <= usize::MAX {
        need
    } else {
        usize::MAX as int
    }
}

/// Whether reading gave what is there.
spec fn agrees<T, M>(
    budget: Arc<Budget>,
    room: int,
    r: Result<Read<(T, usize)>, Error>,
    model: Outcome<M>,
    value: spec_fn(T) -> M,
) -> bool {
    match r {
        Ok(Read::Got((t, at))) => model == (Outcome::Done { value: value(t), at: at as int }),
        Ok(Read::Need(n)) => model matches Outcome::Short { need } && n == needed(need),
        Err(e) => starved(budget, room, e) || model == (Outcome::<M>::Bad {
            kind: e.kind(),
        }),
    }
}

/// Where something of a known length ends, or how many bytes are needed for it.
fn take(buf: &[u8], pos: usize, len: usize) -> (r: Read<usize>)
    requires
        pos <= buf@.len(),
    ensures
        match r {
            Read::Got(end) => end == pos + len && end <= buf@.len(),
            Read::Need(n) => n == needed(pos + len) && pos + len > buf@.len(),
        },
{
    let held = buf.len();
    match pos.checked_add(len) {
        Some(end) => if end <= held {
            Read::Got(end)
        } else {
            Read::Need(end)
        },
        None => Read::Need(usize::MAX),
    }
}

/// Reads a text of a known length.
fn read_text(buf: &[u8], pos: usize, len: usize, what: &str, charge: &mut Charge) -> (r: Result<
    Read<(String, usize)>,
    Error,
>)
    requires
        pos <= buf@.len(),
    ensures
        final(charge).owner() == old(charge).owner(),
        agrees(old(charge).owner(), buf@.len() as int, r, text_at(buf@, pos as int, len as int), |t: String| t@),
        r matches Ok(Read::Got((t, at))) ==> at <= buf@.len() && put_up(
            old(charge),
            final(charge),
            text_price(t@),
        ),
{
    let end = match take(buf, pos, len) {
        Read::Got(end) => end,
        Read::Need(n) => return Ok(Read::Need(n)),
    };
    charge_string(charge, len)?;
    match utf8_text(slice_subrange(buf, pos, end)) {
        Some(text) => {
            proof {
                decode_utf8_encode_utf8(buf@.subrange(pos as int, end as int));
            }
            Ok(Read::Got((text, end)))
        },
        None => Err(Error::corrupt_words(Words::new(what).say(" is not valid UTF-8"))),
    }
}

/// Reads an index descriptor.
fn read_index_descriptor(buf: &[u8], pos: usize, charge: &mut Charge) -> (r: Result<
    Read<(IndexDescriptor, usize)>,
    Error,
>)
    requires
        pos <= buf@.len(),
    ensures
        final(charge).owner() == old(charge).owner(),
        agrees(old(charge).owner(), buf@.len() as int, r, index_at(buf@, pos as int), |d: IndexDescriptor| d@),
        r matches Ok(Read::Got((d, at))) ==> at <= buf@.len() && put_up(
            old(charge),
            final(charge),
            index_price(d@),
        ),
{
    let head = match take(buf, pos, 4) {
        Read::Got(end) => end,
        Read::Need(n) => return Ok(Read::Need(n)),
    };
    let name_len = read_u16(buf, pos)? as usize;
    let encoding_len = read_u16(buf, pos + 2)? as usize;
    let (name, at) = match read_text(buf, head, name_len, "index name", charge)? {
        Read::Got(got) => got,
        Read::Need(n) => return Ok(Read::Need(n)),
    };
    let (key_encoding_id, at) = match read_text(buf, at, encoding_len, "key encoding id", charge)? {
        Read::Got(got) => got,
        Read::Need(n) => return Ok(Read::Need(n)),
    };
    let end = match take(buf, at, 10) {
        Read::Got(end) => end,
        Read::Need(n) => return Ok(Read::Need(n)),
    };
    let unique = read_u8(buf, at)?;
    if unique > 1 {
        return Err(
            Error::corrupt_words(
                Words::new("index `")
                    .say(describe_name(name.as_str()).as_str())
                    .say("` has is_unique = ")
                    .number(unique as u64)
                    .say(", expected 0 or 1"),
            ),
        );
    }
    let value_kind = ValueKind::from_u8(read_u8(buf, at + 1)?)?;
    let root = PageOrdinal::from_i64(read_i64(buf, at + 2)?)?;
    Ok(
        Read::Got(
            (
                IndexDescriptor {
                    name,
                    is_unique: unique == 1,
                    key_encoding_id,
                    value_kind,
                    root,
                    root_field_offset: (at + 2) as u64,
                },
                end,
            ),
        ),
    )
}

/// The index descriptor of a table that has the name of one before it, if there is one.
fn repeated_index(primary: &IndexDescriptor, l: &Vec<IndexDescriptor>) -> (r: Option<usize>)
    ensures
        r is None == index_names_apart(seq![primary@] + index_models(l@)),
        r matches Some(j) ==> j < l@.len(),
{
    let ghost m = index_models(l@);
    let ghost all = seq![primary@] + m;
    let mut j: usize = 0;
    while j < l.len()
        invariant
            j <= l@.len(),
            m == index_models(l@),
            all == seq![primary@] + m,
            forall|y: int| 0 <= y < j ==> (#[trigger] m[y]).name != primary@.name,
            forall|x: int, y: int|
                0 <= x < y < j ==> (#[trigger] m[x]).name != (#[trigger] m[y]).name,
        decreases l@.len() - j,
    {
        if primary.name == l[j].name {
            proof {
                assert(all[0].name == all[j + 1].name);
            }
            return Some(j);
        }
        let mut i: usize = 0;
        while i < j
            invariant
                i <= j < l@.len(),
                m == index_models(l@),
                all == seq![primary@] + m,
                forall|x: int| 0 <= x < i ==> (#[trigger] m[x]).name != m[j as int].name,
            decreases j - i,
        {
            if l[i].name == l[j].name {
                proof {
                    assert(all[i + 1].name == all[j + 1].name);
                }
                return Some(j);
            }
            i += 1;
        }
        j += 1;
    }
    proof {
        assert forall|x: int, y: int| 0 <= x < y < all.len() implies (#[trigger] all[x]).name != (
        #[trigger] all[y]).name by {
            assert(all[y] == m[y - 1]);
            if x > 0 {
                assert(all[x] == m[x - 1]);
            }
        }
    }
    None
}

/// The table descriptor that has the name of one before it, if there is one.
fn repeated_table(l: &Vec<TableDescriptor>) -> (r: Option<usize>)
    ensures
        r is None == table_names_apart(table_models(l@)),
        r matches Some(j) ==> j < l@.len(),
{
    let ghost m = table_models(l@);
    let mut j: usize = 0;
    while j < l.len()
        invariant
            j <= l@.len(),
            m == table_models(l@),
            forall|x: int, y: int|
                0 <= x < y < j ==> (#[trigger] m[x]).name != (#[trigger] m[y]).name,
        decreases l@.len() - j,
    {
        let mut i: usize = 0;
        while i < j
            invariant
                i <= j < l@.len(),
                m == table_models(l@),
                forall|x: int| 0 <= x < i ==> (#[trigger] m[x]).name != m[j as int].name,
            decreases j - i,
        {
            if l[i].name == l[j].name {
                proof {
                    assert(m[i as int].name == m[j as int].name);
                }
                return Some(j);
            }
            i += 1;
        }
        j += 1;
    }
    None
}

/// Reads the secondary index descriptors of a table.
fn read_secondaries(buf: &[u8], pos: usize, count: u16, charge: &mut Charge) -> (r: Result<
    Read<(Vec<IndexDescriptor>, usize)>,
    Error,
>)
    requires
        pos <= buf@.len(),
    ensures
        final(charge).owner() == old(charge).owner(),
        agrees(
            old(charge).owner(),
            buf@.len() as int,
            r,
            indexes_at(buf@, pos as int, count as nat),
            |l: Vec<IndexDescriptor>| index_models(l@),
        ),
        r matches Ok(Read::Got((l, at))) ==> at <= buf@.len() && put_up(
            old(charge),
            final(charge),
            indexes_price(index_models(l@)),
        ),
{
    let mut list: Vec<IndexDescriptor> = Vec::new();
    let mut at = pos;
    let mut i: u16 = 0;
    proof {
        assert(index_models(list@) =~= Seq::<IndexModel>::empty());
    }
    while i < count
        invariant
            i <= count,
            at <= buf@.len(),
            charge.owner() == old(charge).owner(),
            put_up(old(charge), charge, indexes_price(index_models(list@))),
            indexes_at(buf@, pos as int, i as nat) == (Outcome::Done {
                value: index_models(list@),
                at: at as int,
            }),
        decreases count - i,
    {
        charge.grow(INDEX_SLOT_COST)?;
        let ghost before = list@;
        match read_index_descriptor(buf, at, charge) {
            Ok(Read::Got((d, end))) => {
                list.push(d);
                at = end;
            },
            Ok(Read::Need(n)) => {
                proof {
                    lemma_indexes_stuck(buf@, pos as int, (i + 1) as nat, count as nat);
                }
                return Ok(Read::Need(n));
            },
            Err(e) => {
                proof {
                    if !starved(charge.owner(), buf@.len() as int, e) {
                        lemma_indexes_stuck(buf@, pos as int, (i + 1) as nat, count as nat);
                    }
                }
                return Err(e);
            },
        }
        i += 1;
        proof {
            assert(index_models(list@) =~= index_models(before).push(list@.last()@));
            assert(index_models(list@).drop_last() =~= index_models(before));
            lemma_indexes_price(index_models(before));
        }
    }
    Ok(Read::Got((list, at)))
}

/// Reads a table descriptor.
fn read_table(buf: &[u8], pos: usize, charge: &mut Charge) -> (r: Result<
    Read<(TableDescriptor, usize)>,
    Error,
>)
    requires
        pos <= buf@.len(),
    ensures
        final(charge).owner() == old(charge).owner(),
        agrees(old(charge).owner(), buf@.len() as int, r, table_at(buf@, pos as int), |t: TableDescriptor| t@),
        r matches Ok(Read::Got((t, at))) ==> at <= buf@.len() && put_up(
            old(charge),
            final(charge),
            table_price(t@),
        ),
{
    let head = match take(buf, pos, 4) {
        Read::Got(end) => end,
        Read::Need(n) => return Ok(Read::Need(n)),
    };
    let declared = read_i32(buf, pos)?;
    if declared < 0 {
        return Err(
            Error::corrupt_words(
                Words::new("negative table name length: ")
                    .signed(declared as i64),
            ),
        );
    }
    charge.grow(TABLE_SLOT_COST)?;
    let (name, at) = match read_text(buf, head, declared as usize, "table name", charge)? {
        Read::Got(got) => got,
        Read::Need(n) => return Ok(Read::Need(n)),
    };
    let (primary, at) = match read_index_descriptor(buf, at, charge)? {
        Read::Got(got) => got,
        Read::Need(n) => return Ok(Read::Need(n)),
    };
    let listed = match take(buf, at, 2) {
        Read::Got(end) => end,
        Read::Need(n) => return Ok(Read::Need(n)),
    };
    let count = read_u16(buf, at)?;
    let (secondaries, at) = match read_secondaries(buf, listed, count, charge)? {
        Read::Got(got) => got,
        Read::Need(n) => return Ok(Read::Need(n)),
    };
    if let Some(j) = repeated_index(&primary, &secondaries) {
        return Err(
            Error::corrupt_words(
                Words::new("table `")
                    .say(describe_name(name.as_str()).as_str())
                    .say("` declares the index name `")
                    .say(describe_name(secondaries[j].name.as_str()).as_str())
                    .say("` twice"),
            ),
        );
    }
    proof {
        lemma_indexes_price(index_models(secondaries@));
    }
    Ok(Read::Got((TableDescriptor { name, primary, secondaries }, at)))
}

/// Reads the page filter ids.
fn read_filters(buf: &[u8], pos: usize, count: u16, charge: &mut Charge) -> (r: Result<
    Read<(Vec<String>, usize)>,
    Error,
>)
    requires
        pos <= buf@.len(),
    ensures
        final(charge).owner() == old(charge).owner(),
        agrees(old(charge).owner(), buf@.len() as int, r, filters_at(buf@, pos as int, count as nat), |l: Vec<String>| texts(l@)),
        r matches Ok(Read::Got((l, at))) ==> at <= buf@.len() && put_up(
            old(charge),
            final(charge),
            filters_price(texts(l@)),
        ),
{
    let mut list: Vec<String> = Vec::new();
    let mut at = pos;
    let mut i: u16 = 0;
    proof {
        assert(texts(list@) =~= Seq::<Seq<char>>::empty());
    }
    while i < count
        invariant
            i <= count,
            at <= buf@.len(),
            charge.owner() == old(charge).owner(),
            put_up(old(charge), charge, filters_price(texts(list@))),
            filters_at(buf@, pos as int, i as nat) == (Outcome::Done {
                value: texts(list@),
                at: at as int,
            }),
        decreases count - i,
    {
        charge.grow(STRING_SLOT_COST)?;
        let ghost before = list@;
        let named = match take(buf, at, 1) {
            Read::Got(end) => read_text(buf, end, buf[at] as usize, "page filter id", charge),
            Read::Need(n) => Ok(Read::Need(n)),
        };
        match named {
            Ok(Read::Got((name, end))) => {
                list.push(name);
                at = end;
            },
            Ok(Read::Need(n)) => {
                proof {
                    lemma_filters_stuck(buf@, pos as int, (i + 1) as nat, count as nat);
                }
                return Ok(Read::Need(n));
            },
            Err(e) => {
                proof {
                    if !starved(charge.owner(), buf@.len() as int, e) {
                        lemma_filters_stuck(buf@, pos as int, (i + 1) as nat, count as nat);
                    }
                }
                return Err(e);
            },
        }
        i += 1;
        proof {
            assert(texts(list@) =~= texts(before).push(list@.last()@));
            assert(texts(list@).drop_last() =~= texts(before));
            lemma_filters_price(texts(before));
        }
    }
    Ok(Read::Got((list, at)))
}

/// Reads the table descriptors.
fn read_tables(buf: &[u8], pos: usize, count: u16, charge: &mut Charge) -> (r: Result<
    Read<(Vec<TableDescriptor>, usize)>,
    Error,
>)
    requires
        pos <= buf@.len(),
    ensures
        final(charge).owner() == old(charge).owner(),
        agrees(
            old(charge).owner(),
            buf@.len() as int,
            r,
            tables_at(buf@, pos as int, count as nat),
            |l: Vec<TableDescriptor>| table_models(l@),
        ),
        r matches Ok(Read::Got((l, at))) ==> at <= buf@.len() && put_up(
            old(charge),
            final(charge),
            tables_price(table_models(l@)),
        ),
{
    let mut list: Vec<TableDescriptor> = Vec::new();
    let mut at = pos;
    let mut i: u16 = 0;
    proof {
        assert(table_models(list@) =~= Seq::<TableModel>::empty());
    }
    while i < count
        invariant
            i <= count,
            at <= buf@.len(),
            charge.owner() == old(charge).owner(),
            put_up(old(charge), charge, tables_price(table_models(list@))),
            tables_at(buf@, pos as int, i as nat) == (Outcome::Done {
                value: table_models(list@),
                at: at as int,
            }),
        decreases count - i,
    {
        let ghost before = list@;
        match read_table(buf, at, charge) {
            Ok(Read::Got((t, end))) => {
                list.push(t);
                at = end;
            },
            Ok(Read::Need(n)) => {
                proof {
                    lemma_tables_stuck(buf@, pos as int, (i + 1) as nat, count as nat);
                }
                return Ok(Read::Need(n));
            },
            Err(e) => {
                proof {
                    if !starved(charge.owner(), buf@.len() as int, e) {
                        lemma_tables_stuck(buf@, pos as int, (i + 1) as nat, count as nat);
                    }
                }
                return Err(e);
            },
        }
        i += 1;
        proof {
            assert(table_models(list@) =~= table_models(before).push(list@.last()@));
            assert(table_models(list@).drop_last() =~= table_models(before));
            lemma_tables_price(table_models(before));
            lemma_indexes_price(list@.last()@.secondaries);
        }
    }
    Ok(Read::Got((list, at)))
}

/// Parses the catalog out of a prefix of the file that already contains the header.
///
/// `page_size`, `page_count` and `directory_position` come from the validated header.
///
/// Every string and every vector slot is reserved on `charge` before it is allocated, so
/// a file whose descriptors do not fit in the budget fails part way through the parse
/// rather than after it. A header claiming more tables than the file holds therefore
/// cannot make the parse allocate past the budget on its way to reporting the truncation.
pub fn parse(
    buf: &[u8],
    page_filter_count: u16,
    table_count: u16,
    page_size: usize,
    page_count: u64,
    directory_position: FileOffset,
    charge: &mut Charge,
) -> (r: Result<CatalogParse, Error>)
    ensures
        final(charge).owner() == old(charge).owner(),
        ({
            let model = catalog_at(buf@, page_filter_count as nat, table_count as nat);
            match r {
                Ok(CatalogParse::Complete(c)) => {
                    &&& model == (Outcome::Done { value: c@, at: c.descriptor_end as int })
                    &&& c.descriptor_end <= buf@.len() || c.descriptor_end == HEADER_LEN
                    &&& c.page_size == page_size
                    &&& c.page_count == page_count
                    &&& c.directory_position == directory_position
                    &&& put_up(old(charge), final(charge), catalog_price(c@))
                },
                Ok(CatalogParse::NeedMore(n)) => model matches Outcome::Short { need } && n
                    == needed(need),
                Err(e) => starved(old(charge).owner(), buf@.len() as int, e) || model == (Outcome::<
                    CatalogModel,
                >::Bad { kind: e.kind() }),
            }
        }),
{
    if buf.len() < HEADER_LEN {
        // Not even the header is there, so the first thing behind it is what is missing.
        if page_filter_count > 0 {
            proof {
                reveal_with_fuel(filters_at, 2);
                lemma_filters_stuck(buf@, HEADER_LEN as int, 1, page_filter_count as nat);
            }
            return Ok(CatalogParse::NeedMore(HEADER_LEN + 1));
        }
        if table_count > 0 {
            proof {
                reveal_with_fuel(tables_at, 2);
                lemma_tables_stuck(buf@, HEADER_LEN as int, 1, table_count as nat);
            }
            return Ok(CatalogParse::NeedMore(HEADER_LEN + 4));
        }
        charge.grow(CATALOG_COST)?;
        let (filters, tables): (Vec<String>, Vec<TableDescriptor>) = (Vec::new(), Vec::new());
        proof {
            assert(texts(filters@) =~= Seq::<Seq<char>>::empty());
            assert(table_models(tables@) =~= Seq::<TableModel>::empty());
        }
        return Ok(
            CatalogParse::Complete(
                Box::new(
                    Catalog {
                        page_size,
                        page_count,
                        directory_position,
                        filters,
                        tables,
                        descriptor_end: HEADER_LEN as u64,
                    },
                ),
            ),
        );
    }
    // Capacities come from the parsed data, never from a count field: a header claiming
    // 65535 tables would otherwise reserve megabytes before a single descriptor is read.
    let (filters, at) = match read_filters(buf, HEADER_LEN, page_filter_count, charge)? {
        Read::Got(got) => got,
        Read::Need(n) => return Ok(CatalogParse::NeedMore(n)),
    };
    let (tables, at) = match read_tables(buf, at, table_count, charge)? {
        Read::Got(got) => got,
        Read::Need(n) => return Ok(CatalogParse::NeedMore(n)),
    };
    if let Some(j) = repeated_table(&tables) {
        return Err(
            Error::corrupt_words(
                Words::new("duplicate table name `").say(
                    describe_name(tables[j].name.as_str()).as_str(),
                ).say("`"),
            ),
        );
    }
    charge.grow(CATALOG_COST)?;
    proof {
        lemma_filters_price(texts(filters@));
        lemma_tables_price(table_models(tables@));
    }
    Ok(
        CatalogParse::Complete(
            Box::new(
                Catalog {
                    page_size,
                    page_count,
                    directory_position,
                    filters,
                    tables,
                    descriptor_end: at as u64,
                },
            ),
        ),
    )
}

/// The bytes of an index descriptor.
pub open spec fn descriptor_bytes(
    name: Seq<char>,
    encoding: Seq<char>,
    is_unique: bool,
    value_kind: int,
    root: int,
) -> Seq<u8> {
    bytes::le2(encode_utf8(name).len() as int) + bytes::le2(encode_utf8(encoding).len() as int)
        + encode_utf8(name) + encode_utf8(encoding) + seq![
        if is_unique {
            1u8
        } else {
            0
        },
        value_kind as u8,
    ] + bytes::le8(root)
}

/// Encodes an index descriptor. `root_placeholder` is what the builder writes before
/// the tree exists.
pub fn encode_index_descriptor(
    name: &str,
    key_encoding_id: &str,
    is_unique: bool,
    value_kind: ValueKind,
    root_placeholder: i64,
) -> (r: Result<Vec<u8>, Error>)
    ensures
        match r {
            Ok(out) => {
                &&& encode_utf8(name@).len() <= u16::MAX
                &&& encode_utf8(key_encoding_id@).len() <= u16::MAX
                &&& exists|k: int|
                    value_kind_of(k) == Some(value_kind) && out@ == #[trigger] descriptor_bytes(
                        name@,
                        key_encoding_id@,
                        is_unique,
                        k,
                        root_placeholder as int,
                    )
            },
            Err(e) => e.kind() == ErrorKind::InvalidArgument && (encode_utf8(name@).len()
                > u16::MAX || encode_utf8(key_encoding_id@).len() > u16::MAX),
        },
{
    let name_bytes = name.as_bytes();
    let encoding_bytes = key_encoding_id.as_bytes();
    if name_bytes.len() > u16::MAX as usize {
        return Err(
            Error::invalid_words(
                Words::new("index name `")
                    .say(describe_name(name).as_str())
                    .say("` is longer than 65535 bytes"),
            ),
        );
    }
    if encoding_bytes.len() > u16::MAX as usize {
        return Err(Error::invalid("key encoding id is longer than 65535 bytes"));
    }
    let mut out: Vec<u8> = Vec::new();
    put_le2(&mut out, name_bytes.len() as u64);
    put_le2(&mut out, encoding_bytes.len() as u64);
    put_slice(&mut out, name_bytes);
    put_slice(&mut out, encoding_bytes);
    out.push(
        if is_unique {
            1
        } else {
            0
        },
    );
    let kind = value_kind.to_u8();
    out.push(kind);
    put_i64(&mut out, root_placeholder);
    proof {
        assert(out@ =~= descriptor_bytes(
            name@,
            key_encoding_id@,
            is_unique,
            kind as int,
            root_placeholder as int,
        ));
    }
    Ok(out)
}

/// An index descriptor reads back as it was written.
pub proof fn lemma_descriptor_round_trip(
    s: Seq<u8>,
    pos: int,
    name: Seq<char>,
    encoding: Seq<char>,
    is_unique: bool,
    value_kind: ValueKind,
    k: int,
    root: Option<PageOrdinal>,
)
    requires
        0 <= pos,
        encode_utf8(name).len() <= u16::MAX,
        encode_utf8(encoding).len() <= u16::MAX,
        value_kind_of(k) == Some(value_kind),
        root matches Some(o) ==> o.get() < 0x8000_0000_0000_0000,
        ({
            let d = descriptor_bytes(name, encoding, is_unique, k, PageOrdinal::signed(root));
            pos + d.len() <= s.len() && s.subrange(pos, pos + d.len()) == d
        }),
    ensures
        ({
            let d = descriptor_bytes(name, encoding, is_unique, k, PageOrdinal::signed(root));
            index_at(s, pos) == (Outcome::Done {
                value: IndexModel {
                    name,
                    is_unique,
                    encoding,
                    value_kind,
                    root,
                    root_field: pos + d.len() - 8,
                },
                at: pos + d.len(),
            })
        }),
{
    let d = descriptor_bytes(name, encoding, is_unique, k, PageOrdinal::signed(root));
    let n = encode_utf8(name);
    let e = encode_utf8(encoding);
    assert(d.len() == 14 + n.len() + e.len());
    let here = s.subrange(pos, pos + d.len());
    assert(s.subrange(pos, pos + 2) =~= here.subrange(0, 2));
    assert(here.subrange(0, 2) =~= bytes::le2(n.len() as int));
    bytes::lemma_u16_read_back(s, pos, n.len() as int);
    assert(s.subrange(pos + 2, pos + 4) =~= here.subrange(2, 4));
    assert(here.subrange(2, 4) =~= bytes::le2(e.len() as int));
    bytes::lemma_u16_read_back(s, pos + 2, e.len() as int);
    let p1 = pos + 4;
    let p2 = p1 + n.len();
    let p3 = p2 + e.len();
    assert(s.subrange(p1, p2) =~= here.subrange(4, p2 - pos));
    assert(here.subrange(4, p2 - pos) =~= n);
    assert(s.subrange(p2, p3) =~= here.subrange(p2 - pos, p3 - pos));
    assert(here.subrange(p2 - pos, p3 - pos) =~= e);
    crate::text::lemma_text_bytes(name);
    crate::text::lemma_text_bytes(encoding);
    assert(s[p3] == here[p3 - pos]);
    assert(s[p3 + 1] == here[p3 + 1 - pos]);
    assert(s.subrange(p3 + 2, p3 + 10) =~= here.subrange(p3 + 2 - pos, p3 + 10 - pos));
    assert(here.subrange(p3 + 2 - pos, p3 + 10 - pos) =~= bytes::le8(PageOrdinal::signed(root)));
    bytes::lemma_u64_read_back(s, p3 + 2, PageOrdinal::signed(root));
    if let Some(o) = root {
        assert(PageOrdinal::spec_new(o.get()) == o);
    }
}

/// What descriptors cost: each text its bytes and 192, each slot of a list what it takes, and the
/// catalog 304.
pub proof fn lemma_prices(
    filters: Seq<Seq<char>>,
    tables: Seq<TableModel>,
    indexes: Seq<IndexModel>,
    id: Seq<char>,
    t: TableModel,
    d: IndexModel,
)
    ensures
        text_price(id) == encode_utf8(id).len() + 192,
        index_price(d) == encode_utf8(d.name).len() + encode_utf8(d.encoding).len() + 2 * 192,
        indexes_price(Seq::empty()) == 0,
        indexes_price(indexes.push(d)) - indexes_price(indexes) == 456 + index_price(d),
        table_price(t) == 600 + text_price(t.name) + index_price(t.primary) + indexes_price(
            t.secondaries,
        ),
        tables_price(Seq::empty()) == 0,
        tables_price(tables.push(t)) - tables_price(tables) == table_price(t),
        filters_price(Seq::empty()) == 0,
        filters_price(filters.push(id)) - filters_price(filters) == 264 + text_price(id),
        catalog_price(CatalogModel { filters, tables, end: 0 }) == filters_price(filters)
            + tables_price(tables) + 304,
{
    assert(indexes.push(d).drop_last() =~= indexes);
    assert(tables.push(t).drop_last() =~= tables);
    assert(filters.push(id).drop_last() =~= filters);
}

} // verus!
