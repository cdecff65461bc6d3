//! Sorted runs of records, as they are spilled.

use vstd::prelude::*;

use super::heap::Ranked;
use super::scratch::Scratch;
use crate::encoding::{self, KeyEncoding, SharedEncoding};
use crate::error::{Error, ErrorKind};
use crate::format::bytes::{self, put_le4, put_le8, put_slice, read_u32, read_u64, zeroed};
use crate::format::extend;
use crate::model::Row;

verus! {

broadcast use crate::format::group_format;

/// Header written before each spooled record: sequence, key length, value length.
pub const RECORD_HEADER_LEN: usize = 16;

/// One buffered record.
#[derive(Debug)]
pub struct Record {
    /// Append order, used to break ties between equal keys.
    pub seq: u64,
    /// Encoded key.
    pub key: Vec<u8>,
    /// Value bytes.
    pub value: Vec<u8>,
}

/// What a record is.
pub struct Entry {
    pub seq: u64,
    pub key: Seq<u8>,
    pub value: Seq<u8>,
}

impl View for Record {
    type V = Entry;

    open spec fn view(&self) -> Entry {
        Entry { seq: self.seq, key: self.key@, value: self.value@ }
    }
}

impl Ranked for Record {
    open spec fn rank_key(&self) -> Seq<u8> {
        self.key@
    }

    open spec fn rank_seq(&self) -> u64 {
        self.seq
    }

    fn key_bytes(&self) -> (r: &[u8]) {
        self.key.as_slice()
    }

    fn sequence(&self) -> (r: u64) {
        self.seq
    }
}

/// Whether one record comes before another.
pub open spec fn entry_before(e: SharedEncoding, a: Entry, b: Entry) -> bool {
    let s = e.inner.sign(a.key, b.key);
    s < 0 || s == 0 && a.seq < b.seq
}

/// Whether records are in order.
pub open spec fn entries_in_order(e: SharedEncoding, l: Seq<Entry>) -> bool {
    forall|i: int, j: int|
        0 <= i < j < l.len() ==> entry_before(e, #[trigger] l[i], #[trigger] l[j])
}

/// Whether a record is one of the rows from `lo` to `hi`, by its sequence number.
pub open spec fn member(rows: Seq<Row>, lo: int, hi: int, x: Entry) -> bool {
    &&& lo <= x.seq < hi
    &&& rows[x.seq as int].key == x.key
    &&& rows[x.seq as int].value == x.value
}

/// Whether no two records are the same row.
pub open spec fn rows_apart(l: Seq<Entry>) -> bool {
    forall|i: int, j: int|
        0 <= i < j < l.len() ==> (#[trigger] l[i]).seq != (#[trigger] l[j]).seq
}

/// Whether records are the rows from `lo` to `hi`, each once, in order where the encoding has
/// one.
pub open spec fn sorted_run(
    e: SharedEncoding,
    rows: Seq<Row>,
    lo: int,
    hi: int,
    l: Seq<Entry>,
) -> bool {
    &&& l.len() == hi - lo
    &&& forall|i: int| 0 <= i < l.len() ==> member(rows, lo, hi, #[trigger] l[i])
    &&& rows_apart(l)
    &&& encoding::lawful(&**e.inner) ==> entries_in_order(e, l)
}

/// What a record takes in a run.
pub open spec fn record_bytes(x: Entry) -> Seq<u8> {
    bytes::le8(x.seq as int) + bytes::le4(x.key.len() as int) + bytes::le4(x.value.len() as int)
        + x.key + x.value
}

/// The bytes of a run.
pub open spec fn run_bytes(l: Seq<Entry>) -> Seq<u8>
    decreases l.len(),
{
    if l.len() == 0 {
        Seq::empty()
    } else {
        record_bytes(l[0]) + run_bytes(l.subrange(1, l.len() as int))
    }
}

/// Whether a record's lengths can be stored.
pub open spec fn storable(x: Entry) -> bool {
    x.key.len() <= 0xFFFF_FFFF && x.value.len() <= 0xFFFF_FFFF
}

/// Whether the lengths of a list's records can be stored.
pub open spec fn all_storable(l: Seq<Entry>) -> bool {
    forall|i: int| 0 <= i < l.len() ==> storable(#[trigger] l[i])
}

/// One more record at the end of a run.
pub proof fn lemma_run_push(l: Seq<Entry>, x: Entry)
    ensures
        run_bytes(l.push(x)) == run_bytes(l) + record_bytes(x),
    decreases l.len(),
{
    let m = l.push(x);
    if l.len() == 0 {
        assert(m.subrange(1, 1) =~= Seq::<Entry>::empty());
        assert(run_bytes(Seq::<Entry>::empty()) == Seq::<u8>::empty());
        assert(run_bytes(m) =~= run_bytes(l) + record_bytes(x));
    } else {
        let tail = l.subrange(1, l.len() as int);
        assert(m.subrange(1, m.len() as int) =~= tail.push(x));
        lemma_run_push(tail, x);
        assert(run_bytes(m) =~= run_bytes(l) + record_bytes(x));
    }
}

/// A part of a scratch file: a sorted run.
pub struct Run {
    /// Where it starts.
    pub start: u64,
    /// Where it ends.
    pub end: u64,
    /// How many times this run has been merged.
    ///
    /// Runs are only merged with others of the same level, so each merge reads runs of
    /// about the same size and the work done over a whole build is one pass per level.
    /// Merging whatever happens to be there instead drags the runs already merged through
    /// the next pass as well, which is a pass over everything spooled so far every time.
    pub level: u32,
    /// The records.
    pub items: Ghost<Seq<Entry>>,
    /// Which rows they are.
    pub lo: Ghost<int>,
    /// Which rows they are.
    pub hi: Ghost<int>,
}

/// Whether a run is in a scratch file, and has the rows it should.
pub open spec fn run_ok(e: SharedEncoding, rows: Seq<Row>, file: Seq<u8>, run: Run) -> bool {
    &&& run.start <= run.end <= file.len()
    &&& file.subrange(run.start as int, run.end as int) == run_bytes(run.items@)
    &&& sorted_run(e, rows, run.lo@, run.hi@, run.items@)
    &&& all_storable(run.items@)
    &&& taken(e, run.items@)
}

/// Whether an encoding takes the keys of records.
pub open spec fn taken(e: SharedEncoding, l: Seq<Entry>) -> bool {
    forall|i: int| 0 <= i < l.len() ==> e.inner.accepts((#[trigger] l[i]).key)
}

/// A run stays where it is when more is written after it.
pub proof fn lemma_run_kept(
    e: SharedEncoding,
    rows: Seq<Row>,
    more: Seq<Row>,
    a: Seq<u8>,
    b: Seq<u8>,
    run: Run,
)
    requires
        run_ok(e, rows, a, run),
        extend::is_front(a, b),
        0 <= run.lo@ <= run.hi@ <= rows.len(),
        rows.len() <= more.len(),
        forall|i: int| 0 <= i < rows.len() ==> #[trigger] more[i] == rows[i],
    ensures
        run_ok(e, more, b, run),
{
    assert(b.subrange(run.start as int, run.end as int) =~= a.subrange(
        run.start as int,
        run.end as int,
    ));
    assert forall|i: int| 0 <= i < run.items@.len() implies member(
        more,
        run.lo@,
        run.hi@,
        #[trigger] run.items@[i],
    ) by {
        let x = run.items@[i];
        assert(member(rows, run.lo@, run.hi@, x));
        assert(more[x.seq as int] == rows[x.seq as int]);
    }
}

/// Appends a record to a buffer.
pub(crate) fn put_record(out: &mut Vec<u8>, record: &Record)
    requires
        storable(record@),
    ensures
        final(out)@ == old(out)@ + record_bytes(record@),
{
    put_le8(out, record.seq);
    put_le4(out, record.key.len() as u64);
    put_le4(out, record.value.len() as u64);
    put_slice(out, record.key.as_slice());
    put_slice(out, record.value.as_slice());
    proof {
        assert(out@ =~= old(out)@ + record_bytes(record@));
    }
}

/// One record's header and key, plus where its value sits in the file.
///
/// The merge keeps one of these per run rather than a whole record: values stay in the file
/// until the record they belong to is actually given out, so a run of huge values costs one
/// value at a time instead of one per run.
pub struct Pending {
    pub seq: u64,
    pub key: Vec<u8>,
    pub value_pos: u64,
    pub value_len: usize,
    /// Which run it came from.
    pub source: usize,
    /// The record.
    pub entry: Ghost<Entry>,
}

impl Ranked for Pending {
    open spec fn rank_key(&self) -> Seq<u8> {
        self.key@
    }

    open spec fn rank_seq(&self) -> u64 {
        self.seq
    }

    fn key_bytes(&self) -> (r: &[u8]) {
        self.key.as_slice()
    }

    fn sequence(&self) -> (r: u64) {
        self.seq
    }
}

/// Whether what was read of a record is the record's.
pub open spec fn pending_ok(file: Seq<u8>, p: Pending) -> bool {
    &&& p.seq == p.entry@.seq
    &&& p.key@ == p.entry@.key
    &&& p.value_pos + p.value_len <= file.len()
    &&& file.subrange(p.value_pos as int, p.value_pos + p.value_len) == p.entry@.value
}

/// A reader of one run.
pub struct RunReader {
    pub pos: u64,
    pub end: u64,
    /// The records of the run.
    pub items: Ghost<Seq<Entry>>,
    /// How many of them were read.
    pub at: Ghost<int>,
}

impl RunReader {
    /// Whether the reader is where the records left to read start.
    pub open spec fn ok(&self, file: Seq<u8>) -> bool {
        &&& 0 <= self.at@ <= self.items@.len()
        &&& self.pos <= self.end <= file.len()
        &&& file.subrange(self.pos as int, self.end as int) == run_bytes(
            self.items@.subrange(self.at@, self.items@.len() as int),
        )
        &&& all_storable(self.items@)
    }

    /// A reader at the start of a run.
    pub(crate) fn new(run: &Run) -> (r: RunReader)
        ensures
            r.items@ == run.items@,
            r.at@ == 0,
            forall|e: SharedEncoding, rows: Seq<Row>, file: Seq<u8>|
                #[trigger] run_ok(e, rows, file, *run) ==> r.ok(file),
    {
        let r = RunReader { pos: run.start, end: run.end, items: run.items, at: Ghost(0) };
        proof {
            assert(run.items@.subrange(0, run.items@.len() as int) =~= run.items@);
        }
        r
    }

    /// Reads the next record's header and key.
    pub(crate) fn read_next<S: Scratch>(&mut self, file: &S, source: usize) -> (r: Result<
        Option<Pending>,
        Error,
    >)
        requires
            old(self).ok(file.spilled()),
        ensures
            final(self).items@ == old(self).items@,
            match r {
                Ok(Some(p)) => {
                    &&& old(self).at@ < old(self).items@.len()
                    &&& final(self).ok(file.spilled())
                    &&& final(self).at@ == old(self).at@ + 1
                    &&& pending_ok(file.spilled(), p)
                    &&& p.entry@ == old(self).items@[old(self).at@]
                    &&& p.source == source
                },
                Ok(None) => {
                    &&& old(self).at@ == old(self).items@.len()
                    &&& final(self).ok(file.spilled())
                    &&& final(self).at@ == old(self).at@
                },
                Err(e) => e.kind() == ErrorKind::Io && !file.dependable(),
            },
    {
        let ghost l = self.items@.subrange(self.at@, self.items@.len() as int);
        let ghost whole = file.spilled();
        let ghost rest = whole.subrange(self.pos as int, self.end as int);
        if self.pos >= self.end {
            proof {
                if l.len() > 0 {
                    assert(run_bytes(l).len() >= record_bytes(l[0]).len());
                }
            }
            return Ok(None);
        }
        proof {
            assert(rest == run_bytes(l));
            assert(rest.len() == self.end - self.pos);
            assert(l.len() > 0);
            let x = l[0];
            assert(x == self.items@[self.at@]);
            assert(storable(x));
            let head = record_bytes(x);
            let tail = run_bytes(l.subrange(1, l.len() as int));
            assert(rest =~= head + tail);
            assert(head.len() == RECORD_HEADER_LEN + x.key.len() + x.value.len());
            let at = self.pos as int;
            assert(whole.subrange(at, at + 8) =~= bytes::le8(x.seq as int)) by {
                assert(whole.subrange(at, at + 8) =~= rest.subrange(0, 8));
                assert(rest.subrange(0, 8) =~= bytes::le8(x.seq as int));
            }
            assert(whole.subrange(at + 8, at + 12) =~= bytes::le4(x.key.len() as int)) by {
                assert(whole.subrange(at + 8, at + 12) =~= rest.subrange(8, 12));
                assert(rest.subrange(8, 12) =~= bytes::le4(x.key.len() as int));
            }
            assert(whole.subrange(at + 12, at + 16) =~= bytes::le4(x.value.len() as int)) by {
                assert(whole.subrange(at + 12, at + 16) =~= rest.subrange(12, 16));
                assert(rest.subrange(12, 16) =~= bytes::le4(x.value.len() as int));
            }
            assert(whole.subrange(at + 16, at + 16 + x.key.len()) =~= x.key) by {
                assert(whole.subrange(at + 16, at + 16 + x.key.len()) =~= rest.subrange(
                    16,
                    16 + x.key.len() as int,
                ));
                assert(rest.subrange(16, 16 + x.key.len() as int) =~= x.key);
            }
            let v = 16 + x.key.len() as int;
            assert(whole.subrange(at + v, at + v + x.value.len()) =~= x.value) by {
                assert(whole.subrange(at + v, at + v + x.value.len()) =~= rest.subrange(
                    v,
                    v + x.value.len() as int,
                ));
                assert(rest.subrange(v, v + x.value.len() as int) =~= x.value);
            }
            assert(whole.subrange(at + head.len(), self.end as int) =~= tail) by {
                assert(whole.subrange(at + head.len(), self.end as int) =~= rest.subrange(
                    head.len() as int,
                    rest.len() as int,
                ));
                assert(rest.subrange(head.len() as int, rest.len() as int) =~= tail);
            }
        }
        let mut header = zeroed(RECORD_HEADER_LEN);
        match file.read_back(header.as_mut_slice(), self.pos) {
            Ok(_) => {},
            Err(e) => return Err(e),
        }
        proof {
            let x = l[0];
            let at = self.pos as int;
            assert(header@.subrange(0, 8) =~= whole.subrange(at, at + 8));
            assert(header@.subrange(8, 12) =~= whole.subrange(at + 8, at + 12));
            assert(header@.subrange(12, 16) =~= whole.subrange(at + 12, at + 16));
            bytes::lemma_u64_read_back(header@, 0, x.seq as int);
            bytes::lemma_u32_read_back(header@, 8, x.key.len() as int);
            bytes::lemma_u32_read_back(header@, 12, x.value.len() as int);
        }
        let (seq, key_len, value_len) = match (
            read_u64(header.as_slice(), 0),
            read_u32(header.as_slice(), 8),
            read_u32(header.as_slice(), 12),
        ) {
            (Ok(seq), Ok(key_len), Ok(value_len)) => (seq, key_len as usize, value_len as usize),
            _ => return Ok(None),
        };
        let key_pos = self.pos + RECORD_HEADER_LEN as u64;
        let mut key = zeroed(key_len);
        match file.read_back(key.as_mut_slice(), key_pos) {
            Ok(_) => {},
            Err(e) => return Err(e),
        }
        let value_pos = key_pos + key_len as u64;
        self.pos = value_pos + value_len as u64;
        proof {
            self.at@ = self.at@ + 1;
            assert(self.items@.subrange(self.at@, self.items@.len() as int) =~= l.subrange(
                1,
                l.len() as int,
            ));
        }
        Ok(Some(Pending { seq, key, value_pos, value_len, source, entry: Ghost(l[0]) }))
    }
}

/// Reads the value of a record.
pub(crate) fn read_value<S: Scratch>(file: &S, p: Pending) -> (r: Result<Record, Error>)
    requires
        pending_ok(file.spilled(), p),
    ensures
        match r {
            Ok(record) => record@ == p.entry@,
            Err(e) => e.kind() == ErrorKind::Io && !file.dependable(),
        },
{
    let mut value = zeroed(p.value_len);
    match file.read_back(value.as_mut_slice(), p.value_pos) {
        Ok(_) => Ok(Record { seq: p.seq, key: p.key, value }),
        Err(e) => Err(e),
    }
}

/// Records sorted from rows are all of the rows: every row is among them.
pub proof fn lemma_run_complete(e: SharedEncoding, rows: Seq<Row>, l: Seq<Entry>, q: int)
    requires
        sorted_run(e, rows, 0, rows.len() as int, l),
        0 <= q < rows.len(),
    ensures
        exists|i: int| 0 <= i < l.len() && (#[trigger] l[i]).seq == q,
{
    let n = rows.len() as int;
    let seqs = Seq::new(l.len(), |i: int| l[i].seq as int);
    assert forall|i: int, j: int| 0 <= i < seqs.len() && 0 <= j < seqs.len() && i != j implies seqs[i]
        != seqs[j] by {
        lemma_seqs_apart(e, rows, l, i, j);
    }
    assert(seqs.no_duplicates());
    seqs.unique_seq_to_set();
    let all = vstd::set_lib::set_int_range(0, n);
    vstd::set_lib::lemma_int_range(0, n);
    assert(seqs.to_set().subset_of(all)) by {
        assert forall|x: int| seqs.to_set().contains(x) implies all.contains(x) by {
            let i = choose|i: int| 0 <= i < seqs.len() && seqs[i] == x;
            assert(member(rows, 0, n, l[i]));
        }
    }
    vstd::set_lib::lemma_subset_equality(seqs.to_set(), all);
    assert(seqs.to_set().contains(q));
    let i = choose|i: int| 0 <= i < seqs.len() && seqs[i] == q;
    assert(l[i].seq == q);
}

/// Records sorted from rows are different rows.
pub proof fn lemma_seqs_apart(e: SharedEncoding, rows: Seq<Row>, l: Seq<Entry>, i: int, j: int)
    requires
        sorted_run(e, rows, 0, rows.len() as int, l),
        0 <= i < l.len(),
        0 <= j < l.len(),
        i != j,
    ensures
        l[i].seq != l[j].seq,
{
    if i < j {
        assert(l[i].seq != l[j].seq);
    } else {
        assert(l[j].seq != l[i].seq);
    }
}

} // verus!
