//! Key ranges.
//!
//! Bounds are explicit. An empty key is a key, not an open end.

use vstd::prelude::*;

use crate::encoding::order;
use crate::encoding::{KeyEncoding, SharedEncoding};
use crate::error::{Error, ErrorKind};
use crate::format::bytes::put_slice;

verus! {

/// One end of a range.
#[derive(Debug, Clone, Copy, PartialEq, Eq)]
pub enum Bound<T> {
    /// No bound.
    Unbounded,
    /// The key itself is inside.
    Included(T),
    /// The key itself is outside.
    Excluded(T),
}

/// The key of a bound.
pub open spec fn bound_of(b: Bound<Vec<u8>>) -> Bound<Seq<u8>> {
    match b {
        Bound::Unbounded => Bound::Unbounded,
        Bound::Included(k) => Bound::Included(k@),
        Bound::Excluded(k) => Bound::Excluded(k@),
    }
}

/// The key of a borrowed bound.
pub open spec fn bound_of_slice(b: Bound<&[u8]>) -> Bound<Seq<u8>> {
    match b {
        Bound::Unbounded => Bound::Unbounded,
        Bound::Included(k) => Bound::Included(k@),
        Bound::Excluded(k) => Bound::Excluded(k@),
    }
}

/// The ends of a range, and whether it selects nothing whatever they say.
pub struct Ends {
    pub lower: Bound<Seq<u8>>,
    pub upper: Bound<Seq<u8>>,
    pub empty: bool,
}

impl Ends {
    /// Whether a key is not below the range.
    pub open spec fn above_lower(self, e: SharedEncoding, key: Seq<u8>) -> bool {
        match self.lower {
            Bound::Unbounded => true,
            Bound::Included(k) => e.inner.sign(key, k) >= 0,
            Bound::Excluded(k) => e.inner.sign(key, k) > 0,
        }
    }

    /// Whether a key is not above the range.
    pub open spec fn below_upper(self, e: SharedEncoding, key: Seq<u8>) -> bool {
        match self.upper {
            Bound::Unbounded => true,
            Bound::Included(k) => e.inner.sign(key, k) <= 0,
            Bound::Excluded(k) => e.inner.sign(key, k) < 0,
        }
    }

    /// The bound that ends a scan.
    pub open spec fn far(self, asc: bool) -> Bound<Seq<u8>> {
        if asc {
            self.upper
        } else {
            self.lower
        }
    }

    /// Whether a key is in the range.
    pub open spec fn selects(self, e: SharedEncoding, key: Seq<u8>) -> bool {
        !self.empty && self.above_lower(e, key) && self.below_upper(e, key)
    }

    /// Whether the bounds can be compared with keys.
    pub open spec fn accepted(self, e: SharedEncoding) -> bool {
        &&& accepted_bound(e, self.lower)
        &&& accepted_bound(e, self.upper)
    }

    /// Whether the bounds are well-formed keys.
    pub open spec fn well_formed(self, e: SharedEncoding) -> bool {
        &&& bound_key_of(self.lower) matches Some(k) ==> e.inner.well_formed(k)
        &&& bound_key_of(self.upper) matches Some(k) ==> e.inner.well_formed(k)
    }

    /// Whether the bounds can be compared with each other and are in order.
    pub open spec fn comparable(self, e: SharedEncoding) -> bool {
        match (bound_key_of(self.lower), bound_key_of(self.upper)) {
            (Some(lo), Some(hi)) => e.inner.accepts(lo) && e.inner.accepts(hi) && e.inner.sign(
                lo,
                hi,
            ) <= 0,
            _ => true,
        }
    }
}

/// Whether an error is what bounds get that are no range: what the encoding says of malformed
/// keys, or else of keys that it cannot compare, or else that the bounds are in the wrong
/// order.
pub open spec fn refused(e: SharedEncoding, ends: Ends, err: Error) -> bool {
    &&& !err.is_resource()
    &&& if !ends.well_formed(e) {
        e.inner.rejects(err.kind())
    } else {
        out_of_order(e, ends, err)
    }
}

/// Whether an error is what bounds get that cannot be compared or are in the wrong order.
pub open spec fn out_of_order(e: SharedEncoding, ends: Ends, err: Error) -> bool {
    &&& !err.is_resource()
    &&& if !ends.accepted(e) {
        e.inner.faults(err.kind())
    } else {
        err.kind() == ErrorKind::InvalidArgument
    }
}

/// Whether a bound can be compared with keys.
pub open spec fn accepted_bound(e: SharedEncoding, b: Bound<Seq<u8>>) -> bool {
    bound_key_of(b) matches Some(k) ==> e.inner.accepts(k)
}

/// The key of a bound.
pub open spec fn bound_key_of(b: Bound<Seq<u8>>) -> Option<Seq<u8>> {
    match b {
        Bound::Unbounded => None,
        Bound::Included(k) => Some(k),
        Bound::Excluded(k) => Some(k),
    }
}

/// An owned pair of bounds over encoded keys.
#[derive(Debug, Clone, PartialEq, Eq)]
pub struct KeyRange {
    /// Lower bound.
    pub lower: Bound<Vec<u8>>,
    /// Upper bound.
    pub upper: Bound<Vec<u8>>,
    /// Whether the range selects nothing whatever the bounds say.
    empty: bool,
}

impl View for KeyRange {
    type V = Ends;

    closed spec fn view(&self) -> Ends {
        Ends { lower: bound_of(self.lower), upper: bound_of(self.upper), empty: self.empty }
    }
}

/// Copies a key.
pub(crate) fn copied(key: &[u8]) -> (r: Vec<u8>)
    ensures
        r@ == key@,
{
    let mut out: Vec<u8> = Vec::new();
    put_slice(&mut out, key);
    proof {
        assert(out@ =~= key@);
    }
    out
}

/// Copies a bound.
pub(crate) fn own(bound: Bound<&[u8]>) -> (r: Bound<Vec<u8>>)
    ensures
        bound_of(r) == bound_of_slice(bound),
{
    match bound {
        Bound::Unbounded => Bound::Unbounded,
        Bound::Included(k) => Bound::Included(copied(k)),
        Bound::Excluded(k) => Bound::Excluded(copied(k)),
    }
}

/// The key of a bound.
pub(crate) fn bound_key(bound: &Bound<Vec<u8>>) -> (r: Option<&[u8]>)
    ensures
        match r {
            Some(k) => bound_key_of(bound_of(*bound)) == Some(k@),
            None => bound_key_of(bound_of(*bound)) is None,
        },
{
    match bound {
        Bound::Unbounded => None,
        Bound::Included(k) => Some(k.as_slice()),
        Bound::Excluded(k) => Some(k.as_slice()),
    }
}

/// The key of a borrowed bound.
pub(crate) fn borrowed_key<'a>(bound: &Bound<&'a [u8]>) -> (r: Option<&'a [u8]>)
    ensures
        match r {
            Some(k) => bound_key_of(bound_of_slice(*bound)) == Some(k@),
            None => bound_key_of(bound_of_slice(*bound)) is None,
        },
{
    match bound {
        Bound::Unbounded => None,
        Bound::Included(k) => Some(*k),
        Bound::Excluded(k) => Some(*k),
    }
}

/// Borrows an owned bound.
pub(crate) fn as_ref_bound(bound: &Bound<Vec<u8>>) -> (r: Bound<&[u8]>)
    ensures
        bound_of_slice(r) == bound_of(*bound),
{
    match bound {
        Bound::Unbounded => Bound::Unbounded,
        Bound::Included(k) => Bound::Included(k.as_slice()),
        Bound::Excluded(k) => Bound::Excluded(k.as_slice()),
    }
}

impl KeyRange {
    /// Every key.
    pub fn all() -> (r: KeyRange)
        ensures
            r@ == (Ends { lower: Bound::Unbounded, upper: Bound::Unbounded, empty: false }),
    {
        KeyRange { lower: Bound::Unbounded, upper: Bound::Unbounded, empty: false }
    }

    /// Builds a range from borrowed bounds.
    pub fn new(lower: Bound<&[u8]>, upper: Bound<&[u8]>) -> (r: KeyRange)
        ensures
            r@ == (Ends {
                lower: bound_of_slice(lower),
                upper: bound_of_slice(upper),
                empty: false,
            }),
    {
        KeyRange { lower: own(lower), upper: own(upper), empty: false }
    }

    /// Whether this range selects nothing whatever its bounds say.
    pub fn is_empty(&self) -> (r: bool)
        ensures
            r == self@.empty,
    {
        self.empty
    }

    /// A range from owned bounds.
    pub fn from_bounds(lower: Bound<Vec<u8>>, upper: Bound<Vec<u8>>) -> (r: KeyRange)
        ensures
            r@ == (Ends { lower: bound_of(lower), upper: bound_of(upper), empty: false }),
    {
        KeyRange { lower, upper, empty: false }
    }

    /// No keys at all.
    ///
    /// Distinct from a reversed range, which is a caller's mistake: this is what bounds
    /// that meet without overlapping describe.
    pub fn empty() -> (r: KeyRange)
        ensures
            r@.empty,
    {
        KeyRange { lower: Bound::Excluded(Vec::new()), upper: Bound::Unbounded, empty: true }
    }

    /// Exactly one key.
    pub fn point(key: &[u8]) -> (r: KeyRange)
        ensures
            r@ == (Ends {
                lower: Bound::Included(key@),
                upper: Bound::Included(key@),
                empty: false,
            }),
    {
        KeyRange {
            lower: Bound::Included(copied(key)),
            upper: Bound::Included(copied(key)),
            empty: false,
        }
    }

    /// The lower bound.
    pub(crate) fn lower_bound(&self) -> (r: &Bound<Vec<u8>>)
        ensures
            bound_of(*r) == self@.lower,
    {
        &self.lower
    }

    /// The upper bound.
    pub(crate) fn upper_bound(&self) -> (r: &Bound<Vec<u8>>)
        ensures
            bound_of(*r) == self@.upper,
    {
        &self.upper
    }
}

/// How much of a prefix is left once its trailing `0xFF` bytes are gone.
pub open spec fn stripped_len(prefix: Seq<u8>) -> nat
    decreases prefix.len(),
{
    if prefix.len() > 0 && prefix.last() == 0xFF {
        stripped_len(prefix.drop_last())
    } else {
        prefix.len()
    }
}

/// The first key past those with a prefix, when there is one: the prefix without its
/// trailing `0xFF` bytes, with its last byte counted up.
pub open spec fn prefix_end(prefix: Seq<u8>) -> Seq<u8> {
    let n = stripped_len(prefix) as int;
    prefix.subrange(0, n - 1).push((prefix[n - 1] + 1) as u8)
}

/// The ends of the range of keys with a prefix.
pub open spec fn prefix_ends(prefix: Seq<u8>) -> Ends {
    Ends {
        lower: if prefix.len() == 0 {
            Bound::Unbounded
        } else {
            Bound::Included(prefix)
        },
        upper: if stripped_len(prefix) == 0 {
            Bound::Unbounded
        } else {
            Bound::Excluded(prefix_end(prefix))
        },
        empty: false,
    }
}

proof fn lemma_stripped(prefix: Seq<u8>)
    ensures
        stripped_len(prefix) <= prefix.len(),
        forall|i: int| stripped_len(prefix) <= i < prefix.len() ==> #[trigger] prefix[i] == 0xFF,
        stripped_len(prefix) > 0 ==> prefix[stripped_len(prefix) - 1] != 0xFF,
    decreases prefix.len(),
{
    if prefix.len() > 0 && prefix.last() == 0xFF {
        lemma_stripped(prefix.drop_last());
        assert forall|i: int| stripped_len(prefix) <= i < prefix.len() implies #[trigger] prefix[i]
            == 0xFF by {
            if i < prefix.len() - 1 {
                assert(prefix.drop_last()[i] == prefix[i]);
            }
        }
    }
}

/// Turns a byte prefix into a half-open key range.
///
/// Only meaningful for encodings whose order is byte lexicographic; callers check that
/// first. [`lemma_prefix_range`] says what it selects then.
pub fn prefix_range(prefix: &[u8]) -> (r: KeyRange)
    ensures
        r@ == prefix_ends(prefix@),
{
    if prefix.len() == 0 {
        return KeyRange::all();
    }
    let mut end_len = prefix.len();
    proof {
        assert(prefix@.subrange(0, end_len as int) =~= prefix@);
    }
    while end_len > 0 && prefix[end_len - 1] == 0xFF
        invariant
            end_len <= prefix@.len(),
            stripped_len(prefix@.subrange(0, end_len as int)) == stripped_len(prefix@),
        decreases end_len,
    {
        proof {
            let p = prefix@.subrange(0, end_len as int);
            assert(p.drop_last() =~= prefix@.subrange(0, end_len - 1));
        }
        end_len -= 1;
    }
    proof {
        assert(stripped_len(prefix@) == end_len) by {
            let p = prefix@.subrange(0, end_len as int);
            if end_len > 0 {
                assert(p.last() == prefix@[end_len - 1]);
            }
        }
    }
    if end_len == 0 {
        // Every byte is 0xFF: the prefix matches everything from here on.
        return KeyRange {
            lower: Bound::Included(copied(prefix)),
            upper: Bound::Unbounded,
            empty: false,
        };
    }
    let mut end: Vec<u8> = Vec::new();
    let mut i: usize = 0;
    while i < end_len - 1
        invariant
            i <= end_len - 1,
            end_len <= prefix@.len(),
            end@ == prefix@.subrange(0, i as int),
        decreases end_len - i,
    {
        end.push(prefix[i]);
        i += 1;
        proof {
            assert(end@ =~= prefix@.subrange(0, i as int));
        }
    }
    end.push(prefix[end_len - 1] + 1);
    KeyRange { lower: Bound::Included(copied(prefix)), upper: Bound::Excluded(end), empty: false }
}

/// Whether a key starts with a prefix.
pub open spec fn has_prefix(key: Seq<u8>, prefix: Seq<u8>) -> bool {
    prefix.len() <= key.len() && key.subrange(0, prefix.len() as int) == prefix
}

/// Where two strings first differ decides their order.
proof fn lemma_lex_at(a: Seq<u8>, b: Seq<u8>, i: int, d: int)
    requires
        0 <= i <= d,
        d < a.len(),
        d < b.len(),
        forall|j: int| i <= j < d ==> #[trigger] a[j] == b[j],
        a[d] != b[d],
    ensures
        order::lex_from(a, b, i) == (if a[d] < b[d] {
            -1int
        } else {
            1
        }),
    decreases d - i,
{
    if i < d {
        assert(a[i] == b[i]);
        lemma_lex_at(a, b, i + 1, d);
    }
}

/// A string that runs out first sorts first.
proof fn lemma_lex_short(a: Seq<u8>, b: Seq<u8>, i: int)
    requires
        0 <= i <= a.len(),
        a.len() < b.len(),
        forall|j: int| i <= j < a.len() ==> #[trigger] a[j] == b[j],
    ensures
        order::lex_from(a, b, i) < 0,
        order::lex_from(b, a, i) > 0,
    decreases a.len() - i,
{
    if i < a.len() {
        assert(a[i] == b[i]);
        lemma_lex_short(a, b, i + 1);
    }
}

/// Where two strings first differ, if they do before one of them ends.
proof fn lemma_first_difference(a: Seq<u8>, b: Seq<u8>, i: int, n: int) -> (d: int)
    requires
        0 <= i <= n,
        n <= a.len(),
        n <= b.len(),
    ensures
        i <= d <= n,
        forall|j: int| i <= j < d ==> #[trigger] a[j] == b[j],
        d < n ==> a[d] != b[d],
    decreases n - i,
{
    if i == n || a[i] != b[i] {
        i
    } else {
        let d = lemma_first_difference(a, b, i + 1, n);
        assert forall|j: int| i <= j < d implies #[trigger] a[j] == b[j] by {}
        d
    }
}

/// In byte order, the range of a prefix selects the keys with that prefix and no others.
pub proof fn lemma_prefix_range(e: SharedEncoding, prefix: Seq<u8>, key: Seq<u8>)
    requires
        forall|a: Seq<u8>, b: Seq<u8>| #[trigger] e.inner.sign(a, b) == order::lex(a, b),
    ensures
        prefix_ends(prefix).selects(e, key) <==> has_prefix(key, prefix),
{
    let ends = prefix_ends(prefix);
    let n = prefix.len() as int;
    let m = stripped_len(prefix) as int;
    lemma_stripped(prefix);
    let len = if n <= key.len() {
        n
    } else {
        key.len() as int
    };
    let d = lemma_first_difference(key, prefix, 0, len);
    if d < len {
        // They differ inside both.
        lemma_lex_at(key, prefix, 0, d);
        assert(!has_prefix(key, prefix)) by {
            if has_prefix(key, prefix) {
                assert(key.subrange(0, n)[d] == prefix[d]);
            }
        }
        if key[d] > prefix[d] {
            // Above every key with the prefix, so at or past the end.
            assert(d < m) by {
                if d >= m {
                    assert(prefix[d] == 0xFF);
                }
            }
            let end = prefix_end(prefix);
            assert(end.len() == m);
            if d < m - 1 {
                assert forall|j: int| 0 <= j < d implies #[trigger] key[j] == end[j] by {
                    assert(end[j] == prefix[j]);
                }
                assert(end[d] == prefix[d]);
                lemma_lex_at(key, end, 0, d);
            } else {
                assert forall|j: int| 0 <= j < d implies #[trigger] key[j] == end[j] by {
                    assert(end[j] == prefix[j]);
                }
                assert(end[d] == prefix[d] + 1);
                if key[d] > end[d] {
                    lemma_lex_at(key, end, 0, d);
                } else if key.len() > m {
                    lemma_lex_short(end, key, 0);
                } else {
                    assert(key =~= end);
                    order::lemma_lex_equal(key, end, 0);
                }
            }
        }
    } else if n <= key.len() {
        // The key has the prefix.
        assert(key.subrange(0, n) =~= prefix);
        if key.len() > n {
            lemma_lex_short(prefix, key, 0);
        } else {
            assert(key =~= prefix);
            order::lemma_lex_equal(key, prefix, 0);
        }
        if m > 0 {
            let end = prefix_end(prefix);
            assert forall|j: int| 0 <= j < m - 1 implies #[trigger] key[j] == end[j] by {
                assert(end[j] == prefix[j]);
            }
            assert(key[m - 1] == prefix[m - 1]);
            lemma_lex_at(key, end, 0, m - 1);
        }
    } else {
        // The key is cut short, and sorts below the prefix.
        assert forall|j: int| 0 <= j < key.len() implies #[trigger] key[j] == prefix[j] by {}
        lemma_lex_short(key, prefix, 0);
    }
}

/// Bounds are a range where the lower is not above the upper, whether they are inside or outside. An
/// end without a bound is never in the way, and which keys are inside goes by each end alone.
pub proof fn lemma_bounds_order(
    e: SharedEncoding,
    lo: Seq<u8>,
    hi: Seq<u8>,
    lower: Bound<Seq<u8>>,
    upper: Bound<Seq<u8>>,
)
    requires
        lower == Bound::Included(lo) || lower == Bound::Excluded(lo),
        upper == Bound::Included(hi) || upper == Bound::Excluded(hi),
        e.inner.accepts(lo) && e.inner.accepts(hi),
    ensures
        (Ends { lower, upper, empty: false }).comparable(e) <==> !(e.inner.sign(lo, hi) > 0),
        (Ends { lower, upper: Bound::Unbounded, empty: false }).comparable(e),
        (Ends { lower: Bound::Unbounded, upper, empty: false }).comparable(e),
        (Ends { lower, upper, empty: false }).accepted(e),
        forall|key: Seq<u8>, ends: Ends| #[trigger]
            ends.selects(e, key) && ends.lower == Bound::Included(lo) ==> !(e.inner.sign(key, lo)
                < 0),
        forall|key: Seq<u8>, ends: Ends| #[trigger]
            ends.selects(e, key) && ends.upper == Bound::Excluded(hi) ==> e.inner.sign(key, hi) < 0,
        forall|key: Seq<u8>, ends: Ends| #[trigger]
            ends.selects(e, key) && ends.lower == Bound::Excluded(lo) ==> e.inner.sign(key, lo) > 0,
        forall|key: Seq<u8>, ends: Ends| #[trigger]
            ends.selects(e, key) && ends.upper == Bound::Included(hi) ==> !(e.inner.sign(key, hi)
                > 0),
{
}

} // verus!
