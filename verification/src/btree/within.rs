//! Searching and checking one page.
//!
//! Every page carries an order-preserving digest per entry, so a search first finds the
//! rank of the first digest that can match (binary search over the sorted array, or a
//! branch-free descent over the Eytzinger tree) and only then compares keys, walking
//! the run of equal digests. On pages that omit their keys the digest is exact and there
//! are no key bytes at all, so the comparison *is* the digest comparison.

use vstd::prelude::*;

use crate::encoding::{self, KeyEncoding, KeyOrder, SharedEncoding};
use crate::error::{Error, Words};
use crate::format::node::{self, NodeKind, NodeLayout, PageView};
use crate::model;

verus! {

broadcast use crate::format::group_format;

/// How an entry compares with a key: by their digests where the page has nothing else.
pub open spec fn entry_sign(e: SharedEncoding, p: Seq<u8>, i: int, key: Seq<u8>) -> int {
    if node::page_layout(p).omitted_keys {
        node::page_digests(p)[i] - e.inner.digest_of(key)
    } else {
        e.inner.sign(node::entry_key_at(p, i), key)
    }
}

/// Whether a page stores these keys, in order, under an encoding that keeps its laws.
pub open spec fn ordered(
    e: SharedEncoding,
    layout: NodeLayout,
    p: Seq<u8>,
    keys: Seq<Seq<u8>>,
) -> bool {
    &&& model::keys_ok(e, layout, p, keys)
    &&& model::ascending_keys(e, keys)
    &&& encoding::lawful(&**e.inner)
}

/// On an ordered page, entries compare as their keys do.
pub proof fn lemma_entry_sign(
    e: SharedEncoding,
    layout: NodeLayout,
    p: Seq<u8>,
    keys: Seq<Seq<u8>>,
    i: int,
    key: Seq<u8>,
)
    requires
        ordered(e, layout, p, keys),
        0 <= i < keys.len(),
        e.inner.accepts(key),
    ensures
        KeyOrder::of_sign(entry_sign(e, p, i, key)) == KeyOrder::of_sign(
            e.inner.sign(keys[i], key),
        ),
        e.inner.accepts(keys[i]),
{
    let k = keys[i];
    assert(e.inner.accepts(k));
    if layout.omitted_keys {
        assert(node::page_digests(p)[i] == e.inner.digest_of(k));
        let (a, b) = (e.inner.digest_of(k), e.inner.digest_of(key));
        if a < b {
            if e.inner.sign(k, key) >= 0 {
                assert(e.inner.sign(key, k) <= 0) by {
                    if e.inner.sign(key, k) > 0 {
                        assert(e.inner.sign(k, key) < 0);
                    }
                }
            }
        } else if a == b {
            assert(e.inner.sign(k, key) == 0);
        } else {
            if e.inner.sign(k, key) <= 0 {
                assert(a <= b);
            }
        }
    } else {
        assert(node::entry_key_at(p, i) == k);
    }
}

/// On an ordered page, the entries before the rank of a key's digest are below the key.
pub proof fn lemma_before_rank(
    e: SharedEncoding,
    layout: NodeLayout,
    p: Seq<u8>,
    keys: Seq<Seq<u8>>,
    key: Seq<u8>,
    rank: int,
    i: int,
)
    requires
        ordered(e, layout, p, keys),
        e.inner.accepts(key),
        node::is_rank(node::page_digests(p), e.inner.digest_of(key), rank),
        0 <= i < rank,
        i < keys.len(),
    ensures
        e.inner.sign(keys[i], key) < 0,
{
    let ds = node::page_digests(p);
    assert forall|a: int, b: int| 0 <= a <= b < ds.len() implies ds[a] <= ds[b] by {
        if b < keys.len() {
            assert(ds[a] == e.inner.digest_of(keys[a]));
            assert(ds[b] == e.inner.digest_of(keys[b]));
            if a < b {
                assert(e.inner.sign(keys[a], keys[b]) < 0);
            }
        } else {
            assert(ds[b] == u64::MAX);
        }
    }
    node::lemma_rank_splits(ds, e.inner.digest_of(key), rank);
    assert(ds[i] == e.inner.digest_of(keys[i]));
    if e.inner.sign(keys[i], key) >= 0 {
        assert(e.inner.sign(key, keys[i]) <= 0) by {
            if e.inner.sign(key, keys[i]) > 0 {
                assert(e.inner.sign(keys[i], key) < 0);
            }
        }
    }
}

/// Whether an error says that a page is not what it should be: that it is corrupt, or what
/// the encoding says of keys that it cannot compare or digest.
pub open spec fn page_fault(encoding: SharedEncoding, e: Error) -> bool {
    e.is_corrupt() || !e.is_resource() && encoding.inner.faults(e.kind())
}

/// The key bytes of an entry, whichever kind of node this is.
pub fn entry_key<'a>(view: &PageView<'a>, index: usize) -> (r: Result<&'a [u8], Error>)
    ensures
        node::page_ok(view.page()),
        match r {
            Ok(key) => index < node::page_count(view.page()) && key@ == node::entry_key_at(
                view.page(),
                index as int,
            ),
            Err(e) => e.is_corrupt() && (index >= node::page_count(view.page())
                || !node::entries_ok(view.page())),
        },
{
    match view.kind() {
        NodeKind::Leaf => match view.leaf_entry(index) {
            Ok(entry) => view.leaf_key(&entry),
            Err(e) => {
                proof {
                    if index < node::page_count(view.page()) && node::entries_ok(view.page()) {
                        assert(node::entry_ok(view.page(), index as int));
                    }
                }
                Err(e)
            },
        },
        NodeKind::Internal => match view.internal_entry(index) {
            Ok(entry) => view.internal_key(&entry),
            Err(e) => {
                proof {
                    if index < node::page_count(view.page()) && node::entries_ok(view.page()) {
                        assert(node::entry_ok(view.page(), index as int));
                    }
                }
                Err(e)
            },
        },
    }
}

/// Compares an entry with a key.
pub fn compare_entry(
    encoding: &SharedEncoding,
    view: &PageView<'_>,
    index: usize,
    key: &[u8],
    key_digest: u64,
) -> (r: Result<KeyOrder, Error>)
    requires
        encoding.inner.accepts(key@),
        key_digest == encoding.inner.digest_of(key@),
    ensures
        node::page_ok(view.page()),
        match r {
            Ok(o) => index < node::page_count(view.page()) && o == KeyOrder::of_sign(
                entry_sign(*encoding, view.page(), index as int, key@),
            ),
            Err(e) => page_fault(*encoding, e) && forall|layout: NodeLayout, keys: Seq<Seq<u8>>|
                #[trigger] ordered(*encoding, layout, view.page(), keys) ==> index >= keys.len(),
        },
{
    let ghost p = view.page();
    if view.layout().omitted_keys {
        let digest = match view.digest_at(index) {
            Ok(digest) => digest,
            Err(e) => return Err(e),
        };
        return Ok(
            if digest < key_digest {
                KeyOrder::Less
            } else if digest == key_digest {
                KeyOrder::Equal
            } else {
                KeyOrder::Greater
            },
        );
    }
    let stored = match entry_key(view, index) {
        Ok(stored) => stored,
        Err(e) => return Err(e),
    };
    match encoding.order(stored, key) {
        Ok(o) => Ok(o),
        Err(e) => {
            proof {
                assert forall|layout: NodeLayout, keys: Seq<Seq<u8>>|
                    #[trigger] ordered(*encoding, layout, p, keys) implies index >= keys.len() by {
                    if index < keys.len() {
                        assert(node::entry_key_at(p, index as int) == keys[index as int]);
                    }
                }
            }
            Err(e)
        },
    }
}

/// Whether the entry a scan stopped at is where it should stop.
pub open spec fn stops_at(
    e: SharedEncoding,
    p: Seq<u8>,
    key: Seq<u8>,
    upper: bool,
    n: int,
) -> bool {
    n < node::page_count(p) ==> entry_sign(e, p, n, key) > 0 || (!upper && entry_sign(e, p, n, key)
        == 0)
}

/// How many entries of a page sort below a key, or at or below it.
pub fn bound_in(
    encoding: &SharedEncoding,
    view: &PageView<'_>,
    key: &[u8],
    key_digest: u64,
    upper: bool,
) -> (r: Result<usize, Error>)
    requires
        encoding.inner.accepts(key@),
        key_digest == encoding.inner.digest_of(key@),
    ensures
        node::page_ok(view.page()),
        match r {
            Ok(n) => {
                &&& n <= node::page_count(view.page())
                &&& stops_at(*encoding, view.page(), key@, upper, n as int)
                &&& forall|layout: NodeLayout, keys: Seq<Seq<u8>>|
                    #[trigger] ordered(*encoding, layout, view.page(), keys) ==> model::is_bound(
                        *encoding,
                        keys,
                        key@,
                        upper,
                        n as int,
                    )
            },
            Err(e) => page_fault(*encoding, e) && forall|layout: NodeLayout, keys: Seq<Seq<u8>>|
                !#[trigger] ordered(*encoding, layout, view.page(), keys),
        },
{
    let ghost p = view.page();
    let count = view.entry_count();
    let start = match view.lower_bound_rank(key_digest) {
        Ok(start) => start,
        Err(e) => return Err(e),
    };
    let mut i: usize = if start < count {
        start
    } else {
        count
    };
    proof {
        assert forall|layout: NodeLayout, keys: Seq<Seq<u8>>|
            #[trigger] ordered(*encoding, layout, p, keys) implies below_all(
            *encoding,
            keys,
            key@,
            upper,
            i as int,
        ) by {
            assert forall|j: int| 0 <= j < i implies encoding.inner.sign(
                #[trigger] keys[j],
                key@,
            ) < 0 by {
                lemma_before_rank(*encoding, layout, p, keys, key@, start as int, j);
            }
        }
    }
    while i < count
        invariant
            i <= count,
            p == view.page(),
            node::page_ok(p),
            count == node::page_count(p),
            encoding.inner.accepts(key@),
            key_digest == encoding.inner.digest_of(key@),
            forall|layout: NodeLayout, keys: Seq<Seq<u8>>|
                #[trigger] ordered(*encoding, layout, p, keys) ==> below_all(
                    *encoding,
                    keys,
                    key@,
                    upper,
                    i as int,
                ),
        decreases count - i,
    {
        let order = match compare_entry(encoding, view, i, key, key_digest) {
            Ok(order) => order,
            Err(e) => return Err(e),
        };
        if order == KeyOrder::Greater || (!upper && order == KeyOrder::Equal) {
            proof {
                assert forall|layout: NodeLayout, keys: Seq<Seq<u8>>|
                    #[trigger] ordered(*encoding, layout, p, keys) implies model::is_bound(
                    *encoding,
                    keys,
                    key@,
                    upper,
                    i as int,
                ) by {
                    lemma_bound(*encoding, layout, p, keys, key@, upper, i as int);
                }
            }
            return Ok(i);
        }
        proof {
            assert forall|layout: NodeLayout, keys: Seq<Seq<u8>>|
                #[trigger] ordered(*encoding, layout, p, keys) implies below_all(
                *encoding,
                keys,
                key@,
                upper,
                i + 1,
            ) by {
                assert(below_all(*encoding, keys, key@, upper, i as int));
                lemma_entry_sign(*encoding, layout, p, keys, i as int, key@);
            }
        }
        i += 1;
    }
    Ok(i)
}

/// Whether the first `n` keys sort below a key, or at or below it.
pub open spec fn below_all(
    e: SharedEncoding,
    keys: Seq<Seq<u8>>,
    key: Seq<u8>,
    upper: bool,
    n: int,
) -> bool {
    forall|j: int|
        0 <= j < n ==> e.inner.sign(#[trigger] keys[j], key) < 0 || (upper && e.inner.sign(
            keys[j],
            key,
        ) == 0)
}

/// A scan that stopped found the bound.
proof fn lemma_bound(
    e: SharedEncoding,
    layout: NodeLayout,
    p: Seq<u8>,
    keys: Seq<Seq<u8>>,
    key: Seq<u8>,
    upper: bool,
    n: int,
)
    requires
        ordered(e, layout, p, keys),
        e.inner.accepts(key),
        0 <= n < keys.len(),
        below_all(e, keys, key, upper, n),
        stops_at(e, p, key, upper, n),
    ensures
        model::is_bound(e, keys, key, upper, n),
{
    lemma_entry_sign(e, layout, p, keys, n, key);
    assert forall|i: int| n <= i < keys.len() implies (e.inner.sign(#[trigger] keys[i], key) > 0 || (
    !upper && e.inner.sign(keys[i], key) == 0)) by {
        if i > n {
            let (a, b) = (keys[n], keys[i]);
            assert(e.inner.accepts(a) && e.inner.accepts(b));
            assert(e.inner.sign(a, b) < 0);
            // key <= a < b, so key < b.
            assert(e.inner.sign(key, a) <= 0) by {
                if e.inner.sign(key, a) > 0 {
                    assert(e.inner.sign(a, key) < 0);
                }
            }
            assert(e.inner.sign(key, b) <= 0 && (e.inner.sign(key, b) == 0 ==> e.inner.sign(a, b)
                == 0));
            assert(e.inner.sign(key, b) < 0);
            assert(e.inner.sign(b, key) > 0);
        }
    }
}

/// Which entry a leaf search is after.
#[derive(Debug, Clone, Copy, PartialEq, Eq, Structural)]
pub enum SearchOp {
    /// The entry equal to the key.
    Equal,
    /// The first entry `>= key`.
    LowerBound,
    /// The first entry `> key`.
    UpperBound,
}

/// Whether an entry is what a search in one page is after, or none is.
pub open spec fn is_hit(
    e: SharedEncoding,
    keys: Seq<Seq<u8>>,
    key: Seq<u8>,
    op: SearchOp,
    r: Option<usize>,
) -> bool {
    match op {
        SearchOp::Equal => match r {
            Some(i) => i < keys.len() && e.inner.sign(keys[i as int], key) == 0,
            None => forall|j: int|
                0 <= j < keys.len() ==> e.inner.sign(#[trigger] keys[j], key) != 0,
        },
        _ => match r {
            Some(i) => i < keys.len() && model::is_bound(
                e,
                keys,
                key,
                op == SearchOp::UpperBound,
                i as int,
            ),
            None => model::is_bound(
                e,
                keys,
                key,
                op == SearchOp::UpperBound,
                keys.len() as int,
            ),
        },
    }
}

/// Resolves `op` inside one page.
pub fn leaf_search(
    encoding: &SharedEncoding,
    view: &PageView<'_>,
    key: &[u8],
    key_digest: u64,
    op: SearchOp,
) -> (r: Result<Option<usize>, Error>)
    requires
        encoding.inner.accepts(key@),
        key_digest == encoding.inner.digest_of(key@),
    ensures
        node::page_ok(view.page()),
        match r {
            Ok(found) => {
                &&& found matches Some(i) ==> i < node::page_count(view.page()) && (op
                    == SearchOp::Equal ==> entry_sign(*encoding, view.page(), i as int, key@) == 0)
                    && (op != SearchOp::Equal ==> stops_at(
                    *encoding,
                    view.page(),
                    key@,
                    op == SearchOp::UpperBound,
                    i as int,
                ))
                &&& forall|layout: NodeLayout, keys: Seq<Seq<u8>>|
                    #[trigger] ordered(*encoding, layout, view.page(), keys) ==> is_hit(
                        *encoding,
                        keys,
                        key@,
                        op,
                        found,
                    )
            },
            Err(e) => page_fault(*encoding, e) && forall|layout: NodeLayout, keys: Seq<Seq<u8>>|
                !#[trigger] ordered(*encoding, layout, view.page(), keys),
        },
{
    let ghost p = view.page();
    let n = match bound_in(encoding, view, key, key_digest, op == SearchOp::UpperBound) {
        Ok(n) => n,
        Err(e) => return Err(e),
    };
    let count = view.entry_count();
    if n >= count {
        return Ok(None);
    }
    if op == SearchOp::Equal {
        let order = match compare_entry(encoding, view, n, key, key_digest) {
            Ok(order) => order,
            Err(e) => return Err(e),
        };
        let equal = order == KeyOrder::Equal;
        proof {
            assert forall|layout: NodeLayout, keys: Seq<Seq<u8>>|
                #[trigger] ordered(*encoding, layout, p, keys) implies (if equal {
                encoding.inner.sign(keys[n as int], key@) == 0
            } else {
                forall|j: int|
                    0 <= j < keys.len() ==> encoding.inner.sign(#[trigger] keys[j], key@) != 0
            }) by {
                lemma_entry_sign(*encoding, layout, p, keys, n as int, key@);
                if !equal {
                    assert forall|j: int| 0 <= j < keys.len() implies encoding.inner.sign(
                        #[trigger] keys[j],
                        key@,
                    ) != 0 by {
                        if j > n {
                            lemma_above(*encoding, keys, key@, n as int, j);
                        }
                    }
                }
            }
        }
        if !equal {
            return Ok(None);
        }
    }
    Ok(Some(n))
}

/// Keys after one that sorts above a key sort above it too.
proof fn lemma_above(e: SharedEncoding, keys: Seq<Seq<u8>>, key: Seq<u8>, n: int, j: int)
    requires
        encoding::lawful(&**e.inner),
        model::ascending_keys(e, keys),
        e.inner.accepts(key),
        0 <= n < j < keys.len(),
        e.inner.sign(keys[n], key) > 0,
    ensures
        e.inner.sign(keys[j], key) > 0,
{
    let (a, b) = (keys[n], keys[j]);
    assert(e.inner.accepts(a) && e.inner.accepts(b));
    assert(e.inner.sign(a, b) < 0);
    assert(e.inner.sign(key, a) < 0);
    assert(e.inner.sign(key, b) <= 0 && (e.inner.sign(key, b) == 0 ==> e.inner.sign(key, a) == 0));
    assert(e.inner.sign(key, b) < 0);
}

/// Whether separators on this page can only be compared through their digests.
///
/// A page that omits key bytes has nothing but the digest to compare, and some
/// encodings map several distinct keys to one digest on purpose: a non-unique
/// secondary index digests the source key alone, so every row sharing a source key
/// shares a digest. Two children can then hold the same digest without holding the
/// same key.
pub fn separators_are_inexact(encoding: &SharedEncoding, view: &PageView<'_>) -> (r: bool)
    ensures
        r == (node::page_layout(view.page()).omitted_keys && !encoding.inner.exact()),
{
    view.layout().omitted_keys && !encoding.inner.is_digest_exact()
}

/// Whether a separator is the last one at or below a key, or the first when there is none.
pub open spec fn is_descent(
    e: SharedEncoding,
    keys: Seq<Seq<u8>>,
    key: Seq<u8>,
    c: int,
) -> bool {
    &&& 0 <= c < keys.len()
    &&& c > 0 ==> e.inner.sign(keys[c], key) <= 0
    &&& c + 1 < keys.len() ==> e.inner.sign(keys[c + 1], key) > 0
}

/// Index of the child to descend into, and whether the choice was conservative.
///
/// Normally the last separator `<= key`, which is the child that holds it.
///
/// When the separators can only be compared through their digests, an equal
/// comparison no longer means the child starts at the key: the child before it can
/// hold matching rows in its tail while starting below the key, and no rightward walk
/// reaches a child that was already passed. So the descent takes the last child whose
/// separator is *strictly* below the key. That child is at or before the first match,
/// and walking right from it reaches the rest.
pub fn internal_child_index(
    encoding: &SharedEncoding,
    view: &PageView<'_>,
    key: &[u8],
    key_digest: u64,
) -> (r: Result<(usize, bool), Error>)
    requires
        encoding.inner.accepts(key@),
        key_digest == encoding.inner.digest_of(key@),
        node::page_count(view.page()) > 0,
    ensures
        node::page_ok(view.page()),
        match r {
            Ok((c, inexact)) => {
                &&& c < node::page_count(view.page())
                &&& inexact ==> node::page_layout(view.page()).omitted_keys
                    && !encoding.inner.exact()
                &&& forall|layout: NodeLayout, keys: Seq<Seq<u8>>|
                    #[trigger] ordered(*encoding, layout, view.page(), keys) ==> !inexact
                        && is_descent(*encoding, keys, key@, c as int)
            },
            Err(e) => page_fault(*encoding, e) && forall|layout: NodeLayout, keys: Seq<Seq<u8>>|
                !#[trigger] ordered(*encoding, layout, view.page(), keys),
        },
{
    let ghost p = view.page();
    let count = view.entry_count();
    // The first separator that is not below the key.
    let i = match bound_in(encoding, view, key, key_digest, false) {
        Ok(i) => i,
        Err(e) => return Err(e),
    };
    let before = if i > 0 {
        i - 1
    } else {
        0
    };
    let equal = if i < count {
        match compare_entry(encoding, view, i, key, key_digest) {
            Ok(order) => order == KeyOrder::Equal,
            Err(e) => return Err(e),
        }
    } else {
        false
    };
    proof {
        assert forall|layout: NodeLayout, keys: Seq<Seq<u8>>|
            #[trigger] ordered(*encoding, layout, p, keys) implies is_descent(
            *encoding,
            keys,
            key@,
            if equal {
                i as int
            } else {
                before as int
            },
        ) by {
            if i < count {
                lemma_entry_sign(*encoding, layout, p, keys, i as int, key@);
                if i + 1 < count && equal {
                    lemma_above_equal(*encoding, keys, key@, i as int, i + 1);
                }
            }
        }
    }
    if separators_are_inexact(encoding, view) {
        return Ok((before, equal));
    }
    if equal {
        return Ok((i, false));
    }
    Ok((before, false))
}

/// Keys after one that is the key sort above it.
proof fn lemma_above_equal(e: SharedEncoding, keys: Seq<Seq<u8>>, key: Seq<u8>, n: int, j: int)
    requires
        encoding::lawful(&**e.inner),
        model::ascending_keys(e, keys),
        e.inner.accepts(key),
        0 <= n < j < keys.len(),
        e.inner.sign(keys[n], key) == 0,
    ensures
        e.inner.sign(keys[j], key) > 0,
{
    let (a, b) = (keys[n], keys[j]);
    assert(e.inner.accepts(a) && e.inner.accepts(b));
    assert(e.inner.sign(a, b) < 0);
    assert(e.inner.sign(key, a) <= 0) by {
        if e.inner.sign(key, a) > 0 {
            assert(e.inner.sign(a, key) < 0);
        }
    }
    assert(e.inner.sign(key, b) <= 0 && (e.inner.sign(key, b) == 0 ==> e.inner.sign(a, b) == 0));
    assert(e.inner.sign(key, b) < 0);
}

/// Whether every entry of a page is below a key, so a match can only be further right. An
/// empty page counts, since it rules nothing out.
pub fn ends_below(
    encoding: &SharedEncoding,
    view: &PageView<'_>,
    key: &[u8],
    key_digest: u64,
) -> (r: Result<bool, Error>)
    requires
        encoding.inner.accepts(key@),
        key_digest == encoding.inner.digest_of(key@),
    ensures
        match r {
            Ok(b) => b == (node::page_count(view.page()) == 0 || entry_sign(
                *encoding,
                view.page(),
                node::page_count(view.page()) - 1,
                key@,
            ) < 0),
            Err(e) => page_fault(*encoding, e) && forall|layout: NodeLayout, keys: Seq<Seq<u8>>|
                !#[trigger] ordered(*encoding, layout, view.page(), keys),
        },
{
    let count = view.entry_count();
    if count == 0 {
        return Ok(true);
    }
    match compare_entry(encoding, view, count - 1, key, key_digest) {
        Ok(order) => Ok(order == KeyOrder::Less),
        Err(e) => Err(e),
    }
}

/// Whether an entry's digest goes with its key, and the key sorts above the one before.
pub open spec fn entry_sound(e: SharedEncoding, p: Seq<u8>, i: int) -> bool {
    let key = node::entry_key_at(p, i);
    &&& e.inner.well_formed(key)
    &&& e.inner.admits(key, node::page_digests(p)[i])
    &&& i > 0 ==> {
        let previous = node::entry_key_at(p, i - 1);
        e.inner.accepts(previous) && e.inner.accepts(key) && e.inner.sign(previous, key) < 0
    }
}

/// Whether the digest at `i` sorts above the one before, or repeats it where two rows may
/// share one.
pub open spec fn digest_step(e: SharedEncoding, p: Seq<u8>, i: int) -> bool {
    let (a, b) = (node::page_digests(p)[i - 1], node::page_digests(p)[i]);
    a < b || (a == b && !e.inner.exact())
}

/// Whether a page is ordered the way a search assumes it is.
///
/// Each stored digest is the digest of its own key and the keys ascend; slots past the
/// entries hold the sentinel. On a page that omits its keys the digests themselves ascend,
/// and the encoding can rebuild keys from them.
pub open spec fn digests_sound(e: SharedEncoding, p: Seq<u8>) -> bool {
    let n = node::page_count(p);
    if node::page_layout(p).omitted_keys {
        &&& e.inner.rebuilt_len() is Some
        &&& forall|i: int| 1 <= i < n ==> #[trigger] digest_step(e, p, i)
    } else {
        &&& forall|i: int| 0 <= i < n ==> #[trigger] entry_sound(e, p, i)
        &&& forall|i: int|
            n <= i < node::page_digests(p).len() ==> #[trigger] node::page_digests(p)[i] == u64::MAX
    }
}

/// An ordered page passes the check.
pub proof fn lemma_ordered_sound(
    e: SharedEncoding,
    layout: NodeLayout,
    p: Seq<u8>,
    keys: Seq<Seq<u8>>,
)
    requires
        ordered(e, layout, p, keys),
    ensures
        digests_sound(e, p),
{
    let ds = node::page_digests(p);
    if layout.omitted_keys {
        assert forall|i: int| 1 <= i < keys.len() implies #[trigger] digest_step(e, p, i) by {
            assert(ds[i - 1] == e.inner.digest_of(keys[i - 1]));
            assert(ds[i] == e.inner.digest_of(keys[i]));
            assert(e.inner.accepts(keys[i - 1]) && e.inner.accepts(keys[i]));
            assert(e.inner.sign(keys[i - 1], keys[i]) < 0);
        }
    } else {
        assert forall|i: int| 0 <= i < keys.len() implies #[trigger] entry_sound(e, p, i) by {
            assert(node::entry_key_at(p, i) == keys[i]);
            assert(ds[i] == e.inner.digest_of(keys[i]));
            assert(e.inner.accepts(keys[i]));
            if i > 0 {
                assert(node::entry_key_at(p, i - 1) == keys[i - 1]);
                assert(e.inner.sign(keys[i - 1], keys[i]) < 0);
            }
        }
    }
}

/// Whether an entry's key is one of the encoding, and its digest one that the key may have.
pub open spec fn key_good(e: SharedEncoding, p: Seq<u8>, i: int) -> bool {
    e.inner.accepts(node::entry_key_at(p, i)) && e.inner.admits(
        node::entry_key_at(p, i),
        node::page_digests(p)[i],
    )
}

/// Checks one entry's digest and key, and its place after the one before.
fn check_entry<'a>(encoding: &SharedEncoding, view: &PageView<'a>, index: usize) -> (r: Result<
    (),
    Error,
>)
    requires
        index < node::page_count(view.page()),
    ensures
        node::page_ok(view.page()),
        match r {
            Ok(_) => entry_sound(*encoding, view.page(), index as int),
            Err(e) => {
                &&& page_fault(*encoding, e)
                &&& !(entry_sound(*encoding, view.page(), index as int) && node::entries_ok(
                    view.page(),
                ))
                &&& key_good(*encoding, view.page(), index as int) && (index > 0 ==> key_good(
                    *encoding,
                    view.page(),
                    index - 1,
                )) ==> e.is_corrupt()
            },
        },
{
    let stored = match view.ranked_digest(index) {
        Ok(stored) => stored,
        Err(e) => {
            proof {
                crate::format::eytzinger::lemma_complete_height(node::page_count(view.page()));
            }
            return Err(e);
        },
    };
    let key = match entry_key(view, index) {
        Ok(key) => key,
        Err(e) => return Err(e),
    };
    // A digest covers at most the first eight bytes of a key, so a key that lost the
    // rest of itself still digests to what the page says. The width is the part of the
    // key the digest cannot speak for.
    match encoding.inner.validate_key(key) {
        Ok(_) => {},
        Err(e) => {
            return Err(
                Error::corrupt_words(
                    Words::new("entry ")
                        .number(index as u64)
                        .say(" is not a well-formed key of encoding `")
                        .say(encoding.inner.id())
                        .say("`: ")
                        .say(e.to_text().as_str()),
                ),
            );
        },
    }
    match encoding.inner.accepts_digest(key, stored) {
        Ok(admitted) => {
            if !admitted {
                let computed = match encoding.inner.digest(key) {
                    Ok(computed) => computed,
                    Err(e) => return Err(e),
                };
                return Err(
                    Error::corrupt_words(
                        Words::new("entry ")
                            .number(index as u64)
                            .say(" stores digest ")
                            .digest(stored)
                            .say(" but its key digests to ")
                            .digest(computed)
                            .say("; searches would skip rows on this page"),
                    ),
                );
            }
        },
        Err(e) => return Err(e),
    }
    if index > 0 {
        let previous = match entry_key(view, index - 1) {
            Ok(previous) => previous,
            Err(e) => return Err(e),
        };
        return check_ascending(encoding, previous, key, index);
    }
    Ok(())
}

/// What is said of an entry that does not sort above the one before it: which one it is, and
/// nothing of either key.
pub open spec fn out_of_order_text(index: nat) -> Seq<char> {
    "entry "@ + crate::error::decimal(index)
        + " does not sort above the previous entry; a search stops at the first key above the one it wants, so rows after this one would be unreachable"@
}

/// Checks that a key sorts above the one before it.
///
/// The error names the entry by its index. It carries no bytes of either key, so it can be
/// logged without giving records away.
pub fn check_ascending(
    encoding: &SharedEncoding,
    previous: &[u8],
    key: &[u8],
    index: usize,
) -> (r: Result<(), Error>)
    ensures
        ({
            let accepted = encoding.inner.accepts(previous@) && encoding.inner.accepts(key@);
            match r {
                Ok(_) => accepted && encoding.inner.sign(previous@, key@) < 0,
                Err(e) => if accepted {
                    &&& encoding.inner.sign(previous@, key@) >= 0
                    &&& e.is_corrupt()
                    &&& e.spec_message() == out_of_order_text(index as nat)
                } else {
                    !e.is_resource() && encoding.inner.faults(e.kind())
                },
            }
        }),
{
    let order = match encoding.order(previous, key) {
        Ok(order) => order,
        Err(e) => return Err(e),
    };
    if order != KeyOrder::Less {
        return Err(
            Error::corrupt_number(
                "entry ",
                index as u64,
                " does not sort above the previous entry; a search stops at the first key above the one it wants, so rows after this one would be unreachable",
            ),
        );
    }
    Ok(())
}

/// Checks the digests of a page that has nothing else.
fn check_bare_digests(encoding: &SharedEncoding, view: &PageView<'_>) -> (r: Result<(), Error>)
    requires
        node::page_layout(view.page()).omitted_keys,
    ensures
        match r {
            Ok(_) => digests_sound(*encoding, view.page()),
            Err(e) => e.is_corrupt() && !digests_sound(*encoding, view.page()),
        },
{
    let ghost p = view.page();
    // A page with no key bytes is read entirely through its digests: the search compares
    // them instead of keys, and everything that wants a key rebuilds it from one. That only
    // means anything for an encoding that can do the rebuild, and says how large the result
    // can be. Under any other encoding the digest is not the key, so a search would match a
    // key that is not there and hand back the row it landed on.
    if encoding.inner.max_rebuilt_key_len().is_none() {
        return Err(
            Error::corrupt_words(
                Words::new("page omits key bytes but encoding `")
                    .say(encoding.inner.id())
                    .say("` does not say how large a rebuilt key can be; implement `KeyEncoding::max_rebuilt_key_len`"),
            ),
        );
    }
    // Equal digests are two rows under one key. That is normal for a non-unique index, whose
    // digest covers the source key and not the record id, and it is a duplicate key anywhere
    // else: a search stops at the first match and the rows behind it are on the page but out
    // of reach.

    let strict = encoding.inner.is_digest_exact();
    let count = view.entry_count();
    let ghost ds = node::page_digests(p);
    let mut i: usize = 1;
    while i < count
        invariant
            1 <= i,
            i <= count || count == 0 && i == 1,
            p == view.page(),
            ds == node::page_digests(p),
            node::page_ok(p),
            count == node::page_count(p),
            ds.len() >= count,
            node::page_layout(p).omitted_keys,
            strict == encoding.inner.exact(),
            forall|j: int| 1 <= j < i ==> #[trigger] digest_step(*encoding, p, j),
        decreases count - i,
    {
        let previous = match view.ranked_digest(i - 1) {
            Ok(previous) => previous,
            Err(e) => return Err(e),
        };
        let stored = match view.ranked_digest(i) {
            Ok(stored) => stored,
            Err(e) => return Err(e),
        };
        if stored < previous || (strict && stored == previous) {
            proof {
                assert(!digest_step(*encoding, p, i as int));
            }
            let how = if stored == previous {
                "repeats"
            } else {
                "is below"
            };
            return Err(
                Error::corrupt_words(
                    Words::new("entry ")
                        .number(i as u64)
                        .say(" stores digest ")
                        .digest(stored)
                        .say(", which ")
                        .say(how)
                        .say(" the previous entry's ")
                        .digest(previous)
                        .say("; the search over the digests would skip rows"),
                ),
            );
        }
        i += 1;
    }
    Ok(())
}

/// Checks that a page is ordered the way a search assumes it is.
///
/// A search does two things on a page, and loses rows without violating any bound if
/// either assumption is wrong. It binary searches the digests to find where to start
/// comparing keys, and it then scans forward until it meets a key above the one it
/// wants. So each stored digest has to be the digest of its own key, and the keys
/// have to be strictly ascending: keys that share a digest can be out of order among
/// themselves while every digest still agrees with its own key. Past the entries an
/// Eytzinger page has to be padded with the sentinel, because the descent treats it as
/// larger than any key.
///
/// On a page that omits key bytes there is no key to compare a digest against, and
/// the digest *is* the key column, so the digests are checked for order directly
/// instead.
pub fn check_digests(encoding: &SharedEncoding, view: &PageView<'_>) -> (r: Result<(), Error>)
    ensures
        match r {
            Ok(_) => digests_sound(*encoding, view.page()),
            Err(e) => {
                &&& page_fault(*encoding, e)
                &&& !(digests_sound(*encoding, view.page()) && node::entries_ok(view.page()))
                &&& node::page_layout(view.page()).omitted_keys ==> e.is_corrupt()
                &&& (forall|i: int|
                    0 <= i < node::page_count(view.page()) ==> #[trigger] key_good(
                        *encoding,
                        view.page(),
                        i,
                    )) ==> e.is_corrupt()
            },
        },
{
    let ghost p = view.page();
    if view.layout().omitted_keys {
        return check_bare_digests(encoding, view);
    }
    let count = view.entry_count();
    let mut i: usize = 0;
    while i < count
        invariant
            i <= count,
            p == view.page(),
            count == node::page_count(p),
            !node::page_layout(p).omitted_keys,
            forall|j: int| 0 <= j < i ==> #[trigger] entry_sound(*encoding, p, j),
        decreases count - i,
    {
        match check_entry(encoding, view, i) {
            Ok(_) => {},
            Err(e) => return Err(e),
        }
        i += 1;
    }
    let slots = view.digest_slot_count();
    let ghost ds = node::page_digests(p);
    while i < slots
        invariant
            count <= i,
            p == view.page(),
            ds == node::page_digests(p),
            node::page_ok(p),
            count == node::page_count(p),
            slots == ds.len(),
            !node::page_layout(p).omitted_keys,
            forall|j: int| 0 <= j < count ==> #[trigger] entry_sound(*encoding, p, j),
            forall|j: int| count <= j < i && j < slots ==> #[trigger] ds[j] == u64::MAX,
        decreases slots - i,
    {
        let stored = match view.ranked_digest(i) {
            Ok(stored) => stored,
            Err(e) => return Err(e),
        };
        if stored != u64::MAX {
            proof {
                assert(ds[i as int] != u64::MAX);
            }
            return Err(
                Error::corrupt_words(
                    Words::new("Eytzinger slot at rank ")
                        .number(i as u64)
                        .say(" pads past the ")
                        .number(count as u64)
                        .say(" entries but holds ")
                        .digest(stored)
                        .say(" instead of the sentinel; the descent would take the wrong branch"),
                ),
            );
        }
        i += 1;
    }
    Ok(())
}

} // verus!
