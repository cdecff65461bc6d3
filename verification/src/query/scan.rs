//! Walking the leaves of a tree in one direction.
//!
//! A [`Spot`] is an entry of a leaf together with the part of that leaf a scan may give
//! out. A step goes from one spot to the next, and hands the new spot back rather than
//! moving, so that a step that fails leaves the caller where it was.

use vstd::prelude::*;

use super::range::{self, Bound, Ends, KeyRange};
use crate::btree::paths;
use crate::btree::within::{self, SearchOp};
use crate::btree::{self, Tree};
use crate::encoding::{self, KeyEncoding, SharedEncoding};
use crate::error::Error;
use crate::format::node::{self, NodeKind, NodeLayout, PageView};
use crate::format::PageOrdinal;
use crate::model::{self, TreeShape};
use crate::page::PagePin;

verus! {

broadcast use crate::format::group_format;

/// Which part of a leaf a scan may give out.
///
/// Going up, the entries before `limit` do not pass the upper bound. Going down, the
/// entries from `limit` on do not pass the lower one. `stop` says that the bound was met
/// here, so that no further leaf has anything.
pub open spec fn window(
    e: SharedEncoding,
    ends: Ends,
    asc: bool,
    keys: Seq<Seq<u8>>,
    limit: int,
    stop: bool,
) -> bool {
    &&& 0 <= limit <= keys.len()
    &&& asc ==> {
        &&& forall|i: int| 0 <= i < limit ==> ends.below_upper(e, #[trigger] keys[i])
        &&& forall|i: int| limit <= i < keys.len() ==> !ends.below_upper(e, #[trigger] keys[i])
        &&& stop <==> limit < keys.len()
    }
    &&& !asc ==> {
        &&& forall|i: int| 0 <= i < limit ==> !ends.above_lower(e, #[trigger] keys[i])
        &&& forall|i: int| limit <= i < keys.len() ==> ends.above_lower(e, #[trigger] keys[i])
        &&& limit > 0 ==> stop
        &&& stop ==> limit > 0 || keys.len() == 0
    }
}

/// Whether an entry of a page passes an upper bound.
pub open spec fn passes(e: SharedEncoding, upper: Bound<Seq<u8>>, p: Seq<u8>, i: int) -> bool {
    match upper {
        Bound::Unbounded => false,
        Bound::Included(k) => within::entry_sign(e, p, i, k) > 0,
        Bound::Excluded(k) => within::entry_sign(e, p, i, k) >= 0,
    }
}

/// Whether the part of a leaf that a scan may give out goes as far as its own entries say. A
/// scan without a far bound takes the whole leaf and never stops there; one that stops going
/// up has an entry that passes the bound.
pub open spec fn met(
    e: SharedEncoding,
    ends: Ends,
    asc: bool,
    p: Seq<u8>,
    limit: int,
    stop: bool,
) -> bool {
    let count = node::page_count(p);
    &&& 0 <= limit <= count
    &&& ends.far(asc) is Unbounded ==> !stop && limit == (if asc {
        count
    } else {
        0
    })
    &&& asc ==> stop == (limit < count) && (stop ==> passes(e, ends.upper, p, limit))
    &&& !asc && stop ==> limit > 0 || count == 0
}

/// Whether each leaf of a list is the one the leaf before it links to, which links back.
pub open spec fn is_path(t: &Tree, asc: bool, path: Seq<PageOrdinal>) -> bool {
    forall|k: int, l: int|
        0 <= k && l == k + 1 && l < path.len() ==> t.linked(
            #[trigger] path[k],
            asc,
            Some(#[trigger] path[l]),
        )
}

/// Whether the links of the leaves lead from one leaf to another, leaving none out.
pub open spec fn walked(t: &Tree, asc: bool, from: PageOrdinal, to: PageOrdinal) -> bool {
    exists|path: Seq<PageOrdinal>| #[trigger]
        is_path(t, asc, path) && path.len() > 0 && path[0] == from && path.last() == to
}

/// Whether a scan may end on a leaf: the chain and the tree end there, or the far bound was
/// met there.
pub open spec fn over(t: &Tree, ends: Ends, asc: bool, o: PageOrdinal) -> bool {
    ||| t.linked(o, asc, None)
    ||| t.spec_store().pages().contains_key(o) && exists|limit: int| #[trigger]
        met(t.spec_encoding(), ends, asc, t.spec_store().pages()[o], limit, true)
}

/// Whether the links of the leaves lead from one to a leaf on which the scan may end.
pub open spec fn ran_out(t: &Tree, ends: Ends, asc: bool, from: PageOrdinal) -> bool {
    exists|last: PageOrdinal| #[trigger] walked(t, asc, from, last) && over(t, ends, asc, last)
}

/// Whether a scan may start on a leaf: there is a tree, and without a near bound it is the leaf at that edge of the
/// tree.
pub open spec fn entered(t: &Tree, ends: Ends, asc: bool, o: PageOrdinal) -> bool {
    &&& t.spec_root() is Some
    &&& ends.far(!asc) is Unbounded ==> t.edge_is(asc, Some(o))
}

/// Whether a scan may find nothing to start from: the tree has no entries, or the chain was
/// followed to where the tree ends with nothing past the near bound.
pub open spec fn unentered(t: &Tree, ends: Ends, asc: bool) -> bool {
    ||| t.edge_is(asc, None)
    ||| !(ends.far(!asc) is Unbounded) && t.ran_dry(asc)
}

/// A leaf leads to itself.
pub proof fn lemma_walked_none(t: &Tree, asc: bool, o: PageOrdinal)
    ensures
        walked(t, asc, o, o),
{
    assert(is_path(t, asc, seq![o]));
}

/// One more leaf.
pub proof fn lemma_walked_on(
    t: &Tree,
    asc: bool,
    from: PageOrdinal,
    to: PageOrdinal,
    next: PageOrdinal,
)
    requires
        walked(t, asc, from, to),
        t.linked(to, asc, Some(next)),
    ensures
        walked(t, asc, from, next),
{
    let path = choose|path: Seq<PageOrdinal>| #[trigger]
        is_path(t, asc, path) && path.len() > 0 && path[0] == from && path.last() == to;
    let more = path.push(next);
    assert forall|k: int, l: int| 0 <= k && l == k + 1 && l < more.len() implies t.linked(
        #[trigger] more[k],
        asc,
        Some(#[trigger] more[l]),
    ) by {
        if l < path.len() {
            assert(t.linked(path[k], asc, Some(path[l])));
        }
    }
    assert(is_path(t, asc, more));
}

/// The way to a leaf and the way on from it.
pub proof fn lemma_walked_then(
    t: &Tree,
    ends: Ends,
    asc: bool,
    from: PageOrdinal,
    via: PageOrdinal,
    to: Option<PageOrdinal>,
)
    requires
        t.linked(from, asc, Some(via)),
        match to {
            Some(o) => walked(t, asc, via, o),
            None => ran_out(t, ends, asc, via),
        },
    ensures
        match to {
            Some(o) => walked(t, asc, from, o),
            None => ran_out(t, ends, asc, from),
        },
{
    let o = match to {
        Some(o) => o,
        None => choose|last: PageOrdinal| #[trigger]
            walked(t, asc, via, last) && over(t, ends, asc, last),
    };
    let path = choose|path: Seq<PageOrdinal>| #[trigger]
        is_path(t, asc, path) && path.len() > 0 && path[0] == via && path.last() == o;
    let more = seq![from] + path;
    assert forall|k: int, l: int| 0 <= k && l == k + 1 && l < more.len() implies t.linked(
        #[trigger] more[k],
        asc,
        Some(#[trigger] more[l]),
    ) by {
        if k > 0 {
            assert(t.linked(path[k - 1], asc, Some(path[l - 1])));
        }
    }
    assert(is_path(t, asc, more));
    assert(walked(t, asc, from, o));
}

/// An entry of a leaf, and the part of the leaf a scan may give out.
pub struct Spot {
    /// The leaf.
    pub pin: PagePin,
    /// The entry.
    pub index: usize,
    /// Ascending: one past the last entry to give out on this leaf. Descending: the first
    /// entry to give out on it.
    pub limit: usize,
    /// Whether the far bound was found on this leaf, ending the scan here.
    pub stop: bool,
    /// How many more leaves may be visited.
    pub steps: u64,
}

impl Clone for Spot {
    fn clone(&self) -> (r: Self)
        ensures
            r == *self,
    {
        Spot {
            pin: self.pin.clone(),
            index: self.index,
            limit: self.limit,
            stop: self.stop,
            steps: self.steps,
        }
    }
}

/// Whether a page is leaf `j`, with enough steps left for the leaves past it.
pub open spec fn placed(
    t: &Tree,
    asc: bool,
    steps: u64,
    s: TreeShape,
    o: PageOrdinal,
    j: int,
) -> bool {
    &&& paths::leaf_at(s, o, j)
    &&& if asc {
        steps + j >= t.spec_store().file().section.count
    } else {
        steps >= j + 1
    }
}

/// Whether a spot is on leaf `j`.
pub open spec fn spot_in(
    t: &Tree,
    ends: Ends,
    asc: bool,
    spot: Spot,
    s: TreeShape,
    j: int,
) -> bool {
    &&& placed(t, asc, spot.steps, s, spot.pin.spec_ordinal(), j)
    &&& window(
        t.spec_encoding(),
        ends,
        asc,
        model::node_keys(s, 0, j),
        spot.limit as int,
        spot.stop,
    )
}

/// Whether a spot is on some leaf of every tree the pages hold.
pub open spec fn spot_ok(t: &Tree, ends: Ends, asc: bool, spot: Spot) -> bool {
    &&& t.spec_root() is Some
    &&& t.pins(spot.pin)
    &&& node::page_kind(spot.pin@) == NodeKind::Leaf
    &&& spot.limit <= node::page_count(spot.pin@)
    &&& met(t.spec_encoding(), ends, asc, spot.pin@, spot.limit as int, spot.stop)
    &&& range::accepted_bound(t.spec_encoding(), ends.far(asc))
    &&& forall|s: TreeShape, layout: NodeLayout| #[trigger]
        t.holds(s, layout) ==> exists|j: int| #[trigger] spot_in(t, ends, asc, spot, s, j)
}

/// Whether a spot's entry is one to give out.
pub open spec fn live(asc: bool, spot: Spot) -> bool {
    &&& spot.index < node::page_count(spot.pin@)
    &&& if asc {
        spot.index < spot.limit
    } else {
        spot.limit <= spot.index
    }
}

/// Whether row `r` is what entry `i` of a page is, or would be if the page had one more.
pub open spec fn next_up(s: TreeShape, o: PageOrdinal, i: int, r: int) -> bool {
    exists|j: int|
        #[trigger] paths::leaf_at(s, o, j) && 0 <= i <= s.levels[0][j].count && r
            == s.levels[0][j].first + i
}

/// Whether an error is one that a scan may report.
pub open spec fn scan_failure(t: &Tree, ends: Ends, e: Error) -> bool {
    ||| !ends.accepted(t.spec_encoding()) && within::page_fault(t.spec_encoding(), e)
    ||| t.failure(e)
}

/// Whether an error is one that a cursor may report: that of a scan, or that there was no memory
/// for a copy of a key.
pub open spec fn walk_failure(t: &Tree, ends: Ends, e: Error) -> bool {
    ||| scan_failure(t, ends, e)
    ||| t.spec_root() is Some && t.key_denied(e)
}

/// What a leaf of a held tree is.
pub proof fn lemma_leaf(t: &Tree, s: TreeShape, layout: NodeLayout, o: PageOrdinal, j: int)
    requires
        t.holds(s, layout),
        paths::leaf_at(s, o, j),
    ensures
        t.spec_store().pages().contains_key(o),
        t.sound_leaf(o),
        within::ordered(
            t.spec_encoding(),
            layout,
            t.spec_store().pages()[o],
            model::node_keys(s, 0, j),
        ),
        model::node_keys(s, 0, j).len() == s.levels[0][j].count,
        node::page_count(t.spec_store().pages()[o]) == s.levels[0][j].count,
        s.levels[0].len() <= t.spec_store().file().section.count,
        s.rows.len() == 0 <==> s.levels[0][j].count == 0,
        s.rows.len() == 0 ==> s.levels[0].len() == 1,
        0 <= s.levels[0][j].first,
        s.levels[0][j].first + s.levels[0][j].count <= s.rows.len(),
        j == 0 ==> s.levels[0][j].first == 0,
        j + 1 == s.levels[0].len() ==> s.levels[0][j].first + s.levels[0][j].count == s.rows.len(),
        forall|i: int|
            0 <= i < s.levels[0][j].count ==> #[trigger] model::node_keys(s, 0, j)[i]
                == s.rows[s.levels[0][j].first + i].key,
{
    let (e, pages, root) = (t.spec_encoding(), t.spec_store().pages(), t.spec_root()->Some_0);
    paths::lemma_node_ordered(s, e, layout, pages, root, 0, j);
    paths::lemma_leaf_count(
        s,
        e,
        layout,
        pages,
        root,
        t.spec_store().file().section.count as int,
    );
    if !s.is_hollow() {
        assert(s.tiled(0));
        model::lemma_tiles_inside(s, 0, j);
    }
}

/// What is next to a leaf of a held tree.
pub proof fn lemma_neighbour(
    t: &Tree,
    s: TreeShape,
    layout: NodeLayout,
    o: PageOrdinal,
    j: int,
    asc: bool,
)
    requires
        t.holds(s, layout),
        paths::leaf_at(s, o, j),
    ensures
        match Tree::link_on(t.spec_store().pages()[o], asc) {
            None => if asc {
                j + 1 == s.levels[0].len()
            } else {
                j == 0
            },
            Some(n) => {
                let next = if asc {
                    j + 1
                } else {
                    j - 1
                };
                &&& paths::leaf_at(s, n, next)
                &&& t.sound_leaf(n)
                &&& Tree::link_back(t.spec_store().pages()[n], asc) == Some(o)
                &&& s.rows.len() > 0
                &&& asc ==> s.levels[0][next].first == s.levels[0][j].first + s.levels[0][j].count
                &&& !asc ==> s.levels[0][next].first + s.levels[0][next].count
                    == s.levels[0][j].first
            },
        },
{
    let (e, pages, root) = (t.spec_encoding(), t.spec_store().pages(), t.spec_root()->Some_0);
    assert(model::node_ok(s, e, layout, pages, 0, j));
    let next = if asc {
        j + 1
    } else {
        j - 1
    };
    if 0 <= next < s.levels[0].len() {
        let n = s.levels[0][next].ordinal;
        assert(model::node_ok(s, e, layout, pages, 0, next));
        assert(paths::leaf_at(s, n, next));
        lemma_leaf(t, s, layout, n, next);
        lemma_leaf(t, s, layout, o, j);
        assert(!s.is_hollow());
        assert(s.tiled(0));
        model::lemma_tiles_inside(s, 0, j);
        model::lemma_tiles_inside(s, 0, next);
    }
}

/// A page is at most one leaf.
pub proof fn lemma_one_leaf(t: &Tree, s: TreeShape, layout: NodeLayout, o: PageOrdinal, a: int, b: int)
    requires
        t.holds(s, layout),
        paths::leaf_at(s, o, a),
        paths::leaf_at(s, o, b),
    ensures
        a == b,
{
    let (e, pages, root) = (t.spec_encoding(), t.spec_store().pages(), t.spec_root()->Some_0);
    if a < b {
        paths::lemma_leaves_apart(s, e, layout, pages, root, a, b);
    }
    if b < a {
        paths::lemma_leaves_apart(s, e, layout, pages, root, b, a);
    }
}

/// Resolves the far bound inside a leaf.
pub(crate) fn leaf_window(
    t: &Tree,
    far: Bound<&[u8]>,
    asc: bool,
    view: &PageView<'_>,
    Ghost(ends): Ghost<Ends>,
) -> (r: Result<(usize, bool), Error>)
    requires
        range::bound_of_slice(far) == ends.far(asc),
    ensures
        node::page_ok(view.page()),
        match r {
            Ok((limit, stop)) => limit <= node::page_count(view.page()) && range::accepted_bound(
                t.spec_encoding(),
                ends.far(asc),
            ) && met(
                t.spec_encoding(),
                ends,
                asc,
                view.page(),
                limit as int,
                stop,
            ) && forall|
                layout: NodeLayout,
                keys: Seq<Seq<u8>>,
            |
                #[trigger] within::ordered(t.spec_encoding(), layout, view.page(), keys) ==> window(
                    t.spec_encoding(),
                    ends,
                    asc,
                    keys,
                    limit as int,
                    stop,
                ),
            Err(e) => within::page_fault(t.spec_encoding(), e) && (!ends.accepted(
                t.spec_encoding(),
            ) || forall|layout: NodeLayout, keys: Seq<Seq<u8>>|
                !#[trigger] within::ordered(t.spec_encoding(), layout, view.page(), keys)),
        },
{
    let count = view.entry_count();
    let (op, key) = match far {
        Bound::Unbounded => {
            return Ok(
                if asc {
                    (count, false)
                } else {
                    (0, false)
                },
            );
        },
        Bound::Included(k) => (
            if asc {
                SearchOp::UpperBound
            } else {
                SearchOp::LowerBound
            },
            k,
        ),
        Bound::Excluded(k) => (
            if asc {
                SearchOp::LowerBound
            } else {
                SearchOp::UpperBound
            },
            k,
        ),
    };
    let digest = match t.digest_of(key) {
        Ok(d) => d,
        Err(e) => return Err(e),
    };
    match within::leaf_search(t.encoding(), view, key, digest, op) {
        Ok(Some(index)) => Ok(
            if asc {
                (index, true)
            } else {
                // Reaching index 0 means the whole leaf is inside the range and the left
                // sibling may hold more.
                (index, index > 0)
            },
        ),
        Ok(None) => Ok(
            if asc {
                (count, false)
            } else {
                // Every entry here sorts below the lower bound, and so does everything
                // further left.
                (count, true)
            },
        ),
        Err(e) => Err(e),
    }
}

/// Resolves the far bound on a leaf that a scan has come to.
pub(crate) fn arrive(
    t: &Tree,
    range: &KeyRange,
    asc: bool,
    pin: PagePin,
    index: usize,
    steps: u64,
) -> (r: Result<Spot, Error>)
    requires
        t.spec_root() is Some,
        t.pins(pin),
        node::page_kind(pin@) == NodeKind::Leaf,
        forall|s: TreeShape, layout: NodeLayout| #[trigger]
            t.holds(s, layout) ==> exists|j: int| #[trigger]
                placed(t, asc, steps, s, pin.spec_ordinal(), j),
    ensures
        match r {
            Ok(spot) => spot_ok(t, range@, asc, spot) && spot.pin == pin && spot.index == index
                && spot.steps == steps,
            Err(e) => scan_failure(t, range@, e),
        },
{
    proof {
        assert forall|s: TreeShape, layout: NodeLayout| #[trigger]
            t.holds(s, layout) implies node::page_ok(pin@) && exists|keys: Seq<Seq<u8>>| #[trigger]
            within::ordered(t.spec_encoding(), layout, pin@, keys) by {
            let j = choose|j: int| #[trigger] placed(t, asc, steps, s, pin.spec_ordinal(), j);
            lemma_leaf(t, s, layout, pin.spec_ordinal(), j);
        }
    }
    let view = match pin.parsed() {
        Ok(v) => v,
        Err(e) => return Err(e),
    };
    let far = if asc {
        range::as_ref_bound(range.upper_bound())
    } else {
        range::as_ref_bound(range.lower_bound())
    };
    let (limit, stop) = match leaf_window(t, far, asc, &view, Ghost(range@)) {
        Ok(w) => w,
        Err(e) => return Err(e),
    };
    let spot = Spot { pin: pin.clone(), index, limit, stop, steps };
    proof {
        assert forall|s: TreeShape, layout: NodeLayout| #[trigger]
            t.holds(s, layout) implies exists|j: int| #[trigger]
            spot_in(t, range@, asc, spot, s, j) by {
            let j = choose|j: int| #[trigger] placed(t, asc, steps, s, pin.spec_ordinal(), j);
            lemma_leaf(t, s, layout, pin.spec_ordinal(), j);
            assert(spot_in(t, range@, asc, spot, s, j));
        }
    }
    Ok(spot)
}

/// Reports a chain of leaves that stops where the tree does not.
fn broken_chain(ordinal: PageOrdinal) -> (r: Error)
    ensures
        r.is_corrupt(),
{
    Error::corrupt_number(
        "the leaf chain stops at page ",
        ordinal.get(),
        " but the tree does not end there",
    ).at_page(ordinal.get())
}

/// Reports a chain of leaves that never ends.
fn cyclic_chain() -> (r: Error)
    ensures
        r.is_corrupt(),
{
    Error::corrupt("leaf sibling chain visits more pages than the file contains; it is cyclic")
}

/// The leaf next to a leaf, and the entry of it that is next.
///
/// A leaf without a neighbour is either where the tree ends, or the chain has lost its way
/// and stopping here would hand back part of the answer as though it were all of it.
pub(crate) fn neighbour(t: &Tree, asc: bool, pin: &PagePin, steps: u64) -> (r: Result<
    Option<(PagePin, usize)>,
    Error,
>)
    requires
        t.spec_root() is Some,
        t.pins(*pin),
        forall|s: TreeShape, layout: NodeLayout| #[trigger]
            t.holds(s, layout) ==> exists|j: int| #[trigger]
                placed(t, asc, steps, s, pin.spec_ordinal(), j),
    ensures
        match r {
            Ok(Some((next, i))) => {
                &&& steps > 0
                &&& t.pins(next)
                &&& node::page_kind(next@) == NodeKind::Leaf
                &&& t.follows(*pin, asc, Some(next))
                &&& i == (if asc || node::page_count(next@) == 0 {
                    0
                } else {
                    node::page_count(next@) - 1
                })
                &&& forall|s: TreeShape, layout: NodeLayout, j: int|
                    #![trigger t.holds(s, layout), paths::leaf_at(s, pin.spec_ordinal(), j)]
                    t.holds(s, layout) && paths::leaf_at(s, pin.spec_ordinal(), j)
                        ==> paths::leaf_at(
                        s,
                        next.spec_ordinal(),
                        if asc {
                            j + 1
                        } else {
                            j - 1
                        },
                    ) && Tree::link_on(pin@, asc) == Some(next.spec_ordinal())
            },
            Ok(None) => {
                &&& t.follows(*pin, asc, None)
                &&& forall|s: TreeShape, layout: NodeLayout, j: int|
                    #![trigger t.holds(s, layout), paths::leaf_at(s, pin.spec_ordinal(), j)]
                    t.holds(s, layout) && paths::leaf_at(s, pin.spec_ordinal(), j) ==> if asc {
                        j + 1 == s.levels[0].len()
                    } else {
                        j == 0
                    }
            },
            Err(e) => t.failure(e),
        },
{
    let ghost o = pin.spec_ordinal();
    proof {
        assert forall|s: TreeShape, layout: NodeLayout, j: int|
            #![trigger t.holds(s, layout), paths::leaf_at(s, o, j)]
            t.holds(s, layout) && paths::leaf_at(s, o, j) implies node::page_ok(pin@) && steps > 0
            && match Tree::link_on(pin@, asc) {
            None => if asc {
                j + 1 == s.levels[0].len()
            } else {
                j == 0
            },
            Some(n) => paths::leaf_at(
                s,
                n,
                if asc {
                    j + 1
                } else {
                    j - 1
                },
            ) && t.sound_leaf(n) && Tree::link_back(t.spec_store().pages()[n], asc) == Some(o),
        } by {
            lemma_leaf(t, s, layout, o, j);
            lemma_neighbour(t, s, layout, o, j, asc);
            let k = choose|k: int| #[trigger] placed(t, asc, steps, s, o, k);
            lemma_one_leaf(t, s, layout, o, j, k);
        }
        assert forall|s: TreeShape, layout: NodeLayout| #[trigger]
            t.holds(s, layout) implies exists|j: int| #[trigger] paths::leaf_at(s, o, j) by {
            let k = choose|k: int| #[trigger] placed(t, asc, steps, s, o, k);
            assert(paths::leaf_at(s, o, k));
        }
    }
    if steps == 0 {
        return Err(cyclic_chain());
    }
    let view = match pin.parsed() {
        Ok(v) => v,
        Err(e) => return Err(e),
    };
    let sibling = if asc {
        view.right_sibling()
    } else {
        view.left_sibling()
    };
    let next = match sibling {
        Some(n) => n,
        None => {
            let ended = match t.ends_at(pin.ordinal(), asc) {
                Ok(b) => b,
                Err(e) => return Err(e),
            };
            if !ended {
                return Err(broken_chain(pin.ordinal()));
            }
            return Ok(None);
        },
    };
    proof {
        assert(btree::names(pin@, next));
        t.lemma_knows(o, next);
    }
    let found = match t.step_sibling(pin.ordinal(), next, asc) {
        Ok(p) => p,
        Err(e) => return Err(e),
    };
    let count = match found.parsed() {
        Ok(v) => v.entry_count(),
        Err(e) => return Err(e),
    };
    let index: usize = if asc || count == 0 {
        0
    } else {
        count - 1
    };
    Ok(Some((found, index)))
}

/// Moves to the next leaf, honouring the "the bound ended here" flag.
fn next_leaf(t: &Tree, range: &KeyRange, asc: bool, spot: &Spot) -> (r: Result<Option<Spot>, Error>)
    requires
        spot_ok(t, range@, asc, *spot),
    ensures
        match r {
            Ok(Some(next)) => {
                &&& !spot.stop
                &&& next.steps < spot.steps
                &&& t.linked(spot.pin.spec_ordinal(), asc, Some(next.pin.spec_ordinal()))
                &&& spot_ok(t, range@, asc, next)
                &&& next.index < node::page_count(next.pin@) || node::page_count(next.pin@) == 0
                &&& forall|s: TreeShape, layout: NodeLayout, r: int|
                    #![trigger t.holds(s, layout), next_up(s, next.pin.spec_ordinal(), next.index as int, r)]
                    t.holds(s, layout) ==> (next_up(
                        s,
                        next.pin.spec_ordinal(),
                        next.index as int,
                        r,
                    ) <==> leaf_edge(s, spot.pin.spec_ordinal(), asc, r))
            },
            Ok(None) => {
                &&& over(t, range@, asc, spot.pin.spec_ordinal())
                &&& !spot.stop ==> forall|s: TreeShape, layout: NodeLayout, r: int|
                    #![trigger t.holds(s, layout), leaf_edge(s, spot.pin.spec_ordinal(), asc, r)]
                    t.holds(s, layout) && leaf_edge(s, spot.pin.spec_ordinal(), asc, r) ==> !(0 <= r
                        < s.rows.len())
            },
            Err(e) => scan_failure(t, range@, e),
        },
{
    if spot.stop {
        proof {
            assert(met(
                t.spec_encoding(),
                range@,
                asc,
                t.spec_store().pages()[spot.pin.spec_ordinal()],
                spot.limit as int,
                true,
            ));
        }
        return Ok(None);
    }
    let ghost o = spot.pin.spec_ordinal();
    proof {
        assert forall|s: TreeShape, layout: NodeLayout| #[trigger]
            t.holds(s, layout) implies exists|j: int| #[trigger]
            placed(t, asc, spot.steps, s, o, j) by {
            let j = choose|j: int| #[trigger] spot_in(t, range@, asc, *spot, s, j);
            assert(placed(t, asc, spot.steps, s, o, j));
        }
    }
    let (pin, index) = match neighbour(t, asc, &spot.pin, spot.steps) {
        Ok(Some(n)) => n,
        Ok(None) => {
            proof {
                assert forall|s: TreeShape, layout: NodeLayout, r: int|
                    #![trigger t.holds(s, layout), leaf_edge(s, o, asc, r)]
                    t.holds(s, layout) && leaf_edge(s, o, asc, r) implies !(0 <= r
                    < s.rows.len()) by {
                    let j = choose|j: int| #[trigger] paths::leaf_at(s, o, j) && r == edge_row(s, asc, j);
                    lemma_leaf(t, s, layout, o, j);
                }
            }
            return Ok(None);
        },
        Err(e) => return Err(e),
    };
    let ghost n = pin.spec_ordinal();
    let steps = spot.steps - 1;
    proof {
        assert forall|s: TreeShape, layout: NodeLayout| #[trigger]
            t.holds(s, layout) implies exists|j: int| #[trigger]
            placed(t, asc, steps, s, n, j) by {
            let j = choose|j: int| #[trigger] placed(t, asc, spot.steps, s, o, j);
            assert(paths::leaf_at(s, o, j));
            assert(placed(
                t,
                asc,
                steps,
                s,
                n,
                if asc {
                    j + 1
                } else {
                    j - 1
                },
            ));
        }
        assert forall|s: TreeShape, layout: NodeLayout, r: int|
            #![trigger t.holds(s, layout), next_up(s, n, index as int, r)]
            t.holds(s, layout) implies (next_up(s, n, index as int, r) <==> leaf_edge(
            s,
            o,
            asc,
            r,
        )) by {
            let j = choose|j: int| #[trigger] placed(t, asc, spot.steps, s, o, j);
            let k = if asc {
                j + 1
            } else {
                j - 1
            };
            assert(paths::leaf_at(s, o, j));
            assert(paths::leaf_at(s, n, k));
            lemma_neighbour(t, s, layout, o, j, asc);
            lemma_leaf(t, s, layout, n, k);
            if next_up(s, n, index as int, r) {
                let x = choose|x: int| #[trigger] paths::leaf_at(s, n, x) && r == s.levels[0][x].first + index;
                lemma_one_leaf(t, s, layout, n, x, k);
                assert(r == edge_row(s, asc, j));
            }
            if leaf_edge(s, o, asc, r) {
                let x = choose|x: int| #[trigger] paths::leaf_at(s, o, x) && r == edge_row(s, asc, x);
                lemma_one_leaf(t, s, layout, o, x, j);
            }
        }
    }
    match arrive(t, range, asc, pin, index, steps) {
        Ok(next) => Ok(Some(next)),
        Err(e) => Err(e),
    }
}

/// The row just past a leaf, in the direction of a scan.
pub open spec fn edge_row(s: TreeShape, asc: bool, j: int) -> int {
    if asc {
        s.levels[0][j].first + s.levels[0][j].count
    } else {
        s.levels[0][j].first - 1
    }
}

/// Whether row `r` is the one just past the leaf on this page.
pub open spec fn leaf_edge(s: TreeShape, o: PageOrdinal, asc: bool, r: int) -> bool {
    exists|j: int| #[trigger] paths::leaf_at(s, o, j) && r == edge_row(s, asc, j)
}

/// Whether a key does not pass the far bound of a scan.
pub open spec fn inside(e: SharedEncoding, ends: Ends, asc: bool, key: Seq<u8>) -> bool {
    if asc {
        ends.below_upper(e, key)
    } else {
        ends.above_lower(e, key)
    }
}

/// What a live spot says of the row it is on.
proof fn lemma_live(
    t: &Tree,
    ends: Ends,
    asc: bool,
    spot: Spot,
    s: TreeShape,
    layout: NodeLayout,
    r: int,
)
    requires
        spot_ok(t, ends, asc, spot),
        live(asc, spot),
        t.holds(s, layout),
        next_up(s, spot.pin.spec_ordinal(), spot.index as int, r),
    ensures
        paths::entry_is_row(s, spot.pin.spec_ordinal(), spot.index as int, r),
        0 <= r < s.rows.len(),
        inside(t.spec_encoding(), ends, asc, s.rows[r].key),
{
    let o = spot.pin.spec_ordinal();
    let j = choose|j: int| #[trigger] spot_in(t, ends, asc, spot, s, j);
    let x = choose|x: int|
        #[trigger] paths::leaf_at(s, o, x) && 0 <= spot.index <= s.levels[0][x].count && r
            == s.levels[0][x].first + spot.index;
    assert(paths::leaf_at(s, o, j));
    lemma_one_leaf(t, s, layout, o, j, x);
    lemma_leaf(t, s, layout, o, j);
    let keys = model::node_keys(s, 0, j);
    assert(keys[spot.index as int] == s.rows[r].key);
}

/// The row a live spot is on does not pass the far bound.
pub proof fn lemma_on_live(
    t: &Tree,
    ends: Ends,
    asc: bool,
    spot: Spot,
    s: TreeShape,
    layout: NodeLayout,
    r: int,
)
    requires
        spot_ok(t, ends, asc, spot),
        live(asc, spot),
        t.holds(s, layout),
        paths::entry_is_row(s, spot.pin.spec_ordinal(), spot.index as int, r),
    ensures
        0 <= r < s.rows.len(),
        inside(t.spec_encoding(), ends, asc, s.rows[r].key),
{
    assert(next_up(s, spot.pin.spec_ordinal(), spot.index as int, r));
    lemma_live(t, ends, asc, spot, s, layout, r);
}

/// Goes on from an entry to the first one that may be given out.
pub(crate) fn settle(t: &Tree, range: &KeyRange, asc: bool, spot: Spot) -> (r: Result<
    Option<Spot>,
    Error,
>)
    requires
        spot_ok(t, range@, asc, spot),
        spot.index < node::page_count(spot.pin@) || node::page_count(spot.pin@) == 0,
    ensures
        match r {
            Ok(Some(next)) => {
                &&& spot_ok(t, range@, asc, next)
                &&& live(asc, next)
                &&& walked(t, asc, spot.pin.spec_ordinal(), next.pin.spec_ordinal())
                &&& forall|s: TreeShape, layout: NodeLayout, r: int|
                    #![trigger t.holds(s, layout), next_up(s, spot.pin.spec_ordinal(), spot.index as int, r)]
                    t.holds(s, layout) && next_up(
                        s,
                        spot.pin.spec_ordinal(),
                        spot.index as int,
                        r,
                    ) && 0 <= r < s.rows.len() ==> paths::entry_is_row(
                        s,
                        next.pin.spec_ordinal(),
                        next.index as int,
                        r,
                    ) && inside(t.spec_encoding(), range@, asc, s.rows[r].key)
            },
            Ok(None) => {
                &&& ran_out(t, range@, asc, spot.pin.spec_ordinal())
                &&& forall|s: TreeShape, layout: NodeLayout, r: int|
                    #![trigger t.holds(s, layout), next_up(s, spot.pin.spec_ordinal(), spot.index as int, r)]
                    t.holds(s, layout) && next_up(
                        s,
                        spot.pin.spec_ordinal(),
                        spot.index as int,
                        r,
                    ) && 0 <= r < s.rows.len() ==> !inside(
                        t.spec_encoding(),
                        range@,
                        asc,
                        s.rows[r].key,
                    )
            },
            Err(e) => scan_failure(t, range@, e),
        },
{
    let ghost first = spot;
    let mut cur = spot;
    proof {
        lemma_walked_none(t, asc, spot.pin.spec_ordinal());
    }
    loop
        invariant
            spot_ok(t, range@, asc, cur),
            walked(t, asc, first.pin.spec_ordinal(), cur.pin.spec_ordinal()),
            cur.index < node::page_count(cur.pin@) || node::page_count(cur.pin@) == 0,
            forall|s: TreeShape, layout: NodeLayout, r: int|
                #![trigger t.holds(s, layout), next_up(s, first.pin.spec_ordinal(), first.index as int, r)]
                t.holds(s, layout) && next_up(
                    s,
                    first.pin.spec_ordinal(),
                    first.index as int,
                    r,
                ) && 0 <= r < s.rows.len() ==> next_up(
                    s,
                    cur.pin.spec_ordinal(),
                    cur.index as int,
                    r,
                ),
            first == spot,
        decreases cur.steps,
    {
        let count = match cur.pin.parsed() {
            Ok(v) => v.entry_count(),
            Err(e) => {
                proof {
                    lemma_nothing_held(t, range@, asc, cur);
                }
                return Err(e);
            },
        };
        let in_window = if asc {
            cur.index < cur.limit && cur.index < count
        } else {
            cur.index >= cur.limit && cur.index < count
        };
        if in_window {
            proof {
                assert forall|s: TreeShape, layout: NodeLayout, r: int|
                    #![trigger t.holds(s, layout), next_up(s, first.pin.spec_ordinal(), first.index as int, r)]
                    t.holds(s, layout) && next_up(
                        s,
                        first.pin.spec_ordinal(),
                        first.index as int,
                        r,
                    ) && 0 <= r < s.rows.len() implies paths::entry_is_row(
                    s,
                    cur.pin.spec_ordinal(),
                    cur.index as int,
                    r,
                ) && inside(t.spec_encoding(), range@, asc, s.rows[r].key) by {
                    lemma_live(t, range@, asc, cur, s, layout, r);
                }
            }
            return Ok(Some(cur));
        }
        match next_leaf(t, range, asc, &cur) {
            Ok(Some(next)) => {
                proof {
                    assert forall|s: TreeShape, layout: NodeLayout, r: int|
                        #![trigger t.holds(s, layout), next_up(s, first.pin.spec_ordinal(), first.index as int, r)]
                        t.holds(s, layout) && next_up(
                            s,
                            first.pin.spec_ordinal(),
                            first.index as int,
                            r,
                        ) && 0 <= r < s.rows.len() implies next_up(
                        s,
                        next.pin.spec_ordinal(),
                        next.index as int,
                        r,
                    ) by {
                        lemma_spent(t, range@, asc, cur, s, layout);
                    }
                    lemma_walked_on(
                        t,
                        asc,
                        first.pin.spec_ordinal(),
                        cur.pin.spec_ordinal(),
                        next.pin.spec_ordinal(),
                    );
                }
                cur = next;
            },
            Ok(None) => {
                proof {
                    assert forall|s: TreeShape, layout: NodeLayout, r: int|
                        #![trigger t.holds(s, layout), next_up(s, first.pin.spec_ordinal(), first.index as int, r)]
                        t.holds(s, layout) && next_up(
                            s,
                            first.pin.spec_ordinal(),
                            first.index as int,
                            r,
                        ) && 0 <= r < s.rows.len() implies !inside(
                        t.spec_encoding(),
                        range@,
                        asc,
                        s.rows[r].key,
                    ) by {
                        lemma_spent(t, range@, asc, cur, s, layout);
                        let j = choose|j: int| #[trigger] spot_in(t, range@, asc, cur, s, j);
                        let o = cur.pin.spec_ordinal();
                        let x = choose|x: int|
                            #[trigger] paths::leaf_at(s, o, x) && 0 <= cur.index
                                <= s.levels[0][x].count && r == s.levels[0][x].first + cur.index;
                        assert(paths::leaf_at(s, o, j));
                        lemma_one_leaf(t, s, layout, o, j, x);
                        lemma_leaf(t, s, layout, o, j);
                        let keys = model::node_keys(s, 0, j);
                        assert(keys[cur.index as int] == s.rows[r].key);
                    }
                }
                return Ok(None);
            },
            Err(e) => return Err(e),
        }
    }
}

/// An entry that is not live, in a tree with rows, is past the bound that ends the scan.
proof fn lemma_spent(
    t: &Tree,
    ends: Ends,
    asc: bool,
    spot: Spot,
    s: TreeShape,
    layout: NodeLayout,
)
    requires
        spot_ok(t, ends, asc, spot),
        !live(asc, spot),
        spot.index < node::page_count(spot.pin@) || node::page_count(spot.pin@) == 0,
        t.holds(s, layout),
        s.rows.len() > 0,
    ensures
        spot.stop,
        spot.index < node::page_count(spot.pin@),
{
    let j = choose|j: int| #[trigger] spot_in(t, ends, asc, spot, s, j);
    lemma_leaf(t, s, layout, spot.pin.spec_ordinal(), j);
}

/// Moves to the next entry.
pub(crate) fn step(t: &Tree, range: &KeyRange, asc: bool, spot: &Spot) -> (r: Result<
    Option<Spot>,
    Error,
>)
    requires
        spot_ok(t, range@, asc, *spot),
        live(asc, *spot),
    ensures
        match r {
            Ok(Some(next)) => {
                &&& spot_ok(t, range@, asc, next)
                &&& live(asc, next)
                &&& walked(t, asc, spot.pin.spec_ordinal(), next.pin.spec_ordinal())
                &&& forall|s: TreeShape, layout: NodeLayout, r: int|
                    #![trigger t.holds(s, layout), paths::entry_is_row(s, spot.pin.spec_ordinal(), spot.index as int, r)]
                    t.holds(s, layout) && paths::entry_is_row(
                        s,
                        spot.pin.spec_ordinal(),
                        spot.index as int,
                        r,
                    ) ==> paths::entry_is_row(
                        s,
                        next.pin.spec_ordinal(),
                        next.index as int,
                        onward(asc, r),
                    ) && inside(t.spec_encoding(), range@, asc, s.rows[onward(asc, r)].key)
            },
            Ok(None) => {
                &&& ran_out(t, range@, asc, spot.pin.spec_ordinal())
                &&& forall|s: TreeShape, layout: NodeLayout, r: int|
                    #![trigger t.holds(s, layout), paths::entry_is_row(s, spot.pin.spec_ordinal(), spot.index as int, r)]
                    t.holds(s, layout) && paths::entry_is_row(
                        s,
                        spot.pin.spec_ordinal(),
                        spot.index as int,
                        r,
                    ) && 0 <= onward(asc, r) < s.rows.len() ==> !inside(
                        t.spec_encoding(),
                        range@,
                        asc,
                        s.rows[onward(asc, r)].key,
                    )
            },
            Err(e) => scan_failure(t, range@, e),
        },
{
    let ghost o = spot.pin.spec_ordinal();
    proof {
        lemma_walked_none(t, asc, o);
    }
    let stays = if asc {
        spot.index + 1 < spot.limit
    } else {
        spot.index > spot.limit
    };
    if stays {
        let index = if asc {
            spot.index + 1
        } else {
            spot.index - 1
        };
        let next = Spot {
            pin: spot.pin.clone(),
            index,
            limit: spot.limit,
            stop: spot.stop,
            steps: spot.steps,
        };
        proof {
            assert forall|s: TreeShape, layout: NodeLayout| #[trigger]
                t.holds(s, layout) implies exists|j: int| #[trigger]
                spot_in(t, range@, asc, next, s, j) by {
                let j = choose|j: int| #[trigger] spot_in(t, range@, asc, *spot, s, j);
                assert(spot_in(t, range@, asc, next, s, j));
            }
            assert forall|s: TreeShape, layout: NodeLayout, r: int|
                #![trigger t.holds(s, layout), paths::entry_is_row(s, o, spot.index as int, r)]
                t.holds(s, layout) && paths::entry_is_row(
                    s,
                    o,
                    spot.index as int,
                    r,
                ) implies paths::entry_is_row(s, o, index as int, onward(asc, r)) && inside(
                t.spec_encoding(),
                range@,
                asc,
                s.rows[onward(asc, r)].key,
            ) && index < node::page_count(next.pin@) by {
                lemma_within(t, range@, asc, *spot, s, layout, r);
            }
        }
        return Ok(Some(next));
    }
    proof {
        assert forall|s: TreeShape, layout: NodeLayout, r: int|
            #![trigger t.holds(s, layout), paths::entry_is_row(s, o, spot.index as int, r)]
            t.holds(s, layout) && paths::entry_is_row(s, o, spot.index as int, r) implies {
            &&& !spot.stop ==> leaf_edge(s, o, asc, onward(asc, r))
            &&& spot.stop && 0 <= onward(asc, r) < s.rows.len() ==> !inside(
                t.spec_encoding(),
                range@,
                asc,
                s.rows[onward(asc, r)].key,
            )
        } by {
            lemma_within(t, range@, asc, *spot, s, layout, r);
        }
    }
    let next = match next_leaf(t, range, asc, spot) {
        Ok(Some(n)) => n,
        Ok(None) => return Ok(None),
        Err(e) => return Err(e),
    };
    proof {
        assert forall|s: TreeShape, layout: NodeLayout, r: int|
            #![trigger t.holds(s, layout), paths::entry_is_row(s, o, spot.index as int, r)]
            t.holds(s, layout) && paths::entry_is_row(s, o, spot.index as int, r) implies next_up(
            s,
            next.pin.spec_ordinal(),
            next.index as int,
            onward(asc, r),
        ) && 0 <= onward(asc, r) < s.rows.len() by {
            assert(leaf_edge(s, o, asc, onward(asc, r)));
            assert(next_up(s, next.pin.spec_ordinal(), next.index as int, onward(asc, r)));
            let x = choose|x: int|
                #[trigger] paths::leaf_at(s, next.pin.spec_ordinal(), x) && 0 <= next.index
                    <= s.levels[0][x].count && onward(asc, r) == s.levels[0][x].first + next.index;
            lemma_leaf(t, s, layout, next.pin.spec_ordinal(), x);
            lemma_within(t, range@, asc, *spot, s, layout, r);
        }
    }
    let settled = settle(t, range, asc, next);
    proof {
        if settled is Ok {
            let to = match settled->Ok_0 {
                Some(last) => Some(last.pin.spec_ordinal()),
                None => None,
            };
            lemma_walked_then(t, range@, asc, o, next.pin.spec_ordinal(), to);
        }
    }
    settled
}

/// The row after a row, in the direction of a scan.
pub open spec fn onward(asc: bool, r: int) -> int {
    if asc {
        r + 1
    } else {
        r - 1
    }
}

/// Where the row after a live spot is.
proof fn lemma_within(
    t: &Tree,
    ends: Ends,
    asc: bool,
    spot: Spot,
    s: TreeShape,
    layout: NodeLayout,
    r: int,
)
    requires
        spot_ok(t, ends, asc, spot),
        live(asc, spot),
        t.holds(s, layout),
        paths::entry_is_row(s, spot.pin.spec_ordinal(), spot.index as int, r),
    ensures
        s.rows.len() > 0,
        asc ==> spot.limit <= node::page_count(spot.pin@),
        ({
            let stays = if asc {
                spot.index + 1 < spot.limit
            } else {
                spot.index > spot.limit
            };
            let n = onward(asc, r);
            if stays {
                &&& paths::entry_is_row(
                    s,
                    spot.pin.spec_ordinal(),
                    if asc {
                        spot.index + 1
                    } else {
                        spot.index - 1
                    },
                    n,
                )
                &&& 0 <= n < s.rows.len()
                &&& inside(t.spec_encoding(), ends, asc, s.rows[n].key)
            } else {
                &&& !spot.stop ==> leaf_edge(s, spot.pin.spec_ordinal(), asc, n)
                &&& spot.stop && 0 <= n < s.rows.len() ==> !inside(
                    t.spec_encoding(),
                    ends,
                    asc,
                    s.rows[n].key,
                )
            }
        }),
{
    let o = spot.pin.spec_ordinal();
    let j = choose|j: int| #[trigger] spot_in(t, ends, asc, spot, s, j);
    let x = choose|x: int|
        #[trigger] paths::leaf_at(s, o, x) && 0 <= spot.index < s.levels[0][x].count && r
            == s.levels[0][x].first + spot.index;
    assert(paths::leaf_at(s, o, j));
    lemma_one_leaf(t, s, layout, o, j, x);
    lemma_leaf(t, s, layout, o, j);
    let keys = model::node_keys(s, 0, j);
    let i = if asc {
        spot.index + 1
    } else {
        spot.index - 1
    };
    let n = onward(asc, r);
    assert(n == s.levels[0][j].first + i);
    if 0 <= i < keys.len() {
        assert(keys[i] == s.rows[n].key);
        assert(paths::entry_is_row(s, o, i, n));
    } else {
        assert(n == edge_row(s, asc, j));
    }
}

/// A spot on a page that does not parse is on no tree.
proof fn lemma_nothing_held(t: &Tree, ends: Ends, asc: bool, spot: Spot)
    requires
        spot_ok(t, ends, asc, spot),
        !node::page_ok(spot.pin@),
    ensures
        forall|s: TreeShape, layout: NodeLayout| !#[trigger] t.holds(s, layout),
{
    assert forall|s: TreeShape, layout: NodeLayout| !#[trigger] t.holds(s, layout) by {
        if t.holds(s, layout) {
            let j = choose|j: int| #[trigger] spot_in(t, ends, asc, spot, s, j);
            lemma_leaf(t, s, layout, spot.pin.spec_ordinal(), j);
        }
    }
}

/// Whether a key is not before the near bound of a scan.
pub open spec fn reached(e: SharedEncoding, ends: Ends, asc: bool, key: Seq<u8>) -> bool {
    if asc {
        ends.above_lower(e, key)
    } else {
        ends.below_upper(e, key)
    }
}

/// Whether row `b` comes after row `a` in the direction of a scan.
pub open spec fn past(asc: bool, a: int, b: int) -> bool {
    if asc {
        a < b
    } else {
        b < a
    }
}

/// Whether row `r` is the first one past the near bound.
pub open spec fn starts(
    e: SharedEncoding,
    ends: Ends,
    asc: bool,
    rows: Seq<model::Row>,
    r: int,
) -> bool {
    &&& 0 <= r < rows.len()
    &&& reached(e, ends, asc, rows[r].key)
    &&& forall|x: int|
        0 <= x < rows.len() && past(asc, x, r) ==> !reached(e, ends, asc, (#[trigger] rows[x]).key)
}

/// A row at or past a key is below every row after it.
proof fn lemma_rows_past(e: SharedEncoding, rows: Seq<model::Row>, key: Seq<u8>, a: int, b: int)
    requires
        encoding::lawful(&**e.inner),
        model::sorted_rows(e, rows),
        e.inner.accepts(key),
        0 <= a < b < rows.len(),
    ensures
        e.inner.sign(rows[a].key, key) >= 0 ==> e.inner.sign(rows[b].key, key) > 0,
        e.inner.sign(rows[b].key, key) <= 0 ==> e.inner.sign(rows[a].key, key) < 0,
{
    let (x, y) = (rows[a].key, rows[b].key);
    assert(e.inner.accepts(x) && e.inner.accepts(y));
    assert(e.inner.sign(x, y) < 0);
    if e.inner.sign(x, key) >= 0 {
        assert(e.inner.sign(key, x) <= 0);
        assert(e.inner.sign(key, y) < 0);
    }
}

/// Past the near bound all rows are past it, and past the far one all rows are.
pub proof fn lemma_bounds_cut(
    e: SharedEncoding,
    ends: Ends,
    asc: bool,
    rows: Seq<model::Row>,
    a: int,
    b: int,
)
    requires
        encoding::lawful(&**e.inner),
        model::sorted_rows(e, rows),
        ends.accepted(e),
        0 <= a < rows.len(),
        0 <= b < rows.len(),
        past(asc, a, b),
    ensures
        reached(e, ends, asc, rows[a].key) ==> reached(e, ends, asc, rows[b].key),
        !inside(e, ends, asc, rows[a].key) ==> !inside(e, ends, asc, rows[b].key),
{
    let (lo, hi) = if asc {
        (a, b)
    } else {
        (b, a)
    };
    match range::bound_key_of(ends.lower) {
        Some(k) => {
            lemma_rows_past(e, rows, k, lo, hi);
        },
        None => {},
    }
    match range::bound_key_of(ends.upper) {
        Some(k) => {
            lemma_rows_past(e, rows, k, lo, hi);
        },
        None => {},
    }
}

/// Whether an entry is row `r` of a tree, and `r` is where a scan starts.
pub open spec fn start_at(
    t: &Tree,
    ends: Ends,
    asc: bool,
    s: TreeShape,
    o: PageOrdinal,
    i: int,
) -> bool {
    exists|r: int| #[trigger]
        paths::entry_is_row(s, o, i, r) && starts(t.spec_encoding(), ends, asc, s.rows, r)
}

/// What looking for the start of a scan gives.
pub open spec fn start_found(
    t: &Tree,
    ends: Ends,
    asc: bool,
    found: Option<(PagePin, usize)>,
) -> bool {
    match found {
        Some((pin, i)) => {
            &&& t.pins(pin)
            &&& node::page_kind(pin@) == NodeKind::Leaf
            &&& i < node::page_count(pin@)
            &&& entered(t, ends, asc, pin.spec_ordinal())
            &&& forall|s: TreeShape, layout: NodeLayout| #[trigger]
                t.holds(s, layout) ==> start_at(t, ends, asc, s, pin.spec_ordinal(), i as int)
        },
        None => {
            &&& unentered(t, ends, asc)
            &&& forall|s: TreeShape, layout: NodeLayout, x: int|
                #![trigger t.holds(s, layout), s.rows[x]]
                t.holds(s, layout) && 0 <= x < s.rows.len() ==> !reached(
                    t.spec_encoding(),
                    ends,
                    asc,
                    s.rows[x].key,
                )
        },
    }
}

/// The entry just before the upper bound, stepping into the left sibling when the bound
/// sits at the start of a leaf.
fn descending_start(t: &Tree, key: &[u8], op: SearchOp, Ghost(ends): Ghost<Ends>) -> (r: Result<
    Option<(PagePin, usize)>,
    Error,
>)
    requires
        op == SearchOp::UpperBound && ends.upper == Bound::Included(key@) || op
            == SearchOp::LowerBound && ends.upper == Bound::Excluded(key@),
    ensures
        match r {
            Ok(found) => range::accepted_bound(t.spec_encoding(), ends.upper) && start_found(
                t,
                ends,
                false,
                found,
            ),
            Err(e) => scan_failure(t, ends, e),
        },
{
    let (first, index) = match t.search(key, op) {
        Ok(Some(found)) => found,
        Ok(None) => {
            // Every entry satisfies the bound: start from the maximum.
            let top = match t.max_leaf() {
                Ok(top) => top,
                Err(e) => return Err(e),
            };
            proof {
                assert forall|s: TreeShape, layout: NodeLayout, x: int|
                    #![trigger t.holds(s, layout), s.rows[x]]
                    t.holds(s, layout) && 0 <= x < s.rows.len() implies reached(
                    t.spec_encoding(),
                    ends,
                    false,
                    s.rows[x].key,
                ) by {
                    assert(paths::no_row(s, t.spec_encoding(), key@, op));
                }
                if top is Some {
                    let (pin, i) = (top->Some_0.0, top->Some_0.1);
                    assert forall|s: TreeShape, layout: NodeLayout| #[trigger]
                        t.holds(s, layout) implies start_at(
                        t,
                        ends,
                        false,
                        s,
                        pin.spec_ordinal(),
                        i as int,
                    ) by {
                        let r = s.rows.len() - 1;
                        assert(paths::entry_is_row(s, pin.spec_ordinal(), i as int, r));
                        assert(starts(t.spec_encoding(), ends, false, s.rows, r));
                    }
                }
            }
            return Ok(top);
        },
        Err(e) => return Err(e),
    };
    let ghost o = first.spec_ordinal();
    proof {
        assert forall|s: TreeShape, layout: NodeLayout| #[trigger]
            t.holds(s, layout) implies exists|r: int| #[trigger]
            paths::entry_is_row(s, o, index as int, r) && cut_at(t, ends, s, r) by {
            let e = t.spec_encoding();
            let r = choose|r: int| #[trigger]
                paths::entry_is_row(s, o, index as int, r) && paths::is_row(s, e, key@, op, r);
            assert forall|x: int| 0 <= x < s.rows.len() implies (reached(
                e,
                ends,
                false,
                (#[trigger] s.rows[x]).key,
            ) <==> x < r) by {
                if x > r {
                    lemma_rows_past(e, s.rows, key@, r, x);
                }
            }
            assert(cut_at(t, ends, s, r));
        }
    }
    if index > 0 {
        proof {
            assert forall|s: TreeShape, layout: NodeLayout| #[trigger]
                t.holds(s, layout) implies start_at(t, ends, false, s, o, index - 1) by {
                let r = choose|r: int| #[trigger]
                    paths::entry_is_row(s, o, index as int, r) && cut_at(t, ends, s, r);
                let j = choose|j: int|
                    #[trigger] paths::leaf_at(s, o, j) && r == s.levels[0][j].first + index && index
                        < s.levels[0][j].count;
                assert(paths::leaf_at(s, o, j));
                lemma_leaf(t, s, layout, o, j);
                assert(paths::entry_is_row(s, o, index - 1, r - 1));
                assert(starts(t.spec_encoding(), ends, false, s.rows, r - 1));
            }
        }
        return Ok(Some((first, index - 1)));
    }
    // The bound sits at the start of this leaf, so the entry before it is the last entry of
    // the nearest leaf to the left that holds one.
    let mut pin = first;
    let mut steps_left = t.store().page_count().saturating_add(1);
    proof {
        assert forall|s: TreeShape, layout: NodeLayout| #[trigger]
            t.holds(s, layout) implies cut_before(t, ends, s, o, steps_left) by {
            let r = choose|r: int| #[trigger]
                paths::entry_is_row(s, o, index as int, r) && cut_at(t, ends, s, r);
            let j = choose|j: int|
                #[trigger] paths::leaf_at(s, o, j) && r == s.levels[0][j].first + index && index
                    < s.levels[0][j].count;
            lemma_leaf(t, s, layout, o, j);
            assert(placed(t, false, steps_left, s, o, j) && cut_at(t, ends, s, s.levels[0][j].first));
        }
    }
    loop
        invariant
            t.spec_root() is Some,
            t.pins(pin),
            !(ends.upper is Unbounded),
            range::accepted_bound(t.spec_encoding(), ends.upper),
            forall|s: TreeShape, layout: NodeLayout| #[trigger]
                t.holds(s, layout) ==> cut_before(t, ends, s, pin.spec_ordinal(), steps_left),
        decreases steps_left,
    {
        let ghost at = pin.spec_ordinal();
        proof {
            assert forall|s: TreeShape, layout: NodeLayout| #[trigger]
                t.holds(s, layout) implies exists|j: int| #[trigger]
                placed(t, false, steps_left, s, at, j) by {
                assert(cut_before(t, ends, s, at, steps_left));
            }
        }
        let (next, i) = match neighbour(t, false, &pin, steps_left) {
            Ok(Some(n)) => n,
            Ok(None) => {
                proof {
                    assert forall|s: TreeShape, layout: NodeLayout, x: int|
                        #![trigger t.holds(s, layout), s.rows[x]]
                        t.holds(s, layout) && 0 <= x < s.rows.len() implies !reached(
                        t.spec_encoding(),
                        ends,
                        false,
                        s.rows[x].key,
                    ) by {
                        let j = choose|j: int| #[trigger]
                            placed(t, false, steps_left, s, at, j) && cut_at(
                                t,
                                ends,
                                s,
                                s.levels[0][j].first,
                            );
                        assert(paths::leaf_at(s, at, j));
                        lemma_leaf(t, s, layout, at, j);
                    }
                    assert(t.linked(at, false, None));
                    assert(t.ran_dry(false));
                    assert(unentered(t, ends, false));
                }
                return Ok(None);
            },
            Err(e) => return Err(e),
        };
        let count = match next.parsed() {
            Ok(v) => v.entry_count(),
            Err(e) => {
                proof {
                    assert forall|s: TreeShape, layout: NodeLayout|
                        !#[trigger] t.holds(s, layout) by {
                        if t.holds(s, layout) {
                            let j = choose|j: int| #[trigger]
                                placed(t, false, steps_left, s, at, j);
                            assert(paths::leaf_at(s, at, j));
                            lemma_leaf(t, s, layout, next.spec_ordinal(), j - 1);
                        }
                    }
                }
                return Err(e);
            },
        };
        proof {
            assert forall|s: TreeShape, layout: NodeLayout| #[trigger]
                t.holds(s, layout) implies count > 0 && start_at(
                t,
                ends,
                false,
                s,
                next.spec_ordinal(),
                i as int,
            ) by {
                let j = choose|j: int| #[trigger]
                    placed(t, false, steps_left, s, at, j) && cut_at(
                        t,
                        ends,
                        s,
                        s.levels[0][j].first,
                    );
                assert(paths::leaf_at(s, at, j));
                lemma_neighbour(t, s, layout, at, j, false);
                lemma_leaf(t, s, layout, next.spec_ordinal(), j - 1);
                let r = s.levels[0][j].first - 1;
                assert(paths::leaf_at(s, next.spec_ordinal(), j - 1));
                assert(paths::entry_is_row(s, next.spec_ordinal(), i as int, r));
                assert(starts(t.spec_encoding(), ends, false, s.rows, r));
            }
        }
        if count > 0 {
            return Ok(Some((next, i)));
        }
        steps_left = steps_left - 1;
        pin = next;
    }
}

/// Whether the rows before `r` are the ones that do not pass the upper bound.
pub open spec fn cut_at(t: &Tree, ends: Ends, s: TreeShape, r: int) -> bool {
    &&& 0 <= r <= s.rows.len()
    &&& forall|x: int|
        0 <= x < s.rows.len() ==> (reached(
            t.spec_encoding(),
            ends,
            false,
            (#[trigger] s.rows[x]).key,
        ) <==> x < r)
}

/// Whether the rows before a leaf are the ones that do not pass the upper bound.
pub open spec fn cut_before(
    t: &Tree,
    ends: Ends,
    s: TreeShape,
    o: PageOrdinal,
    steps: u64,
) -> bool {
    exists|j: int| #[trigger]
        placed(t, false, steps, s, o, j) && cut_at(t, ends, s, s.levels[0][j].first)
}

/// Where an ascending scan starts.
pub(crate) fn ascending_start(t: &Tree, lower: Bound<&[u8]>, Ghost(ends): Ghost<Ends>) -> (r: Result<
    Option<(PagePin, usize)>,
    Error,
>)
    requires
        ends.lower == range::bound_of_slice(lower),
    ensures
        match r {
            Ok(found) => range::accepted_bound(t.spec_encoding(), ends.lower) && start_found(
                t,
                ends,
                true,
                found,
            ),
            Err(e) => scan_failure(t, ends, e),
        },
{
    let found = match lower {
        Bound::Unbounded => t.min_leaf(),
        Bound::Included(k) => t.search(k, SearchOp::LowerBound),
        Bound::Excluded(k) => t.search(k, SearchOp::UpperBound),
    };
    match found {
        Ok(f) => {
            proof {
                let e = t.spec_encoding();
                if f is Some {
                    let (pin, i) = (f->Some_0.0, f->Some_0.1);
                    let o = pin.spec_ordinal();
                    assert forall|s: TreeShape, layout: NodeLayout| #[trigger]
                        t.holds(s, layout) implies start_at(t, ends, true, s, o, i as int) by {
                        let r = match ends.lower {
                            Bound::Unbounded => 0,
                            Bound::Included(k) => choose|r: int| #[trigger]
                                paths::entry_is_row(s, o, i as int, r) && paths::is_row(
                                    s,
                                    e,
                                    k,
                                    SearchOp::LowerBound,
                                    r,
                                ),
                            Bound::Excluded(k) => choose|r: int| #[trigger]
                                paths::entry_is_row(s, o, i as int, r) && paths::is_row(
                                    s,
                                    e,
                                    k,
                                    SearchOp::UpperBound,
                                    r,
                                ),
                        };
                        assert(paths::entry_is_row(s, o, i as int, r));
                        assert(starts(e, ends, true, s.rows, r));
                    }
                } else {
                    assert forall|s: TreeShape, layout: NodeLayout, x: int|
                        #![trigger t.holds(s, layout), s.rows[x]]
                        t.holds(s, layout) && 0 <= x < s.rows.len() implies !reached(
                        e,
                        ends,
                        true,
                        s.rows[x].key,
                    ) by {
                        match ends.lower {
                            Bound::Unbounded => {},
                            Bound::Included(k) => {
                                assert(paths::no_row(s, e, k, SearchOp::LowerBound));
                            },
                            Bound::Excluded(k) => {
                                assert(paths::no_row(s, e, k, SearchOp::UpperBound));
                            },
                        }
                    }
                }
            }
            Ok(f)
        },
        Err(e) => Err(e),
    }
}

/// Whether a scan that begins comes to this leaf: the links lead to it from where the scan may
/// start. Or it comes to none: it may find nothing to start from, or the links lead from there
/// to where it may end.
pub open spec fn begun(t: &Tree, ends: Ends, asc: bool, to: Option<PageOrdinal>) -> bool {
    match to {
        Some(o) => exists|start: PageOrdinal| #[trigger]
            entered(t, ends, asc, start) && walked(t, asc, start, o),
        None => ends.empty || unentered(t, ends, asc) || exists|start: PageOrdinal| #[trigger]
            entered(t, ends, asc, start) && ran_out(t, ends, asc, start),
    }
}

/// The first entry of a scan.
pub(crate) fn first_spot(t: &Tree, range: &KeyRange, asc: bool, steps: u64) -> (r: Result<
    Option<Spot>,
    Error,
>)
    requires
        steps >= t.spec_store().file().section.count,
    ensures
        match r {
            Ok(Some(spot)) => {
                &&& spot_ok(t, range@, asc, spot)
                &&& live(asc, spot)
                &&& range@.accepted(t.spec_encoding())
                &&& begun(t, range@, asc, Some(spot.pin.spec_ordinal()))
                &&& forall|s: TreeShape, layout: NodeLayout| #[trigger]
                    t.holds(s, layout) ==> start_at(
                        t,
                        range@,
                        asc,
                        s,
                        spot.pin.spec_ordinal(),
                        spot.index as int,
                    )
            },
            Ok(None) => begun(t, range@, asc, None) && forall|
                s: TreeShape,
                layout: NodeLayout,
                x: int,
            |
                #![trigger t.holds(s, layout), s.rows[x]]
                t.holds(s, layout) && 0 <= x < s.rows.len() ==> !(reached(t.spec_encoding(), range@, asc, s.rows[x].key) && inside(
                    t.spec_encoding(),
                    range@,
                    asc,
                    s.rows[x].key,
                )),
            Err(e) => scan_failure(t, range@, e),
        },
{
    let ghost ends = range@;
    let started = if asc {
        ascending_start(t, range::as_ref_bound(range.lower_bound()), Ghost(ends))
    } else {
        match range.upper_bound() {
            Bound::Unbounded => {
                let top = t.max_leaf();
                proof {
                    if top is Ok && top->Ok_0 is Some {
                        let (pin, i) = (top->Ok_0->Some_0.0, top->Ok_0->Some_0.1);
                        assert forall|s: TreeShape, layout: NodeLayout| #[trigger]
                            t.holds(s, layout) implies start_at(
                            t,
                            ends,
                            false,
                            s,
                            pin.spec_ordinal(),
                            i as int,
                        ) by {
                            let r = s.rows.len() - 1;
                            assert(paths::entry_is_row(s, pin.spec_ordinal(), i as int, r));
                            assert(starts(t.spec_encoding(), ends, false, s.rows, r));
                        }
                    }
                }
                top
            },
            Bound::Included(k) => descending_start(
                t,
                k.as_slice(),
                SearchOp::UpperBound,
                Ghost(ends),
            ),
            Bound::Excluded(k) => descending_start(
                t,
                k.as_slice(),
                SearchOp::LowerBound,
                Ghost(ends),
            ),
        }
    };
    let (pin, index) = match started {
        Ok(Some(found)) => found,
        Ok(None) => return Ok(None),
        Err(e) => return Err(e),
    };
    let ghost o = pin.spec_ordinal();
    proof {
        assert forall|s: TreeShape, layout: NodeLayout| #[trigger]
            t.holds(s, layout) implies exists|j: int| #[trigger]
            placed(t, asc, steps, s, o, j) by {
            assert(start_at(t, ends, asc, s, o, index as int));
            let r = choose|r: int| #[trigger]
                paths::entry_is_row(s, o, index as int, r) && starts(
                    t.spec_encoding(),
                    ends,
                    asc,
                    s.rows,
                    r,
                );
            let j = choose|j: int|
                #[trigger] paths::leaf_at(s, o, j) && r == s.levels[0][j].first + index;
            lemma_leaf(t, s, layout, o, j);
            assert(placed(t, asc, steps, s, o, j));
        }
    }
    let spot = match arrive(t, range, asc, pin, index, steps) {
        Ok(spot) => spot,
        Err(e) => return Err(e),
    };
    let settled = match settle(t, range, asc, spot) {
        Ok(n) => n,
        Err(e) => return Err(e),
    };
    proof {
        let e = t.spec_encoding();
        assert forall|s: TreeShape, layout: NodeLayout| #[trigger]
            t.holds(s, layout) implies exists|r: int| #[trigger]
            next_up(s, o, index as int, r) && starts(e, ends, asc, s.rows, r) by {
            assert(start_at(t, ends, asc, s, o, index as int));
            let r = choose|r: int| #[trigger]
                paths::entry_is_row(s, o, index as int, r) && starts(e, ends, asc, s.rows, r);
            assert(next_up(s, o, index as int, r));
        }
        assert(entered(t, ends, asc, o));
        if settled is Some {
                let next = settled->Some_0;
                assert(begun(t, ends, asc, Some(next.pin.spec_ordinal())));
                assert forall|s: TreeShape, layout: NodeLayout| #[trigger]
                    t.holds(s, layout) implies start_at(
                    t,
                    ends,
                    asc,
                    s,
                    next.pin.spec_ordinal(),
                    next.index as int,
                ) by {
                    let r = choose|r: int| #[trigger]
                        next_up(s, o, index as int, r) && starts(e, ends, asc, s.rows, r);
                    assert(paths::entry_is_row(s, next.pin.spec_ordinal(), next.index as int, r));
                }
            } else {
                assert forall|s: TreeShape, layout: NodeLayout, x: int|
                    #![trigger t.holds(s, layout), s.rows[x]]
                    t.holds(s, layout) && 0 <= x < s.rows.len() implies !(reached(e, ends, asc, s.rows[x].key) && inside(
                    e,
                    ends,
                    asc,
                    s.rows[x].key,
                )) by {
                    let r = choose|r: int| #[trigger]
                        next_up(s, o, index as int, r) && starts(e, ends, asc, s.rows, r);
                    if past(asc, r, x) {
                        lemma_bounds_cut(e, ends, asc, s.rows, r, x);
                    }
                }
            }
    }
    Ok(settled)
}

} // verus!
