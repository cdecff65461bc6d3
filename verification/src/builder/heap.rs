//! Heaps of records in key order.
//!
//! Records are ordered by `(key, sequence)`: the key order comes from the encoding, and the
//! sequence number keeps records with equal keys in append order. Both the sort of a buffer
//! and the merge of sorted runs go through the same heap.

use vstd::prelude::*;

use crate::encoding::{self, KeyEncoding, KeyOrder, SharedEncoding};

verus! {

/// A thing with a key and a place in the append order.
pub trait Ranked {
    /// The encoded key.
    spec fn rank_key(&self) -> Seq<u8>;

    /// Append order, used to break ties between equal keys.
    spec fn rank_seq(&self) -> u64;

    /// The encoded key.
    fn key_bytes(&self) -> (r: &[u8])
        ensures
            r@ == self.rank_key(),
    ;

    /// Append order.
    fn sequence(&self) -> (r: u64)
        ensures
            r == self.rank_seq(),
    ;
}

/// Whether `a` comes before `b`.
pub open spec fn before<K: Ranked>(e: SharedEncoding, a: K, b: K) -> bool {
    let s = e.inner.sign(a.rank_key(), b.rank_key());
    s < 0 || s == 0 && a.rank_seq() < b.rank_seq()
}

/// Whether `a` belongs above `b` in a heap: before it, or after it in a reversed heap.
pub open spec fn above<K: Ranked>(e: SharedEncoding, flip: bool, a: K, b: K) -> bool {
    if flip {
        before(e, b, a)
    } else {
        before(e, a, b)
    }
}

/// Whether an encoding takes the keys of a list.
pub open spec fn keys_taken<K: Ranked>(e: SharedEncoding, v: Seq<K>) -> bool {
    forall|i: int| 0 <= i < v.len() ==> e.inner.accepts((#[trigger] v[i]).rank_key())
}

/// Whether no two things of a list have the same place in the append order.
pub open spec fn apart<K: Ranked>(v: Seq<K>) -> bool {
    forall|i: int, j: int|
        0 <= i < j < v.len() ==> (#[trigger] v[i]).rank_seq() != (#[trigger] v[j]).rank_seq()
}

/// The order is transitive, and one of two different things comes first.
pub proof fn lemma_before<K: Ranked>(e: SharedEncoding, a: K, b: K, c: K)
    requires
        encoding::lawful(&**e.inner),
        e.inner.accepts(a.rank_key()),
        e.inner.accepts(b.rank_key()),
        e.inner.accepts(c.rank_key()),
    ensures
        before(e, a, b) && before(e, b, c) ==> before(e, a, c),
        !(before(e, a, b) && before(e, b, a)),
        a.rank_seq() != b.rank_seq() ==> before(e, a, b) || before(e, b, a),
{
    let (x, y, z) = (a.rank_key(), b.rank_key(), c.rank_key());
    assert(e.inner.sign(x, y) < 0 <==> e.inner.sign(y, x) > 0);
    assert(e.inner.sign(y, x) < 0 <==> e.inner.sign(x, y) > 0);
    if before(e, a, b) && before(e, b, c) {
        assert(e.inner.sign(x, y) <= 0 && e.inner.sign(y, z) <= 0);
        assert(e.inner.sign(x, z) <= 0);
    }
}

/// Whether `a` comes before `b`.
pub(crate) fn precedes<K: Ranked>(e: &SharedEncoding, flip: bool, a: &K, b: &K) -> (r: bool)
    requires
        e.inner.accepts(a.rank_key()),
        e.inner.accepts(b.rank_key()),
    ensures
        r == above(*e, flip, *a, *b),
{
    let (x, y) = if flip {
        (b, a)
    } else {
        (a, b)
    };
    match e.order(x.key_bytes(), y.key_bytes()) {
        Ok(KeyOrder::Less) => true,
        Ok(KeyOrder::Equal) => x.sequence() < y.sequence(),
        Ok(KeyOrder::Greater) => false,
        Err(_) => false,
    }
}

/// The parent of a place in a heap.
pub open spec fn parent(j: int) -> int {
    (j - 1) / 2
}

/// Whether a place of a heap is not above its parent.
pub open spec fn settled<K: Ranked>(e: SharedEncoding, flip: bool, v: Seq<K>, j: int) -> bool {
    !above(e, flip, v[j], v[parent(j)])
}

/// Whether the first `n` things of a list are a heap, from place `from` on.
pub open spec fn heap_from<K: Ranked>(
    e: SharedEncoding,
    flip: bool,
    v: Seq<K>,
    from: int,
    n: int,
) -> bool {
    forall|j: int| 0 < j < n && from <= parent(j) ==> #[trigger] settled(e, flip, v, j)
}

/// The same, but for the children of one place.
pub open spec fn heap_but<K: Ranked>(
    e: SharedEncoding,
    flip: bool,
    v: Seq<K>,
    from: int,
    n: int,
    hole: int,
) -> bool {
    &&& forall|j: int|
        0 < j < n && from <= parent(j) && parent(j) != hole ==> #[trigger] settled(e, flip, v, j)
    &&& hole > from && from <= parent(hole) ==> forall|j: int|
        0 < j < n && parent(j) == hole ==> !above(e, flip, #[trigger] v[j], v[parent(hole)])
}

/// Whether two lists have the same things, and the things past `n` are where they were.
pub open spec fn shuffled<K>(a: Seq<K>, b: Seq<K>, n: int) -> bool {
    &&& a.len() == b.len()
    &&& forall|i: int| n <= i < a.len() ==> #[trigger] b[i] == a[i]
    &&& forall|i: int| 0 <= i < n && i < b.len() ==> among(a, n, #[trigger] b[i])
    &&& forall|i: int| 0 <= i < n && i < a.len() ==> among(b, n, #[trigger] a[i])
}

/// Whether a thing is among the first `n` of a list.
pub open spec fn among<K>(a: Seq<K>, n: int, x: K) -> bool {
    exists|j: int| 0 <= j < n && j < a.len() && #[trigger] a[j] == x
}

/// Swaps two things.
pub(crate) fn swap<K>(v: &mut Vec<K>, a: usize, b: usize)
    requires
        a < b < old(v)@.len(),
    ensures
        final(v)@ == old(v)@.update(a as int, old(v)@[b as int]).update(
            b as int,
            old(v)@[a as int],
        ),
{
    let (left, right) = v.as_mut_slice().split_at_mut(b);
    std::mem::swap(&mut left[a], &mut right[0]);
}

/// What a swap keeps.
proof fn lemma_swapped<K: Ranked>(e: SharedEncoding, a: Seq<K>, b: Seq<K>, n: int, x: int, y: int)
    requires
        0 <= x < y < n,
        n <= a.len(),
        b == a.update(x, a[y]).update(y, a[x]),
        keys_taken(e, a),
    ensures
        keys_taken(e, b),
        apart(a) ==> apart(b),
        shuffled(a, b, n),
{
    assert forall|i: int| 0 <= i < b.len() implies e.inner.accepts((#[trigger] b[i]).rank_key()) by {
        let j = if i == x {
            y
        } else if i == y {
            x
        } else {
            i
        };
        assert(b[i] == a[j]);
    }
    if apart(a) {
        assert forall|i: int, j: int| 0 <= i < j < b.len() implies (#[trigger] b[i]).rank_seq() != (
        #[trigger] b[j]).rank_seq() by {
            let p = if i == x {
                y
            } else if i == y {
                x
            } else {
                i
            };
            let q = if j == x {
                y
            } else if j == y {
                x
            } else {
                j
            };
            assert(b[i] == a[p] && b[j] == a[q]);
        }
    }
    assert forall|i: int| 0 <= i < n && i < b.len() implies among(a, n, #[trigger] b[i]) by {
        let j = if i == x {
            y
        } else if i == y {
            x
        } else {
            i
        };
        assert(a[j] == b[i]);
    }
    assert forall|i: int| 0 <= i < n && i < a.len() implies among(b, n, #[trigger] a[i]) by {
        let j = if i == x {
            y
        } else if i == y {
            x
        } else {
            i
        };
        assert(b[j] == a[i]);
    }
}

/// Shuffling twice is shuffling.
pub proof fn lemma_shuffled_twice<K>(a: Seq<K>, b: Seq<K>, c: Seq<K>, n: int)
    requires
        shuffled(a, b, n),
        shuffled(b, c, n),
    ensures
        shuffled(a, c, n),
{
    assert forall|i: int| 0 <= i < n && i < c.len() implies among(a, n, #[trigger] c[i]) by {
        assert(among(b, n, c[i]));
        let j = choose|j: int| 0 <= j < n && j < b.len() && #[trigger] b[j] == c[i];
        assert(among(a, n, b[j]));
    }
    assert forall|i: int| 0 <= i < n && i < a.len() implies among(c, n, #[trigger] a[i]) by {
        assert(among(b, n, a[i]));
        let j = choose|j: int| 0 <= j < n && j < b.len() && #[trigger] b[j] == a[i];
        assert(among(c, n, b[j]));
    }
}

/// What moving a thing down one step does to a heap with a hole.
proof fn lemma_step_down<K: Ranked>(
    e: SharedEncoding,
    flip: bool,
    a: Seq<K>,
    b: Seq<K>,
    from: int,
    n: int,
    hole: int,
    c: int,
)
    requires
        encoding::lawful(&**e.inner),
        keys_taken(e, a),
        apart(a),
        0 <= from <= hole,
        hole < c < n <= a.len(),
        parent(c) == hole,
        above(e, flip, a[c], a[hole]),
        forall|j: int|
            0 < j < n && parent(j) == hole ==> !above(e, flip, #[trigger] a[j], a[c]),
        heap_but(e, flip, a, from, n, hole),
        b == a.update(hole, a[c]).update(c, a[hole]),
    ensures
        heap_but(e, flip, b, from, n, c),
{
    assert forall|j: int|
        0 < j < n && from <= parent(j) && parent(j) != c implies #[trigger] settled(
        e,
        flip,
        b,
        j,
    ) by {
        if parent(j) == hole {
            if j == c {
                lemma_before(e, a[c], a[hole], a[c]);
            } else {
                assert(b[j] == a[j]);
                assert(!above(e, flip, a[j], a[c]));
            }
        } else if j == hole {
            assert(b[parent(j)] == a[parent(j)]);
            assert(!above(e, flip, a[c], a[parent(hole)]));
        } else {
            assert(settled(e, flip, a, j));
            assert(b[j] == a[j] && b[parent(j)] == a[parent(j)]);
        }
    }
    assert forall|j: int| 0 < j < n && parent(j) == c implies !above(
        e,
        flip,
        #[trigger] b[j],
        b[parent(c)],
    ) by {
        assert(settled(e, flip, a, j));
        assert(b[j] == a[j]);
    }
}

/// A hole whose children are not above it is no hole.
proof fn lemma_stop<K: Ranked>(
    e: SharedEncoding,
    flip: bool,
    v: Seq<K>,
    from: int,
    n: int,
    hole: int,
)
    requires
        heap_but(e, flip, v, from, n, hole),
        forall|j: int| 0 < j < n && parent(j) == hole ==> #[trigger] settled(e, flip, v, j),
    ensures
        heap_from(e, flip, v, from, n),
{
}

/// Moves the thing at place `i` down to where it belongs, among the first `n`.
pub(crate) fn sift_down<K: Ranked>(
    e: &SharedEncoding,
    flip: bool,
    v: &mut Vec<K>,
    i: usize,
    n: usize,
    Ghost(from): Ghost<int>,
)
    requires
        keys_taken(*e, old(v)@),
        apart(old(v)@),
        i < n <= old(v)@.len(),
        0 <= from <= i,
        encoding::lawful(&**e.inner) ==> heap_but(
            *e,
            flip,
            old(v)@,
            from,
            n as int,
            i as int,
        ),
    ensures
        keys_taken(*e, final(v)@),
        apart(final(v)@),
        shuffled(old(v)@, final(v)@, n as int),
        encoding::lawful(&**e.inner) ==> heap_from(
            *e,
            flip,
            final(v)@,
            from,
            n as int,
        ),
{
    let ghost start = v@;
    let ghost ordered = encoding::lawful(&**e.inner);
    let mut hole = i;
    proof {
        assert(shuffled(start, start, n as int)) by {
            assert forall|k: int| 0 <= k < n && k < start.len() implies among(
                start,
                n as int,
                #[trigger] start[k],
            ) by {}
        }
    }
    while hole < n / 2
        invariant
            from <= hole < n <= v@.len(),
            0 <= from,
            keys_taken(*e, v@),
            apart(v@),
            shuffled(start, v@, n as int),
            ordered == encoding::lawful(&**e.inner),
            ordered ==> heap_but(*e, flip, v@, from, n as int, hole as int),
            start == old(v)@,
        decreases n - hole,
    {
        let left = 2 * hole + 1;
        let right = left + 1;
        let mut best = left;
        if right < n && precedes(e, flip, &v[right], &v[left]) {
            best = right;
        }
        let ghost held = v@;
        proof {
            if ordered {
                assert forall|j: int| 0 < j < n && parent(j) == hole implies !above(
                    *e,
                    flip,
                    #[trigger] held[j],
                    held[best as int],
                ) by {
                    assert(j == left || j == right);
                    lemma_before(*e, held[left as int], held[j], held[left as int]);
                    lemma_before(*e, held[j], held[best as int], held[j]);
                    lemma_before(*e, held[best as int], held[j], held[best as int]);
                }
            }
        }
        if !precedes(e, flip, &v[best], &v[hole]) {
            proof {
                if ordered {
                    assert forall|j: int| 0 < j < n && parent(j) == hole implies #[trigger] settled(
                        *e,
                        flip,
                        held,
                        j,
                    ) by {
                        assert(!above(*e, flip, held[j], held[best as int]));
                        let (x, y, z) = (held[j], held[best as int], held[hole as int]);
                        lemma_before(*e, x, y, z);
                        lemma_before(*e, y, z, x);
                        lemma_before(*e, z, y, x);
                        lemma_before(*e, x, z, y);
                        lemma_before(*e, z, x, y);
                        lemma_before(*e, y, x, z);
                    }
                    lemma_stop(*e, flip, held, from, n as int, hole as int);
                }
            }
            return;
        }
        swap(v, hole, best);
        proof {
            lemma_swapped(*e, held, v@, n as int, hole as int, best as int);
            lemma_shuffled_twice(start, held, v@, n as int);
            if ordered {
                lemma_step_down(*e, flip, held, v@, from, n as int, hole as int, best as int);
            }
        }
        hole = best;
    }
    proof {
        if ordered {
            lemma_stop(*e, flip, v@, from, n as int, hole as int);
        }
    }
}

/// Whether a list is in order.
pub open spec fn in_order<K: Ranked>(e: SharedEncoding, v: Seq<K>) -> bool {
    forall|i: int, j: int|
        0 <= i < j < v.len() ==> before(e, #[trigger] v[i], #[trigger] v[j])
}

/// Nothing in a heap is above its root.
pub proof fn lemma_root<K: Ranked>(e: SharedEncoding, flip: bool, v: Seq<K>, n: int, j: int)
    requires
        encoding::lawful(&**e.inner),
        keys_taken(e, v),
        apart(v),
        heap_from(e, flip, v, 0, n),
        0 <= j < n <= v.len(),
    ensures
        !above(e, flip, v[j], v[0]),
        j > 0 ==> above(e, flip, v[0], v[j]),
    decreases j,
{
    if j == 0 {
        lemma_before(e, v[0], v[0], v[0]);
    } else {
        let p = parent(j);
        lemma_root(e, flip, v, n, p);
        assert(settled(e, flip, v, j));
        let (x, y, z) = (v[j], v[p], v[0]);
        lemma_before(e, x, y, z);
        lemma_before(e, y, z, x);
        lemma_before(e, z, y, x);
        lemma_before(e, x, z, y);
        lemma_before(e, z, x, y);
        lemma_before(e, y, x, z);
    }
}

/// Makes a list a heap.
pub(crate) fn heapify<K: Ranked>(e: &SharedEncoding, flip: bool, v: &mut Vec<K>)
    requires
        keys_taken(*e, old(v)@),
        apart(old(v)@),
    ensures
        keys_taken(*e, final(v)@),
        apart(final(v)@),
        shuffled(old(v)@, final(v)@, old(v)@.len() as int),
        encoding::lawful(&**e.inner) ==> heap_from(
            *e,
            flip,
            final(v)@,
            0,
            final(v)@.len() as int,
        ),
{
    let n = v.len();
    let ghost start = v@;
    let mut i = n / 2;
    proof {
        lemma_shuffled_self(start);
    }
    while i > 0
        invariant
            i <= n / 2,
            n == v@.len(),
            start == old(v)@,
            start.len() == n,
            keys_taken(*e, v@),
            apart(v@),
            shuffled(start, v@, n as int),
            encoding::lawful(&**e.inner) ==> heap_from(
                *e,
                flip,
                v@,
                i as int,
                n as int,
            ),
        decreases i,
    {
        i -= 1;
        let ghost held = v@;
        sift_down(e, flip, v, i, n, Ghost(i as int));
        proof {
            lemma_shuffled_twice(start, held, v@, n as int);
        }
    }
}

/// A list is a shuffle of itself.
pub proof fn lemma_shuffled_self<K>(v: Seq<K>)
    ensures
        shuffled(v, v, v.len() as int),
{
    assert forall|i: int| 0 <= i < v.len() implies among(v, v.len() as int, #[trigger] v[i]) by {}
}

/// Whether the things past `n` are in order, and after all the others.
pub open spec fn sorted_past<K: Ranked>(e: SharedEncoding, v: Seq<K>, n: int) -> bool {
    forall|i: int, j: int|
        0 <= i < j < v.len() && n <= j ==> before(e, #[trigger] v[i], #[trigger] v[j])
}

/// Sorts a list in place.
pub(crate) fn heap_sort<K: Ranked>(e: &SharedEncoding, v: &mut Vec<K>)
    requires
        keys_taken(*e, old(v)@),
        apart(old(v)@),
    ensures
        keys_taken(*e, final(v)@),
        apart(final(v)@),
        shuffled(old(v)@, final(v)@, old(v)@.len() as int),
        encoding::lawful(&**e.inner) ==> in_order(*e, final(v)@),
{
    let ghost start = v@;
    let ghost ordered = encoding::lawful(&**e.inner);
    heapify(e, true, v);
    let mut n = v.len();
    while n > 1
        invariant
            n <= v@.len(),
            start == old(v)@,
            start.len() == v@.len(),
            keys_taken(*e, v@),
            apart(v@),
            shuffled(start, v@, start.len() as int),
            ordered == encoding::lawful(&**e.inner),
            ordered ==> heap_from(*e, true, v@, 0, n as int),
            ordered ==> sorted_past(*e, v@, n as int),
        decreases n,
    {
        let last = n - 1;
        let ghost held = v@;
        swap(v, 0, last);
        let ghost swapped = v@;
        proof {
            lemma_swapped(*e, held, swapped, v@.len() as int, 0, last as int);
            lemma_shuffled_twice(start, held, swapped, v@.len() as int);
            if ordered {
                assert(sorted_past(*e, swapped, last as int)) by {
                    assert forall|i: int, j: int|
                        0 <= i < j < swapped.len() && last <= j implies before(
                        *e,
                        #[trigger] swapped[i],
                        #[trigger] swapped[j],
                    ) by {
                        let p = if i == 0 {
                            last as int
                        } else if i == last {
                            0
                        } else {
                            i
                        };
                        assert(swapped[i] == held[p]);
                        if j == last {
                            lemma_root(*e, true, held, n as int, p);
                            lemma_before(*e, held[p], held[0], held[p]);
                            assert(swapped[j] == held[0]);
                            assert(p > 0);
                        } else {
                            assert(swapped[j] == held[j]);
                            assert(before(*e, held[p], held[j]));
                        }
                    }
                }
                assert(heap_but(*e, true, swapped, 0, last as int, 0)) by {
                    assert forall|j: int|
                        0 < j < last && 0 <= parent(j) && parent(j) != 0 implies #[trigger] settled(
                        *e,
                        true,
                        swapped,
                        j,
                    ) by {
                        assert(settled(*e, true, held, j));
                        assert(swapped[j] == held[j] && swapped[parent(j)] == held[parent(j)]);
                    }
                }
            }
        }
        sift_down(e, true, v, 0, last, Ghost(0));
        proof {
            lemma_front_shuffled(swapped, v@, last as int);
            lemma_shuffled_twice(start, swapped, v@, v@.len() as int);
            if ordered {
                assert(sorted_past(*e, v@, last as int)) by {
                    assert forall|i: int, j: int| 0 <= i < j < v@.len() && last <= j implies before(
                        *e,
                        #[trigger] v@[i],
                        #[trigger] v@[j],
                    ) by {
                        assert(v@[j] == swapped[j]);
                        if i < last {
                            assert(among(swapped, last as int, v@[i]));
                            let p = choose|p: int|
                                0 <= p < last && p < swapped.len() && #[trigger] swapped[p] == v@[i];
                            assert(before(*e, swapped[p], swapped[j]));
                        } else {
                            assert(v@[i] == swapped[i]);
                        }
                    }
                }
            }
        }
        n = last;
    }
    proof {
        if ordered {
            assert(in_order(*e, v@)) by {
                assert forall|i: int, j: int| 0 <= i < j < v@.len() implies before(
                    *e,
                    #[trigger] v@[i],
                    #[trigger] v@[j],
                ) by {}
            }
        }
    }
}

/// Shuffling the front is shuffling.
proof fn lemma_front_shuffled<K>(a: Seq<K>, b: Seq<K>, n: int)
    requires
        shuffled(a, b, n),
        0 <= n <= a.len(),
    ensures
        shuffled(a, b, a.len() as int),
{
    assert forall|i: int| 0 <= i < b.len() implies among(a, a.len() as int, #[trigger] b[i]) by {
        if i < n {
            assert(among(a, n, b[i]));
            let j = choose|j: int| 0 <= j < n && j < a.len() && #[trigger] a[j] == b[i];
            assert(a[j] == b[i]);
        } else {
            assert(a[i] == b[i]);
        }
    }
    assert forall|i: int| 0 <= i < a.len() implies among(b, a.len() as int, #[trigger] a[i]) by {
        if i < n {
            assert(among(b, n, a[i]));
            let j = choose|j: int| 0 <= j < n && j < b.len() && #[trigger] b[j] == a[i];
            assert(b[j] == a[i]);
        } else {
            assert(b[i] == a[i]);
        }
    }
}

} // verus!
