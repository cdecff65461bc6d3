//! Complete binary search trees stored in breadth-first order.
//!
//! A page may store its digests as the nodes of a complete binary tree, node `i` in slot
//! `i - 1`, with the children of node `i` at `2 * i` and `2 * i + 1`. The in-order walk of
//! the tree is the digests in ascending order, padded at the end.

use vstd::arithmetic::power2::*;
use vstd::prelude::*;

verus! {

/// The smallest `2^k - 1` that is at least `n`.
pub open spec fn complete(n: nat) -> nat
    decreases n,
{
    if n == 0 {
        0
    } else {
        2 * complete(n / 2) + 1
    }
}

/// Whether `m` is the node count of a complete tree.
pub open spec fn is_complete(m: int) -> bool {
    exists|k: nat| #[trigger] pow2(k) == m + 1
}

/// The height of the smallest complete tree with at least `n` nodes.
pub open spec fn height(n: nat) -> nat
    decreases n,
{
    if n == 0 {
        0
    } else {
        height(n / 2) + 1
    }
}

/// A complete tree of height `h` has `2^h - 1` nodes.
pub proof fn lemma_complete_height(n: nat)
    ensures
        complete(n) + 1 == pow2(height(n)),
        n <= complete(n),
        n > 0 ==> complete(n) <= 2 * n - 1,
    decreases n,
{
    if n == 0 {
        lemma2_to64();
    } else {
        lemma_complete_height(n / 2);
        lemma_pow2_unfold(height(n));
    }
}

/// Node counts below a power of two complete below it too.
pub proof fn lemma_complete_below(n: nat, k: nat)
    requires
        n < pow2(k),
    ensures
        complete(n) < pow2(k),
    decreases n,
{
    if n > 0 {
        if k == 0 {
            lemma2_to64();
        }
        lemma_pow2_unfold(k);
        lemma_complete_below(n / 2, (k - 1) as nat);
    }
}

/// [`complete`] is what it says: complete, large enough, and no larger than any other
/// complete tree that is.
pub proof fn lemma_complete_is_smallest(n: nat, m: int)
    requires
        is_complete(m),
        n <= m,
    ensures
        is_complete(complete(n) as int),
        n <= complete(n) <= m,
{
    lemma_complete_height(n);
    let k = choose|k: nat| #[trigger] pow2(k) == m + 1;
    lemma_complete_below(n, k);
    assert(pow2(height(n)) == complete(n) + 1);
}

/// The smallest complete-tree slot count (`2^k - 1`) that holds `count` digests.
pub fn complete_size(count: usize) -> (r: usize)
    ensures
        r == complete(count as nat),
    decreases count,
{
    if count == 0 {
        0
    } else {
        let below = complete_size(count / 2);
        proof {
            lemma2_to64();
            lemma_pow2_unfold(32);
            lemma_pow2_unfold(64);
            assert(usize::MAX == 0xffff_ffff || usize::MAX == 0xffff_ffff_ffff_ffff);
            if usize::MAX == 0xffff_ffff {
                lemma_complete_below((count / 2) as nat, 31);
            } else {
                lemma_pow2_unfold(63);
                lemma_complete_below((count / 2) as nat, 63);
            }
        }
        2 * below + 1
    }
}

/// The node at in-order position `r` of the tree of height `k` below `node`.
pub open spec fn node_at(node: int, k: nat, r: int) -> int
    decreases k,
{
    if k == 0 {
        node
    } else {
        let mid = pow2((k - 1) as nat) - 1;
        if r == mid {
            node
        } else if r < mid {
            node_at(2 * node, (k - 1) as nat, r)
        } else {
            node_at(2 * node + 1, (k - 1) as nat, r - mid - 1)
        }
    }
}

/// The slots of a complete tree in ascending (in-order) order.
pub open spec fn in_order(slots: Seq<u64>) -> Seq<u64> {
    let h = height(slots.len());
    Seq::new(slots.len(), |r: int| slots[node_at(1, h, r) - 1])
}

/// Sorted digests padded with the largest digest up to `n`.
pub open spec fn padded(sorted: Seq<u64>, n: nat) -> Seq<u64> {
    Seq::new(n, |r: int| if r < sorted.len() { sorted[r] } else { u64::MAX })
}

/// Whether node `j` is `node` or below it.
pub open spec fn below(j: int, node: int) -> bool
    decreases j,
{
    j == node || (j > node && j > 1 && below(j / 2, node))
}

/// The nodes below the two children of a node are apart from each other and from it.
proof fn lemma_children_apart(j: int, node: int)
    requires
        node >= 1,
    ensures
        below(j, 2 * node) ==> below(j, node) && j != node && !below(j, 2 * node + 1),
        below(j, 2 * node + 1) ==> below(j, node) && j != node && !below(j, 2 * node),
    decreases j,
{
    if j > 1 {
        lemma_children_apart(j / 2, node);
    }
    if j <= 1 {
        assert(!below(j, 2 * node));
        assert(!below(j, 2 * node + 1));
    }
    reveal_with_fuel(below, 3);
}

/// In-order positions of a subtree are nodes of that subtree, numbered below the end of
/// its last level.
proof fn lemma_node_at_range(node: int, k: nat, r: int)
    requires
        node >= 1,
        0 <= r < pow2(k) - 1,
    ensures
        below(node_at(node, k, r), node),
        node <= node_at(node, k, r),
        node_at(node, k, r) + 1 <= (node + 1) * pow2((k - 1) as nat),
    decreases k,
{
    lemma2_to64();
    if k > 0 {
        lemma_pow2_unfold(k);
        lemma_pow2_pos((k - 1) as nat);
        let mid = pow2((k - 1) as nat) - 1;
        let x = node_at(node, k, r);
        if r == mid {
            assert((node + 1) * pow2((k - 1) as nat) >= node + 1) by (nonlinear_arith)
                requires
                    node >= 1,
                    pow2((k - 1) as nat) >= 1,
            ;
        } else if r < mid {
            lemma_node_at_range(2 * node, (k - 1) as nat, r);
            lemma_children_apart(x, node);
            lemma_pow2_unfold((k - 1) as nat);
            let a = pow2((k - 2) as nat) as int;
            assert((2 * node + 1) * a <= (node + 1) * (2 * a)) by (nonlinear_arith)
                requires
                    a >= 0,
                    node >= 1,
            ;
        } else {
            lemma_node_at_range(2 * node + 1, (k - 1) as nat, r - mid - 1);
            lemma_children_apart(x, node);
            lemma_pow2_unfold((k - 1) as nat);
            let a = pow2((k - 2) as nat) as int;
            assert((2 * node + 2) * a == (node + 1) * (2 * a)) by (nonlinear_arith);
        }
    }
}

/// In-order positions of a complete tree are nodes of it.
pub proof fn lemma_node_in_tree(h: nat, r: int)
    requires
        0 <= r < pow2(h) - 1,
    ensures
        1 <= node_at(1, h, r) <= pow2(h) - 1,
{
    lemma2_to64();
    lemma_node_at_range(1, h, r);
    lemma_pow2_unfold(h);
}

/// The node at in-order position `r` of the tree of height `k` below `node`.
///
/// `half` is half the width of the tree: `2^(k - 1)`.
pub fn find_node(node: usize, half: usize, r: usize, Ghost(k): Ghost<nat>) -> (n: usize)
    requires
        k >= 1,
        node >= 1,
        half == pow2((k - 1) as nat),
        r < 2 * half - 1,
        (node + 1) * half <= usize::MAX,
    ensures
        n == node_at(node as int, k, r as int),
    decreases k,
{
    proof {
        lemma_pow2_pos((k - 1) as nat);
    }
    if r == half - 1 {
        return node;
    }
    proof {
        lemma2_to64();
        if k == 1 {
            assert(pow2(0) == 1);
        }
        lemma_pow2_unfold((k - 1) as nat);
        let a = pow2((k - 2) as nat) as int;
        assert((2 * node + 2) * a == (node + 1) * (2 * a)) by (nonlinear_arith);
        assert((2 * node + 2) * a >= 2 * node + 2) by (nonlinear_arith)
            requires
                a >= 1,
                node >= 1,
        ;
        assert((2 * node + 2) * a >= (2 * node + 1) * a) by (nonlinear_arith)
            requires
                a >= 1,
        ;
    }
    if r < half - 1 {
        find_node(2 * node, half / 2, r, Ghost((k - 1) as nat))
    } else {
        find_node(2 * node + 1, half / 2, r - half, Ghost((k - 1) as nat))
    }
}

/// Fills the tree of height `k` below `node` from `sorted`, starting at `next`.
fn fill(
    sorted: &[u64],
    slots: &mut Vec<u64>,
    node: usize,
    next: usize,
    half: usize,
    Ghost(k): Ghost<nat>,
) -> (end: usize)
    requires
        node >= 1,
        (k == 0 && half == 0) || (k >= 1 && half == pow2((k - 1) as nat)),
        k >= 1 ==> (node + 1) * half <= old(slots)@.len() + 1,
        next + pow2(k) - 1 <= usize::MAX,
    ensures
        end == next + pow2(k) - 1,
        final(slots)@.len() == old(slots)@.len(),
        forall|r: int|
            0 <= r < pow2(k) - 1 ==> #[trigger] final(slots)@[node_at(node as int, k, r) - 1] == (
            if next + r < sorted@.len() {
                sorted@[next + r]
            } else {
                u64::MAX
            }),
        forall|j: int|
            1 <= j <= old(slots)@.len() && !below(j, node as int) ==> #[trigger] final(slots)@[j
                - 1] == old(slots)@[j - 1],
    decreases k,
{
    proof {
        lemma2_to64();
    }
    if half == 0 {
        proof {
            if k >= 1 {
                lemma_pow2_pos((k - 1) as nat);
            }
        }
        return next;
    }
    let ghost before = slots@;
    proof {
        lemma_pow2_unfold(k);
        lemma_pow2_pos((k - 1) as nat);
        if k >= 2 {
            lemma_pow2_unfold((k - 1) as nat);
            let a = pow2((k - 2) as nat) as int;
            assert((2 * node + 2) * a == (node + 1) * (2 * a)) by (nonlinear_arith);
            assert((2 * node + 2) * a >= (2 * node + 1) * a) by (nonlinear_arith)
                requires
                    pow2((k - 2) as nat) >= 0,
                    a == pow2((k - 2) as nat),
            ;
            assert((2 * node + 2) * a >= 2 * node + 2) by (nonlinear_arith)
                requires
                    a >= 1,
                    node >= 1,
            ;
        }
        assert((node + 1) * half >= node + 1) by (nonlinear_arith)
            requires
                half >= 1,
                node >= 1,
        ;
    }
    if half == 1 {
        proof {
            if k >= 2 {
                lemma_pow2_unfold((k - 1) as nat);
                lemma_pow2_pos((k - 2) as nat);
            }
            assert(k == 1);
        }
        slots.set(
            node - 1,
            if next < sorted.len() {
                sorted[next]
            } else {
                u64::MAX
            },
        );
        proof {
            reveal_with_fuel(node_at, 2);
            assert forall|j: int|
                1 <= j <= before.len() && !below(j, node as int) implies #[trigger] slots@[j - 1]
                == before[j - 1] by {
                assert(j != node);
            }
        }
        return next + 1;
    }
    let ghost kk = (k - 1) as nat;
    proof {
        if k == 1 {
            assert(half == 1);
        }
        assert(k >= 2);
        assert(2 * node + 2 <= slots.len() + 1);
    }
    let mid = fill(sorted, slots, 2 * node, next, half / 2, Ghost(kk));
    let ghost left = slots@;
    slots.set(
        node - 1,
        if mid < sorted.len() {
            sorted[mid]
        } else {
            u64::MAX
        },
    );
    let ghost middle = slots@;
    let end = fill(sorted, slots, 2 * node + 1, mid + 1, half / 2, Ghost(kk));
    proof {
        let w = pow2(kk) - 1;
        assert forall|r: int| 0 <= r < pow2(k) - 1 implies #[trigger] slots@[node_at(
            node as int,
            k,
            r,
        ) - 1] == (if next + r < sorted@.len() {
            sorted@[next + r]
        } else {
            u64::MAX
        }) by {
            if r == w {
                lemma_children_apart(node as int, node as int);
                assert(!below(node as int, 2 * node + 1));
                assert(slots@[node - 1] == middle[node - 1]);
            } else if r < w {
                let x = node_at(2 * node, kk, r);
                lemma_node_at_range(2 * node, kk, r);
                lemma_children_apart(x, node as int);
                lemma_pow2_unfold(kk);
                assert(1 <= x <= before.len());
                assert(slots@[x - 1] == middle[x - 1]);
                assert(middle[x - 1] == left[x - 1]);
            } else {
                let x = node_at(2 * node + 1, kk, r - w - 1);
                assert(next + r == mid + 1 + (r - w - 1));
                assert(node_at(node as int, k, r) == x);
            }
        }
        assert forall|j: int|
            1 <= j <= before.len() && !below(j, node as int) implies #[trigger] slots@[j - 1]
            == before[j - 1] by {
            lemma_children_apart(j, node as int);
            assert(slots@[j - 1] == middle[j - 1]);
            assert(middle[j - 1] == left[j - 1]);
        }
    }
    end
}

/// Scatters sorted digests into Eytzinger (breadth-first) slots, padding with `u64::MAX`.
pub fn scatter_eytzinger(sorted: &[u64], slots: &mut Vec<u64>)
    requires
        is_complete(old(slots)@.len() as int),
        sorted@.len() <= old(slots)@.len(),
    ensures
        final(slots)@.len() == old(slots)@.len(),
        in_order(final(slots)@) == padded(sorted@, old(slots)@.len()),
{
    let n = slots.len();
    let ghost h = height(n as nat);
    proof {
        lemma_complete_height(n as nat);
        lemma_complete_is_smallest(n as nat, n as int);
        lemma2_to64();
        if h >= 1 {
            lemma_pow2_unfold(h);
        }
    }
    let half = n / 2 + n % 2;
    proof {
        if h == 0 {
            assert(half == 0);
        } else {
            assert(n == 2 * pow2((h - 1) as nat) - 1);
            assert(half == pow2((h - 1) as nat));
        }
    }
    let end = fill(sorted, slots, 1, 0, half, Ghost(h));
    proof {
        assert(in_order(slots@) =~= padded(sorted@, n as nat));
    }
}

} // verus!
