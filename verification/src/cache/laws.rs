//! What the figures of the page cache mean.

use vstd::prelude::*;

use super::shard::{self, Slot};
use super::{gone_in, shard_for, spec_shard_count, turn_after, PageCache, Step};
use crate::budget;

verus! {

/// As many shards as were asked for, or as many as there can be, rounded up to a power of two.
pub proof fn lemma_shard_count(requested: usize)
    ensures
        1 <= spec_shard_count(requested) <= 1024,
        requested <= 1024 ==> spec_shard_count(requested) >= requested,
        requested > 1024 ==> spec_shard_count(requested) == 1024,
        spec_shard_count(requested) == 1 || spec_shard_count(requested) < 2 * requested,
        exists|k: nat| #[trigger]
            vstd::arithmetic::power2::pow2(k) == spec_shard_count(requested),
{
    let n = if requested > 1024 {
        1024nat
    } else {
        requested as nat
    };
    vstd::arithmetic::power2::lemma2_to64();
    reveal_with_fuel(budget::doubled_to, 12);
    assert(vstd::arithmetic::power2::pow2(0) == 1 && vstd::arithmetic::power2::pow2(10) == 1024);
    let c = spec_shard_count(requested);
    assert(c == 1 || c == 2 || c == 4 || c == 8 || c == 16 || c == 32 || c == 64 || c == 128 || c
        == 256 || c == 512 || c == 1024);
    assert(vstd::arithmetic::power2::pow2(1) == 2);
    assert(vstd::arithmetic::power2::pow2(2) == 4);
    assert(vstd::arithmetic::power2::pow2(3) == 8);
    assert(vstd::arithmetic::power2::pow2(4) == 16);
    assert(vstd::arithmetic::power2::pow2(5) == 32);
    assert(vstd::arithmetic::power2::pow2(6) == 64);
    assert(vstd::arithmetic::power2::pow2(7) == 128);
    assert(vstd::arithmetic::power2::pow2(8) == 256);
    assert(vstd::arithmetic::power2::pow2(9) == 512);
}

/// Every page has a shard, and the turns of the shards go round.
pub proof fn lemma_shards(ordinal: u64, shard: int, shards: nat)
    requires
        shards > 0,
        0 <= shard < shards,
    ensures
        0 <= shard_for(ordinal, shards) < shards,
        shards == 1 ==> shard_for(ordinal, shards) == 0,
        0 <= turn_after(shard, shards) < shards,
        turn_after(shard, shards) == shard + 1 || shard == shards - 1 && turn_after(shard, shards)
            == 0,
{
}

/// A marker costs what its slot does, and what the shard's table and ring have to grow by.
pub proof fn lemma_marker(growth: u64)
    requires
        growth < 0x1_0000_0000,
    ensures
        PageCache::marker_cost(growth) - PageCache::marker_cost(0) == growth,
        PageCache::marker_cost(0) == super::LOADING_SLOT_BYTES,
{
}

/// What went is the sum of what went in each step.
pub proof fn lemma_gone(steps: Seq<Step>, n: nat)
    requires
        n < steps.len(),
    ensures
        gone_in(steps, 0) == 0,
        steps[n as int].gone matches Some(bytes) ==> gone_in(steps, n + 1) - gone_in(steps, n)
            == bytes,
        steps[n as int].gone is None ==> gone_in(steps, n + 1) == gone_in(steps, n),
{
}

/// A ring that has to grow doubles until it holds what it has to, and is never smaller than four
/// then. It is paid for with the one it came from.
pub proof fn lemma_ring(capacity: nat, entries: nat)
    ensures
        entries <= capacity ==> shard::ring_grown(capacity, entries) == capacity,
        entries <= capacity ==> shard::spec_ring_target(capacity, entries) == 8 * capacity,
        entries > capacity ==> shard::ring_grown(capacity, entries) >= 4
            && shard::ring_grown(capacity, entries) >= entries,
        entries > capacity && capacity >= 2 ==> shard::ring_grown(capacity, entries) < 2 * entries,
        entries > capacity ==> shard::spec_ring_target(capacity, entries) == 8
            * shard::ring_grown(capacity, entries) + 8 * (shard::ring_grown(capacity, entries) / 2),
    decreases (if capacity < entries {
        entries - capacity
    } else {
        0
    }),
{
    if capacity < entries {
        if 2 * capacity < 4 {
            lemma_ring(4, entries);
        } else {
            lemma_ring(2 * capacity, entries);
        }
    }
}

/// Losing a page is losing that page: every other one stays, and every load in flight.
pub proof fn lemma_evicted(a: Map<u64, Slot>, b: Map<u64, Slot>, bytes: u64)
    requires
        shard::one_evicted(a, b, bytes),
    ensures
        exists|k: u64| #[trigger]
            a.contains_key(k) && a[k] is Ready && a[k]->bytes == bytes && !b.contains_key(k)
                && (forall|j: u64|
                j != k ==> (#[trigger] a.contains_key(j) <==> b.contains_key(j))) && (forall|j: u64|
                j != k && #[trigger] a.contains_key(j) && a[j] is Ready ==> b[j] is Ready && b[j]->pin
                    == a[j]->pin && b[j]->bytes == a[j]->bytes),
{
    let k = choose|k: u64| #[trigger] shard::evicted(a, b, k, bytes);
    let rest = a.remove(k);
    assert(a.contains_key(k));
    assert(rest.dom() == b.dom());
    assert forall|j: u64| j != k implies (#[trigger] a.contains_key(j) <==> b.contains_key(j)) by {
        assert(rest.dom().contains(j) <==> b.dom().contains(j));
    }
    assert forall|j: u64| j != k && #[trigger] a.contains_key(j) && a[j] is Ready implies b[j] is Ready
        && b[j]->pin == a[j]->pin && b[j]->bytes == a[j]->bytes by {
        assert(rest.contains_key(j));
        assert(shard::same_slot(rest[j], b[j]));
    }
    assert(!b.contains_key(k)) by {
        assert(!rest.dom().contains(k));
    }
}

/// A page that was used since the hand last passed it stays while there is one that was not: what
/// goes was not used, and was on the ring before every other page that was not. Where all were used,
/// the page that has been on the ring longest goes. A page that was passed over has to be used again
/// to be passed over again.
pub proof fn lemma_second_chance(
    ring: Seq<u64>,
    a: Map<u64, Slot>,
    b: Map<u64, Slot>,
    after: Seq<u64>,
    bytes: u64,
    q: int,
)
    requires
        shard::second_chance(ring, a, b, after),
        shard::one_evicted(a, b, bytes),
        ring.no_duplicates(),
        0 <= q < ring.len(),
        a.contains_key(ring[q]) && a[ring[q]] is Ready,
    ensures
        !a[ring[q]]->referenced ==> exists|p: int|
            0 <= p <= q && a.contains_key(#[trigger] ring[p]) && a[ring[p]] is Ready
                && !a[ring[p]]->referenced && !b.contains_key(ring[p]),
        (forall|i: int|
            0 <= i < ring.len() && a.contains_key(#[trigger] ring[i]) && a[ring[i]] is Ready
                ==> a[ring[i]]->referenced) ==> exists|p: int|
            0 <= p <= q && a.contains_key(#[trigger] ring[p]) && a[ring[p]] is Ready
                && !b.contains_key(ring[p]),
        a[ring[q]]->referenced && (exists|p: int|
            q < p < ring.len() && a.contains_key(#[trigger] ring[p]) && a[ring[p]] is Ready
                && !b.contains_key(ring[p])) ==> !b[ring[q]]->referenced,
{
    let p = choose|p: int| #[trigger] shard::to_go(ring, a, b, after, p);
    assert(shard::is_ready(a, ring[p]));
    assert(shard::is_ready(a, ring[q]));
    if !a[ring[q]]->referenced {
        assert(p <= q);
    }
    lemma_evicted(a, b, bytes);
    let k = choose|k: u64| #[trigger]
        a.contains_key(k) && !b.contains_key(k) && (forall|j: u64|
            j != k ==> (#[trigger] a.contains_key(j) <==> b.contains_key(j)));
    assert(ring[p] == k);
    assert forall|i: int|
        q < i < ring.len() && a.contains_key(#[trigger] ring[i]) && !b.contains_key(
            ring[i],
        ) implies i == p by {
        assert(ring[i] == k);
    }
}

} // verus!
