//! Subsets of cities as bit masks, and the invariants of the subset table.
use vstd::prelude::*;
use crate::city::{dist, City, DIST_BOUND};
use crate::tour::path_cost;

verus! {

/// Marks a table entry that no path has reached.
pub const NO_COST: u64 = 0xffff_ffff_ffff_ffff;

/// Marks the entry of the start state, which has no predecessor.
pub const NO_PARENT: usize = 0xffff_ffff;

/// City `i` belongs to the subset `m`.
pub open spec fn bit(m: u64, i: u64) -> bool {
    (m >> i) & 1u64 == 1u64
}

/// The subset of cities on the path `p`.
pub open spec fn mask_of(p: Seq<usize>) -> u64
    decreases p.len(),
{
    if p.len() == 0 {
        0
    } else {
        mask_of(p.drop_last()) | (1u64 << (p.last() as u64))
    }
}

/// A path from city 0 through distinct cities below `n`.
pub open spec fn is_dp_path(p: Seq<usize>, n: nat) -> bool {
    &&& p.len() >= 1
    &&& p[0] == 0
    &&& p.no_duplicates()
    &&& forall|i: int| 0 <= i < p.len() ==> (#[trigger] p[i] as nat) < n
}

/// Position of the state (`v`, `m`) in a table with `size` masks per city.
pub open spec fn cell(v: int, m: int, size: nat) -> int {
    v * size + m
}

/// The entry for (`v`, `m`), if reached, is the length of a path from city 0
/// through exactly `m` to `v`: either the start state, or a recorded
/// predecessor `u` whose own entry, for `m` without `v`, is reached and is
/// shorter by the edge from `u` to `v`. Predecessor subsets lie below `limit`.
pub open spec fn link_ok(
    c: Seq<City>,
    cost: Seq<u64>,
    parent: Seq<usize>,
    n: nat,
    size: nat,
    v: int,
    m: u64,
    limit: int,
) -> bool {
    let e = cost[cell(v, m as int, size)];
    e != NO_COST ==> {
        &&& bit(m, v as u64)
        &&& bit(m, 0)
        &&& e < m * DIST_BOUND
        &&& if m == 1 {
            v == 0 && e == 0 && parent[cell(v, m as int, size)] == NO_PARENT
        } else {
            let u = parent[cell(v, m as int, size)];
            let pm = m ^ (1u64 << (v as u64));
            &&& u < n
            &&& u != v
            &&& bit(pm, u as u64)
            &&& pm < m
            &&& pm < limit
            &&& cost[cell(u as int, pm as int, size)] != NO_COST
            &&& e == cost[cell(u as int, pm as int, size)] + dist(c[u as int], c[v])
        }
    }
}

pub open spec fn table_links(
    c: Seq<City>,
    cost: Seq<u64>,
    parent: Seq<usize>,
    n: nat,
    size: nat,
    limit: int,
) -> bool {
    forall|v: int, m: u64| 0 <= v < n && m < size ==> #[trigger] link_ok(c, cost, parent, n, size, v, m, limit)
}

/// The path `p` was handled before the step that extends paths ending at `u`
/// over subset `cur` by city `v`.
pub open spec fn settled(p: Seq<usize>, cur: u64, u: int, v: int) -> bool {
    let pm = mask_of(p.drop_last());
    pm < cur || (pm == cur && (p[p.len() - 2] < u || (p[p.len() - 2] == u && p.last() < v)))
}

/// The table entry for the end and the subset of `p` is no longer than `p`.
pub open spec fn dp_bound(c: Seq<City>, cost: Seq<u64>, size: nat, p: Seq<usize>) -> bool {
    cost[cell(p.last() as int, mask_of(p) as int, size)] <= path_cost(c, p)
}

pub open spec fn table_bounds(
    c: Seq<City>,
    cost: Seq<u64>,
    n: nat,
    size: nat,
    cur: u64,
    u: int,
    v: int,
) -> bool {
    forall|p: Seq<usize>|
        is_dp_path(p, n) && p.len() >= 2 && settled(p, cur, u, v) ==> #[trigger] dp_bound(c, cost, size, p)
}

pub proof fn lemma_bit_or(m: u64, v: u64, i: u64)
    by (bit_vector)
    requires
        v < 64,
        i < 64,
    ensures
        bit(m | (1u64 << v), i) == (bit(m, i) || i == v),
{
}

pub proof fn lemma_or_new(m: u64, v: u64)
    by (bit_vector)
    requires
        v < 64,
        !bit(m, v),
    ensures
        m < (m | (1u64 << v)),
        (m | (1u64 << v)) ^ (1u64 << v) == m,
{
}

pub proof fn lemma_xor_clear(m: u64, v: u64, i: u64)
    by (bit_vector)
    requires
        v < 64,
        i < 64,
        bit(m, v),
    ensures
        (m ^ (1u64 << v)) < m,
        bit(m ^ (1u64 << v), i) == (bit(m, i) && i != v),
{
}

pub proof fn lemma_or_bound(m: u64, v: u64, n: u64)
    by (bit_vector)
    requires
        n <= 20,
        v < n,
        m < (1u64 << n),
    ensures
        (m | (1u64 << v)) < (1u64 << n),
{
}

pub proof fn lemma_size(n: u64)
    by (bit_vector)
    requires
        n <= 20,
    ensures
        1 <= (1u64 << n) <= 0x10_0000,
        n >= 1 ==> (1u64 << n) >= 2,
{
}

pub proof fn lemma_full_bits(n: u64, i: u64)
    by (bit_vector)
    requires
        n <= 20,
        i < 64,
    ensures
        bit(((1u64 << n) - 1u64) as u64, i) == (i < n),
        ((1u64 << n) - 1u64) < (1u64 << n),
{
}

pub proof fn lemma_small_masks(i: u64)
    by (bit_vector)
    requires
        i < 64,
    ensures
        bit(1u64, i) == (i == 0),
        !bit(0u64, i),
        (0u64 | (1u64 << 0u64)) == 1u64,
{
}

proof fn lemma_shift_down(a: u64, b: u64, k: u64, i: u64)
    by (bit_vector)
    requires
        1 <= k <= 20,
        i < 63,
        a < (1u64 << k),
    ensures
        (a >> 1u64) < (1u64 << ((k - 1) as u64)),
        bit(a >> 1u64, i) == bit(a, (i + 1) as u64),
        (a >> 1u64 == b >> 1u64 && bit(a, 0) == bit(b, 0)) ==> a == b,
{
}

proof fn lemma_zero_below_one(a: u64)
    by (bit_vector)
    requires
        a < (1u64 << 0u64),
    ensures
        a == 0,
{
}

/// Two masks below `2^k` with the same cities below `k` are equal.
pub proof fn lemma_bits_eq(a: u64, b: u64, k: u64)
    requires
        k <= 20,
        a < (1u64 << k),
        b < (1u64 << k),
        forall|i: u64| i < k ==> #[trigger] bit(a, i) == bit(b, i),
    ensures
        a == b,
    decreases k,
{
    if k == 0 {
        lemma_zero_below_one(a);
        lemma_zero_below_one(b);
    } else {
        lemma_shift_down(a, b, k, 0);
        lemma_shift_down(b, a, k, 0);
        assert forall|i: u64| i < (k - 1) as u64 implies #[trigger] bit(a >> 1u64, i) == bit(b >> 1u64, i) by {
            lemma_shift_down(a, b, k, i);
            lemma_shift_down(b, a, k, i);
            assert(bit(a, (i + 1) as u64) == bit(b, (i + 1) as u64));
        }
        lemma_bits_eq(a >> 1u64, b >> 1u64, (k - 1) as u64);
        assert(bit(a, 0) == bit(b, 0));
    }
}

/// The mask of a path holds exactly the path's cities.
pub proof fn lemma_mask_bits(p: Seq<usize>, i: u64)
    requires
        forall|k: int| 0 <= k < p.len() ==> (#[trigger] p[k]) < 64,
        i < 64,
    ensures
        bit(mask_of(p), i) == p.contains(i as usize),
    decreases p.len(),
{
    if p.len() == 0 {
        lemma_small_masks(i);
    } else {
        let q = p.drop_last();
        lemma_mask_bits(q, i);
        lemma_bit_or(mask_of(q), p.last() as u64, i);
        if p.contains(i as usize) {
            let k = choose|k: int| 0 <= k < p.len() && p[k] == i as usize;
            if k < p.len() - 1 {
                assert(q[k] == i as usize);
            }
        }
        if q.contains(i as usize) {
            let k = choose|k: int| 0 <= k < q.len() && q[k] == i as usize;
            assert(p[k] == i as usize);
        }
    }
}

/// The mask of a path through cities below `n` lies below `2^n`.
pub proof fn lemma_mask_bound(p: Seq<usize>, n: u64)
    requires
        n <= 20,
        forall|k: int| 0 <= k < p.len() ==> (#[trigger] p[k] as nat) < n,
    ensures
        mask_of(p) < (1u64 << n),
    decreases p.len(),
{
    if p.len() == 0 {
        lemma_size(n);
    } else {
        lemma_mask_bound(p.drop_last(), n);
        lemma_or_bound(mask_of(p.drop_last()), p.last() as u64, n);
    }
}

} // verus!
