use vstd::prelude::*;
use crate::brute_force::{copy_path, identity_path};
use crate::bitmask::{
    bit, cell, dp_bound, is_dp_path, lemma_bit_or, lemma_bits_eq, lemma_full_bits, lemma_mask_bits,
    lemma_mask_bound, lemma_or_bound, lemma_or_new, lemma_size, lemma_small_masks, lemma_xor_clear,
    link_ok, mask_of, settled, table_bounds, table_links, NO_COST, NO_PARENT,
};
use crate::city::{dist, lemma_dist_bound, lemma_dist_symmetric, City, DIST_BOUND};
use crate::tour::{
    agrees, bounds_completions, city_range, holds_tour, is_anchored_lower_bound, is_optimal_tour,
    is_tour, lemma_agrees_full, lemma_agrees_swapped, lemma_anchored_bound, lemma_len_le_of_subset, lemma_next_position,
    lemma_path_cost_prefix,
    lemma_path_cost_bound, lemma_path_cost_cons, lemma_path_cost_push, lemma_range_is_tour,
    lemma_small_tour, lemma_swapped_tour, lemma_tour_contains, lemma_tour_cost_fits,
    lemma_tour_from_cover, path_cost, swapped, tour_cost, NO_TOUR,
};

verus! {

/// Largest instance that the subset table is built for.
pub const BITMASK_MAX_CITIES: usize = 20;

/// Search over a precomputed table of pairwise distances: branch and bound,
/// or dynamic programming over subsets for small instances.
pub struct OptimizedTSPSolver {
    pub cities: Vec<City>,
    pub distance_matrix: Vec<Vec<u64>>,
    pub best_path: Vec<usize>,
    pub best_distance: u128,
}

impl OptimizedTSPSolver {
    /// The distance table matches the cities.
    pub open spec fn wf(&self) -> bool {
        &&& self.distance_matrix.len() == self.cities.len()
        &&& forall|i: int| 0 <= i < self.cities.len() ==> (#[trigger] self.distance_matrix[i]).len() == self.cities.len()
        &&& forall|i: int, j: int|
            0 <= i < self.cities.len() && 0 <= j < self.cities.len() ==> #[trigger] self.distance_matrix[i][j]
                == dist(self.cities[i], self.cities[j])
    }

    /// Builds the distance table, computing each pair once and mirroring it.
    pub fn new(cities: Vec<City>) -> (r: Self)
        ensures
            r.wf(),
            r.cities@ == cities@,
            r.best_path@ == city_range(cities.len() as nat),
            r.best_distance == NO_TOUR,
    {
        let n = cities.len();
        let mut m: Vec<Vec<u64>> = Vec::new();
        let mut i: usize = 0;
        while i < n
            invariant
                i <= n,
                n == cities.len(),
                m.len() == i,
                forall|a: int| 0 <= a < i ==> (#[trigger] m[a]).len() == n,
                forall|a: int, b: int| 0 <= a < i && 0 <= b < n ==> #[trigger] m[a][b] == dist(cities[a], cities[b]),
            decreases n - i,
        {
            let mut row: Vec<u64> = Vec::new();
            let mut j: usize = 0;
            while j < n
                invariant
                    i < n,
                    j <= n,
                    n == cities.len(),
                    m.len() == i,
                    forall|a: int| 0 <= a < i ==> (#[trigger] m[a]).len() == n,
                    forall|a: int, b: int| 0 <= a < i && 0 <= b < n ==> #[trigger] m[a][b] == dist(cities[a], cities[b]),
                    row.len() == j,
                    forall|b: int| 0 <= b < j ==> #[trigger] row[b] == dist(cities[i as int], cities[b]),
                decreases n - j,
            {
                proof {
                    lemma_dist_symmetric(cities[i as int], cities[j as int]);
                }
                let d: u64 = if j < i {
                    m[j][i]
                } else if j == i {
                    0
                } else {
                    cities[i].distance_to(&cities[j])
                };
                row.push(d);
                j = j + 1;
            }
            m.push(row);
            i = i + 1;
        }
        let best_path = identity_path(n);
        OptimizedTSPSolver { cities, distance_matrix: m, best_path, best_distance: NO_TOUR }
    }

    /// Length of the closed tour through `path`, read from the distance table.
    pub fn calculate_total_distance(&self, path: &Vec<usize>) -> (r: u128)
        requires
            self.wf(),
            forall|i: int| 0 <= i < path.len() ==> (#[trigger] path[i] as int) < self.cities.len(),
        ensures
            r == tour_cost(self.cities@, path@),
    {
        let n = path.len();
        if n == 0 {
            return 0;
        }
        let ghost c = self.cities@;
        proof {
            lemma_tour_cost_fits(c, path@);
        }
        let mut total: u128 = 0;
        let mut i: usize = 1;
        assert(path_cost(c, path@.take(1)) == 0);
        while i < n
            invariant
                1 <= i <= n,
                n == path.len(),
                self.wf(),
                c == self.cities@,
                forall|i: int| 0 <= i < path.len() ==> (#[trigger] path[i] as int) < self.cities.len(),
                total == path_cost(c, path@.take(i as int)),
                path_cost(c, path@) < NO_TOUR,
            decreases n - i,
        {
            let d = self.distance_matrix[path[i - 1]][path[i]];
            proof {
                lemma_path_cost_push(c, path@.take(i as int), path[i as int]);
                assert(path@.take(i as int).push(path[i as int]) =~= path@.take(i + 1));
                lemma_path_cost_prefix(c, path@, i + 1);
            }
            total = total + d as u128;
            i = i + 1;
        }
        assert(path@.take(n as int) =~= path@);
        let d = self.distance_matrix[path[n - 1]][path[0]];
        total + d as u128
    }

    /// Tries every order of `path[l..]` behind `path[..l]`, whose open length is
    /// `current_dist`, and gives up on a branch as soon as its open length
    /// reaches the best tour so far: the rest of the tour can only add to it.
    /// A branch that only ties the best length is dropped too; it may hold
    /// another shortest tour, but one shortest tour is all that is reported.
    pub fn permute_with_bound(&mut self, path: &mut Vec<usize>, l: usize, current_dist: u128)
        requires
            old(self).wf(),
            is_tour(old(path)@, old(self).cities.len() as nat),
            1 <= l <= old(path).len(),
            old(path)[0] == 0,
            current_dist == path_cost(old(self).cities@, old(path)@.take(l as int)),
            holds_tour(old(self).cities@, old(self).best_path@, old(self).best_distance),
        ensures
            final(path)@ == old(path)@,
            final(self).wf(),
            final(self).cities@ == old(self).cities@,
            holds_tour(final(self).cities@, final(self).best_path@, final(self).best_distance),
            final(self).best_distance <= old(self).best_distance,
            bounds_completions(final(self).cities@, old(path)@, l as int, final(self).best_distance as int),
            final(self).best_distance == old(self).best_distance ==> final(self).best_path@ == old(self).best_path@,
            final(self).best_distance < old(self).best_distance ==> agrees(final(self).best_path@, old(path)@, l as int),
        decreases old(path)@.len() - l,
    {
        let ghost c = self.cities@;
        let ghost n1 = self.cities.len() as nat;
        let ghost orig = path@;
        let n = path.len();
        if current_dist >= self.best_distance {
            proof {
                assert forall|t: Seq<usize>| is_tour(t, n1) && agrees(t, orig, l as int) implies
                    self.best_distance <= #[trigger] tour_cost(c, t) by {
                    assert(t.take(l as int) =~= orig.take(l as int));
                    lemma_path_cost_prefix(c, t, l as int);
                }
            }
            return;
        }
        if l == n {
            let d = self.distance_matrix[path[n - 1]][path[0]];
            proof {
                assert(orig.take(n as int) =~= orig);
                lemma_tour_cost_fits(c, orig);
            }
            let total: u128 = current_dist + d as u128;
            if total < self.best_distance {
                self.best_distance = total;
                self.best_path = copy_path(path);
                assert(agrees(self.best_path@, orig, l as int));
            }
            proof {
                assert forall|t: Seq<usize>| is_tour(t, n1) && agrees(t, orig, l as int) implies
                    self.best_distance <= #[trigger] tour_cost(c, t) by {
                    lemma_agrees_full(t, orig, n1);
                }
            }
            return;
        }
        let mut i: usize = l;
        while i < n
            invariant
                l <= i <= n,
                l < n,
                1 <= l,
                n == path.len(),
                path@ == orig,
                orig == old(path)@,
                orig[0] == 0,
                is_tour(orig, n1),
                n1 == c.len(),
                self.cities@ == c,
                self.wf(),
                current_dist == path_cost(c, orig.take(l as int)),
                holds_tour(c, self.best_path@, self.best_distance),
                self.best_distance <= old(self).best_distance,
                self.best_distance == old(self).best_distance ==> self.best_path@ == old(self).best_path@,
                self.best_distance < old(self).best_distance ==> agrees(self.best_path@, orig, l as int),
                forall|t: Seq<usize>|
                    is_tour(t, n1) && agrees(t, orig, l as int) && (exists|j: int|
                        l <= j < i && orig[j] == t[l as int]) ==> self.best_distance
                        <= #[trigger] tour_cost(c, t),
            decreases n - i,
        {
            let ghost before = self.best_distance;
            let ghost before_path = self.best_path@;
            let a = path[l];
            let b = path[i];
            path.set(l, b);
            path.set(i, a);
            let ghost g = path@;
            proof {
                assert(g =~= swapped(orig, l as int, i as int));
                lemma_swapped_tour(orig, l as int, i as int, n1);
                assert(g.take(l as int) =~= orig.take(l as int));
                lemma_path_cost_push(c, g.take(l as int), g[l as int]);
                assert(g.take(l as int).push(g[l as int]) =~= g.take(l + 1));
                lemma_path_cost_prefix(c, g, l + 1);
                lemma_tour_cost_fits(c, g);
            }
            let new_dist: u128 = current_dist + self.distance_matrix[path[l - 1]][path[l]] as u128;
            self.permute_with_bound(path, l + 1, new_dist);
            proof {
                if self.best_distance < before {
                    lemma_agrees_swapped(self.best_path@, orig, l as int, i as int);
                }
            }
            let a2 = path[l];
            let b2 = path[i];
            path.set(l, b2);
            path.set(i, a2);
            proof {
                assert(path@ =~= orig);
                assert forall|t: Seq<usize>|
                    is_tour(t, n1) && agrees(t, orig, l as int) && (exists|j: int|
                        l <= j < i + 1 && orig[j] == t[l as int]) implies self.best_distance
                        <= #[trigger] tour_cost(c, t) by {
                    if t[l as int] == orig[i as int] {
                        assert(agrees(t, g, l + 1));
                    } else {
                        let j = choose|j: int| l <= j < i + 1 && orig[j] == t[l as int];
                        assert(l <= j < i && orig[j] == t[l as int]);
                    }
                }
            }
            i = i + 1;
        }
        proof {
            assert forall|t: Seq<usize>| is_tour(t, n1) && agrees(t, orig, l as int) implies
                self.best_distance <= #[trigger] tour_cost(c, t) by {
                let j = lemma_next_position(t, orig, l as int, n1);
                assert(orig[j] == t[l as int]);
            }
        }
    }

    /// Finds a shortest tour by branch and bound over the orders of `1..n`.
    pub fn solve_branch_and_bound(&mut self)
        requires
            old(self).wf(),
        ensures
            final(self).wf(),
            final(self).cities@ == old(self).cities@,
            is_optimal_tour(final(self).cities@, final(self).best_path@, final(self).best_distance as int),
    {
        let n = self.cities.len();
        if n <= 1 {
            self.best_path = identity_path(n);
            self.best_distance = 0;
            proof {
                lemma_small_tour(self.cities@, self.best_path@);
            }
            return;
        }
        self.best_distance = NO_TOUR;
        let mut path = identity_path(n);
        let ghost f = path@;
        proof {
            lemma_range_is_tour(n as nat);
            assert(path_cost(self.cities@, f.take(1)) == 0);
        }
        self.permute_with_bound(&mut path, 1, 0);
        proof {
            let c = self.cities@;
            let d = self.best_distance;
            assert(is_anchored_lower_bound(c, d as int)) by {
                assert forall|u: Seq<usize>|
                    is_tour(u, c.len()) && (u.len() > 0 ==> u[0] == 0) implies d <= #[trigger] tour_cost(c, u) by {
                    assert(agrees(u, f, 1));
                }
            }
            assert(agrees(f, f, 1));
            assert(d <= tour_cost(c, f));
            lemma_tour_cost_fits(c, f);
            lemma_anchored_bound(c, d as int);
        }
    }
}

/// Distinct states have distinct table positions.
proof fn lemma_cell(v1: int, m1: int, v2: int, m2: int, n: nat, size: nat)
    requires
        0 <= v1 < n,
        0 <= v2 < n,
        0 <= m1 < size,
        0 <= m2 < size,
    ensures
        0 <= cell(v1, m1, size) < n * size,
        cell(v1, m1, size) == cell(v2, m2, size) ==> v1 == v2 && m1 == m2,
{
    assert(0 <= v1 * size + m1 < n * size) by (nonlinear_arith)
        requires 0 <= v1 < n, 0 <= m1 < size;
    if cell(v1, m1, size) == cell(v2, m2, size) {
        if v1 < v2 {
            assert(v1 * size + size <= v2 * size) by (nonlinear_arith) requires v1 < v2, size >= 0;
        } else if v2 < v1 {
            assert(v2 * size + size <= v1 * size) by (nonlinear_arith) requires v2 < v1, size >= 0;
        }
    }
}

/// A path through distinct cities below `n` has at most `n` cities.
proof fn lemma_dp_path_len(p: Seq<usize>, n: nat)
    requires
        is_dp_path(p, n),
        n <= usize::MAX + 1,
    ensures
        p.len() <= n,
{
    let r = city_range(n);
    assert forall|i: int| 0 <= i < p.len() implies r.contains(#[trigger] p[i]) by {
        assert(r[p[i] as int] == p[i]);
    }
    lemma_len_le_of_subset(p, r);
}

/// A path of two or more cities is its path without the last city, then one edge.
proof fn lemma_path_split(c: Seq<City>, p: Seq<usize>, n: nat)
    requires
        is_dp_path(p, n),
        p.len() >= 2,
        n <= 20,
    ensures
        is_dp_path(p.drop_last(), n),
        mask_of(p) == mask_of(p.drop_last()) | (1u64 << (p.last() as u64)),
        !bit(mask_of(p.drop_last()), p.last() as u64),
        p.last() != 0,
        path_cost(c, p) == path_cost(c, p.drop_last()) + dist(c[p[p.len() - 2] as int], c[p.last() as int]),
        p.drop_last().len() == 1 ==> mask_of(p.drop_last()) == 1 && p[p.len() - 2] == 0,
        p.drop_last().len() >= 2 ==> mask_of(p.drop_last().drop_last()) < mask_of(p.drop_last()),
{
    let q = p.drop_last();
    assert forall|k: int| 0 <= k < q.len() implies (#[trigger] q[k] as nat) < n by {
        assert(q[k] == p[k]);
    }
    assert(q.no_duplicates()) by {
        assert forall|i: int, j: int| 0 <= i < q.len() && 0 <= j < q.len() && i != j implies q[i] != q[j] by {
            assert(q[i] == p[i] && q[j] == p[j]);
        }
    }
    lemma_mask_bits(q, p.last() as u64);
    if q.contains(p.last()) {
        let k = choose|k: int| 0 <= k < q.len() && q[k] == p.last();
        assert(p[k] == p[p.len() - 1]);
    }
    assert(p[0] != p[p.len() - 1]);
    if q.len() == 1 {
        assert(q.drop_last().len() == 0);
        lemma_small_masks(0);
        assert(q.last() == 0);
    }
    if q.len() >= 2 {
        let r = q.drop_last();
        assert forall|k: int| 0 <= k < r.len() implies (#[trigger] r[k]) < 64 by {
            assert(r[k] == q[k]);
        }
        lemma_mask_bits(r, q.last() as u64);
        if r.contains(q.last()) {
            let k = choose|k: int| 0 <= k < r.len() && r[k] == q.last();
            assert(q[k] == q[q.len() - 1]);
        }
        lemma_or_new(mask_of(r), q.last() as u64);
    }
}

impl OptimizedTSPSolver {
    /// Extends the best path that ends at `u` and covers `mask` by each city
    /// outside `mask`, keeping the shorter value at each new state.
    fn relax_from(&self, cost: &mut Vec<u64>, parent: &mut Vec<usize>, size: usize, mask: u64, u: usize)
        requires
            self.wf(),
            2 <= self.cities.len() <= BITMASK_MAX_CITIES,
            size as nat == (1u64 << (self.cities.len() as u64)),
            old(cost).len() == self.cities.len() * size,
            old(parent).len() == self.cities.len() * size,
            1 <= mask < size,
            u < self.cities.len(),
            bit(mask, u as u64),
            old(cost)[cell(u as int, mask as int, size as nat)] != NO_COST,
            old(cost)[cell(0, 1, size as nat)] == 0,
            table_links(self.cities@, old(cost)@, old(parent)@, self.cities.len() as nat, size as nat, mask + 1),
            table_bounds(self.cities@, old(cost)@, self.cities.len() as nat, size as nat, mask, u as int, 0),
        ensures
            final(cost).len() == old(cost).len(),
            final(parent).len() == old(parent).len(),
            final(cost)[cell(0, 1, size as nat)] == 0,
            table_links(self.cities@, final(cost)@, final(parent)@, self.cities.len() as nat, size as nat, mask + 1),
            table_bounds(
                self.cities@,
                final(cost)@,
                self.cities.len() as nat,
                size as nat,
                mask,
                u as int,
                self.cities.len() as int,
            ),
    {
        let ghost c = self.cities@;
        let n = self.cities.len();
        let ghost sz = size as nat;
        let ghost nn = n as nat;
        proof {
            lemma_cell(u as int, mask as int, 0, 0, nn, sz);
            lemma_cell(0, 1, 0, 0, nn, sz);
            assert(link_ok(c, cost@, parent@, nn, sz, u as int, mask, mask + 1));
            lemma_size(n as u64);
        }
        let base = cost[u * size + mask as usize];
        let mut v: usize = 0;
        while v < n
            invariant
                v <= n,
                n == self.cities.len(),
                nn == n,
                c == self.cities@,
                self.wf(),
                2 <= n <= BITMASK_MAX_CITIES,
                sz == size,
                size as nat == (1u64 << (n as u64)),
                size <= 0x10_0000,
                cost.len() == n * size,
                parent.len() == n * size,
                cost.len() == old(cost).len(),
                parent.len() == old(parent).len(),
                1 <= mask < size,
                u < n,
                bit(mask, u as u64),
                bit(mask, 0),
                base == cost[cell(u as int, mask as int, sz)],
                base != NO_COST,
                base < mask * DIST_BOUND,
                cost[cell(0, 1, sz)] == 0,
                table_links(c, cost@, parent@, nn, sz, mask + 1),
                table_bounds(c, cost@, nn, sz, mask, u as int, v as int),
            decreases n - v,
        {
            let ghost old_cost = cost@;
            let ghost old_parent = parent@;
            if (mask >> (v as u64)) & 1 != 1 {
                let nm: u64 = mask | (1u64 << (v as u64));
                proof {
                    lemma_or_new(mask, v as u64);
                    lemma_or_bound(mask, v as u64, n as u64);
                    lemma_bit_or(mask, v as u64, v as u64);
                    lemma_bit_or(mask, v as u64, 0);
                    lemma_bit_or(mask, v as u64, u as u64);
                    lemma_small_masks(v as u64);
                    lemma_cell(v as int, nm as int, u as int, mask as int, nn, sz);
                    lemma_cell(v as int, nm as int, 0, 1, nn, sz);
                    lemma_dist_bound(c[u as int], c[v as int]);
                    assert(mask * DIST_BOUND + DIST_BOUND <= nm * DIST_BOUND) by (nonlinear_arith)
                        requires mask < nm;
                }
                let idx: usize = v * size + nm as usize;
                assert(idx == cell(v as int, nm as int, sz));
                proof {
                    lemma_cell(u as int, mask as int, 0, 0, nn, sz);
                    lemma_cell(0, 1, 0, 0, nn, sz);
                }
                let nd: u64 = base + self.distance_matrix[u][v];
                assert(nd == base + dist(c[u as int], c[v as int]));
                if nd < cost[idx] {
                    cost.set(idx, nd);
                    parent.set(idx, u);
                    proof {
                        assert forall|v2: int, m2: u64| 0 <= v2 < nn && m2 < sz implies #[trigger] link_ok(
                            c, cost@, parent@, nn, sz, v2, m2, mask + 1) by {
                            lemma_cell(v2, m2 as int, v as int, nm as int, nn, sz);
                            if cell(v2, m2 as int, sz) == idx {
                                assert(v2 == v && m2 == nm);
                                assert(nm != 1);
                                assert(nm ^ (1u64 << (v as u64)) == mask);
                                assert(cost@[cell(u as int, mask as int, sz)] == base);
                                assert(parent@[idx as int] == u);
                                assert(cost@[idx as int] == nd);
                                assert(u != v);
                            } else {
                                assert(link_ok(c, old_cost, old_parent, nn, sz, v2, m2, mask + 1));
                                if old_cost[cell(v2, m2 as int, sz)] != NO_COST && m2 != 1 {
                                    let u2 = old_parent[cell(v2, m2 as int, sz)];
                                    let pm2 = m2 ^ (1u64 << (v2 as u64));
                                    lemma_cell(u2 as int, pm2 as int, v as int, nm as int, nn, sz);
                                }
                            }
                        }
                    }
                }
                proof {
                    assert forall|p: Seq<usize>|
                        is_dp_path(p, nn) && p.len() >= 2 && settled(p, mask, u as int, v + 1) implies
                        #[trigger] dp_bound(c, cost@, sz, p) by {
                        lemma_path_split(c, p, nn);
                        let q = p.drop_last();
                        lemma_mask_bound(p, n as u64);
                        lemma_cell(p.last() as int, mask_of(p) as int, v as int, nm as int, nn, sz);
                        if settled(p, mask, u as int, v as int) {
                            assert(dp_bound(c, old_cost, sz, p));
                        } else {
                            assert(q.last() == u && p.last() == v && mask_of(q) == mask);
                            if q.len() >= 2 {
                                assert(settled(q, mask, u as int, v as int));
                                assert(dp_bound(c, old_cost, sz, q));
                            }
                        }
                    }
                }
            } else {
                proof {
                    assert forall|p: Seq<usize>|
                        is_dp_path(p, nn) && p.len() >= 2 && settled(p, mask, u as int, v + 1) implies
                        #[trigger] dp_bound(c, cost@, sz, p) by {
                        lemma_path_split(c, p, nn);
                        if !settled(p, mask, u as int, v as int) {
                            assert(p.last() == v && mask_of(p.drop_last()) == mask);
                        }
                    }
                }
            }
            v = v + 1;
        }
    }

    /// Follows the recorded predecessors back from (`current`, `mask`) to city 0
    /// and keeps the path so found, from city 0 to `current`, as the best path.
    fn reconstruct_path(&mut self, cost: &Vec<u64>, parent: &Vec<usize>, size: usize, mask: u64, current: usize)
        requires
            old(self).wf(),
            2 <= old(self).cities.len() <= BITMASK_MAX_CITIES,
            size as nat == (1u64 << (old(self).cities.len() as u64)),
            cost.len() == old(self).cities.len() * size,
            parent.len() == old(self).cities.len() * size,
            mask < size,
            current < old(self).cities.len(),
            cost[cell(current as int, mask as int, size as nat)] != NO_COST,
            table_links(old(self).cities@, cost@, parent@, old(self).cities.len() as nat, size as nat, size as int),
        ensures
            final(self).wf(),
            final(self).cities@ == old(self).cities@,
            final(self).best_distance == old(self).best_distance,
            is_dp_path(final(self).best_path@, old(self).cities.len() as nat),
            final(self).best_path@.last() == current,
            path_cost(final(self).cities@, final(self).best_path@) == cost[cell(current as int, mask as int, size as nat)],
            forall|i: u64| i < old(self).cities.len() ==> (#[trigger] bit(mask, i)) == final(self).best_path@.contains(i as usize),
            forall|k: int|
                1 <= k < final(self).best_path@.len() ==> parent[cell(
                    #[trigger] final(self).best_path@[k] as int,
                    mask_of(final(self).best_path@.take(k + 1)) as int,
                    size as nat,
                )] == final(self).best_path@[k - 1],
    {
        let ghost c = self.cities@;
        let n = self.cities.len();
        let ghost nn = n as nat;
        let ghost sz = size as nat;
        let ghost target = cost[cell(current as int, mask as int, sz)];
        let mut rev: Vec<usize> = Vec::new();
        let mut m: u64 = mask;
        let mut cur: usize = current;
        let ghost mut ms: Seq<u64> = Seq::empty();
        proof {
            lemma_size(n as u64);
            lemma_cell(cur as int, m as int, 0, 0, nn, sz);
            assert(link_ok(c, cost@, parent@, nn, sz, cur as int, m, sz as int));
            let w = seq![cur] + rev@.reverse();
            assert(w =~= seq![cur]);
            assert forall|i: u64| i < n && bit(m, i) && w.contains(i as usize) implies i == cur by {
                assert(w[0] == i as usize);
            }
        }
        while parent[cur * size + m as usize] != NO_PARENT
            invariant
                n == self.cities.len(),
                nn == n,
                sz == size,
                c == self.cities@,
                2 <= n <= BITMASK_MAX_CITIES,
                size as nat == (1u64 << (n as u64)),
                size <= 0x10_0000,
                cost.len() == n * size,
                parent.len() == n * size,
                table_links(c, cost@, parent@, nn, sz, sz as int),
                cur < n,
                m < size,
                0 <= cell(cur as int, m as int, sz) < n * size,
                cost[cell(cur as int, m as int, sz)] != NO_COST,
                ms.len() == rev.len(),
                forall|j: int| 0 <= j < ms.len() ==> #[trigger] ms[j] < size,
                forall|j: int|
                    0 <= j < ms.len() ==> parent[cell(#[trigger] rev[j] as int, ms[j] as int, sz)] == (if j + 1
                        < rev.len() { rev[j + 1] } else { cur }),
                forall|j: int, i: u64|
                    0 <= j < ms.len() && i < n ==> #[trigger] bit(ms[j], i) == (bit(m, i) || rev@.subrange(
                        j,
                        rev.len() as int,
                    ).contains(i as usize)),
                target == cost[cell(current as int, mask as int, sz)],
                ({
                    let w = seq![cur] + rev@.reverse();
                    &&& w.last() == current
                    &&& path_cost(c, w) + cost[cell(cur as int, m as int, sz)] == target
                    &&& w.no_duplicates()
                    &&& forall|k: int| 0 <= k < w.len() ==> (#[trigger] w[k] as nat) < n
                    &&& forall|i: u64| i < n ==> (#[trigger] bit(mask, i)) == (bit(m, i) || w.contains(i as usize))
                    &&& forall|i: u64| i < n && #[trigger] bit(m, i) && w.contains(i as usize) ==> i == cur
                }),
            decreases m,
        {
            let ghost w = seq![cur] + rev@.reverse();
            let u = parent[cur * size + m as usize];
            let ghost pm = m ^ (1u64 << (cur as u64));
            proof {
                assert(link_ok(c, cost@, parent@, nn, sz, cur as int, m, sz as int));
                assert(m != 1);
                lemma_xor_clear(m, cur as u64, u as u64);
                lemma_cell(u as int, pm as int, 0, 0, nn, sz);
            }
            let ghost old_m = m;
            let ghost old_cur = cur;
            let ghost old_rev = rev@;
            let ghost old_ms = ms;
            rev.push(cur);
            proof {
                ms = ms.push(m);
            }
            m = m ^ (1u64 << (cur as u64));
            cur = u;
            proof {
                assert forall|j: int| 0 <= j < ms.len() implies #[trigger] ms[j] < size by {
                    if j < old_ms.len() {
                        assert(ms[j] == old_ms[j]);
                    }
                }
                assert forall|j: int|
                    0 <= j < ms.len() implies parent[cell(#[trigger] rev[j] as int, ms[j] as int, sz)] == (if j + 1
                        < rev.len() { rev[j + 1] } else { cur }) by {
                    if j < old_ms.len() {
                        assert(ms[j] == old_ms[j] && rev[j] == old_rev[j]);
                    }
                }
                assert forall|j: int, i: u64|
                    0 <= j < ms.len() && i < n implies #[trigger] bit(ms[j], i) == (bit(m, i) || rev@.subrange(
                        j,
                        rev.len() as int,
                    ).contains(i as usize)) by {
                    lemma_xor_clear(old_m, old_cur as u64, i);
                    let tail = rev@.subrange(j, rev.len() as int);
                    if j < old_ms.len() {
                        let old_tail = old_rev.subrange(j, old_rev.len() as int);
                        assert(ms[j] == old_ms[j]);
                        assert(tail =~= old_tail.push(old_cur));
                        assert(bit(old_ms[j], i) == (bit(old_m, i) || old_tail.contains(i as usize)));
                        if old_tail.contains(i as usize) {
                            let q = choose|q: int| 0 <= q < old_tail.len() && old_tail[q] == i as usize;
                            assert(tail[q] == i as usize);
                        }
                        if tail.contains(i as usize) && i as usize != old_cur {
                            let q = choose|q: int| 0 <= q < tail.len() && tail[q] == i as usize;
                            assert(old_tail[q] == i as usize);
                        }
                        if i as usize == old_cur {
                            assert(tail[tail.len() - 1] == i as usize);
                        }
                    } else {
                        assert(tail =~= seq![old_cur]);
                        assert(ms[j] == old_m);
                        if i as usize == old_cur {
                            assert(tail[0] == i as usize);
                        }
                    }
                }
                let w2 = seq![cur] + rev@.reverse();
                assert(w2 =~= seq![u] + w);
                lemma_path_cost_cons(c, u, w);
                assert(w[0] == old_cur);
                assert(w2.last() == w.last());
                assert forall|i: u64| i < n implies (#[trigger] bit(mask, i)) == (bit(m, i) || w2.contains(i as usize)) by {
                    lemma_xor_clear(old_m, old_cur as u64, i);
                    if w.contains(i as usize) {
                        let k = choose|k: int| 0 <= k < w.len() && w[k] == i as usize;
                        assert(w2[k + 1] == i as usize);
                    }
                    if w2.contains(i as usize) && i as usize != u {
                        let k = choose|k: int| 0 <= k < w2.len() && w2[k] == i as usize;
                        assert(w[k - 1] == i as usize);
                    }
                    if i == old_cur {
                        assert(w.contains(old_cur));
                    }
                    if i as usize == u {
                        assert(w2[0] == u);
                    }
                }
                assert forall|i: u64| i < n && #[trigger] bit(m, i) && w2.contains(i as usize) implies i == cur by {
                    lemma_xor_clear(old_m, old_cur as u64, i);
                    if i as usize != u {
                        let k = choose|k: int| 0 <= k < w2.len() && w2[k] == i as usize;
                        assert(w[k - 1] == i as usize);
                    }
                }
                if w.contains(u) {
                    assert(bit(old_m, u as u64));
                }
                assert(!w.contains(u));
                assert forall|a: int, b: int| 0 <= a < w2.len() && 0 <= b < w2.len() && a != b implies w2[a] != w2[b] by {
                    if a == 0 {
                        assert(w.contains(w2[b]));
                    } else if b == 0 {
                        assert(w.contains(w2[a]));
                    } else {
                        assert(w2[a] == w[a - 1] && w2[b] == w[b - 1]);
                    }
                }
                assert forall|k: int| 0 <= k < w2.len() implies (#[trigger] w2[k] as nat) < n by {
                    if k > 0 {
                        assert(w2[k] == w[k - 1]);
                    }
                }
            }
        }
        let ghost w = seq![cur] + rev@.reverse();
        proof {
            assert(link_ok(c, cost@, parent@, nn, sz, cur as int, m, sz as int));
            assert(m == 1);
            assert(cur == 0);
            assert forall|i: u64| i < n implies (#[trigger] bit(mask, i)) == w.contains(i as usize) by {
                lemma_small_masks(i);
                if i == 0 {
                    assert(w[0] == 0);
                }
            }
        }
        let mut path: Vec<usize> = Vec::new();
        path.push(cur);
        let mut k: usize = rev.len();
        while k > 0
            invariant
                k <= rev.len(),
                path@ == seq![cur] + rev@.reverse().take(rev.len() - k),
            decreases k,
        {
            k = k - 1;
            path.push(rev[k]);
            assert(path@ =~= seq![cur] + rev@.reverse().take(rev.len() - k));
        }
        assert(rev@.reverse().take(rev.len() as int) =~= rev@.reverse());
        proof {
            let p = path@;
            let len = rev.len() as int;
            assert forall|k: int| 1 <= k < p.len() implies parent[cell(
                #[trigger] p[k] as int,
                mask_of(p.take(k + 1)) as int,
                sz,
            )] == p[k - 1] by {
                let j = len - k;
                assert(p[k] == rev[j]);
                if k >= 2 {
                    assert(p[k - 1] == rev[j + 1]);
                } else {
                    assert(p[0] == cur);
                }
                let pre = p.take(k + 1);
                let tail = rev@.subrange(j, len);
                assert forall|q: int| 0 <= q < pre.len() implies (#[trigger] pre[q] as nat) < n by {
                    assert(pre[q] == w[q]);
                }
                assert forall|i: u64| i < n as u64 implies #[trigger] bit(mask_of(pre), i) == bit(ms[j], i) by {
                    lemma_mask_bits(pre, i);
                    lemma_small_masks(i);
                    assert(bit(ms[j], i) == (bit(m, i) || tail.contains(i as usize)));
                    if pre.contains(i as usize) && i != 0 {
                        let q = choose|q: int| 0 <= q < pre.len() && pre[q] == i as usize;
                        assert(q >= 1);
                        assert(tail[len - q - j] == i as usize);
                    }
                    if tail.contains(i as usize) {
                        let q = choose|q: int| 0 <= q < tail.len() && tail[q] == i as usize;
                        assert(pre[len - j - q] == i as usize);
                    }
                    if i == 0 {
                        assert(pre[0] == 0);
                    }
                }
                lemma_mask_bound(pre, n as u64);
                lemma_bits_eq(mask_of(pre), ms[j], n as u64);
            }
        }
        self.best_path = path;
    }

    /// Finds a shortest tour by dynamic programming over subsets of cities.
    /// The tables hold `n * 2^n` entries each, so they are only built for up to
    /// `BITMASK_MAX_CITIES` cities; larger instances go to branch and bound.
    /// The reported length is the length of the reported tour, as the
    /// distance table gives it.
    pub fn solve_with_bitmask(&mut self)
        requires
            old(self).wf(),
        ensures
            final(self).wf(),
            final(self).cities@ == old(self).cities@,
            is_optimal_tour(final(self).cities@, final(self).best_path@, final(self).best_distance as int),
            final(self).best_distance == tour_cost(final(self).cities@, final(self).best_path@),
    {
        let n = self.cities.len();
        if n > BITMASK_MAX_CITIES {
            self.solve_branch_and_bound();
            return;
        }
        if n <= 1 {
            self.best_path = identity_path(n);
            self.best_distance = 0;
            proof {
                lemma_small_tour(self.cities@, self.best_path@);
            }
            return;
        }
        let ghost c = self.cities@;
        let ghost nn = n as nat;
        proof {
            lemma_size(n as u64);
        }
        let size: usize = (1u64 << (n as u64)) as usize;
        let ghost sz = size as nat;
        assert(n * size <= 20 * 0x10_0000) by (nonlinear_arith)
            requires n <= 20, size <= 0x10_0000;
        let total: usize = n * size;
        let mut cost: Vec<u64> = Vec::new();
        let mut parent: Vec<usize> = Vec::new();
        let mut k: usize = 0;
        while k < total
            invariant
                k <= total,
                cost.len() == k,
                parent.len() == k,
                forall|j: int| 0 <= j < k ==> #[trigger] cost[j] == NO_COST && parent[j] == NO_PARENT,
            decreases total - k,
        {
            cost.push(NO_COST);
            parent.push(NO_PARENT);
            k = k + 1;
        }
        proof {
            lemma_cell(0, 1, 0, 0, nn, sz);
        }
        let ghost blank = cost@;
        cost.set(1, 0);
        proof {
            assert(cell(0, 1, sz) == 1);
            lemma_small_masks(0);
            assert forall|v: int, m: u64| 0 <= v < nn && m < sz implies #[trigger] link_ok(c, cost@, parent@, nn, sz, v, m, 1) by {
                lemma_cell(v, m as int, 0, 1, nn, sz);
                if cell(v, m as int, sz) == 1 {
                    assert(v == 0 && m == 1);
                    assert(blank[1] == NO_COST);
                    assert(parent@[1] == NO_PARENT);
                } else {
                    assert(blank[cell(v, m as int, sz)] == NO_COST);
                }
            }
            assert forall|p: Seq<usize>| is_dp_path(p, nn) && p.len() >= 2 && settled(p, 1, 0, 0) implies
                #[trigger] dp_bound(c, cost@, sz, p) by {
                lemma_path_split(c, p, nn);
                let q = p.drop_last();
                lemma_mask_bits(q, 0);
                lemma_small_masks(0);
                assert(q[0] == 0);
            }
        }
        let mut mask: u64 = 1;
        while (mask as usize) < size
            invariant
                n == self.cities.len(),
                nn == n,
                sz == size,
                c == self.cities@,
                self.wf(),
                2 <= n <= BITMASK_MAX_CITIES,
                size as nat == (1u64 << (n as u64)),
                size <= 0x10_0000,
                1 <= mask <= size,
                cost.len() == n * size,
                parent.len() == n * size,
                cost[cell(0, 1, sz)] == 0,
                table_links(c, cost@, parent@, nn, sz, mask as int),
                table_bounds(c, cost@, nn, sz, mask, 0, 0),
            decreases size - mask,
        {
            proof {
                assert forall|v: int, m: u64| 0 <= v < nn && m < sz implies #[trigger] link_ok(c, cost@, parent@, nn, sz, v, m, mask + 1) by {
                    assert(link_ok(c, cost@, parent@, nn, sz, v, m, mask as int));
                }
            }
            let mut u: usize = 0;
            while u < n
                invariant
                    u <= n,
                    n == self.cities.len(),
                    nn == n,
                    sz == size,
                    c == self.cities@,
                    self.wf(),
                    2 <= n <= BITMASK_MAX_CITIES,
                    size as nat == (1u64 << (n as u64)),
                    size <= 0x10_0000,
                    1 <= mask < size,
                    cost.len() == n * size,
                    parent.len() == n * size,
                    cost[cell(0, 1, sz)] == 0,
                    table_links(c, cost@, parent@, nn, sz, mask + 1),
                    table_bounds(c, cost@, nn, sz, mask, u as int, 0),
                decreases n - u,
            {
                proof {
                    lemma_cell(u as int, mask as int, 0, 0, nn, sz);
                }
                if (mask >> (u as u64)) & 1 == 1 && cost[u * size + mask as usize] != NO_COST {
                    self.relax_from(&mut cost, &mut parent, size, mask, u);
                } else {
                    proof {
                        assert forall|p: Seq<usize>|
                            is_dp_path(p, nn) && p.len() >= 2 && settled(p, mask, u + 1, 0) implies
                            #[trigger] dp_bound(c, cost@, sz, p) by {
                            lemma_path_split(c, p, nn);
                            if !settled(p, mask, u as int, 0) {
                                let q = p.drop_last();
                                assert(q.last() == u && mask_of(q) == mask);
                                lemma_mask_bits(q, u as u64);
                                assert(q[q.len() - 1] == u);
                                lemma_path_cost_bound(c, q);
                                lemma_dp_path_len(q, nn);
                                assert(q.len() * DIST_BOUND <= 20 * DIST_BOUND) by (nonlinear_arith)
                                    requires q.len() <= 20;
                                if q.len() >= 2 {
                                    assert(settled(q, mask, u as int, 0));
                                    assert(dp_bound(c, cost@, sz, q));
                                }
                                assert(false);
                            }
                        }
                    }
                }
                u = u + 1;
            }
            proof {
                assert forall|p: Seq<usize>|
                    is_dp_path(p, nn) && p.len() >= 2 && settled(p, (mask + 1) as u64, 0, 0) implies
                    #[trigger] dp_bound(c, cost@, sz, p) by {
                    assert(p[p.len() - 2] < n);
                    assert(settled(p, mask, n as int, 0));
                }
            }
            mask = mask + 1;
        }
        let full: u64 = (size - 1) as u64;
        let mut best: u128 = NO_TOUR;
        let mut last: usize = 0;
        let mut i: usize = 1;
        proof {
            lemma_full_bits(n as u64, 0);
        }
        while i < n
            invariant
                1 <= i <= n,
                n == self.cities.len(),
                nn == n,
                sz == size,
                c == self.cities@,
                self.wf(),
                2 <= n <= BITMASK_MAX_CITIES,
                size as nat == (1u64 << (n as u64)),
                size <= 0x10_0000,
                full == size - 1,
                cost.len() == n * size,
                parent.len() == n * size,
                best != NO_TOUR ==> 1 <= last < n && cost[cell(last as int, full as int, sz)] != NO_COST
                    && best == cost[cell(last as int, full as int, sz)] + dist(c[last as int], c[0]),
                forall|j: int| 1 <= j < i && #[trigger] cost[cell(j, full as int, sz)] != NO_COST ==>
                    best <= cost[cell(j, full as int, sz)] + dist(c[j], c[0]),
            decreases n - i,
        {
            proof {
                lemma_cell(i as int, full as int, 0, 0, nn, sz);
            }
            let e = cost[i * size + full as usize];
            if e != NO_COST {
                let total: u128 = e as u128 + self.distance_matrix[i][0] as u128;
                if total < best {
                    best = total;
                    last = i;
                }
            }
            i = i + 1;
        }
        proof {
            assert forall|t: Seq<usize>| is_tour(t, nn) && t[0] == 0 implies best <= #[trigger] tour_cost(c, t)
                && best != NO_TOUR by {
                assert(is_dp_path(t, nn));
                lemma_path_split(c, t, nn);
                lemma_mask_bound(t.drop_last(), n as u64);
                lemma_mask_bound(t, n as u64);
                assert(settled(t, mask, 0, 0));
                assert(dp_bound(c, cost@, sz, t));
                assert forall|b: u64| b < n implies #[trigger] bit(mask_of(t), b) == bit(full, b) by {
                    lemma_mask_bits(t, b);
                    lemma_tour_contains(t, nn, b as usize);
                    lemma_full_bits(n as u64, b);
                }
                lemma_full_bits(n as u64, 0);
                lemma_bits_eq(mask_of(t), full, n as u64);
                let j = t.last() as int;
                lemma_path_cost_bound(c, t);
                assert(t.len() * DIST_BOUND <= 20 * DIST_BOUND) by (nonlinear_arith)
                    requires t.len() <= 20;
                assert(cost[cell(j, full as int, sz)] != NO_COST);
                assert(1 <= j < n);
            }
            let f = city_range(nn);
            lemma_range_is_tour(nn);
            assert(f[0] == 0);
            assert(is_tour(f, nn));
            assert(tour_cost(c, f) >= best);
            assert(best != NO_TOUR);
        }
        self.reconstruct_path(&cost, &parent, size, full, last);
        self.best_distance = best;
        proof {
            let p = self.best_path@;
            assert forall|v: usize| (v as nat) < nn implies p.contains(v) by {
                lemma_full_bits(n as u64, v as u64);
                assert(bit(full, v as u64));
            }
            lemma_tour_from_cover(p, nn);
            assert(tour_cost(c, p) == best);
            assert(is_anchored_lower_bound(c, best as int)) by {
                assert forall|u: Seq<usize>| is_tour(u, nn) && (u.len() > 0 ==> u[0] == 0) implies
                    best <= #[trigger] tour_cost(c, u) by {}
            }
            lemma_anchored_bound(c, best as int);
        }
    }

    /// The recommended search: subset dynamic programming up to
    /// `BITMASK_MAX_CITIES` cities, branch and bound beyond.
    pub fn solve_optimized(&mut self)
        requires
            old(self).wf(),
        ensures
            final(self).wf(),
            final(self).cities@ == old(self).cities@,
            is_optimal_tour(final(self).cities@, final(self).best_path@, final(self).best_distance as int),
    {
        let n = self.cities.len();
        if n <= 1 {
            self.best_path = identity_path(n);
            self.best_distance = 0;
            proof {
                lemma_small_tour(self.cities@, self.best_path@);
            }
        } else if n <= BITMASK_MAX_CITIES {
            self.solve_with_bitmask();
        } else {
            self.solve_branch_and_bound();
        }
    }
}

} // verus!
