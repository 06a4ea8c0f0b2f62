use vstd::prelude::*;
use crate::city::City;
use crate::tour::{
    agrees, bounds_completions, city_range, holds_tour, is_anchored_lower_bound, is_optimal_tour,
    is_tour, lemma_agrees_full, lemma_agrees_swapped, lemma_anchored_bound, lemma_next_position,
    lemma_path_cost_prefix, lemma_path_cost_push, lemma_range_is_tour, lemma_small_tour, lemma_swapped_tour,
    lemma_tour_cost_fits, path_cost, swapped, tour_cost, NO_TOUR,
};

verus! {

/// Length of the closed tour through the cities of `path`, back to its first.
pub fn calculate_distance(cities: &Vec<City>, path: &Vec<usize>) -> (r: u128)
    requires
        forall|i: int| 0 <= i < path.len() ==> (#[trigger] path[i] as int) < cities.len(),
    ensures
        r == tour_cost(cities@, path@),
{
    let n = path.len();
    if n == 0 {
        return 0;
    }
    proof {
        lemma_tour_cost_fits(cities@, path@);
    }
    let mut total: u128 = 0;
    let mut i: usize = 1;
    assert(path_cost(cities@, path@.take(1)) == 0);
    while i < n
        invariant
            1 <= i <= n,
            n == path.len(),
            forall|i: int| 0 <= i < path.len() ==> (#[trigger] path[i] as int) < cities.len(),
            total == path_cost(cities@, path@.take(i as int)),
            path_cost(cities@, path@) < NO_TOUR,
        decreases n - i,
    {
        let d = cities[path[i - 1]].distance_to(&cities[path[i]]);
        proof {
            lemma_path_cost_push(cities@, path@.take(i as int), path[i as int]);
            assert(path@.take(i as int).push(path[i as int]) =~= path@.take(i + 1));
            lemma_path_cost_prefix(cities@, path@, i + 1);
        }
        total = total + d as u128;
        i = i + 1;
    }
    assert(path@.take(n as int) =~= path@);
    let d = cities[path[n - 1]].distance_to(&cities[path[0]]);
    total + d as u128
}

/// The tour `0, 1, ..., n - 1`.
pub(crate) fn identity_path(n: usize) -> (r: Vec<usize>)
    ensures
        r@ == city_range(n as nat),
{
    let mut r: Vec<usize> = Vec::new();
    let mut i: usize = 0;
    while i < n
        invariant
            i <= n,
            r@ == city_range(i as nat),
        decreases n - i,
    {
        r.push(i);
        i = i + 1;
        assert(r@ =~= city_range(i as nat));
    }
    r
}

/// A copy of `p`.
pub(crate) fn copy_path(p: &Vec<usize>) -> (r: Vec<usize>)
    ensures
        r@ == p@,
{
    let mut r: Vec<usize> = Vec::new();
    let mut k: usize = 0;
    while k < p.len()
        invariant
            k <= p.len(),
            r@ == p@.take(k as int),
        decreases p.len() - k,
    {
        r.push(p[k]);
        k = k + 1;
        assert(r@ =~= p@.take(k as int));
    }
    assert(p@.take(k as int) =~= p@);
    r
}

/// `0` followed by the entries of `rest`.
fn prepend_start(rest: &Vec<usize>) -> (r: Vec<usize>)
    ensures
        r@ == seq![0usize] + rest@,
{
    let mut r: Vec<usize> = Vec::new();
    r.push(0);
    let mut k: usize = 0;
    while k < rest.len()
        invariant
            k <= rest.len(),
            r@ == seq![0usize] + rest@.take(k as int),
        decreases rest.len() - k,
    {
        r.push(rest[k]);
        k = k + 1;
        assert(r@ =~= seq![0usize] + rest@.take(k as int));
    }
    assert(rest@.take(k as int) =~= rest@);
    r
}

/// Exhaustive search over the orders of the cities, city 0 first.
pub struct TSPSolver {
    pub cities: Vec<City>,
    pub best_path: Vec<usize>,
    pub best_distance: u128,
}

impl TSPSolver {
    pub fn new(cities: Vec<City>) -> (r: Self)
        ensures
            r.cities@ == cities@,
            r.best_path@ == city_range(cities.len() as nat),
            r.best_distance == NO_TOUR,
    {
        let best_path = identity_path(cities.len());
        TSPSolver { cities, best_path, best_distance: NO_TOUR }
    }

    /// Length of the closed tour through `path`.
    pub fn calculate_total_distance(&self, path: &Vec<usize>) -> (r: u128)
        requires
            forall|i: int| 0 <= i < path.len() ==> (#[trigger] path[i] as int) < self.cities.len(),
        ensures
            r == tour_cost(self.cities@, path@),
    {
        calculate_distance(&self.cities, path)
    }

    /// Finds a shortest tour by trying every order of cities `1..n` after city 0.
    pub fn solve_all_permutations(&mut self)
        ensures
            final(self).cities@ == old(self).cities@,
            is_optimal_tour(final(self).cities@, final(self).best_path@, final(self).best_distance as int),
    {
        let n = self.cities.len();
        if n <= 1 {
            self.best_path = identity_path(n);
            self.best_distance = 0;
            proof {
                lemma_small_tour(self.cities@, self.best_path@);
            }
            return;
        }
        self.best_distance = NO_TOUR;
        let mut path: Vec<usize> = Vec::new();
        let mut k: usize = 1;
        while k < n
            invariant
                1 <= k <= n,
                path@ == city_range(n as nat).subrange(1, k as int),
            decreases n - k,
        {
            path.push(k);
            k = k + 1;
            assert(path@ =~= city_range(n as nat).subrange(1, k as int));
        }
        let ghost f = seq![0usize] + path@;
        proof {
            assert(f =~= city_range(n as nat));
            lemma_range_is_tour(n as nat);
        }
        self.check_all_permutations(&mut path, 0);
        proof {
            let c = self.cities@;
            let d = self.best_distance;
            assert(is_anchored_lower_bound(c, d as int)) by {
                assert forall|u: Seq<usize>|
                    is_tour(u, c.len()) && (u.len() > 0 ==> u[0] == 0) implies d <= #[trigger] tour_cost(c, u) by {
                    assert(agrees(u, f, 1));
                }
            }
            assert(d <= tour_cost(c, f));
            lemma_tour_cost_fits(c, f);
            lemma_anchored_bound(c, d as int);
        }
    }

    /// Tries every order of `path[start..]`, keeping `0, path[..start]` in front,
    /// and records each tour shorter than the best one so far.
    pub fn check_all_permutations(&mut self, path: &mut Vec<usize>, start: usize)
        requires
            old(self).cities.len() >= 1,
            is_tour(seq![0usize] + old(path)@, old(self).cities.len() as nat),
            start <= old(path).len(),
            holds_tour(old(self).cities@, old(self).best_path@, old(self).best_distance),
        ensures
            final(path)@ == old(path)@,
            final(self).cities@ == old(self).cities@,
            holds_tour(final(self).cities@, final(self).best_path@, final(self).best_distance),
            final(self).best_distance <= old(self).best_distance,
            bounds_completions(
                final(self).cities@,
                seq![0usize] + old(path)@,
                start + 1,
                final(self).best_distance as int,
            ),
            final(self).best_distance == old(self).best_distance ==> final(self).best_path@ == old(self).best_path@,
            final(self).best_distance < old(self).best_distance ==> agrees(
                final(self).best_path@,
                seq![0usize] + old(path)@,
                start + 1,
            ),
        decreases old(path)@.len() - start,
    {
        let ghost c = self.cities@;
        let ghost n1 = self.cities.len() as nat;
        let ghost orig = path@;
        let ghost f = seq![0usize] + orig;
        let n = path.len();
        if start == n {
            let full = prepend_start(path);
            let d = calculate_distance(&self.cities, &full);
            if d < self.best_distance {
                self.best_distance = d;
                self.best_path = full;
                assert(agrees(self.best_path@, f, start + 1));
            }
            proof {
                assert forall|t: Seq<usize>| is_tour(t, n1) && agrees(t, f, start + 1) implies
                    self.best_distance <= #[trigger] tour_cost(c, t) by {
                    lemma_agrees_full(t, f, n1);
                }
            }
            return;
        }
        let mut i: usize = start;
        while i < n
            invariant
                start <= i <= n,
                n == path.len(),
                n < n1,
                path@ == orig,
                orig == old(path)@,
                f == seq![0usize] + orig,
                is_tour(f, n1),
                n1 == c.len(),
                self.cities@ == c,
                holds_tour(c, self.best_path@, self.best_distance),
                self.best_distance <= old(self).best_distance,
                self.best_distance == old(self).best_distance ==> self.best_path@ == old(self).best_path@,
                self.best_distance < old(self).best_distance ==> agrees(self.best_path@, f, start + 1),
                forall|t: Seq<usize>|
                    is_tour(t, n1) && agrees(t, f, start + 1) && (exists|j: int|
                        start <= j < i && orig[j] == t[start + 1]) ==> self.best_distance
                        <= #[trigger] tour_cost(c, t),
            decreases n - i,
        {
            let ghost before = self.best_distance;
            let ghost before_path = self.best_path@;
            let a = path[start];
            let b = path[i];
            path.set(start, b);
            path.set(i, a);
            let ghost g = seq![0usize] + path@;
            proof {
                assert(g =~= swapped(f, start + 1, i + 1));
                lemma_swapped_tour(f, start + 1, i + 1, n1);
            }
            self.check_all_permutations(path, start + 1);
            proof {
                if self.best_distance < before {
                    lemma_agrees_swapped(self.best_path@, f, start + 1, i + 1);
                }
            }
            let a2 = path[start];
            let b2 = path[i];
            path.set(start, b2);
            path.set(i, a2);
            proof {
                assert(path@ =~= orig);
                assert forall|t: Seq<usize>|
                    is_tour(t, n1) && agrees(t, f, start + 1) && (exists|j: int|
                        start <= j < i + 1 && orig[j] == t[start + 1]) implies self.best_distance
                        <= #[trigger] tour_cost(c, t) by {
                    if t[start + 1] == orig[i as int] {
                        assert(agrees(t, g, start + 2));
                    } else {
                        let j = choose|j: int| start <= j < i + 1 && orig[j] == t[start + 1];
                        assert(start <= j < i && orig[j] == t[start + 1]);
                    }
                }
            }
            i = i + 1;
        }
        proof {
            assert forall|t: Seq<usize>| is_tour(t, n1) && agrees(t, f, start + 1) implies
                self.best_distance <= #[trigger] tour_cost(c, t) by {
                let j = lemma_next_position(t, f, start + 1, n1);
                assert(orig[j - 1] == t[start + 1]);
            }
        }
    }

    /// Finds a shortest tour by trying every order of cities `1..n` after
    /// city 0, with the positions given as an inclusive range.
    pub fn solve(&mut self)
        ensures
            final(self).cities@ == old(self).cities@,
            is_optimal_tour(final(self).cities@, final(self).best_path@, final(self).best_distance as int),
    {
        let n = self.cities.len();
        if n <= 1 {
            self.best_path = identity_path(n);
            self.best_distance = 0;
            proof {
                lemma_small_tour(self.cities@, self.best_path@);
            }
            return;
        }
        self.best_distance = NO_TOUR;
        let mut path: Vec<usize> = Vec::new();
        let mut k: usize = 1;
        while k < n
            invariant
                1 <= k <= n,
                path@ == city_range(n as nat).subrange(1, k as int),
            decreases n - k,
        {
            path.push(k);
            k = k + 1;
            assert(path@ =~= city_range(n as nat).subrange(1, k as int));
        }
        let ghost f = seq![0usize] + path@;
        proof {
            assert(f =~= city_range(n as nat));
            lemma_range_is_tour(n as nat);
        }
        self.permute(&mut path, 0, n - 2);
        proof {
            let c = self.cities@;
            let d = self.best_distance;
            assert(is_anchored_lower_bound(c, d as int)) by {
                assert forall|u: Seq<usize>|
                    is_tour(u, c.len()) && (u.len() > 0 ==> u[0] == 0) implies d <= #[trigger] tour_cost(c, u) by {
                    assert(agrees(u, f, 1));
                }
            }
            assert(d <= tour_cost(c, f));
            lemma_tour_cost_fits(c, f);
            lemma_anchored_bound(c, d as int);
        }
    }

    /// Tries every order of `path[l..=r]`, where `r` is the last position of
    /// `path`, behind city 0 and `path[..l]`, and records each tour shorter
    /// than the best one so far.
    pub fn permute(&mut self, path: &mut Vec<usize>, l: usize, r: usize)
        requires
            old(self).cities.len() >= 2,
            is_tour(seq![0usize] + old(path)@, old(self).cities.len() as nat),
            r + 1 == old(path).len(),
            l <= r,
            holds_tour(old(self).cities@, old(self).best_path@, old(self).best_distance),
        ensures
            final(path)@ == old(path)@,
            final(self).cities@ == old(self).cities@,
            holds_tour(final(self).cities@, final(self).best_path@, final(self).best_distance),
            final(self).best_distance <= old(self).best_distance,
            bounds_completions(
                final(self).cities@,
                seq![0usize] + old(path)@,
                l + 1,
                final(self).best_distance as int,
            ),
            final(self).best_distance == old(self).best_distance ==> final(self).best_path@ == old(self).best_path@,
            final(self).best_distance < old(self).best_distance ==> agrees(
                final(self).best_path@,
                seq![0usize] + old(path)@,
                l + 1,
            ),
        decreases r - l,
    {
        let ghost c = self.cities@;
        let ghost n1 = self.cities.len() as nat;
        let ghost orig = path@;
        let ghost f = seq![0usize] + orig;
        if l == r {
            let full = prepend_start(path);
            let d = calculate_distance(&self.cities, &full);
            if d < self.best_distance {
                self.best_distance = d;
                self.best_path = full;
                assert(agrees(self.best_path@, f, l + 1));
            }
            proof {
                assert forall|t: Seq<usize>| is_tour(t, n1) && agrees(t, f, l + 1) implies
                    self.best_distance <= #[trigger] tour_cost(c, t) by {
                    let j = lemma_next_position(t, f, l + 1, n1);
                    assert(agrees(t, f, n1 as int));
                    lemma_agrees_full(t, f, n1);
                }
            }
            return;
        }
        let mut i: usize = l;
        while i <= r
            invariant
                l <= i <= r + 1,
                l < r,
                r + 1 == path.len(),
                r + 2 == n1,
                path@ == orig,
                orig == old(path)@,
                f == seq![0usize] + orig,
                is_tour(f, n1),
                n1 == c.len(),
                self.cities@ == c,
                holds_tour(c, self.best_path@, self.best_distance),
                self.best_distance <= old(self).best_distance,
                self.best_distance == old(self).best_distance ==> self.best_path@ == old(self).best_path@,
                self.best_distance < old(self).best_distance ==> agrees(self.best_path@, f, l + 1),
                forall|t: Seq<usize>|
                    is_tour(t, n1) && agrees(t, f, l + 1) && (exists|j: int|
                        l <= j < i && orig[j] == t[l + 1]) ==> self.best_distance
                        <= #[trigger] tour_cost(c, t),
            decreases r + 1 - i,
        {
            let ghost before = self.best_distance;
            let ghost before_path = self.best_path@;
            let a = path[l];
            let b = path[i];
            path.set(l, b);
            path.set(i, a);
            let ghost g = seq![0usize] + path@;
            proof {
                assert(g =~= swapped(f, l + 1, i + 1));
                lemma_swapped_tour(f, l + 1, i + 1, n1);
            }
            self.permute(path, l + 1, r);
            proof {
                if self.best_distance < before {
                    lemma_agrees_swapped(self.best_path@, f, l + 1, i + 1);
                }
            }
            let a2 = path[l];
            let b2 = path[i];
            path.set(l, b2);
            path.set(i, a2);
            proof {
                assert(path@ =~= orig);
                assert forall|t: Seq<usize>|
                    is_tour(t, n1) && agrees(t, f, l + 1) && (exists|j: int|
                        l <= j < i + 1 && orig[j] == t[l + 1]) implies self.best_distance
                        <= #[trigger] tour_cost(c, t) by {
                    if t[l + 1] == orig[i as int] {
                        assert(agrees(t, g, l + 2));
                    } else {
                        let j = choose|j: int| l <= j < i + 1 && orig[j] == t[l + 1];
                        assert(l <= j < i && orig[j] == t[l + 1]);
                    }
                }
            }
            i = i + 1;
        }
        proof {
            assert forall|t: Seq<usize>| is_tour(t, n1) && agrees(t, f, l + 1) implies
                self.best_distance <= #[trigger] tour_cost(c, t) by {
                let j = lemma_next_position(t, f, l + 1, n1);
                assert(orig[j - 1] == t[l + 1]);
            }
        }
    }
}

} // verus!
