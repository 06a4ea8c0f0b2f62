use vstd::prelude::*;
use crate::city::{City, dist, DIST_BOUND, lemma_dist_bound, lemma_dist_symmetric};

verus! {

/// Marks a search state in which no tour has been recorded yet.
pub const NO_TOUR: u128 = 0xffff_ffff_ffff_ffff_ffff_ffff_ffff_ffff;

/// `t` visits each of the cities `0..n` exactly once.
pub open spec fn is_tour(t: Seq<usize>, n: nat) -> bool {
    &&& t.len() == n
    &&& t.no_duplicates()
    &&& forall|i: int| 0 <= i < t.len() ==> (#[trigger] t[i] as nat) < n
}

/// Length of the open path through the cities of `p`, from first to last.
pub open spec fn path_cost(c: Seq<City>, p: Seq<usize>) -> nat
    decreases p.len(),
{
    if p.len() <= 1 {
        0
    } else {
        path_cost(c, p.drop_last()) + dist(c[p[p.len() - 2] as int], c[p.last() as int])
    }
}

/// Length of the closed tour through the cities of `t`, back to its first.
pub open spec fn tour_cost(c: Seq<City>, t: Seq<usize>) -> nat {
    if t.len() == 0 {
        0
    } else {
        path_cost(c, t) + dist(c[t.last() as int], c[t[0] as int])
    }
}

/// `t` is a shortest tour of the cities `c`, anchored at city 0, and `d` its length.
pub open spec fn is_optimal_tour(c: Seq<City>, t: Seq<usize>, d: int) -> bool {
    &&& is_tour(t, c.len())
    &&& c.len() > 0 ==> t[0] == 0
    &&& d == tour_cost(c, t)
    &&& forall|u: Seq<usize>| is_tour(u, c.len()) ==> d <= #[trigger] tour_cost(c, u)
}

/// No tour that starts at city 0 is shorter than `d`.
pub open spec fn is_anchored_lower_bound(c: Seq<City>, d: int) -> bool {
    forall|u: Seq<usize>|
        is_tour(u, c.len()) && (u.len() > 0 ==> u[0] == 0) ==> d <= #[trigger] tour_cost(c, u)
}

/// The first `k` entries of `t` and `f` coincide.
pub open spec fn agrees(t: Seq<usize>, f: Seq<usize>, k: int) -> bool {
    forall|j: int| 0 <= j < k ==> #[trigger] t[j] == f[j]
}

/// `s` with its entries at `a` and `b` exchanged.
pub open spec fn swapped(s: Seq<usize>, a: int, b: int) -> Seq<usize> {
    s.update(a, s[b]).update(b, s[a])
}

/// `u` turned so that its entry at `k` comes first.
pub open spec fn rotated(u: Seq<usize>, k: int) -> Seq<usize> {
    u.subrange(k, u.len() as int) + u.subrange(0, k)
}

/// A search state: either no tour yet, or a tour from city 0 and its length.
pub open spec fn holds_tour(c: Seq<City>, t: Seq<usize>, d: u128) -> bool {
    d == NO_TOUR || (is_tour(t, c.len()) && (c.len() > 0 ==> t[0] == 0) && d == tour_cost(c, t))
}

/// The first `k` positions of tour `f` are its fixed start, and `d` is no
/// longer than any tour that shares that start.
pub open spec fn bounds_completions(c: Seq<City>, f: Seq<usize>, k: int, d: int) -> bool {
    forall|t: Seq<usize>| is_tour(t, c.len()) && agrees(t, f, k) ==> d <= #[trigger] tour_cost(c, t)
}

/// A duplicate-free sequence whose entries all occur in `b` is no longer than `b`.
pub proof fn lemma_len_le_of_subset<A>(a: Seq<A>, b: Seq<A>)
    requires
        a.no_duplicates(),
        forall|i: int| 0 <= i < a.len() ==> b.contains(#[trigger] a[i]),
    ensures
        a.len() <= b.len(),
    decreases b.len(),
{
    if b.len() == 0 {
        if a.len() > 0 {
            assert(b.contains(a[0]));
        }
    } else {
        let x = b.last();
        let b2 = b.drop_last();
        if a.contains(x) {
            let k = choose|k: int| 0 <= k < a.len() && a[k] == x;
            let a2 = a.remove(k);
            assert forall|i: int| 0 <= i < a2.len() implies b2.contains(#[trigger] a2[i]) by {
                let ai = if i < k { i } else { i + 1 };
                assert(a2[i] == a[ai]);
                assert(b.contains(a[ai]));
                let m = choose|m: int| 0 <= m < b.len() && b[m] == a[ai];
                assert(m != b.len() - 1);
                assert(b2[m] == a2[i]);
            }
            assert forall|i: int, j: int| 0 <= i < a2.len() && 0 <= j < a2.len() && i != j implies a2[i] != a2[j] by {
                let ai = if i < k { i } else { i + 1 };
                let aj = if j < k { j } else { j + 1 };
                assert(a2[i] == a[ai] && a2[j] == a[aj]);
            }
            lemma_len_le_of_subset(a2, b2);
        } else {
            assert forall|i: int| 0 <= i < a.len() implies b2.contains(#[trigger] a[i]) by {
                assert(b.contains(a[i]));
                let m = choose|m: int| 0 <= m < b.len() && b[m] == a[i];
                assert(m != b.len() - 1);
                assert(b2[m] == a[i]);
            }
            lemma_len_le_of_subset(a, b2);
        }
    }
}

/// The cities `0..n` in order.
pub open spec fn city_range(n: nat) -> Seq<usize> {
    Seq::new(n, |i: int| i as usize)
}

/// A tour visits every city.
pub proof fn lemma_tour_contains(t: Seq<usize>, n: nat, v: usize)
    requires
        is_tour(t, n),
        (v as nat) < n,
        n <= usize::MAX,
    ensures
        t.contains(v),
{
    if !t.contains(v) {
        let r = city_range(n).remove(v as int);
        assert forall|i: int| 0 <= i < t.len() implies r.contains(#[trigger] t[i]) by {
            let x = t[i];
            assert(x != v);
            let m: int = if x < v { x as int } else { x as int - 1 };
            assert(r[m] == x);
        }
        lemma_len_le_of_subset(t, r);
    }
}

/// A duplicate-free sequence of cities below `n` that holds each of them is a tour.
pub proof fn lemma_tour_from_cover(t: Seq<usize>, n: nat)
    requires
        t.no_duplicates(),
        forall|i: int| 0 <= i < t.len() ==> (#[trigger] t[i] as nat) < n,
        forall|v: usize| (v as nat) < n ==> t.contains(v),
        n <= usize::MAX + 1,
    ensures
        is_tour(t, n),
{
    let r = city_range(n);
    assert forall|i: int| 0 <= i < t.len() implies r.contains(#[trigger] t[i]) by {
        assert(r[t[i] as int] == t[i]);
    }
    lemma_len_le_of_subset(t, r);
    assert forall|i: int| 0 <= i < r.len() implies t.contains(#[trigger] r[i]) by {
        assert(r[i] == i as usize);
    }
    assert(r.no_duplicates());
    lemma_len_le_of_subset(r, t);
}

/// The first `k` positions of `t` and `f` hold the same cities, so the city
/// that `t` visits next stands in `f` at `k` or later.
pub proof fn lemma_next_position(t: Seq<usize>, f: Seq<usize>, k: int, n: nat) -> (j: int)
    requires
        is_tour(t, n),
        is_tour(f, n),
        n <= usize::MAX,
        0 <= k < n,
        agrees(t, f, k),
    ensures
        k <= j < n,
        f[j] == t[k],
{
    lemma_tour_contains(f, n, t[k]);
    let j = choose|j: int| 0 <= j < f.len() && f[j] == t[k];
    if j < k {
        assert(t[j] == f[j]);
    }
    j
}

/// Exchanging two entries of a tour gives a tour.
pub proof fn lemma_swapped_tour(f: Seq<usize>, a: int, b: int, n: nat)
    requires
        is_tour(f, n),
        0 <= a < n,
        0 <= b < n,
    ensures
        is_tour(swapped(f, a, b), n),
        swapped(swapped(f, a, b), a, b) == f,
{
    let g = swapped(f, a, b);
    assert forall|i: int| 0 <= i < g.len() implies (#[trigger] g[i] as nat) < n by {
        let src = if i == b { a } else if i == a { b } else { i };
        assert(g[i] == f[src]);
    }
    assert forall|i: int, j: int| 0 <= i < g.len() && 0 <= j < g.len() && i != j implies g[i] != g[j] by {
        let si = if i == b { a } else if i == a { b } else { i };
        let sj = if j == b { a } else if j == a { b } else { j };
        assert(g[i] == f[si] && g[j] == f[sj]);
    }
    assert(swapped(g, a, b) =~= f);
}

/// A path that shares the first `k + 1` entries of `f` with `a` and `b`
/// exchanged, where `k <= b`, shares the first `k` entries of `f` itself.
pub proof fn lemma_agrees_swapped(x: Seq<usize>, f: Seq<usize>, a: int, b: int)
    requires
        0 <= a <= b < f.len(),
        agrees(x, swapped(f, a, b), a + 1),
    ensures
        agrees(x, f, a),
{
    assert forall|j: int| 0 <= j < a implies #[trigger] x[j] == f[j] by {
        assert(x[j] == swapped(f, a, b)[j]);
    }
}

/// Two tours that agree everywhere are equal.
pub proof fn lemma_agrees_full(t: Seq<usize>, f: Seq<usize>, n: nat)
    requires
        t.len() == n,
        f.len() == n,
        agrees(t, f, n as int),
    ensures
        t == f,
{
    assert(t =~= f);
}

/// Extending a path by one city adds the last edge.
pub proof fn lemma_path_cost_push(c: Seq<City>, p: Seq<usize>, v: usize)
    requires
        p.len() >= 1,
    ensures
        path_cost(c, p.push(v)) == path_cost(c, p) + dist(c[p.last() as int], c[v as int]),
{
    assert(p.push(v).drop_last() =~= p);
}

/// Prepending a city adds the first edge.
pub proof fn lemma_path_cost_cons(c: Seq<City>, a: usize, s: Seq<usize>)
    requires
        s.len() >= 1,
    ensures
        path_cost(c, seq![a] + s) == dist(c[a as int], c[s[0] as int]) + path_cost(c, s),
    decreases s.len(),
{
    let p = seq![a] + s;
    assert(p[0] == a && p[1] == s[0] && p.last() == s.last());
    if s.len() == 1 {
        assert(p.drop_last() =~= seq![a]);
        assert(path_cost(c, p) == path_cost(c, seq![a]) + dist(c[p[0] as int], c[p[1] as int]));
    } else {
        assert(p.drop_last() =~= seq![a] + s.drop_last());
        lemma_path_cost_cons(c, a, s.drop_last());
        assert(s.drop_last()[0] == s[0]);
        assert(p[p.len() - 2] == s[s.len() - 2]);
    }
}

/// Each prefix of a path is no longer than the path.
pub proof fn lemma_path_cost_prefix(c: Seq<City>, p: Seq<usize>, k: int)
    requires
        0 <= k <= p.len(),
    ensures
        path_cost(c, p.take(k)) <= path_cost(c, p),
    decreases p.len() - k,
{
    if k < p.len() {
        lemma_path_cost_prefix(c, p, k + 1);
        if k >= 1 {
            lemma_path_cost_push(c, p.take(k), p[k]);
            assert(p.take(k).push(p[k]) =~= p.take(k + 1));
        } else {
            assert(path_cost(c, p.take(0)) == 0);
        }
    } else {
        assert(p.take(k) =~= p);
    }
}

/// A path of `m` cities is shorter than `m` longest edges.
pub proof fn lemma_path_cost_bound(c: Seq<City>, p: Seq<usize>)
    ensures
        path_cost(c, p) <= p.len() * DIST_BOUND,
        p.len() >= 1 ==> path_cost(c, p) + DIST_BOUND <= p.len() * DIST_BOUND,
        tour_cost(c, p) <= p.len() * DIST_BOUND,
    decreases p.len(),
{
    if p.len() > 1 {
        lemma_path_cost_bound(c, p.drop_last());
        lemma_dist_bound(c[p[p.len() - 2] as int], c[p.last() as int]);
        assert((p.len() - 1) * DIST_BOUND + DIST_BOUND == p.len() * DIST_BOUND) by (nonlinear_arith);
    }
    if p.len() > 0 {
        lemma_dist_bound(c[p.last() as int], c[p[0] as int]);
    }
}

/// The length of a tour of a vector's worth of cities stays below `NO_TOUR`.
pub proof fn lemma_tour_cost_fits(c: Seq<City>, t: Seq<usize>)
    requires
        t.len() <= usize::MAX,
    ensures
        tour_cost(c, t) < NO_TOUR,
        path_cost(c, t) < NO_TOUR,
{
    lemma_path_cost_bound(c, t);
    assert(t.len() * DIST_BOUND < NO_TOUR) by (nonlinear_arith)
        requires t.len() <= usize::MAX;
}

/// Moving the first city of a tour to its end keeps the tour's length.
pub proof fn lemma_rotate_once(c: Seq<City>, r: Seq<usize>)
    requires
        r.len() >= 1,
    ensures
        tour_cost(c, r.subrange(1, r.len() as int).push(r[0])) == tour_cost(c, r),
{
    let s = r.subrange(1, r.len() as int);
    if r.len() == 1 {
        assert(s.push(r[0]) =~= r);
    } else {
        assert(r =~= seq![r[0]] + s);
        lemma_path_cost_cons(c, r[0], s);
        lemma_path_cost_push(c, s, r[0]);
        assert(s.push(r[0]).last() == r[0]);
        assert(s.push(r[0])[0] == s[0]);
        assert(r.last() == s.last());
    }
}

/// A tour turned to start at its `k`-th city is a tour of the same length.
pub proof fn lemma_rotated_tour(c: Seq<City>, u: Seq<usize>, k: int, n: nat)
    requires
        is_tour(u, n),
        0 <= k < n,
    ensures
        is_tour(rotated(u, k), n),
        rotated(u, k)[0] == u[k],
        tour_cost(c, rotated(u, k)) == tour_cost(c, u),
    decreases k,
{
    let g = rotated(u, k);
    assert forall|i: int| 0 <= i < n implies #[trigger] g[i] == u[if i < n - k { i + k } else { i + k - n }] by {}
    assert forall|i: int| 0 <= i < g.len() implies (#[trigger] g[i] as nat) < n by {
        assert(g[i] == u[if i < n - k { i + k } else { i + k - n }]);
    }
    assert forall|i: int, j: int| 0 <= i < g.len() && 0 <= j < g.len() && i != j implies g[i] != g[j] by {
        assert(g[i] == u[if i < n - k { i + k } else { i + k - n }]);
        assert(g[j] == u[if j < n - k { j + k } else { j + k - n }]);
    }
    if k == 0 {
        assert(g =~= u);
    } else {
        lemma_rotated_tour(c, u, k - 1, n);
        let r = rotated(u, k - 1);
        lemma_rotate_once(c, r);
        assert(g =~= r.subrange(1, n as int).push(r[0]));
    }
}

/// A bound on the tours from city 0 bounds every tour, since each tour can be
/// turned to start at city 0 without changing its length.
pub proof fn lemma_anchored_bound(c: Seq<City>, d: int)
    requires
        is_anchored_lower_bound(c, d),
        c.len() <= usize::MAX,
    ensures
        forall|u: Seq<usize>| is_tour(u, c.len()) ==> d <= #[trigger] tour_cost(c, u),
{
    let n = c.len();
    assert forall|u: Seq<usize>| is_tour(u, n) implies d <= #[trigger] tour_cost(c, u) by {
        if n > 0 {
            lemma_tour_contains(u, n, 0);
            let k = choose|k: int| 0 <= k < u.len() && u[k] == 0;
            lemma_rotated_tour(c, u, k, n);
            assert(d <= tour_cost(c, rotated(u, k)));
        }
    }
}

/// Every solver that returns a shortest tour reports the same length.
pub proof fn lemma_optimal_lengths_agree(
    c: Seq<City>,
    t1: Seq<usize>,
    d1: int,
    t2: Seq<usize>,
    d2: int,
)
    requires
        is_optimal_tour(c, t1, d1),
        is_optimal_tour(c, t2, d2),
    ensures
        d1 == d2,
{
    assert(d1 <= tour_cost(c, t2));
    assert(d2 <= tour_cost(c, t1));
}

/// With no city or one city the shortest tour has length 0; with two cities it
/// goes to the other city and back.
pub proof fn lemma_small_instances(c: Seq<City>, t: Seq<usize>, d: int)
    requires
        is_optimal_tour(c, t, d),
    ensures
        c.len() <= 1 ==> d == 0,
        c.len() == 2 ==> d == 2 * dist(c[0], c[1]),
{
    if c.len() == 1 {
        assert(t[0] == 0);
        lemma_dist_symmetric(c[0], c[0]);
    } else if c.len() == 2 {
        assert(t[0] == 0);
        assert(t[1] < 2 && t[1] != t[0]);
        assert(t[1] == 1);
        assert(path_cost(c, t.drop_last()) == 0);
        assert(path_cost(c, t) == dist(c[0], c[1]));
        assert(tour_cost(c, t) == dist(c[0], c[1]) + dist(c[1], c[0]));
        lemma_dist_symmetric(c[0], c[1]);
    }
}

/// The cities `0..n` in order form a tour.
pub proof fn lemma_range_is_tour(n: nat)
    requires
        n <= usize::MAX + 1,
    ensures
        is_tour(city_range(n), n),
{
    let r = city_range(n);
    assert forall|i: int| 0 <= i < r.len() implies (#[trigger] r[i] as nat) < n by {}
    assert(r.no_duplicates());
}

/// With at most one city, the tour `0..n` is shortest and has length 0.
pub proof fn lemma_small_tour(c: Seq<City>, t: Seq<usize>)
    requires
        c.len() <= 1,
        t == city_range(c.len()),
    ensures
        is_optimal_tour(c, t, 0),
{
    lemma_range_is_tour(c.len());
    assert forall|u: Seq<usize>| is_tour(u, c.len()) implies 0 <= #[trigger] tour_cost(c, u) by {}
    if c.len() == 1 {
        lemma_dist_symmetric(c[0], c[0]);
    }
}

} // verus!
