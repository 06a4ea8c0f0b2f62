use vstd::prelude::*;
use crate::brute_force::{calculate_distance, copy_path, TSPSolver};
use crate::city::City;
use crate::tour::{
    agrees, bounds_completions, city_range, holds_tour, is_anchored_lower_bound, is_optimal_tour,
    is_tour, lemma_agrees_full, lemma_agrees_swapped, lemma_anchored_bound, lemma_next_position, lemma_range_is_tour,
    lemma_swapped_tour, lemma_tour_cost_fits, swapped, tour_cost, NO_TOUR,
};

verus! {

/// Below this many cities the search is not worth splitting.
pub const PARALLEL_MIN_CITIES: usize = 5;

/// Number of second cities that each worker takes: `ceil((n - 1) / threads)`.
pub open spec fn chunk_size(n: nat, threads: nat) -> nat {
    ((n - 1 + threads - 1) / (threads as int)) as nat
}

/// Number of chunks that cut `1..n` into pieces of `cs` cities.
pub open spec fn chunk_count(n: nat, cs: nat) -> nat {
    ((n - 1 + cs - 1) / (cs as int)) as nat
}

/// The `k`-th piece of `1..n` cut into runs of `cs` cities.
pub open spec fn chunk_spec(n: nat, cs: nat, k: int) -> Seq<usize> {
    let lo = 1 + k * cs;
    let hi = if lo + cs < n { lo + cs } else { n as int };
    Seq::new((hi - lo) as nat, |j: int| (lo + j) as usize)
}

/// Some chunk holds `v`.
pub open spec fn in_some_chunk(chunks: Seq<Seq<usize>>, v: usize) -> bool {
    exists|k: int| 0 <= k < chunks.len() && #[trigger] chunks[k].contains(v)
}

/// Every city of `1..n` lies in exactly one chunk, and the chunks hold nothing else.
pub open spec fn partitions(chunks: Seq<Seq<usize>>, n: nat) -> bool {
    &&& forall|k: int, j: int|
        0 <= k < chunks.len() && 0 <= j < chunks[k].len() ==> 1 <= #[trigger] chunks[k][j] < n
    &&& forall|v: usize| 1 <= v < n ==> #[trigger] in_some_chunk(chunks, v)
    &&& forall|k1: int, j1: int, k2: int, j2: int|
        0 <= k1 < chunks.len() && 0 <= j1 < chunks[k1].len() && 0 <= k2 < chunks.len() && 0 <= j2
            < chunks[k2].len() && #[trigger] chunks[k1][j1] == #[trigger] chunks[k2][j2] ==> k1 == k2 && j1 == j2
}

/// `d` is no longer than any tour from city 0 whose second city is in `chunk`.
pub open spec fn bounds_chunk(c: Seq<City>, chunk: Seq<usize>, d: int) -> bool {
    forall|t: Seq<usize>|
        is_tour(t, c.len()) && t[0] == 0 && chunk.contains(t[1]) ==> d <= #[trigger] tour_cost(c, t)
}

/// What a worker reports: its best tour, shortest over its whole chunk.
pub open spec fn is_chunk_result(c: Seq<City>, chunk: Seq<usize>, p: Seq<usize>, d: u128) -> bool {
    holds_tour(c, p, d) && bounds_chunk(c, chunk, d as int)
}

/// Cuts the second cities `1..n` into contiguous chunks, one per worker; none
/// when `n` is too small to split.
pub fn parallel_chunks(n: usize, num_threads: usize) -> (r: Vec<Vec<usize>>)
    requires
        num_threads >= 1,
    ensures
        n < PARALLEL_MIN_CITIES ==> r.len() == 0,
        n >= PARALLEL_MIN_CITIES ==> {
            let cs = chunk_size(n as nat, num_threads as nat);
            &&& r.len() == chunk_count(n as nat, cs)
            &&& forall|k: int| 0 <= k < r.len() ==> (#[trigger] r[k])@ == chunk_spec(n as nat, cs, k)
            &&& partitions(r@.map_values(|v: Vec<usize>| v@), n as nat)
        },
{
    let mut r: Vec<Vec<usize>> = Vec::new();
    if n < PARALLEL_MIN_CITIES {
        return r;
    }
    let m: usize = n - 1;
    let cs: usize = m / num_threads + if m % num_threads == 0 { 0 } else { 1 };
    assert(cs == chunk_size(n as nat, num_threads as nat)) by (nonlinear_arith)
        requires
            m == n - 1,
            num_threads >= 1,
            cs == m / num_threads + if m % num_threads == 0 { 0int } else { 1int },
    {
        assert(m == num_threads * (m / num_threads) + m % num_threads);
    }
    assert(cs >= 1) by (nonlinear_arith)
        requires cs == m / num_threads + if m % num_threads == 0 { 0int } else { 1int }, m >= 4, num_threads >= 1
    {
        if m / num_threads == 0 {
            assert(m == num_threads * (m / num_threads) + m % num_threads);
        }
    }
    let mut lo: usize = 1;
    let mut k: usize = 0;
    while lo < n
        invariant
            1 <= lo <= n,
            cs >= 1,
            k < lo,
            lo == if 1 + k * cs < n { 1 + k * cs } else { n as int },
            k >= 1 ==> 1 + (k - 1) * cs < n,
            r.len() == k,
            forall|q: int| 0 <= q < k ==> (#[trigger] r[q])@ == chunk_spec(n as nat, cs as nat, q),
        decreases n - lo,
    {
        let hi: usize = if cs < n - lo { lo + cs } else { n };
        let mut chunk: Vec<usize> = Vec::new();
        let mut v: usize = lo;
        while v < hi
            invariant
                lo <= v <= hi,
                chunk@ == Seq::new((v - lo) as nat, |j: int| (lo + j) as usize),
            decreases hi - v,
        {
            chunk.push(v);
            v = v + 1;
            assert(chunk@ =~= Seq::new((v - lo) as nat, |j: int| (lo + j) as usize));
        }
        assert(lo == 1 + k * cs);
        assert(chunk@ =~= chunk_spec(n as nat, cs as nat, k as int));
        r.push(chunk);
        assert(lo + cs == 1 + (k + 1) * cs) by (nonlinear_arith)
            requires lo == 1 + k * cs;
        lo = hi;
        k = k + 1;
    }
    assert(1 + k * cs >= n);
    proof {
        lemma_chunk_count(n as nat, cs as nat, k as nat);
        lemma_chunks_partition(r@.map_values(|v: Vec<usize>| v@), n as nat, cs as nat);
    }
    r
}

/// The loop of `parallel_chunks` stops after `chunk_count` chunks.
proof fn lemma_chunk_count(n: nat, cs: nat, k: nat)
    requires
        cs >= 1,
        n >= 2,
        1 + (k - 1) * cs < n <= 1 + k * cs,
        k >= 1,
    ensures
        k == chunk_count(n, cs),
{
    assert(k == (n - 1 + cs - 1) / (cs as int)) by (nonlinear_arith)
        requires cs >= 1, (k - 1) * cs < n - 1, n - 1 <= k * cs, k >= 1
    {
        let q = (n - 1 + cs - 1) / (cs as int);
        let s = (n - 1 + cs - 1) % (cs as int);
        assert(n - 1 + cs - 1 == q * cs + s);
        assert(0 <= s < cs);
        assert((k - 1) * cs + cs - 1 < n - 1 + cs - 1);
        assert(n - 1 + cs - 1 < k * cs + cs);
        if q < k {
            assert(q * cs <= (k - 1) * cs);
        } else if q > k {
            assert(q * cs >= (k + 1) * cs);
        }
    }
}

proof fn lemma_chunk_entry(r: Seq<Seq<usize>>, n: nat, cs: nat, k: int, j: int)
    requires
        cs >= 1,
        0 <= k < r.len(),
        0 <= j < r[k].len(),
        r[k] == chunk_spec(n, cs, k),
        1 + k * cs < n,
        n <= usize::MAX,
    ensures
        r[k][j] == 1 + k * cs + j,
        1 <= r[k][j] < n,
        j < cs,
{
    assert(0 <= k * cs) by (nonlinear_arith) requires 0 <= k, cs >= 1;
    let lo = 1 + k * cs;
    let hi = if lo + cs < n { lo + cs } else { n as int };
    assert(r[k].len() == hi - lo);
    assert(r[k][j] == (lo + j) as usize);
}

proof fn lemma_chunks_partition(r: Seq<Seq<usize>>, n: nat, cs: nat)
    requires
        cs >= 1,
        n >= 2,
        r.len() == chunk_count(n, cs),
        1 + (r.len() - 1) * cs < n <= 1 + r.len() * cs,
        forall|k: int| 0 <= k < r.len() ==> #[trigger] r[k] == chunk_spec(n, cs, k),
        n <= usize::MAX,
    ensures
        partitions(r, n),
{
    assert forall|k: int| 0 <= k < r.len() implies 1 + #[trigger] (k * cs) < n by {
        assert(k * cs <= (r.len() - 1) * cs) by (nonlinear_arith) requires k <= r.len() - 1, cs >= 1;
    }
    assert forall|k: int, j: int| 0 <= k < r.len() && 0 <= j < r[k].len() implies #[trigger] r[k][j]
        == 1 + k * cs + j && 1 <= r[k][j] < n by {
        lemma_chunk_entry(r, n, cs, k, j);
    }
    assert forall|v: usize| 1 <= v < n implies #[trigger] in_some_chunk(r, v) by {
        let k = (v - 1) / (cs as int);
        let j = (v - 1) % (cs as int);
        assert(v - 1 == k * cs + j) by (nonlinear_arith) requires cs >= 1, k == (v - 1) / (cs as int), j == (v - 1) % (cs as int);
        assert(0 <= k);
        if k >= r.len() {
            assert(k * cs >= r.len() * cs) by (nonlinear_arith) requires k >= r.len(), cs >= 1;
        }
        assert(r[k] == chunk_spec(n, cs, k));
        assert(1 + k * cs + j < n);
        if 1 + k * cs + cs < n {
        } else {
            assert(j < n - (1 + k * cs));
        }
        assert(j < r[k].len());
        lemma_chunk_entry(r, n, cs, k, j);
        assert(r[k][j] == v);
        assert(r[k].contains(v));
    }
    assert forall|k1: int, j1: int, k2: int, j2: int|
        0 <= k1 < r.len() && 0 <= j1 < r[k1].len() && 0 <= k2 < r.len() && 0 <= j2 < r[k2].len()
            && #[trigger] r[k1][j1] == #[trigger] r[k2][j2] implies k1 == k2 && j1 == j2 by {
        lemma_chunk_entry(r, n, cs, k1, j1);
        lemma_chunk_entry(r, n, cs, k2, j2);
        assert(k1 * cs + j1 == k2 * cs + j2);
        if k1 < k2 {
            assert(k1 * cs + cs <= k2 * cs) by (nonlinear_arith) requires k1 < k2, cs >= 1;
        } else if k2 < k1 {
            assert(k2 * cs + cs <= k1 * cs) by (nonlinear_arith) requires k2 < k1, cs >= 1;
        }
    }
}

/// The cities `1..n` without `sc`, in increasing order.
pub open spec fn others(n: nat, sc: usize) -> Seq<usize> {
    Seq::new((n - 2) as nat, |j: int| (if j + 1 < sc { j + 1 } else { j + 2 }) as usize)
}

fn other_cities(n: usize, sc: usize) -> (r: Vec<usize>)
    requires
        1 <= sc < n,
    ensures
        r@ == others(n as nat, sc),
{
    let mut r: Vec<usize> = Vec::new();
    let mut v: usize = 1;
    while v < n
        invariant
            1 <= v <= n,
            1 <= sc < n,
            r@ == others(n as nat, sc).take(if v <= sc { v - 1 } else { v - 2 }),
        decreases n - v,
    {
        if v != sc {
            r.push(v);
        }
        v = v + 1;
        assert(r@ =~= others(n as nat, sc).take(if v <= sc { v - 1 } else { v - 2 }));
    }
    assert(r@ =~= others(n as nat, sc));
    r
}

/// City 0, then `sc`, then the other cities in order, is a tour.
proof fn lemma_chunk_start_tour(n: nat, sc: usize)
    requires
        1 <= sc < n,
        n <= usize::MAX,
    ensures
        is_tour(seq![0usize, sc] + others(n, sc), n),
{
    let f = seq![0usize, sc] + others(n, sc);
    assert forall|i: int| 2 <= i < n implies #[trigger] f[i] == (if i - 1 < sc { i - 1 } else { i }) by {}
    assert forall|i: int| 0 <= i < f.len() implies (#[trigger] f[i] as nat) < n by {
        if i >= 2 {
            assert(f[i] == (if i - 1 < sc { i - 1 } else { i }));
        }
    }
    assert forall|i: int, j: int| 0 <= i < f.len() && 0 <= j < f.len() && i != j implies f[i] != f[j] by {
        if i >= 2 {
            assert(f[i] == (if i - 1 < sc { i - 1 } else { i }));
        }
        if j >= 2 {
            assert(f[j] == (if j - 1 < sc { j - 1 } else { j }));
        }
    }
}

/// `prefix` followed by `rest`.
fn concat(prefix: &Vec<usize>, rest: &Vec<usize>) -> (r: Vec<usize>)
    ensures
        r@ == prefix@ + rest@,
{
    let mut r: Vec<usize> = Vec::new();
    let mut k: usize = 0;
    while k < prefix.len()
        invariant
            k <= prefix.len(),
            r@ == prefix@.take(k as int),
        decreases prefix.len() - k,
    {
        r.push(prefix[k]);
        k = k + 1;
        assert(r@ =~= prefix@.take(k as int));
    }
    k = 0;
    while k < rest.len()
        invariant
            k <= rest.len(),
            r@ == prefix@ + rest@.take(k as int),
        decreases rest.len() - k,
    {
        r.push(rest[k]);
        k = k + 1;
        assert(r@ =~= prefix@ + rest@.take(k as int));
    }
    assert(prefix@ + rest@.take(k as int) =~= prefix@ + rest@);
    r
}

/// Tries every order of `remaining[start_idx..]` behind `prefix` and
/// `remaining[..start_idx]`, and records each tour shorter than `*best_distance`.
pub fn permute_and_check(
    cities: &Vec<City>,
    prefix: &Vec<usize>,
    remaining: &mut Vec<usize>,
    start_idx: usize,
    best_distance: &mut u128,
    best_path: &mut Vec<usize>,
)
    requires
        prefix.len() >= 1,
        prefix[0] == 0,
        is_tour(prefix@ + old(remaining)@, cities.len() as nat),
        start_idx <= old(remaining).len(),
        holds_tour(cities@, old(best_path)@, *old(best_distance)),
    ensures
        final(remaining)@ == old(remaining)@,
        holds_tour(cities@, final(best_path)@, *final(best_distance)),
        *final(best_distance) <= *old(best_distance),
        bounds_completions(
            cities@,
            prefix@ + old(remaining)@,
            prefix.len() + start_idx,
            *final(best_distance) as int,
        ),
        *final(best_distance) == *old(best_distance) ==> final(best_path)@ == old(best_path)@,
        *final(best_distance) < *old(best_distance) ==> agrees(
            final(best_path)@,
            prefix@ + old(remaining)@,
            prefix.len() + start_idx,
        ),
    decreases old(remaining)@.len() - start_idx,
{
    let ghost c = cities@;
    let ghost n1 = cities.len() as nat;
    let ghost orig = remaining@;
    let ghost f = prefix@ + orig;
    let ghost p = prefix.len() as int;
    let n = remaining.len();
    if start_idx == n {
        let full = concat(prefix, remaining);
        let d = calculate_distance(cities, &full);
        if d < *best_distance {
            *best_distance = d;
            *best_path = full;
            assert(agrees(best_path@, f, p + start_idx));
        }
        proof {
            assert(f[0] == 0);
            assert forall|t: Seq<usize>| is_tour(t, n1) && agrees(t, f, p + start_idx) implies
                *best_distance <= #[trigger] tour_cost(c, t) by {
                lemma_agrees_full(t, f, n1);
            }
        }
        return;
    }
    let mut i: usize = start_idx;
    while i < n
        invariant
            start_idx <= i <= n,
            n == remaining.len(),
            p + n == n1,
            p == prefix.len(),
            prefix.len() >= 1,
            prefix[0] == 0,
            remaining@ == orig,
            orig == old(remaining)@,
            f == prefix@ + orig,
            is_tour(f, n1),
            n1 == c.len(),
            c == cities@,
            holds_tour(c, best_path@, *best_distance),
            *best_distance <= *old(best_distance),
            *best_distance == *old(best_distance) ==> best_path@ == old(best_path)@,
            *best_distance < *old(best_distance) ==> agrees(best_path@, f, p + start_idx),
            forall|t: Seq<usize>|
                is_tour(t, n1) && agrees(t, f, p + start_idx) && (exists|j: int|
                    start_idx <= j < i && orig[j] == t[p + start_idx]) ==> *best_distance
                    <= #[trigger] tour_cost(c, t),
        decreases n - i,
    {
        let ghost before = *best_distance;
        let ghost before_path = best_path@;
        let a = remaining[start_idx];
        let b = remaining[i];
        remaining.set(start_idx, b);
        remaining.set(i, a);
        let ghost g = prefix@ + remaining@;
        proof {
            assert(g =~= swapped(f, p + start_idx, p + i));
            lemma_swapped_tour(f, p + start_idx, p + i, n1);
        }
        permute_and_check(cities, prefix, remaining, start_idx + 1, best_distance, best_path);
        proof {
            if *best_distance < before {
                lemma_agrees_swapped(best_path@, f, p + start_idx, p + i);
            }
        }
        let a2 = remaining[start_idx];
        let b2 = remaining[i];
        remaining.set(start_idx, b2);
        remaining.set(i, a2);
        proof {
            assert(remaining@ =~= orig);
            assert forall|t: Seq<usize>|
                is_tour(t, n1) && agrees(t, f, p + start_idx) && (exists|j: int|
                    start_idx <= j < i + 1 && orig[j] == t[p + start_idx]) implies *best_distance
                    <= #[trigger] tour_cost(c, t) by {
                if t[p + start_idx] == orig[i as int] {
                    assert(agrees(t, g, p + start_idx + 1));
                } else {
                    let j = choose|j: int| start_idx <= j < i + 1 && orig[j] == t[p + start_idx];
                    assert(start_idx <= j < i && orig[j] == t[p + start_idx]);
                }
            }
        }
        i = i + 1;
    }
    proof {
        assert forall|t: Seq<usize>| is_tour(t, n1) && agrees(t, f, p + start_idx) implies
            *best_distance <= #[trigger] tour_cost(c, t) by {
            let j = lemma_next_position(t, f, p + start_idx, n1);
            assert(orig[j - p] == t[p + start_idx]);
        }
    }
}

/// The work of one worker: the shortest tour from city 0 whose second city
/// is in `chunk`, or `NO_TOUR` for an empty chunk.
pub fn search_chunk(cities: &Vec<City>, chunk: &Vec<usize>) -> (r: (Vec<usize>, u128))
    requires
        forall|i: int| 0 <= i < chunk.len() ==> 1 <= #[trigger] chunk[i] < cities.len(),
    ensures
        is_chunk_result(cities@, chunk@, r.0@, r.1),
        chunk.len() > 0 ==> r.1 < NO_TOUR,
        chunk.len() == 0 ==> r.1 == NO_TOUR && r.0@.len() == 0,
{
    let ghost c = cities@;
    let n = cities.len();
    let mut best_distance: u128 = NO_TOUR;
    let mut best_path: Vec<usize> = Vec::new();
    let mut k: usize = 0;
    while k < chunk.len()
        invariant
            k <= chunk.len(),
            n == cities.len(),
            c == cities@,
            forall|i: int| 0 <= i < chunk.len() ==> 1 <= #[trigger] chunk[i] < cities.len(),
            holds_tour(c, best_path@, best_distance),
            k == 0 ==> best_distance == NO_TOUR && best_path@.len() == 0,
            k > 0 ==> best_distance < NO_TOUR,
            forall|t: Seq<usize>|
                is_tour(t, n as nat) && t[0] == 0 && chunk@.take(k as int).contains(t[1]) ==> best_distance
                    <= #[trigger] tour_cost(c, t),
        decreases chunk.len() - k,
    {
        let sc = chunk[k];
        let mut prefix: Vec<usize> = Vec::new();
        prefix.push(0);
        prefix.push(sc);
        let mut remaining = other_cities(n, sc);
        let ghost f = prefix@ + remaining@;
        proof {
            assert(prefix@ =~= seq![0usize, sc]);
            lemma_chunk_start_tour(n as nat, sc);
            lemma_tour_cost_fits(c, f);
        }
        permute_and_check(cities, &prefix, &mut remaining, 0, &mut best_distance, &mut best_path);
        proof {
            assert(best_distance <= tour_cost(c, f)) by {
                assert(agrees(f, f, 2));
            }
            assert forall|t: Seq<usize>|
                is_tour(t, n as nat) && t[0] == 0 && chunk@.take(k + 1).contains(t[1]) implies best_distance
                    <= #[trigger] tour_cost(c, t) by {
                let j = choose|j: int| 0 <= j < k + 1 && #[trigger] chunk@.take(k + 1)[j] == t[1];
                if j < k {
                    assert(chunk@.take(k as int)[j] == t[1]);
                } else {
                    assert(agrees(t, f, 2));
                }
            }
        }
        k = k + 1;
    }
    proof {
        assert(chunk@.take(k as int) =~= chunk@);
    }
    (best_path, best_distance)
}

impl TSPSolver {
    /// Takes the shortest of the workers' results, the earliest among equals.
    /// When the chunks cut `1..n` and each result covers its chunk, this is a
    /// shortest tour of all.
    pub fn merge_chunk_results(&mut self, chunks: &Vec<Vec<usize>>, results: &Vec<(Vec<usize>, u128)>)
        ensures
            final(self).cities@ == old(self).cities@,
            forall|k: int| 0 <= k < results.len() ==> final(self).best_distance <= (#[trigger] results[k]).1,
            final(self).best_distance == NO_TOUR ==> final(self).best_path@.len() == 0,
            final(self).best_distance < NO_TOUR ==> exists|k: int|
                0 <= k < results.len() && (#[trigger] results[k]).1 == final(self).best_distance
                    && results[k].0@ == final(self).best_path@,
            ({
                let c = old(self).cities@;
                &&& c.len() >= 2
                &&& results.len() == chunks.len()
                &&& partitions(chunks@.map_values(|v: Vec<usize>| v@), c.len())
                &&& forall|k: int| 0 <= k < results.len() ==> is_chunk_result(c, chunks[k]@, (#[trigger] results[k]).0@, results[k].1)
            }) ==> is_optimal_tour(final(self).cities@, final(self).best_path@, final(self).best_distance as int),
    {
        let mut best: u128 = NO_TOUR;
        let mut path: Vec<usize> = Vec::new();
        let mut k: usize = 0;
        while k < results.len()
            invariant
                k <= results.len(),
                forall|q: int| 0 <= q < k ==> best <= (#[trigger] results[q]).1,
                best == NO_TOUR ==> path@.len() == 0,
                best < NO_TOUR ==> exists|q: int| 0 <= q < k && (#[trigger] results[q]).1 == best && results[q].0@ == path@,
            decreases results.len() - k,
        {
            if results[k].1 < best {
                best = results[k].1;
                path = copy_path(&results[k].0);
            }
            k = k + 1;
        }
        self.best_distance = best;
        self.best_path = path;
        proof {
            let c = self.cities@;
            let cs = chunks@.map_values(|v: Vec<usize>| v@);
            if c.len() >= 2 && results.len() == chunks.len() && partitions(cs, c.len())
                && forall|k: int| 0 <= k < results.len() ==> is_chunk_result(c, chunks[k]@, (#[trigger] results[k]).0@, results[k].1) {
                let n = c.len();
                assert(n == self.cities.len());
                assert(is_anchored_lower_bound(c, best as int)) by {
                    assert forall|u: Seq<usize>| is_tour(u, n) && (u.len() > 0 ==> u[0] == 0) implies best <= #[trigger] tour_cost(c, u) by {
                        assert(1 <= u[1] < n);
                        assert(in_some_chunk(cs, u[1]));
                        let q = choose|q: int| 0 <= q < cs.len() && #[trigger] cs[q].contains(u[1]);
                        assert(cs[q] == chunks[q]@);
                        assert(is_chunk_result(c, chunks[q]@, results[q].0@, results[q].1));
                        assert(best <= results[q].1);
                    }
                }
                let f = city_range(n);
                lemma_range_is_tour(n);
                lemma_tour_cost_fits(c, f);
                assert(best <= tour_cost(c, f));
                let q = choose|q: int| 0 <= q < results.len() && (#[trigger] results[q]).1 == best && results[q].0@ == path@;
                assert(is_chunk_result(c, chunks[q]@, results[q].0@, results[q].1));
                lemma_anchored_bound(c, best as int);
            }
        }
    }
}

} // verus!
