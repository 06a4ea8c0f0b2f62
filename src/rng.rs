use vstd::prelude::*;
use crate::city::City;

verus! {

/// Multiplier of the linear congruential generator.
pub const LCG_MULTIPLIER: u64 = 1664525;

/// Increment of the linear congruential generator.
pub const LCG_INCREMENT: u64 = 1013904223;

/// State that replaces a zero seed, which would give a degenerate stream.
pub const ZERO_SEED_STATE: u64 = 12345;

/// Coordinates are drawn from `[0, GRID_SIZE)`: 100 units of `COORD_SCALE` steps.
pub const GRID_SIZE: u64 = 100_000_000;

/// One step of the generator: `state * A + C` modulo `2^64`.
pub open spec fn lcg_step(s: u64) -> u64 {
    ((s as nat * LCG_MULTIPLIER as nat + LCG_INCREMENT as nat) % 0x1_0000_0000_0000_0000) as u64
}

/// The state that a seed starts from.
pub open spec fn seed_state(seed: u64) -> u64 {
    if seed == 0 {
        ZERO_SEED_STATE
    } else {
        seed
    }
}

/// The state after `k` steps from `s`.
pub open spec fn lcg_iter(s: u64, k: nat) -> u64
    decreases k,
{
    if k == 0 {
        s
    } else {
        lcg_step(lcg_iter(s, (k - 1) as nat))
    }
}

/// A draw scaled onto the grid: `floor(r * GRID_SIZE / 2^64)`.
pub open spec fn coord_of(r: u64) -> int {
    (r as int * GRID_SIZE as int) / 0x1_0000_0000_0000_0000int
}

/// The cities that `generate_random_cities(n, seed)` returns: city `i` takes
/// the draws `2i + 1` and `2i + 2` of the stream of `seed`.
pub open spec fn generated_cities(n: nat, seed: u64) -> Seq<City> {
    Seq::new(
        n,
        |i: int|
            City {
                id: i as usize,
                x: coord_of(lcg_iter(seed_state(seed), (2 * i + 1) as nat)) as i32,
                y: coord_of(lcg_iter(seed_state(seed), (2 * i + 2) as nat)) as i32,
            },
    )
}

/// A reproducible stream of 64-bit numbers from a seed.
pub struct SimpleRng {
    pub state: u64,
}

impl SimpleRng {
    pub fn new(seed: u64) -> (r: Self)
        ensures
            r.state == seed_state(seed),
    {
        SimpleRng { state: if seed == 0 { ZERO_SEED_STATE } else { seed } }
    }

    /// Advances the state one step and returns it.
    pub fn next(&mut self) -> (r: u64)
        ensures
            final(self).state == lcg_step(old(self).state),
            r == final(self).state,
    {
        self.state = self.state.wrapping_mul(LCG_MULTIPLIER).wrapping_add(LCG_INCREMENT);
        proof {
            let s = old(self).state as nat;
            let a = LCG_MULTIPLIER as nat;
            let m = 0x1_0000_0000_0000_0000nat;
            let p = (s * a) % m;
            vstd::arithmetic::div_mod::lemma_add_mod_noop((s * a) as int, LCG_INCREMENT as int, m as int);
            vstd::arithmetic::div_mod::lemma_mod_twice(LCG_INCREMENT as int, m as int);
            assert(LCG_INCREMENT as int % m as int == LCG_INCREMENT as int);
            assert((p + LCG_INCREMENT as nat) < 2 * m);
            if p + LCG_INCREMENT as nat >= m {
                vstd::arithmetic::div_mod::lemma_mod_sub_multiples_vanish((p + LCG_INCREMENT as nat - m) as int, m as int);
                vstd::arithmetic::div_mod::lemma_small_mod((p + LCG_INCREMENT as nat - m) as nat, m);
            } else {
                vstd::arithmetic::div_mod::lemma_small_mod((p + LCG_INCREMENT as nat) as nat, m);
            }
        }
        self.state
    }

    /// The next draw scaled onto `[0, GRID_SIZE)`.
    pub fn next_coordinate(&mut self) -> (r: i32)
        ensures
            final(self).state == lcg_step(old(self).state),
            r as int == coord_of(final(self).state),
            0 <= r < GRID_SIZE,
    {
        let v = self.next();
        assert(v as u128 * GRID_SIZE as u128 <= 0xffff_ffff_ffff_ffff * 100_000_000) by (nonlinear_arith)
            requires v <= 0xffff_ffff_ffff_ffffu64;
        let w: u128 = v as u128 * GRID_SIZE as u128;
        let scaled: u128 = w >> 64u128;
        proof {
            let m: int = 0x1_0000_0000_0000_0000;
            let g: int = GRID_SIZE as int;
            assert(w >> 64u128 == w / 0x1_0000_0000_0000_0000u128) by (bit_vector);
            assert((v as int) * g < m * g) by (nonlinear_arith)
                requires (v as int) < m, g > 0;
            vstd::arithmetic::div_mod::lemma_div_is_ordered((v as int) * g, m * g, m);
            assert((m * g) / m == g) by (nonlinear_arith)
                requires m > 0;
            assert((v as int) * g < m * g);
        }
        scaled as i32
    }
}

/// `n` cities with ids `0..n` and coordinates drawn from the stream of `seed`,
/// two draws per city: `x` first, then `y`.
pub fn generate_random_cities(n: usize, seed: u64) -> (r: Vec<City>)
    ensures
        r@ == generated_cities(n as nat, seed),
        forall|i: int| 0 <= i < n ==> 0 <= (#[trigger] r[i]).x < GRID_SIZE && 0 <= r[i].y < GRID_SIZE,
{
    let mut cities: Vec<City> = Vec::new();
    let mut rng = SimpleRng::new(seed);
    let mut i: usize = 0;
    while i < n
        invariant
            i <= n,
            rng.state == lcg_iter(seed_state(seed), (2 * i) as nat),
            cities@ == generated_cities(i as nat, seed),
            forall|k: int| 0 <= k < i ==> 0 <= (#[trigger] cities[k]).x < GRID_SIZE && 0 <= cities[k].y < GRID_SIZE,
        decreases n - i,
    {
        let x = rng.next_coordinate();
        let y = rng.next_coordinate();
        cities.push(City { id: i, x, y });
        proof {
            assert(lcg_iter(seed_state(seed), (2 * i + 1) as nat) == lcg_step(lcg_iter(seed_state(seed), (2 * i) as nat)));
            assert(lcg_iter(seed_state(seed), (2 * i + 2) as nat) == lcg_step(lcg_iter(seed_state(seed), (2 * i + 1) as nat)));
        }
        i = i + 1;
        assert(cities@ =~= generated_cities(i as nat, seed));
    }
    cities
}

/// Generation is a function of its arguments: two runs with the same count
/// and seed give the same cities.
pub proof fn lemma_generation_deterministic(n: nat, seed: u64, first: Seq<City>, second: Seq<City>)
    requires
        first == generated_cities(n, seed),
        second == generated_cities(n, seed),
    ensures
        first == second,
        first.len() == n,
        forall|i: int| 0 <= i < n ==> (#[trigger] first[i]).x == second[i].x && first[i].y == second[i].y,
{
}

} // verus!
