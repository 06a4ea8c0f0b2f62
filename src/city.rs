use vstd::prelude::*;

verus! {

/// Grid steps per unit of length.
pub const COORD_SCALE: i32 = 1_000_000;

/// A point of the plane, identified by its index in the problem instance.
#[derive(Clone, Copy, Debug)]
pub struct City {
    pub id: usize,
    pub x: i32,
    pub y: i32,
}

/// The largest `r` with `r * r <= s`.
pub open spec fn floor_sqrt(s: nat) -> nat
    decreases s,
{
    if s == 0 {
        0
    } else {
        let r = floor_sqrt((s - 1) as nat);
        if (r + 1) * (r + 1) <= s {
            r + 1
        } else {
            r
        }
    }
}

/// Squared Euclidean distance, in squared grid steps.
pub open spec fn sq_dist(a: City, b: City) -> nat {
    ((a.x - b.x) * (a.x - b.x) + (a.y - b.y) * (a.y - b.y)) as nat
}

/// Euclidean distance, rounded down to whole grid steps.
pub open spec fn dist(a: City, b: City) -> nat {
    floor_sqrt(sq_dist(a, b))
}

/// Largest distance between two cities with `i32` coordinates (exclusive).
pub const DIST_BOUND: u64 = 0x2_0000_0000;

pub proof fn lemma_floor_sqrt(s: nat)
    ensures
        floor_sqrt(s) * floor_sqrt(s) <= s,
        s < (floor_sqrt(s) + 1) * (floor_sqrt(s) + 1),
    decreases s,
{
    if s > 0 {
        lemma_floor_sqrt((s - 1) as nat);
        let r = floor_sqrt((s - 1) as nat);
        assert(floor_sqrt(s) == if (r + 1) * (r + 1) <= s { r + 1 } else { r });
        assert((r + 2) * (r + 2) == (r + 1) * (r + 1) + 2 * r + 3) by (nonlinear_arith);
        assert(r * r <= s - 1 && s - 1 < (r + 1) * (r + 1));
        if (r + 1) * (r + 1) <= s {
            assert(floor_sqrt(s) == r + 1);
            assert(s < (r + 2) * (r + 2));
        } else {
            assert(floor_sqrt(s) == r);
        }
    } else {
        assert(floor_sqrt(s) == 0);
        assert((0nat + 1) * (0nat + 1) == 1) by (nonlinear_arith);
    }
}

/// `r * r <= s < (r + 1) * (r + 1)` holds of one `r` only.
pub proof fn lemma_floor_sqrt_unique(s: nat, r: nat)
    requires
        r * r <= s,
        s < (r + 1) * (r + 1),
    ensures
        floor_sqrt(s) == r,
{
    lemma_floor_sqrt(s);
    let q = floor_sqrt(s);
    if q < r {
        assert((q + 1) * (q + 1) <= r * r) by (nonlinear_arith)
            requires q + 1 <= r;
    } else if r < q {
        assert((r + 1) * (r + 1) <= q * q) by (nonlinear_arith)
            requires r + 1 <= q;
    }
}

/// Distance is symmetric, zero from a city to itself, and below `DIST_BOUND`.
pub proof fn lemma_dist_symmetric(a: City, b: City)
    ensures
        dist(a, b) == dist(b, a),
        dist(a, a) == 0,
        dist(a, b) < DIST_BOUND,
{
    assert(sq_dist(a, b) == sq_dist(b, a)) by (nonlinear_arith);
    assert(sq_dist(a, a) == 0);
    lemma_dist_bound(a, b);
}

pub proof fn lemma_dist_bound(a: City, b: City)
    ensures
        dist(a, b) < DIST_BOUND,
{
    let dx = a.x - b.x;
    let dy = a.y - b.y;
    assert(dx * dx <= 0x1_0000_0000 * 0x1_0000_0000) by (nonlinear_arith)
        requires -0x1_0000_0000 < dx < 0x1_0000_0000;
    assert(dy * dy <= 0x1_0000_0000 * 0x1_0000_0000) by (nonlinear_arith)
        requires -0x1_0000_0000 < dy < 0x1_0000_0000;
    assert(dx * dx >= 0 && dy * dy >= 0) by (nonlinear_arith);
    let s = sq_dist(a, b);
    assert(s == dx * dx + dy * dy);
    lemma_floor_sqrt(s);
    let r = floor_sqrt(s);
    assert(r < 0x2_0000_0000) by (nonlinear_arith)
        requires r * r <= s, s <= 2 * 0x1_0000_0000 * 0x1_0000_0000;
}

/// Integer square root by bisection.
fn isqrt(s: u128) -> (r: u64)
    requires
        s < 0x4_0000_0000_0000_0000,
    ensures
        r as nat == floor_sqrt(s as nat),
{
    let mut lo: u128 = 0;
    let mut hi: u128 = 0x2_0000_0001;
    assert(s < hi * hi) by (nonlinear_arith)
        requires s < 0x4_0000_0000_0000_0000, hi == 0x2_0000_0001;
    while hi - lo > 1
        invariant
            lo < hi <= 0x2_0000_0001,
            lo * lo <= s,
            s < hi * hi,
        decreases hi - lo,
    {
        let mid = lo + (hi - lo) / 2;
        assert(mid * mid <= 0x2_0000_0001 * 0x2_0000_0001) by (nonlinear_arith)
            requires mid < 0x2_0000_0001;
        if mid * mid <= s {
            lo = mid;
        } else {
            hi = mid;
        }
    }
    proof {
        lemma_floor_sqrt_unique(s as nat, lo as nat);
    }
    assert(lo < 0x2_0000_0001);
    lo as u64
}

impl City {
    pub fn new(id: usize, x: i32, y: i32) -> (r: City)
        ensures
            r.id == id,
            r.x == x,
            r.y == y,
    {
        City { id, x, y }
    }

    /// Euclidean distance to `other`, rounded down to whole grid steps.
    pub fn distance_to(&self, other: &City) -> (r: u64)
        ensures
            r as nat == dist(*self, *other),
            r < DIST_BOUND,
    {
        let dx: i64 = self.x as i64 - other.x as i64;
        let dy: i64 = self.y as i64 - other.y as i64;
        let ax: u128 = if dx < 0 { (-dx) as u128 } else { dx as u128 };
        let ay: u128 = if dy < 0 { (-dy) as u128 } else { dy as u128 };
        assert(ax * ax == dx * dx) by (nonlinear_arith)
            requires ax == dx || ax == -dx;
        assert(ay * ay == dy * dy) by (nonlinear_arith)
            requires ay == dy || ay == -dy;
        assert(ax * ax <= 0x1_0000_0000 * 0x1_0000_0000) by (nonlinear_arith)
            requires ax <= 0x1_0000_0000;
        assert(ay * ay <= 0x1_0000_0000 * 0x1_0000_0000) by (nonlinear_arith)
            requires ay <= 0x1_0000_0000;
        let s: u128 = ax * ax + ay * ay;
        assert(s == sq_dist(*self, *other)) by (nonlinear_arith)
            requires
                ax * ax == dx * dx,
                ay * ay == dy * dy,
                dx == self.x - other.x,
                dy == self.y - other.y,
                s == ax * ax + ay * ay;
        proof {
            lemma_dist_bound(*self, *other);
        }
        isqrt(s)
    }
}

} // verus!
