//! Per-(slot, color) observation stores and the adaptive k-nearest-neighbor
//! density estimate over them.
//!
//! Colors live in fixed point: a raw channel is at most `CHAN_ONE` (1.0) and
//! a white-balance-corrected channel is capped at `CORR_MAX` (1000.0), so a
//! squared distance never exceeds `3 * CORR_MAX * CORR_MAX`.

use vstd::prelude::*;

use crate::rng::SeededRng;
use crate::select::quickselect;

verus! {

/// Cap on a white-balance-corrected channel value.
pub const CORR_MAX: u64 = 1_000_000_000;

/// Largest density the estimator reports.
pub const DENSITY_MAX: u64 = 1_000_000_000_000_000_000;

/// 4/3 times pi, scaled by 1000: the unit-sphere volume factor.
pub const UNIT_SPHERE_MILLI: u128 = 4189;

/// Numerator scale of the density quotient.
pub const DENSITY_SCALE: u128 = 1_000_000_000_000_000_000_000_000_000_000;

/// At most this many nearest neighbors enter the estimate.
pub const K_MAX: usize = 10;

/// The neighbor count also adapts to the sample count divided by this.
pub const K_FRACTION: usize = 8;

/// A corrected color point.
pub type Point = (u64, u64, u64);

pub open spec fn point_ok(p: Point) -> bool {
    p.0 <= CORR_MAX && p.1 <= CORR_MAX && p.2 <= CORR_MAX
}

/// Squared Euclidean distance between two corrected points.
pub open spec fn dist_spec(a: Point, b: Point) -> int {
    let dx = a.0 - b.0;
    let dy = a.1 - b.1;
    let dz = a.2 - b.2;
    dx * dx + dy * dy + dz * dz
}

/// Growable store of corrected observations for one (slot, color) pair.
/// Points are only ever appended, never changed or removed.
#[derive(Debug, Clone)]
pub struct ColorStore {
    points: Vec<Point>,
}

impl ColorStore {
    pub closed spec fn view(&self) -> Seq<Point> {
        self.points@
    }

    pub open spec fn wf(&self) -> bool {
        forall|t: int| 0 <= t < self@.len() ==> point_ok(#[trigger] self@[t])
    }

    pub fn new() -> (r: ColorStore)
        ensures
            r@ == Seq::<Point>::empty(),
            r.wf(),
    {
        ColorStore { points: Vec::new() }
    }

    pub fn len(&self) -> (r: usize)
        ensures
            r == self@.len(),
    {
        self.points.len()
    }

    pub fn get(&self, i: usize) -> (r: Point)
        requires
            i < self@.len(),
        ensures
            r == self@[i as int],
    {
        self.points[i]
    }

    /// A store is backed by a vector, so its contents fit a machine length.
    pub proof fn lemma_view_len(&self)
        ensures
            self@.len() <= usize::MAX,
    {
        vstd::std_specs::vec::axiom_spec_len(&self.points);
    }

    pub fn push(&mut self, p: Point)
        requires
            point_ok(p),
            old(self).wf(),
        ensures
            final(self)@ == old(self)@.push(p),
            final(self).wf(),
    {
        self.points.push(p);
        proof {
            assert forall|t: int| 0 <= t < self@.len() implies point_ok(#[trigger] self@[t]) by {
                if t < old(self)@.len() {
                    assert(self@[t] == old(self)@[t]);
                }
            }
        }
    }
}

fn dist(a: Point, b: Point) -> (r: u64)
    requires
        point_ok(a),
        point_ok(b),
    ensures
        r == dist_spec(a, b),
        r <= 3 * CORR_MAX * CORR_MAX,
{
    let dx = if a.0 >= b.0 {
        a.0 - b.0
    } else {
        b.0 - a.0
    };
    let dy = if a.1 >= b.1 {
        a.1 - b.1
    } else {
        b.1 - a.1
    };
    let dz = if a.2 >= b.2 {
        a.2 - b.2
    } else {
        b.2 - a.2
    };
    proof {
        assert(dx <= CORR_MAX && dy <= CORR_MAX && dz <= CORR_MAX);
        assert(dx * dx <= CORR_MAX * CORR_MAX) by (nonlinear_arith)
            requires
                dx <= CORR_MAX,
        ;
        assert(dy * dy <= CORR_MAX * CORR_MAX) by (nonlinear_arith)
            requires
                dy <= CORR_MAX,
        ;
        assert(dz * dz <= CORR_MAX * CORR_MAX) by (nonlinear_arith)
            requires
                dz <= CORR_MAX,
        ;
        assert(dist_spec(a, b) == dx * dx + dy * dy + dz * dz) by (nonlinear_arith)
            requires
                dx == if a.0 >= b.0 { a.0 - b.0 } else { b.0 - a.0 },
                dy == if a.1 >= b.1 { a.1 - b.1 } else { b.1 - a.1 },
                dz == if a.2 >= b.2 { a.2 - b.2 } else { b.2 - a.2 },
                dist_spec(a, b) == (a.0 - b.0) * (a.0 - b.0) + (a.1 - b.1) * (a.1 - b.1) + (a.2
                    - b.2) * (a.2 - b.2),
        ;
    }
    dx * dx + dy * dy + dz * dz
}

/// Floor of the square root, as a value: the unique nonnegative `r` with
/// `r * r <= d < (r + 1) * (r + 1)`.
pub open spec fn sqrt_floor(d: int) -> int {
    choose|r: int| 0 <= r && #[trigger] (r * r) <= d < (r + 1) * (r + 1)
}

proof fn lemma_sqrt_floor_unique(d: int, r: int)
    requires
        0 <= r,
        r * r <= d,
        d < (r + 1) * (r + 1),
    ensures
        sqrt_floor(d) == r,
{
    assert(exists|q: int| 0 <= q && #[trigger] (q * q) <= d < (q + 1) * (q + 1)) by {
        assert(0 <= r && r * r <= d < (r + 1) * (r + 1));
    }
    let q = choose|q: int| 0 <= q && #[trigger] (q * q) <= d < (q + 1) * (q + 1);
    assert(q == r) by (nonlinear_arith)
        requires
            0 <= q,
            q * q <= d,
            d < (q + 1) * (q + 1),
            0 <= r,
            r * r <= d,
            d < (r + 1) * (r + 1),
    ;
    assert(sqrt_floor(d) == q) by {
        assert(0 <= q && q * q <= d < (q + 1) * (q + 1));
    }
}

/// Floor of the square root.
fn isqrt(d: u64) -> (r: u64)
    ensures
        r * r <= d,
        d < (r + 1) * (r + 1),
        r <= 0x1_0000_0000,
        r == sqrt_floor(d as int),
{
    let mut lo: u64 = 0;
    let mut hi: u64 = 0x1_0000_0000;
    while lo + 1 < hi
        invariant
            lo < hi <= 0x1_0000_0000,
            lo * lo <= d,
            d < hi * hi,
        decreases hi - lo,
    {
        let mid = lo + (hi - lo) / 2;
        proof {
            assert((mid as u128) * (mid as u128) <= 0x1_0000_0000_0000_0000u128)
                by (nonlinear_arith)
                requires
                    mid as u128 <= 0x1_0000_0000u128,
            ;
        }
        let midsq: u128 = (mid as u128) * (mid as u128);
        if midsq <= d as u128 {
            lo = mid;
        } else {
            hi = mid;
        }
    }
    proof {
        lemma_sqrt_floor_unique(d as int, lo as int);
    }
    lo
}

/// The density estimate as a value: `k / n` divided by the volume of the
/// ball of squared radius `kdist`, in fixed point, capped at `DENSITY_MAX`;
/// a degenerate ball (radius below one fixed-point unit) gives the cap.
pub open spec fn density_spec(k: int, n: int, kdist: int) -> int {
    let root = sqrt_floor(kdist);
    let vol = UNIT_SPHERE_MILLI * (root * root * root) / 1000;
    if vol == 0 {
        DENSITY_MAX as int
    } else {
        let q = k * DENSITY_SCALE / (n * vol);
        if q > DENSITY_MAX as int {
            DENSITY_MAX as int
        } else {
            q
        }
    }
}

/// Density of `k` neighbors among `n` samples inside the ball whose radius
/// is the square root of `kdist`.
pub fn density(k: usize, n: usize, kdist: u64) -> (r: u64)
    requires
        1 <= k <= n,
        k <= K_MAX,
        n <= 0xFFFF_FFFF,
        kdist <= 3 * CORR_MAX * CORR_MAX,
    ensures
        r <= DENSITY_MAX,
        r == density_spec(k as int, n as int, kdist as int),
{
    let root = isqrt(kdist);
    proof {
        assert(root <= 1_800_000_000) by (nonlinear_arith)
            requires
                root * root <= kdist,
                kdist <= 3_000_000_000_000_000_000,
                root <= 0x1_0000_0000,
        ;
    }
    let r128: u128 = root as u128;
    proof {
        assert(r128 * r128 * r128 <= 1_800_000_000u128 * 1_800_000_000u128 * 1_800_000_000u128)
            by (nonlinear_arith)
            requires
                r128 <= 1_800_000_000u128,
        ;
    }
    let cube: u128 = r128 * r128 * r128;
    let vol: u128 = UNIT_SPHERE_MILLI * cube / 1000;
    if vol == 0 {
        return DENSITY_MAX;
    }
    proof {
        assert((n as u128) * vol <= 0xFFFF_FFFFu128 * (UNIT_SPHERE_MILLI
            * (1_800_000_000u128 * 1_800_000_000u128 * 1_800_000_000u128) / 1000))
            by (nonlinear_arith)
            requires
                n as u128 <= 0xFFFF_FFFFu128,
                vol <= UNIT_SPHERE_MILLI * (1_800_000_000u128 * 1_800_000_000u128
                    * 1_800_000_000u128) / 1000,
                0 < vol,
        ;
    }
    proof {
        assert((n as u128) * vol >= 1) by (nonlinear_arith)
            requires
                n as u128 >= 1,
                vol >= 1,
        ;
    }
    let denom: u128 = (n as u128) * vol;
    let numer: u128 = (k as u128) * DENSITY_SCALE;
    let q = numer / denom;
    if q > DENSITY_MAX as u128 {
        DENSITY_MAX
    } else {
        q as u64
    }
}

/// The neighbor count for a store of `n` samples:
/// `clamp(min(K_MAX, n / K_FRACTION), 1, n)`.
pub open spec fn neighbor_count_spec(n: int) -> int {
    let k0 = if n / (K_FRACTION as int) > K_MAX as int {
        K_MAX as int
    } else {
        n / (K_FRACTION as int)
    };
    if k0 < 1 {
        1
    } else {
        k0
    }
}

/// Chooses the neighbor count for a store of `n` samples.
pub fn neighbor_count(n: usize) -> (k: usize)
    requires
        n >= 1,
    ensures
        1 <= k <= n,
        k <= K_MAX,
        k == neighbor_count_spec(n as int),
{
    let mut k = n / K_FRACTION;
    if k > K_MAX {
        k = K_MAX;
    }
    if k < 1 {
        k = 1;
    }
    k
}

/// The distance pairs a query induces over stored points, tagged by index.
pub open spec fn pairs_spec(ps: Seq<Point>, q: Point) -> Seq<(u64, usize)> {
    Seq::new(ps.len(), |t: int| (dist_spec(ps[t], q) as u64, t as usize))
}

/// The squared distance from `q` to its `k`-th nearest stored point, as a
/// value: the `k`-th smallest of the distance multiset.
pub open spec fn kth_dist_spec(ps: Seq<Point>, q: Point, k: int) -> u64 {
    crate::select::kth_key_desc(pairs_spec(ps, q), ps.len() - k)
}

/// Distance from `q` to the `k`-th nearest of the stored points (squared),
/// found by selecting the `k`-th smallest entry of the distance multiset.
/// The result does not depend on the pivots the generator yields.
pub fn kth_nearest_dist(store: &ColorStore, q: Point, k: usize, rng: &mut SeededRng) -> (r: u64)
    requires
        store.wf(),
        point_ok(q),
        1 <= k <= store@.len(),
    ensures
        r <= 3 * CORR_MAX * CORR_MAX,
        r == kth_dist_spec(store@, q, k as int),
{
    let n = store.points.len();
    let mut pairs: Vec<(u64, usize)> = Vec::new();
    let mut t: usize = 0;
    while t < n
        invariant
            t <= n,
            n == store@.len(),
            pairs@.len() == t,
            point_ok(q),
            store.wf(),
            forall|w: int| 0 <= w < t ==> (#[trigger] pairs@[w]).0 <= 3 * CORR_MAX * CORR_MAX,
            forall|w: int| 0 <= w < t ==> (#[trigger] pairs@[w]) == pairs_spec(store@, q)[w],
        decreases n - t,
    {
        let d = dist(store.points[t], q);
        pairs.push((d, t));
        t = t + 1;
    }
    let pos = n - k;
    let ghost before = pairs@;
    proof {
        assert(before =~= pairs_spec(store@, q));
    }
    quickselect(&mut pairs, pos, rng);
    proof {
        crate::select::lemma_multiset_member(before, pairs@, pos as int);
        let u = choose|u: int| 0 <= u < before.len() && before[u] == pairs@[pos as int];
        assert(before[u].0 <= 3 * CORR_MAX * CORR_MAX);
    }
    pairs[pos].0
}

} // verus!
