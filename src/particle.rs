//! A particle: one candidate timetable in the continuous encoding.
use vstd::prelude::*;
use vstd::arithmetic::div_mod::{lemma_fundamental_div_mod, lemma_fundamental_div_mod_converse, lemma_mod_pos_bound};
use rand::Rng;
use rand::seq::SliceRandom;
use crate::model::{SCALE, MAX_PARAMETER};

verus! {

/// Relies on rand's `Rng::random_range` on the thread-local generator
/// (`rand::rng`): a value in `lo..hi`, which must not be empty.
#[verifier::external_body]
pub(crate) fn random_between(lo: i64, hi: i64) -> (r: i64)
    requires
        lo < hi,
    ensures
        lo <= r < hi,
{
    rand::rng().random_range(lo..hi)
}

/// Relies on rand's `SliceRandom::shuffle` on the thread-local generator: it
/// permutes the values in place.
#[verifier::external_body]
fn shuffle_values(v: &mut Vec<i64>)
    ensures
        final(v)@.to_multiset() == old(v)@.to_multiset(),
{
    v.shuffle(&mut rand::rng())
}

pub open spec fn clamp(x: int, lo: int, hi: int) -> int {
    if x < lo {
        lo
    } else if x > hi {
        hi
    } else {
        x
    }
}

/// The lower end of stratum `i` of `[0, SCALE)` cut into `d` strata.
pub open spec fn stratum_lo(i: int, d: int) -> int {
    i * SCALE / d
}

/// The upper end (exclusive) of stratum `i`.
pub open spec fn stratum_hi(i: int, d: int) -> int {
    (i + 1) * SCALE / d
}

/// A value drawn from stratum `i` (its lower end when the stratum is empty).
pub open spec fn in_stratum(v: int, i: int, d: int) -> bool {
    stratum_lo(i, d) <= v && (v < stratum_hi(i, d) || v == stratum_lo(i, d))
}

/// The fixed-point velocity update, before clamping, scaled by `SCALE * SCALE`:
/// `w * v + c1 * r1 * (pb - x) + c2 * r2 * (gb - x)` in real terms.
pub open spec fn velocity_numerator(v: int, x: int, pb: int, gb: int, w: int, c1: int, c2: int, r1: int, r2: int) -> int {
    w * v * SCALE + c1 * r1 * (pb - x) + c2 * r2 * (gb - x)
}

/// The new velocity: the update rounded down and clamped to `[-vc, vc]`.
pub open spec fn next_velocity(v: int, x: int, pb: int, gb: int, w: int, c1: int, c2: int, vc: int, r1: int, r2: int) -> int {
    clamp(velocity_numerator(v, x, pb, gb, w, c1, c2, r1, r2) / (SCALE * SCALE), -vc, vc)
}

/// `f` is a fitness better than `best` (`None` is no fitness yet, worse than
/// any value).
pub open spec fn improves(f: Option<u64>, best: Option<u64>) -> bool {
    match f {
        Some(a) => match best {
            Some(b) => a < b,
            None => true,
        },
        None => false,
    }
}

/// One candidate solution: its position, velocity, personal best, and the
/// fitness of its current position (`None` until evaluated).
#[derive(Clone, Debug)]
pub struct Particle {
    pub position: Vec<i64>,
    pub velocity: Vec<i64>,
    pub pbest_position: Vec<i64>,
    pub pbest_fitness: Option<u64>,
    pub fitness: Option<u64>,
}

proof fn lemma_mul_bound(a: int, b: int, ma: int, mb: int)
    requires
        0 <= a <= ma,
        -mb <= b <= mb,
    ensures
        -(ma * mb) <= a * b <= ma * mb,
{
    assert(-(ma * mb) <= a * b <= ma * mb) by (nonlinear_arith)
        requires
            0 <= a <= ma,
            -mb <= b <= mb,
    ;
}

/// `n / d` rounded down, for a positive `d`.
fn floor_div(n: i128, d: i128) -> (r: i128)
    requires
        d > 0,
        -1_000_000_000_000_000_000_000_000_000_000_000 <= n <= 1_000_000_000_000_000_000_000_000_000_000_000,
        d <= 1_000_000_000_000_000_000_000_000_000_000_000,
    ensures
        r == n / d,
{
    if n >= 0 {
        let q = (n as u128) / (d as u128);
        q as i128
    } else {
        let m = (d - 1 - n) as u128;
        let q = m / (d as u128);
        proof {
            lemma_fundamental_div_mod(m as int, d as int);
            lemma_mod_pos_bound(m as int, d as int);
            assert((d as int) * (q as int) == (q as int) * (d as int)) by (nonlinear_arith);
            assert((-(q as int)) * (d as int) == -((q as int) * (d as int))) by (nonlinear_arith);
            assert(m as int == (d as int) * (q as int) + (m as int) % (d as int));
            lemma_fundamental_div_mod_converse(n as int, d as int, -(q as int), n + (q as int) * (d as int));
        }
        -(q as i128)
    }
}

impl Particle {
    /// Coordinates and velocities within the bounds that keep the update
    /// rule's arithmetic exact.
    pub open spec fn wf(&self, dim: int) -> bool {
        &&& self.position@.len() == dim
        &&& self.velocity@.len() == dim
        &&& self.pbest_position@.len() == dim
        &&& forall|i: int| 0 <= i < dim ==> 0 <= #[trigger] self.position@[i] <= MAX_PARAMETER
        &&& forall|i: int| 0 <= i < dim ==> -MAX_PARAMETER <= #[trigger] self.velocity@[i] <= MAX_PARAMETER
        &&& forall|i: int| 0 <= i < dim ==> 0 <= #[trigger] self.pbest_position@[i] <= MAX_PARAMETER
    }

    /// A particle from a starting position and velocity, with no best yet.
    pub fn from_parts(position: Vec<i64>, velocity: Vec<i64>) -> (r: Particle)
        ensures
            r.position@ == position@,
            r.velocity@ == velocity@,
            r.pbest_position@ == position@,
            r.pbest_fitness is None,
            r.fitness is None,
    {
        let pbest = copy_of(&position);
        Particle { position, velocity, pbest_position: pbest, pbest_fitness: None, fitness: None }
    }

    /// A random particle: one coordinate in each of `dimension` strata of
    /// `[0, 1)`, in random order, and velocities in `[-1, 1)`.
    pub fn new(dimension: usize) -> (r: Particle)
        ensures
            r.wf(dimension as int),
            r.pbest_position@ == r.position@,
            r.pbest_fitness is None,
            r.fitness is None,
            forall|i: int| 0 <= i < dimension ==> 0 <= #[trigger] r.position@[i] <= SCALE,
            forall|i: int| 0 <= i < dimension ==> -SCALE <= #[trigger] r.velocity@[i] < SCALE,
            exists|s: Seq<i64>|
                s.len() == dimension && s.to_multiset() == r.position@.to_multiset() && (forall|i: int|
                    0 <= i < dimension ==> in_stratum(#[trigger] s[i] as int, i, dimension as int)),
    {
        let mut values: Vec<i64> = Vec::new();
        let mut i: usize = 0;
        while i < dimension
            invariant
                i <= dimension,
                values@.len() == i,
                forall|k: int| 0 <= k < i ==> in_stratum(#[trigger] values@[k] as int, k, dimension as int),
                forall|k: int| 0 <= k < i ==> 0 <= #[trigger] values@[k] <= SCALE,
            decreases dimension - i,
        {
            let (lo, hi) = stratum(i, dimension);
            let v = if lo < hi { random_between(lo, hi) } else { lo };
            values.push(v);
            i = i + 1;
        }
        let ghost sample = values@;
        shuffle_values(&mut values);
        proof {
            sample.to_multiset_ensures();
            values@.to_multiset_ensures();
            assert forall|k: int| 0 <= k < dimension implies 0 <= #[trigger] values@[k] <= SCALE by {
                assert(values@.contains(values@[k]));
                assert(sample.to_multiset().count(values@[k]) > 0);
                assert(sample.contains(values@[k]));
            }
        }
        let mut velocity: Vec<i64> = Vec::new();
        let mut j: usize = 0;
        while j < dimension
            invariant
                j <= dimension,
                velocity@.len() == j,
                forall|k: int| 0 <= k < j ==> -SCALE <= #[trigger] velocity@[k] < SCALE,
            decreases dimension - j,
        {
            velocity.push(random_between(-SCALE, SCALE));
            j = j + 1;
        }
        Particle::from_parts(values, velocity)
    }

    /// The velocity update: for each coordinate, the inertia, cognitive and
    /// social terms with the given uniform draws `r1`, `r2` (in `[0, 1]`),
    /// rounded down and clamped to `[-velocity_clamp, velocity_clamp]`.
    pub fn update_velocity(
        &mut self,
        gbest: &Vec<i64>,
        inertia_weight: i64,
        cognitive_weight: i64,
        social_weight: i64,
        velocity_clamp: i64,
        r1: &Vec<i64>,
        r2: &Vec<i64>,
    )
        requires
            old(self).wf(old(self).velocity@.len() as int),
            gbest@.len() == old(self).velocity@.len(),
            r1@.len() == old(self).velocity@.len(),
            r2@.len() == old(self).velocity@.len(),
            forall|i: int| 0 <= i < gbest@.len() ==> 0 <= #[trigger] gbest@[i] <= MAX_PARAMETER,
            forall|i: int| 0 <= i < r1@.len() ==> 0 <= #[trigger] r1@[i] <= SCALE,
            forall|i: int| 0 <= i < r2@.len() ==> 0 <= #[trigger] r2@[i] <= SCALE,
            0 <= inertia_weight <= MAX_PARAMETER,
            0 <= cognitive_weight <= MAX_PARAMETER,
            0 <= social_weight <= MAX_PARAMETER,
            0 <= velocity_clamp <= MAX_PARAMETER,
        ensures
            final(self).wf(old(self).velocity@.len() as int),
            final(self).position == old(self).position,
            final(self).pbest_position == old(self).pbest_position,
            final(self).pbest_fitness == old(self).pbest_fitness,
            final(self).fitness == old(self).fitness,
            final(self).velocity@.len() == old(self).velocity@.len(),
            forall|i: int| 0 <= i < old(self).velocity@.len() ==> #[trigger] final(self).velocity@[i] == next_velocity(
                old(self).velocity@[i] as int,
                old(self).position@[i] as int,
                old(self).pbest_position@[i] as int,
                gbest@[i] as int,
                inertia_weight as int,
                cognitive_weight as int,
                social_weight as int,
                velocity_clamp as int,
                r1@[i] as int,
                r2@[i] as int,
            ),
    {
        let ghost dim = self.velocity@.len();
        let ghost old_v = self.velocity@;
        let mut i: usize = 0;
        while i < self.velocity.len()
            invariant
                dim == old(self).velocity@.len(),
                old_v == old(self).velocity@,
                self.wf(dim as int),
                self.position == old(self).position,
                self.pbest_position == old(self).pbest_position,
                self.pbest_fitness == old(self).pbest_fitness,
                self.fitness == old(self).fitness,
                gbest@.len() == dim && r1@.len() == dim && r2@.len() == dim,
                forall|k: int| 0 <= k < dim ==> 0 <= #[trigger] gbest@[k] <= MAX_PARAMETER,
                forall|k: int| 0 <= k < dim ==> 0 <= #[trigger] r1@[k] <= SCALE,
                forall|k: int| 0 <= k < dim ==> 0 <= #[trigger] r2@[k] <= SCALE,
                0 <= inertia_weight <= MAX_PARAMETER,
                0 <= cognitive_weight <= MAX_PARAMETER,
                0 <= social_weight <= MAX_PARAMETER,
                0 <= velocity_clamp <= MAX_PARAMETER,
                i <= dim,
                forall|k: int| i <= k < dim ==> #[trigger] self.velocity@[k] == old_v[k],
                forall|k: int| 0 <= k < i ==> #[trigger] self.velocity@[k] == next_velocity(
                    old_v[k] as int,
                    old(self).position@[k] as int,
                    old(self).pbest_position@[k] as int,
                    gbest@[k] as int,
                    inertia_weight as int,
                    cognitive_weight as int,
                    social_weight as int,
                    velocity_clamp as int,
                    r1@[k] as int,
                    r2@[k] as int,
                ),
            decreases dim - i,
        {
            let v = self.velocity[i];
            let x = self.position[i];
            let pb = self.pbest_position[i];
            let gb = gbest[i];
            let a = r1[i];
            let b = r2[i];
            proof {
                lemma_mul_bound(inertia_weight as int, v as int, MAX_PARAMETER as int, MAX_PARAMETER as int);
                lemma_mul_bound(cognitive_weight as int, a as int, MAX_PARAMETER as int, SCALE as int);
                lemma_mul_bound(social_weight as int, b as int, MAX_PARAMETER as int, SCALE as int);
                lemma_mul_bound(cognitive_weight as int * a as int, pb - x, MAX_PARAMETER * SCALE, MAX_PARAMETER as int);
                lemma_mul_bound(social_weight as int * b as int, gb - x, MAX_PARAMETER * SCALE, MAX_PARAMETER as int);
                lemma_mul_bound(SCALE as int, inertia_weight * v, SCALE as int, MAX_PARAMETER * MAX_PARAMETER);
                assert(inertia_weight as int * v as int * SCALE == SCALE * (inertia_weight as int * v as int)) by (nonlinear_arith);
            }
            let inertia = (inertia_weight as i128) * (v as i128) * (SCALE as i128);
            let cognitive = (cognitive_weight as i128) * (a as i128) * ((pb - x) as i128);
            let social = (social_weight as i128) * (b as i128) * ((gb - x) as i128);
            let q = floor_div(inertia + cognitive + social, (SCALE as i128) * (SCALE as i128));
            let nv: i64 = if q < -(velocity_clamp as i128) {
                -velocity_clamp
            } else if q > velocity_clamp as i128 {
                velocity_clamp
            } else {
                q as i64
            };
            self.velocity.set(i, nv);
            i = i + 1;
        }
    }

    /// Moves by the velocity and clamps each coordinate to
    /// `[0, position_clamp]`.
    pub fn update_position(&mut self, position_clamp: i64)
        requires
            old(self).wf(old(self).position@.len() as int),
            0 <= position_clamp <= MAX_PARAMETER,
        ensures
            final(self).wf(old(self).position@.len() as int),
            final(self).velocity == old(self).velocity,
            final(self).pbest_position == old(self).pbest_position,
            final(self).pbest_fitness == old(self).pbest_fitness,
            final(self).fitness == old(self).fitness,
            forall|i: int| 0 <= i < old(self).position@.len() ==> #[trigger] final(self).position@[i] == clamp(
                old(self).position@[i] + old(self).velocity@[i],
                0,
                position_clamp as int,
            ),
    {
        let ghost dim = self.position@.len();
        let mut i: usize = 0;
        while i < self.position.len()
            invariant
                dim == old(self).position@.len(),
                self.wf(dim as int),
                self.velocity == old(self).velocity,
                self.pbest_position == old(self).pbest_position,
                self.pbest_fitness == old(self).pbest_fitness,
                self.fitness == old(self).fitness,
                0 <= position_clamp <= MAX_PARAMETER,
                i <= dim,
                forall|k: int| i <= k < dim ==> #[trigger] self.position@[k] == old(self).position@[k],
                forall|k: int| 0 <= k < i ==> #[trigger] self.position@[k] == clamp(
                    old(self).position@[k] + old(self).velocity@[k],
                    0,
                    position_clamp as int,
                ),
            decreases dim - i,
        {
            let moved = self.position[i] + self.velocity[i];
            let p = if moved < 0 {
                0
            } else if moved > position_clamp {
                position_clamp
            } else {
                moved
            };
            self.position.set(i, p);
            i = i + 1;
        }
    }

    /// Takes the current position as personal best when its fitness is
    /// better than the best so far.
    pub fn update_personal_best(&mut self)
        ensures
            final(self).position == old(self).position,
            final(self).velocity == old(self).velocity,
            final(self).fitness == old(self).fitness,
            improves(old(self).fitness, old(self).pbest_fitness) ==> final(self).pbest_fitness == old(self).fitness
                && final(self).pbest_position@ == old(self).position@,
            !improves(old(self).fitness, old(self).pbest_fitness) ==> final(self).pbest_fitness == old(self).pbest_fitness
                && final(self).pbest_position == old(self).pbest_position,
    {
        let better = match self.fitness {
            Some(f) => match self.pbest_fitness {
                Some(b) => f < b,
                None => true,
            },
            None => false,
        };
        if better {
            self.pbest_fitness = self.fitness;
            self.pbest_position = copy_of(&self.position);
        }
    }
}

/// The bounds of stratum `i` of `d`.
fn stratum(i: usize, d: usize) -> (r: (i64, i64))
    requires
        i < d,
    ensures
        r.0 as int == stratum_lo(i as int, d as int),
        r.1 as int == stratum_hi(i as int, d as int),
        0 <= r.0 <= r.1 <= SCALE,
{
    let lo = (i as u128) * (SCALE as u128) / (d as u128);
    let hi = ((i as u128) + 1) * (SCALE as u128) / (d as u128);
    proof {
        assert(0 <= (i as int) * SCALE / (d as int) <= ((i as int) + 1) * SCALE / (d as int) <= SCALE) by (nonlinear_arith)
            requires
                0 <= i < d,
        ;
    }
    (lo as i64, hi as i64)
}

/// A copy of a vector of coordinates.
pub fn copy_of(v: &Vec<i64>) -> (r: Vec<i64>)
    ensures
        r@ == v@,
{
    let mut r: Vec<i64> = Vec::new();
    let mut i: usize = 0;
    while i < v.len()
        invariant
            i <= v@.len(),
            r@ == v@.take(i as int),
        decreases v.len() - i,
    {
        r.push(v[i]);
        proof {
            assert(v@.take(i as int + 1) =~= v@.take(i as int).push(v@[i as int]));
        }
        i = i + 1;
    }
    proof {
        assert(v@.take(v@.len() as int) =~= v@);
    }
    r
}

} // verus!
