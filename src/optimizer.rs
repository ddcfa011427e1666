//! The swarm controller: evaluation, best tracking, movement and the run loop.
use vstd::prelude::*;
use core::sync::atomic::{AtomicBool, Ordering};
use crate::model::{CourseRequest, PsoParameters, TimePreferenceRequest, SCALE, MAX_PARAMETER, valid_courses, valid_parameters};
use crate::decoder::{decodes_to, rooms_of, allocate_rooms, decode_schedule};
use crate::evaluator::{ScheduleChecker, ConflictInfo, fitness_of, reports};
use crate::particle::{Particle, improves, next_velocity, clamp, random_between};

verus! {

/// A progress snapshot of a run.
#[derive(Clone, Debug)]
pub struct OptimizationProgress {
    pub iteration: usize,
    pub best_fitness: Option<u64>,
    pub all_best_fitness: Option<Vec<u64>>,
    pub current_run: Option<usize>,
    pub total_runs: Option<usize>,
    pub is_finished: bool,
}

/// What a run returns: the global best, the best of the initial swarm, the
/// progress events, how the run ended and how many rounds ran.
#[derive(Clone, Debug)]
pub struct OptimizationResult {
    pub best_position: Vec<i64>,
    pub best_fitness: Option<u64>,
    pub initial_best_fitness: Option<u64>,
    pub events: Vec<OptimizationProgress>,
    pub outcome: RoundOutcome,
    pub rounds: usize,
}

/// What a call of `PSO::step` did.
#[derive(Clone, Copy, Debug, PartialEq, Eq, Structural)]
pub enum RoundOutcome {
    /// The stop signal was set: nothing was done.
    Cancelled,
    /// All rounds were run: nothing was done.
    Completed,
    /// A round was run and found a timetable without violations.
    EarlyStopped,
    /// A round was run; the search goes on.
    Continue,
}

/// The swarm controller of one run.
pub struct PSO {
    pub particles: Vec<Particle>,
    pub global_best_position: Vec<i64>,
    pub global_best_fitness: Option<u64>,
    pub parameters: PsoParameters,
    pub courses: Vec<CourseRequest>,
    pub checker: ScheduleChecker,
    pub rooms: Vec<u64>,
    pub sum_ruangan: u64,
}

/// `f` is the fitness of the timetable that `pos` decodes to.
pub open spec fn fitness_at(
    cs: Seq<CourseRequest>,
    rooms: Seq<u64>,
    prefs: Seq<TimePreferenceRequest>,
    pos: Seq<i64>,
    f: u64,
) -> bool {
    exists|s: Seq<crate::model::OptimizedCourse>| decodes_to(cs, pos, rooms, s) && f == fitness_of(prefs, s)
}

/// A personal best, once there is one, is the fitness of its own position.
pub open spec fn best_evaluated(
    cs: Seq<CourseRequest>,
    rooms: Seq<u64>,
    prefs: Seq<TimePreferenceRequest>,
    p: Particle,
) -> bool {
    p.pbest_fitness is Some ==> fitness_at(cs, rooms, prefs, p.pbest_position@, p.pbest_fitness->0)
}

/// `f` is particle `o` evaluated at its position, with its personal best
/// updated.
pub open spec fn particle_evaluated(
    cs: Seq<CourseRequest>,
    rooms: Seq<u64>,
    prefs: Seq<TimePreferenceRequest>,
    o: Particle,
    f: Particle,
) -> bool {
    &&& f.position == o.position
    &&& f.velocity == o.velocity
    &&& f.fitness is Some
    &&& fitness_at(cs, rooms, prefs, o.position@, f.fitness->0)
    &&& improves(f.fitness, o.pbest_fitness) ==> f.pbest_fitness == f.fitness && f.pbest_position@ == o.position@
    &&& !improves(f.fitness, o.pbest_fitness) ==> f.pbest_fitness == o.pbest_fitness && f.pbest_position == o.pbest_position
}

/// `f` is particle `o` moved by the update rule with some uniform draws.
pub open spec fn particle_moved(o: Particle, f: Particle, gbest: Seq<i64>, p: PsoParameters) -> bool {
    let dim = o.position@.len();
    &&& f.pbest_position == o.pbest_position
    &&& f.pbest_fitness == o.pbest_fitness
    &&& f.fitness == o.fitness
    &&& f.position@.len() == dim
    &&& f.velocity@.len() == dim
    &&& exists|r1: Seq<i64>, r2: Seq<i64>| {
        &&& r1.len() == dim && r2.len() == dim
        &&& forall|i: int| 0 <= i < dim ==> 0 <= #[trigger] r1[i] < SCALE && 0 <= r2[i] < SCALE
        &&& forall|i: int| 0 <= i < dim ==> #[trigger] f.velocity@[i] == next_velocity(
            o.velocity@[i] as int,
            o.position@[i] as int,
            o.pbest_position@[i] as int,
            gbest[i] as int,
            p.inertia_weight as int,
            p.cognitive_weight as int,
            p.social_weight as int,
            p.velocity_clamp as int,
            r1[i] as int,
            r2[i] as int,
        )
        &&& forall|i: int| 0 <= i < dim ==> #[trigger] f.position@[i] == clamp(
            o.position@[i] + f.velocity@[i],
            0,
            p.position_clamp as int,
        )
    }
}

/// `f` is `o` with every particle evaluated (`particle_evaluated`).
pub open spec fn swarm_evaluated(o: PSO, f: PSO) -> bool {
    &&& f.wf()
    &&& f.same_run(&o)
    &&& f.global_best_position == o.global_best_position
    &&& f.global_best_fitness == o.global_best_fitness
    &&& f.particles@.len() == o.particles@.len()
    &&& forall|k: int| 0 <= k < o.particles@.len() ==> particle_evaluated(
        o.courses@,
        o.rooms@,
        o.checker.time_preferences@,
        o.particles@[k],
        #[trigger] f.particles@[k],
    )
}

/// `f` is `o` with the global best updated from the personal bests: never
/// worse than before, no worse than any personal best, and either unchanged
/// or some particle's personal best.
pub open spec fn best_updated(o: PSO, f: PSO) -> bool {
    &&& f.wf()
    &&& f.same_run(&o)
    &&& f.particles == o.particles
    &&& !improves(o.global_best_fitness, f.global_best_fitness)
    &&& forall|k: int| 0 <= k < f.particles@.len() ==> !improves(
        (#[trigger] f.particles@[k]).pbest_fitness,
        f.global_best_fitness,
    )
    &&& (f.global_best_fitness == o.global_best_fitness && f.global_best_position == o.global_best_position)
        || (improves(f.global_best_fitness, o.global_best_fitness) && exists|k: int|
        0 <= k < f.particles@.len() && f.global_best_fitness == (#[trigger] f.particles@[k]).pbest_fitness
            && f.global_best_position@ == f.particles@[k].pbest_position@)
}

/// `f` is `o` with every particle moved towards `o`'s global best.
pub open spec fn swarm_moved(o: PSO, f: PSO) -> bool {
    &&& f.wf()
    &&& f.same_run(&o)
    &&& f.global_best_position == o.global_best_position
    &&& f.global_best_fitness == o.global_best_fitness
    &&& f.particles@.len() == o.particles@.len()
    &&& forall|k: int| 0 <= k < o.particles@.len() ==> particle_moved(
        o.particles@[k],
        #[trigger] f.particles@[k],
        o.global_best_position@,
        o.parameters,
    )
}

/// `p` has been evaluated once, at its position, which is its personal best.
pub open spec fn evaluated_once(p: Particle) -> bool {
    &&& p.fitness is Some
    &&& p.pbest_fitness == p.fitness
    &&& p.pbest_position@ == p.position@
}

/// The global best is the personal best of some particle, position included.
pub open spec fn global_best_is_a_personal_best(s: PSO) -> bool {
    exists|k: int|
        0 <= k < s.particles@.len() && s.global_best_fitness == (#[trigger] s.particles@[k]).pbest_fitness
            && s.global_best_position@ == s.particles@[k].pbest_position@
}

/// Every particle has been evaluated, and the global best is no worse than
/// any particle's latest fitness.
pub open spec fn best_of_latest(s: PSO) -> bool {
    forall|k: int| 0 <= k < s.particles@.len() ==> (#[trigger] s.particles@[k]).fitness is Some
        && !improves(s.particles@[k].fitness, s.global_best_fitness)
}

/// One round: evaluate every particle, update the global best, move.
pub open spec fn round_run(o: PSO, f: PSO) -> bool {
    exists|a: PSO, b: PSO| swarm_evaluated(o, a) && best_updated(a, b) && swarm_moved(b, f)
}

impl PSO {
    pub open spec fn dim(&self) -> int {
        2 * (self.courses@.len() as int)
    }

    /// Every particle and the global best have one coordinate pair per
    /// section, within the bounds of the update rule; rooms are allocated.
    pub open spec fn wf(&self) -> bool {
        &&& valid_parameters(self.parameters)
        &&& valid_courses(self.courses@)
        &&& self.sum_ruangan >= 1
        &&& self.dim() <= usize::MAX
        &&& self.rooms@ == rooms_of(self.courses@, self.sum_ruangan as int)
        &&& self.global_best_position@.len() == self.dim()
        &&& forall|i: int| 0 <= i < self.dim() ==> 0 <= #[trigger] self.global_best_position@[i] <= MAX_PARAMETER
        &&& forall|k: int| 0 <= k < self.particles@.len() ==> (#[trigger] self.particles@[k]).wf(self.dim())
        &&& forall|k: int| 0 <= k < self.particles@.len() ==> best_evaluated(
            self.courses@,
            self.rooms@,
            self.checker.time_preferences@,
            #[trigger] self.particles@[k],
        )
        &&& self.global_best_fitness is Some ==> fitness_at(
            self.courses@,
            self.rooms@,
            self.checker.time_preferences@,
            self.global_best_position@,
            self.global_best_fitness->0,
        )
    }

    /// The inputs of the run, which no round changes.
    pub open spec fn same_run(&self, o: &PSO) -> bool {
        &&& self.parameters == o.parameters
        &&& self.courses == o.courses
        &&& self.checker == o.checker
        &&& self.rooms == o.rooms
        &&& self.sum_ruangan == o.sum_ruangan
    }

    /// A controller for `courses` with a fresh swarm of `swarm_size`
    /// particles and no global best yet.
    pub fn new(
        courses: Vec<CourseRequest>,
        time_preferences: Vec<TimePreferenceRequest>,
        parameters: PsoParameters,
        sum_ruangan: u64,
    ) -> (r: PSO)
        requires
            valid_parameters(parameters),
            valid_courses(courses@),
            sum_ruangan >= 1,
            2 * courses@.len() <= usize::MAX,
        ensures
            r.wf(),
            r.courses@ == courses@,
            r.checker.time_preferences@ == time_preferences@,
            r.parameters == parameters,
            r.sum_ruangan == sum_ruangan,
            r.particles@.len() == parameters.swarm_size,
            r.global_best_fitness is None,
            forall|i: int| 0 <= i < r.dim() ==> #[trigger] r.global_best_position@[i] == 0,
    {
        let dimension = courses.len() * 2;
        let rooms = allocate_rooms(&courses, sum_ruangan);
        proof {
            assert(rooms@ =~= rooms_of(courses@, sum_ruangan as int));
        }
        let particles = Self::fresh_swarm(parameters.swarm_size, dimension);
        let global_best_position = zeros(dimension);
        PSO {
            particles,
            global_best_position,
            global_best_fitness: None,
            parameters,
            courses,
            checker: ScheduleChecker::new(time_preferences),
            rooms,
            sum_ruangan,
        }
    }

    /// `n` random particles of dimension `dim`.
    fn fresh_swarm(n: usize, dim: usize) -> (r: Vec<Particle>)
        ensures
            r@.len() == n,
            forall|k: int| 0 <= k < n ==> (#[trigger] r@[k]).wf(dim as int),
            forall|k: int| 0 <= k < n ==> (#[trigger] r@[k]).pbest_fitness is None,
    {
        let mut r: Vec<Particle> = Vec::new();
        let mut k: usize = 0;
        while k < n
            invariant
                k <= n,
                r@.len() == k,
                forall|j: int| 0 <= j < k ==> (#[trigger] r@[j]).wf(dim as int),
                forall|j: int| 0 <= j < k ==> (#[trigger] r@[j]).pbest_fitness is None,
            decreases n - k,
        {
            r.push(Particle::new(dim));
            k = k + 1;
        }
        r
    }

    /// The fitness of the timetable that `position` decodes to.
    pub fn evaluate_position(
        position: &Vec<i64>,
        courses: &Vec<CourseRequest>,
        rooms: &Vec<u64>,
        checker: &ScheduleChecker,
    ) -> (r: u64)
        requires
            rooms@.len() == courses@.len(),
            valid_courses(courses@),
        ensures
            fitness_at(courses@, rooms@, checker.time_preferences@, position@, r),
    {
        let schedule = decode_schedule(position, courses, rooms);
        let (f, _) = checker.calculate_fitness(&schedule);
        f
    }

    /// Evaluates every particle and updates its personal best.
    pub fn evaluate_all_particles(&mut self)
        requires
            old(self).wf(),
        ensures
            swarm_evaluated(*old(self), *final(self)),
    {
        let mut rest: Vec<Particle> = Vec::new();
        core::mem::swap(&mut rest, &mut self.particles);
        let ghost orig = rest@;
        let n = rest.len();
        let mut done: Vec<Particle> = Vec::new();
        let mut k: usize = 0;
        while k < n
            invariant
                n == orig.len(),
                k <= n,
                rest@ == orig.skip(k as int),
                done@.len() == k,
                self.same_run(old(self)),
                self.global_best_position == old(self).global_best_position,
                self.global_best_fitness == old(self).global_best_fitness,
                orig == old(self).particles@,
                old(self).wf(),
                forall|j: int| 0 <= j < k ==> (#[trigger] done@[j]).wf(old(self).dim()),
                forall|j: int| 0 <= j < k ==> particle_evaluated(
                    old(self).courses@,
                    old(self).rooms@,
                    old(self).checker.time_preferences@,
                    orig[j],
                    #[trigger] done@[j],
                ),
            decreases n - k,
        {
            let mut p = rest.remove(0);
            proof {
                assert(p == orig[k as int]);
                assert(rest@ =~= orig.skip(k as int + 1));
            }
            let f = Self::evaluate_position(&p.position, &self.courses, &self.rooms, &self.checker);
            p.fitness = Some(f);
            p.update_personal_best();
            done.push(p);
            k = k + 1;
        }
        self.particles = done;
    }

    /// Takes, in particle order, each personal best better than the global
    /// best as the new global best.
    pub fn update_global_best(&mut self)
        requires
            old(self).wf(),
        ensures
            best_updated(*old(self), *final(self)),
    {
        let n = self.particles.len();
        let mut k: usize = 0;
        while k < n
            invariant
                n == self.particles@.len(),
                k <= n,
                self.wf(),
                self.same_run(old(self)),
                self.particles == old(self).particles,
                !improves(old(self).global_best_fitness, self.global_best_fitness),
                forall|j: int| 0 <= j < k ==> !improves((#[trigger] self.particles@[j]).pbest_fitness, self.global_best_fitness),
                (self.global_best_fitness == old(self).global_best_fitness
                    && self.global_best_position == old(self).global_best_position) || (improves(
                    self.global_best_fitness,
                    old(self).global_best_fitness,
                ) && exists|j: int|
                    0 <= j < n && self.global_best_fitness == (#[trigger] self.particles@[j]).pbest_fitness
                        && self.global_best_position@ == self.particles@[j].pbest_position@),
            decreases n - k,
        {
            let better = match self.particles[k].pbest_fitness {
                Some(f) => match self.global_best_fitness {
                    Some(g) => f < g,
                    None => true,
                },
                None => false,
            };
            if better {
                self.global_best_fitness = self.particles[k].pbest_fitness;
                self.global_best_position = crate::particle::copy_of(&self.particles[k].pbest_position);
                proof {
                    assert(self.particles@[k as int].wf(self.dim()));
                }
            }
            k = k + 1;
        }
    }

    /// Moves every particle by the update rule towards the global best.
    pub fn update_all_particles(&mut self)
        requires
            old(self).wf(),
        ensures
            swarm_moved(*old(self), *final(self)),
    {
        let mut rest: Vec<Particle> = Vec::new();
        core::mem::swap(&mut rest, &mut self.particles);
        let ghost orig = rest@;
        let n = rest.len();
        let dim = self.courses.len() * 2;
        let mut done: Vec<Particle> = Vec::new();
        let mut k: usize = 0;
        while k < n
            invariant
                n == orig.len(),
                k <= n,
                dim as int == old(self).dim(),
                rest@ == orig.skip(k as int),
                done@.len() == k,
                self.same_run(old(self)),
                self.global_best_position == old(self).global_best_position,
                self.global_best_fitness == old(self).global_best_fitness,
                orig == old(self).particles@,
                old(self).wf(),
                forall|j: int| 0 <= j < k ==> (#[trigger] done@[j]).wf(old(self).dim()),
                forall|j: int| 0 <= j < k ==> particle_moved(
                    orig[j],
                    #[trigger] done@[j],
                    old(self).global_best_position@,
                    old(self).parameters,
                ),
            decreases n - k,
        {
            let mut p = rest.remove(0);
            proof {
                assert(p == orig[k as int]);
                assert(rest@ =~= orig.skip(k as int + 1));
                assert(p.wf(old(self).dim()));
            }
            let ghost o = p;
            let r1 = unit_draws(dim);
            let r2 = unit_draws(dim);
            let prm = self.parameters;
            p.update_velocity(
                &self.global_best_position,
                prm.inertia_weight,
                prm.cognitive_weight,
                prm.social_weight,
                prm.velocity_clamp,
                &r1,
                &r2,
            );
            let ghost mid = p;
            p.update_position(prm.position_clamp);
            proof {
                assert forall|i: int| 0 <= i < dim implies #[trigger] p.velocity@[i] == next_velocity(
                    o.velocity@[i] as int,
                    o.position@[i] as int,
                    o.pbest_position@[i] as int,
                    old(self).global_best_position@[i] as int,
                    prm.inertia_weight as int,
                    prm.cognitive_weight as int,
                    prm.social_weight as int,
                    prm.velocity_clamp as int,
                    r1@[i] as int,
                    r2@[i] as int,
                ) by {
                    assert(p.velocity@[i] == mid.velocity@[i]);
                }
                assert forall|i: int| 0 <= i < dim implies 0 <= #[trigger] r1@[i] < SCALE && 0 <= r2@[i] < SCALE by {}
                assert forall|i: int| 0 <= i < dim implies #[trigger] p.position@[i] == clamp(
                    o.position@[i] + p.velocity@[i],
                    0,
                    prm.position_clamp as int,
                ) by {
                    assert(mid.position@[i] == o.position@[i]);
                }
                assert(particle_moved(o, p, old(self).global_best_position@, old(self).parameters));
            }
            done.push(p);
            k = k + 1;
        }
        self.particles = done;
    }
}

impl PSO {
    /// Replaces the swarm by fresh random particles, clears the global best,
    /// then evaluates the new swarm once and takes its best.
    pub fn initialize_swarm(&mut self)
        requires
            old(self).wf(),
        ensures
            final(self).wf(),
            final(self).same_run(old(self)),
            final(self).particles@.len() == old(self).parameters.swarm_size,
            final(self).global_best_fitness is Some,
            forall|k: int| 0 <= k < final(self).particles@.len() ==> evaluated_once(#[trigger] final(self).particles@[k]),
            forall|k: int| 0 <= k < final(self).particles@.len() ==> !improves(
                (#[trigger] final(self).particles@[k]).pbest_fitness,
                final(self).global_best_fitness,
            ),
            global_best_is_a_personal_best(*final(self)),
    {
        let dimension = self.courses.len() * 2;
        self.particles = Self::fresh_swarm(self.parameters.swarm_size, dimension);
        self.global_best_position = zeros(dimension);
        self.global_best_fitness = None;
        let ghost fresh = *self;
        self.evaluate_all_particles();
        let ghost a = *self;
        self.update_global_best();
        proof {
            assert forall|k: int| 0 <= k < self.particles@.len() implies evaluated_once(#[trigger] self.particles@[k]) by {
                assert(particle_evaluated(a.courses@, a.rooms@, a.checker.time_preferences@, fresh.particles@[k], a.particles@[k]));
            }
            assert(particle_evaluated(a.courses@, a.rooms@, a.checker.time_preferences@, fresh.particles@[0], self.particles@[0]));
            assert(self.particles@[0].pbest_fitness is Some);
            assert(!improves(self.particles@[0].pbest_fitness, self.global_best_fitness));
        }
    }

    /// One round of the search, or none: with the stop signal set, or after
    /// the last round, nothing changes. Otherwise one round runs, and it
    /// stops early when the global best has no violations.
    pub fn step(&mut self, iteration: usize, stop_requested: bool) -> (r: RoundOutcome)
        requires
            old(self).wf(),
        ensures
            final(self).wf(),
            final(self).same_run(old(self)),
            stop_requested ==> r == RoundOutcome::Cancelled && *final(self) == *old(self),
            !stop_requested && iteration >= old(self).parameters.max_iterations ==> r == RoundOutcome::Completed
                && *final(self) == *old(self),
            !stop_requested && iteration < old(self).parameters.max_iterations ==> {
                &&& round_run(*old(self), *final(self))
                &&& best_of_latest(*final(self))
                &&& (r == RoundOutcome::EarlyStopped <==> final(self).global_best_fitness == Some(0u64))
                &&& (r == RoundOutcome::Continue <==> final(self).global_best_fitness != Some(0u64))
            },
            !improves(old(self).global_best_fitness, final(self).global_best_fitness),
    {
        if stop_requested {
            return RoundOutcome::Cancelled;
        }
        if iteration >= self.parameters.max_iterations {
            return RoundOutcome::Completed;
        }
        let ghost o = *self;
        self.evaluate_all_particles();
        let ghost a = *self;
        self.update_global_best();
        let ghost b = *self;
        self.update_all_particles();
        proof {
            assert(swarm_evaluated(o, a) && best_updated(a, b) && swarm_moved(b, *self));
            assert forall|k: int| 0 <= k < self.particles@.len() implies (#[trigger] self.particles@[k]).fitness is Some
                && !improves(self.particles@[k].fitness, self.global_best_fitness) by {
                assert(particle_evaluated(o.courses@, o.rooms@, o.checker.time_preferences@, o.particles@[k], a.particles@[k]));
                assert(b.particles@[k] == a.particles@[k]);
                assert(!improves(b.particles@[k].pbest_fitness, b.global_best_fitness));
                assert(particle_moved(b.particles@[k], self.particles@[k], b.global_best_position@, b.parameters));
            }
        }
        match self.global_best_fitness {
            Some(f) => if f == 0 {
                RoundOutcome::EarlyStopped
            } else {
                RoundOutcome::Continue
            },
            None => RoundOutcome::Continue,
        }
    }

    /// A progress snapshot carrying the global best.
    pub fn progress(
        &self,
        iteration: usize,
        all_best_fitness: Option<Vec<u64>>,
        current_run: Option<usize>,
        total_runs: Option<usize>,
        is_finished: bool,
    ) -> (r: OptimizationProgress)
        ensures
            r.iteration == iteration,
            r.best_fitness == self.global_best_fitness,
            r.all_best_fitness == all_best_fitness,
            r.current_run == current_run,
            r.total_runs == total_runs,
            r.is_finished == is_finished,
    {
        OptimizationProgress {
            iteration,
            best_fitness: self.global_best_fitness,
            all_best_fitness,
            current_run,
            total_runs,
            is_finished,
        }
    }

    /// Runs the search: a fresh swarm, evaluated once, then rounds until the
    /// last one, an early stop, or the stop signal (read before each round).
    /// Returns the global best and the progress events: one per round that
    /// went on, then a finished one.
    pub fn optimize(&mut self, stop: &AtomicBool) -> (r: OptimizationResult)
        requires
            old(self).wf(),
        ensures
            final(self).wf(),
            final(self).same_run(old(self)),
            final(self).particles@.len() == old(self).parameters.swarm_size,
            r.best_position@ == final(self).global_best_position@,
            r.best_position@.len() == 2 * old(self).courses@.len(),
            r.best_fitness == final(self).global_best_fitness,
            r.best_fitness is Some,
            // The result is the fitness of the returned position, no worse
            // than the initial swarm's best, any personal best, or any
            // particle's latest evaluation.
            fitness_at(old(self).courses@, old(self).rooms@, old(self).checker.time_preferences@, r.best_position@, r.best_fitness->0),
            r.initial_best_fitness is Some,
            !improves(r.initial_best_fitness, r.best_fitness),
            forall|k: int| 0 <= k < final(self).particles@.len() ==> !improves(
                (#[trigger] final(self).particles@[k]).pbest_fitness,
                r.best_fitness,
            ),
            best_of_latest(*final(self)),
            global_best_is_a_personal_best(*final(self)),
            // How the run ended.
            r.rounds <= old(self).parameters.max_iterations,
            r.outcome != RoundOutcome::Continue,
            r.outcome == RoundOutcome::Completed ==> r.rounds == old(self).parameters.max_iterations,
            r.outcome == RoundOutcome::EarlyStopped ==> r.rounds >= 1 && r.best_fitness == Some(0u64),
            r.rounds < old(self).parameters.max_iterations ==> r.outcome == RoundOutcome::Cancelled
                || r.outcome == RoundOutcome::EarlyStopped,
            r.initial_best_fitness == Some(0u64) ==> r.rounds <= 1 && r.best_fitness == Some(0u64),
            // With no round run, the result is the initial swarm, each
            // particle evaluated once.
            r.rounds == 0 ==> r.best_fitness == r.initial_best_fitness && forall|k: int|
                0 <= k < final(self).particles@.len() ==> evaluated_once(#[trigger] final(self).particles@[k]),
            // The events.
            r.events@.len() == if r.outcome == RoundOutcome::EarlyStopped { r.rounds as int } else { r.rounds + 1 },
            r.events@.last().is_finished,
            r.events@.last().best_fitness == r.best_fitness,
            r.events@.last().iteration == r.rounds,
            forall|k: int| 0 <= k < r.events@.len() - 1 ==> !(#[trigger] r.events@[k]).is_finished && r.events@[k].iteration
                == k + 1,
            forall|k: int| 0 <= k < r.events@.len() - 1 ==> (#[trigger] r.events@[k]).iteration <= r.events@[k + 1].iteration,
            forall|k: int| 0 <= k < r.events@.len() - 1 ==> !improves(
                (#[trigger] r.events@[k]).best_fitness,
                r.events@[k + 1].best_fitness,
            ),
    {
        self.initialize_swarm();
        let ghost init = *self;
        let initial = self.global_best_fitness;
        let max = self.parameters.max_iterations;
        let mut events: Vec<OptimizationProgress> = Vec::new();
        let mut it: usize = 0;
        let mut outcome = RoundOutcome::Continue;
        while outcome == RoundOutcome::Continue
            invariant
                self.wf(),
                self.same_run(old(self)),
                self.particles@.len() == old(self).parameters.swarm_size,
                self.global_best_fitness is Some,
                initial is Some,
                initial == init.global_best_fitness,
                !improves(initial, self.global_best_fitness),
                initial == Some(0u64) ==> it == 0,
                best_of_latest(*self),
                global_best_is_a_personal_best(*self),
                forall|k: int| 0 <= k < self.particles@.len() ==> !improves(
                    (#[trigger] self.particles@[k]).pbest_fitness,
                    self.global_best_fitness,
                ),
                forall|k: int| 0 <= k < init.particles@.len() ==> evaluated_once(#[trigger] init.particles@[k]),
                (it == 0 && outcome != RoundOutcome::EarlyStopped) ==> *self == init,
                max == old(self).parameters.max_iterations,
                it <= max,
                outcome == RoundOutcome::Completed ==> it == max,
                outcome == RoundOutcome::EarlyStopped ==> it < max && self.global_best_fitness == Some(0u64),
                events@.len() == it,
                forall|k: int| 0 <= k < it ==> !(#[trigger] events@[k]).is_finished && events@[k].iteration == k + 1,
                forall|k: int| 0 <= k < it - 1 ==> !improves(
                    (#[trigger] events@[k]).best_fitness,
                    events@[k + 1].best_fitness,
                ),
                it > 0 ==> !improves(events@[it - 1].best_fitness, self.global_best_fitness),
            decreases max - it + if outcome == RoundOutcome::Continue { 1int } else { 0int },
        {
            let stop_now = stop.load(Ordering::SeqCst);
            let ghost before = *self;
            outcome = self.step(it, stop_now);
            proof {
                if it > 0 {
                    let e = events@[it - 1].best_fitness;
                    assert(!improves(e, before.global_best_fitness));
                    assert(!improves(before.global_best_fitness, self.global_best_fitness));
                    assert(!improves(e, self.global_best_fitness));
                }
                if !stop_now && it < max {
                    let (a, b) = choose|a: PSO, b: PSO| swarm_evaluated(before, a) && best_updated(a, b) && swarm_moved(b, *self);
                    assert(best_updated(a, b));
                    if b.global_best_fitness != a.global_best_fitness {
                        let k = choose|k: int| 0 <= k < b.particles@.len() && b.global_best_fitness == (#[trigger] b.particles@[k]).pbest_fitness
                            && b.global_best_position@ == b.particles@[k].pbest_position@;
                        assert(particle_moved(b.particles@[k], self.particles@[k], b.global_best_position@, b.parameters));
                    } else {
                        let k = choose|k: int| 0 <= k < before.particles@.len() && before.global_best_fitness == (#[trigger] before.particles@[k]).pbest_fitness
                            && before.global_best_position@ == before.particles@[k].pbest_position@;
                        assert(particle_evaluated(before.courses@, before.rooms@, before.checker.time_preferences@, before.particles@[k], a.particles@[k]));
                        assert(!improves(a.particles@[k].pbest_fitness, a.global_best_fitness));
                        assert(particle_moved(b.particles@[k], self.particles@[k], b.global_best_position@, b.parameters));
                        assert(self.particles@[k].pbest_fitness == a.particles@[k].pbest_fitness);
                        assert(a.particles@[k].pbest_fitness == before.particles@[k].pbest_fitness) by {
                            if improves(a.particles@[k].fitness, before.particles@[k].pbest_fitness) {
                                assert(!improves(before.particles@[k].pbest_fitness, before.global_best_fitness));
                            }
                        }
                        assert(self.particles@[k].pbest_position == before.particles@[k].pbest_position);
                    }
                }
            }
            if outcome == RoundOutcome::Continue {
                let ev = self.progress(it + 1, None, None, None, false);
                events.push(ev);
                it = it + 1;
            }
        }
        let rounds: usize = if outcome == RoundOutcome::EarlyStopped { it + 1 } else { it };
        let last = self.progress(rounds, None, None, None, true);
        events.push(last);
        OptimizationResult {
            best_position: crate::particle::copy_of(&self.global_best_position),
            best_fitness: self.global_best_fitness,
            initial_best_fitness: initial,
            events,
            outcome,
            rounds,
        }
    }

    /// Decodes a position into a timetable (see `decoder::position_to_schedule`).
    pub fn position_to_schedule(position: &Vec<i64>, courses: &Vec<CourseRequest>, sum_ruangan: u64) -> (r: Vec<
        crate::model::OptimizedCourse,
    >)
        requires
            sum_ruangan >= 1,
            valid_courses(courses@),
        ensures
            decodes_to(courses@, position@, rooms_of(courses@, sum_ruangan as int), r@),
    {
        crate::decoder::position_to_schedule(position, courses, sum_ruangan)
    }

    /// The fitness and conflict report of the global best's timetable.
    pub fn evaluate_best_position(&self) -> (r: (u64, ConflictInfo))
        requires
            self.wf(),
        ensures
            exists|s: Seq<crate::model::OptimizedCourse>|
                decodes_to(self.courses@, self.global_best_position@, self.rooms@, s)
                && r.0 == fitness_of(self.checker.time_preferences@, s)
                && reports(self.checker.time_preferences@, s, r.1),
    {
        let schedule = decode_schedule(&self.global_best_position, &self.courses, &self.rooms);
        self.checker.calculate_fitness(&schedule)
    }
}

/// `n` uniform draws from `[0, 1)`.
fn unit_draws(n: usize) -> (r: Vec<i64>)
    ensures
        r@.len() == n,
        forall|i: int| 0 <= i < n ==> 0 <= #[trigger] r@[i] < SCALE,
{
    let mut r: Vec<i64> = Vec::new();
    let mut i: usize = 0;
    while i < n
        invariant
            i <= n,
            r@.len() == i,
            forall|k: int| 0 <= k < i ==> 0 <= #[trigger] r@[k] < SCALE,
        decreases n - i,
    {
        r.push(random_between(0, SCALE));
        i = i + 1;
    }
    r
}

/// `n` zero coordinates.
fn zeros(n: usize) -> (r: Vec<i64>)
    ensures
        r@.len() == n,
        forall|i: int| 0 <= i < n ==> #[trigger] r@[i] == 0,
{
    let mut r: Vec<i64> = Vec::new();
    let mut i: usize = 0;
    while i < n
        invariant
            i <= n,
            r@.len() == i,
            forall|k: int| 0 <= k < i ==> #[trigger] r@[k] == 0,
        decreases n - i,
    {
        r.push(0);
        i = i + 1;
    }
    r
}

} // verus!
