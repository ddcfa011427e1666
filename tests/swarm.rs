use std::sync::atomic::AtomicBool;
use timetable_pso::model::{CourseRequest, PsoParameters, TimePreferenceRequest};
use timetable_pso::optimizer::{RoundOutcome, PSO};
use timetable_pso::particle::Particle;

const S: i64 = 1_000_000;

fn course(id: u64, kelas: u64, sks: u64, dosen: u64) -> CourseRequest {
    CourseRequest { id_jadwal: id, id_matkul: id, id_dosen: dosen, id_waktu: 1, id_kelas: kelas, semester: 1, sks, prodi: 1 }
}

fn params(swarm_size: usize, max_iterations: usize) -> PsoParameters {
    PsoParameters {
        swarm_size,
        max_iterations,
        cognitive_weight: 3 * S / 2,
        social_weight: 3 * S / 2,
        inertia_weight: 7 * S / 10,
        velocity_clamp: S / 2,
        position_clamp: S,
    }
}

fn busy_lecturer(id: u64) -> TimePreferenceRequest {
    TimePreferenceRequest {
        id_dosen: id,
        senin_pagi: false,
        senin_malam: false,
        selasa_pagi: false,
        selasa_malam: false,
        rabu_pagi: false,
        rabu_malam: false,
        kamis_pagi: false,
        kamis_malam: false,
        jumat_pagi: false,
        jumat_malam: false,
    }
}

fn clashing_courses() -> Vec<CourseRequest> {
    (0..6).map(|i| course(i, 1 + i % 2, 3, 1)).collect()
}

#[test]
fn stop_before_first_round_keeps_initial_best() {
    let mut pso = PSO::new(clashing_courses(), vec![busy_lecturer(1)], params(5, 1000), 1);
    let stop = AtomicBool::new(true);
    let r = pso.optimize(&stop);
    let (position, best, events) = (r.best_position.clone(), r.best_fitness, r.events.clone());
    assert_eq!(events.len(), 1);
    assert!(events[0].is_finished);
    assert_eq!(events[0].best_fitness, best);
    assert_eq!(position.len(), 12);
    let initial = pso.particles.iter().filter_map(|p| p.pbest_fitness).min();
    assert_eq!(best, initial);
    assert_eq!(best, r.initial_best_fitness);
    assert!(best.unwrap() >= 6);
    assert_eq!(r.outcome, RoundOutcome::Cancelled);
    assert_eq!(r.rounds, 0);
    assert_eq!(events[0].iteration, 0);
    for p in &pso.particles {
        assert_eq!(p.pbest_position, p.position);
        assert_eq!(p.pbest_fitness, p.fitness);
    }
}

#[test]
fn conflict_free_swarm_stops_after_first_round() {
    let mut pso = PSO::new(vec![course(0, 1, 2, 1)], vec![], params(3, 50), 2);
    let stop = AtomicBool::new(false);
    let r = pso.optimize(&stop);
    let (position, best, events) = (r.best_position.clone(), r.best_fitness, r.events.clone());
    assert_eq!(best, Some(0));
    assert_eq!(events.len(), 1);
    assert!(events[0].is_finished);
    assert_eq!(events[0].best_fitness, Some(0));
    assert_eq!(events[0].iteration, 1);
    assert_eq!(position.len(), 2);
    assert_eq!(r.outcome, RoundOutcome::EarlyStopped);
    assert_eq!(r.rounds, 1);
    assert_eq!(r.initial_best_fitness, Some(0));
}

#[test]
fn run_is_bounded_and_best_never_worsens() {
    let mut pso = PSO::new(clashing_courses(), vec![busy_lecturer(1)], params(4, 7), 1);
    let stop = AtomicBool::new(false);
    let r = pso.optimize(&stop);
    let (position, best, events) = (r.best_position.clone(), r.best_fitness, r.events.clone());
    assert_eq!(position.len(), 12);
    assert!(events.len() <= 8);
    assert!(events.last().unwrap().is_finished);
    for (k, e) in events.iter().enumerate().take(events.len() - 1) {
        assert!(!e.is_finished);
        assert_eq!(e.iteration, k + 1);
    }
    for w in events.windows(2) {
        assert!(w[1].best_fitness.unwrap() <= w[0].best_fitness.unwrap());
    }
    assert_eq!(events.last().unwrap().best_fitness, best);
    assert!(r.rounds <= 7);
    assert_eq!(events.last().unwrap().iteration, r.rounds);
    assert!(best.unwrap() <= r.initial_best_fitness.unwrap());
    if r.rounds < 7 {
        assert_eq!(r.outcome, RoundOutcome::EarlyStopped);
    } else {
        assert_eq!(r.outcome, RoundOutcome::Completed);
    }
    for w in events.windows(2) {
        assert!(w[0].iteration <= w[1].iteration);
    }
}

#[test]
fn zero_rounds_still_evaluate_the_swarm() {
    let mut pso = PSO::new(clashing_courses(), vec![], params(2, 0), 3);
    let stop = AtomicBool::new(false);
    let r = pso.optimize(&stop);
    let (best, events) = (r.best_fitness, r.events.clone());
    assert!(best.is_some());
    assert_eq!(best, r.initial_best_fitness);
    assert_eq!(events.len(), 1);
    assert_eq!(r.outcome, RoundOutcome::Completed);
    assert_eq!(r.rounds, 0);
}

#[test]
fn step_honours_stop_and_limit() {
    let mut pso = PSO::new(clashing_courses(), vec![], params(2, 3), 1);
    pso.initialize_swarm();
    let before = pso.global_best_fitness;
    assert_eq!(pso.step(0, true), RoundOutcome::Cancelled);
    assert_eq!(pso.step(3, false), RoundOutcome::Completed);
    assert_eq!(pso.global_best_fitness, before);
    let r = pso.step(0, false);
    assert!(r == RoundOutcome::Continue || r == RoundOutcome::EarlyStopped);
    assert!(pso.global_best_fitness.unwrap() <= before.unwrap());
}

#[test]
fn best_position_evaluates_to_best_fitness() {
    let mut pso = PSO::new(clashing_courses(), vec![busy_lecturer(1)], params(3, 4), 2);
    let stop = AtomicBool::new(false);
    let r = pso.optimize(&stop);
    let (position, best) = (r.best_position, r.best_fitness);
    let (fitness, info) = pso.evaluate_best_position();
    assert!(pso.particles.iter().all(|p| p.pbest_fitness.unwrap() >= fitness));
    assert_eq!(Some(fitness), best);
    assert_eq!(info.total_conflicts, fitness);
    let schedule = PSO::position_to_schedule(&position, &pso.courses, 2);
    assert_eq!(schedule.len(), 6);
    assert_eq!(PSO::evaluate_position(&position, &pso.courses, &pso.rooms, &pso.checker), fitness);
}

#[test]
fn new_particle_is_stratified() {
    let p = Particle::new(8);
    assert_eq!(p.position.len(), 8);
    assert_eq!(p.velocity.len(), 8);
    assert_eq!(p.pbest_position, p.position);
    assert_eq!(p.pbest_fitness, None);
    let mut sorted = p.position.clone();
    sorted.sort();
    for (i, v) in sorted.iter().enumerate() {
        let lo = i as i64 * S / 8;
        let hi = (i as i64 + 1) * S / 8;
        assert!(lo <= *v && *v < hi);
    }
    assert!(p.velocity.iter().all(|v| -S <= *v && *v < S));
}

#[test]
fn velocity_follows_the_update_rule() {
    let mut p = Particle::from_parts(vec![200_000, 0], vec![500_000, -1]);
    p.pbest_position = vec![400_000, 0];
    p.update_velocity(&vec![600_000, 0], 700_000, 1_500_000, 1_500_000, 1_000_000, &vec![500_000, 0], &vec![500_000, 0]);
    // 0.7 * 0.5 + 1.5 * 0.5 * 0.2 + 1.5 * 0.5 * 0.4 = 0.8; 0.7 * -0.000001 rounds down.
    assert_eq!(p.velocity, vec![800_000, -1]);
    p.update_velocity(&vec![600_000, 0], 700_000, 1_500_000, 1_500_000, 300_000, &vec![S, 0], &vec![S, 0]);
    assert_eq!(p.velocity, vec![300_000, -1]);
    assert_eq!(p.position, vec![200_000, 0]);
}

#[test]
fn position_moves_and_clamps() {
    let mut p = Particle::from_parts(vec![900_000, 100_000, 500_000], vec![300_000, -300_000, 100_000]);
    p.update_position(1_000_000);
    assert_eq!(p.position, vec![1_000_000, 0, 600_000]);
}

#[test]
fn personal_best_takes_only_improvements() {
    let mut p = Particle::from_parts(vec![1, 2], vec![0, 0]);
    p.update_personal_best();
    assert_eq!(p.pbest_fitness, None);
    p.fitness = Some(5);
    p.update_personal_best();
    assert_eq!(p.pbest_fitness, Some(5));
    p.position = vec![3, 4];
    p.fitness = Some(5);
    p.update_personal_best();
    assert_eq!(p.pbest_position, vec![1, 2]);
    p.fitness = Some(2);
    p.update_personal_best();
    assert_eq!(p.pbest_fitness, Some(2));
    assert_eq!(p.pbest_position, vec![3, 4]);
}

#[test]
fn new_particles_are_shuffled() {
    let sorted_count = (0..5)
        .map(|_| Particle::new(8).position)
        .filter(|p| p.windows(2).all(|w| w[0] <= w[1]))
        .count();
    assert!(sorted_count < 5);
}
