use time_scheduler::{Activity, Config, Penalty, Schedule};

fn act(priority: usize, topic: usize) -> Activity {
    Activity { priority, topic }
}

fn scenario() -> Schedule<Activity> {
    Schedule::new(2, 1, vec![act(10, 1), act(5, 1), act(1, 2)])
}

fn grid_state(s: &Schedule<Activity>) -> (Vec<Option<Activity>>, Vec<Activity>) {
    (s.slots().clone(), s.get_unscheduled_activities())
}

/// The reference cost formula, as the external fixture defines it.
fn reference_penalty(s: &Schedule<Activity>) -> f32 {
    let mut penalty = 0.0f32;
    for a in s.get_unscheduled_activities() {
        penalty += a.priority as f32;
    }
    penalty += 10000.0 * s.empty_slots_count() as f32;
    let (np, nt) = s.dimensions();
    for t in 0..nt {
        let mut vars: Vec<f32> = Vec::new();
        let mut topics: Vec<usize> = Vec::new();
        for p in 0..np {
            if let Some(a) = s.get_activity_at(p, t).unwrap() {
                vars.push((a.priority as f32) * (a.priority as f32));
                topics.push(a.topic);
            }
        }
        vars.sort_by(|a, b| b.partial_cmp(a).unwrap());
        let big3: f32 = vars.iter().take(3).sum();
        penalty += big3.sqrt();
        let mut seen: Vec<usize> = Vec::new();
        let mut tc = 0.0f32;
        for &tp in &topics {
            if !seen.contains(&tp) {
                seen.push(tp);
                let c = topics.iter().filter(|&&x| x == tp).count() as f32;
                tc += c * c;
            }
        }
        penalty += 10.0 * tc;
    }
    for p in 0..np {
        for t in 0..nt {
            if let Some(a) = s.get_activity_at(p, t).unwrap() {
                penalty += 0.1 * a.priority as f32 * p as f32;
            }
        }
    }
    penalty
}

/// Order-preserving embedding of a non-negative float penalty into u64.
fn reference_penalty_bits(s: &Schedule<Activity>) -> u64 {
    reference_penalty(s).to_bits() as u64
}

#[test]
fn concrete_scenario_reference_penalty_and_improvement() {
    let mut s = scenario();
    let initial = reference_penalty(&s);
    // missed 1, no empty cells, sqrt(125) priority conflict, topic charge
    // 10 * 2^2, lateness 0.5.
    let expected = 1.0 + 125.0f32.sqrt() + 40.0 + 0.5;
    assert!((initial - expected).abs() < 1e-3);
    let mut rng = fastrand::Rng::with_seed(1);
    s.improve_with_penalty(reference_penalty_bits, &mut rng, Some(50), false, None);
    let final_penalty = reference_penalty(&s);
    assert!(final_penalty < initial);
}

#[test]
fn concrete_scenario_fixture_improvement_is_exact() {
    let mut s = scenario();
    assert_eq!(s.penalty(), 526);
    let mut rng = fastrand::Rng::with_seed(1);
    let r = s.improve(&mut rng, Some(50), false, None);
    // The single best-improving swap moves the priority-5 activity to the
    // overflow pool and schedules the topic-2 activity in its place.
    assert_eq!(r, 351);
    assert_eq!(s.penalty(), 351);
    assert_eq!(s.get_unscheduled_activities(), vec![act(5, 1)]);
}

#[test]
fn a_local_optimum_is_left_unchanged() {
    // One noise-free run drives the scenario into a state no single swap
    // improves; running the engine again must leave that state untouched.
    let mut s = scenario();
    let mut rng = fastrand::Rng::with_seed(1);
    s.improve(&mut rng, Some(50), false, None);
    assert_eq!(s.penalty(), 351);
    let stuck = grid_state(&s);
    let r = s.improve(&mut rng, Some(25), false, Some(0));
    assert_eq!(r, 351);
    assert_eq!(grid_state(&s), stuck);
}

#[test]
fn zero_budget_is_a_no_op() {
    let mut s = scenario();
    let before = grid_state(&s);
    let p_before = s.penalty();
    let mut rng = fastrand::Rng::with_seed(3);
    let r = s.improve(&mut rng, Some(0), false, None);
    assert_eq!(grid_state(&s), before);
    assert_eq!(r, p_before);
    let mut rng2 = fastrand::Rng::with_seed(3);
    let r2 = s.improve(&mut rng2, Some(0), true, Some(0));
    assert_eq!(grid_state(&s), before);
    assert_eq!(r2, p_before);
}

#[test]
fn improvement_is_monotonic_with_noise_and_restarts() {
    let mut rng = fastrand::Rng::with_seed(99);
    let acts = Activity::randoms(&mut rng, 10);
    let mut s = Schedule::new(3, 2, acts);
    let initial = s.penalty();
    let r = s.improve(&mut rng, Some(20), true, Some(3));
    assert!(r <= initial);
    assert_eq!(s.penalty(), r);
}

#[test]
fn improvement_is_monotonic_under_proportional_budget() {
    let mut rng = fastrand::Rng::with_seed(5);
    let acts = Activity::randoms(&mut rng, 8);
    let mut s = Schedule::new(2, 2, acts);
    let initial = s.penalty();
    let config = Config::new().max_swaps(30).restarts_proportional(4).with_noise();
    let (r, _) = s.improve_with_config(&|x: &Schedule<Activity>| x.penalty(), &mut rng, &config);
    assert!(r <= initial);
    assert_eq!(s.penalty(), r);
}

#[test]
fn identical_seeds_give_identical_results() {
    let mut rng_a = fastrand::Rng::with_seed(2024);
    let acts = Activity::randoms(&mut rng_a, 12);

    let mut s1 = Schedule::new(3, 2, acts.clone());
    let mut s2 = Schedule::new(3, 2, acts);

    let mut rng1 = fastrand::Rng::with_seed(77);
    let mut rng2 = fastrand::Rng::with_seed(77);
    let r1 = s1.improve(&mut rng1, Some(25), true, Some(2));
    let r2 = s2.improve(&mut rng2, Some(25), true, Some(2));

    assert_eq!(r1, r2);
    assert_eq!(grid_state(&s1), grid_state(&s2));
}

#[test]
fn elapsed_timeout_commits_the_initial_state() {
    let mut s = scenario();
    let before = grid_state(&s);
    let p_before = s.penalty();
    let mut rng = fastrand::Rng::with_seed(8);

    let config = Config::new().max_swaps(50).restarts(3).timeout_millis(0);
    let (r, _) = s.improve_with_config(&|x: &Schedule<Activity>| x.penalty(), &mut rng, &config);
    assert_eq!(grid_state(&s), before);
    assert_eq!(r, p_before);

    let single = Config::new().max_swaps(50).timeout_millis(0);
    let (r2, _) = s.improve_with_config(&|x: &Schedule<Activity>| x.penalty(), &mut rng, &single);
    assert_eq!(grid_state(&s), before);
    assert_eq!(r2, p_before);
}

#[test]
fn restarts_never_worsen_the_committed_penalty() {
    // The committed grid is the best snapshot across all runs, so more
    // restarts can only match or beat the single-run outcome.
    let mut rng_a = fastrand::Rng::with_seed(11);
    let acts = Activity::randoms(&mut rng_a, 9);

    let mut single = Schedule::new(2, 2, acts.clone());
    let mut multi = Schedule::new(2, 2, acts);
    let initial = single.penalty();

    let mut rng1 = fastrand::Rng::with_seed(500);
    let r_single = single.improve(&mut rng1, Some(10), false, None);
    let mut rng2 = fastrand::Rng::with_seed(500);
    let r_multi = multi.improve(&mut rng2, Some(10), false, Some(4));

    assert!(r_single <= initial);
    assert!(r_multi <= initial);
    assert!(r_multi <= r_single);
}

#[test]
fn engine_handles_degenerate_dimensions() {
    // With zero places everything is unscheduled; swaps only shuffle the
    // overflow pool, so the penalty (all-missed) cannot change.
    let acts = vec![act(10, 1), act(5, 1), act(1, 2)];
    let mut s = Schedule::new(0, 4, acts);
    let initial = s.penalty();
    assert_eq!(initial, 160);
    let mut rng = fastrand::Rng::with_seed(6);
    let r = s.improve(&mut rng, Some(5), true, Some(1));
    assert_eq!(r, 160);
    assert_eq!(s.get_unscheduled_activities().len(), 3);
    assert_eq!(s.empty_slots_count(), 0);
}

#[test]
fn engine_handles_an_empty_grid() {
    // No activities and no cells: there is no location at all, and noise
    // probes have nothing to draw.
    let mut s = Schedule::new(0, 0, Vec::<Activity>::new());
    let mut rng = fastrand::Rng::with_seed(9);
    let r = s.improve(&mut rng, Some(10), true, Some(2));
    assert_eq!(r, 0);
    assert_eq!(s.penalty(), 0);
}

#[test]
fn config_builder_assembles_all_fields() {
    let c = Config::new();
    assert_eq!(c.nswaps, None);
    assert!(!c.noise);
    assert_eq!(c.restarts, None);
    assert!(!c.proportional);
    assert_eq!(c.timeout_millis, None);

    let c = Config::new().max_swaps(9).with_noise().restarts(4).timeout_millis(250);
    assert_eq!(c.nswaps, Some(9));
    assert!(c.noise);
    assert_eq!(c.restarts, Some(4));
    assert!(!c.proportional);
    assert_eq!(c.timeout_millis, Some(250));

    let c = Config::new().restarts_proportional(6);
    assert_eq!(c.restarts, Some(6));
    assert!(c.proportional);

    let d = Config::default();
    assert_eq!(d.nswaps, None);
    assert_eq!(d.restarts, None);
}

#[test]
fn random_activities_respect_their_ranges() {
    let mut rng = fastrand::Rng::with_seed(123);
    let acts = Activity::randoms(&mut rng, 200);
    assert_eq!(acts.len(), 200);
    for a in &acts {
        assert!(a.priority <= 100);
        assert!(a.topic >= 1 && a.topic <= 3);
    }
    let mut rng2 = fastrand::Rng::with_seed(124);
    let other = Activity::randoms(&mut rng2, 200);
    assert_ne!(acts, other);
}
