use time_scheduler::{Activity, BoundsError, Loc, Schedule};

fn act(priority: usize, topic: usize) -> Activity {
    Activity { priority, topic }
}

fn all_payloads(s: &Schedule<Activity>) -> Vec<Activity> {
    let (np, nt) = s.dimensions();
    let mut v: Vec<Activity> = Vec::new();
    for p in 0..np {
        for t in 0..nt {
            if let Some(a) = s.get_activity_at(p, t).unwrap() {
                v.push(a);
            }
        }
    }
    for a in s.get_unscheduled_activities() {
        v.push(a);
    }
    v.sort_by(|a, b| (a.priority, a.topic).cmp(&(b.priority, b.topic)));
    v
}

#[test]
fn construction_fills_row_major_then_overflow() {
    let acts = vec![act(10, 1), act(5, 1), act(1, 2)];
    let s = Schedule::new(2, 1, acts);
    assert_eq!(s.dimensions(), (2, 1));
    assert_eq!(s.get_activity_at(0, 0).unwrap(), Some(act(10, 1)));
    assert_eq!(s.get_activity_at(1, 0).unwrap(), Some(act(5, 1)));
    assert_eq!(s.get_unscheduled_activities(), vec![act(1, 2)]);
    assert_eq!(s.empty_slots_count(), 0);
}

#[test]
fn construction_row_major_order_within_place() {
    // All times for place 0 come first, then place 1.
    let acts = vec![act(1, 1), act(2, 1), act(3, 1), act(4, 1)];
    let s = Schedule::new(2, 2, acts);
    assert_eq!(s.get_activity_at(0, 0).unwrap(), Some(act(1, 1)));
    assert_eq!(s.get_activity_at(0, 1).unwrap(), Some(act(2, 1)));
    assert_eq!(s.get_activity_at(1, 0).unwrap(), Some(act(3, 1)));
    assert_eq!(s.get_activity_at(1, 1).unwrap(), Some(act(4, 1)));
}

#[test]
fn construction_short_input_leaves_cells_empty() {
    let acts = vec![act(7, 2)];
    let s = Schedule::new(2, 2, acts);
    assert_eq!(s.get_activity_at(0, 0).unwrap(), Some(act(7, 2)));
    assert_eq!(s.get_activity_at(0, 1).unwrap(), None);
    assert_eq!(s.empty_slots_count(), 3);
    assert!(s.get_unscheduled_activities().is_empty());
}

#[test]
fn bounds_errors_distinguish_place_and_time() {
    let s = Schedule::new(2, 3, vec![act(1, 1)]);
    assert_eq!(s.get_activity_at(2, 0), Err(BoundsError::Place(2)));
    assert_eq!(s.get_activity_at(9, 99), Err(BoundsError::Place(9)));
    assert_eq!(s.get_activity_at(1, 3), Err(BoundsError::Time(3)));
    assert!(s.get_activity_at(1, 2).is_ok());
}

#[test]
fn degenerate_zero_places_sends_all_to_overflow() {
    let acts = vec![act(1, 1), act(2, 2)];
    let s = Schedule::new(0, 5, acts.clone());
    assert_eq!(s.get_unscheduled_activities(), acts);
    assert_eq!(s.empty_slots_count(), 0);
    assert_eq!(s.get_activity_at(0, 0), Err(BoundsError::Place(0)));
}

#[test]
fn degenerate_zero_times_sends_all_to_overflow() {
    let acts = vec![act(1, 1), act(2, 2)];
    let s = Schedule::new(5, 0, acts.clone());
    assert_eq!(s.get_unscheduled_activities(), acts);
    assert_eq!(s.empty_slots_count(), 0);
    assert_eq!(s.get_activity_at(0, 0), Err(BoundsError::Time(0)));
}

#[test]
fn empty_instance_has_empty_grid_and_overflow() {
    let s = Schedule::new(3, 2, Vec::<Activity>::new());
    assert_eq!(s.empty_slots_count(), 6);
    assert!(s.get_unscheduled_activities().is_empty());
    for p in 0..3 {
        for t in 0..2 {
            assert_eq!(s.get_activity_at(p, t).unwrap(), None);
        }
    }
}

#[test]
fn swaps_permute_a_fixed_multiset_of_payloads() {
    let acts = vec![act(10, 1), act(5, 1), act(1, 2), act(9, 3), act(2, 2)];
    let mut s = Schedule::new(2, 2, acts);
    let before = all_payloads(&s);
    s.swap_locations(Loc::Cell(0, 0), Loc::Cell(1, 1));
    s.swap_locations(Loc::Cell(0, 1), Loc::Over(0));
    s.swap_locations(Loc::Over(0), Loc::Over(0));
    s.swap_locations(Loc::Cell(1, 0), Loc::Cell(1, 0));
    s.swap_locations(Loc::Over(0), Loc::Cell(0, 0));
    assert_eq!(all_payloads(&s), before);
    let occupied = 4 - s.empty_slots_count() + s.get_unscheduled_activities().len();
    assert_eq!(occupied, 5);
}

#[test]
fn swap_moves_contents_between_cell_and_overflow() {
    let mut s = Schedule::new(1, 1, vec![act(10, 1), act(5, 2)]);
    s.swap_locations(Loc::Cell(0, 0), Loc::Over(0));
    assert_eq!(s.get_activity_at(0, 0).unwrap(), Some(act(5, 2)));
    assert_eq!(s.get_unscheduled_activities(), vec![act(10, 1)]);
}

#[test]
fn swap_with_empty_cell_moves_payload() {
    let mut s = Schedule::new(2, 1, vec![act(3, 1)]);
    s.swap_locations(Loc::Cell(0, 0), Loc::Cell(1, 0));
    assert_eq!(s.get_activity_at(0, 0).unwrap(), None);
    assert_eq!(s.get_activity_at(1, 0).unwrap(), Some(act(3, 1)));
    assert_eq!(s.empty_slots_count(), 1);
}

#[test]
fn reshuffle_keeps_payloads_and_packs_them() {
    // Three payloads in four cells: after every reshuffle the cells are
    // refilled row-major first, so the one empty cell is always the last.
    let acts = vec![act(10, 1), act(5, 1), act(1, 2)];
    let mut s = Schedule::new(2, 2, acts);
    let before = all_payloads(&s);
    let mut rng = fastrand::Rng::with_seed(7);
    for _ in 0..5 {
        s.reshuffle(&mut rng);
        assert_eq!(all_payloads(&s), before);
        // Cells are filled row-major first: with 3 payloads in 4 cells the
        // single empty cell is the last one.
        assert_eq!(s.empty_slots_count(), 1);
        assert_eq!(s.get_activity_at(1, 1).unwrap(), None);
    }
}

#[test]
fn reshuffle_with_overflow_fills_cells_first() {
    let acts = vec![act(1, 1), act(2, 1), act(3, 1)];
    let mut s = Schedule::new(1, 2, acts);
    let before = all_payloads(&s);
    let mut rng = fastrand::Rng::with_seed(42);
    s.reshuffle(&mut rng);
    assert_eq!(all_payloads(&s), before);
    assert_eq!(s.empty_slots_count(), 0);
    assert_eq!(s.get_unscheduled_activities().len(), 1);
}

#[test]
fn clone_is_an_exact_snapshot() {
    let acts = vec![act(10, 1), act(5, 1), act(1, 2)];
    let s = Schedule::new(2, 1, acts);
    let c = s.clone();
    assert_eq!(c.dimensions(), s.dimensions());
    assert_eq!(c.get_activity_at(0, 0).unwrap(), s.get_activity_at(0, 0).unwrap());
    assert_eq!(c.get_activity_at(1, 0).unwrap(), s.get_activity_at(1, 0).unwrap());
    assert_eq!(c.get_unscheduled_activities(), s.get_unscheduled_activities());
}

#[test]
fn slots_exposes_the_row_major_cell_store() {
    let acts = vec![act(1, 1), act(2, 1), act(3, 1)];
    let s = Schedule::new(2, 2, acts);
    let cells = s.slots();
    assert_eq!(cells.len(), 4);
    assert_eq!(cells[0], Some(act(1, 1)));
    assert_eq!(cells[1], Some(act(2, 1)));
    assert_eq!(cells[2], Some(act(3, 1)));
    assert_eq!(cells[3], None);
}
