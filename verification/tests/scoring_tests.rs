use time_scheduler::scoring::isqrt;
use time_scheduler::{Activity, Penalty, Schedule};

fn act(priority: usize, topic: usize) -> Activity {
    Activity { priority, topic }
}

#[test]
fn isqrt_exact_values() {
    assert_eq!(isqrt(0), 0);
    assert_eq!(isqrt(1), 1);
    assert_eq!(isqrt(2), 1);
    assert_eq!(isqrt(3), 1);
    assert_eq!(isqrt(4), 2);
    assert_eq!(isqrt(124), 11);
    assert_eq!(isqrt(125), 11);
    assert_eq!(isqrt(144), 12);
    assert_eq!(isqrt(12500), 111);
    assert_eq!(isqrt(u64::MAX), 4294967295);
}

#[test]
fn empty_instance_penalty_is_the_empty_cell_charge() {
    // Ten times the reference formula: 10000 * places * times becomes
    // 100000 * places * times.
    let s = Schedule::new(3, 2, Vec::<Activity>::new());
    assert_eq!(s.penalty(), 600000);
}

#[test]
fn fixture_penalty_of_the_concrete_scenario() {
    // places=2, times=1, activities [{10,1},{5,1},{1,2}]: in tenths,
    // missed = 10*1; empty = 0; isqrt(100 * (100 + 25)) = 111;
    // topic pairs of [1,1] = 4, charged 100 each; lateness = 5*1.
    let s = Schedule::new(2, 1, vec![act(10, 1), act(5, 1), act(1, 2)]);
    assert_eq!(s.penalty(), 10 + 0 + 111 + 400 + 5);
}

#[test]
fn fixture_penalty_charges_unscheduled_priorities() {
    let s = Schedule::new(0, 0, vec![act(10, 1), act(5, 2)]);
    // Everything unscheduled, no cells at all: 10 * (10 + 5).
    assert_eq!(s.penalty(), 150);
}

#[test]
fn fixture_penalty_lateness_grows_with_place_index() {
    // One activity per place, same topic kept distinct across times.
    let s = Schedule::new(3, 1, vec![act(4, 1), act(4, 2), act(4, 3)]);
    // missed 0; empty 0; one column: squares [16,16,16], isqrt(4800) = 69;
    // pairs: three singletons = 3 -> 300; lateness: 4*0 + 4*1 + 4*2 = 12.
    assert_eq!(s.penalty(), 69 + 300 + 12);
}

#[test]
fn fixture_penalty_counts_topic_conflicts_per_time_slot() {
    // Two places, two times; same topic meets only within a time slot.
    let s = Schedule::new(2, 2, vec![act(0, 7), act(0, 8), act(0, 7), act(0, 8)]);
    // Columns are (place0 time t, place1 time t): column 0 holds topics
    // (7, 7), column 1 holds (8, 8): pairs = 4 in each column.
    assert_eq!(s.penalty(), 400 + 400);
}
