//! End-to-end runs of the simulation: event counts, per-actor order,
//! message content, and rejection of bad rosters.

use dining_philosophers::sim::simulate;
use dining_philosophers::table::ConfigError;

fn roster(names: &[&str]) -> Vec<String> {
    names.iter().map(|n| String::from(*n)).collect()
}

#[test]
fn counts_for_small_roster() {
    let events = simulate(roster(&["A", "B"]), 3).unwrap();
    assert_eq!(events.len(), 6);
}

#[test]
fn zero_cycles_yield_no_events() {
    let events = simulate(roster(&["A", "B", "C", "D", "E"]), 0).unwrap();
    assert_eq!(events.len(), 0);
}

#[test]
fn empty_roster_is_rejected() {
    let r = simulate(roster(&[]), 1);
    assert!(matches!(r, Err(ConfigError::TooFewActors)));
}

#[test]
fn single_actor_is_rejected() {
    let r = simulate(roster(&["solo"]), 100);
    assert!(matches!(r, Err(ConfigError::TooFewActors)));
}

#[test]
fn three_actors_one_cycle_each() {
    let events = simulate(roster(&["A", "B", "C"]), 1).unwrap();
    assert_eq!(events.len(), 3);
    for (name, idx) in [("A", 0usize), ("B", 1), ("C", 2)] {
        let own: Vec<_> = events.iter().filter(|e| e.actor == idx).collect();
        assert_eq!(own.len(), 1);
        assert_eq!(own[0].cycle, 0);
        assert_eq!(own[0].message, format!("Eureka! {} has a new idea!", name));
    }
}

#[test]
fn per_actor_order_is_preserved() {
    let events = simulate(roster(&["A", "B", "C"]), 4).unwrap();
    assert_eq!(events.len(), 12);
    for idx in 0..3usize {
        let cycles: Vec<u64> = events
            .iter()
            .filter(|e| e.actor == idx)
            .map(|e| e.cycle)
            .collect();
        assert_eq!(cycles, vec![0, 1, 2, 3]);
    }
}

#[test]
fn five_actors_hundred_cycles_complete() {
    let names = roster(&["Socrates", "Plato", "Aristotle", "Thales", "Pythagoras"]);
    let events = simulate(names, 100).unwrap();
    assert_eq!(events.len(), 500);
    for idx in 0..5usize {
        assert_eq!(events.iter().filter(|e| e.actor == idx).count(), 100);
    }
}
