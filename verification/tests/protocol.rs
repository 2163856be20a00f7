//! Driving the protocol step by step under a contentious interleaving:
//! mutual exclusion of each fork, release of a partial hold before a
//! retry, and the message builder itself.

use dining_philosophers::event::idea_message;
use dining_philosophers::philosopher::Phase;
use dining_philosophers::table::{left_fork_index, right_fork_index, Table};

fn roster(names: &[&str]) -> Vec<String> {
    names.iter().map(|n| String::from(*n)).collect()
}

fn table(names: &[&str], cycles: u64) -> Table {
    match Table::new(roster(names), cycles) {
        Ok(t) => t,
        Err(_) => panic!("roster should be accepted"),
    }
}

/// At no point may a fork name a holder that does not hold it, and no two
/// actors can be recorded on the same fork: each fork is one cell.
fn assert_consistent(t: &Table) {
    let n = t.actors.len();
    for k in 0..n {
        if let Some(h) = t.forks[k] {
            assert!(h < n);
            let a = &t.actors[h];
            let held = match a.phase {
                Phase::HasLeft => a.left == k,
                Phase::Eating => a.left == k || a.right == k,
                _ => false,
            };
            assert!(held, "fork {} names {} which does not hold it", k, h);
        }
    }
}

#[test]
fn ring_wiring_matches_adjacency() {
    let t = table(&["A", "B", "C"], 1);
    for i in 0..3usize {
        assert_eq!(t.actors[i].left, left_fork_index(i, 3));
        assert_eq!(t.actors[i].right, right_fork_index(i, 3));
    }
    // fork 0 sits between actors 2 and 0, fork 1 between 0 and 1, fork 2
    // between 1 and 2
    assert_eq!(t.actors[0].left, 0);
    assert_eq!(t.actors[0].right, 1);
    assert_eq!(t.actors[2].right, 0);
}

#[test]
fn contention_releases_partial_hold() {
    let mut t = table(&["A", "B", "C"], 1);

    // A picks up its left fork (fork 0)
    t.step(0);
    assert_eq!(t.actors[0].phase, Phase::HasLeft);
    assert_eq!(t.forks[0], Some(0));
    assert_consistent(&t);

    // B picks up its left fork (fork 1), which is A's right fork
    t.step(1);
    assert_eq!(t.actors[1].phase, Phase::HasLeft);
    assert_eq!(t.forks[1], Some(1));
    assert_consistent(&t);

    // A now fails on its right fork and must release fork 0 before
    // backing off: no partial hold survives its own step
    t.step(0);
    assert_eq!(t.actors[0].phase, Phase::Thinking);
    assert_eq!(t.forks[0], None);
    assert_consistent(&t);

    // B completes the acquisition (fork 2 is free) and eats
    t.step(1);
    assert_eq!(t.actors[1].phase, Phase::Eating);
    assert_eq!(t.forks[1], Some(1));
    assert_eq!(t.forks[2], Some(1));
    assert_consistent(&t);

    // B finishes its single cycle: both forks go down, one event arrives
    t.step(1);
    assert_eq!(t.actors[1].phase, Phase::Done);
    assert_eq!(t.forks[1], None);
    assert_eq!(t.forks[2], None);
    assert_eq!(t.events.len(), 1);
    assert_eq!(t.events[0].actor, 1);
    assert_eq!(t.events[0].cycle, 0);
    assert_eq!(t.events[0].message, "Eureka! B has a new idea!");
    assert_consistent(&t);
}

#[test]
fn eating_actor_excludes_both_neighbours() {
    let mut t = table(&["A", "B", "C"], 2);

    // A acquires both of its forks and eats
    t.step(0);
    t.step(0);
    assert_eq!(t.actors[0].phase, Phase::Eating);
    assert_eq!(t.forks[0], Some(0));
    assert_eq!(t.forks[1], Some(0));
    assert_consistent(&t);

    // B's left fork is fork 1, held by A: B cannot pick it up
    t.step(1);
    assert_eq!(t.actors[1].phase, Phase::Thinking);
    assert_eq!(t.forks[1], Some(0));
    assert_consistent(&t);

    // C's right fork is fork 0, held by A: C picks up fork 2, then must
    // release it again
    t.step(2);
    assert_eq!(t.actors[2].phase, Phase::HasLeft);
    assert_eq!(t.forks[2], Some(2));
    t.step(2);
    assert_eq!(t.actors[2].phase, Phase::Thinking);
    assert_eq!(t.forks[2], None);
    assert_consistent(&t);
}

#[test]
fn round_robin_interleaving_stays_safe() {
    let mut t = table(&["A", "B", "C"], 2);
    let schedule: Vec<usize> = (0..60).map(|s| s % 3).collect();
    t.run_interleaved(&schedule);
    assert_consistent(&t);
    assert!(t.events.len() <= 6);
    for idx in 0..3usize {
        let cycles: Vec<u64> = t
            .events
            .iter()
            .filter(|e| e.actor == idx)
            .map(|e| e.cycle)
            .collect();
        // each actor's own events arrive in emission order: 0, 1, ...
        let expected: Vec<u64> = (0..cycles.len() as u64).collect();
        assert_eq!(cycles, expected);
    }
}

#[test]
fn idea_message_formats_the_name() {
    assert_eq!(
        idea_message("Socrates"),
        "Eureka! Socrates has a new idea!"
    );
    assert_eq!(idea_message(""), "Eureka!  has a new idea!");
}
