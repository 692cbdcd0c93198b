use dining_philosophers::{
    check_events, gather, on_busy, ring_seating, ring_topology, seat_philosophers, simulate, Event, Fork,
    ForkPool, MealRecord, Philosopher, SimError, Stage, Table,
};

fn names(n: usize) -> Vec<String> {
    (0..n).map(|i| format!("P{}", i)).collect()
}

fn picks(log: &[Event], f: usize) -> usize {
    log.iter()
        .filter(|e| matches!(e, Event::PickedUp { fork, .. } if *fork == f))
        .count()
}

fn puts(log: &[Event], f: usize) -> usize {
    log.iter()
        .filter(|e| matches!(e, Event::PutDown { fork, .. } if *fork == f))
        .count()
}

fn meals(log: &[Event], p: usize) -> usize {
    log.iter()
        .filter(|e| matches!(e, Event::Finished { philosopher } if *philosopher == p))
        .count()
}

fn roster() -> Vec<(String, usize, usize)> {
    let seats = [
        ("Jürgen Habermas", 0, 1),
        ("Friedrich Engels", 1, 2),
        ("Karl Marx", 2, 3),
        ("Thomas Piketty", 3, 0),
        ("Michel Foucault", 0, 1),
        ("Socrates", 1, 2),
        ("Plato", 2, 3),
        ("Aristotle", 3, 0),
        ("Pythagoras", 0, 1),
        ("Heraclitus", 1, 2),
        ("Democritus", 2, 3),
        ("Diogenes", 3, 0),
        ("Epicurus", 0, 1),
        ("Zeno of Citium", 1, 2),
        ("Thales of Miletus", 2, 3),
    ];
    seats.iter().map(|(n, l, r)| (n.to_string(), *l, *r)).collect()
}

#[test]
fn ring_of_four_completes_in_two_steps() {
    let seating = ring_seating(&names(4), 4);
    let rep = simulate(4, &seating).unwrap();
    assert_eq!(rep.ticks, 2);
    for f in 0..4 {
        assert_eq!(picks(&rep.log, f), 2);
        assert_eq!(puts(&rep.log, f), 2);
    }
    for p in 0..4 {
        assert_eq!(meals(&rep.log, p), 1);
    }
    assert_eq!(rep.log.len(), 4 * 6);
    assert!(check_events(&rep.log, 4));
}

#[test]
fn ring_of_four_picks_lower_fork_first() {
    let seating = ring_seating(&names(4), 4);
    let rep = simulate(4, &seating).unwrap();
    assert_eq!(rep.log[0], Event::PickedUp { philosopher: 0, fork: 0 });
    assert_eq!(rep.log[1], Event::PickedUp { philosopher: 0, fork: 1 });
    assert_eq!(rep.log[2], Event::PickedUp { philosopher: 2, fork: 2 });
    assert_eq!(rep.log[3], Event::PickedUp { philosopher: 2, fork: 3 });
    assert_eq!(rep.log[4], Event::Eating { philosopher: 0 });
    assert_eq!(rep.log[5], Event::Finished { philosopher: 0 });
    assert_eq!(rep.log[6], Event::PutDown { philosopher: 0, fork: 1 });
    assert_eq!(rep.log[7], Event::PutDown { philosopher: 0, fork: 0 });
    // Philosopher 3 sits between forks 3 and 0 and reaches for 0 first.
    assert!(rep
        .log
        .iter()
        .position(|e| *e == Event::PickedUp { philosopher: 3, fork: 0 })
        < rep
            .log
            .iter()
            .position(|e| *e == Event::PickedUp { philosopher: 3, fork: 3 }));
}

#[test]
fn single_fork_serializes_everyone() {
    let seating = ring_seating(&names(5), 1);
    let rep = simulate(1, &seating).unwrap();
    assert_eq!(rep.ticks, 5);
    assert_eq!(picks(&rep.log, 0), 5);
    assert_eq!(puts(&rep.log, 0), 5);
    assert!(check_events(&rep.log, 1));
}

#[test]
fn no_philosophers_is_an_empty_run() {
    let rep = simulate(4, &Vec::new()).unwrap();
    assert_eq!(rep.ticks, 0);
    assert!(rep.log.is_empty());
}

#[test]
fn fifteen_philosophers_on_four_forks() {
    let rep = simulate(4, &roster()).unwrap();
    assert!(rep.ticks <= 15);
    assert!(rep.ticks >= 8);
    for p in 0..15 {
        assert_eq!(meals(&rep.log, p), 1);
    }
    for f in 0..4 {
        assert_eq!(picks(&rep.log, f), puts(&rep.log, f));
        assert!(picks(&rep.log, f) <= rep.ticks);
    }
    assert!(check_events(&rep.log, 4));
}

#[test]
fn all_philosophers_on_one_pair_never_deadlock() {
    let seating: Vec<(String, usize, usize)> =
        (0..6).map(|i| (format!("P{}", i), if i % 2 == 0 { 0 } else { 1 }, if i % 2 == 0 { 1 } else { 0 })).collect();
    let rep = simulate(2, &seating).unwrap();
    assert_eq!(rep.ticks, 6);
    assert!(check_events(&rep.log, 2));
}

#[test]
fn out_of_range_fork_is_refused_before_running() {
    let seating = vec![
        ("a".to_string(), 0, 1),
        ("b".to_string(), 1, 5),
        ("c".to_string(), 9, 0),
    ];
    assert_eq!(
        simulate(4, &seating).err(),
        Some(SimError::OutOfRange { philosopher: 1, fork: 5 })
    );
    let pool = ForkPool::create(4);
    assert!(seat_philosophers(&pool, &seating).is_err());
    assert!(Table::new(&pool, &seating).is_err());
}

#[test]
fn seating_twice_gives_the_same_bindings() {
    let pool = ForkPool::create(4);
    let seating = roster();
    let a = seat_philosophers(&pool, &seating).unwrap();
    let b = seat_philosophers(&pool, &seating).unwrap();
    assert_eq!(a.len(), 15);
    for (x, y) in a.iter().zip(b.iter()) {
        assert_eq!(x.id, y.id);
        assert_eq!(x.name, y.name);
        assert_eq!(x.left_fork, y.left_fork);
        assert_eq!(x.right_fork, y.right_fork);
    }
    assert_eq!(a[3].name, "Thomas Piketty");
    assert_eq!(a[3].left_fork, Fork { id: 3 });
    assert_eq!(a[3].right_fork, Fork { id: 0 });
}

#[test]
fn ring_topology_wraps_around() {
    assert_eq!(ring_topology(5, 4), vec![(0, 1), (1, 2), (2, 3), (3, 0), (0, 1)]);
    assert_eq!(ring_topology(3, 1), vec![(0, 0), (0, 0), (0, 0)]);
    assert!(ring_topology(0, 3).is_empty());
    let s = ring_seating(&names(3), 2);
    assert_eq!(s[2], ("P2".to_string(), 0, 1));
}

#[test]
fn pool_hands_out_only_its_forks() {
    let pool = ForkPool::create(3);
    assert_eq!(pool.handle(0, 2), Ok(Fork { id: 2 }));
    assert_eq!(
        pool.handle(4, 3),
        Err(SimError::OutOfRange { philosopher: 4, fork: 3 })
    );
}

#[test]
fn acquisition_order_is_lower_id_first() {
    let p = Philosopher::new(3, "Thomas Piketty", Fork { id: 3 }, Fork { id: 0 });
    assert_eq!(p.acquisition_order(), (Fork { id: 0 }, Fork { id: 3 }));
    let q = Philosopher::new(1, "Socrates", Fork { id: 1 }, Fork { id: 2 });
    assert_eq!(q.acquisition_order(), (Fork { id: 1 }, Fork { id: 2 }));
    assert_eq!(q.name, "Socrates");
}

#[test]
fn same_fork_on_both_sides_is_taken_once() {
    let seating = vec![("solo".to_string(), 2, 2)];
    let rep = simulate(3, &seating).unwrap();
    assert_eq!(rep.ticks, 1);
    assert_eq!(
        rep.log,
        vec![
            Event::PickedUp { philosopher: 0, fork: 2 },
            Event::Eating { philosopher: 0 },
            Event::Finished { philosopher: 0 },
            Event::PutDown { philosopher: 0, fork: 2 },
        ]
    );
}

#[test]
fn one_step_at_a_time() {
    let pool = ForkPool::create(4);
    let mut t = Table::new(&pool, &ring_seating(&names(4), 4)).unwrap();
    assert_eq!(t.stage, vec![Stage::Hungry; 4]);
    t.tick();
    assert_eq!(t.ticks, 1);
    assert_eq!(t.stage, vec![Stage::Done, Stage::Hungry, Stage::Done, Stage::Hungry]);
    assert_eq!(t.holder, vec![None; 4]);
    let rep = t.run();
    assert_eq!(rep.ticks, 2);
}

#[test]
fn audit_rejects_overlapping_holds() {
    let log = vec![
        Event::PickedUp { philosopher: 0, fork: 1 },
        Event::PickedUp { philosopher: 1, fork: 1 },
        Event::PutDown { philosopher: 0, fork: 1 },
        Event::PutDown { philosopher: 1, fork: 1 },
    ];
    assert!(!check_events(&log, 2));
}

#[test]
fn audit_rejects_unbalanced_and_foreign_forks() {
    let open = vec![Event::PickedUp { philosopher: 0, fork: 0 }];
    assert!(!check_events(&open, 1));
    let stray = vec![Event::PutDown { philosopher: 0, fork: 0 }];
    assert!(!check_events(&stray, 1));
    let foreign = vec![
        Event::PickedUp { philosopher: 0, fork: 3 },
        Event::PutDown { philosopher: 0, fork: 3 },
    ];
    assert!(!check_events(&foreign, 2));
    assert!(check_events(&foreign, 4));
    assert!(check_events(&Vec::new(), 0));
}

#[test]
fn gather_reports_all_meals_in_order() {
    let results = vec![
        Ok(MealRecord { philosopher: 0, elapsed_ms: 1000 }),
        Ok(MealRecord { philosopher: 1, elapsed_ms: 2000 }),
    ];
    let rep = gather(&results, 2100).unwrap();
    assert_eq!(rep.total_ms, 2100);
    assert_eq!(rep.meals.len(), 2);
    assert_eq!(rep.meals[1], MealRecord { philosopher: 1, elapsed_ms: 2000 });
}

#[test]
fn gather_surfaces_the_first_failure() {
    let results = vec![
        Ok(MealRecord { philosopher: 0, elapsed_ms: 1000 }),
        Err(SimError::ResourcePoisoned { fork: 2 }),
        Err(SimError::AcquisitionTimeout { fork: 0 }),
    ];
    assert_eq!(gather(&results, 5), Err(SimError::ResourcePoisoned { fork: 2 }));
    assert!(gather(&Vec::new(), 0).unwrap().meals.is_empty());
}

#[test]
fn waiting_gives_up_only_at_the_bound() {
    assert_eq!(on_busy(2, 10, None), Ok(()));
    assert_eq!(on_busy(2, 10, Some(50)), Ok(()));
    assert_eq!(on_busy(2, 49, Some(50)), Ok(()));
    assert_eq!(on_busy(2, 50, Some(50)), Err(SimError::AcquisitionTimeout { fork: 2 }));
    assert_eq!(on_busy(1, 0, Some(0)), Err(SimError::AcquisitionTimeout { fork: 1 }));
}
