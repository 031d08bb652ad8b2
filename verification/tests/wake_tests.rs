use ship_alive::map::TilePos;
use ship_alive::wake::{WakeSet, WAKE_STEPS};

#[test]
fn woken_tiles_join_the_worklist_once() {
    let mut w = WakeSet::new(4, 3);
    assert_eq!(w.awake_count(), 0);
    w.wake_at(TilePos::new(1, 1));
    w.wake_at(TilePos::new(1, 1));
    w.wake_at(TilePos::new(9, 9));
    assert!(w.is_awake(5));
    assert_eq!(w.awake_count(), 1);
    assert_eq!(w.counters[5], WAKE_STEPS);
}

#[test]
fn quiet_tiles_fall_asleep_after_the_wake_window() {
    let mut w = WakeSet::new(4, 3);
    w.wake_at(TilePos::new(1, 1));
    let current = w.take_awake();
    assert_eq!(current, vec![5]);
    assert_eq!(w.awake_count(), 0);
    w.wake_at(TilePos::new(2, 1));
    w.finish_step(&current);
    assert_eq!(w.queue, vec![6, 5], "tiles woken during the step come first");
    assert_eq!(w.counters[5], WAKE_STEPS - 1);
    let mut steps = 1;
    while w.is_awake(5) {
        let current = w.take_awake();
        w.finish_step(&current);
        steps += 1;
    }
    assert_eq!(steps, WAKE_STEPS);
    assert_eq!(w.counters[6], 1, "woken one step later, it sleeps one step later");
    assert_eq!(w.queue, vec![6]);
}

#[test]
fn waking_around_a_corner_skips_off_grid_tiles() {
    let mut w = WakeSet::new(4, 3);
    w.wake_around(TilePos::new(0, 0));
    assert_eq!(w.awake_count(), 3);
    assert!(w.is_awake(0) && w.is_awake(1) && w.is_awake(4));
    let current = w.take_awake();
    w.wake_around(TilePos::new(0, 0));
    w.finish_step(&current);
    assert_eq!(w.awake_count(), 3, "re-woken tiles are not listed twice");
    assert_eq!(w.counters[0], WAKE_STEPS - 1);
}
