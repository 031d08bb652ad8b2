use ship_alive::crew::{Crew, HaulDest, IdleCause, Priority, WorkKind};
use ship_alive::dist::{dist_key, floor, octile_distance, OctDist};
use ship_alive::graph::{label_components, NO_LABEL};
use ship_alive::items::{item_kind_of_char, ItemKind};
use ship_alive::log::{EventLog, LogKind, LOG_CAPACITY};
use ship_alive::map::TilePos;
use ship_alive::stats::Stats;
use ship_alive::time_ctrl::GameSpeed;
use ship_alive::OverlayMode;

#[test]
fn exact_octile_distance_and_floor() {
    let d = octile_distance(TilePos::new(0, 0), TilePos::new(5, 2));
    assert_eq!(d, OctDist { straight: 3, diag: 2 });
    // 3 + 2·√2 = 5.828…
    assert_eq!(floor(d), 5);
    assert_eq!(dist_key(d), 3 * 1024 + 2896);
    assert_eq!(octile_distance(TilePos::new(5, 2), TilePos::new(0, 0)), d);
}

#[test]
fn components_are_numbered_by_first_node() {
    // 0-1 linked, 2 inactive, 3 alone, 4-5 linked.
    let active = vec![true, true, false, true, true, true];
    let adj = vec![vec![1], vec![0], vec![], vec![], vec![5], vec![4]];
    let (lab, count) = label_components(&active, &adj);
    assert_eq!(count, 3);
    assert_eq!(lab, vec![0, 0, NO_LABEL, 1, 2, 2]);
}

#[test]
fn priorities_cycle_through_all_tiers() {
    let mut p = Priority::Disabled;
    let mut seen = vec![];
    for _ in 0..4 {
        p = p.cycle();
        seen.push(p.weight());
    }
    assert_eq!(seen, vec![200, 500, 1000, 0]);
    assert_eq!(Priority::High.label(), "High");
    let mut c = Crew::new(String::from("Ada"));
    assert_eq!(c.priorities.get(WorkKind::Build), Priority::Normal);
    c.priorities.set(WorkKind::Build, Priority::Disabled);
    assert_eq!(c.priorities.get(WorkKind::Build), Priority::Disabled);
    assert_eq!(c.priorities.get(WorkKind::Haul), Priority::Normal);
}

#[test]
fn idle_and_destination_labels() {
    assert_eq!(IdleCause::NoStorageSpace.label(), "Idle — no free storage space");
    assert_eq!(
        IdleCause::JobFailed { detail: String::from("storage full") }.label(),
        "Job failed — storage full"
    );
    assert_eq!(HaulDest::Machine(3).label(), "fabricator");
}

#[test]
fn items_round_trip_their_index() {
    for k in [ItemKind::Crate, ItemKind::Ore, ItemKind::Part] {
        assert_eq!(ItemKind::from_index(k.index()), k);
    }
    assert_eq!(item_kind_of_char(b'2'), ItemKind::Ore);
}

#[test]
fn log_keeps_the_newest_entries() {
    let mut log = EventLog::new();
    for i in 0..(LOG_CAPACITY as i64 + 5) {
        log.push(i, LogKind::Info, format!("event {i}"));
    }
    assert_eq!(log.entries.len(), LOG_CAPACITY);
    assert_eq!(log.entries.front().unwrap().time, 5);
    assert_eq!(log.entries.back().unwrap().text, format!("event {}", LOG_CAPACITY + 4));
}

#[test]
fn pause_toggles_back_to_the_last_speed() {
    let mut s = GameSpeed::default();
    s.set_speed(3);
    assert_eq!(s.label(), "4x");
    s.toggle_pause();
    assert_eq!(s.index, 0);
    s.toggle_pause();
    assert_eq!(s.index, 3);
    s.set_speed(9);
    assert_eq!(s.index, 3, "clamped to the table");
}

#[test]
fn overlay_cycle_returns_after_five_presses() {
    let mut m = OverlayMode::default();
    for _ in 0..5 {
        m = m.cycle();
    }
    assert_eq!(m, OverlayMode::Off);
    assert_eq!(OverlayMode::Power.label(), "Power");
}

#[test]
fn stats_summary() {
    let s = Stats { built: 2, deconstructed: 1, produced: 3, hauls_done: 10, haul_distance: 42 };
    assert_eq!(s.summary(), "built=2 demo=1 produced=3 hauls=10 haul_dist=42");
}
