use ship_alive::building::Footprint;
use ship_alive::crew::{Crew, HaulDest, IdleCause, Priority, WorkJob, WorkKind, WorkPhase};
use ship_alive::dist::OctDist;
use ship_alive::items::ItemKind;
use ship_alive::jobs::{
    at_interaction, best_source, choose_rack, claim_failed_cause, claim_output, claim_rack_pull, dest_reachable, plan_fetch, random_cargo_tile, rank_candidates,
    scan_idle_cause, timer_tick, work_progress, Candidate, FetchPlan, Source,
};
use ship_alive::map::{ShipMap, TilePos};
use ship_alive::production::Fabricator;
use ship_alive::storage::StorageCell;

fn room() -> ShipMap {
    ShipMap::from_layout(&["#######", "#.....#", "#.....#", "#.....#", "#######"]).0
}

#[test]
fn idle_causes() {
    assert_eq!(scan_idle_cause(Priority::Disabled, Priority::Disabled, Priority::Disabled, true, true, true), IdleCause::AllWorkDisabled);
    assert_eq!(scan_idle_cause(Priority::Disabled, Priority::Normal, Priority::Disabled, true, true, true), IdleCause::NothingToDo);
    assert_eq!(scan_idle_cause(Priority::Normal, Priority::Normal, Priority::Normal, true, false, true), IdleCause::NoStorageSpace);
    assert_eq!(scan_idle_cause(Priority::Normal, Priority::Normal, Priority::Normal, true, true, true), IdleCause::AllUnreachable);
    assert_eq!(scan_idle_cause(Priority::Normal, Priority::Normal, Priority::Normal, false, true, true), IdleCause::AllClaimed);
    assert_eq!(scan_idle_cause(Priority::Low, Priority::Normal, Priority::Normal, false, false, false), IdleCause::NothingToDo);
    assert_eq!(claim_failed_cause(true, false, true), IdleCause::NoStorageSpace);
    assert_eq!(claim_failed_cause(true, true, false), IdleCause::AllUnreachable);
    assert_eq!(claim_failed_cause(false, true, true), IdleCause::AllClaimed);
    assert_eq!(claim_failed_cause(false, false, false), IdleCause::NothingToDo);
}

#[test]
fn score_caps_distance_inside_a_tier() {
    let near_low = Candidate { prio: Priority::Low, dist: OctDist { straight: 2, diag: 0 } };
    let far_high = Candidate { prio: Priority::High, dist: OctDist { straight: 500, diag: 0 } };
    assert_eq!(near_low.score(), 198);
    assert_eq!(far_high.score(), 940);
    // 3 + 2·√2 ≈ 5.83 → 5 whole tiles.
    let mixed = Candidate { prio: Priority::Normal, dist: OctDist { straight: 3, diag: 2 } };
    assert_eq!(mixed.score(), 495);
}

#[test]
fn ranking_prefers_tier_then_distance_then_order() {
    let cs = [
        Candidate { prio: Priority::Normal, dist: OctDist { straight: 5, diag: 0 } },
        Candidate { prio: Priority::High, dist: OctDist { straight: 50, diag: 0 } },
        Candidate { prio: Priority::Normal, dist: OctDist { straight: 5, diag: 0 } },
        Candidate { prio: Priority::Normal, dist: OctDist { straight: 4, diag: 1 } },
        Candidate { prio: Priority::Normal, dist: OctDist { straight: 4, diag: 0 } },
    ];
    // Scores: 495, 950, 495, 495 (4+√2 → 5), 496.
    assert_eq!(rank_candidates(&cs), vec![1, 4, 0, 2, 3]);
    assert_eq!(rank_candidates(&[]), Vec::<usize>::new());
}

#[test]
fn best_source_prefers_loose_items_over_racks() {
    let pos = TilePos::new(0, 0);
    let mut stocked = StorageCell::default();
    stocked.try_add(ItemKind::Ore);
    let racks = [(TilePos::new(2, 0), stocked)];
    // A ground item at the same distance wins over rack stock.
    let ground = [(TilePos::new(0, 2), 0i64)];
    let (d, s) = best_source(pos, ItemKind::Ore, &ground, &racks, 10).unwrap();
    assert_eq!(s, Source::Ground(0));
    assert_eq!(d, OctDist { straight: 2, diag: 0 });
    // A cooled-down item is skipped; the rack is one tile "further".
    let cooled = [(TilePos::new(0, 2), 50i64)];
    let (d, s) = best_source(pos, ItemKind::Ore, &cooled, &racks, 10).unwrap();
    assert_eq!(s, Source::Rack(0));
    assert_eq!(d, OctDist { straight: 3, diag: 0 });
    // Racks without the kind are no source.
    assert!(best_source(pos, ItemKind::Part, &cooled, &racks, 10).is_none());
}

#[test]
fn rack_choice_is_nearest_reachable() {
    let map = room();
    let racks = [(11, TilePos::new(5, 3)), (12, TilePos::new(2, 1)), (13, TilePos::new(9, 9))];
    let (id, path) = choose_rack(&map, TilePos::new(1, 1), &racks).unwrap();
    assert_eq!(id, 12);
    assert_eq!(path, vec![TilePos::new(2, 1)]);
    assert!(choose_rack(&map, TilePos::new(1, 1), &[(13, TilePos::new(9, 9))]).is_none());
}

#[test]
fn interaction_and_destinations() {
    let map = room();
    let f = Footprint::new(3, 2, 1, 1);
    assert!(at_interaction(&map, TilePos::new(2, 2), &f));
    assert!(!at_interaction(&map, TilePos::new(1, 1), &f));
    assert!(dest_reachable(&map, TilePos::new(1, 1), HaulDest::Storage, None));
    assert!(dest_reachable(&map, TilePos::new(1, 1), HaulDest::Blueprint(4), Some(f)));
    assert!(!dest_reachable(&map, TilePos::new(1, 1), HaulDest::Machine(4), None));
}

#[test]
fn timers_and_progress() {
    assert_eq!(timer_tick(5_000_000, 1_000_000), (4_000_000, false));
    assert_eq!(timer_tick(1_000_000, 1_000_000), (0, true));
    assert_eq!(timer_tick(500_000, 1_000_000), (-500_000, true));
    let job = WorkJob { target: 1, phase: WorkPhase::Working, timer: 150, total: 600 };
    assert_eq!(work_progress(&job), 750_000);
    let done = WorkJob { timer: -3, ..job };
    assert_eq!(work_progress(&done), 1_000_000);
    let fresh = WorkJob { timer: 600, ..job };
    assert_eq!(work_progress(&fresh), 0);
}

#[test]
fn fetch_plans_check_the_destination_then_route_to_the_source() {
    // A sealed pocket on the right holds the blueprint; the crew room is on the left.
    let map = ShipMap::from_layout(&["#######", "#..#..#", "#..#..#", "#######"]).0;
    let sealed = Footprint::new(4, 1, 1, 1);
    let open = Footprint::new(2, 2, 1, 1);
    let p = |src: TilePos, dest: HaulDest, foot: Option<Footprint>| plan_fetch(&map, TilePos::new(1, 1), src, dest, foot);
    assert!(matches!(p(TilePos::new(2, 1), HaulDest::Blueprint(9), Some(sealed)), FetchPlan::DestUnreachable));
    assert!(matches!(p(TilePos::new(2, 1), HaulDest::Machine(9), None), FetchPlan::DestUnreachable), "the machine is gone");
    assert!(matches!(p(TilePos::new(5, 1), HaulDest::Storage, None), FetchPlan::NoRoute));
    match p(TilePos::new(2, 2), HaulDest::Blueprint(9), Some(open)) {
        FetchPlan::Go(route) => assert_eq!(route, vec![TilePos::new(2, 2)], "one diagonal step"),
        _ => panic!("expected a route"),
    }
}

#[test]
fn priority_changes_wake_idle_crew_only() {
    let mut c = Crew::new("Ada".to_string());
    c.next_scan = 50;
    c.set_priority(WorkKind::Build, Priority::High, false, 10);
    assert_eq!(c.priorities.get(WorkKind::Build), Priority::High);
    assert_eq!(c.priorities.get(WorkKind::Haul), Priority::Normal);
    assert_eq!(c.next_scan, 50, "a job under way is not interrupted");
    c.set_priority(WorkKind::Haul, Priority::Disabled, true, 10);
    assert_eq!(c.next_scan, 10, "an idle crew member rescans at once");
    c.reset_priorities(false, 20);
    assert_eq!(c.priorities.get(WorkKind::Build), Priority::Normal);
    assert_eq!(c.next_scan, 10);
}

#[test]
fn debug_cargo_spawns_pick_a_free_hold_tile() {
    let map = room();
    let occupied = [TilePos::new(1, 1)];
    assert_eq!(random_cargo_tile(&map, &occupied, 0), Some(TilePos::new(5, 3)));
    assert_eq!(random_cargo_tile(&map, &occupied, 12345), Some(TilePos::new(4, 2)));
    let full: Vec<TilePos> = (1..=5).flat_map(|x| (1..=3).map(move |y| TilePos::new(x, y))).collect();
    assert_eq!(random_cargo_tile(&map, &full, 7), None);
}

#[test]
fn rack_pull_takes_stock_only_with_a_plan() {
    let m = room();
    let from = TilePos::new(1, 1);
    let rack = TilePos::new(5, 3);
    let mut cell = StorageCell::with_stock(ItemKind::Ore, 2);
    let p = claim_rack_pull(&m, from, &mut cell, rack, ItemKind::Ore, HaulDest::Storage, None).unwrap();
    assert_eq!(p.last(), Some(&rack));
    assert_eq!(cell.counts[ItemKind::Ore.index()], 1);
    // None of that kind: nothing taken.
    assert!(claim_rack_pull(&m, from, &mut cell, rack, ItemKind::Part, HaulDest::Storage, None).is_none());
    assert_eq!(cell.counts[ItemKind::Ore.index()], 1);
    // A rack nobody can reach keeps its stock.
    assert!(claim_rack_pull(&m, from, &mut cell, TilePos::new(0, 0), ItemKind::Ore, HaulDest::Storage, None).is_none());
    assert_eq!(cell.counts[ItemKind::Ore.index()], 1);
}

#[test]
fn output_claim_sets_the_item_down_nearby() {
    let m = room();
    let mut fab = Fabricator::default();
    fab.output[ItemKind::Part.index()] = 1;
    let origin = TilePos::new(3, 2);
    let (tile, path) = claim_output(&m, TilePos::new(1, 1), &mut fab, ItemKind::Part, origin, &[]).unwrap();
    assert!((tile.x - origin.x).abs() <= 3 && (tile.y - origin.y).abs() <= 3);
    assert!(m.is_walkable(tile));
    assert_eq!(path.last(), Some(&tile));
    assert_eq!(fab.output[ItemKind::Part.index()], 0);
    // Nothing left to take out.
    assert!(claim_output(&m, TilePos::new(1, 1), &mut fab, ItemKind::Part, origin, &[]).is_none());
    assert_eq!(fab.output[ItemKind::Part.index()], 0);
}
