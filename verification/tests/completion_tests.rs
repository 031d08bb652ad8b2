use ship_alive::building::{complete_building, complete_deconstruction, Blueprint, Building, BuildingKind, Footprint};
use ship_alive::items::ItemKind;
use ship_alive::log::EventLog;
use ship_alive::map::{ShipMap, Tile, TilePos};
use ship_alive::power::CableGrid;
use ship_alive::stats::Stats;

fn room() -> ShipMap {
    ShipMap::from_layout(&["#######", "#.....#", "#.....#", "#.....#", "#######"]).0
}

#[test]
fn finished_wall_blocks_shoves_crew_and_refunds_excess() {
    let mut map = room();
    let mut cables = CableGrid::new(7, 5);
    let mut log = EventLog::new();
    let mut stats = Stats::default();
    let bp = Blueprint {
        kind: BuildingKind::Wall,
        foot: Footprint::new(2, 2, 1, 1),
        delivered: [0, 0, 2],
        progress: 1_000_000,
    };
    let crew = [(7u64, TilePos::new(2, 2)), (8u64, TilePos::new(4, 1))];
    let fx = complete_building(&mut map, &mut cables, &bp, &crew, &[], &mut log, &mut stats, 42);
    assert_eq!(map.tile(TilePos::new(2, 2)), Some(Tile::BuiltWall));
    assert!(!map.is_walkable(TilePos::new(2, 2)));
    assert_eq!(fx.displaced, vec![(7u64, TilePos::new(1, 1))]);
    assert_eq!(fx.drops, vec![(TilePos::new(3, 2), ItemKind::Part)]);
    assert_eq!(stats.built, 1);
    let last = log.entries.back().unwrap();
    assert_eq!(last.time, 42);
    assert_eq!(last.text, "Wall built at (2,2)");
}

#[test]
fn exact_delivery_refunds_nothing_and_doors_shove_nobody() {
    let mut map = room();
    let mut cables = CableGrid::new(7, 5);
    let mut log = EventLog::new();
    let mut stats = Stats::default();
    let bp = Blueprint {
        kind: BuildingKind::Door,
        foot: Footprint::new(3, 2, 1, 1),
        delivered: [0, 0, 2],
        progress: 1_000_000,
    };
    let crew = [(1u64, TilePos::new(3, 2))];
    let fx = complete_building(&mut map, &mut cables, &bp, &crew, &[], &mut log, &mut stats, 0);
    assert_eq!(map.tile(TilePos::new(3, 2)), Some(Tile::Door));
    assert!(fx.displaced.is_empty());
    assert!(fx.drops.is_empty());
    assert_eq!(log.entries.back().unwrap().text, "Door built at (3,2)");
}

#[test]
fn finished_cable_goes_into_the_underfloor_grid() {
    let mut map = room();
    let before = map.version;
    let mut cables = CableGrid::new(7, 5);
    let mut log = EventLog::new();
    let mut stats = Stats::default();
    let bp = Blueprint {
        kind: BuildingKind::PowerCable,
        foot: Footprint::new(3, 3, 1, 1),
        delivered: [0, 0, 0],
        progress: 1_000_000,
    };
    let fx = complete_building(&mut map, &mut cables, &bp, &[], &[], &mut log, &mut stats, 5);
    assert!(cables.has(TilePos::new(3, 3)));
    assert_eq!(map.version, before);
    assert_eq!(map.tile(TilePos::new(3, 3)), Some(Tile::Floor));
    assert!(fx.drops.is_empty());
    assert_eq!(stats.built, 1);
    assert_eq!(log.entries.back().unwrap().text, "Power cable laid at (3,3)");

    let b = Building { kind: BuildingKind::PowerCable, foot: Footprint::new(3, 3, 1, 1), demo_progress: 0 };
    let drops = complete_deconstruction(&mut map, &mut cables, &b, None, &[], &mut log, &mut stats, 6);
    assert!(!cables.has(TilePos::new(3, 3)));
    assert!(drops.is_empty());
    assert_eq!(stats.deconstructed, 1);
    assert_eq!(log.entries.back().unwrap().text, "Power cable removed at (3,3)");
}

#[test]
fn teardown_refunds_cost_then_rack_contents() {
    let mut map = room();
    let mut cables = CableGrid::new(7, 5);
    let mut log = EventLog::new();
    let mut stats = Stats::default();
    let b = Building { kind: BuildingKind::Rack, foot: Footprint::new(4, 2, 1, 1), demo_progress: 0 };
    let drops = complete_deconstruction(
        &mut map,
        &mut cables,
        &b,
        Some([1, 0, 0]),
        &[TilePos::new(4, 2)],
        &mut log,
        &mut stats,
        9,
    );
    assert_eq!(drops, vec![(TilePos::new(5, 2), ItemKind::Part), (TilePos::new(3, 2), ItemKind::Crate)]);
    assert_eq!(map.tile(TilePos::new(4, 2)), Some(Tile::Floor));
    assert_eq!(stats.deconstructed, 1);
    assert_eq!(log.entries.back().unwrap().text, "Storage Rack deconstructed — materials refunded");
}

#[test]
fn torn_down_wall_becomes_floor_again() {
    let mut map = room();
    let mut cables = CableGrid::new(7, 5);
    let mut log = EventLog::new();
    let mut stats = Stats::default();
    let bp = Blueprint {
        kind: BuildingKind::Wall,
        foot: Footprint::new(2, 2, 1, 1),
        delivered: [0, 0, 1],
        progress: 1_000_000,
    };
    complete_building(&mut map, &mut cables, &bp, &[], &[], &mut log, &mut stats, 1);
    assert!(!map.is_walkable(TilePos::new(2, 2)));
    let b = Building { kind: BuildingKind::Wall, foot: bp.foot, demo_progress: 0 };
    let drops = complete_deconstruction(&mut map, &mut cables, &b, None, &[], &mut log, &mut stats, 2);
    assert!(map.is_walkable(TilePos::new(2, 2)));
    assert_eq!(drops, vec![(TilePos::new(2, 2), ItemKind::Part)]);
}
