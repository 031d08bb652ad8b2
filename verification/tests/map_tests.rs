use ship_alive::map::{ShipMap, SpawnReq, TilePos, Tile, MAP_LAYOUT};

fn test_map() -> ShipMap {
    ShipMap::from_layout(&["#####", "#...#", "#.#.#", "#...#", "#####"]).0
}

fn count(spawns: &[SpawnReq], f: fn(&SpawnReq) -> bool) -> usize {
    spawns.iter().filter(|s| f(s)).count()
}

#[test]
fn layout_parses_with_valid_rows() {
    let (map, spawns) = ShipMap::from_layout(&MAP_LAYOUT);
    assert_eq!(map.width, 36);
    assert_eq!(map.height, 19);
    assert_eq!(count(&spawns, |s| matches!(s, SpawnReq::Crew { .. })), 4);
    assert_eq!(count(&spawns, |s| matches!(s, SpawnReq::Rack { .. })), 10);
    assert_eq!(count(&spawns, |s| matches!(s, SpawnReq::Fabricator { .. })), 1);
    assert_eq!(count(&spawns, |s| matches!(s, SpawnReq::Reactor { .. })), 1);
    assert_eq!(count(&spawns, |s| matches!(s, SpawnReq::Cable { .. })), 4);
    assert_eq!(count(&spawns, |s| matches!(s, SpawnReq::Pipe { .. })), 14, "9 plain pipes + 5 device tiles");
    assert_eq!(count(&spawns, |s| matches!(s, SpawnReq::Pump { .. })), 1);
    assert_eq!(count(&spawns, |s| matches!(s, SpawnReq::Reservoir { .. })), 1);
    assert_eq!(count(&spawns, |s| matches!(s, SpawnReq::HeatExchanger { .. })), 1);
    assert_eq!(count(&spawns, |s| matches!(s, SpawnReq::Radiator { .. })), 2);
    assert_eq!(
        count(&spawns, |s| matches!(s, SpawnReq::Door { .. })),
        5,
        "five preinstalled auto doors (6 sealed compartments at boot)"
    );
    assert_eq!(count(&spawns, |s| matches!(s, SpawnReq::Item { .. })), 24);
}

#[test]
fn walkability() {
    let map = test_map();
    assert!(map.is_walkable(TilePos::new(1, 1)));
    assert!(!map.is_walkable(TilePos::new(0, 0)));
    assert!(!map.is_walkable(TilePos::new(2, 2)));
    assert!(!map.is_walkable(TilePos::new(-1, 1)));
    assert!(!map.is_walkable(TilePos::new(9, 9)));
}

#[test]
fn layout_validation_rejects_ragged_and_unknown() {
    assert!(ShipMap::layout_is_valid(&["###", "#.#", "###"]));
    assert!(!ShipMap::layout_is_valid(&["###", "#.", "###"]));
    assert!(!ShipMap::layout_is_valid(&["###", "#?#", "###"]));
}

#[test]
fn set_tile_bumps_version_and_resets_door() {
    let mut map = test_map();
    let p = TilePos::new(2, 1);
    map.set_tile(p, Tile::Door);
    assert_eq!(map.version, 1);
    assert_eq!(map.tile(p), Some(Tile::Door));
    assert!(map.is_walkable(p));
    map.set_door_state(p, ship_alive::map::DoorTileState { open: 0, locked: true });
    assert!(!map.is_walkable(p));
    assert!(map.is_standable(p));
    assert_eq!(map.version, 1, "door state is runtime data, not geometry");
    map.set_tile(p, Tile::Floor);
    assert_eq!(map.version, 2);
    assert_eq!(map.door_state(p), None);
}

#[test]
fn drop_tile_prefers_center_and_avoids_racks() {
    let map = test_map();
    let c = TilePos::new(1, 1);
    assert_eq!(ship_alive::map::find_drop_tile(&map, c, &[]), Some(c));
    let d = ship_alive::map::find_drop_tile(&map, c, &[c]).unwrap();
    assert_ne!(d, c);
    assert!(map.is_walkable(d));
    assert_eq!(d, TilePos::new(2, 1));
}
