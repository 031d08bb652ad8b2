use ship_alive::airtight::{
    boundary, door_axis, step_doors, Boundary, Compartments, Door, DoorAxis, DoorMode, DoorPhase, DOOR_HOLD_US,
    DOOR_MOVE_US, NO_REGION,
};
use ship_alive::map::{DoorTileState, ShipMap, TilePos, MAP_LAYOUT};

const SEC: i64 = 1_000_000;

/// Two rooms joined by a door at (3, 2).
fn two_rooms() -> ShipMap {
    ShipMap::from_layout(&["#######", "#..#..#", "#..D..#", "#..#..#", "#######"]).0
}

#[test]
fn door_axis_needs_a_wall_opening() {
    let map = two_rooms();
    assert_eq!(door_axis(&map, TilePos::new(3, 2)), Some(DoorAxis::Ew));
    assert_eq!(door_axis(&map, TilePos::new(1, 2)), None);
    assert_eq!(DoorAxis::Ns.label(), "N-S");
}

#[test]
fn auto_door_opens_holds_and_closes() {
    let mut d = Door::new(DoorAxis::Ew);
    assert!(d.sealed());
    // Demanded: opens over DOOR_MOVE_US.
    d.step(0, 10 * SEC as u64, true, false);
    assert_eq!(d.phase, DoorPhase::Opening);
    assert_eq!(d.progress, 10_000_000);
    assert_eq!(d.hold_until, DOOR_HOLD_US);
    d.step(10 * SEC, 20 * SEC as u64, false, false);
    assert_eq!(d.progress, DOOR_MOVE_US);
    assert_eq!(d.phase, DoorPhase::Open);
    assert!(d.passable());
    // Still inside the hold window: stays open.
    d.step(30 * SEC, SEC as u64, false, false);
    assert_eq!(d.phase, DoorPhase::Open);
    // Hold expired: closes, and a full close counts a cycle.
    d.step(40 * SEC, 30 * SEC as u64, false, false);
    assert_eq!(d.progress, 0);
    assert_eq!(d.phase, DoorPhase::Closed);
    assert_eq!(d.cycles, 1);
}

#[test]
fn door_never_closes_onto_crew() {
    let mut d = Door::new(DoorAxis::Ns);
    d.mode = DoorMode::LockClosed;
    d.progress = DOOR_MOVE_US / 2;
    d.step(0, SEC as u64, false, true);
    assert_eq!(d.progress, DOOR_MOVE_US / 2, "frozen while occupied");
    d.step(0, SEC as u64, false, false);
    assert_eq!(d.progress, DOOR_MOVE_US / 2 - 1_000_000);
    assert_eq!(d.phase, DoorPhase::Closing);
}

#[test]
fn hold_open_ignores_demand() {
    let mut d = Door::new(DoorAxis::Ns);
    d.mode = DoorMode::HoldOpen;
    d.step(0, 30 * SEC as u64, false, false);
    assert_eq!(d.progress, DOOR_MOVE_US);
    assert_eq!(DoorMode::HoldOpen.label(), "Hold Open");
}

#[test]
fn compartments_split_by_closed_door() {
    let map = two_rooms();
    let c = Compartments::rebuild(&map);
    assert_eq!(c.regions.len(), 2);
    assert_eq!(c.region_at(TilePos::new(1, 1)), 0);
    assert_eq!(c.region_at(TilePos::new(5, 3)), 1);
    assert_eq!(c.region_at(TilePos::new(3, 2)), NO_REGION);
    assert_eq!(c.region_at(TilePos::new(-1, 0)), NO_REGION);
    assert_eq!(c.doors.len(), 1);
    assert_eq!(c.doors[0].side_a, 0);
    assert_eq!(c.doors[0].side_b, 1);
    assert_eq!(c.air_groups, 2);
    assert_eq!(c.regions[0].cells, 6);
    assert_eq!(c.regions[0].bounding_min, TilePos::new(1, 1));
    assert_eq!(c.regions[0].bounding_max, TilePos::new(2, 3));
    assert_eq!(c.regions[0].centroid, TilePos::new(1, 2));
    assert!(!c.regions[0].exposed);
    assert_eq!(c.sealed_count(), 2);
    assert_eq!(c.exposed_count(), 0);
}

#[test]
fn open_door_joins_air() {
    let mut map = two_rooms();
    let mut c = Compartments::rebuild(&map);
    map.set_door_state(TilePos::new(3, 2), DoorTileState { open: DOOR_MOVE_US, locked: false });
    c.recompute_air(&map);
    assert_eq!(c.air_groups, 1);
    assert_eq!(c.air_group, vec![0, 0]);
    assert_eq!(c.air_recomputes, 2);
    assert_eq!(c.regions.len(), 2, "opening a door never changes the structure");
}

#[test]
fn region_touching_the_edge_is_exposed() {
    let map = ShipMap::from_layout(&["....", "#..#", "####"]).0;
    let c = Compartments::rebuild(&map);
    assert_eq!(c.regions.len(), 1);
    assert!(c.regions[0].exposed);
    assert_eq!(c.exposed_count(), 1);
}

#[test]
fn environment_boundary() {
    let mut map = two_rooms();
    assert_eq!(boundary(&map, TilePos::new(1, 1), TilePos::new(2, 1)), Boundary::Open);
    assert_eq!(boundary(&map, TilePos::new(2, 2), TilePos::new(3, 2)), Boundary::Blocked);
    assert_eq!(boundary(&map, TilePos::new(1, 1), TilePos::new(2, 2)), Boundary::Blocked);
    map.set_door_state(TilePos::new(3, 2), DoorTileState { open: DOOR_MOVE_US, locked: false });
    assert_eq!(boundary(&map, TilePos::new(2, 2), TilePos::new(3, 2)), Boundary::Open);
}

#[test]
fn stepping_doors_mirrors_into_the_map() {
    let mut map = two_rooms();
    let mut doors = vec![(TilePos::new(3, 2), Door::new(DoorAxis::Ew)), (TilePos::new(1, 1), Door::new(DoorAxis::Ew))];
    let (open, closed) = step_doors(&mut map, &mut doors, 0, 30 * SEC as u64, &[], &[TilePos::new(3, 2)]);
    assert_eq!((open, closed), (1, 0), "the second door's tile is not a door");
    assert_eq!(doors[0].1.progress, DOOR_MOVE_US);
    assert_eq!(doors[1].1.progress, 0);
    assert_eq!(map.door_state(TilePos::new(3, 2)), Some(DoorTileState { open: DOOR_MOVE_US, locked: false }));
}

#[test]
fn starter_ship_boots_with_seven_sealed_compartments() {
    let (map, _) = ShipMap::from_layout(&MAP_LAYOUT);
    let c = Compartments::rebuild(&map);
    assert_eq!(c.regions.len(), 7);
    assert_eq!(c.sealed_count(), 7);
    assert_eq!(c.exposed_count(), 0);
    assert_eq!(c.doors.len(), 5, "every preinstalled door is a portal");
    for d in &c.doors {
        assert_ne!(d.side_a, NO_REGION);
        assert_ne!(d.side_b, NO_REGION);
        assert_ne!(d.side_a, d.side_b);
    }
    assert_eq!(c.air_groups, 7, "all doors start closed");
    assert_eq!(c.region_at(TilePos::new(3, 16)), 6, "the sealed pocket is its own compartment");
    assert_eq!(c.regions[6].cells, 1);
}
