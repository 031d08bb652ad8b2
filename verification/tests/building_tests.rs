use ship_alive::building::{
    can_place, candidate_tiles, def, interaction_tiles, nearest_walkable, path_to_interaction, Blueprint, BuildingKind,
    Footprint, PlacementError,
};
use ship_alive::items::ItemKind;
use ship_alive::map::{ShipMap, TilePos};
use ship_alive::power::CableGrid;

fn room() -> ShipMap {
    ShipMap::from_layout(&["#######", "#.....#", "#.....#", "#.....#", "#######"]).0
}

#[test]
fn definitions_match_the_table() {
    let f = def(BuildingKind::Fabricator);
    assert_eq!((f.w, f.h), (2, 2));
    assert_eq!(f.cost, [0, 0, 4]);
    assert!(f.blocks);
    assert_eq!(def(BuildingKind::Door).work_secs, 180);
    assert_eq!(BuildingKind::Rack.label(), "Storage Rack");
}

#[test]
fn footprint_tiles_row_major() {
    let f = Footprint::new(2, 3, 2, 2);
    assert_eq!(
        f.tiles(),
        vec![TilePos::new(2, 3), TilePos::new(3, 3), TilePos::new(2, 4), TilePos::new(3, 4)]
    );
    assert!(f.contains(TilePos::new(3, 4)));
    assert!(!f.contains(TilePos::new(4, 4)));
}

#[test]
fn placement_checks_in_order() {
    let map = room();
    let cables = CableGrid::new(7, 5);
    assert_eq!(can_place(&map, BuildingKind::Wall, TilePos::new(1, 1), &[], &[], &cables), Ok(()));
    assert_eq!(
        can_place(&map, BuildingKind::Wall, TilePos::new(0, 1), &[], &[], &cables),
        Err(PlacementError::NotFloor)
    );
    assert_eq!(
        can_place(&map, BuildingKind::Fabricator, TilePos::new(5, 3), &[], &[], &cables),
        Err(PlacementError::NotFloor)
    );
    assert_eq!(
        can_place(&map, BuildingKind::Wall, TilePos::new(2, 2), &[TilePos::new(2, 2)], &[], &cables),
        Err(PlacementError::ItemInWay)
    );
    // Doors do not need a clear floor.
    assert_eq!(can_place(&map, BuildingKind::Door, TilePos::new(2, 2), &[TilePos::new(2, 2)], &[], &cables), Ok(()));
    let others = [(Footprint::new(3, 2, 1, 1), true)];
    assert_eq!(
        can_place(&map, BuildingKind::Fabricator, TilePos::new(2, 1), &[], &others, &cables),
        Err(PlacementError::OverlapsBlueprint)
    );
    let built = [(Footprint::new(3, 2, 1, 1), false)];
    assert_eq!(
        can_place(&map, BuildingKind::Fabricator, TilePos::new(2, 1), &[], &built, &cables),
        Err(PlacementError::OverlapsBuilding)
    );
    assert_eq!(
        can_place(&map, BuildingKind::Wall, TilePos::new(9, 9), &[], &[], &cables),
        Err(PlacementError::OutsideShip)
    );
}

#[test]
fn cable_placement_rules() {
    let map = room();
    let mut cables = CableGrid::new(7, 5);
    assert_eq!(can_place(&map, BuildingKind::PowerCable, TilePos::new(2, 2), &[], &[], &cables), Ok(()));
    assert_eq!(
        can_place(&map, BuildingKind::PowerCable, TilePos::new(0, 2), &[], &[], &cables),
        Err(PlacementError::OutsideShip)
    );
    cables.set(TilePos::new(2, 2), true);
    assert_eq!(
        can_place(&map, BuildingKind::PowerCable, TilePos::new(2, 2), &[], &[], &cables),
        Err(PlacementError::CableExists)
    );
    let planned = [(Footprint::new(3, 2, 1, 1), true)];
    assert_eq!(
        can_place(&map, BuildingKind::PowerCable, TilePos::new(3, 2), &[], &planned, &cables),
        Err(PlacementError::CableExists)
    );
    assert_eq!(PlacementError::CableExists.label(), "a cable already runs here");
}

#[test]
fn candidates_then_interaction_tiles() {
    let map = room();
    let f = Footprint::new(1, 1, 1, 1);
    let c = candidate_tiles(&f);
    assert_eq!(c.len(), 5);
    assert_eq!(c[0], TilePos::new(1, 1));
    assert_eq!(c[1], TilePos::new(2, 1));
    let t = interaction_tiles(&map, &f);
    // Footprint tile, then east and south neighbours (west/north are hull).
    assert_eq!(t, vec![TilePos::new(1, 1), TilePos::new(2, 1), TilePos::new(1, 2)]);
}

#[test]
fn interaction_path_goes_to_the_nearest_tile() {
    let map = room();
    let f = Footprint::new(3, 2, 1, 1);
    let p = path_to_interaction(&map, TilePos::new(1, 2), &f).unwrap();
    assert_eq!(*p.last().unwrap(), TilePos::new(2, 2));
    assert_eq!(p.len(), 1);
    // A crew member already standing on an interaction tile needs no steps.
    assert!(path_to_interaction(&map, TilePos::new(2, 2), &f).unwrap().is_empty());
}

#[test]
fn interaction_unreachable_behind_walls() {
    let map = ShipMap::from_layout(&["#####", "#.#.#", "#####"]).0;
    let f = Footprint::new(3, 1, 1, 1);
    assert!(path_to_interaction(&map, TilePos::new(1, 1), &f).is_none());
}

#[test]
fn nearest_walkable_scans_rings() {
    let map = room();
    assert_eq!(nearest_walkable(&map, TilePos::new(3, 2)), Some(TilePos::new(2, 1)));
    let solid = ShipMap::from_layout(&["###", "###", "###"]).0;
    assert_eq!(nearest_walkable(&solid, TilePos::new(1, 1)), None);
}

#[test]
fn blueprint_materials() {
    let mut bp = Blueprint {
        kind: BuildingKind::Fabricator,
        foot: Footprint::new(1, 1, 2, 2),
        delivered: [0, 0, 1],
        progress: 0,
    };
    assert_eq!(bp.missing(ItemKind::Part), 3);
    assert_eq!(bp.missing(ItemKind::Ore), 0);
    assert_eq!(bp.missing_list(), vec![(ItemKind::Part, 3)]);
    assert!(!bp.fully_supplied());
    assert_eq!(bp.materials_label(), "part 1/4");
    bp.delivered = [0, 0, 5];
    assert!(bp.fully_supplied());
    assert_eq!(bp.missing_list(), vec![]);
}
