use ship_alive::building::{BuildingKind, Footprint};
use ship_alive::controls::{escape_effect, next_tool, pick_at, EscapeEffect, Selected, Tool};
use ship_alive::map::TilePos;

#[test]
fn picking_prefers_crew_then_items_then_racks_then_blueprints_then_buildings() {
    let t = TilePos::new(3, 3);
    let crews = vec![(1, TilePos::new(1, 1)), (2, t), (3, t)];
    let items = vec![(10, t)];
    let racks = vec![(20, t)];
    let bps = vec![(30, Footprint::new(2, 2, 2, 2))];
    let blds = vec![(40, Footprint::new(0, 0, 1, 1)), (41, Footprint::new(3, 3, 1, 1))];
    assert_eq!(pick_at(t, &crews, &items, &racks, &bps, &blds), Some(Selected::Crew(2)));
    assert_eq!(pick_at(t, &[], &items, &racks, &bps, &blds), Some(Selected::Item(10)));
    assert_eq!(pick_at(t, &[], &[], &racks, &bps, &blds), Some(Selected::Rack(20)));
    assert_eq!(pick_at(t, &[], &[], &[], &bps, &blds), Some(Selected::Blueprint(30)), "any footprint tile hits");
    assert_eq!(pick_at(t, &[], &[], &[], &[], &blds), Some(Selected::Building(41)));
    assert_eq!(pick_at(TilePos::new(9, 9), &crews, &items, &racks, &bps, &blds), None);
}

#[test]
fn build_key_cycles_through_every_tool() {
    let mut t = None;
    let mut seen = Vec::new();
    for _ in 0..8 {
        t = next_tool(t);
        seen.push(t);
    }
    assert_eq!(seen[0], Some(Tool::Build(BuildingKind::Wall)));
    assert_eq!(seen[5], Some(Tool::Build(BuildingKind::Reactor)));
    assert_eq!(seen[6], Some(Tool::Deconstruct));
    assert_eq!(seen[7], None);
}

#[test]
fn escape_closes_panels_before_tools_before_selection() {
    assert_eq!(escape_effect(true, Some(Tool::Deconstruct)), EscapeEffect::CloseWorkTab);
    assert_eq!(escape_effect(false, Some(Tool::Deconstruct)), EscapeEffect::ClearTool);
    assert_eq!(escape_effect(false, None), EscapeEffect::ClearSelection);
}
