use ship_alive::building::Footprint;
use ship_alive::crew::{HaulDest, Priority};
use ship_alive::dist::OctDist;
use ship_alive::items::ItemKind;
use ship_alive::jobs::rank_candidates;
use ship_alive::map::TilePos;
use ship_alive::scan::{scan_work, FabView, GroundItem, RackView, ScanWorld, SiteView, Target};
use ship_alive::storage::StorageCell;

fn straight(n: u64) -> OctDist {
    OctDist { straight: n, diag: 0 }
}

fn world(rack_cell: StorageCell, inflight: Vec<(u64, ItemKind)>) -> ScanWorld {
    let ore = GroundItem { id: 1, pos: TilePos::new(5, 0), kind: ItemKind::Ore, cooled_until: i64::MIN };
    let part = GroundItem { id: 2, pos: TilePos::new(2, 0), kind: ItemKind::Part, cooled_until: i64::MIN };
    ScanWorld {
        ground: vec![ore, part],
        marked_free: vec![part],
        racks: vec![RackView { id: 10, pos: TilePos::new(1, 1), cell: rack_cell }],
        bp_needs: vec![(20, ItemKind::Part, 1)],
        fab_needs: vec![(30, 2)],
        inflight,
        fabs: vec![FabView {
            id: 30,
            foot: Footprint::new(6, 0, 2, 2),
            output: [0, 0, 1],
            ready: true,
            powered: true,
            reserved: false,
        }],
        blueprints: vec![SiteView { id: 21, foot: Footprint::new(3, 3, 1, 1), open: false, reserved: false }],
        buildings: vec![SiteView { id: 40, foot: Footprint::new(0, 2, 1, 1), open: true, reserved: false }],
        claims: vec![],
    }
}

#[test]
fn scan_lists_every_category_in_order() {
    let w = world(StorageCell::default(), vec![]);
    let r = scan_work(&w, TilePos::new(0, 0), 0, Priority::Normal, Priority::High, Priority::Low);
    let got: Vec<(Priority, OctDist, Target)> =
        r.cands.iter().zip(r.targets.iter()).map(|(c, t)| (c.prio, c.dist, *t)).collect();
    assert_eq!(
        got,
        vec![
            (Priority::Normal, straight(2), Target::Ground { item: 2, dest: HaulDest::Storage }),
            (Priority::Normal, straight(2), Target::Ground { item: 2, dest: HaulDest::Blueprint(20) }),
            (Priority::Normal, straight(5), Target::Ground { item: 1, dest: HaulDest::Machine(30) }),
            (Priority::Normal, straight(6), Target::MachineOut { fab: 30, kind: ItemKind::Part }),
            (Priority::High, straight(2), Target::Demo { building: 40 }),
            (Priority::Low, straight(6), Target::Operate { fab: 30 }),
        ]
    );
    assert!(r.marked_any_free);
    assert!(r.storage_ok);
    assert_eq!(rank_candidates(&r.cands)[0], 4, "the high-priority teardown goes first");
}

#[test]
fn covered_demands_and_disabled_work_add_nothing() {
    let w = world(StorageCell::default(), vec![(30, ItemKind::Ore), (30, ItemKind::Ore), (20, ItemKind::Part)]);
    let r = scan_work(&w, TilePos::new(0, 0), 0, Priority::Disabled, Priority::High, Priority::Disabled);
    assert_eq!(r.targets, vec![Target::Demo { building: 40 }]);
    assert!(!r.marked_any_free);
    assert!(!r.storage_ok);
    let r = scan_work(&w, TilePos::new(0, 0), 0, Priority::Normal, Priority::Disabled, Priority::Disabled);
    assert_eq!(
        r.targets,
        vec![
            Target::Ground { item: 2, dest: HaulDest::Storage },
            Target::MachineOut { fab: 30, kind: ItemKind::Part },
        ],
        "blueprint and fabricator demands are already covered by hauls under way"
    );
}

#[test]
fn full_racks_refuse_storage_and_cooled_items_wait() {
    let full = StorageCell::with_stock(ItemKind::Crate, 4);
    let mut w = world(full, vec![]);
    let r = scan_work(&w, TilePos::new(0, 0), 0, Priority::Normal, Priority::Disabled, Priority::Disabled);
    assert!(r.marked_any_free);
    assert!(!r.storage_ok, "no rack has room");
    assert!(!r.targets.iter().any(|t| matches!(t, Target::Ground { dest: HaulDest::Storage, .. })));
    assert!(!r.targets.iter().any(|t| matches!(t, Target::MachineOut { .. })));
    w.marked_free[0].cooled_until = 100;
    let r = scan_work(&w, TilePos::new(0, 0), 0, Priority::Normal, Priority::Disabled, Priority::Disabled);
    assert!(r.marked_any_free, "a cooled item still counts as free");
    assert!(!r.storage_ok);
}

#[test]
fn rack_stock_supplies_when_no_loose_item_exists() {
    let mut w = world(StorageCell::with_stock(ItemKind::Part, 1), vec![]);
    w.ground.retain(|g| g.kind != ItemKind::Part);
    w.marked_free.clear();
    let r = scan_work(&w, TilePos::new(0, 0), 0, Priority::Normal, Priority::Disabled, Priority::Disabled);
    assert_eq!(r.targets[0], Target::RackPull { rack: 10, kind: ItemKind::Part, dest: HaulDest::Blueprint(20) });
    assert_eq!(r.cands[0].dist, OctDist { straight: 1, diag: 1 }, "one tile further than the rack itself");
}

#[test]
fn claimed_and_reserved_sites_are_skipped() {
    let mut w = world(StorageCell::default(), vec![]);
    w.claims.push(40);
    w.fabs[0].reserved = true;
    let r = scan_work(&w, TilePos::new(0, 0), 0, Priority::Disabled, Priority::High, Priority::Low);
    assert!(r.targets.is_empty());
}
