use ship_alive::building::{Blueprint, BuildingKind, Footprint};
use ship_alive::coolant::{pipe_networks, PipeGrid};
use ship_alive::crew::{CrewTask, HaulDest, HaulJob, HaulPhase, IdleCause, WorkJob, WorkPhase};
use ship_alive::graph::NO_LABEL;
use ship_alive::items::ItemKind;
use ship_alive::jobs::{cancel_blueprint, DELIVER_US, PICKUP_US, RESCAN_CANCELED_US, RESCAN_UNREACHABLE_US};
use ship_alive::map::{ShipMap, TilePos};
use ship_alive::production::{Fabricator, Order};
use ship_alive::task::{
    after_delivery,
    build_step, deconstruct_step, end_haul, haul_step, operate_step, HaulCancel, HaulFail, HaulStep, ItemView, JobEnd,
    WorkStep,
};
use ship_alive::thermal::ThermalState;

fn room() -> ShipMap {
    ShipMap::from_layout(&["#######", "#.....#", "#.....#", "#.....#", "#######"]).0
}

fn going(target: u64) -> WorkJob {
    WorkJob { target, phase: WorkPhase::Going, timer: 0, total: 0 }
}

fn working(target: u64, timer: i64) -> WorkJob {
    WorkJob { target, phase: WorkPhase::Working, timer, total: 1000 }
}

#[test]
fn build_job_starts_on_arrival() {
    let map = room();
    let foot = Some(Footprint::new(3, 2, 1, 1));
    match build_step(&map, TilePos::new(2, 2), true, going(4), foot, 180_000_000, 1000) {
        WorkStep::Started(j) => {
            assert_eq!(j, WorkJob { target: 4, phase: WorkPhase::Working, timer: 180_000_000, total: 180_000_000 });
        }
        _ => panic!("expected the work to start"),
    }
}

#[test]
fn build_job_routes_to_the_nearest_interaction_tile() {
    let map = room();
    let foot = Some(Footprint::new(3, 2, 1, 1));
    match build_step(&map, TilePos::new(5, 3), true, going(4), foot, 1, 1) {
        WorkStep::Route(p) => assert_eq!(p.last(), Some(&TilePos::new(4, 2))),
        _ => panic!("expected a route"),
    }
    assert!(matches!(build_step(&map, TilePos::new(5, 3), false, going(4), foot, 1, 1), WorkStep::Wait));
}

#[test]
fn build_job_works_down_and_finishes() {
    let map = room();
    let foot = Some(Footprint::new(3, 2, 1, 1));
    match build_step(&map, TilePos::new(2, 2), true, working(4, 100), foot, 1, 30) {
        WorkStep::Progress(j) => assert_eq!(j.timer, 70),
        _ => panic!("expected progress"),
    }
    assert!(matches!(build_step(&map, TilePos::new(2, 2), true, working(4, 100), foot, 1, 100), WorkStep::Finished));
    match build_step(&map, TilePos::new(5, 3), true, working(4, 100), foot, 1, 30) {
        WorkStep::Resume(j) => assert_eq!(j, WorkJob { phase: WorkPhase::Going, ..working(4, 100) }),
        _ => panic!("expected to walk back"),
    }
    assert!(matches!(build_step(&map, TilePos::new(2, 2), true, going(4), None, 1, 1), WorkStep::Abort(JobEnd::BlueprintGone)));
    assert_eq!(JobEnd::BlueprintGone.rescan_after(), RESCAN_CANCELED_US);
    assert!(!JobEnd::BlueprintGone.releases_target());
    assert_eq!(JobEnd::BlueprintGone.detail(), "blueprint gone");
}

#[test]
fn unreachable_blueprint_ends_the_job() {
    let map = ShipMap::from_layout(&["#####", "#.#.#", "#####"]).0;
    let foot = Some(Footprint::new(3, 1, 1, 1));
    let r = build_step(&map, TilePos::new(1, 1), true, going(4), foot, 1, 1);
    assert!(matches!(r, WorkStep::Abort(JobEnd::NoPathToBlueprint)));
    assert_eq!(JobEnd::NoPathToBlueprint.rescan_after(), RESCAN_UNREACHABLE_US);
}

#[test]
fn deconstruction_stops_when_unmarked() {
    let map = room();
    let foot = Some(Footprint::new(3, 2, 1, 1));
    let r = deconstruct_step(&map, TilePos::new(2, 2), true, going(4), foot, false, 1, 1);
    assert!(matches!(r, WorkStep::Abort(JobEnd::Unmarked)));
    let r = deconstruct_step(&map, TilePos::new(2, 2), true, going(4), None, true, 1, 1);
    assert!(matches!(r, WorkStep::Abort(JobEnd::BuildingGone)));
}

#[test]
fn operating_needs_power_and_slows_when_hot() {
    let map = room();
    let foot = Some(Footprint::new(3, 2, 2, 2));
    let at = TilePos::new(2, 2);
    let r = operate_step(&map, at, true, going(7), foot, false, true, false, None, 6_000_000, 1000);
    assert!(matches!(r, WorkStep::Abort(JobEnd::OrderCanceled)));
    let r = operate_step(&map, at, true, working(7, 1000), foot, true, false, true, None, 6_000_000, 1000);
    assert!(matches!(r, WorkStep::Abort(JobEnd::PowerLost)));
    let r = operate_step(&map, at, true, working(7, 1000), foot, true, true, false, None, 6_000_000, 1000);
    assert!(matches!(r, WorkStep::Abort(JobEnd::Interrupted)));
    match operate_step(&map, at, true, working(7, 1000), foot, true, true, true, Some(ThermalState::Overheat), 6_000_000, 1000) {
        WorkStep::Progress(j) => assert_eq!(j.timer, 600),
        _ => panic!("expected derated progress"),
    }
    match operate_step(&map, at, true, working(7, 1000), foot, true, true, true, Some(ThermalState::Critical), 6_000_000, 1000) {
        WorkStep::Progress(j) => assert_eq!(j.timer, 1000),
        _ => panic!("a critical machine stalls"),
    }
    assert_eq!(ThermalState::Overheat.work_factor_ppm(), 400_000);
    assert_eq!(ThermalState::Critical.label(), "THERMAL CRITICAL");
}

fn haul(phase: HaulPhase, dest: HaulDest, timer: i64) -> HaulJob {
    HaulJob { item: 11, phase, dest, target_rack: None, timer }
}

fn on_ground(x: i32, y: i32, marked: bool) -> Option<ItemView> {
    Some(ItemView { pos: TilePos::new(x, y), marked, carried_by: None })
}

#[test]
fn haul_cancels_before_pickup() {
    let map = room();
    let job = haul(HaulPhase::ToItem, HaulDest::Storage, 0);
    let pos = TilePos::new(1, 1);
    assert!(matches!(
        haul_step(&map, 1, pos, true, job, None, &[], None, None, false, &[], 1),
        HaulStep::Cancel(HaulCancel::TargetVanished)
    ));
    assert!(matches!(
        haul_step(&map, 1, pos, true, job, on_ground(3, 2, false), &[], None, None, false, &[], 1),
        HaulStep::Cancel(HaulCancel::ItemUnmarked)
    ));
    let held = Some(ItemView { pos: TilePos::new(3, 2), marked: true, carried_by: Some(2) });
    assert!(matches!(
        haul_step(&map, 1, pos, true, job, held, &[], None, None, false, &[], 1),
        HaulStep::Cancel(HaulCancel::ClaimedElsewhere)
    ));
    assert_eq!(HaulCancel::ClaimedElsewhere.detail(), "item claimed elsewhere");
}

#[test]
fn haul_walks_picks_up_and_delivers_to_a_rack() {
    let map = room();
    let item = on_ground(3, 2, true);
    let racks = [(9u64, TilePos::new(5, 1))];
    let rack_tiles = [TilePos::new(5, 1)];
    let at_item = TilePos::new(3, 2);
    match haul_step(&map, 1, at_item, true, haul(HaulPhase::ToItem, HaulDest::Storage, 0), item, &racks, None, None, false, &rack_tiles, 1) {
        HaulStep::Go(j, None) => assert_eq!(j, haul(HaulPhase::PickingUp, HaulDest::Storage, PICKUP_US)),
        _ => panic!("expected the pickup beat"),
    }
    match haul_step(&map, 1, at_item, true, haul(HaulPhase::PickingUp, HaulDest::Storage, 10), item, &racks, None, None, false, &rack_tiles, 10) {
        HaulStep::PickUp(j, Some(p)) => {
            assert_eq!(j.phase, HaulPhase::ToDest);
            assert_eq!(j.target_rack, Some(9));
            assert_eq!(p.last(), Some(&TilePos::new(5, 1)));
        }
        _ => panic!("expected a pickup toward the rack"),
    }
    let mut carry = haul(HaulPhase::ToDest, HaulDest::Storage, 0);
    carry.target_rack = Some(9);
    let carried = Some(ItemView { pos: TilePos::new(5, 1), marked: true, carried_by: Some(1) });
    match haul_step(&map, 1, TilePos::new(5, 1), true, carry, carried, &racks, Some((TilePos::new(5, 1), true)), None, false, &rack_tiles, 1) {
        HaulStep::Go(j, None) => assert_eq!((j.phase, j.timer), (HaulPhase::Delivering, DELIVER_US)),
        _ => panic!("expected the delivery beat"),
    }
    let mut deliver = carry;
    deliver.phase = HaulPhase::Delivering;
    deliver.timer = 5;
    assert!(matches!(
        haul_step(&map, 1, TilePos::new(5, 1), true, deliver, carried, &racks, Some((TilePos::new(5, 1), true)), None, false, &rack_tiles, 5),
        HaulStep::Deliver
    ));
    match haul_step(&map, 1, TilePos::new(5, 1), true, deliver, carried, &racks, Some((TilePos::new(5, 1), false)), None, false, &rack_tiles, 5) {
        HaulStep::Go(j, None) => assert_eq!(j.phase, HaulPhase::ToDest),
        _ => panic!("a full rack sends the hauler back"),
    }
}

#[test]
fn haul_failures_drop_carried_items() {
    let map = room();
    let item = on_ground(3, 2, true);
    let at_item = TilePos::new(3, 2);
    match haul_step(&map, 1, at_item, true, haul(HaulPhase::PickingUp, HaulDest::Storage, 0), item, &[], None, None, false, &[], 1) {
        HaulStep::Fail(f, d) => {
            assert_eq!(f, HaulFail::NoStorage);
            assert_eq!(d, Some(TilePos::new(3, 2)));
        }
        _ => panic!("expected a failure"),
    }
    // The blueprint vanished while the item was carried: go to storage.
    let carried = Some(ItemView { pos: TilePos::new(2, 2), marked: false, carried_by: Some(1) });
    let mut deliver = haul(HaulPhase::Delivering, HaulDest::Blueprint(5), 1);
    deliver.timer = 1;
    match haul_step(&map, 1, TilePos::new(2, 2), true, deliver, carried, &[], None, None, false, &[], 1) {
        HaulStep::Go(j, None) => assert_eq!((j.dest, j.phase), (HaulDest::Storage, HaulPhase::ToDest)),
        _ => panic!("expected the fallback to storage"),
    }
    let walled = ShipMap::from_layout(&["#####", "#.#.#", "#####"]).0;
    let far = on_ground(3, 1, true);
    match haul_step(&walled, 1, TilePos::new(1, 1), true, haul(HaulPhase::ToItem, HaulDest::Storage, 0), far, &[], None, None, false, &[], 1) {
        HaulStep::Fail(f, d) => {
            assert_eq!(f, HaulFail::NoPathToItem);
            assert_eq!(d, None);
        }
        _ => panic!("expected no path"),
    }
}

#[test]
fn ending_a_haul_drops_only_carried_items() {
    let map = room();
    let mut task = CrewTask::Haul(haul(HaulPhase::ToDest, HaulDest::Storage, 0));
    let cause = IdleCause::JobCanceled { detail: "player canceled all jobs".to_string() };
    let drop = end_haul(&map, &mut task, TilePos::new(2, 2), &[TilePos::new(2, 2)], cause.clone());
    assert_eq!(drop, Some(TilePos::new(3, 2)));
    assert_eq!(task, CrewTask::Idle(cause.clone()));
    let mut task = CrewTask::Haul(haul(HaulPhase::ToItem, HaulDest::Storage, 0));
    assert_eq!(end_haul(&map, &mut task, TilePos::new(2, 2), &[], cause), None);
}

#[test]
fn canceled_blueprint_ends_its_jobs_and_refunds() {
    let map = room();
    let bp = Blueprint { kind: BuildingKind::Door, foot: Footprint::new(2, 2, 1, 1), delivered: [0, 0, 2], progress: 0 };
    let tasks = vec![
        CrewTask::Build(going(5)),
        CrewTask::Haul(haul(HaulPhase::ToDest, HaulDest::Blueprint(5), 0)),
        CrewTask::Haul(haul(HaulPhase::ToDest, HaulDest::Storage, 0)),
        CrewTask::Idle(IdleCause::Looking),
    ];
    let c = cancel_blueprint(&map, 5, &bp, &tasks);
    assert_eq!(c.ended, vec![0, 1]);
    assert_eq!(c.refunds, vec![(TilePos::new(2, 2), ItemKind::Part), (TilePos::new(3, 2), ItemKind::Part)]);
}

#[test]
fn fabricator_orders() {
    let mut f = Fabricator::default();
    f.add_to_order(3);
    assert_eq!(f.order, Some(Order { batches: 3, repeat: false }));
    f.add_to_order(u32::MAX);
    assert_eq!(f.order, Some(Order { batches: u32::MAX, repeat: false }));
    f.toggle_repeat();
    assert_eq!(f.order, Some(Order { batches: u32::MAX, repeat: true }));
    f.active = true;
    f.clear_order();
    assert_eq!(f.order, None);
    assert!(!f.active);
    let mut g = Fabricator::default();
    g.toggle_repeat();
    assert_eq!(g.order, Some(Order { batches: 0, repeat: true }));
}

#[test]
fn pipe_networks_split_by_connectivity() {
    let mut pipes = PipeGrid::new(4, 3);
    for (x, y) in [(0, 0), (1, 0), (3, 0), (3, 1), (0, 2)] {
        assert!(pipes.set(TilePos::new(x, y), true));
    }
    assert!(!pipes.set(TilePos::new(0, 0), true));
    assert_eq!(pipes.version, 5);
    let nets = pipe_networks(&pipes);
    assert_eq!(nets.order, vec![vec![0, 1], vec![3, 7], vec![8]]);
    assert_eq!(nets.net_of[7], 1);
    assert_eq!(nets.net_of[2], NO_LABEL);
    assert_eq!(pipes.iter_pipes().len(), 5);
}

#[test]
fn pipe_walk_is_depth_first_smallest_neighbour_first() {
    let mut pipes = PipeGrid::new(3, 3);
    for y in 0..3 {
        for x in 0..3 {
            pipes.set(TilePos::new(x, y), true);
        }
    }
    let nets = pipe_networks(&pipes);
    assert_eq!(nets.order, vec![vec![0, 1, 2, 5, 8, 7, 6, 4, 3]]);
}

#[test]
fn footprint_distance_is_to_the_nearest_tile() {
    let f = Footprint::new(3, 2, 2, 2);
    let d = f.distance_to(TilePos::new(0, 2)).unwrap();
    assert_eq!((d.straight, d.diag), (3, 0));
    let d = f.distance_to(TilePos::new(6, 5)).unwrap();
    assert_eq!((d.straight, d.diag), (4, 0));
    let d = Footprint::new(0, 0, 1, 1).distance_to(TilePos::new(3, 3)).unwrap();
    assert_eq!((d.straight, d.diag), (6, 0));
    assert!(Footprint::new(3, 2, 0, 2).distance_to(TilePos::new(0, 0)).is_none());
}

#[test]
fn critical_reactor_keeps_power_for_its_pumps() {
    let map = ShipMap::from_layout(&["##########", "#........#", "#........#", "##########"]).0;
    let mut g = ship_alive::power::CableGrid::new(10, 4);
    for x in 1..9 {
        g.set(TilePos::new(x, 1), true);
    }
    let devices = vec![
        ship_alive::power::PowerDevice { id: 1, foot: Footprint::new(1, 1, 1, 1), role: ship_alive::power::PowerRole::generator() },
        ship_alive::power::PowerDevice { id: 2, foot: Footprint::new(4, 1, 1, 1), role: ship_alive::power::PowerRole::consumer(6) },
        ship_alive::power::PowerDevice { id: 3, foot: Footprint::new(7, 1, 1, 1), role: ship_alive::power::PowerRole::consumer(6) },
        ship_alive::power::PowerDevice { id: 4, foot: Footprint::new(8, 2, 1, 1), role: ship_alive::power::PowerRole::consumer(6) },
    ];
    let s = ship_alive::power::solve_power(&map, &g, &devices);
    let pumps = [false, true, true, false];
    assert_eq!(ship_alive::thermal::emergency_output_for(&s, &pumps, 0), 2 * 6 + 4);
    let alone = ship_alive::power::solve_power(&map, &ship_alive::power::CableGrid::new(10, 4), &devices);
    assert_eq!(ship_alive::thermal::emergency_output_for(&alone, &pumps, 0), 6 + 4);
}

#[test]
fn air_tiles_and_gas_labels() {
    use_air_tiles();
}

fn use_air_tiles() {
    assert!(ship_alive::atmosphere::is_air_tile(Some(ship_alive::map::Tile::Machine)));
    assert!(!ship_alive::atmosphere::is_air_tile(Some(ship_alive::map::Tile::BuiltWall)));
    assert!(!ship_alive::atmosphere::is_air_tile(None));
    assert_eq!(ship_alive::atmosphere::Species::Co2.label(), "CO2");
    assert_eq!(ship_alive::atmosphere::Species::Pollutant.index(), 3);
    assert_eq!(ship_alive::atmosphere::Hazard::LowO2.label(), "LOW O2");
}

#[test]
fn delivery_hand_over_ends_or_resumes_the_job() {
    let job = HaulJob { item: 7, phase: HaulPhase::Delivering, dest: HaulDest::Storage, target_rack: Some(3), timer: 0 };
    let (task, rescan) = after_delivery(job, true, 42);
    assert_eq!(task, CrewTask::Idle(IdleCause::Looking));
    assert_eq!(rescan, Some(42));
    let (task, rescan) = after_delivery(job, false, 42);
    assert_eq!(task, CrewTask::Haul(HaulJob { phase: HaulPhase::ToDest, ..job }));
    assert_eq!(rescan, None);
}
