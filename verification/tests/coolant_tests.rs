use ship_alive::map::TilePos;
use ship_alive::building::{BuildingKind, Footprint};
use ship_alive::coolant::{
    coolant_topology, pipe_networks, PipeGrid, reservoir_cells, walk_start, CoolantDevice, CoolantNet, CoolantRole,
};
use ship_alive::thermal::{reactor_output, thermal_log_text, TempBand, ThermalState};

#[test]
fn pipe_grid_set_and_version() {
    let mut g = PipeGrid::new(8, 4);
    assert!(!g.has(TilePos::new(1, 1)));
    assert!(g.set(TilePos::new(1, 1), true));
    assert!(g.has(TilePos::new(1, 1)));
    assert_eq!(g.version, 1);
    assert!(!g.set(TilePos::new(1, 1), true));
    assert!(!g.set(TilePos::new(9, 9), true));
}

#[test]
fn pipe_grid_lists_pipes_in_row_order() {
    let mut g = PipeGrid::new(4, 3);
    g.set(TilePos::new(3, 2), true);
    g.set(TilePos::new(0, 1), true);
    g.set(TilePos::new(2, 1), true);
    assert_eq!(g.iter_pipes(), vec![TilePos::new(0, 1), TilePos::new(2, 1), TilePos::new(3, 2)]);
    assert!(g.set(TilePos::new(2, 1), false));
    assert_eq!(g.version, 4);
    assert_eq!(g.iter_pipes(), vec![TilePos::new(0, 1), TilePos::new(3, 2)]);
}


fn two_loops() -> PipeGrid {
    let mut g = PipeGrid::new(6, 3);
    for x in [0, 1, 2, 4, 5] {
        g.set(TilePos::new(x, 1), true);
    }
    g
}

#[test]
fn devices_attach_to_the_network_under_them() {
    let pipes = two_loops();
    let nets = pipe_networks(&pipes);
    assert_eq!(nets.order, vec![vec![6, 7, 8], vec![10, 11]]);
    let dev = |x: i32, role: CoolantRole| CoolantDevice { tile: Some(TilePos::new(x, 1)), role };
    let devices = vec![
        dev(2, CoolantRole::Pump { powered: true }),
        dev(0, CoolantRole::Pump { powered: false }),
        dev(1, CoolantRole::Exchanger),
        dev(4, CoolantRole::Radiator { hull_ok: true }),
        dev(5, CoolantRole::Radiator { hull_ok: false }),
        CoolantDevice { tile: None, role: CoolantRole::Pump { powered: true } },
        dev(3, CoolantRole::Exchanger),
    ];
    let t = coolant_topology(&pipes, &nets, &devices);
    assert_eq!(t.device_net, vec![Some(0), Some(0), Some(0), Some(1), Some(1), None, None]);
    assert_eq!(t.nets[0], CoolantNet { tiles: 3, pumps: 2, powered_pumps: 1, exchangers: 1, radiators: 0 });
    assert_eq!(t.nets[1], CoolantNet { tiles: 2, pumps: 0, powered_pumps: 0, exchangers: 0, radiators: 1 });
    assert_eq!(t.pump_start, vec![Some(8), None]);
    assert_eq!(t.nets[0].status_label(), "Circulating");
    assert_eq!(t.nets[1].status_label(), "No pump");
}

#[test]
fn circulation_starts_at_the_first_powered_pump() {
    let pipes = two_loops();
    let nets = pipe_networks(&pipes);
    let devices = vec![
        CoolantDevice { tile: Some(TilePos::new(2, 1)), role: CoolantRole::Pump { powered: true } },
        CoolantDevice { tile: Some(TilePos::new(1, 1)), role: CoolantRole::Pump { powered: true } },
    ];
    let t = coolant_topology(&pipes, &nets, &devices);
    assert_eq!(t.pump_start[0], Some(7), "the lower cell wins");
    assert_eq!(walk_start(&nets.order[0], t.pump_start[0]), 1);
    assert_eq!(walk_start(&nets.order[1], t.pump_start[1]), 0);
    assert_eq!(walk_start(&nets.order[0], Some(99)), 0);
}

#[test]
fn network_status_labels() {
    let net = |tiles: u32, pumps: u32, powered_pumps: u32| CoolantNet { tiles, pumps, powered_pumps, exchangers: 0, radiators: 0 };
    assert_eq!(net(0, 0, 0).status_label(), "Empty");
    assert_eq!(net(4, 0, 0).status_label(), "No pump");
    assert_eq!(net(4, 1, 0).status_label(), "Stagnant — pump unpowered");
    assert_eq!(net(4, 2, 1).status_label(), "Circulating");
}

#[test]
fn reservoir_cells_are_the_piped_footprint_tiles() {
    let pipes = two_loops();
    let feet = vec![Footprint::new(4, 1, 2, 1), Footprint::new(3, 0, 1, 2), Footprint::new(0, 0, 1, 2)];
    assert_eq!(reservoir_cells(&pipes, &feet), vec![10, 11, 6]);
}

#[test]
fn thermal_hysteresis_trips_and_recovers_in_bands() {
    let (normal, over, crit) = (ThermalState::Normal, ThermalState::Overheat, ThermalState::Critical);
    assert_eq!(normal.next(TempBand::Mild), normal);
    assert_eq!(normal.next(TempBand::Warm), over);
    assert_eq!(normal.next(TempBand::Scorching), crit);
    assert_eq!(over.next(TempBand::Mild), over, "no recovery above the lower threshold");
    assert_eq!(over.next(TempBand::Cool), normal);
    assert_eq!(crit.next(TempBand::Hot), crit);
    assert_eq!(crit.next(TempBand::Cool), over, "critical recovers to overheat first");
    let mut s = crit;
    for _ in 0..5 {
        s = s.next(TempBand::Cool);
    }
    assert_eq!(s, normal);
}

#[test]
fn reactor_output_follows_thermal_state() {
    assert_eq!(reactor_output(ThermalState::Normal, 10), 100);
    assert_eq!(reactor_output(ThermalState::Overheat, 10), 60);
    assert_eq!(reactor_output(ThermalState::Critical, 10), 10);
}

#[test]
fn thermal_log_lines() {
    assert_eq!(thermal_log_text(BuildingKind::Reactor, ThermalState::Overheat, 81), "Reactor overheated at 81°C — derating");
    assert_eq!(
        thermal_log_text(BuildingKind::Fabricator, ThermalState::Critical, 106),
        "Fabricator THERMAL CRITICAL at 106°C — emergency mode"
    );
    assert_eq!(thermal_log_text(BuildingKind::Reactor, ThermalState::Normal, -5), "Reactor cooled to -5°C — recovered");
}
