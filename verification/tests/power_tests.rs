use ship_alive::building::Footprint;
use ship_alive::map::{ShipMap, TilePos};
use ship_alive::power::{
    flood_regions, interface_tiles, network_of, solve_power, CableGrid, NetworkInfo, PowerDevice, PowerRole,
    PowerStatus, FABRICATOR_DEMAND, REACTOR_OUTPUT,
};
use std::collections::HashSet;

fn grid(width: i32, height: i32, cables: &[(i32, i32)]) -> CableGrid {
    let mut g = CableGrid::new(width, height);
    for &(x, y) in cables {
        g.set(TilePos::new(x, y), true);
    }
    g
}

#[test]
fn cable_grid_set_and_version() {
    let mut g = CableGrid::new(4, 4);
    assert!(!g.has(TilePos::new(1, 1)));
    assert!(g.set(TilePos::new(1, 1), true));
    assert!(g.has(TilePos::new(1, 1)));
    assert_eq!(g.version, 1);
    assert!(!g.set(TilePos::new(1, 1), true), "idempotent set");
    assert_eq!(g.version, 1);
    assert!(!g.set(TilePos::new(9, 9), true), "out of bounds rejected");
    assert!(g.set(TilePos::new(1, 1), false));
    assert!(!g.has(TilePos::new(1, 1)));
}

#[test]
fn flood_regions_counts_components() {
    // Two separate runs + one diagonal pair (not connected, 4-dir).
    let g = grid(8, 4, &[(0, 0), (1, 0), (2, 0), (5, 2), (6, 3)]);
    let regions = flood_regions(&g);
    let ids: HashSet<usize> = g.iter_cables().iter().map(|p| regions.get(*p).unwrap()).collect();
    assert_eq!(ids.len(), 3, "5 tiles in 3 regions, got {ids:?}");
    assert_eq!(regions.get(TilePos::new(0, 0)), regions.get(TilePos::new(2, 0)));
    assert_ne!(regions.get(TilePos::new(5, 2)), regions.get(TilePos::new(6, 3)));
}

#[test]
fn interface_tiles_include_perimeter() {
    let map = ShipMap::from_layout(&["####", "#..#", "####"]).0;
    let foot = Footprint::new(1, 1, 1, 1);
    let tiles = interface_tiles(&map, &foot);
    assert!(tiles.contains(&TilePos::new(1, 1)));
    assert!(tiles.contains(&TilePos::new(2, 1)));
    assert!(!tiles.contains(&TilePos::new(9, 9)));
}

#[test]
fn regions_are_numbered_in_row_major_order() {
    let g = grid(6, 3, &[(4, 0), (0, 2), (1, 2), (5, 0)]);
    let r = flood_regions(&g);
    assert_eq!(r.count, 2);
    assert_eq!(r.get(TilePos::new(4, 0)), Some(0));
    assert_eq!(r.get(TilePos::new(5, 0)), Some(0));
    assert_eq!(r.get(TilePos::new(0, 2)), Some(1));
    assert_eq!(r.get(TilePos::new(3, 1)), None);
}

fn open_map() -> ShipMap {
    ShipMap::from_layout(&["##########", "#........#", "#........#", "#........#", "##########"]).0
}

#[test]
fn device_finds_its_network() {
    let map = open_map();
    let g = grid(10, 5, &[(3, 1), (4, 1)]);
    let r = flood_regions(&g);
    assert_eq!(network_of(&g, &r, &map, &Footprint::new(5, 1, 1, 1)), Some(0));
    assert_eq!(network_of(&g, &r, &map, &Footprint::new(7, 3, 1, 1)), None);
}

#[test]
fn generator_powers_consumers_in_id_order() {
    let map = open_map();
    // One cable run from x=1 to x=8 on row 2.
    let cells: Vec<(i32, i32)> = (1..9).map(|x| (x, 2)).collect();
    let g = grid(10, 5, &cells);
    let devices = [
        PowerDevice { id: 7, foot: Footprint::new(1, 1, 1, 1), role: PowerRole::consumer(60) },
        PowerDevice { id: 3, foot: Footprint::new(3, 1, 1, 1), role: PowerRole::consumer(60) },
        PowerDevice { id: 1, foot: Footprint::new(5, 1, 2, 2), role: PowerRole::generator() },
        PowerDevice { id: 9, foot: Footprint::new(8, 3, 1, 1), role: PowerRole::consumer(20) },
    ];
    let s = solve_power(&map, &g, &devices);
    assert_eq!(s.networks.len(), 1);
    let n = s.networks[0];
    assert_eq!(n.generation, REACTOR_OUTPUT);
    assert_eq!(n.demand, 140);
    assert_eq!(n.generators, 1);
    assert_eq!(n.consumers, 3);
    // Id 3 is served first (60), then id 7 would need 60 of the 40 left: shed.
    assert_eq!(s.status[1], PowerStatus::Powered);
    assert_eq!(s.status[0], PowerStatus::Shed);
    // Id 9 still fits into what is left.
    assert_eq!(s.status[3], PowerStatus::Powered);
    assert_eq!(s.status[2], PowerStatus::Powered);
    assert_eq!(n.served, 80);
    assert_eq!(s.device_net, vec![Some(0), Some(0), Some(0), Some(0)]);
}

#[test]
fn unconnected_and_unpowered_devices() {
    let map = open_map();
    let g = grid(10, 5, &[(2, 2), (7, 2)]);
    let devices = [
        PowerDevice { id: 1, foot: Footprint::new(2, 1, 1, 1), role: PowerRole::consumer(FABRICATOR_DEMAND) },
        PowerDevice { id: 2, foot: Footprint::new(4, 3, 1, 1), role: PowerRole::consumer(FABRICATOR_DEMAND) },
        PowerDevice { id: 3, foot: Footprint::new(7, 1, 1, 1), role: PowerRole::Generator { output: 100, on: false } },
        PowerDevice { id: 4, foot: Footprint::new(7, 3, 1, 1), role: PowerRole::consumer(5) },
    ];
    let s = solve_power(&map, &g, &devices);
    assert_eq!(s.networks.len(), 2);
    assert_eq!(s.status[0], PowerStatus::NoGenerator);
    assert_eq!(s.status[1], PowerStatus::Unconnected);
    assert_eq!(s.status[2], PowerStatus::Powered);
    assert_eq!(s.status[3], PowerStatus::NoGenerator);
    assert_eq!(s.networks[1].generation, 0);
    assert_eq!(s.networks[1].generators, 1);
    assert_eq!(s.device_net[1], None);
}

#[test]
fn device_bridges_two_cable_runs() {
    let map = open_map();
    // Runs at x=1..2 and x=4..5 on row 2, a gap at x=3.
    let g = grid(10, 5, &[(1, 2), (2, 2), (4, 2), (5, 2)]);
    let bridge = [PowerDevice { id: 1, foot: Footprint::new(3, 2, 1, 1), role: PowerRole::consumer(1) }];
    let s = solve_power(&map, &g, &bridge);
    assert_eq!(s.regions.count, 2);
    assert_eq!(s.networks.len(), 1);
    assert_eq!(s.region_net, vec![0, 0]);
    let none = solve_power(&map, &g, &[]);
    assert_eq!(none.networks.len(), 2);
    assert_eq!(none.region_net, vec![0, 1]);
}

#[test]
fn network_summaries() {
    let ok = NetworkInfo { generation: 100, demand: 20, served: 20, generators: 1, consumers: 1 };
    assert_eq!(ok.summary(), "gen 100 dem 20 served 20 — headroom 80");
    assert_eq!(ok.status_label(), "Stable");
    assert_eq!(ok.headroom(), 80);
    let short = NetworkInfo { generation: 100, demand: 140, served: 80, generators: 1, consumers: 3 };
    assert_eq!(short.summary(), "gen 100 dem 140 served 80 — DEFICIT 60");
    assert_eq!(short.status_label(), "Insufficient power");
    let none = NetworkInfo { generation: 0, demand: 20, served: 0, generators: 0, consumers: 1 };
    assert_eq!(none.summary(), "gen 0 dem 20 — no generator");
    assert_eq!(PowerStatus::Shed.label(), "power shortage");
}
