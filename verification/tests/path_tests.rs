use ship_alive::dist::{octile_distance, OctDist};
use ship_alive::map::{ShipMap, TilePos};
use ship_alive::path::{
    find_path, octile_cost, path_cost, path_length, step_cost, step_enterable, step_length, COST_CARDINAL,
    COST_DIAGONAL,
};
use std::collections::{BinaryHeap, HashMap};

fn map(rows: &[&str]) -> ShipMap {
    ShipMap::from_layout(rows).0
}

fn path_is_legal(map: &ShipMap, from: TilePos, path: &[TilePos]) {
    let mut prev = from;
    for t in path {
        assert!(step_enterable(map, prev, *t, &[]), "illegal step {prev:?}->{t:?}");
        prev = *t;
    }
}

const DIRS: [(i32, i32); 8] = [(1, 0), (-1, 0), (0, 1), (0, -1), (1, 1), (1, -1), (-1, 1), (-1, -1)];

#[test]
fn open_field_prefers_diagonal() {
    let m = map(&["....", "....", "....", "...."]);
    let p = find_path(&m, TilePos::new(0, 0), TilePos::new(3, 3), &[]).unwrap();
    assert_eq!(p.len(), 3, "3 diagonal steps, got {p:?}");
    let mut prev = TilePos::new(0, 0);
    for t in &p {
        assert!(prev.x != t.x && prev.y != t.y, "step {prev:?}->{t:?} not diagonal");
        prev = *t;
    }
    assert_eq!(path_cost(Some(TilePos::new(0, 0)), &p), 3 * COST_DIAGONAL);
}

#[test]
fn diagonal_costs_root_two() {
    assert_eq!(step_cost(TilePos::new(0, 0), TilePos::new(1, 0)), COST_CARDINAL);
    assert_eq!(step_cost(TilePos::new(0, 0), TilePos::new(1, 1)), COST_DIAGONAL);
    assert!((COST_DIAGONAL as f32) > COST_CARDINAL as f32 * 1.3);
    assert!((COST_DIAGONAL as f32) < COST_CARDINAL as f32 * 1.5);
    // √2, held exactly as one diagonal unit.
    let root_two = OctDist { straight: 0, diag: 1 };
    assert_eq!(step_length(TilePos::new(0, 0), TilePos::new(1, 1)), root_two);
    assert_eq!(path_length(Some(TilePos::new(0, 0)), &[TilePos::new(1, 1)]), root_two);
}

#[test]
fn matches_reference_dijkstra() {
    let layouts: Vec<Vec<&str>> = vec![
        vec!["#######", "#.....#", "#.###.#", "#.#...#", "#...#.#", "#######"],
        vec!["########", "#..#...#", "#..#.#.#", "#....#.#", "########"],
        vec!["########", "#......#", "#.####.#", "#......#", "########"],
    ];
    for rows in &layouts {
        let m = map(rows);
        let start = TilePos::new(1, 1);
        for y in 0..m.height {
            for x in 0..m.width {
                let goal = TilePos::new(x, y);
                if !m.is_walkable(goal) {
                    continue;
                }
                let got = find_path(&m, start, goal, &[]);
                let want = dijkstra_cost(&m, start, goal);
                match (&got, want) {
                    (Some(p), Some(w)) => {
                        assert_eq!(path_cost(Some(start), p), w, "cost mismatch to {goal:?} in {rows:?}");
                        path_is_legal(&m, start, p);
                    }
                    (None, None) => {}
                    (Some(_), None) | (None, Some(_)) => panic!("reachability mismatch at {goal:?}"),
                }
            }
        }
    }
}

#[derive(PartialEq, Eq)]
struct N(u32, TilePos);

impl Ord for N {
    fn cmp(&self, o: &Self) -> std::cmp::Ordering {
        o.0.cmp(&self.0)
    }
}

impl PartialOrd for N {
    fn partial_cmp(&self, o: &Self) -> Option<std::cmp::Ordering> {
        Some(self.cmp(o))
    }
}

/// Tiny reference Dijkstra with the same cost + corner rules.
fn dijkstra_cost(m: &ShipMap, from: TilePos, to: TilePos) -> Option<u32> {
    let mut dist: HashMap<TilePos, u32> = HashMap::from([(from, 0)]);
    let mut heap = BinaryHeap::from([N(0, from)]);
    while let Some(N(d, p)) = heap.pop() {
        if p == to {
            return Some(d);
        }
        if dist.get(&p).is_some_and(|c| *c < d) {
            continue;
        }
        for (dx, dy) in DIRS {
            let n = TilePos::new(p.x + dx, p.y + dy);
            if !step_enterable(m, p, n, &[]) {
                continue;
            }
            let nd = d + step_cost(p, n);
            if nd < *dist.get(&n).unwrap_or(&u32::MAX) {
                dist.insert(n, nd);
                heap.push(N(nd, n));
            }
        }
    }
    None
}

#[test]
fn double_wall_corner_forbidden() {
    let m = map(&[".#", "#."]);
    assert!(find_path(&m, TilePos::new(0, 0), TilePos::new(1, 1), &[]).is_none());
}

#[test]
fn single_wall_corner_forbidden() {
    let m = map(&[".#", ".."]);
    let p = find_path(&m, TilePos::new(0, 0), TilePos::new(1, 1), &[]).expect("route around the corner exists");
    assert_eq!(
        path_cost(Some(TilePos::new(0, 0)), &p),
        2 * COST_CARDINAL,
        "strict rule: one blocked side cell forbids the diagonal, got {p:?}"
    );
}

#[test]
fn open_corner_diagonal_allowed() {
    let m = map(&["..", ".."]);
    let p = find_path(&m, TilePos::new(0, 0), TilePos::new(1, 1), &[]).unwrap();
    assert_eq!(p, vec![TilePos::new(1, 1)]);
}

#[test]
fn dynamic_blocker_guards_diagonal_sides() {
    let m = map(&["...", "...", "..."]);
    // Block the east side cell of the (0,0)->(1,1) diagonal.
    let blocked = [TilePos::new(1, 0)];
    let p = find_path(&m, TilePos::new(0, 0), TilePos::new(2, 2), &blocked).unwrap();
    let mut prev = TilePos::new(0, 0);
    for t in &p {
        assert!(step_enterable(&m, prev, *t, &blocked), "illegal step {prev:?}->{t:?} around dynamic blocker");
        prev = *t;
    }
    // The blocked tile itself is never enterable.
    assert!(find_path(&m, TilePos::new(0, 0), TilePos::new(1, 0), &blocked).is_none());
}

#[test]
fn straight_line_stays_cardinal() {
    let m = map(&["#####", "#...#", "#.#.#", "#...#", "#####"]);
    let p = find_path(&m, TilePos::new(1, 1), TilePos::new(3, 1), &[]).unwrap();
    assert_eq!(p, vec![TilePos::new(2, 1), TilePos::new(3, 1)]);
}

#[test]
fn detours_around_wall() {
    let m = map(&["#####", "#...#", "#.#.#", "#...#", "#####"]);
    let p = find_path(&m, TilePos::new(1, 2), TilePos::new(3, 2), &[]).unwrap();
    assert_eq!(p.len(), 4);
    assert_eq!(*p.last().unwrap(), TilePos::new(3, 2));
}

#[test]
fn goal_blocked_by_dynamic_obstacle() {
    let m = map(&["#####", "#...#", "#.#.#", "#...#", "#####"]);
    assert!(find_path(&m, TilePos::new(1, 1), TilePos::new(3, 1), &[TilePos::new(3, 1)]).is_none());
}

#[test]
fn zero_length_path_when_already_there() {
    let m = map(&["#####", "#...#", "#.#.#", "#...#", "#####"]);
    assert!(find_path(&m, TilePos::new(2, 1), TilePos::new(2, 1), &[]).unwrap().is_empty());
}

#[test]
fn octile_helpers() {
    let a = TilePos::new(0, 0);
    assert_eq!(octile_cost(a, TilePos::new(3, 0)), 30);
    assert_eq!(octile_cost(a, TilePos::new(3, 3)), 3 * 10 + 3 * 4);
    // 3·√2, exactly.
    assert_eq!(octile_distance(a, TilePos::new(3, 3)), OctDist { straight: 0, diag: 3 });
}

#[test]
fn path_length_counts_both_step_kinds() {
    let p = [TilePos::new(1, 0), TilePos::new(2, 1), TilePos::new(3, 1)];
    assert_eq!(path_length(Some(TilePos::new(0, 0)), &p), OctDist { straight: 2, diag: 1 });
    assert_eq!(path_length(None, &p), OctDist { straight: 1, diag: 1 });
}

#[test]
fn locked_door_blocks_route() {
    let mut m = map(&["#####", "#.D.#", "#####"]);
    let from = TilePos::new(1, 1);
    let to = TilePos::new(3, 1);
    assert!(find_path(&m, from, to, &[]).is_some());
    m.set_door_state(TilePos::new(2, 1), ship_alive::map::DoorTileState { open: 0, locked: true });
    assert!(find_path(&m, from, to, &[]).is_none());
}

#[test]
fn cheapest_route_never_returns_to_start() {
    let m = map(&["#####", "#...#", "#.#.#", "#...#", "#####"]);
    let from = TilePos::new(1, 1);
    for to in [TilePos::new(3, 3), TilePos::new(3, 1), TilePos::new(1, 3), TilePos::new(2, 3)] {
        let p = find_path(&m, from, to, &[]).unwrap();
        path_is_legal(&m, from, &p);
        assert_eq!(p.last(), Some(&to));
        assert!(!p.contains(&from), "route {p:?} revisits the start");
    }
}
