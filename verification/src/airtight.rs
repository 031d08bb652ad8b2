//! Airtight compartments and doors.
//!
//! Two deliberately separate concepts:
//!
//! * **Structural compartments** — the partition of the ship interior by
//!   hull/wall geometry. Door tiles are *portals* (boundaries), not room
//!   volume. Derived data: rebuilt when the map geometry changes, never
//!   because a door opens.
//! * **Current airtight connectivity** — which compartments exchange air
//!   right now: two regions are connected when an *open* door portal joins
//!   them.
//!
//! Door runtime state is mirrored into the map's door layer, so pathfinding
//! and movement read it from the map alone.

use crate::building::contains_pos;
use crate::graph::{edge, label_components, labels_components, lemma_linked_same_label, linked, NO_LABEL};
use crate::grid::{grid_adj, grid_graph, lemma_grid_adj};
use crate::map::{cell_index, in_grid, lemma_cell_index_bounds, tile_pos, Tile, TilePos, ShipMap};
use vstd::prelude::*;

verus! {

/// Full open / full close travel of the door leaf, in sim microseconds
/// (24 sim s).
pub const DOOR_MOVE_US: u32 = 24_000_000;

/// How long an auto door stays open after the last passage demand, in sim
/// microseconds (36 sim s) — lets a stream of crew through without flapping.
pub const DOOR_HOLD_US: i64 = 36_000_000;

/// Player-facing intent for one door.
#[derive(Clone, Copy, PartialEq, Eq, Structural, Debug)]
pub enum DoorMode {
    /// Normal automatic door: closed when idle, opens for passage.
    Auto,
    /// Held open permanently.
    HoldOpen,
    /// Locked shut: unwalkable, airtight, no crew may plan through it.
    LockClosed,
}

impl Default for DoorMode {
    fn default() -> (r: Self)
        ensures
            r == DoorMode::Auto,
    {
        DoorMode::Auto
    }
}

impl DoorMode {
    pub const ALL: [DoorMode; 3] = [DoorMode::Auto, DoorMode::HoldOpen, DoorMode::LockClosed];

    pub fn label(self) -> (r: &'static str)
        ensures
            self == DoorMode::Auto ==> r@ == "Auto"@,
            self == DoorMode::HoldOpen ==> r@ == "Hold Open"@,
            self == DoorMode::LockClosed ==> r@ == "Lock Closed"@,
    {
        match self {
            DoorMode::Auto => "Auto",
            DoorMode::HoldOpen => "Hold Open",
            DoorMode::LockClosed => "Lock Closed",
        }
    }
}

/// Which way the doorway passes. `Ns` = flanked by walls east+west, crew walk
/// north↔south through it; `Ew` = flanked north+south, crew walk east↔west.
#[derive(Clone, Copy, PartialEq, Eq, Structural, Debug)]
pub enum DoorAxis {
    Ns,
    Ew,
}

impl DoorAxis {
    pub fn label(self) -> (r: &'static str)
        ensures
            self == DoorAxis::Ns ==> r@ == "N-S"@,
            self == DoorAxis::Ew ==> r@ == "E-W"@,
    {
        match self {
            DoorAxis::Ns => "N-S",
            DoorAxis::Ew => "E-W",
        }
    }
}

/// Physical state of the leaf.
#[derive(Clone, Copy, PartialEq, Eq, Structural, Debug)]
pub enum DoorPhase {
    Closed,
    Opening,
    Open,
    Closing,
}

impl Default for DoorPhase {
    fn default() -> (r: Self)
        ensures
            r == DoorPhase::Closed,
    {
        DoorPhase::Closed
    }
}

impl DoorPhase {
    pub fn label(self) -> (r: &'static str)
        ensures
            self == DoorPhase::Closed ==> r@ == "Closed"@,
            self == DoorPhase::Opening ==> r@ == "Opening"@,
            self == DoorPhase::Open ==> r@ == "Open"@,
            self == DoorPhase::Closing ==> r@ == "Closing"@,
    {
        match self {
            DoorPhase::Closed => "Closed",
            DoorPhase::Opening => "Opening",
            DoorPhase::Open => "Open",
            DoorPhase::Closing => "Closing",
        }
    }
}

/// Runtime state of one door device.
#[derive(Clone, Copy, PartialEq, Eq, Structural, Debug)]
pub struct Door {
    pub mode: DoorMode,
    pub phase: DoorPhase,
    /// Leaf travel in sim microseconds: 0 = closed .. `DOOR_MOVE_US` = open.
    pub progress: u32,
    /// Sim time (µs) until which an auto door keeps itself open after a
    /// demand.
    pub hold_until: i64,
    pub axis: DoorAxis,
    /// Completed open→close cycles.
    pub cycles: u32,
}

impl Door {
    pub open spec fn wf(&self) -> bool {
        self.progress <= DOOR_MOVE_US
    }

    pub fn new(axis: DoorAxis) -> (r: Self)
        ensures
            r == (Door { mode: DoorMode::Auto, phase: DoorPhase::Closed, progress: 0, hold_until: 0, axis, cycles: 0 }),
            r.wf(),
    {
        Door { mode: DoorMode::Auto, phase: DoorPhase::Closed, progress: 0, hold_until: 0, axis, cycles: 0 }
    }

    /// Crew may step onto the door tile only when the leaf is fully open.
    pub fn passable(&self) -> (r: bool)
        ensures
            r == (self.progress >= DOOR_MOVE_US),
    {
        self.progress >= DOOR_MOVE_US
    }

    /// Airtight boundary while not fully open (opening/closing stay sealed).
    pub fn sealed(&self) -> (r: bool)
        ensures
            r == (self.progress < DOOR_MOVE_US),
    {
        self.progress < DOOR_MOVE_US
    }
}

/// Whether the leaf should be heading open this step, and the hold window
/// after it. Auto doors extend their hold on any demand or occupancy.
pub open spec fn door_target(d: Door, now: i64, held: bool) -> (bool, i64) {
    match d.mode {
        DoorMode::HoldOpen => (true, d.hold_until),
        DoorMode::LockClosed => (false, d.hold_until),
        DoorMode::Auto => {
            let hold = if held {
                now + DOOR_HOLD_US
            } else {
                d.hold_until as int
            };
            (now < hold, hold as i64)
        },
    }
}

/// One step of a door: `held` = the doorway was demanded or is occupied,
/// `occupied` = a crew member stands in it or is about to step in.
pub open spec fn door_after(d: Door, now: i64, dt: int, held: bool, occupied: bool) -> Door {
    let (target, hold) = door_target(d, now, held);
    let closing_blocked = !target && occupied;
    let d1 = Door { hold_until: hold, ..d };
    if target && d.progress < DOOR_MOVE_US {
        let p = if d.progress + dt >= DOOR_MOVE_US {
            DOOR_MOVE_US as int
        } else {
            d.progress + dt
        };
        Door {
            progress: p as u32,
            phase: if p >= DOOR_MOVE_US {
                DoorPhase::Open
            } else {
                DoorPhase::Opening
            },
            ..d1
        }
    } else if !target && d.progress > 0 && !closing_blocked {
        let p = if d.progress <= dt {
            0
        } else {
            d.progress - dt
        };
        if p <= 0 {
            Door {
                progress: 0,
                phase: DoorPhase::Closed,
                cycles: if d.cycles == u32::MAX {
                    0
                } else {
                    (d.cycles + 1) as u32
                },
                ..d1
            }
        } else {
            Door { progress: p as u32, phase: DoorPhase::Closing, ..d1 }
        }
    } else if d.progress >= DOOR_MOVE_US {
        Door { phase: DoorPhase::Open, ..d1 }
    } else {
        Door { phase: DoorPhase::Closed, ..d1 }
    }
}

impl Door {
    /// Advance the door by `dt` sim microseconds at sim time `now`: pick the
    /// target from the mode (auto doors hold open for `DOOR_HOLD_US` after
    /// the last demand), move the leaf toward it, and never close onto a
    /// crew member — the leaf freezes while the doorway is occupied.
    pub fn step(&mut self, now: i64, dt: u64, held: bool, occupied: bool)
        requires
            old(self).wf(),
            now <= i64::MAX - DOOR_HOLD_US,
        ensures
            *final(self) == door_after(*old(self), now, dt as int, held, occupied),
            final(self).wf(),
    {
        let target_open = match self.mode {
            DoorMode::HoldOpen => true,
            DoorMode::LockClosed => false,
            DoorMode::Auto => {
                if held {
                    self.hold_until = now + DOOR_HOLD_US;
                }
                now < self.hold_until
            },
        };
        let closing_blocked = !target_open && occupied;
        if target_open && self.progress < DOOR_MOVE_US {
            let room = (DOOR_MOVE_US - self.progress) as u64;
            self.progress = if dt >= room {
                DOOR_MOVE_US
            } else {
                self.progress + dt as u32
            };
            self.phase = if self.progress >= DOOR_MOVE_US {
                DoorPhase::Open
            } else {
                DoorPhase::Opening
            };
        } else if !target_open && self.progress > 0 && !closing_blocked {
            self.progress = if (self.progress as u64) <= dt {
                0
            } else {
                self.progress - dt as u32
            };
            if self.progress == 0 {
                self.cycles = self.cycles.wrapping_add(1);
                self.phase = DoorPhase::Closed;
            } else {
                self.phase = DoorPhase::Closing;
            }
        } else if self.progress >= DOOR_MOVE_US {
            self.phase = DoorPhase::Open;
        } else {
            self.phase = DoorPhase::Closed;
        }
    }
}

/// A door never closes onto a crew member, a held-open door never closes, a
/// locked door never opens, and a step never moves the leaf by more than
/// `dt`.
pub proof fn lemma_door_step_safety(d: Door, now: i64, dt: int, held: bool, occupied: bool)
    requires
        d.wf(),
        dt >= 0,
        now <= i64::MAX - DOOR_HOLD_US,
    ensures
        occupied ==> door_after(d, now, dt, held, occupied).progress >= d.progress,
        d.mode == DoorMode::HoldOpen ==> door_after(d, now, dt, held, occupied).progress >= d.progress,
        d.mode == DoorMode::LockClosed ==> door_after(d, now, dt, held, occupied).progress <= d.progress,
        door_after(d, now, dt, held, occupied).progress <= d.progress + dt,
        d.progress - dt <= door_after(d, now, dt, held, occupied).progress,
        door_after(d, now, dt, held, occupied).wf(),
{
}

/// After a step of positive length the phase reads `Open` exactly when the
/// leaf is fully open.
pub proof fn lemma_door_phase_open(d: Door, now: i64, dt: int, held: bool, occupied: bool)
    requires
        d.wf(),
        dt > 0,
        now <= i64::MAX - DOOR_HOLD_US,
    ensures
        (door_after(d, now, dt, held, occupied).phase == DoorPhase::Open) <==> (door_after(
            d,
            now,
            dt,
            held,
            occupied,
        ).progress == DOOR_MOVE_US),
{
}

/// An auto door that was demanded stays open for the whole hold window:
/// while demands keep coming it never starts closing.
pub proof fn lemma_auto_door_holds(d: Door, now: i64, dt: int, later: i64, occupied: bool)
    requires
        d.wf(),
        d.mode == DoorMode::Auto,
        dt >= 0,
        now <= later < now + DOOR_HOLD_US,
        now <= i64::MAX - DOOR_HOLD_US,
    ensures
        ({
            let d1 = door_after(d, now, dt, true, occupied);
            door_after(d1, later, dt, false, occupied).progress >= d1.progress
        }),
{
}

// =====================================================================================
// Orientation inference and the environmental boundary
// =====================================================================================

/// The axis a door at `p` would pass along: walls (anything not standable)
/// east and west with open tiles north and south gives `Ns`; the transpose
/// gives `Ew`; anything else is no proper doorway.
pub open spec fn spec_door_axis(map: &ShipMap, p: TilePos) -> Option<DoorAxis> {
    let n = TilePos { x: p.x, y: (p.y - 1) as i32 };
    let s = TilePos { x: p.x, y: (p.y + 1) as i32 };
    let e = TilePos { x: (p.x + 1) as i32, y: p.y };
    let w = TilePos { x: (p.x - 1) as i32, y: p.y };
    if !map.spec_standable(e) && !map.spec_standable(w) && map.spec_standable(n) && map.spec_standable(s) {
        Some(DoorAxis::Ns)
    } else if !map.spec_standable(n) && !map.spec_standable(s) && map.spec_standable(e) && map.spec_standable(w) {
        Some(DoorAxis::Ew)
    } else {
        None
    }
}

/// Infer a door's passage axis from its surroundings: the two lateral
/// neighbours must be wall (hull or built) and the two passage neighbours
/// must be open interior. `None` for ambiguous or open-hall spots — a door
/// must sit in a real wall opening to be an airtight boundary.
pub fn door_axis(map: &ShipMap, p: TilePos) -> (r: Option<DoorAxis>)
    requires
        map.wf(),
        i32::MIN < p.x < i32::MAX,
        i32::MIN < p.y < i32::MAX,
    ensures
        r == spec_door_axis(map, p),
{
    let n = TilePos::new(p.x, p.y - 1);
    let s = TilePos::new(p.x, p.y + 1);
    let e = TilePos::new(p.x + 1, p.y);
    let w = TilePos::new(p.x - 1, p.y);
    if !map.is_standable(e) && !map.is_standable(w) && map.is_standable(n) && map.is_standable(s) {
        Some(DoorAxis::Ns)
    } else if !map.is_standable(n) && !map.is_standable(s) && map.is_standable(e) && map.is_standable(w) {
        Some(DoorAxis::Ew)
    } else {
        None
    }
}

/// May the environment exchange directly between two tiles?
#[derive(Clone, Copy, PartialEq, Eq, Structural, Debug)]
pub enum Boundary {
    Blocked,
    Open,
}

/// A tile lets air through: floor and machines always, a door only while
/// fully open.
pub open spec fn air_open(map: &ShipMap, p: TilePos) -> bool {
    match map.spec_tile(p) {
        Some(Tile::Door) => map.door_xy(p.x as int, p.y as int).open >= DOOR_MOVE_US,
        Some(Tile::Floor) | Some(Tile::Machine) => true,
        _ => false,
    }
}

pub open spec fn spec_boundary(map: &ShipMap, a: TilePos, b: TilePos) -> Boundary {
    let dx = if a.x >= b.x { a.x - b.x } else { b.x - a.x };
    let dy = if a.y >= b.y { a.y - b.y } else { b.y - a.y };
    if dx + dy == 1 && air_open(map, a) && air_open(map, b) {
        Boundary::Open
    } else {
        Boundary::Blocked
    }
}

fn air_side(map: &ShipMap, p: TilePos) -> (r: bool)
    requires
        map.wf(),
    ensures
        r == air_open(map, p),
{
    match map.tile(p) {
        Some(Tile::Door) => match map.door_state(p) {
            Some(d) => d.open >= DOOR_MOVE_US,
            None => false,
        },
        Some(Tile::Floor) => true,
        Some(Tile::Machine) => true,
        _ => false,
    }
}

/// The environment exchanges directly between orthogonally adjacent tiles
/// that both carry air (doors only when fully open).
pub fn boundary(map: &ShipMap, a: TilePos, b: TilePos) -> (r: Boundary)
    requires
        map.wf(),
    ensures
        r == spec_boundary(map, a, b),
{
    let dx: i64 = if a.x >= b.x { a.x as i64 - b.x as i64 } else { b.x as i64 - a.x as i64 };
    let dy: i64 = if a.y >= b.y { a.y as i64 - b.y as i64 } else { b.y as i64 - a.y as i64 };
    if dx + dy != 1 {
        return Boundary::Blocked;
    }
    if air_side(map, a) && air_side(map, b) {
        Boundary::Open
    } else {
        Boundary::Blocked
    }
}

/// Direct exchange is symmetric.
pub proof fn lemma_boundary_symmetric(map: &ShipMap, a: TilePos, b: TilePos)
    ensures
        spec_boundary(map, a, b) == spec_boundary(map, b, a),
{
}


// =====================================================================================
// Structural compartments
// =====================================================================================

/// Region id meaning "not interior air volume" (walls, doors, out of bounds).
pub const NO_REGION: u16 = u16::MAX;

/// Summary of one structural compartment.
#[derive(Clone, Copy, PartialEq, Eq, Structural, Debug)]
pub struct RegionInfo {
    pub id: u16,
    pub cells: u32,
    pub centroid: TilePos,
    pub bounding_min: TilePos,
    pub bounding_max: TilePos,
    /// Some interior tile touches the map exterior: the region would vent to
    /// space.
    pub exposed: bool,
}

/// One door as a topology edge between two regions.
#[derive(Clone, Copy, PartialEq, Eq, Structural, Debug)]
pub struct PortalDoor {
    /// The door device on this tile, when known.
    pub entity: Option<u64>,
    pub pos: TilePos,
    pub axis: DoorAxis,
    /// Region on the passage's "from" side (north for Ns, west for Ew).
    pub side_a: u16,
    /// Region on the "to" side (south / east). Either side may be
    /// `NO_REGION` when the door abuts structure instead of air.
    pub side_b: u16,
}

/// Derived compartment topology and current airtight connectivity.
pub struct Compartments {
    /// Dense per-tile region id (`NO_REGION` for walls/doors).
    pub id: Vec<u16>,
    pub regions: Vec<RegionInfo>,
    pub doors: Vec<PortalDoor>,
    /// Air-connectivity group per region: regions joined by open doors
    /// share a group.
    pub air_group: Vec<u16>,
    pub air_groups: u16,
    pub width: i32,
    pub height: i32,
    /// Map geometry version this partition was built from.
    pub geometry_version: u64,
    pub rebuilds: u32,
    pub air_recomputes: u32,
    pub doors_open: u32,
    pub doors_closed: u32,
}

/// Tiles that carry room air volume (machine footprints included).
pub open spec fn is_air(t: Tile) -> bool {
    t == Tile::Floor || t == Tile::Machine
}

/// Per-cell air mask of the map.
pub open spec fn air_mask(map: &ShipMap) -> Seq<bool> {
    map.tiles@.map_values(|t: Tile| is_air(t))
}

/// Region ids read as component labels.
pub open spec fn id_labels(id: Seq<u16>) -> Seq<usize> {
    id.map_values(|x: u16| if x == NO_REGION { NO_LABEL } else { x as usize })
}

/// Cells `0..k` of region `r`: count, coordinate sums, extremes (with
/// sentinels when empty) and contact with the map edge.
pub open spec fn region_count(id: Seq<u16>, r: int, k: int) -> int
    decreases k,
{
    if k <= 0 {
        0
    } else {
        region_count(id, r, k - 1) + if id[k - 1] == r { 1int } else { 0int }
    }
}

pub open spec fn region_sum(id: Seq<u16>, w: int, r: int, k: int, row: bool) -> int
    decreases k,
{
    if k <= 0 {
        0
    } else {
        region_sum(id, w, r, k - 1, row) + if id[k - 1] == r {
            if row {
                (k - 1) / w
            } else {
                (k - 1) % w
            }
        } else {
            0int
        }
    }
}

pub open spec fn region_min(id: Seq<u16>, w: int, r: int, k: int, row: bool) -> int
    decreases k,
{
    if k <= 0 {
        i32::MAX as int
    } else {
        let prev = region_min(id, w, r, k - 1, row);
        let v = if row {
            (k - 1) / w
        } else {
            (k - 1) % w
        };
        if id[k - 1] == r && v < prev {
            v
        } else {
            prev
        }
    }
}

pub open spec fn region_max(id: Seq<u16>, w: int, r: int, k: int, row: bool) -> int
    decreases k,
{
    if k <= 0 {
        -1
    } else {
        let prev = region_max(id, w, r, k - 1, row);
        let v = if row {
            (k - 1) / w
        } else {
            (k - 1) % w
        };
        if id[k - 1] == r && v > prev {
            v
        } else {
            prev
        }
    }
}

pub open spec fn region_exposed(id: Seq<u16>, w: int, h: int, r: int, k: int) -> bool
    decreases k,
{
    if k <= 0 {
        false
    } else {
        region_exposed(id, w, h, r, k - 1) || (id[k - 1] == r && ((k - 1) % w == 0 || (k - 1) / w == 0 || (k
            - 1) % w == w - 1 || (k - 1) / w == h - 1))
    }
}

/// The summary of region `r` as the partition `id` gives it.
pub open spec fn region_info(id: Seq<u16>, w: int, h: int, r: int) -> RegionInfo {
    let n = id.len() as int;
    let c = region_count(id, r, n);
    RegionInfo {
        id: r as u16,
        cells: c as u32,
        centroid: TilePos {
            x: (region_sum(id, w, r, n, false) / c) as i32,
            y: (region_sum(id, w, r, n, true) / c) as i32,
        },
        bounding_min: TilePos { x: region_min(id, w, r, n, false) as i32, y: region_min(id, w, r, n, true) as i32 },
        bounding_max: TilePos { x: region_max(id, w, r, n, false) as i32, y: region_max(id, w, r, n, true) as i32 },
        exposed: region_exposed(id, w, h, r, n),
    }
}

/// Region on the tile `q` (`NO_REGION` outside the grid).
pub open spec fn side_region(id: Seq<u16>, w: int, h: int, q: TilePos) -> u16 {
    if in_grid(w, h, q.x as int, q.y as int) {
        id[cell_index(w, q.x as int, q.y as int)]
    } else {
        NO_REGION
    }
}

/// The portal a door tile at `p` forms, when its geometry gives it an axis.
pub open spec fn portal_at(map: &ShipMap, id: Seq<u16>, p: TilePos) -> Option<PortalDoor> {
    match spec_door_axis(map, p) {
        None => None,
        Some(axis) => {
            let (a, b) = match axis {
                DoorAxis::Ns => (TilePos { x: p.x, y: (p.y - 1) as i32 }, TilePos { x: p.x, y: (p.y + 1) as i32 }),
                DoorAxis::Ew => (TilePos { x: (p.x - 1) as i32, y: p.y }, TilePos { x: (p.x + 1) as i32, y: p.y }),
            };
            Some(
                PortalDoor {
                    entity: None,
                    pos: p,
                    axis,
                    side_a: side_region(id, map.width as int, map.height as int, a),
                    side_b: side_region(id, map.width as int, map.height as int, b),
                },
            )
        },
    }
}

/// Portals of the door tiles among cells `0..k`, in row-major order.
pub open spec fn portals_upto(map: &ShipMap, id: Seq<u16>, k: int) -> Seq<PortalDoor>
    decreases k,
{
    if k <= 0 {
        seq![]
    } else {
        let prev = portals_upto(map, id, k - 1);
        let p = tile_pos((k - 1) % (map.width as int), (k - 1) / (map.width as int));
        if map.tiles@[k - 1] == Tile::Door && portal_at(map, id, p) is Some {
            prev.push(portal_at(map, id, p)->0)
        } else {
            prev
        }
    }
}

/// The door on `p` is fully open.
pub open spec fn door_open_at(map: &ShipMap, p: TilePos) -> bool {
    match map.spec_door_state(p) {
        Some(d) => d.open >= DOOR_MOVE_US,
        None => false,
    }
}

/// Regions `a` and `b` exchange air through some open portal.
pub open spec fn air_edge(map: &ShipMap, doors: Seq<PortalDoor>, a: int, b: int) -> bool {
    exists|k: int|
        0 <= k < doors.len() && door_open_at(map, #[trigger] doors[k].pos) && doors[k].side_a != NO_REGION
            && doors[k].side_b != NO_REGION && ((doors[k].side_a == a && doors[k].side_b == b) || (doors[k].side_a
            == b && doors[k].side_b == a))
}

/// `n` nodes, all taking part.
pub open spec fn all_active(n: nat) -> Seq<bool> {
    Seq::new(n, |i: int| true)
}

/// Air groups read as component labels.
pub open spec fn group_labels(g: Seq<u16>) -> Seq<usize> {
    g.map_values(|x: u16| x as usize)
}

/// The air groups label the components of the region graph whose edges are
/// open portals, numbered in order of their smallest region.
pub open spec fn air_ok(map: &ShipMap, c: &Compartments) -> bool {
    &&& c.air_group@.len() == c.regions@.len()
    &&& exists|adj: Seq<Seq<usize>>|
        {
            &&& adj.len() == c.regions@.len()
            &&& forall|a: int, b: int| #[trigger] edge(adj, a, b) <==> air_edge(map, c.doors@, a, b)
            &&& #[trigger] labels_components(
                all_active(c.regions@.len()),
                adj,
                group_labels(c.air_group@),
                c.air_groups as nat,
            )
        }
}

/// Two different regions share air only through a door that is fully
/// open: a region in a group with another one touches some portal between
/// two regions whose door has travelled all the way (`DOOR_MOVE_US`); a
/// door still opening or closing joins nothing.
pub proof fn lemma_shared_air_needs_open_door(map: &ShipMap, c: &Compartments, a: int, b: int)
    requires
        air_ok(map, c),
        0 <= a < c.air_group@.len(),
        0 <= b < c.air_group@.len(),
        a != b,
        c.air_group@[a] == c.air_group@[b],
    ensures
        exists|k: int|
            0 <= k < c.doors@.len() && (#[trigger] c.doors@[k]).side_a != NO_REGION && c.doors@[k].side_b != NO_REGION
                && (c.doors@[k].side_a == a || c.doors@[k].side_b == a) && (map.spec_door_state(c.doors@[k].pos) matches Some(
                d,
            ) && d.open >= DOOR_MOVE_US),
{
    let n = c.regions@.len();
    let adj = choose|adj: Seq<Seq<usize>>|
        {
            &&& adj.len() == n
            &&& forall|u: int, v: int| #[trigger] edge(adj, u, v) <==> air_edge(map, c.doors@, u, v)
            &&& #[trigger] labels_components(all_active(n), adj, group_labels(c.air_group@), c.air_groups as nat)
        };
    let lab = group_labels(c.air_group@);
    assert(lab[a] == lab[b]);
    assert(all_active(n)[a] && all_active(n)[b]);
    assert(crate::graph::linked(adj, a, b));
    let s = choose|s: Seq<usize>| #[trigger] crate::graph::is_walk(adj, s) && s[0] == a && s.last() == b;
    assert(s.len() >= 2);
    let j: int = 0;
    assert(edge(adj, s[j] as int, s[j + 1] as int));
    assert(air_edge(map, c.doors@, a, s[1] as int));
    let k = choose|k: int|
        0 <= k < c.doors@.len() && door_open_at(map, #[trigger] c.doors@[k].pos) && c.doors@[k].side_a != NO_REGION
            && c.doors@[k].side_b != NO_REGION && ((c.doors@[k].side_a == a && c.doors@[k].side_b == s[1] as int) || (
            c.doors@[k].side_a == s[1] as int && c.doors@[k].side_b == a));
    assert(c.doors@[k].side_a == a || c.doors@[k].side_b == a);
}

impl Compartments {
    /// Region ids stay below the region count; portal sides are regions or
    /// `NO_REGION`.
    pub open spec fn wf(&self) -> bool {
        &&& 0 <= self.width
        &&& 0 <= self.height
        &&& self.width * self.height <= i32::MAX
        &&& self.id@.len() == self.width * self.height
        &&& self.regions@.len() < NO_REGION
        &&& forall|i: int| 0 <= i < self.id@.len() ==> #[trigger] self.id@[i] == NO_REGION || self.id@[i] < self.regions@.len()
        &&& forall|k: int|
            0 <= k < self.doors@.len() ==> ((#[trigger] self.doors@[k]).side_a == NO_REGION || self.doors@[k].side_a
                < self.regions@.len()) && (self.doors@[k].side_b == NO_REGION || self.doors@[k].side_b
                < self.regions@.len())
    }

    /// Region id at a tile (`NO_REGION` for walls, doors and out of bounds).
    pub fn region_at(&self, p: TilePos) -> (r: u16)
        requires
            self.wf(),
        ensures
            r == side_region(self.id@, self.width as int, self.height as int, p),
    {
        if p.x < 0 || p.y < 0 || p.x >= self.width || p.y >= self.height {
            return NO_REGION;
        }
        proof {
            lemma_cell_index_bounds(self.width as int, self.height as int, p.x as int, p.y as int);
        }
        self.id[(p.y * self.width + p.x) as usize]
    }

    /// Number of sealed (not exposed) regions.
    pub fn sealed_count(&self) -> (r: u32)
        requires
            self.regions@.len() <= u32::MAX,
        ensures
            r == self.regions@.filter(|ri: RegionInfo| !ri.exposed).len(),
    {
        let mut n: u32 = 0;
        let mut i: usize = 0;
        while i < self.regions.len()
            invariant
                0 <= i <= self.regions@.len(),
                self.regions@.len() <= u32::MAX,
                n == self.regions@.subrange(0, i as int).filter(|ri: RegionInfo| !ri.exposed).len(),
                n <= i,
            decreases self.regions@.len() - i,
        {
            proof {
                let s = self.regions@.subrange(0, i + 1);
                assert(s.drop_last() =~= self.regions@.subrange(0, i as int));
                reveal(Seq::filter);
            }
            if !self.regions[i].exposed {
                n = n + 1;
            }
            i = i + 1;
        }
        assert(self.regions@.subrange(0, i as int) =~= self.regions@);
        n
    }

    /// Number of regions open to the exterior.
    pub fn exposed_count(&self) -> (r: u32)
        requires
            self.regions@.len() <= u32::MAX,
        ensures
            r == self.regions@.filter(|ri: RegionInfo| ri.exposed).len(),
    {
        let mut n: u32 = 0;
        let mut i: usize = 0;
        while i < self.regions.len()
            invariant
                0 <= i <= self.regions@.len(),
                self.regions@.len() <= u32::MAX,
                n == self.regions@.subrange(0, i as int).filter(|ri: RegionInfo| ri.exposed).len(),
                n <= i,
            decreases self.regions@.len() - i,
        {
            proof {
                let s = self.regions@.subrange(0, i + 1);
                assert(s.drop_last() =~= self.regions@.subrange(0, i as int));
                reveal(Seq::filter);
            }
            if self.regions[i].exposed {
                n = n + 1;
            }
            i = i + 1;
        }
        assert(self.regions@.subrange(0, i as int) =~= self.regions@);
        n
    }
}


/// The door on `p` is fully open.
fn door_open(map: &ShipMap, p: TilePos) -> (r: bool)
    requires
        map.wf(),
    ensures
        r == door_open_at(map, p),
{
    match map.door_state(p) {
        Some(d) => d.open >= DOOR_MOVE_US,
        None => false,
    }
}

impl Compartments {
    /// Recompute current airtight connectivity: regions joined by portals
    /// whose door is fully open share an air group; groups are numbered in
    /// order of their smallest region.
    pub fn recompute_air(&mut self, map: &ShipMap)
        requires
            old(self).wf(),
            map.wf(),
            old(self).air_recomputes < u32::MAX,
        ensures
            final(self).wf(),
            air_ok(map, final(self)),
            final(self).air_recomputes == old(self).air_recomputes + 1,
            forall|a: int, b: int|
                0 <= a < final(self).air_group@.len() && 0 <= b < final(self).air_group@.len() && a != b
                    && #[trigger] final(self).air_group@[a] == #[trigger] final(self).air_group@[b] ==> exists|k: int|
                    0 <= k < final(self).doors@.len() && (#[trigger] final(self).doors@[k]).side_a != NO_REGION
                        && final(self).doors@[k].side_b != NO_REGION && (final(self).doors@[k].side_a == a
                        || final(self).doors@[k].side_b == a) && (map.spec_door_state(final(self).doors@[k].pos) matches Some(
                    d,
                ) && d.open >= DOOR_MOVE_US),
            final(self).id == old(self).id,
            final(self).regions == old(self).regions,
            final(self).doors == old(self).doors,
            final(self).width == old(self).width,
            final(self).height == old(self).height,
            final(self).geometry_version == old(self).geometry_version,
            final(self).rebuilds == old(self).rebuilds,
            final(self).doors_open == old(self).doors_open,
            final(self).doors_closed == old(self).doors_closed,
    {
        self.air_recomputes = self.air_recomputes + 1;
        let nr = self.regions.len();
        let nd = self.doors.len();
        let ghost doors = self.doors@;
        let mut adj: Vec<Vec<usize>> = Vec::new();
        let mut active: Vec<bool> = Vec::new();
        let mut a: usize = 0;
        while a < nr
            invariant
                self.wf(),
                map.wf(),
                doors == self.doors@,
                nr == self.regions@.len(),
                nd == doors.len(),
                0 <= a <= nr,
                adj@.len() == a,
                active@.len() == a,
                forall|u: int| 0 <= u < a ==> #[trigger] active@[u],
                forall|u: int, v: int|
                    0 <= u < a ==> (#[trigger] adj@[u]@.contains(v as usize) && 0 <= v <= usize::MAX <==> air_edge(
                        map,
                        doors,
                        u,
                        v,
                    )),
                forall|u: int, k: int| 0 <= u < a && 0 <= k < adj@[u]@.len() ==> #[trigger] adj@[u]@[k] < nr,
            decreases nr - a,
        {
            let mut list: Vec<usize> = Vec::new();
            let mut k: usize = 0;
            while k < nd
                invariant
                    self.wf(),
                    map.wf(),
                    doors == self.doors@,
                    nr == self.regions@.len(),
                    nd == doors.len(),
                    0 <= a < nr,
                    0 <= k <= nd,
                    forall|v: int|
                        #[trigger] list@.contains(v as usize) && 0 <= v <= usize::MAX <==> exists|j: int|
                            0 <= j < k && door_open_at(map, #[trigger] doors[j].pos) && doors[j].side_a != NO_REGION
                                && doors[j].side_b != NO_REGION && ((doors[j].side_a == a && doors[j].side_b == v)
                                || (doors[j].side_a == v && doors[j].side_b == a)),
                    forall|q: int| 0 <= q < list@.len() ==> #[trigger] list@[q] < nr,
                decreases nd - k,
            {
                let pd = self.doors[k];
                let ghost before = list@;
                if door_open(map, pd.pos) && pd.side_a != NO_REGION && pd.side_b != NO_REGION {
                    if pd.side_a as usize == a {
                        list.push(pd.side_b as usize);
                    }
                    if pd.side_b as usize == a {
                        list.push(pd.side_a as usize);
                    }
                }
                proof {
                    assert(doors[k as int] == pd);
                    assert forall|v: int|
                        #[trigger] list@.contains(v as usize) && 0 <= v <= usize::MAX <==> exists|j: int|
                            0 <= j < k + 1 && door_open_at(map, #[trigger] doors[j].pos) && doors[j].side_a
                                != NO_REGION && doors[j].side_b != NO_REGION && ((doors[j].side_a == a
                                && doors[j].side_b == v) || (doors[j].side_a == v && doors[j].side_b == a)) by {
                        if list@.contains(v as usize) && 0 <= v <= usize::MAX {
                            let m = choose|m: int| 0 <= m < list@.len() && list@[m] == v as usize;
                            if m < before.len() {
                                assert(before[m] == v as usize);
                                assert(before.contains(v as usize));
                            }
                        }
                        if exists|j: int|
                            0 <= j < k + 1 && door_open_at(map, #[trigger] doors[j].pos) && doors[j].side_a
                                != NO_REGION && doors[j].side_b != NO_REGION && ((doors[j].side_a == a
                                && doors[j].side_b == v) || (doors[j].side_a == v && doors[j].side_b == a)) {
                            let j = choose|j: int|
                                0 <= j < k + 1 && door_open_at(map, #[trigger] doors[j].pos) && doors[j].side_a
                                    != NO_REGION && doors[j].side_b != NO_REGION && ((doors[j].side_a == a
                                    && doors[j].side_b == v) || (doors[j].side_a == v && doors[j].side_b == a));
                            if j < k {
                                assert(before.contains(v as usize));
                                let m = choose|m: int| 0 <= m < before.len() && before[m] == v as usize;
                                assert(list@[m] == v as usize);
                            } else {
                                assert(list@.contains(v as usize)) by {
                                    if pd.side_a as usize == a && pd.side_b == v {
                                        assert(list@[before.len() as int] == v as usize);
                                    } else {
                                        assert(list@[list@.len() - 1] == v as usize);
                                    }
                                }
                            }
                        }
                    }
                    assert forall|q: int| 0 <= q < list@.len() implies #[trigger] list@[q] < nr by {
                        if q < before.len() {
                            assert(list@[q] == before[q]);
                        }
                    }
                }
                k = k + 1;
            }
            adj.push(list);
            active.push(true);
            proof {
                assert forall|u: int, v: int|
                    0 <= u < a + 1 implies (#[trigger] adj@[u]@.contains(v as usize) && 0 <= v <= usize::MAX
                        <==> air_edge(map, doors, u, v)) by {
                    if u == a {
                        if air_edge(map, doors, u, v) {
                            let j = choose|j: int|
                                0 <= j < doors.len() && door_open_at(map, #[trigger] doors[j].pos) && doors[j].side_a
                                    != NO_REGION && doors[j].side_b != NO_REGION && ((doors[j].side_a == u
                                    && doors[j].side_b == v) || (doors[j].side_a == v && doors[j].side_b == u));
                            assert(0 <= v < nr);
                        }
                    }
                }
            }
            a = a + 1;
        }
        let ghost av = adj@.map_values(|l: Vec<usize>| l@);
        proof {
            assert forall|u: int, v: int| #[trigger] edge(av, u, v) <==> air_edge(map, doors, u, v) by {
                if 0 <= u < av.len() {
                    assert(av[u] == adj@[u]@);
                }
                if air_edge(map, doors, u, v) {
                    let j = choose|j: int|
                        0 <= j < doors.len() && door_open_at(map, #[trigger] doors[j].pos) && doors[j].side_a
                            != NO_REGION && doors[j].side_b != NO_REGION && ((doors[j].side_a == u && doors[j].side_b
                            == v) || (doors[j].side_a == v && doors[j].side_b == u));
                    assert(0 <= u < nr);
                }
            }
            assert forall|u: int, k: int| 0 <= u < av.len() && 0 <= k < av[u].len() implies (#[trigger] av[u][k])
                < av.len() by {
                assert(av[u] == adj@[u]@);
            }
            assert forall|u: int, v: int| #[trigger] edge(av, u, v) implies active@[u] && active@[v] && edge(av, v, u) by {
                assert(air_edge(map, doors, u, v));
                assert(air_edge(map, doors, v, u));
                let j = choose|j: int|
                    0 <= j < doors.len() && door_open_at(map, #[trigger] doors[j].pos) && doors[j].side_a != NO_REGION
                        && doors[j].side_b != NO_REGION && ((doors[j].side_a == u && doors[j].side_b == v) || (
                        doors[j].side_a == v && doors[j].side_b == u));
            }
        }
        let (lab, cnt) = label_components(&active, &adj);
        let mut groups: Vec<u16> = Vec::new();
        let mut r: usize = 0;
        while r < nr
            invariant
                0 <= r <= nr,
                nr < NO_REGION,
                lab@.len() == nr,
                active@.len() == nr,
                forall|u: int| 0 <= u < nr ==> #[trigger] active@[u],
                labels_components(active@, av, lab@, cnt as nat),
                groups@.len() == r,
                forall|u: int| 0 <= u < r ==> #[trigger] groups@[u] as usize == lab@[u],
            decreases nr - r,
        {
            assert(active@[r as int]);
            groups.push(lab[r] as u16);
            r = r + 1;
        }
        proof {
            assert(group_labels(groups@) =~= lab@);
            assert(active@ =~= all_active(nr as nat));
        }
        self.air_group = groups;
        self.air_groups = cnt as u16;
        proof {
            assert(labels_components(all_active(self.regions@.len()), av, group_labels(self.air_group@), self.air_groups as nat));
            assert(air_ok(map, self));
            assert forall|a: int, b: int|
                0 <= a < self.air_group@.len() && 0 <= b < self.air_group@.len() && a != b
                    && #[trigger] self.air_group@[a] == #[trigger] self.air_group@[b] implies exists|k: int|
                    0 <= k < self.doors@.len() && (#[trigger] self.doors@[k]).side_a != NO_REGION
                        && self.doors@[k].side_b != NO_REGION && (self.doors@[k].side_a == a
                        || self.doors@[k].side_b == a) && (map.spec_door_state(self.doors@[k].pos) matches Some(
                    d,
                ) && d.open >= DOOR_MOVE_US) by {
                lemma_shared_air_needs_open_door(map, self, a, b);
            }
        }
    }
}


/// Some cell belongs to region `g`.
pub open spec fn region_used(id: Seq<u16>, g: int) -> bool {
    exists|i: int| 0 <= i < id.len() && #[trigger] id[i] == g
}

fn air_cells(map: &ShipMap) -> (r: Vec<bool>)
    requires
        map.wf(),
    ensures
        r@ == air_mask(map),
{
    let mut out: Vec<bool> = Vec::new();
    let mut i: usize = 0;
    while i < map.tiles.len()
        invariant
            0 <= i <= map.tiles@.len(),
            out@ == air_mask(map).subrange(0, i as int),
        decreases map.tiles@.len() - i,
    {
        let t = map.tiles[i];
        out.push(t == Tile::Floor || t == Tile::Machine);
        i = i + 1;
        assert(out@ =~= air_mask(map).subrange(0, i as int));
    }
    assert(out@ =~= air_mask(map));
    out
}

proof fn lemma_region_sums(id: Seq<u16>, w: int, r: int, k: int)
    requires
        0 < w <= 0x7fff_ffff,
        0 <= k <= id.len(),
        id.len() <= i32::MAX,
    ensures
        0 <= region_count(id, r, k) <= k,
        0 <= region_sum(id, w, r, k, false) <= k * 0x7fff_ffff,
        0 <= region_sum(id, w, r, k, true) <= k * 0x7fff_ffff,
    decreases k,
{
    if k > 0 {
        lemma_region_sums(id, w, r, k - 1);
        assert(0 <= (k - 1) % w < w && 0 <= (k - 1) / w <= k - 1) by (nonlinear_arith)
            requires
                0 < w,
                k >= 1,
        ;
    }
}

proof fn lemma_region_nonempty(id: Seq<u16>, r: int, i: int, k: int)
    requires
        0 <= i < k,
        id[i] == r,
    ensures
        region_count(id, r, k) >= 1,
    decreases k,
{
    if k - 1 > i {
        lemma_region_nonempty(id, r, i, k - 1);
    }
    if k - 1 >= i {
        lemma_region_sums_count_nonneg(id, r, k - 1);
    }
}

proof fn lemma_region_sums_count_nonneg(id: Seq<u16>, r: int, k: int)
    ensures
        region_count(id, r, k) >= 0,
    decreases k,
{
    if k > 0 {
        lemma_region_sums_count_nonneg(id, r, k - 1);
    }
}

/// Region summaries from the partition.
fn region_stats(id: &Vec<u16>, w: i32, h: i32, count: usize) -> (r: Vec<RegionInfo>)
    requires
        0 <= w,
        0 <= h,
        w * h <= i32::MAX,
        id@.len() == w * h,
        count < NO_REGION,
        forall|g: int| 0 <= g < count ==> #[trigger] region_used(id@, g),
    ensures
        r@.len() == count,
        forall|g: int| 0 <= g < count ==> #[trigger] r@[g] == region_info(id@, w as int, h as int, g),
{
    let n = id.len();
    let ghost wi = w as int;
    let ghost hi = h as int;
    let mut cnt: Vec<u32> = Vec::new();
    let mut sx: Vec<u64> = Vec::new();
    let mut sy: Vec<u64> = Vec::new();
    let mut mnx: Vec<i32> = Vec::new();
    let mut mny: Vec<i32> = Vec::new();
    let mut mxx: Vec<i32> = Vec::new();
    let mut mxy: Vec<i32> = Vec::new();
    let mut exp: Vec<bool> = Vec::new();
    let mut g: usize = 0;
    while g < count
        invariant
            0 <= g <= count,
            cnt@.len() == g && sx@.len() == g && sy@.len() == g && mnx@.len() == g && mny@.len() == g && mxx@.len() == g
                && mxy@.len() == g && exp@.len() == g,
            forall|q: int|
                0 <= q < g ==> #[trigger] cnt@[q] == 0 && sx@[q] == 0 && sy@[q] == 0 && mnx@[q] == i32::MAX
                    && mny@[q] == i32::MAX && mxx@[q] == -1 && mxy@[q] == -1 && !exp@[q],
        decreases count - g,
    {
        cnt.push(0);
        sx.push(0);
        sy.push(0);
        mnx.push(i32::MAX);
        mny.push(i32::MAX);
        mxx.push(-1);
        mxy.push(-1);
        exp.push(false);
        g = g + 1;
    }
    let mut k: usize = 0;
    assert forall|q: int| 0 <= q < count implies {
        &&& #[trigger] cnt@[q] == region_count(id@, q, 0)
        &&& sx@[q] == region_sum(id@, wi, q, 0, false)
        &&& sy@[q] == region_sum(id@, wi, q, 0, true)
        &&& mnx@[q] == region_min(id@, wi, q, 0, false)
        &&& mny@[q] == region_min(id@, wi, q, 0, true)
        &&& mxx@[q] == region_max(id@, wi, q, 0, false)
        &&& mxy@[q] == region_max(id@, wi, q, 0, true)
        &&& exp@[q] == region_exposed(id@, wi, hi, q, 0)
    } by {
        assert(cnt@[q] == 0);
        assert(region_count(id@, q, 0) == 0);
        assert(region_sum(id@, wi, q, 0, false) == 0);
        assert(region_min(id@, wi, q, 0, false) == i32::MAX);
        assert(region_max(id@, wi, q, 0, true) == -1);
        assert(!region_exposed(id@, wi, hi, q, 0));
    }
    while k < n
        invariant
            n == id@.len(),
            n == wi * hi,
            wi == w,
            hi == h,
            0 <= w,
            0 <= h,
            n <= i32::MAX,
            count < NO_REGION,
            0 <= k <= n,
            cnt@.len() == count && sx@.len() == count && sy@.len() == count && mnx@.len() == count && mny@.len()
                == count && mxx@.len() == count && mxy@.len() == count && exp@.len() == count,
            forall|q: int|
                0 <= q < count ==> {
                    &&& #[trigger] cnt@[q] == region_count(id@, q, k as int)
                    &&& sx@[q] == region_sum(id@, wi, q, k as int, false)
                    &&& sy@[q] == region_sum(id@, wi, q, k as int, true)
                    &&& mnx@[q] == region_min(id@, wi, q, k as int, false)
                    &&& mny@[q] == region_min(id@, wi, q, k as int, true)
                    &&& mxx@[q] == region_max(id@, wi, q, k as int, false)
                    &&& mxy@[q] == region_max(id@, wi, q, k as int, true)
                    &&& exp@[q] == region_exposed(id@, wi, hi, q, k as int)
                },
        decreases n - k,
    {
        proof {
            assert(wi > 0) by (nonlinear_arith)
                requires
                    k < n,
                    n == wi * hi,
                    0 <= wi,
                    0 <= hi,
            ;
        }
        let wu = w as usize;
        proof {
            assert(0 <= k % wu < wi && 0 <= k / wu < hi) by (nonlinear_arith)
                requires
                    k < n,
                    n == wi * hi,
                    wi > 0,
                    wu == wi,
            ;
        }
        let x = (k % wu) as i32;
        let y = (k / wu) as i32;
        let r = id[k];
        let ghost c0 = cnt@;
        let ghost sx0 = sx@;
        let ghost sy0 = sy@;
        let ghost mnx0 = mnx@;
        let ghost mny0 = mny@;
        let ghost mxx0 = mxx@;
        let ghost mxy0 = mxy@;
        let ghost exp0 = exp@;
        if (r as usize) < count {
            let ru = r as usize;
            proof {
                lemma_region_sums(id@, wi, ru as int, k + 1);
                assert((k + 1) * 0x7fff_ffff <= 0x7fff_ffff * 0x7fff_ffff) by (nonlinear_arith)
                    requires
                        k + 1 <= 0x7fff_ffff,
                ;
            }
            cnt.set(ru, cnt[ru] + 1);
            sx.set(ru, sx[ru] + x as u64);
            sy.set(ru, sy[ru] + y as u64);
            if x < mnx[ru] {
                mnx.set(ru, x);
            }
            if y < mny[ru] {
                mny.set(ru, y);
            }
            if x > mxx[ru] {
                mxx.set(ru, x);
            }
            if y > mxy[ru] {
                mxy.set(ru, y);
            }
            if x == 0 || y == 0 || x == w - 1 || y == h - 1 {
                exp.set(ru, true);
            }
        }
        let ghost kk = k as int;
        proof {
            assert(x as int == kk % wi && y as int == kk / wi);
        }
        k = k + 1;
        proof {
            assert forall|q: int| 0 <= q < count implies {
                &&& #[trigger] cnt@[q] == region_count(id@, q, k as int)
                &&& sx@[q] == region_sum(id@, wi, q, k as int, false)
                &&& sy@[q] == region_sum(id@, wi, q, k as int, true)
                &&& mnx@[q] == region_min(id@, wi, q, k as int, false)
                &&& mny@[q] == region_min(id@, wi, q, k as int, true)
                &&& mxx@[q] == region_max(id@, wi, q, k as int, false)
                &&& mxy@[q] == region_max(id@, wi, q, k as int, true)
                &&& exp@[q] == region_exposed(id@, wi, hi, q, k as int)
            } by {
                assert(c0[q] == region_count(id@, q, kk));
                assert(sx0[q] == region_sum(id@, wi, q, kk, false) && sy0[q] == region_sum(id@, wi, q, kk, true));
                assert(mnx0[q] == region_min(id@, wi, q, kk, false) && mny0[q] == region_min(id@, wi, q, kk, true));
                assert(mxx0[q] == region_max(id@, wi, q, kk, false) && mxy0[q] == region_max(id@, wi, q, kk, true));
                assert(exp0[q] == region_exposed(id@, wi, hi, q, kk));
                assert(region_count(id@, q, k as int) == region_count(id@, q, kk) + if id@[kk] == q { 1int } else { 0int });
                assert(region_sum(id@, wi, q, k as int, false) == region_sum(id@, wi, q, kk, false) + if id@[kk] == q {
                    kk % wi
                } else {
                    0int
                });
                assert(region_sum(id@, wi, q, k as int, true) == region_sum(id@, wi, q, kk, true) + if id@[kk] == q {
                    kk / wi
                } else {
                    0int
                });
            }
        }
    }
    let mut out: Vec<RegionInfo> = Vec::new();
    let mut g: usize = 0;
    while g < count
        invariant
            n == id@.len(),
            k == n,
            wi == w,
            hi == h,
            0 <= g <= count,
            count < NO_REGION,
            forall|g: int| 0 <= g < count ==> #[trigger] region_used(id@, g),
            cnt@.len() == count && sx@.len() == count && sy@.len() == count && mnx@.len() == count && mny@.len()
                == count && mxx@.len() == count && mxy@.len() == count && exp@.len() == count,
            forall|q: int|
                0 <= q < count ==> {
                    &&& #[trigger] cnt@[q] == region_count(id@, q, k as int)
                    &&& sx@[q] == region_sum(id@, wi, q, k as int, false)
                    &&& sy@[q] == region_sum(id@, wi, q, k as int, true)
                    &&& mnx@[q] == region_min(id@, wi, q, k as int, false)
                    &&& mny@[q] == region_min(id@, wi, q, k as int, true)
                    &&& mxx@[q] == region_max(id@, wi, q, k as int, false)
                    &&& mxy@[q] == region_max(id@, wi, q, k as int, true)
                    &&& exp@[q] == region_exposed(id@, wi, hi, q, k as int)
                },
            out@.len() == g,
            forall|q: int| 0 <= q < g ==> #[trigger] out@[q] == region_info(id@, wi, hi, q),
        decreases count - g,
    {
        proof {
            assert(region_used(id@, g as int));
            let i = choose|i: int| 0 <= i < id@.len() && #[trigger] id@[i] == g as int;
            lemma_region_nonempty(id@, g as int, i, k as int);
        }
        let c = cnt[g] as u64;
        let info = RegionInfo {
            id: g as u16,
            cells: cnt[g],
            centroid: TilePos { x: (sx[g] / c) as i32, y: (sy[g] / c) as i32 },
            bounding_min: TilePos { x: mnx[g], y: mny[g] },
            bounding_max: TilePos { x: mxx[g], y: mxy[g] },
            exposed: exp[g],
        };
        out.push(info);
        g = g + 1;
    }
    out
}


fn side_of(id: &Vec<u16>, w: i32, h: i32, q: TilePos) -> (r: u16)
    requires
        0 <= w,
        0 <= h,
        w * h <= i32::MAX,
        id@.len() == w * h,
    ensures
        r == side_region(id@, w as int, h as int, q),
{
    if q.x < 0 || q.y < 0 || q.x >= w || q.y >= h {
        return NO_REGION;
    }
    proof {
        lemma_cell_index_bounds(w as int, h as int, q.x as int, q.y as int);
    }
    id[(q.y * w + q.x) as usize]
}

/// Door tiles become portals between the regions on their two passage
/// sides, in row-major order.
fn portals(map: &ShipMap, id: &Vec<u16>) -> (r: Vec<PortalDoor>)
    requires
        map.wf(),
        id@.len() == map.width * map.height,
    ensures
        r@ == portals_upto(map, id@, id@.len() as int),
{
    let n = id.len();
    let w = map.width;
    let h = map.height;
    let mut out: Vec<PortalDoor> = Vec::new();
    let mut k: usize = 0;
    while k < n
        invariant
            map.wf(),
            w == map.width,
            h == map.height,
            n == id@.len(),
            n == w * h,
            0 <= k <= n,
            out@ == portals_upto(map, id@, k as int),
        decreases n - k,
    {
        let wu = w as usize;
        proof {
            assert(w > 0) by (nonlinear_arith)
                requires
                    k < n,
                    n == w * h,
                    0 <= w,
                    0 <= h,
            ;
            assert(0 <= k % wu < w && 0 <= k / wu < h) by (nonlinear_arith)
                requires
                    k < n,
                    n == w * h,
                    w > 0,
                    wu == w,
            ;
        }
        let p = TilePos::new((k % wu) as i32, (k / wu) as i32);
        if map.tiles[k] == Tile::Door {
            match door_axis(map, p) {
                Some(axis) => {
                    let (a, b) = match axis {
                        DoorAxis::Ns => (TilePos::new(p.x, p.y - 1), TilePos::new(p.x, p.y + 1)),
                        DoorAxis::Ew => (TilePos::new(p.x - 1, p.y), TilePos::new(p.x + 1, p.y)),
                    };
                    out.push(
                        PortalDoor { entity: None, pos: p, axis, side_a: side_of(id, w, h, a), side_b: side_of(id, w, h, b) },
                    );
                },
                None => {},
            }
        }
        proof {
            assert(p == tile_pos(k as int % (w as int), k as int / (w as int)));
        }
        k = k + 1;
    }
    out
}

/// The compartment partition of a map: air tiles (floor and machines)
/// labelled by 4-connected component in order of each region's first tile,
/// region summaries, and door portals.
pub open spec fn structure_ok(map: &ShipMap, c: &Compartments) -> bool {
    &&& c.width == map.width
    &&& c.height == map.height
    &&& labels_components(
        air_mask(map),
        grid_adj(map.width as int, map.height as int, air_mask(map)),
        id_labels(c.id@),
        c.regions@.len(),
    )
    &&& forall|r: int|
        0 <= r < c.regions@.len() ==> #[trigger] c.regions@[r] == region_info(
            c.id@,
            map.width as int,
            map.height as int,
            r,
        )
    &&& c.doors@ == portals_upto(map, c.id@, c.id@.len() as int)
}

/// Air tiles joined by a chain of 4-adjacent air tiles (floor or machine)
/// share one compartment id (with `structure_ok`: compartments are exactly
/// the air components).
pub proof fn lemma_air_chain_same_compartment(map: &ShipMap, c: &Compartments, u: int, v: int)
    requires
        structure_ok(map, c),
        linked(grid_adj(map.width as int, map.height as int, air_mask(map)), u, v),
        0 <= u < c.id@.len(),
        0 <= v < c.id@.len(),
    ensures
        c.id@[u] == c.id@[v],
{
    lemma_linked_same_label(
        air_mask(map),
        grid_adj(map.width as int, map.height as int, air_mask(map)),
        id_labels(c.id@),
        c.regions@.len(),
        u,
        v,
    );
    let (a, b) = (c.id@[u], c.id@[v]);
    assert(id_labels(c.id@)[u] == id_labels(c.id@)[v]);
    if a != b {
        if a == NO_REGION || b == NO_REGION {
            assert(a as usize != NO_LABEL);
        }
    }
}

impl Compartments {
    /// Flood-fill the structural partition from the map geometry, then
    /// compute the current air connectivity.
    pub fn rebuild(map: &ShipMap) -> (r: Self)
        requires
            map.wf(),
            map.width * map.height < NO_REGION,
        ensures
            r.wf(),
            structure_ok(map, &r),
            air_ok(map, &r),
            r.geometry_version == map.version,
            r.rebuilds == 1,
            r.air_recomputes == 1,
            r.doors_open == 0,
            r.doors_closed == 0,
    {
        let mask = air_cells(map);
        let adj = grid_graph(map.width, map.height, &mask);
        proof {
            lemma_grid_adj(map.width as int, map.height as int, mask@);
        }
        let (lab, count) = label_components(&mask, &adj);
        let n = mask.len();
        let mut id: Vec<u16> = Vec::new();
        let mut i: usize = 0;
        while i < n
            invariant
                n == mask@.len(),
                n < NO_REGION,
                lab@.len() == n,
                labels_components(mask@, grid_adj(map.width as int, map.height as int, mask@), lab@, count as nat),
                0 <= i <= n,
                id@.len() == i,
                forall|j: int| 0 <= j < i ==> id_labels(id@)[j] == #[trigger] lab@[j],
                forall|j: int| 0 <= j < i ==> #[trigger] id@[j] == NO_REGION || id@[j] < count,
            decreases n - i,
        {
            let l = lab[i];
            if l == NO_LABEL {
                id.push(NO_REGION);
            } else {
                assert(mask@[i as int]);
                id.push(l as u16);
            }
            i = i + 1;
        }
        proof {
            assert(id_labels(id@) =~= lab@);
            assert forall|g: int| 0 <= g < count implies #[trigger] region_used(id@, g) by {
                let labs = grid_adj(map.width as int, map.height as int, mask@);
                assert(crate::graph::has_first(mask@, lab@, g));
                let j = choose|j: int| crate::graph::first_of_label(mask@, lab@, g, j);
                assert(id_labels(id@)[j] == lab@[j]);
                assert(id@[j] == g);
            }
        }
        let regions = region_stats(&id, map.width, map.height, count);
        let doors = portals(map, &id);
        proof {
            assert forall|k: int| 0 <= k < doors@.len() implies ((#[trigger] doors@[k]).side_a == NO_REGION
                || doors@[k].side_a < regions@.len()) && (doors@[k].side_b == NO_REGION || doors@[k].side_b
                < regions@.len()) by {
                lemma_portal_sides(map, id@, count as int, id@.len() as int, k);
            }
        }
        let mut c = Compartments {
            id,
            regions,
            doors,
            air_group: Vec::new(),
            air_groups: 0,
            width: map.width,
            height: map.height,
            geometry_version: map.version,
            rebuilds: 1,
            air_recomputes: 0,
            doors_open: 0,
            doors_closed: 0,
        };
        c.recompute_air(map);
        c
    }
}

proof fn lemma_portal_sides(map: &ShipMap, id: Seq<u16>, count: int, k: int, m: int)
    requires
        forall|j: int| 0 <= j < id.len() ==> #[trigger] id[j] == NO_REGION || id[j] < count,
        id.len() == map.width * map.height,
        0 <= map.width,
        0 <= map.height,
        0 <= m < portals_upto(map, id, k).len(),
    ensures
        (portals_upto(map, id, k)[m].side_a == NO_REGION || portals_upto(map, id, k)[m].side_a < count),
        (portals_upto(map, id, k)[m].side_b == NO_REGION || portals_upto(map, id, k)[m].side_b < count),
    decreases k,
{
    let prev = portals_upto(map, id, k - 1);
    if m < prev.len() {
        lemma_portal_sides(map, id, count, k - 1, m);
    } else {
        let p = tile_pos((k - 1) % (map.width as int), (k - 1) / (map.width as int));
        let pd = portal_at(map, id, p)->0;
        let (a, b) = match pd.axis {
            DoorAxis::Ns => (TilePos { x: p.x, y: (p.y - 1) as i32 }, TilePos { x: p.x, y: (p.y + 1) as i32 }),
            DoorAxis::Ew => (TilePos { x: (p.x - 1) as i32, y: p.y }, TilePos { x: (p.x + 1) as i32, y: p.y }),
        };
        if in_grid(map.width as int, map.height as int, a.x as int, a.y as int) {
            lemma_cell_index_bounds(map.width as int, map.height as int, a.x as int, a.y as int);
        }
        if in_grid(map.width as int, map.height as int, b.x as int, b.y as int) {
            lemma_cell_index_bounds(map.width as int, map.height as int, b.x as int, b.y as int);
        }
    }
}


/// Doors among `doors[..k]` that sit on a door tile and are (`open`) or
/// are not fully open.
pub open spec fn count_doors(map: &ShipMap, doors: Seq<(TilePos, Door)>, open: bool, k: int) -> int
    decreases k,
{
    if k <= 0 {
        0
    } else {
        count_doors(map, doors, open, k - 1) + if map.spec_tile(doors[k - 1].0) == Some(Tile::Door) && ((
        doors[k - 1].1.progress >= DOOR_MOVE_US) == open) {
            1int
        } else {
            0int
        }
    }
}

/// The map's door layer mirrors a door device.
pub open spec fn mirrors(d: Door) -> crate::map::DoorTileState {
    crate::map::DoorTileState { open: d.progress, locked: d.mode == DoorMode::LockClosed }
}

proof fn lemma_count_doors_bound(map: &ShipMap, doors: Seq<(TilePos, Door)>, open: bool, k: int)
    requires
        k >= 0,
    ensures
        0 <= count_doors(map, doors, open, k) <= k,
    decreases k,
{
    if k > 0 {
        lemma_count_doors_bound(map, doors, open, k - 1);
    }
}

/// Advance every door by one fixed step: each door on a door tile steps
/// (held when its tile is demanded or occupied) and its state is mirrored
/// into the map; doors whose tile is no longer a door (demolished this step)
/// are left alone. Returns how many doors are fully open and how many not.
pub fn step_doors(
    map: &mut ShipMap,
    doors: &mut Vec<(TilePos, Door)>,
    now: i64,
    dt: u64,
    occupied: &[TilePos],
    demand: &[TilePos],
) -> (r: (u32, u32))
    requires
        old(map).wf(),
        now <= i64::MAX - DOOR_HOLD_US,
        old(doors)@.len() <= u32::MAX,
        forall|k: int| 0 <= k < old(doors)@.len() ==> (#[trigger] old(doors)@[k]).1.wf(),
        forall|a: int, b: int| 0 <= a < b < old(doors)@.len() ==> old(doors)@[a].0 != old(doors)@[b].0,
    ensures
        final(map).wf(),
        final(map).width == old(map).width,
        final(map).height == old(map).height,
        final(map).version == old(map).version,
        forall|q: TilePos| #[trigger] final(map).spec_tile(q) == old(map).spec_tile(q),
        final(doors)@.len() == old(doors)@.len(),
        forall|k: int|
            0 <= k < old(doors)@.len() ==> {
                let (p, d) = old(doors)@[k];
                &&& (#[trigger] final(doors)@[k]).0 == p
                &&& final(doors)@[k].1 == if old(map).spec_tile(p) == Some(Tile::Door) {
                    door_after(d, now, dt as int, occupied@.contains(p) || demand@.contains(p), occupied@.contains(p))
                } else {
                    d
                }
                &&& old(map).spec_tile(p) == Some(Tile::Door) ==> final(map).spec_door_state(p) == Some(
                    mirrors(final(doors)@[k].1),
                )
            },
        forall|k: int|
            0 <= k < old(doors)@.len() && old(map).spec_tile(#[trigger] old(doors)@[k].0) == Some(Tile::Door) ==> {
                let (p, d) = old(doors)@[k];
                &&& final(doors)@[k].1.mode == d.mode
                &&& final(map).spec_door_state(p) matches Some(st) && st.locked == (d.mode == DoorMode::LockClosed)
                    && st.open == final(doors)@[k].1.progress
                &&& (d.mode == DoorMode::LockClosed <==> !final(map).spec_walkable(p))
            },
        forall|q: TilePos|
            (forall|k: int| 0 <= k < old(doors)@.len() ==> #[trigger] old(doors)@[k].0 != q) ==> #[trigger] final(map).spec_door_state(q)
                == old(map).spec_door_state(q),
        r.0 == count_doors(old(map), final(doors)@, true, final(doors)@.len() as int),
        r.1 == count_doors(old(map), final(doors)@, false, final(doors)@.len() as int),
{
    let ghost map0 = *map;
    let ghost doors0 = doors@;
    let n = doors.len();
    let mut open_count: u32 = 0;
    let mut closed_count: u32 = 0;
    let mut k: usize = 0;
    while k < n
        invariant
            map.wf(),
            map.width == map0.width,
            map.height == map0.height,
            map.version == map0.version,
            forall|q: TilePos| #[trigger] map.spec_tile(q) == map0.spec_tile(q),
            now <= i64::MAX - DOOR_HOLD_US,
            n == doors0.len(),
            n <= u32::MAX,
            doors@.len() == n,
            0 <= k <= n,
            forall|j: int| 0 <= j < n ==> (#[trigger] doors0[j]).1.wf(),
            forall|a: int, b: int| 0 <= a < b < n ==> doors0[a].0 != doors0[b].0,
            forall|j: int| k <= j < n ==> #[trigger] doors@[j] == doors0[j],
            forall|j: int|
                0 <= j < k ==> {
                    let (p, d) = doors0[j];
                    &&& (#[trigger] doors@[j]).0 == p
                    &&& doors@[j].1 == if map0.spec_tile(p) == Some(Tile::Door) {
                        door_after(d, now, dt as int, occupied@.contains(p) || demand@.contains(p), occupied@.contains(p))
                    } else {
                        d
                    }
                    &&& map0.spec_tile(p) == Some(Tile::Door) ==> map.spec_door_state(p) == Some(mirrors(doors@[j].1))
                },
            forall|q: TilePos|
                (forall|j: int| 0 <= j < k ==> #[trigger] doors0[j].0 != q) ==> #[trigger] map.spec_door_state(q)
                    == map0.spec_door_state(q),
            open_count == count_doors(&map0, doors@, true, k as int),
            closed_count == count_doors(&map0, doors@, false, k as int),
        decreases n - k,
    {
        let (pos, mut door) = doors[k];
        let ghost before = doors@;
        if map.tile(pos) == Some(Tile::Door) {
            let occ = contains_pos(occupied, pos);
            let held = occ || contains_pos(demand, pos);
            door.step(now, dt, held, occ);
            map.set_door_state(pos, crate::map::DoorTileState { open: door.progress, locked: door.mode == DoorMode::LockClosed });
            doors.set(k, (pos, door));
            proof {
                lemma_count_doors_bound(&map0, doors@, true, k as int);
                lemma_count_doors_bound(&map0, doors@, false, k as int);
                assert(count_doors(&map0, doors@, true, k as int) == count_doors(&map0, before, true, k as int)) by {
                    lemma_count_doors_prefix(&map0, doors@, before, true, k as int);
                }
                assert(count_doors(&map0, doors@, false, k as int) == count_doors(&map0, before, false, k as int)) by {
                    lemma_count_doors_prefix(&map0, doors@, before, false, k as int);
                }
            }
            if door.progress >= DOOR_MOVE_US {
                open_count = open_count + 1;
            } else {
                closed_count = closed_count + 1;
            }
        } else {
        }
        proof {
            assert forall|j: int|
                0 <= j < k + 1 implies {
                    let (p, d) = doors0[j];
                    &&& (#[trigger] doors@[j]).0 == p
                    &&& doors@[j].1 == if map0.spec_tile(p) == Some(Tile::Door) {
                        door_after(d, now, dt as int, occupied@.contains(p) || demand@.contains(p), occupied@.contains(p))
                    } else {
                        d
                    }
                    &&& map0.spec_tile(p) == Some(Tile::Door) ==> map.spec_door_state(p) == Some(mirrors(doors@[j].1))
                } by {
                if j < k {
                    assert(doors@[j] == before[j]);
                    assert(doors0[j].0 != doors0[k as int].0);
                }
            }
            assert forall|q: TilePos|
                (forall|j: int| 0 <= j < k + 1 ==> #[trigger] doors0[j].0 != q) implies #[trigger] map.spec_door_state(q)
                    == map0.spec_door_state(q) by {
                assert(doors0[k as int].0 != q);
            }
            assert(doors@.subrange(0, k as int) =~= before.subrange(0, k as int));
        }
        k = k + 1;
    }
    proof {
        assert forall|j: int|
            0 <= j < doors0.len() && map0.spec_tile(#[trigger] doors0[j].0) == Some(Tile::Door) implies {
                let (p, d) = doors0[j];
                &&& doors@[j].1.mode == d.mode
                &&& map.spec_door_state(p) matches Some(st) && st.locked == (d.mode == DoorMode::LockClosed)
                    && st.open == doors@[j].1.progress
                &&& (d.mode == DoorMode::LockClosed <==> !map.spec_walkable(p))
            } by {
            let (p, d) = doors0[j];
            lemma_step_keeps_mode(d, now, dt as int, occupied@.contains(p) || demand@.contains(p), occupied@.contains(p));
            assert(map.spec_tile(p) == Some(Tile::Door));
        }
    }
    (open_count, closed_count)
}

/// Stepping a door never changes its mode.
proof fn lemma_step_keeps_mode(d: Door, now: i64, dt: int, held: bool, occupied: bool)
    ensures
        door_after(d, now, dt, held, occupied).mode == d.mode,
{
}

proof fn lemma_count_doors_prefix(map: &ShipMap, a: Seq<(TilePos, Door)>, b: Seq<(TilePos, Door)>, open: bool, k: int)
    requires
        0 <= k <= a.len(),
        k <= b.len(),
        forall|j: int| 0 <= j < k ==> a[j] == b[j],
    ensures
        count_doors(map, a, open, k) == count_doors(map, b, open, k),
    decreases k,
{
    if k > 0 {
        lemma_count_doors_prefix(map, a, b, open, k - 1);
    }
}

} // verus!
