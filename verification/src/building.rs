//! Player-built interior structures: definitions, blueprints, construction
//! and deconstruction.
//!
//! While a building is still a blueprint its tiles stay walkable floor; on
//! completion the grid tiles flip to the kind's tile type (`BuiltWall` /
//! `Door` / `Machine`) so pathfinding reacts immediately. Deconstruction
//! restores floor tiles and refunds the full build cost.

use crate::items::{kind_at, kind_index, ItemKind};
use crate::map::{closed_door, drop_spot, find_drop_tile_ext, DoorTileState, Tile, TilePos, ShipMap};
use crate::log::{EventLog, LogKind};
use crate::stats::Stats;
use crate::power::CableGrid;
use crate::dist::{dist_key, lemma_octile_small, manhattan_distance, octile_distance, spec_dist_key, spec_manhattan, spec_octile_distance, OctDist};
use crate::path::{cost_bound, reachable, reaches, route, spec_path_cost};
use crate::text::{dec, int_dec, push_chars, push_dec, push_int, string_of};
use vstd::prelude::*;

verus! {

/// Everything buildable.
#[derive(Clone, Copy, PartialEq, Eq, Structural, Debug, Hash)]
pub enum BuildingKind {
    Wall,
    Door,
    Rack,
    Fabricator,
    /// Underfloor power cable (1 tile; lives in the cable grid).
    PowerCable,
    /// Starter Reactor: a 2x2 generator device.
    Reactor,
}

/// Static definition of one buildable kind.
#[derive(Clone, Copy)]
pub struct BuildingDef {
    pub kind: BuildingKind,
    pub label: &'static str,
    pub w: i32,
    pub h: i32,
    /// Build cost indexed by `ItemKind::index` (`[crate, ore, part]`).
    pub cost: [u32; 3],
    /// Crew construction time in sim seconds.
    pub work_secs: u32,
    /// Crew deconstruction time in sim seconds.
    pub demo_secs: u32,
    /// Whether the finished building blocks movement.
    pub blocks: bool,
    /// Whether ground items on the footprint block placement.
    pub needs_clear_tiles: bool,
    /// Tile written into the grid on completion (floor kinds keep `Floor`).
    pub tile: Tile,
}

pub open spec fn def_label(k: BuildingKind) -> Seq<char> {
    match k {
        BuildingKind::Wall => "Wall"@,
        BuildingKind::Door => "Door"@,
        BuildingKind::Rack => "Storage Rack"@,
        BuildingKind::Fabricator => "Fabricator"@,
        BuildingKind::PowerCable => "Power Cable"@,
        BuildingKind::Reactor => "Reactor"@,
    }
}

/// Footprint width and height.
pub open spec fn def_size(k: BuildingKind) -> int {
    match k {
        BuildingKind::Fabricator | BuildingKind::Reactor => 2,
        _ => 1,
    }
}

/// Machinery parts each kind costs (no kind costs crates or ore).
pub open spec fn def_parts(k: BuildingKind) -> int {
    match k {
        BuildingKind::Wall => 1,
        BuildingKind::Door => 2,
        BuildingKind::Rack => 1,
        BuildingKind::Fabricator => 4,
        BuildingKind::PowerCable => 0,
        BuildingKind::Reactor => 8,
    }
}

pub open spec fn def_work_secs(k: BuildingKind) -> int {
    match k {
        BuildingKind::Wall => 180,
        BuildingKind::Door => 180,
        BuildingKind::Rack => 150,
        BuildingKind::Fabricator => 480,
        BuildingKind::PowerCable => 90,
        BuildingKind::Reactor => 600,
    }
}

pub open spec fn def_demo_secs(k: BuildingKind) -> int {
    match k {
        BuildingKind::Wall => 90,
        BuildingKind::Door => 90,
        BuildingKind::Rack => 90,
        BuildingKind::Fabricator => 180,
        BuildingKind::PowerCable => 60,
        BuildingKind::Reactor => 240,
    }
}

pub open spec fn def_blocks(k: BuildingKind) -> bool {
    k == BuildingKind::Wall || k == BuildingKind::Fabricator || k == BuildingKind::Reactor
}

pub open spec fn def_needs_clear(k: BuildingKind) -> bool {
    k == BuildingKind::Wall || k == BuildingKind::Fabricator || k == BuildingKind::Reactor
}

pub open spec fn def_tile(k: BuildingKind) -> Tile {
    match k {
        BuildingKind::Wall => Tile::BuiltWall,
        BuildingKind::Door => Tile::Door,
        BuildingKind::Fabricator | BuildingKind::Reactor => Tile::Machine,
        _ => Tile::Floor,
    }
}

/// The definition of `kind`, as the table above states it.
pub open spec fn def_matches(d: BuildingDef, kind: BuildingKind) -> bool {
    &&& d.kind == kind
    &&& d.label@ == def_label(kind)
    &&& d.w == def_size(kind)
    &&& d.h == def_size(kind)
    &&& d.cost@ == seq![0u32, 0u32, def_parts(kind) as u32]
    &&& d.work_secs == def_work_secs(kind)
    &&& d.demo_secs == def_demo_secs(kind)
    &&& d.blocks == def_blocks(kind)
    &&& d.needs_clear_tiles == def_needs_clear(kind)
    &&& d.tile == def_tile(kind)
}

pub fn def(kind: BuildingKind) -> (r: BuildingDef)
    ensures
        def_matches(r, kind),
{
    match kind {
        BuildingKind::Wall => BuildingDef {
            kind,
            label: "Wall",
            w: 1,
            h: 1,
            cost: [0, 0, 1],
            work_secs: 180,
            demo_secs: 90,
            blocks: true,
            needs_clear_tiles: true,
            tile: Tile::BuiltWall,
        },
        BuildingKind::Door => BuildingDef {
            kind,
            label: "Door",
            w: 1,
            h: 1,
            cost: [0, 0, 2],
            work_secs: 180,
            demo_secs: 90,
            blocks: false,
            needs_clear_tiles: false,
            tile: Tile::Door,
        },
        BuildingKind::Rack => BuildingDef {
            kind,
            label: "Storage Rack",
            w: 1,
            h: 1,
            cost: [0, 0, 1],
            work_secs: 150,
            demo_secs: 90,
            blocks: false,
            needs_clear_tiles: false,
            tile: Tile::Floor,
        },
        BuildingKind::Fabricator => BuildingDef {
            kind,
            label: "Fabricator",
            w: 2,
            h: 2,
            cost: [0, 0, 4],
            work_secs: 480,
            demo_secs: 180,
            blocks: true,
            needs_clear_tiles: true,
            tile: Tile::Machine,
        },
        BuildingKind::PowerCable => BuildingDef {
            kind,
            label: "Power Cable",
            w: 1,
            h: 1,
            cost: [0, 0, 0],
            work_secs: 90,
            demo_secs: 60,
            blocks: false,
            needs_clear_tiles: false,
            tile: Tile::Floor,
        },
        BuildingKind::Reactor => BuildingDef {
            kind,
            label: "Reactor",
            w: 2,
            h: 2,
            cost: [0, 0, 8],
            work_secs: 600,
            demo_secs: 240,
            blocks: true,
            needs_clear_tiles: true,
            tile: Tile::Machine,
        },
    }
}

impl BuildingKind {
    pub fn label(&self) -> (r: &'static str)
        ensures
            r@ == def_label(*self),
    {
        def(*self).label
    }
}

/// Rectangular grid footprint. `x`/`y` is the top-left tile.
#[derive(Clone, Copy, PartialEq, Eq, Structural, Debug)]
pub struct Footprint {
    pub x: i32,
    pub y: i32,
    pub w: i32,
    pub h: i32,
}

/// A footprint small enough, and far enough from the coordinate limits,
/// that its tiles and their neighbours are representable: the tile list of
/// `w·h` positions (8 bytes each) stays below the 2³¹-byte allocation limit
/// of a 32-bit target, and every tile, the ring of neighbours around it and
/// the distances between such tiles stay inside `i32` (the tile arithmetic
/// `x + dx` would overflow otherwise).
pub open spec fn fp_ok(f: Footprint) -> bool {
    &&& 0 <= f.w <= 0x4000
    &&& 0 <= f.h <= 0x4000
    &&& -0x2000_0000 <= f.x <= 0x2000_0000
    &&& -0x2000_0000 <= f.y <= 0x2000_0000
}

/// The `i`-th footprint tile in row-major order.
pub open spec fn fp_tile(f: Footprint, i: int) -> TilePos {
    TilePos { x: (f.x + i % (f.w as int)) as i32, y: (f.y + i / (f.w as int)) as i32 }
}

/// `(x, y)` lies inside the footprint.
pub open spec fn in_foot(f: Footprint, x: int, y: int) -> bool {
    f.x <= x < f.x + f.w && f.y <= y < f.y + f.h
}

pub open spec fn fp_contains(f: Footprint, p: TilePos) -> bool {
    in_foot(f, p.x as int, p.y as int)
}

/// All footprint tiles in row-major order.
pub open spec fn fp_tiles(f: Footprint) -> Seq<TilePos> {
    Seq::new((f.w * f.h) as nat, |i: int| fp_tile(f, i))
}

impl Footprint {
    pub fn new(x: i32, y: i32, w: i32, h: i32) -> (r: Self)
        ensures
            r == (Footprint { x, y, w, h }),
    {
        Footprint { x, y, w, h }
    }

    pub fn contains(&self, p: TilePos) -> (r: bool)
        requires
            fp_ok(*self),
        ensures
            r == fp_contains(*self, p),
    {
        p.x >= self.x && p.x < self.x + self.w && p.y >= self.y && p.y < self.y + self.h
    }

    /// Footprint tiles in row-major order.
    pub fn tiles(&self) -> (r: Vec<TilePos>)
        requires
            fp_ok(*self),
        ensures
            r@ == fp_tiles(*self),
    {
        let mut out: Vec<TilePos> = Vec::new();
        let mut dy: i32 = 0;
        let ghost w = self.w as int;
        while dy < self.h
            invariant
                fp_ok(*self),
                w == self.w,
                0 <= dy <= self.h,
                0 <= dy * w,
                out@ == Seq::new((dy * w) as nat, |i: int| fp_tile(*self, i)),
            decreases self.h - dy,
        {
            let mut dx: i32 = 0;
            while dx < self.w
                invariant
                    fp_ok(*self),
                    w == self.w,
                    0 <= dy < self.h,
                    0 <= dx <= self.w,
                    0 <= dy * w,
                    out@ == Seq::new((dy * w + dx) as nat, |i: int| fp_tile(*self, i)),
                decreases self.w - dx,
            {
                let p = TilePos::new(self.x + dx, self.y + dy);
                proof {
                    let k = dy * w + dx;
                    assert(k % w == dx && k / w == dy) by (nonlinear_arith)
                        requires
                            k == dy * w + dx,
                            0 <= dx < w,
                            0 <= dy,
                    ;
                }
                out.push(p);
                assert(out@ =~= Seq::new((dy * w + dx + 1) as nat, |i: int| fp_tile(*self, i)));
                dx = dx + 1;
            }
            assert((dy + 1) * w == dy * w + w) by (nonlinear_arith);
            dy = dy + 1;
        }
        assert(self.h * w == self.w * self.h) by (nonlinear_arith)
            requires
                w == self.w,
        ;
        assert(out@ =~= fp_tiles(*self));
        out
    }
}

/// `d` is the Manhattan distance from `p` to footprint tile `i`, the first
/// tile with the smallest such distance.
pub open spec fn nearest_foot_tile(f: Footprint, p: TilePos, i: int, d: OctDist) -> bool {
    let ts = fp_tiles(f);
    &&& 0 <= i < ts.len()
    &&& d.diag == 0
    &&& d.straight == spec_manhattan(ts[i], p)
    &&& forall|j: int| 0 <= j < ts.len() ==> d.straight <= #[trigger] spec_manhattan(ts[j], p)
    &&& forall|j: int| 0 <= j < i ==> d.straight < #[trigger] spec_manhattan(ts[j], p)
}

/// The distance `distance_to` reports (see `lemma_foot_distance`).
pub open spec fn spec_foot_distance(f: Footprint, p: TilePos) -> Option<OctDist> {
    if exists|i: int, d: OctDist| nearest_foot_tile(f, p, i, d) {
        Some((choose|i: int, d: OctDist| nearest_foot_tile(f, p, i, d)).1)
    } else {
        None
    }
}

/// The nearest footprint tile, and so its distance, is unique.
pub proof fn lemma_nearest_foot_unique(f: Footprint, p: TilePos, i1: int, d1: OctDist, i2: int, d2: OctDist)
    requires
        nearest_foot_tile(f, p, i1, d1),
        nearest_foot_tile(f, p, i2, d2),
    ensures
        i1 == i2,
        d1 == d2,
{
    let ts = fp_tiles(f);
    assert(d1.straight <= spec_manhattan(ts[i2], p));
    assert(d2.straight <= spec_manhattan(ts[i1], p));
    if i1 < i2 {
        assert(d2.straight < spec_manhattan(ts[i1], p));
    } else if i2 < i1 {
        assert(d1.straight < spec_manhattan(ts[i2], p));
    }
}

/// What `distance_to` returns is `spec_foot_distance`.
pub proof fn lemma_foot_distance(f: Footprint, p: TilePos, r: Option<OctDist>)
    requires
        r is None <==> fp_tiles(f).len() == 0,
        r matches Some(d) ==> exists|i: int| #[trigger] nearest_foot_tile(f, p, i, d),
    ensures
        r == spec_foot_distance(f, p),
{
    match r {
        Some(d) => {
            let i = choose|i: int| #[trigger] nearest_foot_tile(f, p, i, d);
            assert(nearest_foot_tile(f, p, i, d));
            let (i2, d2) = choose|i: int, d: OctDist| nearest_foot_tile(f, p, i, d);
            lemma_nearest_foot_unique(f, p, i, d, i2, d2);
        },
        None => {
            if exists|i: int, d: OctDist| nearest_foot_tile(f, p, i, d) {
                let (i2, d2) = choose|i: int, d: OctDist| nearest_foot_tile(f, p, i, d);
                assert(nearest_foot_tile(f, p, i2, d2));
            }
        },
    }
}

impl Footprint {
    /// Manhattan distance from `p` to the nearest footprint tile (the first
    /// such tile in row-major order), as a distance with no diagonal part;
    /// `None` for an empty footprint.
    pub fn distance_to(&self, p: TilePos) -> (r: Option<OctDist>)
        requires
            fp_ok(*self),
        ensures
            r is None <==> fp_tiles(*self).len() == 0,
            r matches Some(d) ==> exists|i: int| #[trigger] nearest_foot_tile(*self, p, i, d),
    {
        let tiles = self.tiles();
        let ghost ts = fp_tiles(*self);
        let mut best: Option<OctDist> = None;
        let ghost mut bi: int = 0;
        let mut i: usize = 0;
        while i < tiles.len()
            invariant
                tiles@ == ts,
                ts == fp_tiles(*self),
                0 <= i <= ts.len(),
                best is None <==> i == 0,
                best matches Some(d) ==> {
                    &&& 0 <= bi < i
                    &&& d.diag == 0
                    &&& d.straight == spec_manhattan(ts[bi], p)
                    &&& forall|j: int| 0 <= j < i ==> d.straight <= #[trigger] spec_manhattan(ts[j], p)
                    &&& forall|j: int| 0 <= j < bi ==> d.straight < #[trigger] spec_manhattan(ts[j], p)
                },
            decreases ts.len() - i,
        {
            let d = manhattan_distance(tiles[i], p);
            let better = match best {
                None => true,
                Some(b) => d.straight < b.straight,
            };
            if better {
                best = Some(d);
                proof {
                    bi = i as int;
                }
            }
            i = i + 1;
        }
        match best {
            Some(d) => {
                proof {
                    assert(nearest_foot_tile(*self, p, bi, d));
                }
                let r = Some(d);
                assert(r matches Some(q) && q == d);
                r
            },
            None => None,
        }
    }
}

/// A placed-but-not-yet-built building. Materials are hauled into
/// `delivered`; once every cost slot is filled a builder can construct it.
#[derive(Clone, Copy, Debug)]
pub struct Blueprint {
    pub kind: BuildingKind,
    pub foot: Footprint,
    /// Materials already on site, indexed by `ItemKind::index`.
    pub delivered: [u32; 3],
    /// Construction progress in parts per million.
    pub progress: u32,
}

/// Cost of `kind` in count slot `i`.
pub open spec fn def_cost(kind: BuildingKind, i: int) -> int {
    if i == 2 {
        def_parts(kind)
    } else {
        0
    }
}

/// Units of slot `i` still missing on a blueprint.
pub open spec fn bp_missing(bp: Blueprint, i: int) -> int {
    let c = def_cost(bp.kind, i);
    let d = bp.delivered@[i] as int;
    if c >= d { c - d } else { 0 }
}

/// The missing materials as `(kind, count)` pairs in slot order, omitting
/// complete slots.
pub open spec fn bp_missing_list(bp: Blueprint) -> Seq<(ItemKind, u32)> {
    let m0 = if bp_missing(bp, 0) > 0 { seq![(ItemKind::Crate, bp_missing(bp, 0) as u32)] } else { seq![] };
    let m1 = if bp_missing(bp, 1) > 0 { seq![(ItemKind::Ore, bp_missing(bp, 1) as u32)] } else { seq![] };
    let m2 = if bp_missing(bp, 2) > 0 { seq![(ItemKind::Part, bp_missing(bp, 2) as u32)] } else { seq![] };
    m0 + m1 + m2
}

/// Short name of an item kind in material lists.
pub open spec fn short_text(k: ItemKind) -> Seq<char> {
    match k {
        ItemKind::Crate => "crate"@,
        ItemKind::Ore => "ore"@,
        ItemKind::Part => "part"@,
    }
}

/// `name D/C` for count slot `i`: delivered and cost.
pub open spec fn slot_text(bp: Blueprint, i: int) -> Seq<char> {
    short_text(kind_at(i)) + seq![' '] + dec(bp.delivered@[i] as nat) + seq!['/'] + dec(def_cost(bp.kind, i) as nat)
}

/// The costed slots among the first `n`, each as `slot_text`, separated by
/// single spaces.
pub open spec fn materials_prefix(bp: Blueprint, n: int) -> Seq<char>
    decreases n,
{
    if n <= 0 {
        Seq::empty()
    } else {
        let before = materials_prefix(bp, n - 1);
        if def_cost(bp.kind, n - 1) > 0 {
            if before.len() == 0 {
                slot_text(bp, n - 1)
            } else {
                before + seq![' '] + slot_text(bp, n - 1)
            }
        } else {
            before
        }
    }
}

/// The material progress line of a blueprint: every costed kind as
/// `name delivered/cost`, space-separated.
pub open spec fn materials_text(bp: Blueprint) -> Seq<char> {
    materials_prefix(bp, 3)
}

fn push_short_label(out: &mut Vec<char>, k: ItemKind)
    ensures
        final(out)@ == old(out)@ + short_text(k),
{
    proof {
        reveal_strlit("crate");
        reveal_strlit("ore");
        reveal_strlit("part");
    }
    match k {
        ItemKind::Crate => push_chars(out, &['c', 'r', 'a', 't', 'e']),
        ItemKind::Ore => push_chars(out, &['o', 'r', 'e']),
        ItemKind::Part => push_chars(out, &['p', 'a', 'r', 't']),
    }
    assert(out@ =~= old(out)@ + short_text(k));
}

impl Blueprint {
    pub fn missing(&self, kind: ItemKind) -> (r: u32)
        ensures
            r == bp_missing(*self, kind_index(kind)),
    {
        let d = def(self.kind);
        d.cost[kind.index()].saturating_sub(self.delivered[kind.index()])
    }

    /// Materials still to be hauled, as (kind, count) pairs.
    pub fn missing_list(&self) -> (r: Vec<(ItemKind, u32)>)
        ensures
            r@ == bp_missing_list(*self),
    {
        let mut out: Vec<(ItemKind, u32)> = Vec::new();
        let m0 = self.missing(ItemKind::Crate);
        if m0 > 0 {
            out.push((ItemKind::Crate, m0));
        }
        let m1 = self.missing(ItemKind::Ore);
        if m1 > 0 {
            out.push((ItemKind::Ore, m1));
        }
        let m2 = self.missing(ItemKind::Part);
        if m2 > 0 {
            out.push((ItemKind::Part, m2));
        }
        assert(out@ =~= bp_missing_list(*self));
        out
    }

    /// A hauler delivers one unit of `kind` on site.
    pub fn receive(&mut self, kind: ItemKind)
        requires
            old(self).delivered@[kind_index(kind)] < u32::MAX,
        ensures
            final(self).delivered@ == old(self).delivered@.update(
                kind_index(kind),
                (old(self).delivered@[kind_index(kind)] + 1) as u32,
            ),
            final(self).kind == old(self).kind,
            final(self).foot == old(self).foot,
            final(self).progress == old(self).progress,
    {
        let i = kind.index();
        self.delivered[i] = self.delivered[i] + 1;
    }

    pub fn fully_supplied(&self) -> (r: bool)
        ensures
            r == (bp_missing_list(*self).len() == 0),
            r == (forall|i: int| 0 <= i < 3 ==> bp_missing(*self, i) == 0),
    {
        let l = self.missing_list();
        l.len() == 0
    }

    /// `kind delivered/cost` for every costed slot, e.g. `part 1/4`.
    pub fn materials_label(&self) -> (r: String)
        ensures
            r@ == materials_text(*self),
    {
        let d = def(self.kind);
        let mut out: Vec<char> = Vec::new();
        let mut i: usize = 0;
        while i < 3
            invariant
                0 <= i <= 3,
                def_matches(d, self.kind),
                out@ == materials_prefix(*self, i as int),
            decreases 3 - i,
        {
            let c = d.cost[i];
            if c > 0 {
                let ghost before = out@;
                if out.len() > 0 {
                    out.push(' ');
                }
                push_short_label(&mut out, ItemKind::from_index(i));
                out.push(' ');
                push_dec(&mut out, self.delivered[i] as u64);
                out.push('/');
                push_dec(&mut out, c as u64);
                proof {
                    assert(c == def_cost(self.kind, i as int));
                    if before.len() == 0 {
                        assert(out@ =~= slot_text(*self, i as int));
                    } else {
                        assert(out@ =~= before + seq![' '] + slot_text(*self, i as int));
                    }
                }
            } else {
                proof {
                    assert(def_cost(self.kind, i as int) == 0);
                }
            }
            i = i + 1;
        }
        string_of(out)
    }
}

/// A completed building.
#[derive(Clone, Copy, PartialEq, Eq, Structural, Debug)]
pub struct Building {
    pub kind: BuildingKind,
    pub foot: Footprint,
    /// Deconstruction progress in parts per million.
    pub demo_progress: u32,
}

// =====================================================================================
// Placement
// =====================================================================================

/// Why a placement is illegal — surfaced to the build ghost and event log.
#[derive(Clone, Copy, PartialEq, Eq, Structural, Debug)]
pub enum PlacementError {
    OutsideShip,
    NotFloor,
    ItemInWay,
    OverlapsBuilding,
    OverlapsBlueprint,
    CableExists,
}

impl PlacementError {
    pub fn label(&self) -> (r: &'static str)
        ensures
            *self == PlacementError::OutsideShip ==> r@ == "outside the ship hull"@,
            *self == PlacementError::NotFloor ==> r@ == "not on clear floor"@,
            *self == PlacementError::ItemInWay ==> r@ == "an item is in the way"@,
            *self == PlacementError::OverlapsBuilding ==> r@ == "overlaps an existing building"@,
            *self == PlacementError::OverlapsBlueprint ==> r@ == "overlaps another blueprint"@,
            *self == PlacementError::CableExists ==> r@ == "a cable already runs here"@,
    {
        match self {
            PlacementError::OutsideShip => "outside the ship hull",
            PlacementError::NotFloor => "not on clear floor",
            PlacementError::ItemInWay => "an item is in the way",
            PlacementError::OverlapsBuilding => "overlaps an existing building",
            PlacementError::OverlapsBlueprint => "overlaps another blueprint",
            PlacementError::CableExists => "a cable already runs here",
        }
    }
}

/// The two footprints share a tile.
pub open spec fn spec_overlap(a: Footprint, b: Footprint) -> bool {
    a.x < b.x + b.w && b.x < a.x + a.w && a.y < b.y + b.h && b.y < a.y + a.h
}

fn foot_overlap(a: &Footprint, b: &Footprint) -> (r: bool)
    requires
        fp_ok(*a),
        fp_ok(*b),
    ensures
        r == spec_overlap(*a, *b),
{
    a.x < b.x + b.w && b.x < a.x + a.w && a.y < b.y + b.h && b.y < a.y + a.h
}

/// What one footprint tile says about a placement of `kind`.
pub open spec fn tile_err(map: &ShipMap, kind: BuildingKind, ground: Seq<TilePos>, t: TilePos) -> Option<
    PlacementError,
> {
    match map.spec_tile(t) {
        None => Some(PlacementError::OutsideShip),
        Some(Tile::Floor) => if def_needs_clear(kind) && ground.contains(t) {
            Some(PlacementError::ItemInWay)
        } else {
            None
        },
        Some(_) => Some(PlacementError::NotFloor),
    }
}

/// First error over footprint tiles `k..` (row-major).
pub open spec fn first_tile_err(
    map: &ShipMap,
    kind: BuildingKind,
    ground: Seq<TilePos>,
    foot: Footprint,
    k: int,
) -> Option<PlacementError>
    decreases foot.w * foot.h - k,
{
    if k >= foot.w * foot.h || k < 0 {
        None
    } else {
        match tile_err(map, kind, ground, fp_tile(foot, k)) {
            Some(e) => Some(e),
            None => first_tile_err(map, kind, ground, foot, k + 1),
        }
    }
}

/// First overlap over the existing buildings/blueprints `k..`.
pub open spec fn first_overlap(foot: Footprint, others: Seq<(Footprint, bool)>, k: int) -> Option<
    PlacementError,
>
    decreases others.len() - k,
{
    if k >= others.len() || k < 0 {
        None
    } else if spec_overlap(foot, others[k].0) {
        Some(if others[k].1 { PlacementError::OverlapsBlueprint } else { PlacementError::OverlapsBuilding })
    } else {
        first_overlap(foot, others, k + 1)
    }
}

/// The placement verdict.
pub open spec fn spec_can_place(
    map: &ShipMap,
    kind: BuildingKind,
    origin: TilePos,
    ground: Seq<TilePos>,
    others: Seq<(Footprint, bool)>,
    cables: &CableGrid,
) -> Result<(), PlacementError> {
    let foot = Footprint { x: origin.x, y: origin.y, w: def_size(kind) as i32, h: def_size(kind) as i32 };
    if kind == BuildingKind::PowerCable {
        // Underfloor: any interior tile works, but never the hull border,
        // never twice, never under a pending cable plan.
        let on_border = origin.x == 0 || origin.y == 0 || origin.x == map.width - 1 || origin.y
            == map.height - 1;
        if on_border || !map.spec_in_bounds(origin) {
            Err(PlacementError::OutsideShip)
        } else if cables.spec_has(origin) {
            Err(PlacementError::CableExists)
        } else if exists|i: int|
            0 <= i < others.len() && (#[trigger] others[i]).1 && others[i].0.w == 1 && others[i].0.h == 1
                && fp_contains(others[i].0, origin) {
            Err(PlacementError::CableExists)
        } else {
            Ok(())
        }
    } else {
        match first_tile_err(map, kind, ground, foot, 0) {
            Some(e) => Err(e),
            None => match first_overlap(foot, others, 0) {
                Some(e) => Err(e),
                None => Ok(()),
            },
        }
    }
}

pub fn contains_pos(list: &[TilePos], p: TilePos) -> (r: bool)
    ensures
        r == list@.contains(p),
{
    let mut i: usize = 0;
    while i < list.len()
        invariant
            0 <= i <= list@.len(),
            forall|j: int| 0 <= j < i ==> list@[j] != p,
        decreases list@.len() - i,
    {
        if list[i] == p {
            return true;
        }
        i = i + 1;
    }
    false
}

/// Check whether a footprint can host a new blueprint of `kind` at `origin`
/// (top-left tile), given ground items, existing footprints
/// (`(footprint, is_blueprint)`) and the cable layer.
pub fn can_place(
    map: &ShipMap,
    kind: BuildingKind,
    origin: TilePos,
    ground_items: &[TilePos],
    buildings: &[(Footprint, bool)],
    cables: &CableGrid,
) -> (r: Result<(), PlacementError>)
    requires
        map.wf(),
        cables.wf(),
        -0x2000_0000 <= origin.x <= 0x2000_0000,
        -0x2000_0000 <= origin.y <= 0x2000_0000,
        forall|i: int| 0 <= i < buildings@.len() ==> fp_ok(#[trigger] buildings@[i].0),
    ensures
        r == spec_can_place(map, kind, origin, ground_items@, buildings@, cables),
{
    let d = def(kind);
    let foot = Footprint::new(origin.x, origin.y, d.w, d.h);
    if kind == BuildingKind::PowerCable {
        let on_border = origin.x == 0 || origin.y == 0 || origin.x == map.width - 1 || origin.y
            == map.height - 1;
        if on_border || !map.in_bounds(origin) {
            return Err(PlacementError::OutsideShip);
        }
        if cables.has(origin) {
            return Err(PlacementError::CableExists);
        }
        let mut i: usize = 0;
        while i < buildings.len()
            invariant
                0 <= i <= buildings@.len(),
                kind == BuildingKind::PowerCable,
                !(origin.x == 0 || origin.y == 0 || origin.x == map.width - 1 || origin.y == map.height - 1),
                map.spec_in_bounds(origin),
                !cables.spec_has(origin),
                forall|j: int| 0 <= j < buildings@.len() ==> fp_ok(#[trigger] buildings@[j].0),
                forall|j: int|
                    0 <= j < i ==> !((#[trigger] buildings@[j]).1 && buildings@[j].0.w == 1 && buildings@[j].0.h
                        == 1 && fp_contains(buildings@[j].0, origin)),
            decreases buildings@.len() - i,
        {
            let (f, is_bp) = buildings[i];
            if is_bp && f.w == 1 && f.h == 1 && f.contains(origin) {
                assert(buildings@[i as int].1 && buildings@[i as int].0.w == 1 && buildings@[i as int].0.h == 1
                    && fp_contains(buildings@[i as int].0, origin));
                return Err(PlacementError::CableExists);
            }
            i = i + 1;
        }
        return Ok(());
    }
    let tiles = foot.tiles();
    let mut k: usize = 0;
    while k < tiles.len()
        invariant
            map.wf(),
            fp_ok(foot),
            foot == (Footprint { x: origin.x, y: origin.y, w: def_size(kind) as i32, h: def_size(kind) as i32 }),
            def_matches(d, kind),
            kind != BuildingKind::PowerCable,
            tiles@ == fp_tiles(foot),
            0 <= k <= tiles@.len(),
            first_tile_err(map, kind, ground_items@, foot, 0) == first_tile_err(map, kind, ground_items@, foot, k as int),
        decreases tiles@.len() - k,
    {
        let t = tiles[k];
        assert(t == fp_tile(foot, k as int));
        assert(first_tile_err(map, kind, ground_items@, foot, k as int) == match tile_err(map, kind, ground_items@, t) {
            Some(e) => Some(e),
            None => first_tile_err(map, kind, ground_items@, foot, k + 1),
        });
        match map.tile(t) {
            Some(Tile::Floor) => {},
            Some(_) => {
                return Err(PlacementError::NotFloor);
            },
            None => {
                return Err(PlacementError::OutsideShip);
            },
        }
        if d.needs_clear_tiles && contains_pos(ground_items, t) {
            return Err(PlacementError::ItemInWay);
        }
        k = k + 1;
    }
    let mut i: usize = 0;
    while i < buildings.len()
        invariant
            fp_ok(foot),
            forall|j: int| 0 <= j < buildings@.len() ==> fp_ok(#[trigger] buildings@[j].0),
            0 <= i <= buildings@.len(),
            first_overlap(foot, buildings@, 0) == first_overlap(foot, buildings@, i as int),
            kind != BuildingKind::PowerCable,
            foot == (Footprint { x: origin.x, y: origin.y, w: def_size(kind) as i32, h: def_size(kind) as i32 }),
            first_tile_err(map, kind, ground_items@, foot, 0) == None::<PlacementError>,
        decreases buildings@.len() - i,
    {
        let (other, is_bp) = buildings[i];
        assert(other == buildings@[i as int].0);
        if foot_overlap(&foot, &other) {
            return Err(if is_bp {
                PlacementError::OverlapsBlueprint
            } else {
                PlacementError::OverlapsBuilding
            });
        }
        i = i + 1;
    }
    Ok(())
}

/// The tile has a footprint tile as an orthogonal neighbour.
pub open spec fn beside_foot(f: Footprint, p: TilePos) -> bool {
    in_foot(f, p.x - 1, p.y as int) || in_foot(f, p.x + 1, p.y as int) || in_foot(f, p.x as int, p.y - 1)
        || in_foot(f, p.x as int, p.y + 1)
}

/// The four orthogonal neighbours of `t`: east, west, south, north.
pub open spec fn nb4(t: TilePos, k: int) -> TilePos {
    if k == 0 {
        TilePos { x: (t.x + 1) as i32, y: t.y }
    } else if k == 1 {
        TilePos { x: (t.x - 1) as i32, y: t.y }
    } else if k == 2 {
        TilePos { x: t.x, y: (t.y + 1) as i32 }
    } else {
        TilePos { x: t.x, y: (t.y - 1) as i32 }
    }
}

fn nb4_exec(t: TilePos, k: usize) -> (r: TilePos)
    requires
        k < 4,
        i32::MIN < t.x < i32::MAX,
        i32::MIN < t.y < i32::MAX,
    ensures
        r == nb4(t, k as int),
{
    if k == 0 {
        TilePos::new(t.x + 1, t.y)
    } else if k == 1 {
        TilePos::new(t.x - 1, t.y)
    } else if k == 2 {
        TilePos::new(t.x, t.y + 1)
    } else {
        TilePos::new(t.x, t.y - 1)
    }
}

/// Footprint tiles in row-major order, then the four neighbours (east,
/// west, south, north) of each footprint tile in the same order.
pub open spec fn candidate_seq(f: Footprint) -> Seq<TilePos> {
    fp_tiles(f) + Seq::new((4 * f.w * f.h) as nat, |m: int| nb4(fp_tile(f, m / 4), m % 4))
}

/// The tiles of a footprint and their orthogonal neighbours, in the order
/// `candidate_seq` gives.
pub fn candidate_tiles(foot: &Footprint) -> (r: Vec<TilePos>)
    requires
        fp_ok(*foot),
    ensures
        r@ == candidate_seq(*foot),
{
    let tiles = foot.tiles();
    let ghost f = *foot;
    let ghost base = fp_tiles(f);
    let mut out: Vec<TilePos> = Vec::new();
    let mut i: usize = 0;
    while i < tiles.len()
        invariant
            tiles@ == base,
            base == fp_tiles(f),
            0 <= i <= tiles@.len(),
            out@ == tiles@.subrange(0, i as int),
        decreases tiles@.len() - i,
    {
        out.push(tiles[i]);
        i = i + 1;
        assert(out@ =~= tiles@.subrange(0, i as int));
    }
    assert(out@ =~= base);
    let mut i: usize = 0;
    while i < tiles.len()
        invariant
            fp_ok(f),
            f == *foot,
            tiles@ == base,
            base == fp_tiles(f),
            0 <= i <= tiles@.len(),
            out@ == base + Seq::new((4 * i) as nat, |m: int| nb4(fp_tile(f, m / 4), m % 4)),
        decreases tiles@.len() - i,
    {
        let t = tiles[i];
        proof {
            lemma_fp_tile_range(f, i as int);
        }
        let mut k: usize = 0;
        while k < 4
            invariant
                fp_ok(f),
                tiles@ == base,
                base == fp_tiles(f),
                0 <= i < tiles@.len(),
                t == fp_tile(f, i as int),
                -0x2000_0000 <= t.x <= 0x2000_4000,
                -0x2000_0000 <= t.y <= 0x2000_4000,
                0 <= k <= 4,
                out@ == base + Seq::new((4 * i + k) as nat, |m: int| nb4(fp_tile(f, m / 4), m % 4)),
            decreases 4 - k,
        {
            let n = nb4_exec(t, k);
            proof {
                let m = 4 * i + k;
                assert(m / 4 == i && m % 4 == k) by (nonlinear_arith)
                    requires
                        m == 4 * i + k,
                        0 <= k < 4,
                        0 <= i,
                ;
            }
            out.push(n);
            assert(out@ =~= base + Seq::new((4 * i + k + 1) as nat, |m: int| nb4(fp_tile(f, m / 4), m % 4)));
            k = k + 1;
        }
        i = i + 1;
    }
    assert(4 * f.w * f.h == 4 * (f.w * f.h)) by (nonlinear_arith);
    assert(out@ =~= candidate_seq(f));
    out
}

/// The candidate tiles are exactly the footprint and the tiles beside it.
pub proof fn lemma_candidate_contains(f: Footprint, p: TilePos)
    requires
        fp_ok(f),
    ensures
        candidate_seq(f).contains(p) <==> (fp_contains(f, p) || beside_foot(f, p)),
{
    let base = fp_tiles(f);
    let c = candidate_seq(f);
    let n = f.w * f.h;
    assert(4 * f.w * f.h == 4 * n) by (nonlinear_arith)
        requires
            n == f.w * f.h,
    ;
    lemma_fp_tiles_contains(f, p);
    if c.contains(p) {
        let j = choose|j: int| 0 <= j < c.len() && c[j] == p;
        if j >= base.len() {
            let m = j - base.len();
            assert(0 <= m / 4 < n && 0 <= m % 4 < 4) by (nonlinear_arith)
                requires
                    0 <= m < 4 * n,
            ;
            lemma_fp_tile_range(f, m / 4);
        } else {
            assert(base[j] == p);
        }
    }
    if fp_contains(f, p) {
        let j = choose|j: int| 0 <= j < base.len() && base[j] == p;
        assert(c[j] == p);
    } else if beside_foot(f, p) {
        let (tx, ty, k) = if in_foot(f, p.x - 1, p.y as int) {
            (p.x - 1, p.y as int, 0int)
        } else if in_foot(f, p.x + 1, p.y as int) {
            (p.x + 1, p.y as int, 1int)
        } else if in_foot(f, p.x as int, p.y - 1) {
            (p.x as int, p.y - 1, 2int)
        } else {
            (p.x as int, p.y + 1, 3int)
        };
        let dx = tx - f.x;
        let dy = ty - f.y;
        let i = dy * f.w + dx;
        assert(0 <= i < n && i % (f.w as int) == dx && i / (f.w as int) == dy) by (nonlinear_arith)
            requires
                i == dy * f.w + dx,
                0 <= dx < f.w,
                0 <= dy < f.h,
                n == f.w * f.h,
        ;
        let m = 4 * i + k;
        assert(m / 4 == i && m % 4 == k && 0 <= m < 4 * n) by (nonlinear_arith)
            requires
                m == 4 * i + k,
                0 <= k < 4,
                0 <= i < n,
        ;
        assert(nb4(fp_tile(f, i), k) == p);
        assert(c[base.len() + m] == p);
    }
}

/// Entries of `s[..n]` that satisfy `keep`, each at its first occurrence.
pub open spec fn kept_unique(keep: spec_fn(TilePos) -> bool, s: Seq<TilePos>, n: int) -> Seq<TilePos>
    decreases n,
{
    if n <= 0 {
        seq![]
    } else {
        let prev = kept_unique(keep, s, n - 1);
        if keep(s[n - 1]) && !prev.contains(s[n - 1]) {
            prev.push(s[n - 1])
        } else {
            prev
        }
    }
}

/// Walkable entries of `s[..n]`, each at its first occurrence.
pub open spec fn walkable_unique(map: &ShipMap, s: Seq<TilePos>, n: int) -> Seq<TilePos> {
    kept_unique(|p: TilePos| map.spec_walkable(p), s, n)
}

#[verifier::spinoff_prover]
pub proof fn lemma_kept_unique(keep: spec_fn(TilePos) -> bool, s: Seq<TilePos>, n: int)
    requires
        0 <= n <= s.len(),
    ensures
        kept_unique(keep, s, n).no_duplicates(),
        forall|p: TilePos|
            #![trigger kept_unique(keep, s, n).contains(p)]
            kept_unique(keep, s, n).contains(p) <==> (keep(p) && s.subrange(0, n).contains(p)),
    decreases n,
{
    if n > 0 {
        lemma_kept_unique(keep, s, n - 1);
        let prev = kept_unique(keep, s, n - 1);
        let cur = kept_unique(keep, s, n);
        let c = s[n - 1];
        let sp = s.subrange(0, n - 1);
        let sn = s.subrange(0, n);
        let added = keep(c) && !prev.contains(c);
        assert(sn =~= sp.push(c));
        assert(added ==> cur =~= prev.push(c));
        assert(!added ==> cur =~= prev);
        assert forall|p: TilePos| cur.contains(p) <==> (keep(p) && sn.contains(p)) by {
            if sp.contains(p) {
                let m = choose|m: int| 0 <= m < sp.len() && sp[m] == p;
                assert(sn[m] == p);
            }
            if sn.contains(p) && p != c {
                let m = choose|m: int| 0 <= m < sn.len() && sn[m] == p;
                assert(sp[m] == p);
            }
            if p == c {
                assert(sn[n - 1] == p);
            }
            if prev.contains(p) {
                let m = choose|m: int| 0 <= m < prev.len() && prev[m] == p;
                assert(cur[m] == p);
            }
            if cur.contains(p) {
                let m = choose|m: int| 0 <= m < cur.len() && cur[m] == p;
                if m < prev.len() {
                    assert(prev[m] == p);
                    assert(prev.contains(p));
                    assert(keep(p) && sp.contains(p));
                    let m2 = choose|m2: int| 0 <= m2 < sp.len() && sp[m2] == p;
                    assert(sn[m2] == p);
                } else {
                    assert(added && p == c);
                }
            }
            if added {
                assert(cur[cur.len() - 1] == c);
            }
        }
        assert forall|a: int, b: int| 0 <= a < cur.len() && 0 <= b < cur.len() && a != b implies cur[a] != cur[b] by {
            if added && a == cur.len() - 1 {
                assert(prev.contains(prev[b]));
            } else if added && b == cur.len() - 1 {
                assert(prev.contains(prev[a]));
            } else {
                assert(prev[a] != prev[b]);
            }
        }
    }
}

/// Tiles a crew member can stand on to interact with a footprint: any
/// walkable footprint tile (blueprints are walkable) plus the walkable
/// 4-adjacent perimeter, without repeats.
pub fn interaction_tiles(map: &ShipMap, foot: &Footprint) -> (r: Vec<TilePos>)
    requires
        map.wf(),
        fp_ok(*foot),
    ensures
        r@ == interaction_seq(map, *foot),
        r@.no_duplicates(),
        forall|p: TilePos|
            r@.contains(p) <==> (map.spec_walkable(p) && (fp_contains(*foot, p) || beside_foot(*foot, p))),
{
    let cands = candidate_tiles(foot);
    let mut out: Vec<TilePos> = Vec::new();
    let mut i: usize = 0;
    while i < cands.len()
        invariant
            map.wf(),
            0 <= i <= cands@.len(),
            out@ == walkable_unique(map, cands@, i as int),
        decreases cands@.len() - i,
    {
        let c = cands[i];
        if map.is_walkable(c) && !contains_pos(out.as_slice(), c) {
            out.push(c);
        }
        i = i + 1;
    }
    proof {
        let s = cands@;
        lemma_kept_unique(|p: TilePos| map.spec_walkable(p), s, s.len() as int);
        assert(s.subrange(0, s.len() as int) =~= s);
        assert forall|p: TilePos|
            out@.contains(p) <==> (map.spec_walkable(p) && (fp_contains(*foot, p) || beside_foot(*foot, p))) by {
            lemma_candidate_contains(*foot, p);
        }
    }
    out
}

/// Distance key of `t` as seen from `from`.
pub open spec fn tile_key(t: TilePos, from: TilePos) -> int {
    spec_dist_key(spec_octile_distance(t, from))
}

/// `tiles[j]` is tried before `tiles[i]`: nearer by octile distance, ties
/// in list order.
pub open spec fn tried_before(tiles: Seq<TilePos>, from: TilePos, j: int, i: int) -> bool {
    tile_key(tiles[j], from) < tile_key(tiles[i], from) || (tile_key(tiles[j], from) == tile_key(tiles[i], from)
        && j < i)
}

/// `path` is a cheapest route to `tiles[i]`, and every tile tried before it
/// is unreachable.
pub open spec fn first_reached(map: &ShipMap, from: TilePos, tiles: Seq<TilePos>, i: int, path: Seq<TilePos>) -> bool {
    &&& 0 <= i < tiles.len()
    &&& reaches(map, from, path, tiles[i])
    &&& cost_bound(map, Seq::empty(), from, tiles[i], spec_path_cost(Some(from), path))
    &&& forall|j: int|
        0 <= j < tiles.len() && tried_before(tiles, from, j, i) ==> !#[trigger] reachable(map, from, tiles[j])
}

/// The interaction tiles of a footprint, as `interaction_tiles` lists them.
pub open spec fn interaction_seq(map: &ShipMap, foot: Footprint) -> Seq<TilePos> {
    walkable_unique(map, candidate_seq(foot), candidate_seq(foot).len() as int)
}

/// Path from `from` to the closest reachable interaction tile of a
/// footprint: interaction tiles are tried by octile distance from `from`
/// (ties in `interaction_tiles` order) and the first one with a route wins.
pub fn path_to_interaction(map: &ShipMap, from: TilePos, foot: &Footprint) -> (r: Option<Vec<TilePos>>)
    requires
        map.wf(),
        fp_ok(*foot),
    ensures
        r matches Some(p) ==> exists|i: int| #[trigger] first_reached(map, from, interaction_seq(map, *foot), i, p@),
        r is None ==> forall|j: int|
            0 <= j < interaction_seq(map, *foot).len() ==> !#[trigger] reachable(
                map,
                from,
                interaction_seq(map, *foot)[j],
            ),
{
    let tiles = interaction_tiles(map, foot);
    match nearest_route(map, from, &tiles) {
        Some((i, p)) => {
            proof {
                assert(first_reached(map, from, interaction_seq(map, *foot), i as int, p@));
            }
            let r = Some(p);
            assert(r matches Some(q) && q@ == p@);
            r
        },
        None => None,
    }
}

/// Route to the nearest reachable target: targets are tried by octile
/// distance from `from` (ties in list order) and the first one with a route
/// wins. Returns the target's position in the list and the route.
pub fn nearest_route(map: &ShipMap, from: TilePos, targets: &Vec<TilePos>) -> (r: Option<(usize, Vec<TilePos>)>)
    requires
        map.wf(),
    ensures
        r matches Some((i, p)) ==> first_reached(map, from, targets@, i as int, p@),
        r is None ==> forall|j: int| 0 <= j < targets@.len() ==> !#[trigger] reachable(map, from, targets@[j]),
{
    let ghost ts = targets@;
    let mut best: Option<(usize, Vec<TilePos>, u64)> = None;
    let mut i: usize = 0;
    while i < targets.len()
        invariant
            map.wf(),
            ts == targets@,
            0 <= i <= ts.len(),
            match best {
                Some((b, p, k)) => 0 <= b < i && k == tile_key(ts[b as int], from) && reaches(
                    map,
                    from,
                    p@,
                    ts[b as int],
                ) && cost_bound(map, Seq::empty(), from, ts[b as int], spec_path_cost(Some(from), p@)) && forall|j: int| 0 <= j < i && tried_before(ts, from, j, b as int) ==> !#[trigger] reachable(
                    map,
                    from,
                    ts[j],
                ),
                None => forall|j: int| 0 <= j < i ==> !#[trigger] reachable(map, from, ts[j]),
            },
        decreases ts.len() - i,
    {
        let t = targets[i];
        proof {
            lemma_octile_small(t, from);
        }
        let k = dist_key(octile_distance(t, from));
        let better = match &best {
            None => true,
            Some((_, _, bk)) => k < *bk,
        };
        if better {
            match route(map, from, t) {
                Some(p) => {
                    best = Some((i, p, k));
                },
                None => {},
            }
        }
        i = i + 1;
    }
    match best {
        Some((b, p, _)) => {
            proof {
                assert(first_reached(map, from, ts, b as int, p@));
            }
            let r = Some((b, p));
            assert(r matches Some((bb, q)) && q@ == p@ && bb == b);
            r
        },
        None => None,
    }
}

/// Footprint tiles lie inside the footprint and have representable
/// neighbours.
pub proof fn lemma_fp_tile_range(f: Footprint, i: int)
    requires
        fp_ok(f),
        0 <= i < f.w * f.h,
    ensures
        f.w > 0,
        f.h > 0,
        fp_tile(f, i).x == f.x + i % (f.w as int),
        fp_tile(f, i).y == f.y + i / (f.w as int),
        fp_contains(f, fp_tile(f, i)),
        -0x2000_0000 <= fp_tile(f, i).x <= 0x2000_4000,
        -0x2000_0000 <= fp_tile(f, i).y <= 0x2000_4000,
{
    assert(f.w > 0 && f.h > 0) by (nonlinear_arith)
        requires
            0 <= i < f.w * f.h,
            0 <= f.w,
            0 <= f.h,
    ;
    assert(0 <= i % (f.w as int) < f.w && 0 <= i / (f.w as int) < f.h) by (nonlinear_arith)
        requires
            0 <= i < f.w * f.h,
            0 < f.w,
    ;
}

/// The footprint's tile list holds exactly its tiles.
pub proof fn lemma_fp_tiles_contains(f: Footprint, p: TilePos)
    requires
        fp_ok(f),
    ensures
        fp_tiles(f).contains(p) <==> fp_contains(f, p),
{
    if fp_contains(f, p) {
        let dx = p.x - f.x;
        let dy = p.y - f.y;
        let i = dy * f.w + dx;
        assert(0 <= i < f.w * f.h && i % (f.w as int) == dx && i / (f.w as int) == dy) by (nonlinear_arith)
            requires
                i == dy * f.w + dx,
                0 <= dx < f.w,
                0 <= dy < f.h,
        ;
        assert(fp_tiles(f)[i] == p);
    }
    if fp_tiles(f).contains(p) {
        let i = choose|i: int| 0 <= i < fp_tiles(f).len() && fp_tiles(f)[i] == p;
        lemma_fp_tile_range(f, i);
    }
}

/// Tiles inside a well-formed map have small coordinates.
pub proof fn lemma_in_bounds_coords(map: &ShipMap, p: TilePos)
    requires
        map.wf(),
        map.spec_walkable(p),
    ensures
        0 <= p.x < map.width,
        0 <= p.y < map.height,
{
}

// =====================================================================================
// Nearest free tile
// =====================================================================================

/// Point `(dx, dy)` lies on the border of the square ring of radius `r`.
pub open spec fn on_ring(r: int, dx: int, dy: int) -> bool {
    -r <= dx <= r && -r <= dy <= r && (dx == r || dx == -r || dy == r || dy == -r)
}

/// `(r1, dy1, dx1)` is scanned before `(r2, dy2, dx2)`.
pub open spec fn ring_before(r1: int, dy1: int, dx1: int, r2: int, dy2: int, dx2: int) -> bool {
    r1 < r2 || (r1 == r2 && dy1 < dy2) || (r1 == r2 && dy1 == dy2 && dx1 < dx2)
}

pub open spec fn ring_point(around: TilePos, dx: int, dy: int) -> TilePos {
    TilePos { x: (around.x + dx) as i32, y: (around.y + dy) as i32 }
}

/// `res` is the outcome of the ring scan around `around`: the first walkable
/// ring point of radius 1..=5 in scan order, or `None` when there is none.
pub open spec fn nearest_ok(map: &ShipMap, around: TilePos, res: Option<TilePos>) -> bool {
    match res {
        Some(p) => exists|r: int, dy: int, dx: int|
            1 <= r <= 5 && on_ring(r, dx, dy) && p == ring_point(around, dx, dy) && map.spec_walkable(p)
                && forall|r2: int, dy2: int, dx2: int|
                1 <= r2 <= 5 && #[trigger] on_ring(r2, dx2, dy2) && ring_before(r2, dy2, dx2, r, dy, dx)
                    ==> !map.spec_walkable(ring_point(around, dx2, dy2)),
        None => forall|r2: int, dy2: int, dx2: int|
            1 <= r2 <= 5 && #[trigger] on_ring(r2, dx2, dy2) ==> !map.spec_walkable(ring_point(around, dx2, dy2)),
    }
}

/// The tile the ring scan around `around` finds (the one `nearest_ok` outcome).
pub open spec fn nearest_free(map: &ShipMap, around: TilePos) -> Option<TilePos> {
    if exists|p: TilePos| nearest_ok(map, around, Some(p)) {
        Some(choose|p: TilePos| nearest_ok(map, around, Some(p)))
    } else {
        None
    }
}

/// The ring scan has exactly one outcome.
pub proof fn lemma_nearest_unique(map: &ShipMap, around: TilePos, res: Option<TilePos>)
    requires
        nearest_ok(map, around, res),
    ensures
        res == nearest_free(map, around),
{
    match res {
        Some(p) => {
            let q = choose|q: TilePos| nearest_ok(map, around, Some(q));
            assert(nearest_ok(map, around, Some(q)));
            let (r1, dy1, dx1) = choose|r: int, dy: int, dx: int|
                1 <= r <= 5 && on_ring(r, dx, dy) && p == ring_point(around, dx, dy) && map.spec_walkable(p)
                    && forall|r2: int, dy2: int, dx2: int|
                    1 <= r2 <= 5 && #[trigger] on_ring(r2, dx2, dy2) && ring_before(r2, dy2, dx2, r, dy, dx)
                        ==> !map.spec_walkable(ring_point(around, dx2, dy2));
            let (r2, dy2, dx2) = choose|r: int, dy: int, dx: int|
                1 <= r <= 5 && on_ring(r, dx, dy) && q == ring_point(around, dx, dy) && map.spec_walkable(q)
                    && forall|r3: int, dy3: int, dx3: int|
                    1 <= r3 <= 5 && #[trigger] on_ring(r3, dx3, dy3) && ring_before(r3, dy3, dx3, r, dy, dx)
                        ==> !map.spec_walkable(ring_point(around, dx3, dy3));
            if ring_before(r1, dy1, dx1, r2, dy2, dx2) {
                assert(on_ring(r1, dx1, dy1));
            } else if ring_before(r2, dy2, dx2, r1, dy1, dx1) {
                assert(on_ring(r2, dx2, dy2));
            }
        },
        None => {
            if exists|p: TilePos| nearest_ok(map, around, Some(p)) {
                let p = choose|p: TilePos| nearest_ok(map, around, Some(p));
                let (r1, dy1, dx1) = choose|r: int, dy: int, dx: int|
                    1 <= r <= 5 && on_ring(r, dx, dy) && p == ring_point(around, dx, dy) && map.spec_walkable(p);
                assert(on_ring(r1, dx1, dy1));
            }
        },
    }
}

/// Nearest walkable tile to `around` (excluding `around` itself), searching
/// outward in growing square rings of radius 1..=5, each ring scanned row by
/// row.
pub fn nearest_walkable(map: &ShipMap, around: TilePos) -> (res: Option<TilePos>)
    requires
        map.wf(),
        i32::MIN + 5 <= around.x <= i32::MAX - 5,
        i32::MIN + 5 <= around.y <= i32::MAX - 5,
    ensures
        nearest_ok(map, around, res),
        res == nearest_free(map, around),
{
    let res = nearest_scan(map, around);
    proof {
        lemma_nearest_unique(map, around, res);
    }
    res
}

fn nearest_scan(map: &ShipMap, around: TilePos) -> (res: Option<TilePos>)
    requires
        map.wf(),
        i32::MIN + 5 <= around.x <= i32::MAX - 5,
        i32::MIN + 5 <= around.y <= i32::MAX - 5,
    ensures
        nearest_ok(map, around, res),
{
    let mut r: i32 = 1;
    while r < 6
        invariant
            map.wf(),
            1 <= r <= 6,
            i32::MIN + 5 <= around.x <= i32::MAX - 5,
            i32::MIN + 5 <= around.y <= i32::MAX - 5,
            forall|r2: int, dy2: int, dx2: int|
                1 <= r2 < r && #[trigger] on_ring(r2, dx2, dy2) ==> !map.spec_walkable(ring_point(around, dx2, dy2)),
        decreases 6 - r,
    {
        let mut dy: i32 = -r;
        while dy <= r
            invariant
                map.wf(),
                1 <= r <= 5,
                -r <= dy <= r + 1,
                i32::MIN + 5 <= around.x <= i32::MAX - 5,
                i32::MIN + 5 <= around.y <= i32::MAX - 5,
                forall|r2: int, dy2: int, dx2: int|
                    1 <= r2 <= 5 && #[trigger] on_ring(r2, dx2, dy2) && (r2 < r || (r2 == r && dy2 < dy)) ==> !map.spec_walkable(
                        ring_point(around, dx2, dy2),
                    ),
            decreases r + 1 - dy,
        {
            let mut dx: i32 = -r;
            while dx <= r
                invariant
                    map.wf(),
                    1 <= r <= 5,
                    -r <= dy <= r,
                    -r <= dx <= r + 1,
                    i32::MIN + 5 <= around.x <= i32::MAX - 5,
                    i32::MIN + 5 <= around.y <= i32::MAX - 5,
                    forall|r2: int, dy2: int, dx2: int|
                        1 <= r2 <= 5 && #[trigger] on_ring(r2, dx2, dy2) && (r2 < r || (r2 == r && dy2 < dy) || (r2 == r && dy2
                            == dy && dx2 < dx)) ==> !map.spec_walkable(ring_point(around, dx2, dy2)),
                decreases r + 1 - dx,
            {
                let adx = if dx < 0 { -dx } else { dx };
                let ady = if dy < 0 { -dy } else { dy };
                if adx == r || ady == r {
                    let p = TilePos::new(around.x + dx, around.y + dy);
                    if map.is_walkable(p) {
                        proof {
                            let ri = r as int;
                            let dyi = dy as int;
                            let dxi = dx as int;
                            assert(p == ring_point(around, dxi, dyi));
                            assert(on_ring(ri, dxi, dyi));
                            assert forall|r2: int, dy2: int, dx2: int|
                                1 <= r2 <= 5 && #[trigger] on_ring(r2, dx2, dy2) && ring_before(r2, dy2, dx2, ri, dyi, dxi)
                                    implies !map.spec_walkable(ring_point(around, dx2, dy2)) by {}
                        }
                        return Some(p);
                    }
                }
                dx = dx + 1;
            }
            dy = dy + 1;
        }
        r = r + 1;
    }
    None
}


// =====================================================================================
// Construction / deconstruction effects
// =====================================================================================

/// `n` items of kind `k`.
pub open spec fn repeat_kind(k: ItemKind, n: int) -> Seq<ItemKind> {
    Seq::new(n as nat, |i: int| k)
}

/// Items by count slot: `c[0]` crates, then `c[1]` ore, then `c[2]` parts.
pub open spec fn item_list(c: Seq<u32>) -> Seq<ItemKind> {
    repeat_kind(ItemKind::Crate, c[0] as int) + repeat_kind(ItemKind::Ore, c[1] as int) + repeat_kind(
        ItemKind::Part,
        c[2] as int,
    )
}

/// Items of the first `s` count slots, in slot order.
pub open spec fn item_prefix(c: Seq<u32>, s: int) -> Seq<ItemKind>
    decreases s,
{
    if s <= 0 {
        Seq::empty()
    } else {
        item_prefix(c, s - 1) + repeat_kind(kind_at(s - 1), c[s - 1] as int)
    }
}

/// Materials delivered to a blueprint beyond its cost, per count slot.
pub open spec fn bp_excess(bp: Blueprint) -> Seq<u32> {
    Seq::new(
        3,
        |i: int|
            if bp.delivered@[i] > def_cost(bp.kind, i) {
                (bp.delivered@[i] - def_cost(bp.kind, i)) as u32
            } else {
                0u32
            },
    )
}

/// Full build cost of a kind, per count slot.
pub open spec fn cost_counts(kind: BuildingKind) -> Seq<u32> {
    seq![0u32, 0u32, def_parts(kind) as u32]
}

/// Everything a deconstruction hands back, in drop order: the full build
/// cost, then whatever a rack held.
pub open spec fn demolition_refund(kind: BuildingKind, rack_contents: Option<[u32; 3]>) -> Seq<ItemKind> {
    item_list(cost_counts(kind)) + match rack_contents {
        Some(c) => item_list(c@),
        None => Seq::empty(),
    }
}

/// Top-left tile of a footprint: refunds are dropped around it.
pub open spec fn foot_origin(f: Footprint) -> TilePos {
    TilePos { x: f.x, y: f.y }
}

/// Where refunded items land: each item in turn takes the first free drop
/// tile within 3 of `around` that is neither in `occupied` nor taken by an
/// earlier refund; an item with no such tile is not dropped.
pub open spec fn refund_drops(map: &ShipMap, around: TilePos, occupied: Seq<TilePos>, kinds: Seq<ItemKind>) -> Seq<
    (TilePos, ItemKind),
>
    decreases kinds.len(),
{
    if kinds.len() == 0 {
        Seq::empty()
    } else {
        match drop_spot(map, occupied, around, 3) {
            Some(t) => seq![(t, kinds[0])] + refund_drops(map, around, occupied.push(t), kinds.drop_first()),
            None => refund_drops(map, around, occupied, kinds.drop_first()),
        }
    }
}

/// Crew shoved off a footprint that just became blocking: every crew member
/// standing inside `foot`, in list order, with the nearest walkable tile
/// around it; one with no walkable tile nearby stays and is not listed.
pub open spec fn displaced_crew(map: &ShipMap, foot: Footprint, crew: Seq<(u64, TilePos)>) -> Seq<(u64, TilePos)>
    decreases crew.len(),
{
    if crew.len() == 0 {
        Seq::empty()
    } else {
        let rest = displaced_crew(map, foot, crew.drop_last());
        let (e, pos) = crew.last();
        match nearest_free(map, pos) {
            Some(free) => if fp_contains(foot, pos) {
                rest.push((e, free))
            } else {
                rest
            },
            None => rest,
        }
    }
}

/// `(x,y)`
pub open spec fn at_text(x: int, y: int) -> Seq<char> {
    seq!['('] + int_dec(x) + seq![','] + int_dec(y) + seq![')']
}

/// Log line for a finished construction.
pub open spec fn built_text(kind: BuildingKind, foot: Footprint) -> Seq<char> {
    if kind == BuildingKind::PowerCable {
        "Power cable laid at "@ + at_text(foot.x as int, foot.y as int)
    } else {
        def_label(kind) + " built at "@ + at_text(foot.x as int, foot.y as int)
    }
}

/// Log line for a finished deconstruction.
pub open spec fn removed_text(kind: BuildingKind, foot: Footprint) -> Seq<char> {
    if kind == BuildingKind::PowerCable {
        "Power cable removed at "@ + at_text(foot.x as int, foot.y as int)
    } else {
        def_label(kind) + " deconstructed — materials refunded"@
    }
}

/// The footprint lies on the map.
pub open spec fn foot_on_map(map: &ShipMap, f: Footprint) -> bool {
    forall|p: TilePos| fp_contains(f, p) ==> #[trigger] map.spec_in_bounds(p)
}

/// Door state a tile of kind `t` starts with: a fresh door is closed and
/// unlocked; other tiles have none.
pub open spec fn fresh_door_state(t: Tile) -> Option<DoorTileState> {
    if t == Tile::Door {
        Some(closed_door())
    } else {
        None
    }
}

/// `map2` is `map1` with every footprint tile rewritten to `t`.
pub open spec fn stamped(map1: &ShipMap, map2: &ShipMap, f: Footprint, t: Tile) -> bool {
    &&& map2.width == map1.width
    &&& map2.height == map1.height
    &&& forall|p: TilePos|
        #[trigger] map2.spec_tile(p) == (if fp_contains(f, p) {
            Some(t)
        } else {
            map1.spec_tile(p)
        })
    &&& forall|p: TilePos|
        #[trigger] map2.spec_door_state(p) == (if fp_contains(f, p) {
            fresh_door_state(t)
        } else {
            map1.spec_door_state(p)
        })
}

/// What finishing a job changes besides the map and the cable grid.
pub struct CompletionEffects {
    /// Crew moved off newly blocked tiles: crew id and the tile it moves to.
    pub displaced: Vec<(u64, TilePos)>,
    /// Refunded items and the tile each drops on.
    pub drops: Vec<(TilePos, ItemKind)>,
}

fn at_chars(out: &mut Vec<char>, x: i32, y: i32)
    ensures
        final(out)@ == old(out)@ + at_text(x as int, y as int),
{
    out.push('(');
    push_int(out, x);
    out.push(',');
    push_int(out, y);
    out.push(')');
    assert(out@ =~= old(out)@ + at_text(x as int, y as int));
}

fn str_and_chars(prefix: &str, rest: Vec<char>) -> (r: String)
    ensures
        r@ == prefix@ + rest@,
{
    let tail = string_of(rest);
    let mut s = String::from_str(prefix);
    s.append(tail.as_str());
    s
}

/// Rewrite every footprint tile to `tile`.
fn stamp_tiles(map: &mut ShipMap, foot: &Footprint, tile: Tile)
    requires
        old(map).wf(),
        fp_ok(*foot),
        foot_on_map(old(map), *foot),
        old(map).version + foot.w * foot.h <= u64::MAX,
    ensures
        final(map).wf(),
        final(map).version == old(map).version + foot.w * foot.h,
        stamped(old(map), final(map), *foot, tile),
{
    let tiles = foot.tiles();
    let ghost ts = fp_tiles(*foot);
    let ghost m0 = *map;
    let mut i: usize = 0;
    while i < tiles.len()
        invariant
            tiles@ == ts,
            ts == fp_tiles(*foot),
            fp_ok(*foot),
            0 <= i <= ts.len(),
            m0.wf(),
            map.wf(),
            map.width == m0.width,
            map.height == m0.height,
            map.version == m0.version + i,
            m0.version + ts.len() <= u64::MAX,
            foot_on_map(&m0, *foot),
            forall|p: TilePos|
                #[trigger] map.spec_tile(p) == (if ts.subrange(0, i as int).contains(p) {
                    Some(tile)
                } else {
                    m0.spec_tile(p)
                }),
            forall|p: TilePos|
                ts.subrange(0, i as int).contains(p) ==> #[trigger] map.door_xy(p.x as int, p.y as int)
                    == closed_door(),
            forall|p: TilePos|
                !ts.subrange(0, i as int).contains(p) && m0.spec_in_bounds(p) ==> #[trigger] map.door_xy(
                    p.x as int,
                    p.y as int,
                ) == m0.door_xy(p.x as int, p.y as int),
        decreases ts.len() - i,
    {
        let t = tiles[i];
        proof {
            lemma_fp_tile_range(*foot, i as int);
            assert(m0.spec_in_bounds(t));
        }
        let ghost before = *map;
        map.set_tile(t, tile);
        proof {
            let s0 = ts.subrange(0, i as int);
            let s1 = ts.subrange(0, i as int + 1);
            assert(s1 =~= s0.push(t));
            assert forall|p: TilePos| #[trigger] map.spec_tile(p) == (if s1.contains(p) {
                Some(tile)
            } else {
                m0.spec_tile(p)
            }) by {
                if p != t {
                    assert(s1.contains(p) == s0.contains(p));
                } else {
                    assert(s1[i as int] == t);
                }
            }
            assert forall|p: TilePos| s1.contains(p) implies #[trigger] map.door_xy(p.x as int, p.y as int)
                == closed_door() by {
                if p != t {
                    assert(s0.contains(p));
                    let j = choose|j: int| 0 <= j < s0.len() && s0[j] == p;
                    lemma_fp_tile_range(*foot, j);
                    assert(ts[j] == fp_tile(*foot, j));
                    assert(m0.spec_in_bounds(p));
                    assert(before.spec_in_bounds(p));
                }
            }
            assert forall|p: TilePos| !s1.contains(p) && m0.spec_in_bounds(p) implies #[trigger] map.door_xy(
                p.x as int,
                p.y as int,
            ) == m0.door_xy(p.x as int, p.y as int) by {
                assert(s1[i as int] == t);
                assert(!s0.contains(p));
                assert(before.door_xy(p.x as int, p.y as int) == m0.door_xy(p.x as int, p.y as int));
            }
        }
        i = i + 1;
    }
    proof {
        assert(ts.subrange(0, ts.len() as int) =~= ts);
        assert forall|p: TilePos| #[trigger] map.spec_tile(p) == (if fp_contains(*foot, p) {
            Some(tile)
        } else {
            m0.spec_tile(p)
        }) by {
            lemma_fp_tiles_contains(*foot, p);
        }
        assert forall|p: TilePos| #[trigger] map.spec_door_state(p) == (if fp_contains(*foot, p) {
            fresh_door_state(tile)
        } else {
            m0.spec_door_state(p)
        }) by {
            lemma_fp_tiles_contains(*foot, p);
            assert(map.spec_tile(p) == (if fp_contains(*foot, p) {
                Some(tile)
            } else {
                m0.spec_tile(p)
            }));
            if !fp_contains(*foot, p) && m0.spec_in_bounds(p) {
                assert(map.door_xy(p.x as int, p.y as int) == m0.door_xy(p.x as int, p.y as int));
            }
        }
    }
}

/// Items for per-slot counts, in slot order.
pub(crate) fn item_vec(counts: [u32; 3]) -> (r: Vec<ItemKind>)
    ensures
        r@ == item_list(counts@),
{
    let mut out: Vec<ItemKind> = Vec::new();
    let mut s: usize = 0;
    while s < 3
        invariant
            0 <= s <= 3,
            out@ == item_prefix(counts@, s as int),
        decreases 3 - s,
    {
        let kind = ItemKind::from_index(s);
        let n = counts[s];
        let mut j: u32 = 0;
        while j < n
            invariant
                0 <= s < 3,
                kind == kind_at(s as int),
                n == counts@[s as int],
                0 <= j <= n,
                out@ == item_prefix(counts@, s as int) + repeat_kind(kind, j as int),
            decreases n - j,
        {
            out.push(kind);
            j = j + 1;
            assert(out@ =~= item_prefix(counts@, s as int) + repeat_kind(kind, j as int));
        }
        s = s + 1;
    }
    proof {
        assert(item_prefix(counts@, 0) =~= Seq::<ItemKind>::empty());
        assert(item_prefix(counts@, 1) =~= repeat_kind(ItemKind::Crate, counts@[0] as int));
        assert(item_prefix(counts@, 2) =~= repeat_kind(ItemKind::Crate, counts@[0] as int) + repeat_kind(
            ItemKind::Ore,
            counts@[1] as int,
        ));
        assert(item_prefix(counts@, 3) =~= item_list(counts@));
    }
    out
}

/// Drop each item of `kinds` in turn (see `refund_drops`).
pub(crate) fn drop_refunds(map: &ShipMap, around: TilePos, ground_now: &[TilePos], kinds: &Vec<ItemKind>) -> (r: Vec<
    (TilePos, ItemKind),
>)
    requires
        map.wf(),
        i32::MIN + 3 <= around.x <= i32::MAX - 3,
        i32::MIN + 3 <= around.y <= i32::MAX - 3,
    ensures
        r@ == refund_drops(map, around, ground_now@, kinds@),
{
    let mut occupied = vstd::slice::slice_to_vec(ground_now);
    let mut out: Vec<(TilePos, ItemKind)> = Vec::new();
    let mut i: usize = 0;
    let ghost all = kinds@;
    proof {
        assert(all.subrange(0, all.len() as int) =~= all);
    }
    while i < kinds.len()
        invariant
            map.wf(),
            i32::MIN + 3 <= around.x <= i32::MAX - 3,
            i32::MIN + 3 <= around.y <= i32::MAX - 3,
            all == kinds@,
            0 <= i <= all.len(),
            out@ + refund_drops(map, around, occupied@, all.subrange(i as int, all.len() as int))
                == refund_drops(map, around, ground_now@, all),
        decreases all.len() - i,
    {
        let ghost rest = all.subrange(i as int, all.len() as int);
        let ghost occ0 = occupied@;
        let ghost out0 = out@;
        let t = find_drop_tile_ext(map, around, occupied.as_slice());
        proof {
            assert(rest.drop_first() =~= all.subrange(i as int + 1, all.len() as int));
            assert(rest[0] == all[i as int]);
        }
        match t {
            Some(p) => {
                occupied.push(p);
                out.push((p, kinds[i]));
                proof {
                    assert(out@ + refund_drops(map, around, occupied@, rest.drop_first()) =~= out0 + (seq![
                        (p, rest[0]),
                    ] + refund_drops(map, around, occ0.push(p), rest.drop_first())));
                }
            },
            None => {},
        }
        i = i + 1;
    }
    proof {
        assert(all.subrange(all.len() as int, all.len() as int) =~= Seq::<ItemKind>::empty());
        assert(out@ + Seq::<(TilePos, ItemKind)>::empty() =~= out@);
    }
    out
}

/// Move every crew member inside `foot` to the nearest walkable tile.
fn displace_crew(map: &ShipMap, foot: &Footprint, crew: &[(u64, TilePos)]) -> (r: Vec<(u64, TilePos)>)
    requires
        map.wf(),
        fp_ok(*foot),
    ensures
        r@ == displaced_crew(map, *foot, crew@),
{
    let mut out: Vec<(u64, TilePos)> = Vec::new();
    let mut i: usize = 0;
    while i < crew.len()
        invariant
            map.wf(),
            fp_ok(*foot),
            0 <= i <= crew@.len(),
            out@ == displaced_crew(map, *foot, crew@.subrange(0, i as int)),
        decreases crew@.len() - i,
    {
        let (e, pos) = crew[i];
        proof {
            assert(crew@.subrange(0, i as int + 1).drop_last() =~= crew@.subrange(0, i as int));
            assert(crew@.subrange(0, i as int + 1).last() == (e, pos));
        }
        if foot.contains(pos) {
            let free = nearest_walkable(map, pos);
            match free {
                Some(q) => {
                    out.push((e, q));
                },
                None => {},
            }
        } else {
        }
        i = i + 1;
    }
    proof {
        assert(crew@.subrange(0, crew@.len() as int) =~= crew@);
    }
    out
}

/// Finish construction: lay a cable in the underfloor grid, or flip the
/// footprint tiles to the kind's tile, shove crew standing on newly blocked
/// tiles aside, and refund over-delivered materials (claim races can
/// overshoot by one). Counts the build and logs it.
pub fn complete_building(
    map: &mut ShipMap,
    cables: &mut CableGrid,
    bp: &Blueprint,
    crew_positions: &[(u64, TilePos)],
    ground_now: &[TilePos],
    log: &mut EventLog,
    stats: &mut Stats,
    now: i64,
) -> (r: CompletionEffects)
    requires
        old(map).wf(),
        old(cables).wf(),
        fp_ok(bp.foot),
        bp.kind != BuildingKind::PowerCable ==> foot_on_map(old(map), bp.foot),
        old(map).version + bp.foot.w * bp.foot.h <= u64::MAX,
        old(cables).version + bp.foot.w * bp.foot.h <= u64::MAX,
        old(stats).built < u32::MAX,
    ensures
        final(map).wf(),
        final(cables).wf(),
        final(cables).width == old(cables).width,
        final(cables).height == old(cables).height,
        *final(stats) == (Stats { built: (old(stats).built + 1) as u32, ..*old(stats) }),
        final(log).entries@.len() == (if old(log).entries@.len() >= crate::log::LOG_CAPACITY {
            old(log).entries@.len()
        } else {
            old(log).entries@.len() + 1
        }),
        final(log).entries@.last().time == now,
        final(log).entries@.last().kind == LogKind::Job,
        final(log).entries@.last().text@ == built_text(bp.kind, bp.foot),
        bp.kind == BuildingKind::PowerCable ==> {
            &&& *final(map) == *old(map)
            &&& forall|p: TilePos|
                #[trigger] final(cables).spec_has(p) == (old(cables).spec_has(p) || (fp_contains(bp.foot, p)
                    && old(cables).spec_in_bounds(p)))
            &&& r.displaced@.len() == 0
            &&& r.drops@.len() == 0
        },
        bp.kind != BuildingKind::PowerCable ==> {
            &&& *final(cables) == *old(cables)
            &&& final(map).version == old(map).version + bp.foot.w * bp.foot.h
            &&& stamped(old(map), final(map), bp.foot, def_tile(bp.kind))
            &&& r.displaced@ == (if def_blocks(bp.kind) {
                displaced_crew(final(map), bp.foot, crew_positions@)
            } else {
                Seq::empty()
            })
            &&& r.drops@ == refund_drops(final(map), foot_origin(bp.foot), ground_now@, item_list(bp_excess(*bp)))
        },
{
    let d = def(bp.kind);
    stats.built = stats.built + 1;
    let mut at: Vec<char> = Vec::new();
    at_chars(&mut at, bp.foot.x, bp.foot.y);
    if bp.kind == BuildingKind::PowerCable {
        lay_cables(cables, &bp.foot, true);
        let text = str_and_chars("Power cable laid at ", at);
        log.push(now, LogKind::Job, text);
        return CompletionEffects { displaced: Vec::new(), drops: Vec::new() };
    }
    stamp_tiles(map, &bp.foot, d.tile);
    let displaced = if d.blocks {
        displace_crew(map, &bp.foot, crew_positions)
    } else {
        Vec::new()
    };
    let excess: [u32; 3] = [
        bp.delivered[0].saturating_sub(d.cost[0]),
        bp.delivered[1].saturating_sub(d.cost[1]),
        bp.delivered[2].saturating_sub(d.cost[2]),
    ];
    proof {
        assert(excess@ =~= bp_excess(*bp));
    }
    let kinds = item_vec(excess);
    let drops = drop_refunds(map, TilePos::new(bp.foot.x, bp.foot.y), ground_now, &kinds);
    let mut text = String::from_str(d.label);
    let tail = str_and_chars(" built at ", at);
    text.append(tail.as_str());
    log.push(now, LogKind::Job, text);
    CompletionEffects { displaced, drops }
}

/// Set or clear the cable on every footprint tile (tiles off the grid are
/// skipped).
fn lay_cables(cables: &mut CableGrid, foot: &Footprint, present: bool)
    requires
        old(cables).wf(),
        fp_ok(*foot),
        old(cables).version + foot.w * foot.h <= u64::MAX,
    ensures
        final(cables).wf(),
        final(cables).width == old(cables).width,
        final(cables).height == old(cables).height,
        forall|p: TilePos|
            #[trigger] final(cables).spec_has(p) == (if fp_contains(*foot, p) && old(cables).spec_in_bounds(p) {
                present
            } else {
                old(cables).spec_has(p)
            }),
{
    let tiles = foot.tiles();
    let ghost ts = fp_tiles(*foot);
    let ghost c0 = *cables;
    let mut i: usize = 0;
    while i < tiles.len()
        invariant
            tiles@ == ts,
            ts == fp_tiles(*foot),
            fp_ok(*foot),
            0 <= i <= ts.len(),
            cables.wf(),
            cables.width == c0.width,
            cables.height == c0.height,
            cables.version <= c0.version + i,
            c0.version + ts.len() <= u64::MAX,
            forall|p: TilePos|
                #[trigger] cables.spec_has(p) == (if ts.subrange(0, i as int).contains(p) && c0.spec_in_bounds(p) {
                    present
                } else {
                    c0.spec_has(p)
                }),
        decreases ts.len() - i,
    {
        let t = tiles[i];
        cables.set(t, present);
        proof {
            let s0 = ts.subrange(0, i as int);
            let s1 = ts.subrange(0, i as int + 1);
            assert(s1 =~= s0.push(t));
            assert forall|p: TilePos| #[trigger] cables.spec_has(p) == (if s1.contains(p) && c0.spec_in_bounds(p) {
                present
            } else {
                c0.spec_has(p)
            }) by {
                if p != t {
                    assert(s1.contains(p) == s0.contains(p));
                } else {
                    assert(s1[i as int] == t);
                }
            }
        }
        i = i + 1;
    }
    proof {
        assert(ts.subrange(0, ts.len() as int) =~= ts);
        assert forall|p: TilePos| #[trigger] cables.spec_has(p) == (if fp_contains(*foot, p) && c0.spec_in_bounds(p) {
            present
        } else {
            c0.spec_has(p)
        }) by {
            lemma_fp_tiles_contains(*foot, p);
        }
    }
}


/// Finish deconstruction: lift a cable out of the underfloor grid, or
/// restore floor tiles and drop the full build cost (then any rack contents)
/// as ground items. Counts the teardown and logs it. Returns the drops.
pub fn complete_deconstruction(
    map: &mut ShipMap,
    cables: &mut CableGrid,
    b: &Building,
    rack_contents: Option<[u32; 3]>,
    ground_now: &[TilePos],
    log: &mut EventLog,
    stats: &mut Stats,
    now: i64,
) -> (r: Vec<(TilePos, ItemKind)>)
    requires
        old(map).wf(),
        old(cables).wf(),
        fp_ok(b.foot),
        b.kind != BuildingKind::PowerCable ==> foot_on_map(old(map), b.foot),
        old(map).version + b.foot.w * b.foot.h <= u64::MAX,
        old(cables).version + b.foot.w * b.foot.h <= u64::MAX,
        old(stats).deconstructed < u32::MAX,
    ensures
        final(map).wf(),
        final(cables).wf(),
        final(cables).width == old(cables).width,
        final(cables).height == old(cables).height,
        *final(stats) == (Stats { deconstructed: (old(stats).deconstructed + 1) as u32, ..*old(stats) }),
        final(log).entries@.len() == (if old(log).entries@.len() >= crate::log::LOG_CAPACITY {
            old(log).entries@.len()
        } else {
            old(log).entries@.len() + 1
        }),
        final(log).entries@.last().time == now,
        final(log).entries@.last().kind == LogKind::Job,
        final(log).entries@.last().text@ == removed_text(b.kind, b.foot),
        b.kind == BuildingKind::PowerCable ==> {
            &&& *final(map) == *old(map)
            &&& forall|p: TilePos|
                #[trigger] final(cables).spec_has(p) == (old(cables).spec_has(p) && !fp_contains(b.foot, p))
            &&& r@.len() == 0
        },
        b.kind != BuildingKind::PowerCable ==> {
            &&& *final(cables) == *old(cables)
            &&& final(map).version == old(map).version + b.foot.w * b.foot.h
            &&& stamped(old(map), final(map), b.foot, Tile::Floor)
            &&& r@ == refund_drops(final(map), foot_origin(b.foot), ground_now@, demolition_refund(b.kind, rack_contents))
        },
{
    let d = def(b.kind);
    stats.deconstructed = stats.deconstructed + 1;
    if b.kind == BuildingKind::PowerCable {
        let ghost c0 = *cables;
        lay_cables(cables, &b.foot, false);
        proof {
            assert forall|p: TilePos| #[trigger] cables.spec_has(p) == (c0.spec_has(p) && !fp_contains(b.foot, p)) by {
                if fp_contains(b.foot, p) && !c0.spec_in_bounds(p) {
                    assert(!c0.spec_has(p));
                }
            }
        }
        let mut at: Vec<char> = Vec::new();
        at_chars(&mut at, b.foot.x, b.foot.y);
        let text = str_and_chars("Power cable removed at ", at);
        log.push(now, LogKind::Job, text);
        return Vec::new();
    }
    stamp_tiles(map, &b.foot, Tile::Floor);
    let mut kinds = item_vec(d.cost);
    proof {
        assert(d.cost@ =~= cost_counts(b.kind));
    }
    match rack_contents {
        Some(counts) => {
            let mut more = item_vec(counts);
            kinds.append(&mut more);
        },
        None => {},
    }
    proof {
        assert(kinds@ =~= demolition_refund(b.kind, rack_contents));
    }
    let drops = drop_refunds(map, TilePos::new(b.foot.x, b.foot.y), ground_now, &kinds);
    let mut text = String::from_str(d.label);
    text.append(" deconstructed — materials refunded");
    log.push(now, LogKind::Job, text);
    drops
}


/// Building on floor and then tearing the building down leaves every tile
/// and door state of the grid as it was.
pub proof fn lemma_teardown_restores_floor(m0: &ShipMap, m1: &ShipMap, m2: &ShipMap, f: Footprint, t: Tile)
    requires
        forall|p: TilePos| fp_contains(f, p) ==> #[trigger] m0.spec_tile(p) == Some(Tile::Floor),
        stamped(m0, m1, f, t),
        stamped(m1, m2, f, Tile::Floor),
    ensures
        m2.same_cells(m0),
{
    assert forall|p: TilePos| #[trigger] m2.spec_tile(p) == m0.spec_tile(p) by {
        assert(m1.spec_tile(p) == m0.spec_tile(p) || fp_contains(f, p));
    }
    assert forall|p: TilePos| #[trigger] m2.spec_door_state(p) == m0.spec_door_state(p) by {
        if fp_contains(f, p) {
            assert(m0.spec_tile(p) == Some(Tile::Floor));
        } else {
            assert(m1.spec_door_state(p) == m0.spec_door_state(p));
        }
    }
}

/// A finished wall or machine closes its whole footprint: afterwards no
/// tile of it can be walked on or stood on.
pub proof fn lemma_blocking_footprint_closed(m0: &ShipMap, m1: &ShipMap, f: Footprint, kind: BuildingKind)
    requires
        def_blocks(kind),
        stamped(m0, m1, f, def_tile(kind)),
    ensures
        forall|p: TilePos| #[trigger] fp_contains(f, p) ==> !m1.spec_walkable(p) && !m1.spec_standable(p),
{
    assert forall|p: TilePos| #[trigger] fp_contains(f, p) implies !m1.spec_walkable(p) && !m1.spec_standable(p) by {
        assert(m1.spec_tile(p) == Some(def_tile(kind)));
    }
}

/// Crew shoved off a new blocking building each stood on its footprint, and
/// each is sent to a walkable tile, which lies outside the footprint.
pub proof fn lemma_displaced_land_clear(
    m0: &ShipMap,
    map: &ShipMap,
    f: Footprint,
    kind: BuildingKind,
    crew: Seq<(u64, TilePos)>,
)
    requires
        def_blocks(kind),
        stamped(m0, map, f, def_tile(kind)),
    ensures
        forall|i: int|
            0 <= i < displaced_crew(map, f, crew).len() ==> {
                let (e, to) = #[trigger] displaced_crew(map, f, crew)[i];
                &&& map.spec_walkable(to)
                &&& !fp_contains(f, to)
                &&& exists|j: int| 0 <= j < crew.len() && crew[j].0 == e && fp_contains(f, #[trigger] crew[j].1)
            },
    decreases crew.len(),
{
    lemma_blocking_footprint_closed(m0, map, f, kind);
    if crew.len() > 0 {
        let rest = crew.drop_last();
        lemma_displaced_land_clear(m0, map, f, kind, rest);
        let d0 = displaced_crew(map, f, rest);
        let d = displaced_crew(map, f, crew);
        let (e, pos) = crew.last();
        assert forall|i: int| 0 <= i < d.len() implies {
            let (e2, to) = #[trigger] d[i];
            &&& map.spec_walkable(to)
            &&& !fp_contains(f, to)
            &&& exists|j: int| 0 <= j < crew.len() && crew[j].0 == e2 && fp_contains(f, #[trigger] crew[j].1)
        } by {
            if i < d0.len() {
                assert(d[i] == d0[i]);
                let j = choose|j: int| 0 <= j < rest.len() && rest[j].0 == d0[i].0 && fp_contains(f, #[trigger] rest[j].1);
                assert(crew[j] == rest[j]);
            } else {
                let free = nearest_free(map, pos).unwrap();
                assert(d[i] == (e, free));
                assert(nearest_ok(map, pos, Some(free)));
                assert(map.spec_walkable(free));
                assert(crew[crew.len() - 1] == (e, pos));
            }
        }
    }
}

/// Every material delivered to a finished blueprint is accounted for: per
/// kind, what the building consumed plus what is refunded equals what was
/// delivered.
pub proof fn lemma_delivery_accounted(bp: Blueprint, i: int)
    requires
        0 <= i < 3,
        bp.delivered@[i] >= def_cost(bp.kind, i),
    ensures
        def_cost(bp.kind, i) + bp_excess(bp)[i] == bp.delivered@[i],
        item_list(bp_excess(bp)).len() == bp_excess(bp)[0] + bp_excess(bp)[1] + bp_excess(bp)[2],
{
}

} // verus!
