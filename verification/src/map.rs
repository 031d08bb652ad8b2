//! The starter ship: a fixed hand-authored tile layout stored as a dense grid.
//!
//! Tiles are plain grid data owned by `ShipMap`; dynamic things (crew, items,
//! racks) reference the grid through `TilePos`.

use crate::items::{kind_of_char, item_kind_of_char, ItemKind};
use vstd::prelude::*;
use vstd::string::StringSliceAdditionalSpecFns;

verus! {

/// Legend:
///  `#` hull wall       `.` floor
///  `S` storage rack    `C` crew spawn
///  `P` parts rack (4 machinery parts)   `O` ore rack (4 asteroid ore)
///  `F` fabricator origin (2x2 machine — all four tiles carry the char)
///  `R` reactor origin (2x2 machine — all four tiles carry the char)
///  `c` underfloor power cable
///  `p` underfloor coolant pipe
///  `K` coolant pump (implies a pipe underneath)
///  `W` coolant reservoir (implies a pipe underneath)
///  `H` heat exchanger (implies a pipe underneath)
///  `Z` radiator (implies a pipe underneath; must be hull-adjacent)
///  `D` preinstalled auto door
///  `1` crate item      `2` ore item      `3` machinery part item
///  `X` item inside a sealed pocket (permanently unreachable)
pub const MAP_LAYOUT: [&'static str; 19] = [
    "####################################",
    "#.3..1.....#..........#...2...2....#",
    "#..1....1..#....C.....#....2...2...#",
    "#.3....3...#....C.....#..........2.#",
    "#..1....1..#....C.....#...2...2....#",
    "#........1.#....C.....#........2...#",
    "######D#########D###########D#######",
    "#..................................#",
    "#.............3............3.......#",
    "#####D###########D#########.####.###",
    "#..........#..........#....SPS.....#",
    "#..........#..........#....SPS.....#",
    "#..........#...FF.....#............#",
    "#..3.......#...FF.....#....SO......#",
    "#....3.3...#...c......#....SO......#",
    "#.###......#3..c......#............#",
    "#.#X#......#RRccpppppp#............#",
    "#.###......#RRHKpZpZpW#............#",
    "####################################",
];

#[derive(Clone, Copy, PartialEq, Eq, Structural, Debug)]
pub enum Tile {
    /// Hull wall (part of the fixed ship shell — never player-built).
    Wall,
    Floor,
    /// Player-built interior wall (blocks movement, deconstructable).
    BuiltWall,
    /// Door tile (walkable while unlocked; the door device on it owns the
    /// open/closed state).
    Door,
    /// Tile occupied by a multi-tile machine footprint (blocks movement).
    Machine,
}

/// Runtime state of one door tile, mirrored from the door device so
/// pathfinding and movement can read it from the map alone.
/// `open` is the leaf travel in sim microseconds: 0 = closed,
/// `crate::airtight::DOOR_MOVE_US` = fully open; `locked` = Lock Closed mode.
#[derive(Clone, Copy, PartialEq, Eq, Structural, Debug)]
pub struct DoorTileState {
    pub open: u32,
    pub locked: bool,
}

/// A closed, unlocked door.
pub open spec fn closed_door() -> DoorTileState {
    DoorTileState { open: 0, locked: false }
}

impl Default for DoorTileState {
    fn default() -> (r: Self)
        ensures
            r.open == 0,
            !r.locked,
    {
        DoorTileState { open: 0, locked: false }
    }
}

#[derive(Clone, Copy, PartialEq, Eq, Structural, Debug, Hash)]
pub struct TilePos {
    pub x: i32,
    pub y: i32,
}

impl TilePos {
    pub fn new(x: i32, y: i32) -> (r: Self)
        ensures
            r.x == x,
            r.y == y,
    {
        TilePos { x, y }
    }
}

/// The position `(x, y)`.
pub open spec fn tile_pos(x: int, y: int) -> TilePos {
    TilePos { x: x as i32, y: y as i32 }
}

/// Dense grid index of the cell `(x, y)` in a grid of width `w`.
pub open spec fn cell_index(w: int, x: int, y: int) -> int {
    y * w + x
}

/// `(x, y)` lies inside a `w × h` grid.
pub open spec fn in_grid(w: int, h: int, x: int, y: int) -> bool {
    0 <= x < w && 0 <= y < h
}

/// Row-major indexing stays inside the grid and tells cells apart.
pub proof fn lemma_cell_index_bounds(w: int, h: int, x: int, y: int)
    requires
        in_grid(w, h, x, y),
    ensures
        0 <= cell_index(w, x, y) < w * h,
        cell_index(w, x, y) + 1 <= w * h,
{
    assert(0 <= y * w + x < w * h) by (nonlinear_arith)
        requires
            0 <= x < w,
            0 <= y < h,
    ;
}

/// Distinct cells have distinct row-major indices.
pub proof fn lemma_cell_index_injective(w: int, x1: int, y1: int, x2: int, y2: int)
    requires
        0 <= x1 < w,
        0 <= x2 < w,
        0 <= y1,
        0 <= y2,
        cell_index(w, x1, y1) == cell_index(w, x2, y2),
    ensures
        x1 == x2,
        y1 == y2,
{
    if y1 < y2 {
        assert(y1 * w + x1 < y2 * w + x2) by (nonlinear_arith)
            requires
                0 <= x1 < w,
                0 <= x2,
                y1 < y2,
        ;
    } else if y2 < y1 {
        assert(y2 * w + x2 < y1 * w + x1) by (nonlinear_arith)
            requires
                0 <= x2 < w,
                0 <= x1,
                y2 < y1,
        ;
    }
}

/// Dense grid of the ship interior. Rows are stored top-to-bottom.
#[derive(Clone)]
pub struct ShipMap {
    pub width: i32,
    pub height: i32,
    pub tiles: Vec<Tile>,
    /// Door runtime state per tile (meaningful where the tile is a door).
    /// Written by the door logic only — never bumps `version` (door state is
    /// runtime data, not geometry).
    pub doors: Vec<DoorTileState>,
    /// Bumped on every `set_tile` so caches can detect geometry changes.
    pub version: u64,
}

impl ShipMap {
    /// The grid is well formed: both layers cover exactly `width × height`
    /// cells and every row-major index fits in an `i32`.
    pub open spec fn wf(&self) -> bool {
        &&& 0 <= self.width
        &&& 0 <= self.height
        &&& self.width * self.height <= i32::MAX
        &&& self.tiles@.len() == self.width * self.height
        &&& self.doors@.len() == self.width * self.height
    }

    /// A well-formed map has non-negative dimensions whose cell count fits
    /// in an `i32`.
    pub proof fn lemma_wf_dims(&self)
        requires
            self.wf(),
        ensures
            0 <= self.width,
            0 <= self.height,
            self.width * self.height <= i32::MAX,
    {
    }

    pub open spec fn spec_in_bounds(&self, p: TilePos) -> bool {
        in_grid(self.width as int, self.height as int, p.x as int, p.y as int)
    }

    pub open spec fn tile_xy(&self, x: int, y: int) -> Tile {
        self.tiles@[cell_index(self.width as int, x, y)]
    }

    pub open spec fn door_xy(&self, x: int, y: int) -> DoorTileState {
        self.doors@[cell_index(self.width as int, x, y)]
    }

    /// The tile at `p` (`None` outside the grid).
    pub open spec fn spec_tile(&self, p: TilePos) -> Option<Tile> {
        if self.spec_in_bounds(p) {
            Some(self.tile_xy(p.x as int, p.y as int))
        } else {
            None
        }
    }

    /// Walkable: floor, or a door that is not locked.
    pub open spec fn spec_walkable(&self, p: TilePos) -> bool {
        match self.spec_tile(p) {
            Some(Tile::Floor) => true,
            Some(Tile::Door) => !self.door_xy(p.x as int, p.y as int).locked,
            _ => false,
        }
    }

    /// Standable: floor or any door (even a locked one).
    pub open spec fn spec_standable(&self, p: TilePos) -> bool {
        match self.spec_tile(p) {
            Some(Tile::Floor) => true,
            Some(Tile::Door) => true,
            _ => false,
        }
    }

    /// Door runtime state at `p` (only where the tile is a door).
    pub open spec fn spec_door_state(&self, p: TilePos) -> Option<DoorTileState> {
        if self.spec_tile(p) == Some(Tile::Door) {
            Some(self.door_xy(p.x as int, p.y as int))
        } else {
            None
        }
    }

    /// Two maps agree on every tile and every door state.
    pub open spec fn same_cells(&self, other: &ShipMap) -> bool {
        &&& self.width == other.width
        &&& self.height == other.height
        &&& forall|p: TilePos| #[trigger] self.spec_tile(p) == other.spec_tile(p)
        &&& forall|p: TilePos| #[trigger] self.spec_door_state(p) == other.spec_door_state(p)
    }

    fn idx(&self, p: TilePos) -> (r: usize)
        requires
            self.wf(),
            self.spec_in_bounds(p),
        ensures
            r == cell_index(self.width as int, p.x as int, p.y as int),
            r < self.tiles@.len(),
            r < self.doors@.len(),
    {
        proof {
            lemma_cell_index_bounds(self.width as int, self.height as int, p.x as int, p.y as int);
        }
        assert(p.y * self.width <= p.y * self.width + p.x);
        (p.y * self.width + p.x) as usize
    }

    /// A `width × height` grid of hull walls with every door closed and
    /// unlocked.
    pub fn filled(width: i32, height: i32, tile: Tile) -> (r: Self)
        requires
            0 <= width,
            0 <= height,
            width * height <= i32::MAX,
        ensures
            r.wf(),
            r.width == width,
            r.height == height,
            r.version == 0,
            forall|p: TilePos| r.spec_in_bounds(p) ==> #[trigger] r.spec_tile(p) == Some(tile),
            forall|p: TilePos| #[trigger] r.spec_in_bounds(p) ==> r.door_xy(p.x as int, p.y as int) == closed_door(),
    {
        let n: i32 = width * height;
        let mut tiles: Vec<Tile> = Vec::new();
        let mut doors: Vec<DoorTileState> = Vec::new();
        let mut i: i32 = 0;
        while i < n
            invariant
                0 <= i <= n,
                tiles@.len() == i,
                doors@.len() == i,
                forall|j: int| 0 <= j < i ==> tiles@[j] == tile,
                forall|j: int| 0 <= j < i ==> doors@[j] == closed_door(),
            decreases n - i,
        {
            tiles.push(tile);
            doors.push(DoorTileState { open: 0, locked: false });
            i = i + 1;
        }
        let r = ShipMap { width, height, tiles, doors, version: 0 };
        assert forall|p: TilePos| r.spec_in_bounds(p) implies #[trigger] r.spec_tile(p) == Some(tile) by {
            lemma_cell_index_bounds(width as int, height as int, p.x as int, p.y as int);
        }
        assert forall|p: TilePos| #[trigger] r.spec_in_bounds(p) implies r.door_xy(p.x as int, p.y as int) == closed_door() by {
            lemma_cell_index_bounds(width as int, height as int, p.x as int, p.y as int);
        }
        r
    }

    pub fn in_bounds(&self, p: TilePos) -> (r: bool)
        ensures
            r == self.spec_in_bounds(p),
    {
        p.x >= 0 && p.y >= 0 && p.x < self.width && p.y < self.height
    }

    pub fn tile(&self, p: TilePos) -> (r: Option<Tile>)
        requires
            self.wf(),
        ensures
            r == self.spec_tile(p),
    {
        if self.in_bounds(p) {
            let i = self.idx(p);
            Some(self.tiles[i])
        } else {
            None
        }
    }

    pub fn is_walkable(&self, p: TilePos) -> (r: bool)
        requires
            self.wf(),
        ensures
            r == self.spec_walkable(p),
    {
        match self.tile(p) {
            Some(Tile::Floor) => true,
            // A locked door is a wall to everyone (until unlocked); an auto or
            // held-open door is walkable even while still closed — crew open
            // it by demanding passage.
            Some(Tile::Door) => {
                let i = self.idx(p);
                !self.doors[i].locked
            },
            _ => false,
        }
    }

    /// Tiles a crew may *stand* on: floor plus any door — including a locked
    /// one, because whoever stands inside it when it locks must still be able
    /// to walk out.
    pub fn is_standable(&self, p: TilePos) -> (r: bool)
        requires
            self.wf(),
        ensures
            r == self.spec_standable(p),
    {
        match self.tile(p) {
            Some(Tile::Floor) => true,
            Some(Tile::Door) => true,
            _ => false,
        }
    }

    /// Door runtime state at `p` (`Some` only where the tile is a door).
    pub fn door_state(&self, p: TilePos) -> (r: Option<DoorTileState>)
        requires
            self.wf(),
        ensures
            r == self.spec_door_state(p),
    {
        if self.tile(p) == Some(Tile::Door) {
            let i = self.idx(p);
            Some(self.doors[i])
        } else {
            None
        }
    }

    /// Write the runtime state of the door tile at `p`. Runtime state is not
    /// geometry: this deliberately does not bump `version`.
    pub fn set_door_state(&mut self, p: TilePos, state: DoorTileState)
        requires
            old(self).wf(),
            old(self).spec_tile(p) == Some(Tile::Door),
        ensures
            final(self).wf(),
            final(self).width == old(self).width,
            final(self).height == old(self).height,
            final(self).version == old(self).version,
            forall|q: TilePos| #[trigger] final(self).spec_tile(q) == old(self).spec_tile(q),
            final(self).spec_door_state(p) == Some(state),
            forall|q: TilePos| q != p ==> #[trigger] final(self).spec_door_state(q) == old(self).spec_door_state(q),
    {
        let i = self.idx(p);
        self.doors.set(i, state);
        proof {
            assert forall|q: TilePos| #[trigger] self.spec_tile(q) == old(self).spec_tile(q) by {}
            assert forall|q: TilePos| q != p implies #[trigger] self.spec_door_state(q) == old(self).spec_door_state(q) by {
                if self.spec_in_bounds(q) {
                    lemma_cell_index_bounds(self.width as int, self.height as int, q.x as int, q.y as int);
                    if cell_index(self.width as int, q.x as int, q.y as int) == i {
                        lemma_cell_index_injective(self.width as int, q.x as int, q.y as int, p.x as int, p.y as int);
                    }
                }
            }
        }
    }

    /// Overwrite one tile (used when buildings complete or are torn down).
    /// The door slot of the tile resets to closed and unlocked.
    pub fn set_tile(&mut self, p: TilePos, tile: Tile)
        requires
            old(self).wf(),
            old(self).spec_in_bounds(p),
            old(self).version < u64::MAX,
        ensures
            final(self).wf(),
            final(self).width == old(self).width,
            final(self).height == old(self).height,
            final(self).version == old(self).version + 1,
            final(self).spec_tile(p) == Some(tile),
            final(self).door_xy(p.x as int, p.y as int) == closed_door(),
            forall|q: TilePos| q != p ==> #[trigger] final(self).spec_tile(q) == old(self).spec_tile(q),
            forall|q: TilePos| q != p ==> #[trigger] final(self).spec_door_state(q) == old(self).spec_door_state(q),
            forall|q: TilePos|
                q != p && old(self).spec_in_bounds(q) ==> #[trigger] final(self).door_xy(q.x as int, q.y as int)
                    == old(self).door_xy(q.x as int, q.y as int),
    {
        let i = self.idx(p);
        self.tiles.set(i, tile);
        self.doors.set(i, DoorTileState { open: 0, locked: false });
        self.version = self.version + 1;
        proof {
            assert forall|q: TilePos| q != p implies #[trigger] self.spec_tile(q) == old(self).spec_tile(q) by {
                if self.spec_in_bounds(q) {
                    lemma_cell_index_bounds(self.width as int, self.height as int, q.x as int, q.y as int);
                    if cell_index(self.width as int, q.x as int, q.y as int) == i {
                        lemma_cell_index_injective(self.width as int, q.x as int, q.y as int, p.x as int, p.y as int);
                    }
                }
            }
            assert forall|q: TilePos| q != p implies #[trigger] self.spec_door_state(q) == old(self).spec_door_state(q) by {
                if self.spec_in_bounds(q) {
                    lemma_cell_index_bounds(self.width as int, self.height as int, q.x as int, q.y as int);
                    if cell_index(self.width as int, q.x as int, q.y as int) == i {
                        lemma_cell_index_injective(self.width as int, q.x as int, q.y as int, p.x as int, p.y as int);
                    }
                }
            }
            assert forall|q: TilePos| q != p && old(self).spec_in_bounds(q) implies #[trigger] self.door_xy(
                q.x as int,
                q.y as int,
            ) == old(self).door_xy(q.x as int, q.y as int) by {
                lemma_cell_index_bounds(self.width as int, self.height as int, q.x as int, q.y as int);
                if cell_index(self.width as int, q.x as int, q.y as int) == i {
                    lemma_cell_index_injective(self.width as int, q.x as int, q.y as int, p.x as int, p.y as int);
                }
            }
        }
    }

    /// Every tile with its position, in row-major order.
    pub fn iter_tiles(&self) -> (r: Vec<(TilePos, Tile)>)
        requires
            self.wf(),
        ensures
            r@.len() == self.width * self.height,
            forall|y: int, x: int|
                0 <= y < self.height && 0 <= x < self.width ==> {
                    let e = #[trigger] r@[cell_index(self.width as int, x, y)];
                    &&& e.0 == tile_pos(x, y)
                    &&& self.spec_tile(e.0) == Some(e.1)
                },
    {
        let mut out: Vec<(TilePos, Tile)> = Vec::new();
        let mut y: i32 = 0;
        while y < self.height
            invariant
                self.wf(),
                0 <= y <= self.height,
                out@.len() == y * self.width,
                forall|yy: int, x: int|
                    0 <= yy < y && 0 <= x < self.width ==> {
                        let e = #[trigger] out@[cell_index(self.width as int, x, yy)];
                        &&& e.0 == TilePos { x: x as i32, y: yy as i32 }
                        &&& self.spec_tile(e.0) == Some(e.1)
                    },
            decreases self.height - y,
        {
            let mut x: i32 = 0;
            while x < self.width
                invariant
                    self.wf(),
                    0 <= y < self.height,
                    0 <= x <= self.width,
                    out@.len() == y * self.width + x,
                    forall|yy: int, xx: int|
                        (0 <= yy < y && 0 <= xx < self.width) || (yy == y && 0 <= xx < x) ==> {
                            let e = #[trigger] out@[cell_index(self.width as int, xx, yy)];
                            &&& e.0 == tile_pos(xx, yy)
                            &&& self.spec_tile(e.0) == Some(e.1)
                        },
                decreases self.width - x,
            {
                let p = TilePos::new(x, y);
                proof {
                    lemma_cell_index_bounds(self.width as int, self.height as int, x as int, y as int);
                }
                let i = self.idx(p);
                out.push((p, self.tiles[i]));
                proof {
                    assert forall|yy: int, xx: int|
                        (0 <= yy < y && 0 <= xx < self.width) || (yy == y && 0 <= xx < x + 1) implies {
                            let e = #[trigger] out@[cell_index(self.width as int, xx, yy)];
                            &&& e.0 == tile_pos(xx, yy)
                            &&& self.spec_tile(e.0) == Some(e.1)
                        } by {
                        if yy == y && xx == x {
                        } else {
                            if yy < y {
                                assert(yy * self.width + xx < y * self.width) by (nonlinear_arith)
                                    requires
                                        0 <= xx < self.width,
                                        yy < y,
                                ;
                            }
                            assert(0 <= yy * self.width + xx) by (nonlinear_arith)
                                requires
                                    0 <= xx,
                                    0 <= yy,
                                    0 <= self.width,
                            ;
                        }
                    }
                }
                x = x + 1;
            }
            assert((y + 1) * self.width == y * self.width + self.width) by (nonlinear_arith);
            y = y + 1;
        }
        assert(self.height * self.width == self.width * self.height) by (nonlinear_arith);
        out
    }
}

// =====================================================================================
// Layout parsing
// =====================================================================================

/// Things the hand-authored layout asks the game to spawn.
#[derive(Clone, Copy, PartialEq, Eq, Debug)]
pub enum SpawnReq {
    Crew { pos: TilePos },
    /// Storage rack, optionally pre-stocked with a kind + amount.
    Rack { pos: TilePos, fill: Option<(ItemKind, u32)> },
    /// 2x2 fabricator with its top-left tile at `pos`.
    Fabricator { pos: TilePos },
    /// 2x2 starter reactor with its top-left tile at `pos`.
    Reactor { pos: TilePos },
    /// Underfloor power cable on this tile.
    Cable { pos: TilePos },
    /// Underfloor coolant pipe on this tile.
    Pipe { pos: TilePos },
    /// Coolant pump standing on the pipe at `pos`.
    Pump { pos: TilePos },
    /// Preinstalled auto door on the tile at `pos`.
    Door { pos: TilePos },
    Reservoir { pos: TilePos },
    HeatExchanger { pos: TilePos },
    Radiator { pos: TilePos },
    Item { pos: TilePos, kind: ItemKind },
}

/// Characters the layout legend knows.
pub open spec fn legend_char(c: u8) -> bool {
    c == 35u8 /* # */ || c == 46u8 /* . */ || c == 67u8 /* C */ || c == 83u8 /* S */
    || c == 80u8 /* P */ || c == 79u8 /* O */ || c == 88u8 /* X */ || c == 70u8 /* F */
    || c == 82u8 /* R */ || c == 99u8 /* c */ || c == 112u8 /* p */ || c == 75u8 /* K */
    || c == 68u8 /* D */ || c == 87u8 /* W */ || c == 72u8 /* H */ || c == 90u8 /* Z */
    || c == 49u8 /* 1 */ || c == 50u8 /* 2 */ || c == 51u8 /* 3 */
}

/// The grid tile a legend character produces.
pub open spec fn tile_of_char(c: u8) -> Tile {
    if c == 35u8 {
        Tile::Wall
    } else if c == 70u8 || c == 82u8 {
        Tile::Machine
    } else if c == 68u8 {
        Tile::Door
    } else {
        Tile::Floor
    }
}

/// The layout rows as bytes.
pub open spec fn layout_rows(layout: &[&str]) -> Seq<Seq<u8>> {
    layout@.map_values(|r: &str| r.spec_bytes())
}

/// A layout the parser accepts: rows of one common width, legend characters
/// only, and a grid whose cell count fits in an `i32`.
pub open spec fn layout_ok(layout: &[&str]) -> bool {
    let rows = layout_rows(layout);
    let h = rows.len();
    let w = if h == 0 { 0 } else { rows[0].len() as int };
    &&& h <= i32::MAX
    &&& w <= i32::MAX
    &&& w * h <= i32::MAX
    &&& forall|y: int| 0 <= y < h ==> (#[trigger] rows[y]).len() == w
    &&& forall|y: int, x: int| 0 <= y < h && 0 <= x < w ==> legend_char(#[trigger] rows[y][x])
}

/// Does the 2x2 machine footprint with top-left `o` contain `(x, y)`?
pub open spec fn origin_covers(o: (i32, i32), x: int, y: int) -> bool {
    o.0 <= x <= o.0 + 1 && o.1 <= y <= o.1 + 1
}

/// Is `(x, y)` inside the 2x2 footprint of one of the already registered
/// machine origins?
pub open spec fn covered_by(origins: Seq<(i32, i32)>, x: int, y: int) -> bool {
    exists|i: int|
        0 <= i < origins.len() && origin_covers(#[trigger] origins[i], x, y)
}

/// Spawn requests of one cell, given whether a machine origin already covers
/// it (machine chars repeat on all four footprint tiles; only the first one
/// spawns the machine).
pub open spec fn cell_spawns(c: u8, pos: TilePos, covered: bool) -> Seq<SpawnReq> {
    let first: Seq<SpawnReq> = if c == 70u8 {
        if covered { seq![] } else { seq![SpawnReq::Fabricator { pos }] }
    } else if c == 82u8 {
        if covered { seq![] } else { seq![SpawnReq::Reactor { pos }] }
    } else if c == 99u8 {
        seq![SpawnReq::Cable { pos }]
    } else if c == 112u8 {
        seq![SpawnReq::Pipe { pos }]
    } else if c == 75u8 {
        seq![SpawnReq::Pipe { pos }, SpawnReq::Pump { pos }]
    } else if c == 68u8 {
        seq![SpawnReq::Door { pos }]
    } else if c == 87u8 {
        seq![SpawnReq::Pipe { pos }, SpawnReq::Reservoir { pos }]
    } else if c == 72u8 {
        seq![SpawnReq::Pipe { pos }, SpawnReq::HeatExchanger { pos }]
    } else if c == 90u8 {
        seq![SpawnReq::Pipe { pos }, SpawnReq::Radiator { pos }]
    } else if c == 49u8 || c == 50u8 || c == 51u8 {
        seq![SpawnReq::Item { pos, kind: kind_of_char(c) }]
    } else {
        seq![]
    };
    let second: Seq<SpawnReq> = if c == 67u8 {
        seq![SpawnReq::Crew { pos }]
    } else if c == 83u8 {
        seq![SpawnReq::Rack { pos, fill: None }]
    } else if c == 80u8 {
        seq![SpawnReq::Rack { pos, fill: Some((ItemKind::Part, 4u32)) }]
    } else if c == 79u8 {
        seq![SpawnReq::Rack { pos, fill: Some((ItemKind::Ore, 4u32)) }]
    } else if c == 88u8 {
        seq![SpawnReq::Item { pos, kind: ItemKind::Crate }]
    } else {
        seq![]
    };
    first + second
}

/// Scan state after one cell: the spawn list and the machine origins.
pub open spec fn scan_cell(
    st: (Seq<SpawnReq>, Seq<(i32, i32)>),
    c: u8,
    x: int,
    y: int,
) -> (Seq<SpawnReq>, Seq<(i32, i32)>) {
    let pos = TilePos { x: x as i32, y: y as i32 };
    let cov = covered_by(st.1, x, y);
    let origins = if (c == 70u8 || c == 82u8) && !cov {
        st.1.push((x as i32, y as i32))
    } else {
        st.1
    };
    (st.0 + cell_spawns(c, pos, cov), origins)
}

/// Scan state after all rows above `y` and the first `x` cells of row `y`
/// (row-major order).
pub open spec fn scan_layout(rows: Seq<Seq<u8>>, w: int, y: int, x: int) -> (
    Seq<SpawnReq>,
    Seq<(i32, i32)>,
)
    decreases y, x,
{
    if y <= 0 && x <= 0 {
        (seq![], seq![])
    } else if x <= 0 {
        scan_layout(rows, w, y - 1, w)
    } else {
        scan_cell(scan_layout(rows, w, y, x - 1), rows[y][x - 1], x - 1, y)
    }
}

impl ShipMap {
    /// Whether `from_layout` accepts `layout` (see `layout_ok`).
    pub fn layout_is_valid(layout: &[&str]) -> (r: bool)
        ensures
            r == layout_ok(layout),
    {
        let h = layout.len();
        if h > i32::MAX as usize {
            return false;
        }
        let w: usize = if h == 0 { 0 } else { layout[0].as_bytes().len() };
        if w > i32::MAX as usize {
            return false;
        }
        if h > 0 && w > 0 && h > (i32::MAX as usize) / w {
            proof {
                assert(w * h > i32::MAX) by (nonlinear_arith)
                    requires
                        w > 0,
                        h > (i32::MAX as int) / (w as int),
                ;
            }
            return false;
        }
        proof {
            if h > 0 && w > 0 {
                assert(w * h <= i32::MAX) by (nonlinear_arith)
                    requires
                        w > 0,
                        h <= (i32::MAX as int) / (w as int),
                ;
            }
        }
        let ghost rows = layout_rows(layout);
        let mut y: usize = 0;
        while y < h
            invariant
                rows == layout_rows(layout),
                h == layout@.len(),
                rows.len() == h,
                h > 0 ==> w == rows[0].len(),
                0 <= y <= h,
                forall|yy: int| 0 <= yy < y ==> (#[trigger] rows[yy]).len() == w,
                forall|yy: int, x: int| 0 <= yy < y && 0 <= x < w ==> legend_char(#[trigger] rows[yy][x]),
            decreases h - y,
        {
            let bytes = layout[y].as_bytes();
            assert(bytes@ == rows[y as int]);
            if bytes.len() != w {
                assert(rows[y as int].len() != w);
                return false;
            }
            let mut x: usize = 0;
            while x < w
                invariant
                    rows == layout_rows(layout),
                    rows.len() == h,
                    0 <= y < h,
                    bytes@ == rows[y as int],
                    bytes@.len() == w,
                    0 <= x <= w,
                    forall|xx: int| 0 <= xx < x ==> legend_char(#[trigger] rows[y as int][xx]),
                decreases w - x,
            {
                let c = bytes[x];
                if !is_legend_char(c) {
                    return false;
                }
                x = x + 1;
            }
            y = y + 1;
        }
        true
    }

    /// Parse the layout, returning the map plus the spawn requests it
    /// contains, in row-major cell order.
    pub fn from_layout(layout: &[&str]) -> (r: (Self, Vec<SpawnReq>))
        requires
            layout_ok(layout),
        ensures
            r.0.wf(),
            r.0.version == 0,
            r.0.height == layout@.len(),
            r.0.width == (if layout@.len() == 0 { 0 } else { layout_rows(layout)[0].len() as int }),
            forall|x: int, y: int|
                0 <= y < r.0.height && 0 <= x < r.0.width ==> #[trigger] r.0.tile_xy(x, y)
                    == tile_of_char(layout_rows(layout)[y][x]),
            forall|x: int, y: int|
                0 <= y < r.0.height && 0 <= x < r.0.width ==> #[trigger] r.0.door_xy(x, y)
                    == closed_door(),
            r.1@ == scan_layout(layout_rows(layout), r.0.width as int, r.0.height as int, 0).0,
    {
        let ghost rows = layout_rows(layout);
        let h = layout.len();
        let w: usize = if h == 0 { 0 } else { layout[0].as_bytes().len() };
        let height = h as i32;
        let width = w as i32;
        let mut tiles: Vec<Tile> = Vec::new();
        let mut spawns: Vec<SpawnReq> = Vec::new();
        // Origins of 2x2 machines already registered (the map char repeats on
        // all four footprint tiles; only the first spawns an entity).
        let mut origins: Vec<(i32, i32)> = Vec::new();
        let mut y: usize = 0;
        while y < h
            invariant
                layout_ok(layout),
                rows == layout_rows(layout),
                rows.len() == h,
                h == layout@.len(),
                w == (if h == 0 { 0 } else { rows[0].len() as int }),
                height == h,
                width == w,
                0 <= y <= h,
                tiles@.len() == y * w,
                forall|yy: int, xx: int|
                    0 <= yy < y && 0 <= xx < w ==> #[trigger] tiles@[cell_index(w as int, xx, yy)]
                        == tile_of_char(rows[yy][xx]),
                (spawns@, origins@) == scan_layout(rows, w as int, y as int, 0),
            decreases h - y,
        {
            let bytes = layout[y].as_bytes();
            let mut x: usize = 0;
            assert(rows[y as int].len() == w);
            while x < w
                invariant
                    layout_ok(layout),
                    rows == layout_rows(layout),
                    rows.len() == h,
                    h == layout@.len(),
                    height == h,
                    width == w,
                    0 <= y < h,
                    bytes@ == rows[y as int],
                    bytes@.len() == w,
                    0 <= x <= w,
                    tiles@.len() == y * w + x,
                    forall|yy: int, xx: int|
                        (0 <= yy < y && 0 <= xx < w) || (yy == y && 0 <= xx < x) ==> #[trigger] tiles@[cell_index(w as int, xx, yy)]
                            == tile_of_char(rows[yy][xx]),
                    (spawns@, origins@) == scan_layout(rows, w as int, y as int, x as int),
                decreases w - x,
            {
                let c = bytes[x];
                assert(c == rows[y as int][x as int]);
                assert(w * h <= i32::MAX);
                assert(y * w + x < w * h) by (nonlinear_arith)
                    requires
                        x < w,
                        y < h,
                ;
                let pos = TilePos::new(x as i32, y as i32);
                let xi = x as i32;
                let yi = y as i32;
                let ghost before = (spawns@, origins@);
                let cov = covered_check(&origins, xi, yi);
                tiles.push(tile_from_char(c));
                if c == 70u8 {
                    if !cov {
                        origins.push((xi, yi));
                        spawns.push(SpawnReq::Fabricator { pos });
                    }
                } else if c == 82u8 {
                    if !cov {
                        origins.push((xi, yi));
                        spawns.push(SpawnReq::Reactor { pos });
                    }
                } else if c == 99u8 {
                    spawns.push(SpawnReq::Cable { pos });
                } else if c == 112u8 {
                    spawns.push(SpawnReq::Pipe { pos });
                } else if c == 75u8 {
                    spawns.push(SpawnReq::Pipe { pos });
                    spawns.push(SpawnReq::Pump { pos });
                } else if c == 68u8 {
                    spawns.push(SpawnReq::Door { pos });
                } else if c == 87u8 {
                    spawns.push(SpawnReq::Pipe { pos });
                    spawns.push(SpawnReq::Reservoir { pos });
                } else if c == 72u8 {
                    spawns.push(SpawnReq::Pipe { pos });
                    spawns.push(SpawnReq::HeatExchanger { pos });
                } else if c == 90u8 {
                    spawns.push(SpawnReq::Pipe { pos });
                    spawns.push(SpawnReq::Radiator { pos });
                } else if c == 49u8 || c == 50u8 || c == 51u8 {
                    spawns.push(SpawnReq::Item { pos, kind: item_kind_of_char(c) });
                }
                if c == 67u8 {
                    spawns.push(SpawnReq::Crew { pos });
                } else if c == 83u8 {
                    spawns.push(SpawnReq::Rack { pos, fill: None });
                } else if c == 80u8 {
                    spawns.push(SpawnReq::Rack { pos, fill: Some((ItemKind::Part, 4)) });
                } else if c == 79u8 {
                    spawns.push(SpawnReq::Rack { pos, fill: Some((ItemKind::Ore, 4)) });
                } else if c == 88u8 {
                    spawns.push(SpawnReq::Item { pos, kind: ItemKind::Crate });
                }
                proof {
                    let after = scan_cell(before, c, x as int, y as int);
                    assert(spawns@ =~= after.0);
                    assert(origins@ =~= after.1);
                    assert forall|yy: int, xx: int|
                        (0 <= yy < y && 0 <= xx < w) || (yy == y && 0 <= xx < x + 1) implies #[trigger] tiles@[cell_index(w as int, xx, yy)]
                            == tile_of_char(rows[yy][xx]) by {
                        if yy == y && xx == x {
                        } else {
                            if yy < y {
                                assert(yy * w + xx < y * w) by (nonlinear_arith)
                                    requires
                                        0 <= xx < w,
                                        yy < y,
                                ;
                            }
                            assert(0 <= yy * w + xx) by (nonlinear_arith)
                                requires
                                    0 <= xx,
                                    0 <= yy,
                            ;
                        }
                    }
                }
                x = x + 1;
            }
            assert((y + 1) * w == y * w + w) by (nonlinear_arith);
            y = y + 1;
        }
        assert(h * w == w * h) by (nonlinear_arith);
        let n = width * height;
        let mut doors: Vec<DoorTileState> = Vec::new();
        let mut i: i32 = 0;
        while i < n
            invariant
                0 <= i <= n,
                doors@.len() == i,
                forall|j: int| 0 <= j < i ==> doors@[j] == closed_door(),
            decreases n - i,
        {
            doors.push(DoorTileState { open: 0, locked: false });
            i = i + 1;
        }
        let map = ShipMap { width, height, tiles, doors, version: 0 };
        proof {
            assert forall|x: int, y: int|
                0 <= y < map.height && 0 <= x < map.width implies #[trigger] map.door_xy(x, y)
                    == closed_door() by {
                lemma_cell_index_bounds(w as int, h as int, x, y);
            }
        }
        (map, spawns)
    }
}

/// Whether a byte is a legend character (see `legend_char`).
pub fn is_legend_char(c: u8) -> (r: bool)
    ensures
        r == legend_char(c),
{
    c == 35u8 || c == 46u8 || c == 67u8 || c == 83u8 || c == 80u8 || c == 79u8 || c == 88u8
        || c == 70u8 || c == 82u8 || c == 99u8 || c == 112u8 || c == 75u8 || c == 68u8 || c
        == 87u8 || c == 72u8 || c == 90u8 || c == 49u8 || c == 50u8 || c == 51u8
}

fn tile_from_char(c: u8) -> (r: Tile)
    ensures
        r == tile_of_char(c),
{
    if c == 35u8 {
        Tile::Wall
    } else if c == 70u8 || c == 82u8 {
        Tile::Machine
    } else if c == 68u8 {
        Tile::Door
    } else {
        Tile::Floor
    }
}

fn covered_check(origins: &Vec<(i32, i32)>, x: i32, y: i32) -> (r: bool)
    ensures
        r == covered_by(origins@, x as int, y as int),
{
    let mut i: usize = 0;
    while i < origins.len()
        invariant
            0 <= i <= origins@.len(),
            forall|j: int| 0 <= j < i ==> !origin_covers(#[trigger] origins@[j], x as int, y as int),
        decreases origins@.len() - i,
    {
        let (ox, oy) = origins[i];
        if x as i64 >= ox as i64 && x as i64 <= ox as i64 + 1 && y as i64 >= oy as i64 && y as i64
            <= oy as i64 + 1 {
            return true;
        }
        i = i + 1;
    }
    false
}

// =====================================================================================
// Drop-tile search
// =====================================================================================

/// The `k`-th probe (0..4) at offset `(dx, dy)` around `around`:
/// `(+dx,+dy)`, `(-dx,+dy)`, `(+dx,-dy)`, `(-dx,-dy)`.
pub open spec fn drop_probe(around: TilePos, dx: int, dy: int, k: int) -> TilePos {
    let sx = if k == 1 || k == 3 { -dx } else { dx };
    let sy = if k == 2 || k == 3 { -dy } else { dy };
    TilePos { x: (around.x + sx) as i32, y: (around.y + sy) as i32 }
}

/// Probe `(dy1, dx1, k1)` comes strictly before `(dy2, dx2, k2)` in scan order.
pub open spec fn probe_before(dy1: int, dx1: int, k1: int, dy2: int, dx2: int, k2: int) -> bool {
    dy1 < dy2 || (dy1 == dy2 && dx1 < dx2) || (dy1 == dy2 && dx1 == dx2 && k1 < k2)
}

/// A tile acceptable for dropping: walkable and not in `avoid`.
pub open spec fn drop_ok(map: &ShipMap, avoid: Seq<TilePos>, p: TilePos) -> bool {
    map.spec_walkable(p) && !avoid.contains(p)
}

/// The outcome of scanning offsets `0..=radius` around `around` in
/// `(dy, dx, probe)` order and keeping the first acceptable tile.
pub open spec fn first_drop(
    map: &ShipMap,
    avoid: Seq<TilePos>,
    around: TilePos,
    radius: int,
    r: Option<TilePos>,
) -> bool {
    match r {
        Some(p) => exists|dy: int, dx: int, k: int|
            0 <= dy <= radius && 0 <= dx <= radius && 0 <= k < 4 && p == drop_probe(around, dx, dy, k)
                && drop_ok(map, avoid, p) && (forall|dy2: int, dx2: int, k2: int|
                0 <= dy2 <= radius && 0 <= dx2 <= radius && 0 <= k2 < 4 && probe_before(
                    dy2,
                    dx2,
                    k2,
                    dy,
                    dx,
                    k,
                ) ==> !drop_ok(map, avoid, #[trigger] drop_probe(around, dx2, dy2, k2))),
        None => forall|dy2: int, dx2: int, k2: int|
            0 <= dy2 <= radius && 0 <= dx2 <= radius && 0 <= k2 < 4 ==> !drop_ok(
                map,
                avoid,
                #[trigger] drop_probe(around, dx2, dy2, k2),
            ),
    }
}

/// The tile a drop scan of `radius` around `around` picks, if any: the one
/// tile satisfying `first_drop` (see `lemma_first_drop_unique`).
pub open spec fn drop_spot(map: &ShipMap, avoid: Seq<TilePos>, around: TilePos, radius: int) -> Option<TilePos> {
    if exists|p: TilePos| first_drop(map, avoid, around, radius, Some(p)) {
        Some(choose|p: TilePos| first_drop(map, avoid, around, radius, Some(p)))
    } else {
        None
    }
}

/// A drop scan has exactly one outcome.
pub proof fn lemma_first_drop_unique(
    map: &ShipMap,
    avoid: Seq<TilePos>,
    around: TilePos,
    radius: int,
    r: Option<TilePos>,
)
    requires
        first_drop(map, avoid, around, radius, r),
    ensures
        r == drop_spot(map, avoid, around, radius),
{
    match r {
        Some(p) => {
            let q = choose|q: TilePos| first_drop(map, avoid, around, radius, Some(q));
            assert(first_drop(map, avoid, around, radius, Some(q)));
            let (dy1, dx1, k1) = choose|dy: int, dx: int, k: int|
                0 <= dy <= radius && 0 <= dx <= radius && 0 <= k < 4 && p == drop_probe(around, dx, dy, k)
                    && drop_ok(map, avoid, p) && (forall|dy2: int, dx2: int, k2: int|
                    0 <= dy2 <= radius && 0 <= dx2 <= radius && 0 <= k2 < 4 && probe_before(dy2, dx2, k2, dy, dx, k)
                        ==> !drop_ok(map, avoid, #[trigger] drop_probe(around, dx2, dy2, k2)));
            let (dy2, dx2, k2) = choose|dy: int, dx: int, k: int|
                0 <= dy <= radius && 0 <= dx <= radius && 0 <= k < 4 && q == drop_probe(around, dx, dy, k)
                    && drop_ok(map, avoid, q) && (forall|dy3: int, dx3: int, k3: int|
                    0 <= dy3 <= radius && 0 <= dx3 <= radius && 0 <= k3 < 4 && probe_before(dy3, dx3, k3, dy, dx, k)
                        ==> !drop_ok(map, avoid, #[trigger] drop_probe(around, dx3, dy3, k3)));
            if probe_before(dy1, dx1, k1, dy2, dx2, k2) {
                assert(!drop_ok(map, avoid, drop_probe(around, dx1, dy1, k1)));
            } else if probe_before(dy2, dx2, k2, dy1, dx1, k1) {
                assert(!drop_ok(map, avoid, drop_probe(around, dx2, dy2, k2)));
            }
        },
        None => {
            if exists|p: TilePos| first_drop(map, avoid, around, radius, Some(p)) {
                let p = choose|p: TilePos| first_drop(map, avoid, around, radius, Some(p));
                let (dy1, dx1, k1) = choose|dy: int, dx: int, k: int|
                    0 <= dy <= radius && 0 <= dx <= radius && 0 <= k < 4 && p == drop_probe(around, dx, dy, k)
                        && drop_ok(map, avoid, p);
                assert(!drop_ok(map, avoid, drop_probe(around, dx1, dy1, k1)));
            }
        },
    }
}

fn tile_in(list: &[TilePos], p: TilePos) -> (r: bool)
    ensures
        r == list@.contains(p),
{
    let mut i: usize = 0;
    while i < list.len()
        invariant
            0 <= i <= list@.len(),
            forall|j: int| 0 <= j < i ==> list@[j] != p,
        decreases list@.len() - i,
    {
        if list[i] == p {
            return true;
        }
        i = i + 1;
    }
    false
}

fn drop_search(map: &ShipMap, around: TilePos, avoid: &[TilePos], radius: i32) -> (r: Option<TilePos>)
    requires
        map.wf(),
        0 <= radius <= 3,
        i32::MIN + 3 <= around.x <= i32::MAX - 3,
        i32::MIN + 3 <= around.y <= i32::MAX - 3,
    ensures
        first_drop(map, avoid@, around, radius as int, r),
{
    let mut dy: i32 = 0;
    while dy <= radius
        invariant
            map.wf(),
            0 <= radius <= 3,
            0 <= dy <= radius + 1,
            i32::MIN + 3 <= around.x <= i32::MAX - 3,
            i32::MIN + 3 <= around.y <= i32::MAX - 3,
            forall|dy2: int, dx2: int, k2: int|
                0 <= dy2 < dy && 0 <= dx2 <= radius && 0 <= k2 < 4 ==> !drop_ok(
                    map,
                    avoid@,
                    #[trigger] drop_probe(around, dx2, dy2, k2),
                ),
        decreases radius + 1 - dy,
    {
        let mut dx: i32 = 0;
        while dx <= radius
            invariant
                map.wf(),
                0 <= radius <= 3,
                0 <= dy <= radius,
                0 <= dx <= radius + 1,
                i32::MIN + 3 <= around.x <= i32::MAX - 3,
                i32::MIN + 3 <= around.y <= i32::MAX - 3,
                forall|dy2: int, dx2: int, k2: int|
                    0 <= dy2 <= radius && 0 <= dx2 <= radius && 0 <= k2 < 4 && (dy2 < dy || (dy2
                        == dy && dx2 < dx)) ==> !drop_ok(
                        map,
                        avoid@,
                        #[trigger] drop_probe(around, dx2, dy2, k2),
                    ),
            decreases radius + 1 - dx,
        {
            let probes = [
                TilePos::new(around.x + dx, around.y + dy),
                TilePos::new(around.x - dx, around.y + dy),
                TilePos::new(around.x + dx, around.y - dy),
                TilePos::new(around.x - dx, around.y - dy),
            ];
            let mut k: usize = 0;
            while k < 4
                invariant
                    map.wf(),
                    0 <= radius <= 3,
                    0 <= dy <= radius,
                    0 <= dx <= radius,
                    0 <= k <= 4,
                    forall|kk: int| 0 <= kk < 4 ==> probes@[kk] == drop_probe(around, dx as int, dy as int, kk),
                    forall|dy2: int, dx2: int, k2: int|
                        0 <= dy2 <= radius && 0 <= dx2 <= radius && 0 <= k2 < 4 && (dy2 < dy || (dy2
                            == dy && dx2 < dx) || (dy2 == dy && dx2 == dx && k2 < k)) ==> !drop_ok(
                            map,
                            avoid@,
                            #[trigger] drop_probe(around, dx2, dy2, k2),
                        ),
                decreases 4 - k,
            {
                let p = probes[k];
                if map.is_walkable(p) && !tile_in(avoid, p) {
                    proof {
                        assert(drop_ok(map, avoid@, drop_probe(around, dx as int, dy as int, k as int)));
                    }
                    return Some(p);
                }
                k = k + 1;
            }
            dx = dx + 1;
        }
        dy = dy + 1;
    }
    None
}

/// Find a free floor tile near `around` for dropping an item, avoiding rack
/// tiles. Prefers `around` itself, then scans outward in a small square
/// (offsets up to 2).
pub fn find_drop_tile(map: &ShipMap, around: TilePos, racks: &[TilePos]) -> (r: Option<TilePos>)
    requires
        map.wf(),
        i32::MIN + 3 <= around.x <= i32::MAX - 3,
        i32::MIN + 3 <= around.y <= i32::MAX - 3,
    ensures
        first_drop(map, racks@, around, 2, r),
        r == drop_spot(map, racks@, around, 2),
{
    let r = drop_search(map, around, racks, 2);
    proof {
        lemma_first_drop_unique(map, racks@, around, 2, r);
    }
    r
}

/// Like [`find_drop_tile`] but with a plain list of tiles to avoid and
/// offsets up to 3 (used when spawning several refund items at once).
pub fn find_drop_tile_ext(map: &ShipMap, around: TilePos, occupied: &[TilePos]) -> (r: Option<TilePos>)
    requires
        map.wf(),
        i32::MIN + 3 <= around.x <= i32::MAX - 3,
        i32::MIN + 3 <= around.y <= i32::MAX - 3,
    ensures
        first_drop(map, occupied@, around, 3, r),
        r == drop_spot(map, occupied@, around, 3),
{
    let r = drop_search(map, around, occupied, 3);
    proof {
        lemma_first_drop_unique(map, occupied@, around, 3, r);
    }
    r
}

} // verus!
