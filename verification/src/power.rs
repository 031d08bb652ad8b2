//! Ship power: an underfloor cable grid with real topology.
//!
//! Cables live in a dense grid layer parallel to `ShipMap` — they never
//! block ground movement and may share tiles with any floor-side content.
//! Devices (generators / consumers) attach to a cable network through their
//! "power interface": any cable tile on their footprint or directly adjacent
//! to it.
//!
//! Networks are derived data: the cable layer is flood-filled into connected
//! regions, devices attach (a device touching several regions joins them),
//! and per-network generation/demand/served is computed. Consumers whose
//! demand cannot be served are shed in a deterministic order (lower device
//! id ≈ older build keeps power).

use crate::building::{
    beside_foot, candidate_seq, candidate_tiles, contains_pos, fp_contains, fp_ok, kept_unique, lemma_candidate_contains,
    lemma_kept_unique, Footprint,
};
use crate::graph::{edge, label_components, labels_components, lemma_linked_same_label, linked, NO_LABEL};
use crate::grid::{grid_adj, grid_graph, lemma_grid_adj};
use crate::map::{cell_index, in_grid, lemma_cell_index_bounds, lemma_cell_index_injective, ShipMap, TilePos};
use crate::text::{dec, push_chars, push_dec, string_of};
use vstd::prelude::*;

verus! {

/// Starter Reactor maximum output (abstract power units).
pub const REACTOR_OUTPUT: u32 = 100;

/// Fabricator draw while connected.
pub const FABRICATOR_DEMAND: u32 = 20;

/// A device's part on the grid: generator (rated output, on/off) or consumer.
#[derive(Clone, Copy, PartialEq, Eq, Structural, Debug)]
pub enum PowerRole {
    Generator { output: u32, on: bool },
    Consumer { demand: u32 },
}

impl PowerRole {
    pub fn generator() -> (r: Self)
        ensures
            r == (PowerRole::Generator { output: REACTOR_OUTPUT, on: true }),
    {
        PowerRole::Generator { output: REACTOR_OUTPUT, on: true }
    }

    pub fn consumer(demand: u32) -> (r: Self)
        ensures
            r == (PowerRole::Consumer { demand }),
    {
        PowerRole::Consumer { demand }
    }
}

/// Current supply situation of one device.
#[derive(Clone, Copy, PartialEq, Eq, Structural, Debug)]
pub enum PowerStatus {
    /// No cable at the device's power interface.
    Unconnected,
    /// Connected, but the network has no online generation.
    NoGenerator,
    /// Connected, but the network cannot serve this device (overload shed).
    Shed,
    /// Connected and served.
    Powered,
}

impl Default for PowerStatus {
    fn default() -> (r: Self)
        ensures
            r == PowerStatus::Unconnected,
    {
        PowerStatus::Unconnected
    }
}

impl PowerStatus {
    pub fn ok(self) -> (r: bool)
        ensures
            r == (self == PowerStatus::Powered),
    {
        self == PowerStatus::Powered
    }

    pub fn label(self) -> (r: &'static str)
        ensures
            self == PowerStatus::Unconnected ==> r@ == "no cable"@,
            self == PowerStatus::NoGenerator ==> r@ == "no generator"@,
            self == PowerStatus::Shed ==> r@ == "power shortage"@,
            self == PowerStatus::Powered ==> r@ == "powered"@,
    {
        match self {
            PowerStatus::Unconnected => "no cable",
            PowerStatus::NoGenerator => "no generator",
            PowerStatus::Shed => "power shortage",
            PowerStatus::Powered => "powered",
        }
    }
}

/// Dense underfloor cable layer. `true` = cable present on that tile.
/// Mutating it bumps `version` so the overlay knows when to redraw.
pub struct CableGrid {
    pub width: i32,
    pub height: i32,
    pub cells: Vec<bool>,
    pub version: u64,
}

impl CableGrid {
    pub open spec fn wf(&self) -> bool {
        &&& 0 <= self.width
        &&& 0 <= self.height
        &&& self.width * self.height <= i32::MAX
        &&& self.cells@.len() == self.width * self.height
    }

    pub open spec fn spec_in_bounds(&self, p: TilePos) -> bool {
        in_grid(self.width as int, self.height as int, p.x as int, p.y as int)
    }

    /// A cable lies on `p`.
    pub open spec fn spec_has(&self, p: TilePos) -> bool {
        self.spec_in_bounds(p) && self.cells@[cell_index(self.width as int, p.x as int, p.y as int)]
    }

    pub fn new(width: i32, height: i32) -> (r: Self)
        requires
            0 <= width,
            0 <= height,
            width * height <= i32::MAX,
        ensures
            r.wf(),
            r.width == width,
            r.height == height,
            r.version == 0,
            forall|p: TilePos| !(#[trigger] r.spec_has(p)),
    {
        let n = (width * height) as usize;
        let r = CableGrid { width, height, cells: vec![false; n], version: 0 };
        assert forall|p: TilePos| !(#[trigger] r.spec_has(p)) by {
            if r.spec_in_bounds(p) {
                lemma_cell_index_bounds(width as int, height as int, p.x as int, p.y as int);
            }
        }
        r
    }

    pub fn in_bounds(&self, p: TilePos) -> (r: bool)
        ensures
            r == self.spec_in_bounds(p),
    {
        p.x >= 0 && p.y >= 0 && p.x < self.width && p.y < self.height
    }

    pub fn has(&self, p: TilePos) -> (r: bool)
        requires
            self.wf(),
        ensures
            r == self.spec_has(p),
    {
        if !self.in_bounds(p) {
            return false;
        }
        proof {
            lemma_cell_index_bounds(self.width as int, self.height as int, p.x as int, p.y as int);
        }
        self.cells[(p.y * self.width + p.x) as usize]
    }

    /// Place or remove a cable tile. Returns true when the grid changed; out
    /// of bounds and no-op writes change nothing.
    pub fn set(&mut self, p: TilePos, present: bool) -> (r: bool)
        requires
            old(self).wf(),
            old(self).version < u64::MAX,
        ensures
            final(self).wf(),
            final(self).width == old(self).width,
            final(self).height == old(self).height,
            r == (old(self).spec_in_bounds(p) && old(self).spec_has(p) != present),
            final(self).version == old(self).version + (if r { 1int } else { 0int }),
            final(self).spec_in_bounds(p) ==> final(self).spec_has(p) == present,
            forall|q: TilePos| q != p ==> #[trigger] final(self).spec_has(q) == old(self).spec_has(q),
    {
        if !self.in_bounds(p) {
            return false;
        }
        proof {
            lemma_cell_index_bounds(self.width as int, self.height as int, p.x as int, p.y as int);
        }
        let i = (p.y * self.width + p.x) as usize;
        if self.cells[i] == present {
            return false;
        }
        self.cells.set(i, present);
        self.version = self.version + 1;
        proof {
            assert forall|q: TilePos| q != p implies #[trigger] self.spec_has(q) == old(self).spec_has(q) by {
                if self.spec_in_bounds(q) {
                    lemma_cell_index_bounds(self.width as int, self.height as int, q.x as int, q.y as int);
                    if cell_index(self.width as int, q.x as int, q.y as int) == i {
                        lemma_cell_index_injective(self.width as int, q.x as int, q.y as int, p.x as int, p.y as int);
                    }
                }
            }
        }
        true
    }

    /// Every cable tile, in row-major order.
    pub fn iter_cables(&self) -> (r: Vec<TilePos>)
        requires
            self.wf(),
        ensures
            forall|p: TilePos| r@.contains(p) <==> #[trigger] self.spec_has(p),
            forall|i: int, j: int|
                0 <= i < j < r@.len() ==> cell_index(self.width as int, r@[i].x as int, r@[i].y as int)
                    < cell_index(self.width as int, r@[j].x as int, r@[j].y as int),
    {
        let mut out: Vec<TilePos> = Vec::new();
        let ghost w = self.width as int;
        let n: usize = (self.width * self.height) as usize;
        let mut idx: usize = 0;
        while idx < n
            invariant
                self.wf(),
                w == self.width,
                n == self.width * self.height,
                0 <= idx <= n,
                forall|p: TilePos|
                    #![trigger out@.contains(p)]
                    #![trigger self.spec_has(p)]
                    out@.contains(p) <==> (self.spec_has(p) && cell_index(w, p.x as int, p.y as int) < idx),
                forall|i: int, j: int|
                    0 <= i < j < out@.len() ==> cell_index(w, out@[i].x as int, out@[i].y as int) < cell_index(
                        w,
                        out@[j].x as int,
                        out@[j].y as int,
                    ),
                forall|i: int|
                    0 <= i < out@.len() ==> self.spec_has(#[trigger] out@[i]) && cell_index(
                        w,
                        out@[i].x as int,
                        out@[i].y as int,
                    ) < idx,
            decreases n - idx,
        {
            let wu = self.width as usize;
            assert(wu > 0) by (nonlinear_arith)
                requires
                    idx < n,
                    n == w * self.height,
                    wu == w,
                    0 <= self.height,
            ;
            let x = idx % wu;
            let y = idx / wu;
            proof {
                assert(y * w + x == idx && 0 <= x < w && 0 <= y < self.height) by (nonlinear_arith)
                    requires
                        x == idx % wu,
                        y == idx / wu,
                        wu == w,
                        w > 0,
                        idx < n,
                        n == w * self.height,
                ;
            }
            let p = TilePos::new(x as i32, y as i32);
            let ghost before = out@;
            let present = self.has(p);
            if present {
                out.push(p);
            }
            proof {
                assert(cell_index(w, p.x as int, p.y as int) == idx);
                assert forall|q: TilePos|
                    #![trigger out@.contains(q)]
                    #![trigger self.spec_has(q)]
                    out@.contains(q) <==> (self.spec_has(q) && cell_index(w, q.x as int, q.y as int) < idx + 1) by {
                    if self.spec_has(q) && cell_index(w, q.x as int, q.y as int) == idx {
                        lemma_cell_index_injective(w, q.x as int, q.y as int, p.x as int, p.y as int);
                        assert(q == p);
                    }
                    if out@.contains(q) && q != p {
                        let k = choose|k: int| 0 <= k < out@.len() && out@[k] == q;
                        assert(before[k] == q);
                    }
                    if self.spec_has(q) && cell_index(w, q.x as int, q.y as int) < idx {
                        assert(before.contains(q));
                        let k = choose|k: int| 0 <= k < before.len() && before[k] == q;
                        assert(out@[k] == q);
                    }
                    if q == p && present {
                        assert(out@[out@.len() - 1] == q);
                    }
                }
                assert forall|i: int, j: int|
                    0 <= i < j < out@.len() implies cell_index(w, out@[i].x as int, out@[i].y as int) < cell_index(
                        w,
                        out@[j].x as int,
                        out@[j].y as int,
                    ) by {
                    assert(out@[i] == before[i]);
                    assert(self.spec_has(before[i]));
                    if j < before.len() {
                        assert(out@[j] == before[j]);
                        assert(cell_index(w, before[i].x as int, before[i].y as int) < cell_index(
                            w,
                            before[j].x as int,
                            before[j].y as int,
                        ));
                    }
                }
                assert forall|i: int|
                    0 <= i < out@.len() implies self.spec_has(#[trigger] out@[i]) && cell_index(
                        w,
                        out@[i].x as int,
                        out@[i].y as int,
                    ) < idx + 1 by {
                    if i < before.len() {
                        assert(out@[i] == before[i]);
                        assert(self.spec_has(before[i]));
                    }
                }
            }
            idx = idx + 1;
        }
        proof {
            assert forall|p: TilePos| out@.contains(p) <==> #[trigger] self.spec_has(p) by {
                if self.spec_has(p) {
                    lemma_cell_index_bounds(w, self.height as int, p.x as int, p.y as int);
                }
            }
        }
        out
    }
}

/// Derived per-network summary for UI/diagnostics.
#[derive(Clone, Copy, PartialEq, Eq, Structural, Debug)]
pub struct NetworkInfo {
    pub generation: u32,
    pub demand: u32,
    pub served: u32,
    pub generators: u32,
    pub consumers: u32,
}

impl Default for NetworkInfo {
    fn default() -> (r: Self)
        ensures
            r == (NetworkInfo { generation: 0, demand: 0, served: 0, generators: 0, consumers: 0 }),
    {
        NetworkInfo { generation: 0, demand: 0, served: 0, generators: 0, consumers: 0 }
    }
}

/// One-line HUD summary of a network.
pub open spec fn summary_text(n: NetworkInfo) -> Seq<char> {
    if n.generators == 0 {
        "gen 0 dem "@ + dec(n.demand as nat) + " — no generator"@
    } else if n.demand > n.generation {
        "gen "@ + dec(n.generation as nat) + " dem "@ + dec(n.demand as nat) + " served "@ + dec(
            n.served as nat,
        ) + " — DEFICIT "@ + dec((n.demand - n.served) as nat)
    } else {
        "gen "@ + dec(n.generation as nat) + " dem "@ + dec(n.demand as nat) + " served "@ + dec(
            n.served as nat,
        ) + " — headroom "@ + dec((n.generation - n.demand) as nat)
    }
}

impl NetworkInfo {
    pub fn headroom(self) -> (r: i64)
        ensures
            r == self.generation - self.demand,
    {
        self.generation as i64 - self.demand as i64
    }

    pub fn status_label(self) -> (r: &'static str)
        ensures
            self.generators == 0 ==> r@ == "No generator"@,
            self.generators != 0 && self.generation == 0 ==> r@ == "No generation (standby)"@,
            self.generators != 0 && self.generation != 0 && self.demand > self.generation ==> r@
                == "Insufficient power"@,
            self.generators != 0 && self.generation != 0 && self.demand <= self.generation ==> r@
                == "Stable"@,
    {
        if self.generators == 0 {
            "No generator"
        } else if self.generation == 0 {
            "No generation (standby)"
        } else if self.demand > self.generation {
            "Insufficient power"
        } else {
            "Stable"
        }
    }

    /// One-line summary safe for the player-facing HUD.
    pub fn summary(self) -> (r: String)
        requires
            self.served <= self.demand,
        ensures
            r@ == summary_text(self),
    {
        let mut out: Vec<char> = Vec::new();
        proof {
            reveal_strlit("gen 0 dem ");
            reveal_strlit(" — no generator");
            reveal_strlit("gen ");
            reveal_strlit(" dem ");
            reveal_strlit(" served ");
            reveal_strlit(" — DEFICIT ");
            reveal_strlit(" — headroom ");
        }
        if self.generators == 0 {
            push_chars(&mut out, &['g', 'e', 'n', ' ', '0', ' ', 'd', 'e', 'm', ' ']);
            push_dec(&mut out, self.demand as u64);
            push_chars(&mut out, &[' ', '—', ' ', 'n', 'o', ' ', 'g', 'e', 'n', 'e', 'r', 'a', 't', 'o', 'r']);
            assert(out@ =~= summary_text(self));
        } else {
            push_chars(&mut out, &['g', 'e', 'n', ' ']);
            push_dec(&mut out, self.generation as u64);
            push_chars(&mut out, &[' ', 'd', 'e', 'm', ' ']);
            push_dec(&mut out, self.demand as u64);
            push_chars(&mut out, &[' ', 's', 'e', 'r', 'v', 'e', 'd', ' ']);
            push_dec(&mut out, self.served as u64);
            if self.demand > self.generation {
                push_chars(&mut out, &[' ', '—', ' ', 'D', 'E', 'F', 'I', 'C', 'I', 'T', ' ']);
                push_dec(&mut out, (self.demand - self.served) as u64);
            } else {
                push_chars(&mut out, &[' ', '—', ' ', 'h', 'e', 'a', 'd', 'r', 'o', 'o', 'm', ' ']);
                push_dec(&mut out, (self.generation - self.demand) as u64);
            }
            assert(out@ =~= summary_text(self));
        }
        string_of(out)
    }
}


// =====================================================================================
// Cable regions
// =====================================================================================

/// The cable layer split into 4-connected regions. `labels` holds one entry
/// per grid cell (row-major): the cell's region, or `NO_LABEL` without a
/// cable.
pub struct CableRegions {
    pub width: i32,
    pub height: i32,
    pub labels: Vec<usize>,
    pub count: usize,
}

impl CableRegions {
    /// Region of the cable on `p`, if there is one.
    pub open spec fn spec_get(&self, p: TilePos) -> Option<usize> {
        if in_grid(self.width as int, self.height as int, p.x as int, p.y as int) && self.labels@[cell_index(
            self.width as int,
            p.x as int,
            p.y as int,
        )] != NO_LABEL {
            Some(self.labels@[cell_index(self.width as int, p.x as int, p.y as int)])
        } else {
            None
        }
    }

    pub open spec fn wf(&self) -> bool {
        &&& 0 <= self.width
        &&& 0 <= self.height
        &&& self.width * self.height <= i32::MAX
        &&& self.labels@.len() == self.width * self.height
    }

    pub fn get(&self, p: TilePos) -> (r: Option<usize>)
        requires
            self.wf(),
        ensures
            r == self.spec_get(p),
    {
        if p.x < 0 || p.y < 0 || p.x >= self.width || p.y >= self.height {
            return None;
        }
        proof {
            lemma_cell_index_bounds(self.width as int, self.height as int, p.x as int, p.y as int);
        }
        let l = self.labels[(p.y * self.width + p.x) as usize];
        if l == NO_LABEL {
            None
        } else {
            Some(l)
        }
    }
}

/// `r` is the region split of the cable layer: its cable cells are labelled
/// by 4-connected component, numbered in order of each region's first cell
/// in row-major order, and other cells carry `NO_LABEL`.
pub open spec fn regions_of(cables: &CableGrid, r: &CableRegions) -> bool {
    &&& r.width == cables.width
    &&& r.height == cables.height
    &&& r.wf()
    &&& labels_components(
        cables.cells@,
        grid_adj(cables.width as int, cables.height as int, cables.cells@),
        r.labels@,
        r.count as nat,
    )
}

/// Cable tiles joined by a chain of 4-adjacent cable tiles lie in one
/// region (with `regions_of`: regions are exactly the cable components).
pub proof fn lemma_cable_chain_same_region(cables: &CableGrid, r: &CableRegions, u: int, v: int)
    requires
        regions_of(cables, r),
        linked(grid_adj(cables.width as int, cables.height as int, cables.cells@), u, v),
    ensures
        r.labels@[u] == r.labels@[v],
{
    lemma_linked_same_label(
        cables.cells@,
        grid_adj(cables.width as int, cables.height as int, cables.cells@),
        r.labels@,
        r.count as nat,
        u,
        v,
    );
}

/// Connected cable regions (4-neighbour flood fill).
pub fn flood_regions(cables: &CableGrid) -> (r: CableRegions)
    requires
        cables.wf(),
    ensures
        regions_of(cables, &r),
{
    let adj = grid_graph(cables.width, cables.height, &cables.cells);
    proof {
        lemma_grid_adj(cables.width as int, cables.height as int, cables.cells@);
    }
    let (labels, count) = label_components(&cables.cells, &adj);
    CableRegions { width: cables.width, height: cables.height, labels, count }
}

/// The tiles of a device's power interface: its footprint tiles, then the
/// in-bounds orthogonal neighbours, without repeats.
pub open spec fn interface_seq(map: &ShipMap, foot: Footprint) -> Seq<TilePos> {
    kept_unique(
        |p: TilePos| fp_contains(foot, p) || map.spec_in_bounds(p),
        candidate_seq(foot),
        candidate_seq(foot).len() as int,
    )
}

/// The device-side power interface: footprint tiles plus their 4-adjacent
/// perimeter. A device attaches to the network of any cable found there.
pub fn interface_tiles(map: &ShipMap, foot: &Footprint) -> (r: Vec<TilePos>)
    requires
        map.wf(),
        fp_ok(*foot),
    ensures
        r@ == interface_seq(map, *foot),
        r@.no_duplicates(),
        forall|p: TilePos|
            r@.contains(p) <==> (fp_contains(*foot, p) || (map.spec_in_bounds(p) && beside_foot(*foot, p))),
{
    let cands = candidate_tiles(foot);
    let ghost keep = |p: TilePos| fp_contains(*foot, p) || map.spec_in_bounds(p);
    let mut out: Vec<TilePos> = Vec::new();
    let mut i: usize = 0;
    while i < cands.len()
        invariant
            map.wf(),
            fp_ok(*foot),
            keep == (|p: TilePos| fp_contains(*foot, p) || map.spec_in_bounds(p)),
            0 <= i <= cands@.len(),
            out@ == kept_unique(keep, cands@, i as int),
        decreases cands@.len() - i,
    {
        let c = cands[i];
        if (foot.contains(c) || map.in_bounds(c)) && !contains_pos(out.as_slice(), c) {
            out.push(c);
        }
        i = i + 1;
    }
    proof {
        let s = cands@;
        lemma_kept_unique(keep, s, s.len() as int);
        assert(s.subrange(0, s.len() as int) =~= s);
        assert forall|p: TilePos|
            out@.contains(p) <==> (fp_contains(*foot, p) || (map.spec_in_bounds(p) && beside_foot(*foot, p))) by {
            lemma_candidate_contains(*foot, p);
        }
    }
    out
}

/// Region of the first tile of `tiles[k..]` whose cable has a region.
pub open spec fn first_region(cables: &CableGrid, regions: &CableRegions, tiles: Seq<TilePos>, k: int) -> Option<
    usize,
>
    decreases tiles.len() - k,
{
    if k < 0 || k >= tiles.len() {
        None
    } else if cables.spec_has(tiles[k]) && regions.spec_get(tiles[k]) is Some {
        regions.spec_get(tiles[k])
    } else {
        first_region(cables, regions, tiles, k + 1)
    }
}

/// A device's network id, if any cable touches its power interface: the
/// region of the first interface tile with a cable.
pub fn network_of(cables: &CableGrid, regions: &CableRegions, map: &ShipMap, foot: &Footprint) -> (r: Option<usize>)
    requires
        cables.wf(),
        regions.wf(),
        map.wf(),
        fp_ok(*foot),
    ensures
        r == first_region(cables, regions, interface_seq(map, *foot), 0),
{
    let tiles = interface_tiles(map, foot);
    let mut k: usize = 0;
    while k < tiles.len()
        invariant
            cables.wf(),
            regions.wf(),
            tiles@ == interface_seq(map, *foot),
            0 <= k <= tiles@.len(),
            first_region(cables, regions, tiles@, 0) == first_region(cables, regions, tiles@, k as int),
        decreases tiles@.len() - k,
    {
        let t = tiles[k];
        if cables.has(t) {
            match regions.get(t) {
                Some(g) => {
                    return Some(g);
                },
                None => {},
            }
        }
        k = k + 1;
    }
    None
}


// =====================================================================================
// Networks, totals and load shedding
// =====================================================================================

/// A device as the power model sees it: a stable id (older devices have
/// smaller ids), its footprint and its role.
#[derive(Clone, Copy, PartialEq, Eq, Structural, Debug)]
pub struct PowerDevice {
    pub id: u64,
    pub foot: Footprint,
    pub role: PowerRole,
}

/// The power interface of a device with footprint `foot` reaches a cable of
/// region `g`.
pub open spec fn touches(map: &ShipMap, cables: &CableGrid, regions: &CableRegions, foot: Footprint, g: int) -> bool {
    exists|t: TilePos|
        #[trigger] interface_seq(map, foot).contains(t) && cables.spec_has(t) && regions.spec_get(t) == Some(
            g as usize,
        )
}

/// Edges of the bridge graph. Nodes `0..count` are cable regions, node
/// `count + d` is device `d`; a device is joined to every region its
/// interface touches, so regions bridged by a device share a network.
pub open spec fn bridge_edge(
    map: &ShipMap,
    cables: &CableGrid,
    regions: &CableRegions,
    devs: Seq<PowerDevice>,
    u: int,
    v: int,
) -> bool {
    let c = regions.count as int;
    ||| (0 <= u < c && c <= v < c + devs.len() && touches(map, cables, regions, devs[v - c].foot, u))
    ||| (0 <= v < c && c <= u < c + devs.len() && touches(map, cables, regions, devs[u - c].foot, v))
}

/// Nodes of the bridge graph that take part: every region, and each device
/// that touches some region.
pub open spec fn bridge_active(map: &ShipMap, cables: &CableGrid, regions: &CableRegions, devs: Seq<PowerDevice>) -> Seq<
    bool,
> {
    let c = regions.count as int;
    Seq::new(
        (c + devs.len()) as nat,
        |i: int| i < c || exists|g: int| 0 <= g < c && #[trigger] touches(map, cables, regions, devs[i - c].foot, g),
    )
}

/// `region_net` numbers the networks: regions joined through devices share
/// a number, and networks are numbered in order of their first region.
pub open spec fn networks_of(
    map: &ShipMap,
    cables: &CableGrid,
    regions: &CableRegions,
    devs: Seq<PowerDevice>,
    region_net: Seq<usize>,
    net_count: nat,
) -> bool {
    exists|adj: Seq<Seq<usize>>, lab: Seq<usize>|
        {
            &&& adj.len() == regions.count + devs.len()
            &&& forall|u: int, v: int| #[trigger] edge(adj, u, v) <==> bridge_edge(map, cables, regions, devs, u, v)
            &&& labels_components(bridge_active(map, cables, regions, devs), adj, lab, net_count)
            &&& region_net == lab.subrange(0, regions.count as int)
        }
}

/// `a` is served before `b`: smaller id first, ties by position.
pub open spec fn served_first(devs: Seq<PowerDevice>, a: int, b: int) -> bool {
    devs[a].id < devs[b].id || (devs[a].id == devs[b].id && a < b)
}

/// Per-role contribution picked by `f`, summed over the devices `0..k`
/// attached to network `g`.
pub open spec fn net_sum(devs: Seq<PowerDevice>, dnet: Seq<Option<usize>>, g: int, f: spec_fn(PowerRole) -> int, k: int) -> int
    decreases k,
{
    if k <= 0 {
        0
    } else {
        net_sum(devs, dnet, g, f, k - 1) + if dnet[k - 1] == Some(g as usize) {
            f(devs[k - 1].role)
        } else {
            0
        }
    }
}

pub open spec fn gen_output(r: PowerRole) -> int {
    match r {
        PowerRole::Generator { output, on } => if on {
            output as int
        } else {
            0
        },
        _ => 0,
    }
}

pub open spec fn consumer_demand(r: PowerRole) -> int {
    match r {
        PowerRole::Consumer { demand } => demand as int,
        _ => 0,
    }
}

pub open spec fn is_generator(r: PowerRole) -> int {
    if r is Generator {
        1
    } else {
        0
    }
}

pub open spec fn is_consumer(r: PowerRole) -> int {
    if r is Consumer {
        1
    } else {
        0
    }
}

/// Rated output plus demand of a role.
pub open spec fn role_load(r: PowerRole) -> int {
    match r {
        PowerRole::Generator { output, .. } => output as int,
        PowerRole::Consumer { demand } => demand as int,
    }
}

/// Sum of `role_load` over devices `0..k`.
pub open spec fn total_load(devs: Seq<PowerDevice>, k: int) -> int
    decreases k,
{
    if k <= 0 {
        0
    } else {
        total_load(devs, k - 1) + role_load(devs[k - 1].role)
    }
}

/// Contribution of device `j` to the powered demand on network `g`, counted
/// only where `incl(j)`.
pub open spec fn use_term(
    devs: Seq<PowerDevice>,
    dnet: Seq<Option<usize>>,
    status: Seq<PowerStatus>,
    g: int,
    incl: spec_fn(int) -> bool,
    j: int,
) -> int {
    if incl(j) && dnet[j] == Some(g as usize) && status[j] == PowerStatus::Powered {
        consumer_demand(devs[j].role)
    } else {
        0
    }
}

/// Powered consumer demand on network `g` over devices `0..k` selected by
/// `incl`.
pub open spec fn powered_use(
    devs: Seq<PowerDevice>,
    dnet: Seq<Option<usize>>,
    status: Seq<PowerStatus>,
    g: int,
    incl: spec_fn(int) -> bool,
    k: int,
) -> int
    decreases k,
{
    if k <= 0 {
        0
    } else {
        powered_use(devs, dnet, status, g, incl, k - 1) + use_term(devs, dnet, status, g, incl, k - 1)
    }
}

/// The status the shedding rule gives device `d`: unconnected without a
/// network; generators always run; a consumer gets `NoGenerator` on a
/// network without output, else power if what the consumers served before
/// it left enough, else `Shed`.
pub open spec fn expected_status(
    devs: Seq<PowerDevice>,
    dnet: Seq<Option<usize>>,
    nets: Seq<NetworkInfo>,
    status: Seq<PowerStatus>,
    d: int,
) -> PowerStatus {
    match dnet[d] {
        None => PowerStatus::Unconnected,
        Some(g) => match devs[d].role {
            PowerRole::Generator { .. } => PowerStatus::Powered,
            PowerRole::Consumer { demand } => if nets[g as int].generation == 0 {
                PowerStatus::NoGenerator
            } else if nets[g as int].generation - powered_use(
                devs,
                dnet,
                status,
                g as int,
                |j: int| served_first(devs, j, d),
                devs.len() as int,
            ) >= demand {
                PowerStatus::Powered
            } else {
                PowerStatus::Shed
            },
        },
    }
}

/// The totals of network `g`.
pub open spec fn net_info_ok(
    devs: Seq<PowerDevice>,
    dnet: Seq<Option<usize>>,
    status: Seq<PowerStatus>,
    g: int,
    n: NetworkInfo,
) -> bool {
    let k = devs.len() as int;
    &&& n.generation == net_sum(devs, dnet, g, |r: PowerRole| gen_output(r), k)
    &&& n.demand == net_sum(devs, dnet, g, |r: PowerRole| consumer_demand(r), k)
    &&& n.generators == net_sum(devs, dnet, g, |r: PowerRole| is_generator(r), k)
    &&& n.consumers == net_sum(devs, dnet, g, |r: PowerRole| is_consumer(r), k)
    &&& n.served == powered_use(devs, dnet, status, g, |j: int| true, k)
}

/// The whole power model, recomputed from the cable layer and the devices.
pub struct PowerSolution {
    pub regions: CableRegions,
    /// Network of each cable region.
    pub region_net: Vec<usize>,
    pub networks: Vec<NetworkInfo>,
    /// Network of each device (by position), `None` when unconnected.
    pub device_net: Vec<Option<usize>>,
    /// Supply status of each device (by position).
    pub status: Vec<PowerStatus>,
}

pub open spec fn solution_ok(map: &ShipMap, cables: &CableGrid, devs: Seq<PowerDevice>, s: &PowerSolution) -> bool {
    &&& regions_of(cables, &s.regions)
    &&& networks_of(map, cables, &s.regions, devs, s.region_net@, s.networks@.len())
    &&& s.device_net@.len() == devs.len()
    &&& s.status@.len() == devs.len()
    &&& forall|d: int|
        0 <= d < devs.len() ==> #[trigger] s.device_net@[d] == match first_region(
            cables,
            &s.regions,
            interface_seq(map, devs[d].foot),
            0,
        ) {
            Some(g) => Some(s.region_net@[g as int]),
            None => None,
        }
    &&& forall|g: int|
        0 <= g < s.networks@.len() ==> net_info_ok(devs, s.device_net@, s.status@, g, #[trigger] s.networks@[g])
    &&& forall|d: int|
        0 <= d < devs.len() ==> #[trigger] s.status@[d] == expected_status(
            devs,
            s.device_net@,
            s.networks@,
            s.status@,
            d,
        )
}


/// A cable's region number is below the region count.
pub proof fn lemma_region_bound(cables: &CableGrid, regions: &CableRegions, t: TilePos)
    requires
        cables.wf(),
        regions_of(cables, regions),
        regions.spec_get(t) is Some,
    ensures
        (regions.spec_get(t)->0) < regions.count,
{
    let i = cell_index(regions.width as int, t.x as int, t.y as int);
    lemma_cell_index_bounds(regions.width as int, regions.height as int, t.x as int, t.y as int);
    assert(regions.labels@[i] != NO_LABEL);
}

pub proof fn lemma_first_region_bound(cables: &CableGrid, regions: &CableRegions, tiles: Seq<TilePos>, k: int)
    requires
        cables.wf(),
        regions_of(cables, regions),
        first_region(cables, regions, tiles, k) is Some,
    ensures
        (first_region(cables, regions, tiles, k)->0) < regions.count,
        exists|t: TilePos|
            #[trigger] tiles.contains(t) && cables.spec_has(t) && regions.spec_get(t) == first_region(
                cables,
                regions,
                tiles,
                k,
            ),
    decreases tiles.len() - k,
{
    if cables.spec_has(tiles[k]) && regions.spec_get(tiles[k]) is Some {
        lemma_region_bound(cables, regions, tiles[k]);
        assert(tiles.contains(tiles[k]));
    } else {
        lemma_first_region_bound(cables, regions, tiles, k + 1);
    }
}

/// The distinct regions touched by a device's power interface.
fn touched_regions(cables: &CableGrid, regions: &CableRegions, map: &ShipMap, foot: &Footprint) -> (r: Vec<usize>)
    requires
        cables.wf(),
        regions.wf(),
        map.wf(),
        fp_ok(*foot),
    ensures
        forall|g: usize| #[trigger] r@.contains(g) <==> touches(map, cables, regions, *foot, g as int),
{
    let tiles = interface_tiles(map, foot);
    let mut out: Vec<usize> = Vec::new();
    let mut k: usize = 0;
    while k < tiles.len()
        invariant
            cables.wf(),
            regions.wf(),
            tiles@ == interface_seq(map, *foot),
            0 <= k <= tiles@.len(),
            forall|g: usize|
                #[trigger] out@.contains(g) <==> exists|q: int|
                    0 <= q < k && cables.spec_has(tiles@[q]) && #[trigger] regions.spec_get(tiles@[q]) == Some(g),
        decreases tiles@.len() - k,
    {
        let t = tiles[k];
        let ghost before = out@;
        if cables.has(t) {
            match regions.get(t) {
                Some(g) => {
                    if !contains_usize(&out, g) {
                        out.push(g);
                    }
                },
                None => {},
            }
        }
        proof {
            assert forall|g: usize|
                #[trigger] out@.contains(g) <==> exists|q: int|
                    0 <= q < k + 1 && cables.spec_has(tiles@[q]) && #[trigger] regions.spec_get(tiles@[q]) == Some(g) by {
                if out@.contains(g) {
                    let m = choose|m: int| 0 <= m < out@.len() && out@[m] == g;
                    if m < before.len() {
                        assert(before[m] == g);
                        assert(before.contains(g));
                    } else {
                        assert(regions.spec_get(tiles@[k as int]) == Some(g));
                    }
                }
                if exists|q: int|
                    0 <= q < k + 1 && cables.spec_has(tiles@[q]) && #[trigger] regions.spec_get(tiles@[q]) == Some(g) {
                    let q = choose|q: int|
                        0 <= q < k + 1 && cables.spec_has(tiles@[q]) && #[trigger] regions.spec_get(tiles@[q]) == Some(g);
                    if q < k {
                        assert(before.contains(g));
                        let m = choose|m: int| 0 <= m < before.len() && before[m] == g;
                        assert(out@[m] == g);
                    } else if before.contains(g) {
                        let m = choose|m: int| 0 <= m < before.len() && before[m] == g;
                        assert(out@[m] == g);
                    } else {
                        assert(out@[out@.len() - 1] == g);
                    }
                }
            }
        }
        k = k + 1;
    }
    proof {
        assert forall|g: usize| #[trigger] out@.contains(g) <==> touches(map, cables, regions, *foot, g as int) by {
            if out@.contains(g) {
                let q = choose|q: int|
                    0 <= q < k && cables.spec_has(tiles@[q]) && #[trigger] regions.spec_get(tiles@[q]) == Some(g);
                assert(tiles@.contains(tiles@[q]));
            }
            if touches(map, cables, regions, *foot, g as int) {
                let t = choose|t: TilePos|
                    #[trigger] interface_seq(map, *foot).contains(t) && cables.spec_has(t) && regions.spec_get(t)
                        == Some(g);
                let q = choose|q: int| 0 <= q < tiles@.len() && tiles@[q] == t;
                assert(regions.spec_get(tiles@[q]) == Some(g));
            }
        }
    }
    out
}

fn contains_usize(list: &Vec<usize>, x: usize) -> (r: bool)
    ensures
        r == list@.contains(x),
{
    let mut i: usize = 0;
    while i < list.len()
        invariant
            0 <= i <= list@.len(),
            forall|j: int| 0 <= j < i ==> list@[j] != x,
        decreases list@.len() - i,
    {
        if list[i] == x {
            return true;
        }
        i = i + 1;
    }
    false
}


/// Sums with the same terms are equal.
proof fn lemma_use_cong(
    devs: Seq<PowerDevice>,
    dnet: Seq<Option<usize>>,
    s1: Seq<PowerStatus>,
    i1: spec_fn(int) -> bool,
    s2: Seq<PowerStatus>,
    i2: spec_fn(int) -> bool,
    g: int,
    k: int,
)
    requires
        forall|j: int| 0 <= j < k ==> use_term(devs, dnet, s1, g, i1, j) == use_term(devs, dnet, s2, g, i2, j),
    ensures
        powered_use(devs, dnet, s1, g, i1, k) == powered_use(devs, dnet, s2, g, i2, k),
    decreases k,
{
    if k > 0 {
        lemma_use_cong(devs, dnet, s1, i1, s2, i2, g, k - 1);
    }
}

/// Sums whose terms differ only at `c`, where the first has none.
proof fn lemma_use_split(
    devs: Seq<PowerDevice>,
    dnet: Seq<Option<usize>>,
    s1: Seq<PowerStatus>,
    i1: spec_fn(int) -> bool,
    s2: Seq<PowerStatus>,
    i2: spec_fn(int) -> bool,
    g: int,
    c: int,
    k: int,
)
    requires
        0 <= c,
        forall|j: int| 0 <= j < k && j != c ==> use_term(devs, dnet, s1, g, i1, j) == use_term(devs, dnet, s2, g, i2, j),
        use_term(devs, dnet, s1, g, i1, c) == 0,
    ensures
        powered_use(devs, dnet, s2, g, i2, k) == powered_use(devs, dnet, s1, g, i1, k) + if c < k {
            use_term(devs, dnet, s2, g, i2, c)
        } else {
            0
        },
    decreases k,
{
    if k > 0 {
        lemma_use_split(devs, dnet, s1, i1, s2, i2, g, c, k - 1);
    }
}

proof fn lemma_use_zero(
    devs: Seq<PowerDevice>,
    dnet: Seq<Option<usize>>,
    s: Seq<PowerStatus>,
    i: spec_fn(int) -> bool,
    g: int,
    k: int,
)
    requires
        forall|j: int| 0 <= j < k ==> use_term(devs, dnet, s, g, i, j) == 0,
    ensures
        powered_use(devs, dnet, s, g, i, k) == 0,
    decreases k,
{
    if k > 0 {
        lemma_use_zero(devs, dnet, s, i, g, k - 1);
    }
}

proof fn lemma_use_nonneg(
    devs: Seq<PowerDevice>,
    dnet: Seq<Option<usize>>,
    s: Seq<PowerStatus>,
    i: spec_fn(int) -> bool,
    g: int,
    k: int,
)
    ensures
        powered_use(devs, dnet, s, g, i, k) >= 0,
    decreases k,
{
    if k > 0 {
        lemma_use_nonneg(devs, dnet, s, i, g, k - 1);
    }
}

/// Powered demand never exceeds the demand of the consumers attached.
proof fn lemma_use_within_demand(
    devs: Seq<PowerDevice>,
    dnet: Seq<Option<usize>>,
    s: Seq<PowerStatus>,
    i: spec_fn(int) -> bool,
    g: int,
    k: int,
)
    ensures
        powered_use(devs, dnet, s, g, i, k) <= net_sum(devs, dnet, g, |r: PowerRole| consumer_demand(r), k),
    decreases k,
{
    if k > 0 {
        lemma_use_within_demand(devs, dnet, s, i, g, k - 1);
    }
}

/// Per-network sums of a share of each device's load stay within the
/// total load.
proof fn lemma_net_sum_bound(devs: Seq<PowerDevice>, dnet: Seq<Option<usize>>, g: int, f: spec_fn(PowerRole) -> int, k: int)
    requires
        forall|r: PowerRole| 0 <= #[trigger] f(r) <= role_load(r),
    ensures
        0 <= net_sum(devs, dnet, g, f, k) <= total_load(devs, k),
    decreases k,
{
    if k > 0 {
        lemma_net_sum_bound(devs, dnet, g, f, k - 1);
        assert(0 <= f(devs[k - 1].role) <= role_load(devs[k - 1].role));
    }
}

/// Per-network counts stay within the number of devices.
proof fn lemma_net_sum_count(devs: Seq<PowerDevice>, dnet: Seq<Option<usize>>, g: int, f: spec_fn(PowerRole) -> int, k: int)
    requires
        forall|r: PowerRole| 0 <= #[trigger] f(r) <= 1,
        k >= 0,
    ensures
        0 <= net_sum(devs, dnet, g, f, k) <= k,
    decreases k,
{
    if k > 0 {
        lemma_net_sum_count(devs, dnet, g, f, k - 1);
        assert(0 <= f(devs[k - 1].role) <= 1);
    }
}

proof fn lemma_total_load_mono(devs: Seq<PowerDevice>, a: int, b: int)
    requires
        0 <= a <= b,
    ensures
        0 <= total_load(devs, a) <= total_load(devs, b),
    decreases b,
{
    if b > a {
        lemma_total_load_mono(devs, a, b - 1);
    } else if a > 0 {
        lemma_total_load_mono(devs, a - 1, a - 1);
        lemma_total_load_mono(devs, 0, a - 1);
    }
}

/// Device positions in serving order: ids ascending, ties by position.
fn service_order(devices: &[PowerDevice]) -> (ord: Vec<usize>)
    ensures
        ord@.len() == devices@.len(),
        forall|j: int| 0 <= j < devices@.len() ==> #[trigger] ord@.contains(j as usize),
        forall|q: int| 0 <= q < ord@.len() ==> #[trigger] ord@[q] < devices@.len(),
        forall|a: int, b: int|
            0 <= a < b < ord@.len() ==> served_first(devices@, ord@[a] as int, ord@[b] as int),
{
    let ghost devs = devices@;
    let mut ord: Vec<usize> = Vec::new();
    let mut i: usize = 0;
    while i < devices.len()
        invariant
            devs == devices@,
            0 <= i <= devs.len(),
            ord@.len() == i,
            forall|j: int| 0 <= j < i ==> #[trigger] ord@.contains(j as usize),
            forall|q: int| 0 <= q < ord@.len() ==> #[trigger] ord@[q] < i,
            forall|a: int, b: int|
                0 <= a < b < ord@.len() ==> served_first(devs, ord@[a] as int, ord@[b] as int),
        decreases devs.len() - i,
    {
        let mut pos: usize = 0;
        while pos < ord.len() && !(devices[i].id < devices[ord[pos]].id)
            invariant
                devs == devices@,
                0 <= i < devs.len(),
                ord@.len() == i,
                0 <= pos <= ord@.len(),
                forall|q: int| 0 <= q < ord@.len() ==> #[trigger] ord@[q] < i,
                forall|q: int| 0 <= q < pos ==> served_first(devs, #[trigger] ord@[q] as int, i as int),
            decreases ord@.len() - pos,
        {
            pos = pos + 1;
        }
        let ghost before = ord@;
        ord.insert(pos, i);
        proof {
            assert(ord@ == before.insert(pos as int, i));
            assert forall|q: int| 0 <= q < ord@.len() implies #[trigger] ord@[q] < i + 1 by {
                if q < pos {
                    assert(ord@[q] == before[q]);
                } else if q > pos {
                    assert(ord@[q] == before[q - 1]);
                }
            }
            assert forall|j: int| 0 <= j < i + 1 implies #[trigger] ord@.contains(j as usize) by {
                if j < i {
                    assert(before.contains(j as usize));
                    let m = choose|m: int| 0 <= m < before.len() && before[m] == j as usize;
                    if m < pos {
                        assert(ord@[m] == j as usize);
                    } else {
                        assert(ord@[m + 1] == j as usize);
                    }
                } else {
                    assert(ord@[pos as int] == j as usize);
                }
            }
            assert forall|a: int, b: int| 0 <= a < b < ord@.len() implies served_first(
                devs,
                ord@[a] as int,
                ord@[b] as int,
            ) by {
                if pos < before.len() {
                    assert(served_first(devs, i as int, before[pos as int] as int));
                }
                if b < pos {
                    assert(ord@[a] == before[a] && ord@[b] == before[b]);
                } else if b == pos {
                    assert(ord@[a] == before[a]);
                    assert(served_first(devs, before[a] as int, i as int));
                } else if a < pos {
                    assert(ord@[a] == before[a] && ord@[b] == before[b - 1]);
                    assert(served_first(devs, before[a] as int, i as int));
                } else if a == pos {
                    assert(ord@[b] == before[b - 1]);
                    if b - 1 > pos {
                        assert(served_first(devs, before[pos as int] as int, before[b - 1] as int));
                    }
                } else {
                    assert(ord@[a] == before[a - 1] && ord@[b] == before[b - 1]);
                }
            }
        }
        i = i + 1;
    }
    ord
}


/// Networks: cable regions joined through the devices that touch them.
fn bridge_networks(map: &ShipMap, cables: &CableGrid, regions: &CableRegions, devices: &[PowerDevice]) -> (r: (
    Vec<usize>,
    usize,
))
    requires
        map.wf(),
        cables.wf(),
        regions_of(cables, regions),
        forall|d: int| 0 <= d < devices@.len() ==> fp_ok(#[trigger] devices@[d].foot),
        cables.width * cables.height + devices@.len() < usize::MAX,
    ensures
        networks_of(map, cables, regions, devices@, r.0@, r.1 as nat),
        r.0@.len() == regions.count,
        forall|g: int| 0 <= g < regions.count ==> #[trigger] r.0@[g] < r.1,
{
    let ghost devs = devices@;
    let c = regions.count;
    let n = devices.len();
    proof {
        assert(c <= cables.width * cables.height);
    }
    let mut adj: Vec<Vec<usize>> = Vec::new();
    let mut active: Vec<bool> = Vec::new();
    let mut g: usize = 0;
    while g < c
        invariant
            map.wf(),
            cables.wf(),
            regions_of(cables, regions),
            c == regions.count,
            n == devs.len(),
            devs == devices@,
            forall|d: int| 0 <= d < devs.len() ==> fp_ok(#[trigger] devs[d].foot),
            c + n < usize::MAX,
            0 <= g <= c,
            adj@.len() == g,
            active@.len() == g,
            forall|u: int| 0 <= u < g ==> #[trigger] active@[u],
            forall|u: int, v: int|
                0 <= u < g ==> (#[trigger] adj@[u]@.contains(v as usize) && 0 <= v <= usize::MAX <==> bridge_edge(
                    map,
                    cables,
                    regions,
                    devs,
                    u,
                    v,
                )),
            forall|u: int, k: int| 0 <= u < g && 0 <= k < adj@[u]@.len() ==> #[trigger] adj@[u]@[k] < c + n,
        decreases c - g,
    {
        let mut list: Vec<usize> = Vec::new();
        let mut d: usize = 0;
        while d < n
            invariant
                map.wf(),
                cables.wf(),
                regions_of(cables, regions),
                c == regions.count,
                n == devs.len(),
                devs == devices@,
                forall|d: int| 0 <= d < devs.len() ==> fp_ok(#[trigger] devs[d].foot),
                c + n < usize::MAX,
                0 <= g < c,
                0 <= d <= n,
                forall|v: int|
                    #[trigger] list@.contains(v as usize) && 0 <= v <= usize::MAX <==> (c <= v < c + d && touches(
                        map,
                        cables,
                        regions,
                        devs[v - c].foot,
                        g as int,
                    )),
                forall|k: int| 0 <= k < list@.len() ==> #[trigger] list@[k] < c + d,
            decreases n - d,
        {
            let t = touched_regions(cables, regions, map, &devices[d].foot);
            let ghost before = list@;
            if contains_usize(&t, g) {
                list.push(c + d);
            }
            proof {
                assert forall|v: int|
                    #[trigger] list@.contains(v as usize) && 0 <= v <= usize::MAX <==> (c <= v < c + d + 1 && touches(
                        map,
                        cables,
                        regions,
                        devs[v - c].foot,
                        g as int,
                    )) by {
                    if list@.contains(v as usize) && 0 <= v <= usize::MAX {
                        let m = choose|m: int| 0 <= m < list@.len() && list@[m] == v as usize;
                        if m < before.len() {
                            assert(before[m] == v as usize);
                            assert(before.contains(v as usize));
                        }
                    }
                    if c <= v < c + d + 1 && touches(map, cables, regions, devs[v - c].foot, g as int) {
                        if v < c + d {
                            assert(before.contains(v as usize));
                            let m = choose|m: int| 0 <= m < before.len() && before[m] == v as usize;
                            assert(list@[m] == v as usize);
                        } else {
                            assert(t@.contains(g));
                            assert(list@[list@.len() - 1] == v as usize);
                        }
                    }
                }
                assert forall|k: int| 0 <= k < list@.len() implies #[trigger] list@[k] < c + d + 1 by {
                    if k < before.len() {
                        assert(list@[k] == before[k]);
                    }
                }
            }
            d = d + 1;
        }
        adj.push(list);
        active.push(true);
        proof {
            assert forall|u: int, v: int|
                0 <= u < g + 1 implies (#[trigger] adj@[u]@.contains(v as usize) && 0 <= v <= usize::MAX
                    <==> bridge_edge(map, cables, regions, devs, u, v)) by {
                if u == g {
                    if c <= u {
                    }
                }
            }
        }
        g = g + 1;
    }
    let mut d: usize = 0;
    while d < n
        invariant
            map.wf(),
            cables.wf(),
            regions_of(cables, regions),
            c == regions.count,
            n == devs.len(),
            devs == devices@,
            forall|d: int| 0 <= d < devs.len() ==> fp_ok(#[trigger] devs[d].foot),
            c + n < usize::MAX,
            0 <= d <= n,
            adj@.len() == c + d,
            active@.len() == c + d,
            forall|u: int| 0 <= u < c ==> #[trigger] active@[u],
            forall|u: int|
                c <= u < c + d ==> (#[trigger] active@[u] <==> exists|h: int|
                    0 <= h < c && #[trigger] touches(map, cables, regions, devs[u - c].foot, h)),
            forall|u: int, v: int|
                0 <= u < c + d ==> (#[trigger] adj@[u]@.contains(v as usize) && 0 <= v <= usize::MAX
                    <==> bridge_edge(map, cables, regions, devs, u, v)),
            forall|u: int, k: int| 0 <= u < c + d && 0 <= k < adj@[u]@.len() ==> #[trigger] adj@[u]@[k] < c + n,
        decreases n - d,
    {
        let t = touched_regions(cables, regions, map, &devices[d].foot);
        let nonempty = t.len() > 0;
        proof {
            let u = c + d;
            assert forall|v: int| #[trigger] t@.contains(v as usize) && 0 <= v <= usize::MAX ==> 0 <= v < c by {
                if t@.contains(v as usize) && 0 <= v <= usize::MAX {
                    let tt = choose|tt: TilePos|
                        #[trigger] interface_seq(map, devs[d as int].foot).contains(tt) && cables.spec_has(tt)
                            && regions.spec_get(tt) == Some(v as usize);
                    lemma_region_bound(cables, regions, tt);
                }
            }
            assert forall|k: int| 0 <= k < t@.len() implies #[trigger] t@[k] < c by {
                assert(t@.contains(t@[k]));
            }
            if nonempty {
                assert(t@.contains(t@[0]));
                assert(touches(map, cables, regions, devs[d as int].foot, t@[0] as int));
            }
            if exists|h: int| 0 <= h < c && #[trigger] touches(map, cables, regions, devs[d as int].foot, h) {
                let h = choose|h: int| 0 <= h < c && #[trigger] touches(map, cables, regions, devs[d as int].foot, h);
                assert(t@.contains(h as usize));
            }
        }
        adj.push(t);
        active.push(nonempty);
        proof {
            assert forall|u: int, v: int|
                0 <= u < c + d + 1 implies (#[trigger] adj@[u]@.contains(v as usize) && 0 <= v <= usize::MAX
                    <==> bridge_edge(map, cables, regions, devs, u, v)) by {
                if u == c + d {
                    if adj@[u]@.contains(v as usize) && 0 <= v <= usize::MAX {
                        assert(0 <= v < c);
                    }
                }
            }
        }
        d = d + 1;
    }
    let ghost av = adj@.map_values(|l: Vec<usize>| l@);
    proof {
        assert forall|u: int, v: int| #[trigger] edge(av, u, v) <==> bridge_edge(map, cables, regions, devs, u, v) by {
            if 0 <= u < av.len() {
                assert(av[u] == adj@[u]@);
            }
        }
        assert(active@ =~= bridge_active(map, cables, regions, devs));
        assert forall|u: int, k: int| 0 <= u < av.len() && 0 <= k < av[u].len() implies (#[trigger] av[u][k]) < av.len() by {
            assert(av[u] == adj@[u]@);
        }
        assert forall|u: int, v: int| #[trigger] edge(av, u, v) implies active@[u] && active@[v] && edge(av, v, u) by {
            assert(bridge_edge(map, cables, regions, devs, u, v));
            assert(bridge_edge(map, cables, regions, devs, v, u));
            if c <= u {
                assert(touches(map, cables, regions, devs[u - c].foot, v));
            }
            if c <= v {
                assert(touches(map, cables, regions, devs[v - c].foot, u));
            }
        }
    }
    let (lab, count) = label_components(&active, &adj);
    let mut region_net: Vec<usize> = Vec::new();
    let mut g: usize = 0;
    while g < c
        invariant
            0 <= g <= c,
            c <= lab@.len(),
            lab@.len() == active@.len(),
            forall|u: int| 0 <= u < c ==> #[trigger] active@[u],
            labels_components(active@, av, lab@, count as nat),
            region_net@ == lab@.subrange(0, g as int),
        decreases c - g,
    {
        region_net.push(lab[g]);
        g = g + 1;
        assert(region_net@ =~= lab@.subrange(0, g as int));
    }
    proof {
        assert forall|g: int| 0 <= g < c implies #[trigger] region_net@[g] < count by {
            assert(active@[g]);
        }
    }
    (region_net, count)
}


/// Recompute the whole power model from the cable layer and the devices:
/// regions, networks (regions bridged by devices), each device's network,
/// per-network totals, and deterministic load shedding — consumers are
/// served in id order (older devices keep power), generators always run.
pub fn solve_power(map: &ShipMap, cables: &CableGrid, devices: &[PowerDevice]) -> (r: PowerSolution)
    requires
        map.wf(),
        cables.wf(),
        forall|d: int| 0 <= d < devices@.len() ==> fp_ok(#[trigger] devices@[d].foot),
        cables.width * cables.height + devices@.len() < usize::MAX,
        devices@.len() <= u32::MAX,
        total_load(devices@, devices@.len() as int) <= u32::MAX,
    ensures
        solution_ok(map, cables, devices@, &r),
        forall|g: int|
            0 <= g < r.networks@.len() ==> (#[trigger] r.networks@[g]).served <= r.networks@[g].generation
                && r.networks@[g].served <= r.networks@[g].demand,
{
    let ghost devs = devices@;
    let n = devices.len();
    let regions = flood_regions(cables);
    let (region_net, net_count) = bridge_networks(map, cables, &regions, devices);
    // Each device joins the network of the first cable on its interface.
    let mut device_net: Vec<Option<usize>> = Vec::new();
    let mut d: usize = 0;
    while d < n
        invariant
            map.wf(),
            cables.wf(),
            regions_of(cables, &regions),
            devs == devices@,
            n == devs.len(),
            forall|d: int| 0 <= d < devs.len() ==> fp_ok(#[trigger] devs[d].foot),
            region_net@.len() == regions.count,
            forall|g: int| 0 <= g < regions.count ==> #[trigger] region_net@[g] < net_count,
            0 <= d <= n,
            device_net@.len() == d,
            forall|e: int|
                0 <= e < d ==> #[trigger] device_net@[e] == match first_region(
                    cables,
                    &regions,
                    interface_seq(map, devs[e].foot),
                    0,
                ) {
                    Some(g) => Some(region_net@[g as int]),
                    None => None,
                },
            forall|e: int| 0 <= e < d && #[trigger] device_net@[e] is Some ==> (device_net@[e]->0) < net_count,
        decreases n - d,
    {
        let got = network_of(cables, &regions, map, &devices[d].foot);
        let v = match got {
            Some(g) => {
                proof {
                    lemma_first_region_bound(cables, &regions, interface_seq(map, devs[d as int].foot), 0);
                }
                Some(region_net[g])
            },
            None => None,
        };
        device_net.push(v);
        d = d + 1;
    }
    let ghost dnet = device_net@;
    // Per-network totals.
    let mut nets: Vec<NetworkInfo> = Vec::new();
    let mut g: usize = 0;
    while g < net_count
        invariant
            0 <= g <= net_count,
            nets@.len() == g,
            forall|h: int| 0 <= h < g ==> #[trigger] nets@[h] == (NetworkInfo { generation: 0, demand: 0, served: 0, generators: 0, consumers: 0 }),
        decreases net_count - g,
    {
        nets.push(NetworkInfo::default());
        g = g + 1;
    }
    proof {
        lemma_total_load_mono(devs, 0, n as int);
    }
    let mut d: usize = 0;
    while d < n
        invariant
            devs == devices@,
            n == devs.len(),
            n <= u32::MAX,
            total_load(devs, n as int) <= u32::MAX,
            device_net@ == dnet,
            dnet.len() == n,
            forall|e: int| 0 <= e < n && #[trigger] dnet[e] is Some ==> (dnet[e]->0) < net_count,
            0 <= d <= n,
            nets@.len() == net_count,
            forall|h: int|
                0 <= h < net_count ==> {
                    &&& (#[trigger] nets@[h]).generation == net_sum(devs, dnet, h, |r: PowerRole| gen_output(r), d as int)
                    &&& nets@[h].demand == net_sum(devs, dnet, h, |r: PowerRole| consumer_demand(r), d as int)
                    &&& nets@[h].generators == net_sum(devs, dnet, h, |r: PowerRole| is_generator(r), d as int)
                    &&& nets@[h].consumers == net_sum(devs, dnet, h, |r: PowerRole| is_consumer(r), d as int)
                    &&& nets@[h].served == 0
                },
        decreases n - d,
    {
        match device_net[d] {
            Some(h) => {
                let mut info = nets[h];
                proof {
                    lemma_net_sum_bound(devs, dnet, h as int, |r: PowerRole| gen_output(r), d + 1);
                    lemma_net_sum_bound(devs, dnet, h as int, |r: PowerRole| consumer_demand(r), d + 1);
                    lemma_net_sum_count(devs, dnet, h as int, |r: PowerRole| is_generator(r), d + 1);
                    lemma_net_sum_count(devs, dnet, h as int, |r: PowerRole| is_consumer(r), d + 1);
                    lemma_total_load_mono(devs, d + 1, n as int);
                }
                match devices[d].role {
                    PowerRole::Generator { output, on } => {
                        if on {
                            info.generation = info.generation + output;
                        }
                        info.generators = info.generators + 1;
                    },
                    PowerRole::Consumer { demand } => {
                        info.demand = info.demand + demand;
                        info.consumers = info.consumers + 1;
                    },
                }
                nets.set(h, info);
            },
            None => {},
        }
        d = d + 1;
    }
    // Load shedding in serving order.
    let ord = service_order(devices);
    let mut status: Vec<PowerStatus> = Vec::new();
    let mut d: usize = 0;
    while d < n
        invariant
            0 <= d <= n,
            status@.len() == d,
            forall|e: int| 0 <= e < d ==> #[trigger] status@[e] == PowerStatus::Unconnected,
        decreases n - d,
    {
        status.push(PowerStatus::Unconnected);
        d = d + 1;
    }
    let mut cap: Vec<u32> = Vec::new();
    let mut g: usize = 0;
    while g < net_count
        invariant
            0 <= g <= net_count,
            nets@.len() == net_count,
            cap@.len() == g,
            forall|h: int| 0 <= h < g ==> #[trigger] cap@[h] == nets@[h].generation,
        decreases net_count - g,
    {
        cap.push(nets[g].generation);
        g = g + 1;
    }
    let ghost gen_net = nets@;
    proof {
        assert forall|h: int| 0 <= h < net_count implies #[trigger] cap@[h] + powered_use(
            devs,
            dnet,
            status@,
            h,
            |j: int| exists|q: int| 0 <= q < 0 && #[trigger] ord@[q] == j,
            n as int,
        ) == gen_net[h].generation by {
            lemma_use_zero(devs, dnet, status@, |j: int| exists|q: int| 0 <= q < 0 && #[trigger] ord@[q] == j, h, n as int);
        }
    }
    let mut t: usize = 0;
    while t < n
        invariant
            devs == devices@,
            n == devs.len(),
            device_net@ == dnet,
            dnet.len() == n,
            forall|e: int| 0 <= e < n && #[trigger] dnet[e] is Some ==> (dnet[e]->0) < net_count,
            nets@ == gen_net,
            nets@.len() == net_count,
            ord@.len() == n,
            forall|j: int| 0 <= j < n ==> #[trigger] ord@.contains(j as usize),
            forall|q: int| 0 <= q < ord@.len() ==> #[trigger] ord@[q] < n,
            forall|a: int, b: int| 0 <= a < b < ord@.len() ==> served_first(devs, ord@[a] as int, ord@[b] as int),
            0 <= t <= n,
            status@.len() == n,
            cap@.len() == net_count,
            forall|q: int|
                0 <= q < t ==> #[trigger] status@[ord@[q] as int] == expected_status(
                    devs,
                    dnet,
                    gen_net,
                    status@,
                    ord@[q] as int,
                ),
            forall|j: int|
                0 <= j < n && !(exists|q: int| 0 <= q < t && #[trigger] ord@[q] == j) ==> #[trigger] status@[j]
                    == PowerStatus::Unconnected,
            forall|h: int|
                0 <= h < net_count ==> #[trigger] cap@[h] + powered_use(
                    devs,
                    dnet,
                    status@,
                    h,
                    |j: int| exists|q: int| 0 <= q < t && #[trigger] ord@[q] == j,
                    n as int,
                ) == gen_net[h].generation,
        decreases n - t,
    {
        let c = ord[t];
        let ghost old_status = status@;
        let ghost done = |j: int| exists|q: int| 0 <= q < t && #[trigger] ord@[q] == j;
        let ghost before_c = |j: int| served_first(devs, j, c as int);
        proof {
            // Devices served before `c` are exactly those already handled.
            assert forall|j: int| 0 <= j < n implies #[trigger] done(j) == before_c(j) by {
                if done(j) {
                    let q = choose|q: int| 0 <= q < t && #[trigger] ord@[q] == j;
                    assert(served_first(devs, ord@[q] as int, ord@[t as int] as int));
                }
                if before_c(j) {
                    assert(ord@.contains(j as usize));
                    let q = choose|q: int| 0 <= q < ord@.len() && ord@[q] == j as usize;
                    if q >= t {
                        if q > t {
                            assert(served_first(devs, ord@[t as int] as int, ord@[q] as int));
                        }
                    }
                    assert(ord@[q] == j);
                }
            }
        }
        let st = match device_net[c] {
            None => PowerStatus::Unconnected,
            Some(h) => match devices[c].role {
                PowerRole::Generator { .. } => PowerStatus::Powered,
                PowerRole::Consumer { demand } => {
                    proof {
                        lemma_use_cong(devs, dnet, status@, done, status@, before_c, h as int, n as int);
                    }
                    if nets[h].generation == 0 {
                        PowerStatus::NoGenerator
                    } else if cap[h] >= demand {
                        cap.set(h, cap[h] - demand);
                        PowerStatus::Powered
                    } else {
                        PowerStatus::Shed
                    }
                },
            },
        };
        status.set(c, st);
        let ghost next = |j: int| exists|q: int| 0 <= q < t + 1 && #[trigger] ord@[q] == j;
        proof {
            assert(!done(c as int)) by {
                if done(c as int) {
                    let q = choose|q: int| 0 <= q < t && #[trigger] ord@[q] == c as int;
                    assert(served_first(devs, ord@[q] as int, ord@[t as int] as int));
                }
            }
            assert(old_status[c as int] == PowerStatus::Unconnected);
            assert forall|j: int| 0 <= j < n && j != c implies #[trigger] next(j) == done(j) by {
                if next(j) {
                    let q = choose|q: int| 0 <= q < t + 1 && #[trigger] ord@[q] == j;
                    assert(q < t);
                }
            }
            assert(next(c as int)) by {
                assert(ord@[t as int] == c);
            }
            // The new status of `c` follows the rule.
            assert forall|h: int| 0 <= h < net_count implies powered_use(devs, dnet, status@, h, before_c, n as int)
                == powered_use(devs, dnet, old_status, h, before_c, n as int) by {
                lemma_use_cong(devs, dnet, status@, before_c, old_status, before_c, h, n as int);
            }
            assert(status@[c as int] == expected_status(devs, dnet, gen_net, status@, c as int));
            // Earlier statuses keep following it.
            assert forall|q: int| 0 <= q < t + 1 implies #[trigger] status@[ord@[q] as int] == expected_status(
                devs,
                dnet,
                gen_net,
                status@,
                ord@[q] as int,
            ) by {
                if q < t {
                    let e = ord@[q] as int;
                    let before_e = |j: int| served_first(devs, j, e);
                    assert(served_first(devs, e, c as int));
                    assert(status@[e] == old_status[e]);
                    assert forall|h: int| 0 <= h < net_count implies powered_use(devs, dnet, status@, h, before_e, n as int)
                        == powered_use(devs, dnet, old_status, h, before_e, n as int) by {
                        lemma_use_cong(devs, dnet, status@, before_e, old_status, before_e, h, n as int);
                    }
                }
            }
            assert forall|j: int|
                0 <= j < n && !(exists|q: int| 0 <= q < t + 1 && #[trigger] ord@[q] == j) implies #[trigger] status@[j]
                == PowerStatus::Unconnected by {
                assert(!next(j));
                if j != c {
                    assert(!done(j));
                }
            }
            assert forall|h: int| 0 <= h < net_count implies #[trigger] cap@[h] + powered_use(
                devs,
                dnet,
                status@,
                h,
                next,
                n as int,
            ) == gen_net[h].generation by {
                lemma_use_split(devs, dnet, old_status, done, status@, next, h, c as int, n as int);
            }
        }
        t = t + 1;
    }
    // Served demand per network, and the final record.
    let ghost all = |j: int| true;
    proof {
        assert forall|h: int| 0 <= h < net_count implies #[trigger] cap@[h] + powered_use(devs, dnet, status@, h, all, n as int)
            == gen_net[h].generation by {
            let fin = |j: int| exists|q: int| 0 <= q < n && #[trigger] ord@[q] == j;
            assert forall|j: int| 0 <= j < n implies #[trigger] fin(j) by {
                assert(ord@.contains(j as usize));
                let q = choose|q: int| 0 <= q < ord@.len() && ord@[q] == j as usize;
                assert(ord@[q] == j);
            }
            lemma_use_cong(devs, dnet, status@, fin, status@, all, h, n as int);
        }
    }
    let mut out_nets: Vec<NetworkInfo> = Vec::new();
    let mut g: usize = 0;
    while g < net_count
        invariant
            0 <= g <= net_count,
            nets@ == gen_net,
            nets@.len() == net_count,
            cap@.len() == net_count,
            out_nets@.len() == g,
            forall|h: int|
                0 <= h < net_count ==> #[trigger] cap@[h] + powered_use(devs, dnet, status@, h, all, n as int)
                    == gen_net[h].generation,
            forall|h: int|
                0 <= h < g ==> #[trigger] out_nets@[h] == (NetworkInfo {
                    served: (gen_net[h].generation - cap@[h]) as u32,
                    ..gen_net[h]
                }),
        decreases net_count - g,
    {
        proof {
            lemma_use_nonneg(devs, dnet, status@, all, g as int, n as int);
        }
        let mut info = nets[g];
        info.served = info.generation - cap[g];
        out_nets.push(info);
        g = g + 1;
    }
    proof {
        assert forall|e: int| 0 <= e < n implies #[trigger] status@[e] == expected_status(
            devs,
            dnet,
            out_nets@,
            status@,
            e,
        ) by {
            assert(ord@.contains(e as usize));
            let q = choose|q: int| 0 <= q < ord@.len() && ord@[q] == e as usize;
            assert(status@[ord@[q] as int] == expected_status(devs, dnet, gen_net, status@, ord@[q] as int));
            if dnet[e] is Some {
                assert(out_nets@[dnet[e]->0 as int].generation == gen_net[dnet[e]->0 as int].generation);
            }
        }
        assert forall|h: int| 0 <= h < net_count implies net_info_ok(devs, dnet, status@, h, #[trigger] out_nets@[h]) by {
            lemma_use_nonneg(devs, dnet, status@, all, h, n as int);
        }
        assert forall|h: int| 0 <= h < net_count implies (#[trigger] out_nets@[h]).served <= out_nets@[h].generation
            && out_nets@[h].served <= out_nets@[h].demand by {
            lemma_use_nonneg(devs, dnet, status@, all, h, n as int);
            lemma_use_within_demand(devs, dnet, status@, all, h, n as int);
        }
    }
    let r = PowerSolution { regions, region_net, networks: out_nets, device_net, status };
    r
}

} // verus!
