//! The idle crew's work scan: every claimable job of the three work
//! categories, each with its priority tier and distance, in the order the
//! scan finds them. Ranking the list is `jobs::rank_candidates`; claiming
//! (reservations, paths) happens on the world outside this crate.

use crate::building::{fp_ok, lemma_foot_distance, spec_foot_distance, Footprint};
use crate::crew::{HaulDest, Priority};
use crate::dist::{lemma_octile_small, octile_distance, spec_octile_distance};
use crate::items::{kind_at, ItemKind};
use crate::jobs::{best_source, dist_ok, lemma_best_source_spec, source_dist, spec_best_source, Candidate, Source};
use crate::map::TilePos;
use crate::production::{recipe, spec_recipe};
use crate::storage::StorageCell;
use vstd::prelude::*;

verus! {

/// A free ground item (not reserved, not carried).
#[derive(Clone, Copy, PartialEq, Eq, Structural, Debug)]
pub struct GroundItem {
    pub id: u64,
    pub pos: TilePos,
    pub kind: ItemKind,
    /// Unreachable-cooldown end (sim µs); `i64::MIN` when none.
    pub cooled_until: i64,
}

/// A rack and what it holds.
pub struct RackView {
    pub id: u64,
    pub pos: TilePos,
    pub cell: StorageCell,
}

/// A construction site or a building marked for deconstruction.
#[derive(Clone, Copy, PartialEq, Eq, Structural, Debug)]
pub struct SiteView {
    pub id: u64,
    pub foot: Footprint,
    /// Blueprints: fully supplied. Buildings: marked for deconstruction.
    pub open: bool,
    /// Another crew member holds it.
    pub reserved: bool,
}

/// A fabricator as the scan sees it.
#[derive(Clone, Copy, Debug)]
pub struct FabView {
    pub id: u64,
    pub foot: Footprint,
    /// Output buffer, indexed by `ItemKind::index`.
    pub output: [u32; 3],
    /// Waiting for a worker.
    pub ready: bool,
    pub powered: bool,
    pub reserved: bool,
}

/// Everything one scan pass reads.
pub struct ScanWorld {
    /// Free ground items.
    pub ground: Vec<GroundItem>,
    /// Free ground items the player marked for hauling.
    pub marked_free: Vec<GroundItem>,
    pub racks: Vec<RackView>,
    /// Blueprint material demands: blueprint, kind, units missing.
    pub bp_needs: Vec<(u64, ItemKind, u32)>,
    /// Fabricator input demands: fabricator, units wanted with nothing
    /// inbound.
    pub fab_needs: Vec<(u64, u32)>,
    /// Hauls under way to a consumer: destination and item kind.
    pub inflight: Vec<(u64, ItemKind)>,
    pub fabs: Vec<FabView>,
    pub blueprints: Vec<SiteView>,
    pub buildings: Vec<SiteView>,
    /// Targets claimed earlier in this scan pass.
    pub claims: Vec<u64>,
}

/// What a candidate job is about.
#[derive(Clone, Copy, PartialEq, Eq, Structural, Debug)]
pub enum Target {
    /// Haul a ground item to `dest`.
    Ground { item: u64, dest: HaulDest },
    /// Haul one unit of `kind` out of a rack to `dest`.
    RackPull { rack: u64, kind: ItemKind, dest: HaulDest },
    /// Take one unit of `kind` out of a fabricator's output to storage.
    MachineOut { fab: u64, kind: ItemKind },
    Build { bp: u64 },
    Demo { building: u64 },
    Operate { fab: u64 },
}

/// A scan's outcome: the candidates with their targets (same positions),
/// and what the idle cause needs to know.
pub struct ScanResult {
    pub cands: Vec<Candidate>,
    pub targets: Vec<Target>,
    /// Some marked item is free (hauling enabled).
    pub marked_any_free: bool,
    /// Some marked item off cooldown has a rack to go to (hauling enabled).
    pub storage_ok: bool,
}

pub type Entry = (Candidate, Target);

/// Racks take any kind while one has room.
pub open spec fn rack_room(racks: Seq<RackView>) -> bool {
    exists|i: int| 0 <= i < racks.len() && (#[trigger] racks[i]).cell.spec_stored() < racks[i].cell.capacity
}

/// The racks' contents stay within `u32` counting.
pub open spec fn racks_ok(racks: Seq<RackView>) -> bool {
    forall|i: int| 0 <= i < racks.len() ==> (#[trigger] racks[i]).cell.spec_stored() <= u32::MAX
}

/// Ground items of `kind` among the first `n`, in order.
pub open spec fn kind_items(g: Seq<GroundItem>, kind: ItemKind, n: int) -> Seq<GroundItem>
    decreases n,
{
    if n <= 0 {
        Seq::empty()
    } else {
        kind_items(g, kind, n - 1) + if g[n - 1].kind == kind {
            seq![g[n - 1]]
        } else {
            Seq::empty()
        }
    }
}

/// Items as `best_source` reads them.
pub open spec fn source_items(items: Seq<GroundItem>) -> Seq<(TilePos, i64)> {
    items.map_values(|x: GroundItem| (x.pos, x.cooled_until))
}

/// Racks as `best_source` reads them.
pub open spec fn source_racks(racks: Seq<RackView>) -> Seq<(TilePos, StorageCell)> {
    racks.map_values(|r: RackView| (r.pos, StorageCell { capacity: r.cell.capacity, counts: r.cell.counts }))
}

/// Hauls under way to `dest` carrying `kind`, among the first `n`.
pub open spec fn inflight_count(f: Seq<(u64, ItemKind)>, dest: u64, kind: ItemKind, n: int) -> int
    decreases n,
{
    if n <= 0 {
        0
    } else {
        inflight_count(f, dest, kind, n - 1) + if f[n - 1] == (dest, kind) {
            1int
        } else {
            0int
        }
    }
}

/// The entry a supply demand adds: the best source of `kind` for `dest`,
/// if any (and if its distance is in range).
pub open spec fn supply_entry(w: &ScanWorld, pos: TilePos, now: i64, prio: Priority, kind: ItemKind, dest: HaulDest) -> Seq<
    Entry,
> {
    let items = kind_items(w.ground@, kind, w.ground@.len() as int);
    let g = source_items(items);
    let rk = source_racks(w.racks@);
    match spec_best_source(pos, kind, g, rk, now) {
        Some(s) => {
            let d = source_dist(pos, g, rk, s);
            if dist_ok(d) {
                seq![
                    (Candidate { prio, dist: d }, match s {
                        Source::Ground(i) => Target::Ground { item: items[i as int].id, dest },
                        Source::Rack(i) => Target::RackPull { rack: w.racks@[i as int].id, kind, dest },
                    }),
                ]
            } else {
                Seq::empty()
            }
        },
        None => Seq::empty(),
    }
}

/// Marked items to storage, among the first `n`: those off cooldown while
/// a rack has room.
pub open spec fn marked_entries(w: &ScanWorld, pos: TilePos, now: i64, prio: Priority, n: int) -> Seq<Entry>
    decreases n,
{
    if n <= 0 {
        Seq::empty()
    } else {
        let m = w.marked_free@[n - 1];
        marked_entries(w, pos, now, prio, n - 1) + if m.cooled_until <= now && rack_room(w.racks@) {
            seq![
                (Candidate { prio, dist: spec_octile_distance(pos, m.pos) }, Target::Ground {
                    item: m.id,
                    dest: HaulDest::Storage,
                }),
            ]
        } else {
            Seq::empty()
        }
    }
}

/// Blueprint supply, among the first `n` demands: each demand not yet
/// covered by hauls under way.
pub open spec fn bp_entries(w: &ScanWorld, pos: TilePos, now: i64, prio: Priority, n: int) -> Seq<Entry>
    decreases n,
{
    if n <= 0 {
        Seq::empty()
    } else {
        let (e, kind, miss) = w.bp_needs@[n - 1];
        bp_entries(w, pos, now, prio, n - 1) + if inflight_count(w.inflight@, e, kind, w.inflight@.len() as int)
            < miss {
            supply_entry(w, pos, now, prio, kind, HaulDest::Blueprint(e))
        } else {
            Seq::empty()
        }
    }
}

/// Fabricator input supply, among the first `n` demands.
pub open spec fn fab_entries(w: &ScanWorld, pos: TilePos, now: i64, prio: Priority, n: int) -> Seq<Entry>
    decreases n,
{
    if n <= 0 {
        Seq::empty()
    } else {
        let (e, want) = w.fab_needs@[n - 1];
        let kind = spec_recipe().in_kind;
        fab_entries(w, pos, now, prio, n - 1) + if inflight_count(w.inflight@, e, kind, w.inflight@.len() as int)
            < want {
            supply_entry(w, pos, now, prio, kind, HaulDest::Machine(e))
        } else {
            Seq::empty()
        }
    }
}

/// An entry at the footprint's distance, when it has one in range.
pub open spec fn foot_entry(foot: Footprint, pos: TilePos, prio: Priority, t: Target) -> Seq<Entry> {
    match spec_foot_distance(foot, pos) {
        Some(d) => if dist_ok(d) {
            seq![(Candidate { prio, dist: d }, t)]
        } else {
            Seq::empty()
        },
        None => Seq::empty(),
    }
}

/// Output of fabricator `f`, count slots `0..k`: each non-empty slot while
/// a rack has room.
pub open spec fn output_entries(w: &ScanWorld, pos: TilePos, prio: Priority, f: FabView, k: int) -> Seq<Entry>
    decreases k,
{
    if k <= 0 {
        Seq::empty()
    } else {
        output_entries(w, pos, prio, f, k - 1) + if f.output@[k - 1] > 0 && rack_room(w.racks@) {
            foot_entry(f.foot, pos, prio, Target::MachineOut { fab: f.id, kind: kind_at(k - 1) })
        } else {
            Seq::empty()
        }
    }
}

/// Fabricator output to storage, among the first `n` fabricators.
pub open spec fn out_entries(w: &ScanWorld, pos: TilePos, prio: Priority, n: int) -> Seq<Entry>
    decreases n,
{
    if n <= 0 {
        Seq::empty()
    } else {
        out_entries(w, pos, prio, n - 1) + output_entries(w, pos, prio, w.fabs@[n - 1], 3)
    }
}

/// Open, unreserved, unclaimed sites among the first `n` of `sites`, as
/// construction (`build`) or deconstruction jobs.
pub open spec fn site_entries(sites: Seq<SiteView>, claims: Seq<u64>, pos: TilePos, prio: Priority, build: bool, n: int) -> Seq<
    Entry,
>
    decreases n,
{
    if n <= 0 {
        Seq::empty()
    } else {
        let s = sites[n - 1];
        site_entries(sites, claims, pos, prio, build, n - 1) + if s.open && !s.reserved && !claims.contains(s.id) {
            foot_entry(s.foot, pos, prio, if build { Target::Build { bp: s.id } } else { Target::Demo { building: s.id } })
        } else {
            Seq::empty()
        }
    }
}

/// Powered fabricators waiting for a worker, unreserved and unclaimed,
/// among the first `n`.
pub open spec fn operate_entries(w: &ScanWorld, pos: TilePos, prio: Priority, n: int) -> Seq<Entry>
    decreases n,
{
    if n <= 0 {
        Seq::empty()
    } else {
        let f = w.fabs@[n - 1];
        operate_entries(w, pos, prio, n - 1) + if f.ready && f.powered && !f.reserved && !w.claims@.contains(f.id) {
            foot_entry(f.foot, pos, prio, Target::Operate { fab: f.id })
        } else {
            Seq::empty()
        }
    }
}

/// Every candidate of one scan, in scan order: hauling (marked items,
/// blueprint supply, fabricator supply, fabricator output), then building
/// and deconstruction, then operating; a disabled category adds nothing.
pub open spec fn scan_entries(w: &ScanWorld, pos: TilePos, now: i64, haul: Priority, build: Priority, operate: Priority) -> Seq<
    Entry,
> {
    (if haul != Priority::Disabled {
        marked_entries(w, pos, now, haul, w.marked_free@.len() as int) + bp_entries(
            w,
            pos,
            now,
            haul,
            w.bp_needs@.len() as int,
        ) + fab_entries(w, pos, now, haul, w.fab_needs@.len() as int) + out_entries(w, pos, haul, w.fabs@.len() as int)
    } else {
        Seq::empty()
    }) + (if build != Priority::Disabled {
        site_entries(w.blueprints@, w.claims@, pos, build, true, w.blueprints@.len() as int) + site_entries(
            w.buildings@,
            w.claims@,
            pos,
            build,
            false,
            w.buildings@.len() as int,
        )
    } else {
        Seq::empty()
    }) + (if operate != Priority::Disabled {
        operate_entries(w, pos, operate, w.fabs@.len() as int)
    } else {
        Seq::empty()
    })
}

/// The scan world's footprints and racks are in range.
pub open spec fn world_ok(w: &ScanWorld) -> bool {
    &&& racks_ok(w.racks@)
    &&& forall|i: int| 0 <= i < w.fabs@.len() ==> fp_ok(#[trigger] w.fabs@[i].foot)
    &&& forall|i: int| 0 <= i < w.blueprints@.len() ==> fp_ok(#[trigger] w.blueprints@[i].foot)
    &&& forall|i: int| 0 <= i < w.buildings@.len() ==> fp_ok(#[trigger] w.buildings@[i].foot)
}

// -------------------------------------------------------------------------------------
// Building blocks
// -------------------------------------------------------------------------------------

fn any_room(racks: &Vec<RackView>) -> (r: bool)
    requires
        racks_ok(racks@),
    ensures
        r == rack_room(racks@),
{
    let mut i: usize = 0;
    while i < racks.len()
        invariant
            racks_ok(racks@),
            0 <= i <= racks@.len(),
            forall|j: int| 0 <= j < i ==> !((#[trigger] racks@[j]).cell.spec_stored() < racks@[j].cell.capacity),
        decreases racks@.len() - i,
    {
        if racks[i].cell.can_take(ItemKind::Crate) {
            assert(racks@[i as int].cell.spec_stored() < racks@[i as int].cell.capacity);
            return true;
        }
        i = i + 1;
    }
    false
}

fn count_inflight(f: &Vec<(u64, ItemKind)>, dest: u64, kind: ItemKind) -> (r: u64)
    ensures
        r == inflight_count(f@, dest, kind, f@.len() as int),
{
    let mut n: u64 = 0;
    let mut i: usize = 0;
    while i < f.len()
        invariant
            0 <= i <= f@.len(),
            n == inflight_count(f@, dest, kind, i as int),
            n <= i,
        decreases f@.len() - i,
    {
        let (d, k) = f[i];
        if d == dest && k == kind {
            n = n + 1;
        }
        i = i + 1;
    }
    n
}

/// The ground items of one kind, split as `best_source` reads them, with
/// their ids alongside.
fn items_of_kind(g: &Vec<GroundItem>, kind: ItemKind) -> (r: (Vec<(TilePos, i64)>, Vec<u64>))
    ensures
        r.0@ == source_items(kind_items(g@, kind, g@.len() as int)),
        r.1@.len() == r.0@.len(),
        forall|i: int| 0 <= i < r.1@.len() ==> #[trigger] r.1@[i] == kind_items(g@, kind, g@.len() as int)[i].id,
{
    let mut pairs: Vec<(TilePos, i64)> = Vec::new();
    let mut ids: Vec<u64> = Vec::new();
    let mut i: usize = 0;
    while i < g.len()
        invariant
            0 <= i <= g@.len(),
            pairs@ == source_items(kind_items(g@, kind, i as int)),
            ids@.len() == pairs@.len(),
            forall|j: int| 0 <= j < ids@.len() ==> #[trigger] ids@[j] == kind_items(g@, kind, i as int)[j].id,
        decreases g@.len() - i,
    {
        let it = g[i];
        let ghost before = kind_items(g@, kind, i as int);
        if it.kind == kind {
            pairs.push((it.pos, it.cooled_until));
            ids.push(it.id);
            proof {
                assert(kind_items(g@, kind, i + 1) =~= before.push(it));
                assert(pairs@ =~= source_items(before.push(it)));
            }
        } else {
            proof {
                assert(kind_items(g@, kind, i + 1) =~= before);
            }
        }
        i = i + 1;
    }
    (pairs, ids)
}

fn rack_sources(racks: &Vec<RackView>) -> (r: Vec<(TilePos, StorageCell)>)
    ensures
        r@ == source_racks(racks@),
{
    let mut out: Vec<(TilePos, StorageCell)> = Vec::new();
    let mut i: usize = 0;
    while i < racks.len()
        invariant
            0 <= i <= racks@.len(),
            out@ == source_racks(racks@.subrange(0, i as int)),
        decreases racks@.len() - i,
    {
        let r = &racks[i];
        out.push((r.pos, StorageCell { capacity: r.cell.capacity, counts: r.cell.counts }));
        proof {
            assert(racks@.subrange(0, i + 1) =~= racks@.subrange(0, i as int).push(racks@[i as int]));
            assert(out@ =~= source_racks(racks@.subrange(0, i + 1)));
        }
        i = i + 1;
    }
    proof {
        assert(racks@.subrange(0, racks@.len() as int) =~= racks@);
    }
    out
}

fn push_supply(
    out: &mut Vec<Entry>,
    w: &ScanWorld,
    rk: &Vec<(TilePos, StorageCell)>,
    pos: TilePos,
    now: i64,
    prio: Priority,
    kind: ItemKind,
    dest: HaulDest,
)
    requires
        rk@ == source_racks(w.racks@),
    ensures
        final(out)@ == old(out)@ + supply_entry(w, pos, now, prio, kind, dest),
{
    let (g, ids) = items_of_kind(&w.ground, kind);
    let ghost items = kind_items(w.ground@, kind, w.ground@.len() as int);
    let best = best_source(pos, kind, &g, rk, now);
    proof {
        lemma_best_source_spec(pos, kind, g@, rk@, now, best);
    }
    match best {
        Some((d, s)) => {
            if d.straight < 0x1_0000_0000 && d.diag < 0x1_0000_0000 {
                let t = match s {
                    Source::Ground(i) => {
                        proof {
                            assert(items.len() == g@.len());
                        }
                        Target::Ground { item: ids[i], dest }
                    },
                    Source::Rack(i) => Target::RackPull { rack: w.racks[i].id, kind, dest },
                };
                out.push((Candidate { prio, dist: d }, t));
            }
        },
        None => {},
    }
}

fn push_foot(out: &mut Vec<Entry>, foot: &Footprint, pos: TilePos, prio: Priority, t: Target)
    requires
        fp_ok(*foot),
    ensures
        final(out)@ == old(out)@ + foot_entry(*foot, pos, prio, t),
{
    let d = foot.distance_to(pos);
    proof {
        lemma_foot_distance(*foot, pos, d);
    }
    match d {
        Some(d) => {
            if d.straight < 0x1_0000_0000 && d.diag < 0x1_0000_0000 {
                out.push((Candidate { prio, dist: d }, t));
            }
        },
        None => {},
    }
}

fn contains_id(list: &Vec<u64>, id: u64) -> (r: bool)
    ensures
        r == list@.contains(id),
{
    let mut i: usize = 0;
    while i < list.len()
        invariant
            0 <= i <= list@.len(),
            forall|j: int| 0 <= j < i ==> list@[j] != id,
        decreases list@.len() - i,
    {
        if list[i] == id {
            assert(list@[i as int] == id);
            return true;
        }
        i = i + 1;
    }
    false
}

// -------------------------------------------------------------------------------------
// Segments
// -------------------------------------------------------------------------------------

fn push_marked(out: &mut Vec<Entry>, w: &ScanWorld, room: bool, pos: TilePos, now: i64, prio: Priority)
    requires
        room == rack_room(w.racks@),
    ensures
        final(out)@ == old(out)@ + marked_entries(w, pos, now, prio, w.marked_free@.len() as int),
{
    let ghost base = out@;
    let mut i: usize = 0;
    while i < w.marked_free.len()
        invariant
            room == rack_room(w.racks@),
            0 <= i <= w.marked_free@.len(),
            out@ == base + marked_entries(w, pos, now, prio, i as int),
        decreases w.marked_free@.len() - i,
    {
        let m = w.marked_free[i];
        if m.cooled_until <= now && room {
            proof {
                lemma_octile_small(pos, m.pos);
            }
            out.push((Candidate { prio, dist: octile_distance(pos, m.pos) }, Target::Ground { item: m.id, dest: HaulDest::Storage }));
        }
        proof {
            assert(out@ =~= base + marked_entries(w, pos, now, prio, i + 1));
        }
        i = i + 1;
    }
}

fn push_bp_supply(out: &mut Vec<Entry>, w: &ScanWorld, rk: &Vec<(TilePos, StorageCell)>, pos: TilePos, now: i64, prio: Priority)
    requires
        rk@ == source_racks(w.racks@),
    ensures
        final(out)@ == old(out)@ + bp_entries(w, pos, now, prio, w.bp_needs@.len() as int),
{
    let ghost base = out@;
    let mut i: usize = 0;
    while i < w.bp_needs.len()
        invariant
            rk@ == source_racks(w.racks@),
            0 <= i <= w.bp_needs@.len(),
            out@ == base + bp_entries(w, pos, now, prio, i as int),
        decreases w.bp_needs@.len() - i,
    {
        let (e, kind, miss) = w.bp_needs[i];
        let already = count_inflight(&w.inflight, e, kind);
        let ghost mid = out@;
        if already < miss as u64 {
            push_supply(out, w, rk, pos, now, prio, kind, HaulDest::Blueprint(e));
        }
        proof {
            assert(out@ =~= base + bp_entries(w, pos, now, prio, i + 1));
        }
        i = i + 1;
    }
}

fn push_fab_supply(out: &mut Vec<Entry>, w: &ScanWorld, rk: &Vec<(TilePos, StorageCell)>, pos: TilePos, now: i64, prio: Priority)
    requires
        rk@ == source_racks(w.racks@),
    ensures
        final(out)@ == old(out)@ + fab_entries(w, pos, now, prio, w.fab_needs@.len() as int),
{
    let ghost base = out@;
    let in_kind = recipe().in_kind;
    let mut i: usize = 0;
    while i < w.fab_needs.len()
        invariant
            rk@ == source_racks(w.racks@),
            in_kind == spec_recipe().in_kind,
            0 <= i <= w.fab_needs@.len(),
            out@ == base + fab_entries(w, pos, now, prio, i as int),
        decreases w.fab_needs@.len() - i,
    {
        let (e, want) = w.fab_needs[i];
        let already = count_inflight(&w.inflight, e, in_kind);
        if already < want as u64 {
            push_supply(out, w, rk, pos, now, prio, in_kind, HaulDest::Machine(e));
        }
        proof {
            assert(out@ =~= base + fab_entries(w, pos, now, prio, i + 1));
        }
        i = i + 1;
    }
}

fn push_outputs(out: &mut Vec<Entry>, w: &ScanWorld, room: bool, pos: TilePos, prio: Priority)
    requires
        room == rack_room(w.racks@),
        world_ok(w),
    ensures
        final(out)@ == old(out)@ + out_entries(w, pos, prio, w.fabs@.len() as int),
{
    let ghost base = out@;
    let mut i: usize = 0;
    while i < w.fabs.len()
        invariant
            room == rack_room(w.racks@),
            world_ok(w),
            0 <= i <= w.fabs@.len(),
            out@ == base + out_entries(w, pos, prio, i as int),
        decreases w.fabs@.len() - i,
    {
        let f = w.fabs[i];
        let ghost mid = out@;
        let mut k: usize = 0;
        while k < 3
            invariant
                room == rack_room(w.racks@),
                fp_ok(f.foot),
                0 <= k <= 3,
                out@ == mid + output_entries(w, pos, prio, f, k as int),
            decreases 3 - k,
        {
            if f.output[k] > 0 && room {
                push_foot(out, &f.foot, pos, prio, Target::MachineOut { fab: f.id, kind: ItemKind::from_index(k) });
            }
            proof {
                assert(out@ =~= mid + output_entries(w, pos, prio, f, k + 1));
            }
            k = k + 1;
        }
        proof {
            assert(out@ =~= base + out_entries(w, pos, prio, i + 1));
        }
        i = i + 1;
    }
}

fn push_sites(out: &mut Vec<Entry>, sites: &Vec<SiteView>, claims: &Vec<u64>, pos: TilePos, prio: Priority, build: bool)
    requires
        forall|i: int| 0 <= i < sites@.len() ==> fp_ok(#[trigger] sites@[i].foot),
    ensures
        final(out)@ == old(out)@ + site_entries(sites@, claims@, pos, prio, build, sites@.len() as int),
{
    let ghost base = out@;
    let mut i: usize = 0;
    while i < sites.len()
        invariant
            forall|i: int| 0 <= i < sites@.len() ==> fp_ok(#[trigger] sites@[i].foot),
            0 <= i <= sites@.len(),
            out@ == base + site_entries(sites@, claims@, pos, prio, build, i as int),
        decreases sites@.len() - i,
    {
        let s = sites[i];
        if s.open && !s.reserved && !contains_id(claims, s.id) {
            let t = if build {
                Target::Build { bp: s.id }
            } else {
                Target::Demo { building: s.id }
            };
            push_foot(out, &s.foot, pos, prio, t);
        }
        proof {
            assert(out@ =~= base + site_entries(sites@, claims@, pos, prio, build, i + 1));
        }
        i = i + 1;
    }
}

fn push_operate(out: &mut Vec<Entry>, w: &ScanWorld, pos: TilePos, prio: Priority)
    requires
        world_ok(w),
    ensures
        final(out)@ == old(out)@ + operate_entries(w, pos, prio, w.fabs@.len() as int),
{
    let ghost base = out@;
    let mut i: usize = 0;
    while i < w.fabs.len()
        invariant
            world_ok(w),
            0 <= i <= w.fabs@.len(),
            out@ == base + operate_entries(w, pos, prio, i as int),
        decreases w.fabs@.len() - i,
    {
        let f = w.fabs[i];
        if f.ready && f.powered && !f.reserved && !contains_id(&w.claims, f.id) {
            push_foot(out, &f.foot, pos, prio, Target::Operate { fab: f.id });
        }
        proof {
            assert(out@ =~= base + operate_entries(w, pos, prio, i + 1));
        }
        i = i + 1;
    }
}

/// Some marked item is off cooldown.
pub open spec fn marked_ready(w: &ScanWorld, now: i64) -> bool {
    exists|i: int| 0 <= i < w.marked_free@.len() && (#[trigger] w.marked_free@[i]).cooled_until <= now
}

fn any_ready(w: &ScanWorld, now: i64) -> (r: bool)
    ensures
        r == marked_ready(w, now),
{
    let mut i: usize = 0;
    while i < w.marked_free.len()
        invariant
            0 <= i <= w.marked_free@.len(),
            forall|j: int| 0 <= j < i ==> (#[trigger] w.marked_free@[j]).cooled_until > now,
        decreases w.marked_free@.len() - i,
    {
        if w.marked_free[i].cooled_until <= now {
            assert(w.marked_free@[i as int].cooled_until <= now);
            return true;
        }
        i = i + 1;
    }
    false
}

/// One crew member's work scan from `pos` at time `now` with its three
/// priorities: every candidate in scan order (see `scan_entries`) and the
/// flags the idle cause reads.
pub fn scan_work(w: &ScanWorld, pos: TilePos, now: i64, haul: Priority, build: Priority, operate: Priority) -> (r: ScanResult)
    requires
        world_ok(w),
    ensures
        r.cands@.len() == r.targets@.len(),
        r.cands@.len() == scan_entries(w, pos, now, haul, build, operate).len(),
        forall|i: int|
            0 <= i < r.cands@.len() ==> (#[trigger] r.cands@[i], r.targets@[i]) == scan_entries(
                w,
                pos,
                now,
                haul,
                build,
                operate,
            )[i],
        forall|i: int| 0 <= i < r.cands@.len() ==> dist_ok(#[trigger] r.cands@[i].dist),
        r.marked_any_free == (haul != Priority::Disabled && w.marked_free@.len() > 0),
        r.storage_ok == (haul != Priority::Disabled && rack_room(w.racks@) && marked_ready(w, now)),
        forall|i: int|
            0 <= i < r.targets@.len() ==> ((#[trigger] r.targets@[i]) matches Target::Operate { fab } ==> fab_offerable(
                w,
                fab,
            )),
        forall|i: int|
            0 <= i < r.targets@.len() ==> match #[trigger] r.targets@[i] {
                Target::Build { bp } => site_offerable(w.blueprints@, w.claims@, bp),
                Target::Demo { building } => site_offerable(w.buildings@, w.claims@, building),
                _ => true,
            },
{
    let room = any_room(&w.racks);
    let rk = rack_sources(&w.racks);
    let mut out: Vec<Entry> = Vec::new();
    let haul_on = haul != Priority::Disabled;
    if haul_on {
        push_marked(&mut out, w, room, pos, now, haul);
        push_bp_supply(&mut out, w, &rk, pos, now, haul);
        push_fab_supply(&mut out, w, &rk, pos, now, haul);
        push_outputs(&mut out, w, room, pos, haul);
    }
    let ghost after_haul = out@;
    if build != Priority::Disabled {
        push_sites(&mut out, &w.blueprints, &w.claims, pos, build, true);
        push_sites(&mut out, &w.buildings, &w.claims, pos, build, false);
    }
    if operate != Priority::Disabled {
        push_operate(&mut out, w, pos, operate);
    }
    let ghost all = out@;
    proof {
        assert(all =~= scan_entries(w, pos, now, haul, build, operate));
        lemma_entries_in_range(w, pos, now, haul, build, operate);
    }
    let mut cands: Vec<Candidate> = Vec::new();
    let mut targets: Vec<Target> = Vec::new();
    let mut i: usize = 0;
    while i < out.len()
        invariant
            out@ == all,
            all == scan_entries(w, pos, now, haul, build, operate),
            forall|j: int| 0 <= j < all.len() ==> dist_ok(#[trigger] all[j].0.dist),
            0 <= i <= all.len(),
            cands@.len() == i,
            targets@.len() == i,
            forall|j: int| 0 <= j < i ==> (#[trigger] cands@[j], targets@[j]) == all[j],
        decreases all.len() - i,
    {
        let (c, t) = out[i];
        cands.push(c);
        targets.push(t);
        i = i + 1;
    }
    proof {
        assert forall|j: int| 0 <= j < cands@.len() implies dist_ok(#[trigger] cands@[j].dist) by {
            assert((cands@[j], targets@[j]) == all[j]);
            assert(dist_ok(all[j].0.dist));
        }
        lemma_operate_needs_power(w, pos, now, haul, build, operate);
        lemma_sites_need_open_site(w, pos, now, haul, build, operate);
        assert forall|j: int| 0 <= j < targets@.len() implies match #[trigger] targets@[j] {
            Target::Build { bp } => site_offerable(w.blueprints@, w.claims@, bp),
            Target::Demo { building } => site_offerable(w.buildings@, w.claims@, building),
            _ => true,
        } by {
            assert((cands@[j], targets@[j]) == all[j]);
            assert(all[j].1 == targets@[j]);
        }
        assert forall|j: int| 0 <= j < targets@.len() implies ((#[trigger] targets@[j]) matches Target::Operate { fab }
            ==> fab_offerable(w, fab)) by {
            assert((cands@[j], targets@[j]) == all[j]);
            assert(all[j].1 == targets@[j]);
        }
    }
    let ready = any_ready(w, now);
    ScanResult {
        cands,
        targets,
        marked_any_free: haul_on && w.marked_free.len() > 0,
        storage_ok: haul_on && room && ready,
    }
}

// -------------------------------------------------------------------------------------
// Every candidate distance is in range
// -------------------------------------------------------------------------------------

pub open spec fn all_in_range(s: Seq<Entry>) -> bool {
    forall|j: int| 0 <= j < s.len() ==> dist_ok(#[trigger] s[j].0.dist)
}

proof fn lemma_concat_in_range(a: Seq<Entry>, b: Seq<Entry>)
    requires
        all_in_range(a),
        all_in_range(b),
    ensures
        all_in_range(a + b),
{
    assert forall|j: int| 0 <= j < (a + b).len() implies dist_ok(#[trigger] (a + b)[j].0.dist) by {
        if j < a.len() {
            assert((a + b)[j] == a[j]);
        } else {
            assert((a + b)[j] == b[j - a.len()]);
        }
    }
}

proof fn lemma_marked_in_range(w: &ScanWorld, pos: TilePos, now: i64, prio: Priority, n: int)
    ensures
        all_in_range(marked_entries(w, pos, now, prio, n)),
    decreases n,
{
    if n > 0 {
        lemma_marked_in_range(w, pos, now, prio, n - 1);
        lemma_octile_small(pos, w.marked_free@[n - 1].pos);
        let m = w.marked_free@[n - 1];
        lemma_concat_in_range(
            marked_entries(w, pos, now, prio, n - 1),
            if m.cooled_until <= now && rack_room(w.racks@) {
                seq![
                    (Candidate { prio, dist: spec_octile_distance(pos, m.pos) }, Target::Ground {
                        item: m.id,
                        dest: HaulDest::Storage,
                    }),
                ]
            } else {
                Seq::empty()
            },
        );
    }
}

proof fn lemma_bp_in_range(w: &ScanWorld, pos: TilePos, now: i64, prio: Priority, n: int)
    ensures
        all_in_range(bp_entries(w, pos, now, prio, n)),
    decreases n,
{
    if n > 0 {
        lemma_bp_in_range(w, pos, now, prio, n - 1);
        let (e, kind, miss) = w.bp_needs@[n - 1];
        lemma_concat_in_range(
            bp_entries(w, pos, now, prio, n - 1),
            if inflight_count(w.inflight@, e, kind, w.inflight@.len() as int) < miss {
                supply_entry(w, pos, now, prio, kind, HaulDest::Blueprint(e))
            } else {
                Seq::empty()
            },
        );
    }
}

proof fn lemma_fab_in_range(w: &ScanWorld, pos: TilePos, now: i64, prio: Priority, n: int)
    ensures
        all_in_range(fab_entries(w, pos, now, prio, n)),
    decreases n,
{
    if n > 0 {
        lemma_fab_in_range(w, pos, now, prio, n - 1);
        let (e, want) = w.fab_needs@[n - 1];
        let kind = spec_recipe().in_kind;
        lemma_concat_in_range(
            fab_entries(w, pos, now, prio, n - 1),
            if inflight_count(w.inflight@, e, kind, w.inflight@.len() as int) < want {
                supply_entry(w, pos, now, prio, kind, HaulDest::Machine(e))
            } else {
                Seq::empty()
            },
        );
    }
}

proof fn lemma_output_in_range(w: &ScanWorld, pos: TilePos, prio: Priority, f: FabView, k: int)
    ensures
        all_in_range(output_entries(w, pos, prio, f, k)),
    decreases k,
{
    if k > 0 {
        lemma_output_in_range(w, pos, prio, f, k - 1);
        lemma_concat_in_range(
            output_entries(w, pos, prio, f, k - 1),
            if f.output@[k - 1] > 0 && rack_room(w.racks@) {
                foot_entry(f.foot, pos, prio, Target::MachineOut { fab: f.id, kind: kind_at(k - 1) })
            } else {
                Seq::empty()
            },
        );
    }
}

proof fn lemma_out_in_range(w: &ScanWorld, pos: TilePos, prio: Priority, n: int)
    ensures
        all_in_range(out_entries(w, pos, prio, n)),
    decreases n,
{
    if n > 0 {
        lemma_out_in_range(w, pos, prio, n - 1);
        lemma_output_in_range(w, pos, prio, w.fabs@[n - 1], 3);
        lemma_concat_in_range(out_entries(w, pos, prio, n - 1), output_entries(w, pos, prio, w.fabs@[n - 1], 3));
    }
}

proof fn lemma_sites_in_range(sites: Seq<SiteView>, claims: Seq<u64>, pos: TilePos, prio: Priority, build: bool, n: int)
    ensures
        all_in_range(site_entries(sites, claims, pos, prio, build, n)),
    decreases n,
{
    if n > 0 {
        lemma_sites_in_range(sites, claims, pos, prio, build, n - 1);
        let s = sites[n - 1];
        lemma_concat_in_range(
            site_entries(sites, claims, pos, prio, build, n - 1),
            if s.open && !s.reserved && !claims.contains(s.id) {
                foot_entry(s.foot, pos, prio, if build { Target::Build { bp: s.id } } else { Target::Demo { building: s.id } })
            } else {
                Seq::empty()
            },
        );
    }
}

proof fn lemma_operate_in_range(w: &ScanWorld, pos: TilePos, prio: Priority, n: int)
    ensures
        all_in_range(operate_entries(w, pos, prio, n)),
    decreases n,
{
    if n > 0 {
        lemma_operate_in_range(w, pos, prio, n - 1);
        let f = w.fabs@[n - 1];
        lemma_concat_in_range(
            operate_entries(w, pos, prio, n - 1),
            if f.ready && f.powered && !f.reserved && !w.claims@.contains(f.id) {
                foot_entry(f.foot, pos, prio, Target::Operate { fab: f.id })
            } else {
                Seq::empty()
            },
        );
    }
}

proof fn lemma_entries_in_range(w: &ScanWorld, pos: TilePos, now: i64, haul: Priority, build: Priority, operate: Priority)
    ensures
        all_in_range(scan_entries(w, pos, now, haul, build, operate)),
{
    let h = marked_entries(w, pos, now, haul, w.marked_free@.len() as int) + bp_entries(
        w,
        pos,
        now,
        haul,
        w.bp_needs@.len() as int,
    ) + fab_entries(w, pos, now, haul, w.fab_needs@.len() as int) + out_entries(w, pos, haul, w.fabs@.len() as int);
    lemma_marked_in_range(w, pos, now, haul, w.marked_free@.len() as int);
    lemma_bp_in_range(w, pos, now, haul, w.bp_needs@.len() as int);
    lemma_fab_in_range(w, pos, now, haul, w.fab_needs@.len() as int);
    lemma_out_in_range(w, pos, haul, w.fabs@.len() as int);
    lemma_concat_in_range(
        marked_entries(w, pos, now, haul, w.marked_free@.len() as int),
        bp_entries(w, pos, now, haul, w.bp_needs@.len() as int),
    );
    lemma_concat_in_range(
        marked_entries(w, pos, now, haul, w.marked_free@.len() as int) + bp_entries(
            w,
            pos,
            now,
            haul,
            w.bp_needs@.len() as int,
        ),
        fab_entries(w, pos, now, haul, w.fab_needs@.len() as int),
    );
    lemma_concat_in_range(
        marked_entries(w, pos, now, haul, w.marked_free@.len() as int) + bp_entries(
            w,
            pos,
            now,
            haul,
            w.bp_needs@.len() as int,
        ) + fab_entries(w, pos, now, haul, w.fab_needs@.len() as int),
        out_entries(w, pos, haul, w.fabs@.len() as int),
    );
    let b = site_entries(w.blueprints@, w.claims@, pos, build, true, w.blueprints@.len() as int) + site_entries(
        w.buildings@,
        w.claims@,
        pos,
        build,
        false,
        w.buildings@.len() as int,
    );
    lemma_sites_in_range(w.blueprints@, w.claims@, pos, build, true, w.blueprints@.len() as int);
    lemma_sites_in_range(w.buildings@, w.claims@, pos, build, false, w.buildings@.len() as int);
    lemma_concat_in_range(
        site_entries(w.blueprints@, w.claims@, pos, build, true, w.blueprints@.len() as int),
        site_entries(w.buildings@, w.claims@, pos, build, false, w.buildings@.len() as int),
    );
    lemma_operate_in_range(w, pos, operate, w.fabs@.len() as int);
    let hs = if haul != Priority::Disabled { h } else { Seq::empty() };
    let bs = if build != Priority::Disabled { b } else { Seq::empty() };
    let os = if operate != Priority::Disabled { operate_entries(w, pos, operate, w.fabs@.len() as int) } else { Seq::empty() };
    assert(all_in_range(Seq::<Entry>::empty()));
    lemma_concat_in_range(hs, bs);
    lemma_concat_in_range(hs + bs, os);
}

// -------------------------------------------------------------------------------------
// Claims are exclusive
// -------------------------------------------------------------------------------------

/// `t` is a site or machine job on a target claimed earlier in the pass.
pub open spec fn target_claimed(t: Target, claims: Seq<u64>) -> bool {
    match t {
        Target::Build { bp } => claims.contains(bp),
        Target::Demo { building } => claims.contains(building),
        Target::Operate { fab } => claims.contains(fab),
        _ => false,
    }
}

pub open spec fn none_claimed(s: Seq<Entry>, claims: Seq<u64>) -> bool {
    forall|j: int| 0 <= j < s.len() ==> !target_claimed(#[trigger] s[j].1, claims)
}

proof fn lemma_concat_unclaimed(a: Seq<Entry>, b: Seq<Entry>, claims: Seq<u64>)
    requires
        none_claimed(a, claims),
        none_claimed(b, claims),
    ensures
        none_claimed(a + b, claims),
{
    assert forall|j: int| 0 <= j < (a + b).len() implies !target_claimed(#[trigger] (a + b)[j].1, claims) by {
        if j < a.len() {
            assert((a + b)[j] == a[j]);
        } else {
            assert((a + b)[j] == b[j - a.len()]);
        }
    }
}

proof fn lemma_haul_unclaimed(w: &ScanWorld, pos: TilePos, now: i64, prio: Priority)
    ensures
        none_claimed(marked_entries(w, pos, now, prio, w.marked_free@.len() as int), w.claims@),
        none_claimed(bp_entries(w, pos, now, prio, w.bp_needs@.len() as int), w.claims@),
        none_claimed(fab_entries(w, pos, now, prio, w.fab_needs@.len() as int), w.claims@),
        none_claimed(out_entries(w, pos, prio, w.fabs@.len() as int), w.claims@),
{
    lemma_marked_unclaimed(w, pos, now, prio, w.marked_free@.len() as int);
    lemma_bp_unclaimed(w, pos, now, prio, w.bp_needs@.len() as int);
    lemma_fab_unclaimed(w, pos, now, prio, w.fab_needs@.len() as int);
    lemma_out_unclaimed(w, pos, prio, w.fabs@.len() as int);
}

proof fn lemma_marked_unclaimed(w: &ScanWorld, pos: TilePos, now: i64, prio: Priority, n: int)
    ensures
        none_claimed(marked_entries(w, pos, now, prio, n), w.claims@),
    decreases n,
{
    if n > 0 {
        lemma_marked_unclaimed(w, pos, now, prio, n - 1);
        let m = w.marked_free@[n - 1];
        lemma_concat_unclaimed(
            marked_entries(w, pos, now, prio, n - 1),
            if m.cooled_until <= now && rack_room(w.racks@) {
                seq![
                    (Candidate { prio, dist: spec_octile_distance(pos, m.pos) }, Target::Ground {
                        item: m.id,
                        dest: HaulDest::Storage,
                    }),
                ]
            } else {
                Seq::empty()
            },
            w.claims@,
        );
    }
}

proof fn lemma_bp_unclaimed(w: &ScanWorld, pos: TilePos, now: i64, prio: Priority, n: int)
    ensures
        none_claimed(bp_entries(w, pos, now, prio, n), w.claims@),
    decreases n,
{
    if n > 0 {
        lemma_bp_unclaimed(w, pos, now, prio, n - 1);
        let (e, kind, miss) = w.bp_needs@[n - 1];
        lemma_concat_unclaimed(
            bp_entries(w, pos, now, prio, n - 1),
            if inflight_count(w.inflight@, e, kind, w.inflight@.len() as int) < miss {
                supply_entry(w, pos, now, prio, kind, HaulDest::Blueprint(e))
            } else {
                Seq::empty()
            },
            w.claims@,
        );
    }
}

proof fn lemma_fab_unclaimed(w: &ScanWorld, pos: TilePos, now: i64, prio: Priority, n: int)
    ensures
        none_claimed(fab_entries(w, pos, now, prio, n), w.claims@),
    decreases n,
{
    if n > 0 {
        lemma_fab_unclaimed(w, pos, now, prio, n - 1);
        let (e, want) = w.fab_needs@[n - 1];
        let kind = spec_recipe().in_kind;
        lemma_concat_unclaimed(
            fab_entries(w, pos, now, prio, n - 1),
            if inflight_count(w.inflight@, e, kind, w.inflight@.len() as int) < want {
                supply_entry(w, pos, now, prio, kind, HaulDest::Machine(e))
            } else {
                Seq::empty()
            },
            w.claims@,
        );
    }
}

proof fn lemma_output_unclaimed(w: &ScanWorld, pos: TilePos, prio: Priority, f: FabView, k: int)
    ensures
        none_claimed(output_entries(w, pos, prio, f, k), w.claims@),
    decreases k,
{
    if k > 0 {
        lemma_output_unclaimed(w, pos, prio, f, k - 1);
        lemma_concat_unclaimed(
            output_entries(w, pos, prio, f, k - 1),
            if f.output@[k - 1] > 0 && rack_room(w.racks@) {
                foot_entry(f.foot, pos, prio, Target::MachineOut { fab: f.id, kind: kind_at(k - 1) })
            } else {
                Seq::empty()
            },
            w.claims@,
        );
    }
}

proof fn lemma_out_unclaimed(w: &ScanWorld, pos: TilePos, prio: Priority, n: int)
    ensures
        none_claimed(out_entries(w, pos, prio, n), w.claims@),
    decreases n,
{
    if n > 0 {
        lemma_out_unclaimed(w, pos, prio, n - 1);
        lemma_output_unclaimed(w, pos, prio, w.fabs@[n - 1], 3);
        lemma_concat_unclaimed(out_entries(w, pos, prio, n - 1), output_entries(w, pos, prio, w.fabs@[n - 1], 3), w.claims@);
    }
}

proof fn lemma_sites_unclaimed(sites: Seq<SiteView>, claims: Seq<u64>, pos: TilePos, prio: Priority, build: bool, n: int)
    ensures
        none_claimed(site_entries(sites, claims, pos, prio, build, n), claims),
    decreases n,
{
    if n > 0 {
        lemma_sites_unclaimed(sites, claims, pos, prio, build, n - 1);
        let s = sites[n - 1];
        lemma_concat_unclaimed(
            site_entries(sites, claims, pos, prio, build, n - 1),
            if s.open && !s.reserved && !claims.contains(s.id) {
                foot_entry(s.foot, pos, prio, if build { Target::Build { bp: s.id } } else { Target::Demo { building: s.id } })
            } else {
                Seq::empty()
            },
            claims,
        );
    }
}

proof fn lemma_operate_unclaimed(w: &ScanWorld, pos: TilePos, prio: Priority, n: int)
    ensures
        none_claimed(operate_entries(w, pos, prio, n), w.claims@),
    decreases n,
{
    if n > 0 {
        lemma_operate_unclaimed(w, pos, prio, n - 1);
        let f = w.fabs@[n - 1];
        lemma_concat_unclaimed(
            operate_entries(w, pos, prio, n - 1),
            if f.ready && f.powered && !f.reserved && !w.claims@.contains(f.id) {
                foot_entry(f.foot, pos, prio, Target::Operate { fab: f.id })
            } else {
                Seq::empty()
            },
            w.claims@,
        );
    }
}

/// Claims are exclusive: no construction site, building or fabricator
/// claimed earlier in the scan pass is offered again.
pub proof fn lemma_claimed_not_offered(
    w: &ScanWorld,
    pos: TilePos,
    now: i64,
    haul: Priority,
    build: Priority,
    operate: Priority,
)
    ensures
        none_claimed(scan_entries(w, pos, now, haul, build, operate), w.claims@),
{
    let c = w.claims@;
    lemma_haul_unclaimed(w, pos, now, haul);
    let m = marked_entries(w, pos, now, haul, w.marked_free@.len() as int);
    let b = bp_entries(w, pos, now, haul, w.bp_needs@.len() as int);
    let f = fab_entries(w, pos, now, haul, w.fab_needs@.len() as int);
    let o = out_entries(w, pos, haul, w.fabs@.len() as int);
    lemma_concat_unclaimed(m, b, c);
    lemma_concat_unclaimed(m + b, f, c);
    lemma_concat_unclaimed(m + b + f, o, c);
    let s1 = site_entries(w.blueprints@, c, pos, build, true, w.blueprints@.len() as int);
    let s2 = site_entries(w.buildings@, c, pos, build, false, w.buildings@.len() as int);
    lemma_sites_unclaimed(w.blueprints@, c, pos, build, true, w.blueprints@.len() as int);
    lemma_sites_unclaimed(w.buildings@, c, pos, build, false, w.buildings@.len() as int);
    lemma_concat_unclaimed(s1, s2, c);
    let op = operate_entries(w, pos, operate, w.fabs@.len() as int);
    lemma_operate_unclaimed(w, pos, operate, w.fabs@.len() as int);
    let hs = if haul != Priority::Disabled { m + b + f + o } else { Seq::empty() };
    let bs = if build != Priority::Disabled { s1 + s2 } else { Seq::empty() };
    let os = if operate != Priority::Disabled { op } else { Seq::empty() };
    assert(none_claimed(Seq::<Entry>::empty(), c));
    lemma_concat_unclaimed(hs, bs, c);
    lemma_concat_unclaimed(hs + bs, os, c);
}

// -------------------------------------------------------------------------------------
// Operate jobs need a powered, ready, free machine
// -------------------------------------------------------------------------------------

/// A hauling job (ground item, rack stock or machine output).
pub open spec fn haul_target(t: Target) -> bool {
    t is Ground || t is RackPull || t is MachineOut
}

pub open spec fn all_haul(s: Seq<Entry>) -> bool {
    forall|j: int| 0 <= j < s.len() ==> haul_target(#[trigger] s[j].1)
}

/// Some fabricator with id `fab` is powered, ready for a worker, not
/// reserved, and not claimed earlier in the pass.
pub open spec fn fab_offerable(w: &ScanWorld, fab: u64) -> bool {
    exists|i: int|
        0 <= i < w.fabs@.len() && (#[trigger] w.fabs@[i]).id == fab && w.fabs@[i].powered && w.fabs@[i].ready
            && !w.fabs@[i].reserved && !w.claims@.contains(fab)
}

/// Every operate job in `s` is on an offerable fabricator.
pub open spec fn operate_ok(w: &ScanWorld, s: Seq<Entry>) -> bool {
    forall|j: int| 0 <= j < s.len() ==> ((#[trigger] s[j].1) matches Target::Operate { fab } ==> fab_offerable(w, fab))
}

proof fn lemma_concat_haul(a: Seq<Entry>, b: Seq<Entry>)
    requires
        all_haul(a),
        all_haul(b),
    ensures
        all_haul(a + b),
{
    assert forall|j: int| 0 <= j < (a + b).len() implies haul_target(#[trigger] (a + b)[j].1) by {
        if j < a.len() {
            assert((a + b)[j] == a[j]);
        } else {
            assert((a + b)[j] == b[j - a.len()]);
        }
    }
}

proof fn lemma_concat_operate_ok(w: &ScanWorld, a: Seq<Entry>, b: Seq<Entry>)
    requires
        operate_ok(w, a),
        operate_ok(w, b),
    ensures
        operate_ok(w, a + b),
{
    assert forall|j: int| 0 <= j < (a + b).len() implies ((#[trigger] (a + b)[j].1) matches Target::Operate { fab }
        ==> fab_offerable(w, fab)) by {
        if j < a.len() {
            assert((a + b)[j] == a[j]);
        } else {
            assert((a + b)[j] == b[j - a.len()]);
        }
    }
}

proof fn lemma_haul_ok(w: &ScanWorld, s: Seq<Entry>)
    requires
        all_haul(s),
    ensures
        operate_ok(w, s),
{
    assert forall|j: int| 0 <= j < s.len() implies ((#[trigger] s[j].1) matches Target::Operate { fab }
        ==> fab_offerable(w, fab)) by {
        assert(haul_target(s[j].1));
    }
}

proof fn lemma_supply_haul(w: &ScanWorld, pos: TilePos, now: i64, prio: Priority, kind: ItemKind, dest: HaulDest)
    ensures
        all_haul(supply_entry(w, pos, now, prio, kind, dest)),
{
}

proof fn lemma_foot_entry_target(foot: Footprint, pos: TilePos, prio: Priority, t: Target)
    ensures
        forall|j: int| 0 <= j < foot_entry(foot, pos, prio, t).len() ==> #[trigger] foot_entry(foot, pos, prio, t)[j].1 == t,
{
}

proof fn lemma_marked_haul(w: &ScanWorld, pos: TilePos, now: i64, prio: Priority, n: int)
    ensures
        all_haul(marked_entries(w, pos, now, prio, n)),
    decreases n,
{
    if n > 0 {
        lemma_marked_haul(w, pos, now, prio, n - 1);
        let m = w.marked_free@[n - 1];
        lemma_concat_haul(
            marked_entries(w, pos, now, prio, n - 1),
            if m.cooled_until <= now && rack_room(w.racks@) {
                seq![
                    (Candidate { prio, dist: spec_octile_distance(pos, m.pos) }, Target::Ground {
                        item: m.id,
                        dest: HaulDest::Storage,
                    }),
                ]
            } else {
                Seq::empty()
            },
        );
    }
}

proof fn lemma_bp_haul(w: &ScanWorld, pos: TilePos, now: i64, prio: Priority, n: int)
    ensures
        all_haul(bp_entries(w, pos, now, prio, n)),
    decreases n,
{
    if n > 0 {
        lemma_bp_haul(w, pos, now, prio, n - 1);
        let (e, kind, miss) = w.bp_needs@[n - 1];
        lemma_supply_haul(w, pos, now, prio, kind, HaulDest::Blueprint(e));
        lemma_concat_haul(
            bp_entries(w, pos, now, prio, n - 1),
            if inflight_count(w.inflight@, e, kind, w.inflight@.len() as int) < miss {
                supply_entry(w, pos, now, prio, kind, HaulDest::Blueprint(e))
            } else {
                Seq::empty()
            },
        );
    }
}

proof fn lemma_fab_haul(w: &ScanWorld, pos: TilePos, now: i64, prio: Priority, n: int)
    ensures
        all_haul(fab_entries(w, pos, now, prio, n)),
    decreases n,
{
    if n > 0 {
        lemma_fab_haul(w, pos, now, prio, n - 1);
        let (e, want) = w.fab_needs@[n - 1];
        let kind = spec_recipe().in_kind;
        lemma_supply_haul(w, pos, now, prio, kind, HaulDest::Machine(e));
        lemma_concat_haul(
            fab_entries(w, pos, now, prio, n - 1),
            if inflight_count(w.inflight@, e, kind, w.inflight@.len() as int) < want {
                supply_entry(w, pos, now, prio, kind, HaulDest::Machine(e))
            } else {
                Seq::empty()
            },
        );
    }
}

proof fn lemma_output_haul(w: &ScanWorld, pos: TilePos, prio: Priority, f: FabView, k: int)
    ensures
        all_haul(output_entries(w, pos, prio, f, k)),
    decreases k,
{
    if k > 0 {
        lemma_output_haul(w, pos, prio, f, k - 1);
        let t = Target::MachineOut { fab: f.id, kind: kind_at(k - 1) };
        lemma_foot_entry_target(f.foot, pos, prio, t);
        lemma_concat_haul(
            output_entries(w, pos, prio, f, k - 1),
            if f.output@[k - 1] > 0 && rack_room(w.racks@) {
                foot_entry(f.foot, pos, prio, t)
            } else {
                Seq::empty()
            },
        );
    }
}

proof fn lemma_out_haul(w: &ScanWorld, pos: TilePos, prio: Priority, n: int)
    ensures
        all_haul(out_entries(w, pos, prio, n)),
    decreases n,
{
    if n > 0 {
        lemma_out_haul(w, pos, prio, n - 1);
        lemma_output_haul(w, pos, prio, w.fabs@[n - 1], 3);
        lemma_concat_haul(out_entries(w, pos, prio, n - 1), output_entries(w, pos, prio, w.fabs@[n - 1], 3));
    }
}

proof fn lemma_sites_operate_ok(w: &ScanWorld, sites: Seq<SiteView>, pos: TilePos, prio: Priority, build: bool, n: int)
    ensures
        operate_ok(w, site_entries(sites, w.claims@, pos, prio, build, n)),
    decreases n,
{
    if n > 0 {
        lemma_sites_operate_ok(w, sites, pos, prio, build, n - 1);
        let s = sites[n - 1];
        let t = if build { Target::Build { bp: s.id } } else { Target::Demo { building: s.id } };
        lemma_foot_entry_target(s.foot, pos, prio, t);
        lemma_concat_operate_ok(
            w,
            site_entries(sites, w.claims@, pos, prio, build, n - 1),
            if s.open && !s.reserved && !w.claims@.contains(s.id) {
                foot_entry(s.foot, pos, prio, t)
            } else {
                Seq::empty()
            },
        );
    }
}

proof fn lemma_operate_entries_ok(w: &ScanWorld, pos: TilePos, prio: Priority, n: int)
    requires
        n <= w.fabs@.len(),
    ensures
        operate_ok(w, operate_entries(w, pos, prio, n)),
    decreases n,
{
    if n > 0 {
        lemma_operate_entries_ok(w, pos, prio, n - 1);
        let f = w.fabs@[n - 1];
        let t = Target::Operate { fab: f.id };
        lemma_foot_entry_target(f.foot, pos, prio, t);
        let tail = if f.ready && f.powered && !f.reserved && !w.claims@.contains(f.id) {
            foot_entry(f.foot, pos, prio, t)
        } else {
            Seq::empty()
        };
        assert forall|j: int| 0 <= j < tail.len() implies ((#[trigger] tail[j].1) matches Target::Operate { fab }
            ==> fab_offerable(w, fab)) by {
            assert(tail[j].1 == t);
            assert(w.fabs@[n - 1] == f);
        }
        lemma_concat_operate_ok(w, operate_entries(w, pos, prio, n - 1), tail);
    }
}

/// An operate job is offered only on a fabricator that is powered, ready
/// for a worker, not reserved and not claimed earlier in the pass: an
/// unpowered machine never gets a worker.
pub proof fn lemma_operate_needs_power(
    w: &ScanWorld,
    pos: TilePos,
    now: i64,
    haul: Priority,
    build: Priority,
    operate: Priority,
)
    ensures
        operate_ok(w, scan_entries(w, pos, now, haul, build, operate)),
{
    lemma_marked_haul(w, pos, now, haul, w.marked_free@.len() as int);
    lemma_bp_haul(w, pos, now, haul, w.bp_needs@.len() as int);
    lemma_fab_haul(w, pos, now, haul, w.fab_needs@.len() as int);
    lemma_out_haul(w, pos, haul, w.fabs@.len() as int);
    let m = marked_entries(w, pos, now, haul, w.marked_free@.len() as int);
    let b = bp_entries(w, pos, now, haul, w.bp_needs@.len() as int);
    let f = fab_entries(w, pos, now, haul, w.fab_needs@.len() as int);
    let o = out_entries(w, pos, haul, w.fabs@.len() as int);
    lemma_concat_haul(m, b);
    lemma_concat_haul(m + b, f);
    lemma_concat_haul(m + b + f, o);
    let hs = if haul != Priority::Disabled { m + b + f + o } else { Seq::empty() };
    lemma_haul_ok(w, hs);
    let s1 = site_entries(w.blueprints@, w.claims@, pos, build, true, w.blueprints@.len() as int);
    let s2 = site_entries(w.buildings@, w.claims@, pos, build, false, w.buildings@.len() as int);
    lemma_sites_operate_ok(w, w.blueprints@, pos, build, true, w.blueprints@.len() as int);
    lemma_sites_operate_ok(w, w.buildings@, pos, build, false, w.buildings@.len() as int);
    lemma_concat_operate_ok(w, s1, s2);
    let bs = if build != Priority::Disabled { s1 + s2 } else { Seq::empty() };
    lemma_operate_entries_ok(w, pos, operate, w.fabs@.len() as int);
    let os = if operate != Priority::Disabled { operate_entries(w, pos, operate, w.fabs@.len() as int) } else { Seq::empty() };
    lemma_concat_operate_ok(w, hs, bs);
    lemma_concat_operate_ok(w, hs + bs, os);
}

// -------------------------------------------------------------------------------------
// Site jobs need an open, free site
// -------------------------------------------------------------------------------------

/// Some site with id `id` is open (blueprint supplied / building marked),
/// not reserved, and not claimed earlier in the pass.
pub open spec fn site_offerable(sites: Seq<SiteView>, claims: Seq<u64>, id: u64) -> bool {
    exists|i: int|
        0 <= i < sites.len() && (#[trigger] sites[i]).id == id && sites[i].open && !sites[i].reserved && !claims.contains(
            id,
        )
}

/// Every build job in `s` is on an offerable blueprint and every
/// deconstruction job on an offerable building.
pub open spec fn sites_ok(w: &ScanWorld, s: Seq<Entry>) -> bool {
    forall|j: int|
        0 <= j < s.len() ==> match #[trigger] s[j].1 {
            Target::Build { bp } => site_offerable(w.blueprints@, w.claims@, bp),
            Target::Demo { building } => site_offerable(w.buildings@, w.claims@, building),
            _ => true,
        }
}

proof fn lemma_concat_sites_ok(w: &ScanWorld, a: Seq<Entry>, b: Seq<Entry>)
    requires
        sites_ok(w, a),
        sites_ok(w, b),
    ensures
        sites_ok(w, a + b),
{
    assert forall|j: int| 0 <= j < (a + b).len() implies match #[trigger] (a + b)[j].1 {
        Target::Build { bp } => site_offerable(w.blueprints@, w.claims@, bp),
        Target::Demo { building } => site_offerable(w.buildings@, w.claims@, building),
        _ => true,
    } by {
        if j < a.len() {
            assert((a + b)[j] == a[j]);
        } else {
            assert((a + b)[j] == b[j - a.len()]);
        }
    }
}

proof fn lemma_haul_sites_ok(w: &ScanWorld, s: Seq<Entry>)
    requires
        all_haul(s),
    ensures
        sites_ok(w, s),
{
    assert forall|j: int| 0 <= j < s.len() implies match #[trigger] s[j].1 {
        Target::Build { bp } => site_offerable(w.blueprints@, w.claims@, bp),
        Target::Demo { building } => site_offerable(w.buildings@, w.claims@, building),
        _ => true,
    } by {
        assert(haul_target(s[j].1));
    }
}

proof fn lemma_site_entries_ok(w: &ScanWorld, pos: TilePos, prio: Priority, build: bool, n: int)
    requires
        n <= (if build { w.blueprints@ } else { w.buildings@ }).len(),
    ensures
        sites_ok(w, site_entries(if build { w.blueprints@ } else { w.buildings@ }, w.claims@, pos, prio, build, n)),
    decreases n,
{
    let sites = if build { w.blueprints@ } else { w.buildings@ };
    if n > 0 {
        lemma_site_entries_ok(w, pos, prio, build, n - 1);
        let st = sites[n - 1];
        let t = if build { Target::Build { bp: st.id } } else { Target::Demo { building: st.id } };
        lemma_foot_entry_target(st.foot, pos, prio, t);
        let tail = if st.open && !st.reserved && !w.claims@.contains(st.id) {
            foot_entry(st.foot, pos, prio, t)
        } else {
            Seq::empty()
        };
        assert forall|j: int| 0 <= j < tail.len() implies match #[trigger] tail[j].1 {
            Target::Build { bp } => site_offerable(w.blueprints@, w.claims@, bp),
            Target::Demo { building } => site_offerable(w.buildings@, w.claims@, building),
            _ => true,
        } by {
            assert(tail[j].1 == t);
            assert(sites[n - 1] == st);
        }
        lemma_concat_sites_ok(w, site_entries(sites, w.claims@, pos, prio, build, n - 1), tail);
    }
}

proof fn lemma_operate_sites_ok(w: &ScanWorld, pos: TilePos, prio: Priority, n: int)
    ensures
        sites_ok(w, operate_entries(w, pos, prio, n)),
    decreases n,
{
    if n > 0 {
        lemma_operate_sites_ok(w, pos, prio, n - 1);
        let f = w.fabs@[n - 1];
        let t = Target::Operate { fab: f.id };
        lemma_foot_entry_target(f.foot, pos, prio, t);
        lemma_concat_sites_ok(
            w,
            operate_entries(w, pos, prio, n - 1),
            if f.ready && f.powered && !f.reserved && !w.claims@.contains(f.id) {
                foot_entry(f.foot, pos, prio, t)
            } else {
                Seq::empty()
            },
        );
    }
}

/// A construction job is offered only on a fully supplied blueprint, and a
/// deconstruction job only on a building marked for it; neither when the
/// site is reserved or was claimed earlier in the pass.
pub proof fn lemma_sites_need_open_site(
    w: &ScanWorld,
    pos: TilePos,
    now: i64,
    haul: Priority,
    build: Priority,
    operate: Priority,
)
    ensures
        sites_ok(w, scan_entries(w, pos, now, haul, build, operate)),
{
    lemma_marked_haul(w, pos, now, haul, w.marked_free@.len() as int);
    lemma_bp_haul(w, pos, now, haul, w.bp_needs@.len() as int);
    lemma_fab_haul(w, pos, now, haul, w.fab_needs@.len() as int);
    lemma_out_haul(w, pos, haul, w.fabs@.len() as int);
    let m = marked_entries(w, pos, now, haul, w.marked_free@.len() as int);
    let b = bp_entries(w, pos, now, haul, w.bp_needs@.len() as int);
    let f = fab_entries(w, pos, now, haul, w.fab_needs@.len() as int);
    let o = out_entries(w, pos, haul, w.fabs@.len() as int);
    lemma_concat_haul(m, b);
    lemma_concat_haul(m + b, f);
    lemma_concat_haul(m + b + f, o);
    let hs = if haul != Priority::Disabled { m + b + f + o } else { Seq::empty() };
    lemma_haul_sites_ok(w, hs);
    let s1 = site_entries(w.blueprints@, w.claims@, pos, build, true, w.blueprints@.len() as int);
    let s2 = site_entries(w.buildings@, w.claims@, pos, build, false, w.buildings@.len() as int);
    lemma_site_entries_ok(w, pos, build, true, w.blueprints@.len() as int);
    lemma_site_entries_ok(w, pos, build, false, w.buildings@.len() as int);
    lemma_concat_sites_ok(w, s1, s2);
    let bs = if build != Priority::Disabled { s1 + s2 } else { Seq::empty() };
    lemma_operate_sites_ok(w, pos, operate, w.fabs@.len() as int);
    let os = if operate != Priority::Disabled { operate_entries(w, pos, operate, w.fabs@.len() as int) } else { Seq::empty() };
    lemma_concat_sites_ok(w, hs, bs);
    lemma_concat_sites_ok(w, hs + bs, os);
}

} // verus!
