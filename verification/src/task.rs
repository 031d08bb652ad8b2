//! One step of a crew member's current job. Each function takes the job
//! and what the crew member sees of the world this step, and decides what
//! happens next; the caller applies the decision (moves the item, completes
//! the building, writes the log).

use crate::building::{first_reached, fp_ok, interaction_seq, path_to_interaction, Footprint};
use crate::crew::{CrewTask, HaulDest, HaulJob, HaulPhase, IdleCause, WorkJob, WorkPhase};
use crate::jobs::{
    at_interaction, choose_rack, timer_tick, DELIVER_US, PICKUP_US, RESCAN_CANCELED_US, RESCAN_FAILED_US,
    RESCAN_UNREACHABLE_US,
};
use crate::map::{drop_spot, find_drop_tile, ShipMap, TilePos};
use crate::path::{cost_bound, lemma_reaches_reachable, reachable, reaches, route, spec_path_cost};
use crate::thermal::{spec_work_factor_ppm, ThermalState};
use vstd::prelude::*;

verus! {

/// Why a work job (build, deconstruct, operate) ends before completion.
#[derive(Clone, Copy, PartialEq, Eq, Structural, Debug)]
pub enum JobEnd {
    BlueprintGone,
    BuildingGone,
    MachineGone,
    /// The deconstruction mark was removed.
    Unmarked,
    NoPathToBlueprint,
    NoPathToBuilding,
    NoPathToMachine,
    /// The order was cleared, or the machine lost power, before work began.
    OrderCanceled,
    /// Power was lost mid-cycle.
    PowerLost,
    /// The order was cleared, or the operator displaced, mid-cycle.
    Interrupted,
}

/// How long a crew member whose job ended this way waits before looking
/// for work again (sim microseconds).
pub open spec fn spec_rescan_after(e: JobEnd) -> int {
    match e {
        JobEnd::NoPathToBlueprint | JobEnd::NoPathToBuilding | JobEnd::NoPathToMachine => RESCAN_UNREACHABLE_US as int,
        JobEnd::PowerLost | JobEnd::Interrupted => RESCAN_FAILED_US as int,
        _ => RESCAN_CANCELED_US as int,
    }
}

impl JobEnd {
    pub fn rescan_after(self) -> (r: i64)
        ensures
            r == spec_rescan_after(self),
    {
        match self {
            JobEnd::NoPathToBlueprint | JobEnd::NoPathToBuilding | JobEnd::NoPathToMachine => RESCAN_UNREACHABLE_US,
            JobEnd::PowerLost | JobEnd::Interrupted => RESCAN_FAILED_US,
            _ => RESCAN_CANCELED_US,
        }
    }

    /// Whether the job held a reservation on a target that still exists
    /// (and must release it).
    pub fn releases_target(self) -> (r: bool)
        ensures
            r == !(self == JobEnd::BlueprintGone || self == JobEnd::BuildingGone || self == JobEnd::MachineGone),
    {
        match self {
            JobEnd::BlueprintGone | JobEnd::BuildingGone | JobEnd::MachineGone => false,
            _ => true,
        }
    }

    /// Player-facing reason.
    pub fn detail(self) -> (r: &'static str)
        ensures
            self == JobEnd::BlueprintGone ==> r@ == "blueprint gone"@,
            self == JobEnd::BuildingGone ==> r@ == "building gone"@,
            self == JobEnd::MachineGone ==> r@ == "machine gone"@,
            self == JobEnd::Unmarked ==> r@ == "deconstruction unmarked"@,
            self == JobEnd::NoPathToBlueprint ==> r@ == "no path to blueprint"@,
            self == JobEnd::NoPathToBuilding ==> r@ == "no path to building"@,
            self == JobEnd::NoPathToMachine ==> r@ == "no path to machine"@,
            self == JobEnd::OrderCanceled ==> r@ == "order canceled"@,
            self == JobEnd::PowerLost ==> r@ == "power lost"@,
            self == JobEnd::Interrupted ==> r@ == "interrupted"@,
    {
        match self {
            JobEnd::BlueprintGone => "blueprint gone",
            JobEnd::BuildingGone => "building gone",
            JobEnd::MachineGone => "machine gone",
            JobEnd::Unmarked => "deconstruction unmarked",
            JobEnd::NoPathToBlueprint => "no path to blueprint",
            JobEnd::NoPathToBuilding => "no path to building",
            JobEnd::NoPathToMachine => "no path to machine",
            JobEnd::OrderCanceled => "order canceled",
            JobEnd::PowerLost => "power lost",
            JobEnd::Interrupted => "interrupted",
        }
    }
}

/// What a work job does this step.
pub enum WorkStep {
    /// Still walking along the current route.
    Wait,
    /// Still walking, along this new route.
    Route(Vec<TilePos>),
    /// Arrived at the target: the job starts working with this state.
    Started(WorkJob),
    /// Working; the job's new state.
    Progress(WorkJob),
    /// No longer at the target: walk back to it with this state.
    Resume(WorkJob),
    /// The work is done: apply the completion.
    Finished,
    /// The job ends early.
    Abort(JobEnd),
}

/// A walking job toward `foot`: start work on arrival at an interaction
/// tile (`work_us` of work), route to the nearest reachable interaction tile
/// when the crew has no route, give up with `no_path` when none is
/// reachable, and keep walking otherwise.
pub open spec fn going_ok(
    map: &ShipMap,
    pos: TilePos,
    path_empty: bool,
    job: WorkJob,
    foot: Footprint,
    work_us: i64,
    no_path: JobEnd,
    r: WorkStep,
) -> bool {
    if path_empty && interaction_seq(map, foot).contains(pos) {
        r == WorkStep::Started(
            WorkJob { target: job.target, phase: WorkPhase::Working, timer: work_us, total: if work_us < 1 {
                1
            } else {
                work_us
            } },
        )
    } else if path_empty {
        match r {
            WorkStep::Route(p) => exists|i: int| #[trigger] first_reached(map, pos, interaction_seq(map, foot), i, p@),
            WorkStep::Abort(e) => e == no_path && forall|j: int|
                0 <= j < interaction_seq(map, foot).len() ==> !#[trigger] reachable(
                    map,
                    pos,
                    interaction_seq(map, foot)[j],
                ),
            _ => false,
        }
    } else {
        r == WorkStep::Wait
    }
}

/// A working job on `foot` advancing by `spent` microseconds of work:
/// walk back when displaced, finish when the remaining work runs out.
pub open spec fn working_ok(map: &ShipMap, pos: TilePos, job: WorkJob, foot: Footprint, spent: int, r: WorkStep) -> bool {
    if !interaction_seq(map, foot).contains(pos) {
        r == WorkStep::Resume(WorkJob { phase: WorkPhase::Going, ..job })
    } else if job.timer - spent <= 0 {
        r == WorkStep::Finished
    } else {
        r == WorkStep::Progress(WorkJob { timer: (job.timer - spent) as i64, ..job })
    }
}

fn going_step(
    map: &ShipMap,
    pos: TilePos,
    path_empty: bool,
    job: WorkJob,
    foot: &Footprint,
    work_us: i64,
    no_path: JobEnd,
) -> (r: WorkStep)
    requires
        map.wf(),
        fp_ok(*foot),
    ensures
        going_ok(map, pos, path_empty, job, *foot, work_us, no_path, r),
{
    if path_empty && at_interaction(map, pos, foot) {
        let total = if work_us < 1 {
            1
        } else {
            work_us
        };
        WorkStep::Started(WorkJob { target: job.target, phase: WorkPhase::Working, timer: work_us, total })
    } else if path_empty {
        match path_to_interaction(map, pos, foot) {
            Some(p) => {
                let r = WorkStep::Route(p);
                assert(r matches WorkStep::Route(q) && q@ == p@);
                r
            },
            None => WorkStep::Abort(no_path),
        }
    } else {
        WorkStep::Wait
    }
}

fn working_step(map: &ShipMap, pos: TilePos, job: WorkJob, foot: &Footprint, spent: i64) -> (r: WorkStep)
    requires
        map.wf(),
        fp_ok(*foot),
        spent >= 0,
    ensures
        working_ok(map, pos, job, *foot, spent as int, r),
{
    if !at_interaction(map, pos, foot) {
        WorkStep::Resume(WorkJob { phase: WorkPhase::Going, ..job })
    } else if job.timer <= spent {
        WorkStep::Finished
    } else {
        WorkStep::Progress(WorkJob { timer: job.timer - spent, ..job })
    }
}

/// One step of a construction job on the blueprint whose footprint is
/// `foot` (`None` once the blueprint is gone). Building takes `work_us`.
pub fn build_step(
    map: &ShipMap,
    pos: TilePos,
    path_empty: bool,
    job: WorkJob,
    foot: Option<Footprint>,
    work_us: i64,
    dt: i64,
) -> (r: WorkStep)
    requires
        map.wf(),
        foot matches Some(f) ==> fp_ok(f),
        dt >= 0,
    ensures
        match foot {
            None => r == WorkStep::Abort(JobEnd::BlueprintGone),
            Some(f) => match job.phase {
                WorkPhase::Going => going_ok(map, pos, path_empty, job, f, work_us, JobEnd::NoPathToBlueprint, r),
                WorkPhase::Working => working_ok(map, pos, job, f, dt as int, r),
            },
        },
{
    match foot {
        None => WorkStep::Abort(JobEnd::BlueprintGone),
        Some(f) => match job.phase {
            WorkPhase::Going => going_step(map, pos, path_empty, job, &f, work_us, JobEnd::NoPathToBlueprint),
            WorkPhase::Working => working_step(map, pos, job, &f, dt),
        },
    }
}

/// One step of a deconstruction job on the building whose footprint is
/// `foot` (`None` once it is gone); `marked` is whether the building is
/// still marked for deconstruction. Tearing down takes `work_us`.
pub fn deconstruct_step(
    map: &ShipMap,
    pos: TilePos,
    path_empty: bool,
    job: WorkJob,
    foot: Option<Footprint>,
    marked: bool,
    work_us: i64,
    dt: i64,
) -> (r: WorkStep)
    requires
        map.wf(),
        foot matches Some(f) ==> fp_ok(f),
        dt >= 0,
    ensures
        match foot {
            None => r == WorkStep::Abort(JobEnd::BuildingGone),
            Some(f) => if !marked {
                r == WorkStep::Abort(JobEnd::Unmarked)
            } else {
                match job.phase {
                    WorkPhase::Going => going_ok(map, pos, path_empty, job, f, work_us, JobEnd::NoPathToBuilding, r),
                    WorkPhase::Working => working_ok(map, pos, job, f, dt as int, r),
                }
            },
        },
{
    match foot {
        None => WorkStep::Abort(JobEnd::BuildingGone),
        Some(f) => {
            if !marked {
                return WorkStep::Abort(JobEnd::Unmarked);
            }
            match job.phase {
                WorkPhase::Going => going_step(map, pos, path_empty, job, &f, work_us, JobEnd::NoPathToBuilding),
                WorkPhase::Working => working_step(map, pos, job, &f, dt),
            }
        },
    }
}

/// Work a fabricator gets done in `dt` under its thermal state: full speed
/// without one, else scaled by the state's factor (rounded down).
pub open spec fn operate_spent(dt: int, thermal: Option<ThermalState>) -> int {
    match thermal {
        None => dt,
        Some(s) => dt * spec_work_factor_ppm(s) / 1_000_000,
    }
}

/// One step of operating the fabricator whose footprint is `foot` (`None`
/// once it is gone). `ready` says whether the machine can start a cycle,
/// `powered` whether it has power, `active` whether its current cycle is
/// still running; a cycle takes `work_us`.
pub fn operate_step(
    map: &ShipMap,
    pos: TilePos,
    path_empty: bool,
    job: WorkJob,
    foot: Option<Footprint>,
    ready: bool,
    powered: bool,
    active: bool,
    thermal: Option<ThermalState>,
    work_us: i64,
    dt: i64,
) -> (r: WorkStep)
    requires
        map.wf(),
        foot matches Some(f) ==> fp_ok(f),
        0 <= dt <= i64::MAX / 1_000_000,
    ensures
        match foot {
            None => r == WorkStep::Abort(JobEnd::MachineGone),
            Some(f) => match job.phase {
                WorkPhase::Going => if !ready || !powered {
                    r == WorkStep::Abort(JobEnd::OrderCanceled)
                } else {
                    going_ok(map, pos, path_empty, job, f, work_us, JobEnd::NoPathToMachine, r)
                },
                WorkPhase::Working => if !powered {
                    r == WorkStep::Abort(JobEnd::PowerLost)
                } else if !active || !interaction_seq(map, f).contains(pos) {
                    r == WorkStep::Abort(JobEnd::Interrupted)
                } else {
                    working_ok(map, pos, job, f, operate_spent(dt as int, thermal), r)
                },
            },
        },
{
    match foot {
        None => WorkStep::Abort(JobEnd::MachineGone),
        Some(f) => match job.phase {
            WorkPhase::Going => {
                if !ready || !powered {
                    WorkStep::Abort(JobEnd::OrderCanceled)
                } else {
                    going_step(map, pos, path_empty, job, &f, work_us, JobEnd::NoPathToMachine)
                }
            },
            WorkPhase::Working => {
                if !powered {
                    WorkStep::Abort(JobEnd::PowerLost)
                } else if !active || !at_interaction(map, pos, &f) {
                    WorkStep::Abort(JobEnd::Interrupted)
                } else {
                    let spent: i64 = match thermal {
                        None => dt,
                        Some(s) => {
                            let ppm = s.work_factor_ppm();
                            let prod: i64 = dt * (ppm as i64);
                            assert(0 <= prod <= dt * 1_000_000) by (nonlinear_arith)
                                requires
                                    prod == dt * ppm,
                                    0 <= ppm <= 1_000_000,
                                    0 <= dt,
                            ;
                            prod / 1_000_000
                        },
                    };
                    working_step(map, pos, job, &f, spent)
                }
            },
        },
    }
}


// =====================================================================================
// Hauling
// =====================================================================================

/// Why a haul is called off before anything was carried.
#[derive(Clone, Copy, PartialEq, Eq, Structural, Debug)]
pub enum HaulCancel {
    TargetVanished,
    /// A storage haul's item lost its haul mark before pickup.
    ItemUnmarked,
    /// Another crew member carries the item.
    ClaimedElsewhere,
}

impl HaulCancel {
    pub fn detail(self) -> (r: &'static str)
        ensures
            self == HaulCancel::TargetVanished ==> r@ == "target vanished"@,
            self == HaulCancel::ItemUnmarked ==> r@ == "item unmarked"@,
            self == HaulCancel::ClaimedElsewhere ==> r@ == "item claimed elsewhere"@,
    {
        match self {
            HaulCancel::TargetVanished => "target vanished",
            HaulCancel::ItemUnmarked => "item unmarked",
            HaulCancel::ClaimedElsewhere => "item claimed elsewhere",
        }
    }
}

/// Why a haul fails.
#[derive(Clone, Copy, PartialEq, Eq, Structural, Debug)]
pub enum HaulFail {
    NoPathToItem,
    NoStorage,
    BlueprintGoneNoStorage,
    MachineGoneNoStorage,
    StorageGone,
    NoFreeStorage,
    NoPathToStorage,
    NoPathToBlueprint,
    NoPathToMachine,
}

impl HaulFail {
    pub fn detail(self) -> (r: &'static str)
        ensures
            self == HaulFail::NoPathToItem ==> r@ == "no path to item"@,
            self == HaulFail::NoStorage ==> r@ == "no storage accepts the item"@,
            self == HaulFail::BlueprintGoneNoStorage ==> r@ == "blueprint gone, no storage"@,
            self == HaulFail::MachineGoneNoStorage ==> r@ == "fabricator gone, no storage"@,
            self == HaulFail::StorageGone ==> r@ == "storage gone"@,
            self == HaulFail::NoFreeStorage ==> r@ == "no free storage"@,
            self == HaulFail::NoPathToStorage ==> r@ == "no path to storage"@,
            self == HaulFail::NoPathToBlueprint ==> r@ == "no path to blueprint"@,
            self == HaulFail::NoPathToMachine ==> r@ == "no path to fabricator"@,
    {
        match self {
            HaulFail::NoPathToItem => "no path to item",
            HaulFail::NoStorage => "no storage accepts the item",
            HaulFail::BlueprintGoneNoStorage => "blueprint gone, no storage",
            HaulFail::MachineGoneNoStorage => "fabricator gone, no storage",
            HaulFail::StorageGone => "storage gone",
            HaulFail::NoFreeStorage => "no free storage",
            HaulFail::NoPathToStorage => "no path to storage",
            HaulFail::NoPathToBlueprint => "no path to blueprint",
            HaulFail::NoPathToMachine => "no path to fabricator",
        }
    }
}

/// What a hauler sees of its item.
#[derive(Clone, Copy, PartialEq, Eq, Structural, Debug)]
pub struct ItemView {
    pub pos: TilePos,
    /// Marked for hauling by the player.
    pub marked: bool,
    /// The crew member carrying it, if any.
    pub carried_by: Option<u64>,
}

/// What a haul job does this step.
pub enum HaulStep {
    /// Keep hauling with this job state; `Some` route replaces the path.
    Go(HaulJob, Option<Vec<TilePos>>),
    /// Pick the item up (it is carried from now on) and go on with this job.
    PickUp(HaulJob, Option<Vec<TilePos>>),
    /// Hand the item over at the job's destination; the haul is done.
    Deliver,
    /// Called off before anything was carried.
    Cancel(HaulCancel),
    /// Failed; a carried item is put down on the given tile.
    Fail(HaulFail, Option<TilePos>),
}

pub open spec fn rack_tiles_of(racks: Seq<(u64, TilePos)>) -> Seq<TilePos> {
    racks.map_values(|e: (u64, TilePos)| e.1)
}

/// `(id, path)` is the rack `choose_rack` picks among `racks`, with its route.
pub open spec fn rack_pick(map: &ShipMap, from: TilePos, racks: Seq<(u64, TilePos)>, id: u64, path: Seq<TilePos>) -> bool {
    exists|i: int| #[trigger] first_reached(map, from, rack_tiles_of(racks), i, path) && racks[i].0 == id
}

/// No rack among `racks` is reachable.
pub open spec fn no_rack(map: &ShipMap, from: TilePos, racks: Seq<(u64, TilePos)>) -> bool {
    forall|j: int| 0 <= j < racks.len() ==> !#[trigger] reachable(map, from, rack_tiles_of(racks)[j])
}

/// `path` leads to the nearest reachable interaction tile of `foot`.
pub open spec fn interaction_route(map: &ShipMap, from: TilePos, foot: Footprint, path: Seq<TilePos>) -> bool {
    exists|i: int| #[trigger] first_reached(map, from, interaction_seq(map, foot), i, path)
}

/// Some interaction tile of `foot` is reachable.
pub open spec fn interaction_reachable(map: &ShipMap, from: TilePos, foot: Footprint) -> bool {
    exists|j: int|
        0 <= j < interaction_seq(map, foot).len() && #[trigger] reachable(map, from, interaction_seq(map, foot)[j])
}

/// Where a crew member at `pos` puts a carried item down: the first free
/// drop tile near it away from racks, else its own tile.
pub open spec fn drop_at(map: &ShipMap, pos: TilePos, rack_tiles: Seq<TilePos>) -> TilePos {
    match drop_spot(map, rack_tiles, pos, 2) {
        Some(t) => t,
        None => pos,
    }
}

/// A job timer run down by `dt` (saturating at the bottom of the range).
pub open spec fn ticked(t: i64, dt: int) -> i64 {
    if t - dt < i64::MIN {
        i64::MIN
    } else {
        (t - dt) as i64
    }
}

/// Head for the nearest reachable rack among `racks` with `base` (the rack
/// becomes its target; `pickup` says whether the item is picked up now), or
/// fail with `fail`, dropping the carried item.
pub open spec fn to_storage_ok(
    map: &ShipMap,
    pos: TilePos,
    racks: Seq<(u64, TilePos)>,
    rack_tiles: Seq<TilePos>,
    base: HaulJob,
    fail: HaulFail,
    pickup: bool,
    r: HaulStep,
) -> bool {
    match r {
        HaulStep::Go(j, Some(p)) => {
            &&& !pickup
            &&& j.target_rack matches Some(id)
            &&& rack_pick(map, pos, racks, id, p@)
            &&& j == (HaulJob { target_rack: Some(id), ..base })
        },
        HaulStep::PickUp(j, Some(p)) => {
            &&& pickup
            &&& j.target_rack matches Some(id)
            &&& rack_pick(map, pos, racks, id, p@)
            &&& j == (HaulJob { target_rack: Some(id), ..base })
        },
        HaulStep::Fail(f, d) => f == fail && d == Some(drop_at(map, pos, rack_tiles)) && no_rack(map, pos, racks),
        _ => false,
    }
}

/// Head for the interaction tiles of `foot` with `job`, or fail with `fail`.
pub open spec fn route_to_foot_ok(
    map: &ShipMap,
    pos: TilePos,
    foot: Footprint,
    rack_tiles: Seq<TilePos>,
    job: HaulJob,
    fail: HaulFail,
    r: HaulStep,
) -> bool {
    match r {
        HaulStep::Go(j, Some(p)) => j == job && interaction_route(map, pos, foot, p@),
        HaulStep::Fail(f, d) => f == fail && d == Some(drop_at(map, pos, rack_tiles)) && !interaction_reachable(
            map,
            pos,
            foot,
        ),
        _ => false,
    }
}

/// Pick the item up and head for the interaction tiles of `foot` with `job`.
pub open spec fn picked_up_toward(map: &ShipMap, pos: TilePos, foot: Footprint, job: HaulJob, r: HaulStep) -> bool {
    match r {
        HaulStep::PickUp(j, Some(p)) => j == job && interaction_route(map, pos, foot, p@),
        _ => false,
    }
}

/// Picking the item up at the end of the pickup beat: route to the
/// destination (falling back to storage when a blueprint no longer needs
/// the item or a destination is gone or unreachable).
pub open spec fn pickup_ok(
    map: &ShipMap,
    pos: TilePos,
    job: HaulJob,
    racks: Seq<(u64, TilePos)>,
    dest_foot: Option<Footprint>,
    dest_wants: bool,
    rack_tiles: Seq<TilePos>,
    r: HaulStep,
) -> bool {
    let carried = HaulJob { phase: HaulPhase::ToDest, ..job };
    let fallback = HaulJob { dest: HaulDest::Storage, ..carried };
    match job.dest {
        HaulDest::Storage => to_storage_ok(map, pos, racks, rack_tiles, carried, HaulFail::NoStorage, true, r),
        HaulDest::Blueprint(_) => match dest_foot {
            Some(f) => if dest_wants && interaction_reachable(map, pos, f) {
                picked_up_toward(map, pos, f, carried, r)
            } else {
                to_storage_ok(map, pos, racks, rack_tiles, fallback, HaulFail::BlueprintGoneNoStorage, true, r)
            },
            None => to_storage_ok(map, pos, racks, rack_tiles, fallback, HaulFail::BlueprintGoneNoStorage, true, r),
        },
        HaulDest::Machine(_) => match dest_foot {
            Some(f) => if interaction_reachable(map, pos, f) {
                picked_up_toward(map, pos, f, carried, r)
            } else {
                to_storage_ok(map, pos, racks, rack_tiles, fallback, HaulFail::MachineGoneNoStorage, true, r)
            },
            None => to_storage_ok(map, pos, racks, rack_tiles, fallback, HaulFail::MachineGoneNoStorage, true, r),
        },
    }
}

/// Carrying the item toward its destination.
pub open spec fn to_dest_ok(
    map: &ShipMap,
    pos: TilePos,
    path_empty: bool,
    job: HaulJob,
    racks: Seq<(u64, TilePos)>,
    rack: Option<(TilePos, bool)>,
    dest_foot: Option<Footprint>,
    rack_tiles: Seq<TilePos>,
    r: HaulStep,
) -> bool {
    let arrive = HaulJob { phase: HaulPhase::Delivering, timer: DELIVER_US, ..job };
    match job.dest {
        HaulDest::Storage => if job.target_rack is None {
            to_storage_ok(map, pos, racks, rack_tiles, job, HaulFail::NoStorage, false, r)
        } else {
            match rack {
                None => to_storage_ok(map, pos, racks, rack_tiles, job, HaulFail::StorageGone, false, r),
                Some((rpos, free)) => if path_empty && pos == rpos {
                    if free {
                        r == HaulStep::Go(arrive, None)
                    } else {
                        to_storage_ok(map, pos, racks, rack_tiles, job, HaulFail::NoFreeStorage, false, r)
                    }
                } else if path_empty {
                    match r {
                        HaulStep::Go(j, Some(p)) => j == job && reaches(map, pos, p@, rpos) && cost_bound(
                            map,
                            Seq::empty(),
                            pos,
                            rpos,
                            spec_path_cost(Some(pos), p@),
                        ),
                        HaulStep::Fail(f, d) => f == HaulFail::NoPathToStorage && d == Some(
                            drop_at(map, pos, rack_tiles),
                        ) && !reachable(map, pos, rpos),
                        _ => false,
                    }
                } else {
                    r == HaulStep::Go(job, None)
                },
            }
        },
        _ => match dest_foot {
            None => r == HaulStep::Go(HaulJob { dest: HaulDest::Storage, target_rack: None, ..job }, None),
            Some(f) => if path_empty && interaction_seq(map, f).contains(pos) {
                r == HaulStep::Go(arrive, None)
            } else if path_empty {
                route_to_foot_ok(
                    map,
                    pos,
                    f,
                    rack_tiles,
                    job,
                    if job.dest is Blueprint {
                        HaulFail::NoPathToBlueprint
                    } else {
                        HaulFail::NoPathToMachine
                    },
                    r,
                )
            } else {
                r == HaulStep::Go(job, None)
            },
        },
    }
}

/// The delivery beat has run out (`job` already has the run-down timer).
pub open spec fn delivered_ok(
    map: &ShipMap,
    pos: TilePos,
    job: HaulJob,
    rack: Option<(TilePos, bool)>,
    dest_foot: Option<Footprint>,
    rack_tiles: Seq<TilePos>,
    r: HaulStep,
) -> bool {
    let back = HaulJob { phase: HaulPhase::ToDest, ..job };
    match job.dest {
        HaulDest::Storage => if job.target_rack is None {
            r == HaulStep::Go(back, None)
        } else {
            match rack {
                None => r == HaulStep::Fail(HaulFail::StorageGone, Some(drop_at(map, pos, rack_tiles))),
                Some((rpos, free)) => if pos == rpos && free {
                    r == HaulStep::Deliver
                } else {
                    r == HaulStep::Go(back, None)
                },
            }
        },
        _ => if dest_foot is Some {
            r == HaulStep::Deliver
        } else {
            r == HaulStep::Go(HaulJob { dest: HaulDest::Storage, ..back }, None)
        },
    }
}

/// One step of a haul job, as the job loop runs it: checks that
/// the item still exists, is still wanted and is not carried by someone
/// else, then advances the phase.
pub open spec fn haul_ok(
    map: &ShipMap,
    crew: u64,
    pos: TilePos,
    path_empty: bool,
    job: HaulJob,
    item: Option<ItemView>,
    racks: Seq<(u64, TilePos)>,
    rack: Option<(TilePos, bool)>,
    dest_foot: Option<Footprint>,
    dest_wants: bool,
    rack_tiles: Seq<TilePos>,
    dt: int,
    r: HaulStep,
) -> bool {
    match item {
        None => r == HaulStep::Cancel(HaulCancel::TargetVanished),
        Some(it) => if job.dest == HaulDest::Storage && it.carried_by is None && !it.marked {
            r == HaulStep::Cancel(HaulCancel::ItemUnmarked)
        } else if it.carried_by matches Some(c) && c != crew {
            r == HaulStep::Cancel(HaulCancel::ClaimedElsewhere)
        } else {
            let rundown = HaulJob { timer: ticked(job.timer, dt), ..job };
            match job.phase {
                HaulPhase::ToItem => if path_empty && pos == it.pos {
                    r == HaulStep::Go(HaulJob { phase: HaulPhase::PickingUp, timer: PICKUP_US, ..job }, None)
                } else if path_empty {
                    match r {
                        HaulStep::Go(j, Some(p)) => j == job && reaches(map, pos, p@, it.pos) && cost_bound(
                            map,
                            Seq::empty(),
                            pos,
                            it.pos,
                            spec_path_cost(Some(pos), p@),
                        ),
                        HaulStep::Fail(f, d) => f == HaulFail::NoPathToItem && d is None && !reachable(
                            map,
                            pos,
                            it.pos,
                        ),
                        _ => false,
                    }
                } else {
                    r == HaulStep::Go(job, None)
                },
                HaulPhase::PickingUp => if job.timer - dt > 0 {
                    r == HaulStep::Go(rundown, None)
                } else if pos != it.pos {
                    r == HaulStep::Go(HaulJob { phase: HaulPhase::ToItem, ..rundown }, None)
                } else {
                    pickup_ok(map, pos, rundown, racks, dest_foot, dest_wants, rack_tiles, r)
                },
                HaulPhase::ToDest => to_dest_ok(map, pos, path_empty, job, racks, rack, dest_foot, rack_tiles, r),
                HaulPhase::Delivering => if job.timer - dt > 0 {
                    r == HaulStep::Go(rundown, None)
                } else {
                    delivered_ok(map, pos, rundown, rack, dest_foot, rack_tiles, r)
                },
            }
        },
    }
}

fn fail_dropping(map: &ShipMap, pos: TilePos, rack_tiles: &[TilePos], f: HaulFail) -> (r: HaulStep)
    requires
        map.wf(),
        i32::MIN + 3 <= pos.x <= i32::MAX - 3,
        i32::MIN + 3 <= pos.y <= i32::MAX - 3,
    ensures
        r == HaulStep::Fail(f, Some(drop_at(map, pos, rack_tiles@))),
{
    let t = match find_drop_tile(map, pos, rack_tiles) {
        Some(t) => t,
        None => pos,
    };
    HaulStep::Fail(f, Some(t))
}

fn storage_route(
    map: &ShipMap,
    pos: TilePos,
    racks: &[(u64, TilePos)],
    rack_tiles: &[TilePos],
    base: HaulJob,
    fail: HaulFail,
    pickup: bool,
) -> (r: HaulStep)
    requires
        map.wf(),
        i32::MIN + 3 <= pos.x <= i32::MAX - 3,
        i32::MIN + 3 <= pos.y <= i32::MAX - 3,
    ensures
        to_storage_ok(map, pos, racks@, rack_tiles@, base, fail, pickup, r),
{
    match choose_rack(map, pos, racks) {
        Some((id, p)) => {
            let j = HaulJob { target_rack: Some(id), ..base };
            proof {
                assert(rack_tiles_of(racks@) == racks@.map_values(|e: (u64, TilePos)| e.1));
            }
            if pickup {
                let r = HaulStep::PickUp(j, Some(p));
                assert(r matches HaulStep::PickUp(jj, Some(q)) && jj == j && q@ == p@);
                r
            } else {
                let r = HaulStep::Go(j, Some(p));
                assert(r matches HaulStep::Go(jj, Some(q)) && jj == j && q@ == p@);
                r
            }
        },
        None => fail_dropping(map, pos, rack_tiles, fail),
    }
}

fn foot_route(map: &ShipMap, pos: TilePos, foot: &Footprint) -> (r: Option<Vec<TilePos>>)
    requires
        map.wf(),
        fp_ok(*foot),
    ensures
        r matches Some(p) ==> interaction_route(map, pos, *foot, p@) && interaction_reachable(map, pos, *foot),
        r is None ==> !interaction_reachable(map, pos, *foot),
{
    let r = path_to_interaction(map, pos, foot);
    proof {
        if r is Some {
            let p = r->0;
            let i = choose|i: int| #[trigger] first_reached(map, pos, interaction_seq(map, *foot), i, p@);
            lemma_reaches_reachable(map, pos, p@, interaction_seq(map, *foot)[i]);
        }
    }
    r
}

/// One step of a haul job (see `haul_ok`). `racks` are the racks that can
/// take the item's kind now, `rack` the job's target rack (tile, and
/// whether it can take the item) while it exists, `dest_foot` the
/// blueprint's or fabricator's footprint while it exists, `dest_wants`
/// whether the blueprint still needs the item, and `rack_tiles` the tiles
/// of every rack (a dropped item avoids them).
pub fn haul_step(
    map: &ShipMap,
    crew: u64,
    pos: TilePos,
    path_empty: bool,
    job: HaulJob,
    item: Option<ItemView>,
    racks: &[(u64, TilePos)],
    rack: Option<(TilePos, bool)>,
    dest_foot: Option<Footprint>,
    dest_wants: bool,
    rack_tiles: &[TilePos],
    dt: i64,
) -> (r: HaulStep)
    requires
        map.wf(),
        dest_foot matches Some(f) ==> fp_ok(f),
        dt >= 0,
        i32::MIN + 3 <= pos.x <= i32::MAX - 3,
        i32::MIN + 3 <= pos.y <= i32::MAX - 3,
    ensures
        haul_ok(map, crew, pos, path_empty, job, item, racks@, rack, dest_foot, dest_wants, rack_tiles@, dt as int, r),
{
    let it = match item {
        None => {
            return HaulStep::Cancel(HaulCancel::TargetVanished);
        },
        Some(it) => it,
    };
    let storage = match job.dest {
        HaulDest::Storage => true,
        _ => false,
    };
    if storage && it.carried_by.is_none() && !it.marked {
        return HaulStep::Cancel(HaulCancel::ItemUnmarked);
    }
    match it.carried_by {
        Some(c) => {
            if c != crew {
                return HaulStep::Cancel(HaulCancel::ClaimedElsewhere);
            }
        },
        None => {},
    }
    let (left, done) = timer_tick(job.timer, dt);
    let rundown = HaulJob { timer: left, ..job };
    match job.phase {
        HaulPhase::ToItem => {
            if path_empty && pos == it.pos {
                HaulStep::Go(HaulJob { phase: HaulPhase::PickingUp, timer: PICKUP_US, ..job }, None)
            } else if path_empty {
                match route(map, pos, it.pos) {
                    Some(p) => {
                        let r = HaulStep::Go(job, Some(p));
                        assert(r matches HaulStep::Go(j, Some(q)) && j == job && q@ == p@);
                        r
                    },
                    None => HaulStep::Fail(HaulFail::NoPathToItem, None),
                }
            } else {
                HaulStep::Go(job, None)
            }
        },
        HaulPhase::PickingUp => {
            if !done {
                HaulStep::Go(rundown, None)
            } else if pos != it.pos {
                HaulStep::Go(HaulJob { phase: HaulPhase::ToItem, ..rundown }, None)
            } else {
                let carried = HaulJob { phase: HaulPhase::ToDest, ..rundown };
                let fallback = HaulJob { dest: HaulDest::Storage, ..carried };
                match job.dest {
                    HaulDest::Storage => storage_route(map, pos, racks, rack_tiles, carried, HaulFail::NoStorage, true),
                    HaulDest::Blueprint(_) => {
                        let p = match dest_foot {
                            Some(f) => {
                                if dest_wants {
                                    foot_route(map, pos, &f)
                                } else {
                                    None
                                }
                            },
                            None => None,
                        };
                        match p {
                            Some(p) => {
                                let r = HaulStep::PickUp(carried, Some(p));
                                assert(r matches HaulStep::PickUp(j, Some(q)) && j == carried && q@ == p@);
                                r
                            },
                            None => storage_route(
                                map,
                                pos,
                                racks,
                                rack_tiles,
                                fallback,
                                HaulFail::BlueprintGoneNoStorage,
                                true,
                            ),
                        }
                    },
                    HaulDest::Machine(_) => {
                        let p = match dest_foot {
                            Some(f) => foot_route(map, pos, &f),
                            None => None,
                        };
                        match p {
                            Some(p) => {
                                let r = HaulStep::PickUp(carried, Some(p));
                                assert(r matches HaulStep::PickUp(j, Some(q)) && j == carried && q@ == p@);
                                r
                            },
                            None => storage_route(
                                map,
                                pos,
                                racks,
                                rack_tiles,
                                fallback,
                                HaulFail::MachineGoneNoStorage,
                                true,
                            ),
                        }
                    },
                }
            }
        },
        HaulPhase::ToDest => to_dest_step(map, pos, path_empty, job, racks, rack, dest_foot, rack_tiles),
        HaulPhase::Delivering => {
            if !done {
                HaulStep::Go(rundown, None)
            } else {
                let back = HaulJob { phase: HaulPhase::ToDest, ..rundown };
                match job.dest {
                    HaulDest::Storage => {
                        if job.target_rack.is_none() {
                            HaulStep::Go(back, None)
                        } else {
                            match rack {
                                None => fail_dropping(map, pos, rack_tiles, HaulFail::StorageGone),
                                Some((rpos, free)) => {
                                    if pos == rpos && free {
                                        HaulStep::Deliver
                                    } else {
                                        HaulStep::Go(back, None)
                                    }
                                },
                            }
                        }
                    },
                    _ => {
                        if dest_foot.is_some() {
                            HaulStep::Deliver
                        } else {
                            HaulStep::Go(HaulJob { dest: HaulDest::Storage, ..back }, None)
                        }
                    },
                }
            }
        },
    }
}

fn to_dest_step(
    map: &ShipMap,
    pos: TilePos,
    path_empty: bool,
    job: HaulJob,
    racks: &[(u64, TilePos)],
    rack: Option<(TilePos, bool)>,
    dest_foot: Option<Footprint>,
    rack_tiles: &[TilePos],
) -> (r: HaulStep)
    requires
        map.wf(),
        dest_foot matches Some(f) ==> fp_ok(f),
        i32::MIN + 3 <= pos.x <= i32::MAX - 3,
        i32::MIN + 3 <= pos.y <= i32::MAX - 3,
    ensures
        to_dest_ok(map, pos, path_empty, job, racks@, rack, dest_foot, rack_tiles@, r),
{
    let arrive = HaulJob { phase: HaulPhase::Delivering, timer: DELIVER_US, ..job };
    match job.dest {
        HaulDest::Storage => {
            if job.target_rack.is_none() {
                return storage_route(map, pos, racks, rack_tiles, job, HaulFail::NoStorage, false);
            }
            match rack {
                None => storage_route(map, pos, racks, rack_tiles, job, HaulFail::StorageGone, false),
                Some((rpos, free)) => {
                    if path_empty && pos == rpos {
                        if free {
                            HaulStep::Go(arrive, None)
                        } else {
                            storage_route(map, pos, racks, rack_tiles, job, HaulFail::NoFreeStorage, false)
                        }
                    } else if path_empty {
                        match route(map, pos, rpos) {
                            Some(p) => {
                                let r = HaulStep::Go(job, Some(p));
                                assert(r matches HaulStep::Go(j, Some(q)) && j == job && q@ == p@);
                                r
                            },
                            None => fail_dropping(map, pos, rack_tiles, HaulFail::NoPathToStorage),
                        }
                    } else {
                        HaulStep::Go(job, None)
                    }
                },
            }
        },
        _ => {
            match dest_foot {
                None => HaulStep::Go(HaulJob { dest: HaulDest::Storage, target_rack: None, ..job }, None),
                Some(f) => {
                    if path_empty && at_interaction(map, pos, &f) {
                        HaulStep::Go(arrive, None)
                    } else if path_empty {
                        let fail = match job.dest {
                            HaulDest::Blueprint(_) => HaulFail::NoPathToBlueprint,
                            _ => HaulFail::NoPathToMachine,
                        };
                        match foot_route(map, pos, &f) {
                            Some(p) => {
                                let r = HaulStep::Go(job, Some(p));
                                assert(r matches HaulStep::Go(j, Some(q)) && j == job && q@ == p@);
                                r
                            },
                            None => fail_dropping(map, pos, rack_tiles, fail),
                        }
                    } else {
                        HaulStep::Go(job, None)
                    }
                },
            }
        },
    }
}


/// The haul is carrying its item (after pickup).
pub open spec fn carrying(t: CrewTask) -> bool {
    match t {
        CrewTask::Haul(j) => j.phase == HaulPhase::ToDest || j.phase == HaulPhase::Delivering,
        _ => false,
    }
}

/// Terminate a crew member's haul: the crew goes idle with `cause`; a
/// carried item is put down, and the tile is returned (`None` when nothing
/// was carried).
pub fn end_haul(map: &ShipMap, task: &mut CrewTask, pos: TilePos, rack_tiles: &[TilePos], cause: IdleCause) -> (r:
    Option<TilePos>)
    requires
        map.wf(),
        i32::MIN + 3 <= pos.x <= i32::MAX - 3,
        i32::MIN + 3 <= pos.y <= i32::MAX - 3,
    ensures
        *final(task) == CrewTask::Idle(cause),
        r == (if carrying(*old(task)) {
            Some(drop_at(map, pos, rack_tiles@))
        } else {
            None
        }),
{
    let carried = match task {
        CrewTask::Haul(j) => match j.phase {
            HaulPhase::ToDest | HaulPhase::Delivering => true,
            _ => false,
        },
        _ => false,
    };
    let r = if carried {
        match find_drop_tile(map, pos, rack_tiles) {
            Some(t) => Some(t),
            None => Some(pos),
        }
    } else {
        None
    };
    *task = CrewTask::Idle(cause);
    r
}

/// After the drop-off beat: a handed-over item ends the job and the crew
/// looks for work at once (the next scan is due at `now`); when the
/// destination would not take it (rack full, site or machine gone) the
/// crew heads for the destination again and the scan time stays.
pub fn after_delivery(job: HaulJob, handed_over: bool, now: i64) -> (r: (CrewTask, Option<i64>))
    ensures
        r.0 == if handed_over {
            CrewTask::Idle(IdleCause::Looking)
        } else {
            CrewTask::Haul(HaulJob { phase: HaulPhase::ToDest, ..job })
        },
        r.1 == if handed_over { Some(now) } else { None::<i64> },
{
    if handed_over {
        (CrewTask::Idle(IdleCause::Looking), Some(now))
    } else {
        (CrewTask::Haul(HaulJob { phase: HaulPhase::ToDest, ..job }), None)
    }
}

} // verus!
