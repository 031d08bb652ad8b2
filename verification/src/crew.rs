//! Crew members: task bookkeeping and work priorities.
//!
//! Work is generalized into three categories — haul, build
//! (construct/deconstruct) and operate (production) — each with a
//! player-configurable priority that decides which jobs a crew member takes
//! when several are available.

use crate::items::ItemKind;
use vstd::prelude::*;

verus! {

/// The three work categories a crew member can be assigned to.
#[derive(Clone, Copy, PartialEq, Eq, Structural, Debug)]
pub enum WorkKind {
    Haul,
    Build,
    Operate,
}

impl WorkKind {
    pub const ALL: [WorkKind; 3] = [WorkKind::Haul, WorkKind::Build, WorkKind::Operate];

    pub fn label(&self) -> (r: &'static str)
        ensures
            *self == WorkKind::Haul ==> r@ == "Haul"@,
            *self == WorkKind::Build ==> r@ == "Build"@,
            *self == WorkKind::Operate ==> r@ == "Operate"@,
    {
        match self {
            WorkKind::Haul => "Haul",
            WorkKind::Build => "Build",
            WorkKind::Operate => "Operate",
        }
    }

    /// One-line description shown next to the WORK tab row.
    pub fn desc(&self) -> (r: &'static str)
        ensures
            *self == WorkKind::Haul ==> r@ == "carry items to racks / supply sites & machines"@,
            *self == WorkKind::Build ==> r@ == "construct blueprints & deconstruct marked buildings"@,
            *self == WorkKind::Operate ==> r@ == "run fabricator cycles"@,
    {
        match self {
            WorkKind::Haul => "carry items to racks / supply sites & machines",
            WorkKind::Build => "construct blueprints & deconstruct marked buildings",
            WorkKind::Operate => "run fabricator cycles",
        }
    }
}

/// Player-set priority for one work type.
#[derive(Clone, Copy, PartialEq, Eq, Structural, Debug)]
pub enum Priority {
    Disabled,
    Low,
    Normal,
    High,
}

/// Dominance weight used by the job scan: higher tiers always beat lower
/// tiers; distance only breaks ties inside a tier.
pub open spec fn spec_weight(p: Priority) -> int {
    match p {
        Priority::Disabled => 0,
        Priority::Low => 200,
        Priority::Normal => 500,
        Priority::High => 1000,
    }
}

/// Next tier when the player clicks a WORK tab cell.
pub open spec fn spec_cycle(p: Priority) -> Priority {
    match p {
        Priority::Disabled => Priority::Low,
        Priority::Low => Priority::Normal,
        Priority::Normal => Priority::High,
        Priority::High => Priority::Disabled,
    }
}

impl Priority {
    pub const ALL: [Priority; 4] = [Priority::Disabled, Priority::Low, Priority::Normal, Priority::High];

    pub fn label(&self) -> (r: &'static str)
        ensures
            *self == Priority::Disabled ==> r@ == "Off"@,
            *self == Priority::Low ==> r@ == "Low"@,
            *self == Priority::Normal ==> r@ == "Normal"@,
            *self == Priority::High ==> r@ == "High"@,
    {
        match self {
            Priority::Disabled => "Off",
            Priority::Low => "Low",
            Priority::Normal => "Normal",
            Priority::High => "High",
        }
    }

    pub fn weight(self) -> (r: i32)
        ensures
            r == spec_weight(self),
    {
        match self {
            Priority::Disabled => 0,
            Priority::Low => 200,
            Priority::Normal => 500,
            Priority::High => 1000,
        }
    }

    /// Next tier when the player clicks a WORK tab cell (cycling). The panel
    /// shows the CURRENT tier; one click advances to `cycle(current)`.
    pub fn cycle(self) -> (r: Self)
        ensures
            r == spec_cycle(self),
    {
        match self {
            Priority::Disabled => Priority::Low,
            Priority::Low => Priority::Normal,
            Priority::Normal => Priority::High,
            Priority::High => Priority::Disabled,
        }
    }

    /// Compact WORK tab cell code.
    pub fn code(self) -> (r: &'static str)
        ensures
            self == Priority::Disabled ==> r@ == "—"@,
            self == Priority::Low ==> r@ == "L"@,
            self == Priority::Normal ==> r@ == "N"@,
            self == Priority::High ==> r@ == "H"@,
    {
        match self {
            Priority::Disabled => "—",
            Priority::Low => "L",
            Priority::Normal => "N",
            Priority::High => "H",
        }
    }
}

/// Four clicks bring a WORK tab cell back to where it started, and the
/// enabled tiers are strictly ordered by weight.
pub proof fn lemma_priority_cycle(p: Priority)
    ensures
        spec_cycle(spec_cycle(spec_cycle(spec_cycle(p)))) == p,
        spec_cycle(p) != p,
        spec_weight(Priority::Disabled) < spec_weight(Priority::Low) < spec_weight(Priority::Normal)
            < spec_weight(Priority::High),
{
}

#[derive(Clone, Copy, PartialEq, Eq, Structural, Debug)]
pub struct WorkPriorities {
    pub haul: Priority,
    pub build: Priority,
    pub operate: Priority,
}

/// The priority a set of priorities assigns to one work kind.
pub open spec fn spec_get(w: WorkPriorities, kind: WorkKind) -> Priority {
    match kind {
        WorkKind::Haul => w.haul,
        WorkKind::Build => w.build,
        WorkKind::Operate => w.operate,
    }
}

impl Default for WorkPriorities {
    fn default() -> (r: Self)
        ensures
            r.haul == Priority::Normal,
            r.build == Priority::Normal,
            r.operate == Priority::Normal,
    {
        WorkPriorities { haul: Priority::Normal, build: Priority::Normal, operate: Priority::Normal }
    }
}

impl WorkPriorities {
    pub fn get(&self, kind: WorkKind) -> (r: Priority)
        ensures
            r == spec_get(*self, kind),
    {
        match kind {
            WorkKind::Haul => self.haul,
            WorkKind::Build => self.build,
            WorkKind::Operate => self.operate,
        }
    }

    /// Set one kind's priority; the other kinds keep theirs.
    pub fn set(&mut self, kind: WorkKind, level: Priority)
        ensures
            spec_get(*final(self), kind) == level,
            forall|k: WorkKind| k != kind ==> spec_get(*final(self), k) == spec_get(*old(self), k),
    {
        match kind {
            WorkKind::Haul => self.haul = level,
            WorkKind::Build => self.build = level,
            WorkKind::Operate => self.operate = level,
        }
    }
}

/// Crew bookkeeping the job logic reads and writes (the crew's colour and
/// walking speed belong to presentation and movement).
pub struct Crew {
    pub name: String,
    /// Sim time (microseconds) after which this crew rescans for work.
    pub next_scan: i64,
    /// Completed haul deliveries — surfaced in the UI as an efficiency signal.
    pub delivered: u32,
    /// Completed build / deconstruct / operate jobs.
    pub built: u32,
    pub operated: u32,
    /// Per-work-type priority (player configurable).
    pub priorities: WorkPriorities,
}

impl Crew {
    pub fn new(name: String) -> (r: Self)
        ensures
            r.name@ == name@,
            r.next_scan == 0,
            r.delivered == 0,
            r.built == 0,
            r.operated == 0,
            r.priorities == (WorkPriorities { haul: Priority::Normal, build: Priority::Normal, operate: Priority::Normal }),
    {
        Crew { name, next_scan: 0, delivered: 0, built: 0, operated: 0, priorities: WorkPriorities::default() }
    }

    /// The player sets one work kind's priority. It only decides the next
    /// job: a job under way goes on, while an idle crew member rescans at
    /// once (`idle`: the crew member has no job).
    pub fn set_priority(&mut self, kind: WorkKind, level: Priority, idle: bool, now: i64)
        ensures
            spec_get(final(self).priorities, kind) == level,
            forall|k: WorkKind| k != kind ==> spec_get(final(self).priorities, k) == spec_get(old(self).priorities, k),
            final(self).next_scan == if idle { now } else { old(self).next_scan },
            final(self).name == old(self).name,
            final(self).delivered == old(self).delivered,
            final(self).built == old(self).built,
            final(self).operated == old(self).operated,
    {
        self.priorities.set(kind, level);
        if idle {
            self.next_scan = now;
        }
    }

    /// Back to the default priorities, with the same wake-up rule as
    /// `set_priority`.
    pub fn reset_priorities(&mut self, idle: bool, now: i64)
        ensures
            final(self).priorities == (WorkPriorities {
                haul: Priority::Normal,
                build: Priority::Normal,
                operate: Priority::Normal,
            }),
            final(self).next_scan == if idle { now } else { old(self).next_scan },
            final(self).name == old(self).name,
            final(self).delivered == old(self).delivered,
            final(self).built == old(self).built,
            final(self).operated == old(self).operated,
    {
        self.priorities = WorkPriorities::default();
        if idle {
            self.next_scan = now;
        }
    }
}

/// Why an idle crew member currently has no work. Shown in the UI.
#[derive(Clone, PartialEq, Eq, Debug)]
pub enum IdleCause {
    /// Fresh idle (will scan for work shortly).
    Looking,
    /// Nothing to do anywhere on the ship.
    NothingToDo,
    /// Haulable items exist but every one is claimed by someone else.
    AllClaimed,
    /// Haulable items exist but storage has no free capacity for them.
    NoStorageSpace,
    /// Items exist but none is reachable.
    AllUnreachable,
    /// Every work type is disabled by the player.
    AllWorkDisabled,
    /// Job was cancelled (player unmarked the item, or target vanished).
    JobCanceled { detail: String },
    /// Had to drop the carried item (e.g. storage filled up mid-delivery).
    JobFailed { detail: String },
}

pub open spec fn idle_text(c: IdleCause) -> Seq<char> {
    match c {
        IdleCause::Looking => "Looking for work…"@,
        IdleCause::NothingToDo => "Idle — nothing to do"@,
        IdleCause::AllClaimed => "Idle — all marked items already claimed"@,
        IdleCause::NoStorageSpace => "Idle — no free storage space"@,
        IdleCause::AllUnreachable => "Idle — marked items unreachable"@,
        IdleCause::AllWorkDisabled => "Idle — all work types disabled"@,
        IdleCause::JobCanceled { detail } => "Job canceled — "@ + detail@,
        IdleCause::JobFailed { detail } => "Job failed — "@ + detail@,
    }
}

fn str_then(prefix: &str, rest: &String) -> (r: String)
    ensures
        r@ == prefix@ + rest@,
{
    let mut s = String::from_str(prefix);
    s.append(rest.as_str());
    s
}

impl IdleCause {
    pub fn label(&self) -> (r: String)
        ensures
            r@ == idle_text(*self),
    {
        match self {
            IdleCause::Looking => String::from_str("Looking for work…"),
            IdleCause::NothingToDo => String::from_str("Idle — nothing to do"),
            IdleCause::AllClaimed => String::from_str("Idle — all marked items already claimed"),
            IdleCause::NoStorageSpace => String::from_str("Idle — no free storage space"),
            IdleCause::AllUnreachable => String::from_str("Idle — marked items unreachable"),
            IdleCause::AllWorkDisabled => String::from_str("Idle — all work types disabled"),
            IdleCause::JobCanceled { detail } => str_then("Job canceled — ", detail),
            IdleCause::JobFailed { detail } => str_then("Job failed — ", detail),
        }
    }
}

/// Where a haul goes: storage (player haul), a construction blueprint, or a
/// fabricator input buffer (auto-logistics). Targets are entity ids.
#[derive(Clone, Copy, PartialEq, Eq, Structural, Debug)]
pub enum HaulDest {
    /// Nearest rack that accepts the item kind.
    Storage,
    /// Deliver onto a construction blueprint.
    Blueprint(u64),
    /// Deliver into a fabricator's input buffer.
    Machine(u64),
}

impl HaulDest {
    pub fn label(&self) -> (r: String)
        ensures
            *self == HaulDest::Storage ==> r@ == "storage"@,
            *self is Blueprint ==> r@ == "blueprint"@,
            *self is Machine ==> r@ == "fabricator"@,
    {
        match self {
            HaulDest::Storage => String::from_str("storage"),
            HaulDest::Blueprint(_) => String::from_str("blueprint"),
            HaulDest::Machine(_) => String::from_str("fabricator"),
        }
    }
}

#[derive(Clone, Copy, PartialEq, Eq, Structural, Debug)]
pub enum HaulPhase {
    ToItem,
    PickingUp,
    ToDest,
    Delivering,
}

impl HaulPhase {
    pub fn label(&self) -> (r: &'static str)
        ensures
            *self == HaulPhase::ToItem ==> r@ == "Going to item"@,
            *self == HaulPhase::PickingUp ==> r@ == "Picking up"@,
            *self == HaulPhase::ToDest ==> r@ == "Carrying to destination"@,
            *self == HaulPhase::Delivering ==> r@ == "Delivering"@,
    {
        match self {
            HaulPhase::ToItem => "Going to item",
            HaulPhase::PickingUp => "Picking up",
            HaulPhase::ToDest => "Carrying to destination",
            HaulPhase::Delivering => "Delivering",
        }
    }
}

/// One haul job: take `item` (entity id) somewhere.
#[derive(Clone, Copy, PartialEq, Eq, Structural, Debug)]
pub struct HaulJob {
    pub item: u64,
    pub phase: HaulPhase,
    pub dest: HaulDest,
    /// Storage destination only: rack chosen at pickup, re-evaluated on
    /// arrival.
    pub target_rack: Option<u64>,
    /// Sim microseconds spent in a delay phase (pickup/store beats).
    pub timer: i64,
}

#[derive(Clone, Copy, PartialEq, Eq, Structural, Debug)]
pub enum WorkPhase {
    Going,
    Working,
}

/// Walk-to-target then work-for-a-duration job used by construction,
/// deconstruction and machine operation.
#[derive(Clone, Copy, PartialEq, Eq, Structural, Debug)]
pub struct WorkJob {
    pub target: u64,
    pub phase: WorkPhase,
    /// Remaining work, sim microseconds.
    pub timer: i64,
    /// Total work, sim microseconds (for progress display).
    pub total: i64,
}

/// Current occupation of a crew member.
#[derive(Clone, PartialEq, Eq, Debug)]
pub enum CrewTask {
    Idle(IdleCause),
    Haul(HaulJob),
    Build(WorkJob),
    Deconstruct(WorkJob),
    Operate(WorkJob),
}

impl Default for CrewTask {
    fn default() -> (r: Self)
        ensures
            r == CrewTask::Idle(IdleCause::Looking),
    {
        CrewTask::Idle(IdleCause::Looking)
    }
}

/// Reason of one unit of material demand (used by the logistics scan).
#[derive(Clone, Copy, PartialEq, Eq, Structural, Debug)]
pub struct MaterialNeed {
    /// Blueprint or fabricator entity that wants the material.
    pub consumer: u64,
    pub kind: ItemKind,
}

} // verus!
