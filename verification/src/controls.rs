//! Player controls: what the cursor picks on a tile, the build-tool cycle
//! key and the Escape cascade. Reading the mouse and keyboard happens
//! outside this crate; these are the decisions taken on what was read.

use crate::building::{fp_contains, fp_ok, BuildingKind, Footprint};
use crate::map::TilePos;
use vstd::prelude::*;

verus! {

/// Something the player can select, by entity id.
#[derive(Clone, Copy, PartialEq, Eq, Structural, Debug)]
pub enum Selected {
    Crew(u64),
    Item(u64),
    Rack(u64),
    Blueprint(u64),
    Building(u64),
}

/// The active build tool.
#[derive(Clone, Copy, PartialEq, Eq, Structural, Debug)]
pub enum Tool {
    Build(BuildingKind),
    Deconstruct,
}

/// Id of the first entry of `s[k..]` standing on `t`.
pub open spec fn first_on(s: Seq<(u64, TilePos)>, t: TilePos, k: int) -> Option<u64>
    decreases s.len() - k,
{
    if k < 0 || k >= s.len() {
        None
    } else if s[k].1 == t {
        Some(s[k].0)
    } else {
        first_on(s, t, k + 1)
    }
}

/// Id of the first entry of `s[k..]` whose footprint covers `t`.
pub open spec fn first_covering(s: Seq<(u64, Footprint)>, t: TilePos, k: int) -> Option<u64>
    decreases s.len() - k,
{
    if k < 0 || k >= s.len() {
        None
    } else if fp_contains(s[k].1, t) {
        Some(s[k].0)
    } else {
        first_covering(s, t, k + 1)
    }
}

/// What a click on tile `t` picks: a crew member standing there, else an
/// item, else a rack, else a blueprint covering it, else a building
/// covering it — the first listed of each kind.
pub open spec fn spec_pick(
    t: TilePos,
    crews: Seq<(u64, TilePos)>,
    items: Seq<(u64, TilePos)>,
    racks: Seq<(u64, TilePos)>,
    blueprints: Seq<(u64, Footprint)>,
    buildings: Seq<(u64, Footprint)>,
) -> Option<Selected> {
    if let Some(e) = first_on(crews, t, 0) {
        Some(Selected::Crew(e))
    } else if let Some(e) = first_on(items, t, 0) {
        Some(Selected::Item(e))
    } else if let Some(e) = first_on(racks, t, 0) {
        Some(Selected::Rack(e))
    } else if let Some(e) = first_covering(blueprints, t, 0) {
        Some(Selected::Blueprint(e))
    } else if let Some(e) = first_covering(buildings, t, 0) {
        Some(Selected::Building(e))
    } else {
        None
    }
}

fn find_on(s: &[(u64, TilePos)], t: TilePos) -> (r: Option<u64>)
    ensures
        r == first_on(s@, t, 0),
{
    let mut i: usize = 0;
    while i < s.len()
        invariant
            0 <= i <= s@.len(),
            first_on(s@, t, 0) == first_on(s@, t, i as int),
        decreases s@.len() - i,
    {
        let (e, p) = s[i];
        if p == t {
            return Some(e);
        }
        i = i + 1;
    }
    None
}

fn find_covering(s: &[(u64, Footprint)], t: TilePos) -> (r: Option<u64>)
    requires
        forall|k: int| 0 <= k < s@.len() ==> fp_ok(#[trigger] s@[k].1),
    ensures
        r == first_covering(s@, t, 0),
{
    let mut i: usize = 0;
    while i < s.len()
        invariant
            0 <= i <= s@.len(),
            forall|k: int| 0 <= k < s@.len() ==> fp_ok(#[trigger] s@[k].1),
            first_covering(s@, t, 0) == first_covering(s@, t, i as int),
        decreases s@.len() - i,
    {
        let (e, f) = s[i];
        if f.contains(t) {
            return Some(e);
        }
        i = i + 1;
    }
    None
}

/// Cursor picking on tile `t` (priority: crew > item > rack > blueprint >
/// building; multi-tile footprints are hit on any of their tiles).
pub fn pick_at(
    t: TilePos,
    crews: &[(u64, TilePos)],
    items: &[(u64, TilePos)],
    racks: &[(u64, TilePos)],
    blueprints: &[(u64, Footprint)],
    buildings: &[(u64, Footprint)],
) -> (r: Option<Selected>)
    requires
        forall|k: int| 0 <= k < blueprints@.len() ==> fp_ok(#[trigger] blueprints@[k].1),
        forall|k: int| 0 <= k < buildings@.len() ==> fp_ok(#[trigger] buildings@[k].1),
    ensures
        r == spec_pick(t, crews@, items@, racks@, blueprints@, buildings@),
{
    if let Some(e) = find_on(crews, t) {
        Some(Selected::Crew(e))
    } else if let Some(e) = find_on(items, t) {
        Some(Selected::Item(e))
    } else if let Some(e) = find_on(racks, t) {
        Some(Selected::Rack(e))
    } else if let Some(e) = find_covering(blueprints, t) {
        Some(Selected::Blueprint(e))
    } else if let Some(e) = find_covering(buildings, t) {
        Some(Selected::Building(e))
    } else {
        None
    }
}

/// The tool after one press of the build-tool key: no tool, then each
/// building kind in menu order, then deconstruction, then no tool again.
pub open spec fn spec_next_tool(t: Option<Tool>) -> Option<Tool> {
    match t {
        None => Some(Tool::Build(BuildingKind::Wall)),
        Some(Tool::Build(BuildingKind::Wall)) => Some(Tool::Build(BuildingKind::Door)),
        Some(Tool::Build(BuildingKind::Door)) => Some(Tool::Build(BuildingKind::Rack)),
        Some(Tool::Build(BuildingKind::Rack)) => Some(Tool::Build(BuildingKind::Fabricator)),
        Some(Tool::Build(BuildingKind::Fabricator)) => Some(Tool::Build(BuildingKind::PowerCable)),
        Some(Tool::Build(BuildingKind::PowerCable)) => Some(Tool::Build(BuildingKind::Reactor)),
        Some(Tool::Build(BuildingKind::Reactor)) => Some(Tool::Deconstruct),
        Some(Tool::Deconstruct) => None,
    }
}

/// One press of the build-tool cycle key.
pub fn next_tool(t: Option<Tool>) -> (r: Option<Tool>)
    ensures
        r == spec_next_tool(t),
{
    match t {
        None => Some(Tool::Build(BuildingKind::Wall)),
        Some(Tool::Build(BuildingKind::Wall)) => Some(Tool::Build(BuildingKind::Door)),
        Some(Tool::Build(BuildingKind::Door)) => Some(Tool::Build(BuildingKind::Rack)),
        Some(Tool::Build(BuildingKind::Rack)) => Some(Tool::Build(BuildingKind::Fabricator)),
        Some(Tool::Build(BuildingKind::Fabricator)) => Some(Tool::Build(BuildingKind::PowerCable)),
        Some(Tool::Build(BuildingKind::PowerCable)) => Some(Tool::Build(BuildingKind::Reactor)),
        Some(Tool::Build(BuildingKind::Reactor)) => Some(Tool::Deconstruct),
        Some(Tool::Deconstruct) => None,
    }
}

/// `n` presses of the build-tool key.
pub open spec fn tool_presses(t: Option<Tool>, n: nat) -> Option<Tool>
    decreases n,
{
    if n == 0 {
        t
    } else {
        spec_next_tool(tool_presses(t, (n - 1) as nat))
    }
}

/// The build-tool key visits every tool and comes back to where it started
/// after eight presses.
pub proof fn lemma_tool_cycle(t: Option<Tool>)
    ensures
        tool_presses(t, 8) == t,
        forall|n: nat| 0 < n < 8 ==> tool_presses(t, n) != t,
{
    reveal_with_fuel(tool_presses, 9);
    assert forall|n: nat| 0 < n < 8 implies tool_presses(t, n) != t by {
        reveal_with_fuel(tool_presses, 8);
        assert(n == 1 || n == 2 || n == 3 || n == 4 || n == 5 || n == 6 || n == 7);
    }
}

/// What one press of Escape does.
#[derive(Clone, Copy, PartialEq, Eq, Structural, Debug)]
pub enum EscapeEffect {
    /// Close the WORK panel.
    CloseWorkTab,
    /// Put the active build tool away.
    ClearTool,
    /// Drop the current selection.
    ClearSelection,
}

/// Escape closes the WORK panel first, then puts a build tool away, and
/// only then clears the selection.
pub fn escape_effect(work_tab_open: bool, tool: Option<Tool>) -> (r: EscapeEffect)
    ensures
        work_tab_open ==> r == EscapeEffect::CloseWorkTab,
        !work_tab_open && tool is Some ==> r == EscapeEffect::ClearTool,
        !work_tab_open && tool is None ==> r == EscapeEffect::ClearSelection,
{
    if work_tab_open {
        EscapeEffect::CloseWorkTab
    } else if tool.is_some() {
        EscapeEffect::ClearTool
    } else {
        EscapeEffect::ClearSelection
    }
}

} // verus!
