//! Crew movement decisions: who walks through a head-on standoff, where a
//! blocked crew member sidesteps to, and when a detour around other crew is
//! worth taking. Walking itself (timers and step progress in continuous
//! time) happens outside this crate.

use crate::building::contains_pos;
use crate::map::{ShipMap, TilePos};
use crate::path::spec_path_cost;
use crate::path::path_cost;
use vstd::prelude::*;

verus! {

/// Extra cost, over the current path, that a detour may add: four cardinal
/// steps.
pub const DETOUR_SLACK: u64 = 40;

/// The blocker stands on our next tile and is heading for ours.
pub open spec fn spec_head_on(
    blocker: u64,
    my_pos: TilePos,
    next: TilePos,
    headings: Seq<(u64, TilePos, TilePos)>,
) -> bool {
    exists|k: int| 0 <= k < headings.len() && #[trigger] headings[k] == (blocker, next, my_pos)
}

/// Whether `blocker` (standing on `next`) and we (on `my_pos`) face each
/// other; `headings` lists each moving crew as `(id, position, next tile)`.
pub fn head_on(blocker: u64, my_pos: TilePos, next: TilePos, headings: &[(u64, TilePos, TilePos)]) -> (r: bool)
    ensures
        r == spec_head_on(blocker, my_pos, next, headings@),
{
    let mut i: usize = 0;
    while i < headings.len()
        invariant
            0 <= i <= headings@.len(),
            forall|k: int| 0 <= k < i ==> headings@[k] != (blocker, next, my_pos),
        decreases headings@.len() - i,
    {
        let (id, at, to) = headings[i];
        if id == blocker && at == next && to == my_pos {
            assert(headings@[i as int] == (blocker, next, my_pos));
            return true;
        }
        i = i + 1;
    }
    false
}

/// In a head-on standoff the crew member with the lower id walks through at
/// once; the other waits.
pub open spec fn spec_passes(me: u64, blocker: u64, head_on: bool) -> bool {
    head_on && me < blocker
}

pub fn passes_in_standoff(me: u64, blocker: u64, head_on: bool) -> (r: bool)
    ensures
        r == spec_passes(me, blocker, head_on),
{
    head_on && me < blocker
}

/// Two different crew members facing each other: exactly one of them walks
/// through, so the standoff resolves at once and never deadlocks.
pub proof fn lemma_standoff_resolves(a: u64, b: u64)
    requires
        a != b,
    ensures
        spec_passes(a, b, true) != spec_passes(b, a, true),
{
}

/// The `k`-th sidestep candidate beside a blocked tile: east, west, south,
/// north of it.
pub open spec fn corner(next: TilePos, k: int) -> TilePos {
    if k == 0 {
        TilePos { x: (next.x + 1) as i32, y: next.y }
    } else if k == 1 {
        TilePos { x: (next.x - 1) as i32, y: next.y }
    } else if k == 2 {
        TilePos { x: next.x, y: (next.y + 1) as i32 }
    } else {
        TilePos { x: next.x, y: (next.y - 1) as i32 }
    }
}

/// A tile we may step aside onto: not where we stand, walkable, and nobody
/// stands there.
pub open spec fn corner_ok(map: &ShipMap, occupied: Seq<TilePos>, pos: TilePos, c: TilePos) -> bool {
    c != pos && map.spec_walkable(c) && !occupied.contains(c)
}

/// The first usable candidate from the `k`-th on.
pub open spec fn spec_sidestep_from(
    map: &ShipMap,
    occupied: Seq<TilePos>,
    pos: TilePos,
    next: TilePos,
    k: int,
) -> Option<TilePos>
    decreases 4 - k,
{
    if k < 0 || k >= 4 {
        None
    } else if corner_ok(map, occupied, pos, corner(next, k)) {
        Some(corner(next, k))
    } else {
        spec_sidestep_from(map, occupied, pos, next, k + 1)
    }
}

/// A sidestep lands on a free walkable tile beside the blocked one, other
/// than our own, and is refused only when no such tile exists: it never
/// steps onto another crew member.
pub proof fn lemma_sidestep_sound(map: &ShipMap, occupied: Seq<TilePos>, pos: TilePos, next: TilePos, k: int)
    requires
        0 <= k <= 4,
        i32::MIN < next.x < i32::MAX,
        i32::MIN < next.y < i32::MAX,
    ensures
        spec_sidestep_from(map, occupied, pos, next, k) matches Some(t) ==> !occupied.contains(t) && t != pos
            && map.spec_walkable(t) && (exists|j: int| k <= j < 4 && t == #[trigger] corner(next, j)),
        spec_sidestep_from(map, occupied, pos, next, k) matches Some(t) ==> (t.y == next.y && (t.x == next.x + 1
            || t.x == next.x - 1)) || (t.x == next.x && (t.y == next.y + 1 || t.y == next.y - 1)),
        spec_sidestep_from(map, occupied, pos, next, k) is None ==> forall|j: int|
            k <= j < 4 ==> !corner_ok(map, occupied, pos, #[trigger] corner(next, j)),
    decreases 4 - k,
{
    if k < 4 {
        lemma_sidestep_sound(map, occupied, pos, next, k + 1);
        if corner_ok(map, occupied, pos, corner(next, k)) {
            assert(corner(next, k) == corner(next, k));
        }
    }
}

/// Where a crew member on `pos`, blocked on its way into `next`, steps
/// aside: the first free tile beside the blocked one (east, west, south,
/// north), so the step back onto the path stays a legal cardinal step.
pub fn sidestep(map: &ShipMap, pos: TilePos, next: TilePos, occupied: &[TilePos]) -> (r: Option<TilePos>)
    requires
        map.wf(),
        i32::MIN < next.x < i32::MAX,
        i32::MIN < next.y < i32::MAX,
    ensures
        r == spec_sidestep_from(map, occupied@, pos, next, 0),
        r matches Some(t) ==> !occupied@.contains(t) && t != pos && map.spec_walkable(t) && (exists|j: int|
            0 <= j < 4 && t == #[trigger] corner(next, j)),
        r matches Some(t) ==> (t.y == next.y && (t.x == next.x + 1 || t.x == next.x - 1)) || (t.x == next.x && (t.y
            == next.y + 1 || t.y == next.y - 1)),
        ({
            let east = TilePos { x: (next.x + 1) as i32, y: next.y };
            east != pos && map.spec_walkable(east) && !occupied@.contains(east) ==> r == Some(east)
        }),
        r is None ==> forall|j: int| 0 <= j < 4 ==> !corner_ok(map, occupied@, pos, #[trigger] corner(next, j)),
{
    proof {
        lemma_sidestep_sound(map, occupied@, pos, next, 0);
    }
    let corners = [
        TilePos::new(next.x + 1, next.y),
        TilePos::new(next.x - 1, next.y),
        TilePos::new(next.x, next.y + 1),
        TilePos::new(next.x, next.y - 1),
    ];
    let mut k: usize = 0;
    while k < 4
        invariant
            map.wf(),
            0 <= k <= 4,
            i32::MIN < next.x < i32::MAX,
            i32::MIN < next.y < i32::MAX,
            forall|j: int| 0 <= j < 4 ==> #[trigger] corners@[j] == corner(next, j),
            spec_sidestep_from(map, occupied@, pos, next, 0) == spec_sidestep_from(map, occupied@, pos, next, k as int),
        decreases 4 - k,
    {
        let c = corners[k];
        if c != pos && map.is_walkable(c) && !contains_pos(occupied, c) {
            proof {
                lemma_sidestep_sound(map, occupied@, pos, next, 0);
            }
            return Some(c);
        }
        k = k + 1;
    }
    None
}

/// A detour is taken only when it costs less than the current path plus
/// four cardinal steps (no huge loops to get past someone).
pub open spec fn detour_worth(from: TilePos, alt: Seq<TilePos>, current: Seq<TilePos>) -> bool {
    spec_path_cost(Some(from), alt) < spec_path_cost(Some(from), current) + DETOUR_SLACK
}

pub fn accept_detour(from: TilePos, alt: &[TilePos], current: &[TilePos]) -> (r: bool)
    requires
        alt@.len() * 14 <= u32::MAX,
        current@.len() * 14 <= u32::MAX,
    ensures
        r == detour_worth(from, alt@, current@),
{
    let a = path_cost(Some(from), alt);
    let c = path_cost(Some(from), current);
    (a as u64) < (c as u64) + DETOUR_SLACK
}

} // verus!
