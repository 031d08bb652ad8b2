//! Grid A* pathfinding, 8-directional with geometric costs.
//!
//! - Cardinal step cost `10`, diagonal step cost `14` (≈ 10·√2) — integers
//!   keep the search deterministic and overflow-free.
//! - Heuristic: octile distance in the same cost scale, admissible and
//!   consistent for the 10/14 cost model.
//! - Corner cutting is strictly forbidden: a diagonal step requires BOTH of
//!   its side cells to be free (map walls and dynamic blockers alike), so
//!   crew can never squeeze through wall corners or between two blockers.
//!
//! `blocked` lists dynamic obstacles (e.g. crew standing in a corridor) that
//! callers want treated as walls when re-planning around congestion.

use crate::dist::OctDist;
use crate::map::{cell_index, lemma_cell_index_bounds, lemma_cell_index_injective, ShipMap, TilePos};
use vstd::prelude::*;

verus! {

/// Fixed-point step costs (×10 tile-distance). 14 ≈ 10·√2, slightly under
/// the true value so the heuristic stays admissible.
pub const COST_CARDINAL: u32 = 10;

pub const COST_DIAGONAL: u32 = 14;

/// A step between `a` and `b` changes both coordinates.
pub open spec fn is_diagonal(a: TilePos, b: TilePos) -> bool {
    a.x != b.x && a.y != b.y
}

pub open spec fn spec_step_cost(a: TilePos, b: TilePos) -> int {
    if is_diagonal(a, b) {
        14
    } else {
        10
    }
}

/// `b` is one of the 8 neighbours of `a`.
pub open spec fn adjacent(a: TilePos, b: TilePos) -> bool {
    -1 <= b.x - a.x <= 1 && -1 <= b.y - a.y <= 1 && a != b
}

/// `p` is walkable and not a dynamic blocker.
pub open spec fn free(map: &ShipMap, blocked: Seq<TilePos>, p: TilePos) -> bool {
    map.spec_walkable(p) && !blocked.contains(p)
}

/// The two side cells of a diagonal step `from → to`.
pub open spec fn side_a(from: TilePos, to: TilePos) -> TilePos {
    TilePos { x: to.x, y: from.y }
}

pub open spec fn side_b(from: TilePos, to: TilePos) -> TilePos {
    TilePos { x: from.x, y: to.y }
}

/// Can the walker at `from` enter `to`? For diagonal steps BOTH side cells
/// must be free too — strict no-corner-cutting.
pub open spec fn enterable(map: &ShipMap, blocked: Seq<TilePos>, from: TilePos, to: TilePos) -> bool {
    &&& free(map, blocked, to)
    &&& is_diagonal(from, to) ==> free(map, blocked, side_a(from, to)) && free(
        map,
        blocked,
        side_b(from, to),
    )
}

/// A legal single move.
pub open spec fn legal_step(map: &ShipMap, blocked: Seq<TilePos>, a: TilePos, b: TilePos) -> bool {
    adjacent(a, b) && enterable(map, blocked, a, b)
}

/// The tile a walker stands on before taking step `i` of `path`.
pub open spec fn path_prev(from: TilePos, path: Seq<TilePos>, i: int) -> TilePos {
    if i == 0 {
        from
    } else {
        path[i - 1]
    }
}

/// Every step of `path`, starting at `from`, is a legal move.
pub open spec fn legal_path(map: &ShipMap, blocked: Seq<TilePos>, from: TilePos, path: Seq<TilePos>) -> bool {
    forall|i: int| 0 <= i < path.len() ==> #[trigger] legal_step(map, blocked, path_prev(from, path, i), path[i])
}

/// Some legal route (no dynamic blockers) leads from `from` to `to`; a
/// walker already on `to` has arrived.
pub open spec fn reachable(map: &ShipMap, from: TilePos, to: TilePos) -> bool {
    from == to || (map.spec_walkable(to) && map.spec_standable(from) && exists|q: Seq<TilePos>|
        #[trigger] legal_path(map, Seq::empty(), from, q) && q.len() > 0 && q.last() == to)
}

/// `path` is a legal route from `from` that ends on `to` (empty when the
/// two coincide).
pub open spec fn reaches(map: &ShipMap, from: TilePos, path: Seq<TilePos>, to: TilePos) -> bool {
    &&& legal_path(map, Seq::empty(), from, path)
    &&& if from == to {
        path.len() == 0
    } else {
        path.len() > 0 && path.last() == to && map.spec_standable(from)
    }
}

/// A route from the search is a witness of reachability.
pub proof fn lemma_reaches_reachable(map: &ShipMap, from: TilePos, path: Seq<TilePos>, to: TilePos)
    requires
        reaches(map, from, path, to),
    ensures
        reachable(map, from, to),
{
    if from != to {
        let i = path.len() - 1;
        assert(legal_step(map, Seq::empty(), path_prev(from, path, i), path[i]));
    }
}

/// Route search with no dynamic blockers, stated as reachability: a
/// cheapest route when there is one.
pub fn route(map: &ShipMap, from: TilePos, to: TilePos) -> (r: Option<Vec<TilePos>>)
    requires
        map.wf(),
    ensures
        match r {
            Some(p) => reaches(map, from, p@, to) && cost_bound(map, Seq::empty(), from, to, spec_path_cost(Some(from), p@)),
            None => !reachable(map, from, to),
        },
{
    let none: Vec<TilePos> = Vec::new();
    assert(none@ =~= Seq::<TilePos>::empty());
    find_path(map, from, to, none.as_slice())
}

/// Total fixed-point cost of a path (Σ step costs). With `from` the step
/// from the walker's tile to `path[0]` counts too.
pub open spec fn spec_path_cost(from: Option<TilePos>, path: Seq<TilePos>) -> int
    decreases path.len(),
{
    if path.len() == 0 {
        0
    } else {
        let last = path.len() - 1;
        let step = if last == 0 {
            match from {
                Some(f) => spec_step_cost(f, path[0]),
                None => 0,
            }
        } else {
            spec_step_cost(path[last - 1], path[last])
        };
        spec_path_cost(from, path.drop_last()) + step
    }
}

/// Octile distance in the cost scale: `10·max(dx,dy) + 4·min(dx,dy)`.
pub open spec fn spec_octile(a: TilePos, b: TilePos) -> int {
    let dx = if a.x >= b.x { a.x - b.x } else { b.x - a.x };
    let dy = if a.y >= b.y { a.y - b.y } else { b.y - a.y };
    if dx >= dy {
        10 * dx + 4 * dy
    } else {
        10 * dy + 4 * dx
    }
}

/// Fixed-point step cost between 4/8-adjacent tiles.
pub fn step_cost(a: TilePos, b: TilePos) -> (r: u32)
    ensures
        r == spec_step_cost(a, b),
{
    if a.x != b.x && a.y != b.y {
        COST_DIAGONAL
    } else {
        COST_CARDINAL
    }
}

/// Exact world-space length of one step: `√2` for a diagonal step, `1`
/// otherwise.
pub fn step_length(a: TilePos, b: TilePos) -> (r: OctDist)
    ensures
        r == (if is_diagonal(a, b) {
            OctDist { straight: 0, diag: 1 }
        } else {
            OctDist { straight: 1, diag: 0 }
        }),
{
    if a.x != b.x && a.y != b.y {
        OctDist { straight: 0, diag: 1 }
    } else {
        OctDist { straight: 1, diag: 0 }
    }
}

/// Number of diagonal (`diag`) and other (`!diag`) steps of a path, the
/// step from `from` to `path[0]` included when there is a `from`.
pub open spec fn count_steps(from: Option<TilePos>, path: Seq<TilePos>, diag: bool) -> int
    decreases path.len(),
{
    if path.len() == 0 {
        0
    } else {
        let prev = if path.len() == 1 {
            from
        } else {
            Some(path[path.len() - 2])
        };
        count_steps(from, path.drop_last(), diag) + match prev {
            Some(p) => if is_diagonal(p, path.last()) == diag {
                1int
            } else {
                0int
            },
            None => 0int,
        }
    }
}

/// Exact world-space length of a path (Σ step lengths): `s + √2·d` with `s`
/// straight and `d` diagonal steps.
pub fn path_length(from: Option<TilePos>, path: &[TilePos]) -> (r: OctDist)
    ensures
        r.straight == count_steps(from, path@, false),
        r.diag == count_steps(from, path@, true),
{
    let mut s: u64 = 0;
    let mut d: u64 = 0;
    let mut prev = from;
    let mut i: usize = 0;
    while i < path.len()
        invariant
            0 <= i <= path@.len(),
            s == count_steps(from, path@.subrange(0, i as int), false),
            d == count_steps(from, path@.subrange(0, i as int), true),
            s + d <= i,
            prev == (if i == 0 { from } else { Some(path@[i - 1]) }),
        decreases path@.len() - i,
    {
        let t = path[i];
        proof {
            let sub = path@.subrange(0, i + 1);
            assert(sub.drop_last() =~= path@.subrange(0, i as int));
            lemma_count_steps_nonneg(from, path@.subrange(0, i as int));
        }
        if let Some(p) = prev {
            if p.x != t.x && p.y != t.y {
                d = d + 1;
            } else {
                s = s + 1;
            }
        }
        prev = Some(t);
        i = i + 1;
    }
    assert(path@.subrange(0, path@.len() as int) =~= path@);
    OctDist { straight: s, diag: d }
}

proof fn lemma_count_steps_nonneg(from: Option<TilePos>, path: Seq<TilePos>)
    ensures
        count_steps(from, path, false) >= 0,
        count_steps(from, path, true) >= 0,
    decreases path.len(),
{
    if path.len() > 0 {
        lemma_count_steps_nonneg(from, path.drop_last());
    }
}

/// Total fixed-point cost of a path (Σ step costs), optional `from` as in
/// `spec_path_cost`.
pub fn path_cost(from: Option<TilePos>, path: &[TilePos]) -> (r: u32)
    requires
        path@.len() * 14 <= u32::MAX,
    ensures
        r == spec_path_cost(from, path@),
{
    let mut total: u32 = 0;
    let mut prev = from;
    let mut i: usize = 0;
    while i < path.len()
        invariant
            path@.len() * 14 <= u32::MAX,
            0 <= i <= path@.len(),
            total == spec_path_cost(from, path@.subrange(0, i as int)),
            total <= 14 * i,
            prev == (if i == 0 { from } else { Some(path@[i - 1]) }),
        decreases path@.len() - i,
    {
        let t = path[i];
        proof {
            let s = path@.subrange(0, i + 1);
            assert(s.drop_last() =~= path@.subrange(0, i as int));
        }
        if let Some(p) = prev {
            total = total + step_cost(p, t);
        }
        prev = Some(t);
        i = i + 1;
    }
    assert(path@.subrange(0, path@.len() as int) =~= path@);
    total
}

/// Octile distance in fixed-point cost scale — the 8-way admissible
/// heuristic: `10·max(dx,dy) + 4·min(dx,dy)`.
pub fn octile_cost(a: TilePos, b: TilePos) -> (r: u32)
    requires
        spec_octile(a, b) <= u32::MAX,
    ensures
        r == spec_octile(a, b),
{
    let r = octile_u64(a, b);
    r as u32
}

fn octile_u64(a: TilePos, b: TilePos) -> (r: u64)
    ensures
        r == spec_octile(a, b),
{
    let dx: u64 = if a.x >= b.x { (a.x as i64 - b.x as i64) as u64 } else { (b.x as i64 - a.x as i64) as u64 };
    let dy: u64 = if a.y >= b.y { (a.y as i64 - b.y as i64) as u64 } else { (b.y as i64 - a.y as i64) as u64 };
    if dx >= dy {
        10 * dx + 4 * dy
    } else {
        10 * dy + 4 * dx
    }
}

fn contains_tile(list: &[TilePos], p: TilePos) -> (r: bool)
    ensures
        r == list@.contains(p),
{
    let mut i: usize = 0;
    while i < list.len()
        invariant
            0 <= i <= list@.len(),
            forall|j: int| 0 <= j < i ==> list@[j] != p,
        decreases list@.len() - i,
    {
        if list[i] == p {
            return true;
        }
        i = i + 1;
    }
    false
}

fn is_free(map: &ShipMap, blocked: &[TilePos], p: TilePos) -> (r: bool)
    requires
        map.wf(),
    ensures
        r == free(map, blocked@, p),
{
    map.is_walkable(p) && !contains_tile(blocked, p)
}

/// Can the walker at `from` enter `to`? (see `enterable`)
pub fn step_enterable(map: &ShipMap, from: TilePos, to: TilePos, blocked: &[TilePos]) -> (r: bool)
    requires
        map.wf(),
    ensures
        r == enterable(map, blocked@, from, to),
{
    if !is_free(map, blocked, to) {
        return false;
    }
    if from.x != to.x && from.y != to.y {
        let sa = TilePos::new(to.x, from.y);
        let sb = TilePos::new(from.x, to.y);
        if !is_free(map, blocked, sa) || !is_free(map, blocked, sb) {
            return false;
        }
    }
    true
}

/// The 8 move directions: cardinals first so equal-cost paths prefer
/// straight lines over diagonal zig-zags.
pub open spec fn dir(k: int) -> (int, int) {
    if k == 0 {
        (1, 0)
    } else if k == 1 {
        (-1, 0)
    } else if k == 2 {
        (0, 1)
    } else if k == 3 {
        (0, -1)
    } else if k == 4 {
        (1, 1)
    } else if k == 5 {
        (1, -1)
    } else if k == 6 {
        (-1, 1)
    } else {
        (-1, -1)
    }
}

fn dir_exec(k: usize) -> (r: (i32, i32))
    requires
        k < 8,
    ensures
        r.0 == dir(k as int).0,
        r.1 == dir(k as int).1,
{
    if k == 0 {
        (1, 0)
    } else if k == 1 {
        (-1, 0)
    } else if k == 2 {
        (0, 1)
    } else if k == 3 {
        (0, -1)
    } else if k == 4 {
        (1, 1)
    } else if k == 5 {
        (1, -1)
    } else if k == 6 {
        (-1, 1)
    } else {
        (-1, -1)
    }
}

/// Every neighbour is reached by one of the 8 directions.
proof fn lemma_adjacent_has_dir(a: TilePos, b: TilePos)
    requires
        adjacent(a, b),
    ensures
        exists|k: int| 0 <= k < 8 && b.x == a.x + dir(k).0 && b.y == a.y + dir(k).1,
{
    let dx = b.x - a.x;
    let dy = b.y - a.y;
    if dx == 1 && dy == 0 {
        assert(b.x == a.x + dir(0).0 && b.y == a.y + dir(0).1);
    } else if dx == -1 && dy == 0 {
        assert(b.x == a.x + dir(1).0 && b.y == a.y + dir(1).1);
    } else if dx == 0 && dy == 1 {
        assert(b.x == a.x + dir(2).0 && b.y == a.y + dir(2).1);
    } else if dx == 0 && dy == -1 {
        assert(b.x == a.x + dir(3).0 && b.y == a.y + dir(3).1);
    } else if dx == 1 && dy == 1 {
        assert(b.x == a.x + dir(4).0 && b.y == a.y + dir(4).1);
    } else if dx == 1 && dy == -1 {
        assert(b.x == a.x + dir(5).0 && b.y == a.y + dir(5).1);
    } else if dx == -1 && dy == 1 {
        assert(b.x == a.x + dir(6).0 && b.y == a.y + dir(6).1);
    } else {
        assert(b.x == a.x + dir(7).0 && b.y == a.y + dir(7).1);
    }
}

/// The neighbour of `p` in direction `k`.
spec fn dir_target(p: TilePos, k: int) -> TilePos {
    TilePos { x: (p.x + dir(k).0) as i32, y: (p.y + dir(k).1) as i32 }
}

/// After relaxing the step `p → q` from cost `c`, `q` is reached no dearer
/// than through `p`.
spec fn relaxed(map: &ShipMap, best: Seq<u64>, p: TilePos, q: TilePos, c: u64) -> bool {
    map.spec_in_bounds(q) && best[cell_index(map.width as int, q.x as int, q.y as int)] <= c
        + spec_step_cost(p, q)
}

/// One entry of the open list.
#[derive(Clone, Copy)]
struct OpenNode {
    cost: u64,
    est_total: u64,
    pos: TilePos,
}

/// Σ of a cost table, the potential that bounds the search.
spec fn sum_costs(s: Seq<u64>) -> int
    decreases s.len(),
{
    if s.len() == 0 {
        0
    } else {
        sum_costs(s.drop_last()) + s.last()
    }
}

proof fn lemma_sum_costs_update(s: Seq<u64>, i: int, v: u64)
    requires
        0 <= i < s.len(),
    ensures
        sum_costs(s.update(i, v)) == sum_costs(s) - s[i] + v,
    decreases s.len(),
{
    if i == s.len() - 1 {
        assert(s.update(i, v).drop_last() =~= s.drop_last());
    } else {
        lemma_sum_costs_update(s.drop_last(), i, v);
        assert(s.update(i, v).drop_last() =~= s.drop_last().update(i, v));
    }
}

proof fn lemma_sum_costs_nonneg(s: Seq<u64>)
    ensures
        sum_costs(s) >= 0,
    decreases s.len(),
{
    if s.len() > 0 {
        lemma_sum_costs_nonneg(s.drop_last());
    }
}

/// Position of a dense index in a grid of width `w`.
spec fn pos_of(w: int, i: int) -> TilePos {
    TilePos { x: (i % w) as i32, y: (i / w) as i32 }
}

/// The search tables describe real legal routes: every reached tile other
/// than the start was entered by a legal step from its recorded predecessor,
/// which is strictly cheaper.
spec fn routes_ok(
    map: &ShipMap,
    blocked: Seq<TilePos>,
    best: Seq<u64>,
    came: Seq<usize>,
    from_i: int,
) -> bool {
    let w = map.width as int;
    let n = best.len();
    forall|i: int|
        0 <= i < n && i != from_i && best[i] < u64::MAX ==> {
            let u = #[trigger] came[i] as int;
            &&& 0 <= u < n
            &&& best[u] < best[i]
            &&& legal_step(map, blocked, pos_of(w, u), pos_of(w, i))
        }
}

/// `i` is expanded: every tile legally enterable from it has been reached.
spec fn expanded(map: &ShipMap, blocked: Seq<TilePos>, best: Seq<u64>, i: int) -> bool {
    let w = map.width as int;
    let p = pos_of(w, i);
    forall|q: TilePos|
        #[trigger] legal_step(map, blocked, p, q) ==> map.spec_in_bounds(q) && best[cell_index(
            w,
            q.x as int,
            q.y as int,
        )] < u64::MAX
}

/// The open list holds an up-to-date entry for `i`.
spec fn has_entry(open: Seq<OpenNode>, w: int, i: int, c: u64) -> bool {
    exists|j: int| 0 <= j < open.len() && #[trigger] open[j].pos == pos_of(w, i) && open[j].cost == c
}

proof fn lemma_pos_of_index(w: int, h: int, p: TilePos)
    requires
        0 <= p.x < w,
        0 <= p.y < h,
    ensures
        pos_of(w, cell_index(w, p.x as int, p.y as int)) == p,
{
    let i = cell_index(w, p.x as int, p.y as int);
    assert(i % w == p.x && i / w == p.y) by (nonlinear_arith)
        requires
            i == p.y * w + p.x,
            0 <= p.x < w,
            0 <= p.y,
    ;
}

proof fn lemma_index_of_pos(w: int, h: int, i: int)
    requires
        0 <= i < w * h,
        0 < w <= i32::MAX,
        h <= i32::MAX,
    ensures
        0 <= pos_of(w, i).x < w,
        0 <= pos_of(w, i).y < h,
        pos_of(w, i).x == i % w,
        pos_of(w, i).y == i / w,
        cell_index(w, pos_of(w, i).x as int, pos_of(w, i).y as int) == i,
{
    assert(0 <= i % w < w && 0 <= i / w < h && (i / w) * w + i % w == i) by (nonlinear_arith)
        requires
            0 <= i < w * h,
            0 < w,
    ;
}

/// Number of reached (finite-cost) entries.
spec fn count_reached(s: Seq<u64>) -> int
    decreases s.len(),
{
    if s.len() == 0 {
        0
    } else {
        count_reached(s.drop_last()) + if s.last() < u64::MAX { 1int } else { 0int }
    }
}

proof fn lemma_count_reached_update(s: Seq<u64>, i: int, v: u64)
    requires
        0 <= i < s.len(),
    ensures
        count_reached(s.update(i, v)) == count_reached(s) - (if s[i] < u64::MAX { 1int } else { 0int }) + (
        if v < u64::MAX { 1int } else { 0int }),
    decreases s.len(),
{
    if i == s.len() - 1 {
        assert(s.update(i, v).drop_last() =~= s.drop_last());
    } else {
        lemma_count_reached_update(s.drop_last(), i, v);
        assert(s.update(i, v).drop_last() =~= s.drop_last().update(i, v));
    }
}

proof fn lemma_count_reached_bounds(s: Seq<u64>, i: int)
    requires
        0 <= i < s.len(),
        s[i] < u64::MAX,
    ensures
        1 <= count_reached(s) <= s.len(),
    decreases s.len(),
{
    if i == s.len() - 1 {
        lemma_count_reached_le(s.drop_last());
    } else {
        lemma_count_reached_bounds(s.drop_last(), i);
    }
}

proof fn lemma_count_reached_le(s: Seq<u64>)
    ensures
        0 <= count_reached(s) <= s.len(),
    decreases s.len(),
{
    if s.len() > 0 {
        lemma_count_reached_le(s.drop_last());
    }
}

/// Tiles along a legal path starting from a tile of a closed reached set are
/// reached too.
proof fn lemma_closed_set_contains_path(
    map: &ShipMap,
    blocked: Seq<TilePos>,
    best: Seq<u64>,
    from: TilePos,
    path: Seq<TilePos>,
)
    requires
        map.wf(),
        best.len() == map.width * map.height,
        map.spec_in_bounds(from),
        best[cell_index(map.width as int, from.x as int, from.y as int)] < u64::MAX,
        legal_path(map, blocked, from, path),
        forall|i: int| 0 <= i < best.len() && best[i] < u64::MAX ==> #[trigger] expanded(map, blocked, best, i),
    ensures
        forall|k: int| 0 <= k < path.len() ==> map.spec_in_bounds(#[trigger] path[k]) && best[cell_index(
            map.width as int,
            path[k].x as int,
            path[k].y as int,
        )] < u64::MAX,
    decreases path.len(),
{
    if path.len() > 0 {
        let front = path.drop_last();
        assert forall|i: int| 0 <= i < front.len() implies #[trigger] legal_step(map, blocked, path_prev(from, front, i), front[i]) by {
            assert(legal_step(map, blocked, path_prev(from, path, i), path[i]));
        }
        lemma_closed_set_contains_path(map, blocked, best, from, front);
        let last = path.len() - 1;
        let prev = path_prev(from, path, last);
        assert(legal_step(map, blocked, prev, path[last]));
        let w = map.width as int;
        let pi = cell_index(w, prev.x as int, prev.y as int);
        if last > 0 {
            assert(front[last - 1] == prev);
        }
        assert(map.spec_in_bounds(prev));
        lemma_cell_index_bounds(w, map.height as int, prev.x as int, prev.y as int);
        lemma_pos_of_index(w, map.height as int, prev);
        assert(expanded(map, blocked, best, pi));
        assert(legal_step(map, blocked, pos_of(w, pi), path[last]));
        assert forall|k: int| 0 <= k < path.len() implies map.spec_in_bounds(#[trigger] path[k]) && best[cell_index(
            map.width as int,
            path[k].x as int,
            path[k].y as int,
        )] < u64::MAX by {
            if k < last {
                assert(path[k] == front[k]);
            }
        }
    }
}

// -------------------------------------------------------------------------------------
// Optimality
// -------------------------------------------------------------------------------------

/// Every legal route from `from` that ends on `t` costs at least `c`.
pub open spec fn cost_bound(map: &ShipMap, blocked: Seq<TilePos>, from: TilePos, t: TilePos, c: int) -> bool {
    forall|q: Seq<TilePos>|
        #![trigger legal_path(map, blocked, from, q)]
        legal_path(map, blocked, from, q) && q.len() > 0 && q.last() == t ==> c <= spec_path_cost(Some(from), q)
}

/// The octile heuristic is consistent: one step never lowers it by more
/// than the step costs.
proof fn lemma_octile_consistent(a: TilePos, b: TilePos, t: TilePos)
    requires
        adjacent(a, b),
    ensures
        spec_octile(a, t) <= spec_step_cost(a, b) + spec_octile(b, t),
{
}

proof fn lemma_path_cost_nonneg(from: Option<TilePos>, q: Seq<TilePos>)
    ensures
        spec_path_cost(from, q) >= 0,
    decreases q.len(),
{
    if q.len() > 0 {
        lemma_path_cost_nonneg(from, q.drop_last());
    }
}

/// The walker's tile before step `m`, with `from` before the first step
/// (`m == -1` names `from` itself).
spec fn at_step(from: TilePos, q: Seq<TilePos>, m: int) -> TilePos {
    if m < 0 {
        from
    } else {
        q[m]
    }
}

/// Cost of the first `m + 1` steps plus the heuristic from where they end:
/// never decreases along a legal route.
spec fn potential(from: TilePos, to: TilePos, q: Seq<TilePos>, m: int) -> int {
    spec_path_cost(Some(from), q.subrange(0, m + 1)) + spec_octile(at_step(from, q, m), to)
}

proof fn lemma_prefix_cost(from: TilePos, q: Seq<TilePos>, m: int)
    requires
        0 <= m < q.len(),
    ensures
        spec_path_cost(Some(from), q.subrange(0, m + 1)) == spec_path_cost(Some(from), q.subrange(0, m))
            + spec_step_cost(path_prev(from, q, m), q[m]),
{
    let s = q.subrange(0, m + 1);
    assert(s.drop_last() =~= q.subrange(0, m));
    if m > 0 {
        assert(s[m - 1] == q[m - 1]);
    }
}

proof fn lemma_prefix_legal(map: &ShipMap, bl: Seq<TilePos>, from: TilePos, q: Seq<TilePos>, m: int)
    requires
        legal_path(map, bl, from, q),
        0 <= m <= q.len(),
    ensures
        legal_path(map, bl, from, q.subrange(0, m)),
{
    let s = q.subrange(0, m);
    assert forall|i: int| 0 <= i < s.len() implies #[trigger] legal_step(map, bl, path_prev(from, s, i), s[i]) by {
        assert(legal_step(map, bl, path_prev(from, q, i), q[i]));
        if i > 0 {
            assert(s[i - 1] == q[i - 1]);
        }
    }
}

proof fn lemma_potential(map: &ShipMap, bl: Seq<TilePos>, from: TilePos, to: TilePos, q: Seq<TilePos>, a: int, b: int)
    requires
        legal_path(map, bl, from, q),
        -1 <= a <= b < q.len(),
    ensures
        potential(from, to, q, a) <= potential(from, to, q, b),
    decreases b - a,
{
    if a < b {
        lemma_potential(map, bl, from, to, q, a, b - 1);
        lemma_prefix_cost(from, q, b);
        assert(legal_step(map, bl, path_prev(from, q, b), q[b]));
        lemma_octile_consistent(path_prev(from, q, b), q[b], to);
        assert(at_step(from, q, b - 1) == path_prev(from, q, b));
    }
}

/// The whole route's potential is its cost plus the heuristic at its end.
proof fn lemma_potential_end(from: TilePos, to: TilePos, q: Seq<TilePos>)
    requires
        q.len() > 0,
    ensures
        potential(from, to, q, q.len() - 1) == spec_path_cost(Some(from), q) + spec_octile(q.last(), to),
        potential(from, to, q, -1) == spec_octile(from, to),
{
    assert(q.subrange(0, q.len() as int) =~= q);
    assert(q.subrange(0, 0) =~= Seq::<TilePos>::empty());
}

/// Every reached tile but the start was last improved from a closed tile,
/// by one legal step, and costs exactly that tile's cost plus the step.
spec fn chain_ok(
    map: &ShipMap,
    bl: Seq<TilePos>,
    best: Seq<u64>,
    came: Seq<usize>,
    closed: Seq<bool>,
    from_i: int,
) -> bool {
    let w = map.width as int;
    let n = best.len();
    forall|i: int|
        0 <= i < n && i != from_i && best[i] < u64::MAX ==> {
            let u = #[trigger] came[i] as int;
            &&& 0 <= u < n
            &&& closed[u]
            &&& best[u] < u64::MAX
            &&& best[i] == best[u] + spec_step_cost(pos_of(w, u), pos_of(w, i))
            &&& legal_step(map, bl, pos_of(w, u), pos_of(w, i))
        }
}

/// Closed tiles carry their cheapest cost, and (but `skip`, being
/// expanded) have relaxed every legal step out of them.
spec fn closed_ok(map: &ShipMap, bl: Seq<TilePos>, from: TilePos, best: Seq<u64>, closed: Seq<bool>, skip: int) -> bool {
    let w = map.width as int;
    forall|i: int|
        0 <= i < best.len() && #[trigger] closed[i] ==> {
            &&& best[i] < u64::MAX
            &&& cost_bound(map, bl, from, pos_of(w, i), best[i] as int)
            &&& i != skip ==> forall|q: TilePos|
                #[trigger] legal_step(map, bl, pos_of(w, i), q) ==> map.spec_in_bounds(q) && best[cell_index(
                    w,
                    q.x as int,
                    q.y as int,
                )] < u64::MAX && best[cell_index(w, q.x as int, q.y as int)] <= best[i] + spec_step_cost(
                    pos_of(w, i),
                    q,
                )
        }
}

/// The invariant that makes the search optimal.
spec fn opt_inv(
    map: &ShipMap,
    bl: Seq<TilePos>,
    from: TilePos,
    to: TilePos,
    best: Seq<u64>,
    came: Seq<usize>,
    open: Seq<OpenNode>,
    closed: Seq<bool>,
    from_i: int,
    to_i: int,
    skip: int,
) -> bool {
    let w = map.width as int;
    &&& closed.len() == best.len()
    &&& chain_ok(map, bl, best, came, closed, from_i)
    &&& closed_ok(map, bl, from, best, closed, skip)
    &&& forall|j: int| 0 <= j < open.len() ==> (#[trigger] open[j]).est_total == open[j].cost + spec_octile(open[j].pos, to)
    &&& forall|i: int| 0 <= i < best.len() && best[i] < u64::MAX ==> has_entry(open, w, i, best[i]) || #[trigger] closed[i]
    &&& !closed[to_i]
}

/// A reached tile's cost is the cost of a legal route to it.
proof fn lemma_chain(
    map: &ShipMap,
    bl: Seq<TilePos>,
    from: TilePos,
    best: Seq<u64>,
    came: Seq<usize>,
    closed: Seq<bool>,
    from_i: int,
    i: int,
) -> (q: Seq<TilePos>)
    requires
        map.wf(),
        0 < map.width,
        chain_ok(map, bl, best, came, closed, from_i),
        0 <= from_i < best.len(),
        best[from_i] == 0,
        pos_of(map.width as int, from_i) == from,
        0 <= i < best.len(),
        best[i] < u64::MAX,
    ensures
        legal_path(map, bl, from, q),
        spec_path_cost(Some(from), q) == best[i],
        i == from_i ==> q.len() == 0,
        i != from_i ==> q.len() > 0 && q.last() == pos_of(map.width as int, i),
    decreases best[i],
{
    let w = map.width as int;
    if i == from_i {
        Seq::empty()
    } else {
        let u = came[i] as int;
        let qu = lemma_chain(map, bl, from, best, came, closed, from_i, u);
        let q = qu.push(pos_of(w, i));
        assert(q.drop_last() =~= qu);
        let prev = if u == from_i { from } else { pos_of(w, u) };
        assert(path_prev(from, q, q.len() - 1) == prev);
        assert forall|k: int| 0 <= k < q.len() implies #[trigger] legal_step(map, bl, path_prev(from, q, k), q[k]) by {
            if k < qu.len() {
                assert(legal_step(map, bl, path_prev(from, qu, k), qu[k]));
                if k > 0 {
                    assert(q[k - 1] == qu[k - 1]);
                }
            }
        }
        if q.len() > 1 {
            assert(q[q.len() - 2] == qu.last());
        }
        q
    }
}

/// Walk back along a route from a tile that is not closed to the last
/// closed tile before it: the open entry of the tile after it bounds the
/// route's potential from below.
proof fn lemma_frontier_at(
    map: &ShipMap,
    bl: Seq<TilePos>,
    from: TilePos,
    to: TilePos,
    best: Seq<u64>,
    came: Seq<usize>,
    open: Seq<OpenNode>,
    closed: Seq<bool>,
    from_i: int,
    to_i: int,
    e: int,
    q: Seq<TilePos>,
    m: int,
)
    requires
        map.wf(),
        0 < map.width,
        best.len() == map.width * map.height,
        opt_inv(map, bl, from, to, best, came, open, closed, from_i, to_i, -1),
        0 <= from_i < best.len(),
        best[from_i] == 0,
        pos_of(map.width as int, from_i) == from,
        map.spec_in_bounds(from),
        forall|j: int| 0 <= j < open.len() ==> e <= #[trigger] open[j].est_total,
        legal_path(map, bl, from, q),
        -1 <= m < q.len(),
        !closed[cell_index(map.width as int, at_step(from, q, m).x as int, at_step(from, q, m).y as int)],
    ensures
        e <= potential(from, to, q, m),
    decreases m + 1,
{
    let w = map.width as int;
    let h = map.height as int;
    let z = at_step(from, q, m);
    if m >= 0 {
        assert(legal_step(map, bl, path_prev(from, q, m), q[m]));
    }
    assert(map.spec_in_bounds(z));
    lemma_cell_index_bounds(w, h, z.x as int, z.y as int);
    lemma_pos_of_index(w, h, z);
    let zi = cell_index(w, z.x as int, z.y as int);
    lemma_pos_of_index(w, h, from);
    lemma_cell_index_bounds(w, h, from.x as int, from.y as int);
    assert(from_i == cell_index(w, from.x as int, from.y as int)) by {
        lemma_index_of_pos(w, h, from_i);
    }
    if m == -1 {
        assert(zi == from_i);
        assert(has_entry(open, w, from_i, 0));
        let j = choose|j: int| 0 <= j < open.len() && #[trigger] open[j].pos == pos_of(w, from_i) && open[j].cost == 0;
        assert(open[j].est_total == spec_octile(from, to));
        assert(q.subrange(0, 0) =~= Seq::<TilePos>::empty());
    } else {
        let y = at_step(from, q, m - 1);
        assert(y == path_prev(from, q, m));
        if m - 1 >= 0 {
            assert(legal_step(map, bl, path_prev(from, q, m - 1), q[m - 1]));
        }
        assert(map.spec_in_bounds(y));
        lemma_cell_index_bounds(w, h, y.x as int, y.y as int);
        lemma_pos_of_index(w, h, y);
        let yi = cell_index(w, y.x as int, y.y as int);
        if !closed[yi] {
            lemma_frontier_at(map, bl, from, to, best, came, open, closed, from_i, to_i, e, q, m - 1);
            lemma_potential(map, bl, from, to, q, m - 1, m);
        } else {
            assert(closed_ok(map, bl, from, best, closed, -1));
            assert(legal_step(map, bl, pos_of(w, yi), q[m]));
            assert(best[zi] <= best[yi] + spec_step_cost(y, q[m]));
            assert(best[zi] < u64::MAX);
            assert(cost_bound(map, bl, from, pos_of(w, yi), best[yi] as int));
            if m >= 1 {
                lemma_prefix_legal(map, bl, from, q, m);
                let pre = q.subrange(0, m);
                assert(pre.last() == y);
                assert(best[yi] <= spec_path_cost(Some(from), pre));
            } else {
                assert(yi == from_i);
                assert(q.subrange(0, 0) =~= Seq::<TilePos>::empty());
            }
            lemma_prefix_cost(from, q, m);
            assert(has_entry(open, w, zi, best[zi]));
            let j = choose|j: int| 0 <= j < open.len() && #[trigger] open[j].pos == pos_of(w, zi) && open[j].cost == best[zi];
            assert(open[j].est_total == best[zi] + spec_octile(z, to));
        }
    }
}

/// The frontier argument of A*: when every open entry's estimate is at
/// least `e`, no legal route to a tile that is not closed costs less than
/// `e` minus the heuristic there.
proof fn lemma_frontier(
    map: &ShipMap,
    bl: Seq<TilePos>,
    from: TilePos,
    to: TilePos,
    best: Seq<u64>,
    came: Seq<usize>,
    open: Seq<OpenNode>,
    closed: Seq<bool>,
    from_i: int,
    to_i: int,
    e: int,
    t: TilePos,
)
    requires
        map.wf(),
        0 < map.width,
        best.len() == map.width * map.height,
        opt_inv(map, bl, from, to, best, came, open, closed, from_i, to_i, -1),
        0 <= from_i < best.len(),
        best[from_i] == 0,
        pos_of(map.width as int, from_i) == from,
        map.spec_in_bounds(from),
        forall|j: int| 0 <= j < open.len() ==> e <= #[trigger] open[j].est_total,
        map.spec_in_bounds(t),
        !closed[cell_index(map.width as int, t.x as int, t.y as int)],
    ensures
        cost_bound(map, bl, from, t, e - spec_octile(t, to)),
{
    assert forall|q: Seq<TilePos>|
        #![trigger legal_path(map, bl, from, q)]
        legal_path(map, bl, from, q) && q.len() > 0 && q.last() == t implies e - spec_octile(t, to) <= spec_path_cost(
        Some(from),
        q,
    ) by {
        lemma_potential_end(from, to, q);
        lemma_frontier_at(map, bl, from, to, best, came, open, closed, from_i, to_i, e, q, q.len() - 1);
    }
}

/// Appending one legal step to a legal route.
proof fn lemma_extend(map: &ShipMap, bl: Seq<TilePos>, from: TilePos, q: Seq<TilePos>, x: TilePos)
    requires
        legal_path(map, bl, from, q),
        legal_step(map, bl, if q.len() == 0 { from } else { q.last() }, x),
    ensures
        legal_path(map, bl, from, q.push(x)),
        spec_path_cost(Some(from), q.push(x)) == spec_path_cost(Some(from), q) + spec_step_cost(
            if q.len() == 0 { from } else { q.last() },
            x,
        ),
{
    let r = q.push(x);
    assert(r.drop_last() =~= q);
    assert forall|k: int| 0 <= k < r.len() implies #[trigger] legal_step(map, bl, path_prev(from, r, k), r[k]) by {
        if k < q.len() {
            assert(legal_step(map, bl, path_prev(from, q, k), q[k]));
            if k > 0 {
                assert(r[k - 1] == q[k - 1]);
            }
        } else if k > 0 {
            assert(r[k - 1] == q.last());
        }
    }
    if r.len() > 1 {
        assert(r[r.len() - 2] == q.last());
    }
}

/// Cost of the steps of a route listed goal first: `s[1] → s[0]`, then
/// `s[2] → s[1]`, and so on.
spec fn seg_cost(s: Seq<TilePos>) -> int
    decreases s.len(),
{
    if s.len() <= 1 {
        0
    } else {
        spec_step_cost(s[1], s[0]) + seg_cost(s.drop_first())
    }
}

proof fn lemma_seg_push(s: Seq<TilePos>, x: TilePos)
    requires
        s.len() >= 1,
    ensures
        seg_cost(s.push(x)) == seg_cost(s) + spec_step_cost(x, s.last()),
    decreases s.len(),
{
    let t = s.push(x);
    assert(t[0] == s[0] && t[1] == if s.len() == 1 { x } else { s[1] });
    if s.len() == 1 {
        assert(t.drop_first() =~= seq![x]);
        assert(seg_cost(t.drop_first()) == 0);
        assert(seg_cost(s) == 0);
    } else {
        lemma_seg_push(s.drop_first(), x);
        assert(t.drop_first() =~= s.drop_first().push(x));
        assert(s.drop_first().last() == s.last());
    }
}

/// `s` read back to front.
spec fn rev_seq(s: Seq<TilePos>) -> Seq<TilePos> {
    Seq::new(s.len(), |i: int| s[s.len() - 1 - i])
}

proof fn lemma_rev_cost(from: TilePos, s: Seq<TilePos>)
    requires
        s.len() >= 1,
    ensures
        spec_path_cost(Some(from), rev_seq(s)) == spec_step_cost(from, s.last()) + seg_cost(s),
    decreases s.len(),
{
    let r = rev_seq(s);
    if s.len() == 1 {
        assert(r.drop_last() =~= Seq::<TilePos>::empty());
        assert(r[0] == s[0]);
        assert(seg_cost(s) == 0);
        assert(spec_path_cost(Some(from), r.drop_last()) == 0);
        assert(spec_path_cost(Some(from), r) == spec_path_cost(Some(from), r.drop_last()) + spec_step_cost(from, r[0]));
    } else {
        let t = s.drop_first();
        lemma_rev_cost(from, t);
        assert(r.drop_last() =~= rev_seq(t));
        assert(r[r.len() - 1] == s[0]);
        assert(r[r.len() - 2] == s[1]);
        assert(t.last() == s.last());
        assert(spec_path_cost(Some(from), r) == spec_path_cost(Some(from), r.drop_last()) + spec_step_cost(
            r[r.len() - 2],
            r[r.len() - 1],
        ));
        assert(seg_cost(s) == spec_step_cost(s[1], s[0]) + seg_cost(t));
    }
}

/// Relaxing a step out of the tile being expanded keeps the optimality
/// invariant.
proof fn lemma_relax_opt(
    map: &ShipMap,
    bl: Seq<TilePos>,
    from: TilePos,
    to: TilePos,
    best: Seq<u64>,
    came: Seq<usize>,
    open: Seq<OpenNode>,
    closed: Seq<bool>,
    from_i: int,
    to_i: int,
    pos_i: int,
    next_i: int,
    nc: u64,
    est: u64,
    next: TilePos,
)
    requires
        map.wf(),
        best.len() == map.width * map.height,
        est == nc + spec_octile(next, to),
        opt_inv(map, bl, from, to, best, came, open, closed, from_i, to_i, pos_i),
        came.len() == best.len(),
        0 <= pos_i < best.len(),
        0 <= next_i < best.len(),
        closed[pos_i],
        !closed[next_i],
        next_i != from_i,
        pos_of(map.width as int, next_i) == next,
        best[pos_i] < u64::MAX,
        nc == best[pos_i] + spec_step_cost(pos_of(map.width as int, pos_i), next),
        nc < best[next_i],
        legal_step(map, bl, pos_of(map.width as int, pos_i), next),
    ensures
        opt_inv(
            map,
            bl,
            from,
            to,
            best.update(next_i, nc),
            came.update(next_i, pos_i as usize),
            open.push(OpenNode { cost: nc, est_total: est, pos: next }),
            closed,
            from_i,
            to_i,
            pos_i,
        ),
{
    let w = map.width as int;
    let b1 = best.update(next_i, nc);
    let c1 = came.update(next_i, pos_i as usize);
    let node = OpenNode { cost: nc, est_total: est, pos: next };
    let o1 = open.push(node);
    assert(pos_i != next_i);
    assert forall|i: int| 0 <= i < b1.len() && i != from_i && b1[i] < u64::MAX implies {
        let u = #[trigger] c1[i] as int;
        &&& 0 <= u < b1.len()
        &&& closed[u]
        &&& b1[u] < u64::MAX
        &&& b1[i] == b1[u] + spec_step_cost(pos_of(w, u), pos_of(w, i))
        &&& legal_step(map, bl, pos_of(w, u), pos_of(w, i))
    } by {
        if i != next_i {
            assert(came[i] as int == c1[i] as int);
            assert(best[i] < u64::MAX);
            let u = came[i] as int;
            assert(closed[u]);
            assert(u != next_i);
            assert(b1[u] == best[u]);
        } else {
            assert(c1[i] as int == pos_i);
            assert(b1[pos_i] == best[pos_i]);
        }
    }
    assert forall|i: int| 0 <= i < b1.len() && #[trigger] closed[i] implies {
        &&& b1[i] < u64::MAX
        &&& cost_bound(map, bl, from, pos_of(w, i), b1[i] as int)
        &&& i != pos_i ==> forall|q: TilePos|
            #[trigger] legal_step(map, bl, pos_of(w, i), q) ==> map.spec_in_bounds(q) && b1[cell_index(
                w,
                q.x as int,
                q.y as int,
            )] < u64::MAX && b1[cell_index(w, q.x as int, q.y as int)] <= b1[i] + spec_step_cost(pos_of(w, i), q)
    } by {
        assert(i != next_i);
        if i != pos_i {
            assert forall|q: TilePos| #[trigger] legal_step(map, bl, pos_of(w, i), q) implies map.spec_in_bounds(q)
                && b1[cell_index(w, q.x as int, q.y as int)] < u64::MAX && b1[cell_index(w, q.x as int, q.y as int)]
                <= b1[i] + spec_step_cost(pos_of(w, i), q) by {
                let qi = cell_index(w, q.x as int, q.y as int);
                assert(best[qi] < u64::MAX && best[qi] <= best[i] + spec_step_cost(pos_of(w, i), q));
                lemma_cell_index_bounds(w, map.height as int, q.x as int, q.y as int);
                if qi == next_i {
                    assert(b1[qi] == nc);
                } else {
                    assert(b1[qi] == best[qi]);
                }
            }
        }
    }
    assert forall|j: int| 0 <= j < o1.len() implies (#[trigger] o1[j]).est_total == o1[j].cost + spec_octile(o1[j].pos, to) by {
        if j < open.len() {
            assert(o1[j] == open[j]);
        }
    }
    assert forall|i: int| 0 <= i < b1.len() && b1[i] < u64::MAX implies has_entry(o1, w, i, b1[i]) || #[trigger] closed[i] by {
        if i == next_i {
            assert(o1[open.len() as int] == node);
        } else if has_entry(open, w, i, best[i]) {
            let j = choose|j: int| 0 <= j < open.len() && #[trigger] open[j].pos == pos_of(w, i) && open[j].cost == best[i];
            assert(o1[j] == open[j]);
        }
    }
}

/// Once every step out of the expanded tile is relaxed, it counts as
/// closed like the others.
proof fn lemma_close_opt(
    map: &ShipMap,
    bl: Seq<TilePos>,
    from: TilePos,
    to: TilePos,
    best: Seq<u64>,
    came: Seq<usize>,
    open: Seq<OpenNode>,
    closed: Seq<bool>,
    from_i: int,
    to_i: int,
    pos_i: int,
)
    requires
        opt_inv(map, bl, from, to, best, came, open, closed, from_i, to_i, pos_i),
        0 <= pos_i < best.len(),
        forall|q: TilePos|
            #[trigger] legal_step(map, bl, pos_of(map.width as int, pos_i), q) ==> map.spec_in_bounds(q) && best[cell_index(
                map.width as int,
                q.x as int,
                q.y as int,
            )] < u64::MAX && best[cell_index(map.width as int, q.x as int, q.y as int)] <= best[pos_i]
                + spec_step_cost(pos_of(map.width as int, pos_i), q),
    ensures
        opt_inv(map, bl, from, to, best, came, open, closed, from_i, to_i, -1),
{
}

/// The search invariant shared by the main loop and the neighbour loop.
spec fn search_inv(
    map: &ShipMap,
    bl: Seq<TilePos>,
    best: Seq<u64>,
    came: Seq<usize>,
    open: Seq<OpenNode>,
    from_i: int,
    to_i: int,
    skip: int,
) -> bool {
    let wi = map.width as int;
    let n = best.len();
    &&& routes_ok(map, bl, best, came, from_i)
    &&& forall|i: int| 0 <= i < n && best[i] < u64::MAX ==> #[trigger] best[i] <= 14 * (count_reached(best) - 1)
    &&& forall|j: int|
        0 <= j < open.len() ==> map.spec_in_bounds(#[trigger] open[j].pos) && open[j].cost >= best[cell_index(
            wi,
            open[j].pos.x as int,
            open[j].pos.y as int,
        )] && open[j].cost < u64::MAX
    &&& forall|i: int|
        0 <= i < n && best[i] < u64::MAX && i != skip ==> has_entry(open, wi, i, best[i])
            || #[trigger] expanded(map, bl, best, i)
    &&& best[to_i] < u64::MAX ==> has_entry(open, wi, to_i, best[to_i])
}

/// The cost of a route splits at any tile on it: the steps up to and
/// including `p[m]`, then the rest walked from `p[m]`.
proof fn lemma_split_cost(from: TilePos, p: Seq<TilePos>, m: int)
    requires
        0 <= m < p.len(),
    ensures
        spec_path_cost(Some(from), p) == spec_path_cost(Some(from), p.subrange(0, m + 1)) + spec_path_cost(
            Some(p[m]),
            p.subrange(m + 1, p.len() as int),
        ),
    decreases p.len(),
{
    let n = p.len() as int;
    let s = p.subrange(m + 1, n);
    if n == m + 1 {
        assert(p.subrange(0, m + 1) =~= p);
        assert(s.len() == 0);
    } else {
        let d = p.drop_last();
        lemma_split_cost(from, d, m);
        assert(d.subrange(0, m + 1) =~= p.subrange(0, m + 1));
        assert(s.drop_last() =~= d.subrange(m + 1, n - 1));
        assert(s[s.len() - 1] == p[n - 1]);
        if s.len() > 1 {
            assert(s[s.len() - 2] == p[n - 2]);
        }
    }
}

/// A cheapest route to a goal other than the start never stands on the
/// start again: the part after such a visit would be a cheaper route.
proof fn lemma_cheapest_avoids_start(map: &ShipMap, bl: Seq<TilePos>, from: TilePos, to: TilePos, p: Seq<TilePos>)
    requires
        from != to,
        legal_path(map, bl, from, p),
        p.len() > 0,
        p.last() == to,
        cost_bound(map, bl, from, to, spec_path_cost(Some(from), p)),
    ensures
        forall|k: int| 0 <= k < p.len() ==> p[k] != from,
{
    assert forall|k: int| 0 <= k < p.len() implies p[k] != from by {
        if p[k] == from {
            let n = p.len() as int;
            let q = p.subrange(k + 1, n);
            assert(k < n - 1);
            assert forall|i: int| 0 <= i < q.len() implies #[trigger] legal_step(
                map,
                bl,
                path_prev(from, q, i),
                q[i],
            ) by {
                assert(legal_step(map, bl, path_prev(from, p, k + 1 + i), p[k + 1 + i]));
            }
            assert(q.last() == to);
            assert(legal_path(map, bl, from, q));
            lemma_split_cost(from, p, k);
            lemma_prefix_cost(from, p, k);
            lemma_path_cost_nonneg(Some(from), p.subrange(0, k));
            assert(spec_path_cost(Some(from), p) <= spec_path_cost(Some(from), q));
        }
    }
}

/// Returns the path from `from` to `to` excluding `from` itself: every step
/// is legal, the path ends at `to`, and no legal route from `from` to `to`
/// costs less; a cheapest route never passes back over `from`. Returns `None` when the goal is not walkable, the start is
/// not standable, or no legal route exists.
///
/// A* over a dense cost table: the open list yields the entry with the
/// lowest estimated total (then lowest cost); stale entries (a better route
/// was found since) are skipped; neighbours are relaxed in `dir` order.
pub fn find_path(map: &ShipMap, from: TilePos, to: TilePos, blocked: &[TilePos]) -> (r: Option<Vec<TilePos>>)
    requires
        map.wf(),
    ensures
        from == to ==> (r matches Some(p) && p@.len() == 0),
        r matches Some(p) ==> legal_path(map, blocked@, from, p@) && (from != to ==> p@.len() > 0
            && p@.last() == to),
        r matches Some(p) && from != to ==> map.spec_standable(from),
        r matches Some(p) ==> cost_bound(map, blocked@, from, to, spec_path_cost(Some(from), p@)),
        r is None ==> from != to && (!map.spec_walkable(to) || !map.spec_standable(from) || forall|
            q: Seq<TilePos>,
        |
            #![trigger legal_path(map, blocked@, from, q)]
            legal_path(map, blocked@, from, q) && q.len() > 0 ==> q.last() != to),
        r matches Some(p) ==> forall|k: int| 0 <= k < p@.len() ==> p@[k] != from,
{
    let r = astar(map, from, to, blocked);
    proof {
        if r is Some && from != to {
            lemma_cheapest_avoids_start(map, blocked@, from, to, r->0@);
        }
    }
    r
}

/// The search behind `find_path`.
fn astar(map: &ShipMap, from: TilePos, to: TilePos, blocked: &[TilePos]) -> (r: Option<Vec<TilePos>>)
    requires
        map.wf(),
    ensures
        from == to ==> (r matches Some(p) && p@.len() == 0),
        r matches Some(p) ==> legal_path(map, blocked@, from, p@) && (from != to ==> p@.len() > 0
            && p@.last() == to),
        r matches Some(p) && from != to ==> map.spec_standable(from),
        r matches Some(p) ==> cost_bound(map, blocked@, from, to, spec_path_cost(Some(from), p@)),
        r is None ==> from != to && (!map.spec_walkable(to) || !map.spec_standable(from) || forall|
            q: Seq<TilePos>,
        |
            #![trigger legal_path(map, blocked@, from, q)]
            legal_path(map, blocked@, from, q) && q.len() > 0 ==> q.last() != to),
{
    if from == to {
        let none: Vec<TilePos> = Vec::new();
        proof {
            assert forall|q: Seq<TilePos>|
                #![trigger legal_path(map, blocked@, from, q)]
                legal_path(map, blocked@, from, q) && q.len() > 0 && q.last() == to implies spec_path_cost(
                Some(from),
                none@,
            ) <= spec_path_cost(Some(from), q) by {
                lemma_path_cost_nonneg(Some(from), q);
            }
        }
        return Some(none);
    }
    // The goal must be enterable (a locked door is a wall); the start only
    // standable — a crew member caught inside a door tile when it locks must
    // still be able to path *out* of it.
    if !map.is_walkable(to) || !map.is_standable(from) {
        return None;
    }
    proof {
        map.lemma_wf_dims();
    }
    let ghost bl = blocked@;
    let w = map.width;
    let n: usize = (map.width * map.height) as usize;
    let ghost wi = w as int;
    let ghost hi = map.height as int;
    proof {
        lemma_cell_index_bounds(wi, hi, from.x as int, from.y as int);
        lemma_cell_index_bounds(wi, hi, to.x as int, to.y as int);
        assert(hi <= i32::MAX) by (nonlinear_arith)
            requires
                0 < wi,
                wi * hi <= i32::MAX,
        ;
    }
    let from_i: usize = (from.y * w + from.x) as usize;
    let to_i: usize = (to.y * w + to.x) as usize;
    let mut best: Vec<u64> = vec![u64::MAX; n];
    let mut came: Vec<usize> = vec![usize::MAX; n];
    let mut open: Vec<OpenNode> = Vec::new();
    proof {
        assert(count_reached(best@) == 0) by {
            lemma_count_reached_le(best@);
            assert forall|m: int| 0 <= m <= best@.len() implies count_reached(#[trigger] best@.subrange(0, m)) == 0 by {
                lemma_count_zero_prefix(best@, m);
            }
            assert(best@.subrange(0, best@.len() as int) =~= best@);
        }
        lemma_count_reached_update(best@, from_i as int, 0);
    }
    best.set(from_i, 0);
    open.push(OpenNode { cost: 0, est_total: octile_u64(from, to), pos: from });
    proof {
        lemma_pos_of_index(wi, hi, from);
        lemma_pos_of_index(wi, hi, to);
        assert(open@[0].pos == pos_of(wi, from_i as int));
        assert(has_entry(open@, wi, from_i as int, 0));
        lemma_sum_costs_nonneg(best@);
        assert forall|i: int| 0 <= i < n && best@[i] < u64::MAX implies #[trigger] best@[i] <= 14 * (count_reached(best@) - 1) by {
            if i != from_i {
                assert(best@[i] == u64::MAX);
            }
        }
    }
    let ghost mut closed: Seq<bool> = Seq::new(n as nat, |i: int| false);
    proof {
        assert forall|i: int| 0 <= i < n && i != from_i implies best@[i] == u64::MAX by {
        }
        assert(open@[0].est_total == open@[0].cost + spec_octile(open@[0].pos, to));
        assert forall|i: int| 0 <= i < best@.len() && best@[i] < u64::MAX implies has_entry(open@, wi, i, best@[i])
            || #[trigger] closed[i] by {
            assert(i == from_i);
        }
    }
    while open.len() > 0
        invariant
            closed.len() == n,
            opt_inv(map, bl, from, to, best@, came@, open@, closed, from_i as int, to_i as int, -1),
            map.wf(),
            bl == blocked@,
            w == map.width,
            wi == w,
            hi == map.height,
            0 < wi,
            hi <= i32::MAX,
            n == wi * hi,
            best@.len() == n,
            came@.len() == n,
            from_i == cell_index(wi, from.x as int, from.y as int),
            to_i == cell_index(wi, to.x as int, to.y as int),
            from_i < n,
            to_i < n,
            from_i != to_i,
            map.spec_in_bounds(from),
            map.spec_in_bounds(to),
            pos_of(wi, from_i as int) == from,
            pos_of(wi, to_i as int) == to,
            map.spec_standable(from),
            best@[from_i as int] == 0,
            search_inv(map, bl, best@, came@, open@, from_i as int, to_i as int, -1),
        decreases 9 * sum_costs(best@) + open@.len(),
    {
        // Pop the most promising entry: lowest estimated total, then lowest
        // cost.
        let mut bi: usize = 0;
        let mut k: usize = 1;
        while k < open.len()
            invariant
                0 < open@.len(),
                0 <= bi < open@.len(),
                1 <= k <= open@.len(),
                forall|j: int| 0 <= j < k ==> open@[bi as int].est_total <= #[trigger] open@[j].est_total,
            decreases open@.len() - k,
        {
            let a = open[k];
            let b = open[bi];
            if a.est_total < b.est_total || (a.est_total == b.est_total && a.cost < b.cost) {
                bi = k;
            }
            k = k + 1;
        }
        let ghost measure0 = 9 * sum_costs(best@) + open@.len();
        let ghost open_before = open@;
        let node = open.remove(bi);
        let cost = node.cost;
        let pos = node.pos;
        proof {
            lemma_cell_index_bounds(wi, hi, pos.x as int, pos.y as int);
        }
        let pos_i: usize = (pos.y * w + pos.x) as usize;
        proof {
            lemma_pos_of_index(wi, hi, pos);
            // Entries other than the popped one survive the removal.
            assert forall|i: int|
                0 <= i < n && best@[i] < u64::MAX && has_entry(open_before, wi, i, best@[i]) && !(i
                    == pos_i && best@[i] == cost) implies has_entry(open@, wi, i, best@[i]) by {
                let j = choose|j: int|
                    0 <= j < open_before.len() && #[trigger] open_before[j].pos == pos_of(wi, i)
                        && open_before[j].cost == best@[i];
                if j == bi {
                    lemma_index_of_pos(wi, hi, i);
                } else if j < bi {
                    assert(open@[j] == open_before[j]);
                } else {
                    assert(open@[j - 1] == open_before[j]);
                }
            }
            assert forall|j: int| 0 <= j < open@.len() implies map.spec_in_bounds(#[trigger] open@[j].pos) && open@[j].cost >= best@[cell_index(
                wi,
                open@[j].pos.x as int,
                open@[j].pos.y as int,
            )] && open@[j].cost < u64::MAX by {
                if j < bi {
                    assert(open@[j] == open_before[j]);
                } else {
                    assert(open@[j] == open_before[j + 1]);
                }
            }
        }
        // The popped estimate is the least of all open estimates.
        let ghost e: int = open_before[bi as int].est_total as int;
        proof {
            assert(node == open_before[bi as int]);
            assert(e == cost + spec_octile(pos, to));
            assert forall|j: int| 0 <= j < open_before.len() implies e <= #[trigger] open_before[j].est_total by {
            }
            assert forall|j: int| 0 <= j < open@.len() implies (#[trigger] open@[j]).est_total == open@[j].cost
                + spec_octile(open@[j].pos, to) by {
                if j < bi {
                    assert(open@[j] == open_before[j]);
                } else {
                    assert(open@[j] == open_before[j + 1]);
                }
            }
        }
        if pos == to {
            // The goal's recorded cost is the popped one, and no route to
            // the goal is cheaper.
            proof {
                assert(pos_i == to_i);
                assert(best@[to_i as int] <= cost);
                assert(!closed[to_i as int]);
                assert(has_entry(open_before, wi, to_i as int, best@[to_i as int]));
                let jt = choose|jt: int|
                    0 <= jt < open_before.len() && #[trigger] open_before[jt].pos == pos_of(wi, to_i as int)
                        && open_before[jt].cost == best@[to_i as int];
                assert(e <= open_before[jt].est_total);
                assert(cost == best@[to_i as int]);
                lemma_frontier(map, bl, from, to, best@, came@, open_before, closed, from_i as int, to_i as int, e, to);
            }
            // Walk the predecessor chain back to the start.
            let mut rev: Vec<TilePos> = Vec::new();
            rev.push(to);
            let mut cur: usize = to_i;
            proof {
                lemma_index_of_pos(wi, hi, to_i as int);
            }
            loop
                invariant
                    map.wf(),
                    bl == blocked@,
                    w == map.width,
                    wi == w,
                    hi == map.height,
                    0 < wi,
                    hi <= i32::MAX,
                    n == wi * hi,
                    best@.len() == n,
                    came@.len() == n,
                    from_i == cell_index(wi, from.x as int, from.y as int),
                    from_i < n,
                    pos_of(wi, from_i as int) == from,
                    routes_ok(map, bl, best@, came@, from_i as int),
                    chain_ok(map, bl, best@, came@, closed, from_i as int),
                    best@[from_i as int] == 0,
                    best@[cur as int] + seg_cost(rev@) == best@[to_i as int],
                    0 <= cur < n,
                    cur != from_i,
                    best@[cur as int] < u64::MAX,
                    rev@.len() >= 1,
                    rev@[0] == to,
                    rev@.last() == pos_of(wi, cur as int),
                    forall|j: int|
                        0 <= j < rev@.len() - 1 ==> #[trigger] legal_step(map, bl, rev@[j + 1], rev@[j]),
                ensures
                    best@[cur as int] + seg_cost(rev@) == best@[to_i as int],
                    came@[cur as int] == from_i,
                    0 <= cur < n,
                    cur != from_i,
                    best@[cur as int] < u64::MAX,
                    rev@.len() >= 1,
                    rev@[0] == to,
                    rev@.last() == pos_of(wi, cur as int),
                    forall|j: int|
                        0 <= j < rev@.len() - 1 ==> #[trigger] legal_step(map, bl, rev@[j + 1], rev@[j]),
                decreases best@[cur as int],
            {
                let prev_i = came[cur];
                if prev_i == from_i {
                    break;
                }
                proof {
                    lemma_index_of_pos(wi, hi, prev_i as int);
                }
                let px = (prev_i % (w as usize)) as i32;
                let py = (prev_i / (w as usize)) as i32;
                let prev_pos = TilePos::new(px, py);
                assert(prev_pos == pos_of(wi, prev_i as int));
                proof {
                    lemma_seg_push(rev@, prev_pos);
                }
                rev.push(prev_pos);
                cur = prev_i;
            }
            // `rev` runs goal → first step; the start precedes its last entry.
            proof {
                assert(legal_step(map, bl, pos_of(wi, from_i as int), pos_of(wi, cur as int)));
                assert(best@[cur as int] == spec_step_cost(from, rev@.last()));
            }
            let len = rev.len();
            let mut path: Vec<TilePos> = Vec::new();
            let mut j: usize = len;
            while j > 0
                invariant
                    len == rev@.len(),
                    len >= 1,
                    0 <= j <= len,
                    path@.len() == len - j,
                    forall|i: int| 0 <= i < path@.len() ==> path@[i] == rev@[len - 1 - i],
                decreases j,
            {
                j = j - 1;
                path.push(rev[j]);
            }
            proof {
                assert forall|i: int| 0 <= i < path@.len() implies #[trigger] legal_step(
                    map,
                    blocked@,
                    path_prev(from, path@, i),
                    path@[i],
                ) by {
                    if i == 0 {
                        assert(path@[0] == rev@[len - 1]);
                    } else {
                        assert(path@[i - 1] == rev@[len - 1 - (i - 1)]);
                        assert(legal_step(map, bl, rev@[(len - 1 - i) + 1], rev@[len - 1 - i]));
                    }
                }
                assert(path@.last() == rev@[0]);
                assert(path@ =~= rev_seq(rev@));
                lemma_rev_cost(from, rev@);
            }
            return Some(path);
        }
        if best[pos_i] < cost {
            // Stale entry (a better route to `pos` was already expanded).
            proof {
                assert forall|i: int|
                    0 <= i < n && best@[i] < u64::MAX && i != -1 implies has_entry(open@, wi, i, best@[i])
                        || #[trigger] expanded(map, bl, best@, i) by {
                    if has_entry(open_before, wi, i, best@[i]) && !(i == pos_i && best@[i] == cost) {
                    }
                }
                assert(pos_i != to_i);
                lemma_sum_costs_nonneg(best@);
                assert(9 * sum_costs(best@) + open@.len() < measure0);
                assert forall|i: int| 0 <= i < best@.len() && best@[i] < u64::MAX implies has_entry(
                    open@,
                    wi,
                    i,
                    best@[i],
                ) || #[trigger] closed[i] by {
                    if has_entry(open_before, wi, i, best@[i]) && !(i == pos_i && best@[i] == cost) {
                    }
                }
            }
            continue;
        }
        assert(best@[pos_i as int] == cost);
        proof {
            lemma_count_reached_bounds(best@, pos_i as int);
            // The popped tile's cost is the cheapest: close it.
            if !closed[pos_i as int] {
                lemma_frontier(map, bl, from, to, best@, came@, open_before, closed, from_i as int, to_i as int, e, pos);
            }
            assert(cost_bound(map, bl, from, pos_of(wi, pos_i as int), best@[pos_i as int] as int));
            let c0 = closed;
            closed = closed.update(pos_i as int, true);
            assert forall|i: int| 0 <= i < n && i != from_i && best@[i] < u64::MAX implies {
                let u = #[trigger] came@[i] as int;
                &&& 0 <= u < n
                &&& closed[u]
                &&& best@[u] < u64::MAX
                &&& best@[i] == best@[u] + spec_step_cost(pos_of(wi, u), pos_of(wi, i))
                &&& legal_step(map, bl, pos_of(wi, u), pos_of(wi, i))
            } by {
                assert(c0[came@[i] as int]);
            }
            assert forall|i: int| 0 <= i < best@.len() && #[trigger] closed[i] implies {
                &&& best@[i] < u64::MAX
                &&& cost_bound(map, bl, from, pos_of(wi, i), best@[i] as int)
                &&& i != pos_i ==> forall|q: TilePos|
                    #[trigger] legal_step(map, bl, pos_of(wi, i), q) ==> map.spec_in_bounds(q) && best@[cell_index(
                        wi,
                        q.x as int,
                        q.y as int,
                    )] < u64::MAX && best@[cell_index(wi, q.x as int, q.y as int)] <= best@[i] + spec_step_cost(
                        pos_of(wi, i),
                        q,
                    )
            } by {
                if i != pos_i {
                    assert(c0[i]);
                }
            }
            assert forall|i: int| 0 <= i < best@.len() && best@[i] < u64::MAX implies has_entry(
                open@,
                wi,
                i,
                best@[i],
            ) || #[trigger] closed[i] by {
                if i != pos_i {
                    assert(has_entry(open_before, wi, i, best@[i]) || c0[i]);
                }
            }
            assert(opt_inv(map, bl, from, to, best@, came@, open@, closed, from_i as int, to_i as int, pos_i as int));
        }
        let ghost best_at_pop = best@;
        let mut d: usize = 0;
        while d < 8
            invariant
                map.wf(),
                bl == blocked@,
                w == map.width,
                wi == w,
                hi == map.height,
                0 < wi,
                hi <= i32::MAX,
                n == wi * hi,
                best@.len() == n,
                came@.len() == n,
                from_i == cell_index(wi, from.x as int, from.y as int),
                to_i == cell_index(wi, to.x as int, to.y as int),
                from_i < n,
                to_i < n,
                from_i != to_i,
                pos_i < n,
                pos_i != to_i,
                pos_i == cell_index(wi, pos.x as int, pos.y as int),
                map.spec_in_bounds(pos),
                map.spec_in_bounds(to),
                pos_of(wi, pos_i as int) == pos,
                pos_of(wi, from_i as int) == from,
                pos_of(wi, to_i as int) == to,
                best@[from_i as int] == 0,
                best@[pos_i as int] == cost,
                cost <= 14 * (n - 1),
                0 <= d <= 8,
                search_inv(map, bl, best@, came@, open@, from_i as int, to_i as int, pos_i as int),
                closed.len() == n,
                closed[pos_i as int],
                map.spec_in_bounds(from),
                opt_inv(map, bl, from, to, best@, came@, open@, closed, from_i as int, to_i as int, pos_i as int),
                forall|kk: int|
                    0 <= kk < d && legal_step(map, bl, pos, #[trigger] dir_target(pos, kk))
                        ==> relaxed(map, best@, pos, dir_target(pos, kk), cost),
                9 * sum_costs(best@) + open@.len() < measure0,
            decreases 8 - d,
        {
            let (dx, dy) = dir_exec(d);
            let next = TilePos::new(pos.x + dx, pos.y + dy);
            proof {
                assert(adjacent(pos, next));
                assert(next == dir_target(pos, d as int));
            }
            if step_enterable(map, pos, next, blocked) {
                proof {
                    lemma_cell_index_bounds(wi, hi, next.x as int, next.y as int);
                    lemma_pos_of_index(wi, hi, next);
                }
                let next_i: usize = (next.y * w + next.x) as usize;
                let next_cost: u64 = cost + step_cost(pos, next) as u64;
                if next_cost < best[next_i] {
                    let ghost old_best = best@;
                    let ghost old_open = open@;
                    let ghost old_came = came@;
                    let nc = next_cost;
                    proof {
                        // A closed tile is never improved: its cost is the cheapest.
                        if closed[next_i as int] {
                            let qp = lemma_chain(map, bl, from, old_best, old_came, closed, from_i as int, pos_i as int);
                            assert(legal_step(map, bl, pos, next));
                            if pos_i != from_i {
                                assert(qp.last() == pos);
                            } else {
                                assert(pos == from);
                            }
                            lemma_extend(map, bl, from, qp, next);
                            assert(cost_bound(map, bl, from, pos_of(wi, next_i as int), old_best[next_i as int] as int));
                            assert((qp.push(next)).last() == next);
                            assert(false);
                        }
                    }
                    proof {
                        lemma_count_reached_update(old_best, next_i as int, nc);
                        lemma_count_reached_bounds(old_best, pos_i as int);
                    }
                    let est = next_cost + octile_u64(next, to);
                    proof {
                        assert(next_i != from_i);
                        lemma_relax_opt(
                            map,
                            bl,
                            from,
                            to,
                            old_best,
                            old_came,
                            old_open,
                            closed,
                            from_i as int,
                            to_i as int,
                            pos_i as int,
                            next_i as int,
                            nc,
                            est,
                            next,
                        );
                    }
                    best.set(next_i, nc);
                    came.set(next_i, pos_i);
                    open.push(OpenNode { cost: nc, est_total: est, pos: next });
                    proof {
                        assert(best@ == old_best.update(next_i as int, nc));
                        assert(came@ == old_came.update(next_i as int, pos_i));
                        lemma_sum_costs_update(old_best, next_i as int, nc);
                        assert(next_i != from_i);
                        assert(next_i != pos_i) by {
                            if next_i == pos_i {
                                lemma_cell_index_injective(wi, next.x as int, next.y as int, pos.x as int, pos.y as int);
                            }
                        }
                        assert(open@[open@.len() - 1].pos == pos_of(wi, next_i as int));
                        assert(has_entry(open@, wi, next_i as int, nc));
                        // Cost bound: the new value is at most 14 above a
                        // reached cost, and a fresh tile grows the count.
                        assert forall|i: int| 0 <= i < n && best@[i] < u64::MAX implies #[trigger] best@[i] <= 14 * (count_reached(best@) - 1) by {
                            if i != next_i {
                                assert(old_best[i] <= 14 * (count_reached(old_best) - 1));
                            } else {
                                assert(old_best[pos_i as int] <= 14 * (count_reached(old_best) - 1));
                            }
                        }
                        assert forall|j: int| 0 <= j < open@.len() implies map.spec_in_bounds(#[trigger] open@[j].pos) && open@[j].cost >= best@[cell_index(
                            wi,
                            open@[j].pos.x as int,
                            open@[j].pos.y as int,
                        )] && open@[j].cost < u64::MAX by {
                            if j < old_open.len() {
                                assert(open@[j] == old_open[j]);
                                let pj = open@[j].pos;
                                lemma_cell_index_bounds(wi, hi, pj.x as int, pj.y as int);
                            }
                        }
                        assert forall|i: int|
                            0 <= i < n && best@[i] < u64::MAX && i != pos_i implies has_entry(open@, wi, i, best@[i])
                                || #[trigger] expanded(map, bl, best@, i) by {
                            if i != next_i {
                                assert(old_best[i] < u64::MAX);
                                if has_entry(old_open, wi, i, best@[i]) {
                                    let j = choose|j: int|
                                        0 <= j < old_open.len() && #[trigger] old_open[j].pos == pos_of(wi, i)
                                            && old_open[j].cost == best@[i];
                                    assert(open@[j] == old_open[j]);
                                } else {
                                    assert(expanded(map, bl, old_best, i));
                                    assert forall|q: TilePos| #[trigger] legal_step(map, bl, pos_of(wi, i), q) implies map.spec_in_bounds(q) && best@[cell_index(wi, q.x as int, q.y as int)] < u64::MAX by {
                                        let qi = cell_index(wi, q.x as int, q.y as int);
                                        assert(map.spec_in_bounds(q) && old_best[qi] < u64::MAX);
                                        lemma_cell_index_bounds(wi, hi, q.x as int, q.y as int);
                                        if qi != next_i {
                                            assert(best@[qi] == old_best[qi]);
                                        }
                                    }
                                }
                            }
                        }
                        assert forall|i: int|
                            0 <= i < n && i != from_i && best@[i] < u64::MAX implies {
                                let u = #[trigger] came@[i] as int;
                                &&& 0 <= u < n
                                &&& best@[u] < best@[i]
                                &&& legal_step(map, bl, pos_of(wi, u), pos_of(wi, i))
                            } by {
                            if i == next_i {
                            } else {
                                assert(old_best[i] < u64::MAX);
                                assert(came@[i] == old_came[i]);
                                let u = old_came[i] as int;
                                if u == next_i {
                                    assert(best@[u] < old_best[u]);
                                }
                            }
                        }
                        if best@[to_i as int] < u64::MAX {
                            if to_i != next_i {
                                let j = choose|j: int|
                                    0 <= j < old_open.len() && #[trigger] old_open[j].pos == pos_of(wi, to_i as int)
                                        && old_open[j].cost == best@[to_i as int];
                                assert(open@[j] == old_open[j]);
                            }
                        }
                        assert forall|kk: int|
                            0 <= kk < d && legal_step(map, bl, pos, #[trigger] dir_target(pos, kk))
                                implies relaxed(map, best@, pos, dir_target(pos, kk), cost) by {
                            let q = dir_target(pos, kk);
                            assert(relaxed(map, old_best, pos, q, cost));
                            let qi = cell_index(wi, q.x as int, q.y as int);
                            lemma_cell_index_bounds(wi, hi, q.x as int, q.y as int);
                            if qi != next_i {
                                assert(best@[qi] == old_best[qi]);
                            }
                        }
                    }
                }
                proof {
                    assert(best@[next_i as int] <= cost + spec_step_cost(pos, next));
                    assert(relaxed(map, best@, pos, next, cost));
                }
            }
            d = d + 1;
        }
        proof {
            // `pos` is now expanded: each legal neighbour is one of the 8 dirs.
            assert forall|q: TilePos| #[trigger] legal_step(map, bl, pos_of(wi, pos_i as int), q) implies map.spec_in_bounds(q) && best@[cell_index(wi, q.x as int, q.y as int)] < u64::MAX
                && best@[cell_index(wi, q.x as int, q.y as int)] <= best@[pos_i as int] + spec_step_cost(pos_of(wi, pos_i as int), q) by {
                lemma_adjacent_has_dir(pos, q);
                let kk = choose|kk: int| 0 <= kk < 8 && q.x == pos.x + dir(kk).0 && q.y == pos.y + dir(kk).1;
                assert(q == dir_target(pos, kk));
                assert(relaxed(map, best@, pos, q, cost));
                lemma_count_reached_le(best@);
            }
            assert(expanded(map, bl, best@, pos_i as int));
            lemma_sum_costs_nonneg(best@);
            lemma_close_opt(map, bl, from, to, best@, came@, open@, closed, from_i as int, to_i as int, pos_i as int);
        }
    }
    // Exhausted: the reached set is closed under legal steps and the goal is
    // not in it.
    proof {
        assert(best@[to_i as int] == u64::MAX);
        assert forall|i: int| 0 <= i < best@.len() && best@[i] < u64::MAX implies #[trigger] expanded(map, bl, best@, i) by {
        }
        assert forall|q: Seq<TilePos>|
            #![trigger legal_path(map, blocked@, from, q)]
            legal_path(map, blocked@, from, q) && q.len() > 0 implies q.last() != to by {
            lemma_closed_set_contains_path(map, bl, best@, from, q);
            let k = q.len() - 1;
            assert(map.spec_in_bounds(q[k]));
        }
    }
    None
}

proof fn lemma_count_zero_prefix(s: Seq<u64>, m: int)
    requires
        0 <= m <= s.len(),
        forall|i: int| 0 <= i < s.len() ==> s[i] == u64::MAX,
    ensures
        count_reached(s.subrange(0, m)) == 0,
    decreases m,
{
    if m > 0 {
        lemma_count_zero_prefix(s, m - 1);
        assert(s.subrange(0, m).drop_last() =~= s.subrange(0, m - 1));
    }
}

} // verus!
