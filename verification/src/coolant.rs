//! Coolant loop topology: a dense underfloor pipe layer, and its split into
//! networks. The water carried in the pipes (amounts and temperatures) is
//! simulated outside this crate.

use crate::building::{fp_ok, fp_tiles, Footprint};
use crate::graph::{edge, first_of_label, has_first, is_walk, label_components, labels_components, linked, NO_LABEL};
use crate::grid::{cells_adjacent, grid_adj, grid_graph, lemma_cell_coords, lemma_grid_adj};
use crate::map::{cell_index, in_grid, lemma_cell_index_bounds, lemma_cell_index_injective, TilePos};
use vstd::prelude::*;

verus! {

/// Power drawn by a running pump.
pub const PUMP_DEMAND: u32 = 6;

/// Dense underfloor pipe layer. `true` = pipe present on that tile.
/// Mutating it bumps `version` so the overlay knows when to redraw.
pub struct PipeGrid {
    pub width: i32,
    pub height: i32,
    pub cells: Vec<bool>,
    pub version: u64,
}

impl PipeGrid {
    pub open spec fn wf(&self) -> bool {
        &&& 0 <= self.width
        &&& 0 <= self.height
        &&& self.width * self.height <= i32::MAX
        &&& self.cells@.len() == self.width * self.height
    }

    pub open spec fn spec_in_bounds(&self, p: TilePos) -> bool {
        in_grid(self.width as int, self.height as int, p.x as int, p.y as int)
    }

    /// A pipe lies on `p`.
    pub open spec fn spec_has(&self, p: TilePos) -> bool {
        self.spec_in_bounds(p) && self.cells@[cell_index(self.width as int, p.x as int, p.y as int)]
    }

    pub fn new(width: i32, height: i32) -> (r: Self)
        requires
            0 <= width,
            0 <= height,
            width * height <= i32::MAX,
        ensures
            r.wf(),
            r.width == width,
            r.height == height,
            r.version == 0,
            forall|p: TilePos| !(#[trigger] r.spec_has(p)),
    {
        let n = (width * height) as usize;
        let r = PipeGrid { width, height, cells: vec![false; n], version: 0 };
        assert forall|p: TilePos| !(#[trigger] r.spec_has(p)) by {
            if r.spec_in_bounds(p) {
                lemma_cell_index_bounds(width as int, height as int, p.x as int, p.y as int);
            }
        }
        r
    }

    pub fn in_bounds(&self, p: TilePos) -> (r: bool)
        ensures
            r == self.spec_in_bounds(p),
    {
        p.x >= 0 && p.y >= 0 && p.x < self.width && p.y < self.height
    }

    pub fn has(&self, p: TilePos) -> (r: bool)
        requires
            self.wf(),
        ensures
            r == self.spec_has(p),
    {
        if !self.in_bounds(p) {
            return false;
        }
        proof {
            lemma_cell_index_bounds(self.width as int, self.height as int, p.x as int, p.y as int);
        }
        self.cells[(p.y * self.width + p.x) as usize]
    }

    /// Place or remove a pipe tile. Returns true when the grid changed; out
    /// of bounds and no-op writes change nothing.
    pub fn set(&mut self, p: TilePos, present: bool) -> (r: bool)
        requires
            old(self).wf(),
            old(self).version < u64::MAX,
        ensures
            final(self).wf(),
            final(self).width == old(self).width,
            final(self).height == old(self).height,
            r == (old(self).spec_in_bounds(p) && old(self).spec_has(p) != present),
            final(self).version == old(self).version + (if r { 1int } else { 0int }),
            final(self).spec_in_bounds(p) ==> final(self).spec_has(p) == present,
            forall|q: TilePos| q != p ==> #[trigger] final(self).spec_has(q) == old(self).spec_has(q),
    {
        if !self.in_bounds(p) {
            return false;
        }
        proof {
            lemma_cell_index_bounds(self.width as int, self.height as int, p.x as int, p.y as int);
        }
        let i = (p.y * self.width + p.x) as usize;
        if self.cells[i] == present {
            return false;
        }
        self.cells.set(i, present);
        self.version = self.version + 1;
        proof {
            assert forall|q: TilePos| q != p implies #[trigger] self.spec_has(q) == old(self).spec_has(q) by {
                if self.spec_in_bounds(q) {
                    lemma_cell_index_bounds(self.width as int, self.height as int, q.x as int, q.y as int);
                    if cell_index(self.width as int, q.x as int, q.y as int) == i {
                        lemma_cell_index_injective(self.width as int, q.x as int, q.y as int, p.x as int, p.y as int);
                    }
                }
            }
        }
        true
    }

    /// Every pipe tile, in row-major order.
    pub fn iter_pipes(&self) -> (r: Vec<TilePos>)
        requires
            self.wf(),
        ensures
            forall|p: TilePos| r@.contains(p) <==> #[trigger] self.spec_has(p),
            forall|i: int, j: int|
                0 <= i < j < r@.len() ==> cell_index(self.width as int, r@[i].x as int, r@[i].y as int)
                    < cell_index(self.width as int, r@[j].x as int, r@[j].y as int),
    {
        let mut out: Vec<TilePos> = Vec::new();
        let ghost w = self.width as int;
        let n: usize = (self.width * self.height) as usize;
        let mut idx: usize = 0;
        while idx < n
            invariant
                self.wf(),
                w == self.width,
                n == self.width * self.height,
                0 <= idx <= n,
                forall|p: TilePos|
                    #![trigger out@.contains(p)]
                    #![trigger self.spec_has(p)]
                    out@.contains(p) <==> (self.spec_has(p) && cell_index(w, p.x as int, p.y as int) < idx),
                forall|i: int, j: int|
                    0 <= i < j < out@.len() ==> cell_index(w, out@[i].x as int, out@[i].y as int) < cell_index(
                        w,
                        out@[j].x as int,
                        out@[j].y as int,
                    ),
                forall|i: int|
                    0 <= i < out@.len() ==> self.spec_has(#[trigger] out@[i]) && cell_index(
                        w,
                        out@[i].x as int,
                        out@[i].y as int,
                    ) < idx,
            decreases n - idx,
        {
            let wu = self.width as usize;
            assert(wu > 0) by (nonlinear_arith)
                requires
                    idx < n,
                    n == w * self.height,
                    wu == w,
                    0 <= self.height,
            ;
            let x = idx % wu;
            let y = idx / wu;
            proof {
                assert(y * w + x == idx && 0 <= x < w && 0 <= y < self.height) by (nonlinear_arith)
                    requires
                        x == idx % wu,
                        y == idx / wu,
                        wu == w,
                        w > 0,
                        idx < n,
                        n == w * self.height,
                ;
            }
            let p = TilePos::new(x as i32, y as i32);
            let ghost before = out@;
            let present = self.has(p);
            if present {
                out.push(p);
            }
            proof {
                assert(cell_index(w, p.x as int, p.y as int) == idx);
                assert forall|q: TilePos|
                    #![trigger out@.contains(q)]
                    #![trigger self.spec_has(q)]
                    out@.contains(q) <==> (self.spec_has(q) && cell_index(w, q.x as int, q.y as int) < idx + 1) by {
                    if self.spec_has(q) && cell_index(w, q.x as int, q.y as int) == idx {
                        lemma_cell_index_injective(w, q.x as int, q.y as int, p.x as int, p.y as int);
                        assert(q == p);
                    }
                    if out@.contains(q) && q != p {
                        let k = choose|k: int| 0 <= k < out@.len() && out@[k] == q;
                        assert(before[k] == q);
                    }
                    if self.spec_has(q) && cell_index(w, q.x as int, q.y as int) < idx {
                        assert(before.contains(q));
                        let k = choose|k: int| 0 <= k < before.len() && before[k] == q;
                        assert(out@[k] == q);
                    }
                    if q == p && present {
                        assert(out@[out@.len() - 1] == q);
                    }
                }
                assert forall|i: int, j: int|
                    0 <= i < j < out@.len() implies cell_index(w, out@[i].x as int, out@[i].y as int) < cell_index(
                        w,
                        out@[j].x as int,
                        out@[j].y as int,
                    ) by {
                    assert(out@[i] == before[i]);
                    assert(self.spec_has(before[i]));
                    if j < before.len() {
                        assert(out@[j] == before[j]);
                        assert(cell_index(w, before[i].x as int, before[i].y as int) < cell_index(
                            w,
                            before[j].x as int,
                            before[j].y as int,
                        ));
                    }
                }
                assert forall|i: int|
                    0 <= i < out@.len() implies self.spec_has(#[trigger] out@[i]) && cell_index(
                        w,
                        out@[i].x as int,
                        out@[i].y as int,
                    ) < idx + 1 by {
                    if i < before.len() {
                        assert(out@[i] == before[i]);
                        assert(self.spec_has(before[i]));
                    }
                }
            }
            idx = idx + 1;
        }
        proof {
            assert forall|p: TilePos| out@.contains(p) <==> #[trigger] self.spec_has(p) by {
                if self.spec_has(p) {
                    lemma_cell_index_bounds(w, self.height as int, p.x as int, p.y as int);
                }
            }
        }
        out
    }
}

impl PipeGrid {
    /// Row-major cell index of an in-bounds tile.
    pub fn idx(&self, p: TilePos) -> (r: usize)
        requires
            self.wf(),
            self.spec_in_bounds(p),
        ensures
            r == cell_index(self.width as int, p.x as int, p.y as int),
            r < self.cells@.len(),
    {
        proof {
            lemma_cell_index_bounds(self.width as int, self.height as int, p.x as int, p.y as int);
        }
        (p.y * self.width + p.x) as usize
    }
}


// =====================================================================================
// Networks
// =====================================================================================

/// The pipe layer's adjacency: pipe cells joined to their orthogonal pipe
/// neighbours.
pub open spec fn pipe_adj(p: &PipeGrid) -> Seq<Seq<usize>> {
    grid_adj(p.width as int, p.height as int, p.cells@)
}

/// Flood-filled pipe networks.
pub struct PipeNetworks {
    /// Each network's cells in walk order: depth-first from the network's
    /// smallest cell, lower-numbered neighbours first. Water circulates
    /// along this order.
    pub order: Vec<Vec<usize>>,
    /// Network of every grid cell (`NO_LABEL` where there is no pipe).
    pub net_of: Vec<usize>,
}

/// The pipe cells of networks numbered below `k`.
pub open spec fn marked_before(cells: Seq<bool>, net_of: Seq<usize>, k: int) -> Seq<bool> {
    Seq::new(cells.len(), |u: int| cells[u] && net_of[u] < k)
}

/// `r` splits the pipe layer into its connected networks, numbered by
/// their smallest cell, each walk listing its network's cells once,
/// starting at that smallest cell, in the depth-first order of
/// `is_walk_from` (networks walked earlier already marked).
pub open spec fn networks_ok(p: &PipeGrid, r: &PipeNetworks) -> bool {
    &&& labels_components(p.cells@, pipe_adj(p), r.net_of@, r.order@.len())
    &&& forall|k: int|
        0 <= k < r.order@.len() ==> {
            &&& (#[trigger] r.order@[k])@.no_duplicates()
            &&& r.order@[k]@.len() > 0
            &&& first_of_label(p.cells@, r.net_of@, k, r.order@[k]@[0] as int)
            &&& forall|u: usize| #[trigger] r.order@[k]@.contains(u) <==> (u < r.net_of@.len() && r.net_of@[u as int] == k)
            &&& is_walk_from(
                p.width as int,
                p.height as int,
                p.cells@,
                marked_before(p.cells@, r.net_of@, k),
                r.order@[k]@[0] as int,
                r.order@[k]@,
            )
        }
}

/// Number of unset entries.
spec fn count_unset(s: Seq<bool>) -> nat
    decreases s.len(),
{
    if s.len() == 0 {
        0
    } else {
        count_unset(s.drop_last()) + if s.last() {
            0nat
        } else {
            1nat
        }
    }
}

proof fn lemma_count_unset_update(s: Seq<bool>, i: int)
    requires
        0 <= i < s.len(),
        !s[i],
    ensures
        count_unset(s.update(i, true)) + 1 == count_unset(s),
    decreases s.len(),
{
    if i == s.len() - 1 {
        assert(s.update(i, true).drop_last() =~= s.drop_last());
    } else {
        lemma_count_unset_update(s.drop_last(), i);
        assert(s.update(i, true).drop_last() =~= s.drop_last().update(i, true));
    }
}

/// Orthogonal neighbours of a grid cell are the cell one step east, west,
/// south or north of it.
proof fn lemma_adjacent_cells(w: int, h: int, a: int, v: int)
    requires
        0 < w,
        0 <= a < w * h,
        0 <= v < w * h,
        cells_adjacent(w, a, v),
    ensures
        (a % w + 1 < w && v == a + 1) || (a % w > 0 && v == a - 1) || (a / w + 1 < h && v == a + w) || (a / w > 0
            && v == a - w),
{
    lemma_cell_coords(w, h, a);
    lemma_cell_coords(w, h, v);
    let (ux, uy, vx, vy) = (a % w, a / w, v % w, v / w);
    if ux == vx && vy == uy + 1 {
        assert(v == a + w) by (nonlinear_arith)
            requires
                v == vy * w + vx,
                a == uy * w + ux,
                vx == ux,
                vy == uy + 1,
        ;
    } else if ux == vx && uy == vy + 1 {
        assert(v == a - w) by (nonlinear_arith)
            requires
                v == vy * w + vx,
                a == uy * w + ux,
                vx == ux,
                uy == vy + 1,
        ;
    }
}

/// A set closed under edges that holds a walk's first node holds its last.
proof fn lemma_closed_walk(adj: Seq<Seq<usize>>, set: Seq<usize>, s: Seq<usize>)
    requires
        is_walk(adj, s),
        set.contains(s[0]),
        forall|k: int, v: int| 0 <= k < set.len() && #[trigger] edge(adj, set[k] as int, v) ==> set.contains(v as usize),
    ensures
        set.contains(s.last()),
    decreases s.len(),
{
    if s.len() > 1 {
        let t = s.drop_last();
        assert(is_walk(adj, t)) by {
            assert forall|i: int| 0 <= i < t.len() - 1 implies #[trigger] edge(adj, t[i] as int, t[i + 1] as int) by {
                assert(edge(adj, s[i] as int, s[i + 1] as int));
            }
        }
        lemma_closed_walk(adj, set, t);
        let j = s.len() - 2;
        assert(edge(adj, s[j] as int, s[j + 1] as int));
        let k = choose|k: int| 0 <= k < set.len() && set[k] == t.last();
        assert(set[k] == s[j]);
    }
}

/// Search state: marked cells, the stack of cells still to visit, and the
/// cells visited so far in order.
pub type WalkState = (Seq<bool>, Seq<usize>, Seq<usize>);

/// Mark `c` and push it, when it holds a pipe and is not yet marked.
pub open spec fn push_if(cells: Seq<bool>, vs: (Seq<bool>, Seq<usize>), c: int) -> (Seq<bool>, Seq<usize>) {
    if cells[c] && !vs.0[c] {
        (vs.0.update(c, true), vs.1.push(c as usize))
    } else {
        vs
    }
}

/// One step of the walk on a `w`-wide, `h`-high grid: take the top cell of
/// the stack, visit it, and push its unmarked pipe neighbours south, east,
/// west, north (so the lowest-numbered one is visited next). A finished
/// walk (empty stack) stays as it is.
pub open spec fn walk_step(w: int, h: int, cells: Seq<bool>, s: WalkState) -> WalkState {
    if s.1.len() == 0 {
        s
    } else {
        let a = s.1.last() as int;
        let (x, y) = (a % w, a / w);
        let p0 = (s.0, s.1.drop_last());
        let p1 = if y + 1 < h { push_if(cells, p0, a + w) } else { p0 };
        let p2 = if x + 1 < w { push_if(cells, p1, a + 1) } else { p1 };
        let p3 = if x > 0 { push_if(cells, p2, a - 1) } else { p2 };
        let p4 = if y > 0 { push_if(cells, p3, a - w) } else { p3 };
        (p4.0, p4.1, s.2.push(a as usize))
    }
}

/// The walk's state after `j` steps.
pub open spec fn walk_iter(w: int, h: int, cells: Seq<bool>, s: WalkState, j: nat) -> WalkState
    decreases j,
{
    if j == 0 {
        s
    } else {
        walk_step(w, h, cells, walk_iter(w, h, cells, s, (j - 1) as nat))
    }
}

/// `walk` is the depth-first walk from `t` with the cells of `marked`
/// already marked: the visit order once the stack runs empty.
pub open spec fn is_walk_from(w: int, h: int, cells: Seq<bool>, marked: Seq<bool>, t: int, walk: Seq<usize>) -> bool {
    exists|j: nat|
        {
            let s = #[trigger] walk_iter(w, h, cells, (marked.update(t, true), seq![t as usize], Seq::empty()), j);
            s.1.len() == 0 && s.2 == walk
        }
}

/// Depth-first walk of the network labelled `m` from its first cell `t`.
#[verifier::rlimit(60)]
fn walk_network(
    w: i32,
    h: i32,
    cells: &Vec<bool>,
    lab: &Vec<usize>,
    count: usize,
    visited: &mut Vec<bool>,
    t: usize,
    m: usize,
) -> (walk: Vec<usize>)
    requires
        0 < w,
        0 <= h,
        w * h <= i32::MAX,
        cells@.len() == w * h,
        labels_components(cells@, grid_adj(w as int, h as int, cells@), lab@, count as nat),
        old(visited)@.len() == cells@.len(),
        forall|u: int| 0 <= u < cells@.len() ==> (old(visited)@[u] <==> (cells@[u] && lab@[u] < m)),
        t < cells@.len(),
        cells@[t as int],
        lab@[t as int] == m,
    ensures
        final(visited)@.len() == cells@.len(),
        forall|u: int| 0 <= u < cells@.len() ==> (final(visited)@[u] <==> (cells@[u] && lab@[u] <= m)),
        walk@.no_duplicates(),
        walk@.len() > 0,
        walk@[0] == t,
        forall|u: usize| walk@.contains(u) <==> (u < cells@.len() && lab@[u as int] == m),
        is_walk_from(w as int, h as int, cells@, old(visited)@, t as int, walk@),
{
    let ghost gadj = grid_adj(w as int, h as int, cells@);
    let ghost init: WalkState = (old(visited)@.update(t as int, true), seq![t], Seq::empty());
    let ghost mut steps: nat = 0;
    let ghost n = cells@.len() as int;
    proof {
        lemma_grid_adj(w as int, h as int, cells@);
        assert(m < count);
    }
    let wu = w as usize;
    let hu = h as usize;
    visited.set(t, true);
    let mut stack: Vec<usize> = Vec::new();
    stack.push(t);
    let mut walk: Vec<usize> = Vec::new();
    proof {
        assert((visited@, stack@, walk@) =~= init);
        assert((walk@ + stack@) =~= seq![t]);
        assert(stack@[0] == t);
        assert forall|u: int| 0 <= u < n implies (visited@[u] <==> ((cells@[u] && lab@[u] < m) || walk@.contains(
            u as usize,
        ) || stack@.contains(u as usize))) by {
            if u != t {
                if stack@.contains(u as usize) {
                    let k = choose|k: int| 0 <= k < stack@.len() && stack@[k] == u as usize;
                }
            }
        }
    }
    while stack.len() > 0
        invariant
            0 < w,
            0 <= h,
            w * h <= i32::MAX,
            wu == w,
            hu == h,
            n == cells@.len(),
            n == w * h,
            gadj == grid_adj(w as int, h as int, cells@),
            forall|u: int, v: int|
                #[trigger] edge(gadj, u, v) <==> (0 <= u < n && 0 <= v < n && cells@[u] && cells@[v]
                    && cells_adjacent(w as int, u, v)),
            labels_components(cells@, gadj, lab@, count as nat),
            m < count,
            t < n,
            visited@.len() == n,
            forall|u: int|
                0 <= u < n ==> (visited@[u] <==> ((cells@[u] && lab@[u] < m) || walk@.contains(u as usize)
                    || stack@.contains(u as usize))),
            forall|k: int| 0 <= k < walk@.len() ==> (#[trigger] walk@[k]) < n && lab@[walk@[k] as int] == m,
            forall|k: int| 0 <= k < stack@.len() ==> (#[trigger] stack@[k]) < n && lab@[stack@[k] as int] == m,
            (walk@ + stack@).no_duplicates(),
            walk@.len() == 0 ==> stack@ == seq![t],
            walk@.len() > 0 ==> walk@[0] == t,
            forall|k: int, v: int|
                0 <= k < walk@.len() && #[trigger] edge(gadj, walk@[k] as int, v) ==> visited@[v],
            walk_iter(w as int, h as int, cells@, init, steps) == (visited@, stack@, walk@),
        decreases 2 * count_unset(visited@) + stack@.len(),
    {
        let ghost prev: WalkState = (visited@, stack@, walk@);
        let ghost before_ws = walk@ + stack@;
        let ghost old_walk = walk@;
        let ghost old_stack = stack@;
        let a = match stack.pop() {
            Some(a) => a,
            None => {
                return walk;
            },
        };
        proof {
            assert(stack@.push(a) =~= old_stack);
            assert(before_ws =~= walk@ + stack@.push(a));
        }
        walk.push(a);
        proof {
            assert(walk@ =~= old_walk.push(a));
            assert(walk@[walk@.len() - 1] == a);
            assert(walk@.contains(a));
            assert(old_stack[old_stack.len() - 1] == a);
            assert forall|u: int| 0 <= u < n implies (visited@[u] <==> ((cells@[u] && lab@[u] < m) || walk@.contains(
                u as usize,
            ) || stack@.contains(u as usize))) by {
                if old_walk.contains(u as usize) {
                    let k = choose|k: int| 0 <= k < old_walk.len() && old_walk[k] == u as usize;
                    assert(walk@[k] == u as usize);
                }
                if old_stack.contains(u as usize) && u != a {
                    let k = choose|k: int| 0 <= k < old_stack.len() && old_stack[k] == u as usize;
                    assert(stack@[k] == u as usize);
                }
                if walk@.contains(u as usize) && u != a {
                    let k = choose|k: int| 0 <= k < walk@.len() && walk@[k] == u as usize;
                    assert(old_walk[k] == u as usize);
                }
                if stack@.contains(u as usize) {
                    let k = choose|k: int| 0 <= k < stack@.len() && stack@[k] == u as usize;
                    assert(old_stack[k] == u as usize);
                }
            }
            assert forall|k: int| 0 <= k < stack@.len() implies (#[trigger] stack@[k]) < n && lab@[stack@[k] as int] == m by {
                assert(stack@[k] == old_stack[k]);
            }
            assert forall|k: int| 0 <= k < walk@.len() implies (#[trigger] walk@[k]) < n && lab@[walk@[k] as int] == m by {
                if k < old_walk.len() {
                    assert(walk@[k] == old_walk[k]);
                }
            }
            assert((walk@ + stack@).no_duplicates()) by {
                assert forall|i: int, j: int|
                    0 <= i < j < (walk@ + stack@).len() implies (walk@ + stack@)[i] != (walk@ + stack@)[j] by {
                    let ws = walk@ + stack@;
                    let last = walk@.len() - 1;
                    let map_idx = |i: int| if i < last { i } else if i == last { before_ws.len() - 1 } else { i - 1 };
                    assert(ws[i] == before_ws[map_idx(i)]);
                    assert(ws[j] == before_ws[map_idx(j)]);
                }
            }
            lemma_cell_coords(w as int, h as int, a as int);
        }
        let x = a % wu;
        let y = a / wu;
        let ghost walk_now = walk@;
        let ghost vis_after_pop = visited@;
        let ghost stack_after_pop = stack@;
        // Neighbours in descending index order, so the smallest pops first.
        if y + 1 < hu {
            let c = a + wu;
            push_unvisited(cells, lab, visited, &mut stack, &walk, c, Ghost(gadj), Ghost(m), Ghost(count), Ghost(a));
        }
        let ghost p1 = (visited@, stack@);
        if x + 1 < wu {
            let c = a + 1;
            push_unvisited(cells, lab, visited, &mut stack, &walk, c, Ghost(gadj), Ghost(m), Ghost(count), Ghost(a));
        }
        let ghost p2 = (visited@, stack@);
        if x > 0 {
            let c = a - 1;
            push_unvisited(cells, lab, visited, &mut stack, &walk, c, Ghost(gadj), Ghost(m), Ghost(count), Ghost(a));
        }
        let ghost p3 = (visited@, stack@);
        if y > 0 {
            let c = a - wu;
            push_unvisited(cells, lab, visited, &mut stack, &walk, c, Ghost(gadj), Ghost(m), Ghost(count), Ghost(a));
        }
        proof {
            let ai = a as int;
            let wi = w as int;
            let hi = h as int;
            assert(p1 == if ai / wi + 1 < hi { push_if(cells@, (vis_after_pop, stack_after_pop), ai + wi) } else { (vis_after_pop, stack_after_pop) });
            assert(p2 == if ai % wi + 1 < wi { push_if(cells@, p1, ai + 1) } else { p1 });
            assert(p3 == if ai % wi > 0 { push_if(cells@, p2, ai - 1) } else { p2 });
            assert((visited@, stack@) == if ai / wi > 0 { push_if(cells@, p3, ai - wi) } else { p3 });
            assert(prev.1.last() == a);
            assert(prev.1.drop_last() == stack_after_pop);
            assert(prev.0 == vis_after_pop);
            assert(walk_iter(w as int, h as int, cells@, init, steps + 1) == walk_step(w as int, h as int, cells@, prev));
            steps = steps + 1;
            assert((visited@, stack@, walk@) =~= walk_step(w as int, h as int, cells@, prev));
            assert forall|k: int, v: int| 0 <= k < walk@.len() && #[trigger] edge(gadj, walk@[k] as int, v) implies visited@[v] by {
                if k == walk@.len() - 1 {
                    assert(walk@[k] == a);
                    lemma_adjacent_cells(w as int, h as int, a as int, v);
                }
            }
        }
    }
    proof {
        assert(walk_iter(w as int, h as int, cells@, init, steps).1.len() == 0);
        assert(is_walk_from(w as int, h as int, cells@, old(visited)@, t as int, walk@));
        assert(walk@ + stack@ =~= walk@);
        assert forall|k: int, v: int|
            0 <= k < walk@.len() && #[trigger] edge(gadj, walk@[k] as int, v) implies walk@.contains(v as usize) by {
            assert(lab@[walk@[k] as int] == lab@[v]);
        }
        assert forall|u: usize| walk@.contains(u) <==> (u < n && lab@[u as int] == m) by {
            if u < n && lab@[u as int] == m {
                assert(cells@[u as int]);
                assert(walk@[0] == t);
                assert(linked(gadj, t as int, u as int));
                let s = choose|s: Seq<usize>| #[trigger] is_walk(gadj, s) && s[0] == t as int && s.last() == u as int;
                assert(walk@.contains(t));
                lemma_closed_walk(gadj, walk@, s);
            }
            if walk@.contains(u) {
                let k = choose|k: int| 0 <= k < walk@.len() && walk@[k] == u;
            }
        }
    }
    walk
}

/// Mark `c` and push it on the stack unless it holds no pipe or is already
/// marked.
#[verifier::spinoff_prover]
fn push_unvisited(
    cells: &Vec<bool>,
    lab: &Vec<usize>,
    visited: &mut Vec<bool>,
    stack: &mut Vec<usize>,
    walk: &Vec<usize>,
    c: usize,
    Ghost(gadj): Ghost<Seq<Seq<usize>>>,
    Ghost(m): Ghost<usize>,
    Ghost(count): Ghost<usize>,
    Ghost(a): Ghost<usize>,
)
    requires
        c < cells@.len(),
        a < cells@.len(),
        cells@.len() <= i32::MAX,
        old(visited)@.len() == cells@.len(),
        labels_components(cells@, gadj, lab@, count as nat),
        cells@[a as int],
        lab@[a as int] == m,
        m < count,
        walk@.contains(a),
        cells@[c as int] ==> edge(gadj, a as int, c as int),
        forall|u: int|
            0 <= u < cells@.len() ==> (old(visited)@[u] <==> ((cells@[u] && lab@[u] < m) || walk@.contains(u as usize)
                || old(stack)@.contains(u as usize))),
        forall|k: int|
            0 <= k < old(stack)@.len() ==> (#[trigger] old(stack)@[k]) < cells@.len() && lab@[old(stack)@[k] as int] == m,
        (walk@ + old(stack)@).no_duplicates(),
    ensures
        final(visited)@.len() == cells@.len(),
        forall|u: int|
            0 <= u < cells@.len() ==> (final(visited)@[u] <==> ((cells@[u] && lab@[u] < m) || walk@.contains(u as usize)
                || final(stack)@.contains(u as usize))),
        forall|k: int|
            0 <= k < final(stack)@.len() ==> (#[trigger] final(stack)@[k]) < cells@.len() && lab@[final(stack)@[k] as int] == m,
        (walk@ + final(stack)@).no_duplicates(),
        cells@[c as int] ==> final(visited)@[c as int],
        forall|u: int| 0 <= u < cells@.len() && old(visited)@[u] ==> final(visited)@[u],
        2 * count_unset(final(visited)@) + final(stack)@.len() <= 2 * count_unset(old(visited)@) + old(stack)@.len(),
        old(stack)@.len() <= final(stack)@.len(),
        (final(visited)@, final(stack)@) == push_if(cells@, (old(visited)@, old(stack)@), c as int),
{
    let ghost st0 = stack@;
    if cells[c] && !visited[c] {
        proof {
            lemma_count_unset_update(visited@, c as int);
            assert(lab@[c as int] == lab@[a as int]);
            assert(!walk@.contains(c));
            assert(!st0.contains(c));
        }
        let ghost ws0 = walk@ + stack@;
        let ghost v0 = visited@;
        visited.set(c, true);
        stack.push(c);
        proof {
            assert(visited@ == v0.update(c as int, true));
            assert(walk@ + stack@ =~= ws0.push(c));
            assert forall|u: int| 0 <= u < cells@.len() implies (visited@[u] <==> ((cells@[u] && lab@[u] < m)
                || walk@.contains(u as usize) || stack@.contains(u as usize))) by {
                if u != c {
                    assert(visited@[u] == v0[u]);
                    assert(stack@ == st0.push(c));
                    let uu = u as usize;
                    assert(uu as int == u);
                    assert(uu != c);
                    if stack@.contains(uu) {
                        let k = choose|k: int| 0 <= k < stack@.len() && stack@[k] == uu;
                        if k < st0.len() {
                            assert(st0[k] == uu);
                        } else {
                            assert(stack@[k] == c);
                        }
                        assert(st0.contains(uu));
                    }
                    if st0.contains(uu) {
                        let k = choose|k: int| 0 <= k < st0.len() && st0[k] == uu;
                        assert(stack@[k] == uu);
                        assert(stack@.contains(uu));
                    }
                } else {
                    assert(stack@[stack@.len() - 1] == c);
                }
            }
            assert forall|i: int, j: int| 0 <= i < j < ws0.push(c).len() implies ws0.push(c)[i] != ws0.push(c)[j] by {
                if j == ws0.len() {
                    if i < walk@.len() {
                        assert(ws0[i] == walk@[i]);
                    } else {
                        assert(ws0[i] == st0[i - walk@.len()]);
                    }
                }
            }
        }
    }
}

/// Split the pipe layer into networks (see `networks_ok`): flood-fill the
/// connected pipe cells, then walk each network depth-first from its
/// smallest cell.
pub fn pipe_networks(pipes: &PipeGrid) -> (r: PipeNetworks)
    requires
        pipes.wf(),
    ensures
        networks_ok(pipes, &r),
{
    let w = pipes.width;
    let h = pipes.height;
    let adj = grid_graph(w, h, &pipes.cells);
    proof {
        lemma_grid_adj(w as int, h as int, pipes.cells@);
    }
    let (lab, count) = label_components(&pipes.cells, &adj);
    let ghost gadj = pipe_adj(pipes);
    let n = pipes.cells.len();
    let mut visited: Vec<bool> = Vec::new();
    let mut i: usize = 0;
    while i < n
        invariant
            0 <= i <= n,
            visited@ == Seq::new(i as nat, |j: int| false),
        decreases n - i,
    {
        visited.push(false);
        i = i + 1;
        assert(visited@ =~= Seq::new(i as nat, |j: int| false));
    }
    let mut order: Vec<Vec<usize>> = Vec::new();
    let mut t: usize = 0;
    while t < n
        invariant
            pipes.wf(),
            w == pipes.width,
            h == pipes.height,
            n == pipes.cells@.len(),
            gadj == pipe_adj(pipes),
            labels_components(pipes.cells@, gadj, lab@, count as nat),
            0 <= t <= n,
            visited@.len() == n,
            order@.len() <= count,
            forall|u: int| 0 <= u < n ==> (visited@[u] <==> (pipes.cells@[u] && lab@[u] < order@.len())),
            forall|u: int| 0 <= u < t && pipes.cells@[u] ==> visited@[u],
            forall|k: int|
                0 <= k < order@.len() ==> {
                    &&& (#[trigger] order@[k])@.no_duplicates()
                    &&& order@[k]@.len() > 0
                    &&& first_of_label(pipes.cells@, lab@, k, order@[k]@[0] as int)
                    &&& forall|u: usize| #[trigger] order@[k]@.contains(u) <==> (u < lab@.len() && lab@[u as int] == k)
                    &&& is_walk_from(w as int, h as int, pipes.cells@, marked_before(pipes.cells@, lab@, k), order@[k]@[0] as int, order@[k]@)
                },
        decreases n - t,
    {
        if pipes.cells[t] && !visited[t] {
            let m = order.len();
            proof {
                let c = lab@[t as int] as int;
                assert(c < count);
                assert(c >= m);
                if c > m {
                    assert(has_first(pipes.cells@, lab@, m as int));
                    let f = choose|f: int| #[trigger] first_of_label(pipes.cells@, lab@, m as int, f);
                    if f < t {
                        assert(visited@[f]);
                    } else if f > t {
                        assert(lab@[t as int] < m);
                    }
                }
                assert(first_of_label(pipes.cells@, lab@, m as int, t as int)) by {
                    assert forall|j: int| 0 <= j < t && pipes.cells@[j] implies #[trigger] lab@[j] < m by {
                        assert(visited@[j]);
                    }
                }
                assert(w > 0) by (nonlinear_arith)
                    requires
                        t < n,
                        n == w * h,
                        0 <= h,
                        0 <= w,
                ;
            }
            proof {
                assert(visited@ =~= marked_before(pipes.cells@, lab@, m as int));
            }
            let walk = walk_network(w, h, &pipes.cells, &lab, count, &mut visited, t, m);
            let ghost before = order@;
            let ghost wv = walk@;
            order.push(walk);
            proof {
                assert(order@[m as int]@ == wv);
            }
            proof {
                assert forall|k: int| 0 <= k < order@.len() implies {
                    &&& (#[trigger] order@[k])@.no_duplicates()
                    &&& order@[k]@.len() > 0
                    &&& first_of_label(pipes.cells@, lab@, k, order@[k]@[0] as int)
                    &&& forall|u: usize| #[trigger] order@[k]@.contains(u) <==> (u < lab@.len() && lab@[u as int] == k)
                    &&& is_walk_from(w as int, h as int, pipes.cells@, marked_before(pipes.cells@, lab@, k), order@[k]@[0] as int, order@[k]@)
                } by {
                    if k < m {
                        assert(order@[k] == before[k]);
                        assert(before[k]@.no_duplicates());
                        assert(before[k]@.len() > 0);
                        assert(first_of_label(pipes.cells@, lab@, k, before[k]@[0] as int));
                        assert(forall|u: usize| before[k]@.contains(u) <==> (u < lab@.len() && lab@[u as int] == k));
                        assert(is_walk_from(w as int, h as int, pipes.cells@, marked_before(pipes.cells@, lab@, k), before[k]@[0] as int, before[k]@));
                    } else {
                        assert(k == m);
                        assert(order@[k]@ == wv);
                        assert(wv[0] == t);
                        assert(wv.no_duplicates());
                        assert(wv.len() > 0);
                        assert(first_of_label(pipes.cells@, lab@, k, wv[0] as int));
                        assert(forall|u: usize| wv.contains(u) <==> (u < lab@.len() && lab@[u as int] == k));
                    }
                }
            }
        }
        t = t + 1;
    }
    proof {
        assert(order@.len() == count) by {
            if order@.len() < count {
                let c = order@.len() as int;
                assert(has_first(pipes.cells@, lab@, c));
                let f = choose|f: int| #[trigger] first_of_label(pipes.cells@, lab@, c, f);
                assert(pipes.cells@[f]);
                assert(visited@[f]);
            }
        }
    }
    PipeNetworks { order, net_of: lab }
}


// =====================================================================================
// Devices on the networks
// =====================================================================================

/// What a coolant device does on its network.
#[derive(Clone, Copy, PartialEq, Eq, Structural, Debug)]
pub enum CoolantRole {
    /// Circulates water while `powered`.
    Pump { powered: bool },
    /// Exchanges heat between air and water.
    Exchanger,
    /// Dumps heat overboard; counts only when `hull_ok` (it touches the hull).
    Radiator { hull_ok: bool },
}

/// A coolant device as the topology sees it: the first tile of its
/// footprint (if it has one) and its role.
#[derive(Clone, Copy, PartialEq, Eq, Structural, Debug)]
pub struct CoolantDevice {
    pub tile: Option<TilePos>,
    pub role: CoolantRole,
}

/// Device tallies of one coolant network.
#[derive(Clone, Copy, PartialEq, Eq, Structural, Debug)]
pub struct CoolantNet {
    /// Pipe tiles in the network.
    pub tiles: u32,
    pub pumps: u32,
    pub powered_pumps: u32,
    pub exchangers: u32,
    /// Radiators that touch the hull.
    pub radiators: u32,
}

impl CoolantNet {
    /// One-line circulation status.
    pub fn status_label(&self) -> (r: &'static str)
        ensures
            self.tiles == 0 ==> r@ == "Empty"@,
            self.tiles != 0 && self.pumps == 0 ==> r@ == "No pump"@,
            self.tiles != 0 && self.pumps != 0 && self.powered_pumps == 0 ==> r@ == "Stagnant — pump unpowered"@,
            self.tiles != 0 && self.pumps != 0 && self.powered_pumps != 0 ==> r@ == "Circulating"@,
    {
        if self.tiles == 0 {
            "Empty"
        } else if self.pumps == 0 {
            "No pump"
        } else if self.powered_pumps == 0 {
            "Stagnant — pump unpowered"
        } else {
            "Circulating"
        }
    }
}

/// The network a device on `tile` joins: the network of that tile when a
/// pipe lies there, none otherwise.
pub open spec fn spec_device_net(pipes: &PipeGrid, nets: &PipeNetworks, tile: Option<TilePos>) -> Option<usize> {
    match tile {
        Some(t) => if pipes.spec_has(t) {
            Some(nets.net_of@[cell_index(pipes.width as int, t.x as int, t.y as int)])
        } else {
            None
        },
        None => None,
    }
}

/// Attach a device to the network of its (pipe-backed) tile.
pub fn device_network(pipes: &PipeGrid, nets: &PipeNetworks, tile: Option<TilePos>) -> (r: Option<usize>)
    requires
        pipes.wf(),
        networks_ok(pipes, nets),
    ensures
        r == spec_device_net(pipes, nets, tile),
        r matches Some(g) ==> g < nets.order@.len(),
{
    match tile {
        Some(t) => {
            if pipes.has(t) {
                let i = pipes.idx(t);
                proof {
                    assert(pipes.cells@[i as int]);
                }
                Some(nets.net_of[i])
            } else {
                None
            }
        },
        None => None,
    }
}

/// The role counted in tally `which`: 0 pumps, 1 powered pumps,
/// 2 exchangers, 3 hull-touching radiators.
pub open spec fn role_counts(r: CoolantRole, which: int) -> bool {
    match r {
        CoolantRole::Pump { powered } => which == 0 || (which == 1 && powered),
        CoolantRole::Exchanger => which == 2,
        CoolantRole::Radiator { hull_ok } => which == 3 && hull_ok,
    }
}

/// Devices among `0..k` attached to network `g` and counted in tally `which`.
pub open spec fn tally(devs: Seq<CoolantDevice>, dn: Seq<Option<usize>>, g: int, which: int, k: int) -> int
    decreases k,
{
    if k <= 0 {
        0
    } else {
        tally(devs, dn, g, which, k - 1) + if dn[k - 1] == Some(g as usize) && role_counts(devs[k - 1].role, which) {
            1int
        } else {
            0int
        }
    }
}

/// Network `g`'s record over the devices `0..k`.
pub open spec fn net_record(devs: Seq<CoolantDevice>, dn: Seq<Option<usize>>, g: int, tiles: int, k: int) -> CoolantNet {
    CoolantNet {
        tiles: tiles as u32,
        pumps: tally(devs, dn, g, 0, k) as u32,
        powered_pumps: tally(devs, dn, g, 1, k) as u32,
        exchangers: tally(devs, dn, g, 2, k) as u32,
        radiators: tally(devs, dn, g, 3, k) as u32,
    }
}

/// Cell index of a device's tile.
pub open spec fn device_cell(w: int, d: CoolantDevice) -> int {
    cell_index(w, d.tile->0.x as int, d.tile->0.y as int)
}

/// Device `d` is a powered pump on network `g`.
pub open spec fn powered_pump_on(devs: Seq<CoolantDevice>, dn: Seq<Option<usize>>, g: int, d: int) -> bool {
    dn[d] == Some(g as usize) && role_counts(devs[d].role, 1)
}

/// `res` is the smallest tile cell of a powered pump on network `g` among
/// the devices `0..k`, or `None` when there is none.
pub open spec fn pump_start_ok(
    devs: Seq<CoolantDevice>,
    dn: Seq<Option<usize>>,
    w: int,
    g: int,
    k: int,
    res: Option<usize>,
) -> bool {
    match res {
        None => forall|d: int| 0 <= d < k ==> !#[trigger] powered_pump_on(devs, dn, g, d),
        Some(i) => {
            &&& exists|d: int| 0 <= d < k && #[trigger] powered_pump_on(devs, dn, g, d) && device_cell(w, devs[d]) == i
            &&& forall|d: int| 0 <= d < k && #[trigger] powered_pump_on(devs, dn, g, d) ==> i <= device_cell(w, devs[d])
        },
    }
}

/// Devices attached to the coolant networks, with each network's tallies
/// and circulation start.
pub struct CoolantTopology {
    /// Network of each device (by position), if any.
    pub device_net: Vec<Option<usize>>,
    /// Tallies per network.
    pub nets: Vec<CoolantNet>,
    /// Per network, the smallest tile cell of a powered pump: water flows
    /// away from it along the network's walk.
    pub pump_start: Vec<Option<usize>>,
}

/// `t` attaches `devs` to the networks `nets` of `pipes` and tallies them.
pub open spec fn topology_ok(pipes: &PipeGrid, nets: &PipeNetworks, devs: Seq<CoolantDevice>, t: &CoolantTopology) -> bool {
    &&& t.device_net@.len() == devs.len()
    &&& forall|d: int| 0 <= d < devs.len() ==> #[trigger] t.device_net@[d] == spec_device_net(pipes, nets, devs[d].tile)
    &&& t.nets@.len() == nets.order@.len()
    &&& t.pump_start@.len() == nets.order@.len()
    &&& forall|g: int|
        0 <= g < nets.order@.len() ==> #[trigger] t.nets@[g] == net_record(
            devs,
            t.device_net@,
            g,
            nets.order@[g]@.len() as int,
            devs.len() as int,
        )
    &&& forall|g: int|
        0 <= g < nets.order@.len() ==> pump_start_ok(
            devs,
            t.device_net@,
            pipes.width as int,
            g,
            devs.len() as int,
            #[trigger] t.pump_start@[g],
        )
}

proof fn lemma_tally_bound(devs: Seq<CoolantDevice>, dn: Seq<Option<usize>>, g: int, which: int, k: int)
    requires
        k >= 0,
    ensures
        0 <= tally(devs, dn, g, which, k) <= k,
    decreases k,
{
    if k > 0 {
        lemma_tally_bound(devs, dn, g, which, k - 1);
    }
}

/// Attach every device to the network under its first tile and tally the
/// pumps (all and powered), exchangers and hull-touching radiators of each
/// network, with the smallest powered pump cell as the circulation start.
pub fn coolant_topology(pipes: &PipeGrid, nets: &PipeNetworks, devs: &[CoolantDevice]) -> (r: CoolantTopology)
    requires
        pipes.wf(),
        networks_ok(pipes, nets),
        devs@.len() <= u32::MAX,
    ensures
        topology_ok(pipes, nets, devs@, &r),
{
    let ng = nets.order.len();
    let mut tallies: Vec<CoolantNet> = Vec::new();
    let mut starts: Vec<Option<usize>> = Vec::new();
    let mut g: usize = 0;
    while g < ng
        invariant
            ng == nets.order@.len(),
            pipes.wf(),
            networks_ok(pipes, nets),
            0 <= g <= ng,
            tallies@.len() == g,
            starts@.len() == g,
            forall|h: int| 0 <= h < g ==> #[trigger] tallies@[h] == net_record(devs@, Seq::empty(), h, nets.order@[h]@.len() as int, 0),
            forall|h: int| 0 <= h < g ==> #[trigger] starts@[h] == None::<usize>,
        decreases ng - g,
    {
        proof {
            let walk = nets.order@[g as int]@;
            assert(walk.no_duplicates());
            assert(forall|j: int| 0 <= j < walk.len() ==> nets.net_of@[walk[j] as int] == g && walk[j] < nets.net_of@.len()) by {
                assert forall|j: int| 0 <= j < walk.len() implies nets.net_of@[walk[j] as int] == g && walk[j] < nets.net_of@.len() by {
                    assert(nets.order@[g as int]@.contains(walk[j]));
                }
            }
            lemma_walk_len(walk, nets.net_of@.len() as usize);
        }
        let tiles = nets.order[g].len() as u32;
        tallies.push(CoolantNet { tiles, pumps: 0, powered_pumps: 0, exchangers: 0, radiators: 0 });
        starts.push(None);
        g = g + 1;
    }
    let mut device_net: Vec<Option<usize>> = Vec::new();
    let n = devs.len();
    let mut d: usize = 0;
    while d < n
        invariant
            n == devs@.len(),
            n <= u32::MAX,
            ng == nets.order@.len(),
            pipes.wf(),
            networks_ok(pipes, nets),
            0 <= d <= n,
            device_net@.len() == d,
            forall|e: int| 0 <= e < d ==> #[trigger] device_net@[e] == spec_device_net(pipes, nets, devs@[e].tile),
            forall|e: int| 0 <= e < d ==> (#[trigger] device_net@[e] matches Some(h) ==> h < ng),
            tallies@.len() == ng,
            starts@.len() == ng,
            forall|h: int| 0 <= h < ng ==> #[trigger] tallies@[h] == net_record(devs@, device_net@, h, nets.order@[h]@.len() as int, d as int),
            forall|h: int| 0 <= h < ng ==> pump_start_ok(devs@, device_net@, pipes.width as int, h, d as int, #[trigger] starts@[h]),
        decreases n - d,
    {
        let dev = devs[d];
        let net = device_network(pipes, nets, dev.tile);
        let ghost dn0 = device_net@;
        let ghost t0 = tallies@;
        let ghost s0 = starts@;
        device_net.push(net);
        let ghost dn1 = device_net@;
        proof {
            assert(dn1.subrange(0, d as int) =~= dn0);
            assert forall|h: int, which: int| 0 <= h < ng implies #[trigger] tally(devs@, dn1, h, which, d as int) == tally(devs@, dn0, h, which, d as int) by {
                lemma_tally_prefix(devs@, dn0, dn1, h, which, d as int);
            }
            assert forall|h: int, e: int| 0 <= h < ng && 0 <= e < d implies #[trigger] powered_pump_on(devs@, dn1, h, e) == powered_pump_on(devs@, dn0, h, e) by {
                assert(dn1[e] == dn0[e]);
            }
            assert forall|h: int| 0 <= h < ng implies #[trigger] tallies@[h] == net_record(devs@, dn1, h, nets.order@[h]@.len() as int, d as int) by {
                assert(tally(devs@, dn1, h, 0, d as int) == tally(devs@, dn0, h, 0, d as int));
                assert(tally(devs@, dn1, h, 1, d as int) == tally(devs@, dn0, h, 1, d as int));
                assert(tally(devs@, dn1, h, 2, d as int) == tally(devs@, dn0, h, 2, d as int));
                assert(tally(devs@, dn1, h, 3, d as int) == tally(devs@, dn0, h, 3, d as int));
            }
            assert forall|h: int| 0 <= h < ng implies pump_start_ok(devs@, dn1, pipes.width as int, h, d as int, #[trigger] starts@[h]) by {
                assert(pump_start_ok(devs@, dn0, pipes.width as int, h, d as int, starts@[h]));
                match starts@[h] {
                    None => {
                        assert forall|e: int| 0 <= e < d implies !#[trigger] powered_pump_on(devs@, dn1, h, e) by {
                            assert(!powered_pump_on(devs@, dn0, h, e));
                        }
                    },
                    Some(i) => {
                        let e0 = choose|e: int| 0 <= e < d && #[trigger] powered_pump_on(devs@, dn0, h, e) && device_cell(pipes.width as int, devs@[e]) == i;
                        assert(powered_pump_on(devs@, dn1, h, e0));
                        assert forall|e: int| 0 <= e < d && #[trigger] powered_pump_on(devs@, dn1, h, e) implies i <= device_cell(pipes.width as int, devs@[e]) by {
                            assert(powered_pump_on(devs@, dn0, h, e));
                        }
                    },
                }
            }
        }
        match net {
            Some(g) => {
                proof {
                    lemma_tally_bound(devs@, dn1, g as int, 0, d as int);
                    lemma_tally_bound(devs@, dn1, g as int, 1, d as int);
                    lemma_tally_bound(devs@, dn1, g as int, 2, d as int);
                    lemma_tally_bound(devs@, dn1, g as int, 3, d as int);
                }
                let mut t = tallies[g];
                match dev.role {
                    CoolantRole::Pump { powered } => {
                        t.pumps = t.pumps + 1;
                        if powered {
                            t.powered_pumps = t.powered_pumps + 1;
                            let tile = dev.tile.unwrap();
                            let i = pipes.idx(tile);
                            let better = match starts[g] {
                                Some(cur) => i < cur,
                                None => true,
                            };
                            if better {
                                starts.set(g, Some(i));
                            }
                        }
                    },
                    CoolantRole::Exchanger => {
                        t.exchangers = t.exchangers + 1;
                    },
                    CoolantRole::Radiator { hull_ok } => {
                        if hull_ok {
                            t.radiators = t.radiators + 1;
                        }
                    },
                }
                tallies.set(g, t);
            },
            None => {},
        }
        proof {
            let dd = d as int;
            assert forall|h: int| 0 <= h < ng implies #[trigger] tallies@[h] == net_record(devs@, dn1, h, nets.order@[h]@.len() as int, dd + 1) by {
                assert(tally(devs@, dn1, h, 0, dd + 1) == tally(devs@, dn1, h, 0, dd) + if dn1[dd] == Some(h as usize) && role_counts(devs@[dd].role, 0) { 1int } else { 0int });
                assert(tally(devs@, dn1, h, 1, dd + 1) == tally(devs@, dn1, h, 1, dd) + if dn1[dd] == Some(h as usize) && role_counts(devs@[dd].role, 1) { 1int } else { 0int });
                assert(tally(devs@, dn1, h, 2, dd + 1) == tally(devs@, dn1, h, 2, dd) + if dn1[dd] == Some(h as usize) && role_counts(devs@[dd].role, 2) { 1int } else { 0int });
                assert(tally(devs@, dn1, h, 3, dd + 1) == tally(devs@, dn1, h, 3, dd) + if dn1[dd] == Some(h as usize) && role_counts(devs@[dd].role, 3) { 1int } else { 0int });
            }
            assert forall|h: int| 0 <= h < ng implies pump_start_ok(devs@, dn1, pipes.width as int, h, dd + 1, #[trigger] starts@[h]) by {
                assert(pump_start_ok(devs@, dn1, pipes.width as int, h, dd, s0[h]));
                if powered_pump_on(devs@, dn1, h, dd) {
                    assert(dev.tile is Some);
                    match s0[h] {
                        None => {},
                        Some(i) => {
                            let e0 = choose|e: int| 0 <= e < dd && #[trigger] powered_pump_on(devs@, dn1, h, e) && device_cell(pipes.width as int, devs@[e]) == i;
                            assert(powered_pump_on(devs@, dn1, h, e0));
                        },
                    }
                } else {
                    assert(starts@[h] == s0[h]);
                    match s0[h] {
                        None => {},
                        Some(i) => {
                            let e0 = choose|e: int| 0 <= e < dd && #[trigger] powered_pump_on(devs@, dn1, h, e) && device_cell(pipes.width as int, devs@[e]) == i;
                            assert(powered_pump_on(devs@, dn1, h, e0));
                        },
                    }
                }
            }
        }
        d = d + 1;
    }
    CoolantTopology { device_net, nets: tallies, pump_start: starts }
}

/// Where circulation on a walk begins: the position of `start` in the walk
/// when it lies on it (its first position), the walk's head otherwise.
pub fn walk_start(walk: &[usize], start: Option<usize>) -> (r: usize)
    ensures
        match start {
            Some(s) => if walk@.contains(s) {
                r < walk@.len() && walk@[r as int] == s && forall|j: int| 0 <= j < r ==> walk@[j] != s
            } else {
                r == 0
            },
            None => r == 0,
        },
{
    match start {
        None => 0,
        Some(s) => {
            let mut i: usize = 0;
            while i < walk.len()
                invariant
                    start == Some(s),
                    0 <= i <= walk@.len(),
                    forall|j: int| 0 <= j < i ==> walk@[j] != s,
                decreases walk@.len() - i,
            {
                if walk[i] == s {
                    assert(walk@.contains(s)) by {
                        assert(walk@[i as int] == s);
                    }
                    return i;
                }
                i = i + 1;
            }
            0
        },
    }
}

/// Cells of the tiles in `ts` that carry a pipe, in order.
pub open spec fn piped_cells(pipes: &PipeGrid, ts: Seq<TilePos>) -> Seq<usize>
    decreases ts.len(),
{
    if ts.len() == 0 {
        Seq::empty()
    } else {
        piped_cells(pipes, ts.drop_last()) + if pipes.spec_has(ts.last()) {
            seq![cell_index(pipes.width as int, ts.last().x as int, ts.last().y as int) as usize]
        } else {
            Seq::empty()
        }
    }
}

/// Pipe cells under the reservoirs `feet[0..k]`, reservoir by reservoir,
/// each in footprint tile order.
pub open spec fn reservoir_cells_spec(pipes: &PipeGrid, feet: Seq<Footprint>, k: int) -> Seq<usize>
    decreases k,
{
    if k <= 0 {
        Seq::empty()
    } else {
        reservoir_cells_spec(pipes, feet, k - 1) + piped_cells(pipes, fp_tiles(feet[k - 1]))
    }
}

/// The pipe cells that carry a reservoir's extra capacity (pipe teardown
/// pushes water into them first).
pub fn reservoir_cells(pipes: &PipeGrid, feet: &[Footprint]) -> (r: Vec<usize>)
    requires
        pipes.wf(),
        forall|k: int| 0 <= k < feet@.len() ==> fp_ok(#[trigger] feet@[k]),
    ensures
        r@ == reservoir_cells_spec(pipes, feet@, feet@.len() as int),
{
    let mut out: Vec<usize> = Vec::new();
    let mut k: usize = 0;
    while k < feet.len()
        invariant
            pipes.wf(),
            forall|k: int| 0 <= k < feet@.len() ==> fp_ok(#[trigger] feet@[k]),
            0 <= k <= feet@.len(),
            out@ == reservoir_cells_spec(pipes, feet@, k as int),
        decreases feet@.len() - k,
    {
        let ts = feet[k].tiles();
        let ghost base = out@;
        let mut j: usize = 0;
        while j < ts.len()
            invariant
                pipes.wf(),
                0 <= j <= ts@.len(),
                out@ == base + piped_cells(pipes, ts@.subrange(0, j as int)),
            decreases ts@.len() - j,
        {
            let t = ts[j];
            proof {
                assert(ts@.subrange(0, j as int + 1).drop_last() =~= ts@.subrange(0, j as int));
                assert(ts@.subrange(0, j as int + 1).last() == t);
            }
            if pipes.has(t) {
                let i = pipes.idx(t);
                out.push(i);
            }
            proof {
                assert(out@ =~= base + piped_cells(pipes, ts@.subrange(0, j as int + 1)));
            }
            j = j + 1;
        }
        proof {
            assert(ts@.subrange(0, ts@.len() as int) =~= ts@);
        }
        k = k + 1;
    }
    out
}

proof fn lemma_tally_prefix(
    devs: Seq<CoolantDevice>,
    dn0: Seq<Option<usize>>,
    dn1: Seq<Option<usize>>,
    g: int,
    which: int,
    k: int,
)
    requires
        0 <= k <= dn0.len(),
        k <= dn1.len(),
        forall|e: int| 0 <= e < k ==> dn0[e] == dn1[e],
    ensures
        tally(devs, dn1, g, which, k) == tally(devs, dn0, g, which, k),
    decreases k,
{
    if k > 0 {
        lemma_tally_prefix(devs, dn0, dn1, g, which, k - 1);
    }
}

/// A walk of distinct cells below `n` has at most `n` cells.
proof fn lemma_walk_len(walk: Seq<usize>, n: usize)
    requires
        walk.no_duplicates(),
        forall|j: int| 0 <= j < walk.len() ==> walk[j] < n,
    ensures
        walk.len() <= n,
{
    let s = walk.to_set();
    walk.unique_seq_to_set();
    let full = Set::new(|u: usize| 0 <= u < n);
    vstd::set_lib::FiniteRange::range_properties(0usize, n);
    assert(s.subset_of(full));
    vstd::set_lib::lemma_len_subset(s, full);
}

} // verus!
