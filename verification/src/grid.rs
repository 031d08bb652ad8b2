//! Four-neighbour graphs over a masked rectangular grid: the cells of a
//! `w × h` grid in row-major order, each joined to the orthogonally adjacent
//! cells that the mask also selects.

use crate::graph::{edge, graph_ok};
use vstd::prelude::*;

verus! {

/// The masked neighbours of cell `i`, in the order east, west, south, north.
pub open spec fn grid_nbrs(w: int, h: int, mask: Seq<bool>, i: int) -> Seq<usize> {
    let x = i % w;
    let y = i / w;
    (if x + 1 < w && mask[i + 1] {
        seq![(i + 1) as usize]
    } else {
        seq![]
    }) + (if x > 0 && mask[i - 1] {
        seq![(i - 1) as usize]
    } else {
        seq![]
    }) + (if y + 1 < h && mask[i + w] {
        seq![(i + w) as usize]
    } else {
        seq![]
    }) + (if y > 0 && mask[i - w] {
        seq![(i - w) as usize]
    } else {
        seq![]
    })
}

/// Adjacency lists of the masked grid: unmasked cells have none.
pub open spec fn grid_adj(w: int, h: int, mask: Seq<bool>) -> Seq<Seq<usize>> {
    Seq::new(mask.len(), |i: int| if mask[i] { grid_nbrs(w, h, mask, i) } else { seq![] })
}

/// Cells `u` and `v` of a width-`w` grid are orthogonal neighbours.
pub open spec fn cells_adjacent(w: int, u: int, v: int) -> bool {
    let (ux, uy, vx, vy) = (u % w, u / w, v % w, v / w);
    (uy == vy && (ux - vx == 1 || vx - ux == 1)) || (ux == vx && (uy - vy == 1 || vy - uy == 1))
}

/// Row-major coordinates of a cell and of its neighbours.
pub proof fn lemma_cell_coords(w: int, h: int, i: int)
    requires
        0 < w,
        0 <= i < w * h,
    ensures
        i == (i / w) * w + i % w,
        0 <= i % w < w,
        0 <= i / w < h,
        i % w + 1 < w ==> (i + 1) % w == i % w + 1 && (i + 1) / w == i / w && i + 1 < w * h,
        i % w > 0 ==> (i - 1) % w == i % w - 1 && (i - 1) / w == i / w,
        (i + w) % w == i % w && (i + w) / w == i / w + 1,
        i / w > 0 ==> (i - w) % w == i % w && (i - w) / w == i / w - 1 && i - w >= 0,
        i / w + 1 < h ==> i + w < w * h,
{
    let x = i % w;
    let y = i / w;
    assert(i == y * w + x && 0 <= x < w && 0 <= y < h) by (nonlinear_arith)
        requires
            0 < w,
            0 <= i < w * h,
            x == i % w,
            y == i / w,
    ;
    if x + 1 < w {
        assert((i + 1) % w == x + 1 && (i + 1) / w == y && i + 1 < w * h) by (nonlinear_arith)
            requires
                i == y * w + x,
                0 <= x,
                x + 1 < w,
                0 <= y < h,
        ;
    }
    if x > 0 {
        assert((i - 1) % w == x - 1 && (i - 1) / w == y) by (nonlinear_arith)
            requires
                i == y * w + x,
                0 < x < w,
                0 <= y,
        ;
    }
    assert((i + w) % w == x && (i + w) / w == y + 1) by (nonlinear_arith)
        requires
            i == y * w + x,
            0 <= x < w,
            0 <= y,
    ;
    if y > 0 {
        assert((i - w) % w == x && (i - w) / w == y - 1 && i - w >= 0) by (nonlinear_arith)
            requires
                i == y * w + x,
                0 <= x < w,
                0 < y,
        ;
    }
    if y + 1 < h {
        assert(i + w < w * h) by (nonlinear_arith)
            requires
                i == y * w + x,
                0 <= x < w,
                y + 1 < h,
        ;
    }
}

/// Membership in a cell's neighbour list.
#[verifier::rlimit(40)]
pub proof fn lemma_grid_nbrs_contains(w: int, h: int, mask: Seq<bool>, i: int, v: int)
    requires
        0 < w,
        0 <= h,
        w * h <= i32::MAX,
        mask.len() == w * h,
        0 <= i < w * h,
    ensures
        grid_nbrs(w, h, mask, i).contains(v as usize) && 0 <= v <= usize::MAX <==> (0 <= v < w * h
            && mask[v] && cells_adjacent(w, i, v)),
        forall|k: int|
            0 <= k < grid_nbrs(w, h, mask, i).len() ==> (#[trigger] grid_nbrs(w, h, mask, i)[k]) < w * h,
{
    lemma_cell_coords(w, h, i);
    let x = i % w;
    let y = i / w;
    let e: Seq<usize> = if x + 1 < w && mask[i + 1] { seq![(i + 1) as usize] } else { seq![] };
    let ww: Seq<usize> = if x > 0 && mask[i - 1] { seq![(i - 1) as usize] } else { seq![] };
    let s: Seq<usize> = if y + 1 < h && mask[i + w] { seq![(i + w) as usize] } else { seq![] };
    let n: Seq<usize> = if y > 0 && mask[i - w] { seq![(i - w) as usize] } else { seq![] };
    let l = grid_nbrs(w, h, mask, i);
    assert(l == e + ww + s + n);
    if 0 <= v < w * h {
        lemma_cell_coords(w, h, v);
    }
    assert forall|k: int| 0 <= k < l.len() implies (#[trigger] l[k]) < w * h by {
        if k < e.len() {
            assert(l[k] == e[k]);
        } else if k < e.len() + ww.len() {
            assert(l[k] == ww[k - e.len()]);
        } else if k < e.len() + ww.len() + s.len() {
            assert(l[k] == s[k - e.len() - ww.len()]);
        } else {
            assert(l[k] == n[k - e.len() - ww.len() - s.len()]);
        }
    }
    if l.contains(v as usize) && 0 <= v <= usize::MAX {
        let k = choose|k: int| 0 <= k < l.len() && l[k] == v as usize;
        if k < e.len() {
            assert(l[k] == e[k]);
            assert(v == i + 1);
        } else if k < e.len() + ww.len() {
            assert(l[k] == ww[k - e.len()]);
            assert(v == i - 1);
        } else if k < e.len() + ww.len() + s.len() {
            assert(l[k] == s[k - e.len() - ww.len()]);
            assert(v == i + w);
        } else {
            assert(l[k] == n[k - e.len() - ww.len() - s.len()]);
            assert(v == i - w);
        }
    }
    if 0 <= v < w * h && mask[v] && cells_adjacent(w, i, v) {
        let (vx, vy) = (v % w, v / w);
        assert(v == vy * w + vx);
        if vy == y && vx == x + 1 {
            assert(v == i + 1);
            assert(l[0] == v as usize);
        } else if vy == y && vx + 1 == x {
            assert(v == i - 1);
            assert(l[e.len() as int] == v as usize);
        } else if vx == x && vy == y + 1 {
            assert(v == i + w) by (nonlinear_arith)
                requires
                    v == vy * w + vx,
                    i == y * w + x,
                    vx == x,
                    vy == y + 1,
            ;
            assert(l[(e.len() + ww.len()) as int] == v as usize);
        } else {
            assert(v == i - w) by (nonlinear_arith)
                requires
                    v == vy * w + vx,
                    i == y * w + x,
                    vx == x,
                    vy == y - 1,
            ;
            assert(l[(e.len() + ww.len() + s.len()) as int] == v as usize);
        }
    }
}

/// The masked grid's adjacency lists form an undirected graph on the masked
/// cells, whose edges join orthogonal neighbours.
pub proof fn lemma_grid_adj(w: int, h: int, mask: Seq<bool>)
    requires
        0 <= w,
        0 <= h,
        w * h <= i32::MAX,
        mask.len() == w * h,
    ensures
        graph_ok(mask, grid_adj(w, h, mask)),
        forall|u: int, v: int|
            #[trigger] edge(grid_adj(w, h, mask), u, v) <==> (0 <= u < mask.len() && 0 <= v < mask.len()
                && mask[u] && mask[v] && cells_adjacent(w, u, v)),
{
    let adj = grid_adj(w, h, mask);
    if w > 0 {
        assert forall|u: int, k: int| 0 <= u < adj.len() && 0 <= k < adj[u].len() implies (#[trigger] adj[u][k])
            < adj.len() by {
            lemma_grid_nbrs_contains(w, h, mask, u, 0);
        }
        assert forall|u: int, v: int|
            #[trigger] edge(adj, u, v) <==> (0 <= u < mask.len() && 0 <= v < mask.len() && mask[u] && mask[v]
                && cells_adjacent(w, u, v)) by {
            if 0 <= u < mask.len() {
                lemma_grid_nbrs_contains(w, h, mask, u, v);
            }
        }
        assert forall|u: int, v: int| #[trigger] edge(adj, u, v) implies mask[u] && mask[v] && edge(adj, v, u) by {
            lemma_grid_nbrs_contains(w, h, mask, u, v);
            lemma_grid_nbrs_contains(w, h, mask, v, u);
            lemma_cell_coords(w, h, u);
            lemma_cell_coords(w, h, v);
        }
    } else {
        assert(mask.len() == 0) by (nonlinear_arith)
            requires
                w == 0,
                mask.len() == w * h,
        ;
    }
}

/// The adjacency lists of the masked grid.
pub fn grid_graph(w: i32, h: i32, mask: &Vec<bool>) -> (adj: Vec<Vec<usize>>)
    requires
        0 <= w,
        0 <= h,
        w * h <= i32::MAX,
        mask@.len() == w * h,
    ensures
        adj@.map_values(|l: Vec<usize>| l@) == grid_adj(w as int, h as int, mask@),
{
    let n = mask.len();
    let mut adj: Vec<Vec<usize>> = Vec::new();
    let mut i: usize = 0;
    let ghost wi = w as int;
    let ghost hi = h as int;
    while i < n
        invariant
            n == mask@.len(),
            n == wi * hi,
            wi == w,
            hi == h,
            0 <= w,
            0 <= h,
            n <= i32::MAX,
            0 <= i <= n,
            adj@.map_values(|l: Vec<usize>| l@) == grid_adj(wi, hi, mask@).subrange(0, i as int),
        decreases n - i,
    {
        let mut nb: Vec<usize> = Vec::new();
        if mask[i] {
            let wu = w as usize;
            proof {
                assert(wi > 0) by (nonlinear_arith)
                    requires
                        0 <= i < n,
                        n == wi * hi,
                        0 <= wi,
                        0 <= hi,
                ;
                lemma_cell_coords(wi, hi, i as int);
            }
            let x = i % wu;
            let y = i / wu;
            let hu = h as usize;
            if x + 1 < wu && mask[i + 1] {
                nb.push(i + 1);
            }
            if x > 0 && mask[i - 1] {
                nb.push(i - 1);
            }
            if y + 1 < hu && mask[i + wu] {
                nb.push(i + wu);
            }
            if y > 0 && mask[i - wu] {
                nb.push(i - wu);
            }
            assert(nb@ =~= grid_nbrs(wi, hi, mask@, i as int));
        } else {
            assert(nb@ =~= Seq::<usize>::empty());
        }
        let ghost before = adj@;
        let ghost nbv = nb@;
        assert(nbv == grid_adj(wi, hi, mask@)[i as int]);
        adj.push(nb);
        proof {
            assert(before.map_values(|l: Vec<usize>| l@).len() == before.len());
            assert(before.len() == i);
            assert(adj@ == before.push(nb));
            assert forall|j: int| #![trigger adj@[j]] 0 <= j < i + 1 implies adj@.map_values(|l: Vec<usize>| l@)[j] == grid_adj(
                wi,
                hi,
                mask@,
            ).subrange(0, i + 1)[j] by {
                if j < i {
                    assert(adj@[j] == before[j]);
                    assert(before.map_values(|l: Vec<usize>| l@)[j] == grid_adj(wi, hi, mask@).subrange(0, i as int)[j]);
                }
            }
        }
        i = i + 1;
        assert(adj@.map_values(|l: Vec<usize>| l@) =~= grid_adj(wi, hi, mask@).subrange(0, i as int));
    }
    assert(grid_adj(wi, hi, mask@).subrange(0, n as int) =~= grid_adj(wi, hi, mask@));
    adj
}

} // verus!
