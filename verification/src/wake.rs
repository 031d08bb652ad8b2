//! The sleep/wake activity set of the continuous grids (heat, gas): a tile
//! woken by something interesting stays awake for `WAKE_STEPS` simulation
//! steps, and only awake tiles are processed, so a quiet ship costs almost
//! nothing per step. The grids' values themselves are simulated outside
//! this crate.

use crate::map::{cell_index, in_grid, lemma_cell_index_bounds, TilePos};
use vstd::prelude::*;

verus! {

/// Quiet steps after which a woken tile falls asleep.
pub const WAKE_STEPS: u32 = 600;

/// Per-tile wake counters and the worklist of awake tiles.
pub struct WakeSet {
    pub width: i32,
    pub height: i32,
    /// Steps each tile stays awake (0 = asleep).
    pub counters: Vec<u32>,
    /// Worklist of awake tiles not yet handed to the current step.
    pub queue: Vec<usize>,
}

/// `queue` and `taken` together list every awake tile exactly once, and
/// nothing else.
pub open spec fn covers(queue: Seq<usize>, taken: Seq<usize>, counters: Seq<u32>) -> bool {
    &&& queue.no_duplicates()
    &&& taken.no_duplicates()
    &&& forall|k: int| 0 <= k < queue.len() ==> !taken.contains(#[trigger] queue[k])
    &&& forall|k: int| 0 <= k < queue.len() ==> (#[trigger] queue[k]) < counters.len()
    &&& forall|k: int| 0 <= k < taken.len() ==> (#[trigger] taken[k]) < counters.len()
    &&& forall|u: usize|
        (u as int) < counters.len() ==> ((queue.contains(u) || taken.contains(u)) <==> #[trigger] counters[u as int] > 0)
}

/// The awake tiles: those whose counter is above zero.
pub open spec fn awake_tiles(counters: Seq<u32>) -> Set<usize> {
    Set::new(|u: usize| (u as int) < counters.len() && counters[u as int] > 0)
}

/// A worklist that covers the awake tiles alone lists each of them once.
pub proof fn lemma_queue_is_awake_set(queue: Seq<usize>, counters: Seq<u32>)
    requires
        covers(queue, Seq::empty(), counters),
    ensures
        queue.len() == awake_tiles(counters).len(),
{
    assert forall|u: usize| #[trigger] queue.to_set().contains(u) <==> awake_tiles(counters).contains(u) by {
        if queue.to_set().contains(u) {
            let k = choose|k: int| 0 <= k < queue.len() && queue[k] == u;
            assert(queue[k] < counters.len());
            assert(queue.contains(u));
        }
        if awake_tiles(counters).contains(u) {
            assert(queue.contains(u) || Seq::<usize>::empty().contains(u));
        }
    }
    assert(queue.to_set() =~= awake_tiles(counters));
    queue.unique_seq_to_set();
}

/// One step's countdown: every tile of `current` loses one step.
pub open spec fn counted_down(counters: Seq<u32>, current: Seq<usize>) -> Seq<u32> {
    Seq::new(
        counters.len(),
        |i: int|
            if current.contains(i as usize) && counters[i] > 0 {
                (counters[i] - 1) as u32
            } else {
                counters[i]
            },
    )
}

/// The tiles of `current[0..n]` still awake after the countdown, in order.
pub open spec fn survivors(counters: Seq<u32>, current: Seq<usize>, n: int) -> Seq<usize>
    decreases n,
{
    if n <= 0 {
        Seq::empty()
    } else {
        survivors(counters, current, n - 1) + if counters[current[n - 1] as int] > 1 {
            seq![current[n - 1]]
        } else {
            Seq::empty()
        }
    }
}

impl WakeSet {
    pub open spec fn wf(&self) -> bool {
        &&& 0 <= self.width
        &&& 0 <= self.height
        &&& self.width * self.height <= i32::MAX
        &&& self.counters@.len() == self.width * self.height
        &&& covers(self.queue@, Seq::empty(), self.counters@)
    }

    /// Tile `i` is awake.
    pub open spec fn spec_awake(&self, i: int) -> bool {
        self.counters@[i] > 0
    }

    /// All tiles asleep.
    pub fn new(width: i32, height: i32) -> (r: Self)
        requires
            0 <= width,
            0 <= height,
            width * height <= i32::MAX,
        ensures
            r.wf(),
            r.width == width,
            r.height == height,
            forall|i: int| 0 <= i < r.counters@.len() ==> !#[trigger] r.spec_awake(i),
            r.queue@.len() == 0,
    {
        let n = (width * height) as usize;
        let r = WakeSet { width, height, counters: vec![0u32; n], queue: Vec::new() };
        assert(covers(r.queue@, Seq::empty(), r.counters@));
        r
    }

    /// Mark tile `i` interesting for another `WAKE_STEPS` steps; a sleeping
    /// tile joins the worklist. Works between steps and during one (while
    /// the step's tiles are `taken`).
    pub fn wake(&mut self, i: usize)
        requires
            i < old(self).counters@.len(),
        ensures
            final(self).width == old(self).width,
            final(self).height == old(self).height,
            final(self).counters@ == old(self).counters@.update(i as int, WAKE_STEPS),
            final(self).queue@ == if old(self).counters@[i as int] == 0 {
                old(self).queue@.push(i)
            } else {
                old(self).queue@
            },
            forall|taken: Seq<usize>|
                #[trigger] covers(old(self).queue@, taken, old(self).counters@) ==> covers(
                    final(self).queue@,
                    taken,
                    final(self).counters@,
                ),
    {
        let ghost q0 = self.queue@;
        let ghost c0 = self.counters@;
        if self.counters[i] == 0 {
            self.queue.push(i);
        }
        self.counters.set(i, WAKE_STEPS);
        proof {
            assert forall|taken: Seq<usize>| #[trigger] covers(q0, taken, c0) implies covers(self.queue@, taken, self.counters@) by {
                let q1 = self.queue@;
                let c1 = self.counters@;
                if c0[i as int] == 0 {
                    assert(!q0.contains(i) && !taken.contains(i));
                    assert(q1 == q0.push(i));
                    assert forall|a: int, b: int| 0 <= a < b < q1.len() implies q1[a] != q1[b] by {
                        if b == q0.len() {
                            assert(q0.contains(q0[a]));
                        } else {
                            assert(q1[a] == q0[a] && q1[b] == q0[b]);
                        }
                    }
                    assert forall|k: int| 0 <= k < q1.len() implies !taken.contains(#[trigger] q1[k]) by {
                        if k < q0.len() {
                            assert(q1[k] == q0[k]);
                        }
                    }
                    assert forall|k: int| 0 <= k < q1.len() implies (#[trigger] q1[k]) < c1.len() by {
                        if k < q0.len() {
                            assert(q1[k] == q0[k]);
                        }
                    }
                    assert forall|u: usize| (u as int) < c1.len() implies ((q1.contains(u) || taken.contains(u))
                        <==> #[trigger] c1[u as int] > 0) by {
                        if u != i {
                            assert(c1[u as int] == c0[u as int]);
                            if q1.contains(u) {
                                let k = choose|k: int| 0 <= k < q1.len() && q1[k] == u;
                                assert(k < q0.len());
                                assert(q0[k] == u);
                            }
                            if q0.contains(u) {
                                let k = choose|k: int| 0 <= k < q0.len() && q0[k] == u;
                                assert(q1[k] == u);
                            }
                        } else {
                            assert(q1[q0.len() as int] == i);
                        }
                    }
                } else {
                    assert forall|u: usize| (u as int) < c1.len() implies ((q1.contains(u) || taken.contains(u))
                        <==> #[trigger] c1[u as int] > 0) by {
                        if u != i {
                            assert(c1[u as int] == c0[u as int]);
                        } else {
                            assert(c0[u as int] > 0);
                        }
                    }
                }
            }
        }
    }

    /// Wake the tile at `p` (nothing off the grid).
    pub fn wake_at(&mut self, p: TilePos)
        requires
            old(self).counters@.len() == old(self).width * old(self).height,
            0 <= old(self).width,
            0 <= old(self).height,
            old(self).width * old(self).height <= i32::MAX,
        ensures
            final(self).width == old(self).width,
            final(self).height == old(self).height,
            final(self).counters@.len() == old(self).counters@.len(),
            final(self).counters@ == if in_grid(old(self).width as int, old(self).height as int, p.x as int, p.y as int) {
                old(self).counters@.update(cell_index(old(self).width as int, p.x as int, p.y as int), WAKE_STEPS)
            } else {
                old(self).counters@
            },
            forall|taken: Seq<usize>|
                #[trigger] covers(old(self).queue@, taken, old(self).counters@) ==> covers(
                    final(self).queue@,
                    taken,
                    final(self).counters@,
                ),
    {
        if p.x >= 0 && p.y >= 0 && p.x < self.width && p.y < self.height {
            proof {
                lemma_cell_index_bounds(self.width as int, self.height as int, p.x as int, p.y as int);
            }
            let i = (p.y * self.width + p.x) as usize;
            self.wake(i);
        }
    }

    /// Wake a tile and its four neighbours (door flips, breaches,
    /// injections).
    pub fn wake_around(&mut self, p: TilePos)
        requires
            old(self).counters@.len() == old(self).width * old(self).height,
            0 <= old(self).width,
            0 <= old(self).height,
            old(self).width * old(self).height <= i32::MAX,
            i32::MIN < p.x < i32::MAX,
            i32::MIN < p.y < i32::MAX,
        ensures
            final(self).width == old(self).width,
            final(self).height == old(self).height,
            final(self).counters@.len() == old(self).counters@.len(),
            forall|i: int|
                0 <= i < old(self).counters@.len() ==> #[trigger] final(self).counters@[i] == if woken_by(
                    old(self).width as int,
                    old(self).height as int,
                    p,
                    i,
                ) {
                    WAKE_STEPS
                } else {
                    old(self).counters@[i]
                },
            forall|taken: Seq<usize>|
                #[trigger] covers(old(self).queue@, taken, old(self).counters@) ==> covers(
                    final(self).queue@,
                    taken,
                    final(self).counters@,
                ),
    {
        let ghost w = self.width as int;
        let ghost h = self.height as int;
        let ghost c0 = self.counters@;
        let ghost q0 = self.queue@;
        let east = TilePos::new(p.x + 1, p.y);
        let west = TilePos::new(p.x - 1, p.y);
        let south = TilePos::new(p.x, p.y + 1);
        let north = TilePos::new(p.x, p.y - 1);
        self.wake_at(p);
        let ghost c1 = self.counters@;
        let ghost q1 = self.queue@;
        self.wake_at(east);
        let ghost c2 = self.counters@;
        let ghost q2 = self.queue@;
        self.wake_at(west);
        let ghost c3 = self.counters@;
        let ghost q3 = self.queue@;
        self.wake_at(south);
        let ghost c4 = self.counters@;
        let ghost q4 = self.queue@;
        self.wake_at(north);
        proof {
            assert forall|taken: Seq<usize>| #[trigger] covers(q0, taken, c0) implies covers(self.queue@, taken, self.counters@) by {
                assert(covers(q1, taken, c1));
                assert(covers(q2, taken, c2));
                assert(covers(q3, taken, c3));
                assert(covers(q4, taken, c4));
            }
            assert forall|i: int| 0 <= i < c0.len() implies #[trigger] self.counters@[i] == if woken_by(w, h, p, i) {
                WAKE_STEPS
            } else {
                c0[i]
            } by {
                lemma_woken_by(w, h, p, i);
                let hit0 = in_grid(w, h, p.x as int, p.y as int) && cell_index(w, p.x as int, p.y as int) == i;
                let hit1 = in_grid(w, h, p.x + 1, p.y as int) && cell_index(w, p.x + 1, p.y as int) == i;
                let hit2 = in_grid(w, h, p.x - 1, p.y as int) && cell_index(w, p.x - 1, p.y as int) == i;
                let hit3 = in_grid(w, h, p.x as int, p.y + 1) && cell_index(w, p.x as int, p.y + 1) == i;
                let hit4 = in_grid(w, h, p.x as int, p.y - 1) && cell_index(w, p.x as int, p.y - 1) == i;
                if in_grid(w, h, p.x as int, p.y as int) {
                    lemma_cell_index_bounds(w, h, p.x as int, p.y as int);
                }
                if in_grid(w, h, p.x + 1, p.y as int) {
                    lemma_cell_index_bounds(w, h, p.x + 1, p.y as int);
                }
                if in_grid(w, h, p.x - 1, p.y as int) {
                    lemma_cell_index_bounds(w, h, p.x - 1, p.y as int);
                }
                if in_grid(w, h, p.x as int, p.y + 1) {
                    lemma_cell_index_bounds(w, h, p.x as int, p.y + 1);
                }
                if in_grid(w, h, p.x as int, p.y - 1) {
                    lemma_cell_index_bounds(w, h, p.x as int, p.y - 1);
                }
                assert(c1[i] == if hit0 { WAKE_STEPS } else { c0[i] });
                assert(c2[i] == if hit1 { WAKE_STEPS } else { c1[i] });
                assert(c3[i] == if hit2 { WAKE_STEPS } else { c2[i] });
                assert(c4[i] == if hit3 { WAKE_STEPS } else { c3[i] });
                assert(self.counters@[i] == if hit4 { WAKE_STEPS } else { c4[i] });
            }
        }
    }

    /// Tile `i` is awake.
    pub fn is_awake(&self, i: usize) -> (r: bool)
        requires
            i < self.counters@.len(),
        ensures
            r == self.spec_awake(i as int),
    {
        self.counters[i] > 0
    }

    /// Hand the worklist to the current step (which processes it and then
    /// calls `finish_step` with it).
    pub fn take_awake(&mut self) -> (r: Vec<usize>)
        ensures
            r@ == old(self).queue@,
            final(self).queue@.len() == 0,
            final(self).counters@ == old(self).counters@,
            final(self).width == old(self).width,
            final(self).height == old(self).height,
            covers(old(self).queue@, Seq::empty(), old(self).counters@) ==> covers(
                final(self).queue@,
                r@,
                final(self).counters@,
            ),
    {
        let mut out: Vec<usize> = Vec::new();
        std::mem::swap(&mut out, &mut self.queue);
        proof {
            let e = Seq::<usize>::empty();
            if covers(out@, e, self.counters@) {
                assert forall|u: usize| (u as int) < self.counters@.len() implies ((self.queue@.contains(u)
                    || out@.contains(u)) <==> #[trigger] self.counters@[u as int] > 0) by {
                    assert(!e.contains(u));
                    assert(!self.queue@.contains(u));
                }
            }
        }
        out
    }

    /// After the step processed `current`: each of its tiles loses one
    /// step, and those still awake rejoin the worklist behind the tiles
    /// woken during the step.
    pub fn finish_step(&mut self, current: &[usize])
        requires
            covers(old(self).queue@, current@, old(self).counters@),
        ensures
            final(self).width == old(self).width,
            final(self).height == old(self).height,
            final(self).counters@ == counted_down(old(self).counters@, current@),
            final(self).queue@ == old(self).queue@ + survivors(old(self).counters@, current@, current@.len() as int),
            covers(final(self).queue@, Seq::empty(), final(self).counters@),
    {
        let ghost q0 = self.queue@;
        let ghost c0 = self.counters@;
        let ghost cur = current@;
        let n = self.counters.len();
        let mut k: usize = 0;
        while k < current.len()
            invariant
                cur == current@,
                covers(q0, cur, c0),
                n == c0.len(),
                0 <= k <= cur.len(),
                self.counters@.len() == c0.len(),
                self.width == old(self).width,
                self.height == old(self).height,
                forall|u: usize|
                    (u as int) < c0.len() ==> #[trigger] self.counters@[u as int] == if cur.subrange(0, k as int).contains(u)
                        && c0[u as int] > 0 {
                        (c0[u as int] - 1) as u32
                    } else {
                        c0[u as int]
                    },
                self.queue@ == q0 + survivors(c0, cur, k as int),
                forall|j: int| 0 <= j < survivors(c0, cur, k as int).len() ==> cur.subrange(0, k as int).contains(
                    #[trigger] survivors(c0, cur, k as int)[j],
                ),
                survivors(c0, cur, k as int).no_duplicates(),
            decreases cur.len() - k,
        {
            let i = current[k];
            proof {
                assert(cur.subrange(0, k as int + 1) =~= cur.subrange(0, k as int).push(i));
                assert(!cur.subrange(0, k as int).contains(i)) by {
                    if cur.subrange(0, k as int).contains(i) {
                        let j = choose|j: int| 0 <= j < k && cur.subrange(0, k as int)[j] == i;
                        assert(cur[j] == cur[k as int]);
                    }
                }
                assert(cur[k as int] == i);
            }
            let c = self.counters[i];
            let ghost s0 = survivors(c0, cur, k as int);
            if c > 0 {
                self.counters.set(i, c - 1);
            }
            if c > 1 {
                self.queue.push(i);
            }
            proof {
                let s1 = survivors(c0, cur, k as int + 1);
                let pre = cur.subrange(0, k as int);
                let pre1 = cur.subrange(0, k as int + 1);
                assert(c == c0[i as int]);
                assert forall|j: int| 0 <= j < s0.len() implies pre1.contains(#[trigger] s0[j]) by {
                    assert(pre.contains(s0[j]));
                    let t = choose|t: int| 0 <= t < pre.len() && pre[t] == s0[j];
                    assert(pre1[t] == s0[j]);
                }
                if c > 1 {
                    assert(s1 == s0.push(i));
                    assert(self.queue@ =~= q0 + s1);
                    assert forall|a: int, b: int| 0 <= a < b < s1.len() implies s1[a] != s1[b] by {
                        if b == s0.len() {
                            assert(pre.contains(s0[a]));
                        } else {
                            assert(s1[a] == s0[a] && s1[b] == s0[b]);
                        }
                    }
                    assert forall|j: int| 0 <= j < s1.len() implies pre1.contains(#[trigger] s1[j]) by {
                        if j < s0.len() {
                            assert(s1[j] == s0[j]);
                        } else {
                            assert(pre1[k as int] == i);
                        }
                    }
                } else {
                    assert(s1 == s0);
                }
                assert forall|u: usize| (u as int) < c0.len() implies #[trigger] self.counters@[u as int] == if pre1.contains(u)
                    && c0[u as int] > 0 {
                    (c0[u as int] - 1) as u32
                } else {
                    c0[u as int]
                } by {
                    if u != i {
                        assert(pre1.contains(u) == pre.contains(u)) by {
                            if pre1.contains(u) {
                                let t = choose|t: int| 0 <= t < pre1.len() && pre1[t] == u;
                                assert(t < k);
                                assert(pre[t] == u);
                            }
                            if pre.contains(u) {
                                let t = choose|t: int| 0 <= t < pre.len() && pre[t] == u;
                                assert(pre1[t] == u);
                            }
                        }
                    } else {
                        assert(pre1[k as int] == i);
                    }
                }
            }
            k = k + 1;
        }
        proof {
            assert(cur.subrange(0, cur.len() as int) =~= cur);
            let s = survivors(c0, cur, cur.len() as int);
            let q1 = self.queue@;
            let c1 = self.counters@;
            assert(c1 =~= counted_down(c0, cur)) by {
                assert forall|x: int| 0 <= x < c1.len() implies c1[x] == counted_down(c0, cur)[x] by {
                    let u = x as usize;
                    assert(u as int == x);
                    assert(c1[u as int] == c1[x]);
                }
            }
            let e = Seq::<usize>::empty();
            assert forall|a: int, b: int| 0 <= a < b < q1.len() implies q1[a] != q1[b] by {
                if a < q0.len() && b >= q0.len() {
                    assert(q1[a] == q0[a]);
                    assert(q1[b] == s[b - q0.len()]);
                    assert(cur.contains(s[b - q0.len()]));
                    assert(!cur.contains(q0[a]));
                } else if a >= q0.len() {
                    assert(q1[a] == s[a - q0.len()]);
                    assert(q1[b] == s[b - q0.len()]);
                } else {
                    assert(q1[a] == q0[a] && q1[b] == q0[b]);
                }
            }
            assert forall|t: int| 0 <= t < q1.len() implies (#[trigger] q1[t]) < c1.len() by {
                if t >= q0.len() {
                    assert(q1[t] == s[t - q0.len()]);
                    assert(cur.contains(s[t - q0.len()]));
                    let v = choose|v: int| 0 <= v < cur.len() && cur[v] == s[t - q0.len()];
                    assert(cur[v] < c0.len());
                } else {
                    assert(q1[t] == q0[t]);
                }
            }
            assert forall|u: usize| (u as int) < c1.len() implies ((q1.contains(u) || e.contains(u)) <==> #[trigger] c1[u as int]
                > 0) by {
                assert(!e.contains(u));
                if q1.contains(u) {
                    let t = choose|t: int| 0 <= t < q1.len() && q1[t] == u;
                    if t < q0.len() {
                        assert(q0[t] == u);
                        assert(q0.contains(u));
                        assert(!cur.contains(u));
                    } else {
                        assert(s[t - q0.len()] == u);
                        assert(s.contains(u));
                        assert(cur.contains(u));
                        lemma_survivor_member(c0, cur, cur.len() as int, u);
                    }
                }
                if c1[u as int] > 0 {
                    if cur.contains(u) {
                        assert(c0[u as int] > 1);
                        lemma_survivor_member(c0, cur, cur.len() as int, u);
                        let t = choose|t: int| 0 <= t < s.len() && s[t] == u;
                        assert(q1[q0.len() + t] == u);
                    } else {
                        assert(c0[u as int] > 0);
                        assert(q0.contains(u));
                        let t = choose|t: int| 0 <= t < q0.len() && q0[t] == u;
                        assert(q1[t] == u);
                    }
                }
            }
        }
    }

    /// Tiles on the worklist: between steps, exactly the awake tiles.
    pub fn awake_count(&self) -> (r: usize)
        ensures
            r == self.queue@.len(),
            self.wf() ==> r == awake_tiles(self.counters@).len(),
    {
        proof {
            if self.wf() {
                lemma_queue_is_awake_set(self.queue@, self.counters@);
            }
        }
        self.queue.len()
    }
}

/// Tile `i` is `p` or one of its four neighbours, on the grid.
pub open spec fn woken_by(w: int, h: int, p: TilePos, i: int) -> bool {
    exists|dx: int, dy: int|
        (dx == 0 && dy == 0 || dx == 1 && dy == 0 || dx == -1 && dy == 0 || dx == 0 && dy == 1 || dx == 0 && dy == -1)
            && in_grid(w, h, p.x + dx, p.y + dy) && #[trigger] cell_index(w, p.x + dx, p.y + dy) == i
}

proof fn lemma_woken_by(w: int, h: int, p: TilePos, i: int)
    ensures
        woken_by(w, h, p, i) == ((in_grid(w, h, p.x as int, p.y as int) && cell_index(w, p.x as int, p.y as int) == i)
            || (in_grid(w, h, p.x + 1, p.y as int) && cell_index(w, p.x + 1, p.y as int) == i) || (in_grid(
            w,
            h,
            p.x - 1,
            p.y as int,
        ) && cell_index(w, p.x - 1, p.y as int) == i) || (in_grid(w, h, p.x as int, p.y + 1) && cell_index(
            w,
            p.x as int,
            p.y + 1,
        ) == i) || (in_grid(w, h, p.x as int, p.y - 1) && cell_index(w, p.x as int, p.y - 1) == i)),
{
    if in_grid(w, h, p.x as int, p.y as int) && cell_index(w, p.x as int, p.y as int) == i {
        assert(cell_index(w, p.x + 0, p.y + 0) == i);
    }
    if in_grid(w, h, p.x + 1, p.y as int) && cell_index(w, p.x + 1, p.y as int) == i {
        assert(cell_index(w, p.x + 1, p.y + 0) == i);
    }
    if in_grid(w, h, p.x - 1, p.y as int) && cell_index(w, p.x - 1, p.y as int) == i {
        assert(cell_index(w, p.x + -1, p.y + 0) == i);
    }
    if in_grid(w, h, p.x as int, p.y + 1) && cell_index(w, p.x as int, p.y + 1) == i {
        assert(cell_index(w, p.x + 0, p.y + 1) == i);
    }
    if in_grid(w, h, p.x as int, p.y - 1) && cell_index(w, p.x as int, p.y - 1) == i {
        assert(cell_index(w, p.x + 0, p.y + -1) == i);
    }
}

/// A tile of `current[0..n]` survives the countdown exactly when it had
/// more than one step left.
proof fn lemma_survivor_member(c0: Seq<u32>, cur: Seq<usize>, n: int, x: usize)
    requires
        0 <= n <= cur.len(),
        cur.subrange(0, n).contains(x),
        forall|k: int| 0 <= k < cur.len() ==> (#[trigger] cur[k]) < c0.len(),
    ensures
        survivors(c0, cur, n).contains(x) <==> c0[x as int] > 1,
    decreases n,
{
    let s0 = survivors(c0, cur, n - 1);
    let s1 = survivors(c0, cur, n);
    if cur[n - 1] == x {
        if c0[x as int] > 1 {
            assert(s1[s0.len() as int] == x);
        } else {
            assert(s1 == s0);
            if s0.contains(x) {
                lemma_survivors_sub(c0, cur, n - 1, x);
            }
        }
    } else {
        assert(cur.subrange(0, n - 1).contains(x)) by {
            let t = choose|t: int| 0 <= t < n && cur.subrange(0, n)[t] == x;
            assert(cur.subrange(0, n - 1)[t] == x);
        }
        lemma_survivor_member(c0, cur, n - 1, x);
        if s0.contains(x) {
            let t = choose|t: int| 0 <= t < s0.len() && s0[t] == x;
            assert(s1[t] == x);
        }
        if s1.contains(x) {
            let t = choose|t: int| 0 <= t < s1.len() && s1[t] == x;
            if t < s0.len() {
                assert(s0[t] == x);
            }
        }
    }
}

/// Survivors carry more than one step.
proof fn lemma_survivors_sub(c0: Seq<u32>, cur: Seq<usize>, n: int, x: usize)
    requires
        0 <= n,
        survivors(c0, cur, n).contains(x),
    ensures
        c0[x as int] > 1,
    decreases n,
{
    if n > 0 {
        let s0 = survivors(c0, cur, n - 1);
        let s1 = survivors(c0, cur, n);
        let t = choose|t: int| 0 <= t < s1.len() && s1[t] == x;
        if t < s0.len() {
            assert(s0[t] == x);
            lemma_survivors_sub(c0, cur, n - 1, x);
        }
    }
}

} // verus!
