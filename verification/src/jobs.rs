//! The crew's work decisions: which job an idle crew member takes, why it
//! stays idle, where a carried item goes, and how job timers run down.
//!
//! Candidates are ranked by priority tier first (distance only breaks ties
//! inside a tier, capped so a far High job still beats a near Low job), then
//! by distance, then in the order they were found.

use crate::building::{fp_ok, interaction_seq, interaction_tiles, nearest_route, first_reached, path_to_interaction, Footprint};
use crate::building::{
    contains_pos, drop_refunds, foot_origin, item_list, item_vec, refund_drops, Blueprint,
};
use crate::crew::{spec_weight, CrewTask, HaulDest, IdleCause, Priority, WorkJob};
use crate::dist::{
    dist_key, floor, lemma_octile_small, octile_distance, spec_dist_key, spec_octile_distance, OctDist,
};
use crate::items::{kind_index, ItemKind};
use crate::map::{drop_spot, find_drop_tile_ext, ShipMap, TilePos};
use crate::production::Fabricator;
use crate::path::{cost_bound, reachable, reaches, route, spec_path_cost};
use crate::storage::StorageCell;
use vstd::prelude::*;

verus! {

/// Pick-up beat, sim microseconds (0.3 real s at 1×).
pub const PICKUP_US: i64 = 18_000_000;

/// Drop-off beat, sim microseconds (0.25 real s at 1×).
pub const DELIVER_US: i64 = 15_000_000;

/// Rescan delay after a canceled job, sim microseconds.
pub const RESCAN_CANCELED_US: i64 = 12_000_000;

/// Rescan delay after a failed job, sim microseconds.
pub const RESCAN_FAILED_US: i64 = 18_000_000;

/// Rescan delay after an unreachable target, sim microseconds.
pub const RESCAN_UNREACHABLE_US: i64 = 30_000_000;

/// Rescan delay when nothing was found, sim microseconds.
pub const SCAN_IDLE_US: i64 = 36_000_000;

/// Rescan delay when every claim attempt failed, sim microseconds.
pub const SCAN_IDLE_SLOW_US: i64 = 60_000_000;

// =====================================================================================
// Idle causes
// =====================================================================================

/// Why a crew member found no candidate at all.
pub open spec fn spec_scan_idle_cause(
    haul: Priority,
    build: Priority,
    operate: Priority,
    marked_any_free: bool,
    storage_ok: bool,
    marked_exists: bool,
) -> IdleCause {
    if haul == Priority::Disabled && build == Priority::Disabled && operate == Priority::Disabled {
        IdleCause::AllWorkDisabled
    } else if haul == Priority::Disabled {
        IdleCause::NothingToDo
    } else if marked_any_free {
        if !storage_ok {
            IdleCause::NoStorageSpace
        } else {
            IdleCause::AllUnreachable
        }
    } else if marked_exists {
        IdleCause::AllClaimed
    } else {
        IdleCause::NothingToDo
    }
}

/// Idle cause when the scan produced no candidate: every work type
/// disabled; haul disabled (nothing else offered); free marked items but no
/// storage space, or storage but no route; all marked items claimed; or
/// simply nothing to do.
pub fn scan_idle_cause(
    haul: Priority,
    build: Priority,
    operate: Priority,
    marked_any_free: bool,
    storage_ok: bool,
    marked_exists: bool,
) -> (r: IdleCause)
    ensures
        r == spec_scan_idle_cause(haul, build, operate, marked_any_free, storage_ok, marked_exists),
{
    if haul == Priority::Disabled && build == Priority::Disabled && operate == Priority::Disabled {
        IdleCause::AllWorkDisabled
    } else if haul == Priority::Disabled {
        IdleCause::NothingToDo
    } else if marked_any_free {
        if !storage_ok {
            IdleCause::NoStorageSpace
        } else {
            IdleCause::AllUnreachable
        }
    } else if marked_exists {
        IdleCause::AllClaimed
    } else {
        IdleCause::NothingToDo
    }
}

/// Why a crew member stays idle after every candidate's claim failed.
pub open spec fn spec_claim_failed_cause(marked_any_free: bool, storage_ok: bool, marked_exists: bool) -> IdleCause {
    if marked_any_free && !storage_ok {
        IdleCause::NoStorageSpace
    } else if marked_any_free {
        IdleCause::AllUnreachable
    } else if marked_exists {
        IdleCause::AllClaimed
    } else {
        IdleCause::NothingToDo
    }
}

pub fn claim_failed_cause(marked_any_free: bool, storage_ok: bool, marked_exists: bool) -> (r: IdleCause)
    ensures
        r == spec_claim_failed_cause(marked_any_free, storage_ok, marked_exists),
{
    if marked_any_free && !storage_ok {
        IdleCause::NoStorageSpace
    } else if marked_any_free {
        IdleCause::AllUnreachable
    } else if marked_exists {
        IdleCause::AllClaimed
    } else {
        IdleCause::NothingToDo
    }
}

// =====================================================================================
// Candidate ranking
// =====================================================================================

/// One claimable unit of work: its priority tier and the distance to it.
#[derive(Clone, Copy, PartialEq, Eq, Structural, Debug)]
pub struct Candidate {
    pub prio: Priority,
    pub dist: OctDist,
}

/// Distances between `i32` tiles (plus a rack's one-tile penalty).
pub open spec fn dist_ok(d: OctDist) -> bool {
    d.straight < 0x1_0000_0000 && d.diag < 0x1_0000_0000
}

/// `⌊d⌋` of a distance.
pub open spec fn dist_floor(d: OctDist) -> int {
    d.straight + spec_isqrt_of(d)
}

pub open spec fn spec_isqrt_of(d: OctDist) -> int {
    crate::dist::spec_isqrt(2 * d.diag * d.diag)
}

/// Higher is better: the tier's weight minus the whole distance, capped at
/// 60 tiles.
pub open spec fn spec_score(c: Candidate) -> int {
    spec_weight(c.prio) - if dist_floor(c.dist) < 60 {
        dist_floor(c.dist)
    } else {
        60
    }
}

impl Candidate {
    pub fn score(&self) -> (r: i32)
        requires
            dist_ok(self.dist),
        ensures
            r == spec_score(*self),
    {
        let f = floor(self.dist);
        proof {
            crate::dist::lemma_spec_isqrt(2 * self.dist.diag * self.dist.diag, f - self.dist.straight);
        }
        let capped: i32 = if f < 60 {
            f as i32
        } else {
            60
        };
        self.prio.weight() - capped
    }
}

/// Candidate `a` ranks before candidate `b` (both indices into `cs`):
/// higher score, then shorter distance, then found earlier.
pub open spec fn ranks_before(cs: Seq<Candidate>, a: int, b: int) -> bool {
    let (sa, sb) = (spec_score(cs[a]), spec_score(cs[b]));
    let (ka, kb) = (spec_dist_key(cs[a].dist), spec_dist_key(cs[b].dist));
    sa > sb || (sa == sb && ka < kb) || (sa == sb && ka == kb && a < b)
}

/// A higher priority tier always ranks first, however far its work is: the
/// gap between two tiers is wider than the largest distance penalty.
pub proof fn lemma_tier_dominates(cs: Seq<Candidate>, a: int, b: int)
    requires
        0 <= a < cs.len(),
        0 <= b < cs.len(),
        spec_weight(cs[a].prio) > spec_weight(cs[b].prio),
    ensures
        spec_score(cs[a]) > spec_score(cs[b]),
        ranks_before(cs, a, b),
{
    crate::dist::lemma_floor_nonneg(cs[a].dist);
    crate::dist::lemma_floor_nonneg(cs[b].dist);
}

/// The order in which an idle crew member tries to claim the candidates:
/// every candidate once, best first.
pub fn rank_candidates(cs: &[Candidate]) -> (ord: Vec<usize>)
    requires
        forall|i: int| 0 <= i < cs@.len() ==> dist_ok(#[trigger] cs@[i].dist),
    ensures
        ord@.len() == cs@.len(),
        forall|j: int| 0 <= j < cs@.len() ==> #[trigger] ord@.contains(j as usize),
        forall|q: int| 0 <= q < ord@.len() ==> #[trigger] ord@[q] < cs@.len(),
        forall|a: int, b: int| 0 <= a < b < ord@.len() ==> ranks_before(cs@, ord@[a] as int, ord@[b] as int),
{
    let ghost s = cs@;
    let n = cs.len();
    let mut score: Vec<i32> = Vec::new();
    let mut key: Vec<u64> = Vec::new();
    let mut i: usize = 0;
    while i < n
        invariant
            s == cs@,
            n == s.len(),
            forall|i: int| 0 <= i < n ==> dist_ok(#[trigger] s[i].dist),
            0 <= i <= n,
            score@.len() == i,
            key@.len() == i,
            forall|j: int| 0 <= j < i ==> #[trigger] score@[j] == spec_score(s[j]),
            forall|j: int| 0 <= j < i ==> #[trigger] key@[j] == spec_dist_key(s[j].dist),
        decreases n - i,
    {
        let c = cs[i];
        score.push(c.score());
        key.push(dist_key(c.dist));
        i = i + 1;
    }
    let mut ord: Vec<usize> = Vec::new();
    let mut i: usize = 0;
    while i < n
        invariant
            s == cs@,
            n == s.len(),
            score@.len() == n,
            key@.len() == n,
            forall|j: int| 0 <= j < n ==> #[trigger] score@[j] == spec_score(s[j]),
            forall|j: int| 0 <= j < n ==> #[trigger] key@[j] == spec_dist_key(s[j].dist),
            0 <= i <= n,
            ord@.len() == i,
            forall|j: int| 0 <= j < i ==> #[trigger] ord@.contains(j as usize),
            forall|q: int| 0 <= q < ord@.len() ==> #[trigger] ord@[q] < i,
            forall|a: int, b: int| 0 <= a < b < ord@.len() ==> ranks_before(s, ord@[a] as int, ord@[b] as int),
        decreases n - i,
    {
        let mut pos: usize = 0;
        while pos < ord.len() && !(score[i] > score[ord[pos]] || (score[i] == score[ord[pos]] && key[i] < key[ord[pos]]))
            invariant
                s == cs@,
                n == s.len(),
                score@.len() == n,
                key@.len() == n,
                forall|j: int| 0 <= j < n ==> #[trigger] score@[j] == spec_score(s[j]),
            forall|j: int| 0 <= j < n ==> #[trigger] key@[j] == spec_dist_key(s[j].dist),
                0 <= i < n,
                ord@.len() == i,
                0 <= pos <= ord@.len(),
                forall|q: int| 0 <= q < ord@.len() ==> #[trigger] ord@[q] < i,
                forall|q: int| 0 <= q < pos ==> ranks_before(s, #[trigger] ord@[q] as int, i as int),
            decreases ord@.len() - pos,
        {
            assert(score@[ord@[pos as int] as int] == spec_score(s[ord@[pos as int] as int]));
            assert(score@[i as int] == spec_score(s[i as int]));
            pos = pos + 1;
        }
        proof {
            if pos < ord@.len() {
                assert(score@[ord@[pos as int] as int] == spec_score(s[ord@[pos as int] as int]));
                assert(score@[i as int] == spec_score(s[i as int]));
                assert(ranks_before(s, i as int, ord@[pos as int] as int));
            }
        }
        let ghost before = ord@;
        ord.insert(pos, i);
        proof {
            assert(ord@ == before.insert(pos as int, i));
            assert forall|q: int| 0 <= q < ord@.len() implies #[trigger] ord@[q] < i + 1 by {
                if q < pos {
                    assert(ord@[q] == before[q]);
                } else if q > pos {
                    assert(ord@[q] == before[q - 1]);
                }
            }
            assert forall|j: int| 0 <= j < i + 1 implies #[trigger] ord@.contains(j as usize) by {
                if j < i {
                    assert(before.contains(j as usize));
                    let m = choose|m: int| 0 <= m < before.len() && before[m] == j as usize;
                    if m < pos {
                        assert(ord@[m] == j as usize);
                    } else {
                        assert(ord@[m + 1] == j as usize);
                    }
                } else {
                    assert(ord@[pos as int] == j as usize);
                }
            }
            assert forall|a: int, b: int| 0 <= a < b < ord@.len() implies ranks_before(
                s,
                ord@[a] as int,
                ord@[b] as int,
            ) by {
                if b < pos {
                    assert(ord@[a] == before[a] && ord@[b] == before[b]);
                } else if b == pos {
                    assert(ord@[a] == before[a]);
                    assert(ranks_before(s, before[a] as int, i as int));
                } else if a < pos {
                    assert(ord@[a] == before[a] && ord@[b] == before[b - 1]);
                    assert(ranks_before(s, before[a] as int, i as int));
                } else if a == pos {
                    assert(ord@[b] == before[b - 1]);
                    if b - 1 > pos {
                        assert(ranks_before(s, before[pos as int] as int, before[b - 1] as int));
                    }
                } else {
                    assert(ord@[a] == before[a - 1] && ord@[b] == before[b - 1]);
                }
            }
        }
        i = i + 1;
    }
    ord
}

// =====================================================================================
// Supply sources
// =====================================================================================

/// Where one unit of an auto-logistics demand comes from.
#[derive(Clone, Copy, PartialEq, Eq, Structural, Debug)]
pub enum Source {
    /// The ground item at this position in the ground list.
    Ground(usize),
    /// One unit out of the rack at this position in the rack list.
    Rack(usize),
}

/// Distance to a source as ranked: ground items as they are, rack stock one
/// tile further (racks act as reserves, loose items go first).
pub open spec fn source_dist(
    pos: TilePos,
    ground: Seq<(TilePos, i64)>,
    racks: Seq<(TilePos, StorageCell)>,
    s: Source,
) -> OctDist {
    match s {
        Source::Ground(i) => spec_octile_distance(pos, ground[i as int].0),
        Source::Rack(i) => {
            let d = spec_octile_distance(pos, racks[i as int].0);
            OctDist { straight: (d.straight + 1) as u64, diag: d.diag }
        },
    }
}

/// The source can serve the demand now: an item off cooldown, or a rack
/// holding the kind.
pub open spec fn source_usable(
    kind: ItemKind,
    ground: Seq<(TilePos, i64)>,
    racks: Seq<(TilePos, StorageCell)>,
    now: i64,
    s: Source,
) -> bool {
    match s {
        Source::Ground(i) => 0 <= i < ground.len() && ground[i as int].1 <= now,
        Source::Rack(i) => 0 <= i < racks.len() && racks[i as int].1.counts@[kind_index(kind)] > 0,
    }
}

/// Ground sources come before rack sources, each in list order.
pub open spec fn source_order(s: Source) -> (int, int) {
    match s {
        Source::Ground(i) => (0, i as int),
        Source::Rack(i) => (1, i as int),
    }
}

pub open spec fn source_earlier(a: Source, b: Source) -> bool {
    source_order(a).0 < source_order(b).0 || (source_order(a).0 == source_order(b).0 && source_order(a).1
        < source_order(b).1)
}

/// `s` is the best of the usable sources: none is nearer, and none at the
/// same distance comes earlier.
pub open spec fn best_of(
    pos: TilePos,
    kind: ItemKind,
    ground: Seq<(TilePos, i64)>,
    racks: Seq<(TilePos, StorageCell)>,
    now: i64,
    s: Source,
) -> bool {
    &&& source_usable(kind, ground, racks, now, s)
    &&& forall|t: Source|
        source_usable(kind, ground, racks, now, t) ==> spec_dist_key(#[trigger] source_dist(pos, ground, racks, t))
            > spec_dist_key(source_dist(pos, ground, racks, s)) || (spec_dist_key(source_dist(pos, ground, racks, t))
            == spec_dist_key(source_dist(pos, ground, racks, s)) && !source_earlier(t, s))
}

/// The best usable source for a demand, when there is one (it is unique:
/// see `lemma_best_unique`).
pub open spec fn spec_best_source(
    pos: TilePos,
    kind: ItemKind,
    ground: Seq<(TilePos, i64)>,
    racks: Seq<(TilePos, StorageCell)>,
    now: i64,
) -> Option<Source> {
    if exists|s: Source| best_of(pos, kind, ground, racks, now, s) {
        Some(choose|s: Source| best_of(pos, kind, ground, racks, now, s))
    } else {
        None
    }
}

/// Two best sources are the same source.
pub proof fn lemma_best_unique(
    pos: TilePos,
    kind: ItemKind,
    ground: Seq<(TilePos, i64)>,
    racks: Seq<(TilePos, StorageCell)>,
    now: i64,
    s1: Source,
    s2: Source,
)
    requires
        best_of(pos, kind, ground, racks, now, s1),
        best_of(pos, kind, ground, racks, now, s2),
    ensures
        s1 == s2,
{
    let _ = source_dist(pos, ground, racks, s1);
    let _ = source_dist(pos, ground, racks, s2);
    match (s1, s2) {
        (Source::Ground(a), Source::Ground(b)) => {},
        (Source::Rack(a), Source::Rack(b)) => {},
        _ => {},
    }
}

/// What `best_source` returns is the one best source.
pub proof fn lemma_best_source_spec(
    pos: TilePos,
    kind: ItemKind,
    ground: Seq<(TilePos, i64)>,
    racks: Seq<(TilePos, StorageCell)>,
    now: i64,
    r: Option<(OctDist, Source)>,
)
    requires
        r matches Some((d, s)) ==> best_of(pos, kind, ground, racks, now, s) && d == source_dist(pos, ground, racks, s),
        r is None ==> forall|t: Source| !#[trigger] source_usable(kind, ground, racks, now, t),
    ensures
        match r {
            Some((d, s)) => spec_best_source(pos, kind, ground, racks, now) == Some(s) && d == source_dist(
                pos,
                ground,
                racks,
                s,
            ),
            None => spec_best_source(pos, kind, ground, racks, now) is None,
        },
{
    match r {
        Some((d, s)) => {
            let c = choose|c: Source| best_of(pos, kind, ground, racks, now, c);
            lemma_best_unique(pos, kind, ground, racks, now, s, c);
        },
        None => {
            if exists|c: Source| best_of(pos, kind, ground, racks, now, c) {
                let c = choose|c: Source| best_of(pos, kind, ground, racks, now, c);
                assert(source_usable(kind, ground, racks, now, c));
            }
        },
    }
}

/// Nearest usable source for one demand of `kind` seen from `pos`: the
/// ground items of that kind (with their cooldown ends) first, then the
/// racks; the first source at the smallest distance wins.
pub fn best_source(
    pos: TilePos,
    kind: ItemKind,
    ground: &[(TilePos, i64)],
    racks: &[(TilePos, StorageCell)],
    now: i64,
) -> (r: Option<(OctDist, Source)>)
    ensures
        r matches Some((d, s)) ==> best_of(pos, kind, ground@, racks@, now, s) && d == source_dist(
            pos,
            ground@,
            racks@,
            s,
        ),
        r is None ==> forall|t: Source| !#[trigger] source_usable(kind, ground@, racks@, now, t),
{
    let ghost g = ground@;
    let ghost rk = racks@;
    let ghost ki = kind_index(kind);
    let mut best: Option<(OctDist, Source, u64)> = None;
    let mut i: usize = 0;
    while i < ground.len()
        invariant
            g == ground@,
            rk == racks@,
            0 <= i <= g.len(),
            match best {
                Some((d, s, k)) => {
                    &&& source_usable(kind, g, rk, now, s)
                    &&& s is Ground && source_order(s).1 < i
                    &&& d == source_dist(pos, g, rk, s)
                    &&& k == spec_dist_key(d)
                    &&& forall|j: int|
                        0 <= j < i && #[trigger] g[j].1 <= now ==> spec_dist_key(spec_octile_distance(pos, g[j].0)) > k
                            || (spec_dist_key(spec_octile_distance(pos, g[j].0)) == k && j >= source_order(s).1)
                },
                None => forall|j: int| 0 <= j < i ==> #[trigger] g[j].1 > now,
            },
        decreases g.len() - i,
    {
        let (p, cooled_until) = ground[i];
        if cooled_until <= now {
            proof {
                lemma_octile_small(pos, p);
            }
            let d = octile_distance(pos, p);
            let k = dist_key(d);
            let better = match &best {
                None => true,
                Some((_, _, bk)) => k < *bk,
            };
            if better {
                best = Some((d, Source::Ground(i), k));
            }
        }
        i = i + 1;
    }
    let mut i: usize = 0;
    while i < racks.len()
        invariant
            g == ground@,
            rk == racks@,
            ki == kind_index(kind),
            0 <= i <= rk.len(),
            match best {
                Some((d, s, k)) => {
                    &&& source_usable(kind, g, rk, now, s)
                    &&& d == source_dist(pos, g, rk, s)
                    &&& k == spec_dist_key(d)
                    &&& (s is Rack ==> source_order(s).1 < i)
                    &&& forall|j: int|
                        0 <= j < g.len() && #[trigger] g[j].1 <= now ==> spec_dist_key(spec_octile_distance(pos, g[j].0))
                            > k || (spec_dist_key(spec_octile_distance(pos, g[j].0)) == k && !source_earlier(
                            Source::Ground(j as usize),
                            s,
                        ))
                    &&& forall|j: int|
                        0 <= j < i && (#[trigger] rk[j]).1.counts@[ki] > 0 ==> spec_dist_key(
                            source_dist(pos, g, rk, Source::Rack(j as usize)),
                        ) > k || (spec_dist_key(source_dist(pos, g, rk, Source::Rack(j as usize))) == k && !source_earlier(
                            Source::Rack(j as usize),
                            s,
                        ))
                },
                None => (forall|j: int| 0 <= j < g.len() ==> #[trigger] g[j].1 > now) && forall|j: int|
                    0 <= j < i ==> (#[trigger] rk[j]).1.counts@[ki] == 0,
            },
        decreases rk.len() - i,
    {
        let p = racks[i].0;
        if racks[i].1.counts[kind.index()] > 0 {
            proof {
                lemma_octile_small(pos, p);
            }
            let d0 = octile_distance(pos, p);
            let d = OctDist { straight: d0.straight + 1, diag: d0.diag };
            let k = dist_key(d);
            let better = match &best {
                None => true,
                Some((_, _, bk)) => k < *bk,
            };
            if better {
                best = Some((d, Source::Rack(i), k));
            }
            proof {
                assert(d == source_dist(pos, g, rk, Source::Rack(i)));
            }
        }
        i = i + 1;
    }
    match best {
        Some((d, s, _)) => {
            proof {
                assert forall|t: Source|
                    source_usable(kind, g, rk, now, t) implies spec_dist_key(#[trigger] source_dist(pos, g, rk, t))
                        > spec_dist_key(source_dist(pos, g, rk, s)) || (spec_dist_key(source_dist(pos, g, rk, t))
                        == spec_dist_key(source_dist(pos, g, rk, s)) && !source_earlier(t, s)) by {
                    match t {
                        Source::Ground(j) => {
                            assert(g[j as int].1 <= now);
                        },
                        Source::Rack(j) => {
                            assert(rk[j as int].1.counts@[ki] > 0);
                        },
                    }
                }
            }
            let r = Some((d, s));
            assert(r matches Some((dd, ss)) && dd == d && ss == s);
            r
        },
        None => {
            proof {
                assert forall|t: Source| !#[trigger] source_usable(kind, g, rk, now, t) by {
                    match t {
                        Source::Ground(j) => {
                            if 0 <= j < g.len() {
                                assert(g[j as int].1 > now);
                            }
                        },
                        Source::Rack(j) => {
                            if 0 <= j < rk.len() {
                                assert(rk[j as int].1.counts@[ki] == 0);
                            }
                        },
                    }
                }
            }
            None
        },
    }
}

// =====================================================================================
// Destinations and job steps
// =====================================================================================

/// Whether a crew member standing on `pos` can interact with `foot`.
pub fn at_interaction(map: &ShipMap, pos: TilePos, foot: &Footprint) -> (r: bool)
    requires
        map.wf(),
        fp_ok(*foot),
    ensures
        r == interaction_seq(map, *foot).contains(pos),
{
    let tiles = interaction_tiles(map, foot);
    contains_pos(tiles.as_slice(), pos)
}

/// Nearest reachable rack among those that can take the item: racks are
/// tried by octile distance (ties in list order) and the first one with a
/// route wins. Returns its id and the route.
pub fn choose_rack(map: &ShipMap, from: TilePos, racks: &[(u64, TilePos)]) -> (r: Option<(u64, Vec<TilePos>)>)
    requires
        map.wf(),
    ensures
        ({
            let ps = racks@.map_values(|e: (u64, TilePos)| e.1);
            &&& r matches Some((id, p)) ==> exists|i: int|
                #[trigger] first_reached(map, from, ps, i, p@) && racks@[i].0 == id
            &&& r is None ==> forall|j: int| 0 <= j < racks@.len() ==> !#[trigger] reachable(map, from, ps[j])
        }),
{
    let mut ps: Vec<TilePos> = Vec::new();
    let mut i: usize = 0;
    while i < racks.len()
        invariant
            0 <= i <= racks@.len(),
            ps@ == racks@.map_values(|e: (u64, TilePos)| e.1).subrange(0, i as int),
        decreases racks@.len() - i,
    {
        ps.push(racks[i].1);
        i = i + 1;
        assert(ps@ =~= racks@.map_values(|e: (u64, TilePos)| e.1).subrange(0, i as int));
    }
    assert(ps@ =~= racks@.map_values(|e: (u64, TilePos)| e.1));
    match nearest_route(map, from, &ps) {
        Some((i, p)) => {
            let id = racks[i].0;
            proof {
                assert(first_reached(map, from, ps@, i as int, p@));
            }
            let r = Some((id, p));
            assert(r matches Some((a, q)) && a == id && q@ == p@);
            r
        },
        None => None,
    }
}

/// A hauler standing at `from` can reach the destination: always for
/// storage (validated at pickup); a blueprint or fabricator must still
/// exist (`foot` is its footprint) and have a reachable interaction tile.
pub open spec fn dest_ok(map: &ShipMap, from: TilePos, dest: HaulDest, foot: Option<Footprint>) -> bool {
    dest == HaulDest::Storage || (foot matches Some(f) && exists|i: int|
        0 <= i < interaction_seq(map, f).len() && #[trigger] reachable(map, from, interaction_seq(map, f)[i]))
}

/// Can a hauler standing at `from` reach the destination (see `dest_ok`)?
pub fn dest_reachable(map: &ShipMap, from: TilePos, dest: HaulDest, foot: Option<Footprint>) -> (r: bool)
    requires
        map.wf(),
        foot matches Some(f) ==> fp_ok(f),
    ensures
        r == dest_ok(map, from, dest, foot),
{
    match dest {
        HaulDest::Storage => true,
        _ => match foot {
            Some(f) => {
                let r = path_to_interaction(map, from, &f);
                proof {
                    if r is Some {
                        let p = r->0;
                        let i = choose|i: int| #[trigger] first_reached(map, from, interaction_seq(map, f), i, p@);
                        crate::path::lemma_reaches_reachable(map, from, p@, interaction_seq(map, f)[i]);
                    }
                }
                r.is_some()
            },
            None => false,
        },
    }
}

/// The `k`-th tile of the cargo hold used by the debug spawn tool:
/// columns 1..=10, each row 1..=5 in turn.
pub open spec fn hold_tile(k: int) -> TilePos {
    TilePos { x: (1 + k / 5) as i32, y: (1 + k % 5) as i32 }
}

/// Free hold tiles among the first `k`: walkable and not holding an item.
pub open spec fn hold_candidates(map: &ShipMap, occupied: Seq<TilePos>, k: int) -> Seq<TilePos>
    decreases k,
{
    if k <= 0 {
        Seq::empty()
    } else {
        let t = hold_tile(k - 1);
        hold_candidates(map, occupied, k - 1) + if map.spec_walkable(t) && !occupied.contains(t) {
            seq![t]
        } else {
            Seq::empty()
        }
    }
}

/// One xorshift round (shifts 13, 7, 17).
pub open spec fn xorshift(s: u64) -> u64 {
    let a = s ^ (s << 13u64);
    let b = a ^ (a >> 7u64);
    b ^ (b << 17u64)
}

/// A free tile of the cargo hold for the debug spawn tool, picked by an
/// xorshift of `clock_seed` (bits of the wall clock); `None` when the hold
/// is full.
pub fn random_cargo_tile(map: &ShipMap, occupied: &[TilePos], clock_seed: u64) -> (r: Option<TilePos>)
    requires
        map.wf(),
    ensures
        ({
            let c = hold_candidates(map, occupied@, 50);
            match r {
                None => c.len() == 0,
                Some(t) => c.len() > 0 && t == c[((xorshift(clock_seed | 1) as usize) % (c.len() as usize)) as int],
            }
        }),
{
    let mut cands: Vec<TilePos> = Vec::new();
    let mut k: i32 = 0;
    while k < 50
        invariant
            map.wf(),
            0 <= k <= 50,
            cands@ == hold_candidates(map, occupied@, k as int),
            cands@.len() <= k,
        decreases 50 - k,
    {
        let t = TilePos::new(1 + k / 5, 1 + k % 5);
        if map.is_walkable(t) && !crate::building::contains_pos(occupied, t) {
            cands.push(t);
        }
        k = k + 1;
    }
    if cands.len() == 0 {
        return None;
    }
    let mut seed = clock_seed | 1;
    seed = seed ^ (seed << 13u64);
    seed = seed ^ (seed >> 7u64);
    seed = seed ^ (seed << 17u64);
    let idx = (seed as usize) % cands.len();
    Some(cands[idx])
}

/// How claiming a haul from a source tile works out.
pub enum FetchPlan {
    /// Walk this route to the source.
    Go(Vec<TilePos>),
    /// The destination cannot be reached from the source (a sealed-off
    /// blueprint or fabricator): no claim.
    DestUnreachable,
    /// No route from the crew member to the source: no claim.
    NoRoute,
}

/// Plan the pickup leg of a haul from `src` to `dest` for a crew member on
/// `pos`: first the destination must be reachable from the source, then a
/// cheapest route to the source is taken.
pub fn plan_fetch(map: &ShipMap, pos: TilePos, src: TilePos, dest: HaulDest, foot: Option<Footprint>) -> (r: FetchPlan)
    requires
        map.wf(),
        foot matches Some(f) ==> fp_ok(f),
    ensures
        (r is DestUnreachable) <==> !dest_ok(map, src, dest, foot),
        (r is NoRoute) <==> (dest_ok(map, src, dest, foot) && !reachable(map, pos, src)),
        r matches FetchPlan::Go(p) ==> reaches(map, pos, p@, src) && cost_bound(
            map,
            Seq::empty(),
            pos,
            src,
            spec_path_cost(Some(pos), p@),
        ),
{
    if !dest_reachable(map, src, dest, foot) {
        return FetchPlan::DestUnreachable;
    }
    match route(map, pos, src) {
        Some(p) => {
            proof {
                crate::path::lemma_reaches_reachable(map, pos, p@, src);
            }
            FetchPlan::Go(p)
        },
        None => FetchPlan::NoRoute,
    }
}

/// Claim one `kind` from the rack on `rack_pos` for `dest`: when the rack
/// has one and the fetch can be planned, it leaves the rack and the route
/// to the rack comes back; otherwise the rack keeps its stock.
pub fn claim_rack_pull(
    map: &ShipMap,
    pos: TilePos,
    cell: &mut StorageCell,
    rack_pos: TilePos,
    kind: ItemKind,
    dest: HaulDest,
    foot: Option<Footprint>,
) -> (r: Option<Vec<TilePos>>)
    requires
        map.wf(),
        foot matches Some(f) ==> fp_ok(f),
    ensures
        final(cell).capacity == old(cell).capacity,
        r is Some <==> (old(cell).counts@[kind_index(kind)] > 0 && dest_ok(map, rack_pos, dest, foot) && reachable(
            map,
            pos,
            rack_pos,
        )),
        r matches Some(p) ==> reaches(map, pos, p@, rack_pos) && cost_bound(
            map,
            Seq::empty(),
            pos,
            rack_pos,
            spec_path_cost(Some(pos), p@),
        ),
        r is Some ==> final(cell).counts@ == old(cell).counts@.update(
            kind_index(kind),
            (old(cell).counts@[kind_index(kind)] - 1) as u32,
        ),
        r is None ==> final(cell).counts@ == old(cell).counts@,
{
    if cell.counts[kind.index()] == 0 {
        return None;
    }
    match plan_fetch(map, pos, rack_pos, dest, foot) {
        FetchPlan::Go(p) => {
            cell.take(kind);
            Some(p)
        },
        _ => None,
    }
}

/// Claim one finished `kind` from a fabricator's output: it is set down on
/// the first free drop tile around `origin` (avoiding `ground`) and the
/// route there comes back; when there is no such tile or no route the
/// output keeps it. Only that output count changes.
pub fn claim_output(
    map: &ShipMap,
    pos: TilePos,
    fab: &mut Fabricator,
    kind: ItemKind,
    origin: TilePos,
    ground: &[TilePos],
) -> (r: Option<(TilePos, Vec<TilePos>)>)
    requires
        map.wf(),
        i32::MIN + 3 <= origin.x <= i32::MAX - 3,
        i32::MIN + 3 <= origin.y <= i32::MAX - 3,
    ensures
        r is Some <==> (old(fab).output@[kind_index(kind)] > 0 && (drop_spot(map, ground@, origin, 3) matches Some(
            t,
        ) && reachable(map, pos, t))),
        r matches Some((t, p)) ==> drop_spot(map, ground@, origin, 3) == Some(t) && reaches(map, pos, p@, t)
            && cost_bound(map, Seq::empty(), pos, t, spec_path_cost(Some(pos), p@)),
        final(fab).input == old(fab).input,
        final(fab).order == old(fab).order,
        final(fab).active == old(fab).active,
        final(fab).progress == old(fab).progress,
        r is Some ==> final(fab).output@ == old(fab).output@.update(
            kind_index(kind),
            (old(fab).output@[kind_index(kind)] - 1) as u32,
        ),
        r is None ==> final(fab).output@ == old(fab).output@,
{
    let k = kind.index();
    if fab.output[k] == 0 {
        return None;
    }
    let tile = match find_drop_tile_ext(map, origin, ground) {
        Some(t) => t,
        None => return None,
    };
    match route(map, pos, tile) {
        Some(p) => {
            fab.output[k] = fab.output[k] - 1;
            Some((tile, p))
        },
        None => None,
    }
}

/// Run a job timer down by `dt`: the remaining time and whether it ran out.
pub fn timer_tick(timer: i64, dt: i64) -> (r: (i64, bool))
    requires
        dt >= 0,
    ensures
        r.0 == if timer - dt < i64::MIN { i64::MIN as int } else { timer - dt },
        r.1 == (timer - dt <= 0),
{
    if timer < i64::MIN + dt {
        (i64::MIN, true)
    } else {
        let t = timer - dt;
        (t, t <= 0)
    }
}

/// Work progress in parts per million: `1 − remaining / total`, clamped.
pub open spec fn spec_work_progress(job: WorkJob) -> int {
    let total = if job.total < 1 {
        1
    } else {
        job.total as int
    };
    if job.timer <= 0 {
        1_000_000
    } else if job.timer >= total {
        0
    } else {
        1_000_000 - (job.timer * 1_000_000) / total
    }
}

pub fn work_progress(job: &WorkJob) -> (r: u32)
    ensures
        r == spec_work_progress(*job),
        r <= 1_000_000,
{
    let total: i64 = if job.total < 1 {
        1
    } else {
        job.total
    };
    if job.timer <= 0 {
        1_000_000
    } else if job.timer >= total {
        0
    } else {
        let t = job.timer as i128;
        let tot = total as i128;
        let num = t * 1_000_000;
        let q = num / tot;
        assert(0 <= q < 1_000_000) by (nonlinear_arith)
            requires
                0 < t < tot,
                num == t * 1_000_000,
                q == num / tot,
        ;
        (1_000_000 - q) as u32
    }
}


/// A crew task works on blueprint `bp`: building it, or hauling material to it.
pub open spec fn targets_blueprint(t: CrewTask, bp: u64) -> bool {
    match t {
        CrewTask::Build(j) => j.target == bp,
        CrewTask::Haul(j) => j.dest == HaulDest::Blueprint(bp),
        _ => false,
    }
}

/// Positions `0..k` of `tasks` whose task works on blueprint `bp`, in order.
pub open spec fn blueprint_workers(tasks: Seq<CrewTask>, bp: u64, k: int) -> Seq<usize>
    decreases k,
{
    if k <= 0 {
        Seq::empty()
    } else if targets_blueprint(tasks[k - 1], bp) {
        blueprint_workers(tasks, bp, k - 1).push((k - 1) as usize)
    } else {
        blueprint_workers(tasks, bp, k - 1)
    }
}

/// What canceling a blueprint does.
pub struct BlueprintCancel {
    /// Positions (in the crew list) of the crew whose jobs end.
    pub ended: Vec<usize>,
    /// Materials already on site, with the tiles they drop on.
    pub refunds: Vec<(TilePos, ItemKind)>,
}

/// Cancel a blueprint: every build job on it and every haul supplying it
/// ends, and the materials already delivered drop around its origin tile.
pub fn cancel_blueprint(map: &ShipMap, blueprint: u64, bp: &Blueprint, tasks: &[CrewTask]) -> (r: BlueprintCancel)
    requires
        map.wf(),
        i32::MIN + 3 <= bp.foot.x <= i32::MAX - 3,
        i32::MIN + 3 <= bp.foot.y <= i32::MAX - 3,
    ensures
        r.ended@ == blueprint_workers(tasks@, blueprint, tasks@.len() as int),
        r.refunds@ == refund_drops(map, foot_origin(bp.foot), Seq::empty(), item_list(bp.delivered@)),
{
    let mut ended: Vec<usize> = Vec::new();
    let mut i: usize = 0;
    while i < tasks.len()
        invariant
            0 <= i <= tasks@.len(),
            ended@ == blueprint_workers(tasks@, blueprint, i as int),
        decreases tasks@.len() - i,
    {
        let hit = match &tasks[i] {
            CrewTask::Build(j) => j.target == blueprint,
            CrewTask::Haul(j) => match j.dest {
                HaulDest::Blueprint(b) => b == blueprint,
                _ => false,
            },
            _ => false,
        };
        if hit {
            ended.push(i);
        }
        i = i + 1;
    }
    let kinds = item_vec(bp.delivered);
    let none: Vec<TilePos> = Vec::new();
    proof {
        assert(none@ =~= Seq::<TilePos>::empty());
    }
    let refunds = drop_refunds(map, TilePos::new(bp.foot.x, bp.foot.y), none.as_slice(), &kinds);
    BlueprintCancel { ended, refunds }
}

} // verus!
