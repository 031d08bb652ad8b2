//! Exact octile and Manhattan distances.
//!
//! The world-space octile distance between two tiles is
//! `max(dx,dy) + (√2 − 1)·min(dx,dy)`. Every such value has the form
//! `s + √2·d` with whole `s, d ≥ 0`; this module keeps distances in that
//! form and compares and truncates them exactly with integer arithmetic, so
//! job choice and "nearest tile" ordering never depend on rounding.

use crate::map::TilePos;
use vstd::prelude::*;

verus! {

/// The distance `straight + √2·diag`.
#[derive(Clone, Copy, PartialEq, Eq, Structural, Debug)]
pub struct OctDist {
    pub straight: u64,
    pub diag: u64,
}

/// `⌊√n⌋`.
pub open spec fn is_isqrt(n: int, r: int) -> bool {
    0 <= r && r * r <= n < (r + 1) * (r + 1)
}

/// `⌊a.s + √2·a.d⌋ == f`.
pub open spec fn is_dist_floor(a: OctDist, f: int) -> bool {
    is_isqrt(2 * a.diag * a.diag, f - a.straight)
}

pub open spec fn abs_diff(a: int, b: int) -> int {
    if a >= b {
        a - b
    } else {
        b - a
    }
}

/// The octile distance between two tiles.
pub open spec fn spec_octile_distance(a: TilePos, b: TilePos) -> OctDist {
    let dx = abs_diff(a.x as int, b.x as int);
    let dy = abs_diff(a.y as int, b.y as int);
    let mx = if dx >= dy { dx } else { dy };
    let mn = if dx >= dy { dy } else { dx };
    OctDist { straight: (mx - mn) as u64, diag: mn as u64 }
}

/// Approximate world-space octile distance between two tiles, exactly
/// represented: `max(dx,dy) + (√2 − 1)·min(dx,dy)`.
pub fn octile_distance(a: TilePos, b: TilePos) -> (r: OctDist)
    ensures
        r == spec_octile_distance(a, b),
{
    let dx: u64 = if a.x >= b.x { (a.x as i64 - b.x as i64) as u64 } else { (b.x as i64 - a.x as i64) as u64 };
    let dy: u64 = if a.y >= b.y { (a.y as i64 - b.y as i64) as u64 } else { (b.y as i64 - a.y as i64) as u64 };
    if dx >= dy {
        OctDist { straight: dx - dy, diag: dy }
    } else {
        OctDist { straight: dy - dx, diag: dx }
    }
}

/// The Manhattan distance `|dx| + |dy|` between two tiles.
pub open spec fn spec_manhattan(a: TilePos, b: TilePos) -> int {
    abs_diff(a.x as int, b.x as int) + abs_diff(a.y as int, b.y as int)
}

/// The Manhattan distance between two tiles, as a distance with no
/// diagonal part.
pub fn manhattan_distance(a: TilePos, b: TilePos) -> (r: OctDist)
    ensures
        r.straight == spec_manhattan(a, b),
        r.diag == 0,
{
    let dx: u64 = if a.x >= b.x { (a.x as i64 - b.x as i64) as u64 } else { (b.x as i64 - a.x as i64) as u64 };
    let dy: u64 = if a.y >= b.y { (a.y as i64 - b.y as i64) as u64 } else { (b.y as i64 - a.y as i64) as u64 };
    OctDist { straight: dx + dy, diag: 0 }
}

/// `⌊d⌋` of a distance.
pub fn floor(a: OctDist) -> (r: u64)
    requires
        a.diag < 0x1_0000_0000,
        a.straight < 0x1_0000_0000,
    ensures
        is_dist_floor(a, r as int),
{
    let d = a.diag as u128;
    assert(d * d < 0x1_0000_0000_0000_0000) by (nonlinear_arith)
        requires
            d < 0x1_0000_0000,
    ;
    let dd: u128 = d * d;
    let sq: u128 = 2 * dd;
    assert(sq == 2 * a.diag * a.diag) by (nonlinear_arith)
        requires
            sq == 2 * dd,
            dd == d * d,
            d == a.diag,
    ;
    let r = isqrt_wide(sq);
    assert(r <= 0x2_0000_0000) by (nonlinear_arith)
        requires
            r * r <= sq,
            sq < 0x4_0000_0000_0000_0000,
            r >= 0,
    ;
    a.straight + r
}

/// `⌊√n⌋` of a wide number, by binary search.
fn isqrt_wide(n: u128) -> (r: u64)
    requires
        n < 0x4000_0000_0000_0000_0000_0000_0000_0000,
    ensures
        is_isqrt(n as int, r as int),
{
    let mut lo: u128 = 0;
    let mut hi: u128 = 0x8000_0000_0000_0000;
    assert(hi * hi > n) by (nonlinear_arith)
        requires
            hi == 0x8000_0000_0000_0000,
            n < 0x4000_0000_0000_0000_0000_0000_0000_0000,
    ;
    while hi - lo > 1
        invariant
            lo < hi <= 0x8000_0000_0000_0000,
            lo * lo <= n,
            n < hi * hi,
        decreases hi - lo,
    {
        let mid = lo + (hi - lo) / 2;
        assert(mid * mid <= 0x4000_0000_0000_0000_0000_0000_0000_0000) by (nonlinear_arith)
            requires
                mid <= 0x8000_0000_0000_0000,
        ;
        if mid * mid <= n {
            lo = mid;
        } else {
            hi = mid;
        }
    }
    assert(hi == lo + 1);
    lo as u64
}

/// `⌊√n⌋` for `n >= 0`.
pub closed spec fn spec_isqrt(n: int) -> int {
    choose|r: int| is_isqrt(n, r)
}

/// `spec_isqrt` is the floor square root.
pub proof fn lemma_spec_isqrt(n: int, r: int)
    requires
        is_isqrt(n, r),
    ensures
        spec_isqrt(n) == r,
{
    let c = choose|c: int| is_isqrt(n, c);
    lemma_isqrt_unique(n, c, r);
}

/// The floor square root is unique.
pub proof fn lemma_isqrt_unique(n: int, r1: int, r2: int)
    requires
        is_isqrt(n, r1),
        is_isqrt(n, r2),
    ensures
        r1 == r2,
{
    if r1 < r2 {
        assert((r1 + 1) * (r1 + 1) <= r2 * r2) by (nonlinear_arith)
            requires
                0 <= r1 < r2,
        ;
    } else if r2 < r1 {
        assert((r2 + 1) * (r2 + 1) <= r1 * r1) by (nonlinear_arith)
            requires
                0 <= r2 < r1,
        ;
    }
}

/// Every `n >= 0` has a floor square root.
pub proof fn lemma_isqrt_exists(n: int)
    requires
        n >= 0,
    ensures
        is_isqrt(n, spec_isqrt(n)),
        spec_isqrt(n) >= 0,
    decreases n,
{
    if n == 0 {
        assert(is_isqrt(0, 0));
        lemma_spec_isqrt(0, 0);
    } else {
        lemma_isqrt_exists(n - 1);
        let r = spec_isqrt(n - 1);
        if (r + 1) * (r + 1) <= n {
            assert((r + 1) * (r + 1) == n);
            assert(n < (r + 2) * (r + 2)) by (nonlinear_arith)
                requires
                    (r + 1) * (r + 1) == n,
                    r >= 0,
            ;
            lemma_spec_isqrt(n, r + 1);
        } else {
            lemma_spec_isqrt(n, r);
        }
    }
}

/// The whole part of a distance is never negative.
pub proof fn lemma_floor_nonneg(a: OctDist)
    ensures
        a.straight + spec_isqrt(2 * a.diag * a.diag) >= 0,
{
    assert(2 * a.diag * a.diag >= 0) by (nonlinear_arith);
    lemma_isqrt_exists(2 * a.diag * a.diag);
}

/// Resolution of distance keys: 1/1024 of a tile.
pub const KEY_SCALE: u64 = 1024;

/// `⌊1024·(s + √2·d)⌋`: the distance in 1/1024-tile units, rounded down.
/// Keys order distances as the distances themselves do, to within 1/1024
/// of a tile, with whole-number ties.
pub open spec fn spec_dist_key(a: OctDist) -> int {
    1024 * a.straight + spec_isqrt(2 * 1024 * 1024 * a.diag * a.diag)
}

/// The distance key of `a`.
pub fn dist_key(a: OctDist) -> (r: u64)
    requires
        a.diag < 0x1_0000_0000,
        a.straight <= 0x1_0000_0000,
    ensures
        r == spec_dist_key(a),
{
    let d = a.diag as u128;
    assert(d * d < 0x1_0000_0000_0000_0000) by (nonlinear_arith)
        requires
            d < 0x1_0000_0000,
    ;
    let dd: u128 = d * d;
    let n: u128 = 2097152 * dd;
    assert(n == 2 * 1024 * 1024 * a.diag * a.diag) by (nonlinear_arith)
        requires
            n == 2097152 * dd,
            dd == d * d,
            d == a.diag,
    ;
    let s = isqrt_wide(n);
    proof {
        lemma_spec_isqrt(n as int, s as int);
        assert(s <= 0x1_0000_0000_0000) by (nonlinear_arith)
            requires
                s * s <= n,
                n < 0x80_0000_0000_0000_0000_0000,
        ;
    }
    a.straight * KEY_SCALE + s
}

/// Octile offsets between `i32` coordinates are below 2^32.
pub proof fn lemma_octile_small(a: TilePos, b: TilePos)
    ensures
        spec_octile_distance(a, b).diag < 0x1_0000_0000,
        spec_octile_distance(a, b).straight < 0x1_0000_0000,
{
}

} // verus!
