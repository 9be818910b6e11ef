use vstd::prelude::*;

verus! {

/// Largest magnitude of a coordinate. Coordinates are kept in thousandths of a
/// unit, so that motion at whole units per second over whole milliseconds is exact.
pub const COORD_LIMIT: i64 = 10_000_000_000_000;

/// Thousandths of a unit in one unit.
pub const MILLI: i64 = 1000;

pub open spec fn in_range(v: int) -> bool {
    -COORD_LIMIT <= v <= COORD_LIMIT
}

pub open spec fn clamp_spec(v: int) -> int {
    if v > COORD_LIMIT {
        COORD_LIMIT as int
    } else if v < -COORD_LIMIT {
        -COORD_LIMIT
    } else {
        v
    }
}

/// Brings a coordinate back into the range the world can hold.
pub fn clamp_coord(v: i128) -> (r: i64)
    ensures
        r == clamp_spec(v as int),
        in_range(r as int),
{
    if v > COORD_LIMIT as i128 {
        COORD_LIMIT
    } else if v < -(COORD_LIMIT as i128) {
        -COORD_LIMIT
    } else {
        v as i64
    }
}

/// An axis-aligned box given by its centre and its half extents.
#[derive(Clone, Copy, Debug, PartialEq, Eq, Structural)]
pub struct Aabb {
    pub x: i64,
    pub y: i64,
    pub half_w: i64,
    pub half_h: i64,
}

impl Aabb {
    pub open spec fn valid(self) -> bool {
        in_range(self.x as int) && in_range(self.y as int) && 0 <= self.half_w <= COORD_LIMIT
            && 0 <= self.half_h <= COORD_LIMIT
    }
}

/// Two boxes overlap when their open interiors meet on both axes.
pub open spec fn overlap_spec(a: Aabb, b: Aabb) -> bool {
    &&& a.x - a.half_w < b.x + b.half_w
    &&& a.x + a.half_w > b.x - b.half_w
    &&& a.y - a.half_h < b.y + b.half_h
    &&& a.y + a.half_h > b.y - b.half_h
}

pub fn overlaps(a: Aabb, b: Aabb) -> (r: bool)
    requires
        a.valid(),
        b.valid(),
    ensures
        r == overlap_spec(a, b),
{
    a.x - a.half_w < b.x + b.half_w && a.x + a.half_w > b.x - b.half_w && a.y - a.half_h < b.y
        + b.half_h && a.y + a.half_h > b.y - b.half_h
}

/// Half of a sprite's footprint once scaled: `size` in whole units, `scale_permille`
/// in thousandths, the result in thousandths of a unit.
pub open spec fn half_extent_spec(size: u32, scale_permille: u32) -> int {
    (size as int * scale_permille as int) / 2
}

pub fn half_extent(size: u32, scale_permille: u32) -> (r: i64)
    requires
        scale_permille <= 1000,
    ensures
        r == half_extent_spec(size, scale_permille),
        0 <= r <= COORD_LIMIT,
{
    assert(0 <= size as int * scale_permille as int <= 4_294_967_295_000) by (nonlinear_arith)
        requires
            scale_permille <= 1000,
            size <= 4_294_967_295u32,
    ;
    let p: u64 = size as u64 * scale_permille as u64;
    (p / 2) as i64
}

pub open spec fn is_floor_sqrt(n: int, r: int) -> bool {
    0 <= r && r * r <= n < (r + 1) * (r + 1)
}

/// The whole part of the square root of `n`.
pub open spec fn floor_sqrt(n: nat) -> int {
    choose|r: int| is_floor_sqrt(n as int, r)
}

proof fn lemma_sqrt_unique(n: int, r: int, s: int)
    requires
        is_floor_sqrt(n, r),
        is_floor_sqrt(n, s),
    ensures
        r == s,
{
    if r < s {
        assert((r + 1) * (r + 1) <= s * s) by (nonlinear_arith)
            requires
                0 <= r < s,
        ;
    } else if s < r {
        assert((s + 1) * (s + 1) <= r * r) by (nonlinear_arith)
            requires
                0 <= s < r,
        ;
    }
}

proof fn lemma_sqrt_exists(n: nat)
    ensures
        is_floor_sqrt(n as int, floor_sqrt(n)),
    decreases n,
{
    if n == 0 {
        assert(is_floor_sqrt(0, 0));
    } else {
        lemma_sqrt_exists((n - 1) as nat);
        let r = floor_sqrt((n - 1) as nat);
        if (r + 1) * (r + 1) <= n {
            assert(n < (r + 2) * (r + 2)) by (nonlinear_arith)
                requires
                    n - 1 < (r + 1) * (r + 1),
                    r >= 0,
            ;
            assert(is_floor_sqrt(n as int, r + 1));
        } else {
            assert(is_floor_sqrt(n as int, r));
        }
    }
}

proof fn lemma_floor_sqrt_is(n: nat, r: int)
    requires
        is_floor_sqrt(n as int, r),
    ensures
        floor_sqrt(n) == r,
{
    let s = floor_sqrt(n);
    assert(is_floor_sqrt(n as int, s));
    lemma_sqrt_unique(n as int, r, s);
}

/// Whole part of the square root, by bisection.
pub fn isqrt(n: u128) -> (r: u128)
    ensures
        r == floor_sqrt(n as nat),
        r < 0x1_0000_0000_0000_0000,
{
    let mut lo: u128 = 0;
    let mut hi: u128 = 0x1_0000_0000_0000_0000;
    assert(n < hi * hi) by (nonlinear_arith)
        requires
            hi == 0x1_0000_0000_0000_0000u128,
            n <= u128::MAX,
    ;
    while hi - lo > 1
        invariant
            lo < hi <= 0x1_0000_0000_0000_0000,
            lo * lo <= n,
            n < hi * hi,
        decreases hi - lo,
    {
        let mid: u128 = lo + (hi - lo) / 2;
        assert(mid * mid <= u128::MAX) by (nonlinear_arith)
            requires
                mid < 0x1_0000_0000_0000_0000u128,
        ;
        if mid * mid <= n {
            lo = mid;
        } else {
            hi = mid;
        }
    }
    assert(hi == lo + 1);
    proof {
        lemma_floor_sqrt_is(n as nat, lo as int);
    }
    lo
}

/// Where one axis of a rate-limited approach lands: the offset `d = org - dst` is
/// shrunk by `step / dist`, rounding toward the origin, then clamped so that the
/// target is never passed.
pub open spec fn approach_axis(org: int, dst: int, step: int, dist: int) -> int {
    let d = org - dst;
    let q = if d >= 0 {
        (d * step) / dist
    } else {
        (-d * step) / dist
    };
    if d > 0 {
        if org - q > dst {
            org - q
        } else {
            dst
        }
    } else {
        if org + q < dst {
            org + q
        } else {
            dst
        }
    }
}

/// The point reached from `(x, y)` when moving toward `(tx, ty)` by at most
/// `max_dist`; a zero distance gives a zero step.
pub open spec fn approach_spec(x: int, y: int, tx: int, ty: int, max_dist: int) -> (int, int) {
    let dx = x - tx;
    let dy = y - ty;
    let dist = floor_sqrt((dx * dx + dy * dy) as nat);
    if dist == 0 {
        (x, y)
    } else {
        let step = if max_dist < dist {
            max_dist
        } else {
            dist
        };
        (approach_axis(x, tx, step, dist), approach_axis(y, ty, step, dist))
    }
}

/// Moves one axis; `step <= dist` and `|org - dst| < 2 * COORD_LIMIT + 1`.
fn approach_axis_exec(org: i64, dst: i64, step: u128, dist: u128) -> (r: i64)
    requires
        in_range(org as int),
        in_range(dst as int),
        0 < dist < 0x1_0000_0000_0000_0000,
        step <= dist,
    ensures
        r == approach_axis(org as int, dst as int, step as int, dist as int),
        in_range(r as int),
{
    let d: i128 = org as i128 - dst as i128;
    let mag: u128 = if d >= 0 {
        d as u128
    } else {
        (-d) as u128
    };
    assert(mag * step <= u128::MAX) by (nonlinear_arith)
        requires
            mag <= 20_000_000_000_000,
            step < 0x1_0000_0000_0000_0000u128,
    ;
    let q: u128 = mag * step / dist;
    assert(q <= mag) by (nonlinear_arith)
        requires
            q as int == (mag as int * step as int) / (dist as int),
            step <= dist,
            dist > 0,
    ;
    if d > 0 {
        let c: i128 = org as i128 - q as i128;
        if c > dst as i128 {
            c as i64
        } else {
            dst
        }
    } else {
        let c: i128 = org as i128 + q as i128;
        if c < dst as i128 {
            c as i64
        } else {
            dst
        }
    }
}

/// Steps from `(x, y)` toward `(tx, ty)` by at most `max_dist`, never passing the
/// target on either axis.
///
/// Each axis is clamped against its own candidate: the y axis is compared with
/// the y candidate, not with the x one.
pub fn approach(x: i64, y: i64, tx: i64, ty: i64, max_dist: u64) -> (r: (i64, i64))
    requires
        in_range(x as int),
        in_range(y as int),
        in_range(tx as int),
        in_range(ty as int),
    ensures
        (r.0 as int, r.1 as int) == approach_spec(
            x as int,
            y as int,
            tx as int,
            ty as int,
            max_dist as int,
        ),
        in_range(r.0 as int),
        in_range(r.1 as int),
{
    let dx: i128 = x as i128 - tx as i128;
    let dy: i128 = y as i128 - ty as i128;
    assert(0 <= dx * dx <= 400_000_000_000_000_000_000_000_000 && 0 <= dy * dy
        <= 400_000_000_000_000_000_000_000_000) by (nonlinear_arith)
        requires
            -20_000_000_000_000 <= dx <= 20_000_000_000_000,
            -20_000_000_000_000 <= dy <= 20_000_000_000_000,
    ;
    let sq: u128 = (dx * dx + dy * dy) as u128;
    let dist: u128 = isqrt(sq);
    if dist == 0 {
        (x, y)
    } else {
        let step: u128 = if (max_dist as u128) < dist {
            max_dist as u128
        } else {
            dist
        };
        let nx = approach_axis_exec(x, tx, step, dist);
        let ny = approach_axis_exec(y, ty, step, dist);
        (nx, ny)
    }
}

/// An approach never passes the target: on each axis the result lies between
/// the start and the target.
pub proof fn lemma_approach_never_overshoots(x: int, y: int, tx: int, ty: int, max_dist: int)
    requires
        max_dist >= 0,
    ensures
        ({
            let r = approach_spec(x, y, tx, ty, max_dist);
            &&& (x <= r.0 <= tx || tx <= r.0 <= x)
            &&& (y <= r.1 <= ty || ty <= r.1 <= y)
        }),
{
    let dx = x - tx;
    let dy = y - ty;
    let n = (dx * dx + dy * dy) as nat;
    lemma_sqrt_exists(n);
    let dist = floor_sqrt(n);
    if dist != 0 {
        let step = if max_dist < dist {
            max_dist
        } else {
            dist
        };
        lemma_axis_between(x, tx, step, dist);
        lemma_axis_between(y, ty, step, dist);
    }
}

proof fn lemma_axis_between(org: int, dst: int, step: int, dist: int)
    requires
        step >= 0,
        dist > 0,
    ensures
        org <= approach_axis(org, dst, step, dist) <= dst || dst <= approach_axis(
            org,
            dst,
            step,
            dist,
        ) <= org,
{
    let d = org - dst;
    if d >= 0 {
        assert((d * step) / dist >= 0) by (nonlinear_arith)
            requires
                d >= 0,
                step >= 0,
                dist > 0,
        ;
    } else {
        assert((-d * step) / dist >= 0) by (nonlinear_arith)
            requires
                d < 0,
                step >= 0,
                dist > 0,
        ;
    }
}

} // verus!
