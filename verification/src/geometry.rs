//! Fixed-point planar geometry.
//!
//! Positions are integer pairs in milli-units (one world unit = 1000
//! milli-units).  All distance tests are exact: comparisons are made on
//! squared distances or cross products, and Euclidean lengths use the
//! integer square-root floor.

use vstd::prelude::*;

verus! {

/// Largest coordinate magnitude (in milli-units) the library works with.
/// Every square or product of coordinates below this bound fits in `i128`.
pub const COORD_LIMIT: i64 = 1_000_000_000;

/// A planar position or displacement in milli-units.
#[derive(Clone, Copy, PartialEq, Eq, Structural, Debug, Hash)]
pub struct Point2 {
    pub x: i64,
    pub y: i64,
}

impl Point2 {
    pub fn new(x: i64, y: i64) -> (p: Point2)
        ensures
            p.x == x && p.y == y,
    {
        Point2 { x, y }
    }

    pub open spec fn spec_origin() -> Point2 {
        Point2 { x: 0, y: 0 }
    }

    pub fn origin() -> (p: Point2)
        ensures
            p == Point2::spec_origin(),
    {
        Point2 { x: 0, y: 0 }
    }
}

/// Positions the library accepts: both coordinates within `COORD_LIMIT`.
pub open spec fn valid_pos(p: Point2) -> bool {
    -COORD_LIMIT <= p.x <= COORD_LIMIT && -COORD_LIMIT <= p.y <= COORD_LIMIT
}

/// Squared Euclidean distance between `a` and `b`, exactly.
pub open spec fn dist_sq(a: Point2, b: Point2) -> int {
    (a.x - b.x) * (a.x - b.x) + (a.y - b.y) * (a.y - b.y)
}

/// Exact squared distance; `i128` holds it for any two valid positions.
pub fn dist_sq_exec(a: Point2, b: Point2) -> (r: i128)
    requires
        valid_pos(a),
        valid_pos(b),
    ensures
        r == dist_sq(a, b),
{
    let dx: i128 = a.x as i128 - b.x as i128;
    let dy: i128 = a.y as i128 - b.y as i128;
    proof {
        assert(0 <= dx * dx <= 4_000_000_000_000_000_000 && 0 <= dy * dy
            <= 4_000_000_000_000_000_000) by (nonlinear_arith)
            requires
                -2_000_000_000 <= dx <= 2_000_000_000,
                -2_000_000_000 <= dy <= 2_000_000_000,
        ;
    }
    dx * dx + dy * dy
}

/// Squared distance does not depend on the order of its endpoints.
pub proof fn lemma_dist_sq_sym(a: Point2, b: Point2)
    ensures
        dist_sq(a, b) == dist_sq(b, a),
{
    assert((a.x - b.x) * (a.x - b.x) == (b.x - a.x) * (b.x - a.x)) by (nonlinear_arith);
    assert((a.y - b.y) * (a.y - b.y) == (b.y - a.y) * (b.y - a.y)) by (nonlinear_arith);
}

/// The squared distance between valid positions is at most 8e18, so it
/// fits in a `u64`.
pub proof fn lemma_dist_sq_bound(a: Point2, b: Point2)
    requires
        valid_pos(a),
        valid_pos(b),
    ensures
        0 <= dist_sq(a, b) <= 8_000_000_000_000_000_000,
{
    let dx = a.x - b.x;
    let dy = a.y - b.y;
    assert(0 <= dx * dx <= 4_000_000_000_000_000_000 && 0 <= dy * dy
        <= 4_000_000_000_000_000_000) by (nonlinear_arith)
        requires
            -2_000_000_000 <= dx <= 2_000_000_000,
            -2_000_000_000 <= dy <= 2_000_000_000,
    ;
}

/// `r` is the floor of the square root of `v`.
pub open spec fn is_sqrt_floor(v: int, r: int) -> bool {
    0 <= r && r * r <= v && v < (r + 1) * (r + 1)
}

/// The floor of the square root of `v` (meaningful for `v >= 0`).
pub open spec fn sqrt_floor(v: int) -> int {
    choose|r: int| is_sqrt_floor(v, r)
}

/// Two square-root floors of the same value coincide.
pub proof fn lemma_sqrt_floor_unique(v: int, r1: int, r2: int)
    requires
        is_sqrt_floor(v, r1),
        is_sqrt_floor(v, r2),
    ensures
        r1 == r2,
{
    if r1 < r2 {
        assert(false) by (nonlinear_arith)
            requires
                0 <= r1 < r2,
                r2 * r2 <= v,
                v < (r1 + 1) * (r1 + 1),
        ;
    }
    if r2 < r1 {
        assert(false) by (nonlinear_arith)
            requires
                0 <= r2 < r1,
                r1 * r1 <= v,
                v < (r2 + 1) * (r2 + 1),
        ;
    }
}

/// A witness makes `sqrt_floor` definite.
pub proof fn lemma_sqrt_floor_is(v: int, r: int)
    requires
        is_sqrt_floor(v, r),
    ensures
        sqrt_floor(v) == r,
{
    let w = choose|s: int| is_sqrt_floor(v, s);
    assert(is_sqrt_floor(v, w));
    lemma_sqrt_floor_unique(v, w, r);
}

/// Every nonnegative value has a square-root floor, so `sqrt_floor`
/// denotes it.
pub proof fn lemma_sqrt_floor_exists(v: int)
    requires
        v >= 0,
    ensures
        is_sqrt_floor(v, sqrt_floor(v)),
    decreases v,
{
    if v == 0 {
        assert(is_sqrt_floor(0, 0));
    } else {
        lemma_sqrt_floor_exists(v - 1);
        let r = sqrt_floor(v - 1);
        if (r + 1) * (r + 1) <= v {
            assert(is_sqrt_floor(v, r + 1)) by (nonlinear_arith)
                requires
                    0 <= r,
                    (r + 1) * (r + 1) <= v,
                    v - 1 < (r + 1) * (r + 1),
            ;
        } else {
            assert(is_sqrt_floor(v, r));
        }
    }
}

/// The square-root floor of a value at most 8e18 is at most 3e9.
pub proof fn lemma_sqrt_floor_small(v: int)
    requires
        0 <= v <= 8_000_000_000_000_000_000,
    ensures
        0 <= sqrt_floor(v) <= 3_000_000_000,
{
    lemma_sqrt_floor_exists(v);
    let r = sqrt_floor(v);
    assert(r <= 3_000_000_000) by (nonlinear_arith)
        requires
            0 <= r,
            r * r <= 8_000_000_000_000_000_000,
    ;
}

/// Integer square root: the floor of the square root of `v`.
pub fn isqrt64(v: u64) -> (r: u64)
    ensures
        is_sqrt_floor(v as int, r as int),
        r as int == sqrt_floor(v as int),
{
    let mut lo: u64 = 0;
    let mut hi: u64 = 4_294_967_296;
    proof {
        assert((hi as int) * (hi as int) > v as int) by (nonlinear_arith)
            requires
                hi == 4_294_967_296u64,
                v <= u64::MAX,
        ;
    }
    while hi - lo > 1
        invariant
            0 <= lo < hi <= 4_294_967_296,
            (lo as int) * (lo as int) <= v as int,
            (v as int) < (hi as int) * (hi as int),
        decreases hi - lo,
    {
        let mid: u64 = lo + (hi - lo) / 2;
        proof {
            assert(0 <= (mid as int) * (mid as int) <= 0x1_0000_0000_0000_0000)
                by (nonlinear_arith)
                requires
                    0 <= mid <= 4_294_967_296u64,
            ;
        }
        if (mid as u128) * (mid as u128) <= v as u128 {
            lo = mid;
        } else {
            hi = mid;
        }
    }
    proof {
        lemma_sqrt_floor_is(v as int, lo as int);
    }
    lo
}

/// Euclidean distance between two valid positions, rounded down to a
/// whole number of milli-units.
pub fn euclid_dist(a: Point2, b: Point2) -> (r: u64)
    requires
        valid_pos(a),
        valid_pos(b),
    ensures
        r as int == sqrt_floor(dist_sq(a, b)),
        is_sqrt_floor(dist_sq(a, b), r as int),
        r <= 3_000_000_000,
{
    proof {
        lemma_dist_sq_bound(a, b);
    }
    let dsq: i128 = dist_sq_exec(a, b);
    let r = isqrt64(dsq as u64);
    proof {
        assert(r as int * r as int <= 8_000_000_000_000_000_000);
        assert(r <= 3_000_000_000) by (nonlinear_arith)
            requires
                r as int * r as int <= 8_000_000_000_000_000_000,
                r >= 0,
        ;
        lemma_sqrt_floor_is(dist_sq(a, b), r as int);
    }
    r
}

/// Coordinate of the point `f` percent of the way from `b` toward `a`:
/// the exact value `(a*f + b*(100-f)) / 100`, rounded toward minus
/// infinity.
pub open spec fn lerp_coord(a: int, b: int, f: int) -> int {
    (a * f + b * (100 - f)) / 100
}

/// Interpolates between two valid positions at `f` percent (`0..=100`),
/// one coordinate at a time, rounding down.
pub fn lerp_point(a: Point2, b: Point2, f: u64) -> (p: Point2)
    requires
        valid_pos(a),
        valid_pos(b),
        f <= 100,
    ensures
        p.x == lerp_coord(a.x as int, b.x as int, f as int),
        p.y == lerp_coord(a.y as int, b.y as int, f as int),
        valid_pos(p),
{
    let x = lerp_one(a.x, b.x, f);
    let y = lerp_one(a.y, b.y, f);
    Point2 { x, y }
}

fn lerp_one(a: i64, b: i64, f: u64) -> (r: i64)
    requires
        -COORD_LIMIT <= a <= COORD_LIMIT,
        -COORD_LIMIT <= b <= COORD_LIMIT,
        f <= 100,
    ensures
        r == lerp_coord(a as int, b as int, f as int),
        -COORD_LIMIT <= r <= COORD_LIMIT,
{
    let au: u64 = (a + COORD_LIMIT) as u64;
    let bu: u64 = (b + COORD_LIMIT) as u64;
    proof {
        assert(au * f <= 2_000_000_000 * (f as int) && bu * (100 - f) <= 2_000_000_000 * ((100
            - f) as int) && au as int * f as int + bu as int * (100 - f) as int == a * f + b * (
        100 - f) + 100 * COORD_LIMIT) by (nonlinear_arith)
            requires
                au == a + COORD_LIMIT,
                bu == b + COORD_LIMIT,
                0 <= au <= 2_000_000_000,
                0 <= bu <= 2_000_000_000,
                0 <= f <= 100,
                COORD_LIMIT == 1_000_000_000,
        ;
        assert(2_000_000_000 * (f as int) + 2_000_000_000 * ((100 - f) as int)
            == 200_000_000_000);
    }
    let n: u64 = au * f + bu * (100 - f);
    let q: u64 = n / 100;
    proof {
        let m = a * f + b * (100 - f);
        assert(n == m + 100 * COORD_LIMIT);
        assert(-100_000_000_000 <= m <= 100_000_000_000);
        vstd::arithmetic::div_mod::lemma_hoist_over_denominator(m, COORD_LIMIT as int, 100);
        assert(m / 100 + COORD_LIMIT == (m + COORD_LIMIT * 100) / 100);
        assert(m + COORD_LIMIT * 100 == n);
        assert(q == m / 100 + COORD_LIMIT);
        assert(-COORD_LIMIT <= m / 100 <= COORD_LIMIT) by {
            vstd::arithmetic::div_mod::lemma_div_is_ordered(-100_000_000_000, m, 100);
            vstd::arithmetic::div_mod::lemma_div_is_ordered(m, 100_000_000_000, 100);
        }
    }
    (q as i64) - COORD_LIMIT
}

/// Exact test of whether point `c` lies more than `t` milli-units from
/// the segment between `a` and `b`.  The projection parameter of `c` onto
/// the carrying line is `dot/den`; before the segment's start the distance
/// is to `a`, past its end to `b`, and in between it is
/// `|cross| / sqrt(den)`, compared here squared so everything is integral.
/// When `a == b` the segment is the single point `a`.
pub open spec fn seg_dist_gt(a: Point2, b: Point2, c: Point2, t: int) -> bool {
    let dot = (c.x - a.x) * (b.x - a.x) + (c.y - a.y) * (b.y - a.y);
    let den = dist_sq(a, b);
    if dot <= 0 {
        dist_sq(a, c) > t * t
    } else if dot >= den {
        dist_sq(b, c) > t * t
    } else {
        let cr = (a.x - c.x) * (b.y - c.y) - (a.y - c.y) * (b.x - c.x);
        cr * cr > t * t * den
    }
}

/// Runtime version of [`seg_dist_gt`]: does the distance from `c` to the
/// segment `a`–`b` exceed `t`?
pub fn dist_to_segment_exceeds(a: Point2, b: Point2, c: Point2, t: i64) -> (r: bool)
    requires
        valid_pos(a),
        valid_pos(b),
        valid_pos(c),
        0 <= t <= 1_000_000,
    ensures
        r == seg_dist_gt(a, b, c, t as int),
{
    let ax = a.x as i128;
    let ay = a.y as i128;
    let bx = b.x as i128;
    let by = b.y as i128;
    let cx = c.x as i128;
    let cy = c.y as i128;
    proof {
        lemma_seg_products_bounded(a, b, c, t as int);
    }
    let dot: i128 = (cx - ax) * (bx - ax) + (cy - ay) * (by - ay);
    let den: i128 = dist_sq_exec(a, b);
    if dot <= 0 {
        let dsq = dist_sq_exec(a, c);
        dsq > (t as i128) * (t as i128)
    } else if dot >= den {
        let dsq = dist_sq_exec(b, c);
        dsq > (t as i128) * (t as i128)
    } else {
        let cr: i128 = (ax - cx) * (by - cy) - (ay - cy) * (bx - cx);
        proof {
            assert(cr == (a.x - c.x) * (b.y - c.y) - (a.y - c.y) * (b.x - c.x));
            assert(0 <= cr * cr <= 0x40000000_00000000_00000000_00000000)
                by (nonlinear_arith)
                requires
                    -8_000_000_000_000_000_000 <= cr <= 8_000_000_000_000_000_000,
            ;
        }
        cr * cr > (t as i128) * (t as i128) * den
    }
}

/// All the products formed by the segment-distance test stay far inside
/// the `i128` range for valid positions and a threshold up to 1e6.
proof fn lemma_seg_products_bounded(a: Point2, b: Point2, c: Point2, t: int)
    requires
        valid_pos(a),
        valid_pos(b),
        valid_pos(c),
        0 <= t <= 1_000_000,
    ensures
        -4_000_000_000_000_000_000 <= (c.x - a.x) * (b.x - a.x) <= 4_000_000_000_000_000_000,
        -4_000_000_000_000_000_000 <= (c.y - a.y) * (b.y - a.y) <= 4_000_000_000_000_000_000,
        -4_000_000_000_000_000_000 <= (a.x - c.x) * (b.y - c.y) <= 4_000_000_000_000_000_000,
        -4_000_000_000_000_000_000 <= (a.y - c.y) * (b.x - c.x) <= 4_000_000_000_000_000_000,
        0 <= t * t <= 1_000_000_000_000,
        -8_000_000_000_000_000_000 <= (a.x - c.x) * (b.y - c.y) - (a.y - c.y) * (b.x - c.x)
            <= 8_000_000_000_000_000_000,
        ((a.x - c.x) * (b.y - c.y) - (a.y - c.y) * (b.x - c.x)) * ((a.x - c.x) * (b.y - c.y) - (
        a.y - c.y) * (b.x - c.x)) <= 0x40000000_00000000_00000000_00000000,
        0 <= t * t * dist_sq(a, b) <= 0x40000000_00000000_00000000_00000000,
    decreases 0int,
{
    lemma_dist_sq_bound(a, b);
    let cr = (a.x - c.x) * (b.y - c.y) - (a.y - c.y) * (b.x - c.x);
    assert(-4_000_000_000_000_000_000 <= (c.x - a.x) * (b.x - a.x) <= 4_000_000_000_000_000_000
        && -4_000_000_000_000_000_000 <= (c.y - a.y) * (b.y - a.y) <= 4_000_000_000_000_000_000
        && -4_000_000_000_000_000_000 <= (a.x - c.x) * (b.y - c.y) <= 4_000_000_000_000_000_000
        && -4_000_000_000_000_000_000 <= (a.y - c.y) * (b.x - c.x)
        <= 4_000_000_000_000_000_000) by (nonlinear_arith)
        requires
            valid_pos(a),
            valid_pos(b),
            valid_pos(c),
            COORD_LIMIT == 1_000_000_000,
    ;
    assert(cr * cr <= 0x40000000_00000000_00000000_00000000) by (nonlinear_arith)
        requires
            -8_000_000_000_000_000_000 <= cr <= 8_000_000_000_000_000_000,
    ;
    assert(0 <= t * t <= 1_000_000_000_000) by (nonlinear_arith)
        requires
            0 <= t <= 1_000_000,
    ;
    assert(0 <= t * t * dist_sq(a, b) <= 0x40000000_00000000_00000000_00000000)
        by (nonlinear_arith)
        requires
            0 <= t * t <= 1_000_000_000_000,
            0 <= dist_sq(a, b) <= 8_000_000_000_000_000_000,
    ;
}

/// One coordinate of a length-1000 vector: `delta * 1000 / len` with the
/// division done on magnitudes, so rounding is always toward zero.
pub open spec fn norm_scaled(delta: int, len: int) -> int {
    if len <= 0 {
        0
    } else if delta >= 0 {
        (delta * 1000) / len
    } else {
        -(((-delta) * 1000) / len)
    }
}

/// The direction from `from` to `to` as a fixed-point vector of length
/// about 1000 milli-units; the zero vector when the points coincide.
pub fn unit_toward(from: Point2, to: Point2) -> (d: Point2)
    requires
        valid_pos(from),
        valid_pos(to),
    ensures
        d.x == norm_scaled(to.x - from.x, sqrt_floor(dist_sq(from, to))),
        d.y == norm_scaled(to.y - from.y, sqrt_floor(dist_sq(from, to))),
        from == to ==> d == Point2::spec_origin(),
{
    let len: u64 = euclid_dist(from, to);
    if len == 0 {
        Point2 { x: 0, y: 0 }
    } else {
        let x = norm_one(to.x - from.x, len);
        let y = norm_one(to.y - from.y, len);
        proof {
            if from == to {
                assert(dist_sq(from, to) == 0) by (nonlinear_arith)
                    requires
                        from.x == to.x,
                        from.y == to.y,
                ;
                assert(len as int * len as int >= 1) by (nonlinear_arith)
                    requires
                        len >= 1,
                ;
            }
        }
        Point2 { x, y }
    }
}

fn norm_one(delta: i64, len: u64) -> (r: i64)
    requires
        -2_000_000_000 <= delta <= 2_000_000_000,
        0 < len <= 3_000_000_000,
    ensures
        r == norm_scaled(delta as int, len as int),
{
    if delta >= 0 {
        let m: u64 = (delta as u64) * 1000 / len;
        proof {
            vstd::arithmetic::div_mod::lemma_div_nonincreasing(delta * 1000, len as int);
        }
        m as i64
    } else {
        let m: u64 = ((-delta) as u64) * 1000 / len;
        proof {
            vstd::arithmetic::div_mod::lemma_div_nonincreasing((-(delta as int)) * 1000, len as int);
            vstd::arithmetic::div_mod::lemma_div_pos_is_pos((-(delta as int)) * 1000, len as int);
        }
        -(m as i64)
    }
}

} // verus!
