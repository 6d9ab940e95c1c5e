//! Fixed-point points and the exact integer geometry the rest of the crate
//! builds on: squared distances, cross and dot products, integer square roots.
use vstd::prelude::*;

verus! {

/// Fixed-point units per field unit.
pub const SCALE: i64 = 100_000;

/// Largest absolute coordinate a position may have (about 10.7 km in field
/// units); it keeps every product below the limits of `i128`/`u128`.
pub const COORD_LIMIT: i64 = 1_073_741_824;

/// A point (or a displacement) in fixed-point units.
#[derive(Clone, Copy, Debug, PartialEq, Eq, Structural)]
pub struct Point {
    pub x: i64,
    pub y: i64,
}

/// Whether a coordinate lies in the range that positions may take.
pub open spec fn coord_in_range(c: int) -> bool {
    -COORD_LIMIT <= c <= COORD_LIMIT
}

impl Point {
    /// A position: both coordinates within `COORD_LIMIT`.
    pub open spec fn in_range(self) -> bool {
        coord_in_range(self.x as int) && coord_in_range(self.y as int)
    }

    /// Builds a point from its coordinates.
    pub fn new(x: i64, y: i64) -> (r: Point)
        ensures
            r.x == x,
            r.y == y,
    {
        Point { x, y }
    }

    /// Builds a position, saturating each coordinate into the allowed range.
    pub fn clamped(x: i64, y: i64) -> (r: Point)
        ensures
            r.in_range(),
            r.x == clamp_coord(x as int),
            r.y == clamp_coord(y as int),
    {
        Point { x: clamp_i64(x), y: clamp_i64(y) }
    }
}

/// A coordinate saturated into `[-COORD_LIMIT, COORD_LIMIT]`.
pub open spec fn clamp_coord(c: int) -> int {
    if c < -COORD_LIMIT {
        -COORD_LIMIT as int
    } else if c > COORD_LIMIT {
        COORD_LIMIT as int
    } else {
        c
    }
}

fn clamp_i64(c: i64) -> (r: i64)
    ensures
        r == clamp_coord(c as int),
{
    if c < -COORD_LIMIT {
        -COORD_LIMIT
    } else if c > COORD_LIMIT {
        COORD_LIMIT
    } else {
        c
    }
}

/// Squared Euclidean distance between two points.
pub open spec fn dist_sq(a: Point, b: Point) -> int {
    (a.x - b.x) * (a.x - b.x) + (a.y - b.y) * (a.y - b.y)
}

/// Cross product of `a - c` and `b - c`.
pub open spec fn cross_at(a: Point, b: Point, c: Point) -> int {
    (a.x - c.x) * (b.y - c.y) - (a.y - c.y) * (b.x - c.x)
}

/// Dot product of `a - c` and `b - c`.
pub open spec fn dot_at(a: Point, b: Point, c: Point) -> int {
    (a.x - c.x) * (b.x - c.x) + (a.y - c.y) * (b.y - c.y)
}

proof fn lemma_square_bound(d: int)
    requires
        -2 * COORD_LIMIT <= d <= 2 * COORD_LIMIT,
    ensures
        0 <= d * d <= 4 * COORD_LIMIT * COORD_LIMIT,
{
    assert(0 <= d * d <= 4 * COORD_LIMIT * COORD_LIMIT) by (nonlinear_arith)
        requires
            -2 * COORD_LIMIT <= d <= 2 * COORD_LIMIT,
    ;
}

proof fn lemma_product_bound(d: int, e: int)
    requires
        -2 * COORD_LIMIT <= d <= 2 * COORD_LIMIT,
        -2 * COORD_LIMIT <= e <= 2 * COORD_LIMIT,
    ensures
        -4 * COORD_LIMIT * COORD_LIMIT <= d * e <= 4 * COORD_LIMIT * COORD_LIMIT,
{
    assert(-4 * COORD_LIMIT * COORD_LIMIT <= d * e <= 4 * COORD_LIMIT * COORD_LIMIT)
        by (nonlinear_arith)
        requires
            -2 * COORD_LIMIT <= d <= 2 * COORD_LIMIT,
            -2 * COORD_LIMIT <= e <= 2 * COORD_LIMIT,
    ;
}

/// Squared distance between two positions, computed exactly.
pub fn distance_sq(a: Point, b: Point) -> (r: u128)
    requires
        a.in_range(),
        b.in_range(),
    ensures
        r == dist_sq(a, b),
        r <= 8 * COORD_LIMIT * COORD_LIMIT,
{
    let dx = a.x as i128 - b.x as i128;
    let dy = a.y as i128 - b.y as i128;
    proof {
        lemma_square_bound(dx as int);
        lemma_square_bound(dy as int);
    }
    (dx * dx + dy * dy) as u128
}

/// Cross product of `a - c` and `b - c`, computed exactly.
pub fn cross(a: Point, b: Point, c: Point) -> (r: i128)
    requires
        a.in_range(),
        b.in_range(),
        c.in_range(),
    ensures
        r == cross_at(a, b, c),
{
    let (ax, ay) = (a.x as i128 - c.x as i128, a.y as i128 - c.y as i128);
    let (bx, by) = (b.x as i128 - c.x as i128, b.y as i128 - c.y as i128);
    proof {
        lemma_product_bound(ax as int, by as int);
        lemma_product_bound(ay as int, bx as int);
    }
    ax * by - ay * bx
}

/// Dot product of `a - c` and `b - c`, computed exactly.
pub fn dot(a: Point, b: Point, c: Point) -> (r: i128)
    requires
        a.in_range(),
        b.in_range(),
        c.in_range(),
    ensures
        r == dot_at(a, b, c),
{
    let (ax, ay) = (a.x as i128 - c.x as i128, a.y as i128 - c.y as i128);
    let (bx, by) = (b.x as i128 - c.x as i128, b.y as i128 - c.y as i128);
    proof {
        lemma_product_bound(ax as int, bx as int);
        lemma_product_bound(ay as int, by as int);
    }
    ax * bx + ay * by
}

/// Largest value whose square fits the argument of the square roots below.
pub const SQRT_INPUT_LIMIT: u128 = 0x4000_0000_0000_0000_0000_0000_0000_0000;

/// `r` is the integer square root of `n`, rounded down.
pub open spec fn is_floor_sqrt(n: int, r: int) -> bool {
    0 <= r && r * r <= n < (r + 1) * (r + 1)
}

/// `r` is the square root of `n` rounded to the nearest integer. No integer
/// has a square root exactly halfway between two integers, so this is
/// `(r - 1/2)^2 < n < (r + 1/2)^2` over the integers.
pub open spec fn is_round_sqrt(n: int, r: int) -> bool {
    0 <= r && (r == 0 || r * r - r < n) && n <= r * r + r
}

/// `r` is the square root of `n` rounded up.
pub open spec fn is_ceil_sqrt(n: int, r: int) -> bool {
    0 <= r && n <= r * r && (r == 0 || (r - 1) * (r - 1) < n)
}

/// Integer square root, rounded down, by bisection.
pub fn floor_sqrt(n: u128) -> (r: u128)
    requires
        n < SQRT_INPUT_LIMIT,
    ensures
        is_floor_sqrt(n as int, r as int),
        r < 0x8000_0000_0000_0000,
{
    let mut lo: u128 = 0;
    let mut hi: u128 = 0x8000_0000_0000_0000;
    assert(hi * hi == SQRT_INPUT_LIMIT);
    while hi - lo > 1
        invariant
            lo < hi <= 0x8000_0000_0000_0000,
            lo * lo <= n,
            n < hi * hi,
        decreases hi - lo,
    {
        let mid = lo + (hi - lo) / 2;
        assert(mid * mid <= 0x8000_0000_0000_0000 * 0x8000_0000_0000_0000) by (nonlinear_arith)
            requires
                mid < 0x8000_0000_0000_0000,
        ;
        if mid * mid <= n {
            lo = mid;
        } else {
            hi = mid;
        }
    }
    assert(hi == lo + 1);
    lo
}

/// Integer square root rounded to the nearest integer.
pub fn round_sqrt(n: u128) -> (r: u128)
    requires
        n < SQRT_INPUT_LIMIT,
    ensures
        is_round_sqrt(n as int, r as int),
        r <= 0x8000_0000_0000_0000,
{
    let s = floor_sqrt(n);
    if n - s * s <= s {
        s
    } else {
        assert((s + 1) * (s + 1) == s * s + 2 * s + 1) by (nonlinear_arith);
        s + 1
    }
}

/// Every non-negative integer has a square root rounded up.
pub proof fn lemma_ceil_sqrt_exists(n: int) -> (r: int)
    requires
        n >= 0,
    ensures
        is_ceil_sqrt(n, r),
    decreases n,
{
    if n == 0 {
        0
    } else {
        let s = lemma_ceil_sqrt_exists(n - 1);
        if n <= s * s {
            s
        } else {
            assert(n <= (s + 1) * (s + 1)) by (nonlinear_arith)
                requires
                    n - 1 <= s * s,
                    s >= 0,
            ;
            s + 1
        }
    }
}

/// Integer square root rounded up.
pub fn ceil_sqrt(n: u128) -> (r: u128)
    requires
        n < SQRT_INPUT_LIMIT,
    ensures
        is_ceil_sqrt(n as int, r as int),
        r <= 0x8000_0000_0000_0000,
{
    let s = floor_sqrt(n);
    if s * s == n {
        assert(s == 0 || (s - 1) * (s - 1) < s * s) by (nonlinear_arith);
        s
    } else {
        s + 1
    }
}

/// Euclidean distance between two positions, rounded to the nearest unit.
pub fn distance_rounded(a: Point, b: Point) -> (r: u128)
    requires
        a.in_range(),
        b.in_range(),
    ensures
        is_round_sqrt(dist_sq(a, b), r as int),
        r < 0x1_0000_0000,
{
    let d = distance_sq(a, b);
    let r = round_sqrt(d);
    proof {
        assert(r <= 0xffff_ffff) by (nonlinear_arith)
            requires
                r == 0 || r * r - r < d,
                d <= 8 * COORD_LIMIT * COORD_LIMIT,
                COORD_LIMIT == 1_073_741_824,
                r >= 0,
        ;
    }
    r
}

/// `c` is the index of the node nearest to `p`; among equally near nodes it
/// is the one with the lowest index.
pub open spec fn is_nearest(nodes: Seq<Point>, p: Point, c: int) -> bool {
    &&& 0 <= c < nodes.len()
    &&& forall|j: int| 0 <= j < nodes.len() ==> dist_sq(nodes[c], p) <= dist_sq(#[trigger] nodes[j], p)
    &&& forall|j: int| 0 <= j < c ==> dist_sq(nodes[c], p) < dist_sq(#[trigger] nodes[j], p)
}

/// Index of the node nearest to `p`, the lowest such index on ties.
pub fn nearest_node(nodes: &Vec<Point>, p: Point) -> (c: usize)
    requires
        nodes@.len() > 0,
        p.in_range(),
        forall|k: int| 0 <= k < nodes@.len() ==> (#[trigger] nodes@[k]).in_range(),
    ensures
        is_nearest(nodes@, p, c as int),
{
    let mut best: usize = 0;
    let mut best_d = distance_sq(nodes[0], p);
    let mut k: usize = 1;
    while k < nodes.len()
        invariant
            1 <= k <= nodes@.len(),
            p.in_range(),
            forall|j: int| 0 <= j < nodes@.len() ==> (#[trigger] nodes@[j]).in_range(),
            best < k,
            best_d == dist_sq(nodes@[best as int], p),
            forall|j: int| 0 <= j < k ==> best_d <= dist_sq(#[trigger] nodes@[j], p),
            forall|j: int| 0 <= j < best ==> best_d < dist_sq(#[trigger] nodes@[j], p),
        decreases nodes@.len() - k,
    {
        let d = distance_sq(nodes[k], p);
        if d < best_d {
            best = k;
            best_d = d;
        }
        k += 1;
    }
    best
}

/// The nearest node is unique.
pub proof fn lemma_nearest_unique(nodes: Seq<Point>, p: Point, c: int, d: int)
    requires
        is_nearest(nodes, p, c),
        is_nearest(nodes, p, d),
    ensures
        c == d,
{
    if c < d {
        assert(dist_sq(nodes[d], p) < dist_sq(nodes[c], p));
    } else if d < c {
        assert(dist_sq(nodes[c], p) < dist_sq(nodes[d], p));
    }
}

/// Two points at squared distance zero are the same point.
pub proof fn lemma_zero_distance(a: Point, b: Point)
    requires
        dist_sq(a, b) <= 0,
    ensures
        a == b,
{
    let dx = a.x - b.x;
    let dy = a.y - b.y;
    assert(dx * dx >= 0 && dy * dy >= 0) by (nonlinear_arith);
    assert(dx == 0) by (nonlinear_arith)
        requires
            dx * dx <= 0,
    ;
    assert(dy == 0) by (nonlinear_arith)
        requires
            dy * dy <= 0,
    ;
}

} // verus!
