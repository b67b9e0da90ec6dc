//! Points, distances, and the 24 axis-aligned cube rotations.

use vstd::prelude::*;

verus! {

/// Largest coordinate magnitude a raw scan point may have.  Chosen so that a
/// squared Euclidean distance of two such points always fits in an `i64`:
/// the differences are at most `2 * MAX_COORD`, so the sum of the three
/// squares is at most `12 * MAX_COORD^2 = 3 * 2^60 < i64::MAX`.
pub const MAX_COORD: i64 = 0x2000_0000;

/// Largest coordinate magnitude a point of an already-fixed (re-anchored)
/// report may have.  Fixing a chain of at most `MAX_REPORTS` reports grows
/// coordinates by at most `2 * MAX_COORD` per step, which stays below this.
pub const FIXED_LIMIT: i64 = 0x2000_0000_0000;

/// Largest number of reports the fusion controller accepts in one run.
pub const MAX_REPORTS: usize = 0x8000;

/// An exact integer position in a scan.
#[derive(Clone, Copy, PartialEq, Eq, Structural, Debug)]
pub struct Point {
    pub x: i64,
    pub y: i64,
    pub z: i64,
}

/// The point with the given mathematical coordinates, truncated into `i64`.
/// All contracts keep coordinates far away from the truncation boundary, so
/// wherever this appears it denotes the exact mathematical point.
pub open spec fn pt(x: int, y: int, z: int) -> Point {
    Point { x: x as i64, y: y as i64, z: z as i64 }
}

/// Every coordinate of `p` has magnitude at most `b`.
pub open spec fn within(p: Point, b: int) -> bool {
    &&& -b <= p.x as int <= b
    &&& -b <= p.y as int <= b
    &&& -b <= p.z as int <= b
}

/// Every point of `r` is `within` the bound `b`.
pub open spec fn report_within(r: Seq<Point>, b: int) -> bool {
    forall|k: int| 0 <= k < r.len() ==> within(#[trigger] r[k], b)
}

pub open spec fn abs_int(a: int) -> int {
    if a < 0 {
        -a
    } else {
        a
    }
}

/// Squared Euclidean distance between two points.
pub open spec fn spec_dist(u: Point, v: Point) -> int {
    let dx = u.x - v.x;
    let dy = u.y - v.y;
    let dz = u.z - v.z;
    dx * dx + dy * dy + dz * dz
}

/// Manhattan distance between two points.
pub open spec fn spec_manhattan(u: Point, v: Point) -> int {
    abs_int(u.x - v.x) + abs_int(u.y - v.y) + abs_int(u.z - v.z)
}

/// Image of `p` under rotation number `r` of the fixed 24-element table of
/// proper (determinant +1) axis-aligned rotations.
pub open spec fn spec_rotate(r: int, p: Point) -> Point {
    let x = p.x as int;
    let y = p.y as int;
    let z = p.z as int;
    if r == 0 {
        pt(x, y, z)
    } else if r == 1 {
        pt(x, -z, y)
    } else if r == 2 {
        pt(x, -y, -z)
    } else if r == 3 {
        pt(x, z, -y)
    } else if r == 4 {
        pt(-x, z, y)
    } else if r == 5 {
        pt(-x, -y, z)
    } else if r == 6 {
        pt(-x, -z, -y)
    } else if r == 7 {
        pt(-x, y, -z)
    } else if r == 8 {
        pt(y, z, x)
    } else if r == 9 {
        pt(y, -x, z)
    } else if r == 10 {
        pt(y, -z, -x)
    } else if r == 11 {
        pt(y, x, -z)
    } else if r == 12 {
        pt(-y, x, z)
    } else if r == 13 {
        pt(-y, -z, x)
    } else if r == 14 {
        pt(-y, -x, -z)
    } else if r == 15 {
        pt(-y, z, -x)
    } else if r == 16 {
        pt(z, x, y)
    } else if r == 17 {
        pt(z, -y, x)
    } else if r == 18 {
        pt(z, -x, -y)
    } else if r == 19 {
        pt(z, y, -x)
    } else if r == 20 {
        pt(-z, y, x)
    } else if r == 21 {
        pt(-z, -x, y)
    } else if r == 22 {
        pt(-z, -y, -x)
    } else {
        pt(-z, x, -y)
    }
}

/// Index of the rotation that undoes rotation number `r`.
pub open spec fn spec_inverse(r: int) -> int {
    if r == 0 {
        0
    } else if r == 1 {
        3
    } else if r == 2 {
        2
    } else if r == 3 {
        1
    } else if r == 4 {
        4
    } else if r == 5 {
        5
    } else if r == 6 {
        6
    } else if r == 7 {
        7
    } else if r == 8 {
        16
    } else if r == 9 {
        12
    } else if r == 10 {
        23
    } else if r == 11 {
        11
    } else if r == 12 {
        9
    } else if r == 13 {
        18
    } else if r == 14 {
        14
    } else if r == 15 {
        21
    } else if r == 16 {
        8
    } else if r == 17 {
        17
    } else if r == 18 {
        13
    } else if r == 19 {
        20
    } else if r == 20 {
        19
    } else if r == 21 {
        15
    } else if r == 22 {
        22
    } else {
        10
    }
}

/// `p` translated by `off`.
pub open spec fn spec_translate(p: Point, off: Point) -> Point {
    pt(p.x + off.x, p.y + off.y, p.z + off.z)
}

/// Componentwise difference `u - v`.
pub open spec fn spec_sub(u: Point, v: Point) -> Point {
    pt(u.x - v.x, u.y - v.y, u.z - v.z)
}

/// No coordinate of `p` is `i64::MIN`, so each can be negated exactly.
pub open spec fn negatable(p: Point) -> bool {
    &&& p.x != i64::MIN
    &&& p.y != i64::MIN
    &&& p.z != i64::MIN
}

/// Squared Euclidean distance between two points, used to group pairs of
/// points of a report regardless of the pair's orientation.
pub fn dist(u: &Point, v: &Point) -> (r: i64)
    requires
        within(*u, MAX_COORD as int),
        within(*v, MAX_COORD as int),
    ensures
        r == spec_dist(*u, *v),
{
    let dx = u.x - v.x;
    let dy = u.y - v.y;
    let dz = u.z - v.z;
    proof {
        assert(dx * dx <= 4 * (MAX_COORD as int) * (MAX_COORD as int) && dx * dx >= 0)
            by (nonlinear_arith)
            requires -2 * (MAX_COORD as int) <= dx <= 2 * (MAX_COORD as int);
        assert(dy * dy <= 4 * (MAX_COORD as int) * (MAX_COORD as int) && dy * dy >= 0)
            by (nonlinear_arith)
            requires -2 * (MAX_COORD as int) <= dy <= 2 * (MAX_COORD as int);
        assert(dz * dz <= 4 * (MAX_COORD as int) * (MAX_COORD as int) && dz * dz >= 0)
            by (nonlinear_arith)
            requires -2 * (MAX_COORD as int) <= dz <= 2 * (MAX_COORD as int);
    }
    dx * dx + dy * dy + dz * dz
}

/// Manhattan distance between two points.
pub fn manhattan_distance(u: &Point, v: &Point) -> (r: i64)
    requires
        within(*u, FIXED_LIMIT as int),
        within(*v, FIXED_LIMIT as int),
    ensures
        r == spec_manhattan(*u, *v),
        r >= 0,
{
    let dx = u.x - v.x;
    let dy = u.y - v.y;
    let dz = u.z - v.z;
    let ax = if dx < 0 { -dx } else { dx };
    let ay = if dy < 0 { -dy } else { dy };
    let az = if dz < 0 { -dz } else { dz };
    ax + ay + az
}

/// Applies rotation number `r` of the 24-rotation table to `p`.
pub fn rotate(r: u8, p: Point) -> (q: Point)
    requires
        r < 24,
        negatable(p),
    ensures
        q == spec_rotate(r as int, p),
{
    match r {
        0 => Point { x: p.x, y: p.y, z: p.z },
        1 => Point { x: p.x, y: -p.z, z: p.y },
        2 => Point { x: p.x, y: -p.y, z: -p.z },
        3 => Point { x: p.x, y: p.z, z: -p.y },
        4 => Point { x: -p.x, y: p.z, z: p.y },
        5 => Point { x: -p.x, y: -p.y, z: p.z },
        6 => Point { x: -p.x, y: -p.z, z: -p.y },
        7 => Point { x: -p.x, y: p.y, z: -p.z },
        8 => Point { x: p.y, y: p.z, z: p.x },
        9 => Point { x: p.y, y: -p.x, z: p.z },
        10 => Point { x: p.y, y: -p.z, z: -p.x },
        11 => Point { x: p.y, y: p.x, z: -p.z },
        12 => Point { x: -p.y, y: p.x, z: p.z },
        13 => Point { x: -p.y, y: -p.z, z: p.x },
        14 => Point { x: -p.y, y: -p.x, z: -p.z },
        15 => Point { x: -p.y, y: p.z, z: -p.x },
        16 => Point { x: p.z, y: p.x, z: p.y },
        17 => Point { x: p.z, y: -p.y, z: p.x },
        18 => Point { x: p.z, y: -p.x, z: -p.y },
        19 => Point { x: p.z, y: p.y, z: -p.x },
        20 => Point { x: -p.z, y: p.y, z: p.x },
        21 => Point { x: -p.z, y: -p.x, z: p.y },
        22 => Point { x: -p.z, y: -p.y, z: -p.x },
        _ => Point { x: -p.z, y: p.x, z: -p.y },
    }
}

/// `p + off`, exact.
pub fn translate(p: Point, off: Point) -> (q: Point)
    requires
        i64::MIN <= p.x as int + off.x as int <= i64::MAX,
        i64::MIN <= p.y as int + off.y as int <= i64::MAX,
        i64::MIN <= p.z as int + off.z as int <= i64::MAX,
    ensures
        q == spec_translate(p, off),
{
    Point { x: p.x + off.x, y: p.y + off.y, z: p.z + off.z }
}

/// `u - v`, exact.
pub fn point_sub(u: Point, v: Point) -> (q: Point)
    requires
        i64::MIN <= u.x as int - v.x as int <= i64::MAX,
        i64::MIN <= u.y as int - v.y as int <= i64::MAX,
        i64::MIN <= u.z as int - v.z as int <= i64::MAX,
    ensures
        q == spec_sub(u, v),
{
    Point { x: u.x - v.x, y: u.y - v.y, z: u.z - v.z }
}

/// The squared distance is symmetric in its arguments and zero on the
/// diagonal.
pub proof fn lemma_dist_symmetric(a: Point, b: Point)
    ensures
        spec_dist(a, b) == spec_dist(b, a),
        spec_dist(a, a) == 0,
        spec_dist(a, b) >= 0,
{
    assert((a.x - b.x) * (a.x - b.x) == (b.x - a.x) * (b.x - a.x) && (a.x - b.x) * (a.x - b.x)
        >= 0) by (nonlinear_arith);
    assert((a.y - b.y) * (a.y - b.y) == (b.y - a.y) * (b.y - a.y) && (a.y - b.y) * (a.y - b.y)
        >= 0) by (nonlinear_arith);
    assert((a.z - b.z) * (a.z - b.z) == (b.z - a.z) * (b.z - a.z) && (a.z - b.z) * (a.z - b.z)
        >= 0) by (nonlinear_arith);
}

/// A point whose coordinate magnitudes are nonzero and pairwise different is
/// moved to 24 pairwise different places by the rotation table: the table has
/// no redundant entry.
pub open spec fn generic_point(p: Point) -> bool {
    let x = p.x as int;
    let y = p.y as int;
    let z = p.z as int;
    &&& negatable(p)
    &&& x != 0 && y != 0 && z != 0
    &&& abs_int(x) != abs_int(y)
    &&& abs_int(x) != abs_int(z)
    &&& abs_int(y) != abs_int(z)
}

/// Two different rotations of the table send a generic point to two
/// different images.
#[verifier::rlimit(100)]
#[verifier::spinoff_prover]
pub proof fn lemma_rotations_distinct(r1: int, r2: int, p: Point)
    requires
        0 <= r1 < 24,
        0 <= r2 < 24,
        r1 != r2,
        generic_point(p),
    ensures
        spec_rotate(r1, p) != spec_rotate(r2, p),
{
}

/// Applying a rotation and then its table inverse returns every point
/// unchanged.
#[verifier::rlimit(100)]
#[verifier::spinoff_prover]
pub proof fn lemma_rotation_round_trip(r: int, p: Point)
    requires
        0 <= r < 24,
        negatable(p),
    ensures
        spec_rotate(spec_inverse(r), spec_rotate(r, p)) == p,
{
}

/// The rotation undoing rotation `r`, found by exhaustive search among the
/// 24: the unique candidate that returns a rotated generic probe point to
/// its place.
#[verifier::rlimit(100)]
#[verifier::spinoff_prover]
pub fn inverse_rotation(r: u8) -> (inv: u8)
    requires
        r < 24,
    ensures
        inv < 24,
        inv == spec_inverse(r as int),
{
    let probe = Point { x: 2, y: 3, z: 5 };
    let q = rotate(r, probe);
    let mut c: u8 = 0;
    while c < 24
        invariant
            c <= 24,
            r < 24,
            probe == (Point { x: 2, y: 3, z: 5 }),
            q == spec_rotate(r as int, probe),
            forall|t: int| 0 <= t < c ==> spec_rotate(t, q) != probe,
        decreases 24 - c,
    {
        if rotate(c, q) == probe {
            proof {
                lemma_rotation_round_trip(r as int, probe);
                if c as int != spec_inverse(r as int) {
                    assert(generic_point(q));
                    lemma_rotations_distinct(c as int, spec_inverse(r as int), q);
                }
            }
            return c;
        }
        c += 1;
    }
    proof {
        lemma_rotation_round_trip(r as int, probe);
        assert(spec_rotate(spec_inverse(r as int), q) == probe);
        assert(false);
    }
    0
}

/// The squared distance of two points within the raw bound is nonnegative
/// and fits an `i64`.
#[verifier::rlimit(100)]
#[verifier::spinoff_prover]
pub proof fn lemma_dist_bounds(u: Point, v: Point)
    requires
        within(u, MAX_COORD as int),
        within(v, MAX_COORD as int),
    ensures
        0 <= spec_dist(u, v) <= i64::MAX,
{
    let dx = u.x - v.x;
    let dy = u.y - v.y;
    let dz = u.z - v.z;
    assert((u.x - v.x) * (u.x - v.x) <= 4 * (MAX_COORD as int) * (MAX_COORD as int) && (u.x - v.x)
        * (u.x - v.x) >= 0) by (nonlinear_arith)
        requires -2 * (MAX_COORD as int) <= u.x - v.x <= 2 * (MAX_COORD as int);
    assert((u.y - v.y) * (u.y - v.y) <= 4 * (MAX_COORD as int) * (MAX_COORD as int) && (u.y - v.y)
        * (u.y - v.y) >= 0) by (nonlinear_arith)
        requires -2 * (MAX_COORD as int) <= u.y - v.y <= 2 * (MAX_COORD as int);
    assert((u.z - v.z) * (u.z - v.z) <= 4 * (MAX_COORD as int) * (MAX_COORD as int) && (u.z - v.z)
        * (u.z - v.z) >= 0) by (nonlinear_arith)
        requires -2 * (MAX_COORD as int) <= u.z - v.z <= 2 * (MAX_COORD as int);
}

/// A rotation never grows a coordinate bound.
#[verifier::rlimit(100)]
#[verifier::spinoff_prover]
pub proof fn lemma_rotate_within(r: int, p: Point, b: int)
    requires
        within(p, b),
        0 <= b <= i64::MAX,
    ensures
        within(spec_rotate(r, p), b),
        negatable(spec_rotate(r, p)),
{
}

/// Rotations are linear: rotating a translated point is translating the
/// rotated point by the rotated offset (for coordinates far from the `i64`
/// boundary).
#[verifier::rlimit(100)]
#[verifier::spinoff_prover]
pub proof fn lemma_rotate_linear(r: int, p: Point, q: Point, b: int, c: int)
    requires
        within(p, b),
        within(q, c),
        0 <= b,
        0 <= c,
        b + c <= i64::MAX,
    ensures
        spec_rotate(r, spec_translate(p, q)) == spec_translate(
            spec_rotate(r, p),
            spec_rotate(r, q),
        ),
{
    let s = spec_translate(p, q);
    assert(s.x as int == p.x + q.x && s.y as int == p.y + q.y && s.z as int == p.z + q.z);
}

/// A rotation preserves the squared distance of any two points.
#[verifier::rlimit(100)]
#[verifier::spinoff_prover]
pub proof fn lemma_rotate_preserves_dist(r: int, u: Point, v: Point)
    requires
        negatable(u),
        negatable(v),
    ensures
        spec_dist(spec_rotate(r, u), spec_rotate(r, v)) == spec_dist(u, v),
{
    assert((u.x - v.x) * (u.x - v.x) == (v.x - u.x) * (v.x - u.x)) by (nonlinear_arith);
    assert((u.y - v.y) * (u.y - v.y) == (v.y - u.y) * (v.y - u.y)) by (nonlinear_arith);
    assert((u.z - v.z) * (u.z - v.z) == (v.z - u.z) * (v.z - u.z)) by (nonlinear_arith);
}

/// A translation preserves the squared distance of any two points.
#[verifier::rlimit(100)]
#[verifier::spinoff_prover]
pub proof fn lemma_translate_preserves_dist(u: Point, v: Point, off: Point, b: int, c: int)
    requires
        within(u, b),
        within(v, b),
        within(off, c),
        0 <= b,
        0 <= c,
        b + c <= i64::MAX,
    ensures
        spec_dist(spec_translate(u, off), spec_translate(v, off)) == spec_dist(u, v),
{
}

} // verus!
