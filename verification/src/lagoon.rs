//! Area of a rectilinear dig plan.
//!
//! A plan is a list of axis-aligned digging moves from a common start.  The
//! covered lattice area — interior plus the unit-wide trench itself — comes
//! from the shoelace formula over the visited corners plus a boundary
//! correction.

use vstd::prelude::*;
use crate::geometry::abs_int;

verus! {

/// Largest step length one digging move may take.
pub const MAX_STEP: usize = 0x8000;

/// Largest number of moves one plan may hold.
pub const MAX_PLAN: usize = 0x400;

#[derive(Clone, Copy, PartialEq, Eq, Structural, Debug)]
pub enum Dir {
    U,
    D,
    L,
    R,
}

#[derive(Clone, Copy, PartialEq, Eq, Structural, Debug)]
pub struct Instruction {
    pub dir: Dir,
    pub num: usize,
}

/// Row displacement of one step in direction `d`.
pub open spec fn dir_dx(d: Dir) -> int {
    match d {
        Dir::U => -1,
        Dir::D => 1,
        Dir::L => 0,
        Dir::R => 0,
    }
}

/// Column displacement of one step in direction `d`.
pub open spec fn dir_dy(d: Dir) -> int {
    match d {
        Dir::U => 0,
        Dir::D => 0,
        Dir::L => -1,
        Dir::R => 1,
    }
}

/// Row of the digger before move number `i`.
pub open spec fn pos_x(plan: Seq<Instruction>, i: int) -> int
    decreases i,
    when i >= 0
{
    if i <= 0 {
        0
    } else {
        pos_x(plan, i - 1) + dir_dx(plan[i - 1].dir) * plan[i - 1].num
    }
}

/// Column of the digger before move number `i`.
pub open spec fn pos_y(plan: Seq<Instruction>, i: int) -> int
    decreases i,
    when i >= 0
{
    if i <= 0 {
        0
    } else {
        pos_y(plan, i - 1) + dir_dy(plan[i - 1].dir) * plan[i - 1].num
    }
}

/// The corner an edge leads to: the next corner, wrapping to the start.
pub open spec fn succ(n: int, k: int) -> int {
    if k + 1 == n {
        0
    } else {
        k + 1
    }
}

/// Rectilinear length of the first `i` boundary edges.
pub open spec fn peri_upto(plan: Seq<Instruction>, i: int) -> int
    decreases i,
    when i >= 0
{
    if i <= 0 {
        0
    } else {
        let k = i - 1;
        let s = succ(plan.len() as int, k);
        peri_upto(plan, k) + abs_int(pos_x(plan, k) - pos_x(plan, s)) + abs_int(
            pos_y(plan, k) - pos_y(plan, s),
        )
    }
}

/// Twice the signed shoelace area of the first `i` boundary edges.
pub open spec fn area_upto(plan: Seq<Instruction>, i: int) -> int
    decreases i,
    when i >= 0
{
    if i <= 0 {
        0
    } else {
        let k = i - 1;
        let s = succ(plan.len() as int, k);
        area_upto(plan, k) + pos_x(plan, k) * pos_y(plan, s) - pos_y(plan, k) * pos_x(plan, s)
    }
}

/// Division by two, rounded toward zero, as machine division computes it.
pub open spec fn div2_trunc(x: int) -> int {
    if x >= 0 {
        x / 2
    } else {
        -((-x) / 2)
    }
}

/// The covered lattice area the plan encloses: shoelace interior count plus
/// the boundary itself.
pub open spec fn spec_lagoon_size(plan: Seq<Instruction>) -> int {
    let n = plan.len() as int;
    div2_trunc(abs_int(area_upto(plan, n)) - peri_upto(plan, n)) + 1 + peri_upto(plan, n)
}

/// Every step length of the plan is within `MAX_STEP`.
pub open spec fn plan_ok(plan: Seq<Instruction>) -> bool {
    forall|k: int| 0 <= k < plan.len() ==> (#[trigger] plan[k]).num <= MAX_STEP
}

/// Positions stay within `i * MAX_STEP` after `i` moves.
proof fn lemma_pos_bound(plan: Seq<Instruction>, i: int)
    requires
        plan_ok(plan),
        0 <= i <= plan.len(),
    ensures
        -i * (MAX_STEP as int) <= pos_x(plan, i) <= i * (MAX_STEP as int),
        -i * (MAX_STEP as int) <= pos_y(plan, i) <= i * (MAX_STEP as int),
    decreases i,
{
    if i > 0 {
        lemma_pos_bound(plan, i - 1);
        assert(dir_dx(plan[i - 1].dir) * plan[i - 1].num <= MAX_STEP as int && -(MAX_STEP as int)
            <= dir_dx(plan[i - 1].dir) * plan[i - 1].num) by (nonlinear_arith)
            requires
                -1 <= dir_dx(plan[i - 1].dir) <= 1,
                0 <= plan[i - 1].num <= MAX_STEP as int,
        ;
        assert(dir_dy(plan[i - 1].dir) * plan[i - 1].num <= MAX_STEP as int && -(MAX_STEP as int)
            <= dir_dy(plan[i - 1].dir) * plan[i - 1].num) by (nonlinear_arith)
            requires
                -1 <= dir_dy(plan[i - 1].dir) <= 1,
                0 <= plan[i - 1].num <= MAX_STEP as int,
        ;
        assert((i - 1) * (MAX_STEP as int) + MAX_STEP as int == i * (MAX_STEP as int))
            by (nonlinear_arith);
    }
}

/// The dug-out lattice area of the plan: every move pushes one corner of the
/// trench loop, and the shoelace formula with a boundary correction counts
/// the enclosed cells together with the trench.
pub fn wait_this_is_just_day_10_p2(plan: &Vec<Instruction>) -> (r: i64)
    requires
        1 <= plan@.len() <= MAX_PLAN,
        plan_ok(plan@),
    ensures
        r == spec_lagoon_size(plan@),
{
    let n = plan.len();
    let mut xs: Vec<i64> = Vec::new();
    let mut ys: Vec<i64> = Vec::new();
    let mut x: i64 = 0;
    let mut y: i64 = 0;
    for i in 0..n
        invariant
            n == plan@.len(),
            1 <= n <= MAX_PLAN,
            plan_ok(plan@),
            xs@.len() == i,
            ys@.len() == i,
            forall|k: int| 0 <= k < i ==> (#[trigger] xs@[k]) == pos_x(plan@, k),
            forall|k: int| 0 <= k < i ==> (#[trigger] ys@[k]) == pos_y(plan@, k),
            x == pos_x(plan@, i as int),
            y == pos_y(plan@, i as int),
            -(i as int) * (MAX_STEP as int) <= x <= (i as int) * (MAX_STEP as int),
            -(i as int) * (MAX_STEP as int) <= y <= (i as int) * (MAX_STEP as int),
        decreases n - i,
    {
        xs.push(x);
        ys.push(y);
        let step = plan[i];
        proof {
            lemma_pos_bound(plan@, i as int + 1);
            assert((i as int) * (MAX_STEP as int) + MAX_STEP as int <= MAX_PLAN as int * (
            MAX_STEP as int)) by (nonlinear_arith)
                requires (i as int) < MAX_PLAN as int;
        }
        match step.dir {
            Dir::U => {
                x = x - (step.num as i64);
            },
            Dir::D => {
                x = x + (step.num as i64);
            },
            Dir::L => {
                y = y - (step.num as i64);
            },
            Dir::R => {
                y = y + (step.num as i64);
            },
        }
    }
    let mut peri: i64 = 0;
    let mut area: i64 = 0;
    for idx in 0..n
        invariant
            n == plan@.len(),
            1 <= n <= MAX_PLAN,
            plan_ok(plan@),
            xs@.len() == n,
            ys@.len() == n,
            forall|k: int| 0 <= k < n ==> (#[trigger] xs@[k]) == pos_x(plan@, k),
            forall|k: int| 0 <= k < n ==> (#[trigger] ys@[k]) == pos_y(plan@, k),
            peri == peri_upto(plan@, idx as int),
            area == area_upto(plan@, idx as int),
            0 <= peri <= (idx as int) * 4 * (MAX_PLAN as int) * (MAX_STEP as int),
            -(idx as int) * 2 * (MAX_PLAN as int) * (MAX_PLAN as int) * (MAX_STEP as int) * (
            MAX_STEP as int) <= area <= (idx as int) * 2 * (MAX_PLAN as int) * (MAX_PLAN as int) * (
            MAX_STEP as int) * (MAX_STEP as int),
        decreases n - idx,
    {
        let nxt = if idx + 1 == n {
            0
        } else {
            idx + 1
        };
        let ux = xs[idx];
        let uy = ys[idx];
        let vx = xs[nxt];
        let vy = ys[nxt];
        proof {
            lemma_pos_bound(plan@, idx as int);
            lemma_pos_bound(plan@, nxt as int);
            let m = (MAX_PLAN as int) * (MAX_STEP as int);
            assert((idx as int) * (MAX_STEP as int) <= m && (nxt as int) * (MAX_STEP as int)
                <= m) by (nonlinear_arith)
                requires
                    m == (MAX_PLAN as int) * (MAX_STEP as int),
                    (idx as int) <= MAX_PLAN as int,
                    (nxt as int) <= MAX_PLAN as int;
            assert(-(m * m) <= ux * vy <= m * m) by (nonlinear_arith)
                requires -m <= ux <= m, -m <= vy <= m, 0 <= m;

            assert(-(m * m) <= uy * vx <= m * m) by (nonlinear_arith)
                requires -m <= uy <= m, -m <= vx <= m, 0 <= m;
            assert(m * m == (MAX_PLAN as int) * (MAX_PLAN as int) * (MAX_STEP as int) * (
            MAX_STEP as int)) by (nonlinear_arith)
                requires m == (MAX_PLAN as int) * (MAX_STEP as int);
            assert(((idx as int) + 1) * 2 * (MAX_PLAN as int) * (MAX_PLAN as int) * (
            MAX_STEP as int) * (MAX_STEP as int) == (idx as int) * 2 * (MAX_PLAN as int) * (
            MAX_PLAN as int) * (MAX_STEP as int) * (MAX_STEP as int) + 2 * (MAX_PLAN as int) * (
            MAX_PLAN as int) * (MAX_STEP as int) * (MAX_STEP as int)) by (nonlinear_arith);
            assert(((idx as int) + 1) * 4 * (MAX_PLAN as int) * (MAX_STEP as int) == (idx as int)
                * 4 * (MAX_PLAN as int) * (MAX_STEP as int) + 4 * (MAX_PLAN as int) * (
            MAX_STEP as int)) by (nonlinear_arith);
        }
        let dx = if ux >= vx {
            ux - vx
        } else {
            vx - ux
        };
        let dy = if uy >= vy {
            uy - vy
        } else {
            vy - uy
        };
        peri = peri + dx + dy;
        area = area + ux * vy - uy * vx;
    }
    let area_abs = if area < 0 {
        -area
    } else {
        area
    };
    let diff = area_abs - peri;
    let half = if diff >= 0 {
        diff / 2
    } else {
        -((-diff) / 2)
    };
    half + 1 + peri
}

} // verus!
