//! Area of rectilinear dig plans.

use advent::lagoon::{Dir, Instruction, wait_this_is_just_day_10_p2};

fn step(d: Dir, num: usize) -> Instruction {
    Instruction { dir: d, num }
}

#[test]
fn square_plan_area() {
    // a 3-by-3 square loop: nine covered cells
    let plan = vec![
        step(Dir::R, 2),
        step(Dir::D, 2),
        step(Dir::L, 2),
        step(Dir::U, 2),
    ];
    assert_eq!(wait_this_is_just_day_10_p2(&plan), 9);
}

#[test]
fn worked_example_plan_area() {
    let plan = vec![
        step(Dir::R, 6),
        step(Dir::D, 5),
        step(Dir::L, 2),
        step(Dir::D, 2),
        step(Dir::R, 2),
        step(Dir::D, 2),
        step(Dir::L, 5),
        step(Dir::U, 2),
        step(Dir::L, 1),
        step(Dir::U, 2),
        step(Dir::R, 2),
        step(Dir::U, 3),
        step(Dir::L, 2),
        step(Dir::U, 2),
    ];
    assert_eq!(wait_this_is_just_day_10_p2(&plan), 62);
}

#[test]
fn single_move_plan() {
    // a single move gives one corner only, so the formula sees a degenerate
    // loop: one covered cell
    let plan = vec![step(Dir::R, 2)];
    assert_eq!(wait_this_is_just_day_10_p2(&plan), 1);
}
