//! Greatest common divisor and least common multiple folds.

use advent::numbers::{gcd, lcm};

#[test]
fn gcd_values() {
    assert_eq!(gcd(12, 18), 6);
    assert_eq!(gcd(18, 12), 6);
    assert_eq!(gcd(17, 5), 1);
    assert_eq!(gcd(0, 9), 9);
    assert_eq!(gcd(9, 0), 9);
    assert_eq!(gcd(0, 0), 0);
    assert_eq!(gcd(270, 192), 6);
}

#[test]
fn lcm_fold_values() {
    assert_eq!(lcm(&vec![]), 0);
    assert_eq!(lcm(&vec![7]), 7);
    assert_eq!(lcm(&vec![4, 6]), 12);
    assert_eq!(lcm(&vec![2, 3, 5]), 30);
    assert_eq!(lcm(&vec![6, 10, 15]), 30);
}

#[test]
fn lcm_with_a_zero_collapses() {
    assert_eq!(lcm(&vec![0, 5]), 0);
    assert_eq!(lcm(&vec![5, 0]), 0);
}

#[test]
fn lcm_is_a_least_common_multiple() {
    // every input divides the result, and the result divides any common
    // multiple — here checked on concrete values
    let nums = vec![4u64, 6, 10];
    let l = lcm(&nums);
    assert_eq!(l, 60);
    for x in nums.iter() {
        assert_eq!(l % x, 0);
    }
    // 120 and 180 are common multiples of 4, 6 and 10
    assert_eq!(120 % l, 0);
    assert_eq!(180 % l, 0);
}
