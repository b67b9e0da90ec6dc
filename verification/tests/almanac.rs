//! Seed-to-location mapping over the layered range transforms.

use advent::almanac::{Transform, part1, part2};

fn t(dst: usize, src: usize, len: usize) -> Transform {
    Transform { dst, src, len }
}

// The layer stack of the well-known worked example: seed-to-soil through
// humidity-to-location.
fn example_layers() -> Vec<Vec<Transform>> {
    vec![
        vec![t(50, 98, 2), t(52, 50, 48)],
        vec![t(0, 15, 37), t(37, 52, 2), t(39, 0, 15)],
        vec![t(49, 53, 8), t(0, 11, 42), t(42, 0, 7), t(57, 7, 4)],
        vec![t(88, 18, 7), t(18, 25, 70)],
        vec![t(45, 77, 23), t(81, 45, 19), t(68, 64, 13)],
        vec![t(0, 69, 1), t(1, 0, 69)],
        vec![t(60, 56, 37), t(56, 93, 4)],
    ]
}

#[test]
fn part1_minimum_location_of_single_seeds() {
    let seeds = vec![79, 14, 55, 13];
    assert_eq!(part1(&seeds, &example_layers()), 35);
}

#[test]
fn part1_without_layers_returns_min_seed() {
    let seeds = vec![7, 3, 11];
    let layers: Vec<Vec<Transform>> = Vec::new();
    assert_eq!(part1(&seeds, &layers), 3);
}

#[test]
fn part2_minimum_location_over_seed_ranges() {
    let seeds = vec![79, 14, 55, 13];
    assert_eq!(part2(&seeds, &example_layers()), 46);
}

#[test]
fn part2_single_range_identity_layers() {
    let seeds = vec![100, 5];
    let layers: Vec<Vec<Transform>> = Vec::new();
    assert_eq!(part2(&seeds, &layers), 100);
}

#[test]
fn part2_range_split_across_transform_boundary() {
    // values 8..=12: 8..10 pass unchanged, 10..13 shift by +90
    let seeds = vec![8, 5];
    let layers = vec![vec![t(100, 10, 20)]];
    assert_eq!(part2(&seeds, &layers), 8);
    // values 10..15 all shift to 100..105
    let seeds2 = vec![10, 5];
    assert_eq!(part2(&seeds2, &layers), 100);
}
