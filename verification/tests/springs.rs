//! Spring-record group feasibility.

use advent::springs::is_possible_group;

#[test]
fn group_fits_over_unknown_and_damaged() {
    let rec: Vec<char> = "##?#.".chars().collect();
    assert!(is_possible_group(&rec, 4));
    // position 4 is '.': a group of 5 cannot fit
    assert!(!is_possible_group(&rec, 5));
}

#[test]
fn group_rejected_when_followed_by_damaged() {
    let rec: Vec<char> = "?##".chars().collect();
    // the spring after a group of 2 would be '#', so the group cannot stop there
    assert!(!is_possible_group(&rec, 2));
    assert!(is_possible_group(&rec, 3));
}

#[test]
fn group_spanning_whole_record() {
    let rec: Vec<char> = "???".chars().collect();
    assert!(is_possible_group(&rec, 3));
    assert!(is_possible_group(&rec, 0));
}
