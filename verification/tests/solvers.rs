//! Tests of the per-day solvers and their registry.

use advent::day::{self, SolverError};
use advent::day1;
use advent::day2;
use advent::day3;

fn strings(v: &[&str]) -> Vec<String> {
    v.iter().map(|s| s.to_string()).collect()
}

const DAY1_EXAMPLE: &[&str] = &[
    "1000", "2000", "3000", "", "4000", "", "5000", "6000", "", "7000", "8000", "9000", "",
    "10000",
];

#[test]
fn day1_part1_finds_the_best_stocked_elf() {
    let r = day::solve(strings(DAY1_EXAMPLE), 1, 1).unwrap();
    assert_eq!(r, "24000");
}

#[test]
fn day1_part2_sums_the_top_three() {
    let r = day::solve(strings(DAY1_EXAMPLE), 1, 2).unwrap();
    assert_eq!(r, "45000");
}

#[test]
fn day1_partition_splits_on_empty_lines() {
    let parts = day1::partition(strings(&["a", "b", "", "", "c"]));
    assert_eq!(parts.len(), 3);
    assert_eq!(parts[0], strings(&["a", "b"]));
    assert!(parts[1].is_empty());
    assert_eq!(parts[2], strings(&["c"]));
}

#[test]
fn day1_total_calories_sums_rations() {
    let elfs = day1::read_elfs(strings(&["100", "+23", "7"])).unwrap();
    assert_eq!(elfs.len(), 1);
    assert_eq!(elfs[0].total_calories(), 130);
}

#[test]
fn day1_invalid_ration_is_reported() {
    match day::solve(strings(&["12", "snack"]), 1, 1) {
        Err(SolverError::Day1(day1::Error::InvalidRation(s))) => assert_eq!(s, "snack"),
        other => panic!("expected InvalidRation, got {:?}", other),
    }
}

#[test]
fn day1_too_few_elves_for_part2() {
    match day::solve(strings(&["1000", "", "2000"]), 1, 2) {
        Err(SolverError::Day1(day1::Error::TooLitleElfs(n))) => assert_eq!(n, 2),
        other => panic!("expected TooLitleElfs, got {:?}", other),
    }
}

const DAY2_EXAMPLE: &[&str] = &["A Y", "B X", "C Z"];

#[test]
fn day2_part1_scores_the_guide() {
    let r = day::solve(strings(DAY2_EXAMPLE), 2, 1).unwrap();
    assert_eq!(r, "15");
}

#[test]
fn day2_part2_scores_the_outcome_reading() {
    let r = day::solve(strings(DAY2_EXAMPLE), 2, 2).unwrap();
    assert_eq!(r, "12");
}

#[test]
fn day2_empty_guide_scores_zero() {
    let r = day::solve(strings(&[]), 2, 1).unwrap();
    assert_eq!(r, "0");
}

#[test]
fn day2_scores_and_eval() {
    assert_eq!(day2::Deck::Rock.score(), 1);
    assert_eq!(day2::Deck::Paper.score(), 2);
    assert_eq!(day2::Deck::Scissor.score(), 3);
    assert_eq!(day2::Outcome::Win.score(), 6);
    assert_eq!(day2::Outcome::Draw.score(), 3);
    assert_eq!(day2::Outcome::Lost.score(), 0);
    let round = day2::Round1(day2::Deck::Rock, day2::Deck::Paper);
    assert!(matches!(round.eval(), day2::Outcome::Win));
    let draw = day2::Round1(day2::Deck::Scissor, day2::Deck::Scissor);
    assert!(matches!(draw.eval(), day2::Outcome::Draw));
}

#[test]
fn day2_invalid_play_is_reported() {
    match day::solve(strings(&["A Q"]), 2, 1) {
        Err(SolverError::Day2(day2::Error::InvalidPlay(s))) => assert_eq!(s, "Q"),
        other => panic!("expected InvalidPlay, got {:?}", other),
    }
}

#[test]
fn day2_short_line_is_invalid_round() {
    match day::solve(strings(&["A"]), 2, 1) {
        Err(SolverError::Day2(day2::Error::InvalidRound(s))) => assert_eq!(s, "A"),
        other => panic!("expected InvalidRound, got {:?}", other),
    }
}

const DAY3_EXAMPLE: &[&str] = &[
    "vJrwpWtwJgWrhcsFMMfFFhFp",
    "jqHRNqRjqzjGDLGLrsFMfFZSrLrFZsSL",
    "PmmdzqPrVvPwwTWBwg",
    "wMqvLMZHhHMvwLHjbvcjnnSBnvTQFn",
    "ttgJtRGJQctTZtZT",
    "CrZsJsPPZsGzwwsLwLmpwMDw",
];

#[test]
fn day3_part1_sums_shared_item_priorities() {
    let r = day::solve(strings(DAY3_EXAMPLE), 3, 1).unwrap();
    assert_eq!(r, "157");
}

#[test]
fn day3_part2_sums_badge_priorities() {
    let r = day::solve(strings(DAY3_EXAMPLE), 3, 2).unwrap();
    assert_eq!(r, "70");
}

#[test]
fn day3_priorities_and_distance() {
    assert_eq!(day3::Item('a').priority(), Some(1));
    assert_eq!(day3::Item('z').priority(), Some(26));
    assert_eq!(day3::Item('A').priority(), Some(27));
    assert_eq!(day3::Item('Z').priority(), Some(52));
    assert_eq!(day3::Item('!').priority(), None);
    assert_eq!(day3::distance('a', 'c'), 2);
    assert_eq!(day3::distance('c', 'a'), 2);
}

#[test]
fn day3_compartments_and_duplicates() {
    let sack = day3::Rucksack::parse("vJrwpWtwJgWrhcsFMMfFFhFp").unwrap();
    let dup = sack.duplicated();
    assert_eq!(dup.len(), 1);
    assert_eq!(dup[0].0, 'p');
    let all = sack.items();
    assert!(all.iter().any(|i| i.0 == 'v'));
    assert!(all.iter().any(|i| i.0 == 'p'));
}

#[test]
fn day3_common_keeps_first_compartment_order() {
    let a = day3::Compartment::parse("abc").unwrap();
    let b = day3::Compartment::parse("cxa").unwrap();
    let common: Vec<char> = a.common(&b).into_iter().map(|i| i.0).collect();
    assert_eq!(common, ['a', 'c']);
}

#[test]
fn day3_invalid_item_is_reported() {
    match day::solve(strings(&["ab1b"]), 3, 1) {
        Err(SolverError::Day3(day3::Error::InvalidItem(c))) => assert_eq!(c, '1'),
        other => panic!("expected InvalidItem, got {:?}", other),
    }
}

#[test]
fn registry_names_each_day() {
    assert_eq!(day::name(1), Some("Calorie Counting"));
    assert_eq!(day::name(2), Some("Rock Paper Scissors"));
    assert_eq!(day::name(3), Some("Rucksack Reorganization"));
    assert_eq!(day::name(0), None);
    assert_eq!(day::name(4), None);
}

#[test]
fn unknown_day_is_reported() {
    match day::solve(strings(&["A Y"]), 9, 1) {
        Err(SolverError::UnknownDay(d)) => assert_eq!(d, 9),
        other => panic!("expected UnknownDay, got {:?}", other),
    }
}

#[test]
fn invalid_part_is_reported() {
    match day::run_solver(strings(DAY2_EXAMPLE), 2, 3) {
        Err(SolverError::InvalidPart(p)) => assert_eq!(p, 3),
        other => panic!("expected InvalidPart, got {:?}", other),
    }
}

#[test]
fn run_test_passes_on_the_fixture() {
    let r = day::test(strings(DAY2_EXAMPLE), 2, 1).unwrap();
    assert_eq!(r, "15");
    let r = day::run_test(strings(DAY3_EXAMPLE), 3, 2).unwrap();
    assert_eq!(r, "70");
}

#[test]
fn run_test_reports_a_mismatch() {
    match day::test(strings(&["A Y"]), 2, 1) {
        Err(SolverError::Test { got, expected }) => {
            assert_eq!(got, "8");
            assert_eq!(expected, "15");
        },
        other => panic!("expected Test mismatch, got {:?}", other),
    }
}
