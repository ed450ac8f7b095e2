//! Tests of the path-fragment matching engine: the fragment parser, the
//! path constructors, classification, command parsing and resolution.

use advent::cmd::{ArgPath, ArgPathFragment, Command, Error, FileType, ParsePathError};

fn strings(v: &[&str]) -> Vec<String> {
    v.iter().map(|s| s.to_string()).collect()
}

#[test]
fn fragment_without_digits_is_all_prefix() {
    let f = ArgPathFragment::parse("input").unwrap();
    assert_eq!(f.prefix, "input");
    assert_eq!(f.index, None);
}

#[test]
fn fragment_with_digits_splits_prefix_and_index() {
    let f = ArgPathFragment::parse("day3").unwrap();
    assert_eq!(f.prefix, "day");
    assert_eq!(f.index, Some(3));
    assert_eq!(format!("{}{}", f.prefix, f.index.unwrap()), "day3");
}

#[test]
fn fragment_round_trips_prefix_and_index() {
    for token in ["part1", "day25", "x907"] {
        let f = ArgPathFragment::parse(token).unwrap();
        assert_eq!(format!("{}{}", f.prefix, f.index.unwrap()), token);
    }
}

#[test]
fn fragment_of_pure_digits_has_empty_prefix() {
    let f = ArgPathFragment::parse("42").unwrap();
    assert_eq!(f.prefix, "");
    assert_eq!(f.index, Some(42));
}

#[test]
fn empty_fragment_is_rejected() {
    assert!(matches!(
        ArgPathFragment::parse(""),
        Err(ParsePathError::Empty)
    ));
}

#[test]
fn trailing_garbage_after_digits_is_invalid_index() {
    match ArgPathFragment::parse("day1x") {
        Err(ParsePathError::InvalidIndex(t)) => assert_eq!(t, "day1x"),
        other => panic!("expected InvalidIndex, got {:?}", other),
    }
}

#[test]
fn overflowing_index_is_invalid_index() {
    assert!(matches!(
        ArgPathFragment::parse("day99999999999999999999999"),
        Err(ParsePathError::InvalidIndex(_))
    ));
}

#[test]
fn query_splits_on_slash() {
    let p = ArgPath::parse("day3/part1").unwrap();
    assert_eq!(p.value, "day3/part1");
    assert_eq!(p.fragments.len(), 2);
    assert_eq!(p.fragments[0].prefix, "day");
    assert_eq!(p.fragments[0].index, Some(3));
    assert_eq!(p.fragments[1].prefix, "part");
    assert_eq!(p.fragments[1].index, Some(1));
}

#[test]
fn empty_query_fails_with_empty_token() {
    assert!(matches!(ArgPath::parse(""), Err(ParsePathError::Empty)));
}

#[test]
fn file_path_strips_exactly_one_extension() {
    let p = ArgPath::parse_path("inputs/day1.part1.input.txt").unwrap();
    assert_eq!(p.value, "day1.part1.input.txt");
    let prefixes: Vec<&str> = p.fragments.iter().map(|f| f.prefix.as_str()).collect();
    assert_eq!(prefixes, ["day", "part", "input"]);
    assert_eq!(p.fragments[0].index, Some(1));
    assert_eq!(p.fragments[1].index, Some(1));
    assert_eq!(p.fragments[2].index, None);
}

#[test]
fn file_path_with_many_dots_still_strips_one() {
    let p = ArgPath::parse_path("day2.part2.test.txt").unwrap();
    assert_eq!(p.fragments.len(), 3);
    assert_eq!(p.fragments[2].prefix, "test");
}

#[test]
fn extension_only_name_has_no_fragments() {
    let p = ArgPath::parse_path("inputs/.txt").unwrap();
    assert_eq!(p.fragments.len(), 0);
    assert_eq!(advent::cmd::get_file_type(&p), None);
}

#[test]
fn fragment_lookup_is_case_sensitive_and_first_wins() {
    let p = ArgPath::parse("day3/part1/day7").unwrap();
    let f = p.fragment("day").unwrap();
    assert_eq!(f.index, Some(3));
    assert!(p.fragment("Day").is_none());
    assert_eq!(p.fragment_index("part"), Some(1));
    assert_eq!(p.fragment_index("missing"), None);
}

#[test]
fn disjoint_with_self_is_none() {
    let p = ArgPath::parse("day3/part1/input").unwrap();
    assert!(p.disjoint(&p).is_none());
}

#[test]
fn disjoint_reports_first_mismatch() {
    let a = ArgPath::parse("day3/part1").unwrap();
    let b = ArgPath::parse("day3/part2").unwrap();
    let d = a.disjoint(&b).unwrap();
    assert_eq!(d.prefix, "part");
    assert_eq!(d.index, Some(1));
    // a prefix-or-equal match in the other direction reports nothing
    let c = ArgPath::parse("day3").unwrap();
    assert!(c.disjoint(&a).is_none());
    let e = a.disjoint(&c).unwrap();
    assert_eq!(d.prefix, e.prefix);
}

#[test]
fn classification_is_case_insensitive_and_first_match_wins() {
    let input = ArgPath::parse_path("day1.INPUT.txt").unwrap();
    assert_eq!(advent::cmd::get_file_type(&input), Some(FileType::Input));
    let test = ArgPath::parse_path("day1.Test.txt").unwrap();
    assert_eq!(advent::cmd::get_file_type(&test), Some(FileType::Test));
    let both = ArgPath::parse_path("test.input.txt").unwrap();
    assert_eq!(advent::cmd::get_file_type(&both), Some(FileType::Test));
    let neither = ArgPath::parse_path("day1.part1.txt").unwrap();
    assert_eq!(advent::cmd::get_file_type(&neither), None);
}

#[test]
fn command_parse_accepts_case_insensitive_verbs() {
    let c = Command::parse(strings(&["SOLVE", "day1"])).unwrap();
    assert!(matches!(c, Command::Solve(_)));
    assert_eq!(c.args().path.value, "day1");
    let t = Command::parse(strings(&["Test", "day2/part1"])).unwrap();
    assert!(matches!(t, Command::Test(_)));
}

#[test]
fn command_parse_reports_each_error() {
    assert!(matches!(Command::parse(strings(&[])), Err(Error::MissingCommand)));
    match Command::parse(strings(&["solve"])) {
        Err(Error::MissingPath(v)) => assert_eq!(v, "solve"),
        other => panic!("expected MissingPath, got {:?}", other),
    }
    match Command::parse(strings(&["frobnicate", "day1"])) {
        Err(Error::InvalidCommand(v)) => assert_eq!(v, "frobnicate"),
        other => panic!("expected InvalidCommand, got {:?}", other),
    }
    assert!(matches!(
        Command::parse(strings(&["solve", ""])),
        Err(Error::InvalidPath(ParsePathError::Empty))
    ));
}

fn resolved_names(cmd: &Command, files: &[&str]) -> Vec<String> {
    let files = strings(files);
    cmd.resolve_input_files(&files)
        .unwrap()
        .into_iter()
        .map(|(_, f)| f)
        .collect()
}

#[test]
fn day_query_matches_any_part_in_solve_mode() {
    let cmd = Command::parse(strings(&["solve", "day3"])).unwrap();
    let accepted = resolved_names(&cmd, &["day3.part1.input.txt"]);
    assert_eq!(accepted, ["day3.part1.input.txt"]);
}

#[test]
fn day_query_kind_gate_excludes_input_in_test_mode() {
    let cmd = Command::parse(strings(&["test", "day3"])).unwrap();
    let accepted = resolved_names(&cmd, &["day3.part1.input.txt"]);
    assert!(accepted.is_empty());
}

#[test]
fn part_query_accepts_only_the_matching_input() {
    let cmd = Command::parse(strings(&["solve", "day3/part1"])).unwrap();
    let accepted = resolved_names(
        &cmd,
        &[
            "day3.part1.input.txt",
            "day3.part2.input.txt",
            "day3.part1.test.txt",
        ],
    );
    assert_eq!(accepted, ["day3.part1.input.txt"]);
}

#[test]
fn unclassifiable_file_is_skipped_not_fatal() {
    let cmd = Command::parse(strings(&["solve", "day3"])).unwrap();
    let accepted = resolved_names(&cmd, &[".txt", "notes.txt", "day3.part1.input.txt"]);
    assert_eq!(accepted, ["day3.part1.input.txt"]);
}

#[test]
fn malformed_candidate_aborts_resolution() {
    let cmd = Command::parse(strings(&["solve", "day3"])).unwrap();
    let files = strings(&["day3x!7.part1.input.txt", "day3.part1.input.txt"]);
    assert!(matches!(
        cmd.resolve_input_files(&files),
        Err(Error::InvalidPath(ParsePathError::InvalidIndex(_)))
    ));
}

#[test]
fn equal_specs_match_without_divergence() {
    let cmd = Command::parse(strings(&["test", "day2/part1/test"])).unwrap();
    let accepted = resolved_names(&cmd, &["day2.part1.test.txt"]);
    assert_eq!(accepted, ["day2.part1.test.txt"]);
}

#[test]
fn test_divergence_matches_only_test_mode() {
    let solve = Command::parse(strings(&["solve", "day2/part1"])).unwrap();
    let test = Command::parse(strings(&["test", "day2/part1"])).unwrap();
    let files = ["day2.part1.test.txt"];
    assert!(resolved_names(&solve, &files).is_empty());
    assert_eq!(resolved_names(&test, &files), ["day2.part1.test.txt"]);
}

#[test]
fn foreign_divergence_is_rejected_silently() {
    let cmd = Command::parse(strings(&["solve", "day3"])).unwrap();
    let accepted = resolved_names(&cmd, &["day4.extra.input.txt", "day3.bonus.input.txt"]);
    assert!(accepted.is_empty());
}

#[test]
fn day_part_extraction_requires_both_fragments() {
    let p = ArgPath::parse_path("day3.part1.input.txt").unwrap();
    assert_eq!(p.day_part(), Some((3, 1)));
    let q = ArgPath::parse_path("day3.input.txt").unwrap();
    assert_eq!(q.day_part(), None);
}

#[test]
fn query_parses_through_from_str() {
    let p: ArgPath = "day3/part2".parse().unwrap();
    assert_eq!(p.fragment_index("part"), Some(2));
    assert!("".parse::<ArgPath>().is_err());
}

#[test]
fn leading_zeros_read_as_their_value() {
    let f = ArgPathFragment::parse("day03").unwrap();
    assert_eq!(f.prefix, "day");
    assert_eq!(f.index, Some(3));
}
