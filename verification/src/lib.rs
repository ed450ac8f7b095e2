//! A small harness that locates per-puzzle input files by matching their
//! names against path-fragment queries, and runs per-day solver routines
//! over the selected files.
//!
//! The core is the path-fragment matching engine in [`cmd`]: a parser that
//! decomposes dot/slash-delimited path-like strings into ordered
//! `(prefix, optional index)` fragments, and a resolver that selects, among
//! a candidate set of file names, exactly the ones that satisfy a partially
//! specified query such as `day3` or `day3/part1`.

pub mod cmd;
pub mod day;
pub mod day1;
pub mod day2;
pub mod day3;
pub mod digits;
