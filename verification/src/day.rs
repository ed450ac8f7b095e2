//! The solver registry: one routine per day, addressed by day index, with
//! the per-part dispatch that solving and testing share.

use vstd::prelude::*;

use crate::day1::{elf_totals, elfs_parse, max_sum, partition_spec, sum_vals, top3_sum};
use crate::day2::{rounds_parse, sum_plays, Round1, Round2};
use crate::day3::{part1_sum, part2_sum, rucksacks_parse};
use crate::digits::dec_str;

verus! {

/// Errors of running a solver routine.
#[derive(Debug)]
pub enum SolverError {
    /// No solver is registered for this day index.
    UnknownDay(usize),
    /// The part index names neither part 1 nor part 2.
    InvalidPart(usize),
    /// A failure of the day-1 solver.
    Day1(crate::day1::Error),
    /// A failure of the day-2 solver.
    Day2(crate::day2::Error),
    /// A failure of the day-3 solver.
    Day3(crate::day3::Error),
    /// A test run whose result differs from the expected value.
    Test { got: String, expected: String },
}

/// The registered days.
pub open spec fn known_day(day: usize) -> bool {
    1 <= day <= 3
}

/// The name of each registered day's puzzle.
pub open spec fn day_name(day: usize) -> Seq<char> {
    if day == 1 {
        "Calorie Counting"@
    } else if day == 2 {
        "Rock Paper Scissors"@
    } else {
        "Rucksack Reorganization"@
    }
}

/// What a registered solver needs of its input so that it cannot fail for
/// reasons of the machine: sums that fit in `usize`, and the input shapes
/// the routines take for granted.
pub open spec fn solver_req(day: usize, part: usize, lines: Seq<Seq<char>>) -> bool {
    if part != 1 && part != 2 {
        true
    } else if day == 1 {
        (part == 1 ==> lines.len() > 0) && (elfs_parse(partition_spec(lines)) matches Result::Ok(
            elfs,
        ) ==> (forall|k: int| 0 <= k < elfs.len() ==> sum_vals(#[trigger] elfs[k]) <= usize::MAX)
            && (part == 2 && elfs.len() >= 3 ==> top3_sum(elf_totals(elfs)) <= usize::MAX))
    } else if day == 2 {
        9 * lines.len() <= usize::MAX
    } else if day == 3 {
        52 * lines.len() <= usize::MAX && (part == 2 && rucksacks_parse(lines) is Ok
            ==> lines.len() % 3 == 0)
    } else {
        true
    }
}

/// What running a registered solver part yields on the given lines.
pub open spec fn solver_result(
    day: usize,
    part: usize,
    lines: Seq<Seq<char>>,
    r: Result<String, SolverError>,
) -> bool {
    if day == 1 {
        match elfs_parse(partition_spec(lines)) {
            Result::Ok(elfs) => if part == 1 {
                r matches Result::Ok(s) && s@ == dec_str(max_sum(elfs))
            } else {
                if elfs.len() < 3 {
                    r matches Result::Err(SolverError::Day1(e)) && e@
                        == crate::day1::ErrorModel::TooLitleElfs(elfs.len() as usize)
                } else {
                    r matches Result::Ok(s) && s@ == dec_str(top3_sum(elf_totals(elfs)))
                }
            },
            Result::Err(m) => r matches Result::Err(SolverError::Day1(e)) && e@ == m,
        }
    } else if day == 2 {
        if part == 1 {
            match rounds_parse::<Round1>(lines) {
                Result::Ok(rs) => r matches Result::Ok(s) && s@ == dec_str(sum_plays(rs)),
                Result::Err(m) => r matches Result::Err(SolverError::Day2(e)) && e@ == m,
            }
        } else {
            match rounds_parse::<Round2>(lines) {
                Result::Ok(rs) => r matches Result::Ok(s) && s@ == dec_str(sum_plays(rs)),
                Result::Err(m) => r matches Result::Err(SolverError::Day2(e)) && e@ == m,
            }
        }
    } else {
        match rucksacks_parse(lines) {
            Result::Ok(rs) => r matches Result::Ok(s) && s@ == dec_str(
                if part == 1 {
                    part1_sum(rs)
                } else {
                    part2_sum(rs)
                },
            ),
            Result::Err(m) => r matches Result::Err(SolverError::Day3(e)) && e@ == m,
        }
    }
}

/// The string a successful run yields, if any: nothing where the solver
/// reports an error instead.
pub open spec fn solver_ok_val(day: usize, part: usize, lines: Seq<Seq<char>>) -> Option<
    Seq<char>,
> {
    if day == 1 {
        match elfs_parse(partition_spec(lines)) {
            Result::Ok(elfs) => if part == 1 {
                Option::Some(dec_str(max_sum(elfs)))
            } else if elfs.len() < 3 {
                Option::None
            } else {
                Option::Some(dec_str(top3_sum(elf_totals(elfs))))
            },
            Result::Err(_) => Option::None,
        }
    } else if day == 2 {
        if part == 1 {
            match rounds_parse::<Round1>(lines) {
                Result::Ok(rs) => Option::Some(dec_str(sum_plays(rs))),
                Result::Err(_) => Option::None,
            }
        } else {
            match rounds_parse::<Round2>(lines) {
                Result::Ok(rs) => Option::Some(dec_str(sum_plays(rs))),
                Result::Err(_) => Option::None,
            }
        }
    } else {
        match rucksacks_parse(lines) {
            Result::Ok(rs) => Option::Some(dec_str(
                if part == 1 {
                    part1_sum(rs)
                } else {
                    part2_sum(rs)
                },
            )),
            Result::Err(_) => Option::None,
        }
    }
}

/// The value each registered part must yield on its test fixture.
pub open spec fn expected_str(day: usize, part: usize) -> Seq<char> {
    if day == 1 {
        if part == 1 {
            "24000"@
        } else {
            "45000"@
        }
    } else if day == 2 {
        if part == 1 {
            "15"@
        } else {
            "12"@
        }
    } else {
        if part == 1 {
            "157"@
        } else {
            "70"@
        }
    }
}

/// The name of the day's puzzle, where a solver is registered for it.
pub fn name(day: usize) -> (r: Option<&'static str>)
    ensures
        match r {
            Option::Some(s) => known_day(day) && s@ == day_name(day),
            Option::None => !known_day(day),
        },
{
    if day == 1 {
        Option::Some(crate::day1::new().name())
    } else if day == 2 {
        Option::Some(crate::day2::new().name())
    } else if day == 3 {
        Option::Some(crate::day3::new().name())
    } else {
        Option::None
    }
}

/// Runs the named part of a registered day's solver over the lines.
pub fn run_solver(lines: Vec<String>, day: usize, part: usize) -> (r: Result<String, SolverError>)
    requires
        known_day(day),
        solver_req(day, part, lines.deep_view()),
    ensures
        part == 1 || part == 2 ==> solver_result(day, part, lines.deep_view(), r),
        !(part == 1 || part == 2) ==> (r matches Result::Err(SolverError::InvalidPart(p)) && p
            == part),
{
    if part != 1 && part != 2 {
        return Result::Err(SolverError::InvalidPart(part));
    }
    if day == 1 {
        if part == 1 {
            crate::day1::new().solve_part1(lines)
        } else {
            crate::day1::new().solve_part2(lines)
        }
    } else if day == 2 {
        if part == 1 {
            crate::day2::new().solve_part1(&lines)
        } else {
            crate::day2::new().solve_part2(&lines)
        }
    } else {
        if part == 1 {
            crate::day3::new().solve_part1(&lines)
        } else {
            crate::day3::new().solve_part2(&lines)
        }
    }
}

/// Solves one day and part over the lines of its input file; an unknown
/// day is reported, not run.
pub fn solve(lines: Vec<String>, day: usize, part: usize) -> (r: Result<String, SolverError>)
    requires
        solver_req(day, part, lines.deep_view()),
    ensures
        !known_day(day) ==> (r matches Result::Err(SolverError::UnknownDay(d)) && d == day),
        known_day(day) && (part == 1 || part == 2) ==> solver_result(
            day,
            part,
            lines.deep_view(),
            r,
        ),
        known_day(day) && !(part == 1 || part == 2) ==> (r matches Result::Err(
            SolverError::InvalidPart(p),
        ) && p == part),
{
    if day < 1 || day > 3 {
        return Result::Err(SolverError::UnknownDay(day));
    }
    run_solver(lines, day, part)
}

/// The value the named part must yield on its test fixture.
pub fn test_expected(day: usize, part: usize) -> (r: &'static str)
    requires
        known_day(day),
        1 <= part <= 2,
    ensures
        r@ == expected_str(day, part),
{
    if day == 1 {
        crate::day1::new().test_expected(part)
    } else if day == 2 {
        crate::day2::new().test_expected(part)
    } else {
        crate::day3::new().test_expected(part)
    }
}

/// Runs one part over its test fixture's lines and holds the result to the
/// expected value: the result where they agree, a test failure carrying
/// both where they differ, and the solver's own error where it fails.
pub fn run_test(lines: Vec<String>, day: usize, part: usize) -> (r: Result<String, SolverError>)
    requires
        known_day(day),
        1 <= part <= 2,
        solver_req(day, part, lines.deep_view()),
    ensures
        match r {
            Result::Ok(s) => solver_ok_val(day, part, lines.deep_view()) == Option::Some(s@) && s@
                == expected_str(day, part),
            Result::Err(SolverError::Test { got, expected }) => solver_ok_val(
                day,
                part,
                lines.deep_view(),
            ) == Option::Some(got@) && got@ != expected_str(day, part) && expected@
                == expected_str(day, part),
            Result::Err(e) => !(e matches SolverError::Test { .. }) && solver_ok_val(
                day,
                part,
                lines.deep_view(),
            ) is None && solver_result(day, part, lines.deep_view(), r),
        },
{
    let expected = test_expected(day, part);
    let ghost lv = lines.deep_view();
    let result = match run_solver(lines, day, part) {
        Result::Ok(s) => s,
        Result::Err(e) => {
            proof {
                assert(solver_ok_val(day, part, lv) is None);
                assert(!(e matches SolverError::Test { .. }));
            }
            return Result::Err(e);
        },
    };
    proof {
        assert(solver_ok_val(day, part, lv) == Option::Some(result@));
    }
    let expected_string = expected.to_owned();
    if result == expected_string {
        Result::Ok(result)
    } else {
        Result::Err(SolverError::Test { got: result, expected: expected_string })
    }
}

/// Tests one day and part over the lines of its test fixture; an unknown
/// day is reported, not run.
pub fn test(lines: Vec<String>, day: usize, part: usize) -> (r: Result<String, SolverError>)
    requires
        known_day(day) ==> 1 <= part <= 2,
        solver_req(day, part, lines.deep_view()),
    ensures
        !known_day(day) ==> (r matches Result::Err(SolverError::UnknownDay(d)) && d == day),
        known_day(day) ==> match r {
            Result::Ok(s) => solver_ok_val(day, part, lines.deep_view()) == Option::Some(s@) && s@
                == expected_str(day, part),
            Result::Err(SolverError::Test { got, expected }) => solver_ok_val(
                day,
                part,
                lines.deep_view(),
            ) == Option::Some(got@) && got@ != expected_str(day, part) && expected@
                == expected_str(day, part),
            Result::Err(e) => !(e matches SolverError::Test { .. }) && solver_ok_val(
                day,
                part,
                lines.deep_view(),
            ) is None && solver_result(day, part, lines.deep_view(), r),
        },
{
    if day < 1 || day > 3 {
        return Result::Err(SolverError::UnknownDay(day));
    }
    run_test(lines, day, part)
}

} // verus!
