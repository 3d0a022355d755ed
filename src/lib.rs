//! Solvers for a series of daily puzzles: each day's module reads that day's
//! puzzle input and computes its two answers.
use vstd::prelude::*;

pub mod advent;
pub mod text;
pub mod y2022;
pub mod y2023;

verus! {

/// What the command line asks for: a year, a day of it, and the path of the
/// puzzle input.
pub struct CLIParams {
    pub year_of_puzzle: String,
    pub day_to_run: String,
    pub input_path: String,
}

pub const MISSING_YEAR_MESSAGE: &'static str = "Year of puzzle not provided!";

pub const MISSING_DAY_MESSAGE: &'static str = "Day to run not provided!";

pub const MISSING_INPUT_PATH_MESSAGE: &'static str = "Path to puzzle input not provided!";

impl CLIParams {
    /// Reads the parameters from the program's arguments, the first of which
    /// is the program's own name; arguments past the fourth are ignored.
    pub fn build(args: Vec<String>) -> (r: Result<CLIParams, &'static str>)
        ensures
            args.len() <= 1 <==> r == Err::<CLIParams, &'static str>(MISSING_YEAR_MESSAGE),
            args.len() == 2 <==> r == Err::<CLIParams, &'static str>(MISSING_DAY_MESSAGE),
            args.len() == 3 <==> r == Err::<CLIParams, &'static str>(MISSING_INPUT_PATH_MESSAGE),
            args.len() >= 4 ==> r is Ok,
            r matches Ok(p) ==> args.len() >= 4 && p.year_of_puzzle@ == args@[1]@
                && p.day_to_run@ == args@[2]@ && p.input_path@ == args@[3]@,
    {
        if args.len() <= 1 {
            return Err(MISSING_YEAR_MESSAGE);
        }
        if args.len() == 2 {
            return Err(MISSING_DAY_MESSAGE);
        }
        if args.len() == 3 {
            return Err(MISSING_INPUT_PATH_MESSAGE);
        }
        let year_of_puzzle = args[1].clone();
        let day_to_run = args[2].clone();
        let input_path = args[3].clone();
        Ok(CLIParams { year_of_puzzle, day_to_run, input_path })
    }
}

/// The year that a selector names: `2022` or `2023`.
pub open spec fn year_spec(s: Seq<char>) -> Option<u32> {
    if s == seq!['2', '0', '2', '2'] {
        Some(2022)
    } else if s == seq!['2', '0', '2', '3'] {
        Some(2023)
    } else {
        None
    }
}

/// The day that a selector `dayN` names, `N` a digit from 1 to 9.
pub open spec fn day_spec(s: Seq<char>) -> Option<u32> {
    if s.len() == 4 && s[0] == 'd' && s[1] == 'a' && s[2] == 'y' && '1' <= s[3] <= '9' {
        Some((s[3] as int - '0' as int) as u32)
    } else {
        None
    }
}

/// The days that have a solver in each year.
pub open spec fn is_registered(year: u32, day: u32) -> bool {
    (year == 2022 && 1 <= day <= 5) || (year == 2023 && 1 <= day <= 9)
}

/// Whether a solver is registered for the year and the day.
pub fn is_registered_day(year: u32, day: u32) -> (r: bool)
    ensures
        r == is_registered(year, day),
{
    (year == 2022 && 1 <= day && day <= 5) || (year == 2023 && 1 <= day && day <= 9)
}

/// Reads a year selector.
pub fn parse_year(year: &str) -> (r: Option<u32>)
    ensures
        r == year_spec(year@),
{
    let c = text::chars_of(year);
    if c.len() == 4 && c[0] == '2' && c[1] == '0' && c[2] == '2' && (c[3] == '2' || c[3] == '3') {
        if c[3] == '2' {
            assert(c@ =~= seq!['2', '0', '2', '2']);
            return Some(2022);
        }
        assert(c@ =~= seq!['2', '0', '2', '3']);
        return Some(2023);
    }
    proof {
        if year@ == seq!['2', '0', '2', '2'] || year@ == seq!['2', '0', '2', '3'] {
            assert(c@.len() == 4 && c@[0] == '2' && c@[1] == '0' && c@[2] == '2');
        }
    }
    None
}

/// Reads a day selector.
pub fn parse_day(day: &str) -> (r: Option<u32>)
    ensures
        r == day_spec(day@),
{
    let c = text::chars_of(day);
    if c.len() == 4 && c[0] == 'd' && c[1] == 'a' && c[2] == 'y' && '1' <= c[3] && c[3] <= '9' {
        return Some((c[3] as u32 - '0' as u32) as u32);
    }
    None
}

/// `a` is what the day's parser and its two solvers, as their contracts
/// state them, make of `input`.
pub open spec fn answers_from<P: advent::Parse>(parser: &P, input: &str, a: (String, String)) -> bool {
    exists|d: P::Day|
        #[trigger] call_ensures(P::parse_input, (parser, input), Ok::<P::Day, advent::PuzzleError>(d))
            && call_ensures(
            <P::Day as advent::AdventDay>::solve_first_puzzle,
            (&d,),
            Ok::<String, advent::PuzzleError>(a.0),
        ) && call_ensures(
            <P::Day as advent::AdventDay>::solve_second_puzzle,
            (&d,),
            Ok::<String, advent::PuzzleError>(a.1),
        )
}

/// The day's parser, or one of its two solvers after it, fails with `e`,
/// as their contracts state it.
pub open spec fn fails_with<P: advent::Parse>(parser: &P, input: &str, e: advent::PuzzleError) -> bool {
    ||| call_ensures(P::parse_input, (parser, input), Err::<P::Day, advent::PuzzleError>(e))
    ||| exists|d: P::Day|
        call_ensures(P::parse_input, (parser, input), Ok::<P::Day, advent::PuzzleError>(d))
            && #[trigger] call_ensures(
            <P::Day as advent::AdventDay>::solve_first_puzzle,
            (&d,),
            Err::<String, advent::PuzzleError>(e),
        )
    ||| exists|d: P::Day, s: String|
        call_ensures(P::parse_input, (parser, input), Ok::<P::Day, advent::PuzzleError>(d))
            && #[trigger] call_ensures(
            <P::Day as advent::AdventDay>::solve_first_puzzle,
            (&d,),
            Ok::<String, advent::PuzzleError>(s),
        ) && #[trigger] call_ensures(
            <P::Day as advent::AdventDay>::solve_second_puzzle,
            (&d,),
            Err::<String, advent::PuzzleError>(e),
        )
}

/// Parses the input with a day's parser and gives the day's two answers.
pub fn run_day<P: advent::Parse>(parser: &P, puzzle_input: &str) -> (r: Result<
    (String, String),
    advent::PuzzleError,
>)
    ensures
        r matches Ok(a) ==> answers_from(parser, puzzle_input, a),
        r matches Err(e) ==> fails_with(parser, puzzle_input, e),
{
    let day = match parser.parse_input(puzzle_input) {
        Ok(d) => d,
        Err(e) => return Err(e),
    };
    assert(call_ensures(P::parse_input, (parser, puzzle_input), Ok::<P::Day, advent::PuzzleError>(day)));
    let first = match advent::AdventDay::solve_first_puzzle(&day) {
        Ok(s) => s,
        Err(e) => {
            assert(call_ensures(
                <P::Day as advent::AdventDay>::solve_first_puzzle,
                (&day,),
                Err::<String, advent::PuzzleError>(e),
            ));
            assert(fails_with(parser, puzzle_input, e));
            return Err(e);
        },
    };
    let second = match advent::AdventDay::solve_second_puzzle(&day) {
        Ok(s) => s,
        Err(e) => {
            assert(call_ensures(
                <P::Day as advent::AdventDay>::solve_first_puzzle,
                (&day,),
                Ok::<String, advent::PuzzleError>(first),
            ));
            assert(call_ensures(
                <P::Day as advent::AdventDay>::solve_second_puzzle,
                (&day,),
                Err::<String, advent::PuzzleError>(e),
            ));
            assert(fails_with(parser, puzzle_input, e));
            return Err(e);
        },
    };
    assert(answers_from(parser, puzzle_input, (first, second)));
    Ok((first, second))
}

/// The two answers of the puzzle of the given year and day for the given
/// input; an error for a year or a day without a solver, and the solver's
/// own error otherwise.
pub fn solve_puzzle(year_of_puzzle: &str, day_to_run: &str, puzzle_input: &str) -> (r: Result<
    (String, String),
    advent::PuzzleError,
>)
    ensures
        year_spec(year_of_puzzle@) is None <==> r == Err::<(String, String), advent::PuzzleError>(
            advent::PuzzleError::UnknownYear,
        ),
        (year_spec(year_of_puzzle@) matches Some(y) && !(day_spec(day_to_run@) matches Some(d)
            && is_registered(y, d))) <==> r == Err::<(String, String), advent::PuzzleError>(
            advent::PuzzleError::UnknownDay,
        ),
        (year_spec(year_of_puzzle@) == Some(2022u32) && day_spec(day_to_run@) == Some(1u32)) ==> (
        r matches Ok(a) ==> answers_from(&y2022::day1::NewDay1Puzzle {}, puzzle_input, a)) && (r matches Err(e) ==> fails_with(
            &y2022::day1::NewDay1Puzzle {},
            puzzle_input,
            e,
        ) || (e == advent::PuzzleError::NoAnswer && (fails_with(
            &y2022::day1::NewDay1Puzzle {},
            puzzle_input,
            advent::PuzzleError::UnknownYear,
        ) || fails_with(&y2022::day1::NewDay1Puzzle {}, puzzle_input, advent::PuzzleError::UnknownDay)))),
        (year_spec(year_of_puzzle@) == Some(2022u32) && day_spec(day_to_run@) == Some(2u32)) ==> (
        r matches Ok(a) ==> answers_from(&y2022::day2::NewDay2Puzzle {}, puzzle_input, a)) && (r matches Err(e) ==> fails_with(
            &y2022::day2::NewDay2Puzzle {},
            puzzle_input,
            e,
        ) || (e == advent::PuzzleError::NoAnswer && (fails_with(
            &y2022::day2::NewDay2Puzzle {},
            puzzle_input,
            advent::PuzzleError::UnknownYear,
        ) || fails_with(&y2022::day2::NewDay2Puzzle {}, puzzle_input, advent::PuzzleError::UnknownDay)))),
        (year_spec(year_of_puzzle@) == Some(2022u32) && day_spec(day_to_run@) == Some(3u32)) ==> (
        r matches Ok(a) ==> answers_from(&y2022::day3::NewDay3Puzzle {}, puzzle_input, a)) && (r matches Err(e) ==> fails_with(
            &y2022::day3::NewDay3Puzzle {},
            puzzle_input,
            e,
        ) || (e == advent::PuzzleError::NoAnswer && (fails_with(
            &y2022::day3::NewDay3Puzzle {},
            puzzle_input,
            advent::PuzzleError::UnknownYear,
        ) || fails_with(&y2022::day3::NewDay3Puzzle {}, puzzle_input, advent::PuzzleError::UnknownDay)))),
        (year_spec(year_of_puzzle@) == Some(2022u32) && day_spec(day_to_run@) == Some(4u32)) ==> (
        r matches Ok(a) ==> answers_from(&y2022::day4::NewDay4Puzzle {}, puzzle_input, a)) && (r matches Err(e) ==> fails_with(
            &y2022::day4::NewDay4Puzzle {},
            puzzle_input,
            e,
        ) || (e == advent::PuzzleError::NoAnswer && (fails_with(
            &y2022::day4::NewDay4Puzzle {},
            puzzle_input,
            advent::PuzzleError::UnknownYear,
        ) || fails_with(&y2022::day4::NewDay4Puzzle {}, puzzle_input, advent::PuzzleError::UnknownDay)))),
        (year_spec(year_of_puzzle@) == Some(2022u32) && day_spec(day_to_run@) == Some(5u32)) ==> (
        r matches Ok(a) ==> answers_from(&y2022::day5::NewDay5Puzzle {}, puzzle_input, a)) && (r matches Err(e) ==> fails_with(
            &y2022::day5::NewDay5Puzzle {},
            puzzle_input,
            e,
        ) || (e == advent::PuzzleError::NoAnswer && (fails_with(
            &y2022::day5::NewDay5Puzzle {},
            puzzle_input,
            advent::PuzzleError::UnknownYear,
        ) || fails_with(&y2022::day5::NewDay5Puzzle {}, puzzle_input, advent::PuzzleError::UnknownDay)))),
        (year_spec(year_of_puzzle@) == Some(2023u32) && day_spec(day_to_run@) == Some(1u32)) ==> (
        r matches Ok(a) ==> answers_from(&y2023::day1::NewDay1Puzzle {}, puzzle_input, a)) && (r matches Err(e) ==> fails_with(
            &y2023::day1::NewDay1Puzzle {},
            puzzle_input,
            e,
        ) || (e == advent::PuzzleError::NoAnswer && (fails_with(
            &y2023::day1::NewDay1Puzzle {},
            puzzle_input,
            advent::PuzzleError::UnknownYear,
        ) || fails_with(&y2023::day1::NewDay1Puzzle {}, puzzle_input, advent::PuzzleError::UnknownDay)))),
        (year_spec(year_of_puzzle@) == Some(2023u32) && day_spec(day_to_run@) == Some(2u32)) ==> (
        r matches Ok(a) ==> answers_from(&y2023::day2::NewDay2Puzzle {}, puzzle_input, a)) && (r matches Err(e) ==> fails_with(
            &y2023::day2::NewDay2Puzzle {},
            puzzle_input,
            e,
        ) || (e == advent::PuzzleError::NoAnswer && (fails_with(
            &y2023::day2::NewDay2Puzzle {},
            puzzle_input,
            advent::PuzzleError::UnknownYear,
        ) || fails_with(&y2023::day2::NewDay2Puzzle {}, puzzle_input, advent::PuzzleError::UnknownDay)))),
        (year_spec(year_of_puzzle@) == Some(2023u32) && day_spec(day_to_run@) == Some(3u32)) ==> (
        r matches Ok(a) ==> answers_from(&y2023::day3::NewDay3Puzzle {}, puzzle_input, a)) && (r matches Err(e) ==> fails_with(
            &y2023::day3::NewDay3Puzzle {},
            puzzle_input,
            e,
        ) || (e == advent::PuzzleError::NoAnswer && (fails_with(
            &y2023::day3::NewDay3Puzzle {},
            puzzle_input,
            advent::PuzzleError::UnknownYear,
        ) || fails_with(&y2023::day3::NewDay3Puzzle {}, puzzle_input, advent::PuzzleError::UnknownDay)))),
        (year_spec(year_of_puzzle@) == Some(2023u32) && day_spec(day_to_run@) == Some(4u32)) ==> (
        r matches Ok(a) ==> answers_from(&y2023::day4::NewDay4Puzzle {}, puzzle_input, a)) && (r matches Err(e) ==> fails_with(
            &y2023::day4::NewDay4Puzzle {},
            puzzle_input,
            e,
        ) || (e == advent::PuzzleError::NoAnswer && (fails_with(
            &y2023::day4::NewDay4Puzzle {},
            puzzle_input,
            advent::PuzzleError::UnknownYear,
        ) || fails_with(&y2023::day4::NewDay4Puzzle {}, puzzle_input, advent::PuzzleError::UnknownDay)))),
        (year_spec(year_of_puzzle@) == Some(2023u32) && day_spec(day_to_run@) == Some(5u32)) ==> (
        r matches Ok(a) ==> answers_from(&y2023::day5::NewDay5Puzzle {}, puzzle_input, a)) && (r matches Err(e) ==> fails_with(
            &y2023::day5::NewDay5Puzzle {},
            puzzle_input,
            e,
        ) || (e == advent::PuzzleError::NoAnswer && (fails_with(
            &y2023::day5::NewDay5Puzzle {},
            puzzle_input,
            advent::PuzzleError::UnknownYear,
        ) || fails_with(&y2023::day5::NewDay5Puzzle {}, puzzle_input, advent::PuzzleError::UnknownDay)))),
        (year_spec(year_of_puzzle@) == Some(2023u32) && day_spec(day_to_run@) == Some(6u32)) ==> (
        r matches Ok(a) ==> answers_from(&y2023::day6::NewDay6Puzzle {}, puzzle_input, a)) && (r matches Err(e) ==> fails_with(
            &y2023::day6::NewDay6Puzzle {},
            puzzle_input,
            e,
        ) || (e == advent::PuzzleError::NoAnswer && (fails_with(
            &y2023::day6::NewDay6Puzzle {},
            puzzle_input,
            advent::PuzzleError::UnknownYear,
        ) || fails_with(&y2023::day6::NewDay6Puzzle {}, puzzle_input, advent::PuzzleError::UnknownDay)))),
        (year_spec(year_of_puzzle@) == Some(2023u32) && day_spec(day_to_run@) == Some(7u32)) ==> (
        r matches Ok(a) ==> answers_from(&y2023::day7::NewDay7Puzzle {}, puzzle_input, a)) && (r matches Err(e) ==> fails_with(
            &y2023::day7::NewDay7Puzzle {},
            puzzle_input,
            e,
        ) || (e == advent::PuzzleError::NoAnswer && (fails_with(
            &y2023::day7::NewDay7Puzzle {},
            puzzle_input,
            advent::PuzzleError::UnknownYear,
        ) || fails_with(&y2023::day7::NewDay7Puzzle {}, puzzle_input, advent::PuzzleError::UnknownDay)))),
        (year_spec(year_of_puzzle@) == Some(2023u32) && day_spec(day_to_run@) == Some(8u32)) ==> (
        r matches Ok(a) ==> answers_from(&y2023::day8::NewDay8Puzzle {}, puzzle_input, a)) && (r matches Err(e) ==> fails_with(
            &y2023::day8::NewDay8Puzzle {},
            puzzle_input,
            e,
        ) || (e == advent::PuzzleError::NoAnswer && (fails_with(
            &y2023::day8::NewDay8Puzzle {},
            puzzle_input,
            advent::PuzzleError::UnknownYear,
        ) || fails_with(&y2023::day8::NewDay8Puzzle {}, puzzle_input, advent::PuzzleError::UnknownDay)))),
        (year_spec(year_of_puzzle@) == Some(2023u32) && day_spec(day_to_run@) == Some(9u32)) ==> (
        r matches Ok(a) ==> answers_from(&y2023::day9::NewDay9Puzzle {}, puzzle_input, a)) && (r matches Err(e) ==> fails_with(
            &y2023::day9::NewDay9Puzzle {},
            puzzle_input,
            e,
        ) || (e == advent::PuzzleError::NoAnswer && (fails_with(
            &y2023::day9::NewDay9Puzzle {},
            puzzle_input,
            advent::PuzzleError::UnknownYear,
        ) || fails_with(&y2023::day9::NewDay9Puzzle {}, puzzle_input, advent::PuzzleError::UnknownDay)))),
{
    let year = match parse_year(year_of_puzzle) {
        Some(y) => y,
        None => return Err(advent::PuzzleError::UnknownYear),
    };
    let day = match parse_day(day_to_run) {
        Some(d) => d,
        None => return Err(advent::PuzzleError::UnknownDay),
    };
    let r = if year == 2022 {
        if day == 1 {
            run_day(&y2022::day1::NewDay1Puzzle {}, puzzle_input)
        } else if day == 2 {
            run_day(&y2022::day2::NewDay2Puzzle {}, puzzle_input)
        } else if day == 3 {
            run_day(&y2022::day3::NewDay3Puzzle {}, puzzle_input)
        } else if day == 4 {
            run_day(&y2022::day4::NewDay4Puzzle {}, puzzle_input)
        } else if day == 5 {
            run_day(&y2022::day5::NewDay5Puzzle {}, puzzle_input)
        } else {
            return Err(advent::PuzzleError::UnknownDay);
        }
    } else if day == 1 {
        run_day(&y2023::day1::NewDay1Puzzle {}, puzzle_input)
    } else if day == 2 {
        run_day(&y2023::day2::NewDay2Puzzle {}, puzzle_input)
    } else if day == 3 {
        run_day(&y2023::day3::NewDay3Puzzle {}, puzzle_input)
    } else if day == 4 {
        run_day(&y2023::day4::NewDay4Puzzle {}, puzzle_input)
    } else if day == 5 {
        run_day(&y2023::day5::NewDay5Puzzle {}, puzzle_input)
    } else if day == 6 {
        run_day(&y2023::day6::NewDay6Puzzle {}, puzzle_input)
    } else if day == 7 {
        run_day(&y2023::day7::NewDay7Puzzle {}, puzzle_input)
    } else if day == 8 {
        run_day(&y2023::day8::NewDay8Puzzle {}, puzzle_input)
    } else {
        run_day(&y2023::day9::NewDay9Puzzle {}, puzzle_input)
    };
    // A solver's own error is never taken for a missing solver.
    match r {
        Ok(answers) => Ok(answers),
        Err(e) => {
            if e == advent::PuzzleError::UnknownYear || e == advent::PuzzleError::UnknownDay {
                Err(advent::PuzzleError::NoAnswer)
            } else {
                Err(e)
            }
        },
    }
}

} // verus!
