use rust_advent::advent::PuzzleError;
use rust_advent::{parse_day, parse_year, solve_puzzle, CLIParams};

#[test]
fn command_line_needs_year_day_and_path() {
    let args = |v: &[&str]| v.iter().map(|s| s.to_string()).collect::<Vec<String>>();
    assert_eq!(CLIParams::build(args(&["prog"])).err(), Some("Year of puzzle not provided!"));
    assert_eq!(CLIParams::build(args(&["prog", "2022"])).err(), Some("Day to run not provided!"));
    assert_eq!(
        CLIParams::build(args(&["prog", "2022", "day1"])).err(),
        Some("Path to puzzle input not provided!")
    );
    let params = CLIParams::build(args(&["prog", "2023", "day4", "input.txt"])).ok().unwrap();
    assert_eq!(params.year_of_puzzle, "2023");
    assert_eq!(params.day_to_run, "day4");
    assert_eq!(params.input_path, "input.txt");
}

#[test]
fn selectors_are_read() {
    assert_eq!(parse_year("2022"), Some(2022));
    assert_eq!(parse_year("2024"), None);
    assert_eq!(parse_day("day7"), Some(7));
    assert_eq!(parse_day("day10"), None);
}

#[test]
fn unknown_year_or_day_is_refused() {
    assert_eq!(solve_puzzle("2021", "day1", "1"), Err(PuzzleError::UnknownYear));
    assert_eq!(solve_puzzle("2022", "day6", "1"), Err(PuzzleError::UnknownDay));
    assert_eq!(solve_puzzle("2023", "dayX", "1"), Err(PuzzleError::UnknownDay));
}

#[test]
fn registry_runs_each_day() {
    let rps = solve_puzzle("2022", "day2", "A Y\nB X\nC Z").unwrap();
    assert_eq!(rps, ("15".to_string(), "12".to_string()));
    let cleanup = solve_puzzle("2022", "day4", "2-4,6-8\n2-3,4-5\n5-7,7-9\n2-8,3-7\n6-6,4-6\n2-6,4-8");
    assert_eq!(cleanup.unwrap(), ("2".to_string(), "4".to_string()));
    let calories = solve_puzzle("2022", "day1", "5\n7\n3\n\n9\n1\n\n10\n2\n8").unwrap();
    assert_eq!(calories, ("20".to_string(), "45".to_string()));
    let crates = solve_puzzle(
        "2022",
        "day5",
        "    [D]    \n[N] [C]    \n[Z] [M] [P]\n 1   2   3 \n\nmove 1 from 2 to 1\nmove 3 from 1 to 3\nmove 2 from 2 to 1\nmove 1 from 1 to 2",
    )
    .unwrap();
    assert_eq!(crates, ("CMZ".to_string(), "MCD".to_string()));
    let rucksacks = solve_puzzle(
        "2022",
        "day3",
        "vJrwpWtwJgWrhcsFMMfFFhFp\njqHRNqRjqzjGDLGLrsFMfFZSrLrFZsSL\nPmmdzqPrVvPwwTWBwg\nwMqvLMZHhHMvwLHjbvcjnnSBnvTQFn\nttgJtRGJQctTZtZT\nCrZsJsPPZsGzwwsLwLmpwMDw",
    )
    .unwrap();
    assert_eq!(rucksacks, ("157".to_string(), "70".to_string()));
    let trebuchet = solve_puzzle("2023", "day1", "1abc2\npqr3stu8vwx\na1b2c3d4e5f\ntreb7uchet");
    assert_eq!(trebuchet.unwrap().0, "142");
    let cubes = solve_puzzle(
        "2023",
        "day2",
        "Game 1: 3 blue, 4 red; 1 red, 2 green, 6 blue; 2 green\nGame 2: 1 blue, 2 green; 3 green, 4 blue, 1 red; 1 green, 1 blue\nGame 3: 8 green, 6 blue, 20 red; 5 blue, 4 red, 13 green; 5 green, 1 red\nGame 4: 1 green, 3 red, 6 blue; 3 green, 6 red; 3 green, 15 blue, 14 red\nGame 5: 6 red, 1 blue, 3 green; 2 blue, 1 red, 2 green",
    )
    .unwrap();
    assert_eq!(cubes, ("8".to_string(), "2286".to_string()));
    let camel = solve_puzzle("2023", "day7", "32T3K 765\nT55J5 684\nKK677 28\nKTJJT 220\nQQQJA 483");
    assert_eq!(camel.unwrap(), ("6440".to_string(), "5905".to_string()));
}
