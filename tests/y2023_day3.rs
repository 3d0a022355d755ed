use rust_advent::advent::{AdventDay, Parse};
use rust_advent::y2023::day3::{
    combine_split_part_number, combine_split_part_number_ascending,
    combine_split_part_number_descending, deduplicate_part_indices, extract_part_numbers_to_sum,
    find_part_indices_adjacent_to_symbol, sum_of_gear_ratios, NewDay3Puzzle,
};

#[test]
fn combine_split_part_number_descending_1() {
    let expected = String::from("14");

    let actual = combine_split_part_number_descending(
        &vec![
            String::from("1"),
            String::from("4"),
            String::from("6"),
            String::from("7"),
            String::from("5"),
        ],
        2,
    );

    assert_eq!(expected, actual);
}

#[test]
fn combine_split_part_number_ascending_1() {
    let expected = String::from("75");

    let actual = combine_split_part_number_ascending(
        &vec![
            String::from("1"),
            String::from("4"),
            String::from("6"),
            String::from("7"),
            String::from("5"),
        ],
        2,
    );

    assert_eq!(expected, actual);
}

#[test]
fn combine_split_part_number_1() {
    let expected: u32 = 14675;

    let actual = combine_split_part_number(
        &vec![
            String::from("1"),
            String::from("4"),
            String::from("6"),
            String::from("7"),
            String::from("5"),
        ],
        2,
    ).unwrap();

    assert_eq!(expected, actual);
}

#[test]
fn combine_split_part_number_descending_2() {
    let expected = String::from("14");

    let actual = combine_split_part_number_descending(
        &vec![
            String::from("."),
            String::from("."),
            String::from("."),
            String::from("1"),
            String::from("4"),
            String::from("6"),
            String::from("7"),
            String::from("5"),
        ],
        5,
    );

    assert_eq!(expected, actual);
}

#[test]
fn combine_split_part_number_ascending_2() {
    let expected = String::from("75");

    let actual = combine_split_part_number_ascending(
        &vec![
            String::from("1"),
            String::from("4"),
            String::from("6"),
            String::from("7"),
            String::from("5"),
            String::from("."),
            String::from("."),
            String::from("."),
        ],
        2,
    );

    assert_eq!(expected, actual);
}

#[test]
fn combine_split_part_number_2() {
    let expected: u32 = 14675;

    let actual = combine_split_part_number(
        &vec![
            String::from("."),
            String::from("."),
            String::from("."),
            String::from("."),
            String::from("1"),
            String::from("4"),
            String::from("6"),
            String::from("7"),
            String::from("5"),
            String::from("."),
            String::from("."),
            String::from("."),
            String::from("."),
        ],
        6,
    ).unwrap();

    assert_eq!(expected, actual);
}

#[test]
fn find_adjacent_part_indices_1() {
    let expected = vec![(2, 0), (2, 2), (3, 2)];

    let input = "\
467..114..
...*......
..35..633."
        .split("\n")
        .map(|line| line.chars().map(String::from).collect::<Vec<String>>())
        .collect::<Vec<_>>();
    let actual = find_part_indices_adjacent_to_symbol(&input, false);

    assert_eq!(expected, actual);
}

#[test]
fn deduplicate_part_indices_1() {
    let expected = vec![(2, 0), (2, 2)];

    let actual = deduplicate_part_indices(vec![(2, 0), (2, 2), (3, 2)]);

    assert_eq!(expected, actual);
}

#[test]
fn extract_part_numbers_to_sum_1() {
    let expected = vec![467, 35, 633, 617, 592, 664, 755, 598];

    let input = "\
467..114..
...*......
..35..633.
......#.*.
617*......
.....+.58.
..592.....
......755.
...$.*....
.664.598.."
        .split("\n")
        .map(|line| line.chars().map(String::from).collect::<Vec<String>>())
        .collect::<Vec<_>>();
    let actual = extract_part_numbers_to_sum(&input, false).unwrap();

    assert_eq!(expected, actual);
}

#[test]
fn extract_part_numbers_to_sum_2() {
    let expected = vec![467, 35, 755, 598];

    let input = "\
467..114..
...*......
..35..633.
......#...
617*......
.....+.58.
..592.....
......755.
...$.*....
.664.598.."
        .split("\n")
        .map(|line| line.chars().map(String::from).collect::<Vec<String>>())
        .collect::<Vec<_>>();
    let actual = extract_part_numbers_to_sum(&input, true).unwrap();

    assert_eq!(expected, actual);
}

#[test]
fn engine_schematic_answers() {
    let input = "\
467..114..
...*......
..35..633.
......#...
617*......
.....+.58.
..592.....
......755.
...$.*....
.664.598..";
    let day = NewDay3Puzzle {}.parse_input(input).unwrap();
    assert_eq!(day.solve_first_puzzle().unwrap(), "4361");
    assert_eq!(day.solve_second_puzzle().unwrap(), "467835");
}

#[test]
fn gear_ratios_need_pairs() {
    assert_eq!(sum_of_gear_ratios(&vec![467, 35, 755, 598]).unwrap(), 467835);
    assert!(sum_of_gear_ratios(&vec![467, 35, 755]).is_err());
}

#[test]
fn part_number_next_to_two_symbols_counts_once() {
    let grid = "#1#\n.22\n*.."
        .split("\n")
        .map(|line| line.chars().map(String::from).collect::<Vec<String>>())
        .collect::<Vec<_>>();
    assert_eq!(extract_part_numbers_to_sum(&grid, false).unwrap(), vec![1, 22]);
}
