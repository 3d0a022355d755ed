use std::collections::VecDeque;

use rust_advent::y2022::day5::{
    move_crates_between_stacks, parse_count_of_stacks, parse_rearrangement_procedure,
    parse_rearrangement_procedure_line, parse_stacks_of_crates, retrieve_crates_on_top_of_stacks,
    split_input_into_sections, MOVE_FROM_EMPTY_STACK_ERROR_MESSAGE, OVERFLOW_ERROR_MESSAGE,
    STACK_INDEX_ERROR_MESSAGE,
};

#[test]
fn day_5_move_1_from_2_to_1() {
    let expected = vec![
        VecDeque::from([String::from("D"), String::from("N"), String::from("Z")]),
        VecDeque::from([String::from("C"), String::from("M")]),
        VecDeque::from([String::from("P")]),
    ];

    let input = vec![
        VecDeque::from([String::from("N"), String::from("Z")]),
        VecDeque::from([String::from("D"), String::from("C"), String::from("M")]),
        VecDeque::from([String::from("P")]),
    ];
    let actual = move_crates_between_stacks(input, 1, 2, 1, false).unwrap();

    assert_eq!(expected, actual);
}

#[test]
fn day_5_move_3_from_1_to_3() {
    let expected = vec![
        VecDeque::from([]),
        VecDeque::from([String::from("C"), String::from("M")]),
        VecDeque::from([
            String::from("Z"),
            String::from("N"),
            String::from("D"),
            String::from("P"),
        ]),
    ];

    let input = vec![
        VecDeque::from([String::from("D"), String::from("N"), String::from("Z")]),
        VecDeque::from([String::from("C"), String::from("M")]),
        VecDeque::from([String::from("P")]),
    ];
    let actual = move_crates_between_stacks(input, 3, 1, 3, false).unwrap();

    assert_eq!(expected, actual);
}

#[test]
fn day_5_move_3_from_1_to_3_crate_mover_9001() {
    let expected = vec![
        VecDeque::from([]),
        VecDeque::from([String::from("C"), String::from("M")]),
        VecDeque::from([
            String::from("D"),
            String::from("N"),
            String::from("Z"),
            String::from("P"),
        ]),
    ];

    let input = vec![
        VecDeque::from([String::from("D"), String::from("N"), String::from("Z")]),
        VecDeque::from([String::from("C"), String::from("M")]),
        VecDeque::from([String::from("P")]),
    ];
    let actual = move_crates_between_stacks(input, 3, 1, 3, true).unwrap();

    assert_eq!(expected, actual);
}

#[test]
fn day_5_move_2_from_2_to_1() {
    let expected = vec![
        VecDeque::from([String::from("M"), String::from("C")]),
        VecDeque::from([]),
        VecDeque::from([
            String::from("Z"),
            String::from("N"),
            String::from("D"),
            String::from("P"),
        ]),
    ];

    let input = vec![
        VecDeque::from([]),
        VecDeque::from([String::from("C"), String::from("M")]),
        VecDeque::from([
            String::from("Z"),
            String::from("N"),
            String::from("D"),
            String::from("P"),
        ]),
    ];
    let actual = move_crates_between_stacks(input, 2, 2, 1, false).unwrap();

    assert_eq!(expected, actual);
}

#[test]
fn day_5_move_1_from_1_to_2() {
    let expected = vec![
        VecDeque::from([String::from("C")]),
        VecDeque::from([String::from("M")]),
        VecDeque::from([
            String::from("Z"),
            String::from("N"),
            String::from("D"),
            String::from("P"),
        ]),
    ];

    let input = vec![
        VecDeque::from([String::from("M"), String::from("C")]),
        VecDeque::from([]),
        VecDeque::from([
            String::from("Z"),
            String::from("N"),
            String::from("D"),
            String::from("P"),
        ]),
    ];
    let actual = move_crates_between_stacks(input, 1, 1, 2, false).unwrap();

    assert_eq!(expected, actual);
}

#[test]
fn day_5_move_from_non_existent_stack_catch_overflow() {
    let expected = Some(OVERFLOW_ERROR_MESSAGE);

    let input = vec![
        VecDeque::from([String::from("N"), String::from("Z")]),
        VecDeque::from([String::from("D"), String::from("C"), String::from("M")]),
        VecDeque::from([String::from("P")]),
    ];
    let actual = move_crates_between_stacks(input, 1, 0, 2, false);

    assert_eq!(expected, actual.err());
}

#[test]
fn day_5_move_to_non_existent_stack_catch_overflow() {
    let expected = Some(OVERFLOW_ERROR_MESSAGE);

    let input = vec![
        VecDeque::from([String::from("N"), String::from("Z")]),
        VecDeque::from([String::from("D"), String::from("C"), String::from("M")]),
        VecDeque::from([String::from("P")]),
    ];
    let actual = move_crates_between_stacks(input, 1, 1, 0, false);

    assert_eq!(expected, actual.err());
}

#[test]
fn day_5_move_from_non_existent_stack() {
    let expected = Some(STACK_INDEX_ERROR_MESSAGE);

    let input = vec![
        VecDeque::from([String::from("N"), String::from("Z")]),
        VecDeque::from([String::from("D"), String::from("C"), String::from("M")]),
        VecDeque::from([String::from("P")]),
    ];
    let actual = move_crates_between_stacks(input, 1, 5, 2, false);

    assert_eq!(expected, actual.err());
}

#[test]
fn day_5_move_to_non_existent_stack() {
    let expected = Some(STACK_INDEX_ERROR_MESSAGE);

    let input = vec![
        VecDeque::from([String::from("N"), String::from("Z")]),
        VecDeque::from([String::from("D"), String::from("C"), String::from("M")]),
        VecDeque::from([String::from("P")]),
    ];
    let actual = move_crates_between_stacks(input, 1, 1, 7, false);

    assert_eq!(expected, actual.err());
}

#[test]
fn day_5_move_too_many_crates_from_stack() {
    let expected = Some(MOVE_FROM_EMPTY_STACK_ERROR_MESSAGE);

    let input = vec![
        VecDeque::from([String::from("N"), String::from("Z")]),
        VecDeque::from([String::from("D"), String::from("C"), String::from("M")]),
        VecDeque::from([String::from("P")]),
    ];
    let actual = move_crates_between_stacks(input, 4, 1, 3, false);

    assert_eq!(expected, actual.err());
}

#[test]
fn day_5_get_crates_on_top_of_stacks() {
    let expected = "CMZ";

    let input = vec![
        VecDeque::from([String::from("C")]),
        VecDeque::from([String::from("M")]),
        VecDeque::from([
            String::from("Z"),
            String::from("N"),
            String::from("D"),
            String::from("P"),
        ]),
    ];
    let actual = retrieve_crates_on_top_of_stacks(&input).unwrap();

    assert_eq!(expected, actual);
}

#[test]
fn day_5_parse_stacks_of_crates() {
    let expected = vec![
        VecDeque::from([String::from("D"), String::from("N"), String::from("Z")]),
        VecDeque::from([String::from("C"), String::from("M")]),
        VecDeque::from([String::from("P")]),
    ];

    let input = "\
[D]        
[N] [C]    
[Z] [M] [P]";
    let actual = parse_stacks_of_crates(input, 3).unwrap();
    assert_eq!(expected, actual);
}

#[test]
fn day_5_parse_more_stacks_of_crates() {
    let expected = vec![
        VecDeque::from([
            String::from("R"),
            String::from("D"),
            String::from("N"),
            String::from("Z"),
        ]),
        VecDeque::from([String::from("V"), String::from("C"), String::from("M")]),
        VecDeque::from([
            String::from("B"),
            String::from("S"),
            String::from("Q"),
            String::from("P"),
        ]),
        VecDeque::from([String::from("G"), String::from("A")]),
        VecDeque::from([
            String::from("I"),
            String::from("Y"),
            String::from("O"),
            String::from("U"),
        ]),
    ];

    let input = "\
[R]     [B]     [I]
[D] [V] [S]     [Y]
[N] [C] [Q] [G] [O]
[Z] [M] [P] [A] [U]";
    let actual = parse_stacks_of_crates(input, 5).unwrap();
    assert_eq!(expected, actual);
}

#[test]
fn day_5_parse_count_of_stacks_5() {
    let expected = 5;

    let input = " 1   2   3   4   5 ";
    let actual = parse_count_of_stacks(input).unwrap();

    assert_eq!(expected, actual);
}

#[test]
fn day_5_parse_count_of_stacks_3() {
    let expected = 3;

    let input = " 1   2   3 ";
    let actual = parse_count_of_stacks(input).unwrap();

    assert_eq!(expected, actual);
}

#[test]
fn day_5_parse_rearrangement_procedure_line() {
    let expected: (u32, usize, usize) = (1, 2, 1);

    let input = "move 1 from 2 to 1";
    let actual = parse_rearrangement_procedure_line(input).unwrap();

    assert_eq!(expected, actual);
}

#[test]
fn day_5_parse_rearrangement_procedure_line_complex_digits() {
    let expected: (u32, usize, usize) = (120102, 2239452, 64321);

    let input = "move 120102 from 2239452 to 64321";
    let actual = parse_rearrangement_procedure_line(input).unwrap();

    assert_eq!(expected, actual);
}

#[test]
fn day_5_parse_rearrangement_procedure() {
    let expected: Vec<(u32, usize, usize)> = vec![(1, 2, 1), (3, 1, 3), (2, 2, 1), (1, 1, 2)];

    let input = "\
move 1 from 2 to 1
move 3 from 1 to 3
move 2 from 2 to 1
move 1 from 1 to 2";
    let actual = parse_rearrangement_procedure(input).unwrap();

    assert_eq!(expected, actual);
}

#[test]
fn day_5_parse_combined_input() {
    let expected = (
        "\
[D]    
[N] [C]    
[Z] [M] [P]",
        " 1   2   3 ",
        "\
move 1 from 2 to 1
move 3 from 1 to 3
move 2 from 2 to 1
move 1 from 1 to 2",
    );

    let input = "\
[D]    
[N] [C]    
[Z] [M] [P]
 1   2   3 

move 1 from 2 to 1
move 3 from 1 to 3
move 2 from 2 to 1
move 1 from 1 to 2";
    let actual = split_input_into_sections(input).unwrap();

    assert_eq!(expected, actual);
}
