use rust_advent::y2022::day2::{
    calculate_score, calculate_total_tournament_score_part_one,
    calculate_total_tournament_score_part_two, check_letters_are_valid,
    extract_letters_and_validate, extract_two_letters_separated_by_space, find_move_to_play,
    parse_rock_paper_scissors_games, rock_paper_scissors, RockPaperScissors, WinLossDraw,
};

#[test]
fn a_to_rock() {
    let expected = RockPaperScissors::Rock;

    let actual = RockPaperScissors::from("A");

    assert_eq!(actual, expected)
}

#[test]
fn b_to_paper() {
    let expected = RockPaperScissors::Paper;

    let actual = RockPaperScissors::from("B");

    assert_eq!(actual, expected)
}

#[test]
fn c_to_scissors() {
    let expected = RockPaperScissors::Scissors;

    let actual = RockPaperScissors::from("C");

    assert_eq!(actual, expected)
}

#[test]
fn x_to_rock() {
    let expected = RockPaperScissors::Rock;

    let actual = RockPaperScissors::from("X");

    assert_eq!(actual, expected)
}

#[test]
fn y_to_paper() {
    let expected = RockPaperScissors::Paper;

    let actual = RockPaperScissors::from("Y");

    assert_eq!(actual, expected)
}

#[test]
fn z_to_scissors() {
    let expected = RockPaperScissors::Scissors;

    let actual = RockPaperScissors::from("Z");

    assert_eq!(actual, expected)
}

#[test]
fn x_to_loss() {
    let expected = WinLossDraw::Loss;

    let actual = WinLossDraw::from("X");

    assert_eq!(actual, expected)
}

#[test]
fn y_to_draw() {
    let expected = WinLossDraw::Draw;

    let actual = WinLossDraw::from("Y");

    assert_eq!(actual, expected)
}

#[test]
fn z_to_win() {
    let expected = WinLossDraw::Win;

    let actual = WinLossDraw::from("Z");

    assert_eq!(actual, expected)
}

#[test]
fn rock_beats_scissors_win() {
    let expected = WinLossDraw::Win;

    let actual = rock_paper_scissors(&RockPaperScissors::Scissors, &RockPaperScissors::Rock);

    assert_eq!(actual, expected);
}

#[test]
fn scissors_beats_paper_win() {
    let expected = WinLossDraw::Win;

    let actual = rock_paper_scissors(&RockPaperScissors::Paper, &RockPaperScissors::Scissors);

    assert_eq!(actual, expected);
}

#[test]
fn paper_beats_rock_win() {
    let expected = WinLossDraw::Win;

    let actual = rock_paper_scissors(&RockPaperScissors::Rock, &RockPaperScissors::Paper);

    assert_eq!(actual, expected);
}

#[test]
fn rock_beats_scissors_loss() {
    let expected = WinLossDraw::Loss;

    let actual = rock_paper_scissors(&RockPaperScissors::Rock, &RockPaperScissors::Scissors);

    assert_eq!(actual, expected);
}

#[test]
fn scissors_beats_paper_loss() {
    let expected = WinLossDraw::Loss;

    let actual = rock_paper_scissors(&RockPaperScissors::Scissors, &RockPaperScissors::Paper);

    assert_eq!(actual, expected);
}

#[test]
fn paper_beats_rock_loss() {
    let expected = WinLossDraw::Loss;

    let actual = rock_paper_scissors(&RockPaperScissors::Paper, &RockPaperScissors::Rock);

    assert_eq!(actual, expected);
}

#[test]
fn rock_draw() {
    let expected = WinLossDraw::Draw;

    let actual = rock_paper_scissors(&RockPaperScissors::Rock, &RockPaperScissors::Rock);

    assert_eq!(actual, expected);
}

#[test]
fn scissors_draw() {
    let expected = WinLossDraw::Draw;

    let actual =
        rock_paper_scissors(&RockPaperScissors::Scissors, &RockPaperScissors::Scissors);

    assert_eq!(actual, expected);
}

#[test]
fn paper_draw() {
    let expected = WinLossDraw::Draw;

    let actual = rock_paper_scissors(&RockPaperScissors::Paper, &RockPaperScissors::Paper);

    assert_eq!(actual, expected);
}

#[test]
fn draw_against_rock() {
    let expected = RockPaperScissors::Rock;

    let actual = find_move_to_play(&WinLossDraw::Draw, &RockPaperScissors::Rock);

    assert_eq!(actual, expected);
}

#[test]
fn lose_against_scissors() {
    let expected = RockPaperScissors::Paper;

    let actual = find_move_to_play(&WinLossDraw::Loss, &RockPaperScissors::Scissors);

    assert_eq!(actual, expected);
}

#[test]
fn win_against_paper() {
    let expected = RockPaperScissors::Scissors;

    let actual = find_move_to_play(&WinLossDraw::Win, &RockPaperScissors::Paper);

    assert_eq!(actual, expected);
}

#[test]
fn rock_vs_paper_win_score() {
    let expected = 8;

    let actual = calculate_score(&WinLossDraw::Win, &RockPaperScissors::Paper);

    assert_eq!(actual, expected)
}

#[test]
fn paper_vs_rock_loss_score() {
    let expected = 1;

    let actual = calculate_score(&WinLossDraw::Loss, &RockPaperScissors::Rock);

    assert_eq!(actual, expected)
}

#[test]
fn scissors_vs_scissors_draw_score() {
    let expected = 6;

    let actual = calculate_score(&WinLossDraw::Draw, &RockPaperScissors::Scissors);

    assert_eq!(actual, expected)
}

#[test]
fn total_score_of_multiple_games_part_one() {
    let expected = 15;

    let games = vec![
        (String::from("A"), String::from("Y")),
        (String::from("B"), String::from("X")),
        (String::from("C"), String::from("Z")),
    ];
    let actual = calculate_total_tournament_score_part_one(&games);

    assert_eq!(actual, expected)
}

#[test]
fn total_score_of_multiple_games_part_two() {
    let expected = 12;

    let games = vec![
        (String::from("A"), String::from("Y")),
        (String::from("B"), String::from("X")),
        (String::from("C"), String::from("Z")),
    ];
    let actual = calculate_total_tournament_score_part_two(&games);

    assert_eq!(actual, expected)
}

#[test]
fn day_2_extract_two_letters() {
    let expected = (String::from("B"), String::from("X"));

    let input = "B X";
    let actual = extract_two_letters_separated_by_space(input).unwrap();

    assert_eq!(actual, expected);
}

#[test]
fn day_2_extract_two_letters_fail_on_one_letter() {
    let input = "B";
    let actual = extract_two_letters_separated_by_space(input);

    assert!(actual.is_err())
}

#[test]
fn day_2_extract_two_letters_fail_on_no_letters() {
    let input = "";
    let actual = extract_two_letters_separated_by_space(input);

    assert!(actual.is_err())
}

#[test]
fn day_2_valid_letters() {
    let expected = (String::from("A"), String::from("Y"));

    let input = expected;
    check_letters_are_valid(&input).unwrap();
}

#[test]
fn day_2_invalid_first_letter() {
    let input = (String::from("G"), String::from("X"));
    let actual = check_letters_are_valid(&input);

    assert!(actual.is_err())
}

#[test]
fn day_2_invalid_second_letter() {
    let input = (String::from("A"), String::from("M"));
    let actual = check_letters_are_valid(&input);

    assert!(actual.is_err())
}

#[test]
fn day_2_invalid_invalid_letters() {
    let input = (String::from("L"), String::from("E"));
    let actual = check_letters_are_valid(&input);

    assert!(actual.is_err())
}

#[test]
fn day_2_invalid_empty_letters() {
    let input = (String::from(" "), String::from(" "));
    let actual = check_letters_are_valid(&input);

    assert!(actual.is_err())
}

#[test]
fn day_2_extract_and_validate_valid_letters() {
    let expected = (String::from("A"), String::from("Z"));

    let input = "A Z";
    let actual = extract_letters_and_validate(&input).unwrap();

    assert_eq!(actual, expected);
}

#[test]
fn day_2_extract_and_validate_invalid_first_letter() {
    let input = "Q Z";
    let actual = extract_letters_and_validate(&input);

    assert!(actual.is_err());
}

#[test]
fn day_2_extract_and_validate_invalid_second_letter() {
    let input = "B R";
    let actual = extract_letters_and_validate(&input);

    assert!(actual.is_err());
}

#[test]
fn day_2_extract_and_validate_empty_first_letter() {
    let input = "  Y";
    let actual = extract_letters_and_validate(&input);

    assert!(actual.is_err());
}

#[test]
fn day_2_extract_and_validate_empty_second_letter() {
    let input = "C  ";
    let actual = extract_letters_and_validate(&input);

    assert!(actual.is_err());
}

#[test]
fn day_2_extract_and_validate_empty() {
    let input = "";
    let actual = extract_letters_and_validate(&input);

    assert!(actual.is_err());
}

#[test]
fn day2_parse_input() {
    let expected = vec![
        (String::from("A"), String::from("Y")),
        (String::from("B"), String::from("X")),
        (String::from("C"), String::from("Z")),
    ];

    let input = "\
A Y
B X
C Z";
    let actual = parse_rock_paper_scissors_games(&input).unwrap();

    assert_eq!(actual, expected);
}
