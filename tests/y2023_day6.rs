use rust_advent::advent::{AdventDay, Parse};
use rust_advent::y2023::day6::{
    calculate_margin_of_error, calculate_number_of_different_winning_charge_times,
    find_highest_charge_time_to_beat_record_distance,
    find_lowest_charge_time_to_beat_record_distance, join_numbers, parse_input_line,
    NewDay6Puzzle,
};

#[test]
fn calculate_margin_of_error_1() {
    let expected = 288;

    let allocated_times = vec![7, 15, 30];
    let distance_records = vec![9, 40, 200];
    let actual = calculate_margin_of_error(&allocated_times, &distance_records).unwrap();

    assert_eq!(expected, actual);
}

#[test]
fn winning_charge_times_of_one_race() {
    assert_eq!(find_lowest_charge_time_to_beat_record_distance(9, 7), 2);
    assert_eq!(find_highest_charge_time_to_beat_record_distance(9, 7), 5);
    assert_eq!(calculate_number_of_different_winning_charge_times(9, 7), 4);
    assert_eq!(calculate_number_of_different_winning_charge_times(940200, 71530), 71503);
}

#[test]
fn race_without_a_winning_time_counts_one() {
    assert_eq!(calculate_number_of_different_winning_charge_times(100, 3), 1);
}

#[test]
fn race_sheet_lines_and_joined_numbers() {
    assert_eq!(parse_input_line("Time:      7  15   30").unwrap(), vec![7, 15, 30]);
    assert!(parse_input_line("Time 7 15").is_err());
    assert!(parse_input_line("Time: 7 x").is_err());
    assert_eq!(join_numbers(&vec![7, 15, 30]), Some(71530));
    let day = NewDay6Puzzle {}
        .parse_input("Time:      7  15   30\nDistance:  9  40  200")
        .unwrap();
    assert_eq!(day.solve_first_puzzle().unwrap(), "288");
    assert_eq!(day.solve_second_puzzle().unwrap(), "71503");
}
