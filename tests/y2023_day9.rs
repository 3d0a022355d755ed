use rust_advent::advent::{AdventDay, Parse};
use rust_advent::y2023::day9::{
    i64_to_string, parse_report, predict_value_of_sequence, NewDay9Puzzle, PredictionDirection,
};

#[test]
fn find_next_value_of_sequence_1() {
    let expected = 18;

    let input = vec![0, 3, 6, 9, 12, 15];
    let actual = predict_value_of_sequence(&input, PredictionDirection::Future).unwrap();

    assert_eq!(expected, actual)
}

#[test]
fn find_previous_value_of_sequence() {
    let input = vec![10, 13, 16, 21, 30, 45];
    assert_eq!(predict_value_of_sequence(&input, PredictionDirection::Past), Some(5));
    assert_eq!(predict_value_of_sequence(&input, PredictionDirection::Future), Some(68));
}

#[test]
fn empty_sequence_has_no_prediction() {
    assert_eq!(predict_value_of_sequence(&vec![], PredictionDirection::Future), None);
    assert_eq!(predict_value_of_sequence(&vec![7], PredictionDirection::Past), Some(7));
}

#[test]
fn report_with_negative_values() {
    let report = parse_report("0 3 6 9 12 15\n1 3 6 10 15 21\n10 13 16 21 30 45").unwrap();
    assert_eq!(report[2], vec![10, 13, 16, 21, 30, 45]);
    assert_eq!(parse_report("-4 -2 0").unwrap(), vec![vec![-4, -2, 0]]);
    assert!(parse_report("1 x 3").is_err());
    let day = NewDay9Puzzle {}
        .parse_input("0 3 6 9 12 15\n1 3 6 10 15 21\n10 13 16 21 30 45")
        .unwrap();
    assert_eq!(day.solve_first_puzzle().unwrap(), "114");
    assert_eq!(day.solve_second_puzzle().unwrap(), "2");
    assert_eq!(i64_to_string(-42), "-42");
}
