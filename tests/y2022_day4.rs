use rust_advent::y2022::day4::{
    count_overlapping_cleaning_assignments, parse_cleaning_assignments, parse_cleaning_range,
    CleaningAssignment,
};

#[test]
fn day_4_cleaning_assignment_2_4_does_not_contain_6_8() {
    assert!(
        !CleaningAssignment::new(2, 4).contains_or_contained_in(&CleaningAssignment::new(6, 8))
    );
}

#[test]
fn day_4_cleaning_assignment_2_3_does_not_contain_4_5() {
    assert!(
        !CleaningAssignment::new(2, 3).contains_or_contained_in(&CleaningAssignment::new(4, 5))
    );
}

#[test]
fn day_4_cleaning_assignment_5_7_does_not_contain_7_9() {
    assert!(
        !CleaningAssignment::new(5, 7).contains_or_contained_in(&CleaningAssignment::new(7, 9))
    );
}

#[test]
fn day_4_cleaning_assignment_2_8_contains_3_7() {
    assert!(
        CleaningAssignment::new(2, 8).contains_or_contained_in(&CleaningAssignment::new(3, 7))
    );
}

#[test]
fn day_4_cleaning_assignment_6_6_contained_in_4_6() {
    assert!(
        CleaningAssignment::new(6, 6).contains_or_contained_in(&CleaningAssignment::new(4, 6))
    );
}

#[test]
fn day_4_cleaning_assignment_2_6_does_not_contain_4_8() {
    assert!(
        !CleaningAssignment::new(2, 6).contains_or_contained_in(&CleaningAssignment::new(4, 8))
    );
}

#[test]
fn day_4_count_fully_overlapping_cleaning_assignments() {
    let expected = 2;

    let input = vec![
        (CleaningAssignment::new(2, 4), CleaningAssignment::new(6, 8)),
        (CleaningAssignment::new(2, 3), CleaningAssignment::new(4, 5)),
        (CleaningAssignment::new(5, 7), CleaningAssignment::new(7, 9)),
        (CleaningAssignment::new(2, 8), CleaningAssignment::new(3, 7)),
        (CleaningAssignment::new(6, 6), CleaningAssignment::new(4, 6)),
        (CleaningAssignment::new(2, 6), CleaningAssignment::new(4, 8)),
    ];
    let actual = count_overlapping_cleaning_assignments(&input, true);

    assert_eq!(actual, expected);
}

#[test]
fn day_4_count_partially_overlapping_cleaning_assignments() {
    let expected = 4;

    let input = vec![
        (CleaningAssignment::new(2, 4), CleaningAssignment::new(6, 8)),
        (CleaningAssignment::new(2, 3), CleaningAssignment::new(4, 5)),
        (CleaningAssignment::new(5, 7), CleaningAssignment::new(7, 9)),
        (CleaningAssignment::new(2, 8), CleaningAssignment::new(3, 7)),
        (CleaningAssignment::new(6, 6), CleaningAssignment::new(4, 6)),
        (CleaningAssignment::new(2, 6), CleaningAssignment::new(4, 8)),
    ];
    let actual = count_overlapping_cleaning_assignments(&input, false);

    assert_eq!(actual, expected);
}

#[test]
fn day_4_parse_cleaning_range_start_2_end_4() {
    let expected = CleaningAssignment {
        start_zone: 2,
        end_zone: 4,
    };

    let actual = parse_cleaning_range("2-4").unwrap();

    assert_eq!(expected, actual);
}

#[test]
fn day_4_parse_cleaning_range_start_6_end_8() {
    let expected = CleaningAssignment {
        start_zone: 6,
        end_zone: 8,
    };

    let actual = parse_cleaning_range("6-8").unwrap();

    assert_eq!(expected, actual);
}

#[test]
fn day_4_parse_cleaning_range_start_6_end_6() {
    let expected = CleaningAssignment {
        start_zone: 6,
        end_zone: 6,
    };

    let actual = parse_cleaning_range("6-6").unwrap();

    assert_eq!(expected, actual);
}

#[test]
fn day_4_parse_cleaning_range() {
    let expected = CleaningAssignment::new(8, 14);

    let actual = parse_cleaning_range("8-14").unwrap();

    assert_eq!(expected, actual);
}

#[test]
fn day_4_parse_cleaning_range_invalid_start_and_end() {
    let actual = parse_cleaning_range("foo-bar");

    assert!(actual.is_err())
}

#[test]
fn day_4_parse_cleaning_range_empty_start() {
    let actual = parse_cleaning_range("-13");

    assert!(actual.is_err())
}

#[test]
fn day_4_parse_cleaning_range_empty_end() {
    let actual = parse_cleaning_range("2-");

    assert!(actual.is_err())
}

#[test]
fn day_4_parse_cleaning_range_empty_start_and_end() {
    let actual = parse_cleaning_range("-");

    assert!(actual.is_err())
}

#[test]
fn day_4_parse_cleaning_range_empty() {
    let actual = parse_cleaning_range("");

    assert!(actual.is_err())
}

#[test]
fn day_4_parse_cleaning_assignments_missing_comma() {
    let input = "\
2-46-8
2-3,4-5
5-7,7-9
2-83-7
6-6,4-6
2-6,4-8";
    let actual = parse_cleaning_assignments(input);

    assert!(actual.is_err())
}

#[test]
fn day_4_parse_input() {
    let expected = vec![
        (CleaningAssignment::new(2, 4), CleaningAssignment::new(6, 8)),
        (CleaningAssignment::new(2, 3), CleaningAssignment::new(4, 5)),
        (CleaningAssignment::new(5, 7), CleaningAssignment::new(7, 9)),
        (CleaningAssignment::new(2, 8), CleaningAssignment::new(3, 7)),
        (CleaningAssignment::new(6, 6), CleaningAssignment::new(4, 6)),
        (CleaningAssignment::new(2, 6), CleaningAssignment::new(4, 8)),
    ];

    let input = "\
2-4,6-8
2-3,4-5
5-7,7-9
2-8,3-7
6-6,4-6
2-6,4-8";
    let actual = parse_cleaning_assignments(input).unwrap();

    assert_eq!(expected, actual);
}
