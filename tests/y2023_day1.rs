use rust_advent::y2023::day1::{
    convert_spelled_out_numbers_to_numeric, extract_first_and_last_number_into_int,
    extract_first_number_from_string, extract_last_number_from_string,
    extract_numbers_from_strings_and_find_sum, find_first_and_last_spelled_out_number,
    search_for_first_spelled_out_number,
};

#[test]
fn first_number_from_string_is_1() {
    let expected = "1";

    let input = "1abc2";
    let actual = extract_first_number_from_string(input).unwrap();

    assert_eq!(expected, actual)
}

#[test]
fn first_number_from_string_is_3() {
    let expected = "3";

    let input = "pqr3stu8vwx";
    let actual = extract_first_number_from_string(input).unwrap();

    assert_eq!(expected, actual)
}

#[test]
fn first_number_from_string_is_7() {
    let expected = "7";

    let input = "treb7uchet";
    let actual = extract_first_number_from_string(input).unwrap();

    assert_eq!(expected, actual)
}

#[test]
fn last_number_from_string_is_2() {
    let expected = "2";

    let input = "1abc2";
    let actual = extract_last_number_from_string(input).unwrap();

    assert_eq!(expected, actual)
}

#[test]
fn last_number_from_string_is_8() {
    let expected = "8";

    let input = "pqr3stu8vwx";
    let actual = extract_last_number_from_string(input).unwrap();

    assert_eq!(expected, actual)
}

#[test]
fn last_number_from_string_is_7() {
    let expected = "7";

    let input = "treb7uchet";
    let actual = extract_last_number_from_string(input).unwrap();

    assert_eq!(expected, actual)
}

#[test]
fn first_and_last_number_from_string_is_12() {
    let expected: u32 = 12;

    let input = "1abc2";
    let actual = extract_first_and_last_number_into_int(input).unwrap();

    assert_eq!(expected, actual)
}

#[test]
fn first_and_last_number_from_string_is_38() {
    let expected: u32 = 38;

    let input = "pqr3stu8vwx";
    let actual = extract_first_and_last_number_into_int(input).unwrap();

    assert_eq!(expected, actual)
}

#[test]
fn first_and_last_number_from_string_is_77() {
    let expected: u32 = 77;

    let input = "treb7uchet";
    let actual = extract_first_and_last_number_into_int(input).unwrap();

    assert_eq!(expected, actual)
}

#[test]
fn extract_numbers_and_find_sum_is_142() {
    let expected: u32 = 142;

    let input = vec![
        String::from("1abc2"),
        String::from("pqr3stu8vwx"),
        String::from("a1b2c3d4e5f"),
        String::from("treb7uchet"),
    ];
    let actual = extract_numbers_from_strings_and_find_sum(&input).unwrap();

    assert_eq!(expected, actual)
}

#[test]
fn search_for_spelled_out_number_happy_1() {
    let expected: (&str, &str, usize) = ("two", "2", 0);

    let actual =
        search_for_first_spelled_out_number("two1nine", &("two", "2"), ("one", "1", 8));

    assert_eq!(expected, actual);
}

#[test]
fn find_first_spelled_out_number_happy_1() {
    let expected = (("two", "2"), ("nine", "9"));

    let actual = find_first_and_last_spelled_out_number("two1nine");

    assert_eq!(expected, actual);
}

#[test]
fn find_first_spelled_out_number_edge_1() {
    let expected = (("two", "2"), ("four", "4"));

    // even though two and one overlap, function should identify two
    let input = "xtwone3four";
    let actual = find_first_and_last_spelled_out_number(input);

    assert_eq!(expected, actual)
}

#[test]
fn find_last_spelled_out_number_edge_1() {
    let expected = (("one", "1"), ("eight", "8"));

    // even though one and eight overlap, function should identify both
    let input = "zoneight234";
    let actual = find_first_and_last_spelled_out_number(input);

    assert_eq!(expected, actual)
}

#[test]
fn convert_spelled_out_numbers_to_numeric_2_9() {
    let expected = "21ninetwo19";

    let input = "two1nine";
    let actual = convert_spelled_out_numbers_to_numeric(input);

    assert_eq!(expected, actual)
}

#[test]
fn convert_spelled_out_numbers_to_numeric_8_3() {
    let expected = "8wothreeeightwo3";

    let input = "eightwothree";
    let actual = convert_spelled_out_numbers_to_numeric(input);

    assert_eq!(expected, actual)
}

#[test]
fn convert_spelled_out_numbers_to_numeric_1_3() {
    let expected = "abc12threexyzabcone23xyz";

    let input = "abcone2threexyz";
    let actual = convert_spelled_out_numbers_to_numeric(input);

    assert_eq!(expected, actual)
}

#[test]
fn convert_spelled_out_numbers_to_numeric_2_4() {
    let expected = "x2ne3fourxtwone34";

    let input = "xtwone3four";
    let actual = convert_spelled_out_numbers_to_numeric(input);

    assert_eq!(expected, actual)
}

#[test]
fn convert_spelled_out_numbers_to_numeric_9_7() {
    let expected = "49eightseven24nineeight72";

    let input = "4nineeightseven2";
    let actual = convert_spelled_out_numbers_to_numeric(input);

    assert_eq!(expected, actual)
}

#[test]
fn convert_spelled_out_numbers_to_numeric_1() {
    let expected = "z1ight234zon8234";

    let input = "zoneight234";
    let actual = convert_spelled_out_numbers_to_numeric(input);

    assert_eq!(expected, actual)
}

#[test]
fn convert_spelled_out_numbers_to_numeric_6() {
    let expected = "7pqrst6teen7pqrst6teen";

    let input = "7pqrstsixteen";
    let actual = convert_spelled_out_numbers_to_numeric(input);

    assert_eq!(expected, actual)
}

#[test]
fn convert_spelled_out_numbers_to_numeric_two_occurences() {
    let expected = "414nineeightvxxjdthreeeight41fournine8vxxjdthree8";

    let input = "41fournineeightvxxjdthreeeight";
    let actual = convert_spelled_out_numbers_to_numeric(input);

    assert_eq!(expected, actual)
}

#[test]
fn convert_spelled_out_numbers_to_numeric_overlapping_replacement() {
    let expected = "419ightvxx41nin8vxx";

    let input = "41nineightvxx";
    let actual = convert_spelled_out_numbers_to_numeric(input);

    assert_eq!(expected, actual)
}

#[test]
fn extract_numbers_and_find_sum_is_281() {
    let expected: u32 = 281;

    let input = vec![
        String::from("21ninetwo19"),
        String::from("8wothreeeightwo3"),
        String::from("abc12threexyzabcone23xyz"),
        String::from("x2ne3fourxtwone34"),
        String::from("49eightseven24nineeight72"),
        String::from("z1ight234zon8234"),
        String::from("7pqrst6teen7pqrst6teen"),
    ];
    let actual = extract_numbers_from_strings_and_find_sum(&input).unwrap();

    assert_eq!(expected, actual)
}

#[test]
fn extract_numbers_and_find_sum_with_edge_cases() {
    let expected: u32 = 377;

    let input = vec![
        String::from("21ninetwo19"),
        String::from("8wothreeeightwo3"),
        String::from("abc12threexyzabcone23xyz"),
        String::from("x2ne3fourxtwone34"),
        String::from("49eightseven24nineeight72"),
        String::from("z1ight234zon8234"),
        String::from("7pqrst6teen7pqrst6teen"),
        String::from("414nineeightvxxjdthreeeight41fournine8vxxjdthree8"),
        String::from("419ightvxx41nin8vxx"),
    ];
    let actual = extract_numbers_from_strings_and_find_sum(&input).unwrap();

    assert_eq!(expected, actual)
}
