use rust_advent::y2022::day3::{
    calculate_sum_of_priorities_for_items_to_reorganize, calculate_sum_of_priorities_of_badges,
    find_intersection_between_strings, get_char_value, parse_rucksacks, split_string_in_half,
};

#[test]
fn a_has_val_1() {
    let expected = 1;

    let actual = get_char_value('a');

    assert_eq!(actual, expected)
}

#[test]
fn z_has_val_26() {
    let expected = 26;

    let actual = get_char_value('z');

    assert_eq!(actual, expected)
}

#[test]
fn uppercase_a_has_val_27() {
    let expected = 27;

    let actual = get_char_value('A');

    assert_eq!(actual, expected)
}

#[test]
fn uppercase_z_has_val_52() {
    let expected = 52;

    let actual = get_char_value('Z');

    assert_eq!(actual, expected)
}

#[test]
fn string_can_be_split_in_half() {
    let expected = ("vJrwpWtwJgWr", "hcsFMMfFFhFp");

    let actual = split_string_in_half("vJrwpWtwJgWrhcsFMMfFFhFp");

    assert_eq!(actual, expected)
}

#[test]
fn intersection_between_strings_is_p() {
    let expected = 'p';

    let actual = find_intersection_between_strings(&["vJrwpWtwJgWr", "hcsFMMfFFhFp"]).unwrap();

    assert_eq!(actual, expected)
}

#[test]
fn intersection_between_strings_is_uppercase_l() {
    let expected = 'L';

    let actual = find_intersection_between_strings(&["jqHRNqRjqzjGDLGL", "rsFMfFZSrLrFZsSL"]).unwrap();

    assert_eq!(actual, expected)
}

#[test]
fn intersection_between_strings_is_r() {
    let expected = 'r';

    let actual = find_intersection_between_strings(&[
        "vJrwpWtwJgWrhcsFMMfFFhFp",
        "jqHRNqRjqzjGDLGLrsFMfFZSrLrFZsSL",
        "PmmdzqPrVvPwwTWBwg",
    ]).unwrap();

    assert_eq!(actual, expected)
}

#[test]
fn intersection_between_strings_is_uppercase_z() {
    let expected = 'Z';

    let actual = find_intersection_between_strings(&[
        "wMqvLMZHhHMvwLHjbvcjnnSBnvTQFn",
        "ttgJtRGJQctTZtZT",
        "CrZsJsPPZsGzwwsLwLmpwMDw",
    ]).unwrap();

    assert_eq!(actual, expected)
}

#[test]
fn sum_of_priorities_for_items_to_reorganize_is_157() {
    let expected = 157;

    let rucksacks = vec![
        String::from("vJrwpWtwJgWrhcsFMMfFFhFp"),
        String::from("jqHRNqRjqzjGDLGLrsFMfFZSrLrFZsSL"),
        String::from("PmmdzqPrVvPwwTWBwg"),
        String::from("wMqvLMZHhHMvwLHjbvcjnnSBnvTQFn"),
        String::from("ttgJtRGJQctTZtZT"),
        String::from("CrZsJsPPZsGzwwsLwLmpwMDw"),
    ];
    let actual = calculate_sum_of_priorities_for_items_to_reorganize(&rucksacks).unwrap();

    assert_eq!(actual, expected)
}

#[test]
fn sum_of_priorities_of_badges_is_70() {
    let expected = 70;

    let rucksacks = vec![
        String::from("vJrwpWtwJgWrhcsFMMfFFhFp"),
        String::from("jqHRNqRjqzjGDLGLrsFMfFZSrLrFZsSL"),
        String::from("PmmdzqPrVvPwwTWBwg"),
        String::from("wMqvLMZHhHMvwLHjbvcjnnSBnvTQFn"),
        String::from("ttgJtRGJQctTZtZT"),
        String::from("CrZsJsPPZsGzwwsLwLmpwMDw"),
    ];
    let actual = calculate_sum_of_priorities_of_badges(&rucksacks).unwrap();

    assert_eq!(actual, expected)
}

#[test]
fn day3_parse_input() {
    let expected = vec![
        String::from("vJrwpWtwJgWrhcsFMMfFFhFp"),
        String::from("jqHRNqRjqzjGDLGLrsFMfFZSrLrFZsSL"),
        String::from("PmmdzqPrVvPwwTWBwg"),
        String::from("wMqvLMZHhHMvwLHjbvcjnnSBnvTQFn"),
        String::from("ttgJtRGJQctTZtZT"),
        String::from("CrZsJsPPZsGzwwsLwLmpwMDw"),
    ];

    let input = "\
vJrwpWtwJgWrhcsFMMfFFhFp
jqHRNqRjqzjGDLGLrsFMfFZSrLrFZsSL
PmmdzqPrVvPwwTWBwg
wMqvLMZHhHMvwLHjbvcjnnSBnvTQFn
ttgJtRGJQctTZtZT
CrZsJsPPZsGzwwsLwLmpwMDw";
    let actual = parse_rucksacks(input);

    assert_eq!(actual, expected)
}
