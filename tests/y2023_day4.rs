use std::collections::HashSet;

use rust_advent::y2023::day4::{
    calculate_count_of_cards, calculate_sum_of_card_worths, parse_card_components, parse_input_into_cards,
    parse_numbers_into_hashset, Card,
};

#[test]
fn parse_numbers_into_hashset_1() {
    let expected = HashSet::from([41, 48, 83, 86, 17]);

    let actual = parse_numbers_into_hashset("41 48 83 86 17").unwrap();

    assert_eq!(expected, actual);
}

#[test]
fn parse_numbers_into_hashset_2() {
    let expected = HashSet::from([83, 86, 6, 31, 17, 9, 48, 53]);

    let actual = parse_numbers_into_hashset("83 86  6 31 17  9 48 53").unwrap();

    assert_eq!(expected, actual);
}

#[test]
fn calculate_card_worth_1() {
    let expected = 8;

    let winning_numbers = parse_numbers_into_hashset("41 48 83 86 17").unwrap();
    let card_numbers = parse_numbers_into_hashset("83 86  6 31 17  9 48 53").unwrap();
    let actual = Card::new(winning_numbers, card_numbers).calculate_worth().unwrap();

    assert_eq!(expected, actual);
}

#[test]
fn calculate_card_matches_1() {
    let expected = 4;

    let winning_numbers = parse_numbers_into_hashset("41 48 83 86 17").unwrap();
    let card_numbers = parse_numbers_into_hashset("83 86  6 31 17  9 48 53").unwrap();
    let actual = Card::new(winning_numbers, card_numbers).calculate_matches();

    assert_eq!(expected, actual);
}

#[test]
fn calculate_sum_of_card_worths_1() {
    let expected = 13;

    let cards = "\
Card 1: 41 48 83 86 17 | 83 86  6 31 17  9 48 53
Card 2: 13 32 20 16 61 | 61 30 68 82 17 32 24 19
Card 3:  1 21 53 59 44 | 69 82 63 72 16 21 14  1
Card 4: 41 92 73 84 69 | 59 84 76 51 58  5 54 83
Card 5: 87 83 26 28 32 | 88 30 70 12 93 22 82 36
Card 6: 31 18 13 56 72 | 74 77 10 23 35 67 36 11";
    let input = parse_input_into_cards(cards).unwrap();
    let actual = calculate_sum_of_card_worths(&input).unwrap();

    assert_eq!(expected, actual);
}

#[test]
fn calculate_count_of_cards_1() {
    let expected = 30;

    let cards = "\
Card 1: 41 48 83 86 17 | 83 86  6 31 17  9 48 53
Card 2: 13 32 20 16 61 | 61 30 68 82 17 32 24 19
Card 3:  1 21 53 59 44 | 69 82 63 72 16 21 14  1
Card 4: 41 92 73 84 69 | 59 84 76 51 58  5 54 83
Card 5: 87 83 26 28 32 | 88 30 70 12 93 22 82 36
Card 6: 31 18 13 56 72 | 74 77 10 23 35 67 36 11";
    let input = parse_input_into_cards(cards).unwrap();
    let actual = calculate_count_of_cards(&input).unwrap();

    assert_eq!(expected, actual);
}

#[test]
fn card_components_and_copies() {
    assert_eq!(
        parse_card_components("Card 1: 41 48 | 83 86").unwrap(),
        ("41 48", "83 86")
    );
    assert!(parse_card_components("Card 1 41 48").is_err());
    let cards = parse_input_into_cards("Card 1: 1 2 | 1 5\nCard 2: 3 | 4").unwrap();
    assert_eq!(calculate_count_of_cards(&cards).unwrap(), 3);
    let overrun = parse_input_into_cards("Card 1: 1 2 | 1 2").unwrap();
    assert!(calculate_count_of_cards(&overrun).is_err());
    assert!(parse_numbers_into_hashset("1 x").is_err());
    let no_match = Card::new(HashSet::from([1]), HashSet::from([2]));
    assert_eq!(no_match.calculate_worth(), Some(0));
    assert_eq!(no_match.calculate_matches(), 0);
}
