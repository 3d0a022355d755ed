use rust_advent::y2023::day7::{
    calculate_hand_score, calculate_hand_score_with_jokers, calculate_total_winnings,
    extract_character_counts_from_hand, parse_hands, Card, Hand, FIVE_OF_A_KIND_SCORE,
    FOUR_OF_A_KIND_SCORE, FULL_HOUSE_SCORE, HIGH_CARD_SCORE, ONE_PAIR_SCORE,
    THREE_OF_A_KIND_SCORE, TWO_PAIR_SCORE,
};

#[test]
fn extract_character_counts_from_hand_1() {
    let expected = vec![('A', 5)];

    let actual = extract_character_counts_from_hand("AAAAA");

    assert_eq!(expected, actual);
}

#[test]
fn extract_character_counts_from_hand_2() {
    let expected = vec![('3', 2), ('2', 1), ('T', 1), ('K', 1)];

    let actual = extract_character_counts_from_hand("32T3K");

    assert_eq!(expected, actual);
}

#[test]
fn calculate_hand_score_1() {
    let expected = FIVE_OF_A_KIND_SCORE;

    let input = extract_character_counts_from_hand("AAAAA");
    let actual = calculate_hand_score(&input);

    assert_eq!(expected, actual);
}

#[test]
fn calculate_hand_score_2() {
    let expected = FOUR_OF_A_KIND_SCORE;

    let input = extract_character_counts_from_hand("AA8AA");
    let actual = calculate_hand_score(&input);

    assert_eq!(expected, actual);
}

#[test]
fn calculate_hand_score_3() {
    let expected = FULL_HOUSE_SCORE;

    let input = extract_character_counts_from_hand("23332");
    let actual = calculate_hand_score(&input);

    assert_eq!(expected, actual);
}

#[test]
fn calculate_hand_score_4() {
    let expected = THREE_OF_A_KIND_SCORE;

    let input = extract_character_counts_from_hand("TTT98");
    let actual = calculate_hand_score(&input);

    assert_eq!(expected, actual);
}

#[test]
fn calculate_hand_score_5() {
    let expected = TWO_PAIR_SCORE;

    let input = extract_character_counts_from_hand("23432");
    let actual = calculate_hand_score(&input);

    assert_eq!(expected, actual);
}

#[test]
fn calculate_hand_score_6() {
    let expected = ONE_PAIR_SCORE;

    let input = extract_character_counts_from_hand("A23A4");
    let actual = calculate_hand_score(&input);

    assert_eq!(expected, actual);
}

#[test]
fn calculate_hand_score_7() {
    let expected = HIGH_CARD_SCORE;

    let input = extract_character_counts_from_hand("23456");
    let actual = calculate_hand_score(&input);

    assert_eq!(expected, actual);
}

#[test]
fn parse_hands_1() {
    let expected: Vec<Hand> = vec![
        Hand {
            value: 5132188,
            cards: vec![Card(3), Card(2), Card(10), Card(3), Card(13)],
            bid: 765,
        },
        Hand {
            value: 6569856,
            cards: vec![Card(13), Card(10), Card(11), Card(11), Card(10)],
            bid: 220,
        },
        Hand {
            value: 6577603,
            cards: vec![Card(13), Card(13), Card(6), Card(7), Card(7)],
            bid: 28,
        },
        Hand {
            value: 7429700,
            cards: vec![Card(10), Card(5), Card(5), Card(11), Card(5)],
            bid: 684,
        },
        Hand {
            value: 7534611,
            cards: vec![Card(12), Card(12), Card(12), Card(11), Card(14)],
            bid: 483,
        },
    ];

    let input = "\
32T3K 765
T55J5 684
KK677 28
KTJJT 220
QQQJA 483";
    let actual = parse_hands(input, false).unwrap();

    assert_eq!(expected, actual)
}

#[test]
fn parse_hands_2() {
    let expected: Vec<Hand> = vec![
        Hand {
            value: 5132188,
            cards: vec![Card(3), Card(2), Card(10), Card(3), Card(13)],
            bid: 765,
        },
        Hand {
            value: 6577603,
            cards: vec![Card(13), Card(13), Card(6), Card(7), Card(7)],
            bid: 28,
        },
        Hand {
            value: 7332544,
            cards: vec![Card(7), Card(14), Card(7), Card(7), Card(2)],
            bid: 167,
        },
        Hand {
            value: 9330776,
            cards: vec![Card(7), Card(13), Card(13), Card(11), Card(13)],
            bid: 628,
        },
        Hand {
            value: 9429550,
            cards: vec![Card(10), Card(5), Card(5), Card(11), Card(5)],
            bid: 684,
        },
        Hand {
            value: 9534461,
            cards: vec![Card(12), Card(12), Card(12), Card(11), Card(14)],
            bid: 483,
        },
        Hand {
            value: 9567596,
            cards: vec![Card(13), Card(10), Card(11), Card(11), Card(10)],
            bid: 220,
        },
        Hand {
            value: 10044552,
            cards: vec![Card(11), Card(11), Card(11), Card(11), Card(11)],
            bid: 91,
        },
        Hand {
            value: 10620790,
            cards: vec![Card(14), Card(14), Card(11), Card(11), Card(14)],
            bid: 235,
        },
    ];

    let input = "\
32T3K 765
T55J5 684
KK677 28
KTJJT 220
QQQJA 483
7KKJK 628
AAJJA 235
JJJJJ 91
7A772 167";
    let actual = parse_hands(input, true).unwrap();

    assert_eq!(expected, actual)
}

#[test]
fn calculate_total_winnings_1() {
    let expected = 6440;

    let hands_str = "\
32T3K 765
T55J5 684
KK677 28
KTJJT 220
QQQJA 483";
    let input = parse_hands(hands_str, false).unwrap();
    let actual = calculate_total_winnings(&input);

    assert_eq!(expected, actual);
}

#[test]
fn calculate_total_winnings_2() {
    let expected = 5905;

    let hands_str = "\
32T3K 765
T55J5 684
KK677 28
KTJJT 220
QQQJA 483";
    let input = parse_hands(hands_str, true).unwrap();
    let actual = calculate_total_winnings(&input);

    assert_eq!(expected, actual);
}

#[test]
fn jokers_join_the_best_group() {
    let counts = extract_character_counts_from_hand("KTJJT");
    assert_eq!(calculate_hand_score_with_jokers(counts), Some(FOUR_OF_A_KIND_SCORE));
    let all_jokers = extract_character_counts_from_hand("JJJJJ");
    assert_eq!(calculate_hand_score_with_jokers(all_jokers), Some(FIVE_OF_A_KIND_SCORE));
    let no_joker = extract_character_counts_from_hand("23456");
    assert_eq!(calculate_hand_score_with_jokers(no_joker), None);
}

#[test]
fn unknown_cards_and_bids_are_refused() {
    assert!(parse_hands("32X3K 765", false).is_err());
    assert!(parse_hands("32T3K bid", false).is_err());
    assert!(parse_hands("32T3K", false).is_err());
    assert!(parse_hands("32T3K2 1", false).is_err());
}

#[test]
fn card_with_plus_sign_reads_as_number() {
    assert_eq!("+5".parse::<Card>(), Ok(Card(5)));
    assert!("+".parse::<Card>().is_err());
}
