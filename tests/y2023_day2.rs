use rust_advent::y2023::day2::{
    calculate_power_of_cubes, check_if_cubes_invalidate_game, check_if_game_is_valid,
    extract_game_identifier, find_largest_number_of_each_colored_cube_in_revealed_cubes,
    find_sum_of_identifiers_of_valid_games, parse_game_string, parse_revealed_cubes_string,
    separate_game_identifier_from_revealed_cubes, Game, RevealedCubes,
};

#[test]
fn check_if_cubes_invalidate_game_all_valid_1() {
    let expected = false;

    let actual = check_if_cubes_invalidate_game(&RevealedCubes::new(4, 0, 3));

    assert_eq!(expected, actual);
}

#[test]
fn check_if_cubes_invalidate_game_all_valid_2() {
    let expected = false;

    let actual = check_if_cubes_invalidate_game(&RevealedCubes::new(1, 2, 6));

    assert_eq!(expected, actual);
}

#[test]
fn check_if_cubes_invalidate_game_all_valid_3() {
    let expected = false;

    let actual = check_if_cubes_invalidate_game(&RevealedCubes::new(0, 2, 0));

    assert_eq!(expected, actual);
}

#[test]
fn check_if_cubes_invalidate_game_red_invalid() {
    let expected = true;

    let actual = check_if_cubes_invalidate_game(&RevealedCubes::new(20, 8, 6));

    assert_eq!(expected, actual);
}

#[test]
fn check_if_cubes_invalidate_game_blue_invalid() {
    let expected = true;

    let actual = check_if_cubes_invalidate_game(&RevealedCubes::new(12, 3, 15));

    assert_eq!(expected, actual);
}

#[test]
fn check_if_cubes_invalidate_game_green_invalid() {
    let expected = true;

    let actual = check_if_cubes_invalidate_game(&RevealedCubes::new(5, 17, 10));

    assert_eq!(expected, actual);
}

#[test]
fn check_if_game_is_valid_valid_1() {
    let expected = true;

    let input = vec![
        RevealedCubes::new(4, 0, 3),
        RevealedCubes::new(1, 2, 6),
        RevealedCubes::new(0, 2, 0),
    ];
    let actual = check_if_game_is_valid(&input);

    assert_eq!(expected, actual);
}

#[test]
fn check_if_game_is_valid_valid_2() {
    let expected = true;

    let input = vec![
        RevealedCubes::new(0, 2, 1),
        RevealedCubes::new(1, 3, 4),
        RevealedCubes::new(0, 1, 1),
    ];
    let actual = check_if_game_is_valid(&input);

    assert_eq!(expected, actual);
}

#[test]
fn check_if_game_is_valid_invalid_1() {
    let expected = false;

    let input = vec![
        RevealedCubes::new(20, 8, 6),
        RevealedCubes::new(4, 13, 5),
        RevealedCubes::new(1, 5, 0),
    ];
    let actual = check_if_game_is_valid(&input);

    assert_eq!(expected, actual);
}

#[test]
fn check_if_game_is_valid_invalid_2() {
    let expected = false;

    let input = vec![
        RevealedCubes::new(3, 1, 6),
        RevealedCubes::new(6, 3, 0),
        RevealedCubes::new(12, 3, 15),
    ];
    let actual = check_if_game_is_valid(&input);

    assert_eq!(expected, actual);
}

#[test]
fn collect_identifiers_of_valid_games_1() {
    let expected = 8;

    let input = vec![
        Game::new(
            1,
            vec![
                RevealedCubes::new(4, 0, 3),
                RevealedCubes::new(1, 2, 6),
                RevealedCubes::new(0, 2, 0),
            ],
        ),
        Game::new(
            2,
            vec![
                RevealedCubes::new(0, 2, 1),
                RevealedCubes::new(1, 3, 4),
                RevealedCubes::new(0, 1, 1),
            ],
        ),
        Game::new(
            3,
            vec![
                RevealedCubes::new(20, 8, 6),
                RevealedCubes::new(4, 13, 5),
                RevealedCubes::new(1, 5, 0),
            ],
        ),
        Game::new(
            4,
            vec![
                RevealedCubes::new(3, 1, 6),
                RevealedCubes::new(6, 3, 0),
                RevealedCubes::new(12, 3, 15),
            ],
        ),
        Game::new(
            5,
            vec![RevealedCubes::new(6, 3, 1), RevealedCubes::new(1, 2, 2)],
        ),
    ];
    let actual = find_sum_of_identifiers_of_valid_games(&input);

    assert_eq!(expected, actual);
}

#[test]
fn separate_game_identifier_from_revealed_cubes_1() {
    let expected = ("Game 1", "3 blue, 4 red; 1 red, 2 green, 6 blue; 2 green");

    let actual = separate_game_identifier_from_revealed_cubes(
        "Game 1: 3 blue, 4 red; 1 red, 2 green, 6 blue; 2 green",
    )
    .unwrap();

    assert_eq!(expected, actual);
}

#[test]
fn extract_game_identifier_1() {
    let expected: u32 = 1;

    let actual = extract_game_identifier("Game 1").unwrap();

    assert_eq!(expected, actual);
}

#[test]
fn extract_game_identifier_2() {
    let expected: u32 = 25423;

    let actual = extract_game_identifier("Game 25423").unwrap();

    assert_eq!(expected, actual);
}

#[test]
fn parse_revealed_cubes_string_1() {
    let expected = RevealedCubes::new(4, 0, 3);

    let actual = parse_revealed_cubes_string("3 blue, 4 red").unwrap();

    assert_eq!(expected, actual);
}

#[test]
fn parse_revealed_cubes_string_2() {
    let expected = RevealedCubes::new(1, 2, 6);

    let actual = parse_revealed_cubes_string("1 red, 2 green, 6 blue").unwrap();

    assert_eq!(expected, actual);
}

#[test]
fn parse_revealed_cubes_string_3() {
    let expected = RevealedCubes::new(0, 2, 0);

    let actual = parse_revealed_cubes_string("2 green").unwrap();

    assert_eq!(expected, actual);
}

#[test]
fn parse_revealed_cubes_string_4() {
    let expected = RevealedCubes::new(14, 3, 15);

    let actual = parse_revealed_cubes_string("3 green, 15 blue, 14 red").unwrap();

    assert_eq!(expected, actual);
}

#[test]
fn parse_game_string_1() {
    let expected = Game::new(
        1,
        vec![
            RevealedCubes::new(4, 0, 3),
            RevealedCubes::new(1, 2, 6),
            RevealedCubes::new(0, 2, 0),
        ],
    );

    let actual =
        parse_game_string("Game 1: 3 blue, 4 red; 1 red, 2 green, 6 blue; 2 green").unwrap();

    assert_eq!(expected, actual);
}

#[test]
fn find_largest_number_of_each_colored_cube_in_game_1() {
    let expected = RevealedCubes::new(4, 2, 6);

    let input = vec![
        RevealedCubes::new(4, 0, 3),
        RevealedCubes::new(1, 2, 6),
        RevealedCubes::new(0, 2, 0),
    ];
    let actual = find_largest_number_of_each_colored_cube_in_revealed_cubes(&input);

    assert_eq!(expected, actual);
}

#[test]
fn find_largest_number_of_each_colored_cube_in_game_2() {
    let expected = RevealedCubes::new(20, 13, 6);

    let input = vec![
        RevealedCubes::new(20, 8, 6),
        RevealedCubes::new(4, 13, 5),
        RevealedCubes::new(1, 5, 0),
    ];
    let actual = find_largest_number_of_each_colored_cube_in_revealed_cubes(&input);

    assert_eq!(expected, actual);
}

#[test]
fn calculate_power_of_cubes_1() {
    let expected = 48;

    let actual = calculate_power_of_cubes(&RevealedCubes::new(4, 2, 6));

    assert_eq!(expected, actual)
}

#[test]
fn calculate_power_of_cubes_2() {
    let expected = 1560;

    let actual = calculate_power_of_cubes(&RevealedCubes::new(20, 13, 6));

    assert_eq!(expected, actual)
}

#[test]
fn calculate_power_of_cubes_edge_1() {
    let expected = 1560;

    let actual = calculate_power_of_cubes(&RevealedCubes::new(20, 13, 6));

    assert_eq!(expected, actual)
}
