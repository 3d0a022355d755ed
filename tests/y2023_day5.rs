use rust_advent::advent::{AdventDay, Parse};
use rust_advent::y2023::day5::{
    convert_between_almanac_categories, find_minimum_location_from_seed_ranges,
    find_minimum_location_from_seeds, split_input_into_sections, AlmanacConversion,
    NewDay5Puzzle,
};

#[test]
fn find_destination_category_number_1() {
    let expected = 81;

    let conversion_rule = AlmanacConversion::new(50, 52, 48);
    let actual = conversion_rule.convert_source_number_to_dest_number(79);

    assert_eq!(expected, actual);
}

#[test]
fn find_destination_category_number_2() {
    let expected = 57;

    let conversion_rule = AlmanacConversion::new(50, 52, 48);
    let actual = conversion_rule.convert_source_number_to_dest_number(55);

    assert_eq!(expected, actual);
}

#[test]
fn convert_between_almanac_categories_1() {
    let expected = 81;

    let input = vec![
        AlmanacConversion::new(98, 50, 2),
        AlmanacConversion::new(50, 52, 48),
    ];
    let actual = convert_between_almanac_categories(&input, 79);

    assert_eq!(expected, actual);
}

#[test]
fn convert_between_almanac_categories_2() {
    let expected = 74;

    let input = vec![
        AlmanacConversion::new(18, 88, 7),
        AlmanacConversion::new(25, 18, 70),
    ];
    let actual = convert_between_almanac_categories(&input, 81);

    assert_eq!(expected, actual);
}

#[test]
fn convert_between_almanac_categories_3() {
    let expected = 45;

    let input = vec![
        AlmanacConversion::new(98, 50, 2),
        AlmanacConversion::new(50, 52, 48),
    ];
    let actual = convert_between_almanac_categories(&input, 45);

    assert_eq!(expected, actual);
}

#[test]
fn split_input_into_sections_1() {
    let expected = (
        vec![79, 14, 55, 13],
        vec![
            vec![
                AlmanacConversion {
                    source_range_start: 98,
                    destination_range_start: 50,
                    range: 2,
                },
                AlmanacConversion {
                    source_range_start: 50,
                    destination_range_start: 52,
                    range: 48,
                },
            ],
            vec![
                AlmanacConversion {
                    source_range_start: 15,
                    destination_range_start: 0,
                    range: 37,
                },
                AlmanacConversion {
                    source_range_start: 52,
                    destination_range_start: 37,
                    range: 2,
                },
                AlmanacConversion {
                    source_range_start: 0,
                    destination_range_start: 39,
                    range: 15,
                },
            ],
            vec![
                AlmanacConversion {
                    source_range_start: 53,
                    destination_range_start: 49,
                    range: 8,
                },
                AlmanacConversion {
                    source_range_start: 11,
                    destination_range_start: 0,
                    range: 42,
                },
                AlmanacConversion {
                    source_range_start: 0,
                    destination_range_start: 42,
                    range: 7,
                },
                AlmanacConversion {
                    source_range_start: 7,
                    destination_range_start: 57,
                    range: 4,
                },
            ],
            vec![
                AlmanacConversion {
                    source_range_start: 18,
                    destination_range_start: 88,
                    range: 7,
                },
                AlmanacConversion {
                    source_range_start: 25,
                    destination_range_start: 18,
                    range: 70,
                },
            ],
            vec![
                AlmanacConversion {
                    source_range_start: 77,
                    destination_range_start: 45,
                    range: 23,
                },
                AlmanacConversion {
                    source_range_start: 45,
                    destination_range_start: 81,
                    range: 19,
                },
                AlmanacConversion {
                    source_range_start: 64,
                    destination_range_start: 68,
                    range: 13,
                },
            ],
            vec![
                AlmanacConversion {
                    source_range_start: 69,
                    destination_range_start: 0,
                    range: 1,
                },
                AlmanacConversion {
                    source_range_start: 0,
                    destination_range_start: 1,
                    range: 69,
                },
            ],
            vec![
                AlmanacConversion {
                    source_range_start: 56,
                    destination_range_start: 60,
                    range: 37,
                },
                AlmanacConversion {
                    source_range_start: 93,
                    destination_range_start: 56,
                    range: 4,
                },
            ],
        ],
    );

    let input = "\
seeds: 79 14 55 13

seed-to-soil map:
50 98 2
52 50 48

soil-to-fertilizer map:
0 15 37
37 52 2
39 0 15

fertilizer-to-water map:
49 53 8
0 11 42
42 0 7
57 7 4

water-to-light map:
88 18 7
18 25 70

light-to-temperature map:
45 77 23
81 45 19
68 64 13

temperature-to-humidity map:
0 69 1
1 0 69

humidity-to-location map:
60 56 37
56 93 4";
    let actual = split_input_into_sections(input).unwrap();

    assert_eq!(expected, actual);
}

#[test]
fn find_minimum_location_from_seeds_1() {
    let expected = 35;

    let input = (
        vec![79, 14, 55, 13],
        vec![
            vec![
                AlmanacConversion {
                    source_range_start: 98,
                    destination_range_start: 50,
                    range: 2,
                },
                AlmanacConversion {
                    source_range_start: 50,
                    destination_range_start: 52,
                    range: 48,
                },
            ],
            vec![
                AlmanacConversion {
                    source_range_start: 15,
                    destination_range_start: 0,
                    range: 37,
                },
                AlmanacConversion {
                    source_range_start: 52,
                    destination_range_start: 37,
                    range: 2,
                },
                AlmanacConversion {
                    source_range_start: 0,
                    destination_range_start: 39,
                    range: 15,
                },
            ],
            vec![
                AlmanacConversion {
                    source_range_start: 53,
                    destination_range_start: 49,
                    range: 8,
                },
                AlmanacConversion {
                    source_range_start: 11,
                    destination_range_start: 0,
                    range: 42,
                },
                AlmanacConversion {
                    source_range_start: 0,
                    destination_range_start: 42,
                    range: 7,
                },
                AlmanacConversion {
                    source_range_start: 7,
                    destination_range_start: 57,
                    range: 4,
                },
            ],
            vec![
                AlmanacConversion {
                    source_range_start: 18,
                    destination_range_start: 88,
                    range: 7,
                },
                AlmanacConversion {
                    source_range_start: 25,
                    destination_range_start: 18,
                    range: 70,
                },
            ],
            vec![
                AlmanacConversion {
                    source_range_start: 77,
                    destination_range_start: 45,
                    range: 23,
                },
                AlmanacConversion {
                    source_range_start: 45,
                    destination_range_start: 81,
                    range: 19,
                },
                AlmanacConversion {
                    source_range_start: 64,
                    destination_range_start: 68,
                    range: 13,
                },
            ],
            vec![
                AlmanacConversion {
                    source_range_start: 69,
                    destination_range_start: 0,
                    range: 1,
                },
                AlmanacConversion {
                    source_range_start: 0,
                    destination_range_start: 1,
                    range: 69,
                },
            ],
            vec![
                AlmanacConversion {
                    source_range_start: 56,
                    destination_range_start: 60,
                    range: 37,
                },
                AlmanacConversion {
                    source_range_start: 93,
                    destination_range_start: 56,
                    range: 4,
                },
            ],
        ],
    );
    let actual = find_minimum_location_from_seeds(&input.1, &input.0).unwrap();

    assert_eq!(expected, actual);
}

#[test]
fn find_minimum_location_from_seed_ranges_1() {
    let expected = 46;

    let input = (
        vec![79, 14, 55, 13],
        vec![
            vec![
                AlmanacConversion {
                    source_range_start: 98,
                    destination_range_start: 50,
                    range: 2,
                },
                AlmanacConversion {
                    source_range_start: 50,
                    destination_range_start: 52,
                    range: 48,
                },
            ],
            vec![
                AlmanacConversion {
                    source_range_start: 15,
                    destination_range_start: 0,
                    range: 37,
                },
                AlmanacConversion {
                    source_range_start: 52,
                    destination_range_start: 37,
                    range: 2,
                },
                AlmanacConversion {
                    source_range_start: 0,
                    destination_range_start: 39,
                    range: 15,
                },
            ],
            vec![
                AlmanacConversion {
                    source_range_start: 53,
                    destination_range_start: 49,
                    range: 8,
                },
                AlmanacConversion {
                    source_range_start: 11,
                    destination_range_start: 0,
                    range: 42,
                },
                AlmanacConversion {
                    source_range_start: 0,
                    destination_range_start: 42,
                    range: 7,
                },
                AlmanacConversion {
                    source_range_start: 7,
                    destination_range_start: 57,
                    range: 4,
                },
            ],
            vec![
                AlmanacConversion {
                    source_range_start: 18,
                    destination_range_start: 88,
                    range: 7,
                },
                AlmanacConversion {
                    source_range_start: 25,
                    destination_range_start: 18,
                    range: 70,
                },
            ],
            vec![
                AlmanacConversion {
                    source_range_start: 77,
                    destination_range_start: 45,
                    range: 23,
                },
                AlmanacConversion {
                    source_range_start: 45,
                    destination_range_start: 81,
                    range: 19,
                },
                AlmanacConversion {
                    source_range_start: 64,
                    destination_range_start: 68,
                    range: 13,
                },
            ],
            vec![
                AlmanacConversion {
                    source_range_start: 69,
                    destination_range_start: 0,
                    range: 1,
                },
                AlmanacConversion {
                    source_range_start: 0,
                    destination_range_start: 1,
                    range: 69,
                },
            ],
            vec![
                AlmanacConversion {
                    source_range_start: 56,
                    destination_range_start: 60,
                    range: 37,
                },
                AlmanacConversion {
                    source_range_start: 93,
                    destination_range_start: 56,
                    range: 4,
                },
            ],
        ],
    );
    let actual = find_minimum_location_from_seed_ranges(&input.1, &input.0).unwrap();

    assert_eq!(expected, actual);
}

#[test]
fn almanac_answers_and_range_edges() {
    let input = "seeds: 79 14 55 13\n\nseed-to-soil map:\n50 98 2\n52 50 48";
    let day = NewDay5Puzzle {}.parse_input(input).unwrap();
    assert_eq!(day.solve_first_puzzle().unwrap(), "13");
    assert!(find_minimum_location_from_seed_ranges(&vec![], &vec![1, 2, 3]).is_none());
    assert!(find_minimum_location_from_seeds(&vec![], &vec![]).is_none());
    assert_eq!(find_minimum_location_from_seeds(&vec![], &vec![9, 4]), Some(4));
    let rules = vec![AlmanacConversion::new(98, 50, 2)];
    assert_eq!(convert_between_almanac_categories(&rules, 99), 51);
    assert!(split_input_into_sections("seeds 1 2").is_err());
}

#[test]
fn seed_range_minimum_counts_each_seed_once() {
    let tables = vec![vec![AlmanacConversion::new(10, 100, 5)]];
    assert_eq!(find_minimum_location_from_seed_ranges(&tables, &vec![12, 5]), Some(15));
    let ranges = rust_advent::y2023::day5::convert_range_between_almanac_categories(
        &tables[0],
        vec![(12, 5)],
    );
    assert_eq!(ranges, vec![(102, 3), (15, 2)]);
}
