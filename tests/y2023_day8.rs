use rust_advent::advent::{AdventDay, Parse};
use rust_advent::y2023::day8::{
    count_moves_to_end_of_map, count_moves_to_end_of_map_as_ghost, gcd, lcm, parse_moves,
    parse_node, parse_nodes_map, LeftRight, NewDay8Puzzle,
};

const LIMIT: u64 = 1000000;

#[test]
fn count_moves_to_end_of_map_1() {
    let expected = 6;

    let moves = parse_moves("LLR");
    let nodes_map_str = "\
AAA = (BBB, BBB)
BBB = (AAA, ZZZ)
ZZZ = (ZZZ, ZZZ)";
    let node_map = parse_nodes_map(nodes_map_str).unwrap();
    let actual = count_moves_to_end_of_map(&moves, &node_map, LIMIT).unwrap();

    assert_eq!(expected, actual);
}

#[test]
fn count_moves_to_end_of_map_as_ghost_1() {
    let expected = 6;

    let moves = parse_moves("LR");
    let nodes_map_str = "\
11A = (11B, XXX)
11B = (XXX, 11Z)
11Z = (11B, XXX)
22A = (22B, XXX)
22B = (22C, 22C)
22C = (22Z, 22Z)
22Z = (22B, 22B)
XXX = (XXX, XXX)";
    let node_map = parse_nodes_map(nodes_map_str).unwrap();
    let actual = count_moves_to_end_of_map_as_ghost(&moves, &node_map, LIMIT).unwrap();

    assert_eq!(expected, actual);
}

#[test]
fn node_lines_and_moves() {
    let (key, (left, right)) = parse_node("AAA = (BBB, CCC)").unwrap();
    assert_eq!((key.as_str(), left.as_str(), right.as_str()), ("AAA", "BBB", "CCC"));
    assert!(parse_node("AAA (BBB, CCC)").is_err());
    assert_eq!(parse_moves("LRx"), vec![LeftRight::Left, LeftRight::Right, LeftRight::Right]);
    assert_eq!(gcd(12, 18), 6);
    assert_eq!(lcm(4, 6), Some(12));
    assert_eq!(lcm(u64::MAX, u64::MAX - 1), None);
}

#[test]
fn walk_that_never_arrives() {
    let moves = parse_moves("L");
    let node_map = parse_nodes_map("AAA = (AAA, AAA)").unwrap();
    assert_eq!(count_moves_to_end_of_map(&moves, &node_map, 50), None);
    let missing = parse_nodes_map("AAA = (BBB, BBB)").unwrap();
    assert_eq!(count_moves_to_end_of_map(&moves, &missing, 50), None);
    let day = NewDay8Puzzle {}
        .parse_input("LLR\n\nAAA = (BBB, BBB)\nBBB = (AAA, ZZZ)\nZZZ = (ZZZ, ZZZ)")
        .unwrap();
    assert_eq!(day.solve_first_puzzle().unwrap(), "6");
}
