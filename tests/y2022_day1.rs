use rust_advent::y2022::day1::{max_calories, parse_elf_calories, top_three_calories};

#[test]
fn day_1_parse_input() {
    let expected = vec![15, 10, 20];

    let input = "\
5
7
3

9
1

10
2
8";
    let actual = parse_elf_calories(&input).unwrap();

    assert_eq!(expected, actual);
}

#[test]
fn day_1_parse_input_all_sections_invalid() {
    let input = "\
2
hello
1

this
is
5

6
not
valid";
    let actual = parse_elf_calories(&input);

    assert!(actual.is_err());
}

#[test]
fn day_1_parse_input_some_sections_invalid() {
    let input = "\
2
5
1

4
this
is
5

6
9
30";
    let actual = parse_elf_calories(&input);

    assert!(actual.is_err());
}

#[test]
fn calorie_groups_largest_and_top_three() {
    let input = "\
5
7
3

9
1

10
2
8";
    let totals = parse_elf_calories(input).unwrap();
    assert_eq!(totals, vec![15, 10, 20]);
    assert_eq!(max_calories(&totals), Some(20));
    assert_eq!(top_three_calories(&totals), Some(45));
}

#[test]
fn calorie_totals_need_three_elves() {
    assert_eq!(top_three_calories(&vec![4, 9]), None);
    assert_eq!(max_calories(&vec![]), None);
}

#[test]
fn calorie_total_overflow_is_refused() {
    assert!(parse_elf_calories("4294967295\n1").is_err());
    assert_eq!(parse_elf_calories("4294967295\n0").unwrap(), vec![4294967295]);
}

#[test]
fn calorie_lines_may_carry_a_plus_sign() {
    assert_eq!(parse_elf_calories("+5\n7").unwrap(), vec![12]);
}
