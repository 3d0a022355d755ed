//! Trebuchet calibration: the first and last digit of each line, with the
//! second reading also taking spelled-out numbers into account.
use vstd::prelude::*;

use crate::advent::{AdventDay, Parse, PuzzleError};
use crate::text::{
    decimal_digits, split,
    chars_of, find_first, find_from, find_last, is_digit, replace_all, replace_str, rfind, split_owned, strings_view, u64_to_string,
};

verus! {

/// The parser of this day's puzzle input.
pub struct NewDay1Puzzle {}

/// The lines of the calibration document.
pub struct Day1Puzzle {
    pub parsed_input: Vec<String>,
}

/// The numbers one to nine spelled out, each with its digit.
pub open spec fn spelled_out_table() -> Seq<(&'static str, &'static str)> {
    seq![
        ("one", "1"),
        ("two", "2"),
        ("three", "3"),
        ("four", "4"),
        ("five", "5"),
        ("six", "6"),
        ("seven", "7"),
        ("eight", "8"),
        ("nine", "9"),
    ]
}

/// The numbers one to nine spelled out, each with its digit.
pub fn spelled_out_numbers() -> (r: Vec<(&'static str, &'static str)>)
    ensures
        r@ == spelled_out_table(),
        forall|k: int| 0 <= k < r.len() ==> (#[trigger] r@[k]).0@.len() > 0,
{
    proof {
        reveal_strlit("one");
        reveal_strlit("two");
        reveal_strlit("three");
        reveal_strlit("four");
        reveal_strlit("five");
        reveal_strlit("six");
        reveal_strlit("seven");
        reveal_strlit("eight");
        reveal_strlit("nine");
    }
    let r = vec![
        ("one", "1"),
        ("two", "2"),
        ("three", "3"),
        ("four", "4"),
        ("five", "5"),
        ("six", "6"),
        ("seven", "7"),
        ("eight", "8"),
        ("nine", "9"),
    ];
    assert(r@ =~= spelled_out_table());
    r
}

/// Position of the first digit of `s` at or after `i`, or -1.
pub open spec fn first_digit_from(s: Seq<char>, i: int) -> int
    decreases s.len() - i,
{
    if i < 0 || i >= s.len() {
        -1
    } else if is_digit(s[i]) {
        i
    } else {
        first_digit_from(s, i + 1)
    }
}

/// Position of the last digit of `s` at or before `i`, or -1.
pub open spec fn last_digit_upto(s: Seq<char>, i: int) -> int
    decreases i + 1,
{
    if i < 0 || i >= s.len() {
        -1
    } else if is_digit(s[i]) {
        i
    } else {
        last_digit_upto(s, i - 1)
    }
}

/// Position of the first digit of `s`, or -1.
pub open spec fn first_digit(s: Seq<char>) -> int {
    first_digit_from(s, 0)
}

/// Position of the last digit of `s`, or -1.
pub open spec fn last_digit(s: Seq<char>) -> int {
    last_digit_upto(s, s.len() - 1)
}

/// The first digit of a line, as a one-character string.
pub fn extract_first_number_from_string(string: &str) -> (r: Option<&str>)
    ensures
        r is None <==> first_digit(string@) == -1,
        r matches Some(d) ==> d@ == seq![string@[first_digit(string@)]],
{
    let chars = chars_of(string);
    let mut i: usize = 0;
    while i < chars.len()
        invariant
            i <= chars.len(),
            chars@ == string@,
            first_digit(string@) == first_digit_from(string@, i as int),
        decreases chars.len() - i,
    {
        if '0' <= chars[i] && chars[i] <= '9' {
            let d = string.substring_char(i, i + 1);
            assert(d@ =~= seq![string@[i as int]]);
            return Some(d);
        }
        i = i + 1;
    }
    None
}

/// The last digit of a line, as a one-character string.
pub fn extract_last_number_from_string(string: &str) -> (r: Option<&str>)
    ensures
        r is None <==> last_digit(string@) == -1,
        r matches Some(d) ==> d@ == seq![string@[last_digit(string@)]],
{
    let chars = chars_of(string);
    let mut i: usize = chars.len();
    while i > 0
        invariant
            i <= chars.len(),
            chars@ == string@,
            last_digit(string@) == last_digit_upto(string@, i - 1),
        decreases i,
    {
        if '0' <= chars[i - 1] && chars[i - 1] <= '9' {
            let d = string.substring_char(i - 1, i);
            assert(d@ =~= seq![string@[i - 1]]);
            return Some(d);
        }
        i = i - 1;
    }
    None
}

/// The value of the digit `c`.
pub open spec fn digit_of(c: char) -> nat {
    (c as int - '0' as int) as nat
}

/// A line's calibration value: its first and last digit read as a
/// two-digit number; `None` when it has no digit.
pub open spec fn calibration_value(s: Seq<char>) -> Option<nat> {
    if first_digit(s) == -1 {
        None
    } else {
        Some(10 * digit_of(s[first_digit(s)]) + digit_of(s[last_digit(s)]))
    }
}

/// The first digit of `s` lies at or after `i` exactly when some digit does.
proof fn lemma_first_digit_some(s: Seq<char>, i: int)
    requires
        0 <= i,
    ensures
        first_digit_from(s, i) == -1 <==> forall|j: int| i <= j < s.len() ==> !is_digit(#[trigger] s[j]),
        first_digit_from(s, i) != -1 ==> i <= first_digit_from(s, i) < s.len() && is_digit(
            s[first_digit_from(s, i)],
        ),
    decreases s.len() - i,
{
    if i < s.len() && !is_digit(s[i]) {
        lemma_first_digit_some(s, i + 1);
    }
}

/// The last digit of `s` at or before `i` exists exactly when some digit does.
proof fn lemma_last_digit_some(s: Seq<char>, i: int)
    requires
        i < s.len(),
    ensures
        last_digit_upto(s, i) == -1 <==> forall|j: int| 0 <= j <= i ==> !is_digit(#[trigger] s[j]),
        last_digit_upto(s, i) != -1 ==> 0 <= last_digit_upto(s, i) <= i && is_digit(
            s[last_digit_upto(s, i)],
        ),
    decreases i + 1,
{
    if i >= 0 && !is_digit(s[i]) {
        lemma_last_digit_some(s, i - 1);
    }
}

/// A line's calibration value: its first and last digit as a two-digit
/// number.
pub fn extract_first_and_last_number_into_int(string: &str) -> (r: Option<u32>)
    ensures
        r matches Some(v) ==> calibration_value(string@) == Some(v as nat),
        r is None ==> calibration_value(string@) is None,
        r matches Some(v) ==> v <= 99,
{
    proof {
        lemma_first_digit_some(string@, 0);
        lemma_last_digit_some(string@, string@.len() - 1);
    }
    let first = match extract_first_number_from_string(string) {
        Some(d) => d,
        None => return None,
    };
    let last = match extract_last_number_from_string(string) {
        Some(d) => d,
        None => return None,
    };
    let a = chars_of(first)[0];
    let b = chars_of(last)[0];
    Some(10 * (a as u32 - '0' as u32) + (b as u32 - '0' as u32))
}

/// The sum of the lines' calibration values; an error when a line has no
/// digit, or the sum does not fit a `u32`.
pub open spec fn calibration_sum(lines: Seq<Seq<char>>) -> Result<nat, PuzzleError>
    decreases lines.len(),
{
    if lines.len() == 0 {
        Ok(0)
    } else {
        match calibration_sum(lines.drop_last()) {
            Err(e) => Err(e),
            Ok(t) => match calibration_value(lines.last()) {
                None => Err(PuzzleError::NoAnswer),
                Some(v) => if t + v > u32::MAX {
                    Err(PuzzleError::Overflow)
                } else {
                    Ok(t + v)
                },
            },
        }
    }
}

/// Once a prefix of the lines has failed, the whole fails the same way.
pub proof fn lemma_calibration_err(lines: Seq<Seq<char>>, i: int)
    requires
        0 <= i <= lines.len(),
        calibration_sum(lines.take(i)) is Err,
    ensures
        calibration_sum(lines) == calibration_sum(lines.take(i)),
    decreases lines.len(),
{
    if i < lines.len() {
        assert(lines.drop_last().take(i) =~= lines.take(i));
        lemma_calibration_err(lines.drop_last(), i);
    } else {
        assert(lines.take(i) =~= lines);
    }
}

/// The sum of the calibration values of the lines.
pub fn extract_numbers_from_strings_and_find_sum(strings: &Vec<String>) -> (r: Result<
    u32,
    PuzzleError,
>)
    ensures
        r matches Ok(v) ==> calibration_sum(strings_view(strings@)) == Ok::<nat, PuzzleError>(
            v as nat,
        ),
        r matches Err(e) ==> calibration_sum(strings_view(strings@)) == Err::<nat, PuzzleError>(e),
{
    let ghost ls = strings_view(strings@);
    let mut total: u32 = 0;
    let mut i: usize = 0;
    assert(ls.take(0) =~= seq![]);
    while i < strings.len()
        invariant
            i <= strings.len(),
            ls == strings_view(strings@),
            calibration_sum(ls.take(i as int)) == Ok::<nat, PuzzleError>(total as nat),
        decreases strings.len() - i,
    {
        assert(ls.take(i + 1).drop_last() =~= ls.take(i as int));
        assert(ls[i as int] == strings@[i as int]@);
        match extract_first_and_last_number_into_int(strings[i].as_str()) {
            Some(v) => {
                if total > u32::MAX - v {
                    proof {
                        lemma_calibration_err(ls, i + 1);
                    }
                    return Err(PuzzleError::Overflow);
                }
                total = total + v;
            },
            None => {
                proof {
                    lemma_calibration_err(ls, i + 1);
                }
                return Err(PuzzleError::NoAnswer);
            },
        }
        i = i + 1;
    }
    assert(ls.take(i as int) =~= ls);
    Ok(total)
}

/// One step of the search for the earliest spelled-out number: `number`
/// replaces `current` when it occurs before `current`'s position.
pub open spec fn first_step(
    s: Seq<char>,
    number: (&'static str, &'static str),
    current: (&'static str, &'static str, usize),
) -> (&'static str, &'static str, usize) {
    let k = find_from(s, number.0@, 0);
    if k >= 0 && k < current.2 {
        (number.0, number.1, k as usize)
    } else {
        current
    }
}

/// One step of the search for the latest spelled-out number: `number`
/// replaces `current` when its last occurrence lies after `current`'s
/// position.
pub open spec fn last_step(
    s: Seq<char>,
    number: (&'static str, &'static str),
    current: (&'static str, &'static str, usize),
) -> (&'static str, &'static str, usize) {
    let k = rfind(s, number.0@);
    if k >= 0 && k > current.2 {
        (number.0, number.1, k as usize)
    } else {
        current
    }
}

/// Keeps whichever of `number` and `current` occurs first in the line.
pub fn search_for_first_spelled_out_number(
    string_to_search: &str,
    number_to_search_for: &(&'static str, &'static str),
    current_first_spelled_out_number: (&'static str, &'static str, usize),
) -> (r: (&'static str, &'static str, usize))
    ensures
        r == first_step(string_to_search@, *number_to_search_for, current_first_spelled_out_number),
{
    let s = chars_of(string_to_search);
    let p = chars_of(number_to_search_for.0);
    if let Some(found_index) = find_first(&s, &p) {
        if found_index < current_first_spelled_out_number.2 {
            return (number_to_search_for.0, number_to_search_for.1, found_index);
        }
    }
    current_first_spelled_out_number
}

/// Keeps whichever of `number` and `current` occurs last in the line.
pub fn search_for_last_spelled_out_number(
    string_to_search: &str,
    number_to_search_for: &(&'static str, &'static str),
    current_last_spelled_out_number: (&'static str, &'static str, usize),
) -> (r: (&'static str, &'static str, usize))
    ensures
        r == last_step(string_to_search@, *number_to_search_for, current_last_spelled_out_number),
{
    let s = chars_of(string_to_search);
    let p = chars_of(number_to_search_for.0);
    if let Some(found_index) = find_last(&s, &p) {
        if found_index > current_last_spelled_out_number.2 {
            return (number_to_search_for.0, number_to_search_for.1, found_index);
        }
    }
    current_last_spelled_out_number
}

/// The search for the earliest spelled-out number over the first `k`
/// entries of the table, starting from one at the line's end.
pub open spec fn first_after(s: Seq<char>, k: int) -> (&'static str, &'static str, usize)
    decreases k,
{
    if k <= 0 {
        ("one", "1", s.len() as usize)
    } else {
        first_step(s, spelled_out_table()[k - 1], first_after(s, k - 1))
    }
}

/// The search for the latest spelled-out number over the first `k`
/// entries of the table, starting from one at the line's start.
pub open spec fn last_after(s: Seq<char>, k: int) -> (&'static str, &'static str, usize)
    decreases k,
{
    if k <= 0 {
        ("one", "1", 0usize)
    } else {
        last_step(s, spelled_out_table()[k - 1], last_after(s, k - 1))
    }
}

/// The spelled-out numbers found first and last in a line, each with its
/// digit. A number wins the first place by occurring strictly earlier than
/// those before it in the table, the last place by occurring strictly later.
pub fn find_first_and_last_spelled_out_number(input: &str) -> (r: (
    (&'static str, &'static str),
    (&'static str, &'static str),
))
    ensures
        r.0 == (first_after(input@, 9).0, first_after(input@, 9).1),
        r.1 == (last_after(input@, 9).0, last_after(input@, 9).1),
{
    let table = spelled_out_numbers();
    let mut first_spelled_out_number: (&'static str, &'static str, usize) = (
        "one",
        "1",
        input.unicode_len(),
    );
    let mut last_spelled_out_number: (&'static str, &'static str, usize) = ("one", "1", 0);
    let mut k: usize = 0;
    while k < table.len()
        invariant
            k <= table.len(),
            table@ == spelled_out_table(),
            first_spelled_out_number == first_after(input@, k as int),
            last_spelled_out_number == last_after(input@, k as int),
        decreases table.len() - k,
    {
        let number_to_find = table[k];
        first_spelled_out_number = search_for_first_spelled_out_number(
            input,
            &number_to_find,
            first_spelled_out_number,
        );
        last_spelled_out_number = search_for_last_spelled_out_number(
            input,
            &number_to_find,
            last_spelled_out_number,
        );
        k = k + 1;
    }
    (
        (first_spelled_out_number.0, first_spelled_out_number.1),
        (last_spelled_out_number.0, last_spelled_out_number.1),
    )
}

/// The line with its first spelled-out number replaced by its digit,
/// followed by the line with its last spelled-out number replaced by its
/// digit (every occurrence of each word is replaced).
pub open spec fn converted_line(s: Seq<char>) -> Seq<char> {
    let f = first_after(s, 9);
    let l = last_after(s, 9);
    replace_all(s, f.0@, f.1@) + replace_all(s, l.0@, l.1@)
}

/// Every word of the table is non-empty.
proof fn lemma_table_words_non_empty()
    ensures
        forall|k: int| 0 <= k < 9 ==> (#[trigger] spelled_out_table()[k]).0@.len() > 0,
{
    reveal_strlit("one");
    reveal_strlit("two");
    reveal_strlit("three");
    reveal_strlit("four");
    reveal_strlit("five");
    reveal_strlit("six");
    reveal_strlit("seven");
    reveal_strlit("eight");
    reveal_strlit("nine");
}

/// The word that a search keeps is one of the table's.
proof fn lemma_found_word_non_empty(s: Seq<char>, k: int)
    requires
        0 <= k <= 9,
    ensures
        first_after(s, k).0@.len() > 0,
        last_after(s, k).0@.len() > 0,
    decreases k,
{
    lemma_table_words_non_empty();
    reveal_strlit("one");
    if k > 0 {
        lemma_found_word_non_empty(s, k - 1);
    }
}

/// Rewrites a line so that the first and last spelled-out numbers count as
/// digits.
pub fn convert_spelled_out_numbers_to_numeric(string: &str) -> (r: String)
    ensures
        r@ == converted_line(string@),
{
    let (first_spelled_out_number, last_spelled_out_number) =
        find_first_and_last_spelled_out_number(string);
    proof {
        lemma_found_word_non_empty(string@, 9);
    }
    let mut replaced = replace_str(string, first_spelled_out_number.0, first_spelled_out_number.1);
    let second = replace_str(string, last_spelled_out_number.0, last_spelled_out_number.1);
    replaced.append(second.as_str());
    replaced
}

impl Parse for NewDay1Puzzle {
    type Day = Day1Puzzle;

    fn parse_input(&self, puzzle_input: &str) -> (r: Result<Day1Puzzle, PuzzleError>)
        ensures
            r matches Ok(d) ==> strings_view(d.parsed_input@) == split(puzzle_input@, seq!['\n']),
            r is Ok,
    {
        Ok(Day1Puzzle { parsed_input: split_owned(puzzle_input, '\n') })
    }
}

impl AdventDay for Day1Puzzle {
    fn solve_first_puzzle(&self) -> (r: Result<String, PuzzleError>)
        ensures
            r matches Ok(s) ==> (calibration_sum(strings_view(self.parsed_input@)) matches Ok(v)
                && s@ == decimal_digits(v)),
            r matches Err(e) ==> calibration_sum(strings_view(self.parsed_input@)) == Err::<
                nat,
                PuzzleError,
            >(e),
    {
        let total = extract_numbers_from_strings_and_find_sum(&self.parsed_input)?;
        Ok(u64_to_string(total as u64))
    }

    fn solve_second_puzzle(&self) -> (r: Result<String, PuzzleError>)
        ensures
            r matches Ok(s) ==> (calibration_sum(
                strings_view(self.parsed_input@).map_values(|l: Seq<char>| converted_line(l)),
            ) matches Ok(v) && s@ == decimal_digits(v)),
            r matches Err(e) ==> calibration_sum(
                strings_view(self.parsed_input@).map_values(|l: Seq<char>| converted_line(l)),
            ) == Err::<nat, PuzzleError>(e),
    {
        let mut converted: Vec<String> = Vec::new();
        let mut i: usize = 0;
        while i < self.parsed_input.len()
            invariant
                i <= self.parsed_input.len(),
                strings_view(converted@) == strings_view(self.parsed_input@).take(i as int).map_values(
                    |l: Seq<char>| converted_line(l),
                ),
            decreases self.parsed_input.len() - i,
        {
            let c = convert_spelled_out_numbers_to_numeric(self.parsed_input[i].as_str());
            let ghost old_c = converted@;
            converted.push(c);
            assert(strings_view(converted@) =~= strings_view(old_c).push(c@));
            i = i + 1;
            assert(strings_view(converted@) =~= strings_view(self.parsed_input@).take(i as int).map_values(
                |l: Seq<char>| converted_line(l),
            ));
        }
        assert(strings_view(self.parsed_input@).take(i as int) =~= strings_view(self.parsed_input@));
        let total = extract_numbers_from_strings_and_find_sum(&converted)?;
        Ok(u64_to_string(total as u64))
    }
}

} // verus!
