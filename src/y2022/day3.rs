//! Rucksack reorganization: the item type shared by a rucksack's two
//! compartments, and the badge shared by each group of three elves.
use vstd::prelude::*;

use crate::advent::{AdventDay, Parse, PuzzleError};
use crate::text::{
    decimal_digits,chars_of, split, split_owned, strings_view, u64_to_string};

verus! {

/// The parser of this day's puzzle input.
pub struct NewDay3Puzzle {}

/// The rucksacks, one string of item types each.
pub struct Day3Puzzle {
    pub parsed_input: Vec<String>,
}

/// Reads the rucksacks, one per line.
pub fn parse_rucksacks(input: &str) -> (r: Vec<String>)
    ensures
        strings_view(r@) == split(input@, seq!['\n']),
{
    split_owned(input, '\n')
}

/// `c` is an ASCII letter.
pub open spec fn is_letter(c: char) -> bool {
    ('a' <= c <= 'z') || ('A' <= c <= 'Z')
}

/// The priority of an item type: 1 to 26 for `a` to `z`, 27 to 52 for `A`
/// to `Z`.
pub open spec fn priority(c: char) -> nat {
    if 'A' <= c <= 'Z' {
        (c as int - 38) as nat
    } else {
        (c as int - 96) as nat
    }
}

/// The priority of an item type.
pub fn get_char_value(character: char) -> (r: u32)
    requires
        is_letter(character),
    ensures
        r == priority(character),
        1 <= r <= 52,
{
    if 'A' <= character && character <= 'Z' {
        return character as u32 - 38;
    }
    character as u32 - 96
}

/// Splits a rucksack into its two compartments, the first holding half of
/// the items (rounded down).
pub fn split_string_in_half<'a>(string_to_split: &'a str) -> (r: (&'a str, &'a str))
    ensures
        r.0@.len() == string_to_split@.len() / 2,
        r.0@ + r.1@ == string_to_split@,
{
    let n = string_to_split.unicode_len();
    let half = n / 2;
    let first_half = string_to_split.substring_char(0, half);
    let second_half = string_to_split.substring_char(half, n);
    assert(first_half@ + second_half@ =~= string_to_split@);
    (first_half, second_half)
}

/// `c` occurs in each of `ss`.
pub open spec fn in_all(ss: Seq<Seq<char>>, c: char) -> bool {
    forall|k: int| 0 <= k < ss.len() ==> #[trigger] ss[k].contains(c)
}

/// The first item type of `ss[0]`, from position `i` on, found in all of
/// `ss`.
pub open spec fn first_common_from(ss: Seq<Seq<char>>, i: int) -> Option<char>
    decreases ss[0].len() - i,
{
    if ss.len() == 0 || i < 0 || i >= ss[0].len() {
        None
    } else if in_all(ss, ss[0][i]) {
        Some(ss[0][i])
    } else {
        first_common_from(ss, i + 1)
    }
}

/// The first item type of the first string that every string holds.
pub open spec fn first_common(ss: Seq<Seq<char>>) -> Option<char> {
    first_common_from(ss, 0)
}

/// Whether `v` holds `c`.
fn holds_char(v: &Vec<char>, c: char) -> (r: bool)
    ensures
        r == v@.contains(c),
{
    let mut i: usize = 0;
    while i < v.len()
        invariant
            i <= v.len(),
            forall|j: int| 0 <= j < i ==> v@[j] != c,
        decreases v.len() - i,
    {
        if v[i] == c {
            assert(v@[i as int] == c);
            return true;
        }
        i = i + 1;
    }
    false
}

/// The item type that the strings share: the first one of the first
/// string found in all of them; `None` when they share none.
pub fn find_intersection_between_strings(strings: &[&str]) -> (r: Option<char>)
    ensures
        r == first_common(strings@.map_values(|s: &str| s@)),
{
    let ghost ss = strings@.map_values(|s: &str| s@);
    if strings.len() == 0 {
        return None;
    }
    let mut all: Vec<Vec<char>> = Vec::new();
    let mut k: usize = 0;
    while k < strings.len()
        invariant
            k <= strings.len(),
            ss == strings@.map_values(|s: &str| s@),
            all.len() == k,
            forall|j: int| 0 <= j < k ==> #[trigger] all@[j]@ == ss[j],
        decreases strings.len() - k,
    {
        all.push(chars_of(strings[k]));
        k = k + 1;
    }
    let n = all[0].len();
    let mut i: usize = 0;
    while i < n
        invariant
            i <= n,
            ss == strings@.map_values(|s: &str| s@),
            n == ss[0].len(),
            ss.len() == all.len() > 0,
            forall|j: int| 0 <= j < all.len() ==> #[trigger] all@[j]@ == ss[j],
            first_common(ss) == first_common_from(ss, i as int),
        decreases n - i,
    {
        let c = all[0][i];
        assert(c == ss[0][i as int]);
        let mut everywhere = true;
        let mut j: usize = 0;
        while j < all.len()
            invariant
                j <= all.len(),
                ss.len() == all.len(),
                forall|m: int| 0 <= m < all.len() ==> #[trigger] all@[m]@ == ss[m],
                everywhere == forall|m: int| 0 <= m < j ==> #[trigger] ss[m].contains(c),
                i < n,
                ss == strings@.map_values(|s: &str| s@),
                n == ss[0].len(),
                c == ss[0][i as int],
                first_common(ss) == first_common_from(ss, i as int),
            decreases all.len() - j,
        {
            let found = holds_char(&all[j], c);
            assert(all@[j as int]@ == ss[j as int]);
            everywhere = everywhere && found;
            j = j + 1;
        }
        if everywhere {
            assert(in_all(ss, c));
            return Some(c);
        }
        i = i + 1;
    }
    None
}

/// The priority of the item type in both compartments of a rucksack.
pub open spec fn rucksack_priority(s: Seq<char>) -> Result<nat, PuzzleError> {
    let h = s.len() / 2;
    match first_common(seq![s.take(h as int), s.skip(h as int)]) {
        Some(c) => if is_letter(c) {
            Ok(priority(c))
        } else {
            Err(PuzzleError::InvalidCharacter)
        },
        None => Err(PuzzleError::NoAnswer),
    }
}

/// The sum of the priorities of the misplaced item types; an error when a
/// rucksack's compartments share no letter, or the sum does not fit.
pub open spec fn reorganize_spec(rs: Seq<Seq<char>>) -> Result<nat, PuzzleError>
    decreases rs.len(),
{
    if rs.len() == 0 {
        Ok(0)
    } else {
        match reorganize_spec(rs.drop_last()) {
            Err(e) => Err(e),
            Ok(t) => match rucksack_priority(rs.last()) {
                Err(e) => Err(e),
                Ok(p) => if t + p > u32::MAX {
                    Err(PuzzleError::Overflow)
                } else {
                    Ok(t + p)
                },
            },
        }
    }
}

/// Once a prefix has failed, the whole fails the same way.
pub proof fn lemma_reorganize_err(rs: Seq<Seq<char>>, i: int)
    requires
        0 <= i <= rs.len(),
        reorganize_spec(rs.take(i)) is Err,
    ensures
        reorganize_spec(rs) == reorganize_spec(rs.take(i)),
    decreases rs.len(),
{
    if i < rs.len() {
        assert(rs.drop_last().take(i) =~= rs.take(i));
        lemma_reorganize_err(rs.drop_last(), i);
    } else {
        assert(rs.take(i) =~= rs);
    }
}

/// The common item type of a group of strings, as a priority.
fn common_priority(strings: &[&str]) -> (r: Result<u32, PuzzleError>)
    ensures
        match first_common(strings@.map_values(|s: &str| s@)) {
            Some(c) => if is_letter(c) {
                r == Ok::<u32, PuzzleError>(priority(c) as u32)
            } else {
                r == Err::<u32, PuzzleError>(PuzzleError::InvalidCharacter)
            },
            None => r == Err::<u32, PuzzleError>(PuzzleError::NoAnswer),
        },
        r matches Ok(p) ==> p <= 52,
{
    match find_intersection_between_strings(strings) {
        Some(c) => {
            if ('a' <= c && c <= 'z') || ('A' <= c && c <= 'Z') {
                Ok(get_char_value(c))
            } else {
                Err(PuzzleError::InvalidCharacter)
            }
        },
        None => Err(PuzzleError::NoAnswer),
    }
}

/// The sum of the priorities of the item types that sit in both
/// compartments of each rucksack.
pub fn calculate_sum_of_priorities_for_items_to_reorganize(rucksacks: &Vec<String>) -> (r: Result<
    u32,
    PuzzleError,
>)
    ensures
        r matches Ok(v) ==> reorganize_spec(strings_view(rucksacks@)) == Ok::<nat, PuzzleError>(
            v as nat,
        ),
        r matches Err(e) ==> reorganize_spec(strings_view(rucksacks@)) == Err::<nat, PuzzleError>(
            e,
        ),
{
    let ghost rs = strings_view(rucksacks@);
    let mut total: u32 = 0;
    let mut i: usize = 0;
    assert(rs.take(0) =~= seq![]);
    while i < rucksacks.len()
        invariant
            i <= rucksacks.len(),
            rs == strings_view(rucksacks@),
            reorganize_spec(rs.take(i as int)) == Ok::<nat, PuzzleError>(total as nat),
        decreases rucksacks.len() - i,
    {
        assert(rs.take(i + 1).drop_last() =~= rs.take(i as int));
        let halves = split_string_in_half(rucksacks[i].as_str());
        let parts = [halves.0, halves.1];
        let ghost s = rs[i as int];
        let ghost h = s.len() / 2;
        assert(halves.0@ =~= s.take(h as int));
        assert(halves.1@ =~= s.skip(h as int));
        assert(parts@.map_values(|x: &str| x@) =~= seq![s.take(h as int), s.skip(h as int)]);
        match common_priority(&parts) {
            Ok(p) => {
                if total > u32::MAX - p {
                    proof {
                        lemma_reorganize_err(rs, i + 1);
                    }
                    return Err(PuzzleError::Overflow);
                }
                total = total + p;
            },
            Err(e) => {
                proof {
                    lemma_reorganize_err(rs, i + 1);
                }
                return Err(e);
            },
        }
        i = i + 1;
    }
    assert(rs.take(i as int) =~= rs);
    Ok(total)
}

/// The sum of the badges' priorities, the badge of each group of three
/// consecutive rucksacks being the item type that all three hold; an error
/// when the rucksacks do not fall into groups of three, a group shares no
/// letter, or the sum does not fit.
pub open spec fn badges_spec(rs: Seq<Seq<char>>) -> Result<nat, PuzzleError>
    decreases rs.len(),
{
    if rs.len() == 0 {
        Ok(0)
    } else if rs.len() < 3 {
        Err(PuzzleError::MissingField)
    } else {
        match first_common(rs.take(3)) {
            None => Err(PuzzleError::NoAnswer),
            Some(c) => if !is_letter(c) {
                Err(PuzzleError::InvalidCharacter)
            } else {
                match badges_spec(rs.skip(3)) {
                    Err(e) => Err(e),
                    Ok(t) => if t + priority(c) > u32::MAX {
                        Err(PuzzleError::Overflow)
                    } else {
                        Ok(t + priority(c))
                    },
                }
            },
        }
    }
}

/// The sum of the priorities of the badges of the groups of three elves.
pub fn calculate_sum_of_priorities_of_badges(rucksacks: &Vec<String>) -> (r: Result<
    u32,
    PuzzleError,
>)
    ensures
        r matches Ok(v) ==> badges_spec(strings_view(rucksacks@)) == Ok::<nat, PuzzleError>(
            v as nat,
        ),
        r matches Err(e) ==> badges_spec(strings_view(rucksacks@)) == Err::<nat, PuzzleError>(e),
    decreases rucksacks.len(),
{
    let ghost rs = strings_view(rucksacks@);
    if rucksacks.len() == 0 {
        return Ok(0);
    }
    if rucksacks.len() < 3 {
        return Err(PuzzleError::MissingField);
    }
    let group = [rucksacks[0].as_str(), rucksacks[1].as_str(), rucksacks[2].as_str()];
    assert(group@.map_values(|x: &str| x@) =~= rs.take(3));
    let badge = common_priority(&group)?;
    let mut rest: Vec<String> = Vec::new();
    let mut i: usize = 3;
    while i < rucksacks.len()
        invariant
            3 <= i <= rucksacks.len(),
            rs == strings_view(rucksacks@),
            strings_view(rest@) == rs.subrange(3, i as int),
        decreases rucksacks.len() - i,
    {
        let ghost old_rest = rest@;
        rest.push(rucksacks[i].clone());
        assert(strings_view(rest@) =~= strings_view(old_rest).push(rs[i as int]));
        i = i + 1;
        assert(strings_view(rest@) =~= rs.subrange(3, i as int));
    }
    assert(rs.subrange(3, i as int) =~= rs.skip(3));
    let others = calculate_sum_of_priorities_of_badges(&rest)?;
    if others > u32::MAX - badge {
        return Err(PuzzleError::Overflow);
    }
    Ok(others + badge)
}

impl Parse for NewDay3Puzzle {
    type Day = Day3Puzzle;

    fn parse_input(&self, puzzle_input: &str) -> (r: Result<Day3Puzzle, PuzzleError>)
        ensures
            r matches Ok(d) ==> strings_view(d.parsed_input@) == split(puzzle_input@, seq!['\n']),
            r is Ok,
    {
        Ok(Day3Puzzle { parsed_input: parse_rucksacks(puzzle_input) })
    }
}

impl AdventDay for Day3Puzzle {
    fn solve_first_puzzle(&self) -> (r: Result<String, PuzzleError>)
        ensures
            r matches Ok(s) ==> (reorganize_spec(strings_view(self.parsed_input@)) matches Ok(v)
                && s@ == decimal_digits(v)),
            r matches Err(e) ==> reorganize_spec(strings_view(self.parsed_input@)) == Err::<
                nat,
                PuzzleError,
            >(e),
    {
        let total = calculate_sum_of_priorities_for_items_to_reorganize(&self.parsed_input)?;
        Ok(u64_to_string(total as u64))
    }

    fn solve_second_puzzle(&self) -> (r: Result<String, PuzzleError>)
        ensures
            r matches Ok(s) ==> (badges_spec(strings_view(self.parsed_input@)) matches Ok(v) && s@
                == decimal_digits(v)),
            r matches Err(e) ==> badges_spec(strings_view(self.parsed_input@)) == Err::<
                nat,
                PuzzleError,
            >(e),
    {
        let total = calculate_sum_of_priorities_of_badges(&self.parsed_input)?;
        Ok(u64_to_string(total as u64))
    }
}

} // verus!
