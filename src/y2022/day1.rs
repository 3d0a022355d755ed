//! Calorie counting: the elves' inventories, their largest total, and the
//! total of the three largest.
use vstd::prelude::*;

use crate::advent::{AdventDay, Parse, PuzzleError};
use crate::text::{
    chars_of, collect_all, lemma_collect_all_err, parse_u32, read_unsigned, seq_sum, split, decimal_digits,
    split_by, split_char, str_views, u64_to_string,
};

verus! {

/// The parser of this day's puzzle input.
pub struct NewDay1Puzzle {}

/// Each elf's total of calories, in input order.
pub struct Day1Puzzle {
    pub parsed_input: Vec<u32>,
}

/// One inventory line as a number of calories.
pub open spec fn calorie_item(line: Seq<char>) -> Result<nat, PuzzleError> {
    match read_unsigned(line, u32::MAX as nat + 1) {
        Some(v) => Ok(v),
        None => Err(PuzzleError::InvalidNumber),
    }
}

/// An elf's total: the sum of its lines, each a `u32`, the sum too.
pub open spec fn elf_total(group: Seq<char>) -> Result<nat, PuzzleError> {
    match collect_all(split(group, seq!['\n']), |l| calorie_item(l)) {
        Err(e) => Err(e),
        Ok(items) => if seq_sum(items) > u32::MAX {
            Err(PuzzleError::Overflow)
        } else {
            Ok(seq_sum(items))
        },
    }
}

/// Adds up one elf's inventory, one number per line.
pub fn add_individual_elf_calories(elf_calories: &str) -> (r: Result<u32, PuzzleError>)
    ensures
        r matches Ok(v) ==> elf_total(elf_calories@) == Ok::<nat, PuzzleError>(v as nat),
        r matches Err(e) ==> elf_total(elf_calories@) == Err::<nat, PuzzleError>(e),
{
    let lines = split_char(elf_calories, '\n');
    let ghost f = |l| calorie_item(l);
    let ghost ls = split(elf_calories@, seq!['\n']);
    let ghost items: Seq<nat> = seq![];
    let mut total: u64 = 0;
    let mut i: usize = 0;
    assert(ls.take(0) =~= seq![]);
    while i < lines.len()
        invariant
            i <= lines.len(),
            str_views(lines@) == ls,
            f == (|l| calorie_item(l)),
            ls == split(elf_calories@, seq!['\n']),
            collect_all(ls.take(i as int), f) == Ok::<Seq<nat>, PuzzleError>(items),
            total == if seq_sum(items) > u32::MAX {
                u32::MAX as nat + 1
            } else {
                seq_sum(items)
            },
        decreases lines.len() - i,
    {
        assert(ls.take(i + 1).drop_last() =~= ls.take(i as int));
        assert(lines@[i as int]@ == ls[i as int]);
        let line = chars_of(lines[i]);
        match parse_u32(&line) {
            Some(v) => {
                proof {
                    assert(items.push(v as nat).drop_last() =~= items);
                    items = items.push(v as nat);
                }
                total = total + v as u64;
                if total > u32::MAX as u64 {
                    total = u32::MAX as u64 + 1;
                }
            },
            None => {
                proof {
                    lemma_collect_all_err(ls, f, i + 1);
                }
                return Err(PuzzleError::InvalidNumber);
            },
        }
        i = i + 1;
    }
    assert(ls.take(i as int) =~= ls);
    if total > u32::MAX as u64 {
        return Err(PuzzleError::Overflow);
    }
    Ok(total as u32)
}

/// What the whole list reads as: each elf's total, or the first error.
pub open spec fn calories_spec(s: Seq<char>) -> Result<Seq<nat>, PuzzleError> {
    collect_all(split(s, seq!['\n', '\n']), |g| elf_total(g))
}

/// Reads the inventories, separated by blank lines, into each elf's total.
pub fn parse_elf_calories(elf_calories: &str) -> (r: Result<Vec<u32>, PuzzleError>)
    ensures
        r matches Ok(v) ==> calories_spec(elf_calories@) == Ok::<Seq<nat>, PuzzleError>(
            v@.map_values(|x: u32| x as nat),
        ),
        r matches Err(e) ==> calories_spec(elf_calories@) == Err::<Seq<nat>, PuzzleError>(e),
{
    let sep = vec!['\n', '\n'];
    assert(sep@ =~= seq!['\n', '\n']);
    let groups = split_by(elf_calories, &sep);
    let ghost f = |g| elf_total(g);
    let ghost gs = split(elf_calories@, seq!['\n', '\n']);
    let mut totals: Vec<u32> = Vec::new();
    let mut i: usize = 0;
    assert(gs.take(0) =~= seq![]);
    assert(totals@.map_values(|x: u32| x as nat) =~= seq![]);
    while i < groups.len()
        invariant
            i <= groups.len(),
            str_views(groups@) == gs,
            f == (|g| elf_total(g)),
            gs == split(elf_calories@, seq!['\n', '\n']),
            collect_all(gs.take(i as int), f) == Ok::<Seq<nat>, PuzzleError>(
                totals@.map_values(|x: u32| x as nat),
            ),
        decreases groups.len() - i,
    {
        assert(gs.take(i + 1).drop_last() =~= gs.take(i as int));
        assert(groups@[i as int]@ == gs[i as int]);
        match add_individual_elf_calories(groups[i]) {
            Ok(t) => {
                let ghost old_totals = totals@;
                totals.push(t);
                assert(totals@.map_values(|x: u32| x as nat) =~= old_totals.map_values(
                    |x: u32| x as nat,
                ).push(t as nat));
            },
            Err(e) => {
                proof {
                    lemma_collect_all_err(gs, f, i + 1);
                }
                return Err(e);
            },
        }
        i = i + 1;
    }
    assert(gs.take(i as int) =~= gs);
    Ok(totals)
}

/// `m` is the largest of `v`.
pub open spec fn is_max(v: Seq<u32>, m: u32) -> bool {
    &&& exists|i: int| 0 <= i < v.len() && v[i] == m
    &&& forall|i: int| 0 <= i < v.len() ==> v[i] <= m
}

/// The largest total; `None` when there is no elf.
pub fn max_calories(calories: &Vec<u32>) -> (r: Option<u32>)
    ensures
        r is None <==> calories.len() == 0,
        r matches Some(m) ==> is_max(calories@, m),
{
    if calories.len() == 0 {
        return None;
    }
    let best = index_of_largest(calories, calories.len(), calories.len(), Ghost(0));
    Some(calories[best])
}

/// The index of a largest element of `v` among those whose index is neither
/// `skip1` nor `skip2`.
fn index_of_largest(v: &Vec<u32>, skip1: usize, skip2: usize, Ghost(w): Ghost<int>) -> (r: usize)
    requires
        0 <= w < v.len() && w != skip1 && w != skip2,
    ensures
        r < v.len(),
        r != skip1,
        r != skip2,
        forall|j: int| 0 <= j < v.len() && j != skip1 && j != skip2 ==> v[j] <= v[r as int],
{
    let mut best: usize = v.len();
    let mut i: usize = 0;
    while i < v.len()
        invariant
            i <= v.len(),
            0 <= w < v.len() && w != skip1 && w != skip2,
            best <= v.len(),
            best == v.len() ==> i <= w,
            best < v.len() ==> best < i && best != skip1 && best != skip2,
            forall|j: int|
                0 <= j < i && j != skip1 && j != skip2 ==> best < v.len() && #[trigger] v[j]
                    <= v[best as int],
        decreases v.len() - i,
    {
        let ghost old_best = best;
        if i != skip1 && i != skip2 && (best == v.len() || v[i] > v[best]) {
            best = i;
        }
        assert forall|j: int|
            0 <= j < i + 1 && j != skip1 && j != skip2 implies best < v.len() && #[trigger] v[j]
                <= v[best as int] by {
            if j < i {
                assert(old_best < v.len() && v[j] <= v[old_best as int]);
            }
        }
        i = i + 1;
    }
    best
}

/// Three distinct elves' totals add up to `s`.
pub open spec fn triple_sum(v: Seq<u32>, i: int, j: int, k: int) -> int {
    v[i] + v[j] + v[k]
}

/// Three distinct valid indices.
pub open spec fn distinct_indices(n: int, i: int, j: int, k: int) -> bool {
    0 <= i < n && 0 <= j < n && 0 <= k < n && i != j && j != k && i != k
}

/// `s` is the largest sum of three distinct elves' totals.
pub open spec fn is_top_three_sum(v: Seq<u32>, s: int) -> bool {
    &&& exists|i: int, j: int, k: int|
        distinct_indices(v.len() as int, i, j, k) && #[trigger] triple_sum(v, i, j, k) == s
    &&& forall|i: int, j: int, k: int|
        distinct_indices(v.len() as int, i, j, k) ==> #[trigger] triple_sum(v, i, j, k) <= s
}

/// The sum of the three largest totals; `None` when there are fewer than
/// three elves.
pub fn top_three_calories(calories: &Vec<u32>) -> (r: Option<u64>)
    ensures
        r is None <==> calories.len() < 3,
        r matches Some(s) ==> is_top_three_sum(calories@, s as int),
{
    let n = calories.len();
    if n < 3 {
        return None;
    }
    let a = index_of_largest(calories, n, n, Ghost(0));
    let b = index_of_largest(calories, a, n, Ghost(if a == 0 { 1int } else { 0int }));
    let ghost w = if a != 0 && b != 0 { 0int } else if a != 1 && b != 1 { 1int } else { 2int };
    let c = index_of_largest(calories, a, b, Ghost(w));
    let s = calories[a] as u64 + calories[b] as u64 + calories[c] as u64;
    let ghost v = calories@;
    assert(distinct_indices(n as int, a as int, b as int, c as int));
    assert(triple_sum(v, a as int, b as int, c as int) == s);
    assert forall|i: int, j: int, k: int| distinct_indices(n as int, i, j, k) implies #[trigger] triple_sum(
        v,
        i,
        j,
        k,
    ) <= s by {
        assert(v[i] <= v[a as int] && v[j] <= v[a as int] && v[k] <= v[a as int]);
        assert(v[c as int] <= v[b as int]);
        if i == a {
            assert(v[j] <= v[b as int] && v[k] <= v[b as int]);
        } else if j == a {
            assert(v[i] <= v[b as int] && v[k] <= v[b as int]);
        } else if k == a {
            assert(v[i] <= v[b as int] && v[j] <= v[b as int]);
        } else {
            assert(v[i] <= v[b as int] && v[j] <= v[b as int] && v[k] <= v[b as int]);
        }
    }
    Some(s)
}

impl Parse for NewDay1Puzzle {
    type Day = Day1Puzzle;

    fn parse_input(&self, puzzle_input: &str) -> (r: Result<Day1Puzzle, PuzzleError>)
        ensures
            r matches Ok(d) ==> calories_spec(puzzle_input@) == Ok::<Seq<nat>, PuzzleError>(
                d.parsed_input@.map_values(|x: u32| x as nat),
            ),
            r matches Err(e) ==> calories_spec(puzzle_input@) == Err::<Seq<nat>, PuzzleError>(e),
    {
        let parsed_input = parse_elf_calories(puzzle_input)?;
        Ok(Day1Puzzle { parsed_input })
    }
}

impl AdventDay for Day1Puzzle {
    fn solve_first_puzzle(&self) -> (r: Result<String, PuzzleError>)
        ensures
            r is Err <==> self.parsed_input.len() == 0,
            r matches Ok(s) ==> exists|m: u32|
                #[trigger] is_max(self.parsed_input@, m) && s@ == decimal_digits(m as nat),
    {
        match max_calories(&self.parsed_input) {
            Some(m) => Ok(u64_to_string(m as u64)),
            None => Err(PuzzleError::NoAnswer),
        }
    }

    fn solve_second_puzzle(&self) -> (r: Result<String, PuzzleError>)
        ensures
            r is Err <==> self.parsed_input.len() < 3,
            r matches Ok(s) ==> exists|t: u64|
                #[trigger] is_top_three_sum(self.parsed_input@, t as int) && s@ == decimal_digits(
                    t as nat,
                ),
    {
        match top_three_calories(&self.parsed_input) {
            Some(s) => Ok(u64_to_string(s)),
            None => Err(PuzzleError::NoAnswer),
        }
    }
}

} // verus!
