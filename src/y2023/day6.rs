//! Boat races: how many ways of charging the boat beat each race's record.
use vstd::prelude::*;

use crate::advent::{AdventDay, Parse, PuzzleError};
use crate::text::{
    chars_of, decimal_digits, parse_u64, read_unsigned, split, split_char, str_views,
    u64_to_string, write_decimal,
};

verus! {

/// The parser of this day's puzzle input.
pub struct NewDay6Puzzle {}

/// Each race's time, and the record distance of the race at the same place.
pub struct Day6Puzzle {
    pub allocated_times: Vec<u64>,
    pub distance_records: Vec<u64>,
}

/// The non-empty space-separated tokens of a line's part after `:`.
pub open spec fn value_tokens(line: Seq<char>) -> Seq<Seq<char>> {
    split(split(line, seq![':'])[1], seq![' ']).filter(|t: Seq<char>| t.len() > 0)
}

/// What a line `Label: a b c` reads as.
pub open spec fn line_spec(line: Seq<char>) -> Result<Seq<nat>, PuzzleError> {
    if split(line, seq![':']).len() < 2 {
        Err(PuzzleError::MissingField)
    } else if forall|i: int|
        0 <= i < value_tokens(line).len() ==> read_unsigned(
            #[trigger] value_tokens(line)[i],
            u64::MAX as nat + 1,
        ) is Some {
        Ok(value_tokens(line).map_values(|t: Seq<char>| read_unsigned(t, u64::MAX as nat + 1)->0))
    } else {
        Err(PuzzleError::InvalidNumber)
    }
}

/// Reads the numbers after the label of a line.
pub fn parse_input_line(input_line: &str) -> (r: Result<Vec<u64>, PuzzleError>)
    ensures
        r matches Ok(v) ==> line_spec(input_line@) == Ok::<Seq<nat>, PuzzleError>(
            v@.map_values(|x: u64| x as nat),
        ),
        r matches Err(e) ==> line_spec(input_line@) == Err::<Seq<nat>, PuzzleError>(e),
{
    let parts = split_char(input_line, ':');
    if parts.len() < 2 {
        return Err(PuzzleError::MissingField);
    }
    assert(parts@[1]@ == str_views(parts@)[1]);
    let words = split_char(parts[1], ' ');
    let ghost ws = split(split(input_line@, seq![':'])[1], seq![' ']);
    let ghost pred = |t: Seq<char>| t.len() > 0;
    let ghost toks = value_tokens(input_line@);
    let mut values: Vec<u64> = Vec::new();
    let mut i: usize = 0;
    proof {
        reveal(Seq::filter);
        assert(ws.take(0) =~= seq![]);
        assert(values@.map_values(|x: u64| x as nat) =~= seq![]);
    }
    while i < words.len()
        invariant
            i <= words.len(),
            str_views(words@) == ws,
            pred == (|t: Seq<char>| t.len() > 0),
            toks == ws.filter(pred),
            toks == value_tokens(input_line@),
            ws == split(split(input_line@, seq![':'])[1], seq![' ']),
            split(input_line@, seq![':']).len() >= 2,
            values@.map_values(|x: u64| x as nat) == ws.take(i as int).filter(pred).map_values(
                |t: Seq<char>| read_unsigned(t, u64::MAX as nat + 1)->0,
            ),
            forall|j: int|
                0 <= j < ws.take(i as int).filter(pred).len() ==> read_unsigned(
                    #[trigger] ws.take(i as int).filter(pred)[j],
                    u64::MAX as nat + 1,
                ) is Some,
        decreases words.len() - i,
    {
        proof {
            reveal(Seq::filter);
            assert(ws.take(i + 1).drop_last() =~= ws.take(i as int));
        }
        assert(words@[i as int]@ == ws[i as int]);
        if words[i].unicode_len() > 0 {
            match parse_u64(&chars_of(words[i])) {
                Some(v) => {
                    let ghost old_v = values@;
                    values.push(v);
                    assert(values@.map_values(|x: u64| x as nat) =~= old_v.map_values(
                        |x: u64| x as nat,
                    ).push(v as nat));
                    assert(ws.take(i + 1).filter(pred) == ws.take(i as int).filter(pred).push(
                        ws[i as int],
                    ));
                    assert(values@.map_values(|x: u64| x as nat) =~= ws.take(i + 1).filter(
                        pred,
                    ).map_values(|t: Seq<char>| read_unsigned(t, u64::MAX as nat + 1)->0));
                },
                None => {
                    proof {
                        lemma_filter_keeps(ws, pred, i as int);
                        let j = choose|j: int| 0 <= j < toks.len() && toks[j] == ws[i as int];
                        assert(read_unsigned(toks[j], u64::MAX as nat + 1) is None);
                    }
                    return Err(PuzzleError::InvalidNumber);
                },
            }
        } else {
            assert(ws.take(i + 1).filter(pred) == ws.take(i as int).filter(pred));
        }
        i = i + 1;
    }
    assert(ws.take(i as int) =~= ws);
    proof {
        assert(values@.map_values(|x: u64| x as nat) =~= toks.map_values(
            |t: Seq<char>| read_unsigned(t, u64::MAX as nat + 1)->0,
        ));
    }
    Ok(values)
}

/// A kept element of a sequence stays in its filtered form.
proof fn lemma_filter_keeps(ws: Seq<Seq<char>>, pred: spec_fn(Seq<char>) -> bool, i: int)
    requires
        0 <= i < ws.len(),
        pred(ws[i]),
    ensures
        ws.filter(pred).contains(ws[i]),
{
    ws.filter_lemma(pred);
}

/// The distance covered when the button is held `i` of `time` milliseconds.
pub open spec fn distance(i: int, time: int) -> int {
    i * (time - i)
}

/// The first charge time from `i` on, below `time`, that beats `record`;
/// 0 when there is none.
pub open spec fn lowest_from(record: int, time: int, i: int) -> int
    decreases time - i,
{
    if i >= time {
        0
    } else if distance(i, time) > record {
        i
    } else {
        lowest_from(record, time, i + 1)
    }
}

/// The last charge time below `i` that beats `record`; 0 when there is none.
pub open spec fn highest_below(record: int, time: int, i: int) -> int
    decreases i,
{
    if i <= 0 {
        0
    } else if distance(i - 1, time) > record {
        i - 1
    } else {
        highest_below(record, time, i - 1)
    }
}

/// The shortest charge time that beats the record; 0 when none does.
pub fn find_lowest_charge_time_to_beat_record_distance(record_distance: u64, allocated_time: u64) -> (r:
    u64)
    ensures
        r == lowest_from(record_distance as int, allocated_time as int, 0),
{
    let mut i: u64 = 0;
    while i < allocated_time
        invariant
            i <= allocated_time,
            lowest_from(record_distance as int, allocated_time as int, 0) == lowest_from(
                record_distance as int,
                allocated_time as int,
                i as int,
            ),
        decreases allocated_time - i,
    {
        let a = i as u128;
        let b = (allocated_time - i) as u128;
        assert(a * b <= u64::MAX as int * u64::MAX as int) by (nonlinear_arith)
            requires
                a <= u64::MAX,
                b <= u64::MAX,
        ;
        let d = a * b;
        if d > record_distance as u128 {
            return i;
        }
        i = i + 1;
    }
    0
}

/// The longest charge time that beats the record; 0 when none does.
pub fn find_highest_charge_time_to_beat_record_distance(record_distance: u64, allocated_time: u64) -> (r:
    u64)
    ensures
        r == highest_below(record_distance as int, allocated_time as int, allocated_time as int),
{
    let mut i: u64 = allocated_time;
    while i > 0
        invariant
            i <= allocated_time,
            highest_below(record_distance as int, allocated_time as int, allocated_time as int)
                == highest_below(record_distance as int, allocated_time as int, i as int),
        decreases i,
    {
        let c = i - 1;
        let a = c as u128;
        let b = (allocated_time - c) as u128;
        assert(a * b <= u64::MAX as int * u64::MAX as int) by (nonlinear_arith)
            requires
                a <= u64::MAX,
                b <= u64::MAX,
        ;
        let d = a * b;
        if d > record_distance as u128 {
            return c;
        }
        i = c;
    }
    0
}

/// The first winning time is not after the last one.
proof fn lemma_lowest_le_highest(record: int, time: int, i: int)
    requires
        0 <= i <= time,
    ensures
        lowest_from(record, time, i) <= highest_below(record, time, time) || lowest_from(
            record,
            time,
            i,
        ) == 0,
        lowest_from(record, time, i) >= 0,
        highest_below(record, time, time) >= 0,
    decreases time - i,
{
    lemma_highest_at_least(record, time, time);
    if i < time && distance(i, time) <= record {
        lemma_lowest_le_highest(record, time, i + 1);
    } else if i < time {
        lemma_highest_at_least_winner(record, time, time, i);
    }
}

/// The last winner below `j` is not negative.
proof fn lemma_highest_at_least(record: int, time: int, j: int)
    ensures
        highest_below(record, time, j) >= 0,
    decreases j,
{
    if j > 0 {
        lemma_highest_at_least(record, time, j - 1);
    }
}

/// The last winner below `j` is at least any winner `w` below `j`.
proof fn lemma_highest_at_least_winner(record: int, time: int, j: int, w: int)
    requires
        0 <= w < j,
        distance(w, time) > record,
    ensures
        highest_below(record, time, j) >= w,
    decreases j,
{
    if j - 1 != w && distance(j - 1, time) <= record {
        lemma_highest_at_least_winner(record, time, j - 1, w);
    }
}

/// The number of winning charge times, counted as the span from the first
/// winning time to the last; 1 when none wins, as that span then runs from
/// 0 to 0.
pub open spec fn ways_to_win(record: int, time: int) -> int {
    highest_below(record, time, time) - lowest_from(record, time, 0) + 1
}

/// The number of charge times from the shortest to the longest winning one.
pub fn calculate_number_of_different_winning_charge_times(record_distance: u64, allocated_time: u64) -> (r:
    u64)
    ensures
        r == ways_to_win(record_distance as int, allocated_time as int),
{
    let lowest_charge_time = find_lowest_charge_time_to_beat_record_distance(
        record_distance,
        allocated_time,
    );
    let highest_charge_time = find_highest_charge_time_to_beat_record_distance(
        record_distance,
        allocated_time,
    );
    proof {
        lemma_lowest_le_highest(record_distance as int, allocated_time as int, 0);
        lemma_highest_below_bound(record_distance as int, allocated_time as int, allocated_time as int);
    }
    highest_charge_time - lowest_charge_time + 1
}

/// The last winner below `j` lies below `j`.
proof fn lemma_highest_below_bound(record: int, time: int, j: int)
    ensures
        highest_below(record, time, j) == 0 || highest_below(record, time, j) < j,
    decreases j,
{
    if j > 0 && distance(j - 1, time) <= record {
        lemma_highest_below_bound(record, time, j - 1);
    }
}

/// The product of the numbers of ways to win the races.
pub open spec fn margin(times: Seq<u64>, records: Seq<u64>) -> int
    decreases times.len(),
{
    if times.len() == 0 {
        1
    } else {
        margin(times.drop_last(), records) * ways_to_win(
            records[times.len() - 1] as int,
            times.last() as int,
        )
    }
}

/// The product, over the races, of the number of ways to beat the record;
/// `None` when the product does not fit a `u64`.
pub fn calculate_margin_of_error(allocated_times: &Vec<u64>, distance_records: &Vec<u64>) -> (r:
    Option<u64>)
    requires
        allocated_times.len() <= distance_records.len(),
    ensures
        r matches Some(v) ==> v == margin(allocated_times@, distance_records@),
        r is None ==> margin(allocated_times@, distance_records@) > u64::MAX,
{
    let mut product: u64 = 1;
    let mut i: usize = 0;
    while i < allocated_times.len()
        invariant
            i <= allocated_times.len() <= distance_records.len(),
            product == margin(allocated_times@.take(i as int), distance_records@),
        decreases allocated_times.len() - i,
    {
        assert(allocated_times@.take(i + 1).drop_last() =~= allocated_times@.take(i as int));
        let ways = calculate_number_of_different_winning_charge_times(
            distance_records[i],
            allocated_times[i],
        );
        let a = product as u128;
        let b = ways as u128;
        assert(a * b <= u64::MAX as int * u64::MAX as int) by (nonlinear_arith)
            requires
                a <= u64::MAX,
                b <= u64::MAX,
        ;
        let p = a * b;
        if p > u64::MAX as u128 {
            proof {
                lemma_margin_grows(allocated_times@, distance_records@, i as int + 1);
            }
            return None;
        }
        product = p as u64;
        i = i + 1;
    }
    assert(allocated_times@.take(i as int) =~= allocated_times@);
    Some(product)
}

/// The ways to win are never fewer than one, so the product only grows.
proof fn lemma_margin_grows(times: Seq<u64>, records: Seq<u64>, i: int)
    requires
        0 <= i <= times.len() <= records.len(),
    ensures
        margin(times, records) >= margin(times.take(i), records),
        margin(times.take(i), records) >= 1,
    decreases times.len(),
{
    if i < times.len() {
        assert(times.drop_last().take(i) =~= times.take(i));
        lemma_margin_grows(times.drop_last(), records, i);
        let w = ways_to_win(records[times.len() - 1] as int, times.last() as int);
        lemma_lowest_le_highest(records[times.len() - 1] as int, times.last() as int, 0);
        let m = margin(times.drop_last(), records);
        assert(m * w >= m) by (nonlinear_arith)
            requires
                w >= 1,
                m >= 1,
        ;
    } else {
        assert(times.take(i) =~= times);
        if times.len() > 0 {
            lemma_margin_grows(times.drop_last(), records, times.len() - 1);
            assert(times.drop_last().take(times.len() - 1) =~= times.drop_last());
            lemma_lowest_le_highest(records[times.len() - 1] as int, times.last() as int, 0);
            let w = ways_to_win(records[times.len() - 1] as int, times.last() as int);
            let m = margin(times.drop_last(), records);
            assert(m * w >= 1) by (nonlinear_arith)
                requires
                    w >= 1,
                    m >= 1,
            ;
        }
    }
}

/// The decimal digits of the numbers, written one after the other.
pub open spec fn joined_digits(v: Seq<u64>) -> Seq<char>
    decreases v.len(),
{
    if v.len() == 0 {
        seq![]
    } else {
        joined_digits(v.drop_last()) + decimal_digits(v.last() as nat)
    }
}

/// The numbers written one after the other and read back as one number,
/// as the second reading of the sheet asks; `None` when that number does
/// not fit a `u64`, or there are no numbers.
pub fn join_numbers(values: &Vec<u64>) -> (r: Option<u64>)
    ensures
        r matches Some(v) ==> read_unsigned(joined_digits(values@), u64::MAX as nat + 1) == Some(
            v as nat,
        ),
        r is None ==> read_unsigned(joined_digits(values@), u64::MAX as nat + 1) is None,
{
    let mut text = String::new();
    let mut i: usize = 0;
    assert(values@.take(0) =~= seq![]);
    while i < values.len()
        invariant
            i <= values.len(),
            text@ == joined_digits(values@.take(i as int)),
        decreases values.len() - i,
    {
        assert(values@.take(i + 1).drop_last() =~= values@.take(i as int));
        write_decimal(&mut text, values[i]);
        i = i + 1;
    }
    assert(values@.take(i as int) =~= values@);
    parse_u64(&chars_of(text.as_str()))
}

impl Parse for NewDay6Puzzle {
    type Day = Day6Puzzle;

    fn parse_input(&self, puzzle_input: &str) -> (r: Result<Day6Puzzle, PuzzleError>)
        ensures
            r matches Ok(d) ==> split(puzzle_input@, seq!['\n']).len() >= 2 && line_spec(
                split(puzzle_input@, seq!['\n'])[0],
            ) == Ok::<Seq<nat>, PuzzleError>(d.allocated_times@.map_values(|x: u64| x as nat))
                && line_spec(split(puzzle_input@, seq!['\n'])[1]) == Ok::<Seq<nat>, PuzzleError>(
                d.distance_records@.map_values(|x: u64| x as nat),
            ),
            r is Err ==> split(puzzle_input@, seq!['\n']).len() < 2 || line_spec(
                split(puzzle_input@, seq!['\n'])[0],
            ) is Err || line_spec(split(puzzle_input@, seq!['\n'])[1]) is Err,
    {
        let lines = split_char(puzzle_input, '\n');
        if lines.len() < 2 {
            return Err(PuzzleError::MissingField);
        }
        assert(lines@[0]@ == str_views(lines@)[0]);
        assert(lines@[1]@ == str_views(lines@)[1]);
        let allocated_times = parse_input_line(lines[0])?;
        let distance_records = parse_input_line(lines[1])?;
        Ok(Day6Puzzle { allocated_times, distance_records })
    }
}

impl AdventDay for Day6Puzzle {
    fn solve_first_puzzle(&self) -> (r: Result<String, PuzzleError>)
        ensures
            r is Ok <==> self.allocated_times.len() <= self.distance_records.len() && margin(
                self.allocated_times@,
                self.distance_records@,
            ) <= u64::MAX,
            r matches Ok(s) ==> s@ == decimal_digits(
                margin(self.allocated_times@, self.distance_records@) as nat,
            ),
    {
        if self.allocated_times.len() > self.distance_records.len() {
            return Err(PuzzleError::MissingField);
        }
        match calculate_margin_of_error(&self.allocated_times, &self.distance_records) {
            Some(m) => Ok(u64_to_string(m)),
            None => Err(PuzzleError::Overflow),
        }
    }

    fn solve_second_puzzle(&self) -> (r: Result<String, PuzzleError>)
        ensures
            r is Ok <==> read_unsigned(joined_digits(self.allocated_times@), u64::MAX as nat + 1)
                is Some && read_unsigned(joined_digits(self.distance_records@), u64::MAX as nat + 1)
                is Some,
            r matches Ok(s) ==> (read_unsigned(
                joined_digits(self.allocated_times@),
                u64::MAX as nat + 1,
            ) matches Some(t) && read_unsigned(
                joined_digits(self.distance_records@),
                u64::MAX as nat + 1,
            ) matches Some(d) && s@ == decimal_digits(ways_to_win(d as int, t as int) as nat)),
    {
        let single_time = match join_numbers(&self.allocated_times) {
            Some(t) => t,
            None => return Err(PuzzleError::InvalidNumber),
        };
        let single_record = match join_numbers(&self.distance_records) {
            Some(t) => t,
            None => return Err(PuzzleError::InvalidNumber),
        };
        let ways = calculate_number_of_different_winning_charge_times(single_record, single_time);
        Ok(u64_to_string(ways))
    }
}

} // verus!
