//! Mirage maintenance: extrapolating a sequence forwards or backwards from
//! its successive differences.
use vstd::prelude::*;

use crate::advent::{AdventDay, Parse, PuzzleError};
use crate::text::{
    chars_of, collect_all, lemma_collect_all_err, parse_i64, read_i64, split, split_char,
    str_views, write_decimal,
};

verus! {

/// The parser of this day's puzzle input.
pub struct NewDay9Puzzle {}

/// The sequences, one per line.
pub struct Day9Puzzle {
    pub parsed_input: Vec<Vec<i64>>,
}

/// Which end of a sequence to extend.
#[derive(Debug, PartialEq, Eq, Structural, Clone, Copy)]
pub enum PredictionDirection {
    Past,
    Future,
}

/// The differences between consecutive values.
pub open spec fn differences(s: Seq<int>) -> Seq<int> {
    Seq::new((if s.len() == 0 { 0 } else { s.len() - 1 }) as nat, |i: int| s[i + 1] - s[i])
}

/// Every value is zero.
pub open spec fn all_zero(s: Seq<int>) -> bool {
    forall|i: int| 0 <= i < s.len() ==> s[i] == 0
}

/// A sequence of `i64` as integers.
pub open spec fn ints(v: Seq<i64>) -> Seq<int> {
    v.map_values(|x: i64| x as int)
}

/// `x` fits an `i64`.
pub open spec fn fits(x: int) -> bool {
    i64::MIN <= x <= i64::MAX
}

/// The value that extends a non-empty sequence at its end (`Future`) or
/// at its start (`Past`): once the differences are all zero the sequence is
/// constant; otherwise the differences are extended first. `None` when a
/// difference or a sum on the way does not fit an `i64`.
pub open spec fn prediction(s: Seq<int>, direction: PredictionDirection) -> Option<int>
    decreases s.len(),
{
    if s.len() == 0 {
        None
    } else if exists|i: int| 0 <= i < s.len() - 1 && !fits(#[trigger] differences(s)[i]) {
        None
    } else if all_zero(differences(s)) {
        Some(
            if direction == PredictionDirection::Future {
                s.last()
            } else {
                s[0]
            },
        )
    } else {
        match prediction(differences(s), direction) {
            None => None,
            Some(d) => {
                let v = if direction == PredictionDirection::Future {
                    s.last() + d
                } else {
                    s[0] - d
                };
                if fits(v) {
                    Some(v)
                } else {
                    None
                }
            },
        }
    }
}

/// The next value of the sequence (`Future`) or the one before its first
/// (`Past`); `None` for an empty sequence, or where the arithmetic does not
/// fit an `i64`.
pub fn predict_value_of_sequence(sequence: &Vec<i64>, prediction_direction: PredictionDirection) -> (r:
    Option<i64>)
    ensures
        r matches Some(v) ==> prediction(ints(sequence@), prediction_direction) == Some(v as int),
        r is None ==> prediction(ints(sequence@), prediction_direction) is None,
    decreases sequence.len(),
{
    let ghost s = ints(sequence@);
    let n = sequence.len();
    if n == 0 {
        return None;
    }
    let mut diffs: Vec<i64> = Vec::new();
    let mut all_zero_so_far = true;
    let mut i: usize = 0;
    while i < n - 1
        invariant
            n == sequence.len() > 0,
            s == ints(sequence@),
            i <= n - 1,
            diffs.len() == i,
            forall|j: int| 0 <= j < i ==> #[trigger] diffs@[j] as int == differences(s)[j],
            all_zero_so_far == forall|j: int| 0 <= j < i ==> #[trigger] differences(s)[j] == 0,
        decreases n - 1 - i,
    {
        let a = sequence[i + 1] as i128 - sequence[i] as i128;
        assert(differences(s)[i as int] == a as int);
        if a < i64::MIN as i128 || a > i64::MAX as i128 {
            assert(!fits(differences(s)[i as int]));
            return None;
        }
        diffs.push(a as i64);
        if a != 0 {
            all_zero_so_far = false;
        }
        i = i + 1;
    }
    assert(ints(diffs@) =~= differences(s));
    if all_zero_so_far {
        assert(all_zero(differences(s)));
        return Some(
            match prediction_direction {
                PredictionDirection::Future => sequence[n - 1],
                PredictionDirection::Past => sequence[0],
            },
        );
    }
    let d = match predict_value_of_sequence(&diffs, prediction_direction) {
        Some(d) => d,
        None => return None,
    };
    let v = match prediction_direction {
        PredictionDirection::Future => sequence[n - 1] as i128 + d as i128,
        PredictionDirection::Past => sequence[0] as i128 - d as i128,
    };
    if v < i64::MIN as i128 || v > i64::MAX as i128 {
        return None;
    }
    Some(v as i64)
}

/// What a line of numbers reads as.
pub open spec fn line_values(line: Seq<char>) -> Result<Seq<int>, PuzzleError> {
    collect_all(
        split(line, seq![' ']),
        |w|
            match read_i64(w) {
                Some(v) => Ok(v),
                None => Err(PuzzleError::InvalidNumber),
            },
    )
}

/// Reads a line of space-separated `i64` values.
pub fn parse_sequence(line: &str) -> (r: Result<Vec<i64>, PuzzleError>)
    ensures
        r matches Ok(v) ==> line_values(line@) == Ok::<Seq<int>, PuzzleError>(ints(v@)),
        r matches Err(e) ==> line_values(line@) == Err::<Seq<int>, PuzzleError>(e),
{
    let words = split_char(line, ' ');
    let ghost ws = split(line@, seq![' ']);
    let ghost f = |w|
        match read_i64(w) {
            Some(v) => Ok(v),
            None => Err(PuzzleError::InvalidNumber),
        };
    let mut values: Vec<i64> = Vec::new();
    let mut i: usize = 0;
    assert(ws.take(0) =~= seq![]);
    assert(ints(values@) =~= seq![]);
    while i < words.len()
        invariant
            i <= words.len(),
            str_views(words@) == ws,
            ws == split(line@, seq![' ']),
            f == (|w|
                match read_i64(w) {
                    Some(v) => Ok(v),
                    None => Err(PuzzleError::InvalidNumber),
                }),
            collect_all(ws.take(i as int), f) == Ok::<Seq<int>, PuzzleError>(ints(values@)),
        decreases words.len() - i,
    {
        assert(ws.take(i + 1).drop_last() =~= ws.take(i as int));
        assert(words@[i as int]@ == ws[i as int]);
        match parse_i64(&chars_of(words[i])) {
            Some(v) => {
                let ghost old_v = values@;
                values.push(v);
                assert(ints(values@) =~= ints(old_v).push(v as int));
            },
            None => {
                proof {
                    lemma_collect_all_err(ws, f, i + 1);
                }
                return Err(PuzzleError::InvalidNumber);
            },
        }
        i = i + 1;
    }
    assert(ws.take(i as int) =~= ws);
    Ok(values)
}

/// Reads the report: one sequence per line.
pub fn parse_report(input: &str) -> (r: Result<Vec<Vec<i64>>, PuzzleError>)
    ensures
        r matches Ok(v) ==> collect_all(split(input@, seq!['\n']), |l| line_values(l)) == Ok::<
            Seq<Seq<int>>,
            PuzzleError,
        >(v@.map_values(|x: Vec<i64>| ints(x@))),
        r matches Err(e) ==> collect_all(split(input@, seq!['\n']), |l| line_values(l)) == Err::<
            Seq<Seq<int>>,
            PuzzleError,
        >(e),
{
    let lines = split_char(input, '\n');
    let ghost ls = split(input@, seq!['\n']);
    let ghost f = |l| line_values(l);
    let mut seqs: Vec<Vec<i64>> = Vec::new();
    let mut i: usize = 0;
    assert(ls.take(0) =~= seq![]);
    assert(seqs@.map_values(|x: Vec<i64>| ints(x@)) =~= seq![]);
    while i < lines.len()
        invariant
            i <= lines.len(),
            str_views(lines@) == ls,
            ls == split(input@, seq!['\n']),
            f == (|l| line_values(l)),
            collect_all(ls.take(i as int), f) == Ok::<Seq<Seq<int>>, PuzzleError>(
                seqs@.map_values(|x: Vec<i64>| ints(x@)),
            ),
        decreases lines.len() - i,
    {
        assert(ls.take(i + 1).drop_last() =~= ls.take(i as int));
        assert(lines@[i as int]@ == ls[i as int]);
        match parse_sequence(lines[i]) {
            Ok(v) => {
                let ghost old_v = seqs@;
                let ghost iv = ints(v@);
                seqs.push(v);
                assert(seqs@.map_values(|x: Vec<i64>| ints(x@)) =~= old_v.map_values(
                    |x: Vec<i64>| ints(x@),
                ).push(iv));
            },
            Err(e) => {
                proof {
                    lemma_collect_all_err(ls, f, i + 1);
                }
                return Err(e);
            },
        }
        i = i + 1;
    }
    assert(ls.take(i as int) =~= ls);
    Ok(seqs)
}

/// The sum of the predictions for all sequences; an error when one has
/// none, or the sum does not fit an `i64`.
pub open spec fn prediction_sum(seqs: Seq<Seq<int>>, direction: PredictionDirection) -> Result<
    int,
    PuzzleError,
>
    decreases seqs.len(),
{
    if seqs.len() == 0 {
        Ok(0)
    } else {
        match prediction_sum(seqs.drop_last(), direction) {
            Err(e) => Err(e),
            Ok(t) => match prediction(seqs.last(), direction) {
                None => Err(PuzzleError::NoAnswer),
                Some(p) => if fits(t + p) {
                    Ok(t + p)
                } else {
                    Err(PuzzleError::Overflow)
                },
            },
        }
    }
}

/// Once a prefix has failed, the whole fails the same way.
pub proof fn lemma_prediction_sum_err(seqs: Seq<Seq<int>>, direction: PredictionDirection, i: int)
    requires
        0 <= i <= seqs.len(),
        prediction_sum(seqs.take(i), direction) is Err,
    ensures
        prediction_sum(seqs, direction) == prediction_sum(seqs.take(i), direction),
    decreases seqs.len(),
{
    if i < seqs.len() {
        assert(seqs.drop_last().take(i) =~= seqs.take(i));
        lemma_prediction_sum_err(seqs.drop_last(), direction, i);
    } else {
        assert(seqs.take(i) =~= seqs);
    }
}

/// The sum of the extrapolated values of all sequences.
pub fn sum_of_predictions(sequences: &Vec<Vec<i64>>, direction: PredictionDirection) -> (r: Result<
    i64,
    PuzzleError,
>)
    ensures
        r matches Ok(v) ==> prediction_sum(sequences@.map_values(|x: Vec<i64>| ints(x@)), direction)
            == Ok::<int, PuzzleError>(v as int),
        r matches Err(e) ==> prediction_sum(sequences@.map_values(|x: Vec<i64>| ints(x@)), direction)
            == Err::<int, PuzzleError>(e),
{
    let ghost ss = sequences@.map_values(|x: Vec<i64>| ints(x@));
    let mut total: i64 = 0;
    let mut i: usize = 0;
    assert(ss.take(0) =~= seq![]);
    while i < sequences.len()
        invariant
            i <= sequences.len(),
            ss == sequences@.map_values(|x: Vec<i64>| ints(x@)),
            prediction_sum(ss.take(i as int), direction) == Ok::<int, PuzzleError>(total as int),
        decreases sequences.len() - i,
    {
        assert(ss.take(i + 1).drop_last() =~= ss.take(i as int));
        assert(ss[i as int] == ints(sequences@[i as int]@));
        match predict_value_of_sequence(&sequences[i], direction) {
            Some(p) => {
                let t = total as i128 + p as i128;
                if t < i64::MIN as i128 || t > i64::MAX as i128 {
                    proof {
                        lemma_prediction_sum_err(ss, direction, i + 1);
                    }
                    return Err(PuzzleError::Overflow);
                }
                total = t as i64;
            },
            None => {
                proof {
                    lemma_prediction_sum_err(ss, direction, i + 1);
                }
                return Err(PuzzleError::NoAnswer);
            },
        }
        i = i + 1;
    }
    assert(ss.take(i as int) =~= ss);
    Ok(total)
}

/// `v` written in decimal, with a `-` when negative.
pub open spec fn signed_digits(v: int) -> Seq<char> {
    if v < 0 {
        seq!['-'] + crate::text::decimal_digits((-v) as nat)
    } else {
        crate::text::decimal_digits(v as nat)
    }
}

/// `n` written in decimal, with a `-` when negative.
pub fn i64_to_string(n: i64) -> (r: String)
    ensures
        r@ == signed_digits(n as int),
{
    let mut r = String::new();
    if n < 0 {
        crate::text::push_char(&mut r, '-');
        write_decimal(&mut r, (0 - n as i128) as u64);
    } else {
        write_decimal(&mut r, n as u64);
    }
    r
}

impl Parse for NewDay9Puzzle {
    type Day = Day9Puzzle;

    fn parse_input(&self, puzzle_input: &str) -> (r: Result<Day9Puzzle, PuzzleError>)
        ensures
            r matches Ok(d) ==> collect_all(split(puzzle_input@, seq!['\n']), |l| line_values(l))
                == Ok::<Seq<Seq<int>>, PuzzleError>(
                d.parsed_input@.map_values(|x: Vec<i64>| ints(x@)),
            ),
            r matches Err(e) ==> collect_all(split(puzzle_input@, seq!['\n']), |l| line_values(l))
                == Err::<Seq<Seq<int>>, PuzzleError>(e),
    {
        let parsed_input = parse_report(puzzle_input)?;
        Ok(Day9Puzzle { parsed_input })
    }
}

impl AdventDay for Day9Puzzle {
    fn solve_first_puzzle(&self) -> (r: Result<String, PuzzleError>)
        ensures
            r matches Ok(s) ==> (prediction_sum(
                self.parsed_input@.map_values(|x: Vec<i64>| ints(x@)),
                PredictionDirection::Future,
            ) matches Ok(v) && s@ == signed_digits(v)),
            r matches Err(e) ==> prediction_sum(
                self.parsed_input@.map_values(|x: Vec<i64>| ints(x@)),
                PredictionDirection::Future,
            ) == Err::<int, PuzzleError>(e),
    {
        let total = sum_of_predictions(&self.parsed_input, PredictionDirection::Future)?;
        Ok(i64_to_string(total))
    }

    fn solve_second_puzzle(&self) -> (r: Result<String, PuzzleError>)
        ensures
            r matches Ok(s) ==> (prediction_sum(
                self.parsed_input@.map_values(|x: Vec<i64>| ints(x@)),
                PredictionDirection::Past,
            ) matches Ok(v) && s@ == signed_digits(v)),
            r matches Err(e) ==> prediction_sum(
                self.parsed_input@.map_values(|x: Vec<i64>| ints(x@)),
                PredictionDirection::Past,
            ) == Err::<int, PuzzleError>(e),
    {
        let total = sum_of_predictions(&self.parsed_input, PredictionDirection::Past)?;
        Ok(i64_to_string(total))
    }
}

} // verus!
