//! Camp cleanup: pairs of section ranges that contain or overlap each other.
use vstd::prelude::*;

use crate::advent::{AdventDay, Parse, PuzzleError};
use crate::text::{
    decimal_digits,
    chars_of, collect_all, lemma_collect_all_err, parse_u32, read_unsigned, split, split_char,
    str_views, u64_to_string,
};

verus! {

/// The parser of this day's puzzle input.
pub struct NewDay4Puzzle {}

/// The pairs of section ranges, one pair per elf pair.
pub struct Day4Puzzle {
    pub parsed_input: Vec<(CleaningAssignment, CleaningAssignment)>,
}

/// The sections from `start_zone` to `end_zone`, both included.
#[derive(Debug, PartialEq, Eq, Structural, Clone, Copy)]
pub struct CleaningAssignment {
    pub start_zone: u32,
    pub end_zone: u32,
}

/// A `u32` read from decimal digits.
pub open spec fn read_u32(s: Seq<char>) -> Option<nat> {
    read_unsigned(s, u32::MAX as nat + 1)
}

/// What a range `a-b` reads as.
pub open spec fn range_spec(s: Seq<char>) -> Result<(nat, nat), PuzzleError> {
    let p = split(s, seq!['-']);
    match read_u32(p[0]) {
        None => Err(PuzzleError::InvalidNumber),
        Some(a) => if p.len() < 2 {
            Err(PuzzleError::MissingField)
        } else {
            match read_u32(p[1]) {
                None => Err(PuzzleError::InvalidNumber),
                Some(b) => Ok((a, b)),
            }
        },
    }
}

/// An assignment seen as its two bounds.
pub open spec fn bounds_of(c: CleaningAssignment) -> (nat, nat) {
    (c.start_zone as nat, c.end_zone as nat)
}

/// Reads a range `start-end`.
pub fn parse_cleaning_range(cleaning_range_string: &str) -> (r: Result<CleaningAssignment, PuzzleError>)
    ensures
        r matches Ok(c) ==> range_spec(cleaning_range_string@) == Ok::<(nat, nat), PuzzleError>(
            bounds_of(c),
        ),
        r matches Err(e) ==> range_spec(cleaning_range_string@) == Err::<(nat, nat), PuzzleError>(
            e,
        ),
{
    let parts = split_char(cleaning_range_string, '-');
    assert(str_views(parts@)[0] == parts@[0]@);
    let first = chars_of(parts[0]);
    let start_zone = match parse_u32(&first) {
        Some(v) => v,
        None => return Err(PuzzleError::InvalidNumber),
    };
    if parts.len() < 2 {
        return Err(PuzzleError::MissingField);
    }
    assert(str_views(parts@)[1] == parts@[1]@);
    let second = chars_of(parts[1]);
    let end_zone = match parse_u32(&second) {
        Some(v) => v,
        None => return Err(PuzzleError::InvalidNumber),
    };
    Ok(CleaningAssignment::new(start_zone, end_zone))
}

/// What a line `a-b,c-d` reads as.
pub open spec fn pair_spec(line: Seq<char>) -> Result<((nat, nat), (nat, nat)), PuzzleError> {
    let p = split(line, seq![',']);
    match range_spec(p[0]) {
        Err(e) => Err(e),
        Ok(first) => if p.len() < 2 {
            Err(PuzzleError::MissingField)
        } else {
            match range_spec(p[1]) {
                Err(e) => Err(e),
                Ok(second) => Ok((first, second)),
            }
        },
    }
}

/// The pairs of a list, as bounds.
pub open spec fn pairs_view(v: Seq<(CleaningAssignment, CleaningAssignment)>) -> Seq<
    ((nat, nat), (nat, nat)),
> {
    v.map_values(|p: (CleaningAssignment, CleaningAssignment)| (bounds_of(p.0), bounds_of(p.1)))
}

/// What the whole list reads as: its pairs, or the first line's error.
pub open spec fn assignments_spec(s: Seq<char>) -> Result<
    Seq<((nat, nat), (nat, nat))>,
    PuzzleError,
> {
    collect_all(split(s, seq!['\n']), |l| pair_spec(l))
}

/// Reads one line `a-b,c-d`.
pub fn parse_cleaning_pair(line: &str) -> (r: Result<
    (CleaningAssignment, CleaningAssignment),
    PuzzleError,
>)
    ensures
        r matches Ok(p) ==> pair_spec(line@) == Ok::<((nat, nat), (nat, nat)), PuzzleError>(
            (bounds_of(p.0), bounds_of(p.1)),
        ),
        r matches Err(e) ==> pair_spec(line@) == Err::<((nat, nat), (nat, nat)), PuzzleError>(e),
{
    let ranges = split_char(line, ',');
    assert(str_views(ranges@)[0] == ranges@[0]@);
    let first = parse_cleaning_range(ranges[0])?;
    if ranges.len() < 2 {
        return Err(PuzzleError::MissingField);
    }
    assert(str_views(ranges@)[1] == ranges@[1]@);
    let second = parse_cleaning_range(ranges[1])?;
    Ok((first, second))
}

/// Reads the list of pairs, one pair per line.
pub fn parse_cleaning_assignments(input: &str) -> (r: Result<
    Vec<(CleaningAssignment, CleaningAssignment)>,
    PuzzleError,
>)
    ensures
        r matches Ok(v) ==> assignments_spec(input@) == Ok::<
            Seq<((nat, nat), (nat, nat))>,
            PuzzleError,
        >(pairs_view(v@)),
        r matches Err(e) ==> assignments_spec(input@) == Err::<
            Seq<((nat, nat), (nat, nat))>,
            PuzzleError,
        >(e),
{
    let lines = split_char(input, '\n');
    let ghost f = |l| pair_spec(l);
    let ghost ls = split(input@, seq!['\n']);
    let mut pairs: Vec<(CleaningAssignment, CleaningAssignment)> = Vec::new();
    let mut i: usize = 0;
    assert(ls.take(0) =~= seq![]);
    assert(pairs_view(pairs@) =~= seq![]);
    while i < lines.len()
        invariant
            i <= lines.len(),
            str_views(lines@) == ls,
            f == (|l| pair_spec(l)),
            ls == split(input@, seq!['\n']),
            collect_all(ls.take(i as int), f) == Ok::<Seq<((nat, nat), (nat, nat))>, PuzzleError>(
                pairs_view(pairs@),
            ),
        decreases lines.len() - i,
    {
        assert(ls.take(i + 1).drop_last() =~= ls.take(i as int));
        assert(lines@[i as int]@ == ls[i as int]);
        match parse_cleaning_pair(lines[i]) {
            Ok(pair) => {
                let ghost old_pairs = pairs@;
                pairs.push(pair);
                assert(pairs_view(pairs@) =~= pairs_view(old_pairs).push(
                    (bounds_of(pair.0), bounds_of(pair.1)),
                ));
            },
            Err(e) => {
                proof {
                    lemma_collect_all_err(ls, f, i + 1);
                }
                return Err(e);
            },
        }
        i = i + 1;
    }
    assert(ls.take(i as int) =~= ls);
    Ok(pairs)
}

/// One of the two ranges holds the other.
pub open spec fn contains_spec(a: (nat, nat), b: (nat, nat)) -> bool {
    (a.0 <= b.0 && a.1 >= b.1) || (a.0 >= b.0 && a.1 <= b.1)
}

/// An end of the first range lies in the second, or one holds the other.
pub open spec fn overlap_spec(a: (nat, nat), b: (nat, nat)) -> bool {
    (a.0 >= b.0 && a.0 <= b.1) || (a.1 >= b.0 && a.1 <= b.1) || contains_spec(a, b)
}

/// Section `x` lies in range `a`.
pub open spec fn in_range(a: (nat, nat), x: nat) -> bool {
    a.0 <= x <= a.1
}

/// For ranges whose start is not past their end, the overlap test above is
/// the usual one: the two ranges share a section.
pub proof fn lemma_overlap_iff_shared_section(a: (nat, nat), b: (nat, nat))
    requires
        a.0 <= a.1,
        b.0 <= b.1,
    ensures
        overlap_spec(a, b) <==> exists|x: nat| #[trigger] in_range(a, x) && in_range(b, x),
{
    if a.0 <= b.1 && b.0 <= a.1 {
        let x = if a.0 >= b.0 { a.0 } else { b.0 };
        assert(in_range(a, x) && in_range(b, x));
    }
}

impl CleaningAssignment {
    pub fn new(start_zone: u32, end_zone: u32) -> (r: CleaningAssignment)
        ensures
            r.start_zone == start_zone,
            r.end_zone == end_zone,
    {
        CleaningAssignment { start_zone, end_zone }
    }

    /// Whether one of the two ranges holds the other.
    pub fn contains_or_contained_in(&self, other: &CleaningAssignment) -> (r: bool)
        ensures
            r == contains_spec(bounds_of(*self), bounds_of(*other)),
    {
        (self.start_zone <= other.start_zone && self.end_zone >= other.end_zone) || (
        self.start_zone >= other.start_zone && self.end_zone <= other.end_zone)
    }

    /// Whether the two ranges overlap.
    pub fn partial_overlap(&self, other: &CleaningAssignment) -> (r: bool)
        ensures
            r == overlap_spec(bounds_of(*self), bounds_of(*other)),
    {
        (self.start_zone >= other.start_zone && self.start_zone <= other.end_zone) || (
        self.end_zone >= other.start_zone && self.end_zone <= other.end_zone)
            || self.contains_or_contained_in(other)
    }
}

/// Whether a pair counts: full containment, or any overlap.
pub open spec fn pair_counts(p: ((nat, nat), (nat, nat)), complete_overlap: bool) -> bool {
    if complete_overlap {
        contains_spec(p.0, p.1)
    } else {
        overlap_spec(p.0, p.1)
    }
}

/// How many pairs count.
pub open spec fn count_pairs(ps: Seq<((nat, nat), (nat, nat))>, complete_overlap: bool) -> nat
    decreases ps.len(),
{
    if ps.len() == 0 {
        0
    } else {
        count_pairs(ps.drop_last(), complete_overlap) + if pair_counts(
            ps.last(),
            complete_overlap,
        ) {
            1nat
        } else {
            0nat
        }
    }
}

/// The number of pairs where one range holds the other (`complete_overlap`),
/// or where the two overlap at all.
pub fn count_overlapping_cleaning_assignments(
    cleaning_assingments_to_compare: &Vec<(CleaningAssignment, CleaningAssignment)>,
    complete_overlap: bool,
) -> (r: u32)
    requires
        cleaning_assingments_to_compare.len() <= u32::MAX,
    ensures
        r == count_pairs(pairs_view(cleaning_assingments_to_compare@), complete_overlap),
{
    let v = cleaning_assingments_to_compare;
    let mut count: u32 = 0;
    let mut i: usize = 0;
    while i < v.len()
        invariant
            i <= v.len() <= u32::MAX,
            count == count_pairs(pairs_view(v@).take(i as int), complete_overlap),
            count <= i,
        decreases v.len() - i,
    {
        assert(pairs_view(v@).take(i + 1).drop_last() =~= pairs_view(v@).take(i as int));
        let counts = if complete_overlap {
            v[i].0.contains_or_contained_in(&v[i].1)
        } else {
            v[i].0.partial_overlap(&v[i].1)
        };
        if counts {
            count = count + 1;
        }
        i = i + 1;
    }
    assert(pairs_view(v@).take(i as int) =~= pairs_view(v@));
    count
}

impl Parse for NewDay4Puzzle {
    type Day = Day4Puzzle;

    fn parse_input(&self, puzzle_input: &str) -> (r: Result<Day4Puzzle, PuzzleError>)
        ensures
            r matches Ok(d) ==> assignments_spec(puzzle_input@) == Ok::<
                Seq<((nat, nat), (nat, nat))>,
                PuzzleError,
            >(pairs_view(d.parsed_input@)),
            r matches Err(e) ==> assignments_spec(puzzle_input@) == Err::<
                Seq<((nat, nat), (nat, nat))>,
                PuzzleError,
            >(e),
    {
        let parsed_input = parse_cleaning_assignments(puzzle_input)?;
        Ok(Day4Puzzle { parsed_input })
    }
}

impl AdventDay for Day4Puzzle {
    fn solve_first_puzzle(&self) -> (r: Result<String, PuzzleError>)
        ensures
            r is Ok <==> self.parsed_input.len() <= u32::MAX,
            r matches Ok(s) ==> s@ == decimal_digits(
                count_pairs(pairs_view(self.parsed_input@), true),
            ),
    {
        if self.parsed_input.len() > u32::MAX as usize {
            return Err(PuzzleError::Overflow);
        }
        let count = count_overlapping_cleaning_assignments(&self.parsed_input, true);
        Ok(u64_to_string(count as u64))
    }

    fn solve_second_puzzle(&self) -> (r: Result<String, PuzzleError>)
        ensures
            r is Ok <==> self.parsed_input.len() <= u32::MAX,
            r matches Ok(s) ==> s@ == decimal_digits(
                count_pairs(pairs_view(self.parsed_input@), false),
            ),
    {
        if self.parsed_input.len() > u32::MAX as usize {
            return Err(PuzzleError::Overflow);
        }
        let count = count_overlapping_cleaning_assignments(&self.parsed_input, false);
        Ok(u64_to_string(count as u64))
    }
}

} // verus!
