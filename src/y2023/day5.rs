//! Seed almanac: numbers and ranges of numbers carried through a chain of
//! piecewise conversion tables, and the lowest location reached.
use vstd::prelude::*;

use crate::advent::{AdventDay, Parse, PuzzleError};
use crate::text::{
    decimal_digits,
    chars_of, collect_all, lemma_collect_all_err, parse_u64, read_unsigned, split, split_by,
    split_char, str_views, u64_to_string,
};

verus! {

/// The parser of this day's puzzle input.
pub struct NewDay5Puzzle {}

/// The seeds, and the conversion tables in the order they apply.
pub struct Day5Puzzle {
    pub seeds: Vec<u64>,
    pub conversion_rules: Vec<Vec<AlmanacConversion>>,
}

/// One line of a table: the `range` numbers from `source_range_start` on
/// map to those from `destination_range_start` on.
#[derive(Debug, PartialEq, Eq, Structural, Clone, Copy)]
pub struct AlmanacConversion {
    pub source_range_start: u64,
    pub destination_range_start: u64,
    pub range: u64,
}

/// Both ends of the rule's ranges fit a `u64`.
pub open spec fn rule_valid(c: AlmanacConversion) -> bool {
    c.source_range_start + c.range <= u64::MAX && c.destination_range_start + c.range <= u64::MAX
}

/// Every rule of a table is valid.
pub open spec fn table_valid(t: Seq<AlmanacConversion>) -> bool {
    forall|i: int| 0 <= i < t.len() ==> rule_valid(#[trigger] t[i])
}

/// A range `(start, length)` whose end fits a `u64`.
pub open spec fn range_valid(r: (u64, u64)) -> bool {
    r.0 + r.1 <= u64::MAX
}

/// The range `(a, len)` lies inside the rule's source range.
pub open spec fn contained_spec(c: AlmanacConversion, x: (u64, u64)) -> bool {
    x.0 >= c.source_range_start && x.0 + x.1 <= c.source_range_start + c.range
}

/// The range `(a, len)` ends before the rule's source range starts, or
/// starts after it ends.
pub open spec fn outside_spec(c: AlmanacConversion, x: (u64, u64)) -> bool {
    (x.0 < c.source_range_start && x.0 + x.1 - 1 < c.source_range_start) || x.0
        > c.source_range_start + c.range - 1
}

/// The rule's source range lies strictly inside the range `(a, len)`.
pub open spec fn containing_spec(c: AlmanacConversion, x: (u64, u64)) -> bool {
    c.source_range_start > x.0 && c.source_range_start + c.range < x.0 + x.1
}

/// For a range that overlaps the rule's source range at one end only: the
/// converted part, and the part still to convert: what lies after the
/// source range when the range starts inside it, else what lies before.
pub open spec fn partial_spec(c: AlmanacConversion, x: (u64, u64)) -> ((int, int), (int, int)) {
    let e = x.0 + x.1 - 1;
    let se = c.source_range_start + c.range - 1;
    if x.0 >= c.source_range_start {
        (
            (c.destination_range_start + (x.0 - c.source_range_start), se - x.0 + 1),
            (se + 1, e - se),
        )
    } else {
        ((c.destination_range_start as int, e - c.source_range_start + 1), (x.0 as int, c.source_range_start - x.0))
    }
}

/// A range as a pair of integers.
pub open spec fn range_ints(x: (u64, u64)) -> (int, int) {
    (x.0 as int, x.1 as int)
}

impl AlmanacConversion {
    pub fn new(source_range_start: u64, destination_range_start: u64, range: u64) -> (r:
        AlmanacConversion)
        ensures
            r.source_range_start == source_range_start,
            r.destination_range_start == destination_range_start,
            r.range == range,
    {
        AlmanacConversion { source_range_start, destination_range_start, range }
    }

    /// Whether `n` lies in the rule's source range.
    pub fn is_number_in_source_range(&self, source_category_number: u64) -> (r: bool)
        ensures
            r == (self.source_range_start <= source_category_number < self.source_range_start
                + self.range),
    {
        source_category_number >= self.source_range_start && source_category_number
            - self.source_range_start < self.range
    }

    /// The number that `n`, in the rule's source range, maps to.
    pub fn convert_source_number_to_dest_number(&self, source_category_number: u64) -> (r: u64)
        requires
            rule_valid(*self),
            self.source_range_start <= source_category_number < self.source_range_start
                + self.range,
        ensures
            r == self.destination_range_start + (source_category_number
                - self.source_range_start),
    {
        let source_difference = source_category_number - self.source_range_start;
        self.destination_range_start + source_difference
    }

    /// Whether the range `(start, length)` lies inside the rule's source range.
    pub fn is_source_category_range_contained_in_source_range(
        &self,
        source_category_range: (u64, u64),
    ) -> (r: bool)
        ensures
            r == contained_spec(*self, source_category_range),
    {
        source_category_range.0 >= self.source_range_start && source_category_range.0 as u128
            + source_category_range.1 as u128 <= self.source_range_start as u128
            + self.range as u128
    }

    /// Whether the range `(start, length)` lies wholly outside the rule's
    /// source range, as the ends compare.
    pub fn is_source_category_range_outside_of_source_range(
        &self,
        source_category_range: (u64, u64),
    ) -> (r: bool)
        ensures
            r == outside_spec(*self, source_category_range),
    {
        let a = source_category_range.0 as i128;
        let len = source_category_range.1 as i128;
        let s = self.source_range_start as i128;
        let r = self.range as i128;
        (a < s && a + len - 1 < s) || a > s + r - 1
    }

    /// Whether the rule's source range lies strictly inside the range
    /// `(start, length)`.
    pub fn is_source_range_contained_in_source_category_range(
        &self,
        source_category_range: (u64, u64),
    ) -> (r: bool)
        ensures
            r == containing_spec(*self, source_category_range),
    {
        self.source_range_start > source_category_range.0 && (self.source_range_start as u128
            + self.range as u128) < source_category_range.0 as u128
            + source_category_range.1 as u128
    }
}

impl AlmanacConversion {
    /// Converts a range that overlaps the source range at one end only:
    /// returns the converted part and the part still to convert.
    pub fn convert_partially_overlapping_source_category_range_to_dest_range(
        &self,
        source_category_range: (u64, u64),
    ) -> (r: ((u64, u64), (u64, u64)))
        requires
            rule_valid(*self),
            range_valid(source_category_range),
            !contained_spec(*self, source_category_range),
            !outside_spec(*self, source_category_range),
            !containing_spec(*self, source_category_range),
        ensures
            (range_ints(r.0), range_ints(r.1)) == partial_spec(*self, source_category_range),
            range_valid(r.0),
            range_valid(r.1),
    {
        let (a, len) = source_category_range;
        let s = self.source_range_start;
        let d = self.destination_range_start;
        let source_range_end = s + self.range - 1;
        if a >= s {
            let source_category_range_end = a + len - 1;
            let start_diff = a - s;
            let converted_start = d + start_diff;
            let new_range = source_range_end - a + 1;
            let overshoot = source_category_range_end - source_range_end;
            return ((converted_start, new_range), (source_range_end + 1, overshoot));
        }
        let source_category_range_end = a + len - 1;
        let new_range = source_category_range_end - s + 1;
        let undershoot = s - a;
        ((d, new_range), (a, undershoot))
    }

    /// The converted range when the rule's source range lies inside the
    /// range being converted: the whole destination range.
    pub fn convert_source_category_range_containing_source_range(&self) -> (r: (u64, u64))
        requires
            rule_valid(*self),
        ensures
            r == (self.destination_range_start, self.range),
            range_valid(r),
    {
        (self.destination_range_start, self.range)
    }
}

/// The number that `n` maps to under a table: by the first rule whose
/// source range holds it, else `n` itself.
pub open spec fn convert_spec(rules: Seq<AlmanacConversion>, n: int) -> int
    decreases rules.len(),
{
    if rules.len() == 0 {
        n
    } else {
        let c = rules[0];
        if c.source_range_start <= n < c.source_range_start + c.range {
            c.destination_range_start + (n - c.source_range_start)
        } else {
            convert_spec(rules.drop_first(), n)
        }
    }
}

/// A number mapped by a table stays a `u64`.
proof fn lemma_convert_bound(rules: Seq<AlmanacConversion>, n: int)
    requires
        table_valid(rules),
        0 <= n <= u64::MAX,
    ensures
        0 <= convert_spec(rules, n) <= u64::MAX,
    decreases rules.len(),
{
    if rules.len() > 0 {
        assert(rule_valid(rules[0]));
        assert(table_valid(rules.drop_first()));
        lemma_convert_bound(rules.drop_first(), n);
    }
}

/// Maps a number through one table.
pub fn convert_between_almanac_categories(
    conversion_rules: &Vec<AlmanacConversion>,
    source_category_number: u64,
) -> (r: u64)
    requires
        table_valid(conversion_rules@),
    ensures
        r == convert_spec(conversion_rules@, source_category_number as int),
{
    let mut i: usize = 0;
    assert(conversion_rules@.skip(0) =~= conversion_rules@);
    while i < conversion_rules.len()
        invariant
            i <= conversion_rules.len(),
            table_valid(conversion_rules@),
            convert_spec(conversion_rules@, source_category_number as int) == convert_spec(
                conversion_rules@.skip(i as int),
                source_category_number as int,
            ),
        decreases conversion_rules.len() - i,
    {
        let conversion_rule = &conversion_rules[i];
        assert(conversion_rules@.skip(i as int)[0] == *conversion_rule);
        assert(conversion_rules@.skip(i as int).drop_first() =~= conversion_rules@.skip(i + 1));
        assert(rule_valid(conversion_rules@[i as int]));
        if conversion_rule.is_number_in_source_range(source_category_number) {
            return conversion_rule.convert_source_number_to_dest_number(source_category_number);
        }
        i = i + 1;
    }
    assert(conversion_rules@.skip(i as int).len() == 0);
    source_category_number
}

/// A number mapped through the first `k` tables.
pub open spec fn location_of(tables: Seq<Seq<AlmanacConversion>>, k: int, n: int) -> int
    decreases k,
{
    if k <= 0 {
        n
    } else {
        convert_spec(tables[k - 1], location_of(tables, k - 1, n))
    }
}

/// Every table of the chain is valid.
pub open spec fn tables_valid(tables: Seq<Vec<AlmanacConversion>>) -> bool {
    forall|i: int| 0 <= i < tables.len() ==> table_valid(#[trigger] tables[i]@)
}

/// The tables as sequences of rules.
pub open spec fn tables_view(tables: Seq<Vec<AlmanacConversion>>) -> Seq<Seq<AlmanacConversion>> {
    tables.map_values(|t: Vec<AlmanacConversion>| t@)
}

/// Maps a seed through every table in turn.
pub fn seed_location(almanac_conversions: &Vec<Vec<AlmanacConversion>>, seed: u64) -> (r: u64)
    requires
        tables_valid(almanac_conversions@),
    ensures
        r == location_of(
            tables_view(almanac_conversions@),
            almanac_conversions.len() as int,
            seed as int,
        ),
{
    let ghost ts = tables_view(almanac_conversions@);
    let mut converted_value = seed;
    let mut k: usize = 0;
    while k < almanac_conversions.len()
        invariant
            k <= almanac_conversions.len(),
            tables_valid(almanac_conversions@),
            ts == tables_view(almanac_conversions@),
            converted_value == location_of(ts, k as int, seed as int),
        decreases almanac_conversions.len() - k,
    {
        assert(table_valid(almanac_conversions@[k as int]@));
        assert(ts[k as int] == almanac_conversions@[k as int]@);
        converted_value = convert_between_almanac_categories(
            &almanac_conversions[k],
            converted_value,
        );
        k = k + 1;
    }
    converted_value
}

/// The lowest location that a seed maps to; `None` when there is no seed.
pub fn find_minimum_location_from_seeds(
    almanac_conversions: &Vec<Vec<AlmanacConversion>>,
    seeds: &Vec<u64>,
) -> (r: Option<u64>)
    requires
        tables_valid(almanac_conversions@),
    ensures
        r is None <==> seeds.len() == 0,
        r matches Some(m) ==> (exists|i: int|
            0 <= i < seeds.len() && m == location_of(
                tables_view(almanac_conversions@),
                almanac_conversions.len() as int,
                #[trigger] seeds[i] as int,
            )),
        r matches Some(m) ==> forall|i: int|
            0 <= i < seeds.len() ==> m <= location_of(
                tables_view(almanac_conversions@),
                almanac_conversions.len() as int,
                #[trigger] seeds[i] as int,
            ),
{
    let ghost ts = tables_view(almanac_conversions@);
    let ghost n = almanac_conversions.len() as int;
    if seeds.len() == 0 {
        return None;
    }
    let mut best = seed_location(almanac_conversions, seeds[0]);
    let mut i: usize = 1;
    while i < seeds.len()
        invariant
            1 <= i <= seeds.len(),
            tables_valid(almanac_conversions@),
            ts == tables_view(almanac_conversions@),
            n == almanac_conversions.len(),
            exists|j: int| 0 <= j < i && best == location_of(ts, n, #[trigger] seeds[j] as int),
            forall|j: int| 0 <= j < i ==> best <= location_of(ts, n, #[trigger] seeds[j] as int),
        decreases seeds.len() - i,
    {
        let l = seed_location(almanac_conversions, seeds[i]);
        if l < best {
            best = l;
        }
        i = i + 1;
    }
    Some(best)
}

/// The seed ranges `(start, length)`: the seeds taken two by two.
pub fn extract_seed_ranges_from_seeds(seeds: &Vec<u64>) -> (r: Option<Vec<(u64, u64)>>)
    ensures
        r is None <==> seeds.len() % 2 == 1,
        r matches Some(v) ==> v.len() * 2 == seeds.len() && forall|k: int|
            0 <= k < v.len() ==> #[trigger] v[k] == (seeds[2 * k], seeds[2 * k + 1]),
{
    if seeds.len() % 2 == 1 {
        return None;
    }
    let mut seed_ranges: Vec<(u64, u64)> = Vec::new();
    let mut index: usize = 0;
    while index < seeds.len()
        invariant
            index <= seeds.len(),
            seeds.len() % 2 == 0,
            index % 2 == 0,
            seed_ranges.len() * 2 == index,
            forall|k: int|
                0 <= k < seed_ranges.len() ==> #[trigger] seed_ranges[k] == (
                    seeds[2 * k],
                    seeds[2 * k + 1],
                ),
        decreases seeds.len() - index,
    {
        seed_ranges.push((seeds[index], seeds[index + 1]));
        index = index + 2;
    }
    Some(seed_ranges)
}

/// Every range of the sequence is valid.
pub open spec fn ranges_valid(v: Seq<(u64, u64)>) -> bool {
    forall|i: int| 0 <= i < v.len() ==> range_valid(#[trigger] v[i])
}

/// The rule's source range holds `y`.
pub open spec fn holds(c: AlmanacConversion, y: int) -> bool {
    c.source_range_start <= y < c.source_range_start + c.range
}

/// Some range of `v` holds `y`.
pub open spec fn covered(v: Seq<(u64, u64)>, y: int) -> bool {
    exists|i: int| 0 <= i < v.len() && #[trigger] v[i].0 <= y < v[i].0 + v[i].1
}

/// `y` is what the table maps some number of the ranges `v` to.
pub open spec fn in_image(rules: Seq<AlmanacConversion>, v: Seq<(u64, u64)>, y: int) -> bool {
    exists|x: int| covered(v, x) && #[trigger] convert_spec(rules, x) == y
}

/// The first rule that holds `y` is rule `j`.
proof fn lemma_convert_first(rules: Seq<AlmanacConversion>, j: int, y: int)
    requires
        0 <= j < rules.len(),
        holds(rules[j], y),
        forall|i: int| 0 <= i < j ==> !holds(#[trigger] rules[i], y),
    ensures
        convert_spec(rules, y) == rules[j].destination_range_start + (y
            - rules[j].source_range_start),
    decreases j,
{
    if j > 0 {
        assert(!holds(rules[0], y));
        assert forall|i: int| 0 <= i < j - 1 implies !holds(#[trigger] rules.drop_first()[i], y) by {
            assert(rules.drop_first()[i] == rules[i + 1]);
            assert(!holds(rules[i + 1], y));
        }
        lemma_convert_first(rules.drop_first(), j - 1, y);
    }
}

/// No rule holds `y`: it maps to itself.
proof fn lemma_convert_none(rules: Seq<AlmanacConversion>, y: int)
    requires
        forall|i: int| 0 <= i < rules.len() ==> !holds(#[trigger] rules[i], y),
    ensures
        convert_spec(rules, y) == y,
    decreases rules.len(),
{
    if rules.len() > 0 {
        assert(!holds(rules[0], y));
        assert forall|i: int| 0 <= i < rules.len() - 1 implies !holds(
            #[trigger] rules.drop_first()[i],
            y,
        ) by {
            assert(rules.drop_first()[i] == rules[i + 1]);
            assert(!holds(rules[i + 1], y));
        }
        lemma_convert_none(rules.drop_first(), y);
    }
}

/// `y` lies in the range `r`.
pub open spec fn in_range(r: (u64, u64), y: int) -> bool {
    r.0 <= y < r.0 + r.1
}

/// Some piece, whose source starts at `srcs[i]` and has the length of
/// `out[i]`, holds `y`.
pub open spec fn pieces_cover(srcs: Seq<int>, out: Seq<(u64, u64)>, y: int) -> bool {
    exists|i: int| 0 <= i < srcs.len() && #[trigger] srcs[i] <= y < srcs[i] + out[i].1
}

/// Adding a piece keeps what the earlier pieces held.
proof fn lemma_cover_push(srcs: Seq<int>, out: Seq<(u64, u64)>, s: int, o: (u64, u64), y: int)
    requires
        srcs.len() == out.len(),
        pieces_cover(srcs, out, y) || s <= y < s + o.1,
    ensures
        pieces_cover(srcs.push(s), out.push(o), y),
{
    if pieces_cover(srcs, out, y) {
        let i = choose|i: int| 0 <= i < srcs.len() && #[trigger] srcs[i] <= y < srcs[i] + out[i].1;
        assert(srcs.push(s)[i] == srcs[i] && out.push(o)[i] == out[i]);
    } else {
        let i = srcs.len() as int;
        assert(srcs.push(s)[i] == s && out.push(o)[i] == o);
    }
}

/// The piece `o` is the image of the numbers from `s` on, number by number.
pub open spec fn piece_maps(rules: Seq<AlmanacConversion>, o: (u64, u64), s: int) -> bool {
    forall|t: int| 0 <= t < o.1 ==> #[trigger] convert_spec(rules, s + t) == o.0 + t
}

/// The longest piece from `x` (below `end`) on which the table acts as one
/// shift, and its image: `(image start, length)`.
fn convert_piece(rules: &Vec<AlmanacConversion>, x: u64, end: u64) -> (r: (u64, u64))
    requires
        table_valid(rules@),
        x < end,
    ensures
        1 <= r.1 <= end - x,
        range_valid(r),
        piece_maps(rules@, r, x as int),
{
    let mut j: usize = 0;
    while j < rules.len() && !(rules[j].source_range_start <= x && x - rules[j].source_range_start
        < rules[j].range)
        invariant
            j <= rules.len(),
            forall|i: int| 0 <= i < j ==> !holds(#[trigger] rules@[i], x as int),
        decreases rules.len() - j,
    {
        j = j + 1;
    }
    let mut e = end;
    if j < rules.len() {
        assert(rule_valid(rules@[j as int]));
        let rule_end = rules[j].source_range_start + rules[j].range;
        if rule_end < e {
            e = rule_end;
        }
    }
    let mut i: usize = 0;
    while i < j
        invariant
            i <= j <= rules.len(),
            x < e <= end,
            j < rules.len() ==> holds(rules@[j as int], x as int) && e <= rules@[j as int].source_range_start
                + rules@[j as int].range,
            forall|k: int| 0 <= k < i ==> rules@[k].source_range_start > x ==> e <= #[trigger] rules@[k].source_range_start,
        decreases j - i,
    {
        if rules[i].source_range_start > x && rules[i].source_range_start < e {
            e = rules[i].source_range_start;
        }
        i = i + 1;
    }
    let len = e - x;
    let ghost rs = rules@;
    if j < rules.len() {
        let c = rules[j];
        assert(rule_valid(c));
        let start = c.destination_range_start + (x - c.source_range_start);
        assert forall|t: int| 0 <= t < len implies #[trigger] convert_spec(rs, x + t) == start + t by {
            assert forall|k: int| 0 <= k < j implies !holds(#[trigger] rs[k], x + t) by {
                assert(!holds(rs[k], x as int));
                if rs[k].source_range_start > x {
                    assert(e <= rs[k].source_range_start);
                }
            }
            lemma_convert_first(rs, j as int, x + t);
        }
        (start, len)
    } else {
        assert forall|t: int| 0 <= t < len implies #[trigger] convert_spec(rs, x + t) == x + t by {
            assert forall|k: int| 0 <= k < rs.len() implies !holds(#[trigger] rs[k], x + t) by {
                assert(!holds(rs[k], x as int));
                if rs[k].source_range_start > x {
                    assert(e <= rs[k].source_range_start);
                }
            }
            lemma_convert_none(rs, x + t);
        }
        (x, len)
    }
}

/// Carries ranges of numbers through one table: the ranges returned hold
/// exactly the numbers that the table maps some number of the given ranges
/// to. Each returned range is non-empty.
pub fn convert_range_between_almanac_categories(
    conversion_rules: &Vec<AlmanacConversion>,
    source_category_ranges: Vec<(u64, u64)>,
) -> (r: Vec<(u64, u64)>)
    requires
        table_valid(conversion_rules@),
        ranges_valid(source_category_ranges@),
    ensures
        ranges_valid(r@),
        forall|i: int| 0 <= i < r.len() ==> #[trigger] r[i].1 >= 1,
        forall|y: int|
            #[trigger] covered(r@, y) <==> in_image(conversion_rules@, source_category_ranges@, y),
{
    let ghost rules = conversion_rules@;
    let ghost input = source_category_ranges@;
    let mut converted_ranges: Vec<(u64, u64)> = Vec::new();
    let ghost mut srcs: Seq<int> = seq![];
    let ghost mut owner: Seq<int> = seq![];
    let mut k: usize = 0;
    while k < source_category_ranges.len()
        invariant
            k <= source_category_ranges.len(),
            rules == conversion_rules@,
            input == source_category_ranges@,
            table_valid(rules),
            ranges_valid(input),
            ranges_valid(converted_ranges@),
            srcs.len() == converted_ranges.len(),
            owner.len() == converted_ranges.len(),
            forall|i: int| 0 <= i < converted_ranges.len() ==> #[trigger] converted_ranges@[i].1 >= 1,
            forall|i: int|
                0 <= i < converted_ranges.len() ==> piece_maps(
                    rules,
                    #[trigger] converted_ranges@[i],
                    srcs[i],
                ),
            forall|i: int|
                0 <= i < converted_ranges.len() ==> 0 <= #[trigger] owner[i] < input.len()
                    && input[owner[i]].0 <= srcs[i] && srcs[i] + converted_ranges@[i].1
                    <= input[owner[i]].0 + input[owner[i]].1,
            forall|q: int, y: int|
                0 <= q < k && #[trigger] in_range(input[q], y) ==> pieces_cover(
                    srcs,
                    converted_ranges@,
                    y,
                ),
        decreases source_category_ranges.len() - k,
    {
        let (a, len) = source_category_ranges[k];
        assert(range_valid(input[k as int]));
        let end = a + len;
        let mut x = a;
        while x < end
            invariant
                a <= x <= end == a + len,
                (a, len) == input[k as int],
                k < input.len(),
                rules == conversion_rules@,
                input == source_category_ranges@,
                table_valid(rules),
                ranges_valid(converted_ranges@),
                srcs.len() == converted_ranges.len(),
                owner.len() == converted_ranges.len(),
                forall|i: int| 0 <= i < converted_ranges.len() ==> #[trigger] converted_ranges@[i].1 >= 1,
                forall|i: int|
                    0 <= i < converted_ranges.len() ==> piece_maps(
                        rules,
                        #[trigger] converted_ranges@[i],
                        srcs[i],
                    ),
                forall|i: int|
                    0 <= i < converted_ranges.len() ==> 0 <= #[trigger] owner[i] < input.len()
                        && input[owner[i]].0 <= srcs[i] && srcs[i] + converted_ranges@[i].1
                        <= input[owner[i]].0 + input[owner[i]].1,
                forall|q: int, y: int|
                    0 <= q < k && #[trigger] in_range(input[q], y) ==> pieces_cover(
                        srcs,
                        converted_ranges@,
                        y,
                    ),
                forall|y: int| a <= y < x ==> #[trigger] pieces_cover(srcs, converted_ranges@, y),
            decreases end - x,
        {
            let piece = convert_piece(conversion_rules, x, end);
            let ghost old_srcs = srcs;
            let ghost old_ranges = converted_ranges@;
            converted_ranges.push(piece);
            proof {
                srcs = srcs.push(x as int);
                owner = owner.push(k as int);
                assert forall|q: int, y: int|
                    0 <= q < k && #[trigger] in_range(input[q], y) implies pieces_cover(
                        srcs,
                        converted_ranges@,
                        y,
                    ) by {
                    lemma_cover_push(old_srcs, old_ranges, x as int, piece, y);
                }
                assert forall|y: int| a <= y < x + piece.1 implies #[trigger] pieces_cover(
                    srcs,
                    converted_ranges@,
                    y,
                ) by {
                    lemma_cover_push(old_srcs, old_ranges, x as int, piece, y);
                }
                assert forall|i: int| 0 <= i < converted_ranges.len() implies piece_maps(
                    rules,
                    #[trigger] converted_ranges@[i],
                    srcs[i],
                ) by {
                    if i < old_ranges.len() {
                        assert(converted_ranges@[i] == old_ranges[i] && srcs[i] == old_srcs[i]);
                    }
                }
            }
            x = x + piece.1;
        }
        assert forall|q: int, y: int|
            0 <= q < k + 1 && #[trigger] in_range(input[q], y) implies pieces_cover(
                srcs,
                converted_ranges@,
                y,
            ) by {
            if q == k {
                assert(a <= y < x);
            }
        }
        k = k + 1;
    }
    proof {
        let out = converted_ranges@;
        assert forall|y: int| #[trigger] covered(out, y) <==> in_image(rules, input, y) by {
            if covered(out, y) {
                let i = choose|i: int| 0 <= i < out.len() && #[trigger] out[i].0 <= y < out[i].0 + out[i].1;
                let t = y - out[i].0;
                assert(piece_maps(rules, out[i], srcs[i]));
                assert(convert_spec(rules, srcs[i] + t) == out[i].0 + t);
                let q = owner[i];
                assert(input[q].0 <= srcs[i] + t < input[q].0 + input[q].1);
                assert(covered(input, srcs[i] + t));
            }
            if in_image(rules, input, y) {
                let x = choose|x: int| covered(input, x) && #[trigger] convert_spec(rules, x) == y;
                let q = choose|q: int| 0 <= q < input.len() && #[trigger] input[q].0 <= x < input[q].0 + input[q].1;
                assert(in_range(input[q], x));
                assert(pieces_cover(srcs, out, x));
                let i = choose|i: int| 0 <= i < srcs.len() && #[trigger] srcs[i] <= x < srcs[i] + out[i].1;
                let t = x - srcs[i];
                assert(piece_maps(rules, out[i], srcs[i]));
                assert(convert_spec(rules, srcs[i] + t) == out[i].0 + t);
                assert(out[i].0 <= y < out[i].0 + out[i].1);
            }
        }
    }
    converted_ranges
}

/// `y` is where the tables take some number of the seed range `r`.
pub open spec fn reached_from(tables: Seq<Seq<AlmanacConversion>>, k: int, r: (u64, u64), y: int) -> bool {
    exists|x: int| r.0 <= x < r.0 + r.1 && #[trigger] location_of(tables, k, x) == y
}

/// Carries one seed range through every table in turn: the ranges returned
/// hold exactly the locations of the numbers of the seed range.
pub fn range_locations(almanac_conversions: &Vec<Vec<AlmanacConversion>>, seed_range: (u64, u64)) -> (r:
    Vec<(u64, u64)>)
    requires
        tables_valid(almanac_conversions@),
        range_valid(seed_range),
    ensures
        ranges_valid(r@),
        forall|y: int|
            #[trigger] covered(r@, y) <==> reached_from(
                tables_view(almanac_conversions@),
                almanac_conversions.len() as int,
                seed_range,
                y,
            ),
{
    let ghost ts = tables_view(almanac_conversions@);
    let mut converted_ranges = vec![seed_range];
    proof {
        assert forall|y: int| #[trigger] covered(converted_ranges@, y) <==> reached_from(ts, 0, seed_range, y) by {
            if covered(converted_ranges@, y) {
                let i = choose|i: int|
                    0 <= i < converted_ranges@.len() && #[trigger] converted_ranges@[i].0 <= y
                        < converted_ranges@[i].0 + converted_ranges@[i].1;
                assert(location_of(ts, 0, y) == y);
            }
            if reached_from(ts, 0, seed_range, y) {
                let x = choose|x: int|
                    seed_range.0 <= x < seed_range.0 + seed_range.1 && #[trigger] location_of(ts, 0, x)
                        == y;
                assert(converted_ranges@[0] == seed_range);
            }
        }
    }
    let mut k: usize = 0;
    while k < almanac_conversions.len()
        invariant
            k <= almanac_conversions.len(),
            tables_valid(almanac_conversions@),
            ts == tables_view(almanac_conversions@),
            ranges_valid(converted_ranges@),
            forall|y: int| #[trigger] covered(converted_ranges@, y) <==> reached_from(ts, k as int, seed_range, y),
        decreases almanac_conversions.len() - k,
    {
        assert(table_valid(almanac_conversions@[k as int]@));
        assert(ts[k as int] == almanac_conversions@[k as int]@);
        let ghost prev = converted_ranges@;
        let next = convert_range_between_almanac_categories(&almanac_conversions[k], converted_ranges);
        proof {
            assert forall|y: int| #[trigger] covered(next@, y) <==> reached_from(ts, k + 1, seed_range, y) by {
                if covered(next@, y) {
                    assert(in_image(ts[k as int], prev, y));
                    let z = choose|z: int| covered(prev, z) && #[trigger] convert_spec(ts[k as int], z) == y;
                    assert(reached_from(ts, k as int, seed_range, z));
                    let x = choose|x: int|
                        seed_range.0 <= x < seed_range.0 + seed_range.1 && #[trigger] location_of(ts, k as int, x)
                            == z;
                    assert(location_of(ts, k + 1, x) == y);
                }
                if reached_from(ts, k + 1, seed_range, y) {
                    let x = choose|x: int|
                        seed_range.0 <= x < seed_range.0 + seed_range.1 && #[trigger] location_of(ts, k + 1, x)
                            == y;
                    let z = location_of(ts, k as int, x);
                    assert(reached_from(ts, k as int, seed_range, z));
                    assert(covered(prev, z));
                    assert(convert_spec(ts[k as int], z) == y);
                    assert(in_image(ts[k as int], prev, y));
                }
            }
        }
        converted_ranges = next;
        k = k + 1;
    }
    converted_ranges
}

/// `y` is the location of some number of some seed range.
pub open spec fn seed_location_reached(
    tables: Seq<Seq<AlmanacConversion>>,
    seeds: Seq<u64>,
    count: int,
    y: int,
) -> bool {
    exists|k: int|
        0 <= k < count && #[trigger] reached_from(
            tables,
            tables.len() as int,
            (seeds[2 * k], seeds[2 * k + 1]),
            y,
        )
}

/// `y` is reached from the first `i` seed ranges, or held by `v`.
pub open spec fn seen_so_far(
    tables: Seq<Seq<AlmanacConversion>>,
    seeds: Seq<u64>,
    i: int,
    v: Seq<(u64, u64)>,
    y: int,
) -> bool {
    seed_location_reached(tables, seeds, i, y) || covered(v, y)
}

/// The lowest location that any number of the seed ranges reaches: the
/// seeds taken two by two as `(start, length)`. `None` when the seeds do not
/// pair up, a seed range's end does not fit a `u64`, or the ranges hold no
/// number.
pub fn find_minimum_location_from_seed_ranges(
    almanac_conversions: &Vec<Vec<AlmanacConversion>>,
    seeds: &Vec<u64>,
) -> (r: Option<u64>)
    requires
        tables_valid(almanac_conversions@),
    ensures
        r matches Some(m) ==> seeds.len() % 2 == 0 && seed_location_reached(
            tables_view(almanac_conversions@),
            seeds@,
            (seeds.len() / 2) as int,
            m as int,
        ),
        r matches Some(m) ==> forall|y: int|
            #[trigger] seed_location_reached(tables_view(almanac_conversions@), seeds@, (seeds.len() / 2) as int, y)
                ==> m <= y,
        r is None ==> seeds.len() % 2 == 1 || (exists|k: int|
            0 <= k < seeds.len() / 2 && #[trigger] seeds[2 * k] + seeds[2 * k + 1] > u64::MAX)
            || forall|y: int|
            !#[trigger] seed_location_reached(tables_view(almanac_conversions@), seeds@, (seeds.len() / 2) as int, y),
{
    let ghost ts = tables_view(almanac_conversions@);
    let ghost n = almanac_conversions.len() as int;
    let initial_seed_ranges = match extract_seed_ranges_from_seeds(seeds) {
        Some(v) => v,
        None => return None,
    };
    assert(ts.len() == n);
    let mut best: Option<u64> = None;
    let mut i: usize = 0;
    while i < initial_seed_ranges.len()
        invariant
            i <= initial_seed_ranges.len(),
            initial_seed_ranges.len() * 2 == seeds.len(),
            forall|k: int|
                0 <= k < initial_seed_ranges.len() ==> #[trigger] initial_seed_ranges[k] == (
                    seeds[2 * k],
                    seeds[2 * k + 1],
                ),
            tables_valid(almanac_conversions@),
            ts == tables_view(almanac_conversions@),
            n == almanac_conversions.len(),
            ts.len() == n,
            best is None ==> forall|y: int| !#[trigger] seed_location_reached(ts, seeds@, i as int, y),
            best matches Some(m) ==> seed_location_reached(ts, seeds@, i as int, m as int),
            best matches Some(m) ==> forall|y: int|
                #[trigger] seed_location_reached(ts, seeds@, i as int, y) ==> m <= y,
        decreases initial_seed_ranges.len() - i,
    {
        let (a, len) = initial_seed_ranges[i];
        assert(initial_seed_ranges[i as int] == (seeds[2 * i as int], seeds[2 * i as int + 1]));
        if a > u64::MAX - len {
            assert(seeds[2 * i as int] + seeds[2 * i as int + 1] > u64::MAX);
            return None;
        }
        let ranges = range_locations(almanac_conversions, (a, len));
        let ghost old_best = best;
        let mut j: usize = 0;
        while j < ranges.len()
            invariant
                j <= ranges.len(),
                old_best is None ==> forall|y: int| !#[trigger] seed_location_reached(ts, seeds@, i as int, y),
                old_best matches Some(m) ==> seed_location_reached(ts, seeds@, i as int, m as int)
                    && forall|y: int| #[trigger] seed_location_reached(ts, seeds@, i as int, y) ==> m <= y,
                best is None ==> old_best is None && forall|y: int| !#[trigger] covered(ranges@.take(j as int), y),
                best matches Some(m) ==> (seed_location_reached(ts, seeds@, i as int, m as int)
                    || covered(ranges@, m as int)),
                best matches Some(m) ==> forall|y: int|
                    #[trigger] seen_so_far(ts, seeds@, i as int, ranges@.take(j as int), y) ==> m <= y,
            decreases ranges.len() - j,
        {
            let s = ranges[j].0;
            if ranges[j].1 == 0 {
                proof {
                    assert forall|y: int| #[trigger] covered(ranges@.take(j + 1), y) implies covered(
                        ranges@.take(j as int),
                        y,
                    ) by {
                        let q = choose|q: int|
                            0 <= q < ranges@.take(j + 1).len() && #[trigger] ranges@.take(j + 1)[q].0
                                <= y < ranges@.take(j + 1)[q].0 + ranges@.take(j + 1)[q].1;
                        assert(q < j);
                        assert(ranges@.take(j as int)[q] == ranges@.take(j + 1)[q]);
                    }
                    if best is Some {
                        let m = best->0;
                        assert forall|y: int|
                            #[trigger] seen_so_far(ts, seeds@, i as int, ranges@.take(j + 1), y)
                                implies m <= y by {
                            if covered(ranges@.take(j + 1), y) {
                                assert(covered(ranges@.take(j as int), y));
                            }
                            assert(seen_so_far(ts, seeds@, i as int, ranges@.take(j as int), y));
                        }
                    }
                }
                j = j + 1;
                continue;
            }
            proof {
                assert(covered(ranges@, s as int)) by {
                    assert(ranges@[j as int].0 <= s < ranges@[j as int].0 + ranges@[j as int].1);
                }
                assert forall|y: int| #[trigger] covered(ranges@.take(j + 1), y) implies covered(
                    ranges@.take(j as int),
                    y,
                ) || s <= y by {
                    let q = choose|q: int|
                        0 <= q < ranges@.take(j + 1).len() && #[trigger] ranges@.take(j + 1)[q].0 <= y
                            < ranges@.take(j + 1)[q].0 + ranges@.take(j + 1)[q].1;
                    if q < j {
                        assert(ranges@.take(j as int)[q] == ranges@.take(j + 1)[q]);
                    }
                }
            }
            let ghost prev_best = best;
            match best {
                Some(m) => {
                    if s < m {
                        best = Some(s);
                    }
                },
                None => {
                    best = Some(s);
                },
            }
            proof {
                let m = best->0;
                assert forall|y: int|
                    #[trigger] seen_so_far(ts, seeds@, i as int, ranges@.take(j + 1), y) implies m
                        <= y by {
                    if covered(ranges@.take(j + 1), y) {
                        assert(covered(ranges@.take(j as int), y) || s <= y);
                    }
                    if prev_best is Some {
                        if seen_so_far(ts, seeds@, i as int, ranges@.take(j as int), y) {
                            assert(prev_best->0 <= y);
                        }
                    } else {
                        assert(!seed_location_reached(ts, seeds@, i as int, y));
                        assert(!covered(ranges@.take(j as int), y));
                    }
                }
            }
            j = j + 1;
        }
        proof {
            assert(ranges@.take(j as int) =~= ranges@);
            assert forall|y: int| #[trigger] seed_location_reached(ts, seeds@, i + 1, y) <==> (
            seed_location_reached(ts, seeds@, i as int, y) || covered(ranges@, y)) by {
                if seed_location_reached(ts, seeds@, i + 1, y) {
                    let k = choose|k: int|
                        0 <= k < i + 1 && #[trigger] reached_from(
                            ts,
                            ts.len() as int,
                            (seeds@[2 * k], seeds@[2 * k + 1]),
                            y,
                        );
                    if k == i {
                        assert(reached_from(ts, n, (a, len), y));
                    }
                }
                if covered(ranges@, y) {
                    assert(reached_from(ts, n, (a, len), y));
                    assert(reached_from(ts, ts.len() as int, (seeds@[2 * i as int], seeds@[2 * i as int + 1]), y));
                }
            }
            if best is Some {
                let m = best->0;
                assert(seed_location_reached(ts, seeds@, i as int, m as int) || covered(ranges@, m as int));
                assert forall|y: int| #[trigger] seed_location_reached(ts, seeds@, i + 1, y) implies m
                    <= y by {
                    assert(seed_location_reached(ts, seeds@, i as int, y) || covered(ranges@, y));
                    if covered(ranges@, y) {
                        assert(covered(ranges@.take(j as int), y));
                    }
                    assert(seen_so_far(ts, seeds@, i as int, ranges@.take(j as int), y));
                }
            } else {
                assert forall|y: int| !#[trigger] seed_location_reached(ts, seeds@, i + 1, y) by {
                    if seed_location_reached(ts, seeds@, i + 1, y) {
                        assert(seed_location_reached(ts, seeds@, i as int, y) || covered(ranges@, y));
                        if covered(ranges@, y) {
                            assert(covered(ranges@.take(j as int), y));
                        }
                    }
                }
            }
        }
        i = i + 1;
    }
    best
}

/// What a line of fields reads as: each field a `u64`.
pub open spec fn numbers_spec(pieces: Seq<Seq<char>>) -> Result<Seq<nat>, PuzzleError> {
    collect_all(
        pieces,
        |w|
            match read_unsigned(w, u64::MAX as nat + 1) {
                Some(v) => Ok(v),
                None => Err(PuzzleError::InvalidNumber),
            },
    )
}

/// Reads space-separated `u64` values.
pub fn parse_numbers(s: &str) -> (r: Result<Vec<u64>, PuzzleError>)
    ensures
        r matches Ok(v) ==> numbers_spec(split(s@, seq![' '])) == Ok::<Seq<nat>, PuzzleError>(
            v@.map_values(|x: u64| x as nat),
        ),
        r matches Err(e) ==> numbers_spec(split(s@, seq![' '])) == Err::<Seq<nat>, PuzzleError>(e),
{
    let words = split_char(s, ' ');
    let ghost ws = split(s@, seq![' ']);
    let ghost f = |w|
        match read_unsigned(w, u64::MAX as nat + 1) {
            Some(v) => Ok(v),
            None => Err(PuzzleError::InvalidNumber),
        };
    let mut values: Vec<u64> = Vec::new();
    let mut i: usize = 0;
    assert(ws.take(0) =~= seq![]);
    assert(values@.map_values(|x: u64| x as nat) =~= seq![]);
    while i < words.len()
        invariant
            i <= words.len(),
            str_views(words@) == ws,
            ws == split(s@, seq![' ']),
            f == (|w|
                match read_unsigned(w, u64::MAX as nat + 1) {
                    Some(v) => Ok(v),
                    None => Err(PuzzleError::InvalidNumber),
                }),
            collect_all(ws.take(i as int), f) == Ok::<Seq<nat>, PuzzleError>(
                values@.map_values(|x: u64| x as nat),
            ),
        decreases words.len() - i,
    {
        assert(ws.take(i + 1).drop_last() =~= ws.take(i as int));
        assert(words@[i as int]@ == ws[i as int]);
        match parse_u64(&chars_of(words[i])) {
            Some(v) => {
                let ghost old_v = values@;
                values.push(v);
                assert(values@.map_values(|x: u64| x as nat) =~= old_v.map_values(
                    |x: u64| x as nat,
                ).push(v as nat));
            },
            None => {
                proof {
                    lemma_collect_all_err(ws, f, i + 1);
                }
                return Err(PuzzleError::InvalidNumber);
            },
        }
        i = i + 1;
    }
    assert(ws.take(i as int) =~= ws);
    Ok(values)
}

/// Reads `seeds: a b c`.
pub fn parse_seeds_string(seeds_string: &str) -> (r: Result<Vec<u64>, PuzzleError>)
    ensures
        split(seeds_string@, seq![':', ' ']).len() < 2 ==> r == Err::<Vec<u64>, PuzzleError>(
            PuzzleError::MissingField,
        ),
        split(seeds_string@, seq![':', ' ']).len() >= 2 ==> (r matches Ok(v) ==> numbers_spec(
            split(split(seeds_string@, seq![':', ' '])[1], seq![' ']),
        ) == Ok::<Seq<nat>, PuzzleError>(v@.map_values(|x: u64| x as nat))),
        split(seeds_string@, seq![':', ' ']).len() >= 2 ==> (r matches Err(e) ==> numbers_spec(
            split(split(seeds_string@, seq![':', ' '])[1], seq![' ']),
        ) == Err::<Seq<nat>, PuzzleError>(e)),
{
    let sep = vec![':', ' '];
    assert(sep@ =~= seq![':', ' ']);
    let parts = split_by(seeds_string, &sep);
    if parts.len() < 2 {
        return Err(PuzzleError::MissingField);
    }
    assert(parts@[1]@ == str_views(parts@)[1]);
    parse_numbers(parts[1])
}

/// A rule line `destination source length`.
pub open spec fn rule_line_spec(line: Seq<char>) -> Result<AlmanacConversion, PuzzleError> {
    let w = split(line, seq![' ']);
    if w.len() < 3 {
        Err(PuzzleError::MissingField)
    } else {
        match (
            read_unsigned(w[0], u64::MAX as nat + 1),
            read_unsigned(w[1], u64::MAX as nat + 1),
            read_unsigned(w[2], u64::MAX as nat + 1),
        ) {
            (Some(d), Some(s), Some(r)) => Ok(
                AlmanacConversion {
                    source_range_start: s as u64,
                    destination_range_start: d as u64,
                    range: r as u64,
                },
            ),
            _ => Err(PuzzleError::InvalidNumber),
        }
    }
}

/// Reads a rule line `destination source length`.
pub fn parse_rule_line(line: &str) -> (r: Result<AlmanacConversion, PuzzleError>)
    ensures
        r == rule_line_spec(line@),
{
    let w = split_char(line, ' ');
    if w.len() < 3 {
        return Err(PuzzleError::MissingField);
    }
    assert(w@[0]@ == str_views(w@)[0]);
    assert(w@[1]@ == str_views(w@)[1]);
    assert(w@[2]@ == str_views(w@)[2]);
    let d = parse_u64(&chars_of(w[0]));
    let s = parse_u64(&chars_of(w[1]));
    let r = parse_u64(&chars_of(w[2]));
    match (d, s, r) {
        (Some(d), Some(s), Some(r)) => Ok(AlmanacConversion::new(s, d, r)),
        _ => Err(PuzzleError::InvalidNumber),
    }
}

/// What a table section reads as: its lines after the header, one rule each.
pub open spec fn table_spec(section: Seq<char>) -> Result<Seq<AlmanacConversion>, PuzzleError> {
    collect_all(split(section, seq!['\n']).drop_first(), |l| rule_line_spec(l))
}

/// Reads a table: a header line, then one rule per line.
pub fn parse_almanac_conversion_string(almanac_conversion_string: &str) -> (r: Result<
    Vec<AlmanacConversion>,
    PuzzleError,
>)
    ensures
        r matches Ok(v) ==> table_spec(almanac_conversion_string@) == Ok::<
            Seq<AlmanacConversion>,
            PuzzleError,
        >(v@),
        r matches Err(e) ==> table_spec(almanac_conversion_string@) == Err::<
            Seq<AlmanacConversion>,
            PuzzleError,
        >(e),
{
    let lines = split_char(almanac_conversion_string, '\n');
    let ghost ls = split(almanac_conversion_string@, seq!['\n']).drop_first();
    let ghost f = |l| rule_line_spec(l);
    let mut rules: Vec<AlmanacConversion> = Vec::new();
    let mut i: usize = 1;
    assert(ls.take(0) =~= seq![]);
    while i < lines.len()
        invariant
            1 <= i <= lines.len(),
            str_views(lines@).drop_first() == ls,
            ls == split(almanac_conversion_string@, seq!['\n']).drop_first(),
            f == (|l| rule_line_spec(l)),
            collect_all(ls.take(i - 1), f) == Ok::<Seq<AlmanacConversion>, PuzzleError>(rules@),
        decreases lines.len() - i,
    {
        assert(ls.take(i as int).drop_last() =~= ls.take(i - 1));
        assert(lines@[i as int]@ == ls[i - 1]);
        match parse_rule_line(lines[i]) {
            Ok(rule) => {
                rules.push(rule);
            },
            Err(e) => {
                proof {
                    lemma_collect_all_err(ls, f, i as int);
                }
                return Err(e);
            },
        }
        i = i + 1;
    }
    assert(ls.take(i - 1) =~= ls);
    Ok(rules)
}

/// Reads the almanac: the seeds, then the tables, separated by blank lines.
pub fn split_input_into_sections(input: &str) -> (r: Result<
    (Vec<u64>, Vec<Vec<AlmanacConversion>>),
    PuzzleError,
>)
    ensures
        r matches Ok(p) ==> collect_all(
            split(input@, seq!['\n', '\n']).drop_first(),
            |s| table_spec(s),
        ) == Ok::<Seq<Seq<AlmanacConversion>>, PuzzleError>(tables_view(p.1@)),
        r matches Ok(p) ==> parse_seeds_spec_holds(split(input@, seq!['\n', '\n'])[0], p.0@),
        r is Err ==> split(split(input@, seq!['\n', '\n'])[0], seq![':', ' ']).len() < 2
            || numbers_spec(
            split(split(split(input@, seq!['\n', '\n'])[0], seq![':', ' '])[1], seq![' ']),
        ) is Err || collect_all(split(input@, seq!['\n', '\n']).drop_first(), |s| table_spec(s))
            is Err,
{
    let sep = vec!['\n', '\n'];
    assert(sep@ =~= seq!['\n', '\n']);
    let sections = split_by(input, &sep);
    assert(sections@[0]@ == str_views(sections@)[0]);
    let seeds = parse_seeds_string(sections[0])?;
    let ghost ss = split(input@, seq!['\n', '\n']).drop_first();
    let ghost f = |s| table_spec(s);
    let mut conversion_rules: Vec<Vec<AlmanacConversion>> = Vec::new();
    let mut i: usize = 1;
    assert(ss.take(0) =~= seq![]);
    assert(tables_view(conversion_rules@) =~= seq![]);
    while i < sections.len()
        invariant
            1 <= i <= sections.len(),
            str_views(sections@).drop_first() == ss,
            ss == split(input@, seq!['\n', '\n']).drop_first(),
            f == (|s| table_spec(s)),
            collect_all(ss.take(i - 1), f) == Ok::<Seq<Seq<AlmanacConversion>>, PuzzleError>(
                tables_view(conversion_rules@),
            ),
        decreases sections.len() - i,
    {
        assert(ss.take(i as int).drop_last() =~= ss.take(i - 1));
        assert(sections@[i as int]@ == ss[i - 1]);
        match parse_almanac_conversion_string(sections[i]) {
            Ok(t) => {
                let ghost old_v = conversion_rules@;
                conversion_rules.push(t);
                assert(tables_view(conversion_rules@) =~= tables_view(old_v).push(t@));
            },
            Err(e) => {
                proof {
                    lemma_collect_all_err(ss, f, i as int);
                }
                return Err(e);
            },
        }
        i = i + 1;
    }
    assert(ss.take(i - 1) =~= ss);
    Ok((seeds, conversion_rules))
}

/// `seeds` is what the seeds line reads as.
pub open spec fn parse_seeds_spec_holds(line: Seq<char>, seeds: Seq<u64>) -> bool {
    split(line, seq![':', ' ']).len() >= 2 && numbers_spec(
        split(split(line, seq![':', ' '])[1], seq![' ']),
    ) == Ok::<Seq<nat>, PuzzleError>(seeds.map_values(|x: u64| x as nat))
}

/// Whether every rule of every table has ranges whose ends fit a `u64`.
pub fn check_tables(tables: &Vec<Vec<AlmanacConversion>>) -> (r: bool)
    ensures
        r == tables_valid(tables@),
{
    let mut k: usize = 0;
    while k < tables.len()
        invariant
            k <= tables.len(),
            forall|i: int| 0 <= i < k ==> table_valid(#[trigger] tables@[i]@),
        decreases tables.len() - k,
    {
        let t = &tables[k];
        let mut j: usize = 0;
        while j < t.len()
            invariant
                j <= t.len(),
                *t == tables@[k as int],
                k < tables.len(),
                forall|i: int| 0 <= i < j ==> rule_valid(#[trigger] t@[i]),
            decreases t.len() - j,
        {
            let c = t[j];
            if c.source_range_start > u64::MAX - c.range || c.destination_range_start > u64::MAX
                - c.range {
                assert(!rule_valid(t@[j as int]));
                assert(!table_valid(tables@[k as int]@));
                return false;
            }
            j = j + 1;
        }
        k = k + 1;
    }
    true
}

impl Parse for NewDay5Puzzle {
    type Day = Day5Puzzle;

    fn parse_input(&self, puzzle_input: &str) -> (r: Result<Day5Puzzle, PuzzleError>)
        ensures
            r matches Ok(d) ==> collect_all(
                split(puzzle_input@, seq!['\n', '\n']).drop_first(),
                |s| table_spec(s),
            ) == Ok::<Seq<Seq<AlmanacConversion>>, PuzzleError>(tables_view(d.conversion_rules@)),
            r matches Ok(d) ==> parse_seeds_spec_holds(
                split(puzzle_input@, seq!['\n', '\n'])[0],
                d.seeds@,
            ),
            r is Err ==> split(split(puzzle_input@, seq!['\n', '\n'])[0], seq![':', ' ']).len() < 2
                || numbers_spec(
                split(split(split(puzzle_input@, seq!['\n', '\n'])[0], seq![':', ' '])[1], seq![' ']),
            ) is Err || collect_all(
                split(puzzle_input@, seq!['\n', '\n']).drop_first(),
                |s| table_spec(s),
            ) is Err,
    {
        let (seeds, conversion_rules) = split_input_into_sections(puzzle_input)?;
        Ok(Day5Puzzle { seeds, conversion_rules })
    }
}

impl AdventDay for Day5Puzzle {
    fn solve_first_puzzle(&self) -> (r: Result<String, PuzzleError>)
        ensures
            r is Ok <==> tables_valid(self.conversion_rules@) && self.seeds.len() > 0,
            r matches Ok(s) ==> exists|m: u64|
                #![trigger decimal_digits(m as nat)]
                s@ == decimal_digits(m as nat) && (exists|i: int|
                    0 <= i < self.seeds.len() && m == location_of(tables_view(self.conversion_rules@), self.conversion_rules.len() as int, #[trigger] self.seeds[i] as int))
                    && forall|i: int|
                    0 <= i < self.seeds.len() ==> m <= location_of(tables_view(self.conversion_rules@), self.conversion_rules.len() as int, #[trigger] self.seeds[i] as int),
    {
        if !check_tables(&self.conversion_rules) {
            return Err(PuzzleError::Overflow);
        }
        match find_minimum_location_from_seeds(&self.conversion_rules, &self.seeds) {
            Some(m) => Ok(u64_to_string(m)),
            None => Err(PuzzleError::NoAnswer),
        }
    }

    fn solve_second_puzzle(&self) -> (r: Result<String, PuzzleError>)
        ensures
            r matches Ok(s) ==> exists|m: u64|
                #![trigger decimal_digits(m as nat)]
                s@ == decimal_digits(m as nat) && seed_location_reached(
                    tables_view(self.conversion_rules@),
                    self.seeds@,
                    (self.seeds.len() / 2) as int,
                    m as int,
                ) && forall|y: int|
                    #[trigger] seed_location_reached(tables_view(self.conversion_rules@), self.seeds@, (self.seeds.len() / 2) as int, y)
                        ==> m <= y,
            r is Err ==> !tables_valid(self.conversion_rules@) || self.seeds.len() % 2 == 1 || (exists|k: int|
                0 <= k < self.seeds.len() / 2 && #[trigger] self.seeds[2 * k] + self.seeds[2 * k + 1]
                    > u64::MAX) || forall|y: int|
                !#[trigger] seed_location_reached(tables_view(self.conversion_rules@), self.seeds@, (self.seeds.len() / 2) as int, y),
    {
        if !check_tables(&self.conversion_rules) {
            return Err(PuzzleError::Overflow);
        }
        match find_minimum_location_from_seed_ranges(&self.conversion_rules, &self.seeds) {
            Some(m) => Ok(u64_to_string(m)),
            None => Err(PuzzleError::NoAnswer),
        }
    }
}

} // verus!
