//! Gear ratios: the part numbers next to symbols in an engine schematic, and
//! the gears that touch exactly two of them.
use vstd::prelude::*;

use crate::advent::{AdventDay, Parse, PuzzleError};
use crate::text::{
    decimal_digits,
    chars_of, is_single, parse_u32, push_char, read_unsigned, split, split_char, str_views,
    strings_view, u64_to_string,
};

verus! {

/// The parser of this day's puzzle input.
pub struct NewDay3Puzzle {}

/// The schematic: one row per line, one cell per character.
pub struct Day3Puzzle {
    pub parsed_input: Vec<Vec<String>>,
}

/// A row of cells as character sequences.
pub open spec fn row_view(r: Vec<String>) -> Seq<Seq<char>> {
    strings_view(r@)
}

/// The schematic as rows of cells.
pub open spec fn grid_view(g: Seq<Vec<String>>) -> Seq<Seq<Seq<char>>> {
    g.map_values(|r: Vec<String>| row_view(r))
}

/// A cell reads as a `u32`.
pub open spec fn is_number(cell: Seq<char>) -> bool {
    read_unsigned(cell, u32::MAX as nat + 1) is Some
}

/// Whether a cell reads as a `u32`.
fn cell_is_number(cell: &String) -> (r: bool)
    ensures
        r == is_number(cell@),
{
    parse_u32(&chars_of(cell.as_str())).is_some()
}

/// The start of the run of number cells that ends just before `i`.
pub open spec fn left_run(cells: Seq<Seq<char>>, i: int) -> int
    decreases i,
{
    if i <= 0 || i > cells.len() || !is_number(cells[i - 1]) {
        i
    } else {
        left_run(cells, i - 1)
    }
}

/// The cells from `i - 1` down to `k`, written one after the other.
pub open spec fn cells_down(cells: Seq<Seq<char>>, i: int, k: int) -> Seq<char>
    decreases i - k,
{
    if i <= k || i <= 0 || i > cells.len() {
        seq![]
    } else {
        cells[i - 1] + cells_down(cells, i - 1, k)
    }
}

/// The end (excluded) of the run of number cells that starts just after
/// `i`.
pub open spec fn right_run(cells: Seq<Seq<char>>, i: int) -> int
    decreases cells.len() - i,
{
    if i + 1 >= cells.len() || i < -1 || !is_number(cells[i + 1]) {
        i + 1
    } else {
        right_run(cells, i + 1)
    }
}

/// The cells from `i` up to `k` (excluded), written one after the other.
pub open spec fn cells_up(cells: Seq<Seq<char>>, i: int, k: int) -> Seq<char>
    decreases k - i,
{
    if i >= k || i < 0 || k > cells.len() {
        seq![]
    } else {
        cells_up(cells, i, k - 1) + cells[k - 1]
    }
}

/// The digits on the left of `start_index`: the run of number cells that
/// ends just before it, read from left to right (the text gathered from
/// right to left, then reversed).
pub fn combine_split_part_number_descending(split_number: &Vec<String>, start_index: usize) -> (r:
    String)
    requires
        start_index <= split_number.len(),
    ensures
        r@ == cells_down(
            strings_view(split_number@),
            start_index as int,
            left_run(strings_view(split_number@), start_index as int),
        ).reverse(),
{
    let ghost cells = strings_view(split_number@);
    let ghost k = left_run(cells, start_index as int);
    let mut gathered: Vec<char> = Vec::new();
    let mut current_index = start_index;
    proof {
        lemma_left_run_bounds(cells, start_index as int);
    }
    assert(cells_down(cells, start_index as int, start_index as int) =~= seq![]);
    while current_index > 0 && cell_is_number(&split_number[current_index - 1])
        invariant
            current_index <= start_index <= split_number.len(),
            cells == strings_view(split_number@),
            k == left_run(cells, start_index as int),
            left_run(cells, current_index as int) == k,
            gathered@ == cells_down(cells, start_index as int, current_index as int),
        decreases current_index,
    {
        let cell = chars_of(split_number[current_index - 1].as_str());
        let mut j: usize = 0;
        let ghost before = gathered@;
        while j < cell.len()
            invariant
                j <= cell.len(),
                gathered@ == before + cell@.take(j as int),
            decreases cell.len() - j,
        {
            gathered.push(cell[j]);
            j = j + 1;
            assert(gathered@ =~= before + cell@.take(j as int));
        }
        assert(cell@.take(j as int) =~= cell@);
        proof {
            lemma_cells_down_step(cells, start_index as int, current_index as int);
        }
        current_index = current_index - 1;
    }
    assert(k == current_index);
    let mut r = String::new();
    let mut i: usize = gathered.len();
    while i > 0
        invariant
            i <= gathered.len(),
            r@ == gathered@.skip(i as int).reverse(),
        decreases i,
    {
        push_char(&mut r, gathered[i - 1]);
        i = i - 1;
        assert(r@ =~= gathered@.skip(i as int).reverse());
    }
    assert(gathered@.skip(0) =~= gathered@);
    r
}

/// The run that ends before `i` starts at or before `i`.
proof fn lemma_left_run_bounds(cells: Seq<Seq<char>>, i: int)
    requires
        0 <= i <= cells.len(),
    ensures
        0 <= left_run(cells, i) <= i,
    decreases i,
{
    if i > 0 && is_number(cells[i - 1]) {
        lemma_left_run_bounds(cells, i - 1);
    }
}

/// One more cell on the left extends the gathered text at its end.
proof fn lemma_cells_down_step(cells: Seq<Seq<char>>, i: int, k: int)
    requires
        0 < k <= i <= cells.len(),
    ensures
        cells_down(cells, i, k - 1) == cells_down(cells, i, k) + cells[k - 1],
    decreases i - k,
{
    if i > k {
        lemma_cells_down_step(cells, i - 1, k);
        assert(cells_down(cells, i, k - 1) =~= cells[i - 1] + cells_down(cells, i - 1, k - 1));
    } else {
        assert(cells_down(cells, k - 1, k - 1) =~= seq![]);
        assert(cells_down(cells, i, k) =~= seq![]);
    }
}

/// The digits on the right of `start_index`: the run of number cells that
/// starts just after it, from left to right.
pub fn combine_split_part_number_ascending(split_number: &Vec<String>, start_index: usize) -> (r:
    String)
    requires
        start_index < split_number.len(),
    ensures
        r@ == cells_up(
            strings_view(split_number@),
            start_index + 1,
            right_run(strings_view(split_number@), start_index as int),
        ),
{
    let ghost cells = strings_view(split_number@);
    let mut r = String::new();
    let mut current_index = start_index;
    assert(cells_up(cells, start_index + 1, start_index + 1) =~= seq![]);
    while current_index + 1 < split_number.len() && cell_is_number(&split_number[current_index + 1])
        invariant
            start_index <= current_index < split_number.len(),
            cells == strings_view(split_number@),
            right_run(cells, current_index as int) == right_run(cells, start_index as int),
            r@ == cells_up(cells, start_index + 1, current_index + 1),
        decreases split_number.len() - current_index,
    {
        current_index = current_index + 1;
        r.append(split_number[current_index].as_str());
        assert(r@ =~= cells_up(cells, start_index + 1, current_index + 1));
    }
    r
}

/// The whole number around a digit cell: the digits on its left, its own,
/// and those on its right, read as a `u32`.
pub open spec fn number_at(cells: Seq<Seq<char>>, i: int) -> Option<nat> {
    read_unsigned(
        cells_down(cells, i, left_run(cells, i)).reverse() + cells[i] + cells_up(
            cells,
            i + 1,
            right_run(cells, i),
        ),
        u32::MAX as nat + 1,
    )
}

/// Reads the part number that runs through cell `index_of_digit_in_number`.
pub fn combine_split_part_number(split_number: &Vec<String>, index_of_digit_in_number: usize) -> (r:
    Option<u32>)
    requires
        index_of_digit_in_number < split_number.len(),
    ensures
        r matches Some(v) ==> number_at(strings_view(split_number@), index_of_digit_in_number as int)
            == Some(v as nat),
        r is None ==> number_at(strings_view(split_number@), index_of_digit_in_number as int)
            is None,
{
    let digits_after_index = combine_split_part_number_ascending(
        split_number,
        index_of_digit_in_number,
    );
    let mut digits = combine_split_part_number_descending(split_number, index_of_digit_in_number);
    digits.append(split_number[index_of_digit_in_number].as_str());
    digits.append(digits_after_index.as_str());
    parse_u32(&chars_of(digits.as_str()))
}

/// Every row has `w` cells, and there is at least one row.
pub open spec fn is_rectangular(g: Seq<Seq<Seq<char>>>) -> bool {
    g.len() > 0 && forall|y: int| 0 <= y < g.len() ==> #[trigger] g[y].len() == g[0].len()
}

/// The eight places around `(x, y)`, in the order left-above, above,
/// right-above, left, right, left-below, below, right-below; a coordinate is
/// `None` past an edge of the schematic.
pub open spec fn around(w: int, h: int, x: int, y: int) -> Seq<(Option<int>, Option<int>)> {
    let left = if x >= 1 { Some(x - 1) } else { None };
    let right = if x < w - 1 { Some(x + 1) } else { None };
    let above = if y >= 1 { Some(y - 1) } else { None };
    let below = if y < h - 1 { Some(y + 1) } else { None };
    seq![
        (left, above),
        (Some(x), above),
        (right, above),
        (left, Some(y)),
        (right, Some(y)),
        (left, below),
        (Some(x), below),
        (right, below),
    ]
}

/// The places among `cands` that exist and hold a number cell.
pub open spec fn number_places(g: Seq<Seq<Seq<char>>>, cands: Seq<(Option<int>, Option<int>)>) -> Seq<
    (usize, usize),
>
    decreases cands.len(),
{
    if cands.len() == 0 {
        seq![]
    } else {
        let rest = number_places(g, cands.drop_last());
        let c = cands.last();
        if c.0 is Some && c.1 is Some && is_number(g[c.1->0][c.0->0]) {
            rest.push((c.0->0 as usize, c.1->0 as usize))
        } else {
            rest
        }
    }
}

/// The number cells around a symbol, as `(column, row)`.
pub open spec fn adjacent_numbers(g: Seq<Seq<Seq<char>>>, x: int, y: int) -> Seq<(usize, usize)> {
    number_places(g, around(g[y].len() as int, g.len() as int, x, y))
}

/// A place with its coordinates as integers.
pub open spec fn place_as_ints(c: (Option<usize>, Option<usize>)) -> (Option<int>, Option<int>) {
    (
        match c.0 {
            Some(v) => Some(v as int),
            None => None,
        },
        match c.1 {
            Some(v) => Some(v as int),
            None => None,
        },
    )
}

/// The places around `symbol_index` (column, row) that hold a number cell.
pub fn extract_indices_of_numbers_adjacent_to_symbol(
    engine_schematic: &Vec<Vec<String>>,
    symbol_index: (usize, usize),
) -> (r: Vec<(usize, usize)>)
    requires
        is_rectangular(grid_view(engine_schematic@)),
        symbol_index.1 < engine_schematic.len(),
        symbol_index.0 < engine_schematic@[symbol_index.1 as int].len(),
    ensures
        r@ == adjacent_numbers(
            grid_view(engine_schematic@),
            symbol_index.0 as int,
            symbol_index.1 as int,
        ),
{
    let ghost g = grid_view(engine_schematic@);
    let (x, y) = symbol_index;
    let w = engine_schematic[y].len();
    let h = engine_schematic.len();
    assert(g[y as int].len() == w);
    let left_index = if x >= 1 { Some(x - 1) } else { None };
    let right_index = if x < w - 1 { Some(x + 1) } else { None };
    let above_index = if y >= 1 { Some(y - 1) } else { None };
    let below_index = if y < h - 1 { Some(y + 1) } else { None };
    let coordinates_to_check = vec![
        (left_index, above_index),
        (Some(x), above_index),
        (right_index, above_index),
        (left_index, Some(y)),
        (right_index, Some(y)),
        (left_index, below_index),
        (Some(x), below_index),
        (right_index, below_index),
    ];
    let ghost cands = around(w as int, h as int, x as int, y as int);
    assert(coordinates_to_check@.map_values(|c: (Option<usize>, Option<usize>)| place_as_ints(c)) =~= cands);
    let mut r: Vec<(usize, usize)> = Vec::new();
    let mut k: usize = 0;
    assert(cands.take(0) =~= seq![]);
    while k < coordinates_to_check.len()
        invariant
            k <= coordinates_to_check.len() == 8,
            g == grid_view(engine_schematic@),
            is_rectangular(g),
            w == g[0].len(),
            h == g.len(),
            coordinates_to_check@.map_values(|c: (Option<usize>, Option<usize>)| place_as_ints(c)) == cands,
            forall|j: int|
                0 <= j < 8 ==> ((#[trigger] coordinates_to_check@[j]).0 matches Some(v) ==> v < w),
            forall|j: int|
                0 <= j < 8 ==> ((#[trigger] coordinates_to_check@[j]).1 matches Some(v) ==> v < h),
            r@ == number_places(g, cands.take(k as int)),
        decreases coordinates_to_check.len() - k,
    {
        assert(cands.take(k + 1).drop_last() =~= cands.take(k as int));
        let c = coordinates_to_check[k];
        assert(cands[k as int] == place_as_ints(c));
        let ghost last = cands.take(k + 1).last();
        assert(last == cands[k as int]);
        match c {
            (Some(cx), Some(cy)) => {
                assert(last.0 == Some(cx as int) && last.1 == Some(cy as int));
                assert(g[cy as int].len() == w);
                assert(g[cy as int] == row_view(engine_schematic@[cy as int]));
                assert(g[cy as int][cx as int] == engine_schematic@[cy as int]@[cx as int]@);
                if cell_is_number(&engine_schematic[cy][cx]) {
                    r.push((cx, cy));
                }
            },
            (None, _) => {
                assert(last.0 is None);
            },
            (_, None) => {
                assert(last.1 is None);
            },
        }
        k = k + 1;
    }
    assert(cands.take(8) =~= cands);
    r
}

/// Part `j` of `v` stays: no earlier part in the same row lies within one
/// column of it, unless that part is the same place.
pub open spec fn kept(v: Seq<(usize, usize)>, j: int) -> bool {
    forall|i: int|
        0 <= i < j ==> !(#[trigger] v[i].1 == v[j].1 && (v[i].0 - v[j].0 <= 1 && v[j].0 - v[i].0
            <= 1) && v[i] != v[j])
}

/// The parts of `v` among the first `k` that stay, in order.
pub open spec fn dedup_upto(v: Seq<(usize, usize)>, k: int) -> Seq<(usize, usize)>
    decreases k,
{
    if k <= 0 {
        seq![]
    } else if kept(v, k - 1) {
        dedup_upto(v, k - 1).push(v[k - 1])
    } else {
        dedup_upto(v, k - 1)
    }
}

/// `v` without the places that an earlier place of the same number already
/// stands for.
pub open spec fn dedup(v: Seq<(usize, usize)>) -> Seq<(usize, usize)> {
    dedup_upto(v, v.len() as int)
}

/// Drops each place that lies in the same row as an earlier, different
/// place and at most one column away from it, so that each part number
/// is counted from one of its digits only.
pub fn deduplicate_part_indices(part_indices: Vec<(usize, usize)>) -> (r: Vec<(usize, usize)>)
    ensures
        r@ == dedup(part_indices@),
{
    let v = part_indices;
    let mut r: Vec<(usize, usize)> = Vec::new();
    let mut j: usize = 0;
    while j < v.len()
        invariant
            j <= v.len(),
            r@ == dedup_upto(v@, j as int),
        decreases v.len() - j,
    {
        let mut keep = true;
        let mut i: usize = 0;
        while i < j
            invariant
                i <= j < v.len(),
                keep == forall|m: int|
                    0 <= m < i ==> !(#[trigger] v@[m].1 == v@[j as int].1 && (v@[m].0 - v@[j as int].0
                        <= 1 && v@[j as int].0 - v@[m].0 <= 1) && v@[m] != v@[j as int]),
            decreases j - i,
        {
            let (xi, yi) = v[i];
            let (xj, yj) = v[j];
            let near = if xi >= xj {
                xi - xj <= 1
            } else {
                xj - xi <= 1
            };
            if yi == yj && near && !(xi == xj && yi == yj) {
                keep = false;
            }
            i = i + 1;
        }
        if keep {
            r.push(v[j]);
        }
        j = j + 1;
    }
    r
}

/// The run of number cells that place `p` belongs to, named by its row and
/// the column where it starts; `(row, -1)` for a place outside the
/// schematic.
pub open spec fn run_of(g: Seq<Seq<Seq<char>>>, p: (usize, usize)) -> (int, int) {
    if p.1 < g.len() && p.0 < g[p.1 as int].len() {
        (p.1 as int, left_run(g[p.1 as int], p.0 + 1))
    } else {
        (p.1 as int, -1)
    }
}

/// Place `j` of `v` is the first of `v` on its run of digits.
pub open spec fn first_of_run(g: Seq<Seq<Seq<char>>>, v: Seq<(usize, usize)>, j: int) -> bool {
    forall|i: int| 0 <= i < j ==> run_of(g, #[trigger] v[i]) != run_of(g, v[j])
}

/// The places of the first `k` of `v` that are the first on their run.
pub open spec fn runs_upto(g: Seq<Seq<Seq<char>>>, v: Seq<(usize, usize)>, k: int) -> Seq<
    (usize, usize),
>
    decreases k,
{
    if k <= 0 {
        seq![]
    } else if first_of_run(g, v, k - 1) {
        runs_upto(g, v, k - 1).push(v[k - 1])
    } else {
        runs_upto(g, v, k - 1)
    }
}

/// `v` with one place per run of digits: each maximal run of number cells
/// is kept once, at its first place in `v`.
pub open spec fn dedup_runs(g: Seq<Seq<Seq<char>>>, v: Seq<(usize, usize)>) -> Seq<(usize, usize)> {
    runs_upto(g, v, v.len() as int)
}

/// The run that place `p` belongs to.
fn run_start(engine_schematic: &Vec<Vec<String>>, p: (usize, usize)) -> (r: (usize, usize, bool))
    ensures
        r.2 ==> run_of(grid_view(engine_schematic@), p) == (r.0 as int, r.1 as int),
        !r.2 ==> run_of(grid_view(engine_schematic@), p) == (p.1 as int, -1int) && r.0 == p.1 && r.1 == 0,
{
    let ghost g = grid_view(engine_schematic@);
    let (x, y) = p;
    if y >= engine_schematic.len() || x >= engine_schematic[y].len() {
        return (y, 0, false);
    }
    let row = &engine_schematic[y];
    let ghost cells = g[y as int];
    assert(cells == row_view(*row));
    let mut k = x + 1;
    while k > 0 && cell_is_number(&row[k - 1])
        invariant
            k <= x + 1 <= row.len(),
            cells == row_view(*row),
            left_run(cells, x + 1) == left_run(cells, k as int),
        decreases k,
    {
        assert(cells[k - 1] == row@[k - 1]@);
        k = k - 1;
    }
    if k > 0 {
        assert(cells[k - 1] == row@[k - 1]@);
    }
    (y, k, true)
}

/// Keeps, of the places, only the first one on each run of digits.
pub fn deduplicate_part_runs(engine_schematic: &Vec<Vec<String>>, part_indices: Vec<(usize, usize)>) -> (r:
    Vec<(usize, usize)>)
    ensures
        r@ == dedup_runs(grid_view(engine_schematic@), part_indices@),
{
    let ghost g = grid_view(engine_schematic@);
    let v = part_indices;
    let mut r: Vec<(usize, usize)> = Vec::new();
    let mut j: usize = 0;
    while j < v.len()
        invariant
            j <= v.len(),
            g == grid_view(engine_schematic@),
            r@ == runs_upto(g, v@, j as int),
        decreases v.len() - j,
    {
        let rj = run_start(engine_schematic, v[j]);
        let mut keep = true;
        let mut i: usize = 0;
        while i < j
            invariant
                i <= j < v.len(),
                g == grid_view(engine_schematic@),
                rj.2 ==> run_of(g, v@[j as int]) == (rj.0 as int, rj.1 as int),
                !rj.2 ==> run_of(g, v@[j as int]) == (v@[j as int].1 as int, -1int) && rj.0
                    == v@[j as int].1 && rj.1 == 0,
                keep == forall|m: int| 0 <= m < i ==> run_of(g, #[trigger] v@[m]) != run_of(g, v@[j as int]),
            decreases j - i,
        {
            let ri = run_start(engine_schematic, v[i]);
            let same = ri.0 == rj.0 && ri.1 == rj.1 && ri.2 == rj.2;
            let ghost a = run_of(g, v@[i as int]);
            let ghost b = run_of(g, v@[j as int]);
            if same {
                assert(a == b);
                keep = false;
            } else {
                if ri.2 && rj.2 {
                    assert(a.0 != b.0 || a.1 != b.1);
                } else if ri.2 {
                    assert(a.1 >= 0 && b.1 == -1);
                } else if rj.2 {
                    assert(b.1 >= 0 && a.1 == -1);
                } else {
                    assert(a.0 != b.0);
                }
                assert(a != b);
            }
            i = i + 1;
        }
        if keep {
            r.push(v[j]);
        }
        j = j + 1;
    }
    r
}

/// A cell that is a symbol: neither a number nor a dot.
pub open spec fn is_symbol(cell: Seq<char>) -> bool {
    !is_number(cell) && cell != seq!['.']
}

/// The places that the cell `(x, y)` contributes: for a symbol, the numbers
/// around it; when looking for gears, only a `*` counts, and only when it
/// touches exactly two numbers.
pub open spec fn cell_parts(g: Seq<Seq<Seq<char>>>, x: int, y: int, find_gears: bool) -> Seq<
    (usize, usize),
> {
    if !is_symbol(g[y][x]) {
        seq![]
    } else if !find_gears {
        adjacent_numbers(g, x, y)
    } else if g[y][x] == seq!['*'] {
        let d = dedup_runs(g, adjacent_numbers(g, x, y));
        if d.len() == 2 {
            d
        } else {
            seq![]
        }
    } else {
        seq![]
    }
}

/// The places that the first `x` cells of row `y` contribute.
pub open spec fn row_parts(g: Seq<Seq<Seq<char>>>, y: int, x: int, find_gears: bool) -> Seq<
    (usize, usize),
>
    decreases x,
{
    if x <= 0 {
        seq![]
    } else {
        row_parts(g, y, x - 1, find_gears) + cell_parts(g, x - 1, y, find_gears)
    }
}

/// The places that the first `y` rows contribute.
pub open spec fn grid_parts(g: Seq<Seq<Seq<char>>>, y: int, find_gears: bool) -> Seq<(usize, usize)>
    decreases y,
{
    if y <= 0 {
        seq![]
    } else {
        grid_parts(g, y - 1, find_gears) + row_parts(g, y - 1, g[y - 1].len() as int, find_gears)
    }
}

/// The places of the numbers next to symbols (or to gears), row by row.
pub fn find_part_indices_adjacent_to_symbol(engine_schematic: &Vec<Vec<String>>, find_gears: bool) -> (r:
    Vec<(usize, usize)>)
    requires
        is_rectangular(grid_view(engine_schematic@)),
    ensures
        r@ == grid_parts(grid_view(engine_schematic@), engine_schematic.len() as int, find_gears),
{
    let ghost g = grid_view(engine_schematic@);
    let mut part_locations: Vec<(usize, usize)> = Vec::new();
    let mut line_number: usize = 0;
    while line_number < engine_schematic.len()
        invariant
            line_number <= engine_schematic.len(),
            g == grid_view(engine_schematic@),
            is_rectangular(g),
            part_locations@ == grid_parts(g, line_number as int, find_gears),
        decreases engine_schematic.len() - line_number,
    {
        let line = &engine_schematic[line_number];
        assert(g[line_number as int] == row_view(*line));
        let ghost before = part_locations@;
        let mut index: usize = 0;
        while index < line.len()
            invariant
                line_number < engine_schematic.len(),
                index <= line.len(),
                *line == engine_schematic@[line_number as int],
                g == grid_view(engine_schematic@),
                g[line_number as int] == row_view(*line),
                is_rectangular(g),
                part_locations@ == before + row_parts(g, line_number as int, index as int, find_gears),
            decreases line.len() - index,
        {
            let item = &line[index];
            assert(g[line_number as int][index as int] == item@);
            if !cell_is_number(item) && !is_single(item.as_str(), '.') {
                let indices = extract_indices_of_numbers_adjacent_to_symbol(
                    engine_schematic,
                    (index, line_number),
                );
                if find_gears {
                    if is_single(item.as_str(), '*') {
                        let deduplicated = deduplicate_part_runs(engine_schematic, indices);
                        if deduplicated.len() == 2 {
                            let mut d = deduplicated;
                            part_locations.append(&mut d);
                        }
                    }
                } else {
                    let mut d = indices;
                    part_locations.append(&mut d);
                }
            }
            index = index + 1;
            assert(part_locations@ =~= before + row_parts(
                g,
                line_number as int,
                index as int,
                find_gears,
            ));
        }
        line_number = line_number + 1;
    }
    part_locations
}

/// The part number through place `p`; an error when `p` lies outside the
/// schematic or its digits do not make a `u32`.
pub open spec fn part_number(g: Seq<Seq<Seq<char>>>, p: (usize, usize)) -> Result<nat, PuzzleError> {
    if p.1 < g.len() && p.0 < g[p.1 as int].len() {
        match number_at(g[p.1 as int], p.0 as int) {
            Some(v) => Ok(v),
            None => Err(PuzzleError::InvalidNumber),
        }
    } else {
        Err(PuzzleError::MissingField)
    }
}

/// The part numbers of the places found next to symbols (or gears), each
/// number once.
pub open spec fn part_numbers_spec(g: Seq<Seq<Seq<char>>>, find_gears: bool) -> Result<
    Seq<nat>,
    PuzzleError,
> {
    crate::text::collect_all(
        if find_gears {
            grid_parts(g, g.len() as int, true)
        } else {
            dedup_runs(g, grid_parts(g, g.len() as int, false))
        },
        |p: (usize, usize)| part_number(g, p),
    )
}

/// The part numbers next to symbols, or, when `find_gears`, the two part
/// numbers of each gear one after the other.
pub fn extract_part_numbers_to_sum(engine_schematic: &Vec<Vec<String>>, find_gears: bool) -> (r:
    Result<Vec<u32>, PuzzleError>)
    requires
        is_rectangular(grid_view(engine_schematic@)),
    ensures
        r matches Ok(v) ==> part_numbers_spec(grid_view(engine_schematic@), find_gears) == Ok::<
            Seq<nat>,
            PuzzleError,
        >(v@.map_values(|x: u32| x as nat)),
        r matches Err(e) ==> part_numbers_spec(grid_view(engine_schematic@), find_gears) == Err::<
            Seq<nat>,
            PuzzleError,
        >(e),
{
    let ghost g = grid_view(engine_schematic@);
    let part_indices = find_part_indices_adjacent_to_symbol(engine_schematic, find_gears);
    let deduplicated_part_indices = if find_gears {
        part_indices
    } else {
        deduplicate_part_runs(engine_schematic, part_indices)
    };
    let ghost ps = deduplicated_part_indices@;
    let ghost f = |p: (usize, usize)| part_number(g, p);
    let mut part_numbers_to_sum: Vec<u32> = Vec::new();
    let mut i: usize = 0;
    assert(ps.take(0) =~= seq![]);
    assert(part_numbers_to_sum@.map_values(|x: u32| x as nat) =~= seq![]);
    while i < deduplicated_part_indices.len()
        invariant
            i <= deduplicated_part_indices.len(),
            ps == deduplicated_part_indices@,
            g == grid_view(engine_schematic@),
            ps == (if find_gears {
                grid_parts(g, g.len() as int, true)
            } else {
                dedup_runs(g, grid_parts(g, g.len() as int, false))
            }),
            g.len() == engine_schematic.len(),
            f == (|p: (usize, usize)| part_number(g, p)),
            crate::text::collect_all(ps.take(i as int), f) == Ok::<Seq<nat>, PuzzleError>(
                part_numbers_to_sum@.map_values(|x: u32| x as nat),
            ),
        decreases deduplicated_part_indices.len() - i,
    {
        assert(ps.take(i + 1).drop_last() =~= ps.take(i as int));
        let (x, y) = deduplicated_part_indices[i];
        if y >= engine_schematic.len() || x >= engine_schematic[y].len() {
            proof {
                crate::text::lemma_collect_all_err(ps, f, i + 1);
            }
            return Err(PuzzleError::MissingField);
        }
        assert(g[y as int] == row_view(engine_schematic@[y as int]));
        match combine_split_part_number(&engine_schematic[y], x) {
            Some(n) => {
                let ghost old_v = part_numbers_to_sum@;
                part_numbers_to_sum.push(n);
                assert(part_numbers_to_sum@.map_values(|x: u32| x as nat) =~= old_v.map_values(
                    |x: u32| x as nat,
                ).push(n as nat));
            },
            None => {
                proof {
                    crate::text::lemma_collect_all_err(ps, f, i + 1);
                }
                return Err(PuzzleError::InvalidNumber);
            },
        }
        i = i + 1;
    }
    assert(ps.take(i as int) =~= ps);
    Ok(part_numbers_to_sum)
}

/// A line as a row of one-character cells.
pub open spec fn cells_of(line: Seq<char>) -> Seq<Seq<char>> {
    Seq::new(line.len(), |i: int| seq![line[i]])
}

/// Reads the schematic: one row per line, one cell per character.
pub fn parse_schematic(input: &str) -> (r: Vec<Vec<String>>)
    ensures
        grid_view(r@) == split(input@, seq!['\n']).map_values(|l: Seq<char>| cells_of(l)),
{
    let lines = split_char(input, '\n');
    let ghost ls = split(input@, seq!['\n']);
    let mut rows: Vec<Vec<String>> = Vec::new();
    let mut i: usize = 0;
    while i < lines.len()
        invariant
            i <= lines.len(),
            str_views(lines@) == ls,
            grid_view(rows@) == ls.take(i as int).map_values(|l: Seq<char>| cells_of(l)),
        decreases lines.len() - i,
    {
        assert(lines@[i as int]@ == ls[i as int]);
        let chars = chars_of(lines[i]);
        let mut row: Vec<String> = Vec::new();
        let mut j: usize = 0;
        while j < chars.len()
            invariant
                j <= chars.len(),
                row_view(row) == cells_of(chars@).take(j as int),
            decreases chars.len() - j,
        {
            let mut cell = String::new();
            push_char(&mut cell, chars[j]);
            assert(cell@ =~= seq![chars@[j as int]]);
            let ghost old_row = row@;
            row.push(cell);
            assert(strings_view(row@) =~= strings_view(old_row).push(seq![chars@[j as int]]));
            j = j + 1;
            assert(row_view(row) =~= cells_of(chars@).take(j as int));
        }
        assert(cells_of(chars@).take(j as int) =~= cells_of(chars@));
        let ghost old_rows = rows@;
        let ghost rv = row_view(row);
        rows.push(row);
        assert(grid_view(rows@) =~= grid_view(old_rows).push(rv));
        i = i + 1;
        assert(grid_view(rows@) =~= ls.take(i as int).map_values(|l: Seq<char>| cells_of(l)));
    }
    assert(ls.take(i as int) =~= ls);
    rows
}

/// Whether every row of the schematic has as many cells as the first, and
/// there is at least one row.
pub fn check_rectangular(engine_schematic: &Vec<Vec<String>>) -> (r: bool)
    ensures
        r == is_rectangular(grid_view(engine_schematic@)),
{
    let ghost g = grid_view(engine_schematic@);
    if engine_schematic.len() == 0 {
        return false;
    }
    let w = engine_schematic[0].len();
    assert(g[0].len() == w);
    let mut y: usize = 0;
    while y < engine_schematic.len()
        invariant
            y <= engine_schematic.len(),
            g == grid_view(engine_schematic@),
            g.len() > 0,
            g[0].len() == w,
            forall|k: int| 0 <= k < y ==> #[trigger] g[k].len() == w,
        decreases engine_schematic.len() - y,
    {
        assert(g[y as int].len() == engine_schematic@[y as int].len());
        if engine_schematic[y].len() != w {
            return false;
        }
        y = y + 1;
    }
    true
}

/// The sum of the numbers.
pub open spec fn nat_sum(v: Seq<nat>) -> nat {
    crate::text::seq_sum(v)
}

/// The sum of the part numbers.
pub fn sum_of_part_numbers(part_numbers: &Vec<u32>) -> (r: u64)
    requires
        part_numbers.len() <= u32::MAX,
    ensures
        r == nat_sum(part_numbers@.map_values(|x: u32| x as nat)),
{
    let ghost v = part_numbers@.map_values(|x: u32| x as nat);
    let mut total: u64 = 0;
    let mut i: usize = 0;
    while i < part_numbers.len()
        invariant
            i <= part_numbers.len() <= u32::MAX,
            v == part_numbers@.map_values(|x: u32| x as nat),
            total == crate::text::seq_sum(v.take(i as int)),
            total <= i * u32::MAX,
        decreases part_numbers.len() - i,
    {
        assert(v.take(i + 1).drop_last() =~= v.take(i as int));
        let x = part_numbers[i];
        assert(total + x <= (i + 1) * u32::MAX) by (nonlinear_arith)
            requires
                total <= i * u32::MAX,
                x <= u32::MAX,
        ;
        assert((i + 1) * u32::MAX <= u32::MAX * u32::MAX) by (nonlinear_arith)
            requires
                i < u32::MAX,
        ;
        total = total + x as u64;
        i = i + 1;
    }
    assert(v.take(i as int) =~= v);
    total
}

/// The sum of the products of the pairs `(v[0], v[1])`, `(v[2], v[3])`, ...
pub open spec fn ratio_sum(v: Seq<nat>) -> nat
    decreases v.len(),
{
    if v.len() < 2 {
        0
    } else {
        v[0] * v[1] + ratio_sum(v.skip(2))
    }
}

/// The sum of the gear ratios: the products of the numbers taken two by
/// two; an error when a number has no partner, or the sum does not fit a
/// `u64`.
pub fn sum_of_gear_ratios(gear_part_numbers: &Vec<u32>) -> (r: Result<u64, PuzzleError>)
    ensures
        r matches Ok(t) ==> gear_part_numbers.len() % 2 == 0 && t == ratio_sum(
            gear_part_numbers@.map_values(|x: u32| x as nat),
        ),
        r matches Err(e) ==> (e == PuzzleError::NoAnswer && gear_part_numbers.len() % 2 == 1) || (e
            == PuzzleError::Overflow && gear_part_numbers.len() % 2 == 0 && ratio_sum(
            gear_part_numbers@.map_values(|x: u32| x as nat),
        ) > u64::MAX),
{
    let ghost v = gear_part_numbers@.map_values(|x: u32| x as nat);
    let n = gear_part_numbers.len();
    if n % 2 == 1 {
        return Err(PuzzleError::NoAnswer);
    }
    let mut total: u64 = 0;
    let mut i: usize = n;
    assert(v.skip(n as int) =~= seq![]);
    while i >= 2
        invariant
            i <= n,
            n == gear_part_numbers.len(),
            n % 2 == 0,
            i % 2 == 0,
            v == gear_part_numbers@.map_values(|x: u32| x as nat),
            total == ratio_sum(v.skip(i as int)),
        decreases i,
    {
        let a = gear_part_numbers[i - 2] as u64;
        let b = gear_part_numbers[i - 1] as u64;
        assert(a * b <= u32::MAX as int * u32::MAX as int) by (nonlinear_arith)
            requires
                a <= u32::MAX,
                b <= u32::MAX,
        ;
        let p = a * b;
        assert(v.skip(i - 2).skip(2) =~= v.skip(i as int));
        assert(ratio_sum(v.skip(i - 2)) == p + total);
        if total > u64::MAX - p {
            proof {
                lemma_ratio_sum_suffix(v, i - 2);
            }
            return Err(PuzzleError::Overflow);
        }
        total = total + p;
        i = i - 2;
    }
    assert(v.skip(0) =~= v);
    Ok(total)
}

/// The ratio sum of a suffix, taken at an even place, is at most that of
/// the whole.
proof fn lemma_ratio_sum_suffix(v: Seq<nat>, i: int)
    requires
        0 <= i <= v.len(),
        i % 2 == 0,
    ensures
        ratio_sum(v.skip(i)) <= ratio_sum(v),
    decreases i,
{
    if i >= 2 {
        assert(v.skip(2).skip(i - 2) =~= v.skip(i));
        lemma_ratio_sum_suffix(v.skip(2), i - 2);
        assert(v.len() >= 2);
    } else {
        assert(v.skip(0) =~= v);
    }
}

impl Parse for NewDay3Puzzle {
    type Day = Day3Puzzle;

    fn parse_input(&self, puzzle_input: &str) -> (r: Result<Day3Puzzle, PuzzleError>)
        ensures
            r matches Ok(d) ==> grid_view(d.parsed_input@) == split(
                puzzle_input@,
                seq!['\n'],
            ).map_values(|l: Seq<char>| cells_of(l)),
            r is Ok,
    {
        Ok(Day3Puzzle { parsed_input: parse_schematic(puzzle_input) })
    }
}

impl AdventDay for Day3Puzzle {
    fn solve_first_puzzle(&self) -> (r: Result<String, PuzzleError>)
        ensures
            r matches Ok(s) ==> is_rectangular(grid_view(self.parsed_input@)) && (part_numbers_spec(grid_view(self.parsed_input@), false) matches Ok(v)
                && s@ == decimal_digits(nat_sum(v))),
            r matches Err(e) ==> !is_rectangular(grid_view(self.parsed_input@)) || part_numbers_spec(grid_view(self.parsed_input@), false) == Err::<
                Seq<nat>,
                PuzzleError,
            >(e) || e == PuzzleError::Overflow,
    {
        if !check_rectangular(&self.parsed_input) {
            return Err(PuzzleError::MissingField);
        }
        let part_numbers = extract_part_numbers_to_sum(&self.parsed_input, false)?;
        if part_numbers.len() > u32::MAX as usize {
            return Err(PuzzleError::Overflow);
        }
        Ok(u64_to_string(sum_of_part_numbers(&part_numbers)))
    }

    fn solve_second_puzzle(&self) -> (r: Result<String, PuzzleError>)
        ensures
            r matches Ok(s) ==> is_rectangular(grid_view(self.parsed_input@)) && (part_numbers_spec(grid_view(self.parsed_input@), true) matches Ok(v)
                && v.len() % 2 == 0 && s@ == decimal_digits(ratio_sum(v))),
            r matches Err(e) ==> !is_rectangular(grid_view(self.parsed_input@)) || part_numbers_spec(grid_view(self.parsed_input@), true) == Err::<
                Seq<nat>,
                PuzzleError,
            >(e) || (part_numbers_spec(grid_view(self.parsed_input@), true) matches Ok(v) && (v.len() % 2 == 1 || ratio_sum(v)
                > u64::MAX)),
    {
        if !check_rectangular(&self.parsed_input) {
            return Err(PuzzleError::MissingField);
        }
        let gear_part_numbers = extract_part_numbers_to_sum(&self.parsed_input, true)?;
        let total = sum_of_gear_ratios(&gear_part_numbers)?;
        Ok(u64_to_string(total))
    }
}

} // verus!
