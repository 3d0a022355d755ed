//! Cube conundrum: games of cubes drawn from a bag, which games a given
//! bag allows, and the smallest bag for each game.
use vstd::prelude::*;

use crate::advent::{AdventDay, Parse, PuzzleError};
use crate::text::{
    decimal_digits,
    chars_of, collect_all, lemma_collect_all_err, parse_u32, read_unsigned, split, split_char, str_is, str_views, u64_to_string,
};

verus! {

/// The parser of this day's puzzle input.
pub struct NewDay2Puzzle {}

/// The games, in input order.
pub struct Day2Puzzle {
    pub parsed_input: Vec<Game>,
}

/// How many cubes of each color one draw showed.
#[derive(Debug, PartialEq, Eq, Structural, Clone, Copy)]
pub struct RevealedCubes {
    pub red: u32,
    pub blue: u32,
    pub green: u32,
}

/// A game: its number and its draws.
#[derive(Debug, PartialEq)]
pub struct Game {
    pub identifier: u32,
    pub revealed_cubes: Vec<RevealedCubes>,
}

/// A draw as (red, green, blue).
pub open spec fn cubes_view(c: RevealedCubes) -> (nat, nat, nat) {
    (c.red as nat, c.green as nat, c.blue as nat)
}

/// Draws as (red, green, blue) triples.
pub open spec fn draws_view(v: Seq<RevealedCubes>) -> Seq<(nat, nat, nat)> {
    v.map_values(|c: RevealedCubes| cubes_view(c))
}

/// A draw with the count of one color replaced; a color other than red,
/// green or blue changes nothing.
pub open spec fn with_color(c: (nat, nat, nat), color: Seq<char>, count: nat) -> (nat, nat, nat) {
    if color == seq!['r', 'e', 'd'] {
        (count, c.1, c.2)
    } else if color == seq!['g', 'r', 'e', 'e', 'n'] {
        (c.0, count, c.2)
    } else if color == seq!['b', 'l', 'u', 'e'] {
        (c.0, c.1, count)
    } else {
        c
    }
}

impl RevealedCubes {
    pub fn new(red: u32, green: u32, blue: u32) -> (r: RevealedCubes)
        ensures
            cubes_view(r) == (red as nat, green as nat, blue as nat),
    {
        RevealedCubes { red, blue, green }
    }

    /// Sets the count of the named color.
    pub fn set_by_color(&mut self, color: &str, count: u32)
        ensures
            cubes_view(*final(self)) == with_color(cubes_view(*old(self)), color@, count as nat),
    {
        proof {
            reveal_strlit("red");
            reveal_strlit("green");
            reveal_strlit("blue");
            assert("red"@ =~= seq!['r', 'e', 'd']);
            assert("green"@ =~= seq!['g', 'r', 'e', 'e', 'n']);
            assert("blue"@ =~= seq!['b', 'l', 'u', 'e']);
        }
        if str_is(color, "red") {
            self.red = count;
        } else if str_is(color, "green") {
            self.green = count;
        } else if str_is(color, "blue") {
            self.blue = count;
        }
    }
}

impl Game {
    pub fn new(identifier: u32, revealed_cubes: Vec<RevealedCubes>) -> (r: Game)
        ensures
            r.identifier == identifier,
            r.revealed_cubes@ == revealed_cubes@,
    {
        Game { identifier, revealed_cubes }
    }
}

/// The part of a game line before `: ` and the part after it.
pub open spec fn game_parts(s: Seq<char>) -> Result<(Seq<char>, Seq<char>), PuzzleError> {
    let p = split(s, seq![':', ' ']);
    if p.len() < 2 {
        Err(PuzzleError::MissingField)
    } else {
        Ok((p[0], p[1]))
    }
}

/// Splits `Game n: draws` into `Game n` and the draws.
pub fn separate_game_identifier_from_revealed_cubes(game_string: &str) -> (r: Result<
    (&str, &str),
    PuzzleError,
>)
    ensures
        r matches Ok(p) ==> game_parts(game_string@) == Ok::<(Seq<char>, Seq<char>), PuzzleError>(
            (p.0@, p.1@),
        ),
        r matches Err(e) ==> game_parts(game_string@) == Err::<(Seq<char>, Seq<char>), PuzzleError>(
            e,
        ),
{
    let sep = vec![':', ' '];
    assert(sep@ =~= seq![':', ' ']);
    let parts = crate::text::split_by(game_string, &sep);
    if parts.len() < 2 {
        return Err(PuzzleError::MissingField);
    }
    assert(parts@[0]@ == str_views(parts@)[0]);
    assert(parts@[1]@ == str_views(parts@)[1]);
    Ok((parts[0], parts[1]))
}

/// The game number: the last space-separated word of `Game n`, a `u32`.
pub open spec fn identifier_spec(s: Seq<char>) -> Result<nat, PuzzleError> {
    match read_unsigned(split(s, seq![' ']).last(), u32::MAX as nat + 1) {
        Some(v) => Ok(v),
        None => Err(PuzzleError::InvalidNumber),
    }
}

/// Reads the number of `Game n`.
pub fn extract_game_identifier(game_identifier_string: &str) -> (r: Result<u32, PuzzleError>)
    ensures
        r matches Ok(v) ==> identifier_spec(game_identifier_string@) == Ok::<nat, PuzzleError>(
            v as nat,
        ),
        r matches Err(e) ==> identifier_spec(game_identifier_string@) == Err::<nat, PuzzleError>(e),
{
    let words = split_char(game_identifier_string, ' ');
    let last = words.len() - 1;
    assert(words@[last as int]@ == str_views(words@).last());
    match parse_u32(&chars_of(words[last])) {
        Some(v) => Ok(v),
        None => Err(PuzzleError::InvalidNumber),
    }
}

/// One `count color` item of a draw.
pub open spec fn item_spec(s: Seq<char>) -> Result<(nat, Seq<char>), PuzzleError> {
    let p = split(s, seq![' ']);
    match read_unsigned(p[0], u32::MAX as nat + 1) {
        None => Err(PuzzleError::InvalidNumber),
        Some(c) => if p.len() < 2 {
            Err(PuzzleError::MissingField)
        } else {
            Ok((c, p[1]))
        },
    }
}

/// The draw that the items set, starting from no cubes at all.
pub open spec fn draw_from_items(items: Seq<Seq<char>>) -> Result<(nat, nat, nat), PuzzleError>
    decreases items.len(),
{
    if items.len() == 0 {
        Ok((0, 0, 0))
    } else {
        match draw_from_items(items.drop_last()) {
            Err(e) => Err(e),
            Ok(c) => match item_spec(items.last()) {
                Err(e) => Err(e),
                Ok((count, color)) => Ok(with_color(c, color, count)),
            },
        }
    }
}

/// What a draw `a color, b color, ...` reads as.
pub open spec fn draw_spec(s: Seq<char>) -> Result<(nat, nat, nat), PuzzleError> {
    draw_from_items(split(s, seq![',', ' ']))
}

/// Once a prefix of the items has failed, the whole draw fails the same way.
pub proof fn lemma_draw_err(items: Seq<Seq<char>>, i: int)
    requires
        0 <= i <= items.len(),
        draw_from_items(items.take(i)) is Err,
    ensures
        draw_from_items(items) == draw_from_items(items.take(i)),
    decreases items.len(),
{
    if i < items.len() {
        assert(items.drop_last().take(i) =~= items.take(i));
        lemma_draw_err(items.drop_last(), i);
    } else {
        assert(items.take(i) =~= items);
    }
}

/// Reads one draw, such as `3 blue, 4 red`.
pub fn parse_revealed_cubes_string(revealed_cubes_string: &str) -> (r: Result<
    RevealedCubes,
    PuzzleError,
>)
    ensures
        r matches Ok(c) ==> draw_spec(revealed_cubes_string@) == Ok::<(nat, nat, nat), PuzzleError>(
            cubes_view(c),
        ),
        r matches Err(e) ==> draw_spec(revealed_cubes_string@) == Err::<
            (nat, nat, nat),
            PuzzleError,
        >(e),
{
    let sep = vec![',', ' '];
    assert(sep@ =~= seq![',', ' ']);
    let items = crate::text::split_by(revealed_cubes_string, &sep);
    let ghost its = split(revealed_cubes_string@, seq![',', ' ']);
    let mut revealed_cubes = RevealedCubes::new(0, 0, 0);
    let mut i: usize = 0;
    assert(its.take(0) =~= seq![]);
    while i < items.len()
        invariant
            i <= items.len(),
            str_views(items@) == its,
            its == split(revealed_cubes_string@, seq![',', ' ']),
            draw_from_items(its.take(i as int)) == Ok::<(nat, nat, nat), PuzzleError>(
                cubes_view(revealed_cubes),
            ),
        decreases items.len() - i,
    {
        assert(its.take(i + 1).drop_last() =~= its.take(i as int));
        assert(items@[i as int]@ == its[i as int]);
        let words = split_char(items[i], ' ');
        assert(words@[0]@ == str_views(words@)[0]);
        let count = match parse_u32(&chars_of(words[0])) {
            Some(v) => v,
            None => {
                proof {
                    lemma_draw_err(its, i + 1);
                }
                return Err(PuzzleError::InvalidNumber);
            },
        };
        if words.len() < 2 {
            proof {
                lemma_draw_err(its, i + 1);
            }
            return Err(PuzzleError::MissingField);
        }
        assert(words@[1]@ == str_views(words@)[1]);
        revealed_cubes.set_by_color(words[1], count);
        i = i + 1;
    }
    assert(its.take(i as int) =~= its);
    Ok(revealed_cubes)
}

/// What a game line reads as: its number and its draws.
pub open spec fn game_spec(s: Seq<char>) -> Result<(nat, Seq<(nat, nat, nat)>), PuzzleError> {
    match game_parts(s) {
        Err(e) => Err(e),
        Ok((head, draws)) => match identifier_spec(head) {
            Err(e) => Err(e),
            Ok(id) => match collect_all(split(draws, seq![';', ' ']), |d| draw_spec(d)) {
                Err(e) => Err(e),
                Ok(ds) => Ok((id, ds)),
            },
        },
    }
}

/// A game as its number and its draws.
pub open spec fn game_view(g: Game) -> (nat, Seq<(nat, nat, nat)>) {
    (g.identifier as nat, draws_view(g.revealed_cubes@))
}

/// Reads a game line, such as `Game 1: 3 blue, 4 red; 2 green`.
pub fn parse_game_string(game_string: &str) -> (r: Result<Game, PuzzleError>)
    ensures
        r matches Ok(g) ==> game_spec(game_string@) == Ok::<
            (nat, Seq<(nat, nat, nat)>),
            PuzzleError,
        >(game_view(g)),
        r matches Err(e) ==> game_spec(game_string@) == Err::<
            (nat, Seq<(nat, nat, nat)>),
            PuzzleError,
        >(e),
{
    let (game_identifier_string, revealed_cubes_list_string) =
        separate_game_identifier_from_revealed_cubes(game_string)?;
    let game_identifier = extract_game_identifier(game_identifier_string)?;
    let sep = vec![';', ' '];
    assert(sep@ =~= seq![';', ' ']);
    let draws = crate::text::split_by(revealed_cubes_list_string, &sep);
    let ghost ds = split(revealed_cubes_list_string@, seq![';', ' ']);
    let ghost f = |d| draw_spec(d);
    let mut revealed_cubes: Vec<RevealedCubes> = Vec::new();
    let mut i: usize = 0;
    assert(ds.take(0) =~= seq![]);
    assert(draws_view(revealed_cubes@) =~= seq![]);
    while i < draws.len()
        invariant
            i <= draws.len(),
            str_views(draws@) == ds,
            ds == split(revealed_cubes_list_string@, seq![';', ' ']),
            game_parts(game_string@) == Ok::<(Seq<char>, Seq<char>), PuzzleError>(
                (game_identifier_string@, revealed_cubes_list_string@),
            ),
            identifier_spec(game_identifier_string@) == Ok::<nat, PuzzleError>(
                game_identifier as nat,
            ),
            f == (|d| draw_spec(d)),
            collect_all(ds.take(i as int), f) == Ok::<Seq<(nat, nat, nat)>, PuzzleError>(
                draws_view(revealed_cubes@),
            ),
        decreases draws.len() - i,
    {
        assert(ds.take(i + 1).drop_last() =~= ds.take(i as int));
        assert(draws@[i as int]@ == ds[i as int]);
        match parse_revealed_cubes_string(draws[i]) {
            Ok(c) => {
                let ghost old_v = revealed_cubes@;
                revealed_cubes.push(c);
                assert(draws_view(revealed_cubes@) =~= draws_view(old_v).push(cubes_view(c)));
            },
            Err(e) => {
                proof {
                    lemma_collect_all_err(ds, f, i + 1);
                }
                return Err(e);
            },
        }
        i = i + 1;
    }
    assert(ds.take(i as int) =~= ds);
    Ok(Game::new(game_identifier, revealed_cubes))
}

/// A draw that a bag of 12 red, 13 green and 14 blue cubes cannot give.
pub open spec fn invalidates(c: (nat, nat, nat)) -> bool {
    c.0 > 12 || c.1 > 13 || c.2 > 14
}

/// Whether a draw shows more cubes of a color than the bag holds.
pub fn check_if_cubes_invalidate_game(revealed_cubes: &RevealedCubes) -> (r: bool)
    ensures
        r == invalidates(cubes_view(*revealed_cubes)),
{
    if revealed_cubes.red > 12 {
        return true;
    }
    if revealed_cubes.green > 13 {
        return true;
    }
    if revealed_cubes.blue > 14 {
        return true;
    }
    false
}

/// Every draw of a game is possible with the bag.
pub open spec fn game_possible(draws: Seq<(nat, nat, nat)>) -> bool {
    forall|i: int| 0 <= i < draws.len() ==> !invalidates(#[trigger] draws[i])
}

/// Whether the bag allows every draw of a game.
pub fn check_if_game_is_valid(cubes_revealed_in_game: &Vec<RevealedCubes>) -> (r: bool)
    ensures
        r == game_possible(draws_view(cubes_revealed_in_game@)),
{
    let v = cubes_revealed_in_game;
    let mut i: usize = 0;
    while i < v.len()
        invariant
            i <= v.len(),
            v == cubes_revealed_in_game,
            forall|j: int| 0 <= j < i ==> !invalidates(#[trigger] draws_view(v@)[j]),
        decreases v.len() - i,
    {
        if check_if_cubes_invalidate_game(&v[i]) {
            assert(invalidates(draws_view(v@)[i as int]));
            assert(!game_possible(draws_view(v@)));
            return false;
        }
        i = i + 1;
    }
    true
}

/// The games seen as numbers and draws.
pub open spec fn games_view(v: Seq<Game>) -> Seq<(nat, Seq<(nat, nat, nat)>)> {
    v.map_values(|g: Game| game_view(g))
}

/// The sum of the numbers of the possible games.
pub open spec fn possible_id_sum(gs: Seq<(nat, Seq<(nat, nat, nat)>)>) -> nat
    decreases gs.len(),
{
    if gs.len() == 0 {
        0
    } else {
        possible_id_sum(gs.drop_last()) + if game_possible(gs.last().1) {
            gs.last().0
        } else {
            0
        }
    }
}

/// The sum of the numbers of the games that the bag allows.
pub fn find_sum_of_identifiers_of_valid_games(games: &Vec<Game>) -> (r: u64)
    requires
        games.len() <= u32::MAX,
    ensures
        r == possible_id_sum(games_view(games@)),
{
    let ghost gs = games_view(games@);
    let mut total: u64 = 0;
    let mut i: usize = 0;
    while i < games.len()
        invariant
            i <= games.len() <= u32::MAX,
            gs == games_view(games@),
            total == possible_id_sum(gs.take(i as int)),
            total <= i * u32::MAX,
        decreases games.len() - i,
    {
        assert(gs.take(i + 1).drop_last() =~= gs.take(i as int));
        assert(gs[i as int] == game_view(games@[i as int]));
        if check_if_game_is_valid(&games[i].revealed_cubes) {
            let id = games[i].identifier;
            assert(total + id <= (i + 1) * u32::MAX) by (nonlinear_arith)
                requires
                    total <= i * u32::MAX,
                    id <= u32::MAX,
            ;
            assert((i + 1) * u32::MAX <= u32::MAX * u32::MAX) by (nonlinear_arith)
                requires
                    i < u32::MAX,
            ;
            total = total + games[i].identifier as u64;
        } else {
            assert(total <= (i + 1) * u32::MAX) by (nonlinear_arith)
                requires
                    total <= i * u32::MAX,
            ;
        }
        i = i + 1;
    }
    assert(gs.take(i as int) =~= gs);
    total
}

/// The largest count of a color over the draws.
pub open spec fn largest(draws: Seq<(nat, nat, nat)>) -> (nat, nat, nat)
    decreases draws.len(),
{
    if draws.len() == 0 {
        (0, 0, 0)
    } else {
        let m = largest(draws.drop_last());
        let d = draws.last();
        (
            if d.0 > m.0 {
                d.0
            } else {
                m.0
            },
            if d.1 > m.1 {
                d.1
            } else {
                m.1
            },
            if d.2 > m.2 {
                d.2
            } else {
                m.2
            },
        )
    }
}

/// The fewest cubes of each color that make every draw of a game possible.
pub fn find_largest_number_of_each_colored_cube_in_revealed_cubes(
    cubes_revealed_in_game: &Vec<RevealedCubes>,
) -> (r: RevealedCubes)
    ensures
        cubes_view(r) == largest(draws_view(cubes_revealed_in_game@)),
{
    let v = cubes_revealed_in_game;
    let ghost ds = draws_view(v@);
    let mut largest_number_of_revealed_cubes = RevealedCubes::new(0, 0, 0);
    let mut i: usize = 0;
    while i < v.len()
        invariant
            i <= v.len(),
            ds == draws_view(v@),
            cubes_view(largest_number_of_revealed_cubes) == largest(ds.take(i as int)),
        decreases v.len() - i,
    {
        assert(ds.take(i + 1).drop_last() =~= ds.take(i as int));
        let revealed_cubes = &v[i];
        if revealed_cubes.blue > largest_number_of_revealed_cubes.blue {
            largest_number_of_revealed_cubes.blue = revealed_cubes.blue;
        }
        if revealed_cubes.red > largest_number_of_revealed_cubes.red {
            largest_number_of_revealed_cubes.red = revealed_cubes.red;
        }
        if revealed_cubes.green > largest_number_of_revealed_cubes.green {
            largest_number_of_revealed_cubes.green = revealed_cubes.green;
        }
        i = i + 1;
    }
    assert(ds.take(i as int) =~= ds);
    largest_number_of_revealed_cubes
}

/// The power of a set of cubes: the product of the three counts.
pub fn calculate_power_of_cubes(cubes: &RevealedCubes) -> (r: u128)
    ensures
        r == cubes.blue * cubes.green * cubes.red,
{
    let b = cubes.blue as u128;
    let g = cubes.green as u128;
    let r = cubes.red as u128;
    assert(b * g <= u32::MAX * u32::MAX) by (nonlinear_arith)
        requires
            b <= u32::MAX,
            g <= u32::MAX,
    ;
    assert(b * g * r <= u32::MAX * u32::MAX * u32::MAX) by (nonlinear_arith)
        requires
            b * g <= u32::MAX * u32::MAX,
            r <= u32::MAX,
    ;
    b * g * r
}

/// What the list of games reads as: one game per line.
pub open spec fn games_spec(s: Seq<char>) -> Result<Seq<(nat, Seq<(nat, nat, nat)>)>, PuzzleError> {
    collect_all(split(s, seq!['\n']), |l| game_spec(l))
}

/// Reads the list of games, one per line.
pub fn parse_games(input: &str) -> (r: Result<Vec<Game>, PuzzleError>)
    ensures
        r matches Ok(v) ==> games_spec(input@) == Ok::<
            Seq<(nat, Seq<(nat, nat, nat)>)>,
            PuzzleError,
        >(games_view(v@)),
        r matches Err(e) ==> games_spec(input@) == Err::<
            Seq<(nat, Seq<(nat, nat, nat)>)>,
            PuzzleError,
        >(e),
{
    let lines = split_char(input, '\n');
    let ghost ls = split(input@, seq!['\n']);
    let ghost f = |l| game_spec(l);
    let mut games: Vec<Game> = Vec::new();
    let mut i: usize = 0;
    assert(ls.take(0) =~= seq![]);
    assert(games_view(games@) =~= seq![]);
    while i < lines.len()
        invariant
            i <= lines.len(),
            str_views(lines@) == ls,
            ls == split(input@, seq!['\n']),
            f == (|l| game_spec(l)),
            collect_all(ls.take(i as int), f) == Ok::<
                Seq<(nat, Seq<(nat, nat, nat)>)>,
                PuzzleError,
            >(games_view(games@)),
        decreases lines.len() - i,
    {
        assert(ls.take(i + 1).drop_last() =~= ls.take(i as int));
        assert(lines@[i as int]@ == ls[i as int]);
        match parse_game_string(lines[i]) {
            Ok(g) => {
                let ghost old_v = games@;
                let ghost gv = game_view(g);
                games.push(g);
                assert(games_view(games@) =~= games_view(old_v).push(gv));
            },
            Err(e) => {
                proof {
                    lemma_collect_all_err(ls, f, i + 1);
                }
                return Err(e);
            },
        }
        i = i + 1;
    }
    assert(ls.take(i as int) =~= ls);
    Ok(games)
}

/// The sum of the powers of the smallest bags of the games.
pub open spec fn power_sum(gs: Seq<(nat, Seq<(nat, nat, nat)>)>) -> nat
    decreases gs.len(),
{
    if gs.len() == 0 {
        0
    } else {
        let m = largest(gs.last().1);
        power_sum(gs.drop_last()) + m.0 * m.1 * m.2
    }
}

/// The sum, over the games, of the power of the fewest cubes that make the
/// game possible.
pub fn sum_of_powers(games: &Vec<Game>) -> (r: u128)
    requires
        games.len() <= u32::MAX,
    ensures
        r == power_sum(games_view(games@)),
{
    let ghost gs = games_view(games@);
    let ghost cap: int = u32::MAX as int * u32::MAX as int * u32::MAX as int;
    let mut total: u128 = 0;
    let mut i: usize = 0;
    while i < games.len()
        invariant
            i <= games.len() <= u32::MAX,
            gs == games_view(games@),
            cap == u32::MAX as int * u32::MAX as int * u32::MAX as int,
            total == power_sum(gs.take(i as int)),
            total <= i * cap,
        decreases games.len() - i,
    {
        assert(gs.take(i + 1).drop_last() =~= gs.take(i as int));
        assert(gs[i as int] == game_view(games@[i as int]));
        let m = find_largest_number_of_each_colored_cube_in_revealed_cubes(&games[i].revealed_cubes);
        let p = calculate_power_of_cubes(&m);
        assert(p <= cap) by (nonlinear_arith)
            requires
                p == m.blue * m.green * m.red,
                m.blue <= u32::MAX,
                m.green <= u32::MAX,
                m.red <= u32::MAX,
                cap == u32::MAX as int * u32::MAX as int * u32::MAX as int,
        ;
        assert(total + p <= (i + 1) * cap) by (nonlinear_arith)
            requires
                total <= i * cap,
                p <= cap,
        ;
        assert((i + 1) * cap <= u32::MAX * cap) by (nonlinear_arith)
            requires
                i < u32::MAX,
                cap >= 0,
        ;
        assert(p == m.red * m.green * m.blue) by (nonlinear_arith)
            requires
                p == m.blue * m.green * m.red,
        ;
        total = total + p;
        i = i + 1;
    }
    assert(gs.take(i as int) =~= gs);
    total
}

impl Parse for NewDay2Puzzle {
    type Day = Day2Puzzle;

    fn parse_input(&self, puzzle_input: &str) -> (r: Result<Day2Puzzle, PuzzleError>)
        ensures
            r matches Ok(d) ==> games_spec(puzzle_input@) == Ok::<
                Seq<(nat, Seq<(nat, nat, nat)>)>,
                PuzzleError,
            >(games_view(d.parsed_input@)),
            r matches Err(e) ==> games_spec(puzzle_input@) == Err::<
                Seq<(nat, Seq<(nat, nat, nat)>)>,
                PuzzleError,
            >(e),
    {
        let parsed_input = parse_games(puzzle_input)?;
        Ok(Day2Puzzle { parsed_input })
    }
}

impl AdventDay for Day2Puzzle {
    fn solve_first_puzzle(&self) -> (r: Result<String, PuzzleError>)
        ensures
            r is Ok <==> self.parsed_input.len() <= u32::MAX,
            r matches Ok(s) ==> s@ == decimal_digits(possible_id_sum(games_view(self.parsed_input@))),
    {
        if self.parsed_input.len() > u32::MAX as usize {
            return Err(PuzzleError::Overflow);
        }
        let total = find_sum_of_identifiers_of_valid_games(&self.parsed_input);
        Ok(u64_to_string(total))
    }

    fn solve_second_puzzle(&self) -> (r: Result<String, PuzzleError>)
        ensures
            r is Ok <==> self.parsed_input.len() <= u32::MAX && power_sum(
                games_view(self.parsed_input@),
            ) <= u64::MAX,
            r matches Ok(s) ==> s@ == decimal_digits(power_sum(games_view(self.parsed_input@))),
    {
        if self.parsed_input.len() > u32::MAX as usize {
            return Err(PuzzleError::Overflow);
        }
        let total = sum_of_powers(&self.parsed_input);
        if total > u64::MAX as u128 {
            return Err(PuzzleError::Overflow);
        }
        Ok(u64_to_string(total as u64))
    }
}

} // verus!
