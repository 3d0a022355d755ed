//! Rock, paper, scissors: scoring a strategy guide of two letters per round.
use vstd::prelude::*;

use crate::advent::{AdventDay, Parse, PuzzleError};
use crate::text::{
    decimal_digits,
    collect_all, lemma_collect_all_err, split, split_char, is_single, str_views, u64_to_string,
};

verus! {

/// The parser of this day's puzzle input.
pub struct NewDay2Puzzle {}

/// A strategy guide: for each round, the opponent's letter and the answer.
pub struct Day2Puzzle {
    pub parsed_input: Vec<(String, String)>,
}

#[derive(Debug, PartialEq, Eq, Structural, Clone, Copy)]
pub enum RockPaperScissors {
    Rock,
    Paper,
    Scissors,
}

#[derive(Debug, PartialEq, Eq, Structural, Clone, Copy)]
pub enum WinLossDraw {
    Win,
    Loss,
    Draw,
}

/// The shape that a letter of the guide stands for: A and X rock, B and Y
/// paper, anything else scissors.
pub open spec fn shape_of(s: Seq<char>) -> RockPaperScissors {
    if s == seq!['A'] || s == seq!['X'] {
        RockPaperScissors::Rock
    } else if s == seq!['B'] || s == seq!['Y'] {
        RockPaperScissors::Paper
    } else {
        RockPaperScissors::Scissors
    }
}

/// The result that a letter of the second column asks for: X a loss, Y a
/// draw, anything else a win.
pub open spec fn result_of(s: Seq<char>) -> WinLossDraw {
    if s == seq!['X'] {
        WinLossDraw::Loss
    } else if s == seq!['Y'] {
        WinLossDraw::Draw
    } else {
        WinLossDraw::Win
    }
}

impl<'a> From<&'a str> for RockPaperScissors {
    fn from(s: &'a str) -> RockPaperScissors {
        if is_single(s, 'A') || is_single(s, 'X') {
            return RockPaperScissors::Rock;
        } else if is_single(s, 'B') || is_single(s, 'Y') {
            return RockPaperScissors::Paper;
        }
        RockPaperScissors::Scissors
    }
}

impl<'a> vstd::std_specs::convert::FromSpecImpl<&'a str> for RockPaperScissors {
    open spec fn obeys_from_spec() -> bool {
        true
    }

    open spec fn from_spec(s: &'a str) -> RockPaperScissors {
        shape_of(s@)
    }
}

impl<'a> From<&'a str> for WinLossDraw {
    fn from(s: &'a str) -> WinLossDraw {
        if is_single(s, 'X') {
            return WinLossDraw::Loss;
        } else if is_single(s, 'Y') {
            return WinLossDraw::Draw;
        }
        WinLossDraw::Win
    }
}

impl<'a> vstd::std_specs::convert::FromSpecImpl<&'a str> for WinLossDraw {
    open spec fn obeys_from_spec() -> bool {
        true
    }

    open spec fn from_spec(s: &'a str) -> WinLossDraw {
        result_of(s@)
    }
}

/// The points a shape earns: 1 for rock, 2 for paper, 3 for scissors.
pub open spec fn shape_points(m: RockPaperScissors) -> nat {
    match m {
        RockPaperScissors::Rock => 1,
        RockPaperScissors::Paper => 2,
        RockPaperScissors::Scissors => 3,
    }
}

/// The points a result earns: 0 for a loss, 3 for a draw, 6 for a win.
pub open spec fn result_points(r: WinLossDraw) -> nat {
    match r {
        WinLossDraw::Loss => 0,
        WinLossDraw::Draw => 3,
        WinLossDraw::Win => 6,
    }
}

impl RockPaperScissors {
    pub fn value(&self) -> (r: u32)
        ensures
            r == shape_points(*self),
    {
        match self {
            RockPaperScissors::Rock => 1,
            RockPaperScissors::Paper => 2,
            RockPaperScissors::Scissors => 3,
        }
    }
}

impl WinLossDraw {
    pub fn value(&self) -> (r: u32)
        ensures
            r == result_points(*self),
    {
        match self {
            WinLossDraw::Loss => 0,
            WinLossDraw::Draw => 3,
            WinLossDraw::Win => 6,
        }
    }
}

/// Rock beats scissors, scissors beat paper, paper beats rock.
pub open spec fn beats(a: RockPaperScissors, b: RockPaperScissors) -> bool {
    ||| a == RockPaperScissors::Rock && b == RockPaperScissors::Scissors
    ||| a == RockPaperScissors::Scissors && b == RockPaperScissors::Paper
    ||| a == RockPaperScissors::Paper && b == RockPaperScissors::Rock
}

/// The result of a round for the player who played `you`.
pub open spec fn outcome(opponent: RockPaperScissors, you: RockPaperScissors) -> WinLossDraw {
    if opponent == you {
        WinLossDraw::Draw
    } else if beats(you, opponent) {
        WinLossDraw::Win
    } else {
        WinLossDraw::Loss
    }
}

/// The result of one round, seen from the second player.
pub fn rock_paper_scissors(opponent_played: &RockPaperScissors, you_played: &RockPaperScissors) -> (r:
    WinLossDraw)
    ensures
        r == outcome(*opponent_played, *you_played),
{
    if opponent_played == you_played {
        return WinLossDraw::Draw;
    }
    match opponent_played {
        RockPaperScissors::Rock => {
            if *you_played == RockPaperScissors::Paper {
                return WinLossDraw::Win;
            }
        },
        RockPaperScissors::Scissors => {
            if *you_played == RockPaperScissors::Rock {
                return WinLossDraw::Win;
            }
        },
        RockPaperScissors::Paper => {
            if *you_played == RockPaperScissors::Scissors {
                return WinLossDraw::Win;
            }
        },
    }
    WinLossDraw::Loss
}

/// The shape to play against `opponent_played` to reach the wanted result.
pub fn find_move_to_play(win_lose_or_draw: &WinLossDraw, opponent_played: &RockPaperScissors) -> (r:
    RockPaperScissors)
    ensures
        outcome(*opponent_played, r) == *win_lose_or_draw,
{
    if *win_lose_or_draw == WinLossDraw::Draw {
        return *opponent_played;
    } else if *win_lose_or_draw == rock_paper_scissors(opponent_played, &RockPaperScissors::Rock) {
        return RockPaperScissors::Rock;
    } else if *win_lose_or_draw == rock_paper_scissors(opponent_played, &RockPaperScissors::Paper) {
        return RockPaperScissors::Paper;
    }
    RockPaperScissors::Scissors
}

/// The score of a round: the points of the result and of the shape played.
pub fn calculate_score(game_result: &WinLossDraw, you_played: &RockPaperScissors) -> (r: u32)
    ensures
        r == result_points(*game_result) + shape_points(*you_played),
{
    game_result.value() + you_played.value()
}

/// The score of a round when the second letter is the shape to play.
pub open spec fn round_score_part_one(round: (Seq<char>, Seq<char>)) -> nat {
    let you = shape_of(round.1);
    result_points(outcome(shape_of(round.0), you)) + shape_points(you)
}

/// The score of a round when the second letter is the result to reach.
pub open spec fn round_score_part_two(round: (Seq<char>, Seq<char>)) -> nat {
    let result = result_of(round.1);
    let opponent = shape_of(round.0);
    let you = if result == WinLossDraw::Draw {
        opponent
    } else if result == outcome(opponent, RockPaperScissors::Rock) {
        RockPaperScissors::Rock
    } else if result == outcome(opponent, RockPaperScissors::Paper) {
        RockPaperScissors::Paper
    } else {
        RockPaperScissors::Scissors
    };
    result_points(result) + shape_points(you)
}

/// The rounds of a guide, as pairs of letters.
pub open spec fn rounds_view(games: Seq<(String, String)>) -> Seq<(Seq<char>, Seq<char>)> {
    games.map_values(|g: (String, String)| (g.0@, g.1@))
}

/// The sum of `f` over the rounds.
pub open spec fn total_score(
    rounds: Seq<(Seq<char>, Seq<char>)>,
    f: spec_fn((Seq<char>, Seq<char>)) -> nat,
) -> nat
    decreases rounds.len(),
{
    if rounds.len() == 0 {
        0
    } else {
        total_score(rounds.drop_last(), f) + f(rounds.last())
    }
}

/// A round scores at most nine points under either reading.
pub proof fn lemma_total_score_bound(
    rounds: Seq<(Seq<char>, Seq<char>)>,
    f: spec_fn((Seq<char>, Seq<char>)) -> nat,
)
    requires
        forall|g: (Seq<char>, Seq<char>)| #[trigger] f(g) <= 9,
    ensures
        total_score(rounds, f) <= 9 * rounds.len(),
    decreases rounds.len(),
{
    if rounds.len() > 0 {
        lemma_total_score_bound(rounds.drop_last(), f);
    }
}

/// The largest number of rounds whose total score surely fits a `u32`.
pub const MAX_ROUNDS: usize = 400000000;

/// The total score when the second column is the shape to play.
pub fn calculate_total_tournament_score_part_one(games: &Vec<(String, String)>) -> (r: u32)
    requires
        games.len() <= MAX_ROUNDS,
    ensures
        r == total_score(rounds_view(games@), |g| round_score_part_one(g)),
{
    let ghost f = |g| round_score_part_one(g);
    let mut total: u32 = 0;
    let mut i: usize = 0;
    while i < games.len()
        invariant
            i <= games.len() <= MAX_ROUNDS,
            f == (|g| round_score_part_one(g)),
            total == total_score(rounds_view(games@).take(i as int), f),
        decreases games.len() - i,
    {
        let you_played = RockPaperScissors::from(games[i].1.as_str());
        let game_result = rock_paper_scissors(
            &RockPaperScissors::from(games[i].0.as_str()),
            &you_played,
        );
        let score = calculate_score(&game_result, &you_played);
        proof {
            assert(rounds_view(games@).take(i + 1).drop_last() =~= rounds_view(games@).take(
                i as int,
            ));
            assert(forall|g: (Seq<char>, Seq<char>)| #[trigger] f(g) <= 9);
            lemma_total_score_bound(rounds_view(games@).take(i as int), f);
        }
        total = total + score;
        i = i + 1;
    }
    assert(rounds_view(games@).take(i as int) =~= rounds_view(games@));
    total
}

/// The total score when the second column is the result to reach.
pub fn calculate_total_tournament_score_part_two(games: &Vec<(String, String)>) -> (r: u32)
    requires
        games.len() <= MAX_ROUNDS,
    ensures
        r == total_score(rounds_view(games@), |g| round_score_part_two(g)),
{
    let ghost f = |g| round_score_part_two(g);
    let mut total: u32 = 0;
    let mut i: usize = 0;
    while i < games.len()
        invariant
            i <= games.len() <= MAX_ROUNDS,
            f == (|g| round_score_part_two(g)),
            total == total_score(rounds_view(games@).take(i as int), f),
        decreases games.len() - i,
    {
        let game_result = WinLossDraw::from(games[i].1.as_str());
        let you_played = find_move_to_play(
            &game_result,
            &RockPaperScissors::from(games[i].0.as_str()),
        );
        let score = calculate_score(&game_result, &you_played);
        proof {
            assert(rounds_view(games@).take(i + 1).drop_last() =~= rounds_view(games@).take(
                i as int,
            ));
            assert(forall|g: (Seq<char>, Seq<char>)| #[trigger] f(g) <= 9);
            lemma_total_score_bound(rounds_view(games@).take(i as int), f);
        }
        total = total + score;
        i = i + 1;
    }
    assert(rounds_view(games@).take(i as int) =~= rounds_view(games@));
    total
}

/// The first two space-separated fields of a line.
pub open spec fn two_fields(line: Seq<char>) -> Result<(Seq<char>, Seq<char>), PuzzleError> {
    let p = split(line, seq![' ']);
    if p.len() < 2 {
        Err(PuzzleError::MissingField)
    } else {
        Ok((p[0], p[1]))
    }
}

/// A pair of strings seen as a pair of character sequences.
pub open spec fn pair_view(p: (String, String)) -> (Seq<char>, Seq<char>) {
    (p.0@, p.1@)
}

/// The first two space-separated fields of a line: a line with no space
/// has no second field.
pub fn extract_two_letters_separated_by_space(possibly_two_letters_separated_by_space: &str) -> (r:
    Result<(String, String), PuzzleError>)
    ensures
        r matches Ok(v) ==> two_fields(possibly_two_letters_separated_by_space@) == Ok::<
            (Seq<char>, Seq<char>),
            PuzzleError,
        >(pair_view(v)),
        r matches Err(e) ==> two_fields(possibly_two_letters_separated_by_space@) == Err::<
            (Seq<char>, Seq<char>),
            PuzzleError,
        >(e),
{
    let fields = split_char(possibly_two_letters_separated_by_space, ' ');
    if fields.len() < 2 {
        return Err(PuzzleError::MissingField);
    }
    assert(fields@[0]@ == str_views(fields@)[0]);
    assert(fields@[1]@ == str_views(fields@)[1]);
    Ok((fields[0].to_owned(), fields[1].to_owned()))
}

/// The check of a round's two letters: A, B or C, then X, Y or Z.
pub open spec fn letters_check(first: Seq<char>, second: Seq<char>) -> Result<(), PuzzleError> {
    if !(first == seq!['A'] || first == seq!['B'] || first == seq!['C']) {
        Err(PuzzleError::InvalidFirstColumn)
    } else if !(second == seq!['X'] || second == seq!['Y'] || second == seq!['Z']) {
        Err(PuzzleError::InvalidSecondColumn)
    } else {
        Ok(())
    }
}

/// Checks that the first letter is A, B or C and the second X, Y or Z.
pub fn check_letters_are_valid(input: &(String, String)) -> (r: Result<(), PuzzleError>)
    ensures
        r == letters_check(input.0@, input.1@),
{
    let first = input.0.as_str();
    let second = input.1.as_str();
    if !(is_single(first, 'A') || is_single(first, 'B') || is_single(first, 'C')) {
        return Err(PuzzleError::InvalidFirstColumn);
    }
    if !(is_single(second, 'X') || is_single(second, 'Y') || is_single(second, 'Z')) {
        return Err(PuzzleError::InvalidSecondColumn);
    }
    Ok(())
}

/// What a line of the guide reads as: its two letters, once checked.
pub open spec fn line_spec(line: Seq<char>) -> Result<(Seq<char>, Seq<char>), PuzzleError> {
    match two_fields(line) {
        Err(e) => Err(e),
        Ok(p) => match letters_check(p.0, p.1) {
            Err(e) => Err(e),
            Ok(_) => Ok(p),
        },
    }
}

/// The two letters of a line, checked.
pub fn extract_letters_and_validate(any_string: &str) -> (r: Result<(String, String), PuzzleError>)
    ensures
        r matches Ok(v) ==> line_spec(any_string@) == Ok::<(Seq<char>, Seq<char>), PuzzleError>(
            pair_view(v),
        ),
        r matches Err(e) ==> line_spec(any_string@) == Err::<(Seq<char>, Seq<char>), PuzzleError>(
            e,
        ),
{
    let extracted_letters = extract_two_letters_separated_by_space(any_string)?;
    check_letters_are_valid(&extracted_letters)?;
    Ok(extracted_letters)
}

/// What a whole guide reads as: its rounds, or the first line's error.
pub open spec fn guide_spec(s: Seq<char>) -> Result<Seq<(Seq<char>, Seq<char>)>, PuzzleError> {
    collect_all(split(s, seq!['\n']), |l| line_spec(l))
}

/// Reads a strategy guide: one round per line.
pub fn parse_rock_paper_scissors_games(unparsed_games: &str) -> (r: Result<
    Vec<(String, String)>,
    PuzzleError,
>)
    ensures
        r matches Ok(v) ==> guide_spec(unparsed_games@) == Ok::<
            Seq<(Seq<char>, Seq<char>)>,
            PuzzleError,
        >(rounds_view(v@)),
        r matches Err(e) ==> guide_spec(unparsed_games@) == Err::<
            Seq<(Seq<char>, Seq<char>)>,
            PuzzleError,
        >(e),
{
    let lines = split_char(unparsed_games, '\n');
    let ghost f = |l| line_spec(l);
    let ghost ls = split(unparsed_games@, seq!['\n']);
    let mut games: Vec<(String, String)> = Vec::new();
    let mut i: usize = 0;
    assert(ls.take(0) =~= seq![]);
    assert(rounds_view(games@) =~= seq![]);
    while i < lines.len()
        invariant
            i <= lines.len(),
            str_views(lines@) == ls,
            f == (|l| line_spec(l)),
            ls == split(unparsed_games@, seq!['\n']),
            collect_all(ls.take(i as int), f) == Ok::<Seq<(Seq<char>, Seq<char>)>, PuzzleError>(
                rounds_view(games@),
            ),
        decreases lines.len() - i,
    {
        assert(ls.take(i + 1).drop_last() =~= ls.take(i as int));
        assert(lines@[i as int]@ == ls[i as int]);
        match extract_letters_and_validate(lines[i]) {
            Ok(game) => {
                let ghost old_games = games@;
                games.push(game);
                assert(rounds_view(games@) =~= rounds_view(old_games).push(pair_view(game)));
            },
            Err(e) => {
                proof {
                    lemma_collect_all_err(ls, f, i + 1);
                }
                return Err(e);
            },
        }
        i = i + 1;
    }
    assert(ls.take(i as int) =~= ls);
    Ok(games)
}

impl Parse for NewDay2Puzzle {
    type Day = Day2Puzzle;

    fn parse_input(&self, puzzle_input: &str) -> (r: Result<Day2Puzzle, PuzzleError>)
        ensures
            r matches Ok(d) ==> guide_spec(puzzle_input@) == Ok::<
                Seq<(Seq<char>, Seq<char>)>,
                PuzzleError,
            >(rounds_view(d.parsed_input@)),
            r matches Err(e) ==> guide_spec(puzzle_input@) == Err::<
                Seq<(Seq<char>, Seq<char>)>,
                PuzzleError,
            >(e),
    {
        let parsed_input = parse_rock_paper_scissors_games(puzzle_input)?;
        Ok(Day2Puzzle { parsed_input })
    }
}

impl AdventDay for Day2Puzzle {
    fn solve_first_puzzle(&self) -> (r: Result<String, PuzzleError>)
        ensures
            r is Ok <==> self.parsed_input.len() <= MAX_ROUNDS,
            r matches Ok(s) ==> s@ == decimal_digits(
                total_score(rounds_view(self.parsed_input@), |g| round_score_part_one(g)),
            ),
    {
        if self.parsed_input.len() > MAX_ROUNDS {
            return Err(PuzzleError::Overflow);
        }
        let score = calculate_total_tournament_score_part_one(&self.parsed_input);
        Ok(u64_to_string(score as u64))
    }

    fn solve_second_puzzle(&self) -> (r: Result<String, PuzzleError>)
        ensures
            r is Ok <==> self.parsed_input.len() <= MAX_ROUNDS,
            r matches Ok(s) ==> s@ == decimal_digits(
                total_score(rounds_view(self.parsed_input@), |g| round_score_part_two(g)),
            ),
    {
        if self.parsed_input.len() > MAX_ROUNDS {
            return Err(PuzzleError::Overflow);
        }
        let score = calculate_total_tournament_score_part_two(&self.parsed_input);
        Ok(u64_to_string(score as u64))
    }
}

} // verus!
