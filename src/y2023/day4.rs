//! Scratchcards: each card's matching numbers, its worth, and the copies
//! that matches win.
use vstd::prelude::*;

use std::collections::HashSet;

use crate::advent::{AdventDay, Parse, PuzzleError};
use crate::text::{
    decimal_digits,
    chars_of, collect_all, lemma_collect_all_err, parse_u32, read_unsigned, split, split_by,
    split_char, str_views, u64_to_string,
};

verus! {

broadcast use vstd::std_specs::hash::group_hash_axioms;

use vstd::std_specs::hash::spec_hash_keys_iter;
use vstd::std_specs::iter::IteratorSpec;

/// The parser of this day's puzzle input.
pub struct NewDay4Puzzle {}

/// The cards, in input order.
pub struct Day4Puzzle {
    pub parsed_input: Vec<Card>,
}

/// A card's winning numbers and the numbers it holds.
#[derive(Debug, PartialEq)]
pub struct Card {
    pub winning_numbers: HashSet<u32>,
    pub card_numbers: HashSet<u32>,
}

/// The numbers that the non-empty pieces of a space-separated list hold;
/// an error when a non-empty piece is not a `u32`.
pub open spec fn number_set(pieces: Seq<Seq<char>>) -> Result<Set<u32>, PuzzleError>
    decreases pieces.len(),
{
    if pieces.len() == 0 {
        Ok(Set::empty())
    } else {
        match number_set(pieces.drop_last()) {
            Err(e) => Err(e),
            Ok(s) => if pieces.last().len() == 0 {
                Ok(s)
            } else {
                match read_unsigned(pieces.last(), u32::MAX as nat + 1) {
                    None => Err(PuzzleError::InvalidNumber),
                    Some(v) => Ok(s.insert(v as u32)),
                }
            },
        }
    }
}

/// Once a prefix has failed, the whole fails the same way.
pub proof fn lemma_number_set_err(pieces: Seq<Seq<char>>, i: int)
    requires
        0 <= i <= pieces.len(),
        number_set(pieces.take(i)) is Err,
    ensures
        number_set(pieces) == number_set(pieces.take(i)),
    decreases pieces.len(),
{
    if i < pieces.len() {
        assert(pieces.drop_last().take(i) =~= pieces.take(i));
        lemma_number_set_err(pieces.drop_last(), i);
    } else {
        assert(pieces.take(i) =~= pieces);
    }
}

/// Reads a list of numbers separated by one or more spaces into a set.
pub fn parse_numbers_into_hashset(numbers: &str) -> (r: Result<HashSet<u32>, PuzzleError>)
    ensures
        r matches Ok(s) ==> number_set(split(numbers@, seq![' '])) == Ok::<Set<u32>, PuzzleError>(
            s@,
        ),
        r matches Err(e) ==> number_set(split(numbers@, seq![' '])) == Err::<Set<u32>, PuzzleError>(
            e,
        ),
{
    let pieces = split_char(numbers, ' ');
    let ghost ps = split(numbers@, seq![' ']);
    let mut set: HashSet<u32> = HashSet::new();
    let mut i: usize = 0;
    assert(ps.take(0) =~= seq![]);
    assert(set@ =~= Set::<u32>::empty());
    while i < pieces.len()
        invariant
            i <= pieces.len(),
            str_views(pieces@) == ps,
            ps == split(numbers@, seq![' ']),
            number_set(ps.take(i as int)) == Ok::<Set<u32>, PuzzleError>(set@),
        decreases pieces.len() - i,
    {
        assert(ps.take(i + 1).drop_last() =~= ps.take(i as int));
        assert(pieces@[i as int]@ == ps[i as int]);
        if pieces[i].unicode_len() > 0 {
            match parse_u32(&chars_of(pieces[i])) {
                Some(v) => {
                    set.insert(v);
                },
                None => {
                    proof {
                        lemma_number_set_err(ps, i + 1);
                    }
                    return Err(PuzzleError::InvalidNumber);
                },
            }
        }
        i = i + 1;
    }
    assert(ps.take(i as int) =~= ps);
    Ok(set)
}

/// The pieces of each part split again on ` | `, all in one sequence.
pub open spec fn flat_pieces(parts: Seq<Seq<char>>) -> Seq<Seq<char>>
    decreases parts.len(),
{
    if parts.len() == 0 {
        seq![]
    } else {
        flat_pieces(parts.drop_last()) + split(parts.last(), seq![' ', '|', ' '])
    }
}

/// The two lists of a card line `Card n: winning | held`: the line split on
/// `: ` and each part on ` | `, then the second and third pieces.
pub open spec fn card_components(line: Seq<char>) -> Option<(Seq<char>, Seq<char>)> {
    let f = flat_pieces(split(line, seq![':', ' ']));
    if f.len() < 3 {
        None
    } else {
        Some((f[1], f[2]))
    }
}

/// Splits a card line into its winning numbers and the numbers it holds.
pub fn parse_card_components(card_line: &str) -> (r: Result<(&str, &str), PuzzleError>)
    ensures
        r matches Ok(p) ==> card_components(card_line@) == Some((p.0@, p.1@)),
        r is Err ==> card_components(card_line@) is None,
{
    let sep = vec![':', ' '];
    assert(sep@ =~= seq![':', ' ']);
    let bar = vec![' ', '|', ' '];
    assert(bar@ =~= seq![' ', '|', ' ']);
    let parts = split_by(card_line, &sep);
    let ghost ps = split(card_line@, seq![':', ' ']);
    let mut flat: Vec<&str> = Vec::new();
    let mut i: usize = 0;
    assert(ps.take(0) =~= seq![]);
    assert(str_views(flat@) =~= seq![]);
    while i < parts.len()
        invariant
            i <= parts.len(),
            str_views(parts@) == ps,
            bar@ == seq![' ', '|', ' '],
            str_views(flat@) == flat_pieces(ps.take(i as int)),
        decreases parts.len() - i,
    {
        assert(ps.take(i + 1).drop_last() =~= ps.take(i as int));
        assert(parts@[i as int]@ == ps[i as int]);
        let pieces = split_by(parts[i], &bar);
        let mut k: usize = 0;
        let ghost before = str_views(flat@);
        assert(str_views(pieces@).take(0) =~= seq![]);
        assert(before =~= before + str_views(pieces@).take(0));
        while k < pieces.len()
            invariant
                k <= pieces.len(),
                str_views(flat@) == before + str_views(pieces@).take(k as int),
            decreases pieces.len() - k,
        {
            let ghost old_flat = flat@;
            flat.push(pieces[k]);
            assert(str_views(flat@) =~= str_views(old_flat).push(pieces@[k as int]@));
            k = k + 1;
            assert(str_views(flat@) =~= before + str_views(pieces@).take(k as int));
        }
        assert(str_views(pieces@).take(k as int) =~= str_views(pieces@));
        i = i + 1;
    }
    assert(ps.take(i as int) =~= ps);
    if flat.len() < 3 {
        return Err(PuzzleError::MissingField);
    }
    assert(flat@[1]@ == str_views(flat@)[1]);
    assert(flat@[2]@ == str_views(flat@)[2]);
    Ok((flat[1], flat[2]))
}

/// What a card line reads as: its two sets of numbers.
pub open spec fn card_spec(line: Seq<char>) -> Result<(Set<u32>, Set<u32>), PuzzleError> {
    match card_components(line) {
        None => Err(PuzzleError::MissingField),
        Some((w, c)) => match number_set(split(w, seq![' '])) {
            Err(e) => Err(e),
            Ok(ws) => match number_set(split(c, seq![' '])) {
                Err(e) => Err(e),
                Ok(cs) => Ok((ws, cs)),
            },
        },
    }
}

/// A card as its two sets.
pub open spec fn card_view(c: Card) -> (Set<u32>, Set<u32>) {
    (c.winning_numbers@, c.card_numbers@)
}

/// Reads one card line.
pub fn parse_card(line: &str) -> (r: Result<Card, PuzzleError>)
    ensures
        r matches Ok(c) ==> card_spec(line@) == Ok::<(Set<u32>, Set<u32>), PuzzleError>(
            card_view(c),
        ),
        r matches Err(e) ==> card_spec(line@) == Err::<(Set<u32>, Set<u32>), PuzzleError>(e),
{
    let (winning_numbers, card_numbers) = match parse_card_components(line) {
        Ok(p) => p,
        Err(_) => return Err(PuzzleError::MissingField),
    };
    let winning_numbers = parse_numbers_into_hashset(winning_numbers)?;
    let card_numbers = parse_numbers_into_hashset(card_numbers)?;
    Ok(Card::new(winning_numbers, card_numbers))
}

/// What the list of cards reads as: one card per line.
pub open spec fn cards_spec(s: Seq<char>) -> Result<Seq<(Set<u32>, Set<u32>)>, PuzzleError> {
    collect_all(split(s, seq!['\n']), |l| card_spec(l))
}

/// Reads the cards, one per line.
pub fn parse_input_into_cards(input: &str) -> (r: Result<Vec<Card>, PuzzleError>)
    ensures
        r matches Ok(v) ==> cards_spec(input@) == Ok::<Seq<(Set<u32>, Set<u32>)>, PuzzleError>(
            v@.map_values(|c: Card| card_view(c)),
        ),
        r matches Err(e) ==> cards_spec(input@) == Err::<Seq<(Set<u32>, Set<u32>)>, PuzzleError>(
            e,
        ),
{
    let lines = split_char(input, '\n');
    let ghost ls = split(input@, seq!['\n']);
    let ghost f = |l| card_spec(l);
    let mut cards: Vec<Card> = Vec::new();
    let mut i: usize = 0;
    assert(ls.take(0) =~= seq![]);
    assert(cards@.map_values(|c: Card| card_view(c)) =~= seq![]);
    while i < lines.len()
        invariant
            i <= lines.len(),
            str_views(lines@) == ls,
            ls == split(input@, seq!['\n']),
            f == (|l| card_spec(l)),
            collect_all(ls.take(i as int), f) == Ok::<Seq<(Set<u32>, Set<u32>)>, PuzzleError>(
                cards@.map_values(|c: Card| card_view(c)),
            ),
        decreases lines.len() - i,
    {
        assert(ls.take(i + 1).drop_last() =~= ls.take(i as int));
        assert(lines@[i as int]@ == ls[i as int]);
        match parse_card(lines[i]) {
            Ok(c) => {
                let ghost old_v = cards@;
                let ghost cv = card_view(c);
                cards.push(c);
                assert(cards@.map_values(|c: Card| card_view(c)) =~= old_v.map_values(
                    |c: Card| card_view(c),
                ).push(cv));
            },
            Err(e) => {
                proof {
                    lemma_collect_all_err(ls, f, i + 1);
                }
                return Err(e);
            },
        }
        i = i + 1;
    }
    assert(ls.take(i as int) =~= ls);
    Ok(cards)
}

/// A card's worth for `m` matches: nothing without a match, then one
/// point doubled for each match after the first.
pub open spec fn worth(m: nat) -> nat
    decreases m,
{
    if m == 0 {
        0
    } else if m == 1 {
        1
    } else {
        2 * worth((m - 1) as nat)
    }
}

impl Card {
    pub fn new(winning_numbers: HashSet<u32>, card_numbers: HashSet<u32>) -> (r: Card)
        ensures
            r.winning_numbers@ == winning_numbers@,
            r.card_numbers@ == card_numbers@,
    {
        Card { winning_numbers, card_numbers }
    }

    /// The number of winning numbers that the card holds.
    pub fn calculate_matches(&self) -> (r: usize)
        ensures
            r as nat == self.winning_numbers@.intersect(self.card_numbers@).len(),
    {
        let ghost pred = |x: u32| self.card_numbers@.contains(x);
        let n = self.winning_numbers.len();
        let mut count: usize = 0;
        let ghost all = spec_hash_keys_iter(&self.winning_numbers).remaining().unref();
        for x in it: self.winning_numbers.iter()
            invariant
                pred == (|x: u32| self.card_numbers@.contains(x)),
                n == self.winning_numbers@.len(),
                all == it.seq().unref(),
                all.len() == n,
                count as nat == all.take(it.index() as int).filter(pred).len(),
                count <= it.index(),
        {
            proof {
                reveal(Seq::filter);
                assert(all.take(it.index() + 1).drop_last() =~= all.take(it.index() as int));
            }
            if self.card_numbers.contains(x) {
                count = count + 1;
            }
        }
        proof {
            assert(all.take(all.len() as int) =~= all);
            lemma_filter_set(all, self.winning_numbers@, self.card_numbers@, pred);
        }
        count
    }
}

impl Card {
    /// The card's worth: nothing without a match, else one point doubled
    /// for each match after the first; `None` when that does not fit a
    /// `u32`.
    pub fn calculate_worth(&self) -> (r: Option<u32>)
        ensures
            r matches Some(v) ==> v as nat == worth(
                self.winning_numbers@.intersect(self.card_numbers@).len(),
            ),
            r is None ==> worth(self.winning_numbers@.intersect(self.card_numbers@).len())
                > u32::MAX,
    {
        let m = self.calculate_matches();
        if m == 0 {
            return Some(0);
        }
        let mut w: u32 = 1;
        let mut k: usize = 1;
        while k < m
            invariant
                1 <= k <= m,
                w as nat == worth(k as nat),
                m as nat == self.winning_numbers@.intersect(self.card_numbers@).len(),
            decreases m - k,
        {
            if w > u32::MAX / 2 {
                assert(worth((k + 1) as nat) == 2 * worth(k as nat));
                assert(worth((k + 1) as nat) > u32::MAX);
                proof {
                    lemma_worth_grows((k + 1) as nat, m as nat);
                }
                assert(worth(m as nat) > u32::MAX);
                return None;
            }
            w = w * 2;
            k = k + 1;
        }
        Some(w)
    }
}

/// Worth only grows with the number of matches.
proof fn lemma_worth_grows(a: nat, b: nat)
    requires
        1 <= a <= b,
    ensures
        worth(a) <= worth(b),
    decreases b - a,
{
    if a < b {
        lemma_worth_grows(a, (b - 1) as nat);
        lemma_worth_positive((b - 1) as nat);
    }
}

/// A card with a match is worth at least one point.
proof fn lemma_worth_positive(m: nat)
    requires
        m >= 1,
    ensures
        worth(m) >= 1,
    decreases m,
{
    if m > 1 {
        lemma_worth_positive((m - 1) as nat);
    }
}

/// The number of matches of a card seen as two sets.
pub open spec fn matches_of(c: (Set<u32>, Set<u32>)) -> nat {
    c.0.intersect(c.1).len()
}

/// The sum of the cards' worths; an error when it does not fit a `u32`.
pub open spec fn worth_sum(cards: Seq<(Set<u32>, Set<u32>)>) -> Result<nat, PuzzleError>
    decreases cards.len(),
{
    if cards.len() == 0 {
        Ok(0)
    } else {
        match worth_sum(cards.drop_last()) {
            Err(e) => Err(e),
            Ok(t) => if t + worth(matches_of(cards.last())) > u32::MAX {
                Err(PuzzleError::Overflow)
            } else {
                Ok(t + worth(matches_of(cards.last())))
            },
        }
    }
}

/// Once a prefix has failed, the whole fails the same way.
pub proof fn lemma_worth_sum_err(cards: Seq<(Set<u32>, Set<u32>)>, i: int)
    requires
        0 <= i <= cards.len(),
        worth_sum(cards.take(i)) is Err,
    ensures
        worth_sum(cards) == worth_sum(cards.take(i)),
    decreases cards.len(),
{
    if i < cards.len() {
        assert(cards.drop_last().take(i) =~= cards.take(i));
        lemma_worth_sum_err(cards.drop_last(), i);
    } else {
        assert(cards.take(i) =~= cards);
    }
}

/// The sum of the worths of the cards.
pub fn calculate_sum_of_card_worths(cards: &Vec<Card>) -> (r: Result<u32, PuzzleError>)
    ensures
        r matches Ok(v) ==> worth_sum(cards@.map_values(|c: Card| card_view(c))) == Ok::<
            nat,
            PuzzleError,
        >(v as nat),
        r matches Err(e) ==> worth_sum(cards@.map_values(|c: Card| card_view(c))) == Err::<
            nat,
            PuzzleError,
        >(e),
{
    let ghost cs = cards@.map_values(|c: Card| card_view(c));
    let mut total: u32 = 0;
    let mut i: usize = 0;
    assert(cs.take(0) =~= seq![]);
    while i < cards.len()
        invariant
            i <= cards.len(),
            cs == cards@.map_values(|c: Card| card_view(c)),
            worth_sum(cs.take(i as int)) == Ok::<nat, PuzzleError>(total as nat),
        decreases cards.len() - i,
    {
        assert(cs.take(i + 1).drop_last() =~= cs.take(i as int));
        assert(cs[i as int] == card_view(cards@[i as int]));
        match cards[i].calculate_worth() {
            Some(w) => {
                if total > u32::MAX - w {
                    proof {
                        lemma_worth_sum_err(cs, i + 1);
                    }
                    return Err(PuzzleError::Overflow);
                }
                total = total + w;
            },
            None => {
                proof {
                    lemma_worth_sum_err(cs, i + 1);
                }
                return Err(PuzzleError::Overflow);
            },
        }
        i = i + 1;
    }
    assert(cs.take(i as int) =~= cs);
    Ok(total)
}

/// `c` with `v` added to the counts at positions `from` to `to` (excluded).
pub open spec fn add_copies(c: Seq<nat>, from: int, to: int, v: nat) -> Seq<nat> {
    Seq::new(c.len(), |x: int| if from <= x < to { c[x] + v } else { c[x] })
}

/// The number of copies of each card once the first `k` cards are scored:
/// every copy of card `i` wins one copy of each of the `ms[i]` cards after
/// it. An error when a card wins copies of cards past the last one, or a
/// count does not fit a `u32`.
pub open spec fn copies_after(ms: Seq<nat>, k: int) -> Result<Seq<nat>, PuzzleError>
    decreases k,
{
    if k <= 0 {
        Ok(Seq::new(ms.len(), |x: int| 1nat))
    } else {
        match copies_after(ms, k - 1) {
            Err(e) => Err(e),
            Ok(c) => {
                let i = k - 1;
                if i + ms[i] >= ms.len() && ms[i] > 0 {
                    Err(PuzzleError::MissingField)
                } else {
                    let c2 = add_copies(c, i + 1, i + 1 + ms[i], c[i]);
                    if exists|x: int| 0 <= x < c2.len() && #[trigger] c2[x] > u32::MAX {
                        Err(PuzzleError::Overflow)
                    } else {
                        Ok(c2)
                    }
                }
            },
        }
    }
}

/// The total number of cards once all copies are won.
pub open spec fn card_count(ms: Seq<nat>) -> Result<nat, PuzzleError> {
    match copies_after(ms, ms.len() as int) {
        Err(e) => Err(e),
        Ok(c) => if crate::text::seq_sum(c) > u32::MAX {
            Err(PuzzleError::Overflow)
        } else {
            Ok(crate::text::seq_sum(c))
        },
    }
}

/// Once the scoring has failed, it stays failed.
proof fn lemma_copies_err(ms: Seq<nat>, k: int)
    requires
        0 <= k <= ms.len(),
        copies_after(ms, k) is Err,
    ensures
        copies_after(ms, ms.len() as int) == copies_after(ms, k),
    decreases ms.len() - k,
{
    if k < ms.len() {
        lemma_copies_err(ms, k + 1);
    }
}

/// The total number of scratchcards once every card's matches have won
/// their copies.
pub fn calculate_count_of_cards(cards: &Vec<Card>) -> (r: Result<u32, PuzzleError>)
    ensures
        r matches Ok(v) ==> card_count(
            cards@.map_values(|c: Card| matches_of(card_view(c))),
        ) == Ok::<nat, PuzzleError>(v as nat),
        r matches Err(e) ==> card_count(
            cards@.map_values(|c: Card| matches_of(card_view(c))),
        ) == Err::<nat, PuzzleError>(e),
{
    let ghost ms = cards@.map_values(|c: Card| matches_of(card_view(c)));
    let n = cards.len();
    let mut card_counts: Vec<u32> = Vec::new();
    let mut j: usize = 0;
    while j < n
        invariant
            j <= n,
            card_counts@.map_values(|x: u32| x as nat) == Seq::new(j as nat, |x: int| 1nat),
        decreases n - j,
    {
        let ghost old_counts = card_counts@;
        card_counts.push(1);
        assert(card_counts@.map_values(|x: u32| x as nat) =~= old_counts.map_values(
            |x: u32| x as nat,
        ).push(1nat));
        j = j + 1;
        assert(card_counts@.map_values(|x: u32| x as nat) =~= Seq::new(j as nat, |x: int| 1nat));
    }
    assert(ms.len() == n);
    assert(card_counts@.map_values(|x: u32| x as nat) =~= Seq::new(ms.len(), |x: int| 1nat));
    let mut index: usize = 0;
    while index < n
        invariant
            index <= n == cards.len() == ms.len(),
            ms == cards@.map_values(|c: Card| matches_of(card_view(c))),
            card_counts.len() == n,
            copies_after(ms, index as int) == Ok::<Seq<nat>, PuzzleError>(
                card_counts@.map_values(|x: u32| x as nat),
            ),
        decreases n - index,
    {
        let card_matches = cards[index].calculate_matches();
        assert(card_matches == ms[index as int]);
        if card_matches > 0 && card_matches >= n - index {
            proof {
                lemma_copies_err(ms, index + 1);
            }
            return Err(PuzzleError::MissingField);
        }
        let ghost before = card_counts@.map_values(|x: u32| x as nat);
        let add = card_counts[index];
        let mut k: usize = 1;
        while k <= card_matches
            invariant
                1 <= k <= card_matches + 1,
                index + card_matches < n,
                index < n == cards.len() == ms.len(),
                before.len() == n,
                card_matches == ms[index as int],
                ms == cards@.map_values(|c: Card| matches_of(card_view(c))),
                copies_after(ms, index as int) == Ok::<Seq<nat>, PuzzleError>(before),
                card_counts.len() == n,
                add as nat == before[index as int],
                card_counts@.map_values(|x: u32| x as nat) == add_copies(
                    before,
                    index + 1,
                    index + k,
                    add as nat,
                ),
            decreases card_matches + 1 - k,
        {
            let t = index + k;
            assert(card_counts@.map_values(|x: u32| x as nat)[t as int] == before[t as int]);
            if card_counts[t] > u32::MAX - add {
                proof {
                    let c2 = add_copies(before, index + 1, index + 1 + card_matches, add as nat);
                    assert(c2[t as int] > u32::MAX);
                    lemma_copies_err(ms, index + 1);
                }
                return Err(PuzzleError::Overflow);
            }
            let ghost old_counts = card_counts@;
            card_counts[t] = card_counts[t] + add;
            assert(card_counts@ == old_counts.update(t as int, (old_counts[t as int] + add) as u32));
            assert(card_counts@.map_values(|x: u32| x as nat) =~= old_counts.map_values(
                |x: u32| x as nat,
            ).update(t as int, before[t as int] + add as nat));
            k = k + 1;
            assert(card_counts@.map_values(|x: u32| x as nat) =~= add_copies(
                before,
                index + 1,
                index + k,
                add as nat,
            ));
        }
        proof {
            let c2 = add_copies(before, index + 1, index + 1 + card_matches, add as nat);
            assert(card_counts@.map_values(|x: u32| x as nat) =~= c2);
            assert(!(exists|x: int| 0 <= x < c2.len() && #[trigger] c2[x] > u32::MAX));
        }
        index = index + 1;
    }
    let ghost counts = card_counts@.map_values(|x: u32| x as nat);
    let mut total: u32 = 0;
    let mut i: usize = 0;
    assert(counts.take(0) =~= seq![]);
    while i < n
        invariant
            i <= n == card_counts.len(),
            n == ms.len(),
            counts == card_counts@.map_values(|x: u32| x as nat),
            ms == cards@.map_values(|c: Card| matches_of(card_view(c))),
            copies_after(ms, n as int) == Ok::<Seq<nat>, PuzzleError>(counts),
            total as nat == crate::text::seq_sum(counts.take(i as int)),
        decreases n - i,
    {
        assert(counts.take(i + 1).drop_last() =~= counts.take(i as int));
        if total > u32::MAX - card_counts[i] {
            proof {
                lemma_sum_prefix_le(counts, i + 1);
            }
            return Err(PuzzleError::Overflow);
        }
        total = total + card_counts[i];
        i = i + 1;
    }
    assert(counts.take(i as int) =~= counts);
    Ok(total)
}

/// The sum of a prefix is at most the sum of the whole.
proof fn lemma_sum_prefix_le(v: Seq<nat>, i: int)
    requires
        0 <= i <= v.len(),
    ensures
        crate::text::seq_sum(v.take(i)) <= crate::text::seq_sum(v),
    decreases v.len(),
{
    if i < v.len() {
        assert(v.drop_last().take(i) =~= v.take(i));
        lemma_sum_prefix_le(v.drop_last(), i);
    } else {
        assert(v.take(i) =~= v);
    }
}

impl Parse for NewDay4Puzzle {
    type Day = Day4Puzzle;

    fn parse_input(&self, puzzle_input: &str) -> (r: Result<Day4Puzzle, PuzzleError>)
        ensures
            r matches Ok(d) ==> cards_spec(puzzle_input@) == Ok::<
                Seq<(Set<u32>, Set<u32>)>,
                PuzzleError,
            >(d.parsed_input@.map_values(|c: Card| card_view(c))),
            r matches Err(e) ==> cards_spec(puzzle_input@) == Err::<
                Seq<(Set<u32>, Set<u32>)>,
                PuzzleError,
            >(e),
    {
        let parsed_input = parse_input_into_cards(puzzle_input)?;
        Ok(Day4Puzzle { parsed_input })
    }
}

impl AdventDay for Day4Puzzle {
    fn solve_first_puzzle(&self) -> (r: Result<String, PuzzleError>)
        ensures
            r matches Ok(s) ==> (worth_sum(self.parsed_input@.map_values(|c: Card| card_view(c)))
                matches Ok(v) && s@ == decimal_digits(v)),
            r matches Err(e) ==> worth_sum(self.parsed_input@.map_values(|c: Card| card_view(c)))
                == Err::<nat, PuzzleError>(e),
    {
        let total = calculate_sum_of_card_worths(&self.parsed_input)?;
        Ok(u64_to_string(total as u64))
    }

    fn solve_second_puzzle(&self) -> (r: Result<String, PuzzleError>)
        ensures
            r matches Ok(s) ==> (card_count(
                self.parsed_input@.map_values(|c: Card| matches_of(card_view(c))),
            ) matches Ok(v) && s@ == decimal_digits(v)),
            r matches Err(e) ==> card_count(
                self.parsed_input@.map_values(|c: Card| matches_of(card_view(c))),
            ) == Err::<nat, PuzzleError>(e),
    {
        let total = calculate_count_of_cards(&self.parsed_input)?;
        Ok(u64_to_string(total as u64))
    }
}

/// A sequence without repeats that lists a set, filtered by membership in
/// another set, lists their intersection.
proof fn lemma_filter_set(all: Seq<u32>, w: Set<u32>, c: Set<u32>, pred: spec_fn(u32) -> bool)
    requires
        all.no_duplicates(),
        all.to_set() == w,
        pred == (|x: u32| c.contains(x)),
    ensures
        all.filter(pred).len() == w.intersect(c).len(),
{
    let f = all.filter(pred);
    broadcast use vstd::seq_lib::group_filter_ensures;

    assert(f.no_duplicates()) by {
        lemma_filter_no_duplicates(all, pred);
    }
    assert(f.to_set() =~= w.intersect(c)) by {
        assert forall|x: u32| f.to_set().contains(x) <==> w.intersect(c).contains(x) by {
            if w.intersect(c).contains(x) {
                assert(all.contains(x));
                let i = choose|i: int| 0 <= i < all.len() && all[i] == x;
                assert(pred(all[i]));
                assert(f.contains(all[i]));
            }
            if f.to_set().contains(x) {
                assert(f.contains(x));
                let i = choose|i: int| 0 <= i < f.len() && f[i] == x;
                assert(pred(f[i]));
                assert(all.filter(pred).contains(x));
                lemma_filter_subset(all, pred, x);
            }
        }
    }
    f.unique_seq_to_set();
}

/// What a filter keeps comes from the sequence.
proof fn lemma_filter_subset(all: Seq<u32>, pred: spec_fn(u32) -> bool, x: u32)
    requires
        all.filter(pred).contains(x),
    ensures
        all.contains(x),
    decreases all.len(),
{
    reveal(Seq::filter);
    if all.len() > 0 {
        let rest = all.drop_last().filter(pred);
        if pred(all.last()) && x == all.last() {
            assert(all[all.len() - 1] == x);
        } else {
            if pred(all.last()) {
                let i = choose|i: int| 0 <= i < all.filter(pred).len() && all.filter(pred)[i] == x;
                assert(rest.push(all.last())[i] == x);
                assert(i < rest.len());
                assert(rest.contains(x));
            }
            lemma_filter_subset(all.drop_last(), pred, x);
            let j = choose|j: int| 0 <= j < all.drop_last().len() && all.drop_last()[j] == x;
            assert(all[j] == x);
        }
    }
}

/// Filtering keeps a sequence free of repeats.
proof fn lemma_filter_no_duplicates(all: Seq<u32>, pred: spec_fn(u32) -> bool)
    requires
        all.no_duplicates(),
    ensures
        all.filter(pred).no_duplicates(),
    decreases all.len(),
{
    reveal(Seq::filter);
    if all.len() > 0 {
        assert(all.drop_last().no_duplicates()) by {
            assert forall|i: int, j: int|
                0 <= i < all.drop_last().len() && 0 <= j < all.drop_last().len() && i != j implies all.drop_last()[i]
                != all.drop_last()[j] by {
                assert(all[i] != all[j]);
            }
        }
        lemma_filter_no_duplicates(all.drop_last(), pred);
        if pred(all.last()) {
            let rest = all.drop_last().filter(pred);
            if rest.contains(all.last()) {
                lemma_filter_subset(all.drop_last(), pred, all.last());
                let j = choose|j: int| 0 <= j < all.drop_last().len() && all.drop_last()[j] == all.last();
                assert(all[j] == all[all.len() - 1]);
            }
            assert forall|i: int, j: int|
                0 <= i < rest.push(all.last()).len() && 0 <= j < rest.push(all.last()).len() && i
                    != j implies rest.push(all.last())[i] != rest.push(all.last())[j] by {
                if i == rest.len() {
                    assert(rest[j] != all.last()) by {
                        if rest[j] == all.last() {
                            assert(rest.contains(all.last()));
                        }
                    }
                } else if j == rest.len() {
                    assert(rest[i] != all.last()) by {
                        if rest[i] == all.last() {
                            assert(rest.contains(all.last()));
                        }
                    }
                }
            }
        }
    }
}

} // verus!
