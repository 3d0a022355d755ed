//! Camel cards: scoring hands by their kind and their cards, with jacks
//! read as jokers in the second reading, and the winnings of the ranking.
use vstd::prelude::*;

use crate::advent::{AdventDay, Parse, PuzzleError};
use crate::text::{
    chars_of, collect_all, lemma_collect_all_err, parse_u32, read_unsigned, split, split_char,
    str_views, u64_to_string,
};

verus! {

pub const FIVE_OF_A_KIND_SCORE: u32 = 10000000;

pub const FOUR_OF_A_KIND_SCORE: u32 = 9000000;

pub const FULL_HOUSE_SCORE: u32 = 8000000;

pub const THREE_OF_A_KIND_SCORE: u32 = 7000000;

pub const TWO_PAIR_SCORE: u32 = 6000000;

pub const ONE_PAIR_SCORE: u32 = 5000000;

pub const HIGH_CARD_SCORE: u32 = 4000000;

/// The parser of this day's puzzle input.
pub struct NewDay7Puzzle {}

/// The hands ranked under each reading, weakest first.
pub struct Day7Puzzle {
    pub part_one_parsed_input: Vec<Hand>,
    pub part_two_parsed_input: Vec<Hand>,
}

/// A card that is neither a number nor one of `T J Q K A`.
#[derive(Debug, PartialEq, Eq, Structural, Clone, Copy)]
pub struct ParseCardError;

/// A card, by its value: 2 to 9, then 10 to 14 for `T J Q K A`.
#[derive(Debug, PartialEq, Eq, PartialOrd, Ord, Clone, Copy)]
pub struct Card(pub u32);

/// A hand: its score, its cards, and its bid.
#[derive(Debug, PartialEq, Eq, PartialOrd, Ord)]
pub struct Hand {
    pub value: u64,
    pub cards: Vec<Card>,
    pub bid: u32,
}

/// How many times each character occurs, characters in order of first
/// appearance.
pub open spec fn key_index(v: Seq<(char, u32)>, c: char) -> int
    decreases v.len(),
{
    if v.len() == 0 {
        -1
    } else if key_index(v.drop_last(), c) >= 0 {
        key_index(v.drop_last(), c)
    } else if v.last().0 == c {
        v.len() - 1
    } else {
        -1
    }
}

/// The position of `c` among the counted characters lies in range.
proof fn lemma_key_index_bounds(v: Seq<(char, u32)>, c: char)
    ensures
        -1 <= key_index(v, c) < v.len(),
        key_index(v, c) >= 0 ==> v[key_index(v, c)].0 == c,
        key_index(v, c) == -1 ==> forall|i: int| 0 <= i < v.len() ==> v[i].0 != c,
    decreases v.len(),
{
    if v.len() > 0 {
        lemma_key_index_bounds(v.drop_last(), c);
        if key_index(v, c) == -1 {
            assert forall|i: int| 0 <= i < v.len() implies v[i].0 != c by {
                if i < v.len() - 1 {
                    assert(v.drop_last()[i] == v[i]);
                }
            }
        }
    }
}

/// The counts of the characters of `s`, in order of first appearance.
pub open spec fn counts_spec(s: Seq<char>) -> Seq<(char, u32)>
    decreases s.len(),
{
    if s.len() == 0 {
        seq![]
    } else {
        let p = counts_spec(s.drop_last());
        let c = s.last();
        let k = key_index(p, c);
        if k >= 0 {
            p.update(k, (c, (p[k].1 + 1) as u32))
        } else {
            p.push((c, 1u32))
        }
    }
}

/// Each count is at most the length of the text counted.
proof fn lemma_counts_bound(s: Seq<char>)
    ensures
        forall|i: int| 0 <= i < counts_spec(s).len() ==> #[trigger] counts_spec(s)[i].1 <= s.len(),
        counts_spec(s).len() <= s.len(),
    decreases s.len(),
{
    if s.len() > 0 {
        lemma_counts_bound(s.drop_last());
        lemma_key_index_bounds(counts_spec(s.drop_last()), s.last());
    }
}

/// Counts the characters of a hand, in order of first appearance.
pub fn extract_character_counts_from_hand(hand: &str) -> (r: Vec<(char, u32)>)
    requires
        hand@.len() <= u32::MAX,
    ensures
        r@ == counts_spec(hand@),
{
    let chars = chars_of(hand);
    let mut char_counts: Vec<(char, u32)> = Vec::new();
    let mut i: usize = 0;
    assert(hand@.take(0) =~= seq![]);
    while i < chars.len()
        invariant
            i <= chars.len() <= u32::MAX,
            chars@ == hand@,
            char_counts@ == counts_spec(hand@.take(i as int)),
        decreases chars.len() - i,
    {
        let ghost prefix = hand@.take(i as int);
        assert(hand@.take(i + 1).drop_last() =~= prefix);
        proof {
            lemma_counts_bound(prefix);
            lemma_key_index_bounds(char_counts@, chars@[i as int]);
        }
        let c = chars[i];
        let mut k: usize = 0;
        while k < char_counts.len() && char_counts[k].0 != c
            invariant
                k <= char_counts.len(),
                forall|j: int| 0 <= j < k ==> char_counts@[j].0 != c,
            decreases char_counts.len() - k,
        {
            k = k + 1;
        }
        if k < char_counts.len() {
            proof {
                lemma_first_key(char_counts@, c, k as int);
            }
            let n = char_counts[k].1;
            assert(n <= i);
            char_counts.set(k, (c, n + 1));
        } else {
            char_counts.push((c, 1));
        }
        i = i + 1;
    }
    assert(hand@.take(i as int) =~= hand@);
    char_counts
}

/// The first entry with key `c` is where `key_index` points.
proof fn lemma_first_key(v: Seq<(char, u32)>, c: char, k: int)
    requires
        0 <= k < v.len(),
        v[k].0 == c,
        forall|j: int| 0 <= j < k ==> v[j].0 != c,
    ensures
        key_index(v, c) == k,
    decreases v.len(),
{
    lemma_key_index_bounds(v, c);
    if k < v.len() - 1 {
        lemma_first_key(v.drop_last(), c, k);
    } else {
        lemma_key_index_bounds(v.drop_last(), c);
    }
}

/// How many characters occur exactly `n` times.
pub open spec fn num_with(v: Seq<(char, u32)>, n: u32) -> nat
    decreases v.len(),
{
    if v.len() == 0 {
        0
    } else {
        num_with(v.drop_last(), n) + if v.last().1 == n {
            1nat
        } else {
            0nat
        }
    }
}

/// The score of a hand's kind: five, four of a kind, full house, three of
/// a kind, two pairs, one pair, high card.
pub open spec fn kind_score(v: Seq<(char, u32)>) -> u32 {
    if num_with(v, 5) > 0 {
        FIVE_OF_A_KIND_SCORE
    } else if num_with(v, 4) > 0 {
        FOUR_OF_A_KIND_SCORE
    } else if num_with(v, 3) > 0 && num_with(v, 2) > 0 {
        FULL_HOUSE_SCORE
    } else if num_with(v, 3) > 0 {
        THREE_OF_A_KIND_SCORE
    } else if num_with(v, 2) == 2 {
        TWO_PAIR_SCORE
    } else if num_with(v, 2) > 0 {
        ONE_PAIR_SCORE
    } else {
        HIGH_CARD_SCORE
    }
}

/// How many characters occur exactly `n` times.
fn count_with(v: &Vec<(char, u32)>, n: u32) -> (r: usize)
    ensures
        r == num_with(v@, n),
{
    let mut r: usize = 0;
    let mut i: usize = 0;
    assert(v@.take(0) =~= seq![]);
    while i < v.len()
        invariant
            i <= v.len(),
            r == num_with(v@.take(i as int), n),
            r <= i,
        decreases v.len() - i,
    {
        assert(v@.take(i + 1).drop_last() =~= v@.take(i as int));
        if v[i].1 == n {
            r = r + 1;
        }
        i = i + 1;
    }
    assert(v@.take(i as int) =~= v@);
    r
}

/// The score of a hand's kind, from its character counts.
pub fn calculate_hand_score(char_counts: &Vec<(char, u32)>) -> (r: u32)
    ensures
        r == kind_score(char_counts@),
{
    if count_with(char_counts, 5) > 0 {
        return FIVE_OF_A_KIND_SCORE;
    }
    if count_with(char_counts, 4) > 0 {
        return FOUR_OF_A_KIND_SCORE;
    }
    let threes = count_with(char_counts, 3);
    let pairs = count_with(char_counts, 2);
    if threes > 0 && pairs > 0 {
        return FULL_HOUSE_SCORE;
    }
    if threes > 0 {
        return THREE_OF_A_KIND_SCORE;
    }
    if pairs > 0 {
        if pairs == 2 {
            return TWO_PAIR_SCORE;
        }
        return ONE_PAIR_SCORE;
    }
    HIGH_CARD_SCORE
}

/// The counts without the entries of `c`.
pub open spec fn without_key(v: Seq<(char, u32)>, c: char) -> Seq<(char, u32)>
    decreases v.len(),
{
    if v.len() == 0 {
        seq![]
    } else if v.last().0 == c {
        without_key(v.drop_last(), c)
    } else {
        without_key(v.drop_last(), c).push(v.last())
    }
}

/// The counts with `j` jokers added to entry `i`, capped at `u32::MAX`.
pub open spec fn with_jokers(v: Seq<(char, u32)>, i: int, j: u32) -> Seq<(char, u32)> {
    v.update(
        i,
        (
            v[i].0,
            if v[i].1 as int + j as int > u32::MAX {
                u32::MAX
            } else {
                (v[i].1 + j) as u32
            },
        ),
    )
}

/// The best kind score over the first `k` ways of adding the jokers to one
/// character.
pub open spec fn best_with_jokers(rest: Seq<(char, u32)>, j: u32, k: int) -> u32
    decreases k,
{
    if k <= 0 {
        0
    } else {
        let prev = best_with_jokers(rest, j, k - 1);
        let s = kind_score(with_jokers(rest, k - 1, j));
        if s > prev {
            s
        } else {
            prev
        }
    }
}

/// The score of a hand whose jacks are jokers: the jokers join whichever
/// other character gives the best kind; five jokers make five of a kind.
/// `None` when the hand has no jack.
pub open spec fn joker_score(v: Seq<(char, u32)>) -> Option<u32> {
    let k = key_index(v, 'J');
    if k < 0 {
        None
    } else {
        let rest = without_key(v, 'J');
        if rest.len() == 0 {
            Some(FIVE_OF_A_KIND_SCORE)
        } else {
            Some(best_with_jokers(rest, v[k].1, rest.len() as int))
        }
    }
}

/// The score of a hand's kind when its jacks are jokers.
pub fn calculate_hand_score_with_jokers(char_counts: Vec<(char, u32)>) -> (r: Option<u32>)
    ensures
        r == joker_score(char_counts@),
{
    let v = char_counts;
    proof {
        lemma_key_index_bounds(v@, 'J');
    }
    let mut k: usize = 0;
    while k < v.len() && v[k].0 != 'J'
        invariant
            k <= v.len(),
            forall|j: int| 0 <= j < k ==> v@[j].0 != 'J',
        decreases v.len() - k,
    {
        k = k + 1;
    }
    if k == v.len() {
        return None;
    }
    proof {
        lemma_first_key(v@, 'J', k as int);
    }
    let j_count = v[k].1;
    let mut rest: Vec<(char, u32)> = Vec::new();
    let mut i: usize = 0;
    assert(v@.take(0) =~= seq![]);
    while i < v.len()
        invariant
            i <= v.len(),
            rest@ == without_key(v@.take(i as int), 'J'),
        decreases v.len() - i,
    {
        assert(v@.take(i + 1).drop_last() =~= v@.take(i as int));
        if v[i].0 != 'J' {
            rest.push(v[i]);
        }
        i = i + 1;
    }
    assert(v@.take(i as int) =~= v@);
    if rest.len() == 0 {
        return Some(FIVE_OF_A_KIND_SCORE);
    }
    let mut hand_score: u32 = 0;
    let mut m: usize = 0;
    while m < rest.len()
        invariant
            m <= rest.len(),
            hand_score == best_with_jokers(rest@, j_count, m as int),
        decreases rest.len() - m,
    {
        let mut bumped: Vec<(char, u32)> = Vec::new();
        let mut q: usize = 0;
        while q < rest.len()
            invariant
                q <= rest.len(),
                m < rest.len(),
                bumped@ == with_jokers(rest@, m as int, j_count).take(q as int),
            decreases rest.len() - q,
        {
            let (c, n) = rest[q];
            if q == m {
                let bumped_count = if n > u32::MAX - j_count {
                    u32::MAX
                } else {
                    n + j_count
                };
                bumped.push((c, bumped_count));
            } else {
                bumped.push((c, n));
            }
            q = q + 1;
            assert(bumped@ =~= with_jokers(rest@, m as int, j_count).take(q as int));
        }
        assert(with_jokers(rest@, m as int, j_count).take(q as int) =~= with_jokers(
            rest@,
            m as int,
            j_count,
        ));
        let new_hand_score = calculate_hand_score(&bumped);
        if new_hand_score > hand_score {
            hand_score = new_hand_score;
        }
        m = m + 1;
    }
    Some(hand_score)
}

/// What a card reads as.
pub open spec fn card_spec(s: Seq<char>) -> Result<u32, ParseCardError> {
    match read_unsigned(s, u32::MAX as nat + 1) {
        Some(v) => Ok(v as u32),
        None => if s == seq!['T'] {
            Ok(10)
        } else if s == seq!['J'] {
            Ok(11)
        } else if s == seq!['Q'] {
            Ok(12)
        } else if s == seq!['K'] {
            Ok(13)
        } else if s == seq!['A'] {
            Ok(14)
        } else {
            Err(ParseCardError)
        },
    }
}

impl Card {
    /// Reads a card: a number, or one of `T J Q K A`.
    pub fn parse_card(s: &str) -> (r: Result<Card, ParseCardError>)
        ensures
            r matches Ok(c) ==> card_spec(s@) == Ok::<u32, ParseCardError>(c.0),
            r is Err ==> card_spec(s@) is Err,
    {
        if let Some(v) = parse_u32(&chars_of(s)) {
            return Ok(Card(v));
        }
        if crate::text::is_single(s, 'T') {
            return Ok(Card(10));
        } else if crate::text::is_single(s, 'J') {
            return Ok(Card(11));
        } else if crate::text::is_single(s, 'Q') {
            return Ok(Card(12));
        } else if crate::text::is_single(s, 'K') {
            return Ok(Card(13));
        } else if crate::text::is_single(s, 'A') {
            return Ok(Card(14));
        }
        Err(ParseCardError)
    }
}

impl std::str::FromStr for Card {
    type Err = ParseCardError;

    fn from_str(s: &str) -> Result<Card, ParseCardError> {
        Card::parse_card(s)
    }
}

/// The cards of a hand as values.
pub open spec fn cards_view(v: Seq<Card>) -> Seq<u32> {
    v.map_values(|c: Card| c.0)
}

/// Reads each character of a hand as a card.
pub fn parse_cards_in_hand(hand_str: &str) -> (r: Result<Vec<Card>, ParseCardError>)
    ensures
        r matches Ok(v) ==> v.len() == hand_str@.len() && forall|i: int|
            0 <= i < v.len() ==> card_spec(seq![hand_str@[i]]) == Ok::<u32, ParseCardError>(
                #[trigger] v[i].0,
            ),
        r is Err ==> exists|i: int|
            0 <= i < hand_str@.len() && (#[trigger] card_spec(seq![hand_str@[i]])) is Err,
{
    let n = hand_str.unicode_len();
    let mut cards: Vec<Card> = Vec::new();
    let mut i: usize = 0;
    while i < n
        invariant
            i <= n == hand_str@.len(),
            cards.len() == i,
            forall|j: int|
                0 <= j < i ==> card_spec(seq![hand_str@[j]]) == Ok::<u32, ParseCardError>(
                    #[trigger] cards[j].0,
                ),
        decreases n - i,
    {
        let one = hand_str.substring_char(i, i + 1);
        assert(one@ =~= seq![hand_str@[i as int]]);
        match Card::parse_card(one) {
            Ok(c) => cards.push(c),
            Err(e) => return Err(e),
        }
        i = i + 1;
    }
    Ok(cards)
}

/// The weight of the card at position `i` counted from the end of the hand.
pub open spec fn position_weight(i: int) -> nat {
    if i == 0 {
        1
    } else if i == 1 {
        15
    } else if i == 2 {
        211
    } else if i == 3 {
        2955
    } else {
        41370
    }
}

/// A card's value, with a jack worth 1 in the second reading.
pub open spec fn card_weight(c: u32, part_two: bool) -> nat {
    if part_two && c == 11 {
        1
    } else {
        c as nat
    }
}

/// The weighted sum of the first `k` cards counted from the end of the
/// hand.
pub open spec fn position_score(cards: Seq<u32>, part_two: bool, k: int) -> nat
    decreases k,
{
    if k <= 0 || k > cards.len() {
        0
    } else {
        position_score(cards, part_two, k - 1) + position_weight(k - 1) * card_weight(
            cards[cards.len() - k],
            part_two,
        )
    }
}

/// The score that orders hands of the same kind: each card's value, the
/// last card weighted 1, the one before 15, then 211, 2955 and 41370.
pub fn calculate_character_position_additional_score(hand: &Vec<Card>, part_two: bool) -> (r: u64)
    requires
        hand.len() <= 5,
    ensures
        r == position_score(cards_view(hand@), part_two, hand.len() as int),
        r <= hand.len() * 41370 * u32::MAX,
{
    let ghost cs = cards_view(hand@);
    let n = hand.len();
    let mut additional_score: u64 = 0;
    let mut i: usize = 0;
    while i < n
        invariant
            i <= n <= 5,
            n == hand.len(),
            cs == cards_view(hand@),
            additional_score == position_score(cs, part_two, i as int),
            additional_score <= i * 41370 * u32::MAX,
        decreases n - i,
    {
        let card = hand[n - 1 - i];
        let card_value: u64 = if part_two && card.0 == 11 {
            1
        } else {
            card.0 as u64
        };
        let multiplier: u64 = if i == 0 {
            1
        } else if i == 1 {
            15
        } else if i == 2 {
            211
        } else if i == 3 {
            2955
        } else {
            41370
        };
        assert(cs[n - (i + 1)] == card.0);
        assert(multiplier * card_value <= 41370 * u32::MAX) by (nonlinear_arith)
            requires
                multiplier <= 41370,
                card_value <= u32::MAX,
        ;
        assert(additional_score + multiplier * card_value <= (i + 1) * 41370 * u32::MAX)
            by (nonlinear_arith)
            requires
                additional_score <= i * 41370 * u32::MAX,
                multiplier * card_value <= 41370 * u32::MAX,
        ;
        additional_score = additional_score + multiplier * card_value;
        i = i + 1;
    }
    additional_score
}

/// Splits `hand bid` into the hand and the bid.
pub fn parse_hand_and_bid(hand_and_bid_str: &str) -> (r: Result<(&str, &str), PuzzleError>)
    ensures
        r matches Ok(p) ==> split(hand_and_bid_str@, seq![' ']).len() >= 2 && p.0@ == split(
            hand_and_bid_str@,
            seq![' '],
        )[0] && p.1@ == split(hand_and_bid_str@, seq![' '])[1],
        r is Err ==> split(hand_and_bid_str@, seq![' ']).len() < 2,
        r matches Err(e) ==> e == PuzzleError::MissingField,
{
    let parts = split_char(hand_and_bid_str, ' ');
    if parts.len() < 2 {
        return Err(PuzzleError::MissingField);
    }
    assert(parts@[0]@ == str_views(parts@)[0]);
    assert(parts@[1]@ == str_views(parts@)[1]);
    Ok((parts[0], parts[1]))
}

/// A hand as its score, its card values and its bid.
pub open spec fn hand_view(h: Hand) -> (nat, Seq<u32>, nat) {
    (h.value as nat, cards_view(h.cards@), h.bid as nat)
}

/// `a` comes before `b` when compared value by value, a proper prefix
/// first.
pub open spec fn seq_lt(a: Seq<u32>, b: Seq<u32>) -> bool
    decreases a.len(),
{
    if a.len() == 0 {
        b.len() > 0
    } else if b.len() == 0 {
        false
    } else if a[0] != b[0] {
        a[0] < b[0]
    } else {
        seq_lt(a.drop_first(), b.drop_first())
    }
}

/// Hands ordered by score, then by cards, then by bid.
pub open spec fn hand_lt(a: (nat, Seq<u32>, nat), b: (nat, Seq<u32>, nat)) -> bool {
    a.0 < b.0 || (a.0 == b.0 && (seq_lt(a.1, b.1) || (a.1 == b.1 && a.2 < b.2)))
}

/// The order on card values is transitive.
proof fn lemma_seq_lt_transitive(a: Seq<u32>, b: Seq<u32>, c: Seq<u32>)
    requires
        seq_lt(a, b),
        seq_lt(b, c),
    ensures
        seq_lt(a, c),
    decreases a.len(),
{
    if a.len() > 0 && b.len() > 0 && c.len() > 0 && a[0] == b[0] && b[0] == c[0] {
        lemma_seq_lt_transitive(a.drop_first(), b.drop_first(), c.drop_first());
    }
}

/// No sequence of card values comes before itself.
proof fn lemma_seq_lt_irreflexive(a: Seq<u32>)
    ensures
        !seq_lt(a, a),
    decreases a.len(),
{
    if a.len() > 0 {
        lemma_seq_lt_irreflexive(a.drop_first());
    }
}

/// The order on hands is transitive.
proof fn lemma_hand_lt_transitive(
    a: (nat, Seq<u32>, nat),
    b: (nat, Seq<u32>, nat),
    c: (nat, Seq<u32>, nat),
)
    requires
        hand_lt(a, b),
        hand_lt(b, c),
    ensures
        hand_lt(a, c),
{
    if seq_lt(a.1, b.1) && seq_lt(b.1, c.1) {
        lemma_seq_lt_transitive(a.1, b.1, c.1);
    }
}

/// Whether the cards `a` come before the cards `b`.
fn cards_less(a: &Vec<Card>, b: &Vec<Card>) -> (r: bool)
    ensures
        r == seq_lt(cards_view(a@), cards_view(b@)),
{
    let ghost x = cards_view(a@);
    let ghost y = cards_view(b@);
    let mut i: usize = 0;
    assert(x.skip(0) =~= x);
    assert(y.skip(0) =~= y);
    while i < a.len() && i < b.len() && a[i].0 == b[i].0
        invariant
            i <= a.len(),
            i <= b.len(),
            x == cards_view(a@),
            y == cards_view(b@),
            seq_lt(x, y) == seq_lt(x.skip(i as int), y.skip(i as int)),
        decreases a.len() - i,
    {
        assert(x.skip(i as int).drop_first() =~= x.skip(i + 1));
        assert(y.skip(i as int).drop_first() =~= y.skip(i + 1));
        i = i + 1;
    }
    if i == a.len() {
        return i < b.len();
    }
    if i == b.len() {
        return false;
    }
    a[i].0 < b[i].0
}

/// Whether hand `a` comes before hand `b`.
fn hand_less(a: &Hand, b: &Hand) -> (r: bool)
    ensures
        r == hand_lt(hand_view(*a), hand_view(*b)),
{
    if a.value != b.value {
        return a.value < b.value;
    }
    if cards_less(&a.cards, &b.cards) {
        return true;
    }
    if cards_less(&b.cards, &a.cards) {
        proof {
            if cards_view(a.cards@) == cards_view(b.cards@) {
                lemma_seq_lt_irreflexive(cards_view(a.cards@));
            }
        }
        return false;
    }
    proof {
        lemma_seq_lt_total(cards_view(a.cards@), cards_view(b.cards@));
    }
    a.bid < b.bid
}

/// Two sequences of card values are equal, or one comes first.
proof fn lemma_seq_lt_total(a: Seq<u32>, b: Seq<u32>)
    ensures
        a == b || seq_lt(a, b) || seq_lt(b, a),
    decreases a.len(),
{
    if a.len() > 0 && b.len() > 0 && a[0] == b[0] {
        lemma_seq_lt_total(a.drop_first(), b.drop_first());
        if a.drop_first() == b.drop_first() {
            assert(a.drop_first().len() == a.len() - 1);
            assert(b.drop_first().len() == b.len() - 1);
            assert(a.len() == b.len());
            assert forall|i: int| 0 <= i < a.len() implies a[i] == b[i] by {
                if i > 0 {
                    assert(a[i] == a.drop_first()[i - 1]);
                    assert(b[i] == b.drop_first()[i - 1]);
                }
            }
            assert(a =~= b);
        }
    } else if a.len() == 0 && b.len() == 0 {
        assert(a =~= b);
    }
}

/// No hand of `v` comes before an earlier one.
pub open spec fn is_ranked(v: Seq<(nat, Seq<u32>, nat)>) -> bool {
    forall|i: int, j: int| 0 <= i < j < v.len() ==> !hand_lt(#[trigger] v[j], #[trigger] v[i])
}

/// The hands as views.
pub open spec fn hands_view(v: Seq<Hand>) -> Seq<(nat, Seq<u32>, nat)> {
    v.map_values(|h: Hand| hand_view(h))
}

/// Sorts the hands from the weakest to the strongest, as the derived order
/// of `Hand` compares them.
pub fn rank_hands(hands: Vec<Hand>) -> (r: Vec<Hand>)
    ensures
        is_ranked(hands_view(r@)),
        hands_view(r@).to_multiset() == hands_view(hands@).to_multiset(),
{
    broadcast use vstd::seq_lib::group_to_multiset_ensures;

    let ghost all = hands_view(hands@);
    let mut rest = hands;
    let mut ranked: Vec<Hand> = Vec::new();
    assert(hands_view(ranked@) =~= seq![]);
    assert(hands_view(ranked@).to_multiset().add(hands_view(rest@).to_multiset()) =~= all.to_multiset());
    while rest.len() > 0
        invariant
            is_ranked(hands_view(ranked@)),
            hands_view(ranked@).to_multiset().add(hands_view(rest@).to_multiset())
                == all.to_multiset(),
        decreases rest.len(),
    {
        let ghost old_rest = hands_view(rest@);
        let h = match rest.pop() {
            Some(h) => h,
            None => return ranked,
        };
        assert(hands_view(rest@).push(hand_view(h)) =~= old_rest);
        proof {
            hands_view(rest@).to_multiset_ensures();
        }
        assert(hands_view(rest@).push(hand_view(h)).to_multiset() == hands_view(rest@).to_multiset().insert(
            hand_view(h),
        ));
        let ghost before = hands_view(ranked@);
        let mut pos: usize = 0;
        let mut found = false;
        while pos < ranked.len() && !found
            invariant
                pos <= ranked.len(),
                before == hands_view(ranked@),
                found ==> pos < ranked.len() && hand_lt(hand_view(h), before[pos as int]),
                forall|k: int| 0 <= k < pos ==> !hand_lt(hand_view(h), #[trigger] before[k]),
            decreases ranked.len() - pos + if found { 0int } else { 1int },
        {
            if hand_less(&h, &ranked[pos]) {
                found = true;
            } else {
                pos = pos + 1;
            }
        }
        ranked.insert(pos, h);
        assert(hands_view(ranked@) =~= before.insert(pos as int, hand_view(h)));
        proof {
            let v = hands_view(ranked@);
            assert forall|i: int, j: int| 0 <= i < j < v.len() implies !hand_lt(
                #[trigger] v[j],
                #[trigger] v[i],
            ) by {
                if i < pos && j == pos {
                    assert(v[i] == before[i]);
                    assert(!hand_lt(hand_view(h), before[i]));
                } else if i == pos && j > pos {
                    if hand_lt(v[j], v[i]) {
                        assert(pos < before.len());
                        assert(hand_lt(hand_view(h), before[pos as int]));
                        if j - 1 > pos {
                            assert(!hand_lt(before[j - 1], before[pos as int]));
                        }
                        lemma_hand_lt_transitive(v[j], hand_view(h), before[pos as int]);
                        lemma_seq_lt_irreflexive(before[pos as int].1);
                    }
                } else if i < pos && j < pos {
                    assert(v[i] == before[i] && v[j] == before[j]);
                } else if i < pos && j > pos {
                    assert(v[i] == before[i] && v[j] == before[j - 1]);
                } else {
                    assert(v[i] == before[i - 1] && v[j] == before[j - 1]);
                }
            }
            vstd::seq_lib::to_multiset_insert(before, pos as int, hand_view(h));
            assert(old_rest.to_multiset() == hands_view(rest@).to_multiset().insert(hand_view(h)));
            assert(v.to_multiset().add(hands_view(rest@).to_multiset()) =~= before.to_multiset().add(
                old_rest.to_multiset(),
            ));
        }
    }
    assert(hands_view(rest@) =~= seq![]);
    assert(hands_view(rest@).to_multiset() =~= vstd::multiset::Multiset::empty());
    assert(hands_view(ranked@).to_multiset() =~= all.to_multiset());
    ranked
}

/// The value of the card that character `c` stands for.
pub open spec fn card_value_of(c: char) -> u32 {
    match card_spec(seq![c]) {
        Ok(v) => v,
        Err(_) => 0,
    }
}

/// What a line `hand bid` reads as: the hand's score (its kind's score,
/// jacks as jokers in the second reading, plus the positional score of its
/// cards), its card values, and its bid. A hand of more than five cards, or
/// with an unknown card, is an error.
pub open spec fn hand_spec(line: Seq<char>, part_two: bool) -> Result<(nat, Seq<u32>, nat), PuzzleError> {
    let p = split(line, seq![' ']);
    if p.len() < 2 {
        Err(PuzzleError::MissingField)
    } else {
        let hand = p[0];
        if exists|i: int| 0 <= i < hand.len() && (#[trigger] card_spec(seq![hand[i]])) is Err {
            Err(PuzzleError::InvalidCharacter)
        } else if hand.len() > 5 {
            Err(PuzzleError::InvalidCharacter)
        } else {
            let counts = counts_spec(hand);
            let kind = if part_two && key_index(counts, 'J') >= 0 {
                match joker_score(counts) {
                    Some(s) => s,
                    None => 0,
                }
            } else {
                kind_score(counts)
            };
            let cards = Seq::new(hand.len(), |i: int| card_value_of(hand[i]));
            match read_unsigned(p[1], u32::MAX as nat + 1) {
                None => Err(PuzzleError::InvalidNumber),
                Some(bid) => Ok(
                    ((kind + position_score(cards, part_two, hand.len() as int)) as nat, cards, bid),
                ),
            }
        }
    }
}

/// Reads one line `hand bid` into a scored hand.
pub fn parse_hand(line: &str, part_two: bool) -> (r: Result<Hand, PuzzleError>)
    ensures
        r matches Ok(h) ==> hand_spec(line@, part_two) == Ok::<(nat, Seq<u32>, nat), PuzzleError>(
            hand_view(h),
        ),
        r matches Err(e) ==> hand_spec(line@, part_two) == Err::<(nat, Seq<u32>, nat), PuzzleError>(
            e,
        ),
{
    let (hand, bid) = parse_hand_and_bid(line)?;
    let cards = match parse_cards_in_hand(hand) {
        Ok(c) => c,
        Err(_) => return Err(PuzzleError::InvalidCharacter),
    };
    assert forall|i: int| 0 <= i < hand@.len() implies !((#[trigger] card_spec(
        seq![hand@[i]],
    )) is Err) by {
        assert(card_spec(seq![hand@[i]]) == Ok::<u32, ParseCardError>(cards@[i].0));
    }
    if cards.len() > 5 {
        return Err(PuzzleError::InvalidCharacter);
    }
    let char_counts = extract_character_counts_from_hand(hand);
    let mut has_joker = false;
    let mut k: usize = 0;
    while k < char_counts.len() && !has_joker
        invariant
            k <= char_counts.len(),
            has_joker ==> k < char_counts.len() && char_counts@[k as int].0 == 'J',
            forall|j: int| 0 <= j < k ==> char_counts@[j].0 != 'J',
        decreases char_counts.len() - k + if has_joker { 0int } else { 1int },
    {
        if char_counts[k].0 == 'J' {
            has_joker = true;
        } else {
            k = k + 1;
        }
    }
    proof {
        lemma_key_index_bounds(char_counts@, 'J');
        if has_joker {
            lemma_first_key(char_counts@, 'J', k as int);
        }
    }
    let hand_score: u32 = if part_two && has_joker {
        match calculate_hand_score_with_jokers(char_counts) {
            Some(s) => s,
            None => 0,
        }
    } else {
        calculate_hand_score(&char_counts)
    };
    let ghost cs = Seq::new(hand@.len(), |i: int| card_value_of(hand@[i]));
    assert forall|i: int| 0 <= i < cs.len() implies cards_view(cards@)[i] == cs[i] by {
        assert(card_spec(seq![hand@[i]]) == Ok::<u32, ParseCardError>(cards@[i].0));
    }
    assert(cards_view(cards@) =~= cs);
    let additional = calculate_character_position_additional_score(&cards, part_two);
    assert(additional <= 5 * 41370 * u32::MAX);
    let bid = match parse_u32(&chars_of(bid)) {
        Some(b) => b,
        None => return Err(PuzzleError::InvalidNumber),
    };
    Ok(Hand { value: hand_score as u64 + additional, cards, bid })
}

/// The hands of a list, each read from its line.
pub open spec fn hands_spec(s: Seq<char>, part_two: bool) -> Result<Seq<(nat, Seq<u32>, nat)>, PuzzleError> {
    collect_all(split(s, seq!['\n']), |l| hand_spec(l, part_two))
}

/// Reads the hands, one per line, and ranks them from the weakest to the
/// strongest.
pub fn parse_hands(hands_str: &str, part_two: bool) -> (r: Result<Vec<Hand>, PuzzleError>)
    ensures
        r matches Ok(v) ==> is_ranked(hands_view(v@)),
        r matches Ok(v) ==> (hands_spec(hands_str@, part_two) matches Ok(parsed)
            && hands_view(v@).to_multiset() == parsed.to_multiset()),
        r matches Err(e) ==> hands_spec(hands_str@, part_two) == Err::<
            Seq<(nat, Seq<u32>, nat)>,
            PuzzleError,
        >(e),
{
    let lines = split_char(hands_str, '\n');
    let ghost ls = split(hands_str@, seq!['\n']);
    let ghost f = |l| hand_spec(l, part_two);
    let mut hands: Vec<Hand> = Vec::new();
    let mut i: usize = 0;
    assert(ls.take(0) =~= seq![]);
    assert(hands_view(hands@) =~= seq![]);
    while i < lines.len()
        invariant
            i <= lines.len(),
            str_views(lines@) == ls,
            ls == split(hands_str@, seq!['\n']),
            f == (|l| hand_spec(l, part_two)),
            collect_all(ls.take(i as int), f) == Ok::<Seq<(nat, Seq<u32>, nat)>, PuzzleError>(
                hands_view(hands@),
            ),
        decreases lines.len() - i,
    {
        assert(ls.take(i + 1).drop_last() =~= ls.take(i as int));
        assert(lines@[i as int]@ == ls[i as int]);
        match parse_hand(lines[i], part_two) {
            Ok(h) => {
                let ghost old_v = hands@;
                let ghost hv = hand_view(h);
                hands.push(h);
                assert(hands_view(hands@) =~= hands_view(old_v).push(hv));
            },
            Err(e) => {
                proof {
                    lemma_collect_all_err(ls, f, i + 1);
                }
                return Err(e);
            },
        }
        i = i + 1;
    }
    assert(ls.take(i as int) =~= ls);
    Ok(rank_hands(hands))
}

/// The total winnings: each hand's bid times its rank, the weakest ranked 1.
pub open spec fn winnings(v: Seq<(nat, Seq<u32>, nat)>) -> nat
    decreases v.len(),
{
    if v.len() == 0 {
        0
    } else {
        winnings(v.drop_last()) + v.len() * v.last().2
    }
}

/// The total winnings of the ranked hands.
pub fn calculate_total_winnings(hands: &Vec<Hand>) -> (r: u128)
    requires
        hands.len() <= u32::MAX,
    ensures
        r == winnings(hands_view(hands@)),
{
    let ghost v = hands_view(hands@);
    let mut total: u128 = 0;
    let mut i: usize = 0;
    while i < hands.len()
        invariant
            i <= hands.len() <= u32::MAX,
            v == hands_view(hands@),
            total == winnings(v.take(i as int)),
            total <= i * (u32::MAX as int * u32::MAX as int),
        decreases hands.len() - i,
    {
        assert(v.take(i + 1).drop_last() =~= v.take(i as int));
        let rank = (i + 1) as u128;
        let bid = hands[i].bid as u128;
        assert(rank * bid <= u32::MAX as int * u32::MAX as int) by (nonlinear_arith)
            requires
                rank <= u32::MAX,
                bid <= u32::MAX,
        ;
        assert(total + rank * bid <= (i + 1) * (u32::MAX as int * u32::MAX as int))
            by (nonlinear_arith)
            requires
                total <= i * (u32::MAX as int * u32::MAX as int),
                rank * bid <= u32::MAX as int * u32::MAX as int,
        ;
        assert((i + 1) * (u32::MAX as int * u32::MAX as int) <= u32::MAX as int * (u32::MAX as int
            * u32::MAX as int)) by (nonlinear_arith)
            requires
                i < u32::MAX,
        ;
        total = total + rank * bid;
        i = i + 1;
    }
    assert(v.take(i as int) =~= v);
    total
}

impl Parse for NewDay7Puzzle {
    type Day = Day7Puzzle;

    fn parse_input(&self, puzzle_input: &str) -> (r: Result<Day7Puzzle, PuzzleError>)
        ensures
            r matches Ok(d) ==> is_ranked(hands_view(d.part_one_parsed_input@)),
            r matches Ok(d) ==> (hands_spec(puzzle_input@, false) matches Ok(parsed)
                && hands_view(d.part_one_parsed_input@).to_multiset() == parsed.to_multiset()),
            r matches Ok(d) ==> is_ranked(hands_view(d.part_two_parsed_input@)),
            r matches Ok(d) ==> (hands_spec(puzzle_input@, true) matches Ok(parsed)
                && hands_view(d.part_two_parsed_input@).to_multiset() == parsed.to_multiset()),
            r is Err ==> hands_spec(puzzle_input@, false) is Err || hands_spec(puzzle_input@, true)
                is Err,
    {
        let part_one_parsed_input = parse_hands(puzzle_input, false)?;
        let part_two_parsed_input = parse_hands(puzzle_input, true)?;
        Ok(Day7Puzzle { part_one_parsed_input, part_two_parsed_input })
    }
}

/// The winnings written in decimal; an error when they do not fit a `u64`.
fn winnings_text(hands: &Vec<Hand>) -> (r: Result<String, PuzzleError>)
    ensures
        r is Ok <==> hands.len() <= u32::MAX && winnings(hands_view(hands@)) <= u64::MAX,
        r matches Ok(s) ==> s@ == crate::text::decimal_digits(winnings(hands_view(hands@))),
{
    if hands.len() > u32::MAX as usize {
        return Err(PuzzleError::Overflow);
    }
    let total = calculate_total_winnings(hands);
    if total > u64::MAX as u128 {
        return Err(PuzzleError::Overflow);
    }
    Ok(u64_to_string(total as u64))
}

impl AdventDay for Day7Puzzle {
    fn solve_first_puzzle(&self) -> (r: Result<String, PuzzleError>)
        ensures
            r is Ok <==> self.part_one_parsed_input.len() <= u32::MAX && winnings(
                hands_view(self.part_one_parsed_input@),
            ) <= u64::MAX,
            r matches Ok(s) ==> s@ == crate::text::decimal_digits(
                winnings(hands_view(self.part_one_parsed_input@)),
            ),
    {
        winnings_text(&self.part_one_parsed_input)
    }

    fn solve_second_puzzle(&self) -> (r: Result<String, PuzzleError>)
        ensures
            r is Ok <==> self.part_two_parsed_input.len() <= u32::MAX && winnings(
                hands_view(self.part_two_parsed_input@),
            ) <= u64::MAX,
            r matches Ok(s) ==> s@ == crate::text::decimal_digits(
                winnings(hands_view(self.part_two_parsed_input@)),
            ),
    {
        winnings_text(&self.part_two_parsed_input)
    }
}

} // verus!
