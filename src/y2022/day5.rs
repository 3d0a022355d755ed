//! Supply stacks: crates moved between stacks by a crane, one at a time or
//! several at once, and the crates left on top.
use vstd::prelude::*;

use std::collections::VecDeque;

use crate::advent::{AdventDay, Parse, PuzzleError};
use crate::text::{
    chars_of, collect_all, lemma_collect_all_err, parse_u32, push_char, read_unsigned, split, split_by, split_char, str_views, strings_view,
};

verus! {

/// The parser of this day's puzzle input.
pub struct NewDay5Puzzle {}

pub const OVERFLOW_ERROR_MESSAGE: &'static str = "Attempted to access crate at a negative stack index";

pub const STACK_INDEX_ERROR_MESSAGE: &'static str =
    "Tried to move a crate at a stack index that does not exist";

pub const MOVE_FROM_EMPTY_STACK_ERROR_MESSAGE: &'static str = "Tried to move too many crates from stack";

pub const STACK_EMPTY_AFTER_MOVES_ERROR_MESSAGE: &'static str =
    "Tried to find the crate at the top of the stack but the stack was empty";

/// The stacks, each from its top crate down, and the moves
/// `(how many, from stack, to stack)`, stacks numbered from 1.
pub struct Day5Puzzle {
    pub stacks: Vec<VecDeque<String>>,
    pub rearrangement_procedure: Vec<(u32, usize, usize)>,
}

/// A stack's crates, top first.
pub open spec fn stack_view(d: VecDeque<String>) -> Seq<Seq<char>> {
    strings_view(d@)
}

/// All stacks' crates.
pub open spec fn stacks_view(v: Seq<VecDeque<String>>) -> Seq<Seq<Seq<char>>> {
    v.map_values(|d: VecDeque<String>| stack_view(d))
}

/// The stacks after moving `n` crates from stack `from` to stack `to`
/// (numbered from 1): one at a time, which reverses their order, or all at
/// once, which keeps it. A stack number of 0 or past the last stack, or a
/// source that runs out of crates, is an error; the checks come in the order
/// in which a crane doing the moves one by one would meet them.
pub open spec fn move_spec(
    st: Seq<Seq<Seq<char>>>,
    n: nat,
    from: int,
    to: int,
    all_at_once: bool,
) -> Result<Seq<Seq<Seq<char>>>, &'static str> {
    if n == 0 {
        if all_at_once && to == 0 {
            Err(OVERFLOW_ERROR_MESSAGE)
        } else if all_at_once && to > st.len() {
            Err(STACK_INDEX_ERROR_MESSAGE)
        } else {
            Ok(st)
        }
    } else if from == 0 {
        Err(OVERFLOW_ERROR_MESSAGE)
    } else if from > st.len() {
        Err(STACK_INDEX_ERROR_MESSAGE)
    } else if !all_at_once {
        if st[from - 1].len() == 0 {
            Err(MOVE_FROM_EMPTY_STACK_ERROR_MESSAGE)
        } else if to == 0 {
            Err(OVERFLOW_ERROR_MESSAGE)
        } else if to > st.len() {
            Err(STACK_INDEX_ERROR_MESSAGE)
        } else if from == to {
            Ok(st)
        } else if st[from - 1].len() < n {
            Err(MOVE_FROM_EMPTY_STACK_ERROR_MESSAGE)
        } else {
            let src = st[from - 1];
            Ok(
                st.update(from - 1, src.skip(n as int)).update(
                    to - 1,
                    src.take(n as int).reverse() + st[to - 1],
                ),
            )
        }
    } else {
        if st[from - 1].len() < n {
            Err(MOVE_FROM_EMPTY_STACK_ERROR_MESSAGE)
        } else if to == 0 {
            Err(OVERFLOW_ERROR_MESSAGE)
        } else if to > st.len() {
            Err(STACK_INDEX_ERROR_MESSAGE)
        } else {
            let src = st[from - 1];
            let st1 = st.update(from - 1, src.skip(n as int));
            Ok(st1.update(to - 1, src.take(n as int) + st1[to - 1]))
        }
    }
}

/// Moves `number_to_move` crates from stack `from_stack` to stack `to_stack`.
pub fn move_crates_between_stacks(
    stacks: Vec<VecDeque<String>>,
    number_to_move: u32,
    from_stack: usize,
    to_stack: usize,
    move_all_at_once: bool,
) -> (r: Result<Vec<VecDeque<String>>, &'static str>)
    ensures
        match r {
            Ok(v) => move_spec(
                stacks_view(stacks@),
                number_to_move as nat,
                from_stack as int,
                to_stack as int,
                move_all_at_once,
            ) == Ok::<Seq<Seq<Seq<char>>>, &'static str>(stacks_view(v@)),
            Err(e) => move_spec(
                stacks_view(stacks@),
                number_to_move as nat,
                from_stack as int,
                to_stack as int,
                move_all_at_once,
            ) == Err::<Seq<Seq<Seq<char>>>, &'static str>(e),
        },
{
    let mut stacks = stacks;
    let ghost st = stacks_view(stacks@);
    let n = number_to_move as usize;
    if n == 0 {
        if move_all_at_once && to_stack == 0 {
            return Err(OVERFLOW_ERROR_MESSAGE);
        }
        if move_all_at_once && to_stack > stacks.len() {
            return Err(STACK_INDEX_ERROR_MESSAGE);
        }
        return Ok(stacks);
    }
    if from_stack == 0 {
        return Err(OVERFLOW_ERROR_MESSAGE);
    }
    if from_stack > stacks.len() {
        return Err(STACK_INDEX_ERROR_MESSAGE);
    }
    let f = from_stack - 1;
    assert(st[f as int].len() == stacks@[f as int]@.len());
    if !move_all_at_once {
        if stacks[f].len() == 0 {
            return Err(MOVE_FROM_EMPTY_STACK_ERROR_MESSAGE);
        }
        if to_stack == 0 {
            return Err(OVERFLOW_ERROR_MESSAGE);
        }
        if to_stack > stacks.len() {
            return Err(STACK_INDEX_ERROR_MESSAGE);
        }
        if from_stack == to_stack {
            return Ok(stacks);
        }
        if stacks[f].len() < n {
            return Err(MOVE_FROM_EMPTY_STACK_ERROR_MESSAGE);
        }
    } else {
        if stacks[f].len() < n {
            return Err(MOVE_FROM_EMPTY_STACK_ERROR_MESSAGE);
        }
        if to_stack == 0 {
            return Err(OVERFLOW_ERROR_MESSAGE);
        }
        if to_stack > stacks.len() {
            return Err(STACK_INDEX_ERROR_MESSAGE);
        }
    }
    let t = to_stack - 1;
    let ghost src = st[f as int];
    let mut source: VecDeque<String> = VecDeque::new();
    std::mem::swap(&mut stacks[f], &mut source);
    assert(stack_view(source) == src);
    assert(src.skip(0) =~= src);
    let mut moved: Vec<String> = Vec::new();
    let mut k: usize = 0;
    assert(strings_view(moved@) =~= src.take(0));
    while k < n
        invariant
            k <= n <= src.len(),
            stack_view(source) == src.skip(k as int),
            strings_view(moved@) == src.take(k as int),
        decreases n - k,
    {
        let ghost old_source = source@;
        assert(stack_view(source).len() == source@.len());
        assert(src.skip(k as int).len() == src.len() - k);
        assert(source@.len() == src.len() - k);
        let c = match source.pop_front() {
            Some(c) => c,
            None => {
                assert(false);
                return Err(MOVE_FROM_EMPTY_STACK_ERROR_MESSAGE);
            },
        };
        let ghost old_moved = moved@;
        assert(strings_view(source@) =~= strings_view(old_source).subrange(1, old_source.len() as int));
        moved.push(c);
        assert(strings_view(moved@) =~= strings_view(old_moved).push(c@));
        assert(c@ == strings_view(old_source)[0]);
        assert(c@ == src[k as int]);
        k = k + 1;
        assert(stack_view(source) =~= src.skip(k as int));
        assert(strings_view(moved@) =~= src.take(k as int));
    }
    stacks[f] = source;
    let ghost st1 = stacks_view(stacks@);
    assert(st1 =~= st.update(f as int, src.skip(n as int)));
    let mut target: VecDeque<String> = VecDeque::new();
    std::mem::swap(&mut stacks[t], &mut target);
    let ghost base = stack_view(target);
    assert(base == st1[t as int]);
    if move_all_at_once {
        let mut j: usize = n;
        while j > 0
            invariant
                j <= n <= src.len(),
                moved.len() == j,
                strings_view(moved@) == src.take(j as int),
                stack_view(target) == src.take(n as int).skip(j as int) + base,
            decreases j,
        {
            let ghost old_moved = moved@;
            let ghost old_target = target@;
            let c = match moved.pop() {
                Some(c) => c,
                None => {
                    assert(false);
                    return Err(MOVE_FROM_EMPTY_STACK_ERROR_MESSAGE);
                },
            };
            assert(strings_view(moved@) =~= strings_view(old_moved).drop_last());
            assert(c@ == strings_view(old_moved)[j - 1]);
            assert(c@ == src[j - 1]);
            target.push_front(c);
            assert(strings_view(target@) =~= seq![c@] + strings_view(old_target));
            j = j - 1;
            assert(strings_view(moved@) =~= src.take(j as int));
            assert(stack_view(target) =~= src.take(n as int).skip(j as int) + base);
        }
        assert(src.take(n as int).skip(0) =~= src.take(n as int));
    } else {
        let mut j: usize = 0;
        while j < n
            invariant
                j <= n <= src.len(),
                moved.len() == n,
                strings_view(moved@) == src.take(n as int),
                stack_view(target) == src.take(j as int).reverse() + base,
            decreases n - j,
        {
            let c = moved[j].clone();
            assert(c@ == strings_view(moved@)[j as int]);
            assert(c@ == src.take(n as int)[j as int]);
            assert(c@ == src[j as int]);
            let ghost old_target = target@;
            target.push_front(c);
            assert(strings_view(target@) =~= seq![c@] + strings_view(old_target));
            j = j + 1;
            assert(stack_view(target) =~= src.take(j as int).reverse() + base);
        }
        assert(src.take(n as int).take(n as int) =~= src.take(n as int));
    }
    stacks[t] = target;
    assert(stacks_view(stacks@) =~= st1.update(t as int, if move_all_at_once {
        src.take(n as int) + st1[t as int]
    } else {
        src.take(n as int).reverse() + st1[t as int]
    }));
    Ok(stacks)
}

/// The crates on top of the stacks, one after the other; `None` if a stack
/// is empty.
pub open spec fn tops_spec(st: Seq<Seq<Seq<char>>>) -> Option<Seq<char>>
    decreases st.len(),
{
    if st.len() == 0 {
        Some(seq![])
    } else {
        match tops_spec(st.drop_last()) {
            None => None,
            Some(s) => if st.last().len() == 0 {
                None
            } else {
                Some(s + st.last()[0])
            },
        }
    }
}

/// Once a prefix has an empty stack, so has the whole.
pub proof fn lemma_tops_none(st: Seq<Seq<Seq<char>>>, i: int)
    requires
        0 <= i <= st.len(),
        tops_spec(st.take(i)) is None,
    ensures
        tops_spec(st) is None,
    decreases st.len(),
{
    if i < st.len() {
        assert(st.drop_last().take(i) =~= st.take(i));
        lemma_tops_none(st.drop_last(), i);
    } else {
        assert(st.take(i) =~= st);
    }
}

/// The crates on top of the stacks, read from the first stack to the last.
pub fn retrieve_crates_on_top_of_stacks(stacks: &Vec<VecDeque<String>>) -> (r: Result<
    String,
    &'static str,
>)
    ensures
        r matches Ok(s) ==> tops_spec(stacks_view(stacks@)) == Some(s@),
        r matches Err(e) ==> tops_spec(stacks_view(stacks@)) is None && e
            == STACK_EMPTY_AFTER_MOVES_ERROR_MESSAGE,
{
    let ghost st = stacks_view(stacks@);
    let mut crates_at_top_stacks = String::new();
    let mut i: usize = 0;
    assert(st.take(0) =~= seq![]);
    while i < stacks.len()
        invariant
            i <= stacks.len(),
            st == stacks_view(stacks@),
            tops_spec(st.take(i as int)) == Some(crates_at_top_stacks@),
        decreases stacks.len() - i,
    {
        assert(st.take(i + 1).drop_last() =~= st.take(i as int));
        assert(st[i as int] == stack_view(stacks@[i as int]));
        if stacks[i].len() == 0 {
            proof {
                lemma_tops_none(st, i + 1);
            }
            return Err(STACK_EMPTY_AFTER_MOVES_ERROR_MESSAGE);
        }
        let top: &String = &stacks[i][0];
        assert(top@ == st[i as int][0]);
        crates_at_top_stacks.append(top.as_str());
        i = i + 1;
    }
    assert(st.take(i as int) =~= st);
    Ok(crates_at_top_stacks)
}

/// What the drawing has read once its first `k` characters are seen: the
/// stacks so far and the stack that the next crate column belongs to.
/// Columns of crate letters sit at every fourth character, counted over the
/// whole drawing; a newline starts again at the first stack, and a letter
/// with no stack left for it is an error.
pub open spec fn crates_after(s: Seq<char>, k: int, n: nat) -> Option<(Seq<Seq<Seq<char>>>, int)>
    decreases k,
{
    if k <= 0 {
        Some((Seq::new(n, |i: int| Seq::<Seq<char>>::empty()), 0))
    } else {
        match crates_after(s, k - 1, n) {
            None => None,
            Some((st, cur)) => {
                let i = k - 1;
                let c = s[i];
                if i > 0 && (i - 1) % 4 == 0 {
                    if c != ' ' {
                        if cur >= st.len() {
                            None
                        } else {
                            Some((st.update(cur, st[cur].push(seq![c])), cur + 1))
                        }
                    } else {
                        Some((st, cur + 1))
                    }
                } else if c == '\n' {
                    Some((st, 0))
                } else {
                    Some((st, cur))
                }
            },
        }
    }
}

/// Reads the drawing of the stacks into `number_of_stacks` stacks, each from
/// its top crate down.
pub fn parse_stacks_of_crates(stacks: &str, number_of_stacks: usize) -> (r: Result<
    Vec<VecDeque<String>>,
    PuzzleError,
>)
    ensures
        r matches Ok(v) ==> crates_after(stacks@, stacks@.len() as int, number_of_stacks as nat)
            matches Some((st, _)) && stacks_view(v@) == st,
        r is Err ==> crates_after(stacks@, stacks@.len() as int, number_of_stacks as nat) is None,
        r matches Err(e) ==> e == PuzzleError::InvalidCharacter,
{
    let chars = chars_of(stacks);
    let ghost n = number_of_stacks as nat;
    let mut stacks_of_crates: Vec<VecDeque<String>> = Vec::new();
    let mut j: usize = 0;
    while j < number_of_stacks
        invariant
            j <= number_of_stacks,
            stacks_view(stacks_of_crates@) =~= Seq::new(
                j as nat,
                |i: int| Seq::<Seq<char>>::empty(),
            ),
        decreases number_of_stacks - j,
    {
        let ghost old_v = stacks_of_crates@;
        let fresh: VecDeque<String> = VecDeque::new();
        assert(stack_view(fresh) =~= Seq::<Seq<char>>::empty());
        stacks_of_crates.push(fresh);
        assert(stacks_view(stacks_of_crates@) =~= stacks_view(old_v).push(
            Seq::<Seq<char>>::empty(),
        ));
        j = j + 1;
    }
    let mut current_stack: usize = 0;
    let mut i: usize = 0;
    assert(stacks_view(stacks_of_crates@).len() == stacks_of_crates.len());
    while i < chars.len()
        invariant
            i <= chars.len(),
            chars@ == stacks@,
            current_stack <= i,
            stacks_of_crates.len() == number_of_stacks,
            n == number_of_stacks as nat,
            crates_after(stacks@, i as int, n) == Some(
                (stacks_view(stacks_of_crates@), current_stack as int),
            ),
        decreases chars.len() - i,
    {
        let c = chars[i];
        if i > 0 && (i - 1) % 4 == 0 {
            if c != ' ' {
                if current_stack >= stacks_of_crates.len() {
                    assert(crates_after(stacks@, i + 1, n) is None);
                    proof {
                        lemma_crates_none(stacks@, i + 1, n);
                    }
                    assert(crates_after(stacks@, stacks@.len() as int, n) is None);
                    return Err(PuzzleError::InvalidCharacter);
                }
                let mut item = String::new();
                push_char(&mut item, c);
                assert(item@ =~= seq![c]);
                let ghost old_v = stacks_of_crates@;
                let mut stack: VecDeque<String> = VecDeque::new();
                std::mem::swap(&mut stacks_of_crates[current_stack], &mut stack);
                let ghost old_stack = stack@;
                stack.push_back(item);
                assert(strings_view(stack@) =~= strings_view(old_stack).push(seq![c]));
                stacks_of_crates[current_stack] = stack;
                assert(stacks_view(stacks_of_crates@) =~= stacks_view(old_v).update(
                    current_stack as int,
                    stacks_view(old_v)[current_stack as int].push(seq![c]),
                ));
            }
            current_stack = current_stack + 1;
        } else if c == '\n' {
            current_stack = 0;
        }
        i = i + 1;
    }
    Ok(stacks_of_crates)
}

/// Once the drawing has failed, it stays failed.
pub proof fn lemma_crates_none(s: Seq<char>, i: int, n: nat)
    requires
        0 <= i <= s.len(),
        crates_after(s, i, n) is None,
    ensures
        crates_after(s, s.len() as int, n) is None,
    decreases s.len() - i,
{
    if i < s.len() {
        lemma_crates_none(s, i + 1, n);
    }
}

/// The number of stacks: the digit just before the last character of the
/// line that numbers them.
pub open spec fn count_spec(s: Seq<char>) -> Result<nat, PuzzleError> {
    if s.len() < 2 {
        Err(PuzzleError::MissingField)
    } else if !('0' <= s[s.len() - 2] <= '9') {
        Err(PuzzleError::InvalidNumber)
    } else {
        Ok((s[s.len() - 2] as int - '0' as int) as nat)
    }
}

/// Reads the number of stacks from the line that numbers them.
pub fn parse_count_of_stacks(count_of_stacks: &str) -> (r: Result<usize, PuzzleError>)
    ensures
        r matches Ok(v) ==> count_spec(count_of_stacks@) == Ok::<nat, PuzzleError>(v as nat),
        r matches Err(e) ==> count_spec(count_of_stacks@) == Err::<nat, PuzzleError>(e),
{
    let chars = chars_of(count_of_stacks);
    if chars.len() < 2 {
        return Err(PuzzleError::MissingField);
    }
    let c = chars[chars.len() - 2];
    if !('0' <= c && c <= '9') {
        return Err(PuzzleError::InvalidNumber);
    }
    Ok((c as u32 - '0' as u32) as usize)
}

/// The words of a move line that carry no number.
pub open spec fn is_move_word(t: Seq<char>) -> bool {
    t == seq!['m', 'o', 'v', 'e'] || t == seq!['f', 'r', 'o', 'm'] || t == seq!['t', 'o']
}

/// The number tokens of a move line.
pub open spec fn move_numbers(line: Seq<char>) -> Seq<Seq<char>> {
    split(line, seq![' ']).filter(|t: Seq<char>| !is_move_word(t))
}

/// What `move a from b to c` reads as: the first three tokens other than
/// the words `move`, `from` and `to`, each a `u32`.
pub open spec fn move_line_spec(line: Seq<char>) -> Result<(nat, nat, nat), PuzzleError> {
    let k = move_numbers(line);
    if k.len() < 3 {
        Err(PuzzleError::MissingField)
    } else {
        match (
            read_unsigned(k[0], u32::MAX as nat + 1),
            read_unsigned(k[1], u32::MAX as nat + 1),
            read_unsigned(k[2], u32::MAX as nat + 1),
        ) {
            (Some(a), Some(b), Some(c)) => Ok((a, b, c)),
            _ => Err(PuzzleError::InvalidNumber),
        }
    }
}

/// A move seen as three numbers.
pub open spec fn move_view(m: (u32, usize, usize)) -> (nat, nat, nat) {
    (m.0 as nat, m.1 as nat, m.2 as nat)
}

/// Whether a token is one of the words `move`, `from`, `to`.
fn is_move_word_str(t: &str) -> (r: bool)
    ensures
        r == is_move_word(t@),
{
    let c = chars_of(t);
    let r = (c.len() == 4 && c[0] == 'm' && c[1] == 'o' && c[2] == 'v' && c[3] == 'e') || (c.len()
        == 4 && c[0] == 'f' && c[1] == 'r' && c[2] == 'o' && c[3] == 'm') || (c.len() == 2 && c[0]
        == 't' && c[1] == 'o');
    if c.len() == 4 {
        assert(c@ == seq!['m', 'o', 'v', 'e'] <==> (c[0] == 'm' && c[1] == 'o' && c[2] == 'v' && c[3]
            == 'e')) by {
            if c[0] == 'm' && c[1] == 'o' && c[2] == 'v' && c[3] == 'e' {
                assert(c@ =~= seq!['m', 'o', 'v', 'e']);
            }
        }
        assert(c@ == seq!['f', 'r', 'o', 'm'] <==> (c[0] == 'f' && c[1] == 'r' && c[2] == 'o' && c[3]
            == 'm')) by {
            if c[0] == 'f' && c[1] == 'r' && c[2] == 'o' && c[3] == 'm' {
                assert(c@ =~= seq!['f', 'r', 'o', 'm']);
            }
        }
    }
    if c.len() == 2 {
        assert(c@ == seq!['t', 'o'] <==> (c[0] == 't' && c[1] == 'o')) by {
            if c[0] == 't' && c[1] == 'o' {
                assert(c@ =~= seq!['t', 'o']);
            }
        }
    }
    r
}

/// Reads `move a from b to c`.
pub fn parse_rearrangement_procedure_line(rearrangement_procedure_line: &str) -> (r: Result<
    (u32, usize, usize),
    PuzzleError,
>)
    ensures
        r matches Ok(m) ==> move_line_spec(rearrangement_procedure_line@) == Ok::<
            (nat, nat, nat),
            PuzzleError,
        >(move_view(m)),
        r matches Err(e) ==> move_line_spec(rearrangement_procedure_line@) == Err::<
            (nat, nat, nat),
            PuzzleError,
        >(e),
{
    let pieces = split_char(rearrangement_procedure_line, ' ');
    let ghost ps = split(rearrangement_procedure_line@, seq![' ']);
    let ghost pred = |t: Seq<char>| !is_move_word(t);
    let mut kept: Vec<&str> = Vec::new();
    let mut i: usize = 0;
    proof {
        reveal(Seq::filter);
        assert(ps.take(0) =~= seq![]);
        assert(str_views(kept@) =~= seq![]);
    }
    while i < pieces.len()
        invariant
            i <= pieces.len(),
            str_views(pieces@) == ps,
            pred == (|t: Seq<char>| !is_move_word(t)),
            str_views(kept@) == ps.take(i as int).filter(pred),
        decreases pieces.len() - i,
    {
        proof {
            reveal(Seq::filter);
            assert(ps.take(i + 1).drop_last() =~= ps.take(i as int));
        }
        assert(pieces@[i as int]@ == ps[i as int]);
        if !is_move_word_str(pieces[i]) {
            let ghost old_kept = kept@;
            kept.push(pieces[i]);
            assert(str_views(kept@) =~= str_views(old_kept).push(pieces@[i as int]@));
        }
        i = i + 1;
    }
    assert(ps.take(i as int) =~= ps);
    if kept.len() < 3 {
        return Err(PuzzleError::MissingField);
    }
    assert(kept@[0]@ == str_views(kept@)[0]);
    assert(kept@[1]@ == str_views(kept@)[1]);
    assert(kept@[2]@ == str_views(kept@)[2]);
    let a = parse_u32(&chars_of(kept[0]));
    let b = parse_u32(&chars_of(kept[1]));
    let c = parse_u32(&chars_of(kept[2]));
    match (a, b, c) {
        (Some(a), Some(b), Some(c)) => Ok((a, b as usize, c as usize)),
        _ => Err(PuzzleError::InvalidNumber),
    }
}

/// The lines of `s`: its pieces between newlines, without the empty piece
/// after a final newline.
pub open spec fn lines_of(s: Seq<char>) -> Seq<Seq<char>> {
    let p = split(s, seq!['\n']);
    if p.last().len() == 0 {
        p.drop_last()
    } else {
        p
    }
}

/// What the list of moves reads as: one move per line.
pub open spec fn procedure_spec(s: Seq<char>) -> Result<Seq<(nat, nat, nat)>, PuzzleError> {
    collect_all(lines_of(s), |l| move_line_spec(l))
}

/// Reads the list of moves, one per line.
pub fn parse_rearrangement_procedure(rearrangement_procedure: &str) -> (r: Result<
    Vec<(u32, usize, usize)>,
    PuzzleError,
>)
    ensures
        r matches Ok(v) ==> procedure_spec(rearrangement_procedure@) == Ok::<
            Seq<(nat, nat, nat)>,
            PuzzleError,
        >(v@.map_values(|m: (u32, usize, usize)| move_view(m))),
        r matches Err(e) ==> procedure_spec(rearrangement_procedure@) == Err::<
            Seq<(nat, nat, nat)>,
            PuzzleError,
        >(e),
{
    let pieces = split_char(rearrangement_procedure, '\n');
    let ghost ps = split(rearrangement_procedure@, seq!['\n']);
    let last_index = pieces.len() - 1;
    assert(pieces@[last_index as int]@ == ps.last());
    let count = if pieces[last_index].is_empty() {
        last_index
    } else {
        pieces.len()
    };
    let ghost ls = lines_of(rearrangement_procedure@);
    assert(ls =~= ps.take(count as int));
    let ghost f = |l| move_line_spec(l);
    let mut moves: Vec<(u32, usize, usize)> = Vec::new();
    let mut i: usize = 0;
    assert(ls.take(0) =~= seq![]);
    assert(moves@.map_values(|m: (u32, usize, usize)| move_view(m)) =~= seq![]);
    while i < count
        invariant
            i <= count <= pieces.len(),
            str_views(pieces@) == ps,
            ls == ps.take(count as int),
            f == (|l| move_line_spec(l)),
            ls == lines_of(rearrangement_procedure@),
            collect_all(ls.take(i as int), f) == Ok::<Seq<(nat, nat, nat)>, PuzzleError>(
                moves@.map_values(|m: (u32, usize, usize)| move_view(m)),
            ),
        decreases count - i,
    {
        assert(ls.take(i + 1).drop_last() =~= ls.take(i as int));
        assert(pieces@[i as int]@ == ls[i as int]);
        match parse_rearrangement_procedure_line(pieces[i]) {
            Ok(m) => {
                let ghost old_moves = moves@;
                moves.push(m);
                assert(moves@.map_values(|m: (u32, usize, usize)| move_view(m)) =~= old_moves.map_values(
                    |m: (u32, usize, usize)| move_view(m),
                ).push(move_view(m)));
            },
            Err(e) => {
                proof {
                    lemma_collect_all_err(ls, f, i + 1);
                }
                return Err(e);
            },
        }
        i = i + 1;
    }
    assert(ls.take(i as int) =~= ls);
    Ok(moves)
}

/// `c` does not occur in `s`.
pub open spec fn lacks(s: Seq<char>, c: char) -> bool {
    forall|i: int| 0 <= i < s.len() ==> s[i] != c
}

/// The three sections of the input: the drawing of the stacks, the line
/// that numbers them (the last line before the first blank line), and the
/// moves (what follows the blank line, up to a next one).
pub fn split_input_into_sections(input: &str) -> (r: Result<(&str, &str, &str), PuzzleError>)
    ensures
        r is Err <==> split(input@, seq!['\n', '\n']).len() < 2 || lacks(
            split(input@, seq!['\n', '\n'])[0],
            '\n',
        ),
        r matches Ok(t) ==> split(input@, seq!['\n', '\n'])[0] == t.0@ + seq!['\n'] + t.1@ && lacks(
            t.1@,
            '\n',
        ) && t.2@ == split(input@, seq!['\n', '\n'])[1],
{
    let sep = vec!['\n', '\n'];
    assert(sep@ =~= seq!['\n', '\n']);
    let sections = split_by(input, &sep);
    let ghost secs = split(input@, seq!['\n', '\n']);
    assert(sections@[0]@ == secs[0]);
    let first = sections[0];
    let chars = chars_of(first);
    let mut k: usize = chars.len();
    while k > 0 && chars[k - 1] != '\n'
        invariant
            k <= chars.len(),
            chars@ == first@,
            forall|j: int| k <= j < chars.len() ==> chars@[j] != '\n',
        decreases k,
    {
        k = k - 1;
    }
    if k == 0 {
        return Err(PuzzleError::MissingField);
    }
    if sections.len() < 2 {
        return Err(PuzzleError::MissingField);
    }
    assert(sections@[1]@ == secs[1]);
    assert(!lacks(secs[0], '\n')) by {
        assert(secs[0][k - 1] == '\n');
    }
    let stacks = first.substring_char(0, k - 1);
    let count = first.substring_char(k, chars.len());
    assert(first@ =~= stacks@ + seq!['\n'] + count@);
    Ok((stacks, count, sections[1]))
}

impl Parse for NewDay5Puzzle {
    type Day = Day5Puzzle;

    fn parse_input(&self, puzzle_input: &str) -> (r: Result<Day5Puzzle, PuzzleError>)
        ensures
            r matches Ok(d) ==> exists|a: Seq<char>, b: Seq<char>|
                #![trigger a + seq!['\n'] + b]
                split(puzzle_input@, seq!['\n', '\n']).len() >= 2 && split(
                    puzzle_input@,
                    seq!['\n', '\n'],
                )[0] == a + seq!['\n'] + b && lacks(b, '\n') && (count_spec(b) matches Ok(n)
                    && crates_after(a, a.len() as int, n) matches Some((st, _)) && stacks_view(
                    d.stacks@,
                ) == st) && procedure_spec(split(puzzle_input@, seq!['\n', '\n'])[1]) == Ok::<
                    Seq<(nat, nat, nat)>,
                    PuzzleError,
                >(d.rearrangement_procedure@.map_values(|m: (u32, usize, usize)| move_view(m))),
    {
        let (stacks_str, count_of_stacks_str, rearrangement_procedure_str) =
            split_input_into_sections(puzzle_input)?;
        let count_of_stacks = parse_count_of_stacks(count_of_stacks_str)?;
        let stacks = parse_stacks_of_crates(stacks_str, count_of_stacks)?;
        let rearrangement_procedure = parse_rearrangement_procedure(rearrangement_procedure_str)?;
        Ok(Day5Puzzle { stacks, rearrangement_procedure })
    }
}

/// The stacks after the first `k` moves, each carried out with
/// `move_spec`; the first move that cannot be carried out is the error.
pub open spec fn moves_spec(
    st: Seq<Seq<Seq<char>>>,
    procedure: Seq<(u32, usize, usize)>,
    k: int,
    all_at_once: bool,
) -> Result<Seq<Seq<Seq<char>>>, &'static str>
    decreases k,
{
    if k <= 0 {
        Ok(st)
    } else {
        match moves_spec(st, procedure, k - 1, all_at_once) {
            Err(e) => Err(e),
            Ok(s) => {
                let m = procedure[k - 1];
                move_spec(s, m.0 as nat, m.1 as int, m.2 as int, all_at_once)
            },
        }
    }
}

/// Once a move has failed, the later ones change nothing.
proof fn lemma_moves_err(
    st: Seq<Seq<Seq<char>>>,
    procedure: Seq<(u32, usize, usize)>,
    k: int,
    j: int,
    all_at_once: bool,
)
    requires
        0 <= k <= j,
        moves_spec(st, procedure, k, all_at_once) is Err,
    ensures
        moves_spec(st, procedure, j, all_at_once) is Err,
    decreases j - k,
{
    if k < j {
        lemma_moves_err(st, procedure, k, j - 1, all_at_once);
    }
}

/// A copy of the stacks.
pub fn copy_stacks(stacks: &Vec<VecDeque<String>>) -> (r: Vec<VecDeque<String>>)
    ensures
        stacks_view(r@) == stacks_view(stacks@),
{
    let mut r: Vec<VecDeque<String>> = Vec::new();
    let mut i: usize = 0;
    while i < stacks.len()
        invariant
            i <= stacks.len(),
            stacks_view(r@) == stacks_view(stacks@).take(i as int),
        decreases stacks.len() - i,
    {
        let source = &stacks[i];
        let mut copy: VecDeque<String> = VecDeque::new();
        let mut j: usize = 0;
        while j < source.len()
            invariant
                j <= source.len(),
                strings_view(copy@) == strings_view(source@).take(j as int),
            decreases source.len() - j,
        {
            let item = source[j].clone();
            let ghost old_copy = copy@;
            copy.push_back(item);
            assert(strings_view(copy@) =~= strings_view(old_copy).push(item@));
            j = j + 1;
            assert(strings_view(copy@) =~= strings_view(source@).take(j as int));
        }
        assert(strings_view(source@).take(j as int) =~= strings_view(source@));
        let ghost old_r = r@;
        let ghost cv = stack_view(copy);
        r.push(copy);
        assert(stacks_view(r@) =~= stacks_view(old_r).push(cv));
        i = i + 1;
        assert(stacks_view(r@) =~= stacks_view(stacks@).take(i as int));
    }
    assert(stacks_view(stacks@).take(i as int) =~= stacks_view(stacks@));
    r
}

impl Day5Puzzle {
    /// Carries out every move, one crate at a time or all at once, and
    /// reads the crates left on top.
    pub fn top_crates_after_moves(&self, move_all_at_once: bool) -> (r: Result<String, PuzzleError>)
        ensures
            r matches Ok(s) ==> (moves_spec(
                stacks_view(self.stacks@),
                self.rearrangement_procedure@,
                self.rearrangement_procedure.len() as int,
                move_all_at_once,
            ) matches Ok(fin) && tops_spec(fin) == Some(s@)),
            r == Err::<String, PuzzleError>(PuzzleError::InvalidMove) ==> moves_spec(
                stacks_view(self.stacks@),
                self.rearrangement_procedure@,
                self.rearrangement_procedure.len() as int,
                move_all_at_once,
            ) is Err,
            r == Err::<String, PuzzleError>(PuzzleError::NoAnswer) ==> (moves_spec(
                stacks_view(self.stacks@),
                self.rearrangement_procedure@,
                self.rearrangement_procedure.len() as int,
                move_all_at_once,
            ) matches Ok(fin) && tops_spec(fin) is None),
            r matches Err(e) ==> e == PuzzleError::InvalidMove || e == PuzzleError::NoAnswer,
    {
        let ghost st = stacks_view(self.stacks@);
        let ghost procedure = self.rearrangement_procedure@;
        let mut stacks = copy_stacks(&self.stacks);
        let mut i: usize = 0;
        while i < self.rearrangement_procedure.len()
            invariant
                i <= self.rearrangement_procedure.len(),
                st == stacks_view(self.stacks@),
                procedure == self.rearrangement_procedure@,
                moves_spec(st, procedure, i as int, move_all_at_once)
                    == Ok::<Seq<Seq<Seq<char>>>, &'static str>(stacks_view(stacks@)),
            decreases self.rearrangement_procedure.len() - i,
        {
            let (n, from, to) = self.rearrangement_procedure[i];
            stacks = match move_crates_between_stacks(stacks, n, from, to, move_all_at_once) {
                Ok(s) => s,
                Err(_) => {
                    proof {
                        lemma_moves_err(
                            st,
                            procedure,
                            i + 1,
                            procedure.len() as int,
                            move_all_at_once,
                        );
                    }
                    return Err(PuzzleError::InvalidMove);
                },
            };
            i = i + 1;
        }
        match retrieve_crates_on_top_of_stacks(&stacks) {
            Ok(s) => Ok(s),
            Err(_) => Err(PuzzleError::NoAnswer),
        }
    }
}

impl AdventDay for Day5Puzzle {
    fn solve_first_puzzle(&self) -> (r: Result<String, PuzzleError>)
        ensures
            r matches Ok(s) ==> (moves_spec(
                stacks_view(self.stacks@),
                self.rearrangement_procedure@,
                self.rearrangement_procedure.len() as int,
                false,
            ) matches Ok(fin) && tops_spec(fin) == Some(s@)),
            r == Err::<String, PuzzleError>(PuzzleError::InvalidMove) ==> moves_spec(
                stacks_view(self.stacks@),
                self.rearrangement_procedure@,
                self.rearrangement_procedure.len() as int,
                false,
            ) is Err,
            r == Err::<String, PuzzleError>(PuzzleError::NoAnswer) ==> (moves_spec(
                stacks_view(self.stacks@),
                self.rearrangement_procedure@,
                self.rearrangement_procedure.len() as int,
                false,
            ) matches Ok(fin) && tops_spec(fin) is None),
            r matches Err(e) ==> e == PuzzleError::InvalidMove || e == PuzzleError::NoAnswer,
    {
        self.top_crates_after_moves(false)
    }

    fn solve_second_puzzle(&self) -> (r: Result<String, PuzzleError>)
        ensures
            r matches Ok(s) ==> (moves_spec(
                stacks_view(self.stacks@),
                self.rearrangement_procedure@,
                self.rearrangement_procedure.len() as int,
                true,
            ) matches Ok(fin) && tops_spec(fin) == Some(s@)),
            r == Err::<String, PuzzleError>(PuzzleError::InvalidMove) ==> moves_spec(
                stacks_view(self.stacks@),
                self.rearrangement_procedure@,
                self.rearrangement_procedure.len() as int,
                true,
            ) is Err,
            r == Err::<String, PuzzleError>(PuzzleError::NoAnswer) ==> (moves_spec(
                stacks_view(self.stacks@),
                self.rearrangement_procedure@,
                self.rearrangement_procedure.len() as int,
                true,
            ) matches Ok(fin) && tops_spec(fin) is None),
            r matches Err(e) ==> e == PuzzleError::InvalidMove || e == PuzzleError::NoAnswer,
    {
        self.top_crates_after_moves(true)
    }
}

} // verus!
