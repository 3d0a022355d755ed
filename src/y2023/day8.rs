//! Haunted wasteland: walking a network of nodes by a repeated list of
//! left/right moves, alone from `AAA` or as ghosts from every `..A` node.
use vstd::prelude::*;

use crate::advent::{AdventDay, Parse, PuzzleError};
use crate::text::{
    decimal_digits,
    chars_of, collect_all, lemma_collect_all_err, push_char, split, split_by, split_char,
    str_views, string_of, u64_to_string,
};

verus! {

/// The parser of this day's puzzle input.
pub struct NewDay8Puzzle {}

/// The moves, and the network: each node with its left and right
/// neighbours, in input order.
pub struct Day8Puzzle {
    pub moves: Vec<LeftRight>,
    pub node_map: Vec<(String, (String, String))>,
}

#[derive(Debug, PartialEq, Eq, Structural, Clone, Copy)]
pub enum LeftRight {
    Left,
    Right,
}

impl LeftRight {
    /// `L` is a left move; anything else a right move.
    pub fn from_char(c: char) -> (r: LeftRight)
        ensures
            r == (if c == 'L' {
                LeftRight::Left
            } else {
                LeftRight::Right
            }),
    {
        if c == 'L' {
            return LeftRight::Left;
        }
        LeftRight::Right
    }
}

/// Reads the list of moves, one per character.
pub fn parse_moves(left_or_right_string: &str) -> (r: Vec<LeftRight>)
    ensures
        r.len() == left_or_right_string@.len(),
        forall|i: int|
            0 <= i < r.len() ==> #[trigger] r[i] == (if left_or_right_string@[i] == 'L' {
                LeftRight::Left
            } else {
                LeftRight::Right
            }),
{
    let chars = chars_of(left_or_right_string);
    let mut r: Vec<LeftRight> = Vec::new();
    let mut i: usize = 0;
    while i < chars.len()
        invariant
            i <= chars.len(),
            chars@ == left_or_right_string@,
            r.len() == i,
            forall|j: int|
                0 <= j < i ==> #[trigger] r[j] == (if chars@[j] == 'L' {
                    LeftRight::Left
                } else {
                    LeftRight::Right
                }),
        decreases chars.len() - i,
    {
        r.push(LeftRight::from_char(chars[i]));
        i = i + 1;
    }
    r
}

/// `s` without its parentheses.
pub open spec fn strip_parens(s: Seq<char>) -> Seq<char> {
    s.filter(|c: char| c != '(' && c != ')')
}

/// `s` without its parentheses.
fn without_parens(s: &str) -> (r: String)
    ensures
        r@ == strip_parens(s@),
{
    let chars = chars_of(s);
    let ghost pred = |c: char| c != '(' && c != ')';
    let mut r = String::new();
    let mut i: usize = 0;
    proof {
        reveal(Seq::filter);
        assert(chars@.take(0) =~= seq![]);
    }
    while i < chars.len()
        invariant
            i <= chars.len(),
            pred == (|c: char| c != '(' && c != ')'),
            r@ == chars@.take(i as int).filter(pred),
        decreases chars.len() - i,
    {
        proof {
            reveal(Seq::filter);
            assert(chars@.take(i + 1).drop_last() =~= chars@.take(i as int));
        }
        if chars[i] != '(' && chars[i] != ')' {
            push_char(&mut r, chars[i]);
        }
        i = i + 1;
    }
    assert(chars@.take(i as int) =~= chars@);
    r
}

/// What a node line `KEY = (LEFT, RIGHT)` reads as.
pub open spec fn node_spec(line: Seq<char>) -> Result<(Seq<char>, (Seq<char>, Seq<char>)), PuzzleError> {
    let p = split(line, seq![' ', '=', ' ']);
    if p.len() < 2 {
        Err(PuzzleError::MissingField)
    } else {
        let d = split(p[1], seq![',', ' ']);
        if d.len() < 2 {
            Err(PuzzleError::MissingField)
        } else {
            Ok((p[0], (strip_parens(d[0]), strip_parens(d[1]))))
        }
    }
}

/// A node entry seen as character sequences.
pub open spec fn entry_view(e: (String, (String, String))) -> (Seq<char>, (Seq<char>, Seq<char>)) {
    (e.0@, (e.1.0@, e.1.1@))
}

/// Reads a node line `KEY = (LEFT, RIGHT)`.
pub fn parse_node(node_str: &str) -> (r: Result<(String, (String, String)), PuzzleError>)
    ensures
        r matches Ok(e) ==> node_spec(node_str@) == Ok::<
            (Seq<char>, (Seq<char>, Seq<char>)),
            PuzzleError,
        >(entry_view(e)),
        r matches Err(e) ==> node_spec(node_str@) == Err::<
            (Seq<char>, (Seq<char>, Seq<char>)),
            PuzzleError,
        >(e),
{
    let eq = vec![' ', '=', ' '];
    assert(eq@ =~= seq![' ', '=', ' ']);
    let parts = split_by(node_str, &eq);
    if parts.len() < 2 {
        return Err(PuzzleError::MissingField);
    }
    assert(parts@[0]@ == str_views(parts@)[0]);
    assert(parts@[1]@ == str_views(parts@)[1]);
    let comma = vec![',', ' '];
    assert(comma@ =~= seq![',', ' ']);
    let directions = split_by(parts[1], &comma);
    if directions.len() < 2 {
        return Err(PuzzleError::MissingField);
    }
    assert(directions@[0]@ == str_views(directions@)[0]);
    assert(directions@[1]@ == str_views(directions@)[1]);
    let left = without_parens(directions[0]);
    let right = without_parens(directions[1]);
    Ok((parts[0].to_owned(), (left, right)))
}

/// The network as a sequence of entries.
pub open spec fn map_view(m: Seq<(String, (String, String))>) -> Seq<
    (Seq<char>, (Seq<char>, Seq<char>)),
> {
    m.map_values(|e: (String, (String, String))| entry_view(e))
}

/// Reads the network, one node per line.
pub fn parse_nodes_map(nodes_str: &str) -> (r: Result<Vec<(String, (String, String))>, PuzzleError>)
    ensures
        r matches Ok(m) ==> collect_all(split(nodes_str@, seq!['\n']), |l| node_spec(l)) == Ok::<
            Seq<(Seq<char>, (Seq<char>, Seq<char>))>,
            PuzzleError,
        >(map_view(m@)),
        r matches Err(e) ==> collect_all(split(nodes_str@, seq!['\n']), |l| node_spec(l)) == Err::<
            Seq<(Seq<char>, (Seq<char>, Seq<char>))>,
            PuzzleError,
        >(e),
{
    let lines = split_char(nodes_str, '\n');
    let ghost ls = split(nodes_str@, seq!['\n']);
    let ghost f = |l| node_spec(l);
    let mut nodes: Vec<(String, (String, String))> = Vec::new();
    let mut i: usize = 0;
    assert(ls.take(0) =~= seq![]);
    assert(map_view(nodes@) =~= seq![]);
    while i < lines.len()
        invariant
            i <= lines.len(),
            str_views(lines@) == ls,
            ls == split(nodes_str@, seq!['\n']),
            f == (|l| node_spec(l)),
            collect_all(ls.take(i as int), f) == Ok::<
                Seq<(Seq<char>, (Seq<char>, Seq<char>))>,
                PuzzleError,
            >(map_view(nodes@)),
        decreases lines.len() - i,
    {
        assert(ls.take(i + 1).drop_last() =~= ls.take(i as int));
        assert(lines@[i as int]@ == ls[i as int]);
        match parse_node(lines[i]) {
            Ok(e) => {
                let ghost old_v = nodes@;
                let ghost ev = entry_view(e);
                nodes.push(e);
                assert(map_view(nodes@) =~= map_view(old_v).push(ev));
            },
            Err(e) => {
                proof {
                    lemma_collect_all_err(ls, f, i + 1);
                }
                return Err(e);
            },
        }
        i = i + 1;
    }
    assert(ls.take(i as int) =~= ls);
    Ok(nodes)
}

/// The neighbours of `key`: those of its last entry, as a later line of the
/// same node replaces an earlier one.
pub open spec fn lookup(m: Seq<(Seq<char>, (Seq<char>, Seq<char>))>, key: Seq<char>) -> Option<
    (Seq<char>, Seq<char>),
>
    decreases m.len(),
{
    if m.len() == 0 {
        None
    } else if m.last().0 == key {
        Some(m.last().1)
    } else {
        lookup(m.drop_last(), key)
    }
}

/// The neighbours of `key` in the network.
fn find_node(node_map: &Vec<(String, (String, String))>, key: &Vec<char>) -> (r: Option<usize>)
    ensures
        r matches Some(i) ==> i < node_map.len() && lookup(map_view(node_map@), key@) == Some(
            map_view(node_map@)[i as int].1,
        ),
        r is None ==> lookup(map_view(node_map@), key@) is None,
{
    let ghost m = map_view(node_map@);
    let mut i: usize = node_map.len();
    assert(m.take(i as int) =~= m);
    while i > 0
        invariant
            i <= node_map.len(),
            m == map_view(node_map@),
            lookup(m, key@) == lookup(m.take(i as int), key@),
        decreases i,
    {
        assert(m.take(i as int).drop_last() =~= m.take(i - 1));
        assert(m[i - 1].0 == node_map@[i - 1].0@);
        if crate::text::str_is(node_map[i - 1].0.as_str(), string_of(key).as_str()) {
            return Some(i - 1);
        }
        i = i - 1;
    }
    None
}

/// The node reached after `k` moves from `start`; `None` once a node on the
/// way is missing from the network.
pub open spec fn node_after(
    m: Seq<(Seq<char>, (Seq<char>, Seq<char>))>,
    moves: Seq<LeftRight>,
    start: Seq<char>,
    k: nat,
) -> Option<Seq<char>>
    decreases k,
{
    if k == 0 {
        Some(start)
    } else {
        match node_after(m, moves, start, (k - 1) as nat) {
            None => None,
            Some(n) => match lookup(m, n) {
                None => None,
                Some(next) => if moves.len() > 0 && moves[(k - 1) % moves.len() as int]
                    == LeftRight::Left {
                    Some(next.0)
                } else {
                    Some(next.1)
                },
            },
        }
    }
}

/// A missing node ends the walk for good.
proof fn lemma_walk_stops(
    m: Seq<(Seq<char>, (Seq<char>, Seq<char>))>,
    moves: Seq<LeftRight>,
    start: Seq<char>,
    k: nat,
    j: nat,
)
    requires
        k <= j,
        node_after(m, moves, start, k) is None,
    ensures
        node_after(m, moves, start, j) is None,
    decreases j - k,
{
    if k < j {
        lemma_walk_stops(m, moves, start, k, (j - 1) as nat);
    }
}

/// The walk is at a node that `goal` accepts.
pub open spec fn reaches(o: Option<Seq<char>>, goal: spec_fn(Seq<char>) -> bool) -> bool {
    match o {
        Some(x) => goal(x),
        None => false,
    }
}

/// The walk is at a node that `goal` does not accept.
pub open spec fn passes(o: Option<Seq<char>>, goal: spec_fn(Seq<char>) -> bool) -> bool {
    match o {
        Some(x) => !goal(x),
        None => false,
    }
}

/// Counts the moves from `start` until a node that `done` accepts, trying
/// at most `limit` moves.
pub open spec fn first_arrival(
    m: Seq<(Seq<char>, (Seq<char>, Seq<char>))>,
    moves: Seq<LeftRight>,
    start: Seq<char>,
    n: nat,
    goal: spec_fn(Seq<char>) -> bool,
) -> bool {
    &&& reaches(node_after(m, moves, start, n), goal)
    &&& forall|k: nat| k < n ==> passes(#[trigger] node_after(m, moves, start, k), goal)
}

/// The node `AAA`, where the walk starts.
pub open spec fn start_node() -> Seq<char> {
    seq!['A', 'A', 'A']
}

/// The node `ZZZ`.
pub open spec fn is_zzz(n: Seq<char>) -> bool {
    n == seq!['Z', 'Z', 'Z']
}

/// A node whose name ends with `Z`.
pub open spec fn ends_with_z(n: Seq<char>) -> bool {
    n.len() > 0 && n.last() == 'Z'
}

/// Walks from `start` until a node that is `ZZZ` (when `ghost_goal` is
/// false) or ends with `Z` (when it is true), and counts the moves; `None`
/// when there are no moves, a node on the way is missing, or no such node
/// comes within `limit` moves.
pub fn walk_until(
    moves: &Vec<LeftRight>,
    node_map: &Vec<(String, (String, String))>,
    start: &Vec<char>,
    ghost_goal: bool,
    limit: u64,
) -> (r: Option<u64>)
    ensures
        r matches Some(n) ==> first_arrival(
            map_view(node_map@),
            moves@,
            start@,
            n as nat,
            |x: Seq<char>| if ghost_goal { ends_with_z(x) } else { is_zzz(x) },
        ),
        r is None ==> moves.len() == 0 || forall|k: nat|
            k <= limit ==> !reaches(
                #[trigger] node_after(map_view(node_map@), moves@, start@, k),
                |x: Seq<char>| if ghost_goal { ends_with_z(x) } else { is_zzz(x) },
            ),
{
    let ghost m = map_view(node_map@);
    let ghost goal = |x: Seq<char>| if ghost_goal { ends_with_z(x) } else { is_zzz(x) };
    if moves.len() == 0 {
        return None;
    }
    let mut current: Vec<char> = start.clone();
    let mut move_count: u64 = 0;
    let mut current_move_index: usize = 0;
    assert(current@ == start@);
    loop
        invariant
            moves.len() > 0,
            m == map_view(node_map@),
            goal == (|x: Seq<char>| if ghost_goal { ends_with_z(x) } else { is_zzz(x) }),
            move_count <= limit,
            current_move_index == (move_count as int) % (moves.len() as int),
            node_after(m, moves@, start@, move_count as nat) == Some(current@),
            forall|k: nat|
                k < move_count ==> passes(#[trigger] node_after(m, moves@, start@, k), goal),
        decreases limit - move_count,
    {
        let arrived = if ghost_goal {
            current.len() > 0 && current[current.len() - 1] == 'Z'
        } else {
            current.len() == 3 && current[0] == 'Z' && current[1] == 'Z' && current[2] == 'Z'
        };
        if !ghost_goal && arrived {
            assert(current@ =~= seq!['Z', 'Z', 'Z']);
        }
        proof {
            if !ghost_goal && is_zzz(current@) {
                assert(current@.len() == 3 && current@[0] == 'Z' && current@[1] == 'Z'
                    && current@[2] == 'Z');
            }
        }
        assert(arrived == goal(current@));
        if arrived {
            return Some(move_count);
        }
        if move_count == limit {
            assert forall|k: nat| k <= limit implies !reaches(#[trigger] node_after(m, moves@, start@, k), goal) by {
                if k == limit {
                }
            }
            return None;
        }
        let found = match find_node(node_map, &current) {
            Some(i) => i,
            None => {
                proof {
                    assert(node_after(m, moves@, start@, (move_count + 1) as nat) is None);
                    assert forall|k: nat| k <= limit implies !reaches(#[trigger] node_after(m, moves@, start@, k), goal) by {
                        if k > move_count {
                            lemma_walk_stops(m, moves@, start@, (move_count + 1) as nat, k);
                        }
                    }
                }
                return None;
            },
        };
        let next = match moves[current_move_index] {
            LeftRight::Left => chars_of(node_map[found].1.0.as_str()),
            LeftRight::Right => chars_of(node_map[found].1.1.as_str()),
        };
        assert(m[found as int] == entry_view(node_map@[found as int]));
        current = next;
        move_count = move_count + 1;
        current_move_index = current_move_index + 1;
        if current_move_index == moves.len() {
            current_move_index = 0;
        }
        proof {
            let c = move_count as int;
            let l = moves.len() as int;
            assert(c % l == if (c - 1) % l + 1 == l {
                0
            } else {
                (c - 1) % l + 1
            }) by (nonlinear_arith)
                requires
                    l > 0,
                    c >= 1,
            ;
        }
    }
}

/// The number of moves from `AAA` to `ZZZ`, trying at most `limit` moves.
pub fn count_moves_to_end_of_map(
    moves: &Vec<LeftRight>,
    node_map: &Vec<(String, (String, String))>,
    limit: u64,
) -> (r: Option<u64>)
    ensures
        r matches Some(n) ==> first_arrival(
            map_view(node_map@),
            moves@,
            start_node(),
            n as nat,
            |x: Seq<char>| is_zzz(x),
        ),
        r is None ==> moves.len() == 0 || forall|k: nat|
            k <= limit ==> !reaches(
                #[trigger] node_after(map_view(node_map@), moves@, start_node(), k),
                |x: Seq<char>| is_zzz(x),
            ),
{
    let start = vec!['A', 'A', 'A'];
    assert(start@ =~= start_node());
    let r = walk_until(moves, node_map, &start, false, limit);
    proof {
        let g1 = |x: Seq<char>| if false { ends_with_z(x) } else { is_zzz(x) };
        let g2 = |x: Seq<char>| is_zzz(x);
        assert(g1 =~= g2);
    }
    r
}

/// The greatest common divisor, by Euclid's algorithm.
pub open spec fn gcd_spec(a: nat, b: nat) -> nat
    decreases a,
{
    if a == 0 {
        b
    } else {
        gcd_spec(b % a, a)
    }
}

/// The least common multiple, as `a / gcd(a, b) * b`.
pub open spec fn lcm_spec(a: nat, b: nat) -> nat {
    if gcd_spec(a, b) == 0 {
        0
    } else {
        (a / gcd_spec(a, b)) * b
    }
}

/// The greatest common divisor of two numbers that are not both zero is
/// positive.
proof fn lemma_gcd_positive(a: nat, b: nat)
    requires
        a > 0 || b > 0,
    ensures
        gcd_spec(a, b) > 0,
    decreases a,
{
    if a > 0 {
        lemma_gcd_positive(b % a, a);
    }
}

/// The greatest common divisor of `a` and `b`.
pub fn gcd(a: u64, b: u64) -> (r: u64)
    ensures
        r == gcd_spec(a as nat, b as nat),
    decreases a,
{
    if a == 0 {
        return b;
    }
    gcd(b % a, a)
}

/// The least common multiple of `a` and `b`; `None` when it does not fit a
/// `u64`.
pub fn lcm(a: u64, b: u64) -> (r: Option<u64>)
    requires
        a > 0 || b > 0,
    ensures
        r matches Some(v) ==> v == lcm_spec(a as nat, b as nat),
        r is None ==> lcm_spec(a as nat, b as nat) > u64::MAX,
{
    proof {
        lemma_gcd_positive(a as nat, b as nat);
    }
    let g = gcd(a, b);
    let q = a / g;
    match q.checked_mul(b) {
        Some(v) => Some(v),
        None => None,
    }
}

/// A node whose name ends with `A`.
pub open spec fn ends_with_a(n: Seq<char>) -> bool {
    n.len() > 0 && n.last() == 'A'
}

/// The nodes that the ghosts start from, in the order of the network.
pub open spec fn ghost_starts(m: Seq<(Seq<char>, (Seq<char>, Seq<char>))>) -> Seq<Seq<char>> {
    m.filter(|e: (Seq<char>, (Seq<char>, Seq<char>))| ends_with_a(e.0)).map_values(
        |e: (Seq<char>, (Seq<char>, Seq<char>))| e.0,
    )
}

/// The least common multiple of the counts, from 1.
pub open spec fn lcm_fold(c: Seq<nat>) -> nat
    decreases c.len(),
{
    if c.len() == 0 {
        1
    } else {
        lcm_spec(lcm_fold(c.drop_last()), c.last())
    }
}

/// `c[i]` is the number of moves from the `i`-th start to its first node
/// ending with `Z`.
pub open spec fn ghost_counts(
    m: Seq<(Seq<char>, (Seq<char>, Seq<char>))>,
    moves: Seq<LeftRight>,
    starts: Seq<Seq<char>>,
    c: Seq<nat>,
) -> bool {
    &&& c.len() == starts.len()
    &&& forall|i: int|
        0 <= i < c.len() ==> first_arrival(
            m,
            moves,
            #[trigger] starts[i],
            c[i],
            |x: Seq<char>| ends_with_z(x),
        )
}

/// The number of moves until every ghost, walking from each node that ends
/// with `A`, stands on a node that ends with `Z`: the least common multiple
/// of each ghost's own count. `None` when there are no moves, a ghost does
/// not arrive within `limit` moves, or a multiple does not fit a `u64`.
pub fn count_moves_to_end_of_map_as_ghost(
    moves: &Vec<LeftRight>,
    node_map: &Vec<(String, (String, String))>,
    limit: u64,
) -> (r: Option<u64>)
    ensures
        r matches Some(v) ==> exists|c: Seq<nat>|
            ghost_counts(map_view(node_map@), moves@, ghost_starts(map_view(node_map@)), c)
                && #[trigger] lcm_fold(c) == v,
        r is None ==> moves.len() == 0 || (exists|j: int|
            0 <= j < node_map.len() && ends_with_a(#[trigger] map_view(node_map@)[j].0) && forall|
                k: nat,
            |
                k <= limit ==> !reaches(
                    #[trigger] node_after(map_view(node_map@), moves@, map_view(node_map@)[j].0, k),
                    |x: Seq<char>| ends_with_z(x),
                )) || (exists|j: int, c: Seq<nat>|
            #![trigger ghost_starts(map_view(node_map@).take(j)), lcm_fold(c)]
            0 <= j <= node_map.len() && ghost_counts(
                map_view(node_map@),
                moves@,
                ghost_starts(map_view(node_map@).take(j)),
                c,
            ) && (lcm_fold(c) > u64::MAX || lcm_fold(c) == 0)),
{
    let ghost m = map_view(node_map@);
    let ghost pred = |e: (Seq<char>, (Seq<char>, Seq<char>))| ends_with_a(e.0);
    let ghost all_starts = ghost_starts(m);
    let mut current_lcm: u64 = 1;
    let ghost mut counts: Seq<nat> = seq![];
    let ghost mut seen: Seq<Seq<char>> = seq![];
    let mut i: usize = 0;
    proof {
        reveal(Seq::filter);
        assert(m.take(0) =~= seq![]);
        assert(m.take(0).filter(pred).map_values(|e: (Seq<char>, (Seq<char>, Seq<char>))| e.0)
            =~= seq![]);
    }
    while i < node_map.len()
        invariant
            i <= node_map.len(),
            m == map_view(node_map@),
            pred == (|e: (Seq<char>, (Seq<char>, Seq<char>))| ends_with_a(e.0)),
            seen == m.take(i as int).filter(pred).map_values(
                |e: (Seq<char>, (Seq<char>, Seq<char>))| e.0,
            ),
            seen == ghost_starts(m.take(i as int)),
            ghost_counts(m, moves@, seen, counts),
            current_lcm == lcm_fold(counts),
            current_lcm > 0,
        decreases node_map.len() - i,
    {
        proof {
            reveal(Seq::filter);
            assert(m.take(i + 1).drop_last() =~= m.take(i as int));
        }
        let key = chars_of(node_map[i].0.as_str());
        assert(m[i as int].0 == key@);
        if key.len() > 0 && key[key.len() - 1] == 'A' {
            let count = match walk_until(moves, node_map, &key, true, limit) {
                Some(c) => c,
                None => {
                    proof {
                        let g1 = |x: Seq<char>| if true { ends_with_z(x) } else { is_zzz(x) };
                        let g2 = |x: Seq<char>| ends_with_z(x);
                        assert(g1 =~= g2);
                        assert(ends_with_a(map_view(node_map@)[i as int].0));
                    }
                    return None;
                },
            };
            proof {
                let g1 = |x: Seq<char>| if true { ends_with_z(x) } else { is_zzz(x) };
                let g2 = |x: Seq<char>| ends_with_z(x);
                assert(g1 =~= g2);
            }
            let next_lcm = lcm(current_lcm, count);
            proof {
                let old_counts = counts;
                let old_seen = seen;
                counts = counts.push(count as nat);
                seen = seen.push(key@);
                assert(m.take(i + 1).filter(pred) == m.take(i as int).filter(pred).push(
                    m[i as int],
                ));
                assert(seen =~= m.take(i + 1).filter(pred).map_values(
                    |e: (Seq<char>, (Seq<char>, Seq<char>))| e.0,
                ));
                assert(counts.drop_last() =~= old_counts);
                assert forall|j: int| 0 <= j < counts.len() implies first_arrival(
                    m,
                    moves@,
                    #[trigger] seen[j],
                    counts[j],
                    |x: Seq<char>| ends_with_z(x),
                ) by {
                    if j < old_counts.len() {
                        assert(seen[j] == old_seen[j]);
                        assert(counts[j] == old_counts[j]);
                    }
                }
            }
            assert(m.take(i + 1) == map_view(node_map@).take(i + 1));
            assert(ghost_counts(m, moves@, ghost_starts(map_view(node_map@).take(i + 1)), counts));
            assert(lcm_fold(counts) == lcm_spec(lcm_fold(counts.drop_last()), count as nat));
            current_lcm = match next_lcm {
                Some(v) => v,
                None => return None,
            };
            if current_lcm == 0 {
                return None;
            }
        } else {
            assert(m.take(i + 1).filter(pred) == m.take(i as int).filter(pred));
        }
        i = i + 1;
    }
    assert(m.take(i as int) =~= m);
    Some(current_lcm)
}

impl Parse for NewDay8Puzzle {
    type Day = Day8Puzzle;

    fn parse_input(&self, puzzle_input: &str) -> (r: Result<Day8Puzzle, PuzzleError>)
        ensures
            r matches Ok(d) ==> split(puzzle_input@, seq!['\n', '\n']).len() >= 2 && d.moves.len()
                == split(puzzle_input@, seq!['\n', '\n'])[0].len() && (forall|i: int|
                0 <= i < d.moves.len() ==> #[trigger] d.moves[i] == (if split(
                    puzzle_input@,
                    seq!['\n', '\n'],
                )[0][i] == 'L' {
                    LeftRight::Left
                } else {
                    LeftRight::Right
                })) && collect_all(
                split(split(puzzle_input@, seq!['\n', '\n'])[1], seq!['\n']),
                |l| node_spec(l),
            ) == Ok::<Seq<(Seq<char>, (Seq<char>, Seq<char>))>, PuzzleError>(
                map_view(d.node_map@),
            ),
            r is Err ==> split(puzzle_input@, seq!['\n', '\n']).len() < 2 || collect_all(
                split(split(puzzle_input@, seq!['\n', '\n'])[1], seq!['\n']),
                |l| node_spec(l),
            ) is Err,
    {
        let sep = vec!['\n', '\n'];
        assert(sep@ =~= seq!['\n', '\n']);
        let sections = split_by(puzzle_input, &sep);
        if sections.len() < 2 {
            return Err(PuzzleError::MissingField);
        }
        assert(sections@[0]@ == str_views(sections@)[0]);
        assert(sections@[1]@ == str_views(sections@)[1]);
        let moves = parse_moves(sections[0]);
        let node_map = parse_nodes_map(sections[1])?;
        Ok(Day8Puzzle { moves, node_map })
    }
}

/// How far a walk is followed before it is taken never to arrive: as far as
/// a `u64` count goes.
pub const WALK_LIMIT: u64 = 18446744073709551615;

impl AdventDay for Day8Puzzle {
    fn solve_first_puzzle(&self) -> (r: Result<String, PuzzleError>)
        ensures
            r matches Ok(s) ==> exists|n: u64|
                #![trigger decimal_digits(n as nat)]
                s@ == decimal_digits(n as nat) && first_arrival(
                    map_view(self.node_map@),
                    self.moves@,
                    start_node(),
                    n as nat,
                    |x: Seq<char>| is_zzz(x),
                ),
            r is Err ==> self.moves.len() == 0 || forall|k: nat|
                k <= WALK_LIMIT ==> !reaches(
                    #[trigger] node_after(map_view(self.node_map@), self.moves@, start_node(), k),
                    |x: Seq<char>| is_zzz(x),
                ),
    {
        match count_moves_to_end_of_map(&self.moves, &self.node_map, WALK_LIMIT) {
            Some(n) => Ok(u64_to_string(n)),
            None => Err(PuzzleError::NoAnswer),
        }
    }

    fn solve_second_puzzle(&self) -> (r: Result<String, PuzzleError>)
        ensures
            r matches Ok(s) ==> exists|c: Seq<nat>|
                ghost_counts(map_view(self.node_map@), self.moves@, ghost_starts(map_view(self.node_map@)), c) && s@ == decimal_digits(
                    #[trigger] lcm_fold(c),
                ),
    {
        match count_moves_to_end_of_map_as_ghost(&self.moves, &self.node_map, WALK_LIMIT) {
            Some(n) => Ok(u64_to_string(n)),
            None => Err(PuzzleError::NoAnswer),
        }
    }
}

} // verus!
