//! Character-level building blocks shared by the puzzle parsers: copying a
//! string into a vector of characters, splitting on a separator, reading and
//! writing decimal numbers.
use vstd::prelude::*;

verus! {

/// Relies on `String::push`: appends one character at the end.
#[verifier::external_body]
pub(crate) fn push_char(s: &mut String, c: char)
    ensures
        final(s)@ == old(s)@.push(c),
{
    s.push(c)
}

/// The characters of `s`, in order.
pub fn chars_of(s: &str) -> (r: Vec<char>)
    ensures
        r@ == s@,
{
    let mut r: Vec<char> = Vec::new();
    for c in it: s.chars()
        invariant
            r@ == it.seq().take(it.index() as int),
    {
        r.push(c);
    }
    r
}

/// A `String` holding the characters of `v`.
pub fn string_of(v: &Vec<char>) -> (r: String)
    ensures
        r@ == v@,
{
    let mut r = String::new();
    let mut i: usize = 0;
    while i < v.len()
        invariant
            i <= v.len(),
            r@ == v@.take(i as int),
        decreases v.len() - i,
    {
        push_char(&mut r, v[i]);
        i = i + 1;
        assert(r@ =~= v@.take(i as int));
    }
    assert(r@ =~= v@);
    r
}

/// The characters of `s` between `a` (included) and `b` (excluded).
pub fn slice_of(s: &Vec<char>, a: usize, b: usize) -> (r: Vec<char>)
    requires
        a <= b <= s.len(),
    ensures
        r@ == s@.subrange(a as int, b as int),
{
    let mut r: Vec<char> = Vec::new();
    let mut i: usize = a;
    while i < b
        invariant
            a <= i <= b <= s.len(),
            r@ == s@.subrange(a as int, i as int),
        decreases b - i,
    {
        r.push(s[i]);
        i = i + 1;
        assert(r@ =~= s@.subrange(a as int, i as int));
    }
    r
}

/// The views of a sequence of character vectors.
pub open spec fn views(v: Seq<Vec<char>>) -> Seq<Seq<char>> {
    v.map_values(|x: Vec<char>| x@)
}

/// `p` occurs in `s` at position `i`.
pub open spec fn matches_at(s: Seq<char>, p: Seq<char>, i: int) -> bool {
    0 <= i && i + p.len() <= s.len() && s.subrange(i, i + p.len()) == p
}

/// Position of the first occurrence of `p` in `s` at or after `i`, or -1.
pub open spec fn find_from(s: Seq<char>, p: Seq<char>, i: int) -> int
    decreases s.len() - i,
{
    if i < 0 || i >= s.len() || i + p.len() > s.len() {
        -1
    } else if matches_at(s, p, i) {
        i
    } else {
        find_from(s, p, i + 1)
    }
}

/// The pieces of `s` from `start` on that lie between occurrences of `p`,
/// the occurrences being found from left to right without overlap.
pub open spec fn split_from(s: Seq<char>, p: Seq<char>, start: int) -> Seq<Seq<char>>
    decreases s.len() - start,
{
    if p.len() == 0 || start < 0 || start > s.len() {
        seq![]
    } else {
        let k = find_from(s, p, start);
        if k < start || k + p.len() > s.len() {
            seq![s.subrange(start, s.len() as int)]
        } else {
            seq![s.subrange(start, k)] + split_from(s, p, k + p.len())
        }
    }
}

/// `s` split on every occurrence of the non-empty separator `p`, as
/// `str::split` does: an empty input gives one empty piece, and two
/// adjacent separators give an empty piece between them.
pub open spec fn split(s: Seq<char>, p: Seq<char>) -> Seq<Seq<char>> {
    split_from(s, p, 0)
}

/// `b` gives, for each of `pieces`, bounds in `s` that hold it.
pub open spec fn bounds_hold(s: Seq<char>, b: Seq<(usize, usize)>, pieces: Seq<Seq<char>>) -> bool {
    &&& b.len() == pieces.len()
    &&& forall|k: int|
        0 <= k < b.len() ==> #[trigger] b[k].0 <= b[k].1 <= s.len() && s.subrange(
            b[k].0 as int,
            b[k].1 as int,
        ) == pieces[k]
}

/// Position of the last occurrence of `p` in `s` that starts at or before
/// `i`, or -1.
pub open spec fn rfind_upto(s: Seq<char>, p: Seq<char>, i: int) -> int
    decreases i + 1,
{
    if i < 0 {
        -1
    } else if matches_at(s, p, i) {
        i
    } else {
        rfind_upto(s, p, i - 1)
    }
}

/// Position of the last occurrence of `p` in `s`, or -1.
pub open spec fn rfind(s: Seq<char>, p: Seq<char>) -> int {
    rfind_upto(s, p, s.len() - p.len())
}

/// Position of the first occurrence of `p` in `s`, as `str::find` gives it
/// counted in characters.
pub fn find_first(s: &Vec<char>, p: &Vec<char>) -> (r: Option<usize>)
    ensures
        r matches Some(k) ==> find_from(s@, p@, 0) == k,
        r is None ==> find_from(s@, p@, 0) == -1,
{
    let mut i: usize = 0;
    while i < s.len()
        invariant
            i <= s.len(),
            find_from(s@, p@, 0) == find_from(s@, p@, i as int),
        decreases s.len() - i,
    {
        if match_at(s, p, i) {
            return Some(i);
        }
        i = i + 1;
    }
    None
}

/// Position of the last occurrence of `p` in `s`, as `str::rfind` gives it
/// counted in characters.
pub fn find_last(s: &Vec<char>, p: &Vec<char>) -> (r: Option<usize>)
    ensures
        r matches Some(k) ==> rfind(s@, p@) == k,
        r is None ==> rfind(s@, p@) == -1,
{
    if p.len() > s.len() {
        return None;
    }
    if p.len() == 0 {
        assert(matches_at(s@, p@, s@.len() as int)) by {
            assert(s@.subrange(s@.len() as int, s@.len() as int) =~= p@);
        }
        return Some(s.len());
    }
    let mut i: usize = s.len() - p.len() + 1;
    while i > 0
        invariant
            i <= s.len() - p.len() + 1,
            rfind(s@, p@) == rfind_upto(s@, p@, i - 1),
        decreases i,
    {
        if match_at(s, p, i - 1) {
            return Some(i - 1);
        }
        i = i - 1;
    }
    None
}

/// The pieces joined into one sequence, with `sep` between each two.
pub open spec fn join(pieces: Seq<Seq<char>>, sep: Seq<char>) -> Seq<char>
    decreases pieces.len(),
{
    if pieces.len() == 0 {
        seq![]
    } else if pieces.len() == 1 {
        pieces[0]
    } else {
        join(pieces.drop_last(), sep) + sep + pieces.last()
    }
}

/// `s` with each occurrence of the non-empty `from`, found left to right
/// without overlap, replaced by `to`: what `str::replace` gives.
pub open spec fn replace_all(s: Seq<char>, from: Seq<char>, to: Seq<char>) -> Seq<char> {
    join(split(s, from), to)
}

/// `s` with each occurrence of the non-empty `from` replaced by `to`.
pub fn replace_str(s: &str, from: &str, to: &str) -> (r: String)
    requires
        from@.len() > 0,
    ensures
        r@ == replace_all(s@, from@, to@),
{
    let pieces = split_str(s, from);
    let ghost ps = split(s@, from@);
    let mut r = String::new();
    r.append(pieces[0]);
    assert(pieces@[0]@ == ps[0]);
    assert(ps.take(1).drop_last() =~= seq![]);
    let mut i: usize = 1;
    while i < pieces.len()
        invariant
            1 <= i <= pieces.len(),
            str_views(pieces@) == ps,
            r@ == join(ps.take(i as int), to@),
        decreases pieces.len() - i,
    {
        assert(pieces@[i as int]@ == ps[i as int]);
        assert(ps.take(i + 1).drop_last() =~= ps.take(i as int));
        r.append(to);
        r.append(pieces[i]);
        i = i + 1;
    }
    assert(ps.take(i as int) =~= ps);
    r
}

/// The views of a sequence of string slices.
pub open spec fn str_views(v: Seq<&str>) -> Seq<Seq<char>> {
    v.map_values(|x: &str| x@)
}

/// Whether `p` occurs in `s` at position `i`.
pub fn match_at(s: &Vec<char>, p: &Vec<char>, i: usize) -> (r: bool)
    ensures
        r == matches_at(s@, p@, i as int),
{
    if i > s.len() || p.len() > s.len() - i {
        return false;
    }
    let mut j: usize = 0;
    while j < p.len()
        invariant
            i + p.len() <= s.len(),
            j <= p.len(),
            forall|k: int| 0 <= k < j ==> s@[i + k] == p@[k],
        decreases p.len() - j,
    {
        if s[i + j] != p[j] {
            assert(s@.subrange(i as int, i + p.len())[j as int] != p@[j as int]);
            return false;
        }
        j = j + 1;
    }
    assert(s@.subrange(i as int, i + p.len()) =~= p@);
    true
}

/// Where the pieces of `split(s, p)` lie in `s`: one pair of bounds per piece.
pub fn split_bounds(s: &Vec<char>, p: &Vec<char>) -> (r: Vec<(usize, usize)>)
    requires
        p.len() > 0,
    ensures
        bounds_hold(s@, r@, split(s@, p@)),
        split(s@, p@).len() >= 1,
{
    let mut r: Vec<(usize, usize)> = Vec::new();
    let mut start: usize = 0;
    let mut i: usize = 0;
    let ghost pieces: Seq<Seq<char>> = seq![];
    while i <= s.len() && p.len() <= s.len() - i
        invariant
            p.len() > 0,
            start <= i <= s.len(),
            find_from(s@, p@, start as int) == find_from(s@, p@, i as int),
            pieces + split_from(s@, p@, start as int) == split(s@, p@),
            bounds_hold(s@, r@, pieces),
        decreases s.len() - i,
    {
        if match_at(s, p, i) {
            proof {
                let rest = split_from(s@, p@, i + p.len());
                assert(split_from(s@, p@, start as int) == seq![
                    s@.subrange(start as int, i as int),
                ] + rest);
                assert(pieces.push(s@.subrange(start as int, i as int)) + rest =~= pieces
                    + split_from(s@, p@, start as int));
                pieces = pieces.push(s@.subrange(start as int, i as int));
            }
            r.push((start, i));
            assert(r@[r.len() - 1].0 <= r@[r.len() - 1].1);
            start = i + p.len();
            i = start;
        } else {
            i = i + 1;
        }
    }
    proof {
        assert(find_from(s@, p@, i as int) == -1);
        assert(split_from(s@, p@, start as int) == seq![
            s@.subrange(start as int, s.len() as int),
        ]);
        assert(pieces.push(s@.subrange(start as int, s.len() as int)) =~= pieces
            + split_from(s@, p@, start as int));
        pieces = pieces.push(s@.subrange(start as int, s.len() as int));
    }
    r.push((start, s.len()));
    assert(r@[r.len() - 1].0 <= r@[r.len() - 1].1);
    r
}

/// The pieces of `split(s, p)`, copied out.
pub fn split_on(s: &Vec<char>, p: &Vec<char>) -> (r: Vec<Vec<char>>)
    requires
        p.len() > 0,
    ensures
        views(r@) == split(s@, p@),
{
    let bounds = split_bounds(s, p);
    let mut r: Vec<Vec<char>> = Vec::new();
    let mut k: usize = 0;
    while k < bounds.len()
        invariant
            k <= bounds.len(),
            bounds_hold(s@, bounds@, split(s@, p@)),
            views(r@) == split(s@, p@).take(k as int),
        decreases bounds.len() - k,
    {
        let (a, b) = bounds[k];
        assert(bounds@[k as int].0 <= bounds@[k as int].1 <= s.len());
        let piece = slice_of(s, a, b);
        assert(piece@ == split(s@, p@)[k as int]);
        let ghost old_r = r@;
        r.push(piece);
        assert(views(r@) =~= views(old_r).push(piece@));
        k = k + 1;
        assert(views(r@) =~= split(s@, p@).take(k as int));
    }
    assert(split(s@, p@).take(k as int) =~= split(s@, p@));
    r
}

/// The pieces of `s` between occurrences of the non-empty separator `p`, as
/// slices of `s`.
pub fn split_by<'a>(s: &'a str, sep: &Vec<char>) -> (r: Vec<&'a str>)
    requires
        sep@.len() > 0,
    ensures
        str_views(r@) == split(s@, sep@),
        r.len() >= 1,
{
    let chars = chars_of(s);
    let bounds = split_bounds(&chars, sep);
    let mut r: Vec<&'a str> = Vec::new();
    let mut k: usize = 0;
    while k < bounds.len()
        invariant
            k <= bounds.len(),
            chars@ == s@,
            bounds_hold(s@, bounds@, split(s@, sep@)),
            str_views(r@) == split(s@, sep@).take(k as int),
        decreases bounds.len() - k,
    {
        let (a, b) = bounds[k];
        assert(bounds@[k as int].0 <= bounds@[k as int].1 <= s@.len());
        let piece = s.substring_char(a, b);
        let ghost old_r = r@;
        r.push(piece);
        assert(str_views(r@) =~= str_views(old_r).push(piece@));
        k = k + 1;
        assert(str_views(r@) =~= split(s@, sep@).take(k as int));
    }
    assert(split(s@, sep@).take(k as int) =~= split(s@, sep@));
    r
}

/// The pieces of `s` between occurrences of the non-empty separator `p`.
pub fn split_str<'a>(s: &'a str, p: &str) -> (r: Vec<&'a str>)
    requires
        p@.len() > 0,
    ensures
        str_views(r@) == split(s@, p@),
        r.len() >= 1,
{
    let sep = chars_of(p);
    split_by(s, &sep)
}

/// The pieces of `s` between occurrences of the character `c`.
pub fn split_char<'a>(s: &'a str, c: char) -> (r: Vec<&'a str>)
    ensures
        str_views(r@) == split(s@, seq![c]),
        r.len() >= 1,
{
    let sep = vec![c];
    assert(sep@ =~= seq![c]);
    split_by(s, &sep)
}

/// Strings seen as character sequences.
pub open spec fn strings_view(v: Seq<String>) -> Seq<Seq<char>> {
    v.map_values(|s: String| s@)
}

/// The pieces of `s` between occurrences of `c`, copied into strings.
pub fn split_owned(s: &str, c: char) -> (r: Vec<String>)
    ensures
        strings_view(r@) == split(s@, seq![c]),
{
    let pieces = split_char(s, c);
    let ghost ps = split(s@, seq![c]);
    let mut r: Vec<String> = Vec::new();
    let mut i: usize = 0;
    while i < pieces.len()
        invariant
            i <= pieces.len(),
            str_views(pieces@) == ps,
            strings_view(r@) == ps.take(i as int),
        decreases pieces.len() - i,
    {
        assert(pieces@[i as int]@ == ps[i as int]);
        let ghost old_r = r@;
        r.push(pieces[i].to_owned());
        assert(strings_view(r@) =~= strings_view(old_r).push(ps[i as int]));
        i = i + 1;
        assert(strings_view(r@) =~= ps.take(i as int));
    }
    assert(ps.take(i as int) =~= ps);
    r
}

/// Whether the string `s` holds exactly the characters `t`.
pub fn str_is(s: &str, t: &str) -> (r: bool)
    ensures
        r == (s@ == t@),
{
    let a = chars_of(s);
    let b = chars_of(t);
    if a.len() != b.len() {
        return false;
    }
    let mut i: usize = 0;
    while i < a.len()
        invariant
            a@ == s@,
            b@ == t@,
            a.len() == b.len(),
            i <= a.len(),
            forall|j: int| 0 <= j < i ==> a@[j] == b@[j],
        decreases a.len() - i,
    {
        if a[i] != b[i] {
            assert(a@[i as int] != b@[i as int]);
            return false;
        }
        i = i + 1;
    }
    assert(a@ =~= b@);
    true
}

/// `f` applied to each of `xs` in turn: the first error met, or every result.
pub open spec fn collect_all<A, T, E>(xs: Seq<A>, f: spec_fn(A) -> Result<T, E>) -> Result<Seq<T>, E>
    decreases xs.len(),
{
    if xs.len() == 0 {
        Ok(seq![])
    } else {
        match collect_all(xs.drop_last(), f) {
            Err(e) => Err(e),
            Ok(v) => match f(xs.last()) {
                Ok(t) => Ok(v.push(t)),
                Err(e) => Err(e),
            },
        }
    }
}

/// Once a prefix of `xs` has failed, the whole fails with the same error.
pub proof fn lemma_collect_all_err<A, T, E>(xs: Seq<A>, f: spec_fn(A) -> Result<T, E>, i: int)
    requires
        0 <= i <= xs.len(),
        collect_all(xs.take(i), f) is Err,
    ensures
        collect_all(xs, f) == collect_all(xs.take(i), f),
    decreases xs.len(),
{
    if i < xs.len() {
        assert(xs.drop_last().take(i) =~= xs.take(i));
        lemma_collect_all_err(xs.drop_last(), f, i);
    } else {
        assert(xs.take(i) =~= xs);
    }
}

/// Whether `s` is the one character `c`.
pub fn is_single(s: &str, c: char) -> (r: bool)
    ensures
        r == (s@ == seq![c]),
{
    let v = chars_of(s);
    let r = v.len() == 1 && v[0] == c;
    if r {
        assert(v@ =~= seq![c]);
    }
    r
}

/// The sum of a sequence of numbers.
pub open spec fn seq_sum(v: Seq<nat>) -> nat
    decreases v.len(),
{
    if v.len() == 0 {
        0
    } else {
        seq_sum(v.drop_last()) + v.last()
    }
}

/// `c` is one of the ASCII digits `0` to `9`.
pub open spec fn is_digit(c: char) -> bool {
    '0' <= c <= '9'
}

/// The value of the ASCII digit `c`.
pub open spec fn digit_value(c: char) -> nat {
    (c as int - '0' as int) as nat
}

/// `s` is a non-empty run of ASCII digits.
pub open spec fn is_decimal(s: Seq<char>) -> bool {
    s.len() > 0 && forall|i: int| 0 <= i < s.len() ==> is_digit(#[trigger] s[i])
}

/// The number that the digits `s` write in base ten.
pub open spec fn decimal_value(s: Seq<char>) -> nat
    decreases s.len(),
{
    if s.len() == 0 {
        0
    } else {
        decimal_value(s.drop_last()) * 10 + digit_value(s.last())
    }
}

/// What reading the digits `s` as a number below `bound` gives.
pub open spec fn read_digits(s: Seq<char>, bound: nat) -> Option<nat> {
    if is_decimal(s) && decimal_value(s) < bound {
        Some(decimal_value(s))
    } else {
        None
    }
}

/// What reading `s` as an unsigned number below `bound` gives, as
/// `str::parse` reads it: an optional `+`, then digits.
pub open spec fn read_unsigned(s: Seq<char>, bound: nat) -> Option<nat> {
    if s.len() > 0 && s[0] == '+' {
        read_digits(s.skip(1), bound)
    } else {
        read_digits(s, bound)
    }
}

/// The value of a prefix of digits is at most that of the whole.
pub proof fn lemma_decimal_prefix_le(s: Seq<char>, i: int)
    requires
        0 <= i <= s.len(),
    ensures
        decimal_value(s.take(i)) <= decimal_value(s),
    decreases s.len(),
{
    if i < s.len() {
        assert(s.take(i) =~= s.drop_last().take(i));
        lemma_decimal_prefix_le(s.drop_last(), i);
    } else {
        assert(s.take(i) =~= s);
    }
}

/// `s` read as a `u64`, as `str::parse::<u64>` reads it: `None` where `s`
/// (after an optional `+`) is empty, holds a non-digit, or is too large.
pub fn parse_u64(s: &Vec<char>) -> (r: Option<u64>)
    ensures
        r matches Some(v) ==> read_unsigned(s@, u64::MAX as nat + 1) == Some(v as nat),
        r is None ==> read_unsigned(s@, u64::MAX as nat + 1) is None,
{
    if s.len() > 0 && s[0] == '+' {
        let rest = slice_of(s, 1, s.len());
        assert(rest@ =~= s@.skip(1));
        parse_digits_u64(&rest)
    } else {
        parse_digits_u64(s)
    }
}

/// The digits `s` read as a `u64`.
fn parse_digits_u64(s: &Vec<char>) -> (r: Option<u64>)
    ensures
        r matches Some(v) ==> read_digits(s@, u64::MAX as nat + 1) == Some(v as nat),
        r is None ==> read_digits(s@, u64::MAX as nat + 1) is None,
{
    if s.len() == 0 {
        return None;
    }
    let mut acc: u64 = 0;
    let mut i: usize = 0;
    while i < s.len()
        invariant
            i <= s.len(),
            acc as nat == decimal_value(s@.take(i as int)),
            forall|j: int| 0 <= j < i ==> is_digit(#[trigger] s@[j]),
        decreases s.len() - i,
    {
        let c = s[i];
        if !('0' <= c && c <= '9') {
            return None;
        }
        let d = (c as u32 - '0' as u32) as u64;
        assert(s@.take(i + 1).drop_last() =~= s@.take(i as int));
        proof {
            lemma_decimal_prefix_le(s@, i + 1);
        }
        if acc > (u64::MAX - d) / 10 {
            assert(acc * 10 + d > u64::MAX) by (nonlinear_arith)
                requires
                    acc > (u64::MAX - d) / 10,
                    d <= 9,
            ;
            return None;
        }
        assert(acc * 10 + d <= u64::MAX) by (nonlinear_arith)
            requires
                acc <= (u64::MAX - d) / 10,
                d <= 9,
        ;
        acc = acc * 10 + d;
        i = i + 1;
    }
    assert(s@.take(i as int) =~= s@);
    Some(acc)
}

/// `s` read as a `u32`, as `str::parse::<u32>` reads it.
pub fn parse_u32(s: &Vec<char>) -> (r: Option<u32>)
    ensures
        r matches Some(v) ==> read_unsigned(s@, u32::MAX as nat + 1) == Some(v as nat),
        r is None ==> read_unsigned(s@, u32::MAX as nat + 1) is None,
{
    match parse_u64(s) {
        Some(v) => {
            if v <= u32::MAX as u64 {
                Some(v as u32)
            } else {
                None
            }
        },
        None => None,
    }
}

/// What reading `s` as an `i64` gives: an optional `-` or `+`, then
/// digits.
pub open spec fn read_i64(s: Seq<char>) -> Option<int> {
    if s.len() > 0 && s[0] == '-' {
        match read_digits(s.skip(1), i64::MAX as nat + 2) {
            Some(v) => Some(-v),
            None => None,
        }
    } else {
        match read_unsigned(s, i64::MAX as nat + 1) {
            Some(v) => Some(v as int),
            None => None,
        }
    }
}

/// `s` read as an `i64`, as `str::parse::<i64>` reads it.
pub fn parse_i64(s: &Vec<char>) -> (r: Option<i64>)
    ensures
        r matches Some(v) ==> read_i64(s@) == Some(v as int),
        r is None ==> read_i64(s@) is None,
{
    if s.len() > 0 && s[0] == '-' {
        let rest = slice_of(s, 1, s.len());
        assert(rest@ =~= s@.skip(1));
        match parse_digits_u64(&rest) {
            Some(v) => {
                if v <= i64::MAX as u64 + 1 {
                    Some((0 - v as i128) as i64)
                } else {
                    None
                }
            },
            None => None,
        }
    } else {
        match parse_u64(s) {
            Some(v) => {
                if v <= i64::MAX as u64 {
                    Some(v as i64)
                } else {
                    None
                }
            },
            None => None,
        }
    }
}

/// The digit character for `d < 10`.
pub open spec fn digit_char(d: nat) -> char {
    ((d + 48) as u8) as char
}

/// The decimal digits of `n`, most significant first, without leading zeros.
pub open spec fn decimal_digits(n: nat) -> Seq<char>
    decreases n,
{
    if n < 10 {
        seq![digit_char(n)]
    } else {
        decimal_digits(n / 10).push(digit_char(n % 10))
    }
}

/// Appends the decimal digits of `n` to `out`.
pub fn write_decimal(out: &mut String, n: u64)
    ensures
        final(out)@ == old(out)@ + decimal_digits(n as nat),
    decreases n,
{
    if n >= 10 {
        write_decimal(out, n / 10);
    }
    let d = (n % 10) as u8;
    push_char(out, (d + 48) as char);
    assert(final(out)@ =~= old(out)@ + decimal_digits(n as nat));
}

/// `n` written in decimal.
pub fn u64_to_string(n: u64) -> (r: String)
    ensures
        r@ == decimal_digits(n as nat),
{
    let mut r = String::new();
    write_decimal(&mut r, n);
    assert(r@ =~= decimal_digits(n as nat));
    r
}

} // verus!
