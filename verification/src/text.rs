//! Character sequences: finding a separator, splitting on it, reading decimal digits.
//!
//! Every grammar of this crate is stated over `Seq<char>`, the view of a `&str`.
//! The executable functions here are proved against those statements.

use vstd::prelude::*;
use vstd::string::*;

verus! {

/// Position of the first `sep` in `s`, or `s.len()` where `s` holds none.
pub open spec fn first_index_of(s: Seq<char>, sep: char) -> int
    decreases s.len(),
{
    if s.len() == 0 || s[0] == sep {
        0
    } else {
        1 + first_index_of(s.skip(1), sep)
    }
}

/// The pieces of `s` that lie between occurrences of `sep`, in order. A string
/// without `sep` is its own single piece; so is the empty string.
pub open spec fn split_on(s: Seq<char>, sep: char) -> Seq<Seq<char>>
    decreases s.len(),
{
    let i = first_index_of(s, sep);
    if 0 <= i < s.len() {
        seq![s.take(i)] + split_on(s.skip(i + 1), sep)
    } else {
        seq![s]
    }
}

/// The views of a sequence of string slices.
pub open spec fn slice_views(parts: Seq<&str>) -> Seq<Seq<char>> {
    Seq::new(parts.len(), |k: int| parts[k]@)
}

/// The views of a sequence of owned strings.
pub open spec fn string_views(items: Seq<String>) -> Seq<Seq<char>> {
    Seq::new(items.len(), |k: int| items[k]@)
}

/// `first_index_of` lies within the string, nothing before it is `sep`, and where
/// it is an index the character there is `sep`.
pub proof fn lemma_first_index_of(s: Seq<char>, sep: char)
    ensures
        0 <= first_index_of(s, sep) <= s.len(),
        forall|j: int| 0 <= j < first_index_of(s, sep) ==> s[j] != sep,
        first_index_of(s, sep) < s.len() ==> s[first_index_of(s, sep)] == sep,
    decreases s.len(),
{
    if s.len() == 0 || s[0] == sep {
    } else {
        let rest = s.skip(1);
        lemma_first_index_of(rest, sep);
        assert forall|j: int| 0 <= j < first_index_of(s, sep) implies s[j] != sep by {
            if j > 0 {
                assert(s[j] == rest[j - 1]);
            }
        }
    }
}

/// A position with no `sep` before it that is the end of the string or holds
/// `sep` is the one `first_index_of` names.
pub proof fn lemma_first_index_is(s: Seq<char>, sep: char, i: int)
    requires
        0 <= i <= s.len(),
        forall|j: int| 0 <= j < i ==> s[j] != sep,
        i < s.len() ==> s[i] == sep,
    ensures
        first_index_of(s, sep) == i,
    decreases s.len(),
{
    if s.len() == 0 || s[0] == sep {
    } else {
        let rest = s.skip(1);
        lemma_first_index_is(rest, sep, i - 1);
    }
}

/// No piece of a split holds the separator, and there is at least one piece.
pub proof fn lemma_split_pieces(s: Seq<char>, sep: char)
    ensures
        split_on(s, sep).len() >= 1,
        forall|k: int, j: int|
            0 <= k < split_on(s, sep).len() && 0 <= j < split_on(s, sep)[k].len()
                ==> split_on(s, sep)[k][j] != sep,
    decreases s.len(),
{
    let i = first_index_of(s, sep);
    lemma_first_index_of(s, sep);
    if 0 <= i < s.len() {
        let rest = s.skip(i + 1);
        lemma_split_pieces(rest, sep);
    }
}

/// A string without the separator splits into itself alone.
pub proof fn lemma_split_without_sep(s: Seq<char>, sep: char)
    requires
        forall|j: int| 0 <= j < s.len() ==> s[j] != sep,
    ensures
        split_on(s, sep) == seq![s],
{
    lemma_first_index_is(s, sep, s.len() as int);
}

/// The pieces put together again, with `sep` between one piece and the next.
pub open spec fn join(pieces: Seq<Seq<char>>, sep: char) -> Seq<char>
    decreases pieces.len(),
{
    if pieces.len() == 0 {
        Seq::empty()
    } else if pieces.len() == 1 {
        pieces[0]
    } else {
        pieces[0] + seq![sep] + join(pieces.skip(1), sep)
    }
}

/// Splitting loses nothing: the pieces, joined by the separator, are the string.
pub proof fn lemma_split_join(s: Seq<char>, sep: char)
    ensures
        join(split_on(s, sep), sep) == s,
    decreases s.len(),
{
    let i = first_index_of(s, sep);
    lemma_first_index_of(s, sep);
    if 0 <= i < s.len() {
        let rest = s.skip(i + 1);
        let pieces = split_on(s, sep);
        lemma_split_join(rest, sep);
        lemma_split_pieces(rest, sep);
        assert(pieces.skip(1) == split_on(rest, sep));
    }
}

/// Splitting distributes over a separator: the pieces of `a`, `sep`, `b` put
/// together are the pieces of `a` followed by the pieces of `b`.
pub proof fn lemma_split_concat(a: Seq<char>, b: Seq<char>, sep: char)
    ensures
        split_on(a + seq![sep] + b, sep) == split_on(a, sep) + split_on(b, sep),
    decreases a.len(),
{
    let s = a + seq![sep] + b;
    let i = first_index_of(a, sep);
    lemma_first_index_of(a, sep);
    lemma_first_index_is(s, sep, i);
    assert(s.take(i) == a.take(i));
    if i < a.len() {
        let rest = a.skip(i + 1);
        assert(s.skip(i + 1) == rest + seq![sep] + b);
        lemma_split_concat(rest, b, sep);
        assert(seq![a.take(i)] + (split_on(rest, sep) + split_on(b, sep)) == (seq![a.take(i)]
            + split_on(rest, sep)) + split_on(b, sep));
    } else {
        assert(a.take(i) == a);
        assert(s.skip(i + 1) == b);
    }
}

/// Some piece of the split of `s` on `sep` is empty.
pub open spec fn has_empty_piece(s: Seq<char>, sep: char) -> bool {
    exists|k: int| 0 <= k < split_on(s, sep).len() && #[trigger] split_on(s, sep)[k].len() == 0
}

/// `s` is empty, or a separator stands where no piece can stand before or after
/// it: at the very start, at the very end, or right behind another one.
pub open spec fn has_stray_separator(s: Seq<char>, sep: char) -> bool {
    ||| s.len() == 0
    ||| s[0] == sep
    ||| s.last() == sep
    ||| exists|i: int| 0 <= i < s.len() - 1 && s[i] == sep && #[trigger] s[i + 1] == sep
}

/// A stray separator leaves an empty piece: a leading one an empty first piece,
/// a trailing one an empty last piece, a doubled one an empty piece in between.
pub proof fn lemma_stray_separator(s: Seq<char>, sep: char)
    requires
        has_stray_separator(s, sep),
    ensures
        has_empty_piece(s, sep),
{
    let empty = Seq::<char>::empty();
    let pieces = split_on(s, sep);
    lemma_split_without_sep(empty, sep);
    if s.len() == 0 {
        assert(pieces[0].len() == 0);
    } else if s[0] == sep {
        lemma_split_concat(empty, s.skip(1), sep);
        assert(pieces[0].len() == 0);
    } else if s.last() == sep {
        lemma_split_concat(s.drop_last(), empty, sep);
        assert(s.drop_last() + seq![sep] + empty == s);
        lemma_split_pieces(s.drop_last(), sep);
        assert(pieces[pieces.len() - 1].len() == 0);
    } else {
        let i = choose|i: int| 0 <= i < s.len() - 1 && s[i] == sep && #[trigger] s[i + 1] == sep;
        let head = s.take(i);
        let tail = s.skip(i + 1);
        lemma_split_concat(head, tail, sep);
        assert(head + seq![sep] + tail == s);
        lemma_split_pieces(head, sep);
        lemma_split_pieces(tail, sep);
        lemma_split_concat(empty, tail.skip(1), sep);
        let k = split_on(head, sep).len() as int;
        assert(pieces[k] == split_on(tail, sep)[0]);
    }
}

/// The characters of `s`, in order.
pub fn chars_of(s: &str) -> (out: Vec<char>)
    ensures
        out@ == s@,
{
    let mut out: Vec<char> = Vec::new();
    for c in it: s.chars()
        invariant
            out@ == it.seq().take(it.index() as int),
            it.seq() == s@,
    {
        out.push(c);
    }
    out
}

/// The first position at or after `from` that holds `sep`, or the length of
/// `chars` where none does.
pub fn find_char(chars: &Vec<char>, from: usize, sep: char) -> (at: usize)
    requires
        from <= chars.len(),
    ensures
        from <= at <= chars.len(),
        at - from == first_index_of(chars@.skip(from as int), sep),
{
    let mut at: usize = from;
    while at < chars.len() && chars[at] != sep
        invariant
            from <= at <= chars.len(),
            forall|j: int| from <= j < at ==> chars[j] != sep,
        decreases chars.len() - at,
    {
        at += 1;
    }
    proof {
        let rest = chars@.skip(from as int);
        lemma_first_index_is(rest, sep, at - from);
    }
    at
}

/// Splits `s` on every `sep`: the slices between the separators, in order, empty
/// ones included.
pub fn split_str<'a>(s: &'a str, sep: char) -> (parts: Vec<&'a str>)
    ensures
        slice_views(parts@) == split_on(s@, sep),
{
    let chars = chars_of(s);
    let n = chars.len();
    let mut parts: Vec<&'a str> = Vec::new();
    let mut start: usize = 0;
    proof {
        assert(s@.skip(0) == s@);
    }
    loop
        invariant_except_break
            n == chars.len(),
            chars@ == s@,
            start <= n,
            split_on(s@, sep) == slice_views(parts@) + split_on(s@.skip(start as int), sep),
        ensures
            slice_views(parts@) == split_on(s@, sep),
        decreases n - start,
    {
        let end = find_char(&chars, start, sep);
        let piece = s.substring_char(start, end);
        let ghost rest = s@.skip(start as int);
        parts.push(piece);
        proof {
            assert(rest.take(end - start) == s@.subrange(start as int, end as int));
        }
        if end == n {
            break ;
        }
        proof {
            assert(rest.skip(end - start + 1) == s@.skip(end + 1));
        }
        start = end + 1;
    }
    parts
}

/// `c` is one of the ten decimal digits of ASCII.
pub open spec fn is_digit(c: char) -> bool {
    '0' <= c <= '9'
}

/// The number that a decimal digit stands for.
pub open spec fn digit_value(c: char) -> int {
    c as int - '0' as int
}

/// Every character of `s` is a decimal digit.
pub open spec fn all_digits(s: Seq<char>) -> bool {
    forall|i: int| 0 <= i < s.len() ==> is_digit(#[trigger] s[i])
}

/// The number that a string of decimal digits writes, most significant digit
/// first; 0 for the empty string.
pub open spec fn decimal_value(s: Seq<char>) -> int
    decreases s.len(),
{
    if s.len() == 0 {
        0
    } else {
        10 * decimal_value(s.drop_last()) + digit_value(s.last())
    }
}

/// The value of `c` where it is a decimal digit.
pub fn digit_of(c: char) -> (d: Option<u8>)
    ensures
        d is Some == is_digit(c),
        d matches Some(v) ==> v == digit_value(c),
{
    if '0' <= c && c <= '9' {
        Some((c as u8) - 48)
    } else {
        None
    }
}

/// The digits of an unsigned integer: what follows its `+` sign where it has one,
/// all of it where it has none.
pub open spec fn uint_digits(s: Seq<char>) -> Seq<char> {
    if s.len() > 0 && s[0] == '+' {
        s.skip(1)
    } else {
        s
    }
}

/// The unsigned integer that `s` writes: an optional `+`, then one decimal digit
/// or more and nothing else, with a value that fits 64 bits. `None` for any
/// other string.
pub open spec fn uint_value(s: Seq<char>) -> Option<u64> {
    let digits = uint_digits(s);
    if digits.len() > 0 && all_digits(digits) && decimal_value(digits) <= u64::MAX {
        Some(decimal_value(digits) as u64)
    } else {
        None
    }
}

/// A string of digits is worth at least as much as each of its prefixes, and
/// never less than 0.
pub proof fn lemma_decimal_prefix(s: Seq<char>, k: int)
    requires
        all_digits(s),
        0 <= k <= s.len(),
    ensures
        0 <= decimal_value(s.take(k)) <= decimal_value(s),
    decreases s.len(),
{
    if k == s.len() {
        assert(s.take(k) == s);
        if s.len() > 0 {
            lemma_decimal_prefix(s.drop_last(), k - 1);
        }
    } else {
        let front = s.drop_last();
        lemma_decimal_prefix(front, k);
        lemma_decimal_prefix(front, front.len() as int);
        assert(front.take(k) == s.take(k));
    }
}

/// Reads the unsigned integer that the characters from `from` to the end write.
pub fn parse_uint(chars: &Vec<char>, from: usize) -> (out: Option<u64>)
    requires
        from <= chars.len(),
    ensures
        out == uint_value(chars@.skip(from as int)),
{
    let n = chars.len();
    let mut i: usize = from;
    if i < n && chars[i] == '+' {
        i += 1;
    }
    let start = i;
    let ghost digits = chars@.skip(start as int);
    if start == n {
        return None;
    }
    let mut acc: u64 = 0;
    while i < n
        invariant
            n == chars.len(),
            start <= i <= n,
            digits == chars@.skip(start as int),
            digits == uint_digits(chars@.skip(from as int)),
            all_digits(digits.take(i - start)),
            acc == decimal_value(digits.take(i - start)),
        decreases n - i,
    {
        let ghost upto = digits.take(i - start);
        let ghost next = digits.take(i - start + 1);
        proof {
            assert(next.drop_last() == upto);
            assert(next.last() == chars[i as int]);
        }
        match digit_of(chars[i]) {
            None => {
                return None;
            },
            Some(d) => {
                let wide: u128 = acc as u128 * 10 + d as u128;
                if wide > u64::MAX as u128 {
                    proof {
                        if all_digits(digits) {
                            lemma_decimal_prefix(digits, i - start + 1);
                        }
                    }
                    return None;
                }
                acc = wide as u64;
            },
        }
        i += 1;
    }
    proof {
        assert(digits.take(i - start) == digits);
    }
    Some(acc)
}

} // verus!
