//! Text utilities shared by the puzzle modules: the characters of a string,
//! splitting at a separator, lines, and decimal numbers.
//!
//! Every function works on a slice of characters and is specified over the
//! sequence of characters it views.

use vstd::prelude::*;
use vstd::slice::slice_subrange;

verus! {

/// The characters of `s`, in order.
pub fn chars_of(s: &str) -> (out: Vec<char>)
    ensures
        out@ == s@,
{
    let mut out: Vec<char> = Vec::new();
    for c in it: s.chars()
        invariant
            out@ == it.seq().take(it.index() as int),
            it.seq() == s@,
    {
        out.push(c);
    }
    out
}

/// The characters `s[from..to]` as a vector of their own.
pub fn copy_range(s: &[char], from: usize, to: usize) -> (out: Vec<char>)
    requires
        from <= to <= s@.len(),
    ensures
        out@ == s@.subrange(from as int, to as int),
{
    let mut out: Vec<char> = Vec::new();
    let mut i: usize = from;
    while i < to
        invariant
            from <= i <= to <= s@.len(),
            out@ == s@.subrange(from as int, i as int),
        decreases to - i,
    {
        out.push(s[i]);
        i += 1;
    }
    out
}

/// The first index at or after `from` that holds `c`, or the length of `s`
/// where no such index exists.
pub open spec fn find_char(s: Seq<char>, c: char, from: int) -> int
    decreases s.len() - from,
{
    if 0 <= from < s.len() && s[from] != c {
        find_char(s, c, from + 1)
    } else {
        from
    }
}

/// `find_char` stays within the sequence, stops on `c`, and skips no `c`.
pub proof fn lemma_find_char(s: Seq<char>, c: char, from: int)
    requires
        0 <= from <= s.len(),
    ensures
        from <= find_char(s, c, from) <= s.len(),
        find_char(s, c, from) < s.len() ==> s[find_char(s, c, from)] == c,
        forall|j: int| from <= j < find_char(s, c, from) ==> s[j] != c,
    decreases s.len() - from,
{
    if from < s.len() && s[from] != c {
        lemma_find_char(s, c, from + 1);
    }
}

/// Finds the first `c` at or after `from`.
pub fn find_char_from(s: &[char], c: char, from: usize) -> (at: usize)
    requires
        from <= s@.len(),
    ensures
        at == find_char(s@, c, from as int),
        from <= at <= s@.len(),
        at < s@.len() ==> s@[at as int] == c,
        forall|j: int| from <= j < at ==> s@[j] != c,
{
    let mut i: usize = from;
    while i < s.len() && s[i] != c
        invariant
            from <= i <= s@.len(),
            find_char(s@, c, from as int) == find_char(s@, c, i as int),
        decreases s@.len() - i,
    {
        i += 1;
    }
    proof {
        lemma_find_char(s@, c, from as int);
    }
    i
}

/// The pieces of `s` from index `from` on that the separator `sep` parts.
pub open spec fn split_from(s: Seq<char>, sep: char, from: int) -> Seq<Seq<char>>
    decreases s.len() - from,
{
    let end = find_char(s, sep, from);
    if 0 <= from <= end < s.len() {
        seq![s.subrange(from, end)] + split_from(s, sep, end + 1)
    } else {
        seq![s.subrange(from, s.len() as int)]
    }
}

/// The pieces of `s` between occurrences of `sep`. There is always at least
/// one piece; two separators in a row part an empty piece.
pub open spec fn split(s: Seq<char>, sep: char) -> Seq<Seq<char>> {
    split_from(s, sep, 0)
}

/// Whether `ranges` are index pairs into `s` that cut out exactly `pieces`.
pub open spec fn ranges_cut(s: Seq<char>, ranges: Seq<(usize, usize)>, pieces: Seq<Seq<char>>) -> bool {
    &&& ranges.len() == pieces.len()
    &&& forall|i: int|
        #![trigger ranges[i]]
        #![trigger pieces[i]]
        0 <= i < ranges.len() ==> {
            &&& ranges[i].0 <= ranges[i].1 <= s.len()
            &&& s.subrange(ranges[i].0 as int, ranges[i].1 as int) == pieces[i]
        }
}

/// Splits `s` at every `sep`, giving each piece as a pair of indices.
pub fn split_ranges(s: &[char], sep: char) -> (out: Vec<(usize, usize)>)
    ensures
        ranges_cut(s@, out@, split(s@, sep)),
        out@.len() >= 1,
        out@[0].0 == 0,
        out@[out@.len() - 1].1 == s@.len(),
        forall|i: int| 0 <= i < out@.len() - 1 ==> #[trigger] out@[i].1 + 1 == out@[i + 1].0,
{
    let mut out: Vec<(usize, usize)> = Vec::new();
    let mut from: usize = 0;
    let ghost mut done: Seq<Seq<char>> = Seq::empty();
    loop
        invariant
            from <= s@.len(),
            ranges_cut(s@, out@, done),
            split(s@, sep) == done + split_from(s@, sep, from as int),
            out@.len() == 0 ==> from == 0,
            out@.len() > 0 ==> out@[0].0 == 0 && out@[out@.len() - 1].1 + 1 == from,
            forall|i: int| 0 <= i < out@.len() - 1 ==> #[trigger] out@[i].1 + 1 == out@[i + 1].0,
        decreases s@.len() - from,
    {
        let end = find_char_from(s, sep, from);
        out.push((from, end));
        if end < s.len() {
            proof {
                let piece = s@.subrange(from as int, end as int);
                assert(split_from(s@, sep, from as int) == seq![piece] + split_from(
                    s@,
                    sep,
                    end + 1,
                ));
                assert(done + (seq![piece] + split_from(s@, sep, end + 1)) == done.push(piece)
                    + split_from(s@, sep, end + 1));
                done = done.push(piece);
            }
            from = end + 1;
        } else {
            proof {
                let piece = s@.subrange(from as int, s@.len() as int);
                assert(split_from(s@, sep, from as int) == seq![piece]);
                assert(done + seq![piece] == done.push(piece));
                done = done.push(piece);
            }
            return out;
        }
    }
}

/// `line` without one trailing carriage return, if it ends in one.
pub open spec fn strip_cr(line: Seq<char>) -> Seq<char> {
    if line.len() > 0 && line.last() == '\r' {
        line.drop_last()
    } else {
        line
    }
}

/// The lines of a text. A line feed ends a line; a carriage return just
/// before that line feed belongs to the line ending. What follows the last
/// line feed is a line too unless it is empty.
pub open spec fn lines(s: Seq<char>) -> Seq<Seq<char>> {
    let pieces = split(s, '\n');
    let ended = pieces.drop_last().map_values(|p: Seq<char>| strip_cr(p));
    if pieces.last().len() > 0 {
        ended.push(pieces.last())
    } else {
        ended
    }
}

/// The lines of `s`, each as a pair of indices into `s`.
pub fn line_ranges(s: &[char]) -> (out: Vec<(usize, usize)>)
    ensures
        ranges_cut(s@, out@, lines(s@)),
{
    let pieces = split_ranges(s, '\n');
    let ghost parts = split(s@, '\n');
    let ghost ended = parts.drop_last().map_values(|p: Seq<char>| strip_cr(p));
    let mut out: Vec<(usize, usize)> = Vec::new();
    let last = pieces.len() - 1;
    let mut i: usize = 0;
    while i < last
        invariant
            i <= last == pieces@.len() - 1,
            ranges_cut(s@, pieces@, parts),
            ended == parts.drop_last().map_values(|p: Seq<char>| strip_cr(p)),
            ranges_cut(s@, out@, ended.take(i as int)),
        decreases last - i,
    {
        let (from, to) = pieces[i];
        let ghost piece = s@.subrange(from as int, to as int);
        assert(piece == parts[i as int]);
        let to = if from < to && s[to - 1] == '\r' {
            to - 1
        } else {
            to
        };
        proof {
            assert(s@.subrange(from as int, to as int) == strip_cr(piece));
            assert(ended.take(i as int).push(strip_cr(piece)) == ended.take(i + 1));
        }
        out.push((from, to));
        i += 1;
    }
    assert(ended.take(last as int) == ended);
    let (from, to) = pieces[last];
    assert(s@.subrange(from as int, to as int) == parts.last());
    if from < to {
        out.push((from, to));
    }
    out
}

/// Whether `c` is one of the ten decimal digits.
pub open spec fn is_digit(c: char) -> bool {
    '0' <= c && c <= '9'
}

/// Whether `s` holds decimal digits only.
pub open spec fn all_digits(s: Seq<char>) -> bool {
    forall|i: int| 0 <= i < s.len() ==> is_digit(#[trigger] s[i])
}

/// The value of the digit `c`.
pub open spec fn digit_value(c: char) -> int {
    c as int - '0' as int
}

/// The number that the digits `s` write in base ten.
pub open spec fn decimal_value(s: Seq<char>) -> int
    decreases s.len(),
{
    if s.len() == 0 {
        0
    } else {
        decimal_value(s.drop_last()) * 10 + digit_value(s.last())
    }
}

/// The digits of a number written with an optional leading sign.
pub open spec fn unsigned_digits(s: Seq<char>) -> Seq<char> {
    if s.len() > 0 && s[0] == '+' {
        s.skip(1)
    } else {
        s
    }
}

/// What `s` denotes as an unsigned decimal number of at most `max`: an
/// optional `+`, then one digit or more. `None` where `s` has another shape
/// or its value exceeds `max`.
pub open spec fn parse_unsigned(s: Seq<char>, max: int) -> Option<int> {
    let digits = unsigned_digits(s);
    if digits.len() > 0 && all_digits(digits) && decimal_value(digits) <= max {
        Some(decimal_value(digits))
    } else {
        None
    }
}

/// Whether `s` starts with a minus sign.
pub open spec fn is_negative(s: Seq<char>) -> bool {
    s.len() > 0 && s[0] == '-'
}

/// The digits of a number written with an optional leading `+` or `-`.
pub open spec fn signed_digits(s: Seq<char>) -> Seq<char> {
    if s.len() > 0 && (s[0] == '+' || s[0] == '-') {
        s.skip(1)
    } else {
        s
    }
}

/// What `s` denotes as a signed decimal number between `min` and `max`: an
/// optional `+` or `-`, then one digit or more. `None` where `s` has another
/// shape or its value is out of range.
pub open spec fn parse_signed(s: Seq<char>, min: int, max: int) -> Option<int> {
    let digits = signed_digits(s);
    let value = if is_negative(s) {
        -decimal_value(digits)
    } else {
        decimal_value(digits)
    };
    if digits.len() > 0 && all_digits(digits) && min <= value <= max {
        Some(value)
    } else {
        None
    }
}

/// A number written in digits is at least the number that any of its
/// prefixes writes, and is never negative.
pub proof fn lemma_decimal_value_prefix(s: Seq<char>, k: int)
    requires
        all_digits(s),
        0 <= k <= s.len(),
    ensures
        0 <= decimal_value(s.take(k)) <= decimal_value(s),
    decreases s.len(),
{
    if s.len() == 0 {
        assert(s.take(k) == s);
    } else if k == s.len() {
        assert(s.take(k) == s);
        lemma_decimal_value_prefix(s.drop_last(), 0);
        assert(is_digit(s.last()));
    } else {
        lemma_decimal_value_prefix(s.drop_last(), k);
        assert(s.drop_last().take(k) == s.take(k));
        assert(is_digit(s.last()));
    }
}

/// Reads `s` as a run of at least one digit whose value is at most `max`.
fn parse_digits(s: &[char], max: u64) -> (r: Option<u64>)
    requires
        max >= 9,
    ensures
        match r {
            Some(v) => s@.len() > 0 && all_digits(s@) && v == decimal_value(s@) && v <= max,
            None => !(s@.len() > 0 && all_digits(s@) && decimal_value(s@) <= max),
        },
{
    if s.len() == 0 {
        return None;
    }
    let mut value: u64 = 0;
    let mut i: usize = 0;
    while i < s.len()
        invariant
            i <= s@.len(),
            all_digits(s@.take(i as int)),
            value == decimal_value(s@.take(i as int)),
            value <= max,
            max >= 9,
        decreases s@.len() - i,
    {
        let c = s[i];
        if c < '0' || c > '9' {
            return None;
        }
        let d: u64 = (c as u32 - '0' as u32) as u64;
        proof {
            assert(s@.take(i + 1).drop_last() == s@.take(i as int));
            assert(s@.take(i + 1).last() == c);
            assert(all_digits(s@.take(i + 1)));
        }
        if value > (max - d) / 10 {
            proof {
                if all_digits(s@) {
                    lemma_decimal_value_prefix(s@, i + 1);
                }
            }
            return None;
        }
        value = value * 10 + d;
        i += 1;
    }
    assert(s@.take(i as int) == s@);
    Some(value)
}

/// Reads `s` as a `u32` written in decimal.
pub fn parse_u32(s: &[char]) -> (r: Option<u32>)
    ensures
        match r {
            Some(n) => parse_unsigned(s@, u32::MAX as int) == Some(n as int),
            None => parse_unsigned(s@, u32::MAX as int) is None,
        },
{
    let from: usize = if s.len() > 0 && s[0] == '+' {
        1
    } else {
        0
    };
    let digits = slice_subrange(s, from, s.len());
    assert(digits@ == unsigned_digits(s@));
    match parse_digits(digits, 0xffff_ffff) {
        Some(v) => Some(v as u32),
        None => None,
    }
}

/// Reads `s` as a `u64` written in decimal.
pub fn parse_u64(s: &[char]) -> (r: Option<u64>)
    ensures
        match r {
            Some(n) => parse_unsigned(s@, u64::MAX as int) == Some(n as int),
            None => parse_unsigned(s@, u64::MAX as int) is None,
        },
{
    let from: usize = if s.len() > 0 && s[0] == '+' {
        1
    } else {
        0
    };
    let digits = slice_subrange(s, from, s.len());
    assert(digits@ == unsigned_digits(s@));
    parse_digits(digits, 0xffff_ffff_ffff_ffff)
}

/// Reads `s` as a `usize` written in decimal.
pub fn parse_usize(s: &[char]) -> (r: Option<usize>)
    ensures
        match r {
            Some(n) => parse_unsigned(s@, usize::MAX as int) == Some(n as int),
            None => parse_unsigned(s@, usize::MAX as int) is None,
        },
{
    let from: usize = if s.len() > 0 && s[0] == '+' {
        1
    } else {
        0
    };
    let digits = slice_subrange(s, from, s.len());
    assert(digits@ == unsigned_digits(s@));
    match parse_digits(digits, usize::MAX as u64) {
        Some(v) => Some(v as usize),
        None => None,
    }
}

/// Reads `s` as an `i32` written in decimal.
pub fn parse_i32(s: &[char]) -> (r: Option<i32>)
    ensures
        match r {
            Some(n) => parse_signed(s@, i32::MIN as int, i32::MAX as int) == Some(n as int),
            None => parse_signed(s@, i32::MIN as int, i32::MAX as int) is None,
        },
{
    let negative = s.len() > 0 && s[0] == '-';
    let from: usize = if s.len() > 0 && (s[0] == '+' || s[0] == '-') {
        1
    } else {
        0
    };
    let digits = slice_subrange(s, from, s.len());
    assert(digits@ == signed_digits(s@));
    proof {
        if all_digits(digits@) {
            lemma_decimal_value_prefix(digits@, 0);
        }
    }
    if negative {
        match parse_digits(digits, 0x8000_0000) {
            Some(v) => Some((-(v as i64)) as i32),
            None => None,
        }
    } else {
        match parse_digits(digits, 0x7fff_ffff) {
            Some(v) => Some(v as i32),
            None => None,
        }
    }
}

/// Whether `c` is one of the five characters that the ASCII standard calls
/// white space: space, tab, line feed, form feed, carriage return.
pub open spec fn is_ascii_space(c: char) -> bool {
    c == ' ' || c == '\t' || c == '\n' || c == '\x0C' || c == '\r'
}

/// Tells whether `c` is ASCII white space.
pub fn ascii_space(c: char) -> (r: bool)
    ensures
        r == is_ascii_space(c),
{
    c == ' ' || c == '\t' || c == '\n' || c == '\x0C' || c == '\r'
}

/// Tells whether `c` is a decimal digit.
pub fn ascii_digit(c: char) -> (r: bool)
    ensures
        r == is_digit(c),
{
    '0' <= c && c <= '9'
}

/// The first index at or after `from` whose character is white space if
/// `space` is true, is none if `space` is false; the length of `s` where no
/// such index exists.
pub open spec fn find_space(s: Seq<char>, space: bool, from: int) -> int
    decreases s.len() - from,
{
    if 0 <= from < s.len() && is_ascii_space(s[from]) != space {
        find_space(s, space, from + 1)
    } else {
        from
    }
}

/// `find_space` stays within the sequence and stops on the first character
/// of the kind it looks for.
pub proof fn lemma_find_space(s: Seq<char>, space: bool, from: int)
    requires
        0 <= from <= s.len(),
    ensures
        from <= find_space(s, space, from) <= s.len(),
        find_space(s, space, from) < s.len() ==> is_ascii_space(s[find_space(s, space, from)])
            == space,
        forall|j: int| from <= j < find_space(s, space, from) ==> is_ascii_space(s[j]) != space,
    decreases s.len() - from,
{
    if from < s.len() && is_ascii_space(s[from]) != space {
        lemma_find_space(s, space, from + 1);
    }
}

/// Finds the first white space (`space` true) or the first other character
/// (`space` false) at or after `from`.
pub fn find_space_from(s: &[char], space: bool, from: usize) -> (at: usize)
    requires
        from <= s@.len(),
    ensures
        at == find_space(s@, space, from as int),
        from <= at <= s@.len(),
        at < s@.len() ==> is_ascii_space(s@[at as int]) == space,
{
    let mut i: usize = from;
    while i < s.len() && ascii_space(s[i]) != space
        invariant
            from <= i <= s@.len(),
            find_space(s@, space, from as int) == find_space(s@, space, i as int),
        decreases s@.len() - i,
    {
        i += 1;
    }
    proof {
        lemma_find_space(s@, space, from as int);
    }
    i
}

/// The words of `s` from index `from` on.
pub open spec fn words_from(s: Seq<char>, from: int) -> Seq<Seq<char>>
    decreases s.len() - from,
{
    let start = find_space(s, false, from);
    let end = find_space(s, true, start);
    if 0 <= from <= start < end <= s.len() {
        seq![s.subrange(start, end)] + words_from(s, end)
    } else {
        Seq::empty()
    }
}

/// The words of `s`: its longest runs of characters that are not ASCII
/// white space, in order.
pub open spec fn words(s: Seq<char>) -> Seq<Seq<char>> {
    words_from(s, 0)
}

/// The words of `s`, each as a pair of indices into `s`.
pub fn word_ranges(s: &[char]) -> (out: Vec<(usize, usize)>)
    ensures
        ranges_cut(s@, out@, words(s@)),
{
    let mut out: Vec<(usize, usize)> = Vec::new();
    let mut from: usize = 0;
    let ghost mut done: Seq<Seq<char>> = Seq::empty();
    loop
        invariant
            from <= s@.len(),
            ranges_cut(s@, out@, done),
            words(s@) == done + words_from(s@, from as int),
        decreases s@.len() - from,
    {
        let start = find_space_from(s, false, from);
        if start == s.len() {
            proof {
                lemma_find_space(s@, true, start as int);
                assert(words_from(s@, from as int) == Seq::<Seq<char>>::empty());
                assert(done + Seq::<Seq<char>>::empty() == done);
            }
            return out;
        }
        let end = find_space_from(s, true, start);
        proof {
            let word = s@.subrange(start as int, end as int);
            assert(start < end);
            assert(words_from(s@, from as int) == seq![word] + words_from(s@, end as int));
            assert(done + (seq![word] + words_from(s@, end as int)) == done.push(word)
                + words_from(s@, end as int));
            done = done.push(word);
        }
        out.push((start, end));
        from = end;
    }
}

/// The views of a sequence of character vectors.
pub open spec fn rows(v: Seq<Vec<char>>) -> Seq<Seq<char>> {
    Seq::new(v.len(), |i: int| v[i]@)
}

/// Copies out the pieces of `s` that `ranges` cut.
fn cut_pieces(s: &[char], ranges: &Vec<(usize, usize)>, Ghost(pieces): Ghost<Seq<Seq<char>>>) -> (out:
    Vec<Vec<char>>)
    requires
        ranges_cut(s@, ranges@, pieces),
    ensures
        rows(out@) == pieces,
{
    let mut out: Vec<Vec<char>> = Vec::new();
    let mut i: usize = 0;
    while i < ranges.len()
        invariant
            i <= ranges@.len(),
            ranges_cut(s@, ranges@, pieces),
            out@.len() == i,
            rows(out@) == pieces.take(i as int),
        decreases ranges@.len() - i,
    {
        let (from, to) = ranges[i];
        let piece = copy_range(s, from, to);
        let ghost before = out@;
        out.push(piece);
        proof {
            assert forall|j: int| 0 <= j < i + 1 implies rows(out@)[j] == pieces.take(i + 1)[j] by {
                if j < i {
                    assert(rows(before)[j] == pieces.take(i as int)[j]);
                }
            }
            assert(rows(out@) =~= pieces.take(i + 1));
        }
        i += 1;
    }
    assert(pieces.take(i as int) == pieces);
    out
}

/// The lines of `s`, each as a vector of its own.
pub fn split_lines(s: &[char]) -> (out: Vec<Vec<char>>)
    ensures
        rows(out@) == lines(s@),
{
    let ranges = line_ranges(s);
    cut_pieces(s, &ranges, Ghost(lines(s@)))
}

/// The words of `s`, each as a vector of its own.
pub fn split_words(s: &[char]) -> (out: Vec<Vec<char>>)
    ensures
        rows(out@) == words(s@),
{
    let ranges = word_ranges(s);
    cut_pieces(s, &ranges, Ghost(words(s@)))
}

/// The first index at or after `from` whose character is no digit, or the
/// length of the line where every character from there on is a digit.
pub open spec fn non_digit_from(line: Seq<char>, from: int) -> int
    decreases line.len() - from,
{
    if 0 <= from < line.len() && is_digit(line[from]) {
        non_digit_from(line, from + 1)
    } else {
        from
    }
}

/// `non_digit_from` stays within the line, stops on a character that is no
/// digit, and skips digits only.
pub proof fn lemma_non_digit(line: Seq<char>, from: int)
    requires
        0 <= from <= line.len(),
    ensures
        from <= non_digit_from(line, from) <= line.len(),
        non_digit_from(line, from) < line.len() ==> !is_digit(line[non_digit_from(line, from)]),
        forall|j: int| from <= j < non_digit_from(line, from) ==> is_digit(#[trigger] line[j]),
    decreases line.len() - from,
{
    if from < line.len() && is_digit(line[from]) {
        lemma_non_digit(line, from + 1);
    }
}

/// Finds the first character at or after `from` that is no digit.
pub fn non_digit_index(line: &[char], from: usize) -> (at: usize)
    requires
        from <= line@.len(),
    ensures
        at == non_digit_from(line@, from as int),
        from <= at <= line@.len(),
{
    let mut i: usize = from;
    while i < line.len() && ascii_digit(line[i])
        invariant
            from <= i <= line@.len(),
            non_digit_from(line@, from as int) == non_digit_from(line@, i as int),
        decreases line@.len() - i,
    {
        i += 1;
    }
    proof {
        lemma_non_digit(line@, from as int);
    }
    i
}

} // verus!
