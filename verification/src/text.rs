//! Text handling shared by the puzzle readers: strings are read as sequences of characters.

use vstd::prelude::*;
use vstd::string::StringSliceAdditionalSpecFns;

verus! {

/// The characters of `s`, in order.
pub fn chars_of(s: &str) -> (v: Vec<char>)
    ensures
        v@ == s@,
{
    let mut v: Vec<char> = Vec::new();
    for c in it: s.chars()
        invariant
            v@ == it.seq().take(it.index() as int),
            it.seq() == s@,
    {
        v.push(c);
    }
    v
}

/// Whether two strings hold the same characters.
pub fn str_eq(a: &str, b: &str) -> (r: bool)
    ensures
        r == (a@ == b@),
{
    let x = a.as_bytes();
    let y = b.as_bytes();
    proof {
        vstd::utf8::encode_utf8_decode_utf8(a@);
        vstd::utf8::encode_utf8_decode_utf8(b@);
    }
    if x.len() != y.len() {
        return false;
    }
    let mut i: usize = 0;
    while i < x.len()
        invariant
            x@ == a.spec_bytes(),
            y@ == b.spec_bytes(),
            x.len() == y.len(),
            i <= x.len(),
            forall|k: int| 0 <= k < i ==> x[k] == y[k],
        decreases x.len() - i,
    {
        if x[i] != y[i] {
            return false;
        }
        i += 1;
    }
    assert(x@ =~= y@);
    true
}

/// The values of `items` if every one of them is there, nothing if one is missing.
pub open spec fn gather<T>(items: Seq<Option<T>>) -> Option<Seq<T>> {
    if forall|i: int| 0 <= i < items.len() ==> (#[trigger] items[i]) is Some {
        Some(Seq::new(items.len(), |i: int| items[i]->0))
    } else {
        None
    }
}

/// A sequence without its first item.
pub open spec fn rest<T>(items: Seq<T>) -> Seq<T> {
    if items.len() == 0 {
        items
    } else {
        items.subrange(1, items.len() as int)
    }
}

/// The character sequences of a vector of strings.
pub open spec fn texts<'a>(v: Seq<&'a str>) -> Seq<Seq<char>> {
    Seq::new(v.len(), |i: int| v[i]@)
}

/// `pat` stands in `s` at position `i`.
pub open spec fn occurs_at(s: Seq<char>, pat: Seq<char>, i: int) -> bool {
    0 <= i && i + pat.len() <= s.len() && s.subrange(i, i + pat.len()) == pat
}

/// The first position at or after `from` where `pat` stands in `s`, or the length of `s`
/// where it stands nowhere.
pub open spec fn find_from(s: Seq<char>, pat: Seq<char>, from: int) -> int
    decreases s.len() - from,
{
    if from < 0 || from >= s.len() || from + pat.len() > s.len() {
        s.len() as int
    } else if occurs_at(s, pat, from) {
        from
    } else {
        find_from(s, pat, from + 1)
    }
}

/// The pieces of `s` from position `from` on, cut at each `pat`; the piece after the last
/// `pat` is there even when it is empty.
pub open spec fn split_from(s: Seq<char>, pat: Seq<char>, from: int) -> Seq<Seq<char>>
    decreases s.len() - from,
{
    let i = find_from(s, pat, from);
    if pat.len() == 0 || i < from || i + pat.len() > s.len() {
        seq![s.subrange(from, s.len() as int)]
    } else {
        seq![s.subrange(from, i)] + split_from(s, pat, i + pat.len())
    }
}

/// The pieces of `s` between the occurrences of a non-empty `pat`, taken from left to right
/// without overlap.
pub open spec fn split_seq(s: Seq<char>, pat: Seq<char>) -> Seq<Seq<char>> {
    split_from(s, pat, 0)
}

/// What stands before and after the first `pat` in `s`, if `pat` stands in `s` at all.
pub open spec fn split_once_seq(s: Seq<char>, pat: Seq<char>) -> Option<(Seq<char>, Seq<char>)> {
    let i = find_from(s, pat, 0);
    if i >= s.len() {
        None
    } else {
        Some((s.subrange(0, i), s.subrange(i + pat.len(), s.len() as int)))
    }
}

/// A line without the carriage return that stood before its line feed.
pub open spec fn strip_cr(line: Seq<char>) -> Seq<char> {
    if line.len() > 0 && line.last() == '\r' {
        line.drop_last()
    } else {
        line
    }
}

/// The lines of `s` from position `from` on.
pub open spec fn lines_from(s: Seq<char>, from: int) -> Seq<Seq<char>>
    decreases s.len() - from,
{
    if from < 0 || from >= s.len() {
        Seq::empty()
    } else {
        let i = find_from(s, seq!['\n'], from);
        if i < from || i >= s.len() {
            seq![s.subrange(from, s.len() as int)]
        } else {
            seq![strip_cr(s.subrange(from, i))] + lines_from(s, i + 1)
        }
    }
}

/// The lines of `s`: each ends at a line feed, which is left out together with a carriage
/// return before it; what follows the last line feed is a line too unless it is empty.
pub open spec fn lines_seq(s: Seq<char>) -> Seq<Seq<char>> {
    lines_from(s, 0)
}

/// Whether `pat` stands in `s` at position `i`.
pub fn matches_at(s: &Vec<char>, pat: &Vec<char>, i: usize) -> (r: bool)
    requires
        i <= s.len(),
    ensures
        r == occurs_at(s@, pat@, i as int),
{
    if s.len() - i < pat.len() {
        return false;
    }
    let mut k: usize = 0;
    while k < pat.len()
        invariant
            i + pat.len() <= s.len(),
            k <= pat.len(),
            forall|j: int| 0 <= j < k ==> s[i + j] == pat[j],
        decreases pat.len() - k,
    {
        if s[i + k] != pat[k] {
            assert(s@.subrange(i as int, i + pat.len())[k as int] == s[i + k]);
            return false;
        }
        k += 1;
    }
    assert(s@.subrange(i as int, i + pat.len()) =~= pat@);
    true
}

/// The first position at or after `from` where `pat` stands in `s`, or the length of `s`.
pub fn find(s: &Vec<char>, pat: &Vec<char>, from: usize) -> (i: usize)
    requires
        from <= s.len(),
    ensures
        i == find_from(s@, pat@, from as int),
        from <= i <= s.len(),
        i < s.len() ==> occurs_at(s@, pat@, i as int),
{
    let mut i: usize = from;
    while s.len() - i >= pat.len()
        invariant
            from <= i <= s.len(),
            find_from(s@, pat@, from as int) == find_from(s@, pat@, i as int),
        decreases s.len() - i,
    {
        if i == s.len() {
            return i;
        }
        if matches_at(s, pat, i) {
            return i;
        }
        i += 1;
    }
    s.len()
}

/// The pieces of `s` between the occurrences of `pat`, as `str::split` gives them.
pub fn split<'a>(s: &'a str, pat: &str) -> (pieces: Vec<&'a str>)
    requires
        pat@.len() > 0,
    ensures
        texts(pieces@) == split_seq(s@, pat@),
{
    let cs = chars_of(s);
    let ps = chars_of(pat);
    let mut pieces: Vec<&'a str> = Vec::new();
    let mut from: usize = 0;
    assert(texts(pieces@) =~= Seq::empty());
    loop
        invariant
            cs@ == s@,
            ps@ == pat@,
            ps.len() > 0,
            from <= cs.len(),
            split_seq(s@, pat@) == texts(pieces@) + split_from(s@, pat@, from as int),
        decreases cs.len() - from,
    {
        let ghost before = texts(pieces@);
        let i = find(&cs, &ps, from);
        if i >= cs.len() {
            pieces.push(s.substring_char(from, cs.len()));
            assert(texts(pieces@) =~= before + seq![s@.subrange(from as int, s@.len() as int)]);
            return pieces;
        }
        pieces.push(s.substring_char(from, i));
        assert(texts(pieces@) =~= before + seq![s@.subrange(from as int, i as int)]);
        assert(before + (seq![s@.subrange(from as int, i as int)] + split_from(
            s@,
            pat@,
            i + ps.len(),
        )) =~= texts(pieces@) + split_from(s@, pat@, i + ps.len()));
        from = i + ps.len();
    }
}

/// What stands before and after the first `pat` in `s`, as `str::split_once` gives it.
pub fn split_once<'a>(s: &'a str, pat: &str) -> (r: Option<(&'a str, &'a str)>)
    requires
        pat@.len() > 0,
    ensures
        match r {
            Some((head, tail)) => split_once_seq(s@, pat@) == Some((head@, tail@)),
            None => split_once_seq(s@, pat@) is None,
        },
{
    let cs = chars_of(s);
    let ps = chars_of(pat);
    let i = find(&cs, &ps, 0);
    if i >= cs.len() {
        None
    } else {
        Some((s.substring_char(0, i), s.substring_char(i + ps.len(), cs.len())))
    }
}

/// The lines of `s`, as `str::lines` gives them.
pub fn lines<'a>(s: &'a str) -> (r: Vec<&'a str>)
    ensures
        texts(r@) == lines_seq(s@),
{
    let cs = chars_of(s);
    let mut feed: Vec<char> = Vec::new();
    feed.push('\n');
    assert(feed@ =~= seq!['\n']);
    let mut r: Vec<&'a str> = Vec::new();
    let mut from: usize = 0;
    assert(texts(r@) =~= Seq::empty());
    while from < cs.len()
        invariant
            cs@ == s@,
            feed@ == seq!['\n'],
            from <= cs.len(),
            lines_seq(s@) == texts(r@) + lines_from(s@, from as int),
        decreases cs.len() - from,
    {
        let ghost before = texts(r@);
        let i = find(&cs, &feed, from);
        if i >= cs.len() {
            r.push(s.substring_char(from, cs.len()));
            assert(texts(r@) =~= before + seq![s@.subrange(from as int, s@.len() as int)]);
            return r;
        }
        let end = if i > from && cs[i - 1] == '\r' {
            i - 1
        } else {
            i
        };
        r.push(s.substring_char(from, end));
        proof {
            let line = s@.subrange(from as int, i as int);
            assert(strip_cr(line) =~= s@.subrange(from as int, end as int));
            assert(texts(r@) =~= before + seq![strip_cr(line)]);
            assert(before + (seq![strip_cr(line)] + lines_from(s@, i + 1)) =~= texts(r@)
                + lines_from(s@, i + 1));
        }
        from = i + 1;
    }
    assert(texts(r@) + lines_from(s@, from as int) =~= texts(r@));
    r
}

/// Whether `c` is one of the digits `0` to `9`.
pub open spec fn is_digit(c: char) -> bool {
    '0' <= c <= '9'
}

/// The number that a digit stands for.
pub open spec fn digit_value(c: char) -> nat {
    (c as u32 - '0' as u32) as nat
}

/// The number that a sequence of digits writes in base ten.
pub open spec fn digits_value(s: Seq<char>) -> nat
    decreases s.len(),
{
    if s.len() == 0 {
        0
    } else {
        digits_value(s.drop_last()) * 10 + digit_value(s.last())
    }
}

/// Whether `s` is one digit or more and nothing else.
pub open spec fn is_number(s: Seq<char>) -> bool {
    s.len() > 0 && forall|i: int| 0 <= i < s.len() ==> is_digit(#[trigger] s[i])
}

/// The number that `s` writes: digits, with an optional `+` before them.
pub open spec fn unsigned_value(s: Seq<char>) -> Option<nat> {
    let digits = if s.len() > 0 && s[0] == '+' {
        s.subrange(1, s.len() as int)
    } else {
        s
    };
    if is_number(digits) {
        Some(digits_value(digits))
    } else {
        None
    }
}

/// The integer that `s` writes: digits, with an optional `+` or `-` before them.
pub open spec fn signed_value(s: Seq<char>) -> Option<int> {
    if s.len() > 0 && s[0] == '-' {
        let digits = s.subrange(1, s.len() as int);
        if is_number(digits) {
            Some(-(digits_value(digits) as int))
        } else {
            None
        }
    } else {
        match unsigned_value(s) {
            Some(v) => Some(v as int),
            None => None,
        }
    }
}

/// The number that `s` writes, where a `u64` can hold it.
pub open spec fn u64_value(s: Seq<char>) -> Option<u64> {
    match unsigned_value(s) {
        Some(v) => if v <= u64::MAX {
            Some(v as u64)
        } else {
            None
        },
        None => None,
    }
}

/// The number that `s` writes, where a `usize` can hold it.
pub open spec fn usize_value(s: Seq<char>) -> Option<usize> {
    match unsigned_value(s) {
        Some(v) => if v <= usize::MAX {
            Some(v as usize)
        } else {
            None
        },
        None => None,
    }
}

/// The integer that `s` writes, where an `i64` can hold it.
pub open spec fn i64_value(s: Seq<char>) -> Option<i64> {
    match signed_value(s) {
        Some(v) => if i64::MIN <= v <= i64::MAX {
            Some(v as i64)
        } else {
            None
        },
        None => None,
    }
}

/// A longer run of digits writes no smaller a number.
proof fn lemma_digits_value_grows(s: Seq<char>, k: int)
    requires
        0 <= k <= s.len(),
    ensures
        digits_value(s.take(k)) <= digits_value(s),
    decreases s.len() - k,
{
    if k < s.len() {
        assert(s.take(k + 1).drop_last() =~= s.take(k));
        lemma_digits_value_grows(s, k + 1);
    } else {
        assert(s.take(k) =~= s);
    }
}

/// The number that the characters of `cs` from position `from` to before position `to`
/// write, if they are digits and the number is no larger than `limit`.
pub fn parse_digits(cs: &Vec<char>, from: usize, to: usize, limit: u64) -> (r: Option<u64>)
    requires
        from <= to <= cs.len(),
    ensures
        r == if is_number(cs@.subrange(from as int, to as int)) && digits_value(
            cs@.subrange(from as int, to as int),
        ) <= limit {
            Some(digits_value(cs@.subrange(from as int, to as int)) as u64)
        } else {
            None
        },
{
    let ghost digits = cs@.subrange(from as int, to as int);
    if from == to {
        return None;
    }
    let mut value: u64 = 0;
    let mut i: usize = from;
    assert(digits.take(0) =~= Seq::empty());
    while i < to
        invariant
            from <= i <= to <= cs.len(),
            digits == cs@.subrange(from as int, to as int),
            forall|j: int| 0 <= j < i - from ==> is_digit(#[trigger] digits[j]),
            value == digits_value(digits.take(i - from)),
            value <= limit,
        decreases to - i,
    {
        let c = cs[i];
        assert(digits[i - from] == c);
        if c < '0' || c > '9' {
            return None;
        }
        let d = (c as u32 - '0' as u32) as u64;
        proof {
            assert(digits.take(i - from + 1).drop_last() =~= digits.take(i - from));
            assert(digits.take(i - from + 1).last() == c);
            lemma_digits_value_grows(digits, i - from + 1);
        }
        let next = value as u128 * 10 + d as u128;
        if next > limit as u128 {
            return None;
        }
        value = next as u64;
        i += 1;
    }
    assert(digits.take(i - from) =~= digits);
    Some(value)
}

/// The number that `s` writes when `s` is digits and nothing else, where a `usize` can
/// hold it.
pub open spec fn number_value(s: Seq<char>) -> Option<usize> {
    if is_number(s) && digits_value(s) <= usize::MAX {
        Some(digits_value(s) as usize)
    } else {
        None
    }
}

/// What follows `pat` in `s`, if `s` begins with `pat`.
pub open spec fn strip_prefix_seq(s: Seq<char>, pat: Seq<char>) -> Option<Seq<char>> {
    if occurs_at(s, pat, 0) {
        Some(s.subrange(pat.len() as int, s.len() as int))
    } else {
        None
    }
}

/// What follows `pat` in `s`, as `str::strip_prefix` gives it.
pub fn strip_prefix<'a>(s: &'a str, pat: &str) -> (r: Option<&'a str>)
    ensures
        match r {
            Some(tail) => strip_prefix_seq(s@, pat@) == Some(tail@),
            None => strip_prefix_seq(s@, pat@) is None,
        },
{
    let cs = chars_of(s);
    let ps = chars_of(pat);
    if matches_at(&cs, &ps, 0) {
        Some(s.substring_char(ps.len(), cs.len()))
    } else {
        None
    }
}

/// Whether `c` is white space: one of the characters that carry the Unicode property of
/// that name.
pub open spec fn is_space(c: char) -> bool {
    let u = c as u32;
    ||| 0x09 <= u <= 0x0d
    ||| u == 0x20
    ||| u == 0x85
    ||| u == 0xa0
    ||| u == 0x1680
    ||| 0x2000 <= u <= 0x200a
    ||| u == 0x2028
    ||| u == 0x2029
    ||| u == 0x202f
    ||| u == 0x205f
    ||| u == 0x3000
}

/// Where the last word of the first `e` characters of `s` ends: after the last of them
/// that is no white space, or at 0 where all of them are.
pub open spec fn word_end(s: Seq<char>, e: int) -> int
    decreases e,
{
    if e <= 0 {
        0
    } else if !is_space(s[e - 1]) {
        e
    } else {
        word_end(s, e - 1)
    }
}

/// Where the word that ends at position `b` begins: after the last white space before `b`,
/// or at 0 where there is none.
pub open spec fn word_start(s: Seq<char>, b: int) -> int
    decreases b,
{
    if b <= 0 {
        0
    } else if is_space(s[b - 1]) {
        b
    } else {
        word_start(s, b - 1)
    }
}

/// The last of the words of `s` that white space parts, if `s` holds a word.
pub open spec fn last_word_seq(s: Seq<char>) -> Option<Seq<char>> {
    let e = word_end(s, s.len() as int);
    if e == 0 {
        None
    } else {
        Some(s.subrange(word_start(s, e), e))
    }
}

/// Whether `c` is white space, as `char::is_whitespace` tells it.
pub fn space(c: char) -> (r: bool)
    ensures
        r == is_space(c),
{
    let u = c as u32;
    (0x09 <= u && u <= 0x0d) || u == 0x20 || u == 0x85 || u == 0xa0 || u == 0x1680 || (0x2000 <= u
        && u <= 0x200a) || u == 0x2028 || u == 0x2029 || u == 0x202f || u == 0x205f || u == 0x3000
}

/// The last word of `s`, as `str::split_whitespace` gives it last.
pub fn last_word<'a>(s: &'a str) -> (r: Option<&'a str>)
    ensures
        match r {
            Some(w) => last_word_seq(s@) == Some(w@),
            None => last_word_seq(s@) is None,
        },
{
    let cs = chars_of(s);
    let mut e: usize = cs.len();
    while e > 0 && space(cs[e - 1])
        invariant
            e <= cs.len(),
            word_end(cs@, cs.len() as int) == word_end(cs@, e as int),
        decreases e,
    {
        e -= 1;
    }
    if e == 0 {
        return None;
    }
    let mut b: usize = e;
    while b > 0 && !space(cs[b - 1])
        invariant
            b <= e <= cs.len(),
            word_start(cs@, e as int) == word_start(cs@, b as int),
        decreases b,
    {
        b -= 1;
    }
    Some(s.substring_char(b, e))
}

/// The number that `s` writes, as `str::parse::<u64>` reads it: digits, with an optional
/// `+` before them, and no larger than a `u64` can hold.
pub fn parse_u64(s: &str) -> (r: Option<u64>)
    ensures
        r == u64_value(s@),
{
    let cs = chars_of(s);
    let from: usize = if cs.len() > 0 && cs[0] == '+' {
        1
    } else {
        0
    };
    assert(cs@.subrange(0, cs.len() as int) =~= cs@);
    parse_digits(&cs, from, cs.len(), u64::MAX)
}

/// The number that `s` writes, as `str::parse::<usize>` reads it.
pub fn parse_usize(s: &str) -> (r: Option<usize>)
    ensures
        r == usize_value(s@),
{
    let cs = chars_of(s);
    let from: usize = if cs.len() > 0 && cs[0] == '+' {
        1
    } else {
        0
    };
    assert(cs@.subrange(0, cs.len() as int) =~= cs@);
    match parse_digits(&cs, from, cs.len(), usize::MAX as u64) {
        Some(v) => Some(v as usize),
        None => None,
    }
}

/// The integer that `s` writes, as `str::parse::<i64>` reads it: digits, with an optional
/// sign before them, within what an `i64` can hold.
pub fn parse_i64(s: &str) -> (r: Option<i64>)
    ensures
        r == i64_value(s@),
{
    let cs = chars_of(s);
    assert(cs@.subrange(0, cs.len() as int) =~= cs@);
    if cs.len() > 0 && cs[0] == '-' {
        match parse_digits(&cs, 1, cs.len(), 0x8000_0000_0000_0000) {
            Some(v) => if v == 0x8000_0000_0000_0000 {
                Some(i64::MIN)
            } else {
                Some(-(v as i64))
            },
            None => None,
        }
    } else {
        let from: usize = if cs.len() > 0 && cs[0] == '+' {
            1
        } else {
            0
        };
        match parse_digits(&cs, from, cs.len(), 0x7fff_ffff_ffff_ffff) {
            Some(v) => Some(v as i64),
            None => None,
        }
    }
}

} // verus!
