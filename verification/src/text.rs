//! Characters and white space: what the textual encodings are made of.

use vstd::prelude::*;

verus! {

/// Whether `c` is white space: the characters of the Unicode property
/// `White_Space`.
pub open spec fn is_white_space(c: char) -> bool {
    let u = c as u32;
    ||| 0x09 <= u <= 0x0D
    ||| u == 0x20
    ||| u == 0x85
    ||| u == 0xA0
    ||| u == 0x1680
    ||| 0x2000 <= u <= 0x200A
    ||| u == 0x2028
    ||| u == 0x2029
    ||| u == 0x202F
    ||| u == 0x205F
    ||| u == 0x3000
}

/// The index of the first character of `s` at or after `from` that is not
/// white space, or the length of `s` where there is none.
pub open spec fn skip_white_space(s: Seq<char>, from: int) -> int
    decreases s.len() - from,
{
    if 0 <= from < s.len() && is_white_space(s[from]) {
        skip_white_space(s, from + 1)
    } else {
        from
    }
}

/// The index just behind the last character of `s` before `to` that is not
/// white space, or `0` where there is none.
pub open spec fn drop_white_space(s: Seq<char>, to: int) -> int
    decreases to,
{
    if 0 < to <= s.len() && is_white_space(s[to - 1]) {
        drop_white_space(s, to - 1)
    } else {
        to
    }
}

/// `s` without its leading and trailing white space.
pub open spec fn trimmed(s: Seq<char>) -> Seq<char> {
    let start = skip_white_space(s, 0);
    let end = drop_white_space(s, s.len() as int);
    if start < end {
        s.subrange(start, end)
    } else {
        Seq::empty()
    }
}

/// Whether `c` is white space.
pub fn white_space(c: char) -> (b: bool)
    ensures
        b == is_white_space(c),
{
    let u = c as u32;
    (0x09 <= u && u <= 0x0D) || u == 0x20 || u == 0x85 || u == 0xA0 || u == 0x1680 || (0x2000 <= u
        && u <= 0x200A) || u == 0x2028 || u == 0x2029 || u == 0x202F || u == 0x205F || u == 0x3000
}

/// Finds what is left of `s` without its leading and trailing white space:
/// the index of its first character and the index behind its last.
pub fn trimmed_range(s: &Vec<char>) -> (r: (usize, usize))
    ensures
        r.0 <= r.1 <= s@.len(),
        s@.subrange(r.0 as int, r.1 as int) == trimmed(s@),
{
    let mut start: usize = 0;
    while start < s.len() && white_space(s[start])
        invariant
            start <= s@.len(),
            skip_white_space(s@, 0) == skip_white_space(s@, start as int),
        decreases s@.len() - start,
    {
        start += 1;
    }
    let mut end: usize = s.len();
    while end > 0 && white_space(s[end - 1])
        invariant
            end <= s@.len(),
            drop_white_space(s@, s@.len() as int) == drop_white_space(s@, end as int),
        decreases end,
    {
        end -= 1;
    }
    if start < end {
        (start, end)
    } else {
        assert(s@.subrange(0, 0) =~= Seq::<char>::empty());
        (0, 0)
    }
}

/// The characters of `s`.
pub fn chars_of(s: &str) -> (v: Vec<char>)
    ensures
        v@ == s@,
{
    let mut v: Vec<char> = Vec::new();
    for c in it: s.chars()
        invariant
            it.seq() == s@,
            v@ == s@.take(it.index()),
    {
        v.push(c);
        assert(s@.take(it.index() + 1) =~= s@.take(it.index()).push(c));
    }
    assert(s@.take(s@.len() as int) =~= s@);
    v
}

/// The end of the token that starts at `from`: the index of the first
/// white space at or after `from`, or the length of `s` where there is none.
pub open spec fn token_end(s: Seq<char>, from: int) -> int
    decreases s.len() - from,
{
    if 0 <= from < s.len() && !is_white_space(s[from]) {
        token_end(s, from + 1)
    } else {
        from
    }
}

/// The tokens of `s` from index `from` on: the maximal runs of characters
/// that are not white space, in the order in which they stand.
pub open spec fn tokens_from(s: Seq<char>, from: int) -> Seq<Seq<char>>
    decreases s.len() - from,
{
    if from < 0 || from >= s.len() {
        Seq::empty()
    } else if is_white_space(s[from]) {
        tokens_from(s, from + 1)
    } else {
        let end = token_end(s, from);
        if from < end <= s.len() {
            seq![s.subrange(from, end)] + tokens_from(s, end)
        } else {
            Seq::empty()
        }
    }
}

/// The tokens of `s`.
pub open spec fn tokens(s: Seq<char>) -> Seq<Seq<char>> {
    tokens_from(s, 0)
}

/// The token that starts at `from` ends behind `from`, holds no white
/// space, and is followed by white space or by the end of `s`.
pub proof fn lemma_token_end(s: Seq<char>, from: int)
    requires
        0 <= from <= s.len(),
    ensures
        from <= token_end(s, from) <= s.len(),
        from < s.len() && !is_white_space(s[from]) ==> from < token_end(s, from),
        forall|k: int| from <= k < token_end(s, from) ==> !is_white_space(#[trigger] s[k]),
        token_end(s, from) < s.len() ==> is_white_space(s[token_end(s, from)]),
    decreases s.len() - from,
{
    if from < s.len() && !is_white_space(s[from]) {
        lemma_token_end(s, from + 1);
    }
}

/// The ranges of the tokens of `s`: for each token the index of its first
/// character and the index behind its last.
pub fn token_ranges(s: &Vec<char>) -> (ranges: Vec<(usize, usize)>)
    ensures
        ranges@.len() == tokens(s@).len(),
        forall|k: int|
            0 <= k < ranges@.len() ==> {
                &&& (#[trigger] ranges@[k]).0 < ranges@[k].1 <= s@.len()
                &&& tokens(s@)[k] == s@.subrange(ranges@[k].0 as int, ranges@[k].1 as int)
            },
{
    let mut ranges: Vec<(usize, usize)> = Vec::new();
    let ghost mut found: Seq<Seq<char>> = Seq::empty();
    let mut pos: usize = 0;
    while pos < s.len()
        invariant
            pos <= s@.len(),
            found.len() == ranges@.len(),
            tokens(s@) == found + tokens_from(s@, pos as int),
            forall|k: int|
                0 <= k < ranges@.len() ==> {
                    &&& (#[trigger] ranges@[k]).0 < ranges@[k].1 <= s@.len()
                    &&& found[k] == s@.subrange(ranges@[k].0 as int, ranges@[k].1 as int)
                },
        decreases s@.len() - pos,
    {
        if white_space(s[pos]) {
            pos += 1;
        } else {
            let start = pos;
            while pos < s.len() && !white_space(s[pos])
                invariant
                    start <= pos <= s@.len(),
                    token_end(s@, start as int) == token_end(s@, pos as int),
                decreases s@.len() - pos,
            {
                pos += 1;
            }
            proof {
                lemma_token_end(s@, start as int);
                let token = s@.subrange(start as int, pos as int);
                assert(found + (seq![token] + tokens_from(s@, pos as int)) =~= found.push(token)
                    + tokens_from(s@, pos as int));
                found = found.push(token);
            }
            ranges.push((start, pos));
        }
    }
    assert(found + tokens_from(s@, pos as int) =~= found);
    ranges
}

/// Whether `c` is a decimal digit.
pub open spec fn is_digit(c: char) -> bool {
    '0' <= c <= '9'
}

/// The number that the digits `s` denote in base ten.
pub open spec fn digits_value(s: Seq<char>) -> int
    decreases s.len(),
{
    if s.len() == 0 {
        0
    } else {
        10 * digits_value(s.drop_last()) + (s.last() as int - '0' as int)
    }
}

/// Whether `s` consists of at least one decimal digit and nothing else.
pub open spec fn is_number(s: Seq<char>) -> bool {
    s.len() > 0 && forall|k: int| 0 <= k < s.len() ==> is_digit(#[trigger] s[k])
}

/// The integer that the token `s` denotes: digits in base ten, with one
/// sign `+` or `-` allowed before them. Leading zeros are allowed.
pub open spec fn signed_decimal(s: Seq<char>) -> Option<int> {
    if s.len() > 0 && s[0] == '-' {
        if is_number(s.skip(1)) {
            Some(-digits_value(s.skip(1)))
        } else {
            None
        }
    } else if s.len() > 0 && s[0] == '+' {
        if is_number(s.skip(1)) {
            Some(digits_value(s.skip(1)))
        } else {
            None
        }
    } else if is_number(s) {
        Some(digits_value(s))
    } else {
        None
    }
}

/// The value of the token `s` as an `i32`: `None` where `s` is no signed
/// decimal or denotes an integer outside `i32`.
pub open spec fn parsed_i32(s: Seq<char>) -> Option<i32> {
    match signed_decimal(s) {
        Some(v) => if i32::MIN <= v <= i32::MAX {
            Some(v as i32)
        } else {
            None
        },
        None => None,
    }
}

/// The value of the digits `digits`, negated where `negative` says so, as an
/// `i32`: `None` where `digits` is no number or the value lies outside
/// `i32`.
pub open spec fn number_as_i32(digits: Seq<char>, negative: bool) -> Option<i32> {
    let v = if negative {
        -digits_value(digits)
    } else {
        digits_value(digits)
    };
    if is_number(digits) && i32::MIN <= v <= i32::MAX {
        Some(v as i32)
    } else {
        None
    }
}

/// The value of digits does not shrink when digits are appended.
pub proof fn lemma_digits_value_grows(s: Seq<char>, k: int)
    requires
        0 <= k <= s.len(),
        forall|i: int| 0 <= i < s.len() ==> is_digit(#[trigger] s[i]),
    ensures
        0 <= digits_value(s.take(k)) <= digits_value(s),
    decreases s.len() - k,
{
    if k == s.len() {
        assert(s.take(k) =~= s);
        lemma_digits_value_nonnegative(s);
    } else {
        lemma_digits_value_grows(s, k + 1);
        assert(s.take(k + 1).drop_last() =~= s.take(k));
        lemma_digits_value_nonnegative(s.take(k));
    }
}

/// Digits denote a number that is not negative.
pub proof fn lemma_digits_value_nonnegative(s: Seq<char>)
    requires
        forall|i: int| 0 <= i < s.len() ==> is_digit(#[trigger] s[i]),
    ensures
        0 <= digits_value(s),
    decreases s.len(),
{
    if s.len() > 0 {
        lemma_digits_value_nonnegative(s.drop_last());
    }
}

/// Reads the characters of `s` from `start` up to `end` as an `i32`.
pub fn parse_i32(s: &Vec<char>, start: usize, end: usize) -> (r: Option<i32>)
    requires
        start <= end <= s@.len(),
    ensures
        r == parsed_i32(s@.subrange(start as int, end as int)),
{
    let ghost token = s@.subrange(start as int, end as int);
    if start == end {
        return None;
    }
    let negative = s[start] == '-';
    let signed = negative || s[start] == '+';
    let first = if signed {
        start + 1
    } else {
        start
    };
    let ghost digits = if signed {
        token.skip(1)
    } else {
        token
    };
    assert(digits =~= s@.subrange(first as int, end as int));
    assert(token[0] == s@[start as int]);
    assert(parsed_i32(token) == number_as_i32(digits, negative));
    if first == end {
        return None;
    }
    let mut value: i64 = 0;
    let mut i: usize = first;
    while i < end
        invariant
            first <= i <= end <= s@.len(),
            digits == s@.subrange(first as int, end as int),
            parsed_i32(s@.subrange(start as int, end as int)) == number_as_i32(digits, negative),
            forall|k: int| 0 <= k < i - first ==> is_digit(#[trigger] digits[k]),
            value == digits_value(digits.take(i - first)),
            0 <= value <= 2147483648,
        decreases end - i,
    {
        let c = s[i];
        assert(digits[i - first] == c);
        if c < '0' || c > '9' {
            return None;
        }
        let digit = (c as u32 - '0' as u32) as i64;
        assert(digits.take(i - first + 1).drop_last() =~= digits.take(i - first));
        value = value * 10 + digit;
        if value > 2147483648 {
            proof {
                if is_number(digits) {
                    lemma_digits_value_grows(digits, i - first + 1);
                }
            }
            return None;
        }
        i += 1;
    }
    assert(digits.take(end - first) =~= digits);
    let signed_value = if negative {
        -value
    } else {
        value
    };
    if signed_value < -2147483648 || signed_value > 2147483647 {
        None
    } else {
        Some(signed_value as i32)
    }
}

/// `String::push` appends the character to the end of the string.
pub assume_specification[ String::push ](s: &mut String, ch: char)
    ensures
        final(s)@ == old(s)@.push(ch),
;

/// The character of the digit `d`.
pub open spec fn digit_char(d: int) -> char {
    (d + '0' as int) as char
}

/// The digits of `v` in base ten, without leading zeros.
pub open spec fn decimal_digits(v: nat) -> Seq<char>
    decreases v,
{
    if v < 10 {
        seq![digit_char(v as int)]
    } else {
        decimal_digits(v / 10).push(digit_char((v % 10) as int))
    }
}

/// The integer `v` written in base ten, with `-` before a negative one.
pub open spec fn decimal(v: int) -> Seq<char> {
    if v < 0 {
        seq!['-'] + decimal_digits((-v) as nat)
    } else {
        decimal_digits(v as nat)
    }
}

/// Appends the digits of `v` to `out`.
fn push_digits(out: &mut String, v: u32)
    ensures
        final(out)@ == old(out)@ + decimal_digits(v as nat),
    decreases v,
{
    if v >= 10 {
        push_digits(out, v / 10);
    }
    let digit = (v % 10) as u8;
    let c = (digit + 48) as char;
    assert(c == digit_char((v % 10) as int));
    out.push(c);
    assert(out@ =~= old(out)@ + decimal_digits(v as nat));
}

/// Appends `v`, written in base ten, to `out`.
pub fn push_decimal(out: &mut String, v: i32)
    ensures
        final(out)@ == old(out)@ + decimal(v as int),
{
    if v < 0 {
        out.push('-');
        let magnitude = (-(v as i64)) as u32;
        push_digits(out, magnitude);
        assert(out@ =~= old(out)@ + decimal(v as int));
    } else {
        push_digits(out, v as u32);
    }
}

/// The digits of a number are at least one, are digits, and denote the
/// number.
pub proof fn lemma_decimal_digits(v: nat)
    ensures
        is_number(decimal_digits(v)),
        digits_value(decimal_digits(v)) == v,
    decreases v,
{
    if v < 10 {
        let s = decimal_digits(v);
        assert(s.drop_last() =~= Seq::<char>::empty());
        assert(digits_value(s.drop_last()) == 0);
    } else {
        lemma_decimal_digits(v / 10);
        let s = decimal_digits(v);
        assert(s.drop_last() =~= decimal_digits(v / 10));
    }
}

/// An `i32` written in base ten is a token without white space that reads
/// back as the same `i32`.
pub proof fn lemma_decimal_reads_back(v: i32)
    ensures
        decimal(v as int).len() > 0,
        forall|k: int| 0 <= k < decimal(v as int).len() ==> !is_white_space(
            #[trigger] decimal(v as int)[k],
        ),
        parsed_i32(decimal(v as int)) == Some(v),
{
    let s = decimal(v as int);
    if v < 0 {
        let d = decimal_digits((-v) as nat);
        lemma_decimal_digits((-v) as nat);
        assert(s.skip(1) =~= d);
        assert(s[0] == '-');
        assert forall|k: int| 0 <= k < s.len() implies !is_white_space(#[trigger] s[k]) by {
            if k > 0 {
                assert(s[k] == d[k - 1]);
                assert(is_digit(d[k - 1]));
            }
        }
    } else {
        lemma_decimal_digits(v as nat);
        assert(is_digit(s[0]));
        assert forall|k: int| 0 <= k < s.len() implies !is_white_space(#[trigger] s[k]) by {
            assert(is_digit(s[k]));
        }
    }
}

/// A run of characters without white space that is followed by white space
/// or by the end of the text is a token.
pub proof fn lemma_token_end_is(s: Seq<char>, from: int, end: int)
    requires
        0 <= from <= end <= s.len(),
        forall|k: int| from <= k < end ==> !is_white_space(#[trigger] s[k]),
        end == s.len() || is_white_space(s[end]),
    ensures
        token_end(s, from) == end,
    decreases end - from,
{
    if from < end {
        lemma_token_end_is(s, from + 1, end);
    }
}

/// The tokens of a text that follows another text are the tokens of the
/// joined text from the joint on.
pub proof fn lemma_tokens_shift(a: Seq<char>, b: Seq<char>, k: int)
    requires
        0 <= k <= b.len(),
    ensures
        tokens_from(a + b, a.len() + k) == tokens_from(b, k),
    decreases b.len() - k,
{
    let s = a + b;
    if k < b.len() {
        assert(s[a.len() + k] == b[k]);
        if is_white_space(b[k]) {
            lemma_tokens_shift(a, b, k + 1);
        } else {
            let e = token_end(b, k);
            lemma_token_end(b, k);
            assert forall|i: int| a.len() + k <= i < a.len() + e implies !is_white_space(
                #[trigger] s[i],
            ) by {
                assert(s[i] == b[i - a.len()]);
            }
            if e < b.len() {
                assert(s[a.len() + e] == b[e]);
            }
            lemma_token_end_is(s, a.len() + k, a.len() + e);
            assert(s.subrange(a.len() + k, a.len() + e) =~= b.subrange(k, e));
            lemma_tokens_shift(a, b, e);
        }
    }
}

/// Joining a text that ends in white space, or is empty, with another text
/// joins their tokens.
pub proof fn lemma_tokens_concat(a: Seq<char>, b: Seq<char>)
    requires
        a.len() == 0 || is_white_space(a.last()),
    ensures
        tokens(a + b) == tokens(a) + tokens(b),
{
    lemma_tokens_concat_from(a, b, 0);
}

/// [`lemma_tokens_concat`] for the tokens from index `from` on.
proof fn lemma_tokens_concat_from(a: Seq<char>, b: Seq<char>, from: int)
    requires
        a.len() == 0 || is_white_space(a.last()),
        0 <= from <= a.len(),
    ensures
        tokens_from(a + b, from) == tokens_from(a, from) + tokens(b),
    decreases a.len() - from,
{
    let s = a + b;
    if from == a.len() {
        lemma_tokens_shift(a, b, 0);
        assert(tokens_from(a, from) + tokens(b) =~= tokens(b));
    } else {
        assert(s[from] == a[from]);
        if is_white_space(a[from]) {
            lemma_tokens_concat_from(a, b, from + 1);
        } else {
            let e = token_end(a, from);
            lemma_token_end(a, from);
            assert(e < a.len()) by {
                if e == a.len() {
                    assert(!is_white_space(a[a.len() - 1]));
                }
            }
            assert forall|i: int| from <= i < e implies !is_white_space(#[trigger] s[i]) by {
                assert(s[i] == a[i]);
            }
            assert(s[e] == a[e]);
            lemma_token_end_is(s, from, e);
            assert(s.subrange(from, e) =~= a.subrange(from, e));
            lemma_tokens_concat_from(a, b, e);
            assert(seq![a.subrange(from, e)] + (tokens_from(a, e) + tokens(b)) =~= (seq![
                a.subrange(from, e),
            ] + tokens_from(a, e)) + tokens(b));
        }
    }
}

} // verus!
