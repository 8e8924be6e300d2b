//! The textual encoding of spaceship instances: one target per line, its two
//! coordinates written in base ten and separated by white space.

use crate::spaceship::Input;
use crate::text::{
    chars_of, decimal, is_white_space, lemma_decimal_reads_back, lemma_token_end_is,
    lemma_tokens_concat, parse_i32, parsed_i32, push_decimal, token_ranges, tokens, tokens_from,
};
use vstd::prelude::*;

verus! {

/// How often the character `c` occurs in `s`.
pub open spec fn count_char(s: Seq<char>, c: char) -> nat
    decreases s.len(),
{
    if s.len() == 0 {
        0
    } else {
        count_char(s.drop_last(), c) + (if s.last() == c {
            1nat
        } else {
            0nat
        })
    }
}

/// The number of lines of `s`: one per line feed, and one more for what
/// follows the last line feed, be it empty, unless `s` ends with a line
/// feed. The empty text counts as one line.
pub open spec fn line_count(s: Seq<char>) -> nat {
    count_char(s, '\n') + (if s.len() > 0 && s.last() == '\n' {
        0nat
    } else {
        1nat
    })
}

/// Whether `text` encodes an instance: it holds two tokens for each of its
/// lines, and each of these tokens is an `i32` in base ten. Tokens beyond
/// these are not looked at.
pub open spec fn readable(text: Seq<char>) -> bool {
    &&& tokens(text).len() >= 2 * line_count(text)
    &&& forall|k: int| 0 <= k < 2 * line_count(text) ==> parsed_i32(#[trigger] tokens(text)[k]) is Some
}

/// The targets that a readable `text` encodes: as many as it has lines, the
/// coordinates taken from its tokens two by two.
pub open spec fn targets_of(text: Seq<char>) -> Seq<(i32, i32)> {
    Seq::new(
        line_count(text),
        |k: int| (parsed_i32(tokens(text)[2 * k])->0, parsed_i32(tokens(text)[2 * k + 1])->0),
    )
}

/// A character occurs in a text at most as often as the text is long.
pub proof fn lemma_count_char_bound(s: Seq<char>, c: char)
    ensures
        count_char(s, c) <= s.len(),
    decreases s.len(),
{
    if s.len() > 0 {
        lemma_count_char_bound(s.drop_last(), c);
    }
}

/// Counts the lines of `s`.
pub fn count_lines(s: &Vec<char>) -> (n: usize)
    ensures
        n == line_count(s@),
        1 <= n,
        n <= s@.len() || s@.len() == 0,
{
    let mut feeds: usize = 0;
    let mut i: usize = 0;
    while i < s.len()
        invariant
            i <= s@.len(),
            feeds == count_char(s@.take(i as int), '\n'),
            feeds <= i,
        decreases s@.len() - i,
    {
        assert(s@.take(i + 1).drop_last() =~= s@.take(i as int));
        if s[i] == '\n' {
            feeds += 1;
        }
        i += 1;
    }
    assert(s@.take(s@.len() as int) =~= s@);
    if s.len() > 0 && s[s.len() - 1] == '\n' {
        feeds
    } else {
        proof {
            if s@.len() > 0 {
                lemma_count_char_bound(s@.drop_last(), '\n');
            }
        }
        feeds + 1
    }
}

/// Decodes an instance text, or finds that it encodes none.
pub fn read_input(f: &str) -> (r: Option<Input>)
    ensures
        match r {
            Some(input) => readable(f@) && input.target@ == targets_of(f@),
            None => !readable(f@),
        },
{
    let chars = chars_of(f);
    let n = count_lines(&chars);
    let ranges = token_ranges(&chars);
    if ranges.len() / 2 < n {
        return None;
    }
    let ghost text = f@;
    let mut target: Vec<(i32, i32)> = Vec::new();
    let mut k: usize = 0;
    while k < n
        invariant
            k <= n,
            text == f@,
            chars@ == text,
            n == line_count(text),
            2 * n <= ranges.len(),
            ranges@.len() == tokens(text).len(),
            forall|i: int|
                0 <= i < ranges@.len() ==> {
                    &&& (#[trigger] ranges@[i]).0 < ranges@[i].1 <= text.len()
                    &&& tokens(text)[i] == text.subrange(ranges@[i].0 as int, ranges@[i].1 as int)
                },
            target@.len() == k,
            forall|i: int| 0 <= i < 2 * k ==> parsed_i32(#[trigger] tokens(text)[i]) is Some,
            forall|i: int|
                0 <= i < k ==> #[trigger] target@[i] == (
                    parsed_i32(tokens(text)[2 * i])->0,
                    parsed_i32(tokens(text)[2 * i + 1])->0,
                ),
        decreases n - k,
    {
        assert(2 * k + 1 < ranges.len());
        let (xa, xb) = ranges[2 * k];
        let (ya, yb) = ranges[2 * k + 1];
        let x = parse_i32(&chars, xa, xb);
        let y = parse_i32(&chars, ya, yb);
        match (x, y) {
            (Some(x), Some(y)) => {
                target.push((x, y));
            },
            _ => {
                assert(parsed_i32(tokens(text)[2 * k as int]) is None || parsed_i32(
                    tokens(text)[2 * k + 1],
                ) is None);
                return None;
            },
        }
        k += 1;
    }
    assert(target@ =~= targets_of(text));
    Some(Input { target })
}

/// Decodes an instance text.
pub fn parse_input(f: &str) -> (input: Input)
    requires
        readable(f@),
    ensures
        input.target@ == targets_of(f@),
{
    match read_input(f) {
        Some(input) => input,
        None => Input { target: Vec::new() },
    }
}

/// Decodes the text of one of the fixed instances. The fixed instances are
/// encoded as every other instance is.
pub fn parse_input_fixed(f: &str) -> (input: Input)
    requires
        readable(f@),
    ensures
        input.target@ == targets_of(f@),
{
    parse_input(f)
}

/// The number of fixed instances.
pub const FIXED_COUNT: usize = 25;

/// The index of the fixed instance that belongs to `seed`: seed `1` picks
/// the first one, and the seeds run through the instances in a cycle.
pub open spec fn fixed_index_of(seed: u64) -> int {
    (seed + 24) % 25
}

/// Computes the index of the fixed instance that belongs to `seed`.
pub fn fixed_index(seed: u64) -> (index: usize)
    requires
        seed + 24 <= u64::MAX,
    ensures
        index == fixed_index_of(seed),
        index < FIXED_COUNT,
{
    ((seed + 24) % 25) as usize
}

/// The instance for `seed`: the one among the texts `fixed` of the fixed
/// instances that the seed picks, decoded.
pub fn gen(seed: u64, fixed: &[&str]) -> (input: Input)
    requires
        seed + 24 <= u64::MAX,
        fixed@.len() == FIXED_COUNT,
        readable(fixed@[fixed_index_of(seed)]@),
    ensures
        input.target@ == targets_of(fixed@[fixed_index_of(seed)]@),
{
    parse_input_fixed(fixed[fixed_index(seed)])
}

/// The two integers `x` and `y` in base ten with one blank between them.
pub open spec fn pair_of(x: int, y: int) -> Seq<char> {
    decimal(x) + seq![' '] + decimal(y)
}

/// What the targets `target` are encoded as: one line for each, made of
/// its coordinates with one blank between them and a line feed at the end.
pub open spec fn encoded(target: Seq<(i32, i32)>) -> Seq<char>
    decreases target.len(),
{
    if target.len() == 0 {
        Seq::empty()
    } else {
        encoded(target.drop_last()) + pair_of(target.last().0 as int, target.last().1 as int)
            + seq!['\n']
    }
}

/// Writes `x` and `y` in base ten with one blank between them.
pub fn pair_text(x: i32, y: i32) -> (text: String)
    ensures
        text@ == pair_of(x as int, y as int),
{
    let mut text = String::new();
    push_decimal(&mut text, x);
    text.push(' ');
    push_decimal(&mut text, y);
    assert(text@ =~= pair_of(x as int, y as int));
    text
}

impl Input {
    /// Encodes the instance as text.
    pub fn to_text(&self) -> (text: String)
        ensures
            text@ == encoded(self.target@),
    {
        let mut text = String::new();
        let mut k: usize = 0;
        while k < self.target.len()
            invariant
                k <= self.target@.len(),
                text@ == encoded(self.target@.take(k as int)),
            decreases self.target@.len() - k,
        {
            let (x, y) = self.target[k];
            let ghost before = text@;
            push_decimal(&mut text, x);
            text.push(' ');
            push_decimal(&mut text, y);
            text.push('\n');
            proof {
                let next = self.target@.take(k + 1);
                assert(next.drop_last() =~= self.target@.take(k as int));
                assert(next.last() == (x, y));
                assert(text@ =~= before + pair_of(x as int, y as int) + seq!['\n']);
            }
            k += 1;
        }
        assert(self.target@.take(self.target@.len() as int) =~= self.target@);
        text
    }
}

/// The coordinates of `target` in base ten, in the order in which they are
/// written: two for each target.
pub open spec fn coordinates(target: Seq<(i32, i32)>) -> Seq<Seq<char>>
    decreases target.len(),
{
    if target.len() == 0 {
        Seq::empty()
    } else {
        coordinates(target.drop_last()) + seq![
            decimal(target.last().0 as int),
            decimal(target.last().1 as int),
        ]
    }
}

/// There are two coordinates for each target.
proof fn lemma_coordinates_len(target: Seq<(i32, i32)>)
    ensures
        coordinates(target).len() == 2 * target.len(),
    decreases target.len(),
{
    if target.len() > 0 {
        lemma_coordinates_len(target.drop_last());
    }
}

/// The coordinates of the target with index `k`.
proof fn lemma_coordinates_at(target: Seq<(i32, i32)>, k: int)
    requires
        0 <= k < target.len(),
    ensures
        coordinates(target).len() == 2 * target.len(),
        coordinates(target)[2 * k] == decimal(target[k].0 as int),
        coordinates(target)[2 * k + 1] == decimal(target[k].1 as int),
    decreases target.len(),
{
    lemma_coordinates_len(target);
    lemma_coordinates_len(target.drop_last());
    let before = coordinates(target.drop_last());
    let last = seq![decimal(target.last().0 as int), decimal(target.last().1 as int)];
    assert(coordinates(target) == before + last);
    if k < target.len() - 1 {
        lemma_coordinates_at(target.drop_last(), k);
        assert(target.drop_last()[k] == target[k]);
        assert((before + last)[2 * k] == before[2 * k]);
        assert((before + last)[2 * k + 1] == before[2 * k + 1]);
    } else {
        assert((before + last)[2 * k] == last[0]);
        assert((before + last)[2 * k + 1] == last[1]);
    }
}

/// A character that a text does not hold occurs in it `0` times.
proof fn lemma_count_absent(s: Seq<char>, c: char)
    requires
        forall|k: int| 0 <= k < s.len() ==> #[trigger] s[k] != c,
    ensures
        count_char(s, c) == 0,
    decreases s.len(),
{
    if s.len() > 0 {
        lemma_count_absent(s.drop_last(), c);
    }
}

/// A character occurs in a joined text as often as in its two parts
/// together.
proof fn lemma_count_concat(a: Seq<char>, b: Seq<char>, c: char)
    ensures
        count_char(a + b, c) == count_char(a, c) + count_char(b, c),
    decreases b.len(),
{
    if b.len() == 0 {
        assert(a + b =~= a);
    } else {
        lemma_count_concat(a, b.drop_last(), c);
        assert((a + b).drop_last() =~= a + b.drop_last());
    }
}

/// The line of one target holds one line feed, at its end, and its tokens
/// are the two coordinates.
proof fn lemma_line(x: i32, y: i32)
    ensures
        count_char(pair_of(x as int, y as int) + seq!['\n'], '\n') == 1,
        tokens(pair_of(x as int, y as int) + seq!['\n']) == seq![
            decimal(x as int),
            decimal(y as int),
        ],
{
    let dx = decimal(x as int);
    let dy = decimal(y as int);
    let line = pair_of(x as int, y as int) + seq!['\n'];
    lemma_decimal_reads_back(x);
    lemma_decimal_reads_back(y);
    let a = dx.len() as int;
    let b = a + 1 + dy.len();
    assert(line.len() == b + 1);
    assert forall|k: int| 0 <= k < a implies !is_white_space(#[trigger] line[k]) by {
        assert(line[k] == dx[k]);
    }
    assert(line[a] == ' ');
    assert forall|k: int| a + 1 <= k < b implies !is_white_space(#[trigger] line[k]) by {
        assert(line[k] == dy[k - a - 1]);
    }
    assert(line[b] == '\n');
    assert(is_white_space(' ') && is_white_space('\n'));

    lemma_token_end_is(line, 0, a);
    lemma_token_end_is(line, a + 1, b);
    assert(line.subrange(0, a) =~= dx);
    assert(line.subrange(a + 1, b) =~= dy);
    assert(tokens_from(line, b + 1) == Seq::<Seq<char>>::empty());
    assert(tokens_from(line, b) == tokens_from(line, b + 1));
    assert(tokens_from(line, a + 1) == seq![dy] + tokens_from(line, b));
    assert(tokens_from(line, a) == tokens_from(line, a + 1));
    assert(tokens_from(line, 0) == seq![dx] + tokens_from(line, a));
    assert(tokens(line) =~= seq![dx, dy]);

    let body = pair_of(x as int, y as int);
    assert forall|k: int| 0 <= k < body.len() implies #[trigger] body[k] != '\n' by {
        assert(body[k] == line[k]);
        if k < a {
            assert(!is_white_space(line[k]));
        } else if k > a {
            assert(!is_white_space(line[k]));
        }
    }
    lemma_count_absent(body, '\n');
    assert(line.drop_last() =~= body);
}

/// What targets are encoded as is empty or ends with a line feed, holds
/// one line feed for each target, and its tokens are the coordinates.
proof fn lemma_encoded(target: Seq<(i32, i32)>)
    ensures
        encoded(target).len() == 0 <==> target.len() == 0,
        target.len() > 0 ==> encoded(target).last() == '\n',
        count_char(encoded(target), '\n') == target.len(),
        tokens(encoded(target)) == coordinates(target),
    decreases target.len(),
{
    if target.len() > 0 {
        let before = encoded(target.drop_last());
        let (x, y) = target.last();
        let line = pair_of(x as int, y as int) + seq!['\n'];
        lemma_encoded(target.drop_last());
        lemma_line(x, y);
        assert(encoded(target) =~= before + line);
        lemma_count_concat(before, line, '\n');
        assert(is_white_space('\n'));
        lemma_tokens_concat(before, line);
    }
}

/// Reading what was written gives back what was there: the text that
/// encodes at least one target is readable, and it decodes to these
/// targets. (The encoding of no target is the empty text, which counts as
/// one line and so is not readable.)
pub proof fn lemma_encoding_round_trip(target: Seq<(i32, i32)>)
    requires
        target.len() > 0,
    ensures
        readable(encoded(target)),
        targets_of(encoded(target)) == target,
{
    let text = encoded(target);
    lemma_encoded(target);
    lemma_coordinates_len(target);
    assert(line_count(text) == target.len());
    assert forall|k: int| 0 <= k < 2 * line_count(text) implies parsed_i32(
        #[trigger] tokens(text)[k],
    ) is Some by {
        let i = k / 2;
        lemma_coordinates_at(target, i);
        lemma_decimal_reads_back(target[i].0);
        lemma_decimal_reads_back(target[i].1);
        assert(k == 2 * i || k == 2 * i + 1);
    }
    assert forall|k: int| 0 <= k < target.len() implies #[trigger] targets_of(text)[k]
        == target[k] by {
        lemma_coordinates_at(target, k);
        lemma_decimal_reads_back(target[k].0);
        lemma_decimal_reads_back(target[k].1);
    }
    assert(targets_of(text) =~= target);
}

} // verus!
