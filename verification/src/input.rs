//! Reading the numbers of a cave and the window size from text.

use crate::decimal::{decimal, is_number, read_decimal};
use vstd::prelude::*;

verus! {

/// Whether `c` is white space: one of the characters to which Unicode
/// gives the property White_Space.
pub open spec fn is_whitespace(c: char) -> bool {
    let u = c as u32;
    // tab, line feed, vertical tab, form feed, carriage return
    ||| 0x09 <= u <= 0x0D
    // space
    ||| u == 0x20
    // next line
    ||| u == 0x85
    // no-break space
    ||| u == 0xA0
    // ogham space mark
    ||| u == 0x1680
    // en quad to hair space
    ||| 0x2000 <= u <= 0x200A
    // line separator, paragraph separator
    ||| u == 0x2028
    ||| u == 0x2029
    // narrow no-break space
    ||| u == 0x202F
    // medium mathematical space
    ||| u == 0x205F
    // ideographic space
    ||| u == 0x3000
}

/// Where the run of characters that are not white space, entered at `i`,
/// ends: at the next white space at or after `i`, or at the end of `s`.
pub open spec fn token_end(s: Seq<char>, i: int) -> int
    decreases s.len() - i,
{
    if 0 <= i < s.len() && !is_whitespace(s[i]) {
        token_end(s, i + 1)
    } else {
        i
    }
}

/// The tokens of `s` that start at or after `i`, in order. A token is a run
/// of characters that are not white space, taken as far as it goes.
pub open spec fn tokens_from(s: Seq<char>, i: int) -> Seq<Seq<char>>
    decreases s.len() - i,
    via tokens_from_decreases
{
    if i < 0 || i >= s.len() {
        Seq::empty()
    } else if is_whitespace(s[i]) {
        tokens_from(s, i + 1)
    } else {
        seq![s.subrange(i, token_end(s, i))] + tokens_from(s, token_end(s, i))
    }
}

#[via_fn]
proof fn tokens_from_decreases(s: Seq<char>, i: int) {
    if 0 <= i < s.len() && !is_whitespace(s[i]) {
        lemma_token_end_bounds(s, i + 1);
    }
}

/// The tokens of a text: its runs of characters that are not white space,
/// in order.
pub open spec fn tokens(s: Seq<char>) -> Seq<Seq<char>> {
    tokens_from(s, 0)
}

/// A run entered inside `s` ends at or after the place where it was
/// entered, and not beyond the end of `s`.
proof fn lemma_token_end_bounds(s: Seq<char>, i: int)
    requires
        0 <= i <= s.len(),
    ensures
        i <= token_end(s, i) <= s.len(),
    decreases s.len() - i,
{
    if i < s.len() && !is_whitespace(s[i]) {
        lemma_token_end_bounds(s, i + 1);
    }
}

/// Each token writes the number that stands at its place in `numbers`.
pub open spec fn all_read_as(tokens: Seq<Seq<char>>, numbers: Seq<u128>) -> bool {
    &&& numbers.len() == tokens.len()
    &&& forall|k: int|
        0 <= k < tokens.len() ==> decimal(#[trigger] tokens[k]) == Some(numbers[k] as nat)
}

/// One of the tokens writes no number, or one too large for the number
/// type.
pub open spec fn has_malformed(tokens: Seq<Seq<char>>) -> bool {
    exists|k: int| 0 <= k < tokens.len() && !is_number(#[trigger] tokens[k], u128::MAX as int)
}

/// `s` without the white space in front of it.
pub open spec fn trim_start(s: Seq<char>) -> Seq<char>
    decreases s.len(),
{
    if s.len() > 0 && is_whitespace(s.first()) {
        trim_start(s.drop_first())
    } else {
        s
    }
}

/// `s` without the white space at its end.
pub open spec fn trim_end(s: Seq<char>) -> Seq<char>
    decreases s.len(),
{
    if s.len() > 0 && is_whitespace(s.last()) {
        trim_end(s.drop_last())
    } else {
        s
    }
}

/// `s` without the white space around it.
pub open spec fn trimmed(s: Seq<char>) -> Seq<char> {
    trim_end(trim_start(s))
}

/// The text writes a window size: a number that is at least one and fits
/// `usize`.
pub open spec fn is_window_size(t: Seq<char>) -> bool {
    decimal(t) matches Some(v) && 1 <= v <= usize::MAX
}

/// A run of `s` that is entered at or before the end of its part `a` ends
/// where it ends in `a` alone, when white space follows `a` in `s`.
proof fn lemma_token_end_in_front(a: Seq<char>, c: char, b: Seq<char>, i: int)
    requires
        is_whitespace(c),
        0 <= i <= a.len(),
    ensures
        token_end(a.push(c) + b, i) == token_end(a, i),
    decreases a.len() - i,
{
    let s = a.push(c) + b;
    if i < a.len() {
        assert(s[i] == a[i]);
        if !is_whitespace(a[i]) {
            lemma_token_end_in_front(a, c, b, i + 1);
        }
    } else {
        assert(s[i] == c);
    }
}

/// Behind a part `x` of a text, runs end where they end in the rest `y`
/// alone, counted from the end of `x`.
proof fn lemma_token_end_behind(x: Seq<char>, y: Seq<char>, j: int)
    requires
        0 <= j <= y.len(),
    ensures
        token_end(x + y, x.len() + j) == x.len() + token_end(y, j),
    decreases y.len() - j,
{
    if j < y.len() {
        assert((x + y)[x.len() + j] == y[j]);
        if !is_whitespace(y[j]) {
            lemma_token_end_behind(x, y, j + 1);
        }
    }
}

/// Behind a part `x` of a text, the tokens are those of the rest `y` alone.
proof fn lemma_tokens_behind(x: Seq<char>, y: Seq<char>, j: int)
    requires
        0 <= j <= y.len(),
    ensures
        tokens_from(x + y, x.len() + j) == tokens_from(y, j),
    decreases y.len() - j,
{
    let s = x + y;
    if j < y.len() {
        assert(s[x.len() + j] == y[j]);
        if is_whitespace(y[j]) {
            lemma_tokens_behind(x, y, j + 1);
        } else {
            let end = token_end(y, j);
            lemma_token_end_bounds(y, j + 1);
            lemma_token_end_behind(x, y, j);
            lemma_tokens_behind(x, y, end);
            assert(s.subrange(x.len() + j, x.len() + end) =~= y.subrange(j, end));
        }
    }
}

/// In front of white space, the tokens are those of the part `a` in front
/// of it, followed by those of the part `b` behind it.
proof fn lemma_tokens_in_front(a: Seq<char>, c: char, b: Seq<char>, i: int)
    requires
        is_whitespace(c),
        0 <= i <= a.len(),
    ensures
        tokens_from(a.push(c) + b, i) == tokens_from(a, i) + tokens(b),
    decreases a.len() - i,
{
    let s = a.push(c) + b;
    if i < a.len() {
        assert(s[i] == a[i]);
        if is_whitespace(a[i]) {
            lemma_tokens_in_front(a, c, b, i + 1);
        } else {
            let end = token_end(a, i);
            lemma_token_end_bounds(a, i + 1);
            lemma_token_end_in_front(a, c, b, i);
            lemma_tokens_in_front(a, c, b, end);
            assert(s.subrange(i, end) =~= a.subrange(i, end));
            assert(tokens_from(s, i) =~= tokens_from(a, i) + tokens(b));
        }
    } else {
        assert(s[i] == c);
        lemma_tokens_behind(a.push(c), b, 0);
        assert(tokens_from(s, i) =~= tokens_from(a, i) + tokens(b));
    }
}

/// White space splits a text: the tokens of two texts joined by a white
/// space character are the tokens of the first, then those of the second.
pub proof fn lemma_tokens_of_joined(a: Seq<char>, c: char, b: Seq<char>)
    requires
        is_whitespace(c),
    ensures
        tokens(a.push(c) + b) == tokens(a) + tokens(b),
{
    lemma_tokens_in_front(a, c, b, 0);
}

/// A text without white space is one token, and an empty text has none.
pub proof fn lemma_tokens_of_run(run: Seq<char>)
    requires
        forall|k: int| 0 <= k < run.len() ==> !is_whitespace(#[trigger] run[k]),
    ensures
        tokens(run) == if run.len() > 0 {
            seq![run]
        } else {
            Seq::empty()
        },
{
    if run.len() > 0 {
        lemma_run_ends_at_the_end(run, 0);
        assert(!is_whitespace(run[0]));
        assert(run.subrange(0, run.len() as int) =~= run);
        assert(tokens_from(run, run.len() as int) =~= Seq::empty());
        assert(tokens(run) =~= seq![run]);
    }
}

/// In a text without white space, every run ends at the end of the text.
proof fn lemma_run_ends_at_the_end(run: Seq<char>, i: int)
    requires
        forall|k: int| 0 <= k < run.len() ==> !is_whitespace(#[trigger] run[k]),
        0 <= i <= run.len(),
    ensures
        token_end(run, i) == run.len(),
    decreases run.len() - i,
{
    if i < run.len() {
        lemma_run_ends_at_the_end(run, i + 1);
    }
}

/// Decides whether `c` is white space.
fn is_space(c: char) -> (b: bool)
    ensures
        b == is_whitespace(c),
{
    let u: u32 = c as u32;
    (0x09 <= u && u <= 0x0D) || u == 0x20 || u == 0x85 || u == 0xA0 || u == 0x1680 || (0x2000 <= u
        && u <= 0x200A) || u == 0x2028 || u == 0x2029 || u == 0x202F || u == 0x205F || u == 0x3000
}

/// The characters of `text`, one by one.
fn chars_of(text: &str) -> (chars: Vec<char>)
    ensures
        chars@ == text@,
{
    let mut chars: Vec<char> = Vec::new();
    for c in it: text.chars()
        invariant
            it.seq() == text@,
            chars@ == text@.take(it.index() as int),
    {
        chars.push(c);
        assert(text@.take(it.index() + 1) =~= text@.take(it.index() as int).push(c));
    }
    assert(text@.take(text@.len() as int) =~= text@);
    chars
}

/// Finds the end of the token that starts at `from`.
fn find_token_end(chars: &Vec<char>, from: usize) -> (end: usize)
    requires
        from < chars.len(),
        !is_whitespace(chars@[from as int]),
    ensures
        from < end <= chars.len(),
        end == token_end(chars@, from as int),
{
    let mut end: usize = from + 1;
    while end < chars.len() && !is_space(chars[end])
        invariant
            from < end <= chars.len(),
            token_end(chars@, from as int) == token_end(chars@, end as int),
        decreases chars.len() - end,
    {
        end += 1;
    }
    end
}

/// Reads the numbers of a text: its tokens, separated by white space of any
/// kind and length, each read as a number in base ten.
///
/// Returns the numbers in the order of the text, or `None` when a token
/// writes no number or one that does not fit the number type. A text
/// without tokens holds no numbers.
pub fn parse_numbers(text: &str) -> (r: Option<Vec<u128>>)
    ensures
        match r {
            Some(numbers) => all_read_as(tokens(text@), numbers@),
            None => has_malformed(tokens(text@)),
        },
        r is Some <==> !has_malformed(tokens(text@)),
{
    let chars = chars_of(text);
    let mut numbers: Vec<u128> = Vec::new();
    let ghost mut done: Seq<Seq<char>> = Seq::empty();
    let mut i: usize = 0;
    while i < chars.len()
        invariant
            i <= chars.len(),
            chars@ == text@,
            tokens(text@) =~= done + tokens_from(chars@, i as int),
            all_read_as(done, numbers@),
        decreases chars.len() - i,
    {
        if is_space(chars[i]) {
            i += 1;
        } else {
            let end = find_token_end(&chars, i);
            let ghost token = chars@.subrange(i as int, end as int);
            assert(tokens(text@)[done.len() as int] == token);
            match read_decimal(&chars, i, end) {
                Some(value) => {
                    numbers.push(value);
                    proof {
                        done = done.push(token);
                    }
                },
                None => {
                    return None;
                },
            }
            i = end;
        }
    }
    assert(tokens(text@) =~= done);
    Some(numbers)
}

/// Reads a window size: a number in base ten that is at least one and fits
/// `usize`, with or without white space around it.
///
/// Returns `None` when what the white space surrounds writes no number, or
/// zero, or a number that does not fit.
pub fn parse_window_size(arg: &str) -> (r: Option<usize>)
    ensures
        match r {
            Some(size) => size >= 1 && decimal(trimmed(arg@)) == Some(size as nat),
            None => !is_window_size(trimmed(arg@)),
        },
        r is Some <==> is_window_size(trimmed(arg@)),
{
    let chars = chars_of(arg);
    assert(chars@.subrange(0, chars.len() as int) =~= chars@);
    let mut from: usize = 0;
    while from < chars.len() && is_space(chars[from])
        invariant
            from <= chars.len(),
            trim_start(chars@) == trim_start(chars@.subrange(from as int, chars.len() as int)),
        decreases chars.len() - from,
    {
        let ghost rest = chars@.subrange(from as int, chars.len() as int);
        assert(rest.drop_first() =~= chars@.subrange(from + 1, chars.len() as int));
        from += 1;
    }
    let mut to: usize = chars.len();
    while to > from && is_space(chars[to - 1])
        invariant
            from <= to <= chars.len(),
            trimmed(chars@) == trim_end(chars@.subrange(from as int, to as int)),
        decreases to,
    {
        let ghost rest = chars@.subrange(from as int, to as int);
        assert(rest.drop_last() =~= chars@.subrange(from as int, to - 1));
        to -= 1;
    }
    match read_decimal(&chars, from, to) {
        Some(value) => {
            if 1 <= value && value <= usize::MAX as u128 {
                Some(value as usize)
            } else {
                None
            }
        },
        None => None,
    }
}

} // verus!
