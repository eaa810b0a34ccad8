//! Numbers written in base ten.

use vstd::prelude::*;

verus! {

/// Whether `c` is one of the ten digits `0` to `9`.
pub open spec fn is_digit(c: char) -> bool {
    0x30 <= c as u32 <= 0x39
}

/// The value of a digit, and zero for any other character.
pub open spec fn digit_value(c: char) -> nat {
    if is_digit(c) {
        (c as u32 - 0x30) as nat
    } else {
        0
    }
}

/// Every character of `d` is a digit.
pub open spec fn all_digits(d: Seq<char>) -> bool {
    forall|k: int| 0 <= k < d.len() ==> is_digit(#[trigger] d[k])
}

/// The number that the digits `d` write in base ten.
pub open spec fn digits_value(d: Seq<char>) -> nat
    decreases d.len(),
{
    if d.len() == 0 {
        0
    } else {
        10 * digits_value(d.drop_last()) + digit_value(d.last())
    }
}

/// The digits of a token: the token without one plus sign in front.
pub open spec fn digits_of(t: Seq<char>) -> Seq<char> {
    if t.len() > 0 && t[0] == '+' {
        t.drop_first()
    } else {
        t
    }
}

/// The number that a token writes: one or more digits, with or without one
/// plus sign in front. Anything else writes no number.
pub open spec fn decimal(t: Seq<char>) -> Option<nat> {
    let d = digits_of(t);
    if d.len() > 0 && all_digits(d) {
        Some(digits_value(d))
    } else {
        None
    }
}

/// The token writes a number that is at most `max`.
pub open spec fn is_number(t: Seq<char>, max: int) -> bool {
    decimal(t) matches Some(v) && v <= max
}

/// The digits read so far never write more than all the digits do.
proof fn lemma_digits_value_grows(d: Seq<char>, n: int)
    requires
        0 <= n <= d.len(),
    ensures
        digits_value(d.take(n)) <= digits_value(d),
    decreases d.len(),
{
    if n == d.len() {
        assert(d.take(n) =~= d);
    } else {
        lemma_digits_value_grows(d.drop_last(), n);
        assert(d.drop_last().take(n) =~= d.take(n));
    }
}

/// Reads the token that `chars` holds from `from` up to, but not including,
/// `to`, as a number: `None` when it writes none, or one beyond `u128`.
pub(crate) fn read_decimal(chars: &Vec<char>, from: usize, to: usize) -> (r: Option<u128>)
    requires
        from <= to <= chars.len(),
    ensures
        match r {
            Some(value) => decimal(chars@.subrange(from as int, to as int)) == Some(value as nat),
            None => !is_number(chars@.subrange(from as int, to as int), u128::MAX as int),
        },
{
    let ghost token = chars@.subrange(from as int, to as int);
    let mut k: usize = from;
    if k < to && chars[k] == '+' {
        k += 1;
    }
    let start: usize = k;
    let ghost digits = chars@.subrange(start as int, to as int);
    assert(digits =~= digits_of(token));
    if k == to {
        return None;
    }
    let mut value: u128 = 0;
    while k < to
        invariant
            from <= start <= k <= to <= chars.len(),
            digits == chars@.subrange(start as int, to as int),
            digits == digits_of(chars@.subrange(from as int, to as int)),
            all_digits(digits.take(k - start)),
            value == digits_value(digits.take(k - start)),
        decreases to - k,
    {
        let u: u32 = chars[k] as u32;
        if u < 0x30 || u > 0x39 {
            assert(!is_digit(digits[k - start]));
            return None;
        }
        let digit: u128 = (u - 0x30) as u128;
        let ghost read = digits.take(k - start + 1);
        proof {
            assert(read.drop_last() =~= digits.take(k - start));
            assert(read.last() == chars@[k as int]);
            assert(digits_value(read) == 10 * value + digit);
            if all_digits(digits) {
                lemma_digits_value_grows(digits, k - start + 1);
            }
        }
        let tens: u128 = match value.checked_mul(10) {
            Some(tens) => tens,
            None => {
                return None;
            },
        };
        value = match tens.checked_add(digit) {
            Some(sum) => sum,
            None => {
                return None;
            },
        };
        k += 1;
    }
    assert(digits.take(to - start) =~= digits);
    Some(value)
}

} // verus!
