//! Whole numbers in text.

use vstd::prelude::*;
use crate::chars;

verus! {

/// The number that digits stand for.
pub open spec fn numeral(digits: Seq<char>) -> nat
    decreases digits.len(),
{
    if digits.len() == 0 {
        0
    } else {
        (numeral(digits.drop_last()) * 10 + (digits.last() as int - '0' as int)) as nat
    }
}

pub open spec fn all_digits(text: Seq<char>) -> bool {
    forall|i: int| 0 <= i < text.len() ==> chars::is_digit(#[trigger] text[i])
}

/// The number that text stands for: digits, after a plus sign or none.
pub open spec fn integer_of(text: Seq<char>) -> Option<nat> {
    let digits = if text.len() > 0 && text[0] == '+' {
        text.skip(1)
    } else {
        text
    };
    if digits.len() > 0 && all_digits(digits) {
        Some(numeral(digits))
    } else {
        None
    }
}

/// The number, where it is not above a limit.
pub open spec fn integer_within(text: Seq<char>, limit: nat) -> Option<nat> {
    match integer_of(text) {
        Some(value) => if value <= limit {
            Some(value)
        } else {
            None
        },
        None => None,
    }
}

/// More digits do not make a smaller number.
pub proof fn lemma_numeral_grows(digits: Seq<char>, n: int)
    requires
        all_digits(digits),
        0 <= n <= digits.len(),
    ensures
        numeral(digits.take(n)) <= numeral(digits),
    decreases digits.len() - n,
{
    if n < digits.len() {
        lemma_numeral_grows(digits, n + 1);
        assert(digits.take(n + 1).drop_last() =~= digits.take(n));
        assert(chars::is_digit(digits[n]));
    } else {
        assert(digits.take(n) =~= digits);
    }
}

/// Reads the digits of a range, if the number is not above a limit.
pub fn read_numeral(text: &Vec<char>, from: usize, to: usize, limit: u64) -> (value: Option<u64>)
    requires
        from <= to <= text@.len(),
        all_digits(text@.subrange(from as int, to as int)),
    ensures
        match value {
            Some(value) => value == numeral(text@.subrange(from as int, to as int)) && value
                <= limit,
            None => numeral(text@.subrange(from as int, to as int)) > limit,
        },
{
    let ghost digits = text@.subrange(from as int, to as int);
    let mut value: u64 = 0;
    let mut i: usize = from;
    assert(digits.take(0) =~= Seq::empty());
    while i < to
        invariant
            from <= i <= to <= text@.len(),
            digits == text@.subrange(from as int, to as int),
            all_digits(digits),
            value == numeral(digits.take(i - from)),
            value <= limit,
        decreases to - i,
    {
        let ghost k = i - from;
        proof {
            assert(digits[k] == text@[i as int]);
            assert(chars::is_digit(digits[k]));
            assert(digits.take(k + 1).drop_last() =~= digits.take(k));
            lemma_numeral_grows(digits, k + 1);
        }
        let digit: u64 = (text[i] as u32 - '0' as u32) as u64;
        let wide: u128 = value as u128 * 10 + digit as u128;
        if wide > limit as u128 {
            return None;
        }
        value = wide as u64;
        i = i + 1;
    }
    assert(digits.take(digits.len() as int) =~= digits);
    Some(value)
}

/// Where the digits that begin at a place end.
pub open spec fn digits_end(text: Seq<char>, from: int) -> int
    decreases text.len() - from,
{
    if 0 <= from < text.len() && chars::is_digit(text[from]) {
        digits_end(text, from + 1)
    } else {
        from
    }
}

pub fn is_ascii_digit(c: char) -> (result: bool)
    ensures
        result == chars::is_digit(c),
{
    '0' <= c && c <= '9'
}

/// Finds where the digits that begin at a place end.
pub fn skip_digits(text: &Vec<char>, from: usize) -> (to: usize)
    requires
        from <= text@.len(),
    ensures
        to == digits_end(text@, from as int),
        from <= to <= text@.len(),
        all_digits(text@.subrange(from as int, to as int)),
        to < text@.len() ==> !chars::is_digit(text@[to as int]),
{
    let mut to: usize = from;
    while to < text.len() && is_ascii_digit(text[to])
        invariant
            from <= to <= text@.len(),
            digits_end(text@, from as int) == digits_end(text@, to as int),
            forall|i: int| from <= i < to ==> chars::is_digit(#[trigger] text@[i]),
        decreases text@.len() - to,
    {
        to = to + 1;
    }
    to
}

/// Reads a range of text as a number, where it is not above a limit.
pub fn read_integer(text: &Vec<char>, from: usize, to: usize, limit: u64) -> (value: Option<u64>)
    requires
        from <= to <= text@.len(),
    ensures
        match value {
            Some(value) => integer_within(text@.subrange(from as int, to as int), limit as nat)
                == Some(value as nat),
            None => integer_within(text@.subrange(from as int, to as int), limit as nat) is None,
        },
{
    let ghost part = text@.subrange(from as int, to as int);
    let start: usize = if from < to && text[from] == '+' {
        from + 1
    } else {
        from
    };
    proof {
        if from < to {
            assert(part[0] == text@[from as int]);
        }
        if from < to && text@[from as int] == '+' {
            assert(part.skip(1) =~= text@.subrange(start as int, to as int));
        }
    }
    let ghost digits = text@.subrange(start as int, to as int);
    assert(integer_of(part) == if digits.len() > 0 && all_digits(digits) {
        Some(numeral(digits))
    } else {
        None
    });
    if start == to {
        return None;
    }
    let mut i: usize = start;
    while i < to
        invariant
            from <= start <= i <= to <= text@.len(),
            part == text@.subrange(from as int, to as int),
            digits == text@.subrange(start as int, to as int),
            !all_digits(digits) ==> integer_of(part) is None,
            forall|k: int| start <= k < i ==> chars::is_digit(#[trigger] text@[k]),
        decreases to - i,
    {
        if !is_ascii_digit(text[i]) {
            proof {
                assert(digits[i - start] == text@[i as int]);
            }
            return None;
        }
        i = i + 1;
    }
    read_numeral(text, start, to, limit)
}

} // verus!
