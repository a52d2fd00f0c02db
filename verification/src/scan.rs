//! Scanning byte slices: runs of bytes, terminators, decimal numbers.

use vstd::prelude::*;
use vstd::slice::*;
use crate::grammar::{
    decimal, digit_run, ends_line, is_digit, is_line_break, leading, line_len, sign_len, CR, LF,
    MINUS, NINE, PLUS, ZERO,
};

verus! {

/// A count of leading bytes is the run if every byte before it is kept and
/// the byte at it, if there is one, is not.
pub proof fn lemma_leading(bytes: Seq<u8>, keep: spec_fn(u8) -> bool, n: int)
    requires
        0 <= n <= bytes.len(),
        forall|j: int| 0 <= j < n ==> keep(#[trigger] bytes[j]),
        n == bytes.len() || !keep(bytes[n]),
    ensures
        leading(bytes, keep) == n,
    decreases n,
{
    if n > 0 {
        let tail = bytes.drop_first();
        assert forall|j: int| 0 <= j < n - 1 implies keep(#[trigger] tail[j]) by {
            assert(tail[j] == bytes[j + 1]);
        }
        lemma_leading(tail, keep, n - 1);
    }
}

/// The run is within the sequence.
pub proof fn lemma_leading_within(bytes: Seq<u8>, keep: spec_fn(u8) -> bool)
    ensures
        0 <= leading(bytes, keep) <= bytes.len(),
    decreases bytes.len(),
{
    if bytes.len() > 0 && keep(bytes[0]) {
        lemma_leading_within(bytes.drop_first(), keep);
    }
}

/// Appending a digit multiplies by ten and adds the digit; a longer run of
/// digits never writes a smaller number.
pub proof fn lemma_decimal_grows(digits: Seq<u8>, k: int)
    requires
        0 <= k <= digits.len(),
        forall|j: int| 0 <= j < digits.len() ==> is_digit(#[trigger] digits[j]),
    ensures
        decimal(digits.subrange(0, k)) <= decimal(digits),
    decreases digits.len() - k,
{
    if k == digits.len() {
        assert(digits.subrange(0, k) == digits);
    } else {
        let longer = digits.subrange(0, k + 1);
        assert(longer.drop_last() == digits.subrange(0, k));
        assert(is_digit(digits[k]));
        lemma_decimal_grows(digits, k + 1);
    }
}

/// The number of bytes from `from` up to the first line break.
pub(crate) fn count_line(bytes: &[u8], from: usize) -> (n: usize)
    requires
        from <= bytes.len(),
    ensures
        n == line_len(bytes@.skip(from as int)),
        from + n <= bytes.len(),
{
    let mut at: usize = from;
    while at < bytes.len() && bytes[at] != CR && bytes[at] != LF
        invariant
            from <= at <= bytes.len(),
            forall|j: int| from <= j < at ==> !is_line_break(#[trigger] bytes@[j]),
        decreases bytes.len() - at,
    {
        at += 1;
    }
    proof {
        lemma_leading(bytes@.skip(from as int), |b: u8| !is_line_break(b), at - from);
    }
    at - from
}

/// The number of decimal digits from `from` on.
pub(crate) fn count_digits(bytes: &[u8], from: usize) -> (n: usize)
    requires
        from <= bytes.len(),
    ensures
        n == digit_run(bytes@.skip(from as int)),
        from + n <= bytes.len(),
        forall|j: int| from <= j < from + n ==> is_digit(#[trigger] bytes@[j]),
{
    let mut at: usize = from;
    while at < bytes.len() && ZERO <= bytes[at] && bytes[at] <= NINE
        invariant
            from <= at <= bytes.len(),
            forall|j: int| from <= j < at ==> is_digit(#[trigger] bytes@[j]),
        decreases bytes.len() - at,
    {
        at += 1;
    }
    proof {
        lemma_leading(bytes@.skip(from as int), |b: u8| is_digit(b), at - from);
    }
    at - from
}

/// Whether the terminator stands at offset `at`.
pub fn at_line_end(bytes: &[u8], at: usize) -> (r: bool)
    ensures
        r == ends_line(bytes@, at as int),
        r ==> at + 2 <= bytes.len(),
{
    at < bytes.len() && bytes.len() - at >= 2 && bytes[at] == CR && bytes[at + 1] == LF
}

/// One if a sign stands at the start, zero otherwise.
pub fn count_sign(bytes: &[u8]) -> (n: usize)
    ensures
        n == sign_len(bytes@),
{
    if bytes.len() > 0 && (bytes[0] == PLUS || bytes[0] == MINUS) {
        1
    } else {
        0
    }
}

/// The number written by the digits from `from` to `to`, if it is at most
/// `limit`.
pub(crate) fn read_decimal(bytes: &[u8], from: usize, to: usize, limit: u64) -> (r: Option<u64>)
    requires
        from <= to <= bytes.len(),
        forall|j: int| from <= j < to ==> is_digit(#[trigger] bytes@[j]),
    ensures
        match r {
            Some(number) => number == decimal(bytes@.subrange(from as int, to as int)),
            None => true,
        },
        r is Some <==> decimal(bytes@.subrange(from as int, to as int)) <= limit,
{
    let ghost digits = bytes@.subrange(from as int, to as int);
    let mut number: u64 = 0;
    let mut at: usize = from;
    while at < to
        invariant
            from <= at <= to <= bytes.len(),
            digits == bytes@.subrange(from as int, to as int),
            forall|j: int| from <= j < to ==> is_digit(#[trigger] bytes@[j]),
            number == decimal(digits.subrange(0, at - from)),
            number <= limit,
        decreases to - at,
    {
        let digit: u8 = bytes[at] - ZERO;
        proof {
            assert(is_digit(bytes@[at as int]));
            let longer = digits.subrange(0, at - from + 1);
            assert(longer.drop_last() == digits.subrange(0, at - from));
            assert(longer.last() == bytes@[at as int]);
            assert(decimal(longer) == number * 10 + digit);
            lemma_decimal_grows(digits, at - from + 1);
        }
        let next: u128 = number as u128 * 10 + digit as u128;
        if next > limit as u128 {
            return None;
        }
        number = next as u64;
        at += 1;
    }
    proof {
        assert(digits.subrange(0, to - from) == digits);
    }
    Some(number)
}

} // verus!
