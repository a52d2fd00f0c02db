//! What a failed decode reports.

use vstd::prelude::*;
use vstd::string::StringExecFns;

verus! {

/// Why a buffer was rejected.
#[derive(Debug, Clone, Copy, PartialEq, Eq, Structural)]
pub enum ErrorKind {
    /// The input does not match the production expected at that point: a
    /// wrong or missing marker, a malformed literal, a bad terminator.
    Grammar,
    /// A length prefix is malformed, negative or out of range, or does not
    /// match the payload and terminator that follow it.
    Length,
    /// A complete value was decoded and bytes remain behind it.
    Trailing,
}

/// A failed decode: the reason, and the byte offset into the given input at
/// which the mismatch was found.
///
/// A wrong or missing marker is reported at the offset where the value
/// starts, a malformed number or length prefix at its first byte, a missing
/// terminator at the offset where it should stand, a payload that does not
/// match its length prefix at its first byte, and trailing input at the
/// offset where it starts.  A mismatch inside an aggregate is reported where
/// it lies in the whole input.
#[derive(Debug, Clone, Copy, PartialEq, Eq, Structural)]
pub struct ParseError {
    pub kind: ErrorKind,
    pub position: usize,
}

/// The character that writes a digit.
pub open spec fn digit_char(digit: nat) -> char {
    if digit == 0 {
        '0'
    } else if digit == 1 {
        '1'
    } else if digit == 2 {
        '2'
    } else if digit == 3 {
        '3'
    } else if digit == 4 {
        '4'
    } else if digit == 5 {
        '5'
    } else if digit == 6 {
        '6'
    } else if digit == 7 {
        '7'
    } else if digit == 8 {
        '8'
    } else {
        '9'
    }
}

/// A number in decimal digits, without leading zeros.
pub open spec fn decimal_text(number: nat) -> Seq<char>
    decreases number,
{
    if number < 10 {
        seq![digit_char(number)]
    } else {
        decimal_text(number / 10).push(digit_char(number % 10))
    }
}

/// What a kind of failure is called in a report.
pub open spec fn reason(kind: ErrorKind) -> Seq<char> {
    match kind {
        ErrorKind::Grammar => "input does not match the grammar"@,
        ErrorKind::Length => "length prefix does not match what follows it"@,
        ErrorKind::Trailing => "input remains behind the value"@,
    }
}

/// The report of a failure: its reason and its offset.
pub open spec fn report(kind: ErrorKind, position: nat) -> Seq<char> {
    reason(kind) + " at byte "@ + decimal_text(position)
}

/// A digit as a text.
pub(crate) fn digit_text(digit: usize) -> (r: &'static str)
    requires
        digit < 10,
    ensures
        r@ == seq![digit_char(digit as nat)],
{
    proof {
        reveal_strlit("0");
        reveal_strlit("1");
        reveal_strlit("2");
        reveal_strlit("3");
        reveal_strlit("4");
        reveal_strlit("5");
        reveal_strlit("6");
        reveal_strlit("7");
        reveal_strlit("8");
        reveal_strlit("9");
    }
    let r = if digit == 0 {
        "0"
    } else if digit == 1 {
        "1"
    } else if digit == 2 {
        "2"
    } else if digit == 3 {
        "3"
    } else if digit == 4 {
        "4"
    } else if digit == 5 {
        "5"
    } else if digit == 6 {
        "6"
    } else if digit == 7 {
        "7"
    } else if digit == 8 {
        "8"
    } else {
        "9"
    };
    assert(r@ =~= seq![digit_char(digit as nat)]);
    r
}

/// A number as a text in decimal digits.
pub fn number_text(number: usize) -> (r: String)
    ensures
        r@ == decimal_text(number as nat),
    decreases number,
{
    if number < 10 {
        String::from_str(digit_text(number))
    } else {
        let front = number_text(number / 10);
        let r = front.concat(digit_text(number % 10));
        assert(r@ =~= decimal_text(number as nat));
        r
    }
}

impl ParseError {
    /// The report of this failure as a text.
    pub fn message(&self) -> (r: String)
        ensures
            r@ == report(self.kind, self.position as nat),
    {
        let text = match self.kind {
            ErrorKind::Grammar => String::from_str("input does not match the grammar"),
            ErrorKind::Length => String::from_str("length prefix does not match what follows it"),
            ErrorKind::Trailing => String::from_str("input remains behind the value"),
        };
        let text = text.concat(" at byte ");
        let digits = number_text(self.position);
        text.concat(digits.as_str())
    }
}

} // verus!
