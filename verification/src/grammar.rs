//! The wire grammar, as functions on byte sequences.
//!
//! Each production is a function from the bytes that remain to either what
//! it yields together with the number of bytes it uses, or the reason and
//! offset of the first mismatch.  Productions named `*_body` start behind
//! the marker byte.

use vstd::prelude::*;
use crate::error::ErrorKind;
use crate::value::Tree;
use crate::order::canonical;
use crate::double::float_literal;

verus! {

/// The result of applying a production to a byte sequence.
pub enum Parsed<T> {
    /// The production matched the first `used` bytes and yields `value`.
    Done { value: T, used: int },
    /// The production does not match; `at` is the offset of the mismatch.
    Failed { kind: ErrorKind, at: int },
}

impl<T> Parsed<T> {
    /// The same result with `f` applied to what was yielded.
    pub open spec fn wrap<U>(self, f: spec_fn(T) -> U) -> Parsed<U> {
        match self {
            Parsed::Done { value, used } => Parsed::Done { value: f(value), used },
            Parsed::Failed { kind, at } => Parsed::Failed { kind, at },
        }
    }

    /// The same result for an input that has `by` more bytes in front.
    pub open spec fn shift(self, by: int) -> Parsed<T> {
        match self {
            Parsed::Done { value, used } => Parsed::Done { value, used: used + by },
            Parsed::Failed { kind, at } => Parsed::Failed { kind, at: at + by },
        }
    }
}

/// Carriage return, the first byte of the terminator.
pub const CR: u8 = 0x0d;

/// Line feed, the second byte of the terminator.
pub const LF: u8 = 0x0a;

/// `!`, the marker of BulkError.
pub const BANG: u8 = 0x21;

/// `#`, the marker of Boolean.
pub const HASH: u8 = 0x23;

/// `$`, the marker of BulkString.
pub const DOLLAR: u8 = 0x24;

/// `%`, the marker of a map.
pub const PERCENT: u8 = 0x25;

/// `(`, the marker of BigNumber.
pub const PAREN: u8 = 0x28;

/// `*`, the marker of Array.
pub const STAR: u8 = 0x2a;

/// `+`, the marker of SimpleString and the plus sign.
pub const PLUS: u8 = 0x2b;

/// `,`, the marker of Double.
pub const COMMA: u8 = 0x2c;

/// `-`, the marker of SimpleError and the minus sign.
pub const MINUS: u8 = 0x2d;

/// The digit `0`.
pub const ZERO: u8 = 0x30;

/// The digit `1`.
pub const ONE: u8 = 0x31;

/// The digit `9`.
pub const NINE: u8 = 0x39;

/// `:`, the marker of Integer and the separator behind an encoding tag.
pub const COLON: u8 = 0x3a;

/// `=`, the marker of VerbatimString.
pub const EQUALS: u8 = 0x3d;

/// `>`, the marker of Pushes.
pub const ANGLE: u8 = 0x3e;

/// `_`, the marker of Null.
pub const UNDERSCORE: u8 = 0x5f;

/// `f`, false.
pub const LOWER_F: u8 = 0x66;

/// The letter `i`.
pub const LOWER_I: u8 = 0x69;

/// The letter `n`.
pub const LOWER_N: u8 = 0x6e;

/// `t`, true.
pub const LOWER_T: u8 = 0x74;

/// `~`, the marker of a set.
pub const TILDE: u8 = 0x7e;

/// A carriage return or a line feed.
pub open spec fn is_line_break(byte: u8) -> bool {
    byte == CR || byte == LF
}

/// A decimal digit.
pub open spec fn is_digit(byte: u8) -> bool {
    ZERO <= byte <= NINE
}

/// A plus or a minus sign.
pub open spec fn is_sign(byte: u8) -> bool {
    byte == PLUS || byte == MINUS
}

/// The length of the longest prefix of `bytes` whose bytes all satisfy `keep`.
pub open spec fn leading(bytes: Seq<u8>, keep: spec_fn(u8) -> bool) -> int
    decreases bytes.len(),
{
    if bytes.len() > 0 && keep(bytes[0]) {
        1 + leading(bytes.drop_first(), keep)
    } else {
        0
    }
}

/// The number of bytes before the first carriage return or line feed.
pub open spec fn line_len(bytes: Seq<u8>) -> int {
    leading(bytes, |b: u8| !is_line_break(b))
}

/// The number of decimal digits at the start of `bytes`.
pub open spec fn digit_run(bytes: Seq<u8>) -> int {
    leading(bytes, |b: u8| is_digit(b))
}

/// One if `bytes` starts with `+` or `-`, zero otherwise.
pub open spec fn sign_len(bytes: Seq<u8>) -> int {
    if bytes.len() > 0 && is_sign(bytes[0]) {
        1
    } else {
        0
    }
}

/// The terminator, carriage return then line feed, stands at offset `at`.
pub open spec fn ends_line(bytes: Seq<u8>, at: int) -> bool {
    &&& 0 <= at
    &&& at + 2 <= bytes.len()
    &&& bytes[at] == CR
    &&& bytes[at + 1] == LF
}

/// `bytes` starts with `prefix`.
pub open spec fn starts_with(bytes: Seq<u8>, prefix: Seq<u8>) -> bool {
    prefix.len() <= bytes.len() && bytes.subrange(0, prefix.len() as int) == prefix
}

/// The number that a sequence of decimal digits writes.
pub open spec fn decimal(digits: Seq<u8>) -> nat
    decreases digits.len(),
{
    if digits.len() == 0 {
        0
    } else {
        decimal(digits.drop_last()) * 10 + (digits.last() - ZERO) as nat
    }
}

/// A line of text: every byte up to the first carriage return or line feed,
/// then the terminator.
pub open spec fn line(bytes: Seq<u8>) -> Parsed<Seq<u8>> {
    let n = line_len(bytes);
    if ends_line(bytes, n) {
        Parsed::Done { value: bytes.subrange(0, n), used: n + 2 }
    } else {
        Parsed::Failed { kind: ErrorKind::Grammar, at: n }
    }
}

/// A length prefix: one or more digits writing a number of at most 32 bits,
/// then the terminator.
pub open spec fn length_prefix(bytes: Seq<u8>) -> Parsed<nat> {
    let n = digit_run(bytes);
    let length = decimal(bytes.subrange(0, n));
    if n == 0 || length > u32::MAX {
        Parsed::Failed { kind: ErrorKind::Length, at: 0 }
    } else if !ends_line(bytes, n) {
        Parsed::Failed { kind: ErrorKind::Grammar, at: n }
    } else {
        Parsed::Done { value: length, used: n + 2 }
    }
}

/// The number written by an optional sign and the digits behind it.
pub open spec fn signed_decimal(bytes: Seq<u8>) -> int {
    let s = sign_len(bytes);
    let magnitude = decimal(bytes.subrange(s, s + digit_run(bytes.skip(s))));
    if s == 1 && bytes[0] == MINUS {
        -magnitude
    } else {
        magnitude as int
    }
}

/// Integer: an optional sign, one or more digits writing a number of 64
/// signed bits, then the terminator.
pub open spec fn integer_body(bytes: Seq<u8>) -> Parsed<Tree> {
    let s = sign_len(bytes);
    let n = digit_run(bytes.skip(s));
    let number = signed_decimal(bytes);
    if n == 0 || number < i64::MIN || number > i64::MAX {
        Parsed::Failed { kind: ErrorKind::Grammar, at: 0 }
    } else if !ends_line(bytes, s + n) {
        Parsed::Failed { kind: ErrorKind::Grammar, at: s + n }
    } else {
        Parsed::Done { value: Tree::Integer(number as i64), used: s + n + 2 }
    }
}

/// A bulk payload: a length prefix, exactly that many bytes, whatever they
/// are, then the terminator.
pub open spec fn bulk(bytes: Seq<u8>) -> Parsed<Seq<u8>> {
    match length_prefix(bytes) {
        Parsed::Failed { kind, at } => Parsed::Failed { kind, at },
        Parsed::Done { value: length, used: head } => {
            if ends_line(bytes, head + length) {
                Parsed::Done {
                    value: bytes.subrange(head, head + length),
                    used: head + length + 2,
                }
            } else {
                Parsed::Failed { kind: ErrorKind::Length, at: head }
            }
        },
    }
}

/// Null in its own spelling: the terminator directly behind the marker.
pub open spec fn null_body(bytes: Seq<u8>) -> Parsed<Tree> {
    if ends_line(bytes, 0) {
        Parsed::Done { value: Tree::Null, used: 2 }
    } else {
        Parsed::Failed { kind: ErrorKind::Grammar, at: 0 }
    }
}

/// The length `-1` and the terminator: the spelling of Null behind the
/// markers of BulkString and Array.
pub open spec fn is_null_length(bytes: Seq<u8>) -> bool {
    starts_with(bytes, seq![MINUS, ONE, CR, LF])
}

/// Boolean: `t` or `f`, then the terminator.
pub open spec fn boolean_body(bytes: Seq<u8>) -> Parsed<Tree> {
    if bytes.len() == 0 || (bytes[0] != LOWER_T && bytes[0] != LOWER_F) {
        Parsed::Failed { kind: ErrorKind::Grammar, at: 0 }
    } else if !ends_line(bytes, 1) {
        Parsed::Failed { kind: ErrorKind::Grammar, at: 1 }
    } else {
        Parsed::Done { value: Tree::Boolean(bytes[0] == LOWER_T), used: 3 }
    }
}

/// The text `inf`.
pub open spec fn inf_text() -> Seq<u8> {
    seq![LOWER_I, LOWER_N, LOWER_F]
}

/// The number behind the marker of a Double: how many bytes it takes and the
/// text it is stored as.  `+inf` and `-inf` are read here; anything else is
/// a floating-point literal that lies within `bytes`.
pub open spec fn double_number(bytes: Seq<u8>) -> Option<(int, Seq<u8>)> {
    if starts_with(bytes, seq![PLUS] + inf_text()) {
        Some((4, inf_text()))
    } else if starts_with(bytes, seq![MINUS] + inf_text()) {
        Some((4, seq![MINUS] + inf_text()))
    } else {
        match float_literal(bytes) {
            Some((used, text)) if 0 <= used <= bytes.len() => Some((used, text)),
            _ => None,
        }
    }
}

/// Double: a number, then the terminator.
pub open spec fn double_body(bytes: Seq<u8>) -> Parsed<Tree> {
    match double_number(bytes) {
        None => Parsed::Failed { kind: ErrorKind::Grammar, at: 0 },
        Some((n, text)) => {
            if ends_line(bytes, n) {
                Parsed::Done { value: Tree::Double(text), used: n + 2 }
            } else {
                Parsed::Failed { kind: ErrorKind::Grammar, at: n }
            }
        },
    }
}

/// BigNumber: an optional sign, one or more digits, then the terminator.
/// The sign and the digits are kept as they stand.
pub open spec fn bignumber_body(bytes: Seq<u8>) -> Parsed<Tree> {
    let s = sign_len(bytes);
    let n = digit_run(bytes.skip(s));
    if n == 0 {
        Parsed::Failed { kind: ErrorKind::Grammar, at: 0 }
    } else if !ends_line(bytes, s + n) {
        Parsed::Failed { kind: ErrorKind::Grammar, at: s + n }
    } else {
        Parsed::Done { value: Tree::BigNumber(bytes.subrange(0, s + n)), used: s + n + 2 }
    }
}

/// VerbatimString: a length prefix, a payload of that length made of a tag
/// of three bytes, a colon and the text, then the terminator.
pub open spec fn verbatim_body(bytes: Seq<u8>) -> Parsed<Tree> {
    match length_prefix(bytes) {
        Parsed::Failed { kind, at } => Parsed::Failed { kind, at },
        Parsed::Done { value: length, used: head } => {
            if length < 4 || !ends_line(bytes, head + length) {
                Parsed::Failed { kind: ErrorKind::Length, at: head }
            } else if bytes[head + 3] != COLON {
                Parsed::Failed { kind: ErrorKind::Grammar, at: head + 3 }
            } else {
                Parsed::Done {
                    value: Tree::VerbatimString(
                        bytes.subrange(head, head + 3),
                        bytes.subrange(head + 4, head + length),
                    ),
                    used: head + length + 2,
                }
            }
        },
    }
}

/// What is left of `bytes` behind the first `used` of them.
pub open spec fn behind(bytes: Seq<u8>, used: int) -> Seq<u8> {
    if 0 <= used <= bytes.len() {
        bytes.skip(used)
    } else {
        Seq::empty()
    }
}

/// The elements at even indices: the keys of a flat sequence of pairs.
pub open spec fn evens<T>(flat: Seq<T>) -> Seq<T> {
    Seq::new(((flat.len() + 1) / 2) as nat, |i: int| flat[2 * i])
}

/// The elements at odd indices: the values of a flat sequence of pairs.
pub open spec fn odds<T>(flat: Seq<T>) -> Seq<T> {
    Seq::new((flat.len() / 2) as nat, |i: int| flat[2 * i + 1])
}

/// One value: a marker byte selects the production that reads the rest.
pub open spec fn value(bytes: Seq<u8>) -> Parsed<Tree>
    decreases bytes.len(), 0nat,
{
    if bytes.len() == 0 {
        Parsed::Failed { kind: ErrorKind::Grammar, at: 0 }
    } else {
        let body = bytes.skip(1);
        let marker = bytes[0];
        if marker == PLUS {
            line(body).wrap(|text: Seq<u8>| Tree::SimpleString(text)).shift(1)
        } else if marker == MINUS {
            line(body).wrap(|text: Seq<u8>| Tree::SimpleError(text)).shift(1)
        } else if marker == COLON {
            integer_body(body).shift(1)
        } else if marker == DOLLAR {
            if is_null_length(body) {
                Parsed::Done { value: Tree::Null, used: 5 }
            } else {
                bulk(body).wrap(|text: Seq<u8>| Tree::BulkString(text)).shift(1)
            }
        } else if marker == BANG {
            bulk(body).wrap(|text: Seq<u8>| Tree::BulkError(text)).shift(1)
        } else if marker == UNDERSCORE {
            null_body(body).shift(1)
        } else if marker == HASH {
            boolean_body(body).shift(1)
        } else if marker == COMMA {
            double_body(body).shift(1)
        } else if marker == PAREN {
            bignumber_body(body).shift(1)
        } else if marker == EQUALS {
            verbatim_body(body).shift(1)
        } else if marker == STAR {
            if is_null_length(body) {
                Parsed::Done { value: Tree::Null, used: 5 }
            } else {
                counted(body, 1).wrap(|items: Seq<Tree>| Tree::Array(items)).shift(1)
            }
        } else if marker == ANGLE {
            counted(body, 1).wrap(|items: Seq<Tree>| Tree::Pushes(items)).shift(1)
        } else if marker == PERCENT {
            counted(body, 2).wrap(|flat: Seq<Tree>| Tree::MapOf(evens(flat), odds(flat))).shift(1)
        } else if marker == TILDE {
            counted(body, 1).wrap(|items: Seq<Tree>| Tree::SetOf(canonical(items))).shift(1)
        } else {
            Parsed::Failed { kind: ErrorKind::Grammar, at: 0 }
        }
    }
}

/// A length prefix and then `each` values for every unit of the length,
/// one directly behind the other.
pub open spec fn counted(bytes: Seq<u8>, each: nat) -> Parsed<Seq<Tree>>
    decreases bytes.len(), 1nat,
{
    match length_prefix(bytes) {
        Parsed::Failed { kind, at } => Parsed::Failed { kind, at },
        Parsed::Done { value: length, used: head } => values(bytes.skip(head), length * each).shift(
            head,
        ),
    }
}

/// `count` values, one directly behind the other.
pub open spec fn values(bytes: Seq<u8>, count: nat) -> Parsed<Seq<Tree>>
    decreases bytes.len(), 2 + count,
{
    if count == 0 {
        Parsed::Done { value: Seq::empty(), used: 0 }
    } else {
        match values(bytes, (count - 1) as nat) {
            Parsed::Failed { kind, at } => Parsed::Failed { kind, at },
            Parsed::Done { value: front, used } => value(behind(bytes, used)).wrap(
                |last: Tree| front.push(last),
            ).shift(used),
        }
    }
}

/// A whole message: one value that uses every byte.
pub open spec fn message(bytes: Seq<u8>) -> Parsed<Tree> {
    match value(bytes) {
        Parsed::Failed { kind, at } => Parsed::Failed { kind, at },
        Parsed::Done { value, used } => {
            if used == bytes.len() {
                Parsed::Done { value, used }
            } else {
                Parsed::Failed { kind: ErrorKind::Trailing, at: used }
            }
        },
    }
}

} // verus!
