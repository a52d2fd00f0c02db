//! The decoder: one function for each production of the grammar.
//!
//! Every function takes the input that remains and hands back what it
//! decoded together with the input behind it, or the first mismatch.  The
//! functions for single productions start behind the marker byte.

use vstd::prelude::*;
use vstd::string::StringSliceAdditionalSpecFns;
use vstd::string::StringExecFns;
use vstd::utf8::{encode_utf8, is_ascii_chars_encode_utf8};
use crate::double::read_float;
use crate::error::{report, ErrorKind, ParseError};
use crate::grammar::{
    behind, bignumber_body, boolean_body, bulk, counted, double_body, double_number, evens,
    inf_text, integer_body, is_null_length, length_prefix, line, message, null_body, odds,
    starts_with, value, values, verbatim_body, Parsed, ANGLE, BANG, COLON, COMMA, CR, DOLLAR,
    EQUALS, HASH, LF, LOWER_F, LOWER_I, LOWER_N, LOWER_T, MINUS, ONE, PAREN, PERCENT, PLUS, STAR,
    TILDE, UNDERSCORE,
};
use crate::laws::lemma_decoded;
use crate::order::canonical;
use crate::scan::{at_line_end, count_digits, count_line, count_sign, read_decimal};
use crate::set::ValueSet;
use crate::text::{byte_len, slice, tail};
use crate::value::{trees, Tree, Value};

verus! {

/// The outcome `r` of decoding `bytes` is the one that the grammar gives:
/// the same value, seen through `model`, with the input behind it, or the
/// same mismatch.
pub open spec fn agrees<'a, T, M>(
    r: Result<(&'a str, T), ParseError>,
    bytes: Seq<u8>,
    expected: Parsed<M>,
    model: spec_fn(T) -> M,
) -> bool {
    match r {
        Ok((rest, found)) => {
            &&& expected matches Parsed::Done { value, used }
            &&& model(found) == value
            &&& 0 <= used <= bytes.len()
            &&& rest.spec_bytes() == bytes.skip(used)
        },
        Err(e) => {
            &&& expected matches Parsed::Failed { kind, at }
            &&& e.kind == kind
            &&& e.position == at
            &&& at <= bytes.len()
        },
    }
}

/// The text of a line and the input behind its terminator.
pub fn parse_simple_string_raw<'a>(input: &'a str) -> (r: Result<(&'a str, &'a str), ParseError>)
    ensures
        agrees(r, input.spec_bytes(), line(input.spec_bytes()), |s: &'a str| s.spec_bytes()),
{
    let bytes = input.as_bytes();
    let n = count_line(bytes, 0);
    assert(bytes@.skip(0) == bytes@);
    if at_line_end(bytes, n) {
        Ok((tail(input, n + 2), slice(input, 0, n)))
    } else {
        Err(ParseError { kind: ErrorKind::Grammar, position: n })
    }
}

/// A length prefix: the length, and the offset behind its terminator.
pub fn read_length(bytes: &[u8]) -> (r: Result<(u32, usize), ParseError>)
    ensures
        match r {
            Ok((length, head)) => {
                &&& length_prefix(bytes@) == (Parsed::Done {
                    value: length as nat,
                    used: head as int,
                })
                &&& 3 <= head <= bytes.len()
                &&& bytes@[head - 1] == LF
            },
            Err(e) => {
                &&& length_prefix(bytes@) == (Parsed::<nat>::Failed {
                    kind: e.kind,
                    at: e.position as int,
                })
                &&& e.position <= bytes.len()
            },
        },
{
    let n = count_digits(bytes, 0);
    assert(bytes@.skip(0) == bytes@);
    if n == 0 {
        return Err(ParseError { kind: ErrorKind::Length, position: 0 });
    }
    match read_decimal(bytes, 0, n, 0xffff_ffff) {
        None => Err(ParseError { kind: ErrorKind::Length, position: 0 }),
        Some(length) => {
            if at_line_end(bytes, n) {
                Ok((length as u32, n + 2))
            } else {
                Err(ParseError { kind: ErrorKind::Grammar, position: n })
            }
        },
    }
}

/// Integer, behind its marker.
pub fn parse_integer<'a>(input: &'a str) -> (r: Result<(&'a str, Value<'a>), ParseError>)
    ensures
        agrees(r, input.spec_bytes(), integer_body(input.spec_bytes()), |v: Value<'a>| v@),
{
    let bytes = input.as_bytes();
    let s = count_sign(bytes);
    let n = count_digits(bytes, s);
    if n == 0 {
        return Err(ParseError { kind: ErrorKind::Grammar, position: 0 });
    }
    let negative = s == 1 && bytes[0] == MINUS;
    let limit: u64 = if negative {
        0x8000_0000_0000_0000
    } else {
        0x7fff_ffff_ffff_ffff
    };
    match read_decimal(bytes, s, s + n, limit) {
        None => Err(ParseError { kind: ErrorKind::Grammar, position: 0 }),
        Some(magnitude) => {
            if !at_line_end(bytes, s + n) {
                return Err(ParseError { kind: ErrorKind::Grammar, position: s + n });
            }
            let number: i64 = if !negative {
                magnitude as i64
            } else if magnitude == 0x8000_0000_0000_0000 {
                i64::MIN
            } else {
                -(magnitude as i64)
            };
            Ok((tail(input, s + n + 2), Value::Integer(number)))
        },
    }
}

/// A bulk payload and the input behind its terminator.
pub fn parse_bulk_string_raw<'a>(input: &'a str) -> (r: Result<(&'a str, &'a str), ParseError>)
    ensures
        agrees(r, input.spec_bytes(), bulk(input.spec_bytes()), |s: &'a str| s.spec_bytes()),
{
    let bytes = input.as_bytes();
    let (length, head) = match read_length(bytes) {
        Ok(prefix) => prefix,
        Err(e) => {
            return Err(e);
        },
    };
    if length as usize > bytes.len() - head {
        return Err(ParseError { kind: ErrorKind::Length, position: head });
    }
    let end = head + length as usize;
    if !at_line_end(bytes, end) {
        return Err(ParseError { kind: ErrorKind::Length, position: head });
    }
    Ok((tail(input, end + 2), slice(input, head, end)))
}

/// Null in its own spelling, behind its marker.
pub fn parse_null<'a>(input: &'a str) -> (r: Result<(&'a str, Value<'a>), ParseError>)
    ensures
        agrees(r, input.spec_bytes(), null_body(input.spec_bytes()), |v: Value<'a>| v@),
{
    let bytes = input.as_bytes();
    if at_line_end(bytes, 0) {
        Ok((tail(input, 2), Value::Null))
    } else {
        Err(ParseError { kind: ErrorKind::Grammar, position: 0 })
    }
}

/// Boolean, behind its marker.
pub fn parse_bool<'a>(input: &'a str) -> (r: Result<(&'a str, Value<'a>), ParseError>)
    ensures
        agrees(r, input.spec_bytes(), boolean_body(input.spec_bytes()), |v: Value<'a>| v@),
{
    let bytes = input.as_bytes();
    if bytes.len() == 0 || (bytes[0] != LOWER_T && bytes[0] != LOWER_F) {
        return Err(ParseError { kind: ErrorKind::Grammar, position: 0 });
    }
    if !at_line_end(bytes, 1) {
        return Err(ParseError { kind: ErrorKind::Grammar, position: 1 });
    }
    Ok((tail(input, 3), Value::Boolean(bytes[0] == LOWER_T)))
}

/// BigNumber, behind its marker.
pub fn parse_bignumber<'a>(input: &'a str) -> (r: Result<(&'a str, Value<'a>), ParseError>)
    ensures
        agrees(r, input.spec_bytes(), bignumber_body(input.spec_bytes()), |v: Value<'a>| v@),
{
    let bytes = input.as_bytes();
    let s = count_sign(bytes);
    let n = count_digits(bytes, s);
    if n == 0 {
        return Err(ParseError { kind: ErrorKind::Grammar, position: 0 });
    }
    if !at_line_end(bytes, s + n) {
        return Err(ParseError { kind: ErrorKind::Grammar, position: s + n });
    }
    Ok((tail(input, s + n + 2), Value::BigNumber(slice(input, 0, s + n))))
}

/// VerbatimString, behind its marker.
pub fn parse_verbatim_string<'a>(input: &'a str) -> (r: Result<(&'a str, Value<'a>), ParseError>)
    ensures
        agrees(r, input.spec_bytes(), verbatim_body(input.spec_bytes()), |v: Value<'a>| v@),
{
    let bytes = input.as_bytes();
    let (length, head) = match read_length(bytes) {
        Ok(prefix) => prefix,
        Err(e) => {
            return Err(e);
        },
    };
    if length < 4 || length as usize > bytes.len() - head {
        return Err(ParseError { kind: ErrorKind::Length, position: head });
    }
    let end = head + length as usize;
    if !at_line_end(bytes, end) {
        return Err(ParseError { kind: ErrorKind::Length, position: head });
    }
    if bytes[head + 3] != COLON {
        return Err(ParseError { kind: ErrorKind::Grammar, position: head + 3 });
    }
    let encoding = slice(input, head, head + 3);
    let text = slice(input, head + 4, end);
    Ok((tail(input, end + 2), Value::VerbatimString(encoding, text)))
}

/// SimpleString, behind its marker.
pub fn parse_simple_string<'a>(input: &'a str) -> (r: Result<(&'a str, Value<'a>), ParseError>)
    ensures
        agrees(
            r,
            input.spec_bytes(),
            line(input.spec_bytes()).wrap(|text: Seq<u8>| Tree::SimpleString(text)),
            |v: Value<'a>| v@,
        ),
{
    match parse_simple_string_raw(input) {
        Ok((rest, text)) => Ok((rest, Value::SimpleString(text))),
        Err(e) => Err(e),
    }
}

/// SimpleError, behind its marker.
pub fn parse_simple_error<'a>(input: &'a str) -> (r: Result<(&'a str, Value<'a>), ParseError>)
    ensures
        agrees(
            r,
            input.spec_bytes(),
            line(input.spec_bytes()).wrap(|text: Seq<u8>| Tree::SimpleError(text)),
            |v: Value<'a>| v@,
        ),
{
    match parse_simple_string_raw(input) {
        Ok((rest, text)) => Ok((rest, Value::SimpleError(text))),
        Err(e) => Err(e),
    }
}

/// BulkString, behind its marker.
pub fn parse_bulk_string<'a>(input: &'a str) -> (r: Result<(&'a str, Value<'a>), ParseError>)
    ensures
        agrees(
            r,
            input.spec_bytes(),
            bulk(input.spec_bytes()).wrap(|text: Seq<u8>| Tree::BulkString(text)),
            |v: Value<'a>| v@,
        ),
{
    match parse_bulk_string_raw(input) {
        Ok((rest, text)) => Ok((rest, Value::BulkString(text))),
        Err(e) => Err(e),
    }
}

/// BulkError, behind its marker.
pub fn parse_bulk_error<'a>(input: &'a str) -> (r: Result<(&'a str, Value<'a>), ParseError>)
    ensures
        agrees(
            r,
            input.spec_bytes(),
            bulk(input.spec_bytes()).wrap(|text: Seq<u8>| Tree::BulkError(text)),
            |v: Value<'a>| v@,
        ),
{
    match parse_bulk_string_raw(input) {
        Ok((rest, text)) => Ok((rest, Value::BulkError(text))),
        Err(e) => Err(e),
    }
}

/// Whether the input starts with the length `-1` and the terminator.
pub fn null_length(bytes: &[u8]) -> (r: bool)
    ensures
        r == is_null_length(bytes@),
{
    let r = bytes.len() >= 4 && bytes[0] == MINUS && bytes[1] == ONE && bytes[2] == CR && bytes[3]
        == LF;
    proof {
        if r {
            assert(bytes@.subrange(0, 4) =~= seq![MINUS, ONE, CR, LF]);
        } else if bytes.len() >= 4 {
            let head = bytes@.subrange(0, 4);
            assert(head[0] == bytes@[0] && head[1] == bytes@[1] && head[2] == bytes@[2] && head[3]
                == bytes@[3]);
        }
    }
    r
}

/// Whether the input starts with `sign` and the text `inf`.
pub fn signed_inf(bytes: &[u8], sign: u8) -> (r: bool)
    ensures
        r == starts_with(bytes@, seq![sign] + inf_text()),
{
    let r = bytes.len() >= 4 && bytes[0] == sign && bytes[1] == LOWER_I && bytes[2] == LOWER_N
        && bytes[3] == LOWER_F;
    proof {
        let pattern = seq![sign] + inf_text();
        assert(pattern =~= seq![sign, LOWER_I, LOWER_N, LOWER_F]);
        if r {
            assert(bytes@.subrange(0, 4) =~= pattern);
        } else if bytes.len() >= 4 {
            let head = bytes@.subrange(0, 4);
            assert(head[0] == bytes@[0] && head[1] == bytes@[1] && head[2] == bytes@[2] && head[3]
                == bytes@[3]);
        }
    }
    r
}

/// The number behind the marker of a Double: the offset behind it and the
/// text it is stored as.
pub fn read_double<'a>(input: &'a str) -> (r: Option<(usize, String)>)
    ensures
        match r {
            Some((used, text)) => {
                &&& double_number(input.spec_bytes()) == Some((used as int, encode_utf8(text@)))
                &&& used <= input.spec_bytes().len()
            },
            None => double_number(input.spec_bytes()) is None,
        },
{
    let bytes = input.as_bytes();
    if signed_inf(bytes, PLUS) {
        let text = String::from_str("inf");
        proof {
            reveal_strlit("inf");
            is_ascii_chars_encode_utf8(text@);
            assert(encode_utf8(text@) =~= inf_text());
        }
        Some((4, text))
    } else if signed_inf(bytes, MINUS) {
        let text = String::from_str("-inf");
        proof {
            reveal_strlit("-inf");
            is_ascii_chars_encode_utf8(text@);
            assert(encode_utf8(text@) =~= seq![MINUS] + inf_text());
        }
        Some((4, text))
    } else {
        match read_float(input) {
            Some((rest, text)) => Some((byte_len(input) - byte_len(rest), text)),
            None => None,
        }
    }
}

/// Double, behind its marker.
pub fn parse_double<'a>(input: &'a str) -> (r: Result<(&'a str, Value<'a>), ParseError>)
    ensures
        agrees(r, input.spec_bytes(), double_body(input.spec_bytes()), |v: Value<'a>| v@),
{
    let bytes = input.as_bytes();
    match read_double(input) {
        None => Err(ParseError { kind: ErrorKind::Grammar, position: 0 }),
        Some((used, text)) => {
            if at_line_end(bytes, used) {
                Ok((tail(input, used + 2), Value::Double(text)))
            } else {
                Err(ParseError { kind: ErrorKind::Grammar, position: used })
            }
        },
    }
}

/// Once a value fails, every longer sequence of values fails in the same way.
pub proof fn lemma_values_stay_failed(bytes: Seq<u8>, failed: nat, count: nat)
    requires
        values(bytes, failed) is Failed,
        failed <= count,
    ensures
        values(bytes, count) == values(bytes, failed),
    decreases count,
{
    if count > failed {
        lemma_values_stay_failed(bytes, failed, (count - 1) as nat);
    }
}

/// A length prefix and `multiplier` values for every unit of the length.
pub fn values_sequence<'a>(input: &'a str, multiplier: usize) -> (r: Result<
    (&'a str, Vec<Value<'a>>),
    ParseError,
>)
    ensures
        agrees(
            r,
            input.spec_bytes(),
            counted(input.spec_bytes(), multiplier as nat),
            |found: Vec<Value<'a>>| trees(found@),
        ),
    decreases input.spec_bytes().len(), 1nat,
{
    let bytes = input.as_bytes();
    let (length, head) = match read_length(bytes) {
        Ok(prefix) => prefix,
        Err(e) => {
            return Err(e);
        },
    };
    assert(length * multiplier <= 0xffff_ffff * 0xffff_ffff_ffff_ffff) by (nonlinear_arith)
        requires
            0 <= length <= 0xffff_ffff,
            0 <= multiplier <= 0xffff_ffff_ffff_ffff,
    ;
    let count: u128 = length as u128 * multiplier as u128;
    let ghost body = bytes@.skip(head as int);
    let mut rest = tail(input, head);
    let mut found: Vec<Value<'a>> = Vec::new();
    let mut done: u128 = 0;
    proof {
        assert(trees(found@) =~= Seq::<Tree>::empty());
        assert(body.skip(0) =~= body);
    }
    while done < count
        invariant
            done <= count,
            count == length * multiplier,
            bytes@ == input.spec_bytes(),
            body == bytes@.skip(head as int),
            3 <= head <= bytes@.len(),
            length_prefix(bytes@) == (Parsed::Done { value: length as nat, used: head as int }),
            rest.spec_bytes().len() <= body.len(),
            values(body, done as nat) == (Parsed::Done {
                value: trees(found@),
                used: body.len() - rest.spec_bytes().len(),
            }),
            rest.spec_bytes() == body.skip(body.len() - rest.spec_bytes().len()),
        decreases count - done,
    {
        let ghost used = body.len() - rest.spec_bytes().len();
        match parse_value(rest) {
            Err(e) => {
                proof {
                    assert(behind(body, used) == rest.spec_bytes());
                    assert(values(body, (done + 1) as nat) == (Parsed::<Seq<Tree>>::Failed {
                        kind: e.kind,
                        at: e.position + used,
                    }));
                    lemma_values_stay_failed(body, (done + 1) as nat, count as nat);
                }
                return Err(
                    ParseError {
                        kind: e.kind,
                        position: byte_len(input) - byte_len(rest) + e.position,
                    },
                );
            },
            Ok((behind_it, item)) => {
                proof {
                    assert(trees(found@.push(item)) =~= trees(found@).push(item@));
                    assert(rest.spec_bytes().skip(
                        rest.spec_bytes().len() - behind_it.spec_bytes().len(),
                    ) =~= body.skip(body.len() - behind_it.spec_bytes().len()));
                }
                found.push(item);
                rest = behind_it;
            },
        }
        done += 1;
    }
    proof {
        let used = body.len() - rest.spec_bytes().len();
        assert(body.skip(used) =~= bytes@.skip(head + used));
    }
    Ok((rest, found))
}

/// Array, behind its marker.
pub fn parse_array<'a>(input: &'a str) -> (r: Result<(&'a str, Value<'a>), ParseError>)
    ensures
        agrees(
            r,
            input.spec_bytes(),
            counted(input.spec_bytes(), 1).wrap(|items: Seq<Tree>| Tree::Array(items)),
            |v: Value<'a>| v@,
        ),
    decreases input.spec_bytes().len(), 2nat,
{
    match values_sequence(input, 1) {
        Ok((rest, items)) => Ok((rest, Value::Array(items))),
        Err(e) => Err(e),
    }
}

/// Pushes, behind its marker.
pub fn parse_pushes<'a>(input: &'a str) -> (r: Result<(&'a str, Value<'a>), ParseError>)
    ensures
        agrees(
            r,
            input.spec_bytes(),
            counted(input.spec_bytes(), 1).wrap(|items: Seq<Tree>| Tree::Pushes(items)),
            |v: Value<'a>| v@,
        ),
    decreases input.spec_bytes().len(), 2nat,
{
    match values_sequence(input, 1) {
        Ok((rest, items)) => Ok((rest, Value::Pushes(items))),
        Err(e) => Err(e),
    }
}

/// A value appended to a flat sequence of even length is one more key, one
/// appended to a flat sequence of odd length one more value.
pub proof fn lemma_pairs_grow(flat: Seq<Tree>, next: Tree)
    ensures
        flat.len() % 2 == 0 ==> evens(flat.push(next)) == evens(flat).push(next) && odds(
            flat.push(next),
        ) == odds(flat),
        flat.len() % 2 == 1 ==> evens(flat.push(next)) == evens(flat) && odds(flat.push(next))
            == odds(flat).push(next),
{
    let longer = flat.push(next);
    if flat.len() % 2 == 0 {
        assert(evens(longer) =~= evens(flat).push(next));
        assert(odds(longer) =~= odds(flat));
    } else {
        assert(evens(longer) =~= evens(flat));
        assert(odds(longer) =~= odds(flat).push(next));
    }
}

/// Map, behind its marker: the values at even places of the flat sequence
/// are the keys, those at odd places the values.
pub fn parse_map<'a>(input: &'a str) -> (r: Result<(&'a str, Value<'a>), ParseError>)
    ensures
        agrees(
            r,
            input.spec_bytes(),
            counted(input.spec_bytes(), 2).wrap(
                |flat: Seq<Tree>| Tree::MapOf(evens(flat), odds(flat)),
            ),
            |v: Value<'a>| v@,
        ),
    decreases input.spec_bytes().len(), 2nat,
{
    let (rest, flat) = match values_sequence(input, 2) {
        Ok(found) => found,
        Err(e) => {
            return Err(e);
        },
    };
    let ghost all = trees(flat@);
    let mut keys: Vec<Value<'a>> = Vec::new();
    let mut vals: Vec<Value<'a>> = Vec::new();
    for item in it: flat.into_iter()
        invariant
            all == trees(flat@),
            it.seq() == flat@,
            trees(keys@) == evens(all.subrange(0, it.index() as int)),
            trees(vals@) == odds(all.subrange(0, it.index() as int)),
    {
        let ghost before = all.subrange(0, it.index() as int);
        let ghost after = all.subrange(0, it.index() + 1);
        proof {
            assert(after == before.push(item@));
            assert(keys@.len() == trees(keys@).len());
            assert(vals@.len() == trees(vals@).len());
            assert(keys@.len() == (before.len() + 1) / 2);
            assert(vals@.len() == before.len() / 2);
        }
        if keys.len() == vals.len() {
            proof {
                lemma_pairs_grow(before, item@);
                assert(trees(keys@.push(item)) =~= trees(keys@).push(item@));
            }
            keys.push(item);
        } else {
            proof {
                lemma_pairs_grow(before, item@);
                assert(trees(vals@.push(item)) =~= trees(vals@).push(item@));
            }
            vals.push(item);
        }
    }
    proof {
        assert(all.subrange(0, all.len() as int) == all);
    }
    Ok((rest, Value::MapOf(keys, vals)))
}

/// Set, behind its marker.
pub fn parse_set<'a>(input: &'a str) -> (r: Result<(&'a str, Value<'a>), ParseError>)
    ensures
        agrees(
            r,
            input.spec_bytes(),
            counted(input.spec_bytes(), 1).wrap(|items: Seq<Tree>| Tree::SetOf(canonical(items))),
            |v: Value<'a>| v@,
        ),
    decreases input.spec_bytes().len(), 2nat,
{
    match values_sequence(input, 1) {
        Ok((rest, items)) => Ok((rest, Value::SetOf(ValueSet::from_values(items)))),
        Err(e) => Err(e),
    }
}

/// Moves a mismatch found behind the marker to its offset in the whole input.
fn shifted<'a>(inner: Result<(&'a str, Value<'a>), ParseError>) -> (r: Result<
    (&'a str, Value<'a>),
    ParseError,
>)
    requires
        inner matches Err(e) ==> e.position < usize::MAX,
    ensures
        match (inner, r) {
            (Ok(found), Ok(same)) => found == same,
            (Err(e), Err(moved)) => moved.kind == e.kind && moved.position == e.position + 1,
            _ => false,
        },
{
    match inner {
        Ok(found) => Ok(found),
        Err(e) => Err(ParseError { kind: e.kind, position: e.position + 1 }),
    }
}

/// Decodes one value at the start of `input`.
///
/// Hands back the value and the input behind it, or the reason and the
/// offset of the first mismatch, as the grammar gives them.
pub fn parse_value<'a>(input: &'a str) -> (r: Result<(&'a str, Value<'a>), ParseError>)
    ensures
        agrees(r, input.spec_bytes(), value(input.spec_bytes()), |v: Value<'a>| v@),
        r matches Ok((_, found)) ==> found@.well_formed(),
    decreases input.spec_bytes().len(), 3nat,
{
    let bytes = input.as_bytes();
    if bytes.len() == 0 {
        return Err(ParseError { kind: ErrorKind::Grammar, position: 0 });
    }
    let marker = bytes[0];
    if marker > 0x7f {
        return Err(ParseError { kind: ErrorKind::Grammar, position: 0 });
    }
    let body = tail(input, 1);
    let ghost rest = bytes@.skip(1);
    let found = if marker == PLUS {
        parse_simple_string(body)
    } else if marker == MINUS {
        parse_simple_error(body)
    } else if marker == COLON {
        parse_integer(body)
    } else if marker == DOLLAR {
        if null_length(body.as_bytes()) {
            proof {
                lemma_decoded(bytes@);
            }
            return Ok((tail(input, 5), Value::Null));
        }
        parse_bulk_string(body)
    } else if marker == BANG {
        parse_bulk_error(body)
    } else if marker == UNDERSCORE {
        parse_null(body)
    } else if marker == HASH {
        parse_bool(body)
    } else if marker == COMMA {
        parse_double(body)
    } else if marker == PAREN {
        parse_bignumber(body)
    } else if marker == EQUALS {
        parse_verbatim_string(body)
    } else if marker == STAR {
        if null_length(body.as_bytes()) {
            proof {
                lemma_decoded(bytes@);
            }
            return Ok((tail(input, 5), Value::Null));
        }
        parse_array(body)
    } else if marker == ANGLE {
        parse_pushes(body)
    } else if marker == PERCENT {
        parse_map(body)
    } else if marker == TILDE {
        parse_set(body)
    } else {
        return Err(ParseError { kind: ErrorKind::Grammar, position: 0 });
    };
    proof {
        if found is Ok {
            let used = rest.len() - found->Ok_0.0.spec_bytes().len();
            assert(rest.skip(used) =~= bytes@.skip(used + 1));
        }
        lemma_decoded(bytes@);
    }
    shifted(found)
}

/// Decodes a whole message: one value that uses all of `input`.
///
/// On success the input handed back is empty.  Bytes behind a complete
/// value are a mismatch of kind `Trailing` at the offset where they start.
pub fn parse_message<'a>(input: &'a str) -> (r: Result<(&'a str, Value<'a>), ParseError>)
    ensures
        agrees(r, input.spec_bytes(), message(input.spec_bytes()), |v: Value<'a>| v@),
        r matches Ok((rest, found)) ==> rest.spec_bytes().len() == 0 && found@.well_formed(),
{
    match parse_value(input) {
        Err(e) => Err(e),
        Ok((rest, found)) => {
            if byte_len(rest) == 0 {
                Ok((rest, found))
            } else {
                Err(
                    ParseError {
                        kind: ErrorKind::Trailing,
                        position: byte_len(input) - byte_len(rest),
                    },
                )
            }
        },
    }
}

/// Decodes a whole message and hands back the value alone, or the report
/// of the failure as a text.
pub fn parse<'a>(input: &'a str) -> (r: Result<Value<'a>, String>)
    ensures
        match message(input.spec_bytes()) {
            Parsed::Done { value, used } => r matches Ok(found) && found@ == value
                && found@.well_formed(),
            Parsed::Failed { kind, at } => r matches Err(text) && text@ == report(kind, at as nat),
        },
{
    match parse_message(input) {
        Ok((_, found)) => Ok(found),
        Err(e) => Err(e.message()),
    }
}

} // verus!
