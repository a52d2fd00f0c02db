//! What holds of every decode, proved from the grammar.

use vstd::prelude::*;
use crate::error::ErrorKind;
use crate::grammar::{
    behind, bulk, counted, decimal, ends_line, evens, inf_text, is_digit, is_line_break,
    is_null_length, length_prefix, message, odds, sign_len, starts_with, value, values, Parsed,
    ANGLE, COMMA, CR, DOLLAR, LF, MINUS, ONE, PERCENT, PLUS, STAR, TILDE, UNDERSCORE,
};
use crate::keyed::{association, lookup, text_keys, Lookup};
use crate::order::{canonical, strictly_increasing};
use crate::order_laws::{lemma_canonical, lemma_increasing_distinct, lemma_increasing_unique};
use crate::scan::{lemma_leading, lemma_leading_within};
use crate::value::{all_well_formed, Tree};

verus! {

/// A set holds each element once: the canonical sequence of `items` is
/// increasing, nothing occurs twice in it, its elements are those of
/// `items`, and so its length is the number of distinct elements of `items`,
/// however often each of them occurs.
pub proof fn lemma_set_size(items: Seq<Tree>)
    ensures
        strictly_increasing(canonical(items)),
        canonical(items).no_duplicates(),
        canonical(items).to_set() == items.to_set(),
        canonical(items).len() == items.to_set().len(),
        canonical(items).len() <= items.len(),
{
    lemma_canonical(items);
    lemma_increasing_distinct(canonical(items));
    canonical(items).unique_seq_to_set();
    vstd::seq_lib::seq_to_set_is_finite(items);
    items.lemma_cardinality_of_set();
}

/// A set does not depend on the order in which its elements arrive, nor on
/// how often each of them does: sequences with the same elements have the
/// same canonical sequence.
pub proof fn lemma_set_order_free(first: Seq<Tree>, second: Seq<Tree>)
    requires
        first.to_set() == second.to_set(),
    ensures
        canonical(first) == canonical(second),
{
    lemma_canonical(first);
    lemma_canonical(second);
    lemma_increasing_unique(canonical(first), canonical(second));
}

/// The keys and values of a flat sequence of pairs: for an even length the
/// two halves are equally long, and the key and the value at an index are
/// the two elements of the pair at that index, in wire order.
pub proof fn lemma_pairs(flat: Seq<Tree>, index: int)
    requires
        flat.len() % 2 == 0,
        0 <= index < flat.len() / 2,
    ensures
        evens(flat).len() == flat.len() / 2,
        odds(flat).len() == flat.len() / 2,
        evens(flat)[index] == flat[2 * index],
        odds(flat)[index] == flat[2 * index + 1],
{
}

/// A whole message is a value that uses every byte: where bytes remain
/// behind a value, the message is rejected at the offset where they start,
/// and never cut short.
pub proof fn lemma_trailing_rejected(bytes: Seq<u8>)
    ensures
        match value(bytes) {
            Parsed::Done { value: found, used } => if used == bytes.len() {
                message(bytes) == (Parsed::Done { value: found, used })
            } else {
                message(bytes) == (Parsed::<Tree>::Failed { kind: ErrorKind::Trailing, at: used })
            },
            Parsed::Failed { kind, at } => message(bytes) == (Parsed::<Tree>::Failed { kind, at }),
        },
{
}

/// One of the three spellings of Null stands at the start of `bytes`.
pub open spec fn spells_null(bytes: Seq<u8>) -> bool {
    ||| starts_with(bytes, seq![UNDERSCORE, CR, LF])
    ||| starts_with(bytes, seq![DOLLAR, MINUS, ONE, CR, LF])
    ||| starts_with(bytes, seq![STAR, MINUS, ONE, CR, LF])
}

/// Null comes from its three spellings and from nothing else: a buffer
/// decodes to Null exactly if one of the three stands at its start, and
/// what is used is that spelling.
pub proof fn lemma_null_spellings(bytes: Seq<u8>)
    ensures
        (value(bytes) matches Parsed::Done { value: found, .. } && found is Null) <==> spells_null(
            bytes,
        ),
        starts_with(bytes, seq![UNDERSCORE, CR, LF]) ==> value(bytes) == (Parsed::Done {
            value: Tree::Null,
            used: 3,
        }),
        starts_with(bytes, seq![DOLLAR, MINUS, ONE, CR, LF]) ==> value(bytes) == (Parsed::Done {
            value: Tree::Null,
            used: 5,
        }),
        starts_with(bytes, seq![STAR, MINUS, ONE, CR, LF]) ==> value(bytes) == (Parsed::Done {
            value: Tree::Null,
            used: 5,
        }),
{
    if bytes.len() > 0 {
        let body = bytes.skip(1);
        assert(ends_line(bytes, 1) <==> ends_line(body, 0));
        let own = seq![UNDERSCORE, CR, LF];
        let in_bulk = seq![DOLLAR, MINUS, ONE, CR, LF];
        let in_array = seq![STAR, MINUS, ONE, CR, LF];
        let length = seq![MINUS, ONE, CR, LF];
        if bytes.len() >= 3 {
            let head = bytes.subrange(0, 3);
            assert(head[0] == bytes[0] && head[1] == bytes[1] && head[2] == bytes[2]);
            if bytes[0] == UNDERSCORE && ends_line(bytes, 1) {
                assert(head =~= own);
            }
        }
        if bytes.len() >= 5 {
            let head = bytes.subrange(0, 5);
            assert(head[0] == bytes[0] && head[1] == bytes[1] && head[2] == bytes[2] && head[3]
                == bytes[3] && head[4] == bytes[4]);
            let tail = body.subrange(0, 4);
            assert(tail[0] == bytes[1] && tail[1] == bytes[2] && tail[2] == bytes[3] && tail[3]
                == bytes[4]);
            if is_null_length(body) {
                assert(length[0] == MINUS && length[1] == ONE && length[2] == CR && length[3]
                    == LF);
                if bytes[0] == DOLLAR {
                    assert(head =~= in_bulk);
                }
                if bytes[0] == STAR {
                    assert(head =~= in_array);
                }
            }
            if head == in_bulk || head == in_array {
                assert(in_bulk[1] == MINUS && in_bulk[2] == ONE && in_bulk[3] == CR && in_bulk[4]
                    == LF);
                assert(in_array[1] == MINUS && in_array[2] == ONE && in_array[3] == CR && in_array[4]
                    == LF);
                assert(tail =~= length);
            }
        }
    }
}

/// A minus sign where a length is expected is a failure unless it is the
/// length `-1` of Null behind `$` or `*`.
pub proof fn lemma_negative_length(bytes: Seq<u8>)
    requires
        bytes.len() >= 2,
        bytes[0] == DOLLAR || bytes[0] == STAR,
        bytes[1] == MINUS,
        !is_null_length(bytes.skip(1)),
    ensures
        value(bytes) == (Parsed::<Tree>::Failed { kind: ErrorKind::Length, at: 1 }),
{
    let body = bytes.skip(1);
    assert(body[0] == MINUS);
    lemma_leading(body, |b: u8| is_digit(b), 0);
}

/// A bulk payload is taken by its length, not by its content: behind a
/// length prefix that writes `payload.len()`, any `payload`, with or without
/// line breaks in it, followed by the terminator decodes to exactly
/// `payload`, and what is used ends behind that terminator.
pub proof fn lemma_bulk_exact(digits: Seq<u8>, payload: Seq<u8>, rest: Seq<u8>)
    requires
        digits.len() > 0,
        forall|i: int| 0 <= i < digits.len() ==> is_digit(#[trigger] digits[i]),
        decimal(digits) == payload.len(),
        payload.len() <= u32::MAX,
    ensures
        bulk(digits + seq![CR, LF] + payload + seq![CR, LF] + rest) == (Parsed::Done {
            value: payload,
            used: (digits.len() + payload.len() + 4) as int,
        }),
        value(seq![DOLLAR] + digits + seq![CR, LF] + payload + seq![CR, LF] + rest) == (
        Parsed::Done {
            value: Tree::BulkString(payload),
            used: (digits.len() + payload.len() + 5) as int,
        }),
{
    let body = digits + seq![CR, LF] + payload + seq![CR, LF] + rest;
    let n = digits.len() as int;
    assert(body.subrange(0, n) =~= digits);
    assert(body[n] == CR);
    assert(body[n + 1] == LF);
    lemma_leading(body, |b: u8| is_digit(b), n);
    let head = n + 2;
    assert(body.subrange(head, head + payload.len()) =~= payload);
    assert(body[head + payload.len()] == CR);
    assert(body[head + payload.len() + 1] == LF);
    let whole = seq![DOLLAR] + digits + seq![CR, LF] + payload + seq![CR, LF] + rest;
    assert(whole.skip(1) =~= body);
    assert(!is_null_length(body)) by {
        assert(body[0] == digits[0]);
        if is_null_length(body) {
            assert(body.subrange(0, 4)[0] == MINUS);
        }
    }
}

/// The canonical sequence of well-formed contents holds well-formed
/// contents.
pub proof fn lemma_canonical_well_formed(items: Seq<Tree>)
    requires
        all_well_formed(items),
    ensures
        all_well_formed(canonical(items)),
{
    lemma_canonical(items);
    let set = canonical(items);
    assert forall|i: int| 0 <= i < set.len() implies (#[trigger] set[i]).well_formed() by {
        assert(set.to_set().contains(set[i]));
        assert(items.contains(set[i]));
        let j = choose|j: int| 0 <= j < items.len() && items[j] == set[i];
        assert(items[j].well_formed());
    }
}

/// The keys and the values of well-formed contents are well formed.
pub proof fn lemma_pairs_well_formed(flat: Seq<Tree>)
    requires
        all_well_formed(flat),
    ensures
        all_well_formed(evens(flat)),
        all_well_formed(odds(flat)),
{
    assert forall|i: int| 0 <= i < evens(flat).len() implies (#[trigger] evens(
        flat,
    )[i]).well_formed() by {
        assert(flat[2 * i].well_formed());
    }
    assert forall|i: int| 0 <= i < odds(flat).len() implies (#[trigger] odds(
        flat,
    )[i]).well_formed() by {
        assert(flat[2 * i + 1].well_formed());
    }
}

/// What a decoded value is like: it uses at least one byte and no more than
/// there are, and it is well formed at every depth.  A failure to decode a
/// value lies within the input and is never of kind `Trailing`.
pub proof fn lemma_decoded(bytes: Seq<u8>)
    ensures
        value(bytes) matches Parsed::Done { value: found, used } ==> 0 < used <= bytes.len()
            && found.well_formed(),
        value(bytes) matches Parsed::Failed { kind, at } ==> 0 <= at <= bytes.len() && kind
            != ErrorKind::Trailing,
    decreases bytes.len(), 0nat,
{
    if bytes.len() > 0 {
        let body = bytes.skip(1);
        let marker = bytes[0];
        lemma_leading_within(body, |b: u8| !is_line_break(b));
        lemma_leading_within(body, |b: u8| is_digit(b));
        lemma_leading_within(body.skip(sign_len(body)), |b: u8| is_digit(b));
        if marker == STAR {
            lemma_counted(body, 1);
        } else if marker == ANGLE {
            lemma_counted(body, 1);
        } else if marker == TILDE {
            lemma_counted(body, 1);
            if counted(body, 1) is Done {
                lemma_canonical(counted(body, 1)->value);
                lemma_canonical_well_formed(counted(body, 1)->value);
            }
        } else if marker == PERCENT {
            lemma_counted(body, 2);
            if counted(body, 2) is Done {
                lemma_pairs_well_formed(counted(body, 2)->value);
            }
        }
    }
}

/// Behind a length prefix stand as many values as it declares, `each` for
/// every unit: never fewer, never more.
pub proof fn lemma_counted(bytes: Seq<u8>, each: nat)
    ensures
        counted(bytes, each) matches Parsed::Done { value: items, used } ==> {
            &&& length_prefix(bytes) matches Parsed::Done { value: length, .. }
            &&& items.len() == length * each
            &&& 0 < used <= bytes.len()
            &&& all_well_formed(items)
        },
        counted(bytes, each) matches Parsed::Failed { kind, at } ==> 0 <= at <= bytes.len()
            && kind != ErrorKind::Trailing,
    decreases bytes.len(), 1nat,
{
    lemma_leading_within(bytes, |b: u8| is_digit(b));
    match length_prefix(bytes) {
        Parsed::Done { value: length, used: head } => {
            lemma_values(bytes.skip(head), length * each);
        },
        _ => {},
    }
}

/// `count` values decode to a sequence of `count` well-formed contents.
pub proof fn lemma_values(bytes: Seq<u8>, count: nat)
    ensures
        values(bytes, count) matches Parsed::Done { value: items, used } ==> {
            &&& items.len() == count
            &&& 0 <= used <= bytes.len()
            &&& all_well_formed(items)
        },
        values(bytes, count) matches Parsed::Failed { kind, at } ==> 0 <= at <= bytes.len()
            && kind != ErrorKind::Trailing,
    decreases bytes.len(), 2 + count,
{
    if count > 0 {
        lemma_values(bytes, (count - 1) as nat);
        match values(bytes, (count - 1) as nat) {
            Parsed::Done { value: front, used } => {
                lemma_decoded(behind(bytes, used));
            },
            _ => {},
        }
    }
}

/// A decoded map has as many keys as values, the number of pairs that its
/// length prefix declares, and the key and the value at an index are the
/// two values of the pair at that index, in the order of the wire.
pub proof fn lemma_map_shape(bytes: Seq<u8>)
    requires
        value(bytes) matches Parsed::Done { value: found, .. } && found is MapOf,
    ensures
        ({
            &&& value(bytes) matches Parsed::Done { value: Tree::MapOf(keys, values), .. }
            &&& length_prefix(bytes.skip(1)) matches Parsed::Done { value: length, .. }
            &&& counted(bytes.skip(1), 2) matches Parsed::Done { value: flat, .. }
            &&& flat.len() == 2 * length
            &&& keys.len() == length
            &&& values.len() == length
            &&& forall|i: int|
                0 <= i < length ==> keys[i] == flat[2 * i] && values[i] == flat[2 * i + 1]
        }),
{
    lemma_counted(bytes.skip(1), 2);
}

/// The number of leading keys that carry a text is the number of all keys
/// exactly if every key carries a text; otherwise it is the index of the
/// first key that carries none.
pub proof fn lemma_first_key_without_text(keys: Seq<Tree>)
    ensures
        text_keys(keys) <= keys.len(),
        forall|i: int| 0 <= i < text_keys(keys) ==> (#[trigger] keys[i]).string_like(),
        text_keys(keys) < keys.len() ==> !keys[text_keys(keys) as int].string_like(),
        text_keys(keys) == keys.len() <==> forall|i: int|
            0 <= i < keys.len() ==> (#[trigger] keys[i]).string_like(),
    decreases keys.len(),
{
    if keys.len() > 0 && keys[0].string_like() {
        let tail = keys.drop_first();
        lemma_first_key_without_text(tail);
        assert forall|i: int| 0 <= i < text_keys(keys) implies (
        #[trigger] keys[i]).string_like() by {
            if i > 0 {
                assert(keys[i] == tail[i - 1]);
            }
        }
        if text_keys(keys) < keys.len() {
            assert(keys[text_keys(keys) as int] == tail[text_keys(tail) as int]);
        }
    }
}

/// Reading a map with as many keys as values as an association succeeds
/// exactly if every key carries a text, and then each key's text leads to a
/// value; otherwise it names the first key that carries none.
pub proof fn lemma_lookup(keys: Seq<Tree>, values: Seq<Tree>)
    requires
        keys.len() == values.len(),
    ensures
        lookup(Tree::MapOf(keys, values)) is Found <==> forall|i: int|
            0 <= i < keys.len() ==> (#[trigger] keys[i]).string_like(),
        lookup(Tree::MapOf(keys, values)) matches Lookup::Found(found) ==> found == association(
            keys,
            values,
            keys.len(),
        ),
        lookup(Tree::MapOf(keys, values)) matches Lookup::KeyNotString(key) ==> exists|first: int|
            {
                &&& 0 <= first < keys.len()
                &&& key == keys[first]
                &&& !keys[first].string_like()
                &&& forall|i: int| 0 <= i < first ==> (#[trigger] keys[i]).string_like()
            },
        !(lookup(Tree::MapOf(keys, values)) is NotAMap),
{
    assert(keys.subrange(0, keys.len() as int) == keys);
    lemma_first_key_without_text(keys);
}

/// `+inf` and `-inf` behind the marker of a Double are stored as `inf` and
/// `-inf`, whatever follows their terminator.
pub proof fn lemma_signed_infinity(rest: Seq<u8>)
    ensures
        value(seq![COMMA, PLUS] + inf_text() + seq![CR, LF] + rest) == (Parsed::Done {
            value: Tree::Double(inf_text()),
            used: 7,
        }),
        value(seq![COMMA, MINUS] + inf_text() + seq![CR, LF] + rest) == (Parsed::Done {
            value: Tree::Double(seq![MINUS] + inf_text()),
            used: 7,
        }),
{
    let plus = seq![COMMA, PLUS] + inf_text() + seq![CR, LF] + rest;
    assert(plus.skip(1).subrange(0, 4) =~= seq![PLUS] + inf_text());
    assert(plus.skip(1)[4] == CR && plus.skip(1)[5] == LF);
    let minus = seq![COMMA, MINUS] + inf_text() + seq![CR, LF] + rest;
    assert(minus.skip(1).subrange(0, 4) =~= seq![MINUS] + inf_text());
    assert(minus.skip(1)[4] == CR && minus.skip(1)[5] == LF);
    assert((seq![PLUS] + inf_text())[0] == PLUS);
    assert((seq![MINUS] + inf_text())[0] == MINUS);
    if minus.skip(1).subrange(0, 4) == seq![PLUS] + inf_text() {
        assert((seq![MINUS] + inf_text())[0] == (seq![PLUS] + inf_text())[0]);
    }
}

} // verus!
