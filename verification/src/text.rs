//! Cutting a string slice at byte offsets.
//!
//! The wire format is defined over bytes, while the payloads handed back are
//! string slices.  Every cut the decoder makes lies next to a seven-bit byte
//! (a marker, a digit, a separator or a line break), and such an offset
//! always falls between two characters.

use vstd::prelude::*;
use vstd::string::StringSliceAdditionalSpecFns;
use vstd::utf8::*;

verus! {

/// A byte below 0x80 encodes one character by itself.
pub open spec fn seven_bit(byte: u8) -> bool {
    byte <= 0x7f
}

/// An offset at which a cut is known to fall between two characters: an end
/// of the text, or an offset with a seven-bit byte on either side.
pub open spec fn clean_cut(bytes: Seq<u8>, at: int) -> bool {
    &&& 0 <= at <= bytes.len()
    &&& (at == 0 || at == bytes.len() || seven_bit(bytes[at]) || seven_bit(bytes[at - 1]))
}

/// In well-formed UTF-8 the offset just behind a seven-bit byte starts a
/// character or ends the text.
pub proof fn lemma_boundary_behind_seven_bit(bytes: Seq<u8>, at: int)
    requires
        valid_utf8(bytes),
        0 < at <= bytes.len(),
        seven_bit(bytes[at - 1]),
    ensures
        is_char_boundary(bytes, at),
    decreases bytes.len(),
{
    let width = length_of_first_scalar(bytes);
    let tail = pop_first_scalar(bytes);
    if at - 1 < width {
        // A seven-bit byte inside the first character can only be its
        // leading byte, so the character is one byte wide.
        assert(at == 1 && width == 1);
        assert(is_char_boundary(tail, 0));
    } else {
        assert(tail[at - 1 - width] == bytes[at - 1]);
        lemma_boundary_behind_seven_bit(tail, at - width);
    }
}

/// Every clean cut of well-formed UTF-8 is a character boundary.
pub proof fn lemma_clean_cut_is_boundary(bytes: Seq<u8>, at: int)
    requires
        valid_utf8(bytes),
        clean_cut(bytes, at),
    ensures
        is_char_boundary(bytes, at),
{
    if at == 0 || at == bytes.len() {
        is_char_boundary_start_end_of_seq(bytes);
    } else if seven_bit(bytes[at]) {
        is_char_boundary_iff_not_is_continuation_byte(bytes, at);
    } else {
        lemma_boundary_behind_seven_bit(bytes, at);
    }
}

/// The number of bytes of `input`.
pub fn byte_len(input: &str) -> (n: usize)
    ensures
        n == input.spec_bytes().len(),
{
    input.as_bytes().len()
}

/// Splits `input` at byte offset `mid`.
pub(crate) fn split<'a>(input: &'a str, mid: usize) -> (parts: (&'a str, &'a str))
    requires
        clean_cut(input.spec_bytes(), mid as int),
    ensures
        parts.0.spec_bytes() == input.spec_bytes().subrange(0, mid as int),
        parts.1.spec_bytes() == input.spec_bytes().skip(mid as int),
{
    proof {
        encode_utf8_valid_utf8(input@);
        lemma_clean_cut_is_boundary(input.spec_bytes(), mid as int);
    }
    input.split_at(mid)
}

/// What is left of `input` from byte offset `from` on.
pub(crate) fn tail<'a>(input: &'a str, from: usize) -> (rest: &'a str)
    requires
        clean_cut(input.spec_bytes(), from as int),
    ensures
        rest.spec_bytes() == input.spec_bytes().skip(from as int),
{
    split(input, from).1
}

/// The part of `input` between the byte offsets `from` and `to`.
pub(crate) fn slice<'a>(input: &'a str, from: usize, to: usize) -> (part: &'a str)
    requires
        from <= to,
        clean_cut(input.spec_bytes(), from as int),
        clean_cut(input.spec_bytes(), to as int),
    ensures
        part.spec_bytes() == input.spec_bytes().subrange(from as int, to as int),
{
    let front = split(input, to).0;
    let part = split(front, from).1;
    proof {
        assert(part.spec_bytes() =~= input.spec_bytes().subrange(from as int, to as int));
    }
    part
}

} // verus!
