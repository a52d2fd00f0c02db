//! Floating-point literals, read and rendered by `nom` and the standard
//! library.

use vstd::prelude::*;
use vstd::string::StringSliceAdditionalSpecFns;
use vstd::utf8::encode_utf8;

verus! {

/// What `nom::number::complete::double` recognises at the start of a text,
/// given as its bytes: the number of bytes that the literal takes, and the
/// bytes of the text that the standard library's `Display` writes for the
/// number it stands for.  `None` where no literal starts the text.
pub uninterp spec fn float_literal(text: Seq<u8>) -> Option<(int, Seq<u8>)>;

/// Calls `nom::number::complete::double` on `text` and renders the number
/// with `format!("{}", ..)`.
///
/// Trusted: the call succeeds exactly where `float_literal` is `Some`; what
/// is handed back as the remainder is `text` without the bytes of the
/// literal, and the rendering is the one that `float_literal` names.
#[verifier::external_body]
pub(crate) fn read_float<'a>(text: &'a str) -> (r: Option<(&'a str, String)>)
    ensures
        match r {
            Some((rest, rendering)) => {
                let used = text.spec_bytes().len() - rest.spec_bytes().len();
                &&& 0 <= used
                &&& rest.spec_bytes() == text.spec_bytes().skip(used)
                &&& float_literal(text.spec_bytes()) == Some((used, encode_utf8(rendering@)))
            },
            None => float_literal(text.spec_bytes()) is None,
        },
{
    match nom::number::complete::double::<&'a str, nom::error::Error<&'a str>>(text) {
        Ok((rest, number)) => Some((rest, format!("{}", number))),
        Err(_) => None,
    }
}

} // verus!
