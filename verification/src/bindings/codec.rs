//! The `base64` crate.

use base64::Engine;
use vstd::prelude::*;
use vstd::utf8::*;

verus! {

/// The bytes that a text encodes in padded standard base64, if it is such an encoding.
pub uninterp spec fn base64_bytes(s: Seq<char>) -> Option<Seq<u8>>;

/// The padded standard base64 encoding of bytes.
pub uninterp spec fn base64_text(bytes: Seq<u8>) -> Seq<char>;

/// `STANDARD.decode`: the bytes depend on the text alone.
#[verifier::external_body]
pub(crate) fn base64_decode(s: &str) -> (r: Option<Vec<u8>>)
    ensures
        match r {
            Some(b) => base64_bytes(s@) == Some(b@),
            None => base64_bytes(s@) is None,
        },
{
    base64::engine::general_purpose::STANDARD.decode(s).ok()
}

/// `STANDARD.encode`: the text depends on the bytes alone, is written in ASCII, has four
/// characters for each three bytes begun, and decodes to the bytes again. An input whose
/// encoding would not fit in memory is left out.
#[verifier::external_body]
pub(crate) fn base64_encode(bytes: &[u8]) -> (r: String)
    requires
        bytes@.len() / 3 * 4 + 4 <= isize::MAX,
    ensures
        r@ == base64_text(bytes@),
        is_ascii_chars(r@),
        r@.len() == (bytes@.len() + 2) / 3 * 4,
        base64_bytes(r@) == Some(bytes@),
{
    base64::engine::general_purpose::STANDARD.encode(bytes)
}

} // verus!
