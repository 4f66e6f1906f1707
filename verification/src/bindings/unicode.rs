//! Character tables and text conversions of the standard library.

use vstd::prelude::*;
use vstd::utf8::*;

verus! {

/// The lowercase equivalent of a text, by the Unicode tables of the standard library.
pub uninterp spec fn lowercase(s: Seq<char>) -> Seq<char>;

/// Whether a character has the Unicode property `Alphabetic`.
pub uninterp spec fn alphabetic(c: char) -> bool;

/// Whether a character is alphabetic or numeric, by the Unicode tables.
pub uninterp spec fn alphanumeric(c: char) -> bool;

/// The text read from bytes, with every invalid part replaced.
pub uninterp spec fn lossy(bytes: Seq<u8>) -> Seq<char>;

/// The debugging notation of an optional text: `None`, or `Some` of the quoted, escaped text.
pub uninterp spec fn debugged(s: Option<Seq<char>>) -> Seq<char>;

/// `str::to_lowercase`: the same text always gives the same lowercase text.
#[verifier::external_body]
pub(crate) fn to_lowercase(s: &str) -> (r: String)
    ensures
        r@ == lowercase(s@),
{
    s.to_lowercase()
}

/// `char::is_alphabetic` depends on the character alone.
pub assume_specification[ char::is_alphabetic ](c: char) -> (r: bool)
    ensures
        r == alphabetic(c),
;

/// `char::is_alphanumeric` depends on the character alone.
pub assume_specification[ char::is_alphanumeric ](c: char) -> (r: bool)
    ensures
        r == alphanumeric(c),
;

/// `String::from_utf8_lossy`: valid UTF-8 is read as it is; what stands in the place of
/// invalid parts is a function of the bytes.
#[verifier::external_body]
pub(crate) fn from_utf8_lossy(bytes: &[u8]) -> (r: String)
    ensures
        r@ == lossy(bytes@),
        valid_utf8(bytes@) ==> r@ == decode_utf8(bytes@),
{
    String::from_utf8_lossy(bytes).into_owned()
}

/// `String::from_utf8`: a text exactly when the bytes are valid UTF-8, and then the text
/// that they encode.
#[verifier::external_body]
pub(crate) fn from_utf8(bytes: Vec<u8>) -> (r: Option<String>)
    ensures
        r is Some <==> valid_utf8(bytes@),
        r matches Some(s) ==> s@ == decode_utf8(bytes@),
{
    String::from_utf8(bytes).ok()
}

/// The `{:?}` notation of an optional text depends on that text alone.
#[verifier::external_body]
pub(crate) fn debug_option(s: Option<&str>) -> (r: String)
    ensures
        r@ == debugged(
            match s {
                Some(t) => Some(t@),
                None => None,
            },
        ),
{
    format!("{:?}", s)
}

} // verus!
