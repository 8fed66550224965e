//! Unicode properties of characters and texts, as the standard library has them.

use crate::text::{lowercased, uppercased};
use vstd::prelude::*;

verus! {

/// Whether a text is ASCII.
pub open spec fn ascii(s: Seq<char>) -> bool {
    forall|i: int| 0 <= i < s.len() ==> ((#[trigger] s[i]) as u32) < 0x80
}

/// A text in upper case, by the Unicode rules.
pub uninterp spec fn unicode_upper(s: Seq<char>) -> Seq<char>;

/// A text in lower case, by the Unicode rules.
pub uninterp spec fn unicode_lower(s: Seq<char>) -> Seq<char>;

/// Whether a character is a letter or a number, by the Unicode rules.
pub uninterp spec fn unicode_alphanumeric(c: char) -> bool;

/// `str::to_uppercase`. Claimed: what it returns depends on the text alone, and
/// an ASCII text gets its letters in upper case and nothing else.
#[verifier::external_body]
pub(crate) fn to_upper(text: &str) -> (r: String)
    ensures
        r@ == unicode_upper(text@),
        ascii(text@) ==> r@ == uppercased(text@),
{
    text.to_uppercase()
}

/// `str::to_lowercase`. Claimed: what it returns depends on the text alone, and
/// an ASCII text gets its letters in lower case and nothing else.
#[verifier::external_body]
pub(crate) fn to_lower(text: &str) -> (r: String)
    ensures
        r@ == unicode_lower(text@),
        ascii(text@) ==> r@ == lowercased(text@),
{
    text.to_lowercase()
}

/// `char::is_alphanumeric`. Claimed: what it returns depends on the character
/// alone, and of the ASCII characters the letters and digits are alphanumeric.
#[verifier::external_body]
pub(crate) fn is_alphanumeric(c: char) -> (r: bool)
    ensures
        r == unicode_alphanumeric(c),
        (c as u32) < 0x80 ==> r == (('0' <= c && c <= '9') || ('A' <= c && c <= 'Z') || ('a' <= c && c <= 'z')),
{
    c.is_alphanumeric()
}

} // verus!
