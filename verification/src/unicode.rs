//! What std's Unicode tables decide about characters and text: whether a
//! character is alphanumeric, and upper and lower case. On ASCII, std
//! documents the answer, and it is stated here; beyond ASCII, each is a
//! function of its argument alone, named here and computed by std.
use vstd::prelude::*;

verus! {

/// An ASCII character (code point below 128).
pub open spec fn is_ascii(c: char) -> bool {
    (c as u32) < 0x80
}

/// Text made of ASCII characters only.
pub open spec fn is_ascii_text(s: Seq<char>) -> bool {
    forall|i: int| 0 <= i < s.len() ==> is_ascii(#[trigger] s[i])
}

/// An ASCII digit `0`..`9`.
pub open spec fn is_ascii_digit(c: char) -> bool {
    0x30 <= (c as u32) <= 0x39
}

/// An ASCII capital `A`..`Z`.
pub open spec fn is_ascii_upper(c: char) -> bool {
    0x41 <= (c as u32) <= 0x5A
}

/// An ASCII small letter `a`..`z`.
pub open spec fn is_ascii_lower(c: char) -> bool {
    0x61 <= (c as u32) <= 0x7A
}

/// The ASCII letters and digits: the alphanumeric characters among ASCII.
pub open spec fn is_ascii_alphanumeric(c: char) -> bool {
    is_ascii_digit(c) || is_ascii_upper(c) || is_ascii_lower(c)
}

/// `c` with an ASCII capital turned into its small letter.
pub open spec fn ascii_lower(c: char) -> char {
    if is_ascii_upper(c) {
        ((c as u32) + 0x20) as char
    } else {
        c
    }
}

/// `c` with an ASCII small letter turned into its capital.
pub open spec fn ascii_upper(c: char) -> char {
    if is_ascii_lower(c) {
        ((c as u32) - 0x20) as char
    } else {
        c
    }
}

/// What std's tables say of `char::is_alphanumeric` beyond ASCII.
pub uninterp spec fn alphanumeric_beyond_ascii(c: char) -> bool;

/// The characters of `char::to_lowercase` beyond ASCII.
pub uninterp spec fn lowercase_beyond_ascii(c: char) -> Seq<char>;

/// The characters of `char::to_uppercase` beyond ASCII.
pub uninterp spec fn uppercase_beyond_ascii(c: char) -> Seq<char>;

/// `str::to_lowercase` of a text that is not all ASCII (which, unlike a
/// character-wise mapping, lowers a final capital sigma by its context).
pub uninterp spec fn lowercase_text_beyond_ascii(s: Seq<char>) -> Seq<char>;

/// `char::is_alphanumeric`: the Unicode `Alphabetic` or `Numeric` property;
/// on ASCII, the letters and digits.
pub open spec fn is_alphanumeric(c: char) -> bool {
    if is_ascii(c) {
        is_ascii_alphanumeric(c)
    } else {
        alphanumeric_beyond_ascii(c)
    }
}

/// The characters of `char::to_lowercase`; on ASCII, the one character that
/// `to_ascii_lowercase` gives.
pub open spec fn lowercase(c: char) -> Seq<char> {
    if is_ascii(c) {
        seq![ascii_lower(c)]
    } else {
        lowercase_beyond_ascii(c)
    }
}

/// The characters of `char::to_uppercase`; on ASCII, the one character that
/// `to_ascii_uppercase` gives.
pub open spec fn uppercase(c: char) -> Seq<char> {
    if is_ascii(c) {
        seq![ascii_upper(c)]
    } else {
        uppercase_beyond_ascii(c)
    }
}

/// `str::to_lowercase`; on ASCII text, each character lowered.
pub open spec fn lowercase_text(s: Seq<char>) -> Seq<char> {
    if is_ascii_text(s) {
        s.map_values(|c: char| ascii_lower(c))
    } else {
        lowercase_text_beyond_ascii(s)
    }
}

/// `char::is_alphanumeric`.
///
/// Trusted: on ASCII, std documents the letters and digits as the
/// alphanumeric characters; beyond ASCII, std's answer depends on `c` alone
/// (named `alphanumeric_beyond_ascii`).
#[verifier::external_body]
pub(crate) fn char_is_alphanumeric(c: char) -> (r: bool)
    ensures
        r == is_alphanumeric(c),
        !is_ascii(c) ==> r == alphanumeric_beyond_ascii(c),
{
    c.is_alphanumeric()
}

/// `char::to_lowercase`, collected.
///
/// Trusted: on ASCII, std documents the result as the one character that
/// `to_ascii_lowercase` gives; beyond ASCII, the characters depend on `c`
/// alone (named `lowercase_beyond_ascii`). std documents one or more
/// characters.
#[verifier::external_body]
pub(crate) fn char_to_lowercase(c: char) -> (r: Vec<char>)
    ensures
        r@ == lowercase(c),
        !is_ascii(c) ==> r@ == lowercase_beyond_ascii(c),
        r@.len() >= 1,
{
    c.to_lowercase().collect()
}

/// `char::to_uppercase`, collected.
///
/// Trusted: on ASCII, std documents the result as the one character that
/// `to_ascii_uppercase` gives; beyond ASCII, the characters depend on `c`
/// alone (named `uppercase_beyond_ascii`). std documents one or more
/// characters.
#[verifier::external_body]
pub(crate) fn char_to_uppercase(c: char) -> (r: Vec<char>)
    ensures
        r@ == uppercase(c),
        !is_ascii(c) ==> r@ == uppercase_beyond_ascii(c),
        r@.len() >= 1,
{
    c.to_uppercase().collect()
}

/// `str::to_lowercase`.
///
/// Trusted: on ASCII text, std documents the result as each character
/// lowered as `to_ascii_lowercase` does; otherwise the text depends on `s`
/// alone (named `lowercase_text_beyond_ascii`).
#[verifier::external_body]
pub(crate) fn str_to_lowercase(s: &str) -> (r: String)
    ensures
        r@ == lowercase_text(s@),
        !is_ascii_text(s@) ==> r@ == lowercase_text_beyond_ascii(s@),
{
    s.to_lowercase()
}

} // verus!
