//! Character classes used by the lexer.

use vstd::prelude::*;

verus! {

/// Whether the code point of `c` lies in an inclusive range.
pub open spec fn in_range(c: char, lo: u32, hi: u32) -> bool {
    lo <= (c as u32) && (c as u32) <= hi
}

/// The Unicode `White_Space` property, which is what `char::is_whitespace`
/// tests.
pub open spec fn spec_is_whitespace(c: char) -> bool {
    ||| in_range(c, 0x09, 0x0d)
    ||| c == ' '
    ||| c == '\u{85}'
    ||| c == '\u{a0}'
    ||| c == '\u{1680}'
    ||| in_range(c, 0x2000, 0x200a)
    ||| c == '\u{2028}'
    ||| c == '\u{2029}'
    ||| c == '\u{202f}'
    ||| c == '\u{205f}'
    ||| c == '\u{3000}'
}

/// Tests the Unicode `White_Space` property.
pub fn is_whitespace(c: char) -> (r: bool)
    ensures
        r == spec_is_whitespace(c),
{
    let u = c as u32;
    (0x09 <= u && u <= 0x0d) || c == ' ' || c == '\u{85}' || c == '\u{a0}' || c == '\u{1680}'
        || (0x2000 <= u && u <= 0x200a) || c == '\u{2028}' || c == '\u{2029}'
        || c == '\u{202f}' || c == '\u{205f}' || c == '\u{3000}'
}


/// ASCII letters.
pub open spec fn is_ascii_letter(c: char) -> bool {
    in_range(c, 0x41, 0x5a) || in_range(c, 0x61, 0x7a)
}

/// ASCII digits.
pub open spec fn is_ascii_digit(c: char) -> bool {
    in_range(c, 0x30, 0x39)
}

/// The Unicode `Alphabetic` property of a character beyond ASCII, as std's
/// tables give it.
pub uninterp spec fn unicode_alphabetic(c: char) -> bool;

/// The Unicode `Numeric` (general category N) property of a character beyond
/// ASCII, as std's tables give it.
pub uninterp spec fn unicode_numeric(c: char) -> bool;

/// What `char::is_alphabetic` returns: ASCII letters, and above ASCII the
/// Unicode `Alphabetic` property.
pub open spec fn spec_is_alphabetic(c: char) -> bool {
    is_ascii_letter(c) || ((c as u32) > 0x7f && unicode_alphabetic(c))
}

/// What `char::is_numeric` returns: ASCII digits, and above ASCII the Unicode
/// `Numeric` property.
pub open spec fn spec_is_numeric(c: char) -> bool {
    is_ascii_digit(c) || ((c as u32) > 0x7f && unicode_numeric(c))
}

/// `char::is_alphanumeric`, which std defines as alphabetic or numeric.
pub open spec fn spec_is_alphanumeric(c: char) -> bool {
    spec_is_alphabetic(c) || spec_is_numeric(c)
}

/// Calls std's `char::is_alphabetic`. Its source answers ASCII letters
/// directly and looks every character above `0x7f` up in the `Alphabetic`
/// table, whose content is named [unicode_alphabetic]; the contract claims
/// exactly that split.
#[verifier::external_body]
pub(crate) fn is_alphabetic(c: char) -> (r: bool)
    ensures
        r == (is_ascii_letter(c) || ((c as u32) > 0x7f && unicode_alphabetic(c))),
{
    c.is_alphabetic()
}

/// Calls std's `char::is_numeric`. Its source answers ASCII digits directly
/// and looks every character above `0x7f` up in the `N` table, whose content
/// is named [unicode_numeric]; the contract claims exactly that split.
#[verifier::external_body]
pub(crate) fn is_numeric(c: char) -> (r: bool)
    ensures
        r == (is_ascii_digit(c) || ((c as u32) > 0x7f && unicode_numeric(c))),
{
    c.is_numeric()
}

/// `char::is_alphanumeric`: alphabetic or numeric.
pub fn is_alphanumeric(c: char) -> (r: bool)
    ensures
        r == spec_is_alphanumeric(c),
{
    is_alphabetic(c) || is_numeric(c)
}

} // verus!
