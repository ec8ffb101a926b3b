//! Character classification and UTF-8 widths.

use vstd::prelude::*;
use vstd::utf8::*;

verus! {

/// Whether `c` has the Unicode `White_Space` property: what std's
/// `char::is_whitespace` returns for it.
pub uninterp spec fn unicode_white_space(c: char) -> bool;

/// Calls `char::is_whitespace`, which tells whether a character has the
/// `White_Space` property of the Unicode character database. The contract
/// gives that answer its name and says nothing of which characters have it.
#[verifier::external_body]
fn has_white_space_property(c: char) -> (r: bool)
    ensures
        r == unicode_white_space(c),
{
    c.is_whitespace()
}

/// The left-to-right mark and the right-to-left mark.
pub open spec fn is_direction_mark_spec(c: char) -> bool {
    c == '\u{200e}' || c == '\u{200f}'
}

/// Whether `ch` is the left-to-right mark or the right-to-left mark.
pub fn is_direction_mark(ch: char) -> (r: bool)
    ensures
        r == is_direction_mark_spec(ch),
{
    ch == '\u{200e}' || ch == '\u{200f}'
}

/// The characters that the scanner and the serializer treat as insignificant:
/// Unicode white space, the left-to-right mark and the right-to-left mark.
pub open spec fn is_ws_spec(c: char) -> bool {
    unicode_white_space(c) || is_direction_mark_spec(c)
}

/// Whether `ch` is white space to the scanner and the serializer.
pub fn is_ws(ch: char) -> (r: bool)
    ensures
        r == is_ws_spec(ch),
{
    has_white_space_property(ch) || is_direction_mark(ch)
}

/// Number of bytes of the UTF-8 encoding of a character sequence.
pub open spec fn utf8_len(s: Seq<char>) -> nat {
    encode_utf8(s).len()
}

/// Number of bytes of the UTF-8 encoding of one character.
pub open spec fn char_width(c: char) -> nat {
    encode_scalar(c as u32).len()
}

/// Number of bytes that `c` takes in UTF-8.
pub fn utf8_width(c: char) -> (n: usize)
    ensures
        n == char_width(c),
        1 <= n <= 4,
{
    let u: u32 = c as u32;
    if u < 0x80 {
        1
    } else if u < 0x800 {
        2
    } else if u < 0x10000 {
        3
    } else {
        4
    }
}

} // verus!
