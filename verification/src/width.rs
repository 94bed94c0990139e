//! How many grid columns a character occupies, as `unicode_width` measures it.
//!
//! The width tables are the crate's; nothing here reproduces them. What the library knows of a
//! width beyond its name is only what the crate's own source states outright: the ASCII fast
//! path, the control-character ranges, and that a looked-up width is a `u8`.

use vstd::prelude::*;

verus! {

/// The width `unicode_width::UnicodeWidthChar::width` gives a character: `None` for a control
/// character, otherwise the number of columns it occupies outside an East Asian context.
pub uninterp spec fn char_columns(c: char) -> Option<usize>;

/// Calls `unicode_width::UnicodeWidthChar::width`.
///
/// Claims that the result is the named `char_columns(c)`, and the facts `single_char_width`
/// in the crate's `lookup.rs` spells out: below U+0020 and from U+007F up to U+00A0 the answer
/// is `None`, printable ASCII is one column, and anything from U+00A0 on is a table lookup
/// returning a `u8`, so it is present and at most 255. Which width a given non-ASCII character
/// has is left to the name.
#[verifier::external_body]
pub(crate) fn char_width(c: char) -> (w: Option<usize>)
    ensures
        w == char_columns(c),
        (c as u32) < 0x20 ==> w.is_none(),
        0x20 <= (c as u32) && (c as u32) < 0x7f ==> w == Some(1usize),
        0x7f <= (c as u32) && (c as u32) < 0xa0 ==> w.is_none(),
        0xa0 <= (c as u32) ==> w.is_some() && w.unwrap() <= 255,
{
    unicode_width::UnicodeWidthChar::width(c)
}

} // verus!
