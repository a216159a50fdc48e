//! A line-wrapping engine for styled terminal text.
//!
//! A [`report::Report`] is an ordered sequence of logical lines, each made of
//! styled text fragments. [`wrap::WrappedReport`] computes how those lines
//! break into sub-lines that fit a target display width, accounting for
//! variable-width characters and a per-line left margin, while keeping
//! byte-free, character-indexed references back into the source report.

pub mod laws;
pub mod report;
pub mod sink;
pub mod wrap;

use vstd::prelude::*;

verus! {

/// Display width of one character in terminal columns, as the Unicode
/// east-asian-width tables give it: 0 for control and zero-width
/// characters, 1 for narrow ones, 2 for wide ones, and 3 for the rare
/// signs the tables list at that width.
pub uninterp spec fn char_cols(c: char) -> nat;

/// Relies on unicode_width::UnicodeWidthChar::width: the display width of a
/// character depends on the character alone, and the crate's width tables
/// never report more than three columns; a control character, for which the
/// crate reports no width, counts zero.
#[verifier::external_body]
pub(crate) fn char_display_width(c: char) -> (w: usize)
    ensures
        w as nat == char_cols(c),
        w <= 3,
{
    unicode_width::UnicodeWidthChar::width(c).unwrap_or(0)
}

} // verus!
