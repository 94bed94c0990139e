//! Naming part of a file, in terms that outlive the view.
//!
//! Everything here is durable. A value of these types survives a gap opening, a rebuild, a
//! change of layout, and a restart, because nothing identifying it comes from what is on
//! screen: row indices move as soon as a gap opens, hunk offsets move with them, and display
//! columns move with the tab width. Line numbers and source character offsets survive all of
//! that.

use std::ops::Range;
use vstd::prelude::*;

verus! {

/// Which document a line number indexes into.
///
/// A number rather than a name: how many documents a pane shows and what they mean is the
/// business of whatever supplied its rows. The number is the stored form, so its meaning is
/// fixed by whatever produces the rows. A diff calls its two `BEFORE` and `AFTER`.
#[derive(Debug, Clone, Copy, PartialEq, Eq, Structural, PartialOrd, Ord, Hash, Default)]
pub struct Document(pub u32);

impl Document {
    /// The only document, for a pane showing one.
    #[verifier::allow_in_spec]
    pub fn only() -> Document
        returns
            Document(0),
    {
        Document(0)
    }
}

/// `Range::clone`, which std derives field by field.
pub assume_specification<Idx: Clone>[ <Range<Idx> as Clone>::clone ](r: &Range<Idx>) -> (res: Range<Idx>)
    ensures
        cloned::<Idx>(r.start, res.start),
        cloned::<Idx>(r.end, res.end),
;

/// How much of one line a span covers, in that line's source characters.
///
/// The two variants differ by whether the line's ending is part of the span: a span holding
/// the ending is drawn out to the edge of the pane, and emits a line break when copied.
/// Counted in characters, not display columns: a tab is one character here.
#[derive(Debug, Clone, PartialEq, Eq)]
pub enum SourceCharExtent {
    /// Characters `range` of the line, stopping inside it. No line ending.
    Columns(Range<u32>),
    /// From `from` to the end of the line, the line ending included. `from: 0` is a whole line.
    ToEnd { from: u32 },
}

/// A run of characters on one line, named the way a file names it.
#[derive(Debug, Clone, PartialEq, Eq)]
pub struct LineSpan {
    /// Which document `line` is numbered in.
    pub document: Document,
    /// 1-based, matching the numbers the diff itself carries.
    pub line: u32,
    pub extent: SourceCharExtent,
}

} // verus!
