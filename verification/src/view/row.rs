//! A row as a pane will draw it, and the ranges painted over it.
//!
//! Everything here is transient. A row index and a display column both move when a gap opens
//! or the whitespace options change, so none of it survives the frame that produced it.
//! Storing one is a mistake; store a `LineSpan`.

use std::ops::Range;
use vstd::prelude::*;

use crate::diff::layout::GapState;
use crate::diff::model::LineRef;
use crate::span::Document;
use crate::text::{render_line, rendered_columns, rendered_text, LineEnding, RenderOptions};

verus! {

/// How many numbers a gutter can show at once: two, which is what an inline diff needs.
pub const GUTTER_COLUMNS: usize = 2;

/// What a row is, which is what picks how it is drawn.
///
/// An open set: the view holds a background per class and the numbers mean whatever the
/// thing producing the rows decides. The six named here are the ones a diff produces. A class
/// says how a row looks, not how it behaves; `numbered` and `full_width` on the row say that.
#[derive(Debug, Clone, Copy, PartialEq, Eq, Structural, PartialOrd, Ord, Hash)]
pub struct RowClass(pub u32);

impl RowClass {
    /// Unchanged content, shown to give a change context.
    #[verifier::allow_in_spec]
    pub fn context() -> RowClass
        returns
            RowClass(0),
    {
        RowClass(0)
    }

    #[verifier::allow_in_spec]
    pub fn added() -> RowClass
        returns
            RowClass(1),
    {
        RowClass(1)
    }

    #[verifier::allow_in_spec]
    pub fn removed() -> RowClass
        returns
            RowClass(2),
    {
        RowClass(2)
    }

    /// Content that exists but is not shown.
    #[verifier::allow_in_spec]
    pub fn gap() -> RowClass
        returns
            RowClass(3),
    {
        RowClass(3)
    }

    /// Nothing on this side. Keeps the two panes of a split view in step.
    #[verifier::allow_in_spec]
    pub fn filler() -> RowClass
        returns
            RowClass(4),
    {
        RowClass(4)
    }

    /// Names the file rather than anything in it.
    #[verifier::allow_in_spec]
    pub fn header() -> RowClass
        returns
            RowClass(5),
    {
        RowClass(5)
    }

    /// The first class this crate does not use itself. A host numbers its own from here.
    #[verifier::allow_in_spec]
    pub fn first_free() -> RowClass
        returns
            RowClass(6),
    {
        RowClass(6)
    }
}

/// The kinds of row a diff produces, by name.
#[derive(Debug, Clone, Copy, PartialEq, Eq, Structural)]
pub enum RowKind {
    /// Names the file.
    Header,
    /// Unchanged content, shown to give the change context.
    Context,
    Added,
    Removed,
    /// Content that exists but is not shown.
    Gap,
    /// Nothing on this side. Keeps the two panes of a split view in step.
    Filler,
}

/// The class each kind of row is drawn with.
pub open spec fn class_of(kind: RowKind) -> RowClass {
    match kind {
        RowKind::Header => RowClass::header(),
        RowKind::Context => RowClass::context(),
        RowKind::Added => RowClass::added(),
        RowKind::Removed => RowClass::removed(),
        RowKind::Gap => RowClass::gap(),
        RowKind::Filler => RowClass::filler(),
    }
}

impl From<RowKind> for RowClass {
    fn from(kind: RowKind) -> (class: RowClass) {
        match kind {
            RowKind::Header => RowClass::header(),
            RowKind::Context => RowClass::context(),
            RowKind::Added => RowClass::added(),
            RowKind::Removed => RowClass::removed(),
            RowKind::Gap => RowClass::gap(),
            RowKind::Filler => RowClass::filler(),
        }
    }
}

impl vstd::std_specs::convert::FromSpecImpl<RowKind> for RowClass {
    open spec fn obeys_from_spec() -> bool {
        true
    }

    open spec fn from_spec(kind: RowKind) -> RowClass {
        class_of(kind)
    }
}

/// A run of lines that exists but is not shown, and what is happening to it.
#[derive(Debug, Clone, Default, PartialEq, Eq)]
pub struct Gap {
    /// How many lines are hidden.
    pub hidden: u32,
    pub state: GapState,
    /// The hunk heading this gap precedes, or why fetching it failed.
    pub note: String,
    /// Where the hidden run starts on the left, and on the right: what the controls ask for.
    pub left_start: u32,
    pub right_start: u32,
    /// The run being fetched, numbered on the right, when one is.
    pub pending: Option<(u32, u32)>,
}

/// One row as a pane will draw it.
#[derive(Debug, Clone, PartialEq, Eq)]
pub struct DisplayedRow {
    pub class: RowClass,
    /// Whether the gutter shows this row's numbers. A filler keeps its gutter but shows no
    /// number: it stands opposite a real line in the other pane.
    pub numbered: bool,
    /// Whether this row's content runs across the gutter as well, for a row that is about the
    /// document rather than a line in it.
    pub full_width: bool,
    /// Gutter numbers, in the order the view draws them. A pane showing one file fills only
    /// the first.
    pub numbers: [Option<u32>; GUTTER_COLUMNS],
    /// Which file names this row and the number it has there. Absent on rows that stand for
    /// no line.
    pub id: Option<(Document, u32)>,
    /// The line this row was rendered from, for anything needing the original text.
    pub source: Option<LineRef>,
    /// Display text, tabs already expanded. Empty for fillers and gaps.
    pub text: String,
    /// Columns the text occupies.
    pub columns: u32,
    /// What this row stands for, when it stands for content rather than showing it.
    pub gap: Option<Gap>,
    /// Whether a selection may cover this row: only a row standing for a line may. A gap, a
    /// header and a filler are not selectable, so each of them ends a run.
    pub selectable: bool,
    /// The run of selectable rows this one belongs to, as row indices: the run a selection is
    /// allowed to cover, since a drag may not cross a row that is not selectable. Empty on a
    /// row that is not selectable at all.
    pub selectable_run: Range<u32>,
}

/// A row of `class` with nothing else set.
pub open spec fn is_blank(row: DisplayedRow, class: RowClass) -> bool {
    &&& row.class == class
    &&& !row.numbered
    &&& !row.full_width
    &&& row.numbers@ == seq![None::<u32>, None]
    &&& row.id is None
    &&& row.source is None
    &&& row.text@ == Seq::<char>::empty()
    &&& row.columns == 0
    &&& row.gap is None
    &&& !row.selectable
    &&& row.selectable_run == (0u32..0u32)
}

impl DisplayedRow {
    /// One line of ordinary content, numbered and selectable: what a view showing a plain file
    /// builds its rows from. `ending` is how the line was terminated in the file.
    pub fn line(
        number: u32,
        document: Document,
        text: &str,
        ending: LineEnding,
        opts: &RenderOptions,
    ) -> (row: Self)
        requires
            opts.fits(text),
        ensures
            row.class == RowClass::context(),
            row.numbered,
            !row.full_width,
            row.numbers@ == seq![Some(number), None],
            row.id == Some((document, number)),
            row.source is None,
            row.text@ == rendered_text(text@, ending, *opts),
            row.columns == #[verifier::truncate] (rendered_columns(text@, ending, *opts) as u32),
            row.gap is None,
            row.selectable,
            row.selectable_run == (0u32..0u32),
    {
        let (rendered, columns) = render_line(text, ending, opts);
        let mut row = DisplayedRow::blank(RowClass::context());
        row.numbers = [Some(number), None];
        row.id = Some((document, number));
        row.text = rendered;
        row.columns = #[verifier::truncate] (columns as u32);
        row.selectable = true;
        row.numbered = true;
        row
    }

    /// A row of the given class with nothing else set: the starting point for anything
    /// producing rows, so a provider states only the fields its content actually has.
    pub fn blank(class: RowClass) -> (row: Self)
        ensures
            is_blank(row, class),
    {
        DisplayedRow {
            class,
            numbered: false,
            full_width: false,
            numbers: [None, None],
            id: None,
            source: None,
            text: String::new(),
            columns: 0,
            gap: None,
            selectable: false,
            selectable_run: 0..0,
        }
    }
}

/// Which channel a range is painted in, which is what picks how it is drawn.
///
/// An open set: the view carries one style per channel and the numbers mean whatever the host
/// decides. Channels are drawn in ascending order, so a higher number paints over a lower one.
#[derive(Debug, Clone, Copy, PartialEq, Eq, Structural, PartialOrd, Ord, Hash)]
pub struct Channel(pub u32);

impl Channel {
    /// What the user is selecting now.
    #[verifier::allow_in_spec]
    pub fn selection() -> Channel
        returns
            Channel(0),
    {
        Channel(0)
    }

    /// Supplied from outside: a stored selection, or something a host is pointing at.
    #[verifier::allow_in_spec]
    pub fn marked() -> Channel
        returns
            Channel(1),
    {
        Channel(1)
    }

    /// The first channel this crate does not use itself. A host numbers its own from here.
    #[verifier::allow_in_spec]
    pub fn first_free() -> Channel
        returns
            Channel(2),
    {
        Channel(2)
    }
}

/// How much of one row a highlight covers, in the columns the grid is drawn on: the same two
/// cases as `SourceCharExtent`, in the coordinates the view works in.
#[derive(Debug, Clone, PartialEq, Eq)]
pub enum DisplayColumnExtent {
    /// Columns `range` of the row.
    Columns(Range<u32>),
    /// From `from` to the edge of the pane, which is how a covered line ending is shown.
    ToEnd { from: u32 },
}

/// A range to paint behind one row's text.
#[derive(Debug, Clone, PartialEq, Eq)]
pub struct Highlight {
    pub extent: DisplayColumnExtent,
    pub channel: Channel,
}

} // verus!
