//! Turning a laid-out diff into rows a pane can draw.
//!
//! The one place that reads diff vocabulary and writes display vocabulary: additions, removals
//! and hunks become a row class, a gutter, and a piece of rendered text. One layout serves both
//! panes of a split view; each reads its own side of every row, which is why a filler is
//! simply the side that was absent.

use vstd::prelude::*;

use crate::diff::layout::{Layout, Line, LinePair, Row};
use crate::diff::model::{hunks_of, shown_path, DiffLine, FileDiff, LineKind};
use crate::span::Document;
use crate::text::{render_line, rendered_columns, rendered_text, RenderOptions};
use crate::view::row::{is_blank, DisplayedRow, Gap, RowClass, GUTTER_COLUMNS};

verus! {

/// Which reading of a diff a pane is showing.
#[derive(Debug, Clone, Copy, PartialEq, Eq, Structural)]
pub enum DiffPane {
    /// One column showing both files, with two numbers against an unchanged line.
    Inline,
    /// The left file only, as one side of a split view.
    Left,
    /// The right file only.
    Right,
}

/// The same choice, under the name a pane uses for it.
pub type Pane = DiffPane;

/// The line a pane draws for an entry: its own side, or inline whichever side is present (an
/// unchanged line is on both and either gives the same text).
pub open spec fn shown_line(pair: LinePair, pane: DiffPane) -> Option<Line> {
    match pane {
        DiffPane::Left => pair.left,
        DiffPane::Right => pair.right,
        DiffPane::Inline => match pair.left {
            Some(l) => Some(l),
            None => pair.right,
        },
    }
}

pub open spec fn number_of(line: Option<Line>) -> Option<u32> {
    match line {
        Some(l) => Some(l.line),
        None => None,
    }
}

/// The numbers a pane's gutter shows for an entry.
pub open spec fn gutter_of(left: Option<Line>, right: Option<Line>, pane: DiffPane) -> Seq<
    Option<u32>,
> {
    match pane {
        DiffPane::Inline => seq![number_of(left), number_of(right)],
        DiffPane::Left => seq![number_of(left), None],
        DiffPane::Right => seq![number_of(right), None],
    }
}

/// Which file names a line shown in a pane. A removal is the file as it was and an addition
/// the file as it is; an unchanged line is in both, so the pane decides, and inline means the
/// file as it stands now.
pub open spec fn document_of(kind: LineKind, pane: DiffPane) -> Document {
    match kind {
        LineKind::Removed => Document::before(),
        LineKind::Added => Document::after(),
        LineKind::Context => if pane == DiffPane::Left {
            Document::before()
        } else {
            Document::after()
        },
    }
}

pub open spec fn class_for(kind: LineKind) -> RowClass {
    match kind {
        LineKind::Context => RowClass::context(),
        LineKind::Added => RowClass::added(),
        LineKind::Removed => RowClass::removed(),
    }
}

/// What a gap says about itself: why fetching it failed when it did, otherwise the heading of
/// what follows, otherwise nothing.
pub open spec fn note_of(reason: Option<String>, heading: Option<String>) -> Seq<char> {
    match reason {
        Some(r) => r@,
        None => match heading {
            Some(h) => h@,
            None => Seq::empty(),
        },
    }
}

/// A line of a diff drawn for a pane, from the entry `pair` that placed it there as `shown`.
pub open spec fn is_line_row(
    out: DisplayedRow,
    pair: LinePair,
    shown: Line,
    line: DiffLine,
    opts: RenderOptions,
    pane: DiffPane,
) -> bool {
    &&& out.class == class_for(line.kind)
    &&& out.numbered
    &&& !out.full_width
    &&& out.numbers@ == gutter_of(pair.left, pair.right, pane)
    &&& out.id == Some((document_of(line.kind, pane), shown.line))
    &&& out.source == Some(shown.source)
    &&& out.text@ == rendered_text(line.text@, line.line_ending, opts)
    &&& out.columns == rendered_columns(line.text@, line.line_ending, opts) as u32
    &&& out.gap is None
    &&& out.selectable
    &&& out.selectable_run == (0u32..0u32)
}

/// How one entry of a layout draws in a pane.
pub open spec fn displays(
    entry: Row,
    file: FileDiff,
    opts: RenderOptions,
    pane: DiffPane,
    out: DisplayedRow,
) -> bool {
    match entry {
        // The file itself rather than a line in it, so it runs across the gutter and numbers
        // nothing.
        Row::Header => {
            let path = shown_path(file.left_path, file.right_path);
            &&& out.class == RowClass::header()
            &&& !out.numbered
            &&& out.full_width
            &&& out.numbers@ == seq![None::<u32>, None]
            &&& out.id is None
            &&& out.source is None
            &&& out.text@ == path
            &&& out.columns == path.len() as u32
            &&& out.gap is None
            &&& !out.selectable
            &&& out.selectable_run == (0u32..0u32)
        },
        Row::Gap { left_start, right_start, hidden, state, pending, heading, reason } => {
            &&& out.gap matches Some(g) && g.hidden == hidden && g.state == state && g.note@
                == note_of(reason, heading) && g.left_start == left_start && g.right_start
                == right_start && g.pending == pending
            // The band drawn over a gap takes the gutter with it, and a gap names no line.
            &&& out.full_width
            &&& is_blank(DisplayedRow { gap: None, full_width: false, ..out }, RowClass::gap())
        },
        Row::Lines(pair) => match shown_line(pair, pane) {
            None => is_blank(out, RowClass::filler()),
            Some(shown) => match file.line_at(shown.source) {
                None => is_blank(out, RowClass::filler()),
                Some(line) => is_line_row(out, pair, shown, line, opts, pane),
            },
        },
    }
}

/// Every line of the file is short enough to render within machine limits.
pub open spec fn lines_fit(file: FileDiff, opts: RenderOptions) -> bool {
    forall|h: int, i: int|
        #![trigger hunks_of(file.content)[h].lines@[i]]
        0 <= h < hunks_of(file.content).len() && 0 <= i < hunks_of(file.content)[h].lines@.len()
            ==> opts.fits_chars(hunks_of(file.content)[h].lines@[i].text@)
}

/// Renders one pane's worth of a layout, the rows that go to `RowModel::from_rows`.
pub fn render_diff(layout: &Layout, file: &FileDiff, opts: &RenderOptions, pane: DiffPane) -> (rows:
    Vec<DisplayedRow>)
    requires
        lines_fit(*file, *opts),
    ensures
        rows@.len() == layout.rows@.len(),
        forall|i: int|
            0 <= i < rows@.len() ==> displays(layout.rows@[i], *file, *opts, pane, #[trigger] rows@[i]),
{
    let mut rows: Vec<DisplayedRow> = Vec::new();
    let mut i: usize = 0;
    while i < layout.rows.len()
        invariant
            i <= layout.rows@.len(),
            lines_fit(*file, *opts),
            rows@.len() == i,
            forall|k: int|
                0 <= k < i ==> displays(layout.rows@[k], *file, *opts, pane, #[trigger] rows@[k]),
        decreases layout.rows@.len() - i,
    {
        rows.push(display(&layout.rows[i], file, opts, pane));
        i += 1;
    }
    rows
}

/// Renders one entry as this pane sees it.
fn display(entry: &Row, file: &FileDiff, opts: &RenderOptions, pane: DiffPane) -> (out: DisplayedRow)
    requires
        lines_fit(*file, *opts),
    ensures
        displays(*entry, *file, *opts, pane, out),
{
    match entry {
        Row::Header => {
            let path = file.display_path();
            let mut out = DisplayedRow::blank(RowClass::header());
            out.text = path.to_owned();
            out.columns = #[verifier::truncate] (path.unicode_len() as u32);
            out.full_width = true;
            out
        },
        Row::Gap { left_start, right_start, hidden, state, pending, heading, reason } => {
            let note = match reason {
                Some(r) => r.clone(),
                None => match heading {
                    Some(h) => h.clone(),
                    None => String::new(),
                },
            };
            let mut out = DisplayedRow::blank(RowClass::gap());
            out.gap = Some(
                Gap {
                    hidden: *hidden,
                    state: *state,
                    note,
                    left_start: *left_start,
                    right_start: *right_start,
                    pending: *pending,
                },
            );
            out.full_width = true;
            out
        },
        Row::Lines(pair) => {
            let shown = match pane {
                DiffPane::Left => pair.left,
                DiffPane::Right => pair.right,
                DiffPane::Inline => match pair.left {
                    Some(l) => Some(l),
                    None => pair.right,
                },
            };
            let row = match shown {
                Some(row) => row,
                None => {
                    return DisplayedRow::blank(RowClass::filler());
                },
            };
            let line = match file.line(row.source) {
                Some(line) => line,
                None => {
                    return DisplayedRow::blank(RowClass::filler());
                },
            };
            proof {
                let hs = hunks_of(file.content);
                assert(hs[row.source.hunk as int].lines@[row.source.line as int] == *line);
            }
            let (text, columns) = render_line(line.text.as_str(), line.line_ending, opts);
            let side = match line.kind {
                LineKind::Removed => Document::before(),
                LineKind::Added => Document::after(),
                LineKind::Context => match pane {
                    DiffPane::Left => Document::before(),
                    DiffPane::Inline | DiffPane::Right => Document::after(),
                },
            };
            let class = match line.kind {
                LineKind::Context => RowClass::context(),
                LineKind::Added => RowClass::added(),
                LineKind::Removed => RowClass::removed(),
            };
            let mut out = DisplayedRow::blank(class);
            out.numbered = true;
            out.numbers = gutter(pair.left, pair.right, pane);
            out.id = Some((side, row.line));
            out.source = Some(row.source);
            out.text = text;
            out.columns = #[verifier::truncate] (columns as u32);
            out.selectable = true;
            out
        },
    }
}

/// The numbers this pane's gutter shows for an entry.
fn gutter(left: Option<Line>, right: Option<Line>, pane: DiffPane) -> (numbers: [Option<
    u32,
>; GUTTER_COLUMNS])
    ensures
        numbers@ == gutter_of(left, right, pane),
{
    let l = match left {
        Some(r) => Some(r.line),
        None => None,
    };
    let r = match right {
        Some(r) => Some(r.line),
        None => None,
    };
    match pane {
        DiffPane::Inline => [l, r],
        DiffPane::Left => [l, None],
        DiffPane::Right => [r, None],
    }
}

/// Two rows stand for the same hidden run, saying the same about it.
pub open spec fn same_gap(a: Option<Gap>, b: Option<Gap>) -> bool {
    match (a, b) {
        (Some(x), Some(y)) => x.hidden == y.hidden && x.state == y.state && x.note@ == y.note@
            && x.left_start == y.left_start && x.right_start == y.right_start && x.pending
            == y.pending,
        (None, None) => true,
        _ => false,
    }
}

/// The two panes of a split stay in step: drawn from one layout, they have a row for every
/// entry, and wherever one shows a gap or the file's header, so does the other, at the same
/// place.
pub proof fn law_the_panes_of_a_split_stay_in_step(
    layout: Seq<Row>,
    file: FileDiff,
    opts: RenderOptions,
    left: Seq<DisplayedRow>,
    right: Seq<DisplayedRow>,
)
    requires
        left.len() == layout.len(),
        right.len() == layout.len(),
        forall|i: int|
            0 <= i < left.len() ==> displays(layout[i], file, opts, DiffPane::Left, #[trigger] left[i]),
        forall|i: int|
            0 <= i < right.len() ==> displays(layout[i], file, opts, DiffPane::Right, #[trigger] right[i]),
    ensures
        left.len() == right.len(),
        forall|i: int|
            0 <= i < left.len() ==> (#[trigger] left[i].class == RowClass::gap() <==> right[i].class
                == RowClass::gap()) && (left[i].class == RowClass::header() <==> right[i].class
                == RowClass::header()) && same_gap(left[i].gap, right[i].gap),
{
    assert forall|i: int| 0 <= i < left.len() implies (#[trigger] left[i].class == RowClass::gap()
        <==> right[i].class == RowClass::gap()) && (left[i].class == RowClass::header()
        <==> right[i].class == RowClass::header()) && same_gap(left[i].gap, right[i].gap) by {
        assert(displays(layout[i], file, opts, DiffPane::Left, left[i]));
        assert(displays(layout[i], file, opts, DiffPane::Right, right[i]));
        match layout[i] {
            Row::Lines(pair) => {
                match shown_line(pair, DiffPane::Left) {
                    Some(l) => match file.line_at(l.source) {
                        Some(line) => {},
                        None => {},
                    },
                    None => {},
                }
                match shown_line(pair, DiffPane::Right) {
                    Some(l) => match file.line_at(l.source) {
                        Some(line) => {},
                        None => {},
                    },
                    None => {},
                }
            },
            Row::Gap { .. } => {
            },
            Row::Header => {},
        }
    }
}

/// Only rows standing for a line can be selected: a row is selectable exactly when it names
/// the line it was rendered from, and then it also says which file numbers that line.
pub proof fn law_only_rows_standing_for_a_line_are_selectable(
    entry: Row,
    file: FileDiff,
    opts: RenderOptions,
    pane: DiffPane,
    out: DisplayedRow,
)
    requires
        displays(entry, file, opts, pane, out),
    ensures
        out.selectable <==> out.source is Some,
        out.selectable ==> out.id is Some && out.numbered,
        out.class == RowClass::gap() || out.class == RowClass::header() || out.class
            == RowClass::filler() ==> !out.selectable,
{
    match entry {
        Row::Lines(pair) => match shown_line(pair, pane) {
            Some(l) => match file.line_at(l.source) {
                Some(line) => {},
                None => {},
            },
            None => {},
        },
        _ => {},
    }
}

/// A row standing for a line shows that line's own number in the gutter: in one pane of a
/// split, in its first column with the second left empty; inline, in one of the two.
pub proof fn law_a_row_shows_the_number_it_stands_for(
    entry: Row,
    file: FileDiff,
    opts: RenderOptions,
    pane: DiffPane,
    out: DisplayedRow,
)
    requires
        displays(entry, file, opts, pane, out),
        out.id is Some,
    ensures
        pane != DiffPane::Inline ==> out.numbers@[0] == Some(out.id.unwrap().1),
        pane != DiffPane::Inline ==> out.numbers@[1] is None,
        pane == DiffPane::Inline ==> out.numbers@[0] == Some(out.id.unwrap().1)
            || out.numbers@[1] == Some(out.id.unwrap().1),
{
}

} // verus!
