//! The gesture, and turning it into file coordinates.
//!
//! A selection is made in view coordinates: a row on screen and a column across it. It is
//! reported in file coordinates, as `LineSpan`s, which is the form a host stores. This module
//! owns that translation and the rules about where a selection may go.

use std::ops::Range;
use vstd::prelude::*;

use crate::diff::model::{hunks_of, FileDiff};
use crate::diff::render::lines_fit;
use crate::span::{LineSpan, SourceCharExtent};
use crate::text::{index_at, source_index_at, RenderOptions};
use crate::view::model::{run_from, run_to, with_runs};
use crate::view::row::DisplayedRow;

verus! {

/// One end of a selection, in the coordinates the view works in.
#[derive(Debug, Clone, Copy, PartialEq, Eq, Structural)]
pub struct Caret {
    pub row: usize,
    /// Display column, because that is what a pointer position converts to directly. The
    /// conversion to a source offset happens once, in `to_spans`.
    pub column: u32,
}

impl Caret {
    /// A position as a widget reports one, in the same coordinates. Negative values cannot be
    /// a row or a column, so they clamp to zero rather than wrap; a widget using a negative row
    /// to mean "no selection" checks for that before converting.
    pub fn from_position(row: i32, column: i32) -> (caret: Caret)
        ensures
            caret.row == (if row < 0 {
                0
            } else {
                row as int
            }),
            caret.column == (if column < 0 {
                0
            } else {
                column as int
            }),
    {
        Caret {
            row: if row < 0 {
                0
            } else {
                row as usize
            },
            column: if column < 0 {
                0
            } else {
                column as u32
            },
        }
    }
}

/// A selection in progress, or a finished one.
///
/// Two points rather than a region: anchor is where the drag started and focus is where it is
/// now, so a selection made upward has its focus before its anchor. Extending with shift has
/// to grow from the anchor, not from whichever end happens to come first on screen.
#[derive(Debug, Clone, Copy, PartialEq, Eq, Structural)]
pub struct Selection {
    pub anchor: Caret,
    pub focus: Caret,
}

/// Whether `a` comes before `b` on screen: an earlier row, or further left on the same one.
pub open spec fn precedes(a: Caret, b: Caret) -> bool {
    a.row < b.row || (a.row == b.row && a.column < b.column)
}

impl Selection {
    /// The two ends in the order they appear on screen.
    pub open spec fn in_order(self) -> (Caret, Caret) {
        if precedes(self.focus, self.anchor) {
            (self.focus, self.anchor)
        } else {
            (self.anchor, self.focus)
        }
    }

    pub fn at(caret: Caret) -> (selection: Self)
        ensures
            selection == (Selection { anchor: caret, focus: caret }),
    {
        Selection { anchor: caret, focus: caret }
    }

    pub fn is_empty(&self) -> (empty: bool)
        ensures
            empty == (self.anchor == self.focus),
    {
        self.anchor == self.focus
    }

    /// The two ends in the order they appear on screen.
    fn ordered(&self) -> (ends: (Caret, Caret))
        ensures
            ends == self.in_order(),
    {
        let backwards = self.focus.row < self.anchor.row || (self.focus.row == self.anchor.row
            && self.focus.column < self.anchor.column);
        if backwards {
            (self.focus, self.anchor)
        } else {
            (self.anchor, self.focus)
        }
    }
}

/// The stretch of rows a selection starting at `row` may cover: the run of selectable rows it
/// sits in, or nothing when it is not selectable.
pub open spec fn run_around(rows: Seq<DisplayedRow>, row: usize) -> Range<usize> {
    if row < rows.len() && rows[row as int].selectable {
        (run_from(rows, row as nat) as usize)..(run_to(rows, row as nat) as usize)
    } else {
        row..row
    }
}

proof fn lemma_run_around(rows: Seq<DisplayedRow>, row: nat)
    requires
        row < rows.len(),
        rows[row as int].selectable,
    ensures
        run_from(rows, row) <= row < run_to(rows, row) <= rows.len(),
    decreases rows.len() - row,
{
    lemma_run_from_le(rows, row);
    lemma_run_to_ge(rows, row);
}

proof fn lemma_run_from_le(rows: Seq<DisplayedRow>, i: nat)
    ensures
        run_from(rows, i) <= i,
    decreases i,
{
    if i > 0 {
        lemma_run_from_le(rows, (i - 1) as nat);
    }
}

proof fn lemma_run_to_ge(rows: Seq<DisplayedRow>, i: nat)
    requires
        i <= rows.len(),
    ensures
        i <= run_to(rows, i) <= rows.len(),
        i < rows.len() && rows[i as int].selectable ==> i < run_to(rows, i),
    decreases rows.len() - i,
{
    if i < rows.len() && rows[i as int].selectable {
        lemma_run_to_ge(rows, i + 1);
    }
}

/// The stretch of rows a selection starting at `row` may cover.
///
/// A selection is confined to one such stretch. Crossing a gap would mean either dropping the
/// hidden lines when the selection was resolved, so the reported range would not match what
/// was highlighted, or fetching them, which would make selecting have side effects. Refusing
/// to cross avoids choosing between those. Expand the gap first, then select.
pub fn run_bounds(rows: &[DisplayedRow], row: usize) -> (run: Range<usize>)
    ensures
        run == run_around(rows@, row),
{
    if row >= rows.len() || !rows[row].selectable {
        return row..row;
    }
    let mut start = row;
    while start > 0 && rows[start - 1].selectable
        invariant
            start <= row < rows@.len(),
            rows@[row as int].selectable,
            run_from(rows@, start as nat) == run_from(rows@, row as nat),
            start < row ==> rows@[start as int].selectable,
        decreases start,
    {
        start -= 1;
    }
    let mut end = row;
    while end < rows.len() && rows[end].selectable
        invariant
            row <= end <= rows@.len(),
            run_to(rows@, end as nat) == run_to(rows@, row as nat),
        decreases rows@.len() - end,
    {
        end += 1;
    }
    proof {
        lemma_run_around(rows@, row as nat);
    }
    start..end
}

/// Where a drag aimed at `target` stops: inside the run the selection started in.
pub open spec fn clamped(rows: Seq<DisplayedRow>, anchor_row: usize, target: usize) -> usize {
    let run = run_around(rows, anchor_row);
    if run.start >= run.end {
        anchor_row
    } else if target < run.start {
        run.start
    } else if target > run.end - 1 {
        (run.end - 1) as usize
    } else {
        target
    }
}

/// Pulls a target row back into the run the selection started in.
pub fn clamp_to_run(rows: &[DisplayedRow], anchor_row: usize, target: usize) -> (row: usize)
    ensures
        row == clamped(rows@, anchor_row, target),
{
    let run = run_bounds(rows, anchor_row);
    if run.start >= run.end {
        return anchor_row;
    }
    if target < run.start {
        run.start
    } else if target > run.end - 1 {
        run.end - 1
    } else {
        target
    }
}

/// The span row `index` contributes to a selection running from `start` to `end`.
///
/// Only the first row is cut at a caret on its left. Only the last is cut on its right; every
/// earlier row runs off the end of its line and takes the line ending with it. Rows that stand
/// for no line contribute nothing, and so does a last row the selection does not reach into.
pub open spec fn span_at(
    rows: Seq<DisplayedRow>,
    file: FileDiff,
    opts: RenderOptions,
    start: Caret,
    end: Caret,
    index: nat,
) -> Option<LineSpan> {
    let row = rows[index as int];
    match (row.source, row.id) {
        (Some(source), Some((document, line))) => match file.line_at(source) {
            Some(l) => {
                let text = l.text@;
                let from: u32 = if index == start.row {
                    index_at(text, start.column as nat, opts) as u32
                } else {
                    0
                };
                if index == end.row {
                    let to: u32 = index_at(text, end.column as nat, opts) as u32;
                    if from >= to {
                        None
                    } else {
                        Some(LineSpan { document, line, extent: SourceCharExtent::Columns(from..to) })
                    }
                } else {
                    Some(LineSpan { document, line, extent: SourceCharExtent::ToEnd { from } })
                }
            },
            None => None,
        },
        _ => None,
    }
}

/// The spans of rows `start.row` up to, not including, `upto`.
pub open spec fn spans_upto(
    rows: Seq<DisplayedRow>,
    file: FileDiff,
    opts: RenderOptions,
    start: Caret,
    end: Caret,
    upto: int,
) -> Seq<LineSpan>
    decreases upto - start.row,
{
    if upto <= start.row {
        Seq::empty()
    } else {
        let before = spans_upto(rows, file, opts, start, end, upto - 1);
        match span_at(rows, file, opts, start, end, (upto - 1) as nat) {
            Some(s) => before.push(s),
            None => before,
        }
    }
}

/// The file coordinates a selection covers: one span per row from its first end to its last,
/// as far as there are rows, for each row that stands for a line and is reached.
pub open spec fn selected_spans(
    rows: Seq<DisplayedRow>,
    file: FileDiff,
    opts: RenderOptions,
    selection: Selection,
) -> Seq<LineSpan> {
    if selection.anchor == selection.focus {
        Seq::empty()
    } else {
        let (start, end) = selection.in_order();
        let upto = if end.row + 1 < rows.len() {
            end.row + 1
        } else {
            rows.len() as int
        };
        spans_upto(rows, file, opts, start, end, upto)
    }
}

/// The file coordinates a selection covers.
///
/// Rows that stand for no line contribute nothing, so a selection dragged across a filler
/// simply skips it rather than reporting an empty range nobody can act on.
pub fn to_spans(
    rows: &[DisplayedRow],
    file: &FileDiff,
    opts: &RenderOptions,
    selection: &Selection,
) -> (spans: Vec<LineSpan>)
    requires
        lines_fit(*file, *opts),
    ensures
        spans@ == selected_spans(rows@, *file, *opts, *selection),
{
    if selection.is_empty() {
        return Vec::new();
    }
    let (start, end) = selection.ordered();
    let upto = if end.row < rows.len() {
        end.row + 1
    } else {
        rows.len()
    };
    let mut spans: Vec<LineSpan> = Vec::new();
    let mut index = start.row;
    if index > upto {
        index = upto;
        proof {
            assert(spans_upto(rows@, *file, *opts, start, end, upto as int) =~= Seq::empty());
        }
    }
    let ghost first = index;
    while index < upto
        invariant
            first <= index <= upto <= rows@.len(),
            first == start.row || (first == upto && upto < start.row),
            lines_fit(*file, *opts),
            spans@ == spans_upto(rows@, *file, *opts, start, end, index as int),
        decreases upto - index,
    {
        let row = &rows[index];
        let found = match (row.source, row.id) {
            (Some(source), Some((document, line))) => match file.line(source) {
                Some(l) => {
                    proof {
                        let hs = hunks_of(file.content);
                        assert(hs[source.hunk as int].lines@[source.line as int] == *l);
                    }
                    let text = l.text.as_str();
                    let from: u32 = if index == start.row {
                        #[verifier::truncate] (source_index_at(text, start.column as usize, opts) as u32)
                    } else {
                        0
                    };
                    if index == end.row {
                        let to = #[verifier::truncate] (source_index_at(
                            text,
                            end.column as usize,
                            opts,
                        ) as u32);
                        if from >= to {
                            None
                        } else {
                            Some(
                                LineSpan {
                                    document,
                                    line,
                                    extent: SourceCharExtent::Columns(from..to),
                                },
                            )
                        }
                    } else {
                        Some(LineSpan { document, line, extent: SourceCharExtent::ToEnd { from } })
                    }
                },
                None => None,
            },
            _ => None,
        };
        proof {
            assert(found == span_at(rows@, *file, *opts, start, end, index as nat));
            assert(index >= start.row);
        }
        match found {
            Some(span) => spans.push(span),
            None => {},
        }
        index += 1;
    }
    spans
}

proof fn lemma_runs_keep_selectability(rows: Seq<DisplayedRow>, i: nat)
    requires
        i <= rows.len(),
    ensures
        run_from(with_runs(rows), i) == run_from(rows, i),
    decreases i,
{
    if i > 0 {
        assert(with_runs(rows)[i - 1].selectable == rows[i - 1].selectable);
        lemma_runs_keep_selectability(rows, (i - 1) as nat);
    }
}

proof fn lemma_runs_keep_selectability_to(rows: Seq<DisplayedRow>, i: nat)
    ensures
        run_to(with_runs(rows), i) == run_to(rows, i),
    decreases rows.len() - i,
{
    if i < rows.len() {
        assert(with_runs(rows)[i as int].selectable == rows[i as int].selectable);
        lemma_runs_keep_selectability_to(rows, i + 1);
    }
}

/// The run a model records on each selectable row is exactly where a selection starting
/// there may go: `run_bounds` over the model's rows finds the same stretch.
pub proof fn law_a_recorded_run_is_where_a_selection_may_go(rows: Seq<DisplayedRow>, i: usize)
    requires
        i < rows.len() <= usize::MAX,
        rows[i as int].selectable,
    ensures
        with_runs(rows)[i as int].selectable_run == ((run_around(with_runs(rows), i).start as u32)
            ..(run_around(with_runs(rows), i).end as u32)),
{
    lemma_runs_keep_selectability(rows, i as nat);
    lemma_runs_keep_selectability_to(rows, i as nat);
    lemma_run_around(rows, i as nat);
}

/// A drag upward selects what the same drag downward does: only where the two ends are on
/// screen matters, not which of them was pressed first.
pub proof fn law_a_backwards_drag_selects_the_same_range(
    rows: Seq<DisplayedRow>,
    file: FileDiff,
    opts: RenderOptions,
    a: Caret,
    b: Caret,
)
    ensures
        selected_spans(rows, file, opts, Selection { anchor: a, focus: b }) == selected_spans(
            rows,
            file,
            opts,
            Selection { anchor: b, focus: a },
        ),
{
    if a != b {
        let forwards = Selection { anchor: a, focus: b };
        let backwards = Selection { anchor: b, focus: a };
        assert(forwards.in_order() == backwards.in_order());
    }
}

proof fn lemma_run_selectable(rows: Seq<DisplayedRow>, i: nat)
    requires
        i < rows.len(),
        rows[i as int].selectable,
    ensures
        forall|k: int| run_from(rows, i) <= k < run_to(rows, i) ==> (#[trigger] rows[k]).selectable,
{
    lemma_run_from_selectable(rows, i);
    lemma_run_to_selectable(rows, i);
}

proof fn lemma_run_from_selectable(rows: Seq<DisplayedRow>, i: nat)
    requires
        i < rows.len(),
        rows[i as int].selectable,
    ensures
        forall|k: int| run_from(rows, i) <= k <= i ==> (#[trigger] rows[k]).selectable,
    decreases i,
{
    if i > 0 && rows[i - 1].selectable {
        lemma_run_from_selectable(rows, (i - 1) as nat);
    }
}

proof fn lemma_run_to_selectable(rows: Seq<DisplayedRow>, i: nat)
    requires
        i <= rows.len(),
    ensures
        forall|k: int| i <= k < run_to(rows, i) ==> (#[trigger] rows[k]).selectable,
    decreases rows.len() - i,
{
    if i < rows.len() && rows[i as int].selectable {
        lemma_run_to_selectable(rows, i + 1);
    }
}

/// A drag never leaves the run it began in: wherever the pointer goes, the row it is pulled
/// back to, and every row between it and the anchor, can be selected, so a selection never
/// reaches across a gap or a header.
pub proof fn law_a_drag_never_leaves_its_run(rows: Seq<DisplayedRow>, anchor: usize, target: usize)
    requires
        anchor < rows.len() <= usize::MAX,
        rows[anchor as int].selectable,
    ensures
        ({
            let to = clamped(rows, anchor, target);
            &&& to < rows.len()
            &&& forall|k: int|
                (anchor <= k <= to || to <= k <= anchor) ==> (#[trigger] rows[k]).selectable
        }),
{
    lemma_run_around(rows, anchor as nat);
    lemma_run_selectable(rows, anchor as nat);
}

proof fn lemma_run_to_reaches(rows: Seq<DisplayedRow>, i: nat, j: nat)
    requires
        i <= j < rows.len(),
        forall|k: int| i <= k <= j ==> (#[trigger] rows[k]).selectable,
    ensures
        j < run_to(rows, i),
    decreases j - i,
{
    assert(rows[i as int].selectable);
    if i < j {
        lemma_run_to_reaches(rows, i + 1, j);
    } else {
        lemma_run_to_ge(rows, i + 1);
    }
}

proof fn lemma_run_from_reaches(rows: Seq<DisplayedRow>, i: nat, j: nat)
    requires
        j <= i < rows.len(),
        forall|k: int| j <= k <= i ==> (#[trigger] rows[k]).selectable,
    ensures
        run_from(rows, i) <= j,
    decreases i - j,
{
    if j < i {
        assert(rows[i - 1].selectable);
        lemma_run_from_reaches(rows, (i - 1) as nat, j);
    } else {
        lemma_run_from_le(rows, i);
    }
}

/// A drag goes wherever nothing stands in its way: when every row from the one it began on to
/// the one the pointer is over can be selected, the drag ends on that row.
pub proof fn law_a_drag_reaches_any_row_it_can(rows: Seq<DisplayedRow>, anchor: usize, target: usize)
    requires
        anchor < rows.len() <= usize::MAX,
        target < rows.len(),
        forall|k: int|
            (anchor <= k <= target || target <= k <= anchor) ==> (#[trigger] rows[k]).selectable,
    ensures
        clamped(rows, anchor, target) == target,
{
    assert(rows[anchor as int].selectable);
    lemma_run_around(rows, anchor as nat);
    if anchor <= target {
        lemma_run_to_reaches(rows, anchor as nat, target as nat);
        lemma_run_from_le(rows, anchor as nat);
    } else {
        lemma_run_from_reaches(rows, anchor as nat, target as nat);
        lemma_run_to_ge(rows, anchor as nat);
    }
}

proof fn lemma_run_to_stops(rows: Seq<DisplayedRow>, i: nat)
    requires
        i <= rows.len(),
    ensures
        run_to(rows, i) < rows.len() ==> !rows[run_to(rows, i) as int].selectable,
    decreases rows.len() - i,
{
    if i < rows.len() && rows[i as int].selectable {
        lemma_run_to_stops(rows, i + 1);
    }
}

proof fn lemma_run_from_stops(rows: Seq<DisplayedRow>, i: nat)
    requires
        i <= rows.len(),
    ensures
        run_from(rows, i) > 0 ==> !rows[run_from(rows, i) - 1].selectable,
    decreases i,
{
    if i > 0 && rows[i - 1].selectable {
        lemma_run_from_stops(rows, (i - 1) as nat);
    }
}

/// A drag stops short of the row the pointer is over only at a row that cannot be selected:
/// it ends between where it began and the pointer, and when it ends short, the next row on
/// towards the pointer is a gap, a header or a filler.
pub proof fn law_a_drag_stops_only_at_a_row_it_cannot_cross(
    rows: Seq<DisplayedRow>,
    anchor: usize,
    target: usize,
)
    requires
        anchor < rows.len() <= usize::MAX,
        target < rows.len(),
        rows[anchor as int].selectable,
    ensures
        ({
            let to = clamped(rows, anchor, target);
            &&& anchor <= target ==> anchor <= to <= target
            &&& target <= anchor ==> target <= to <= anchor
            &&& to < target ==> !rows[to + 1].selectable
            &&& target < to ==> !rows[to - 1].selectable
        }),
{
    lemma_run_around(rows, anchor as nat);
    lemma_run_to_stops(rows, anchor as nat);
    lemma_run_from_stops(rows, anchor as nat);
}

} // verus!
