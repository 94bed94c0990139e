//! Turning spans into something to paint.
//!
//! The last stage of the pipeline that starts with a gesture: a `Selection` resolves to
//! `LineSpan`s, which name lines in a file, and those resolve here into ranges against the
//! rows currently on screen. Nothing here is specific to selection: a host marking a line is
//! another thing that produces ranges to paint.

use vstd::prelude::*;

use crate::diff::model::{hunks_of, FileDiff};
use crate::diff::layout::Row;
use crate::diff::render::{displays, lines_fit, shown_line, DiffPane};
use crate::selection::{span_at, Caret};
use crate::span::{Document, LineSpan, SourceCharExtent};
use crate::text::{clamp_index, column_at, display_column_of, map_span, RenderOptions};
use crate::view::model::{with_runs, RowModel};
use crate::view::row::{DisplayColumnExtent, DisplayedRow};

verus! {

/// The first row showing a line, if any row does.
pub open spec fn first_row(rows: Seq<DisplayedRow>, document: Document, line: u32) -> Option<nat>
    decreases rows.len(),
{
    if rows.len() == 0 {
        None
    } else {
        match first_row(rows.drop_last(), document, line) {
            Some(i) => Some(i),
            None => if rows.last().id == Some((document, line)) {
                Some((rows.len() - 1) as nat)
            } else {
                None
            },
        }
    }
}

proof fn lemma_first_row(rows: Seq<DisplayedRow>, document: Document, line: u32, found: Option<nat>)
    requires
        match found {
            Some(j) => j < rows.len() && rows[j as int].id == Some((document, line)) && forall|i: int|
                0 <= i < j ==> (#[trigger] rows[i]).id != Some((document, line)),
            None => forall|i: int|
                0 <= i < rows.len() ==> (#[trigger] rows[i]).id != Some((document, line)),
        },
    ensures
        first_row(rows, document, line) == found,
    decreases rows.len(),
{
    if rows.len() > 0 {
        let rest = rows.drop_last();
        match found {
            Some(j) => {
                if j < rest.len() {
                    lemma_first_row(rest, document, line, found);
                } else {
                    lemma_first_row(rest, document, line, None);
                }
            },
            None => {
                lemma_first_row(rest, document, line, None);
            },
        }
    }
}

/// Where a span lands on screen: the row showing its line, and the columns its characters are
/// drawn across. Nothing when the line is not on screen, and nothing for a run of characters
/// that draws across no columns.
pub open spec fn landing(
    rows: Seq<DisplayedRow>,
    file: FileDiff,
    opts: RenderOptions,
    span: LineSpan,
) -> Option<(usize, DisplayColumnExtent)> {
    match first_row(rows, span.document, span.line) {
        None => None,
        Some(index) => match rows[index as int].source {
            None => None,
            Some(source) => match file.line_at(source) {
                None => None,
                Some(l) => {
                    let text = l.text@;
                    match span.extent {
                        SourceCharExtent::Columns(chars) => {
                            let a = column_at(text, clamp_index(text, chars.start as nat), opts);
                            let e = column_at(text, clamp_index(text, chars.end as nat), opts);
                            let b = if e >= a {
                                e
                            } else {
                                a
                            };
                            if a >= b {
                                None
                            } else {
                                Some(
                                    (
                                        index as usize,
                                        DisplayColumnExtent::Columns((a as u32)..(b as u32)),
                                    ),
                                )
                            }
                        },
                        // Where it ends is not a column at all, so only the start is converted.
                        SourceCharExtent::ToEnd { from } => Some(
                            (
                                index as usize,
                                DisplayColumnExtent::ToEnd {
                                    from: column_at(text, clamp_index(text, from as nat), opts)
                                        as u32,
                                },
                            ),
                        ),
                    }
                },
            },
        },
    }
}

/// Where each of a list of spans lands, in order, leaving out those that land nowhere.
pub open spec fn landings(
    rows: Seq<DisplayedRow>,
    file: FileDiff,
    opts: RenderOptions,
    spans: Seq<LineSpan>,
) -> Seq<(usize, DisplayColumnExtent)>
    decreases spans.len(),
{
    if spans.len() == 0 {
        Seq::empty()
    } else {
        let before = landings(rows, file, opts, spans.drop_last());
        match landing(rows, file, opts, spans.last()) {
            Some(m) => before.push(m),
            None => before,
        }
    }
}

/// Where to draw a set of spans, as a range against the row that carries each line.
///
/// The result goes to `RowModel::set_channel`, which decides how it is painted. Spans naming a
/// line the view is not currently showing are dropped rather than reported: a stored selection
/// may well name lines that are inside a gap now, and the same stored set can be given to both
/// panes of a split view, each drawing only what belongs to it.
pub fn to_highlights(
    view: &RowModel,
    file: &FileDiff,
    opts: &RenderOptions,
    spans: &[LineSpan],
) -> (marks: Vec<(usize, DisplayColumnExtent)>)
    requires
        view.wf(),
        lines_fit(*file, *opts),
    ensures
        marks@ == landings(view.shown(), *file, *opts, spans@),
{
    let rows = view.rows();
    let mut out: Vec<(usize, DisplayColumnExtent)> = Vec::new();
    let mut s: usize = 0;
    while s < spans.len()
        invariant
            s <= spans@.len(),
            rows@ == view.shown(),
            view.wf(),
            lines_fit(*file, *opts),
            out@ == landings(rows@, *file, *opts, spans@.take(s as int)),
        decreases spans@.len() - s,
    {
        let span = &spans[s];
        proof {
            assert(spans@.take(s as int + 1).drop_last() =~= spans@.take(s as int));
        }
        let index = view.row_of(span.document, span.line);
        proof {
            lemma_first_row(rows@, span.document, span.line, match index {
                Some(j) => Some(j as nat),
                None => None,
            });
        }
        let mark = match index {
            None => None,
            Some(index) => match rows[index].source {
                None => None,
                Some(source) => match file.line(source) {
                    None => None,
                    Some(l) => {
                        proof {
                            let hs = hunks_of(file.content);
                            assert(hs[source.hunk as int].lines@[source.line as int] == *l);
                        }
                        let text = l.text.as_str();
                        match &span.extent {
                            SourceCharExtent::Columns(chars) => {
                                let columns = map_span(
                                    text,
                                    (chars.start as usize)..(chars.end as usize),
                                    opts,
                                );
                                if columns.start >= columns.end {
                                    None
                                } else {
                                    Some(
                                        (
                                            index,
                                            DisplayColumnExtent::Columns(
                                                #[verifier::truncate] (columns.start as u32)
                                                    ..#[verifier::truncate] (columns.end as u32),
                                            ),
                                        ),
                                    )
                                }
                            },
                            SourceCharExtent::ToEnd { from } => {
                                let column = display_column_of(text, *from as usize, opts);
                                Some(
                                    (
                                        index,
                                        DisplayColumnExtent::ToEnd {
                                            from: #[verifier::truncate] (column as u32),
                                        },
                                    ),
                                )
                            },
                        }
                    },
                },
            },
        };
        proof {
            assert(mark == landing(rows@, *file, *opts, spans@[s as int]));
        }
        match mark {
            Some(m) => out.push(m),
            None => {},
        }
        s += 1;
    }
    proof {
        assert(spans@.take(spans@.len() as int) =~= spans@);
    }
    out
}

proof fn lemma_first_row_by_ids(a: Seq<DisplayedRow>, b: Seq<DisplayedRow>, document: Document, line: u32)
    requires
        a.len() == b.len(),
        forall|i: int| 0 <= i < a.len() ==> (#[trigger] a[i]).id == b[i].id,
    ensures
        first_row(a, document, line) == first_row(b, document, line),
    decreases a.len(),
{
    if a.len() > 0 {
        lemma_first_row_by_ids(a.drop_last(), b.drop_last(), document, line);
        assert(a.last().id == b.last().id);
    }
}

/// A stored span lands on the same row however the rows are drawn: the same layout rendered
/// with other options (a tab width, whitespace shown) puts it on the row it was on, and a span
/// running to the end of its line lands in both or in neither. Only the columns move.
pub proof fn law_a_stored_span_lands_on_the_same_row_however_drawn(
    layout: Seq<Row>,
    file: FileDiff,
    first: RenderOptions,
    second: RenderOptions,
    pane: DiffPane,
    drawn_first: Seq<DisplayedRow>,
    drawn_second: Seq<DisplayedRow>,
    span: LineSpan,
)
    requires
        drawn_first.len() == layout.len(),
        drawn_second.len() == layout.len(),
        forall|i: int|
            0 <= i < layout.len() ==> displays(layout[i], file, first, pane, #[trigger] drawn_first[i]),
        forall|i: int|
            0 <= i < layout.len() ==> displays(layout[i], file, second, pane, #[trigger] drawn_second[i]),
    ensures
        ({
            let a = landing(with_runs(drawn_first), file, first, span);
            let b = landing(with_runs(drawn_second), file, second, span);
            &&& (a is Some && b is Some) ==> a.unwrap().0 == b.unwrap().0
            &&& span.extent is ToEnd ==> (a is Some <==> b is Some)
        }),
{
    let a = with_runs(drawn_first);
    let b = with_runs(drawn_second);
    assert forall|i: int| 0 <= i < a.len() implies (#[trigger] a[i]).id == b[i].id && a[i].source
        == b[i].source by {
        assert(a[i].id == drawn_first[i].id && a[i].source == drawn_first[i].source);
        assert(b[i].id == drawn_second[i].id && b[i].source == drawn_second[i].source);
        assert(displays(layout[i], file, first, pane, drawn_first[i]));
        assert(displays(layout[i], file, second, pane, drawn_second[i]));
        match layout[i] {
            Row::Lines(pair) => match shown_line(pair, pane) {
                Some(l) => match file.line_at(l.source) {
                    Some(line) => {},
                    None => {},
                },
                None => {},
            },
            _ => {},
        }
    }
    lemma_first_row_by_ids(a, b, span.document, span.line);
    match first_row(a, span.document, span.line) {
        Some(index) => {
            lemma_first_row_found(a, span.document, span.line);
            assert(a[index as int].source == b[index as int].source);
        },
        None => {},
    }
}

proof fn lemma_first_row_found(rows: Seq<DisplayedRow>, document: Document, line: u32)
    ensures
        first_row(rows, document, line) matches Some(i) ==> i < rows.len(),
    decreases rows.len(),
{
    if rows.len() > 0 {
        lemma_first_row_found(rows.drop_last(), document, line);
    }
}

/// A line reported from a row lands back on that row, when no earlier row shows the same line:
/// a selection stored and handed back draws on the rows it was made on.
pub proof fn law_a_reported_line_lands_back_on_its_row(
    rows: Seq<DisplayedRow>,
    file: FileDiff,
    opts: RenderOptions,
    start: Caret,
    end: Caret,
    index: nat,
)
    requires
        index < rows.len() <= usize::MAX,
        span_at(rows, file, opts, start, end, index) is Some,
        forall|i: int| 0 <= i < index ==> (#[trigger] rows[i]).id != rows[index as int].id,
    ensures
        ({
            let span = span_at(rows, file, opts, start, end, index).unwrap();
            &&& landing(rows, file, opts, span) matches Some(m) ==> m.0 == index
            &&& span.extent is ToEnd ==> landing(rows, file, opts, span) is Some
        }),
{
    let span = span_at(rows, file, opts, start, end, index).unwrap();
    let row = rows[index as int];
    assert(row.id == Some((span.document, span.line)));
    lemma_first_row(rows, span.document, span.line, Some(index));
}

/// Whether a span lands somewhere on screen.
pub open spec fn lands(
    rows: Seq<DisplayedRow>,
    file: FileDiff,
    opts: RenderOptions,
    span: LineSpan,
) -> bool {
    landing(rows, file, opts, span) is Some
}

/// Every span that lands is drawn, once, in the order given, whichever row the spans before it
/// landed on: the highlights are exactly the landings of the spans that land.
pub proof fn law_every_span_that_lands_is_drawn(
    rows: Seq<DisplayedRow>,
    file: FileDiff,
    opts: RenderOptions,
    spans: Seq<LineSpan>,
)
    ensures
        ({
            let kept = spans.filter(|s: LineSpan| lands(rows, file, opts, s));
            let marks = landings(rows, file, opts, spans);
            &&& marks.len() == kept.len()
            &&& forall|k: int|
                0 <= k < kept.len() ==> Some(#[trigger] marks[k]) == landing(
                    rows,
                    file,
                    opts,
                    kept[k],
                )
        }),
    decreases spans.len(),
{
    let p = |s: LineSpan| lands(rows, file, opts, s);
    reveal(Seq::filter);
    if spans.len() > 0 {
        let rest = spans.drop_last();
        law_every_span_that_lands_is_drawn(rows, file, opts, rest);
        assert(spans =~= rest.push(spans.last()));
        rest.lemma_filter_push(spans.last(), p);
        let kept = spans.filter(p);
        let before = rest.filter(p);
        let marks = landings(rows, file, opts, spans);
        let prev = landings(rows, file, opts, rest);
        assert forall|k: int| 0 <= k < kept.len() implies Some(#[trigger] marks[k]) == landing(
            rows,
            file,
            opts,
            kept[k],
        ) by {
            if k < before.len() {
                assert(marks[k] == prev[k]);
                assert(kept[k] == before[k]);
            }
        }
    }
}

} // verus!
