use fxv_diff_slint::diff::layout::{build_inline, build_split, Layout, RowOptions};
use fxv_diff_slint::diff::model::FileDiff;
use fxv_diff_slint::diff::parse::parse_unified_diff;
use fxv_diff_slint::diff::render::{render_diff, Pane};
use fxv_diff_slint::selection::{clamp_to_run, run_bounds, to_spans, Caret, Selection};
use fxv_diff_slint::span::{Document, SourceCharExtent};
use fxv_diff_slint::text::RenderOptions;
use fxv_diff_slint::view::model::RowModel;
use fxv_diff_slint::view::row::{DisplayedRow, RowClass};

const TAB_LINE: &str = "diff --git a/src/lib.rs b/src/lib.rs
index 3b18e51..a4c1f2d 100644
--- a/src/lib.rs
+++ b/src/lib.rs
@@ -10,4 +10,4 @@ pub fn render() {
 fn thing() {
-\tlet x = 1;
+\tlet renamed_value = 1;
     call(x);
 }
";

fn file() -> FileDiff {
    parse_unified_diff(TAB_LINE)
        .expect("the fixture should parse")
        .files
        .remove(0)
}

fn shown(layout: &Layout, file: &FileDiff, pane: Pane) -> Vec<DisplayedRow> {
    RowModel::from_rows(render_diff(layout, file, &RenderOptions::default(), pane))
        .rows()
        .to_vec()
}

fn rows(file: &FileDiff) -> Vec<DisplayedRow> {
    shown(&build_inline(file, &RowOptions::default()), file, Pane::Inline)
}

fn removed_row(rows: &[DisplayedRow]) -> usize {
    rows.iter()
        .position(|r| r.class == RowClass::removed())
        .expect("the fixture removes a line")
}

fn caret(row: usize, column: u32) -> Caret {
    Caret { row, column }
}

#[test]
fn a_selection_within_one_line_reports_that_line() {
    let f = file();
    let r = rows(&f);
    let row = removed_row(&r);
    let selection = Selection {
        anchor: caret(row, 4),
        focus: caret(row, 7),
    };

    let spans = to_spans(&r, &f, &RenderOptions::default(), &selection);
    assert_eq!(spans.len(), 1);
    assert_eq!(spans[0].document, Document::before());
    assert_eq!(spans[0].line, 11);
}

#[test]
fn a_tab_makes_display_columns_and_source_offsets_differ() {
    // The tab occupies four columns and one character, so a selection starting at display
    // column 4 starts at source character 1.
    let f = file();
    let r = rows(&f);
    let row = removed_row(&r);
    let selection = Selection {
        anchor: caret(row, 4),
        focus: caret(row, 7),
    };

    let spans = to_spans(&r, &f, &RenderOptions::default(), &selection);
    assert_eq!(
        spans[0].extent,
        SourceCharExtent::Columns(1..4),
        "source characters, not columns"
    );
}

#[test]
fn a_selection_stops_at_a_gap() {
    let f = file();
    let r = rows(&f);
    // The fixture starts at line 10, so a leading gap row precedes the content.
    let gap = r
        .iter()
        .position(|row| row.class == RowClass::gap())
        .expect("the fixture hides the lines before the hunk");
    let first_content = gap + 1;

    let run = run_bounds(&r, first_content);
    assert_eq!(run.start, first_content, "the run begins after the gap");
    assert_eq!(
        clamp_to_run(&r, first_content, 0),
        first_content,
        "dragging back over the gap stops at it"
    );
}

#[test]
fn a_selection_cannot_start_on_a_gap() {
    let f = file();
    let r = rows(&f);
    let gap = r.iter().position(|row| row.class == RowClass::gap()).unwrap();
    assert!(run_bounds(&r, gap).is_empty());
}

#[test]
fn a_pane_names_unchanged_lines_by_its_own_side() {
    let f = file();
    let layout = build_split(&f, &RowOptions::default());
    let left = shown(&layout, &f, Pane::Left);
    let opts = RenderOptions::default();

    let context = left.iter().position(|r| r.class == RowClass::context()).unwrap();
    let spans = to_spans(
        &left,
        &f,
        &opts,
        &Selection {
            anchor: caret(context, 0),
            focus: caret(context, 5),
        },
    );

    assert_eq!(
        spans[0].document,
        Document::before(),
        "an unchanged line selected in the left pane is about the left file"
    );
}

#[test]
fn an_unchanged_line_is_named_by_the_right_file_inline() {
    let f = file();
    let r = rows(&f);
    let context = r.iter().position(|row| row.class == RowClass::context()).unwrap();
    let spans = to_spans(
        &r,
        &f,
        &RenderOptions::default(),
        &Selection {
            anchor: caret(context, 0),
            focus: caret(context, 5),
        },
    );

    assert_eq!(spans[0].document, Document::after());
}

#[test]
fn selecting_across_the_two_sides_reports_both() {
    // Inline puts removals above the additions that replaced them, so a drag through both
    // crosses from the left file to the right.
    let f = file();
    let r = rows(&f);
    let removed = r.iter().position(|row| row.class == RowClass::removed()).unwrap();
    let added = r.iter().position(|row| row.class == RowClass::added()).unwrap();

    let spans = to_spans(
        &r,
        &f,
        &RenderOptions::default(),
        &Selection {
            anchor: caret(removed, 2),
            focus: caret(added, 9),
        },
    );

    let sides: Vec<Document> = spans.iter().map(|s| s.document).collect();
    assert_eq!(sides, vec![Document::before(), Document::after()]);
}

#[test]
fn the_rows_between_the_two_ends_are_taken_whole() {
    let f = file();
    let r = rows(&f);
    let first = r.iter().position(|row| row.class == RowClass::context()).unwrap();
    let last = r.iter().rposition(|row| row.class == RowClass::context()).unwrap();
    assert!(last - first >= 3, "the fixture needs rows in the middle");

    let spans = to_spans(
        &r,
        &f,
        &RenderOptions::default(),
        &Selection {
            anchor: caret(first, 2),
            focus: caret(last, 1),
        },
    );

    assert_eq!(spans.len(), last - first + 1, "every row in the range contributes a span");

    for (offset, span) in spans.iter().enumerate().take(spans.len() - 1).skip(1) {
        assert_eq!(
            span.extent,
            SourceCharExtent::ToEnd { from: 0 },
            "row {offset} of the selection should be whole, ending included"
        );
    }
}

#[test]
fn only_the_last_row_of_a_selection_stops_inside_its_line() {
    let f = file();
    let r = rows(&f);
    let first = r.iter().position(|row| row.class == RowClass::context()).unwrap();
    let last = r.iter().rposition(|row| row.class == RowClass::context()).unwrap();

    let spans = to_spans(
        &r,
        &f,
        &RenderOptions::default(),
        &Selection {
            anchor: caret(first, 3),
            focus: caret(last, 1),
        },
    );

    assert_eq!(spans.first().unwrap().extent, SourceCharExtent::ToEnd { from: 3 });
    assert_eq!(spans.last().unwrap().extent, SourceCharExtent::Columns(0..1));
}

#[test]
fn a_selection_inside_one_line_never_takes_the_ending() {
    let f = file();
    let r = rows(&f);
    let row = removed_row(&r);

    let spans = to_spans(
        &r,
        &f,
        &RenderOptions::default(),
        &Selection {
            anchor: caret(row, 4),
            focus: caret(row, 7),
        },
    );

    assert!(matches!(spans[0].extent, SourceCharExtent::Columns(_)));
}

#[test]
fn a_backwards_drag_selects_the_same_range() {
    let f = file();
    let r = rows(&f);
    let opts = RenderOptions::default();
    let forwards = Selection {
        anchor: caret(1, 4),
        focus: caret(2, 9),
    };
    let backwards = Selection {
        anchor: caret(2, 9),
        focus: caret(1, 4),
    };

    assert_eq!(to_spans(&r, &f, &opts, &forwards), to_spans(&r, &f, &opts, &backwards));
}

#[test]
fn an_empty_selection_covers_nothing() {
    let f = file();
    let r = rows(&f);
    let at = caret(1, 4);
    assert!(to_spans(&r, &f, &RenderOptions::default(), &Selection::at(at)).is_empty());
    assert!(Selection::at(at).is_empty());
}

// == Further cases

#[test]
fn a_drag_past_the_last_row_stops_at_it() {
    let f = file();
    let r = rows(&f);
    let last = r.len() - 1;
    assert_eq!(clamp_to_run(&r, 1, 999), last);
    let spans = to_spans(
        &r,
        &f,
        &RenderOptions::default(),
        &Selection {
            anchor: caret(last, 0),
            focus: caret(999, 0),
        },
    );
    assert_eq!(spans.len(), 1, "the last row runs off its end");
    assert_eq!(spans[0].extent, SourceCharExtent::ToEnd { from: 0 });
}

#[test]
fn a_run_covers_the_rows_between_gaps() {
    let f = file();
    let r = rows(&f);
    assert_eq!(run_bounds(&r, 3), 1..r.len());
    assert_eq!(run_bounds(&r, r.len()), r.len()..r.len());
    assert_eq!(clamp_to_run(&r, 0, 4), 0, "a selection on a gap goes nowhere");
}

#[test]
fn a_selection_that_stops_where_it_starts_in_one_line_reports_nothing() {
    let f = file();
    let r = rows(&f);
    let row = removed_row(&r);
    // Columns 5 and 6 both fall on source characters past the tab, but the two carets differ
    // only in the column, within one character.
    let spans = to_spans(
        &r,
        &f,
        &RenderOptions::default(),
        &Selection {
            anchor: caret(row, 1),
            focus: caret(row, 3),
        },
    );
    assert!(spans.is_empty(), "both carets sit inside the tab");
}
