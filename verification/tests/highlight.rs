use fxv_diff_slint::diff::layout::{build_inline, RowOptions};
use fxv_diff_slint::diff::model::FileDiff;
use fxv_diff_slint::diff::parse::parse_unified_diff;
use fxv_diff_slint::diff::render::{render_diff, DiffPane};
use fxv_diff_slint::highlight::to_highlights;
use fxv_diff_slint::selection::{to_spans, Caret, Selection};
use fxv_diff_slint::span::{Document, LineSpan, SourceCharExtent};
use fxv_diff_slint::text::RenderOptions;
use fxv_diff_slint::view::model::RowModel;
use fxv_diff_slint::view::row::{DisplayColumnExtent, DisplayedRow, RowClass};

const TAB_LINE: &str = "diff --git a/src/lib.rs b/src/lib.rs
index 3b18e51..a4c1f2d 100644
--- a/src/lib.rs
+++ b/src/lib.rs
@@ -10,4 +10,4 @@ pub fn render() {
 fn thing() {
-\tlet x = 1;
+\tlet renamed_value = 1;
     call(x);
 }
";

fn file() -> FileDiff {
    parse_unified_diff(TAB_LINE)
        .expect("the fixture should parse")
        .files
        .remove(0)
}

fn inline_view(file: &FileDiff) -> RowModel {
    let layout = build_inline(file, &RowOptions::default());
    RowModel::from_rows(render_diff(&layout, file, &RenderOptions::default(), DiffPane::Inline))
}

fn rows(file: &FileDiff) -> Vec<DisplayedRow> {
    inline_view(file).rows().to_vec()
}

fn removed_row(rows: &[DisplayedRow]) -> usize {
    rows.iter()
        .position(|r| r.class == RowClass::removed())
        .expect("the fixture removes a line")
}

fn caret(row: usize, column: u32) -> Caret {
    Caret { row, column }
}

#[test]
fn a_selection_that_survives_a_round_trip_draws_in_the_same_place() {
    let f = file();
    let r = rows(&f);
    let opts = RenderOptions::default();
    let selection = Selection {
        anchor: caret(1, 4),
        focus: caret(2, 9),
    };

    let stored = to_spans(&r, &f, &opts, &selection);
    let v = inline_view(&f);
    let drawn_live = to_highlights(&v, &f, &opts, &stored);
    let drawn_again = to_highlights(&v, &f, &opts, &stored);

    assert!(!drawn_live.is_empty(), "the fixture should select something");
    assert_eq!(drawn_live, drawn_again);
    let drawn_rows: Vec<usize> = drawn_live.iter().map(|(row, _)| *row).collect();
    assert_eq!(drawn_rows, vec![1, 2], "the rows the selection was made on");
}

#[test]
fn a_stored_span_survives_the_rows_being_drawn_differently() {
    let f = file();
    let layout = build_inline(&f, &RowOptions::default());
    let plain = RenderOptions::default();
    let visible = RenderOptions {
        show_space_tabs: true,
        ..RenderOptions::default()
    };

    let before = RowModel::from_rows(render_diff(&layout, &f, &plain, DiffPane::Inline))
        .rows()
        .to_vec();
    let row = removed_row(&before);
    let spans = to_spans(
        &before,
        &f,
        &plain,
        &Selection {
            anchor: caret(row, 4),
            focus: caret(row, 7),
        },
    );

    let after = RowModel::from_rows(render_diff(&layout, &f, &visible, DiffPane::Inline));
    let drawn = to_highlights(&after, &f, &visible, &spans);

    assert_eq!(drawn.len(), 1, "the span still names a line that is on screen");
    assert_eq!(drawn[0].0, row, "and the same row");
}

#[test]
fn a_span_naming_a_line_that_is_not_shown_is_dropped() {
    let f = file();
    let spans = vec![LineSpan {
        document: Document::after(),
        line: 9999,
        extent: SourceCharExtent::Columns(0..3),
    }];

    let drawn = to_highlights(&inline_view(&f), &f, &RenderOptions::default(), &spans);
    assert!(drawn.is_empty(), "a line inside a gap is not an error");
}

#[test]
fn a_covered_line_ending_converts_to_a_run_with_no_end() {
    // A tab still shifts where the run starts, so the conversion is a real one rather than a
    // pass-through of the source offset.
    let f = file();
    let r = rows(&f);
    let row = removed_row(&r);
    let opts = RenderOptions::default();

    let spans = vec![LineSpan {
        document: Document::before(),
        line: 11,
        extent: SourceCharExtent::ToEnd { from: 1 },
    }];
    let drawn = to_highlights(&inline_view(&f), &f, &opts, &spans);

    assert_eq!(drawn.len(), 1);
    assert_eq!(drawn[0].0, row);
    assert_eq!(
        drawn[0].1,
        DisplayColumnExtent::ToEnd { from: 4 },
        "source character 1 sits at display column 4, past the tab"
    );
}

#[test]
fn a_span_of_source_characters_lands_on_the_columns_that_draw_them() {
    let f = file();
    let r = rows(&f);
    let row = removed_row(&r);
    let spans = vec![LineSpan {
        document: Document::before(),
        line: 11,
        extent: SourceCharExtent::Columns(0..2),
    }];
    let drawn = to_highlights(&inline_view(&f), &f, &RenderOptions::default(), &spans);
    assert_eq!(drawn, vec![(row, DisplayColumnExtent::Columns(0..5))]);
}

#[test]
fn a_span_covering_no_characters_draws_nothing() {
    let f = file();
    let spans = vec![LineSpan {
        document: Document::before(),
        line: 11,
        extent: SourceCharExtent::Columns(2..2),
    }];
    let drawn = to_highlights(&inline_view(&f), &f, &RenderOptions::default(), &spans);
    assert!(drawn.is_empty());
}
