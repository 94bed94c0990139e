use std::ops::Range;

use fxv_diff_slint::diff::layout::{build_inline, build_split, GapState, Layout, RowOptions};
use fxv_diff_slint::diff::model::FileDiff;
use fxv_diff_slint::diff::parse::parse_unified_diff;
use fxv_diff_slint::diff::render::{render_diff, Pane};
use fxv_diff_slint::span::Document;
use fxv_diff_slint::text::{LineEnding, RenderOptions};
use fxv_diff_slint::view::model::{RowModel, WidgetRow};
use fxv_diff_slint::view::row::{
    Channel, DisplayColumnExtent, DisplayedRow, RowClass, RowKind, GUTTER_COLUMNS,
};

/// Real `git diff` output whose changed line begins with a tab, so display columns and source
/// character offsets genuinely differ.
const TAB_LINE: &str = "diff --git a/src/lib.rs b/src/lib.rs
index 3b18e51..a4c1f2d 100644
--- a/src/lib.rs
+++ b/src/lib.rs
@@ -10,4 +10,4 @@ pub fn render() {
 fn thing() {
-\tlet x = 1;
+\tlet renamed_value = 1;
     call(x);
 }
";

fn file() -> FileDiff {
    parse_unified_diff(TAB_LINE)
        .expect("the fixture should parse")
        .files
        .remove(0)
}

fn shown(layout: &Layout, file: &FileDiff, pane: Pane) -> Vec<DisplayedRow> {
    RowModel::from_rows(render_diff(layout, file, &RenderOptions::default(), pane))
        .rows()
        .to_vec()
}

fn kinds(rows: &[DisplayedRow]) -> Vec<RowClass> {
    rows.iter().map(|r| r.class).collect()
}

// == Rendering

#[test]
fn model_tabs_are_expanded_in_row_text() {
    let f = file();
    let rows = shown(&build_inline(&f, &RowOptions::default()), &f, Pane::Inline);
    let removed = rows.iter().find(|r| r.class == RowClass::removed()).unwrap();

    assert!(
        removed.text.starts_with("    "),
        "a leading tab reaches the next stop: {:?}",
        removed.text
    );
    assert!(!removed.text.contains('\t'));
}

#[test]
fn model_the_tab_width_flows_through_to_row_text() {
    let f = file();
    let layout = build_inline(&f, &RowOptions::default());
    let wide = RowModel::from_rows(render_diff(
        &layout,
        &f,
        &RenderOptions {
            tab_width: 8,
            ..RenderOptions::default()
        },
        Pane::Inline,
    ));
    let removed = wide
        .rows()
        .iter()
        .find(|r| r.class == RowClass::removed())
        .unwrap();

    assert!(removed.text.starts_with("        "), "eight columns");
}

#[test]
fn model_the_longest_line_is_measured_after_expansion() {
    let f = file();
    let layout = build_inline(&f, &RowOptions::default());
    let opts = RenderOptions::default();
    let model = RowModel::from_rows(render_diff(&layout, &f, &opts, Pane::Inline));

    let longest = model
        .rows()
        .iter()
        .map(|r| r.text.chars().count() as u32)
        .max()
        .unwrap();
    assert_eq!(
        model.longest_line_columns() as u32,
        longest,
        "the tab counts as the columns it reaches, not as one character"
    );
}

#[test]
fn model_a_split_is_sized_by_the_wider_of_its_two_panes() {
    let f = file();
    let layout = build_split(&f, &RowOptions::default());
    let opts = RenderOptions::default();

    let left = RowModel::from_rows(render_diff(&layout, &f, &opts, Pane::Left));
    let right = RowModel::from_rows(render_diff(&layout, &f, &opts, Pane::Right));

    assert!(
        right.longest_line_columns() > left.longest_line_columns(),
        "the fixture's widest line is an addition, so it is only on the right"
    );

    let widest = right
        .rows()
        .iter()
        .chain(left.rows())
        .map(|r| r.columns)
        .max()
        .unwrap() as i32;
    assert_eq!(
        left.longest_line_columns().max(right.longest_line_columns()),
        widest
    );
}

#[test]
fn model_an_empty_layout_measures_zero() {
    let f = file();
    assert_eq!(
        RowModel::from_rows(render_diff(
            &Layout::default(),
            &f,
            &RenderOptions::default(),
            Pane::Inline
        ))
        .longest_line_columns(),
        0
    );
}

// == Panes

#[test]
fn model_the_two_panes_of_a_split_are_always_the_same_length() {
    let f = file();
    let layout = build_split(&f, &RowOptions::default());
    assert_eq!(
        shown(&layout, &f, Pane::Left).len(),
        shown(&layout, &f, Pane::Right).len(),
        "one layout, so the panes cannot drift"
    );
}

#[test]
fn model_a_side_with_no_line_draws_as_a_filler() {
    let f = file();
    let layout = build_split(&f, &RowOptions::default());
    let right = shown(&layout, &f, Pane::Right);

    // The fixture removes one line and adds one, so the sides are even and nothing is a
    // filler; the removal and the addition sit opposite each other.
    assert!(
        !kinds(&right).contains(&RowClass::filler()),
        "an even change needs no padding"
    );
    assert!(kinds(&right).contains(&RowClass::added()));
}

#[test]
fn model_an_inline_pane_numbers_both_columns_of_an_unchanged_line() {
    let f = file();
    let rows = shown(&build_inline(&f, &RowOptions::default()), &f, Pane::Inline);
    let context = rows.iter().find(|r| r.class == RowClass::context()).unwrap();

    assert!(
        context.numbers[0].is_some() && context.numbers[1].is_some(),
        "an unchanged line has a number in each file"
    );
}

#[test]
fn model_a_split_pane_numbers_one_column() {
    let f = file();
    let layout = build_split(&f, &RowOptions::default());
    for pane in [Pane::Left, Pane::Right] {
        let rows = shown(&layout, &f, pane);
        assert!(
            rows.iter().all(|r| r.numbers[1].is_none()),
            "a pane showing one file fills one column"
        );
    }
}

#[test]
fn model_a_pane_names_an_unchanged_line_by_its_own_file() {
    let f = file();
    let layout = build_split(&f, &RowOptions::default());

    let left = shown(&layout, &f, Pane::Left);
    let context = left.iter().find(|r| r.class == RowClass::context()).unwrap();
    assert_eq!(context.id.unwrap().0, Document::before());

    let right = shown(&layout, &f, Pane::Right);
    let context = right.iter().find(|r| r.class == RowClass::context()).unwrap();
    assert_eq!(context.id.unwrap().0, Document::after());
}

#[test]
fn model_only_rows_standing_for_a_line_are_selectable() {
    let f = file();
    let rows = shown(&build_inline(&f, &RowOptions::default()), &f, Pane::Inline);

    for row in &rows {
        if row.class == RowClass::gap()
            || row.class == RowClass::header()
            || row.class == RowClass::filler()
        {
            assert!(!row.selectable, "{:?} is not part of a selection", row.class);
            assert!(row.source.is_none());
        } else {
            assert!(row.selectable);
            assert!(row.source.is_some());
        }
    }
}

#[test]
fn model_a_gap_carries_what_it_needs_to_be_opened() {
    let f = file();
    let rows = shown(&build_inline(&f, &RowOptions::default()), &f, Pane::Inline);
    let gap = rows.iter().find(|r| r.class == RowClass::gap()).unwrap();
    let g = gap.gap.as_ref().unwrap();

    assert!(g.hidden > 0);
    assert_eq!((g.left_start, g.right_start), (1, 1), "the hidden run starts at line one");
}

// == Handing rows to the widget

#[test]
fn model_a_missing_line_number_becomes_zero() {
    let f = file();
    let rows = shown(&build_inline(&f, &RowOptions::default()), &f, Pane::Inline);
    let added = rows.iter().find(|r| r.class == RowClass::added()).unwrap();
    let converted = WidgetRow::of(added);

    assert_eq!(converted.left_line, 0, "absent in the left file");
    assert!(converted.right_line > 0);
}

#[test]
fn model_a_gap_hands_over_where_its_hidden_run_starts() {
    // The two number fields carry the start, because a gap draws no numbers and opening one
    // has to say which lines to ask for.
    let f = file();
    let rows = shown(&build_inline(&f, &RowOptions::default()), &f, Pane::Inline);
    let gap = rows.iter().find(|r| r.class == RowClass::gap()).unwrap();
    let converted = WidgetRow::of(gap);
    let g = gap.gap.as_ref().unwrap();

    assert_eq!(
        (converted.left_line as u32, converted.right_line as u32),
        (g.left_start, g.right_start)
    );
    assert!(converted.left_line > 0, "a real line to fetch from");
}

#[test]
fn model_a_gap_hands_over_its_note_rather_than_its_text() {
    let f = file();
    let rows = shown(&build_inline(&f, &RowOptions::default()), &f, Pane::Inline);
    let gap = rows.iter().find(|r| r.class == RowClass::gap()).unwrap();

    assert_eq!(WidgetRow::of(gap).text, gap.gap.as_ref().unwrap().note);
}

#[test]
fn every_kind_has_a_counterpart() {
    let expected = [
        (RowKind::Header, RowClass::header()),
        (RowKind::Context, RowClass::context()),
        (RowKind::Added, RowClass::added()),
        (RowKind::Removed, RowClass::removed()),
        (RowKind::Gap, RowClass::gap()),
        (RowKind::Filler, RowClass::filler()),
    ];
    for (kind, class) in expected {
        // Converting must not panic, and lands on the class the diff draws that kind with.
        assert_eq!(RowClass::from(kind), class);
    }
    assert!(expected.iter().all(|(_, c)| *c < RowClass::first_free()));
}

// == Highlights

fn mark(row: usize, columns: Range<u32>) -> (usize, DisplayColumnExtent) {
    (row, DisplayColumnExtent::Columns(columns))
}

fn model() -> RowModel {
    let f = file();
    let layout = build_inline(&f, &RowOptions::default());
    RowModel::from_rows(render_diff(&layout, &f, &RenderOptions::default(), Pane::Inline))
}

#[test]
fn model_a_row_whose_highlights_did_not_change_is_not_written_again() {
    let mut view = model();
    let same = vec![mark(1, 0..3), mark(3, 1..2)];

    assert_eq!(view.set_channel(Channel::marked(), &same), 2, "both rows once");
    assert_eq!(view.set_channel(Channel::marked(), &same), 0, "not again");
}

#[test]
fn model_only_the_rows_that_changed_are_written() {
    let mut view = model();
    view.set_channel(Channel::marked(), &[mark(1, 0..3), mark(3, 1..2)]);

    // Row 1 keeps exactly what it had; row 3's range moves.
    let written = view.set_channel(Channel::marked(), &[mark(1, 0..3), mark(3, 4..6)]);

    assert_eq!(written, 1, "only the row that moved");
}

#[test]
fn model_a_row_that_loses_its_highlights_is_cleared() {
    let mut view = model();
    view.set_channel(Channel::marked(), &[mark(2, 0..3)]);

    assert_eq!(view.set_channel(Channel::marked(), &[]), 1, "cleared, once");
    assert_eq!(view.drawn(2).unwrap().len(), 0);
}

#[test]
fn setting_one_channel_leaves_another_channels_rows_alone() {
    let mut view = model();
    view.set_channel(Channel::selection(), &[mark(1, 0..3)]);
    view.set_channel(Channel::marked(), &[mark(3, 0..3)]);

    let written = view.set_channel(Channel::marked(), &[mark(3, 4..6)]);

    assert_eq!(written, 1, "row 3 only; row 1 carries a different channel");
}

#[test]
fn a_row_carrying_two_channels_draws_both() {
    let mut view = model();
    view.set_channel(Channel::selection(), &[mark(1, 0..3)]);
    view.set_channel(Channel::marked(), &[mark(1, 5..7)]);

    let drawn = view.drawn(1).unwrap();
    assert_eq!(drawn.len(), 2, "one range from each channel");
    // Ascending channel order, so a higher channel paints over a lower one.
    assert_eq!(drawn[0].channel, Channel::selection());
    assert_eq!(drawn[1].channel, Channel::marked());
}

#[test]
fn clearing_one_channel_leaves_the_other_drawn() {
    let mut view = model();
    view.set_channel(Channel::selection(), &[mark(1, 0..3)]);
    view.set_channel(Channel::marked(), &[mark(1, 5..7)]);

    view.set_channel(Channel::selection(), &[]);

    let drawn = view.drawn(1).unwrap();
    assert_eq!(drawn.len(), 1, "the mark survives the selection going");
    assert_eq!(drawn[0].channel, Channel::marked());
}

#[test]
fn a_line_resolves_to_the_row_showing_it() {
    let view = model();
    let row = view
        .rows()
        .iter()
        .position(|r| r.id.is_some())
        .expect("the fixture shows some lines");
    let (side, line) = view.rows()[row].id.unwrap();

    assert_eq!(view.row_of(side, line), Some(row));
}

// == Further cases

#[test]
fn ranges_naming_rows_that_are_not_there_are_dropped() {
    let mut view = model();
    let rows = view.rows().len();
    assert_eq!(view.set_channel(Channel::marked(), &[mark(rows, 0..3)]), 0);
    assert_eq!(view.drawn(rows), None);
}

#[test]
fn ranges_on_one_row_keep_the_order_they_were_given_in() {
    let mut view = model();
    view.set_channel(Channel::marked(), &[mark(1, 5..7), mark(4, 0..1), mark(1, 0..2)]);
    let drawn = view.drawn(1).unwrap();
    assert_eq!(drawn.len(), 2);
    assert_eq!(drawn[0].extent, DisplayColumnExtent::Columns(5..7));
    assert_eq!(drawn[1].extent, DisplayColumnExtent::Columns(0..2));
}

#[test]
fn the_first_row_showing_a_line_wins() {
    let rows = vec![
        DisplayedRow::line(7, Document::only(), "a", LineEnding::Lf, &RenderOptions::default()),
        DisplayedRow::line(7, Document::only(), "a", LineEnding::Lf, &RenderOptions::default()),
    ];
    let view = RowModel::from_rows(rows);
    assert_eq!(view.row_of(Document::only(), 7), Some(0));
    assert_eq!(view.row_of(Document::only(), 8), None);
    assert_eq!(view.row_of(Document::before(), 7), Some(0), "one document is numbered zero");
}

#[test]
fn runs_of_selectable_rows_stop_at_unselectable_ones() {
    let opts = RenderOptions::default();
    let rows = vec![
        DisplayedRow::line(1, Document::only(), "a", LineEnding::Lf, &opts),
        DisplayedRow::line(2, Document::only(), "b", LineEnding::Lf, &opts),
        DisplayedRow::blank(RowClass::gap()),
        DisplayedRow::line(9, Document::only(), "c", LineEnding::Lf, &opts),
    ];
    let view = RowModel::from_rows(rows);
    let runs: Vec<Range<u32>> = view.rows().iter().map(|r| r.selectable_run.clone()).collect();
    assert_eq!(runs, vec![0..2, 0..2, 0..0, 3..4]);
}

#[test]
fn a_plain_line_is_numbered_and_selectable() {
    let row = DisplayedRow::line(
        3,
        Document::only(),
        "\tx",
        LineEnding::CrLf,
        &RenderOptions {
            show_line_endings: true,
            ..RenderOptions::default()
        },
    );
    assert_eq!(row.class, RowClass::context());
    assert_eq!(row.numbers, [Some(3), None]);
    assert_eq!(row.numbers.len(), GUTTER_COLUMNS);
    assert_eq!(row.id, Some((Document::only(), 3)));
    assert_eq!(row.text, "    x\u{21b5}\u{00b6}");
    assert_eq!(row.columns, 7);
    assert!(row.selectable && row.numbered && !row.full_width);
}

#[test]
fn a_blank_row_has_nothing_set() {
    let row = DisplayedRow::blank(RowClass::filler());
    assert_eq!(row.class, RowClass::filler());
    assert!(!row.selectable && !row.numbered && !row.full_width);
    assert_eq!(row.numbers, [None, None]);
    assert!(row.text.is_empty() && row.gap.is_none() && row.source.is_none());
}

#[test]
fn a_header_names_the_file_across_the_gutter() {
    let f = file();
    let layout = build_inline(
        &f,
        &RowOptions {
            include_file_header: true,
            ..RowOptions::default()
        },
    );
    let rows = shown(&layout, &f, Pane::Inline);
    assert_eq!(rows[0].class, RowClass::header());
    assert_eq!(rows[0].text, "src/lib.rs");
    assert_eq!(rows[0].columns, 10);
    assert!(rows[0].full_width && !rows[0].selectable);
}

#[test]
fn a_failed_gap_explains_itself_in_its_note() {
    let mut f = file();
    f.fetch_failed(1, 9, "no such revision".to_owned());
    let rows = shown(&build_inline(&f, &RowOptions::default()), &f, Pane::Inline);
    let gap = rows[0].gap.as_ref().unwrap();
    assert_eq!(gap.state, GapState::Failed);
    assert_eq!(gap.note, "no such revision");
    let converted = WidgetRow::of(&rows[0]);
    assert_eq!(converted.gap_state, GapState::Failed);
    assert_eq!(converted.hidden_count, 9);
    assert_eq!((converted.busy_start, converted.busy_count), (0, 0));
}
