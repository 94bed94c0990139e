//! A file laid out and then drawn: the rows a pane ends up holding, built the way a host builds
//! them, through a layout and `RowModel::new`.

use fxv_diff_slint::diff::layout::{build_inline, build_split, GapState, RowOptions};
use fxv_diff_slint::diff::model::{
    DiffLine, FileChange, FileContent, FileDiff, Hunk, LineKind, LineOrigin,
};
use fxv_diff_slint::diff::render::Pane;
use fxv_diff_slint::text::{LineEnding, RenderOptions};
use fxv_diff_slint::view::model::RowModel;
use fxv_diff_slint::view::row::{DisplayedRow, RowClass};

fn line(kind: LineKind, left: Option<u32>, right: Option<u32>, text: &str) -> DiffLine {
    DiffLine {
        kind,
        text: text.to_owned(),
        left_line: left,
        right_line: right,
        line_ending: LineEnding::Lf,
        origin: LineOrigin::Diff,
    }
}

fn file(hunks: Vec<Hunk>) -> FileDiff {
    FileDiff {
        left_path: Some("f.rs".into()),
        right_path: Some("f.rs".into()),
        change: FileChange::Modified,
        left_mode: None,
        right_mode: None,
        content: FileContent::Text { hunks },
        fetches: Vec::new(),
    }
}

/// A hunk replacing `removed` lines with `added` lines, wrapped in one line of context on each
/// side, starting at `start` on both sides. It covers `removed.len() + 2` lines on the left and
/// `added.len() + 2` on the right.
fn change_hunk(start: u32, removed: &[&str], added: &[&str]) -> Hunk {
    let mut lines = vec![line(LineKind::Context, Some(start), Some(start), "context before")];
    for (i, text) in removed.iter().enumerate() {
        lines.push(line(LineKind::Removed, Some(start + 1 + i as u32), None, text));
    }
    for (i, text) in added.iter().enumerate() {
        lines.push(line(LineKind::Added, None, Some(start + 1 + i as u32), text));
    }
    lines.push(line(
        LineKind::Context,
        Some(start + 1 + removed.len() as u32),
        Some(start + 1 + added.len() as u32),
        "context after",
    ));
    Hunk {
        left_start: start,
        left_len: 2 + removed.len() as u32,
        right_start: start,
        right_len: 2 + added.len() as u32,
        heading: None,
        lines,
    }
}

/// A file whose first hunk starts at line 10, so lines 1 to 9 are hidden.
fn file_with_leading_gap() -> FileDiff {
    file(vec![change_hunk(10, &["old"], &["new"])])
}

fn strings(texts: &[&str]) -> Vec<String> {
    texts.iter().map(|s| (*s).to_owned()).collect()
}

/// The inline pane of a file, drawn with the given options.
fn inline_with(f: &FileDiff, opts: &RowOptions, render: &RenderOptions) -> RowModel {
    RowModel::new(&build_inline(f, opts), f, render, Pane::Inline)
}

fn inline(f: &FileDiff, opts: &RowOptions) -> RowModel {
    inline_with(f, opts, &RenderOptions::default())
}

/// Both panes of a side-by-side view.
fn split(f: &FileDiff, opts: &RowOptions) -> (RowModel, RowModel) {
    let layout = build_split(f, opts);
    let render = RenderOptions::default();
    (
        RowModel::new(&layout, f, &render, Pane::Left),
        RowModel::new(&layout, f, &render, Pane::Right),
    )
}

fn kinds(rows: &[DisplayedRow]) -> Vec<RowClass> {
    rows.iter().map(|r| r.class).collect()
}

fn gaps(rows: &[DisplayedRow]) -> Vec<&DisplayedRow> {
    rows.iter().filter(|r| r.class == RowClass::gap()).collect()
}

fn hidden(row: &DisplayedRow) -> u32 {
    row.gap.as_ref().expect("a gap row").hidden
}

fn note(row: &DisplayedRow) -> &str {
    row.gap.as_ref().expect("a gap row").note.as_str()
}

fn gap_state(row: &DisplayedRow) -> GapState {
    row.gap.as_ref().map_or(GapState::Hidden, |g| g.state)
}

/// Where a gap's hidden run starts, on the left and on the right.
fn starts(row: &DisplayedRow) -> (u32, u32) {
    let g = row.gap.as_ref().expect("a gap row");
    (g.left_start, g.right_start)
}

fn numbers(row: &DisplayedRow) -> (Option<u32>, Option<u32>) {
    (row.numbers[0], row.numbers[1])
}

// == Inline

#[test]
fn inline_keeps_diff_order_with_removals_above_additions() {
    let f = file(vec![change_hunk(1, &["old"], &["new"])]);
    let model = inline(&f, &RowOptions::default());
    assert_eq!(
        kinds(model.rows()),
        vec![RowClass::context(), RowClass::removed(), RowClass::added(), RowClass::context()]
    );
}

#[test]
fn inline_carries_the_line_numbers_through() {
    let f = file(vec![change_hunk(1, &["old"], &["new"])]);
    let model = inline(&f, &RowOptions::default());
    let pairs: Vec<_> = model.rows().iter().map(numbers).collect();
    assert_eq!(
        pairs,
        vec![(Some(1), Some(1)), (Some(2), None), (None, Some(2)), (Some(3), Some(3))]
    );
}

#[test]
fn rows_a_file_header_is_opt_in() {
    let f = file(vec![change_hunk(1, &["a"], &["b"])]);

    let without = inline(&f, &RowOptions::default());
    assert_ne!(without.rows()[0].class, RowClass::header());

    let with = inline(&f, &RowOptions { include_file_header: true, ..Default::default() });
    assert_eq!(with.rows()[0].class, RowClass::header());
    assert_eq!(with.rows()[0].text, "f.rs");
}

// == Gaps

#[test]
fn rows_a_hunk_that_does_not_start_at_line_one_is_preceded_by_a_gap() {
    let f = file(vec![change_hunk(10, &["old"], &["new"])]);
    let model = inline(&f, &RowOptions::default());
    let first = &model.rows()[0];

    assert_eq!(first.class, RowClass::gap());
    assert_eq!(hidden(first), 9, "lines 1 to 9 are hidden");
    assert_eq!(starts(first), (1, 1));
}

#[test]
fn rows_a_hunk_starting_at_line_one_has_no_gap_before_it() {
    let f = file(vec![change_hunk(1, &["old"], &["new"])]);
    let model = inline(&f, &RowOptions::default());
    assert_ne!(model.rows()[0].class, RowClass::gap());
}

#[test]
fn rows_the_lines_between_two_hunks_become_a_gap() {
    // The first hunk covers 1 to 3, the second starts at 20, so 4 to 19 are hidden.
    let f = file(vec![change_hunk(1, &["a"], &["b"]), change_hunk(20, &["c"], &["d"])]);
    let model = inline(&f, &RowOptions::default());

    let gaps = gaps(model.rows());
    assert_eq!(gaps.len(), 1);
    assert_eq!(hidden(gaps[0]), 16);
    assert_eq!(starts(gaps[0]).0, 4);
}

#[test]
fn rows_adjacent_hunks_produce_no_gap() {
    // The first hunk covers 1 to 3; the second starts immediately after.
    let f = file(vec![change_hunk(1, &["a"], &["b"]), change_hunk(4, &["c"], &["d"])]);
    let model = inline(&f, &RowOptions::default());
    assert!(gaps(model.rows()).is_empty());
}

#[test]
fn rows_a_trailing_gap_needs_the_file_length_to_be_known() {
    let f = file(vec![change_hunk(1, &["a"], &["b"])]);

    // Without totals there is no way to tell whether anything follows the last hunk.
    let unknown = inline(&f, &RowOptions::default());
    assert!(gaps(unknown.rows()).is_empty());

    // The hunk covers 1 to 3, so lines 4 to 30 remain.
    let known = inline(
        &f,
        &RowOptions {
            left_total_lines: Some(30),
            right_total_lines: Some(30),
            ..Default::default()
        },
    );
    let last = known.rows().last().unwrap();
    assert_eq!(last.class, RowClass::gap());
    assert_eq!(hidden(last), 27);
    assert_eq!(starts(last).0, 4);
}

#[test]
fn rows_a_hunk_reaching_the_end_of_the_file_has_no_trailing_gap() {
    let f = file(vec![change_hunk(1, &["a"], &["b"])]);
    let model = inline(
        &f,
        &RowOptions { left_total_lines: Some(3), right_total_lines: Some(3), ..Default::default() },
    );
    assert!(gaps(model.rows()).is_empty());
}

#[test]
fn rows_supplied_lines_replace_the_part_of_a_gap_they_cover() {
    let mut f = file_with_leading_gap();
    // Open the first three of the nine hidden lines.
    f.expand(1, 1, strings(&["one", "two", "three"]));

    let model = inline(&f, &RowOptions::default());
    let rows = model.rows();
    assert_eq!(
        kinds(rows)[..5],
        [
            RowClass::context(),
            RowClass::context(),
            RowClass::context(),
            RowClass::gap(),
            RowClass::context(),
        ]
    );
    assert_eq!(rows[0].text, "one");
    assert_eq!(rows[2].text, "three");

    // What is left keeps its own numbering and count.
    assert_eq!(hidden(&rows[3]), 6, "nine hidden less the three opened");
    assert_eq!(starts(&rows[3]), (4, 4));
}

#[test]
fn rows_a_gap_can_be_opened_from_the_far_end() {
    let mut f = file_with_leading_gap();
    // The last three of lines 1 to 9.
    f.expand(7, 7, strings(&["seven", "eight", "nine"]));

    let model = inline(&f, &RowOptions::default());
    let rows = model.rows();
    assert_eq!(rows[0].class, RowClass::gap());
    assert_eq!(hidden(&rows[0]), 6);
    assert_eq!(starts(&rows[0]).0, 1);
    assert_eq!(rows[1].text, "seven");
    assert_eq!(rows[3].text, "nine");
}

#[test]
fn rows_opening_the_middle_of_a_gap_leaves_one_on_each_side() {
    let mut f = file_with_leading_gap();
    f.expand(4, 4, strings(&["four", "five"]));

    let model = inline(&f, &RowOptions::default());
    let rows = model.rows();
    assert_eq!(
        kinds(rows)[..4],
        [RowClass::gap(), RowClass::context(), RowClass::context(), RowClass::gap()]
    );
    assert_eq!(hidden(&rows[0]), 3, "lines 1 to 3");
    assert_eq!(hidden(&rows[3]), 4, "lines 6 to 9");
    assert_eq!(starts(&rows[3]).0, 6);
}

#[test]
fn rows_a_fully_opened_gap_leaves_none() {
    let mut f = file_with_leading_gap();
    f.expand(1, 1, (1..=9).map(|n| format!("line {n}")).collect());

    let model = inline(&f, &RowOptions::default());
    let rows = model.rows();
    assert!(gaps(rows).is_empty());
    assert_eq!(rows[0].text, "line 1");
    assert_eq!(rows[8].text, "line 9");
}

#[test]
fn opened_lines_are_rendered_like_any_other() {
    let mut f = file_with_leading_gap();
    f.expand(1, 1, strings(&["\tindented"]));

    let model = inline(&f, &RowOptions::default());
    assert_eq!(model.rows()[0].text, "    indented", "tabs expanded");
    assert_eq!(model.rows()[0].columns, 12);
}

#[test]
fn opening_a_gap_can_widen_the_longest_line() {
    let mut f = file_with_leading_gap();
    let before = inline(&f, &RowOptions::default()).longest_line_columns();

    f.expand(1, 1, vec!["x".repeat(200)]);
    let after = inline(&f, &RowOptions::default()).longest_line_columns();

    assert_eq!(after, 200, "the opened line is now the longest");
    assert!(after > before);
}

#[test]
fn the_heading_stays_on_the_stretch_nearest_its_hunk() {
    let mut hunk = change_hunk(10, &["old"], &["new"]);
    hunk.heading = Some("impl Store {".into());
    let mut f = file(vec![hunk]);
    // Open the top of the gap, so a hidden stretch still sits against the hunk.
    f.expand(1, 1, strings(&["one"]));

    let model = inline(&f, &RowOptions::default());
    let gaps = gaps(model.rows());
    assert_eq!(gaps.len(), 1);
    assert_eq!(note(gaps[0]), "impl Store {");
}

#[test]
fn side_by_side_opens_a_gap_on_both_panes_together() {
    let mut f = file_with_leading_gap();
    f.expand(1, 1, strings(&["one", "two"]));

    let (left, right) = split(&f, &RowOptions::default());
    assert_eq!(left.rows().len(), right.rows().len());
    assert_eq!(left.rows()[0].text, "one");
    assert_eq!(right.rows()[0].text, "one");
    assert_eq!(left.rows()[2].class, RowClass::gap());
    assert_eq!(right.rows()[2].class, RowClass::gap());
}

#[test]
fn rows_lines_far_from_any_hunk_become_a_hunk_of_their_own() {
    let mut f = file_with_leading_gap();
    // Line 40 is nowhere near the hidden range; the caller said to show it, so it is shown,
    // with the distance to it left as a gap like any other.
    f.expand(40, 40, strings(&["stray"]));

    let model = inline(&f, &RowOptions::default());
    assert!(model.rows().iter().any(|r| r.text == "stray"));

    let counts: Vec<u32> = gaps(model.rows()).into_iter().map(hidden).collect();
    assert_eq!(counts, vec![9, 27], "before the first hunk, and before line 40");
}

#[test]
fn rows_asking_twice_for_the_same_lines_changes_nothing() {
    let mut f = file_with_leading_gap();
    f.expand(1, 1, strings(&["one", "two"]));
    let once = inline(&f, &RowOptions::default()).rows().to_vec();

    f.expand(1, 1, strings(&["one", "two"]));
    let twice = inline(&f, &RowOptions::default()).rows().to_vec();

    assert_eq!(once, twice);
}

#[test]
fn rows_opening_the_whole_gap_merges_the_hunks_it_separated() {
    // Two hunks with sixteen hidden lines between them.
    let mut f = file(vec![change_hunk(1, &["a"], &["b"]), change_hunk(20, &["c"], &["d"])]);
    assert_eq!(f.hunks().len(), 2);

    f.expand(4, 4, (4..20).map(|n| format!("line {n}")).collect());

    assert_eq!(f.hunks().len(), 1, "nothing separates them any more");
    let model = inline(&f, &RowOptions::default());
    assert!(gaps(model.rows()).is_empty());
}

#[test]
fn a_gap_shows_the_heading_of_the_hunk_it_precedes() {
    let mut hunk = change_hunk(10, &["old"], &["new"]);
    hunk.heading = Some("impl Store {".into());
    let model = inline(&file(vec![hunk]), &RowOptions::default());
    assert_eq!(note(&model.rows()[0]), "impl Store {");
}

#[test]
fn a_file_with_no_hunks_produces_no_rows_and_no_gap() {
    let f = file(vec![]);
    let model = inline(&f, &RowOptions { left_total_lines: Some(100), ..Default::default() });
    assert!(model.rows().is_empty(), "got {:?}", model.rows());
}

#[test]
fn rows_an_added_file_has_no_leading_gap_despite_its_zero_left_numbers() {
    // Git writes `@@ -0,0 +1,2 @@` for a file that did not exist before.
    let hunk = Hunk {
        left_start: 0,
        left_len: 0,
        right_start: 1,
        right_len: 2,
        heading: None,
        lines: vec![
            line(LineKind::Added, None, Some(1), "one"),
            line(LineKind::Added, None, Some(2), "two"),
        ],
    };
    let model = inline(&file(vec![hunk]), &RowOptions::default());
    assert_eq!(kinds(model.rows()), vec![RowClass::added(), RowClass::added()]);
}

// == Side by side

#[test]
fn side_by_side_panes_always_have_the_same_length() {
    let f = file(vec![change_hunk(1, &["a", "b", "c"], &["x"])]);
    let (left, right) = split(&f, &RowOptions::default());
    assert_eq!(left.rows().len(), right.rows().len());
}

#[test]
fn side_by_side_puts_context_on_both_sides() {
    let f = file(vec![change_hunk(1, &["old"], &["new"])]);
    let (left, right) = split(&f, &RowOptions::default());
    assert_eq!(left.rows()[0].class, RowClass::context());
    assert_eq!(right.rows()[0].class, RowClass::context());
    assert_eq!(left.rows()[0].text, right.rows()[0].text);
}

#[test]
fn side_by_side_places_a_replacement_opposite_what_it_replaced() {
    let f = file(vec![change_hunk(1, &["old"], &["new"])]);
    let (left, right) = split(&f, &RowOptions::default());

    assert_eq!(left.rows()[1].class, RowClass::removed());
    assert_eq!(left.rows()[1].text, "old");
    assert_eq!(right.rows()[1].class, RowClass::added());
    assert_eq!(right.rows()[1].text, "new");
}

#[test]
fn side_by_side_pads_the_shorter_side_of_an_uneven_change() {
    // Three lines replaced by five: the left side needs two fillers.
    let f = file(vec![change_hunk(1, &["a", "b", "c"], &["v", "w", "x", "y", "z"])]);
    let (left, right) = split(&f, &RowOptions::default());

    assert_eq!(
        kinds(left.rows()),
        vec![
            RowClass::context(),
            RowClass::removed(),
            RowClass::removed(),
            RowClass::removed(),
            RowClass::filler(),
            RowClass::filler(),
            RowClass::context(),
        ]
    );
    assert_eq!(
        kinds(right.rows()),
        vec![
            RowClass::context(),
            RowClass::added(),
            RowClass::added(),
            RowClass::added(),
            RowClass::added(),
            RowClass::added(),
            RowClass::context(),
        ]
    );
}

#[test]
fn a_pure_deletion_faces_fillers() {
    let f = file(vec![change_hunk(1, &["a", "b"], &[])]);
    let (_, right) = split(&f, &RowOptions::default());
    assert_eq!(
        kinds(right.rows()),
        vec![RowClass::context(), RowClass::filler(), RowClass::filler(), RowClass::context()]
    );
    assert!(right.rows()[1].text.is_empty());
    assert_eq!(numbers(&right.rows()[1]), (None, None));
}

#[test]
fn side_by_side_repeats_a_gap_on_both_sides_to_stay_aligned() {
    let f = file(vec![change_hunk(10, &["old"], &["new"])]);
    let (left, right) = split(&f, &RowOptions::default());
    assert_eq!(left.rows()[0].class, RowClass::gap());
    assert_eq!(right.rows()[0].class, RowClass::gap());
    assert_eq!(hidden(&left.rows()[0]), hidden(&right.rows()[0]));
}

// == Text handling

#[test]
fn a_row_can_find_the_line_it_was_rendered_from() {
    let f = file(vec![change_hunk(1, &["\tremoved"], &["\tadded"])]);
    let model = inline(&f, &RowOptions::default());

    for row in model.rows() {
        let Some(at) = row.source else {
            continue;
        };
        let line = f.line(at).expect("source line should resolve");

        // The row carries display text; the line carries what the file holds. For a
        // tab-indented line those differ, which is the whole reason the reference exists.
        assert_eq!(numbers(row), (line.left_line, line.right_line));
        if line.text.contains('\t') {
            assert_ne!(row.text, line.text, "display text should not be the source");
            assert!(line.text.starts_with('\t'), "the source keeps its tab");
            assert!(row.text.starts_with("    "), "the row shows it expanded");
        }
    }
}

#[test]
fn rows_that_stand_for_no_line_have_no_source() {
    let f = file(vec![change_hunk(10, &["a", "b"], &[])]);
    let opts = RowOptions { include_file_header: true, ..Default::default() };

    for row in inline(&f, &opts).rows() {
        if row.class == RowClass::header()
            || row.class == RowClass::gap()
            || row.class == RowClass::filler()
        {
            assert_eq!(row.source, None, "{:?} should have no source", row.class);
        } else {
            assert!(row.source.is_some(), "{:?} should have a source", row.class);
        }
    }

    // The same holds for the fillers a one-sided change puts in the other pane.
    let (_, right) = split(&f, &opts);
    for row in right.rows() {
        if row.class == RowClass::filler() {
            assert_eq!(row.source, None);
        }
    }
}

#[test]
fn side_by_side_rows_point_at_the_same_lines_as_inline_ones() {
    let f = file(vec![change_hunk(1, &["old"], &["new"])]);
    let opts = RowOptions::default();

    let mut expected: Vec<_> = inline(&f, &opts).rows().iter().filter_map(|r| r.source).collect();
    let (left, right) = split(&f, &opts);
    let mut both: Vec<_> =
        left.rows().iter().chain(right.rows().iter()).filter_map(|r| r.source).collect();
    both.sort_by_key(|r| (r.hunk, r.line));
    both.dedup();

    expected.sort_by_key(|r| (r.hunk, r.line));
    expected.dedup();
    assert_eq!(both, expected);
}

#[test]
fn rows_tabs_are_expanded_in_row_text() {
    let f = file(vec![change_hunk(1, &["\tindented"], &["\t\tdeeper"])]);
    let model = inline(&f, &RowOptions::default());
    assert_eq!(model.rows()[1].text, "    indented");
    assert_eq!(model.rows()[2].text, "        deeper");
}

#[test]
fn tab_width_flows_through_to_row_text() {
    let f = file(vec![change_hunk(1, &["\tx"], &["y"])]);
    let model = inline_with(
        &f,
        &RowOptions::default(),
        &RenderOptions { tab_width: 8, ..Default::default() },
    );
    assert_eq!(model.rows()[1].text, "        x");
}

#[test]
fn rows_the_longest_line_is_measured_after_expansion() {
    // The tab makes this line four columns wide, not two.
    let f = file(vec![change_hunk(1, &["\tx"], &["ab"])]);
    let model = inline(&f, &RowOptions::default());
    assert_eq!(model.rows()[1].text, "    x");
    // "context before" is 14 columns, the longest thing present.
    assert_eq!(model.longest_line_columns(), 14);
}

#[test]
fn the_longest_line_accounts_for_wide_glyphs() {
    let mut hunk = change_hunk(1, &["\u{4f60}\u{597d}"], &["x"]);
    hunk.lines.retain(|l| l.kind != LineKind::Context);
    let model = inline(&file(vec![hunk]), &RowOptions::default());
    assert_eq!(model.longest_line_columns(), 4, "two CJK glyphs are four columns");
}

#[test]
fn an_empty_row_set_measures_zero() {
    let model = inline(&file(vec![]), &RowOptions::default());
    assert_eq!(model.longest_line_columns(), 0);
}

// == Fetches

#[test]
fn rows_a_failed_fetch_carries_its_reason() {
    let mut f = file_with_leading_gap();
    f.fetch_failed(1, 9, "no such revision".to_owned());

    let model = inline(&f, &RowOptions::default());
    let gap = gaps(model.rows())[0];

    assert_eq!(gap_state(gap), GapState::Failed);
    assert_eq!(note(gap), "no such revision");
    assert_eq!(hidden(gap), 9, "the whole run is still hidden");
}

#[test]
fn rows_retrying_replaces_the_failure_rather_than_adding_to_it() {
    let mut f = file_with_leading_gap();
    f.fetch_failed(1, 9, "no such revision".to_owned());
    f.fetch_started(1, 9);

    assert_eq!(f.fetches.len(), 1);
    let model = inline(&f, &RowOptions::default());
    assert_eq!(gap_state(gaps(model.rows())[0]), GapState::Waiting);
}

#[test]
fn rows_lines_arriving_end_the_fetch_that_asked_for_them() {
    let mut f = file_with_leading_gap();
    f.fetch_started(1, 3);
    f.expand(1, 3, strings(&["one", "two", "three"]));

    assert!(f.fetches.is_empty());
    let model = inline(&f, &RowOptions::default());
    assert!(model.rows().iter().all(|r| gap_state(r) == GapState::Hidden));
}

#[test]
fn rows_abandoning_a_fetch_leaves_the_gap_as_it_was() {
    let mut f = file_with_leading_gap();
    f.fetch_started(1, 3);
    f.fetch_abandoned(1, 3);

    let model = inline(&f, &RowOptions::default());
    let gaps = gaps(model.rows());
    assert_eq!(gaps.len(), 1, "back to one undivided run");
    assert_eq!(hidden(gaps[0]), 9);
}

#[test]
fn side_by_side_shows_a_fetch_on_both_panes() {
    let mut f = file_with_leading_gap();
    f.fetch_started(1, 3);

    let (left, right) = split(&f, &RowOptions::default());
    let waiting =
        |m: &RowModel| m.rows().iter().filter(|r| gap_state(r) == GapState::Waiting).count();
    assert_eq!(waiting(&left), 1);
    assert_eq!(waiting(&right), 1);
}
