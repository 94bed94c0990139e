use fxv_diff_slint::diff::layout::{build_inline, build_split, GapState, Layout, Row, RowOptions};
use fxv_diff_slint::diff::model::{
    DiffLine, FileChange, FileContent, FileDiff, Hunk, LineKind, LineOrigin, LineRef,
};
use fxv_diff_slint::text::LineEnding;

fn line(kind: LineKind, left: Option<u32>, right: Option<u32>, text: &str) -> DiffLine {
    DiffLine {
        kind,
        text: text.to_owned(),
        left_line: left,
        right_line: right,
        line_ending: LineEnding::Lf,
        origin: LineOrigin::Diff,
    }
}

fn file(hunks: Vec<Hunk>) -> FileDiff {
    FileDiff {
        left_path: Some("f.rs".into()),
        right_path: Some("f.rs".into()),
        change: FileChange::Modified,
        left_mode: None,
        right_mode: None,
        content: FileContent::Text { hunks },
        fetches: Vec::new(),
    }
}

/// A hunk with one context line, then the removals, then the additions, then one more
/// context line. It therefore covers `removed.len() + 2` lines on the left.
fn change_hunk(start: u32, removed: &[&str], added: &[&str]) -> Hunk {
    let mut lines = vec![line(LineKind::Context, Some(start), Some(start), "context before")];
    for (i, text) in removed.iter().enumerate() {
        lines.push(line(LineKind::Removed, Some(start + 1 + i as u32), None, text));
    }
    for (i, text) in added.iter().enumerate() {
        lines.push(line(LineKind::Added, None, Some(start + 1 + i as u32), text));
    }
    let after = start + removed.len() as u32 + 1;
    lines.push(line(
        LineKind::Context,
        Some(after),
        Some(start + added.len() as u32 + 1),
        "context after",
    ));

    Hunk {
        left_start: start,
        left_len: removed.len() as u32 + 2,
        right_start: start,
        right_len: added.len() as u32 + 2,
        heading: None,
        lines,
    }
}

/// Which sides each entry carries, as a shorthand for asserting arrangement.
fn sides(layout: &Layout) -> Vec<(bool, bool)> {
    layout
        .rows
        .iter()
        .filter_map(|e| match e {
            Row::Lines(pair) => Some((pair.left.is_some(), pair.right.is_some())),
            _ => None,
        })
        .collect()
}

fn gap_counts(layout: &Layout) -> Vec<u32> {
    layout
        .rows
        .iter()
        .filter_map(|e| match e {
            Row::Gap { hidden, .. } => Some(*hidden),
            _ => None,
        })
        .collect()
}

fn file_with_leading_gap() -> FileDiff {
    file(vec![change_hunk(10, &["old"], &["new"])])
}

fn strings(texts: &[&str]) -> Vec<String> {
    texts.iter().map(|s| (*s).to_owned()).collect()
}

// == Arrangement

#[test]
fn inline_lists_removals_before_the_additions_that_replaced_them() {
    let f = file(vec![change_hunk(1, &["a", "b"], &["c"])]);
    assert_eq!(
        sides(&build_inline(&f, &RowOptions::default())),
        vec![(true, true), (true, false), (true, false), (false, true), (true, true)]
    );
}

#[test]
fn a_split_puts_a_replacement_opposite_what_it_replaced() {
    let f = file(vec![change_hunk(1, &["a"], &["c"])]);
    assert_eq!(
        sides(&build_split(&f, &RowOptions::default())),
        vec![(true, true), (true, true), (true, true)],
        "the change occupies one position with a line on each side"
    );
}

#[test]
fn a_split_pads_the_shorter_side_of_an_uneven_change() {
    let f = file(vec![change_hunk(1, &["a", "b", "c"], &["x"])]);
    assert_eq!(
        sides(&build_split(&f, &RowOptions::default())),
        vec![(true, true), (true, true), (true, false), (true, false), (true, true)]
    );
}

#[test]
fn a_pure_deletion_faces_nothing() {
    let f = file(vec![change_hunk(1, &["gone"], &[])]);
    assert_eq!(
        sides(&build_split(&f, &RowOptions::default())),
        vec![(true, true), (true, false), (true, true)]
    );
}

#[test]
fn an_unchanged_line_stands_on_both_sides_in_either_arrangement() {
    let f = file(vec![change_hunk(1, &["a"], &["b"])]);
    for layout in [
        build_inline(&f, &RowOptions::default()),
        build_split(&f, &RowOptions::default()),
    ] {
        let Row::Lines(first) = &layout.rows[0] else {
            panic!("expected a line");
        };
        assert!(first.left.is_some() && first.right.is_some());
        assert_eq!(
            first.left.unwrap().source,
            first.right.unwrap().source,
            "the same line, shown twice"
        );
    }
}

#[test]
fn the_line_numbers_come_through() {
    let f = file(vec![change_hunk(10, &["old"], &["new"])]);
    let layout = build_inline(&f, &RowOptions::default());
    let Row::Lines(removed) = &layout.rows[2] else {
        panic!("expected the removal");
    };
    assert_eq!(removed.left.unwrap().line, 11);
    assert!(removed.right.is_none());
}

#[test]
fn layout_a_file_header_is_opt_in() {
    let f = file(vec![change_hunk(1, &["a"], &["b"])]);
    assert!(!build_inline(&f, &RowOptions::default())
        .rows
        .iter()
        .any(|e| matches!(e, Row::Header)));
    assert!(matches!(
        build_inline(
            &f,
            &RowOptions {
                include_file_header: true,
                ..RowOptions::default()
            }
        )
        .rows[0],
        Row::Header
    ));
}

#[test]
fn a_file_with_no_hunks_lays_out_as_nothing() {
    let layout = build_inline(&file(vec![]), &RowOptions::default());
    assert!(layout.rows.is_empty());
}

// == Gaps

#[test]
fn layout_a_hunk_that_does_not_start_at_line_one_is_preceded_by_a_gap() {
    let f = file_with_leading_gap();
    assert_eq!(gap_counts(&build_inline(&f, &RowOptions::default())), vec![9]);
}

#[test]
fn layout_a_hunk_starting_at_line_one_has_no_gap_before_it() {
    let f = file(vec![change_hunk(1, &["a"], &["b"])]);
    assert!(gap_counts(&build_inline(&f, &RowOptions::default())).is_empty());
}

#[test]
fn layout_the_lines_between_two_hunks_become_a_gap() {
    let f = file(vec![change_hunk(1, &["a"], &["b"]), change_hunk(20, &["c"], &["d"])]);
    // The first hunk covers lines 1 to 3, so 4 up to 19 are hidden.
    assert_eq!(gap_counts(&build_inline(&f, &RowOptions::default())), vec![16]);
}

#[test]
fn layout_adjacent_hunks_produce_no_gap() {
    // The first covers lines 1 to 3, so a hunk starting at 4 hides nothing.
    let f = file(vec![change_hunk(1, &["a"], &["b"]), change_hunk(4, &["c"], &["d"])]);
    assert!(gap_counts(&build_inline(&f, &RowOptions::default())).is_empty());
}

#[test]
fn layout_a_trailing_gap_needs_the_file_length_to_be_known() {
    let f = file(vec![change_hunk(1, &["a"], &["b"])]);
    assert!(gap_counts(&build_inline(&f, &RowOptions::default())).is_empty());

    let with_totals = build_inline(
        &f,
        &RowOptions {
            left_total_lines: Some(10),
            right_total_lines: Some(10),
            ..RowOptions::default()
        },
    );
    assert_eq!(gap_counts(&with_totals), vec![7]);
}

#[test]
fn layout_a_hunk_reaching_the_end_of_the_file_has_no_trailing_gap() {
    let f = file(vec![change_hunk(1, &["a"], &["b"])]);
    let layout = build_inline(
        &f,
        &RowOptions {
            left_total_lines: Some(3),
            right_total_lines: Some(3),
            ..RowOptions::default()
        },
    );
    assert!(gap_counts(&layout).is_empty());
}

#[test]
fn layout_an_added_file_has_no_leading_gap_despite_its_zero_left_numbers() {
    // Every left number is absent, so only the right side says where the hunk starts.
    let hunk = Hunk {
        left_start: 0,
        left_len: 0,
        right_start: 1,
        right_len: 2,
        heading: None,
        lines: vec![
            line(LineKind::Added, None, Some(1), "one"),
            line(LineKind::Added, None, Some(2), "two"),
        ],
    };
    assert!(gap_counts(&build_inline(&file(vec![hunk]), &RowOptions::default())).is_empty());
}

#[test]
fn a_gap_carries_the_heading_of_the_hunk_it_precedes() {
    let mut hunk = change_hunk(10, &["old"], &["new"]);
    hunk.heading = Some("fn thing()".to_owned());
    let layout = build_inline(&file(vec![hunk]), &RowOptions::default());

    let Row::Gap { heading, .. } = &layout.rows[0] else {
        panic!("expected a gap");
    };
    assert_eq!(heading.as_deref(), Some("fn thing()"));
}

#[test]
fn a_gap_says_where_its_hidden_run_starts() {
    let layout = build_inline(&file_with_leading_gap(), &RowOptions::default());
    let Row::Gap { left_start, right_start, .. } = &layout.rows[0] else {
        panic!("expected a gap");
    };
    assert_eq!((*left_start, *right_start), (1, 1));
}

#[test]
fn a_split_lays_out_a_gap_once_rather_than_per_side() {
    // One list serves both panes, so a gap is one entry that each pane draws.
    let f = file_with_leading_gap();
    assert_eq!(gap_counts(&build_split(&f, &RowOptions::default())), vec![9]);
}

// == Fetches

fn gap_states(layout: &Layout) -> Vec<(u32, GapState)> {
    layout
        .rows
        .iter()
        .filter_map(|e| match e {
            Row::Gap { hidden, state, .. } => Some((*hidden, *state)),
            _ => None,
        })
        .collect()
}

#[test]
fn a_fetch_in_progress_leaves_the_gap_whole_and_says_it_is_waiting() {
    let mut f = file_with_leading_gap();
    f.fetch_started(1, 3);

    assert_eq!(
        gap_states(&build_inline(&f, &RowOptions::default())),
        vec![(9, GapState::Waiting)]
    );
}

#[test]
fn repeated_failures_do_not_grow_the_gap() {
    let mut f = file_with_leading_gap();
    for start in [1, 4, 7] {
        f.fetch_failed(start, 3, "no source".to_owned());
    }

    assert_eq!(
        gap_states(&build_inline(&f, &RowOptions::default())),
        vec![(9, GapState::Failed)]
    );
}

#[test]
fn a_fetch_in_flight_outranks_a_past_failure() {
    let mut f = file_with_leading_gap();
    f.fetch_failed(1, 3, "no source".to_owned());
    f.fetch_started(4, 3);

    assert_eq!(
        gap_states(&build_inline(&f, &RowOptions::default())),
        vec![(9, GapState::Waiting)],
        "one thing at a time, and the newer one wins"
    );
}

#[test]
fn clearing_failures_returns_the_gap_to_plain_hidden_lines() {
    let mut f = file_with_leading_gap();
    f.fetch_failed(1, 9, "no source".to_owned());
    f.clear_failed_fetches();

    assert_eq!(
        gap_states(&build_inline(&f, &RowOptions::default())),
        vec![(9, GapState::Hidden)]
    );
}

#[test]
fn layout_a_failed_fetch_carries_its_reason() {
    let mut f = file_with_leading_gap();
    f.fetch_failed(1, 9, "no such revision".to_owned());

    let layout = build_inline(&f, &RowOptions::default());
    let Row::Gap { state, reason, .. } = &layout.rows[0] else {
        panic!("expected a gap");
    };
    assert_eq!(*state, GapState::Failed);
    assert_eq!(reason.as_deref(), Some("no such revision"));
}

#[test]
fn layout_retrying_replaces_the_failure_rather_than_adding_to_it() {
    let mut f = file_with_leading_gap();
    f.fetch_failed(1, 9, "no such revision".to_owned());
    f.fetch_started(1, 9);

    assert_eq!(f.fetches.len(), 1);
    let layout = build_inline(&f, &RowOptions::default());
    let Row::Gap { state, .. } = &layout.rows[0] else {
        panic!("expected a gap");
    };
    assert_eq!(*state, GapState::Waiting);
}

#[test]
fn layout_lines_arriving_end_the_fetch_that_asked_for_them() {
    let mut f = file_with_leading_gap();
    f.fetch_started(1, 3);
    f.expand(1, 3, strings(&["one", "two", "three"]));

    assert!(f.fetches.is_empty());
    let layout = build_inline(&f, &RowOptions::default());
    assert!(layout
        .rows
        .iter()
        .all(|e| !matches!(e, Row::Gap { state: GapState::Waiting, .. })));
}

#[test]
fn layout_abandoning_a_fetch_leaves_the_gap_as_it_was() {
    let mut f = file_with_leading_gap();
    f.fetch_started(1, 3);
    f.fetch_abandoned(1, 3);

    assert_eq!(
        gap_counts(&build_inline(&f, &RowOptions::default())),
        vec![9],
        "back to one undivided run"
    );
}

#[test]
fn a_gap_keeps_its_heading_while_a_fetch_is_in_flight() {
    let mut hunk = change_hunk(10, &["old"], &["new"]);
    hunk.heading = Some("fn thing()".to_owned());
    let mut f = file(vec![hunk]);
    f.fetch_started(1, 3);

    let layout = build_inline(&f, &RowOptions::default());
    let headings: Vec<Option<String>> = layout
        .rows
        .iter()
        .filter_map(|e| match e {
            Row::Gap { heading, .. } => Some(heading.clone()),
            _ => None,
        })
        .collect();

    assert_eq!(
        headings,
        vec![Some("fn thing()".to_owned())],
        "one gap, so the heading has nowhere else to go"
    );
}

// == Opening a gap

#[test]
fn layout_supplied_lines_replace_the_part_of_a_gap_they_cover() {
    let mut f = file_with_leading_gap();
    f.expand(1, 1, strings(&["one", "two", "three"]));

    let layout = build_inline(&f, &RowOptions::default());
    assert_eq!(gap_counts(&layout), vec![6], "nine less the three opened");
}

#[test]
fn layout_a_gap_can_be_opened_from_the_far_end() {
    let mut f = file_with_leading_gap();
    f.expand(7, 7, strings(&["seven", "eight", "nine"]));

    assert_eq!(gap_counts(&build_inline(&f, &RowOptions::default())), vec![6]);
}

#[test]
fn layout_opening_the_middle_of_a_gap_leaves_one_on_each_side() {
    let mut f = file_with_leading_gap();
    f.expand(4, 4, strings(&["four", "five"]));

    assert_eq!(gap_counts(&build_inline(&f, &RowOptions::default())), vec![3, 4]);
}

#[test]
fn layout_a_fully_opened_gap_leaves_none() {
    let mut f = file_with_leading_gap();
    f.expand(1, 1, (1..=9).map(|n| format!("line {n}")).collect());

    assert!(gap_counts(&build_inline(&f, &RowOptions::default())).is_empty());
}

#[test]
fn layout_asking_twice_for_the_same_lines_changes_nothing() {
    let mut f = file_with_leading_gap();
    f.expand(1, 1, strings(&["one", "two"]));
    let once = build_inline(&f, &RowOptions::default());

    f.expand(1, 1, strings(&["one", "two"]));
    assert_eq!(build_inline(&f, &RowOptions::default()), once);
}

#[test]
fn layout_opening_the_whole_gap_merges_the_hunks_it_separated() {
    let mut f = file(vec![change_hunk(1, &["a"], &["b"]), change_hunk(20, &["c"], &["d"])]);
    assert_eq!(f.hunks().len(), 2);

    f.expand(4, 4, (4..20).map(|n| format!("line {n}")).collect());

    assert_eq!(f.hunks().len(), 1, "nothing separates them any more");
    assert!(gap_counts(&build_inline(&f, &RowOptions::default())).is_empty());
}

#[test]
fn layout_lines_far_from_any_hunk_become_a_hunk_of_their_own() {
    let mut f = file_with_leading_gap();
    // Line 40 is nowhere near the hidden range, and nothing would normally ask for it.
    f.expand(40, 40, strings(&["stray"]));

    assert_eq!(
        gap_counts(&build_inline(&f, &RowOptions::default())),
        vec![9, 27],
        "before the first hunk, and before line 40"
    );
}

#[test]
fn opening_a_gap_on_a_split_opens_it_for_both_sides_at_once() {
    let mut f = file_with_leading_gap();
    f.expand(1, 1, strings(&["one", "two"]));

    let layout = build_split(&f, &RowOptions::default());
    assert_eq!(gap_counts(&layout), vec![7]);
    // The opened lines are unchanged content, so they stand on both sides.
    let opened: Vec<(bool, bool)> = sides(&layout).into_iter().take(2).collect();
    assert_eq!(opened, vec![(true, true), (true, true)]);
}

// == Source references

#[test]
fn a_row_can_find_the_line_it_was_laid_out_from() {
    let f = file(vec![change_hunk(1, &["old"], &["new"])]);
    let layout = build_inline(&f, &RowOptions::default());

    let Row::Lines(removed) = &layout.rows[1] else {
        panic!("expected the removal");
    };
    let source = removed.left.unwrap().source;
    assert_eq!(f.line(source).unwrap().text, "old");
}

#[test]
fn both_arrangements_point_at_the_same_lines() {
    let f = file(vec![change_hunk(1, &["old"], &["new"])]);
    let sources = |layout: Layout| -> Vec<LineRef> {
        let mut all: Vec<LineRef> = layout
            .rows
            .iter()
            .filter_map(|e| match e {
                Row::Lines(pair) => Some(*pair),
                _ => None,
            })
            .flat_map(|pair| pair.left.into_iter().chain(pair.right))
            .map(|row| row.source)
            .collect();
        all.sort_by_key(|s| (s.hunk, s.line));
        all.dedup();
        all
    };

    assert_eq!(
        sources(build_inline(&f, &RowOptions::default())),
        sources(build_split(&f, &RowOptions::default())),
        "the same lines, arranged differently"
    );
}

// == Further cases

#[test]
fn an_uneven_change_in_two_columns_is_as_long_as_its_longer_side() {
    let f = file(vec![change_hunk(1, &["a", "b"], &["x", "y", "z"])]);
    assert_eq!(build_inline(&f, &RowOptions::default()).rows.len(), 7);
    assert_eq!(build_split(&f, &RowOptions::default()).rows.len(), 5);
}

#[test]
fn a_failure_over_part_of_a_gap_marks_the_whole_gap() {
    let mut f = file_with_leading_gap();
    f.fetch_failed(8, 1, "gone".to_owned());
    let layout = build_inline(&f, &RowOptions::default());
    let Row::Gap { state, pending, reason, .. } = &layout.rows[0] else {
        panic!("expected a gap");
    };
    assert_eq!(*state, GapState::Failed);
    assert_eq!(*pending, None);
    assert_eq!(reason.as_deref(), Some("gone"));
}

#[test]
fn a_fetch_in_flight_says_which_run_it_is() {
    let mut f = file_with_leading_gap();
    f.fetch_started(4, 2);
    let layout = build_split(&f, &RowOptions::default());
    let Row::Gap { pending, .. } = &layout.rows[0] else {
        panic!("expected a gap");
    };
    assert_eq!(*pending, Some((4, 2)));
}

#[test]
fn a_fetch_outside_every_gap_changes_nothing_drawn() {
    let mut f = file_with_leading_gap();
    let before = build_inline(&f, &RowOptions::default());
    f.fetch_started(100, 5);
    assert_eq!(build_inline(&f, &RowOptions::default()), before);
}

#[test]
fn a_trailing_gap_uses_the_longer_side() {
    let f = file(vec![change_hunk(1, &["a"], &["b", "c"])]);
    // The hunk covers lines 1 to 3 on the left and 1 to 4 on the right.
    let layout = build_inline(
        &f,
        &RowOptions {
            left_total_lines: Some(10),
            right_total_lines: Some(8),
            ..RowOptions::default()
        },
    );
    assert_eq!(gap_counts(&layout), vec![7]);
    let Row::Gap { left_start, right_start, heading, .. } = layout.rows.last().unwrap() else {
        panic!("expected the trailing gap");
    };
    assert_eq!((*left_start, *right_start), (4, 5));
    assert_eq!(*heading, None);
}

#[test]
fn opening_a_gap_keeps_every_line_it_had() {
    let mut f = file(vec![change_hunk(1, &["a"], &["b"]), change_hunk(20, &["c"], &["d"])]);
    let before: Vec<DiffLineKey> = keys(&f);
    f.expand(4, 4, strings(&["four", "five"]));
    let after = keys(&f);
    for line in &before {
        assert!(after.contains(line), "{line:?} went missing");
    }
    assert!(after.iter().any(|(_, _, text)| text == "four"));
    assert_eq!(after.len(), before.len() + 2);
}

type DiffLineKey = (Option<u32>, Option<u32>, String);

fn keys(f: &FileDiff) -> Vec<DiffLineKey> {
    f.hunks()
        .iter()
        .flat_map(|h| h.lines.iter())
        .map(|l| (l.left_line, l.right_line, l.text.clone()))
        .collect()
}

#[test]
fn a_run_reaching_into_a_hunk_adds_only_the_lines_the_hunk_lacks() {
    // The hunk covers lines 10 to 12; the run asks for 9 to 11.
    let mut f = file_with_leading_gap();
    f.expand(9, 9, strings(&["nine", "ten", "eleven"]));

    assert_eq!(f.hunks().len(), 1, "line 9 joins the hunk rather than starting another");
    let h = &f.hunks()[0];
    assert_eq!((h.left_start, h.left_len), (9, 4));
    assert_eq!((h.right_start, h.right_len), (9, 4));
    assert_eq!(h.lines.len(), 5);
    assert_eq!(h.lines[0].text, "nine");
    assert_eq!(h.lines[1].text, "context before");
    assert_eq!(gap_counts(&build_inline(&f, &RowOptions::default())), vec![8]);
}

#[test]
fn a_run_spanning_a_hunk_fills_in_around_it() {
    // The hunk covers lines 10 to 12; the run asks for 8 to 14.
    let mut f = file_with_leading_gap();
    let texts: Vec<String> = (8..=14).map(|n| format!("line {n}")).collect();
    f.expand(8, 8, texts);

    assert_eq!(f.hunks().len(), 1);
    let h = &f.hunks()[0];
    assert_eq!((h.left_start, h.left_len), (8, 7));
    let shown: Vec<&str> = h.lines.iter().map(|l| l.text.as_str()).collect();
    assert_eq!(shown[..2], ["line 8", "line 9"]);
    assert_eq!(shown[shown.len() - 2..], ["line 13", "line 14"]);
    assert!(!shown.contains(&"line 10"), "a line the hunk already held is not added again");
}

#[test]
fn a_run_leading_into_a_hunk_keeps_that_hunk_s_heading() {
    let mut hunk = change_hunk(10, &["old"], &["new"]);
    hunk.heading = Some("impl Store {".into());
    let mut f = file(vec![hunk]);
    f.expand(7, 7, strings(&["seven", "eight", "nine"]));

    assert_eq!(f.hunks().len(), 1);
    assert_eq!(f.hunks()[0].heading.as_deref(), Some("impl Store {"));
    assert_eq!(f.hunks()[0].left_start, 7);
}

#[test]
fn opening_a_clear_run_keeps_a_gap_between_every_two_hunks() {
    // Hunks at 1 to 3 and 20 to 22; lines 8 to 10 lie clear of both.
    let mut f = file(vec![change_hunk(1, &["a"], &["b"]), change_hunk(20, &["c"], &["d"])]);
    f.expand(8, 8, strings(&["eight", "nine", "ten"]));

    let spans: Vec<(u32, u32)> = f.hunks().iter().map(|h| (h.left_start, h.left_len)).collect();
    assert_eq!(spans, vec![(1, 3), (8, 3), (20, 3)]);
    for pair in f.hunks().windows(2) {
        assert!(pair[0].left_start + pair[0].left_len < pair[1].left_start);
    }
    let total: u32 = f.hunks().iter().map(|h| h.right_len).sum();
    assert_eq!(total, 9);
}

#[test]
fn a_clear_run_stays_in_one_hunk_however_the_hunks_are_stored() {
    // Stored out of line order: lines 20 to 22 first, then 1 to 3.
    let mut f = file(vec![change_hunk(20, &["c"], &["d"]), change_hunk(1, &["a"], &["b"])]);
    f.expand(4, 4, strings(&["four", "five"]));

    assert_eq!(f.hunks().len(), 2, "the run joins the hunk it continues");
    let grown = &f.hunks()[1];
    assert_eq!((grown.left_start, grown.left_len), (1, 5));
    let texts: Vec<&str> = grown.lines.iter().map(|l| l.text.as_str()).collect();
    assert_eq!(texts[texts.len() - 2..], ["four", "five"]);
    assert_eq!((f.hunks()[0].left_start, f.hunks()[0].left_len), (20, 3));
}

#[test]
fn delivering_no_lines_changes_nothing_whatever_the_file() {
    let mut f = file_with_leading_gap();
    f.fetch_started(u32::MAX - 1, 5);
    let before = f.clone();
    f.expand(u32::MAX, u32::MAX, Vec::new());
    assert_eq!(f, before);
}
