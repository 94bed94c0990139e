use fxv_diff_slint::text::{
    display_column_of, display_width, map_span, measure_line, render_line, source_index_at,
    split_lines, strip_terminator, LineEnding, RenderOptions,
};

fn plain() -> RenderOptions {
    RenderOptions::default()
}

fn visible() -> RenderOptions {
    RenderOptions {
        show_space_tabs: true,
        ..Default::default()
    }
}

fn render(source: &str, opts: &RenderOptions) -> (String, usize) {
    render_line(source, LineEnding::Lf, opts)
}

fn owned(lines: &[(&str, LineEnding)]) -> Vec<(String, LineEnding)> {
    lines.iter().map(|(t, e)| ((*t).to_owned(), *e)).collect()
}

#[test]
fn splitting_reports_the_terminator_each_line_ended_on() {
    let split = split_lines("a\r\nb\nc");
    assert_eq!(
        split,
        owned(&[
            ("a", LineEnding::CrLf),
            ("b", LineEnding::Lf),
            ("c", LineEnding::Missing),
        ])
    );
}

#[test]
fn a_document_ending_in_a_newline_has_no_line_after_it() {
    let split = split_lines("a\n");
    assert_eq!(split, owned(&[("a", LineEnding::Lf)]));
    assert_eq!(split_lines("").len(), 0);
}

#[test]
fn a_split_line_still_renders_its_ending() {
    let opts = RenderOptions {
        show_line_endings: true,
        ..RenderOptions::default()
    };
    let (line, ending) = split_lines("a\n").into_iter().next().unwrap();
    assert_eq!(
        render_line(&line, ending, &opts),
        render_line("a", LineEnding::Lf, &opts)
    );
    assert!(render_line(&line, ending, &opts).0.chars().count() > 1);
}

#[test]
fn a_tab_advances_to_the_next_stop_not_a_fixed_distance() {
    assert_eq!(render("\tx", &plain()), ("    x".to_owned(), 5));
    assert_eq!(render("ab\tx", &plain()), ("ab  x".to_owned(), 5));
    assert_eq!(render("abc\tx", &plain()), ("abc x".to_owned(), 5));
    assert_eq!(render("abcd\tx", &plain()), ("abcd    x".to_owned(), 9));
}

#[test]
fn consecutive_tabs_each_advance_one_stop() {
    assert_eq!(render("\t\tx", &plain()), ("        x".to_owned(), 9));
}

#[test]
fn tab_width_is_configurable() {
    let wide = RenderOptions {
        tab_width: 8,
        ..Default::default()
    };
    assert_eq!(render("\tx", &wide), ("        x".to_owned(), 9));
}

#[test]
fn a_zero_tab_width_does_not_hang() {
    let zero = RenderOptions {
        tab_width: 0,
        ..Default::default()
    };
    assert_eq!(render("\tx", &zero), (" x".to_owned(), 2));
}

#[test]
fn wide_glyphs_count_as_two_columns() {
    let (text, columns) = render("\u{4f60}\u{597d}", &plain());
    assert_eq!(columns, 4, "two CJK glyphs occupy four columns");
    assert_eq!(text, "\u{4f60}\u{597d}");

    let (_, columns) = render("\u{4f60}\t x", &plain());
    assert_eq!(columns, 6);
}

#[test]
fn trailing_whitespace_survives() {
    assert_eq!(render("x  ", &plain()), ("x  ".to_owned(), 3));
}

#[test]
fn an_empty_line_is_zero_columns() {
    assert_eq!(render("", &plain()), (String::new(), 0));
}

#[test]
fn spaces_and_tabs_can_be_shown_without_changing_the_grid() {
    let (plain_text, plain_columns) = render("a b\tc", &plain());
    let (marked_text, marked_columns) = render("a b\tc", &visible());

    assert_eq!(plain_text, "a b c");
    assert_eq!(marked_text, "a\u{00b7}b\u{2192}c");
    assert_eq!(
        plain_columns, marked_columns,
        "showing whitespace must not move anything"
    );
}

#[test]
fn a_shown_tab_is_an_arrow_followed_by_its_padding() {
    assert_eq!(render("\tx", &visible()), ("\u{2192}   x".to_owned(), 5));
    assert_eq!(render("ab\tx", &visible()), ("ab\u{2192} x".to_owned(), 5));
}

#[test]
fn line_endings_are_shown_independently_of_spaces_and_tabs() {
    let endings = RenderOptions {
        show_line_endings: true,
        ..Default::default()
    };
    assert_eq!(
        render_line("a b", LineEnding::Lf, &endings),
        ("a b\u{00b6}".to_owned(), 4)
    );
    assert_eq!(
        render_line("a b", LineEnding::CrLf, &endings),
        ("a b\u{21b5}\u{00b6}".to_owned(), 5)
    );
    assert_eq!(
        render_line("a b", LineEnding::Missing, &endings),
        ("a b".to_owned(), 3)
    );
}

#[test]
fn line_endings_are_not_shown_by_default() {
    assert_eq!(
        render_line("a b", LineEnding::CrLf, &plain()),
        ("a b".to_owned(), 3)
    );
}

#[test]
fn a_source_character_maps_to_the_column_that_draws_it() {
    let source = "a\tb";
    assert_eq!(display_column_of(source, 0, &plain()), 0);
    assert_eq!(
        display_column_of(source, 1, &plain()),
        1,
        "the tab starts at 1"
    );
    assert_eq!(
        display_column_of(source, 2, &plain()),
        4,
        "b lands on the stop"
    );
    assert_eq!(display_column_of(source, 3, &plain()), 5);
}

#[test]
fn a_column_inside_a_tab_resolves_to_the_tab() {
    let source = "a\tb";
    assert_eq!(source_index_at(source, 0, &plain()), 0);
    assert_eq!(source_index_at(source, 1, &plain()), 1);
    assert_eq!(source_index_at(source, 2, &plain()), 1);
    assert_eq!(source_index_at(source, 3, &plain()), 1);
    assert_eq!(source_index_at(source, 4, &plain()), 2);
}

#[test]
fn a_column_inside_a_wide_glyph_resolves_to_that_glyph() {
    let source = "\u{4f60}x";
    assert_eq!(source_index_at(source, 0, &plain()), 0);
    assert_eq!(source_index_at(source, 1, &plain()), 0, "second half");
    assert_eq!(source_index_at(source, 2, &plain()), 1);
}

#[test]
fn a_column_past_the_end_resolves_to_the_end_of_the_line() {
    assert_eq!(source_index_at("abc", 99, &plain()), 3);
    assert_eq!(source_index_at("", 5, &plain()), 0);
}

#[test]
fn the_mapping_round_trips_for_every_character() {
    let source = "a\tbc\t\u{4f60}d  e";
    for opts in [plain(), visible()] {
        for (index, _) in source.chars().enumerate() {
            let column = display_column_of(source, index, &opts);
            assert_eq!(
                source_index_at(source, column, &opts),
                index,
                "character {index} of {source:?} did not survive the round trip"
            );
        }
    }
}

#[test]
fn a_span_over_source_text_maps_to_the_columns_that_draw_it() {
    let source = "ab\tcd";
    assert_eq!(map_span(source, 2..4, &plain()), 2..5);
    assert_eq!(map_span(source, 0..2, &plain()), 0..2);
    assert_eq!(map_span(source, 1..1, &plain()), 1..1);
}

#[test]
fn showing_whitespace_does_not_move_the_mapping() {
    let source = "a b\tc";
    for index in 0..source.chars().count() {
        assert_eq!(
            display_column_of(source, index, &plain()),
            display_column_of(source, index, &visible()),
            "character {index} moved when whitespace was shown"
        );
    }
}

#[test]
fn rendered_text_measures_as_many_columns_as_the_layout_reported() {
    for source in ["", "plain", "a\tb", "\u{4f60}\u{597d}x", "  trailing  "] {
        for opts in [plain(), visible()] {
            let (text, columns) = render(source, &opts);
            assert_eq!(
                display_width(&text),
                columns,
                "{source:?} disagreed about its own width"
            );
        }
    }
}

#[test]
fn measuring_agrees_with_rendering() {
    let lines = [
        "plain text",
        "\tleading tab",
        "trailing spaces   ",
        "mixed\tand  spaced\ttext",
        "",
        "unicode: \u{4e2d}\u{6587} wide",
        "ends on a tab\t",
        "ends wide \u{4e2d}",
    ];
    let options = [
        RenderOptions::default(),
        RenderOptions {
            show_space_tabs: true,
            ..RenderOptions::default()
        },
        RenderOptions {
            show_line_endings: true,
            ..RenderOptions::default()
        },
        RenderOptions {
            tab_width: 8,
            show_space_tabs: true,
            show_line_endings: true,
        },
    ];

    for line in lines {
        for opts in &options {
            for ending in [LineEnding::Lf, LineEnding::CrLf, LineEnding::Missing] {
                let (_, rendered) = render_line(line, ending, opts);
                assert_eq!(
                    measure_line(line, ending, opts),
                    rendered,
                    "line {line:?} with {opts:?} and {ending:?}"
                );
            }
        }
    }
}

// == Further cases

#[test]
fn a_terminator_is_split_off_and_named() {
    assert_eq!(strip_terminator("x\r\n"), ("x", LineEnding::CrLf));
    assert_eq!(strip_terminator("x\n"), ("x", LineEnding::Lf));
    assert_eq!(strip_terminator("x"), ("x", LineEnding::Missing));
    assert_eq!(strip_terminator("\r"), ("\r", LineEnding::Missing));
    assert_eq!(strip_terminator(""), ("", LineEnding::Missing));
}

#[test]
fn a_span_ending_before_it_starts_is_empty_at_its_start() {
    assert_eq!(map_span("ab\tcd", 3..1, &plain()), 4..4);
    assert_eq!(map_span("ab", 5..9, &plain()), 2..2);
}

#[test]
fn a_control_character_takes_no_columns() {
    assert_eq!(render("a\u{7}b", &plain()), ("a\u{7}b".to_owned(), 2));
    assert_eq!(display_width("a\u{7}b"), 2);
}

#[test]
fn blank_lines_in_the_middle_are_kept() {
    assert_eq!(
        split_lines("a\n\nb\r\n"),
        owned(&[
            ("a", LineEnding::Lf),
            ("", LineEnding::Lf),
            ("b", LineEnding::CrLf)
        ])
    );
}

#[test]
fn a_line_without_tabs_draws_as_itself_when_nothing_is_shown() {
    let (text, columns) = render_line("a b\u{4e2d}", LineEnding::CrLf, &plain());
    assert_eq!(text, "a b\u{4e2d}");
    assert_eq!(columns, 5);
    assert_eq!(display_width(&text), columns);
}

#[test]
fn showing_whitespace_leaves_every_column_where_it_was() {
    let line = "a\tb  c\t\u{4f60}d";
    let n = line.chars().count();
    for i in 0..=n {
        assert_eq!(
            display_column_of(line, i, &plain()),
            display_column_of(line, i, &visible()),
            "character {i}"
        );
    }
    assert_eq!(render_line(line, LineEnding::Lf, &plain()).1, render_line(line, LineEnding::Lf, &visible()).1);
}

#[test]
fn a_drawn_line_holds_no_tab_and_measures_its_columns() {
    for opts in [plain(), visible()] {
        let (text, columns) = render_line("\tx\t\ty", LineEnding::CrLf, &opts);
        assert!(!text.contains('\t'), "{text:?}");
        if !opts.show_space_tabs {
            assert_eq!(display_width(&text), columns);
        }
    }
}

#[test]
fn a_tab_always_lands_the_next_character_on_a_stop() {
    let opts = RenderOptions { tab_width: 3, ..plain() };
    let line = "ab\tc\t\td\te";
    for (i, ch) in line.chars().enumerate() {
        if ch == '\t' {
            let before = display_column_of(line, i, &opts);
            let after = display_column_of(line, i + 1, &opts);
            assert!(after > before && after - before <= 3);
            assert_eq!(after % 3, 0);
        }
    }
}

#[test]
fn the_lines_with_their_endings_give_the_document_back() {
    for doc in ["", "one", "one\n", "one\r\ntwo\nthree", "\n\n", "a\rb\n"] {
        let mut back = String::new();
        for (text, ending) in split_lines(doc) {
            back.push_str(&text);
            back.push_str(match ending {
                LineEnding::Lf => "\n",
                LineEnding::CrLf => "\r\n",
                LineEnding::Missing => "",
            });
        }
        assert_eq!(back, doc);
        assert_eq!(split_lines(doc).is_empty(), doc.is_empty());
    }
}

#[test]
fn both_ending_marks_together_take_five_bytes() {
    let opts = RenderOptions { show_line_endings: true, ..plain() };
    let (text, columns) = render_line("", LineEnding::CrLf, &opts);
    assert_eq!(text.len(), 5, "the return symbol is three bytes and the pilcrow two");
    assert_eq!(columns, 2);
}

#[test]
fn a_drawn_line_stays_within_the_bytes_reserved_for_it() {
    for opts in [plain(), visible(), RenderOptions { show_line_endings: true, ..visible() }] {
        for (line, ending) in [("\t a\t\u{4f60} ", LineEnding::CrLf), ("", LineEnding::Lf), ("x", LineEnding::Missing)] {
            let (text, _) = render_line(line, ending, &opts);
            let tabs = line.bytes().filter(|b| *b == b'\t').count();
            let spaces = line.bytes().filter(|b| *b == b' ').count();
            let per_tab = opts.tab_width.max(1) + 2;
            let per_space = if opts.show_space_tabs { 2 } else { 1 };
            let ending_bytes = if opts.show_line_endings { 5 } else { 0 };
            let reserved =
                line.len() - tabs - spaces + tabs * per_tab + spaces * per_space + ending_bytes;
            assert!(text.len() <= reserved, "{line:?}: {} > {reserved}", text.len());
        }
    }
}
