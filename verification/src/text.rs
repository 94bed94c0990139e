//! Turning a line of a file into the text a view draws, and back again.
//!
//! These are two different coordinate systems and conflating them is the bug this module
//! exists to prevent. A tab occupies one character in the file and up to a full stop of
//! columns on screen; with whitespace made visible it also draws as something other than
//! itself. So display text is for drawing only, copying resolves back to source characters,
//! and spans over source text are mapped before they are drawn.
//!
//! Every function here walks the line through the same cells (`CharCells::next`), and every
//! contract is stated over the same spec walk (`column_at`), so drawing and mapping cannot
//! disagree about where a character sits.

use std::ops::Range;
use vstd::prelude::*;
use vstd::string::StringSliceAdditionalSpecFns;

use crate::width::{char_columns, char_width};

verus! {

/// How many columns a tab advances to.
pub const DEFAULT_TAB_WIDTH: usize = 4;

/// What a tab draws as when whitespace is shown: a rightwards arrow.
pub const TAB_MARK: char = '\u{2192}';

/// What a space draws as when whitespace is shown: a middle dot.
pub const SPACE_MARK: char = '\u{00b7}';

/// The marker for a carriage return in a line ending: a return symbol.
pub const CR_MARK: char = '\u{21b5}';

/// The marker for a line feed: a pilcrow.
pub const LF_MARK: char = '\u{00b6}';

/// How a line was terminated in its file, the terminator itself having been split off.
#[derive(Debug, Clone, Copy, PartialEq, Eq, Structural)]
pub enum LineEnding {
    Lf,
    CrLf,
    /// The last line of a file that does not end with a newline.
    Missing,
}

#[derive(Debug, Clone, Copy, PartialEq, Eq)]
pub struct RenderOptions {
    pub tab_width: usize,
    /// Draw spaces as dots and tabs as arrows.
    pub show_space_tabs: bool,
    /// Draw a marker for the line terminator.
    pub show_line_endings: bool,
}

impl Default for RenderOptions {
    fn default() -> (r: RenderOptions)
        ensures
            r == (RenderOptions {
                tab_width: DEFAULT_TAB_WIDTH,
                show_space_tabs: false,
                show_line_endings: false,
            }),
    {
        RenderOptions { tab_width: DEFAULT_TAB_WIDTH, show_space_tabs: false, show_line_endings: false }
    }
}

impl RenderOptions {
    /// The distance between tab stops actually used: a tab width of zero would make stops
    /// meaningless, so it counts as one.
    pub open spec fn stop(self) -> nat {
        if self.tab_width == 0 {
            1
        } else {
            self.tab_width as nat
        }
    }

    /// The most columns one character can take: a full tab stop, or the largest width the
    /// width tables can report.
    pub open spec fn cell_bound(self) -> nat {
        if self.stop() > 255 {
            self.stop()
        } else {
            255
        }
    }

    /// The machine limit on walking `source`: every column a walk reaches, every byte of
    /// rendered text, fits in a `usize`.
    pub open spec fn fits(self, source: &str) -> bool {
        &&& (source@.len() + 2) * self.cell_bound() <= usize::MAX
        &&& (source.spec_bytes().len() + 4) * (self.stop() + 2) <= usize::MAX
    }

    /// The same limit, for text held by its characters.
    pub open spec fn fits_chars(self, text: Seq<char>) -> bool {
        &&& (text.len() + 2) * self.cell_bound() <= usize::MAX
        &&& (vstd::utf8::encode_utf8(text).len() + 4) * (self.stop() + 2) <= usize::MAX
    }
}

/// Columns a character occupies when it starts at `column`.
///
/// A tab advances to the next stop rather than inserting a fixed count, which is what keeps
/// aligned code aligned. A space is one column, drawn as itself or as a dot alike. A control
/// character has no width and draws nothing.
pub open spec fn cell_width(c: char, column: nat, stop: nat) -> nat {
    if c == '\t' {
        (((column / stop) + 1) * stop - column) as nat
    } else {
        glyph_columns(c)
    }
}

/// Columns a character other than a tab occupies as drawn: one for a space, which is what
/// `unicode_width` gives it, otherwise its width, and none for a control character.
pub open spec fn glyph_columns(c: char) -> nat {
    if c == ' ' {
        1
    } else {
        match char_columns(c) {
            Some(w) => w as nat,
            None => 0,
        }
    }
}

/// The display column at which character `i` of `s` starts; for `i == s.len()`, the column
/// just past the line.
pub open spec fn column_at(s: Seq<char>, i: nat, opts: RenderOptions) -> nat
    decreases i,
{
    if i == 0 {
        0
    } else {
        let before = column_at(s, (i - 1) as nat, opts);
        before + cell_width(s[i - 1], before, opts.stop())
    }
}

/// Columns character `i` occupies.
pub open spec fn width_at(s: Seq<char>, i: nat, opts: RenderOptions) -> nat {
    cell_width(s[i as int], column_at(s, i, opts), opts.stop())
}

pub open spec fn spaces(n: nat) -> Seq<char> {
    Seq::new(n, |_i: int| ' ')
}

/// What a character draws as, given how many columns it was allotted.
pub open spec fn glyphs(c: char, width: nat, opts: RenderOptions) -> Seq<char> {
    if c == '\t' {
        if opts.show_space_tabs {
            seq![TAB_MARK] + spaces((width - 1) as nat)
        } else {
            spaces(width)
        }
    } else if c == ' ' && opts.show_space_tabs {
        seq![SPACE_MARK]
    } else {
        seq![c]
    }
}

/// The drawn form of the first `i` characters of `s`.
pub open spec fn rendered_prefix(s: Seq<char>, i: nat, opts: RenderOptions) -> Seq<char>
    decreases i,
{
    if i == 0 {
        seq![]
    } else {
        let j = (i - 1) as nat;
        rendered_prefix(s, j, opts) + glyphs(s[j as int], width_at(s, j, opts), opts)
    }
}

pub open spec fn ending_mark_seq(ending: LineEnding) -> Seq<char> {
    match ending {
        LineEnding::Lf => seq![LF_MARK],
        LineEnding::CrLf => seq![CR_MARK, LF_MARK],
        LineEnding::Missing => seq![],
    }
}

/// The markers drawn after a line for its ending, none unless line endings are shown.
pub open spec fn shown_ending(ending: LineEnding, opts: RenderOptions) -> Seq<char> {
    if opts.show_line_endings {
        ending_mark_seq(ending)
    } else {
        seq![]
    }
}

/// The text a line draws as.
pub open spec fn rendered_text(s: Seq<char>, ending: LineEnding, opts: RenderOptions) -> Seq<
    char,
> {
    rendered_prefix(s, s.len(), opts) + shown_ending(ending, opts)
}

/// How many columns a line occupies once drawn.
pub open spec fn rendered_columns(s: Seq<char>, ending: LineEnding, opts: RenderOptions) -> nat {
    column_at(s, s.len(), opts) + shown_ending(ending, opts).len()
}

/// `i`, or the end of the line when `i` is past it.
pub open spec fn clamp_index(s: Seq<char>, i: nat) -> nat {
    if i < s.len() {
        i
    } else {
        s.len()
    }
}

/// `r` is the character drawn at `column`: the first whose cells reach past it, or the end of
/// the line when none does.
pub open spec fn is_index_at_column(s: Seq<char>, column: nat, opts: RenderOptions, r: nat) -> bool {
    &&& r <= s.len()
    &&& forall|j: nat| 0 < j <= r ==> column >= #[trigger] column_at(s, j, opts)
    &&& r < s.len() ==> column < column_at(s, r + 1, opts)
}

/// The width of already rendered text: the sum of its characters' widths.
pub open spec fn text_width(s: Seq<char>) -> nat
    decreases s.len(),
{
    if s.len() == 0 {
        0
    } else {
        text_width(s.drop_last()) + glyph_columns(s.last())
    }
}

/// Where one source character lands on the display grid.
#[derive(Debug, Clone, Copy, PartialEq, Eq)]
struct CharCell {
    /// Index of the character in the source line, counted in characters.
    source_index: usize,
    /// First display column the character occupies.
    column: usize,
    /// How many columns it occupies.
    width: usize,
}

/// The state of a walk along a line: which character comes next and where it lands.
struct CharCells {
    show_space_tabs: bool,
    tab_width: usize,
    index: usize,
    column: usize,
}

/// The bound of `RenderOptions::cell_bound`, for an effective stop.
pub open spec fn bound_for_stop(stop: nat) -> nat {
    if stop > 255 {
        stop
    } else {
        255
    }
}

proof fn lemma_tab_advance(column: nat, stop: nat)
    requires
        stop >= 1,
    ensures
        ((column / stop) + 1) * stop >= column + 1,
        ((column / stop) + 1) * stop <= column + stop,
{
    vstd::arithmetic::div_mod::lemma_fundamental_div_mod(column as int, stop as int);
    vstd::arithmetic::div_mod::lemma_mod_pos_bound(column as int, stop as int);
    let q = column / stop;
    let r = column % stop;
    assert((q + 1) * stop == stop * q + stop) by (nonlinear_arith);
}

/// Whatever a walk reaches after `i` of `n` characters, one more step still fits.
proof fn lemma_step_fits(column: nat, i: nat, n: nat, bound: nat, w: nat)
    requires
        i < n,
        column <= i * bound,
        w <= bound,
        bound >= 1,
        (n + 2) * bound <= usize::MAX,
    ensures
        column + bound <= usize::MAX,
        column + w <= (i + 1) * bound,
        i + 1 < usize::MAX,
{
    assert((i + 1) * bound == i * bound + bound) by (nonlinear_arith);
    assert((i + 1) * bound <= (n + 2) * bound) by (nonlinear_arith)
        requires
            i + 1 <= n + 2,
    ;
    assert(n + 2 <= (n + 2) * bound) by (nonlinear_arith)
        requires
            bound >= 1,
    ;
}

fn char_cells(opts: &RenderOptions) -> (cells: CharCells)
    ensures
        cells.show_space_tabs == opts.show_space_tabs,
        cells.tab_width == opts.stop(),
        cells.index == 0,
        cells.column == 0,
{
    CharCells {
        show_space_tabs: opts.show_space_tabs,
        // A tab width of zero would make tab stops meaningless and loop forever.
        tab_width: if opts.tab_width == 0 {
            1
        } else {
            opts.tab_width
        },
        index: 0,
        column: 0,
    }
}

impl CharCells {
    /// Places the next character of the line.
    fn next(&mut self, ch: char) -> (cell: CharCell)
        requires
            old(self).tab_width >= 1,
            old(self).column + bound_for_stop(old(self).tab_width as nat) <= usize::MAX,
            old(self).index < usize::MAX,
        ensures
            cell.source_index == old(self).index,
            cell.column == old(self).column,
            cell.width == cell_width(ch, old(self).column as nat, old(self).tab_width as nat),
            cell.width <= bound_for_stop(old(self).tab_width as nat),
            ch == '\t' ==> cell.width >= 1,
            final(self).index == old(self).index + 1,
            final(self).column == old(self).column + cell.width,
            final(self).tab_width == old(self).tab_width,
            final(self).show_space_tabs == old(self).show_space_tabs,
    {
        let width: usize = if ch == '\t' {
            proof {
                lemma_tab_advance(self.column as nat, self.tab_width as nat);
            }
            (self.column / self.tab_width + 1) * self.tab_width - self.column
        } else if ch == ' ' {
            // One column, which is what `unicode_width` gives a space, and what its dot takes.
            1
        } else {
            match char_width(ch) {
                Some(w) => w,
                None => 0,
            }
        };
        let cell = CharCell { source_index: self.index, column: self.column, width };
        self.index = self.index + 1;
        self.column = self.column + width;
        cell
    }
}

/// The invariant every walk keeps: after `i` characters the walk stands where the spec walk
/// says, within the machine bound.
pub open spec fn walk_at(s: Seq<char>, opts: RenderOptions, i: nat, column: nat) -> bool {
    &&& i <= s.len()
    &&& column == column_at(s, i, opts)
    &&& column <= i * opts.cell_bound()
    &&& (s.len() + 2) * opts.cell_bound() <= usize::MAX
}

/// Appends one character to a string.
///
/// Calls `String::push`, which std documents as appending the given `char` to the end of the
/// string; the contract says exactly that.
#[verifier::external_body]
fn push_char(out: &mut String, c: char)
    ensures
        final(out)@ == old(out)@.push(c),
{
    out.push(c);
}

/// An empty string with room reserved.
///
/// Calls `String::with_capacity`, documented as creating a new empty string. The capacity is
/// the allocator's business and nothing is claimed of it.
#[verifier::external_body]
fn string_with_capacity(capacity: usize) -> (s: String)
    ensures
        s@ == Seq::<char>::empty(),
{
    String::with_capacity(capacity)
}

fn push_spaces(out: &mut String, n: usize)
    ensures
        final(out)@ == old(out)@ + spaces(n as nat),
{
    let mut k: usize = 0;
    while k < n
        invariant
            k <= n,
            out@ == old(out)@ + spaces(k as nat),
        decreases n - k,
    {
        push_char(out, ' ');
        assert(old(out)@ + spaces((k + 1) as nat) =~= (old(out)@ + spaces(k as nat)).push(' '));
        k = k + 1;
    }
}

/// Appends what a character draws as, given how many columns it was allotted.
fn push_rendered(out: &mut String, ch: char, width: usize, opts: &RenderOptions)
    requires
        ch == '\t' && opts.show_space_tabs ==> width >= 1,
    ensures
        final(out)@ == old(out)@ + glyphs(ch, width as nat, *opts),
{
    if ch == '\t' && opts.show_space_tabs {
        push_char(out, TAB_MARK);
        // The arrow takes the first of the tab's columns; the rest is padding.
        push_spaces(out, width - 1);
        assert(old(out)@ + glyphs(ch, width as nat, *opts) =~= old(out)@.push(TAB_MARK) + spaces(
            (width - 1) as nat,
        ));
    } else if ch == '\t' {
        push_spaces(out, width);
    } else if ch == ' ' && opts.show_space_tabs {
        push_char(out, SPACE_MARK);
        assert(old(out)@ + glyphs(ch, width as nat, *opts) =~= old(out)@.push(SPACE_MARK));
    } else {
        push_char(out, ch);
        assert(old(out)@ + glyphs(ch, width as nat, *opts) =~= old(out)@.push(ch));
    }
}

/// The markers for a line ending, in the order they are drawn.
fn ending_marks(ending: LineEnding) -> (marks: Vec<char>)
    ensures
        marks@ == ending_mark_seq(ending),
{
    match ending {
        LineEnding::Lf => vec![LF_MARK],
        LineEnding::CrLf => vec![CR_MARK, LF_MARK],
        LineEnding::Missing => Vec::new(),
    }
}

/// One step of a walk along `s`: the spec walk advances by the cell just placed, and the
/// machine bound still holds.
proof fn lemma_walk_step(s: Seq<char>, opts: RenderOptions, i: nat, column: nat, w: nat)
    requires
        walk_at(s, opts, i, column),
        i < s.len(),
        w == width_at(s, i, opts),
        w <= opts.cell_bound(),
    ensures
        walk_at(s, opts, i + 1, column + w),
{
    lemma_step_fits(column, i, s.len(), opts.cell_bound(), w);
}

/// Before a step, the walk has room for a whole cell.
proof fn lemma_walk_room(s: Seq<char>, opts: RenderOptions, i: nat, column: nat)
    requires
        walk_at(s, opts, i, column),
        i < s.len(),
    ensures
        column + opts.cell_bound() <= usize::MAX,
        i + 1 < usize::MAX,
{
    lemma_step_fits(column, i, s.len(), opts.cell_bound(), 0);
}

/// At the end of a walk there is still room for the ending markers.
proof fn lemma_walk_done(s: Seq<char>, opts: RenderOptions, column: nat)
    requires
        walk_at(s, opts, s.len(), column),
    ensures
        column + 2 <= usize::MAX,
{
    let n = s.len();
    let b = opts.cell_bound();
    assert((n + 2) * b == n * b + 2 * b) by (nonlinear_arith);
}

/// Whether `fits` holds for a line also bounds its character count.
proof fn lemma_fits_walk_start(source: &str, opts: RenderOptions)
    requires
        opts.fits(source),
    ensures
        walk_at(source@, opts, 0, 0),
{
    assert(0 * opts.cell_bound() == 0) by (nonlinear_arith);
}

/// Renders a line for display, and reports how many columns it occupies.
pub fn render_line(source: &str, ending: LineEnding, opts: &RenderOptions) -> (r: (String, usize))
    requires
        opts.fits(source),
    ensures
        r.0@ == rendered_text(source@, ending, *opts),
        r.1 == rendered_columns(source@, ending, *opts),
{
    let ghost s = source@;
    let mut text = string_with_capacity(rendered_capacity(source, opts));
    let mut columns: usize = 0;
    let mut cells = char_cells(opts);
    proof {
        lemma_fits_walk_start(source, *opts);
    }
    for ch in it: source.chars()
        invariant
            it.seq() == s,
            s == source@,
            cells.index == it.index(),
            cells.tab_width == opts.stop(),
            cells.show_space_tabs == opts.show_space_tabs,
            walk_at(s, *opts, cells.index as nat, cells.column as nat),
            columns == cells.column,
            text@ == rendered_prefix(s, cells.index as nat, *opts),
    {
        proof {
            lemma_walk_room(s, *opts, cells.index as nat, cells.column as nat);
        }
        let ghost i = cells.index as nat;
        let cell = cells.next(ch);
        proof {
            lemma_walk_step(s, *opts, i, cell.column as nat, cell.width as nat);
        }
        push_rendered(&mut text, ch, cell.width, opts);
        columns = cell.column + cell.width;
    }
    proof {
        lemma_walk_done(s, *opts, columns as nat);
    }
    if opts.show_line_endings {
        let marks = ending_marks(ending);
        let mut k: usize = 0;
        while k < marks.len()
            invariant
                k <= marks@.len(),
                marks@ == ending_mark_seq(ending),
                marks@.len() <= 2,
                text@ == rendered_prefix(s, s.len(), *opts) + marks@.take(k as int),
                columns == column_at(s, s.len(), *opts) + k,
                column_at(s, s.len(), *opts) + 2 <= usize::MAX,
            decreases marks@.len() - k,
        {
            push_char(&mut text, marks[k]);
            assert(marks@.take(k + 1) =~= marks@.take(k as int).push(marks@[k as int]));
            columns = columns + 1;
            k = k + 1;
        }
        assert(marks@.take(k as int) =~= marks@);
    } else {
        assert(text@ =~= rendered_text(s, ending, *opts));
    }
    (text, columns)
}

/// How many columns a line occupies once rendered, without rendering it.
pub fn measure_line(source: &str, ending: LineEnding, opts: &RenderOptions) -> (columns: usize)
    requires
        opts.fits(source),
    ensures
        columns == rendered_columns(source@, ending, *opts),
{
    let ghost s = source@;
    let mut columns: usize = 0;
    let mut cells = char_cells(opts);
    proof {
        lemma_fits_walk_start(source, *opts);
    }
    for ch in it: source.chars()
        invariant
            it.seq() == s,
            s == source@,
            cells.index == it.index(),
            cells.tab_width == opts.stop(),
            cells.show_space_tabs == opts.show_space_tabs,
            walk_at(s, *opts, cells.index as nat, cells.column as nat),
            columns == cells.column,
    {
        proof {
            lemma_walk_room(s, *opts, cells.index as nat, cells.column as nat);
        }
        let ghost i = cells.index as nat;
        let cell = cells.next(ch);
        proof {
            lemma_walk_step(s, *opts, i, cell.column as nat, cell.width as nat);
        }
        columns = cell.column + cell.width;
    }
    proof {
        lemma_walk_done(s, *opts, columns as nat);
    }
    if opts.show_line_endings {
        columns = columns + ending_marks(ending).len();
    }
    columns
}

/// The display column a source character starts at.
///
/// An index past the end of the line reports the column just after it, which is where a caret
/// sits when it is at the end.
pub fn display_column_of(source: &str, char_index: usize, opts: &RenderOptions) -> (column:
    usize)
    requires
        opts.fits(source),
    ensures
        column == column_at(source@, clamp_index(source@, char_index as nat), *opts),
{
    let ghost s = source@;
    let mut past_the_end: usize = 0;
    let mut cells = char_cells(opts);
    proof {
        lemma_fits_walk_start(source, *opts);
    }
    for ch in it: source.chars()
        invariant
            it.seq() == s,
            s == source@,
            cells.index == it.index(),
            cells.tab_width == opts.stop(),
            cells.show_space_tabs == opts.show_space_tabs,
            walk_at(s, *opts, cells.index as nat, cells.column as nat),
            past_the_end == cells.column,
            cells.index <= char_index,
    {
        proof {
            lemma_walk_room(s, *opts, cells.index as nat, cells.column as nat);
        }
        let ghost i = cells.index as nat;
        let cell = cells.next(ch);
        proof {
            lemma_walk_step(s, *opts, i, cell.column as nat, cell.width as nat);
        }
        if cell.source_index == char_index {
            return cell.column;
        }
        past_the_end = cell.column + cell.width;
    }
    past_the_end
}

/// The source character shown at a display column.
///
/// A column landing inside a character that occupies several, such as a tab's run or a wide
/// glyph, resolves to that character. A column past the end resolves to the end of the line.
pub fn source_index_at(source: &str, column: usize, opts: &RenderOptions) -> (index: usize)
    requires
        opts.fits(source),
    ensures
        is_index_at_column(source@, column as nat, *opts, index as nat),
        index == index_at(source@, column as nat, *opts),
{
    let ghost s = source@;
    let mut past_the_end: usize = 0;
    let mut cells = char_cells(opts);
    proof {
        lemma_fits_walk_start(source, *opts);
    }
    for ch in it: source.chars()
        invariant
            it.seq() == s,
            s == source@,
            cells.index == it.index(),
            cells.tab_width == opts.stop(),
            cells.show_space_tabs == opts.show_space_tabs,
            walk_at(s, *opts, cells.index as nat, cells.column as nat),
            past_the_end == cells.index,
            forall|j: nat| 0 < j <= cells.index ==> column >= #[trigger] column_at(s, j, *opts),
    {
        proof {
            lemma_walk_room(s, *opts, cells.index as nat, cells.column as nat);
        }
        let ghost i = cells.index as nat;
        let cell = cells.next(ch);
        proof {
            lemma_walk_step(s, *opts, i, cell.column as nat, cell.width as nat);
        }
        if column < cell.column + cell.width {
            proof {
                lemma_index_at(s, column as nat, *opts, cell.source_index as nat);
            }
            return cell.source_index;
        }
        past_the_end = cell.source_index + 1;
    }
    proof {
        lemma_index_at(s, column as nat, *opts, past_the_end as nat);
    }
    past_the_end
}

/// The source character shown at a display column: the one index that
/// `is_index_at_column` allows.
pub open spec fn index_at(s: Seq<char>, column: nat, opts: RenderOptions) -> nat {
    choose|r: nat| is_index_at_column(s, column, opts, r)
}

/// An index shown at a column is the one `index_at` names.
pub proof fn lemma_index_at(s: Seq<char>, column: nat, opts: RenderOptions, r: nat)
    requires
        is_index_at_column(s, column, opts, r),
    ensures
        r == index_at(s, column, opts),
{
    lemma_index_at_unique(s, column, opts, r, index_at(s, column, opts));
}

/// At most one index is shown at a column.
pub proof fn lemma_index_at_unique(s: Seq<char>, column: nat, opts: RenderOptions, a: nat, b: nat)
    requires
        is_index_at_column(s, column, opts, a),
        is_index_at_column(s, column, opts, b),
    ensures
        a == b,
{
    if a < b {
        assert(column >= column_at(s, a + 1, opts));
    } else if b < a {
        assert(column >= column_at(s, b + 1, opts));
    }
}

/// Maps a range of source characters to the display columns that draw them.
pub fn map_span(source: &str, chars: Range<usize>, opts: &RenderOptions) -> (columns: Range<
    usize,
>)
    requires
        opts.fits(source),
    ensures
        columns.start == column_at(source@, clamp_index(source@, chars.start as nat), *opts),
        columns.end == if column_at(source@, clamp_index(source@, chars.end as nat), *opts)
            >= columns.start {
            column_at(source@, clamp_index(source@, chars.end as nat), *opts)
        } else {
            columns.start as nat
        },
{
    let ghost s = source@;
    let mut start: Option<usize> = None;
    let mut end: Option<usize> = None;
    let mut past_the_end: usize = 0;
    let mut cells = char_cells(opts);
    proof {
        lemma_fits_walk_start(source, *opts);
    }
    // Both ends in one walk, since they come from the same line.
    for ch in it: source.chars()
        invariant
            it.seq() == s,
            s == source@,
            cells.index == it.index(),
            cells.tab_width == opts.stop(),
            cells.show_space_tabs == opts.show_space_tabs,
            walk_at(s, *opts, cells.index as nat, cells.column as nat),
            past_the_end == cells.column,
            start is Some <==> chars.start < cells.index,
            start matches Some(c) ==> c as nat == column_at(s, chars.start as nat, *opts),
            end is Some <==> chars.end < cells.index,
            end matches Some(c) ==> c as nat == column_at(s, chars.end as nat, *opts),
    {
        proof {
            lemma_walk_room(s, *opts, cells.index as nat, cells.column as nat);
        }
        let ghost i = cells.index as nat;
        let cell = cells.next(ch);
        proof {
            lemma_walk_step(s, *opts, i, cell.column as nat, cell.width as nat);
        }
        if cell.source_index == chars.start {
            start = Some(cell.column);
        }
        if cell.source_index == chars.end {
            end = Some(cell.column);
        }
        past_the_end = cell.column + cell.width;
    }
    let start = match start {
        Some(c) => c,
        None => past_the_end,
    };
    let end = match end {
        Some(c) => c,
        None => past_the_end,
    };
    let end = if end >= start {
        end
    } else {
        start
    };
    start..end
}

/// The width of text that has already been rendered.
pub fn display_width(text: &str) -> (width: usize)
    requires
        (text@.len() + 1) * 255 <= usize::MAX,
    ensures
        width == text_width(text@),
{
    let ghost s = text@;
    let mut total: usize = 0;
    let mut i: usize = 0;
    for ch in it: text.chars()
        invariant
            it.seq() == s,
            s == text@,
            i == it.index(),
            i <= s.len(),
            total == text_width(s.take(i as int)),
            total <= i * 255,
            (s.len() + 1) * 255 <= usize::MAX,
    {
        let w = match char_width(ch) {
            Some(w) => w,
            None => 0,
        };
        proof {
            assert(w <= 255);
            assert(s.take(i + 1).drop_last() =~= s.take(i as int));
            assert((i + 1) * 255 == i * 255 + 255) by (nonlinear_arith);
            assert((i + 1) * 255 <= (s.len() + 1) * 255) by (nonlinear_arith)
                requires
                    i + 1 <= s.len() + 1,
            ;
        }
        total = total + w;
        i = i + 1;
    }
    proof {
        assert(s.take(i as int) =~= s);
    }
    total
}

/// How many times a byte occurs.
pub open spec fn count_byte(b: Seq<u8>, x: u8) -> nat
    decreases b.len(),
{
    if b.len() == 0 {
        0
    } else {
        count_byte(b.drop_last(), x) + if b.last() == x {
            1nat
        } else {
            0nat
        }
    }
}

/// The bytes reserved for a rendered line: each tab as a full stop of spaces plus two bytes
/// for the arrow, each shown space as the two byte dot, and five for the ending markers: the
/// return symbol takes three bytes and the pilcrow two.
pub open spec fn capacity_for(bytes: Seq<u8>, opts: RenderOptions) -> nat {
    let tabs = count_byte(bytes, 9);
    let spaces = count_byte(bytes, 32);
    let per_tab = opts.stop() + 2;
    let per_space: nat = if opts.show_space_tabs {
        2
    } else {
        1
    };
    let ending: nat = if opts.show_line_endings {
        5
    } else {
        0
    };
    (bytes.len() - tabs - spaces + tabs * per_tab + spaces * per_space + ending) as nat
}

/// An upper bound on the bytes rendering will produce, used to size the output once.
fn rendered_capacity(source: &str, opts: &RenderOptions) -> (n: usize)
    requires
        opts.fits(source),
    ensures
        n == capacity_for(source.spec_bytes(), *opts),
{
    let bytes = source.as_bytes();
    let ghost b = bytes@;
    let mut tabs: usize = 0;
    let mut spaces: usize = 0;
    let mut k: usize = 0;
    while k < bytes.len()
        invariant
            b == source.spec_bytes(),
            b == bytes@,
            k <= b.len(),
            tabs == count_byte(b.take(k as int), 9),
            spaces == count_byte(b.take(k as int), 32),
            tabs + spaces <= k,
        decreases b.len() - k,
    {
        proof {
            assert(b.take(k + 1).drop_last() =~= b.take(k as int));
        }
        if bytes[k] == 9u8 {
            tabs = tabs + 1;
        } else if bytes[k] == 32u8 {
            spaces = spaces + 1;
        }
        k = k + 1;
    }
    proof {
        assert(b.take(k as int) =~= b);
    }
    proof {
        let pt = opts.stop() + 2;
        assert(pt <= (b.len() + 4) * pt) by (nonlinear_arith)
            requires
                pt >= 1,
        ;
    }
    let per_tab: usize = if opts.tab_width == 0 {
        1
    } else {
        opts.tab_width
    } + 2;
    let per_space: usize = if opts.show_space_tabs {
        2
    } else {
        1
    };
    let ending: usize = if opts.show_line_endings {
        5
    } else {
        0
    };
    proof {
        let n = b.len();
        let t = tabs as nat;
        let sp = spaces as nat;
        let pt = per_tab as nat;
        assert(t * pt + sp * per_space <= (t + sp) * pt) by (nonlinear_arith)
            requires
                per_space <= pt,
        ;
        assert((n - t - sp) + (t + sp) * pt <= n * pt) by (nonlinear_arith)
            requires
                t + sp <= n,
                pt >= 1,
        ;
        assert((n + 4) * pt == n * pt + 4 * pt) by (nonlinear_arith);
        assert(n <= n * pt) by (nonlinear_arith)
            requires
                pt >= 1,
        ;
        assert(4 <= 4 * pt) by (nonlinear_arith)
            requires
                pt >= 1,
        ;
        assert(n - t - sp + t * pt + sp * per_space + ending <= (n + 4) * pt);
    }
    let plain = source.len() - tabs - spaces;
    let widened = tabs * per_tab + spaces * per_space;
    plain + widened + ending
}

/// A line with its terminator split off, and which terminator it was. A carriage return
/// before the newline counts as part of the terminator.
pub open spec fn stripped(line: Seq<char>) -> (Seq<char>, LineEnding) {
    if line.len() > 0 && line.last() == '\n' {
        let rest = line.drop_last();
        if rest.len() > 0 && rest.last() == '\r' {
            (rest.drop_last(), LineEnding::CrLf)
        } else {
            (rest, LineEnding::Lf)
        }
    } else {
        (line, LineEnding::Missing)
    }
}

/// Index of the first newline in `s`, or `s.len()` when there is none.
pub open spec fn first_newline(s: Seq<char>) -> nat
    decreases s.len(),
{
    if s.len() == 0 {
        0
    } else if s[0] == '\n' {
        0
    } else {
        1 + first_newline(s.drop_first())
    }
}

/// `s` cut after each newline, each piece keeping its newline. A document ending in a newline
/// has no empty piece after it.
pub open spec fn split_inclusive(s: Seq<char>) -> Seq<Seq<char>>
    decreases s.len(),
{
    if s.len() == 0 {
        seq![]
    } else {
        let k = first_newline(s);
        if k < s.len() {
            seq![s.take(k + 1 as int)] + split_inclusive(s.skip(k + 1 as int))
        } else {
            seq![s]
        }
    }
}

/// The lines of a document, each with the terminator it ended on.
pub open spec fn lines_of(s: Seq<char>) -> Seq<(Seq<char>, LineEnding)> {
    split_inclusive(s).map_values(|piece: Seq<char>| stripped(piece))
}

pub open spec fn has_newline(s: Seq<char>) -> bool {
    exists|i: int| 0 <= i < s.len() && s[i] == '\n'
}

proof fn lemma_first_newline_after(cur: Seq<char>, rest: Seq<char>)
    requires
        !has_newline(cur),
    ensures
        first_newline(cur + rest) == cur.len() + first_newline(rest),
    decreases cur.len(),
{
    if cur.len() > 0 {
        assert((cur + rest).drop_first() =~= cur.drop_first() + rest);
        assert(!has_newline(cur.drop_first())) by {
            if has_newline(cur.drop_first()) {
                let i = choose|i: int| 0 <= i < cur.drop_first().len() && cur.drop_first()[i] == '\n';
                assert(cur[i + 1] == '\n');
            }
        }
        assert((cur + rest)[0] == cur[0]);
        assert(cur[0] != '\n');
        lemma_first_newline_after(cur.drop_first(), rest);
    } else {
        assert(cur + rest =~= rest);
    }
}

proof fn lemma_first_newline_bound(s: Seq<char>)
    ensures
        first_newline(s) <= s.len(),
        first_newline(s) < s.len() ==> s[first_newline(s) as int] == '\n',
        first_newline(s) == s.len() ==> !has_newline(s),
    decreases s.len(),
{
    if s.len() > 0 && s[0] != '\n' {
        lemma_first_newline_bound(s.drop_first());
        if first_newline(s) == s.len() && has_newline(s) {
            let i = choose|i: int| 0 <= i < s.len() && s[i] == '\n';
            assert(s.drop_first()[i - 1] == '\n');
        }
    }
}

/// Splitting what follows a line with no newline yet: a newline closes that line.
proof fn lemma_split_at_newline(cur: Seq<char>, rest: Seq<char>)
    requires
        !has_newline(cur),
    ensures
        split_inclusive(cur.push('\n') + rest) == seq![cur.push('\n')] + split_inclusive(rest),
{
    let whole = cur.push('\n') + rest;
    lemma_first_newline_after(cur, seq!['\n'] + rest);
    assert(cur + (seq!['\n'] + rest) =~= whole);
    assert(first_newline(seq!['\n'] + rest) == 0);
    assert(whole.take(cur.len() + 1 as int) =~= cur.push('\n'));
    assert(whole.skip(cur.len() + 1 as int) =~= rest);
}

/// A piece with no newline is one line, or none when it is empty.
proof fn lemma_split_tail(cur: Seq<char>)
    requires
        !has_newline(cur),
    ensures
        split_inclusive(cur) == if cur.len() == 0 {
            Seq::<Seq<char>>::empty()
        } else {
            seq![cur]
        },
{
    if cur.len() > 0 {
        lemma_first_newline_after(cur, Seq::<char>::empty());
        assert(cur + Seq::<char>::empty() =~= cur);
    }
}

/// Splits off a trailing line terminator, reporting which one it was.
///
/// A carriage return counts as part of the terminator rather than as content: it is a
/// line-ending artifact, and leaving it in renders as a stray glyph.
pub fn strip_terminator(line: &str) -> (r: (&str, LineEnding))
    ensures
        r.0@ == stripped(line@).0,
        r.1 == stripped(line@).1,
{
    let n = line.unicode_len();
    if n > 0 && line.get_char(n - 1) == '\n' {
        if n > 1 && line.get_char(n - 2) == '\r' {
            let rest = line.substring_char(0, n - 2);
            assert(rest@ =~= line@.drop_last().drop_last());
            (rest, LineEnding::CrLf)
        } else {
            let rest = line.substring_char(0, n - 1);
            assert(rest@ =~= line@.drop_last());
            (rest, LineEnding::Lf)
        }
    } else {
        (line, LineEnding::Missing)
    }
}

/// Splits a document into lines, each with the terminator it ended on.
///
/// A document ending in a newline yields no final empty line, because there is no line there.
/// A line as handed out, against the line it should be.
pub open spec fn line_is(l: (String, LineEnding), expected: (Seq<char>, LineEnding)) -> bool {
    l.0@ == expected.0 && l.1 == expected.1
}

pub fn split_lines(source: &str) -> (lines: Vec<(String, LineEnding)>)
    ensures
        lines@.len() == lines_of(source@).len(),
        forall|i: int|
            0 <= i < lines@.len() ==> #[trigger] lines@[i].0@ == lines_of(source@)[i].0
                && lines@[i].1 == lines_of(source@)[i].1,
{
    let ghost s = source@;
    let mut lines: Vec<(String, LineEnding)> = Vec::new();
    let mut cur = String::new();
    let ghost mut done: Seq<Seq<char>> = seq![];
    let ghost mut i: int = 0;
    proof {
        assert(cur@ + s.skip(0) =~= s);
        assert(done + split_inclusive(s) =~= split_inclusive(s));
    }
    for ch in it: source.chars()
        invariant
            it.seq() == s,
            s == source@,
            i == it.index(),
            0 <= i <= s.len(),
            !has_newline(cur@),
            split_inclusive(s) == done + split_inclusive(cur@ + s.skip(i)),
            lines@.len() == done.len(),
            forall|k: int|
                0 <= k < lines@.len() ==> line_is(#[trigger] lines@[k], stripped(done[k])),
    {
        let ghost before = cur@;
        assert(s.skip(i) =~= seq![ch] + s.skip(i + 1));
        push_char(&mut cur, ch);
        if ch == '\n' {
            proof {
                lemma_split_at_newline(before, s.skip(i + 1));
                assert(before + s.skip(i) =~= before.push('\n') + s.skip(i + 1));
            }
            let ghost old_lines = lines@;
            let (text, ending) = strip_terminator(cur.as_str());
            lines.push((text.to_owned(), ending));
            proof {
                let old_done = done;
                done = done.push(before.push('\n'));
                assert(old_done + (seq![before.push('\n')] + split_inclusive(s.skip(i + 1)))
                    =~= done + split_inclusive(s.skip(i + 1)));
                assert forall|k: int| 0 <= k < lines@.len() implies line_is(#[trigger] lines@[k], stripped(done[k])) by {
                    if k < old_lines.len() {
                        assert(lines@[k] == old_lines[k]);
                        assert(done[k] == old_done[k]);
                    }
                }
            }
            cur = String::new();
            assert(cur@ + s.skip(i + 1) =~= s.skip(i + 1));
            assert(forall|k: int|
                0 <= k < lines@.len() ==> line_is(#[trigger] lines@[k], stripped(done[k])));
        } else {
            proof {
                assert(before + s.skip(i) =~= cur@ + s.skip(i + 1));
                assert(!has_newline(cur@)) by {
                    if has_newline(cur@) {
                        let k = choose|k: int| 0 <= k < cur@.len() && cur@[k] == '\n';
                        if k < before.len() {
                            assert(before[k] == '\n');
                        }
                    }
                }
            }
            assert(forall|k: int|
                0 <= k < lines@.len() ==> line_is(#[trigger] lines@[k], stripped(done[k])));
        }
        proof {
            i = i + 1;
        }
    }
    proof {
        assert(s.skip(i) =~= Seq::<char>::empty());
        assert(cur@ + s.skip(i) =~= cur@);
        lemma_split_tail(cur@);
    }
    if !cur.as_str().is_empty() {
        let ghost old_lines = lines@;
        let ghost old_done = done;
        let (text, ending) = strip_terminator(cur.as_str());
        lines.push((text.to_owned(), ending));
        proof {
            done = done.push(cur@);
            assert forall|k: int| 0 <= k < lines@.len() implies line_is(#[trigger] lines@[k], stripped(done[k])) by {
                if k < old_lines.len() {
                    assert(lines@[k] == old_lines[k]);
                    assert(done[k] == old_done[k]);
                }
            }
        }
    } else {
        assert(done + Seq::<Seq<char>>::empty() =~= done);
    }
    proof {
        assert(split_inclusive(s) =~= done);
        assert forall|k: int| 0 <= k < lines@.len() implies #[trigger] lines@[k].0@
            == lines_of(source@)[k].0 && lines@[k].1 == lines_of(source@)[k].1 by {
            assert(lines_of(s)[k] == stripped(done[k]));
        }
    }
    lines
}

// == Laws

proof fn lemma_column_monotone(s: Seq<char>, opts: RenderOptions, i: nat, j: nat)
    requires
        i <= j,
    ensures
        column_at(s, i, opts) <= column_at(s, j, opts),
    decreases j - i,
{
    if i < j {
        lemma_column_monotone(s, opts, i, (j - 1) as nat);
    }
}

/// A character that occupies any columns is found again at the column it starts at: mapping a
/// source character to its display column and back gives the character.
pub proof fn law_a_drawn_character_is_found_at_its_column(s: Seq<char>, opts: RenderOptions, i: nat)
    requires
        i < s.len(),
        width_at(s, i, opts) > 0,
    ensures
        index_at(s, column_at(s, clamp_index(s, i), opts), opts) == i,
{
    let column = column_at(s, i, opts);
    assert forall|j: nat| 0 < j <= i implies column >= #[trigger] column_at(s, j, opts) by {
        lemma_column_monotone(s, opts, j, i);
    }
    assert(column < column_at(s, i + 1, opts));
    lemma_index_at(s, column, opts, i);
}

proof fn lemma_prefix_is_the_line(s: Seq<char>, opts: RenderOptions, i: nat)
    requires
        i <= s.len(),
        !opts.show_space_tabs,
        forall|k: int| 0 <= k < s.len() ==> s[k] != '\t',
    ensures
        rendered_prefix(s, i, opts) == s.take(i as int),
        text_width(s.take(i as int)) == column_at(s, i, opts),
    decreases i,
{
    if i > 0 {
        let j = (i - 1) as nat;
        lemma_prefix_is_the_line(s, opts, j);
        assert(s.take(i as int) =~= s.take(j as int).push(s[j as int]));
        assert(s.take(i as int).drop_last() =~= s.take(j as int));
    }
}

/// With nothing shown and no tab to expand, a line draws as itself, and the text drawn
/// measures exactly the columns the walk along the line reported.
pub proof fn law_an_untabbed_line_draws_as_itself(s: Seq<char>, ending: LineEnding, opts: RenderOptions)
    requires
        !opts.show_space_tabs,
        !opts.show_line_endings,
        forall|k: int| 0 <= k < s.len() ==> s[k] != '\t',
    ensures
        rendered_text(s, ending, opts) == s,
        text_width(rendered_text(s, ending, opts)) == rendered_columns(s, ending, opts),
{
    lemma_prefix_is_the_line(s, opts, s.len());
    assert(s.take(s.len() as int) =~= s);
    assert(rendered_text(s, ending, opts) =~= s);
}

/// The same options with whitespace shown the other way.
pub open spec fn flipped(opts: RenderOptions) -> RenderOptions {
    RenderOptions {
        tab_width: opts.tab_width,
        show_space_tabs: !opts.show_space_tabs,
        show_line_endings: opts.show_line_endings,
    }
}

/// Showing whitespace never moves the grid: every character starts at the same column, and
/// the line occupies the same columns, whether spaces and tabs are drawn as themselves or as
/// marks. Mapping a character to its column is therefore the same either way.
pub proof fn law_showing_whitespace_does_not_move_the_grid(
    s: Seq<char>,
    ending: LineEnding,
    opts: RenderOptions,
    i: nat,
)
    ensures
        column_at(s, i, opts) == column_at(s, i, flipped(opts)),
        rendered_columns(s, ending, opts) == rendered_columns(s, ending, flipped(opts)),
    decreases i,
{
    if i > 0 {
        law_showing_whitespace_does_not_move_the_grid(s, ending, opts, (i - 1) as nat);
    }
    lemma_columns_agree(s, opts, s.len());
}

proof fn lemma_columns_agree(s: Seq<char>, opts: RenderOptions, i: nat)
    ensures
        column_at(s, i, opts) == column_at(s, i, flipped(opts)),
    decreases i,
{
    if i > 0 {
        lemma_columns_agree(s, opts, (i - 1) as nat);
    }
}

proof fn lemma_text_width_add(a: Seq<char>, b: Seq<char>)
    ensures
        text_width(a + b) == text_width(a) + text_width(b),
    decreases b.len(),
{
    if b.len() == 0 {
        assert(a + b =~= a);
    } else {
        lemma_text_width_add(a, b.drop_last());
        assert((a + b).drop_last() =~= a + b.drop_last());
    }
}

proof fn lemma_text_width_spaces(n: nat)
    ensures
        text_width(spaces(n)) == n,
    decreases n,
{
    if n > 0 {
        lemma_text_width_spaces((n - 1) as nat);
        assert(spaces(n).drop_last() =~= spaces((n - 1) as nat));
    }
}

proof fn lemma_plain_prefix_width(s: Seq<char>, opts: RenderOptions, i: nat)
    requires
        i <= s.len(),
        !opts.show_space_tabs,
    ensures
        text_width(rendered_prefix(s, i, opts)) == column_at(s, i, opts),
    decreases i,
{
    if i > 0 {
        let j = (i - 1) as nat;
        lemma_plain_prefix_width(s, opts, j);
        let g = glyphs(s[j as int], width_at(s, j, opts), opts);
        lemma_text_width_add(rendered_prefix(s, j, opts), g);
        if s[j as int] == '\t' {
            lemma_text_width_spaces(width_at(s, j, opts));
        } else {
            assert(g == seq![s[j as int]]);
            assert(g.drop_last() =~= Seq::<char>::empty());
            assert(text_width(Seq::<char>::empty()) == 0);
            assert(text_width(g) == glyph_columns(s[j as int]));
        }
        assert(column_at(s, i, opts) == column_at(s, j, opts) + width_at(s, j, opts));
    }
}

/// With whitespace drawn as itself and no line ending shown, the drawn text measures exactly
/// the columns rendering reports: a tab becomes as many spaces as columns it advances.
pub proof fn law_a_plainly_drawn_line_measures_its_columns(
    s: Seq<char>,
    ending: LineEnding,
    opts: RenderOptions,
)
    requires
        !opts.show_space_tabs,
        !opts.show_line_endings,
    ensures
        text_width(rendered_text(s, ending, opts)) == rendered_columns(s, ending, opts),
{
    lemma_plain_prefix_width(s, opts, s.len());
    assert(rendered_text(s, ending, opts) =~= rendered_prefix(s, s.len(), opts));
}

proof fn lemma_prefix_holds_no_tab(s: Seq<char>, opts: RenderOptions, i: nat)
    ensures
        !rendered_prefix(s, i, opts).contains('\t'),
    decreases i,
{
    if i > 0 {
        let j = (i - 1) as nat;
        lemma_prefix_holds_no_tab(s, opts, j);
        let p = rendered_prefix(s, j, opts);
        let g = glyphs(s[j as int], width_at(s, j, opts), opts);
        assert forall|k: int| 0 <= k < (p + g).len() implies (p + g)[k] != '\t' by {
            if k < p.len() {
                assert((p + g)[k] == p[k]);
            } else {
                assert((p + g)[k] == g[k - p.len()]);
            }
        }
    }
}

/// A drawn line holds no tab: every tab has become spaces, or an arrow and spaces.
pub proof fn law_drawn_text_holds_no_tab(s: Seq<char>, ending: LineEnding, opts: RenderOptions)
    ensures
        !rendered_text(s, ending, opts).contains('\t'),
{
    lemma_prefix_holds_no_tab(s, opts, s.len());
    let p = rendered_prefix(s, s.len(), opts);
    let e = shown_ending(ending, opts);
    assert forall|k: int| 0 <= k < (p + e).len() implies (p + e)[k] != '\t' by {
        if k < p.len() {
            assert((p + e)[k] == p[k]);
        } else {
            assert((p + e)[k] == e[k - p.len()]);
        }
    }
}

/// The characters a line ending stands for.
pub open spec fn terminator(ending: LineEnding) -> Seq<char> {
    match ending {
        LineEnding::Lf => seq!['\n'],
        LineEnding::CrLf => seq!['\r', '\n'],
        LineEnding::Missing => seq![],
    }
}

/// Lines put back together, each followed by its terminator.
pub open spec fn rejoined(lines: Seq<(Seq<char>, LineEnding)>) -> Seq<char>
    decreases lines.len(),
{
    if lines.len() == 0 {
        seq![]
    } else {
        lines[0].0 + terminator(lines[0].1) + rejoined(lines.drop_first())
    }
}

proof fn lemma_stripped_back(piece: Seq<char>)
    ensures
        stripped(piece).0 + terminator(stripped(piece).1) == piece,
{
    if piece.len() > 0 && piece.last() == '\n' {
        let rest = piece.drop_last();
        if rest.len() > 0 && rest.last() == '\r' {
            assert(rest.drop_last() + seq!['\r', '\n'] =~= piece);
        } else {
            assert(rest + seq!['\n'] =~= piece);
        }
    } else {
        assert(piece + Seq::<char>::empty() =~= piece);
    }
}

/// Splitting a document into lines loses nothing: the lines, each followed by the terminator
/// it ended on, give the document back. There are no lines exactly when the document is empty,
/// so a trailing newline yields no final empty line.
pub proof fn law_rejoining_the_lines_gives_the_source(s: Seq<char>)
    ensures
        rejoined(lines_of(s)) == s,
        (lines_of(s).len() == 0) == (s.len() == 0),
    decreases s.len(),
{
    let f = |piece: Seq<char>| stripped(piece);
    if s.len() > 0 {
        let k = first_newline(s);
        lemma_first_newline_bound(s);
        if k < s.len() {
            let piece = s.take(k + 1 as int);
            let rest = s.skip(k + 1 as int);
            law_rejoining_the_lines_gives_the_source(rest);
            assert(split_inclusive(s) == seq![piece] + split_inclusive(rest));
            assert(lines_of(s) =~= seq![stripped(piece)] + lines_of(rest));
            assert(lines_of(s).drop_first() =~= lines_of(rest));
            lemma_stripped_back(piece);
            let ls = lines_of(s);
            assert(ls[0] == stripped(piece));
            assert(rejoined(ls) == ls[0].0 + terminator(ls[0].1) + rejoined(ls.drop_first()));
            assert(rejoined(ls) == piece + rest);
            assert(piece + rest =~= s);
        } else {
            assert(split_inclusive(s) == seq![s]);
            assert(lines_of(s) =~= seq![stripped(s)]);
            assert(lines_of(s).drop_first() =~= Seq::<(Seq<char>, LineEnding)>::empty());
            lemma_stripped_back(s);
            let ls = lines_of(s);
            assert(ls[0] == stripped(s));
            assert(rejoined(ls.drop_first()) == Seq::<char>::empty());
            assert(rejoined(ls) == ls[0].0 + terminator(ls[0].1) + rejoined(ls.drop_first()));
            assert(s + Seq::<char>::empty() =~= s);
        }
    } else {
        assert(lines_of(s) =~= Seq::<(Seq<char>, LineEnding)>::empty());
    }
}

/// A tab advances to the next stop: it takes at least one column and at most a full stop,
/// and the character after it starts on a multiple of the tab width.
pub proof fn law_a_tab_advances_to_the_next_stop(column: nat, opts: RenderOptions)
    ensures
        1 <= cell_width('\t', column, opts.stop()) <= opts.stop(),
        (column + cell_width('\t', column, opts.stop())) % opts.stop() == 0,
{
    let stop = opts.stop();
    lemma_tab_advance(column, stop);
    let q = column / stop;
    assert(column + cell_width('\t', column, stop) == (q + 1) * stop);
    vstd::arithmetic::div_mod::lemma_mod_multiples_basic((q + 1) as int, stop as int);
}

/// The bytes the drawn form of a character may take at most: a full stop of spaces and the
/// arrow's extra bytes for a tab, the dot or the space itself for a space, and the character's
/// own encoding otherwise.
pub open spec fn reserved(c: char, opts: RenderOptions) -> nat {
    if c == '\t' {
        opts.stop() + 2
    } else if c == ' ' {
        if opts.show_space_tabs {
            2
        } else {
            1
        }
    } else {
        vstd::utf8::encode_scalar(c as u32).len()
    }
}

/// The bytes reserved for every character of a line.
pub open spec fn reserved_all(s: Seq<char>, opts: RenderOptions) -> nat
    decreases s.len(),
{
    if s.len() == 0 {
        0
    } else {
        reserved_all(s.drop_last(), opts) + reserved(s.last(), opts)
    }
}

proof fn lemma_encode_add(a: Seq<char>, b: Seq<char>)
    ensures
        vstd::utf8::encode_utf8(a + b) == vstd::utf8::encode_utf8(a) + vstd::utf8::encode_utf8(b),
    decreases a.len(),
{
    if a.len() == 0 {
        assert(a + b =~= b);
    } else {
        lemma_encode_add(a.drop_first(), b);
        assert((a + b).drop_first() =~= a.drop_first() + b);
        assert((a + b)[0] == a[0]);
    }
}

proof fn lemma_encode_one(c: char)
    ensures
        vstd::utf8::encode_utf8(seq![c]) == vstd::utf8::encode_scalar(c as u32),
{
    let one = seq![c];
    assert(one[0] == c);
    assert(one.drop_first() =~= Seq::<char>::empty());
    assert(vstd::utf8::encode_utf8(Seq::<char>::empty()) == Seq::<u8>::empty());
    assert(vstd::utf8::encode_utf8(one) == vstd::utf8::encode_scalar(one[0] as u32)
        + vstd::utf8::encode_utf8(one.drop_first()));
    assert(vstd::utf8::encode_scalar(c as u32) + Seq::<u8>::empty() =~= vstd::utf8::encode_scalar(
        c as u32,
    ));
}

proof fn lemma_count_add(a: Seq<u8>, b: Seq<u8>, x: u8)
    ensures
        count_byte(a + b, x) == count_byte(a, x) + count_byte(b, x),
    decreases b.len(),
{
    if b.len() == 0 {
        assert(a + b =~= a);
    } else {
        lemma_count_add(a, b.drop_last(), x);
        assert((a + b).drop_last() =~= a + b.drop_last());
    }
}

/// A character's encoding holds a tab or space byte only when it is that character, and that
/// character encodes as the one byte.
proof fn lemma_scalar_bytes(c: char)
    ensures
        ({
            let e = vstd::utf8::encode_scalar(c as u32);
            &&& count_byte(e, 9) == (if c == '\t' {
                1nat
            } else {
                0nat
            })
            &&& count_byte(e, 32) == (if c == ' ' {
                1nat
            } else {
                0nat
            })
            &&& e.len() >= 1
            &&& (c == '\t' || c == ' ') ==> e.len() == 1
        }),
{
    let v = c as u32;
    vstd::utf8::char_is_scalar(c);
    vstd::utf8::char_u32_cast(c, v);
    vstd::utf8::char_u32_cast('\t', 9);
    vstd::utf8::char_u32_cast(' ', 32);
    let e = vstd::utf8::encode_scalar(v);
    if vstd::utf8::has_width_1_encoding(v) {
        assert(v & 0x7f == v) by (bit_vector)
            requires
                v <= 0x7f,
        ;
        let b = vstd::utf8::leading_byte_width_1(v);
        assert(b == v);
        assert(e == seq![b]);
        assert(e.drop_last() =~= Seq::<u8>::empty());
        assert(count_byte(e, 9) == count_byte(e.drop_last(), 9) + if e.last() == 9 {
            1nat
        } else {
            0nat
        });
        assert(count_byte(e, 32) == count_byte(e.drop_last(), 32) + if e.last() == 32 {
            1nat
        } else {
            0nat
        });
        assert(v == 9 ==> c == '\t');
        assert(v == 32 ==> c == ' ');
    } else {
        let b1 = vstd::utf8::leading_byte_width_2(v);
        let b2 = vstd::utf8::last_continuation_byte(v);
        let b3 = vstd::utf8::second_last_continuation_byte(v);
        let b4 = vstd::utf8::third_last_continuation_byte(v);
        let l3 = vstd::utf8::leading_byte_width_3(v);
        let l4 = vstd::utf8::leading_byte_width_4(v);
        assert(b1 >= 0x80 && b2 >= 0x80 && b3 >= 0x80 && b4 >= 0x80 && l3 >= 0x80 && l4 >= 0x80)
            by (bit_vector)
            requires
                b1 == 0xC0 | ((v >> 6) & 0x1F) as u8,
                b2 == 0x80 | (v & 0x3F) as u8,
                b3 == 0x80 | ((v >> 6) & 0x3F) as u8,
                b4 == 0x80 | ((v >> 12) & 0x3F) as u8,
                l3 == 0xE0 | ((v >> 12) & 0x0F) as u8,
                l4 == 0xF0 | ((v >> 18) & 0x7) as u8,
        ;
        if vstd::utf8::has_width_2_encoding(v) {
            assert(e == seq![b1, b2]);
        } else if vstd::utf8::has_width_3_encoding(v) {
            assert(e == seq![l3, b3, b2]);
        } else {
            assert(e == seq![l4, b4, b3, b2]);
        }
        assert(forall|k: int| 0 <= k < e.len() ==> e[k] >= 0x80);
        lemma_count_none(e, 9);
        lemma_count_none(e, 32);
        assert(c != '\t' && c != ' ');
    }
}

proof fn lemma_count_none(b: Seq<u8>, x: u8)
    requires
        x < 0x80,
        forall|k: int| 0 <= k < b.len() ==> b[k] >= 0x80,
    ensures
        count_byte(b, x) == 0,
    decreases b.len(),
{
    if b.len() > 0 {
        lemma_count_none(b.drop_last(), x);
    }
}

/// What `capacity_for` counts over a line's bytes is what `reserved_all` counts over its
/// characters, with the ending's bytes on top.
proof fn lemma_capacity_by_chars(s: Seq<char>, opts: RenderOptions)
    ensures
        capacity_for(vstd::utf8::encode_utf8(s), opts) == reserved_all(s, opts) + (
        if opts.show_line_endings {
            5nat
        } else {
            0nat
        }),
        count_byte(vstd::utf8::encode_utf8(s), 9) + count_byte(vstd::utf8::encode_utf8(s), 32)
            <= vstd::utf8::encode_utf8(s).len(),
    decreases s.len(),
{
    let b = vstd::utf8::encode_utf8(s);
    if s.len() == 0 {
        assert(b.len() == 0);
        assert(count_byte(b, 9) == 0 && count_byte(b, 32) == 0);
        assert(reserved_all(s, opts) == 0);
    } else {
        let a = s.drop_last();
        let c = s.last();
        lemma_capacity_by_chars(a, opts);
        assert(s =~= a + seq![c]);
        lemma_encode_add(a, seq![c]);
        lemma_encode_one(c);
        let ea = vstd::utf8::encode_utf8(a);
        let ec = vstd::utf8::encode_scalar(c as u32);
        lemma_count_add(ea, ec, 9);
        lemma_count_add(ea, ec, 32);
        lemma_scalar_bytes(c);
        let t1 = count_byte(ea, 9);
        let p1 = count_byte(ea, 32);
        let t2 = count_byte(ec, 9);
        let p2 = count_byte(ec, 32);
        let pt = opts.stop() + 2;
        let ps: nat = if opts.show_space_tabs {
            2
        } else {
            1
        };
        assert((t1 + t2) * pt == t1 * pt + t2 * pt) by (nonlinear_arith);
        assert((p1 + p2) * ps == p1 * ps + p2 * ps) by (nonlinear_arith);
        assert(ec.len() - t2 - p2 + t2 * pt + p2 * ps == reserved(c, opts));
        assert(b == ea + ec);
        assert(count_byte(b, 9) == t1 + t2);
        assert(count_byte(b, 32) == p1 + p2);
        assert(b.len() == ea.len() + ec.len());
        let end: nat = if opts.show_line_endings {
            5
        } else {
            0
        };
        assert(capacity_for(ea, opts) == ea.len() - t1 - p1 + t1 * pt + p1 * ps + end);
        assert(capacity_for(b, opts) == b.len() - (t1 + t2) - (p1 + p2) + (t1 + t2) * pt + (p1
            + p2) * ps + end);
        assert(reserved_all(s, opts) == reserved_all(a, opts) + reserved(c, opts));
    }
}

proof fn lemma_encode_spaces(n: nat)
    ensures
        vstd::utf8::encode_utf8(spaces(n)).len() == n,
    decreases n,
{
    if n > 0 {
        lemma_encode_spaces((n - 1) as nat);
        assert(spaces(n) =~= spaces((n - 1) as nat) + seq![' ']);
        lemma_encode_add(spaces((n - 1) as nat), seq![' ']);
        lemma_encode_one(' ');
    }
}

proof fn lemma_rendered_bytes(s: Seq<char>, opts: RenderOptions, i: nat)
    requires
        i <= s.len(),
    ensures
        vstd::utf8::encode_utf8(rendered_prefix(s, i, opts)).len() <= reserved_all(
            s.take(i as int),
            opts,
        ),
    decreases i,
{
    if i > 0 {
        let j = (i - 1) as nat;
        lemma_rendered_bytes(s, opts, j);
        let c = s[j as int];
        let w = width_at(s, j, opts);
        let g = glyphs(c, w, opts);
        lemma_encode_add(rendered_prefix(s, j, opts), g);
        assert(s.take(i as int).drop_last() =~= s.take(j as int));
        assert(s.take(i as int).last() == c);
        if c == '\t' {
            lemma_tab_advance(column_at(s, j, opts), opts.stop());
            if opts.show_space_tabs {
                lemma_encode_add(seq![TAB_MARK], spaces((w - 1) as nat));
                lemma_encode_one(TAB_MARK);
                lemma_encode_spaces((w - 1) as nat);
            } else {
                lemma_encode_spaces(w);
            }
        } else if c == ' ' && opts.show_space_tabs {
            lemma_encode_one(SPACE_MARK);
        } else {
            lemma_encode_one(c);
        }
    }
}

/// The capacity reserved for a drawn line is an upper bound on the bytes it takes, whatever
/// the line, its ending and the options: a tab takes at most a full stop of spaces and the
/// arrow, a shown space the two byte dot, and the shown endings at most five bytes.
pub proof fn law_the_reserved_capacity_bounds_the_drawn_bytes(
    s: Seq<char>,
    ending: LineEnding,
    opts: RenderOptions,
)
    ensures
        vstd::utf8::encode_utf8(rendered_text(s, ending, opts)).len() <= capacity_for(
            vstd::utf8::encode_utf8(s),
            opts,
        ),
{
    lemma_rendered_bytes(s, opts, s.len());
    assert(s.take(s.len() as int) =~= s);
    lemma_capacity_by_chars(s, opts);
    let p = rendered_prefix(s, s.len(), opts);
    let e = shown_ending(ending, opts);
    lemma_encode_add(p, e);
    if opts.show_line_endings {
        match ending {
            LineEnding::Lf => {
                lemma_encode_one(LF_MARK);
            },
            LineEnding::CrLf => {
                lemma_encode_add(seq![CR_MARK], seq![LF_MARK]);
                assert(seq![CR_MARK] + seq![LF_MARK] =~= seq![CR_MARK, LF_MARK]);
                lemma_encode_one(CR_MARK);
                lemma_encode_one(LF_MARK);
            },
            LineEnding::Missing => {},
        }
    }
}

proof fn lemma_before_first_newline(s: Seq<char>)
    ensures
        forall|i: int| 0 <= i < first_newline(s) ==> s[i] != '\n',
    decreases s.len(),
{
    lemma_first_newline_bound(s);
    if s.len() > 0 && s[0] != '\n' {
        lemma_before_first_newline(s.drop_first());
        assert forall|i: int| 0 <= i < first_newline(s) implies s[i] != '\n' by {
            if i > 0 {
                assert(s[i] == s.drop_first()[i - 1]);
            }
        }
    }
}

/// The lines of a document hold no newline, and every line but the last ended on one: only
/// the last line can be missing its terminator.
pub proof fn law_lines_hold_no_newline_and_only_the_last_may_lack_an_ending(s: Seq<char>)
    ensures
        forall|i: int|
            0 <= i < lines_of(s).len() ==> !(#[trigger] lines_of(s)[i]).0.contains('\n'),
        forall|i: int|
            0 <= i < lines_of(s).len() - 1 ==> (#[trigger] lines_of(s)[i]).1 != LineEnding::Missing,
    decreases s.len(),
{
    let ls = lines_of(s);
    if s.len() > 0 {
        let k = first_newline(s);
        lemma_first_newline_bound(s);
        lemma_before_first_newline(s);
        if k < s.len() {
            let piece = s.take(k + 1 as int);
            let rest = s.skip(k + 1 as int);
            law_lines_hold_no_newline_and_only_the_last_may_lack_an_ending(rest);
            assert(split_inclusive(s) == seq![piece] + split_inclusive(rest));
            assert(ls =~= seq![stripped(piece)] + lines_of(rest));
            assert(piece.last() == '\n');
            let t = stripped(piece).0;
            assert(stripped(piece).1 != LineEnding::Missing);
            assert forall|m: int| 0 <= m < t.len() implies t[m] != '\n' by {
                assert(t[m] == piece[m]);
                assert(piece[m] == s[m]);
            }
            assert forall|i: int| 0 <= i < ls.len() implies !(#[trigger] ls[i]).0.contains('\n') by {
                if i > 0 {
                    assert(ls[i] == lines_of(rest)[i - 1]);
                }
            }
            assert forall|i: int| 0 <= i < ls.len() - 1 implies (#[trigger] ls[i]).1
                != LineEnding::Missing by {
                if i > 0 {
                    assert(ls[i] == lines_of(rest)[i - 1]);
                }
            }
        } else {
            assert(split_inclusive(s) == seq![s]);
            assert(ls =~= seq![stripped(s)]);
            assert(s.last() != '\n');
            assert(stripped(s).0 == s);
            assert(!ls[0].0.contains('\n'));
        }
    } else {
        assert(ls =~= Seq::<(Seq<char>, LineEnding)>::empty());
    }
}

/// The walk along a line places each character where the last one ended: the first at column
/// zero, and each next one its width further on.
pub proof fn law_each_character_starts_where_the_last_ended(s: Seq<char>, opts: RenderOptions, k: nat)
    requires
        k < s.len(),
    ensures
        column_at(s, 0, opts) == 0,
        column_at(s, k + 1, opts) == column_at(s, k, opts) + width_at(s, k, opts),
{
}

} // verus!
