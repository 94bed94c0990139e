//! Laying a parsed diff out as a sequence of rows.
//!
//! A unified diff describes changes; a view shows a list. This is where one becomes the other,
//! and it stops short of anything about drawing: a row says which line of which file belongs
//! at a position, not what that line looks like.
//!
//! ```text
//! Layout                    one diff, arranged for one view
//!  +- Row                   one position in that arrangement
//!      +- Lines(LinePair)   content: a line from the before-file, the after-file, or both
//!      +- Gap { .. }        lines that exist but are not shown, and what is happening to them
//!      +- Header            the file itself rather than anything in it
//! ```

use std::ops::Range;
use vstd::prelude::*;

use crate::diff::model::{
    fetch_ends_fit, hunks_of, views_of, DiffLine, Fetch, FetchState, FileDiff, Hunk, HunkView,
    LineKind, LineRef,
};

verus! {

/// Why a gap's lines are not on screen.
#[derive(Debug, Clone, Copy, PartialEq, Eq, Structural)]
pub enum GapState {
    /// Nobody has asked for them.
    Hidden,
    /// Somebody has, and they have not arrived.
    Waiting,
    /// Somebody did, and it did not work.
    Failed,
}

impl Default for GapState {
    fn default() -> (s: GapState)
        ensures
            s == GapState::Hidden,
    {
        GapState::Hidden
    }
}

/// One line of a file, at the position it was laid out: a line number and the way back to its
/// text.
#[derive(Debug, Clone, Copy, PartialEq, Eq, Structural)]
pub struct Line {
    /// 1-based, in whichever file this row belongs to.
    pub line: u32,
    pub source: LineRef,
}

/// One position of a diff, holding whichever side has a line there.
///
/// Both sides present means an unchanged line shown twice, or a removal paired with the
/// addition that replaced it. One side absent is a line with no counterpart.
#[derive(Debug, Clone, Copy, PartialEq, Eq, Structural)]
pub struct LinePair {
    pub left: Option<Line>,
    pub right: Option<Line>,
}

/// One position in a laid-out diff.
#[derive(Debug, Clone, PartialEq, Eq)]
pub enum Row {
    Lines(LinePair),
    Gap {
        /// Where the hidden run starts on each side, so opening it knows what to ask for.
        left_start: u32,
        right_start: u32,
        hidden: u32,
        state: GapState,
        /// The run being fetched, numbered on the right, when one is.
        pending: Option<(u32, u32)>,
        /// The heading of the hunk this gap runs up to.
        heading: Option<String>,
        /// Why a fetch failed, when one did.
        reason: Option<String>,
    },
    Header,
}

/// A diff laid out for one arrangement. One list serves both panes of a two-column view,
/// since a pane reads its own side of each entry.
#[derive(Debug, Clone, Default, PartialEq, Eq)]
pub struct Layout {
    pub rows: Vec<Row>,
}

/// What to lay out, as opposed to how to draw it.
#[derive(Debug, Clone, Copy, Default, PartialEq, Eq)]
pub struct RowOptions {
    /// Prepend an entry naming the file.
    pub include_file_header: bool,
    /// Total lines in the left file. Without it there is no way to know whether anything
    /// follows the last hunk, so no trailing gap is produced.
    pub left_total_lines: Option<u32>,
    /// Total lines in the right file. See `left_total_lines`.
    pub right_total_lines: Option<u32>,
}

// == Spec: what a layout is

pub open spec fn max_nat(a: nat, b: nat) -> nat {
    if a >= b {
        a
    } else {
        b
    }
}

/// `a - b`, or zero.
pub open spec fn sat_sub(a: int, b: int) -> nat {
    if a > b {
        (a - b) as nat
    } else {
        0
    }
}

/// The first line past a hunk on one side; at least line 1.
pub open spec fn next_after(start: u32, len: u32) -> u32 {
    if start + len >= 1 {
        (start + len) as u32
    } else {
        1
    }
}

/// The first line not yet covered on each side when hunk `k` is reached. Only the hunk just
/// before matters: hunks are walked in order and each one moves the cursor past itself.
pub open spec fn cursor(hs: Seq<HunkView>, k: int) -> (u32, u32) {
    if k <= 0 {
        (1, 1)
    } else {
        (
            next_after(hs[k - 1].left_start, hs[k - 1].left_len),
            next_after(hs[k - 1].right_start, hs[k - 1].right_len),
        )
    }
}

/// How many lines are hidden between the cursor and hunk `k`: the larger of the two sides,
/// which agree wherever both files have the content.
pub open spec fn hidden_before(hs: Seq<HunkView>, k: int) -> nat {
    max_nat(
        sat_sub(hs[k].left_start as int, cursor(hs, k).0 as int),
        sat_sub(hs[k].right_start as int, cursor(hs, k).1 as int),
    )
}

pub open spec fn hidden_after_total(total: Option<u32>, next: u32) -> nat {
    match total {
        Some(t) => sat_sub(t + 1, next as int),
        None => 0,
    }
}

/// How many lines follow the last hunk, as far as the totals say.
pub open spec fn hidden_after(hs: Seq<HunkView>, opts: RowOptions) -> nat {
    if hs.len() == 0 {
        0
    } else {
        let c = cursor(hs, hs.len() as int);
        max_nat(
            hidden_after_total(opts.left_total_lines, c.0),
            hidden_after_total(opts.right_total_lines, c.1),
        )
    }
}

/// Whether a fetch touches any of `count` hidden lines starting at `right_start`.
pub open spec fn overlaps(f: Fetch, right_start: u32, count: nat) -> bool {
    f.right_start < right_start + count && right_start < f.right_start + f.count
}

/// What is happening to a run of hidden lines, as the fetches say.
pub struct GapProgress {
    pub state: GapState,
    pub pending: Option<(u32, u32)>,
    pub reason: Option<String>,
}

/// The overlapping fetch still in flight that was recorded first wins outright; failing
/// that, the last recorded failure; failing that, nothing is happening.
pub open spec fn progress(fs: Seq<Fetch>, right_start: u32, count: nat) -> GapProgress
    decreases fs.len(),
{
    if fs.len() == 0 {
        GapProgress { state: GapState::Hidden, pending: None, reason: None }
    } else {
        let before = progress(fs.drop_last(), right_start, count);
        let f = fs.last();
        if before.state == GapState::Waiting || !overlaps(f, right_start, count) {
            before
        } else {
            match f.state {
                FetchState::Waiting => GapProgress {
                    state: GapState::Waiting,
                    pending: Some((f.right_start, f.count)),
                    reason: None,
                },
                FetchState::Failed(why) => GapProgress {
                    state: GapState::Failed,
                    pending: None,
                    reason: Some(why),
                },
            }
        }
    }
}

/// The gap for a run of hidden lines: one entry however much of it is being fetched, or
/// nothing when no line is hidden.
pub open spec fn gap_rows(
    left_start: u32,
    right_start: u32,
    hidden: nat,
    heading: Option<String>,
    fetches: Seq<Fetch>,
) -> Seq<Row> {
    if hidden == 0 {
        seq![]
    } else {
        let p = progress(fetches, right_start, hidden);
        seq![
            Row::Gap {
                left_start,
                right_start,
                hidden: hidden as u32,
                state: p.state,
                pending: p.pending,
                heading,
                reason: p.reason,
            },
        ]
    }
}

/// The line of a hunk at one position, numbered by whichever side carries it.
pub open spec fn side_line(hunk: nat, index: nat, line: DiffLine) -> Option<Line> {
    let number = match line.kind {
        LineKind::Removed => line.left_line,
        _ => line.right_line,
    };
    match number {
        Some(n) => Some(Line { line: n, source: LineRef { hunk: hunk as u32, line: index as u32 } }),
        None => None,
    }
}

/// An unchanged line, which stands on both sides at once.
pub open spec fn context_pair(hunk: nat, index: nat, line: DiffLine) -> LinePair {
    let source = LineRef { hunk: hunk as u32, line: index as u32 };
    LinePair {
        left: match line.left_line {
            Some(n) => Some(Line { line: n, source }),
            None => None,
        },
        right: match line.right_line {
            Some(n) => Some(Line { line: n, source }),
            None => None,
        },
    }
}

/// A removal or an addition, which exists on one side only.
pub open spec fn one_sided_pair(hunk: nat, index: nat, line: DiffLine) -> LinePair {
    if line.kind == LineKind::Removed {
        LinePair { left: side_line(hunk, index, line), right: None }
    } else {
        LinePair { left: None, right: side_line(hunk, index, line) }
    }
}

/// Where the run of lines of one kind starting at `i` ends.
pub open spec fn run_end(lines: Seq<DiffLine>, i: nat, kind: LineKind) -> nat
    decreases lines.len() - i,
{
    if i < lines.len() && lines[i as int].kind == kind {
        run_end(lines, i + 1, kind)
    } else {
        i
    }
}

pub proof fn lemma_run_end(lines: Seq<DiffLine>, i: nat, kind: LineKind)
    ensures
        run_end(lines, i, kind) >= i,
        i <= lines.len() ==> run_end(lines, i, kind) <= lines.len(),
        i < lines.len() && lines[i as int].kind == kind ==> run_end(lines, i, kind) > i,
        forall|j: int| i <= j < run_end(lines, i, kind) ==> (#[trigger] lines[j]).kind == kind,
        run_end(lines, i, kind) < lines.len() ==> lines[run_end(lines, i, kind) as int].kind
            != kind,
    decreases lines.len() - i,
{
    if i < lines.len() && lines[i as int].kind == kind {
        lemma_run_end(lines, i + 1, kind);
    }
}

/// A hunk's lines grouped into what they mean: an unchanged line, or a change block of
/// removals and the additions that replaced them. Either run of a change may be empty, and
/// the runs are index ranges so that a row can record which line it came from.
enum Block {
    Context(usize),
    Change { removed: Range<usize>, added: Range<usize> },
}

/// Where the block starting at `i` ends.
pub open spec fn block_end(lines: Seq<DiffLine>, i: nat) -> nat {
    if lines[i as int].kind == LineKind::Context {
        i + 1
    } else {
        run_end(lines, run_end(lines, i, LineKind::Removed), LineKind::Added)
    }
}

/// The block starting at `i`.
spec fn block_at(lines: Seq<DiffLine>, i: nat) -> Block {
    if lines[i as int].kind == LineKind::Context {
        Block::Context(i as usize)
    } else {
        let r = run_end(lines, i, LineKind::Removed);
        Block::Change {
            removed: (i as usize)..(r as usize),
            added: (r as usize)..(run_end(lines, r, LineKind::Added) as usize),
        }
    }
}

pub proof fn lemma_block_end(lines: Seq<DiffLine>, i: nat)
    requires
        i < lines.len(),
    ensures
        i < block_end(lines, i) <= lines.len(),
{
    let r = run_end(lines, i, LineKind::Removed);
    lemma_run_end(lines, i, LineKind::Removed);
    lemma_run_end(lines, r, LineKind::Added);
    if lines[i as int].kind != LineKind::Context && r == i {
        assert(lines[i as int].kind == LineKind::Added);
    }
}

/// The blocks of `lines` from position `i` on.
spec fn blocks_from(lines: Seq<DiffLine>, i: nat) -> Seq<Block>
    decreases lines.len() - i,
{
    if i < lines.len() {
        proof {
            lemma_block_end(lines, i);
        }
        seq![block_at(lines, i)] + blocks_from(lines, block_end(lines, i))
    } else {
        seq![]
    }
}

/// The rows a change block becomes: in one column the removals then the additions, in two
/// the runs opposite each other with the shorter padded by absent lines.
pub open spec fn change_rows(
    hunk: nat,
    lines: Seq<DiffLine>,
    start: nat,
    mid: nat,
    end: nat,
    split: bool,
) -> Seq<Row> {
    if split {
        Seq::new(
            max_nat((mid - start) as nat, (end - mid) as nat),
            |slot: int|
                Row::Lines(
                    LinePair {
                        left: if start + slot < mid {
                            side_line(hunk, (start + slot) as nat, lines[start + slot])
                        } else {
                            None
                        },
                        right: if mid + slot < end {
                            side_line(hunk, (mid + slot) as nat, lines[mid + slot])
                        } else {
                            None
                        },
                    },
                ),
        )
    } else {
        Seq::new(
            (mid - start) as nat,
            |k: int|
                Row::Lines(one_sided_pair(hunk, (start + k) as nat, lines[start + k])),
        ) + Seq::new(
            (end - mid) as nat,
            |k: int| Row::Lines(one_sided_pair(hunk, (mid + k) as nat, lines[mid + k])),
        )
    }
}

/// The rows for a hunk's lines from position `i` on.
pub open spec fn body_from(hunk: nat, lines: Seq<DiffLine>, i: nat, split: bool) -> Seq<Row>
    decreases lines.len() - i,
{
    if i < lines.len() {
        proof {
            lemma_block_end(lines, i);
        }
        let here = if lines[i as int].kind == LineKind::Context {
            seq![Row::Lines(context_pair(hunk, i, lines[i as int]))]
        } else {
            let mid = run_end(lines, i, LineKind::Removed);
            change_rows(hunk, lines, i, mid, run_end(lines, mid, LineKind::Added), split)
        };
        here + body_from(hunk, lines, block_end(lines, i), split)
    } else {
        seq![]
    }
}

/// Hunk `k` and the gap before it.
pub open spec fn hunk_rows(hs: Seq<HunkView>, k: int, fetches: Seq<Fetch>, split: bool) -> Seq<Row> {
    let c = cursor(hs, k);
    gap_rows(c.0, c.1, hidden_before(hs, k), hs[k].heading, fetches) + body_from(
        k as nat,
        hs[k].lines,
        0,
        split,
    )
}

/// The first `n` hunks, each preceded by its gap.
pub open spec fn rows_upto(hs: Seq<HunkView>, n: int, fetches: Seq<Fetch>, split: bool) -> Seq<Row>
    decreases n,
{
    if n <= 0 {
        seq![]
    } else {
        rows_upto(hs, n - 1, fetches, split) + hunk_rows(hs, n - 1, fetches, split)
    }
}

/// A file laid out: an optional header, every hunk with the gap before it, and the gap after
/// the last hunk when the file's length says there is one.
pub open spec fn laid_out(file: FileDiff, opts: RowOptions, split: bool) -> Seq<Row> {
    let hs = file.hunk_views();
    let header = if opts.include_file_header {
        seq![Row::Header]
    } else {
        seq![]
    };
    let c = cursor(hs, hs.len() as int);
    header + rows_upto(hs, hs.len() as int, file.fetches@, split) + gap_rows(
        c.0,
        c.1,
        hidden_after(hs, opts),
        None,
        file.fetches@,
    )
}

/// The arithmetic of walking a file's gaps stays within `u32`: hunk and fetch ends; the file
/// totals, which are read once there is a hunk; and, once there is a fetch to compare against,
/// the end of every hidden run on the right.
pub open spec fn walk_fits(file: FileDiff, opts: RowOptions) -> bool {
    let hs = file.hunk_views();
    let fetching = file.fetches@.len() > 0;
    &&& file.ends_fit()
    &&& fetching ==> forall|k: int|
        #![trigger hs[k]]
        0 <= k < hs.len() ==> cursor(hs, k).1 + hidden_before(hs, k) <= u32::MAX
    &&& hs.len() > 0 ==> (opts.left_total_lines matches Some(t) ==> t < u32::MAX)
    &&& hs.len() > 0 ==> (opts.right_total_lines matches Some(t) ==> t < u32::MAX)
    &&& fetching ==> cursor(hs, hs.len() as int).1 + hidden_after(hs, opts) <= u32::MAX
}

// == Building

/// The rows one block becomes.
spec fn block_rows(hunk: nat, lines: Seq<DiffLine>, b: Block, split: bool) -> Seq<Row> {
    match b {
        Block::Context(i) => seq![Row::Lines(context_pair(hunk, i as nat, lines[i as int]))],
        Block::Change { removed, added } => change_rows(
            hunk,
            lines,
            removed.start as nat,
            removed.end as nat,
            added.end as nat,
            split,
        ),
    }
}

proof fn lemma_block_step(hunk: nat, lines: Seq<DiffLine>, i: nat, split: bool)
    requires
        i < lines.len(),
        lines.len() <= usize::MAX,
    ensures
        blocks_from(lines, i) == seq![block_at(lines, i)] + blocks_from(lines, block_end(lines, i)),
        body_from(hunk, lines, i, split) == block_rows(hunk, lines, block_at(lines, i), split)
            + body_from(hunk, lines, block_end(lines, i), split),
        i < block_end(lines, i) <= lines.len(),
        block_at(lines, i) matches Block::Context(j) ==> j == i && lines[i as int].kind
            == LineKind::Context,
        block_at(lines, i) matches Block::Change { removed, added } ==> removed.start == i
            && removed.start <= removed.end && removed.end == added.start && added.start
            <= added.end && added.end == block_end(lines, i),
{
    lemma_block_end(lines, i);
    let r = run_end(lines, i, LineKind::Removed);
    lemma_run_end(lines, i, LineKind::Removed);
    lemma_run_end(lines, r, LineKind::Added);
}

/// Groups a hunk's lines into unchanged ones and change blocks: a run of removals followed by
/// the additions that replaced them, the unit both arrangements care about.
fn change_blocks(lines: &Vec<DiffLine>) -> (blocks: Vec<Block>)
    ensures
        blocks@ == blocks_from(lines@, 0),
{
    let mut blocks: Vec<Block> = Vec::new();
    let mut i: usize = 0;
    while i < lines.len()
        invariant
            i <= lines@.len(),
            blocks@ + blocks_from(lines@, i as nat) == blocks_from(lines@, 0),
        decreases lines@.len() - i,
    {
        proof {
            lemma_block_step(0, lines@, i as nat, false);
        }
        let ghost at = i as nat;
        if lines[i].kind == LineKind::Context {
            blocks.push(Block::Context(i));
            i += 1;
        } else {
            // Removals then additions, the order a unified diff writes them.
            let removed_start = i;
            while i < lines.len() && lines[i].kind == LineKind::Removed
                invariant
                    removed_start <= i <= lines@.len(),
                    run_end(lines@, removed_start as nat, LineKind::Removed) == run_end(
                        lines@,
                        i as nat,
                        LineKind::Removed,
                    ),
                decreases lines@.len() - i,
            {
                i += 1;
            }
            let removed_end = i;
            while i < lines.len() && lines[i].kind == LineKind::Added
                invariant
                    removed_end <= i <= lines@.len(),
                    run_end(lines@, removed_end as nat, LineKind::Added) == run_end(
                        lines@,
                        i as nat,
                        LineKind::Added,
                    ),
                decreases lines@.len() - i,
            {
                i += 1;
            }
            blocks.push(Block::Change { removed: removed_start..removed_end, added: removed_end..i });
        }
        proof {
            assert(i as nat == block_end(lines@, at));
        }
    }
    blocks
}

/// The row for one line of a hunk, numbered by whichever side carries it.
fn row_at(hunk: usize, index: usize, lines: &Vec<DiffLine>) -> (line: Option<Line>)
    requires
        index < lines@.len(),
    ensures
        line == side_line(hunk as nat, index as nat, lines@[index as int]),
{
    let line = &lines[index];
    let number = match line.kind {
        LineKind::Removed => line.left_line,
        _ => line.right_line,
    };
    match number {
        Some(n) => Some(Line { line: n, source: LineRef { hunk: hunk as u32, line: index as u32 } }),
        None => None,
    }
}

/// An unchanged line, which stands on both sides at once.
fn context_entry(hunk: usize, index: usize, lines: &Vec<DiffLine>) -> (row: Row)
    requires
        index < lines@.len(),
    ensures
        row == Row::Lines(context_pair(hunk as nat, index as nat, lines@[index as int])),
{
    let source = LineRef { hunk: hunk as u32, line: index as u32 };
    let left = match lines[index].left_line {
        Some(line) => Some(Line { line, source }),
        None => None,
    };
    let right = match lines[index].right_line {
        Some(line) => Some(Line { line, source }),
        None => None,
    };
    Row::Lines(LinePair { left, right })
}

/// A removal or an addition, which exists on one side only.
fn one_sided_entry(hunk: usize, index: usize, lines: &Vec<DiffLine>) -> (row: Row)
    requires
        index < lines@.len(),
    ensures
        row == Row::Lines(one_sided_pair(hunk as nat, index as nat, lines@[index as int])),
{
    let row = row_at(hunk, index, lines);
    Row::Lines(
        match lines[index].kind {
            LineKind::Removed => LinePair { left: row, right: None },
            _ => LinePair { left: None, right: row },
        },
    )
}

/// A change in one column: its removals, then the additions that replaced them.
fn push_change_inline(
    rows: &mut Vec<Row>,
    hunk: usize,
    removed: &Range<usize>,
    added: &Range<usize>,
    lines: &Vec<DiffLine>,
)
    requires
        removed.start <= removed.end,
        removed.end == added.start,
        added.start <= added.end <= lines@.len(),
    ensures
        final(rows)@ == old(rows)@ + change_rows(
            hunk as nat,
            lines@,
            removed.start as nat,
            removed.end as nat,
            added.end as nat,
            false,
        ),
{
    let ghost before = rows@;
    let ghost h = hunk as nat;
    let ghost start = removed.start as int;
    let ghost mid = removed.end as int;
    let mut i = removed.start;
    while i < removed.end
        invariant
            removed.start <= i <= removed.end <= lines@.len(),
            start == removed.start,
            h == hunk as nat,
            rows@ == before + Seq::new(
                (i - start) as nat,
                |k: int| Row::Lines(one_sided_pair(h, (start + k) as nat, lines@[start + k])),
            ),
        decreases removed.end - i,
    {
        rows.push(one_sided_entry(hunk, i, lines));
        i += 1;
        proof {
            assert(rows@ =~= before + Seq::new(
                (i - start) as nat,
                |k: int| Row::Lines(one_sided_pair(h, (start + k) as nat, lines@[start + k])),
            ));
        }
    }
    let ghost first = rows@;
    let mut i = added.start;
    while i < added.end
        invariant
            added.start <= i <= added.end <= lines@.len(),
            mid == added.start,
            h == hunk as nat,
            rows@ == first + Seq::new(
                (i - mid) as nat,
                |k: int| Row::Lines(one_sided_pair(h, (mid + k) as nat, lines@[mid + k])),
            ),
        decreases added.end - i,
    {
        rows.push(one_sided_entry(hunk, i, lines));
        i += 1;
        proof {
            assert(rows@ =~= first + Seq::new(
                (i - mid) as nat,
                |k: int| Row::Lines(one_sided_pair(h, (mid + k) as nat, lines@[mid + k])),
            ));
        }
    }
    proof {
        assert(rows@ =~= before + change_rows(h, lines@, start as nat, mid as nat, added.end as nat, false));
    }
}

/// A change in two columns: the runs opposite each other, the shorter padded by absent lines,
/// which keeps a three-line removal facing the five-line addition that replaced it.
fn push_change_split(
    rows: &mut Vec<Row>,
    hunk: usize,
    removed: &Range<usize>,
    added: &Range<usize>,
    lines: &Vec<DiffLine>,
)
    requires
        removed.start <= removed.end,
        removed.end == added.start,
        added.start <= added.end <= lines@.len(),
    ensures
        final(rows)@ == old(rows)@ + change_rows(
            hunk as nat,
            lines@,
            removed.start as nat,
            removed.end as nat,
            added.end as nat,
            true,
        ),
{
    let ghost before = rows@;
    let ghost h = hunk as nat;
    let ghost target = change_rows(
        h,
        lines@,
        removed.start as nat,
        removed.end as nat,
        added.end as nat,
        true,
    );
    let removed_len = removed.end - removed.start;
    let added_len = added.end - added.start;
    let slots = if removed_len >= added_len {
        removed_len
    } else {
        added_len
    };
    let mut slot: usize = 0;
    while slot < slots
        invariant
            slot <= slots,
            slots == target.len(),
            removed_len == removed.end - removed.start,
            added_len == added.end - added.start,
            removed.start <= removed.end == added.start <= added.end <= lines@.len(),
            target == change_rows(
                h,
                lines@,
                removed.start as nat,
                removed.end as nat,
                added.end as nat,
                true,
            ),
            h == hunk as nat,
            rows@ == before + target.take(slot as int),
        decreases slots - slot,
    {
        let left = if slot < removed_len {
            row_at(hunk, removed.start + slot, lines)
        } else {
            None
        };
        let right = if slot < added_len {
            row_at(hunk, added.start + slot, lines)
        } else {
            None
        };
        rows.push(Row::Lines(LinePair { left, right }));
        proof {
            assert(target.take(slot as int + 1) =~= target.take(slot as int).push(target[slot as int]));
        }
        slot += 1;
    }
    proof {
        assert(target.take(slots as int) =~= target);
    }
}

/// Everything the hidden stretches of one run need from the fetches.
proof fn lemma_progress_settles(fs: Seq<Fetch>, k: int, right_start: u32, count: nat)
    requires
        0 <= k <= fs.len(),
        progress(fs.take(k), right_start, count).state == GapState::Waiting,
    ensures
        progress(fs, right_start, count) == progress(fs.take(k), right_start, count),
    decreases fs.len(),
{
    if fs.len() == k {
        assert(fs.take(k) =~= fs);
    } else {
        assert(fs.drop_last().take(k) =~= fs.take(k));
        lemma_progress_settles(fs.drop_last(), k, right_start, count);
    }
}

/// Tracks how far through each file the hunks have reached, so the lines between them can be
/// reported as gaps.
struct GapWalker<'a> {
    /// First line not yet covered, on each side. Both start at 1.
    left_next: u32,
    right_next: u32,
    left_total: Option<u32>,
    right_total: Option<u32>,
    /// Set once any hunk has been seen, so a file with no hunks produces no trailing gap.
    seen_hunk: bool,
    fetches: &'a [Fetch],
}

impl<'a> GapWalker<'a> {
    fn new(file: &'a FileDiff, opts: &RowOptions) -> (walker: Self)
        ensures
            walker.left_next == 1,
            walker.right_next == 1,
            walker.left_total == opts.left_total_lines,
            walker.right_total == opts.right_total_lines,
            !walker.seen_hunk,
            walker.fetches@ == file.fetches@,
    {
        GapWalker {
            left_next: 1,
            right_next: 1,
            left_total: opts.left_total_lines,
            right_total: opts.right_total_lines,
            seen_hunk: false,
            fetches: file.fetches.as_slice(),
        }
    }

    /// The gap before a hunk, and the cursor moved past the hunk on both sides.
    ///
    /// The hidden count is the larger of the two sides. They agree wherever both files have
    /// the content, and where one does not (an added file numbers every left line zero) the
    /// other still gives the right answer.
    fn gap_before(&mut self, hunk: &Hunk) -> (rows: Vec<Row>)
        requires
            hunk.left_start + hunk.left_len <= u32::MAX,
            hunk.right_start + hunk.right_len <= u32::MAX,
            old(self).fetches@.len() > 0 ==> old(self).right_next + max_nat(
                sat_sub(hunk.left_start as int, old(self).left_next as int),
                sat_sub(hunk.right_start as int, old(self).right_next as int),
            ) <= u32::MAX,
            fetch_ends_fit(old(self).fetches@),
        ensures
            rows@ == gap_rows(
                old(self).left_next,
                old(self).right_next,
                max_nat(
                    sat_sub(hunk.left_start as int, old(self).left_next as int),
                    sat_sub(hunk.right_start as int, old(self).right_next as int),
                ),
                hunk.heading,
                old(self).fetches@,
            ),
            final(self).left_next == next_after(hunk.left_start, hunk.left_len),
            final(self).right_next == next_after(hunk.right_start, hunk.right_len),
            final(self).seen_hunk,
            final(self).left_total == old(self).left_total,
            final(self).right_total == old(self).right_total,
            final(self).fetches@ == old(self).fetches@,
    {
        let left_hidden = if hunk.left_start > self.left_next {
            hunk.left_start - self.left_next
        } else {
            0
        };
        let right_hidden = if hunk.right_start > self.right_next {
            hunk.right_start - self.right_next
        } else {
            0
        };
        let hidden = if left_hidden >= right_hidden {
            left_hidden
        } else {
            right_hidden
        };

        let rows = self.gaps(hidden, &hunk.heading);

        // Past this hunk on both sides, ready for the distance to the next one.
        let left_end = hunk.left_start + hunk.left_len;
        let right_end = hunk.right_start + hunk.right_len;
        self.left_next = if left_end >= 1 {
            left_end
        } else {
            1
        };
        self.right_next = if right_end >= 1 {
            right_end
        } else {
            1
        };
        self.seen_hunk = true;
        rows
    }

    /// The gap after the last hunk, when the file lengths say there is one.
    fn trailing_gap(&self) -> (rows: Vec<Row>)
        requires
            self.seen_hunk ==> (self.left_total matches Some(t) ==> t < u32::MAX),
            self.seen_hunk ==> (self.right_total matches Some(t) ==> t < u32::MAX),
            self.seen_hunk && self.fetches@.len() > 0 ==> self.right_next + max_nat(
                hidden_after_total(self.left_total, self.left_next),
                hidden_after_total(self.right_total, self.right_next),
            ) <= u32::MAX,
            fetch_ends_fit(self.fetches@),
        ensures
            rows@ == if !self.seen_hunk {
                seq![]
            } else {
                gap_rows(
                    self.left_next,
                    self.right_next,
                    max_nat(
                        hidden_after_total(self.left_total, self.left_next),
                        hidden_after_total(self.right_total, self.right_next),
                    ),
                    None,
                    self.fetches@,
                )
            },
    {
        if !self.seen_hunk {
            return Vec::new();
        }
        let left_hidden = match self.left_total {
            Some(total) => if total + 1 > self.left_next {
                total + 1 - self.left_next
            } else {
                0
            },
            None => 0,
        };
        let right_hidden = match self.right_total {
            Some(total) => if total + 1 > self.right_next {
                total + 1 - self.right_next
            } else {
                0
            },
            None => 0,
        };
        let hidden = if left_hidden >= right_hidden {
            left_hidden
        } else {
            right_hidden
        };
        self.gaps(hidden, &None)
    }

    /// One entry per run of hidden lines, whatever is being fetched from it.
    ///
    /// A fetch belongs to the control that asked for it, not to a slice of the gap, so the run
    /// stays whole and carries what is happening to it.
    fn gaps(&self, hidden: u32, heading: &Option<String>) -> (rows: Vec<Row>)
        requires
            self.fetches@.len() > 0 ==> self.right_next + hidden <= u32::MAX,
            fetch_ends_fit(self.fetches@),
        ensures
            rows@ == gap_rows(
                self.left_next,
                self.right_next,
                hidden as nat,
                *heading,
                self.fetches@,
            ),
    {
        if hidden == 0 {
            return Vec::new();
        }
        let progress = self.fetch_state(self.right_next, hidden);
        let owned = match heading {
            Some(h) => Some(h.clone()),
            None => None,
        };
        let mut rows = Vec::new();
        rows.push(
            Row::Gap {
                left_start: self.left_next,
                right_start: self.right_next,
                hidden,
                state: progress.state,
                pending: progress.pending,
                heading: owned,
                reason: progress.reason,
            },
        );
        proof {
            assert(rows@ =~= gap_rows(
                self.left_next,
                self.right_next,
                hidden as nat,
                *heading,
                self.fetches@,
            ));
        }
        rows
    }

    /// What is happening to a run of hidden lines.
    ///
    /// A fetch in flight wins over a past failure: it is the newer fact, and showing both at
    /// once would put a stale message beside a live spinner.
    fn fetch_state(&self, right_start: u32, count: u32) -> (p: GapProgress)
        requires
            self.fetches@.len() > 0 ==> right_start + count <= u32::MAX,
            fetch_ends_fit(self.fetches@),
        ensures
            p == progress(self.fetches@, right_start, count as nat),
    {
        let ghost fs = self.fetches@;
        let mut failure: Option<String> = None;
        let mut i: usize = 0;
        while i < self.fetches.len()
            invariant
                fs == self.fetches@,
                i <= fs.len(),
                fs.len() > 0 ==> right_start + count <= u32::MAX,
                fetch_ends_fit(fs),
                progress(fs.take(i as int), right_start, count as nat) == (match failure {
                    Some(why) => GapProgress {
                        state: GapState::Failed,
                        pending: None,
                        reason: Some(why),
                    },
                    None => GapProgress { state: GapState::Hidden, pending: None, reason: None },
                }),
            decreases fs.len() - i,
        {
            let f = &self.fetches[i];
            proof {
                assert(fs.take(i as int + 1).drop_last() =~= fs.take(i as int));
                assert(fs.take(i as int + 1).last() == fs[i as int]);
                assert(f.right_start + f.count <= u32::MAX);
            }
            if f.right_start < right_start + count && right_start < f.right_start + f.count {
                match &f.state {
                    FetchState::Waiting => {
                        let p = GapProgress {
                            state: GapState::Waiting,
                            pending: Some((f.right_start, f.count)),
                            reason: None,
                        };
                        proof {
                            lemma_progress_settles(fs, i as int + 1, right_start, count as nat);
                        }
                        return p;
                    },
                    FetchState::Failed(why) => {
                        failure = Some(why.clone());
                    },
                }
            }
            i += 1;
        }
        proof {
            assert(fs.take(fs.len() as int) =~= fs);
        }
        match failure {
            Some(why) => GapProgress { state: GapState::Failed, pending: None, reason: Some(why) },
            None => GapProgress { state: GapState::Hidden, pending: None, reason: None },
        }
    }
}

/// What the hunk loop of both arrangements keeps: the walker sits just past hunk `h - 1`, and
/// the rows so far are the header and the first `h` hunks with their gaps.
spec fn walked(
    walker: GapWalker,
    file: FileDiff,
    opts: RowOptions,
    h: int,
    rows: Seq<Row>,
    split: bool,
) -> bool {
    let hs = file.hunk_views();
    let header = if opts.include_file_header {
        seq![Row::Header]
    } else {
        seq![]
    };
    &&& 0 <= h <= hs.len()
    &&& walker.left_next == cursor(hs, h).0
    &&& walker.right_next == cursor(hs, h).1
    &&& walker.seen_hunk == (h > 0)
    &&& walker.left_total == opts.left_total_lines
    &&& walker.right_total == opts.right_total_lines
    &&& walker.fetches@ == file.fetches@
    &&& rows == header + rows_upto(hs, h, file.fetches@, split)
}

/// Lays out hunk `h` and the gap before it, for either arrangement.
fn push_hunk(
    rows: &mut Vec<Row>,
    walker: &mut GapWalker,
    file: &FileDiff,
    opts: &RowOptions,
    h: usize,
    split: bool,
)
    requires
        h < file.hunk_views().len(),
        ({
            let hk = file.hunk_views()[h as int];
            &&& hk.left_start + hk.left_len <= u32::MAX
            &&& hk.right_start + hk.right_len <= u32::MAX
            &&& file.fetches@.len() > 0 ==> cursor(file.hunk_views(), h as int).1
                + hidden_before(file.hunk_views(), h as int) <= u32::MAX
        }),
        fetch_ends_fit(file.fetches@),
        walked(*old(walker), *file, *opts, h as int, old(rows)@, split),
    ensures
        walked(*final(walker), *file, *opts, h + 1, final(rows)@, split),
{
    let ghost hs = file.hunk_views();
    let hunks = file.hunks();
    let hunk = &hunks[h];
    proof {
        assert(hs[h as int] == hunk@);
    }
    let mut gap = walker.gap_before(hunk);
    rows.append(&mut gap);

    let ghost with_gap = rows@;
    let ghost target = rows@ + body_from(h as nat, hunk.lines@, 0, split);
    let line_count = hunk.lines.len();
    let blocks = change_blocks(&hunk.lines);
    let mut b: usize = 0;
    let ghost mut pos: nat = 0;
    while b < blocks.len()
        invariant
            b <= blocks@.len(),
            pos <= hunk.lines@.len(),
            line_count == hunk.lines@.len(),
            blocks@.subrange(b as int, blocks@.len() as int) == blocks_from(hunk.lines@, pos),
            rows@ + body_from(h as nat, hunk.lines@, pos, split) == target,
        decreases blocks@.len() - b,
    {
        proof {
            if pos >= hunk.lines@.len() {
                assert(blocks_from(hunk.lines@, pos) =~= Seq::<Block>::empty());
                assert(blocks@.subrange(b as int, blocks@.len() as int).len() > 0);
            }
            lemma_block_step(h as nat, hunk.lines@, pos, split);
            assert(blocks@[b as int] == blocks@.subrange(b as int, blocks@.len() as int)[0]);
            assert(blocks@[b as int] == block_at(hunk.lines@, pos));
            assert(blocks@.subrange(b as int + 1, blocks@.len() as int) =~= blocks@.subrange(
                b as int,
                blocks@.len() as int,
            ).drop_first());
        }
        match &blocks[b] {
            Block::Context(i) => {
                rows.push(context_entry(h, *i, &hunk.lines));
            },
            Block::Change { removed, added } => {
                if split {
                    push_change_split(rows, h, removed, added, &hunk.lines);
                } else {
                    push_change_inline(rows, h, removed, added, &hunk.lines);
                }
            },
        }
        proof {
            pos = block_end(hunk.lines@, pos);
        }
        b += 1;
    }
    proof {
        assert(pos >= hunk.lines@.len());
        assert(rows@ =~= target);
        let fs = file.fetches@;
        let c = cursor(hs, h as int);
        assert(with_gap == old(rows)@ + gap_rows(c.0, c.1, hidden_before(hs, h as int), hs[h as int].heading, fs));
        assert(hunk_rows(hs, h as int, fs, split) == gap_rows(c.0, c.1, hidden_before(hs, h as int), hs[h as int].heading, fs) + body_from(h as nat, hunk.lines@, 0, split));
        assert(rows_upto(hs, h + 1, fs, split) == rows_upto(hs, h as int, fs, split) + hunk_rows(hs, h as int, fs, split));
        assert(rows@ =~= (if opts.include_file_header {
            seq![Row::Header]
        } else {
            seq![]
        }) + rows_upto(hs, h + 1, fs, split));
    }
}

/// Lays a diff out in one column, with a change's removals above its additions.
pub fn build_inline(file: &FileDiff, opts: &RowOptions) -> (layout: Layout)
    requires
        walk_fits(*file, *opts),
    ensures
        layout.rows@ == laid_out(*file, *opts, false),
{
    build(file, opts, false)
}

/// Lays a diff out with the two files opposite each other: the two runs of a change side by
/// side, the shorter padded.
pub fn build_split(file: &FileDiff, opts: &RowOptions) -> (layout: Layout)
    requires
        walk_fits(*file, *opts),
    ensures
        layout.rows@ == laid_out(*file, *opts, true),
{
    build(file, opts, true)
}

/// Both arrangements walk the hunks the same way and differ only in what they do with a
/// change.
#[verifier::rlimit(40)]
fn build(file: &FileDiff, opts: &RowOptions, split: bool) -> (layout: Layout)
    requires
        walk_fits(*file, *opts),
    ensures
        layout.rows@ == laid_out(*file, *opts, split),
{
    let mut rows: Vec<Row> = Vec::new();
    if opts.include_file_header {
        rows.push(Row::Header);
    }
    let mut walker = GapWalker::new(file, opts);
    let hunks = file.hunks();
    let ghost hs = file.hunk_views();
    let mut h: usize = 0;
    proof {
        assert(rows@ =~= (if opts.include_file_header {
            seq![Row::Header]
        } else {
            seq![]
        }) + rows_upto(hs, 0, file.fetches@, split));
    }
    while h < hunks.len()
        invariant
            hunks@ == hunks_of(file.content),
            hs == file.hunk_views(),
            hs.len() == hunks@.len(),
            walk_fits(*file, *opts),
            walked(walker, *file, *opts, h as int, rows@, split),
        decreases hunks@.len() - h,
    {
        proof {
            assert(hs[h as int].left_start + hs[h as int].left_len <= u32::MAX);
            assert(file.fetches@.len() > 0 ==> cursor(hs, h as int).1 + hidden_before(
                hs,
                h as int,
            ) <= u32::MAX);
        }
        push_hunk(&mut rows, &mut walker, file, opts, h, split);
        h += 1;
    }
    proof {
        let c = cursor(hs, hs.len() as int);
        assert(h == hs.len());
        assert(walker.left_next == c.0 && walker.right_next == c.1);
        assert(walker.seen_hunk == (hs.len() > 0));
        assert(walker.left_total == opts.left_total_lines);
        assert(walker.right_total == opts.right_total_lines);
        assert(file.fetches@.len() > 0 ==> c.1 + hidden_after(hs, *opts) <= u32::MAX);
    }
    let mut tail = walker.trailing_gap();
    proof {
        let c = cursor(hs, hs.len() as int);
        assert(tail@ == gap_rows(c.0, c.1, hidden_after(hs, *opts), None, file.fetches@));
    }
    rows.append(&mut tail);
    Layout { rows }
}

// == Laws

/// Every hunk's lines fit in memory, as a vector's always do.
pub open spec fn lines_held(file: FileDiff) -> bool {
    forall|k: int|
        0 <= k < file.hunk_views().len() ==> (#[trigger] file.hunk_views()[k]).lines.len()
            <= usize::MAX
}

/// A row with what is happening to its hidden lines forgotten: the shape of a layout, as
/// opposed to the progress of its fetches.
pub open spec fn shape(row: Row) -> Row {
    match row {
        Row::Gap { left_start, right_start, hidden, heading, .. } => Row::Gap {
            left_start,
            right_start,
            hidden,
            state: GapState::Hidden,
            pending: None,
            heading,
            reason: None,
        },
        _ => row,
    }
}

pub open spec fn is_gap(row: Row) -> bool {
    row is Gap
}

proof fn lemma_gap_rows_shape(
    left_start: u32,
    right_start: u32,
    hidden: nat,
    heading: Option<String>,
    a: Seq<Fetch>,
    b: Seq<Fetch>,
)
    ensures
        gap_rows(left_start, right_start, hidden, heading, a).map_values(|r: Row| shape(r))
            =~= gap_rows(left_start, right_start, hidden, heading, b).map_values(|r: Row| shape(r)),
{
}

proof fn lemma_upto_shape(hs: Seq<HunkView>, n: int, a: Seq<Fetch>, b: Seq<Fetch>, split: bool)
    ensures
        rows_upto(hs, n, a, split).map_values(|r: Row| shape(r)) =~= rows_upto(hs, n, b, split).map_values(
            |r: Row| shape(r),
        ),
    decreases n,
{
    if n > 0 {
        lemma_upto_shape(hs, n - 1, a, b, split);
        let c = cursor(hs, n - 1);
        lemma_gap_rows_shape(c.0, c.1, hidden_before(hs, n - 1), hs[n - 1].heading, a, b);
        let body = body_from((n - 1) as nat, hs[n - 1].lines, 0, split);
        let ga = gap_rows(c.0, c.1, hidden_before(hs, n - 1), hs[n - 1].heading, a);
        let gb = gap_rows(c.0, c.1, hidden_before(hs, n - 1), hs[n - 1].heading, b);
        let ua = rows_upto(hs, n - 1, a, split);
        let ub = rows_upto(hs, n - 1, b, split);
        assert((ua + (ga + body)).map_values(|r: Row| shape(r)) =~= ua.map_values(|r: Row| shape(r))
            + ga.map_values(|r: Row| shape(r)) + body.map_values(|r: Row| shape(r)));
        assert((ub + (gb + body)).map_values(|r: Row| shape(r)) =~= ub.map_values(|r: Row| shape(r))
            + gb.map_values(|r: Row| shape(r)) + body.map_values(|r: Row| shape(r)));
    }
}

/// Fetches change what a layout says is happening to its hidden lines and nothing else: the
/// same file with any other fetches lays out as the same rows, gaps included, each gap still
/// one row however many attempts were made on it.
pub proof fn law_fetches_change_only_gap_progress(
    file: FileDiff,
    fetches: Vec<Fetch>,
    opts: RowOptions,
    split: bool,
)
    ensures
        laid_out(file, opts, split).map_values(|r: Row| shape(r)) == laid_out(
            FileDiff { fetches, ..file },
            opts,
            split,
        ).map_values(|r: Row| shape(r)),
{
    let other = FileDiff { fetches, ..file };
    let hs = file.hunk_views();
    assert(other.hunk_views() == hs);
    let header = if opts.include_file_header {
        seq![Row::Header]
    } else {
        seq![]
    };
    let c = cursor(hs, hs.len() as int);
    let ua = rows_upto(hs, hs.len() as int, file.fetches@, split);
    let ub = rows_upto(hs, hs.len() as int, fetches@, split);
    let ta = gap_rows(c.0, c.1, hidden_after(hs, opts), None, file.fetches@);
    let tb = gap_rows(c.0, c.1, hidden_after(hs, opts), None, fetches@);
    lemma_upto_shape(hs, hs.len() as int, file.fetches@, fetches@, split);
    lemma_gap_rows_shape(c.0, c.1, hidden_after(hs, opts), None, file.fetches@, fetches@);
    assert((header + ua + ta).map_values(|r: Row| shape(r)) =~= header.map_values(|r: Row| shape(r))
        + ua.map_values(|r: Row| shape(r)) + ta.map_values(|r: Row| shape(r)));
    assert((header + ub + tb).map_values(|r: Row| shape(r)) =~= header.map_values(|r: Row| shape(r))
        + ub.map_values(|r: Row| shape(r)) + tb.map_values(|r: Row| shape(r)));
}

/// What a gap says about its lines: a fetch in flight over any of them wins outright, even
/// over a failure recorded later; failing that, a failure over any of them; failing that,
/// they are simply hidden.
pub proof fn law_a_fetch_in_flight_outranks_a_failure(fs: Seq<Fetch>, right_start: u32, count: nat)
    ensures
        (progress(fs, right_start, count).state == GapState::Waiting) <==> exists|i: int|
            0 <= i < fs.len() && overlaps(#[trigger] fs[i], right_start, count) && fs[i].state
                is Waiting,
        (progress(fs, right_start, count).state == GapState::Failed) <==> (!exists|i: int|
            0 <= i < fs.len() && overlaps(#[trigger] fs[i], right_start, count) && fs[i].state
                is Waiting) && exists|i: int|
            0 <= i < fs.len() && overlaps(#[trigger] fs[i], right_start, count) && fs[i].state
                is Failed,
    decreases fs.len(),
{
    if fs.len() > 0 {
        let rest = fs.drop_last();
        law_a_fetch_in_flight_outranks_a_failure(rest, right_start, count);
        let last = fs.len() - 1;
        assert forall|i: int| 0 <= i < rest.len() implies #[trigger] rest[i] == fs[i] by {}
        if exists|i: int|
            0 <= i < rest.len() && overlaps(#[trigger] rest[i], right_start, count) && rest[i].state
                is Waiting {
            let i = choose|i: int|
                0 <= i < rest.len() && overlaps(#[trigger] rest[i], right_start, count)
                    && rest[i].state is Waiting;
            assert(fs[i] == rest[i]);
        }
        if exists|i: int|
            0 <= i < rest.len() && overlaps(#[trigger] rest[i], right_start, count) && rest[i].state
                is Failed {
            let i = choose|i: int|
                0 <= i < rest.len() && overlaps(#[trigger] rest[i], right_start, count)
                    && rest[i].state is Failed;
            assert(fs[i] == rest[i]);
        }
        if exists|i: int|
            0 <= i < fs.len() && overlaps(#[trigger] fs[i], right_start, count) && fs[i].state
                is Waiting {
            let i = choose|i: int|
                0 <= i < fs.len() && overlaps(#[trigger] fs[i], right_start, count) && fs[i].state
                    is Waiting;
            if i < last {
                assert(rest[i] == fs[i]);
            }
        }
        if exists|i: int|
            0 <= i < fs.len() && overlaps(#[trigger] fs[i], right_start, count) && fs[i].state
                is Failed {
            let i = choose|i: int|
                0 <= i < fs.len() && overlaps(#[trigger] fs[i], right_start, count) && fs[i].state
                    is Failed;
            if i < last {
                assert(rest[i] == fs[i]);
            }
        }
    }
}

/// Every row a hunk's lines lay out as stands for lines.
proof fn lemma_body_is_lines(hunk: nat, lines: Seq<DiffLine>, i: nat, split: bool)
    requires
        lines.len() <= usize::MAX,
    ensures
        forall|k: int|
            0 <= k < body_from(hunk, lines, i, split).len() ==> (#[trigger] body_from(
                hunk,
                lines,
                i,
                split,
            )[k]) is Lines,
    decreases lines.len() - i,
{
    if i < lines.len() {
        lemma_block_step(hunk, lines, i, split);
        lemma_body_is_lines(hunk, lines, block_end(lines, i), split);
    }
}

proof fn lemma_no_gaps(rows: Seq<Row>)
    requires
        forall|k: int| 0 <= k < rows.len() ==> (#[trigger] rows[k]) is Lines,
    ensures
        rows.filter(|r: Row| is_gap(r)) =~= Seq::<Row>::empty(),
{
    assert(rows.all(|r: Row| !is_gap(r)));
    rows.lemma_all_neg_filter_empty(|r: Row| is_gap(r));
}

proof fn lemma_upto_gaps(hs: Seq<HunkView>, n: int, fs: Seq<Fetch>)
    requires
        forall|k: int| 0 <= k < hs.len() ==> (#[trigger] hs[k]).lines.len() <= usize::MAX,
        n <= hs.len(),
    ensures
        rows_upto(hs, n, fs, false).filter(|r: Row| is_gap(r)) == rows_upto(hs, n, fs, true).filter(
            |r: Row| is_gap(r),
        ),
    decreases n,
{
    broadcast use Seq::filter_distributes_over_add;

    if n > 0 {
        lemma_upto_gaps(hs, n - 1, fs);
        let lines = hs[n - 1].lines;
        lemma_body_is_lines((n - 1) as nat, lines, 0, false);
        lemma_body_is_lines((n - 1) as nat, lines, 0, true);
        lemma_no_gaps(body_from((n - 1) as nat, lines, 0, false));
        lemma_no_gaps(body_from((n - 1) as nat, lines, 0, true));
    }
}

/// The two arrangements differ only in how they place lines: the gaps, and what each says,
/// are the same in both, one entry per hidden run rather than one per side.
pub proof fn law_both_arrangements_have_the_same_gaps(file: FileDiff, opts: RowOptions)
    requires
        lines_held(file),
    ensures
        laid_out(file, opts, false).filter(|r: Row| is_gap(r)) == laid_out(file, opts, true).filter(
            |r: Row| is_gap(r),
        ),
{
    broadcast use Seq::filter_distributes_over_add;

    let hs = file.hunk_views();
    lemma_upto_gaps(hs, hs.len() as int, file.fetches@);
}

/// The lines a row was laid out from, on either side.
pub open spec fn row_sources(row: Row) -> Set<LineRef> {
    match row {
        Row::Lines(pair) => side_sources(pair.left).union(side_sources(pair.right)),
        _ => Set::empty(),
    }
}

pub open spec fn side_sources(line: Option<Line>) -> Set<LineRef> {
    match line {
        Some(l) => set![l.source],
        None => Set::empty(),
    }
}

/// The lines a layout was laid out from.
pub open spec fn sources(rows: Seq<Row>) -> Set<LineRef> {
    Set::new(|s: LineRef| exists|i: int| 0 <= i < rows.len() && (#[trigger] row_sources(rows[i])).contains(s))
}

proof fn lemma_sources_add(a: Seq<Row>, b: Seq<Row>)
    ensures
        sources(a + b) == sources(a).union(sources(b)),
{
    let ab = a + b;
    assert forall|s: LineRef| sources(ab).contains(s) <==> sources(a).union(sources(b)).contains(s) by {
        if sources(ab).contains(s) {
            let i = choose|i: int| 0 <= i < ab.len() && (#[trigger] row_sources(ab[i])).contains(s);
            if i < a.len() {
                assert(row_sources(a[i]).contains(s));
            } else {
                assert(row_sources(b[i - a.len()]).contains(s));
            }
        }
        if sources(a).contains(s) {
            let i = choose|i: int| 0 <= i < a.len() && (#[trigger] row_sources(a[i])).contains(s);
            assert(row_sources(ab[i]).contains(s));
        }
        if sources(b).contains(s) {
            let i = choose|i: int| 0 <= i < b.len() && (#[trigger] row_sources(b[i])).contains(s);
            assert(row_sources(ab[a.len() + i]).contains(s));
        }
    }
    assert(sources(ab) =~= sources(a).union(sources(b)));
}

/// A change lists the same lines in one column as in two.
proof fn lemma_change_sources(
    hunk: nat,
    lines: Seq<DiffLine>,
    start: nat,
    mid: nat,
    end: nat,
)
    requires
        start <= mid <= end <= lines.len(),
        forall|j: int| start <= j < mid ==> (#[trigger] lines[j]).kind == LineKind::Removed,
        forall|j: int| mid <= j < end ==> (#[trigger] lines[j]).kind == LineKind::Added,
    ensures
        sources(change_rows(hunk, lines, start, mid, end, false)) == sources(
            change_rows(hunk, lines, start, mid, end, true),
        ),
{
    let inline = change_rows(hunk, lines, start, mid, end, false);
    let split = change_rows(hunk, lines, start, mid, end, true);
    let removed = (mid - start) as int;
    assert forall|s: LineRef| sources(inline).contains(s) <==> sources(split).contains(s) by {
        if sources(inline).contains(s) {
            let i = choose|i: int| 0 <= i < inline.len() && (#[trigger] row_sources(inline[i])).contains(s);
            if i < removed {
                let j = start + i;
                assert(lines[j].kind == LineKind::Removed);
                assert(row_sources(split[i]).contains(s));
            } else {
                let k = i - removed;
                let j = mid + k;
                assert(lines[j].kind == LineKind::Added);
                assert(row_sources(split[k]).contains(s));
            }
        }
        if sources(split).contains(s) {
            let k = choose|k: int| 0 <= k < split.len() && (#[trigger] row_sources(split[k])).contains(s);
            let pair = LinePair {
                left: if start + k < mid {
                    side_line(hunk, (start + k) as nat, lines[start + k])
                } else {
                    None
                },
                right: if mid + k < end {
                    side_line(hunk, (mid + k) as nat, lines[mid + k])
                } else {
                    None
                },
            };
            assert(split[k] == Row::Lines(pair));
            if side_sources(pair.left).contains(s) {
                assert(lines[start + k].kind == LineKind::Removed);
                assert(row_sources(inline[k]).contains(s));
            } else {
                assert(lines[mid + k].kind == LineKind::Added);
                assert(row_sources(inline[removed + k]).contains(s));
            }
        }
    }
    assert(sources(inline) =~= sources(split));
}

proof fn lemma_body_sources(hunk: nat, lines: Seq<DiffLine>, i: nat)
    requires
        lines.len() <= usize::MAX,
    ensures
        sources(body_from(hunk, lines, i, false)) == sources(body_from(hunk, lines, i, true)),
    decreases lines.len() - i,
{
    if i < lines.len() {
        lemma_block_step(hunk, lines, i, false);
        lemma_block_step(hunk, lines, i, true);
        let next = block_end(lines, i);
        lemma_body_sources(hunk, lines, next);
        let here_a = block_rows(hunk, lines, block_at(lines, i), false);
        let here_b = block_rows(hunk, lines, block_at(lines, i), true);
        lemma_sources_add(here_a, body_from(hunk, lines, next, false));
        lemma_sources_add(here_b, body_from(hunk, lines, next, true));
        if lines[i as int].kind != LineKind::Context {
            let r = run_end(lines, i, LineKind::Removed);
            lemma_run_end(lines, i, LineKind::Removed);
            lemma_run_end(lines, r, LineKind::Added);
            lemma_change_sources(hunk, lines, i, r, run_end(lines, r, LineKind::Added));
        }
    } else {
        assert(body_from(hunk, lines, i, false) == body_from(hunk, lines, i, true));
    }
}

proof fn lemma_upto_sources(hs: Seq<HunkView>, n: int, fs: Seq<Fetch>)
    requires
        forall|k: int| 0 <= k < hs.len() ==> (#[trigger] hs[k]).lines.len() <= usize::MAX,
        n <= hs.len(),
    ensures
        sources(rows_upto(hs, n, fs, false)) == sources(rows_upto(hs, n, fs, true)),
    decreases n,
{
    if n > 0 {
        lemma_upto_sources(hs, n - 1, fs);
        let c = cursor(hs, n - 1);
        let gap = gap_rows(c.0, c.1, hidden_before(hs, n - 1), hs[n - 1].heading, fs);
        let lines = hs[n - 1].lines;
        lemma_body_sources((n - 1) as nat, lines, 0);
        let ba = body_from((n - 1) as nat, lines, 0, false);
        let bb = body_from((n - 1) as nat, lines, 0, true);
        lemma_sources_add(gap, ba);
        lemma_sources_add(gap, bb);
        lemma_sources_add(rows_upto(hs, n - 1, fs, false), gap + ba);
        lemma_sources_add(rows_upto(hs, n - 1, fs, true), gap + bb);
    }
}

/// Both arrangements point at the same lines of the diff: one column and two place them
/// differently, and hold the same ones.
pub proof fn law_both_arrangements_point_at_the_same_lines(file: FileDiff, opts: RowOptions)
    requires
        lines_held(file),
    ensures
        sources(laid_out(file, opts, false)) == sources(laid_out(file, opts, true)),
{
    let hs = file.hunk_views();
    let header = if opts.include_file_header {
        seq![Row::Header]
    } else {
        seq![]
    };
    let c = cursor(hs, hs.len() as int);
    let tail = gap_rows(c.0, c.1, hidden_after(hs, opts), None, file.fetches@);
    lemma_upto_sources(hs, hs.len() as int, file.fetches@);
    let ua = rows_upto(hs, hs.len() as int, file.fetches@, false);
    let ub = rows_upto(hs, hs.len() as int, file.fetches@, true);
    lemma_sources_add(header, ua);
    lemma_sources_add(header, ub);
    lemma_sources_add(header + ua, tail);
    lemma_sources_add(header + ub, tail);
}

} // verus!
