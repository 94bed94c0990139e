//! The rows a pane is showing, and what each of them has painted behind it.
//!
//! Nothing here asks where the rows came from: a laid-out diff and a plain file listing arrive
//! by the same door, `RowModel::from_rows`.

use std::collections::HashMap;
use vstd::prelude::*;

use crate::diff::layout::{GapState, Layout};
use crate::diff::model::FileDiff;
use crate::diff::render::{displays, lines_fit, render_diff, DiffPane};
use crate::text::RenderOptions;
use crate::span::Document;
use crate::view::row::{Channel, DisplayColumnExtent, DisplayedRow, Highlight};

verus! {

broadcast use vstd::std_specs::hash::group_hash_axioms;

// == Runs of selectable rows

/// Where the run of selectable rows holding row `i` starts: just past the nearest unselectable
/// row before it, or the first row.
pub open spec fn run_from(rows: Seq<DisplayedRow>, i: nat) -> nat
    decreases i,
{
    if i == 0 {
        0
    } else if !rows[i - 1].selectable {
        i
    } else {
        run_from(rows, (i - 1) as nat)
    }
}

/// Where the run of selectable rows holding row `i` ends: at the first unselectable row from
/// `i` on, or the end of the rows.
pub open spec fn run_to(rows: Seq<DisplayedRow>, i: nat) -> nat
    decreases rows.len() - i,
{
    if i >= rows.len() || !rows[i as int].selectable {
        i
    } else {
        run_to(rows, i + 1)
    }
}

/// The rows with each selectable one told the run it belongs to. An unselectable row belongs
/// to no run and is left as it was.
pub open spec fn with_runs(rows: Seq<DisplayedRow>) -> Seq<DisplayedRow> {
    Seq::new(
        rows.len(),
        |i: int|
            if rows[i].selectable {
                DisplayedRow {
                    selectable_run: (run_from(rows, i as nat) as u32)..(run_to(
                        rows,
                        i as nat,
                    ) as u32),
                    ..rows[i]
                }
            } else {
                rows[i]
            },
    )
}

proof fn lemma_run_from(rows: Seq<DisplayedRow>, start: nat, j: nat)
    requires
        start <= j < rows.len(),
        start == 0 || !rows[start - 1].selectable,
        forall|k: int| start <= k < j ==> (#[trigger] rows[k]).selectable,
    ensures
        run_from(rows, j) == start,
    decreases j,
{
    if j > start {
        lemma_run_from(rows, start, (j - 1) as nat);
    }
}

proof fn lemma_run_to(rows: Seq<DisplayedRow>, end: nat, j: nat)
    requires
        j <= end <= rows.len(),
        end == rows.len() || !rows[end as int].selectable,
        forall|k: int| j <= k < end ==> (#[trigger] rows[k]).selectable,
    ensures
        run_to(rows, j) == end,
    decreases end - j,
{
    if j < end {
        lemma_run_to(rows, end, j + 1);
    }
}

/// Tells rows `start..end`, a whole run, which run they belong to.
fn close_run(rows: &mut Vec<DisplayedRow>, start: usize, end: usize, orig: Ghost<Seq<DisplayedRow>>)
    requires
        old(rows)@.len() == orig@.len(),
        start <= end <= orig@.len(),
        start == 0 || !orig@[start - 1].selectable,
        end == orig@.len() || !orig@[end as int].selectable,
        forall|k: int| start <= k < end ==> (#[trigger] orig@[k]).selectable,
        forall|k: int| start <= k < orig@.len() ==> #[trigger] old(rows)@[k] == orig@[k],
    ensures
        final(rows)@.len() == orig@.len(),
        forall|k: int| 0 <= k < start ==> #[trigger] final(rows)@[k] == old(rows)@[k],
        forall|k: int| start <= k < end ==> #[trigger] final(rows)@[k] == with_runs(orig@)[k],
        forall|k: int| end <= k < orig@.len() ==> #[trigger] final(rows)@[k] == orig@[k],
{
    let ghost before = rows@;
    let mut j = start;
    while j < end
        invariant
            rows@.len() == orig@.len(),
            start <= j <= end <= orig@.len(),
            start == 0 || !orig@[start - 1].selectable,
            end == orig@.len() || !orig@[end as int].selectable,
            forall|k: int| start <= k < end ==> (#[trigger] orig@[k]).selectable,
            forall|k: int| 0 <= k < start ==> #[trigger] rows@[k] == before[k],
            forall|k: int| start <= k < j ==> #[trigger] rows@[k] == with_runs(orig@)[k],
            forall|k: int| j <= k < orig@.len() ==> #[trigger] rows@[k] == orig@[k],
        decreases end - j,
    {
        proof {
            lemma_run_from(orig@, start as nat, j as nat);
            lemma_run_to(orig@, end as nat, j as nat);
        }
        rows[j].selectable_run = #[verifier::truncate] (start as u32)
            ..#[verifier::truncate] (end as u32);
        j += 1;
    }
}

/// Records which run of selectable rows each row belongs to.
///
/// A run is a maximal stretch of selectable rows. Gaps and headers are not selectable and so
/// separate one run from the next, which is what stops a selection crossing a gap: a drag
/// clamps to the run it began in. One forward pass, closing a run whenever an unselectable row
/// ends it and once more at the end of the list.
fn mark_runs(rows: &mut Vec<DisplayedRow>)
    ensures
        final(rows)@ == with_runs(old(rows)@),
{
    let ghost orig = rows@;
    let n = rows.len();
    let mut start: usize = 0;
    let mut at: usize = 0;
    while at < n
        invariant
            n == orig.len(),
            rows@.len() == n,
            start <= at <= n,
            start == 0 || !orig[start - 1].selectable,
            forall|k: int| start <= k < at ==> (#[trigger] orig[k]).selectable,
            forall|k: int| 0 <= k < start ==> #[trigger] rows@[k] == with_runs(orig)[k],
            forall|k: int| start <= k < n ==> #[trigger] rows@[k] == orig[k],
        decreases n - at,
    {
        if rows[at].selectable {
            at += 1;
        } else {
            close_run(rows, start, at, Ghost(orig));
            proof {
                assert(rows@[at as int] == with_runs(orig)[at as int]);
            }
            at += 1;
            start = at;
        }
    }
    close_run(rows, start, n, Ghost(orig));
    proof {
        assert(rows@ =~= with_runs(orig));
    }
}

// == The index from lines to rows

/// A line, packed into one number so that it can key a map: the document in the high half,
/// the line number in the low half.
pub open spec fn line_key(document: Document, line: u32) -> u64 {
    (document.0 as nat * 0x1_0000_0000 + line as nat) as u64
}

pub open spec fn key_of(row: DisplayedRow) -> Option<u64> {
    match row.id {
        Some((document, line)) => Some(line_key(document, line)),
        None => None,
    }
}

proof fn lemma_line_key(a: Document, l: u32, b: Document, m: u32)
    ensures
        line_key(a, l) == line_key(b, m) <==> (a == b && l == m),
        line_key(a, l) == a.0 as nat * 0x1_0000_0000 + l as nat,
{
}

fn key_for(document: Document, line: u32) -> (k: u64)
    ensures
        k == line_key(document, line),
{
    (document.0 as u64) * 0x1_0000_0000u64 + (line as u64)
}

/// Whether row `j` is the first of `rows` showing the line with key `k`.
pub open spec fn first_showing(rows: Seq<DisplayedRow>, k: u64, j: nat) -> bool {
    &&& j < rows.len()
    &&& key_of(rows[j as int]) == Some(k)
    &&& forall|i: int| 0 <= i < j ==> key_of(#[trigger] rows[i]) != Some(k)
}

/// The index maps each line shown among the first `upto` rows to the first row showing it.
pub open spec fn indexes(rows: Seq<DisplayedRow>, index: Map<u64, usize>, upto: nat) -> bool {
    &&& forall|k: u64|
        #[trigger] index.contains_key(k) <==> exists|j: int|
            0 <= j < upto && key_of(#[trigger] rows[j]) == Some(k)
    &&& forall|k: u64|
        #[trigger] index.contains_key(k) ==> index[k] < upto && first_showing(
            rows,
            k,
            index[k] as nat,
        )
}

/// The widest row, in columns.
pub open spec fn max_columns(rows: Seq<DisplayedRow>) -> nat
    decreases rows.len(),
{
    if rows.len() == 0 {
        0
    } else {
        let rest = max_columns(rows.drop_last());
        if rows.last().columns > rest {
            rows.last().columns as nat
        } else {
            rest
        }
    }
}

/// The rows a pane is showing, and what each of them has painted behind it.
pub struct RowModel {
    rows: Vec<DisplayedRow>,
    longest_line_columns: i32,
    /// Which row shows each line, for resolving a span that names a file and a line number.
    /// The first row wins where a line appears twice, which an inline view does for an
    /// unchanged line.
    line_index: HashMap<u64, usize>,
    /// What each channel is currently drawing, per channel, in row order, ordered by channel,
    /// which is the order they are painted in. Kept so a change can write back only the rows
    /// whose ranges actually differ.
    channels: Vec<(Channel, Vec<(usize, Vec<DisplayColumnExtent>)>)>,
    /// What each row currently draws, from every channel.
    drawn: Vec<Vec<Highlight>>,
}

impl RowModel {
    /// The rows, in order.
    pub closed spec fn shown(self) -> Seq<DisplayedRow> {
        self.rows@
    }

    /// Columns of the longest line, as the view is told it.
    pub closed spec fn longest(self) -> i32 {
        self.longest_line_columns
    }

    /// Every channel's ranges, grouped by row, in channel order.
    pub closed spec fn layers(self) -> Seq<(Channel, Seq<(usize, Seq<DisplayColumnExtent>)>)> {
        layers_view(self.channels@)
    }

    /// What each row draws.
    pub closed spec fn painted(self) -> Seq<Seq<Highlight>> {
        self.drawn@.map_values(|h: Vec<Highlight>| h@)
    }

    /// Everything the model keeps agrees with its rows.
    pub closed spec fn wf(self) -> bool {
        &&& indexes(self.rows@, self.line_index@, self.rows@.len())
        &&& layers_fit(self.layers(), self.rows@.len())
        &&& self.drawn@.len() == self.rows@.len()
        &&& forall|i: int|
            0 <= i < self.rows@.len() ==> #[trigger] self.drawn@[i]@ == stack(self.layers(), i as usize)
    }

    /// Builds a pane from rows supplied directly.
    ///
    /// Everything a pane does past this point, the grid, highlights, selection and scrolling,
    /// works from these rows and asks nothing about where they came from.
    pub fn from_rows(rows: Vec<DisplayedRow>) -> (model: Self)
        ensures
            model.wf(),
            model.layers() == Seq::<(Channel, Seq<(usize, Seq<DisplayColumnExtent>)>)>::empty(),
            model.painted().len() == rows@.len(),
            forall|i: int| 0 <= i < rows@.len() ==> #[trigger] model.painted()[i] == Seq::<Highlight>::empty(),
            model.shown() == with_runs(rows@),
            model.longest() == #[verifier::truncate] (max_columns(rows@) as i32),
    {
        let mut rows = rows;
        let mut longest: u32 = 0;
        let mut i: usize = 0;
        while i < rows.len()
            invariant
                i <= rows@.len(),
                longest == max_columns(rows@.take(i as int)),
            decreases rows@.len() - i,
        {
            proof {
                assert(rows@.take(i as int + 1).drop_last() =~= rows@.take(i as int));
            }
            if rows[i].columns > longest {
                longest = rows[i].columns;
            }
            i += 1;
        }
        proof {
            assert(rows@.take(rows@.len() as int) =~= rows@);
        }
        mark_runs(&mut rows);

        let mut line_index: HashMap<u64, usize> = HashMap::new();
        let mut j: usize = 0;
        while j < rows.len()
            invariant
                j <= rows@.len(),
                indexes(rows@, line_index@, j as nat),
            decreases rows@.len() - j,
        {
            match rows[j].id {
                Some((document, line)) => {
                    let k = key_for(document, line);
                    if !line_index.contains_key(&k) {
                        line_index.insert(k, j);
                        proof {
                            assert(first_showing(rows@, k, j as nat));
                        }
                    }
                },
                None => {},
            }
            proof {
                assert forall|k: u64|
                    #[trigger] line_index@.contains_key(k) <==> exists|x: int|
                        0 <= x < j + 1 && key_of(#[trigger] rows@[x]) == Some(k) by {
                    if line_index@.contains_key(k) {
                        if !(exists|x: int| 0 <= x < j && key_of(#[trigger] rows@[x]) == Some(k)) {
                            assert(key_of(rows@[j as int]) == Some(k));
                        }
                    }
                    if exists|x: int| 0 <= x < j + 1 && key_of(#[trigger] rows@[x]) == Some(k) {
                        let x = choose|x: int| 0 <= x < j + 1 && key_of(#[trigger] rows@[x]) == Some(k);
                        if x < j {
                            assert(line_index@.contains_key(k));
                        }
                    }
                }
            }
            j += 1;
        }

        let mut drawn: Vec<Vec<Highlight>> = Vec::new();
        let mut d: usize = 0;
        while d < rows.len()
            invariant
                d <= rows@.len(),
                drawn@.len() == d,
                forall|i: int| 0 <= i < d ==> #[trigger] drawn@[i]@ == Seq::<Highlight>::empty(),
            decreases rows@.len() - d,
        {
            drawn.push(Vec::new());
            d += 1;
        }
        let model = RowModel {
            rows,
            longest_line_columns: #[verifier::truncate] (longest as i32),
            line_index,
            channels: Vec::new(),
            drawn,
        };
        proof {
            assert(model.layers() =~= Seq::<(Channel, Seq<(usize, Seq<DisplayColumnExtent>)>)>::empty());
        }
        model
    }

    /// Which row shows a line, if this pane is showing it at all: the first one, where several
    /// do.
    ///
    /// A pane of a split view holds one side, and a line inside a gap is not on screen, so a
    /// span naming either has no row here. That is ordinary rather than an error.
    pub fn row_of(&self, document: Document, line: u32) -> (row: Option<usize>)
        requires
            self.wf(),
        ensures
            match row {
                Some(j) => j < self.shown().len() && self.shown()[j as int].id == Some(
                    (document, line),
                ) && forall|i: int|
                    0 <= i < j ==> (#[trigger] self.shown()[i]).id != Some((document, line)),
                None => forall|i: int|
                    0 <= i < self.shown().len() ==> (#[trigger] self.shown()[i]).id != Some(
                        (document, line),
                    ),
            },
    {
        let k = key_for(document, line);
        let found = match self.line_index.get(&k) {
            Some(at) => Some(*at),
            None => None,
        };
        proof {
            assert forall|a: Document, l: u32| #[trigger] line_key(a, l) == k implies a == document
                && l == line by {
                lemma_line_key(a, l, document, line);
            }
            match found {
                Some(j) => {
                    assert forall|i: int| 0 <= i < j implies (#[trigger] self.rows@[i]).id != Some(
                        (document, line),
                    ) by {
                        assert(key_of(self.rows@[i]) != Some(k));
                    }
                },
                None => {
                    assert forall|i: int| 0 <= i < self.rows@.len() implies (
                    #[trigger] self.rows@[i]).id != Some((document, line)) by {
                        if self.rows@[i].id == Some((document, line)) {
                            assert(key_of(self.rows@[i]) == Some(k));
                        }
                    }
                },
            }
        }
        found
    }

    /// The rows themselves, for the selection arithmetic.
    pub fn rows(&self) -> (rows: &[DisplayedRow])
        ensures
            rows@ == self.shown(),
    {
        self.rows.as_slice()
    }

    /// Columns the longest line this pane draws occupies, which is how a view sizes its
    /// horizontal scrolling. The two panes of a split must be given the same number, so a
    /// caller takes the larger of the two.
    pub fn longest_line_columns(&self) -> (columns: i32)
        ensures
            columns == self.longest(),
    {
        self.longest_line_columns
    }
}

// == What a channel paints

/// One channel's ranges, grouped by the row they are painted on.
pub open spec fn groups_view(v: Seq<(usize, Vec<DisplayColumnExtent>)>) -> Seq<
    (usize, Seq<DisplayColumnExtent>),
> {
    v.map_values(|g: (usize, Vec<DisplayColumnExtent>)| (g.0, g.1@))
}

/// Groups listed in row order, each row once.
pub open spec fn ascending(gs: Seq<(usize, Seq<DisplayColumnExtent>)>) -> bool {
    forall|i: int, j: int| 0 <= i < j < gs.len() ==> #[trigger] gs[i].0 < #[trigger] gs[j].0
}

/// What a list of groups paints on `row`, if anything.
pub open spec fn lookup(gs: Seq<(usize, Seq<DisplayColumnExtent>)>, row: usize) -> Option<
    Seq<DisplayColumnExtent>,
> {
    if exists|k: int| 0 <= k < gs.len() && (#[trigger] gs[k]).0 == row {
        Some(gs[choose|k: int| 0 <= k < gs.len() && (#[trigger] gs[k]).0 == row].1)
    } else {
        None
    }
}

proof fn lemma_lookup(gs: Seq<(usize, Seq<DisplayColumnExtent>)>, k: int)
    requires
        ascending(gs),
        0 <= k < gs.len(),
    ensures
        lookup(gs, gs[k].0) == Some(gs[k].1),
{
    let row = gs[k].0;
    assert(exists|k: int| 0 <= k < gs.len() && (#[trigger] gs[k]).0 == row);
    let c = choose|k: int| 0 <= k < gs.len() && (#[trigger] gs[k]).0 == row;
    if c != k {
        if c < k {
            assert(gs[c].0 < gs[k].0);
        } else {
            assert(gs[k].0 < gs[c].0);
        }
    }
}

/// Whether a range is asked for on `row`.
pub open spec fn on_row(row: usize) -> spec_fn((usize, DisplayColumnExtent)) -> bool {
    |r: (usize, DisplayColumnExtent)| r.0 == row
}

pub open spec fn extent_part() -> spec_fn((usize, DisplayColumnExtent)) -> DisplayColumnExtent {
    |r: (usize, DisplayColumnExtent)| r.1
}

/// The ranges asked for on `row`, in the order they were given, when `row` is one of the
/// `rows` there are and any range names it.
pub open spec fn requested(ranges: Seq<(usize, DisplayColumnExtent)>, rows: nat, row: usize) -> Option<
    Seq<DisplayColumnExtent>,
> {
    if row < rows && exists|k: int| 0 <= k < ranges.len() && (#[trigger] ranges[k]).0 == row {
        Some(ranges.filter(on_row(row)).map_values(extent_part()))
    } else {
        None
    }
}

/// An extent, rebuilt field by field.
fn copy_extent(e: &DisplayColumnExtent) -> (c: DisplayColumnExtent)
    ensures
        c == *e,
{
    match e {
        DisplayColumnExtent::Columns(r) => DisplayColumnExtent::Columns(r.start..r.end),
        DisplayColumnExtent::ToEnd { from } => DisplayColumnExtent::ToEnd { from: *from },
    }
}

fn same_extent(a: &DisplayColumnExtent, b: &DisplayColumnExtent) -> (same: bool)
    ensures
        same == (*a == *b),
{
    match (a, b) {
        (DisplayColumnExtent::Columns(x), DisplayColumnExtent::Columns(y)) => x.start == y.start
            && x.end == y.end,
        (DisplayColumnExtent::ToEnd { from: x }, DisplayColumnExtent::ToEnd { from: y }) => *x
            == *y,
        _ => false,
    }
}

fn same_extents(a: &Vec<DisplayColumnExtent>, b: &Vec<DisplayColumnExtent>) -> (same: bool)
    ensures
        same == (a@ == b@),
{
    if a.len() != b.len() {
        return false;
    }
    let mut i: usize = 0;
    while i < a.len()
        invariant
            a@.len() == b@.len(),
            i <= a@.len(),
            forall|k: int| 0 <= k < i ==> a@[k] == b@[k],
        decreases a@.len() - i,
    {
        if !same_extent(&a[i], &b[i]) {
            return false;
        }
        i += 1;
    }
    proof {
        assert(a@ =~= b@);
    }
    true
}

/// Gathers one channel's ranges per row, in row order, dropping any that name a row that is
/// not there. Each row's ranges keep the order they were given in.
fn group_by_row(ranges: &[(usize, DisplayColumnExtent)], rows: usize) -> (grouped: Vec<
    (usize, Vec<DisplayColumnExtent>),
>)
    ensures
        ascending(groups_view(grouped@)),
        forall|k: int| 0 <= k < grouped@.len() ==> (#[trigger] grouped@[k]).0 < rows,
        forall|row: usize|
            lookup(groups_view(grouped@), row) == #[trigger] requested(ranges@, rows as nat, row),
{
    let mut grouped: Vec<(usize, Vec<DisplayColumnExtent>)> = Vec::new();
    let mut i: usize = 0;
    while i < ranges.len()
        invariant
            i <= ranges@.len(),
            ascending(groups_view(grouped@)),
            forall|k: int| 0 <= k < grouped@.len() ==> (#[trigger] grouped@[k]).0 < rows,
            forall|row: usize|
                lookup(groups_view(grouped@), row) == #[trigger] requested(
                    ranges@.take(i as int),
                    rows as nat,
                    row,
                ),
        decreases ranges@.len() - i,
    {
        let ghost before = grouped@;
        let ghost taken = ranges@.take(i as int);
        let ghost next = ranges@.take(i as int + 1);
        proof {
            assert(next =~= taken.push(ranges@[i as int]));
        }
        let index = ranges[i].0;
        if index < rows {
            // The first group at or past this row.
            let mut pos: usize = 0;
            while pos < grouped.len() && grouped[pos].0 < index
                invariant
                    pos <= grouped@.len(),
                    grouped@ == before,
                    forall|k: int| 0 <= k < pos ==> (#[trigger] grouped@[k]).0 < index,
                decreases grouped@.len() - pos,
            {
                pos += 1;
            }
            let extent = copy_extent(&ranges[i].1);
            let ghost gs = groups_view(before);
            if pos < grouped.len() && grouped[pos].0 == index {
                grouped[pos].1.push(extent);
                proof {
                    lemma_group_append(gs, pos as int, ranges@[i as int], taken, rows as nat);
                    assert(groups_view(grouped@) =~= gs.update(
                        pos as int,
                        (index, gs[pos as int].1.push(ranges@[i as int].1)),
                    ));
                }
            } else {
                let mut list = Vec::new();
                list.push(extent);
                grouped.insert(pos, (index, list));
                proof {
                    lemma_group_insert(gs, pos as int, ranges@[i as int], taken, rows as nat);
                    assert(groups_view(grouped@) =~= gs.insert(
                        pos as int,
                        (index, seq![ranges@[i as int].1]),
                    ));
                }
            }
        } else {
            proof {
                assert forall|row: usize| lookup(groups_view(grouped@), row) == #[trigger] requested(
                    next,
                    rows as nat,
                    row,
                ) by {
                    lemma_requested_push(taken, ranges@[i as int], rows as nat, row);
                }
            }
        }
        i += 1;
    }
    proof {
        assert(ranges@.take(ranges@.len() as int) =~= ranges@);
    }
    grouped
}

proof fn lemma_requested_push(
    taken: Seq<(usize, DisplayColumnExtent)>,
    r: (usize, DisplayColumnExtent),
    rows: nat,
    row: usize,
)
    ensures
        r.0 != row || r.0 >= rows ==> requested(taken.push(r), rows, row) == requested(taken, rows, row),
        r.0 == row && row < rows ==> requested(taken.push(r), rows, row) == Some(
            match requested(taken, rows, row) {
                Some(es) => es,
                None => Seq::empty(),
            }.push(r.1),
        ),
{
    let pred = on_row(row);
    let f = extent_part();
    taken.lemma_filter_push(r, pred);
    let pushed = taken.push(r);
    if r.0 != row {
        if exists|k: int| 0 <= k < pushed.len() && (#[trigger] pushed[k]).0 == row {
            let k = choose|k: int| 0 <= k < pushed.len() && (#[trigger] pushed[k]).0 == row;
            assert(taken[k].0 == row);
        }
        if exists|k: int| 0 <= k < taken.len() && (#[trigger] taken[k]).0 == row {
            let k = choose|k: int| 0 <= k < taken.len() && (#[trigger] taken[k]).0 == row;
            assert(pushed[k].0 == row);
        }
    }
    if r.0 == row && row < rows {
        assert(pushed[taken.len() as int].0 == row);
        assert(taken.filter(pred).push(r).map_values(f) =~= taken.filter(pred).map_values(f).push(r.1));
        if !(exists|k: int| 0 <= k < taken.len() && (#[trigger] taken[k]).0 == row) {
            assert(taken.filter(pred) =~= Seq::<(usize, DisplayColumnExtent)>::empty()) by {
                assert forall|k: int| 0 <= k < taken.len() implies !pred(#[trigger] taken[k]) by {}
                taken.lemma_all_neg_filter_empty(pred);
            }
        }
    }
}

proof fn lemma_lookup_absent(gs: Seq<(usize, Seq<DisplayColumnExtent>)>, row: usize)
    requires
        forall|k: int| 0 <= k < gs.len() ==> (#[trigger] gs[k]).0 != row,
    ensures
        lookup(gs, row) is None,
{
}

/// Adding a range to the group its row already has.
proof fn lemma_group_append(
    gs: Seq<(usize, Seq<DisplayColumnExtent>)>,
    pos: int,
    r: (usize, DisplayColumnExtent),
    taken: Seq<(usize, DisplayColumnExtent)>,
    rows: nat,
)
    requires
        ascending(gs),
        0 <= pos < gs.len(),
        gs[pos].0 == r.0,
        r.0 < rows,
        forall|row: usize| lookup(gs, row) == #[trigger] requested(taken, rows, row),
    ensures
        ascending(gs.update(pos, (r.0, gs[pos].1.push(r.1)))),
        forall|row: usize|
            lookup(gs.update(pos, (r.0, gs[pos].1.push(r.1))), row) == #[trigger] requested(
                taken.push(r),
                rows,
                row,
            ),
{
    let g2 = gs.update(pos, (r.0, gs[pos].1.push(r.1)));
    assert(ascending(g2)) by {
        assert forall|i: int, j: int| 0 <= i < j < g2.len() implies #[trigger] g2[i].0
            < #[trigger] g2[j].0 by {
            assert(gs[i].0 < gs[j].0);
        }
    }
    assert forall|row: usize| lookup(g2, row) == #[trigger] requested(taken.push(r), rows, row) by {
        lemma_requested_push(taken, r, rows, row);
        if row == r.0 {
            lemma_lookup(gs, pos);
            lemma_lookup(g2, pos);
            assert(requested(taken, rows, row) == Some(gs[pos].1));
        } else {
            if exists|k: int| 0 <= k < gs.len() && (#[trigger] gs[k]).0 == row {
                let k = choose|k: int| 0 <= k < gs.len() && (#[trigger] gs[k]).0 == row;
                lemma_lookup(gs, k);
                lemma_lookup(g2, k);
            } else {
                lemma_lookup_absent(gs, row);
                assert forall|k: int| 0 <= k < g2.len() implies (#[trigger] g2[k]).0 != row by {
                    if k != pos {
                        assert(g2[k] == gs[k]);
                    }
                }
                lemma_lookup_absent(g2, row);
            }
        }
    }
}

/// Starting a group for a row that had none, at the place that keeps the groups in order.
proof fn lemma_group_insert(
    gs: Seq<(usize, Seq<DisplayColumnExtent>)>,
    pos: int,
    r: (usize, DisplayColumnExtent),
    taken: Seq<(usize, DisplayColumnExtent)>,
    rows: nat,
)
    requires
        ascending(gs),
        0 <= pos <= gs.len(),
        forall|k: int| 0 <= k < pos ==> (#[trigger] gs[k]).0 < r.0,
        pos == gs.len() || gs[pos].0 > r.0,
        r.0 < rows,
        forall|row: usize| lookup(gs, row) == #[trigger] requested(taken, rows, row),
    ensures
        ascending(gs.insert(pos, (r.0, seq![r.1]))),
        forall|row: usize|
            lookup(gs.insert(pos, (r.0, seq![r.1])), row) == #[trigger] requested(
                taken.push(r),
                rows,
                row,
            ),
{
    let g2 = gs.insert(pos, (r.0, seq![r.1]));
    assert(ascending(g2)) by {
        assert forall|i: int, j: int| 0 <= i < j < g2.len() implies #[trigger] g2[i].0
            < #[trigger] g2[j].0 by {
            if j < pos {
                assert(gs[i].0 < gs[j].0);
            } else if j == pos {
            } else if i < pos {
                assert(gs[i].0 < r.0);
                assert(gs[pos].0 <= gs[j - 1].0) by {
                    if pos < j - 1 {
                        assert(gs[pos].0 < gs[j - 1].0);
                    }
                }
            } else if i == pos {
                assert(gs[pos].0 <= gs[j - 1].0) by {
                    if pos < j - 1 {
                        assert(gs[pos].0 < gs[j - 1].0);
                    }
                }
            } else {
                assert(gs[i - 1].0 < gs[j - 1].0);
            }
        }
    }
    assert forall|row: usize| lookup(g2, row) == #[trigger] requested(taken.push(r), rows, row) by {
        lemma_requested_push(taken, r, rows, row);
        if row == r.0 {
            assert forall|k: int| 0 <= k < gs.len() implies (#[trigger] gs[k]).0 != row by {
                if k >= pos {
                    if k > pos {
                        assert(gs[pos].0 < gs[k].0);
                    }
                }
            }
            lemma_lookup_absent(gs, row);
            lemma_lookup(g2, pos);
            assert(seq![r.1] =~= Seq::<DisplayColumnExtent>::empty().push(r.1));
        } else {
            if exists|k: int| 0 <= k < gs.len() && (#[trigger] gs[k]).0 == row {
                let k = choose|k: int| 0 <= k < gs.len() && (#[trigger] gs[k]).0 == row;
                lemma_lookup(gs, k);
                if k < pos {
                    assert(g2[k] == gs[k]);
                    lemma_lookup(g2, k);
                } else {
                    assert(g2[k + 1] == gs[k]);
                    lemma_lookup(g2, k + 1);
                }
            } else {
                lemma_lookup_absent(gs, row);
                assert forall|k: int| 0 <= k < g2.len() implies (#[trigger] g2[k]).0 != row by {
                    if k < pos {
                        assert(g2[k] == gs[k]);
                    } else if k > pos {
                        assert(g2[k] == gs[k - 1]);
                    }
                }
                lemma_lookup_absent(g2, row);
            }
        }
    }
}

/// The first row a list of groups has not yet passed: the key at `i`, or past every row.
pub open spec fn key_at(gs: Seq<(usize, Seq<DisplayColumnExtent>)>, i: int) -> int {
    if 0 <= i < gs.len() {
        gs[i].0 as int
    } else {
        usize::MAX as int + 1
    }
}

pub open spec fn min_int(a: int, b: int) -> int {
    if a <= b {
        a
    } else {
        b
    }
}

/// Row numbers in increasing order, each once.
pub open spec fn increasing(s: Seq<usize>) -> bool {
    forall|i: int, j: int| 0 <= i < j < s.len() ==> #[trigger] s[i] < #[trigger] s[j]
}

/// Whether two paintings differ on `row`.
pub open spec fn differs_on(
    a: Seq<(usize, Seq<DisplayColumnExtent>)>,
    b: Seq<(usize, Seq<DisplayColumnExtent>)>,
    row: usize,
) -> bool {
    lookup(a, row) != lookup(b, row)
}

/// The state of walking two group lists in step: everything below `front`, the smaller of
/// the next two rows, has been compared, and `touched` holds the rows found to differ.
spec fn walked_to(
    p: Seq<(usize, Seq<DisplayColumnExtent>)>,
    w: Seq<(usize, Seq<DisplayColumnExtent>)>,
    a: int,
    b: int,
    touched: Seq<usize>,
) -> bool {
    let front = min_int(key_at(p, a), key_at(w, b));
    &&& 0 <= a <= p.len()
    &&& 0 <= b <= w.len()
    &&& increasing(touched)
    &&& forall|k: int| 0 <= k < touched.len() ==> (#[trigger] touched[k]) < front
    &&& forall|k: int| 0 <= k < a ==> (#[trigger] p[k]).0 < key_at(w, b)
    &&& forall|k: int| 0 <= k < b ==> (#[trigger] w[k]).0 < key_at(p, a)
    &&& forall|row: usize|
        row < front ==> (touched.contains(row) <==> #[trigger] differs_on(p, w, row))
}

/// A row strictly between what has been passed and what comes next is in neither list.
proof fn lemma_between(gs: Seq<(usize, Seq<DisplayColumnExtent>)>, i: int, row: usize)
    requires
        ascending(gs),
        0 <= i <= gs.len(),
        forall|k: int| 0 <= k < i ==> (#[trigger] gs[k]).0 < row,
        (row as int) < key_at(gs, i),
    ensures
        lookup(gs, row) is None,
{
    assert forall|k: int| 0 <= k < gs.len() implies (#[trigger] gs[k]).0 != row by {
        if k > i {
            assert(gs[i].0 < gs[k].0);
        }
    }
}

/// Rows whose paintings differ between two grouped lists, both in row order.
///
/// Walked in step rather than searched, since both are sorted and either can hold rows the
/// other does not.
fn differing_rows(
    previous: &[(usize, Vec<DisplayColumnExtent>)],
    wanted: &[(usize, Vec<DisplayColumnExtent>)],
) -> (touched: Vec<usize>)
    requires
        ascending(groups_view(previous@)),
        ascending(groups_view(wanted@)),
    ensures
        increasing(touched@),
        forall|row: usize|
            touched@.contains(row) <==> #[trigger] differs_on(
                groups_view(previous@),
                groups_view(wanted@),
                row,
            ),
{
    let ghost p = groups_view(previous@);
    let ghost w = groups_view(wanted@);
    let mut touched: Vec<usize> = Vec::new();
    let mut a: usize = 0;
    let mut b: usize = 0;
    while a < previous.len() || b < wanted.len()
        invariant
            p == groups_view(previous@),
            w == groups_view(wanted@),
            ascending(p),
            ascending(w),
            walked_to(p, w, a as int, b as int, touched@),
        decreases previous@.len() + wanted@.len() - a - b,
    {
        let ghost old_touched = touched@;
        let ghost (oa, ob) = (a as int, b as int);
        let take_previous = a < previous.len() && (b >= wanted.len() || previous[a].0 < wanted[b].0);
        let take_wanted = b < wanted.len() && (a >= previous.len() || wanted[b].0 < previous[a].0);
        if take_previous {
            // Had ranges, has none now.
            let x = previous[a].0;
            touched.push(x);
            a += 1;
            proof {
                lemma_lookup(p, oa);
                lemma_between(w, ob, x);
                lemma_walk_step(p, w, oa, ob, a as int, b as int, old_touched, touched@, x);
            }
        } else if take_wanted {
            // Has ranges, had none.
            let x = wanted[b].0;
            touched.push(x);
            b += 1;
            proof {
                lemma_lookup(w, ob);
                lemma_between(p, oa, x);
                lemma_walk_step(p, w, oa, ob, a as int, b as int, old_touched, touched@, x);
            }
        } else {
            let x = previous[a].0;
            let changed = !same_extents(&previous[a].1, &wanted[b].1);
            if changed {
                touched.push(x);
            }
            a += 1;
            b += 1;
            proof {
                lemma_lookup(p, oa);
                lemma_lookup(w, ob);
                assert(p[oa].1 == previous@[oa].1@);
                assert(w[ob].1 == wanted@[ob].1@);
                lemma_walk_step(p, w, oa, ob, a as int, b as int, old_touched, touched@, x);
            }
        }
    }
    proof {
        assert forall|row: usize|
            touched@.contains(row) <==> #[trigger] differs_on(p, w, row) by {
            assert((row as int) < min_int(key_at(p, a as int), key_at(w, b as int)));
        }
    }
    touched
}

/// One step of the walk: row `x` was the next row, and it has now been compared.
proof fn lemma_walk_step(
    p: Seq<(usize, Seq<DisplayColumnExtent>)>,
    w: Seq<(usize, Seq<DisplayColumnExtent>)>,
    a: int,
    b: int,
    a2: int,
    b2: int,
    touched: Seq<usize>,
    touched2: Seq<usize>,
    x: usize,
)
    requires
        ascending(p),
        ascending(w),
        walked_to(p, w, a, b, touched),
        x as int == min_int(key_at(p, a), key_at(w, b)),
        a2 == (if key_at(p, a) == x as int { a + 1 } else { a }),
        b2 == (if key_at(w, b) == x as int { b + 1 } else { b }),
        a2 <= p.len(),
        b2 <= w.len(),
        touched2 == (if differs_on(p, w, x) { touched.push(x) } else { touched }),
    ensures
        walked_to(p, w, a2, b2, touched2),
{
    let front2 = min_int(key_at(p, a2), key_at(w, b2));
    assert((x as int) < front2) by {
        if a2 > a && a2 < p.len() {
            assert(p[a].0 < p[a2].0);
        }
        if b2 > b && b2 < w.len() {
            assert(w[b].0 < w[b2].0);
        }
    }
    assert(increasing(touched2));
    assert forall|k: int| 0 <= k < a2 implies (#[trigger] p[k]).0 < key_at(w, b2) by {
        if k < a {
            if b2 > b && b < w.len() && b2 < w.len() {
                assert(w[b].0 < w[b2].0);
            }
        } else {
            if b2 > b && b2 < w.len() {
                assert(w[b].0 < w[b2].0);
            }
        }
    }
    assert forall|k: int| 0 <= k < b2 implies (#[trigger] w[k]).0 < key_at(p, a2) by {
        if k < b {
            if a2 > a && a2 < p.len() {
                assert(p[a].0 < p[a2].0);
            }
        } else {
            if a2 > a && a2 < p.len() {
                assert(p[a].0 < p[a2].0);
            }
        }
    }
    assert forall|row: usize| row < front2 implies (touched2.contains(row) <==> #[trigger] differs_on(
        p,
        w,
        row,
    )) by {
        if (row as int) < (x as int) {
            if touched2.contains(row) && !touched.contains(row) {
                let k = choose|k: int| 0 <= k < touched2.len() && touched2[k] == row;
                assert(k == touched.len());
            }
            if touched.contains(row) {
                let k = choose|k: int| 0 <= k < touched.len() && touched[k] == row;
                assert(touched2[k] == row);
            }
        } else if row == x {
            if !differs_on(p, w, x) {
                if touched.contains(row) {
                    let k = choose|k: int| 0 <= k < touched.len() && touched[k] == row;
                    assert(touched[k] < x);
                }
            } else {
                assert(touched2[touched.len() as int] == row);
            }
        } else {
            lemma_between(p, a2, row);
            lemma_between(w, b2, row);
            if touched2.contains(row) {
                let k = choose|k: int| 0 <= k < touched2.len() && touched2[k] == row;
                if k < touched.len() {
                    assert(touched[k] < x);
                }
            }
        }
    }
}

// == Painting the channels

pub open spec fn layers_view(v: Seq<(Channel, Vec<(usize, Vec<DisplayColumnExtent>)>)>) -> Seq<
    (Channel, Seq<(usize, Seq<DisplayColumnExtent>)>),
> {
    v.map_values(
        |l: (Channel, Vec<(usize, Vec<DisplayColumnExtent>)>)| (l.0, groups_view(l.1@)),
    )
}

/// Channels listed in the order they are painted, each once, each painting rows that exist.
pub open spec fn layers_fit(
    layers: Seq<(Channel, Seq<(usize, Seq<DisplayColumnExtent>)>)>,
    rows: nat,
) -> bool {
    &&& forall|i: int, j: int|
        0 <= i < j < layers.len() ==> (#[trigger] layers[i]).0.0 < (#[trigger] layers[j]).0.0
    &&& forall|i: int| 0 <= i < layers.len() ==> ascending(#[trigger] layers[i].1)
    &&& forall|i: int, k: int|
        0 <= i < layers.len() && 0 <= k < layers[i].1.len() ==> (#[trigger] layers[i].1[k]).0
            < rows
}

/// The groups a channel paints, none when it paints nothing.
pub open spec fn channel_groups(
    layers: Seq<(Channel, Seq<(usize, Seq<DisplayColumnExtent>)>)>,
    channel: Channel,
) -> Seq<(usize, Seq<DisplayColumnExtent>)> {
    if exists|i: int| 0 <= i < layers.len() && (#[trigger] layers[i]).0 == channel {
        layers[choose|i: int| 0 <= i < layers.len() && (#[trigger] layers[i]).0 == channel].1
    } else {
        Seq::empty()
    }
}

pub open spec fn painted_as(es: Seq<DisplayColumnExtent>, channel: Channel) -> Seq<Highlight> {
    es.map_values(|e: DisplayColumnExtent| Highlight { extent: e, channel })
}

/// What one channel paints on a row.
pub open spec fn paint_of(layer: (Channel, Seq<(usize, Seq<DisplayColumnExtent>)>), row: usize) -> Seq<
    Highlight,
> {
    match lookup(layer.1, row) {
        Some(es) => painted_as(es, layer.0),
        None => Seq::empty(),
    }
}

/// What a row draws: every channel's ranges on it, lower channels first so that a higher one
/// paints over them.
pub open spec fn stack(layers: Seq<(Channel, Seq<(usize, Seq<DisplayColumnExtent>)>)>, row: usize) -> Seq<
    Highlight,
>
    decreases layers.len(),
{
    if layers.len() == 0 {
        Seq::empty()
    } else {
        stack(layers.drop_last(), row) + paint_of(layers.last(), row)
    }
}

proof fn lemma_stack_update(
    layers: Seq<(Channel, Seq<(usize, Seq<DisplayColumnExtent>)>)>,
    pos: int,
    layer: (Channel, Seq<(usize, Seq<DisplayColumnExtent>)>),
    row: usize,
)
    requires
        0 <= pos < layers.len(),
        paint_of(layer, row) == paint_of(layers[pos], row),
    ensures
        stack(layers.update(pos, layer), row) == stack(layers, row),
    decreases layers.len(),
{
    let updated = layers.update(pos, layer);
    if pos == layers.len() - 1 {
        assert(updated.drop_last() =~= layers.drop_last());
    } else {
        assert(updated.drop_last() =~= layers.drop_last().update(pos, layer));
        lemma_stack_update(layers.drop_last(), pos, layer, row);
    }
}

proof fn lemma_stack_insert(
    layers: Seq<(Channel, Seq<(usize, Seq<DisplayColumnExtent>)>)>,
    pos: int,
    layer: (Channel, Seq<(usize, Seq<DisplayColumnExtent>)>),
    row: usize,
)
    requires
        0 <= pos <= layers.len(),
        paint_of(layer, row) == Seq::<Highlight>::empty(),
    ensures
        stack(layers.insert(pos, layer), row) == stack(layers, row),
    decreases layers.len(),
{
    let inserted = layers.insert(pos, layer);
    if pos == layers.len() {
        assert(inserted.drop_last() =~= layers);
        assert(stack(layers, row) + Seq::<Highlight>::empty() =~= stack(layers, row));
    } else {
        assert(inserted.drop_last() =~= layers.drop_last().insert(pos, layer));
        lemma_stack_insert(layers.drop_last(), pos, layer, row);
    }
}

proof fn lemma_channel_groups(layers: Seq<(Channel, Seq<(usize, Seq<DisplayColumnExtent>)>)>, i: int)
    requires
        0 <= i < layers.len(),
        forall|a: int, b: int|
            0 <= a < b < layers.len() ==> (#[trigger] layers[a]).0.0 < (#[trigger] layers[b]).0.0,
    ensures
        channel_groups(layers, layers[i].0) == layers[i].1,
{
    let c = layers[i].0;
    assert(exists|j: int| 0 <= j < layers.len() && (#[trigger] layers[j]).0 == c);
    let j = choose|j: int| 0 <= j < layers.len() && (#[trigger] layers[j]).0 == c;
    if j < i {
        assert(layers[j].0.0 < layers[i].0.0);
    } else if j > i {
        assert(layers[i].0.0 < layers[j].0.0);
    }
}

/// Which group of an ordered list is for `row`.
fn find_group(groups: &Vec<(usize, Vec<DisplayColumnExtent>)>, row: usize) -> (found: Option<usize>)
    requires
        ascending(groups_view(groups@)),
    ensures
        match found {
            Some(k) => k < groups@.len() && groups@[k as int].0 == row,
            None => forall|k: int| 0 <= k < groups@.len() ==> (#[trigger] groups@[k]).0 != row,
        },
{
    let ghost gs = groups_view(groups@);
    let mut lo: usize = 0;
    let mut hi: usize = groups.len();
    while lo < hi
        invariant
            gs == groups_view(groups@),
            ascending(gs),
            lo <= hi <= groups@.len(),
            forall|k: int| 0 <= k < lo ==> (#[trigger] groups@[k]).0 < row,
            forall|k: int| hi <= k < groups@.len() ==> (#[trigger] groups@[k]).0 > row,
        decreases hi - lo,
    {
        let mid = lo + (hi - lo) / 2;
        let key = groups[mid].0;
        if key == row {
            return Some(mid);
        } else if key < row {
            proof {
                assert forall|k: int| 0 <= k < mid + 1 implies (#[trigger] groups@[k]).0 < row by {
                    if k < mid {
                        assert(gs[k].0 < gs[mid as int].0);
                    }
                }
            }
            lo = mid + 1;
        } else {
            proof {
                assert forall|k: int| mid <= k < groups@.len() implies (#[trigger] groups@[k]).0
                    > row by {
                    if k > mid {
                        assert(gs[mid as int].0 < gs[k].0);
                    }
                }
            }
            hi = mid;
        }
    }
    None
}

impl RowModel {
    /// Rebuilds one row's highlights from every channel, in ascending channel order so that a
    /// higher channel is drawn over a lower one. Reports whether it did, since a row that is
    /// not there is not a write.
    fn write(&mut self, index: usize) -> (written: bool)
        requires
            layers_fit(old(self).layers(), old(self).rows@.len()),
            old(self).drawn@.len() == old(self).rows@.len(),
        ensures
            written == (index < old(self).rows@.len()),
            final(self).rows == old(self).rows,
            final(self).longest_line_columns == old(self).longest_line_columns,
            final(self).line_index == old(self).line_index,
            final(self).channels == old(self).channels,
            final(self).drawn@.len() == old(self).drawn@.len(),
            forall|i: int|
                0 <= i < old(self).drawn@.len() && i != index ==> #[trigger] final(self).drawn@[i]
                    == old(self).drawn@[i],
            index < old(self).rows@.len() ==> final(self).drawn@[index as int]@ == stack(
                old(self).layers(),
                index,
            ),
    {
        if index >= self.rows.len() {
            return false;
        }
        let ghost layers = self.layers();
        let mut all: Vec<Highlight> = Vec::new();
        let mut c: usize = 0;
        while c < self.channels.len()
            invariant
                layers == layers_view(self.channels@),
                layers_fit(layers, self.rows@.len()),
                c <= self.channels@.len(),
                all@ == stack(layers.take(c as int), index),
            decreases self.channels@.len() - c,
        {
            let channel = self.channels[c].0;
            let groups = &self.channels[c].1;
            proof {
                assert(layers.take(c as int + 1).drop_last() =~= layers.take(c as int));
                assert(layers[c as int].1 == groups_view(groups@));
                assert(ascending(layers[c as int].1));
            }
            match find_group(groups, index) {
                Some(at) => {
                    let extents = &groups[at].1;
                    proof {
                        lemma_lookup(groups_view(groups@), at as int);
                    }
                    let ghost start = all@;
                    let mut e: usize = 0;
                    while e < extents.len()
                        invariant
                            e <= extents@.len(),
                            all@ == start + painted_as(extents@.take(e as int), channel),
                        decreases extents@.len() - e,
                    {
                        all.push(Highlight { extent: copy_extent(&extents[e]), channel });
                        proof {
                            assert(painted_as(extents@.take(e as int + 1), channel) =~= painted_as(
                                extents@.take(e as int),
                                channel,
                            ).push(Highlight { extent: extents@[e as int], channel }));
                        }
                        e += 1;
                    }
                    proof {
                        assert(extents@.take(extents@.len() as int) =~= extents@);
                    }
                },
                None => {
                    proof {
                        lemma_lookup_absent(groups_view(groups@), index);
                        assert(all@ =~= all@ + Seq::<Highlight>::empty());
                    }
                },
            }
            c += 1;
        }
        proof {
            assert(layers.take(self.channels@.len() as int) =~= layers);
        }
        self.drawn.set(index, all);
        true
    }

    /// Replaces everything one channel is painting, leaving every other channel alone.
    ///
    /// Returns how many rows were written, which is the measure of what this cost. A row is
    /// written only if what it draws actually changed, so resending an unchanged set costs
    /// nothing and a change to one channel does not touch rows that only another paints.
    pub fn set_channel(&mut self, channel: Channel, ranges: &[(usize, DisplayColumnExtent)]) -> (written:
        usize)
        requires
            old(self).wf(),
        ensures
            final(self).wf(),
            final(self).shown() == old(self).shown(),
            final(self).longest() == old(self).longest(),
            forall|row: usize|
                lookup(channel_groups(final(self).layers(), channel), row) == #[trigger] requested(
                    ranges@,
                    old(self).shown().len(),
                    row,
                ),
            forall|c: Channel, row: usize|
                c != channel ==> #[trigger] lookup(channel_groups(final(self).layers(), c), row)
                    == lookup(channel_groups(old(self).layers(), c), row),
            final(self).painted().len() == final(self).shown().len(),
            forall|i: int|
                0 <= i < final(self).shown().len() ==> #[trigger] final(self).painted()[i] == stack(
                    final(self).layers(),
                    i as usize,
                ),
            written == Set::new(
                |row: usize|
                    differs_on(
                        channel_groups(old(self).layers(), channel),
                        channel_groups(final(self).layers(), channel),
                        row,
                    ),
            ).len(),
    {
        let ghost old_layers = self.layers();
        let n = self.rows.len();
        let wanted = group_by_row(ranges, n);
        let mut pos: usize = 0;
        while pos < self.channels.len() && self.channels[pos].0.0 < channel.0
            invariant
                pos <= self.channels@.len(),
                old_layers == layers_view(self.channels@),
                forall|k: int| 0 <= k < pos ==> (#[trigger] old_layers[k]).0.0 < channel.0,
            decreases self.channels@.len() - pos,
        {
            pos += 1;
        }
        let present = pos < self.channels.len() && self.channels[pos].0 == channel;
        let ghost previous: Seq<(usize, Seq<DisplayColumnExtent>)> = if present {
            old_layers[pos as int].1
        } else {
            Seq::empty()
        };
        proof {
            if present {
                lemma_channel_groups(old_layers, pos as int);
            } else {
                assert forall|i: int| 0 <= i < old_layers.len() implies (
                #[trigger] old_layers[i]).0 != channel by {
                    if i > pos {
                        assert(old_layers[pos as int].0.0 < old_layers[i].0.0);
                    }
                }
            }
            assert(channel_groups(old_layers, channel) == previous);
        }
        let touched = if present {
            differing_rows(self.channels[pos].1.as_slice(), wanted.as_slice())
        } else {
            let none: Vec<(usize, Vec<DisplayColumnExtent>)> = Vec::new();
            proof {
                assert(groups_view(none@) =~= previous);
            }
            differing_rows(none.as_slice(), wanted.as_slice())
        };
        let ghost fresh = groups_view(wanted@);
        let ghost layer = (channel, fresh);
        if present {
            self.channels[pos].1 = wanted;
            proof {
                assert(self.layers() =~= old_layers.update(pos as int, layer));
            }
        } else {
            self.channels.insert(pos, (channel, wanted));
            proof {
                assert(self.layers() =~= old_layers.insert(pos as int, layer));
            }
        }
        let ghost new_layers = self.layers();
        proof {
            lemma_new_layers(old_layers, new_layers, pos as int, present, layer, n as nat);
            assert forall|i: int|
                0 <= i < n && !touched@.contains(i as usize) implies #[trigger] self.drawn@[i]@
                == stack(new_layers, i as usize) by {
                let row = i as usize;
                assert(!differs_on(previous, fresh, row));
                if present {
                    lemma_stack_update(old_layers, pos as int, layer, row);
                } else {
                    lemma_lookup_absent(previous, row);
                    lemma_stack_insert(old_layers, pos as int, layer, row);
                }
            }
        }
        proof {
            assert(touched@.subrange(0, touched@.len() as int) =~= touched@);
            assert forall|k: int| 0 <= k < touched@.len() implies (#[trigger] touched@[k]) < n by {
                let row = touched@[k];
                assert(touched@.contains(row));
                assert(differs_on(previous, fresh, row));
                if lookup(previous, row) is Some {
                    let j = choose|j: int| 0 <= j < previous.len() && (#[trigger] previous[j]).0 == row;
                    assert(old_layers[pos as int].1[j].0 < n);
                } else {
                    let j = choose|j: int| 0 <= j < fresh.len() && (#[trigger] fresh[j]).0 == row;
                    assert(wanted@[j].0 < n);
                }
            }
        }
        let mut count: usize = 0;
        let mut t: usize = 0;
        while t < touched.len()
            invariant
                t <= touched@.len(),
                count == t,
                increasing(touched@),
                forall|k: int| 0 <= k < touched@.len() ==> (#[trigger] touched@[k]) < n,
                n == self.rows@.len(),
                self.layers() == new_layers,
                layers_fit(new_layers, n as nat),
                self.drawn@.len() == n,
                indexes(self.rows@, self.line_index@, self.rows@.len()),
                self.rows@ == old(self).rows@,
                self.longest_line_columns == old(self).longest_line_columns,
                forall|i: int|
                    0 <= i < n && !touched@.subrange(t as int, touched@.len() as int).contains(
                        i as usize,
                    ) ==> #[trigger] self.drawn@[i]@ == stack(new_layers, i as usize),
            decreases touched@.len() - t,
        {
            let row = touched[t];
            let ghost before = self.drawn@;
            if self.write(row) {
                count += 1;
            }
            proof {
                assert forall|i: int|
                    0 <= i < n && !touched@.subrange(t as int + 1, touched@.len() as int).contains(
                        i as usize,
                    ) implies #[trigger] self.drawn@[i]@ == stack(new_layers, i as usize) by {
                    if i != row as int {
                        if touched@.subrange(t as int, touched@.len() as int).contains(i as usize) {
                            let k = choose|k: int|
                                0 <= k < touched@.len() - t && touched@.subrange(
                                    t as int,
                                    touched@.len() as int,
                                )[k] == i as usize;
                            if k > 0 {
                                assert(touched@.subrange(t as int + 1, touched@.len() as int)[k - 1]
                                    == i as usize);
                            }
                        }
                    }
                }
            }
            t += 1;
        }
        proof {
            assert forall|i: int| 0 <= i < n implies #[trigger] self.drawn@[i]@ == stack(
                self.layers(),
                i as usize,
            ) by {
                assert(touched@.subrange(t as int, touched@.len() as int).len() == 0);
            }
            lemma_channel_groups(new_layers, pos as int);
            let differing = Set::new(|row: usize| differs_on(previous, fresh, row));
            assert(touched@.no_duplicates()) by {
                assert forall|a: int, b: int|
                    0 <= a < touched@.len() && 0 <= b < touched@.len() && a != b implies touched@[a]
                    != touched@[b] by {
                    if a < b {
                        assert(touched@[a] < touched@[b]);
                    } else {
                        assert(touched@[b] < touched@[a]);
                    }
                }
            }
            touched@.unique_seq_to_set();
            assert(touched@.to_set() =~= differing);
        }
        count
    }

    /// What one row currently draws, from every channel.
    pub fn drawn(&self, row: usize) -> (highlights: Option<&[Highlight]>)
        requires
            self.wf(),
        ensures
            match highlights {
                Some(h) => row < self.shown().len() && h@ == self.painted()[row as int],
                None => row >= self.shown().len(),
            },
    {
        if row < self.drawn.len() {
            Some(self.drawn[row].as_slice())
        } else {
            None
        }
    }
}

/// The layers after a channel's groups are replaced or added keep their order, and every
/// other channel paints what it did.
proof fn lemma_new_layers(
    old_layers: Seq<(Channel, Seq<(usize, Seq<DisplayColumnExtent>)>)>,
    new_layers: Seq<(Channel, Seq<(usize, Seq<DisplayColumnExtent>)>)>,
    pos: int,
    present: bool,
    layer: (Channel, Seq<(usize, Seq<DisplayColumnExtent>)>),
    n: nat,
)
    requires
        layers_fit(old_layers, n),
        ascending(layer.1),
        forall|k: int| 0 <= k < layer.1.len() ==> (#[trigger] layer.1[k]).0 < n,
        0 <= pos <= old_layers.len(),
        forall|k: int| 0 <= k < pos ==> (#[trigger] old_layers[k]).0.0 < layer.0.0,
        present ==> pos < old_layers.len() && old_layers[pos].0 == layer.0,
        !present ==> pos == old_layers.len() || old_layers[pos].0 != layer.0,
        !present ==> pos == old_layers.len() || layer.0.0 <= old_layers[pos].0.0,
        new_layers == (if present {
            old_layers.update(pos, layer)
        } else {
            old_layers.insert(pos, layer)
        }),
    ensures
        layers_fit(new_layers, n),
        channel_groups(new_layers, layer.0) == layer.1,
        forall|c: Channel| c != layer.0 ==> #[trigger] channel_groups(new_layers, c) == channel_groups(
            old_layers,
            c,
        ),
{
    assert(forall|i: int, j: int|
        0 <= i < j < new_layers.len() ==> (#[trigger] new_layers[i]).0.0 < (
        #[trigger] new_layers[j]).0.0) by {
        assert forall|i: int, j: int| 0 <= i < j < new_layers.len() implies (
        #[trigger] new_layers[i]).0.0 < (#[trigger] new_layers[j]).0.0 by {
            if present {
                if i != pos && j != pos {
                    assert(old_layers[i].0.0 < old_layers[j].0.0);
                } else if i == pos {
                    assert(old_layers[pos].0.0 < old_layers[j].0.0);
                } else {
                    assert(old_layers[i].0.0 < old_layers[pos].0.0);
                }
            } else {
                if j < pos {
                    assert(old_layers[i].0.0 < old_layers[j].0.0);
                } else if j == pos {
                } else if i < pos {
                    assert(old_layers[pos].0.0 <= old_layers[j - 1].0.0) by {
                        if pos < j - 1 {
                            assert(old_layers[pos].0.0 < old_layers[j - 1].0.0);
                        }
                    }
                } else if i == pos {
                    assert(old_layers[pos].0.0 <= old_layers[j - 1].0.0) by {
                        if pos < j - 1 {
                            assert(old_layers[pos].0.0 < old_layers[j - 1].0.0);
                        }
                    }
                    assert(layer.0.0 != old_layers[pos].0.0);
                } else {
                    assert(old_layers[i - 1].0.0 < old_layers[j - 1].0.0);
                }
            }
        }
    }
    assert(layers_fit(new_layers, n)) by {
        assert forall|i: int| 0 <= i < new_layers.len() implies ascending(#[trigger] new_layers[i].1) by {
            if present {
                if i != pos {
                    assert(new_layers[i] == old_layers[i]);
                }
            } else if i < pos {
                assert(new_layers[i] == old_layers[i]);
            } else if i > pos {
                assert(new_layers[i] == old_layers[i - 1]);
            }
        }
        assert forall|i: int, k: int|
            0 <= i < new_layers.len() && 0 <= k < new_layers[i].1.len() implies (
            #[trigger] new_layers[i].1[k]).0 < n by {
            if present {
                if i != pos {
                    assert(new_layers[i] == old_layers[i]);
                }
            } else if i < pos {
                assert(new_layers[i] == old_layers[i]);
            } else if i > pos {
                assert(new_layers[i] == old_layers[i - 1]);
            }
        }
    }
    lemma_channel_groups(new_layers, pos);
    assert forall|c: Channel| c != layer.0 implies #[trigger] channel_groups(new_layers, c)
        == channel_groups(old_layers, c) by {
        if exists|i: int| 0 <= i < old_layers.len() && (#[trigger] old_layers[i]).0 == c {
            let i = choose|i: int| 0 <= i < old_layers.len() && (#[trigger] old_layers[i]).0 == c;
            lemma_channel_groups(old_layers, i);
            if present || i < pos {
                assert(new_layers[i] == old_layers[i]);
                lemma_channel_groups(new_layers, i);
            } else {
                assert(new_layers[i + 1] == old_layers[i]);
                lemma_channel_groups(new_layers, i + 1);
            }
        } else {
            assert forall|i: int| 0 <= i < new_layers.len() implies (#[trigger] new_layers[i]).0
                != c by {
                if i != pos {
                    if present || i < pos {
                        assert(new_layers[i] == old_layers[i]);
                    } else {
                        assert(new_layers[i] == old_layers[i - 1]);
                    }
                }
            }
        }
    }
}

/// Resending what a channel already paints writes no row: two paintings that each draw
/// exactly the ranges asked for differ nowhere, so the count `set_channel` reports is zero.
pub proof fn law_resending_a_channel_writes_nothing(
    before: Seq<(usize, Seq<DisplayColumnExtent>)>,
    after: Seq<(usize, Seq<DisplayColumnExtent>)>,
    ranges: Seq<(usize, DisplayColumnExtent)>,
    rows: nat,
)
    requires
        forall|row: usize| lookup(before, row) == #[trigger] requested(ranges, rows, row),
        forall|row: usize| lookup(after, row) == #[trigger] requested(ranges, rows, row),
    ensures
        Set::new(|row: usize| differs_on(before, after, row)).len() == 0,
{
    assert(Set::new(|row: usize| differs_on(before, after, row)) =~= Set::<usize>::empty()) by {
        assert forall|row: usize| !differs_on(before, after, row) by {
            assert(lookup(before, row) == requested(ranges, rows, row));
            assert(lookup(after, row) == requested(ranges, rows, row));
        }
    }
}

// == Handing rows to the widget

/// One row in the flat form a widget binds to: plain numbers, with zero standing for "none".
#[derive(Debug, Clone, PartialEq, Eq)]
pub struct WidgetRow {
    pub class: i32,
    pub numbered: bool,
    pub full_width: bool,
    /// The gutter's numbers, or for a gap where its hidden run starts. Zero means no number:
    /// line numbers are 1-based, so it cannot collide with a real one.
    pub left_line: i32,
    pub right_line: i32,
    /// What the row reads as: its text, or for a gap its note.
    pub text: String,
    /// Which file names the row's line, when it has one.
    pub id_document: Option<Document>,
    /// The line's number in that file; zero when the row names no line.
    pub id_line: i32,
    pub columns: i32,
    /// How many lines a gap hides; zero on every other row.
    pub hidden_count: i32,
    pub gap_state: GapState,
    /// The run being fetched, numbered on the right; a zero count means nothing is in flight.
    pub busy_start: i32,
    pub busy_count: i32,
    /// The run of selectable rows this one belongs to; an empty run means it is not
    /// selectable at all.
    pub run_start: i32,
    pub run_end: i32,
}

pub open spec fn or_zero(n: Option<u32>) -> u32 {
    match n {
        Some(v) => v,
        None => 0,
    }
}

/// What the widget is handed for a row.
///
/// A gap draws no numbers, so it spends the two number fields on where its hidden run starts:
/// opening one has to say which lines to fetch, and losing this makes every gap ask for line
/// zero.
pub open spec fn widget_form(row: DisplayedRow, w: WidgetRow) -> bool {
    &&& w.class == row.class.0 as i32
    &&& w.numbered == row.numbered
    &&& w.full_width == row.full_width
    &&& w.columns == row.columns as i32
    &&& w.run_start == row.selectable_run.start as i32
    &&& w.run_end == row.selectable_run.end as i32
    &&& w.id_document == match row.id {
        Some((document, _)) => Some(document),
        None => None,
    }
    &&& w.id_line == match row.id {
        Some((_, line)) => line as i32,
        None => 0,
    }
    &&& match row.gap {
        Some(g) => {
            &&& w.left_line == g.left_start as i32
            &&& w.right_line == g.right_start as i32
            &&& w.text@ == g.note@
            &&& w.hidden_count == g.hidden as i32
            &&& w.gap_state == g.state
            &&& w.busy_start == or_zero(
                match g.pending {
                    Some((start, _)) => Some(start),
                    None => None,
                },
            ) as i32
            &&& w.busy_count == or_zero(
                match g.pending {
                    Some((_, count)) => Some(count),
                    None => None,
                },
            ) as i32
        },
        None => {
            &&& w.left_line == or_zero(row.numbers@[0]) as i32
            &&& w.right_line == or_zero(row.numbers@[1]) as i32
            &&& w.text@ == row.text@
            &&& w.hidden_count == 0
            &&& w.gap_state == GapState::Hidden
            &&& w.busy_start == 0
            &&& w.busy_count == 0
        },
    }
}

impl WidgetRow {
    /// The widget's form of a row.
    pub fn of(row: &DisplayedRow) -> (w: WidgetRow)
        ensures
            widget_form(*row, w),
    {
        let (left, right, text, hidden, state, busy_start, busy_count) = match &row.gap {
            Some(g) => {
                let (start, count) = match g.pending {
                    Some((start, count)) => (start, count),
                    None => (0, 0),
                };
                (g.left_start, g.right_start, g.note.clone(), g.hidden, g.state, start, count)
            },
            None => {
                let left = match row.numbers[0] {
                    Some(n) => n,
                    None => 0,
                };
                let right = match row.numbers[1] {
                    Some(n) => n,
                    None => 0,
                };
                (left, right, row.text.clone(), 0, GapState::Hidden, 0, 0)
            },
        };
        let (id_document, id_line) = match row.id {
            Some((document, line)) => (Some(document), line),
            None => (None, 0),
        };
        WidgetRow {
            class: #[verifier::truncate] (row.class.0 as i32),
            numbered: row.numbered,
            full_width: row.full_width,
            left_line: #[verifier::truncate] (left as i32),
            right_line: #[verifier::truncate] (right as i32),
            text,
            id_document,
            id_line: #[verifier::truncate] (id_line as i32),
            columns: #[verifier::truncate] (row.columns as i32),
            hidden_count: #[verifier::truncate] (hidden as i32),
            gap_state: state,
            busy_start: #[verifier::truncate] (busy_start as i32),
            busy_count: #[verifier::truncate] (busy_count as i32),
            run_start: #[verifier::truncate] (row.selectable_run.start as i32),
            run_end: #[verifier::truncate] (row.selectable_run.end as i32),
        }
    }
}

/// One highlight in the flat form a widget binds to: a run of columns, or from a column to the
/// edge of the pane, in a channel. `end` means nothing when `to_end` is set.
#[derive(Debug, Clone, Copy, PartialEq, Eq, Structural)]
pub struct WidgetHighlight {
    pub start: i32,
    pub end: i32,
    pub to_end: bool,
    pub channel: i32,
}

pub open spec fn flat_highlight(h: Highlight) -> WidgetHighlight {
    match h.extent {
        DisplayColumnExtent::Columns(columns) => WidgetHighlight {
            start: columns.start as i32,
            end: columns.end as i32,
            to_end: false,
            channel: h.channel.0 as i32,
        },
        DisplayColumnExtent::ToEnd { from } => WidgetHighlight {
            start: from as i32,
            end: 0,
            to_end: true,
            channel: h.channel.0 as i32,
        },
    }
}

/// A row's highlights packed for the widget, which has no enum carrying a payload, so the two
/// kinds of extent flatten into a flag.
pub fn widget_highlights(highlights: &[Highlight]) -> (flat: Vec<WidgetHighlight>)
    ensures
        flat@ == highlights@.map_values(|h: Highlight| flat_highlight(h)),
{
    let mut flat: Vec<WidgetHighlight> = Vec::new();
    let mut i: usize = 0;
    while i < highlights.len()
        invariant
            i <= highlights@.len(),
            flat@ == highlights@.take(i as int).map_values(|h: Highlight| flat_highlight(h)),
        decreases highlights@.len() - i,
    {
        let h = &highlights[i];
        let channel = #[verifier::truncate] (h.channel.0 as i32);
        let w = match &h.extent {
            DisplayColumnExtent::Columns(columns) => WidgetHighlight {
                start: #[verifier::truncate] (columns.start as i32),
                end: #[verifier::truncate] (columns.end as i32),
                to_end: false,
                channel,
            },
            DisplayColumnExtent::ToEnd { from } => WidgetHighlight {
                start: #[verifier::truncate] (*from as i32),
                end: 0,
                to_end: true,
                channel,
            },
        };
        flat.push(w);
        proof {
            assert(highlights@.take(i as int + 1).map_values(|h: Highlight| flat_highlight(h))
                =~= highlights@.take(i as int).map_values(|h: Highlight| flat_highlight(h)).push(
                flat_highlight(highlights@[i as int]),
            ));
        }
        i += 1;
    }
    proof {
        assert(highlights@.take(highlights@.len() as int) =~= highlights@);
    }
    flat
}

impl RowModel {
    /// A pane showing one reading of a laid-out diff: the rows `render_diff` draws for it, taken
    /// in through `from_rows` like any others.
    pub fn new(layout: &Layout, file: &FileDiff, opts: &RenderOptions, pane: DiffPane) -> (model:
        Self)
        requires
            lines_fit(*file, *opts),
        ensures
            model.wf(),
            model.shown().len() == layout.rows@.len(),
            exists|drawn: Seq<DisplayedRow>|
                {
                    &&& drawn.len() == layout.rows@.len()
                    &&& model.shown() == with_runs(drawn)
                    &&& model.longest() == #[verifier::truncate] (max_columns(drawn) as i32)
                    &&& forall|i: int|
                        0 <= i < drawn.len() ==> displays(
                            layout.rows@[i],
                            *file,
                            *opts,
                            pane,
                            #[trigger] drawn[i],
                        )
                },
            model.layers() == Seq::<(Channel, Seq<(usize, Seq<DisplayColumnExtent>)>)>::empty(),
            model.painted().len() == layout.rows@.len(),
            forall|i: int|
                0 <= i < layout.rows@.len() ==> #[trigger] model.painted()[i] == Seq::<
                    Highlight,
                >::empty(),
    {
        let rows = render_diff(layout, file, opts, pane);
        let ghost drawn = rows@;
        let model = RowModel::from_rows(rows);
        proof {
            assert(model.shown() == with_runs(drawn));
            assert(model.longest() == #[verifier::truncate] (max_columns(drawn) as i32));
        }
        model
    }
}

proof fn lemma_stack_channels(
    layers: Seq<(Channel, Seq<(usize, Seq<DisplayColumnExtent>)>)>,
    row: usize,
)
    ensures
        forall|k: int|
            0 <= k < stack(layers, row).len() ==> exists|i: int|
                0 <= i < layers.len() && (#[trigger] stack(layers, row)[k]).channel == layers[i].0,
    decreases layers.len(),
{
    if layers.len() > 0 {
        let rest = layers.drop_last();
        lemma_stack_channels(rest, row);
        let below = stack(rest, row);
        let top = paint_of(layers.last(), row);
        assert forall|k: int| 0 <= k < stack(layers, row).len() implies exists|i: int|
            0 <= i < layers.len() && (#[trigger] stack(layers, row)[k]).channel == layers[i].0 by {
            if k < below.len() {
                let i = choose|i: int| 0 <= i < rest.len() && below[k].channel == rest[i].0;
                assert(layers[i] == rest[i]);
            } else {
                assert(stack(layers, row)[k] == top[k - below.len()]);
                assert(layers[layers.len() - 1] == layers.last());
            }
        }
    }
}

/// A higher channel paints over a lower one: what a row draws lists every range of a lower
/// channel before any range of a higher one.
pub proof fn law_higher_channels_paint_over_lower_ones(
    layers: Seq<(Channel, Seq<(usize, Seq<DisplayColumnExtent>)>)>,
    row: usize,
)
    requires
        forall|i: int, j: int|
            0 <= i < j < layers.len() ==> (#[trigger] layers[i]).0.0 < (#[trigger] layers[j]).0.0,
    ensures
        forall|a: int, b: int|
            0 <= a < b < stack(layers, row).len() ==> (#[trigger] stack(layers, row)[a]).channel.0
                <= (#[trigger] stack(layers, row)[b]).channel.0,
    decreases layers.len(),
{
    if layers.len() > 0 {
        let rest = layers.drop_last();
        law_higher_channels_paint_over_lower_ones(rest, row);
        lemma_stack_channels(rest, row);
        let below = stack(rest, row);
        let top = paint_of(layers.last(), row);
        let all = stack(layers, row);
        assert forall|a: int, b: int| 0 <= a < b < all.len() implies (#[trigger] all[a]).channel.0
            <= (#[trigger] all[b]).channel.0 by {
            if b < below.len() {
                assert(all[a] == below[a] && all[b] == below[b]);
            } else if a >= below.len() {
                assert(all[a] == top[a - below.len()]);
                assert(all[b] == top[b - below.len()]);
            } else {
                assert(all[a] == below[a]);
                let i = choose|i: int| 0 <= i < rest.len() && below[a].channel == rest[i].0;
                assert(layers[i] == rest[i]);
                assert(all[b] == top[b - below.len()]);
                assert(layers[i].0.0 < layers[layers.len() - 1].0.0);
            }
        }
    }
}

} // verus!
