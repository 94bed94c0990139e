//! The parsed representation of a diff.
//!
//! An owned, display-oriented model. It keeps the structure a unified diff describes rather
//! than flattening it into rows: the rows depend on the layout and on which gaps have been
//! opened, and are built separately.

use vstd::prelude::*;

use crate::text::LineEnding;

verus! {

/// One or more file diffs, as found in a single unified diff document.
#[derive(Debug, Clone, Default, PartialEq, Eq)]
pub struct DiffSet {
    pub files: Vec<FileDiff>,
}

impl DiffSet {
    pub fn is_empty(&self) -> (r: bool)
        ensures
            r == (self.files@.len() == 0),
    {
        self.files.len() == 0
    }
}

/// What happened to a file.
#[derive(Debug, Clone, Copy, PartialEq, Eq, Structural)]
pub enum FileChange {
    Added,
    Removed,
    Modified,
    Renamed,
    Copied,
}

/// A file's permission bits, for the mode changes git records.
#[derive(Debug, Clone, Copy, PartialEq, Eq, Structural)]
pub enum FileMode {
    Regular,
    Executable,
    Symlink,
    /// A submodule reference.
    Gitlink,
}

/// A file's contents, or the absence of them.
#[derive(Debug, Clone, PartialEq, Eq)]
pub enum FileContent {
    Text { hunks: Vec<Hunk> },
    /// Git reports binary files without content. There is nothing to render but the header.
    Binary,
}

#[derive(Debug, Clone, PartialEq, Eq)]
pub struct FileDiff {
    /// Path on the left, absent when the file was added.
    pub left_path: Option<String>,
    /// Path on the right, absent when the file was removed.
    pub right_path: Option<String>,
    pub change: FileChange,
    pub left_mode: Option<FileMode>,
    pub right_mode: Option<FileMode>,
    pub content: FileContent,
    /// Runs of lines a host is fetching, or has failed to fetch. Lines that arrived are not
    /// here: they go into the hunks, because by then they are lines like any other.
    pub fetches: Vec<Fetch>,
}

/// A contiguous run of changed lines plus the context around it.
#[derive(Debug, Clone, PartialEq, Eq)]
pub struct Hunk {
    /// First line number covered on the left, 1-based. A hunk that only inserts covers no
    /// left lines, and the header then names the line the insertion follows.
    pub left_start: u32,
    pub left_len: u32,
    pub right_start: u32,
    pub right_len: u32,
    /// The text trailing the `@@` markers. Git puts the enclosing function signature here.
    pub heading: Option<String>,
    pub lines: Vec<DiffLine>,
}

/// A hunk as the contracts see it.
pub struct HunkView {
    pub left_start: u32,
    pub left_len: u32,
    pub right_start: u32,
    pub right_len: u32,
    pub heading: Option<String>,
    pub lines: Seq<DiffLine>,
}

impl View for Hunk {
    type V = HunkView;

    open spec fn view(&self) -> HunkView {
        HunkView {
            left_start: self.left_start,
            left_len: self.left_len,
            right_start: self.right_start,
            right_len: self.right_len,
            heading: self.heading,
            lines: self.lines@,
        }
    }
}

/// A run of hidden lines somebody is trying to open up. Only ever describes lines that are
/// not there yet.
#[derive(Debug, Clone, PartialEq, Eq)]
pub struct Fetch {
    /// First line of the run, numbered on the right.
    pub right_start: u32,
    pub count: u32,
    pub state: FetchState,
}

#[derive(Debug, Clone, PartialEq, Eq)]
pub enum FetchState {
    Waiting,
    /// Gave up, with something to show for why.
    Failed(String),
}

/// Points at one line of a parsed diff: a hunk, and an index within its lines.
#[derive(Debug, Clone, Copy, PartialEq, Eq, Structural)]
pub struct LineRef {
    pub hunk: u32,
    /// Index within the hunk's lines, not a line number in the file.
    pub line: u32,
}

/// Where a line came from: the diff itself, or context fetched later to open up a gap.
#[derive(Debug, Clone, Copy, PartialEq, Eq, Structural)]
pub enum LineOrigin {
    Diff,
    Expanded,
}

#[derive(Debug, Clone, Copy, PartialEq, Eq, Structural)]
pub enum LineKind {
    /// Unchanged, present on both sides.
    Context,
    Added,
    Removed,
}

#[derive(Debug, Clone, PartialEq, Eq)]
pub struct DiffLine {
    pub kind: LineKind,
    /// The line's content, without the leading marker and without its line terminator.
    pub text: String,
    /// Line number on the left, 1-based. Absent for added lines.
    pub left_line: Option<u32>,
    /// Line number on the right, 1-based. Absent for removed lines.
    pub right_line: Option<u32>,
    /// How the line ended, with the terminator itself already stripped from `text`.
    pub line_ending: LineEnding,
    pub origin: LineOrigin,
}

impl DiffLine {
    /// Whether the file this line came from ends without a newline, this being its last line.
    pub fn no_newline_at_eof(&self) -> (r: bool)
        ensures
            r == (self.line_ending == LineEnding::Missing),
    {
        self.line_ending == LineEnding::Missing
    }
}

/// The path a file is shown under: the right-hand one where there is one.
pub open spec fn shown_path(left: Option<String>, right: Option<String>) -> Seq<char> {
    match right {
        Some(p) => p@,
        None => match left {
            Some(p) => p@,
            None => Seq::empty(),
        },
    }
}

/// A file's hunks, none for a binary file.
pub open spec fn hunks_of(content: FileContent) -> Seq<Hunk> {
    match content {
        FileContent::Text { hunks } => hunks@,
        FileContent::Binary => Seq::empty(),
    }
}

/// The hunks as the contracts see them.
pub open spec fn views_of(hunks: Seq<Hunk>) -> Seq<HunkView> {
    hunks.map_values(|h: Hunk| h@)
}

/// Whether every fetch's end is a line number a `u32` can hold.
pub open spec fn fetch_ends_fit(fetches: Seq<Fetch>) -> bool {
    forall|i: int|
        0 <= i < fetches.len() ==> #[trigger] fetches[i].right_start + fetches[i].count <= u32::MAX
}

/// Whether every hunk's end, and every fetch's end, is a line number a `u32` can hold.
pub open spec fn ends_fit(hunks: Seq<HunkView>, fetches: Seq<Fetch>) -> bool {
    &&& forall|i: int|
        0 <= i < hunks.len() ==> #[trigger] hunks[i].left_start + hunks[i].left_len
            <= u32::MAX && hunks[i].right_start + hunks[i].right_len <= u32::MAX
    &&& fetch_ends_fit(fetches)
}

impl FileDiff {
    pub open spec fn hunk_views(self) -> Seq<HunkView> {
        views_of(hunks_of(self.content))
    }

    /// The line a reference names, when it names one.
    pub open spec fn line_at(self, at: LineRef) -> Option<DiffLine> {
        let hunks = hunks_of(self.content);
        if at.hunk < hunks.len() && at.line < hunks[at.hunk as int].lines@.len() {
            Some(hunks[at.hunk as int].lines@[at.line as int])
        } else {
            None
        }
    }

    /// Line numbers at the ends of hunks and fetches stay within `u32`, so walking them
    /// cannot overflow.
    pub open spec fn ends_fit(self) -> bool {
        ends_fit(self.hunk_views(), self.fetches@)
    }

    /// The path to show for this file: the right-hand one where there is one, since that is
    /// what the file is called after the change.
    pub fn display_path(&self) -> (path: &str)
        ensures
            path@ == shown_path(self.left_path, self.right_path),
    {
        match &self.right_path {
            Some(p) => p.as_str(),
            None => match &self.left_path {
                Some(p) => p.as_str(),
                None => {
                    proof {
                        reveal_strlit("");
                    }
                    ""
                },
            },
        }
    }

    pub fn hunks(&self) -> (hunks: &[Hunk])
        ensures
            hunks@ == hunks_of(self.content),
    {
        match &self.content {
            FileContent::Text { hunks } => hunks.as_slice(),
            FileContent::Binary => &[],
        }
    }

    pub fn is_binary(&self) -> (r: bool)
        ensures
            r == (self.content is Binary),
    {
        match &self.content {
            FileContent::Binary => true,
            FileContent::Text { .. } => false,
        }
    }

    /// The line a row came from, for reading its original text.
    pub fn line(&self, at: LineRef) -> (line: Option<&DiffLine>)
        ensures
            match self.line_at(at) {
                Some(l) => line == Some(&l),
                None => line is None,
            },
    {
        let hunks = self.hunks();
        if (at.hunk as usize) < hunks.len() {
            let lines = &hunks[at.hunk as usize].lines;
            if (at.line as usize) < lines.len() {
                return Some(&lines[at.line as usize]);
            }
        }
        None
    }
}

/// Whether a fetch names exactly the run `right_start`, `count`.
pub open spec fn is_run(f: Fetch, right_start: u32, count: u32) -> bool {
    f.right_start == right_start && f.count == count
}

/// Index of the first fetch recorded for a run, or the number of fetches when there is none.
pub open spec fn run_index(fetches: Seq<Fetch>, right_start: u32, count: u32) -> nat
    decreases fetches.len(),
{
    if fetches.len() == 0 {
        0
    } else if is_run(fetches[0], right_start, count) {
        0
    } else {
        1 + run_index(fetches.drop_first(), right_start, count)
    }
}

/// The fetches after recording `state` for a run: the first record of that run is replaced,
/// or a new one is added at the end.
pub open spec fn with_fetch(fetches: Seq<Fetch>, right_start: u32, count: u32, state: FetchState) -> Seq<
    Fetch,
> {
    let i = run_index(fetches, right_start, count);
    let record = Fetch { right_start, count, state };
    if i < fetches.len() {
        fetches.update(i as int, record)
    } else {
        fetches.push(record)
    }
}

/// Recording a run that ends within `u32` keeps every fetch's end within it.
proof fn lemma_with_fetch_fits(fetches: Seq<Fetch>, right_start: u32, count: u32, state: FetchState)
    requires
        fetch_ends_fit(fetches),
        right_start + count <= u32::MAX,
    ensures
        fetch_ends_fit(with_fetch(fetches, right_start, count, state)),
{
    let w = with_fetch(fetches, right_start, count, state);
    let i = run_index(fetches, right_start, count);
    assert forall|k: int| 0 <= k < w.len() implies #[trigger] w[k].right_start + w[k].count
        <= u32::MAX by {
        if k < fetches.len() && k != i {
            assert(w[k] == fetches[k]);
        }
    }
}

proof fn lemma_run_index(fetches: Seq<Fetch>, right_start: u32, count: u32)
    ensures
        run_index(fetches, right_start, count) <= fetches.len(),
        forall|j: int|
            0 <= j < run_index(fetches, right_start, count) ==> !is_run(
                #[trigger] fetches[j],
                right_start,
                count,
            ),
        run_index(fetches, right_start, count) < fetches.len() ==> is_run(
            fetches[run_index(fetches, right_start, count) as int],
            right_start,
            count,
        ),
    decreases fetches.len(),
{
    if fetches.len() > 0 && !is_run(fetches[0], right_start, count) {
        lemma_run_index(fetches.drop_first(), right_start, count);
        assert forall|j: int| 0 <= j < run_index(fetches, right_start, count) implies !is_run(
            #[trigger] fetches[j],
            right_start,
            count,
        ) by {
            if j > 0 {
                assert(fetches[j] == fetches.drop_first()[j - 1]);
            }
        }
    }
}

/// Which fetches a clean-up keeps.
pub enum FetchRule {
    /// Those not overlapping the run `start .. start + count`, numbered on the right.
    Outside { start: u32, count: u32 },
    /// Those that have not failed.
    NotFailed,
    /// Those recorded for any run but this one.
    NotRun { start: u32, count: u32 },
}

pub open spec fn keeps(rule: FetchRule, f: Fetch) -> bool {
    match rule {
        FetchRule::Outside { start, count } => f.right_start >= start + count || f.right_start
            + f.count <= start,
        FetchRule::NotFailed => !(f.state is Failed),
        FetchRule::NotRun { start, count } => !is_run(f, start, count),
    }
}

pub open spec fn rule_fits(rule: FetchRule) -> bool {
    match rule {
        FetchRule::Outside { start, count } => start + count <= u32::MAX,
        _ => true,
    }
}

/// Keeps the fetches a rule keeps, in their order.
fn retain_fetches(fetches: &mut Vec<Fetch>, rule: FetchRule)
    requires
        rule_fits(rule),
        rule is Outside ==> fetch_ends_fit(old(fetches)@),
    ensures
        final(fetches)@ == old(fetches)@.filter(|f: Fetch| keeps(rule, f)),
        fetch_ends_fit(old(fetches)@) ==> fetch_ends_fit(final(fetches)@),
{
    let ghost all = fetches@;
    let mut taken: Vec<Fetch> = Vec::new();
    std::mem::swap(&mut taken, fetches);
    let ghost mut i: int = 0;
    for f in it: taken
        invariant
            it.seq() == all,
            i == it.index(),
            0 <= i <= all.len(),
            rule_fits(rule),
            rule is Outside ==> fetch_ends_fit(all),
            fetches@ == all.take(i).filter(|f: Fetch| keeps(rule, f)),
            fetch_ends_fit(all) ==> fetch_ends_fit(fetches@),
    {
        proof {
            assert(all.take(i + 1) =~= all.take(i).push(f));
            all.take(i).lemma_filter_push(f, |f: Fetch| keeps(rule, f));
        }
        let keep = match rule {
            FetchRule::Outside { start, count } => f.right_start >= start + count || f.right_start
                + f.count <= start,
            FetchRule::NotFailed => match f.state {
                FetchState::Failed(_) => false,
                FetchState::Waiting => true,
            },
            FetchRule::NotRun { start, count } => f.right_start != start || f.count != count,
        };
        if keep {
            fetches.push(f);
        }
        proof {
            i = i + 1;
        }
    }
    proof {
        assert(all.take(i) =~= all);
    }
}

impl FileDiff {
    /// Records that somebody has gone to fetch a run of hidden lines, so the gap can say so.
    ///
    /// Replaces any earlier record for the same run, which is what makes retrying a failed
    /// fetch the same call as starting one.
    pub fn fetch_started(&mut self, right_start: u32, count: u32)
        ensures
            fetch_ends_fit(old(self).fetches@) && right_start + count <= u32::MAX
                ==> fetch_ends_fit(final(self).fetches@),
            final(self).fetches@ == with_fetch(
                old(self).fetches@,
                right_start,
                count,
                FetchState::Waiting,
            ),
            final(self).content == old(self).content,
            final(self).left_path == old(self).left_path,
            final(self).right_path == old(self).right_path,
            final(self).change == old(self).change,
            final(self).left_mode == old(self).left_mode,
            final(self).right_mode == old(self).right_mode,
    {
        proof {
            if fetch_ends_fit(self.fetches@) && right_start + count <= u32::MAX {
                lemma_with_fetch_fits(self.fetches@, right_start, count, FetchState::Waiting);
            }
        }
        self.set_fetch(right_start, count, FetchState::Waiting);
    }

    /// Records that a fetch did not work. `why` is shown on the gap row.
    pub fn fetch_failed(&mut self, right_start: u32, count: u32, why: String)
        ensures
            fetch_ends_fit(old(self).fetches@) && right_start + count <= u32::MAX
                ==> fetch_ends_fit(final(self).fetches@),
            final(self).fetches@ == with_fetch(
                old(self).fetches@,
                right_start,
                count,
                FetchState::Failed(why),
            ),
            final(self).content == old(self).content,
            final(self).left_path == old(self).left_path,
            final(self).right_path == old(self).right_path,
            final(self).change == old(self).change,
            final(self).left_mode == old(self).left_mode,
            final(self).right_mode == old(self).right_mode,
    {
        proof {
            if fetch_ends_fit(self.fetches@) && right_start + count <= u32::MAX {
                lemma_with_fetch_fits(self.fetches@, right_start, count, FetchState::Failed(why));
            }
        }
        self.set_fetch(right_start, count, FetchState::Failed(why));
    }

    /// Forgets every failed fetch.
    pub fn clear_failed_fetches(&mut self)
        ensures
            final(self).fetches@ == old(self).fetches@.filter(
                |f: Fetch| keeps(FetchRule::NotFailed, f),
            ),
            final(self).content == old(self).content,
            final(self).left_path == old(self).left_path,
            final(self).right_path == old(self).right_path,
            final(self).change == old(self).change,
            final(self).left_mode == old(self).left_mode,
            final(self).right_mode == old(self).right_mode,
    {
        retain_fetches(&mut self.fetches, FetchRule::NotFailed);
    }

    /// Forgets a fetch without filling it in, returning the gap to plain hidden lines.
    pub fn fetch_abandoned(&mut self, right_start: u32, count: u32)
        ensures
            final(self).fetches@ == old(self).fetches@.filter(
                |f: Fetch| keeps(FetchRule::NotRun { start: right_start, count }, f),
            ),
            final(self).content == old(self).content,
            final(self).left_path == old(self).left_path,
            final(self).right_path == old(self).right_path,
            final(self).change == old(self).change,
            final(self).left_mode == old(self).left_mode,
            final(self).right_mode == old(self).right_mode,
    {
        retain_fetches(&mut self.fetches, FetchRule::NotRun { start: right_start, count });
    }

    fn set_fetch(&mut self, right_start: u32, count: u32, state: FetchState)
        ensures
            final(self).fetches@ == with_fetch(old(self).fetches@, right_start, count, state),
            final(self).content == old(self).content,
            final(self).left_path == old(self).left_path,
            final(self).right_path == old(self).right_path,
            final(self).change == old(self).change,
            final(self).left_mode == old(self).left_mode,
            final(self).right_mode == old(self).right_mode,
    {
        proof {
            lemma_run_index(self.fetches@, right_start, count);
        }
        let mut i: usize = 0;
        while i < self.fetches.len()
            invariant
                i <= self.fetches@.len(),
                self.fetches@ == old(self).fetches@,
                self.content == old(self).content,
                self.left_path == old(self).left_path,
                self.right_path == old(self).right_path,
                self.change == old(self).change,
                self.left_mode == old(self).left_mode,
                self.right_mode == old(self).right_mode,
                forall|j: int| 0 <= j < i ==> !is_run(#[trigger] self.fetches@[j], right_start, count),
                run_index(self.fetches@, right_start, count) <= self.fetches@.len(),
                forall|j: int|
                    0 <= j < run_index(self.fetches@, right_start, count) ==> !is_run(
                        #[trigger] self.fetches@[j],
                        right_start,
                        count,
                    ),
                run_index(self.fetches@, right_start, count) < self.fetches@.len() ==> is_run(
                    self.fetches@[run_index(self.fetches@, right_start, count) as int],
                    right_start,
                    count,
                ),
            decreases self.fetches@.len() - i,
        {
            if self.fetches[i].right_start == right_start && self.fetches[i].count == count {
                assert(run_index(self.fetches@, right_start, count) == i);
                self.fetches.set(i, Fetch { right_start, count, state });
                return;
            }
            i = i + 1;
        }
        self.fetches.push(Fetch { right_start, count, state });
    }
}

/// Lines held on the left across all hunks.
pub open spec fn total_left(hs: Seq<HunkView>) -> nat
    decreases hs.len(),
{
    if hs.len() == 0 {
        0
    } else {
        total_left(hs.drop_last()) + hs.last().left_len as nat
    }
}

/// Lines held on the right across all hunks.
pub open spec fn total_right(hs: Seq<HunkView>) -> nat
    decreases hs.len(),
{
    if hs.len() == 0 {
        0
    } else {
        total_right(hs.drop_last()) + hs.last().right_len as nat
    }
}

/// Every hunk could grow by everything the hunks hold, and by `extra` more, without its end
/// leaving `u32`. Growing hunks only ever moves lines between them, so this is what keeps
/// every sum opening a gap computes within range.
pub open spec fn room(hs: Seq<HunkView>, extra: nat) -> bool {
    forall|i: int|
        #![trigger hs[i]]
        0 <= i < hs.len() ==> hs[i].left_start + total_left(hs) + extra <= u32::MAX
            && hs[i].right_start + total_right(hs) + extra <= u32::MAX
}

proof fn lemma_totals_add(a: Seq<HunkView>, b: Seq<HunkView>)
    ensures
        total_left(a + b) == total_left(a) + total_left(b),
        total_right(a + b) == total_right(a) + total_right(b),
    decreases b.len(),
{
    if b.len() == 0 {
        assert(a + b =~= a);
    } else {
        lemma_totals_add(a, b.drop_last());
        assert((a + b).drop_last() =~= a + b.drop_last());
    }
}

proof fn lemma_totals_split(hs: Seq<HunkView>, i: int)
    requires
        0 <= i < hs.len(),
    ensures
        total_left(hs) == total_left(hs.take(i)) + hs[i].left_len + total_left(hs.skip(i + 1)),
        total_right(hs) == total_right(hs.take(i)) + hs[i].right_len + total_right(
            hs.skip(i + 1),
        ),
{
    assert(hs =~= hs.take(i) + (seq![hs[i]] + hs.skip(i + 1)));
    lemma_totals_add(hs.take(i), seq![hs[i]] + hs.skip(i + 1));
    lemma_totals_add(seq![hs[i]], hs.skip(i + 1));
    let one = seq![hs[i]];
    assert(one.drop_last().len() == 0);
    assert(total_left(one.drop_last()) == 0);
    assert(total_right(one.drop_last()) == 0);
    assert(one.last() == hs[i]);
    assert(total_left(seq![hs[i]]) == hs[i].left_len as nat);
    assert(total_right(seq![hs[i]]) == hs[i].right_len as nat);
}

/// The first hunk, counted from the front, that `p` holds of, or the number of hunks.
pub open spec fn first_where(hs: Seq<HunkView>, p: spec_fn(HunkView) -> bool) -> nat
    decreases hs.len(),
{
    if hs.len() == 0 {
        0
    } else if p(hs[0]) {
        0
    } else {
        1 + first_where(hs.drop_first(), p)
    }
}

proof fn lemma_first_where(hs: Seq<HunkView>, p: spec_fn(HunkView) -> bool)
    ensures
        first_where(hs, p) <= hs.len(),
        forall|j: int| 0 <= j < first_where(hs, p) ==> !p(#[trigger] hs[j]),
        first_where(hs, p) < hs.len() ==> p(hs[first_where(hs, p) as int]),
    decreases hs.len(),
{
    if hs.len() > 0 && !p(hs[0]) {
        lemma_first_where(hs.drop_first(), p);
        assert forall|j: int| 0 <= j < first_where(hs, p) implies !p(#[trigger] hs[j]) by {
            if j > 0 {
                assert(hs[j] == hs.drop_first()[j - 1]);
            }
        }
    }
}

pub open spec fn ends_at(left: u32) -> spec_fn(HunkView) -> bool {
    |h: HunkView| h.left_start + h.left_len == left
}

pub open spec fn starts_at(left: int) -> spec_fn(HunkView) -> bool {
    |h: HunkView| h.left_start == left
}

pub open spec fn starts_after(left: u32) -> spec_fn(HunkView) -> bool {
    |h: HunkView| h.left_start > left
}

/// Whether the run of `count` lines from `left_start` lies inside one hunk already.
pub open spec fn is_covered(hs: Seq<HunkView>, left_start: u32, count: nat) -> bool {
    exists|i: int|
        0 <= i < hs.len() && left_start >= hs[i].left_start && left_start + count
            <= hs[i].left_start + hs[i].left_len
}

/// The context lines opening a gap, numbered from where the run starts on each side.
pub open spec fn opened_lines(left_start: u32, right_start: u32, texts: Seq<String>) -> Seq<
    DiffLine,
> {
    Seq::new(
        texts.len(),
        |k: int|
            DiffLine {
                kind: LineKind::Context,
                text: texts[k],
                left_line: Some((left_start + k) as u32),
                right_line: Some((right_start + k) as u32),
                line_ending: LineEnding::Lf,
                origin: LineOrigin::Expanded,
            },
    )
}

/// A hunk grown at its end by `added`.
pub open spec fn grown_back(h: HunkView, added: Seq<DiffLine>) -> HunkView {
    HunkView {
        left_len: (h.left_len + added.len()) as u32,
        right_len: (h.right_len + added.len()) as u32,
        lines: h.lines + added,
        ..h
    }
}

/// A hunk grown at its start by `added`, which begins at `left_start` and `right_start`.
pub open spec fn grown_front(h: HunkView, left_start: u32, right_start: u32, added: Seq<DiffLine>) -> HunkView {
    HunkView {
        left_start,
        right_start,
        left_len: (h.left_len + added.len()) as u32,
        right_len: (h.right_len + added.len()) as u32,
        lines: added + h.lines,
        heading: h.heading,
    }
}

/// A hunk of nothing but context, for lines that touch no other hunk.
pub open spec fn context_hunk(left_start: u32, right_start: u32, added: Seq<DiffLine>) -> HunkView {
    HunkView {
        left_start,
        left_len: added.len() as u32,
        right_start,
        right_len: added.len() as u32,
        heading: None,
        lines: added,
    }
}

/// Where opened lines go: onto the end of the hunk they continue, else onto the front of the
/// hunk they run into, else into a hunk of their own, placed before the first hunk starting
/// after them.
pub open spec fn placed(hs: Seq<HunkView>, left_start: u32, right_start: u32, added: Seq<DiffLine>) -> Seq<
    HunkView,
> {
    let before = first_where(hs, ends_at(left_start));
    let after = first_where(hs, starts_at(left_start + added.len()));
    if before < hs.len() {
        hs.update(before as int, grown_back(hs[before as int], added))
    } else if after < hs.len() {
        hs.update(after as int, grown_front(hs[after as int], left_start, right_start, added))
    } else {
        hs.insert(
            first_where(hs, starts_after(left_start)) as int,
            context_hunk(left_start, right_start, added),
        )
    }
}

/// Two hunks that meet, as one. The first keeps its heading.
pub open spec fn joined(a: HunkView, b: HunkView) -> HunkView {
    HunkView {
        left_len: (a.left_len + b.left_len) as u32,
        right_len: (a.right_len + b.right_len) as u32,
        lines: a.lines + b.lines,
        ..a
    }
}

pub open spec fn touches(a: HunkView, b: HunkView) -> bool {
    a.left_start + a.left_len == b.left_start
}

/// Hunks with every run of neighbours that meet joined into one, from the front.
pub open spec fn merged(hs: Seq<HunkView>) -> Seq<HunkView>
    decreases hs.len(),
{
    if hs.len() < 2 {
        hs
    } else if touches(hs[0], hs[1]) {
        merged(seq![joined(hs[0], hs[1])] + hs.skip(2))
    } else {
        seq![hs[0]] + merged(hs.skip(1))
    }
}

/// The hunks after opening a gap with `added`: unchanged if a hunk already covers the run,
/// otherwise the lines placed and any hunks that now meet merged.
pub open spec fn expanded(hs: Seq<HunkView>, left_start: u32, right_start: u32, added: Seq<DiffLine>) -> Seq<
    HunkView,
> {
    if is_covered(hs, left_start, added.len()) {
        hs
    } else {
        merged(placed(hs, left_start, right_start, added))
    }
}

/// The hunks after opening a gap one line at a time, from the last line up: each line is
/// placed unless a hunk already covers it, so the lines of a run that a hunk already covers
/// are ignored even where the run only partly overlaps it. `k` counts the lines taken so
/// far, from the end of the run.
pub open spec fn opened_back(
    hs: Seq<HunkView>,
    left_start: u32,
    right_start: u32,
    added: Seq<DiffLine>,
    k: nat,
) -> Seq<HunkView>
    decreases k,
{
    if k == 0 {
        hs
    } else {
        let j = added.len() - k;
        expanded(
            opened_back(hs, left_start, right_start, added, (k - 1) as nat),
            (left_start + j) as u32,
            (right_start + j) as u32,
            seq![added[j]],
        )
    }
}

/// The hunks after opening a gap with `added`, whose first line is numbered `left_start` and
/// `right_start`. A run no hunk touches any line of is placed whole, so it stays together in
/// one hunk however the hunks are ordered. A run that some hunk partly covers is placed a line
/// at a time, each line ignored where a hunk already covers it. Hunks that meet are merged.
pub open spec fn opened(hs: Seq<HunkView>, left_start: u32, right_start: u32, added: Seq<DiffLine>) -> Seq<
    HunkView,
> {
    if added.len() == 0 {
        hs
    } else if clear_of(hs, left_start, added.len()) {
        expanded(hs, left_start, right_start, added)
    } else {
        opened_back(hs, left_start, right_start, added, added.len())
    }
}

/// The room that opening `count` lines needs: room to place the run whole where no hunk covers
/// any of it, and room to place it line by line otherwise.
pub open spec fn can_expand(hs: Seq<HunkView>, left_start: u32, right_start: u32, count: nat) -> bool {
    if clear_of(hs, left_start, count) {
        can_open(hs, left_start, right_start, count)
    } else {
        can_open_each(hs, left_start, right_start, count)
    }
}

/// Whether every hunk starts at or below `lb` on the left and `rb` on the right.
pub open spec fn starts_within(hs: Seq<HunkView>, lb: int, rb: int) -> bool {
    forall|i: int|
        0 <= i < hs.len() ==> #[trigger] hs[i].left_start <= lb && hs[i].right_start <= rb
}

proof fn lemma_views_insert(hs: Seq<Hunk>, i: int, h: Hunk)
    requires
        0 <= i <= hs.len(),
    ensures
        views_of(hs.insert(i, h)) == views_of(hs).insert(i, h@),
{
    assert(views_of(hs.insert(i, h)) =~= views_of(hs).insert(i, h@));
}

/// One merging step keeps the totals, and keeps the room.
proof fn lemma_join_step(vs: Seq<HunkView>, i: int)
    requires
        0 <= i,
        i + 1 < vs.len(),
        room(vs, 0),
    ensures
        vs[i].left_len + vs[i + 1].left_len <= total_left(vs),
        vs[i].right_len + vs[i + 1].right_len <= total_right(vs),
        ({
            let j = joined(vs[i], vs[i + 1]);
            let next = vs.take(i) + seq![j] + vs.skip(i + 2);
            &&& total_left(next) == total_left(vs)
            &&& total_right(next) == total_right(vs)
            &&& room(next, 0)
        }),
{
    let j = joined(vs[i], vs[i + 1]);
    let next = vs.take(i) + seq![j] + vs.skip(i + 2);
    lemma_totals_split(vs, i);
    lemma_totals_split(vs.skip(i + 1), 0);
    assert(vs.skip(i + 1).take(0) =~= Seq::<HunkView>::empty());
    assert(vs.skip(i + 1).skip(1) =~= vs.skip(i + 2));
    assert(vs.skip(i + 1)[0] == vs[i + 1]);
    assert(vs[0 + i] == vs[i]);
    assert(total_left(Seq::<HunkView>::empty()) == 0);
    lemma_totals_split(next, i);
    assert(next.take(i) =~= vs.take(i));
    assert(next.skip(i + 1) =~= vs.skip(i + 2));
    assert forall|k: int| 0 <= k < next.len() implies #[trigger] next[k].left_start + total_left(
        next,
    ) + 0 <= u32::MAX && next[k].right_start + total_right(next) + 0 <= u32::MAX by {
        if k < i {
            assert(next[k] == vs[k]);
        } else if k == i {
            assert(next[k].left_start == vs[i].left_start);
        } else {
            assert(next[k] == vs[k + 1]);
        }
    }
}

/// Joins hunks that have grown until they meet.
fn merge_touching(hunks: &mut Vec<Hunk>)
    requires
        room(views_of(old(hunks)@), 0),
    ensures
        views_of(final(hunks)@) == merged(views_of(old(hunks)@)),
        room(views_of(final(hunks)@), 0),
        total_left(views_of(final(hunks)@)) == total_left(views_of(old(hunks)@)),
        total_right(views_of(final(hunks)@)) == total_right(views_of(old(hunks)@)),
{
    let ghost original = views_of(hunks@);
    let mut i: usize = 0;
    proof {
        assert(views_of(hunks@).skip(0) =~= views_of(hunks@));
        assert(views_of(hunks@).take(0) + merged(views_of(hunks@)) =~= merged(views_of(hunks@)));
    }
    while hunks.len() - i > 1
        invariant
            i <= hunks@.len(),
            merged(original) == views_of(hunks@).take(i as int) + merged(
                views_of(hunks@).skip(i as int),
            ),
            room(views_of(hunks@), 0),
            total_left(views_of(hunks@)) == total_left(original),
            total_right(views_of(hunks@)) == total_right(original),
        decreases hunks@.len() - i,
    {
        let ghost vs = views_of(hunks@);
        assert(vs[i as int] == hunks@[i as int]@);
        assert(vs[i + 1] == hunks@[i + 1]@);
        proof {
            lemma_join_step(vs, i as int);
        }
        if hunks[i].left_start + hunks[i].left_len == hunks[i + 1].left_start {
            let mut next = hunks.remove(i + 1);
            let mut cur = hunks.remove(i);
            cur.left_len = cur.left_len + next.left_len;
            cur.right_len = cur.right_len + next.right_len;
            cur.lines.append(&mut next.lines);
            // The surviving hunk keeps its own heading; the one absorbed described a place
            // that is no longer the start of anything.
            hunks.insert(i, cur);
            proof {
                let j = joined(vs[i as int], vs[i + 1]);
                assert(cur@ == j);
                assert(views_of(hunks@) =~= vs.take(i as int) + seq![j] + vs.skip(i + 2));
                assert(vs.skip(i as int)[0] == vs[i as int]);
                assert(vs.skip(i as int)[1] == vs[i + 1]);
                assert(vs.skip(i as int).skip(2) =~= vs.skip(i + 2));
                assert(views_of(hunks@).take(i as int) =~= vs.take(i as int));
                assert(views_of(hunks@).skip(i as int) =~= seq![j] + vs.skip(i + 2));
            }
        } else {
            proof {
                assert(vs.skip(i as int)[0] == vs[i as int]);
                assert(vs.skip(i as int)[1] == vs[i + 1]);
                assert(vs.skip(i as int).skip(1) =~= vs.skip(i + 1));
                assert(vs.take(i + 1) =~= vs.take(i as int) + seq![vs[i as int]]);
            }
            i = i + 1;
        }
    }
    proof {
        let vs = views_of(hunks@);
        assert(vs.take(i as int) + vs.skip(i as int) =~= vs);
    }
}

proof fn lemma_update_totals(vs: Seq<HunkView>, b: int, h: HunkView)
    requires
        0 <= b < vs.len(),
    ensures
        total_left(vs.update(b, h)) == total_left(vs) - vs[b].left_len + h.left_len,
        total_right(vs.update(b, h)) == total_right(vs) - vs[b].right_len + h.right_len,
{
    let next = vs.update(b, h);
    lemma_totals_split(vs, b);
    lemma_totals_split(next, b);
    assert(next.take(b) =~= vs.take(b));
    assert(next.skip(b + 1) =~= vs.skip(b + 1));
}

proof fn lemma_insert_totals(vs: Seq<HunkView>, k: int, h: HunkView)
    requires
        0 <= k <= vs.len(),
    ensures
        total_left(vs.insert(k, h)) == total_left(vs) + h.left_len,
        total_right(vs.insert(k, h)) == total_right(vs) + h.right_len,
{
    let next = vs.insert(k, h);
    lemma_totals_split(next, k);
    assert(next.take(k) =~= vs.take(k));
    assert(next.skip(k + 1) =~= vs.skip(k));
    lemma_totals_add(vs.take(k), vs.skip(k));
    assert(vs.take(k) + vs.skip(k) =~= vs);
}

/// No hunk holds more lines than all of them together.
proof fn lemma_len_within_total(vs: Seq<HunkView>, i: int)
    requires
        0 <= i < vs.len(),
    ensures
        vs[i].left_len <= total_left(vs),
        vs[i].right_len <= total_right(vs),
{
    lemma_totals_split(vs, i);
}

proof fn lemma_room_ends(vs: Seq<HunkView>)
    requires
        room(vs, 0),
    ensures
        forall|i: int|
            0 <= i < vs.len() ==> #[trigger] vs[i].left_start + vs[i].left_len <= u32::MAX
                && vs[i].right_start + vs[i].right_len <= u32::MAX,
{
    assert forall|i: int| 0 <= i < vs.len() implies #[trigger] vs[i].left_start + vs[i].left_len
        <= u32::MAX && vs[i].right_start + vs[i].right_len <= u32::MAX by {
        lemma_len_within_total(vs, i);
    }
}

/// Whether opening `count` lines from `left_start` and `right_start` keeps every line number
/// within `u32`.
pub open spec fn can_open(hs: Seq<HunkView>, left_start: u32, right_start: u32, count: nat) -> bool {
    &&& room(hs, count)
    &&& left_start + total_left(hs) + count <= u32::MAX
    &&& right_start + total_right(hs) + count <= u32::MAX
}

/// Whether opening `count` lines one at a time from `left_start` and `right_start` keeps every
/// line number within `u32`: every hunk could take on everything the hunks hold and the whole
/// run, and so could a hunk starting anywhere in the run.
pub open spec fn can_open_each(hs: Seq<HunkView>, left_start: u32, right_start: u32, count: nat) -> bool {
    &&& room(hs, count)
    &&& left_start + count + total_left(hs) + count <= u32::MAX
    &&& right_start + count + total_right(hs) + count <= u32::MAX
}

/// Whether a run of lines is already part of some hunk.
fn covered(hunks: &Vec<Hunk>, left_start: u32, count: u32) -> (r: bool)
    requires
        left_start + count <= u32::MAX,
        room(views_of(hunks@), 0),
    ensures
        r == is_covered(views_of(hunks@), left_start, count as nat),
{
    let ghost vs = views_of(hunks@);
    let mut k: usize = 0;
    while k < hunks.len()
        invariant
            vs == views_of(hunks@),
            room(vs, 0),
            left_start + count <= u32::MAX,
            k <= hunks@.len(),
            forall|j: int|
                0 <= j < k ==> !(left_start >= #[trigger] vs[j].left_start && left_start + count
                    <= vs[j].left_start + vs[j].left_len),
        decreases hunks@.len() - k,
    {
        assert(vs[k as int] == hunks@[k as int]@);
        proof {
            lemma_len_within_total(vs, k as int);
        }
        let h = &hunks[k];
        if left_start >= h.left_start && left_start + count <= h.left_start + h.left_len {
            return true;
        }
        k = k + 1;
    }
    false
}

/// Whether no hunk covers any of the `count` lines from `left_start`.
fn run_is_clear(hunks: &Vec<Hunk>, left_start: u32, count: u32) -> (r: bool)
    requires
        count > 0,
        left_start + count <= u32::MAX,
        room(views_of(hunks@), 0),
    ensures
        r == clear_of(views_of(hunks@), left_start, count as nat),
{
    let ghost vs = views_of(hunks@);
    let mut k: usize = 0;
    while k < hunks.len()
        invariant
            vs == views_of(hunks@),
            room(vs, 0),
            count > 0,
            left_start + count <= u32::MAX,
            k <= hunks@.len(),
            forall|j: int|
                0 <= j < k ==> #[trigger] vs[j].left_start + vs[j].left_len <= left_start
                    || left_start + count <= vs[j].left_start,
        decreases hunks@.len() - k,
    {
        assert(vs[k as int] == hunks@[k as int]@);
        proof {
            lemma_len_within_total(vs, k as int);
        }
        let h = &hunks[k];
        if !(h.left_start + h.left_len <= left_start || left_start + count <= h.left_start) {
            return false;
        }
        k = k + 1;
    }
    true
}

/// A hunk replaced by one holding `n` more lines on each side, starting where the room allows,
/// leaves room for nothing more but fits.
proof fn lemma_room_after_update(vs: Seq<HunkView>, b: int, g: HunkView, n: nat)
    requires
        0 <= b < vs.len(),
        room(vs, n),
        g.left_len == vs[b].left_len + n,
        g.right_len == vs[b].right_len + n,
        g.left_start + total_left(vs) + n <= u32::MAX,
        g.right_start + total_right(vs) + n <= u32::MAX,
    ensures
        room(vs.update(b, g), 0),
{
    lemma_update_totals(vs, b, g);
    let next = vs.update(b, g);
    assert forall|i: int| 0 <= i < next.len() implies #[trigger] next[i].left_start + total_left(
        next,
    ) + 0 <= u32::MAX && next[i].right_start + total_right(next) + 0 <= u32::MAX by {
        if i != b {
            assert(next[i] == vs[i]);
        }
    }
}

proof fn lemma_room_after_insert(vs: Seq<HunkView>, k: int, g: HunkView, n: nat)
    requires
        0 <= k <= vs.len(),
        room(vs, n),
        g.left_len == n,
        g.right_len == n,
        g.left_start + total_left(vs) + n <= u32::MAX,
        g.right_start + total_right(vs) + n <= u32::MAX,
    ensures
        room(vs.insert(k, g), 0),
{
    lemma_insert_totals(vs, k, g);
    let next = vs.insert(k, g);
    assert forall|i: int| 0 <= i < next.len() implies #[trigger] next[i].left_start + total_left(
        next,
    ) + 0 <= u32::MAX && next[i].right_start + total_right(next) + 0 <= u32::MAX by {
        if i < k {
            assert(next[i] == vs[i]);
        } else if i > k {
            assert(next[i] == vs[i - 1]);
        }
    }
}

/// Places opened lines among the hunks and merges whatever now meets.
fn open_lines(hunks: &mut Vec<Hunk>, left_start: u32, right_start: u32, added: Vec<DiffLine>)
    requires
        added@.len() > 0,
        can_open(views_of(old(hunks)@), left_start, right_start, added@.len()),
    ensures
        views_of(final(hunks)@) == expanded(
            views_of(old(hunks)@),
            left_start,
            right_start,
            added@,
        ),
        room(views_of(final(hunks)@), 0),
        is_covered(views_of(old(hunks)@), left_start, added@.len()) ==> final(hunks)@ == old(
            hunks,
        )@,
{
    let ghost vs = views_of(hunks@);
    let ghost opened = added@;
    let ghost n = added@.len();
    let mut added = added;
    let count = added.len() as u32;
    let end = left_start + count;
    proof {
        assert forall|i: int| 0 <= i < vs.len() implies #[trigger] vs[i].left_start + total_left(
            vs,
        ) + 0 <= u32::MAX && vs[i].right_start + total_right(vs) + 0 <= u32::MAX by {}
    }
    // Early out if we don't need these lines.
    if covered(hunks, left_start, count) {
        return;
    }
    proof {
        lemma_first_where(vs, ends_at(left_start));
        lemma_first_where(vs, starts_at(end as int));
        lemma_first_where(vs, starts_after(left_start));
    }
    let mut b: usize = 0;
    while b < hunks.len()
        invariant
            vs == views_of(hunks@),
            room(vs, n),
            b <= hunks@.len(),
            forall|j: int| 0 <= j < b ==> !(ends_at(left_start))(#[trigger] vs[j]),
        ensures
            vs == views_of(hunks@),
            b <= hunks@.len(),
            forall|j: int| 0 <= j < b ==> !(ends_at(left_start))(#[trigger] vs[j]),
            b < hunks@.len() ==> (ends_at(left_start))(vs[b as int]),
        decreases hunks@.len() - b,
    {
        assert(vs[b as int] == hunks@[b as int]@);
        proof {
            lemma_len_within_total(vs, b as int);
        }
        if hunks[b].left_start + hunks[b].left_len == left_start {
            break;
        }
        b = b + 1;
    }
    if b < hunks.len() {
        // The lines continue this hunk.
        assert(first_where(vs, ends_at(left_start)) == b);
        proof {
            lemma_len_within_total(vs, b as int);
        }
        let mut h = hunks.remove(b);
        h.lines.append(&mut added);
        h.left_len = h.left_len + count;
        h.right_len = h.right_len + count;
        hunks.insert(b, h);
        proof {
            assert(h@ == grown_back(vs[b as int], opened));
            assert(views_of(hunks@) =~= vs.update(b as int, h@));
            lemma_room_after_update(vs, b as int, h@, n);
        }
    } else {
        let mut a: usize = 0;
        while a < hunks.len()
            invariant
                vs == views_of(hunks@),
                a <= hunks@.len(),
                forall|j: int| 0 <= j < a ==> !(starts_at(end as int))(#[trigger] vs[j]),
            ensures
                vs == views_of(hunks@),
                a <= hunks@.len(),
                forall|j: int| 0 <= j < a ==> !(starts_at(end as int))(#[trigger] vs[j]),
                a < hunks@.len() ==> (starts_at(end as int))(vs[a as int]),
            decreases hunks@.len() - a,
        {
            assert(vs[a as int] == hunks@[a as int]@);
            if hunks[a].left_start == end {
                break;
            }
            a = a + 1;
        }
        if a < hunks.len() {
            // The lines run into the start of this hunk.
            assert(first_where(vs, starts_at(end as int)) == a);
            proof {
                lemma_len_within_total(vs, a as int);
            }
            let mut h = hunks.remove(a);
            let mut lines = added;
            lines.append(&mut h.lines);
            h.lines = lines;
            h.left_start = left_start;
            h.right_start = right_start;
            h.left_len = h.left_len + count;
            h.right_len = h.right_len + count;
            hunks.insert(a, h);
            proof {
                assert(h@ == grown_front(vs[a as int], left_start, right_start, opened));
                assert(views_of(hunks@) =~= vs.update(a as int, h@));
                lemma_room_after_update(vs, a as int, h@, n);
            }
        } else {
            // Neither end of the run touches a hunk, so it becomes one: a hunk of pure
            // context, which splits the gap it came out of in two.
            let mut k: usize = 0;
            while k < hunks.len()
                invariant
                    vs == views_of(hunks@),
                    k <= hunks@.len(),
                    forall|j: int| 0 <= j < k ==> !(starts_after(left_start))(#[trigger] vs[j]),
                ensures
                    vs == views_of(hunks@),
                    k <= hunks@.len(),
                    forall|j: int| 0 <= j < k ==> !(starts_after(left_start))(#[trigger] vs[j]),
                    k < hunks@.len() ==> (starts_after(left_start))(vs[k as int]),
                decreases hunks@.len() - k,
            {
                assert(vs[k as int] == hunks@[k as int]@);
                if hunks[k].left_start > left_start {
                    break;
                }
                k = k + 1;
            }
            assert(first_where(vs, starts_after(left_start)) == k);
            let h = Hunk {
                left_start,
                left_len: count,
                right_start,
                right_len: count,
                heading: None,
                lines: added,
            };
            hunks.insert(k, h);
            proof {
                assert(h@ == context_hunk(left_start, right_start, opened));
                lemma_views_insert(old(hunks)@, k as int, h);
                lemma_room_after_insert(vs, k as int, h@, n);
            }
        }
    }
    assert(views_of(hunks@) == placed(vs, left_start, right_start, opened));
    merge_touching(hunks);
}

impl FileDiff {
    /// Adds context that was hidden, opening up part of a gap.
    ///
    /// The lines go into the hunks rather than beside them, because a gap is only ever the
    /// distance between one hunk and the next: growing a hunk closes that distance, so the
    /// gap shrinks, splits or disappears on its own. Hunks that meet are merged. Lines already
    /// covered by a hunk are ignored, each on its own, so asking twice is harmless and a run
    /// that overlaps a hunk adds only what the hunk lacks. Delivering lines ends any fetch
    /// outstanding for them, including one that merely overlaps.
    pub fn expand(&mut self, left_start: u32, right_start: u32, lines: Vec<String>)
        requires
            lines@.len() > 0 ==> fetch_ends_fit(old(self).fetches@),
            lines@.len() > 0 ==> can_expand(
                old(self).hunk_views(),
                left_start,
                right_start,
                lines@.len(),
            ),
        ensures
            lines@.len() == 0 ==> *final(self) == *old(self),
            lines@.len() > 0 ==> final(self).fetches@ == old(self).fetches@.filter(
                |f: Fetch|
                    keeps(FetchRule::Outside { start: right_start, count: lines@.len() as u32 }, f),
            ),
            old(self).content is Binary ==> final(self).content is Binary,
            old(self).content is Text ==> final(self).content is Text,
            final(self).hunk_views() == if old(self).content is Text {
                opened(
                    old(self).hunk_views(),
                    left_start,
                    right_start,
                    opened_lines(left_start, right_start, lines@),
                )
            } else {
                Seq::<HunkView>::empty()
            },
            (forall|j: int|
                0 <= j < lines@.len() ==> #[trigger] is_covered(
                    old(self).hunk_views(),
                    (left_start + j) as u32,
                    1,
                )) ==> hunks_of(final(self).content) == hunks_of(old(self).content),
            final(self).left_path == old(self).left_path,
            final(self).right_path == old(self).right_path,
            final(self).change == old(self).change,
            final(self).left_mode == old(self).left_mode,
            final(self).right_mode == old(self).right_mode,
            lines@.len() > 0 ==> final(self).ends_fit(),
    {
        if lines.len() == 0 {
            return;
        }
        proof {
            let vs = self.hunk_views();
            assert forall|i: int| 0 <= i < vs.len() implies #[trigger] vs[i].left_start
                + total_left(vs) + 0 <= u32::MAX && vs[i].right_start + total_right(vs) + 0
                <= u32::MAX by {}
            lemma_room_ends(vs);
        }
        let ghost texts = lines@;
        let mut added: Vec<DiffLine> = Vec::new();
        let mut offset: u32 = 0;
        for text in it: lines
            invariant
                it.seq() == texts,
                offset == it.index(),
                left_start + texts.len() <= u32::MAX,
                right_start + texts.len() <= u32::MAX,
                added@ == opened_lines(left_start, right_start, texts.take(offset as int)),
        {
            let line = DiffLine {
                kind: LineKind::Context,
                text,
                left_line: Some(left_start + offset),
                right_line: Some(right_start + offset),
                line_ending: LineEnding::Lf,
                origin: LineOrigin::Expanded,
            };
            added.push(line);
            proof {
                assert(added@ =~= opened_lines(left_start, right_start, texts.take(offset + 1)));
            }
            offset = offset + 1;
        }
        proof {
            assert(texts.take(offset as int) =~= texts);
        }
        if added.len() == 0 {
            return;
        }
        let count = added.len() as u32;

        // These lines are here now, so nothing is outstanding for them. A fetch that merely
        // overlaps goes too: the host delivered a different run from the one it recorded.
        retain_fetches(&mut self.fetches, FetchRule::Outside { start: right_start, count });

        match &mut self.content {
            FileContent::Text { hunks } => {
                let ghost vs0 = views_of(hunks@);
                let ghost hunks0 = hunks@;
                let ghost all = added@;
                let ghost n = all.len();
                proof {
                    assert forall|i: int| 0 <= i < vs0.len() implies #[trigger] vs0[i].left_start
                        + total_left(vs0) + 0 <= u32::MAX && vs0[i].right_start + total_right(vs0)
                        + 0 <= u32::MAX by {}
                }
                if run_is_clear(hunks, left_start, count) {
                    // Nothing covers any of the run, so it goes in whole, and stays together.
                    proof {
                        if forall|j: int|
                            0 <= j < n ==> #[trigger] is_covered(vs0, (left_start + j) as u32, 1) {
                            assert(is_covered(vs0, (left_start + 0) as u32, 1));
                            let i = choose|i: int|
                                0 <= i < vs0.len() && left_start >= vs0[i].left_start && left_start
                                    + 1 <= vs0[i].left_start + vs0[i].left_len;
                            assert(vs0[i].left_start + vs0[i].left_len <= left_start || left_start
                                + n <= vs0[i].left_start);
                        }
                    }
                    open_lines(hunks, left_start, right_start, added);
                    proof {
                        lemma_room_ends(views_of(hunks@));
                    }
                    return;
                }
                // One line at a time from the last, so a line a hunk already covers is passed
                // over on its own, and a run leading into a hunk grows that hunk from the front.
                let mut taken: u32 = 0;
                while added.len() > 0
                    invariant
                        n == all.len(),
                        n == count,
                        taken <= count,
                        added@ == all.take(n - taken),
                        can_open_each(vs0, left_start, right_start, n),
                        vs0 == views_of(hunks0),
                        views_of(hunks@) == opened_back(
                            vs0,
                            left_start,
                            right_start,
                            all,
                            taken as nat,
                        ),
                        room(views_of(hunks@), 0),
                        (forall|j: int|
                            0 <= j < n ==> #[trigger] is_covered(vs0, (left_start + j) as u32, 1))
                            ==> hunks@ == hunks0,
                    decreases added@.len(),
                {
                    let ghost before = added@;
                    let line = added.pop().unwrap();
                    proof {
                        lemma_opened_back(vs0, left_start, right_start, all, taken as nat);
                        assert(before =~= added@.push(line));
                        assert(line == all[n - taken - 1]);
                        assert(added@ =~= all.take(n - taken - 1));
                    }
                    let at = count - taken - 1;
                    let mut one: Vec<DiffLine> = Vec::new();
                    one.push(line);
                    let ghost pre = hunks@;
                    proof {
                        assert(one@ =~= seq![all[n - (taken + 1)]]);
                        if forall|j: int|
                            0 <= j < n ==> #[trigger] is_covered(vs0, (left_start + j) as u32, 1) {
                            assert(is_covered(vs0, (left_start + at) as u32, 1));
                            assert(views_of(pre) == vs0);
                        }
                    }
                    open_lines(hunks, left_start + at, right_start + at, one);
                    proof {
                        if forall|j: int|
                            0 <= j < n ==> #[trigger] is_covered(vs0, (left_start + j) as u32, 1) {
                            assert(is_covered(vs0, (left_start + at) as u32, 1));
                            assert(is_covered(views_of(pre), (left_start + at) as u32, one@.len()));
                            assert(hunks@ == pre);
                        }
                    }
                    taken = taken + 1;
                }
                proof {
                    lemma_room_ends(views_of(hunks@));
                    if forall|j: int|
                        0 <= j < n ==> #[trigger] is_covered(vs0, (left_start + j) as u32, 1) {
                        assert(hunks@ == hunks0);
                    }
                }
            },
            FileContent::Binary => {},
        }
    }
}

// == Laws

proof fn lemma_filter_idempotent(fs: Seq<Fetch>, rule: FetchRule)
    ensures
        fs.filter(|f: Fetch| keeps(rule, f)).filter(|f: Fetch| keeps(rule, f)) == fs.filter(
            |f: Fetch| keeps(rule, f),
        ),
    decreases fs.len(),
{
    let p = |f: Fetch| keeps(rule, f);
    if fs.len() > 0 {
        lemma_filter_idempotent(fs.drop_last(), rule);
        assert(fs =~= fs.drop_last().push(fs.last()));
        fs.drop_last().lemma_filter_push(fs.last(), p);
        if p(fs.last()) {
            fs.drop_last().filter(p).lemma_filter_push(fs.last(), p);
        }
    } else {
        reveal(Seq::filter);
    }
}

proof fn lemma_filter_keeps_all(fs: Seq<Fetch>, rule: FetchRule)
    requires
        forall|i: int| 0 <= i < fs.len() ==> keeps(rule, #[trigger] fs[i]),
    ensures
        fs.filter(|f: Fetch| keeps(rule, f)) == fs,
    decreases fs.len(),
{
    let p = |f: Fetch| keeps(rule, f);
    if fs.len() > 0 {
        lemma_filter_keeps_all(fs.drop_last(), rule);
        assert(fs =~= fs.drop_last().push(fs.last()));
        fs.drop_last().lemma_filter_push(fs.last(), p);
    } else {
        reveal(Seq::filter);
    }
}

/// Recording a run a second time replaces the first record rather than adding to it: the
/// result is as if only the second had been recorded. This is what makes retrying a failed
/// fetch the same call as starting one.
pub proof fn law_recording_a_run_again_replaces_it(
    fetches: Seq<Fetch>,
    right_start: u32,
    count: u32,
    first: FetchState,
    second: FetchState,
)
    ensures
        with_fetch(with_fetch(fetches, right_start, count, first), right_start, count, second)
            == with_fetch(fetches, right_start, count, second),
{
    let once = with_fetch(fetches, right_start, count, first);
    let i = run_index(fetches, right_start, count);
    lemma_run_index(fetches, right_start, count);
    lemma_run_index(once, right_start, count);
    let j = run_index(once, right_start, count);
    if i < fetches.len() {
        assert(once[i as int] == Fetch { right_start, count, state: first });
        if j < i {
            assert(once[j as int] == fetches[j as int]);
        }
        if j > i {
            assert(!is_run(once[i as int], right_start, count));
        }
        assert(j == i);
        assert(with_fetch(once, right_start, count, second) =~= with_fetch(
            fetches,
            right_start,
            count,
            second,
        ));
    } else {
        let last = fetches.len() as int;
        assert(once[last] == Fetch { right_start, count, state: first });
        if j < last {
            assert(once[j as int] == fetches[j as int]);
            assert(!is_run(fetches[j as int], right_start, count));
        }
        if j > last {
            assert(!is_run(once[last], right_start, count));
        }
        assert(j == last);
        assert(with_fetch(once, right_start, count, second) =~= with_fetch(
            fetches,
            right_start,
            count,
            second,
        ));
    }
}

/// Starting a fetch for a run nobody was fetching and then abandoning it leaves the fetches
/// exactly as they were.
pub proof fn law_abandoning_a_new_fetch_restores_the_fetches(
    fetches: Seq<Fetch>,
    right_start: u32,
    count: u32,
    state: FetchState,
)
    requires
        forall|i: int| 0 <= i < fetches.len() ==> !is_run(#[trigger] fetches[i], right_start, count),
    ensures
        with_fetch(fetches, right_start, count, state).filter(
            |f: Fetch| keeps(FetchRule::NotRun { start: right_start, count }, f),
        ) == fetches,
{
    let rule = FetchRule::NotRun { start: right_start, count };
    let p = |f: Fetch| keeps(rule, f);
    lemma_run_index(fetches, right_start, count);
    assert(run_index(fetches, right_start, count) == fetches.len());
    let record = Fetch { right_start, count, state };
    assert(with_fetch(fetches, right_start, count, state) == fetches.push(record));
    fetches.lemma_filter_push(record, p);
    assert forall|i: int| 0 <= i < fetches.len() implies keeps(rule, #[trigger] fetches[i]) by {}
    lemma_filter_keeps_all(fetches, rule);
}

/// Once lines have been delivered, nothing is recorded as outstanding for any of them, and a
/// second delivery of the same run removes no further fetch.
pub proof fn law_delivered_lines_have_no_fetch(fetches: Seq<Fetch>, right_start: u32, count: u32)
    ensures
        ({
            let rule = FetchRule::Outside { start: right_start, count };
            let left = fetches.filter(|f: Fetch| keeps(rule, f));
            &&& forall|i: int|
                0 <= i < left.len() ==> (#[trigger] left[i]).right_start >= right_start + count
                    || left[i].right_start + left[i].count <= right_start
            &&& left.filter(|f: Fetch| keeps(rule, f)) == left
        }),
{
    let rule = FetchRule::Outside { start: right_start, count };
    let p = |f: Fetch| keeps(rule, f);
    let left = fetches.filter(p);
    assert forall|i: int| 0 <= i < left.len() implies (#[trigger] left[i]).right_start
        >= right_start + count || left[i].right_start + left[i].count <= right_start by {
        fetches.lemma_filter_pred(p, i);
    }
    lemma_filter_idempotent(fetches, rule);
}

/// After clearing failures, no fetch left is a failed one.
pub proof fn law_cleared_fetches_hold_no_failure(fetches: Seq<Fetch>)
    ensures
        ({
            let left = fetches.filter(|f: Fetch| keeps(FetchRule::NotFailed, f));
            forall|i: int| 0 <= i < left.len() ==> !((#[trigger] left[i]).state is Failed)
        }),
{
    let p = |f: Fetch| keeps(FetchRule::NotFailed, f);
    let left = fetches.filter(p);
    assert forall|i: int| 0 <= i < left.len() implies !((#[trigger] left[i]).state is Failed) by {
        fetches.lemma_filter_pred(p, i);
    }
}

proof fn lemma_merged_front(hs: Seq<HunkView>)
    requires
        hs.len() > 0,
    ensures
        merged(hs).len() > 0,
        merged(hs)[0].left_start == hs[0].left_start,
        merged(hs)[0].right_start == hs[0].right_start,
    decreases hs.len(),
{
    if hs.len() >= 2 {
        if touches(hs[0], hs[1]) {
            lemma_merged_front(seq![joined(hs[0], hs[1])] + hs.skip(2));
        }
    }
}

/// Merging leaves no two neighbouring hunks that meet: whatever a gap separated, once the gap
/// is gone, is one hunk.
pub proof fn law_merged_hunks_do_not_meet(hs: Seq<HunkView>)
    ensures
        forall|i: int|
            0 <= i < merged(hs).len() - 1 ==> !touches(#[trigger] merged(hs)[i], merged(hs)[i + 1]),
    decreases hs.len(),
{
    if hs.len() >= 2 {
        if touches(hs[0], hs[1]) {
            law_merged_hunks_do_not_meet(seq![joined(hs[0], hs[1])] + hs.skip(2));
            assert(merged(hs) == merged(seq![joined(hs[0], hs[1])] + hs.skip(2)));
        } else {
            let rest = hs.skip(1);
            law_merged_hunks_do_not_meet(rest);
            lemma_merged_front(rest);
            let m = merged(hs);
            assert(m == seq![hs[0]] + merged(rest));
            assert forall|i: int| 0 <= i < m.len() - 1 implies !touches(#[trigger] m[i], m[i + 1]) by {
                if i == 0 {
                    assert(m[1] == merged(rest)[0]);
                    assert(rest[0] == hs[1]);
                } else {
                    assert(m[i] == merged(rest)[i - 1]);
                    assert(m[i + 1] == merged(rest)[i]);
                }
            }
        }
    }
}

proof fn lemma_room_skip(hs: Seq<HunkView>, k: int)
    requires
        room(hs, 0),
        0 <= k <= hs.len(),
    ensures
        room(hs.skip(k), 0),
{
    lemma_totals_add(hs.take(k), hs.skip(k));
    assert(hs.take(k) + hs.skip(k) =~= hs);
    let rest = hs.skip(k);
    assert forall|i: int| 0 <= i < rest.len() implies #[trigger] rest[i].left_start + total_left(
        rest,
    ) + 0 <= u32::MAX && rest[i].right_start + total_right(rest) + 0 <= u32::MAX by {
        assert(rest[i] == hs[i + k]);
    }
}

/// Merging keeps a run of lines that one hunk covered covered by one hunk.
proof fn lemma_merged_keeps_cover(hs: Seq<HunkView>, x: u32, n: nat)
    requires
        room(hs, 0),
        is_covered(hs, x, n),
    ensures
        is_covered(merged(hs), x, n),
    decreases hs.len(),
{
    let i = choose|i: int|
        0 <= i < hs.len() && x >= hs[i].left_start && x + n <= hs[i].left_start
            + hs[i].left_len;
    if hs.len() >= 2 {
        if touches(hs[0], hs[1]) {
            lemma_join_step(hs, 0);
            let j = joined(hs[0], hs[1]);
            let next = seq![j] + hs.skip(2);
            assert(hs.take(0) + seq![j] + hs.skip(2) =~= next);
            if i <= 1 {
                assert(next[0] == j);
            } else {
                assert(next[i - 1] == hs[i]);
            }
            lemma_merged_keeps_cover(next, x, n);
        } else {
            let rest = hs.skip(1);
            assert(merged(hs) == seq![hs[0]] + merged(rest));
            if i == 0 {
                assert(merged(hs)[0] == hs[0]);
            } else {
                lemma_room_skip(hs, 1);
                assert(rest[i - 1] == hs[i]);
                lemma_merged_keeps_cover(rest, x, n);
                let k = choose|k: int|
                    0 <= k < merged(rest).len() && x >= merged(rest)[k].left_start && x + n
                        <= merged(rest)[k].left_start + merged(rest)[k].left_len;
                assert(merged(hs)[k + 1] == merged(rest)[k]);
            }
        }
    }
}

/// The totals merging keeps.
proof fn lemma_merged_totals(hs: Seq<HunkView>)
    requires
        room(hs, 0),
    ensures
        total_left(merged(hs)) == total_left(hs),
        total_right(merged(hs)) == total_right(hs),
    decreases hs.len(),
{
    if hs.len() >= 2 {
        if touches(hs[0], hs[1]) {
            lemma_join_step(hs, 0);
            let next = seq![joined(hs[0], hs[1])] + hs.skip(2);
            assert(hs.take(0) + seq![joined(hs[0], hs[1])] + hs.skip(2) =~= next);
            lemma_merged_totals(next);
        } else {
            let rest = hs.skip(1);
            lemma_room_skip(hs, 1);
            lemma_merged_totals(rest);
            assert(hs =~= seq![hs[0]] + rest);
            lemma_totals_add(seq![hs[0]], rest);
            lemma_totals_add(seq![hs[0]], merged(rest));
        }
    }
}

/// Merging starts no hunk anywhere a hunk did not already start below.
proof fn lemma_merged_starts(hs: Seq<HunkView>, lb: int, rb: int)
    requires
        starts_within(hs, lb, rb),
    ensures
        starts_within(merged(hs), lb, rb),
    decreases hs.len(),
{
    if hs.len() >= 2 {
        if touches(hs[0], hs[1]) {
            let next = seq![joined(hs[0], hs[1])] + hs.skip(2);
            assert forall|i: int| 0 <= i < next.len() implies #[trigger] next[i].left_start <= lb
                && next[i].right_start <= rb by {
                if i > 0 {
                    assert(next[i] == hs[i + 1]);
                }
            }
            lemma_merged_starts(next, lb, rb);
        } else {
            let rest = hs.skip(1);
            assert forall|i: int| 0 <= i < rest.len() implies #[trigger] rest[i].left_start <= lb
                && rest[i].right_start <= rb by {
                assert(rest[i] == hs[i + 1]);
            }
            lemma_merged_starts(rest, lb, rb);
            let m = merged(hs);
            assert(m == seq![hs[0]] + merged(rest));
            assert forall|i: int| 0 <= i < m.len() implies #[trigger] m[i].left_start <= lb
                && m[i].right_start <= rb by {
                if i > 0 {
                    assert(m[i] == merged(rest)[i - 1]);
                }
            }
        }
    }
}

/// A hunk replaced by one that covers the run and holds `n` more lines: the room, totals and
/// starts that leaves.
proof fn lemma_placed_update(
    hs: Seq<HunkView>,
    b: int,
    g: HunkView,
    x: u32,
    n: nat,
    lb: int,
    rb: int,
)
    requires
        0 <= b < hs.len(),
        room(hs, n),
        g.left_len == hs[b].left_len + n,
        g.right_len == hs[b].right_len + n,
        g.left_start + total_left(hs) + n <= u32::MAX,
        g.right_start + total_right(hs) + n <= u32::MAX,
        x >= g.left_start,
        x + n <= g.left_start + g.left_len,
    ensures
        ({
            let q = hs.update(b, g);
            &&& room(q, 0)
            &&& total_left(q) == total_left(hs) + n
            &&& total_right(q) == total_right(hs) + n
            &&& is_covered(q, x, n)
            &&& starts_within(hs, lb, rb) && g.left_start <= lb && g.right_start <= rb
                ==> starts_within(q, lb, rb)
        }),
{
    let q = hs.update(b, g);
    lemma_room_after_update(hs, b, g, n);
    lemma_update_totals(hs, b, g);
    assert(q[b] == g);
    if starts_within(hs, lb, rb) && g.left_start <= lb && g.right_start <= rb {
        assert forall|i: int| 0 <= i < q.len() implies #[trigger] q[i].left_start <= lb
            && q[i].right_start <= rb by {
            if i != b {
                assert(q[i] == hs[i]);
            }
        }
    }
}

/// A new hunk of `n` lines inserted where it covers the run: the room, totals and starts that
/// leaves.
proof fn lemma_placed_insert(
    hs: Seq<HunkView>,
    k: int,
    g: HunkView,
    x: u32,
    n: nat,
    lb: int,
    rb: int,
)
    requires
        0 <= k <= hs.len(),
        room(hs, n),
        g.left_len == n,
        g.right_len == n,
        g.left_start == x,
        g.left_start + total_left(hs) + n <= u32::MAX,
        g.right_start + total_right(hs) + n <= u32::MAX,
    ensures
        ({
            let q = hs.insert(k, g);
            &&& room(q, 0)
            &&& total_left(q) == total_left(hs) + n
            &&& total_right(q) == total_right(hs) + n
            &&& is_covered(q, x, n)
            &&& starts_within(hs, lb, rb) && g.left_start <= lb && g.right_start <= rb
                ==> starts_within(q, lb, rb)
        }),
{
    let q = hs.insert(k, g);
    lemma_room_after_insert(hs, k, g, n);
    lemma_insert_totals(hs, k, g);
    assert(q[k] == g);
    if starts_within(hs, lb, rb) && g.left_start <= lb && g.right_start <= rb {
        assert forall|i: int| 0 <= i < q.len() implies #[trigger] q[i].left_start <= lb
            && q[i].right_start <= rb by {
            if i < k {
                assert(q[i] == hs[i]);
            } else if i > k {
                assert(q[i] == hs[i - 1]);
            }
        }
    }
}

/// Where placing a run puts it: the hunk that takes it, which then covers the run, and the
/// room, totals and starts that placing leaves.
proof fn lemma_placed(hs: Seq<HunkView>, x: u32, y: u32, added: Seq<DiffLine>, lb: int, rb: int)
    requires
        added.len() > 0,
        can_open(hs, x, y, added.len()),
        !is_covered(hs, x, added.len()),
    ensures
        ({
            let q = placed(hs, x, y, added);
            &&& room(q, 0)
            &&& total_left(q) == total_left(hs) + added.len()
            &&& total_right(q) == total_right(hs) + added.len()
            &&& is_covered(q, x, added.len())
            &&& starts_within(hs, lb, rb) && x <= lb && y <= rb ==> starts_within(q, lb, rb)
        }),
{
    let n = added.len();
    lemma_first_where(hs, ends_at(x));
    lemma_first_where(hs, starts_at(x + n));
    lemma_first_where(hs, starts_after(x));
    let before = first_where(hs, ends_at(x));
    let after = first_where(hs, starts_at(x + n));
    let k = first_where(hs, starts_after(x));
    if before < hs.len() {
        let b = before as int;
        lemma_len_within_total(hs, b);
        let g = grown_back(hs[b], added);
        assert(hs[b].left_start + hs[b].left_len == x);
        lemma_placed_update(hs, b, g, x, n, lb, rb);
    } else if after < hs.len() {
        let a = after as int;
        lemma_len_within_total(hs, a);
        let g = grown_front(hs[a], x, y, added);
        assert(hs[a].left_start == x + n);
        lemma_placed_update(hs, a, g, x, n, lb, rb);
    } else {
        let g = context_hunk(x, y, added);
        lemma_placed_insert(hs, k as int, g, x, n, lb, rb);
    }
}

/// Placing a run keeps covered whatever one hunk covered.
proof fn lemma_placed_keeps_cover(
    hs: Seq<HunkView>,
    x: u32,
    y: u32,
    added: Seq<DiffLine>,
    z: u32,
    m: nat,
)
    requires
        added.len() > 0,
        can_open(hs, x, y, added.len()),
        !is_covered(hs, x, added.len()),
        is_covered(hs, z, m),
    ensures
        is_covered(placed(hs, x, y, added), z, m),
{
    let n = added.len();
    let q = placed(hs, x, y, added);
    lemma_first_where(hs, ends_at(x));
    lemma_first_where(hs, starts_at(x + n));
    lemma_first_where(hs, starts_after(x));
    let before = first_where(hs, ends_at(x));
    let after = first_where(hs, starts_at(x + n));
    let k = first_where(hs, starts_after(x));
    let i = choose|i: int|
        0 <= i < hs.len() && z >= hs[i].left_start && z + m <= hs[i].left_start + hs[i].left_len;
    if before < hs.len() {
        lemma_len_within_total(hs, before as int);
        assert(q[i].left_start == hs[i].left_start && q[i].left_len >= hs[i].left_len);
        assert(z >= q[i].left_start && z + m <= q[i].left_start + q[i].left_len);
    } else if after < hs.len() {
        lemma_len_within_total(hs, after as int);
        assert(z >= q[i].left_start && z + m <= q[i].left_start + q[i].left_len);
    } else if i < k {
        assert(q[i] == hs[i]);
        assert(z >= q[i].left_start && z + m <= q[i].left_start + q[i].left_len);
    } else {
        assert(q[i + 1] == hs[i]);
        assert(z >= q[i + 1].left_start && z + m <= q[i + 1].left_start + q[i + 1].left_len);
    }
}

/// One step of opening: what it covers afterwards, what it keeps covered, and the totals and
/// starts it leaves.
proof fn lemma_step(hs: Seq<HunkView>, x: u32, y: u32, added: Seq<DiffLine>, lb: int, rb: int)
    requires
        added.len() > 0,
        can_open(hs, x, y, added.len()),
    ensures
        ({
            let e = expanded(hs, x, y, added);
            &&& is_covered(e, x, added.len())
            &&& total_left(e) <= total_left(hs) + added.len()
            &&& total_right(e) <= total_right(hs) + added.len()
            &&& starts_within(hs, lb, rb) && x <= lb && y <= rb ==> starts_within(e, lb, rb)
        }),
{
    let n = added.len();
    if !is_covered(hs, x, n) {
        let q = placed(hs, x, y, added);
        lemma_placed(hs, x, y, added, lb, rb);
        lemma_merged_keeps_cover(q, x, n);
        lemma_merged_totals(q);
        if starts_within(hs, lb, rb) && x <= lb && y <= rb {
            lemma_merged_starts(q, lb, rb);
        }
    }
}

/// One step of opening keeps covered whatever one hunk covered.
proof fn lemma_step_keeps_cover(
    hs: Seq<HunkView>,
    x: u32,
    y: u32,
    added: Seq<DiffLine>,
    z: u32,
    m: nat,
)
    requires
        added.len() > 0,
        can_open(hs, x, y, added.len()),
        is_covered(hs, z, m),
    ensures
        is_covered(expanded(hs, x, y, added), z, m),
{
    if !is_covered(hs, x, added.len()) {
        let q = placed(hs, x, y, added);
        lemma_placed(hs, x, y, added, 0, 0);
        lemma_placed_keeps_cover(hs, x, y, added, z, m);
        lemma_merged_keeps_cover(q, z, m);
    }
}

/// Opening a gap line by line, `k` lines in from the end: the starts and totals stay within
/// what the room allows, the next line can be opened, and every line taken so far is covered.
proof fn lemma_opened_back(
    hs: Seq<HunkView>,
    left_start: u32,
    right_start: u32,
    added: Seq<DiffLine>,
    k: nat,
)
    requires
        k <= added.len(),
        can_open_each(hs, left_start, right_start, added.len()),
    ensures
        ({
            let p = opened_back(hs, left_start, right_start, added, k);
            let n = added.len();
            &&& starts_within(p, u32::MAX - total_left(hs) - n, u32::MAX - total_right(hs) - n)
            &&& total_left(p) <= total_left(hs) + k
            &&& total_right(p) <= total_right(hs) + k
            &&& k < n ==> can_open(
                p,
                (left_start + (n - k - 1)) as u32,
                (right_start + (n - k - 1)) as u32,
                1,
            )
            &&& forall|j: int|
                n - k <= j < n ==> #[trigger] is_covered(p, (left_start + j) as u32, 1)
        }),
    decreases k,
{
    let n = added.len();
    let lb = u32::MAX - total_left(hs) - n;
    let rb = u32::MAX - total_right(hs) - n;
    let p = opened_back(hs, left_start, right_start, added, k);
    if k == 0 {
        assert(p == hs);
        assert forall|i: int| 0 <= i < p.len() implies #[trigger] p[i].left_start <= lb
            && p[i].right_start <= rb by {
            assert(hs[i].left_start + total_left(hs) + n <= u32::MAX);
        }
    } else {
        lemma_opened_back(hs, left_start, right_start, added, (k - 1) as nat);
        let prev = opened_back(hs, left_start, right_start, added, (k - 1) as nat);
        let j = n - k;
        let x = (left_start + j) as u32;
        let y = (right_start + j) as u32;
        let one = seq![added[j]];
        assert(p == expanded(prev, x, y, one));
        assert(x as int == left_start + j && x <= lb);
        assert(y as int == right_start + j && y <= rb);
        lemma_step(prev, x, y, one, lb, rb);
        assert(starts_within(p, lb, rb));
        assert forall|jj: int| n - k <= jj < n implies #[trigger] is_covered(
            p,
            (left_start + jj) as u32,
            1,
        ) by {
            if jj != j {
                assert(is_covered(prev, (left_start + jj) as u32, 1));
                lemma_step_keeps_cover(prev, x, y, one, (left_start + jj) as u32, 1);
            }
        }
    }
    if k < n {
        assert forall|i: int| 0 <= i < p.len() implies #[trigger] p[i].left_start + total_left(p)
            + 1 <= u32::MAX && p[i].right_start + total_right(p) + 1 <= u32::MAX by {
            assert(p[i].left_start <= lb && p[i].right_start <= rb);
        }
    }
}

/// Opening a run whose every line is covered already changes nothing.
proof fn lemma_opened_back_covered(
    hs: Seq<HunkView>,
    left_start: u32,
    right_start: u32,
    added: Seq<DiffLine>,
    k: nat,
)
    requires
        k <= added.len(),
        forall|j: int|
            0 <= j < added.len() ==> #[trigger] is_covered(hs, (left_start + j) as u32, 1),
    ensures
        opened_back(hs, left_start, right_start, added, k) == hs,
    decreases k,
{
    if k > 0 {
        lemma_opened_back_covered(hs, left_start, right_start, added, (k - 1) as nat);
        let j = added.len() - k;
        assert(is_covered(hs, (left_start + j) as u32, 1));
    }
}

/// A run one hunk covers cannot be clear of the hunks.
proof fn lemma_covered_not_clear(hs: Seq<HunkView>, left_start: u32, count: nat)
    requires
        count > 0,
        is_covered(hs, left_start, 1),
    ensures
        !clear_of(hs, left_start, count),
{
    let i = choose|i: int|
        0 <= i < hs.len() && left_start >= hs[i].left_start && left_start + 1 <= hs[i].left_start
            + hs[i].left_len;
    assert(!(hs[i].left_start + hs[i].left_len <= left_start || left_start + count
        <= hs[i].left_start));
}

/// What opening a gap leaves, whichever way the run went in: every line of the run covered,
/// the totals grown by at most the run, and the hunks starting within any bounds the old
/// starts and the run keep to.
proof fn lemma_opened(
    hs: Seq<HunkView>,
    left_start: u32,
    right_start: u32,
    added: Seq<DiffLine>,
    lb: int,
    rb: int,
)
    requires
        added.len() > 0,
        can_open_each(hs, left_start, right_start, added.len()),
    ensures
        ({
            let o = opened(hs, left_start, right_start, added);
            let n = added.len();
            &&& forall|j: int|
                0 <= j < n ==> #[trigger] is_covered(o, (left_start + j) as u32, 1)
            &&& total_left(o) <= total_left(hs) + n
            &&& total_right(o) <= total_right(hs) + n
            &&& starts_within(hs, lb, rb) && left_start + n <= lb && right_start + n <= rb
                ==> starts_within(o, lb, rb)
        }),
{
    let n = added.len();
    let o = opened(hs, left_start, right_start, added);
    if clear_of(hs, left_start, n) {
        assert forall|i: int| 0 <= i < hs.len() implies #[trigger] hs[i].left_start + total_left(
            hs,
        ) + n <= u32::MAX && hs[i].right_start + total_right(hs) + n <= u32::MAX by {}
        lemma_step(hs, left_start, right_start, added, lb, rb);
        let i = choose|i: int|
            0 <= i < o.len() && left_start >= o[i].left_start && left_start + n <= o[i].left_start
                + o[i].left_len;
        assert forall|j: int| 0 <= j < n implies #[trigger] is_covered(
            o,
            (left_start + j) as u32,
            1,
        ) by {
            assert((left_start + j) as u32 >= o[i].left_start);
        }
    } else {
        lemma_opened_back(hs, left_start, right_start, added, n);
        if starts_within(hs, lb, rb) && left_start + n <= lb && right_start + n <= rb {
            lemma_opened_back_starts(hs, left_start, right_start, added, n, lb, rb);
        }
    }
}

/// Asking for lines already delivered changes nothing: opening a gap a second time with the
/// same lines leaves the hunks as the first opening left them.
pub proof fn law_opening_twice_is_opening_once(
    hs: Seq<HunkView>,
    left_start: u32,
    right_start: u32,
    added: Seq<DiffLine>,
)
    requires
        can_open_each(hs, left_start, right_start, added.len()),
    ensures
        opened(opened(hs, left_start, right_start, added), left_start, right_start, added)
            == opened(hs, left_start, right_start, added),
{
    let n = added.len();
    if n > 0 {
        lemma_opened(hs, left_start, right_start, added, 0, 0);
        let once = opened(hs, left_start, right_start, added);
        assert(is_covered(once, (left_start + 0) as u32, 1));
        lemma_covered_not_clear(once, left_start, n);
        lemma_opened_back_covered(once, left_start, right_start, added, n);
    }
}

/// With room for twice the run, a gap can be opened a second time with the same lines, and
/// that second opening changes nothing.
pub proof fn law_a_second_opening_is_allowed_and_changes_nothing(
    hs: Seq<HunkView>,
    left_start: u32,
    right_start: u32,
    added: Seq<DiffLine>,
)
    requires
        can_open_each(hs, left_start, right_start, 2 * added.len()),
    ensures
        can_open_each(opened(hs, left_start, right_start, added), left_start, right_start, added.len()),
        opened(opened(hs, left_start, right_start, added), left_start, right_start, added)
            == opened(hs, left_start, right_start, added),
{
    let n = added.len();
    let t = total_left(hs);
    let tr = total_right(hs);
    assert forall|i: int| 0 <= i < hs.len() implies #[trigger] hs[i].left_start + total_left(hs)
        + n <= u32::MAX && hs[i].right_start + total_right(hs) + n <= u32::MAX by {
        assert(hs[i].left_start + total_left(hs) + 2 * n <= u32::MAX);
    }
    assert(can_open_each(hs, left_start, right_start, n));
    if n > 0 {
        let lb = u32::MAX - t - 2 * n;
        let rb = u32::MAX - tr - 2 * n;
        assert forall|i: int| 0 <= i < hs.len() implies #[trigger] hs[i].left_start <= lb
            && hs[i].right_start <= rb by {
            assert(hs[i].left_start + total_left(hs) + 2 * n <= u32::MAX);
        }
        lemma_opened(hs, left_start, right_start, added, lb, rb);
        let once = opened(hs, left_start, right_start, added);
        assert forall|i: int| 0 <= i < once.len() implies #[trigger] once[i].left_start
            + total_left(once) + n <= u32::MAX && once[i].right_start + total_right(once) + n
            <= u32::MAX by {
            assert(once[i].left_start <= lb && once[i].right_start <= rb);
        }
    }
    law_opening_twice_is_opening_once(hs, left_start, right_start, added);
}

/// After a gap is opened, every line of the run is covered by a hunk: it was either covered
/// already or has been placed.
pub proof fn law_opening_a_gap_covers_the_run(
    hs: Seq<HunkView>,
    left_start: u32,
    right_start: u32,
    added: Seq<DiffLine>,
    j: int,
)
    requires
        can_open_each(hs, left_start, right_start, added.len()),
        0 <= j < added.len(),
    ensures
        is_covered(opened(hs, left_start, right_start, added), (left_start + j) as u32, 1),
{
    lemma_opened(hs, left_start, right_start, added, 0, 0);
}

/// Opening line by line starts no hunk beyond bounds that the old starts and the run keep to.
proof fn lemma_opened_back_starts(
    hs: Seq<HunkView>,
    left_start: u32,
    right_start: u32,
    added: Seq<DiffLine>,
    k: nat,
    lb: int,
    rb: int,
)
    requires
        k <= added.len(),
        can_open_each(hs, left_start, right_start, added.len()),
        starts_within(hs, lb, rb),
        left_start + added.len() <= lb,
        right_start + added.len() <= rb,
    ensures
        starts_within(opened_back(hs, left_start, right_start, added, k), lb, rb),
    decreases k,
{
    if k > 0 {
        let n = added.len();
        lemma_opened_back_starts(hs, left_start, right_start, added, (k - 1) as nat, lb, rb);
        lemma_opened_back(hs, left_start, right_start, added, (k - 1) as nat);
        let prev = opened_back(hs, left_start, right_start, added, (k - 1) as nat);
        let j = n - k;
        let x = (left_start + j) as u32;
        let y = (right_start + j) as u32;
        lemma_step(prev, x, y, seq![added[j]], lb, rb);
    }
}

/// Whether some hunk holds `line`.
pub open spec fn holds(hs: Seq<HunkView>, line: DiffLine) -> bool {
    exists|i: int, k: int|
        0 <= i < hs.len() && 0 <= k < hs[i].lines.len() && #[trigger] hs[i].lines[k] == line
}

proof fn lemma_holds_at(hs: Seq<HunkView>, i: int, k: int)
    requires
        0 <= i < hs.len(),
        0 <= k < hs[i].lines.len(),
    ensures
        holds(hs, hs[i].lines[k]),
{
}

proof fn lemma_merged_holds(hs: Seq<HunkView>, line: DiffLine)
    requires
        holds(hs, line),
    ensures
        holds(merged(hs), line),
    decreases hs.len(),
{
    let (i, k) = choose|i: int, k: int|
        0 <= i < hs.len() && 0 <= k < hs[i].lines.len() && #[trigger] hs[i].lines[k] == line;
    if hs.len() >= 2 {
        if touches(hs[0], hs[1]) {
            let next = seq![joined(hs[0], hs[1])] + hs.skip(2);
            if i == 0 {
                assert(next[0].lines[k] == line);
                lemma_holds_at(next, 0, k);
            } else if i == 1 {
                assert(next[0].lines[hs[0].lines.len() + k] == line);
                lemma_holds_at(next, 0, hs[0].lines.len() + k);
            } else {
                assert(next[i - 1] == hs[i]);
                lemma_holds_at(next, i - 1, k);
            }
            lemma_merged_holds(next, line);
        } else {
            let rest = hs.skip(1);
            if i == 0 {
                let m = seq![hs[0]] + merged(rest);
                assert(m[0] == hs[0]);
                lemma_holds_at(m, 0, k);
            } else {
                assert(rest[i - 1] == hs[i]);
                lemma_holds_at(rest, i - 1, k);
                lemma_merged_holds(rest, line);
                let m = merged(rest);
                let (j, q) = choose|j: int, q: int|
                    0 <= j < m.len() && 0 <= q < m[j].lines.len() && #[trigger] m[j].lines[q] == line;
                let whole = seq![hs[0]] + m;
                assert(whole[j + 1] == m[j]);
                lemma_holds_at(whole, j + 1, q);
            }
        }
    }
}

proof fn lemma_placed_holds(
    hs: Seq<HunkView>,
    left_start: u32,
    right_start: u32,
    added: Seq<DiffLine>,
    line: DiffLine,
)
    requires
        holds(hs, line) || added.contains(line),
    ensures
        holds(placed(hs, left_start, right_start, added), line),
{
    let p = placed(hs, left_start, right_start, added);
    let before = first_where(hs, ends_at(left_start));
    let after = first_where(hs, starts_at(left_start + added.len()));
    let slot = first_where(hs, starts_after(left_start));
    lemma_first_where(hs, ends_at(left_start));
    lemma_first_where(hs, starts_at(left_start + added.len()));
    lemma_first_where(hs, starts_after(left_start));
    if holds(hs, line) {
        let (i, k) = choose|i: int, k: int|
            0 <= i < hs.len() && 0 <= k < hs[i].lines.len() && #[trigger] hs[i].lines[k] == line;
        if before < hs.len() {
            if i == before {
                assert(p[i].lines[k] == line);
            } else {
                assert(p[i] == hs[i]);
            }
            lemma_holds_at(p, i, k);
        } else if after < hs.len() {
            if i == after {
                assert(p[i].lines[added.len() + k] == line);
                lemma_holds_at(p, i, added.len() + k);
            } else {
                assert(p[i] == hs[i]);
                lemma_holds_at(p, i, k);
            }
        } else {
            if i < slot {
                assert(p[i] == hs[i]);
                lemma_holds_at(p, i, k);
            } else {
                assert(p[i + 1] == hs[i]);
                lemma_holds_at(p, i + 1, k);
            }
        }
    } else {
        let k = choose|k: int| 0 <= k < added.len() && added[k] == line;
        if before < hs.len() {
            let b = before as int;
            assert(p[b].lines[hs[b].lines.len() + k] == line);
            lemma_holds_at(p, b, hs[b].lines.len() + k);
        } else if after < hs.len() {
            let a = after as int;
            assert(p[a].lines[k] == line);
            lemma_holds_at(p, a, k);
        } else {
            assert(p[slot as int].lines[k] == line);
            lemma_holds_at(p, slot as int, k);
        }
    }
}

/// One step of opening keeps every line the hunks held, and holds the lines it placed.
proof fn lemma_expanded_holds(
    hs: Seq<HunkView>,
    left_start: u32,
    right_start: u32,
    added: Seq<DiffLine>,
    line: DiffLine,
)
    ensures
        holds(hs, line) ==> holds(expanded(hs, left_start, right_start, added), line),
        added.contains(line) && !is_covered(hs, left_start, added.len()) ==> holds(
            expanded(hs, left_start, right_start, added),
            line,
        ),
{
    if !is_covered(hs, left_start, added.len()) && (holds(hs, line) || added.contains(line)) {
        lemma_placed_holds(hs, left_start, right_start, added, line);
        lemma_merged_holds(placed(hs, left_start, right_start, added), line);
    }
}

proof fn lemma_opened_back_holds(
    hs: Seq<HunkView>,
    left_start: u32,
    right_start: u32,
    added: Seq<DiffLine>,
    k: nat,
    line: DiffLine,
)
    requires
        holds(hs, line),
    ensures
        holds(opened_back(hs, left_start, right_start, added, k), line),
    decreases k,
{
    if k > 0 {
        lemma_opened_back_holds(hs, left_start, right_start, added, (k - 1) as nat, line);
        let j = added.len() - k;
        lemma_expanded_holds(
            opened_back(hs, left_start, right_start, added, (k - 1) as nat),
            (left_start + j) as u32,
            (right_start + j) as u32,
            seq![added[j]],
            line,
        );
    }
}

/// Opening a gap loses nothing: every line the hunks held before, numbers and text alike, is
/// still held afterwards. A span naming a line by its number therefore still names it.
pub proof fn law_opening_a_gap_keeps_every_line(
    hs: Seq<HunkView>,
    left_start: u32,
    right_start: u32,
    added: Seq<DiffLine>,
    line: DiffLine,
)
    requires
        holds(hs, line),
    ensures
        holds(opened(hs, left_start, right_start, added), line),
{
    if added.len() > 0 {
        if clear_of(hs, left_start, added.len()) {
            lemma_expanded_holds(hs, left_start, right_start, added, line);
        } else {
            lemma_opened_back_holds(hs, left_start, right_start, added, added.len(), line);
        }
    }
}

/// Hunk `i` ends before hunk `i + 1` starts, with at least one hidden line between them.
pub open spec fn apart_at(hs: Seq<HunkView>, i: int) -> bool {
    hs[i].left_start + hs[i].left_len < hs[i + 1].left_start
}

/// The hunks are in order, none overlapping or meeting the next: the shape a parsed diff has,
/// with a gap between every two hunks.
pub open spec fn apart(hs: Seq<HunkView>) -> bool {
    forall|i: int| 0 <= i < hs.len() - 1 ==> #[trigger] apart_at(hs, i)
}

pub open spec fn in_order_at(hs: Seq<HunkView>, i: int) -> bool {
    hs[i].left_start + hs[i].left_len <= hs[i + 1].left_start
}

/// The hunks are in order and none overlaps the next, though neighbours may meet.
pub open spec fn in_order(hs: Seq<HunkView>) -> bool {
    forall|i: int| 0 <= i < hs.len() - 1 ==> #[trigger] in_order_at(hs, i)
}

/// No hunk covers any of the `count` lines from `left_start`.
pub open spec fn clear_of(hs: Seq<HunkView>, left_start: u32, count: nat) -> bool {
    count == 0 || forall|i: int|
        0 <= i < hs.len() ==> #[trigger] hs[i].left_start + hs[i].left_len <= left_start
            || left_start + count <= hs[i].left_start
}

/// Merging hunks that are in order leaves them apart.
proof fn lemma_merged_apart(hs: Seq<HunkView>)
    requires
        in_order(hs),
    ensures
        apart(merged(hs)),
    decreases hs.len(),
{
    if hs.len() >= 2 {
        assert(in_order_at(hs, 0));
        if touches(hs[0], hs[1]) {
            let next = seq![joined(hs[0], hs[1])] + hs.skip(2);
            assert forall|i: int| 0 <= i < next.len() - 1 implies #[trigger] in_order_at(next, i) by {
                assert(in_order_at(hs, i + 1));
                if i > 0 {
                    assert(next[i] == hs[i + 1]);
                }
                assert(next[i + 1] == hs[i + 2]);
            }
            lemma_merged_apart(next);
        } else {
            let rest = hs.skip(1);
            assert forall|i: int| 0 <= i < rest.len() - 1 implies #[trigger] in_order_at(rest, i) by {
                assert(in_order_at(hs, i + 1));
                assert(rest[i] == hs[i + 1] && rest[i + 1] == hs[i + 2]);
            }
            lemma_merged_apart(rest);
            lemma_merged_front(rest);
            let m = merged(hs);
            assert(m == seq![hs[0]] + merged(rest));
            assert forall|i: int| 0 <= i < m.len() - 1 implies #[trigger] apart_at(m, i) by {
                if i == 0 {
                    assert(m[1] == merged(rest)[0]);
                } else {
                    assert(apart_at(merged(rest), i - 1));
                    assert(m[i] == merged(rest)[i - 1] && m[i + 1] == merged(rest)[i]);
                }
            }
        }
    }
}

/// Merging keeps a run clear of the hunks it was clear of.
proof fn lemma_merged_clear(hs: Seq<HunkView>, left_start: u32, count: nat)
    requires
        clear_of(hs, left_start, count),
    ensures
        clear_of(merged(hs), left_start, count),
    decreases hs.len(),
{
    if count > 0 && hs.len() >= 2 {
        if touches(hs[0], hs[1]) {
            let next = seq![joined(hs[0], hs[1])] + hs.skip(2);
            assert forall|i: int| 0 <= i < next.len() implies #[trigger] next[i].left_start
                + next[i].left_len <= left_start || left_start + count <= next[i].left_start by {
                if i == 0 {
                    assert(hs[0].left_start + hs[0].left_len <= left_start || left_start + count
                        <= hs[0].left_start);
                    assert(hs[1].left_start + hs[1].left_len <= left_start || left_start + count
                        <= hs[1].left_start);
                } else {
                    assert(next[i] == hs[i + 1]);
                }
            }
            lemma_merged_clear(next, left_start, count);
        } else {
            let rest = hs.skip(1);
            assert forall|i: int| 0 <= i < rest.len() implies #[trigger] rest[i].left_start
                + rest[i].left_len <= left_start || left_start + count <= rest[i].left_start by {
                assert(rest[i] == hs[i + 1]);
            }
            lemma_merged_clear(rest, left_start, count);
            let m = merged(hs);
            assert(m == seq![hs[0]] + merged(rest));
            assert forall|i: int| 0 <= i < m.len() implies #[trigger] m[i].left_start
                + m[i].left_len <= left_start || left_start + count <= m[i].left_start by {
                if i > 0 {
                    assert(m[i] == merged(rest)[i - 1]);
                } else {
                    assert(m[0] == hs[0]);
                }
            }
        }
    }
}

/// Placing a run no hunk overlaps keeps the hunks apart, and grows each side by exactly the
/// run.
#[verifier::rlimit(40)]
proof fn lemma_clear_run(p: Seq<HunkView>, x: u32, y: u32, added: Seq<DiffLine>)
    requires
        added.len() > 0,
        apart(p),
        clear_of(p, x, added.len()),
        can_open(p, x, y, added.len()),
    ensures
        ({
            let e = expanded(p, x, y, added);
            &&& apart(e)
            &&& total_left(e) == total_left(p) + added.len()
            &&& total_right(e) == total_right(p) + added.len()
        }),
{
    let n = added.len();
    assert(!is_covered(p, x, n)) by {
        if is_covered(p, x, n) {
            let i = choose|i: int|
                0 <= i < p.len() && x >= p[i].left_start && x + n <= p[i].left_start
                    + p[i].left_len;
            assert(p[i].left_start + p[i].left_len <= x || x + n <= p[i].left_start);
        }
    }
    let q = placed(p, x, y, added);
    lemma_placed(p, x, y, added, 0, 0);
    lemma_merged_totals(q);
    lemma_first_where(p, ends_at(x));
    lemma_first_where(p, starts_at(x + n));
    lemma_first_where(p, starts_after(x));
    let before = first_where(p, ends_at(x));
    let after = first_where(p, starts_at(x + n));
    let k = first_where(p, starts_after(x));
    if before < p.len() {
        let b = before as int;
        assert forall|i: int| 0 <= i < q.len() - 1 implies #[trigger] in_order_at(q, i) by {
            assert(apart_at(p, i));
            if i != b && i + 1 != b {
                assert(q[i] == p[i] && q[i + 1] == p[i + 1]);
            } else if i == b {
                assert(q[i + 1] == p[i + 1]);
                assert(p[i + 1].left_start + p[i + 1].left_len <= x || x + n
                    <= p[i + 1].left_start);
            } else {
                assert(q[i] == p[i]);
            }
        }
    } else if after < p.len() {
        let a = after as int;
        assert forall|i: int| 0 <= i < q.len() - 1 implies #[trigger] in_order_at(q, i) by {
            assert(apart_at(p, i));
            if i != a && i + 1 != a {
                assert(q[i] == p[i] && q[i + 1] == p[i + 1]);
            } else if i == a {
                assert(q[i + 1] == p[i + 1]);
            } else {
                assert(q[i] == p[i]);
                assert(p[i].left_start + p[i].left_len <= x || x + n <= p[i].left_start);
            }
        }
    } else {
        assert forall|i: int| 0 <= i < q.len() - 1 implies #[trigger] in_order_at(q, i) by {
            if i < k - 1 {
                assert(apart_at(p, i));
                assert(q[i] == p[i] && q[i + 1] == p[i + 1]);
            } else if i == k - 1 {
                assert(q[i] == p[i]);
                assert(p[i].left_start <= x);
                assert(p[i].left_start + p[i].left_len <= x || x + n <= p[i].left_start);
            } else if i == k {
                assert(q[i + 1] == p[i]);
                assert(p[i].left_start > x);
                assert(p[i].left_start + p[i].left_len <= x || x + n <= p[i].left_start);
            } else {
                assert(apart_at(p, i - 1));
                assert(q[i] == p[i - 1] && q[i + 1] == p[i]);
            }
        }
    }
    lemma_merged_apart(q);
}

/// Opening a run no hunk overlaps keeps the hunks in order with a gap between every two, and
/// grows each side by exactly the lines opened.
pub proof fn law_opening_a_clear_run_keeps_the_hunks_apart(
    hs: Seq<HunkView>,
    left_start: u32,
    right_start: u32,
    added: Seq<DiffLine>,
)
    requires
        added.len() > 0,
        apart(hs),
        clear_of(hs, left_start, added.len()),
        can_open(hs, left_start, right_start, added.len()),
    ensures
        apart(opened(hs, left_start, right_start, added)),
        total_left(opened(hs, left_start, right_start, added)) == total_left(hs) + added.len(),
        total_right(opened(hs, left_start, right_start, added)) == total_right(hs) + added.len(),
{
    lemma_clear_run(hs, left_start, right_start, added);
}

/// Delivered lines are numbered from where the run starts on each side: the `k`-th line
/// supplied, opened into a gap no hunk covers any of, is held afterwards as unchanged context
/// numbered `left_start + k` on the left and `right_start + k` on the right.
pub proof fn law_opened_lines_are_numbered_from_each_side_s_start(
    hs: Seq<HunkView>,
    left_start: u32,
    right_start: u32,
    texts: Seq<String>,
    k: int,
)
    requires
        0 <= k < texts.len(),
        left_start + texts.len() <= u32::MAX,
        right_start + texts.len() <= u32::MAX,
        clear_of(hs, left_start, texts.len()),
    ensures
        holds(
            opened(hs, left_start, right_start, opened_lines(left_start, right_start, texts)),
            DiffLine {
                kind: LineKind::Context,
                text: texts[k],
                left_line: Some((left_start + k) as u32),
                right_line: Some((right_start + k) as u32),
                line_ending: LineEnding::Lf,
                origin: LineOrigin::Expanded,
            },
        ),
{
    let added = opened_lines(left_start, right_start, texts);
    let n = texts.len();
    let line = DiffLine {
        kind: LineKind::Context,
        text: texts[k],
        left_line: Some((left_start + k) as u32),
        right_line: Some((right_start + k) as u32),
        line_ending: LineEnding::Lf,
        origin: LineOrigin::Expanded,
    };
    assert(added[k] == line);
    assert(added.contains(line));
    assert(!is_covered(hs, left_start, n)) by {
        if is_covered(hs, left_start, n) {
            let i = choose|i: int|
                0 <= i < hs.len() && left_start >= hs[i].left_start && left_start + n
                    <= hs[i].left_start + hs[i].left_len;
            assert(hs[i].left_start + hs[i].left_len <= left_start || left_start + n
                <= hs[i].left_start);
        }
    }
    lemma_expanded_holds(hs, left_start, right_start, added, line);
}

} // verus!
