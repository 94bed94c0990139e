//! Parsing unified diff text into a [`DiffSet`].
//!
//! The lexing is `diffy`'s, which handles the format's awkward corners: git extended headers,
//! binary markers, and the `\ No newline at end of file` convention. What is added here is an
//! owned model with per-line numbers resolved, which a viewer needs and a patch applier does
//! not.

use diffy::patch_set::FileMode as ModeBits;
use diffy::patch_set::{FileOperation, FilePatch, ParseOptions, PatchKind, PatchSet, PatchSetParseError};
use diffy::Hunk as PatchHunk;
use diffy::Line as PatchLine;
use vstd::prelude::*;

use crate::diff::model::{
    DiffLine, DiffSet, FileChange, FileContent, FileDiff, FileMode, Hunk, LineKind, LineOrigin,
    hunks_of,
};
use crate::text::{strip_terminator, stripped};

verus! {

#[verifier::external_type_specification]
#[verifier::external_body]
#[verifier::reject_recursive_types(T)]
pub struct ExFilePatch<'a, T: ToOwned + ?Sized>(FilePatch<'a, T>);

#[verifier::external_type_specification]
#[verifier::external_body]
pub struct ExPatchSetParseError(PatchSetParseError);

#[verifier::external_type_specification]
#[verifier::external_body]
#[verifier::reject_recursive_types(T)]
pub struct ExDiffyHunk<'a, T: ?Sized>(PatchHunk<'a, T>);

#[verifier::external_type_specification]
#[verifier::external_body]
#[verifier::reject_recursive_types(T)]
pub struct ExDiffyLine<'a, T: ?Sized>(PatchLine<'a, T>);

#[verifier::external_type_specification]
#[verifier::external_body]
pub struct ExDiffyFileMode(ModeBits);

/// Everything that can go wrong reading a diff.
#[derive(Debug)]
pub enum ParseError {
    /// The text is not a unified diff, or is one the parser cannot make sense of. The
    /// parser's own error is kept, so that what it found stays reachable.
    Malformed { source: PatchSetParseError },
}

/// What the message of a parse failure starts with.
pub open spec fn malformed_prefix() -> Seq<char> {
    "malformed unified diff: "@
}

impl ParseError {
    /// The failure, explained: what kind it is, then the parser's account of it.
    pub fn message(&self) -> (text: String)
        ensures
            match self {
                ParseError::Malformed { source } => text@ == malformed_prefix() + error_display(
                    *source,
                ),
            },
    {
        match self {
            ParseError::Malformed { source } => {
                let detail = error_text(source);
                let text = String::from_str("malformed unified diff: ");
                proof {
                    reveal_strlit("malformed unified diff: ");
                }
                text.concat(detail.as_str())
            },
        }
    }
}

/// What a file patch does to its file, with the paths it names.
pub enum Operation {
    Create(String),
    Delete(String),
    Modify { original: String, modified: String },
    Rename { from: String, to: String },
    Copy { from: String, to: String },
}

/// Whether a character has the Unicode `White_Space` property, which is what
/// `char::is_whitespace` tests: the controls U+0009 to U+000D, the space, U+0085, the
/// no-break space U+00A0, the Ogham space mark U+1680, the spaces U+2000 to U+200A, the line
/// and paragraph separators U+2028 and U+2029, and U+202F, U+205F and U+3000.
pub open spec fn white_space(c: char) -> bool {
    let u = c as u32;
    ||| 0x9 <= u <= 0xd
    ||| u == 0x20
    ||| u == 0x85
    ||| u == 0xa0
    ||| u == 0x1680
    ||| 0x2000 <= u <= 0x200a
    ||| u == 0x2028
    ||| u == 0x2029
    ||| u == 0x202f
    ||| u == 0x205f
    ||| u == 0x3000
}

fn is_white_space(c: char) -> (r: bool)
    ensures
        r == white_space(c),
{
    let u = c as u32;
    (0x9 <= u && u <= 0xd) || u == 0x20 || u == 0x85 || u == 0xa0 || u == 0x1680 || (0x2000 <= u
        && u <= 0x200a) || u == 0x2028 || u == 0x2029 || u == 0x202f || u == 0x205f || u == 0x3000
}

/// How many file patches `PatchSet::parse` finds in a text, in the git dialect or the plain
/// one, collecting until the first error; nothing when it stops on one.
pub uninterp spec fn patches_found(text: Seq<char>, git: bool) -> Option<nat>;

/// The `k`-th file patch `PatchSet::parse` yields for a text, in the git dialect or the plain
/// one.
pub uninterp spec fn text_patch(text: Seq<char>, git: bool, k: nat) -> FilePatch<'static, str>;

/// The error `PatchSet::parse` stops on for a text, in the git dialect or the plain one, when
/// it stops on one.
pub uninterp spec fn text_parse_error(text: Seq<char>, git: bool) -> PatchSetParseError;

/// Calls `PatchSet::parse` with `ParseOptions::gitdiff` and collects what it yields: every
/// file patch in the order the parser yields them, or the first error. What each patch says
/// is left to the names its accessors give it.
#[verifier::external_body]
fn parse_git(text: &str) -> (patches: Result<Vec<FilePatch<'_, str>>, PatchSetParseError>)
    ensures
        patches.is_ok() == patches_found(text@, true).is_some(),
        patches.is_ok() ==> patches.unwrap()@.len() == patches_found(text@, true).unwrap(),
        patches.is_ok() ==> forall|k: int|
            0 <= k < patches.unwrap()@.len() ==> #[trigger] patches.unwrap()@[k] == text_patch(
                text@,
                true,
                k as nat,
            ),
        patches matches Err(e) ==> e == text_parse_error(text@, true),
{
    PatchSet::parse(text, ParseOptions::gitdiff()).collect()
}

/// Calls `PatchSet::parse` with `ParseOptions::unidiff` and collects what it yields, as
/// `parse_git` does.
#[verifier::external_body]
fn parse_plain(text: &str) -> (patches: Result<Vec<FilePatch<'_, str>>, PatchSetParseError>)
    ensures
        patches.is_ok() == patches_found(text@, false).is_some(),
        patches.is_ok() ==> patches.unwrap()@.len() == patches_found(text@, false).unwrap(),
        patches.is_ok() ==> forall|k: int|
            0 <= k < patches.unwrap()@.len() ==> #[trigger] patches.unwrap()@[k] == text_patch(
                text@,
                false,
                k as nat,
            ),
        patches matches Err(e) ==> e == text_parse_error(text@, false),
{
    PatchSet::parse(text, ParseOptions::unidiff()).collect()
}

/// What a file patch does to its file, with the paths it names, as the contracts see it.
pub enum OperationView {
    Create(Seq<char>),
    Delete(Seq<char>),
    Modify { original: Seq<char>, modified: Seq<char> },
    Rename { from: Seq<char>, to: Seq<char> },
    Copy { from: Seq<char>, to: Seq<char> },
}

impl View for Operation {
    type V = OperationView;

    open spec fn view(&self) -> OperationView {
        match self {
            Operation::Create(p) => OperationView::Create(p@),
            Operation::Delete(p) => OperationView::Delete(p@),
            Operation::Modify { original, modified } => OperationView::Modify {
                original: original@,
                modified: modified@,
            },
            Operation::Rename { from, to } => OperationView::Rename { from: from@, to: to@ },
            Operation::Copy { from, to } => OperationView::Copy { from: from@, to: to@ },
        }
    }
}

/// What `FilePatch::operation` says a patch does.
pub uninterp spec fn patch_operation(patch: FilePatch<'_, str>) -> OperationView;

/// Calls `FilePatch::operation`, copying the paths it names: the result is the operation
/// diffy reports, variant for variant, path for path.
#[verifier::external_body]
fn operation_of(patch: &FilePatch<'_, str>) -> (op: Operation)
    ensures
        op@ == patch_operation(*patch),
{
    match patch.operation() {
        FileOperation::Create(p) => Operation::Create(p.to_string()),
        FileOperation::Delete(p) => Operation::Delete(p.to_string()),
        FileOperation::Modify { original, modified } => Operation::Modify {
            original: original.to_string(),
            modified: modified.to_string(),
        },
        FileOperation::Rename { from, to } => Operation::Rename { from: from.to_string(), to: to.to_string() },
        FileOperation::Copy { from, to } => Operation::Copy { from: from.to_string(), to: to.to_string() },
    }
}

/// The mode `FilePatch::old_mode` reports, variant for variant.
pub uninterp spec fn patch_old_mode(patch: FilePatch<'_, str>) -> Option<FileMode>;

/// The mode `FilePatch::new_mode` reports, variant for variant.
pub uninterp spec fn patch_new_mode(patch: FilePatch<'_, str>) -> Option<FileMode>;

/// Calls `FilePatch::old_mode` and names its mode in the model's terms, one variant for each.
#[verifier::external_body]
fn old_mode_of(patch: &FilePatch<'_, str>) -> (mode: Option<FileMode>)
    ensures
        mode == patch_old_mode(*patch),
{
    match patch.old_mode().copied() {
        Some(ModeBits::Regular) => Some(FileMode::Regular),
        Some(ModeBits::Executable) => Some(FileMode::Executable),
        Some(ModeBits::Symlink) => Some(FileMode::Symlink),
        Some(ModeBits::Gitlink) => Some(FileMode::Gitlink),
        None => None,
    }
}

/// Calls `FilePatch::new_mode` and names its mode in the model's terms, one variant for each.
#[verifier::external_body]
fn new_mode_of(patch: &FilePatch<'_, str>) -> (mode: Option<FileMode>)
    ensures
        mode == patch_new_mode(*patch),
{
    match patch.new_mode().copied() {
        Some(ModeBits::Regular) => Some(FileMode::Regular),
        Some(ModeBits::Executable) => Some(FileMode::Executable),
        Some(ModeBits::Symlink) => Some(FileMode::Symlink),
        Some(ModeBits::Gitlink) => Some(FileMode::Gitlink),
        None => None,
    }
}

/// How many hunks a text patch holds, by `FilePatch::patch`; none for a binary patch.
pub uninterp spec fn patch_hunk_count(patch: FilePatch<'_, str>) -> Option<nat>;

/// The `k`-th hunk of a text patch, by `FilePatch::patch`.
pub uninterp spec fn patch_hunk(patch: FilePatch<'_, str>, k: nat) -> PatchHunk<'_, str>;

/// Calls `FilePatch::patch`: the hunks of a text patch, in order, or nothing for a binary one.
#[verifier::external_body]
fn text_hunks<'p>(patch: &'p FilePatch<'_, str>) -> (hunks: Option<&'p [PatchHunk<'p, str>]>)
    ensures
        hunks.is_some() == patch_hunk_count(*patch).is_some(),
        hunks.is_some() ==> hunks.unwrap()@.len() == patch_hunk_count(*patch).unwrap(),
        hunks.is_some() ==> forall|k: int|
            0 <= k < hunks.unwrap()@.len() ==> #[trigger] hunks.unwrap()@[k] == patch_hunk(
                *patch,
                k as nat,
            ),
{
    match patch.patch() {
        PatchKind::Text(text) => Some(text.hunks()),
        PatchKind::Binary(_) => None,
    }
}

/// Where the left side of a hunk starts and how many lines it covers, by `Hunk::old_range`.
pub uninterp spec fn hunk_old_range(hunk: PatchHunk<'_, str>) -> (usize, usize);

/// Where the right side of a hunk starts and how many lines it covers, by `Hunk::new_range`.
pub uninterp spec fn hunk_new_range(hunk: PatchHunk<'_, str>) -> (usize, usize);

/// Calls `Hunk::old_range`, taking the range's start and length.
#[verifier::external_body]
fn old_range_of(hunk: &PatchHunk<'_, str>) -> (range: (usize, usize))
    ensures
        range == hunk_old_range(*hunk),
{
    (hunk.old_range().start(), hunk.old_range().len())
}

/// Calls `Hunk::new_range`, taking the range's start and length.
#[verifier::external_body]
fn new_range_of(hunk: &PatchHunk<'_, str>) -> (range: (usize, usize))
    ensures
        range == hunk_new_range(*hunk),
{
    (hunk.new_range().start(), hunk.new_range().len())
}

/// What a hunk holds, by `Hunk::lines`: each line's kind and its content, terminator still
/// attached.
pub uninterp spec fn hunk_content(hunk: PatchHunk<'_, str>) -> Seq<(LineKind, Seq<char>)>;

/// Calls `Hunk::lines` and reads line `i`, when there is one: its kind, one variant for each,
/// and its content. The lines are a slice, so there are no more than a `usize` counts.
#[verifier::external_body]
fn line_at<'h>(hunk: &'h PatchHunk<'_, str>, i: usize) -> (line: Option<(LineKind, &'h str)>)
    ensures
        line.is_some() == (i < hunk_content(*hunk).len()),
        line.is_some() ==> hunk_content(*hunk).len() <= usize::MAX,
        line.is_some() ==> line.unwrap().0 == hunk_content(*hunk)[i as int].0,
        line.is_some() ==> line.unwrap().1@ == hunk_content(*hunk)[i as int].1,
{
    match hunk.lines().get(i) {
        Some(PatchLine::Context(t)) => Some((LineKind::Context, *t)),
        Some(PatchLine::Delete(t)) => Some((LineKind::Removed, *t)),
        Some(PatchLine::Insert(t)) => Some((LineKind::Added, *t)),
        None => None,
    }
}

/// The text after a hunk's `@@` markers, by `Hunk::function_context`.
pub uninterp spec fn hunk_heading(hunk: PatchHunk<'_, str>) -> Option<Seq<char>>;

/// Calls `Hunk::function_context`.
#[verifier::external_body]
fn heading_of<'h>(hunk: &'h PatchHunk<'_, str>) -> (heading: Option<&'h str>)
    ensures
        heading.is_some() == hunk_heading(*hunk).is_some(),
        heading.is_some() ==> heading.unwrap()@ == hunk_heading(*hunk).unwrap(),
{
    hunk.function_context()
}

/// What a parser error's `Display` writes: a function of the error alone.
pub uninterp spec fn error_display(error: PatchSetParseError) -> Seq<char>;

/// Calls `PatchSetParseError`'s `Display`, through `to_string`: the text is the named account
/// of the error.
#[verifier::external_body]
fn error_text(error: &PatchSetParseError) -> (text: String)
    ensures
        text@ == error_display(*error),
{
    error.to_string()
}

// == What this module adds to the parse

/// Whether text holds nothing but whitespace.
pub open spec fn blank(text: Seq<char>) -> bool {
    forall|i: int| 0 <= i < text.len() ==> white_space(#[trigger] text[i])
}

fn is_blank(text: &str) -> (r: bool)
    ensures
        r == blank(text@),
{
    let ghost s = text@;
    for ch in it: text.chars()
        invariant
            it.seq() == s,
            s == text@,
            forall|i: int| 0 <= i < it.index() ==> white_space(#[trigger] s[i]),
    {
        if !is_white_space(ch) {
            return false;
        }
    }
    true
}

/// A path with the `a/` or `b/` git puts on it removed.
pub open spec fn cleaned(path: Seq<char>) -> Seq<char> {
    if path.len() >= 2 && (path[0] == 'a' || path[0] == 'b') && path[1] == '/' {
        path.subrange(2, path.len() as int)
    } else {
        path
    }
}

/// Removes the `a/` and `b/` prefixes git puts on paths.
///
/// Only those exact prefixes are removed. Plain `diff -u` output carries real paths that must
/// be left alone, and stripping a leading component unconditionally would mangle them.
pub fn clean_path(path: &str) -> (clean: String)
    ensures
        clean@ == cleaned(path@),
{
    let n = path.unicode_len();
    if n >= 2 && (path.get_char(0) == 'a' || path.get_char(0) == 'b') && path.get_char(1) == '/' {
        path.substring_char(2, n).to_owned()
    } else {
        path.to_owned()
    }
}

/// How many of the first `k` lines of a hunk are on the left: all but the additions.
pub open spec fn lefts_before(kinds: Seq<LineKind>, k: int) -> nat
    decreases k,
{
    if k <= 0 {
        0
    } else {
        lefts_before(kinds, k - 1) + if kinds[k - 1] != LineKind::Added {
            1nat
        } else {
            0nat
        }
    }
}

/// How many of the first `k` lines of a hunk are on the right: all but the removals.
pub open spec fn rights_before(kinds: Seq<LineKind>, k: int) -> nat
    decreases k,
{
    if k <= 0 {
        0
    } else {
        rights_before(kinds, k - 1) + if kinds[k - 1] != LineKind::Removed {
            1nat
        } else {
            0nat
        }
    }
}

/// A line number moved on by `n` lines, wrapping past the largest one as `u32` arithmetic
/// does.
pub open spec fn advanced(start: u32, n: nat) -> u32
    decreases n,
{
    if n == 0 {
        start
    } else {
        let p = advanced(start, (n - 1) as nat);
        if p == u32::MAX {
            0
        } else {
            (p + 1) as u32
        }
    }
}

/// The kinds of a hunk's lines.
pub open spec fn kinds_of(lines: Seq<DiffLine>) -> Seq<LineKind> {
    lines.map_values(|l: DiffLine| l.kind)
}

/// Lines numbered by walking the hunk from its header's starting lines: an unchanged line
/// advances both sides, a removal only the left, an addition only the right.
pub open spec fn walked(lines: Seq<DiffLine>, left_start: u32, right_start: u32) -> bool {
    let kinds = kinds_of(lines);
    forall|k: int|
        0 <= k < lines.len() ==> {
            &&& (#[trigger] lines[k]).left_line == if lines[k].kind != LineKind::Added {
                Some(advanced(left_start, lefts_before(kinds, k)))
            } else {
                None
            }
            &&& lines[k].right_line == if lines[k].kind != LineKind::Removed {
                Some(advanced(right_start, rights_before(kinds, k)))
            } else {
                None
            }
            &&& lines[k].origin == LineOrigin::Diff
        }
}

/// A hunk's lines resolved from what the parser hands over: each line's kind and its content
/// with the terminator still attached.
///
/// The header gives each side's starting line; per-line numbers come from walking the hunk.
/// A line missing its terminator is how the parser represents `\ No newline at end of file`.
#[verifier::rlimit(30)]
pub fn number_lines(left_start: u32, right_start: u32, raw: &Vec<(LineKind, &str)>) -> (lines: Vec<
    DiffLine,
>)
    ensures
        lines@.len() == raw@.len(),
        walked(lines@, left_start, right_start),
        forall|k: int|
            0 <= k < raw@.len() ==> {
                &&& (#[trigger] lines@[k]).kind == raw@[k].0
                &&& lines@[k].text@ == stripped(raw@[k].1@).0
                &&& lines@[k].line_ending == stripped(raw@[k].1@).1
            },
{
    let mut lines: Vec<DiffLine> = Vec::new();
    let mut left_no = left_start;
    let mut right_no = right_start;
    let mut k: usize = 0;
    while k < raw.len()
        invariant
            k <= raw@.len(),
            lines@.len() == k,
            left_no == advanced(left_start, lefts_before(kinds_of(lines@), k as int)),
            right_no == advanced(right_start, rights_before(kinds_of(lines@), k as int)),
            walked(lines@, left_start, right_start),
            forall|j: int|
                0 <= j < k ==> {
                    &&& (#[trigger] lines@[j]).kind == raw@[j].0
                    &&& lines@[j].text@ == stripped(raw@[j].1@).0
                    &&& lines@[j].line_ending == stripped(raw@[j].1@).1
                },
        decreases raw@.len() - k,
    {
        let (kind, content) = raw[k];
        let (text, ending) = strip_terminator(content);
        let (left_line, right_line) = match kind {
            LineKind::Context => {
                let pair = (Some(left_no), Some(right_no));
                left_no = left_no.wrapping_add(1);
                right_no = right_no.wrapping_add(1);
                pair
            },
            LineKind::Removed => {
                let pair = (Some(left_no), None);
                left_no = left_no.wrapping_add(1);
                pair
            },
            LineKind::Added => {
                let pair = (None, Some(right_no));
                right_no = right_no.wrapping_add(1);
                pair
            },
        };
        let ghost before = lines@;
        lines.push(
            DiffLine {
                kind,
                text: text.to_owned(),
                left_line,
                right_line,
                line_ending: ending,
                origin: LineOrigin::Diff,
            },
        );
        proof {
            assert(kinds_of(lines@).take(k as int) =~= kinds_of(before));
            lemma_counts_prefix(kinds_of(lines@), kinds_of(before), k as int);
            assert(walked(lines@, left_start, right_start)) by {
                assert forall|j: int| 0 <= j < lines@.len() implies {
                    &&& (#[trigger] lines@[j]).left_line == if lines@[j].kind != LineKind::Added {
                        Some(advanced(left_start, lefts_before(kinds_of(lines@), j)))
                    } else {
                        None
                    }
                    &&& lines@[j].right_line == if lines@[j].kind != LineKind::Removed {
                        Some(advanced(right_start, rights_before(kinds_of(lines@), j)))
                    } else {
                        None
                    }
                    &&& lines@[j].origin == LineOrigin::Diff
                } by {
                    if j < k {
                        assert(lines@[j] == before[j]);
                    }
                }
            }
            assert(left_no == advanced(left_start, lefts_before(kinds_of(lines@), k + 1)));
            assert(right_no == advanced(right_start, rights_before(kinds_of(lines@), k + 1)));
        }
        k += 1;
    }
    lines
}

/// Counting over a longer list agrees with counting over its prefix.
proof fn lemma_counts_prefix(longer: Seq<LineKind>, shorter: Seq<LineKind>, k: int)
    requires
        0 <= k <= shorter.len(),
        shorter.len() <= longer.len(),
        forall|j: int| 0 <= j < shorter.len() ==> longer[j] == shorter[j],
    ensures
        forall|j: int|
            0 <= j <= k ==> lefts_before(longer, j) == lefts_before(shorter, j) && rights_before(
                longer,
                j,
            ) == rights_before(shorter, j),
    decreases k,
{
    if k > 0 {
        lemma_counts_prefix(longer, shorter, k - 1);
        assert forall|j: int| 0 <= j <= k implies lefts_before(longer, j) == lefts_before(shorter, j)
            && rights_before(longer, j) == rights_before(shorter, j) by {
            if j == k {
                assert(lefts_before(longer, j - 1) == lefts_before(shorter, j - 1));
            }
        }
    }
}

/// A hunk's lines, read from what the parser holds: same kinds, and the content with its
/// terminator split off and named.
pub open spec fn lines_read(lines: Seq<DiffLine>, content: Seq<(LineKind, Seq<char>)>) -> bool {
    &&& lines.len() == content.len()
    &&& forall|k: int|
        0 <= k < content.len() ==> {
            &&& (#[trigger] lines[k]).kind == content[k].0
            &&& lines[k].text@ == stripped(content[k].1).0
            &&& lines[k].line_ending == stripped(content[k].1).1
        }
}

/// A hunk made from what the parser says of one: its ranges, its heading with any terminator
/// split off, and its lines read and numbered by walking them.
pub open spec fn hunk_from(
    h: Hunk,
    left: (usize, usize),
    right: (usize, usize),
    heading: Option<Seq<char>>,
    content: Seq<(LineKind, Seq<char>)>,
) -> bool {
    &&& h.left_start == left.0 as u32
    &&& h.left_len == left.1 as u32
    &&& h.right_start == right.0 as u32
    &&& h.right_len == right.1 as u32
    &&& match heading {
        Some(c) => h.heading is Some && h.heading.unwrap()@ == stripped(c).0,
        None => h.heading is None,
    }
    &&& lines_read(h.lines@, content)
    &&& walked(h.lines@, h.left_start, h.right_start)
}

/// A hunk as the parser hands it over, with its lines numbered and their terminators split
/// off.
fn convert_hunk(hunk: &PatchHunk<'_, str>) -> (h: Hunk)
    ensures
        hunk_from(
            h,
            hunk_old_range(*hunk),
            hunk_new_range(*hunk),
            hunk_heading(*hunk),
            hunk_content(*hunk),
        ),
{
    let (old_start, old_len) = old_range_of(hunk);
    let (new_start, new_len) = new_range_of(hunk);
    let left_start = #[verifier::truncate] (old_start as u32);
    let right_start = #[verifier::truncate] (new_start as u32);
    let ghost content = hunk_content(*hunk);
    let mut raw: Vec<(LineKind, &str)> = Vec::new();
    let mut i: usize = 0;
    loop
        invariant
            i <= content.len(),
            content == hunk_content(*hunk),
            raw@.len() == i,
            forall|k: int|
                0 <= k < i ==> (#[trigger] raw@[k]).0 == content[k].0 && raw@[k].1@ == content[k].1,
        ensures
            i == content.len(),
            raw@.len() == i,
            forall|k: int|
                0 <= k < i ==> (#[trigger] raw@[k]).0 == content[k].0 && raw@[k].1@ == content[k].1,
        decreases content.len() - i,
    {
        match line_at(hunk, i) {
            Some(line) => {
                raw.push(line);
                i += 1;
            },
            None => {
                break;
            },
        }
    }
    let lines = number_lines(left_start, right_start, &raw);
    let heading = match heading_of(hunk) {
        Some(context) => Some(strip_terminator(context).0.to_owned()),
        None => None,
    };
    Hunk {
        left_start,
        left_len: #[verifier::truncate] (old_len as u32),
        right_start,
        right_len: #[verifier::truncate] (new_len as u32),
        heading,
        lines,
    }
}

/// What every file read from a diff satisfies: its hunks are numbered by walking them, its
/// paths are the ones its kind of change has, and nothing is being fetched for it yet.
pub open spec fn freshly_parsed(f: FileDiff) -> bool {
    &&& f.fetches@.len() == 0
    &&& forall|k: int|
        0 <= k < f.hunk_views().len() ==> walked(
            (#[trigger] f.hunk_views()[k]).lines,
            f.hunk_views()[k].left_start,
            f.hunk_views()[k].right_start,
        )
    &&& match f.change {
        FileChange::Added => f.left_path is None && f.right_path is Some,
        FileChange::Removed => f.left_path is Some && f.right_path is None,
        _ => f.left_path is Some && f.right_path is Some,
    }
}

pub open spec fn clean_path_is(path: Option<String>, raw: Seq<char>) -> bool {
    path is Some && path.unwrap()@ == cleaned(raw)
}

/// A file made from what the parser says of its patch: the paths of its operation, cleaned,
/// the kind of change the operation is, the modes, and the patch's hunks, each made from the
/// patch's hunk at the same position; or no hunks for a binary patch.
pub open spec fn file_from(f: FileDiff, patch: FilePatch<'_, str>) -> bool {
    &&& match patch_operation(patch) {
        OperationView::Create(p) => f.left_path is None && clean_path_is(f.right_path, p)
            && f.change == FileChange::Added,
        OperationView::Delete(p) => clean_path_is(f.left_path, p) && f.right_path is None
            && f.change == FileChange::Removed,
        OperationView::Modify { original, modified } => clean_path_is(f.left_path, original)
            && clean_path_is(f.right_path, modified) && f.change == FileChange::Modified,
        OperationView::Rename { from, to } => clean_path_is(f.left_path, from) && clean_path_is(
            f.right_path,
            to,
        ) && f.change == FileChange::Renamed,
        OperationView::Copy { from, to } => clean_path_is(f.left_path, from) && clean_path_is(
            f.right_path,
            to,
        ) && f.change == FileChange::Copied,
    }
    &&& f.left_mode == patch_old_mode(patch)
    &&& f.right_mode == patch_new_mode(patch)
    &&& match patch_hunk_count(patch) {
        None => f.content is Binary,
        Some(n) => f.content is Text && hunks_of(f.content).len() == n && forall|k: int|
            0 <= k < n ==> hunk_from(
                #[trigger] hunks_of(f.content)[k],
                hunk_old_range(patch_hunk(patch, k as nat)),
                hunk_new_range(patch_hunk(patch, k as nat)),
                hunk_heading(patch_hunk(patch, k as nat)),
                hunk_content(patch_hunk(patch, k as nat)),
            ),
    }
    &&& freshly_parsed(f)
}

/// One file of a diff, from the parser's patch for it.
fn convert_file(patch: &FilePatch<'_, str>) -> (f: FileDiff)
    ensures
        file_from(f, *patch),
{
    let (left_path, right_path, change) = match operation_of(patch) {
        Operation::Create(p) => (None, Some(clean_path(p.as_str())), FileChange::Added),
        Operation::Delete(p) => (Some(clean_path(p.as_str())), None, FileChange::Removed),
        Operation::Modify { original, modified } => (
            Some(clean_path(original.as_str())),
            Some(clean_path(modified.as_str())),
            FileChange::Modified,
        ),
        Operation::Rename { from, to } => (
            Some(clean_path(from.as_str())),
            Some(clean_path(to.as_str())),
            FileChange::Renamed,
        ),
        Operation::Copy { from, to } => (
            Some(clean_path(from.as_str())),
            Some(clean_path(to.as_str())),
            FileChange::Copied,
        ),
    };

    let content = match text_hunks(patch) {
        None => FileContent::Binary,
        Some(source) => {
            let mut hunks: Vec<Hunk> = Vec::new();
            let mut i: usize = 0;
            while i < source.len()
                invariant
                    i <= source@.len(),
                    hunks@.len() == i,
                    forall|k: int|
                        0 <= k < source@.len() ==> source@[k] == patch_hunk(*patch, k as nat),
                    forall|k: int|
                        0 <= k < i ==> hunk_from(
                            #[trigger] hunks@[k],
                            hunk_old_range(patch_hunk(*patch, k as nat)),
                            hunk_new_range(patch_hunk(*patch, k as nat)),
                            hunk_heading(patch_hunk(*patch, k as nat)),
                            hunk_content(patch_hunk(*patch, k as nat)),
                        ),
                    forall|k: int|
                        0 <= k < i ==> walked(
                            (#[trigger] hunks@[k]).lines@,
                            hunks@[k].left_start,
                            hunks@[k].right_start,
                        ),
                decreases source@.len() - i,
            {
                hunks.push(convert_hunk(&source[i]));
                i += 1;
            }
            FileContent::Text { hunks }
        },
    };

    let left_mode = old_mode_of(patch);
    let right_mode = new_mode_of(patch);
    FileDiff { left_path, right_path, change, left_mode, right_mode, content, fetches: Vec::new() }
}

/// Every file of a parsed document.
fn convert_all(patches: &Vec<FilePatch<'_, str>>) -> (files: Vec<FileDiff>)
    ensures
        files@.len() == patches@.len(),
        forall|k: int| 0 <= k < files@.len() ==> freshly_parsed(#[trigger] files@[k]),
        forall|k: int|
            0 <= k < files@.len() ==> file_from(#[trigger] files@[k], patches@[k]),
{
    let mut files: Vec<FileDiff> = Vec::new();
    let mut i: usize = 0;
    while i < patches.len()
        invariant
            i <= patches@.len(),
            files@.len() == i,
            forall|k: int| 0 <= k < files@.len() ==> freshly_parsed(#[trigger] files@[k]),
            forall|k: int|
                0 <= k < files@.len() ==> file_from(#[trigger] files@[k], patches@[k]),
        decreases patches@.len() - i,
    {
        files.push(convert_file(&patches[i]));
        i += 1;
    }
    files
}

/// How many files a non-blank text holds: what the git dialect finds when it finds any, and
/// otherwise what the plain dialect finds, if that does not stop on an error.
pub open spec fn dialect_files(text: Seq<char>) -> Option<nat> {
    match patches_found(text, true) {
        Some(n) => if n > 0 {
            Some(n)
        } else {
            patches_found(text, false)
        },
        None => patches_found(text, false),
    }
}

/// Whether a non-blank text is read in the git dialect: when that dialect finds any file in
/// it. Otherwise the plain dialect reads it.
pub open spec fn read_as_git(text: Seq<char>) -> bool {
    patches_found(text, true) matches Some(n) && n > 0
}

/// Parses a unified diff, git-flavoured or plain, covering any number of files.
///
/// Text with nothing but whitespace in it is a diff with no changes, which is a legitimate
/// thing to be handed rather than an error. Otherwise the git dialect is tried first, since git
/// output is the common case and carries the most (renames, mode changes, binary markers), and
/// the plain dialect picks up what it turns away: each dialect rejects things the other
/// accepts.
pub fn parse_unified_diff(text: &str) -> (parsed: Result<DiffSet, ParseError>)
    ensures
        blank(text@) ==> (parsed matches Ok(set) && set.files@.len() == 0),
        !blank(text@) ==> match parsed {
            Ok(set) => set.files@.len() == dialect_files(text@).unwrap(),
            Err(ParseError::Malformed { source }) => dialect_files(text@) is None && source
                == text_parse_error(text@, false),
        },
        parsed matches Ok(set) ==> forall|k: int|
            0 <= k < set.files@.len() ==> freshly_parsed(#[trigger] set.files@[k]),
        !blank(text@) ==> (parsed matches Ok(set) ==> forall|k: int|
            0 <= k < set.files@.len() ==> file_from(
                #[trigger] set.files@[k],
                text_patch(text@, read_as_git(text@), k as nat),
            )),
{
    if is_blank(text) {
        return Ok(DiffSet { files: Vec::new() });
    }
    match parse_git(text) {
        Ok(patches) => {
            if patches.len() > 0 {
                return Ok(DiffSet { files: convert_all(&patches) });
            }
        },
        Err(_) => {},
    }
    match parse_plain(text) {
        Ok(patches) => Ok(DiffSet { files: convert_all(&patches) }),
        Err(source) => Err(ParseError::Malformed { source }),
    }
}

/// The kind of change a file is read as is the parser's operation, and the paths sit on the
/// side that operation gives them: a created file has only a right path, a deleted one only a
/// left path, and every other change both, each the operation's path with `a/` or `b/` removed.
pub proof fn law_the_change_and_paths_follow_the_operation(f: FileDiff, patch: FilePatch<'_, str>)
    requires
        file_from(f, patch),
    ensures
        match patch_operation(patch) {
            OperationView::Create(p) => {
                &&& f.change == FileChange::Added
                &&& f.left_path is None
                &&& f.right_path is Some && f.right_path.unwrap()@ == cleaned(p)
            },
            OperationView::Delete(p) => {
                &&& f.change == FileChange::Removed
                &&& f.right_path is None
                &&& f.left_path is Some && f.left_path.unwrap()@ == cleaned(p)
            },
            OperationView::Modify { original, modified } => {
                &&& f.change == FileChange::Modified
                &&& f.left_path is Some && f.left_path.unwrap()@ == cleaned(original)
                &&& f.right_path is Some && f.right_path.unwrap()@ == cleaned(modified)
            },
            OperationView::Rename { from, to } => {
                &&& f.change == FileChange::Renamed
                &&& f.left_path is Some && f.left_path.unwrap()@ == cleaned(from)
                &&& f.right_path is Some && f.right_path.unwrap()@ == cleaned(to)
            },
            OperationView::Copy { from, to } => {
                &&& f.change == FileChange::Copied
                &&& f.left_path is Some && f.left_path.unwrap()@ == cleaned(from)
                &&& f.right_path is Some && f.right_path.unwrap()@ == cleaned(to)
            },
        },
{
}

/// A file read from a patch carries the patch's own modes, the old one on the left, and for a
/// text patch its hunks in the patch's order, each starting and running where the patch's hunk
/// header says, on each side, with that header's heading.
pub proof fn law_modes_and_hunk_headers_follow_the_patch(f: FileDiff, patch: FilePatch<'_, str>, k: int)
    requires
        file_from(f, patch),
    ensures
        f.left_mode == patch_old_mode(patch),
        f.right_mode == patch_new_mode(patch),
        patch_hunk_count(patch) is None <==> f.content is Binary,
        patch_hunk_count(patch) matches Some(n) && 0 <= k < n ==> ({
            let h = hunks_of(f.content)[k];
            let p = patch_hunk(patch, k as nat);
            &&& h.left_start as int == hunk_old_range(p).0 as u32
            &&& h.left_len as int == hunk_old_range(p).1 as u32
            &&& h.right_start as int == hunk_new_range(p).0 as u32
            &&& h.right_len as int == hunk_new_range(p).1 as u32
            &&& h.heading is Some <==> hunk_heading(p) is Some
            &&& h.lines@.len() == hunk_content(p).len()
        }),
{
    if patch_hunk_count(patch) matches Some(n) && 0 <= k < n {
        assert(hunk_from(
            hunks_of(f.content)[k],
            hunk_old_range(patch_hunk(patch, k as nat)),
            hunk_new_range(patch_hunk(patch, k as nat)),
            hunk_heading(patch_hunk(patch, k as nat)),
            hunk_content(patch_hunk(patch, k as nat)),
        ));
    }
}

proof fn lemma_counts_flat(kinds: Seq<LineKind>, a: int, b: int)
    requires
        0 <= a <= b <= kinds.len(),
    ensures
        (forall|m: int| a <= m < b ==> kinds[m] == LineKind::Added) ==> lefts_before(kinds, b)
            == lefts_before(kinds, a),
        (forall|m: int| a <= m < b ==> kinds[m] == LineKind::Removed) ==> rights_before(kinds, b)
            == rights_before(kinds, a),
    decreases b - a,
{
    if a < b {
        lemma_counts_flat(kinds, a, b - 1);
    }
}

/// Within a hunk read from a diff, the lines on each side are numbered one after another:
/// the first line standing on the left (anything but an addition) carries the hunk's left
/// start, and each later one the number after the one before it, additions in between taking
/// no number; likewise on the right, with removals taking none. Numbers past the largest one
/// wrap as `u32` arithmetic does.
pub proof fn law_lines_are_numbered_one_after_another(
    lines: Seq<DiffLine>,
    left_start: u32,
    right_start: u32,
    i: int,
    j: int,
)
    requires
        walked(lines, left_start, right_start),
        0 <= i < j < lines.len(),
    ensures
        (forall|m: int| 0 <= m < j ==> #[trigger] lines[m].kind == LineKind::Added)
            && lines[j].kind != LineKind::Added ==> lines[j].left_line == Some(left_start),
        (forall|m: int| 0 <= m < j ==> #[trigger] lines[m].kind == LineKind::Removed)
            && lines[j].kind != LineKind::Removed ==> lines[j].right_line == Some(right_start),
        lines[i].kind != LineKind::Added && lines[j].kind != LineKind::Added && (forall|m: int|
            i < m < j ==> #[trigger] lines[m].kind == LineKind::Added) ==> lines[j].left_line
            == Some(if lines[i].left_line.unwrap() == u32::MAX {
            0u32
        } else {
            (lines[i].left_line.unwrap() + 1) as u32
        }),
        lines[i].kind != LineKind::Removed && lines[j].kind != LineKind::Removed && (forall|m: int|
            i < m < j ==> #[trigger] lines[m].kind == LineKind::Removed) ==> lines[j].right_line
            == Some(if lines[i].right_line.unwrap() == u32::MAX {
            0u32
        } else {
            (lines[i].right_line.unwrap() + 1) as u32
        }),
{
    let kinds = kinds_of(lines);
    assert(lines[i] == lines[i]);
    assert(lines[j] == lines[j]);
    assert(kinds[i] == lines[i].kind && kinds[j] == lines[j].kind);
    assert forall|m: int| 0 <= m < lines.len() implies kinds[m] == lines[m].kind by {}
    lemma_counts_flat(kinds, 0, j);
    lemma_counts_flat(kinds, i + 1, j);
    assert(lefts_before(kinds, 0) == 0 && rights_before(kinds, 0) == 0);
}

} // verus!
