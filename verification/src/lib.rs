//! A viewer for unified diffs: parsing them, laying them out inline or side by side with the
//! hidden stretches between hunks as gaps, rendering each line for a character grid, and
//! turning selections made on that grid into durable file coordinates and back.

pub mod diff;
pub mod highlight;
pub mod selection;
pub mod span;
pub mod view;
pub mod text;
pub mod width;

pub use diff::layout::{build_inline, build_split, GapState, Layout, Line, LinePair, Row, RowOptions};
pub use diff::model::{
    DiffLine, DiffSet, Fetch, FetchState, FileChange, FileContent, FileDiff, FileMode, Hunk,
    LineKind, LineOrigin, LineRef,
};
pub use diff::parse::{parse_unified_diff, ParseError};
pub use diff::render::{render_diff, DiffPane, Pane};
pub use highlight::to_highlights;
pub use selection::{clamp_to_run, run_bounds, to_spans, Caret, Selection};
pub use span::{Document, LineSpan, SourceCharExtent};
pub use text::{
    display_column_of, map_span, measure_line, render_line, source_index_at, LineEnding,
    RenderOptions,
};
pub use view::model::RowModel;
pub use view::row::{
    Channel, DisplayColumnExtent, DisplayedRow, Gap, Highlight, RowClass, RowKind, GUTTER_COLUMNS,
};
