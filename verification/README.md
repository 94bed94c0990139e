# fxv_diff_slint

A library for viewing unified diffs, with its behaviour stated as contracts and proved.

It parses unified diff text (git-flavoured or plain) into an owned model, lays a file out
inline or side by side with the hidden stretches between hunks shown as gaps that can be
fetched and opened, renders each line for a character grid (tabs expanded, whitespace and
line endings optionally shown), and turns a selection made on that grid into durable file
coordinates and back into ranges to paint.

## Layout

- `src/diff/model.rs`: the parsed document, gap fetches, and opening gaps with fetched lines.
- `src/diff/parse.rs`: reading unified diff text, through `diffy`.
- `src/diff/layout.rs`: arranging a file as rows, inline or side by side, with its gaps.
- `src/diff/render.rs`: turning a layout into the rows one pane draws.
- `src/text.rs`, `src/width.rs`: rendering a line for the grid, and mapping between source
  characters and display columns; character widths come from `unicode-width`.
- `src/view/row.rs`, `src/view/model.rs`: a pane's rows, the runs a selection may cover, and
  what each highlight channel paints on each row.
- `src/span.rs`, `src/selection.rs`, `src/highlight.rs`: durable line spans, selections, and
  where spans land on screen.
- `app/`: the parse error as a standard error type.

Each public proof function whose name starts with `law_` states a property that holds across
calls, such as both arrangements pointing at the same lines.
