# synthia

The editing core of a small local graphic design editor, written in Verus
and verified: rectangles and ellipses with fill and stroke, lines,
freehand (pencil) strokes, styled text and images on a canvas, layers,
grouping and ungrouping, duplicate, copy and paste, image fit and
replacement, undo/redo, save/open and SVG export.

## Layout

- `src/model.rs` — objects, their ids and groups; the abstract document
  model every contract speaks of. `src/object_seq.rs` holds the facts about
  its sequence operations.
- `src/history.rs` — undo/redo as a command stack, with the laws that
  undoing a step recorded where it is valid gives the document back, and
  that recording such a step, undo and redo keep the history consistent
  with the document.
- `src/editor.rs` — the editor state and the actions on it (`reduce`),
  each with a contract (`after_*`) that fixes the new state, plus the
  dirty-flag rule and editor-level undo/redo laws: which actions keep the
  history consistent (`keeps_history_consistent`), and, for the live
  sessions (a drag, a color drag, a text edit), that the commit ending the
  session is one step whose undo gives back the document from before the
  session.
- `src/assets.rs`, `src/color.rs`, `src/export.rs`, `src/text.rs`,
  `src/text_metrics.rs`, `src/freehand.rs`, `src/desktop.rs`,
  `src/image_import.rs`, `src/snapping.rs`, `src/document_io.rs` — image
  assets and `data:` URLs, hex colors, XML escaping, word wrapping,
  freehand simplification, document titles and file names.
- `app/` — the command-line shell: JSON files, serde copies of the document
  types, and everything computed on floating point (sizes, zoom, HSV,
  alignment, snapping, distances, SVG numbers).
- `tests/` — tests of the library on concrete values.

Coordinates are of a scalar type parameter `F`; the library never computes
with them, so it is verified once for every `F` and the application uses
`f64`.
