# code_editor

The core of a code editor, with its behaviour stated as Verus contracts and
proved.

## Library (`src/`)

- `text`: positions, extents and edits of a text held as lines; applying an
  edit to the lines and mapping positions through it.
- `cursor`, `cursor_set`: carets and selections, their moves over graphemes
  and lines, merging, and sets of cursors kept sorted by their starts, no two of
  them overlapping or touching.
- `str_ext`, `char_ext`, `layout`: grapheme boundaries, and the layout events
  of a line (rows, columns and byte indices of its graphemes).
- `drawer`, `line_numbers`, `highlight`: what the editor draws, in rows and
  columns: graphemes, selections and carets; the numbers in the gutter; the
  color class of each token.
- `editor_event`: how the editor reacts to a key, a press, a move of the
  finger, a copy or its caret blink timer: the edit it asks of its state and
  what it does to the caret, focus, scrolling, zoom and views.
- `selection`: the selected parts of the visible lines of a text, in columns,
  from the runs of selected and unselected text that a selection is made of,
  each part joined to the first part of the lines around it.
- `segment`: word boundaries by the rules of Unicode text segmentation, a
  cursor that moves from boundary to boundary, and the words of a string. The
  word-break properties of characters are given by the caller.
- `regex`: a parser and a compiler for simple regular expressions, byte
  classes, and a lazily built DFA over byte programs, whose runs are stated
  exactly over what its cache holds (`DfaCache`).
- `sparse_set`: a set of small integers with constant-time insertion and
  clearing.
- `video`: the playback and decoding decisions of the video widget, driven by
  a clock and events from outside.

## Around it (`app/`)

Documents shared between sessions and loaded in the background, sessions,
the makepad widget that turns cells into pixels, and a wall-clock driver for
video playback.
