use vstd::prelude::*;
use vstd::utf8::encode_utf8;
use crate::cursor::{Affinity, Cursor};
use crate::cursor_set::{CursorSet, Iter};
use crate::layout::{layout_events_ok, layout_line, EventKind};
use crate::layout;
use crate::str_ext::prefix_byte_len;
use crate::text;

verus! {

/// A rectangle one row high, from a start column to an end column.
#[derive(Clone, Copy, Debug, PartialEq, Eq, Structural)]
pub struct CellRect {
    pub row: usize,
    pub start_column: usize,
    pub end_column: usize,
}

/// What to draw, in rows and columns of the laid-out text.
#[derive(Clone, Copy, Debug, PartialEq, Eq)]
pub enum DrawCommand<'a> {
    /// A grapheme at a cell.
    Grapheme { row: usize, column: usize, grapheme: &'a str },
    /// A part of a selection, with the parts drawn before and after it, which
    /// it is joined to.
    Selection { rect: CellRect, prev: Option<CellRect>, next: Option<CellRect> },
    /// A caret at the left edge of a cell.
    Caret { row: usize, column: usize },
}

/// The graphemes among the commands, with their cells, in order.
pub open spec fn graphemes(commands: Seq<DrawCommand>) -> Seq<(nat, nat, Seq<char>)>
    decreases commands.len(),
{
    if commands.len() == 0 {
        Seq::empty()
    } else {
        let rest = graphemes(commands.drop_last());
        match commands.last() {
            DrawCommand::Grapheme { row, column, grapheme } => rest.push((row as nat, column as nat, grapheme@)),
            _ => rest,
        }
    }
}

/// The characters of a line, each at its column of the row.
pub open spec fn line_graphemes(row: nat, chars: Seq<char>) -> Seq<(nat, nat, Seq<char>)> {
    Seq::new(chars.len(), |k: int| (row, k as nat, seq![chars[k]]))
}

/// The characters of the lines, line after line, each line on its own row.
pub open spec fn text_graphemes(lines: Seq<Seq<char>>) -> Seq<(nat, nat, Seq<char>)>
    decreases lines.len(),
{
    if lines.len() == 0 {
        Seq::empty()
    } else {
        text_graphemes(lines.drop_last()) + line_graphemes((lines.len() - 1) as nat, lines.last())
    }
}

/// How many graphemes of a line of `n` characters have been drawn once its
/// first `j` layout events have been handled.
spec fn drawn_count(j: int, n: int) -> int {
    if j / 2 < n {
        j / 2
    } else {
        n
    }
}

/// Adding a command that draws no grapheme leaves the graphemes as they were.
proof fn lemma_graphemes_push_other(commands: Seq<DrawCommand>, command: DrawCommand)
    requires
        !(command is Grapheme),
    ensures
        graphemes(commands.push(command)) == graphemes(commands),
{
    assert(commands.push(command).drop_last() == commands);
}

/// The selections and carets among the commands, in order.
pub open spec fn marks<'a>(commands: Seq<DrawCommand<'a>>) -> Seq<DrawCommand<'a>>
    decreases commands.len(),
{
    if commands.len() == 0 {
        Seq::empty()
    } else {
        let rest = marks(commands.drop_last());
        match commands.last() {
            DrawCommand::Grapheme { .. } => rest,
            _ => rest.push(commands.last()),
        }
    }
}

/// Where a walk through the laid-out text stands: the text and layout
/// positions, the cursor whose selection is open with the column it started
/// at, the cursors still to come, the last two parts of selections started,
/// and the selections and carets drawn so far.
pub ghost struct Walk<'a> {
    pub text_position: text::Position,
    pub layout_position: layout::Position,
    pub active: Option<(Cursor, usize)>,
    pub rest: Seq<Cursor>,
    pub prev_selection: Option<CellRect>,
    pub selection: Option<CellRect>,
    pub marks: Seq<DrawCommand<'a>>,
}

impl<'a> Walk<'a> {
    /// The walk before the first line, with the cursors of a set to come.
    pub open spec fn start(cursors: Seq<Cursor>) -> Walk<'a> {
        Walk {
            text_position: text::Position { line_index: 0, byte_index: 0 },
            layout_position: layout::Position { row_index: 0, column_index: 0 },
            active: None,
            rest: cursors,
            prev_selection: None,
            selection: None,
            marks: Seq::empty(),
        }
    }

    /// The next cursor opens its selection when it starts right before the
    /// current text position (checked alike before and after a grapheme).
    pub open spec fn open_next(self) -> Walk<'a> {
        if self.rest.len() > 0 && self.rest[0].spec_start().position == self.text_position
            && self.rest[0].spec_start().affinity == Affinity::Before {
            Walk {
                active: Some((self.rest[0], self.layout_position.column_index)),
                rest: self.rest.drop_first(),
                ..self
            }
        } else {
            self
        }
    }

    /// The open cursor closes when it ends at the current text position with
    /// the given affinity.
    pub open spec fn close_at(self, affinity: Affinity) -> Walk<'a> {
        match self.active {
            Some(active) => if active.0.spec_end().position == self.text_position && active.0.spec_end().affinity
                == affinity {
                Walk { active: None, ..self }.close(active)
            } else {
                self
            },
            None => self,
        }
    }

    /// Draws the part of a cursor's selection that ends here, and its caret
    /// when it lies on the current line.
    pub open spec fn close(self, active: (Cursor, usize)) -> Walk<'a> {
        let start_column = if active.0.spec_start().position.line_index == self.text_position.line_index {
            active.1
        } else {
            0
        };
        let w1 = self.select(Some(start_column));
        let w2 = if active.0.spec_end().position == self.text_position {
            w1.select(None)
        } else {
            w1
        };
        if active.0.caret.position.line_index == self.text_position.line_index {
            w2.caret()
        } else {
            w2
        }
    }

    /// Starts a part of a selection from `start_column` to here, or none, and
    /// draws the part started before, joined to its neighbours.
    pub open spec fn select(self, start_column: Option<usize>) -> Walk<'a> {
        let next = match start_column {
            Some(start_column) => Some(
                CellRect {
                    row: self.layout_position.row_index,
                    start_column,
                    end_column: self.layout_position.column_index,
                },
            ),
            None => None,
        };
        let marks = match self.selection {
            Some(rect) => self.marks.push(DrawCommand::Selection { rect, prev: self.prev_selection, next }),
            None => self.marks,
        };
        Walk { prev_selection: self.selection, selection: next, marks, ..self }
    }

    /// Draws a caret here.
    pub open spec fn caret(self) -> Walk<'a> {
        Walk {
            marks: self.marks.push(
                DrawCommand::Caret {
                    row: self.layout_position.row_index,
                    column: self.layout_position.column_index,
                },
            ),
            ..self
        }
    }

    /// Handles a layout event of the given kind, at a byte index of the
    /// current line and a column of row `row`.
    pub open spec fn event(self, kind: EventKind, byte_index: usize, row: usize, column: usize) -> Walk<'a> {
        let here = Walk {
            text_position: text::Position { line_index: self.text_position.line_index, byte_index },
            layout_position: layout::Position { row_index: row, column_index: column },
            ..self
        };
        match kind {
            EventKind::VirtualLineEnd => match here.active {
                Some(active) => here.close(active),
                None => here,
            },
            EventKind::GraphemeStart => here.close_at(Affinity::Before).open_next(),
            EventKind::GraphemeEnd => here.close_at(Affinity::After).open_next(),
            _ => here,
        }
    }

    /// Handles the first `j` layout events of a line of characters on row
    /// `row`.
    pub open spec fn events(self, chars: Seq<char>, row: usize, j: int) -> Walk<'a>
        decreases j,
    {
        if j <= 0 {
            self
        } else {
            let w = self.events(chars, row, j - 1);
            let n = chars.len() as int;
            let i = j - 1;
            if i == 0 {
                w.event(EventKind::VirtualLineStart, 0, row, 0)
            } else if i == 2 * n + 1 {
                w.event(EventKind::VirtualLineEnd, encode_utf8(chars).len() as usize, row, n as usize)
            } else if i % 2 == 1 {
                w.event(EventKind::GraphemeStart, prefix_byte_len(chars, i / 2) as usize, row, (i / 2) as usize)
            } else {
                w.event(EventKind::GraphemeEnd, prefix_byte_len(chars, i / 2) as usize, row, (i / 2) as usize)
            }
        }
    }

    /// Handles a line of characters on the current row.
    pub open spec fn line(self, chars: Seq<char>) -> Walk<'a> {
        let closed = self.close_at(Affinity::After);
        closed.events(chars, self.layout_position.row_index, 2 * chars.len() as int + 2).open_next()
    }

    /// Moves on to the next line and row.
    pub open spec fn next_line(self) -> Walk<'a> {
        Walk {
            text_position: text::Position {
                line_index: (self.text_position.line_index + 1) as usize,
                byte_index: self.text_position.byte_index,
            },
            layout_position: layout::Position {
                row_index: (self.layout_position.row_index + 1) as usize,
                column_index: self.layout_position.column_index,
            },
            ..self
        }
    }

    /// Walks through lines of characters, from the start.
    pub open spec fn lines(lines: Seq<Seq<char>>, cursors: Seq<Cursor>) -> Walk<'a>
        decreases lines.len(),
    {
        if lines.len() == 0 {
            Walk::start(cursors)
        } else {
            Walk::lines(lines.drop_last(), cursors).line(lines.last()).next_line()
        }
    }
}

/// A walk with no cursor open, none to come and no selection started.
pub open spec fn is_quiet(w: Walk) -> bool {
    &&& w.active is None
    &&& w.rest.len() == 0
    &&& w.selection is None
    &&& w.marks.len() == 0
}

proof fn lemma_events_quiet(w: Walk, chars: Seq<char>, row: usize, j: int)
    requires
        is_quiet(w),
    ensures
        is_quiet(w.events(chars, row, j)),
    decreases j,
{
    if j > 0 {
        lemma_events_quiet(w, chars, row, j - 1);
    }
}

proof fn lemma_lines_quiet(lines: Seq<Seq<char>>, cursors: Seq<Cursor>)
    requires
        cursors.len() == 0,
    ensures
        is_quiet(Walk::lines(lines, cursors)),
    decreases lines.len(),
{
    if lines.len() > 0 {
        lemma_lines_quiet(lines.drop_last(), cursors);
        let w = Walk::lines(lines.drop_last(), cursors);
        lemma_events_quiet(w.close_at(Affinity::After), lines.last(), w.layout_position.row_index, 2 * lines.last().len() as int + 2);
    }
}

/// Without cursors, nothing but the graphemes is drawn: no selection and no
/// caret, whatever the text.
pub proof fn lemma_no_cursors_no_marks(lines: Seq<Seq<char>>)
    ensures
        Walk::lines(lines, Seq::<Cursor>::empty()).marks.len() == 0,
{
    lemma_lines_quiet(lines, Seq::<Cursor>::empty());
}

/// A cursor whose selection is being drawn, and where it started.
#[derive(Clone, Copy, Debug)]
struct ActiveCursor {
    cursor: Cursor,
    start_column: usize,
}

/// Walks through the laid-out text, drawing its graphemes and the selections
/// and carets of the cursors it meets.
pub struct Drawer<'a> {
    text_position: text::Position,
    layout_position: layout::Position,
    active_cursor: Option<ActiveCursor>,
    cursors: Iter<'a>,
    prev_selection: Option<CellRect>,
    selection: Option<CellRect>,
    commands: Vec<DrawCommand<'a>>,
}

/// Adding a selection or a caret adds it to the marks.
proof fn lemma_marks_push_other<'a>(commands: Seq<DrawCommand<'a>>, command: DrawCommand<'a>)
    requires
        !(command is Grapheme),
    ensures
        marks(commands.push(command)) == marks(commands).push(command),
{
    assert(commands.push(command).drop_last() == commands);
}

/// Adding a grapheme leaves the marks as they were.
proof fn lemma_marks_push_grapheme<'a>(commands: Seq<DrawCommand<'a>>, command: DrawCommand<'a>)
    requires
        command is Grapheme,
    ensures
        marks(commands.push(command)) == marks(commands),
{
    assert(commands.push(command).drop_last() == commands);
}

impl<'a> Drawer<'a> {
    /// The state every method keeps.
    spec fn wf(&self) -> bool {
        self.cursors.wf()
    }

    /// Where the drawer stands in its walk through the text.
    spec fn walk(&self) -> Walk<'a> {
        Walk {
            text_position: self.text_position,
            layout_position: self.layout_position,
            active: match self.active_cursor {
                Some(active) => Some((active.cursor, active.start_column)),
                None => None,
            },
            rest: self.cursors.rest(),
            prev_selection: self.prev_selection,
            selection: self.selection,
            marks: marks(self.commands@),
        }
    }

    fn check_cursor_starts_right_before(&mut self)
        requires
            old(self).wf(),
        ensures
            final(self).wf(),
            final(self).commands@ == old(self).commands@,
            final(self).walk() == old(self).walk().open_next(),
    {
        let starts = match self.cursors.peek() {
            Some(cursor) => cursor.start().is_right_before(self.text_position),
            None => false,
        };
        if starts {
            self.handle_cursor_start();
        }
    }

    fn check_cursor_starts_right_after(&mut self)
        requires
            old(self).wf(),
        ensures
            final(self).wf(),
            final(self).commands@ == old(self).commands@,
            final(self).walk() == old(self).walk().open_next(),
    {
        let starts = match self.cursors.peek() {
            Some(cursor) => cursor.start().is_right_before(self.text_position),
            None => false,
        };
        if starts {
            self.handle_cursor_start();
        }
    }

    fn check_cursor_ends_right_before(&mut self)
        requires
            old(self).wf(),
        ensures
            final(self).wf(),
            graphemes(final(self).commands@) == graphemes(old(self).commands@),
            final(self).walk() == old(self).walk().close_at(Affinity::After),
    {
        let ends = match self.active_cursor {
            Some(active_cursor) => active_cursor.cursor.end().is_right_after(self.text_position),
            None => false,
        };
        if ends {
            self.handle_cursor_end();
        }
    }

    fn check_cursor_ends_right_after(&mut self)
        requires
            old(self).wf(),
        ensures
            final(self).wf(),
            graphemes(final(self).commands@) == graphemes(old(self).commands@),
            final(self).walk() == old(self).walk().close_at(Affinity::Before),
    {
        let ends = match self.active_cursor {
            Some(active_cursor) => active_cursor.cursor.end().is_right_before(self.text_position),
            None => false,
        };
        if ends {
            self.handle_cursor_end();
        }
    }

    /// The next cursor becomes the active one, starting at the current column.
    fn handle_cursor_start(&mut self)
        requires
            old(self).wf(),
            old(self).cursors.rest().len() > 0,
        ensures
            final(self).wf(),
            final(self).commands@ == old(self).commands@,
            final(self).walk() == (Walk {
                active: Some((old(self).cursors.rest()[0], old(self).layout_position.column_index)),
                rest: old(self).cursors.rest().drop_first(),
                ..old(self).walk()
            }),
    {
        let cursor = self.cursors.next().unwrap();
        self.active_cursor = Some(ActiveCursor { cursor, start_column: self.layout_position.column_index });
    }

    /// The active cursor ends: its selection and caret are drawn.
    fn handle_cursor_end(&mut self)
        requires
            old(self).wf(),
            old(self).active_cursor is Some,
        ensures
            final(self).wf(),
            graphemes(final(self).commands@) == graphemes(old(self).commands@),
            final(self).walk() == (Walk { active: None, ..old(self).walk() }).close(old(self).walk().active->0),
    {
        let cursor = self.active_cursor.take().unwrap();
        self.draw_cursor(cursor);
    }

    /// Draws the part of a cursor's selection that ends at the current cell,
    /// and its caret when it lies on the current line.
    fn draw_cursor(&mut self, cursor: ActiveCursor)
        requires
            old(self).wf(),
        ensures
            final(self).wf(),
            graphemes(final(self).commands@) == graphemes(old(self).commands@),
            final(self).walk() == old(self).walk().close((cursor.cursor, cursor.start_column)),
    {
        let start_column = if cursor.cursor.start().position.line_index == self.text_position.line_index {
            cursor.start_column
        } else {
            0
        };
        self.draw_selection(Some(start_column));
        if cursor.cursor.end().position == self.text_position {
            self.draw_selection(None);
        }
        if cursor.cursor.caret.position.line_index == self.text_position.line_index {
            self.draw_caret();
        }
    }

    /// Starts a part of a selection from `start_column` to the current cell,
    /// or none, and draws the part started before, joined to the parts before
    /// and after it.
    fn draw_selection(&mut self, start_column: Option<usize>)
        requires
            old(self).wf(),
        ensures
            final(self).wf(),
            graphemes(final(self).commands@) == graphemes(old(self).commands@),
            final(self).walk() == old(self).walk().select(start_column),
    {
        let next_selection = match start_column {
            Some(start_column) => Some(
                CellRect {
                    row: self.layout_position.row_index,
                    start_column,
                    end_column: self.layout_position.column_index,
                },
            ),
            None => None,
        };
        if let Some(selection) = self.selection {
            let command = DrawCommand::Selection { rect: selection, prev: self.prev_selection, next: next_selection };
            proof {
                lemma_graphemes_push_other(self.commands@, command);
                lemma_marks_push_other(self.commands@, command);
            }
            self.commands.push(command);
        }
        self.prev_selection = self.selection;
        self.selection = next_selection;
    }

    fn draw_caret(&mut self)
        requires
            old(self).wf(),
        ensures
            final(self).wf(),
            graphemes(final(self).commands@) == graphemes(old(self).commands@),
            final(self).walk() == old(self).walk().caret(),
    {
        let command = DrawCommand::Caret {
            row: self.layout_position.row_index,
            column: self.layout_position.column_index,
        };
        proof {
            lemma_graphemes_push_other(self.commands@, command);
            lemma_marks_push_other(self.commands@, command);
        }
        self.commands.push(command);
    }

    fn draw_grapheme(&mut self, grapheme: &'a str)
        requires
            old(self).wf(),
        ensures
            final(self).wf(),
            final(self).commands@ == old(self).commands@.push(
                DrawCommand::Grapheme {
                    row: old(self).layout_position.row_index,
                    column: old(self).layout_position.column_index,
                    grapheme,
                },
            ),
            final(self).walk() == old(self).walk(),
    {
        let command = DrawCommand::Grapheme {
            row: self.layout_position.row_index,
            column: self.layout_position.column_index,
            grapheme,
        };
        proof {
            lemma_marks_push_grapheme(self.commands@, command);
        }
        self.commands.push(command);
    }

    /// Draws a line on the current row.
    fn draw_line(&mut self, line: &'a str)
        requires
            old(self).wf(),
        ensures
            final(self).wf(),
            graphemes(final(self).commands@) == graphemes(old(self).commands@) + line_graphemes(
                old(self).layout_position.row_index as nat,
                line@,
            ),
            final(self).walk() == old(self).walk().line(line@),
            final(self).text_position.line_index == old(self).text_position.line_index,
            final(self).layout_position.row_index == old(self).layout_position.row_index,
    {
        let ghost before = graphemes(self.commands@);
        let ghost chars = line@;
        let ghost entry = self.walk();
        self.check_cursor_ends_right_before();
        let ghost closed = self.walk();
        let start_row_index = self.layout_position.row_index;
        let ghost line_index = self.text_position.line_index;
        let events = layout_line(line);
        let mut j: usize = 0;
        while j < events.len()
            invariant
                self.wf(),
                layout_events_ok(line, 0, events@),
                chars == line@,
                0 <= j <= events@.len(),
                self.layout_position.row_index == start_row_index,
                self.text_position.line_index == line_index,
                start_row_index == entry.layout_position.row_index,
                closed == entry.close_at(Affinity::After),
                graphemes(self.commands@) == before + line_graphemes(
                    start_row_index as nat,
                    chars.take(drawn_count(j as int, chars.len() as int)),
                ),
                self.walk() == closed.events(chars, start_row_index, j as int),
            decreases events@.len() - j,
        {
            let event = events[j];
            let ghost w = self.walk();
            self.text_position.byte_index = event.byte_index;
            self.layout_position = layout::Position {
                row_index: start_row_index,
                column_index: event.position.column_index,
            };
            proof {
                let n = chars.len() as int;
                if j % 2 == 1 && j < 2 * n + 1 {
                    let k = (j - 1) / 2;
                    assert(events@[1 + 2 * k].kind == EventKind::GraphemeStart);
                }
                if j % 2 == 0 && j > 0 {
                    let k = (j - 2) / 2;
                    assert(events@[1 + 2 * k].kind == EventKind::GraphemeStart);
                    assert(events@[2 + 2 * k].kind == EventKind::GraphemeEnd);
                }
                let i = j as int;
                if i == 0 {
                    assert(event.kind == EventKind::VirtualLineStart && event.byte_index == 0
                        && event.position.column_index == 0);
                } else if i == 2 * n + 1 {
                    assert(event.kind == EventKind::VirtualLineEnd);
                } else if i % 2 == 1 {
                    let k = (i - 1) / 2;
                    assert(events@[1 + 2 * k] == event);
                    assert(k == i / 2);
                } else {
                    let k = (i - 2) / 2;
                    assert(events@[2 + 2 * k] == event);
                    assert(k + 1 == i / 2);
                }
                assert(self.walk() == (Walk {
                    text_position: text::Position { line_index: w.text_position.line_index, byte_index: event.byte_index },
                    layout_position: layout::Position {
                        row_index: start_row_index,
                        column_index: event.position.column_index,
                    },
                    ..w
                }));
            }
            match event.kind {
                EventKind::VirtualLineEnd => {
                    if let Some(cursor) = self.active_cursor {
                        self.draw_cursor(cursor);
                    }
                },
                EventKind::GraphemeStart => {
                    self.check_cursor_ends_right_after();
                    let ghost k = j as int / 2;
                    let ghost prev_commands = self.commands@;
                    self.draw_grapheme(event.string);
                    proof {
                        assert(events@[1 + 2 * k].kind == EventKind::GraphemeStart);
                        assert(drawn_count(j as int, chars.len() as int) == k);
                        assert(drawn_count(j + 1, chars.len() as int) == k + 1);
                        assert(self.commands@.drop_last() == prev_commands);
                        assert(chars.take(k + 1) == chars.take(k).push(chars[k]));
                        assert(line_graphemes(start_row_index as nat, chars.take(k + 1)) == line_graphemes(
                            start_row_index as nat,
                            chars.take(k),
                        ).push((start_row_index as nat, k as nat, seq![chars[k]])));
                    }
                    self.check_cursor_starts_right_before();
                },
                EventKind::GraphemeEnd => {
                    self.check_cursor_ends_right_before();
                    self.check_cursor_starts_right_after();
                },
                _ => {},
            }
            j = j + 1;
        }
        proof {
            assert(chars.take(drawn_count(j as int, chars.len() as int)) == chars);
        }
        self.check_cursor_starts_right_after();
    }
}

/// Draws lines with the cursors of a set: the graphemes of line `i` on row
/// `i`, each at the column of its character, and the selections and carets
/// of the cursors as a walk through the lines meets them.
pub fn draw_text<'a>(lines: &'a [String], cursors: &'a CursorSet) -> (commands: Vec<DrawCommand<'a>>)
    requires
        lines@.len() < usize::MAX,
    ensures
        graphemes(commands@) == text_graphemes(lines@.map_values(|line: String| line@)),
        marks(commands@) == Walk::lines(lines@.map_values(|line: String| line@), cursors@).marks,
{
    let ghost views = lines@.map_values(|line: String| line@);
    let mut drawer = Drawer {
        text_position: text::Position { line_index: 0, byte_index: 0 },
        layout_position: layout::Position { row_index: 0, column_index: 0 },
        active_cursor: None,
        cursors: cursors.iter(),
        prev_selection: None,
        selection: None,
        commands: Vec::new(),
    };
    proof {
        assert(marks(drawer.commands@) =~= Seq::<DrawCommand>::empty());
        assert(drawer.walk() == Walk::<'a>::start(cursors@));
    }
    let mut i: usize = 0;
    while i < lines.len()
        invariant
            drawer.wf(),
            i <= lines@.len() < usize::MAX,
            views == lines@.map_values(|line: String| line@),
            drawer.text_position.line_index == i,
            drawer.layout_position.row_index == i,
            graphemes(drawer.commands@) == text_graphemes(views.take(i as int)),
            drawer.walk() == Walk::<'a>::lines(views.take(i as int), cursors@),
        decreases lines@.len() - i,
    {
        drawer.draw_line(lines[i].as_str());
        proof {
            assert(views.take(i + 1).drop_last() == views.take(i as int));
            assert(views.take(i + 1).last() == lines@[i as int]@);
        }
        drawer.text_position.line_index = drawer.text_position.line_index + 1;
        drawer.layout_position.row_index = drawer.layout_position.row_index + 1;
        i = i + 1;
    }
    proof {
        assert(views.take(i as int) == views);
    }
    drawer.commands
}

} // verus!
