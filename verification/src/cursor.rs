use vstd::prelude::*;
use vstd::string::StringSliceAdditionalSpecFns;
use vstd::utf8::*;
use crate::str_ext::{byte_len, is_next_boundary, is_prev_boundary, StrExt};
use crate::text;
use crate::text::DeltaDesc;

verus! {

broadcast use vstd::slice::group_slice_axioms;

/// Which side of a position a caret sticks to.
#[derive(Clone, Copy, Debug, PartialEq, Eq, Structural, Hash, PartialOrd, Ord)]
pub enum Affinity {
    Before,
    After,
}

impl Default for Affinity {
    fn default() -> (a: Self)
        ensures
            a == Affinity::Before,
    {
        Affinity::Before
    }
}

/// A position in a text together with the side it sticks to.
#[derive(Clone, Copy, Debug, Default, PartialEq, Eq, Structural, Hash, PartialOrd, Ord)]
pub struct Position {
    pub position: text::Position,
    pub affinity: Affinity,
}

/// The lines of the text that cursors move in.
#[derive(Debug)]
pub struct Context<'a> {
    pub lines: &'a [String],
}

/// A selection: the caret is the end that moves, the anchor the end that stays.
#[derive(Clone, Copy, Debug, Default, PartialEq, Eq, Structural, Hash)]
pub struct Cursor {
    pub caret: Position,
    pub anchor: Position,
}

/// The UTF-8 bytes of a line.
pub open spec fn line_bytes(line: String) -> Seq<u8> {
    encode_utf8(line@)
}

/// `moved` is `cursor` with its caret moved one grapheme to the left in
/// `lines`: back to the previous boundary of its line, to the end of the
/// previous line from the start of a line, or nowhere from the start of the
/// text.
pub open spec fn moved_left(lines: Seq<String>, cursor: Cursor, moved: Cursor) -> bool {
    let line_index = cursor.caret.position.line_index;
    let byte_index = cursor.caret.position.byte_index;
    &&& moved.anchor == cursor.anchor
    &&& byte_index > 0 ==> {
        &&& moved.caret.position.line_index == line_index
        &&& moved.caret.affinity == Affinity::After
        &&& is_prev_boundary(
            line_bytes(lines[line_index as int]),
            byte_index as int,
            moved.caret.position.byte_index as int,
        )
    }
    &&& byte_index == 0 && line_index > 0 ==> {
        &&& moved.caret.position.line_index == line_index - 1
        &&& moved.caret.position.byte_index == line_bytes(lines[line_index - 1]).len()
        &&& moved.caret.affinity == Affinity::After
    }
    &&& byte_index == 0 && line_index == 0 ==> moved == cursor
}

/// `moved` is `cursor` with its caret moved one grapheme to the right in
/// `lines`: on to the next boundary of its line, to the start of the next line
/// from the end of a line, or nowhere from the end of the text.
pub open spec fn moved_right(lines: Seq<String>, cursor: Cursor, moved: Cursor) -> bool {
    let line_index = cursor.caret.position.line_index;
    let byte_index = cursor.caret.position.byte_index;
    let len = line_bytes(lines[line_index as int]).len();
    &&& moved.anchor == cursor.anchor
    &&& byte_index < len ==> {
        &&& moved.caret.position.line_index == line_index
        &&& moved.caret.affinity == Affinity::Before
        &&& is_next_boundary(
            line_bytes(lines[line_index as int]),
            byte_index as int,
            moved.caret.position.byte_index as int,
        )
    }
    &&& byte_index == len && line_index + 1 < lines.len() ==> {
        &&& moved.caret.position.line_index == line_index + 1
        &&& moved.caret.position.byte_index == 0
        &&& moved.caret.affinity == Affinity::Before
    }
    &&& byte_index == len && line_index + 1 == lines.len() ==> moved == cursor
}

impl Position {
    /// Order on positions: by text position, and `Before` ahead of `After` at
    /// the same text position.
    pub open spec fn spec_lt(self, other: Position) -> bool {
        self.position.spec_lt(other.position) || (self.position == other.position
            && self.affinity == Affinity::Before && other.affinity == Affinity::After)
    }

    pub open spec fn spec_le(self, other: Position) -> bool {
        self.spec_lt(other) || self == other
    }

    pub open spec fn spec_min(self, other: Position) -> Position {
        if other.spec_lt(self) {
            other
        } else {
            self
        }
    }

    pub open spec fn spec_max(self, other: Position) -> Position {
        if other.spec_lt(self) {
            self
        } else {
            other
        }
    }

    pub fn is_before(self, other: Position) -> (b: bool)
        ensures
            b == self.spec_lt(other),
    {
        self.position.is_before(other.position) || (self.position == other.position
            && self.affinity == Affinity::Before && other.affinity == Affinity::After)
    }

    pub fn min_position(self, other: Position) -> (p: Position)
        ensures
            p == self.spec_min(other),
    {
        if other.is_before(self) {
            other
        } else {
            self
        }
    }

    pub fn max_position(self, other: Position) -> (p: Position)
        ensures
            p == self.spec_max(other),
    {
        if other.is_before(self) {
            self
        } else {
            other
        }
    }

    pub fn is_right_before(self, position: text::Position) -> (b: bool)
        ensures
            b == (self.position == position && self.affinity == Affinity::Before),
    {
        self.position == position && self.affinity == Affinity::Before
    }

    pub fn is_right_after(self, position: text::Position) -> (b: bool)
        ensures
            b == (self.position == position && self.affinity == Affinity::After),
    {
        self.position == position && self.affinity == Affinity::After
    }

    pub fn apply_delta(self, delta_len: DeltaDesc) -> (p: Position)
        requires
            self.position.apply_delta_defined(delta_len),
        ensures
            p.position == self.position.spec_apply_delta(delta_len),
            p.affinity == self.affinity,
    {
        Position { position: self.position.apply_delta(delta_len), affinity: self.affinity }
    }
}

impl Cursor {
    pub open spec fn spec_start(self) -> Position {
        self.caret.spec_min(self.anchor)
    }

    pub open spec fn spec_end(self) -> Position {
        self.caret.spec_max(self.anchor)
    }

    pub open spec fn spec_is_empty(self) -> bool {
        self.caret == self.anchor
    }

    /// The caret lies on a line of `lines`, at or before its end.
    pub open spec fn caret_in(self, lines: Seq<String>) -> bool {
        &&& self.caret.position.line_index < lines.len()
        &&& self.caret.position.byte_index <= line_bytes(lines[self.caret.position.line_index as int]).len()
    }

    pub fn is_empty(self) -> (b: bool)
        ensures
            b == self.spec_is_empty(),
    {
        self.caret == self.anchor
    }

    pub fn is_at_first_line(self) -> (b: bool)
        ensures
            b == (self.caret.position.line_index == 0),
    {
        self.caret.position.line_index == 0
    }

    pub fn is_at_last_line(self, context: &Context) -> (b: bool)
        requires
            context.lines@.len() >= 1,
        ensures
            b == (self.caret.position.line_index == context.lines@.len() - 1),
    {
        self.caret.position.line_index == context.lines.len() - 1
    }

    pub fn is_at_start_of_line(self) -> (b: bool)
        ensures
            b == (self.caret.position.byte_index == 0),
    {
        self.caret.position.byte_index == 0
    }

    pub fn is_at_end_of_line(self, context: &Context) -> (b: bool)
        requires
            self.caret.position.line_index < context.lines@.len(),
        ensures
            b == (self.caret.position.byte_index == line_bytes(
                context.lines@[self.caret.position.line_index as int],
            ).len()),
    {
        let line = &context.lines[self.caret.position.line_index];
        self.caret.position.byte_index == byte_len(line.as_str())
    }

    pub fn start(self) -> (p: Position)
        ensures
            p == self.spec_start(),
    {
        self.caret.min_position(self.anchor)
    }

    pub fn end(self) -> (p: Position)
        ensures
            p == self.spec_end(),
    {
        self.caret.max_position(self.anchor)
    }

    /// Moves the caret one grapheme to the left, to the end of the previous
    /// line at the start of a line, or nowhere at the start of the text.
    pub fn move_left(self, context: &Context) -> (c: Cursor)
        requires
            self.caret.position.line_index < context.lines@.len(),
        ensures
            moved_left(context.lines@, self, c),
    {
        if !self.is_at_start_of_line() {
            self.move_to_prev_grapheme_boundary(context)
        } else if !self.is_at_first_line() {
            self.move_to_end_of_prev_line(context)
        } else {
            self
        }
    }

    /// Moves the caret one grapheme to the right, to the start of the next
    /// line at the end of a line, or nowhere at the end of the text.
    pub fn move_right(self, context: &Context) -> (c: Cursor)
        requires
            self.caret_in(context.lines@),
        ensures
            moved_right(context.lines@, self, c),
    {
        if !self.is_at_end_of_line(context) {
            self.move_to_next_grapheme_boundary(context)
        } else if !self.is_at_last_line(context) {
            proof {
                assert(vstd::slice::spec_slice_len(context.lines) == context.lines@.len());
            }
            self.move_to_start_of_next_line()
        } else {
            self
        }
    }

    fn move_to_end_of_prev_line(self, context: &Context) -> (c: Cursor)
        requires
            0 < self.caret.position.line_index <= context.lines@.len(),
        ensures
            c.anchor == self.anchor,
            c.caret.position.line_index == self.caret.position.line_index - 1,
            c.caret.position.byte_index == line_bytes(
                context.lines@[self.caret.position.line_index - 1],
            ).len(),
            c.caret.affinity == Affinity::After,
    {
        let prev_line_index = self.caret.position.line_index - 1;
        Cursor {
            caret: Position {
                position: text::Position {
                    line_index: prev_line_index,
                    byte_index: byte_len(context.lines[prev_line_index].as_str()),
                },
                affinity: Affinity::After,
            },
            anchor: self.anchor,
        }
    }

    fn move_to_start_of_next_line(self) -> (c: Cursor)
        requires
            self.caret.position.line_index < usize::MAX,
        ensures
            c.anchor == self.anchor,
            c.caret.position.line_index == self.caret.position.line_index + 1,
            c.caret.position.byte_index == 0,
            c.caret.affinity == Affinity::Before,
    {
        Cursor {
            caret: Position {
                position: text::Position {
                    line_index: self.caret.position.line_index + 1,
                    byte_index: 0,
                },
                affinity: Affinity::Before,
            },
            anchor: self.anchor,
        }
    }

    fn move_to_prev_grapheme_boundary(self, context: &Context) -> (c: Cursor)
        requires
            self.caret.position.line_index < context.lines@.len(),
            self.caret.position.byte_index > 0,
        ensures
            c.anchor == self.anchor,
            c.caret.position.line_index == self.caret.position.line_index,
            c.caret.affinity == Affinity::After,
            is_prev_boundary(
                line_bytes(context.lines@[self.caret.position.line_index as int]),
                self.caret.position.byte_index as int,
                c.caret.position.byte_index as int,
            ),
    {
        let line = context.lines[self.caret.position.line_index].as_str();
        let byte_index = line.prev_grapheme_boundary(self.caret.position.byte_index).unwrap();
        Cursor {
            caret: Position {
                position: text::Position {
                    line_index: self.caret.position.line_index,
                    byte_index,
                },
                affinity: Affinity::After,
            },
            anchor: self.anchor,
        }
    }

    fn move_to_next_grapheme_boundary(self, context: &Context) -> (c: Cursor)
        requires
            self.caret.position.line_index < context.lines@.len(),
            self.caret.position.byte_index < line_bytes(
                context.lines@[self.caret.position.line_index as int],
            ).len(),
        ensures
            c.anchor == self.anchor,
            c.caret.position.line_index == self.caret.position.line_index,
            c.caret.affinity == Affinity::Before,
            is_next_boundary(
                line_bytes(context.lines@[self.caret.position.line_index as int]),
                self.caret.position.byte_index as int,
                c.caret.position.byte_index as int,
            ),
    {
        let line = context.lines[self.caret.position.line_index].as_str();
        let byte_index = line.next_grapheme_boundary(self.caret.position.byte_index).unwrap();
        Cursor {
            caret: Position {
                position: text::Position {
                    line_index: self.caret.position.line_index,
                    byte_index,
                },
                affinity: Affinity::Before,
            },
            anchor: self.anchor,
        }
    }

    /// The result of merging two cursors: the one that starts first is `first`.
    /// Two carets at the same text position merge, so does a caret inside or
    /// at the end of a selection, a caret at the start of a selection, and two
    /// overlapping selections, which keep the direction of `first`.
    pub open spec fn spec_merge(self, other: Cursor) -> Option<Cursor> {
        let (first, second) = if other.spec_start().spec_lt(self.spec_start()) {
            (other, self)
        } else {
            (self, other)
        };
        if first.spec_is_empty() && second.spec_is_empty() {
            if first.caret.position == second.caret.position {
                Some(first)
            } else {
                None
            }
        } else if !first.spec_is_empty() && second.spec_is_empty() {
            if second.caret.position.spec_le(first.spec_end().position) {
                Some(first)
            } else {
                None
            }
        } else if first.spec_is_empty() && !second.spec_is_empty() {
            if first.caret.position == second.spec_start().position {
                Some(second)
            } else {
                None
            }
        } else {
            if second.spec_start().position.spec_lt(first.spec_end().position) {
                if first.caret.spec_lt(first.anchor) {
                    Some(
                        Cursor {
                            caret: first.caret.spec_min(second.caret),
                            anchor: first.anchor.spec_max(second.anchor),
                        },
                    )
                } else {
                    Some(
                        Cursor {
                            caret: first.caret.spec_max(second.caret),
                            anchor: first.anchor.spec_min(second.anchor),
                        },
                    )
                }
            } else {
                None
            }
        }
    }

    /// Merges two cursors into one if they touch or overlap.
    pub fn merge(self, other: Cursor) -> (r: Option<Cursor>)
        ensures
            r == self.spec_merge(other),
    {
        let mut first = self;
        let mut second = other;
        if second.start().is_before(first.start()) {
            first = other;
            second = self;
        }
        match (first.is_empty(), second.is_empty()) {
            (true, true) if first.caret.position == second.caret.position => Some(first),
            (false, true) if !first.end().position.is_before(second.caret.position) => Some(first),
            (true, false) if first.caret.position == second.start().position => Some(second),
            (false, false) if second.start().position.is_before(first.end().position) => {
                if first.caret.is_before(first.anchor) {
                    Some(
                        Cursor {
                            caret: first.caret.min_position(second.caret),
                            anchor: first.anchor.max_position(second.anchor),
                        },
                    )
                } else {
                    Some(
                        Cursor {
                            caret: first.caret.max_position(second.caret),
                            anchor: first.anchor.min_position(second.anchor),
                        },
                    )
                }
            },
            _ => None,
        }
    }

    pub fn apply_delta(self, delta_len: DeltaDesc) -> (c: Cursor)
        requires
            self.caret.position.apply_delta_defined(delta_len),
            self.anchor.position.apply_delta_defined(delta_len),
        ensures
            c.caret.position == self.caret.position.spec_apply_delta(delta_len),
            c.caret.affinity == self.caret.affinity,
            c.anchor.position == self.anchor.position.spec_apply_delta(delta_len),
            c.anchor.affinity == self.anchor.affinity,
    {
        Cursor { caret: self.caret.apply_delta(delta_len), anchor: self.anchor.apply_delta(delta_len) }
    }
}

impl Cursor {
    /// The caret does not come after the anchor.
    pub open spec fn is_forward(self) -> bool {
        self.caret.spec_le(self.anchor)
    }

    /// The anchor does not come after the caret.
    pub open spec fn is_backward(self) -> bool {
        self.anchor.spec_le(self.caret)
    }
}

/// `<` on cursor positions is a strict total order.
pub proof fn lemma_position_order(a: Position, b: Position, c: Position)
    ensures
        !a.spec_lt(a),
        a.spec_lt(b) ==> !b.spec_lt(a),
        a.spec_lt(b) || b.spec_lt(a) || a == b,
        a.spec_lt(b) && b.spec_lt(c) ==> a.spec_lt(c),
{
}

/// A merged cursor starts no later than either of the cursors it was merged
/// from.
pub proof fn lemma_merge_start(a: Cursor, b: Cursor)
    requires
        a.spec_merge(b) is Some,
    ensures
        a.spec_merge(b)->0.spec_start().position.spec_le(a.spec_start().position),
        a.spec_merge(b)->0.spec_start().position.spec_le(b.spec_start().position),
{
}

/// When the two cursors point the same way, the merged cursor covers both of
/// them.
pub proof fn lemma_merge_covers(a: Cursor, b: Cursor)
    requires
        a.spec_merge(b) is Some,
        (a.is_forward() && b.is_forward()) || (a.is_backward() && b.is_backward()),
    ensures
        a.spec_merge(b)->0.spec_start().position.spec_le(a.spec_start().position),
        a.spec_merge(b)->0.spec_start().position.spec_le(b.spec_start().position),
        a.spec_end().position.spec_le(a.spec_merge(b)->0.spec_end().position),
        b.spec_end().position.spec_le(a.spec_merge(b)->0.spec_end().position),
{
}

/// A cursor merges with itself into itself, unless it is a selection whose
/// two ends lie at the same text position.
pub proof fn lemma_merge_self(a: Cursor)
    requires
        a.spec_is_empty() || a.caret.position != a.anchor.position,
    ensures
        a.spec_merge(a) == Some(a),
{
}


/// Moving the caret right and then left brings it back to where it was, from
/// any grapheme boundary but the end of the text.
pub proof fn lemma_move_right_then_left(lines: Seq<String>, cursor: Cursor, right: Cursor, back: Cursor)
    requires
        cursor.caret_in(lines),
        is_char_boundary(
            line_bytes(lines[cursor.caret.position.line_index as int]),
            cursor.caret.position.byte_index as int,
        ),
        cursor.caret.position.byte_index < line_bytes(lines[cursor.caret.position.line_index as int]).len()
            || cursor.caret.position.line_index + 1 < lines.len(),
        moved_right(lines, cursor, right),
        moved_left(lines, right, back),
    ensures
        back.caret.position == cursor.caret.position,
        back.anchor == cursor.anchor,
{
}

/// Moving the caret left and then right brings it back to where it was, from
/// any grapheme boundary but the start of the text.
pub proof fn lemma_move_left_then_right(lines: Seq<String>, cursor: Cursor, left: Cursor, back: Cursor)
    requires
        cursor.caret_in(lines),
        is_char_boundary(
            line_bytes(lines[cursor.caret.position.line_index as int]),
            cursor.caret.position.byte_index as int,
        ),
        cursor.caret.position.byte_index > 0 || cursor.caret.position.line_index > 0,
        moved_left(lines, cursor, left),
        moved_right(lines, left, back),
    ensures
        back.caret.position == cursor.caret.position,
        back.anchor == cursor.anchor,
{
}

} // verus!
