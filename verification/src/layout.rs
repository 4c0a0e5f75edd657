use vstd::prelude::*;
use vstd::string::{StrSliceExecFns, StringSliceAdditionalSpecFns};
use vstd::utf8::*;
use crate::char_ext::CharExt;
use crate::str_ext::{lemma_prefix_byte_len_step, prefix_byte_len, Graphemes};

verus! {

/// A position in the laid-out text: a row and a column.
#[derive(Clone, Copy, Debug, Default, PartialEq, Eq, Structural, Hash, PartialOrd, Ord)]
pub struct Position {
    pub row_index: usize,
    pub column_index: usize,
}

/// What happens at a point of the layout.
#[derive(Clone, Copy, Debug, PartialEq, Eq, Structural, Hash)]
pub enum EventKind {
    VirtualLineStart,
    VirtualLineEnd,
    GraphemeStart,
    GraphemeEnd,
}

/// A point of the layout: what happens there, at which byte of the line and
/// at which position, and the string it concerns.
#[derive(Clone, Copy, Debug, PartialEq, Eq, Hash)]
pub struct Event<'a> {
    pub kind: EventKind,
    pub byte_index: usize,
    pub position: Position,
    pub string: &'a str,
}

/// Lays out lines, keeping track of the byte index and the position reached.
#[derive(Clone, Copy, Debug, Default, PartialEq, Eq, Hash)]
pub struct Layouter {
    byte_index: usize,
    position: Position,
}

/// The events of laying out a line that starts at row `row`: the start of the
/// line, the start and the end of each grapheme, and the end of the line.
/// Each grapheme is one character and takes up one column.
pub open spec fn layout_events_ok<'a>(line: &'a str, row: usize, events: Seq<Event<'a>>) -> bool {
    let chars = line@;
    let n = chars.len() as int;
    &&& events.len() == 2 * n + 2
    &&& events[0].kind == EventKind::VirtualLineStart
    &&& events[0].byte_index == 0
    &&& events[0].position == Position { row_index: row, column_index: 0 }
    &&& events[0].string@ == chars
    &&& forall|k: int|
        #![trigger events[1 + 2 * k]]
        0 <= k < n ==> {
            &&& events[1 + 2 * k].kind == EventKind::GraphemeStart
            &&& events[1 + 2 * k].byte_index == prefix_byte_len(chars, k)
            &&& events[1 + 2 * k].position == Position { row_index: row, column_index: k as usize }
            &&& events[1 + 2 * k].string@ == seq![chars[k]]
            &&& events[2 + 2 * k].kind == EventKind::GraphemeEnd
            &&& events[2 + 2 * k].byte_index == prefix_byte_len(chars, k + 1)
            &&& events[2 + 2 * k].position == Position {
                row_index: row,
                column_index: (k + 1) as usize,
            }
            &&& events[2 + 2 * k].string@ == seq![chars[k]]
        }
    &&& events[2 * n + 1].kind == EventKind::VirtualLineEnd
    &&& events[2 * n + 1].byte_index == encode_utf8(chars).len()
    &&& events[2 * n + 1].position == Position { row_index: row, column_index: n as usize }
    &&& events[2 * n + 1].string@ == chars
}

impl Layouter {
    fn layout_line<'a>(&mut self, line: &'a str, events: &mut Vec<Event<'a>>)
        requires
            old(self).byte_index == 0,
            old(self).position.column_index == 0,
            old(self).position.row_index < usize::MAX,
            old(events)@.len() == 0,
        ensures
            layout_events_ok(line, old(self).position.row_index, final(events)@),
            final(self).position.row_index == old(self).position.row_index + 1,
            final(self).position.column_index == 0,
            final(self).byte_index == encode_utf8(line@).len(),
    {
        self.layout_virtual_line(line, events);
    }

    fn layout_virtual_line<'a>(&mut self, virtual_line: &'a str, events: &mut Vec<Event<'a>>)
        requires
            old(self).byte_index == 0,
            old(self).position.column_index == 0,
            old(self).position.row_index < usize::MAX,
            old(events)@.len() == 0,
        ensures
            layout_events_ok(virtual_line, old(self).position.row_index, final(events)@),
            final(self).position.row_index == old(self).position.row_index + 1,
            final(self).position.column_index == 0,
            final(self).byte_index == encode_utf8(virtual_line@).len(),
    {
        broadcast use vstd::utf8::group_utf8_lib;

        let ghost chars = virtual_line@;
        let ghost row = self.position.row_index;
        let bytes = virtual_line.as_bytes();
        // The length is read for the bound it gives: it fits in a usize.
        let _len = bytes.len();
        self.dispatch_event(EventKind::VirtualLineStart, virtual_line, events);
        let mut graphemes = Graphemes::new(virtual_line);
        let mut k: usize = 0;
        loop
            invariant
                graphemes.rest() == chars.skip(k as int),
                k <= chars.len(),
                chars == virtual_line@,
                encode_utf8(chars).len() <= usize::MAX,
                self.position == (Position { row_index: row, column_index: k }),
                self.byte_index == prefix_byte_len(chars, k as int),
                k <= prefix_byte_len(chars, k as int),
                events@.len() == 2 * k + 1,
                events@[0].kind == EventKind::VirtualLineStart,
                events@[0].byte_index == 0,
                events@[0].position == (Position { row_index: row, column_index: 0 }),
                events@[0].string@ == chars,
                forall|j: int|
                    #![trigger events@[1 + 2 * j]]
                    0 <= j < k ==> {
                        &&& events@[1 + 2 * j].kind == EventKind::GraphemeStart
                        &&& events@[1 + 2 * j].byte_index == prefix_byte_len(chars, j)
                        &&& events@[1 + 2 * j].position == Position {
                            row_index: row,
                            column_index: j as usize,
                        }
                        &&& events@[1 + 2 * j].string@ == seq![chars[j]]
                        &&& events@[2 + 2 * j].kind == EventKind::GraphemeEnd
                        &&& events@[2 + 2 * j].byte_index == prefix_byte_len(chars, j + 1)
                        &&& events@[2 + 2 * j].position == Position {
                            row_index: row,
                            column_index: (j + 1) as usize,
                        }
                        &&& events@[2 + 2 * j].string@ == seq![chars[j]]
                    },
            ensures
                k == chars.len(),
                self.position == (Position { row_index: row, column_index: k }),
                self.byte_index == prefix_byte_len(chars, k as int),
                events@.len() == 2 * k + 1,
                events@[0].kind == EventKind::VirtualLineStart,
                events@[0].byte_index == 0,
                events@[0].position == (Position { row_index: row, column_index: 0 }),
                events@[0].string@ == chars,
                forall|j: int|
                    #![trigger events@[1 + 2 * j]]
                    0 <= j < k ==> {
                        &&& events@[1 + 2 * j].kind == EventKind::GraphemeStart
                        &&& events@[1 + 2 * j].byte_index == prefix_byte_len(chars, j)
                        &&& events@[1 + 2 * j].position == Position {
                            row_index: row,
                            column_index: j as usize,
                        }
                        &&& events@[1 + 2 * j].string@ == seq![chars[j]]
                        &&& events@[2 + 2 * j].kind == EventKind::GraphemeEnd
                        &&& events@[2 + 2 * j].byte_index == prefix_byte_len(chars, j + 1)
                        &&& events@[2 + 2 * j].position == Position {
                            row_index: row,
                            column_index: (j + 1) as usize,
                        }
                        &&& events@[2 + 2 * j].string@ == seq![chars[j]]
                    },
            decreases chars.len() - k,
        {
            let grapheme = match graphemes.next() {
                Some(grapheme) => grapheme,
                None => {
                    proof {
                        assert(chars.skip(k as int).len() == 0);
                    }
                    break;
                },
            };
            proof {
                assert(chars.skip(k as int)[0] == chars[k as int]);
                lemma_prefix_byte_len_step(chars, k as int);
                assert(chars.skip(k as int).drop_first() =~= chars.skip(k + 1));
            }
            let ghost before = events@;
            self.layout_grapheme(grapheme, events);
            proof {
                assert forall|j: int|
                    #![trigger events@[1 + 2 * j]]
                    0 <= j < k + 1 implies {
                        &&& events@[1 + 2 * j].kind == EventKind::GraphemeStart
                        &&& events@[1 + 2 * j].byte_index == prefix_byte_len(chars, j)
                        &&& events@[1 + 2 * j].position == Position {
                            row_index: row,
                            column_index: j as usize,
                        }
                        &&& events@[1 + 2 * j].string@ == seq![chars[j]]
                        &&& events@[2 + 2 * j].kind == EventKind::GraphemeEnd
                        &&& events@[2 + 2 * j].byte_index == prefix_byte_len(chars, j + 1)
                        &&& events@[2 + 2 * j].position == Position {
                            row_index: row,
                            column_index: (j + 1) as usize,
                        }
                        &&& events@[2 + 2 * j].string@ == seq![chars[j]]
                    } by {
                    if j < k {
                        assert(events@[1 + 2 * j] == before[1 + 2 * j]);
                        assert(events@[2 + 2 * j] == before[2 + 2 * j]);
                    }
                }
            }
            k = k + 1;
        }
        proof {
            assert(chars.take(k as int) =~= chars);
        }
        self.dispatch_event(EventKind::VirtualLineEnd, virtual_line, events);
        self.position.row_index = self.position.row_index + 1;
        self.position.column_index = 0;
    }

    fn layout_grapheme<'a>(&mut self, grapheme: &'a str, events: &mut Vec<Event<'a>>)
        requires
            grapheme@.len() == 1,
            old(self).byte_index + encode_utf8(grapheme@).len() <= usize::MAX,
            old(self).position.column_index < usize::MAX,
        ensures
            final(self).byte_index == old(self).byte_index + encode_utf8(grapheme@).len(),
            final(self).position.row_index == old(self).position.row_index,
            final(self).position.column_index == old(self).position.column_index + 1,
            final(events)@ == old(events)@.push(
                Event {
                    kind: EventKind::GraphemeStart,
                    byte_index: old(self).byte_index,
                    position: old(self).position,
                    string: grapheme,
                },
            ).push(
                Event {
                    kind: EventKind::GraphemeEnd,
                    byte_index: final(self).byte_index,
                    position: final(self).position,
                    string: grapheme,
                },
            ),
    {
        self.dispatch_event(EventKind::GraphemeStart, grapheme, events);
        self.byte_index = self.byte_index + crate::str_ext::byte_len(grapheme);
        let char_count = grapheme.unicode_len();
        let mut column_count: usize = 0;
        let mut i: usize = 0;
        while i < char_count
            invariant
                char_count == grapheme@.len(),
                i <= char_count,
                column_count == i,
            decreases char_count - i,
        {
            column_count = column_count + grapheme.get_char(i).column_count();
            i = i + 1;
        }
        self.position.column_index = self.position.column_index + column_count;
        self.dispatch_event(EventKind::GraphemeEnd, grapheme, events);
    }

    fn dispatch_event<'a>(&self, kind: EventKind, string: &'a str, events: &mut Vec<Event<'a>>)
        ensures
            final(events)@ == old(events)@.push(
                Event { kind, byte_index: self.byte_index, position: self.position, string },
            ),
    {
        events.push(Event { position: self.position, byte_index: self.byte_index, string, kind });
    }
}

/// Lays out a line and returns the events of the layout, in order.
pub fn layout_line<'a>(line: &'a str) -> (events: Vec<Event<'a>>)
    ensures
        layout_events_ok(line, 0, events@),
{
    let mut events: Vec<Event<'a>> = Vec::new();
    let mut layouter = Layouter { byte_index: 0, position: Position { row_index: 0, column_index: 0 } };
    layouter.layout_line(line, &mut events);
    events
}

} // verus!
