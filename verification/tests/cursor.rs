use code_editor::cursor::{Affinity, Context, Cursor, Position};
use code_editor::cursor_set::CursorSet;
use code_editor::text::{self, DeltaDesc, Range, Size};

fn at(line_index: usize, byte_index: usize, affinity: Affinity) -> Position {
    Position { position: text::Position { line_index, byte_index }, affinity }
}

fn before(line_index: usize, byte_index: usize) -> Position {
    at(line_index, byte_index, Affinity::Before)
}

fn after(line_index: usize, byte_index: usize) -> Position {
    at(line_index, byte_index, Affinity::After)
}

fn caret(position: Position) -> Cursor {
    Cursor { caret: position, anchor: position }
}

fn lines(text: &[&str]) -> Vec<String> {
    text.iter().map(|line| line.to_string()).collect()
}

fn collect(set: &CursorSet) -> Vec<Cursor> {
    let mut iter = set.iter();
    let mut cursors = Vec::new();
    while let Some(cursor) = iter.next() {
        cursors.push(cursor);
    }
    cursors
}

#[test]
fn default_affinity_is_before() {
    assert_eq!(Affinity::default(), Affinity::Before);
}

#[test]
fn position_order_puts_before_ahead_of_after() {
    assert!(before(1, 2).is_before(after(1, 2)));
    assert!(!after(1, 2).is_before(before(1, 2)));
    assert!(after(1, 1).is_before(before(1, 2)));
    assert_eq!(after(1, 2).min_position(before(1, 2)), before(1, 2));
    assert_eq!(after(1, 2).max_position(before(1, 2)), after(1, 2));
}

#[test]
fn right_before_and_right_after() {
    let p = text::Position { line_index: 0, byte_index: 3 };
    assert!(before(0, 3).is_right_before(p));
    assert!(!before(0, 3).is_right_after(p));
    assert!(after(0, 3).is_right_after(p));
    assert!(!after(0, 4).is_right_after(p));
}

#[test]
fn cursor_position_apply_delta_keeps_affinity() {
    let desc = DeltaDesc {
        range: Range {
            start: text::Position { line_index: 0, byte_index: 1 },
            end: text::Position { line_index: 0, byte_index: 2 },
        },
        replace_with_len: Size { line_count: 0, byte_count: 5 },
    };
    assert_eq!(after(0, 2).apply_delta(desc), after(0, 6));
    assert_eq!(before(0, 0).apply_delta(desc), before(0, 0));
}

#[test]
fn cursor_queries() {
    let text = lines(&["ab", "cde"]);
    let context = Context { lines: &text };
    let cursor = Cursor { caret: before(1, 3), anchor: after(0, 1) };
    assert!(!cursor.is_empty());
    assert!(!cursor.is_at_first_line());
    assert!(cursor.is_at_last_line(&context));
    assert!(!cursor.is_at_start_of_line());
    assert!(cursor.is_at_end_of_line(&context));
    assert_eq!(cursor.start(), after(0, 1));
    assert_eq!(cursor.end(), before(1, 3));
}

#[test]
fn move_left_within_a_line_goes_back_one_character() {
    let text = lines(&["aé"]);
    let context = Context { lines: &text };
    let moved = caret(before(0, 3)).move_left(&context);
    assert_eq!(moved.caret, after(0, 1));
    assert_eq!(moved.anchor, before(0, 3));
}

#[test]
fn move_left_at_line_start_goes_to_previous_line_end() {
    let text = lines(&["abc", "d"]);
    let context = Context { lines: &text };
    let moved = caret(before(1, 0)).move_left(&context);
    assert_eq!(moved.caret.position, text::Position { line_index: 0, byte_index: 3 });
}

#[test]
fn move_left_at_text_start_stays() {
    let text = lines(&["abc"]);
    let context = Context { lines: &text };
    let moved = caret(before(0, 0)).move_left(&context);
    assert_eq!(moved.caret.position, text::Position { line_index: 0, byte_index: 0 });
}

#[test]
fn move_right_within_a_line_goes_on_one_character() {
    let text = lines(&["éa"]);
    let context = Context { lines: &text };
    let moved = caret(after(0, 0)).move_right(&context);
    assert_eq!(moved.caret, before(0, 2));
}

#[test]
fn move_right_at_line_end_goes_to_next_line_start() {
    let text = lines(&["ab", "cd"]);
    let context = Context { lines: &text };
    let moved = caret(before(0, 2)).move_right(&context);
    assert_eq!(moved.caret.position, text::Position { line_index: 1, byte_index: 0 });
}

#[test]
fn move_right_at_text_end_stays() {
    let text = lines(&["ab"]);
    let context = Context { lines: &text };
    let moved = caret(before(0, 2)).move_right(&context);
    assert_eq!(moved.caret.position, text::Position { line_index: 0, byte_index: 2 });
}

#[test]
fn merge_carets_at_the_same_place() {
    let a = caret(before(0, 1));
    let b = caret(after(0, 1));
    assert_eq!(a.merge(b), Some(a));
}

#[test]
fn merge_overlapping_selections() {
    let a = Cursor { caret: before(0, 1), anchor: before(0, 4) };
    let b = Cursor { caret: before(0, 3), anchor: before(0, 6) };
    assert_eq!(a.merge(b), Some(Cursor { caret: before(0, 1), anchor: before(0, 6) }));
    assert_eq!(b.merge(a), Some(Cursor { caret: before(0, 1), anchor: before(0, 6) }));
}

#[test]
fn merge_keeps_apart_cursors_apart() {
    let a = Cursor { caret: before(0, 1), anchor: before(0, 2) };
    let b = Cursor { caret: before(0, 3), anchor: before(0, 6) };
    assert_eq!(a.merge(b), None);
    assert_eq!(caret(before(0, 1)).merge(caret(before(0, 2))), None);
}

#[test]
fn merge_caret_inside_selection() {
    let a = Cursor { caret: before(0, 1), anchor: before(0, 4) };
    let b = caret(before(0, 3));
    assert_eq!(a.merge(b), Some(a));
}

#[test]
fn merge_with_itself() {
    let a = Cursor { caret: before(2, 1), anchor: after(3, 4) };
    assert_eq!(a.merge(a), Some(a));
}

#[test]
fn cursor_apply_delta() {
    let desc = DeltaDesc {
        range: Range {
            start: text::Position { line_index: 0, byte_index: 0 },
            end: text::Position { line_index: 0, byte_index: 0 },
        },
        replace_with_len: Size { line_count: 1, byte_count: 0 },
    };
    let cursor = Cursor { caret: before(0, 0), anchor: before(0, 0) };
    let moved = cursor.apply_delta(desc);
    assert_eq!(moved.caret, before(1, 0));
    assert_eq!(moved.anchor, before(1, 0));
}

#[test]
fn start_key_orders_by_start() {
    let a = Cursor { caret: after(1, 2), anchor: before(4, 0) };
    assert_eq!(a.start_key(), (1, 2, 1));
    let b = caret(before(1, 2));
    assert_eq!(b.start_key(), (1, 2, 0));
    assert!(b.start_key() < a.start_key());
}

#[test]
fn new_cursor_set_is_empty() {
    let set = CursorSet::new();
    assert!(set.is_empty());
    assert_eq!(set.len(), 0);
    assert!(collect(&set).is_empty());
}

#[test]
fn insert_keeps_cursors_ordered() {
    let mut set = CursorSet::new();
    set.insert(caret(before(2, 0)));
    set.insert(caret(before(0, 5)));
    set.insert(caret(before(1, 1)));
    assert_eq!(
        collect(&set),
        vec![caret(before(0, 5)), caret(before(1, 1)), caret(before(2, 0))]
    );
    assert_eq!(set.len(), 3);
}

#[test]
fn insert_merges_with_overlapping_cursors() {
    let mut set = CursorSet::new();
    set.insert(Cursor { caret: before(0, 0), anchor: before(0, 3) });
    set.insert(Cursor { caret: before(0, 5), anchor: before(0, 8) });
    set.insert(Cursor { caret: before(0, 2), anchor: before(0, 6) });
    assert_eq!(collect(&set), vec![Cursor { caret: before(0, 0), anchor: before(0, 8) }]);
}

#[test]
fn update_moves_sorts_and_merges() {
    let mut set = CursorSet::from_cursors(vec![caret(before(0, 1)), caret(before(0, 4)), caret(before(0, 9))]);
    set.update(|cursor| {
        if cursor.caret.position.byte_index == 9 {
            caret(before(0, 0))
        } else {
            caret(before(0, 4))
        }
    });
    assert_eq!(collect(&set), vec![caret(before(0, 0)), caret(before(0, 4))]);
}

#[test]
fn retain_drops_cursors() {
    let mut set = CursorSet::from_cursors(vec![caret(before(0, 1)), caret(before(1, 4)), caret(before(2, 9))]);
    set.retain(|cursor| cursor.caret.position.line_index != 1);
    assert_eq!(collect(&set), vec![caret(before(0, 1)), caret(before(2, 9))]);
}

#[test]
fn clear_empties_the_set() {
    let mut set = CursorSet::from_cursors(vec![caret(before(0, 1))]);
    set.clear();
    assert!(set.is_empty());
}

#[test]
fn extend_adds_and_merges() {
    let mut set = CursorSet::from_cursors(vec![caret(before(3, 1))]);
    set.extend(vec![caret(before(0, 0)), caret(before(3, 1))]);
    assert_eq!(collect(&set), vec![caret(before(0, 0)), caret(before(3, 1))]);
}

#[test]
fn no_two_cursors_of_a_set_merge() {
    let mut set = CursorSet::from_cursors(vec![
        Cursor { caret: before(0, 0), anchor: before(0, 3) },
        caret(before(0, 3)),
        Cursor { caret: before(0, 3), anchor: before(0, 5) },
        caret(before(0, 7)),
        Cursor { caret: before(1, 4), anchor: before(1, 1) },
        caret(before(1, 2)),
    ]);
    set.insert(caret(before(0, 9)));
    set.insert(Cursor { caret: before(0, 6), anchor: before(0, 8) });
    set.retain(|cursor| cursor.caret.position.byte_index != 9);
    let cursors = collect(&set);
    for i in 0..cursors.len() {
        for j in i + 1..cursors.len() {
            assert_eq!(cursors[i].merge(cursors[j]), None);
        }
    }
    assert_eq!(
        cursors,
        vec![
            Cursor { caret: before(0, 0), anchor: before(0, 3) },
            Cursor { caret: before(0, 3), anchor: before(0, 5) },
            Cursor { caret: before(0, 6), anchor: before(0, 8) },
            Cursor { caret: before(1, 4), anchor: before(1, 1) },
        ]
    );
}

#[test]
fn move_right_then_left_comes_back() {
    let text = lines(&["aé", "b"]);
    let context = Context { lines: &text };
    for start in [after(0, 0), after(0, 1), after(0, 3), after(1, 0)] {
        let cursor = caret(start);
        let moved = cursor.move_right(&context).move_left(&context);
        assert_eq!(moved.caret.position, start.position);
    }
}

#[test]
fn update_with_the_identity_changes_nothing() {
    let mut set = CursorSet::from_cursors(vec![
        Cursor { caret: before(0, 4), anchor: before(0, 1) },
        caret(before(0, 4)),
        caret(before(2, 0)),
        Cursor { caret: before(1, 0), anchor: before(1, 3) },
    ]);
    let first = collect(&set);
    set.update(|cursor| cursor);
    assert_eq!(collect(&set), first);
    set.extend(Vec::new());
    assert_eq!(collect(&set), first);
}
