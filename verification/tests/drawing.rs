use code_editor::cursor::{Affinity, Cursor, Position};
use code_editor::cursor_set::CursorSet;
use code_editor::drawer::{draw_text, CellRect, DrawCommand};
use code_editor::text;

fn at(line_index: usize, byte_index: usize) -> Position {
    Position { position: text::Position { line_index, byte_index }, affinity: Affinity::Before }
}

fn lines(text: &[&str]) -> Vec<String> {
    text.iter().map(|line| line.to_string()).collect()
}

fn rect(row: usize, start_column: usize, end_column: usize) -> CellRect {
    CellRect { row, start_column, end_column }
}

#[test]
fn graphemes_without_cursors() {
    let text = lines(&["ab", "", "é"]);
    let cursors = CursorSet::new();
    let commands = draw_text(&text, &cursors);
    assert_eq!(
        commands,
        vec![
            DrawCommand::Grapheme { row: 0, column: 0, grapheme: "a" },
            DrawCommand::Grapheme { row: 0, column: 1, grapheme: "b" },
            DrawCommand::Grapheme { row: 2, column: 0, grapheme: "é" },
        ]
    );
}

#[test]
fn caret_inside_a_line() {
    let text = lines(&["ab"]);
    let cursors = CursorSet::from_cursors(vec![Cursor { caret: at(0, 1), anchor: at(0, 1) }]);
    let commands = draw_text(&text, &cursors);
    assert_eq!(
        commands,
        vec![
            DrawCommand::Grapheme { row: 0, column: 0, grapheme: "a" },
            DrawCommand::Selection { rect: rect(0, 1, 1), prev: None, next: None },
            DrawCommand::Caret { row: 0, column: 1 },
            DrawCommand::Grapheme { row: 0, column: 1, grapheme: "b" },
        ]
    );
}

#[test]
fn selection_over_a_line_break() {
    let text = lines(&["ab", "cd"]);
    let cursors = CursorSet::from_cursors(vec![Cursor { caret: at(1, 1), anchor: at(0, 1) }]);
    let commands = draw_text(&text, &cursors);
    assert_eq!(
        commands,
        vec![
            DrawCommand::Grapheme { row: 0, column: 0, grapheme: "a" },
            DrawCommand::Grapheme { row: 0, column: 1, grapheme: "b" },
            DrawCommand::Grapheme { row: 1, column: 0, grapheme: "c" },
            DrawCommand::Selection { rect: rect(0, 1, 2), prev: None, next: Some(rect(1, 0, 1)) },
            DrawCommand::Selection { rect: rect(1, 0, 1), prev: Some(rect(0, 1, 2)), next: None },
            DrawCommand::Caret { row: 1, column: 1 },
            DrawCommand::Grapheme { row: 1, column: 1, grapheme: "d" },
        ]
    );
}

#[test]
fn a_cursor_starting_after_a_position_holds_back_the_rest() {
    let text = lines(&["abc"]);
    let after = Position { position: text::Position { line_index: 0, byte_index: 1 }, affinity: Affinity::After };
    let cursors = CursorSet::from_cursors(vec![
        Cursor { caret: after, anchor: after },
        Cursor { caret: at(0, 2), anchor: at(0, 2) },
    ]);
    let commands = draw_text(&text, &cursors);
    assert_eq!(
        commands,
        vec![
            DrawCommand::Grapheme { row: 0, column: 0, grapheme: "a" },
            DrawCommand::Grapheme { row: 0, column: 1, grapheme: "b" },
            DrawCommand::Grapheme { row: 0, column: 2, grapheme: "c" },
        ]
    );
}

use code_editor::line_numbers::linenum_fill;

fn linenum(line: usize) -> String {
    let mut buf = vec!['x'];
    linenum_fill(&mut buf, line);
    buf.into_iter().collect()
}

#[test]
fn line_numbers_are_right_aligned_in_five_columns() {
    assert_eq!(linenum(7), "    7");
    assert_eq!(linenum(120), "  120");
    assert_eq!(linenum(10001), "10001");
    assert_eq!(linenum(0), "     ");
    assert_eq!(linenum(123456), "23456");
}
