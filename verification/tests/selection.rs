use code_editor::selection::{selection_rects, SelectionRect, SelectionSpan};

fn span(lines: usize, columns: usize, is_included: bool) -> SelectionSpan {
    SelectionSpan { lines, columns, is_included }
}

fn rect(
    line: usize,
    start_column: usize,
    end_column: usize,
    prev: Option<(usize, usize)>,
    next: Option<(usize, usize)>,
) -> SelectionRect {
    SelectionRect { line, start_column, end_column, prev, next }
}

#[test]
fn selection_within_one_line() {
    let lens = vec![3];
    let spans = vec![span(0, 1, false), span(0, 2, true)];
    assert_eq!(selection_rects(&lens, &spans, 0, 1), vec![rect(0, 1, 3, None, None)]);
}

#[test]
fn selection_over_three_lines() {
    let lens = vec![3, 2, 4];
    let spans = vec![span(0, 1, false), span(2, 1, true), span(0, 3, false)];
    assert_eq!(
        selection_rects(&lens, &spans, 0, 3),
        vec![
            rect(0, 1, 4, None, Some((0, 3))),
            rect(1, 0, 3, Some((1, 4)), Some((0, 1))),
            // The last line of the view is joined to the line two lines up.
            rect(2, 0, 1, Some((1, 4)), None),
        ]
    );
}

#[test]
fn selection_seen_from_the_second_line() {
    let lens = vec![3, 2, 4];
    let spans = vec![span(0, 1, false), span(2, 1, true), span(0, 3, false)];
    assert_eq!(
        selection_rects(&lens, &spans, 1, 3),
        vec![rect(1, 0, 3, None, Some((0, 1))), rect(2, 0, 1, None, None)]
    );
}

#[test]
fn two_selections_on_one_line() {
    let lens = vec![6, 1];
    let spans = vec![span(0, 1, true), span(0, 2, false), span(0, 1, true)];
    assert_eq!(
        selection_rects(&lens, &spans, 0, 2),
        vec![rect(0, 0, 1, None, None), rect(0, 3, 4, None, None)]
    );
}

#[test]
fn empty_view_or_no_spans_draw_nothing() {
    let lens = vec![3, 2];
    let spans = vec![span(1, 2, true)];
    assert_eq!(selection_rects(&lens, &spans, 1, 1), vec![]);
    assert_eq!(selection_rects(&lens, &vec![], 0, 2), vec![]);
}
