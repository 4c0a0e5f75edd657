use code_editor::text::{Delta, DeltaDesc, Position, Range, Size};

fn pos(line_index: usize, byte_index: usize) -> Position {
    Position { line_index, byte_index }
}

fn size(line_count: usize, byte_count: usize) -> Size {
    Size { line_count, byte_count }
}

fn lines(text: &[&str]) -> Vec<String> {
    text.iter().map(|line| line.to_string()).collect()
}

#[test]
fn position_plus_size_on_the_same_line() {
    assert_eq!(pos(1, 2) + size(0, 3), pos(1, 5));
}

#[test]
fn position_plus_size_over_lines() {
    assert_eq!(pos(1, 2) + size(2, 3), pos(3, 3));
}

#[test]
fn position_minus_position_is_the_extent_between_them() {
    assert_eq!(pos(1, 2) - pos(1, 7), size(0, 5));
    assert_eq!(pos(1, 2) - pos(4, 7), size(3, 7));
}

#[test]
fn moving_over_the_extent_between_positions_reaches_the_later() {
    let p = pos(2, 4);
    let q = pos(5, 1);
    assert_eq!(p + (p - q), q);
    let r = pos(2, 9);
    assert_eq!(p + (p - r), r);
}

#[test]
fn size_addition() {
    assert_eq!(size(1, 2) + size(0, 3), size(1, 5));
    assert_eq!(size(1, 2) + size(2, 3), size(3, 3));
}

#[test]
fn size_addition_is_associative() {
    let (a, b, c) = (size(1, 2), size(0, 3), size(2, 4));
    assert_eq!((a + b) + c, a + (b + c));
    let (a, b, c) = (size(0, 2), size(0, 3), size(0, 4));
    assert_eq!((a + b) + c, a + (b + c));
}

#[test]
fn zero_size_is_neutral() {
    let a = size(3, 4);
    assert_eq!(a + Size::default(), a);
    assert_eq!(Size::default() + a, a);
}

#[test]
fn size_subtraction() {
    assert_eq!(size(1, 2) - size(1, 7), size(0, 5));
    assert_eq!(size(1, 2) - size(3, 7), size(2, 7));
}

#[test]
fn size_sub_assign_adds() {
    let mut a = size(1, 2);
    a.sub_assign(size(0, 3));
    assert_eq!(a, size(1, 5));
    let mut b = size(1, 2);
    b.add_assign(size(2, 3));
    assert_eq!(b, size(3, 3));
}

#[test]
fn position_add_assign() {
    let mut p = pos(1, 2);
    p.add_assign(size(0, 3));
    assert_eq!(p, pos(1, 5));
}

#[test]
fn position_order() {
    assert!(pos(1, 9).is_before(pos(2, 0)));
    assert!(pos(1, 2).is_before(pos(1, 3)));
    assert!(!pos(1, 3).is_before(pos(1, 3)));
    assert_eq!(pos(1, 3).max_position(pos(0, 9)), pos(1, 3));
}

#[test]
fn range_basics() {
    let range = Range { start: pos(1, 2), end: pos(1, 2) };
    assert!(range.is_empty());
    assert_eq!(range.start(), pos(1, 2));
    assert_eq!(range.end(), pos(1, 2));
    let backwards = Range { start: pos(3, 1), end: pos(1, 2) };
    assert!(!backwards.is_empty());
    assert_eq!(backwards.len(), size(2, 1));
}

#[test]
fn delta_desc_gives_the_extent_of_the_new_text() {
    let delta = Delta {
        range: Range { start: pos(0, 1), end: pos(0, 3) },
        replace_with: lines(&["xy", "zé"]),
    };
    let desc = delta.desc();
    assert_eq!(desc.range, delta.range);
    assert_eq!(desc.replace_with_len, size(1, 3));
}

#[test]
fn apply_replaces_within_a_line() {
    let mut text = lines(&["hello", "world"]);
    let delta = Delta { range: Range { start: pos(0, 1), end: pos(0, 4) }, replace_with: lines(&["ipp"]) };
    delta.apply(&mut text);
    assert_eq!(text, lines(&["hippo", "world"]));
}

#[test]
fn apply_inserts_lines() {
    let mut text = lines(&["abc", "def"]);
    let delta = Delta {
        range: Range { start: pos(0, 1), end: pos(0, 1) },
        replace_with: lines(&["1", "2", "3"]),
    };
    delta.apply(&mut text);
    assert_eq!(text, lines(&["a1", "2", "3bc", "def"]));
}

#[test]
fn apply_joins_lines() {
    let mut text = lines(&["abc", "def", "ghi"]);
    let delta = Delta { range: Range { start: pos(0, 2), end: pos(2, 1) }, replace_with: lines(&[""]) };
    delta.apply(&mut text);
    assert_eq!(text, lines(&["abhi"]));
}

#[test]
fn apply_delta_keeps_positions_before_the_edit() {
    let desc = DeltaDesc { range: Range { start: pos(2, 3), end: pos(2, 5) }, replace_with_len: size(1, 4) };
    assert_eq!(pos(1, 7).apply_delta(desc), pos(1, 7));
    assert_eq!(pos(2, 2).apply_delta(desc), pos(2, 2));
}

#[test]
fn apply_delta_moves_positions_in_the_edit_to_its_end() {
    let desc = DeltaDesc { range: Range { start: pos(2, 3), end: pos(2, 5) }, replace_with_len: size(1, 4) };
    assert_eq!(pos(2, 3).apply_delta(desc), pos(3, 4));
    assert_eq!(pos(2, 4).apply_delta(desc), pos(3, 4));
    assert_eq!(pos(2, 5).apply_delta(desc), pos(3, 4));
}

#[test]
fn apply_delta_keeps_order() {
    let desc = DeltaDesc { range: Range { start: pos(0, 2), end: pos(1, 1) }, replace_with_len: size(0, 6) };
    let p = pos(0, 1).apply_delta(desc);
    let q = pos(0, 3).apply_delta(desc);
    assert!(p.is_before(q));
    assert_eq!(q, pos(0, 8));
}

#[test]
fn range_apply_delta() {
    let desc = DeltaDesc { range: Range { start: pos(0, 2), end: pos(0, 4) }, replace_with_len: size(0, 1) };
    let range = Range { start: pos(0, 1), end: pos(0, 3) };
    assert_eq!(range.apply_delta(desc), Range { start: pos(0, 1), end: pos(0, 3) });
}

#[test]
fn the_text_after_an_edit_follows_its_mapped_end() {
    let mut text = lines(&["hello world", "foo"]);
    let delta = Delta {
        range: Range { start: pos(0, 2), end: pos(0, 5) },
        replace_with: lines(&["XY", "Z"]),
    };
    let desc = delta.desc();
    delta.apply(&mut text);
    assert_eq!(text, lines(&["heXY", "Z world", "foo"]));
    let end = pos(0, 5).apply_delta(desc);
    assert_eq!(end, pos(1, 1));
    assert_eq!(&text[end.line_index][end.byte_index..], " world");
    assert_eq!(&text[0][..2], "he");
}
