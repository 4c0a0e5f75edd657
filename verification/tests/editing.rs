use code_editor::char_ext::CharExt;
use code_editor::layout::{layout_line, EventKind, Position};
use code_editor::sparse_set::SparseSet;
use code_editor::str_ext::{grapheme_indices, graphemes, StrExt};

#[test]
fn every_character_takes_one_column() {
    assert_eq!('a'.column_count(), 1);
    assert_eq!('é'.column_count(), 1);
    assert_eq!('\t'.column_count(), 1);
}

#[test]
fn grapheme_boundaries_are_character_boundaries() {
    let s = "aé";
    assert!(s.is_grapheme_boundary(0));
    assert!(s.is_grapheme_boundary(1));
    assert!(!s.is_grapheme_boundary(2));
    assert!(s.is_grapheme_boundary(3));
    assert_eq!(s.next_grapheme_boundary(0), Some(1));
    assert_eq!(s.next_grapheme_boundary(1), Some(3));
    assert_eq!(s.next_grapheme_boundary(3), None);
    assert_eq!(s.prev_grapheme_boundary(3), Some(1));
    assert_eq!(s.prev_grapheme_boundary(1), Some(0));
    assert_eq!(s.prev_grapheme_boundary(0), None);
}

#[test]
fn graphemes_are_the_characters() {
    let mut iter = graphemes("aé!");
    assert_eq!(iter.next(), Some("a"));
    assert_eq!(iter.next(), Some("é"));
    assert_eq!(iter.next(), Some("!"));
    assert_eq!(iter.next(), None);
    assert_eq!(iter.next(), None);
}

#[test]
fn grapheme_indices_give_byte_offsets() {
    let mut iter = grapheme_indices("aé!");
    assert_eq!(iter.next(), Some((0, "a")));
    assert_eq!(iter.next(), Some((1, "é")));
    assert_eq!(iter.next(), Some((3, "!")));
    assert_eq!(iter.next(), None);
}

#[test]
fn layout_of_an_empty_line() {
    let events = layout_line("");
    assert_eq!(events.len(), 2);
    assert_eq!(events[0].kind, EventKind::VirtualLineStart);
    assert_eq!(events[1].kind, EventKind::VirtualLineEnd);
    assert_eq!(events[1].position, Position { row_index: 0, column_index: 0 });
}

#[test]
fn layout_of_a_line() {
    let events = layout_line("aé");
    let kinds: Vec<EventKind> = events.iter().map(|event| event.kind).collect();
    assert_eq!(
        kinds,
        vec![
            EventKind::VirtualLineStart,
            EventKind::GraphemeStart,
            EventKind::GraphemeEnd,
            EventKind::GraphemeStart,
            EventKind::GraphemeEnd,
            EventKind::VirtualLineEnd,
        ]
    );
    let bytes: Vec<usize> = events.iter().map(|event| event.byte_index).collect();
    assert_eq!(bytes, vec![0, 0, 1, 1, 3, 3]);
    let columns: Vec<usize> = events.iter().map(|event| event.position.column_index).collect();
    assert_eq!(columns, vec![0, 0, 1, 1, 2, 2]);
    assert_eq!(events[3].string, "é");
    assert_eq!(events[0].string, "aé");
}

#[test]
fn sparse_set_insert_and_contains() {
    let mut set = SparseSet::new(8);
    assert!(set.is_empty());
    assert_eq!(set.capacity(), 8);
    assert!(set.insert(5));
    assert!(set.insert(2));
    assert!(!set.insert(5));
    assert!(set.contains(5));
    assert!(set.contains(2));
    assert!(!set.contains(3));
    assert_eq!(set.as_slice(), &[5, 2]);
    assert!(!set.is_empty());
}

#[test]
fn sparse_set_clear() {
    let mut set = SparseSet::new(4);
    set.insert(3);
    set.insert(0);
    set.clear();
    assert!(set.is_empty());
    assert!(!set.contains(3));
    assert_eq!(set.capacity(), 4);
    assert!(set.insert(3));
    assert_eq!(set.as_slice(), &[3]);
}

#[test]
fn sparse_set_iterates_in_insertion_order() {
    let mut set = SparseSet::new(10);
    set.insert(7);
    set.insert(1);
    set.insert(4);
    set.insert(1);
    let mut iter = set.iter();
    assert_eq!(iter.next(), Some(&7));
    assert_eq!(iter.next(), Some(&1));
    assert_eq!(iter.next(), Some(&4));
    assert_eq!(iter.next(), None);
}
