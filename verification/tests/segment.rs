use code_editor::segment::{utf8_char_width, StrCursor, WordBreak, WordContext};

fn between(prev: WordBreak, next: WordBreak) -> WordContext {
    WordContext {
        is_at_start: false,
        is_at_end: false,
        prev_word_break: Some(prev),
        next_word_break: Some(next),
        next_extended_pictographic: false,
        prev_prev_word_break_skip: None,
        prev_word_break_skip: Some(prev),
        next_word_break_skip: Some(next),
        next_next_word_break_skip: None,
        regional_indicator_count: 0,
    }
}

#[test]
fn boundaries_at_start_and_end_of_text() {
    let mut context = between(WordBreak::ALetter, WordBreak::ALetter);
    context.is_at_start = true;
    assert!(context.is_at_word_boundary());
    let mut context = between(WordBreak::ALetter, WordBreak::ALetter);
    context.is_at_end = true;
    assert!(context.is_at_word_boundary());
}

#[test]
fn no_boundary_within_crlf() {
    assert!(!between(WordBreak::CR, WordBreak::LF).is_at_word_boundary());
    assert!(between(WordBreak::LF, WordBreak::CR).is_at_word_boundary());
    assert!(between(WordBreak::ALetter, WordBreak::Newline).is_at_word_boundary());
}

#[test]
fn no_boundary_within_words_and_numbers() {
    assert!(!between(WordBreak::ALetter, WordBreak::ALetter).is_at_word_boundary());
    assert!(!between(WordBreak::Numeric, WordBreak::Numeric).is_at_word_boundary());
    assert!(!between(WordBreak::ALetter, WordBreak::Numeric).is_at_word_boundary());
    assert!(!between(WordBreak::Katakana, WordBreak::Katakana).is_at_word_boundary());
    assert!(!between(WordBreak::ExtendNumLet, WordBreak::ALetter).is_at_word_boundary());
    assert!(!between(WordBreak::WSegSpace, WordBreak::WSegSpace).is_at_word_boundary());
}

#[test]
fn boundary_around_other_characters() {
    assert!(between(WordBreak::ALetter, WordBreak::Other).is_at_word_boundary());
    assert!(between(WordBreak::Other, WordBreak::Numeric).is_at_word_boundary());
    assert!(between(WordBreak::WSegSpace, WordBreak::ALetter).is_at_word_boundary());
}

#[test]
fn no_boundary_before_extend() {
    assert!(!between(WordBreak::ALetter, WordBreak::Extend).is_at_word_boundary());
    assert!(!between(WordBreak::Other, WordBreak::ZWJ).is_at_word_boundary());
}

#[test]
fn no_boundary_within_emoji_zwj_sequence() {
    let mut context = between(WordBreak::ZWJ, WordBreak::Other);
    context.next_extended_pictographic = true;
    assert!(!context.is_at_word_boundary());
}

#[test]
fn letters_across_a_mid_letter() {
    let mut context = between(WordBreak::ALetter, WordBreak::MidLetter);
    context.next_next_word_break_skip = Some(WordBreak::ALetter);
    assert!(!context.is_at_word_boundary());
    let mut context = between(WordBreak::MidLetter, WordBreak::ALetter);
    context.prev_prev_word_break_skip = Some(WordBreak::ALetter);
    assert!(!context.is_at_word_boundary());
    let context = between(WordBreak::ALetter, WordBreak::MidLetter);
    assert!(context.is_at_word_boundary());
}

#[test]
fn numbers_across_a_mid_num() {
    let mut context = between(WordBreak::Numeric, WordBreak::MidNum);
    context.next_next_word_break_skip = Some(WordBreak::Numeric);
    assert!(!context.is_at_word_boundary());
    let mut context = between(WordBreak::MidNum, WordBreak::Numeric);
    context.prev_prev_word_break_skip = Some(WordBreak::Numeric);
    assert!(!context.is_at_word_boundary());
}

#[test]
fn hebrew_quotes() {
    assert!(!between(WordBreak::HebrewLetter, WordBreak::SingleQuote).is_at_word_boundary());
    let mut context = between(WordBreak::HebrewLetter, WordBreak::DoubleQuote);
    context.next_next_word_break_skip = Some(WordBreak::HebrewLetter);
    assert!(!context.is_at_word_boundary());
}

#[test]
fn regional_indicators_pair_up() {
    let mut context = between(WordBreak::RegionalIndicator, WordBreak::RegionalIndicator);
    context.regional_indicator_count = 1;
    assert!(!context.is_at_word_boundary());
    context.regional_indicator_count = 2;
    assert!(context.is_at_word_boundary());
}

#[test]
fn utf8_widths() {
    assert_eq!(utf8_char_width(b'a'), 1);
    assert_eq!(utf8_char_width(0xC3), 2);
    assert_eq!(utf8_char_width(0xE2), 3);
    assert_eq!(utf8_char_width(0xF0), 4);
}

#[test]
fn str_cursor_steps_over_characters() {
    let text = "aé€😀";
    let mut cursor = StrCursor::front(text);
    assert!(cursor.is_at_start());
    assert_eq!(cursor.current_char(), Some('a'));
    cursor.move_next_char();
    assert_eq!(cursor.byte_position(), 1);
    assert_eq!(cursor.current_char(), Some('é'));
    cursor.move_next_char();
    assert_eq!(cursor.byte_position(), 3);
    cursor.move_next_char();
    assert_eq!(cursor.byte_position(), 6);
    assert_eq!(cursor.current_char(), Some('😀'));
    cursor.move_next_char();
    assert!(cursor.is_at_end());
    assert_eq!(cursor.current_char(), None);
}

#[test]
fn str_cursor_steps_back_over_characters() {
    let text = "aé€😀";
    let mut cursor = StrCursor::back(text);
    assert!(cursor.is_at_end());
    cursor.move_prev_char();
    assert_eq!(cursor.byte_position(), 6);
    cursor.move_prev_char();
    assert_eq!(cursor.byte_position(), 3);
    cursor.move_prev_char();
    assert_eq!(cursor.byte_position(), 1);
    cursor.move_prev_char();
    assert!(cursor.is_at_start());
}

#[test]
fn str_cursor_boundaries() {
    let mut cursor = StrCursor::front("é");
    assert!(cursor.is_at_char_boundary());
    cursor.move_to(1);
    assert!(!cursor.is_at_char_boundary());
    cursor.move_to(2);
    assert!(cursor.is_at_char_boundary());
    assert!(cursor.is_at_end());
}

use code_editor::segment::word_cursor;
use code_editor::segment::word_cursor::{CharProps, WordCursor};

/// Word-break properties of ASCII characters, as the Unicode tables give them.
fn ascii_props(c: char) -> CharProps {
    let word_break = match c {
        'a'..='z' | 'A'..='Z' => WordBreak::ALetter,
        '0'..='9' => WordBreak::Numeric,
        ' ' => WordBreak::WSegSpace,
        '\r' => WordBreak::CR,
        '\n' => WordBreak::LF,
        '.' => WordBreak::MidNumLet,
        '\'' => WordBreak::SingleQuote,
        ':' => WordBreak::MidLetter,
        ',' | ';' => WordBreak::MidNum,
        '_' => WordBreak::ExtendNumLet,
        '"' => WordBreak::DoubleQuote,
        '\u{200D}' => WordBreak::ZWJ,
        '\u{301}' => WordBreak::Extend,
        '\u{AD}' => WordBreak::Format,
        '\u{1F1E6}'..='\u{1F1FF}' => WordBreak::RegionalIndicator,
        _ => WordBreak::Other,
    };
    CharProps { word_break, extended_pictographic: c == '\u{1F600}' }
}

fn split(text: &str) -> Vec<&str> {
    let mut iter = word_cursor::words(text, &ascii_props);
    let mut result = Vec::new();
    while let Some(word) = iter.next() {
        result.push(word);
    }
    result
}

fn split_rev(text: &str) -> Vec<&str> {
    let mut iter = word_cursor::words(text, &ascii_props);
    let mut result = Vec::new();
    while let Some(word) = iter.next_back() {
        result.push(word);
    }
    result
}

#[test]
fn words_of_a_sentence() {
    assert_eq!(split("hello world"), vec!["hello", " ", "world"]);
    assert_eq!(split("can't stop"), vec!["can't", " ", "stop"]);
    assert_eq!(split("pi is 3.14, e is 2,718"), vec!["pi", " ", "is", " ", "3.14", ",", " ", "e", " ", "is", " ", "2,718"]);
    assert_eq!(split("snake_case42"), vec!["snake_case42"]);
    assert_eq!(split(""), Vec::<&str>::new());
}

#[test]
fn words_keep_crlf_and_spaces_together() {
    assert_eq!(split("a\r\nb"), vec!["a", "\r\n", "b"]);
    assert_eq!(split("a   b"), vec!["a", "   ", "b"]);
}

#[test]
fn words_skip_extend_and_format() {
    assert_eq!(split("cafe\u{301} ok"), vec!["cafe\u{301}", " ", "ok"]);
    assert_eq!(split("ab\u{AD}cd"), vec!["ab\u{AD}cd"]);
}

#[test]
fn words_pair_regional_indicators() {
    let flags = "\u{1F1E6}\u{1F1E7}\u{1F1E8}\u{1F1E9}\u{1F1EA}";
    assert_eq!(split(flags), vec!["\u{1F1E6}\u{1F1E7}", "\u{1F1E8}\u{1F1E9}", "\u{1F1EA}"]);
}

#[test]
fn words_from_the_back_are_the_words_reversed() {
    for text in ["hello world", "pi is 3.14, e is 2,718", "a\r\nb", "cafe\u{301} ok", "x  y_z 9.5.b"] {
        let mut forward = split(text);
        forward.reverse();
        assert_eq!(split_rev(text), forward);
    }
}

#[test]
fn word_cursor_moves_between_boundaries() {
    let text = "one two";
    let mut cursor = WordCursor::new(StrCursor::front(text), &ascii_props);
    assert!(cursor.is_at_start());
    assert!(cursor.is_at_word_boundary());
    cursor.move_next_word(&ascii_props);
    assert_eq!(cursor.byte_position(), 3);
    cursor.move_next_word(&ascii_props);
    assert_eq!(cursor.byte_position(), 4);
    cursor.move_next_word(&ascii_props);
    assert!(cursor.is_at_end());
    cursor.move_prev_word(&ascii_props);
    assert_eq!(cursor.byte_position(), 4);
    cursor.move_to(1, &ascii_props);
    assert!(!cursor.is_at_word_boundary());
    cursor.move_prev_word(&ascii_props);
    assert!(cursor.is_at_start());
}

/// Texts split into their words, by the word-break properties of
/// `ascii_props`.
const WORD: &[&[&str]] = &[
    &["hello", " ", "world"],
    &["can't", " ", "stop"],
    &["3.14", ",", " ", "2,718"],
    &["a", "\r\n", "b"],
    &["snake_case42"],
    &["x", "  ", "y", "!", "?"],
    &["e.g", ".", " ", "U.S.A", "."],
    &["\u{1F1E6}\u{1F1E7}", "\u{1F1E8}"],
    &["cafe\u{301}", ":\u{200D}"],
];

#[test]
fn words() {
    for test in WORD {
        let string = test.join("");
        assert_eq!(split(&string), test.to_vec());
    }
}

#[test]
fn words_rev() {
    for test in WORD {
        let string = test.join("");
        assert_eq!(split_rev(&string), test.iter().rev().cloned().collect::<Vec<_>>());
    }
}

#[test]
fn words_put_together_give_the_text_back() {
    for text in ["hello world", "pi is 3.14, e is 2,718", "a\r\nb", "cafe\u{301} ok", "", "\u{1F1E6}\u{1F1E7}\u{1F1E8}"] {
        assert_eq!(split(text).concat(), text);
        assert_eq!(split_rev(text).into_iter().rev().collect::<Vec<_>>().concat(), text);
    }
}

#[test]
fn words_from_both_ends_meet() {
    let mut iter = word_cursor::words("one two three", &ascii_props);
    assert_eq!(iter.next(), Some("one"));
    assert_eq!(iter.next_back(), Some("three"));
    assert_eq!(iter.next(), Some(" "));
    assert_eq!(iter.next_back(), Some(" "));
    assert_eq!(iter.next(), Some("two"));
    assert_eq!(iter.next(), None);
    assert_eq!(iter.next_back(), None);
}

#[test]
fn no_boundary_in_empty_text() {
    let mut context = between(WordBreak::ALetter, WordBreak::ALetter);
    context.is_at_start = true;
    context.is_at_end = true;
    assert!(!context.is_at_word_boundary());
    let cursor = WordCursor::new(StrCursor::front(""), &ascii_props);
    assert!(!cursor.is_at_word_boundary());
    assert_eq!(split(""), Vec::<&str>::new());
    assert_eq!(split_rev(""), Vec::<&str>::new());
}

#[test]
fn collected_words_are_nonempty_and_join_to_the_text() {
    for test in WORD {
        let string = test.join("");
        let words = word_cursor::words(&string, &ascii_props).collect_front();
        assert_eq!(words, test.to_vec());
        assert!(words.iter().all(|word| !word.is_empty()));
        assert_eq!(words.concat(), string);
    }
}

#[test]
fn collected_words_from_the_back_are_reversed() {
    for test in WORD {
        let string = test.join("");
        let mut forward = word_cursor::words(&string, &ascii_props).collect_front();
        forward.reverse();
        assert_eq!(word_cursor::words(&string, &ascii_props).collect_back(), forward);
    }
    let mut iter = word_cursor::words("one two three", &ascii_props);
    assert_eq!(iter.next(), Some("one"));
    assert_eq!(iter.collect_back(), vec!["three", " ", "two", " "]);
}
