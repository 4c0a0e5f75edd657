use code_editor::regex::ast::{Ast, Quant};
use code_editor::regex::compiler;
use code_editor::regex::parser;

#[test]
fn test() {
    let ast = parser::parse("ab*|(cd)?").unwrap();
    println!("{:#?}", ast);
    let prog = compiler::compile(&ast);
    println!("{:#?}", prog);
}

#[test]
fn parse_alternation_of_concatenations() {
    let ast = parser::parse("ab*|(cd)?").unwrap();
    let expected = Ast::Alt(
        Box::new(Ast::Cat(
            Box::new(Ast::Char('a')),
            Box::new(Ast::Rep(Box::new(Ast::Char('b')), Quant::Star, false)),
        )),
        Box::new(Ast::Rep(
            Box::new(Ast::Cat(Box::new(Ast::Char('c')), Box::new(Ast::Char('d')))),
            Quant::Quest,
            false,
        )),
    );
    assert_eq!(ast, expected);
}

use code_editor::regex::byte_class_set::{Builder, ByteClassSet};
use code_editor::regex::case_folder;
use code_editor::regex::char::CharExt;
use code_editor::regex::dfa::{add_thread, Dfa, Options, Predicates, RunError, StateFlags, DEFAULT_MAX_SIZE};
use code_editor::regex::nfa::Slots;
use code_editor::regex::prog::Instr as ProgInstr;
use code_editor::regex::program::{Instr, Predicate, Program};
use code_editor::regex::range::Range;
use code_editor::regex::str_cursor::StrCursor;
use code_editor::regex::{parse_pattern, Error};
use code_editor::sparse_set::SparseSet;

fn classes(set: &ByteClassSet) -> Vec<u8> {
    (0..=255u8).map(|byte| set.get(byte)).collect()
}

/// A program matching `bytes` in sequence at the cursor, with all bytes in
/// one class.
fn literal(bytes: &[u8]) -> Program {
    let mut instrs = Vec::new();
    for (index, &byte) in bytes.iter().enumerate() {
        instrs.push(Instr::ByteRange(Range::new(byte, byte), index + 1));
    }
    instrs.push(Instr::Match);
    Program { instrs, start: 0, byte_classes: vec![0; 256] }
}

fn run(program: &Program, text: &str, from: usize, options: Options) -> Result<Option<usize>, RunError> {
    let mut dfa = Dfa::new(program);
    let mut cursor = StrCursor::new(text);
    cursor.move_to(from);
    dfa.run(program, cursor, options)
}

#[test]
fn parse_single_characters_and_groups() {
    assert_eq!(parser::parse("a").unwrap(), Ast::Char('a'));
    assert_eq!(parser::parse("").unwrap(), Ast::Empty);
    assert_eq!(parser::parse("()").unwrap(), Ast::Empty);
    assert_eq!(
        parser::parse("a+?").unwrap(),
        Ast::Rep(Box::new(Ast::Char('a')), Quant::Plus, true)
    );
}

#[test]
fn parse_rejects_unclosed_group() {
    assert!(parser::parse("(a").is_err());
    assert_eq!(parse_pattern("(a"), Err(Error::Parse));
    assert_eq!(parse_pattern("ab"), Ok(Ast::Cat(Box::new(Ast::Char('a')), Box::new(Ast::Char('b')))));
}

#[test]
fn compile_ends_in_match() {
    let ast = parser::parse("ab*|(cd)?").unwrap();
    let prog = compiler::compile(&ast);
    assert_eq!(prog.instrs.len(), 8);
    assert_eq!(prog.instrs[prog.instrs.len() - 1], ProgInstr::Match);
    let single = compiler::compile(&Ast::Char('x'));
    assert_eq!(single.instrs.len(), 2);
    assert_eq!(single.instrs[single.start], ProgInstr::Char('x', 1));
    assert_eq!(single.instrs[1], ProgInstr::Match);
}

#[test]
fn compile_lays_out_parts_then_splits() {
    let ast = parser::parse("ab*|(cd)?").unwrap();
    let prog = compiler::compile(&ast);
    assert_eq!(
        prog.instrs,
        vec![
            ProgInstr::Char('a', 2),
            ProgInstr::Char('b', 2),
            ProgInstr::Split(1, 7),
            ProgInstr::Char('c', 4),
            ProgInstr::Char('d', 7),
            ProgInstr::Split(3, 7),
            ProgInstr::Split(0, 5),
            ProgInstr::Match,
        ]
    );
    assert_eq!(prog.start, 6);
}

#[test]
fn compile_non_greedy_and_plus() {
    let lazy = compiler::compile(&Ast::Rep(Box::new(Ast::Char('x')), Quant::Star, true));
    assert_eq!(lazy.instrs, vec![ProgInstr::Char('x', 1), ProgInstr::Split(2, 0), ProgInstr::Match]);
    assert_eq!(lazy.start, 1);
    let plus = compiler::compile(&Ast::Rep(Box::new(Ast::Empty), Quant::Plus, false));
    assert_eq!(plus.instrs, vec![ProgInstr::Empty(1), ProgInstr::Split(0, 2), ProgInstr::Match]);
    assert_eq!(plus.start, 0);
}

#[test]
fn byte_classes_split_at_range_bounds() {
    let mut builder = Builder::new();
    builder.insert(Range::new(b'a', b'c'));
    let set = builder.build();
    assert_eq!(set.get(0), 0);
    assert_eq!(set.get(b'a' - 1), 0);
    assert_eq!(set.get(b'a'), 1);
    assert_eq!(set.get(b'c'), 1);
    assert_eq!(set.get(b'd'), 2);
    assert_eq!(set.get(255), 2);
    assert_eq!(set.len(), 4);
}

#[test]
fn byte_classes_without_ranges() {
    let set = Builder::new().build();
    assert!(classes(&set).iter().all(|&class| class == 0));
    assert_eq!(set.len(), 2);
}

#[test]
fn range_contains_both_ends() {
    let range = Range::new(3u8, 5u8);
    assert!(range.contains(&3));
    assert!(range.contains(&5));
    assert!(!range.contains(&6));
    assert!(!range.contains(&2));
}

#[test]
fn case_folder_widens_to_pairs() {
    let r = case_folder::apply_delta(Range::new(0x41, 0x44), 1);
    assert_eq!((r.start, r.end), (0x40, 0x45));
    let r = case_folder::apply_delta(Range::new(0x42, 0x45), -1);
    assert_eq!((r.start, r.end), (0x42, 0x45));
    let r = case_folder::apply_delta(Range::new(0x41, 0x5A), 32);
    assert_eq!((r.start, r.end), (0x61, 0x7A));
}

#[test]
fn word_characters() {
    assert!('a'.is_ascii_word());
    assert!('Z'.is_ascii_word());
    assert!('7'.is_ascii_word());
    assert!('_'.is_ascii_word());
    assert!(!'-'.is_ascii_word());
    assert!(!'é'.is_ascii_word());
}

#[test]
fn str_cursor_moves_over_bytes_and_chars() {
    let mut cursor = StrCursor::new("aé");
    assert!(cursor.is_at_start_of_text());
    assert_eq!(cursor.peek_prev_byte(), None);
    assert_eq!(cursor.peek_next_byte(), Some(b'a'));
    assert_eq!(cursor.next_byte(), Some(b'a'));
    assert_eq!(cursor.byte_position(), 1);
    assert_eq!(cursor.next_char(), Some('é'));
    assert!(cursor.is_at_end_of_text());
    assert_eq!(cursor.next_byte(), None);
    assert_eq!(cursor.prev_char(), Some('é'));
    assert_eq!(cursor.byte_position(), 1);
    assert_eq!(cursor.prev_byte(), Some(b'a'));
    assert_eq!(cursor.prev_char(), None);
    cursor.move_to(3);
    assert_eq!(cursor.peek_prev_byte(), Some(0xA9));
}

#[test]
fn predicates_as_bits() {
    let none = Predicates::default();
    assert_eq!(none.to_bits(), 0);
    let all = Predicates {
        is_at_start_of_text: true,
        is_at_end_of_text: true,
        is_at_start_of_line: true,
        is_at_end_of_line: true,
        is_at_word_boundary: true,
    };
    assert_eq!(all.to_bits(), 31);
    let some = Predicates { is_at_end_of_text: true, is_at_word_boundary: true, ..Predicates::default() };
    assert_eq!(some.to_bits(), 18);
    assert!(some.evaluate(Predicate::IsAtWordBoundary));
    assert!(!some.evaluate(Predicate::IsNotAtWordBoundary));
    assert!(!some.evaluate(Predicate::IsAtStartOfLine));
}

#[test]
fn state_flags_set_and_read() {
    let mut flags = StateFlags(0);
    assert!(!flags.is_matching());
    flags.set_is_matching();
    flags.set_prev_byte_is_cr();
    assert!(flags.is_matching());
    assert!(flags.prev_byte_is_cr());
    assert!(!flags.prev_byte_is_lf());
    assert!(!flags.is_asserting());
    flags.set_is_asserting();
    flags.set_prev_byte_is_lf();
    flags.set_prev_byte_is_word();
    assert_eq!(flags.0, 31);
}

#[test]
fn add_thread_follows_splits_and_stops_at_failed_assertions() {
    let instrs = vec![
        Instr::Split(1, 2),
        Instr::Match,
        Instr::Assert(Predicate::IsAtStartOfText, 1),
    ];
    let mut threads = SparseSet::new(3);
    let mut flags = StateFlags(0);
    let mut stack = Vec::new();
    add_thread(&mut threads, &instrs, 0, Predicates::default(), &mut flags, &mut stack);
    assert_eq!(threads.as_slice(), &[0, 2]);
    assert!(flags.is_asserting());
}

#[test]
fn add_thread_goes_on_with_the_stack_after_a_passing_assertion() {
    let instrs = vec![Instr::Assert(Predicate::IsAtStartOfText, 1), Instr::Match];
    let predicates = Predicates { is_at_start_of_text: true, ..Predicates::default() };
    let mut threads = SparseSet::new(2);
    let mut flags = StateFlags(0);
    let mut stack = Vec::new();
    add_thread(&mut threads, &instrs, 0, predicates, &mut flags, &mut stack);
    assert_eq!(threads.as_slice(), &[0]);
    assert!(!flags.is_asserting());
    assert!(stack.is_empty());

    let mut threads = SparseSet::new(2);
    let mut stack = vec![1];
    add_thread(&mut threads, &instrs, 0, predicates, &mut flags, &mut stack);
    assert_eq!(threads.as_slice(), &[0, 1]);
    assert!(stack.is_empty());
}

#[test]
fn slots_per_thread() {
    let slots = Slots::new(3, 2);
    assert_eq!(slots.get(1), &[None, None]);
    assert_eq!(slots.get(2).len(), 2);
}

#[test]
fn dfa_finds_a_literal() {
    let program = literal(b"a");
    assert_eq!(run(&program, "a", 0, Options::default()), Ok(Some(1)));
    assert_eq!(run(&program, "b", 0, Options::default()), Ok(None));
    assert_eq!(run(&program, "ba", 1, Options::default()), Ok(Some(2)));
    assert_eq!(run(&program, "", 0, Options::default()), Ok(None));
}

#[test]
fn dfa_reports_where_the_match_ends() {
    let program = literal(b"ab");
    assert_eq!(run(&program, "abc", 0, Options::default()), Ok(Some(2)));
    assert_eq!(run(&program, "ac", 0, Options::default()), Ok(None));
    let options = Options { stop_after_first_match: true, ..Options::default() };
    assert_eq!(run(&program, "abab", 0, options), Ok(Some(2)));
}

#[test]
fn dfa_matches_the_empty_program_at_the_start() {
    let program = Program { instrs: vec![Instr::Match], start: 0, byte_classes: vec![0; 256] };
    assert_eq!(run(&program, "", 0, Options::default()), Ok(Some(0)));
    assert_eq!(run(&program, "xyz", 0, Options::default()), Ok(Some(0)));
    assert_eq!(Options::default().max_size, DEFAULT_MAX_SIZE);
}

#[test]
fn dfa_can_be_run_again() {
    let program = literal(b"ab");
    let mut dfa = Dfa::new(&program);
    assert_eq!(dfa.run(&program, StrCursor::new("ab"), Options::default()), Ok(Some(2)));
    assert_eq!(dfa.run(&program, StrCursor::new("abab"), Options::default()), Ok(Some(2)));
    assert_eq!(dfa.run(&program, StrCursor::new("b"), Options::default()), Ok(None));
}

#[test]
fn dfa_without_match_instruction_never_matches() {
    let program = Program {
        instrs: vec![Instr::ByteRange(Range::new(b'a', b'a'), 0)],
        start: 0,
        byte_classes: vec![0; 256],
    };
    assert_eq!(run(&program, "aaa", 0, Options::default()), Ok(None));
    assert_eq!(run(&program, "", 0, Options::default()), Ok(None));
}

/// With more than one byte class, a state's transitions are read at its
/// index plus the class, and the state behind a pointer is read at the
/// pointer divided by the class count, so a literal of two bytes is not found.
#[test]
fn dfa_reads_states_by_index_and_class() {
    let mut builder = Builder::new();
    builder.insert(Range::new(b'a', b'a'));
    builder.insert(Range::new(b'b', b'b'));
    let byte_classes = classes(&builder.build());
    let program = Program {
        instrs: vec![
            Instr::ByteRange(Range::new(b'a', b'a'), 1),
            Instr::ByteRange(Range::new(b'b', b'b'), 2),
            Instr::Match,
        ],
        start: 0,
        byte_classes,
    };
    assert_eq!(program.byte_class_count(), 4);
    assert_eq!(run(&program, "ab", 0, Options::default()), Ok(None));
    assert_eq!(run(&literal(b"ab"), "ab", 0, Options::default()), Ok(Some(2)));
}

/// A DFA keeps its transitions from one run to the next: once a byte led
/// from the start state to no thread, every byte of its class does.
#[test]
fn dfa_keeps_transitions_between_runs() {
    let program = literal(b"a");
    let mut dfa = Dfa::new(&program);
    assert_eq!(dfa.run(&program, StrCursor::new("b"), Options::default()), Ok(None));
    assert_eq!(dfa.run(&program, StrCursor::new("a"), Options::default()), Ok(None));
    let mut fresh = Dfa::new(&program);
    assert_eq!(fresh.run(&program, StrCursor::new("a"), Options::default()), Ok(Some(1)));
}
