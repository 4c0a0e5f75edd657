use vstd::prelude::*;
use crate::regex::char::CharExt;
use crate::regex::program::{Instr, InstrPtr, Predicate, Program};
use crate::regex::str_cursor::StrCursor;
use crate::sparse_set::SparseSet;

verus! {

/// Which predicates hold at a position.
#[derive(Clone, Copy, Debug, Default, PartialEq, Eq, Structural)]
pub struct Predicates {
    pub is_at_start_of_text: bool,
    pub is_at_end_of_text: bool,
    pub is_at_start_of_line: bool,
    pub is_at_end_of_line: bool,
    pub is_at_word_boundary: bool,
}

/// `value` if `b` holds, 0 otherwise.
pub open spec fn bit(b: bool, value: int) -> int {
    if b {
        value
    } else {
        0
    }
}

impl Predicates {
    /// The predicates as a bit set, the start of text in bit 0 up to the word
    /// boundary in bit 4.
    pub open spec fn spec_bits(self) -> u8 {
        (bit(self.is_at_start_of_text, 1) + bit(self.is_at_end_of_text, 2) + bit(self.is_at_start_of_line, 4)
            + bit(self.is_at_end_of_line, 8) + bit(self.is_at_word_boundary, 16)) as u8
    }

    /// Whether `predicate` holds.
    pub open spec fn holds(self, predicate: Predicate) -> bool {
        match predicate {
            Predicate::IsAtStartOfText => self.is_at_start_of_text,
            Predicate::IsAtEndOfText => self.is_at_end_of_text,
            Predicate::IsAtStartOfLine => self.is_at_start_of_line,
            Predicate::IsAtEndOfLine => self.is_at_end_of_line,
            Predicate::IsAtWordBoundary => self.is_at_word_boundary,
            Predicate::IsNotAtWordBoundary => !self.is_at_word_boundary,
        }
    }

    pub fn to_bits(self) -> (bits: u8)
        ensures
            bits == self.spec_bits(),
            bits < 32,
    {
        assert((1u8 << 0u8) == 1u8 && (1u8 << 1u8) == 2u8 && (1u8 << 2u8) == 4u8 && (1u8 << 3u8) == 8u8
            && (1u8 << 4u8) == 16u8) by (bit_vector);
        let mut bits: u8 = 0;
        if self.is_at_start_of_text {
            assert(0u8 | 1u8 == 1u8) by (bit_vector);
            bits = bits | 1u8 << 0u8;
        }
        if self.is_at_end_of_text {
            assert(bits < 2 ==> bits | 2u8 == bits + 2) by (bit_vector);
            bits = bits | 1u8 << 1u8;
        }
        if self.is_at_start_of_line {
            assert(bits < 4 ==> bits | 4u8 == bits + 4) by (bit_vector);
            bits = bits | 1u8 << 2u8;
        }
        if self.is_at_end_of_line {
            assert(bits < 8 ==> bits | 8u8 == bits + 8) by (bit_vector);
            bits = bits | 1u8 << 3u8;
        }
        if self.is_at_word_boundary {
            assert(bits < 16 ==> bits | 16u8 == bits + 16) by (bit_vector);
            bits = bits | 1u8 << 4u8;
        }
        bits
    }

    /// Evaluates `predicate`.
    pub fn evaluate(self, predicate: Predicate) -> (b: bool)
        ensures
            b == self.holds(predicate),
    {
        match predicate {
            Predicate::IsAtStartOfText => self.is_at_start_of_text,
            Predicate::IsAtEndOfText => self.is_at_end_of_text,
            Predicate::IsAtStartOfLine => self.is_at_start_of_line,
            Predicate::IsAtEndOfLine => self.is_at_end_of_line,
            Predicate::IsAtWordBoundary => self.is_at_word_boundary,
            Predicate::IsNotAtWordBoundary => !self.is_at_word_boundary,
        }
    }
}

/// Facts about a DFA state, one per bit: matching (bit 0), asserting (bit 1),
/// and whether the previous byte was a line feed (bit 2), a carriage return
/// (bit 3), or a word byte (bit 4).
#[derive(Debug, Default, PartialEq, Eq, Structural)]
pub struct StateFlags(pub u8);

pub open spec fn has_bit(bits: u8, shift: u8) -> bool {
    bits & ((1u8 << shift) as u8) != 0
}

impl StateFlags {
    pub fn is_matching(&self) -> (b: bool)
        ensures
            b == has_bit(self.0, 0),
    {
        self.0 & 1u8 << 0u8 != 0
    }

    pub fn is_asserting(&self) -> (b: bool)
        ensures
            b == has_bit(self.0, 1),
    {
        self.0 & 1u8 << 1u8 != 0
    }

    pub fn prev_byte_is_lf(&self) -> (b: bool)
        ensures
            b == has_bit(self.0, 2),
    {
        self.0 & 1u8 << 2u8 != 0
    }

    pub fn prev_byte_is_cr(&self) -> (b: bool)
        ensures
            b == has_bit(self.0, 3),
    {
        self.0 & 1u8 << 3u8 != 0
    }

    pub fn prev_byte_is_word(&self) -> (b: bool)
        ensures
            b == has_bit(self.0, 4),
    {
        self.0 & 1u8 << 4u8 != 0
    }

    pub fn set_is_matching(&mut self)
        ensures
            final(self).0 == old(self).0 | ((1u8 << 0u8) as u8),
    {
        self.0 = self.0 | 1u8 << 0u8;
    }

    pub fn set_is_asserting(&mut self)
        ensures
            final(self).0 == old(self).0 | ((1u8 << 1u8) as u8),
    {
        self.0 = self.0 | 1u8 << 1u8;
    }

    pub fn set_prev_byte_is_lf(&mut self)
        ensures
            final(self).0 == old(self).0 | ((1u8 << 2u8) as u8),
    {
        self.0 = self.0 | 1u8 << 2u8;
    }

    pub fn set_prev_byte_is_cr(&mut self)
        ensures
            final(self).0 == old(self).0 | ((1u8 << 3u8) as u8),
    {
        self.0 = self.0 | 1u8 << 3u8;
    }

    pub fn set_prev_byte_is_word(&mut self)
        ensures
            final(self).0 == old(self).0 | ((1u8 << 4u8) as u8),
    {
        self.0 = self.0 | 1u8 << 4u8;
    }
}

/// Setting a flag makes it read as set and leaves the other flags as they were.
pub proof fn lemma_set_flag(bits: u8, shift: u8, other: u8)
    requires
        shift < 8,
        other < 8,
    ensures
        has_bit((bits | ((1u8 << shift) as u8)) as u8, shift),
        other != shift ==> has_bit((bits | ((1u8 << shift) as u8)) as u8, other) == has_bit(bits, other),
{
    assert(has_bit((bits | ((1u8 << shift) as u8)) as u8, shift)) by (bit_vector)
        requires
            shift < 8,
    ;
    assert(other != shift ==> has_bit((bits | ((1u8 << shift) as u8)) as u8, other) == has_bit(bits, other))
        by (bit_vector)
        requires
            shift < 8,
            other < 8,
    ;
}

/// The search for threads from the instructions on `stack`, the top one
/// first, with `threads` found so far and the state flags `flags`: it gives
/// the threads, the stack and the flags it ends with.
///
/// The top instruction is taken off the stack. The search ends there when
/// it is already a thread; otherwise it becomes one and is looked at: an
/// assertion that fails sets the asserting flag (bit 1) and ends the search,
/// one that holds lets the search go on with the rest of the stack, a split
/// pushes its second branch and goes on, and any other instruction ends the
/// search.
pub open spec fn thread_search(
    instrs: Seq<Instr>,
    threads: Seq<usize>,
    stack: Seq<InstrPtr>,
    predicates: Predicates,
    flags: u8,
) -> (Seq<usize>, Seq<InstrPtr>, u8)
    decreases instrs.len() - threads.len(),
{
    if stack.len() == 0 {
        (threads, stack, flags)
    } else {
        let p = stack.last();
        let rest = stack.drop_last();
        if threads.contains(p) || instrs.len() <= threads.len() {
            (threads, rest, flags)
        } else {
            let grown = threads.push(p);
            match instrs[p as int] {
                Instr::Assert(predicate, _) => if predicates.holds(predicate) {
                    thread_search(instrs, grown, rest, predicates, flags)
                } else {
                    (grown, rest, flags | 2u8)
                },
                Instr::Split(_, to_1) => thread_search(instrs, grown, rest.push(to_1), predicates, flags),
                _ => (grown, rest, flags),
            }
        }
    }
}

/// A search that starts from one instruction on an empty stack leaves the
/// stack empty.
pub proof fn lemma_thread_search_empties_stack(
    instrs: Seq<Instr>,
    threads: Seq<usize>,
    stack: Seq<InstrPtr>,
    predicates: Predicates,
    flags: u8,
)
    requires
        stack.len() <= 1,
    ensures
        thread_search(instrs, threads, stack, predicates, flags).1.len() == 0,
    decreases instrs.len() - threads.len(),
{
    if stack.len() == 1 {
        let p = stack.last();
        let rest = stack.drop_last();
        if !(threads.contains(p) || instrs.len() <= threads.len()) {
            let grown = threads.push(p);
            match instrs[p as int] {
                Instr::Assert(predicate, _) => {
                    if predicates.holds(predicate) {
                        lemma_thread_search_empties_stack(instrs, grown, rest, predicates, flags);
                    }
                },
                Instr::Split(_, to_1) => {
                    lemma_thread_search_empties_stack(instrs, grown, rest.push(to_1), predicates, flags);
                },
                _ => {},
            }
        }
    }
}

/// No predicate holds: the position after a byte consumed by a range.
pub open spec fn no_predicates() -> Predicates {
    Predicates {
        is_at_start_of_text: false,
        is_at_end_of_text: false,
        is_at_start_of_line: false,
        is_at_end_of_line: false,
        is_at_word_boundary: false,
    }
}

/// The threads and the stack a search ends with do not depend on the flags.
pub proof fn lemma_thread_search_flags(
    instrs: Seq<Instr>,
    threads: Seq<usize>,
    stack: Seq<InstrPtr>,
    predicates: Predicates,
    flags: u8,
    other: u8,
)
    ensures
        thread_search(instrs, threads, stack, predicates, flags).0 == thread_search(
            instrs,
            threads,
            stack,
            predicates,
            other,
        ).0,
        thread_search(instrs, threads, stack, predicates, flags).1 == thread_search(
            instrs,
            threads,
            stack,
            predicates,
            other,
        ).1,
    decreases instrs.len() - threads.len(),
{
    if stack.len() > 0 {
        let p = stack.last();
        let rest = stack.drop_last();
        if !(threads.contains(p) || instrs.len() <= threads.len()) {
            let grown = threads.push(p);
            match instrs[p as int] {
                Instr::Assert(predicate, _) => {
                    if predicates.holds(predicate) {
                        lemma_thread_search_flags(instrs, grown, rest, predicates, flags, other);
                    }
                },
                Instr::Split(_, to_1) => {
                    lemma_thread_search_flags(instrs, grown, rest.push(to_1), predicates, flags, other);
                },
                _ => {},
            }
        }
    }
}

/// The threads with the instructions of `instrs` added in order, those
/// already there skipped.
pub open spec fn insert_all(threads: Seq<usize>, instrs: Seq<usize>) -> Seq<usize>
    decreases instrs.len(),
{
    if instrs.len() == 0 {
        threads
    } else {
        let before = insert_all(threads, instrs.drop_last());
        if before.contains(instrs.last()) {
            before
        } else {
            before.push(instrs.last())
        }
    }
}

/// The threads found by searching from each of `starts` in turn, and the
/// flags after the searches.
pub open spec fn search_each(
    instrs: Seq<Instr>,
    threads: Seq<usize>,
    starts: Seq<usize>,
    predicates: Predicates,
    flags: u8,
) -> (Seq<usize>, u8)
    decreases starts.len(),
{
    if starts.len() == 0 {
        (threads, flags)
    } else {
        let (found, f) = search_each(instrs, threads, starts.drop_last(), predicates, flags);
        let r = thread_search(instrs, found, seq![starts.last()], predicates, f);
        (r.0, r.2)
    }
}

/// How the threads of a state step over `byte` (`None` at the end of the
/// text): a `Match` makes the step a match and, unless the search goes on
/// after the leftmost match, ends it; a byte range that holds the byte
/// searches on from its target; other instructions do nothing. It gives the
/// threads reached, whether the step matched and whether it ended early.
pub open spec fn step_each(
    instrs: Seq<Instr>,
    next: Seq<usize>,
    current: Seq<usize>,
    byte: Option<u8>,
    continue_after_leftmost_match: bool,
) -> (Seq<usize>, bool, bool)
    decreases current.len(),
{
    if current.len() == 0 {
        (next, false, false)
    } else {
        let (found, matched, stopped) = step_each(
            instrs,
            next,
            current.drop_last(),
            byte,
            continue_after_leftmost_match,
        );
        if stopped {
            (found, matched, true)
        } else {
            match instrs[current.last() as int] {
                Instr::Match => (found, true, !continue_after_leftmost_match),
                Instr::ByteRange(range, to) => if byte matches Some(b) && range.start <= b && b <= range.end {
                    (thread_search(instrs, found, seq![to], no_predicates(), 0).0, matched, false)
                } else {
                    (found, matched, false)
                },
                _ => (found, matched, false),
            }
        }
    }
}

/// Adds the threads reachable from `instr_ptr` without consuming input.
///
/// The instruction is added to `threads` and looked at: an assertion that
/// fails marks the state as asserting and ends the search, a split pushes its
/// second branch, and the search goes on with the instruction on top of the
/// stack. It ends at an instruction that is already a thread, and at any
/// other instruction.
pub fn add_thread(
    threads: &mut SparseSet,
    instrs: &[Instr],
    instr_ptr: InstrPtr,
    predicates: Predicates,
    flags: &mut StateFlags,
    stack: &mut Vec<InstrPtr>,
)
    requires
        old(threads).wf(),
        old(threads).spec_capacity() == instrs@.len(),
        forall|i: int| 0 <= i < instrs@.len() ==> #[trigger] instrs@[i].targets_below(instrs@.len()),
        instr_ptr < instrs@.len(),
        forall|i: int| 0 <= i < old(stack)@.len() ==> #[trigger] old(stack)@[i] < instrs@.len(),
    ensures
        final(threads).wf(),
        final(threads).spec_capacity() == old(threads).spec_capacity(),
        old(threads)@ == final(threads)@.take(old(threads)@.len() as int),
        forall|i: int| 0 <= i < final(stack)@.len() ==> #[trigger] final(stack)@[i] < instrs@.len(),
        final(flags).0 == old(flags).0 || final(flags).0 == old(flags).0 | ((1u8 << 1u8) as u8),
        (final(threads)@, final(stack)@, final(flags).0) == thread_search(
            instrs@,
            old(threads)@,
            old(stack)@.push(instr_ptr),
            predicates,
            old(flags).0,
        ),
{
    let ghost start = threads@;
    stack.push(instr_ptr);
    let ghost result = thread_search(instrs@, threads@, stack@, predicates, flags.0);
    assert((1u8 << 1u8) == 2u8) by (bit_vector);
    loop
        invariant_except_break
            flags.0 == old(flags).0,
            thread_search(instrs@, threads@, stack@, predicates, flags.0) == result,
        invariant
            threads.wf(),
            threads.spec_capacity() == instrs@.len(),
            forall|i: int| 0 <= i < instrs@.len() ==> #[trigger] instrs@[i].targets_below(instrs@.len()),
            forall|i: int| 0 <= i < stack@.len() ==> #[trigger] stack@[i] < instrs@.len(),
            start == threads@.take(start.len() as int),
            start.len() <= threads@.len(),
            (1u8 << 1u8) == 2u8,
        ensures
            threads.wf(),
            threads.spec_capacity() == instrs@.len(),
            forall|i: int| 0 <= i < stack@.len() ==> #[trigger] stack@[i] < instrs@.len(),
            start == threads@.take(start.len() as int),
            flags.0 == old(flags).0 || flags.0 == old(flags).0 | ((1u8 << 1u8) as u8),
            (threads@, stack@, flags.0) == result,
        decreases instrs@.len() - threads@.len(),
    {
        proof {
            threads.lemma_wf();
        }
        let ghost stack_before = stack@;
        let current = match stack.pop() {
            Some(current) => current,
            None => break,
        };
        let ghost before = threads@;
        if !threads.insert(current) {
            break;
        }
        proof {
            assert(threads@.take(start.len() as int) =~= before.take(start.len() as int));
            threads.lemma_wf();
            assert(before.len() < instrs@.len());
        }
        match instrs[current] {
            Instr::Assert(predicate, _to) => {
                if !predicates.evaluate(predicate) {
                    flags.set_is_asserting();
                    break;
                }
            },
            Instr::Split(_to_0, to_1) => {
                proof {
                    assert(instrs@[current as int].targets_below(instrs@.len()));
                }
                stack.push(to_1);
            },
            _ => break,
        }
    }
}


/// A pointer to a DFA state, or one of the markers above `MAX_STATE_PTR`.
pub type StatePtr = u32;

/// The highest pointer of a state.
pub const MAX_STATE_PTR: StatePtr = 1073741823;

/// Set on a pointer to a state that is reached by a match.
pub const MATCHING_STATE_FLAG: StatePtr = 1073741824;

/// The transition has not been computed yet.
pub const UNKNOWN_STATE_PTR: StatePtr = 2147483648;

/// No match can follow.
pub const DEAD_STATE_PTR: StatePtr = 2147483649;

/// The cache is full and clearing it would not help.
pub const ERROR_STATE_PTR: StatePtr = 2147483650;

/// The default bound on the size of the cache.
pub const DEFAULT_MAX_SIZE: usize = 1048576;

/// The largest bound on the size of the cache: state pointers hold 30 bits.
pub const MAX_MAX_SIZE: usize = 2147483648;

/// A DFA state: the flags of the position and the threads, in the order in
/// which they were added.
#[derive(Debug)]
pub struct State {
    pub flags: u8,
    pub instrs: Vec<InstrPtr>,
}

impl State {
    /// Every thread is an instruction below `n`.
    pub open spec fn instrs_below(&self, n: nat) -> bool {
        forall|i: int| 0 <= i < self.instrs@.len() ==> #[trigger] self.instrs@[i] < n
    }

    /// The number of bytes the state takes: one for its flags and one for
    /// each thread.
    pub open spec fn spec_size(&self) -> nat {
        1 + self.instrs@.len()
    }

    pub fn new(flags: StateFlags, instrs: &[InstrPtr]) -> (s: Self)
        ensures
            s.flags == flags.0,
            s.instrs@ == instrs@,
    {
        let mut copy: Vec<InstrPtr> = Vec::new();
        let mut i: usize = 0;
        while i < instrs.len()
            invariant
                i <= instrs@.len(),
                copy@ == instrs@.subrange(0, i as int),
            decreases instrs@.len() - i,
        {
            copy.push(instrs[i]);
            i = i + 1;
        }
        Self { flags: flags.0, instrs: copy }
    }

    /// A copy of the state.
    pub fn duplicate(&self) -> (s: Self)
        ensures
            s.flags == self.flags,
            s.instrs@ == self.instrs@,
    {
        Self::new(StateFlags(self.flags), self.instrs.as_slice())
    }

    pub fn size(&self) -> (n: usize)
        ensures
            n == if self.spec_size() > usize::MAX { usize::MAX as nat } else { self.spec_size() },
    {
        self.instrs.len().saturating_add(1)
    }

    pub fn flags(&self) -> (f: StateFlags)
        ensures
            f.0 == self.flags,
    {
        StateFlags(self.flags)
    }

    /// Whether two states have the same flags and threads.
    pub fn same_as(&self, other: &State) -> (b: bool)
        ensures
            b == (self.flags == other.flags && self.instrs@ == other.instrs@),
    {
        if self.flags != other.flags || self.instrs.len() != other.instrs.len() {
            return false;
        }
        let mut i: usize = 0;
        while i < self.instrs.len()
            invariant
                i <= self.instrs@.len(),
                self.instrs@.len() == other.instrs@.len(),
                self.instrs@.subrange(0, i as int) == other.instrs@.subrange(0, i as int),
            decreases self.instrs@.len() - i,
        {
            if self.instrs[i] != other.instrs[i] {
                assert(self.instrs@[i as int] != other.instrs@[i as int]);
                return false;
            }
            assert(self.instrs@.subrange(0, i + 1) == self.instrs@.subrange(0, i as int).push(self.instrs@[i as int]));
            assert(other.instrs@.subrange(0, i + 1) == other.instrs@.subrange(0, i as int).push(other.instrs@[i as int]));
            i = i + 1;
        }
        assert(self.instrs@ == self.instrs@.subrange(0, i as int));
        assert(other.instrs@ == other.instrs@.subrange(0, i as int));
        true
    }
}

/// How a DFA runs.
#[derive(Clone, Copy, Debug)]
pub struct Options {
    /// Stop at the first position where a match ends.
    pub stop_after_first_match: bool,
    /// Go on with the threads after a match in a state, so that a longer match
    /// may follow.
    pub continue_after_leftmost_match: bool,
    /// The size of the cache above which it is cleared.
    pub max_size: usize,
}

impl Default for Options {
    fn default() -> (o: Self)
        ensures
            !o.stop_after_first_match,
            !o.continue_after_leftmost_match,
            o.max_size == DEFAULT_MAX_SIZE,
    {
        Self { stop_after_first_match: false, continue_after_leftmost_match: false, max_size: DEFAULT_MAX_SIZE }
    }
}

/// The DFA gave up: its cache filled up too quickly.
#[derive(Clone, Copy, Debug, PartialEq, Eq, Structural)]
pub struct RunError;

/// Whether `ptr` points to one of `n` states.
pub open spec fn is_state_ptr(ptr: StatePtr, n: nat) -> bool {
    ptr < n
}

/// What a transition may hold: not computed yet, dead, or a state, with or
/// without the matching flag.
pub open spec fn is_transition(t: StatePtr, n: nat) -> bool {
    ||| t == UNKNOWN_STATE_PTR
    ||| t == DEAD_STATE_PTR
    ||| t < n
    ||| (MATCHING_STATE_FLAG <= t && t - MATCHING_STATE_FLAG < n)
}

/// The program has no `Match` instruction.
pub open spec fn never_matches(program: &Program) -> bool {
    forall|i: int| 0 <= i < program.instrs@.len() ==> !(#[trigger] program.instrs@[i] is Match)
}

/// A lazily built DFA: states are made as the text is read, and the
/// transitions between them are remembered.
#[derive(Debug)]
pub struct Dfa {
    start_state_cache: Vec<StatePtr>,
    cached_states: Vec<StatePtr>,
    states: Vec<State>,
    transitions: Vec<StatePtr>,
    current_threads: SparseSet,
    next_threads: SparseSet,
    total_state_size: usize,
    add_thread_stack: Vec<InstrPtr>,
}

impl Dfa {
    /// The number of states.
    pub closed spec fn state_count(&self) -> nat {
        self.states@.len()
    }

    /// Nothing is cached yet and the thread sets are empty: a DFA as `new`
    /// makes it.
    pub closed spec fn is_fresh(&self) -> bool {
        &&& self.states@.len() == 0
        &&& self.cached_states@.len() == 0
        &&& self.transitions@.len() == 0
        &&& forall|i: int| 0 <= i < self.start_state_cache@.len() ==> #[trigger] self.start_state_cache@[i] == UNKNOWN_STATE_PTR
        &&& self.current_threads@.len() == 0
        &&& self.next_threads@.len() == 0
    }

    /// The invariant of a DFA for `program`.
    pub closed spec fn wf(&self, program: &Program) -> bool {
        let n = self.states@.len();
        let instr_count = program.instrs@.len();
        &&& self.start_state_cache@.len() == 32
        &&& forall|i: int|
            0 <= i < 32 ==> #[trigger] self.start_state_cache@[i] == UNKNOWN_STATE_PTR
                || is_state_ptr(self.start_state_cache@[i], n)
        &&& forall|i: int| 0 <= i < self.cached_states@.len() ==> #[trigger] self.cached_states@[i] < n
        &&& n <= MAX_STATE_PTR
        &&& self.transitions@.len() == n * program.spec_byte_class_count()
        &&& forall|i: int| 0 <= i < self.transitions@.len() ==> #[trigger] is_transition(self.transitions@[i], n)
        &&& never_matches(program) ==> forall|i: int|
            0 <= i < self.transitions@.len() ==> #[trigger] self.transitions@[i] < MATCHING_STATE_FLAG
                || self.transitions@[i] == UNKNOWN_STATE_PTR || self.transitions@[i] == DEAD_STATE_PTR
        &&& forall|i: int| 0 <= i < n ==> #[trigger] self.states@[i].instrs_below(instr_count)
        &&& self.current_threads.wf()
        &&& self.current_threads.spec_capacity() == instr_count
        &&& self.next_threads.wf()
        &&& self.next_threads.spec_capacity() == instr_count
        &&& self.add_thread_stack@.len() == 0
    }

    pub fn new(program: &Program) -> (dfa: Self)
        requires
            program.is_runnable(),
        ensures
            dfa.wf(program),
            dfa.state_count() == 0,
            dfa.is_fresh(),
    {
        let mut start_state_cache: Vec<StatePtr> = Vec::new();
        let mut i: usize = 0;
        while i < 32
            invariant
                i <= 32,
                start_state_cache@.len() == i,
                forall|j: int| 0 <= j < i ==> #[trigger] start_state_cache@[j] == UNKNOWN_STATE_PTR,
            decreases 32 - i,
        {
            start_state_cache.push(UNKNOWN_STATE_PTR);
            i = i + 1;
        }
        Self {
            start_state_cache,
            cached_states: Vec::new(),
            states: Vec::new(),
            transitions: Vec::new(),
            current_threads: SparseSet::new(program.instrs.len()),
            next_threads: SparseSet::new(program.instrs.len()),
            total_state_size: 0,
            add_thread_stack: Vec::new(),
        }
    }
}


/// What a DFA holds, as plain values: the start state of each set of
/// predicates, the states in the order they were looked up in, the states
/// with their flags and threads, the transitions of each state pointer and
/// byte class, the two thread sets, and the sizes of the states added up.
#[verifier::ext_equal]
pub struct DfaCache {
    pub start_states: Seq<StatePtr>,
    pub cached: Seq<StatePtr>,
    pub states: Seq<(u8, Seq<usize>)>,
    pub transitions: Seq<StatePtr>,
    pub current: Seq<usize>,
    pub next: Seq<usize>,
    pub total_state_size: usize,
}

/// `a + b`, or `usize::MAX` when that does not fit.
pub open spec fn saturating_sum(a: usize, b: nat) -> usize {
    if a + b > usize::MAX {
        usize::MAX
    } else {
        (a + b) as usize
    }
}

/// Whether a transition is flagged as reached by a match.
pub open spec fn is_flagged(p: StatePtr) -> bool {
    MATCHING_STATE_FLAG <= p < UNKNOWN_STATE_PTR
}

impl DfaCache {
    /// The estimate of the bytes the cache takes (see `Dfa::cache_size`).
    pub open spec fn size(self, program: &Program) -> int {
        32 * 4 + self.cached.len() * (16 + 4) + self.states.len() * 16 + self.transitions.len() * 4 + 2
            * program.instrs@.len() * 8 + self.total_state_size
    }

    /// The cache with `state` appended, all its transitions unknown.
    pub open spec fn with_state(self, program: &Program, state: (u8, Seq<usize>)) -> DfaCache {
        DfaCache {
            states: self.states.push(state),
            transitions: self.transitions + Seq::new(program.spec_byte_class_count(), |j: int| UNKNOWN_STATE_PTR),
            total_state_size: saturating_sum(self.total_state_size, 1 + state.1.len()),
            ..self
        }
    }

    /// The cache emptied of its states, start states and transitions.
    pub open spec fn cleared(self) -> DfaCache {
        DfaCache {
            start_states: Seq::new(32, |i: int| UNKNOWN_STATE_PTR),
            cached: Seq::empty(),
            states: Seq::empty(),
            transitions: Seq::empty(),
            ..self
        }
    }

    /// The first state pointer from the `i`-th looked-up state on whose
    /// state is `state`.
    pub open spec fn find_from(self, state: (u8, Seq<usize>), i: int) -> Option<StatePtr>
        decreases self.cached.len() - i,
    {
        if 0 <= i < self.cached.len() {
            if self.states[self.cached[i] as int] == state {
                Some(self.cached[i])
            } else {
                self.find_from(state, i + 1)
            }
        } else {
            None
        }
    }

    /// `state` appended and looked up.
    pub open spec fn with_cached_state(self, program: &Program, state: (u8, Seq<usize>)) -> (StatePtr, DfaCache) {
        let added = self.with_state(program, state);
        (self.states.len() as StatePtr, DfaCache { cached: added.cached.push(self.states.len() as StatePtr), ..added })
    }

    /// The pointer of `state` in the cache, else of `state` added to it.
    /// When the cache is larger than `max_size` it is first cleared, unless
    /// fewer than ten bytes per state were read (`travelled`), which is an
    /// error; the state that `retained` points to is kept then, first, and
    /// its new pointer comes back.
    pub open spec fn get_or_add(
        self,
        program: &Program,
        state: (u8, Seq<usize>),
        retained: Option<StatePtr>,
        max_size: usize,
        travelled: int,
    ) -> (Result<StatePtr, RunError>, Option<StatePtr>, DfaCache) {
        match self.find_from(state, 0) {
            Some(p) => (Ok(p), retained, self),
            None => if self.size(program) > max_size {
                if travelled < 10 * self.states.len() {
                    (Err(RunError), retained, self)
                } else {
                    match retained {
                        Some(q) => {
                            let kept = self.states[q as int / program.spec_byte_class_count() as int];
                            let with_kept = self.cleared().with_state(program, kept);
                            let (p, added) = with_kept.with_cached_state(program, state);
                            (Ok(p), Some(0), added)
                        },
                        None => {
                            let (p, added) = self.cleared().with_cached_state(program, state);
                            (Ok(p), None, added)
                        },
                    }
                }
            } else {
                let (p, added) = self.with_cached_state(program, state);
                (Ok(p), retained, added)
            },
        }
    }

    /// The start state for position `pos` of `text`: the one cached for the
    /// predicates there, else the threads found from the program's start,
    /// added to the current thread set, as a state looked up or added.
    pub open spec fn start_state(self, program: &Program, text: Seq<u8>, pos: int, max_size: usize, travelled: int) -> (
        Result<StatePtr, RunError>,
        DfaCache,
    ) {
        let predicates = predicates_at(text, pos);
        let index = predicates.spec_bits() as int;
        let cached = self.start_states[index];
        if cached != UNKNOWN_STATE_PTR {
            (Ok(cached), self)
        } else {
            let search = thread_search(program.instrs@, self.current, seq![program.start], predicates, 0);
            let emptied = DfaCache { current: Seq::empty(), ..self };
            let r = emptied.get_or_add(program, (search.2, search.0), None, max_size, travelled);
            match r.0 {
                Ok(p) => (Ok(p), DfaCache { start_states: r.2.start_states.update(index, p), ..r.2 }),
                Err(e) => (Err(e), r.2),
            }
        }
    }

    /// The state that follows the one `ptr` points to (read at `ptr` divided
    /// by the number of byte classes) on `byte`, flagged when the step
    /// matched, or `DEAD_STATE_PTR`; with the pointer the current state then
    /// has.
    pub open spec fn next_state(
        self,
        program: &Program,
        ptr: StatePtr,
        byte: Option<u8>,
        options: Options,
        travelled: int,
    ) -> (Result<StatePtr, RunError>, StatePtr, DfaCache) {
        let current = self.states[ptr as int / program.spec_byte_class_count() as int];
        let step = next_step(
            program.instrs@,
            self.current,
            self.next,
            current.0,
            current.1,
            byte,
            options.continue_after_leftmost_match,
        );
        if !step.1 && step.0.len() == 0 {
            let sets = step_sets(program.instrs@, self.current, self.next, current.0, current.1, byte);
            (Ok(DEAD_STATE_PTR), ptr, DfaCache { current: sets.0, next: Seq::empty(), ..self })
        } else {
            let emptied = DfaCache { current: Seq::empty(), next: Seq::empty(), ..self };
            let r = emptied.get_or_add(program, (current.0, step.0), Some(ptr), options.max_size, travelled);
            let kept = match r.1 {
                Some(q) => q,
                None => ptr,
            };
            match r.0 {
                Ok(p) => (
                    Ok(
                        if step.1 {
                            (p + MATCHING_STATE_FLAG) as StatePtr
                        } else {
                            p
                        },
                    ),
                    kept,
                    r.2,
                ),
                Err(e) => (Err(e), kept, r.2),
            }
        }
    }

    /// The run from position `pos` of `text`, in the state `ptr` points to,
    /// the last match so far ending at `last`: each byte is looked up in the
    /// transitions of the state pointer and its class; an unknown transition
    /// is computed (`next_state`) and remembered at the pointer the current
    /// state then has. A flagged transition is a match ending before the
    /// byte; a dead one ends the run. At the end of the text the step over
    /// the end decides whether a match ends there.
    pub open spec fn run_from(
        self,
        program: &Program,
        text: Seq<u8>,
        pos: int,
        last_clear: int,
        options: Options,
        ptr: StatePtr,
        last: Option<usize>,
    ) -> (Result<Option<usize>, RunError>, DfaCache)
        decreases text.len() - pos, 1int,
    {
        if 0 <= pos < text.len() {
            let byte = text[pos];
            let class = program.byte_classes@[byte as int];
            let t = self.transitions[ptr + class];
            if t <= MAX_STATE_PTR {
                self.run_from(program, text, pos + 1, last_clear, options, t, last)
            } else {
                let looked_up = if t == UNKNOWN_STATE_PTR {
                    let s = self.next_state(program, ptr, Some(byte), options, pos + 1 - last_clear);
                    match s.0 {
                        Ok(p) => (Ok(p), DfaCache { transitions: s.2.transitions.update(s.1 + class, p), ..s.2 }),
                        Err(e) => (Err(e), s.2),
                    }
                } else {
                    (Ok(t), self)
                };
                match looked_up.0 {
                    Ok(p) => looked_up.1.run_after(program, text, pos, last_clear, options, p, last),
                    Err(e) => (Err(e), looked_up.1),
                }
            }
        } else {
            let s = self.next_state(program, ptr, None, options, text.len() - last_clear);
            match s.0 {
                Ok(p) => (
                    Ok(
                        if is_flagged(p) {
                            Some(text.len() as usize)
                        } else {
                            last
                        },
                    ),
                    s.2,
                ),
                Err(e) => (Err(e), s.2),
            }
        }
    }

    /// The run once the byte at `pos` led to the transition `p`: a flagged
    /// transition is a match ending at `pos`, which ends the run with
    /// `stop_after_first_match`; a dead one ends the run; else the run goes on
    /// after the byte.
    pub open spec fn run_after(
        self,
        program: &Program,
        text: Seq<u8>,
        pos: int,
        last_clear: int,
        options: Options,
        p: StatePtr,
        last: Option<usize>,
    ) -> (Result<Option<usize>, RunError>, DfaCache)
        decreases text.len() - pos, 0int,
    {
        let found = if is_flagged(p) {
            Some(pos as usize)
        } else {
            last
        };
        let q = if is_flagged(p) {
            (p - MATCHING_STATE_FLAG) as StatePtr
        } else {
            p
        };
        if is_flagged(p) && options.stop_after_first_match {
            (Ok(found), self)
        } else if q == DEAD_STATE_PTR {
            (Ok(found), self)
        } else if q == ERROR_STATE_PTR {
            (Err(RunError), self)
        } else if 0 <= pos < text.len() {
            self.run_from(program, text, pos + 1, last_clear, options, q, found)
        } else {
            (Ok(found), self)
        }
    }

    /// A run from position `pos` of `text`, the cache last cleared at
    /// `last_clear`: from the start state there on.
    pub open spec fn run_at(self, program: &Program, text: Seq<u8>, pos: int, last_clear: int, options: Options) -> (
        Result<Option<usize>, RunError>,
        DfaCache,
    ) {
        let s = self.start_state(program, text, pos, options.max_size, pos - last_clear);
        match s.0 {
            Ok(p) => s.1.run_from(program, text, pos, last_clear, options, p, None),
            Err(e) => (Err(e), s.1),
        }
    }

    /// A run from position `pos` of `text`: from the start state there on.
    pub open spec fn run(self, program: &Program, text: Seq<u8>, pos: int, options: Options) -> (
        Result<Option<usize>, RunError>,
        DfaCache,
    ) {
        self.run_at(program, text, pos, pos, options)
    }
}

impl Dfa {
    /// What the DFA holds.
    pub closed spec fn cache(&self) -> DfaCache {
        DfaCache {
            start_states: self.start_state_cache@,
            cached: self.cached_states@,
            states: self.states@.map_values(|s: State| (s.flags, s.instrs@)),
            transitions: self.transitions@,
            current: self.current_threads@,
            next: self.next_threads@,
            total_state_size: self.total_state_size,
        }
    }
}

/// What a run of a DFA works with besides the DFA itself.
pub struct RunContext<'a> {
    pub program: &'a Program,
    pub cursor: StrCursor<'a>,
    pub options: Options,
    /// Where the run started: the cache may only be cleared once the run has
    /// gone ten bytes per state past it.
    pub last_clear: usize,
}

impl<'a> RunContext<'a> {
    pub open spec fn wf(&self) -> bool {
        &&& self.program.is_runnable()
        &&& self.cursor.wf()
        &&& self.last_clear <= self.cursor.position()
        &&& self.options.max_size <= MAX_MAX_SIZE
    }
}

impl Dfa {
    /// The state a pointer designates.
    fn state(&self, program: &Program, state_ptr: StatePtr) -> (s: &State)
        requires
            self.wf(program),
            program.is_runnable(),
            state_ptr < self.states@.len(),
        ensures
            *s == self.states@[state_ptr as int / program.spec_byte_class_count() as int],
            (state_ptr as int / program.spec_byte_class_count() as int) < self.states@.len(),
    {
        let count = program.byte_class_count();
        assert((state_ptr as int / count as int) <= state_ptr) by (nonlinear_arith)
            requires
                count >= 1,
        ;
        &self.states[state_ptr as usize / count]
    }

    /// Where the transition from a state on a byte class is kept.
    fn transition_index(&self, program: &Program, state_ptr: StatePtr, byte_class: u8) -> (i: usize)
        requires
            self.wf(program),
            program.is_runnable(),
            state_ptr < self.states@.len(),
            byte_class <= program.byte_classes@[255],
        ensures
            i == state_ptr + byte_class,
            i < self.transitions@.len(),
    {
        let n = self.states.len();
        let count = program.byte_class_count();
        proof {
            let c = program.spec_byte_class_count() as int;
            assert((n as int - 1) * (c - 1) >= 0) by (nonlinear_arith)
                requires
                    n >= 1,
                    c >= 1,
            ;
            assert(n as int * c == (n as int - 1) * (c - 1) + n + c - 1) by (nonlinear_arith);
        }
        state_ptr as usize + byte_class as usize
    }

    /// An estimate of the bytes the cache takes: four for each pointer, sixteen
    /// for each state besides its instructions, eight for each instruction
    /// pointer of the two thread sets, and the sizes of the states.
    pub closed spec fn cache_size(&self, program: &Program) -> int {
        32 * 4 + self.cached_states@.len() * (16 + 4) + self.states@.len() * 16 + self.transitions@.len() * 4 + 2
            * program.instrs@.len() * 8 + self.total_state_size
    }

    /// The estimate of the bytes the cache takes.
    fn size(&self, program: &Program) -> (n: u128)
        requires
            self.wf(program),
        ensures
            n == self.cache_size(program),
    {
        (self.start_state_cache.len() as u128) * 4 + (self.cached_states.len() as u128) * 20
            + (self.states.len() as u128) * 16 + (self.transitions.len() as u128) * 4 + 2 * (
        program.instrs.len() as u128) * 8 + (self.total_state_size as u128)
    }

    /// Appends a state with all its transitions unknown.
    fn add_state(&mut self, program: &Program, state: State) -> (state_ptr: StatePtr)
        requires
            old(self).wf(program),
            program.is_runnable(),
            state.instrs_below(program.instrs@.len()),
            old(self).states@.len() < MAX_STATE_PTR,
        ensures
            final(self).wf(program),
            state_ptr == old(self).states@.len(),
            final(self).states@ == old(self).states@.push(state),
            final(self).cached_states@ == old(self).cached_states@,
            final(self).current_threads == old(self).current_threads,
            final(self).next_threads == old(self).next_threads,
            forall|j: int| 0 <= j < old(self).transitions@.len() ==> final(self).transitions@[j] == old(self).transitions@[j],
            forall|j: int|
                old(self).transitions@.len() <= j < final(self).transitions@.len() ==> #[trigger] final(self).transitions@[j] == UNKNOWN_STATE_PTR,
            final(self).cache() == old(self).cache().with_state(program, (state.flags, state.instrs@)),
    {
        let ghost model = (state.flags, state.instrs@);
        let state_ptr = self.states.len() as StatePtr;
        let state_size = state.size();
        let ghost n = self.states@.len();
        self.states.push(state);
        let count = program.byte_class_count();
        let ghost old_len = self.transitions@.len();
        let mut i: usize = 0;
        while i < count
            invariant
                i <= count,
                count == program.spec_byte_class_count(),
                self.states@ == old(self).states@.push(state),
                self.start_state_cache == old(self).start_state_cache,
                self.cached_states == old(self).cached_states,
                self.current_threads == old(self).current_threads,
                self.next_threads == old(self).next_threads,
                self.add_thread_stack == old(self).add_thread_stack,
                self.total_state_size == old(self).total_state_size,
                n == old(self).states@.len(),
                old_len == n * count,
                self.transitions@.len() == old_len + i,
                old_len == old(self).transitions@.len(),
                forall|j: int| 0 <= j < old_len ==> self.transitions@[j] == old(self).transitions@[j],
                forall|j: int| 0 <= j < old_len ==> #[trigger] is_transition(self.transitions@[j], n),
                never_matches(program) ==> forall|j: int|
                    0 <= j < old_len ==> #[trigger] self.transitions@[j] < MATCHING_STATE_FLAG
                        || self.transitions@[j] == UNKNOWN_STATE_PTR || self.transitions@[j] == DEAD_STATE_PTR,
                forall|j: int| old_len <= j < self.transitions@.len() ==> #[trigger] self.transitions@[j] == UNKNOWN_STATE_PTR,
            decreases count - i,
        {
            self.transitions.push(UNKNOWN_STATE_PTR);
            i = i + 1;
        }
        proof {
            assert(old_len + count == (n + 1) * count) by (nonlinear_arith)
                requires
                    old_len == n * count,
            ;
            assert forall|j: int| 0 <= j < self.transitions@.len() implies #[trigger] is_transition(
                self.transitions@[j],
                n + 1,
            ) by {
                if j < old_len {
                    assert(is_transition(self.transitions@[j], n));
                }
            }
        }
        self.total_state_size = self.total_state_size.saturating_add(state_size);
        proof {
            let expected = old(self).cache().with_state(program, model);
            assert(self.states@.map_values(|s: State| (s.flags, s.instrs@)) =~= expected.states);
            assert(self.transitions@ =~= expected.transitions);
            assert(self.total_state_size == expected.total_state_size);
            assert(self.cache() =~= expected);
        }
        state_ptr
    }

    /// Empties the cache, unless the run has not gone far enough since the
    /// start for it to pay.
    fn clear(&mut self, cx: &RunContext) -> (r: Result<(), RunError>)
        requires
            old(self).wf(cx.program),
            cx.wf(),
        ensures
            final(self).wf(cx.program),
            r is Err <==> cx.cursor.position() - cx.last_clear < 10 * old(self).states@.len(),
            r is Err ==> *final(self) == *old(self),
            r is Ok ==> {
                &&& forall|i: int| 0 <= i < 32 ==> #[trigger] final(self).start_state_cache@[i] == UNKNOWN_STATE_PTR
                &&& final(self).cached_states@.len() == 0
                &&& final(self).states@.len() == 0
                &&& final(self).transitions@.len() == 0
                &&& final(self).current_threads == old(self).current_threads
                &&& final(self).next_threads == old(self).next_threads
                &&& final(self).total_state_size == old(self).total_state_size
                &&& final(self).add_thread_stack == old(self).add_thread_stack
            },
            r is Ok ==> final(self).cache() == old(self).cache().cleared(),
    {
        let travelled = (cx.cursor.byte_position() - cx.last_clear) as u64;
        if travelled < 10 * (self.states.len() as u64) {
            return Err(RunError);
        }
        let mut i: usize = 0;
        while i < self.start_state_cache.len()
            invariant
                self.start_state_cache@.len() == 32,
                self.cached_states == old(self).cached_states,
                self.states == old(self).states,
                self.transitions == old(self).transitions,
                self.current_threads == old(self).current_threads,
                self.next_threads == old(self).next_threads,
                self.add_thread_stack == old(self).add_thread_stack,
                self.total_state_size == old(self).total_state_size,
                old(self).wf(cx.program),
                i <= 32,
                forall|j: int| 0 <= j < i ==> #[trigger] self.start_state_cache@[j] == UNKNOWN_STATE_PTR,
            decreases 32 - i,
        {
            self.start_state_cache.set(i, UNKNOWN_STATE_PTR);
            i = i + 1;
        }
        self.cached_states.clear();
        self.states.clear();
        self.transitions.clear();
        proof {
            let expected = old(self).cache().cleared();
            assert(self.start_state_cache@ =~= expected.start_states);
            assert(self.states@.map_values(|s: State| (s.flags, s.instrs@)) =~= expected.states);
            assert(self.cache() =~= expected);
        }
        Ok(())
    }

    /// The pointer of a state equal to `state` in the cache, else of `state`
    /// added to it. When the cache is too large it is cleared first, keeping
    /// the state that `retained` points to, whose new pointer comes back.
    #[verifier::loop_isolation(false)]
    fn get_or_add_state(
        &mut self,
        cx: &RunContext,
        state: State,
        retained: Option<StatePtr>,
        Ghost(bound): Ghost<int>,
    ) -> (r: (Result<StatePtr, RunError>, Option<StatePtr>))
        requires
            old(self).wf(cx.program),
            cx.wf(),
            state.instrs_below(cx.program.instrs@.len()),
            retained matches Some(p) ==> p < old(self).states@.len(),
        ensures
            final(self).wf(cx.program),
            r.0 matches Ok(p) ==> p < final(self).states@.len() && final(self).states@[p as int].flags == state.flags
                && final(self).states@[p as int].instrs@ == state.instrs@,
            retained is None ==> r.1 is None,
            retained is Some ==> (r.1 matches Some(p) && p < final(self).states@.len()),
            final(self).current_threads == old(self).current_threads,
            final(self).next_threads == old(self).next_threads,
            r.0 is Err ==> *final(self) == *old(self) && final(self).cache_size(cx.program) > cx.options.max_size
                && cx.cursor.position() - cx.last_clear < 10 * final(self).states@.len(),
            (forall|i: int|
                0 <= i < old(self).cached_states@.len() ==> !(old(self).states@[#[trigger] old(self).cached_states@[i] as int].flags == state.flags && old(self).states@[old(self).cached_states@[i] as int].instrs@ == state.instrs@)) ==> (r.0 matches Ok(p) ==> {
                &&& p == final(self).states@.len() - 1
                &&& forall|j: int|
                    p * cx.program.spec_byte_class_count() <= j < p * cx.program.spec_byte_class_count()
                        + cx.program.spec_byte_class_count() ==> #[trigger] final(self).transitions@[j]
                        == UNKNOWN_STATE_PTR
                &&& r.1 matches Some(q) ==> q < p
                &&& (forall|i: int|
                    0 <= i < old(self).states@.len() ==> lowest(
                        #[trigger] old(self).states@[i].instrs@,
                        cx.program.instrs@.len() as int,
                    ) <= bound) ==> forall|i: int|
                    0 <= i < p ==> lowest(#[trigger] final(self).states@[i].instrs@, cx.program.instrs@.len() as int)
                        <= bound
            }),
            (r.0, r.1, final(self).cache()) == old(self).cache().get_or_add(
                cx.program,
                (state.flags, state.instrs@),
                retained,
                cx.options.max_size,
                cx.cursor.position() - cx.last_clear,
            ),
    {
        let program = cx.program;
        let ghost c = program.spec_byte_class_count() as int;
        let ghost nn = program.instrs@.len() as int;
        let ghost model = (state.flags, state.instrs@);
        let ghost start = old(self).cache();
        let ghost travelled = cx.cursor.position() - cx.last_clear;
        let mut i: usize = 0;
        while i < self.cached_states.len()
            invariant
                self.wf(program),
                program.is_runnable(),
                i <= self.cached_states@.len(),
                *self == *old(self),
                start.find_from(model, 0) == start.find_from(model, i as int),
            decreases self.cached_states@.len() - i,
        {
            let state_ptr = self.cached_states[i];
            proof {
                assert(start.cached[i as int] == state_ptr);
                assert(start.states[state_ptr as int] == (self.states@[state_ptr as int].flags, self.states@[state_ptr as int].instrs@));
            }
            if self.states[state_ptr as usize].same_as(&state) {
                return (Ok(state_ptr), retained);
            }
            i = i + 1;
        }
        proof {
            assert(start.find_from(model, i as int) is None);
            assert(self.cache_size(program) == start.size(program));
        }
        let mut retained = retained;
        let size = self.size(program);
        if size > cx.options.max_size as u128 {
            match retained {
                Some(retained_state_ptr) => {
                    let retained_state = self.state(program, retained_state_ptr).duplicate();
                    proof {
                        let index = retained_state_ptr as int / program.spec_byte_class_count() as int;
                        assert(self.states@[index].instrs_below(program.instrs@.len()));
                        assert(retained_state.instrs@ == self.states@[index].instrs@);
                    }
                    let ghost retained_index = retained_state_ptr as int / program.spec_byte_class_count() as int;
                    match self.clear(cx) {
                        Err(error) => return (Err(error), retained),
                        Ok(()) => {},
                    }
                    proof {
                        assert(start.states[retained_index] == (retained_state.flags, retained_state.instrs@));
                    }
                    retained = Some(self.add_state(program, retained_state));
                    proof {
                        assert(self.states@[0].instrs@ == old(self).states@[retained_index].instrs@);
                    }
                },
                None => {
                    match self.clear(cx) {
                        Err(error) => return (Err(error), retained),
                        Ok(()) => {},
                    }
                },
            }
        } else {
            let n = self.states.len();
            let count = program.byte_class_count();
            assert(n as int <= n as int * count as int) by (nonlinear_arith)
                requires
                    count >= 1,
            ;
        }
        let ghost before_add = self.states@;
        let ghost before_transitions = self.transitions@.len();
        let ghost before_cache = self.cache();
        let state_ptr = self.add_state(program, state);
        self.cached_states.push(state_ptr);
        proof {
            assert(self.cache() =~= before_cache.with_cached_state(program, model).1);
        }
        proof {
            assert(before_transitions == state_ptr as int * c);
            assert(state_ptr as int * c + c == self.transitions@.len()) by (nonlinear_arith)
                requires
                    self.transitions@.len() == (state_ptr as int + 1) * c,
            ;
            assert forall|i: int| 0 <= i < state_ptr implies self.states@[i] == before_add[i] by {}
        }
        (Ok(state_ptr), retained)
    }
}


/// How the flag bit of a pointer reads and is set and cleared.
proof fn lemma_matching_flag(t: u32)
    ensures
        t < MATCHING_STATE_FLAG ==> t & MATCHING_STATE_FLAG == 0 && t & MAX_STATE_PTR == t && (t
            | MATCHING_STATE_FLAG) == t + MATCHING_STATE_FLAG,
        MATCHING_STATE_FLAG <= t < UNKNOWN_STATE_PTR ==> t & MATCHING_STATE_FLAG != 0 && t
            & !MATCHING_STATE_FLAG == t - MATCHING_STATE_FLAG,
        t == UNKNOWN_STATE_PTR || t == DEAD_STATE_PTR || t == ERROR_STATE_PTR ==> t & MATCHING_STATE_FLAG == 0,
{
    assert(t < 1073741824u32 ==> t & 1073741824u32 == 0 && t & 1073741823u32 == t && (t | 1073741824u32)
        == t + 1073741824u32) by (bit_vector);
    assert(1073741824u32 <= t < 2147483648u32 ==> t & 1073741824u32 != 0 && t & !1073741824u32 == t
        - 1073741824u32) by (bit_vector);
    assert(t == 2147483648u32 || t == 2147483649u32 || t == 2147483650u32 ==> t & 1073741824u32 == 0) by (bit_vector);
}

/// Whether a byte is an ASCII letter, digit or `_`.
fn is_word_byte(byte: Option<u8>) -> (b: bool)
    ensures
        b == (byte matches Some(x) && crate::regex::char::spec_is_ascii_word(x as char)),
{
    match byte {
        Some(x) => (x as char).is_ascii_word(),
        None => false,
    }
}

/// Whether a byte is `value`.
fn is_byte(byte: Option<u8>, value: u8) -> (b: bool)
    ensures
        b == (byte == Some(value)),
{
    match byte {
        Some(x) => x == value,
        None => false,
    }
}

/// The byte before position `p` of `text`, if any.
pub open spec fn byte_before(text: Seq<u8>, p: int) -> Option<u8> {
    if 0 < p <= text.len() {
        Some(text[p - 1])
    } else {
        None
    }
}

/// The byte at position `p` of `text`, if any.
pub open spec fn byte_at(text: Seq<u8>, p: int) -> Option<u8> {
    if 0 <= p < text.len() {
        Some(text[p])
    } else {
        None
    }
}

/// Whether a byte is an ASCII letter, digit or `_`.
pub open spec fn is_word(byte: Option<u8>) -> bool {
    byte matches Some(x) && crate::regex::char::spec_is_ascii_word(x as char)
}

/// The predicates at position `p` of `text`, from the bytes around it.
pub open spec fn predicates_at(text: Seq<u8>, p: int) -> Predicates {
    let prev = byte_before(text, p);
    let next = byte_at(text, p);
    let prev_is_cr = prev == Some(0x0Du8);
    let prev_is_lf = prev == Some(0x0Au8);
    let next_is_cr = next == Some(0x0Du8);
    let next_is_lf = next == Some(0x0Au8);
    Predicates {
        is_at_start_of_text: prev is None,
        is_at_end_of_text: next is None,
        is_at_start_of_line: prev_is_lf || prev_is_cr && !next_is_lf,
        is_at_end_of_line: next_is_lf && !prev_is_cr || next_is_cr,
        is_at_word_boundary: is_word(prev) != is_word(next),
    }
}

impl Dfa {
    /// The state the run starts in, which depends on the bytes around the
    /// cursor: the one cached for the predicates there, else a new one with
    /// the threads found from the program's start, added to the threads the
    /// current set held, and the flags that search ends with.
    fn get_or_create_start_state(&mut self, cx: &RunContext) -> (r: Result<StatePtr, RunError>)
        requires
            old(self).wf(cx.program),
            cx.wf(),
        ensures
            final(self).wf(cx.program),
            r matches Ok(p) ==> p < final(self).states@.len(),
            r is Err ==> final(self).cache_size(cx.program) > cx.options.max_size && cx.cursor.position()
                - cx.last_clear < 10 * final(self).states@.len(),
            ({
                let predicates = predicates_at(cx.cursor.text(), cx.cursor.position() as int);
                let cached = old(self).start_state_cache@[predicates.spec_bits() as int];
                let search = thread_search(
                    cx.program.instrs@,
                    old(self).current_threads@,
                    seq![cx.program.start],
                    predicates,
                    0,
                );
                &&& cached != UNKNOWN_STATE_PTR ==> r == Ok::<StatePtr, RunError>(cached)
                &&& cached == UNKNOWN_STATE_PTR ==> (r matches Ok(p) ==> final(self).states@[p as int].instrs@
                    == search.0 && final(self).states@[p as int].flags == search.2)
                &&& old(self).is_fresh() ==> (r matches Ok(p) ==> {
                    &&& p == final(self).states@.len() - 1
                    &&& forall|j: int|
                        p * cx.program.spec_byte_class_count() <= j < p * cx.program.spec_byte_class_count()
                            + cx.program.spec_byte_class_count() ==> #[trigger] final(self).transitions@[j]
                            == UNKNOWN_STATE_PTR
                    &&& forall|i: int|
                        0 <= i < p ==> lowest(#[trigger] final(self).states@[i].instrs@, cx.program.instrs@.len() as int)
                            <= lowest(search.0, cx.program.instrs@.len() as int)
                    &&& final(self).current_threads@.len() == 0
                    &&& final(self).next_threads@.len() == 0
                })
            }),
            (r, final(self).cache()) == old(self).cache().start_state(
                cx.program,
                cx.cursor.text(),
                cx.cursor.position() as int,
                cx.options.max_size,
                cx.cursor.position() - cx.last_clear,
            ),
    {
        let program = cx.program;
        let ghost start = old(self).cache();
        let prev_byte = cx.cursor.peek_prev_byte();
        let prev_byte_is_cr = is_byte(prev_byte, 0x0D);
        let prev_byte_is_lf = is_byte(prev_byte, 0x0A);
        let prev_byte_is_word = is_word_byte(prev_byte);
        let next_byte = cx.cursor.peek_next_byte();
        let next_byte_is_cr = is_byte(next_byte, 0x0D);
        let next_byte_is_lf = is_byte(next_byte, 0x0A);
        let next_byte_is_word = is_word_byte(next_byte);
        let predicates = Predicates {
            is_at_start_of_text: prev_byte.is_none(),
            is_at_end_of_text: next_byte.is_none(),
            is_at_start_of_line: prev_byte_is_lf || prev_byte_is_cr && !next_byte_is_lf,
            is_at_end_of_line: next_byte_is_lf && !prev_byte_is_cr || next_byte_is_cr,
            is_at_word_boundary: prev_byte_is_word != next_byte_is_word,
        };
        let start_state_index = predicates.to_bits() as usize;
        let start_state_ptr = self.start_state_cache[start_state_index];
        if start_state_ptr != UNKNOWN_STATE_PTR {
            return Ok(start_state_ptr);
        }
        let mut start_state_flags = StateFlags(0);
        let ghost threads_before = self.current_threads@;
        proof {
            assert(self.add_thread_stack@.push(program.start) =~= seq![program.start]);
        }
        add_thread(
            &mut self.current_threads,
            program.instrs.as_slice(),
            program.start,
            predicates,
            &mut start_state_flags,
            &mut self.add_thread_stack,
        );
        proof {
            self.current_threads.lemma_wf();
            lemma_thread_search_empties_stack(program.instrs@, threads_before, seq![program.start], predicates, 0);
        }
        let start_state = State::new(start_state_flags, self.current_threads.as_slice());
        self.current_threads.clear();
        proof {
            assert(self.cache() =~= DfaCache { current: Seq::empty(), ..start });
        }
        let ghost start_lowest = lowest(start_state.instrs@, program.instrs@.len() as int);
        let (result, _) = self.get_or_add_state(cx, start_state, None, Ghost(start_lowest));
        let ghost added = self.cache();
        match result {
            Ok(state_ptr) => {
                self.start_state_cache.set(start_state_index, state_ptr);
                proof {
                    assert(self.cache() =~= DfaCache {
                        start_states: added.start_states.update(start_state_index as int, state_ptr),
                        ..added
                    });
                }
                Ok(state_ptr)
            },
            Err(error) => Err(error),
        }
    }
}


/// What the predicates of an asserting state read when `byte` follows
/// (`None` at the end of the text), the previous byte being known from the
/// state's flags.
pub open spec fn assert_predicates(flags: u8, byte: Option<u8>) -> Predicates {
    let prev_byte_is_cr = has_bit(flags, 3);
    let prev_byte_is_lf = has_bit(flags, 2);
    let prev_byte_is_word = has_bit(flags, 4);
    let next_byte_is_cr = byte == Some(0x0Du8);
    let next_byte_is_lf = byte == Some(0x0Au8);
    let next_byte_is_word = byte matches Some(x) && crate::regex::char::spec_is_ascii_word(x as char);
    Predicates {
        is_at_start_of_text: false,
        is_at_end_of_text: byte is None,
        is_at_start_of_line: prev_byte_is_lf || prev_byte_is_cr && !next_byte_is_lf,
        is_at_end_of_line: next_byte_is_lf && !prev_byte_is_cr || next_byte_is_cr,
        is_at_word_boundary: prev_byte_is_word != next_byte_is_word,
    }
}

/// The threads a state with `flags` and threads `instrs` steps to over
/// `byte`, and whether the step matched, when the thread sets held
/// `current` and `next` beforehand: the state's threads are added to
/// `current`; an asserting state first searches again from each of them with
/// the predicates of the position, into `next`, and the threads found take
/// the place of `current`, `next` then being emptied; the threads of `current`
/// then step over the byte into `next`.
pub open spec fn next_step(
    program: Seq<Instr>,
    current: Seq<usize>,
    next: Seq<usize>,
    flags: u8,
    instrs: Seq<usize>,
    byte: Option<u8>,
    continue_after_leftmost_match: bool,
) -> (Seq<usize>, bool) {
    let (stepping, into) = step_sets(program, current, next, flags, instrs, byte);
    let r = step_each(program, into, stepping, byte, continue_after_leftmost_match);
    (r.0, r.1)
}

/// The two thread sets just before the threads step over the byte: the
/// threads that step, and the set they step into (see `next_step`).
pub open spec fn step_sets(
    program: Seq<Instr>,
    current: Seq<usize>,
    next: Seq<usize>,
    flags: u8,
    instrs: Seq<usize>,
    byte: Option<u8>,
) -> (Seq<usize>, Seq<usize>) {
    let with_state = insert_all(current, instrs);
    if has_bit(flags, 1) {
        (search_each(program, next, with_state, assert_predicates(flags, byte), 0).0, Seq::empty())
    } else {
        (with_state, next)
    }
}

/// A step that ended early stays as it was, whatever threads follow.
proof fn lemma_step_each_stopped(
    instrs: Seq<Instr>,
    next: Seq<usize>,
    current: Seq<usize>,
    byte: Option<u8>,
    cont: bool,
    k: int,
)
    requires
        0 <= k <= current.len(),
        step_each(instrs, next, current.take(k), byte, cont).2,
    ensures
        step_each(instrs, next, current, byte, cont) == step_each(instrs, next, current.take(k), byte, cont),
    decreases current.len() - k,
{
    if k < current.len() {
        let t = current.take(k + 1);
        assert(t.drop_last() =~= current.take(k));
        assert(t.take(k + 1) =~= t);
        lemma_step_each_stopped(instrs, next, current, byte, cont, k + 1);
    } else {
        assert(current.take(k) =~= current);
    }
}

/// Every instruction of the program continues only at later instructions.
pub open spec fn is_forward(program: Seq<Instr>) -> bool {
    forall|i: int|
        0 <= i < program.len() ==> match #[trigger] program[i] {
            Instr::Match => true,
            Instr::ByteRange(_, next) => next > i,
            Instr::Assert(_, next) => next > i,
            Instr::Split(next_0, next_1) => next_0 > i && next_1 > i,
        }
}

/// The lowest thread of a set, or `n` for an empty set.
pub open spec fn lowest(threads: Seq<usize>, n: int) -> int
    decreases threads.len(),
{
    if threads.len() == 0 {
        n
    } else {
        let rest = lowest(threads.drop_last(), n);
        if (threads.last() as int) < rest {
            threads.last() as int
        } else {
            rest
        }
    }
}

/// What a run of the DFA finds from position `pos` of `text`, in a state with
/// threads `threads` and flags `flags`, the last match found so far ending at
/// `last`: each byte steps the threads (see `next_step`), a step that
/// matches over the byte at `pos` is a match ending at `pos`, and at the end
/// of the text a step that matches is a match ending there. The run stops at
/// the first match with `stop_after_first_match`, and when no thread is left
/// and the step did not match.
pub open spec fn spec_run_from(
    program: Seq<Instr>,
    text: Seq<u8>,
    pos: int,
    threads: Seq<usize>,
    flags: u8,
    options: Options,
    last: Option<usize>,
) -> Option<usize>
    decreases text.len() - pos,
{
    if 0 <= pos < text.len() {
        let step = next_step(
            program,
            Seq::empty(),
            Seq::empty(),
            flags,
            threads,
            Some(text[pos]),
            options.continue_after_leftmost_match,
        );
        let found = if step.1 {
            Some(pos as usize)
        } else {
            last
        };
        if step.1 && options.stop_after_first_match {
            found
        } else if !step.1 && step.0.len() == 0 {
            found
        } else {
            spec_run_from(program, text, pos + 1, step.0, flags, options, found)
        }
    } else {
        let step = next_step(
            program,
            Seq::empty(),
            Seq::empty(),
            flags,
            threads,
            None,
            options.continue_after_leftmost_match,
        );
        if step.1 {
            Some(text.len() as usize)
        } else {
            last
        }
    }
}

/// What a run of the DFA finds from position `pos` of `text`: it starts with
/// the threads found from the program's start with the predicates there.
pub open spec fn spec_run(program: &Program, text: Seq<u8>, pos: int, options: Options) -> Option<usize> {
    let start = thread_search(program.instrs@, Seq::empty(), seq![program.start], predicates_at(text, pos), 0);
    spec_run_from(program.instrs@, text, pos, start.0, start.2, options, None)
}

/// A program that matches at once, whatever follows, finds the empty match
/// where the run starts, with or without `stop_after_first_match`, at any
/// position of any text.
pub proof fn lemma_run_of_immediate_match(program: &Program, text: Seq<u8>, pos: int, options: Options)
    requires
        program.instrs@ == seq![Instr::Match],
        program.start == 0,
        0 <= pos <= text.len(),
    ensures
        spec_run(program, text, pos, options) == Some(pos as usize),
{
    let instrs = program.instrs@;
    let predicates = predicates_at(text, pos);
    let empty = Seq::<usize>::empty();
    assert(!empty.contains(0usize));
    assert(thread_search(instrs, empty, seq![0usize], predicates, 0) == (seq![0usize], Seq::<usize>::empty(), 0u8)) by {
        assert(seq![0usize].drop_last() =~= Seq::<usize>::empty());
        assert(empty.push(0usize) =~= seq![0usize]);
    }
    assert(!has_bit(0u8, 1u8)) by (bit_vector);
    let cont = options.continue_after_leftmost_match;
    assert(insert_all(empty, seq![0usize]) == seq![0usize]) by {
        assert(seq![0usize].drop_last() =~= Seq::<usize>::empty());
        assert(empty.push(0usize) =~= seq![0usize]);
    }
    assert forall|byte: Option<u8>| #[trigger] next_step(instrs, empty, empty, 0u8, seq![0usize], byte, cont) == (
        empty,
        true,
    ) by {
        assert(seq![0usize].drop_last() =~= Seq::<usize>::empty());
        assert(step_sets(instrs, empty, empty, 0u8, seq![0usize], byte) == (seq![0usize], empty));
        assert(step_each(instrs, empty, empty, byte, cont) == (empty, false, false));
    }
    assert forall|byte: Option<u8>| #[trigger] next_step(instrs, empty, empty, 0u8, empty, byte, cont) == (
        empty,
        false,
    ) by {
        assert(insert_all(empty, empty) == empty);
        assert(step_sets(instrs, empty, empty, 0u8, empty, byte) == (empty, empty));
    }
    if pos < text.len() {
        let step = next_step(instrs, empty, empty, 0u8, seq![0usize], Some(text[pos]), cont);
        assert(step == (empty, true));
        if !options.stop_after_first_match {
            let after = spec_run_from(instrs, text, pos + 1, empty, 0u8, options, Some(pos as usize));
            if pos + 1 < text.len() {
                assert(next_step(instrs, empty, empty, 0u8, empty, Some(text[pos + 1]), cont) == (empty, false));
            } else {
                assert(next_step(instrs, empty, empty, 0u8, empty, None, cont) == (empty, false));
            }
            assert(after == Some(pos as usize));
        }
    } else {
        assert(next_step(instrs, empty, empty, 0u8, seq![0usize], None, cont) == (empty, true));
    }
}

/// The lowest thread is at most every thread, and at most `n`; it is a
/// thread or `n`.
proof fn lemma_lowest(threads: Seq<usize>, n: int)
    ensures
        lowest(threads, n) <= n,
        forall|i: int| 0 <= i < threads.len() ==> lowest(threads, n) <= #[trigger] threads[i],
        lowest(threads, n) == n || exists|i: int| 0 <= i < threads.len() && lowest(threads, n) == threads[i],
    decreases threads.len(),
{
    if threads.len() > 0 {
        lemma_lowest(threads.drop_last(), n);
        let rest = threads.drop_last();
        assert forall|i: int| 0 <= i < threads.len() implies lowest(threads, n) <= #[trigger] threads[i] by {
            if i < threads.len() - 1 {
                assert(threads[i] == rest[i]);
            }
        }
        if lowest(threads, n) != n && lowest(threads, n) != threads.last() {
            let i = choose|i: int| 0 <= i < rest.len() && lowest(rest, n) == rest[i];
            assert(threads[i] == rest[i]);
        }
    }
}

/// Threads above `m` have a lowest one above `m`, when `m < n`.
proof fn lemma_lowest_above(threads: Seq<usize>, n: int, m: int)
    requires
        m < n,
        forall|i: int| 0 <= i < threads.len() ==> #[trigger] threads[i] > m,
    ensures
        lowest(threads, n) > m,
{
    lemma_lowest(threads, n);
}

/// A search in a forward program from instructions at or above `m` finds
/// only threads at or above `m`, all instructions of the program.
proof fn lemma_search_above(
    instrs: Seq<Instr>,
    threads: Seq<usize>,
    stack: Seq<InstrPtr>,
    predicates: Predicates,
    flags: u8,
    m: int,
)
    requires
        is_forward(instrs),
        forall|i: int| 0 <= i < instrs.len() ==> #[trigger] instrs[i].targets_below(instrs.len()),
        forall|i: int| 0 <= i < threads.len() ==> m <= #[trigger] threads[i] < instrs.len(),
        forall|i: int| 0 <= i < stack.len() ==> m <= #[trigger] stack[i] < instrs.len(),
    ensures
        forall|i: int|
            0 <= i < thread_search(instrs, threads, stack, predicates, flags).0.len() ==> m
                <= #[trigger] thread_search(instrs, threads, stack, predicates, flags).0[i] < instrs.len(),
    decreases instrs.len() - threads.len(),
{
    if stack.len() > 0 {
        let p = stack.last();
        let rest = stack.drop_last();
        assert(p == stack[stack.len() - 1]);
        if !(threads.contains(p) || instrs.len() <= threads.len()) {
            let grown = threads.push(p);
            assert forall|i: int| 0 <= i < grown.len() implies m <= #[trigger] grown[i] < instrs.len() by {
                if i < threads.len() {
                    assert(grown[i] == threads[i]);
                }
            }
            assert forall|i: int| 0 <= i < rest.len() implies m <= #[trigger] rest[i] < instrs.len() by {
                assert(rest[i] == stack[i]);
            }
            assert(instrs[p as int].targets_below(instrs.len()));
            match instrs[p as int] {
                Instr::Assert(predicate, _) => {
                    if predicates.holds(predicate) {
                        lemma_search_above(instrs, grown, rest, predicates, flags, m);
                        assert(thread_search(instrs, threads, stack, predicates, flags) == thread_search(
                            instrs,
                            grown,
                            rest,
                            predicates,
                            flags,
                        ));
                    } else {
                        assert(thread_search(instrs, threads, stack, predicates, flags).0 == grown);
                    }
                },
                Instr::Split(_, to_1) => {
                    assert(to_1 > p) by {
                        assert(0 <= p < instrs.len());
                    }
                    let pushed = rest.push(to_1);
                    assert forall|i: int| 0 <= i < pushed.len() implies m <= #[trigger] pushed[i] < instrs.len() by {
                        if i < rest.len() {
                            assert(pushed[i] == rest[i]);
                        }
                    }
                    lemma_search_above(instrs, grown, pushed, predicates, flags, m);
                    assert(thread_search(instrs, threads, stack, predicates, flags) == thread_search(
                        instrs,
                        grown,
                        pushed,
                        predicates,
                        flags,
                    ));
                },
                _ => {
                    assert(thread_search(instrs, threads, stack, predicates, flags).0 == grown);
                },
            }
        } else {
            assert(thread_search(instrs, threads, stack, predicates, flags).0 == threads);
        }
    } else {
        assert(thread_search(instrs, threads, stack, predicates, flags).0 == threads);
    }
}

/// Searching from each of instructions at or above `m` finds only threads at
/// or above `m`.
proof fn lemma_search_each_above(
    instrs: Seq<Instr>,
    threads: Seq<usize>,
    starts: Seq<usize>,
    predicates: Predicates,
    flags: u8,
    m: int,
)
    requires
        is_forward(instrs),
        forall|i: int| 0 <= i < instrs.len() ==> #[trigger] instrs[i].targets_below(instrs.len()),
        forall|i: int| 0 <= i < threads.len() ==> m <= #[trigger] threads[i] < instrs.len(),
        forall|i: int| 0 <= i < starts.len() ==> m <= #[trigger] starts[i] < instrs.len(),
    ensures
        forall|i: int|
            0 <= i < search_each(instrs, threads, starts, predicates, flags).0.len() ==> m
                <= #[trigger] search_each(instrs, threads, starts, predicates, flags).0[i] < instrs.len(),
    decreases starts.len(),
{
    if starts.len() > 0 {
        let init = starts.drop_last();
        assert forall|i: int| 0 <= i < init.len() implies m <= #[trigger] init[i] < instrs.len() by {
            assert(init[i] == starts[i]);
        }
        lemma_search_each_above(instrs, threads, init, predicates, flags, m);
        let (found, f) = search_each(instrs, threads, init, predicates, flags);
        assert(starts.last() == starts[starts.len() - 1]);
        lemma_search_above(instrs, found, seq![starts.last()], predicates, f, m);
    }
}

/// Threads added to `threads` from `instrs` are threads of either.
proof fn lemma_insert_all_above(threads: Seq<usize>, instrs: Seq<usize>, m: int, n: int)
    requires
        forall|i: int| 0 <= i < threads.len() ==> m <= #[trigger] threads[i] < n,
        forall|i: int| 0 <= i < instrs.len() ==> m <= #[trigger] instrs[i] < n,
    ensures
        forall|i: int| 0 <= i < insert_all(threads, instrs).len() ==> m <= #[trigger] insert_all(threads, instrs)[i] < n,
    decreases instrs.len(),
{
    if instrs.len() > 0 {
        let init = instrs.drop_last();
        assert forall|i: int| 0 <= i < init.len() implies m <= #[trigger] init[i] < n by {
            assert(init[i] == instrs[i]);
        }
        lemma_insert_all_above(threads, init, m, n);
        assert(instrs.last() == instrs[instrs.len() - 1]);
        let before = insert_all(threads, init);
        if !before.contains(instrs.last()) {
            assert forall|i: int| 0 <= i < before.push(instrs.last()).len() implies m <= #[trigger] before.push(
                instrs.last(),
            )[i] < n by {
                if i < before.len() {
                    assert(before.push(instrs.last())[i] == before[i]);
                }
            }
        }
    }
}

/// Stepping threads at or above `m` of a forward program over a byte reaches
/// only threads above `m`.
proof fn lemma_step_each_above(
    instrs: Seq<Instr>,
    next: Seq<usize>,
    current: Seq<usize>,
    byte: Option<u8>,
    cont: bool,
    m: int,
)
    requires
        is_forward(instrs),
        forall|i: int| 0 <= i < instrs.len() ==> #[trigger] instrs[i].targets_below(instrs.len()),
        forall|i: int| 0 <= i < next.len() ==> m < #[trigger] next[i] < instrs.len(),
        forall|i: int| 0 <= i < current.len() ==> m <= #[trigger] current[i] < instrs.len(),
    ensures
        forall|i: int|
            0 <= i < step_each(instrs, next, current, byte, cont).0.len() ==> m < #[trigger] step_each(
                instrs,
                next,
                current,
                byte,
                cont,
            ).0[i] < instrs.len(),
    decreases current.len(),
{
    if current.len() > 0 {
        let init = current.drop_last();
        assert forall|i: int| 0 <= i < init.len() implies m <= #[trigger] init[i] < instrs.len() by {
            assert(init[i] == current[i]);
        }
        lemma_step_each_above(instrs, next, init, byte, cont, m);
        let t = current.last();
        assert(t == current[current.len() - 1]);
        let (found, matched, stopped) = step_each(instrs, next, init, byte, cont);
        if !stopped {
            assert(instrs[t as int].targets_below(instrs.len()));
            match instrs[t as int] {
                Instr::ByteRange(range, to) => {
                    lemma_search_above(instrs, found, seq![to], no_predicates(), 0, m + 1);
                },
                _ => {},
            }
        }
    }
}

/// In a forward program, the threads a state steps to with empty thread sets
/// all lie above the lowest thread of the state.
proof fn lemma_next_step_above(
    instrs: Seq<Instr>,
    flags: u8,
    threads: Seq<usize>,
    byte: Option<u8>,
    cont: bool,
)
    requires
        is_forward(instrs),
        forall|i: int| 0 <= i < instrs.len() ==> #[trigger] instrs[i].targets_below(instrs.len()),
        forall|i: int| 0 <= i < threads.len() ==> #[trigger] threads[i] < instrs.len(),
        threads.len() > 0,
    ensures
        lowest(next_step(instrs, Seq::empty(), Seq::empty(), flags, threads, byte, cont).0, instrs.len() as int)
            > lowest(threads, instrs.len() as int),
{
    let n = instrs.len() as int;
    let m = lowest(threads, n);
    lemma_lowest(threads, n);
    assert(m < n) by {
        assert(threads[0] < n);
    }
    let empty = Seq::<usize>::empty();
    lemma_insert_all_above(empty, threads, m, n);
    let with_state = insert_all(empty, threads);
    let (stepping, into) = step_sets(instrs, empty, empty, flags, threads, byte);
    if has_bit(flags, 1) {
        lemma_search_each_above(instrs, empty, with_state, assert_predicates(flags, byte), 0, m);
    }
    lemma_step_each_above(instrs, into, stepping, byte, cont, m);
    let next = next_step(instrs, empty, empty, flags, threads, byte, cont).0;
    lemma_lowest_above(next, n, m);
}

/// The state a pointer with the matching flag maybe set points to.
pub open spec fn unflagged(p: StatePtr) -> int {
    if p >= MATCHING_STATE_FLAG {
        p - MATCHING_STATE_FLAG
    } else {
        p as int
    }
}

impl Dfa {
    /// The state that follows the one `current_state_ptr` points to on `byte`,
    /// or on the end of the text for `None`, flagged when it is reached by a
    /// match; `DEAD_STATE_PTR` when no thread survives and nothing matched.
    /// The new state keeps the flags of the current one. When the cache is
    /// cleared on the way, `current_state_ptr` is moved to the copy of its
    /// state that is kept.
    fn get_or_create_next_state(
        &mut self,
        cx: &RunContext,
        current_state_ptr: &mut StatePtr,
        byte: Option<u8>,
        Ghost(bound): Ghost<int>,
    ) -> (r: Result<StatePtr, RunError>)
        requires
            old(self).wf(cx.program),
            cx.wf(),
            *old(current_state_ptr) < old(self).states@.len(),
        ensures
            final(self).wf(cx.program),
            *final(current_state_ptr) < final(self).states@.len(),
            r matches Ok(p) ==> p != UNKNOWN_STATE_PTR && is_transition(p, final(self).states@.len()),
            never_matches(cx.program) ==> (r matches Ok(p) ==> p < MATCHING_STATE_FLAG || p == DEAD_STATE_PTR),
            r is Err ==> final(self).cache_size(cx.program) > cx.options.max_size && cx.cursor.position()
                - cx.last_clear < 10 * final(self).states@.len(),
            ({
                let current = old(self).states@[*old(current_state_ptr) as int
                    / cx.program.spec_byte_class_count() as int];
                let step = next_step(
                    cx.program.instrs@,
                    old(self).current_threads@,
                    old(self).next_threads@,
                    current.flags,
                    current.instrs@,
                    byte,
                    cx.options.continue_after_leftmost_match,
                );
                &&& r matches Ok(p) ==> (p == DEAD_STATE_PTR <==> !step.1 && step.0.len() == 0)
                &&& r matches Ok(p) ==> (p != DEAD_STATE_PTR ==> (p >= MATCHING_STATE_FLAG) == step.1
                    && final(self).states@[unflagged(p)].flags == current.flags
                    && final(self).states@[unflagged(p)].instrs@ == step.0)
                &&& r is Err ==> step.1 || step.0.len() > 0
                &&& r == Ok::<StatePtr, RunError>(DEAD_STATE_PTR) ==> final(self).current_threads@ == step_sets(
                    cx.program.instrs@,
                    old(self).current_threads@,
                    old(self).next_threads@,
                    current.flags,
                    current.instrs@,
                    byte,
                ).0 && final(self).next_threads@.len() == 0
                &&& r != Ok::<StatePtr, RunError>(DEAD_STATE_PTR) ==> final(self).current_threads@.len() == 0
                    && final(self).next_threads@.len() == 0
                &&& (forall|i: int|
                    0 <= i < old(self).states@.len() ==> lowest(
                        #[trigger] old(self).states@[i].instrs@,
                        cx.program.instrs@.len() as int,
                    ) <= bound) && lowest(step.0, cx.program.instrs@.len() as int) > bound ==> (r matches Ok(p) ==> (p
                    != DEAD_STATE_PTR ==> {
                    &&& unflagged(p) == final(self).states@.len() - 1
                    &&& forall|j: int|
                        unflagged(p) * cx.program.spec_byte_class_count() <= j < unflagged(p)
                            * cx.program.spec_byte_class_count() + cx.program.spec_byte_class_count()
                            ==> #[trigger] final(self).transitions@[j] == UNKNOWN_STATE_PTR
                    &&& *final(current_state_ptr) < unflagged(p)
                    &&& forall|i: int|
                        0 <= i < unflagged(p) ==> lowest(
                            #[trigger] final(self).states@[i].instrs@,
                            cx.program.instrs@.len() as int,
                        ) <= bound
                }))
            }),
            (r, *final(current_state_ptr), final(self).cache()) == old(self).cache().next_state(
                cx.program,
                *old(current_state_ptr),
                byte,
                cx.options,
                cx.cursor.position() - cx.last_clear,
            ),
    {
        let ghost start = old(self).cache();
        let program = cx.program;
        let instrs = program.instrs.as_slice();
        let ghost n = self.states@.len();
        let ghost left_current = self.current_threads@;
        let ghost left_next = self.next_threads@;
        let current_state = self.state(program, *current_state_ptr).duplicate();
        proof {
            let index = *current_state_ptr as int / program.spec_byte_class_count() as int;
            assert(self.states@[index].instrs_below(instrs@.len()));
            assert(current_state.instrs@ == self.states@[index].instrs@);
        }
        let ghost state_instrs = current_state.instrs@;
        let mut i: usize = 0;
        while i < current_state.instrs.len()
            invariant
                self.wf(program),
                program.is_runnable(),
                instrs@ == program.instrs@,
                self.states@.len() == n,
                self.states == old(self).states,
                self.start_state_cache == old(self).start_state_cache,
                self.cached_states == old(self).cached_states,
                self.transitions == old(self).transitions,
                self.total_state_size == old(self).total_state_size,
                current_state.instrs_below(instrs@.len()),
                state_instrs == current_state.instrs@,
                i <= current_state.instrs@.len(),
                self.current_threads@ == insert_all(left_current, state_instrs.take(i as int)),
                self.next_threads@ == left_next,
            decreases current_state.instrs@.len() - i,
        {
            let ghost before = self.current_threads@;
            self.current_threads.insert(current_state.instrs[i]);
            proof {
                assert(state_instrs.take(i + 1).drop_last() =~= state_instrs.take(i as int));
            }
            i = i + 1;
        }
        proof {
            assert(state_instrs.take(i as int) =~= state_instrs);
        }
        let ghost with_state = self.current_threads@;
        let mut next_state_flags = StateFlags(0);
        assert(!has_bit(0u8, 0u8)) by (bit_vector);
        let next_byte_is_cr = is_byte(byte, 0x0D);
        let next_byte_is_lf = is_byte(byte, 0x0A);
        let next_byte_is_word = is_word_byte(byte);
        let current_state_flags = current_state.flags();
        if current_state_flags.is_asserting() {
            let prev_byte_is_cr = current_state_flags.prev_byte_is_cr();
            let prev_byte_is_lf = current_state_flags.prev_byte_is_lf();
            let prev_byte_is_word = current_state_flags.prev_byte_is_word();
            let predicates = Predicates {
                is_at_start_of_text: false,
                is_at_end_of_text: byte.is_none(),
                is_at_start_of_line: prev_byte_is_lf || prev_byte_is_cr && !next_byte_is_lf,
                is_at_end_of_line: next_byte_is_lf && !prev_byte_is_cr || next_byte_is_cr,
                is_at_word_boundary: prev_byte_is_word != next_byte_is_word,
            };
            proof {
                assert(predicates == assert_predicates(current_state.flags, byte));
            }
            let mut j: usize = 0;
            while j < self.current_threads.as_slice().len()
                invariant
                    self.wf(program),
                    program.is_runnable(),
                    instrs@ == program.instrs@,
                    self.states@.len() == n,
                self.states == old(self).states,
                self.start_state_cache == old(self).start_state_cache,
                self.cached_states == old(self).cached_states,
                self.transitions == old(self).transitions,
                self.total_state_size == old(self).total_state_size,
                    self.current_threads@ == with_state,
                    j <= with_state.len(),
                    (self.next_threads@, next_state_flags.0) == search_each(
                        instrs@,
                        left_next,
                        with_state.take(j as int),
                        predicates,
                        0,
                    ),
                    !has_bit(next_state_flags.0, 0),
                decreases self.current_threads@.len() - j,
            {
                proof {
                    self.current_threads.lemma_wf();
                }
                let instr = self.current_threads.as_slice()[j];
                let ghost flags_before = next_state_flags.0;
                let ghost threads_before = self.next_threads@;
                proof {
                    assert(self.add_thread_stack@.push(instr) =~= seq![instr]);
                }
                add_thread(
                    &mut self.next_threads,
                    instrs,
                    instr,
                    predicates,
                    &mut next_state_flags,
                    &mut self.add_thread_stack,
                );
                proof {
                    lemma_set_flag(flags_before, 1, 0);
                    lemma_thread_search_empties_stack(instrs@, threads_before, seq![instr], predicates, flags_before);
                    assert(with_state.take(j + 1).drop_last() =~= with_state.take(j as int));
                    assert(with_state.take(j + 1).last() == instr);
                }
                j = j + 1;
            }
            proof {
                assert(with_state.take(j as int) =~= with_state);
            }
            std::mem::swap(&mut self.current_threads, &mut self.next_threads);
            self.next_threads.clear();
        }
        let ghost stepping = self.current_threads@;
        let ghost into = self.next_threads@;
        proof {
            assert(stepping == if has_bit(current_state.flags, 1) {
                search_each(instrs@, left_next, with_state, assert_predicates(current_state.flags, byte), 0).0
            } else {
                with_state
            });
            assert(into == if has_bit(current_state.flags, 1) {
                Seq::<usize>::empty()
            } else {
                left_next
            });
            lemma_set_flag(next_state_flags.0, 3, 0);
        }
        if next_byte_is_cr {
            next_state_flags.set_prev_byte_is_cr();
        }
        proof {
            lemma_set_flag(next_state_flags.0, 2, 0);
        }
        if next_byte_is_lf {
            next_state_flags.set_prev_byte_is_lf();
        }
        proof {
            lemma_set_flag(next_state_flags.0, 4, 0);
        }
        if next_byte_is_word {
            next_state_flags.set_prev_byte_is_word();
        }
        proof {
            assert(step_each(instrs@, into, stepping.take(0), byte, cx.options.continue_after_leftmost_match) == (
            into, false, false));
            assert(stepping.take(stepping.len() as int) =~= stepping);
            assert(!has_bit(next_state_flags.0, 0));
        }
        let mut k: usize = 0;
        while k < self.current_threads.as_slice().len()
            invariant_except_break
                !step_each(instrs@, into, stepping.take(k as int), byte, cx.options.continue_after_leftmost_match).2,
                self.next_threads@ == step_each(
                    instrs@,
                    into,
                    stepping.take(k as int),
                    byte,
                    cx.options.continue_after_leftmost_match,
                ).0,
                has_bit(next_state_flags.0, 0) == step_each(
                    instrs@,
                    into,
                    stepping.take(k as int),
                    byte,
                    cx.options.continue_after_leftmost_match,
                ).1,
            invariant
                self.wf(program),
                program.is_runnable(),
                instrs@ == program.instrs@,
                self.states@.len() == n,
                self.states == old(self).states,
                self.start_state_cache == old(self).start_state_cache,
                self.cached_states == old(self).cached_states,
                self.transitions == old(self).transitions,
                self.total_state_size == old(self).total_state_size,
                self.current_threads@ == stepping,
                k <= stepping.len(),
                stepping.take(stepping.len() as int) == stepping,
                never_matches(program) ==> !has_bit(next_state_flags.0, 0),
            ensures
                self.wf(program),
                self.states@.len() == n,
                self.states == old(self).states,
                self.start_state_cache == old(self).start_state_cache,
                self.cached_states == old(self).cached_states,
                self.transitions == old(self).transitions,
                self.total_state_size == old(self).total_state_size,
                k <= stepping.len(),
                (self.next_threads@, has_bit(next_state_flags.0, 0)) == ({
                    let r = step_each(instrs@, into, stepping, byte, cx.options.continue_after_leftmost_match);
                    (r.0, r.1)
                }),
                never_matches(program) ==> !has_bit(next_state_flags.0, 0),
            decreases self.current_threads@.len() - k,
        {
            proof {
                self.current_threads.lemma_wf();
            }
            let instr = self.current_threads.as_slice()[k];
            let ghost flags_before = next_state_flags.0;
            let ghost threads_before = self.next_threads@;
            let ghost t = stepping.take(k + 1);
            proof {
                lemma_set_flag(flags_before, 1, 0);
                lemma_set_flag(flags_before, 0, 0);
                assert(t.drop_last() =~= stepping.take(k as int));
                assert(t.last() == instr);
            }
            match instrs[instr] {
                Instr::Match => {
                    next_state_flags.set_is_matching();
                    if !cx.options.continue_after_leftmost_match {
                        proof {
                            lemma_step_each_stopped(
                                instrs@,
                                into,
                                stepping,
                                byte,
                                cx.options.continue_after_leftmost_match,
                                k + 1,
                            );
                        }
                        break;
                    }
                },
                Instr::ByteRange(byte_range, to) => {
                    let in_range = match byte {
                        Some(b) => byte_range.contains(&b),
                        None => false,
                    };
                    if in_range {
                        assert(instrs@[instr as int].targets_below(instrs@.len()));
                        proof {
                            assert(self.add_thread_stack@.push(to) =~= seq![to]);
                        }
                        let no_predicates_here = Predicates {
                            is_at_start_of_text: false,
                            is_at_end_of_text: false,
                            is_at_start_of_line: false,
                            is_at_end_of_line: false,
                            is_at_word_boundary: false,
                        };
                        add_thread(
                            &mut self.next_threads,
                            instrs,
                            to,
                            no_predicates_here,
                            &mut next_state_flags,
                            &mut self.add_thread_stack,
                        );
                        proof {
                            lemma_thread_search_empties_stack(
                                instrs@,
                                threads_before,
                                seq![to],
                                no_predicates(),
                                flags_before,
                            );
                            lemma_thread_search_flags(
                                instrs@,
                                threads_before,
                                seq![to],
                                no_predicates(),
                                flags_before,
                                0,
                            );
                        }
                    }
                },
                _ => {},
            }
            k = k + 1;
        }
        proof {
            if k == stepping.len() {
                assert(stepping.take(k as int) =~= stepping);
            }
        }
        if !next_state_flags.is_matching() && self.next_threads.is_empty() {
            proof {
                let current = start.states[*old(current_state_ptr) as int / program.spec_byte_class_count() as int];
                let sets = step_sets(program.instrs@, start.current, start.next, current.0, current.1, byte);
                assert(self.states@.map_values(|s: State| (s.flags, s.instrs@)) =~= start.states);
                assert(self.cache() =~= DfaCache { current: sets.0, next: Seq::empty(), ..start });
            }
            return Ok(DEAD_STATE_PTR);
        }
        proof {
            self.next_threads.lemma_wf();
        }
        let next_state = State::new(current_state_flags, self.next_threads.as_slice());
        self.current_threads.clear();
        self.next_threads.clear();
        proof {
            assert(self.states@.map_values(|s: State| (s.flags, s.instrs@)) =~= start.states);
            assert(self.cache() =~= DfaCache { current: Seq::empty(), next: Seq::empty(), ..start });
        }
        proof {
            let nn = program.instrs@.len() as int;
            if (forall|i: int| 0 <= i < self.states@.len() ==> lowest(#[trigger] self.states@[i].instrs@, nn) <= bound)
                && lowest(next_state.instrs@, nn) > bound {
                assert forall|i: int| 0 <= i < self.cached_states@.len() implies !(self.states@[
                #[trigger] self.cached_states@[i] as int].flags == next_state.flags && self.states@[
                self.cached_states@[i] as int].instrs@ == next_state.instrs@) by {
                    let q = self.cached_states@[i] as int;
                    assert(lowest(self.states@[q].instrs@, nn) <= bound);
                }
            }
        }
        let (result, retained) = self.get_or_add_state(cx, next_state, Some(*current_state_ptr), Ghost(bound));
        *current_state_ptr = retained.unwrap();
        match result {
            Ok(state_ptr) => {
                proof {
                    lemma_matching_flag(state_ptr);
                    assert(unflagged(state_ptr) == state_ptr);
                    assert(state_ptr < MATCHING_STATE_FLAG);
                    assert(unflagged((state_ptr + MATCHING_STATE_FLAG) as u32) == state_ptr);
                }
                if next_state_flags.is_matching() {
                    Ok(state_ptr | MATCHING_STATE_FLAG)
                } else {
                    Ok(state_ptr)
                }
            },
            Err(error) => Err(error),
        }
    }
}


impl Dfa {
    /// Runs the DFA from the cursor to the end of the text and gives where
    /// the last match it found ends, or `None` when it found none. With
    /// `stop_after_first_match`, it gives the first. What it gives, and what
    /// the cache holds afterwards, is `DfaCache::run` on what the cache held:
    /// each byte is looked up in the transitions at the state pointer plus
    /// the byte's class, states are read at the pointer divided by the number
    /// of classes, and unknown transitions are computed and remembered. A
    /// fresh DFA over a program with one byte class whose instructions
    /// continue only forward gives what stepping the threads over the bytes
    /// gives (`spec_run`). The run gives up with an error only when the cache
    /// has grown past `options.max_size` and too few bytes were read since
    /// the run started, ten per cached state, for clearing it to pay.
    pub fn run(&mut self, program: &Program, cursor: StrCursor, options: Options) -> (r: Result<
        Option<usize>,
        RunError,
    >)
        requires
            old(self).wf(program),
            program.is_runnable(),
            cursor.wf(),
            options.max_size <= MAX_MAX_SIZE,
        ensures
            final(self).wf(program),
            r matches Ok(Some(end)) ==> cursor.position() <= end <= cursor.text().len(),
            never_matches(program) ==> !(r matches Ok(Some(_))),
            r is Err ==> final(self).cache_size(program) > options.max_size && final(self).state_count() > 0,
            old(self).is_fresh() && program.spec_byte_class_count() == 1 && is_forward(program.instrs@) ==> (r matches Ok(
                x,
            ) ==> x == spec_run(program, cursor.text(), cursor.position() as int, options)),
            (r, final(self).cache()) == old(self).cache().run(program, cursor.text(), cursor.position() as int, options),
    {
        let last_clear = cursor.byte_position();
        self.run_from(RunContext { program, cursor, options, last_clear })
    }

    #[verifier::rlimit(50)]
    fn run_from(&mut self, context: RunContext) -> (r: Result<Option<usize>, RunError>)
        requires
            old(self).wf(context.program),
            context.wf(),
        ensures
            final(self).wf(context.program),
            r matches Ok(Some(end)) ==> context.cursor.position() <= end <= context.cursor.text().len(),
            never_matches(context.program) ==> !(r matches Ok(Some(_))),
            r is Err ==> final(self).cache_size(context.program) > context.options.max_size
                && context.cursor.position() - context.last_clear < 10 * final(self).state_count(),
            old(self).is_fresh() && context.program.spec_byte_class_count() == 1 && is_forward(
                context.program.instrs@,
            ) ==> (r matches Ok(x) ==> x == spec_run(
                context.program,
                context.cursor.text(),
                context.cursor.position() as int,
                context.options,
            )),
            (r, final(self).cache()) == old(self).cache().run_at(
                context.program,
                context.cursor.text(),
                context.cursor.position() as int,
                context.last_clear as int,
                context.options,
            ),
    {
        let ghost start_cache = old(self).cache();
        let mut cx = context;
        let program = cx.program;
        let ghost start = cx.cursor.position();
        let ghost text = cx.cursor.text();
        let ghost exact = old(self).is_fresh() && program.spec_byte_class_count() == 1 && is_forward(program.instrs@);
        let ghost n_instrs = program.instrs@.len() as int;
        let ghost target = spec_run(program, text, start as int, cx.options);
        let ghost search = thread_search(
            program.instrs@,
            Seq::empty(),
            seq![program.start],
            predicates_at(text, start as int),
            0,
        );
        let ghost mut threads: Seq<usize> = search.0;
        let ghost flags: u8 = search.2;
        let mut last_match: Option<usize> = None;
        let mut current_state_ptr = UNKNOWN_STATE_PTR;
        let mut next_state_ptr = match self.get_or_create_start_state(&cx) {
            Ok(state_ptr) => state_ptr,
            Err(error) => return Err(error),
        };
        let ghost lc = context.last_clear as int;
        let ghost opts = context.options;
        let ghost expected = self.cache().run_from(program, text, start as int, lc, opts, next_state_ptr, None);
        proof {
            assert(expected == start_cache.run_at(program, text, start as int, lc, opts));
        }
        proof {
            if exact {
                assert(old(self).current_threads@ =~= Seq::<usize>::empty());
                assert(old(self).start_state_cache@[predicates_at(text, start as int).spec_bits() as int]
                    == UNKNOWN_STATE_PTR);
                assert(target == spec_run_from(program.instrs@, text, start as int, threads, flags, cx.options, None));
            }
        }
        while !cx.cursor.is_at_end_of_text()
            invariant
                self.wf(program),
                cx.wf(),
                cx.program == program,
                program == context.program,
                cx.last_clear == context.last_clear,
                cx.options == context.options,
                start == context.cursor.position(),
                text == context.cursor.text(),
                cx.cursor.text() == text,
                start <= cx.cursor.position(),
                next_state_ptr < self.states@.len(),
                last_match matches Some(end) ==> start <= end <= text.len(),
                never_matches(program) ==> last_match is None,
                n_instrs == program.instrs@.len(),
                exact == (old(self).is_fresh() && program.spec_byte_class_count() == 1 && is_forward(program.instrs@)),
                target == spec_run(program, text, start as int, context.options),
                lc == context.last_clear,
                opts == context.options,
                expected == self.cache().run_from(program, text, cx.cursor.position() as int, lc, opts, next_state_ptr, last_match),
                expected == start_cache.run_at(program, text, start as int, lc, opts),
                start_cache == old(self).cache(),
                exact ==> {
                    &&& self.states@[next_state_ptr as int].instrs@ == threads
                    &&& self.states@[next_state_ptr as int].flags == flags
                    &&& self.transitions@[next_state_ptr as int] == UNKNOWN_STATE_PTR
                    &&& forall|i: int|
                        0 <= i < self.states@.len() ==> lowest(#[trigger] self.states@[i].instrs@, n_instrs)
                            <= lowest(threads, n_instrs)
                    &&& self.current_threads@.len() == 0
                    &&& self.next_threads@.len() == 0
                    &&& spec_run_from(
                        program.instrs@,
                        text,
                        cx.cursor.position() as int,
                        threads,
                        flags,
                        context.options,
                        last_match,
                    ) == target
                },
            decreases text.len() - cx.cursor.position(),
        {
            let ghost entry_ptr = next_state_ptr;
            let ghost entry_position = cx.cursor.position();
            let ghost mut moved = false;
            let ghost self_entry = *self;
            while next_state_ptr <= MAX_STATE_PTR && !cx.cursor.is_at_end_of_text()
                invariant
                    self.wf(program),
                    cx.wf(),
                    cx.program == program,
                    cx.last_clear == context.last_clear,
                    cx.options == context.options,
                    cx.cursor.text() == text,
                    start <= cx.cursor.position(),
                    is_transition(next_state_ptr, self.states@.len()),
                    !moved ==> next_state_ptr == entry_ptr && entry_ptr < self.states@.len() && cx.cursor.position() < text.len(),
                    moved ==> current_state_ptr < self.states@.len() && entry_position + 1 <= cx.cursor.position(),
                    entry_position <= cx.cursor.position(),
                    start <= entry_position,
                    never_matches(program) ==> next_state_ptr < MATCHING_STATE_FLAG || next_state_ptr
                        == UNKNOWN_STATE_PTR || next_state_ptr == DEAD_STATE_PTR,
                    *self == self_entry,
                    exact ==> program.spec_byte_class_count() == 1,
                    exact ==> self.transitions@[entry_ptr as int] == UNKNOWN_STATE_PTR,
                    !moved ==> cx.cursor.position() == entry_position,
                    exact && moved ==> next_state_ptr == UNKNOWN_STATE_PTR && current_state_ptr == entry_ptr
                        && cx.cursor.position() == entry_position + 1,
                    lc == context.last_clear,
                    opts == context.options,
                    text == context.cursor.text(),
                    expected == start_cache.run_at(program, text, start as int, lc, opts),
                    start_cache == old(self).cache(),
                    next_state_ptr <= MAX_STATE_PTR ==> expected == self.cache().run_from(
                        program,
                        text,
                        cx.cursor.position() as int,
                        lc,
                        opts,
                        next_state_ptr,
                        last_match,
                    ),
                    next_state_ptr > MAX_STATE_PTR ==> {
                        &&& moved
                        &&& cx.cursor.position() >= 1
                        &&& self.transitions@[current_state_ptr + program.byte_classes@[text[cx.cursor.position() - 1] as int]]
                            == next_state_ptr
                        &&& expected == self.cache().run_from(
                            program,
                            text,
                            cx.cursor.position() - 1,
                            lc,
                            opts,
                            current_state_ptr,
                            last_match,
                        )
                    },
                decreases text.len() - cx.cursor.position(),
            {
                let ghost pos = cx.cursor.position() as int;
                current_state_ptr = next_state_ptr;
                let byte = cx.cursor.next_byte().unwrap();
                let byte_class = program.byte_classes[byte as usize];
                proof {
                    if exact {
                        assert(program.byte_classes@[byte as int] <= program.byte_classes@[255]);
                    }
                }
                let index = self.transition_index(program, current_state_ptr, byte_class);
                next_state_ptr = self.transitions[index];
                proof {
                    moved = true;
                    assert(byte == text[pos]);
                    assert(self.cache().transitions[current_state_ptr + byte_class] == next_state_ptr);
                }
            }
            let ghost pos0 = cx.cursor.position() - 1;
            let ghost cur0 = current_state_ptr;
            let ghost m0 = self.cache();
            proof {
                lemma_matching_flag(next_state_ptr);
                if next_state_ptr > MAX_STATE_PTR {
                    assert(m0.transitions[cur0 + program.byte_classes@[text[pos0] as int]] == next_state_ptr);
                }
            }
            if next_state_ptr == UNKNOWN_STATE_PTR {
                let byte = cx.cursor.peek_prev_byte().unwrap();
                let ghost before_step = *self;
                let ghost bound = lowest(threads, n_instrs);
                let ghost step = next_step(
                    program.instrs@,
                    Seq::empty(),
                    Seq::empty(),
                    flags,
                    threads,
                    Some(byte),
                    cx.options.continue_after_leftmost_match,
                );
                proof {
                    if exact {
                        assert(byte == text[entry_position as int]);
                        assert(current_state_ptr as int / program.spec_byte_class_count() as int == entry_ptr);
                        assert(self.current_threads@ =~= Seq::<usize>::empty());
                        assert(self.next_threads@ =~= Seq::<usize>::empty());
                        assert forall|k: int| 0 <= k < threads.len() implies #[trigger] threads[k] < n_instrs by {
                            assert(self.states@[entry_ptr as int].instrs_below(program.instrs@.len()));
                        }
                        if threads.len() > 0 {
                            lemma_next_step_above(
                                program.instrs@,
                                flags,
                                threads,
                                Some(byte),
                                cx.options.continue_after_leftmost_match,
                            );
                        } else {
                            lemma_next_step_of_nothing(
                                program.instrs@,
                                flags,
                                threads,
                                Some(byte),
                                cx.options.continue_after_leftmost_match,
                            );
                        }
                    }
                }
                next_state_ptr = match self.get_or_create_next_state(
                    &cx,
                    &mut current_state_ptr,
                    Some(byte),
                    Ghost(bound),
                ) {
                    Ok(state_ptr) => state_ptr,
                    Err(error) => {
                        proof {
                            assert(byte == text[pos0]);
                        }
                        return Err(error);
                    },
                };
                let ghost after_step = *self;
                let ghost m1 = self.cache();
                let index = self.transition_index(program, current_state_ptr, program.byte_classes[byte as usize]);
                self.transitions.set(index, next_state_ptr);
                proof {
                    assert(byte == text[pos0]);
                    assert(self.cache() =~= DfaCache {
                        transitions: m1.transitions.update(current_state_ptr + program.byte_classes@[byte as int], next_state_ptr),
                        ..m1
                    });
                    assert(expected == self.cache().run_after(program, text, pos0, lc, opts, next_state_ptr, last_match));
                }
                proof {
                    if exact {
                        assert(program.byte_classes@[byte as int] <= program.byte_classes@[255]);
                        if next_state_ptr != DEAD_STATE_PTR {
                            let u = unflagged(next_state_ptr);
                            assert(self.transitions@[u] == UNKNOWN_STATE_PTR);
                            assert(self.states == after_step.states);
                        }
                    }
                }
                proof {
                    if exact {
                        threads = step.0;
                    }
                }
            } else {
                proof {
                    if exact {
                        assert(false);
                    }
                    if next_state_ptr > MAX_STATE_PTR {
                        assert(expected == self.cache().run_after(program, text, pos0, lc, opts, next_state_ptr, last_match));
                    }
                }
            }
            let ghost p0 = next_state_ptr;
            let ghost last0 = last_match;
            proof {
                lemma_matching_flag(next_state_ptr);
            }
            if next_state_ptr & MATCHING_STATE_FLAG != 0 {
                last_match = Some(cx.cursor.byte_position() - 1);
                if cx.options.stop_after_first_match {
                    return Ok(last_match);
                }
                next_state_ptr = next_state_ptr & !MATCHING_STATE_FLAG;
            }
            if next_state_ptr == DEAD_STATE_PTR {
                return Ok(last_match);
            }
            if next_state_ptr == ERROR_STATE_PTR {
                return Err(RunError);
            }
            proof {
                if p0 > MAX_STATE_PTR {
                    assert(expected == self.cache().run_from(program, text, pos0 + 1, lc, opts, next_state_ptr, last_match));
                }
            }
        }
        proof {
            lemma_matching_flag(next_state_ptr);
        }
        current_state_ptr = next_state_ptr & MAX_STATE_PTR;
        proof {
            if exact {
                assert(self.current_threads@ =~= Seq::<usize>::empty());
                assert(self.next_threads@ =~= Seq::<usize>::empty());
                assert(current_state_ptr as int / program.spec_byte_class_count() as int == next_state_ptr);
            }
        }
        proof {
            assert(current_state_ptr == next_state_ptr);
        }
        next_state_ptr = match self.get_or_create_next_state(&cx, &mut current_state_ptr, None, Ghost(0)) {
            Ok(state_ptr) => state_ptr,
            Err(error) => return Err(error),
        };
        proof {
            lemma_matching_flag(next_state_ptr);
        }
        if next_state_ptr & MATCHING_STATE_FLAG != 0 {
            last_match = Some(cx.cursor.byte_position());
        }
        Ok(last_match)
    }
}

/// A state without threads steps to no threads and does not match.
proof fn lemma_next_step_of_nothing(
    instrs: Seq<Instr>,
    flags: u8,
    threads: Seq<usize>,
    byte: Option<u8>,
    cont: bool,
)
    requires
        threads.len() == 0,
    ensures
        next_step(instrs, Seq::empty(), Seq::empty(), flags, threads, byte, cont).0.len() == 0,
        !next_step(instrs, Seq::empty(), Seq::empty(), flags, threads, byte, cont).1,
{
    let empty = Seq::<usize>::empty();
    assert(insert_all(empty, threads) == empty);
    assert(search_each(instrs, empty, insert_all(empty, threads), assert_predicates(flags, byte), 0).0 == empty);
    let (stepping, into) = step_sets(instrs, empty, empty, flags, threads, byte);
    assert(stepping.len() == 0 && into.len() == 0);
    assert(step_each(instrs, into, stepping, byte, cont) == (into, false, false));
}

} // verus!
