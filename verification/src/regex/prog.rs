use vstd::prelude::*;

verus! {

/// The index of an instruction in a program.
pub type InstrPtr = usize;

/// A program for a backtracking or breadth-first matcher.
#[derive(Clone, Debug, PartialEq, Eq, Hash)]
pub struct Prog {
    pub instrs: Vec<Instr>,
    pub start: InstrPtr,
}

/// An instruction; every instruction but `Match` names the ones that follow it.
#[derive(Clone, Copy, Debug, PartialEq, Eq, Structural, Hash)]
pub enum Instr {
    /// The input matches.
    Match,
    /// Go on without consuming input.
    Empty(InstrPtr),
    /// Consume the given character.
    Char(char, InstrPtr),
    /// Go on at both instructions, the first one preferred.
    Split(InstrPtr, InstrPtr),
}

} // verus!
