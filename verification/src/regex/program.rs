use vstd::prelude::*;
use crate::regex::range::Range;

verus! {

/// The index of an instruction in a program.
pub type InstrPtr = usize;

/// A byte-level program, with the class of each byte.
#[derive(Clone, Debug)]
pub struct Program {
    pub instrs: Vec<Instr>,
    pub start: InstrPtr,
    pub byte_classes: Vec<u8>,
}

impl Program {
    /// The number of byte classes: one more than the class of the last byte.
    pub fn byte_class_count(&self) -> (n: usize)
        requires
            self.byte_classes@.len() == 256,
        ensures
            n == self.byte_classes@[255] + 1,
    {
        self.byte_classes[255] as usize + 1
    }

    /// Every instruction continues at an instruction of the program.
    pub open spec fn wf(&self) -> bool {
        forall|i: int| 0 <= i < self.instrs@.len() ==> #[trigger] self.instrs@[i].targets_below(self.instrs@.len())
    }

    /// The number of byte classes.
    pub open spec fn spec_byte_class_count(&self) -> nat {
        self.byte_classes@[255] as nat + 1
    }

    /// What a DFA needs to run the program: instructions that continue inside
    /// it, a start among them, and a class for each of the 256 bytes, the last
    /// byte having the highest.
    pub open spec fn is_runnable(&self) -> bool {
        &&& self.wf()
        &&& self.start < self.instrs@.len()
        &&& self.byte_classes@.len() == 256
        &&& forall|b: int| 0 <= b < 256 ==> #[trigger] self.byte_classes@[b] <= self.byte_classes@[255]
    }
}

/// A byte-level instruction.
#[derive(Clone, Copy, Debug, PartialEq, Eq, Structural, Hash)]
pub enum Instr {
    Match,
    /// Consume a byte in the range.
    ByteRange(Range<u8>, InstrPtr),
    /// Go on if the predicate holds at the current position.
    Assert(Predicate, InstrPtr),
    Split(InstrPtr, InstrPtr),
}

impl Instr {
    pub open spec fn targets_below(self, n: nat) -> bool {
        match self {
            Instr::Match => true,
            Instr::ByteRange(_, next) => next < n,
            Instr::Assert(_, next) => next < n,
            Instr::Split(next_0, next_1) => next_0 < n && next_1 < n,
        }
    }
}

/// A condition on the position between two bytes.
#[derive(Clone, Copy, Debug, PartialEq, Eq, Structural, Hash)]
pub enum Predicate {
    IsAtStartOfText,
    IsAtEndOfText,
    IsAtStartOfLine,
    IsAtEndOfLine,
    IsAtWordBoundary,
    IsNotAtWordBoundary,
}

} // verus!
