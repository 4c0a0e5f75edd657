use vstd::prelude::*;

verus! {

/// A regular expression.
#[derive(Debug, PartialEq, Eq, Hash)]
pub enum Ast {
    /// Matches the empty string.
    Empty,
    /// Matches one character.
    Char(char),
    /// A repetition, with its quantifier and whether it is non-greedy.
    Rep(Box<Ast>, Quant, bool),
    /// The first expression followed by the second.
    Cat(Box<Ast>, Box<Ast>),
    /// Either expression.
    Alt(Box<Ast>, Box<Ast>),
}

/// How often a repeated expression may occur.
#[derive(Clone, Copy, Debug, PartialEq, Eq, Structural, Hash)]
pub enum Quant {
    /// Zero or one time (`?`).
    Quest,
    /// Any number of times (`*`).
    Star,
    /// At least once (`+`).
    Plus,
}

impl Ast {
    /// The number of nodes of the expression that emit an instruction: every
    /// node but concatenation.
    pub open spec fn size(self) -> nat
        decreases self,
    {
        match self {
            Ast::Empty => 1,
            Ast::Char(_) => 1,
            Ast::Rep(a, _, _) => 1 + a.size(),
            Ast::Cat(a, b) => a.size() + b.size(),
            Ast::Alt(a, b) => 1 + a.size() + b.size(),
        }
    }
}

} // verus!
