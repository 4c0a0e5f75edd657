pub mod ast;
pub mod byte_class_set;
pub mod case_folder;
pub mod char;
pub mod compiler;
pub mod dfa;
pub mod nfa;
pub mod parser;
pub mod prog;
pub mod program;
pub mod range;
pub mod str_cursor;

use vstd::prelude::*;
use vstd::std_specs::convert::FromSpecImpl;

verus! {

/// Why a regular expression could not be built.
#[derive(Clone, Copy, Debug, PartialEq, Eq, Structural, Hash)]
pub enum Error {
    /// The pattern is malformed.
    Parse,
}

impl From<parser::ParseError> for Error {
    fn from(_error: parser::ParseError) -> (e: Self) {
        Error::Parse
    }
}

impl FromSpecImpl<parser::ParseError> for Error {
    open spec fn obeys_from_spec() -> bool {
        true
    }

    open spec fn from_spec(v: parser::ParseError) -> Self {
        Error::Parse
    }
}

/// Parses a pattern; a malformed one gives `Error::Parse`.
pub fn parse_pattern(pattern: &str) -> (r: Result<ast::Ast, Error>)
    requires
        !(parser::spec_parse(pattern@) is Stuck),
    ensures
        match parser::spec_parse(pattern@) {
            parser::Parsed::Done(a, _) => r == Ok::<ast::Ast, Error>(a),
            _ => r == Err::<ast::Ast, Error>(Error::Parse),
        },
{
    match parser::parse(pattern) {
        Ok(ast) => Ok(ast),
        Err(error) => Err(Error::from(error)),
    }
}

} // verus!
