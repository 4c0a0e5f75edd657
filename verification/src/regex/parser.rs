use vstd::prelude::*;
use crate::regex::ast::{Ast, Quant};

verus! {

/// The pattern is not a well-formed regular expression.
#[derive(Clone, Debug, PartialEq, Eq, Hash)]
pub struct ParseError;

/// The outcome of parsing from a position of a pattern.
pub enum Parsed {
    /// An expression, and the position after it.
    Done(Ast, int),
    /// The pattern is malformed.
    Failed,
    /// The parser runs past the end of the pattern where an expression must
    /// follow a `|`.
    Stuck,
}

/// The character at `i`, if any.
pub open spec fn peek(s: Seq<char>, i: int) -> Option<char> {
    if 0 <= i < s.len() {
        Some(s[i])
    } else {
        None
    }
}

/// The quantifier that a character stands for.
pub open spec fn spec_quant(ch: char) -> Option<Quant> {
    if ch == '?' {
        Some(Quant::Quest)
    } else if ch == '*' {
        Some(Quant::Star)
    } else if ch == '+' {
        Some(Quant::Plus)
    } else {
        None
    }
}

/// Whether a concatenation ends before position `i`.
pub open spec fn ends_cat(s: Seq<char>, i: int) -> bool {
    peek(s, i) == Some('|') || peek(s, i) == Some(')') || peek(s, i) is None
}

/// An expression: empty before `)` or at the end, an alternation otherwise.
pub open spec fn spec_parse_expr(s: Seq<char>, i: int) -> Parsed
    decreases s.len() - i, 6int,
{
    if peek(s, i) == Some(')') || peek(s, i) is None {
        Parsed::Done(Ast::Empty, i)
    } else {
        spec_parse_alt(s, i)
    }
}

/// Concatenations separated by `|`, grouped to the left.
pub open spec fn spec_parse_alt(s: Seq<char>, i: int) -> Parsed
    decreases s.len() - i, 5int,
{
    match spec_parse_cat(s, i) {
        Parsed::Done(a, j) => if i < j <= s.len() {
            spec_parse_alt_rest(s, a, j)
        } else {
            Parsed::Stuck
        },
        other => other,
    }
}

/// The rest of an alternation whose first alternatives make up `a` and end
/// before `j`.
pub open spec fn spec_parse_alt_rest(s: Seq<char>, a: Ast, j: int) -> Parsed
    decreases s.len() - j, 5int,
{
    if peek(s, j) == Some('|') {
        match spec_parse_cat(s, j + 1) {
            Parsed::Done(b, k) => if j < k <= s.len() {
                spec_parse_alt_rest(s, Ast::Alt(Box::new(a), Box::new(b)), k)
            } else {
                Parsed::Stuck
            },
            other => other,
        }
    } else {
        Parsed::Done(a, j)
    }
}

/// Repetitions one after the other, grouped to the right.
pub open spec fn spec_parse_cat(s: Seq<char>, i: int) -> Parsed
    decreases s.len() - i, 4int,
{
    match spec_parse_rep(s, i) {
        Parsed::Done(a, j) => if ends_cat(s, j) {
            Parsed::Done(a, j)
        } else if i < j <= s.len() {
            match spec_parse_cat(s, j) {
                Parsed::Done(b, k) => Parsed::Done(Ast::Cat(Box::new(a), Box::new(b)), k),
                other => other,
            }
        } else {
            Parsed::Stuck
        },
        other => other,
    }
}

/// An atom, followed by a quantifier and an optional `?` for non-greedy.
pub open spec fn spec_parse_rep(s: Seq<char>, i: int) -> Parsed
    decreases s.len() - i, 3int,
{
    match spec_parse_atom(s, i) {
        Parsed::Done(a, j) => match peek(s, j) {
            Some(ch) => match spec_quant(ch) {
                Some(q) => if peek(s, j + 1) == Some('?') {
                    Parsed::Done(Ast::Rep(Box::new(a), q, true), j + 2)
                } else {
                    Parsed::Done(Ast::Rep(Box::new(a), q, false), j + 1)
                },
                None => Parsed::Done(a, j),
            },
            None => Parsed::Done(a, j),
        },
        other => other,
    }
}

/// A parenthesized expression or any other single character.
pub open spec fn spec_parse_atom(s: Seq<char>, i: int) -> Parsed
    decreases s.len() - i, 2int,
{
    match peek(s, i) {
        Some(ch) => if ch == '(' {
            match spec_parse_expr(s, i + 1) {
                Parsed::Done(a, j) => if peek(s, j) == Some(')') {
                    Parsed::Done(a, j + 1)
                } else {
                    Parsed::Failed
                },
                other => other,
            }
        } else {
            Parsed::Done(Ast::Char(ch), i + 1)
        },
        None => Parsed::Stuck,
    }
}

/// The result of parsing a whole pattern.
pub open spec fn spec_parse(s: Seq<char>) -> Parsed {
    spec_parse_expr(s, 0)
}

/// Where each parser stops: expressions may be empty, everything else takes
/// at least one character, and concatenations stop before `|`, `)` or the end.
pub proof fn lemma_parse_progress(s: Seq<char>, i: int)
    requires
        0 <= i <= s.len(),
    ensures
        spec_parse_expr(s, i) matches Parsed::Done(_, j) ==> i <= j <= s.len(),
        spec_parse_alt(s, i) matches Parsed::Done(_, j) ==> i < j <= s.len(),
        spec_parse_cat(s, i) matches Parsed::Done(_, j) ==> i < j <= s.len() && ends_cat(s, j),
        spec_parse_rep(s, i) matches Parsed::Done(_, j) ==> i < j <= s.len(),
        spec_parse_atom(s, i) matches Parsed::Done(_, j) ==> i < j <= s.len(),
    decreases s.len() - i,
{
    if i < s.len() {
        lemma_parse_progress(s, i + 1);
        if let Parsed::Done(_, j) = spec_parse_rep(s, i) {
            if i < j <= s.len() {
                lemma_parse_progress(s, j);
            }
        }
        if let Parsed::Done(a, j) = spec_parse_cat(s, i) {
            lemma_parse_alt_rest_progress(s, a, j);
        }
    }
}

/// The rest of an alternation stops no earlier than it starts.
pub proof fn lemma_parse_alt_rest_progress(s: Seq<char>, a: Ast, j: int)
    requires
        0 <= j <= s.len(),
    ensures
        spec_parse_alt_rest(s, a, j) matches Parsed::Done(_, k) ==> j <= k <= s.len(),
    decreases s.len() - j,
{
    if peek(s, j) == Some('|') {
        lemma_parse_progress(s, j + 1);
        if let Parsed::Done(b, k) = spec_parse_cat(s, j + 1) {
            if j < k <= s.len() {
                lemma_parse_alt_rest_progress(s, Ast::Alt(Box::new(a), Box::new(b)), k);
            }
        }
    }
}

/// The quantifier a character after an atom stands for.
pub open spec fn quantifier_of(ch: Option<char>) -> Option<Quant> {
    if ch == Some('?') {
        Some(Quant::Quest)
    } else if ch == Some('*') {
        Some(Quant::Star)
    } else if ch == Some('+') {
        Some(Quant::Plus)
    } else {
        None
    }
}

/// After an atom, `?`, `*` or `+` repeats it. A `?` right after the
/// quantifier makes the repetition non-greedy and is taken with it, whichever
/// quantifier it follows; without it the repetition is greedy. An atom
/// followed by anything else stands alone.
pub proof fn lemma_quantifier_greediness(s: Seq<char>, i: int)
    requires
        0 <= i <= s.len(),
    ensures
        spec_parse_atom(s, i) matches Parsed::Done(a, j) ==> match quantifier_of(peek(s, j)) {
            Some(q) => {
                &&& peek(s, j + 1) == Some('?') ==> spec_parse_rep(s, i) == Parsed::Done(
                    Ast::Rep(Box::new(a), q, true),
                    j + 2,
                )
                &&& peek(s, j + 1) != Some('?') ==> spec_parse_rep(s, i) == Parsed::Done(
                    Ast::Rep(Box::new(a), q, false),
                    j + 1,
                )
            },
            None => spec_parse_rep(s, i) == Parsed::Done(a, j),
        },
{
}

/// A whole pattern of one character that is not a parenthesis, a quantifier
/// and `?` parses as the non-greedy repetition of that character.
pub proof fn lemma_non_greedy_pattern(c: char, quantifier: char)
    requires
        c != '(',
        c != ')',
        quantifier == '?' || quantifier == '*' || quantifier == '+',
    ensures
        spec_parse(seq![c, quantifier, '?']) == Parsed::Done(
            Ast::Rep(Box::new(Ast::Char(c)), quantifier_of(Some(quantifier))->0, true),
            3,
        ),
{
    let s = seq![c, quantifier, '?'];
    lemma_quantifier_greediness(s, 0);
    assert(spec_parse_atom(s, 0) == Parsed::Done(Ast::Char(c), 1));
    let a = Ast::Rep(Box::new(Ast::Char(c)), quantifier_of(Some(quantifier))->0, true);
    assert(spec_parse_rep(s, 0) == Parsed::Done(a, 3));
    assert(spec_parse_cat(s, 0) == Parsed::Done(a, 3));
    assert(spec_parse_alt_rest(s, a, 3) == Parsed::Done(a, 3));
    assert(spec_parse_alt(s, 0) == Parsed::Done(a, 3));
}

/// A character that is no parenthesis, bar or quantifier.
pub open spec fn is_plain(c: char) -> bool {
    c != '(' && c != ')' && c != '|' && c != '?' && c != '*' && c != '+'
}

/// The empty pattern is the empty expression; a plain character stands for
/// itself; two plain characters are their concatenation; two plain
/// characters around a bar are the alternation of the two; parentheses
/// around a plain character group it without changing it.
pub proof fn lemma_small_patterns(a: char, b: char)
    requires
        is_plain(a),
        is_plain(b),
    ensures
        spec_parse(Seq::<char>::empty()) == Parsed::Done(Ast::Empty, 0),
        spec_parse(seq![a]) == Parsed::Done(Ast::Char(a), 1),
        spec_parse(seq![a, b]) == Parsed::Done(Ast::Cat(Box::new(Ast::Char(a)), Box::new(Ast::Char(b))), 2),
        spec_parse(seq![a, '|', b]) == Parsed::Done(Ast::Alt(Box::new(Ast::Char(a)), Box::new(Ast::Char(b))), 3),
        spec_parse(seq!['(', a, ')']) == Parsed::Done(Ast::Char(a), 3),
{
    let s1 = seq![a];
    assert(spec_parse_rep(s1, 0) == Parsed::Done(Ast::Char(a), 1));
    assert(spec_parse_cat(s1, 0) == Parsed::Done(Ast::Char(a), 1));
    assert(spec_parse_alt(s1, 0) == Parsed::Done(Ast::Char(a), 1));

    let s2 = seq![a, b];
    assert(spec_parse_rep(s2, 1) == Parsed::Done(Ast::Char(b), 2));
    assert(spec_parse_cat(s2, 1) == Parsed::Done(Ast::Char(b), 2));
    assert(spec_parse_rep(s2, 0) == Parsed::Done(Ast::Char(a), 1));
    let ab = Ast::Cat(Box::new(Ast::Char(a)), Box::new(Ast::Char(b)));
    assert(spec_parse_cat(s2, 0) == Parsed::Done(ab, 2));
    assert(spec_parse_alt(s2, 0) == Parsed::Done(ab, 2));

    let s3 = seq![a, '|', b];
    assert(spec_parse_rep(s3, 0) == Parsed::Done(Ast::Char(a), 1));
    assert(spec_parse_cat(s3, 0) == Parsed::Done(Ast::Char(a), 1));
    assert(spec_parse_rep(s3, 2) == Parsed::Done(Ast::Char(b), 3));
    assert(spec_parse_cat(s3, 2) == Parsed::Done(Ast::Char(b), 3));
    let alt = Ast::Alt(Box::new(Ast::Char(a)), Box::new(Ast::Char(b)));
    assert(spec_parse_alt_rest(s3, alt, 3) == Parsed::Done(alt, 3));
    assert(spec_parse_alt_rest(s3, Ast::Char(a), 1) == Parsed::Done(alt, 3));
    assert(spec_parse_alt(s3, 0) == Parsed::Done(alt, 3));

    let s4 = seq!['(', a, ')'];
    assert(spec_parse_rep(s4, 1) == Parsed::Done(Ast::Char(a), 2));
    assert(spec_parse_cat(s4, 1) == Parsed::Done(Ast::Char(a), 2));
    assert(spec_parse_alt(s4, 1) == Parsed::Done(Ast::Char(a), 2));
    assert(spec_parse_expr(s4, 1) == Parsed::Done(Ast::Char(a), 2));
    assert(spec_parse_atom(s4, 0) == Parsed::Done(Ast::Char(a), 3));
    assert(spec_parse_rep(s4, 0) == Parsed::Done(Ast::Char(a), 3));
    assert(spec_parse_cat(s4, 0) == Parsed::Done(Ast::Char(a), 3));
    assert(spec_parse_alt(s4, 0) == Parsed::Done(Ast::Char(a), 3));
}

/// An unclosed parenthesis is an error, whatever plain character follows it.
pub proof fn lemma_unclosed_group(a: char)
    requires
        is_plain(a),
    ensures
        spec_parse(seq!['(', a]) is Failed,
{
    let s = seq!['(', a];
    assert(spec_parse_rep(s, 1) == Parsed::Done(Ast::Char(a), 2));
    assert(spec_parse_cat(s, 1) == Parsed::Done(Ast::Char(a), 2));
    assert(spec_parse_alt(s, 1) == Parsed::Done(Ast::Char(a), 2));
    assert(spec_parse_atom(s, 0) is Failed);
}

struct ParseContext {
    chars: Vec<char>,
    position: usize,
}

impl ParseContext {
    spec fn at(&self, i: int) -> bool {
        self.position == i && i <= self.chars@.len()
    }

    fn parse(&mut self) -> (r: Result<Ast, ParseError>)
        requires
            old(self).position <= old(self).chars@.len(),
            !(spec_parse_expr(old(self).chars@, old(self).position as int) is Stuck),
        ensures
            final(self).chars@ == old(self).chars@,
            final(self).position <= final(self).chars@.len(),
            match spec_parse_expr(old(self).chars@, old(self).position as int) {
                Parsed::Done(a, j) => r == Ok::<Ast, ParseError>(a) && final(self).position == j,
                _ => r is Err,
            },
        decreases old(self).chars@.len() - old(self).position, 6int,
    {
        proof {
            lemma_parse_progress(self.chars@, self.position as int);
        }
        match self.peek_char() {
            Some(')') | None => Ok(Ast::Empty),
            _ => self.parse_alt(),
        }
    }

    fn parse_alt(&mut self) -> (r: Result<Ast, ParseError>)
        requires
            old(self).position <= old(self).chars@.len(),
            !(spec_parse_alt(old(self).chars@, old(self).position as int) is Stuck),
        ensures
            final(self).chars@ == old(self).chars@,
            final(self).position <= final(self).chars@.len(),
            match spec_parse_alt(old(self).chars@, old(self).position as int) {
                Parsed::Done(a, j) => r == Ok::<Ast, ParseError>(a) && final(self).position == j,
                _ => r is Err,
            },
        decreases old(self).chars@.len() - old(self).position, 5int,
    {
        let ghost s = self.chars@;
        let ghost i = self.position as int;
        proof {
            lemma_parse_progress(s, i);
        }
        let mut ast = self.parse_cat()?;
        loop
            invariant
                self.chars@ == s,
                s == old(self).chars@,
                i == old(self).position,
                i < self.position <= s.len(),
                spec_parse_alt(s, i) == spec_parse_alt_rest(s, ast, self.position as int),
                !(spec_parse_alt(s, i) is Stuck),
            ensures
                self.chars@ == s,
                self.position <= s.len(),
                spec_parse_alt(s, i) == Parsed::Done(ast, self.position as int),
            decreases s.len() - self.position,
        {
            match self.peek_char() {
                Some('|') => {
                    self.skip_char();
                    proof {
                        lemma_parse_progress(s, self.position as int);
                    }
                    let ast_0 = ast;
                    let ast_1 = self.parse_cat()?;
                    ast = Ast::Alt(Box::new(ast_0), Box::new(ast_1));
                },
                _ => break,
            }
        }
        Ok(ast)
    }

    fn parse_cat(&mut self) -> (r: Result<Ast, ParseError>)
        requires
            old(self).position <= old(self).chars@.len(),
            !(spec_parse_cat(old(self).chars@, old(self).position as int) is Stuck),
        ensures
            final(self).chars@ == old(self).chars@,
            final(self).position <= final(self).chars@.len(),
            match spec_parse_cat(old(self).chars@, old(self).position as int) {
                Parsed::Done(a, j) => r == Ok::<Ast, ParseError>(a) && final(self).position == j,
                _ => r is Err,
            },
        decreases old(self).chars@.len() - old(self).position, 4int,
    {
        let ghost s = self.chars@;
        let ghost i = self.position as int;
        proof {
            lemma_parse_progress(s, i);
        }
        let mut ast = self.parse_rep()?;
        match self.peek_char() {
            Some('|') | Some(')') | None => {},
            _ => {
                let ast_0 = ast;
                let ast_1 = self.parse_cat()?;
                ast = Ast::Cat(Box::new(ast_0), Box::new(ast_1));
            },
        }
        Ok(ast)
    }

    fn parse_rep(&mut self) -> (r: Result<Ast, ParseError>)
        requires
            old(self).position <= old(self).chars@.len(),
            !(spec_parse_rep(old(self).chars@, old(self).position as int) is Stuck),
        ensures
            final(self).chars@ == old(self).chars@,
            final(self).position <= final(self).chars@.len(),
            match spec_parse_rep(old(self).chars@, old(self).position as int) {
                Parsed::Done(a, j) => r == Ok::<Ast, ParseError>(a) && final(self).position == j,
                _ => r is Err,
            },
        decreases old(self).chars@.len() - old(self).position, 3int,
    {
        let mut ast = self.parse_atom()?;
        let quant = match self.peek_char() {
            Some(ch) => to_quant(ch),
            None => None,
        };
        match quant {
            Some(quant) => {
                self.skip_char();
                let non_greedy = match self.peek_char() {
                    Some('?') => {
                        self.skip_char();
                        true
                    },
                    _ => false,
                };
                ast = Ast::Rep(Box::new(ast), quant, non_greedy);
            },
            _ => (),
        }
        Ok(ast)
    }

    fn parse_atom(&mut self) -> (r: Result<Ast, ParseError>)
        requires
            old(self).position <= old(self).chars@.len(),
            !(spec_parse_atom(old(self).chars@, old(self).position as int) is Stuck),
        ensures
            final(self).chars@ == old(self).chars@,
            final(self).position <= final(self).chars@.len(),
            match spec_parse_atom(old(self).chars@, old(self).position as int) {
                Parsed::Done(a, j) => r == Ok::<Ast, ParseError>(a) && final(self).position == j,
                _ => r is Err,
            },
        decreases old(self).chars@.len() - old(self).position, 2int,
    {
        Ok(
            match self.peek_char() {
                Some('(') => {
                    self.skip_char();
                    let ast = self.parse()?;
                    match self.peek_char() {
                        Some(')') => {
                            self.skip_char();
                            ast
                        },
                        _ => return Err(ParseError),
                    }
                },
                Some(ch) => {
                    self.skip_char();
                    Ast::Char(ch)
                },
                None => vstd::pervasive::unreached(),
            },
        )
    }

    fn peek_char(&self) -> (r: Option<char>)
        ensures
            r == peek(self.chars@, self.position as int),
    {
        if self.position < self.chars.len() {
            Some(self.chars[self.position])
        } else {
            None
        }
    }

    fn skip_char(&mut self)
        requires
            old(self).position < old(self).chars@.len(),
        ensures
            final(self).chars@ == old(self).chars@,
            final(self).position == old(self).position + 1,
    {
        if self.position < self.chars.len() {
            self.position = self.position + 1;
        }
    }
}

/// The quantifier that a character stands for, if any.
fn to_quant(ch: char) -> (q: Option<Quant>)
    ensures
        q == spec_quant(ch),
{
    match ch {
        '?' => Some(Quant::Quest),
        '*' => Some(Quant::Star),
        '+' => Some(Quant::Plus),
        _ => None,
    }
}

/// The characters of a string, in order.
fn chars_of(string: &str) -> (v: Vec<char>)
    ensures
        v@ == string@,
{
    let mut v: Vec<char> = Vec::new();
    for ch in it: string.chars()
        invariant
            v@ == it.seq().take(it.index() as int),
    {
        v.push(ch);
    }
    v
}

/// Parses a pattern into an expression.
///
/// `|` separates alternatives, juxtaposition concatenates, `?`, `*` and `+`
/// repeat the atom before them (non-greedily when followed by `?`), and
/// parentheses group. Any other character, `|` and `)` where no other
/// meaning applies included, stands for itself. Parsing stops at a `)` that
/// closes nothing; an unclosed `(` is an error. A `|` that ends the pattern
/// where an alternative must follow it is not accepted.
pub fn parse(string: &str) -> (r: Result<Ast, ParseError>)
    requires
        !(spec_parse(string@) is Stuck),
    ensures
        match spec_parse(string@) {
            Parsed::Done(a, _) => r == Ok::<Ast, ParseError>(a),
            _ => r is Err,
        },
{
    let mut context = ParseContext { chars: chars_of(string), position: 0 };
    context.parse()
}

} // verus!
