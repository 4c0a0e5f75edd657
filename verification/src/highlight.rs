use vstd::prelude::*;
use vstd::string::StringSliceAdditionalSpecFns;
use crate::str_ext::lemma_encode_injective;

verus! {

/// A kind of bracket.
#[derive(Clone, Copy, Debug, PartialEq, Eq, Structural, Hash)]
pub enum Delim {
    Paren,
    Bracket,
    Brace,
}

/// A token of source text, with the text of identifiers and punctuators.
#[derive(Clone, Copy, Debug, PartialEq, Eq, Hash)]
pub enum Token<'a> {
    Punct(&'a str),
    Ident(&'a str),
    Open(Delim),
    Close(Delim),
    String,
    Bool(bool),
    Color(u32),
    Float,
    Int(i64),
    OtherNumber,
    Lifetime,
    Comment,
    Whitespace,
    Unknown,
}

/// The color class a token is drawn in.
#[derive(Clone, Copy, Debug, PartialEq, Eq, Structural, Hash)]
pub enum TextColor {
    Comment,
    FunctionIdentifier,
    MacroIdentifier,
    Lifetime,
    BranchKeyword,
    LoopKeyword,
    OtherKeyword,
    TypeName,
    Identifier,
    Bool,
    Number,
    Punctuator,
    String,
    Whitespace,
    Color,
    Unknown,
}

/// Whether two strings hold the same characters.
pub fn str_equals(a: &str, b: &str) -> (r: bool)
    ensures
        r == (a@ == b@),
{
    let x = a.as_bytes();
    let y = b.as_bytes();
    if x.len() != y.len() {
        return false;
    }
    let mut i: usize = 0;
    while i < x.len()
        invariant
            x@ == a.spec_bytes(),
            y@ == b.spec_bytes(),
            x@.len() == y@.len(),
            i <= x@.len(),
            x@.subrange(0, i as int) == y@.subrange(0, i as int),
        decreases x@.len() - i,
    {
        if x[i] != y[i] {
            assert(x@[i as int] != y@[i as int]);
            return false;
        }
        assert(x@.subrange(0, i + 1) == x@.subrange(0, i as int).push(x@[i as int]));
        assert(y@.subrange(0, i + 1) == y@.subrange(0, i as int).push(y@[i as int]));
        i = i + 1;
    }
    proof {
        assert(x@ == x@.subrange(0, i as int));
        assert(y@ == y@.subrange(0, i as int));
        lemma_encode_injective(a@, b@);
    }
    true
}

pub open spec fn spec_is_branch_keyword(s: Seq<char>) -> bool {
    s == "if"@ || s == "else"@ || s == "match"@
}

pub open spec fn spec_is_loop_keyword(s: Seq<char>) -> bool {
    s == "for"@ || s == "while"@ || s == "break"@ || s == "continue"@ || s == "loop"@
}

pub open spec fn spec_is_other_keyword(s: Seq<char>) -> bool {
    ||| s == "abstract"@
    ||| s == "async"@
    ||| s == "as"@
    ||| s == "await"@
    ||| s == "become"@
    ||| s == "box"@
    ||| s == "const"@
    ||| s == "crate"@
    ||| s == "do"@
    ||| s == "dyn"@
    ||| s == "enum"@
    ||| s == "extern"@
    ||| s == "false"@
    ||| s == "final"@
    ||| s == "fn"@
    ||| s == "impl"@
    ||| s == "in"@
    ||| s == "let"@
    ||| s == "macro"@
    ||| s == "mod"@
    ||| s == "move"@
    ||| s == "mut"@
    ||| s == "override"@
    ||| s == "priv"@
    ||| s == "pub"@
    ||| s == "ref"@
    ||| s == "self"@
    ||| s == "static"@
    ||| s == "struct"@
    ||| s == "super"@
    ||| s == "trait"@
    ||| s == "true"@
    ||| s == "typeof"@
    ||| s == "unsafe"@
    ||| s == "use"@
    ||| s == "unsized"@
    ||| s == "virtual"@
    ||| s == "yield"@
    ||| s == "where"@
}

/// The identifier starts with an uppercase ASCII letter.
pub open spec fn spec_is_capitalised(s: Seq<char>) -> bool {
    s.len() > 0 && 'A' <= s[0] && s[0] <= 'Z'
}

/// The color class of `token`, followed by `next_token`: the first rule
/// that applies decides.
pub open spec fn spec_text_color(token: Token, next_token: Option<Token>) -> TextColor {
    match token {
        Token::Comment => TextColor::Comment,
        Token::Ident(s) => {
            if next_token == Some(Token::Open(Delim::Paren)) {
                TextColor::FunctionIdentifier
            } else if next_token matches Some(Token::Punct(p)) && p@ == "!"@ {
                TextColor::MacroIdentifier
            } else if spec_is_branch_keyword(s@) {
                TextColor::BranchKeyword
            } else if spec_is_loop_keyword(s@) {
                TextColor::LoopKeyword
            } else if spec_is_other_keyword(s@) {
                TextColor::OtherKeyword
            } else if spec_is_capitalised(s@) {
                TextColor::TypeName
            } else {
                TextColor::Identifier
            }
        },
        Token::Lifetime => TextColor::Lifetime,
        Token::Bool(_) => TextColor::Bool,
        Token::Float | Token::Int(_) | Token::OtherNumber => TextColor::Number,
        Token::Punct(_) => TextColor::Punctuator,
        Token::String => TextColor::String,
        Token::Whitespace => TextColor::Whitespace,
        Token::Color(_) => TextColor::Color,
        Token::Unknown => TextColor::Unknown,
        Token::Open(_) | Token::Close(_) => TextColor::Punctuator,
    }
}

/// Any identifier followed by `(` is drawn as a function name, and one
/// followed by `!` as a macro name, keywords included.
pub proof fn lemma_calls_and_macros(s: &str, bang: &str)
    ensures
        spec_text_color(Token::Ident(s), Some(Token::Open(Delim::Paren))) == TextColor::FunctionIdentifier,
        bang@ == "!"@ ==> spec_text_color(Token::Ident(s), Some(Token::Punct(bang))) == TextColor::MacroIdentifier,
{
}

/// `if`, `else` and `match`, when not called or used as a macro, are drawn
/// as branch keywords.
pub proof fn lemma_branch_keywords(s: &str, next: Option<Token>)
    requires
        s@ == "if"@ || s@ == "else"@ || s@ == "match"@,
        next != Some(Token::Open(Delim::Paren)),
        !(next matches Some(Token::Punct(p)) && p@ == "!"@),
    ensures
        spec_text_color(Token::Ident(s), next) == TextColor::BranchKeyword,
{
}

/// `for`, `while`, `break`, `continue` and `loop`, when not called or used as
/// a macro, are drawn as loop keywords.
pub proof fn lemma_loop_keywords(s: &str, next: Option<Token>)
    requires
        s@ == "for"@ || s@ == "while"@ || s@ == "break"@ || s@ == "continue"@ || s@ == "loop"@,
        next != Some(Token::Open(Delim::Paren)),
        !(next matches Some(Token::Punct(p)) && p@ == "!"@),
    ensures
        spec_text_color(Token::Ident(s), next) == TextColor::LoopKeyword,
{
    reveal_strlit("if");
    reveal_strlit("else");
    reveal_strlit("match");
    if s@ == "for"@ {
        reveal_strlit("for");
        assert(s@.len() == 3 && s@[0] == 'f' && s@[1] == 'o' && s@[2] == 'r');
    }
    if s@ == "while"@ {
        reveal_strlit("while");
        assert(s@.len() == 5 && s@[0] == 'w' && s@[1] == 'h' && s@[2] == 'i' && s@[3] == 'l' && s@[4] == 'e');
    }
    if s@ == "break"@ {
        reveal_strlit("break");
        assert(s@.len() == 5 && s@[0] == 'b' && s@[1] == 'r' && s@[2] == 'e' && s@[3] == 'a' && s@[4] == 'k');
    }
    if s@ == "continue"@ {
        reveal_strlit("continue");
        assert(s@.len() == 8 && s@[0] == 'c' && s@[1] == 'o' && s@[2] == 'n' && s@[3] == 't' && s@[4] == 'i' && s@[5] == 'n' && s@[6] == 'u' && s@[7] == 'e');
    }
    if s@ == "loop"@ {
        reveal_strlit("loop");
        assert(s@.len() == 4 && s@[0] == 'l' && s@[1] == 'o' && s@[2] == 'o' && s@[3] == 'p');
    }
}

/// The other keywords of Rust, reserved ones included, when not called or
/// used as a macro, are drawn as other keywords.
pub proof fn lemma_other_keywords(s: &str, next: Option<Token>)
    requires
        s@ == "abstract"@ || s@ == "async"@ || s@ == "as"@ || s@ == "await"@ || s@ == "become"@ || s@ == "box"@ || s@ == "const"@ || s@ == "crate"@ || s@ == "do"@ || s@ == "dyn"@ || s@ == "enum"@ || s@ == "extern"@ || s@ == "false"@ || s@ == "final"@ || s@ == "fn"@ || s@ == "impl"@ || s@ == "in"@ || s@ == "let"@ || s@ == "macro"@ || s@ == "mod"@ || s@ == "move"@ || s@ == "mut"@ || s@ == "override"@ || s@ == "priv"@ || s@ == "pub"@ || s@ == "ref"@ || s@ == "self"@ || s@ == "static"@ || s@ == "struct"@ || s@ == "super"@ || s@ == "trait"@ || s@ == "true"@ || s@ == "typeof"@ || s@ == "unsafe"@ || s@ == "use"@ || s@ == "unsized"@ || s@ == "virtual"@ || s@ == "yield"@ || s@ == "where"@,
        next != Some(Token::Open(Delim::Paren)),
        !(next matches Some(Token::Punct(p)) && p@ == "!"@),
    ensures
        spec_text_color(Token::Ident(s), next) == TextColor::OtherKeyword,
{
    reveal_strlit("if");
    reveal_strlit("else");
    reveal_strlit("match");
    reveal_strlit("for");
    reveal_strlit("while");
    reveal_strlit("break");
    reveal_strlit("continue");
    reveal_strlit("loop");
    if s@ == "abstract"@ {
        reveal_strlit("abstract");
        assert(s@.len() == 8 && s@[0] == 'a' && s@[1] == 'b' && s@[2] == 's' && s@[3] == 't' && s@[4] == 'r' && s@[5] == 'a' && s@[6] == 'c' && s@[7] == 't');
    }
    if s@ == "async"@ {
        reveal_strlit("async");
        assert(s@.len() == 5 && s@[0] == 'a' && s@[1] == 's' && s@[2] == 'y' && s@[3] == 'n' && s@[4] == 'c');
    }
    if s@ == "as"@ {
        reveal_strlit("as");
        assert(s@.len() == 2 && s@[0] == 'a' && s@[1] == 's');
    }
    if s@ == "await"@ {
        reveal_strlit("await");
        assert(s@.len() == 5 && s@[0] == 'a' && s@[1] == 'w' && s@[2] == 'a' && s@[3] == 'i' && s@[4] == 't');
    }
    if s@ == "become"@ {
        reveal_strlit("become");
        assert(s@.len() == 6 && s@[0] == 'b' && s@[1] == 'e' && s@[2] == 'c' && s@[3] == 'o' && s@[4] == 'm' && s@[5] == 'e');
    }
    if s@ == "box"@ {
        reveal_strlit("box");
        assert(s@.len() == 3 && s@[0] == 'b' && s@[1] == 'o' && s@[2] == 'x');
    }
    if s@ == "const"@ {
        reveal_strlit("const");
        assert(s@.len() == 5 && s@[0] == 'c' && s@[1] == 'o' && s@[2] == 'n' && s@[3] == 's' && s@[4] == 't');
    }
    if s@ == "crate"@ {
        reveal_strlit("crate");
        assert(s@.len() == 5 && s@[0] == 'c' && s@[1] == 'r' && s@[2] == 'a' && s@[3] == 't' && s@[4] == 'e');
    }
    if s@ == "do"@ {
        reveal_strlit("do");
        assert(s@.len() == 2 && s@[0] == 'd' && s@[1] == 'o');
    }
    if s@ == "dyn"@ {
        reveal_strlit("dyn");
        assert(s@.len() == 3 && s@[0] == 'd' && s@[1] == 'y' && s@[2] == 'n');
    }
    if s@ == "enum"@ {
        reveal_strlit("enum");
        assert(s@.len() == 4 && s@[0] == 'e' && s@[1] == 'n' && s@[2] == 'u' && s@[3] == 'm');
    }
    if s@ == "extern"@ {
        reveal_strlit("extern");
        assert(s@.len() == 6 && s@[0] == 'e' && s@[1] == 'x' && s@[2] == 't' && s@[3] == 'e' && s@[4] == 'r' && s@[5] == 'n');
    }
    if s@ == "false"@ {
        reveal_strlit("false");
        assert(s@.len() == 5 && s@[0] == 'f' && s@[1] == 'a' && s@[2] == 'l' && s@[3] == 's' && s@[4] == 'e');
    }
    if s@ == "final"@ {
        reveal_strlit("final");
        assert(s@.len() == 5 && s@[0] == 'f' && s@[1] == 'i' && s@[2] == 'n' && s@[3] == 'a' && s@[4] == 'l');
    }
    if s@ == "fn"@ {
        reveal_strlit("fn");
        assert(s@.len() == 2 && s@[0] == 'f' && s@[1] == 'n');
    }
    if s@ == "impl"@ {
        reveal_strlit("impl");
        assert(s@.len() == 4 && s@[0] == 'i' && s@[1] == 'm' && s@[2] == 'p' && s@[3] == 'l');
    }
    if s@ == "in"@ {
        reveal_strlit("in");
        assert(s@.len() == 2 && s@[0] == 'i' && s@[1] == 'n');
    }
    if s@ == "let"@ {
        reveal_strlit("let");
        assert(s@.len() == 3 && s@[0] == 'l' && s@[1] == 'e' && s@[2] == 't');
    }
    if s@ == "macro"@ {
        reveal_strlit("macro");
        assert(s@.len() == 5 && s@[0] == 'm' && s@[1] == 'a' && s@[2] == 'c' && s@[3] == 'r' && s@[4] == 'o');
    }
    if s@ == "mod"@ {
        reveal_strlit("mod");
        assert(s@.len() == 3 && s@[0] == 'm' && s@[1] == 'o' && s@[2] == 'd');
    }
    if s@ == "move"@ {
        reveal_strlit("move");
        assert(s@.len() == 4 && s@[0] == 'm' && s@[1] == 'o' && s@[2] == 'v' && s@[3] == 'e');
    }
    if s@ == "mut"@ {
        reveal_strlit("mut");
        assert(s@.len() == 3 && s@[0] == 'm' && s@[1] == 'u' && s@[2] == 't');
    }
    if s@ == "override"@ {
        reveal_strlit("override");
        assert(s@.len() == 8 && s@[0] == 'o' && s@[1] == 'v' && s@[2] == 'e' && s@[3] == 'r' && s@[4] == 'r' && s@[5] == 'i' && s@[6] == 'd' && s@[7] == 'e');
    }
    if s@ == "priv"@ {
        reveal_strlit("priv");
        assert(s@.len() == 4 && s@[0] == 'p' && s@[1] == 'r' && s@[2] == 'i' && s@[3] == 'v');
    }
    if s@ == "pub"@ {
        reveal_strlit("pub");
        assert(s@.len() == 3 && s@[0] == 'p' && s@[1] == 'u' && s@[2] == 'b');
    }
    if s@ == "ref"@ {
        reveal_strlit("ref");
        assert(s@.len() == 3 && s@[0] == 'r' && s@[1] == 'e' && s@[2] == 'f');
    }
    if s@ == "self"@ {
        reveal_strlit("self");
        assert(s@.len() == 4 && s@[0] == 's' && s@[1] == 'e' && s@[2] == 'l' && s@[3] == 'f');
    }
    if s@ == "static"@ {
        reveal_strlit("static");
        assert(s@.len() == 6 && s@[0] == 's' && s@[1] == 't' && s@[2] == 'a' && s@[3] == 't' && s@[4] == 'i' && s@[5] == 'c');
    }
    if s@ == "struct"@ {
        reveal_strlit("struct");
        assert(s@.len() == 6 && s@[0] == 's' && s@[1] == 't' && s@[2] == 'r' && s@[3] == 'u' && s@[4] == 'c' && s@[5] == 't');
    }
    if s@ == "super"@ {
        reveal_strlit("super");
        assert(s@.len() == 5 && s@[0] == 's' && s@[1] == 'u' && s@[2] == 'p' && s@[3] == 'e' && s@[4] == 'r');
    }
    if s@ == "trait"@ {
        reveal_strlit("trait");
        assert(s@.len() == 5 && s@[0] == 't' && s@[1] == 'r' && s@[2] == 'a' && s@[3] == 'i' && s@[4] == 't');
    }
    if s@ == "true"@ {
        reveal_strlit("true");
        assert(s@.len() == 4 && s@[0] == 't' && s@[1] == 'r' && s@[2] == 'u' && s@[3] == 'e');
    }
    if s@ == "typeof"@ {
        reveal_strlit("typeof");
        assert(s@.len() == 6 && s@[0] == 't' && s@[1] == 'y' && s@[2] == 'p' && s@[3] == 'e' && s@[4] == 'o' && s@[5] == 'f');
    }
    if s@ == "unsafe"@ {
        reveal_strlit("unsafe");
        assert(s@.len() == 6 && s@[0] == 'u' && s@[1] == 'n' && s@[2] == 's' && s@[3] == 'a' && s@[4] == 'f' && s@[5] == 'e');
    }
    if s@ == "use"@ {
        reveal_strlit("use");
        assert(s@.len() == 3 && s@[0] == 'u' && s@[1] == 's' && s@[2] == 'e');
    }
    if s@ == "unsized"@ {
        reveal_strlit("unsized");
        assert(s@.len() == 7 && s@[0] == 'u' && s@[1] == 'n' && s@[2] == 's' && s@[3] == 'i' && s@[4] == 'z' && s@[5] == 'e' && s@[6] == 'd');
    }
    if s@ == "virtual"@ {
        reveal_strlit("virtual");
        assert(s@.len() == 7 && s@[0] == 'v' && s@[1] == 'i' && s@[2] == 'r' && s@[3] == 't' && s@[4] == 'u' && s@[5] == 'a' && s@[6] == 'l');
    }
    if s@ == "yield"@ {
        reveal_strlit("yield");
        assert(s@.len() == 5 && s@[0] == 'y' && s@[1] == 'i' && s@[2] == 'e' && s@[3] == 'l' && s@[4] == 'd');
    }
    if s@ == "where"@ {
        reveal_strlit("where");
        assert(s@.len() == 5 && s@[0] == 'w' && s@[1] == 'h' && s@[2] == 'e' && s@[3] == 'r' && s@[4] == 'e');
    }
}

/// An identifier that starts with an uppercase ASCII letter, when not called
/// or used as a macro, is drawn as a type name; one that starts with no ASCII
/// letter at all as a plain identifier.
pub proof fn lemma_type_names_and_identifiers(s: &str, next: Option<Token>)
    requires
        next != Some(Token::Open(Delim::Paren)),
        !(next matches Some(Token::Punct(p)) && p@ == "!"@),
    ensures
        s@.len() > 0 && 'A' <= s@[0] <= 'Z' ==> spec_text_color(Token::Ident(s), next) == TextColor::TypeName,
        s@.len() > 0 && !('A' <= s@[0] <= 'Z') && !('a' <= s@[0] <= 'z') ==> spec_text_color(Token::Ident(s), next)
            == TextColor::Identifier,
{
    reveal_strlit("if");
    reveal_strlit("else");
    reveal_strlit("match");
    reveal_strlit("for");
    reveal_strlit("while");
    reveal_strlit("break");
    reveal_strlit("continue");
    reveal_strlit("loop");
    reveal_strlit("abstract");
    reveal_strlit("async");
    reveal_strlit("as");
    reveal_strlit("await");
    reveal_strlit("become");
    reveal_strlit("box");
    reveal_strlit("const");
    reveal_strlit("crate");
    reveal_strlit("do");
    reveal_strlit("dyn");
    reveal_strlit("enum");
    reveal_strlit("extern");
    reveal_strlit("false");
    reveal_strlit("final");
    reveal_strlit("fn");
    reveal_strlit("impl");
    reveal_strlit("in");
    reveal_strlit("let");
    reveal_strlit("macro");
    reveal_strlit("mod");
    reveal_strlit("move");
    reveal_strlit("mut");
    reveal_strlit("override");
    reveal_strlit("priv");
    reveal_strlit("pub");
    reveal_strlit("ref");
    reveal_strlit("self");
    reveal_strlit("static");
    reveal_strlit("struct");
    reveal_strlit("super");
    reveal_strlit("trait");
    reveal_strlit("true");
    reveal_strlit("typeof");
    reveal_strlit("unsafe");
    reveal_strlit("use");
    reveal_strlit("unsized");
    reveal_strlit("virtual");
    reveal_strlit("yield");
    reveal_strlit("where");
}

/// Tokens other than identifiers are drawn by their kind alone, whatever
/// follows them.
pub proof fn lemma_other_tokens(next: Option<Token>, text: &str, b: bool, color: u32, value: i64, delim: Delim)
    ensures
        spec_text_color(Token::Comment, next) == TextColor::Comment,
        spec_text_color(Token::Lifetime, next) == TextColor::Lifetime,
        spec_text_color(Token::Bool(b), next) == TextColor::Bool,
        spec_text_color(Token::Float, next) == TextColor::Number,
        spec_text_color(Token::Int(value), next) == TextColor::Number,
        spec_text_color(Token::OtherNumber, next) == TextColor::Number,
        spec_text_color(Token::Punct(text), next) == TextColor::Punctuator,
        spec_text_color(Token::Open(delim), next) == TextColor::Punctuator,
        spec_text_color(Token::Close(delim), next) == TextColor::Punctuator,
        spec_text_color(Token::String, next) == TextColor::String,
        spec_text_color(Token::Whitespace, next) == TextColor::Whitespace,
        spec_text_color(Token::Color(color), next) == TextColor::Color,
        spec_text_color(Token::Unknown, next) == TextColor::Unknown,
{
}

fn is_branch_keyword(s: &str) -> (b: bool)
    ensures
        b == spec_is_branch_keyword(s@),
{
    str_equals(s, "if") || str_equals(s, "else") || str_equals(s, "match")
}

fn is_loop_keyword(s: &str) -> (b: bool)
    ensures
        b == spec_is_loop_keyword(s@),
{
    str_equals(s, "for") || str_equals(s, "while") || str_equals(s, "break") || str_equals(s, "continue")
        || str_equals(s, "loop")
}

fn is_other_keyword(s: &str) -> (b: bool)
    ensures
        b == spec_is_other_keyword(s@),
{
    str_equals(s, "abstract") || str_equals(s, "async") || str_equals(s, "as") || str_equals(s, "await")
        || str_equals(s, "become") || str_equals(s, "box") || str_equals(s, "const") || str_equals(
        s,
        "crate",
    ) || str_equals(s, "do") || str_equals(s, "dyn") || str_equals(s, "enum") || str_equals(s, "extern")
        || str_equals(s, "false") || str_equals(s, "final") || str_equals(s, "fn") || str_equals(s, "impl")
        || str_equals(s, "in") || str_equals(s, "let") || str_equals(s, "macro") || str_equals(s, "mod")
        || str_equals(s, "move") || str_equals(s, "mut") || str_equals(s, "override") || str_equals(
        s,
        "priv",
    ) || str_equals(s, "pub") || str_equals(s, "ref") || str_equals(s, "self") || str_equals(s, "static")
        || str_equals(s, "struct") || str_equals(s, "super") || str_equals(s, "trait") || str_equals(
        s,
        "true",
    ) || str_equals(s, "typeof") || str_equals(s, "unsafe") || str_equals(s, "use") || str_equals(
        s,
        "unsized",
    ) || str_equals(s, "virtual") || str_equals(s, "yield") || str_equals(s, "where")
}

fn is_capitalised(s: &str) -> (b: bool)
    ensures
        b == spec_is_capitalised(s@),
{
    let chars = s.as_bytes();
    if chars.len() == 0 {
        proof {
            if s@.len() > 0 {
                vstd::utf8::encode_utf8_first_scalar(s@);
            }
        }
        return false;
    }
    proof {
        vstd::utf8::encode_utf8_first_scalar(s@);
    }
    let first = s.get_char(0);
    'A' <= first && first <= 'Z'
}

/// The color class of `token`, given the token that follows it.
pub fn text_color(token: Token, next_token: Option<Token>) -> (color: TextColor)
    ensures
        color == spec_text_color(token, next_token),
{
    match token {
        Token::Comment => TextColor::Comment,
        Token::Ident(s) => {
            let is_macro = match next_token {
                Some(Token::Punct(p)) => str_equals(p, "!"),
                _ => false,
            };
            let is_call = match next_token {
                Some(Token::Open(Delim::Paren)) => true,
                _ => false,
            };
            if is_call {
                TextColor::FunctionIdentifier
            } else if is_macro {
                TextColor::MacroIdentifier
            } else if is_branch_keyword(s) {
                TextColor::BranchKeyword
            } else if is_loop_keyword(s) {
                TextColor::LoopKeyword
            } else if is_other_keyword(s) {
                TextColor::OtherKeyword
            } else if is_capitalised(s) {
                TextColor::TypeName
            } else {
                TextColor::Identifier
            }
        },
        Token::Lifetime => TextColor::Lifetime,
        Token::Bool(_) => TextColor::Bool,
        Token::Float | Token::Int(_) | Token::OtherNumber => TextColor::Number,
        Token::Punct(_) => TextColor::Punctuator,
        Token::String => TextColor::String,
        Token::Whitespace => TextColor::Whitespace,
        Token::Color(_) => TextColor::Color,
        Token::Unknown => TextColor::Unknown,
        Token::Open(_) | Token::Close(_) => TextColor::Punctuator,
    }
}

} // verus!
