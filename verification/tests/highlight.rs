use code_editor::highlight::{str_equals, text_color, Delim, TextColor, Token};

#[test]
fn comments_and_literals() {
    assert_eq!(text_color(Token::Comment, None), TextColor::Comment);
    assert_eq!(text_color(Token::Lifetime, None), TextColor::Lifetime);
    assert_eq!(text_color(Token::Bool(true), None), TextColor::Bool);
    assert_eq!(text_color(Token::Int(3), None), TextColor::Number);
    assert_eq!(text_color(Token::Float, None), TextColor::Number);
    assert_eq!(text_color(Token::OtherNumber, None), TextColor::Number);
    assert_eq!(text_color(Token::String, None), TextColor::String);
    assert_eq!(text_color(Token::Whitespace, None), TextColor::Whitespace);
    assert_eq!(text_color(Token::Color(0xff0000), None), TextColor::Color);
    assert_eq!(text_color(Token::Unknown, None), TextColor::Unknown);
}

#[test]
fn punctuation_and_brackets() {
    assert_eq!(text_color(Token::Punct("+"), None), TextColor::Punctuator);
    assert_eq!(text_color(Token::Open(Delim::Brace), None), TextColor::Punctuator);
    assert_eq!(text_color(Token::Close(Delim::Paren), None), TextColor::Punctuator);
}

#[test]
fn calls_and_macros() {
    assert_eq!(text_color(Token::Ident("foo"), Some(Token::Open(Delim::Paren))), TextColor::FunctionIdentifier);
    assert_eq!(text_color(Token::Ident("println"), Some(Token::Punct("!"))), TextColor::MacroIdentifier);
    assert_eq!(text_color(Token::Ident("foo"), Some(Token::Punct("!="))), TextColor::Identifier);
    assert_eq!(text_color(Token::Ident("if"), Some(Token::Open(Delim::Paren))), TextColor::FunctionIdentifier);
    assert_eq!(text_color(Token::Ident("foo"), Some(Token::Open(Delim::Bracket))), TextColor::Identifier);
}

#[test]
fn keywords() {
    assert_eq!(text_color(Token::Ident("if"), None), TextColor::BranchKeyword);
    assert_eq!(text_color(Token::Ident("match"), Some(Token::Whitespace)), TextColor::BranchKeyword);
    assert_eq!(text_color(Token::Ident("while"), None), TextColor::LoopKeyword);
    assert_eq!(text_color(Token::Ident("continue"), None), TextColor::LoopKeyword);
    assert_eq!(text_color(Token::Ident("fn"), None), TextColor::OtherKeyword);
    assert_eq!(text_color(Token::Ident("where"), None), TextColor::OtherKeyword);
    assert_eq!(text_color(Token::Ident("self"), None), TextColor::OtherKeyword);
}

#[test]
fn type_names_and_identifiers() {
    assert_eq!(text_color(Token::Ident("Vec"), None), TextColor::TypeName);
    assert_eq!(text_color(Token::Ident("vec"), None), TextColor::Identifier);
    assert_eq!(text_color(Token::Ident("_x"), None), TextColor::Identifier);
    assert_eq!(text_color(Token::Ident("Self"), None), TextColor::TypeName);
    assert_eq!(text_color(Token::Ident(""), None), TextColor::Identifier);
}

#[test]
fn string_equality() {
    assert!(str_equals("if", "if"));
    assert!(!str_equals("if", "iff"));
    assert!(!str_equals("é", "e"));
    assert!(str_equals("", ""));
}
