use vstd::prelude::*;

verus! {

/// A character that may occur in a word: an ASCII letter, digit or `_`.
pub open spec fn spec_is_ascii_word(ch: char) -> bool {
    ('0' <= ch && ch <= '9') || ('A' <= ch && ch <= 'Z') || ch == '_' || ('a' <= ch && ch <= 'z')
}

/// Classification of characters for word boundaries.
pub trait CharExt {
    spec fn spec_word(&self) -> bool;

    fn is_ascii_word(&self) -> (b: bool)
        ensures
            b == self.spec_word(),
    ;
}

impl CharExt for char {
    open spec fn spec_word(&self) -> bool {
        spec_is_ascii_word(*self)
    }

    fn is_ascii_word(&self) -> (b: bool) {
        match self {
            '0'..='9' | 'A'..='Z' | '_' | 'a'..='z' => true,
            _ => false,
        }
    }
}

} // verus!
