pub mod word_cursor;

use vstd::prelude::*;
use vstd::string::{StrSliceExecFns, StringSliceAdditionalSpecFns};
use vstd::utf8::*;
use crate::regex::str_cursor::lemma_boundary_shift;
use crate::str_ext::{byte_len, is_next_boundary, is_prev_boundary, lemma_first_char_boundary};

verus! {

/// The word-break property of a character (Unicode Standard Annex #29).
#[derive(Clone, Copy, Debug, PartialEq, Eq, Structural, Hash)]
pub enum WordBreak {
    CR,
    LF,
    Newline,
    Extend,
    ZWJ,
    RegionalIndicator,
    Format,
    Katakana,
    HebrewLetter,
    ALetter,
    SingleQuote,
    DoubleQuote,
    MidNumLet,
    MidLetter,
    MidNum,
    Numeric,
    ExtendNumLet,
    WSegSpace,
    Other,
}

/// What a word cursor knows about the text around its position: the
/// properties of the characters right before and after it, and of the two
/// characters before and after it when format, extend and joiner characters
/// are skipped.
#[derive(Clone, Copy, Debug, PartialEq, Eq, Structural)]
pub struct WordContext {
    pub is_at_start: bool,
    pub is_at_end: bool,
    pub prev_word_break: Option<WordBreak>,
    pub next_word_break: Option<WordBreak>,
    pub next_extended_pictographic: bool,
    pub prev_prev_word_break_skip: Option<WordBreak>,
    pub prev_word_break_skip: Option<WordBreak>,
    pub next_word_break_skip: Option<WordBreak>,
    pub next_next_word_break_skip: Option<WordBreak>,
    pub regional_indicator_count: usize,
}

pub open spec fn is_newline(wb: WordBreak) -> bool {
    wb == WordBreak::Newline || wb == WordBreak::CR || wb == WordBreak::LF
}

pub open spec fn is_ignored(wb: WordBreak) -> bool {
    wb == WordBreak::Format || wb == WordBreak::Extend || wb == WordBreak::ZWJ
}

pub open spec fn is_ah_letter(wb: Option<WordBreak>) -> bool {
    wb == Some(WordBreak::ALetter) || wb == Some(WordBreak::HebrewLetter)
}

pub open spec fn is_mid_letter_or_quote(wb: Option<WordBreak>) -> bool {
    wb == Some(WordBreak::MidLetter) || wb == Some(WordBreak::MidNumLet) || wb == Some(
        WordBreak::SingleQuote,
    )
}

pub open spec fn is_mid_num_or_quote(wb: Option<WordBreak>) -> bool {
    wb == Some(WordBreak::MidNum) || wb == Some(WordBreak::MidNumLet) || wb == Some(WordBreak::SingleQuote)
}

/// The word-boundary rules, in order; the first that applies decides.
pub open spec fn spec_is_word_boundary(c: WordContext) -> bool {
    let prev = c.prev_word_break->0;
    let next = c.next_word_break->0;
    let pp = c.prev_prev_word_break_skip;
    let p = c.prev_word_break_skip;
    let n = c.next_word_break_skip;
    let nn = c.next_next_word_break_skip;
    if c.is_at_start && c.is_at_end {
        false  // an empty text has no boundary
    } else if c.is_at_start || c.is_at_end {
        true  // WB1, WB2

    } else if prev == WordBreak::CR && next == WordBreak::LF {
        false  // WB3

    } else if is_newline(prev) || is_newline(next) {
        true  // WB3a, WB3b

    } else if prev == WordBreak::ZWJ && c.next_extended_pictographic {
        false  // WB3c

    } else if prev == WordBreak::WSegSpace && next == WordBreak::WSegSpace {
        false  // WB3d

    } else if is_ignored(next) {
        false  // WB4

    } else if is_ah_letter(p) && is_ah_letter(n) {
        false  // WB5

    } else if is_ah_letter(p) && is_mid_letter_or_quote(n) && is_ah_letter(nn) {
        false  // WB6

    } else if is_ah_letter(pp) && is_mid_letter_or_quote(p) && is_ah_letter(n) {
        false  // WB7

    } else if p == Some(WordBreak::HebrewLetter) && n == Some(WordBreak::SingleQuote) {
        false  // WB7a

    } else if p == Some(WordBreak::HebrewLetter) && n == Some(WordBreak::DoubleQuote) && nn == Some(
        WordBreak::HebrewLetter,
    ) {
        false  // WB7b

    } else if pp == Some(WordBreak::HebrewLetter) && p == Some(WordBreak::DoubleQuote) && n == Some(
        WordBreak::HebrewLetter,
    ) {
        false  // WB7c

    } else if p == Some(WordBreak::Numeric) && n == Some(WordBreak::Numeric) {
        false  // WB8

    } else if is_ah_letter(p) && n == Some(WordBreak::Numeric) {
        false  // WB9

    } else if p == Some(WordBreak::Numeric) && is_ah_letter(n) {
        false  // WB10

    } else if pp == Some(WordBreak::Numeric) && is_mid_num_or_quote(p) && n == Some(WordBreak::Numeric) {
        false  // WB11

    } else if p == Some(WordBreak::Numeric) && is_mid_num_or_quote(n) && nn == Some(WordBreak::Numeric) {
        false  // WB12

    } else if p == Some(WordBreak::Katakana) && n == Some(WordBreak::Katakana) {
        false  // WB13

    } else if (is_ah_letter(p) || p == Some(WordBreak::Numeric) || p == Some(WordBreak::Katakana) || p
        == Some(WordBreak::ExtendNumLet)) && n == Some(WordBreak::ExtendNumLet) {
        false  // WB13a

    } else if p == Some(WordBreak::ExtendNumLet) && (is_ah_letter(n) || n == Some(WordBreak::Numeric)
        || n == Some(WordBreak::Katakana)) {
        false  // WB13b

    } else if p == Some(WordBreak::RegionalIndicator) && n == Some(WordBreak::RegionalIndicator) {
        c.regional_indicator_count % 2 == 0  // WB15, WB16

    } else {
        true  // WB999

    }
}

/// Away from the ends of the text, a position with a character on each side
/// that is not a line break is no word boundary when one of the rules WB3c to
/// WB13b of UAX #29 keeps the characters around it together: a joiner before
/// a pictograph, spaces, a format or extend character after it, letters,
/// digits and the punctuation between them, katakana, and extenders.
pub proof fn lemma_rules_that_join(c: WordContext)
    requires
        !c.is_at_start,
        !c.is_at_end,
        c.prev_word_break is Some,
        c.next_word_break is Some,
        c.prev_word_break != Some(WordBreak::Newline) && c.prev_word_break != Some(WordBreak::CR)
            && c.prev_word_break != Some(WordBreak::LF),
        c.next_word_break != Some(WordBreak::Newline) && c.next_word_break != Some(WordBreak::CR)
            && c.next_word_break != Some(WordBreak::LF),
    ensures
        // WB3c
        c.prev_word_break == Some(WordBreak::ZWJ) && c.next_extended_pictographic ==> !spec_is_word_boundary(c),
        // WB3d
        c.prev_word_break == Some(WordBreak::WSegSpace) && c.next_word_break == Some(WordBreak::WSegSpace) ==> !spec_is_word_boundary(c),
        // WB4
        (c.next_word_break == Some(WordBreak::Format) || c.next_word_break == Some(WordBreak::Extend) || c.next_word_break == Some(WordBreak::ZWJ)) ==> !spec_is_word_boundary(c),
        // WB5
        (c.prev_word_break_skip == Some(WordBreak::ALetter) || c.prev_word_break_skip == Some(WordBreak::HebrewLetter)) && (c.next_word_break_skip == Some(WordBreak::ALetter) || c.next_word_break_skip == Some(WordBreak::HebrewLetter)) ==> !spec_is_word_boundary(c),
        // WB6
        (c.prev_word_break_skip == Some(WordBreak::ALetter) || c.prev_word_break_skip == Some(WordBreak::HebrewLetter)) && (c.next_word_break_skip == Some(WordBreak::MidLetter) || c.next_word_break_skip == Some(WordBreak::MidNumLet) || c.next_word_break_skip == Some(WordBreak::SingleQuote)) && (c.next_next_word_break_skip == Some(WordBreak::ALetter) || c.next_next_word_break_skip == Some(WordBreak::HebrewLetter)) ==> !spec_is_word_boundary(c),
        // WB7
        (c.prev_prev_word_break_skip == Some(WordBreak::ALetter) || c.prev_prev_word_break_skip == Some(WordBreak::HebrewLetter)) && (c.prev_word_break_skip == Some(WordBreak::MidLetter) || c.prev_word_break_skip == Some(WordBreak::MidNumLet) || c.prev_word_break_skip == Some(WordBreak::SingleQuote)) && (c.next_word_break_skip == Some(WordBreak::ALetter) || c.next_word_break_skip == Some(WordBreak::HebrewLetter)) ==> !spec_is_word_boundary(c),
        // WB7a
        c.prev_word_break_skip == Some(WordBreak::HebrewLetter) && c.next_word_break_skip == Some(WordBreak::SingleQuote) ==> !spec_is_word_boundary(c),
        // WB7b
        c.prev_word_break_skip == Some(WordBreak::HebrewLetter) && c.next_word_break_skip == Some(WordBreak::DoubleQuote) && c.next_next_word_break_skip == Some(WordBreak::HebrewLetter) ==> !spec_is_word_boundary(c),
        // WB7c
        c.prev_prev_word_break_skip == Some(WordBreak::HebrewLetter) && c.prev_word_break_skip == Some(WordBreak::DoubleQuote) && c.next_word_break_skip == Some(WordBreak::HebrewLetter) ==> !spec_is_word_boundary(c),
        // WB8
        c.prev_word_break_skip == Some(WordBreak::Numeric) && c.next_word_break_skip == Some(WordBreak::Numeric) ==> !spec_is_word_boundary(c),
        // WB9
        (c.prev_word_break_skip == Some(WordBreak::ALetter) || c.prev_word_break_skip == Some(WordBreak::HebrewLetter)) && c.next_word_break_skip == Some(WordBreak::Numeric) ==> !spec_is_word_boundary(c),
        // WB10
        c.prev_word_break_skip == Some(WordBreak::Numeric) && (c.next_word_break_skip == Some(WordBreak::ALetter) || c.next_word_break_skip == Some(WordBreak::HebrewLetter)) ==> !spec_is_word_boundary(c),
        // WB11
        c.prev_prev_word_break_skip == Some(WordBreak::Numeric) && (c.prev_word_break_skip == Some(WordBreak::MidNum) || c.prev_word_break_skip == Some(WordBreak::MidNumLet) || c.prev_word_break_skip == Some(WordBreak::SingleQuote)) && c.next_word_break_skip == Some(WordBreak::Numeric) ==> !spec_is_word_boundary(c),
        // WB12
        c.prev_word_break_skip == Some(WordBreak::Numeric) && (c.next_word_break_skip == Some(WordBreak::MidNum) || c.next_word_break_skip == Some(WordBreak::MidNumLet) || c.next_word_break_skip == Some(WordBreak::SingleQuote)) && c.next_next_word_break_skip == Some(WordBreak::Numeric) ==> !spec_is_word_boundary(c),
        // WB13
        c.prev_word_break_skip == Some(WordBreak::Katakana) && c.next_word_break_skip == Some(WordBreak::Katakana) ==> !spec_is_word_boundary(c),
        // WB13a
        ((c.prev_word_break_skip == Some(WordBreak::ALetter) || c.prev_word_break_skip == Some(WordBreak::HebrewLetter)) || c.prev_word_break_skip == Some(WordBreak::Numeric) || c.prev_word_break_skip == Some(WordBreak::Katakana) || c.prev_word_break_skip == Some(WordBreak::ExtendNumLet)) && c.next_word_break_skip == Some(WordBreak::ExtendNumLet) ==> !spec_is_word_boundary(c),
        // WB13b
        c.prev_word_break_skip == Some(WordBreak::ExtendNumLet) && ((c.next_word_break_skip == Some(WordBreak::ALetter) || c.next_word_break_skip == Some(WordBreak::HebrewLetter)) || c.next_word_break_skip == Some(WordBreak::Numeric) || c.next_word_break_skip == Some(WordBreak::Katakana)) ==> !spec_is_word_boundary(c),
{
}

/// The rules that do not depend on the letters: the ends of a text are word
/// boundaries unless the text is empty (WB1, WB2); a CR followed by an LF is
/// kept together (WB3); any other line break has a boundary on each side
/// (WB3a, WB3b).
pub proof fn lemma_ends_and_line_breaks(c: WordContext)
    requires
        c.is_at_start || c.is_at_end || (c.prev_word_break is Some && c.next_word_break is Some),
    ensures
        c.is_at_start && c.is_at_end ==> !spec_is_word_boundary(c),
        c.is_at_start != c.is_at_end ==> spec_is_word_boundary(c),
        !c.is_at_start && !c.is_at_end && c.prev_word_break == Some(WordBreak::CR) && c.next_word_break == Some(
            WordBreak::LF,
        ) ==> !spec_is_word_boundary(c),
        !c.is_at_start && !c.is_at_end && !(c.prev_word_break == Some(WordBreak::CR) && c.next_word_break == Some(
            WordBreak::LF,
        )) && (c.prev_word_break == Some(WordBreak::Newline) || c.prev_word_break == Some(WordBreak::CR)
            || c.prev_word_break == Some(WordBreak::LF) || c.next_word_break == Some(WordBreak::Newline)
            || c.next_word_break == Some(WordBreak::CR) || c.next_word_break == Some(WordBreak::LF))
            ==> spec_is_word_boundary(c),
{
}

/// Between two regional indicators, with no line break, joiner, space pair or
/// format or extend character deciding first, there is a boundary exactly
/// after an even number of regional indicators (WB15, WB16).
pub proof fn lemma_regional_indicators(c: WordContext)
    requires
        !c.is_at_start,
        !c.is_at_end,
        c.prev_word_break == Some(WordBreak::RegionalIndicator),
        c.next_word_break == Some(WordBreak::RegionalIndicator),
        c.prev_word_break_skip == Some(WordBreak::RegionalIndicator),
        c.next_word_break_skip == Some(WordBreak::RegionalIndicator),
    ensures
        spec_is_word_boundary(c) == (c.regional_indicator_count % 2 == 0),
{
}

fn is_ah(wb: Option<WordBreak>) -> (b: bool)
    ensures
        b == is_ah_letter(wb),
{
    match wb {
        Some(WordBreak::ALetter) | Some(WordBreak::HebrewLetter) => true,
        _ => false,
    }
}

fn is_mid_letter(wb: Option<WordBreak>) -> (b: bool)
    ensures
        b == is_mid_letter_or_quote(wb),
{
    match wb {
        Some(WordBreak::MidLetter) | Some(WordBreak::MidNumLet) | Some(WordBreak::SingleQuote) => true,
        _ => false,
    }
}

fn is_mid_num(wb: Option<WordBreak>) -> (b: bool)
    ensures
        b == is_mid_num_or_quote(wb),
{
    match wb {
        Some(WordBreak::MidNum) | Some(WordBreak::MidNumLet) | Some(WordBreak::SingleQuote) => true,
        _ => false,
    }
}

impl WordContext {
    /// Whether the position is a word boundary.
    pub fn is_at_word_boundary(&self) -> (b: bool)
        requires
            self.is_at_start || self.is_at_end || (self.prev_word_break is Some
                && self.next_word_break is Some),
        ensures
            b == spec_is_word_boundary(*self),
    {
        // Break at the start and end of text, unless the text is empty.
        if self.is_at_start && self.is_at_end {
            return false;
        }
        if self.is_at_start {
            // WB1
            return true;
        }
        if self.is_at_end {
            // WB2
            return true;
        }
        match (self.prev_word_break.unwrap(), self.next_word_break.unwrap()) {
            // Do not break within CRLF.
            (WordBreak::CR, WordBreak::LF) => return false,  // WB3
            // Otherwise break before and after Newlines (including WordBreak::CR and WordBreak::LF)
            (WordBreak::Newline, _) | (WordBreak::CR, _) | (WordBreak::LF, _) => return true,  // WB3a
            (_, WordBreak::Newline) | (_, WordBreak::CR) | (_, WordBreak::LF) => return true,  // WB3b
            // Do not break within emoji zwj sequences.
            (WordBreak::ZWJ, _) if self.next_extended_pictographic => return false,  // WB3c
            // Keep horizontal whitespace together.
            (WordBreak::WSegSpace, WordBreak::WSegSpace) => return false,  // WB3d
            // Ignore WordBreak::Format and WordBreak::Extend characters, except after sot, WordBreak::CR, WordBreak::LF, and WordBreak::Newline.
            (_, WordBreak::Format) | (_, WordBreak::Extend) | (_, WordBreak::ZWJ) => return false,  // WB4
            _ => {},
        }
        let pp = self.prev_prev_word_break_skip;
        let p = self.prev_word_break_skip;
        let n = self.next_word_break_skip;
        let nn = self.next_next_word_break_skip;
        // Do not break between most letters.
        if is_ah(p) && is_ah(n) {
            return false;  // WB5
        }
        // Do not break letters across certain punctuation.
        if is_ah(p) && is_mid_letter(n) && is_ah(nn) {
            return false;  // WB6
        }
        if is_ah(pp) && is_mid_letter(p) && is_ah(n) {
            return false;  // WB7
        }
        match (pp, p, n, nn) {
            (_, Some(WordBreak::HebrewLetter), Some(WordBreak::SingleQuote), _) => return false,  // WB7a
            (_, Some(WordBreak::HebrewLetter), Some(WordBreak::DoubleQuote), Some(WordBreak::HebrewLetter)) => return false,  // WB7b
            (Some(WordBreak::HebrewLetter), Some(WordBreak::DoubleQuote), Some(WordBreak::HebrewLetter), _) => return false,  // WB7c
            // Do not break within sequences of digits, or digits adjacent to letters.
            (_, Some(WordBreak::Numeric), Some(WordBreak::Numeric), _) => return false,  // WB8
            _ => {},
        }
        if is_ah(p) && n == Some(WordBreak::Numeric) {
            return false;  // WB9
        }
        if p == Some(WordBreak::Numeric) && is_ah(n) {
            return false;  // WB10
        }
        // Do not break within sequences, such as "3.2" or "3,456.789".
        if pp == Some(WordBreak::Numeric) && is_mid_num(p) && n == Some(WordBreak::Numeric) {
            return false;  // WB11
        }
        if p == Some(WordBreak::Numeric) && is_mid_num(n) && nn == Some(WordBreak::Numeric) {
            return false;  // WB12
        }
        // Do not break between WordBreak::Katakana.
        if p == Some(WordBreak::Katakana) && n == Some(WordBreak::Katakana) {
            return false;  // WB13
        }
        // Do not break from extenders.
        if (is_ah(p) || p == Some(WordBreak::Numeric) || p == Some(WordBreak::Katakana) || p == Some(WordBreak::ExtendNumLet)) && n == Some(
            WordBreak::ExtendNumLet,
        ) {
            return false;  // WB13a
        }
        if p == Some(WordBreak::ExtendNumLet) && (is_ah(n) || n == Some(WordBreak::Numeric) || n == Some(WordBreak::Katakana)) {
            return false;  // WB13b
        }
        // Do not break within emoji flag sequences: between regional indicator
        // symbols, break only after an even number of them.
        if p == Some(WordBreak::RegionalIndicator) && n == Some(WordBreak::RegionalIndicator) {
            return self.regional_indicator_count % 2 == 0;  // WB15, WB16
        }
        // Otherwise, break everywhere (including around ideographs).
        true  // WB999
    }
}

/// Width in bytes of the UTF-8 sequence that starts with `byte`.
pub fn utf8_char_width(byte: u8) -> (width: usize)
    ensures
        width == (if byte < 0x80 {
            1usize
        } else if byte < 0xE0 {
            2usize
        } else if byte < 0xF0 {
            3usize
        } else {
            4usize
        }),
{
    if byte < 0x80 {
        1
    } else if byte < 0xE0 {
        2
    } else if byte < 0xF0 {
        3
    } else {
        4
    }
}


/// The width that `utf8_char_width` gives for the first byte of a valid
/// encoding is the length of the first character's encoding, and the next
/// character boundary lies right after it.
proof fn lemma_first_width(bytes: Seq<u8>)
    requires
        valid_utf8(bytes),
        bytes.len() > 0,
    ensures
        ({
            let width = if bytes[0] < 0x80 {
                1int
            } else if bytes[0] < 0xE0 {
                2int
            } else if bytes[0] < 0xF0 {
                3int
            } else {
                4int
            };
            is_next_boundary(bytes, 0, width)
        }),
{
    reveal_with_fuel(is_char_boundary, 2);
    let len = length_of_first_scalar(bytes);
    assert(valid_first_scalar(bytes));
    assert(valid_utf8(pop_first_scalar(bytes)));
    is_char_boundary_start_end_of_seq(pop_first_scalar(bytes));
    assert(is_char_boundary(bytes, len));
    assert forall|k: int| 0 < k < len implies !is_char_boundary(bytes, k) by {
    }
}

/// The character whose encoding starts at byte `p` of `bytes`.
pub open spec fn char_after(bytes: Seq<u8>, p: int) -> char {
    decode_utf8(bytes.subrange(p, bytes.len() as int))[0]
}

/// A cursor over the characters of a string, at a byte position.
#[derive(Clone, Copy, Debug)]
pub struct StrCursor<'a> {
    string: &'a str,
    byte_position: usize,
}

impl<'a> StrCursor<'a> {
    /// The bytes of the string.
    pub closed spec fn text(&self) -> Seq<u8> {
        self.string.spec_bytes()
    }

    pub closed spec fn chars(&self) -> Seq<char> {
        self.string@
    }

    pub closed spec fn position(&self) -> nat {
        self.byte_position as nat
    }

    /// The cursor lies within the string.
    pub open spec fn wf(&self) -> bool {
        self.position() <= self.text().len()
    }

    /// The bytes are the encoding of the characters, and so valid UTF-8.
    pub proof fn lemma_text(&self)
        ensures
            self.text() == encode_utf8(self.chars()),
            valid_utf8(self.text()),
            is_char_boundary(self.text(), 0),
            is_char_boundary(self.text(), self.text().len() as int),
    {
        encode_utf8_valid_utf8(self.chars());
        is_char_boundary_start_end_of_seq(self.text());
    }

    /// A cursor at the start of `string`.
    pub fn front(string: &'a str) -> (c: Self)
        ensures
            c.text() == string.spec_bytes(),
            c.chars() == string@,
            c.position() == 0,
    {
        Self { string, byte_position: 0 }
    }

    /// A cursor at the end of `string`.
    pub fn back(string: &'a str) -> (c: Self)
        ensures
            c.text() == string.spec_bytes(),
            c.chars() == string@,
            c.position() == string.spec_bytes().len(),
    {
        Self { string, byte_position: byte_len(string) }
    }

    pub fn is_at_start(&self) -> (b: bool)
        ensures
            b == (self.position() == 0),
    {
        self.byte_position == 0
    }

    pub fn is_at_end(&self) -> (b: bool)
        ensures
            b == (self.position() == self.text().len()),
    {
        self.byte_position == byte_len(self.string)
    }

    pub fn is_at_char_boundary(&self) -> (b: bool)
        ensures
            b == is_char_boundary(self.text(), self.position() as int),
    {
        self.string.is_char_boundary(self.byte_position)
    }

    pub fn byte_position(&self) -> (p: usize)
        ensures
            p == self.position(),
    {
        self.byte_position
    }

    /// The character that starts at the cursor, `None` at the end.
    pub fn current_char(&self) -> (r: Option<char>)
        requires
            self.wf(),
            is_char_boundary(self.text(), self.position() as int),
        ensures
            self.position() == self.text().len() ==> r is None,
            self.position() < self.text().len() ==> r == Some(char_after(self.text(), self.position() as int)),
            self.position() < self.text().len() ==> (r matches Some(ch) && encode_utf8(seq![ch])
                == self.text().subrange(
                self.position() as int,
                self.position() + encode_utf8(seq![ch]).len() as int,
            )),
    {
        let ghost bytes = self.string.spec_bytes();
        let ghost pos = self.byte_position as int;
        if self.byte_position == byte_len(self.string) {
            return None;
        }
        let (_, rest) = self.string.split_at(self.byte_position);
        proof {
            let suffix = bytes.subrange(pos, bytes.len() as int);
            assert(rest.spec_bytes() == suffix);
            assert(rest@.len() > 0) by {
                if rest@.len() == 0 {
                    assert(suffix.len() == 0);
                }
            }
            lemma_first_char_boundary(rest@);
            let len = encode_scalar(rest@[0] as u32).len() as int;
            assert(suffix.subrange(0, len) == bytes.subrange(pos, pos + len));
            encode_utf8_decode_utf8(rest@);
        }
        Some(rest.get_char(0))
    }

    pub fn move_to(&mut self, byte_position: usize)
        requires
            byte_position <= old(self).text().len(),
        ensures
            final(self).text() == old(self).text(),
            final(self).chars() == old(self).chars(),
            final(self).position() == byte_position,
    {
        self.byte_position = byte_position;
    }

    /// Moves over the character that starts at the cursor, by the width that
    /// its first byte gives.
    pub fn move_next_char(&mut self)
        requires
            is_char_boundary(old(self).text(), old(self).position() as int),
            old(self).position() < old(self).text().len(),
        ensures
            final(self).text() == old(self).text(),
            final(self).chars() == old(self).chars(),
            is_next_boundary(old(self).text(), old(self).position() as int, final(self).position() as int),
    {
        let ghost bytes = self.string.spec_bytes();
        let ghost pos = self.byte_position as int;
        let b = self.string.as_bytes();
        let width = utf8_char_width(b[self.byte_position]);
        proof {
            let suffix = bytes.subrange(pos, bytes.len() as int);
            encode_utf8_valid_utf8(self.string@);
            valid_utf8_split(bytes, pos);
            lemma_first_width(suffix);
            assert forall|k: int| 0 <= k <= suffix.len() implies is_char_boundary(suffix, k)
                == is_char_boundary(bytes, pos + k) by {
                lemma_boundary_shift(bytes, pos, k);
            }
            assert(is_char_boundary(bytes, pos + width));
            assert forall|k: int| pos < k < pos + width implies !is_char_boundary(bytes, k) by {
                assert(!is_char_boundary(suffix, k - pos));
            }
        }
        self.byte_position = self.byte_position + width;
    }

    /// Moves back to the previous byte that is not a continuation byte.
    pub fn move_prev_char(&mut self)
        requires
            old(self).wf(),
            old(self).position() > 0,
        ensures
            final(self).text() == old(self).text(),
            final(self).chars() == old(self).chars(),
            is_prev_boundary(old(self).text(), old(self).position() as int, final(self).position() as int),
    {
        let ghost bytes = self.string.spec_bytes();
        let ghost end = self.byte_position as int;
        proof {
            encode_utf8_valid_utf8(self.string@);
            is_char_boundary_start_end_of_seq(bytes);
        }
        let b = self.string.as_bytes();
        loop
            invariant_except_break
                0 < self.byte_position <= end,
                forall|k: int| self.byte_position <= k < end ==> !is_char_boundary(bytes, k),
            invariant
                b@ == bytes,
                bytes == self.string.spec_bytes(),
                valid_utf8(bytes),
                is_char_boundary(bytes, 0),
                end <= bytes.len(),
                self.string == old(self).string,
            ensures
                0 <= self.byte_position < end,
                is_char_boundary(bytes, self.byte_position as int),
                forall|k: int| self.byte_position < k < end ==> !is_char_boundary(bytes, k),
            decreases self.byte_position,
        {
            self.byte_position = self.byte_position - 1;
            let byte = b[self.byte_position];
            proof {
                is_char_boundary_iff_not_is_continuation_byte(bytes, self.byte_position as int);
                assert((byte & 0xC0u8 != 0x80u8) == !(0x80u8 <= byte && byte <= 0xBFu8)) by (bit_vector);
            }
            if byte & 0xC0 != 0x80 {
                break;
            }
        }
    }
}

} // verus!
