use vstd::prelude::*;
use vstd::string::{StrSliceExecFns, StringSliceAdditionalSpecFns};
use vstd::utf8::*;
use crate::str_ext::{byte_len, is_next_boundary, is_prev_boundary, lemma_encode_injective, lemma_first_char_boundary, StrExt};

verus! {

broadcast use {vstd::utf8::group_utf8_lib, vstd::slice::group_slice_axioms};

/// A cursor over the bytes of a string.
#[derive(Clone, Copy, Debug)]
pub struct StrCursor<'a> {
    string: &'a str,
    byte_position: usize,
}

/// In a string split at a character boundary, the boundaries of the second
/// part are those of the whole, shifted.
pub proof fn lemma_boundary_shift(bytes: Seq<u8>, pos: int, k: int)
    requires
        valid_utf8(bytes),
        is_char_boundary(bytes, pos),
        0 <= pos <= bytes.len(),
        0 <= k <= bytes.len() - pos,
    ensures
        is_char_boundary(bytes.subrange(pos, bytes.len() as int), k) == is_char_boundary(bytes, pos + k),
{
    let suffix = bytes.subrange(pos, bytes.len() as int);
    valid_utf8_split(bytes, pos);
    is_char_boundary_start_end_of_seq(bytes);
    is_char_boundary_start_end_of_seq(suffix);
    if k < suffix.len() {
        is_char_boundary_iff_not_is_continuation_byte(suffix, k);
        is_char_boundary_iff_not_is_continuation_byte(bytes, pos + k);
    }
}

impl<'a> StrCursor<'a> {
    /// The bytes of the string.
    pub closed spec fn text(&self) -> Seq<u8> {
        self.string.spec_bytes()
    }

    pub closed spec fn position(&self) -> nat {
        self.byte_position as nat
    }

    /// The cursor lies within the text.
    pub open spec fn wf(&self) -> bool {
        self.position() <= self.text().len()
    }

    pub fn new(string: &'a str) -> (c: Self)
        ensures
            c.text() == string.spec_bytes(),
            c.position() == 0,
            c.wf(),
    {
        Self { string, byte_position: 0 }
    }

    pub fn is_at_start_of_text(&self) -> (b: bool)
        ensures
            b == (self.position() == 0),
    {
        self.byte_position == 0
    }

    pub fn is_at_end_of_text(&self) -> (b: bool)
        ensures
            b == (self.position() == self.text().len()),
    {
        self.byte_position == byte_len(self.string)
    }

    pub fn byte_position(&self) -> (p: usize)
        ensures
            p == self.position(),
    {
        self.byte_position
    }

    pub fn move_to(&mut self, position: usize)
        requires
            position <= old(self).text().len(),
        ensures
            final(self).text() == old(self).text(),
            final(self).position() == position,
            final(self).wf(),
    {
        self.byte_position = position;
    }

    /// The byte after the cursor, if any.
    pub fn peek_next_byte(&self) -> (r: Option<u8>)
        requires
            self.wf(),
        ensures
            self.position() == self.text().len() ==> r is None,
            self.position() < self.text().len() ==> r == Some(self.text()[self.position() as int]),
    {
        let bytes = self.string.as_bytes();
        if self.byte_position == bytes.len() {
            return None;
        }
        Some(bytes[self.byte_position])
    }

    /// The byte before the cursor, if any.
    pub fn peek_prev_byte(&self) -> (r: Option<u8>)
        requires
            self.wf(),
        ensures
            self.position() == 0 ==> r is None,
            self.position() > 0 ==> r == Some(self.text()[self.position() - 1]),
    {
        if self.byte_position == 0 {
            return None;
        }
        Some(self.string.as_bytes()[self.byte_position - 1])
    }

    /// The byte after the cursor, moving over it.
    pub fn next_byte(&mut self) -> (r: Option<u8>)
        requires
            old(self).wf(),
        ensures
            final(self).wf(),
            final(self).text() == old(self).text(),
            old(self).position() == old(self).text().len() ==> r is None && final(self).position()
                == old(self).position(),
            old(self).position() < old(self).text().len() ==> r == Some(
                old(self).text()[old(self).position() as int],
            ) && final(self).position() == old(self).position() + 1,
    {
        let bytes = self.string.as_bytes();
        if self.byte_position == bytes.len() {
            return None;
        }
        let byte = bytes[self.byte_position];
        self.byte_position = self.byte_position + 1;
        Some(byte)
    }

    /// The byte before the cursor, moving back over it.
    pub fn prev_byte(&mut self) -> (r: Option<u8>)
        requires
            old(self).wf(),
        ensures
            final(self).wf(),
            final(self).text() == old(self).text(),
            old(self).position() == 0 ==> r is None && final(self).position() == 0,
            old(self).position() > 0 ==> r == Some(old(self).text()[old(self).position() - 1])
                && final(self).position() == old(self).position() - 1,
    {
        if self.byte_position == 0 {
            return None;
        }
        self.byte_position = self.byte_position - 1;
        Some(self.string.as_bytes()[self.byte_position])
    }

    /// The character after the cursor, moving over it.
    pub fn next_char(&mut self) -> (r: Option<char>)
        requires
            old(self).wf(),
            is_char_boundary(old(self).text(), old(self).position() as int),
        ensures
            final(self).text() == old(self).text(),
            final(self).wf(),
            is_char_boundary(final(self).text(), final(self).position() as int),
            old(self).position() == old(self).text().len() ==> r is None && final(self).position()
                == old(self).position(),
            old(self).position() < old(self).text().len() ==> (r matches Some(ch) && is_next_boundary(
                old(self).text(),
                old(self).position() as int,
                final(self).position() as int,
            ) && encode_utf8(seq![ch]) == old(self).text().subrange(
                old(self).position() as int,
                final(self).position() as int,
            )),
    {
        let ghost bytes = self.string.spec_bytes();
        let ghost pos = self.byte_position as int;
        if self.byte_position == byte_len(self.string) {
            return None;
        }
        let next = self.string.next_grapheme_boundary(self.byte_position).unwrap();
        let (_, rest) = self.string.split_at(self.byte_position);
        proof {
            let suffix = bytes.subrange(pos, bytes.len() as int);
            assert(rest.spec_bytes() == suffix);
            lemma_first_char_boundary(rest@);
            let len = encode_scalar(rest@[0] as u32).len() as int;
            assert forall|k: int| 0 <= k <= suffix.len() implies is_char_boundary(suffix, k)
                == is_char_boundary(bytes, pos + k) by {
                lemma_boundary_shift(bytes, pos, k);
            }
            if len < next - pos {
                assert(is_char_boundary(bytes, pos + len));
            }
            if next - pos < len {
                assert(is_char_boundary(suffix, next - pos));
            }
            assert(next - pos == len);
            assert(bytes.subrange(pos, next as int) =~= suffix.subrange(0, len));
        }
        let ch = rest.get_char(0);
        self.byte_position = next;
        Some(ch)
    }

    /// The character before the cursor, moving back over it.
    pub fn prev_char(&mut self) -> (r: Option<char>)
        requires
            old(self).wf(),
            is_char_boundary(old(self).text(), old(self).position() as int),
        ensures
            final(self).text() == old(self).text(),
            final(self).wf(),
            is_char_boundary(final(self).text(), final(self).position() as int),
            old(self).position() == 0 ==> r is None && final(self).position() == 0,
            old(self).position() > 0 ==> (r matches Some(ch) && is_prev_boundary(
                old(self).text(),
                old(self).position() as int,
                final(self).position() as int,
            ) && encode_utf8(seq![ch]) == old(self).text().subrange(
                final(self).position() as int,
                old(self).position() as int,
            )),
    {
        let ghost bytes = self.string.spec_bytes();
        let ghost pos = self.byte_position as int;
        if self.byte_position == 0 {
            return None;
        }
        let prev = self.string.prev_grapheme_boundary(self.byte_position).unwrap();
        let (_, rest) = self.string.split_at(prev);
        proof {
            let suffix = bytes.subrange(prev as int, bytes.len() as int);
            assert(rest.spec_bytes() == suffix);
            assert(rest@.len() > 0) by {
                if rest@.len() == 0 {
                    assert(suffix.len() == 0);
                }
            }
            lemma_first_char_boundary(rest@);
            let len = encode_scalar(rest@[0] as u32).len() as int;
            assert forall|k: int| 0 <= k <= suffix.len() implies is_char_boundary(suffix, k)
                == is_char_boundary(bytes, prev + k) by {
                lemma_boundary_shift(bytes, prev as int, k);
            }
            if len < pos - prev {
                assert(is_char_boundary(bytes, prev + len));
            }
            if pos - prev < len {
                assert(is_char_boundary(suffix, pos - prev));
            }
            assert(pos - prev == len);
            assert(bytes.subrange(prev as int, pos) =~= suffix.subrange(0, len));
        }
        let ch = rest.get_char(0);
        self.byte_position = prev;
        Some(ch)
    }
}

} // verus!
