use vstd::prelude::*;
use std::ops::{Add, Sub};
use vstd::std_specs::ops::{AddSpecImpl, SubSpecImpl};
use vstd::string::{StringExecFns, StringSliceAdditionalSpecFns};
use vstd::utf8::*;
use crate::str_ext::lemma_encode_concat;

verus! {

/// A position in a text: a line index and a byte index within that line.
#[derive(Clone, Copy, Debug, Default, PartialEq, Eq, Structural, Hash, PartialOrd, Ord)]
pub struct Position {
    pub line_index: usize,
    pub byte_index: usize,
}

/// The extent of a piece of text: how many line breaks it contains, and how
/// many bytes follow the last line break.
#[derive(Clone, Copy, Debug, Default, PartialEq, Eq, Structural, Hash, PartialOrd, Ord)]
pub struct Size {
    pub line_count: usize,
    pub byte_count: usize,
}

/// A range of text between two positions.
#[derive(Clone, Copy, Debug, Default, PartialEq, Eq, Structural, Hash)]
pub struct Range {
    pub start: Position,
    pub end: Position,
}

/// An edit: the text in `range` is replaced by the lines of `replace_with`.
#[derive(Debug, PartialEq, Eq, Hash)]
pub struct Delta {
    pub range: Range,
    pub replace_with: Vec<String>,
}

/// What an edit looks like from the outside: the range it replaces and the
/// extent of the text that replaces it.
#[derive(Clone, Copy, Debug, PartialEq, Eq, Structural, Hash)]
pub struct DeltaDesc {
    pub range: Range,
    pub replace_with_len: Size,
}

/// The characters of a line up to a byte index.
pub open spec fn chars_before(line: Seq<char>, byte_index: int) -> Seq<char> {
    decode_utf8(encode_utf8(line).subrange(0, byte_index))
}

/// The characters of a line from a byte index on.
pub open spec fn chars_after(line: Seq<char>, byte_index: int) -> Seq<char> {
    decode_utf8(encode_utf8(line).subrange(byte_index, encode_utf8(line).len() as int))
}

/// The lines of a text, each as its characters.
pub open spec fn lines_view(lines: Seq<String>) -> Seq<Seq<char>> {
    lines.map_values(|line: String| line@)
}

/// The text `lines` after the text from `start` to `end` was replaced by the
/// lines `replace_with`: the part of the start line before `start` is put in
/// front of the first new line, the part of the end line after `end` behind the
/// last one, and the new lines take the place of the lines from the start line
/// to the end line.
pub open spec fn spec_splice(
    lines: Seq<Seq<char>>,
    start: Position,
    end: Position,
    replace_with: Seq<Seq<char>>,
) -> Seq<Seq<char>> {
    let first = replace_with.update(
        0,
        chars_before(lines[start.line_index as int], start.byte_index as int) + replace_with[0],
    );
    let last_index = replace_with.len() - 1;
    let middle = first.update(
        last_index,
        first[last_index] + chars_after(lines[end.line_index as int], end.byte_index as int),
    );
    lines.take(start.line_index as int) + middle + lines.skip(end.line_index + 1)
}

impl Delta {
    /// The lines to insert, each as its characters.
    pub open spec fn replace_with_view(&self) -> Seq<Seq<char>> {
        lines_view(self.replace_with@)
    }

    /// The edit is one that `apply` can make on `lines`.
    pub open spec fn applies_to(&self, lines: Seq<String>) -> bool {
        let start = self.range.start;
        let end = self.range.end;
        &&& self.replace_with@.len() >= 1
        &&& start.line_index < lines.len()
        &&& end.line_index < lines.len()
        &&& start.line_index <= end.line_index + 1
        &&& is_char_boundary(encode_utf8(lines[start.line_index as int]@), start.byte_index as int)
        &&& is_char_boundary(encode_utf8(lines[end.line_index as int]@), end.byte_index as int)
    }

    /// The range and the extent of the inserted text.
    pub fn desc(&self) -> (d: DeltaDesc)
        requires
            self.replace_with@.len() >= 1,
        ensures
            d.range == self.range,
            d.replace_with_len.line_count == self.replace_with@.len() - 1,
            d.replace_with_len.byte_count == encode_utf8(self.replace_with@.last()@).len(),
    {
        let last = self.replace_with.last().unwrap();
        DeltaDesc {
            range: self.range,
            replace_with_len: Size {
                line_count: self.replace_with.len() - 1,
                byte_count: crate::str_ext::byte_len(last.as_str()),
            },
        }
    }

    /// Makes the edit on `lines`.
    pub fn apply(self, lines: &mut Vec<String>)
        requires
            self.applies_to(old(lines)@),
        ensures
            lines_view(final(lines)@) == spec_splice(
                lines_view(old(lines)@),
                self.range.start,
                self.range.end,
                self.replace_with_view(),
            ),
    {
        broadcast use vstd::utf8::group_utf8_lib;

        let start = self.range.start();
        let end = self.range.end();
        let ghost old_lines = lines_view(lines@);
        let ghost rw = self.replace_with_view();
        let mut replace_with = self.replace_with;
        let count = replace_with.len();
        let (prefix, _) = lines[start.line_index].as_str().split_at(start.byte_index);
        proof {
            assert(old_lines[start.line_index as int] == lines@[start.line_index as int]@);
            lemma_decode_of_encode(prefix@);
        }
        let mut first = String::from_str(prefix);
        first.append(replace_with[0].as_str());
        replace_with.set(0, first);
        let ghost firsts = lines_view(replace_with@);
        proof {
            assert(firsts =~= rw.update(
                0,
                chars_before(old_lines[start.line_index as int], start.byte_index as int) + rw[0],
            ));
        }
        let (_, suffix) = lines[end.line_index].as_str().split_at(end.byte_index);
        proof {
            assert(old_lines[end.line_index as int] == lines@[end.line_index as int]@);
            lemma_decode_of_encode(suffix@);
        }
        let mut last = replace_with[count - 1].clone();
        last.append(suffix);
        replace_with.set(count - 1, last);
        let ghost middle = lines_view(replace_with@);
        proof {
            assert(middle =~= firsts.update(
                count - 1,
                firsts[count - 1] + chars_after(old_lines[end.line_index as int], end.byte_index as int),
            ));
        }
        let mut result: Vec<String> = Vec::new();
        let mut i: usize = 0;
        while i < start.line_index
            invariant
                i <= start.line_index < lines@.len(),
                old_lines == lines_view(lines@),
                lines_view(result@) == old_lines.take(i as int),
            decreases start.line_index - i,
        {
            let ghost prev = result@;
            result.push(lines[i].clone());
            proof {
                lemma_lines_view_push(prev, result@.last());
                assert(lines_view(result@) =~= old_lines.take(i + 1));
            }
            i = i + 1;
        }
        let mut j: usize = 0;
        while j < count
            invariant
                j <= count == replace_with@.len(),
                middle == lines_view(replace_with@),
                lines_view(result@) == old_lines.take(start.line_index as int) + middle.take(j as int),
            decreases count - j,
        {
            let ghost prev = result@;
            result.push(replace_with[j].clone());
            proof {
                lemma_lines_view_push(prev, result@.last());
                assert(lines_view(result@) =~= old_lines.take(start.line_index as int) + middle.take(
                    j + 1,
                ));
            }
            j = j + 1;
        }
        let line_count = lines.len();
        let mut k: usize = end.line_index + 1;
        while k < line_count
            invariant
                line_count == lines@.len(),
                end.line_index + 1 <= k <= lines@.len(),
                old_lines == lines_view(lines@),
                lines_view(result@) == old_lines.take(start.line_index as int) + middle
                    + old_lines.subrange(end.line_index + 1, k as int),
            decreases lines@.len() - k,
        {
            let ghost prev = result@;
            result.push(lines[k].clone());
            proof {
                lemma_lines_view_push(prev, result@.last());
                assert(lines_view(result@) =~= old_lines.take(start.line_index as int) + middle
                    + old_lines.subrange(end.line_index + 1, k + 1));
            }
            k = k + 1;
        }
        proof {
            assert(middle.take(count as int) =~= middle);
            assert(old_lines.subrange(end.line_index + 1, k as int) =~= old_lines.skip(end.line_index + 1));
        }
        *lines = result;
    }
}

/// The characters of the lines after one more line was added.
pub proof fn lemma_lines_view_push(lines: Seq<String>, line: String)
    ensures
        lines_view(lines.push(line)) == lines_view(lines).push(line@),
{
    assert(lines_view(lines.push(line)) =~= lines_view(lines).push(line@));
}

/// Decoding the encoding of a text gives the text back.
pub proof fn lemma_decode_of_encode(chars: Seq<char>)
    ensures
        decode_utf8(encode_utf8(chars)) == chars,
{
    encode_utf8_decode_utf8(chars);
}

impl Position {
    /// Lexicographic order on positions: first by line, then by byte.
    pub open spec fn spec_lt(self, other: Position) -> bool {
        self.line_index < other.line_index || (self.line_index == other.line_index
            && self.byte_index < other.byte_index)
    }

    pub open spec fn spec_le(self, other: Position) -> bool {
        self.spec_lt(other) || self == other
    }

    /// The later of two positions.
    pub open spec fn spec_max(self, other: Position) -> Position {
        if self.spec_lt(other) {
            other
        } else {
            self
        }
    }

    /// `self + size`: the position reached by moving over text of extent `size`.
    pub open spec fn spec_add_size(self, size: Size) -> Position {
        if size.line_count == 0 {
            Position { line_index: self.line_index, byte_index: (self.byte_index + size.byte_count) as usize }
        } else {
            Position { line_index: (self.line_index + size.line_count) as usize, byte_index: size.byte_count }
        }
    }

    pub open spec fn add_size_fits(self, size: Size) -> bool {
        if size.line_count == 0 {
            self.byte_index + size.byte_count <= usize::MAX
        } else {
            self.line_index + size.line_count <= usize::MAX
        }
    }

    /// `self - other`: the extent of the text that leads from `self` to `other`.
    /// It is defined when `self` does not come after `other`.
    pub open spec fn spec_sub_position(self, other: Position) -> Size {
        if self.line_index == other.line_index {
            Size { line_count: 0, byte_count: (other.byte_index - self.byte_index) as usize }
        } else {
            Size { line_count: (other.line_index - self.line_index) as usize, byte_count: other.byte_index }
        }
    }

    /// The position after an edit described by `delta` was applied. Positions
    /// before the edited range stay where they are; positions in it move to the
    /// end of the inserted text.
    pub open spec fn spec_apply_delta(self, delta: DeltaDesc) -> Position {
        if self.spec_lt(delta.range.start) {
            self
        } else {
            delta.range.start.spec_add_size(delta.replace_with_len).spec_add_size(
                self.spec_max(delta.range.end).spec_sub_position(delta.range.end),
            )
        }
    }

    /// The inputs on which `apply_delta` computes without overflow or underflow.
    pub open spec fn apply_delta_defined(self, delta: DeltaDesc) -> bool {
        self.spec_lt(delta.range.start) || (self.spec_max(delta.range.end).spec_le(delta.range.end)
            && delta.range.start.add_size_fits(delta.replace_with_len) && delta.range.start.spec_add_size(
            delta.replace_with_len,
        ).add_size_fits(self.spec_max(delta.range.end).spec_sub_position(delta.range.end)))
    }

    /// Whether `self` comes strictly before `other`.
    pub fn is_before(self, other: Position) -> (b: bool)
        ensures
            b == self.spec_lt(other),
    {
        self.line_index < other.line_index || (self.line_index == other.line_index
            && self.byte_index < other.byte_index)
    }

    /// The later of `self` and `other`.
    pub fn max_position(self, other: Position) -> (p: Position)
        ensures
            p == self.spec_max(other),
    {
        if self.is_before(other) {
            other
        } else {
            self
        }
    }

    pub fn apply_delta(self, delta_len: DeltaDesc) -> (p: Position)
        requires
            self.apply_delta_defined(delta_len),
        ensures
            p == self.spec_apply_delta(delta_len),
    {
        if self.is_before(delta_len.range.start()) {
            self
        } else {
            delta_len.range.start() + delta_len.replace_with_len + (self.max_position(
                delta_len.range.end(),
            ) - delta_len.range.end())
        }
    }

    pub fn add_assign(&mut self, size: Size)
        requires
            old(self).add_size_fits(size),
        ensures
            *final(self) == old(self).spec_add_size(size),
    {
        *self = *self + size;
    }
}

impl Add<Size> for Position {
    type Output = Position;

    fn add(self, size: Size) -> (p: Position) {
        if size.line_count == 0 {
            Position { line_index: self.line_index, byte_index: self.byte_index + size.byte_count }
        } else {
            Position { line_index: self.line_index + size.line_count, byte_index: size.byte_count }
        }
    }
}

impl AddSpecImpl<Size> for Position {
    open spec fn obeys_add_spec() -> bool {
        true
    }

    open spec fn add_req(self, size: Size) -> bool {
        self.add_size_fits(size)
    }

    open spec fn add_spec(self, size: Size) -> Position {
        self.spec_add_size(size)
    }
}

impl Sub for Position {
    type Output = Size;

    fn sub(self, other: Position) -> (s: Size) {
        if self.line_index == other.line_index {
            Size { line_count: 0, byte_count: other.byte_index - self.byte_index }
        } else {
            Size { line_count: other.line_index - self.line_index, byte_count: other.byte_index }
        }
    }
}

impl SubSpecImpl for Position {
    open spec fn obeys_sub_spec() -> bool {
        true
    }

    open spec fn sub_req(self, other: Position) -> bool {
        self.spec_le(other)
    }

    open spec fn sub_spec(self, other: Position) -> Size {
        self.spec_sub_position(other)
    }
}

impl Size {
    /// The extent of the empty text.
    pub open spec fn zero() -> Size {
        Size { line_count: 0, byte_count: 0 }
    }

    /// `self + other`: the extent of a text of extent `self` followed by one of
    /// extent `other`.
    pub open spec fn spec_add(self, other: Size) -> Size {
        if other.line_count == 0 {
            Size { line_count: self.line_count, byte_count: (self.byte_count + other.byte_count) as usize }
        } else {
            Size { line_count: (self.line_count + other.line_count) as usize, byte_count: other.byte_count }
        }
    }

    pub open spec fn add_fits(self, other: Size) -> bool {
        if other.line_count == 0 {
            self.byte_count + other.byte_count <= usize::MAX
        } else {
            self.line_count + other.line_count <= usize::MAX
        }
    }

    /// `self - other`, defined when `other` reaches at least as far as `self`.
    pub open spec fn spec_sub(self, other: Size) -> Size {
        if self.line_count == other.line_count {
            Size { line_count: 0, byte_count: (other.byte_count - self.byte_count) as usize }
        } else {
            Size { line_count: (other.line_count - self.line_count) as usize, byte_count: other.byte_count }
        }
    }

    pub open spec fn sub_defined(self, other: Size) -> bool {
        if self.line_count == other.line_count {
            self.byte_count <= other.byte_count
        } else {
            self.line_count <= other.line_count
        }
    }

    pub fn add_assign(&mut self, other: Size)
        requires
            old(self).add_fits(other),
        ensures
            *final(self) == old(self).spec_add(other),
    {
        *self = *self + other;
    }

    /// Replaces `self` by `self + other` (this is what the operation does, the
    /// same as `add_assign`).
    pub fn sub_assign(&mut self, other: Size)
        requires
            old(self).add_fits(other),
        ensures
            *final(self) == old(self).spec_add(other),
    {
        *self = *self + other;
    }
}

impl Add for Size {
    type Output = Size;

    fn add(self, other: Size) -> (s: Size) {
        if other.line_count == 0 {
            Size { line_count: self.line_count, byte_count: self.byte_count + other.byte_count }
        } else {
            Size { line_count: self.line_count + other.line_count, byte_count: other.byte_count }
        }
    }
}

impl AddSpecImpl for Size {
    open spec fn obeys_add_spec() -> bool {
        true
    }

    open spec fn add_req(self, other: Size) -> bool {
        self.add_fits(other)
    }

    open spec fn add_spec(self, other: Size) -> Size {
        self.spec_add(other)
    }
}

impl Sub for Size {
    type Output = Size;

    fn sub(self, other: Size) -> (s: Size) {
        if self.line_count == other.line_count {
            Size { line_count: 0, byte_count: other.byte_count - self.byte_count }
        } else {
            Size { line_count: other.line_count - self.line_count, byte_count: other.byte_count }
        }
    }
}

impl SubSpecImpl for Size {
    open spec fn obeys_sub_spec() -> bool {
        true
    }

    open spec fn sub_req(self, other: Size) -> bool {
        self.sub_defined(other)
    }

    open spec fn sub_spec(self, other: Size) -> Size {
        self.spec_sub(other)
    }
}

impl Range {
    pub fn is_empty(self) -> (b: bool)
        ensures
            b == (self.start == self.end),
    {
        self.start == self.end
    }

    /// `self.end - self.start`, defined when the end does not come after the start.
    pub fn len(self) -> (s: Size)
        requires
            self.end.spec_le(self.start),
        ensures
            s == self.end.spec_sub_position(self.start),
    {
        self.end - self.start
    }

    pub fn start(self) -> (p: Position)
        ensures
            p == self.start,
    {
        self.start
    }

    pub fn end(self) -> (p: Position)
        ensures
            p == self.end,
    {
        self.end
    }

    pub fn apply_delta(self, delta_len: DeltaDesc) -> (r: Range)
        requires
            self.start.apply_delta_defined(delta_len),
            self.end.apply_delta_defined(delta_len),
        ensures
            r.start == self.start.spec_apply_delta(delta_len),
            r.end == self.end.spec_apply_delta(delta_len),
    {
        Range { start: self.start.apply_delta(delta_len), end: self.end.apply_delta(delta_len) }
    }
}

/// Appending texts is associative: the extent of `a` followed by `b`
/// followed by `c` does not depend on how the three are grouped.
pub proof fn lemma_size_add_associative(a: Size, b: Size, c: Size)
    requires
        a.add_fits(b),
        a.spec_add(b).add_fits(c),
        b.add_fits(c),
        a.add_fits(b.spec_add(c)),
    ensures
        a.spec_add(b).spec_add(c) == a.spec_add(b.spec_add(c)),
{
}

/// The empty extent is neutral for `+` on both sides.
pub proof fn lemma_size_add_zero(a: Size)
    ensures
        a.spec_add(Size::zero()) == a,
        Size::zero().spec_add(a) == a,
{
}

/// Moving over `a` and then over `b` is moving over `a + b`.
pub proof fn lemma_position_add_size_compose(p: Position, a: Size, b: Size)
    requires
        p.add_size_fits(a),
        p.spec_add_size(a).add_size_fits(b),
        a.add_fits(b),
        p.add_size_fits(a.spec_add(b)),
    ensures
        p.spec_add_size(a).spec_add_size(b) == p.spec_add_size(a.spec_add(b)),
{
}

/// Moving from `p` over the extent `p - q` lands on `q`, whenever `p` does
/// not come after `q`.
pub proof fn lemma_add_sub_position(p: Position, q: Position)
    requires
        p.spec_le(q),
    ensures
        p.spec_add_size(p.spec_sub_position(q)) == q,
{
}

/// Applying an edit keeps the order of positions: if `p` does not come after
/// `q`, their images do not either.
pub proof fn lemma_apply_delta_monotonic(p: Position, q: Position, delta: DeltaDesc)
    requires
        p.spec_le(q),
        p.apply_delta_defined(delta),
        q.apply_delta_defined(delta),
    ensures
        p.spec_apply_delta(delta).spec_le(q.spec_apply_delta(delta)),
{
}

/// Every position from the start to the end of the edited range, both
/// included, ends up at the end of the inserted text.
pub proof fn lemma_apply_delta_in_range(p: Position, delta: DeltaDesc)
    requires
        delta.range.start.spec_le(p),
        p.spec_le(delta.range.end),
        delta.range.start.add_size_fits(delta.replace_with_len),
    ensures
        p.apply_delta_defined(delta),
        p.spec_apply_delta(delta) == delta.range.start.spec_add_size(delta.replace_with_len),
{
}


/// The characters of a line before a character boundary, encoded, are the
/// bytes of the line up to it.
proof fn lemma_chars_before_bytes(line: Seq<char>, byte_index: int)
    requires
        is_char_boundary(encode_utf8(line), byte_index),
    ensures
        encode_utf8(chars_before(line, byte_index)) == encode_utf8(line).subrange(0, byte_index),
        encode_utf8(chars_before(line, byte_index)).len() == byte_index,
{
    let bytes = encode_utf8(line);
    encode_utf8_valid_utf8(line);
    assert(0 <= byte_index <= bytes.len());
    valid_utf8_split(bytes, byte_index);
    decode_utf8_encode_utf8(bytes.subrange(0, byte_index));
}

/// In `before + middle + after`, the characters after the bytes of `before`
/// and `middle` are `after`.
proof fn lemma_chars_after_concat(before: Seq<char>, middle: Seq<char>, after: Seq<char>)
    ensures
        chars_after(before + middle + after, (encode_utf8(before).len() + encode_utf8(middle).len()) as int)
            == after,
        chars_before(before + middle + after, encode_utf8(before).len() as int) == before,
{
    lemma_encode_concat(before + middle, after);
    lemma_encode_concat(before, middle);
    lemma_encode_concat(before, middle + after);
    assert(before + middle + after == before + (middle + after));
    lemma_encode_concat(middle, after);
    let bytes = encode_utf8(before + middle + after);
    let n = encode_utf8(before).len() + encode_utf8(middle).len();
    assert(bytes.subrange(n as int, bytes.len() as int) == encode_utf8(after));
    assert(bytes.subrange(0, encode_utf8(before).len() as int) == encode_utf8(before));
    encode_utf8_decode_utf8(after);
    encode_utf8_decode_utf8(before);
}

/// Applying an edit keeps the text around it. In the edited text, the lines
/// before the edit are unchanged, the text before the start of the edit stays
/// in front of it, and the end of the edit, mapped through the edit's
/// description, is followed by the characters that followed the edited range.
pub proof fn lemma_apply_keeps_text_around_edit(delta: Delta, lines: Seq<String>, desc: DeltaDesc)
    requires
        delta.applies_to(lines),
        delta.range.start.spec_le(delta.range.end),
        desc.range == delta.range,
        desc.replace_with_len.line_count == delta.replace_with@.len() - 1,
        desc.replace_with_len.byte_count == encode_utf8(delta.replace_with@.last()@).len(),
        delta.range.start.add_size_fits(desc.replace_with_len),
    ensures
        ({
            let start = delta.range.start;
            let end = delta.range.end;
            let old = lines_view(lines);
            let new = spec_splice(old, start, end, delta.replace_with_view());
            let mapped_end = end.spec_apply_delta(desc);
            &&& end.apply_delta_defined(desc)
            &&& mapped_end.line_index < new.len()
            &&& chars_after(new[mapped_end.line_index as int], mapped_end.byte_index as int)
                == chars_after(old[end.line_index as int], end.byte_index as int)
            &&& chars_before(new[start.line_index as int], start.byte_index as int) == chars_before(
                old[start.line_index as int],
                start.byte_index as int,
            )
            &&& forall|i: int| 0 <= i < start.line_index ==> #[trigger] new[i] == old[i]
            &&& new.len() == old.len() - (end.line_index - start.line_index) + desc.replace_with_len.line_count
        }),
{
    let start = delta.range.start;
    let end = delta.range.end;
    let old = lines_view(lines);
    let rw = delta.replace_with_view();
    let new = spec_splice(old, start, end, rw);
    let before = chars_before(old[start.line_index as int], start.byte_index as int);
    let after = chars_after(old[end.line_index as int], end.byte_index as int);
    let last_index = rw.len() - 1;
    lemma_apply_delta_in_range(end, desc);
    lemma_chars_before_bytes(old[start.line_index as int], start.byte_index as int);
    assert(rw[last_index] == delta.replace_with@.last()@);
    let first = rw.update(0, before + rw[0]);
    let middle = first.update(last_index, first[last_index] + after);
    assert(new == old.take(start.line_index as int) + middle + old.skip(end.line_index + 1));
    assert(new[start.line_index + last_index] == middle[last_index]);
    if last_index == 0 {
        assert(middle[0] == before + rw[0] + after);
        lemma_chars_after_concat(before, rw[0], after);
    } else {
        assert(middle[last_index] == Seq::<char>::empty() + rw[last_index] + after);
        lemma_chars_after_concat(Seq::<char>::empty(), rw[last_index], after);
        assert(encode_utf8(Seq::<char>::empty()).len() == 0);
        assert(middle[0] == before + rw[0] + Seq::<char>::empty());
        lemma_chars_after_concat(before, rw[0], Seq::<char>::empty());
    }
    assert(new[start.line_index as int] == middle[0]);
}

} // verus!
