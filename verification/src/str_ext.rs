use vstd::prelude::*;
use vstd::utf8::*;
use vstd::string::StringSliceAdditionalSpecFns;

verus! {

broadcast use {vstd::utf8::group_utf8_lib, vstd::slice::group_slice_axioms};

/// `j` is the first grapheme boundary after `index` in `bytes`.
pub open spec fn is_next_boundary(bytes: Seq<u8>, index: int, j: int) -> bool {
    &&& index < j <= bytes.len()
    &&& is_char_boundary(bytes, j)
    &&& forall|k: int| index < k < j ==> !is_char_boundary(bytes, k)
}

/// `j` is the last grapheme boundary before `index` in `bytes`.
pub open spec fn is_prev_boundary(bytes: Seq<u8>, index: int, j: int) -> bool {
    &&& 0 <= j < index
    &&& is_char_boundary(bytes, j)
    &&& forall|k: int| j < k < index ==> !is_char_boundary(bytes, k)
}

/// The encoding of a non-empty text splits after the encoding of its first
/// character, and no boundary lies inside that encoding.
pub proof fn lemma_first_char_boundary(chars: Seq<char>)
    requires
        chars.len() > 0,
    ensures
        ({
            let bytes = encode_utf8(chars);
            let len = encode_scalar(chars[0] as u32).len() as int;
            &&& 0 < len <= bytes.len()
            &&& is_next_boundary(bytes, 0, len)
            &&& bytes.subrange(0, len) == encode_utf8(seq![chars[0]])
            &&& bytes.subrange(len, bytes.len() as int) == encode_utf8(chars.drop_first())
        }),
{
    let bytes = encode_utf8(chars);
    let len = encode_scalar(chars[0] as u32).len() as int;
    encode_utf8_first_scalar(chars);
    assert(encode_utf8(seq![chars[0]]) =~= encode_scalar(chars[0] as u32) + encode_utf8(
        seq![chars[0]].drop_first(),
    ));
    assert(seq![chars[0]].drop_first() =~= Seq::<char>::empty());
    assert(encode_utf8(seq![chars[0]]) =~= encode_scalar(chars[0] as u32));
    assert(bytes.subrange(0, len) =~= encode_scalar(chars[0] as u32));
    assert(bytes.subrange(len, bytes.len() as int) =~= encode_utf8(chars.drop_first()));
    assert(pop_first_scalar(bytes) =~= encode_utf8(chars.drop_first()));
    is_char_boundary_start_end_of_seq(encode_utf8(chars.drop_first()));
    assert(is_char_boundary(bytes, len));
    assert forall|k: int| 0 < k < len implies !is_char_boundary(bytes, k) by {
    }
}

/// The encoding of two texts one after the other is the encoding of the
/// first followed by that of the second.
pub proof fn lemma_encode_concat(a: Seq<char>, b: Seq<char>)
    ensures
        encode_utf8(a + b) == encode_utf8(a) + encode_utf8(b),
    decreases a.len(),
{
    if a.len() == 0 {
        assert(a + b =~= b);
        assert(encode_utf8(a) =~= Seq::<u8>::empty());
        assert(encode_utf8(a) + encode_utf8(b) =~= encode_utf8(b));
    } else {
        assert((a + b).drop_first() =~= a.drop_first() + b);
        assert((a + b)[0] == a[0]);
        lemma_encode_concat(a.drop_first(), b);
        assert(encode_utf8(a + b) =~= encode_utf8(a) + encode_utf8(b));
    }
}

/// The number of bytes that encode the first `k` characters.
pub open spec fn prefix_byte_len(chars: Seq<char>, k: int) -> nat {
    encode_utf8(chars.take(k)).len()
}

/// One more character adds the length of its encoding.
pub proof fn lemma_prefix_byte_len_step(chars: Seq<char>, k: int)
    requires
        0 <= k < chars.len(),
    ensures
        prefix_byte_len(chars, k + 1) == prefix_byte_len(chars, k) + encode_utf8(seq![chars[k]]).len(),
        prefix_byte_len(chars, k + 1) <= encode_utf8(chars).len(),
        encode_utf8(seq![chars[k]]).len() >= 1,
{
    assert(seq![chars[k]].drop_first() =~= Seq::<char>::empty());
    assert(chars.take(k + 1) =~= chars.take(k) + seq![chars[k]]);
    lemma_encode_concat(chars.take(k), seq![chars[k]]);
    assert(chars =~= chars.take(k + 1) + chars.skip(k + 1));
    lemma_encode_concat(chars.take(k + 1), chars.skip(k + 1));
}

/// Two strings with the same encoding have the same characters.
pub proof fn lemma_encode_injective(a: Seq<char>, b: Seq<char>)
    requires
        encode_utf8(a) == encode_utf8(b),
    ensures
        a == b,
{
    encode_utf8_decode_utf8(a);
    encode_utf8_decode_utf8(b);
}

/// The length of a string in bytes.
pub fn byte_len(string: &str) -> (n: usize)
    ensures
        n == string.spec_bytes().len(),
{
    string.as_bytes().len()
}

/// Grapheme-level queries on strings. A grapheme here is a single character:
/// grapheme boundaries are exactly the character boundaries.
pub trait StrExt {
    /// The UTF-8 bytes of the string.
    spec fn byte_seq(&self) -> Seq<u8>;

    fn is_grapheme_boundary(&self, index: usize) -> (b: bool)
        ensures
            b == is_char_boundary(self.byte_seq(), index as int),
    ;

    /// The first grapheme boundary after `index`, or `None` at the end.
    fn next_grapheme_boundary(&self, index: usize) -> (r: Option<usize>)
        requires
            index <= self.byte_seq().len(),
        ensures
            index == self.byte_seq().len() ==> r is None,
            index < self.byte_seq().len() ==> (r matches Some(j) && is_next_boundary(
                self.byte_seq(),
                index as int,
                j as int,
            )),
    ;

    /// The last grapheme boundary before `index`, or `None` at the start.
    fn prev_grapheme_boundary(&self, index: usize) -> (r: Option<usize>)
        ensures
            index == 0 ==> r is None,
            index > 0 ==> (r matches Some(j) && is_prev_boundary(
                self.byte_seq(),
                index as int,
                j as int,
            )),
    ;
}

impl StrExt for str {
    open spec fn byte_seq(&self) -> Seq<u8> {
        self.spec_bytes()
    }

    fn is_grapheme_boundary(&self, index: usize) -> (b: bool) {
        self.is_char_boundary(index)
    }

    fn next_grapheme_boundary(&self, index: usize) -> (r: Option<usize>) {
        let ghost bytes = self.spec_bytes();
        proof {
            is_char_boundary_start_end_of_seq(bytes);
        }
        let len = self.as_bytes().len();
        if index == len {
            return None;
        }
        let ghost start = index as int;
        let mut index = index + 1;
        while !self.is_grapheme_boundary(index)
            invariant
                bytes == self.spec_bytes(),
                valid_utf8(bytes),
                is_char_boundary(bytes, bytes.len() as int),
                start < index <= bytes.len(),
                len == bytes.len(),
                forall|k: int| start < k < index ==> !is_char_boundary(bytes, k),
            decreases bytes.len() - index,
        {
            index = index + 1;
        }
        Some(index)
    }

    fn prev_grapheme_boundary(&self, index: usize) -> (r: Option<usize>) {
        let ghost bytes = self.spec_bytes();
        proof {
            is_char_boundary_start_end_of_seq(bytes);
        }
        if index == 0 {
            return None;
        }
        let ghost end = index as int;
        let mut index = index - 1;
        while !self.is_grapheme_boundary(index)
            invariant
                bytes == self.spec_bytes(),
                is_char_boundary(bytes, 0),
                0 <= index < end,
                forall|k: int| index < k < end ==> !is_char_boundary(bytes, k),
            decreases index,
        {
            index = index - 1;
        }
        Some(index)
    }
}

/// The graphemes of a string, front to back.
#[derive(Clone, Debug)]
pub struct Graphemes<'a> {
    string: &'a str,
}

impl<'a> Graphemes<'a> {
    /// The characters that are still to come.
    pub closed spec fn rest(&self) -> Seq<char> {
        self.string@
    }

    pub fn new(string: &'a str) -> (g: Self)
        ensures
            g.rest() == string@,
    {
        Self { string }
    }

    /// The next grapheme, or `None` when all have been returned.
    pub fn next(&mut self) -> (r: Option<&'a str>)
        ensures
            old(self).rest().len() == 0 ==> r is None && final(self).rest() == old(self).rest(),
            old(self).rest().len() > 0 ==> (r matches Some(g) && g@ == seq![old(self).rest()[0]]
                && final(self).rest() == old(self).rest().drop_first()),
    {
        let ghost chars = self.string@;
        let index = match self.string.next_grapheme_boundary(0) {
            Some(index) => index,
            None => {
                return None;
            },
        };
        proof {
            lemma_first_char_boundary(chars);
        }
        let (string_0, string_1) = self.string.split_at(index);
        proof {
            lemma_encode_injective(string_0@, seq![chars[0]]);
            lemma_encode_injective(string_1@, chars.drop_first());
        }
        self.string = string_1;
        Some(string_0)
    }
}

/// The graphemes of a string together with their byte offsets.
#[derive(Clone, Debug)]
pub struct GraphemeIndices<'a> {
    graphemes: Graphemes<'a>,
    byte_offset: usize,
}

impl<'a> GraphemeIndices<'a> {
    /// The characters that are still to come.
    pub closed spec fn rest(&self) -> Seq<char> {
        self.graphemes.rest()
    }

    /// The byte offset of the next grapheme in the whole string.
    pub closed spec fn offset(&self) -> nat {
        self.byte_offset as nat
    }

    pub closed spec fn wf(&self) -> bool {
        self.byte_offset + encode_utf8(self.graphemes.rest()).len() <= usize::MAX
    }

    pub fn new(string: &'a str) -> (g: Self)
        ensures
            g.rest() == string@,
            g.offset() == 0,
            g.wf(),
    {
        let bytes = string.as_bytes();
        // The length is read for the bound it gives: it fits in a usize.
        let _len = bytes.len();
        Self { graphemes: Graphemes::new(string), byte_offset: 0 }
    }

    /// The next grapheme with its byte offset, or `None` when all have been
    /// returned.
    pub fn next(&mut self) -> (r: Option<(usize, &'a str)>)
        requires
            old(self).wf(),
        ensures
            final(self).wf(),
            old(self).rest().len() == 0 ==> r is None && final(self).rest() == old(self).rest(),
            old(self).rest().len() > 0 ==> (r matches Some((i, g)) && i == old(self).offset()
                && g@ == seq![old(self).rest()[0]] && final(self).rest() == old(self).rest().drop_first()
                && final(self).offset() == old(self).offset() + encode_utf8(g@).len()),
    {
        let ghost chars = self.graphemes.rest();
        let grapheme = match self.graphemes.next() {
            Some(grapheme) => grapheme,
            None => {
                return None;
            },
        };
        proof {
            lemma_first_char_boundary(chars);
        }
        let index = self.byte_offset;
        self.byte_offset = self.byte_offset + grapheme.len();
        Some((index, grapheme))
    }
}

pub fn graphemes<'a>(string: &'a str) -> (g: Graphemes<'a>)
    ensures
        g.rest() == string@,
{
    Graphemes::new(string)
}

pub fn grapheme_indices<'a>(string: &'a str) -> (g: GraphemeIndices<'a>)
    ensures
        g.rest() == string@,
        g.offset() == 0,
        g.wf(),
{
    GraphemeIndices::new(string)
}

} // verus!
