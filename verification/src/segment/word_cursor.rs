use vstd::prelude::*;
use vstd::utf8::*;
use vstd::string::StringSliceAdditionalSpecFns;
use crate::regex::str_cursor::lemma_boundary_shift;
use crate::segment::{char_after, is_ignored, lemma_first_width, spec_is_word_boundary, StrCursor, WordBreak, WordContext};
use crate::str_ext::{is_next_boundary, is_prev_boundary};

verus! {

/// The properties of a character that word segmentation looks at.
#[derive(Clone, Copy, Debug, PartialEq, Eq, Structural)]
pub struct CharProps {
    pub word_break: WordBreak,
    pub extended_pictographic: bool,
}

/// `props` can be called on every character and gives each character one
/// answer.
pub open spec fn deterministic<F: Fn(char) -> CharProps>(props: F) -> bool {
    &&& forall|c: char| #[trigger] props.requires((c,))
    &&& forall|c: char, r1: CharProps, r2: CharProps|
        #![trigger props.ensures((c,), r1), props.ensures((c,), r2)]
        props.ensures((c,), r1) && props.ensures((c,), r2) ==> r1 == r2
}

/// The properties `props` gives a character.
pub open spec fn prop_of<F: Fn(char) -> CharProps>(props: F, c: char) -> CharProps {
    choose|r: CharProps| props.ensures((c,), r)
}

/// Looks up the properties of a character.
fn lookup<F: Fn(char) -> CharProps>(props: &F, c: char) -> (r: CharProps)
    requires
        deterministic(*props),
    ensures
        r == prop_of(*props, c),
{
    let r = props(c);
    proof {
        let s = prop_of(*props, c);
        assert(props.ensures((c,), s));
    }
    r
}


/// The first character boundary after `p`.
pub open spec fn next_boundary(bytes: Seq<u8>, p: int) -> int {
    choose|q: int| is_next_boundary(bytes, p, q)
}

/// The last character boundary before `p`.
pub open spec fn prev_boundary(bytes: Seq<u8>, p: int) -> int {
    choose|q: int| is_prev_boundary(bytes, p, q)
}

/// The word-break property of the character at byte `p`.
pub open spec fn wb_at<F: Fn(char) -> CharProps>(bytes: Seq<u8>, props: F, p: int) -> WordBreak {
    prop_of(props, char_after(bytes, p)).word_break
}

/// The first character at or after `p` that is not a format, extend or
/// joiner character, or the end of the text.
pub open spec fn skip_next<F: Fn(char) -> CharProps>(bytes: Seq<u8>, props: F, p: int) -> int
    decreases bytes.len() - p,
{
    if p < 0 || p >= bytes.len() {
        bytes.len() as int
    } else if !is_ignored(wb_at(bytes, props, p)) {
        p
    } else {
        let q = next_boundary(bytes, p);
        if p < q <= bytes.len() {
            skip_next(bytes, props, q)
        } else {
            bytes.len() as int
        }
    }
}

/// The last character before `p` that is not a format, extend or joiner
/// character, or -1 when there is none.
pub open spec fn skip_prev<F: Fn(char) -> CharProps>(bytes: Seq<u8>, props: F, p: int) -> int
    decreases p,
{
    if p <= 0 {
        -1
    } else {
        let q = prev_boundary(bytes, p);
        if 0 <= q < p {
            if !is_ignored(wb_at(bytes, props, q)) {
                q
            } else {
                skip_prev(bytes, props, q)
            }
        } else {
            -1
        }
    }
}

/// The number of regional indicators right before `p`, format, extend and
/// joiner characters left out.
pub open spec fn ri_count<F: Fn(char) -> CharProps>(bytes: Seq<u8>, props: F, p: int) -> nat
    decreases p,
{
    if p <= 0 {
        0
    } else {
        let q = prev_boundary(bytes, p);
        if 0 <= q < p {
            let w = wb_at(bytes, props, q);
            if is_ignored(w) {
                ri_count(bytes, props, q)
            } else if w == WordBreak::RegionalIndicator {
                1 + ri_count(bytes, props, q)
            } else {
                0
            }
        } else {
            0
        }
    }
}

proof fn lemma_next_boundary(bytes: Seq<u8>, p: int, q: int)
    requires
        is_next_boundary(bytes, p, q),
    ensures
        next_boundary(bytes, p) == q,
{
    let r = next_boundary(bytes, p);
    assert(is_next_boundary(bytes, p, r));
}

proof fn lemma_prev_boundary(bytes: Seq<u8>, p: int, q: int)
    requires
        is_prev_boundary(bytes, p, q),
    ensures
        prev_boundary(bytes, p) == q,
{
    let r = prev_boundary(bytes, p);
    assert(is_prev_boundary(bytes, p, r));
}

/// Every boundary before the end has a next boundary.
proof fn lemma_next_boundary_exists(bytes: Seq<u8>, p: int)
    requires
        valid_utf8(bytes),
        is_char_boundary(bytes, p),
        0 <= p < bytes.len(),
    ensures
        is_next_boundary(bytes, p, next_boundary(bytes, p)),
{
    let suffix = bytes.subrange(p, bytes.len() as int);
    valid_utf8_split(bytes, p);
    lemma_first_width(suffix);
    let width = if suffix[0] < 0x80 {
        1int
    } else if suffix[0] < 0xE0 {
        2int
    } else if suffix[0] < 0xF0 {
        3int
    } else {
        4int
    };
    assert forall|k: int| 0 <= k <= suffix.len() implies is_char_boundary(suffix, k) == is_char_boundary(
        bytes,
        p + k,
    ) by {
        lemma_boundary_shift(bytes, p, k);
    }
    assert forall|k: int| p < k < p + width implies !is_char_boundary(bytes, k) by {
        assert(!is_char_boundary(suffix, k - p));
    }
    assert(is_next_boundary(bytes, p, p + width));
    lemma_next_boundary(bytes, p, p + width);
}

/// Every position after the start has a previous boundary.
proof fn lemma_prev_boundary_exists(bytes: Seq<u8>, p: int)
    requires
        valid_utf8(bytes),
        0 < p <= bytes.len(),
    ensures
        is_prev_boundary(bytes, p, prev_boundary(bytes, p)),
    decreases p,
{
    is_char_boundary_start_end_of_seq(bytes);
    if is_char_boundary(bytes, p - 1) {
        lemma_prev_boundary(bytes, p, p - 1);
    } else {
        lemma_prev_boundary_exists(bytes, p - 1);
        let q = prev_boundary(bytes, p - 1);
        assert(is_prev_boundary(bytes, p, q));
        lemma_prev_boundary(bytes, p, q);
    }
}

/// The boundary before the boundary after `o` is `o`, and the other way round.
proof fn lemma_next_prev(bytes: Seq<u8>, o: int, q: int)
    requires
        is_char_boundary(bytes, o),
        is_char_boundary(bytes, q),
        o < q,
        forall|k: int| o < k < q ==> !is_char_boundary(bytes, k),
        q <= bytes.len(),
        0 <= o,
    ensures
        next_boundary(bytes, o) == q,
        prev_boundary(bytes, q) == o,
{
    assert(is_next_boundary(bytes, o, q));
    assert(is_prev_boundary(bytes, q, o));
    lemma_next_boundary(bytes, o, q);
    lemma_prev_boundary(bytes, q, o);
}

/// What `skip_next` finds: the first boundary from `x` on that is the end or
/// holds a character that is not ignored.
proof fn lemma_skip_next<F: Fn(char) -> CharProps>(bytes: Seq<u8>, props: F, x: int)
    requires
        valid_utf8(bytes),
        is_char_boundary(bytes, x),
        0 <= x <= bytes.len(),
    ensures
        x <= skip_next(bytes, props, x) <= bytes.len(),
        is_char_boundary(bytes, skip_next(bytes, props, x)),
        skip_next(bytes, props, x) < bytes.len() ==> !is_ignored(
            wb_at(bytes, props, skip_next(bytes, props, x)),
        ),
        forall|k: int|
            x <= k < skip_next(bytes, props, x) && is_char_boundary(bytes, k) ==> is_ignored(
                #[trigger] wb_at(bytes, props, k),
            ),
    decreases bytes.len() - x,
{
    is_char_boundary_start_end_of_seq(bytes);
    if x < bytes.len() && is_ignored(wb_at(bytes, props, x)) {
        lemma_next_boundary_exists(bytes, x);
        let q = next_boundary(bytes, x);
        lemma_skip_next(bytes, props, q);
    }
}

/// `skip_next` from `x` is the boundary `s` when `s` is the end or holds a
/// character that is not ignored, and all characters from `x` to `s` are.
proof fn lemma_skip_next_is<F: Fn(char) -> CharProps>(bytes: Seq<u8>, props: F, x: int, s: int)
    requires
        valid_utf8(bytes),
        is_char_boundary(bytes, x),
        is_char_boundary(bytes, s),
        0 <= x <= s <= bytes.len(),
        s < bytes.len() ==> !is_ignored(wb_at(bytes, props, s)),
        forall|k: int| x <= k < s && is_char_boundary(bytes, k) ==> is_ignored(#[trigger] wb_at(bytes, props, k)),
    ensures
        skip_next(bytes, props, x) == s,
{
    lemma_skip_next(bytes, props, x);
    let t = skip_next(bytes, props, x);
    if t < s {
        assert(is_ignored(wb_at(bytes, props, t)));
    }
    if s < t {
        assert(is_ignored(wb_at(bytes, props, s)));
    }
}

/// What `skip_prev` finds: the last boundary before `p` that holds a
/// character that is not ignored, all characters after it being ignored.
proof fn lemma_skip_prev<F: Fn(char) -> CharProps>(bytes: Seq<u8>, props: F, p: int)
    requires
        valid_utf8(bytes),
        0 <= p <= bytes.len(),
    ensures
        -1 <= skip_prev(bytes, props, p) < p || (p == 0 && skip_prev(bytes, props, p) == -1),
        skip_prev(bytes, props, p) >= 0 ==> is_char_boundary(bytes, skip_prev(bytes, props, p)) && !is_ignored(
            wb_at(bytes, props, skip_prev(bytes, props, p)),
        ),
        forall|k: int|
            skip_prev(bytes, props, p) < k < p && 0 <= k && is_char_boundary(bytes, k) ==> is_ignored(
                #[trigger] wb_at(bytes, props, k),
            ),
    decreases p,
{
    if p > 0 {
        lemma_prev_boundary_exists(bytes, p);
        let q = prev_boundary(bytes, p);
        if is_ignored(wb_at(bytes, props, q)) {
            lemma_skip_prev(bytes, props, q);
        }
    }
}

/// `skip_prev` before `p` is `s` when `s` holds a character that is not
/// ignored, or is -1, and all characters between are ignored.
proof fn lemma_skip_prev_is<F: Fn(char) -> CharProps>(bytes: Seq<u8>, props: F, p: int, s: int)
    requires
        valid_utf8(bytes),
        0 <= p <= bytes.len(),
        -1 <= s < p,
        s >= 0 ==> is_char_boundary(bytes, s) && !is_ignored(wb_at(bytes, props, s)),
        forall|k: int| s < k < p && 0 <= k && is_char_boundary(bytes, k) ==> is_ignored(#[trigger] wb_at(bytes, props, k)),
    ensures
        skip_prev(bytes, props, p) == s,
{
    lemma_skip_prev(bytes, props, p);
    let t = skip_prev(bytes, props, p);
    if t < s {
        assert(is_ignored(wb_at(bytes, props, s)));
    }
    if s < t {
        assert(is_ignored(wb_at(bytes, props, t)));
    }
}

/// The regional indicators before `p` are those before the last character
/// that is not ignored, and that character, while they are regional
/// indicators.
proof fn lemma_ri_count<F: Fn(char) -> CharProps>(bytes: Seq<u8>, props: F, p: int)
    requires
        valid_utf8(bytes),
        0 <= p <= bytes.len(),
    ensures
        ri_count(bytes, props, p) == ({
            let s = skip_prev(bytes, props, p);
            if s < 0 {
                0
            } else if wb_at(bytes, props, s) == WordBreak::RegionalIndicator {
                1 + ri_count(bytes, props, s)
            } else {
                0nat
            }
        }),
    decreases p,
{
    if p > 0 {
        lemma_prev_boundary_exists(bytes, p);
        let q = prev_boundary(bytes, p);
        if is_ignored(wb_at(bytes, props, q)) {
            lemma_ri_count(bytes, props, q);
        }
    }
}


/// Whether a character is left out when words are looked for: a format,
/// extend or joiner character.
fn is_ignored_word_break(word_break: WordBreak) -> (b: bool)
    ensures
        b == is_ignored(word_break),
{
    match word_break {
        WordBreak::Format | WordBreak::Extend | WordBreak::ZWJ => true,
        _ => false,
    }
}

/// Moves forward over format, extend and joiner characters, and gives the
/// property of the character it stops at, `None` at the end.
fn move_next_word_break_skip<F: Fn(char) -> CharProps>(cursor: &mut StrCursor, props: &F) -> (r: Option<
    WordBreak,
>)
    requires
        deterministic(*props),
        old(cursor).wf(),
        is_char_boundary(old(cursor).text(), old(cursor).position() as int),
    ensures
        final(cursor).text() == old(cursor).text(),
        final(cursor).chars() == old(cursor).chars(),
        final(cursor).position() == skip_next(old(cursor).text(), *props, old(cursor).position() as int),
        r == (if final(cursor).position() < final(cursor).text().len() {
            Some(wb_at(final(cursor).text(), *props, final(cursor).position() as int))
        } else {
            None
        }),
{
    let ghost bytes = cursor.text();
    let ghost start = cursor.position() as int;
    proof {
        cursor.lemma_text();
    }
    loop
        invariant
            deterministic(*props),
            cursor.text() == bytes,
            cursor.chars() == old(cursor).chars(),
            valid_utf8(bytes),
            cursor.wf(),
            is_char_boundary(bytes, cursor.position() as int),
            skip_next(bytes, *props, cursor.position() as int) == skip_next(bytes, *props, start),
            bytes == old(cursor).text(),
            start == old(cursor).position(),
        decreases bytes.len() - cursor.position(),
    {
        let ghost pos = cursor.position() as int;
        match cursor.current_char() {
            Some(ch) => {
                let properties = lookup(props, ch);
                if !is_ignored_word_break(properties.word_break) {
                    assert(skip_next(bytes, *props, pos) == pos);
                    return Some(properties.word_break);
                }
            },
            None => {
                assert(skip_next(bytes, *props, pos) == bytes.len());
                return None;
            },
        }
        cursor.move_next_char();
        proof {
            lemma_next_boundary(bytes, pos, cursor.position() as int);
        }
    }
}

/// Moves back to the last character before the cursor that is not a format,
/// extend or joiner character and gives its property, or to the start and
/// gives `None` when there is none.
fn move_prev_word_break_skip<F: Fn(char) -> CharProps>(cursor: &mut StrCursor, props: &F) -> (r: Option<
    WordBreak,
>)
    requires
        deterministic(*props),
        old(cursor).wf(),
    ensures
        final(cursor).text() == old(cursor).text(),
        final(cursor).chars() == old(cursor).chars(),
        ({
            let s = skip_prev(old(cursor).text(), *props, old(cursor).position() as int);
            &&& s < 0 ==> r is None && final(cursor).position() == 0
            &&& s >= 0 ==> r == Some(wb_at(old(cursor).text(), *props, s)) && final(cursor).position() == s
        }),
{
    let ghost bytes = cursor.text();
    let ghost start = cursor.position() as int;
    proof {
        cursor.lemma_text();
    }
    loop
        invariant
            deterministic(*props),
            cursor.text() == bytes,
            cursor.chars() == old(cursor).chars(),
            valid_utf8(bytes),
            is_char_boundary(bytes, 0),
            cursor.wf(),
            skip_prev(bytes, *props, cursor.position() as int) == skip_prev(bytes, *props, start),
            bytes == old(cursor).text(),
            start == old(cursor).position(),
        decreases cursor.position(),
    {
        let ghost pos = cursor.position() as int;
        if cursor.is_at_start() {
            assert(skip_prev(bytes, *props, pos) == -1);
            return None;
        }
        cursor.move_prev_char();
        proof {
            lemma_prev_boundary(bytes, pos, cursor.position() as int);
        }
        let ch = cursor.current_char().unwrap();
        let properties = lookup(props, ch);
        if !is_ignored_word_break(properties.word_break) {
            assert(skip_prev(bytes, *props, pos) == cursor.position());
            return Some(properties.word_break);
        }
    }
}

/// The number of regional indicators right before the cursor, format,
/// extend and joiner characters left out; the cursor ends where it started.
fn regional_indicator_count<F: Fn(char) -> CharProps>(cursor: &mut StrCursor, props: &F) -> (count: usize)
    requires
        deterministic(*props),
        old(cursor).wf(),
    ensures
        final(cursor).text() == old(cursor).text(),
        final(cursor).chars() == old(cursor).chars(),
        final(cursor).position() == old(cursor).position(),
        count == ri_count(old(cursor).text(), *props, old(cursor).position() as int),
{
    let ghost bytes = cursor.text();
    let ghost start = cursor.position() as int;
    proof {
        cursor.lemma_text();
    }
    let mut count: usize = 0;
    let byte_position = cursor.byte_position();
    loop
        invariant_except_break
            count + ri_count(bytes, *props, cursor.position() as int) == ri_count(bytes, *props, start),
        invariant
            deterministic(*props),
            cursor.text() == bytes,
            cursor.chars() == old(cursor).chars(),
            valid_utf8(bytes),
            cursor.wf(),
            count + cursor.position() <= start,
            byte_position == start,
        ensures
            count == ri_count(bytes, *props, start),
        decreases cursor.position(),
    {
        let ghost pos = cursor.position() as int;
        proof {
            lemma_ri_count(bytes, *props, pos);
            lemma_skip_prev(bytes, *props, pos);
        }
        match move_prev_word_break_skip(cursor, props) {
            Some(WordBreak::RegionalIndicator) => {},
            _ => break,
        }
        count = count + 1;
    }
    cursor.move_to(byte_position);
    count
}


/// The property of the character at `s`, when `s` is a position of one.
pub open spec fn skip_wb<F: Fn(char) -> CharProps>(bytes: Seq<u8>, props: F, s: int) -> Option<WordBreak> {
    if 0 <= s < bytes.len() {
        Some(wb_at(bytes, props, s))
    } else {
        None
    }
}

/// The property of the last character before `p` that is not ignored.
pub open spec fn ps_at<F: Fn(char) -> CharProps>(bytes: Seq<u8>, props: F, p: int) -> Option<WordBreak> {
    skip_wb(bytes, props, skip_prev(bytes, props, p))
}

/// The property of the last character that is not ignored before that one.
pub open spec fn pp_at<F: Fn(char) -> CharProps>(bytes: Seq<u8>, props: F, p: int) -> Option<WordBreak> {
    let s = skip_prev(bytes, props, p);
    if s >= 0 {
        skip_wb(bytes, props, skip_prev(bytes, props, s))
    } else {
        None
    }
}

/// The property of the first character at or after `p` that is not ignored.
pub open spec fn ns_at<F: Fn(char) -> CharProps>(bytes: Seq<u8>, props: F, p: int) -> Option<WordBreak> {
    skip_wb(bytes, props, skip_next(bytes, props, p))
}

/// The property of the first character that is not ignored after that one.
pub open spec fn nns_at<F: Fn(char) -> CharProps>(bytes: Seq<u8>, props: F, p: int) -> Option<WordBreak> {
    let s = skip_next(bytes, props, p);
    if s < bytes.len() {
        skip_wb(bytes, props, skip_next(bytes, props, next_boundary(bytes, s)))
    } else {
        None
    }
}

/// Where the cursor behind a word cursor at `p` stands: at the second
/// character before `p` that is not ignored, else at the start.
pub open spec fn front_at<F: Fn(char) -> CharProps>(bytes: Seq<u8>, props: F, p: int) -> int {
    let s = skip_prev(bytes, props, p);
    if s >= 0 && skip_prev(bytes, props, s) >= 0 {
        skip_prev(bytes, props, s)
    } else {
        0
    }
}

/// Where the cursor ahead of a word cursor at `p` stands: at the second
/// character from `p` on that is not ignored, else at the end.
pub open spec fn back_at<F: Fn(char) -> CharProps>(bytes: Seq<u8>, props: F, p: int) -> int {
    let s = skip_next(bytes, props, p);
    if s < bytes.len() {
        skip_next(bytes, props, next_boundary(bytes, s))
    } else {
        bytes.len() as int
    }
}

/// What the word-boundary rules look at for position `p` of the text.
pub open spec fn context_at<F: Fn(char) -> CharProps>(bytes: Seq<u8>, props: F, p: int) -> WordContext {
    WordContext {
        is_at_start: p == 0,
        is_at_end: p == bytes.len(),
        prev_word_break: if p == 0 {
            None
        } else {
            Some(wb_at(bytes, props, prev_boundary(bytes, p)))
        },
        next_word_break: if p == bytes.len() {
            None
        } else {
            Some(wb_at(bytes, props, p))
        },
        next_extended_pictographic: if p == bytes.len() {
            false
        } else {
            prop_of(props, char_after(bytes, p)).extended_pictographic
        },
        prev_prev_word_break_skip: pp_at(bytes, props, p),
        prev_word_break_skip: ps_at(bytes, props, p),
        next_word_break_skip: ns_at(bytes, props, p),
        next_next_word_break_skip: nns_at(bytes, props, p),
        regional_indicator_count: ri_count(bytes, props, p) as usize,
    }
}

/// Position `p` of the text is a word boundary.
pub open spec fn is_word_boundary_at<F: Fn(char) -> CharProps>(bytes: Seq<u8>, props: F, p: int) -> bool {
    spec_is_word_boundary(context_at(bytes, props, p))
}

/// There are no more regional indicators before `p` than bytes.
proof fn lemma_ri_count_bound<F: Fn(char) -> CharProps>(bytes: Seq<u8>, props: F, p: int)
    requires
        valid_utf8(bytes),
        0 <= p <= bytes.len(),
    ensures
        ri_count(bytes, props, p) <= p,
    decreases p,
{
    if p > 0 {
        lemma_prev_boundary_exists(bytes, p);
        lemma_ri_count_bound(bytes, props, prev_boundary(bytes, p));
    }
}

/// How the skipped characters, the count of regional indicators and the
/// cursors around change when a word cursor moves over the character at `o`
/// to the next boundary `p`.
proof fn lemma_step_forward<F: Fn(char) -> CharProps>(bytes: Seq<u8>, props: F, o: int, p: int)
    requires
        valid_utf8(bytes),
        is_char_boundary(bytes, o),
        0 <= o < bytes.len(),
        is_next_boundary(bytes, o, p),
    ensures
        prev_boundary(bytes, p) == o,
        next_boundary(bytes, o) == p,
        is_ignored(wb_at(bytes, props, o)) ==> {
            &&& skip_prev(bytes, props, p) == skip_prev(bytes, props, o)
            &&& skip_next(bytes, props, o) == skip_next(bytes, props, p)
            &&& ri_count(bytes, props, p) == ri_count(bytes, props, o)
        },
        !is_ignored(wb_at(bytes, props, o)) ==> {
            &&& skip_prev(bytes, props, p) == o
            &&& skip_next(bytes, props, o) == o
            &&& ri_count(bytes, props, p) == if wb_at(bytes, props, o) == WordBreak::RegionalIndicator {
                ri_count(bytes, props, o) + 1
            } else {
                0
            }
        },
{
    lemma_next_prev(bytes, o, p);
    lemma_ri_count(bytes, props, p);
    lemma_ri_count(bytes, props, o);
}

/// Moving the cursor behind a word cursor forward over the character after
/// the last character that is not ignored, then over ignored characters,
/// brings it to that character.
proof fn lemma_front_forward<F: Fn(char) -> CharProps>(bytes: Seq<u8>, props: F, s0: int)
    requires
        valid_utf8(bytes),
        0 <= s0 < bytes.len(),
        is_char_boundary(bytes, s0),
        !is_ignored(wb_at(bytes, props, s0)),
    ensures
        skip_prev(bytes, props, s0) >= 0 ==> {
            let t0 = skip_prev(bytes, props, s0);
            &&& is_char_boundary(bytes, t0)
            &&& t0 < s0
            &&& is_next_boundary(bytes, t0, next_boundary(bytes, t0))
            &&& skip_next(bytes, props, next_boundary(bytes, t0)) == s0
        },
        skip_prev(bytes, props, s0) < 0 ==> skip_next(bytes, props, 0) == s0,
{
    is_char_boundary_start_end_of_seq(bytes);
    lemma_skip_prev(bytes, props, s0);
    let t0 = skip_prev(bytes, props, s0);
    if t0 >= 0 {
        lemma_next_boundary_exists(bytes, t0);
        let u = next_boundary(bytes, t0);
        assert(u <= s0);
        lemma_skip_next_is(bytes, props, u, s0);
    } else {
        lemma_skip_next_is(bytes, props, 0, s0);
    }
}

/// Moves forward over a word boundary's worth of text: a cursor over the
/// characters of a text with a view of the characters around it, as the
/// word-boundary rules look at them.
#[derive(Clone, Copy, Debug)]
pub struct WordCursor<'a> {
    cursor: StrCursor<'a>,
    front_cursor: StrCursor<'a>,
    back_cursor: StrCursor<'a>,
    prev_word_break: Option<WordBreak>,
    prev_extended_pictographic: bool,
    next_word_break: Option<WordBreak>,
    next_extended_pictographic: bool,
    prev_prev_word_break_skip: Option<WordBreak>,
    prev_word_break_skip: Option<WordBreak>,
    next_word_break_skip: Option<WordBreak>,
    next_next_word_break_skip: Option<WordBreak>,
    regional_indicator_count: usize,
}

impl<'a> WordCursor<'a> {
    /// The bytes of the text.
    pub closed spec fn text(&self) -> Seq<u8> {
        self.cursor.text()
    }

    pub closed spec fn position(&self) -> nat {
        self.cursor.position()
    }

    /// What the cursor knows of the text around it.
    pub closed spec fn context(&self) -> WordContext {
        WordContext {
            is_at_start: self.cursor.position() == 0,
            is_at_end: self.cursor.position() == self.cursor.text().len(),
            prev_word_break: self.prev_word_break,
            next_word_break: self.next_word_break,
            next_extended_pictographic: self.next_extended_pictographic,
            prev_prev_word_break_skip: self.prev_prev_word_break_skip,
            prev_word_break_skip: self.prev_word_break_skip,
            next_word_break_skip: self.next_word_break_skip,
            next_next_word_break_skip: self.next_next_word_break_skip,
            regional_indicator_count: self.regional_indicator_count,
        }
    }

    /// The cursor stands on a character boundary of its text and knows the
    /// text around it as `props` describes the characters.
    pub closed spec fn wf<F: Fn(char) -> CharProps>(&self, props: F) -> bool {
        let bytes = self.cursor.text();
        let p = self.cursor.position() as int;
        &&& deterministic(props)
        &&& self.cursor.wf()
        &&& is_char_boundary(bytes, p)
        &&& self.front_cursor.text() == bytes
        &&& self.front_cursor.chars() == self.cursor.chars()
        &&& self.back_cursor.text() == bytes
        &&& self.back_cursor.chars() == self.cursor.chars()
        &&& self.front_cursor.position() == front_at(bytes, props, p)
        &&& self.back_cursor.position() == back_at(bytes, props, p)
        &&& self.context() == context_at(bytes, props, p)
        &&& self.prev_extended_pictographic == if p == 0 {
            false
        } else {
            prop_of(props, char_after(bytes, prev_boundary(bytes, p))).extended_pictographic
        }
    }

    /// Fills in what the cursor knows of the text around it, the two other
    /// cursors standing where it stands.
    #[verifier::rlimit(40)]
    fn update_cached_values<F: Fn(char) -> CharProps>(&mut self, props: &F)
        requires
            deterministic(*props),
            old(self).cursor.wf(),
            is_char_boundary(old(self).cursor.text(), old(self).cursor.position() as int),
            old(self).front_cursor.text() == old(self).cursor.text(),
            old(self).front_cursor.chars() == old(self).cursor.chars(),
            old(self).back_cursor.text() == old(self).cursor.text(),
            old(self).back_cursor.chars() == old(self).cursor.chars(),
            old(self).front_cursor.position() == old(self).cursor.position(),
            old(self).back_cursor.position() == old(self).cursor.position(),
        ensures
            final(self).wf(*props),
            final(self).text() == old(self).cursor.text(),
            final(self).position() == old(self).cursor.position(),
            final(self).cursor.chars() == old(self).cursor.chars(),
    {
        let ghost bytes = self.cursor.text();
        let ghost p = self.cursor.position() as int;
        proof {
            self.cursor.lemma_text();
            lemma_ri_count_bound(bytes, *props, p);
        }
        if self.cursor.is_at_start() {
            self.prev_word_break = None;
            self.prev_extended_pictographic = false;
        } else {
            self.cursor.move_prev_char();
            let ghost q = self.cursor.position() as int;
            let ch = self.cursor.current_char().unwrap();
            let properties = lookup(props, ch);
            self.prev_word_break = Some(properties.word_break);
            self.prev_extended_pictographic = properties.extended_pictographic;
            self.cursor.move_next_char();
            proof {
                lemma_next_prev(bytes, q, p);
                lemma_next_boundary(bytes, q, self.cursor.position() as int);
            }
        }
        match self.cursor.current_char() {
            Some(ch) => {
                let properties = lookup(props, ch);
                self.next_word_break = Some(properties.word_break);
                self.next_extended_pictographic = properties.extended_pictographic;
            },
            None => {
                self.next_word_break = None;
                self.next_extended_pictographic = false;
            },
        }
        proof {
            lemma_skip_prev(bytes, *props, p);
            lemma_skip_next(bytes, *props, p);
            if skip_prev(bytes, *props, p) >= 0 {
                lemma_skip_prev(bytes, *props, skip_prev(bytes, *props, p));
            }
        }
        self.prev_word_break_skip = move_prev_word_break_skip(&mut self.front_cursor, props);
        self.prev_prev_word_break_skip = move_prev_word_break_skip(&mut self.front_cursor, props);
        self.next_word_break_skip = move_next_word_break_skip(&mut self.back_cursor, props);
        self.next_next_word_break_skip = if self.back_cursor.is_at_end() {
            None
        } else {
            let ghost s = self.back_cursor.position() as int;
            self.back_cursor.move_next_char();
            proof {
                lemma_next_boundary(bytes, s, self.back_cursor.position() as int);
            }
            move_next_word_break_skip(&mut self.back_cursor, props)
        };
        self.regional_indicator_count = regional_indicator_count(&mut self.cursor, props);
        proof {
            assert(self.cursor.text() == bytes);
            assert(self.cursor.position() == p);
            assert(self.front_cursor.position() == front_at(bytes, *props, p));
            assert(self.back_cursor.position() == back_at(bytes, *props, p));
            assert(self.prev_word_break == context_at(bytes, *props, p).prev_word_break);
            assert(self.next_word_break == context_at(bytes, *props, p).next_word_break);
            assert(self.next_extended_pictographic == context_at(bytes, *props, p).next_extended_pictographic);
            assert(self.prev_word_break_skip == ps_at(bytes, *props, p));
            assert(self.prev_prev_word_break_skip == pp_at(bytes, *props, p));
            assert(self.next_word_break_skip == ns_at(bytes, *props, p));
            assert(self.next_next_word_break_skip == nns_at(bytes, *props, p));
            assert(self.regional_indicator_count == ri_count(bytes, *props, p));
            assert(self.context() == context_at(bytes, *props, p));
        }
    }
}


impl<'a> WordCursor<'a> {
    /// The cursor's view of the text around it is complete enough for the
    /// word-boundary rules.
    pub open spec fn is_ready(&self) -> bool {
        self.context().is_at_start || self.context().is_at_end || (self.context().prev_word_break is Some
            && self.context().next_word_break is Some)
    }

    /// A well-formed cursor sees the text around it as it is.
    pub proof fn lemma_context<F: Fn(char) -> CharProps>(&self, props: F)
        requires
            self.wf(props),
        ensures
            self.is_ready(),
            self.context() == context_at(self.text(), props, self.position() as int),
            self.position() <= self.text().len(),
            is_char_boundary(self.text(), self.position() as int),
    {
    }

    /// A word cursor at the position of `cursor`.
    pub fn new<F: Fn(char) -> CharProps>(cursor: StrCursor<'a>, props: &F) -> (c: Self)
        requires
            deterministic(*props),
            cursor.wf(),
            is_char_boundary(cursor.text(), cursor.position() as int),
        ensures
            c.wf(*props),
            c.text() == cursor.text(),
            c.position() == cursor.position(),
    {
        let mut c = Self {
            cursor,
            front_cursor: cursor,
            back_cursor: cursor,
            prev_word_break: None,
            prev_extended_pictographic: false,
            next_word_break: None,
            next_extended_pictographic: false,
            prev_prev_word_break_skip: None,
            prev_word_break_skip: None,
            next_word_break_skip: None,
            next_next_word_break_skip: None,
            regional_indicator_count: 0,
        };
        c.update_cached_values(props);
        c
    }

    pub fn is_at_start(&self) -> (b: bool)
        ensures
            b == (self.position() == 0),
    {
        self.cursor.is_at_start()
    }

    pub fn is_at_end(&self) -> (b: bool)
        ensures
            b == (self.position() == self.text().len()),
    {
        self.cursor.is_at_end()
    }

    pub fn byte_position(&self) -> (p: usize)
        ensures
            p == self.position(),
    {
        self.cursor.byte_position()
    }

    /// Whether the cursor stands at a word boundary.
    pub fn is_at_word_boundary(&self) -> (b: bool)
        requires
            self.is_ready(),
        ensures
            b == spec_is_word_boundary(self.context()),
    {
        let context = WordContext {
            is_at_start: self.cursor.is_at_start(),
            is_at_end: self.cursor.is_at_end(),
            prev_word_break: self.prev_word_break,
            next_word_break: self.next_word_break,
            next_extended_pictographic: self.next_extended_pictographic,
            prev_prev_word_break_skip: self.prev_prev_word_break_skip,
            prev_word_break_skip: self.prev_word_break_skip,
            next_word_break_skip: self.next_word_break_skip,
            next_next_word_break_skip: self.next_next_word_break_skip,
            regional_indicator_count: self.regional_indicator_count,
        };
        context.is_at_word_boundary()
    }

    /// Moves to `byte_position`, a character boundary of the text.
    pub fn move_to<F: Fn(char) -> CharProps>(&mut self, byte_position: usize, props: &F)
        requires
            old(self).wf(*props),
            byte_position <= old(self).text().len(),
            is_char_boundary(old(self).text(), byte_position as int),
        ensures
            final(self).wf(*props),
            final(self).text() == old(self).text(),
            final(self).position() == byte_position,
    {
        self.cursor.move_to(byte_position);
        self.front_cursor.move_to(byte_position);
        self.back_cursor.move_to(byte_position);
        self.update_cached_values(props)
    }
}


impl<'a> WordCursor<'a> {
    /// Moves over the character after the cursor and updates what the cursor
    /// knows of the text around it.
    #[verifier::rlimit(60)]
    fn step_forward<F: Fn(char) -> CharProps>(&mut self, props: &F)
        requires
            old(self).wf(*props),
            old(self).position() < old(self).text().len(),
        ensures
            final(self).wf(*props),
            final(self).text() == old(self).text(),
            is_next_boundary(old(self).text(), old(self).position() as int, final(self).position() as int),
    {
        let ghost bytes = self.cursor.text();
        let ghost o = self.cursor.position() as int;
        proof {
            self.cursor.lemma_text();
            lemma_skip_prev(bytes, *props, o);
            lemma_skip_next(bytes, *props, o);
            lemma_ri_count_bound(bytes, *props, o);
        }
        self.cursor.move_next_char();
        let ghost p = self.cursor.position() as int;
        proof {
            lemma_step_forward(bytes, *props, o, p);
            lemma_ri_count_bound(bytes, *props, p);
            lemma_skip_prev(bytes, *props, p);
            lemma_skip_next(bytes, *props, p);
        }
        self.prev_word_break = self.next_word_break;
        self.prev_extended_pictographic = self.next_extended_pictographic;
        match self.cursor.current_char() {
            Some(ch) => {
                let properties = lookup(props, ch);
                self.next_word_break = Some(properties.word_break);
                self.next_extended_pictographic = properties.extended_pictographic;
            },
            None => {
                self.next_word_break = None;
                self.next_extended_pictographic = false;
            },
        }
        match self.prev_word_break.unwrap() {
            WordBreak::Extend | WordBreak::Format | WordBreak::ZWJ => {},
            _ => {
                proof {
                    lemma_front_forward(bytes, *props, o);
                    if skip_prev(bytes, *props, o) >= 0 {
                        lemma_front_forward(bytes, *props, skip_prev(bytes, *props, o));
                        lemma_skip_prev(bytes, *props, skip_prev(bytes, *props, o));
                    }
                }
                if self.prev_word_break_skip.is_some() {
                    if self.prev_prev_word_break_skip.is_some() {
                        let ghost t0 = self.front_cursor.position() as int;
                        self.front_cursor.move_next_char();
                        proof {
                            lemma_next_boundary(bytes, t0, self.front_cursor.position() as int);
                        }
                    }
                    self.prev_prev_word_break_skip = move_next_word_break_skip(&mut self.front_cursor, props);
                }
                self.prev_word_break_skip = self.prev_word_break;
                self.next_word_break_skip = self.next_next_word_break_skip;
                self.next_next_word_break_skip = if self.back_cursor.is_at_end() {
                    None
                } else {
                    let ghost b0 = self.back_cursor.position() as int;
                    self.back_cursor.move_next_char();
                    proof {
                        lemma_next_boundary(bytes, b0, self.back_cursor.position() as int);
                    }
                    move_next_word_break_skip(&mut self.back_cursor, props)
                };
                self.regional_indicator_count = match self.prev_word_break {
                    Some(WordBreak::RegionalIndicator) => self.regional_indicator_count + 1,
                    _ => 0,
                };
            },
        }
        proof {
            assert(self.context() == context_at(bytes, *props, p));
        }
    }

    /// Moves forward to the next word boundary.
    pub fn move_next_word<F: Fn(char) -> CharProps>(&mut self, props: &F)
        requires
            old(self).wf(*props),
            old(self).position() < old(self).text().len(),
        ensures
            final(self).wf(*props),
            final(self).text() == old(self).text(),
            old(self).position() < final(self).position(),
            is_word_boundary_at(final(self).text(), *props, final(self).position() as int),
            forall|k: int|
                old(self).position() < k < final(self).position() && is_char_boundary(old(self).text(), k)
                    ==> !is_word_boundary_at(old(self).text(), *props, k),
    {
        let ghost bytes = self.cursor.text();
        let ghost start = self.cursor.position() as int;
        loop
            invariant_except_break
                self.cursor.position() < bytes.len(),
                forall|k: int|
                    start < k <= self.cursor.position() && is_char_boundary(bytes, k) ==> !is_word_boundary_at(
                        bytes,
                        *props,
                        k,
                    ),
            invariant
                self.wf(*props),
                self.text() == bytes,
                bytes == old(self).text(),
                start == old(self).position(),
                start <= self.cursor.position(),
            ensures
                self.wf(*props),
                self.text() == bytes,
                start < self.cursor.position(),
                is_word_boundary_at(bytes, *props, self.cursor.position() as int),
                forall|k: int|
                    start < k < self.cursor.position() && is_char_boundary(bytes, k) ==> !is_word_boundary_at(
                        bytes,
                        *props,
                        k,
                    ),
            decreases bytes.len() - self.cursor.position(),
        {
            let ghost o = self.cursor.position() as int;
            self.step_forward(props);
            proof {
                self.lemma_context(*props);
            }
            if self.is_at_word_boundary() {
                break;
            }
        }
    }
}


/// Moving the cursor ahead of a word cursor back over ignored characters
/// brings it to the first character at or after the word cursor that is not
/// ignored.
proof fn lemma_back_backward<F: Fn(char) -> CharProps>(bytes: Seq<u8>, props: F, s: int)
    requires
        valid_utf8(bytes),
        0 <= s < bytes.len(),
        is_char_boundary(bytes, s),
        !is_ignored(wb_at(bytes, props, s)),
    ensures
        is_next_boundary(bytes, s, next_boundary(bytes, s)),
        skip_prev(bytes, props, skip_next(bytes, props, next_boundary(bytes, s))) == s,
        skip_next(bytes, props, next_boundary(bytes, s)) <= bytes.len(),
{
    lemma_next_boundary_exists(bytes, s);
    let u = next_boundary(bytes, s);
    lemma_skip_next(bytes, props, u);
    let b = skip_next(bytes, props, u);
    lemma_skip_prev_is(bytes, props, b, s);
}

impl<'a> WordCursor<'a> {
    /// Moves back over the character before the cursor and updates what the
    /// cursor knows of the text around it.
    #[verifier::rlimit(60)]
    fn step_backward<F: Fn(char) -> CharProps>(&mut self, props: &F)
        requires
            old(self).wf(*props),
            old(self).position() > 0,
        ensures
            final(self).wf(*props),
            final(self).text() == old(self).text(),
            is_prev_boundary(old(self).text(), old(self).position() as int, final(self).position() as int),
    {
        let ghost bytes = self.cursor.text();
        let ghost o = self.cursor.position() as int;
        proof {
            self.cursor.lemma_text();
            lemma_skip_next(bytes, *props, o);
            lemma_ri_count_bound(bytes, *props, o);
        }
        self.cursor.move_prev_char();
        let ghost q = self.cursor.position() as int;
        proof {
            lemma_prev_boundary(bytes, o, q);
            lemma_step_forward(bytes, *props, q, o);
            lemma_ri_count_bound(bytes, *props, q);
            lemma_skip_prev(bytes, *props, q);
            lemma_skip_next(bytes, *props, q);
            lemma_ri_count(bytes, *props, o);
            lemma_ri_count(bytes, *props, q);
        }
        self.next_word_break = self.prev_word_break;
        self.next_extended_pictographic = self.prev_extended_pictographic;
        if self.cursor.is_at_start() {
            self.prev_word_break = None;
            self.prev_extended_pictographic = false;
        } else {
            self.cursor.move_prev_char();
            let ghost r = self.cursor.position() as int;
            let ch = self.cursor.current_char().unwrap();
            let properties = lookup(props, ch);
            self.prev_word_break = Some(properties.word_break);
            self.prev_extended_pictographic = properties.extended_pictographic;
            self.cursor.move_next_char();
            proof {
                lemma_prev_boundary(bytes, q, r);
                lemma_next_prev(bytes, r, q);
                lemma_next_boundary(bytes, r, self.cursor.position() as int);
            }
        }
        match self.next_word_break.unwrap() {
            WordBreak::Extend | WordBreak::Format | WordBreak::ZWJ => {},
            _ => {
                proof {
                    if skip_next(bytes, *props, o) < bytes.len() {
                        lemma_back_backward(bytes, *props, skip_next(bytes, *props, o));
                    }
                    if skip_prev(bytes, *props, q) >= 0 {
                        lemma_skip_prev(bytes, *props, skip_prev(bytes, *props, q));
                    }
                }
                if self.next_word_break_skip.is_some() {
                    self.next_next_word_break_skip = move_prev_word_break_skip(&mut self.back_cursor, props);
                }
                self.next_word_break_skip = self.next_word_break;
                self.prev_word_break_skip = self.prev_prev_word_break_skip;
                self.prev_prev_word_break_skip = move_prev_word_break_skip(&mut self.front_cursor, props);
                self.regional_indicator_count = match self.next_word_break {
                    Some(WordBreak::RegionalIndicator) => self.regional_indicator_count - 1,
                    _ => match self.prev_word_break_skip {
                        Some(WordBreak::RegionalIndicator) => regional_indicator_count(&mut self.cursor, props),
                        _ => 0,
                    },
                };
            },
        }
        proof {
            assert(self.context() == context_at(bytes, *props, q));
        }
    }

    /// Moves back to the previous word boundary.
    pub fn move_prev_word<F: Fn(char) -> CharProps>(&mut self, props: &F)
        requires
            old(self).wf(*props),
            old(self).position() > 0,
        ensures
            final(self).wf(*props),
            final(self).text() == old(self).text(),
            final(self).position() < old(self).position(),
            is_word_boundary_at(final(self).text(), *props, final(self).position() as int),
            forall|k: int|
                final(self).position() < k < old(self).position() && is_char_boundary(old(self).text(), k)
                    ==> !is_word_boundary_at(old(self).text(), *props, k),
    {
        let ghost bytes = self.cursor.text();
        let ghost start = self.cursor.position() as int;
        loop
            invariant_except_break
                self.cursor.position() > 0,
                forall|k: int|
                    self.cursor.position() <= k < start && is_char_boundary(bytes, k) ==> !is_word_boundary_at(
                        bytes,
                        *props,
                        k,
                    ),
            invariant
                self.wf(*props),
                self.text() == bytes,
                bytes == old(self).text(),
                start == old(self).position(),
                self.cursor.position() <= start,
            ensures
                self.wf(*props),
                self.text() == bytes,
                self.cursor.position() < start,
                is_word_boundary_at(bytes, *props, self.cursor.position() as int),
                forall|k: int|
                    self.cursor.position() < k < start && is_char_boundary(bytes, k) ==> !is_word_boundary_at(
                        bytes,
                        *props,
                        k,
                    ),
            decreases self.cursor.position(),
        {
            self.step_backward(props);
            proof {
                self.lemma_context(*props);
            }
            if self.is_at_word_boundary() {
                break;
            }
        }
    }
}


/// A place where a word starts or ends: a character boundary that is a word
/// boundary.
pub open spec fn is_word_stop<F: Fn(char) -> CharProps>(bytes: Seq<u8>, props: F, k: int) -> bool {
    is_char_boundary(bytes, k) && is_word_boundary_at(bytes, props, k)
}

/// `q` is the first word stop after `a`.
pub open spec fn is_next_word_stop<F: Fn(char) -> CharProps>(bytes: Seq<u8>, props: F, a: int, q: int) -> bool {
    &&& a < q <= bytes.len()
    &&& is_word_stop(bytes, props, q)
    &&& forall|k: int| a < k < q ==> !#[trigger] is_word_stop(bytes, props, k)
}

/// `q` is the last word stop before `b`.
pub open spec fn is_prev_word_stop<F: Fn(char) -> CharProps>(bytes: Seq<u8>, props: F, b: int, q: int) -> bool {
    &&& 0 <= q < b
    &&& is_word_stop(bytes, props, q)
    &&& forall|k: int| q < k < b ==> !#[trigger] is_word_stop(bytes, props, k)
}

/// Where the word that starts at `a` ends.
pub open spec fn next_word_stop<F: Fn(char) -> CharProps>(bytes: Seq<u8>, props: F, a: int) -> int {
    choose|q: int| is_next_word_stop(bytes, props, a, q)
}

/// Where the word that ends at `b` starts.
pub open spec fn prev_word_stop<F: Fn(char) -> CharProps>(bytes: Seq<u8>, props: F, b: int) -> int {
    choose|q: int| is_prev_word_stop(bytes, props, b, q)
}

/// The words between `a` and `b`, taken from the front.
pub open spec fn words_from_front<F: Fn(char) -> CharProps>(bytes: Seq<u8>, props: F, a: int, b: int) -> Seq<Seq<u8>>
    decreases b - a,
{
    if a < b {
        let q = next_word_stop(bytes, props, a);
        if a < q <= b {
            seq![bytes.subrange(a, q)] + words_from_front(bytes, props, q, b)
        } else {
            Seq::empty()
        }
    } else {
        Seq::empty()
    }
}

/// The words between `a` and `b`, taken from the back.
pub open spec fn words_from_back<F: Fn(char) -> CharProps>(bytes: Seq<u8>, props: F, a: int, b: int) -> Seq<Seq<u8>>
    decreases b - a,
{
    if a < b {
        let q = prev_word_stop(bytes, props, b);
        if a <= q < b {
            seq![bytes.subrange(q, b)] + words_from_back(bytes, props, a, q)
        } else {
            Seq::empty()
        }
    } else {
        Seq::empty()
    }
}

/// The pieces put back together.
pub open spec fn joined(pieces: Seq<Seq<u8>>) -> Seq<u8>
    decreases pieces.len(),
{
    if pieces.len() == 0 {
        Seq::empty()
    } else {
        pieces[0] + joined(pieces.drop_first())
    }
}

/// When a word stop follows `a`, there is a first one.
proof fn lemma_next_word_stop_exists<F: Fn(char) -> CharProps>(bytes: Seq<u8>, props: F, a: int, c: int)
    requires
        a < c <= bytes.len(),
        is_word_stop(bytes, props, c),
    ensures
        is_next_word_stop(bytes, props, a, next_word_stop(bytes, props, a)),
        next_word_stop(bytes, props, a) <= c,
    decreases c - a,
{
    if exists|k: int| a < k < c && #[trigger] is_word_stop(bytes, props, k) {
        let k = choose|k: int| a < k < c && #[trigger] is_word_stop(bytes, props, k);
        lemma_next_word_stop_exists(bytes, props, a, k);
    } else {
        assert(is_next_word_stop(bytes, props, a, c));
        lemma_next_word_stop_unique(bytes, props, a, c);
    }
}

/// The first word stop after `a` is the only one with no word stop before it.
proof fn lemma_next_word_stop_unique<F: Fn(char) -> CharProps>(bytes: Seq<u8>, props: F, a: int, q: int)
    requires
        is_next_word_stop(bytes, props, a, q),
    ensures
        next_word_stop(bytes, props, a) == q,
{
    let r = next_word_stop(bytes, props, a);
    assert(is_next_word_stop(bytes, props, a, r));
    if r < q {
        assert(is_word_stop(bytes, props, r));
    } else if q < r {
        assert(is_word_stop(bytes, props, q));
    }
}

/// When a word stop comes before `b`, there is a last one.
proof fn lemma_prev_word_stop_exists<F: Fn(char) -> CharProps>(bytes: Seq<u8>, props: F, b: int, c: int)
    requires
        0 <= c < b,
        is_word_stop(bytes, props, c),
    ensures
        is_prev_word_stop(bytes, props, b, prev_word_stop(bytes, props, b)),
        c <= prev_word_stop(bytes, props, b),
    decreases b - c,
{
    if exists|k: int| c < k < b && #[trigger] is_word_stop(bytes, props, k) {
        let k = choose|k: int| c < k < b && #[trigger] is_word_stop(bytes, props, k);
        lemma_prev_word_stop_exists(bytes, props, b, k);
    } else {
        assert(is_prev_word_stop(bytes, props, b, c));
        lemma_prev_word_stop_unique(bytes, props, b, c);
    }
}

/// The last word stop before `b` is the only one with no word stop after it.
proof fn lemma_prev_word_stop_unique<F: Fn(char) -> CharProps>(bytes: Seq<u8>, props: F, b: int, q: int)
    requires
        is_prev_word_stop(bytes, props, b, q),
    ensures
        prev_word_stop(bytes, props, b) == q,
{
    let r = prev_word_stop(bytes, props, b);
    assert(is_prev_word_stop(bytes, props, b, r));
    if r < q {
        assert(is_word_stop(bytes, props, q));
    } else if q < r {
        assert(is_word_stop(bytes, props, r));
    }
}

/// The words from the front up to `b` are those up to a word stop `c` before
/// it, then those from `c`.
proof fn lemma_words_from_front_split<F: Fn(char) -> CharProps>(bytes: Seq<u8>, props: F, a: int, c: int, b: int)
    requires
        0 <= a <= c <= b <= bytes.len(),
        is_word_stop(bytes, props, c),
        is_word_stop(bytes, props, b),
    ensures
        words_from_front(bytes, props, a, b) == words_from_front(bytes, props, a, c) + words_from_front(
            bytes,
            props,
            c,
            b,
        ),
    decreases c - a,
{
    if a < c {
        lemma_next_word_stop_exists(bytes, props, a, c);
        let q = next_word_stop(bytes, props, a);
        lemma_words_from_front_split(bytes, props, q, c, b);
        assert(words_from_front(bytes, props, a, b) == seq![bytes.subrange(a, q)] + words_from_front(
            bytes,
            props,
            q,
            b,
        ));
        assert(words_from_front(bytes, props, a, c) == seq![bytes.subrange(a, q)] + words_from_front(
            bytes,
            props,
            q,
            c,
        ));
        assert(words_from_front(bytes, props, a, b) =~= words_from_front(bytes, props, a, c) + words_from_front(
            bytes,
            props,
            c,
            b,
        ));
    } else {
        assert(words_from_front(bytes, props, a, c) =~= Seq::<Seq<u8>>::empty());
        assert(words_from_front(bytes, props, a, b) =~= words_from_front(bytes, props, a, c) + words_from_front(
            bytes,
            props,
            c,
            b,
        ));
    }
}

/// Taking the words of a text from the back gives the words taken from the
/// front, last first.
pub proof fn lemma_words_from_back_reverse<F: Fn(char) -> CharProps>(bytes: Seq<u8>, props: F, a: int, b: int)
    requires
        0 <= a <= b <= bytes.len(),
        is_word_stop(bytes, props, a),
        is_word_stop(bytes, props, b),
    ensures
        words_from_back(bytes, props, a, b) == words_from_front(bytes, props, a, b).reverse(),
    decreases b - a,
{
    if a < b {
        lemma_prev_word_stop_exists(bytes, props, b, a);
        let p = prev_word_stop(bytes, props, b);
        lemma_words_from_back_reverse(bytes, props, a, p);
        lemma_words_from_front_split(bytes, props, a, p, b);
        assert(is_next_word_stop(bytes, props, p, b));
        lemma_next_word_stop_unique(bytes, props, p, b);
        assert(words_from_front(bytes, props, b, b) =~= Seq::<Seq<u8>>::empty());
        let last = bytes.subrange(p, b);
        assert(words_from_front(bytes, props, p, b) =~= seq![last]);
        let front = words_from_front(bytes, props, a, p);
        assert((front + seq![last]).reverse() =~= seq![last] + front.reverse());
    } else {
        assert(words_from_front(bytes, props, a, b) =~= Seq::<Seq<u8>>::empty());
        assert(words_from_back(bytes, props, a, b) =~= Seq::<Seq<u8>>::empty());
    }
}

/// The words of a text, put back together, give the text between the two
/// word stops.
pub proof fn lemma_words_join<F: Fn(char) -> CharProps>(bytes: Seq<u8>, props: F, a: int, b: int)
    requires
        0 <= a <= b <= bytes.len(),
        is_word_stop(bytes, props, b),
    ensures
        joined(words_from_front(bytes, props, a, b)) == bytes.subrange(a, b),
    decreases b - a,
{
    if a < b {
        lemma_next_word_stop_exists(bytes, props, a, b);
        let q = next_word_stop(bytes, props, a);
        lemma_words_join(bytes, props, q, b);
        let words = words_from_front(bytes, props, a, b);
        assert(words == seq![bytes.subrange(a, q)] + words_from_front(bytes, props, q, b));
        assert(words[0] == bytes.subrange(a, q));
        assert(words.drop_first() =~= words_from_front(bytes, props, q, b));
        assert(bytes.subrange(a, q) + bytes.subrange(q, b) =~= bytes.subrange(a, b));
    } else {
        assert(bytes.subrange(a, b) =~= Seq::<u8>::empty());
    }
}

/// Every word taken from the front has at least one byte.
pub proof fn lemma_words_nonempty<F: Fn(char) -> CharProps>(bytes: Seq<u8>, props: F, a: int, b: int)
    requires
        0 <= a,
        b <= bytes.len(),
    ensures
        forall|i: int|
            0 <= i < words_from_front(bytes, props, a, b).len() ==> #[trigger] words_from_front(
                bytes,
                props,
                a,
                b,
            )[i].len() > 0,
    decreases b - a,
{
    if a < b {
        let q = next_word_stop(bytes, props, a);
        if a < q <= b {
            lemma_words_nonempty(bytes, props, q, b);
            let words = words_from_front(bytes, props, a, b);
            assert(words == seq![bytes.subrange(a, q)] + words_from_front(bytes, props, q, b));
            assert forall|i: int| 0 <= i < words.len() implies #[trigger] words[i].len() > 0 by {
                if i > 0 {
                    assert(words[i] == words_from_front(bytes, props, q, b)[i - 1]);
                }
            }
        }
    }
}

/// The words of a string, from either end: the pieces between consecutive
/// word boundaries.
pub struct Words<'a, F: Fn(char) -> CharProps> {
    string: &'a str,
    props: &'a F,
    cursor_front: WordCursor<'a>,
    cursor_back: WordCursor<'a>,
}

impl<'a, F: Fn(char) -> CharProps> Words<'a, F> {
    /// The bytes of the string.
    pub closed spec fn text(&self) -> Seq<u8> {
        self.string.spec_bytes()
    }

    /// How the characters are described.
    pub closed spec fn props(&self) -> F {
        *self.props
    }

    /// Where the words not yet given start, at the front.
    pub closed spec fn front(&self) -> nat {
        self.cursor_front.position()
    }

    /// Where the words not yet given end, at the back.
    pub closed spec fn back(&self) -> nat {
        self.cursor_back.position()
    }

    pub closed spec fn wf(&self) -> bool {
        &&& self.cursor_front.wf(*self.props)
        &&& self.cursor_back.wf(*self.props)
        &&& self.cursor_front.text() == self.string.spec_bytes()
        &&& self.cursor_back.text() == self.string.spec_bytes()
        &&& self.cursor_front.position() <= self.cursor_back.position()
        &&& self.cursor_front.position() < self.cursor_back.position() ==> {
            &&& is_word_boundary_at(self.string.spec_bytes(), *self.props, self.cursor_front.position() as int)
            &&& is_word_boundary_at(self.string.spec_bytes(), *self.props, self.cursor_back.position() as int)
        }
    }

    /// The words still to come, taken from the back, are those taken from
    /// the front, last first; put together, they are the text between front
    /// and back.
    pub proof fn lemma_front_and_back(&self)
        requires
            self.wf(),
        ensures
            words_from_back(self.text(), self.props(), self.front() as int, self.back() as int) == words_from_front(
                self.text(),
                self.props(),
                self.front() as int,
                self.back() as int,
            ).reverse(),
            joined(words_from_front(self.text(), self.props(), self.front() as int, self.back() as int))
                == self.text().subrange(self.front() as int, self.back() as int),
    {
        self.cursor_back.lemma_context(*self.props);
        let (a, b) = (self.front() as int, self.back() as int);
        if a < b {
            lemma_words_from_back_reverse(self.text(), self.props(), a, b);
            lemma_words_join(self.text(), self.props(), a, b);
        } else {
            assert(words_from_front(self.text(), self.props(), a, b) =~= Seq::<Seq<u8>>::empty());
            assert(words_from_back(self.text(), self.props(), a, b) =~= Seq::<Seq<u8>>::empty());
            assert(self.text().subrange(a, b) =~= Seq::<u8>::empty());
        }
    }

    /// The words of `string`, its characters described by `props`.
    pub fn new(string: &'a str, props: &'a F) -> (w: Self)
        requires
            deterministic(*props),
        ensures
            w.wf(),
            w.text() == string.spec_bytes(),
            w.props() == *props,
            w.front() == 0,
            w.back() == string.spec_bytes().len(),
    {
        let front = StrCursor::front(string);
        let back = StrCursor::back(string);
        proof {
            front.lemma_text();
        }
        Self { string, props, cursor_front: WordCursor::new(front, props), cursor_back: WordCursor::new(back, props) }
    }

    /// The next word from the front, `None` when all words have been given.
    pub fn next(&mut self) -> (r: Option<&'a str>)
        requires
            old(self).wf(),
        ensures
            final(self).wf(),
            final(self).text() == old(self).text(),
            final(self).props() == old(self).props(),
            final(self).back() == old(self).back(),
            old(self).front() == old(self).back() ==> r is None && final(self).front() == old(self).front(),
            old(self).front() < old(self).back() ==> (r matches Some(word) && old(self).front() < final(self).front()
                && word.spec_bytes() == old(self).text().subrange(
                old(self).front() as int,
                final(self).front() as int,
            ) && forall|k: int|
                old(self).front() < k < final(self).front() && is_char_boundary(old(self).text(), k)
                    ==> !is_word_boundary_at(old(self).text(), old(self).props(), k)),
            old(self).front() < old(self).back() ==> final(self).front() == next_word_stop(
                old(self).text(),
                old(self).props(),
                old(self).front() as int,
            ),
            old(self).front() < old(self).back() ==> (r matches Some(word) && word.spec_bytes() == words_from_front(
                old(self).text(),
                old(self).props(),
                old(self).front() as int,
                old(self).back() as int,
            )[0]),
            words_from_front(final(self).text(), final(self).props(), final(self).front() as int, final(self).back() as int)
                == if old(self).front() < old(self).back() {
                words_from_front(
                    old(self).text(),
                    old(self).props(),
                    old(self).front() as int,
                    old(self).back() as int,
                ).drop_first()
            } else {
                words_from_front(
                    old(self).text(),
                    old(self).props(),
                    old(self).front() as int,
                    old(self).back() as int,
                )
            },
    {
        if self.cursor_front.byte_position() == self.cursor_back.byte_position() {
            return None;
        }
        let start = self.cursor_front.byte_position();
        proof {
            self.cursor_front.lemma_context(*self.props);
            self.cursor_back.lemma_context(*self.props);
        }
        self.cursor_front.move_next_word(self.props);
        let end = self.cursor_front.byte_position();
        proof {
            self.cursor_front.lemma_context(*self.props);
            if end > self.cursor_back.position() {
                assert(is_char_boundary(self.string.spec_bytes(), self.cursor_back.position() as int));
            }
        }
        let (_, rest) = self.string.split_at(start);
        proof {
            let bytes = self.string.spec_bytes();
            let suffix = bytes.subrange(start as int, bytes.len() as int);
            encode_utf8_valid_utf8(self.string@);
            lemma_boundary_shift(bytes, start as int, (end - start) as int);
            assert(rest.spec_bytes() == suffix);
        }
        let (word, _) = rest.split_at(end - start);
        proof {
            let bytes = self.string.spec_bytes();
            let props = *self.props;
            assert(word.spec_bytes() == bytes.subrange(start as int, end as int));
            assert(is_next_word_stop(bytes, props, start as int, end as int));
            lemma_next_word_stop_unique(bytes, props, start as int, end as int);
            let back = self.cursor_back.position() as int;
            assert(words_from_front(bytes, props, start as int, back) == seq![bytes.subrange(start as int, end as int)]
                + words_from_front(bytes, props, end as int, back));
            assert(words_from_front(bytes, props, start as int, back).drop_first() =~= words_from_front(
                bytes,
                props,
                end as int,
                back,
            ));
        }
        Some(word)
    }

    /// The next word from the back, `None` when all words have been given.
    pub fn next_back(&mut self) -> (r: Option<&'a str>)
        requires
            old(self).wf(),
        ensures
            final(self).wf(),
            final(self).text() == old(self).text(),
            final(self).props() == old(self).props(),
            final(self).front() == old(self).front(),
            old(self).front() == old(self).back() ==> r is None && final(self).back() == old(self).back(),
            old(self).front() < old(self).back() ==> (r matches Some(word) && final(self).back() < old(self).back()
                && word.spec_bytes() == old(self).text().subrange(
                final(self).back() as int,
                old(self).back() as int,
            ) && forall|k: int|
                final(self).back() < k < old(self).back() && is_char_boundary(old(self).text(), k)
                    ==> !is_word_boundary_at(old(self).text(), old(self).props(), k)),
            old(self).front() < old(self).back() ==> final(self).back() == prev_word_stop(
                old(self).text(),
                old(self).props(),
                old(self).back() as int,
            ),
            old(self).front() < old(self).back() ==> (r matches Some(word) && word.spec_bytes() == words_from_back(
                old(self).text(),
                old(self).props(),
                old(self).front() as int,
                old(self).back() as int,
            )[0]),
            words_from_back(final(self).text(), final(self).props(), final(self).front() as int, final(self).back() as int)
                == if old(self).front() < old(self).back() {
                words_from_back(
                    old(self).text(),
                    old(self).props(),
                    old(self).front() as int,
                    old(self).back() as int,
                ).drop_first()
            } else {
                words_from_back(
                    old(self).text(),
                    old(self).props(),
                    old(self).front() as int,
                    old(self).back() as int,
                )
            },
    {
        if self.cursor_front.byte_position() == self.cursor_back.byte_position() {
            return None;
        }
        let end = self.cursor_back.byte_position();
        proof {
            self.cursor_front.lemma_context(*self.props);
            self.cursor_back.lemma_context(*self.props);
        }
        self.cursor_back.move_prev_word(self.props);
        let start = self.cursor_back.byte_position();
        proof {
            self.cursor_back.lemma_context(*self.props);
            if start < self.cursor_front.position() {
                assert(is_char_boundary(self.string.spec_bytes(), self.cursor_front.position() as int));
            }
        }
        let (_, rest) = self.string.split_at(start);
        proof {
            let bytes = self.string.spec_bytes();
            let suffix = bytes.subrange(start as int, bytes.len() as int);
            encode_utf8_valid_utf8(self.string@);
            lemma_boundary_shift(bytes, start as int, (end - start) as int);
            assert(rest.spec_bytes() == suffix);
        }
        let (word, _) = rest.split_at(end - start);
        proof {
            let bytes = self.string.spec_bytes();
            let props = *self.props;
            assert(word.spec_bytes() == bytes.subrange(start as int, end as int));
            assert(is_prev_word_stop(bytes, props, end as int, start as int));
            lemma_prev_word_stop_unique(bytes, props, end as int, start as int);
            let front = self.cursor_front.position() as int;
            assert(words_from_back(bytes, props, front, end as int) == seq![bytes.subrange(start as int, end as int)]
                + words_from_back(bytes, props, front, start as int));
            assert(words_from_back(bytes, props, front, end as int).drop_first() =~= words_from_back(
                bytes,
                props,
                front,
                start as int,
            ));
        }
        Some(word)
    }
}

impl<'a, F: Fn(char) -> CharProps> Words<'a, F> {
    /// All the words still to come, taken from the front: they are the
    /// pieces between consecutive word boundaries, none of them empty, and
    /// put together they give the text between front and back.
    pub fn collect_front(&mut self) -> (words: Vec<&'a str>)
        requires
            old(self).wf(),
        ensures
            final(self).wf(),
            final(self).text() == old(self).text(),
            final(self).props() == old(self).props(),
            final(self).front() == old(self).back(),
            final(self).back() == old(self).back(),
            words@.map_values(|w: &'a str| w.spec_bytes()) == words_from_front(
                old(self).text(),
                old(self).props(),
                old(self).front() as int,
                old(self).back() as int,
            ),
            forall|i: int| 0 <= i < words@.len() ==> #[trigger] words@[i].spec_bytes().len() > 0,
            joined(words@.map_values(|w: &'a str| w.spec_bytes())) == old(self).text().subrange(
                old(self).front() as int,
                old(self).back() as int,
            ),
    {
        let ghost all = words_from_front(self.text(), self.props(), self.front() as int, self.back() as int);
        proof {
            self.lemma_front_and_back();
            lemma_words_nonempty(self.text(), self.props(), self.front() as int, self.back() as int);
        }
        let mut words: Vec<&'a str> = Vec::new();
        loop
            invariant
                self.wf(),
                self.text() == old(self).text(),
                self.props() == old(self).props(),
                self.back() == old(self).back(),
                all == words_from_front(old(self).text(), old(self).props(), old(self).front() as int, old(self).back() as int),
                forall|i: int| 0 <= i < all.len() ==> #[trigger] all[i].len() > 0,
                joined(all) == old(self).text().subrange(old(self).front() as int, old(self).back() as int),
                words@.map_values(|w: &'a str| w.spec_bytes()) + words_from_front(
                    self.text(),
                    self.props(),
                    self.front() as int,
                    self.back() as int,
                ) == all,
            decreases self.back() - self.front(),
        {
            let ghost rest = words_from_front(self.text(), self.props(), self.front() as int, self.back() as int);
            let ghost before = words@.map_values(|w: &'a str| w.spec_bytes());
            match self.next() {
                Some(word) => {
                    words.push(word);
                    proof {
                        assert(words@.map_values(|w: &'a str| w.spec_bytes()) =~= before.push(word.spec_bytes()));
                        assert(rest =~= seq![rest[0]] + rest.drop_first());
                        assert(before.push(word.spec_bytes()) + rest.drop_first() =~= before + rest);
                    }
                },
                None => {
                    proof {
                        assert(rest =~= Seq::<Seq<u8>>::empty());
                        assert(before + rest =~= before);
                        assert forall|i: int| 0 <= i < words@.len() implies #[trigger] words@[i].spec_bytes().len()
                            > 0 by {
                            assert(before[i] == words@[i].spec_bytes());
                            assert(before[i] == all[i]);
                        }
                    }
                    return words;
                },
            }
        }
    }

    /// All the words still to come, taken from the back: they are the words
    /// taken from the front, last first.
    pub fn collect_back(&mut self) -> (words: Vec<&'a str>)
        requires
            old(self).wf(),
        ensures
            final(self).wf(),
            final(self).text() == old(self).text(),
            final(self).props() == old(self).props(),
            final(self).front() == old(self).front(),
            final(self).back() == old(self).front(),
            words@.map_values(|w: &'a str| w.spec_bytes()) == words_from_front(
                old(self).text(),
                old(self).props(),
                old(self).front() as int,
                old(self).back() as int,
            ).reverse(),
    {
        let ghost all = words_from_back(self.text(), self.props(), self.front() as int, self.back() as int);
        proof {
            self.lemma_front_and_back();
        }
        let mut words: Vec<&'a str> = Vec::new();
        loop
            invariant
                self.wf(),
                self.text() == old(self).text(),
                self.props() == old(self).props(),
                self.front() == old(self).front(),
                all == words_from_back(old(self).text(), old(self).props(), old(self).front() as int, old(self).back() as int),
                all == words_from_front(old(self).text(), old(self).props(), old(self).front() as int, old(self).back() as int).reverse(),
                words@.map_values(|w: &'a str| w.spec_bytes()) + words_from_back(
                    self.text(),
                    self.props(),
                    self.front() as int,
                    self.back() as int,
                ) == all,
            decreases self.back() - self.front(),
        {
            let ghost rest = words_from_back(self.text(), self.props(), self.front() as int, self.back() as int);
            let ghost before = words@.map_values(|w: &'a str| w.spec_bytes());
            match self.next_back() {
                Some(word) => {
                    words.push(word);
                    proof {
                        assert(words@.map_values(|w: &'a str| w.spec_bytes()) =~= before.push(word.spec_bytes()));
                        assert(rest =~= seq![rest[0]] + rest.drop_first());
                        assert(before.push(word.spec_bytes()) + rest.drop_first() =~= before + rest);
                    }
                },
                None => {
                    proof {
                        assert(rest =~= Seq::<Seq<u8>>::empty());
                        assert(before + rest =~= before);
                    }
                    return words;
                },
            }
        }
    }
}

/// The words of `string`, its characters described by `props`.
pub fn words<'a, F: Fn(char) -> CharProps>(string: &'a str, props: &'a F) -> (w: Words<'a, F>)
    requires
        deterministic(*props),
    ensures
        w.wf(),
        w.text() == string.spec_bytes(),
        w.props() == *props,
        w.front() == 0,
        w.back() == string.spec_bytes().len(),
{
    Words::new(string, props)
}

} // verus!
