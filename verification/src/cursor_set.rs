use vstd::prelude::*;
use vstd::multiset::Multiset;
use crate::cursor::{Affinity, Cursor};

verus! {

/// The key by which cursors are ordered: the line, byte and side of their start.
pub open spec fn spec_start_key(cursor: Cursor) -> (usize, usize, u8) {
    let start = cursor.spec_start();
    (
        start.position.line_index,
        start.position.byte_index,
        if start.affinity == Affinity::After {
            1u8
        } else {
            0u8
        },
    )
}

/// Lexicographic order on keys, the order of tuples.
pub open spec fn key_lt(a: (usize, usize, u8), b: (usize, usize, u8)) -> bool {
    a.0 < b.0 || (a.0 == b.0 && (a.1 < b.1 || (a.1 == b.1 && a.2 < b.2)))
}

/// The cursors are ordered by their starts.
pub open spec fn sorted_by_start(cursors: Seq<Cursor>) -> bool {
    forall|i: int, j: int|
        0 <= i < j < cursors.len() ==> !(#[trigger] cursors[j].spec_start()).spec_lt(
            #[trigger] cursors[i].spec_start(),
        )
}

/// The cursors whose start has key `key`, in order.
pub open spec fn with_key(cursors: Seq<Cursor>, key: (usize, usize, u8)) -> Seq<Cursor> {
    cursors.filter(|c: Cursor| spec_start_key(c) == key)
}

/// `sorted` is `cursors` sorted by the keys of their starts, cursors with
/// equal keys keeping their order.
pub open spec fn stable_sorted(cursors: Seq<Cursor>, sorted: Seq<Cursor>) -> bool {
    &&& sorted.to_multiset() == cursors.to_multiset()
    &&& sorted_by_start(sorted)
    &&& forall|key: (usize, usize, u8)| #[trigger] with_key(sorted, key) == with_key(cursors, key)
}

/// The cursors merged from left to right: each cursor is merged into the last
/// one kept if they merge, and kept after it otherwise.
pub open spec fn merged(cursors: Seq<Cursor>) -> Seq<Cursor>
    decreases cursors.len(),
{
    if cursors.len() <= 1 {
        cursors
    } else {
        let kept = merged(cursors.drop_last());
        match kept.last().spec_merge(cursors.last()) {
            Some(cursor) => kept.drop_last().push(cursor),
            None => kept.push(cursors.last()),
        }
    }
}

/// Merges the cursor at `index` with the ones after it for as long as they merge.
pub open spec fn merged_forward(cursors: Seq<Cursor>, index: int) -> Seq<Cursor>
    decreases cursors.len() - index,
{
    if 0 <= index && index + 1 < cursors.len() {
        match cursors[index].spec_merge(cursors[index + 1]) {
            Some(cursor) => merged_forward(cursors.update(index, cursor).remove(index + 1), index),
            None => cursors,
        }
    } else {
        cursors
    }
}

/// The cursors for which `kept` holds, in order.
pub open spec fn selected(cursors: Seq<Cursor>, kept: Seq<bool>) -> Seq<Cursor>
    decreases cursors.len(),
{
    if cursors.len() == 0 {
        Seq::empty()
    } else {
        let rest = selected(cursors.drop_last(), kept.drop_last());
        if kept.last() {
            rest.push(cursors.last())
        } else {
            rest
        }
    }
}

/// `index` is a place to insert a cursor with key `key` that keeps the order.
pub open spec fn insertion_point(cursors: Seq<Cursor>, key: (usize, usize, u8), index: int) -> bool {
    &&& 0 <= index <= cursors.len()
    &&& forall|j: int| 0 <= j < index ==> !key_lt(key, #[trigger] spec_start_key(cursors[j]))
    &&& forall|j: int| index <= j < cursors.len() ==> !key_lt(#[trigger] spec_start_key(cursors[j]), key)
}

/// The cursors after `cursor` was inserted at `index` and merged with its
/// neighbours: first with the one before it, then with the ones after.
pub open spec fn inserted(cursors: Seq<Cursor>, cursor: Cursor, index: int) -> Seq<Cursor> {
    let with = cursors.insert(index, cursor);
    if index > 0 && with[index - 1].spec_merge(with[index]) is Some {
        merged_forward(
            with.update(index - 1, with[index - 1].spec_merge(with[index])->0).remove(index),
            index - 1,
        )
    } else {
        merged_forward(with, index)
    }
}

/// Keys order cursors as their starts do.
pub proof fn lemma_key_order(a: Cursor, b: Cursor)
    ensures
        key_lt(spec_start_key(a), spec_start_key(b)) == a.spec_start().spec_lt(b.spec_start()),
        spec_start_key(a) == spec_start_key(b) <==> a.spec_start() == b.spec_start(),
{
}

/// A merged cursor starts where one of the two starts, between them.
pub proof fn lemma_merge_start_between(a: Cursor, b: Cursor)
    requires
        !b.spec_start().spec_lt(a.spec_start()),
        a.spec_merge(b) is Some,
    ensures
        !a.spec_merge(b)->0.spec_start().spec_lt(a.spec_start()),
        !b.spec_start().spec_lt(a.spec_merge(b)->0.spec_start()),
{
}

/// No two of the cursors merge.
pub open spec fn apart(cursors: Seq<Cursor>) -> bool {
    forall|i: int, j: int|
        0 <= i < j < cursors.len() ==> (#[trigger] cursors[i]).spec_merge(#[trigger] cursors[j]) is None
}

/// `second`, which starts no earlier than `first`, starts at a text
/// position before the end of `first`, or at it when one of the two is a
/// caret alone.
pub open spec fn touches(first: Cursor, second: Cursor) -> bool {
    let start = second.spec_start().position;
    let end = first.spec_end().position;
    start.spec_lt(end) || (start == end && (first.spec_is_empty() || second.spec_is_empty()))
}

/// Two cursors, the second starting no earlier than the first, merge when
/// they touch.
pub proof fn lemma_merge_touches(first: Cursor, second: Cursor)
    requires
        !second.spec_start().spec_lt(first.spec_start()),
    ensures
        first.spec_merge(second) is Some <==> touches(first, second),
{
}

/// What merging a cursor with one that starts no earlier keeps: the start's
/// text position, and a selection stays a selection.
proof fn lemma_merge_keeps_start(first: Cursor, second: Cursor)
    requires
        !second.spec_start().spec_lt(first.spec_start()),
        first.spec_merge(second) is Some,
    ensures
        first.spec_merge(second)->0.spec_start().position == first.spec_start().position,
        !first.spec_merge(second)->0.spec_start().spec_lt(first.spec_start()),
        !first.spec_is_empty() ==> !first.spec_merge(second)->0.spec_is_empty(),
{
}

/// Cursors in order that do not merge with their neighbours do not merge
/// with each other either.
proof fn lemma_apart_chain(a: Cursor, b: Cursor, c: Cursor)
    requires
        !b.spec_start().spec_lt(a.spec_start()),
        !c.spec_start().spec_lt(b.spec_start()),
        a.spec_merge(b) is None,
        b.spec_merge(c) is None,
    ensures
        a.spec_merge(c) is None,
{
    lemma_merge_touches(a, b);
    lemma_merge_touches(b, c);
    lemma_merge_touches(a, c);
}

/// A cursor that does not merge with `b` does not merge with what `b`
/// becomes when it merges with a cursor that starts no earlier.
proof fn lemma_apart_after_merge(a: Cursor, b: Cursor, c: Cursor)
    requires
        !b.spec_start().spec_lt(a.spec_start()),
        !c.spec_start().spec_lt(b.spec_start()),
        a.spec_merge(b) is None,
        b.spec_merge(c) is Some,
    ensures
        a.spec_merge(b.spec_merge(c)->0) is None,
        !b.spec_merge(c)->0.spec_start().spec_lt(a.spec_start()),
{
    let m = b.spec_merge(c)->0;
    lemma_merge_keeps_start(b, c);
    lemma_merge_touches(a, b);
    lemma_merge_touches(a, m);
}

/// A cursor that starts no earlier than the last one and does not merge with
/// it can follow the cursors.
proof fn lemma_apart_push(t: Seq<Cursor>, c: Cursor)
    requires
        apart(t),
        sorted_by_start(t),
        t.len() > 0,
        !c.spec_start().spec_lt(t.last().spec_start()),
        t.last().spec_merge(c) is None,
    ensures
        apart(t.push(c)),
{
    let u = t.push(c);
    let n = t.len() as int;
    assert forall|i: int, j: int| 0 <= i < j < u.len() implies (#[trigger] u[i]).spec_merge(#[trigger] u[j]) is None by {
        if j == n && i < n - 1 {
            assert(t[i].spec_merge(t[n - 1]) is None);
            assert(!t[n - 1].spec_start().spec_lt(t[i].spec_start()));
            lemma_apart_chain(t[i], t[n - 1], c);
        } else if j < n {
            assert(u[i] == t[i] && u[j] == t[j]);
        }
    }
}

/// The last cursor may be replaced by its merge with a cursor that starts
/// no earlier.
proof fn lemma_apart_merge_last(t: Seq<Cursor>, c: Cursor)
    requires
        apart(t),
        sorted_by_start(t),
        t.len() > 0,
        !c.spec_start().spec_lt(t.last().spec_start()),
        t.last().spec_merge(c) is Some,
    ensures
        apart(t.drop_last().push(t.last().spec_merge(c)->0)),
{
    let m = t.last().spec_merge(c)->0;
    let u = t.drop_last().push(m);
    let n = t.len() as int;
    assert forall|i: int, j: int| 0 <= i < j < u.len() implies (#[trigger] u[i]).spec_merge(#[trigger] u[j]) is None by {
        if j == n - 1 {
            assert(t[i].spec_merge(t[n - 1]) is None);
            assert(!t[n - 1].spec_start().spec_lt(t[i].spec_start()));
            lemma_apart_after_merge(t[i], t[n - 1], c);
        } else {
            assert(u[i] == t[i] && u[j] == t[j]);
        }
    }
}

/// No two of the cursors merge, except the one at `k` with those after it.
pub open spec fn apart_but_after(cursors: Seq<Cursor>, k: int) -> bool {
    forall|i: int, j: int|
        0 <= i < j < cursors.len() && i != k ==> (#[trigger] cursors[i]).spec_merge(#[trigger] cursors[j]) is None
}

/// A cursor inserted in order into cursors that do not merge, merged with
/// the one before it when they merge, may merge only with those after it.
proof fn lemma_apart_insert(s: Seq<Cursor>, c: Cursor, k: int)
    requires
        apart(s),
        sorted_by_start(s.insert(k, c)),
        0 <= k <= s.len(),
    ensures
        k > 0 && s[k - 1].spec_merge(c) is Some ==> apart_but_after(
            s.insert(k, c).update(k - 1, s[k - 1].spec_merge(c)->0).remove(k),
            k - 1,
        ),
        !(k > 0 && s[k - 1].spec_merge(c) is Some) ==> apart_but_after(s.insert(k, c), k),
{
    let with = s.insert(k, c);
    if k > 0 && s[k - 1].spec_merge(c) is Some {
        let m = s[k - 1].spec_merge(c)->0;
        let u = with.update(k - 1, m).remove(k);
        assert(u =~= s.update(k - 1, m));
        assert(with[k - 1] == s[k - 1] && with[k] == c);
        assert forall|i: int, j: int| 0 <= i < j < u.len() && i != k - 1 implies (#[trigger] u[i]).spec_merge(
            #[trigger] u[j],
        ) is None by {
            if j == k - 1 {
                assert(s[i].spec_merge(s[k - 1]) is None);
                assert(with[i] == s[i]);
                assert(!with[k - 1].spec_start().spec_lt(with[i].spec_start()));
                assert(!with[k].spec_start().spec_lt(with[k - 1].spec_start()));
                lemma_apart_after_merge(s[i], s[k - 1], c);
            } else {
                assert(u[i] == s[i] && u[j] == s[j]);
            }
        }
    } else {
        assert forall|i: int, j: int| 0 <= i < j < with.len() && i != k implies (#[trigger] with[i]).spec_merge(
            #[trigger] with[j],
        ) is None by {
            if j == k {
                assert(with[k] == c);
                if i < k - 1 {
                    assert(with[i] == s[i] && with[k - 1] == s[k - 1]);
                    assert(s[i].spec_merge(s[k - 1]) is None);
                    assert(!with[k - 1].spec_start().spec_lt(with[i].spec_start()));
                    assert(!with[k].spec_start().spec_lt(with[k - 1].spec_start()));
                    lemma_apart_chain(s[i], s[k - 1], c);
                } else {
                    assert(with[i] == s[k - 1]);
                }
            } else if j < k {
                assert(with[i] == s[i] && with[j] == s[j]);
            } else if i < k {
                assert(with[i] == s[i] && with[j] == s[j - 1]);
            } else {
                assert(with[i] == s[i - 1] && with[j] == s[j - 1]);
            }
        }
    }
}

/// Merging the cursor at `k` with the next one keeps the others apart.
proof fn lemma_apart_but_after_merge(t: Seq<Cursor>, k: int)
    requires
        apart_but_after(t, k),
        sorted_by_start(t),
        0 <= k,
        k + 1 < t.len(),
        t[k].spec_merge(t[k + 1]) is Some,
    ensures
        apart_but_after(t.update(k, t[k].spec_merge(t[k + 1])->0).remove(k + 1), k),
{
    let m = t[k].spec_merge(t[k + 1])->0;
    let u = t.update(k, m).remove(k + 1);
    assert forall|i: int, j: int| 0 <= i < j < u.len() && i != k implies (#[trigger] u[i]).spec_merge(
        #[trigger] u[j],
    ) is None by {
        if j == k {
            assert(t[i].spec_merge(t[k]) is None);
            assert(!t[k].spec_start().spec_lt(t[i].spec_start()));
            assert(!t[k + 1].spec_start().spec_lt(t[k].spec_start()));
            lemma_apart_after_merge(t[i], t[k], t[k + 1]);
        } else if j < k {
            assert(u[i] == t[i] && u[j] == t[j]);
        } else if i < k {
            assert(u[i] == t[i] && u[j] == t[j + 1]);
        } else {
            assert(u[i] == t[i + 1] && u[j] == t[j + 1]);
        }
    }
}

/// When the cursor at `k` does not merge with the next one, no two cursors
/// merge.
proof fn lemma_apart_settled(t: Seq<Cursor>, k: int)
    requires
        apart_but_after(t, k),
        sorted_by_start(t),
        0 <= k < t.len(),
        k + 1 < t.len() ==> t[k].spec_merge(t[k + 1]) is None,
    ensures
        apart(t),
{
    assert forall|i: int, j: int| 0 <= i < j < t.len() implies (#[trigger] t[i]).spec_merge(#[trigger] t[j]) is None by {
        if i == k && j > k + 1 {
            assert(t[k + 1].spec_merge(t[j]) is None);
            assert(!t[k + 1].spec_start().spec_lt(t[k].spec_start()));
            assert(!t[j].spec_start().spec_lt(t[k + 1].spec_start()));
            lemma_apart_chain(t[k], t[k + 1], t[j]);
        }
    }
}

/// The cursors with a given key after one more cursor.
proof fn lemma_with_key_push(cursors: Seq<Cursor>, c: Cursor, key: (usize, usize, u8))
    ensures
        with_key(cursors.push(c), key) == if spec_start_key(c) == key {
            with_key(cursors, key).push(c)
        } else {
            with_key(cursors, key)
        },
{
    reveal(Seq::filter);
    assert(cursors.push(c).drop_last() =~= cursors);
}

/// A stable sort of cursors that are already in order leaves them as they
/// are.
proof fn lemma_stable_sort_of_sorted(s: Seq<Cursor>, y: Seq<Cursor>)
    requires
        sorted_by_start(s),
        stable_sorted(s, y),
    ensures
        y == s,
    decreases s.len(),
{
    vstd::seq_lib::to_multiset_len(s);
    vstd::seq_lib::to_multiset_len(y);
    if s.len() == 0 {
        assert(y =~= s);
    } else {
        let n = s.len() as int;
        let a = s.last();
        let b = y.last();
        let s1 = s.drop_last();
        let y1 = y.drop_last();
        assert(s1.push(a) =~= s);
        assert(y1.push(b) =~= y);
        lemma_sorted_keys(s);
        lemma_sorted_keys(y);
        vstd::seq_lib::to_multiset_contains(s, a);
        vstd::seq_lib::to_multiset_contains(y, a);
        vstd::seq_lib::to_multiset_contains(y, b);
        vstd::seq_lib::to_multiset_contains(s, b);
        assert(s[n - 1] == a);
        let i = choose|i: int| 0 <= i < y.len() && y[i] == a;
        let j = choose|j: int| 0 <= j < s.len() && s[j] == b;
        if i < n - 1 {
            assert(!key_lt(spec_start_key(y[n - 1]), spec_start_key(y[i])));
        }
        if j < n - 1 {
            assert(!key_lt(spec_start_key(s[n - 1]), spec_start_key(s[j])));
        }
        let k = spec_start_key(a);
        assert(spec_start_key(b) == k);
        lemma_with_key_push(s1, a, k);
        lemma_with_key_push(y1, b, k);
        assert(with_key(s, k) == with_key(y, k));
        assert(with_key(s1, k).push(a) == with_key(y1, k).push(b));
        assert(a == with_key(s1, k).push(a).last());
        assert(a == b);
        assert(with_key(s1, k) == with_key(s1, k).push(a).drop_last());
        assert(with_key(y1, k) == with_key(y1, k).push(b).drop_last());
        assert forall|key: (usize, usize, u8)| #[trigger] with_key(y1, key) == with_key(s1, key) by {
            lemma_with_key_push(s1, a, key);
            lemma_with_key_push(y1, b, key);
        }
        vstd::seq_lib::to_multiset_build(s1, a);
        vstd::seq_lib::to_multiset_build(y1, b);
        assert(s1.to_multiset() =~= s.to_multiset().remove(a));
        assert(y1.to_multiset() =~= y.to_multiset().remove(b));
        assert forall|x: int, z: int| 0 <= x < z < y1.len() implies !(#[trigger] y1[z].spec_start()).spec_lt(
            #[trigger] y1[x].spec_start(),
        ) by {
            assert(y1[x] == y[x] && y1[z] == y[z]);
        }
        assert forall|x: int, z: int| 0 <= x < z < s1.len() implies !(#[trigger] s1[z].spec_start()).spec_lt(
            #[trigger] s1[x].spec_start(),
        ) by {
            assert(s1[x] == s[x] && s1[z] == s[z]);
        }
        lemma_stable_sort_of_sorted(s1, y1);
    }
}

/// Merging cursors in order that do not merge leaves them as they are.
proof fn lemma_merged_of_apart(s: Seq<Cursor>)
    requires
        apart(s),
    ensures
        merged(s) == s,
    decreases s.len(),
{
    if s.len() > 1 {
        let s1 = s.drop_last();
        assert forall|i: int, j: int| 0 <= i < j < s1.len() implies (#[trigger] s1[i]).spec_merge(#[trigger] s1[j])
            is None by {
            assert(s1[i] == s[i] && s1[j] == s[j]);
        }
        lemma_merged_of_apart(s1);
        assert(s[s.len() - 2].spec_merge(s[s.len() - 1]) is None);
        assert(s1.push(s.last()) =~= s);
    }
}

/// Merging forward from `index` keeps the cursors up to it and removes at
/// most the ones after it.
proof fn lemma_merged_forward_len(cursors: Seq<Cursor>, index: int)
    requires
        0 <= index < cursors.len(),
    ensures
        index + 1 <= merged_forward(cursors, index).len() <= cursors.len(),
    decreases cursors.len() - index,
{
    if index + 1 < cursors.len() {
        match cursors[index].spec_merge(cursors[index + 1]) {
            Some(cursor) => lemma_merged_forward_len(cursors.update(index, cursor).remove(index + 1), index),
            None => {},
        }
    }
}

/// Merging forward from `k`, where only the cursor at `k` may merge with
/// those after it, leaves cursors in order of which no two merge.
proof fn lemma_merged_forward_keeps(cursors: Seq<Cursor>, k: int)
    requires
        sorted_by_start(cursors),
        apart_but_after(cursors, k),
        0 <= k < cursors.len(),
    ensures
        sorted_by_start(merged_forward(cursors, k)),
        apart(merged_forward(cursors, k)),
    decreases cursors.len() - k,
{
    if k + 1 < cursors.len() && cursors[k].spec_merge(cursors[k + 1]) is Some {
        let next = cursors.update(k, cursors[k].spec_merge(cursors[k + 1])->0).remove(k + 1);
        lemma_merge_keeps_sorted(cursors, k);
        lemma_apart_but_after_merge(cursors, k);
        lemma_merged_forward_keeps(next, k);
    } else {
        lemma_apart_settled(cursors, k);
    }
}

/// A cursor inserted and merged leaves at least one cursor and at most one
/// more than before.
proof fn lemma_inserted_len(cursors: Seq<Cursor>, cursor: Cursor, index: int)
    requires
        0 <= index <= cursors.len(),
    ensures
        1 <= inserted(cursors, cursor, index).len() <= cursors.len() + 1,
{
    let with = cursors.insert(index, cursor);
    if index > 0 && with[index - 1].spec_merge(with[index]) is Some {
        lemma_merged_forward_len(with.update(index - 1, with[index - 1].spec_merge(with[index])->0).remove(index), index - 1);
    } else {
        lemma_merged_forward_len(with, index);
    }
}

impl Cursor {
    /// The key by which cursors are ordered.
    pub fn start_key(self) -> (key: (usize, usize, u8))
        ensures
            key == spec_start_key(self),
    {
        let start = self.start();
        (
            start.position.line_index,
            start.position.byte_index,
            match start.affinity {
                Affinity::Before => 0,
                Affinity::After => 1,
            },
        )
    }
}

/// Sorts the cursors by the key of their starts (`sort_by_key`, a stable sort).
#[verifier::external_body]
fn sort_by_start(cursors: &mut Vec<Cursor>)
    ensures
        final(cursors)@.to_multiset() == old(cursors)@.to_multiset(),
        final(cursors)@.len() == old(cursors)@.len(),
        forall|key: (usize, usize, u8)| #[trigger] with_key(final(cursors)@, key) == with_key(old(cursors)@, key),
        forall|i: int, j: int|
            0 <= i < j < final(cursors)@.len() ==> !key_lt(
                #[trigger] spec_start_key(final(cursors)@[j]),
                #[trigger] spec_start_key(final(cursors)@[i]),
            ),
{
    cursors.sort_by_key(|cursor| cursor.start_key());
}

/// Searches sorted cursors for the key of a start (`binary_search_by_key`).
#[verifier::external_body]
fn search_start(cursors: &Vec<Cursor>, key: (usize, usize, u8)) -> (r: Result<usize, usize>)
    ensures
        (forall|i: int, j: int|
            0 <= i < j < cursors@.len() ==> !key_lt(
                #[trigger] spec_start_key(cursors@[j]),
                #[trigger] spec_start_key(cursors@[i]),
            )) ==> match r {
            Ok(index) => index < cursors@.len() && spec_start_key(cursors@[index as int]) == key,
            Err(index) => index <= cursors@.len() && (forall|j: int|
                0 <= j < index ==> key_lt(#[trigger] spec_start_key(cursors@[j]), key)) && (forall|j: int|
                index <= j < cursors@.len() ==> key_lt(key, #[trigger] spec_start_key(cursors@[j]))),
        },
{
    cursors.binary_search_by_key(&key, |cursor| cursor.start_key())
}

/// A set of cursors, ordered by their starts, with cursors that touch or
/// overlap merged.
#[derive(Clone, Debug, Default, PartialEq, Eq, Hash)]
pub struct CursorSet {
    cursors: Vec<Cursor>,
}

impl View for CursorSet {
    type V = Seq<Cursor>;

    closed spec fn view(&self) -> Seq<Cursor> {
        self.cursors@
    }
}

/// The cursors of a set, front to back.
#[derive(Clone, Debug)]
pub struct Iter<'a> {
    cursors: &'a [Cursor],
    index: usize,
}

impl<'a> Iter<'a> {
    /// The cursors that are still to come.
    pub closed spec fn rest(&self) -> Seq<Cursor> {
        self.cursors@.skip(self.index as int)
    }

    pub closed spec fn wf(&self) -> bool {
        self.index <= self.cursors@.len()
    }

    /// The cursor that `next` would give, without moving on.
    pub fn peek(&self) -> (r: Option<Cursor>)
        requires
            self.wf(),
        ensures
            self.rest().len() == 0 ==> r is None,
            self.rest().len() > 0 ==> r == Some(self.rest()[0]),
    {
        if self.index < self.cursors.len() {
            Some(self.cursors[self.index])
        } else {
            None
        }
    }

    pub fn next(&mut self) -> (r: Option<Cursor>)
        requires
            old(self).wf(),
        ensures
            final(self).wf(),
            old(self).rest().len() == 0 ==> r is None && final(self).rest() == old(self).rest(),
            old(self).rest().len() > 0 ==> r == Some(old(self).rest()[0]) && final(self).rest()
                == old(self).rest().drop_first(),
    {
        if self.index < self.cursors.len() {
            let cursor = self.cursors[self.index];
            self.index = self.index + 1;
            proof {
                assert(old(self).rest().drop_first() =~= self.rest());
            }
            Some(cursor)
        } else {
            None
        }
    }
}

impl CursorSet {
    pub closed spec fn wf(&self) -> bool {
        sorted_by_start(self.cursors@) && apart(self.cursors@)
    }

    /// The cursors of a set are in order of their starts, and no two of them
    /// merge: they neither overlap nor touch.
    pub proof fn lemma_apart(&self)
        requires
            self.wf(),
        ensures
            sorted_by_start(self@),
            forall|i: int, j: int|
                0 <= i < j < self@.len() ==> (#[trigger] self@[i]).spec_merge(#[trigger] self@[j]) is None,
    {
    }

    /// Inserting a cursor into a set leaves a set whose cursors are in order
    /// of their starts, no two of which merge, and which holds at least one
    /// cursor and at most one more than before.
    pub proof fn lemma_insert_keeps_set(before: CursorSet, after: CursorSet, cursor: Cursor)
        requires
            before.wf(),
            exists|index: int|
                insertion_point(before@, spec_start_key(cursor), index) && after@ == inserted(
                    before@,
                    cursor,
                    index,
                ),
        ensures
            sorted_by_start(after@),
            apart(after@),
            1 <= after@.len() <= before@.len() + 1,
    {
        let index = choose|index: int|
            insertion_point(before@, spec_start_key(cursor), index) && after@ == inserted(before@, cursor, index);
        lemma_inserted_len(before@, cursor, index);
        let s = before@;
        let with = s.insert(index, cursor);
        lemma_insert_sorted(s, cursor, index);
        lemma_apart_insert(s, cursor, index);
        if index > 0 && with[index - 1].spec_merge(with[index]) is Some {
            assert(with[index - 1] == s[index - 1] && with[index] == cursor);
            lemma_merge_keeps_sorted(with, index - 1);
            lemma_merged_forward_keeps(
                with.update(index - 1, with[index - 1].spec_merge(with[index])->0).remove(index),
                index - 1,
            );
        } else {
            if index > 0 {
                assert(with[index - 1] == s[index - 1] && with[index] == cursor);
            }
            lemma_merged_forward_keeps(with, index);
        }
    }

    pub fn new() -> (s: Self)
        ensures
            s.wf(),
            s@ == Seq::<Cursor>::empty(),
    {
        CursorSet { cursors: Vec::new() }
    }

    pub fn is_empty(&self) -> (b: bool)
        ensures
            b == (self@.len() == 0),
    {
        self.cursors.len() == 0
    }

    pub fn len(&self) -> (n: usize)
        ensures
            n == self@.len(),
    {
        self.cursors.len()
    }

    pub fn iter(&self) -> (it: Iter<'_>)
        ensures
            it.wf(),
            it.rest() == self@,
    {
        let it = Iter { cursors: self.cursors.as_slice(), index: 0 };
        proof {
            assert(it.rest() =~= self@);
        }
        it
    }

    /// Replaces each cursor `c` by `f(c)`, then sorts and merges them.
    pub fn update<F: Fn(Cursor) -> Cursor>(&mut self, f: F)
        requires
            forall|c: Cursor| #[trigger] f.requires((c,)),
        ensures
            final(self).wf(),
            exists|images: Seq<Cursor>, sorted: Seq<Cursor>|
                {
                    &&& images.len() == old(self)@.len()
                    &&& (forall|i: int| 0 <= i < images.len() ==> f.ensures((old(self)@[i],), #[trigger] images[i]))
                    &&& stable_sorted(images, sorted)
                    &&& final(self)@ == merged(sorted)
                },
            old(self).wf() && (forall|c: Cursor, d: Cursor| #[trigger] f.ensures((c,), d) ==> d == c)
                ==> final(self)@ == old(self)@,
    {
        let ghost old_cursors = self.cursors@;
        let mut i: usize = 0;
        while i < self.cursors.len()
            invariant
                self.cursors@.len() == old_cursors.len(),
                forall|c: Cursor| #[trigger] f.requires((c,)),
                forall|j: int| i <= j < old_cursors.len() ==> self.cursors@[j] == old_cursors[j],
                forall|j: int| 0 <= j < i ==> f.ensures((old_cursors[j],), #[trigger] self.cursors@[j]),
            decreases old_cursors.len() - i,
        {
            let cursor = f(self.cursors[i]);
            self.cursors.set(i, cursor);
            i = i + 1;
        }
        let ghost images = self.cursors@;
        let ghost was_wf = sorted_by_start(old_cursors) && apart(old_cursors);
        self.normalize();
        proof {
            if was_wf && (forall|c: Cursor, d: Cursor| #[trigger] f.ensures((c,), d) ==> d == c) {
                assert forall|i: int| 0 <= i < images.len() implies images[i] == old_cursors[i] by {
                    assert(f.ensures((old_cursors[i],), images[i]));
                }
                assert(images =~= old_cursors);
                let sorted = choose|sorted: Seq<Cursor>| stable_sorted(images, sorted) && self.cursors@ == merged(sorted);
                lemma_stable_sort_of_sorted(images, sorted);
                lemma_merged_of_apart(images);
            }
            assert forall|i: int| 0 <= i < images.len() implies f.ensures((old_cursors[i],), #[trigger] images[i]) by {
            }
        }
    }

    /// Inserts a cursor and merges it with the cursors it touches or overlaps.
    pub fn insert(&mut self, cursor: Cursor)
        requires
            old(self).wf(),
        ensures
            final(self).wf(),
            exists|index: int|
                insertion_point(old(self)@, spec_start_key(cursor), index) && final(self)@ == inserted(
                    old(self)@,
                    cursor,
                    index,
                ),
            1 <= final(self)@.len() <= old(self)@.len() + 1,
    {
        let ghost s = self.cursors@;
        let key = cursor.start_key();
        proof {
            lemma_sorted_keys(s);
        }
        let found = search_start(&self.cursors, key);
        let mut index = match found {
            Ok(index) => index,
            Err(index) => index,
        };
        proof {
            match found {
                Ok(i) => {
                    assert forall|j: int| 0 <= j < index implies !key_lt(key, #[trigger] spec_start_key(s[j])) by {
                        assert(!key_lt(spec_start_key(s[index as int]), spec_start_key(s[j])));
                    }
                    assert forall|j: int| index <= j < s.len() implies !key_lt(#[trigger] spec_start_key(s[j]), key) by {
                        if j > index {
                            assert(!key_lt(spec_start_key(s[j]), spec_start_key(s[index as int])));
                        }
                    }
                },
                Err(i) => {},
            }
            assert(insertion_point(s, key, index as int));
        }
        let ghost i0 = index as int;
        self.cursors.insert(index, cursor);
        let ghost with = self.cursors@;
        proof {
            lemma_insert_sorted(s, cursor, i0);
            lemma_apart_insert(s, cursor, i0);
            if i0 > 0 {
                assert(with[i0 - 1] == s[i0 - 1] && with[i0] == cursor);
            }
        }
        if index > 0 && self.merge(index - 1) {
            index = index - 1;
        }
        let ghost start = self.cursors@;
        let ghost start_index = index as int;
        proof {
            assert(merged_forward(start, start_index) == inserted(s, cursor, i0));
        }
        loop
            invariant
                sorted_by_start(self.cursors@),
                apart_but_after(self.cursors@, index as int),
                0 <= index < self.cursors@.len(),
                merged_forward(self.cursors@, index as int) == merged_forward(start, start_index),
            ensures
                sorted_by_start(self.cursors@),
                apart(self.cursors@),
                self.cursors@ == merged_forward(start, start_index),
            decreases self.cursors@.len(),
        {
            if index >= self.cursors.len() - 1 {
                proof {
                    lemma_apart_settled(self.cursors@, index as int);
                }
                break;
            }
            let ghost before = self.cursors@;
            if !self.merge(index) {
                proof {
                    lemma_apart_settled(before, index as int);
                }
                break;
            }
            proof {
                lemma_apart_but_after_merge(before, index as int);
            }
        }
        proof {
            assert(insertion_point(s, spec_start_key(cursor), i0) && self.cursors@ == inserted(s, cursor, i0));
            assert(old(self)@ == s);
            assert(insertion_point(old(self)@, spec_start_key(cursor), i0) && self@ == inserted(
                old(self)@,
                cursor,
                i0,
            ));
            lemma_inserted_len(s, cursor, i0);
        }
    }

    /// Keeps the cursors for which `f` holds.
    pub fn retain<F: Fn(Cursor) -> bool>(&mut self, f: F)
        requires
            old(self).wf(),
            forall|c: Cursor| #[trigger] f.requires((c,)),
        ensures
            final(self).wf(),
            exists|kept: Seq<bool>|
                {
                    &&& kept.len() == old(self)@.len()
                    &&& (forall|i: int| 0 <= i < kept.len() ==> f.ensures((old(self)@[i],), #[trigger] kept[i]))
                    &&& final(self)@ == selected(old(self)@, kept)
                },
    {
        let ghost s = self.cursors@;
        let mut result: Vec<Cursor> = Vec::new();
        let ghost mut kept: Seq<bool> = Seq::empty();
        let mut i: usize = 0;
        while i < self.cursors.len()
            invariant
                self.cursors@ == s,
                sorted_by_start(s),
                forall|c: Cursor| #[trigger] f.requires((c,)),
                i <= s.len(),
                kept.len() == i,
                forall|j: int| 0 <= j < i ==> f.ensures((s[j],), #[trigger] kept[j]),
                result@ == selected(s.take(i as int), kept),
                sorted_by_start(result@),
                forall|x: int, j: int|
                    0 <= x < result@.len() && i <= j < s.len() ==> !(#[trigger] s[j].spec_start()).spec_lt(
                        #[trigger] result@[x].spec_start(),
                    ),
                apart(s),
                apart(result@),
                forall|x: int, j: int|
                    0 <= x < result@.len() && i <= j < s.len() ==> (#[trigger] result@[x]).spec_merge(#[trigger] s[j])
                        is None,
            decreases s.len() - i,
        {
            let cursor = self.cursors[i];
            let keep = f(cursor);
            let ghost before = result@;
            proof {
                assert(s.take(i + 1).drop_last() =~= s.take(i as int));
                assert(kept.push(keep).drop_last() =~= kept);
                kept = kept.push(keep);
            }
            if keep {
                result.push(cursor);
                proof {
                    assert forall|x: int, y: int| 0 <= x < y < result@.len() implies !(#[trigger] result@[y].spec_start()).spec_lt(
                        #[trigger] result@[x].spec_start(),
                    ) by {
                        if y == result@.len() - 1 {
                            assert(result@[x] == before[x]);
                            assert(!s[i as int].spec_start().spec_lt(before[x].spec_start()));
                        } else {
                            assert(result@[x] == before[x]);
                            assert(result@[y] == before[y]);
                        }
                    }
                    assert forall|x: int, y: int| 0 <= x < y < result@.len() implies (#[trigger] result@[x]).spec_merge(
                        #[trigger] result@[y],
                    ) is None by {
                        assert(result@[x] == before[x]);
                        if y < result@.len() - 1 {
                            assert(result@[y] == before[y]);
                        } else {
                            assert(result@[y] == s[i as int]);
                        }
                    }
                    assert forall|x: int, j: int| 0 <= x < result@.len() && i + 1 <= j < s.len() implies (
                    #[trigger] result@[x]).spec_merge(#[trigger] s[j]) is None by {
                        if x < result@.len() - 1 {
                            assert(result@[x] == before[x]);
                        }
                    }
                    assert forall|x: int, j: int| 0 <= x < result@.len() && i + 1 <= j < s.len() implies !(
                    #[trigger] s[j].spec_start()).spec_lt(#[trigger] result@[x].spec_start()) by {
                        if x == result@.len() - 1 {
                            assert(!s[j].spec_start().spec_lt(s[i as int].spec_start()));
                        } else {
                            assert(result@[x] == before[x]);
                            assert(!s[j].spec_start().spec_lt(before[x].spec_start()));
                        }
                    }
                }
            }
            i = i + 1;
        }
        proof {
            assert(s.take(i as int) =~= s);
        }
        self.cursors = result;
        proof {
            assert(self.cursors@ == selected(s, kept));
            assert(old(self)@ == s);
            assert(forall|i: int| 0 <= i < kept.len() ==> f.ensures((old(self)@[i],), #[trigger] kept[i]));
            assert(self@ == selected(old(self)@, kept));
        }
    }

    /// Removes all cursors.
    pub fn clear(&mut self)
        ensures
            final(self).wf(),
            final(self)@ == Seq::<Cursor>::empty(),
    {
        self.cursors.clear();
    }

    /// Sorts the cursors by their starts and merges them from left to right.
    fn normalize(&mut self)
        ensures
            final(self).wf(),
            exists|sorted: Seq<Cursor>|
                {
                    &&& stable_sorted(old(self)@, sorted)
                    &&& final(self)@ == merged(sorted)
                },
    {
        if self.cursors.len() == 0 {
            proof {
                assert(merged(self.cursors@) == self.cursors@);
            }
            return;
        }
        sort_by_start(&mut self.cursors);
        let ghost sorted = self.cursors@;
        proof {
            lemma_sorted_from_keys(sorted);
            assert(sorted.take(1) == merged(sorted.take(1)));
            assert(apart(self.cursors@.take(1)));
        }
        let mut index: usize = 0;
        let ghost mut k: int = 0;
        while index < self.cursors.len() - 1
            invariant
                sorted_by_start(sorted),
                sorted.len() > 0,
                0 <= index < self.cursors@.len(),
                0 <= k < sorted.len(),
                self.cursors@.take(index + 1) == merged(sorted.take(k + 1)),
                self.cursors@.skip(index + 1) == sorted.skip(k + 1),
                sorted_by_start(self.cursors@),
                apart(self.cursors@.take(index + 1)),
            decreases self.cursors@.len() - index,
        {
            let ghost before = self.cursors@;
            proof {
                assert(before.skip(index + 1).len() == sorted.skip(k + 1).len());
                let t = before.take(index + 1);
                assert forall|i: int, j: int| 0 <= i < j < t.len() implies !(#[trigger] t[j].spec_start()).spec_lt(
                    #[trigger] t[i].spec_start(),
                ) by {
                    assert(t[i] == before[i] && t[j] == before[j]);
                }
                assert(t.last() == before[index as int]);
                assert(!before[index + 1].spec_start().spec_lt(before[index as int].spec_start()));
            }
            if !self.merge(index) {
                proof {
                    lemma_merged_step(sorted, k, before, index as int);
                    k = k + 1;
                    let t = before.take(index + 1);
                    lemma_apart_push(t, before[index + 1]);
                    assert(before.take(index + 2) =~= t.push(before[index + 1]));
                }
                index = index + 1;
            } else {
                proof {
                    lemma_merged_step(sorted, k, before, index as int);
                    k = k + 1;
                    let t = before.take(index + 1);
                    lemma_apart_merge_last(t, before[index + 1]);
                    assert(self.cursors@.take(index + 1) =~= t.drop_last().push(
                        before[index as int].spec_merge(before[index + 1])->0,
                    ));
                }
            }
        }
        proof {
            assert(self.cursors@.skip(index + 1).len() == 0);
            assert(self.cursors@.take(index + 1) =~= self.cursors@);
            assert(sorted.take(k + 1) =~= sorted);
        }
    }

    /// Merges the cursor at `index` with the next one, if they merge.
    fn merge(&mut self, index: usize) -> (merged_cursors: bool)
        requires
            index + 1 < old(self)@.len(),
            sorted_by_start(old(self)@),
        ensures
            sorted_by_start(final(self)@),
            match old(self)@[index as int].spec_merge(old(self)@[index + 1]) {
                Some(cursor) => merged_cursors && final(self)@ == old(self)@.update(index as int, cursor).remove(
                    index + 1,
                ),
                None => !merged_cursors && final(self)@ == old(self)@,
            },
    {
        let ghost before = self.cursors@;
        // The length is read for the bound it gives: it fits in a usize.
        let _len = self.cursors.len();
        if let Some(merged_cursor) = self.cursors[index].merge(self.cursors[index + 1]) {
            self.cursors.set(index, merged_cursor);
            self.cursors.remove(index + 1);
            proof {
                lemma_merge_keeps_sorted(before, index as int);
            }
            true
        } else {
            false
        }
    }

    /// Adds cursors, then sorts and merges them all.
    pub fn extend(&mut self, cursors: Vec<Cursor>)
        ensures
            final(self).wf(),
            exists|sorted: Seq<Cursor>|
                {
                    &&& stable_sorted(old(self)@ + cursors@, sorted)
                    &&& final(self)@ == merged(sorted)
                },
            old(self).wf() && cursors@.len() == 0 ==> final(self)@ == old(self)@,
    {
        let ghost was_wf = self.wf();
        let ghost before = self.cursors@;
        let mut cursors = cursors;
        let ghost added = cursors@;
        self.cursors.append(&mut cursors);
        let ghost all = self.cursors@;
        self.normalize();
        proof {
            if was_wf && added.len() == 0 {
                assert(all =~= before);
                let sorted = choose|sorted: Seq<Cursor>| stable_sorted(all, sorted) && self.cursors@ == merged(sorted);
                lemma_stable_sort_of_sorted(all, sorted);
                lemma_merged_of_apart(all);
            }
        }
    }

    /// The set of the given cursors, sorted and merged.
    pub fn from_cursors(cursors: Vec<Cursor>) -> (s: Self)
        ensures
            s.wf(),
            exists|sorted: Seq<Cursor>|
                {
                    &&& stable_sorted(cursors@, sorted)
                    &&& s@ == merged(sorted)
                },
    {
        let mut set = CursorSet::new();
        set.extend(cursors);
        proof {
            assert(Seq::<Cursor>::empty() + cursors@ =~= cursors@);
        }
        set
    }
}

proof fn lemma_sorted_keys(s: Seq<Cursor>)
    requires
        sorted_by_start(s),
    ensures
        forall|i: int, j: int|
            0 <= i < j < s.len() ==> !key_lt(#[trigger] spec_start_key(s[j]), #[trigger] spec_start_key(s[i])),
{
    assert forall|i: int, j: int| 0 <= i < j < s.len() implies !key_lt(
        #[trigger] spec_start_key(s[j]),
        #[trigger] spec_start_key(s[i]),
    ) by {
        lemma_key_order(s[j], s[i]);
    }
}

proof fn lemma_sorted_from_keys(s: Seq<Cursor>)
    requires
        forall|i: int, j: int|
            0 <= i < j < s.len() ==> !key_lt(#[trigger] spec_start_key(s[j]), #[trigger] spec_start_key(s[i])),
    ensures
        sorted_by_start(s),
{
    assert forall|i: int, j: int| 0 <= i < j < s.len() implies !(#[trigger] s[j].spec_start()).spec_lt(
        #[trigger] s[i].spec_start(),
    ) by {
        lemma_key_order(s[j], s[i]);
        assert(!key_lt(spec_start_key(s[j]), spec_start_key(s[i])));
    }
}

proof fn lemma_insert_sorted(s: Seq<Cursor>, cursor: Cursor, index: int)
    requires
        sorted_by_start(s),
        insertion_point(s, spec_start_key(cursor), index),
    ensures
        sorted_by_start(s.insert(index, cursor)),
{
    let t = s.insert(index, cursor);
    assert forall|i: int, j: int| 0 <= i < j < t.len() implies !(#[trigger] t[j].spec_start()).spec_lt(
        #[trigger] t[i].spec_start(),
    ) by {
        lemma_key_order(t[j], t[i]);
        if i < index && j == index {
            lemma_key_order(cursor, s[i]);
        } else if i == index && j > index {
            lemma_key_order(s[j - 1], cursor);
        } else if i < index && j > index {
            assert(t[j] == s[j - 1]);
        }
    }
}

/// One more step of merging from left to right.
proof fn lemma_merged_step(sorted: Seq<Cursor>, k: int, before: Seq<Cursor>, index: int)
    requires
        0 <= k,
        k + 1 < sorted.len(),
        0 <= index,
        index + 1 < before.len(),
        before.take(index + 1) == merged(sorted.take(k + 1)),
        before.skip(index + 1) == sorted.skip(k + 1),
    ensures
        match before[index].spec_merge(before[index + 1]) {
            Some(m) => {
                let after = before.update(index, m).remove(index + 1);
                &&& after.take(index + 1) == merged(sorted.take(k + 2))
                &&& after.skip(index + 1) == sorted.skip(k + 2)
            },
            None => {
                &&& before.take(index + 2) == merged(sorted.take(k + 2))
                &&& before.skip(index + 2) == sorted.skip(k + 2)
            },
        },
{
    let t = sorted.take(k + 2);
    assert(t.drop_last() =~= sorted.take(k + 1));
    assert(before.skip(index + 1)[0] == before[index + 1]);
    assert(sorted.skip(k + 1)[0] == sorted[k + 1]);
    assert(t.last() == sorted[k + 1]);
    let kept = merged(sorted.take(k + 1));
    assert(kept.last() == before.take(index + 1).last());
    assert(before.take(index + 1).last() == before[index]);
    match before[index].spec_merge(before[index + 1]) {
        Some(m) => {
            let after = before.update(index, m).remove(index + 1);
            assert(after.take(index + 1) =~= before.take(index + 1).drop_last().push(m));
            assert(before.skip(index + 2) =~= before.skip(index + 1).skip(1));
            assert(sorted.skip(k + 2) =~= sorted.skip(k + 1).skip(1));
            assert(after.skip(index + 1) =~= before.skip(index + 2));
        },
        None => {
            assert(before.take(index + 2) =~= before.take(index + 1).push(before[index + 1]));
            assert(before.skip(index + 2) =~= before.skip(index + 1).skip(1));
            assert(sorted.skip(k + 2) =~= sorted.skip(k + 1).skip(1));
        },
    }
}

/// Replacing two neighbours by their merge keeps the cursors in order.
proof fn lemma_merge_keeps_sorted(before: Seq<Cursor>, index: int)
    requires
        sorted_by_start(before),
        0 <= index,
        index + 1 < before.len(),
        before[index].spec_merge(before[index + 1]) is Some,
    ensures
        sorted_by_start(
            before.update(index, before[index].spec_merge(before[index + 1])->0).remove(index + 1),
        ),
{
    let m = before[index].spec_merge(before[index + 1])->0;
    lemma_merge_start_between(before[index], before[index + 1]);
    let after = before.update(index, m).remove(index + 1);
    assert forall|i: int, j: int| 0 <= i < j < after.len() implies !(#[trigger] after[j].spec_start()).spec_lt(
        #[trigger] after[i].spec_start(),
    ) by {
        let bi = if i < index + 1 { i } else { i + 1 };
        let bj = if j < index + 1 { j } else { j + 1 };
        if i == index {
            assert(!before[bj].spec_start().spec_lt(before[index + 1].spec_start()) || bj == index + 1);
        } else if j == index {
            assert(!before[index].spec_start().spec_lt(before[bi].spec_start()));
        } else {
            assert(after[i] == before[bi]);
            assert(after[j] == before[bj]);
        }
    }
}

} // verus!
