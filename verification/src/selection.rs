use vstd::prelude::*;

verus! {

/// A run of the text, selected or not: it crosses `lines` line breaks and
/// then covers `columns` more columns of the line it ends on.
#[derive(Clone, Copy, Debug, PartialEq, Eq, Structural)]
pub struct SelectionSpan {
    pub lines: usize,
    pub columns: usize,
    pub is_included: bool,
}

/// A selected part of a line, in columns, with the first selected part of
/// the line drawn before it and of the line drawn after it, which it is
/// joined to.
#[derive(Clone, Copy, Debug, PartialEq, Eq)]
pub struct SelectionRect {
    pub line: usize,
    pub start_column: usize,
    pub end_column: usize,
    pub prev: Option<(usize, usize)>,
    pub next: Option<(usize, usize)>,
}

/// The spans from line `count` on: the spans that end before it are dropped
/// and the first one that reaches it loses the lines before it.
pub open spec fn skip_spans(spans: Seq<SelectionSpan>, count: int) -> Seq<SelectionSpan>
    decreases spans.len(),
{
    if spans.len() == 0 {
        spans
    } else if spans[0].lines >= count {
        seq![SelectionSpan { lines: (spans[0].lines - count) as usize, ..spans[0] }] + spans.drop_first()
    } else {
        skip_spans(spans.drop_first(), count - spans[0].lines)
    }
}

/// The selected parts of a line of `len` columns that the spans give from
/// column `start` on, the spans left for the next lines, and the column the
/// next line starts at: spans that end on the line give a part each when
/// included, and a span that goes on to the next line gives a part up to one
/// past the end of the line and is kept, one line shorter.
pub open spec fn line_rects(spans: Seq<SelectionSpan>, start: int, len: int) -> (
    Seq<(usize, usize)>,
    Seq<SelectionSpan>,
    int,
)
    decreases spans.len(),
{
    if spans.len() == 0 {
        (Seq::empty(), spans, start)
    } else {
        let span = spans[0];
        let end = if span.lines == 0 {
            start + span.columns
        } else {
            len + 1
        };
        let rect = if span.is_included {
            seq![(start as usize, end as usize)]
        } else {
            Seq::empty()
        };
        if span.lines == 0 {
            let r = line_rects(spans.drop_first(), end, len);
            (rect + r.0, r.1, r.2)
        } else {
            (rect, seq![SelectionSpan { lines: (span.lines - 1) as usize, ..span }] + spans.drop_first(), 0)
        }
    }
}

/// The selected parts of each of the lines of lengths `lens`, the first line
/// starting at column `start` with the spans `spans`.
pub open spec fn lines_rects(spans: Seq<SelectionSpan>, start: int, lens: Seq<usize>) -> Seq<Seq<(usize, usize)>>
    decreases lens.len(),
{
    if lens.len() == 0 {
        Seq::empty()
    } else {
        let r = line_rects(spans, start, lens[0] as int);
        seq![r.0] + lines_rects(r.1, r.2, lens.drop_first())
    }
}

/// The first part of a line, if any.
pub open spec fn first_rect(rects: Seq<(usize, usize)>) -> Option<(usize, usize)> {
    if rects.len() > 0 {
        Some(rects[0])
    } else {
        None
    }
}

/// The parts of one line, drawn on line `line` joined to `prev` and `next`.
pub open spec fn placed(
    rects: Seq<(usize, usize)>,
    line: int,
    prev: Option<(usize, usize)>,
    next: Option<(usize, usize)>,
) -> Seq<SelectionRect> {
    Seq::new(
        rects.len(),
        |i: int|
            SelectionRect {
                line: line as usize,
                start_column: rects[i].0,
                end_column: rects[i].1,
                prev,
                next,
            },
    )
}

/// The parts drawn for the lines before line `k` of the view: each line is
/// joined to the first part of the line before and of the line after it.
pub open spec fn drawn_before(parts: Seq<Seq<(usize, usize)>>, view_start: int, k: int) -> Seq<SelectionRect>
    decreases k,
{
    if k <= 0 {
        Seq::empty()
    } else {
        let j = k - 1;
        let prev = if j >= 1 {
            first_rect(parts[j - 1])
        } else {
            None
        };
        drawn_before(parts, view_start, j) + placed(parts[j], view_start + j, prev, first_rect(parts[j + 1]))
    }
}

/// The parts drawn for the lines of the view: every line but the last as
/// `drawn_before` says, then the last line, joined to the first part of the
/// line two lines up and to nothing below.
pub open spec fn drawn(parts: Seq<Seq<(usize, usize)>>, view_start: int) -> Seq<SelectionRect> {
    let m = parts.len() as int;
    if m == 0 {
        Seq::empty()
    } else {
        let prev = if m >= 3 {
            first_rect(parts[m - 3])
        } else {
            None
        };
        drawn_before(parts, view_start, m - 1) + placed(parts[m - 1], view_start + m - 1, prev, None)
    }
}

/// The columns the spans cover on their last lines, added up.
pub open spec fn total_columns(spans: Seq<SelectionSpan>) -> nat
    decreases spans.len(),
{
    if spans.len() == 0 {
        0
    } else {
        spans[0].columns as nat + total_columns(spans.drop_first())
    }
}

/// The spans still to come: `head` and the spans after `spans[i]`, or none
/// once `i` is past the end.
pub open spec fn remaining(spans: Seq<SelectionSpan>, head: SelectionSpan, i: int) -> Seq<SelectionSpan> {
    if 0 <= i < spans.len() {
        seq![head] + spans.skip(i + 1)
    } else {
        Seq::empty()
    }
}

/// Skipping lines keeps the columns of the spans or drops some.
proof fn lemma_skip_total(spans: Seq<SelectionSpan>, count: int)
    ensures
        total_columns(skip_spans(spans, count)) <= total_columns(spans),
    decreases spans.len(),
{
    if spans.len() > 0 {
        if spans[0].lines >= count {
            let head = SelectionSpan { lines: (spans[0].lines - count) as usize, ..spans[0] };
            assert((seq![head] + spans.drop_first()).drop_first() =~= spans.drop_first());
        } else {
            lemma_skip_total(spans.drop_first(), count - spans[0].lines);
        }
    }
}

/// None of the spans is selected.
pub open spec fn none_included(spans: Seq<SelectionSpan>) -> bool {
    forall|i: int| 0 <= i < spans.len() ==> !(#[trigger] spans[i]).is_included
}

proof fn lemma_skip_unselected(spans: Seq<SelectionSpan>, count: int)
    requires
        none_included(spans),
    ensures
        none_included(skip_spans(spans, count)),
    decreases spans.len(),
{
    if spans.len() > 0 {
        if spans[0].lines >= count {
            let head = SelectionSpan { lines: (spans[0].lines - count) as usize, ..spans[0] };
            let r = seq![head] + spans.drop_first();
            assert forall|i: int| 0 <= i < r.len() implies !(#[trigger] r[i]).is_included by {
                if i > 0 {
                    assert(r[i] == spans[i]);
                }
            }
        } else {
            assert(none_included(spans.drop_first())) by {
                assert forall|i: int| 0 <= i < spans.drop_first().len() implies !(
                #[trigger] spans.drop_first()[i]).is_included by {
                    assert(spans.drop_first()[i] == spans[i + 1]);
                }
            }
            lemma_skip_unselected(spans.drop_first(), count - spans[0].lines);
        }
    }
}

proof fn lemma_line_unselected(spans: Seq<SelectionSpan>, start: int, len: int)
    requires
        none_included(spans),
    ensures
        line_rects(spans, start, len).0.len() == 0,
        none_included(line_rects(spans, start, len).1),
    decreases spans.len(),
{
    if spans.len() > 0 {
        let span = spans[0];
        assert(!span.is_included);
        assert(none_included(spans.drop_first())) by {
            assert forall|i: int| 0 <= i < spans.drop_first().len() implies !(
            #[trigger] spans.drop_first()[i]).is_included by {
                assert(spans.drop_first()[i] == spans[i + 1]);
            }
        }
        if span.lines == 0 {
            let end = start + span.columns;
            lemma_line_unselected(spans.drop_first(), end, len);
            assert(Seq::<(usize, usize)>::empty() + line_rects(spans.drop_first(), end, len).0 =~= line_rects(
                spans.drop_first(),
                end,
                len,
            ).0);
        } else {
            let rest = seq![SelectionSpan { lines: (span.lines - 1) as usize, ..span }] + spans.drop_first();
            assert forall|i: int| 0 <= i < rest.len() implies !(#[trigger] rest[i]).is_included by {
                if i > 0 {
                    assert(rest[i] == spans[i]);
                }
            }
        }
    }
}

proof fn lemma_lines_unselected(spans: Seq<SelectionSpan>, start: int, lens: Seq<usize>)
    requires
        none_included(spans),
    ensures
        lines_rects(spans, start, lens).len() == lens.len(),
        forall|k: int| 0 <= k < lens.len() ==> (#[trigger] lines_rects(spans, start, lens)[k]).len() == 0,
    decreases lens.len(),
{
    if lens.len() > 0 {
        let r = line_rects(spans, start, lens[0] as int);
        lemma_line_unselected(spans, start, lens[0] as int);
        lemma_lines_unselected(r.1, r.2, lens.drop_first());
        let all = lines_rects(spans, start, lens);
        assert forall|k: int| 0 <= k < lens.len() implies (#[trigger] all[k]).len() == 0 by {
            if k > 0 {
                assert(all[k] == lines_rects(r.1, r.2, lens.drop_first())[k - 1]);
            }
        }
    }
}

proof fn lemma_drawn_before_empty(parts: Seq<Seq<(usize, usize)>>, view_start: int, k: int)
    requires
        0 <= k < parts.len(),
        forall|j: int| 0 <= j < parts.len() ==> (#[trigger] parts[j]).len() == 0,
    ensures
        drawn_before(parts, view_start, k).len() == 0,
    decreases k,
{
    if k > 0 {
        lemma_drawn_before_empty(parts, view_start, k - 1);
        assert(parts[k - 1].len() == 0);
    }
}

/// When no span is selected, nothing is drawn, whatever the lines and the
/// view.
pub proof fn lemma_nothing_selected(spans: Seq<SelectionSpan>, line_lengths: Seq<usize>, view_start: int, view_end: int)
    requires
        0 <= view_start <= view_end <= line_lengths.len(),
        forall|i: int| 0 <= i < spans.len() ==> !(#[trigger] spans[i]).is_included,
    ensures
        drawn(lines_rects(skip_spans(spans, view_start), 0, line_lengths.subrange(view_start, view_end)), view_start).len()
            == 0,
{
    lemma_skip_unselected(spans, view_start);
    let lens = line_lengths.subrange(view_start, view_end);
    let parts = lines_rects(skip_spans(spans, view_start), 0, lens);
    lemma_lines_unselected(skip_spans(spans, view_start), 0, lens);
    if parts.len() > 0 {
        lemma_drawn_before_empty(parts, view_start, parts.len() - 1);
        assert(parts[parts.len() - 1].len() == 0);
    }
}

/// A selection within the first line, from column `a` for `k` columns, is
/// drawn as one part of that line from `a` to `a + k`, joined to nothing.
pub proof fn lemma_selection_within_a_line(a: usize, k: usize, len: usize)
    requires
        a + k <= len,
    ensures
        drawn(
            lines_rects(
                skip_spans(
                    seq![
                        SelectionSpan { lines: 0, columns: a, is_included: false },
                        SelectionSpan { lines: 0, columns: k, is_included: true },
                    ],
                    0,
                ),
                0,
                seq![len],
            ),
            0,
        ) == seq![SelectionRect { line: 0, start_column: a, end_column: (a + k) as usize, prev: None, next: None }],
{
    let spans = seq![
        SelectionSpan { lines: 0, columns: a, is_included: false },
        SelectionSpan { lines: 0, columns: k, is_included: true },
    ];
    assert(skip_spans(spans, 0) =~= spans) by {
        assert(seq![SelectionSpan { lines: 0, columns: a, is_included: false }] + spans.drop_first() =~= spans);
    }
    let tail = spans.drop_first();
    assert(tail.drop_first().len() == 0);
    assert(line_rects(tail.drop_first(), a + k, len as int) == (
        Seq::<(usize, usize)>::empty(),
        tail.drop_first(),
        a + k,
    ));
    assert(line_rects(tail, a as int, len as int).0 =~= seq![(a, (a + k) as usize)]);
    assert(line_rects(spans, 0, len as int).0 =~= seq![(a, (a + k) as usize)]);
    let lens = seq![len];
    let r = line_rects(spans, 0, len as int);
    assert(lens.drop_first().len() == 0);
    assert(lines_rects(r.1, r.2, lens.drop_first()) =~= Seq::<Seq<(usize, usize)>>::empty());
    assert(lines_rects(spans, 0, lens) == seq![r.0] + lines_rects(r.1, r.2, lens.drop_first()));
    assert(lines_rects(spans, 0, lens) =~= seq![r.0]);
    let parts = seq![seq![(a, (a + k) as usize)]];
    assert(drawn_before(parts, 0, 0).len() == 0);
    assert(placed(parts[0], 0, None, None) =~= seq![
        SelectionRect { line: 0, start_column: a, end_column: (a + k) as usize, prev: None, next: None },
    ]);
    assert(drawn(parts, 0) =~= Seq::<SelectionRect>::empty() + placed(parts[0], 0, None, None));
}

/// Drops the spans that end before line `count` and shortens the one that
/// reaches it.
fn skip_lines(spans: &Vec<SelectionSpan>, count: usize) -> (r: (SelectionSpan, usize))
    ensures
        remaining(spans@, r.0, r.1 as int) == skip_spans(spans@, count as int),
        r.1 <= spans@.len(),
{
    let mut i: usize = 0;
    let mut c: usize = count;
    proof {
        assert(spans@.skip(0) =~= spans@);
    }
    while i < spans.len()
        invariant
            i <= spans@.len(),
            skip_spans(spans@.skip(i as int), c as int) == skip_spans(spans@, count as int),
        decreases spans@.len() - i,
    {
        let span = spans[i];
        proof {
            assert(spans@.skip(i as int)[0] == span);
            assert(spans@.skip(i as int).drop_first() =~= spans@.skip(i + 1));
        }
        if span.lines >= c {
            let head = SelectionSpan { lines: span.lines - c, ..span };
            proof {
                assert(seq![head] + spans@.skip(i + 1) == skip_spans(spans@.skip(i as int), c as int));
            }
            return (head, i);
        }
        c = c - span.lines;
        i = i + 1;
    }
    proof {
        assert(spans@.skip(i as int).len() == 0);
    }
    (SelectionSpan { lines: 0, columns: 0, is_included: false }, i)
}

/// The selected parts of a line of `len` columns, from column `start` on
/// with the spans `remaining(spans, first, from)`, and what is left for the
/// next line.
fn line_parts(spans: &Vec<SelectionSpan>, first: SelectionSpan, from: usize, column: usize, len: usize) -> (r: (
    Vec<(usize, usize)>,
    SelectionSpan,
    usize,
    usize,
))
    requires
        from <= spans@.len(),
        len < usize::MAX,
        column + total_columns(remaining(spans@, first, from as int)) <= usize::MAX,
    ensures
        ({
            let expected = line_rects(remaining(spans@, first, from as int), column as int, len as int);
            &&& r.0@ == expected.0
            &&& remaining(spans@, r.1, r.2 as int) == expected.1
            &&& r.3 == expected.2
            &&& r.2 <= spans@.len()
            &&& r.3 + total_columns(remaining(spans@, r.1, r.2 as int)) <= column + total_columns(
                remaining(spans@, first, from as int),
            )
        }),
{
    let ghost expected = line_rects(remaining(spans@, first, from as int), column as int, len as int);
    let ghost budget = column + total_columns(remaining(spans@, first, from as int));
    let mut parts: Vec<(usize, usize)> = Vec::new();
    let mut head = first;
    let mut i = from;
    let mut start = column;
    loop
        invariant
            expected == line_rects(remaining(spans@, first, from as int), column as int, len as int),
            budget == column + total_columns(remaining(spans@, first, from as int)),
            i <= spans@.len(),
            len < usize::MAX,
            budget <= usize::MAX,
            start + total_columns(remaining(spans@, head, i as int)) <= budget,
            ({
                let rest = line_rects(remaining(spans@, head, i as int), start as int, len as int);
                &&& parts@ + rest.0 == expected.0
                &&& rest.1 == expected.1
                &&& rest.2 == expected.2
            }),
        decreases spans@.len() - i,
    {
        let ghost now = remaining(spans@, head, i as int);
        if i >= spans.len() {
            proof {
                assert(parts@ + Seq::<(usize, usize)>::empty() =~= parts@);
            }
            return (parts, head, i, start);
        }
        let span = head;
        proof {
            assert(now[0] == span);
            assert(now.drop_first() =~= spans@.skip(i + 1));
            assert(total_columns(now) == span.columns + total_columns(now.drop_first()));
        }
        let end = if span.lines == 0 {
            start + span.columns
        } else {
            len + 1
        };
        let ghost before = parts@;
        let ghost from = start;
        if span.is_included {
            parts.push((start, end));
        }
        if span.lines == 0 {
            start = end;
            i = i + 1;
            if i < spans.len() {
                head = spans[i];
                proof {
                    assert(seq![spans@[i as int]] + spans@.skip(i + 1) =~= spans@.skip(i as int));
                    assert(remaining(spans@, head, i as int) == now.drop_first());
                }
            } else {
                proof {
                    assert(now.drop_first().len() == 0);
                    assert(remaining(spans@, head, i as int) =~= now.drop_first());
                }
            }
            proof {
                let rest = line_rects(now.drop_first(), end as int, len as int);
                if span.is_included {
                    assert(parts@ + rest.0 =~= before + (seq![(from, end)] + rest.0));
                } else {
                    assert(parts@ + rest.0 =~= before + (Seq::<(usize, usize)>::empty() + rest.0));
                }
            }
        } else {
            head = SelectionSpan { lines: span.lines - 1, ..span };
            proof {
                assert(remaining(spans@, head, i as int) =~= seq![head] + now.drop_first());
                assert(remaining(spans@, head, i as int).drop_first() =~= now.drop_first());
                assert(total_columns(remaining(spans@, head, i as int)) == head.columns + total_columns(
                    now.drop_first(),
                ));
                if span.is_included {
                    assert(parts@ =~= before + seq![(start, end)]);
                } else {
                    assert(parts@ =~= before + Seq::<(usize, usize)>::empty());
                }
            }
            return (parts, head, i, 0);
        }
    }
}


/// `lines_rects` on the lines from `k` to `end`, one line unfolded.
proof fn lemma_lines_step(spans: Seq<SelectionSpan>, start: int, lens: Seq<usize>, k: int, end: int)
    requires
        0 <= k < end <= lens.len(),
    ensures
        ({
            let r = line_rects(spans, start, lens[k] as int);
            lines_rects(spans, start, lens.subrange(k, end)) == seq![r.0] + lines_rects(
                r.1,
                r.2,
                lens.subrange(k + 1, end),
            )
        }),
{
    assert(lens.subrange(k, end).drop_first() =~= lens.subrange(k + 1, end));
}

/// The first part of a line, if any.
fn first_part(parts: &Vec<(usize, usize)>) -> (r: Option<(usize, usize)>)
    ensures
        r == first_rect(parts@),
{
    if parts.len() > 0 {
        Some(parts[0])
    } else {
        None
    }
}

/// Draws the parts of one line, each joined to `prev` and `next`.
fn push_line(
    rects: &mut Vec<SelectionRect>,
    parts: &Vec<(usize, usize)>,
    line: usize,
    prev: Option<(usize, usize)>,
    next: Option<(usize, usize)>,
)
    ensures
        final(rects)@ == old(rects)@ + placed(parts@, line as int, prev, next),
{
    let ghost base = rects@;
    let mut t: usize = 0;
    while t < parts.len()
        invariant
            t <= parts@.len(),
            rects@ == base + placed(parts@.take(t as int), line as int, prev, next),
        decreases parts@.len() - t,
    {
        let (a, b) = parts[t];
        rects.push(SelectionRect { line, start_column: a, end_column: b, prev, next });
        proof {
            assert(placed(parts@.take(t + 1), line as int, prev, next) =~= placed(
                parts@.take(t as int),
                line as int,
                prev,
                next,
            ).push(SelectionRect { line, start_column: a, end_column: b, prev, next }));
        }
        t = t + 1;
    }
    proof {
        assert(parts@.take(t as int) =~= parts@);
    }
}

/// The selected parts of the lines `view_start..view_end` of a text whose
/// lines have the lengths `line_lengths`, as the spans `spans` select them
/// from the start of the text on. Each line's parts are joined to the first
/// part of the line above and of the line below; the last line of the view
/// is joined to nothing below, and to the first part of the line two lines
/// above it.
pub fn selection_rects(
    line_lengths: &Vec<usize>,
    spans: &Vec<SelectionSpan>,
    view_start: usize,
    view_end: usize,
) -> (rects: Vec<SelectionRect>)
    requires
        view_start <= view_end <= line_lengths@.len(),
        forall|q: int| 0 <= q < line_lengths@.len() ==> line_lengths@[q] < usize::MAX,
        total_columns(spans@) <= usize::MAX,
    ensures
        rects@ == drawn(
            lines_rects(
                skip_spans(spans@, view_start as int),
                0,
                line_lengths@.subrange(view_start as int, view_end as int),
            ),
            view_start as int,
        ),
{
    let (mut head, mut i) = skip_lines(spans, view_start);
    proof {
        lemma_skip_total(spans@, view_start as int);
    }
    let ghost all = lines_rects(
        skip_spans(spans@, view_start as int),
        0,
        line_lengths@.subrange(view_start as int, view_end as int),
    );
    let mut parts: Vec<Vec<(usize, usize)>> = Vec::new();
    let ghost mut done: Seq<Seq<(usize, usize)>> = Seq::empty();
    let mut start: usize = 0;
    let mut k: usize = view_start;
    proof {
        assert(done + all =~= all);
    }
    while k < view_end
        invariant
            view_start <= k <= view_end <= line_lengths@.len(),
            forall|q: int| 0 <= q < line_lengths@.len() ==> line_lengths@[q] < usize::MAX,
            i <= spans@.len(),
            start + total_columns(remaining(spans@, head, i as int)) <= usize::MAX,
            parts@.len() == done.len(),
            done.len() == k - view_start,
            forall|q: int| 0 <= q < done.len() ==> #[trigger] parts@[q]@ == done[q],
            all == done + lines_rects(
                remaining(spans@, head, i as int),
                start as int,
                line_lengths@.subrange(k as int, view_end as int),
            ),
        decreases view_end - k,
    {
        let ghost before = remaining(spans@, head, i as int);
        let ghost from = start;
        let (line, h, j, s) = line_parts(spans, head, i, start, line_lengths[k]);
        proof {
            lemma_lines_step(before, from as int, line_lengths@, k as int, view_end as int);
            let rest = lines_rects(
                remaining(spans@, h, j as int),
                s as int,
                line_lengths@.subrange(k + 1, view_end as int),
            );
            assert(done + (seq![line@] + rest) =~= done.push(line@) + rest);
        }
        parts.push(line);
        head = h;
        i = j;
        start = s;
        proof {
            done = done.push(line@);
        }
        k = k + 1;
    }
    proof {
        assert(line_lengths@.subrange(k as int, view_end as int).len() == 0);
        assert(done + Seq::<Seq<(usize, usize)>>::empty() =~= done);
        assert(all == done);
    }
    let mut rects: Vec<SelectionRect> = Vec::new();
    let m = parts.len();
    if m > 0 {
        let mut j: usize = 0;
        while j + 1 < m
            invariant
                m == parts@.len(),
                m == all.len(),
                view_start + m <= usize::MAX,
                j < m,
                forall|q: int| 0 <= q < all.len() ==> #[trigger] parts@[q]@ == all[q],
                rects@ == drawn_before(all, view_start as int, j as int),
            decreases m - j,
        {
            let prev = if j >= 1 {
                first_part(&parts[j - 1])
            } else {
                None
            };
            let next = first_part(&parts[j + 1]);
            proof {
                assert(parts@[j as int]@ == all[j as int]);
                assert(parts@[j + 1]@ == all[j + 1]);
                if j >= 1 {
                    assert(parts@[j - 1]@ == all[j - 1]);
                }
            }
            push_line(&mut rects, &parts[j], view_start + j, prev, next);
            j = j + 1;
        }
        let prev = if m >= 3 {
            first_part(&parts[m - 3])
        } else {
            None
        };
        proof {
            assert(parts@[m - 1]@ == all[m - 1]);
            if m >= 3 {
                assert(parts@[m - 3]@ == all[m - 3]);
            }
        }
        push_line(&mut rects, &parts[m - 1], view_start + m - 1, prev, None);
    }
    rects
}

} // verus!
