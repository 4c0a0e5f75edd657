use vstd::prelude::*;
use crate::regex::ast::{Ast, Quant};
use crate::regex::prog::{Instr, InstrPtr, Prog};

verus! {

/// Every instruction that `instr` may continue at is below `n`.
pub open spec fn instr_in_bounds(instr: Instr, n: nat) -> bool {
    match instr {
        Instr::Match => true,
        Instr::Empty(next) => next < n,
        Instr::Char(_, next) => next < n,
        Instr::Split(next_0, next_1) => next_0 < n && next_1 < n,
    }
}

/// A well-formed program: it starts at one of its instructions, and every
/// instruction continues at one of them.
pub open spec fn prog_wf(prog: Prog) -> bool {
    &&& prog.start < prog.instrs@.len()
    &&& forall|i: int|
        0 <= i < prog.instrs@.len() ==> #[trigger] instr_in_bounds(prog.instrs@[i], prog.instrs@.len())
}

/// The split that repeats or skips an expression starting at `start`, going
/// on at `out` otherwise; a non-greedy one prefers `out`.
pub open spec fn rep_split(non_greedy: bool, start: nat, out: nat) -> Instr {
    if non_greedy {
        Instr::Split(out as usize, start as usize)
    } else {
        Instr::Split(start as usize, out as usize)
    }
}

/// Where the instructions of `ast`, laid out from `base` on, start.
pub open spec fn start_of(ast: Ast, base: nat) -> nat
    decreases ast,
{
    match ast {
        Ast::Empty => base,
        Ast::Char(_) => base,
        Ast::Rep(a, quant, _) => match quant {
            Quant::Plus => start_of(*a, base),
            _ => base + a.size(),
        },
        Ast::Cat(a, _) => start_of(*a, base),
        Ast::Alt(a, b) => base + a.size() + b.size(),
    }
}

/// The instructions of `ast`, laid out from `base` on, that go on at `out`
/// once `ast` has matched: the instructions of the parts first, each part
/// laid out after the one before it, then the split that a repetition or an
/// alternation adds.
pub open spec fn compiled(ast: Ast, base: nat, out: nat) -> Seq<Instr>
    decreases ast,
{
    match ast {
        Ast::Empty => seq![Instr::Empty(out as usize)],
        Ast::Char(ch) => seq![Instr::Char(ch, out as usize)],
        Ast::Rep(a, quant, non_greedy) => {
            let split = base + a.size();
            let body_out = match quant {
                Quant::Quest => out,
                _ => split,
            };
            compiled(*a, base, body_out) + seq![rep_split(non_greedy, start_of(*a, base), out)]
        },
        Ast::Cat(a, b) => compiled(*a, base, start_of(*b, base + a.size())) + compiled(*b, base + a.size(), out),
        Ast::Alt(a, b) => compiled(*a, base, out) + compiled(*b, base + a.size(), out) + seq![
            Instr::Split(start_of(*a, base) as usize, start_of(*b, base + a.size()) as usize),
        ],
    }
}

/// The programs of the smallest expressions: the empty expression goes on to
/// the match, a character is consumed and then matches, two characters one
/// after the other are consumed in that order, and either of two characters
/// is a split, preferring the first, between them.
pub proof fn lemma_compile_small(a: char, b: char)
    ensures
        compiled(Ast::Empty, 0, 1) + seq![Instr::Match] == seq![Instr::Empty(1), Instr::Match],
        start_of(Ast::Empty, 0) == 0,
        compiled(Ast::Char(a), 0, 1) + seq![Instr::Match] == seq![Instr::Char(a, 1), Instr::Match],
        start_of(Ast::Char(a), 0) == 0,
        ({
            let cat = Ast::Cat(Box::new(Ast::Char(a)), Box::new(Ast::Char(b)));
            &&& cat.size() == 2
            &&& compiled(cat, 0, 2) + seq![Instr::Match] == seq![Instr::Char(a, 1), Instr::Char(b, 2), Instr::Match]
            &&& start_of(cat, 0) == 0
        }),
        ({
            let alt = Ast::Alt(Box::new(Ast::Char(a)), Box::new(Ast::Char(b)));
            &&& alt.size() == 3
            &&& compiled(alt, 0, 3) + seq![Instr::Match] == seq![
                Instr::Char(a, 3),
                Instr::Char(b, 3),
                Instr::Split(0, 1),
                Instr::Match,
            ]
            &&& start_of(alt, 0) == 2
        }),
{
    assert(compiled(Ast::Empty, 0, 1) + seq![Instr::Match] =~= seq![Instr::Empty(1), Instr::Match]);
    assert(compiled(Ast::Char(a), 0, 1) + seq![Instr::Match] =~= seq![Instr::Char(a, 1), Instr::Match]);
    assert(Ast::Char(a).size() == 1 && Ast::Char(b).size() == 1);
    assert(start_of(Ast::Char(a), 0) == 0 && start_of(Ast::Char(b), 1) == 1);
    assert(compiled(Ast::Char(a), 0, 1) == seq![Instr::Char(a, 1)]);
    assert(compiled(Ast::Char(b), 1, 2) == seq![Instr::Char(b, 2)]);
    assert(compiled(Ast::Char(a), 0, 3) == seq![Instr::Char(a, 3)]);
    assert(compiled(Ast::Char(b), 1, 3) == seq![Instr::Char(b, 3)]);
    let cat = Ast::Cat(Box::new(Ast::Char(a)), Box::new(Ast::Char(b)));
    assert(compiled(cat, 0, 2) == compiled(Ast::Char(a), 0, 1) + compiled(Ast::Char(b), 1, 2));
    assert(compiled(cat, 0, 2) + seq![Instr::Match] =~= seq![Instr::Char(a, 1), Instr::Char(b, 2), Instr::Match]);
    let alt = Ast::Alt(Box::new(Ast::Char(a)), Box::new(Ast::Char(b)));
    assert(compiled(alt, 0, 3) == compiled(Ast::Char(a), 0, 3) + compiled(Ast::Char(b), 1, 3) + seq![
        Instr::Split(0, 1),
    ]);
    assert(compiled(alt, 0, 3) + seq![Instr::Match] =~= seq![
        Instr::Char(a, 3),
        Instr::Char(b, 3),
        Instr::Split(0, 1),
        Instr::Match,
    ]);
}

/// A repeated character: the character, then a split between going back to
/// it and going on to the match, the character first unless the repetition
/// is non-greedy. After the character, `?` goes on to the match, `*` and `+`
/// back to the split; `+` starts at the character, `?` and `*` at the split.
pub proof fn lemma_compile_repeated_char(c: char, quant: Quant, non_greedy: bool)
    ensures
        ({
            let rep = Ast::Rep(Box::new(Ast::Char(c)), quant, non_greedy);
            let after = if quant == Quant::Quest {
                2usize
            } else {
                1usize
            };
            let split = if non_greedy {
                Instr::Split(2, 0)
            } else {
                Instr::Split(0, 2)
            };
            &&& rep.size() == 2
            &&& compiled(rep, 0, 2) + seq![Instr::Match] == seq![Instr::Char(c, after), split, Instr::Match]
            &&& start_of(rep, 0) == if quant == Quant::Plus {
                0nat
            } else {
                1nat
            }
        }),
{
    let rep = Ast::Rep(Box::new(Ast::Char(c)), quant, non_greedy);
    let after = if quant == Quant::Quest {
        2usize
    } else {
        1usize
    };
    assert(Ast::Char(c).size() == 1);
    assert(start_of(Ast::Char(c), 0) == 0);
    assert(compiled(Ast::Char(c), 0, after as nat) == seq![Instr::Char(c, after)]);
    assert(compiled(rep, 0, 2) == compiled(Ast::Char(c), 0, after as nat) + seq![rep_split(non_greedy, 0, 2)]);
    assert(compiled(rep, 0, 2) + seq![Instr::Match] =~= seq![
        Instr::Char(c, after),
        rep_split(non_greedy, 0, 2),
        Instr::Match,
    ]);
}

/// A compiled expression: where it starts, and the instructions whose
/// continuation is not known yet.
#[derive(Debug, PartialEq, Eq, Hash)]
struct Frag {
    start: InstrPtr,
    ends: Vec<InstrPtr>,
}

/// An instruction, or one that still misses its continuation.
#[derive(Clone, Copy, Debug, PartialEq, Eq, Structural, Hash)]
enum InstrMaybeHole {
    Instr(Instr),
    InstrHole(InstrHole),
}

/// An instruction that misses its continuation.
#[derive(Clone, Copy, Debug, PartialEq, Eq, Structural, Hash)]
enum InstrHole {
    Empty,
    Char(char),
    /// A split whose first branch is known.
    Split0(InstrPtr),
    /// A split whose second branch is known.
    Split1(InstrPtr),
}

impl InstrHole {
    spec fn spec_fill(self, out: InstrPtr) -> Instr {
        match self {
            InstrHole::Empty => Instr::Empty(out),
            InstrHole::Char(ch) => Instr::Char(ch, out),
            InstrHole::Split0(out_0) => Instr::Split(out_0, out),
            InstrHole::Split1(out_1) => Instr::Split(out, out_1),
        }
    }

    spec fn in_bounds(self, n: nat) -> bool {
        match self {
            InstrHole::Split0(next) => next < n,
            InstrHole::Split1(next) => next < n,
            _ => true,
        }
    }

    fn fill_hole(self, out: InstrPtr) -> (instr: Instr)
        ensures
            instr == self.spec_fill(out),
    {
        match self {
            InstrHole::Empty => Instr::Empty(out),
            InstrHole::Char(ch) => Instr::Char(ch, out),
            InstrHole::Split0(out_0) => Instr::Split(out_0, out),
            InstrHole::Split1(out_1) => Instr::Split(out, out_1),
        }
    }
}

impl InstrMaybeHole {
    spec fn in_bounds(self, n: nat) -> bool {
        match self {
            InstrMaybeHole::Instr(instr) => instr_in_bounds(instr, n),
            InstrMaybeHole::InstrHole(hole) => hole.in_bounds(n),
        }
    }

    spec fn hole(self) -> InstrHole {
        match self {
            InstrMaybeHole::InstrHole(hole) => hole,
            _ => InstrHole::Empty,
        }
    }

    spec fn filled(self, out: InstrPtr) -> InstrMaybeHole {
        InstrMaybeHole::Instr(self.hole().spec_fill(out))
    }

    /// The instruction, its continuation set to `out` if it misses one.
    spec fn filled_with(self, out: nat) -> Instr {
        match self {
            InstrMaybeHole::Instr(instr) => instr,
            InstrMaybeHole::InstrHole(hole) => hole.spec_fill(out as usize),
        }
    }

    fn into_instr(self) -> (instr: Instr)
        requires
            self is Instr,
        ensures
            InstrMaybeHole::Instr(instr) == self,
    {
        match self {
            InstrMaybeHole::Instr(instr) => instr,
            _ => vstd::pervasive::unreached(),
        }
    }

    fn fill_hole(&mut self, out: InstrPtr)
        requires
            *old(self) is InstrHole,
        ensures
            *final(self) == old(self).filled(out),
    {
        match *self {
            InstrMaybeHole::InstrHole(hole) => *self = InstrMaybeHole::Instr(hole.fill_hole(out)),
            _ => vstd::pervasive::unreached(),
        }
    }
}

/// `frag` is a well-formed fragment made of the instructions from `b` on.
spec fn frag_wf(instrs: Seq<InstrMaybeHole>, b: int, frag: Frag) -> bool {
    let n = instrs.len();
    &&& 0 <= b <= frag.start < n
    &&& frag.ends@.no_duplicates()
    &&& forall|k: int|
        0 <= k < frag.ends@.len() ==> b <= #[trigger] frag.ends@[k] < n && instrs[frag.ends@[k] as int] is InstrHole
    &&& forall|i: int| b <= i < n && (#[trigger] instrs[i]) is InstrHole ==> frag.ends@.contains(i as usize)
    &&& forall|i: int| b <= i < n ==> (#[trigger] instrs[i]).in_bounds(n)
}

/// The instructions from `b` to `e`, each hole continuing at `out`.
spec fn fill_range(instrs: Seq<InstrMaybeHole>, b: int, e: int, out: nat) -> Seq<Instr> {
    Seq::new((e - b) as nat, |i: int| instrs[b + i].filled_with(out))
}

/// Instructions laid out one after the other.
proof fn lemma_fill_range_split(instrs: Seq<InstrMaybeHole>, b: int, m: int, e: int, out: nat)
    requires
        b <= m <= e,
    ensures
        fill_range(instrs, b, e, out) == fill_range(instrs, b, m, out) + fill_range(instrs, m, e, out),
{
    assert(fill_range(instrs, b, e, out) =~= fill_range(instrs, b, m, out) + fill_range(instrs, m, e, out));
}

/// Instructions that did not change read the same.
proof fn lemma_fill_range_same(x: Seq<InstrMaybeHole>, y: Seq<InstrMaybeHole>, b: int, e: int, out: nat)
    requires
        0 <= b <= e <= x.len(),
        e <= y.len(),
        forall|i: int| b <= i < e ==> x[i] == y[i],
    ensures
        fill_range(x, b, e, out) == fill_range(y, b, e, out),
{
    assert(fill_range(x, b, e, out) =~= fill_range(y, b, e, out));
}

/// Once the holes of a fragment are filled with `to`, its instructions no
/// longer depend on where the holes would go.
proof fn lemma_fill_range_filled(
    before: Seq<InstrMaybeHole>,
    after: Seq<InstrMaybeHole>,
    ends: Seq<InstrPtr>,
    b: int,
    e: int,
    to: InstrPtr,
    out: nat,
)
    requires
        0 <= b <= e <= before.len(),
        e <= after.len(),
        e <= usize::MAX,
        forall|i: int| b <= i < e && (#[trigger] before[i]) is InstrHole ==> ends.contains(i as usize),
        forall|k: int| 0 <= k < ends.len() ==> before[#[trigger] ends[k] as int] is InstrHole,
        forall|i: int|
            b <= i < e ==> #[trigger] after[i] == if ends.contains(i as usize) {
                before[i].filled(to)
            } else {
                before[i]
            },
    ensures
        fill_range(after, b, e, out) == fill_range(before, b, e, to as nat),
{
    assert forall|i: int| 0 <= i < e - b implies #[trigger] fill_range(after, b, e, out)[i] == fill_range(
        before,
        b,
        e,
        to as nat,
    )[i] by {
        let j = b + i;
        assert(after[j] == if ends.contains(j as usize) {
            before[j].filled(to)
        } else {
            before[j]
        });
        assert(fill_range(after, b, e, out)[i] == after[j].filled_with(out));
        assert(fill_range(before, b, e, to as nat)[i] == before[j].filled_with(to as nat));
        if ends.contains(j as usize) {
            let k = choose|k: int| 0 <= k < ends.len() && ends[k] == j as usize;
            assert(before[ends[k] as int] is InstrHole);
            assert(before[j] is InstrHole);
        } else {
            if before[j] is InstrHole {
                assert(ends.contains(j as usize));
            }
        }
    }
    assert(fill_range(after, b, e, out) =~= fill_range(before, b, e, to as nat));
}

/// An instruction added at the end.
proof fn lemma_fill_range_push(before: Seq<InstrMaybeHole>, x: InstrMaybeHole, b: int, out: nat)
    requires
        0 <= b <= before.len(),
    ensures
        fill_range(before.push(x), b, before.len() as int + 1, out) == fill_range(before, b, before.len() as int, out)
            + seq![x.filled_with(out)],
{
    let after = before.push(x);
    let n = before.len() as int;
    lemma_fill_range_split(after, b, n, n + 1, out);
    lemma_fill_range_same(after, before, b, n, out);
    assert(fill_range(after, n, n + 1, out) =~= seq![x.filled_with(out)]);
}

/// A repeated fragment whose holes were filled with the split emitted after
/// it: its instructions go back to the split, and the split goes on at
/// wherever its hole is filled.
proof fn lemma_rep_exact(
    before: Seq<InstrMaybeHole>,
    emitted: Seq<InstrMaybeHole>,
    after: Seq<InstrMaybeHole>,
    b: int,
    ends: Seq<InstrPtr>,
    hole: InstrHole,
    out: nat,
)
    requires
        0 <= b <= before.len() < usize::MAX,
        emitted == before.push(InstrMaybeHole::InstrHole(hole)),
        after.len() == emitted.len(),
        forall|i: int| b <= i < before.len() && (#[trigger] before[i]) is InstrHole ==> ends.contains(i as usize),
        forall|k: int| 0 <= k < ends.len() ==> #[trigger] ends[k] < before.len() && before[ends[k] as int] is InstrHole,
        forall|i: int|
            0 <= i < emitted.len() ==> #[trigger] after[i] == if ends.contains(i as usize) {
                emitted[i].filled(before.len() as usize)
            } else {
                emitted[i]
            },
    ensures
        fill_range(after, b, before.len() as int + 1, out) == fill_range(before, b, before.len() as int, before.len())
            + seq![hole.spec_fill(out as usize)],
{
    let n = before.len() as int;
    assert forall|i: int| b <= i < n && (#[trigger] emitted[i]) is InstrHole implies ends.contains(i as usize) by {
        assert(emitted[i] == before[i]);
    }
    assert forall|k: int| 0 <= k < ends.len() implies emitted[#[trigger] ends[k] as int] is InstrHole by {
        assert(emitted[ends[k] as int] == before[ends[k] as int]);
    }
    assert forall|i: int| b <= i < n implies #[trigger] after[i] == if ends.contains(i as usize) {
        emitted[i].filled(n as usize)
    } else {
        emitted[i]
    } by {}
    lemma_fill_range_filled(emitted, after, ends, b, n, n as usize, out);
    lemma_fill_range_same(emitted, before, b, n, n as nat);
    if ends.contains(n as usize) {
        let k = choose|k: int| 0 <= k < ends.len() && ends[k] == n as usize;
        assert(ends[k] < n);
    }
    assert(after[n] == emitted[n]);
    lemma_fill_range_split(after, b, n, n + 1, out);
    assert(fill_range(after, n, n + 1, out) =~= seq![hole.spec_fill(out as usize)]);
}

struct CompileContext {
    instrs: Vec<InstrMaybeHole>,
}

impl CompileContext {
    /// Compiles `ast` into instructions appended to the ones emitted so far.
    fn compile(&mut self, ast: &Ast) -> (frag: Frag)
        requires
            old(self).instrs@.len() + ast.size() <= usize::MAX,
        ensures
            final(self).instrs@.len() == old(self).instrs@.len() + ast.size(),
            forall|i: int| 0 <= i < old(self).instrs@.len() ==> final(self).instrs@[i] == old(self).instrs@[i],
            frag_wf(final(self).instrs@, old(self).instrs@.len() as int, frag),
            frag.start == start_of(*ast, old(self).instrs@.len()),
            forall|out: nat|
                #[trigger] fill_range(
                    final(self).instrs@,
                    old(self).instrs@.len() as int,
                    final(self).instrs@.len() as int,
                    out,
                ) == compiled(*ast, old(self).instrs@.len(), out),
        decreases ast,
    {
        let ghost b = self.instrs@.len() as int;
        let ghost before = self.instrs@;
        match ast {
            Ast::Empty => {
                let frag = self.compile_empty();
                proof {
                    assert forall|out: nat| #[trigger] fill_range(self.instrs@, b, b + 1, out) == compiled(
                        *ast,
                        b as nat,
                        out,
                    ) by {
                        lemma_fill_range_push(before, InstrMaybeHole::InstrHole(InstrHole::Empty), b, out);
                        assert(fill_range(before, b, b, out) =~= Seq::<Instr>::empty());
                    }
                }
                frag
            },
            Ast::Char(ch) => {
                let frag = self.compile_char(*ch);
                proof {
                    assert forall|out: nat| #[trigger] fill_range(self.instrs@, b, b + 1, out) == compiled(
                        *ast,
                        b as nat,
                        out,
                    ) by {
                        lemma_fill_range_push(before, InstrMaybeHole::InstrHole(InstrHole::Char(*ch)), b, out);
                        assert(fill_range(before, b, b, out) =~= Seq::<Instr>::empty());
                    }
                }
                frag
            },
            Ast::Rep(inner, quant, non_greedy) => {
                let frag = self.compile(inner);
                let ghost middle = self.instrs@;
                let r = self.compile_rep(frag, *quant, *non_greedy, Ghost(b));
                proof {
                    let n = middle.len() as int;
                    assert forall|out: nat| #[trigger] fill_range(self.instrs@, b, n + 1, out) == compiled(
                        *ast,
                        b as nat,
                        out,
                    ) by {
                        let body_out = match *quant {
                            Quant::Quest => out,
                            _ => n as nat,
                        };
                        assert(fill_range(middle, b, n, body_out) == compiled(**inner, b as nat, body_out));
                    }
                }
                r
            },
            Ast::Cat(ast_0, ast_1) => {
                let frag_0 = self.compile(ast_0);
                let ghost m = self.instrs@.len() as int;
                let ghost middle = self.instrs@;
                let frag_1 = self.compile(ast_1);
                let ghost both = self.instrs@;
                proof {
                    assert(self.instrs@.subrange(0, m) =~= middle);
                }
                let frag = self.compile_cat(frag_0, frag_1, Ghost(b), Ghost(m));
                proof {
                    let n = both.len() as int;
                    assert forall|out: nat| #[trigger] fill_range(self.instrs@, b, n, out) == compiled(
                        *ast,
                        b as nat,
                        out,
                    ) by {
                        let s1 = frag_1.start as nat;
                        lemma_fill_range_same(both, middle, b, m, s1);
                        assert(fill_range(middle, b, m, s1) == compiled(**ast_0, b as nat, s1));
                        assert(fill_range(both, m, n, out) == compiled(**ast_1, m as nat, out));
                    }
                }
                frag
            },
            Ast::Alt(ast_0, ast_1) => {
                let frag_0 = self.compile(ast_0);
                let ghost m = self.instrs@.len() as int;
                let ghost middle = self.instrs@;
                let frag_1 = self.compile(ast_1);
                let ghost both = self.instrs@;
                proof {
                    assert(self.instrs@.subrange(0, m) =~= middle);
                }
                let frag = self.compile_alt(frag_0, frag_1, Ghost(b), Ghost(m));
                proof {
                    let n = both.len() as int;
                    assert forall|out: nat| #[trigger] fill_range(self.instrs@, b, n + 1, out) == compiled(
                        *ast,
                        b as nat,
                        out,
                    ) by {
                        lemma_fill_range_same(both, middle, b, m, out);
                        assert(fill_range(middle, b, m, out) == compiled(**ast_0, b as nat, out));
                        assert(fill_range(both, m, n, out) == compiled(**ast_1, m as nat, out));
                    }
                }
                frag
            },
        }
    }

    fn compile_empty(&mut self) -> (frag: Frag)
        requires
            old(self).instrs@.len() < usize::MAX,
        ensures
            final(self).instrs@ == old(self).instrs@.push(InstrMaybeHole::InstrHole(InstrHole::Empty)),
            frag_wf(final(self).instrs@, old(self).instrs@.len() as int, frag),
    {
        let instr = self.emit_instr_hole(InstrHole::Empty);
        let frag = Frag { start: instr, ends: vec![instr] };
        proof {
            assert(frag.ends@[0] == instr);
        }
        frag
    }

    fn compile_char(&mut self, ch: char) -> (frag: Frag)
        requires
            old(self).instrs@.len() < usize::MAX,
        ensures
            final(self).instrs@ == old(self).instrs@.push(InstrMaybeHole::InstrHole(InstrHole::Char(ch))),
            frag_wf(final(self).instrs@, old(self).instrs@.len() as int, frag),
    {
        let instr = self.emit_instr_hole(InstrHole::Char(ch));
        let frag = Frag { start: instr, ends: vec![instr] };
        proof {
            assert(frag.ends@[0] == instr);
        }
        frag
    }

    fn compile_rep(&mut self, frag: Frag, quant: Quant, non_greedy: bool, Ghost(b): Ghost<int>) -> (r: Frag)
        requires
            frag_wf(old(self).instrs@, b, frag),
            old(self).instrs@.len() < usize::MAX,
        ensures
            final(self).instrs@.len() == old(self).instrs@.len() + 1,
            forall|i: int| 0 <= i < b ==> final(self).instrs@[i] == old(self).instrs@[i],
            frag_wf(final(self).instrs@, b, r),
            r.start == match quant {
                Quant::Plus => frag.start,
                _ => old(self).instrs@.len() as usize,
            },
            forall|out: nat|
                #[trigger] fill_range(final(self).instrs@, b, old(self).instrs@.len() as int + 1, out) == fill_range(
                    old(self).instrs@,
                    b,
                    old(self).instrs@.len() as int,
                    match quant {
                        Quant::Quest => out,
                        _ => old(self).instrs@.len(),
                    },
                ) + seq![rep_split(non_greedy, frag.start as nat, out)],
    {
        let ghost before = self.instrs@;
        let mut frag = frag;
        let hole = if non_greedy {
            InstrHole::Split1(frag.start)
        } else {
            InstrHole::Split0(frag.start)
        };
        match quant {
            Quant::Quest => {
                let instr = self.emit_instr_hole(hole);
                let ghost ends = frag.ends@;
                frag.ends.push(instr);
                let r = Frag { start: instr, ends: frag.ends };
                proof {
                    let after = self.instrs@;
                    assert forall|out: nat| #[trigger] fill_range(after, b, before.len() as int + 1, out) == fill_range(
                        before,
                        b,
                        before.len() as int,
                        out,
                    ) + seq![rep_split(non_greedy, frag.start as nat, out)] by {
                        lemma_fill_range_push(before, InstrMaybeHole::InstrHole(hole), b, out);
                    }
                    assert(r.ends@ == ends.push(instr));
                    assert forall|x: int, y: int|
                        0 <= x < r.ends@.len() && 0 <= y < r.ends@.len() && x != y implies r.ends@[x]
                        != r.ends@[y] by {
                        if x < ends.len() && y < ends.len() {
                        } else if x < ends.len() {
                            assert(ends[x] < instr);
                        } else if y < ends.len() {
                            assert(ends[y] < instr);
                        }
                    }
                    assert forall|k: int| 0 <= k < r.ends@.len() implies b <= #[trigger] r.ends@[k]
                        < after.len() && after[r.ends@[k] as int] is InstrHole by {
                        if k < ends.len() {
                            assert(r.ends@[k] == ends[k]);
                        }
                    }
                    assert forall|i: int| b <= i < after.len() && (#[trigger] after[i]) is InstrHole implies r.ends@.contains(
                        i as usize,
                    ) by {
                        if i < instr {
                            assert(before[i] is InstrHole);
                            let k = choose|k: int| 0 <= k < ends.len() && ends[k] == i;
                            assert(r.ends@[k] == i);
                        } else {
                            assert(r.ends@[r.ends@.len() - 1] == i);
                        }
                    }
                    assert forall|i: int| b <= i < after.len() implies (#[trigger] after[i]).in_bounds(
                        after.len(),
                    ) by {
                        if i < instr {
                            lemma_in_bounds_mono(before[i], before.len(), after.len());
                        }
                    }
                }
                r
            },
            Quant::Star => {
                let instr = self.emit_instr_hole(hole);
                let ghost emitted = self.instrs@;
                proof {
                    assert forall|k: int| 0 <= k < frag.ends@.len() implies #[trigger] frag.ends@[k]
                        < emitted.len() && emitted[frag.ends@[k] as int] is InstrHole by {
                        assert(before[frag.ends@[k] as int] is InstrHole);
                    }
                }
                let ghost ends = frag.ends@;
                self.fill_holes(frag.ends, instr);
                let r = Frag { start: instr, ends: vec![instr] };
                proof {
                    assert(r.ends@ =~= seq![instr]);
                    lemma_rep_filled(before, emitted, self.instrs@, b, frag, r);
                    let after = self.instrs@;
                    assert forall|out: nat| #[trigger] fill_range(after, b, before.len() as int + 1, out) == fill_range(
                        before,
                        b,
                        before.len() as int,
                        before.len(),
                    ) + seq![rep_split(non_greedy, frag.start as nat, out)] by {
                        lemma_rep_exact(before, emitted, after, b, ends, hole, out);
                    }
                }
                r
            },
            Quant::Plus => {
                let instr = self.emit_instr_hole(hole);
                let ghost emitted = self.instrs@;
                proof {
                    assert forall|k: int| 0 <= k < frag.ends@.len() implies #[trigger] frag.ends@[k]
                        < emitted.len() && emitted[frag.ends@[k] as int] is InstrHole by {
                        assert(before[frag.ends@[k] as int] is InstrHole);
                    }
                }
                let ghost ends = frag.ends@;
                self.fill_holes(frag.ends, instr);
                let r = Frag { start: frag.start, ends: vec![instr] };
                proof {
                    assert(r.ends@ =~= seq![instr]);
                    lemma_rep_filled(before, emitted, self.instrs@, b, frag, r);
                    let after = self.instrs@;
                    assert forall|out: nat| #[trigger] fill_range(after, b, before.len() as int + 1, out) == fill_range(
                        before,
                        b,
                        before.len() as int,
                        before.len(),
                    ) + seq![rep_split(non_greedy, frag.start as nat, out)] by {
                        lemma_rep_exact(before, emitted, after, b, ends, hole, out);
                    }
                }
                r
            },
        }
    }

    fn compile_cat(&mut self, frag_0: Frag, frag_1: Frag, Ghost(b): Ghost<int>, Ghost(m): Ghost<int>) -> (frag: Frag)
        requires
            frag_wf(old(self).instrs@, m, frag_1),
            b <= m,
            frag_wf(old(self).instrs@.subrange(0, m), b, frag_0),
        ensures
            final(self).instrs@.len() == old(self).instrs@.len(),
            forall|i: int| 0 <= i < b ==> final(self).instrs@[i] == old(self).instrs@[i],
            frag_wf(final(self).instrs@, b, frag),
            frag.start == frag_0.start,
            forall|out: nat|
                #[trigger] fill_range(final(self).instrs@, b, old(self).instrs@.len() as int, out) == fill_range(
                    old(self).instrs@,
                    b,
                    m,
                    frag_1.start as nat,
                ) + fill_range(old(self).instrs@, m, old(self).instrs@.len() as int, out),
    {
        let ghost before = self.instrs@;
        proof {
            assert forall|k: int| 0 <= k < frag_0.ends@.len() implies #[trigger] frag_0.ends@[k]
                < before.len() && before[frag_0.ends@[k] as int] is InstrHole by {
                assert(before.subrange(0, m)[frag_0.ends@[k] as int] == before[frag_0.ends@[k] as int]);
            }
        }
        // The length is read for the bound it gives: it fits in a usize.
        let _len = self.instrs.len();
        self.fill_holes(frag_0.ends, frag_1.start);
        let frag = Frag { start: frag_0.start, ends: frag_1.ends };
        proof {
            let after = self.instrs@;
            let n = before.len() as int;
            let ends = frag_0.ends@;
            assert forall|i: int| b <= i < m && (#[trigger] before[i]) is InstrHole implies ends.contains(i as usize) by {
                assert(before.subrange(0, m)[i] == before[i]);
            }
            assert forall|i: int| m <= i < n implies after[i] == before[i] by {
                if ends.contains(i as usize) {
                    let k = choose|k: int| 0 <= k < ends.len() && ends[k] == i as usize;
                    assert(ends[k] < m) by {
                        assert(before.subrange(0, m).len() == m);
                    }
                }
            }
            assert forall|out: nat| #[trigger] fill_range(after, b, n, out) == fill_range(
                before,
                b,
                m,
                frag_1.start as nat,
            ) + fill_range(before, m, n, out) by {
                lemma_fill_range_split(after, b, m, n, out);
                lemma_fill_range_filled(before, after, ends, b, m, frag_1.start, out);
                lemma_fill_range_same(after, before, m, n, out);
            }
            assert forall|i: int| b <= i < after.len() && (#[trigger] after[i]) is InstrHole implies frag.ends@.contains(
                i as usize,
            ) by {
                if i < m {
                    if frag_0.ends@.contains(i as usize) {
                    } else {
                        assert(before.subrange(0, m)[i] == before[i]);
                    }
                }
            }
            assert forall|i: int| b <= i < after.len() implies (#[trigger] after[i]).in_bounds(after.len()) by {
                if i < m {
                    assert(before.subrange(0, m)[i] == before[i]);
                    if frag_0.ends@.contains(i as usize) {
                    } else {
                        lemma_in_bounds_mono(before[i], m as nat, after.len());
                    }
                }
            }
        }
        frag
    }

    fn compile_alt(&mut self, frag_0: Frag, frag_1: Frag, Ghost(b): Ghost<int>, Ghost(m): Ghost<int>) -> (frag: Frag)
        requires
            frag_wf(old(self).instrs@, m, frag_1),
            b <= m,
            frag_wf(old(self).instrs@.subrange(0, m), b, frag_0),
            old(self).instrs@.len() < usize::MAX,
        ensures
            final(self).instrs@.len() == old(self).instrs@.len() + 1,
            forall|i: int| 0 <= i < b ==> final(self).instrs@[i] == old(self).instrs@[i],
            frag_wf(final(self).instrs@, b, frag),
            frag.start == old(self).instrs@.len(),
            forall|out: nat|
                #[trigger] fill_range(final(self).instrs@, b, old(self).instrs@.len() as int + 1, out) == fill_range(
                    old(self).instrs@,
                    b,
                    m,
                    out,
                ) + fill_range(old(self).instrs@, m, old(self).instrs@.len() as int, out) + seq![
                    Instr::Split(frag_0.start, frag_1.start),
                ],
    {
        let ghost before = self.instrs@;
        proof {
            assert forall|k: int| 0 <= k < frag_0.ends@.len() implies #[trigger] frag_0.ends@[k]
                < before.len() && before[frag_0.ends@[k] as int] is InstrHole by {
                assert(before.subrange(0, m)[frag_0.ends@[k] as int] == before[frag_0.ends@[k] as int]);
            }
        }
        let instr = self.emit_instr(Instr::Split(frag_0.start, frag_1.start));
        proof {
            let n = before.len() as int;
            assert forall|out: nat| #[trigger] fill_range(self.instrs@, b, n + 1, out) == fill_range(
                before,
                b,
                m,
                out,
            ) + fill_range(before, m, n, out) + seq![Instr::Split(frag_0.start, frag_1.start)] by {
                lemma_fill_range_push(before, InstrMaybeHole::Instr(Instr::Split(frag_0.start, frag_1.start)), b, out);
                lemma_fill_range_split(before, b, m, n, out);
            }
        }
        let mut ends = frag_0.ends;
        let mut ends_1 = frag_1.ends;
        ends.append(&mut ends_1);
        let frag = Frag { start: instr, ends };
        proof {
            let after = self.instrs@;
            let e0 = frag_0.ends@;
            let e1 = frag_1.ends@;
            assert(frag.ends@ == e0 + e1);
            assert forall|x: int, y: int|
                0 <= x < frag.ends@.len() && 0 <= y < frag.ends@.len() && x != y implies frag.ends@[x]
                != frag.ends@[y] by {
                if x < e0.len() && y >= e0.len() {
                    assert(e1[y - e0.len()] >= m);
                } else if y < e0.len() && x >= e0.len() {
                    assert(e1[x - e0.len()] >= m);
                }
            }
            assert forall|k: int| 0 <= k < frag.ends@.len() implies b <= #[trigger] frag.ends@[k] < after.len()
                && after[frag.ends@[k] as int] is InstrHole by {
                if k < e0.len() {
                    assert(before.subrange(0, m)[e0[k] as int] == before[e0[k] as int]);
                } else {
                    assert(frag.ends@[k] == e1[k - e0.len()]);
                }
            }
            assert forall|i: int| b <= i < after.len() && (#[trigger] after[i]) is InstrHole implies frag.ends@.contains(
                i as usize,
            ) by {
                if i < m {
                    assert(before.subrange(0, m)[i] == before[i]);
                    let k = choose|k: int| 0 <= k < e0.len() && e0[k] == i;
                    assert(frag.ends@[k] == i);
                } else if i < before.len() {
                    let k = choose|k: int| 0 <= k < e1.len() && e1[k] == i;
                    assert(frag.ends@[e0.len() + k] == i);
                }
            }
            assert forall|i: int| b <= i < after.len() implies (#[trigger] after[i]).in_bounds(after.len()) by {
                if i < m {
                    assert(before.subrange(0, m)[i] == before[i]);
                    lemma_in_bounds_mono(before[i], m as nat, after.len());
                } else if i < before.len() {
                    lemma_in_bounds_mono(before[i], before.len(), after.len());
                }
            }
        }
        frag
    }

    /// Sets the continuation of each of `instrs` to `out`.
    fn fill_holes(&mut self, instrs: Vec<InstrPtr>, out: InstrPtr)
        requires
            instrs@.no_duplicates(),
            forall|k: int|
                0 <= k < instrs@.len() ==> #[trigger] instrs@[k] < old(self).instrs@.len()
                    && old(self).instrs@[instrs@[k] as int] is InstrHole,
        ensures
            final(self).instrs@.len() == old(self).instrs@.len(),
            forall|i: int|
                0 <= i < old(self).instrs@.len() ==> #[trigger] final(self).instrs@[i] == if instrs@.contains(
                    i as usize,
                ) {
                    old(self).instrs@[i].filled(out)
                } else {
                    old(self).instrs@[i]
                },
    {
        let ghost start = self.instrs@;
        // The length is read for the bound it gives: it fits in a usize.
        let _len = self.instrs.len();
        let mut k: usize = 0;
        while k < instrs.len()
            invariant
                start == old(self).instrs@,
                instrs@.no_duplicates(),
                forall|j: int|
                    0 <= j < instrs@.len() ==> #[trigger] instrs@[j] < start.len()
                        && start[instrs@[j] as int] is InstrHole,
                k <= instrs@.len(),
                self.instrs@.len() == start.len(),
                start.len() <= usize::MAX,
                forall|i: int|
                    0 <= i < start.len() ==> #[trigger] self.instrs@[i] == if instrs@.take(k as int).contains(
                        i as usize,
                    ) {
                        start[i].filled(out)
                    } else {
                        start[i]
                    },
            decreases instrs@.len() - k,
        {
            let instr = instrs[k];
            proof {
                assert(!instrs@.take(k as int).contains(instr)) by {
                    if instrs@.take(k as int).contains(instr) {
                        let j = choose|j: int| 0 <= j < k && instrs@.take(k as int)[j] == instr;
                        assert(instrs@[j] == instrs@[k as int]);
                    }
                }
            }
            let ghost prev = self.instrs@;
            let mut maybe_hole = self.instrs[instr];
            maybe_hole.fill_hole(out);
            self.instrs.set(instr, maybe_hole);
            proof {
                let t = instrs@.take(k as int);
                let t1 = instrs@.take((k + 1) as int);
                assert(t1 =~= t.push(instr));
                assert forall|i: int| 0 <= i < start.len() implies #[trigger] self.instrs@[i] == if t1.contains(
                    i as usize,
                ) {
                    start[i].filled(out)
                } else {
                    start[i]
                } by {
                    if i == instr {
                        assert(t1[k as int] == instr);
                    } else {
                        assert(prev[i] == self.instrs@[i]);
                        if t1.contains(i as usize) {
                            let j = choose|j: int| 0 <= j < t1.len() && t1[j] == i as usize;
                            assert(t1[k as int] == instr);
                            assert(t[j] == i as usize);
                        }
                        if t.contains(i as usize) {
                            let j = choose|j: int| 0 <= j < t.len() && t[j] == i as usize;
                            assert(t1[j] == i as usize);
                        }
                    }
                }
            }
            k = k + 1;
        }
        proof {
            assert(instrs@.take(k as int) == instrs@);
        }
    }

    fn emit_instr(&mut self, instr: Instr) -> (instr_ptr: InstrPtr)
        requires
            old(self).instrs@.len() < usize::MAX,
        ensures
            final(self).instrs@ == old(self).instrs@.push(InstrMaybeHole::Instr(instr)),
            instr_ptr == old(self).instrs@.len(),
    {
        let instr_ptr = self.instrs.len();
        self.instrs.push(InstrMaybeHole::Instr(instr));
        instr_ptr
    }

    fn emit_instr_hole(&mut self, instr: InstrHole) -> (instr_ptr: InstrPtr)
        requires
            old(self).instrs@.len() < usize::MAX,
        ensures
            final(self).instrs@ == old(self).instrs@.push(InstrMaybeHole::InstrHole(instr)),
            instr_ptr == old(self).instrs@.len(),
    {
        let instr_ptr = self.instrs.len();
        self.instrs.push(InstrMaybeHole::InstrHole(instr));
        instr_ptr
    }
}

proof fn lemma_in_bounds_mono(x: InstrMaybeHole, n: nat, n2: nat)
    requires
        x.in_bounds(n),
        n <= n2,
    ensures
        x.in_bounds(n2),
{
}




/// Filling the holes of a fragment with the split just emitted after it
/// leaves a fragment whose only hole is that split.
proof fn lemma_rep_filled(
    before: Seq<InstrMaybeHole>,
    emitted: Seq<InstrMaybeHole>,
    after: Seq<InstrMaybeHole>,
    b: int,
    frag: Frag,
    r: Frag,
)
    requires
        frag_wf(before, b, frag),
        before.len() < usize::MAX,
        emitted.len() == before.len() + 1,
        forall|i: int| 0 <= i < before.len() ==> emitted[i] == before[i],
        emitted[before.len() as int] is InstrHole,
        emitted[before.len() as int].hole() matches InstrHole::Split0(next) ==> next < before.len(),
        emitted[before.len() as int].hole() matches InstrHole::Split1(next) ==> next < before.len(),
        emitted[before.len() as int].hole() is Split0 || emitted[before.len() as int].hole() is Split1,
        after.len() == emitted.len(),
        forall|i: int|
            0 <= i < emitted.len() ==> #[trigger] after[i] == if frag.ends@.contains(i as usize) {
                emitted[i].filled(before.len() as usize)
            } else {
                emitted[i]
            },
        r.start == before.len() || r.start == frag.start,
        r.ends@ == seq![before.len() as usize],
    ensures
        frag_wf(after, b, r),
        forall|i: int| 0 <= i < b ==> after[i] == before[i],
{
    let n = before.len() as int;
    if frag.ends@.contains(n as usize) {
        let k = choose|k: int| 0 <= k < frag.ends@.len() && frag.ends@[k] == n as usize;
        assert(frag.ends@[k] < n);
    }
    assert(r.ends@[0] == n as usize);
    assert(after[n] == emitted[n]);
    assert forall|i: int| b <= i < after.len() && (#[trigger] after[i]) is InstrHole implies r.ends@.contains(
        i as usize,
    ) by {
        if i < n {
            if !frag.ends@.contains(i as usize) {
                assert(!(before[i] is InstrHole));
            }
        } else {
            assert(r.ends@[0] == i);
        }
    }
    assert forall|i: int| b <= i < after.len() implies (#[trigger] after[i]).in_bounds(after.len()) by {
        if i < n {
            lemma_in_bounds_mono(before[i], before.len(), after.len());
        }
    }
    assert forall|i: int| 0 <= i < b implies after[i] == before[i] by {
        if frag.ends@.contains(i as usize) {
            let k = choose|k: int| 0 <= k < frag.ends@.len() && frag.ends@[k] == i;
        }
    }
    assert(r.ends@[0] == n);
}



/// Compiles an expression into a program: the instructions of the
/// expression laid out from the first on, then a `Match` instruction that
/// they go on at once the expression has matched.
pub fn compile(ast: &Ast) -> (prog: Prog)
    requires
        ast.size() < usize::MAX,
    ensures
        prog.instrs@ == compiled(*ast, 0, ast.size()) + seq![Instr::Match],
        prog.start == start_of(*ast, 0),
        prog_wf(prog),
{
    let mut context = CompileContext { instrs: Vec::new() };
    let frag = context.compile(ast);
    let ghost laid_out = context.instrs@;
    let instr = context.emit_instr(Instr::Match);
    let ghost emitted = context.instrs@;
    proof {
        assert forall|k: int| 0 <= k < frag.ends@.len() implies #[trigger] frag.ends@[k] < emitted.len()
            && emitted[frag.ends@[k] as int] is InstrHole by {
            assert(laid_out[frag.ends@[k] as int] is InstrHole);
        }
    }
    let ghost ends = frag.ends@;
    context.fill_holes(frag.ends, instr);
    proof {
        let done = context.instrs@;
        assert(!ends.contains(instr));
        assert forall|j: int| 0 <= j < done.len() implies (#[trigger] done[j]) is Instr && done[j].in_bounds(
            done.len(),
        ) by {
            if j < instr {
                if !ends.contains(j as usize) {
                    assert(!(laid_out[j] is InstrHole));
                    lemma_in_bounds_mono(laid_out[j], laid_out.len(), done.len());
                } else {
                    assert(laid_out[j].in_bounds(laid_out.len()));
                }
            }
        }
    }
    let mut instrs: Vec<Instr> = Vec::new();
    let mut i: usize = 0;
    while i < context.instrs.len()
        invariant
            i <= context.instrs@.len(),
            context.instrs@.len() == ast.size() + 1,
            instrs@.len() == i,
            forall|j: int|
                0 <= j < context.instrs@.len() ==> (#[trigger] context.instrs@[j]) is Instr
                    && context.instrs@[j].in_bounds(context.instrs@.len()),
            forall|j: int| 0 <= j < i ==> InstrMaybeHole::Instr(#[trigger] instrs@[j]) == context.instrs@[j],
        decreases context.instrs@.len() - i,
    {
        instrs.push(context.instrs[i].into_instr());
        i = i + 1;
    }
    let prog = Prog { instrs, start: frag.start };
    proof {
        let size = ast.size() as int;
        assert(fill_range(laid_out, 0, size, size as nat) == compiled(*ast, 0, size as nat));
        assert forall|j: int| 0 <= j < size implies prog.instrs@[j] == compiled(*ast, 0, size as nat)[j] by {
            assert(InstrMaybeHole::Instr(prog.instrs@[j]) == context.instrs@[j]);
            assert(fill_range(laid_out, 0, size, size as nat)[j] == laid_out[j].filled_with(size as nat));
            if ends.contains(j as usize) {
                let k = choose|k: int| 0 <= k < ends.len() && ends[k] == j as usize;
                assert(laid_out[ends[k] as int] is InstrHole);
            } else {
                if laid_out[j] is InstrHole {
                    assert(ends.contains(j as usize));
                }
            }
        }
        assert(InstrMaybeHole::Instr(prog.instrs@[size]) == context.instrs@[size]);
        assert(prog.instrs@ =~= compiled(*ast, 0, size as nat) + seq![Instr::Match]);
        assert forall|j: int| 0 <= j < prog.instrs@.len() implies #[trigger] instr_in_bounds(
            prog.instrs@[j],
            prog.instrs@.len(),
        ) by {
            assert(InstrMaybeHole::Instr(prog.instrs@[j]) == context.instrs@[j]);
        }
        assert(InstrMaybeHole::Instr(prog.instrs@[instr as int]) == context.instrs@[instr as int]);
    }
    prog
}

} // verus!
