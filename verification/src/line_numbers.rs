use vstd::prelude::*;

verus! {

/// `10` to the power `n`.
pub open spec fn pow10(n: nat) -> nat
    decreases n,
{
    if n == 0 {
        1
    } else {
        10 * pow10((n - 1) as nat)
    }
}

/// The digit of `line` worth `10` to the power `place`.
pub open spec fn digit(line: nat, place: nat) -> nat {
    (line / pow10(place)) % 10
}

/// Whether a digit of `line` at or above `place`, among the five lowest, is
/// not zero.
pub open spec fn has_nonzero_from(line: nat, place: nat) -> bool {
    exists|p: nat| place <= p < 5 && #[trigger] digit(line, p) != 0
}

/// The five lowest digits of `line`, highest first, with the zeros before the
/// first other digit shown as spaces.
pub open spec fn spec_linenum(line: nat) -> Seq<char> {
    Seq::new(
        5,
        |i: int|
            if has_nonzero_from(line, (4 - i) as nat) {
                ((48 + digit(line, (4 - i) as nat)) as u8) as char
            } else {
                ' '
            },
    )
}

proof fn lemma_pow10_values()
    ensures
        pow10(0) == 1,
        pow10(1) == 10,
        pow10(2) == 100,
        pow10(3) == 1000,
        pow10(4) == 10000,
{
    reveal_with_fuel(pow10, 5);
}

/// For a line number below 100000, a digit at or above `place` is not zero
/// exactly when the number reaches `10` to the power `place`.
proof fn lemma_nonzero_from(line: nat, place: nat)
    requires
        line < 100000,
        place < 5,
    ensures
        has_nonzero_from(line, place) <==> line >= pow10(place),
{
    lemma_pow10_values();
    if line >= pow10(place) {
        let top: nat = if line >= 10000 {
            4
        } else if line >= 1000 {
            3
        } else if line >= 100 {
            2
        } else if line >= 10 {
            1
        } else {
            0
        };
        assert(place <= top);
        assert(digit(line, top) != 0) by {
            if top == 4 {
                assert(1 <= line / 10000 < 10);
            } else if top == 3 {
                assert(1 <= line / 1000 < 10);
            } else if top == 2 {
                assert(1 <= line / 100 < 10);
            } else if top == 1 {
                assert(1 <= line / 10 < 10);
            } else {
                assert(1 <= line / 1 < 10);
            }
        }
    }
    if has_nonzero_from(line, place) {
        let p = choose|p: nat| place <= p < 5 && #[trigger] digit(line, p) != 0;
        if line < pow10(place) {
            assert(pow10(place) <= pow10(p));
            assert(line / pow10(p) == 0);
            assert(digit(line, p) == 0);
        }
    }
}

/// The gutter shows a line number below 100000 right-aligned in five
/// characters: the character at place `p` from the right is the digit of the
/// number worth `10` to the power `p` once the number reaches that power, and
/// a space before.
pub proof fn lemma_linenum_digits(line: nat)
    requires
        line < 100000,
    ensures
        spec_linenum(line).len() == 5,
        spec_linenum(line)[0] == if line >= 10000 { ((48 + (line / 10000) % 10) as u8) as char } else { ' ' },
        spec_linenum(line)[1] == if line >= 1000 { ((48 + (line / 1000) % 10) as u8) as char } else { ' ' },
        spec_linenum(line)[2] == if line >= 100 { ((48 + (line / 100) % 10) as u8) as char } else { ' ' },
        spec_linenum(line)[3] == if line >= 10 { ((48 + (line / 10) % 10) as u8) as char } else { ' ' },
        spec_linenum(line)[4] == if line >= 1 { ((48 + line % 10) as u8) as char } else { ' ' },
{
    lemma_pow10_values();
    lemma_nonzero_from(line, 4);
    lemma_nonzero_from(line, 3);
    lemma_nonzero_from(line, 2);
    lemma_nonzero_from(line, 1);
    lemma_nonzero_from(line, 0);
    assert(line / 1 == line);
}

/// Fills `buf` with the number of `line` as the gutter shows it: five
/// characters wide, padded with spaces on the left.
pub fn linenum_fill(buf: &mut Vec<char>, line: usize)
    ensures
        final(buf)@ == spec_linenum(line as nat),
{
    proof {
        lemma_pow10_values();
    }
    buf.clear();
    let mut scale: usize = 10000;
    let mut fill = false;
    let ghost mut place: nat = 4;
    loop
        invariant_except_break
            buf@.len() == 4 - place,
            fill == has_nonzero_from(line as nat, place + 1),
            forall|i: int| 0 <= i < buf@.len() ==> #[trigger] buf@[i] == spec_linenum(line as nat)[i],
        invariant
            place <= 4,
            scale == pow10(place),
            pow10(0) == 1 && pow10(1) == 10 && pow10(2) == 100 && pow10(3) == 1000 && pow10(4) == 10000,
        ensures
            buf@ == spec_linenum(line as nat),
        decreases place,
    {
        let digit_value = ((line / scale) % 10) as u8;
        proof {
            assert(digit_value == digit(line as nat, place));
            if digit_value != 0 {
                assert(has_nonzero_from(line as nat, place));
            } else if has_nonzero_from(line as nat, place) {
                let p = choose|p: nat| place <= p < 5 && #[trigger] digit(line as nat, p) != 0;
                assert(p != place);
                assert(has_nonzero_from(line as nat, place + 1));
            }
            if has_nonzero_from(line as nat, place + 1) {
                let p = choose|p: nat| place + 1 <= p < 5 && #[trigger] digit(line as nat, p) != 0;
                assert(has_nonzero_from(line as nat, place));
            }
        }
        if digit_value != 0 {
            fill = true;
        }
        let ghost index = buf@.len() as int;
        if fill {
            buf.push((48 + digit_value) as char);
        } else {
            buf.push(' ');
        }
        proof {
            assert(4 - index == place);
        }
        if scale <= 1 {
            proof {
                assert(buf@ =~= spec_linenum(line as nat));
            }
            break;
        }
        scale = scale / 10;
        proof {
            place = (place - 1) as nat;
        }
    }
}

} // verus!
