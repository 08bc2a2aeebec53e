//! Laws of the compiler and of single steps of the machine.

use vstd::prelude::*;
use crate::lang::{cell, halted, next, run_bounded, wrap_dec, wrap_inc, Config};
use crate::program::{balanced, delta, depth, is_op, ops, paired, program_of, symbol_of, Instruction};

verus! {

/// Adding one and then subtracting one gives back every byte, and the two
/// wrap around at the ends: 255 + 1 is 0 and 0 - 1 is 255.
pub proof fn lemma_wrap_round_trip(b: u8)
    ensures
        wrap_dec(wrap_inc(b)) == b,
        wrap_inc(wrap_dec(b)) == b,
        wrap_inc(255u8) == 0u8,
        wrap_dec(0u8) == 255u8,
{
}

/// An `Up` followed by a `Down` leaves the tape as it was; in particular a
/// zero cell is zero again.
pub proof fn lemma_up_then_down(p: Seq<Instruction>, c: Config)
    requires
        c.ip + 1 < p.len(),
        c.dp < c.tape.len(),
        p[c.ip as int] == Instruction::Up,
        p[c.ip + 1int] == Instruction::Down,
    ensures
        next(p, next(p, c)).tape == c.tape,
        next(p, next(p, c)).dp == c.dp,
        next(p, next(p, c)).ip == c.ip + 2,
        cell(c) == 0 ==> cell(next(p, next(p, c))) == 0,
{
    lemma_wrap_round_trip(cell(c));
    let c1 = next(p, c);
    assert(c1.tape.update(c.dp as int, wrap_dec(cell(c1))) =~= c.tape);
}

/// `Down` on a zero cell leaves 255 there, and `Up` on a 255 cell leaves 0.
pub proof fn lemma_cell_wraps(p: Seq<Instruction>, c: Config)
    requires
        c.dp < c.tape.len(),
    ensures
        p[c.ip as int] == Instruction::Down && cell(c) == 0 ==> cell(next(p, c)) == 255,
        p[c.ip as int] == Instruction::Up && cell(c) == 255 ==> cell(next(p, c)) == 0,
{
}

/// The tape never loses a cell: one step leaves it as it was or adds a zero
/// cell at one end; the data pointer stays on the tape.
pub proof fn lemma_tape_never_shrinks(p: Seq<Instruction>, c: Config)
    requires
        c.dp < c.tape.len(),
    ensures
        next(p, c).tape.len() >= c.tape.len(),
        next(p, c).tape.len() <= c.tape.len() + 1,
        next(p, c).dp < next(p, c).tape.len(),
{
}

/// `Left` at the first cell adds a zero cell in front and stays on it.
pub proof fn lemma_left_edge_grows(p: Seq<Instruction>, c: Config)
    requires
        p[c.ip as int] == Instruction::Left,
        c.dp == 0,
    ensures
        next(p, c).tape == seq![0u8] + c.tape,
        next(p, c).dp == 0,
{
}

/// `Right` at the last cell adds a zero cell behind and moves onto it.
pub proof fn lemma_right_edge_grows(p: Seq<Instruction>, c: Config)
    requires
        p[c.ip as int] == Instruction::Right,
        c.dp + 1 == c.tape.len(),
    ensures
        next(p, c).tape == c.tape.push(0u8),
        next(p, c).dp == c.dp + 1,
        next(p, c).dp < next(p, c).tape.len(),
{
}

/// Over a whole run the tape keeps every cell it had.
pub proof fn lemma_run_never_shrinks(p: Seq<Instruction>, c: Config, fuel: nat)
    requires
        c.dp < c.tape.len(),
    ensures
        run_bounded(p, c, fuel).tape.len() >= c.tape.len(),
    decreases fuel,
{
    if !(halted(p, c) || fuel == 0 || c.tape.len() >= usize::MAX) {
        lemma_tape_never_shrinks(p, c);
        lemma_run_never_shrinks(p, next(p, c), (fuel - 1) as nat);
    }
}

/// `In` with no input left writes zero into the current cell and consumes
/// nothing.
pub proof fn lemma_read_at_end_of_input(p: Seq<Instruction>, c: Config)
    requires
        p[c.ip as int] == Instruction::In,
        c.input.len() == 0,
        c.dp < c.tape.len(),
    ensures
        cell(next(p, c)) == 0,
        next(p, c).input.len() == 0,
        next(p, c).ip == c.ip + 1,
{
}

/// A step of a halted machine changes nothing, and it is still halted.
pub proof fn lemma_halted_is_fixed(p: Seq<Instruction>, c: Config)
    requires
        halted(p, c),
    ensures
        next(p, c) == c,
        halted(p, next(p, c)),
{
}

/// Source text without instruction symbols compiles to the lone `Halt`, and
/// running it from the start leaves the output, the input and the tape as
/// they were.
pub proof fn lemma_no_symbols_halts_at_once(s: Seq<char>, p: Seq<Instruction>, c: Config, fuel: nat)
    requires
        forall|i: int| 0 <= i < s.len() ==> !is_op(#[trigger] s[i]),
        program_of(ops(s), p),
        c.ip == 0,
    ensures
        p == seq![Instruction::Halt],
        run_bounded(p, c, fuel) == c,
{
    lemma_ops_empty(s);
    assert(p =~= seq![Instruction::Halt]);
}

/// A sequence of symbols has at most one program: each open bracket has one
/// matching close bracket, so the compiled program is fully determined by the
/// source text.
pub proof fn lemma_program_unique(o: Seq<char>, p: Seq<Instruction>, q: Seq<Instruction>)
    requires
        program_of(o, p),
        program_of(o, q),
    ensures
        p == q,
{
    assert forall|j: int| 0 <= j < o.len() && o[j] == '[' implies p[j] == q[j] by {
        assert(symbol_of(o[j], p[j]));
        assert(symbol_of(o[j], q[j]));
        lemma_match_unique(o, j, p[j]->Jump_0 - 1, q[j]->Jump_0 - 1);
    }
    assert forall|i: int| 0 <= i < p.len() implies p[i] == q[i] by {
        if i < o.len() {
            assert(symbol_of(o[i], p[i]));
            assert(symbol_of(o[i], q[i]));
            if o[i] == ']' {
                let j = p[i]->Loop_0 as int;
                assert(paired(o, p, j, i));
                assert(p[j] == q[j]);
                assert(paired(o, q, j, q[j]->Jump_0 - 1));
            }
        }
    }
    assert(p =~= q);
}

/// An open bracket has one matching close bracket: the first one that ends a
/// balanced run after it.
proof fn lemma_match_unique(o: Seq<char>, j: int, k1: int, k2: int)
    requires
        0 <= j < k1 < o.len(),
        0 <= j < k2 < o.len(),
        o[k1] == ']',
        o[k2] == ']',
        balanced(o.subrange(j + 1, k1)),
        balanced(o.subrange(j + 1, k2)),
    ensures
        k1 == k2,
{
    if k1 < k2 {
        lemma_no_later_match(o, j, k1, k2);
    } else if k2 < k1 {
        lemma_no_later_match(o, j, k2, k1);
    }
}

/// A balanced run after an open bracket cannot reach past the close bracket
/// that ends an earlier balanced run.
proof fn lemma_no_later_match(o: Seq<char>, j: int, k1: int, k2: int)
    requires
        0 <= j < k1 < k2 < o.len(),
        o[k1] == ']',
        balanced(o.subrange(j + 1, k1)),
    ensures
        !balanced(o.subrange(j + 1, k2)),
{
    let s = o.subrange(j + 1, k2);
    let i = k1 + 1 - (j + 1);
    assert(s.take(i).drop_last() =~= o.subrange(j + 1, k1));
    assert(s.take(i).last() == ']');
    assert(depth(s.take(i)) == depth(o.subrange(j + 1, k1)) + delta(']'));
}

/// Text without instruction symbols has none to compile.
proof fn lemma_ops_empty(s: Seq<char>)
    requires
        forall|i: int| 0 <= i < s.len() ==> !is_op(#[trigger] s[i]),
    ensures
        ops(s).len() == 0,
    decreases s.len(),
{
    if s.len() > 0 {
        assert(!is_op(s[s.len() - 1]));
        let t = s.drop_last();
        assert forall|i: int| 0 <= i < t.len() implies !is_op(#[trigger] t[i]) by {
            assert(t[i] == s[i]);
        }
        lemma_ops_empty(t);
    }
}

} // verus!
