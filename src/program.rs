//! Instructions, the symbols of source text, and bracket nesting.

use vstd::prelude::*;

verus! {

/// One executable instruction.
///
/// `Jump` and `Loop` carry the instruction index that the instruction pointer
/// is set to when the jump is taken.
#[derive(Clone, Copy, PartialEq, Eq, Structural, Debug)]
pub enum Instruction {
    /// Moves the data pointer one cell to the right.
    Right,
    /// Moves the data pointer one cell to the left.
    Left,
    /// Adds one to the current cell, modulo 256.
    Up,
    /// Subtracts one from the current cell, modulo 256.
    Down,
    /// Appends the current cell to the output.
    Out,
    /// Moves the next input byte into the current cell, or zero at end of input.
    In,
    /// Jumps past the matching `Loop` when the current cell is zero.
    Jump(usize),
    /// Jumps back to the matching `Jump` when the current cell is not zero.
    Loop(usize),
    /// Ends execution.
    Halt,
}

/// Whether `c` is one of the eight instruction symbols.
pub open spec fn is_op(c: char) -> bool {
    c == '>' || c == '<' || c == '+' || c == '-' || c == '.' || c == ',' || c == '[' || c == ']'
}

/// The instruction symbols of `s`, in order, with every other character left out.
pub open spec fn ops(s: Seq<char>) -> Seq<char>
    decreases s.len(),
{
    if s.len() == 0 {
        Seq::empty()
    } else if is_op(s.last()) {
        ops(s.drop_last()).push(s.last())
    } else {
        ops(s.drop_last())
    }
}

/// How a character changes the bracket depth.
pub open spec fn delta(c: char) -> int {
    if c == '[' {
        1
    } else if c == ']' {
        -1
    } else {
        0
    }
}

/// Opening brackets minus closing brackets in `s`.
pub open spec fn depth(s: Seq<char>) -> int
    decreases s.len(),
{
    if s.len() == 0 {
        0
    } else {
        depth(s.drop_last()) + delta(s.last())
    }
}

/// No prefix of `s` closes more brackets than it opens.
pub open spec fn never_negative(s: Seq<char>) -> bool {
    forall|i: int| 0 <= i <= s.len() ==> #[trigger] depth(s.take(i)) >= 0
}

/// The brackets of `s` are correctly paired and nested.
pub open spec fn balanced(s: Seq<char>) -> bool {
    never_negative(s) && depth(s) == 0
}

/// Whether instruction `ins` is the one that symbol `c` compiles to, jump
/// targets aside.
pub open spec fn symbol_of(c: char, ins: Instruction) -> bool {
    match ins {
        Instruction::Right => c == '>',
        Instruction::Left => c == '<',
        Instruction::Up => c == '+',
        Instruction::Down => c == '-',
        Instruction::Out => c == '.',
        Instruction::In => c == ',',
        Instruction::Jump(_) => c == '[',
        Instruction::Loop(_) => c == ']',
        Instruction::Halt => false,
    }
}

/// Symbols `j` and `k` of `o` are a matching pair of brackets, and program
/// `p` links them: the `Jump` at `j` targets the index just after `k`, and the
/// `Loop` at `k` targets `j`.
pub open spec fn paired(o: Seq<char>, p: Seq<Instruction>, j: int, k: int) -> bool {
    &&& 0 <= j < k < o.len()
    &&& o[j] == '['
    &&& o[k] == ']'
    &&& balanced(o.subrange(j + 1, k))
    &&& p[j] == Instruction::Jump((k + 1) as usize)
    &&& p[k] == Instruction::Loop(j as usize)
}

/// `p` is the program for the instruction symbols `o`: one instruction per
/// symbol, each bracket linked to its match, and a final `Halt`.
pub open spec fn program_of(o: Seq<char>, p: Seq<Instruction>) -> bool {
    &&& p.len() == o.len() + 1
    &&& p.last() == Instruction::Halt
    &&& forall|j: int| 0 <= j < o.len() ==> symbol_of(o[j], #[trigger] p[j])
    &&& forall|j: int|
        0 <= j < o.len() && (#[trigger] p[j]) is Jump ==> paired(o, p, j, p[j]->Jump_0 - 1)
    &&& forall|k: int|
        0 <= k < o.len() && (#[trigger] p[k]) is Loop ==> paired(o, p, p[k]->Loop_0 as int, k)
}

impl Instruction {
    /// The instruction for source character `c`, with unresolved jump targets;
    /// `Halt` for a character that is no instruction symbol.
    pub fn from_char(c: char) -> (r: Instruction)
        ensures
            is_op(c) ==> symbol_of(c, r),
            r matches Instruction::Jump(t) ==> t == 0,
            r matches Instruction::Loop(t) ==> t == 0,
            !is_op(c) ==> r == Instruction::Halt,
    {
        match c {
            '>' => Instruction::Right,
            '<' => Instruction::Left,
            '+' => Instruction::Up,
            '-' => Instruction::Down,
            '.' => Instruction::Out,
            ',' => Instruction::In,
            '[' => Instruction::Jump(0),
            ']' => Instruction::Loop(0),
            _ => Instruction::Halt,
        }
    }
}

/// The depth of a concatenation is the sum of the depths.
pub proof fn lemma_depth_concat(a: Seq<char>, b: Seq<char>)
    ensures
        depth(a + b) == depth(a) + depth(b),
    decreases b.len(),
{
    if b.len() == 0 {
        assert(a + b =~= a);
    } else {
        lemma_depth_concat(a, b.drop_last());
        assert((a + b).drop_last() =~= a + b.drop_last());
    }
}

/// Appending a character to a prefix-safe sequence whose depth stays
/// non-negative keeps it prefix-safe.
pub proof fn lemma_never_negative_push(s: Seq<char>, c: char)
    requires
        never_negative(s),
        depth(s) + delta(c) >= 0,
    ensures
        never_negative(s.push(c)),
{
    let t = s.push(c);
    assert forall|i: int| 0 <= i <= t.len() implies #[trigger] depth(t.take(i)) >= 0 by {
        if i == t.len() {
            assert(t.take(i) =~= t);
            assert(t.drop_last() =~= s);
        } else {
            assert(t.take(i) =~= s.take(i));
        }
    }
}

/// A balanced sequence followed by a bracket-free character stays balanced.
pub proof fn lemma_balanced_push(s: Seq<char>, c: char)
    requires
        balanced(s),
        delta(c) == 0,
    ensures
        balanced(s.push(c)),
{
    lemma_never_negative_push(s, c);
    assert(s.push(c).drop_last() =~= s);
}

/// Two balanced sequences, the second wrapped in a bracket pair, make a
/// balanced sequence.
pub proof fn lemma_balanced_wrap(a: Seq<char>, b: Seq<char>)
    requires
        balanced(a),
        balanced(b),
    ensures
        balanced(a.push('[') + b.push(']')),
{
    let s = a.push('[') + b;
    let t = s.push(']');
    assert(a.push('[') + b.push(']') =~= t);
    lemma_never_negative_push(a, '[');
    assert(a.push('[').drop_last() =~= a);
    lemma_depth_concat(a.push('['), b);
    assert forall|i: int| 0 <= i <= s.len() implies #[trigger] depth(s.take(i)) >= 0 by {
        if i <= a.len() + 1 {
            assert(s.take(i) =~= a.push('[').take(i));
        } else {
            let j = i - a.len() - 1;
            assert(s.take(i) =~= a.push('[') + b.take(j));
            lemma_depth_concat(a.push('['), b.take(j));
            assert(depth(b.take(j)) >= 0);
        }
    }
    lemma_never_negative_push(s, ']');
    assert(t.drop_last() =~= s);
}

/// A sequence with a prefix of negative depth is not balanced.
pub proof fn lemma_negative_prefix(s: Seq<char>, i: int)
    requires
        0 <= i <= s.len(),
        depth(s.take(i)) < 0,
    ensures
        !never_negative(s),
{
}

/// The empty sequence is balanced.
pub proof fn lemma_balanced_empty(s: Seq<char>)
    requires
        s.len() == 0,
    ensures
        balanced(s),
{
    assert forall|i: int| 0 <= i <= s.len() implies #[trigger] depth(s.take(i)) >= 0 by {
        assert(s.take(i).len() == 0);
    }
}

} // verus!
