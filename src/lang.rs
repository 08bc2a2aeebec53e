//! The compiler from source text to a program, and the virtual machine that
//! runs it.

use vstd::prelude::*;
use crate::program::{
    balanced, depth, lemma_balanced_empty, lemma_balanced_push, lemma_balanced_wrap,
    lemma_negative_prefix, lemma_never_negative_push, never_negative, ops, paired, program_of,
    symbol_of, Instruction,
};
use crate::tape::Tape;
use std::collections::VecDeque;

verus! {

/// Returned when the brackets of the source text are not correctly paired.
#[derive(Debug)]
pub struct SyntaxError;

/// Virtual machine: a compiled program, an instruction pointer, a data
/// pointer and a tape.
pub struct VM {
    ip: usize,
    dp: usize,
    instructions: Vec<Instruction>,
    data: Tape,
}


/// The state of a running machine as a mathematical value: instruction
/// pointer, data pointer, tape, the input not yet read, and the output so far.
pub struct Config {
    pub ip: nat,
    pub dp: nat,
    pub tape: Seq<u8>,
    pub input: Seq<u8>,
    pub output: Seq<u8>,
}

/// One added to a byte, modulo 256.
pub open spec fn wrap_inc(b: u8) -> u8 {
    ((b + 1) % 256) as u8
}

/// One subtracted from a byte, modulo 256.
pub open spec fn wrap_dec(b: u8) -> u8 {
    ((b + 255) % 256) as u8
}

/// The current cell.
pub open spec fn cell(c: Config) -> u8 {
    c.tape[c.dp as int]
}

/// The instruction at the instruction pointer is `Halt`.
pub open spec fn halted(p: Seq<Instruction>, c: Config) -> bool {
    p[c.ip as int] == Instruction::Halt
}

/// The state after executing one instruction of program `p` in state `c`.
pub open spec fn next(p: Seq<Instruction>, c: Config) -> Config {
    let at = c.ip + 1;
    match p[c.ip as int] {
        Instruction::Right => {
            if c.dp + 1 == c.tape.len() {
                Config { ip: at, dp: c.dp + 1, tape: c.tape.push(0u8), ..c }
            } else {
                Config { ip: at, dp: c.dp + 1, ..c }
            }
        },
        Instruction::Left => {
            if c.dp == 0 {
                Config { ip: at, tape: seq![0u8] + c.tape, ..c }
            } else {
                Config { ip: at, dp: (c.dp - 1) as nat, ..c }
            }
        },
        Instruction::Up => Config {
            ip: at,
            tape: c.tape.update(c.dp as int, wrap_inc(cell(c))),
            ..c
        },
        Instruction::Down => Config {
            ip: at,
            tape: c.tape.update(c.dp as int, wrap_dec(cell(c))),
            ..c
        },
        Instruction::Out => Config { ip: at, output: c.output.push(cell(c)), ..c },
        Instruction::In => {
            if c.input.len() == 0 {
                Config { ip: at, tape: c.tape.update(c.dp as int, 0u8), ..c }
            } else {
                Config {
                    ip: at,
                    tape: c.tape.update(c.dp as int, c.input[0]),
                    input: c.input.drop_first(),
                    ..c
                }
            }
        },
        Instruction::Jump(t) => {
            if cell(c) == 0 {
                Config { ip: t as nat, ..c }
            } else {
                Config { ip: at, ..c }
            }
        },
        Instruction::Loop(t) => {
            if cell(c) != 0 {
                Config { ip: t as nat, ..c }
            } else {
                Config { ip: at, ..c }
            }
        },
        Instruction::Halt => c,
    }
}

/// The state after executing instructions of `p` from state `c` until the
/// program halts, `fuel` instructions have run, or the tape holds
/// `usize::MAX` cells, whichever comes first.
pub open spec fn run_bounded(p: Seq<Instruction>, c: Config, fuel: nat) -> Config
    decreases fuel,
{
    if halted(p, c) || fuel == 0 || c.tape.len() >= usize::MAX {
        c
    } else {
        run_bounded(p, next(p, c), (fuel - 1) as nat)
    }
}

/// Where gap `m` between consecutive pending open brackets starts.
spec fn gap_start(st: Seq<usize>, m: int) -> int {
    if m == 0 {
        0
    } else {
        st[m - 1] + 1
    }
}

/// Where gap `m` between consecutive pending open brackets ends.
spec fn gap_end(st: Seq<usize>, m: int, n: int) -> int {
    if m == st.len() {
        n
    } else {
        st[m] as int
    }
}

/// The symbols between pending open brackets `m - 1` and `m`.
spec fn gap(o: Seq<char>, st: Seq<usize>, m: int) -> Seq<char> {
    o.subrange(gap_start(st, m), gap_end(st, m, o.len() as int))
}

/// `j` is a pending open bracket.
spec fn pending(st: Seq<usize>, j: int) -> bool {
    exists|m: int| 0 <= m < st.len() && st[m] == j
}

/// What holds of the partly built program `p` for symbols `o`, with the
/// pending open brackets `st`.
spec fn building(o: Seq<char>, p: Seq<Instruction>, st: Seq<usize>) -> bool {
    &&& p.len() == o.len()
    &&& forall|m: int| 0 <= m < st.len() ==> #[trigger] st[m] < o.len()
    &&& forall|m: int|
        0 <= m < st.len() ==> o[#[trigger] st[m] as int] == '[' && p[st[m] as int]
            == Instruction::Jump(0)
    &&& forall|m: int| 0 < m < st.len() ==> st[m - 1] < #[trigger] st[m]
    &&& forall|m: int| 0 <= m <= st.len() ==> balanced(#[trigger] gap(o, st, m))
    &&& forall|j: int| 0 <= j < o.len() ==> symbol_of(o[j], #[trigger] p[j])
    &&& forall|j: int|
        0 <= j < o.len() && (#[trigger] p[j]) is Jump ==> pending(st, j) || paired(
            o,
            p,
            j,
            p[j]->Jump_0 - 1,
        )
    &&& forall|k: int|
        0 <= k < o.len() && (#[trigger] p[k]) is Loop ==> paired(o, p, p[k]->Loop_0 as int, k)
}


/// Recording an open bracket keeps the building invariant.
proof fn lemma_build_open(o: Seq<char>, p: Seq<Instruction>, st: Seq<usize>)
    requires
        building(o, p, st),
        o.len() <= usize::MAX,
    ensures
        building(o.push('['), p.push(Instruction::Jump(0)), st.push(o.len() as usize)),
{
    let k = o.len() as int;
    let o1 = o.push('[');
    let p1 = p.push(Instruction::Jump(0));
    let st1 = st.push(o.len() as usize);
    let n = st.len() as int;
    assert forall|m: int| 0 <= m <= st1.len() implies balanced(#[trigger] gap(o1, st1, m)) by {
        if m < n {
            assert(gap(o1, st1, m) =~= gap(o, st, m));
        } else if m == n {
            assert(gap(o1, st1, m) =~= gap(o, st, m));
        } else {
            lemma_balanced_empty(gap(o1, st1, m));
        }
    }
    assert forall|j: int|
        0 <= j < o1.len() && (#[trigger] p1[j]) is Jump implies pending(st1, j) || paired(
            o1,
            p1,
            j,
            p1[j]->Jump_0 - 1,
        ) by {
        if j == k {
            assert(st1[n] == j);
        } else if pending(st, j) {
            let m = choose|m: int| 0 <= m < st.len() && st[m] == j;
            assert(st1[m] == j);
        } else {
            let t = p[j]->Jump_0 - 1;
            assert(o1.subrange(j + 1, t) =~= o.subrange(j + 1, t));
        }
    }
    assert forall|k2: int|
        0 <= k2 < o1.len() && (#[trigger] p1[k2]) is Loop implies paired(
            o1,
            p1,
            p1[k2]->Loop_0 as int,
            k2,
        ) by {
        let j = p[k2]->Loop_0 as int;
        assert(o1.subrange(j + 1, k2) =~= o.subrange(j + 1, k2));
    }
    assert forall|j: int| 0 <= j < o1.len() implies symbol_of(o1[j], #[trigger] p1[j]) by {
        if j < k {
            assert(symbol_of(o[j], p[j]));
        }
    }
}

/// Closing the innermost pending open bracket keeps the building invariant.
proof fn lemma_build_close(o: Seq<char>, p: Seq<Instruction>, st: Seq<usize>)
    requires
        building(o, p, st),
        st.len() > 0,
        o.len() + 1 <= usize::MAX,
    ensures
        ({
            let m = st.last() as int;
            let k = o.len() as int;
            building(
                o.push(']'),
                p.push(Instruction::Loop(m as usize)).update(m, Instruction::Jump((k + 1) as usize)),
                st.drop_last(),
            )
        }),
{
    let m = st.last() as int;
    let k = o.len() as int;
    let n = st.len() - 1;
    let o1 = o.push(']');
    let p1 = p.push(Instruction::Loop(m as usize)).update(m, Instruction::Jump((k + 1) as usize));
    let st1 = st.drop_last();
    assert(st[n] == m);
    assert forall|a: int, b: int| 0 <= a < b < st.len() implies st[a] < st[b] by {
        lemma_increasing(st, a, b);
    }
    assert forall|m2: int| 0 <= m2 <= st1.len() implies balanced(#[trigger] gap(o1, st1, m2)) by {
        if m2 < n {
            assert(gap(o1, st1, m2) =~= gap(o, st, m2));
        } else {
            let g = gap(o, st, n);
            let h = gap(o, st, n + 1);
            assert(balanced(g));
            assert(balanced(h));
            lemma_balanced_wrap(g, h);
            assert(gap(o1, st1, m2) =~= g.push('[') + h.push(']'));
        }
    }
    assert forall|i: int| 0 <= i < st1.len() implies o1[#[trigger] st1[i] as int] == '['
        && p1[st1[i] as int] == Instruction::Jump(0) by {
        assert(st[i] < st[n]);
    }
    assert(balanced(o.subrange(m + 1, k))) by {
        assert(gap(o, st, n + 1) =~= o.subrange(m + 1, k));
    }
    assert(paired(o1, p1, m, k)) by {
        assert(o1.subrange(m + 1, k) =~= o.subrange(m + 1, k));
    }
    assert forall|j: int|
        0 <= j < o1.len() && (#[trigger] p1[j]) is Jump implies pending(st1, j) || paired(
            o1,
            p1,
            j,
            p1[j]->Jump_0 - 1,
        ) by {
        if j != m {
            assert(p1[j] == p[j]);
            if pending(st, j) {
                let w = choose|w: int| 0 <= w < st.len() && st[w] == j;
                assert(w != n);
                assert(st1[w] == j);
            } else {
                let t = p[j]->Jump_0 - 1;
                assert(o1.subrange(j + 1, t) =~= o.subrange(j + 1, t));
                assert(p[t] is Loop);
            }
        }
    }
    assert forall|k2: int|
        0 <= k2 < o1.len() && (#[trigger] p1[k2]) is Loop implies paired(
            o1,
            p1,
            p1[k2]->Loop_0 as int,
            k2,
        ) by {
        if k2 != k {
            assert(p1[k2] == p[k2]);
            let j = p[k2]->Loop_0 as int;
            assert(paired(o, p, j, k2));
            assert(o1.subrange(j + 1, k2) =~= o.subrange(j + 1, k2));
            assert(j != m);
        }
    }
    assert forall|j: int| 0 <= j < o1.len() implies symbol_of(o1[j], #[trigger] p1[j]) by {
        if j < k && j != m {
            assert(symbol_of(o[j], p[j]));
        }
    }
}

/// The pending positions are strictly increasing throughout.
proof fn lemma_increasing(st: Seq<usize>, a: int, b: int)
    requires
        forall|m: int| 0 < m < st.len() ==> st[m - 1] < #[trigger] st[m],
        0 <= a < b < st.len(),
    ensures
        st[a] < st[b],
    decreases b - a,
{
    if a + 1 < b {
        lemma_increasing(st, a, b - 1);
    }
}

/// Recording a symbol other than a bracket keeps the building invariant.
proof fn lemma_build_other(o: Seq<char>, p: Seq<Instruction>, st: Seq<usize>, c: char, ins: Instruction)
    requires
        building(o, p, st),
        symbol_of(c, ins),
        !(ins is Jump),
        !(ins is Loop),
    ensures
        building(o.push(c), p.push(ins), st),
{
    let k = o.len() as int;
    let o1 = o.push(c);
    let p1 = p.push(ins);
    let n = st.len() as int;
    assert forall|m: int| 0 <= m <= st.len() implies balanced(#[trigger] gap(o1, st, m)) by {
        if m < n {
            assert(gap(o1, st, m) =~= gap(o, st, m));
        } else {
            lemma_balanced_push(gap(o, st, m), c);
            assert(gap(o1, st, m) =~= gap(o, st, m).push(c));
        }
    }
    assert forall|j: int|
        0 <= j < o1.len() && (#[trigger] p1[j]) is Jump implies pending(st, j) || paired(
            o1,
            p1,
            j,
            p1[j]->Jump_0 - 1,
        ) by {
        if !pending(st, j) {
            let t = p[j]->Jump_0 - 1;
            assert(o1.subrange(j + 1, t) =~= o.subrange(j + 1, t));
        }
    }
    assert forall|k2: int|
        0 <= k2 < o1.len() && (#[trigger] p1[k2]) is Loop implies paired(
            o1,
            p1,
            p1[k2]->Loop_0 as int,
            k2,
        ) by {
        let j = p[k2]->Loop_0 as int;
        assert(o1.subrange(j + 1, k2) =~= o.subrange(j + 1, k2));
    }
    assert forall|j: int| 0 <= j < o1.len() implies symbol_of(o1[j], #[trigger] p1[j]) by {
        if j < k {
            assert(symbol_of(o[j], p[j]));
        }
    }
}

/// With no bracket left pending, adding the final `Halt` completes the program.
proof fn lemma_build_done(o: Seq<char>, p: Seq<Instruction>, st: Seq<usize>)
    requires
        building(o, p, st),
        st.len() == 0,
    ensures
        program_of(o, p.push(Instruction::Halt)),
{
    let p1 = p.push(Instruction::Halt);
    assert forall|j: int| 0 <= j < o.len() implies symbol_of(o[j], #[trigger] p1[j]) by {
        assert(p1[j] == p[j]);
    }
    assert forall|j: int|
        0 <= j < o.len() && (#[trigger] p1[j]) is Jump implies paired(o, p1, j, p1[j]->Jump_0 - 1) by {
        assert(p1[j] == p[j]);
        assert(!pending(st, j));
    }
    assert forall|k: int|
        0 <= k < o.len() && (#[trigger] p1[k]) is Loop implies paired(o, p1, p1[k]->Loop_0 as int, k) by {
        assert(p1[k] == p[k]);
    }
}

impl VM {
    /// The program.
    pub closed spec fn program(&self) -> Seq<Instruction> {
        self.instructions@
    }

    /// The tape cells.
    pub closed spec fn tape(&self) -> Seq<u8> {
        self.data@
    }

    /// The index of the next instruction.
    pub closed spec fn ip(&self) -> nat {
        self.ip as nat
    }

    /// The index of the current cell.
    pub closed spec fn dp(&self) -> nat {
        self.dp as nat
    }

    /// Well-formedness: the program ends in its one `Halt`, the jump targets
    /// and the instruction pointer lie in the program, and the data pointer on
    /// the tape.
    pub closed spec fn wf(&self) -> bool {
        let p = self.instructions@;
        &&& self.data.wf()
        &&& p.len() > 0
        &&& p.last() == Instruction::Halt
        &&& forall|i: int| 0 <= i < p.len() - 1 ==> #[trigger] p[i] != Instruction::Halt
        &&& forall|i: int| 0 <= i < p.len() && (#[trigger] p[i]) is Jump ==> p[i]->Jump_0 < p.len()
        &&& forall|i: int| 0 <= i < p.len() && (#[trigger] p[i]) is Loop ==> p[i]->Loop_0 < p.len()
        &&& self.ip < p.len()
        &&& self.dp < self.data@.len()
    }

    /// The machine's state with the given input and output.
    pub open spec fn config(&self, input: Seq<u8>, output: Seq<u8>) -> Config {
        Config { ip: self.ip(), dp: self.dp(), tape: self.tape(), input, output }
    }

    /// Executes the instruction at the instruction pointer, reading from the
    /// front of `input` and appending to `output`.
    ///
    /// Returns whether the instruction now at the instruction pointer is
    /// `Halt`. On a halted machine it changes nothing and returns `true`.
    pub fn step(&mut self, input: &mut VecDeque<u8>, output: &mut Vec<u8>) -> (r: bool)
        requires
            old(self).wf(),
            old(self).tape().len() < usize::MAX,
        ensures
            final(self).wf(),
            final(self).program() == old(self).program(),
            final(self).config(final(input)@, final(output)@) == next(
                old(self).program(),
                old(self).config(old(input)@, old(output)@),
            ),
            r == halted(final(self).program(), final(self).config(final(input)@, final(output)@)),
    {
        let ghost p = self.instructions@;
        let n = self.instructions.len();
        assert(self.ip + 1 < n || p[self.ip as int] == Instruction::Halt);
        match self.instructions[self.ip] {
            Instruction::Right => {
                self.dp = self.dp + 1;
                if self.dp == self.data.len() {
                    self.data.push_back();
                }
                self.ip = self.ip + 1;
            },
            Instruction::Left => {
                if self.dp > 0 {
                    self.dp = self.dp - 1;
                } else {
                    self.data.push_front();
                }
                self.ip = self.ip + 1;
            },
            Instruction::Up => {
                let b = self.data.get(self.dp);
                self.data.set(self.dp, b.wrapping_add(1));
                self.ip = self.ip + 1;
            },
            Instruction::Down => {
                let b = self.data.get(self.dp);
                self.data.set(self.dp, b.wrapping_sub(1));
                self.ip = self.ip + 1;
            },
            Instruction::Out => {
                output.push(self.data.get(self.dp));
                self.ip = self.ip + 1;
            },
            Instruction::In => {
                match input.pop_front() {
                    Some(b) => self.data.set(self.dp, b),
                    None => self.data.set(self.dp, 0),
                }
                self.ip = self.ip + 1;
            },
            Instruction::Jump(t) => {
                if self.data.get(self.dp) == 0 {
                    self.ip = t;
                } else {
                    self.ip = self.ip + 1;
                }
            },
            Instruction::Loop(t) => {
                if self.data.get(self.dp) != 0 {
                    self.ip = t;
                } else {
                    self.ip = self.ip + 1;
                }
            },
            Instruction::Halt => {
                return true;
            },
        }
        proof {
            assert(self.config(input@, output@) =~= next(p, old(self).config(old(input)@, old(output)@)));
        }
        self.instructions[self.ip] == Instruction::Halt
    }

    /// Executes instructions until the program halts; a machine that has not
    /// halted after `u64::MAX` instructions, or whose tape has grown to
    /// `usize::MAX` cells, stops there.
    pub fn run(&mut self, input: &mut VecDeque<u8>, output: &mut Vec<u8>)
        requires
            old(self).wf(),
        ensures
            final(self).wf(),
            final(self).program() == old(self).program(),
            final(self).config(final(input)@, final(output)@) == run_bounded(
                old(self).program(),
                old(self).config(old(input)@, old(output)@),
                u64::MAX as nat,
            ),
    {
        let ghost p = self.instructions@;
        let ghost start = self.config(input@, output@);
        let mut fuel: u64 = u64::MAX;
        let mut done = false;
        while !done && fuel > 0 && self.data.len() < usize::MAX
            invariant
                self.wf(),
                self.program() == p,
                done ==> halted(p, self.config(input@, output@)),
                run_bounded(p, start, u64::MAX as nat) == run_bounded(
                    p,
                    self.config(input@, output@),
                    fuel as nat,
                ),
            decreases fuel,
        {
            done = self.step(input, output);
            fuel = fuel - 1;
        }
    }

    /// Compiles source text into a fresh machine: instruction pointer and
    /// data pointer at zero, and a tape of one zero cell.
    ///
    /// Fails with `SyntaxError` exactly when the brackets of `src` are not
    /// correctly paired and nested.
    pub fn construct(src: &str) -> (r: Result<VM, SyntaxError>)
        ensures
            r is Ok <==> balanced(src@),
            (exists|i: int| 0 <= i <= src@.len() && depth(#[trigger] src@.take(i)) < 0) ==> r is Err,
            depth(src@) > 0 ==> r is Err,
            r matches Ok(vm) ==> {
                &&& vm.wf()
                &&& program_of(ops(src@), vm.program())
                &&& vm.program().len() == ops(src@).len() + 1
                &&& vm.ip() == 0
                &&& vm.dp() == 0
                &&& vm.tape() == seq![0u8]
            },
    {
        let mut instructions: Vec<Instruction> = Vec::new();
        // Indices of the open brackets still waiting for their close bracket,
        // innermost last.
        let mut jumps: Vec<usize> = Vec::new();
        // The instruction symbols read so far.
        let ghost mut o: Seq<char> = Seq::empty();
        proof {
            lemma_balanced_empty(o);
            assert(src@.take(0).len() == 0);
            assert(gap(o, jumps@, 0) =~= o);
        }
        for c in it: src.chars()
            invariant
                it.seq() == src@,
                o == ops(src@.take(it.index() as int)),
                building(o, instructions@, jumps@),
                never_negative(src@.take(it.index() as int)),
                depth(src@.take(it.index() as int)) == jumps@.len(),
        {
            let ghost before = src@.take(it.index() as int);
            let ghost after = src@.take(it.index() + 1);
            proof {
                assert(after.drop_last() =~= before);
                assert(after.last() == c);
            }
            let instr = Instruction::from_char(c);
            if instr == Instruction::Halt {
                proof {
                    lemma_never_negative_push(before, c);
                    assert(after =~= before.push(c));
                }
            } else if let Instruction::Loop(_) = instr {
                let ghost old_jumps = jumps@;
                let ghost p0 = instructions@;
                let m = match jumps.pop() {
                    Some(m) => m,
                    None => {
                        proof {
                            lemma_negative_prefix(src@, it.index() + 1);
                        }
                        return Err(SyntaxError);
                    },
                };
                // Link the pair: the loop returns to its open bracket, which
                // jumps to just past the loop.
                instructions.push(Instruction::Loop(m));
                let k1 = instructions.len();
                instructions.set(m, Instruction::Jump(k1));
                proof {
                    lemma_build_close(o, p0, old_jumps);
                    lemma_never_negative_push(before, c);
                    assert(after =~= before.push(c));
                    o = o.push(c);
                }
            } else if let Instruction::Jump(_) = instr {
                let k = instructions.len();
                proof {
                    lemma_build_open(o, instructions@, jumps@);
                    lemma_never_negative_push(before, c);
                    assert(after =~= before.push(c));
                }
                jumps.push(k);
                instructions.push(instr);
                proof {
                    o = o.push(c);
                }
            } else {
                proof {
                    lemma_build_other(o, instructions@, jumps@, c, instr);
                    lemma_never_negative_push(before, c);
                    assert(after =~= before.push(c));
                }
                instructions.push(instr);
                proof {
                    o = o.push(c);
                }
            }
        }
        proof {
            assert(src@.take(src@.len() as int) =~= src@);
        }
        // An open bracket that was never closed.
        if jumps.len() > 0 {
            return Err(SyntaxError);
        }
        proof {
            lemma_build_done(o, instructions@, jumps@);
        }
        instructions.push(Instruction::Halt);
        let vm = VM { ip: 0, dp: 0, instructions, data: Tape::new() };
        proof {
            let p = vm.instructions@;
            assert forall|i: int| 0 <= i < p.len() - 1 implies #[trigger] p[i] != Instruction::Halt by {
                assert(symbol_of(o[i], p[i]));
            }
            assert forall|i: int| 0 <= i < p.len() && (#[trigger] p[i]) is Jump implies p[i]->Jump_0 < p.len() by {
                assert(symbol_of(o[i], p[i]));
            }
            assert forall|i: int| 0 <= i < p.len() && (#[trigger] p[i]) is Loop implies p[i]->Loop_0 < p.len() by {
                assert(symbol_of(o[i], p[i]));
            }
        }
        Ok(vm)
    }
    /// The tape cells, from the leftmost.
    pub fn cells(&self) -> (v: Vec<u8>)
        requires
            self.wf(),
        ensures
            v@ == self.tape(),
    {
        self.data.to_vec()
    }

    /// The index of the current cell.
    pub fn data_pointer(&self) -> (r: usize)
        ensures
            r == self.dp(),
    {
        self.dp
    }

    /// The index of the next instruction.
    pub fn instruction_pointer(&self) -> (r: usize)
        ensures
            r == self.ip(),
    {
        self.ip
    }

    /// The number of instructions, the final `Halt` included.
    pub fn program_len(&self) -> (r: usize)
        ensures
            r == self.program().len(),
    {
        self.instructions.len()
    }

    /// The instruction at index `i`.
    pub fn instruction_at(&self, i: usize) -> (r: Instruction)
        requires
            i < self.program().len(),
        ensures
            r == self.program()[i as int],
    {
        self.instructions[i]
    }

    /// Whether the next instruction is `Halt`.
    pub fn is_halted(&self) -> (r: bool)
        requires
            self.wf(),
        ensures
            r == (self.program()[self.ip() as int] == Instruction::Halt),
    {
        self.instructions[self.ip] == Instruction::Halt
    }
}

} // verus!
