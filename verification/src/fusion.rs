use vstd::prelude::*;
use vstd::arithmetic::div_mod::{lemma_add_mod_noop, lemma_mod_twice};
use crate::instruction::Instruction;
use crate::interpreter::{grown, in_reach, lemma_grown_keeps_cells, shift, wrapped, Machine};

verus! {

impl Machine {
    /// The machine after `n` steps that read nothing.
    pub open spec fn after(self, n: nat) -> Machine
        decreases n,
    {
        if n == 0 {
            self
        } else {
            self.step(None).after((n - 1) as nat)
        }
    }

    /// The instructions from the pointer on begin with these.
    pub open spec fn at(self, code: Seq<Instruction>) -> bool {
        &&& self.pc + code.len() <= self.program.len()
        &&& self.program.subrange(self.pc as int, (self.pc + code.len()) as int) == code
    }
}

/// Two changes of a cell, one after the other, are one change by their
/// sum: what merging a run of `Mutate` rests on.
pub proof fn lemma_wrapped_twice(cell: u8, a: int, b: int)
    ensures
        wrapped(wrapped(cell, a), b) == wrapped(cell, a + b),
{
    lemma_add_mod_noop(cell as int + a, b, 256);
    lemma_mod_twice(cell as int + a, 256);
    lemma_add_mod_noop((cell as int + a) % 256, b, 256);
}

/// Two `Mutate` in a row leave the machine as one `Mutate` with the sum
/// of their deltas does, but for the pointer and the count of steps.
pub proof fn lemma_mutates_merge(m: Machine, r: Machine, a: isize, b: isize)
    requires
        m.wf(),
        m.at(seq![Instruction::Mutate(a), Instruction::Mutate(b)]),
        r.at(seq![Instruction::Mutate((a + b) as isize)]),
        isize::MIN <= a + b <= isize::MAX,
        r.tape == m.tape,
        r.cursor == m.cursor,
    ensures
        m.after(2).tape == r.step(None).tape,
        m.after(2).cursor == r.step(None).cursor,
        m.after(2).pc == m.pc + 2,
        r.step(None).pc == r.pc + 1,
{
    let code = m.program.subrange(m.pc as int, m.pc as int + 2);
    assert(m.program[m.pc as int] == code[0]);
    assert(m.program[m.pc as int + 1] == code[1]);
    assert(r.program[r.pc as int] == r.program.subrange(r.pc as int, r.pc as int + 1)[0]);
    lemma_wrapped_twice(m.cell(), a as int, b as int);
    let m1 = m.step(None);
    assert(m.after(2) == m1.after(1));
    assert(m1.after(1) == m1.step(None).after(0));
    assert(m1.step(None).tape =~= r.step(None).tape);
}

/// Two `Move` in a row that stay on the tape leave the machine as one
/// `Move` by the sum of their deltas does, but for the pointer and the
/// count of steps.
pub proof fn lemma_moves_merge(m: Machine, r: Machine, a: isize, b: isize)
    requires
        m.wf(),
        m.at(seq![Instruction::Move(a), Instruction::Move(b)]),
        r.at(seq![Instruction::Move((a + b) as isize)]),
        0 <= m.cursor + a < m.tape.len(),
        0 <= m.cursor + a + b < m.tape.len(),
        r.tape == m.tape,
        r.cursor == m.cursor,
    ensures
        m.after(2).tape == r.step(None).tape,
        m.after(2).cursor == r.step(None).cursor,
        m.after(2).cursor == m.cursor + a + b,
        m.after(2).pc == m.pc + 2,
        r.step(None).pc == r.pc + 1,
{
    let code = m.program.subrange(m.pc as int, m.pc as int + 2);
    assert(m.program[m.pc as int] == code[0]);
    assert(m.program[m.pc as int + 1] == code[1]);
    assert(r.program[r.pc as int] == r.program.subrange(r.pc as int, r.pc as int + 1)[0]);
    let m1 = m.step(None);
    assert(m.after(2) == m1.after(1));
    assert(m1.after(1) == m1.step(None).after(0));
}

/// The loop that counts a cell down to zero, as the linker leaves it.
pub open spec fn reset_loop() -> Seq<Instruction> {
    seq![
        Instruction::JumpIfZero(2),
        Instruction::Mutate(-1isize),
        Instruction::JumpIfNonZero(-2isize),
    ]
}

/// The rounds of the reset loop, from its second instruction on.
proof fn lemma_reset_rounds(m: Machine, start: nat, c: nat)
    requires
        m.wf(),
        start + 3 <= m.program.len(),
        m.program.subrange(start as int, start as int + 3) == reset_loop(),
        m.pc == start + 1,
        m.cell() == c,
        c > 0,
    ensures
        m.after(2 * c) == (Machine {
            pc: start + 3,
            tape: m.tape.update(m.cursor as int, 0u8),
            steps: m.steps + 2 * c,
            ..m
        }),
    decreases c,
{
    let code = m.program.subrange(start as int, start as int + 3);
    assert(m.program[start as int + 1] == code[1]);
    assert(m.program[start as int + 2] == code[2]);
    let a = m.step(None);
    assert(a.tape[a.cursor as int] == (c - 1) as u8);
    let b = a.step(None);
    assert(m.after(2 * c) == b.after((2 * c - 2) as nat)) by {
        assert(m.after(2 * c) == a.after((2 * c - 1) as nat));
    }
    if c > 1 {
        assert(b.pc == start + 1);
        lemma_reset_rounds(b, start, (c - 1) as nat);
        assert(b.tape.update(b.cursor as int, 0u8) == m.tape.update(m.cursor as int, 0u8));
    } else {
        assert(b.pc == start + 3);
        assert(b.tape == m.tape.update(m.cursor as int, 0u8));
    }
}

/// `Reset` does in one step what the loop that counts the cell down does
/// in one step and two more for each unit of the cell: both leave the cell
/// zero, the rest of the tape and the cursor as they were, and the pointer
/// behind them.
pub proof fn lemma_reset_is_the_loop(m: Machine, r: Machine)
    requires
        m.wf(),
        m.at(reset_loop()),
        r.at(seq![Instruction::Reset]),
        r.tape == m.tape,
        r.cursor == m.cursor,
    ensures
        ({
            let n = (1 + 2 * m.cell()) as nat;
            &&& m.after(n).tape == r.step(None).tape
            &&& m.after(n).cursor == r.step(None).cursor
            &&& m.after(n).pc == m.pc + 3
            &&& r.step(None).pc == r.pc + 1
            &&& m.after(n).steps - m.steps == n
            &&& r.step(None).steps - r.steps == 1
        }),
{
    let code = m.program.subrange(m.pc as int, m.pc as int + 3);
    assert(m.program[m.pc as int] == code[0]);
    assert(r.program[r.pc as int] == r.program.subrange(r.pc as int, r.pc as int + 1)[0]);
    let n = (1 + 2 * m.cell()) as nat;
    let a = m.step(None);
    assert(m.after(n) == a.after((n - 1) as nat));
    if m.cell() == 0 {
        assert(a.after(0) == a);
        assert(m.tape.update(m.cursor as int, 0u8) == m.tape);
    } else {
        lemma_reset_rounds(a, m.pc, m.cell() as nat);
    }
}

/// The loop that counts a cell down to zero and on each round changes the
/// cell `d` places away by `s`, as the linker leaves it. `f` is the move
/// back.
pub open spec fn transfer_loop(d: isize, s: isize, f: isize) -> Seq<Instruction> {
    seq![
        Instruction::JumpIfZero(5),
        Instruction::Move(d),
        Instruction::Mutate(s),
        Instruction::Move(f),
        Instruction::Mutate(-1isize),
        Instruction::JumpIfNonZero(-5isize),
    ]
}

/// The rounds of the transfer loop, from its second instruction on, once
/// the tape holds the cell that the loop adds to.
proof fn lemma_transfer_rounds(m: Machine, start: nat, d: isize, s: isize, f: isize, c: nat)
    requires
        m.wf(),
        start + 6 <= m.program.len(),
        m.program.subrange(start as int, start as int + 6) == transfer_loop(d, s, f),
        d + f == 0,
        d != 0,
        m.pc == start + 1,
        m.cell() == c,
        c > 0,
        0 <= m.cursor + d < m.tape.len(),
    ensures
        m.after(5 * c) == (Machine {
            pc: start + 6,
            tape: m.tape.update(m.cursor + d, wrapped(m.tape[m.cursor + d], c * s)).update(
                m.cursor as int,
                0u8,
            ),
            steps: m.steps + 5 * c,
            ..m
        }),
    decreases c,
{
    let code = m.program.subrange(start as int, start as int + 6);
    assert(m.program[start as int + 1] == code[1]);
    assert(m.program[start as int + 2] == code[2]);
    assert(m.program[start as int + 3] == code[3]);
    assert(m.program[start as int + 4] == code[4]);
    assert(m.program[start as int + 5] == code[5]);
    let src = m.cursor as int;
    let dest = src + d;
    let m1 = m.step(None);
    assert(m1.cursor == dest && m1.tape == m.tape && m1.pc == start + 2);
    let m2 = m1.step(None);
    let once = wrapped(m.tape[dest], s as int);
    assert(m2.tape == m.tape.update(dest, once) && m2.cursor == dest && m2.pc == start + 3);
    let m3 = m2.step(None);
    assert(m3.cursor == src && m3.tape == m2.tape && m3.pc == start + 4);
    let m4 = m3.step(None);
    assert(m4.tape == m2.tape.update(src, (c - 1) as u8) && m4.cursor == src && m4.pc == start
        + 5);
    let m5 = m4.step(None);
    assert(m.after(5 * c) == m5.after((5 * c - 5) as nat)) by {
        assert(m.after(5 * c) == m1.after((5 * c - 1) as nat));
        assert(m1.after((5 * c - 1) as nat) == m2.after((5 * c - 2) as nat));
        assert(m2.after((5 * c - 2) as nat) == m3.after((5 * c - 3) as nat));
        assert(m3.after((5 * c - 3) as nat) == m4.after((5 * c - 4) as nat));
        assert(m4.after((5 * c - 4) as nat) == m5.after((5 * c - 5) as nat));
    }
    let done = m.tape.update(dest, wrapped(m.tape[dest], c * s)).update(src, 0u8);
    if c > 1 {
        assert(m5.pc == start + 1);
        lemma_transfer_rounds(m5, start, d, s, f, (c - 1) as nat);
        lemma_wrapped_twice(m.tape[dest], s as int, (c - 1) * s);
        assert(s + (c - 1) * s == c * s) by (nonlinear_arith);
        assert(m5.tape.update(dest, wrapped(m5.tape[dest], (c - 1) * s)).update(src, 0u8)
            =~= done);
    } else {
        assert(m5.pc == start + 6);
        assert(c * s == s as int) by (nonlinear_arith)
            requires
                c == 1,
        ;
        assert(m5.tape =~= done);
        assert(m5.after(0) == m5);
    }
}

/// `Transfer` does in one step what the loop that it stands for does in
/// one step and five more for each unit of the cell: both add the cell
/// times `s` to the cell `d` places away, leave the cell zero and the
/// cursor on it, and the pointer behind them. Where the cell is zero from
/// the start, the loop leaves the tape as it is, and `Transfer` at most
/// grows it.
pub proof fn lemma_transfer_is_the_loop(m: Machine, r: Machine, d: isize, s: isize, f: isize)
    requires
        m.wf(),
        m.at(transfer_loop(d, s, f)),
        d + f == 0,
        d != 0,
        in_reach(m.tape.len(), m.cursor + d),
        r.at(seq![Instruction::Transfer(d, s)]),
        r.tape == m.tape,
        r.cursor == m.cursor,
    ensures
        ({
            let n = (1 + 5 * m.cell()) as nat;
            &&& m.cell() > 0 ==> m.after(n).tape == r.step(None).tape && m.after(n).cursor
                == r.step(None).cursor
            &&& m.cell() == 0 ==> m.after(n).tape == m.tape && m.after(n).cursor == m.cursor
                && r.step(None).tape == grown(m.tape, m.cursor + d) && r.step(None).cursor
                == m.cursor + shift(m.tape.len(), m.cursor + d)
            &&& m.after(n).pc == m.pc + 6
            &&& r.step(None).pc == r.pc + 1
            &&& m.after(n).steps - m.steps == n
            &&& r.step(None).steps - r.steps == 1
        }),
{
    let code = m.program.subrange(m.pc as int, m.pc as int + 6);
    assert(m.program[m.pc as int] == code[0]);
    assert(m.program[m.pc as int + 1] == code[1]);
    assert(r.program[r.pc as int] == r.program.subrange(r.pc as int, r.pc as int + 1)[0]);
    let c = m.cell() as nat;
    let n = (1 + 5 * c) as nat;
    let src = m.cursor as int;
    let target = src + d;
    let by = shift(m.tape.len(), target);
    let big = grown(m.tape, target);
    lemma_grown_keeps_cells(m.tape, target);
    assert(big[src + by] == m.tape[src]);
    let t = r.step(None);
    let m1 = m.step(None);
    assert(m.after(n) == m1.after((n - 1) as nat));
    if c == 0 {
        assert(m1.after(0) == m1);
        assert(0 * s == 0) by (nonlinear_arith);
        assert(wrapped(big[target + by], 0) == big[target + by]);
        assert(t.tape =~= big);
    } else {
        let g = Machine { tape: big, cursor: (src + by) as nat, ..m1 };
        assert(grown(big, target + by) == big);
        assert(shift(big.len(), target + by) == 0);
        assert(m1.step(None) == g.step(None));
        assert(m1.after(5 * c) == g.after(5 * c)) by {
            assert(m1.after(5 * c) == m1.step(None).after((5 * c - 1) as nat));
            assert(g.after(5 * c) == g.step(None).after((5 * c - 1) as nat));
        }
        lemma_transfer_rounds(g, m.pc, d, s, f, c);
    }
}

} // verus!
