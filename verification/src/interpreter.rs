use vstd::prelude::*;
use vstd::arithmetic::div_mod::{lemma_add_mod_noop_right, lemma_mul_mod_noop_right};
use crate::instruction::Instruction;

verus! {

/// Number of cells on the tape of a new machine.
pub const INITIAL_TAPE: usize = 10240;

/// The cell that results from adding `delta` to `cell`, modulo 256.
pub open spec fn wrapped(cell: u8, delta: int) -> u8 {
    ((cell as int + delta) % 256) as u8
}

/// How far a target lies left of the tape's first cell.
pub open spec fn below(target: int) -> nat {
    if target < 0 {
        (-target) as nat
    } else {
        0
    }
}

/// A stretch of `n` zero cells.
pub open spec fn zeros(n: nat) -> Seq<u8> {
    Seq::new(n, |i: int| 0u8)
}

/// The tape after it was grown to hold the cell `target`, counted from the
/// tape's first cell. Left of the first cell the tape doubles, as often as
/// the target needs, and each time keeps its cells in the upper half; right
/// of the last cell it grows to twice the target, filled with zeros.
pub open spec fn grown(tape: Seq<u8>, target: int) -> Seq<u8>
    decreases below(target),
{
    if target < 0 && tape.len() > 0 {
        grown(zeros(tape.len()) + tape, target + tape.len())
    } else if target >= tape.len() {
        tape + zeros((2 * target - tape.len()) as nat)
    } else {
        tape
    }
}

/// The length of a tape of `len` cells after it was grown to hold the cell
/// `target`.
pub open spec fn grown_len(len: nat, target: int) -> nat
    decreases below(target),
{
    if target < 0 && len > 0 {
        grown_len(2 * len, target + len)
    } else if target >= len {
        (2 * target) as nat
    } else {
        len
    }
}

/// The distance by which growing a tape of `len` cells for `target` shifts
/// its cells.
pub open spec fn shift(len: nat, target: int) -> nat
    decreases below(target),
{
    if target < 0 && len > 0 {
        len + shift(2 * len, target + len)
    } else {
        0
    }
}

/// Whether the tape can be grown so that it holds the cell `target`: the
/// grown tape stays within the largest allocation.
pub open spec fn in_reach(len: nat, target: int) -> bool {
    grown_len(len, target) <= isize::MAX
}

/// Where the next instruction is found after the one at `pc`, when a branch
/// with this offset fires: the offset is added before the pointer advances.
/// A target before the program's first instruction is no place for the
/// pointer; it then comes to rest at the program's end, `len`.
pub open spec fn branch_target(len: nat, pc: nat, offset: int) -> nat {
    let t = pc + offset + 1;
    if t >= 0 {
        t as nat
    } else {
        len
    }
}

/// A machine as contracts see it.
pub ghost struct Machine {
    pub program: Seq<Instruction>,
    pub pc: nat,
    pub cursor: nat,
    pub tape: Seq<u8>,
    pub steps: nat,
}

impl Machine {
    /// The cursor is on the tape, and the tape, the program and the
    /// pointer are within the machine's limits.
    pub open spec fn wf(self) -> bool {
        &&& self.cursor < self.tape.len() <= isize::MAX
        &&& self.program.len() <= isize::MAX
        &&& self.pc <= usize::MAX
    }

    /// The machine has run off the end of its program.
    pub open spec fn halted(self) -> bool {
        self.pc >= self.program.len()
    }

    /// The cell under the cursor.
    pub open spec fn cell(self) -> u8 {
        self.tape[self.cursor as int]
    }

    /// The cell that the instruction at the pointer moves or transfers to,
    /// counted from the tape's first cell.
    pub open spec fn target(self) -> int {
        match self.program[self.pc as int] {
            Instruction::Move(m) => self.cursor + m,
            Instruction::Transfer(offset, _) => self.cursor + offset,
            _ => self.cursor as int,
        }
    }

    /// The machine can take a step: it has not halted, its step count can
    /// still rise, and the tape can hold the cell that the step reaches for.
    pub open spec fn can_step(self) -> bool {
        &&& !self.halted()
        &&& self.steps < usize::MAX
        &&& in_reach(self.tape.len(), self.target())
    }

    /// The byte that the next step writes out, if it writes one.
    pub open spec fn emitted(self) -> Option<u8> {
        if !self.halted() && self.program[self.pc as int] is Output {
            Some(self.cell())
        } else {
            None
        }
    }

    /// The next step reads a byte.
    pub open spec fn wants_input(self) -> bool {
        !self.halted() && self.program[self.pc as int] is Input
    }

    /// The machine and the output after it has run on the bytes of `input`,
    /// one step after another, until it can take no further step or has
    /// taken `max_steps` steps in all. Each `Input` instruction takes the
    /// first byte not yet read, and reads nothing once they are used up;
    /// each `Output` instruction appends its byte to `output`.
    pub open spec fn run(self, input: Seq<u8>, output: Seq<u8>, max_steps: nat) -> (Machine, Seq<u8>)
        decreases max_steps - self.steps,
    {
        if !self.can_step() || self.steps >= max_steps {
            (self, output)
        } else {
            let reads = self.wants_input() && input.len() > 0;
            let byte = if reads {
                Some(input[0])
            } else {
                None
            };
            let rest = if reads {
                input.skip(1)
            } else {
                input
            };
            let written = match self.emitted() {
                Some(b) => output.push(b),
                None => output,
            };
            self.step(byte).run(rest, written, max_steps)
        }
    }

    /// The machine after one step. `input` is the byte that was read, or
    /// `None` where reading failed; only an `Input` instruction looks at it.
    pub open spec fn step(self, input: Option<u8>) -> Machine {
        let len = self.program.len();
        let next = (self.pc + 1) as nat;
        let steps = self.steps + 1;
        let here = self.cursor as int;
        match self.program[self.pc as int] {
            Instruction::Mutate(m) => Machine {
                tape: self.tape.update(here, wrapped(self.cell(), m as int)),
                pc: next,
                steps,
                ..self
            },
            Instruction::Move(m) => Machine {
                tape: grown(self.tape, here + m),
                cursor: (here + m + shift(self.tape.len(), here + m)) as nat,
                pc: next,
                steps,
                ..self
            },
            Instruction::Input => Machine {
                tape: match input {
                    Some(b) => self.tape.update(here, b),
                    None => self.tape,
                },
                pc: next,
                steps,
                ..self
            },
            Instruction::Output => Machine { pc: next, steps, ..self },
            Instruction::JumpIfZero(n) => Machine {
                pc: if self.cell() == 0 {
                    branch_target(len, self.pc, n as int)
                } else {
                    next
                },
                steps,
                ..self
            },
            Instruction::JumpIfNonZero(n) => Machine {
                pc: if self.cell() != 0 {
                    branch_target(len, self.pc, n as int)
                } else {
                    next
                },
                steps,
                ..self
            },
            Instruction::Reset => Machine {
                tape: self.tape.update(here, 0u8),
                pc: next,
                steps,
                ..self
            },
            Instruction::Transfer(offset, mult) => {
                let by = shift(self.tape.len(), here + offset);
                let tape = grown(self.tape, here + offset);
                let dest = here + offset + by;
                let source = here + by;
                Machine {
                    tape: tape.update(dest, wrapped(tape[dest], self.cell() * mult)).update(
                        source,
                        0u8,
                    ),
                    cursor: source as nat,
                    pc: next,
                    steps,
                    ..self
                }
            },
        }
    }
}

/// A program loaded on a machine: the instructions, the pointer into them,
/// the tape with its cursor, and the count of the steps taken.
pub struct Program {
    cursor: usize,
    prog_counter: usize,
    program: Vec<Instruction>,
    steps: usize,
    data: Vec<u8>,
}

impl View for Program {
    type V = Machine;

    closed spec fn view(&self) -> Machine {
        Machine {
            program: self.program@,
            pc: self.prog_counter as nat,
            cursor: self.cursor as nat,
            tape: self.data@,
            steps: self.steps as nat,
        }
    }
}

/// The tape grown for a target has the length that `grown_len` gives.
pub proof fn lemma_grown_len(tape: Seq<u8>, target: int)
    ensures
        grown(tape, target).len() == grown_len(tape.len(), target),
    decreases below(target),
{
    if target < 0 && tape.len() > 0 {
        lemma_grown_len(zeros(tape.len()) + tape, target + tape.len());
    }
}

/// Growing never shortens the tape.
pub proof fn lemma_grown_len_bound(len: nat, target: int)
    ensures
        grown_len(len, target) >= len,
    decreases below(target),
{
    if target < 0 && len > 0 {
        lemma_grown_len_bound(2 * len, target + len);
    }
}

/// Whether a tape of `len` cells can be grown to hold the cell `target`.
fn reaches(len: usize, target: i128) -> (b: bool)
    requires
        0 < len <= isize::MAX,
        isize::MIN <= target <= 2 * isize::MAX,
    ensures
        b == in_reach(len as nat, target as int),
{
    let mut l: i128 = len as i128;
    let mut t: i128 = target;
    while t < 0 && l <= isize::MAX as i128
        invariant
            0 < l <= 2 * isize::MAX,
            isize::MIN <= t <= 2 * isize::MAX,
            grown_len(l as nat, t as int) == grown_len(len as nat, target as int),
        decreases below(t as int),
    {
        t = t + l;
        l = 2 * l;
    }
    proof {
        lemma_grown_len_bound(l as nat, t as int);
    }
    if t < 0 {
        false
    } else if t >= l {
        2 * t <= isize::MAX as i128
    } else {
        l <= isize::MAX as i128
    }
}

/// The low byte of a delta: the delta modulo 256.
fn low_byte(m: isize) -> (b: u8)
    ensures
        b as int == (m as int) % 256,
{
    let r: isize = m % 256;
    if r < 0 {
        (r + 256) as u8
    } else {
        r as u8
    }
}

/// Adds a delta, given by its low byte, to a cell.
fn add_low_byte(cell: u8, low: u8, Ghost(delta): Ghost<int>) -> (r: u8)
    requires
        low as int == delta % 256,
    ensures
        r == wrapped(cell, delta),
{
    proof {
        lemma_add_mod_noop_right(cell as int, delta, 256);
    }
    ((cell as u16 + low as u16) % 256) as u8
}

impl Program {
    /// The machine is well formed.
    pub open spec fn wf(&self) -> bool {
        self@.wf()
    }

    /// A machine at the start of the given program, on a tape of
    /// `INITIAL_TAPE` zero cells with the cursor on the first.
    pub fn new(p: Vec<Instruction>) -> (m: Program)
        requires
            p@.len() <= isize::MAX,
        ensures
            m.wf(),
            m@ == (Machine {
                program: p@,
                pc: 0,
                cursor: 0,
                tape: zeros(INITIAL_TAPE as nat),
                steps: 0,
            }),
    {
        let m = Program {
            cursor: 0,
            prog_counter: 0,
            program: p,
            steps: 0,
            data: vec![0u8; INITIAL_TAPE],
        };
        assert(m.data@ =~= zeros(INITIAL_TAPE as nat));
        m
    }

    /// The pointer: the place of the next instruction, or any place behind
    /// the program once the machine has halted.
    pub fn prog_counter(&self) -> (pc: usize)
        ensures
            pc == self@.pc,
    {
        self.prog_counter
    }

    /// Whether the machine has run off the end of its program.
    pub fn halted(&self) -> (b: bool)
        ensures
            b == self@.halted(),
    {
        self.prog_counter >= self.program.len()
    }

    /// The number of steps taken so far.
    pub fn steps(&self) -> (n: usize)
        ensures
            n == self@.steps,
    {
        self.steps
    }

    /// The position of the cursor, counted from the tape's first cell.
    pub fn cursor(&self) -> (c: usize)
        ensures
            c == self@.cursor,
    {
        self.cursor
    }

    /// The cells of the tape.
    pub fn tape(&self) -> (t: &Vec<u8>)
        ensures
            t@ == self@.tape,
    {
        &self.data
    }

    /// The instructions.
    pub fn instructions(&self) -> (p: &Vec<Instruction>)
        ensures
            p@ == self@.program,
    {
        &self.program
    }

    /// Whether the next step reads a byte.
    pub fn wants_input(&self) -> (b: bool)
        ensures
            b == self@.wants_input(),
    {
        if self.prog_counter < self.program.len() {
            match self.program[self.prog_counter] {
                Instruction::Input => true,
                _ => false,
            }
        } else {
            false
        }
    }

    /// Whether the machine can take a step.
    pub fn can_step(&self) -> (b: bool)
        requires
            self.wf(),
        ensures
            b == self@.can_step(),
    {
        if self.prog_counter >= self.program.len() || self.steps == usize::MAX {
            return false;
        }
        let target: i128 = match self.program[self.prog_counter] {
            Instruction::Move(m) => self.cursor as i128 + m as i128,
            Instruction::Transfer(offset, _) => self.cursor as i128 + offset as i128,
            _ => self.cursor as i128,
        };
        reaches(self.data.len(), target)
    }

    /// Grows the tape, if it has to, so that it holds the cell
    /// `signed_cursor`, and returns that cell's place on the tape as it then
    /// is. Cells that were on the tape keep their values, `shift` places
    /// further on. The cursor is left as it was.
    pub fn allocate_location(&mut self, signed_cursor: isize) -> (place: usize)
        requires
            old(self).wf(),
            in_reach(old(self)@.tape.len(), signed_cursor as int),
        ensures
            final(self)@ == (Machine {
                tape: grown(old(self)@.tape, signed_cursor as int),
                ..old(self)@
            }),
            place == signed_cursor + shift(old(self)@.tape.len(), signed_cursor as int),
            place < final(self)@.tape.len() <= isize::MAX,
    {
        let mut target: isize = signed_cursor;
        while target < 0
            invariant
                self@ == (Machine { tape: self@.tape, ..old(self)@ }),
                0 < self@.tape.len() <= isize::MAX,
                in_reach(self@.tape.len(), target as int),
                grown(self@.tape, target as int) == grown(old(self)@.tape, signed_cursor as int),
                target + shift(self@.tape.len(), target as int) == signed_cursor + shift(
                    old(self)@.tape.len(),
                    signed_cursor as int,
                ),
            decreases below(target as int),
        {
            let len = self.data.len();
            let ghost before = self.data@;
            proof {
                lemma_grown_len_bound(2 * len as nat, target + len);
            }
            let mut expanded = vec![0u8; len];
            expanded.append(&mut self.data);
            self.data = expanded;
            assert(self.data@ =~= zeros(len as nat) + before);
            target = target + len as isize;
        }
        if target as usize >= self.data.len() {
            let ghost before = self.data@;
            self.data.resize(2 * (target as usize), 0u8);
            assert(self.data@ =~= before + zeros((2 * target - before.len()) as nat));
        }
        target as usize
    }

    /// Executes the instruction at the pointer. `input` is the byte read for
    /// it, or `None` where reading failed, and is looked at by an `Input`
    /// instruction only. Returns the byte to write out, if the instruction
    /// was an `Output`.
    pub fn step(&mut self, input: Option<u8>) -> (out: Option<u8>)
        requires
            old(self).wf(),
            old(self)@.can_step(),
        ensures
            final(self).wf(),
            final(self)@ == old(self)@.step(input),
            out == old(self)@.emitted(),
    {
        let mut out: Option<u8> = None;
        let len = self.program.len();
        let mut next: usize = self.prog_counter + 1;
        match self.program[self.prog_counter] {
            Instruction::Mutate(m) => {
                let cell = self.data[self.cursor];
                let low = low_byte(m);
                let sum = add_low_byte(cell, low, Ghost(m as int));
                self.data.set(self.cursor, sum);
            },
            Instruction::Move(m) => {
                let signed_cursor = (self.cursor as i128 + m as i128) as isize;
                self.cursor = self.allocate_location(signed_cursor);
            },
            Instruction::JumpIfZero(n) => {
                if self.data[self.cursor] == 0 {
                    next = Self::branch(len, self.prog_counter, n);
                }
            },
            Instruction::JumpIfNonZero(n) => {
                if self.data[self.cursor] != 0 {
                    next = Self::branch(len, self.prog_counter, n);
                }
            },
            Instruction::Input => {
                match input {
                    Some(b) => {
                        self.data.set(self.cursor, b);
                    },
                    None => {},
                }
            },
            Instruction::Output => {
                out = Some(self.data[self.cursor]);
            },
            Instruction::Reset => {
                self.data.set(self.cursor, 0);
            },
            Instruction::Transfer(offset, mult) => {
                let source = self.data[self.cursor];
                let signed_dest = (self.cursor as i128 + offset as i128) as isize;
                proof {
                    lemma_grown_keeps_cells(self.data@, signed_dest as int);
                }
                let dest = self.allocate_location(signed_dest);
                self.cursor = (dest as i128 - offset as i128) as usize;
                let low = low_byte(mult);
                assert(source as int * low as int <= 255 * 255) by (nonlinear_arith)
                    requires
                        0 <= source as int <= 255,
                        0 <= low as int <= 255,
                ;
                let amount: u8 = ((source as u32 * low as u32) % 256) as u8;
                proof {
                    lemma_mul_mod_noop_right(source as int, mult as int, 256);
                }
                let sum = add_low_byte(self.data[dest], amount, Ghost(source as int * mult as int));
                self.data.set(dest, sum);
                self.data.set(self.cursor, 0);
            },
        }
        self.steps = self.steps + 1;
        self.prog_counter = next;
        out
    }

    /// Runs the machine on the bytes of `input` until it can take no
    /// further step or its step count has reached `max_steps`, and appends
    /// what it writes to `output`. Returns the step count, which includes
    /// the steps taken before this call.
    pub fn run(&mut self, input: &[u8], output: &mut Vec<u8>, max_steps: usize) -> (steps: usize)
        requires
            old(self).wf(),
        ensures
            final(self).wf(),
            (final(self)@, final(output)@) == old(self)@.run(
                input@,
                old(output)@,
                max_steps as nat,
            ),
            steps == final(self)@.steps,
    {
        let mut pos: usize = 0;
        assert(input@.skip(0) == input@);
        while self.can_step() && self.steps < max_steps
            invariant
                self.wf(),
                pos <= input.len(),
                self@.run(input@.skip(pos as int), output@, max_steps as nat) == old(self)@.run(
                    input@,
                    old(output)@,
                    max_steps as nat,
                ),
            decreases max_steps - self.steps,
        {
            let mut byte: Option<u8> = None;
            if self.wants_input() && pos < input.len() {
                byte = Some(input[pos]);
                proof {
                    assert(input@.skip(pos as int).skip(1) == input@.skip(pos + 1));
                }
                pos = pos + 1;
            }
            match self.step(byte) {
                Some(b) => output.push(b),
                None => {},
            }
        }
        self.steps
    }

    /// The pointer after a branch with this offset has fired at `pc`.
    fn branch(len: usize, pc: usize, offset: isize) -> (next: usize)
        requires
            pc < len <= isize::MAX,
        ensures
            next == branch_target(len as nat, pc as nat, offset as int),
    {
        let t: i128 = pc as i128 + offset as i128 + 1;
        if t >= 0 {
            t as usize
        } else {
            len
        }
    }
}

/// Growing the tape for a cell in reach puts that cell on the tape, keeps
/// every cell that was on it, `shift` places further on, and fills the
/// rest with zeros.
pub proof fn lemma_grown_keeps_cells(tape: Seq<u8>, target: int)
    requires
        0 < tape.len() <= isize::MAX,
        in_reach(tape.len(), target),
    ensures
        shift(tape.len(), target) + tape.len() <= grown(tape, target).len() <= isize::MAX,
        0 <= target + shift(tape.len(), target) < grown(tape, target).len(),
        forall|i: int|
            0 <= i < tape.len() ==> grown(tape, target)[i + shift(tape.len(), target)]
                == #[trigger] tape[i],
        forall|j: int|
            0 <= j < grown(tape, target).len() && !(shift(tape.len(), target) <= j < shift(
                tape.len(),
                target,
            ) + tape.len()) ==> #[trigger] grown(tape, target)[j] == 0,
    decreases below(target),
{
    lemma_grown_len(tape, target);
    lemma_grown_len_bound(tape.len(), target);
    if target < 0 {
        let len = tape.len();
        let wide = zeros(len) + tape;
        let by = shift(2 * len, target + len);
        let g = grown(tape, target);
        lemma_grown_len_bound(2 * len, target + len);
        lemma_grown_keeps_cells(wide, target + len);
        assert forall|i: int| 0 <= i < len implies g[i + shift(len, target)]
            == #[trigger] tape[i] by {
            assert(g[(i + len) + by] == wide[i + len]);
        }
        assert forall|j: int|
            0 <= j < g.len() && !(shift(len, target) <= j < shift(len, target)
                + len) implies #[trigger] g[j] == 0 by {
            if by <= j < by + 2 * len {
                assert(g[(j - by) + by] == wide[j - by]);
            }
        }
    }
}

/// `Mutate` adds its delta to the cell under the cursor, modulo 256 and so
/// without overflow in either direction, and changes nothing else but the
/// pointer and the count of steps.
pub proof fn lemma_mutate_wraps(m: Machine, d: isize, input: Option<u8>)
    requires
        m.cursor < m.tape.len(),
        m.pc < m.program.len(),
        m.program[m.pc as int] == Instruction::Mutate(d),
    ensures
        m.step(input).cell() == (m.cell() + d) % 256,
        m.step(input).tape == m.tape.update(m.cursor as int, m.step(input).cell()),
        m.step(input).cursor == m.cursor,
        m.step(input).pc == m.pc + 1,
        m.step(input).steps == m.steps + 1,
        m.step(input).program == m.program,
{
}

/// A move to the left of the tape's first cell, by no more than the tape's
/// length, doubles the tape: the new cells are zero, the old cells follow
/// them with their values, and the cursor stands as far before the old
/// first cell as the move asks.
pub proof fn lemma_move_left_doubles(m: Machine, d: isize, input: Option<u8>)
    requires
        m.cursor < m.tape.len(),
        m.pc < m.program.len(),
        m.program[m.pc as int] == Instruction::Move(d),
        -m.tape.len() <= m.cursor + d < 0,
    ensures
        m.step(input).tape == zeros(m.tape.len()) + m.tape,
        m.step(input).cursor == m.tape.len() + m.cursor + d,
        m.step(input).pc == m.pc + 1,
        m.step(input).steps == m.steps + 1,
        m.step(input).program == m.program,
{
    let len = m.tape.len();
    let target = m.cursor + d;
    let wide = zeros(len) + m.tape;
    assert(grown(m.tape, target) == grown(wide, target + len));
    assert(grown(wide, target + len) == wide);
    assert(shift(len, target) == len + shift(2 * len, target + len));
    assert(shift(2 * len, target + len) == 0);
}

/// A move followed by a write: whatever the move does to the tape, the
/// byte read is then found under the cursor, and every other cell that
/// was on the tape before the move has kept its value, `shift` places
/// further on.
pub proof fn lemma_move_then_write(m: Machine, b: u8)
    requires
        m.wf(),
        m.can_step(),
        m.program[m.pc as int] is Move,
        m.pc + 1 < m.program.len(),
        m.program[m.pc as int + 1] is Input,
    ensures
        ({
            let by = shift(m.tape.len(), m.target());
            let after = m.step(None).step(Some(b));
            &&& after.wf()
            &&& after.cursor == m.target() + by
            &&& after.cell() == b
            &&& forall|i: int|
                0 <= i < m.tape.len() && i != m.target() ==> after.tape[i + by] == m.tape[i]
        }),
{
    lemma_grown_keeps_cells(m.tape, m.target());
}

/// A step keeps the machine well formed and the program as it is, counts
/// as one, and never shortens the tape.
pub proof fn lemma_step_keeps(m: Machine, input: Option<u8>)
    requires
        m.wf(),
        m.can_step(),
    ensures
        m.step(input).wf(),
        m.step(input).program == m.program,
        m.step(input).steps == m.steps + 1,
        m.step(input).tape.len() >= m.tape.len(),
{
    lemma_grown_keeps_cells(m.tape, m.target());
}

/// A run keeps the machine well formed and the program as it is, only
/// adds to the output, and never shortens the tape. It ends where the
/// machine can take no step or has taken `max_steps` steps.
pub proof fn lemma_run_keeps(m: Machine, input: Seq<u8>, output: Seq<u8>, max_steps: nat)
    requires
        m.wf(),
    ensures
        ({
            let (end, written) = m.run(input, output, max_steps);
            &&& end.wf()
            &&& end.program == m.program
            &&& end.steps >= m.steps
            &&& end.tape.len() >= m.tape.len()
            &&& output.is_prefix_of(written)
            &&& written.len() - output.len() <= end.steps - m.steps
            &&& !end.can_step() || end.steps >= max_steps
        }),
    decreases max_steps - m.steps,
{
    if m.can_step() && m.steps < max_steps {
        let reads = m.wants_input() && input.len() > 0;
        let byte = if reads {
            Some(input[0])
        } else {
            None
        };
        let rest = if reads {
            input.skip(1)
        } else {
            input
        };
        let next = match m.emitted() {
            Some(b) => output.push(b),
            None => output,
        };
        lemma_step_keeps(m, byte);
        lemma_run_keeps(m.step(byte), rest, next, max_steps);
    }
}

} // verus!
