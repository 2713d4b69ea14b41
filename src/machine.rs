//! The execution engine: a tape of byte cells, a tape pointer and a program
//! counter, driven one instruction at a time through a resolved jump table.
use crate::error::VmError;
use crate::jumps::{
    balanced, lemma_target_is_partner, partner, resolve, resolves, JumpTable, CLOSE, OPEN,
};
use vstd::prelude::*;

verus! {

/// Moves the tape pointer one cell right.
pub const RIGHT: u8 = 0x3e;

/// Moves the tape pointer one cell left.
pub const LEFT: u8 = 0x3c;

/// Adds one to the current cell, modulo 256.
pub const INC: u8 = 0x2b;

/// Subtracts one from the current cell, modulo 256.
pub const DEC: u8 = 0x2d;

/// Writes the current cell to the output.
pub const WRITE: u8 = 0x2e;

/// Reads one input byte into the current cell.
pub const READ: u8 = 0x2c;

/// The tape length used when none is configured.
pub const DEFAULT_TAPE_SIZE: usize = 65535;

/// The abstract state of a machine.
pub ghost struct MachineView {
    pub tape: Seq<u8>,
    pub ptr: int,
    pub pc: int,
}

impl MachineView {
    /// The tape is not empty, the pointer selects one of its cells, and the
    /// program counter is not negative.
    pub open spec fn wf(self) -> bool {
        &&& self.tape.len() >= 1
        &&& 0 <= self.ptr < self.tape.len()
        &&& 0 <= self.pc
    }

    pub open spec fn cell(self) -> u8 {
        self.tape[self.ptr]
    }

    pub open spec fn with_pc(self, pc: int) -> MachineView {
        MachineView { pc, ..self }
    }
}

/// A fresh machine: `tape_size` zero cells, pointer and program counter at 0.
pub open spec fn initial(tape_size: nat) -> MachineView {
    MachineView { tape: Seq::new(tape_size, |i: int| 0u8), ptr: 0, pc: 0 }
}

/// The effect of the instruction at `m.pc`. `input` is what a read
/// instruction takes: `None` at the end of input, which leaves the cell as it
/// was. A move off either end of the tape fails and changes nothing.
pub open spec fn step_spec(p: Seq<u8>, m: MachineView, input: Option<u8>) -> Result<
    MachineView,
    VmError,
> {
    let op = p[m.pc];
    let next = m.with_pc(m.pc + 1);
    if op == RIGHT {
        if m.ptr + 1 >= m.tape.len() {
            Err(VmError::PointerOutOfBounds { pc: m.pc as usize })
        } else {
            Ok(MachineView { ptr: m.ptr + 1, ..next })
        }
    } else if op == LEFT {
        if m.ptr == 0 {
            Err(VmError::PointerOutOfBounds { pc: m.pc as usize })
        } else {
            Ok(MachineView { ptr: m.ptr - 1, ..next })
        }
    } else if op == INC {
        Ok(MachineView { tape: m.tape.update(m.ptr, ((m.cell() + 1) % 256) as u8), ..next })
    } else if op == DEC {
        Ok(MachineView { tape: m.tape.update(m.ptr, ((m.cell() + 255) % 256) as u8), ..next })
    } else if op == READ {
        match input {
            Some(b) => Ok(MachineView { tape: m.tape.update(m.ptr, b), ..next }),
            None => Ok(next),
        }
    } else if op == OPEN {
        if m.cell() == 0 {
            Ok(m.with_pc(partner(p, m.pc) + 1))
        } else {
            Ok(next)
        }
    } else if op == CLOSE {
        if m.cell() != 0 {
            Ok(m.with_pc(partner(p, m.pc)))
        } else {
            Ok(next)
        }
    } else {
        Ok(next)
    }
}

/// The byte that the instruction at `m.pc` writes, if it writes one.
pub open spec fn emitted(p: Seq<u8>, m: MachineView) -> Seq<u8> {
    if p[m.pc] == WRITE {
        seq![m.cell()]
    } else {
        Seq::empty()
    }
}

/// How a run that did not fail came to a stop.
#[derive(Debug, Clone, Copy, PartialEq, Eq, Structural)]
pub enum Status {
    /// The program counter reached the end of the program.
    Halted,
    /// The step budget ran out first; the machine can be run on.
    StepLimit,
}

/// The abstract result of a run: the final machine, what was written, and
/// how the run stopped.
pub ghost struct Trace {
    pub machine: MachineView,
    pub output: Seq<u8>,
    pub result: Result<Status, VmError>,
}

/// Runs `p` from `m` for at most `fuel` instructions. A read instruction
/// takes the first byte of `input`, if there is one.
pub open spec fn run_spec(p: Seq<u8>, m: MachineView, input: Seq<u8>, fuel: nat) -> Trace
    decreases fuel,
{
    if m.pc >= p.len() {
        Trace { machine: m, output: Seq::empty(), result: Ok(Status::Halted) }
    } else if fuel == 0 {
        Trace { machine: m, output: Seq::empty(), result: Ok(Status::StepLimit) }
    } else {
        let reads = p[m.pc] == READ && input.len() > 0;
        let byte = if reads {
            Some(input[0])
        } else {
            None
        };
        let rest = if reads {
            input.drop_first()
        } else {
            input
        };
        match step_spec(p, m, byte) {
            Err(e) => Trace { machine: m, output: Seq::empty(), result: Err(e) },
            Ok(m2) => {
                let t = run_spec(p, m2, rest, (fuel - 1) as nat);
                Trace { output: emitted(p, m) + t.output, ..t }
            },
        }
    }
}

/// What a run hands back: the bytes written, in order, and how it stopped.
#[derive(Debug)]
pub struct Execution {
    pub output: Vec<u8>,
    pub result: Result<Status, VmError>,
}

/// A tape, the pointer into it, and the program counter.
pub struct Machine {
    tape: Vec<u8>,
    ptr: usize,
    pc: usize,
}

impl View for Machine {
    type V = MachineView;

    closed spec fn view(&self) -> MachineView {
        MachineView { tape: self.tape@, ptr: self.ptr as int, pc: self.pc as int }
    }
}

impl Machine {
    /// A machine with `tape_size` zero cells, pointer and program counter at 0.
    pub fn new(tape_size: usize) -> (r: Machine)
        requires
            tape_size >= 1,
        ensures
            r@ == initial(tape_size as nat),
            r@.wf(),
    {
        let mut tape: Vec<u8> = Vec::new();
        let mut k: usize = 0;
        while k < tape_size
            invariant
                k <= tape_size,
                tape.len() == k,
                forall|i: int| 0 <= i < k ==> #[trigger] tape@[i] == 0u8,
            decreases tape_size - k,
        {
            tape.push(0u8);
            k = k + 1;
        }
        let r = Machine { tape, ptr: 0, pc: 0 };
        assert(r@.tape =~= initial(tape_size as nat).tape);
        r
    }

    /// The program counter.
    pub fn pc(&self) -> (r: usize)
        ensures
            r == self@.pc,
    {
        self.pc
    }

    /// The tape pointer.
    pub fn pointer(&self) -> (r: usize)
        ensures
            r == self@.ptr,
    {
        self.ptr
    }

    /// The number of cells on the tape.
    pub fn tape_len(&self) -> (r: usize)
        ensures
            r == self@.tape.len(),
    {
        self.tape.len()
    }

    /// The value of the cell under the pointer.
    pub fn cell(&self) -> (r: u8)
        requires
            self@.wf(),
        ensures
            r == self@.cell(),
    {
        self.tape[self.ptr]
    }

    /// Whether the program counter has reached the end of `program`.
    pub fn is_halted(&self, program: &Vec<u8>) -> (r: bool)
        ensures
            r == (self@.pc >= program@.len()),
    {
        self.pc >= program.len()
    }

    /// Whether the next instruction reads a byte of input.
    pub fn wants_input(&self, program: &Vec<u8>) -> (r: bool)
        ensures
            r == (self@.pc < program@.len() && program@[self@.pc] == READ),
    {
        self.pc < program.len() && program[self.pc] == READ
    }

    /// Executes the instruction at the program counter. `input` is the byte a
    /// read instruction takes (`None` at the end of input) and is ignored by
    /// every other instruction. Returns the byte written, if any; a failed
    /// move leaves the machine as it was.
    pub fn step(&mut self, program: &Vec<u8>, table: &JumpTable, input: Option<u8>) -> (r: Result<
        Option<u8>,
        VmError,
    >)
        requires
            old(self)@.wf(),
            old(self)@.pc < program@.len(),
            resolves(program@, table@),
        ensures
            r == (match step_spec(program@, old(self)@, input) {
                Ok(_) => Ok(
                    if program@[old(self)@.pc] == WRITE {
                        Some(old(self)@.cell())
                    } else {
                        None
                    },
                ),
                Err(e) => Err(e),
            }),
            final(self)@ == (match step_spec(program@, old(self)@, input) {
                Ok(m) => m,
                Err(_) => old(self)@,
            }),
            final(self)@.wf(),
            final(self)@.pc <= program@.len(),
    {
        let pc = self.pc;
        assert(self.ptr < self.tape.len());
        assert(pc < program.len());
        let op = program[pc];
        let cell = self.tape[self.ptr];
        if op == RIGHT {
            if self.ptr + 1 >= self.tape.len() {
                return Err(VmError::PointerOutOfBounds { pc });
            }
            self.ptr = self.ptr + 1;
            self.pc = pc + 1;
        } else if op == LEFT {
            if self.ptr == 0 {
                return Err(VmError::PointerOutOfBounds { pc });
            }
            self.ptr = self.ptr - 1;
            self.pc = pc + 1;
        } else if op == INC {
            let v: u8 = if cell == 255 {
                0
            } else {
                cell + 1
            };
            let ptr = self.ptr;
            self.tape[ptr] = v;
            self.pc = pc + 1;
        } else if op == DEC {
            let v: u8 = if cell == 0 {
                255
            } else {
                cell - 1
            };
            let ptr = self.ptr;
            self.tape[ptr] = v;
            self.pc = pc + 1;
        } else if op == WRITE {
            self.pc = pc + 1;
            return Ok(Some(cell));
        } else if op == READ {
            if let Some(b) = input {
                let ptr = self.ptr;
                self.tape[ptr] = b;
            }
            self.pc = pc + 1;
        } else if op == OPEN {
            proof {
                lemma_target_is_partner(program@, table@, pc as int);
            }
            if cell == 0 {
                self.pc = table.target(pc) + 1;
            } else {
                self.pc = pc + 1;
            }
        } else if op == CLOSE {
            proof {
                lemma_target_is_partner(program@, table@, pc as int);
            }
            if cell != 0 {
                self.pc = table.target(pc);
            } else {
                self.pc = pc + 1;
            }
        } else {
            self.pc = pc + 1;
        }
        Ok(None)
    }

    /// Runs from the current state for at most `max_steps` instructions,
    /// handing read instructions the bytes of `input` in order, and collects
    /// what the program writes. Stops at the end of the program, at the
    /// first failed move, or when the budget is spent.
    pub fn run(&mut self, program: &Vec<u8>, table: &JumpTable, input: &Vec<u8>, max_steps: u64) -> (r:
        Execution)
        requires
            old(self)@.wf(),
            old(self)@.pc <= program@.len(),
            resolves(program@, table@),
        ensures
            ({
                let t = run_spec(program@, old(self)@, input@, max_steps as nat);
                &&& r.output@ == t.output
                &&& r.result == t.result
                &&& final(self)@ == t.machine
            }),
            final(self)@.wf(),
    {
        let ghost p = program@;
        let ghost total = run_spec(p, self@, input@, max_steps as nat);
        let mut output: Vec<u8> = Vec::new();
        let mut pos: usize = 0;
        let mut steps: u64 = 0;
        let mut result: Result<Status, VmError> = Ok(Status::Halted);
        assert(input@.skip(0) =~= input@);
        assert(output@ + total.output =~= total.output);
        loop
            invariant
                p == program@,
                resolves(p, table@),
                self@.wf(),
                self@.pc <= p.len(),
                pos <= input.len(),
                steps <= max_steps,
                ({
                    let t = run_spec(p, self@, input@.skip(pos as int), (max_steps - steps) as nat);
                    &&& total.output == output@ + t.output
                    &&& total.result == t.result
                    &&& total.machine == t.machine
                }),
            ensures
                output@ == total.output,
                result == total.result,
                self@ == total.machine,
                self@.wf(),
            decreases max_steps - steps,
        {
            let ghost before = self@;
            let ghost rest = input@.skip(pos as int);
            let ghost fuel = (max_steps - steps) as nat;
            if self.pc >= program.len() {
                result = Ok(Status::Halted);
                assert(output@ + Seq::<u8>::empty() =~= output@);
                break ;
            }
            if steps >= max_steps {
                result = Ok(Status::StepLimit);
                assert(output@ + Seq::<u8>::empty() =~= output@);
                break ;
            }
            let reads = program[self.pc] == READ && pos < input.len();
            let byte = if reads {
                Some(input[pos])
            } else {
                None
            };
            match self.step(program, table, byte) {
                Err(e) => {
                    result = Err(e);
                    assert(output@ + Seq::<u8>::empty() =~= output@);
                    break ;
                },
                Ok(written) => {
                    let ghost out_before = output@;
                    if let Some(b) = written {
                        output.push(b);
                    }
                    assert(output@ =~= out_before + emitted(p, before));
                    if reads {
                        assert(rest.drop_first() =~= input@.skip(pos + 1));
                        pos = pos + 1;
                    }
                    steps = steps + 1;
                    let ghost t = run_spec(p, self@, input@.skip(pos as int), (max_steps - steps) as nat);
                    assert(out_before + (emitted(p, before) + t.output) =~= output@ + t.output);
                },
            }
        }
        Execution { output, result }
    }
}

/// Resolves `program` and, if its brackets balance, runs it on a fresh
/// machine of `tape_size` cells for at most `max_steps` instructions with
/// `input` as the input stream. Nothing runs when the brackets do not balance.
pub fn execute(program: &Vec<u8>, tape_size: usize, input: &Vec<u8>, max_steps: u64) -> (r:
    Execution)
    requires
        tape_size >= 1,
    ensures
        !balanced(program@) ==> r.output@ == Seq::<u8>::empty() && r.result == Err::<
            Status,
            VmError,
        >(VmError::UnbalancedBrackets),
        balanced(program@) ==> ({
            let t = run_spec(program@, initial(tape_size as nat), input@, max_steps as nat);
            r.output@ == t.output && r.result == t.result
        }),
{
    match resolve(program) {
        Err(e) => Execution { output: Vec::new(), result: Err(e) },
        Ok(table) => {
            let mut machine = Machine::new(tape_size);
            machine.run(program, &table, input, max_steps)
        },
    }
}

/// On a tape of one cell, a program whose first instruction moves the
/// pointer fails at once, at program counter 0, having written nothing.
pub proof fn lemma_move_off_single_cell_tape(p: Seq<u8>, input: Seq<u8>, fuel: nat)
    requires
        p.len() > 0,
        p[0] == LEFT || p[0] == RIGHT,
        fuel >= 1,
    ensures
        run_spec(p, initial(1), input, fuel).result == Err::<Status, VmError>(
            VmError::PointerOutOfBounds { pc: 0 },
        ),
        run_spec(p, initial(1), input, fuel).output == Seq::<u8>::empty(),
        run_spec(p, initial(1), input, fuel).machine == initial(1),
{
}

/// Cells wrap: an increment of 255 gives 0, and a decrement of 0 gives 255.
pub proof fn lemma_cell_wraps(p: Seq<u8>, m: MachineView, input: Option<u8>)
    requires
        m.wf(),
        0 <= m.pc < p.len(),
    ensures
        p[m.pc] == INC && m.cell() == 255 ==> step_spec(p, m, input) == Ok::<MachineView, VmError>(
            MachineView { tape: m.tape.update(m.ptr, 0u8), pc: m.pc + 1, ptr: m.ptr },
        ),
        p[m.pc] == DEC && m.cell() == 0 ==> step_spec(p, m, input) == Ok::<MachineView, VmError>(
            MachineView { tape: m.tape.update(m.ptr, 255u8), pc: m.pc + 1, ptr: m.ptr },
        ),
{
}

} // verus!
