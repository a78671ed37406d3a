use vstd::prelude::*;
use std::collections::VecDeque;
use crate::instruction::{Instruction, VmError, matched};
use crate::decoder::Program;

verus! {

/// Number of cells on the tape.
pub const MEMORY_SIZE: usize = 65536;

/// The abstract state of a processor.
pub struct Machine {
    pub program: Seq<Instruction>,
    pub memory: Seq<u8>,
    pub pointer: int,
    pub pc: int,
    /// Input bytes read but not yet consumed, oldest first.
    pub input: Seq<u8>,
}

/// What one step did.
#[derive(Clone, Copy, Debug, PartialEq, Eq, Structural)]
pub enum StepEvent {
    /// An instruction ran and produced no output.
    Continued,
    /// An `Output` instruction ran and emitted this byte.
    Output(u8),
    /// The instruction at pc is `Input` and no input byte is pending;
    /// nothing changed. Feed a line and step again.
    NeedsInput,
    /// pc is past the end of the program; nothing changed.
    Halted,
}

/// Why a run returned.
#[derive(Clone, Copy, Debug, PartialEq, Eq, Structural)]
pub enum RunStatus {
    /// pc reached the end of the program.
    Halted,
    /// An `Input` instruction is waiting for a line.
    NeedsInput,
    /// The step budget was spent before the program halted.
    Paused,
}

/// A state the processor can be in: a full tape, the pointer on it, pc
/// within or just past the program, and linked loop markers.
pub open spec fn valid(m: Machine) -> bool {
    &&& m.memory.len() == MEMORY_SIZE
    &&& 0 <= m.pointer < MEMORY_SIZE
    &&& 0 <= m.pc <= m.program.len()
    &&& matched(m.program)
}

/// A zeroed tape.
pub open spec fn blank_tape() -> Seq<u8> {
    Seq::new(MEMORY_SIZE as nat, |i: int| 0u8)
}

/// A machine about to run `program` from the start on a zeroed tape.
pub open spec fn fresh(program: Seq<Instruction>, input: Seq<u8>) -> Machine {
    Machine { program, memory: blank_tape(), pointer: 0, pc: 0, input }
}

/// The cell under the pointer.
pub open spec fn current(m: Machine) -> u8 {
    m.memory[m.pointer]
}

/// `m` with pc moved on by one.
pub open spec fn advance(m: Machine) -> Machine {
    Machine { pc: m.pc + 1, ..m }
}

/// `m` with the current cell set to `v` and pc moved on by one.
pub open spec fn store(m: Machine, v: u8) -> Machine {
    Machine { memory: m.memory.update(m.pointer, v), pc: m.pc + 1, ..m }
}

/// What one step does: the event or error, and the state after it. Where
/// the step fails, waits for input or finds the program done, the state is
/// left as it was.
#[verifier::opaque]
pub open spec fn step_spec(m: Machine) -> (Result<StepEvent, VmError>, Machine) {
    if m.pc >= m.program.len() {
        (Ok(StepEvent::Halted), m)
    } else {
        match m.program[m.pc] {
            Instruction::MoveRight => if m.pointer + 1 < MEMORY_SIZE {
                (Ok(StepEvent::Continued), Machine { pointer: m.pointer + 1, ..advance(m) })
            } else {
                (Err(VmError::OutOfBounds), m)
            },
            Instruction::MoveLeft => if m.pointer > 0 {
                (Ok(StepEvent::Continued), Machine { pointer: m.pointer - 1, ..advance(m) })
            } else {
                (Err(VmError::OutOfBounds), m)
            },
            Instruction::Increment => (
                Ok(StepEvent::Continued),
                store(m, ((current(m) + 1) % 256) as u8),
            ),
            Instruction::Decrement => (
                Ok(StepEvent::Continued),
                store(m, ((current(m) + 255) % 256) as u8),
            ),
            Instruction::Output => (Ok(StepEvent::Output(current(m))), advance(m)),
            Instruction::Input => if m.input.len() == 0 {
                (Ok(StepEvent::NeedsInput), m)
            } else {
                (Ok(StepEvent::Continued), Machine { input: m.input.drop_first(), ..store(m, m.input[0]) })
            },
            Instruction::LoopOpen(target) => if current(m) == 0 {
                (Ok(StepEvent::Continued), Machine { pc: target + 1, ..m })
            } else {
                (Ok(StepEvent::Continued), advance(m))
            },
            Instruction::LoopClose(target) => if current(m) != 0 {
                (Ok(StepEvent::Continued), Machine { pc: target + 1, ..m })
            } else {
                (Ok(StepEvent::Continued), advance(m))
            },
        }
    }
}

/// Running with a budget of `fuel` instructions: how the run ends, the
/// state it leaves, and the bytes it emits.
pub open spec fn run_spec(m: Machine, fuel: nat) -> (Result<RunStatus, VmError>, Machine, Seq<u8>)
    decreases fuel,
{
    if m.pc >= m.program.len() {
        (Ok(RunStatus::Halted), m, Seq::empty())
    } else if fuel == 0 {
        (Ok(RunStatus::Paused), m, Seq::empty())
    } else {
        let (r, next) = step_spec(m);
        match r {
            Err(e) => (Err(e), next, Seq::empty()),
            Ok(StepEvent::NeedsInput) => (Ok(RunStatus::NeedsInput), next, Seq::empty()),
            Ok(StepEvent::Output(b)) => {
                let (status, last, out) = run_spec(next, (fuel - 1) as nat);
                (status, last, seq![b] + out)
            },
            _ => run_spec(next, (fuel - 1) as nat),
        }
    }
}

/// A processor: a program, a byte tape with a data pointer, a program
/// counter, and the input bytes that have been read but not consumed.
pub struct Processor {
    pointer: usize,
    pc: usize,
    program: Vec<Instruction>,
    memory: Vec<u8>,
    input_buffer: VecDeque<u8>,
}

impl View for Processor {
    type V = Machine;

    closed spec fn view(&self) -> Machine {
        Machine {
            program: self.program@,
            memory: self.memory@,
            pointer: self.pointer as int,
            pc: self.pc as int,
            input: self.input_buffer@,
        }
    }
}

impl Processor {
    /// A processor with a zeroed tape, no program and no pending input.
    pub fn new() -> (p: Processor)
        ensures
            p@ == fresh(Seq::empty(), Seq::empty()),
            valid(p@),
    {
        let p = Processor {
            pointer: 0,
            pc: 0,
            program: Vec::new(),
            memory: blank_memory(),
            input_buffer: VecDeque::new(),
        };
        assert(p@.program =~= Seq::<Instruction>::empty());
        p
    }

    /// Installs `program` and resets the tape, the pointer and pc. Input
    /// that was read but not consumed stays pending.
    pub fn load(&mut self, program: Program)
        ensures
            final(self)@ == fresh(program@, old(self)@.input),
            valid(final(self)@),
    {
        self.program = program.into_instructions();
        self.memory = blank_memory();
        self.pointer = 0;
        self.pc = 0;
    }

    /// Queues the bytes of one input line, after any still pending.
    pub fn feed(&mut self, line: &[u8])
        ensures
            final(self)@ == (Machine { input: old(self)@.input + line@, ..old(self)@ }),
    {
        let ghost before = self.input_buffer@;
        let mut i: usize = 0;
        while i < line.len()
            invariant
                i <= line@.len(),
                self.input_buffer@ == before + line@.subrange(0, i as int),
                self.pointer == old(self).pointer,
                self.pc == old(self).pc,
                self.program@ == old(self).program@,
                self.memory@ == old(self).memory@,
            decreases line@.len() - i,
        {
            self.input_buffer.push_back(line[i]);
            i = i + 1;
            assert(line@.subrange(0, i as int) =~= line@.subrange(0, i - 1).push(line@[i - 1]));
        }
        assert(line@.subrange(0, i as int) =~= line@);
    }

    /// Executes the instruction at pc.
    pub fn step(&mut self) -> (r: Result<StepEvent, VmError>)
        requires
            valid(old(self)@),
        ensures
            (r, final(self)@) == step_spec(old(self)@),
            valid(final(self)@),
    {
        reveal(step_spec);
        if self.pc >= self.program.len() {
            return Ok(StepEvent::Halted);
        }
        let here = self.pointer;
        let instruction = self.program[self.pc];
        let cell = self.memory[here];
        match instruction {
            Instruction::MoveRight => {
                if here + 1 >= MEMORY_SIZE {
                    return Err(VmError::OutOfBounds);
                }
                self.pointer = here + 1;
            },
            Instruction::MoveLeft => {
                if here == 0 {
                    return Err(VmError::OutOfBounds);
                }
                self.pointer = here - 1;
            },
            Instruction::Increment => {
                self.memory.set(here, cell.wrapping_add(1));
            },
            Instruction::Decrement => {
                self.memory.set(here, cell.wrapping_sub(1));
            },
            Instruction::Output => {
                self.pc = self.pc + 1;
                return Ok(StepEvent::Output(cell));
            },
            Instruction::Input => {
                match self.input_buffer.pop_front() {
                    Some(byte) => {
                        self.memory.set(here, byte);
                    },
                    None => {
                        return Ok(StepEvent::NeedsInput);
                    },
                }
            },
            Instruction::LoopOpen(target) => {
                if cell == 0 {
                    self.pc = target + 1;
                    return Ok(StepEvent::Continued);
                }
            },
            Instruction::LoopClose(target) => {
                if cell != 0 {
                    self.pc = target + 1;
                    return Ok(StepEvent::Continued);
                }
            },
        }
        self.pc = self.pc + 1;
        Ok(StepEvent::Continued)
    }

    /// Steps until the program halts, an `Input` instruction waits for a
    /// line, a step fails, or `fuel` instructions have run. Emitted bytes
    /// are appended to `out`. A paused or waiting processor resumes where it
    /// stopped on the next call.
    pub fn run(&mut self, out: &mut Vec<u8>, fuel: u64) -> (r: Result<RunStatus, VmError>)
        requires
            valid(old(self)@),
        ensures
            r == run_spec(old(self)@, fuel as nat).0,
            final(self)@ == run_spec(old(self)@, fuel as nat).1,
            final(out)@ == old(out)@ + run_spec(old(self)@, fuel as nat).2,
            valid(final(self)@),
    {
        let ghost start = self@;
        let ghost out0 = out@;
        let ghost mut emitted: Seq<u8> = Seq::empty();
        let mut remaining: u64 = fuel;
        loop
            invariant
                start == old(self)@,
                out0 == old(out)@,
                valid(self@),
                out@ == out0 + emitted,
                run_spec(start, fuel as nat).0 == run_spec(self@, remaining as nat).0,
                run_spec(start, fuel as nat).1 == run_spec(self@, remaining as nat).1,
                run_spec(start, fuel as nat).2 == emitted + run_spec(self@, remaining as nat).2,
            decreases remaining,
        {
            if self.pc >= self.program.len() {
                assert(emitted + Seq::<u8>::empty() =~= emitted);
                return Ok(RunStatus::Halted);
            }
            if remaining == 0 {
                assert(emitted + Seq::<u8>::empty() =~= emitted);
                return Ok(RunStatus::Paused);
            }
            let ghost before = self@;
            match self.step() {
                Err(e) => {
                    assert(emitted + Seq::<u8>::empty() =~= emitted);
                    return Err(e);
                },
                Ok(StepEvent::NeedsInput) => {
                    assert(emitted + Seq::<u8>::empty() =~= emitted);
                    return Ok(RunStatus::NeedsInput);
                },
                Ok(StepEvent::Output(byte)) => {
                    out.push(byte);
                    proof {
                        let rest = run_spec(self@, (remaining - 1) as nat).2;
                        assert(emitted + (seq![byte] + rest) =~= emitted.push(byte) + rest);
                        emitted = emitted.push(byte);
                    }
                },
                Ok(_) => {},
            }
            remaining = remaining - 1;
        }
    }

    /// The program counter.
    pub fn pc(&self) -> (r: usize)
        ensures
            r == self@.pc,
    {
        self.pc
    }

    /// The data pointer.
    pub fn pointer(&self) -> (r: usize)
        ensures
            r == self@.pointer,
    {
        self.pointer
    }

    /// The number of instructions loaded.
    pub fn program_len(&self) -> (r: usize)
        ensures
            r == self@.program.len(),
    {
        self.program.len()
    }

    /// The cell under the data pointer.
    pub fn cell(&self) -> (r: u8)
        requires
            valid(self@),
        ensures
            r == current(self@),
    {
        self.memory[self.pointer]
    }

    /// The cell at `index`, or `None` past the end of the tape.
    pub fn cell_at(&self, index: usize) -> (r: Option<u8>)
        requires
            valid(self@),
        ensures
            r == (if index < MEMORY_SIZE { Some(self@.memory[index as int]) } else { None }),
    {
        if index < self.memory.len() {
            Some(self.memory[index])
        } else {
            None
        }
    }

    /// The number of input bytes read but not yet consumed.
    pub fn pending_input(&self) -> (r: usize)
        ensures
            r == self@.input.len(),
    {
        self.input_buffer.len()
    }
}

/// A cell wraps around: incrementing 255 gives 0, and decrementing 0
/// gives 255.
pub proof fn lemma_cell_arithmetic_wraps(m: Machine)
    requires
        valid(m),
        m.pc < m.program.len(),
    ensures
        m.program[m.pc] == Instruction::Increment && current(m) == 255 ==> current(step_spec(m).1)
            == 0,
        m.program[m.pc] == Instruction::Decrement && current(m) == 0 ==> current(step_spec(m).1)
            == 255,
{
    reveal(step_spec);
}

/// The pointer never leaves the tape: a move off either end fails with
/// `OutOfBounds` and leaves the machine as it was, also within a run.
pub proof fn lemma_move_off_tape_fails(m: Machine, fuel: nat)
    requires
        valid(m),
        m.pc < m.program.len(),
        (m.program[m.pc] == Instruction::MoveLeft && m.pointer == 0) || (m.program[m.pc]
            == Instruction::MoveRight && m.pointer == MEMORY_SIZE - 1),
        fuel > 0,
    ensures
        step_spec(m) == (Err::<StepEvent, VmError>(VmError::OutOfBounds), m),
        run_spec(m, fuel) == (Err::<RunStatus, VmError>(VmError::OutOfBounds), m, Seq::<u8>::empty()),
{
    reveal(step_spec);
}

/// A run of the empty program halts at once: nothing runs, nothing is
/// emitted and the machine is unchanged.
pub proof fn lemma_empty_program_halts(m: Machine, fuel: nat)
    requires
        valid(m),
        m.program.len() == 0,
    ensures
        run_spec(m, fuel) == (Ok::<RunStatus, VmError>(RunStatus::Halted), m, Seq::<u8>::empty()),
{
}

/// Every step keeps the machine valid: the pointer stays on the tape and
/// pc stays within or just past the program.
pub proof fn lemma_step_keeps_valid(m: Machine)
    requires
        valid(m),
    ensures
        valid(step_spec(m).1),
{
    reveal(step_spec);
}

fn blank_memory() -> (v: Vec<u8>)
    ensures
        v@ == blank_tape(),
{
    let mut v: Vec<u8> = Vec::new();
    while v.len() < MEMORY_SIZE
        invariant
            v@.len() <= MEMORY_SIZE,
            forall|i: int| 0 <= i < v@.len() ==> v@[i] == 0,
        decreases MEMORY_SIZE - v@.len(),
    {
        v.push(0);
    }
    assert(v@ =~= blank_tape());
    v
}

} // verus!
