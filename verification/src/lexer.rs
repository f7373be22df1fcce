//! The executable machine.
use vstd::prelude::*;
use crate::opcode::Opcode;
use crate::resolver::{balanced, is_pair, jump_table, CompileError, Program};
use crate::semantics::{byte_of_read, clamp_cell, lemma_advance_by_sum, lemma_finished_run_stays,
    lemma_step_keeps_wf, moved_pointer, Machine, Run, RuntimeError, Step};
use crate::tokenizer::{tokenize, tokens_of};
use crate::MEMORY_SIZE;

verus! {

/// Changes a cell by `delta`, saturating at both ends: the result is the sum
/// where that is a byte, 0 where the sum is negative, 255 where it is larger.
pub fn mutate_cell(cell: u8, delta: i64) -> (value: u8)
    ensures
        value == clamp_cell(cell, delta),
        cell == 255 && delta >= 0 ==> value == 255,
        cell == 0 && delta <= 0 ==> value == 0,
{
    let sum: i128 = cell as i128 + delta as i128;
    if sum < 0 {
        0
    } else if sum > 255 {
        255
    } else {
        sum as u8
    }
}

/// Moves a data pointer by `delta` on a tape of `len` cells. The sum is
/// taken in a wider signed type and then held against the tape's bounds, so
/// a move off the tape is an error and never wraps or sticks to an edge.
pub fn move_pointer(dp: usize, delta: i64, len: usize) -> (r: Result<usize, RuntimeError>)
    ensures
        match r {
            Ok(target) => moved_pointer(dp as int, delta, len as int) == Some(target as int),
            Err(e) => e == RuntimeError::PointerOutOfRange && moved_pointer(
                dp as int,
                delta,
                len as int,
            ) is None,
        },
{
    let target: i128 = dp as i128 + delta as i128;
    if 0 <= target && target < len as i128 {
        Ok(target as usize)
    } else {
        Err(RuntimeError::PointerOutOfRange)
    }
}

/// Turns what a character read in the manner of C's `getchar` returned into
/// the input of a step: no byte where the value is negative (the end of the
/// input), else the byte it carries.
pub fn input_byte(code: i32) -> (byte: Option<u8>)
    ensures
        byte == byte_of_read(code),
        byte is None <==> code < 0,
        0 <= code <= 255 ==> byte == Some(code as u8),
{
    if code < 0 {
        None
    } else {
        Some((code % 256) as u8)
    }
}

/// How far a bounded run got.
#[derive(Clone, Copy, Debug, PartialEq, Eq)]
pub struct Progress {
    /// Whether the machine has halted. If not, the step budget ran out.
    pub halted: bool,
    /// How many bytes of the input stream were taken.
    pub consumed: usize,
}

/// What a run from a fresh machine left behind.
#[derive(Debug, PartialEq, Eq)]
pub struct RunResult {
    /// The tape at the end.
    pub memory: Vec<u8>,
    /// The data pointer at the end.
    pub dp: usize,
    /// Whether the machine has halted. If not, the step budget ran out.
    pub halted: bool,
    /// How many bytes of the input stream were taken.
    pub consumed: usize,
}

/// An interpreter session: the opcodes read so far, their jump table, and the
/// machine state they run on.
///
/// `tokenize` adds opcodes, `resolve` computes the jump table, and `step` and
/// `evaluate` run. The fields are open to the host for inspection; the
/// running methods ask that the two pointers are in range and that the jump
/// table is that of the opcodes (see `Machine::wf` and `Machine::resolved`).
#[derive(Debug)]
pub struct Lexer {
    /// The opcodes.
    pub tokens: Vec<Opcode>,
    /// The tape.
    pub memory: Vec<u8>,
    /// The instruction pointer.
    pub ip: usize,
    /// The data pointer.
    pub dp: usize,
    /// The jump table: for each loop bracket the position of its partner.
    pub labels: Vec<usize>,
}

impl View for Lexer {
    type V = Machine;

    open spec fn view(&self) -> Machine {
        Machine {
            tokens: self.tokens@,
            labels: self.labels@,
            memory: self.memory@,
            ip: self.ip as int,
            dp: self.dp as int,
        }
    }
}

impl Lexer {
    /// A machine at rest with no opcodes: a tape of `MEMORY_SIZE` zeros and
    /// both pointers at 0.
    pub fn new() -> (lexer: Lexer)
        ensures
            lexer@ == Machine::fresh(Seq::empty(), Seq::empty(), MEMORY_SIZE as nat),
            lexer@.wf(),
            lexer@.resolved(),
    {
        let lexer = Lexer {
            tokens: Vec::new(),
            memory: vec![0u8; MEMORY_SIZE],
            ip: 0,
            dp: 0,
            labels: Vec::new(),
        };
        assert(lexer.memory@ =~= Seq::new(MEMORY_SIZE as nat, |i: int| 0u8));
        lexer
    }

    /// A machine at rest that holds a copy of `program`.
    pub fn load(program: &Program) -> (lexer: Lexer)
        ensures
            lexer@ == Machine::fresh(program@.ops, program@.jumps, MEMORY_SIZE as nat),
            lexer@.wf(),
            lexer@.resolved(),
    {
        let lexer = Lexer {
            tokens: program.ops().clone(),
            memory: vec![0u8; MEMORY_SIZE],
            ip: 0,
            dp: 0,
            labels: program.jumps().clone(),
        };
        assert(lexer.memory@ =~= Seq::new(MEMORY_SIZE as nat, |i: int| 0u8));
        assert(lexer.tokens@ =~= program@.ops);
        assert(lexer.labels@ =~= program@.jumps);
        lexer
    }

    /// Tokenizes `code` and appends its opcodes to those read so far. The
    /// jump table is left as it is, so it is out of date until the next
    /// `resolve`.
    pub fn tokenize(&mut self, code: String)
        ensures
            final(self)@ == (Machine {
                tokens: old(self)@.tokens + tokens_of(code@),
                ..old(self)@
            }),
            old(self)@.wf() ==> final(self)@.wf(),
    {
        let mut fresh = tokenize(code.as_str());
        self.tokens.append(&mut fresh);
    }

    /// Computes the jump table of the opcodes read so far.
    ///
    /// Succeeds exactly when their brackets are balanced, and then stores
    /// the table. Otherwise says which bracket is at fault and changes
    /// nothing.
    pub fn resolve(&mut self) -> (r: Result<(), CompileError>)
        ensures
            r is Ok <==> balanced(old(self)@.tokens),
            match r {
                Ok(_) => final(self)@.resolved() && final(self)@ == (Machine {
                    labels: final(self)@.labels,
                    ..old(self)@
                }),
                Err(e) => e.describes(old(self)@.tokens) && final(self)@ == old(self)@,
            },
    {
        match jump_table(&self.tokens) {
            Ok(labels) => {
                self.labels = labels;
                Ok(())
            },
            Err(e) => Err(e),
        }
    }

    /// Moves the instruction pointer from a loop end back to the loop start
    /// that it belongs to. Everything else stays as it is.
    pub fn jump_to_starting_of_the_loop(&mut self)
        requires
            old(self)@.wf(),
            old(self)@.resolved(),
            !old(self)@.halted(),
            old(self)@.tokens[old(self)@.ip] is LoopClose,
        ensures
            final(self)@ == old(self)@.at(old(self)@.labels[old(self)@.ip] as int),
            is_pair(old(self)@.tokens, final(self)@.ip, old(self)@.ip),
            final(self)@.wf(),
    {
        proof {
            assert(is_pair(self@.tokens, self@.labels[self@.ip] as int, self@.ip));
        }
        self.ip = self.labels[self.ip];
    }

    /// Whether the next step will ask for an input byte.
    pub fn awaits_input(&self) -> (waiting: bool)
        ensures
            waiting == (!self@.halted() && self@.tokens[self@.ip] is Input),
    {
        if self.ip < self.tokens.len() {
            match self.tokens[self.ip] {
                Opcode::Input => true,
                _ => false,
            }
        } else {
            false
        }
    }

    /// Runs one opcode. `input` is the next byte of the input stream, if
    /// there is one; it is taken only by an input opcode, which fails
    /// without it.
    ///
    /// On success the machine is the one that `Machine::step` gives, and the
    /// result says what the host has to do: nothing, pass on an emitted
    /// byte, or move on in the input stream. On an error, and on a halted
    /// machine, nothing changes.
    pub fn step(&mut self, input: Option<u8>) -> (r: Result<Step, RuntimeError>)
        requires
            old(self)@.wf(),
            old(self)@.resolved(),
        ensures
            match old(self)@.step(input) {
                Ok((next, step)) => r == Ok::<Step, RuntimeError>(step) && final(self)@ == next,
                Err(e) => r == Err::<Step, RuntimeError>(e) && final(self)@ == old(self)@,
            },
            final(self)@.wf(),
            final(self)@.resolved(),
            final(self)@.same_program_and_tape_length(old(self)@),
    {
        proof {
            lemma_step_keeps_wf(self@, input);
        }
        if self.ip >= self.tokens.len() {
            return Ok(Step::Halted);
        }
        let step = match self.tokens[self.ip] {
            Opcode::MovePointer(delta) => {
                match move_pointer(self.dp, delta, self.memory.len()) {
                    Ok(dp) => {
                        self.dp = dp;
                        self.ip = self.ip + 1;
                        Step::Advanced
                    },
                    Err(e) => {
                        return Err(e);
                    },
                }
            },
            Opcode::MutateCell(delta) => {
                let value = mutate_cell(self.memory[self.dp], delta);
                self.memory.set(self.dp, value);
                self.ip = self.ip + 1;
                Step::Advanced
            },
            Opcode::Output => {
                let byte = self.memory[self.dp];
                self.ip = self.ip + 1;
                Step::Emitted(byte)
            },
            Opcode::Input => {
                match input {
                    Some(byte) => {
                        self.memory.set(self.dp, byte);
                        self.ip = self.ip + 1;
                        Step::Consumed
                    },
                    None => {
                        return Err(RuntimeError::InputExhausted);
                    },
                }
            },
            Opcode::LoopOpen => {
                if self.memory[self.dp] == 0 {
                    self.ip = self.labels[self.ip];
                } else {
                    self.ip = self.ip + 1;
                }
                Step::Advanced
            },
            Opcode::LoopClose => {
                if self.memory[self.dp] != 0 {
                    self.jump_to_starting_of_the_loop();
                } else {
                    self.ip = self.ip + 1;
                }
                Step::Advanced
            },
        };
        Ok(step)
    }

    /// Runs until the machine halts, an error aborts the run, or `max_steps`
    /// opcodes have run, whichever comes first. Input bytes are taken from
    /// `input` in order, emitted bytes are appended to `output`.
    ///
    /// The machine, the output and the count of bytes taken are those of
    /// `Run::advance_by` after `max_steps` steps. An error is returned
    /// exactly when that run was aborted, with the output written up to
    /// then in place.
    pub fn evaluate(&mut self, input: &[u8], output: &mut Vec<u8>, max_steps: u64) -> (r: Result<
        Progress,
        RuntimeError,
    >)
        requires
            old(self)@.wf(),
            old(self)@.resolved(),
        ensures
            ({
                let end = Run::start(old(self)@, old(output)@).advance_by(
                    input@,
                    max_steps as nat,
                );
                &&& final(self)@ == end.machine
                &&& final(output)@ == end.output
                &&& match r {
                    Ok(progress) => {
                        &&& end.failure is None
                        &&& progress.halted == end.machine.halted()
                        &&& progress.consumed == end.consumed
                    },
                    Err(e) => end.failure == Some(e),
                }
            }),
            final(self)@.wf(),
            final(self)@.resolved(),
            final(self)@.same_program_and_tape_length(old(self)@),
    {
        let ghost start = Run::start(self@, output@);
        let mut steps: u64 = 0;
        let mut consumed: usize = 0;
        while steps < max_steps && self.ip < self.tokens.len()
            invariant
                start == Run::start(old(self)@, old(output)@),
                steps <= max_steps,
                consumed <= input@.len(),
                self@.wf(),
                self@.resolved(),
                self@.same_program_and_tape_length(old(self)@),
                start.advance_by(input@, steps as nat) == (Run {
                    machine: self@,
                    consumed: consumed as nat,
                    output: output@,
                    failure: None,
                }),
            decreases max_steps - steps,
        {
            let ghost now = start.advance_by(input@, steps as nat);
            let next = if consumed < input.len() {
                Some(input[consumed])
            } else {
                None
            };
            assert(next == now.next_input(input@));
            match self.step(next) {
                Ok(Step::Emitted(byte)) => {
                    output.push(byte);
                },
                Ok(Step::Consumed) => {
                    consumed = consumed + 1;
                },
                Ok(_) => {},
                Err(e) => {
                    proof {
                        let failed = start.advance_by(input@, (steps + 1) as nat);
                        assert(failed == now.advance(input@));
                        lemma_finished_run_stays(failed, input@, (max_steps - steps - 1) as nat);
                        lemma_advance_by_sum(
                            start,
                            input@,
                            (steps + 1) as nat,
                            (max_steps - steps - 1) as nat,
                        );
                    }
                    return Err(e);
                },
            }
            steps = steps + 1;
            assert(start.advance_by(input@, steps as nat) == now.advance(input@));
        }
        proof {
            let now = start.advance_by(input@, steps as nat);
            if steps < max_steps {
                lemma_finished_run_stays(now, input@, (max_steps - steps) as nat);
                lemma_advance_by_sum(start, input@, steps as nat, (max_steps - steps) as nat);
            }
        }
        Ok(Progress { halted: self.ip >= self.tokens.len(), consumed })
    }
}

/// Runs `program` on a fresh machine, for at most `max_steps` opcodes.
/// Input bytes are taken from `input` in order, emitted bytes are appended
/// to `output`.
///
/// The result is that of `Run::advance_by` after `max_steps` steps from a
/// machine at rest: the tape and the data pointer at the end, how many input
/// bytes were taken, and whether the machine has halted or the budget ran
/// out first. An error is returned exactly when that run was aborted, with
/// the output written up to then in place.
pub fn run(program: &Program, input: &[u8], output: &mut Vec<u8>, max_steps: u64) -> (r: Result<
    RunResult,
    RuntimeError,
>)
    ensures
        ({
            let end = Run::start(
                Machine::fresh(program@.ops, program@.jumps, MEMORY_SIZE as nat),
                old(output)@,
            ).advance_by(input@, max_steps as nat);
            &&& final(output)@ == end.output
            &&& match r {
                Ok(result) => {
                    &&& end.failure is None
                    &&& result.memory@ == end.machine.memory
                    &&& result.memory.len() == MEMORY_SIZE
                    &&& result.dp == end.machine.dp
                    &&& result.dp < MEMORY_SIZE
                    &&& result.halted == end.machine.halted()
                    &&& result.consumed == end.consumed
                },
                Err(e) => end.failure == Some(e),
            }
        }),
{
    let mut lexer = Lexer::load(program);
    match lexer.evaluate(input, output, max_steps) {
        Ok(progress) => Ok(
            RunResult {
                memory: lexer.memory,
                dp: lexer.dp,
                halted: progress.halted,
                consumed: progress.consumed,
            },
        ),
        Err(e) => Err(e),
    }
}

} // verus!
