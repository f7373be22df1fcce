//! What running a program means: the machine as plain values, the effect of
//! one opcode on it, and a run of many steps against an input stream.
use vstd::prelude::*;
use crate::opcode::Opcode;
use crate::resolver::{is_jump_table, is_pair};
use crate::tokenizer::merged;

verus! {

/// Why a run was aborted.
#[derive(Clone, Copy, Debug, PartialEq, Eq)]
pub enum RuntimeError {
    /// A pointer move would have left the tape.
    PointerOutOfRange,
    /// An input opcode ran and no byte was available.
    InputExhausted,
}

/// What one step did, as far as the host has to know.
#[derive(Clone, Copy, Debug, PartialEq, Eq)]
pub enum Step {
    /// The instruction pointer stands past the last opcode: nothing was done.
    Halted,
    /// An opcode ran that neither reads nor writes a stream.
    Advanced,
    /// An output opcode ran and emitted this byte.
    Emitted(u8),
    /// An input opcode ran and took the byte that was offered.
    Consumed,
}

/// The value of a cell after a change by `delta`: the sum, held to 0..=255.
pub open spec fn clamp_cell(cell: u8, delta: i64) -> u8 {
    if cell + delta < 0 {
        0u8
    } else if cell + delta > 255 {
        255u8
    } else {
        (cell + delta) as u8
    }
}

/// Where a data pointer at `dp` stands after a move by `delta` on a tape of
/// `len` cells, or `None` when that place is off the tape.
pub open spec fn moved_pointer(dp: int, delta: i64, len: int) -> Option<int> {
    if 0 <= dp + delta < len {
        Some(dp + delta)
    } else {
        None
    }
}

/// What the host learns from a character read in the manner of C's
/// `getchar`: a negative value means that the input is at its end, any
/// other value carries one byte.
pub open spec fn byte_of_read(code: i32) -> Option<u8> {
    if code < 0 {
        None
    } else {
        Some((code % 256) as u8)
    }
}

/// The machine as plain values.
pub struct Machine {
    /// The opcodes.
    pub tokens: Seq<Opcode>,
    /// The jump table that goes with the opcodes.
    pub labels: Seq<usize>,
    /// The tape.
    pub memory: Seq<u8>,
    /// The instruction pointer: the position of the opcode to run next.
    pub ip: int,
    /// The data pointer: the position of the current cell.
    pub dp: int,
}

impl Machine {
    /// Both pointers are in range: the instruction pointer at an opcode or
    /// just past the last one, the data pointer at a cell.
    pub open spec fn wf(self) -> bool {
        0 <= self.ip <= self.tokens.len() && 0 <= self.dp < self.memory.len()
    }

    /// The jump table is that of the opcodes.
    pub open spec fn resolved(self) -> bool {
        is_jump_table(self.tokens, self.labels)
    }

    /// The instruction pointer stands past the last opcode.
    pub open spec fn halted(self) -> bool {
        self.ip >= self.tokens.len()
    }

    /// The current cell.
    pub open spec fn cell(self) -> u8 {
        self.memory[self.dp]
    }

    /// This machine holds the program of `other` and a tape of the same
    /// length: what no step ever changes.
    pub open spec fn same_program_and_tape_length(self, other: Machine) -> bool {
        &&& self.tokens == other.tokens
        &&& self.labels == other.labels
        &&& self.memory.len() == other.memory.len()
    }

    /// A machine at rest with the given program: a tape of `cells` zeros,
    /// both pointers at 0.
    pub open spec fn fresh(tokens: Seq<Opcode>, labels: Seq<usize>, cells: nat) -> Machine {
        Machine { tokens, labels, memory: Seq::new(cells, |i: int| 0u8), ip: 0, dp: 0 }
    }

    /// The same machine with the instruction pointer at `ip`.
    pub open spec fn at(self, ip: int) -> Machine {
        Machine { ip, ..self }
    }

    /// The same machine with the current cell set to `value`.
    pub open spec fn with_cell(self, value: u8) -> Machine {
        Machine { memory: self.memory.update(self.dp, value), ..self }
    }

    /// The effect of one step. `input` is the next byte of the input stream,
    /// if there is one; it is taken only by an input opcode.
    ///
    /// A pointer move off the tape and an input opcode without a byte fail;
    /// a halted machine stays as it is; every opcode that succeeds moves the
    /// instruction pointer on by one, but for the two loop brackets where
    /// they jump to their partner.
    pub open spec fn step(self, input: Option<u8>) -> Result<(Machine, Step), RuntimeError> {
        if self.halted() {
            Ok((self, Step::Halted))
        } else {
            match self.tokens[self.ip] {
                Opcode::MovePointer(delta) => match moved_pointer(
                    self.dp,
                    delta,
                    self.memory.len() as int,
                ) {
                    Some(dp) => Ok((Machine { dp, ip: self.ip + 1, ..self }, Step::Advanced)),
                    None => Err(RuntimeError::PointerOutOfRange),
                },
                Opcode::MutateCell(delta) => Ok(
                    (
                        self.with_cell(clamp_cell(self.cell(), delta)).at(self.ip + 1),
                        Step::Advanced,
                    ),
                ),
                Opcode::Output => Ok((self.at(self.ip + 1), Step::Emitted(self.cell()))),
                Opcode::Input => match input {
                    Some(byte) => Ok((self.with_cell(byte).at(self.ip + 1), Step::Consumed)),
                    None => Err(RuntimeError::InputExhausted),
                },
                Opcode::LoopOpen => if self.cell() == 0 {
                    Ok((self.at(self.labels[self.ip] as int), Step::Advanced))
                } else {
                    Ok((self.at(self.ip + 1), Step::Advanced))
                },
                Opcode::LoopClose => if self.cell() != 0 {
                    Ok((self.at(self.labels[self.ip] as int), Step::Advanced))
                } else {
                    Ok((self.at(self.ip + 1), Step::Advanced))
                },
            }
        }
    }
}

/// A run in progress: the machine, how much of the input stream it has
/// taken, what it has written to the output stream, and the error that
/// aborted it, if one did.
pub struct Run {
    pub machine: Machine,
    pub consumed: nat,
    pub output: Seq<u8>,
    pub failure: Option<RuntimeError>,
}

impl Run {
    /// The start of a run of `machine` that appends to `output`.
    pub open spec fn start(machine: Machine, output: Seq<u8>) -> Run {
        Run { machine, consumed: 0, output, failure: None }
    }

    /// The run is over: the machine has halted or the run was aborted.
    pub open spec fn finished(self) -> bool {
        self.failure is Some || self.machine.halted()
    }

    /// The byte that the input stream offers next.
    pub open spec fn next_input(self, input: Seq<u8>) -> Option<u8> {
        if self.consumed < input.len() {
            Some(input[self.consumed as int])
        } else {
            None
        }
    }

    /// The run one step later. A finished run stays as it is; an error
    /// stops the run with the machine as it stood ahead of the failing
    /// opcode.
    pub open spec fn advance(self, input: Seq<u8>) -> Run {
        if self.finished() {
            self
        } else {
            match self.machine.step(self.next_input(input)) {
                Err(e) => Run { failure: Some(e), ..self },
                Ok((machine, Step::Emitted(byte))) => Run {
                    machine,
                    output: self.output.push(byte),
                    ..self
                },
                Ok((machine, Step::Consumed)) => Run {
                    machine,
                    consumed: self.consumed + 1,
                    ..self
                },
                Ok((machine, _)) => Run { machine, ..self },
            }
        }
    }

    /// The run `steps` steps later.
    pub open spec fn advance_by(self, input: Seq<u8>, steps: nat) -> Run
        decreases steps,
    {
        if steps == 0 {
            self
        } else {
            self.advance_by(input, (steps - 1) as nat).advance(input)
        }
    }
}

/// A step keeps a well-formed, resolved machine well-formed and resolved; it
/// changes neither the program nor the length of the tape.
pub proof fn lemma_step_keeps_wf(machine: Machine, input: Option<u8>)
    requires
        machine.wf(),
        machine.resolved(),
    ensures
        machine.step(input) matches Ok((next, _)) ==> {
            &&& next.wf()
            &&& next.resolved()
            &&& next.same_program_and_tape_length(machine)
        },
{
    if !machine.halted() {
        let ip = machine.ip;
        match machine.tokens[ip] {
            Opcode::LoopOpen => {
                assert(is_pair(machine.tokens, ip, machine.labels[ip] as int));
            },
            Opcode::LoopClose => {
                assert(is_pair(machine.tokens, machine.labels[ip] as int, ip));
            },
            _ => {},
        }
    }
}

/// However long a run goes on, its machine stays well-formed and resolved,
/// with the program and the tape length it started with, and the run has
/// taken no more input than there is.
pub proof fn lemma_run_keeps_wf(run: Run, input: Seq<u8>, steps: nat)
    requires
        run.machine.wf(),
        run.machine.resolved(),
        run.consumed <= input.len(),
    ensures
        run.advance_by(input, steps).machine.wf(),
        run.advance_by(input, steps).machine.resolved(),
        run.advance_by(input, steps).machine.same_program_and_tape_length(run.machine),
        run.advance_by(input, steps).consumed <= input.len(),
    decreases steps,
{
    if steps > 0 {
        lemma_run_keeps_wf(run, input, (steps - 1) as nat);
        let before = run.advance_by(input, (steps - 1) as nat);
        lemma_step_keeps_wf(before.machine, before.next_input(input));
    }
}

/// Once a run is finished, further steps change nothing.
pub proof fn lemma_finished_run_stays(run: Run, input: Seq<u8>, steps: nat)
    requires
        run.finished(),
    ensures
        run.advance_by(input, steps) == run,
    decreases steps,
{
    if steps > 0 {
        lemma_finished_run_stays(run, input, (steps - 1) as nat);
    }
}

/// Steps add up: a run advanced by `a` steps and then by `b` more is the run
/// advanced by `a + b`.
pub proof fn lemma_advance_by_sum(run: Run, input: Seq<u8>, a: nat, b: nat)
    ensures
        run.advance_by(input, a).advance_by(input, b) == run.advance_by(input, a + b),
    decreases b,
{
    if b > 0 {
        lemma_advance_by_sum(run, input, a, (b - 1) as nat);
    }
}

/// The step budget is only a bound: once a run is finished within `enough`
/// steps, every larger budget leaves it exactly there.
pub proof fn lemma_larger_budget_changes_nothing(
    run: Run,
    input: Seq<u8>,
    enough: nat,
    budget: nat,
)
    requires
        run.advance_by(input, enough).finished(),
        enough <= budget,
    ensures
        run.advance_by(input, budget) == run.advance_by(input, enough),
{
    lemma_finished_run_stays(run.advance_by(input, enough), input, (budget - enough) as nat);
    lemma_advance_by_sum(run, input, enough, (budget - enough) as nat);
}

/// Saturation: a cell at 255 stays at 255 under any upward change, and a
/// cell at 0 stays at 0 under any downward change; a cell never wraps.
pub proof fn lemma_saturation(cell: u8, delta: i64)
    ensures
        cell == 255 && delta >= 0 ==> clamp_cell(cell, delta) == 255,
        cell == 0 && delta <= 0 ==> clamp_cell(cell, delta) == 0,
        delta >= 0 ==> clamp_cell(cell, delta) >= cell,
        delta <= 0 ==> clamp_cell(cell, delta) <= cell,
{
}

/// Saturation, seen on the machine: a cell change on a cell that is already
/// at the end it is pushed towards leaves the whole tape as it was.
pub proof fn lemma_saturated_step(machine: Machine, input: Option<u8>, delta: i64)
    requires
        machine.wf(),
        !machine.halted(),
        machine.tokens[machine.ip] == Opcode::MutateCell(delta),
        (machine.cell() == 255 && delta >= 0) || (machine.cell() == 0 && delta <= 0),
    ensures
        machine.step(input) == Ok::<(Machine, Step), RuntimeError>(
            (machine.at(machine.ip + 1), Step::Advanced),
        ),
{
    assert(machine.memory.update(machine.dp, machine.cell()) =~= machine.memory);
}

/// Bounds enforcement: a pointer move fails exactly when it would end off
/// the tape, one cell below the first or at the tape's length included. A
/// move that succeeds lands on the sum; it neither wraps nor clamps.
pub proof fn lemma_pointer_bounds(machine: Machine, input: Option<u8>, delta: i64)
    requires
        machine.wf(),
        !machine.halted(),
        machine.tokens[machine.ip] == Opcode::MovePointer(delta),
    ensures
        machine.step(input) is Err <==> !(0 <= machine.dp + delta < machine.memory.len()),
        machine.step(input) is Err ==> machine.step(input) == Err::<
            (Machine, Step),
            RuntimeError,
        >(RuntimeError::PointerOutOfRange),
        machine.dp + delta == -1 || machine.dp + delta == machine.memory.len()
            ==> machine.step(input) is Err,
        machine.step(input) matches Ok((next, _)) ==> next.dp == machine.dp + delta,
{
}

/// Merging keeps the effect on a cell: the merged change does to every cell
/// what the two changes do one after the other.
pub proof fn lemma_merged_cell_change(cell: u8, a: i64, b: i64)
    requires
        merged(Opcode::MutateCell(a), Opcode::MutateCell(b)) is Some,
    ensures
        merged(Opcode::MutateCell(a), Opcode::MutateCell(b)) == Some(
            Opcode::MutateCell((a + b) as i64),
        ),
        clamp_cell(clamp_cell(cell, a), b) == clamp_cell(cell, (a + b) as i64),
{
}

/// Merging keeps the effect on the data pointer: the merged move fails where
/// one of the two moves would fail, and otherwise lands where they land.
pub proof fn lemma_merged_pointer_move(dp: int, len: int, a: i64, b: i64)
    requires
        0 <= dp < len,
        merged(Opcode::MovePointer(a), Opcode::MovePointer(b)) is Some,
    ensures
        merged(Opcode::MovePointer(a), Opcode::MovePointer(b)) == Some(
            Opcode::MovePointer((a + b) as i64),
        ),
        moved_pointer(dp, (a + b) as i64, len) == match moved_pointer(dp, a, len) {
            Some(mid) => moved_pointer(mid, b, len),
            None => None,
        },
{
}

/// Merging keeps the net effect of a step: a machine that runs `first` and
/// then `second`, and a machine with the same tape and data pointer that runs
/// their merged opcode, fail together with the same error or end with the
/// same tape and data pointer.
pub proof fn lemma_merged_step(split: Machine, joint: Machine, input: Option<u8>)
    requires
        split.wf(),
        joint.wf(),
        split.ip + 1 < split.tokens.len(),
        joint.ip < joint.tokens.len(),
        merged(split.tokens[split.ip], split.tokens[split.ip + 1]) == Some(
            joint.tokens[joint.ip],
        ),
        split.memory == joint.memory,
        split.dp == joint.dp,
    ensures
        match split.step(input) {
            Err(e) => joint.step(input) == Err::<(Machine, Step), RuntimeError>(e),
            Ok((half, _)) => match half.step(input) {
                Err(e) => joint.step(input) == Err::<(Machine, Step), RuntimeError>(e),
                Ok((done, _)) => joint.step(input) matches Ok((next, what)) && what
                    == Step::Advanced && next.memory == done.memory && next.dp == done.dp
                    && next.ip == joint.ip + 1 && done.ip == split.ip + 2,
            },
        },
{
    match (split.tokens[split.ip], split.tokens[split.ip + 1]) {
        (Opcode::MovePointer(a), Opcode::MovePointer(b)) => {
            lemma_merged_pointer_move(split.dp, split.memory.len() as int, a, b);
        },
        (Opcode::MutateCell(a), Opcode::MutateCell(b)) => {
            lemma_merged_cell_change(split.cell(), a, b);
            let half = split.with_cell(clamp_cell(split.cell(), a)).at(split.ip + 1);
            assert(half.cell() == clamp_cell(split.cell(), a));
            assert(half.memory.update(half.dp, clamp_cell(half.cell(), b)) =~= joint.memory.update(
                joint.dp,
                clamp_cell(joint.cell(), (a + b) as i64),
            ));
        },
        _ => {},
    }
}

} // verus!
