//! The execution engine: tape, pointer and program counter, the meaning of
//! one step, and runs of many steps.

use vstd::prelude::*;
use crate::instruction::BrainfuckInstructions;
use crate::loops::{
    balanced, is_close, is_jump_map, is_open, lemma_balanced_loops_pair, lemma_loop_pair_ends,
    loop_begin, loop_end, loop_pair, resolve, resolve_failure, JumpTable, UnbalancedLoopError,
};

verus! {

/// The number of cells on the tape.
pub const MEMORY_ARRAY_LENGTH: usize = 30000;

/// What a machine holds at one moment.
pub struct MachineState {
    /// The cells.
    pub tape: Seq<u8>,
    /// The place of the current cell.
    pub pointer: int,
    /// The place of the next instruction.
    pub program_counter: int,
}

/// What one step did, as its caller sees it.
#[derive(Clone, Copy, Debug, PartialEq, Eq, Structural)]
pub enum StepEvent {
    /// No instruction was left: nothing changed.
    Halted,
    /// An instruction ran that neither reads nor writes.
    Moved,
    /// `PrintCell` ran and emitted this unit.
    Output(u8),
    /// `WriteToCell` ran and stored the unit of input that it was given.
    InputStored,
    /// `WriteToCell` ran with no input left, and left the cell as it was.
    InputMissing,
}

/// A machine in its first state: every cell zero, pointer and program
/// counter at the start.
pub open spec fn initial_state() -> MachineState {
    MachineState {
        tape: Seq::new(MEMORY_ARRAY_LENGTH as nat, |i: int| 0u8),
        pointer: 0,
        program_counter: 0,
    }
}

/// The state has a current cell, and its program counter is within the
/// program or just behind it.
pub open spec fn state_in_bounds(program: Seq<BrainfuckInstructions>, m: MachineState) -> bool {
    0 <= m.pointer < m.tape.len() && 0 <= m.program_counter <= program.len()
}

/// No instruction is left to run.
pub open spec fn halted(program: Seq<BrainfuckInstructions>, m: MachineState) -> bool {
    m.program_counter >= program.len()
}

/// One more than `value`, and zero after the largest value.
pub open spec fn incremented(value: u8) -> u8 {
    if value == u8::MAX {
        0u8
    } else {
        (value + 1) as u8
    }
}

/// One less than `value`, and the largest value before zero.
pub open spec fn decremented(value: u8) -> u8 {
    if value == 0 {
        u8::MAX
    } else {
        (value - 1) as u8
    }
}

/// The state after one step from `m`, where `input` is the next unit of
/// input, if one is left.
///
/// Pointer moves stop at both ends of the tape, cell arithmetic wraps, and
/// a jump lands on the partner of the loop boundary, which is looked at
/// again in the step after.
pub open spec fn step_state(
    program: Seq<BrainfuckInstructions>,
    m: MachineState,
    input: Option<u8>,
) -> MachineState {
    if halted(program, m) {
        m
    } else {
        let cell = m.tape[m.pointer];
        let onward = m.program_counter + 1;
        match program[m.program_counter] {
            BrainfuckInstructions::IncreasePointer => MachineState {
                pointer: if m.pointer + 1 < m.tape.len() {
                    m.pointer + 1
                } else {
                    m.pointer
                },
                program_counter: onward,
                ..m
            },
            BrainfuckInstructions::DecreasePointer => MachineState {
                pointer: if m.pointer > 0 {
                    m.pointer - 1
                } else {
                    m.pointer
                },
                program_counter: onward,
                ..m
            },
            BrainfuckInstructions::IncreaseValue => MachineState {
                tape: m.tape.update(m.pointer, incremented(cell)),
                program_counter: onward,
                ..m
            },
            BrainfuckInstructions::DecreaseValue => MachineState {
                tape: m.tape.update(m.pointer, decremented(cell)),
                program_counter: onward,
                ..m
            },
            BrainfuckInstructions::BeginLoop => MachineState {
                program_counter: if cell == 0 {
                    loop_end(program, m.program_counter)
                } else {
                    onward
                },
                ..m
            },
            BrainfuckInstructions::EndLoop => MachineState {
                program_counter: if cell != 0 {
                    loop_begin(program, m.program_counter)
                } else {
                    onward
                },
                ..m
            },
            BrainfuckInstructions::WriteToCell => MachineState {
                tape: match input {
                    Some(unit) => m.tape.update(m.pointer, unit),
                    None => m.tape,
                },
                program_counter: onward,
                ..m
            },
            BrainfuckInstructions::PrintCell => MachineState { program_counter: onward, ..m },
        }
    }
}

/// What one step from `m` reports.
pub open spec fn step_event(
    program: Seq<BrainfuckInstructions>,
    m: MachineState,
    input: Option<u8>,
) -> StepEvent {
    if halted(program, m) {
        StepEvent::Halted
    } else {
        match program[m.program_counter] {
            BrainfuckInstructions::PrintCell => StepEvent::Output(m.tape[m.pointer]),
            BrainfuckInstructions::WriteToCell => match input {
                Some(_) => StepEvent::InputStored,
                None => StepEvent::InputMissing,
            },
            _ => StepEvent::Moved,
        }
    }
}

/// A machine together with what it has read and written so far.
pub struct Trace {
    /// The machine's state.
    pub machine: MachineState,
    /// How many units of input were stored.
    pub consumed: int,
    /// The units of output, oldest first.
    pub output: Seq<u8>,
}

/// The trace of a machine that has not read or written yet.
pub open spec fn trace_from(m: MachineState) -> Trace {
    Trace { machine: m, consumed: 0, output: Seq::empty() }
}

/// The next unit of `input` after `consumed` units were taken.
pub open spec fn next_unit(input: Seq<u8>, consumed: int) -> Option<u8> {
    if 0 <= consumed < input.len() {
        Some(input[consumed])
    } else {
        None
    }
}

/// The trace after one step that draws on `input`.
pub open spec fn advance(program: Seq<BrainfuckInstructions>, input: Seq<u8>, t: Trace) -> Trace {
    let unit = next_unit(input, t.consumed);
    match step_event(program, t.machine, unit) {
        StepEvent::Output(unit_out) => Trace {
            machine: step_state(program, t.machine, unit),
            consumed: t.consumed,
            output: t.output.push(unit_out),
        },
        StepEvent::InputStored => Trace {
            machine: step_state(program, t.machine, unit),
            consumed: t.consumed + 1,
            output: t.output,
        },
        _ => Trace {
            machine: step_state(program, t.machine, unit),
            consumed: t.consumed,
            output: t.output,
        },
    }
}

/// The trace after `steps` steps that draw on `input`.
pub open spec fn advance_by(
    program: Seq<BrainfuckInstructions>,
    input: Seq<u8>,
    t: Trace,
    steps: nat,
) -> Trace
    decreases steps,
{
    if steps == 0 {
        t
    } else {
        advance(program, input, advance_by(program, input, t, (steps - 1) as nat))
    }
}

/// The machine runs through each of its first `steps` steps from `start`
/// without being halted before one of them.
pub open spec fn runs_for(
    program: Seq<BrainfuckInstructions>,
    input: Seq<u8>,
    start: MachineState,
    steps: nat,
) -> bool {
    forall|k: nat|
        k < steps ==> !halted(
            program,
            #[trigger] advance_by(program, input, trace_from(start), k).machine,
        )
}

/// From zero, `DecreaseValue` gives the largest cell value; from the
/// largest cell value, `IncreaseValue` gives zero.
pub proof fn lemma_cell_wraps(
    program: Seq<BrainfuckInstructions>,
    m: MachineState,
    input: Option<u8>,
)
    requires
        state_in_bounds(program, m),
        !halted(program, m),
    ensures
        program[m.program_counter] == BrainfuckInstructions::DecreaseValue && m.tape[m.pointer]
            == 0 ==> step_state(program, m, input).tape[m.pointer] == u8::MAX,
        program[m.program_counter] == BrainfuckInstructions::IncreaseValue && m.tape[m.pointer]
            == u8::MAX ==> step_state(program, m, input).tape[m.pointer] == 0,
{
}

/// At the first cell `DecreasePointer` leaves the pointer where it is, and
/// so does `IncreasePointer` at the last cell; no step takes the pointer
/// off the tape.
pub proof fn lemma_pointer_clamps(
    program: Seq<BrainfuckInstructions>,
    m: MachineState,
    input: Option<u8>,
)
    requires
        state_in_bounds(program, m),
        !halted(program, m),
    ensures
        program[m.program_counter] == BrainfuckInstructions::DecreasePointer && m.pointer == 0
            ==> step_state(program, m, input).pointer == 0,
        program[m.program_counter] == BrainfuckInstructions::IncreasePointer && m.pointer
            == m.tape.len() - 1 ==> step_state(program, m, input).pointer == m.pointer,
        0 <= step_state(program, m, input).pointer < m.tape.len(),
        step_state(program, m, input).tape.len() == m.tape.len(),
{
}

/// A step of a balanced program keeps the length of the tape, the pointer
/// on the tape and the program counter within the program or just behind
/// it; a halted machine stays as it is.
pub proof fn lemma_step_in_bounds(
    program: Seq<BrainfuckInstructions>,
    m: MachineState,
    input: Option<u8>,
)
    requires
        balanced(program),
        state_in_bounds(program, m),
    ensures
        state_in_bounds(program, step_state(program, m, input)),
        step_state(program, m, input).tape.len() == m.tape.len(),
        halted(program, m) ==> step_state(program, m, input) == m,
{
    lemma_balanced_loops_pair(program);
    if !halted(program, m) {
        if is_open(program, m.program_counter) {
            assert(loop_pair(program, m.program_counter, loop_end(program, m.program_counter)));
        }
        if is_close(program, m.program_counter) {
            assert(loop_pair(program, loop_begin(program, m.program_counter), m.program_counter));
        }
    }
}

/// What a bounded run did.
#[derive(Debug, Clone, PartialEq, Eq)]
pub struct RunOutcome {
    /// The units of output that were emitted, oldest first.
    pub output: Vec<u8>,
    /// How many units of input were stored.
    pub consumed: usize,
    /// How many steps were taken.
    pub steps: usize,
    /// Whether the machine is halted now.
    pub halted: bool,
}

/// A program with the machine that runs it.
pub struct BrainfuckProgram {
    memory_array: Vec<u8>,
    instructions: Vec<BrainfuckInstructions>,
    pointer: usize,
    program_counter: usize,
    jumps: Option<JumpTable>,
}

impl View for BrainfuckProgram {
    type V = MachineState;

    closed spec fn view(&self) -> MachineState {
        MachineState {
            tape: self.memory_array@,
            pointer: self.pointer as int,
            program_counter: self.program_counter as int,
        }
    }
}

impl BrainfuckProgram {
    /// The instructions of the program.
    pub closed spec fn program(&self) -> Seq<BrainfuckInstructions> {
        self.instructions@
    }

    /// The jump table is there exactly if the program is balanced, and
    /// then it is the program's jump map.
    pub closed spec fn jumps_resolved(&self) -> bool {
        match self.jumps {
            Some(table) => balanced(self.instructions@) && is_jump_map(self.instructions@, table@),
            None => !balanced(self.instructions@),
        }
    }

    /// The tape has its full length, pointer and program counter are in
    /// bounds, and the loops are resolved.
    pub open spec fn wf(&self) -> bool {
        &&& self@.tape.len() == MEMORY_ARRAY_LENGTH
        &&& state_in_bounds(self.program(), self@)
        &&& self.jumps_resolved()
    }

    /// A machine in its first state for `instructions`. The loops are
    /// resolved here, once.
    pub fn new(instructions: Vec<BrainfuckInstructions>) -> (program: BrainfuckProgram)
        ensures
            program.wf(),
            program.program() == instructions@,
            program@ == initial_state(),
    {
        let jumps = match resolve(instructions.as_slice()) {
            Ok(table) => Some(table),
            Err(_) => None,
        };
        let mut memory_array: Vec<u8> = Vec::new();
        while memory_array.len() < MEMORY_ARRAY_LENGTH
            invariant
                memory_array.len() <= MEMORY_ARRAY_LENGTH,
                forall|i: int| 0 <= i < memory_array.len() ==> memory_array@[i] == 0,
            decreases MEMORY_ARRAY_LENGTH - memory_array.len(),
        {
            memory_array.push(0);
        }
        proof {
            assert(memory_array@ =~= initial_state().tape);
        }
        BrainfuckProgram { memory_array, instructions, pointer: 0, program_counter: 0, jumps }
    }

    /// The instructions of the program.
    pub fn instructions(&self) -> (instructions: &Vec<BrainfuckInstructions>)
        ensures
            instructions@ == self.program(),
    {
        &self.instructions
    }

    /// The cells of the tape.
    pub fn memory(&self) -> (cells: &Vec<u8>)
        ensures
            cells@ == self@.tape,
    {
        &self.memory_array
    }

    /// The place of the current cell.
    pub fn pointer(&self) -> (pointer: usize)
        ensures
            pointer == self@.pointer,
    {
        self.pointer
    }

    /// The place of the next instruction.
    pub fn program_counter(&self) -> (program_counter: usize)
        ensures
            program_counter == self@.program_counter,
    {
        self.program_counter
    }

    /// Moves the program counter to `program_counter` if that is a place
    /// in the program or the place just behind it, and says whether it did.
    pub fn set_program_counter(&mut self, program_counter: usize) -> (moved: bool)
        requires
            old(self).wf(),
        ensures
            final(self).wf(),
            final(self).program() == old(self).program(),
            moved == (program_counter <= old(self).program().len()),
            moved ==> final(self)@ == (MachineState {
                program_counter: program_counter as int,
                ..old(self)@
            }),
            !moved ==> final(self)@ == old(self)@,
    {
        if program_counter <= self.instructions.len() {
            self.program_counter = program_counter;
            true
        } else {
            false
        }
    }

    /// Whether no instruction is left to run.
    pub fn is_halted(&self) -> (r: bool)
        ensures
            r == halted(self.program(), self@),
    {
        self.program_counter >= self.instructions.len()
    }

    /// Whether the next step is a `WriteToCell`, which takes a unit of
    /// input.
    pub fn needs_input(&self) -> (r: bool)
        ensures
            r == (!halted(self.program(), self@) && self.program()[self@.program_counter]
                == BrainfuckInstructions::WriteToCell),
    {
        self.program_counter < self.instructions.len()
            && self.instructions[self.program_counter] == BrainfuckInstructions::WriteToCell
    }

    /// Checks that the loops of the program are balanced, and says what is
    /// wrong where they are not.
    pub fn validate(&self) -> (r: Result<(), UnbalancedLoopError>)
        ensures
            r is Ok <==> balanced(self.program()),
            match r {
                Ok(_) => true,
                Err(error) => resolve_failure(self.program(), error),
            },
    {
        match resolve(self.instructions.as_slice()) {
            Ok(_) => Ok(()),
            Err(error) => Err(error),
        }
    }

    /// The place of the `EndLoop` that closes the `BeginLoop` at the
    /// program counter. `None` where the program counter is not at a
    /// `BeginLoop` or the program is not balanced.
    pub fn find_end_loop(&self) -> (r: Option<usize>)
        requires
            self.wf(),
        ensures
            r is Some <==> balanced(self.program()) && is_open(
                self.program(),
                self@.program_counter,
            ),
            match r {
                Some(close) => loop_pair(self.program(), self@.program_counter, close as int)
                    && close == loop_end(self.program(), self@.program_counter),
                None => true,
            },
    {
        match &self.jumps {
            None => None,
            Some(table) => {
                if self.program_counter < self.instructions.len()
                    && self.instructions[self.program_counter]
                    == BrainfuckInstructions::BeginLoop {
                    let r = table.get(self.program_counter);
                    proof {
                        assert(is_open(self.instructions@, self.program_counter as int));
                        assert(table@.dom().contains(self.program_counter as int));
                        lemma_loop_pair_ends(
                            self.instructions@,
                            self.program_counter as int,
                            table@[self.program_counter as int],
                        );
                    }
                    r
                } else {
                    None
                }
            },
        }
    }

    /// The place of the `BeginLoop` that the `EndLoop` at the program
    /// counter closes. `None` where the program counter is not at an
    /// `EndLoop` or the program is not balanced.
    pub fn find_begin_loop(&self) -> (r: Option<usize>)
        requires
            self.wf(),
        ensures
            r is Some <==> balanced(self.program()) && is_close(
                self.program(),
                self@.program_counter,
            ),
            match r {
                Some(open) => loop_pair(self.program(), open as int, self@.program_counter)
                    && open == loop_begin(self.program(), self@.program_counter),
                None => true,
            },
    {
        match &self.jumps {
            None => None,
            Some(table) => {
                if self.program_counter < self.instructions.len()
                    && self.instructions[self.program_counter] == BrainfuckInstructions::EndLoop {
                    let r = table.get(self.program_counter);
                    proof {
                        assert(is_close(self.instructions@, self.program_counter as int));
                        assert(table@.dom().contains(self.program_counter as int));
                        lemma_loop_pair_ends(
                            self.instructions@,
                            table@[self.program_counter as int],
                            self.program_counter as int,
                        );
                    }
                    r
                } else {
                    None
                }
            },
        }
    }

    /// Runs one instruction, or none if the machine is halted. `input` is
    /// the next unit of input, `None` when none is left; only `WriteToCell`
    /// looks at it.
    pub fn step(&mut self, input: Option<u8>) -> (event: StepEvent)
        requires
            old(self).wf(),
            balanced(old(self).program()),
        ensures
            final(self).wf(),
            final(self).program() == old(self).program(),
            final(self)@ == step_state(old(self).program(), old(self)@, input),
            event == step_event(old(self).program(), old(self)@, input),
    {
        if self.program_counter >= self.instructions.len() {
            return StepEvent::Halted;
        }
        let place = self.pointer;
        let cell = self.memory_array[place];
        let mut event = StepEvent::Moved;
        match self.instructions[self.program_counter] {
            BrainfuckInstructions::IncreasePointer => {
                if self.pointer != MEMORY_ARRAY_LENGTH - 1 {
                    self.pointer += 1;
                }
            },
            BrainfuckInstructions::DecreasePointer => {
                if self.pointer != 0 {
                    self.pointer -= 1;
                }
            },
            BrainfuckInstructions::IncreaseValue => {
                if cell == u8::MAX {
                    self.memory_array[place] = 0;
                } else {
                    self.memory_array[place] = cell + 1;
                }
            },
            BrainfuckInstructions::DecreaseValue => {
                if cell == 0 {
                    self.memory_array[place] = u8::MAX;
                } else {
                    self.memory_array[place] = cell - 1;
                }
            },
            BrainfuckInstructions::BeginLoop => {
                if cell == 0 {
                    self.program_counter = self.find_end_loop().unwrap();
                    return StepEvent::Moved;
                }
            },
            BrainfuckInstructions::EndLoop => {
                if cell != 0 {
                    self.program_counter = self.find_begin_loop().unwrap();
                    return StepEvent::Moved;
                }
            },
            BrainfuckInstructions::PrintCell => {
                event = StepEvent::Output(cell);
            },
            BrainfuckInstructions::WriteToCell => {
                match input {
                    Some(unit) => {
                        self.memory_array[place] = unit;
                        event = StepEvent::InputStored;
                    },
                    None => {
                        event = StepEvent::InputMissing;
                    },
                }
            },
        }
        self.program_counter += 1;
        event
    }
    /// Runs the program from the machine's present state until it halts,
    /// but for no more than `max_steps` steps. `WriteToCell` takes the
    /// units of `input` in order, and leaves the cell as it is once they
    /// are used up.
    ///
    /// Nothing runs if the loops of the program are not balanced: the
    /// machine stays as it is, and the error says what is wrong.
    pub fn run(&mut self, input: &[u8], max_steps: usize) -> (r: Result<
        RunOutcome,
        UnbalancedLoopError,
    >)
        requires
            old(self).wf(),
        ensures
            final(self).wf(),
            final(self).program() == old(self).program(),
            r is Ok <==> balanced(old(self).program()),
            match r {
                Ok(outcome) => {
                    let end = advance_by(
                        old(self).program(),
                        input@,
                        trace_from(old(self)@),
                        outcome.steps as nat,
                    );
                    &&& final(self)@ == end.machine
                    &&& outcome.output@ == end.output
                    &&& outcome.consumed == end.consumed
                    &&& outcome.steps <= max_steps
                    &&& outcome.halted == halted(old(self).program(), final(self)@)
                    &&& outcome.halted || outcome.steps == max_steps
                    &&& runs_for(old(self).program(), input@, old(self)@, outcome.steps as nat)
                },
                Err(error) => final(self)@ == old(self)@ && resolve_failure(
                    old(self).program(),
                    error,
                ),
            },
    {
        match self.validate() {
            Ok(_) => {},
            Err(error) => {
                return Err(error);
            },
        }
        let ghost program = self.program();
        let ghost start = self@;
        let mut output: Vec<u8> = Vec::new();
        let mut consumed: usize = 0;
        let mut steps: usize = 0;
        while steps < max_steps && !self.is_halted()
            invariant
                self.wf(),
                self.program() == program,
                balanced(program),
                steps <= max_steps,
                consumed <= input.len(),
                self@ == advance_by(program, input@, trace_from(start), steps as nat).machine,
                output@ == advance_by(program, input@, trace_from(start), steps as nat).output,
                consumed == advance_by(program, input@, trace_from(start), steps as nat).consumed,
                runs_for(program, input@, start, steps as nat),
            decreases max_steps - steps,
        {
            let unit = if consumed < input.len() {
                Some(input[consumed])
            } else {
                None
            };
            match self.step(unit) {
                StepEvent::Output(unit_out) => {
                    output.push(unit_out);
                },
                StepEvent::InputStored => {
                    consumed += 1;
                },
                _ => {},
            }
            steps += 1;
        }
        let halted = self.is_halted();
        Ok(RunOutcome { output, consumed, steps, halted })
    }
}

} // verus!
