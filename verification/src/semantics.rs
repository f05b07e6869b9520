//! What it means to run a program: the state of a machine and the outcome of
//! running instructions on it.
//!
//! Programs may loop forever. To keep every run finite, a state carries a
//! budget of loop repetitions: each time a loop body is entered again, or a
//! jump fails to move forward, one unit is spent, and a run that needs a unit
//! it does not have stops with [`RuntimeError::BudgetExhausted`].

use vstd::prelude::*;
use crate::operand::Instruction;

verus! {

/// Why a run stopped early.
#[derive(Clone, Copy, Debug, PartialEq, Eq, Structural)]
pub enum RuntimeError {
    /// A move would have taken the pointer off the tape.
    PointerOutOfBounds,
    /// The budget of loop repetitions ran out.
    BudgetExhausted,
}

/// The state of a machine between two instructions.
#[verifier::ext_equal]
pub struct State {
    /// The cells of the tape.
    pub memory: Seq<u8>,
    /// The position of the data pointer.
    pub pointer: nat,
    /// The input that has not been read yet.
    pub input: Seq<u8>,
    /// Everything written so far.
    pub output: Seq<u8>,
    /// How many loop repetitions may still be spent.
    pub budget: nat,
}

impl State {
    /// The cell under the pointer; zero where the pointer is off the tape.
    pub open spec fn value(self) -> u8 {
        if self.pointer < self.memory.len() {
            self.memory[self.pointer as int]
        } else {
            0
        }
    }

    /// The state with the cell under the pointer replaced.
    pub open spec fn store(self, value: u8) -> State {
        if self.pointer < self.memory.len() {
            State { memory: self.memory.update(self.pointer as int, value), ..self }
        } else {
            self
        }
    }

    /// The state with the pointer at another position.
    pub open spec fn at(self, pointer: nat) -> State {
        State { pointer, ..self }
    }

    /// The state with one unit of budget spent.
    pub open spec fn spend(self) -> State {
        State { budget: (self.budget - 1) as nat, ..self }
    }

    /// The state with another budget.
    pub open spec fn grant(self, budget: nat) -> State {
        State { budget, ..self }
    }

    /// The last cell of the tape: where a move to the right that fails leaves
    /// the pointer.
    pub open spec fn right_edge(self) -> nat {
        if self.pointer < self.memory.len() {
            (self.memory.len() - 1) as nat
        } else {
            self.pointer
        }
    }
}

/// The sum of a cell and an amount, modulo 256.
pub open spec fn wrapping_sum(cell: u8, amount: nat) -> u8 {
    ((cell as nat + amount) % 256) as u8
}

/// The difference of a cell and an amount, modulo 256.
pub open spec fn wrapping_difference(cell: u8, amount: nat) -> u8 {
    ((cell as int - amount as int) % 256) as u8
}

/// Adding in two parts is adding the sum, and only the amount modulo 256
/// counts.
pub proof fn lemma_wrapping_sum(cell: u8, first: nat, second: nat)
    ensures
        wrapping_sum(wrapping_sum(cell, first), second) == wrapping_sum(cell, first + second),
        wrapping_sum(cell, first % 256) == wrapping_sum(cell, first),
{
    let c = cell as int;
    let a = first as int;
    let b = second as int;
    assert(((c + a) % 256 + b) % 256 == (c + a + b) % 256);
    assert((c + a % 256) % 256 == (c + a) % 256);
}

/// Subtracting in two parts is subtracting the sum, and only the amount
/// modulo 256 counts.
pub proof fn lemma_wrapping_difference(cell: u8, first: nat, second: nat)
    ensures
        wrapping_difference(wrapping_difference(cell, first), second) == wrapping_difference(
            cell,
            first + second,
        ),
        wrapping_difference(cell, first % 256) == wrapping_difference(cell, first),
{
    let c = cell as int;
    let a = first as int;
    let b = second as int;
    assert(((c - a) % 256 - b) % 256 == (c - a - b) % 256);
    assert((c - a % 256) % 256 == (c - a) % 256);
}

/// The result of one instruction or one loop.
#[verifier::ext_equal]
pub struct Outcome {
    /// The error that stopped the run, if one did.
    pub error: Option<RuntimeError>,
    /// The state that the run left behind.
    pub state: State,
}

/// The result of running a block of instructions.
#[verifier::ext_equal]
pub struct Stop {
    /// The position in the block at which the run stopped: past the end after
    /// a complete run, at the failing instruction after an error.
    pub index: nat,
    /// The error that stopped the run, if one did.
    pub error: Option<RuntimeError>,
    /// The state that the run left behind.
    pub state: State,
}

impl Stop {
    /// The result without the position.
    pub open spec fn outcome(self) -> Outcome {
        Outcome { error: self.error, state: self.state }
    }
}

/// A run that went on without error.
pub open spec fn fine(state: State) -> Outcome {
    Outcome { error: None, state }
}

/// A run stopped by an error.
pub open spec fn failed(error: RuntimeError, state: State) -> Outcome {
    Outcome { error: Some(error), state }
}

/// How many instructions of a block lie at or after a position.
pub open spec fn span(block: Seq<Instruction>, index: nat) -> nat {
    if index < block.len() {
        (block.len() - index) as nat
    } else {
        0
    }
}

/// Moves the pointer right. A move that would leave the tape fails and parks
/// the pointer on the last cell.
pub open spec fn move_right(st: State, count: nat) -> Outcome {
    if st.pointer + count < st.memory.len() {
        fine(st.at(st.pointer + count))
    } else {
        failed(RuntimeError::PointerOutOfBounds, st.at(st.right_edge()))
    }
}

/// Moves the pointer left. A move that would leave the tape fails and parks
/// the pointer on the first cell.
pub open spec fn move_left(st: State, count: nat) -> Outcome {
    if count <= st.pointer {
        fine(st.at((st.pointer - count) as nat))
    } else {
        failed(RuntimeError::PointerOutOfBounds, st.at(0))
    }
}

/// Reads one byte into the current cell. With no input left the cell keeps
/// its value.
pub open spec fn read_byte(st: State) -> State {
    if st.input.len() > 0 {
        State { input: st.input.drop_first(), ..st.store(st.input[0]) }
    } else {
        st
    }
}

/// Writes the current cell to the output.
pub open spec fn print_byte(st: State) -> State {
    State { output: st.output.push(st.value()), ..st }
}

/// Runs one instruction, a loop with all its repetitions. A jump means
/// something only at a position of a block, and does nothing here.
pub open spec fn exec_instruction(instruction: Instruction, st: State) -> Outcome
    decreases st.budget, instruction, 0nat,
{
    match instruction {
        Instruction::Next(count) => move_right(st, count),
        Instruction::Prev(count) => move_left(st, count),
        Instruction::Increment(amount) => fine(st.store(wrapping_sum(st.value(), amount))),
        Instruction::Decrement(amount) => fine(st.store(wrapping_difference(st.value(), amount))),
        Instruction::Print => fine(print_byte(st)),
        Instruction::Read => fine(read_byte(st)),
        Instruction::Loop(body) => exec_loop(body, st),
        Instruction::LoopBegin(_) => fine(st),
        Instruction::LoopEnd(_) => fine(st),
    }
}

/// Runs a loop: while the current cell is not zero, runs the body. The first
/// run of the body is free; each further one spends one unit of budget.
pub open spec fn exec_loop(body: Seq<Instruction>, st: State) -> Outcome
    decreases st.budget, body, body.len() + 2,
{
    if st.value() == 0 {
        fine(st)
    } else {
        let stop = run_block(body, 0, st);
        if stop.error is Some {
            stop.outcome()
        } else if stop.state.value() == 0 {
            fine(stop.state)
        } else if stop.state.budget == 0 {
            failed(RuntimeError::BudgetExhausted, stop.state)
        } else if stop.state.budget <= st.budget {
            exec_loop(body, stop.state.spend())
        } else {
            fine(stop.state)
        }
    }
}

/// Continues at the target of a jump. A target that is not ahead of the jump
/// costs one unit of budget.
pub open spec fn jump(index: nat, target: nat, st: State) -> Stop {
    if target > index {
        Stop { index: target, error: None, state: st }
    } else if st.budget == 0 {
        Stop { index, error: Some(RuntimeError::BudgetExhausted), state: st }
    } else {
        Stop { index: target, error: None, state: st.spend() }
    }
}

/// Runs the one instruction at a position of a block and gives the position
/// to go on at.
///
/// A `LoopBegin` on a zero cell and a `LoopEnd` on a non-zero cell jump to
/// their target. Every other instruction runs and hands over to the position
/// behind it, or fails and stays where it is.
pub open spec fn step(block: Seq<Instruction>, index: nat, st: State) -> Stop
    decreases st.budget, block, span(block, index),
{
    if index >= block.len() {
        Stop { index, error: None, state: st }
    } else {
        match block[index as int] {
            Instruction::LoopBegin(target) => if st.value() == 0 {
                jump(index, target, st)
            } else {
                Stop { index: index + 1, error: None, state: st }
            },
            Instruction::LoopEnd(target) => if st.value() != 0 {
                jump(index, target, st)
            } else {
                Stop { index: index + 1, error: None, state: st }
            },
            instruction => {
                let outcome = exec_instruction(instruction, st);
                Stop {
                    index: if outcome.error is Some {
                        index
                    } else {
                        index + 1
                    },
                    error: outcome.error,
                    state: outcome.state,
                }
            },
        }
    }
}

/// A step has brought the run closer to its end: it has spent budget, or it
/// has moved forward in the block.
pub open spec fn advances(block: Seq<Instruction>, index: nat, st: State, next: Stop) -> bool {
    next.state.budget < st.budget || (next.state.budget == st.budget && span(block, next.index)
        < span(block, index))
}

/// Runs a block from a position: takes one step after the other until the
/// run is off the end of the block or a step fails.
pub open spec fn run_block(block: Seq<Instruction>, index: nat, st: State) -> Stop
    decreases st.budget, block, span(block, index) + 1,
{
    if index >= block.len() {
        Stop { index, error: None, state: st }
    } else {
        let next = step(block, index, st);
        if next.error is None && advances(block, index, st, next) {
            run_block(block, next.index, next.state)
        } else {
            next
        }
    }
}

/// What every run keeps: the budget never grows, the tape keeps its length,
/// and a pointer on the tape stays on the tape.
pub open spec fn follows(before: State, after: State) -> bool {
    &&& after.budget <= before.budget
    &&& after.memory.len() == before.memory.len()
    &&& before.pointer < before.memory.len() ==> after.pointer < after.memory.len()
}

/// One instruction leaves a state that follows the one it started from.
pub proof fn lemma_exec_instruction_follows(instruction: Instruction, st: State)
    ensures
        follows(st, exec_instruction(instruction, st).state),
    decreases st.budget, instruction, 0nat,
{
    match instruction {
        Instruction::Loop(body) => lemma_exec_loop_follows(body, st),
        _ => {},
    }
}

/// A loop leaves a state that follows the one it started from.
pub proof fn lemma_exec_loop_follows(body: Seq<Instruction>, st: State)
    ensures
        follows(st, exec_loop(body, st).state),
    decreases st.budget, body, body.len() + 2,
{
    if st.value() != 0 {
        lemma_run_block_follows(body, 0, st);
        let stop = run_block(body, 0, st);
        if stop.error is None && stop.state.value() != 0 && stop.state.budget != 0 {
            lemma_exec_loop_follows(body, stop.state.spend());
        }
    }
}

/// A step leaves a state that follows the one it started from, and where it
/// does not fail it brings the run closer to its end.
pub proof fn lemma_step_follows(block: Seq<Instruction>, index: nat, st: State)
    ensures
        follows(st, step(block, index, st).state),
        index < block.len() && step(block, index, st).error is None ==> advances(
            block,
            index,
            st,
            step(block, index, st),
        ),
    decreases st.budget, block, span(block, index),
{
    if index < block.len() {
        lemma_exec_instruction_follows(block[index as int], st);
    }
}

/// A block leaves a state that follows the one it started from.
pub proof fn lemma_run_block_follows(block: Seq<Instruction>, index: nat, st: State)
    ensures
        follows(st, run_block(block, index, st).state),
    decreases st.budget, block, span(block, index) + 1,
{
    if index < block.len() {
        lemma_step_follows(block, index, st);
        let next = step(block, index, st);
        if next.error is None {
            lemma_run_block_follows(block, next.index, next.state);
        }
    }
}

/// Running a block is taking one step and running the block from where the
/// step has led, unless the step fails.
pub proof fn lemma_run_steps(block: Seq<Instruction>, index: nat, st: State)
    requires
        index < block.len(),
    ensures
        follows(st, step(block, index, st).state),
        run_block(block, index, st) == if step(block, index, st).error is Some {
            step(block, index, st)
        } else {
            run_block(block, step(block, index, st).index, step(block, index, st).state)
        },
{
    lemma_step_follows(block, index, st);
}

/// The instruction is neither `LoopBegin` nor `LoopEnd`.
pub open spec fn plain(instruction: Instruction) -> bool {
    !(instruction is LoopBegin) && !(instruction is LoopEnd)
}

/// A block at an instruction that is no jump runs that instruction and goes
/// on behind it, unless the instruction fails.
pub proof fn lemma_run_plain(block: Seq<Instruction>, index: nat, st: State)
    requires
        index < block.len(),
        plain(block[index as int]),
    ensures
        run_block(block, index, st) == if exec_instruction(
            block[index as int],
            st,
        ).error is Some {
            Stop {
                index,
                error: exec_instruction(block[index as int], st).error,
                state: exec_instruction(block[index as int], st).state,
            }
        } else {
            run_block(block, index + 1, exec_instruction(block[index as int], st).state)
        },
{
    lemma_run_steps(block, index, st);
}

/// A loop runs its body once and then, where the cell is not zero and a unit
/// of budget is left, starts over with that unit spent.
pub proof fn lemma_loop_unfolds(body: Seq<Instruction>, st: State)
    requires
        st.value() != 0,
    ensures
        exec_loop(body, st) == if run_block(body, 0, st).error is Some {
            run_block(body, 0, st).outcome()
        } else if run_block(body, 0, st).state.value() == 0 {
            fine(run_block(body, 0, st).state)
        } else if run_block(body, 0, st).state.budget == 0 {
            failed(RuntimeError::BudgetExhausted, run_block(body, 0, st).state)
        } else {
            exec_loop(body, run_block(body, 0, st).state.spend())
        },
{
    lemma_run_block_follows(body, 0, st);
}

/// A loop that is reached on a zero cell does nothing: its body runs zero
/// times and the state stays as it is.
pub proof fn lemma_loop_skipped(body: Seq<Instruction>, st: State)
    requires
        st.value() == 0,
    ensures
        exec_loop(body, st) == fine(st),
        exec_instruction(Instruction::Loop(body), st) == fine(st),
{
}

/// In the flat form a `LoopBegin` that is reached on a zero cell hands over
/// to the instruction behind its `LoopEnd`, and the state stays as it is:
/// nothing between the two brackets runs.
pub proof fn lemma_brackets_skipped(block: Seq<Instruction>, open: nat, close: nat, st: State)
    requires
        open < close < block.len(),
        block[open as int] == Instruction::LoopBegin(close),
        block[close as int] == Instruction::LoopEnd(open),
        st.value() == 0,
    ensures
        run_block(block, open, st) == run_block(block, close + 1, st),
{
    lemma_run_steps(block, open, st);
    lemma_run_steps(block, close, st);
}

/// Adding an amount and subtracting it again gives the cell back, and so
/// does subtracting and adding: the cell wraps modulo 256 in both directions.
pub proof fn lemma_wrapping_inverse(cell: u8, amount: nat)
    ensures
        wrapping_difference(wrapping_sum(cell, amount), amount) == cell,
        wrapping_sum(wrapping_difference(cell, amount), amount) == cell,
        wrapping_sum(cell, amount) == (cell + amount) % 256,
        wrapping_difference(cell, amount) == (cell - amount) % 256,
{
    let c = cell as int;
    let a = amount as int;
    assert(((c + a) % 256 - a) % 256 == c);
    assert(((c - a) % 256 + a) % 256 == c);
}

/// The empty program stops at once and leaves the state as it is: no output,
/// and the tape untouched.
pub proof fn lemma_empty_program(st: State)
    ensures
        run_block(Seq::empty(), 0, st) == (Stop { index: 0, error: None, state: st }),
{
}

/// Output is only ever added and input only ever taken from the front: what
/// was written before a run is still there after it, whether the run ends in
/// an error or not.
pub open spec fn extends(before: State, after: State) -> bool {
    &&& before.output.len() <= after.output.len()
    &&& after.output.take(before.output.len() as int) == before.output
    &&& after.input.len() <= before.input.len()
    &&& before.input.skip(before.input.len() - after.input.len()) == after.input
}

/// One instruction keeps the output written so far.
pub proof fn lemma_exec_instruction_extends(instruction: Instruction, st: State)
    ensures
        extends(st, exec_instruction(instruction, st).state),
    decreases st.budget, instruction, 0nat,
{
    let after = exec_instruction(instruction, st).state;
    match instruction {
        Instruction::Loop(body) => lemma_exec_loop_extends(body, st),
        _ => {
            assert(after.output.take(st.output.len() as int) =~= st.output);
            assert(st.input.skip(st.input.len() - after.input.len()) =~= after.input);
        },
    }
}

/// A loop keeps the output written so far.
pub proof fn lemma_exec_loop_extends(body: Seq<Instruction>, st: State)
    ensures
        extends(st, exec_loop(body, st).state),
    decreases st.budget, body, body.len() + 2,
{
    if st.value() != 0 {
        lemma_run_block_extends(body, 0, st);
        lemma_run_block_follows(body, 0, st);
        let stop = run_block(body, 0, st);
        if stop.error is None && stop.state.value() != 0 && stop.state.budget != 0 {
            lemma_exec_loop_extends(body, stop.state.spend());
            lemma_extends_chain(st, stop.state.spend(), exec_loop(body, st).state);
        }
    } else {
        lemma_extends_chain(st, st, st);
    }
}

/// A block keeps the output written so far.
pub proof fn lemma_run_block_extends(block: Seq<Instruction>, index: nat, st: State)
    ensures
        extends(st, run_block(block, index, st).state),
    decreases st.budget, block, span(block, index) + 1,
{
    if index < block.len() {
        lemma_run_steps(block, index, st);
        let next = step(block, index, st);
        match block[index as int] {
            Instruction::LoopBegin(_) => {},
            Instruction::LoopEnd(_) => {},
            instruction => lemma_exec_instruction_extends(instruction, st),
        }
        lemma_extends_chain(st, st, st);
        if next.error is None {
            lemma_run_block_extends(block, next.index, next.state);
            lemma_extends_chain(st, next.state, run_block(block, index, st).state);
        }
    } else {
        lemma_extends_chain(st, st, st);
    }
}

/// A state extends itself, and extending carries over two runs in a row.
pub proof fn lemma_extends_chain(first: State, second: State, third: State)
    ensures
        extends(first, first),
        extends(first, second) && extends(second, third) ==> extends(first, third),
{
    assert(first.output.take(first.output.len() as int) =~= first.output);
    assert(first.input.skip(0) =~= first.input);
    if extends(first, second) && extends(second, third) {
        assert(third.output.take(first.output.len() as int) =~= second.output.take(
            first.output.len() as int,
        ));
        assert(first.input.skip(first.input.len() - third.input.len()) =~= second.input.skip(
            second.input.len() - third.input.len(),
        ));
    }
}

} // verus!
