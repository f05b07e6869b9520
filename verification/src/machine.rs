//! The virtual machine: a byte tape, a data pointer, and a program.

use vstd::prelude::*;
use crate::operand::{instructions, lemma_loop_view, Instruction, Operand};
use crate::semantics::{
    exec_instruction, exec_loop, jump, lemma_run_block_follows, lemma_run_steps, run_block, span,
    step, Outcome, RuntimeError, State, Stop,
};

verus! {

/// The number of cells on the tape of a new machine.
pub const INITIAL_SIZE: usize = 300000;

/// The data that a program works on.
struct Tape {
    pointer: usize,
    memory: Vec<u8>,
    input: Vec<u8>,
    cursor: usize,
    output: Vec<u8>,
    budget: u64,
}

impl Tape {
    /// The pointer is on the tape, and the cursor within the input.
    spec fn well_formed(self) -> bool {
        &&& self.pointer < self.memory.len()
        &&& self.cursor <= self.input.len()
    }

    /// The state that the tape stands for.
    spec fn state(self) -> State {
        State {
            memory: self.memory@,
            pointer: self.pointer as nat,
            input: self.input@.skip(self.cursor as int),
            output: self.output@,
            budget: self.budget as nat,
        }
    }

    /// The cell under the pointer.
    fn value(&self) -> (value: u8)
        requires
            self.well_formed(),
        ensures
            value == self.state().value(),
    {
        self.memory[self.pointer]
    }

    /// Runs one operand that is no jump, a loop with all its repetitions.
    fn exec_operand(&mut self, operand: &Operand) -> (error: Option<RuntimeError>)
        requires
            old(self).well_formed(),
        ensures
            final(self).well_formed(),
            exec_instruction(operand@, old(self).state()) == (Outcome {
                error,
                state: final(self).state(),
            }),
        decreases operand, 0nat,
    {
        let ghost before = self.state();
        let error = match operand {
            Operand::Next(count) => {
                if *count < self.memory.len() - self.pointer {
                    self.pointer = self.pointer + *count;
                    None
                } else {
                    self.pointer = self.memory.len() - 1;
                    Some(RuntimeError::PointerOutOfBounds)
                }
            },
            Operand::Prev(count) => {
                if *count <= self.pointer {
                    self.pointer = self.pointer - *count;
                    None
                } else {
                    self.pointer = 0;
                    Some(RuntimeError::PointerOutOfBounds)
                }
            },
            Operand::Increment(amount) => {
                let cell = self.memory[self.pointer];
                self.memory.set(self.pointer, cell.wrapping_add(*amount));
                None
            },
            Operand::Decrement(amount) => {
                let cell = self.memory[self.pointer];
                self.memory.set(self.pointer, cell.wrapping_sub(*amount));
                None
            },
            Operand::Print => {
                let cell = self.memory[self.pointer];
                self.output.push(cell);
                None
            },
            Operand::Read => {
                if self.cursor < self.input.len() {
                    let byte = self.input[self.cursor];
                    self.memory.set(self.pointer, byte);
                    self.cursor = self.cursor + 1;
                    proof {
                        assert(self.input@.skip(self.cursor as int) =~= before.input.drop_first());
                    }
                }
                None
            },
            Operand::Loop(body) => {
                proof {
                    lemma_loop_view(*body);
                }
                self.exec_loop(body)
            },
            Operand::LoopBegin(_) => None,
            Operand::LoopEnd(_) => None,
        };
        proof {
            assert(exec_instruction(operand@, before) =~= (Outcome { error, state: self.state() }));
        }
        error
    }

    /// Runs the body of a loop while the cell under the pointer is not zero.
    fn exec_loop(&mut self, body: &Vec<Operand>) -> (error: Option<RuntimeError>)
        requires
            old(self).well_formed(),
        ensures
            final(self).well_formed(),
            exec_loop(instructions(body@), old(self).state()) == (Outcome {
                error,
                state: final(self).state(),
            }),
        decreases body, 2nat,
    {
        let ghost program = instructions(body@);
        let ghost start = self.state();
        loop
            invariant
                self.well_formed(),
                program == instructions(body@),
                start == old(self).state(),
                exec_loop(program, self.state()) == exec_loop(program, start),
            decreases self.budget,
        {
            let ghost head = self.state();
            if self.value() == 0 {
                return None;
            }
            let (_, error) = self.run_block(body, 0);
            proof {
                lemma_run_block_follows(program, 0, head);
            }
            if error.is_some() {
                return error;
            }
            if self.value() == 0 {
                return None;
            }
            if self.budget == 0 {
                return Some(RuntimeError::BudgetExhausted);
            }
            self.budget = self.budget - 1;
            proof {
                assert(self.state() =~= run_block(program, 0, head).state.spend());
            }
        }
    }

    /// Gives the position at which a jump to `target` goes on, and spends
    /// one unit of budget where the target is not ahead.
    fn jump(&mut self, index: usize, target: usize) -> (stop: (usize, Option<RuntimeError>))
        requires
            old(self).well_formed(),
        ensures
            final(self).well_formed(),
            jump(index as nat, target as nat, old(self).state()) == (Stop {
                index: stop.0 as nat,
                error: stop.1,
                state: final(self).state(),
            }),
    {
        if target > index {
            (target, None)
        } else if self.budget == 0 {
            (index, Some(RuntimeError::BudgetExhausted))
        } else {
            self.budget = self.budget - 1;
            proof {
                assert(self.state() =~= old(self).state().spend());
            }
            (target, None)
        }
    }

    /// Runs the operand at `index` and gives the position to go on at.
    fn step(&mut self, block: &Vec<Operand>, index: usize) -> (stop: (
        usize,
        Option<RuntimeError>,
    ))
        requires
            old(self).well_formed(),
            index < block.len(),
        ensures
            final(self).well_formed(),
            step(instructions(block@), index as nat, old(self).state()) == (Stop {
                index: stop.0 as nat,
                error: stop.1,
                state: final(self).state(),
            }),
        decreases block, 0nat,
    {
        assert(instructions(block@)[index as int] == block@[index as int]@);
        match &block[index] {
            Operand::LoopBegin(target) => {
                if self.value() == 0 {
                    self.jump(index, *target)
                } else {
                    (index + 1, None)
                }
            },
            Operand::LoopEnd(target) => {
                if self.value() != 0 {
                    self.jump(index, *target)
                } else {
                    (index + 1, None)
                }
            },
            operand => {
                match self.exec_operand(operand) {
                    Some(error) => (index, Some(error)),
                    None => (index + 1, None),
                }
            },
        }
    }

    /// Runs a block from `start` until it ends or fails.
    fn run_block(&mut self, block: &Vec<Operand>, start: usize) -> (stop: (
        usize,
        Option<RuntimeError>,
    ))
        requires
            old(self).well_formed(),
        ensures
            final(self).well_formed(),
            run_block(instructions(block@), start as nat, old(self).state()) == (Stop {
                index: stop.0 as nat,
                error: stop.1,
                state: final(self).state(),
            }),
        decreases block, 1nat,
    {
        let ghost program = instructions(block@);
        let ghost initial = self.state();
        let mut index = start;
        while index < block.len()
            invariant
                self.well_formed(),
                program == instructions(block@),
                initial == old(self).state(),
                run_block(program, index as nat, self.state()) == run_block(
                    program,
                    start as nat,
                    initial,
                ),
            decreases self.budget, span(program, index as nat),
        {
            proof {
                lemma_run_steps(program, index as nat, self.state());
            }
            let (next, error) = self.step(block, index);
            if error.is_some() {
                return (next, error);
            }
            index = next;
        }
        (index, None)
    }
}

/// The state of a machine that has not run yet: a tape of zero cells with
/// the pointer on the first one, no input, no output and no budget.
pub open spec fn blank(cells: nat) -> State {
    State {
        memory: Seq::new(cells, |i: int| 0u8),
        pointer: 0,
        input: Seq::empty(),
        output: Seq::empty(),
        budget: 0,
    }
}

/// A machine: a tape of byte cells, a data pointer, a program and the
/// position in it, the input that was fed, and the output written so far.
pub struct Machine {
    tape: Tape,
    operands: Vec<Operand>,
    operand_index: usize,
}

impl View for Machine {
    type V = State;

    /// The state of the tape, the pointer, the unread input, the output and
    /// the budget left.
    closed spec fn view(&self) -> State {
        self.tape.state()
    }
}

impl Machine {
    /// The invariant of a machine: the pointer is on the tape. Every machine
    /// that [`Machine::new`] or [`Machine::with_memory`] makes has it, and
    /// every method keeps it.
    pub closed spec fn wf(&self) -> bool {
        self.tape.well_formed()
    }

    /// The program of the machine.
    pub closed spec fn program(&self) -> Seq<Instruction> {
        instructions(self.operands@)
    }

    /// The position of the operand that runs next.
    pub closed spec fn index(&self) -> nat {
        self.operand_index as nat
    }

    /// A well-formed machine has its pointer on the tape.
    pub proof fn lemma_wf(&self)
        requires
            self.wf(),
        ensures
            self@.pointer < self@.memory.len(),
    {
    }

    /// A machine at the start of a program, on a tape of [`INITIAL_SIZE`]
    /// zero cells, with no input.
    pub fn new(operands: Vec<Operand>) -> (machine: Machine)
        ensures
            machine.wf(),
            machine.program() == instructions(operands@),
            machine.index() == 0,
            machine@ == blank(INITIAL_SIZE as nat),
    {
        Machine::with_memory(operands, INITIAL_SIZE)
    }

    /// A machine at the start of a program, on a tape of `cells` zero cells,
    /// with no input.
    pub fn with_memory(operands: Vec<Operand>, cells: usize) -> (machine: Machine)
        requires
            cells > 0,
        ensures
            machine.wf(),
            machine.program() == instructions(operands@),
            machine.index() == 0,
            machine@ == blank(cells as nat),
    {
        let machine = Machine {
            tape: Tape {
                pointer: 0,
                memory: vec![0u8; cells],
                input: Vec::new(),
                cursor: 0,
                output: Vec::new(),
                budget: 0,
            },
            operands,
            operand_index: 0,
        };
        proof {
            assert(machine@.memory =~= blank(cells as nat).memory);
            assert(machine@.input =~= blank(cells as nat).input);
            assert(machine@ =~= blank(cells as nat));
        }
        machine
    }

    /// Appends bytes to the input that the program can read.
    pub fn feed(&mut self, bytes: Vec<u8>)
        requires
            old(self).wf(),
        ensures
            final(self).wf(),
            final(self).program() == old(self).program(),
            final(self).index() == old(self).index(),
            final(self)@ == (State { input: old(self)@.input + bytes@, ..old(self)@ }),
    {
        let ghost fed = bytes@;
        let mut bytes = bytes;
        self.tape.input.append(&mut bytes);
        proof {
            assert(self@.input =~= old(self)@.input + fed);
            assert(self@ =~= (State { input: old(self)@.input + fed, ..old(self)@ }));
        }
    }

    /// The value of the cell under the pointer.
    pub fn get_value(&self) -> (value: u8)
        requires
            self.wf(),
        ensures
            value == self@.value(),
            value == self@.memory[self@.pointer as int],
    {
        self.tape.value()
    }

    /// The operand that runs next.
    pub fn get_operand(&self) -> (operand: &Operand)
        requires
            self.index() < self.program().len(),
        ensures
            operand@ == self.program()[self.index() as int],
    {
        &self.operands[self.operand_index]
    }

    /// Whether an operand is left to run: `false` once the program has run
    /// to its end.
    pub fn is_finished(&self) -> (running: bool)
        ensures
            running == (self.index() < self.program().len()),
    {
        self.operand_index < self.operands.len()
    }

    /// The position of the data pointer.
    pub fn pointer(&self) -> (pointer: usize)
        ensures
            pointer == self@.pointer,
    {
        self.tape.pointer
    }

    /// The position in the program of the operand that runs next.
    pub fn position(&self) -> (position: usize)
        ensures
            position == self.index(),
    {
        self.operand_index
    }

    /// The budget of loop repetitions that the last run or step left unspent.
    pub fn budget(&self) -> (budget: u64)
        ensures
            budget == self@.budget,
    {
        self.tape.budget
    }

    /// The cells of the tape.
    pub fn memory(&self) -> (memory: &Vec<u8>)
        ensures
            memory@ == self@.memory,
    {
        &self.tape.memory
    }

    /// Everything that the program has written.
    pub fn output(&self) -> (output: &Vec<u8>)
        ensures
            output@ == self@.output,
    {
        &self.tape.output
    }

    /// Runs the operand at the current position, a loop with all its
    /// repetitions, with the given budget of loop repetitions, and moves on
    /// to the position that comes next. At the end of the program nothing
    /// is left to run, and only the budget is set.
    ///
    /// After `PointerOutOfBounds` or `BudgetExhausted` the machine stays at
    /// the operand that failed.
    pub fn step(&mut self, budget: u64) -> (result: Result<(), RuntimeError>)
        requires
            old(self).wf(),
        ensures
            final(self).wf(),
            final(self).program() == old(self).program(),
            ({
                let stop = step(
                    old(self).program(),
                    old(self).index(),
                    old(self)@.grant(budget as nat),
                );
                &&& final(self)@ == stop.state
                &&& final(self).index() == stop.index
                &&& result == match stop.error {
                    Some(error) => Err::<(), RuntimeError>(error),
                    None => Ok(()),
                }
            }),
    {
        self.tape.budget = budget;
        proof {
            assert(self.tape.state() =~= old(self)@.grant(budget as nat));
        }
        if self.operand_index >= self.operands.len() {
            return Ok(());
        }
        let (index, error) = self.tape.step(&self.operands, self.operand_index);
        self.operand_index = index;
        match error {
            Some(error) => Err(error),
            None => Ok(()),
        }
    }

    /// Runs the program from the current position, with the given budget of
    /// loop repetitions, until it ends or fails.
    ///
    /// The program has run to its end when the result is `Ok`. After
    /// `PointerOutOfBounds` or `BudgetExhausted` the machine stands at the
    /// operand that failed, with the output written up to then.
    pub fn run(&mut self, budget: u64) -> (result: Result<(), RuntimeError>)
        requires
            old(self).wf(),
        ensures
            final(self).wf(),
            final(self).program() == old(self).program(),
            ({
                let stop = run_block(
                    old(self).program(),
                    old(self).index(),
                    old(self)@.grant(budget as nat),
                );
                &&& final(self)@ == stop.state
                &&& final(self).index() == stop.index
                &&& result == match stop.error {
                    Some(error) => Err::<(), RuntimeError>(error),
                    None => Ok(()),
                }
            }),
    {
        self.tape.budget = budget;
        proof {
            assert(self.tape.state() =~= old(self)@.grant(budget as nat));
        }
        let (index, error) = self.tape.run_block(&self.operands, self.operand_index);
        self.operand_index = index;
        match error {
            Some(error) => Err(error),
            None => Ok(()),
        }
    }
}

} // verus!
