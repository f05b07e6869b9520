//! Compiled operands and their mathematical model.

use vstd::prelude::*;

verus! {

/// One compiled operand.
///
/// The tree form of a program uses `Loop` and folds runs of equal moves and
/// increments into one operand with a count. The flat form uses `LoopBegin`
/// and `LoopEnd`, each carrying the position of its partner.
#[derive(Debug, PartialEq, Eq)]
pub enum Operand {
    /// Move the pointer right by the given number of cells.
    Next(usize),
    /// Move the pointer left by the given number of cells.
    Prev(usize),
    /// Add the given amount to the current cell, modulo 256.
    Increment(u8),
    /// Subtract the given amount from the current cell, modulo 256.
    Decrement(u8),
    /// Write the current cell to the output.
    Print,
    /// Read one byte of input into the current cell.
    Read,
    /// Repeat the body while the current cell is not zero.
    Loop(Vec<Operand>),
    /// Skip to the partner `LoopEnd` at the given position if the current cell is zero.
    LoopBegin(usize),
    /// Go back to the partner `LoopBegin` at the given position if the current cell is not zero.
    LoopEnd(usize),
}

/// The mathematical model of an [`Operand`]: counts are natural numbers and
/// loop bodies are sequences.
pub enum Instruction {
    /// Move the pointer right by a number of cells.
    Next(nat),
    /// Move the pointer left by a number of cells.
    Prev(nat),
    /// Add an amount to the current cell, modulo 256.
    Increment(nat),
    /// Subtract an amount from the current cell, modulo 256.
    Decrement(nat),
    /// Write the current cell to the output.
    Print,
    /// Read one byte of input into the current cell.
    Read,
    /// Repeat the body while the current cell is not zero.
    Loop(Seq<Instruction>),
    /// On a zero cell, go on at the position given.
    LoopBegin(nat),
    /// On a non-zero cell, go on at the position given.
    LoopEnd(nat),
}

/// The model of one operand.
pub open spec fn instruction_of(operand: Operand) -> Instruction
    decreases operand,
{
    match operand {
        Operand::Next(n) => Instruction::Next(n as nat),
        Operand::Prev(n) => Instruction::Prev(n as nat),
        Operand::Increment(n) => Instruction::Increment(n as nat),
        Operand::Decrement(n) => Instruction::Decrement(n as nat),
        Operand::Print => Instruction::Print,
        Operand::Read => Instruction::Read,
        Operand::Loop(body) => Instruction::Loop(
            Seq::new(
                body@.len(),
                |i: int|
                    if 0 <= i < body@.len() {
                        instruction_of(body@[i])
                    } else {
                        Instruction::Print
                    },
            ),
        ),
        Operand::LoopBegin(at) => Instruction::LoopBegin(at as nat),
        Operand::LoopEnd(at) => Instruction::LoopEnd(at as nat),
    }
}

impl View for Operand {
    type V = Instruction;

    open spec fn view(&self) -> Instruction {
        instruction_of(*self)
    }
}

/// The model of a program: the model of each of its operands, in order.
pub open spec fn instructions(operands: Seq<Operand>) -> Seq<Instruction> {
    Seq::new(operands.len(), |i: int| operands[i]@)
}

/// The model of a loop is the loop over the model of its body.
pub proof fn lemma_loop_view(body: Vec<Operand>)
    ensures
        Operand::Loop(body)@ == Instruction::Loop(instructions(body@)),
{
    assert(Operand::Loop(body)@->Loop_0 =~= instructions(body@));
}

/// Appending an operand appends its model.
pub proof fn lemma_instructions_push(operands: Seq<Operand>, operand: Operand)
    ensures
        instructions(operands.push(operand)) == instructions(operands).push(operand@),
{
    assert(instructions(operands.push(operand)) =~= instructions(operands).push(operand@));
}

} // verus!
