//! The flat compiler: one operand per command, with every bracket carrying
//! the position of its partner.

use vstd::prelude::*;
use crate::brackets::{
    bracket_error, closer, closes_too_many, depth, is_pair, lemma_depth_step,
    lemma_matching_is_bijection, lemma_pair_found, opener, CompileError,
};
use crate::command::Command;
use crate::operand::{instructions, Instruction, Operand};

verus! {

/// The flat instruction for the command at a position: moves and increments
/// by one, brackets with the position of their partner.
pub open spec fn flat_instruction(tokens: Seq<Command>, at: int) -> Instruction {
    match tokens[at] {
        Command::Next => Instruction::Next(1),
        Command::Prev => Instruction::Prev(1),
        Command::Increment => Instruction::Increment(1),
        Command::Decrement => Instruction::Decrement(1),
        Command::Print => Instruction::Print,
        Command::Read => Instruction::Read,
        Command::LoopBegin => Instruction::LoopBegin(closer(tokens, at) as nat),
        Command::LoopEnd => Instruction::LoopEnd(opener(tokens, at) as nat),
    }
}

/// The flat form of a program: the flat instruction of each command, in order.
pub open spec fn flat(tokens: Seq<Command>) -> Seq<Instruction> {
    Seq::new(tokens.len(), |at: int| flat_instruction(tokens, at))
}

/// In the flat form of a program every bracket points at its partner: the
/// target of a `LoopBegin` lies ahead of it and holds the `LoopEnd` that
/// points back at it, and the target of a `LoopEnd` lies behind it and holds
/// the `LoopBegin` that points ahead at it.
pub proof fn lemma_flat_partners(tokens: Seq<Command>, at: int)
    requires
        bracket_error(tokens) is None,
        0 <= at < tokens.len(),
    ensures
        flat(tokens)[at] matches Instruction::LoopBegin(close) ==> at < close < tokens.len()
            && flat(tokens)[close as int] == Instruction::LoopEnd(at as nat),
        flat(tokens)[at] matches Instruction::LoopEnd(open) ==> open < at && flat(
            tokens,
        )[open as int] == Instruction::LoopBegin(at as nat),
        (flat(tokens)[at] is LoopBegin) == (tokens[at] == Command::LoopBegin),
        (flat(tokens)[at] is LoopEnd) == (tokens[at] == Command::LoopEnd),
{
    lemma_matching_is_bijection(tokens, at);
    assert(flat(tokens)[at] == flat_instruction(tokens, at));
    if tokens[at] == Command::LoopBegin {
        let close = closer(tokens, at);
        assert(flat(tokens)[close] == flat_instruction(tokens, close));
    }
    if tokens[at] == Command::LoopEnd {
        let open = opener(tokens, at);
        assert(flat(tokens)[open] == flat_instruction(tokens, open));
    }
}

/// The loop opened at `at` is still open at the front of the pass.
spec fn pending(tokens: Seq<Command>, open: Seq<usize>, at: int) -> bool {
    &&& tokens[at] == Command::LoopBegin
    &&& 0 <= depth(tokens, at) < open.len()
    &&& open[depth(tokens, at)] == at
}

/// The stack of open loops is what the commands before `front` leave open:
/// one entry for each level of nesting, each the last `LoopBegin` at its level.
spec fn stack_tracks(tokens: Seq<Command>, open: Seq<usize>, front: int) -> bool {
    &&& open.len() == depth(tokens, front)
    &&& forall|level: int|
        0 <= level < open.len() ==> {
            &&& (#[trigger] open[level]) < front
            &&& tokens[open[level] as int] == Command::LoopBegin
            &&& depth(tokens, open[level] as int) == level
        }
    &&& forall|level: int, k: int|
        #![trigger open[level], depth(tokens, k)]
        0 <= level < open.len() && open[level] < k <= front ==> depth(tokens, k) > level
}

/// Compiles commands into the flat form.
///
/// A single pass keeps the positions of the open loops on a stack. Each
/// `LoopEnd` takes the innermost open loop from the stack and records the
/// match at both ends.
///
/// # Errors
///
/// `UnmatchedLoopEnd` when a `LoopEnd` finds the stack empty, and
/// `UnmatchedLoopBegin` when a loop is still open at the end; no program is
/// returned then.
pub fn pass_flat(commands: Vec<Command>) -> (result: Result<Vec<Operand>, CompileError>)
    ensures
        match result {
            Ok(operands) => bracket_error(commands@) is None && instructions(operands@) == flat(
                commands@,
            ),
            Err(error) => bracket_error(commands@) == Some(error),
        },
{
    let ghost tokens = commands@;
    let mut operands: Vec<Operand> = Vec::new();
    let mut open: Vec<usize> = Vec::new();
    let mut at: usize = 0;
    while at < commands.len()
        invariant
            tokens == commands@,
            at <= tokens.len(),
            operands.len() == at,
            forall|k: int| 0 <= k <= at ==> depth(tokens, k) >= 0,
            stack_tracks(tokens, open@, at as int),
            forall|k: int|
                0 <= k < at ==> (#[trigger] operands@[k])@ == flat_instruction(tokens, k)
                    || pending(tokens, open@, k),
        decreases tokens.len() - at,
    {
        proof {
            lemma_depth_step(tokens, at as int);
        }
        let ghost stack = open@;
        let ghost before = operands@;
        match commands[at] {
            Command::Next => operands.push(Operand::Next(1)),
            Command::Prev => operands.push(Operand::Prev(1)),
            Command::Increment => operands.push(Operand::Increment(1)),
            Command::Decrement => operands.push(Operand::Decrement(1)),
            Command::Print => operands.push(Operand::Print),
            Command::Read => operands.push(Operand::Read),
            Command::LoopBegin => {
                open.push(at);
                operands.push(Operand::LoopBegin(at));
                proof {
                    assert(pending(tokens, open@, at as int));
                    assert forall|k: int| 0 <= k < at && pending(tokens, stack, k) implies pending(
                        tokens,
                        open@,
                        k,
                    ) by {}
                }
            },
            Command::LoopEnd => {
                match open.pop() {
                    None => {
                        proof {
                            assert(depth(tokens, at + 1) < 0);
                            assert(closes_too_many(tokens));
                        }
                        return Err(CompileError::UnmatchedLoopEnd);
                    },
                    Some(partner) => {
                        proof {
                            assert(partner == stack[stack.len() - 1]);
                            assert(is_pair(tokens, partner as int, at as int));
                            lemma_pair_found(tokens, partner as int, at as int);
                        }
                        operands.set(partner, Operand::LoopBegin(at));
                        operands.push(Operand::LoopEnd(partner));
                        proof {
                            assert forall|k: int| 0 <= k < at + 1 implies (
                            #[trigger] operands@[k])@ == flat_instruction(tokens, k) || pending(
                                tokens,
                                open@,
                                k,
                            ) by {
                                if k < at && k != partner {
                                    assert(operands@[k] == before[k]);
                                    if pending(tokens, stack, k) {
                                        assert(depth(tokens, k) != stack.len() - 1);
                                    }
                                }
                            }
                        }
                    },
                }
            },
        }
        at = at + 1;
    }
    if open.len() > 0 {
        proof {
            assert(!closes_too_many(tokens));
        }
        return Err(CompileError::UnmatchedLoopBegin);
    }
    proof {
        assert(!closes_too_many(tokens));
        assert forall|k: int| 0 <= k < tokens.len() implies instructions(operands@)[k] == flat(
            tokens,
        )[k] by {
            assert(!pending(tokens, open@, k));
        }
        assert(instructions(operands@) =~= flat(tokens));
    }
    Ok(operands)
}

} // verus!
