//! The structured compiler: nested loops, with runs of equal moves and
//! increments folded into one operand each.

use vstd::prelude::*;
use crate::brackets::{
    balanced, bracket_error, closes_too_many, depth, is_pair, lemma_bracket_error,
    lemma_depth_step, lemma_pair_found, opener, CompileError,
};
use crate::command::Command;
use crate::operand::{instructions, lemma_instructions_push, lemma_loop_view, Instruction, Operand};

verus! {

/// Whether runs of a command fold into one operand: moves and increments do.
pub open spec fn foldable(command: Command) -> bool {
    command == Command::Next || command == Command::Prev || command == Command::Increment
        || command == Command::Decrement
}

/// The number of consecutive commands equal to `target` from `start` on.
pub open spec fn run_length(tokens: Seq<Command>, start: int, target: Command) -> nat
    decreases tokens.len() - start,
{
    if 0 <= start < tokens.len() && tokens[start] == target {
        1 + run_length(tokens, start + 1, target)
    } else {
        0
    }
}

/// The number of consecutive commands equal to `target` that end just before
/// `hi`, counted back no further than `lo`.
pub open spec fn run_back(tokens: Seq<Command>, lo: int, hi: int, target: Command) -> nat
    decreases hi - lo,
{
    if 0 <= lo < hi <= tokens.len() && tokens[hi - 1] == target {
        1 + run_back(tokens, lo, hi - 1, target)
    } else {
        0
    }
}

/// The instruction that a run of `count` equal commands folds into. Moves
/// keep the count; increments and decrements keep it modulo 256, which is
/// all that a cell can tell. `Print` and `Read` do not fold and stand for
/// themselves, and brackets are never folded.
pub open spec fn folded(command: Command, count: nat) -> Instruction {
    match command {
        Command::Next => Instruction::Next(count),
        Command::Prev => Instruction::Prev(count),
        Command::Increment => Instruction::Increment(count % 256),
        Command::Decrement => Instruction::Decrement(count % 256),
        Command::Print => Instruction::Print,
        Command::Read => Instruction::Read,
        Command::LoopBegin => Instruction::LoopBegin(count),
        Command::LoopEnd => Instruction::LoopEnd(count),
    }
}

/// The structured form of the balanced stretch of commands from `lo` up to
/// `hi`, read off its last item: a closed loop becomes a `Loop` around the
/// structured form of what lies between its brackets, a run of equal moves or
/// increments becomes one folded instruction, and a `Print` or `Read` stands
/// for itself. Before it comes the structured form of the rest.
pub open spec fn tree(tokens: Seq<Command>, lo: int, hi: int) -> Seq<Instruction>
    decreases hi - lo,
{
    if lo < 0 || hi <= lo || hi > tokens.len() {
        Seq::empty()
    } else {
        let last = tokens[hi - 1];
        if last == Command::LoopEnd {
            let open = opener(tokens, hi - 1);
            if lo <= open < hi - 1 {
                tree(tokens, lo, open).push(Instruction::Loop(tree(tokens, open + 1, hi - 1)))
            } else {
                Seq::empty()
            }
        } else if last == Command::LoopBegin {
            Seq::empty()
        } else if foldable(last) {
            let count = run_back(tokens, lo, hi, last);
            if 1 <= count <= hi - lo {
                tree(tokens, lo, hi - count).push(folded(last, count))
            } else {
                Seq::empty()
            }
        } else {
            tree(tokens, lo, hi - 1).push(folded(last, 1))
        }
    }
}

/// Every move in the instruction, and in the loops nested in it, moves by at
/// least one cell.
pub open spec fn moves_on(instruction: Instruction) -> bool
    decreases instruction,
{
    match instruction {
        Instruction::Next(count) => count >= 1,
        Instruction::Prev(count) => count >= 1,
        Instruction::Loop(body) => forall|k: int|
            0 <= k < body.len() ==> moves_on(#[trigger] body[k]),
        _ => true,
    }
}

/// A forward run ends within the commands, covers equal commands only, and
/// stops at the first command that differs.
pub proof fn lemma_run_length(tokens: Seq<Command>, start: int, target: Command)
    requires
        0 <= start <= tokens.len(),
    ensures
        start + run_length(tokens, start, target) <= tokens.len(),
        forall|k: int|
            start <= k < start + run_length(tokens, start, target) ==> tokens[k] == target,
        start + run_length(tokens, start, target) < tokens.len() ==> tokens[start + run_length(
            tokens,
            start,
            target,
        )] != target,
    decreases tokens.len() - start,
{
    if start < tokens.len() && tokens[start] == target {
        lemma_run_length(tokens, start + 1, target);
    }
}

/// A stretch of equal commands that cannot be extended to the left is the
/// run counted back from its end.
pub proof fn lemma_run_back(tokens: Seq<Command>, lo: int, at: int, hi: int, target: Command)
    requires
        0 <= lo <= at <= hi <= tokens.len(),
        forall|k: int| at <= k < hi ==> tokens[k] == target,
        at == lo || tokens[at - 1] != target,
    ensures
        run_back(tokens, lo, hi, target) == hi - at,
    decreases hi - at,
{
    if at < hi {
        lemma_run_back(tokens, lo, at, hi - 1, target);
    }
}

/// A run counted back lies within its bounds and covers equal commands only.
pub proof fn lemma_run_back_covers(tokens: Seq<Command>, lo: int, hi: int, target: Command)
    requires
        0 <= lo <= hi <= tokens.len(),
    ensures
        run_back(tokens, lo, hi, target) <= hi - lo,
        forall|k: int| hi - run_back(tokens, lo, hi, target) <= k < hi ==> tokens[k] == target,
    decreases hi - lo,
{
    if lo < hi && tokens[hi - 1] == target {
        lemma_run_back_covers(tokens, lo, hi - 1, target);
    }
}

/// Commands that are no brackets leave the depth as it is.
pub proof fn lemma_depth_run(tokens: Seq<Command>, at: int, hi: int)
    requires
        0 <= at <= hi <= tokens.len(),
        forall|k: int|
            at <= k < hi ==> tokens[k] != Command::LoopBegin && tokens[k] != Command::LoopEnd,
    ensures
        forall|k: int| at <= k <= hi ==> depth(tokens, k) == depth(tokens, at),
    decreases hi - at,
{
    if at < hi {
        lemma_depth_run(tokens, at, hi - 1);
        lemma_depth_step(tokens, hi - 1);
    }
}

/// The structured form grows by one folded instruction when a whole run is
/// appended.
pub proof fn lemma_tree_run(tokens: Seq<Command>, lo: int, at: int, hi: int)
    requires
        0 <= lo <= at < hi <= tokens.len(),
        foldable(tokens[at]),
        forall|k: int| at <= k < hi ==> tokens[k] == tokens[at],
        at == lo || tokens[at - 1] != tokens[at],
    ensures
        tree(tokens, lo, hi) == tree(tokens, lo, at).push(
            folded(tokens[at], (hi - at) as nat),
        ),
{
    lemma_run_back(tokens, lo, at, hi, tokens[at]);
}

/// The structured form grows by one loop when a matched pair of brackets,
/// with what lies between them, is appended.
pub proof fn lemma_tree_loop(tokens: Seq<Command>, lo: int, open: int, close: int)
    requires
        0 <= lo <= open,
        is_pair(tokens, open, close),
    ensures
        tree(tokens, lo, close + 1) == tree(tokens, lo, open).push(
            Instruction::Loop(tree(tokens, open + 1, close)),
        ),
{
    lemma_pair_found(tokens, open, close);
}

/// In the structured form every move, at any depth of nesting, moves by at
/// least one cell, and no instruction is a jump.
pub proof fn lemma_tree_moves_on(tokens: Seq<Command>, lo: int, hi: int)
    ensures
        forall|k: int|
            0 <= k < tree(tokens, lo, hi).len() ==> moves_on(#[trigger] tree(tokens, lo, hi)[k])
                && !(tree(tokens, lo, hi)[k] is LoopBegin) && !(tree(tokens, lo, hi)[k] is LoopEnd),
    decreases hi - lo,
{
    if !(lo < 0 || hi <= lo || hi > tokens.len()) {
        let last = tokens[hi - 1];
        if last == Command::LoopEnd {
            let open = opener(tokens, hi - 1);
            if lo <= open < hi - 1 {
                lemma_tree_moves_on(tokens, lo, open);
                lemma_tree_moves_on(tokens, open + 1, hi - 1);
                assert(moves_on(Instruction::Loop(tree(tokens, open + 1, hi - 1))));
            }
        } else if last == Command::LoopBegin {
        } else if foldable(last) {
            let count = run_back(tokens, lo, hi, last);
            if 1 <= count <= hi - lo {
                lemma_tree_moves_on(tokens, lo, hi - count);
            }
        } else {
            lemma_tree_moves_on(tokens, lo, hi - 1);
        }
    }
}

/// Counts the consecutive commands equal to `target` from `start` on.
pub fn count_command(commands: &Vec<Command>, start: usize, target: Command) -> (count: usize)
    ensures
        count == run_length(commands@, start as int, target),
{
    let mut count: usize = 0;
    if start >= commands.len() {
        return 0;
    }
    while start + count < commands.len() && commands[start + count] == target
        invariant
            start + count <= commands.len(),
            count + run_length(commands@, start + count, target) == run_length(
                commands@,
                start as int,
                target,
            ),
        decreases commands.len() - count,
    {
        count = count + 1;
    }
    count
}

/// No run of foldable commands continues across `at`.
spec fn at_run_end(tokens: Seq<Command>, lo: int, at: int) -> bool {
    at == lo || at == tokens.len() || !foldable(tokens[at - 1]) || tokens[at] != tokens[at - 1]
}

/// Compiles the block that starts at `start`: the whole program where
/// `nested` is false, the body of a loop up to its `LoopEnd` where it is true.
/// Returns the operands and the position at which the block ends.
fn pass_block(commands: &Vec<Command>, start: usize, nested: bool) -> (result: Result<
    (Vec<Operand>, usize),
    CompileError,
>)
    requires
        start <= commands.len(),
        forall|k: int| 0 <= k <= start ==> depth(commands@, k) >= 0,
        nested ==> depth(commands@, start as int) > 0,
        !nested ==> start == 0,
    ensures
        match result {
            Ok((operands, end)) => {
                &&& balanced(commands@, start as int, end as int)
                &&& instructions(operands@) == tree(commands@, start as int, end as int)
                &&& nested ==> end < commands.len() && commands@[end as int] == Command::LoopEnd
                &&& !nested ==> end == commands.len()
            },
            Err(error) => bracket_error(commands@) == Some(error),
        },
    decreases commands.len() - start,
{
    let ghost tokens = commands@;
    let mut operands: Vec<Operand> = Vec::new();
    let mut at: usize = start;
    proof {
        assert(instructions(operands@) =~= tree(tokens, start as int, at as int));
    }
    while at < commands.len()
        invariant
            tokens == commands@,
            start <= at <= tokens.len(),
            forall|k: int| 0 <= k <= start ==> depth(tokens, k) >= 0,
            nested ==> depth(tokens, start as int) > 0,
            !nested ==> start == 0,
            balanced(tokens, start as int, at as int),
            at_run_end(tokens, start as int, at as int),
            instructions(operands@) == tree(tokens, start as int, at as int),
        decreases tokens.len() - at,
    {
        let command = commands[at];
        let ghost before = operands@;
        proof {
            lemma_depth_step(tokens, at as int);
        }
        match command {
            Command::LoopBegin => {
                proof {
                    assert forall|k: int| 0 <= k <= at + 1 implies depth(tokens, k) >= 0 by {
                        if k > start && k <= at {
                            assert(depth(tokens, k) >= depth(tokens, start as int));
                        }
                    }
                }
                match pass_block(commands, at + 1, true) {
                    Err(error) => {
                        return Err(error);
                    },
                    Ok((body, end)) => {
                        proof {
                            lemma_depth_step(tokens, end as int);
                            assert(is_pair(tokens, at as int, end as int));
                            lemma_tree_loop(tokens, start as int, at as int, end as int);
                            lemma_loop_view(body);
                            lemma_instructions_push(before, Operand::Loop(body));
                        }
                        operands.push(Operand::Loop(body));
                        at = end + 1;
                    },
                }
            },
            Command::LoopEnd => {
                if nested {
                    return Ok((operands, at));
                } else {
                    proof {
                        assert(depth(tokens, at + 1) < 0);
                        assert(closes_too_many(tokens));
                    }
                    return Err(CompileError::UnmatchedLoopEnd);
                }
            },
            Command::Print => {
                operands.push(Operand::Print);
                proof {
                    lemma_instructions_push(before, Operand::Print);
                }
                at = at + 1;
            },
            Command::Read => {
                operands.push(Operand::Read);
                proof {
                    lemma_instructions_push(before, Operand::Read);
                }
                at = at + 1;
            },
            _ => {
                proof {
                    lemma_run_length(tokens, at + 1, command);
                }
                let count = 1 + count_command(commands, at + 1, command);
                let operand = match command {
                    Command::Next => Operand::Next(count),
                    Command::Prev => Operand::Prev(count),
                    Command::Increment => Operand::Increment((count % 256) as u8),
                    _ => Operand::Decrement((count % 256) as u8),
                };
                proof {
                    lemma_tree_run(tokens, start as int, at as int, at + count);
                    lemma_depth_run(tokens, at as int, at + count);
                    lemma_instructions_push(before, operand);
                }
                operands.push(operand);
                at = at + count;
            },
        }
    }
    if nested {
        proof {
            assert forall|k: int| 0 <= k <= tokens.len() implies depth(tokens, k) >= 0 by {
                if k > start {
                    assert(depth(tokens, k) >= depth(tokens, start as int));
                }
            }
            assert(!closes_too_many(tokens));
        }
        Err(CompileError::UnmatchedLoopBegin)
    } else {
        Ok((operands, at))
    }
}

/// Compiles commands into the structured form: bracketed stretches become
/// nested loops, and each run of equal moves or increments becomes one
/// operand that carries the length of the run.
///
/// # Errors
///
/// `UnmatchedLoopEnd` when a `LoopEnd` closes no loop, and
/// `UnmatchedLoopBegin` when a loop is still open at the end; no program is
/// returned then.
pub fn pass(commands: Vec<Command>) -> (result: Result<Vec<Operand>, CompileError>)
    ensures
        match result {
            Ok(operands) => bracket_error(commands@) is None && instructions(operands@) == tree(
                commands@,
                0,
                commands@.len() as int,
            ),
            Err(error) => bracket_error(commands@) == Some(error),
        },
{
    match pass_block(&commands, 0, false) {
        Ok((operands, _)) => {
            proof {
                lemma_bracket_error(commands@);
            }
            Ok(operands)
        },
        Err(error) => Err(error),
    }
}

} // verus!
