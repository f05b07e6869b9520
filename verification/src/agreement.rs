//! The two compiled forms of a program do the same.
//!
//! For every program, every starting state and every budget, running the
//! structured form and running the flat form stop for the same reason and
//! leave the same tape, pointer, input, output and budget.

use vstd::prelude::*;
use crate::brackets::{
    balanced, bracket_error, depth, is_pair, lemma_bracket_error, lemma_depth_step,
    lemma_opener_is_pair, lemma_pair_found, opener,
};
use crate::command::Command;
use crate::flat::{flat, flat_instruction};
use crate::operand::Instruction;
use crate::semantics::{
    exec_instruction, exec_loop, lemma_loop_unfolds, lemma_run_block_follows, lemma_run_plain,
    lemma_run_steps, lemma_wrapping_difference, lemma_wrapping_sum, plain, run_block,
    wrapping_difference, wrapping_sum, Outcome, State,
};
use crate::tree::{
    foldable, folded, lemma_depth_run, lemma_run_back_covers, lemma_tree_moves_on, run_back, tree,
};

verus! {

/// No instruction of the block is a jump.
pub open spec fn jump_free(block: Seq<Instruction>) -> bool {
    forall|k: int| 0 <= k < block.len() ==> plain(#[trigger] block[k])
}

/// What follows an outcome in the flat form: nothing after an error, else the
/// run of the flat program from `index` on.
pub open spec fn then_flat(program: Seq<Instruction>, outcome: Outcome, index: int) -> Outcome {
    if outcome.error is Some {
        outcome
    } else {
        run_block(program, index as nat, outcome.state).outcome()
    }
}

/// An outcome followed by one more instruction.
pub open spec fn then_fold(outcome: Outcome, instruction: Instruction) -> Outcome {
    if outcome.error is Some {
        outcome
    } else {
        exec_instruction(instruction, outcome.state)
    }
}

/// Running a block with one more instruction at its end is running the block
/// and then that instruction.
pub proof fn lemma_run_push(
    block: Seq<Instruction>,
    last: Instruction,
    index: nat,
    st: State,
)
    requires
        jump_free(block),
        plain(last),
        index <= block.len(),
    ensures
        run_block(block.push(last), index, st).outcome() == then_fold(
            run_block(block, index, st).outcome(),
            last,
        ),
    decreases block.len() - index,
{
    let longer = block.push(last);
    if index == block.len() {
        assert(longer[index as int] == last);
        lemma_run_plain(longer, index, st);
        let outcome = exec_instruction(last, st);
        assert(run_block(longer, index, st).outcome() =~= outcome);
    } else {
        let instruction = block[index as int];
        assert(longer[index as int] == instruction);
        lemma_run_plain(longer, index, st);
        lemma_run_plain(block, index, st);
        let outcome = exec_instruction(instruction, st);
        if outcome.error is None {
            lemma_run_push(block, last, index + 1, outcome.state);
        }
    }
}

/// The structured form holds no jump.
pub proof fn lemma_tree_jump_free(tokens: Seq<Command>, lo: int, hi: int)
    ensures
        jump_free(tree(tokens, lo, hi)),
{
    lemma_tree_moves_on(tokens, lo, hi);
}

/// One folded instruction does what its first unit does, followed by the
/// rest of the fold.
pub proof fn lemma_fold_step(command: Command, count: nat, st: State)
    requires
        foldable(command),
        count >= 2,
    ensures
        exec_instruction(folded(command, count), st) == then_fold(
            exec_instruction(folded(command, 1), st),
            folded(command, (count - 1) as nat),
        ),
{
    let rest = (count - 1) as nat;
    match command {
        Command::Next => {
            assert(exec_instruction(Instruction::Next(count), st) =~= then_fold(
                exec_instruction(Instruction::Next(1), st),
                Instruction::Next(rest),
            ));
        },
        Command::Prev => {
            assert(exec_instruction(Instruction::Prev(count), st) =~= then_fold(
                exec_instruction(Instruction::Prev(1), st),
                Instruction::Prev(rest),
            ));
        },
        Command::Increment => {
            let cell = st.value();
            lemma_wrapping_sum(cell, 1, rest);
            lemma_wrapping_sum(cell, count, 0);
            lemma_wrapping_sum(wrapping_sum(cell, 1), rest, 0);
            assert(wrapping_sum(wrapping_sum(cell, 1), rest % 256) == wrapping_sum(
                cell,
                count % 256,
            ));
            assert(st.store(wrapping_sum(cell, 1)).store(
                wrapping_sum(wrapping_sum(cell, 1), rest % 256),
            ) =~= st.store(wrapping_sum(cell, count % 256)));
        },
        Command::Decrement => {
            let cell = st.value();
            lemma_wrapping_difference(cell, 1, rest);
            lemma_wrapping_difference(cell, count, 0);
            lemma_wrapping_difference(wrapping_difference(cell, 1), rest, 0);
            assert(wrapping_difference(wrapping_difference(cell, 1), rest % 256)
                == wrapping_difference(cell, count % 256));
            assert(st.store(wrapping_difference(cell, 1)).store(
                wrapping_difference(wrapping_difference(cell, 1), rest % 256),
            ) =~= st.store(wrapping_difference(cell, count % 256)));
        },
        _ => {},
    }
}

/// In the flat form a run of equal moves or increments does what the one
/// instruction does that the run folds into.
pub proof fn lemma_flat_run(tokens: Seq<Command>, at: int, hi: int, st: State)
    requires
        0 <= at < hi <= tokens.len(),
        foldable(tokens[at]),
        forall|k: int| at <= k < hi ==> tokens[k] == tokens[at],
    ensures
        run_block(flat(tokens), at as nat, st).outcome() == then_flat(
            flat(tokens),
            exec_instruction(folded(tokens[at], (hi - at) as nat), st),
            hi,
        ),
    decreases hi - at,
{
    let program = flat(tokens);
    let command = tokens[at];
    let unit = folded(command, 1);
    assert(program[at] == flat_instruction(tokens, at));
    assert(program[at] == unit);
    let first = exec_instruction(unit, st);
    lemma_run_plain(program, at as nat, st);
    if hi - at >= 2 {
        lemma_fold_step(command, (hi - at) as nat, st);
        if first.error is None {
            assert(tokens[at + 1] == command);
            lemma_flat_run(tokens, at + 1, hi, first.state);
        }
    }
}

/// In the flat form the stretch from `lo` up to `hi` does what its
/// structured form does, and hands over to the instruction at `hi`.
pub proof fn lemma_stretch_agrees(tokens: Seq<Command>, lo: int, hi: int, st: State)
    requires
        bracket_error(tokens) is None,
        balanced(tokens, lo, hi),
    ensures
        run_block(flat(tokens), lo as nat, st).outcome() == then_flat(
            flat(tokens),
            run_block(tree(tokens, lo, hi), 0, st).outcome(),
            hi,
        ),
    decreases st.budget, hi - lo, 0nat,
{
    let program = flat(tokens);
    if lo < hi {
        let last = tokens[hi - 1];
        lemma_depth_step(tokens, hi - 1);
        assert(depth(tokens, hi - 1) >= depth(tokens, lo));
        if last == Command::LoopEnd {
            lemma_opener_is_pair(tokens, lo, hi - 1);
            let open = opener(tokens, hi - 1);
            let front = tree(tokens, lo, open);
            let body = tree(tokens, open + 1, hi - 1);
            lemma_depth_step(tokens, open);
            assert(balanced(tokens, lo, open));
            assert(balanced(tokens, open + 1, hi - 1));
            assert(tree(tokens, lo, hi) == front.push(Instruction::Loop(body)));
            lemma_stretch_agrees(tokens, lo, open, st);
            lemma_tree_jump_free(tokens, lo, open);
            lemma_run_push(front, Instruction::Loop(body), 0, st);
            let before = run_block(front, 0, st);
            lemma_run_block_follows(front, 0, st);
            if before.error is None {
                lemma_loop_agrees(tokens, open, hi - 1, before.state);
            }
        } else if last == Command::LoopBegin {
        } else if foldable(last) {
            let count = run_back(tokens, lo, hi, last);
            lemma_run_back_covers(tokens, lo, hi, last);
            let at = hi - count;
            let front = tree(tokens, lo, at);
            assert(tokens[at] == last);
            lemma_depth_run(tokens, at, hi);
            assert(balanced(tokens, lo, at));
            assert(tree(tokens, lo, hi) == front.push(folded(last, count)));
            lemma_stretch_agrees(tokens, lo, at, st);
            lemma_tree_jump_free(tokens, lo, at);
            lemma_run_push(front, folded(last, count), 0, st);
            let before = run_block(front, 0, st);
            if before.error is None {
                lemma_flat_run(tokens, at, hi, before.state);
            }
        } else {
            let front = tree(tokens, lo, hi - 1);
            assert(balanced(tokens, lo, hi - 1));
            assert(tree(tokens, lo, hi) == front.push(folded(last, 1)));
            lemma_stretch_agrees(tokens, lo, hi - 1, st);
            lemma_tree_jump_free(tokens, lo, hi - 1);
            lemma_run_push(front, folded(last, 1), 0, st);
            let before = run_block(front, 0, st);
            if before.error is None {
                assert(program[hi - 1] == flat_instruction(tokens, hi - 1));
                lemma_run_plain(program, (hi - 1) as nat, before.state);
            }
        }
    }
}

/// In the flat form a pair of brackets, with what lies between them, does
/// what the loop over the structured form of the body does.
pub proof fn lemma_loop_agrees(tokens: Seq<Command>, open: int, close: int, st: State)
    requires
        bracket_error(tokens) is None,
        is_pair(tokens, open, close),
    ensures
        run_block(flat(tokens), open as nat, st).outcome() == then_flat(
            flat(tokens),
            exec_loop(tree(tokens, open + 1, close), st),
            close + 1,
        ),
    decreases st.budget, close - open, 2nat,
{
    let program = flat(tokens);
    lemma_pair_found(tokens, open, close);
    assert(program[open] == flat_instruction(tokens, open));
    assert(program[close] == flat_instruction(tokens, close));
    assert(program[open] == Instruction::LoopBegin(close as nat));
    assert(program[close] == Instruction::LoopEnd(open as nat));
    lemma_run_steps(program, open as nat, st);
    if st.value() != 0 {
        lemma_body_agrees(tokens, open, close, st);
    } else {
        lemma_run_steps(program, close as nat, st);
    }
}

/// In the flat form the body of a loop that has been entered, with the
/// bracket that closes it, does what the loop does.
pub proof fn lemma_body_agrees(tokens: Seq<Command>, open: int, close: int, st: State)
    requires
        bracket_error(tokens) is None,
        is_pair(tokens, open, close),
        st.value() != 0,
    ensures
        run_block(flat(tokens), (open + 1) as nat, st).outcome() == then_flat(
            flat(tokens),
            exec_loop(tree(tokens, open + 1, close), st),
            close + 1,
        ),
    decreases st.budget, close - open, 1nat,
{
    let program = flat(tokens);
    let body = tree(tokens, open + 1, close);
    lemma_pair_found(tokens, open, close);
    lemma_depth_step(tokens, open);
    lemma_depth_step(tokens, close);
    assert(program[open] == flat_instruction(tokens, open));
    assert(program[close] == flat_instruction(tokens, close));
    assert(balanced(tokens, open + 1, close));
    lemma_stretch_agrees(tokens, open + 1, close, st);
    lemma_loop_unfolds(body, st);
    let stop = run_block(body, 0, st);
    lemma_run_block_follows(body, 0, st);
    if stop.error is None {
        let reached = stop.state;
        assert(program[close] == Instruction::LoopEnd(open as nat));
        if reached.value() != 0 && reached.budget != 0 {
            let again = reached.spend();
            assert(again.value() == reached.value());
            assert(program[open] == Instruction::LoopBegin(close as nat));
            lemma_run_steps(program, close as nat, reached);
            lemma_run_steps(program, open as nat, again);
            lemma_body_agrees(tokens, open, close, again);
        } else {
            lemma_run_steps(program, close as nat, reached);
        }
    }
}

/// The structured form and the flat form of a program agree: from any state
/// and with any budget, running one and running the other stop for the same
/// reason, with the same output and the same tape, pointer, unread input and
/// budget left.
pub proof fn lemma_forms_agree(tokens: Seq<Command>, st: State)
    requires
        bracket_error(tokens) is None,
    ensures
        run_block(tree(tokens, 0, tokens.len() as int), 0, st).outcome() == run_block(
            flat(tokens),
            0,
            st,
        ).outcome(),
{
    lemma_bracket_error(tokens);
    lemma_stretch_agrees(tokens, 0, tokens.len() as int, st);
}

} // verus!
