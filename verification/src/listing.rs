//! From compiled instructions back to commands.
//!
//! Listing a compiled program gives back the commands it was compiled from:
//! always for the flat form, and for the structured form as long as no run of
//! increments or decrements is 256 commands long or longer. A longer run
//! folds into its length modulo 256, which is all that a cell can tell.

use vstd::prelude::*;
use crate::brackets::{
    balanced, bracket_error, depth, lemma_bracket_error, lemma_depth_step, lemma_opener_is_pair,
    opener,
};
use crate::command::Command;
use crate::flat::{flat, flat_instruction};
use crate::operand::Instruction;
use crate::tree::{
    foldable, folded, lemma_depth_run, lemma_run_back_covers, run_back, run_length, tree,
};

verus! {

/// A command, `count` times.
pub open spec fn repeat(command: Command, count: nat) -> Seq<Command> {
    Seq::new(count, |i: int| command)
}

/// The commands that an instruction stands for.
pub open spec fn commands_of(instruction: Instruction) -> Seq<Command>
    decreases instruction, 0nat,
{
    match instruction {
        Instruction::Next(count) => repeat(Command::Next, count),
        Instruction::Prev(count) => repeat(Command::Prev, count),
        Instruction::Increment(amount) => repeat(Command::Increment, amount),
        Instruction::Decrement(amount) => repeat(Command::Decrement, amount),
        Instruction::Print => seq![Command::Print],
        Instruction::Read => seq![Command::Read],
        Instruction::Loop(body) => seq![Command::LoopBegin] + listing(body, body.len())
            + seq![Command::LoopEnd],
        Instruction::LoopBegin(_) => seq![Command::LoopBegin],
        Instruction::LoopEnd(_) => seq![Command::LoopEnd],
    }
}

/// The commands that the first `count` instructions of a block stand for.
pub open spec fn listing(block: Seq<Instruction>, count: nat) -> Seq<Command>
    decreases block, count,
{
    if count == 0 || count > block.len() {
        Seq::empty()
    } else {
        listing(block, (count - 1) as nat) + commands_of(block[count - 1])
    }
}

/// No run of increments or of decrements is 256 commands long or longer.
pub open spec fn short_runs(tokens: Seq<Command>) -> bool {
    forall|at: int|
        0 <= at < tokens.len() && (tokens[at] == Command::Increment || tokens[at]
            == Command::Decrement) ==> #[trigger] run_length(tokens, at, tokens[at]) < 256
}

/// The listing of a prefix does not depend on what follows it.
pub proof fn lemma_listing_prefix(block: Seq<Instruction>, last: Instruction, count: nat)
    requires
        count <= block.len(),
    ensures
        listing(block.push(last), count) == listing(block, count),
    decreases count,
{
    if count > 0 {
        lemma_listing_prefix(block, last, (count - 1) as nat);
        assert(block.push(last)[count - 1] == block[count - 1]);
    }
}

/// The listing of a block with one more instruction is the listing of the
/// block followed by the commands of that instruction.
pub proof fn lemma_listing_push(block: Seq<Instruction>, last: Instruction)
    ensures
        listing(block.push(last), block.len() + 1) == listing(block, block.len()) + commands_of(
            last,
        ),
{
    lemma_listing_prefix(block, last, block.len());
    assert(block.push(last)[block.len() as int] == last);
}

/// Listing the flat form of commands gives the commands back.
pub proof fn lemma_flat_round_trip(tokens: Seq<Command>)
    ensures
        listing(flat(tokens), tokens.len()) == tokens,
{
    lemma_flat_listing(tokens, tokens.len());
    assert(tokens.take(tokens.len() as int) =~= tokens);
}

/// Listing the first instructions of the flat form gives the first commands.
pub proof fn lemma_flat_listing(tokens: Seq<Command>, count: nat)
    requires
        count <= tokens.len(),
    ensures
        listing(flat(tokens), count) == tokens.take(count as int),
    decreases count,
{
    if count == 0 {
        assert(tokens.take(0) =~= Seq::<Command>::empty());
    } else {
        lemma_flat_listing(tokens, (count - 1) as nat);
        let at = count - 1;
        assert(flat(tokens)[at] == flat_instruction(tokens, at));
        assert(commands_of(flat_instruction(tokens, at)) =~= seq![tokens[at]]);
        assert(tokens.take(count as int) =~= tokens.take(at) + seq![tokens[at]]);
    }
}

/// A stretch of equal commands is covered by the run that starts with it.
pub proof fn lemma_run_length_covers(tokens: Seq<Command>, at: int, hi: int, target: Command)
    requires
        0 <= at <= hi <= tokens.len(),
        forall|k: int| at <= k < hi ==> tokens[k] == target,
    ensures
        run_length(tokens, at, target) >= hi - at,
    decreases hi - at,
{
    if at < hi {
        lemma_run_length_covers(tokens, at + 1, hi, target);
    }
}

/// A fold keeps the length of the run: exactly for moves, and for increments
/// and decrements as long as the run is shorter than 256.
pub proof fn lemma_fold_keeps_count(command: Command, count: nat)
    requires
        foldable(command),
        command == Command::Next || command == Command::Prev || count < 256,
    ensures
        commands_of(folded(command, count)) == repeat(command, count),
        commands_of(folded(command, count)).len() == count,
{
}

/// Listing the structured form of a balanced stretch gives the stretch back.
pub proof fn lemma_tree_listing(tokens: Seq<Command>, lo: int, hi: int)
    requires
        bracket_error(tokens) is None,
        short_runs(tokens),
        balanced(tokens, lo, hi),
    ensures
        listing(tree(tokens, lo, hi), tree(tokens, lo, hi).len()) == tokens.subrange(lo, hi),
    decreases hi - lo,
{
    if lo >= hi {
        assert(tokens.subrange(lo, hi) =~= Seq::<Command>::empty());
    } else {
        let last = tokens[hi - 1];
        lemma_depth_step(tokens, hi - 1);
        assert(depth(tokens, hi - 1) >= depth(tokens, lo));
        if last == Command::LoopEnd {
            lemma_opener_is_pair(tokens, lo, hi - 1);
            let open = opener(tokens, hi - 1);
            let front = tree(tokens, lo, open);
            let body = tree(tokens, open + 1, hi - 1);
            lemma_depth_step(tokens, open);
            assert(balanced(tokens, lo, open));
            assert(balanced(tokens, open + 1, hi - 1));
            lemma_tree_listing(tokens, lo, open);
            lemma_tree_listing(tokens, open + 1, hi - 1);
            lemma_listing_push(front, Instruction::Loop(body));
            assert(tokens.subrange(lo, hi) =~= tokens.subrange(lo, open) + (seq![
                Command::LoopBegin,
            ] + tokens.subrange(open + 1, hi - 1) + seq![Command::LoopEnd]));
        } else if last == Command::LoopBegin {
        } else if foldable(last) {
            let count = run_back(tokens, lo, hi, last);
            lemma_run_back_covers(tokens, lo, hi, last);
            let at = hi - count;
            let front = tree(tokens, lo, at);
            assert(tokens[at] == last);
            lemma_depth_run(tokens, at, hi);
            assert(balanced(tokens, lo, at));
            lemma_tree_listing(tokens, lo, at);
            lemma_listing_push(front, folded(last, count));
            lemma_run_length_covers(tokens, at, hi, last);
            assert(last == Command::Next || last == Command::Prev || run_length(tokens, at, last)
                < 256);
            lemma_fold_keeps_count(last, count);
            assert(tokens.subrange(lo, hi) =~= tokens.subrange(lo, at) + repeat(last, count));
        } else {
            let front = tree(tokens, lo, hi - 1);
            assert(balanced(tokens, lo, hi - 1));
            lemma_tree_listing(tokens, lo, hi - 1);
            lemma_listing_push(front, folded(last, 1));
            assert(tokens.subrange(lo, hi) =~= tokens.subrange(lo, hi - 1) + seq![last]);
        }
    }
}

/// Listing the structured form of a program gives its commands back, as long
/// as no run of increments or decrements is 256 commands long or longer: the
/// fold loses nothing.
pub proof fn lemma_tree_round_trip(tokens: Seq<Command>)
    requires
        bracket_error(tokens) is None,
        short_runs(tokens),
    ensures
        listing(
            tree(tokens, 0, tokens.len() as int),
            tree(tokens, 0, tokens.len() as int).len(),
        ) == tokens,
{
    lemma_bracket_error(tokens);
    lemma_tree_listing(tokens, 0, tokens.len() as int);
    assert(tokens.subrange(0, tokens.len() as int) =~= tokens);
}

} // verus!
