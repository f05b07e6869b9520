//! Bracket matching: which `LoopEnd` closes which `LoopBegin`.
//!
//! Everything here is stated over the nesting depth of a position: the
//! number of loops that are open just before it.

use vstd::prelude::*;
use crate::command::Command;

verus! {

/// Why a sequence of commands is not a program.
#[derive(Clone, Copy, Debug, PartialEq, Eq, Structural)]
pub enum CompileError {
    /// A `LoopBegin` is never closed.
    UnmatchedLoopBegin,
    /// A `LoopEnd` closes no open loop.
    UnmatchedLoopEnd,
}

/// By how much a command changes the nesting depth.
pub open spec fn weight(command: Command) -> int {
    match command {
        Command::LoopBegin => 1,
        Command::LoopEnd => -1,
        _ => 0,
    }
}

/// The nesting depth just before position `at`: the number of `LoopBegin`
/// minus the number of `LoopEnd` among the first `at` commands.
pub open spec fn depth(tokens: Seq<Command>, at: int) -> int
    decreases at,
{
    if at <= 0 || at > tokens.len() {
        0
    } else {
        depth(tokens, at - 1) + weight(tokens[at - 1])
    }
}

/// The stretch from `lo` up to `hi` opens no loop that it does not close and
/// closes none that it did not open.
pub open spec fn balanced(tokens: Seq<Command>, lo: int, hi: int) -> bool {
    &&& 0 <= lo <= hi <= tokens.len()
    &&& depth(tokens, hi) == depth(tokens, lo)
    &&& forall|k: int| lo <= k <= hi ==> depth(tokens, k) >= depth(tokens, lo)
}

/// Some prefix of the commands closes more loops than it opens.
pub open spec fn closes_too_many(tokens: Seq<Command>) -> bool {
    exists|k: int| 0 <= k <= tokens.len() && depth(tokens, k) < 0
}

/// The error that compiling the commands gives, if they are not a program:
/// `UnmatchedLoopEnd` where some `LoopEnd` has no loop to close, otherwise
/// `UnmatchedLoopBegin` where a loop stays open at the end.
pub open spec fn bracket_error(tokens: Seq<Command>) -> Option<CompileError> {
    if closes_too_many(tokens) {
        Some(CompileError::UnmatchedLoopEnd)
    } else if depth(tokens, tokens.len() as int) > 0 {
        Some(CompileError::UnmatchedLoopBegin)
    } else {
        None
    }
}

/// The first position from `from` on after which the depth is at most `floor`;
/// the length of the commands where there is none.
pub open spec fn first_drop(tokens: Seq<Command>, from: int, floor: int) -> int
    decreases tokens.len() - from,
{
    if from < 0 || from >= tokens.len() {
        tokens.len() as int
    } else if depth(tokens, from + 1) <= floor {
        from
    } else {
        first_drop(tokens, from + 1, floor)
    }
}

/// The last position up to `from` before which the depth is at most `floor`;
/// zero where there is none.
pub open spec fn last_low(tokens: Seq<Command>, from: int, floor: int) -> int
    decreases from,
{
    if from <= 0 {
        0
    } else if depth(tokens, from) <= floor {
        from
    } else {
        last_low(tokens, from - 1, floor)
    }
}

/// The position of the `LoopEnd` that closes the `LoopBegin` at `open`.
pub open spec fn closer(tokens: Seq<Command>, open: int) -> int {
    first_drop(tokens, open + 1, depth(tokens, open))
}

/// The position of the `LoopBegin` that the `LoopEnd` at `close` closes.
pub open spec fn opener(tokens: Seq<Command>, close: int) -> int {
    last_low(tokens, close - 1, depth(tokens, close + 1))
}

/// The `LoopBegin` at `open` and the `LoopEnd` at `close` belong together:
/// the depth after `close` is back to what it was before `open`, and stays
/// above that in between.
pub open spec fn is_pair(tokens: Seq<Command>, open: int, close: int) -> bool {
    &&& 0 <= open < close < tokens.len()
    &&& tokens[open] == Command::LoopBegin
    &&& tokens[close] == Command::LoopEnd
    &&& depth(tokens, close + 1) == depth(tokens, open)
    &&& forall|k: int| open < k <= close ==> depth(tokens, k) > depth(tokens, open)
}

/// The depth changes by the weight of the command that is passed.
pub proof fn lemma_depth_step(tokens: Seq<Command>, at: int)
    requires
        0 <= at < tokens.len(),
    ensures
        depth(tokens, at + 1) == depth(tokens, at) + weight(tokens[at]),
{
}

/// `first_drop` finds the position it describes.
pub proof fn lemma_first_drop(tokens: Seq<Command>, from: int, floor: int)
    requires
        0 <= from <= tokens.len(),
    ensures
        from <= first_drop(tokens, from, floor) <= tokens.len(),
        first_drop(tokens, from, floor) < tokens.len() ==> depth(
            tokens,
            first_drop(tokens, from, floor) + 1,
        ) <= floor,
        forall|k: int|
            from < k <= first_drop(tokens, from, floor) ==> depth(tokens, k) > floor,
    decreases tokens.len() - from,
{
    if from < tokens.len() && depth(tokens, from + 1) > floor {
        lemma_first_drop(tokens, from + 1, floor);
    }
}

/// A position after which the depth is at most `floor`, with none before it
/// from `from` on, is what `first_drop` finds.
pub proof fn lemma_first_drop_is(tokens: Seq<Command>, from: int, floor: int, at: int)
    requires
        0 <= from <= at < tokens.len(),
        depth(tokens, at + 1) <= floor,
        forall|k: int| from < k <= at ==> depth(tokens, k) > floor,
    ensures
        first_drop(tokens, from, floor) == at,
    decreases at - from,
{
    if from < at {
        lemma_first_drop_is(tokens, from + 1, floor, at);
    }
}

/// `last_low` finds the position it describes.
pub proof fn lemma_last_low(tokens: Seq<Command>, from: int, floor: int)
    requires
        0 <= from,
    ensures
        0 <= last_low(tokens, from, floor) <= from,
        depth(tokens, last_low(tokens, from, floor)) <= floor || last_low(tokens, from, floor)
            == 0,
        forall|k: int|
            last_low(tokens, from, floor) < k <= from ==> depth(tokens, k) > floor,
    decreases from,
{
    if from > 0 && depth(tokens, from) > floor {
        lemma_last_low(tokens, from - 1, floor);
    }
}

/// A position before which the depth is at most `floor`, with none after it
/// up to `from`, is what `last_low` finds.
pub proof fn lemma_last_low_is(tokens: Seq<Command>, from: int, floor: int, at: int)
    requires
        0 <= at <= from,
        depth(tokens, at) <= floor,
        forall|k: int| at < k <= from ==> depth(tokens, k) > floor,
    ensures
        last_low(tokens, from, floor) == at,
    decreases from - at,
{
    if at < from {
        lemma_last_low_is(tokens, from - 1, floor, at);
    }
}

/// The two ends of a pair find each other.
pub proof fn lemma_pair_found(tokens: Seq<Command>, open: int, close: int)
    requires
        is_pair(tokens, open, close),
    ensures
        closer(tokens, open) == close,
        opener(tokens, close) == open,
{
    let floor = depth(tokens, open);
    lemma_first_drop_is(tokens, open + 1, floor, close);
    lemma_last_low_is(tokens, close - 1, floor, open);
}

/// A `LoopBegin` followed by a position where the depth is back to what it
/// was before it is closed before that position.
pub proof fn lemma_closer_is_pair(tokens: Seq<Command>, open: int, bound: int)
    requires
        0 <= open < bound <= tokens.len(),
        tokens[open] == Command::LoopBegin,
        depth(tokens, bound) <= depth(tokens, open),
    ensures
        is_pair(tokens, open, closer(tokens, open)),
        closer(tokens, open) < bound,
{
    let floor = depth(tokens, open);
    let close = closer(tokens, open);
    lemma_first_drop(tokens, open + 1, floor);
    lemma_depth_step(tokens, open);
    lemma_depth_step(tokens, close);
}

/// A `LoopEnd` preceded, from `bound` on, by a position where the depth is
/// what it is after it closes a loop opened at or after `bound`.
pub proof fn lemma_opener_is_pair(tokens: Seq<Command>, bound: int, close: int)
    requires
        0 <= bound <= close < tokens.len(),
        tokens[close] == Command::LoopEnd,
        depth(tokens, bound) <= depth(tokens, close + 1),
    ensures
        is_pair(tokens, opener(tokens, close), close),
        bound <= opener(tokens, close),
{
    let floor = depth(tokens, close + 1);
    lemma_depth_step(tokens, close);
    assert(depth(tokens, close) == floor + 1);
    assert(bound < close);
    let open = opener(tokens, close);
    lemma_last_low(tokens, close - 1, floor);
    if open < bound {
        assert(open < bound <= close - 1);
    }
    assert(depth(tokens, open) <= floor);
    lemma_depth_step(tokens, open);
    assert(depth(tokens, open + 1) > floor);
}

/// Commands compile without error exactly when they are balanced as a whole.
pub proof fn lemma_bracket_error(tokens: Seq<Command>)
    ensures
        bracket_error(tokens) is None <==> balanced(tokens, 0, tokens.len() as int),
{
    if balanced(tokens, 0, tokens.len() as int) {
        assert(!closes_too_many(tokens));
    }
    if bracket_error(tokens) is None {
        assert forall|k: int| 0 <= k <= tokens.len() implies depth(tokens, k) >= 0 by {
            if depth(tokens, k) < 0 {
                assert(closes_too_many(tokens));
            }
        }
    }
}

/// Matching is a bijection between the `LoopBegin` and the `LoopEnd` of a
/// program: each bracket has a partner of the other kind, and the partner of
/// its partner is the bracket itself.
pub proof fn lemma_matching_is_bijection(tokens: Seq<Command>, at: int)
    requires
        bracket_error(tokens) is None,
        0 <= at < tokens.len(),
    ensures
        tokens[at] == Command::LoopBegin ==> {
            &&& is_pair(tokens, at, closer(tokens, at))
            &&& opener(tokens, closer(tokens, at)) == at
        },
        tokens[at] == Command::LoopEnd ==> {
            &&& is_pair(tokens, opener(tokens, at), at)
            &&& closer(tokens, opener(tokens, at)) == at
        },
{
    lemma_bracket_error(tokens);
    if tokens[at] == Command::LoopBegin {
        lemma_closer_is_pair(tokens, at, tokens.len() as int);
        lemma_pair_found(tokens, at, closer(tokens, at));
    }
    if tokens[at] == Command::LoopEnd {
        lemma_opener_is_pair(tokens, 0, at);
        lemma_pair_found(tokens, opener(tokens, at), at);
    }
}

/// A bracket has one partner only.
pub proof fn lemma_pair_is_unique(
    tokens: Seq<Command>,
    open: int,
    close: int,
    other_open: int,
    other_close: int,
)
    requires
        is_pair(tokens, open, close),
        is_pair(tokens, other_open, other_close),
    ensures
        open == other_open <==> close == other_close,
{
    lemma_pair_found(tokens, open, close);
    lemma_pair_found(tokens, other_open, other_close);
}

/// Matching follows the nesting: a loop opened inside another loop is closed
/// inside it, so no pair crosses another.
pub proof fn lemma_pairs_nest(
    tokens: Seq<Command>,
    open: int,
    close: int,
    inner_open: int,
    inner_close: int,
)
    requires
        is_pair(tokens, open, close),
        is_pair(tokens, inner_open, inner_close),
        open < inner_open < close,
    ensures
        inner_close < close,
{
    lemma_depth_step(tokens, close);
    if inner_close >= close {
        if inner_close == close {
            lemma_pair_found(tokens, open, close);
            lemma_pair_found(tokens, inner_open, inner_close);
        } else {
            assert(inner_open < close + 1 <= inner_close);
            assert(depth(tokens, close + 1) > depth(tokens, inner_open));
            assert(depth(tokens, inner_open) > depth(tokens, open));
        }
    }
}

/// Where compiling gives `UnmatchedLoopEnd`, some `LoopEnd` has no partner.
pub proof fn lemma_unmatched_loop_end(tokens: Seq<Command>) -> (close: int)
    requires
        bracket_error(tokens) == Some(CompileError::UnmatchedLoopEnd),
    ensures
        0 <= close < tokens.len(),
        tokens[close] == Command::LoopEnd,
        forall|open: int| !is_pair(tokens, open, close),
{
    let close = first_drop(tokens, 0, -1);
    lemma_first_drop(tokens, 0, -1);
    let witness = choose|k: int| 0 <= k <= tokens.len() && depth(tokens, k) < 0;
    assert(0 < witness);
    if close >= tokens.len() {
        assert(depth(tokens, witness) > -1);
    }
    lemma_depth_step(tokens, close);
    if close > 0 {
        assert(depth(tokens, close) > -1);
    }
    assert forall|open: int| !is_pair(tokens, open, close) by {
        if is_pair(tokens, open, close) {
            if open > 0 {
                assert(depth(tokens, open) > -1);
            }
        }
    }
    close
}

/// Where compiling gives `UnmatchedLoopBegin`, some `LoopBegin` has no
/// partner.
pub proof fn lemma_unmatched_loop_begin(tokens: Seq<Command>) -> (open: int)
    requires
        bracket_error(tokens) == Some(CompileError::UnmatchedLoopBegin),
    ensures
        0 <= open < tokens.len(),
        tokens[open] == Command::LoopBegin,
        forall|close: int| !is_pair(tokens, open, close),
{
    let end = tokens.len() as int;
    let open = last_low(tokens, end, 0);
    lemma_last_low(tokens, end, 0);
    assert(depth(tokens, open) <= 0);
    assert(open < end);
    lemma_depth_step(tokens, open);
    assert(depth(tokens, open + 1) > 0);
    if depth(tokens, open) < 0 {
        assert(closes_too_many(tokens));
    }
    assert forall|close: int| !is_pair(tokens, open, close) by {
        if is_pair(tokens, open, close) {
            assert(depth(tokens, close + 1) > 0);
        }
    }
    open
}

} // verus!
