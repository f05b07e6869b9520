//! Commands and the lexer that extracts them from source text.

use vstd::prelude::*;
use vstd::std_specs::iter::IteratorSpec;

verus! {

/// One of the eight commands of the language.
#[derive(Clone, Copy, Debug, PartialEq, Eq, Structural)]
pub enum Command {
    /// `>`: move the pointer one cell to the right.
    Next,
    /// `<`: move the pointer one cell to the left.
    Prev,
    /// `+`: add one to the current cell.
    Increment,
    /// `-`: subtract one from the current cell.
    Decrement,
    /// `.`: write the current cell to the output.
    Print,
    /// `,`: read one byte of input into the current cell.
    Read,
    /// `[`: open a loop.
    LoopBegin,
    /// `]`: close a loop.
    LoopEnd,
}

/// The command that a character stands for, if it stands for one.
pub open spec fn command_of(c: char) -> Option<Command> {
    if c == '>' {
        Some(Command::Next)
    } else if c == '<' {
        Some(Command::Prev)
    } else if c == '+' {
        Some(Command::Increment)
    } else if c == '-' {
        Some(Command::Decrement)
    } else if c == '.' {
        Some(Command::Print)
    } else if c == ',' {
        Some(Command::Read)
    } else if c == '[' {
        Some(Command::LoopBegin)
    } else if c == ']' {
        Some(Command::LoopEnd)
    } else {
        None
    }
}

/// The commands of a text, in source order; every other character is dropped.
pub open spec fn lex(text: Seq<char>) -> Seq<Command>
    decreases text.len(),
{
    if text.len() == 0 {
        Seq::empty()
    } else {
        match command_of(text.last()) {
            Some(c) => lex(text.drop_last()).push(c),
            None => lex(text.drop_last()),
        }
    }
}

/// Lexing distributes over concatenation: a text can be lexed piece by
/// piece.
pub proof fn lemma_lex_concat(a: Seq<char>, b: Seq<char>)
    ensures
        lex(a + b) == lex(a) + lex(b),
    decreases b.len(),
{
    if b.len() == 0 {
        assert(a + b =~= a);
        assert(lex(a) + lex(b) =~= lex(a));
    } else {
        lemma_lex_concat(a, b.drop_last());
        assert((a + b).drop_last() =~= a + b.drop_last());
        assert((a + b).last() == b.last());
        match command_of(b.last()) {
            Some(c) => {
                assert(lex(a + b) =~= lex(a) + lex(b));
            },
            None => {},
        }
    }
}

/// Classifies one character.
pub fn command_for(c: char) -> (r: Option<Command>)
    ensures
        r == command_of(c),
{
    match c {
        '>' => Some(Command::Next),
        '<' => Some(Command::Prev),
        '+' => Some(Command::Increment),
        '-' => Some(Command::Decrement),
        '.' => Some(Command::Print),
        ',' => Some(Command::Read),
        '[' => Some(Command::LoopBegin),
        ']' => Some(Command::LoopEnd),
        _ => None,
    }
}

/// Filters source text down to its commands.
///
/// Characters outside the eight-symbol alphabet are comments and are skipped;
/// no text is ever rejected.
pub fn parse(commands: &String) -> (tokens: Vec<Command>)
    ensures
        tokens@ == lex(commands@),
{
    let mut tokens: Vec<Command> = Vec::new();
    let mut chars = commands.as_str().chars();
    let ghost mut seen: Seq<char> = Seq::empty();
    proof {
        broadcast use vstd::string::axiom_spec_iter;
        assert(seen + chars.remaining() =~= commands@);
    }
    loop
        invariant
            chars.obeys_prophetic_iter_laws(),
            chars.decrease() is Some,
            seen + chars.remaining() == commands@,
            tokens@ == lex(seen),
        ensures
            tokens@ == lex(commands@),
        decreases chars.decrease()->0,
    {
        let ghost before = chars;
        let next = chars.next();
        proof {
            vstd::string::next_postcondition(&before, &chars, next);
        }
        match next {
            Some(c) => {
                proof {
                    let longer = seen.push(c);
                    assert(longer.drop_last() =~= seen);
                    assert(longer + chars.remaining() =~= seen + before.remaining());
                    seen = longer;
                }
                match command_for(c) {
                    Some(command) => tokens.push(command),
                    None => {},
                }
            },
            None => {
                proof {
                    assert(seen + chars.remaining() =~= seen);
                }
                break;
            },
        }
    }
    tokens
}

} // verus!
