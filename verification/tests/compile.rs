use tape_machine::{count_command, parse, pass, pass_flat, Command, CompileError, Operand};

fn tokens(text: &str) -> Vec<Command> {
    parse(&String::from(text))
}

#[test]
fn count_command_counts_leading_run() {
    let commands = tokens("+++->>");
    assert_eq!(count_command(&commands, 0, Command::Increment), 3);
    assert_eq!(count_command(&commands, 1, Command::Increment), 2);
    assert_eq!(count_command(&commands, 3, Command::Increment), 0);
    assert_eq!(count_command(&commands, 4, Command::Next), 2);
    assert_eq!(count_command(&commands, 6, Command::Next), 0);
    assert_eq!(count_command(&commands, 60, Command::Next), 0);
}

#[test]
fn pass_folds_runs() {
    assert_eq!(
        pass(tokens("+++>>-<<<<.,,")),
        Ok(vec![
            Operand::Increment(3),
            Operand::Next(2),
            Operand::Decrement(1),
            Operand::Prev(4),
            Operand::Print,
            Operand::Read,
            Operand::Read,
        ])
    );
}

#[test]
fn pass_nests_loops() {
    assert_eq!(
        pass(tokens("+[>+[-]<-]>")),
        Ok(vec![
            Operand::Increment(1),
            Operand::Loop(vec![
                Operand::Next(1),
                Operand::Increment(1),
                Operand::Loop(vec![Operand::Decrement(1)]),
                Operand::Prev(1),
                Operand::Decrement(1),
            ]),
            Operand::Next(1),
        ])
    );
}

#[test]
fn pass_does_not_fold_across_brackets() {
    assert_eq!(
        pass(tokens("+[+]+")),
        Ok(vec![
            Operand::Increment(1),
            Operand::Loop(vec![Operand::Increment(1)]),
            Operand::Increment(1),
        ])
    );
}

#[test]
fn pass_keeps_increment_count_modulo_256() {
    let text: String = std::iter::repeat('+').take(258).collect();
    assert_eq!(pass(parse(&text)), Ok(vec![Operand::Increment(2)]));
    let text: String = std::iter::repeat('-').take(256).collect();
    assert_eq!(pass(parse(&text)), Ok(vec![Operand::Decrement(0)]));
    let text: String = std::iter::repeat('>').take(300).collect();
    assert_eq!(pass(parse(&text)), Ok(vec![Operand::Next(300)]));
}

#[test]
fn pass_flat_records_partners() {
    assert_eq!(
        pass_flat(tokens("+[>[-]<]")),
        Ok(vec![
            Operand::Increment(1),
            Operand::LoopBegin(7),
            Operand::Next(1),
            Operand::LoopBegin(5),
            Operand::Decrement(1),
            Operand::LoopEnd(3),
            Operand::Prev(1),
            Operand::LoopEnd(1),
        ])
    );
}

#[test]
fn pass_flat_does_not_fold() {
    assert_eq!(
        pass_flat(tokens("++>>")),
        Ok(vec![
            Operand::Increment(1),
            Operand::Increment(1),
            Operand::Next(1),
            Operand::Next(1),
        ])
    );
}

#[test]
fn unmatched_loop_begin_is_rejected() {
    for text in ["[", "+[", "[[]", "[][", "[[[]]"] {
        assert_eq!(pass(tokens(text)), Err(CompileError::UnmatchedLoopBegin), "{}", text);
        assert_eq!(pass_flat(tokens(text)), Err(CompileError::UnmatchedLoopBegin), "{}", text);
    }
}

#[test]
fn unmatched_loop_end_is_rejected() {
    for text in ["]", "+]", "[]]", "][", "[]][[", "[[]]]["] {
        assert_eq!(pass(tokens(text)), Err(CompileError::UnmatchedLoopEnd), "{}", text);
        assert_eq!(pass_flat(tokens(text)), Err(CompileError::UnmatchedLoopEnd), "{}", text);
    }
}

#[test]
fn empty_program_compiles_to_nothing() {
    assert_eq!(pass(tokens("")), Ok(vec![]));
    assert_eq!(pass_flat(tokens("")), Ok(vec![]));
    assert_eq!(pass(tokens("no commands here")), Ok(vec![]));
}
