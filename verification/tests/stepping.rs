use tape_machine::{parse, pass, pass_flat, Machine, Operand, RuntimeError};

#[test]
fn step_runs_one_operand() {
    let mut machine = Machine::with_memory(
        vec![Operand::Increment(3), Operand::Next(1), Operand::Print],
        2,
    );
    assert_eq!(machine.position(), 0);
    assert_eq!(machine.step(0), Ok(()));
    assert_eq!(machine.position(), 1);
    assert_eq!(machine.memory().as_slice(), &[3u8, 0]);
    assert_eq!(machine.step(0), Ok(()));
    assert_eq!(machine.position(), 2);
    assert_eq!(machine.pointer(), 1);
    assert_eq!(machine.step(0), Ok(()));
    assert_eq!(machine.position(), 3);
    assert_eq!(machine.output().as_slice(), &[0u8]);
    assert!(!machine.is_finished());
}

#[test]
fn step_at_the_end_changes_nothing() {
    let mut machine = Machine::with_memory(vec![Operand::Increment(1)], 1);
    assert_eq!(machine.run(0), Ok(()));
    assert_eq!(machine.step(9), Ok(()));
    assert_eq!(machine.position(), 1);
    assert_eq!(machine.get_value(), 1);
    assert_eq!(machine.budget(), 9);
}

#[test]
fn step_runs_a_whole_loop() {
    let mut machine = Machine::with_memory(
        pass(parse(&String::from("+++[>+<-]"))).unwrap(),
        2,
    );
    assert_eq!(machine.step(0), Ok(()));
    assert_eq!(machine.step(5), Ok(()));
    assert_eq!(machine.memory().as_slice(), &[0u8, 3]);
    assert_eq!(machine.budget(), 3);
    assert!(!machine.is_finished());
}

#[test]
fn step_stays_at_the_operand_that_failed() {
    let mut machine = Machine::with_memory(vec![Operand::Prev(1), Operand::Print], 3);
    assert_eq!(machine.step(0), Err(RuntimeError::PointerOutOfBounds));
    assert_eq!(machine.position(), 0);
    assert_eq!(machine.get_operand(), &Operand::Prev(1));
    assert!(machine.output().is_empty());
}

#[test]
fn steps_follow_the_jumps() {
    let mut machine = Machine::with_memory(
        pass_flat(parse(&String::from("[+]++[-]"))).unwrap(),
        1,
    );
    let mut positions = vec![machine.position()];
    while machine.is_finished() {
        assert_eq!(machine.step(1), Ok(()));
        positions.push(machine.position());
    }
    assert_eq!(positions, vec![0, 2, 3, 4, 5, 6, 7, 5, 6, 7, 8]);
    assert_eq!(machine.get_value(), 0);
}

#[test]
fn run_spends_one_unit_for_each_repetition() {
    for form in [pass, pass_flat] {
        let mut machine = Machine::with_memory(form(parse(&String::from("++++[-]"))).unwrap(), 1);
        assert_eq!(machine.run(10), Ok(()));
        assert_eq!(machine.budget(), 7);
    }
}

#[test]
fn nested_loops_share_the_budget() {
    for form in [pass, pass_flat] {
        let operands = form(parse(&String::from("++[>+++[-]<-]"))).unwrap();
        let mut enough = Machine::with_memory(operands, 2);
        assert_eq!(enough.run(5), Ok(()));
        assert_eq!(enough.budget(), 0);
        let operands = form(parse(&String::from("++[>+++[-]<-]"))).unwrap();
        let mut short = Machine::with_memory(operands, 2);
        assert_eq!(short.run(4), Err(RuntimeError::BudgetExhausted));
        assert_eq!(short.memory().as_slice(), &[1u8, 1]);
    }
}

#[test]
fn a_jump_that_does_not_go_forward_costs_budget() {
    let mut machine = Machine::with_memory(vec![Operand::LoopBegin(0)], 1);
    assert_eq!(machine.run(5), Err(RuntimeError::BudgetExhausted));
    assert_eq!(machine.position(), 0);
    assert_eq!(machine.budget(), 0);
}

#[test]
fn a_jump_past_the_end_ends_the_program() {
    let mut machine = Machine::with_memory(
        vec![Operand::Increment(1), Operand::LoopEnd(9), Operand::Print],
        1,
    );
    assert_eq!(machine.run(0), Ok(()));
    assert_eq!(machine.position(), 9);
    assert!(machine.output().is_empty());
    assert!(!machine.is_finished());
}

#[test]
fn stepping_gives_what_running_gives() {
    let text = String::from("++[>,.<-]>+.");
    let mut stepped = Machine::with_memory(pass_flat(parse(&text)).unwrap(), 4);
    let mut ran = Machine::with_memory(pass_flat(parse(&text)).unwrap(), 4);
    stepped.feed(vec![10, 20]);
    ran.feed(vec![10, 20]);
    while stepped.is_finished() {
        assert_eq!(stepped.step(1), Ok(()));
    }
    assert_eq!(ran.run(100), Ok(()));
    assert_eq!(stepped.output(), ran.output());
    assert_eq!(stepped.output().as_slice(), &[10u8, 20, 21]);
    assert_eq!(stepped.memory(), ran.memory());
    assert_eq!(stepped.pointer(), ran.pointer());
}

#[test]
fn feed_appends_to_unread_input() {
    let mut machine = Machine::with_memory(
        vec![Operand::Read, Operand::Print, Operand::Read, Operand::Print, Operand::Read, Operand::Print],
        1,
    );
    machine.feed(vec![1]);
    assert_eq!(machine.step(0), Ok(()));
    assert_eq!(machine.step(0), Ok(()));
    machine.feed(vec![2, 3]);
    assert_eq!(machine.run(0), Ok(()));
    assert_eq!(machine.output().as_slice(), &[1u8, 2, 3]);
}

#[test]
fn output_written_before_an_error_is_kept() {
    for form in [pass, pass_flat] {
        let operands = form(parse(&String::from("+.+.<.+."))).unwrap();
        let mut machine = Machine::with_memory(operands, 2);
        assert_eq!(machine.run(0), Err(RuntimeError::PointerOutOfBounds));
        assert_eq!(machine.output().as_slice(), &[1u8, 2]);
        assert_eq!(machine.get_value(), 2);
    }
}
