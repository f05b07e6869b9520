use tape_machine::{parse, pass, pass_flat, Command, Machine, Operand, RuntimeError, INITIAL_SIZE};

const HELLO: &str = "++++++++[>++++[>++>+++>+++>+<<<<-]>+>+>->>+[<]<-]>>.>---.+++++++..+++.>>.<-.<.+++.------.--------.>>+.>++.";

fn structured(text: &str) -> Machine {
    Machine::new(pass(parse(&String::from(text))).unwrap())
}

fn flat(text: &str) -> Machine {
    Machine::new(pass_flat(parse(&String::from(text))).unwrap())
}

#[test]
fn lexer_skips_comments() {
    let tokens = parse(&String::from("a+b-c [x] >< ., end"));
    assert_eq!(
        tokens,
        vec![
            Command::Increment,
            Command::Decrement,
            Command::LoopBegin,
            Command::LoopEnd,
            Command::Next,
            Command::Prev,
            Command::Print,
            Command::Read,
        ]
    );
}

#[test]
fn new_machine_is_blank() {
    let machine = Machine::new(vec![Operand::Print]);
    assert_eq!(machine.pointer(), 0);
    assert_eq!(machine.memory().len(), INITIAL_SIZE);
    assert_eq!(INITIAL_SIZE, 300000);
    assert!(machine.memory().iter().all(|cell| *cell == 0));
    assert!(machine.output().is_empty());
    assert_eq!(machine.get_value(), 0);
    assert!(machine.is_finished());
    assert_eq!(machine.get_operand(), &Operand::Print);
}

#[test]
fn is_finished_turns_false_at_the_end() {
    let mut machine = Machine::new(vec![Operand::Increment(2)]);
    assert!(machine.is_finished());
    assert_eq!(machine.run(0), Ok(()));
    assert!(!machine.is_finished());
    assert_eq!(machine.get_value(), 2);
}

#[test]
fn hello_world_structured() {
    let mut machine = structured(HELLO);
    assert_eq!(machine.run(1000), Ok(()));
    assert_eq!(machine.output().as_slice(), b"Hello World!\n");
}

#[test]
fn hello_world_flat() {
    let mut machine = flat(HELLO);
    assert_eq!(machine.run(1000), Ok(()));
    assert_eq!(machine.output().as_slice(), b"Hello World!\n");
}

#[test]
fn empty_program_leaves_tape_untouched() {
    for mut machine in [structured(""), flat("")] {
        assert_eq!(machine.run(0), Ok(()));
        assert!(machine.output().is_empty());
        assert_eq!(machine.pointer(), 0);
        assert!(machine.memory().iter().all(|cell| *cell == 0));
        assert!(!machine.is_finished());
    }
}

#[test]
fn cell_wraps_in_both_directions() {
    let mut up = Machine::new(vec![Operand::Decrement(1), Operand::Increment(1)]);
    assert_eq!(up.run(0), Ok(()));
    assert_eq!(up.get_value(), 0);
    let mut down = Machine::new(vec![Operand::Decrement(1)]);
    assert_eq!(down.run(0), Ok(()));
    assert_eq!(down.get_value(), 255);
    let mut around = Machine::new(vec![Operand::Increment(255), Operand::Increment(1)]);
    assert_eq!(around.run(0), Ok(()));
    assert_eq!(around.get_value(), 0);
    let mut folded = Machine::new(vec![Operand::Increment(200), Operand::Increment(100)]);
    assert_eq!(folded.run(0), Ok(()));
    assert_eq!(folded.get_value(), 44);
    let mut below = Machine::new(vec![Operand::Increment(5), Operand::Decrement(10)]);
    assert_eq!(below.run(0), Ok(()));
    assert_eq!(below.get_value(), 251);
}

#[test]
fn loop_on_zero_cell_is_skipped() {
    for mut machine in [structured("[+.>]."), flat("[+.>].")] {
        assert_eq!(machine.run(0), Ok(()));
        assert_eq!(machine.output().as_slice(), &[0u8]);
        assert_eq!(machine.pointer(), 0);
        assert_eq!(machine.get_value(), 0);
    }
}

#[test]
fn loop_runs_until_cell_is_zero() {
    for mut machine in [structured("+++[>++<-]>."), flat("+++[>++<-]>.")] {
        assert_eq!(machine.run(2), Ok(()));
        assert_eq!(machine.output().as_slice(), &[6u8]);
    }
}

#[test]
fn loop_needs_one_unit_for_each_repetition() {
    for mut machine in [structured("+++[-]"), flat("+++[-]")] {
        assert_eq!(machine.run(1), Err(RuntimeError::BudgetExhausted));
        assert_eq!(machine.get_value(), 1);
    }
}

#[test]
fn endless_loop_exhausts_budget() {
    for mut machine in [structured("+[]"), flat("+[]")] {
        assert_eq!(machine.run(100000), Err(RuntimeError::BudgetExhausted));
        assert_eq!(machine.pointer(), 0);
        assert_eq!(machine.get_value(), 1);
        assert!(machine.output().is_empty());
        assert!(machine.is_finished());
    }
}

#[test]
fn moving_left_of_the_tape_fails() {
    for mut machine in [structured("+.>.<<."), flat("+.>.<<.")] {
        assert_eq!(machine.run(0), Err(RuntimeError::PointerOutOfBounds));
        assert_eq!(machine.output().as_slice(), &[1u8, 0u8]);
        assert_eq!(machine.pointer(), 0);
    }
}

#[test]
fn moving_right_of_the_tape_fails() {
    let program = vec![Operand::Print, Operand::Next(2), Operand::Next(2), Operand::Print];
    let mut machine = Machine::with_memory(program, 4);
    assert_eq!(machine.run(0), Err(RuntimeError::PointerOutOfBounds));
    assert_eq!(machine.pointer(), 3);
    assert_eq!(machine.output().as_slice(), &[0u8]);
    assert_eq!(machine.get_operand(), &Operand::Next(2));
    let mut fits = Machine::with_memory(vec![Operand::Next(3), Operand::Increment(1)], 4);
    assert_eq!(fits.run(0), Ok(()));
    assert_eq!(fits.pointer(), 3);
    assert_eq!(fits.memory().as_slice(), &[0u8, 0, 0, 1]);
}

#[test]
fn moving_past_the_default_tape_fails() {
    let text: String = std::iter::repeat('>').take(INITIAL_SIZE).collect();
    let mut folded = Machine::new(pass(parse(&text)).unwrap());
    assert_eq!(folded.run(0), Err(RuntimeError::PointerOutOfBounds));
    assert_eq!(folded.pointer(), INITIAL_SIZE - 1);
    let mut unfolded = Machine::new(pass_flat(parse(&text)).unwrap());
    assert_eq!(unfolded.run(0), Err(RuntimeError::PointerOutOfBounds));
    assert_eq!(unfolded.pointer(), INITIAL_SIZE - 1);
}

#[test]
fn read_takes_input_in_order() {
    for mut machine in [structured(",.>,.>,."), flat(",.>,.>,.")] {
        machine.feed(vec![7, 9]);
        assert_eq!(machine.run(0), Ok(()));
        assert_eq!(machine.output().as_slice(), &[7u8, 9, 0]);
    }
}

#[test]
fn read_without_input_keeps_the_cell() {
    for mut machine in [structured("+++,."), flat("+++,.")] {
        assert_eq!(machine.run(0), Ok(()));
        assert_eq!(machine.output().as_slice(), &[3u8]);
    }
}

#[test]
fn both_forms_give_the_same_output() {
    let programs = [
        HELLO,
        "++[>+++[>++<-]<-]>>.",
        ",[.,]",
        "+[>+]",
        "-[-[-[-]]].",
        "<",
        "+[[-]+]",
    ];
    for text in programs {
        for budget in [0u64, 1, 5, 50, 5000] {
            let mut tree = structured(text);
            let mut jumps = flat(text);
            tree.feed(vec![3, 2, 1, 0]);
            jumps.feed(vec![3, 2, 1, 0]);
            assert_eq!(tree.run(budget), jumps.run(budget), "{} with {}", text, budget);
            assert_eq!(tree.output(), jumps.output(), "{} with {}", text, budget);
            assert_eq!(tree.pointer(), jumps.pointer(), "{} with {}", text, budget);
            assert_eq!(tree.memory(), jumps.memory(), "{} with {}", text, budget);
        }
    }
}
