use std::collections::VecDeque;

use brainfuck::{parse, run, Instruction, Machine, RunError, Step};

struct Halt {
    tape: Vec<u8>,
    pointer: usize,
    output: Vec<u8>,
    steps: usize,
    error: Option<RunError>,
}

/// Steps the machine until it halts or fails, with `input` fed beforehand.
fn drive(program: &[Instruction], input: &[u8], most: usize) -> Halt {
    let mut machine = Machine::new(program);
    for byte in input {
        machine.feed(*byte);
    }
    let mut output = Vec::new();
    let mut steps = 0;
    let mut error = None;
    while steps < most {
        match machine.step() {
            Ok(Step::Moved) => {}
            Ok(Step::Wrote(byte)) => output.push(byte),
            Ok(Step::Halted) => break,
            Err(found) => {
                error = Some(found);
                break;
            }
        }
        steps += 1;
    }
    Halt { tape: machine.tape().clone(), pointer: machine.pointer(), output, steps, error }
}

fn drive_source(source: &str, input: &[u8]) -> Halt {
    drive(&parse(source.to_string()).unwrap(), input, 1_000_000)
}

#[test]
fn a_new_machine_has_one_zero_cell() {
    let program = parse("+".to_string()).unwrap();
    let machine = Machine::new(&program);
    assert_eq!(machine.tape(), &vec![0]);
    assert_eq!(machine.pointer(), 0);
    assert!(!machine.halted());
}

#[test]
fn a_machine_on_the_empty_program_is_halted() {
    let program = parse(String::new()).unwrap();
    let mut machine = Machine::new(&program);
    assert!(machine.halted());
    assert_eq!(machine.step(), Ok(Step::Halted));
    assert_eq!(machine.step(), Ok(Step::Halted));
    assert_eq!(machine.tape(), &vec![0]);
}

#[test]
fn each_operation_is_one_step() {
    let program = parse("+>-".to_string()).unwrap();
    let mut machine = Machine::new(&program);
    assert_eq!(machine.step(), Ok(Step::Moved));
    assert_eq!(machine.tape(), &vec![1]);
    assert_eq!(machine.step(), Ok(Step::Moved));
    assert_eq!(machine.tape(), &vec![1, 0]);
    assert_eq!(machine.pointer(), 1);
    assert!(!machine.halted());
    assert_eq!(machine.step(), Ok(Step::Moved));
    assert_eq!(machine.tape(), &vec![1, 255]);
    assert!(machine.halted());
    assert_eq!(machine.step(), Ok(Step::Halted));
}

#[test]
fn an_output_operation_hands_out_its_byte() {
    let program = parse("+++.".to_string()).unwrap();
    let mut machine = Machine::new(&program);
    for _ in 0..3 {
        assert_eq!(machine.step(), Ok(Step::Moved));
    }
    assert_eq!(machine.step(), Ok(Step::Wrote(3)));
    assert!(machine.halted());
}

#[test]
fn a_step_that_fails_changes_nothing_and_can_be_taken_again() {
    let program = parse(",.".to_string()).unwrap();
    let mut machine = Machine::new(&program);
    assert_eq!(machine.step(), Err(RunError::InputExhausted));
    assert_eq!(machine.step(), Err(RunError::InputExhausted));
    assert_eq!(machine.tape(), &vec![0]);
    assert!(!machine.halted());
    machine.feed(65);
    assert_eq!(machine.step(), Ok(Step::Moved));
    assert_eq!(machine.tape(), &vec![65]);
    assert_eq!(machine.step(), Ok(Step::Wrote(65)));
    assert_eq!(machine.step(), Ok(Step::Halted));
}

#[test]
fn bytes_are_read_in_the_order_they_were_fed() {
    let end = drive_source(",>,>,", &[1, 2, 3]);
    assert_eq!(end.error, None);
    assert_eq!(end.tape, vec![1, 2, 3]);
}

#[test]
fn a_move_left_from_the_first_cell_fails_each_time() {
    let program = parse("<+".to_string()).unwrap();
    let mut machine = Machine::new(&program);
    assert_eq!(machine.step(), Err(RunError::CursorUnderflow));
    assert_eq!(machine.step(), Err(RunError::CursorUnderflow));
    assert_eq!(machine.tape(), &vec![0]);
    assert_eq!(machine.pointer(), 0);
}

#[test]
fn entering_testing_and_leaving_a_loop_are_steps() {
    // "+" one step; "[" enters; "-" one step; the end of the body leaves.
    let end = drive_source("+[-]", &[]);
    assert_eq!(end.error, None);
    assert_eq!(end.steps, 4);
    assert_eq!(end.tape, vec![0]);
}

#[test]
fn a_loop_on_a_zero_cell_is_passed_in_one_step() {
    let end = drive_source("[+]", &[]);
    assert_eq!(end.steps, 1);
    assert_eq!(end.tape, vec![0]);
}

#[test]
fn the_clearing_loop_takes_two_steps_for_each_pass() {
    let program = parse("+++++[-]".to_string()).unwrap();
    let mut machine = Machine::new(&program);
    let mut steps = 0;
    while !machine.halted() {
        assert_eq!(machine.step(), Ok(Step::Moved));
        steps += 1;
    }
    // Five increments, one step into the loop, and for each of the five
    // passes the decrement and the test at the end of the body.
    assert_eq!(steps, 5 + 1 + 5 * 2);
    assert_eq!(machine.tape(), &vec![0]);
}

#[test]
fn a_loop_that_never_ends_never_halts() {
    let end = drive(&parse("+[]".to_string()).unwrap(), &[], 10_000);
    assert_eq!(end.error, None);
    assert_eq!(end.steps, 10_000);
    assert_eq!(end.tape, vec![1]);
}

#[test]
fn the_machine_moves_a_value_to_the_right() {
    let end = drive_source("++>+++<[->+<]", &[]);
    assert_eq!(end.error, None);
    assert_eq!(end.tape, vec![0, 5]);
    assert_eq!(end.pointer, 0);
    assert_eq!(end.output, Vec::<u8>::new());
}

#[test]
fn the_machine_says_hello() {
    let source = "++++++++[>++++[>++>+++>+++>+<<<<-]>+>+>->>+[<]<-]>>.>---.+++++++..+++.\
                  >>.<-.<.+++.------.--------.>>+.>++.";
    let end = drive_source(source, &[]);
    assert_eq!(end.error, None);
    assert_eq!(end.output, b"Hello World!\n".to_vec());
}

#[test]
fn the_machine_and_run_agree() {
    let cases: [(&str, &[u8]); 8] = [
        ("", &[]),
        ("+++[>++<-]>.", &[]),
        (",[.,]", &[9, 8, 7, 0, 6]),
        (",[.,]", &[9, 8, 7]),
        ("+[>+[<<]]", &[]),
        ("++++[>+++[>++<-]<-]>>.<<-.", &[]),
        (",>,<[->+<]>.", &[20, 22]),
        ("x[y]z<", &[]),
    ];
    for (source, input) in cases {
        let program = parse(source.to_string()).unwrap();
        let stepped = drive(&program, input, 1_000_000);

        let mut tape = vec![0u8];
        let mut pointer = 0;
        let mut queue: VecDeque<u8> = input.iter().copied().collect();
        let mut output = Vec::new();
        let result = run(&program, &mut tape, &mut pointer, &mut queue, &mut output, u64::MAX);

        assert_eq!(stepped.error, result.err(), "source {:?}", source);
        assert_eq!(stepped.tape, tape, "source {:?}", source);
        assert_eq!(stepped.pointer, pointer, "source {:?}", source);
        assert_eq!(stepped.output, output, "source {:?}", source);
    }
}
