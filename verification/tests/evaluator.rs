use std::collections::VecDeque;

use brainfuck::{parse, perform, run, Instruction, RunError};

struct Run {
    tape: Vec<u8>,
    pointer: usize,
    input: VecDeque<u8>,
    output: Vec<u8>,
    result: Result<(), RunError>,
}

fn run_on(source: &str, tape: &[u8], pointer: usize, input: &[u8], limit: u64) -> Run {
    let program = parse(source.to_string()).unwrap();
    let mut tape: Vec<u8> = tape.to_vec();
    let mut pointer = pointer;
    let mut input: VecDeque<u8> = input.iter().copied().collect();
    let mut output = Vec::new();
    let result = run(&program, &mut tape, &mut pointer, &mut input, &mut output, limit);
    Run { tape, pointer, input, output, result }
}

fn run_fresh(source: &str, input: &[u8]) -> Run {
    run_on(source, &[0], 0, input, 1_000_000)
}

#[test]
fn the_empty_program_changes_nothing() {
    let end = run_on("", &[7, 8], 1, &[1], 0);
    assert_eq!(end.result, Ok(()));
    assert_eq!(end.tape, vec![7, 8]);
    assert_eq!(end.pointer, 1);
    assert_eq!(end.input, VecDeque::from([1]));
    assert_eq!(end.output, Vec::<u8>::new());
}

#[test]
fn increment_adds_one() {
    let end = run_on("+", &[41], 0, &[], 0);
    assert_eq!(end.result, Ok(()));
    assert_eq!(end.tape, vec![42]);
}

#[test]
fn increment_wraps_from_255_to_0() {
    let end = run_on("+", &[255], 0, &[], 0);
    assert_eq!(end.result, Ok(()));
    assert_eq!(end.tape, vec![0]);
}

#[test]
fn decrement_takes_one() {
    let end = run_on("-", &[42], 0, &[], 0);
    assert_eq!(end.tape, vec![41]);
}

#[test]
fn decrement_wraps_from_0_to_255() {
    let end = run_on("-", &[0], 0, &[], 0);
    assert_eq!(end.result, Ok(()));
    assert_eq!(end.tape, vec![255]);
}

#[test]
fn increments_in_a_row_come_round_after_256() {
    let source = "+".repeat(256);
    for start in [0u8, 1, 100, 254, 255] {
        let end = run_on(&source, &[start], 0, &[], 0);
        assert_eq!(end.result, Ok(()));
        assert_eq!(end.tape, vec![start]);
    }
}

#[test]
fn increment_then_decrement_is_no_change() {
    for start in [0u8, 1, 127, 255] {
        assert_eq!(run_on("+-", &[start], 0, &[], 0).tape, vec![start]);
        assert_eq!(run_on("-+", &[start], 0, &[], 0).tape, vec![start]);
    }
}

#[test]
fn operations_touch_the_cell_under_the_cursor_only() {
    let end = run_on("+", &[1, 2, 3], 1, &[], 0);
    assert_eq!(end.tape, vec![1, 3, 3]);
    assert_eq!(end.pointer, 1);
}

#[test]
fn move_right_from_the_last_cell_appends_one_zero_cell() {
    let end = run_on(">", &[9], 0, &[], 0);
    assert_eq!(end.result, Ok(()));
    assert_eq!(end.tape, vec![9, 0]);
    assert_eq!(end.pointer, 1);
}

#[test]
fn move_right_inside_the_tape_appends_nothing() {
    let end = run_on(">", &[9, 8, 7], 0, &[], 0);
    assert_eq!(end.tape, vec![9, 8, 7]);
    assert_eq!(end.pointer, 1);
}

#[test]
fn moves_right_grow_the_tape_cell_by_cell() {
    let end = run_fresh(">>>>", &[]);
    assert_eq!(end.tape, vec![0, 0, 0, 0, 0]);
    assert_eq!(end.pointer, 4);
}

#[test]
fn move_left_steps_back() {
    let end = run_on("<", &[1, 2], 1, &[], 0);
    assert_eq!(end.result, Ok(()));
    assert_eq!(end.tape, vec![1, 2]);
    assert_eq!(end.pointer, 0);
}

#[test]
fn move_left_from_the_first_cell_is_a_cursor_underflow() {
    let end = run_on("+<+", &[1, 2], 0, &[], 0);
    assert_eq!(end.result, Err(RunError::CursorUnderflow));
    assert_eq!(end.tape, vec![2, 2]);
    assert_eq!(end.pointer, 0);
}

#[test]
fn the_tape_never_shrinks() {
    let end = run_fresh(">>><<<", &[]);
    assert_eq!(end.tape.len(), 4);
    assert_eq!(end.pointer, 0);
}

#[test]
fn output_writes_the_cell_as_one_byte() {
    let end = run_on(".", &[200], 0, &[], 0);
    assert_eq!(end.result, Ok(()));
    assert_eq!(end.output, vec![200]);
    assert_eq!(end.tape, vec![200]);
}

#[test]
fn output_appends_in_order() {
    let end = run_on(".+.+.", &[7], 0, &[], 0);
    assert_eq!(end.output, vec![7, 8, 9]);
}

#[test]
fn input_copies_a_byte_into_the_cell_and_writes_nothing() {
    let end = run_fresh(",", &[65]);
    assert_eq!(end.result, Ok(()));
    assert_eq!(end.tape, vec![65]);
    assert_eq!(end.input, VecDeque::new());
    assert_eq!(end.output, Vec::<u8>::new());
}

#[test]
fn input_then_output_echoes_the_byte() {
    let end = run_fresh(",.", &[65]);
    assert_eq!(end.result, Ok(()));
    assert_eq!(end.output, vec![65]);
}

#[test]
fn input_takes_bytes_from_the_front() {
    let end = run_fresh(",>,>,", &[3, 2, 1, 0]);
    assert_eq!(end.tape, vec![3, 2, 1]);
    assert_eq!(end.input, VecDeque::from([0]));
}

#[test]
fn input_on_an_empty_channel_is_input_exhausted() {
    let end = run_fresh(",", &[]);
    assert_eq!(end.result, Err(RunError::InputExhausted));
    assert_eq!(end.tape, vec![0]);
    assert_eq!(end.pointer, 0);
    assert_eq!(end.output, Vec::<u8>::new());
}

#[test]
fn input_exhausted_keeps_what_came_before_and_runs_nothing_after() {
    let end = run_fresh("++>+.,+.", &[]);
    assert_eq!(end.result, Err(RunError::InputExhausted));
    assert_eq!(end.tape, vec![2, 1]);
    assert_eq!(end.pointer, 1);
    assert_eq!(end.output, vec![1]);
}

#[test]
fn an_error_inside_a_loop_ends_the_run() {
    let end = run_fresh("+[,.]+", &[5, 6]);
    assert_eq!(end.result, Err(RunError::InputExhausted));
    assert_eq!(end.tape, vec![6]);
    assert_eq!(end.output, vec![5, 6]);
}

#[test]
fn an_error_inside_nested_loops_ends_the_run() {
    let end = run_fresh("+[>+[<<]]", &[]);
    assert_eq!(end.result, Err(RunError::CursorUnderflow));
    assert_eq!(end.tape, vec![1, 1]);
    assert_eq!(end.pointer, 0);
}

#[test]
fn a_loop_on_a_zero_cell_is_skipped() {
    let end = run_on("[+>,.]", &[0], 0, &[], 0);
    assert_eq!(end.result, Ok(()));
    assert_eq!(end.tape, vec![0]);
    assert_eq!(end.pointer, 0);
}

#[test]
fn the_clearing_loop_makes_one_pass_for_each_unit() {
    let end = run_on("[-]", &[5], 0, &[], 5);
    assert_eq!(end.result, Ok(()));
    assert_eq!(end.tape, vec![0]);
    assert_eq!(end.pointer, 0);

    let short = run_on("[-]", &[5], 0, &[], 4);
    assert_eq!(short.result, Err(RunError::LoopLimit));
    assert_eq!(short.tape, vec![1]);
}

#[test]
fn the_limit_counts_for_each_entry_into_a_loop() {
    // The inner loop is entered three times and makes two passes each time.
    let end = run_on("[->++[-]<]", &[3], 0, &[], 3);
    assert_eq!(end.result, Ok(()));
    assert_eq!(end.tape, vec![0, 0]);

    let short = run_on("[->+++[-]<]", &[2], 0, &[], 2);
    assert_eq!(short.result, Err(RunError::LoopLimit));
    assert_eq!(short.tape, vec![1, 1]);
    assert_eq!(short.pointer, 1);
}

#[test]
fn a_loop_that_never_ends_stops_at_the_limit() {
    let end = run_on("+[]", &[0], 0, &[], 1000);
    assert_eq!(end.result, Err(RunError::LoopLimit));
    assert_eq!(end.tape, vec![1]);
}

#[test]
fn a_loop_tests_the_cell_the_cursor_has_come_to() {
    let end = run_on("[>]", &[1, 1, 1, 0, 1], 0, &[], 10);
    assert_eq!(end.result, Ok(()));
    assert_eq!(end.pointer, 3);
    assert_eq!(end.tape, vec![1, 1, 1, 0, 1]);
}

#[test]
fn a_loop_tests_after_the_whole_pass_only() {
    // The cell is zero in the middle of each pass and the pass still goes on.
    let end = run_on("[-+-]", &[1], 0, &[], 10);
    assert_eq!(end.result, Ok(()));
    assert_eq!(end.tape, vec![0]);
}

#[test]
fn moving_a_value_to_the_right() {
    let end = run_fresh("++>+++<[->+<]", &[]);
    assert_eq!(end.result, Ok(()));
    assert_eq!(end.tape, vec![0, 5]);
    assert_eq!(end.pointer, 0);
    assert_eq!(end.output, Vec::<u8>::new());
}

#[test]
fn multiplying_with_nested_loops() {
    let end = run_fresh("++++[>+++[>++<-]<-]>>.", &[]);
    assert_eq!(end.result, Ok(()));
    assert_eq!(end.tape, vec![0, 0, 24]);
    assert_eq!(end.output, vec![24]);
}

#[test]
fn echo_until_a_zero_byte() {
    let end = run_fresh(",[.,]", &[104, 105, 0, 33]);
    assert_eq!(end.result, Ok(()));
    assert_eq!(end.output, vec![104, 105]);
    assert_eq!(end.input, VecDeque::from([33]));
}

#[test]
fn hello_world() {
    let source = "++++++++[>++++[>++>+++>+++>+<<<<-]>+>+>->>+[<]<-]>>.>---.+++++++..+++.\
                  >>.<-.<.+++.------.--------.>>+.>++.";
    let end = run_fresh(source, &[]);
    assert_eq!(end.result, Ok(()));
    assert_eq!(end.output, b"Hello World!\n".to_vec());
}

#[test]
fn a_character_that_names_no_operation_does_nothing() {
    let program = vec![Instruction::OpCode('x'), Instruction::OpCode('['), Instruction::OpCode('+')];
    let mut tape = vec![1u8];
    let mut pointer = 0;
    let mut input = VecDeque::from([9u8]);
    let mut output = Vec::new();
    let result = run(&program, &mut tape, &mut pointer, &mut input, &mut output, 0);
    assert_eq!(result, Ok(()));
    assert_eq!(tape, vec![2]);
    assert_eq!(input, VecDeque::from([9]));
    assert_eq!(output, Vec::<u8>::new());
}

#[test]
fn perform_does_one_operation() {
    let mut tape = vec![3u8, 4];
    let mut pointer = 1;
    let mut input = VecDeque::from([77u8]);
    let mut output = Vec::new();
    assert_eq!(perform('+', &mut tape, &mut pointer, &mut input, &mut output), Ok(()));
    assert_eq!(tape, vec![3, 5]);
    assert_eq!(perform('.', &mut tape, &mut pointer, &mut input, &mut output), Ok(()));
    assert_eq!(output, vec![5]);
    assert_eq!(perform(',', &mut tape, &mut pointer, &mut input, &mut output), Ok(()));
    assert_eq!(tape, vec![3, 77]);
    assert_eq!(
        perform(',', &mut tape, &mut pointer, &mut input, &mut output),
        Err(RunError::InputExhausted)
    );
    assert_eq!(perform('<', &mut tape, &mut pointer, &mut input, &mut output), Ok(()));
    assert_eq!(pointer, 0);
    assert_eq!(
        perform('<', &mut tape, &mut pointer, &mut input, &mut output),
        Err(RunError::CursorUnderflow)
    );
    assert_eq!(perform('-', &mut tape, &mut pointer, &mut input, &mut output), Ok(()));
    assert_eq!(tape, vec![2, 77]);
    assert_eq!(perform('>', &mut tape, &mut pointer, &mut input, &mut output), Ok(()));
    assert_eq!(perform('>', &mut tape, &mut pointer, &mut input, &mut output), Ok(()));
    assert_eq!(tape, vec![2, 77, 0]);
    assert_eq!(pointer, 2);
}

#[test]
fn run_errors_read_in_words() {
    assert_eq!(RunError::InputExhausted.message(), "Couldn't read line");
    assert_eq!(RunError::CursorUnderflow.message(), "Pointer moved left of the first cell.");
    assert_eq!(RunError::LoopLimit.message(), "Loop made more passes than allowed.");
}
