//! The evaluator: a walk over the instruction forest that changes a tape
//! and a cursor, reads bytes from an input queue and appends bytes to an
//! output.

use std::collections::VecDeque;
use vstd::prelude::*;
use crate::instruction::{forest_view, Instruction};
use crate::semantics::{
    eval, eval_from, eval_keeps_wf, eval_loop, eval_node, operate, Outcome, RunError, Store,
};

verus! {

/// The state of a run, from the four values that hold it.
pub open spec fn store_of(tape: Seq<u8>, pointer: usize, input: Seq<u8>, output: Seq<u8>) -> Store {
    Store { tape, cursor: pointer as int, input, output }
}

/// The error that a result reports, if it reports one.
pub open spec fn error_of(result: Result<(), RunError>) -> Option<RunError> {
    match result {
        Ok(_) => None,
        Err(error) => Some(error),
    }
}

/// Performs the operation that `code` names on the state of a run; a
/// character that names none changes nothing.
pub fn perform(
    code: char,
    tape: &mut Vec<u8>,
    pointer: &mut usize,
    input: &mut VecDeque<u8>,
    output: &mut Vec<u8>,
) -> (result: Result<(), RunError>)
    requires
        *old(pointer) < old(tape)@.len(),
    ensures
        operate(code, store_of(old(tape)@, *old(pointer), old(input)@, old(output)@)) == (Outcome {
            store: store_of(final(tape)@, *final(pointer), final(input)@, final(output)@),
            error: error_of(result),
        }),
        *final(pointer) < final(tape)@.len(),
{
    if code == '>' {
        let length = tape.len();
        *pointer += 1;
        if *pointer >= length {
            tape.push(0u8);
        }
    } else if code == '<' {
        if *pointer == 0 {
            return Err(RunError::CursorUnderflow);
        }
        *pointer -= 1;
    } else if code == '+' {
        tape[*pointer] = tape[*pointer].wrapping_add(1);
    } else if code == '-' {
        tape[*pointer] = tape[*pointer].wrapping_sub(1);
    } else if code == '.' {
        output.push(tape[*pointer]);
    } else if code == ',' {
        match input.pop_front() {
            Some(byte) => {
                tape[*pointer] = byte;
                assert(input@ =~= old(input)@.drop_first());
            },
            None => {
                return Err(RunError::InputExhausted);
            },
        }
    }
    Ok(())
}

/// Runs a loop: while the cell under the cursor is not zero, one pass
/// through `body`. At most `limit` passes are made.
fn repeat(
    body: &Vec<Instruction>,
    tape: &mut Vec<u8>,
    pointer: &mut usize,
    input: &mut VecDeque<u8>,
    output: &mut Vec<u8>,
    limit: u64,
) -> (result: Result<(), RunError>)
    requires
        *old(pointer) < old(tape)@.len(),
    ensures
        eval_loop(
            forest_view(body@),
            store_of(old(tape)@, *old(pointer), old(input)@, old(output)@),
            limit as nat,
            limit as nat,
        ) == (Outcome {
            store: store_of(final(tape)@, *final(pointer), final(input)@, final(output)@),
            error: error_of(result),
        }),
        *final(pointer) < final(tape)@.len(),
    decreases body@, 1int,
{
    let ghost entry = store_of(tape@, *pointer, input@, output@);
    let mut passes: u64 = limit;
    while tape[*pointer] != 0
        invariant
            *pointer < tape@.len(),
            entry == store_of(old(tape)@, *old(pointer), old(input)@, old(output)@),
            eval_loop(
                forest_view(body@),
                store_of(tape@, *pointer, input@, output@),
                limit as nat,
                passes as nat,
            ) == eval_loop(forest_view(body@), entry, limit as nat, limit as nat),
        decreases passes,
    {
        if passes == 0 {
            return Err(RunError::LoopLimit);
        }
        passes -= 1;
        match run(body.as_slice(), tape, pointer, input, output, limit) {
            Ok(_) => {},
            Err(error) => {
                return Err(error);
            },
        }
    }
    Ok(())
}

/// Runs `instructions` in order on the tape, with the cursor at `pointer`.
///
/// An input operation takes the byte at the front of `input`; an output
/// operation appends the cell under the cursor to `output`. A move to the
/// right from the last cell appends a zero cell; a move to the left from
/// the first cell stops the run with [`RunError::CursorUnderflow`], and an
/// input operation on an empty `input` with [`RunError::InputExhausted`].
/// A loop that is still not done after `limit` passes stops the run with
/// [`RunError::LoopLimit`]. A run that stops leaves the four values as they
/// were when it met the instruction that failed. However the run ends, the
/// cursor is on the tape and the tape has lost no cell.
pub fn run(
    instructions: &[Instruction],
    tape: &mut Vec<u8>,
    pointer: &mut usize,
    input: &mut VecDeque<u8>,
    output: &mut Vec<u8>,
    limit: u64,
) -> (result: Result<(), RunError>)
    requires
        *old(pointer) < old(tape)@.len(),
    ensures
        eval(
            forest_view(instructions@),
            store_of(old(tape)@, *old(pointer), old(input)@, old(output)@),
            limit as nat,
        ) == (Outcome {
            store: store_of(final(tape)@, *final(pointer), final(input)@, final(output)@),
            error: error_of(result),
        }),
        *final(pointer) < final(tape)@.len(),
        final(tape)@.len() >= old(tape)@.len(),
    decreases instructions@, 0int,
{
    let ghost forest = forest_view(instructions@);
    let ghost entry = store_of(tape@, *pointer, input@, output@);
    let mut at: usize = 0;
    proof {
        eval_keeps_wf(forest, entry, limit as nat);
    }
    while at < instructions.len()
        invariant
            at <= instructions.len(),
            forest == forest_view(instructions@),
            entry == store_of(old(tape)@, *old(pointer), old(input)@, old(output)@),
            eval(forest, entry, limit as nat).store.tape.len() >= entry.tape.len(),
            *pointer < tape@.len(),
            eval_from(forest, at as int, store_of(tape@, *pointer, input@, output@), limit as nat)
                == eval(forest, entry, limit as nat),
        decreases instructions.len() - at,
    {
        let ghost before = store_of(tape@, *pointer, input@, output@);
        let step = match &instructions[at] {
            Instruction::OpCode(code) => perform(*code, tape, pointer, input, output),
            Instruction::Loop(body) => repeat(body, tape, pointer, input, output, limit),
        };
        proof {
            let after = Outcome {
                store: store_of(tape@, *pointer, input@, output@),
                error: error_of(step),
            };
            assert(forest[at as int] == instructions@[at as int]@);
            assert(eval_node(forest[at as int], before, limit as nat) == after);
        }
        match step {
            Ok(_) => {},
            Err(error) => {
                return Err(error);
            },
        }
        at += 1;
    }
    Ok(())
}

} // verus!
