//! What a program does: the meaning of each operation and of a loop, as
//! functions on the state of a run.

use vstd::prelude::*;
use crate::instruction::Node;

verus! {

/// Why a run stops before the end of its program.
#[derive(Debug, Clone, Copy, PartialEq, Eq, Structural)]
pub enum RunError {
    /// An input operation found the input channel empty.
    InputExhausted,
    /// A move to the left was asked for with the cursor on the first cell.
    CursorUnderflow,
    /// A loop was about to make more passes than the run allows to one loop.
    LoopLimit,
}

impl RunError {
    /// The error in words.
    pub fn message(&self) -> (text: String)
        ensures
            text@ == match self {
                RunError::InputExhausted => "Couldn't read line"@,
                RunError::CursorUnderflow => "Pointer moved left of the first cell."@,
                RunError::LoopLimit => "Loop made more passes than allowed."@,
            },
    {
        match self {
            RunError::InputExhausted => "Couldn't read line".to_owned(),
            RunError::CursorUnderflow => "Pointer moved left of the first cell.".to_owned(),
            RunError::LoopLimit => "Loop made more passes than allowed.".to_owned(),
        }
    }
}

/// The state of a run: the tape, the cursor on it, the input not yet read
/// and the output written so far.
pub struct Store {
    pub tape: Seq<u8>,
    pub cursor: int,
    pub input: Seq<u8>,
    pub output: Seq<u8>,
}

impl Store {
    /// The cursor is on a cell of the tape; so the tape has a cell.
    pub open spec fn wf(self) -> bool {
        0 <= self.cursor < self.tape.len()
    }

    /// The cell under the cursor.
    pub open spec fn cell(self) -> u8 {
        self.tape[self.cursor]
    }

    /// This state with `value` in the cell under the cursor.
    pub open spec fn with_cell(self, value: u8) -> Store {
        Store { tape: self.tape.update(self.cursor, value), ..self }
    }
}

/// How a run, or a part of one, ends: the state it leaves, and the error
/// that stopped it, if one did. The state left by an error is the state in
/// which the failing instruction was met.
pub struct Outcome {
    pub store: Store,
    pub error: Option<RunError>,
}

/// A cell one higher, 255 wrapping to 0.
pub open spec fn incremented(cell: u8) -> u8 {
    ((cell + 1) % 256) as u8
}

/// A cell one lower, 0 wrapping to 255.
pub open spec fn decremented(cell: u8) -> u8 {
    ((cell - 1) % 256) as u8
}

/// The effect of the operation that `code` names; a character that names
/// none has no effect.
pub open spec fn operate(code: char, store: Store) -> Outcome {
    if code == '>' {
        let tape = if store.cursor + 1 >= store.tape.len() {
            store.tape.push(0u8)
        } else {
            store.tape
        };
        Outcome { store: Store { tape, cursor: store.cursor + 1, ..store }, error: None }
    } else if code == '<' {
        if store.cursor <= 0 {
            Outcome { store, error: Some(RunError::CursorUnderflow) }
        } else {
            Outcome { store: Store { cursor: store.cursor - 1, ..store }, error: None }
        }
    } else if code == '+' {
        Outcome { store: store.with_cell(incremented(store.cell())), error: None }
    } else if code == '-' {
        Outcome { store: store.with_cell(decremented(store.cell())), error: None }
    } else if code == '.' {
        Outcome { store: Store { output: store.output.push(store.cell()), ..store }, error: None }
    } else if code == ',' {
        if store.input.len() == 0 {
            Outcome { store, error: Some(RunError::InputExhausted) }
        } else {
            Outcome {
                store: Store { input: store.input.drop_first(), ..store.with_cell(store.input[0]) },
                error: None,
            }
        }
    } else {
        Outcome { store, error: None }
    }
}

/// The effect of one instruction: of an operation, or of a loop entered
/// with its full allowance of passes.
pub open spec fn eval_node(node: Node, store: Store, limit: nat) -> Outcome
    decreases node, 0int, 0int,
{
    match node {
        Node::Op(code) => operate(code, store),
        Node::Loop(body) => eval_loop(body, store, limit, limit),
    }
}

/// The effect of the instructions of `forest` from index `at` on, in order,
/// up to the first that fails.
pub open spec fn eval_from(forest: Seq<Node>, at: int, store: Store, limit: nat) -> Outcome
    decreases forest, 1int, forest.len() - at,
{
    if 0 <= at < forest.len() {
        let first = eval_node(forest[at], store, limit);
        if first.error is Some {
            first
        } else {
            eval_from(forest, at + 1, first.store, limit)
        }
    } else {
        Outcome { store, error: None }
    }
}

/// The effect of a loop that may still make `passes` passes: while the cell
/// under the cursor is not zero, one pass through `body`, and the test
/// again, on whatever cell the cursor has come to.
pub open spec fn eval_loop(body: Seq<Node>, store: Store, limit: nat, passes: nat) -> Outcome
    decreases body, 2int, passes,
{
    if store.cell() == 0 {
        Outcome { store, error: None }
    } else if passes == 0 {
        Outcome { store, error: Some(RunError::LoopLimit) }
    } else {
        let pass = eval_from(body, 0, store, limit);
        if pass.error is Some {
            pass
        } else {
            eval_loop(body, pass.store, limit, (passes - 1) as nat)
        }
    }
}

/// The effect of a whole forest. No loop in it, however deep, makes more
/// than `limit` passes each time it is entered.
pub open spec fn eval(forest: Seq<Node>, store: Store, limit: nat) -> Outcome {
    eval_from(forest, 0, store, limit)
}

/// An operation does not look at what was written before it: it does the
/// same after any earlier output, and appends to it.
pub(crate) proof fn lemma_operate_appends(code: char, store: Store, earlier: Seq<u8>)
    ensures
        operate(code, Store { output: earlier + store.output, ..store }).error == operate(
            code,
            store,
        ).error,
        operate(code, Store { output: earlier + store.output, ..store }).store == (Store {
            output: earlier + operate(code, store).store.output,
            ..operate(code, store).store
        }),
{
    if code == '.' {
        assert((earlier + store.output).push(store.cell()) =~= earlier + store.output.push(
            store.cell(),
        ));
    }
}

/// An operation leaves the cursor on the tape and takes no cell away.
pub(crate) proof fn lemma_operate_keeps_wf(code: char, store: Store)
    requires
        store.wf(),
    ensures
        operate(code, store).store.wf(),
        operate(code, store).store.tape.len() >= store.tape.len(),
{
}

/// An instruction leaves the cursor on the tape and takes no cell away.
proof fn lemma_eval_node_keeps_wf(node: Node, store: Store, limit: nat)
    requires
        store.wf(),
    ensures
        eval_node(node, store, limit).store.wf(),
        eval_node(node, store, limit).store.tape.len() >= store.tape.len(),
    decreases node, 0int, 0int,
{
    match node {
        Node::Op(code) => {
            lemma_operate_keeps_wf(code, store);
        },
        Node::Loop(body) => {
            lemma_eval_loop_keeps_wf(body, store, limit, limit);
        },
    }
}

/// A run of instructions leaves the cursor on the tape and takes no cell
/// away.
proof fn lemma_eval_from_keeps_wf(forest: Seq<Node>, at: int, store: Store, limit: nat)
    requires
        store.wf(),
    ensures
        eval_from(forest, at, store, limit).store.wf(),
        eval_from(forest, at, store, limit).store.tape.len() >= store.tape.len(),
    decreases forest, 1int, forest.len() - at,
{
    if 0 <= at < forest.len() {
        lemma_eval_node_keeps_wf(forest[at], store, limit);
        let first = eval_node(forest[at], store, limit);
        if first.error is None {
            lemma_eval_from_keeps_wf(forest, at + 1, first.store, limit);
        }
    }
}

/// A loop leaves the cursor on the tape and takes no cell away.
proof fn lemma_eval_loop_keeps_wf(body: Seq<Node>, store: Store, limit: nat, passes: nat)
    requires
        store.wf(),
    ensures
        eval_loop(body, store, limit, passes).store.wf(),
        eval_loop(body, store, limit, passes).store.tape.len() >= store.tape.len(),
    decreases body, 2int, passes,
{
    if store.cell() != 0 && passes != 0 {
        lemma_eval_from_keeps_wf(body, 0, store, limit);
        let pass = eval_from(body, 0, store, limit);
        if pass.error is None {
            lemma_eval_loop_keeps_wf(body, pass.store, limit, (passes - 1) as nat);
        }
    }
}

/// Whatever a program does, and however it ends, the cursor stays on the
/// tape, and the tape keeps every cell it had: it has at least one cell at
/// all times, and grows at its end only.
pub proof fn eval_keeps_wf(forest: Seq<Node>, store: Store, limit: nat)
    requires
        store.wf(),
    ensures
        eval(forest, store, limit).store.wf(),
        eval(forest, store, limit).store.tape.len() >= store.tape.len(),
{
    lemma_eval_from_keeps_wf(forest, 0, store, limit);
}

/// An instruction that ends within the limit ends the same under any
/// higher limit.
proof fn lemma_node_limit(node: Node, store: Store, limit: nat, more: nat)
    requires
        limit <= more,
        eval_node(node, store, limit).error != Some(RunError::LoopLimit),
    ensures
        eval_node(node, store, more) == eval_node(node, store, limit),
    decreases node, 0int, 0int,
{
    match node {
        Node::Op(_) => {},
        Node::Loop(body) => {
            lemma_loop_limit(body, store, limit, more, limit, more);
        },
    }
}

/// A run of instructions that ends within the limit ends the same under
/// any higher limit.
proof fn lemma_from_limit(forest: Seq<Node>, at: int, store: Store, limit: nat, more: nat)
    requires
        limit <= more,
        eval_from(forest, at, store, limit).error != Some(RunError::LoopLimit),
    ensures
        eval_from(forest, at, store, more) == eval_from(forest, at, store, limit),
    decreases forest, 1int, forest.len() - at,
{
    if 0 <= at < forest.len() {
        lemma_node_limit(forest[at], store, limit, more);
        let first = eval_node(forest[at], store, limit);
        if first.error is None {
            lemma_from_limit(forest, at + 1, first.store, limit, more);
        }
    }
}

/// A loop that ends within the limit and the passes it has left ends the
/// same with a higher limit and more passes left.
proof fn lemma_loop_limit(
    body: Seq<Node>,
    store: Store,
    limit: nat,
    more: nat,
    passes: nat,
    more_passes: nat,
)
    requires
        limit <= more,
        passes <= more_passes,
        eval_loop(body, store, limit, passes).error != Some(RunError::LoopLimit),
    ensures
        eval_loop(body, store, more, more_passes) == eval_loop(body, store, limit, passes),
    decreases body, 2int, passes,
{
    if store.cell() != 0 && passes != 0 {
        lemma_from_limit(body, 0, store, limit, more);
        let pass = eval_from(body, 0, store, limit);
        if pass.error is None {
            lemma_loop_limit(
                body,
                pass.store,
                limit,
                more,
                (passes - 1) as nat,
                (more_passes - 1) as nat,
            );
        }
    }
}

/// The limit does nothing but cut a run short: a program that ends within
/// the limit, in success or in another error, ends in the same way and in
/// the same state under any higher limit.
pub proof fn limit_only_cuts_short(forest: Seq<Node>, store: Store, limit: nat, more: nat)
    requires
        limit <= more,
        eval(forest, store, limit).error != Some(RunError::LoopLimit),
    ensures
        eval(forest, store, more) == eval(forest, store, limit),
{
    lemma_from_limit(forest, 0, store, limit, more);
}

/// Incrementing and decrementing undo each other, and wrap: one below 0
/// is 255, and one above 255 is 0.
pub proof fn increment_inverts_decrement(cell: u8)
    ensures
        incremented(decremented(cell)) == cell,
        decremented(incremented(cell)) == cell,
        decremented(0u8) == 255u8,
        incremented(255u8) == 0u8,
{
}

/// The program that is the operation `code`, `count` times over.
pub open spec fn repeated(code: char, count: nat) -> Seq<Node> {
    Seq::new(count, |i: int| Node::Op(code))
}

/// What is left of `count` increments after the first `at` of them adds
/// `count - at` to the cell under the cursor, modulo 256.
proof fn lemma_increments_from(count: nat, at: int, store: Store, limit: nat)
    requires
        store.wf(),
        0 <= at <= count,
    ensures
        eval_from(repeated('+', count), at, store, limit) == (Outcome {
            store: store.with_cell(((store.cell() + count - at) % 256) as u8),
            error: None,
        }),
    decreases count - at,
{
    let program = repeated('+', count);
    if at < count {
        let next = store.with_cell(incremented(store.cell()));
        lemma_increments_from(count, at + 1, next, limit);
        let sum = ((store.cell() + count - at) % 256) as u8;
        assert(eval_node(program[at], store, limit) == (Outcome { store: next, error: None }));
        assert(next.cell() == incremented(store.cell()));
        assert(((next.cell() + count - (at + 1)) % 256) as u8 == sum);
        assert(next.tape.update(next.cursor, sum) =~= store.tape.update(store.cursor, sum));
        assert(next.with_cell(sum) == store.with_cell(sum));
    } else {
        assert(store.tape.update(store.cursor, store.cell()) =~= store.tape);
        assert(store.with_cell(store.cell()) == store);
    }
}

/// `count` increments in a row add `count` to the cell under the cursor,
/// modulo 256, and change nothing else.
pub proof fn increments_add_up(count: nat, store: Store, limit: nat)
    requires
        store.wf(),
    ensures
        eval(repeated('+', count), store, limit) == (Outcome {
            store: store.with_cell(((store.cell() + count) % 256) as u8),
            error: None,
        }),
{
    lemma_increments_from(count, 0, store, limit);
}

/// 256 increments in a row bring every cell back to the value it had.
pub proof fn increments_come_round(store: Store, limit: nat)
    requires
        store.wf(),
    ensures
        eval(repeated('+', 256), store, limit) == (Outcome { store, error: None }),
{
    increments_add_up(256, store, limit);
    assert(store.tape.update(store.cursor, store.cell()) =~= store.tape);
}

/// The loop that decrements until zero.
pub open spec fn clearing_loop() -> Node {
    Node::Loop(seq![Node::Op('-')])
}

/// The clearing loop with `passes` passes left: it makes one pass for each
/// unit of the cell under the cursor.
proof fn lemma_clearing_passes(store: Store, limit: nat, passes: nat)
    requires
        store.wf(),
    ensures
        eval_loop(seq![Node::Op('-')], store, limit, passes) == if store.cell() <= passes {
            Outcome { store: store.with_cell(0u8), error: None }
        } else {
            Outcome {
                store: store.with_cell((store.cell() - passes) as u8),
                error: Some(RunError::LoopLimit),
            }
        },
    decreases passes,
{
    let body = seq![Node::Op('-')];
    if store.cell() == 0 || passes == 0 {
        assert(store.tape.update(store.cursor, store.cell()) =~= store.tape);
    } else {
        reveal_with_fuel(eval_from, 2);
        let next = store.with_cell(decremented(store.cell()));
        assert(eval_from(body, 0, store, limit) == (Outcome { store: next, error: None }));
        lemma_clearing_passes(next, limit, (passes - 1) as nat);
        assert forall|value: u8| next.with_cell(value) == store.with_cell(value) by {
            assert(next.tape.update(next.cursor, value) =~= store.tape.update(
                store.cursor,
                value,
            ));
        }
    }
}

/// The clearing loop brings the cell under the cursor down to zero in as
/// many passes as the cell counts, and changes nothing else. Where the
/// limit is lower than the cell, the run stops after `limit` passes.
pub proof fn clearing_loop_counts_down(store: Store, limit: nat)
    requires
        store.wf(),
    ensures
        eval_node(clearing_loop(), store, limit) == if store.cell() <= limit {
            Outcome { store: store.with_cell(0u8), error: None }
        } else {
            Outcome {
                store: store.with_cell((store.cell() - limit) as u8),
                error: Some(RunError::LoopLimit),
            }
        },
{
    lemma_clearing_passes(store, limit, limit);
}

} // verus!
