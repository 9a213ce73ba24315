//! The step machine and the evaluation of a forest agree: what the one
//! does step by step is what the other says of the whole program.

use vstd::prelude::*;
use crate::instruction::Node;
use crate::machine::{Config, Frame};
use crate::semantics::{eval, eval_from, eval_loop, eval_node, operate, Outcome, RunError, Store};

verus! {

/// The machine is still at work at or above the frame at index `depth`:
/// it is inside a loop that this frame stands at, or this frame is the
/// innermost and has not come to its end.
spec fn busy(config: Config, depth: int) -> bool {
    config.frames.len() > depth + 1 || (config.frames.len() == depth + 1 && 0
        <= config.frames[depth].at < config.frames[depth].code.len())
}

/// From `start` the machine does what `outcome` says. Where `outcome` is a
/// success, the machine has its state after `count` steps, stands at
/// `frames`, and was busy until then. Where it is the limit on passes, the
/// machine stays busy for `bound` steps and more. Where it is another
/// error, the machine has its state after `count` steps, and its next step
/// meets that error.
spec fn reaches(
    start: Config,
    count: nat,
    outcome: Outcome,
    frames: Seq<Frame>,
    depth: int,
    bound: nat,
) -> bool {
    match outcome.error {
        None => start.after(count) == (Config { frames, store: outcome.store }) && forall|k: nat|
            k < count ==> busy(#[trigger] start.after(k), depth),
        Some(RunError::LoopLimit) => forall|k: nat|
            k <= bound ==> busy(#[trigger] start.after(k), depth),
        Some(error) => start.after(count).store == outcome.store && start.after(
            count,
        ).next().error == Some(error),
    }
}

/// Steps add up.
proof fn lemma_after_after(start: Config, first: nat, second: nat)
    ensures
        start.after(first + second) == start.after(first).after(second),
    decreases first,
{
    if first > 0 {
        lemma_after_after(start.next().config, (first - 1) as nat, second);
    }
}

/// A machine at a halt stays as it is.
proof fn lemma_halted_stays(config: Config, count: nat)
    requires
        config.halted(),
    ensures
        config.after(count) == config,
    decreases count,
{
    if count > 0 {
        lemma_halted_stays(config, (count - 1) as nat);
    }
}

/// A machine whose next step fails is not at a halt, and stays as it is.
proof fn lemma_failed_stays(config: Config, count: nat)
    requires
        config.next().error is Some,
    ensures
        !config.halted(),
        config.after(count) == config,
    decreases count,
{
    if count > 0 {
        lemma_failed_stays(config, (count - 1) as nat);
    }
}

/// From in front of an instruction the machine does what `eval_node` says
/// of the instruction, and then stands behind it.
proof fn lemma_node_steps(below: Seq<Frame>, code: Seq<Node>, at: int, store: Store, limit: nat)
    -> (count: nat)
    requires
        0 <= at < code.len(),
    ensures
        reaches(
            Config { frames: below.push(Frame { code, at }), store },
            count,
            eval_node(code[at], store, limit),
            below.push(Frame { code, at: at + 1 }),
            below.len() as int,
            limit,
        ),
    decreases code[at], 0int, 0int,
{
    let start = Config { frames: below.push(Frame { code, at }), store };
    let depth = below.len() as int;
    assert(start.frames.drop_last() =~= below);
    assert(busy(start.after(0), depth));
    reveal_with_fuel(Config::after, 2);
    match code[at] {
        Node::Op(symbol) => {
            if operate(symbol, store).error is Some {
                0
            } else {
                1
            }
        },
        Node::Loop(body) => {
            if store.cell() == 0 {
                1
            } else if limit == 0 {
                0
            } else {
                let inside = start.next().config;
                let passes = lemma_passes(below, code, at, body, store, limit, limit);
                let outcome = eval_loop(body, store, limit, limit);
                lemma_after_after(start, 1, passes);
                assert forall|k: nat| 1 <= k implies start.after(k) == inside.after(
                    (k - 1) as nat,
                ) by {
                    lemma_after_after(start, 1, (k - 1) as nat);
                }
                if outcome.error is None {
                    assert forall|k: nat| k < 1 + passes implies busy(
                        #[trigger] start.after(k),
                        depth,
                    ) by {
                        if k >= 1 {
                            assert(busy(inside.after((k - 1) as nat), depth));
                        }
                    }
                } else if outcome.error == Some(RunError::LoopLimit) {
                    assert forall|k: nat| k <= limit implies busy(
                        #[trigger] start.after(k),
                        depth,
                    ) by {
                        if k >= 1 {
                            assert(busy(inside.after((k - 1) as nat), depth));
                        }
                    }
                }
                1 + passes
            }
        },
    }
}

/// From in front of the instruction at `at` the machine does what
/// `eval_from` says of the rest of the forest, and then stands at its end.
proof fn lemma_from_steps(below: Seq<Frame>, code: Seq<Node>, at: int, store: Store, limit: nat)
    -> (count: nat)
    requires
        0 <= at <= code.len(),
    ensures
        reaches(
            Config { frames: below.push(Frame { code, at }), store },
            count,
            eval_from(code, at, store, limit),
            below.push(Frame { code, at: code.len() as int }),
            below.len() as int,
            limit,
        ),
    decreases code, 1int, code.len() - at,
{
    let start = Config { frames: below.push(Frame { code, at }), store };
    let depth = below.len() as int;
    if at == code.len() {
        0
    } else {
        let one = lemma_node_steps(below, code, at, store, limit);
        let first = eval_node(code[at], store, limit);
        if first.error is Some {
            one
        } else {
            let rest = lemma_from_steps(below, code, at + 1, first.store, limit);
            let outcome = eval_from(code, at + 1, first.store, limit);
            let middle = start.after(one);
            lemma_after_after(start, one, rest);
            assert forall|k: nat| one <= k implies start.after(k) == middle.after(
                (k - one) as nat,
            ) by {
                lemma_after_after(start, one, (k - one) as nat);
            }
            if outcome.error is None {
                assert forall|k: nat| k < one + rest implies busy(
                    #[trigger] start.after(k),
                    depth,
                ) by {
                    if k >= one {
                        assert(busy(middle.after((k - one) as nat), depth));
                    }
                }
            } else if outcome.error == Some(RunError::LoopLimit) {
                assert forall|k: nat| k <= limit implies busy(#[trigger] start.after(k), depth) by {
                    if k >= one {
                        assert(busy(middle.after((k - one) as nat), depth));
                    }
                }
            }
            one + rest
        }
    }
}

/// From the start of the body of a loop that is entered, with `passes`
/// passes allowed, this one among them, the machine does what `eval_loop`
/// says, and then stands behind the loop.
proof fn lemma_passes(
    below: Seq<Frame>,
    code: Seq<Node>,
    at: int,
    body: Seq<Node>,
    store: Store,
    limit: nat,
    passes: nat,
) -> (count: nat)
    requires
        0 <= at < code.len(),
        code[at] == Node::Loop(body),
        store.cell() != 0,
        0 < passes <= limit,
    ensures
        reaches(
            Config { frames: below.push(Frame { code, at }).push(Frame { code: body, at: 0 }), store },
            count,
            eval_loop(body, store, limit, passes),
            below.push(Frame { code, at: at + 1 }),
            below.len() as int,
            passes,
        ),
    decreases body, 2int, passes,
{
    let outer = below.push(Frame { code, at });
    let depth = below.len() as int;
    let start = Config { frames: outer.push(Frame { code: body, at: 0 }), store };
    let one = lemma_from_steps(outer, body, 0, store, limit);
    let pass = eval_from(body, 0, store, limit);
    assert forall|k: nat| busy(#[trigger] start.after(k), depth + 1) implies busy(
        start.after(k),
        depth,
    ) by {}
    if pass.error is Some {
        one
    } else {
        let end = Config {
            frames: outer.push(Frame { code: body, at: body.len() as int }),
            store: pass.store,
        };
        assert(end.frames.drop_last() =~= outer);
        assert(outer.drop_last() =~= below);
        reveal_with_fuel(Config::after, 2);
        reveal_with_fuel(eval_loop, 2);
        assert(start.after(one) == end);
        assert(busy(end, depth));
        assert forall|k: nat| one <= k implies start.after(k) == end.after((k - one) as nat) by {
            lemma_after_after(start, one, (k - one) as nat);
        }
        if pass.store.cell() == 0 {
            lemma_after_after(start, one, 1);
            assert forall|k: nat| k < one + 1 implies busy(#[trigger] start.after(k), depth) by {
                if k == one {
                    assert(start.after(k) == end.after(0));
                }
            }
            one + 1
        } else {
            let again = end.next().config;
            assert(busy(again, depth));
            assert forall|k: nat| one + 1 <= k implies start.after(k) == again.after(
                (k - one - 1) as nat,
            ) by {
                lemma_after_after(end, 1, (k - one - 1) as nat);
            }
            if passes == 1 {
                assert forall|k: nat| k <= passes implies busy(#[trigger] start.after(k), depth) by {
                    if k == one {
                        assert(start.after(k) == end.after(0));
                    } else if k > one {
                        assert(start.after(k) == again.after(0));
                    }
                }
                0
            } else {
                let more = lemma_passes(
                    below,
                    code,
                    at,
                    body,
                    pass.store,
                    limit,
                    (passes - 1) as nat,
                );
                let outcome = eval_loop(body, pass.store, limit, (passes - 1) as nat);
                lemma_after_after(start, one, 1);
                lemma_after_after(start, one + 1, more);
                if outcome.error is None {
                    assert forall|k: nat| k < one + 1 + more implies busy(
                        #[trigger] start.after(k),
                        depth,
                    ) by {
                        if k == one {
                            assert(start.after(k) == end.after(0));
                        } else if k > one {
                            assert(busy(again.after((k - one - 1) as nat), depth));
                        }
                    }
                } else if outcome.error == Some(RunError::LoopLimit) {
                    assert forall|k: nat| k <= passes implies busy(
                        #[trigger] start.after(k),
                        depth,
                    ) by {
                        if k == one {
                            assert(start.after(k) == end.after(0));
                        } else if k > one {
                            assert(busy(again.after((k - one - 1) as nat), depth));
                        }
                    }
                }
                one + 1 + more
            }
        }
    }
}

/// The machine does what [`eval`] says. Where `eval` gives a state and no
/// error, the machine, started on the same program in the same state,
/// comes to a halt in that state after some number of steps. Where `eval`
/// gives an error other than the limit on passes, which the machine does
/// not have, the machine comes after some number of steps to the state
/// that `eval` gives, and its next step meets that error.
pub proof fn machine_agrees_with_eval(program: Seq<Node>, store: Store, limit: nat)
    ensures
        exists|count: nat|
            {
                let end = (#[trigger] Config::start(program, store).after(count));
                match eval(program, store, limit).error {
                    None => end.halted() && end.store == eval(program, store, limit).store,
                    Some(RunError::LoopLimit) => true,
                    Some(error) => end.store == eval(program, store, limit).store
                        && end.next().error == Some(error),
                }
            },
{
    let count = lemma_from_steps(Seq::empty(), program, 0, store, limit);
    let start = Config::start(program, store);
    assert(start.frames =~= Seq::<Frame>::empty().push(Frame { code: program, at: 0 }));
    let end = start.after(count);
    if eval(program, store, limit).error is None {
        assert(end.frames =~= seq![Frame { code: program, at: program.len() as int }]);
    }
}

/// Where [`eval`] stops at the limit on passes, the machine has more than
/// `limit` steps to take: after `limit` steps or fewer it is not at a halt.
pub proof fn machine_outlasts_limit(program: Seq<Node>, store: Store, limit: nat, count: nat)
    requires
        eval(program, store, limit).error == Some(RunError::LoopLimit),
        count <= limit,
    ensures
        !Config::start(program, store).after(count).halted(),
{
    let some = lemma_from_steps(Seq::empty(), program, 0, store, limit);
    let start = Config::start(program, store);
    assert(start.frames =~= Seq::<Frame>::empty().push(Frame { code: program, at: 0 }));
    assert(busy(start.after(count), 0));
}

/// A halt of the machine is what [`eval`] says: where the machine, started
/// on a program, is at a halt after `count` steps, `eval` with `count` for
/// its limit gives the state of the machine, and no error.
pub proof fn halt_is_what_eval_says(program: Seq<Node>, store: Store, count: nat)
    requires
        Config::start(program, store).after(count).halted(),
    ensures
        eval(program, store, count) == (Outcome {
            store: Config::start(program, store).after(count).store,
            error: None,
        }),
{
    let start = Config::start(program, store);
    let outcome = eval(program, store, count);
    let steps = lemma_from_steps(Seq::empty(), program, 0, store, count);
    assert(start.frames =~= Seq::<Frame>::empty().push(Frame { code: program, at: 0 }));
    if outcome.error == Some(RunError::LoopLimit) {
        machine_outlasts_limit(program, store, count, count);
    } else {
        let end = start.after(steps);
        if outcome.error is None {
            assert(end.frames =~= seq![Frame { code: program, at: program.len() as int }]);
            assert(end.halted());
        }
        if steps <= count {
            lemma_after_after(start, steps, (count - steps) as nat);
            if outcome.error is None {
                lemma_halted_stays(end, (count - steps) as nat);
            } else {
                lemma_failed_stays(end, (count - steps) as nat);
            }
        } else {
            lemma_after_after(start, count, (steps - count) as nat);
            lemma_halted_stays(start.after(count), (steps - count) as nat);
            if outcome.error is Some {
                lemma_failed_stays(end, 0);
            }
        }
    }
}

} // verus!
