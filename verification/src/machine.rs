//! A program as a machine that is run one step at a time, so that whoever
//! drives it can read and write between the steps, and stop when they like.

use std::collections::VecDeque;
use vstd::prelude::*;
use crate::evaluator::{perform, store_of};
use crate::instruction::{forest_view, Instruction, Node};
use crate::semantics::{
    lemma_operate_appends, lemma_operate_keeps_wf, operate, RunError, Store,
};

verus! {

/// A place in a program: a forest and the index of its next instruction.
pub struct Frame {
    pub code: Seq<Node>,
    pub at: int,
}

/// A machine between two steps: the state of the run, and the place in
/// the program, which is a frame for the program itself and above it one
/// for each loop that the run is inside of, the innermost last.
pub struct Config {
    pub frames: Seq<Frame>,
    pub store: Store,
}

/// What one step gives: the machine after it, and the error that the step
/// met, if it met one.
pub struct Transition {
    pub config: Config,
    pub error: Option<RunError>,
}

impl Config {
    /// The machine at the start of `program`.
    pub open spec fn start(program: Seq<Node>, store: Store) -> Config {
        Config { frames: seq![Frame { code: program, at: 0 }], store }
    }

    /// The cursor is on the tape; every frame's index is within its forest
    /// or just behind it; and each frame but the innermost stands at the
    /// loop whose body the frame above it holds.
    pub open spec fn wf(self) -> bool {
        &&& self.store.wf()
        &&& self.frames.len() >= 1
        &&& forall|i: int|
            0 <= i < self.frames.len() ==> 0 <= (#[trigger] self.frames[i]).at
                <= self.frames[i].code.len()
        &&& forall|i: int|
            0 <= i < self.frames.len() - 1 ==> (#[trigger] self.frames[i]).at
                < self.frames[i].code.len() && self.frames[i].code[self.frames[i].at]
                == Node::Loop(self.frames[i + 1].code)
    }

    /// The program has come to its end.
    pub open spec fn halted(self) -> bool {
        self.frames.len() == 1 && self.frames[0].at >= self.frames[0].code.len()
    }

    /// This machine with the innermost frame moved on by one instruction.
    pub open spec fn advanced(self) -> Config {
        let top = self.frames.last();
        Config { frames: self.frames.drop_last().push(Frame { at: top.at + 1, ..top }), ..self }
    }

    /// This machine with a frame for `body` above the others.
    pub open spec fn entered(self, body: Seq<Node>) -> Config {
        Config { frames: self.frames.push(Frame { code: body, at: 0 }), ..self }
    }

    /// This machine with the innermost frame back at its first instruction.
    pub open spec fn restarted(self) -> Config {
        let top = self.frames.last();
        Config { frames: self.frames.drop_last().push(Frame { at: 0, ..top }), ..self }
    }

    /// This machine without its innermost frame, and the frame below moved
    /// on past the loop.
    pub open spec fn left(self) -> Config {
        Config { frames: self.frames.drop_last(), ..self }.advanced()
    }

    /// One step. In front of an operation: the operation, and on past it,
    /// unless it fails, which leaves the machine as it is. In front of a
    /// loop: into its body where the cell under the cursor is not zero, else
    /// on past it. At the end of a loop's body: back to the start of the body
    /// where the cell under the cursor is not zero, else out of the loop and
    /// on past it. At the end of the program: nothing.
    pub open spec fn next(self) -> Transition {
        let top = self.frames.last();
        if 0 <= top.at < top.code.len() {
            match top.code[top.at] {
                Node::Op(code) => {
                    let done = operate(code, self.store);
                    if done.error is Some {
                        Transition { config: self, error: done.error }
                    } else {
                        Transition { config: Config { store: done.store, ..self }.advanced(), error: None }
                    }
                },
                Node::Loop(body) => {
                    if self.store.cell() != 0 {
                        Transition { config: self.entered(body), error: None }
                    } else {
                        Transition { config: self.advanced(), error: None }
                    }
                },
            }
        } else if self.frames.len() > 1 {
            if self.store.cell() != 0 {
                Transition { config: self.restarted(), error: None }
            } else {
                Transition { config: self.left(), error: None }
            }
        } else {
            Transition { config: self, error: None }
        }
    }

    /// The machine after `count` steps, each taken whether or not the one
    /// before it met an error.
    pub open spec fn after(self, count: nat) -> Config
        decreases count,
    {
        if count == 0 {
            self
        } else {
            self.next().config.after((count - 1) as nat)
        }
    }
}

/// A step keeps the machine well formed: the cursor stays on the tape, the
/// tape keeps its cells, and the frames stay in step with the loops of the
/// program.
pub proof fn next_keeps_wf(config: Config)
    requires
        config.wf(),
    ensures
        config.next().config.wf(),
        config.next().config.store.tape.len() >= config.store.tape.len(),
{
    let top = config.frames.last();
    let after = config.next().config;
    if 0 <= top.at < top.code.len() {
        match top.code[top.at] {
            Node::Op(code) => {
                lemma_operate_keeps_wf(code, config.store);
            },
            Node::Loop(body) => {},
        }
    }
    assert forall|i: int| 0 <= i < after.frames.len() - 1 implies (#[trigger] after.frames[i]).at
        < after.frames[i].code.len() && after.frames[i].code[after.frames[i].at] == Node::Loop(
        after.frames[i + 1].code,
    ) by {
        assert(after.frames[i] == config.frames[i]);
    }
}

/// A place in a program, as the machine holds it.
#[derive(Clone, Copy)]
struct Level<'a> {
    code: &'a [Instruction],
    at: usize,
}

impl<'a> View for Level<'a> {
    type V = Frame;

    closed spec fn view(&self) -> Frame {
        Frame { code: forest_view(self.code@), at: self.at as int }
    }
}

/// A program that is run step by step, with its tape, its cursor and the
/// bytes it has been given to read.
pub struct Machine<'a> {
    levels: Vec<Level<'a>>,
    tape: Vec<u8>,
    pointer: usize,
    input: VecDeque<u8>,
    written: Ghost<Seq<u8>>,
}

impl<'a> View for Machine<'a> {
    type V = Config;

    closed spec fn view(&self) -> Config {
        Config {
            frames: Seq::new(self.levels@.len(), |i: int| self.levels@[i]@),
            store: Store {
                tape: self.tape@,
                cursor: self.pointer as int,
                input: self.input@,
                output: self.written@,
            },
        }
    }
}

/// What a step did.
#[derive(Debug, Clone, Copy, PartialEq, Eq, Structural)]
pub enum Step {
    /// The step changed the machine and wrote nothing.
    Moved,
    /// The step was an output operation, and this is the byte it wrote.
    Wrote(u8),
    /// The program is at its end: the step changed nothing.
    Halted,
}

impl<'a> Machine<'a> {
    /// A machine at the start of `program`, on a tape of one zero cell, with
    /// nothing to read and nothing written.
    pub fn new(program: &'a [Instruction]) -> (machine: Machine<'a>)
        ensures
            machine@ == Config::start(
                forest_view(program@),
                Store { tape: seq![0u8], cursor: 0, input: Seq::empty(), output: Seq::empty() },
            ),
    {
        let mut levels: Vec<Level<'a>> = Vec::new();
        levels.push(Level { code: program, at: 0 });
        let mut tape: Vec<u8> = Vec::new();
        tape.push(0u8);
        let machine = Machine {
            levels,
            tape,
            pointer: 0,
            input: VecDeque::new(),
            written: Ghost(Seq::empty()),
        };
        proof {
            assert(machine@.frames =~= seq![Frame { code: forest_view(program@), at: 0 }]);
            assert(machine@.store.tape =~= seq![0u8]);
        }
        machine
    }

    /// Takes one step, and says what it did.
    ///
    /// A step that fails changes nothing. So after
    /// [`RunError::InputExhausted`] the machine can be given a byte with
    /// [`Machine::feed`] and stepped again.
    pub fn step(&mut self) -> (result: Result<Step, RunError>)
        requires
            old(self)@.wf(),
        ensures
            final(self)@.wf(),
            old(self)@.next() == (Transition {
                config: final(self)@,
                error: match result {
                    Ok(_) => None,
                    Err(error) => Some(error),
                },
            }),
            match result {
                Ok(Step::Moved) => !old(self)@.halted() && final(self)@.store.output == old(
                    self,
                )@.store.output,
                Ok(Step::Wrote(byte)) => !old(self)@.halted() && final(self)@.store.output == old(
                    self,
                )@.store.output.push(byte),
                Ok(Step::Halted) => old(self)@.halted(),
                Err(_) => !old(self)@.halted(),
            },
    {
        let depth = self.levels.len();
        let top = self.levels[depth - 1];
        let ghost before = self@;
        proof {
            assert(before.frames.last() == top@);
            assert forall|i: int| 0 <= i < depth implies before.frames[i] == self.levels@[i]@ by {}
        }
        if top.at < top.code.len() {
            proof {
                assert(top@.code[top.at as int] == top.code@[top.at as int]@);
            }
            match &top.code[top.at] {
                Instruction::OpCode(code) => {
                    let mut scratch: Vec<u8> = Vec::new();
                    let ghost alone = store_of(self.tape@, self.pointer, self.input@, scratch@);
                    let done = perform(
                        *code,
                        &mut self.tape,
                        &mut self.pointer,
                        &mut self.input,
                        &mut scratch,
                    );
                    proof {
                        lemma_operate_appends(*code, alone, before.store.output);
                        assert(before.store.output + alone.output =~= before.store.output);
                    }
                    match done {
                        Ok(_) => {},
                        Err(error) => {
                            return Err(error);
                        },
                    }
                    self.levels[depth - 1].at = top.at + 1;
                    proof {
                        self.written@ = self.written@ + scratch@;
                        assert(self@.frames =~= before.advanced().frames);
                    }
                    if scratch.len() > 0 {
                        proof {
                            assert(scratch@ =~= seq![scratch@[0]]);
                            assert(before.store.output + scratch@ =~= before.store.output.push(
                                scratch@[0],
                            ));
                        }
                        Ok(Step::Wrote(scratch[0]))
                    } else {
                        proof {
                            assert(before.store.output + scratch@ =~= before.store.output);
                        }
                        Ok(Step::Moved)
                    }
                },
                Instruction::Loop(body) => {
                    if self.tape[self.pointer] != 0 {
                        self.levels.push(Level { code: body.as_slice(), at: 0 });
                        proof {
                            assert(self@.frames =~= before.entered(forest_view(body@)).frames);
                        }
                    } else {
                        self.levels[depth - 1].at = top.at + 1;
                        proof {
                            assert(self@.frames =~= before.advanced().frames);
                        }
                    }
                    Ok(Step::Moved)
                },
            }
        } else if depth > 1 {
            if self.tape[self.pointer] != 0 {
                self.levels[depth - 1].at = 0;
                proof {
                    assert(self@.frames =~= before.restarted().frames);
                }
            } else {
                self.levels.pop();
                let below = self.levels[depth - 2];
                proof {
                    assert(before.frames[depth - 2] == below@);
                    assert(below.at < below.code.len());
                }
                self.levels[depth - 2].at = below.at + 1;
                proof {
                    assert(self@.frames =~= before.left().frames);
                }
            }
            Ok(Step::Moved)
        } else {
            Ok(Step::Halted)
        }
    }

    /// Gives the machine one more byte to read, behind those it has.
    pub fn feed(&mut self, byte: u8)
        requires
            old(self)@.wf(),
        ensures
            final(self)@ == (Config {
                store: Store { input: old(self)@.store.input.push(byte), ..old(self)@.store },
                ..old(self)@
            }),
            final(self)@.wf(),
    {
        self.input.push_back(byte);
        proof {
            assert(self@.frames =~= old(self)@.frames);
        }
    }

    /// The tape as it is now.
    pub fn tape(&self) -> (tape: &Vec<u8>)
        ensures
            tape@ == self@.store.tape,
    {
        &self.tape
    }

    /// The index of the cell under the cursor.
    pub fn pointer(&self) -> (pointer: usize)
        ensures
            pointer == self@.store.cursor,
    {
        self.pointer
    }

    /// Whether the program has come to its end.
    pub fn halted(&self) -> (yes: bool)
        requires
            self@.wf(),
        ensures
            yes == self@.halted(),
    {
        self.levels.len() == 1 && self.levels[0].at >= self.levels[0].code.len()
    }
}

} // verus!
