//! The instruction tree and its mathematical model.

use vstd::prelude::*;

verus! {

/// One node of a program: an atomic operation, named by its symbol, or a
/// loop that owns its body.
#[derive(Debug, PartialEq, Eq)]
pub enum Instruction {
    /// An atomic operation. The six symbols `>`, `<`, `+`, `-`, `.` and `,`
    /// each name one; any other character names an operation that does
    /// nothing.
    OpCode(char),
    /// A loop: its body is run again and again while the cell under the
    /// cursor is not zero.
    Loop(Vec<Instruction>),
}

/// The mathematical model of an [`Instruction`]: the same tree, with
/// sequences in place of vectors.
pub enum Node {
    /// The model of [`Instruction::OpCode`].
    Op(char),
    /// The model of [`Instruction::Loop`].
    Loop(Seq<Node>),
}

impl View for Instruction {
    type V = Node;

    open spec fn view(&self) -> Node
        decreases self,
    {
        match self {
            Instruction::OpCode(code) => Node::Op(*code),
            Instruction::Loop(body) => Node::Loop(forest_view(body@)),
        }
    }
}

/// The model of a sequence of instructions: the model of each, in order.
pub open spec fn forest_view(forest: Seq<Instruction>) -> Seq<Node>
    decreases forest,
{
    Seq::new(
        forest.len(),
        |i: int|
            if 0 <= i < forest.len() {
                forest[i]@
            } else {
                arbitrary()
            },
    )
}

/// The model of a forest that ends in `last`.
pub(crate) proof fn lemma_forest_view_push(forest: Seq<Instruction>, last: Instruction)
    ensures
        forest_view(forest.push(last)) == forest_view(forest).push(last@),
{
    assert(forest_view(forest.push(last)) =~= forest_view(forest).push(last@));
}

} // verus!
