//! The parser: from source text to an instruction forest.

use vstd::prelude::*;
use crate::grammar::{
    closes_unopened, code_of, forest_depth, forest_valid, is_operation, lemma_code_concat,
    lemma_code_keeps_nesting, lemma_code_of_symbol, lemma_loop_span, lemma_operations_of,
    lemma_render_peak, lemma_render_push, lemma_take_next, nesting, node_valid, operations_of, peak,
    render, render_is_injective, render_node, well_nested,
};
use crate::instruction::{forest_view, lemma_forest_view_push, Instruction, Node};

verus! {

/// Why a source text is not a program.
#[derive(Debug, Clone, Copy, PartialEq, Eq, Structural)]
pub enum ParseError {
    /// An open bracket has no close bracket after it.
    UnclosedLoop,
    /// A close bracket has no open bracket before it.
    UnmatchedLoopEnd,
}

impl ParseError {
    /// The error in words.
    pub fn message(&self) -> (text: String)
        ensures
            text@ == match self {
                ParseError::UnclosedLoop => "Unclosed loop found."@,
                ParseError::UnmatchedLoopEnd => "Loop ending has no beginning."@,
            },
    {
        match self {
            ParseError::UnclosedLoop => "Unclosed loop found.".to_owned(),
            ParseError::UnmatchedLoopEnd => "Loop ending has no beginning.".to_owned(),
        }
    }
}

/// `forest` is `source` as a tree: it holds the six operations only, and
/// written out it is `source` without its comments.
pub open spec fn reads_as(source: Seq<char>, forest: Seq<Node>) -> bool {
    forest_valid(forest) && render(forest) == code_of(source)
}

/// What parsing `source` gives: the forest that reads as `source` where the
/// brackets of `source` pair up; otherwise the first fault met from the left,
/// a close bracket that nothing opened or else an open bracket left unclosed.
pub open spec fn parses_to(source: Seq<char>, outcome: Result<Seq<Node>, ParseError>) -> bool {
    match outcome {
        Ok(forest) => well_nested(source) && reads_as(source, forest),
        Err(ParseError::UnmatchedLoopEnd) => closes_unopened(source),
        Err(ParseError::UnclosedLoop) => !closes_unopened(source) && nesting(source) > 0,
    }
}

/// The model of what [`parse`] returns.
pub open spec fn outcome_view(result: Result<Vec<Instruction>, ParseError>) -> Result<
    Seq<Node>,
    ParseError,
> {
    match result {
        Ok(forest) => Ok(forest_view(forest@)),
        Err(error) => Err(error),
    }
}

/// The characters of `source`, in order.
fn characters(source: &str) -> (chars: Vec<char>)
    ensures
        chars@ == source@,
{
    let mut chars: Vec<char> = Vec::new();
    for c in it: source.chars()
        invariant
            it.seq() == source@,
            chars@ == it.seq().take(it.index()),
    {
        chars.push(c);
        assert(it.seq().take(it.index() + 1) =~= it.seq().take(it.index()).push(c));
    }
    assert(source@.take(source@.len() as int) =~= source@);
    chars
}

/// Whether `c` names an atomic operation.
fn names_operation(c: char) -> (yes: bool)
    ensures
        yes == is_operation(c),
{
    c == '>' || c == '<' || c == '+' || c == '-' || c == '.' || c == ','
}

/// Parses the characters of `chars` from `start` up to `end`.
fn parse_span(chars: &Vec<char>, start: usize, end: usize) -> (result: Result<
    Vec<Instruction>,
    ParseError,
>)
    requires
        start <= end <= chars.len(),
    ensures
        parses_to(chars@.subrange(start as int, end as int), outcome_view(result)),
    decreases end - start,
{
    let ghost text = chars@.subrange(start as int, end as int);
    let mut forest: Vec<Instruction> = Vec::new();
    let mut at: usize = start;
    proof {
        assert(text.take(0) =~= Seq::<char>::empty());
    }
    while at < end
        invariant
            start <= at <= end <= chars.len(),
            text == chars@.subrange(start as int, end as int),
            forall|k: int| 0 <= k <= at - start ==> nesting(#[trigger] text.take(k)) >= 0,
            nesting(text.take(at - start)) == 0,
            reads_as(text.take(at - start), forest_view(forest@)),
        decreases end - at,
    {
        let symbol = chars[at];
        let ghost open = at - start;
        let ghost before = forest_view(forest@);
        proof {
            lemma_take_next(text, open);
        }
        if names_operation(symbol) {
            proof {
                lemma_forest_view_push(forest@, Instruction::OpCode(symbol));
                lemma_render_push(before, Node::Op(symbol));
                assert(render(before) + seq![symbol] =~= render(before).push(symbol));
            }
            forest.push(Instruction::OpCode(symbol));
            at += 1;
        } else if symbol == '[' {
            let mut depth: usize = 1;
            let mut close: usize = at + 1;
            while close < end && depth > 0
                invariant
                    start <= at < close <= end <= chars.len(),
                    open == at - start,
                    text == chars@.subrange(start as int, end as int),
                    depth == nesting(text.take(close - start)),
                    depth <= close - at,
                    forall|m: int| open < m < close - start ==> nesting(#[trigger] text.take(m)) >= 1,
                decreases end - close,
            {
                proof {
                    lemma_take_next(text, close - start);
                }
                let inner = chars[close];
                if inner == '[' {
                    depth += 1;
                } else if inner == ']' {
                    depth -= 1;
                }
                close += 1;
            }
            if depth != 0 {
                proof {
                    assert(text.take(text.len() as int) =~= text);
                }
                return Err(ParseError::UnclosedLoop);
            }
            proof {
                lemma_loop_span(text, open, close - start);
                assert(text.subrange(open + 1, close - start - 1) =~= chars@.subrange(
                    at + 1,
                    close - 1,
                ));
            }
            let body = match parse_span(chars, at + 1, close - 1) {
                Ok(body) => body,
                Err(error) => {
                    // What lies between a bracket and its partner is well
                    // nested, so parsing it never fails.
                    proof {
                        assert(false);
                    }
                    return Err(error);
                },
            };
            proof {
                let inside = text.subrange(open + 1, close - start - 1);
                let node = Node::Loop(forest_view(body@));
                lemma_forest_view_push(forest@, Instruction::Loop(body));
                lemma_render_push(before, node);
                lemma_code_of_symbol('[');
                lemma_code_of_symbol(']');
                lemma_code_concat(text.take(open), seq!['[']);
                lemma_code_concat(text.take(open) + seq!['['], inside);
                lemma_code_concat(text.take(open) + seq!['['] + inside, seq![']']);
                assert(render(before) + render_node(node) =~= render(before) + seq!['[']
                    + render(forest_view(body@)) + seq![']']);
                assert(node_valid(node));
            }
            forest.push(Instruction::Loop(body));
            at = close;
        } else if symbol == ']' {
            proof {
                assert(nesting(text.take(open + 1)) < 0);
            }
            return Err(ParseError::UnmatchedLoopEnd);
        } else {
            at += 1;
        }
    }
    proof {
        assert(text.take(text.len() as int) =~= text);
    }
    Ok(forest)
}

/// Parses source text into its instruction forest.
///
/// Every character that is not one of the eight symbols is a comment and
/// is passed over. The result is the forest that, written out, gives the
/// source without its comments. A close bracket with nothing to close is
/// reported as [`ParseError::UnmatchedLoopEnd`], and otherwise an open
/// bracket that is never closed as [`ParseError::UnclosedLoop`].
pub fn parse(source: String) -> (result: Result<Vec<Instruction>, ParseError>)
    ensures
        parses_to(source@, outcome_view(result)),
        result is Ok <==> well_nested(source@),
        result matches Err(ParseError::UnmatchedLoopEnd) <==> closes_unopened(source@),
        result matches Err(ParseError::UnclosedLoop) <==> !closes_unopened(source@) && nesting(
            source@,
        ) > 0,
{
    let chars = characters(source.as_str());
    proof {
        assert(chars@.subrange(0, chars@.len() as int) =~= chars@);
    }
    parse_span(&chars, 0, chars.len())
}

/// Parsing is a function of the source: whatever two runs on one source
/// give, an error or a forest, it is the same both times.
pub proof fn parse_is_deterministic(
    source: Seq<char>,
    first: Result<Seq<Node>, ParseError>,
    second: Result<Seq<Node>, ParseError>,
)
    requires
        parses_to(source, first),
        parses_to(source, second),
    ensures
        first == second,
{
    assert(nesting(source.take(source.len() as int)) == nesting(source)) by {
        assert(source.take(source.len() as int) =~= source);
    }
    match (first, second) {
        (Ok(a), Ok(b)) => {
            render_is_injective(a, b);
        },
        _ => {},
    }
}

/// A source without brackets parses, and to a flat forest: one operation
/// for each of the six symbols met, in the order of the source, with every
/// other character passed over.
pub proof fn flat_source_parses_flat(source: Seq<char>, outcome: Result<Seq<Node>, ParseError>)
    requires
        forall|i: int| 0 <= i < source.len() ==> source[i] != '[' && source[i] != ']',
        parses_to(source, outcome),
    ensures
        outcome == Ok::<Seq<Node>, ParseError>(operations_of(source)),
        forest_depth(operations_of(source)) == 0,
{
    lemma_operations_of(source);
    parse_is_deterministic(source, outcome, Ok(operations_of(source)));
}

/// A source whose brackets pair up parses, and the loops of its forest
/// nest as deep as the brackets of the source do.
pub proof fn well_nested_source_parses(source: Seq<char>, outcome: Result<Seq<Node>, ParseError>)
    requires
        well_nested(source),
        parses_to(source, outcome),
    ensures
        outcome matches Ok(forest) && forest_depth(forest) == peak(source),
{
    match outcome {
        Ok(forest) => {
            lemma_render_peak(forest);
            lemma_code_keeps_nesting(source);
        },
        Err(_) => {},
    }
}

} // verus!
