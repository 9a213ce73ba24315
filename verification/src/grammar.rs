//! Source text as a sequence of characters: which characters are code, how
//! brackets nest, and how an instruction tree reads when written out.

use vstd::prelude::*;
use crate::instruction::Node;

verus! {

/// The six symbols that name an atomic operation.
pub open spec fn is_operation(c: char) -> bool {
    c == '>' || c == '<' || c == '+' || c == '-' || c == '.' || c == ','
}

/// The eight symbols of the language; every other character is a comment.
pub open spec fn is_symbol(c: char) -> bool {
    is_operation(c) || c == '[' || c == ']'
}

/// What one character adds to the nesting depth.
pub open spec fn bracket_weight(c: char) -> int {
    if c == '[' {
        1
    } else if c == ']' {
        -1
    } else {
        0
    }
}

/// The number of open brackets in `text` minus the number of close brackets.
pub open spec fn nesting(text: Seq<char>) -> int
    decreases text.len(),
{
    if text.len() == 0 {
        0
    } else {
        nesting(text.drop_last()) + bracket_weight(text.last())
    }
}

/// Some close bracket of `text` comes before any open bracket it could match.
pub open spec fn closes_unopened(text: Seq<char>) -> bool {
    exists|k: int| 0 <= k <= text.len() && #[trigger] nesting(text.take(k)) < 0
}

/// Every bracket of `text` has its partner.
pub open spec fn well_nested(text: Seq<char>) -> bool {
    nesting(text) == 0 && !closes_unopened(text)
}

/// The deepest nesting that any prefix of `text` reaches.
pub open spec fn peak(text: Seq<char>) -> int
    decreases text.len(),
{
    if text.len() == 0 {
        0
    } else if peak(text.drop_last()) >= nesting(text) {
        peak(text.drop_last())
    } else {
        nesting(text)
    }
}

/// `text` without its comments.
pub open spec fn code_of(text: Seq<char>) -> Seq<char>
    decreases text.len(),
{
    if text.len() == 0 {
        Seq::empty()
    } else if is_symbol(text.last()) {
        code_of(text.drop_last()).push(text.last())
    } else {
        code_of(text.drop_last())
    }
}

/// The operations of `text`, one node for each, in order.
pub open spec fn operations_of(text: Seq<char>) -> Seq<Node>
    decreases text.len(),
{
    if text.len() == 0 {
        Seq::empty()
    } else if is_operation(text.last()) {
        operations_of(text.drop_last()).push(Node::Op(text.last()))
    } else {
        operations_of(text.drop_last())
    }
}

/// Every operation in the tree is one of the six symbols.
pub open spec fn node_valid(node: Node) -> bool
    decreases node, 0int,
{
    match node {
        Node::Op(code) => is_operation(code),
        Node::Loop(body) => forest_valid(body),
    }
}

/// Every operation in every tree of the forest is one of the six symbols.
pub open spec fn forest_valid(forest: Seq<Node>) -> bool
    decreases forest, 1int,
{
    forall|i: int| 0 <= i < forest.len() ==> node_valid(#[trigger] forest[i])
}

/// The tree written out: an operation by its symbol, a loop as its body
/// between brackets.
pub open spec fn render_node(node: Node) -> Seq<char>
    decreases node, 0int,
{
    match node {
        Node::Op(code) => seq![code],
        Node::Loop(body) => seq!['['] + render(body) + seq![']'],
    }
}

/// The forest written out, tree after tree.
pub open spec fn render(forest: Seq<Node>) -> Seq<char>
    decreases forest, 1int,
{
    if forest.len() == 0 {
        Seq::empty()
    } else {
        render(forest.drop_last()) + render_node(forest.last())
    }
}

/// How deep the loops of a tree nest: 0 for an operation.
pub open spec fn node_depth(node: Node) -> int
    decreases node, 0int,
{
    match node {
        Node::Op(_) => 0,
        Node::Loop(body) => 1 + forest_depth(body),
    }
}

/// The depth of the deepest tree of the forest: 0 where there is no loop.
pub open spec fn forest_depth(forest: Seq<Node>) -> int
    decreases forest, 1int,
{
    if forest.len() == 0 {
        0
    } else if forest_depth(forest.drop_last()) >= node_depth(forest.last()) {
        forest_depth(forest.drop_last())
    } else {
        node_depth(forest.last())
    }
}

/// Nesting adds up over concatenation.
proof fn lemma_nesting_concat(a: Seq<char>, b: Seq<char>)
    ensures
        nesting(a + b) == nesting(a) + nesting(b),
    decreases b.len(),
{
    if b.len() == 0 {
        assert(a + b =~= a);
    } else {
        assert((a + b).drop_last() =~= a + b.drop_last());
        lemma_nesting_concat(a, b.drop_last());
    }
}

/// Dropping comments goes through concatenation.
pub(crate) proof fn lemma_code_concat(a: Seq<char>, b: Seq<char>)
    ensures
        code_of(a + b) == code_of(a) + code_of(b),
    decreases b.len(),
{
    if b.len() == 0 {
        assert(a + b =~= a);
        assert(code_of(a) + code_of(b) =~= code_of(a));
    } else {
        assert((a + b).drop_last() =~= a + b.drop_last());
        lemma_code_concat(a, b.drop_last());
        if is_symbol(b.last()) {
            assert(code_of(a + b) =~= code_of(a) + code_of(b));
        }
    }
}

/// One more character of a prefix: what it adds to the nesting and to the code.
pub(crate) proof fn lemma_take_next(text: Seq<char>, k: int)
    requires
        0 <= k < text.len(),
    ensures
        nesting(text.take(k + 1)) == nesting(text.take(k)) + bracket_weight(text[k]),
        code_of(text.take(k + 1)) == if is_symbol(text[k]) {
            code_of(text.take(k)).push(text[k])
        } else {
            code_of(text.take(k))
        },
{
    assert(text.take(k + 1).drop_last() =~= text.take(k));
}

/// Writing out goes through concatenation.
proof fn lemma_render_concat(a: Seq<Node>, b: Seq<Node>)
    ensures
        render(a + b) == render(a) + render(b),
    decreases b.len(),
{
    if b.len() == 0 {
        assert(a + b =~= a);
        assert(render(a) + render(b) =~= render(a));
    } else {
        assert((a + b).drop_last() =~= a + b.drop_last());
        lemma_render_concat(a, b.drop_last());
        assert(render(a + b) =~= render(a) + render(b));
    }
}

/// Writing out a forest that ends in `node`.
pub(crate) proof fn lemma_render_push(forest: Seq<Node>, node: Node)
    ensures
        render(forest.push(node)) == render(forest) + render_node(node),
{
    assert(forest.push(node).drop_last() =~= forest);
}

/// Where the nesting first comes back to the level it had before an open
/// bracket, that bracket is closed, and what lies between is well nested.
pub(crate) proof fn lemma_loop_span(text: Seq<char>, open: int, after: int)
    requires
        0 <= open < after <= text.len(),
        text[open] == '[',
        nesting(text.take(open)) == 0,
        nesting(text.take(after)) == 0,
        forall|m: int| open < m < after ==> nesting(#[trigger] text.take(m)) >= 1,
    ensures
        open + 2 <= after,
        text[after - 1] == ']',
        well_nested(text.subrange(open + 1, after - 1)),
        text.take(after) == text.take(open) + seq!['['] + text.subrange(open + 1, after - 1)
            + seq![']'],
{
    lemma_take_next(text, open);
    lemma_take_next(text, after - 1);
    let head = text.take(open + 1);
    let body = text.subrange(open + 1, after - 1);
    assert(well_nested(body)) by {
        assert(text.take(after - 1) =~= head + body);
        lemma_nesting_concat(head, body);
        assert forall|m: int| 0 <= m <= body.len() implies nesting(#[trigger] body.take(m))
            >= 0 by {
            assert(text.take(open + 1 + m) =~= head + body.take(m));
            lemma_nesting_concat(head, body.take(m));
        }
    }
    assert(text.take(after) =~= text.take(open) + seq!['['] + body + seq![']']);
}

/// A single symbol is its own code.
pub(crate) proof fn lemma_code_of_symbol(c: char)
    requires
        is_symbol(c),
    ensures
        code_of(seq![c]) == seq![c],
{
    reveal_with_fuel(code_of, 2);
    assert(seq![c].drop_last() =~= Seq::<char>::empty());
    assert(code_of(seq![c]) =~= seq![c]);
}

/// The nesting of a single character is its weight.
proof fn lemma_nesting_single(c: char)
    ensures
        nesting(seq![c]) == bracket_weight(c),
{
    reveal_with_fuel(nesting, 2);
    assert(seq![c].drop_last() =~= Seq::<char>::empty());
}

/// Two well-nested texts, one after the other, are well nested.
proof fn lemma_well_nested_concat(a: Seq<char>, b: Seq<char>)
    requires
        well_nested(a),
        well_nested(b),
    ensures
        well_nested(a + b),
{
    lemma_nesting_concat(a, b);
    assert forall|k: int| 0 <= k <= (a + b).len() implies nesting(#[trigger] (a + b).take(k))
        >= 0 by {
        if k <= a.len() {
            assert((a + b).take(k) =~= a.take(k));
        } else {
            assert((a + b).take(k) =~= a + b.take(k - a.len()));
            lemma_nesting_concat(a, b.take(k - a.len()));
        }
    }
}

/// A well-nested text between brackets: the nesting stays above zero from
/// the open bracket on, and is back at zero right after the close bracket.
proof fn lemma_bracketed(inside: Seq<char>, rest: Seq<char>)
    requires
        well_nested(inside),
    ensures
        forall|m: int|
            1 <= m <= inside.len() + 1 ==> nesting(
                #[trigger] (seq!['['] + inside + seq![']'] + rest).take(m),
            ) >= 1,
        nesting((seq!['['] + inside + seq![']'] + rest).take(inside.len() as int + 2)) == 0,
{
    let whole = seq!['['] + inside + seq![']'] + rest;
    lemma_nesting_single('[');
    lemma_nesting_single(']');
    assert forall|m: int| 1 <= m <= inside.len() + 1 implies nesting(#[trigger] whole.take(m))
        >= 1 by {
        assert(whole.take(m) =~= seq!['['] + inside.take(m - 1));
        lemma_nesting_concat(seq!['['], inside.take(m - 1));
    }
    assert(whole.take(inside.len() as int + 2) =~= seq!['['] + inside + seq![']']);
    lemma_nesting_concat(seq!['['], inside);
    lemma_nesting_concat(seq!['['] + inside, seq![']']);
}

/// A valid tree written out is well nested and not empty, and its first
/// character tells an operation from a loop.
proof fn lemma_render_node_well_nested(node: Node)
    requires
        node_valid(node),
    ensures
        well_nested(render_node(node)),
        render_node(node).len() >= 1,
        render_node(node)[0] == match node {
            Node::Op(code) => code,
            Node::Loop(_) => '[',
        },
    decreases node, 0int,
{
    match node {
        Node::Op(code) => {
            lemma_nesting_single(code);
            assert forall|k: int| 0 <= k <= 1 implies nesting(#[trigger] seq![code].take(k))
                >= 0 by {
                if k == 0 {
                    assert(seq![code].take(0) =~= Seq::<char>::empty());
                } else {
                    assert(seq![code].take(1) =~= seq![code]);
                }
            }
        },
        Node::Loop(body) => {
            lemma_render_well_nested(body);
            let inside = render(body);
            let whole = seq!['['] + inside + seq![']'];
            lemma_bracketed(inside, Seq::empty());
            assert(whole + Seq::<char>::empty() =~= whole);
            assert(whole.take(whole.len() as int) =~= whole);
            assert forall|k: int| 0 <= k <= whole.len() implies nesting(#[trigger] whole.take(k))
                >= 0 by {
                if k == 0 {
                    assert(whole.take(0) =~= Seq::<char>::empty());
                }
            }
        },
    }
}

/// A valid forest written out is well nested.
proof fn lemma_render_well_nested(forest: Seq<Node>)
    requires
        forest_valid(forest),
    ensures
        well_nested(render(forest)),
    decreases forest, 1int,
{
    if forest.len() == 0 {
        assert(render(forest).take(0) =~= render(forest));
    } else {
        assert(forest_valid(forest.drop_last())) by {
            assert forall|i: int| 0 <= i < forest.drop_last().len() implies node_valid(
                #[trigger] forest.drop_last()[i],
            ) by {
                assert(forest.drop_last()[i] == forest[i]);
            }
        }
        lemma_render_well_nested(forest.drop_last());
        lemma_render_node_well_nested(forest.last());
        lemma_well_nested_concat(render(forest.drop_last()), render_node(forest.last()));
    }
}

/// A forest written out begins with its first tree.
proof fn lemma_render_first(forest: Seq<Node>)
    requires
        forest.len() > 0,
    ensures
        render(forest) == render_node(forest.first()) + render(forest.drop_first()),
{
    let first = seq![forest.first()];
    assert(forest =~= first + forest.drop_first());
    lemma_render_concat(first, forest.drop_first());
    reveal_with_fuel(render, 2);
    assert(first.drop_last() =~= Seq::<Node>::empty());
    assert(render(first) =~= render_node(forest.first()));
}

/// Two valid forests that read the same are the same forest.
pub proof fn render_is_injective(a: Seq<Node>, b: Seq<Node>)
    requires
        forest_valid(a),
        forest_valid(b),
        render(a) == render(b),
    ensures
        a == b,
    decreases a,
{
    if a.len() == 0 {
        if b.len() > 0 {
            lemma_render_first(b);
            lemma_render_node_well_nested(b.first());
        }
        assert(a =~= b);
    } else {
        lemma_render_first(a);
        lemma_render_node_well_nested(a.first());
        assert(b.len() > 0);
        lemma_render_first(b);
        lemma_render_node_well_nested(b.first());
        let text = render(a);
        let rest_a = render(a.drop_first());
        let rest_b = render(b.drop_first());
        assert(forest_valid(a.drop_first())) by {
            assert forall|i: int| 0 <= i < a.drop_first().len() implies node_valid(
                #[trigger] a.drop_first()[i],
            ) by {
                assert(a.drop_first()[i] == a[i + 1]);
            }
        }
        assert(forest_valid(b.drop_first())) by {
            assert forall|i: int| 0 <= i < b.drop_first().len() implies node_valid(
                #[trigger] b.drop_first()[i],
            ) by {
                assert(b.drop_first()[i] == b[i + 1]);
            }
        }
        match (a.first(), b.first()) {
            (Node::Op(x), Node::Op(y)) => {
                assert(text[0] == x && text[0] == y);
                assert(rest_a =~= text.skip(1));
                assert(rest_b =~= text.skip(1));
            },
            (Node::Loop(s), Node::Loop(t)) => {
                lemma_render_well_nested(s);
                lemma_render_well_nested(t);
                let inside_a = render(s);
                let inside_b = render(t);
                lemma_bracketed(inside_a, rest_a);
                lemma_bracketed(inside_b, rest_b);
                assert(text == seq!['['] + inside_a + seq![']'] + rest_a);
                assert(text == seq!['['] + inside_b + seq![']'] + rest_b);
                if inside_a.len() < inside_b.len() {
                    assert(nesting(text.take(inside_a.len() as int + 2)) >= 1);
                } else if inside_b.len() < inside_a.len() {
                    assert(nesting(text.take(inside_b.len() as int + 2)) >= 1);
                }
                assert(inside_a =~= text.subrange(1, 1 + inside_a.len() as int));
                assert(inside_b =~= text.subrange(1, 1 + inside_b.len() as int));
                assert(rest_a =~= text.skip(inside_a.len() as int + 2));
                assert(rest_b =~= text.skip(inside_b.len() as int + 2));
                render_is_injective(s, t);
            },
            (Node::Op(x), Node::Loop(_)) => {
                assert(text[0] == x && text[0] == '[');
            },
            (Node::Loop(_), Node::Op(y)) => {
                assert(text[0] == y && text[0] == '[');
            },
        }
        render_is_injective(a.drop_first(), b.drop_first());
        assert(a =~= seq![a.first()] + a.drop_first());
        assert(b =~= seq![b.first()] + b.drop_first());
    }
}

/// The peak is never below zero, nor below the nesting at the end.
proof fn lemma_peak_bounds(text: Seq<char>)
    ensures
        peak(text) >= 0,
        peak(text) >= nesting(text),
    decreases text.len(),
{
    if text.len() > 0 {
        lemma_peak_bounds(text.drop_last());
    }
}

/// The peak is the highest nesting among the prefixes: no prefix nests
/// deeper, and some prefix nests that deep.
pub proof fn peak_is_highest_nesting(text: Seq<char>)
    ensures
        forall|k: int| 0 <= k <= text.len() ==> nesting(#[trigger] text.take(k)) <= peak(text),
        exists|k: int| 0 <= k <= text.len() && nesting(#[trigger] text.take(k)) == peak(text),
    decreases text.len(),
{
    if text.len() == 0 {
        assert(text.take(0) =~= text);
    } else {
        let front = text.drop_last();
        peak_is_highest_nesting(front);
        assert(text.take(text.len() as int) =~= text);
        assert forall|k: int| 0 <= k <= text.len() implies nesting(#[trigger] text.take(k))
            <= peak(text) by {
            if k < text.len() {
                assert(text.take(k) =~= front.take(k));
            }
        }
        if peak(front) >= nesting(text) {
            let k = choose|k: int| 0 <= k <= front.len() && nesting(#[trigger] front.take(k)) == peak(
                front,
            );
            assert(text.take(k) =~= front.take(k));
        }
    }
}

/// The peak of two texts, one after the other: the second starts at the
/// nesting where the first ends.
proof fn lemma_peak_concat(a: Seq<char>, b: Seq<char>)
    ensures
        peak(a + b) == if peak(a) >= nesting(a) + peak(b) {
            peak(a)
        } else {
            nesting(a) + peak(b)
        },
    decreases b.len(),
{
    lemma_peak_bounds(a);
    if b.len() == 0 {
        assert(a + b =~= a);
    } else {
        assert((a + b).drop_last() =~= a + b.drop_last());
        lemma_peak_concat(a, b.drop_last());
        lemma_nesting_concat(a, b);
    }
}

/// Comments change neither the nesting nor its peak.
pub(crate) proof fn lemma_code_keeps_nesting(text: Seq<char>)
    ensures
        nesting(code_of(text)) == nesting(text),
        peak(code_of(text)) == peak(text),
    decreases text.len(),
{
    if text.len() > 0 {
        let front = text.drop_last();
        lemma_code_keeps_nesting(front);
        lemma_peak_bounds(front);
        if is_symbol(text.last()) {
            assert(code_of(text).drop_last() =~= code_of(front));
        }
    }
}

/// The peak of a single character: 1 for an open bracket, else 0.
proof fn lemma_peak_single(c: char)
    ensures
        peak(seq![c]) == if c == '[' {
            1int
        } else {
            0int
        },
{
    reveal_with_fuel(peak, 2);
    lemma_nesting_single(c);
    assert(seq![c].drop_last() =~= Seq::<char>::empty());
}

/// The peak of a valid tree written out is the depth of the tree.
proof fn lemma_render_node_peak(node: Node)
    requires
        node_valid(node),
    ensures
        peak(render_node(node)) == node_depth(node),
    decreases node, 0int,
{
    match node {
        Node::Op(code) => {
            lemma_peak_single(code);
        },
        Node::Loop(body) => {
            let inside = render(body);
            lemma_render_peak(body);
            lemma_render_well_nested(body);
            lemma_peak_bounds(inside);
            lemma_peak_single('[');
            lemma_peak_single(']');
            lemma_nesting_single('[');
            lemma_peak_concat(seq!['['], inside);
            lemma_nesting_concat(seq!['['], inside);
            lemma_peak_concat(seq!['['] + inside, seq![']']);
        },
    }
}

/// The peak of a valid forest written out is the depth of the forest.
pub(crate) proof fn lemma_render_peak(forest: Seq<Node>)
    requires
        forest_valid(forest),
    ensures
        peak(render(forest)) == forest_depth(forest),
    decreases forest, 1int,
{
    if forest.len() > 0 {
        let front = forest.drop_last();
        assert(forest_valid(front)) by {
            assert forall|i: int| 0 <= i < front.len() implies node_valid(#[trigger] front[i]) by {
                assert(front[i] == forest[i]);
            }
        }
        lemma_render_peak(front);
        lemma_render_node_peak(forest.last());
        lemma_render_well_nested(front);
        lemma_peak_concat(render(front), render_node(forest.last()));
    }
}

/// A text without brackets: its operations, each as a node, are a valid
/// forest without loops that reads as the text, and the text is well nested.
pub(crate) proof fn lemma_operations_of(text: Seq<char>)
    requires
        forall|i: int| 0 <= i < text.len() ==> text[i] != '[' && text[i] != ']',
    ensures
        forest_valid(operations_of(text)),
        render(operations_of(text)) == code_of(text),
        forest_depth(operations_of(text)) == 0,
        well_nested(text),
    decreases text.len(),
{
    if text.len() == 0 {
        assert(text.take(0) =~= text);
    } else {
        let front = text.drop_last();
        lemma_operations_of(front);
        assert(text.take(text.len() as int) =~= text);
        assert forall|k: int| 0 <= k <= text.len() implies nesting(#[trigger] text.take(k))
            >= 0 by {
            if k < text.len() {
                assert(text.take(k) =~= front.take(k));
            }
        }
        if is_operation(text.last()) {
            let node = Node::Op(text.last());
            lemma_render_push(operations_of(front), node);
            assert(operations_of(text).drop_last() =~= operations_of(front));
            assert(operations_of(text).last() == node);
            assert(node_depth(node) == 0);
            assert(render(operations_of(text)) =~= code_of(text));
        }
    }
}

} // verus!
