//! Walks through an expression: which expressions it is made of, and the columns it reads.

use std::sync::Arc;
use vstd::prelude::*;

use crate::aexpr::{AExpr, BooleanFunction, FunctionExpr};
use crate::arena::{at, in_arena, Arena, Node};
use crate::names::texts;
use crate::schema::Schema;

verus! {

/// Whether `ranks` numbers the expressions so that every operand is in the arena and has a
/// smaller number than the expressions that use it.
pub open spec fn topological(exprs: Seq<AExpr>, ranks: Seq<nat>) -> bool {
    &&& ranks.len() == exprs.len()
    &&& forall|i: int| 0 <= i < exprs.len() ==> #[trigger] ranks[i] < exprs.len()
    &&& forall|i: int, j: int|
        0 <= i < exprs.len() && 0 <= j < exprs[i].inputs().len() ==> {
            &&& in_arena(exprs, #[trigger] exprs[i].inputs()[j])
            &&& ranks[exprs[i].inputs()[j].0 as int] < ranks[i]
        }
}

/// Whether every operand is in the arena and no expression is, directly or not, an operand of
/// itself. Operands may stand before or behind the expressions that use them.
pub open spec fn well_formed(exprs: Seq<AExpr>) -> bool {
    exists|ranks: Seq<nat>| topological(exprs, ranks)
}

/// A number for `node` that is greater than those of its operands.
pub open spec fn depth(exprs: Seq<AExpr>, node: Node) -> nat {
    (choose|ranks: Seq<nat>| topological(exprs, ranks))[node.0 as int]
}

/// The right-hand side of an `is_in`, if it is a literal.
pub open spec fn is_in_literal(exprs: Seq<AExpr>, expr: AExpr) -> Option<Node> {
    match expr {
        AExpr::Function { input, function: FunctionExpr::Boolean(BooleanFunction::IsIn), .. } => {
            if input@.len() > 1 && at(exprs, input@[1]) is Literal {
                Some(input@[1])
            } else {
                None
            }
        },
        _ => None,
    }
}

/// The operands that are projected, and so have to allow that rows are filtered first: all but
/// the literal on the right-hand side of an `is_in`.
pub open spec fn projected_inputs(exprs: Seq<AExpr>, expr: AExpr) -> Seq<Node> {
    match is_in_literal(exprs, expr) {
        Some(rhs) => expr.inputs().filter(|node: Node| node != rhs),
        None => expr.inputs(),
    }
}

/// Which operands a walk goes on to.
pub enum Walk {
    /// All.
    Whole,
    /// Those that are projected.
    Projected,
    /// Those that are projected, but none of a window expression.
    OutsideWindows,
}

impl Walk {
    /// The operands of `expr` that the walk goes on to, in the order of [`AExpr::inputs`].
    pub open spec fn inputs(self, exprs: Seq<AExpr>, expr: AExpr) -> Seq<Node> {
        match self {
            Walk::Whole => expr.inputs(),
            Walk::Projected => projected_inputs(exprs, expr),
            Walk::OutsideWindows => if expr is Window {
                seq![]
            } else {
                projected_inputs(exprs, expr)
            },
        }
    }
}

/// The nodes that a walk from `node` meets: `node`, then the operands from left to right, each
/// with all that it is made of.
pub open spec fn subtree(exprs: Seq<AExpr>, walk: Walk, node: Node) -> Seq<Node>
    decreases depth(exprs, node), 1nat, 0nat,
{
    seq![node] + subtrees(exprs, walk, walk.inputs(exprs, at(exprs, node)), depth(exprs, node))
}

/// The nodes that walks from the nodes of `stack` meet, the last of them first. Nodes that do not
/// lie below `bound` are left out.
pub open spec fn subtrees(exprs: Seq<AExpr>, walk: Walk, stack: Seq<Node>, bound: nat) -> Seq<Node>
    decreases bound, 0nat, stack.len(),
{
    if stack.len() == 0 {
        seq![]
    } else {
        (if depth(exprs, stack.last()) < bound {
            subtree(exprs, walk, stack.last())
        } else {
            seq![]
        }) + subtrees(exprs, walk, stack.drop_last(), bound)
    }
}

/// The nodes that are still to come when `stack` is on the stack of a walk.
pub open spec fn pending(exprs: Seq<AExpr>, walk: Walk, stack: Seq<Node>) -> Seq<Node> {
    subtrees(exprs, walk, stack, exprs.len())
}

/// Whether a walk from `node` meets an expression with `property`.
pub open spec fn meets(
    exprs: Seq<AExpr>,
    walk: Walk,
    node: Node,
    property: spec_fn(AExpr) -> bool,
) -> bool {
    exists|n: Node|
        #[trigger] subtree(exprs, walk, node).contains(n) && property(at(exprs, n))
}

/// The names of the columns among `nodes`, in order.
pub open spec fn column_names(exprs: Seq<AExpr>, nodes: Seq<Node>) -> Seq<Seq<char>>
    decreases nodes.len(),
{
    if nodes.len() == 0 {
        seq![]
    } else {
        let before = column_names(exprs, nodes.drop_last());
        match at(exprs, nodes.last()) {
            AExpr::Column(name) => before.push(name@),
            _ => before,
        }
    }
}

/// Whether one of `nodes` is the column `name`.
pub open spec fn has_column(exprs: Seq<AExpr>, nodes: Seq<Node>, name: Seq<char>) -> bool {
    exists|i: int|
        0 <= i < nodes.len() && (at(exprs, #[trigger] nodes[i]) matches AExpr::Column(column)
            && column@ == name)
}

/// The names of the columns that the expression at `node` reads, from left to right, each as
/// often as it is read.
pub open spec fn leaf_names(exprs: Seq<AExpr>, node: Node) -> Seq<Seq<char>> {
    column_names(exprs, subtree(exprs, Walk::Whole, node))
}

/// Whether all of `nodes` are in the arena.
pub open spec fn all_in_arena(exprs: Seq<AExpr>, nodes: Seq<Node>) -> bool {
    forall|i: int| 0 <= i < nodes.len() ==> in_arena(exprs, #[trigger] nodes[i])
}

/// Whether all of `nodes` are in the arena and lie below `bound`.
spec fn all_below(exprs: Seq<AExpr>, nodes: Seq<Node>, bound: nat) -> bool {
    forall|i: int|
        0 <= i < nodes.len() ==> in_arena(exprs, #[trigger] nodes[i]) && depth(exprs, nodes[i])
            < bound
}

/// A well-formed arena has a topological numbering, and `depth` is one.
proof fn lemma_depth(exprs: Seq<AExpr>)
    requires
        well_formed(exprs),
    ensures
        topological(exprs, choose|ranks: Seq<nat>| topological(exprs, ranks)),
{
}

/// Nodes of a well-formed arena lie below the size of the arena.
proof fn lemma_all_below(exprs: Seq<AExpr>, nodes: Seq<Node>)
    requires
        well_formed(exprs),
        all_in_arena(exprs, nodes),
    ensures
        all_below(exprs, nodes, exprs.len()),
{
    lemma_depth(exprs);
}

/// The operands that a walk goes on to lie below the expression.
proof fn lemma_inputs_below(exprs: Seq<AExpr>, walk: Walk, node: Node)
    requires
        well_formed(exprs),
        in_arena(exprs, node),
    ensures
        all_below(exprs, walk.inputs(exprs, at(exprs, node)), depth(exprs, node)),
        all_in_arena(exprs, walk.inputs(exprs, at(exprs, node))),
{
    lemma_depth(exprs);
    let expr = at(exprs, node);
    assert(all_below(exprs, expr.inputs(), depth(exprs, node)));
    match is_in_literal(exprs, expr) {
        Some(rhs) => {
            let kept = |n: Node| n != rhs;
            let filtered = expr.inputs().filter(kept);
            assert forall|i: int| 0 <= i < filtered.len() implies in_arena(
                exprs,
                #[trigger] filtered[i],
            ) && depth(exprs, filtered[i]) < depth(exprs, node) by {
                lemma_filter_is_part(expr.inputs(), kept, i);
            }
        },
        None => {},
    }
}

/// The operands of an expression lie below it.
pub proof fn lemma_inputs_below_node(exprs: Seq<AExpr>, node: Node)
    requires
        well_formed(exprs),
        in_arena(exprs, node),
    ensures
        forall|i: int|
            0 <= i < at(exprs, node).inputs().len() ==> {
                &&& in_arena(exprs, #[trigger] at(exprs, node).inputs()[i])
                &&& depth(exprs, at(exprs, node).inputs()[i]) < depth(exprs, node)
            },
{
    lemma_depth(exprs);
}

/// The operands of an expression that are projected lie below it.
pub proof fn lemma_projected_inputs_below(exprs: Seq<AExpr>, node: Node)
    requires
        well_formed(exprs),
        in_arena(exprs, node),
    ensures
        forall|i: int|
            0 <= i < projected_inputs(exprs, at(exprs, node)).len() ==> {
                &&& in_arena(exprs, #[trigger] projected_inputs(exprs, at(exprs, node))[i])
                &&& depth(exprs, projected_inputs(exprs, at(exprs, node))[i]) < depth(exprs, node)
            },
{
    lemma_inputs_below(exprs, Walk::Projected, node);
}

/// An arena without expressions is well formed.
pub proof fn law_empty_well_formed()
    ensures
        well_formed(Seq::empty()),
{
    assert(topological(Seq::empty(), Seq::empty()));
}

/// The operands of an expression of a well-formed arena are in it.
pub proof fn lemma_operands_in_arena(exprs: Seq<AExpr>, node: Node)
    requires
        well_formed(exprs),
        in_arena(exprs, node),
    ensures
        all_in_arena(exprs, at(exprs, node).inputs()),
{
    lemma_depth(exprs);
}

/// What a filter keeps comes from the sequence that was filtered.
pub proof fn lemma_filter_is_part(nodes: Seq<Node>, kept: spec_fn(Node) -> bool, i: int)
    requires
        0 <= i < nodes.filter(kept).len(),
    ensures
        nodes.contains(nodes.filter(kept)[i]),
    decreases nodes.len(),
{
    reveal(Seq::filter);
    if nodes.len() > 0 {
        let before = nodes.drop_last().filter(kept);
        if i < before.len() {
            lemma_filter_is_part(nodes.drop_last(), kept, i);
            let j = choose|j: int|
                0 <= j < nodes.drop_last().len() && nodes.drop_last()[j] == before[i];
            assert(nodes[j] == before[i]);
        } else {
            assert(nodes[nodes.len() - 1] == nodes.last());
        }
    }
}

/// The bound does not matter if all nodes lie below it.
proof fn lemma_bound(exprs: Seq<AExpr>, walk: Walk, stack: Seq<Node>, a: nat, b: nat)
    requires
        all_below(exprs, stack, a),
        all_below(exprs, stack, b),
    ensures
        subtrees(exprs, walk, stack, a) == subtrees(exprs, walk, stack, b),
    decreases stack.len(),
{
    if stack.len() > 0 {
        assert(stack[stack.len() - 1] == stack.last());
        assert forall|i: int| 0 <= i < stack.drop_last().len() implies #[trigger] stack.drop_last()[i]
            == stack[i] by {}
        lemma_bound(exprs, walk, stack.drop_last(), a, b);
    }
}

/// The upper part of a stack is walked before the lower part.
proof fn lemma_subtrees_add(
    exprs: Seq<AExpr>,
    walk: Walk,
    lower: Seq<Node>,
    upper: Seq<Node>,
    bound: nat,
)
    ensures
        subtrees(exprs, walk, lower + upper, bound) == subtrees(exprs, walk, upper, bound)
            + subtrees(exprs, walk, lower, bound),
    decreases upper.len(),
{
    if upper.len() == 0 {
        assert(lower + upper =~= lower);
        assert(subtrees(exprs, walk, upper, bound) + subtrees(exprs, walk, lower, bound)
            =~= subtrees(exprs, walk, lower, bound));
    } else {
        assert((lower + upper).drop_last() =~= lower + upper.drop_last());
        assert((lower + upper).last() == upper.last());
        lemma_subtrees_add(exprs, walk, lower, upper.drop_last(), bound);
        assert(subtrees(exprs, walk, lower + upper, bound) =~= subtrees(exprs, walk, upper, bound)
            + subtrees(exprs, walk, lower, bound));
    }
}

/// A walk meets its first node and then what its operands are made of.
pub proof fn lemma_subtree(exprs: Seq<AExpr>, walk: Walk, node: Node)
    requires
        well_formed(exprs),
        in_arena(exprs, node),
    ensures
        subtree(exprs, walk, node) == seq![node] + pending(
            exprs,
            walk,
            walk.inputs(exprs, at(exprs, node)),
        ),
{
    let inputs = walk.inputs(exprs, at(exprs, node));
    lemma_inputs_below(exprs, walk, node);
    lemma_all_below(exprs, inputs);
    lemma_bound(exprs, walk, inputs, depth(exprs, node), exprs.len());
}

/// With one node on the stack, what is still to come is what that node is made of.
pub proof fn lemma_pending_one(exprs: Seq<AExpr>, walk: Walk, node: Node)
    requires
        well_formed(exprs),
        in_arena(exprs, node),
    ensures
        pending(exprs, walk, seq![node]) == subtree(exprs, walk, node),
{
    lemma_all_below(exprs, seq![node]);
    assert(seq![node][0] == node);
    let stack = seq![node];
    assert(stack.last() == node);
    assert(stack.drop_last() =~= seq![]);
    assert(subtrees(exprs, walk, stack.drop_last(), exprs.len()) =~= seq![]);
    assert(subtree(exprs, walk, node) + Seq::<Node>::empty() =~= subtree(exprs, walk, node));
}

/// The upper part of a stack is still to come before the lower part.
pub proof fn lemma_pending_add(exprs: Seq<AExpr>, walk: Walk, lower: Seq<Node>, upper: Seq<Node>)
    ensures
        pending(exprs, walk, lower + upper) == pending(exprs, walk, upper) + pending(
            exprs,
            walk,
            lower,
        ),
{
    lemma_subtrees_add(exprs, walk, lower, upper, exprs.len());
}

/// One step of a walk: the top of the stack makes way for its operands.
pub proof fn lemma_pending_pop(exprs: Seq<AExpr>, walk: Walk, stack: Seq<Node>)
    requires
        well_formed(exprs),
        all_in_arena(exprs, stack),
        stack.len() > 0,
    ensures
        pending(exprs, walk, stack) == seq![stack.last()] + pending(
            exprs,
            walk,
            stack.drop_last() + walk.inputs(exprs, at(exprs, stack.last())),
        ),
        all_in_arena(
            exprs,
            stack.drop_last() + walk.inputs(exprs, at(exprs, stack.last())),
        ),
{
    let top = stack.last();
    let inputs = walk.inputs(exprs, at(exprs, top));
    assert(stack[stack.len() - 1] == top);
    assert(stack.drop_last() + seq![top] =~= stack);
    lemma_pending_add(exprs, walk, stack.drop_last(), seq![top]);
    lemma_pending_one(exprs, walk, top);
    lemma_subtree(exprs, walk, top);
    lemma_pending_add(exprs, walk, stack.drop_last(), inputs);
    lemma_inputs_below(exprs, walk, top);
    assert(pending(exprs, walk, stack) =~= seq![top] + pending(
        exprs,
        walk,
        stack.drop_last() + inputs,
    ));
}

/// All that a walk meets is in the arena.
pub proof fn lemma_subtree_in_arena(exprs: Seq<AExpr>, walk: Walk, node: Node)
    requires
        well_formed(exprs),
        in_arena(exprs, node),
    ensures
        all_in_arena(exprs, subtree(exprs, walk, node)),
        subtree(exprs, walk, node).contains(node),
    decreases depth(exprs, node), 1nat, 0nat,
{
    let inputs = walk.inputs(exprs, at(exprs, node));
    lemma_inputs_below(exprs, walk, node);
    lemma_subtrees_in_arena(exprs, walk, inputs, depth(exprs, node));
    assert(subtree(exprs, walk, node)[0] == node);
}

/// All that the walks from the nodes of a stack meet is in the arena.
proof fn lemma_subtrees_in_arena(exprs: Seq<AExpr>, walk: Walk, stack: Seq<Node>, bound: nat)
    requires
        well_formed(exprs),
        all_below(exprs, stack, bound),
    ensures
        all_in_arena(exprs, subtrees(exprs, walk, stack, bound)),
    decreases bound, 0nat, stack.len(),
{
    if stack.len() > 0 {
        assert(stack[stack.len() - 1] == stack.last());
        assert forall|i: int| 0 <= i < stack.drop_last().len() implies #[trigger] stack.drop_last()[i]
            == stack[i] by {}
        lemma_subtree_in_arena(exprs, walk, stack.last());
        lemma_subtrees_in_arena(exprs, walk, stack.drop_last(), bound);
    }
}

/// Whether `after` holds what `before` holds, in the same places, and perhaps more.
pub open spec fn grows(before: Seq<AExpr>, after: Seq<AExpr>) -> bool {
    &&& before.len() <= after.len()
    &&& forall|i: int| 0 <= i < before.len() ==> #[trigger] after[i] == before[i]
}

/// An expression keeps its operands as the arena grows.
proof fn lemma_inputs_stay(before: Seq<AExpr>, after: Seq<AExpr>, walk: Walk, node: Node)
    requires
        well_formed(before),
        grows(before, after),
        in_arena(before, node),
    ensures
        walk.inputs(after, at(after, node)) == walk.inputs(before, at(before, node)),
{
    lemma_depth(before);
    let expr = at(before, node);
    match expr {
        AExpr::Function { input, .. } => {
            if input@.len() > 1 {
                assert(expr.inputs()[input@.len() - 2] == input@[1]);
            }
        },
        _ => {},
    }
}

/// What an expression is made of stays the same as the arena grows.
pub proof fn lemma_subtree_stays(before: Seq<AExpr>, after: Seq<AExpr>, walk: Walk, node: Node)
    requires
        well_formed(before),
        well_formed(after),
        grows(before, after),
        in_arena(before, node),
    ensures
        subtree(after, walk, node) == subtree(before, walk, node),
    decreases depth(before, node), 1nat, 0nat,
{
    let inputs = walk.inputs(before, at(before, node));
    lemma_inputs_stay(before, after, walk, node);
    lemma_inputs_below(before, walk, node);
    lemma_inputs_below(after, walk, node);
    lemma_subtrees_stay(before, after, walk, inputs, depth(before, node), depth(after, node));
}

/// What the expressions on a stack are made of stays the same as the arena grows.
proof fn lemma_subtrees_stay(
    before: Seq<AExpr>,
    after: Seq<AExpr>,
    walk: Walk,
    stack: Seq<Node>,
    bound_before: nat,
    bound_after: nat,
)
    requires
        well_formed(before),
        well_formed(after),
        grows(before, after),
        all_below(before, stack, bound_before),
        all_below(after, stack, bound_after),
    ensures
        subtrees(after, walk, stack, bound_after) == subtrees(before, walk, stack, bound_before),
    decreases bound_before, 0nat, stack.len(),
{
    if stack.len() > 0 {
        assert(stack[stack.len() - 1] == stack.last());
        assert forall|i: int| 0 <= i < stack.drop_last().len() implies #[trigger] stack.drop_last()[i]
            == stack[i] by {}
        lemma_subtree_stays(before, after, walk, stack.last());
        lemma_subtrees_stay(before, after, walk, stack.drop_last(), bound_before, bound_after);
    }
}

/// The columns among nodes stay the same as the arena grows.
proof fn lemma_column_names_stay(before: Seq<AExpr>, after: Seq<AExpr>, nodes: Seq<Node>)
    requires
        grows(before, after),
        all_in_arena(before, nodes),
    ensures
        column_names(after, nodes) == column_names(before, nodes),
    decreases nodes.len(),
{
    if nodes.len() > 0 {
        assert(nodes[nodes.len() - 1] == nodes.last());
        assert forall|i: int| 0 <= i < nodes.drop_last().len() implies #[trigger] nodes.drop_last()[i]
            == nodes[i] by {}
        lemma_column_names_stay(before, after, nodes.drop_last());
    }
}

/// The columns that an expression reads stay the same as the arena grows.
pub proof fn lemma_leaf_names_stay(before: Seq<AExpr>, after: Seq<AExpr>, node: Node)
    requires
        well_formed(before),
        well_formed(after),
        grows(before, after),
        in_arena(before, node),
    ensures
        leaf_names(after, node) == leaf_names(before, node),
{
    lemma_subtree_stays(before, after, Walk::Whole, node);
    lemma_subtree_in_arena(before, Walk::Whole, node);
    lemma_column_names_stay(before, after, subtree(before, Walk::Whole, node));
}

/// Names are those of columns.
pub proof fn lemma_column_names_contains(exprs: Seq<AExpr>, nodes: Seq<Node>, name: Seq<char>)
    ensures
        column_names(exprs, nodes).contains(name) == has_column(exprs, nodes, name),
    decreases nodes.len(),
{
    if nodes.len() > 0 {
        let before = nodes.drop_last();
        let known = column_names(exprs, before);
        lemma_column_names_contains(exprs, before, name);
        assert(nodes[nodes.len() - 1] == nodes.last());
        if has_column(exprs, before, name) {
            let i = choose|i: int|
                0 <= i < before.len() && (at(exprs, #[trigger] before[i]) matches AExpr::Column(column)
                    && column@ == name);
            assert(nodes[i] == before[i]);
        }
        if has_column(exprs, nodes, name) {
            let i = choose|i: int|
                0 <= i < nodes.len() && (at(exprs, #[trigger] nodes[i]) matches AExpr::Column(column)
                    && column@ == name);
            if i < before.len() {
                assert(before[i] == nodes[i]);
            }
        }
        match at(exprs, nodes.last()) {
            AExpr::Column(last) => {
                let all = known.push(last@);
                assert(all[known.len() as int] == last@);
                if known.contains(name) {
                    let i = choose|i: int| 0 <= i < known.len() && known[i] == name;
                    assert(all[i] == name);
                }
            },
            _ => {},
        }
    }
}

/// The columns of a longer list of nodes are those of its parts.
pub proof fn lemma_column_names_add(exprs: Seq<AExpr>, a: Seq<Node>, b: Seq<Node>)
    ensures
        column_names(exprs, a + b) == column_names(exprs, a) + column_names(exprs, b),
    decreases b.len(),
{
    if b.len() == 0 {
        assert(a + b =~= a);
    } else {
        assert((a + b).drop_last() =~= a + b.drop_last());
        assert((a + b).last() == b.last());
        lemma_column_names_add(exprs, a, b.drop_last());
    }
    assert(column_names(exprs, a + b) =~= column_names(exprs, a) + column_names(exprs, b));
}

/// What an operand is made of is part of what the expression is made of.
pub proof fn lemma_subtree_of_input(exprs: Seq<AExpr>, walk: Walk, node: Node, i: int, n: Node)
    requires
        well_formed(exprs),
        in_arena(exprs, node),
        0 <= i < walk.inputs(exprs, at(exprs, node)).len(),
        subtree(exprs, walk, walk.inputs(exprs, at(exprs, node))[i]).contains(n),
    ensures
        subtree(exprs, walk, node).contains(n),
{
    let inputs = walk.inputs(exprs, at(exprs, node));
    let input = inputs[i];
    lemma_inputs_below(exprs, walk, node);
    lemma_subtree(exprs, walk, node);
    assert(inputs =~= inputs.take(i) + (seq![input] + inputs.skip(i + 1)));
    lemma_pending_add(exprs, walk, inputs.take(i), seq![input] + inputs.skip(i + 1));
    lemma_pending_add(exprs, walk, seq![input], inputs.skip(i + 1));
    lemma_pending_one(exprs, walk, input);
    let above = pending(exprs, walk, inputs.skip(i + 1));
    let own = subtree(exprs, walk, input);
    let below = pending(exprs, walk, inputs.take(i));
    assert(pending(exprs, walk, inputs) == above + own + below);
    let j = choose|j: int| 0 <= j < own.len() && own[j] == n;
    assert(subtree(exprs, walk, node)[1 + above.len() + j] == n);
}

/// What an expression is made of is the expression itself or part of what an operand is made of.
pub proof fn lemma_subtree_parts(exprs: Seq<AExpr>, walk: Walk, node: Node, n: Node)
    requires
        well_formed(exprs),
        in_arena(exprs, node),
        subtree(exprs, walk, node).contains(n),
    ensures
        n == node || exists|i: int|
            0 <= i < walk.inputs(exprs, at(exprs, node)).len() && subtree(
                exprs,
                walk,
                #[trigger] walk.inputs(exprs, at(exprs, node))[i],
            ).contains(n),
{
    let inputs = walk.inputs(exprs, at(exprs, node));
    lemma_inputs_below(exprs, walk, node);
    lemma_subtree(exprs, walk, node);
    if n != node {
        let all = subtree(exprs, walk, node);
        let j = choose|j: int| 0 <= j < all.len() && all[j] == n;
        assert(pending(exprs, walk, inputs)[j - 1] == n);
        lemma_pending_parts(exprs, walk, inputs, n);
    }
}

/// What is still to come is part of what a node on the stack is made of.
proof fn lemma_pending_parts(exprs: Seq<AExpr>, walk: Walk, stack: Seq<Node>, n: Node)
    requires
        well_formed(exprs),
        all_in_arena(exprs, stack),
        pending(exprs, walk, stack).contains(n),
    ensures
        exists|i: int| 0 <= i < stack.len() && subtree(exprs, walk, #[trigger] stack[i]).contains(n),
    decreases stack.len(),
{
    if stack.len() > 0 {
        let top = stack.last();
        let rest = stack.drop_last();
        assert(rest + seq![top] =~= stack);
        assert(stack[stack.len() - 1] == top);
        lemma_pending_add(exprs, walk, rest, seq![top]);
        lemma_pending_one(exprs, walk, top);
        if !subtree(exprs, walk, top).contains(n) {
            let all = pending(exprs, walk, stack);
            let own = subtree(exprs, walk, top);
            let j = choose|j: int| 0 <= j < all.len() && all[j] == n;
            if j < own.len() {
                assert(own[j] == n);
            } else {
                assert(pending(exprs, walk, rest)[j - own.len()] == n);
            }
            assert forall|i: int| 0 <= i < rest.len() implies #[trigger] rest[i] == stack[i] by {}
            lemma_pending_parts(exprs, walk, rest, n);
            let i = choose|i: int|
                0 <= i < rest.len() && subtree(exprs, walk, #[trigger] rest[i]).contains(n);
            assert(stack[i] == rest[i]);
        }
    }
}

/// An arena stays well formed when an expression is added whose operands it holds.
pub proof fn lemma_push_well_formed(exprs: Seq<AExpr>, expr: AExpr)
    requires
        well_formed(exprs),
        all_in_arena(exprs, expr.inputs()),
    ensures
        well_formed(exprs.push(expr)),
        grows(exprs, exprs.push(expr)),
{
    let ranks = choose|ranks: Seq<nat>| topological(exprs, ranks);
    assert(topological(exprs.push(expr), ranks.push(exprs.len()))) by {
        let more = exprs.push(expr);
        assert forall|i: int, j: int| 0 <= i < more.len() && 0 <= j < more[i].inputs().len() implies {
            &&& in_arena(more, #[trigger] more[i].inputs()[j])
            &&& ranks.push(exprs.len())[more[i].inputs()[j].0 as int] < ranks.push(exprs.len())[i]
        } by {
            if i < exprs.len() {
                assert(more[i] == exprs[i]);
                assert(in_arena(exprs, exprs[i].inputs()[j]));
            } else {
                assert(in_arena(exprs, expr.inputs()[j]));
            }
        }
    }
}

/// Whether the expression at `node`, or one that it is made of, matches.
pub fn has_aexpr<F: Fn(&AExpr) -> bool>(
    node: Node,
    arena: &Arena<AExpr>,
    matches: F,
) -> (found: bool)
    requires
        well_formed(arena@),
        in_arena(arena@, node),
        forall|n: Node| in_arena(arena@, n) ==> call_requires(matches, (&#[trigger] at(arena@, n),)),
    ensures
        found ==> exists|n: Node|
            #[trigger] subtree(arena@, Walk::Whole, node).contains(n) && call_ensures(
                matches,
                (&at(arena@, n),),
                true,
            ),
        !found ==> forall|n: Node|
            #[trigger] subtree(arena@, Walk::Whole, node).contains(n) ==> call_ensures(
                matches,
                (&at(arena@, n),),
                false,
            ),
{
    let ghost exprs = arena@;
    let ghost all = subtree(exprs, Walk::Whole, node);
    let mut stack: Vec<Node> = Vec::with_capacity(4);
    stack.push(node);
    let ghost mut seen: Seq<Node> = seq![];
    proof {
        assert(stack@ =~= seq![node]);
        lemma_pending_one(exprs, Walk::Whole, node);
        assert(seen + pending(exprs, Walk::Whole, stack@) =~= all);
    }
    while stack.len() > 0
        invariant
            exprs == arena@,
            well_formed(exprs),
            all == subtree(exprs, Walk::Whole, node),
            all_in_arena(exprs, stack@),
            all == seen + pending(exprs, Walk::Whole, stack@),
            forall|n: Node| in_arena(arena@, n) ==> call_requires(matches, (&#[trigger] at(arena@, n),)),
            forall|i: int|
                0 <= i < seen.len() ==> call_ensures(
                    matches,
                    (&at(exprs, #[trigger] seen[i]),),
                    false,
                ),
        decreases pending(exprs, Walk::Whole, stack@).len(),
    {
        proof {
            lemma_pending_pop(exprs, Walk::Whole, stack@);
            assert(in_arena(exprs, stack@[stack@.len() - 1]));
        }
        let current = stack.pop().unwrap();
        let expr = arena.get(current);
        if matches(expr) {
            assert(all[seen.len() as int] == current);
            assert(subtree(arena@, Walk::Whole, node).contains(current));
            return true;
        }
        expr.nodes(&mut stack);
        proof {
            seen = seen.push(current);
            assert(all =~= seen + pending(exprs, Walk::Whole, stack@));
        }
    }
    assert(all =~= seen);
    false
}

/// The names of the columns that the expression at `node` reads, from left to right, each as
/// often as it is read.
pub fn aexpr_to_leaf_names(node: Node, arena: &Arena<AExpr>) -> (names: Vec<Arc<str>>)
    requires
        well_formed(arena@),
        in_arena(arena@, node),
    ensures
        texts(names@) == leaf_names(arena@, node),
{
    let ghost exprs = arena@;
    let ghost all = subtree(exprs, Walk::Whole, node);
    let mut names: Vec<Arc<str>> = Vec::new();
    let mut stack: Vec<Node> = Vec::with_capacity(4);
    stack.push(node);
    let ghost mut seen: Seq<Node> = seq![];
    proof {
        assert(stack@ =~= seq![node]);
        lemma_pending_one(exprs, Walk::Whole, node);
        assert(seen + pending(exprs, Walk::Whole, stack@) =~= all);
        assert(texts(names@) =~= seq![]);
    }
    while stack.len() > 0
        invariant
            exprs == arena@,
            well_formed(exprs),
            all == subtree(exprs, Walk::Whole, node),
            all_in_arena(exprs, stack@),
            all == seen + pending(exprs, Walk::Whole, stack@),
            texts(names@) == column_names(exprs, seen),
        decreases pending(exprs, Walk::Whole, stack@).len(),
    {
        proof {
            lemma_pending_pop(exprs, Walk::Whole, stack@);
            assert(in_arena(exprs, stack@[stack@.len() - 1]));
        }
        let current = stack.pop().unwrap();
        let expr = arena.get(current);
        if let AExpr::Column(name) = expr {
            let ghost known = names@;
            names.push(name.clone());
            assert(texts(names@) =~= texts(known).push(name@));
        }
        expr.nodes(&mut stack);
        proof {
            assert(seen.push(current).drop_last() =~= seen);
            seen = seen.push(current);
            assert(all =~= seen + pending(exprs, Walk::Whole, stack@));
        }
    }
    assert(all =~= seen);
    names
}

/// Whether `columns` holds all columns that the expression at `node` reads.
pub open spec fn reads_only(exprs: Seq<AExpr>, node: Node, columns: Seq<Seq<char>>) -> bool {
    forall|i: int|
        0 <= i < leaf_names(exprs, node).len() ==> columns.contains(
            #[trigger] leaf_names(exprs, node)[i],
        )
}

/// Whether the table with the columns of `input_schema` has all that the expression at `node`
/// reads.
pub fn check_input_node(node: Node, input_schema: &Schema, arena: &Arena<AExpr>) -> (fits: bool)
    requires
        well_formed(arena@),
        in_arena(arena@, node),
    ensures
        fits == reads_only(arena@, node, input_schema@),
{
    let names = aexpr_to_leaf_names(node, arena);
    let mut i: usize = 0;
    while i < names.len()
        invariant
            i <= names@.len(),
            texts(names@) == leaf_names(arena@, node),
            forall|j: int|
                0 <= j < i ==> input_schema@.contains(#[trigger] leaf_names(arena@, node)[j]),
        decreases names@.len() - i,
    {
        assert(leaf_names(arena@, node)[i as int] == names@[i as int]@);
        if !input_schema.contains(&*names[i]) {
            return false;
        }
        i += 1;
    }
    true
}

} // verus!
