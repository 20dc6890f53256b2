//! Expressions that predicates cannot be pushed past.

use vstd::prelude::*;

use crate::aexpr::{AExpr, BooleanFunction, FunctionExpr};
use crate::arena::{at, in_arena, Arena, Node};
use crate::traversal::{
    all_in_arena, has_aexpr, is_in_literal, lemma_operands_in_arena, lemma_pending_one,
    lemma_pending_pop, meets, pending, projected_inputs, subtree, well_formed, Walk,
};

verus! {

/// Whether `expr` moves the values of a column to other rows.
pub open spec fn is_shift(expr: AExpr) -> bool {
    match expr {
        AExpr::Function { function: FunctionExpr::Shift, .. } => true,
        AExpr::Function { function: FunctionExpr::ShiftAndFill, .. } => true,
        _ => false,
    }
}

/// Whether a shift is among what the expression at `node` is made of.
pub open spec fn has_shift(exprs: Seq<AExpr>, node: Node) -> bool {
    meets(exprs, Walk::Whole, node, |expr: AExpr| is_shift(expr))
}

/// Whether a shift is among what the expression at `node` is made of.
pub fn shifts_elements(node: Node, expr_arena: &Arena<AExpr>) -> (shifts: bool)
    requires
        well_formed(expr_arena@),
        in_arena(expr_arena@, node),
    ensures
        shifts == has_shift(expr_arena@, node),
{
    let matches = |e: &AExpr| -> (shift: bool)
        ensures
            shift == is_shift(*e),
        {
            match e {
                AExpr::Function {
                    function: FunctionExpr::Shift | FunctionExpr::ShiftAndFill,
                    ..
                } => true,
                _ => false,
            }
        };
    has_aexpr(node, expr_arena, matches)
}

/// Whether `expr` gives other results if the rows are in another order, and as many results as
/// there are rows: windows over shifted values, and functions of whole groups that are no
/// reductions (`cum_sum`, `shift`, `sort`, ..).
pub open spec fn depends_on_order(exprs: Seq<AExpr>, expr: AExpr) -> bool {
    match expr {
        AExpr::Window { function, .. } => has_shift(exprs, function),
        AExpr::Function { options, .. } => options.group_wise() && !options.returns_scalar,
        AExpr::AnonymousFunction { options, .. } => options.group_wise()
            && !options.returns_scalar,
        _ => false,
    }
}

/// Whether an expression that depends on the order of the rows is among what the expression at
/// `node` is made of.
pub open spec fn is_sort_boundary(exprs: Seq<AExpr>, node: Node) -> bool {
    meets(exprs, Walk::Whole, node, |expr: AExpr| depends_on_order(exprs, expr))
}

/// Whether the predicate at `node` must not be pushed past a sort.
pub fn predicate_is_sort_boundary(node: Node, expr_arena: &Arena<AExpr>) -> (boundary: bool)
    requires
        well_formed(expr_arena@),
        in_arena(expr_arena@, node),
    ensures
        boundary == is_sort_boundary(expr_arena@, node),
{
    let matches = |e: &AExpr| -> (depends: bool)
        requires
            all_in_arena(expr_arena@, e.inputs()),
        ensures
            depends == depends_on_order(expr_arena@, *e),
        {
            match e {
                AExpr::Window { function, partition_by, .. } => {
                    proof {
                        assert(e.inputs()[partition_by@.len() as int] == function);
                    }
                    shifts_elements(*function, expr_arena)
                },
                AExpr::Function { options, .. } | AExpr::AnonymousFunction { options, .. } => {
                    options.is_groups_sensitive() && !options.returns_scalar
                },
                _ => false,
            }
        };
    proof {
        assert forall|n: Node| in_arena(expr_arena@, n) implies call_requires(
            matches,
            (&#[trigger] at(expr_arena@, n),),
        ) by {
            lemma_operands_in_arena(expr_arena@, n);
        }
    }
    has_aexpr(node, expr_arena, matches)
}

/// Whether `expr` is a column or another name for one.
pub open spec fn is_column_or_alias(expr: AExpr) -> bool {
    expr is Column || expr is Alias
}

/// Whether the expression at `node` is made of columns and aliases alone.
pub open spec fn keeps_values(exprs: Seq<AExpr>, node: Node) -> bool {
    !meets(exprs, Walk::Whole, node, |expr: AExpr| !is_column_or_alias(expr))
}

/// Predicates can be renamed during pushdown to support being pushed through aliases, however this
/// is permitted only if the alias is not preceded by any operations that change the column values.
/// For example:
///
/// `col(A).alias(B)` - predicates referring to column B can be re-written to use column A, since
/// they have the same values.
///
/// `col(A).sort().alias(B)` - predicates referring to column B cannot be re-written to use column
/// A as they have different values.
pub fn projection_allows_aliased_predicate_pushdown(
    node: Node,
    expr_arena: &Arena<AExpr>,
) -> (allows: bool)
    requires
        well_formed(expr_arena@),
        in_arena(expr_arena@, node),
    ensures
        allows == keeps_values(expr_arena@, node),
{
    let matches = |ae: &AExpr| -> (other: bool)
        ensures
            other == !is_column_or_alias(*ae),
        {
            match ae {
                AExpr::Column(_) | AExpr::Alias(_, _) => false,
                _ => true,
            }
        };
    !has_aexpr(node, expr_arena, matches)
}

/// Whether `expr`, when it is projected, gives other results if rows are filtered out first:
/// literals of more than one value, which have to have the height of the table, and whatever
/// depends on groups of rows.
pub open spec fn stops_pushdown(expr: AExpr) -> bool {
    match expr {
        AExpr::Literal(value) => !value.is_scalar(),
        _ => expr.depends_on_groups(),
    }
}

/// Whether the right-hand side of `expr` is in the arena, if it is an `is_in` with one that does not
/// stop predicates itself.
pub open spec fn right_side_in_arena(exprs: Seq<AExpr>, expr: AExpr) -> bool {
    match expr {
        AExpr::Function { input, function: FunctionExpr::Boolean(BooleanFunction::IsIn), .. } => {
            !stops_pushdown(expr) && input@.len() > 1 ==> in_arena(exprs, input@[1])
        },
        _ => true,
    }
}

/// The right-hand side of an `is_in` is in the arena if all its operands are.
pub proof fn lemma_right_side_in_arena(exprs: Seq<AExpr>, expr: AExpr)
    requires
        all_in_arena(exprs, expr.inputs()),
    ensures
        right_side_in_arena(exprs, expr),
{
    match expr {
        AExpr::Function { input, .. } => {
            if input@.len() > 1 {
                assert(expr.inputs()[input@.len() - 2] == input@[1]);
            }
        },
        _ => {},
    }
}

/// Tells whether predicates can be pushed past `ae` itself. If so, puts on the stack the operands
/// that have to allow it too. The literal on the right-hand side of an `is_in` is none of them:
/// it may have more than one value, as it is not projected.
pub fn check_and_extend_predicate_pd_nodes(
    stack: &mut Vec<Node>,
    ae: &AExpr,
    expr_arena: &Arena<AExpr>,
) -> (allowed: bool)
    requires
        right_side_in_arena(expr_arena@, *ae),
    ensures
        allowed == !stops_pushdown(*ae),
        allowed ==> final(stack)@ == old(stack)@ + projected_inputs(expr_arena@, *ae),
        !allowed ==> final(stack)@ == old(stack)@,
{
    let stops = match ae {
        AExpr::Literal(value) => !value.projects_as_scalar(),
        ae => ae.groups_sensitive(),
    };
    if stops {
        return false;
    }
    if let AExpr::Function {
        function: FunctionExpr::Boolean(BooleanFunction::IsIn),
        input,
        ..
    } = ae {
        if input.len() > 1 {
            let rhs = input[1];
            if let AExpr::Literal(_) = expr_arena.get(rhs) {
                let mut local_nodes: Vec<Node> = Vec::with_capacity(4);
                ae.nodes(&mut local_nodes);
                assert(local_nodes@ =~= ae.inputs());
                push_others(stack, &local_nodes, rhs);
                return true;
            }
        }
    }
    assert(is_in_literal(expr_arena@, *ae) is None);
    ae.nodes(stack);
    true
}

/// Puts `nodes` on the stack, without those that are `left_out`.
fn push_others(stack: &mut Vec<Node>, nodes: &Vec<Node>, left_out: Node)
    ensures
        final(stack)@ == old(stack)@ + nodes@.filter(|node: Node| node != left_out),
{
    let ghost kept = |node: Node| node != left_out;
    let mut i: usize = 0;
    proof {
        reveal(Seq::filter);
        assert(nodes@.take(0).filter(kept) =~= seq![]);
        assert(stack@ =~= old(stack)@ + nodes@.take(0).filter(kept));
    }
    while i < nodes.len()
        invariant
            i <= nodes@.len(),
            kept == (|node: Node| node != left_out),
            stack@ == old(stack)@ + nodes@.take(i as int).filter(kept),
        decreases nodes@.len() - i,
    {
        proof {
            reveal(Seq::filter);
            assert(nodes@.take(i + 1).drop_last() =~= nodes@.take(i as int));
        }
        if nodes[i] != left_out {
            stack.push(nodes[i]);
        }
        assert(stack@ =~= old(stack)@ + nodes@.take(i + 1).filter(kept));
        i += 1;
    }
    assert(nodes@.take(i as int) =~= nodes@);
}

/// Whether the expression at `node` blocks predicates from being pushed past it.
pub open spec fn blocks(exprs: Seq<AExpr>, node: Node) -> bool {
    meets(exprs, Walk::Projected, node, |expr: AExpr| stops_pushdown(expr))
}

/// An expression blocks predicates from being pushed past it if its results for the subset where
/// the predicate evaluates as true becomes different compared to if it was performed before the
/// predicate was applied. This is in general any expression that produces outputs based on groups
/// of values (i.e. groups-wise) rather than individual values (i.e. element-wise).
///
/// Examples of expressions whose results would change, and thus block push-down:
/// - any aggregation - sum, mean, first, last, min, max etc.
/// - sorting - as the sort keys would change between filters
pub fn aexpr_blocks_predicate_pushdown(node: Node, expr_arena: &Arena<AExpr>) -> (blocking: bool)
    requires
        well_formed(expr_arena@),
        in_arena(expr_arena@, node),
    ensures
        blocking == blocks(expr_arena@, node),
{
    let ghost exprs = expr_arena@;
    let ghost all = subtree(exprs, Walk::Projected, node);
    let mut stack: Vec<Node> = Vec::with_capacity(4);
    stack.push(node);
    let ghost mut seen: Seq<Node> = seq![];
    proof {
        assert(stack@ =~= seq![node]);
        lemma_pending_one(exprs, Walk::Projected, node);
        assert(seen + pending(exprs, Walk::Projected, stack@) =~= all);
    }
    while stack.len() > 0
        invariant
            exprs == expr_arena@,
            well_formed(exprs),
            all == subtree(exprs, Walk::Projected, node),
            all_in_arena(exprs, stack@),
            all == seen + pending(exprs, Walk::Projected, stack@),
            forall|i: int| 0 <= i < seen.len() ==> !stops_pushdown(at(exprs, #[trigger] seen[i])),
        decreases pending(exprs, Walk::Projected, stack@).len(),
    {
        proof {
            lemma_pending_pop(exprs, Walk::Projected, stack@);
            assert(in_arena(exprs, stack@[stack@.len() - 1]));
            lemma_operands_in_arena(exprs, stack@.last());
            lemma_right_side_in_arena(exprs, at(exprs, stack@.last()));
        }
        let current = stack.pop().unwrap();
        let ae = expr_arena.get(current);
        if !check_and_extend_predicate_pd_nodes(&mut stack, ae, expr_arena) {
            assert(all[seen.len() as int] == current);
            assert(subtree(exprs, Walk::Projected, node).contains(current));
            return true;
        }
        proof {
            seen = seen.push(current);
            assert(all =~= seen + pending(exprs, Walk::Projected, stack@));
        }
    }
    assert(all =~= seen);
    false
}

/// Takes for granted that the expression at `node` blocks no predicates, which has to be ruled out
/// before this point.
pub fn debug_assert_aexpr_allows_predicate_pushdown(node: Node, expr_arena: &Arena<AExpr>)
    requires
        well_formed(expr_arena@),
        in_arena(expr_arena@, node),
        !blocks(expr_arena@, node),
{
    let blocking = aexpr_blocks_predicate_pushdown(node, expr_arena);
    assert(!blocking);
}

} // verus!
