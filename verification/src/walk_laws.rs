//! What holds of walks through an expression, and of what is told by them: all that is said of an
//! expression goes by what it is itself and by its operands.

use vstd::prelude::*;

use crate::aexpr::{same_operation, AExpr, FunctionExpr};
use crate::arena::{at, in_arena, Node};
use crate::boundary::{
    depends_on_order, has_shift, is_column_or_alias, is_shift, is_sort_boundary, keeps_values,
};
use crate::projection::{is_column_modification, modifies_columns};
use crate::pushdown_laws::lemma_meets;
use crate::rename::{fresh, renamed_copy};
use crate::transfer::{acc_in_arena, finds, reading};
use crate::traversal::{
    all_in_arena, column_names, depth, grows, leaf_names, lemma_column_names_add,
    lemma_inputs_below_node, lemma_operands_in_arena, lemma_pending_add, lemma_pending_one,
    lemma_pending_pop, lemma_projected_inputs_below,
    lemma_subtree, lemma_subtree_in_arena, lemma_subtree_of_input, lemma_subtree_parts, meets,
    pending, projected_inputs, reads_only, subtree, topological, well_formed, Walk,
};

verus! {

/// In a well-formed arena every operand of every expression is in the arena, and is not the
/// expression itself.
pub proof fn law_operands_are_there(exprs: Seq<AExpr>, i: int, j: int)
    requires
        well_formed(exprs),
        exprs.len() <= usize::MAX,
        0 <= i < exprs.len(),
        0 <= j < exprs[i].inputs().len(),
    ensures
        exprs[i].inputs()[j].0 < exprs.len(),
        exprs[i].inputs()[j].0 != i,
{
    let node = Node(i as usize);
    assert(at(exprs, node) == exprs[i]);
    lemma_inputs_below_node(exprs, node);
    assert(in_arena(exprs, at(exprs, node).inputs()[j]));
}

/// An arena is well formed if its expressions can be numbered so that every operand is there and has
/// a smaller number than what it is an operand of.
pub proof fn law_numbered_is_well_formed(exprs: Seq<AExpr>, numbers: Seq<nat>)
    requires
        numbers.len() == exprs.len(),
        forall|i: int| 0 <= i < exprs.len() ==> #[trigger] numbers[i] < exprs.len(),
        forall|i: int, j: int|
            0 <= i < exprs.len() && 0 <= j < exprs[i].inputs().len() ==> {
                &&& (#[trigger] exprs[i].inputs()[j]).0 < exprs.len()
                &&& numbers[exprs[i].inputs()[j].0 as int] < numbers[i]
            },
    ensures
        well_formed(exprs),
{
    assert(topological(exprs, numbers));
}

/// A walk through the whole goes on to all operands, one through what is projected to those that
/// are projected, and one outside windows to these but for those of a window.
pub proof fn law_walk_goes_on(exprs: Seq<AExpr>, expr: AExpr)
    ensures
        Walk::Whole.inputs(exprs, expr) == expr.inputs(),
        Walk::Projected.inputs(exprs, expr) == projected_inputs(exprs, expr),
        expr is Window ==> Walk::OutsideWindows.inputs(exprs, expr).len() == 0,
        !(expr is Window) ==> Walk::OutsideWindows.inputs(exprs, expr) == projected_inputs(
            exprs,
            expr,
        ),
{
}

/// A walk meets the expression that it starts from, and then what the walks from its operands meet,
/// the leftmost operand first.
pub proof fn law_walk_order(exprs: Seq<AExpr>, walk: Walk, node: Node)
    requires
        well_formed(exprs),
        in_arena(exprs, node),
    ensures
        subtree(exprs, walk, node) == seq![node] + walk.inputs(
            exprs,
            at(exprs, node),
        ).reverse().map_values(|operand: Node| subtree(exprs, walk, operand)).flatten(),
{
    let inputs = walk.inputs(exprs, at(exprs, node));
    lemma_subtree(exprs, walk, node);
    lemma_walk_inputs_in_arena(exprs, walk, node);
    lemma_pending_flat(exprs, walk, inputs);
}

/// The operands that a walk goes on to are in the arena.
proof fn lemma_walk_inputs_in_arena(exprs: Seq<AExpr>, walk: Walk, node: Node)
    requires
        well_formed(exprs),
        in_arena(exprs, node),
    ensures
        all_in_arena(exprs, walk.inputs(exprs, at(exprs, node))),
{
    let inputs = walk.inputs(exprs, at(exprs, node));
    assert(all_in_arena(exprs, inputs)) by {
        lemma_pending_pop(exprs, walk, seq![node]);
        assert(seq![node].last() == node);
        assert(seq![node].drop_last() + inputs =~= inputs);
    }
}

/// What is still to come with a stack is what its nodes are made of, the last one first.
proof fn lemma_pending_flat(exprs: Seq<AExpr>, walk: Walk, stack: Seq<Node>)
    requires
        well_formed(exprs),
        all_in_arena(exprs, stack),
    ensures
        pending(exprs, walk, stack) == stack.reverse().map_values(
            |operand: Node| subtree(exprs, walk, operand),
        ).flatten(),
    decreases stack.len(),
{
    let f = |operand: Node| subtree(exprs, walk, operand);
    let parts = stack.reverse().map_values(f);
    if stack.len() > 0 {
        let top = stack.last();
        let rest = stack.drop_last();
        assert(stack[stack.len() - 1] == top);
        assert(rest + seq![top] =~= stack);
        assert forall|i: int| 0 <= i < rest.len() implies in_arena(exprs, #[trigger] rest[i]) by {
            assert(rest[i] == stack[i]);
        }
        lemma_pending_add(exprs, walk, rest, seq![top]);
        lemma_pending_one(exprs, walk, top);
        lemma_pending_flat(exprs, walk, rest);
        assert(parts.first() == subtree(exprs, walk, top));
        assert(parts.drop_first() =~= rest.reverse().map_values(f));
    }
}

/// What an expression is made of is the expression itself and what its operands are made of, and
/// nothing else.
pub proof fn law_walk_members(exprs: Seq<AExpr>, walk: Walk, node: Node, n: Node)
    requires
        well_formed(exprs),
        in_arena(exprs, node),
    ensures
        subtree(exprs, walk, node).contains(n) <==> (n == node || exists|i: int|
            0 <= i < walk.inputs(exprs, at(exprs, node)).len() && subtree(
                exprs,
                walk,
                #[trigger] walk.inputs(exprs, at(exprs, node))[i],
            ).contains(n)),
{
    lemma_subtree_in_arena(exprs, walk, node);
    let inputs = walk.inputs(exprs, at(exprs, node));
    if subtree(exprs, walk, node).contains(n) {
        lemma_subtree_parts(exprs, walk, node, n);
    }
    if exists|i: int|
        0 <= i < inputs.len() && subtree(exprs, walk, #[trigger] inputs[i]).contains(n) {
        let i = choose|i: int|
            0 <= i < inputs.len() && subtree(exprs, walk, #[trigger] inputs[i]).contains(n);
        lemma_subtree_of_input(exprs, walk, node, i, n);
    }
}

/// A column reads itself. Anything else reads what its operands read, from left to right, each
/// column as often as it is read.
pub proof fn law_leaf_names_by_operands(exprs: Seq<AExpr>, node: Node)
    requires
        well_formed(exprs),
        in_arena(exprs, node),
    ensures
        match at(exprs, node) {
            AExpr::Column(name) => leaf_names(exprs, node) == seq![name@],
            expr => leaf_names(exprs, node) == expr.inputs().reverse().map_values(
                |operand: Node| leaf_names(exprs, operand),
            ).flatten(),
        },
{
    let inputs = at(exprs, node).inputs();
    lemma_subtree(exprs, Walk::Whole, node);
    lemma_operands_in_arena(exprs, node);
    lemma_column_names_add(exprs, seq![node], pending(exprs, Walk::Whole, inputs));
    reveal_with_fuel(column_names, 2);
    assert(seq![node].last() == node);
    assert(seq![node].drop_last() =~= seq![]);
    lemma_names_flat(exprs, inputs);
    match at(exprs, node) {
        AExpr::Column(name) => {
            assert(column_names(exprs, seq![node]) =~= seq![name@]);
            assert(inputs.reverse().map_values(|operand: Node| leaf_names(exprs, operand))
                =~= seq![]);
            assert(leaf_names(exprs, node) =~= seq![name@]);
        },
        _ => {
            assert(column_names(exprs, seq![node]) =~= seq![]);
            assert(leaf_names(exprs, node) =~= column_names(
                exprs,
                pending(exprs, Walk::Whole, inputs),
            ));
        },
    }
}

/// The columns that are still to come with a stack are those that its nodes read, the last one
/// first.
proof fn lemma_names_flat(exprs: Seq<AExpr>, stack: Seq<Node>)
    requires
        well_formed(exprs),
        all_in_arena(exprs, stack),
    ensures
        column_names(exprs, pending(exprs, Walk::Whole, stack)) == stack.reverse().map_values(
            |operand: Node| leaf_names(exprs, operand),
        ).flatten(),
    decreases stack.len(),
{
    let f = |operand: Node| leaf_names(exprs, operand);
    let parts = stack.reverse().map_values(f);
    if stack.len() > 0 {
        let top = stack.last();
        let rest = stack.drop_last();
        assert(stack[stack.len() - 1] == top);
        assert(rest + seq![top] =~= stack);
        assert forall|i: int| 0 <= i < rest.len() implies in_arena(exprs, #[trigger] rest[i]) by {
            assert(rest[i] == stack[i]);
        }
        lemma_pending_add(exprs, Walk::Whole, rest, seq![top]);
        lemma_pending_one(exprs, Walk::Whole, top);
        lemma_column_names_add(
            exprs,
            subtree(exprs, Walk::Whole, top),
            pending(exprs, Walk::Whole, rest),
        );
        lemma_names_flat(exprs, rest);
        assert(parts.first() == leaf_names(exprs, top));
        assert(parts.drop_first() =~= rest.reverse().map_values(f));
    }
}

/// An expression shifts exactly if it is a shift or one of its operands shifts.
pub proof fn law_shifts_by_operands(exprs: Seq<AExpr>, node: Node)
    requires
        well_formed(exprs),
        in_arena(exprs, node),
    ensures
        has_shift(exprs, node) <==> ((at(exprs, node) matches AExpr::Function { function, .. } && (
        function == FunctionExpr::Shift || function == FunctionExpr::ShiftAndFill)) || exists|i: int|
            0 <= i < at(exprs, node).inputs().len() && has_shift(
                exprs,
                #[trigger] at(exprs, node).inputs()[i],
            )),
{
    let property = |expr: AExpr| is_shift(expr);
    lemma_meets_whole(exprs, node, property);
    let inputs = at(exprs, node).inputs();
    assert forall|i: int| 0 <= i < inputs.len() implies has_shift(exprs, #[trigger] inputs[i])
        == meets(exprs, Walk::Whole, inputs[i], property) by {}
    if exists|i: int| 0 <= i < inputs.len() && has_shift(exprs, #[trigger] inputs[i]) {
        let i = choose|i: int| 0 <= i < inputs.len() && has_shift(exprs, #[trigger] inputs[i]);
        assert(meets(exprs, Walk::Whole, inputs[i], property));
    }
}

/// Something is met in an expression exactly if it is the expression itself or met in an operand.
proof fn lemma_meets_whole(exprs: Seq<AExpr>, node: Node, property: spec_fn(AExpr) -> bool)
    requires
        well_formed(exprs),
        in_arena(exprs, node),
    ensures
        meets(exprs, Walk::Whole, node, property) <==> (property(at(exprs, node)) || exists|i: int|
            0 <= i < at(exprs, node).inputs().len() && meets(
                exprs,
                Walk::Whole,
                #[trigger] at(exprs, node).inputs()[i],
                property,
            )),
{
    lemma_meets(exprs, Walk::Whole, node, property);
    let inputs = at(exprs, node).inputs();
    assert(Walk::Whole.inputs(exprs, at(exprs, node)) == inputs);
    if meets(exprs, Walk::Whole, node, property) && !property(at(exprs, node)) {
        let i = choose|i: int|
            0 <= i < Walk::Whole.inputs(exprs, at(exprs, node)).len() && meets(
                exprs,
                Walk::Whole,
                #[trigger] Walk::Whole.inputs(exprs, at(exprs, node))[i],
                property,
            );
        assert(meets(exprs, Walk::Whole, inputs[i], property));
    }
    if exists|i: int|
        0 <= i < inputs.len() && meets(exprs, Walk::Whole, #[trigger] inputs[i], property) {
        let i = choose|i: int|
            0 <= i < inputs.len() && meets(exprs, Walk::Whole, #[trigger] inputs[i], property);
        assert(meets(
            exprs,
            Walk::Whole,
            Walk::Whole.inputs(exprs, at(exprs, node))[i],
            property,
        ));
    }
}

/// A predicate is a sort boundary exactly if it depends on the order of rows itself, or one of its
/// operands is a sort boundary.
pub proof fn law_sort_boundary_by_operands(exprs: Seq<AExpr>, node: Node)
    requires
        well_formed(exprs),
        in_arena(exprs, node),
    ensures
        is_sort_boundary(exprs, node) <==> (depends_on_order(exprs, at(exprs, node)) || exists|
            i: int,
        |
            0 <= i < at(exprs, node).inputs().len() && is_sort_boundary(
                exprs,
                #[trigger] at(exprs, node).inputs()[i],
            )),
{
    let property = |expr: AExpr| depends_on_order(exprs, expr);
    lemma_meets_whole(exprs, node, property);
    let inputs = at(exprs, node).inputs();
    assert forall|i: int| 0 <= i < inputs.len() implies is_sort_boundary(
        exprs,
        #[trigger] inputs[i],
    ) == meets(exprs, Walk::Whole, inputs[i], property) by {}
    if exists|i: int| 0 <= i < inputs.len() && is_sort_boundary(exprs, #[trigger] inputs[i]) {
        let i = choose|i: int|
            0 <= i < inputs.len() && is_sort_boundary(exprs, #[trigger] inputs[i]);
        assert(meets(exprs, Walk::Whole, inputs[i], property));
    }
}

/// A projection keeps values exactly if it is a column, or an alias of something that keeps values.
pub proof fn law_keeps_values_by_operands(exprs: Seq<AExpr>, node: Node)
    requires
        well_formed(exprs),
        in_arena(exprs, node),
    ensures
        match at(exprs, node) {
            AExpr::Column(_) => keeps_values(exprs, node),
            AExpr::Alias(inner, _) => keeps_values(exprs, node) <==> keeps_values(exprs, inner),
            _ => !keeps_values(exprs, node),
        },
{
    let property = |expr: AExpr| !is_column_or_alias(expr);
    lemma_meets_whole(exprs, node, property);
    match at(exprs, node) {
        AExpr::Alias(inner, _) => {
            assert(at(exprs, node).inputs()[0] == inner);
            assert(keeps_values(exprs, inner) == !meets(exprs, Walk::Whole, inner, property));
            if meets(exprs, Walk::Whole, inner, property) {
                assert(meets(exprs, Walk::Whole, at(exprs, node).inputs()[0], property));
            }
        },
        _ => {},
    }
}

/// A projection modifies columns exactly if it explodes or chooses between values itself, or one of
/// its operands does, however deep that is.
pub proof fn law_modifies_by_operands(exprs: Seq<AExpr>, node: Node)
    requires
        well_formed(exprs),
        in_arena(exprs, node),
    ensures
        modifies_columns(exprs, node) <==> (at(exprs, node) is Explode || at(exprs, node) is Ternary
            || exists|i: int|
            0 <= i < at(exprs, node).inputs().len() && modifies_columns(
                exprs,
                #[trigger] at(exprs, node).inputs()[i],
            )),
{
    let property = |expr: AExpr| is_column_modification(expr);
    lemma_meets_whole(exprs, node, property);
    let inputs = at(exprs, node).inputs();
    assert forall|i: int| 0 <= i < inputs.len() implies modifies_columns(
        exprs,
        #[trigger] inputs[i],
    ) == meets(exprs, Walk::Whole, inputs[i], property) by {}
    if exists|i: int| 0 <= i < inputs.len() && modifies_columns(exprs, #[trigger] inputs[i]) {
        let i = choose|i: int|
            0 <= i < inputs.len() && modifies_columns(exprs, #[trigger] inputs[i]);
        assert(meets(exprs, Walk::Whole, inputs[i], property));
    }
}

/// An expression that has an explode or a ternary anywhere in it modifies columns, and no other
/// does.
pub proof fn law_modifies_wherever_it_is(exprs: Seq<AExpr>, node: Node)
    ensures
        modifies_columns(exprs, node) <==> exists|n: Node| #[trigger]
            subtree(exprs, Walk::Whole, node).contains(n) && (at(exprs, n) is Explode || at(
                exprs,
                n,
            ) is Ternary),
{
    if modifies_columns(exprs, node) {
        let n = choose|n: Node| #[trigger]
            subtree(exprs, Walk::Whole, node).contains(n) && is_column_modification(at(exprs, n));
        assert(subtree(exprs, Walk::Whole, node).contains(n));
    }
    if exists|n: Node| #[trigger]
        subtree(exprs, Walk::Whole, node).contains(n) && (at(exprs, n) is Explode || at(exprs, n)
            is Ternary) {
        let n = choose|n: Node| #[trigger]
            subtree(exprs, Walk::Whole, node).contains(n) && (at(exprs, n) is Explode || at(
                exprs,
                n,
            ) is Ternary);
        let property = |expr: AExpr| is_column_modification(expr);
        assert(property(at(exprs, n)));
    }
}

/// A search through an expression, for what a test that always says the same of an expression says
/// yes of, finds something exactly if the test says yes of the expression itself, or the search
/// through one of its operands finds something.
pub proof fn law_search_by_operands<F: Fn(&AExpr) -> bool>(
    exprs: Seq<AExpr>,
    node: Node,
    matches: F,
    property: spec_fn(AExpr) -> bool,
    found: bool,
)
    requires
        well_formed(exprs),
        in_arena(exprs, node),
        finds(exprs, node, matches, found),
        forall|expr: AExpr, answer: bool| #[trigger]
            call_ensures(matches, (&expr,), answer) ==> answer == property(expr),
    ensures
        found <==> exists|n: Node| #[trigger]
            subtree(exprs, Walk::Whole, node).contains(n) && property(at(exprs, n)),
        property(at(exprs, node)) ==> found,
        forall|i: int|
            0 <= i < at(exprs, node).inputs().len() && finds(
                exprs,
                #[trigger] at(exprs, node).inputs()[i],
                matches,
                true,
            ) ==> found,
{
    lemma_subtree_in_arena(exprs, Walk::Whole, node);
    if found {
        let n = choose|n: Node| #[trigger]
            subtree(exprs, Walk::Whole, node).contains(n) && call_ensures(
                matches,
                (&at(exprs, n),),
                true,
            );
        assert(property(at(exprs, n)));
    }
    let all = subtree(exprs, Walk::Whole, node);
    assert forall|n: Node| #[trigger] all.contains(n) && property(at(exprs, n)) implies found by {
        if !found {
            assert(call_ensures(matches, (&at(exprs, n),), false));
        }
    }
    assert(all.contains(node));
    assert forall|i: int|
        0 <= i < at(exprs, node).inputs().len() && finds(
            exprs,
            #[trigger] at(exprs, node).inputs()[i],
            matches,
            true,
        ) implies found by {
        let input = at(exprs, node).inputs()[i];
        let n = choose|n: Node| #[trigger]
            subtree(exprs, Walk::Whole, input).contains(n) && call_ensures(
                matches,
                (&at(exprs, n),),
                true,
            );
        assert(Walk::Whole.inputs(exprs, at(exprs, node))[i] == input);
        lemma_subtree_of_input(exprs, Walk::Whole, node, i, n);
        assert(property(at(exprs, n)));
    }
}

/// An expression reads only certain columns exactly if each column that it reads is one of them.
pub proof fn law_reads_only(exprs: Seq<AExpr>, node: Node, columns: Seq<Seq<char>>)
    ensures
        reads_only(exprs, node, columns) <==> forall|column: Seq<char>| #[trigger]
            leaf_names(exprs, node).contains(column) ==> columns.contains(column),
{
    let names = leaf_names(exprs, node);
    if reads_only(exprs, node, columns) {
        assert forall|column: Seq<char>| #[trigger] names.contains(column) implies columns.contains(
            column,
        ) by {
            let i = choose|i: int| 0 <= i < names.len() && names[i] == column;
            assert(columns.contains(leaf_names(exprs, node)[i]));
        }
    }
    if forall|column: Seq<char>| #[trigger] names.contains(column) ==> columns.contains(column) {
        assert forall|i: int| 0 <= i < names.len() implies columns.contains(#[trigger] names[i]) by {
            assert(names.contains(names[i]));
        }
    }
}

/// The predicates that read one of certain columns are those that share a column with them.
pub proof fn law_reading(
    exprs: Seq<AExpr>,
    acc: Map<Seq<char>, Node>,
    columns: Seq<Seq<char>>,
    key: Seq<char>,
)
    ensures
        reading(exprs, acc, columns).contains(key) <==> exists|column: Seq<char>| #[trigger]
            columns.contains(column) && leaf_names(exprs, acc[key]).contains(column),
{
    let names = leaf_names(exprs, acc[key]);
    if reading(exprs, acc, columns).contains(key) {
        let i = choose|i: int| 0 <= i < names.len() && columns.contains(#[trigger] names[i]);
        assert(columns.contains(names[i]) && names.contains(names[i]));
    }
    if exists|column: Seq<char>| #[trigger] columns.contains(column) && names.contains(column) {
        let column = choose|column: Seq<char>| #[trigger]
            columns.contains(column) && names.contains(column);
        let i = choose|i: int| 0 <= i < names.len() && names[i] == column;
        assert(columns.contains(names[i]));
    }
}

/// An arena that grows keeps every expression where it is. Predicates and nodes are in an arena
/// exactly if each of them is.
pub proof fn law_growing_keeps(
    before: Seq<AExpr>,
    after: Seq<AExpr>,
    nodes: Seq<Node>,
    acc: Map<Seq<char>, Node>,
)
    ensures
        grows(before, after) <==> before.len() <= after.len() && after.take(before.len() as int)
            == before,
        all_in_arena(before, nodes) <==> forall|i: int|
            0 <= i < nodes.len() ==> (#[trigger] nodes[i]).0 < before.len(),
        acc_in_arena(before, acc) <==> forall|key: Seq<char>| #[trigger]
            acc.contains_key(key) ==> acc[key].0 < before.len(),
{
    if before.len() <= after.len() && after.take(before.len() as int) == before {
        assert forall|i: int| 0 <= i < before.len() implies #[trigger] after[i] == before[i] by {
            assert(after.take(before.len() as int)[i] == after[i]);
        }
    }
    if grows(before, after) {
        assert(after.take(before.len() as int) =~= before);
    }
    if all_in_arena(before, nodes) {
        assert forall|i: int| 0 <= i < nodes.len() implies (#[trigger] nodes[i]).0
            < before.len() by {
            assert(in_arena(before, nodes[i]));
        }
    }
}

/// A renamed copy of a column is the column of the new name. One of anything else is the same
/// operation on operands that are renamed copies, one by one.
pub proof fn law_renamed_copy_by_operands(
    exprs: Seq<AExpr>,
    node: Node,
    copy: Node,
    name: Seq<char>,
)
    requires
        well_formed(exprs),
        in_arena(exprs, node),
    ensures
        renamed_copy(exprs, node, copy, name) <==> match at(exprs, node) {
            AExpr::Column(_) => at(exprs, copy) matches AExpr::Column(new) && new@ == name,
            expr => {
                &&& same_operation(expr, at(exprs, copy))
                &&& expr.inputs().len() == at(exprs, copy).inputs().len()
                &&& forall|i: int|
                    0 <= i < expr.inputs().len() ==> renamed_copy(
                        exprs,
                        #[trigger] expr.inputs()[i],
                        at(exprs, copy).inputs()[i],
                        name,
                    )
            },
        },
{
    lemma_inputs_below_node(exprs, node);
}

/// An expression is fresh exactly if it stands behind what was there, and so do its operands,
/// however deep.
pub proof fn law_fresh_by_operands(exprs: Seq<AExpr>, node: Node, size: nat)
    requires
        well_formed(exprs),
        in_arena(exprs, node),
    ensures
        fresh(exprs, node, size) <==> node.0 >= size && forall|i: int|
            0 <= i < at(exprs, node).inputs().len() ==> fresh(
                exprs,
                #[trigger] at(exprs, node).inputs()[i],
                size,
            ),
{
    let inputs = at(exprs, node).inputs();
    lemma_subtree_in_arena(exprs, Walk::Whole, node);
    assert(Walk::Whole.inputs(exprs, at(exprs, node)) == inputs);
    if fresh(exprs, node, size) {
        assert forall|i: int| 0 <= i < inputs.len() implies fresh(
            exprs,
            #[trigger] inputs[i],
            size,
        ) by {
            assert forall|n: Node| #[trigger]
                subtree(exprs, Walk::Whole, inputs[i]).contains(n) implies n.0 >= size by {
                lemma_subtree_of_input(exprs, Walk::Whole, node, i, n);
            }
        }
    }
    if node.0 >= size && forall|i: int|
        0 <= i < inputs.len() ==> fresh(exprs, #[trigger] inputs[i], size) {
        assert forall|n: Node| #[trigger]
            subtree(exprs, Walk::Whole, node).contains(n) implies n.0 >= size by {
            lemma_subtree_parts(exprs, Walk::Whole, node, n);
            if n != node {
                let i = choose|i: int|
                    0 <= i < Walk::Whole.inputs(exprs, at(exprs, node)).len() && subtree(
                        exprs,
                        Walk::Whole,
                        #[trigger] Walk::Whole.inputs(exprs, at(exprs, node))[i],
                    ).contains(n);
                assert(fresh(exprs, inputs[i], size));
            }
        }
    }
}

/// What a walk meets behind its start is an operand, to which it goes on, of something that it
/// meets; and all such operands are met.
pub proof fn law_walk_is_closed(exprs: Seq<AExpr>, walk: Walk, node: Node, n: Node)
    requires
        well_formed(exprs),
        in_arena(exprs, node),
    ensures
        subtree(exprs, walk, node).contains(n) <==> (n == node || exists|m: Node| #[trigger]
            subtree(exprs, walk, node).contains(m) && walk.inputs(exprs, at(exprs, m)).contains(n)),
{
    lemma_subtree_in_arena(exprs, walk, node);
    if subtree(exprs, walk, node).contains(n) && n != node {
        lemma_has_parent(exprs, walk, node, n);
    }
    if exists|m: Node| #[trigger]
        subtree(exprs, walk, node).contains(m) && walk.inputs(exprs, at(exprs, m)).contains(n) {
        let m = choose|m: Node| #[trigger]
            subtree(exprs, walk, node).contains(m) && walk.inputs(exprs, at(exprs, m)).contains(n);
        lemma_has_operands(exprs, walk, node, m, n);
    }
}

/// What a walk meets behind its start is an operand of something that it meets.
proof fn lemma_has_parent(exprs: Seq<AExpr>, walk: Walk, node: Node, n: Node)
    requires
        well_formed(exprs),
        in_arena(exprs, node),
        subtree(exprs, walk, node).contains(n),
        n != node,
    ensures
        exists|m: Node| #[trigger]
            subtree(exprs, walk, node).contains(m) && walk.inputs(exprs, at(exprs, m)).contains(n),
    decreases depth(exprs, node),
{
    let inputs = walk.inputs(exprs, at(exprs, node));
    lemma_subtree_in_arena(exprs, walk, node);
    lemma_walk_inputs_below(exprs, walk, node);
    lemma_subtree_parts(exprs, walk, node, n);
    let i = choose|i: int|
        0 <= i < inputs.len() && subtree(exprs, walk, #[trigger] inputs[i]).contains(n);
    if n == inputs[i] {
        assert(inputs.contains(n));
        assert(subtree(exprs, walk, node).contains(node));
    } else {
        lemma_has_parent(exprs, walk, inputs[i], n);
        let m = choose|m: Node| #[trigger]
            subtree(exprs, walk, inputs[i]).contains(m) && walk.inputs(
                exprs,
                at(exprs, m),
            ).contains(n);
        lemma_subtree_of_input(exprs, walk, node, i, m);
    }
}

/// A walk meets the operands, to which it goes on, of what it meets.
proof fn lemma_has_operands(exprs: Seq<AExpr>, walk: Walk, node: Node, m: Node, n: Node)
    requires
        well_formed(exprs),
        in_arena(exprs, node),
        subtree(exprs, walk, node).contains(m),
        walk.inputs(exprs, at(exprs, m)).contains(n),
    ensures
        subtree(exprs, walk, node).contains(n),
    decreases depth(exprs, node),
{
    let inputs = walk.inputs(exprs, at(exprs, node));
    lemma_walk_inputs_below(exprs, walk, node);
    if m == node {
        let i = choose|i: int| 0 <= i < inputs.len() && inputs[i] == n;
        assert(in_arena(exprs, inputs[i]));
        lemma_subtree_in_arena(exprs, walk, n);
        lemma_subtree_of_input(exprs, walk, node, i, n);
    } else {
        lemma_subtree_parts(exprs, walk, node, m);
        let i = choose|i: int|
            0 <= i < inputs.len() && subtree(exprs, walk, #[trigger] inputs[i]).contains(m);
        lemma_has_operands(exprs, walk, inputs[i], m, n);
        lemma_subtree_of_input(exprs, walk, node, i, n);
    }
}

/// The operands that a walk goes on to are in the arena, below the expression.
proof fn lemma_walk_inputs_below(exprs: Seq<AExpr>, walk: Walk, node: Node)
    requires
        well_formed(exprs),
        in_arena(exprs, node),
    ensures
        forall|i: int|
            0 <= i < walk.inputs(exprs, at(exprs, node)).len() ==> {
                &&& in_arena(exprs, #[trigger] walk.inputs(exprs, at(exprs, node))[i])
                &&& depth(exprs, walk.inputs(exprs, at(exprs, node))[i]) < depth(exprs, node)
            },
{
    lemma_inputs_below_node(exprs, node);
    lemma_projected_inputs_below(exprs, node);
}

} // verus!
