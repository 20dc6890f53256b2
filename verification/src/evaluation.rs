//! What an expression says of one row, and why a predicate can be renamed.

use vstd::prelude::*;

use crate::aexpr::{same_operation, AExpr};
use crate::arena::{at, in_arena, Node};
use crate::boundary::{blocks, stops_pushdown};
use crate::pushdown_laws::law_blocks_by_operands;
use crate::rename::renamed_copy;
use crate::traversal::{
    depth, is_in_literal, leaf_names, lemma_column_names_contains, lemma_inputs_below_node,
    lemma_operands_in_arena, lemma_projected_inputs_below, lemma_subtree_in_arena,
    lemma_subtree_of_input, projected_inputs, subtree, well_formed, Walk,
};

verus! {

/// The value of the expression at `node` in a row: that of the row for a column, and for any other
/// operation what `apply` makes of the values of the operands.
pub open spec fn value<V>(
    exprs: Seq<AExpr>,
    apply: spec_fn(AExpr, Seq<V>) -> V,
    row: spec_fn(Seq<char>) -> V,
    node: Node,
) -> V
    decreases depth(exprs, node), 1nat,
{
    match at(exprs, node) {
        AExpr::Column(name) => row(name@),
        expr => apply(expr, operand_values(exprs, apply, row, node)),
    }
}

/// The values of the operands of the expression at `node` in a row.
pub open spec fn operand_values<V>(
    exprs: Seq<AExpr>,
    apply: spec_fn(AExpr, Seq<V>) -> V,
    row: spec_fn(Seq<char>) -> V,
    node: Node,
) -> Seq<V>
    decreases depth(exprs, node), 0nat,
{
    let inputs = at(exprs, node).inputs();
    Seq::new(
        inputs.len(),
        |i: int|
            if depth(exprs, inputs[i]) < depth(exprs, node) {
                value(exprs, apply, row, inputs[i])
            } else {
                arbitrary()
            },
    )
}

/// Whether `apply` goes by the operation and the values of its operands, not by where these stand.
pub open spec fn goes_by_operation<V>(apply: spec_fn(AExpr, Seq<V>) -> V) -> bool {
    forall|a: AExpr, b: AExpr, operands: Seq<V>|
        #![trigger apply(a, operands), apply(b, operands)]
        same_operation(a, b) && operands.len() == a.inputs().len() ==> apply(a, operands) == apply(
            b,
            operands,
        )
}

/// A predicate that is renamed to the column behind an alias says of a row of the input what the
/// predicate says of the row that the projection makes of it: its value stays the same if all
/// columns that the predicate reads have, in the output row, the value of the column `name` in the
/// input row.
pub proof fn law_renamed_copy_says_the_same<V>(
    exprs: Seq<AExpr>,
    node: Node,
    copy: Node,
    name: Seq<char>,
    apply: spec_fn(AExpr, Seq<V>) -> V,
    output_row: spec_fn(Seq<char>) -> V,
    input_row: spec_fn(Seq<char>) -> V,
)
    requires
        well_formed(exprs),
        in_arena(exprs, node),
        in_arena(exprs, copy),
        renamed_copy(exprs, node, copy, name),
        goes_by_operation(apply),
        forall|column: Seq<char>| #[trigger]
            leaf_names(exprs, node).contains(column) ==> output_row(column) == input_row(name),
    ensures
        value(exprs, apply, input_row, copy) == value(exprs, apply, output_row, node),
    decreases depth(exprs, node),
{
    let expr = at(exprs, node);
    let inputs = expr.inputs();
    let copies = at(exprs, copy).inputs();
    let all = subtree(exprs, Walk::Whole, node);
    lemma_subtree_in_arena(exprs, Walk::Whole, node);
    match expr {
        AExpr::Column(column) => {
            lemma_column_names_contains(exprs, all, column@);
            let i = choose|i: int| 0 <= i < all.len() && all[i] == node;
            assert(at(exprs, all[i]) == expr);
            assert(leaf_names(exprs, node).contains(column@));
        },
        _ => {
            lemma_inputs_below_node(exprs, node);
            lemma_inputs_below_node(exprs, copy);
            lemma_operands_in_arena(exprs, copy);
            assert forall|i: int| 0 <= i < inputs.len() implies value(
                exprs,
                apply,
                input_row,
                copies[i],
            ) == value(exprs, apply, output_row, #[trigger] inputs[i]) by {
                assert(in_arena(exprs, copies[i]));
                assert forall|column: Seq<char>| #[trigger]
                    leaf_names(exprs, inputs[i]).contains(column) implies output_row(column)
                    == input_row(name) by {
                    lemma_column_of_operand(exprs, node, i, column);
                }
                law_renamed_copy_says_the_same(
                    exprs,
                    inputs[i],
                    copies[i],
                    name,
                    apply,
                    output_row,
                    input_row,
                );
            }
            assert(operand_values(exprs, apply, output_row, node) =~= operand_values(
                exprs,
                apply,
                input_row,
                copy,
            ));
        },
    }
}

/// The value of an expression depends on nothing in the row but the columns that it reads.
pub proof fn law_value_goes_by_columns<V>(
    exprs: Seq<AExpr>,
    apply: spec_fn(AExpr, Seq<V>) -> V,
    row: spec_fn(Seq<char>) -> V,
    other: spec_fn(Seq<char>) -> V,
    node: Node,
)
    requires
        well_formed(exprs),
        in_arena(exprs, node),
        forall|column: Seq<char>| #[trigger]
            leaf_names(exprs, node).contains(column) ==> row(column) == other(column),
    ensures
        value(exprs, apply, row, node) == value(exprs, apply, other, node),
    decreases depth(exprs, node),
{
    let inputs = at(exprs, node).inputs();
    let all = subtree(exprs, Walk::Whole, node);
    lemma_subtree_in_arena(exprs, Walk::Whole, node);
    match at(exprs, node) {
        AExpr::Column(column) => {
            lemma_column_names_contains(exprs, all, column@);
            let i = choose|i: int| 0 <= i < all.len() && all[i] == node;
            assert(at(exprs, all[i]) == at(exprs, node));
            assert(leaf_names(exprs, node).contains(column@));
        },
        _ => {
            lemma_inputs_below_node(exprs, node);
            assert forall|i: int| 0 <= i < inputs.len() implies value(
                exprs,
                apply,
                row,
                #[trigger] inputs[i],
            ) == value(exprs, apply, other, inputs[i]) by {
                assert forall|column: Seq<char>| #[trigger]
                    leaf_names(exprs, inputs[i]).contains(column) implies row(column) == other(
                    column,
                ) by {
                    lemma_column_of_operand(exprs, node, i, column);
                }
                law_value_goes_by_columns(exprs, apply, row, other, inputs[i]);
            }
            assert(operand_values(exprs, apply, row, node) =~= operand_values(
                exprs,
                apply,
                other,
                node,
            ));
        },
    }
}

/// An expression reads the columns that its operands read.
pub proof fn lemma_column_of_operand(exprs: Seq<AExpr>, node: Node, i: int, column: Seq<char>)
    requires
        well_formed(exprs),
        in_arena(exprs, node),
        0 <= i < at(exprs, node).inputs().len(),
        leaf_names(exprs, at(exprs, node).inputs()[i]).contains(column),
    ensures
        leaf_names(exprs, node).contains(column),
{
    let input = at(exprs, node).inputs()[i];
    let part = subtree(exprs, Walk::Whole, input);
    let all = subtree(exprs, Walk::Whole, node);
    lemma_column_names_contains(exprs, part, column);
    lemma_column_names_contains(exprs, all, column);
    let j = choose|j: int|
        0 <= j < part.len() && (at(exprs, #[trigger] part[j]) matches AExpr::Column(c) && c@
            == column);
    assert(part.contains(part[j]));
    lemma_subtree_of_input(exprs, Walk::Whole, node, i, part[j]);
    let k = choose|k: int| 0 <= k < all.len() && all[k] == part[j];
    assert(at(exprs, all[k]) == at(exprs, part[j]));
}

/// The values that `column` has in `rows`.
pub open spec fn picked<V>(column: Seq<V>, rows: Seq<int>) -> Seq<V> {
    Seq::new(rows.len(), |i: int| column[rows[i]])
}

/// The literal on the right-hand side of `expr`, if it is an `is_in` with one.
pub open spec fn literal_beside(exprs: Seq<AExpr>, expr: AExpr) -> Option<AExpr> {
    match is_in_literal(exprs, expr) {
        Some(rhs) => Some(at(exprs, rhs)),
        None => None,
    }
}

/// The column that the expression at `node` makes of a table with `height` rows: that of the table
/// for a column, and for any other operation what `apply` makes of the columns of the operands
/// that are projected.
pub open spec fn column_of<V>(
    exprs: Seq<AExpr>,
    apply: spec_fn(AExpr, Option<AExpr>, nat, Seq<Seq<V>>) -> Seq<V>,
    table: spec_fn(Seq<char>) -> Seq<V>,
    height: nat,
    node: Node,
) -> Seq<V>
    decreases depth(exprs, node), 1nat,
{
    match at(exprs, node) {
        AExpr::Column(name) => table(name@),
        expr => apply(
            expr,
            literal_beside(exprs, expr),
            height,
            operand_columns(exprs, apply, table, height, node),
        ),
    }
}

/// The columns of the operands, of the expression at `node`, that are projected.
pub open spec fn operand_columns<V>(
    exprs: Seq<AExpr>,
    apply: spec_fn(AExpr, Option<AExpr>, nat, Seq<Seq<V>>) -> Seq<V>,
    table: spec_fn(Seq<char>) -> Seq<V>,
    height: nat,
    node: Node,
) -> Seq<Seq<V>>
    decreases depth(exprs, node), 0nat,
{
    let inputs = projected_inputs(exprs, at(exprs, node));
    Seq::new(
        inputs.len(),
        |i: int|
            if depth(exprs, inputs[i]) < depth(exprs, node) {
                column_of(exprs, apply, table, height, inputs[i])
            } else {
                arbitrary()
            },
    )
}

/// Whether `expr` gives the same for `rows` of its operands as it gives in these rows for the
/// operands as a whole.
pub open spec fn same_in_rows<V>(
    apply: spec_fn(AExpr, Option<AExpr>, nat, Seq<Seq<V>>) -> Seq<V>,
    expr: AExpr,
    literal: Option<AExpr>,
    height: nat,
    rows: Seq<int>,
    operands: Seq<Seq<V>>,
) -> bool {
    apply(
        expr,
        literal,
        rows.len(),
        operands.map_values(|column: Seq<V>| picked(column, rows)),
    ) == picked(apply(expr, literal, height, operands), rows)
}

/// If an expression does not block predicates, it makes no difference whether a table is filtered
/// first or last: what the expression gives for the rows that are kept is what it gives in these
/// rows for the whole table. This rests on what the operations are: those in the expression, which
/// do not stop predicates, have to go row by row on the columns that they are applied to.
pub proof fn law_unblocked_can_be_filtered_first<V>(
    exprs: Seq<AExpr>,
    apply: spec_fn(AExpr, Option<AExpr>, nat, Seq<Seq<V>>) -> Seq<V>,
    table: spec_fn(Seq<char>) -> Seq<V>,
    height: nat,
    rows: Seq<int>,
    node: Node,
)
    requires
        well_formed(exprs),
        in_arena(exprs, node),
        !blocks(exprs, node),
        forall|n: Node| #[trigger]
            subtree(exprs, Walk::Projected, node).contains(n) && !stops_pushdown(at(exprs, n)) && !(
            at(exprs, n) is Column) ==> same_in_rows(
                apply,
                at(exprs, n),
                literal_beside(exprs, at(exprs, n)),
                height,
                rows,
                operand_columns(exprs, apply, table, height, n),
            ),
    ensures
        column_of(
            exprs,
            apply,
            |name: Seq<char>| picked(table(name), rows),
            rows.len(),
            node,
        ) == picked(column_of(exprs, apply, table, height, node), rows),
    decreases depth(exprs, node),
{
    let expr = at(exprs, node);
    let filtered = |name: Seq<char>| picked(table(name), rows);
    match expr {
        AExpr::Column(_) => {},
        _ => {
            let inputs = projected_inputs(exprs, expr);
            let literal = literal_beside(exprs, expr);
            let whole = operand_columns(exprs, apply, table, height, node);
            let part = operand_columns(exprs, apply, filtered, rows.len(), node);
            law_blocks_by_operands(exprs, node);
            lemma_subtree_in_arena(exprs, Walk::Projected, node);
            lemma_projected_inputs_below(exprs, node);
            assert forall|i: int| 0 <= i < inputs.len() implies column_of(
                exprs,
                apply,
                filtered,
                rows.len(),
                #[trigger] inputs[i],
            ) == picked(column_of(exprs, apply, table, height, inputs[i]), rows) by {
                assert(!blocks(exprs, inputs[i]));
                assert forall|n: Node| #[trigger]
                    subtree(exprs, Walk::Projected, inputs[i]).contains(n) && !stops_pushdown(
                        at(exprs, n),
                    ) && !(at(exprs, n) is Column) implies same_in_rows(
                    apply,
                    at(exprs, n),
                    literal_beside(exprs, at(exprs, n)),
                    height,
                    rows,
                    operand_columns(exprs, apply, table, height, n),
                ) by {
                    lemma_subtree_of_input(exprs, Walk::Projected, node, i, n);
                }
                law_unblocked_can_be_filtered_first(exprs, apply, table, height, rows, inputs[i]);
            }
            assert(part =~= whole.map_values(|column: Seq<V>| picked(column, rows)));
            assert(same_in_rows(apply, expr, literal, height, rows, whole));
        },
    }
}

} // verus!
