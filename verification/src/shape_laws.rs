//! What holds of single expressions, by their shape: which operands they have, when two are the
//! same operation, and which of them stop predicates.

use std::sync::Arc;
use vstd::prelude::*;

use crate::aexpr::{
    same_operation, AExpr, ApplyOptions, BooleanFunction, FunctionExpr, LiteralValue, Operator,
    WindowType,
};
use crate::allowed::{all_columns, bars_pushdown, keeps_groups};
use crate::arena::{at, in_arena, Arena, Node};
use crate::boundary::{
    depends_on_order, has_shift, is_column_or_alias, is_shift, right_side_in_arena, stops_pushdown,
};
use crate::collections::{
    lists, names_of, predicates_of, renames_of, PlHashMap, PlHashSet,
};
use crate::combine::and_expr;
use crate::names::texts;
use crate::projection::is_column_modification;
use crate::rename::renames;
use crate::schema::Schema;
use crate::traversal::{is_in_literal, lemma_filter_is_part, projected_inputs};

verus! {

/// What is added to an arena is found where it was put, and what was there before stays where it
/// is. Nothing is in an arena but what was added.
pub proof fn law_added_is_found<T>(items: Seq<T>, value: T, node: Node)
    requires
        items.len() < usize::MAX,
    ensures
        at(items.push(value), Node(items.len() as usize)) == value,
        in_arena(items.push(value), Node(items.len() as usize)),
        in_arena(items, node) ==> at(items.push(value), node) == at(items, node) && node.0
            < items.len(),
        in_arena(items.push(value), node) <==> in_arena(items, node) || node.0 == items.len(),
        !in_arena(Seq::<T>::empty(), node),
{
}

/// An arena holds its items, a schema its columns, and the collections what they are made of.
pub proof fn law_views<T>(
    arena: Arena<T>,
    schema: Schema,
    predicates: PlHashMap<Arc<str>, Node>,
    names: PlHashMap<Arc<str>, Arc<str>>,
    set: PlHashSet<Arc<str>>,
    i: int,
)
    ensures
        arena@ == arena.items@,
        schema@.len() == schema.columns@.len(),
        0 <= i < schema.columns@.len() ==> schema@[i] == schema.columns@[i]@,
        predicates@ == predicates_of(predicates),
        names@ == renames_of(names),
        set@ == names_of(set),
{
}

/// The texts of names are what the names read, one by one.
pub proof fn law_texts(names: Seq<Arc<str>>, i: int)
    ensures
        texts(names).len() == names.len(),
        0 <= i < names.len() ==> texts(names)[i] == names[i]@,
{
}

/// A list of the entries of a map has exactly the keys of the map, each once, with its predicate.
pub proof fn law_entries(
    predicates: Map<Seq<char>, Node>,
    entries: Seq<(Arc<str>, Node)>,
    key: Seq<char>,
)
    requires
        lists(predicates, entries),
    ensures
        predicates.contains_key(key) <==> exists|i: int|
            0 <= i < entries.len() && (#[trigger] entries[i]).0@ == key,
        forall|i: int|
            0 <= i < entries.len() && (#[trigger] entries[i]).0@ == key ==> entries[i].1
                == predicates[key],
        forall|i: int, j: int|
            0 <= i < entries.len() && 0 <= j < entries.len() && (#[trigger] entries[i]).0@ == (
            #[trigger] entries[j]).0@ ==> i == j,
{
    if predicates.contains_key(key) {
        let i = choose|i: int| 0 <= i < entries.len() && (#[trigger] entries[i]).0@ == key;
        assert(entries[i].0@ == key);
    }
    assert forall|i: int, j: int|
        0 <= i < entries.len() && 0 <= j < entries.len() && (#[trigger] entries[i]).0@ == (
        #[trigger] entries[j]).0@ implies i == j by {
        if i < j {
            assert(entries[i].0@ != entries[j].0@);
        }
        if j < i {
            assert(entries[j].0@ != entries[i].0@);
        }
    }
}

/// A literal is projected as one value exactly if it has one value: a scalar always, a series if
/// its length is one, a range if it goes from a number to the next.
pub proof fn law_scalar_literals(value: LiteralValue)
    ensures
        match value {
            LiteralValue::Scalar(_) => value.is_scalar(),
            LiteralValue::Series { len, .. } => value.is_scalar() <==> len == 1,
            LiteralValue::Range { low, high } => value.is_scalar() <==> low + 1 == high,
        },
{
}

/// Every operand of an expression is listed, from right to left, and nothing else.
pub proof fn law_operands(expr: AExpr)
    ensures
        match expr {
            AExpr::Explode(inner) => expr.inputs().len() == 1 && expr.inputs()[0] == inner,
            AExpr::Alias(inner, _) => expr.inputs().len() == 1 && expr.inputs()[0] == inner,
            AExpr::Column(_) => expr.inputs().len() == 0,
            AExpr::Literal(_) => expr.inputs().len() == 0,
            AExpr::BinaryExpr { left, op: _, right } => expr.inputs().len() == 2
                && expr.inputs()[0] == right && expr.inputs()[1] == left,
            AExpr::Cast { expr: inner, .. } => expr.inputs().len() == 1 && expr.inputs()[0]
                == inner,
            AExpr::Sort { expr: inner, .. } => expr.inputs().len() == 1 && expr.inputs()[0]
                == inner,
            AExpr::Gather { expr: inner, idx, .. } => expr.inputs().len() == 2
                && expr.inputs()[0] == idx && expr.inputs()[1] == inner,
            AExpr::SortBy { expr: inner, by, .. } => {
                &&& expr.inputs().len() == by@.len() + 1
                &&& expr.inputs()[by@.len() as int] == inner
                &&& forall|i: int|
                    0 <= i < by@.len() ==> expr.inputs()[by@.len() - 1 - i] == #[trigger] by@[i]
            },
            AExpr::Filter { input, by } => expr.inputs().len() == 2 && expr.inputs()[0] == by
                && expr.inputs()[1] == input,
            AExpr::Agg { input, .. } => expr.inputs().len() == 1 && expr.inputs()[0] == input,
            AExpr::Ternary { predicate, truthy, falsy } => expr.inputs().len() == 3
                && expr.inputs()[0] == predicate && expr.inputs()[1] == falsy && expr.inputs()[2]
                == truthy,
            AExpr::AnonymousFunction { input, .. } => {
                &&& expr.inputs().len() == input@.len()
                &&& forall|i: int|
                    0 <= i < input@.len() ==> expr.inputs()[input@.len() - 1 - i]
                        == #[trigger] input@[i]
            },
            AExpr::Function { input, .. } => {
                &&& expr.inputs().len() == input@.len()
                &&& forall|i: int|
                    0 <= i < input@.len() ==> expr.inputs()[input@.len() - 1 - i]
                        == #[trigger] input@[i]
            },
            AExpr::Window { function, partition_by, .. } => {
                &&& expr.inputs().len() == partition_by@.len() + 1
                &&& expr.inputs()[partition_by@.len() as int] == function
                &&& forall|i: int|
                    0 <= i < partition_by@.len() ==> expr.inputs()[partition_by@.len() - 1 - i]
                        == #[trigger] partition_by@[i]
            },
            AExpr::Slice { input, offset, length } => expr.inputs().len() == 3
                && expr.inputs()[0] == length && expr.inputs()[1] == offset && expr.inputs()[2]
                == input,
            AExpr::Len => expr.inputs().len() == 0,
        },
{
}

/// To be the same operation is an equivalence: every expression is the same operation as itself, and
/// it matters neither which of two is named first nor what stands between them.
pub proof fn law_same_operation_is_equivalence(a: AExpr, b: AExpr, c: AExpr)
    ensures
        same_operation(a, a),
        same_operation(a, b) ==> same_operation(b, a),
        same_operation(a, b) && same_operation(b, c) ==> same_operation(a, c),
{
}

/// Two expressions that are the same operation on the same operands agree in everything: an operator
/// is the same operator, a literal the same literal, a function the same function.
pub proof fn law_same_operation_on_same_operands(a: AExpr, b: AExpr)
    requires
        same_operation(a, b),
        a.inputs() == b.inputs(),
    ensures
        match a {
            AExpr::Explode(x) => b matches AExpr::Explode(y) && x == y,
            AExpr::Alias(x, p) => b matches AExpr::Alias(y, q) && x == y && p == q,
            AExpr::Column(p) => b matches AExpr::Column(q) && p == q,
            AExpr::Literal(p) => b matches AExpr::Literal(q) && p == q,
            AExpr::BinaryExpr { left: x, op: p, right: u } => b matches AExpr::BinaryExpr {
                left: y,
                op: q,
                right: v,
            } && x == y && p == q && u == v,
            AExpr::Cast { expr: x, data_type: p, strict: s } => b matches AExpr::Cast {
                expr: y,
                data_type: q,
                strict: t,
            } && x == y && p == q && s == t,
            AExpr::Sort { expr: x, descending: p } => b matches AExpr::Sort {
                expr: y,
                descending: q,
            } && x == y && p == q,
            AExpr::Gather { expr: x, idx: u, returns_scalar: p } => b matches AExpr::Gather {
                expr: y,
                idx: v,
                returns_scalar: q,
            } && x == y && u == v && p == q,
            AExpr::SortBy { expr: x, by: u, descending: p } => b matches AExpr::SortBy {
                expr: y,
                by: v,
                descending: q,
            } && x == y && u@ == v@ && p == q,
            AExpr::Filter { input: x, by: u } => b matches AExpr::Filter { input: y, by: v } && x
                == y && u == v,
            AExpr::Agg { input: x, kind: p } => b matches AExpr::Agg { input: y, kind: q } && x == y
                && p == q,
            AExpr::Ternary { predicate: x, truthy: u, falsy: m } => b matches AExpr::Ternary {
                predicate: y,
                truthy: v,
                falsy: n,
            } && x == y && u == v && m == n,
            AExpr::AnonymousFunction { input: u, function: p, options: s } => b matches
                AExpr::AnonymousFunction { input: v, function: q, options: t } && u@ == v@ && p == q
                && s == t,
            AExpr::Function { input: u, function: p, options: s } => b matches AExpr::Function {
                input: v,
                function: q,
                options: t,
            } && u@ == v@ && p == q && s == t,
            AExpr::Window { function: x, partition_by: u, options: p } => b matches AExpr::Window {
                function: y,
                partition_by: v,
                options: q,
            } && x == y && u@ == v@ && p == q,
            AExpr::Slice { input: x, offset: u, length: m } => b matches AExpr::Slice {
                input: y,
                offset: v,
                length: n,
            } && x == y && u == v && m == n,
            AExpr::Len => b is Len,
        },
{
    law_operands(a);
    law_operands(b);
    match (a, b) {
        (AExpr::SortBy { by: u, .. }, AExpr::SortBy { by: v, .. }) => {
            assert(a.inputs()[u@.len() as int] == b.inputs()[v@.len() as int]);
            lemma_same_reversed(a.inputs(), u@, v@);
        },
        (AExpr::AnonymousFunction { input: u, .. }, AExpr::AnonymousFunction { input: v, .. }) => {
            lemma_same_reversed(a.inputs(), u@, v@);
        },
        (AExpr::Function { input: u, .. }, AExpr::Function { input: v, .. }) => {
            lemma_same_reversed(a.inputs(), u@, v@);
        },
        (AExpr::Window { partition_by: u, .. }, AExpr::Window { partition_by: v, .. }) => {
            assert(a.inputs()[u@.len() as int] == b.inputs()[v@.len() as int]);
            lemma_same_reversed(a.inputs(), u@, v@);
        },
        _ => {
            assert(a.inputs()[0] == b.inputs()[0]);
            assert(a.inputs()[1] == b.inputs()[1]);
            assert(a.inputs()[2] == b.inputs()[2]);
        },
    }
}

/// Two lists of the same length that stand, in reverse order, at the start of a third are the same.
proof fn lemma_same_reversed(all: Seq<Node>, u: Seq<Node>, v: Seq<Node>)
    requires
        u.len() == v.len(),
        forall|i: int| 0 <= i < u.len() ==> all[u.len() - 1 - i] == #[trigger] u[i],
        forall|i: int| 0 <= i < v.len() ==> all[v.len() - 1 - i] == #[trigger] v[i],
    ensures
        u == v,
{
    assert forall|i: int| 0 <= i < u.len() implies u[i] == v[i] by {
        assert(all[u.len() - 1 - i] == u[i]);
        assert(all[v.len() - 1 - i] == v[i]);
    }
    assert(u =~= v);
}

/// In a renamed copy a column is the column of the new name, whatever it was, and anything else is
/// the same operation.
pub proof fn law_renames(a: AExpr, b: AExpr, name: Seq<char>)
    ensures
        a is Column ==> (renames(a, b, name) <==> (b matches AExpr::Column(new) && new@ == name)),
        !(a is Column) ==> (renames(a, b, name) <==> same_operation(a, b)),
{
}

/// Which expressions stop predicates by themselves: literals that do not have one value; functions,
/// user-defined or not, that are applied to whole groups, be they reductions or not; sorts,
/// aggregations, windows, the number of rows, and what picks rows by their position. No others do.
pub proof fn law_what_stops_predicates(expr: AExpr)
    ensures
        match expr {
            AExpr::Literal(LiteralValue::Scalar(_)) => !stops_pushdown(expr),
            AExpr::Literal(LiteralValue::Series { len, .. }) => stops_pushdown(expr) <==> len != 1,
            AExpr::Literal(LiteralValue::Range { low, high }) => stops_pushdown(expr) <==> low + 1
                != high,
            AExpr::Function { options, .. } => stops_pushdown(expr) <==> options.collect_groups
                == ApplyOptions::GroupWise,
            AExpr::AnonymousFunction { options, .. } => stops_pushdown(expr)
                <==> options.collect_groups == ApplyOptions::GroupWise,
            AExpr::Sort { .. } => stops_pushdown(expr),
            AExpr::SortBy { .. } => stops_pushdown(expr),
            AExpr::Agg { .. } => stops_pushdown(expr),
            AExpr::Window { .. } => stops_pushdown(expr),
            AExpr::Len => stops_pushdown(expr),
            AExpr::Slice { .. } => stops_pushdown(expr),
            AExpr::Gather { .. } => stops_pushdown(expr),
            AExpr::Explode(_) => !stops_pushdown(expr),
            AExpr::Alias(_, _) => !stops_pushdown(expr),
            AExpr::Column(_) => !stops_pushdown(expr),
            AExpr::BinaryExpr { .. } => !stops_pushdown(expr),
            AExpr::Ternary { .. } => !stops_pushdown(expr),
            AExpr::Cast { .. } => !stops_pushdown(expr),
            AExpr::Filter { .. } => !stops_pushdown(expr),
        },
        !(expr is Literal) ==> (expr.depends_on_groups() <==> stops_pushdown(expr)),
        expr is Literal ==> !expr.depends_on_groups(),
{
}

/// Which expressions move values to other rows: the two shifts, and nothing else.
pub proof fn law_what_shifts(expr: AExpr)
    ensures
        is_shift(expr) <==> (expr matches AExpr::Function { function, .. } && (function
            == FunctionExpr::Shift || function == FunctionExpr::ShiftAndFill)),
{
}

/// Which expressions depend on the order of rows by themselves: windows whose function shifts
/// somewhere, and functions that are applied to whole groups and are no reductions.
pub proof fn law_what_depends_on_order(exprs: Seq<AExpr>, expr: AExpr)
    ensures
        match expr {
            AExpr::Window { function, .. } => depends_on_order(exprs, expr) <==> has_shift(
                exprs,
                function,
            ),
            AExpr::Function { options, .. } => depends_on_order(exprs, expr) <==> (
            options.collect_groups == ApplyOptions::GroupWise && !options.returns_scalar),
            AExpr::AnonymousFunction { options, .. } => depends_on_order(exprs, expr) <==> (
            options.collect_groups == ApplyOptions::GroupWise && !options.returns_scalar),
            _ => !depends_on_order(exprs, expr),
        },
{
}

/// Which expressions are columns or names for them, and which modify columns.
pub proof fn law_columns_and_modifications(expr: AExpr)
    ensures
        is_column_or_alias(expr) <==> expr is Column || expr is Alias,
        is_column_modification(expr) <==> expr is Explode || expr is Ternary,
{
}

/// All operands of an expression are projected, but for the right-hand side of an `is_in`, where it
/// is a literal.
pub proof fn law_projected_operands(exprs: Seq<AExpr>, expr: AExpr, node: Node)
    ensures
        match expr {
            AExpr::Function {
                input,
                function: FunctionExpr::Boolean(BooleanFunction::IsIn),
                ..
            } => if input@.len() > 1 && at(exprs, input@[1]) is Literal {
                &&& projected_inputs(exprs, expr).contains(node) <==> (input@.contains(node)
                    && node != input@[1])
                &&& projected_inputs(exprs, expr) == expr.inputs().filter(
                    |operand: Node| operand != input@[1],
                )
                &&& is_in_literal(exprs, expr) == Some(input@[1])
            } else {
                projected_inputs(exprs, expr) == expr.inputs() && is_in_literal(exprs, expr) is None
            },
            _ => projected_inputs(exprs, expr) == expr.inputs() && is_in_literal(exprs, expr)
                is None,
        },
        right_side_in_arena(exprs, expr) <==> (expr matches AExpr::Function {
            input,
            function: FunctionExpr::Boolean(BooleanFunction::IsIn),
            ..
        } ==> !stops_pushdown(expr) ==> input@.len() > 1 ==> in_arena(exprs, input@[1])),
{
    match expr {
        AExpr::Function {
            input,
            function: FunctionExpr::Boolean(BooleanFunction::IsIn),
            ..
        } => {
            if input@.len() > 1 && at(exprs, input@[1]) is Literal {
                let rhs = input@[1];
                let kept = |n: Node| n != rhs;
                let part = projected_inputs(exprs, expr);
                assert(part == expr.inputs().filter(kept));
                assert(kept =~= (|operand: Node| operand != input@[1]));
                if part.contains(node) {
                    let i = choose|i: int| 0 <= i < part.len() && part[i] == node;
                    expr.inputs().lemma_filter_pred(kept, i);
                    lemma_filter_is_part(expr.inputs(), kept, i);
                    assert(expr.inputs().contains(node));
                }
                if input@.contains(node) {
                    let i = choose|i: int| 0 <= i < input@.len() && input@[i] == node;
                    assert(expr.inputs()[input@.len() - 1 - i] == node);
                    if node != rhs {
                        expr.inputs().lemma_filter_contains(kept, input@.len() - 1 - i);
                    }
                }
                if expr.inputs().contains(node) {
                    let i = choose|i: int|
                        0 <= i < expr.inputs().len() && expr.inputs()[i] == node;
                    assert(input@[input@.len() - 1 - i] == node);
                    assert(input@.contains(node));
                }
                assert(part.contains(node) <==> (input@.contains(node) && node != input@[1]));
            }
        },
        _ => {},
    }
}

/// Which expressions bar all predicates outside windows: those that stop predicates and are no
/// windows, windows that roll, and windows over something that is no column.
pub proof fn law_what_bars_predicates(exprs: Seq<AExpr>, expr: AExpr)
    ensures
        match expr {
            AExpr::Window { partition_by, options, .. } => bars_pushdown(exprs, expr) <==> (options
                == WindowType::Rolling || exists|i: int|
                0 <= i < partition_by@.len() && !(at(exprs, #[trigger] partition_by@[i]) is Column)),
            _ => bars_pushdown(exprs, expr) <==> stops_pushdown(expr),
        },
{
    match expr {
        AExpr::Window { partition_by, .. } => {
            if !all_columns(exprs, partition_by@) {
                let i = choose|i: int|
                    0 <= i < partition_by@.len() && !(at(exprs, #[trigger] partition_by@[i])
                        is Column);
                assert(!(at(exprs, partition_by@[i]) is Column));
            }
        },
        _ => {},
    }
}

/// Filters on a column keep the groups of a window together exactly if it is over this column, and
/// of anything else always.
pub proof fn law_what_keeps_groups(exprs: Seq<AExpr>, expr: AExpr, name: Seq<char>)
    ensures
        match expr {
            AExpr::Window { partition_by, .. } => keeps_groups(exprs, expr, name) <==> exists|i: int|
                0 <= i < partition_by@.len() && (at(exprs, #[trigger] partition_by@[i]) matches
                    AExpr::Column(column) && column@ == name),
            _ => keeps_groups(exprs, expr, name),
        },
{
}

/// A conjunction is the binary expression of its two parts, in this order.
pub proof fn law_conjunction_is_binary(left: Node, right: Node)
    ensures
        and_expr(left, right) == (AExpr::BinaryExpr {
            left,
            op: Operator::And,
            right,
        }),
{
}

} // verus!
