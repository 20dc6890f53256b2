//! What pushing predicates past the projections of a node means for the rows: the same ones are
//! kept, as long as the predicates keep their meaning.

use vstd::prelude::*;

use crate::aexpr::{AExpr, Operator};
use crate::allowed::{
    aliased_column, allowed_pushdown_names, examined, keeps_groups, passes_windows,
};
use crate::arena::{at, in_arena, Node};
use crate::boundary::keeps_values;
use crate::combine::and_expr;
use crate::evaluation::{
    goes_by_operation, law_renamed_copy_says_the_same, law_value_goes_by_columns,
    lemma_column_of_operand, operand_values, value,
};
use crate::key_laws::{all_plain, keys_fit, law_name_as_key, law_projection_step_keeps_keys, plain};
use crate::laws::{
    acc_true, all_true, law_rewrite_keeps_filter, law_rewrite_valid, lemma_local_stays,
    respects_and, trusts_renaming,
};
use crate::origins::{gives, is_renamed_here, lemma_step_origin, reads_just, renames_here};
use crate::projection::{is_trace, renaming, Pushdown};
use crate::pushdown_laws::{law_answers_stay, law_renamable_is_column};
use crate::rename::{fresh, lemma_fresh_stays, lemma_renamed_copy_stays};
use crate::traversal::{
    all_in_arena, depth, grows, has_column, leaf_names, lemma_inputs_below_node,
    lemma_leaf_names_stay, lemma_subtree_in_arena, lemma_subtree_of_input, reads_only, subtree,
    well_formed, Walk,
};

verus! {

/// A node of projections over an input with `columns`: the projection at `projections[i]` gives the
/// column `output_names[i]`. If it `keeps_input`, the columns of the input that no projection
/// replaces are in the output too.
pub struct Projecting {
    pub projections: Seq<Node>,
    pub output_names: Seq<Seq<char>>,
    pub columns: Seq<Seq<char>>,
    pub keeps_input: bool,
}

impl Projecting {
    /// Whether every projection has one name, its own one, and no names hold a delimiter.
    pub open spec fn valid(self, exprs: Seq<AExpr>) -> bool {
        &&& self.output_names.len() == self.projections.len()
        &&& self.output_names.no_duplicates()
        &&& all_plain(self.output_names)
        &&& all_in_arena(exprs, self.projections)
        &&& forall|i: int|
            0 <= i < self.projections.len() ==> {
                &&& gives(exprs, #[trigger] self.projections[i], self.output_names[i])
                &&& aliased_column(exprs, self.projections[i]) matches Some(pair) ==> plain(pair.1)
            }
    }

    /// Whether the projection at `i` gives a column of the input under its own name.
    pub open spec fn same_column(self, exprs: Seq<AExpr>, i: int) -> bool {
        aliased_column(exprs, self.projections[i]) == Some(
            (self.output_names[i], self.output_names[i]),
        )
    }

    /// Whether one of the projections from `i` on gives the column `column`.
    pub open spec fn given_from(self, i: int, column: Seq<char>) -> bool {
        exists|j: int|
            i <= j < self.output_names.len() && #[trigger] self.output_names[j] == column
    }

    /// Whether the column `column` is in the output what it is in the input.
    pub open spec fn passes(self, exprs: Seq<AExpr>, column: Seq<char>) -> bool {
        if self.given_from(0, column) {
            forall|i: int|
                0 <= i < self.output_names.len() && #[trigger] self.output_names[i] == column
                    ==> self.same_column(exprs, i)
        } else {
            self.keeps_input
        }
    }

    /// Whether the node makes `output_row` of `input_row`: a projection that is a column of the
    /// input gives the value of this column, and columns that no projection gives stay as they are,
    /// if they are kept. Nothing is said of what other projections give.
    pub open spec fn makes<V>(
        self,
        exprs: Seq<AExpr>,
        input_row: spec_fn(Seq<char>) -> V,
        output_row: spec_fn(Seq<char>) -> V,
    ) -> bool {
        &&& forall|i: int|
            0 <= i < self.projections.len() ==> (aliased_column(
                exprs,
                #[trigger] self.projections[i],
            ) matches Some(pair) ==> output_row(self.output_names[i]) == input_row(pair.1))
        &&& forall|column: Seq<char>|
            self.keeps_input && !self.given_from(0, column) ==> #[trigger] output_row(column)
                == input_row(column)
    }
}

/// Whether `trace` shows how predicates are pushed past the projections of a node: at the start
/// everything is valid, the accumulated predicates have keys of the columns that they read, and
/// they read columns that the output has.
pub open spec fn is_rewriting(trace: Seq<Pushdown>, to: Projecting) -> bool {
    &&& is_trace(trace, to.projections, to.output_names, to.columns)
    &&& to.valid(trace.first().exprs)
    &&& trace.first().valid()
    &&& keys_fit(trace.first().exprs, trace.first().acc)
    &&& to.keeps_input || forall|key: Seq<char>| #[trigger]
        trace.first().acc.contains_key(key) ==> reads_only(
            trace.first().exprs,
            trace.first().acc[key],
            to.output_names,
        )
    &&& trace.last().exprs.len() <= usize::MAX
}

/// Whether the expression at `node` was made on the way: it is, or has in it, a renamed predicate.
pub open spec fn is_new(trace: Seq<Pushdown>, node: Node) -> bool {
    node.0 >= trace.first().exprs.len()
}

/// Whether all columns that the expression at `node` reads are in the output what they are in the
/// input.
pub open spec fn reads_passing(exprs: Seq<AExpr>, to: Projecting, node: Node) -> bool {
    forall|column: Seq<char>| #[trigger]
        leaf_names(exprs, node).contains(column) ==> to.passes(exprs, column)
}

/// Whether no predicate changes its meaning at the projection at `i`. A predicate that came from
/// above speaks of the output row, and one that has been renamed of the input row. There are three
/// ways in which this can be lost:
///
/// * A predicate that has been renamed is renamed once more, to another column. With
///   `col(A).alias(B), col(B).alias(A)` a predicate on `B` is renamed to `A`, and then to `B`
///   again.
/// * A predicate that has been renamed becomes a local one, and reads a column that the output does
///   not have, or has with other values.
/// * A predicate that has been renamed is combined with one that has not, which reads such a
///   column.
pub open spec fn step_keeps_meaning(trace: Seq<Pushdown>, to: Projecting, i: int) -> bool {
    let before = trace[i];
    let after = trace[i + 1];
    let name = to.output_names[i];
    &&& forall|column: Seq<char>| #[trigger]
        renames_here(before, to.projections[i], name, column) && is_new(trace, before.acc[name])
            ==> column == name
    &&& forall|k: int|
        before.local.len() <= k < after.local.len() && is_new(trace, #[trigger] after.local[k])
            ==> reads_passing(after.exprs, to, after.local[k])
    &&& forall|key: Seq<char>|
        #![trigger before.acc.contains_key(key)]
        before.acc.contains_key(key) && after.acc.contains_key(key) && !is_new(
            trace,
            before.acc[key],
        ) && is_new(trace, after.acc[key]) ==> reads_passing(before.exprs, to, before.acc[key])
}

/// Whether no predicate changes its meaning: at no projection, and not for going on to the input as
/// it came from above though it reads a column that has other values there.
pub open spec fn keeps_meaning(trace: Seq<Pushdown>, to: Projecting) -> bool {
    &&& forall|i: int| 0 <= i < to.projections.len() ==> #[trigger] step_keeps_meaning(trace, to, i)
    &&& forall|key: Seq<char>| #[trigger]
        trace.last().acc.contains_key(key) && !is_new(trace, trace.last().acc[key])
            ==> reads_passing(trace.last().exprs, to, trace.last().acc[key])
}

/// What is said of the projections of a node stays the same as the arena grows.
pub proof fn lemma_projecting_stays(before: Seq<AExpr>, after: Seq<AExpr>, to: Projecting)
    requires
        well_formed(before),
        well_formed(after),
        grows(before, after),
        to.valid(before),
    ensures
        to.valid(after),
        forall|i: int|
            0 <= i < to.projections.len() ==> #[trigger] to.same_column(after, i)
                == to.same_column(before, i),
        forall|column: Seq<char>| #[trigger]
            to.passes(after, column) == to.passes(before, column),
        forall|i: int|
            0 <= i < to.projections.len() ==> aliased_column(after, #[trigger] to.projections[i])
                == aliased_column(before, to.projections[i]),
{
    assert forall|i: int| 0 <= i < to.projections.len() implies aliased_column(
        after,
        #[trigger] to.projections[i],
    ) == aliased_column(before, to.projections[i]) && gives(
        after,
        to.projections[i],
        to.output_names[i],
    ) by {
        assert(in_arena(before, to.projections[i]));
        law_answers_stay(before, after, to.projections[i]);
        assert(gives(before, to.projections[i], to.output_names[i]));
    }
    assert forall|i: int| 0 <= i < to.projections.len() implies #[trigger] to.same_column(after, i)
        == to.same_column(before, i) by {
        assert(aliased_column(after, to.projections[i]) == aliased_column(
            before,
            to.projections[i],
        ));
    }
    assert forall|column: Seq<char>| #[trigger] to.passes(after, column) == to.passes(
        before,
        column,
    ) by {
        assert forall|i: int|
            0 <= i < to.output_names.len() && #[trigger] to.output_names[i]
                == column implies to.same_column(after, i) == to.same_column(before, i) by {}
        if to.given_from(0, column) {
            if to.passes(after, column) {
                assert forall|i: int|
                    0 <= i < to.output_names.len() && #[trigger] to.output_names[i]
                        == column implies to.same_column(before, i) by {
                    assert(to.same_column(after, i));
                }
            }
            if to.passes(before, column) {
                assert forall|i: int|
                    0 <= i < to.output_names.len() && #[trigger] to.output_names[i]
                        == column implies to.same_column(after, i) by {
                    assert(to.same_column(before, i));
                }
            }
        }
    }
}

/// At every state of a rewriting everything is valid, what is said of the projections still holds,
/// and the accumulated predicates have keys of the columns that they read.
pub proof fn lemma_rewriting(trace: Seq<Pushdown>, to: Projecting, i: int)
    requires
        is_rewriting(trace, to),
        0 <= i < trace.len(),
    ensures
        trace[i].valid(),
        grows(trace.first().exprs, trace[i].exprs),
        grows(trace[i].exprs, trace.last().exprs),
        well_formed(trace.last().exprs),
        trace[i].exprs.len() <= usize::MAX,
        to.valid(trace[i].exprs),
        keys_fit(trace[i].exprs, trace[i].acc),
        i < to.projections.len() ==> {
            &&& in_arena(trace[i].exprs, to.projections[i])
            &&& gives(trace[i].exprs, to.projections[i], to.output_names[i])
            &&& plain(to.output_names[i])
            &&& keeps_values(trace[i].exprs, to.projections[i]) ==> all_plain(
                leaf_names(trace[i].exprs, to.projections[i]),
            )
        },
    decreases i,
{
    let last = trace.len() - 1;
    law_rewrite_valid(trace, to.projections, to.output_names, to.columns, 0, i);
    law_rewrite_valid(trace, to.projections, to.output_names, to.columns, i, last);
    lemma_projecting_stays(trace.first().exprs, trace[i].exprs, to);
    if i > 0 {
        lemma_rewriting(trace, to, i - 1);
        assert(trace[i - 1 + 1] == trace[i]);
        law_projection_step_keeps_keys(
            trace[i - 1],
            to.projections[i - 1],
            to.output_names[i - 1],
            to.columns,
            trace[i],
        );
    }
    if i < to.projections.len() {
        let projection = to.projections[i];
        assert(in_arena(trace[i].exprs, projection));
        law_renamable_is_column(trace[i].exprs, projection);
        assert(plain(to.output_names[i]));
    }
}

/// The predicates that go on below a node have keys of the columns that they read, as those that
/// came from above had, so that they can be pushed past the next node.
pub proof fn law_rewrite_keeps_keys(trace: Seq<Pushdown>, to: Projecting)
    requires
        is_rewriting(trace, to),
    ensures
        keys_fit(trace.last().exprs, trace.last().acc),
{
    lemma_rewriting(trace, to, trace.len() - 1);
}

/// Whether the predicate at a node is true in a row.
pub open spec fn true_in<V>(
    exprs: Seq<AExpr>,
    apply: spec_fn(AExpr, Seq<V>) -> V,
    is_true: spec_fn(V) -> bool,
    row: spec_fn(Seq<char>) -> V,
) -> spec_fn(Node) -> bool {
    |node: Node| is_true(value(exprs, apply, row, node))
}

/// Whether `apply` gives something true for an `and` exactly if both operands are true.
pub open spec fn combines_truth<V>(
    apply: spec_fn(AExpr, Seq<V>) -> V,
    is_true: spec_fn(V) -> bool,
) -> bool {
    forall|left: Node, right: Node, operands: Seq<V>|
        operands.len() == 2 ==> is_true(#[trigger] apply(and_expr(left, right), operands)) == (
        is_true(operands[0]) && is_true(operands[1]))
}

/// A column that passes the node has the same value in the output row.
proof fn lemma_passing_column<V>(
    exprs: Seq<AExpr>,
    to: Projecting,
    input_row: spec_fn(Seq<char>) -> V,
    output_row: spec_fn(Seq<char>) -> V,
    column: Seq<char>,
)
    requires
        to.valid(exprs),
        to.makes(exprs, input_row, output_row),
        to.passes(exprs, column),
    ensures
        output_row(column) == input_row(column),
{
    if to.given_from(0, column) {
        let j = choose|j: int|
            0 <= j < to.output_names.len() && #[trigger] to.output_names[j] == column;
        assert(to.same_column(exprs, j));
        assert(aliased_column(exprs, to.projections[j]) == Some((column, column)));
    }
}

/// What the predicate at `node` says of a pair of rows: if it was there at the start, among the
/// first `size` expressions, what it says of the output row; if it was made on the way, what it
/// says of the input row, and if it is a conjunction, what its parts say.
spec fn meaning<V>(
    exprs: Seq<AExpr>,
    size: nat,
    apply: spec_fn(AExpr, Seq<V>) -> V,
    is_true: spec_fn(V) -> bool,
    input_row: spec_fn(Seq<char>) -> V,
    output_row: spec_fn(Seq<char>) -> V,
    node: Node,
) -> bool
    decreases depth(exprs, node),
{
    if node.0 < size {
        is_true(value(exprs, apply, output_row, node))
    } else {
        match at(exprs, node) {
            AExpr::BinaryExpr { left, op: Operator::And, right } => {
                &&& depth(exprs, left) < depth(exprs, node)
                &&& depth(exprs, right) < depth(exprs, node)
                &&& meaning(exprs, size, apply, is_true, input_row, output_row, left)
                &&& meaning(exprs, size, apply, is_true, input_row, output_row, right)
            },
            _ => is_true(value(exprs, apply, input_row, node)),
        }
    }
}

/// In every row the conjunction of two predicates is true exactly if both are.
proof fn lemma_and_in_row<V>(
    exprs: Seq<AExpr>,
    apply: spec_fn(AExpr, Seq<V>) -> V,
    is_true: spec_fn(V) -> bool,
    row: spec_fn(Seq<char>) -> V,
    node: Node,
    left: Node,
    right: Node,
)
    requires
        well_formed(exprs),
        in_arena(exprs, node),
        at(exprs, node) == and_expr(left, right),
        combines_truth(apply, is_true),
    ensures
        in_arena(exprs, left),
        in_arena(exprs, right),
        depth(exprs, left) < depth(exprs, node),
        depth(exprs, right) < depth(exprs, node),
        is_true(value(exprs, apply, row, node)) == (is_true(value(exprs, apply, row, left))
            && is_true(value(exprs, apply, row, right))),
{
    let expr = at(exprs, node);
    let operands = operand_values(exprs, apply, row, node);
    lemma_inputs_below_node(exprs, node);
    assert(expr.inputs()[0] == right && expr.inputs()[1] == left);
    assert(operands[0] == value(exprs, apply, row, right));
    assert(operands[1] == value(exprs, apply, row, left));
    assert(is_true(apply(and_expr(left, right), operands)) == (is_true(operands[0]) && is_true(
        operands[1],
    )));
}

/// What a predicate means is what it says of either row if these agree on the columns it reads.
proof fn lemma_meaning_agrees<V>(
    exprs: Seq<AExpr>,
    size: nat,
    apply: spec_fn(AExpr, Seq<V>) -> V,
    is_true: spec_fn(V) -> bool,
    input_row: spec_fn(Seq<char>) -> V,
    output_row: spec_fn(Seq<char>) -> V,
    node: Node,
)
    requires
        well_formed(exprs),
        in_arena(exprs, node),
        combines_truth(apply, is_true),
        forall|column: Seq<char>| #[trigger]
            leaf_names(exprs, node).contains(column) ==> input_row(column) == output_row(column),
    ensures
        meaning(exprs, size, apply, is_true, input_row, output_row, node) == is_true(
            value(exprs, apply, input_row, node),
        ),
        value(exprs, apply, input_row, node) == value(exprs, apply, output_row, node),
    decreases depth(exprs, node),
{
    law_value_goes_by_columns(exprs, apply, input_row, output_row, node);
    if node.0 >= size {
        match at(exprs, node) {
            AExpr::BinaryExpr { left, op: Operator::And, right } => {
                let expr = at(exprs, node);
                lemma_and_in_row(exprs, apply, is_true, input_row, node, left, right);
                assert(expr.inputs()[0] == right && expr.inputs()[1] == left);
                assert forall|column: Seq<char>| #[trigger]
                    leaf_names(exprs, left).contains(column) implies input_row(column)
                    == output_row(column) by {
                    lemma_column_of_operand(exprs, node, 1, column);
                }
                assert forall|column: Seq<char>| #[trigger]
                    leaf_names(exprs, right).contains(column) implies input_row(column)
                    == output_row(column) by {
                    lemma_column_of_operand(exprs, node, 0, column);
                }
                lemma_meaning_agrees(exprs, size, apply, is_true, input_row, output_row, left);
                lemma_meaning_agrees(exprs, size, apply, is_true, input_row, output_row, right);
            },
            _ => {},
        }
    }
}

/// What a predicate means of which all is new is what it says of the input row.
proof fn lemma_meaning_fresh<V>(
    exprs: Seq<AExpr>,
    size: nat,
    apply: spec_fn(AExpr, Seq<V>) -> V,
    is_true: spec_fn(V) -> bool,
    input_row: spec_fn(Seq<char>) -> V,
    output_row: spec_fn(Seq<char>) -> V,
    node: Node,
)
    requires
        well_formed(exprs),
        in_arena(exprs, node),
        combines_truth(apply, is_true),
        fresh(exprs, node, size),
    ensures
        meaning(exprs, size, apply, is_true, input_row, output_row, node) == is_true(
            value(exprs, apply, input_row, node),
        ),
    decreases depth(exprs, node),
{
    lemma_subtree_in_arena(exprs, Walk::Whole, node);
    match at(exprs, node) {
        AExpr::BinaryExpr { left, op: Operator::And, right } => {
            let expr = at(exprs, node);
            lemma_and_in_row(exprs, apply, is_true, input_row, node, left, right);
            assert(Walk::Whole.inputs(exprs, expr)[0] == right);
            assert(Walk::Whole.inputs(exprs, expr)[1] == left);
            assert forall|n: Node| #[trigger]
                subtree(exprs, Walk::Whole, left).contains(n) implies n.0 >= size by {
                lemma_subtree_of_input(exprs, Walk::Whole, node, 1, n);
            }
            assert forall|n: Node| #[trigger]
                subtree(exprs, Walk::Whole, right).contains(n) implies n.0 >= size by {
                lemma_subtree_of_input(exprs, Walk::Whole, node, 0, n);
            }
            lemma_meaning_fresh(exprs, size, apply, is_true, input_row, output_row, left);
            lemma_meaning_fresh(exprs, size, apply, is_true, input_row, output_row, right);
        },
        _ => {},
    }
}

/// What a conjunction means is what its parts mean.
proof fn lemma_meaning_respects_and<V>(
    first: Seq<AExpr>,
    exprs: Seq<AExpr>,
    apply: spec_fn(AExpr, Seq<V>) -> V,
    is_true: spec_fn(V) -> bool,
    input_row: spec_fn(Seq<char>) -> V,
    output_row: spec_fn(Seq<char>) -> V,
)
    requires
        well_formed(first),
        well_formed(exprs),
        grows(first, exprs),
        combines_truth(apply, is_true),
    ensures
        respects_and(
            exprs,
            |node: Node|
                meaning(exprs, first.len(), apply, is_true, input_row, output_row, node),
        ),
{
    let truth = |node: Node|
        meaning(exprs, first.len(), apply, is_true, input_row, output_row, node);
    assert forall|node: Node| #[trigger] in_arena(exprs, node) implies (at(exprs, node) matches
        AExpr::BinaryExpr { left, op, right } ==> op == Operator::And ==> truth(node) == (truth(
        left,
    ) && truth(right))) by {
        match at(exprs, node) {
            AExpr::BinaryExpr { left, op: Operator::And, right } => {
                lemma_and_in_row(exprs, apply, is_true, output_row, node, left, right);
                if node.0 < first.len() {
                    assert(at(first, node) == at(exprs, node));
                    lemma_inputs_below_node(first, node);
                    assert(at(first, node).inputs()[0] == right);
                    assert(at(first, node).inputs()[1] == left);
                }
            },
            _ => {},
        }
    }
}

/// The two rows agree on the columns that an expression reads if all of them pass the node.
proof fn lemma_rows_agree<V>(
    trace: Seq<Pushdown>,
    to: Projecting,
    i: int,
    input_row: spec_fn(Seq<char>) -> V,
    output_row: spec_fn(Seq<char>) -> V,
    node: Node,
)
    requires
        is_rewriting(trace, to),
        0 <= i < trace.len(),
        in_arena(trace[i].exprs, node),
        reads_passing(trace[i].exprs, to, node),
        to.makes(trace.first().exprs, input_row, output_row),
    ensures
        forall|column: Seq<char>| #[trigger]
            leaf_names(trace.last().exprs, node).contains(column) ==> input_row(column)
                == output_row(column),
{
    lemma_rewriting(trace, to, 0);
    lemma_rewriting(trace, to, i);
    lemma_leaf_names_stay(trace[i].exprs, trace.last().exprs, node);
    lemma_projecting_stays(trace.first().exprs, trace[i].exprs, to);
    assert forall|column: Seq<char>| #[trigger]
        leaf_names(trace.last().exprs, node).contains(column) implies input_row(column)
        == output_row(column) by {
        assert(leaf_names(trace[i].exprs, node).contains(column));
        assert(to.passes(trace[i].exprs, column) == to.passes(trace.first().exprs, column));
        lemma_passing_column(trace.first().exprs, to, input_row, output_row, column);
    }
}

/// What an accumulated predicate means that was made on the way is what it says of the input row.
proof fn lemma_new_speaks_of_input<V>(
    trace: Seq<Pushdown>,
    to: Projecting,
    i: int,
    key: Seq<char>,
    apply: spec_fn(AExpr, Seq<V>) -> V,
    is_true: spec_fn(V) -> bool,
    input_row: spec_fn(Seq<char>) -> V,
    output_row: spec_fn(Seq<char>) -> V,
)
    requires
        is_rewriting(trace, to),
        forall|j: int|
            0 <= j < to.projections.len() ==> #[trigger] step_keeps_meaning(trace, to, j),
        combines_truth(apply, is_true),
        to.makes(trace.first().exprs, input_row, output_row),
        0 <= i < trace.len(),
        trace[i].acc.contains_key(key),
        is_new(trace, trace[i].acc[key]),
    ensures
        meaning(
            trace.last().exprs,
            trace.first().exprs.len(),
            apply,
            is_true,
            input_row,
            output_row,
            trace[i].acc[key],
        ) == is_true(value(trace.last().exprs, apply, input_row, trace[i].acc[key])),
    decreases i,
{
    let exprs = trace.last().exprs;
    let size = trace.first().exprs.len();
    let node = trace[i].acc[key];
    lemma_rewriting(trace, to, i);
    assert(in_arena(trace[i].exprs, node));
    if i > 0 {
        let before = trace[i - 1];
        let after = trace[i];
        let projection = to.projections[i - 1];
        let name = to.output_names[i - 1];
        lemma_rewriting(trace, to, i - 1);
        assert(trace[i - 1 + 1] == after);
        assert(step_keeps_meaning(trace, to, i - 1));
        lemma_step_origin(before, projection, name, to.columns, after);
        if before.acc.contains_key(key) && before.acc[key] == node {
            lemma_new_speaks_of_input(
                trace,
                to,
                i - 1,
                key,
                apply,
                is_true,
                input_row,
                output_row,
            );
        } else {
            let column = choose|column: Seq<char>| #[trigger]
                is_renamed_here(before, projection, name, column, after.exprs, key, node);
            if fresh(after.exprs, node, before.exprs.len()) {
                lemma_fresh_stays(after.exprs, exprs, node, before.exprs.len());
                lemma_meaning_fresh(exprs, size, apply, is_true, input_row, output_row, node);
            } else {
                let copy = choose|copy: Node| #[trigger]
                    fresh(after.exprs, copy, before.exprs.len()) && in_arena(after.exprs, copy)
                        && before.acc.contains_key(key) && at(after.exprs, node) == and_expr(
                        copy,
                        before.acc[key],
                    );
                let existing = before.acc[key];
                assert(at(exprs, node) == and_expr(copy, existing));
                lemma_fresh_stays(after.exprs, exprs, copy, before.exprs.len());
                lemma_meaning_fresh(exprs, size, apply, is_true, input_row, output_row, copy);
                if is_new(trace, existing) {
                    lemma_new_speaks_of_input(
                        trace,
                        to,
                        i - 1,
                        key,
                        apply,
                        is_true,
                        input_row,
                        output_row,
                    );
                } else {
                    assert(in_arena(before.exprs, existing));
                    lemma_rows_agree(trace, to, i - 1, input_row, output_row, existing);
                    lemma_meaning_agrees(
                        exprs,
                        size,
                        apply,
                        is_true,
                        input_row,
                        output_row,
                        existing,
                    );
                }
                lemma_and_in_row(exprs, apply, is_true, input_row, node, copy, existing);
            }
        }
    }
}

/// A predicate that is renamed at a projection means what it meant.
proof fn lemma_renaming_keeps_meaning<V>(
    trace: Seq<Pushdown>,
    to: Projecting,
    i: int,
    apply: spec_fn(AExpr, Seq<V>) -> V,
    is_true: spec_fn(V) -> bool,
    input_row: spec_fn(Seq<char>) -> V,
    output_row: spec_fn(Seq<char>) -> V,
)
    requires
        is_rewriting(trace, to),
        0 <= i < to.projections.len(),
        step_keeps_meaning(trace, to, i),
        goes_by_operation(apply),
        combines_truth(apply, is_true),
        to.makes(trace.first().exprs, input_row, output_row),
    ensures
        trusts_renaming(
            trace[i],
            to.projections[i],
            trace[i + 1],
            |node: Node|
                meaning(
                    trace.last().exprs,
                    trace.first().exprs.len(),
                    apply,
                    is_true,
                    input_row,
                    output_row,
                    node,
                ),
        ),
{
    let before = trace[i];
    let after = trace[i + 1];
    let projection = to.projections[i];
    let name = to.output_names[i];
    let exprs = trace.last().exprs;
    let size = trace.first().exprs.len();
    let truth = |node: Node|
        meaning(exprs, size, apply, is_true, input_row, output_row, node);
    lemma_rewriting(trace, to, i);
    lemma_rewriting(trace, to, i + 1);
    law_renamable_is_column(before.exprs, projection);
    if at(before.exprs, projection) is Alias && keeps_values(before.exprs, projection)
        && before.acc.contains_key(name) {
        let predicate = before.acc[name];
        let column = leaf_names(before.exprs, projection)[0];
        assert(aliased_column(before.exprs, projection) == Some((name, column)));
        assert(renames_here(before, projection, name, column));
        lemma_projecting_stays(trace.first().exprs, before.exprs, to);
        assert(aliased_column(trace.first().exprs, to.projections[i]) == Some((name, column)));
        assert(output_row(name) == input_row(column));
        lemma_leaf_names_stay(before.exprs, exprs, predicate);
        assert forall|c: Seq<char>| #[trigger]
            leaf_names(exprs, predicate).contains(c) implies c == name by {
            law_name_as_key(before.exprs, before.acc, name, c);
        }
        assert(truth(predicate) == is_true(value(exprs, apply, output_row, predicate))) by {
            if is_new(trace, predicate) {
                lemma_meaning_agrees(
                    exprs,
                    size,
                    apply,
                    is_true,
                    input_row,
                    output_row,
                    predicate,
                );
            }
        }
        assert forall|copied: Seq<AExpr>, copy: Node|
            grows(copied, after.exprs) && #[trigger] renaming(
                before.exprs,
                predicate,
                column,
                copied,
                copy,
            ) implies truth(copy) == truth(predicate) by {
            assert(grows(copied, exprs));
            assert(in_arena(copied, predicate));
            lemma_renamed_copy_stays(copied, exprs, predicate, copy, column);
            lemma_fresh_stays(copied, exprs, copy, before.exprs.len());
            lemma_meaning_fresh(exprs, size, apply, is_true, input_row, output_row, copy);
            law_renamed_copy_says_the_same(
                exprs,
                predicate,
                copy,
                column,
                apply,
                output_row,
                input_row,
            );
        }
    }
}

/// What a local predicate means is what it says of the output row.
proof fn lemma_local_speaks_of_output<V>(
    trace: Seq<Pushdown>,
    to: Projecting,
    i: int,
    k: int,
    apply: spec_fn(AExpr, Seq<V>) -> V,
    is_true: spec_fn(V) -> bool,
    input_row: spec_fn(Seq<char>) -> V,
    output_row: spec_fn(Seq<char>) -> V,
)
    requires
        is_rewriting(trace, to),
        forall|j: int|
            0 <= j < to.projections.len() ==> #[trigger] step_keeps_meaning(trace, to, j),
        combines_truth(apply, is_true),
        to.makes(trace.first().exprs, input_row, output_row),
        0 <= i < trace.len(),
        0 <= k < trace[i].local.len(),
    ensures
        meaning(
            trace.last().exprs,
            trace.first().exprs.len(),
            apply,
            is_true,
            input_row,
            output_row,
            trace[i].local[k],
        ) == is_true(value(trace.last().exprs, apply, output_row, trace[i].local[k])),
    decreases i,
{
    let node = trace[i].local[k];
    lemma_rewriting(trace, to, i);
    assert(in_arena(trace[i].exprs, node));
    if i > 0 && is_new(trace, node) {
        let before = trace[i - 1];
        let after = trace[i];
        lemma_rewriting(trace, to, i - 1);
        assert(trace[i - 1 + 1] == after);
        assert(step_keeps_meaning(trace, to, i - 1));
        lemma_local_stays(before, to.projections[i - 1], to.output_names[i - 1], to.columns, after);
        if k < before.local.len() {
            assert(before.local[k] == node);
            lemma_local_speaks_of_output(
                trace,
                to,
                i - 1,
                k,
                apply,
                is_true,
                input_row,
                output_row,
            );
        } else {
            lemma_rows_agree(trace, to, i, input_row, output_row, node);
            lemma_meaning_agrees(
                trace.last().exprs,
                trace.first().exprs.len(),
                apply,
                is_true,
                input_row,
                output_row,
                node,
            );
        }
    }
}

/// Whether all accumulated predicates are true is the same if it is the same of each.
proof fn lemma_acc_same(
    acc: Map<Seq<char>, Node>,
    truth: spec_fn(Node) -> bool,
    other: spec_fn(Node) -> bool,
)
    requires
        forall|key: Seq<char>| #[trigger]
            acc.contains_key(key) ==> truth(acc[key]) == other(acc[key]),
    ensures
        acc_true(acc, truth) == acc_true(acc, other),
{
    if acc_true(acc, truth) {
        assert forall|key: Seq<char>| #[trigger] acc.contains_key(key) implies other(acc[key]) by {
            assert(truth(acc[key]));
        }
    }
    if acc_true(acc, other) {
        assert forall|key: Seq<char>| #[trigger] acc.contains_key(key) implies truth(acc[key]) by {
            assert(other(acc[key]));
        }
    }
}

/// Whether all predicates of a list are true is the same if it is the same of each.
proof fn lemma_all_same(
    nodes: Seq<Node>,
    truth: spec_fn(Node) -> bool,
    other: spec_fn(Node) -> bool,
)
    requires
        forall|i: int| 0 <= i < nodes.len() ==> truth(#[trigger] nodes[i]) == other(nodes[i]),
    ensures
        all_true(nodes, truth) == all_true(nodes, other),
{
    if all_true(nodes, truth) {
        assert forall|i: int| 0 <= i < nodes.len() implies other(#[trigger] nodes[i]) by {
            assert(truth(nodes[i]));
        }
    }
    if all_true(nodes, other) {
        assert forall|i: int| 0 <= i < nodes.len() implies truth(#[trigger] nodes[i]) by {
            assert(other(nodes[i]));
        }
    }
}

/// Pushing predicates past the projections of a node keeps the same rows: if the node makes an
/// output row of an input row, the predicates that came from above are all true in the output row
/// exactly if those that are applied at the node are true in the output row and those that go on
/// below it are true in the input row.
///
/// This holds as long as all predicates keep their meaning (see [`keeps_meaning`]).
pub proof fn law_rewrite_keeps_rows<V>(
    trace: Seq<Pushdown>,
    to: Projecting,
    apply: spec_fn(AExpr, Seq<V>) -> V,
    is_true: spec_fn(V) -> bool,
    input_row: spec_fn(Seq<char>) -> V,
    output_row: spec_fn(Seq<char>) -> V,
)
    requires
        is_rewriting(trace, to),
        keeps_meaning(trace, to),
        goes_by_operation(apply),
        combines_truth(apply, is_true),
        to.makes(trace.first().exprs, input_row, output_row),
    ensures
        ({
            let in_input = true_in(trace.last().exprs, apply, is_true, input_row);
            let in_output = true_in(trace.last().exprs, apply, is_true, output_row);
            (acc_true(trace.first().acc, in_output) && all_true(trace.first().local, in_output))
                == (acc_true(trace.last().acc, in_input) && all_true(
                trace.last().local,
                in_output,
            ))
        }),
{
    let last = trace.len() - 1;
    let first = trace.first();
    let end = trace.last();
    let exprs = end.exprs;
    let size = first.exprs.len();
    let in_input = true_in(exprs, apply, is_true, input_row);
    let in_output = true_in(exprs, apply, is_true, output_row);
    let truth = |node: Node|
        meaning(exprs, size, apply, is_true, input_row, output_row, node);
    lemma_rewriting(trace, to, 0);
    lemma_rewriting(trace, to, last);
    lemma_meaning_respects_and(first.exprs, exprs, apply, is_true, input_row, output_row);
    assert forall|i: int| 0 <= i < to.projections.len() implies trusts_renaming(
        #[trigger] trace[i],
        to.projections[i],
        trace[i + 1],
        truth,
    ) by {
        assert(step_keeps_meaning(trace, to, i));
        lemma_renaming_keeps_meaning(trace, to, i, apply, is_true, input_row, output_row);
    }
    law_rewrite_keeps_filter(trace, to.projections, to.output_names, to.columns, truth);
    assert(first.local.skip(0) =~= first.local);
    assert(end.local.skip(0) =~= end.local);

    // At the start all predicates speak of the output row.
    assert forall|key: Seq<char>| #[trigger] first.acc.contains_key(key) implies truth(
        first.acc[key],
    ) == in_output(first.acc[key]) by {
        assert(in_arena(first.exprs, first.acc[key]));
    }
    assert forall|k: int| 0 <= k < first.local.len() implies truth(#[trigger] first.local[k])
        == in_output(first.local[k]) by {
        assert(in_arena(first.exprs, first.local[k]));
    }
    lemma_acc_same(first.acc, truth, in_output);
    lemma_all_same(first.local, truth, in_output);

    // At the end those that go on speak of the input row, the others of the output row.
    assert forall|key: Seq<char>| #[trigger] end.acc.contains_key(key) implies truth(end.acc[key])
        == in_input(end.acc[key]) by {
        let node = end.acc[key];
        assert(in_arena(exprs, node));
        if is_new(trace, node) {
            lemma_new_speaks_of_input(
                trace,
                to,
                last,
                key,
                apply,
                is_true,
                input_row,
                output_row,
            );
        } else {
            lemma_rows_agree(trace, to, last, input_row, output_row, node);
            lemma_meaning_agrees(exprs, size, apply, is_true, input_row, output_row, node);
        }
    }
    assert forall|k: int| 0 <= k < end.local.len() implies truth(#[trigger] end.local[k])
        == in_output(end.local[k]) by {
        lemma_local_speaks_of_output(
            trace,
            to,
            last,
            k,
            apply,
            is_true,
            input_row,
            output_row,
        );
    }
    lemma_acc_same(end.acc, truth, in_input);
    lemma_all_same(end.local, truth, in_output);
}

/// A predicate on an allowed name, once it is renamed to the column behind it, keeps or drops whole
/// groups of every window that is examined: it says the same of two rows of one group, that is of
/// rows that agree on the columns that the window is over.
pub proof fn law_allowed_predicates_keep_groups<V>(
    exprs: Seq<AExpr>,
    projections: Seq<Node>,
    alias: Seq<char>,
    predicate: Node,
    window: Node,
    apply: spec_fn(AExpr, Seq<V>) -> V,
    row: spec_fn(Seq<char>) -> V,
    other: spec_fn(Seq<char>) -> V,
)
    requires
        well_formed(exprs),
        in_arena(exprs, predicate),
        allowed_pushdown_names(exprs, projections).contains_key(alias),
        reads_just(exprs, predicate, allowed_pushdown_names(exprs, projections)[alias]),
        examined(exprs, projections, window),
        at(exprs, window) matches AExpr::Window { partition_by, .. } && forall|name: Seq<char>|
            #[trigger] has_column(exprs, partition_by@, name) ==> row(name) == other(name),
    ensures
        value(exprs, apply, row, predicate) == value(exprs, apply, other, predicate),
{
    let column = allowed_pushdown_names(exprs, projections)[alias];
    assert(passes_windows(exprs, projections, column));
    assert(keeps_groups(exprs, at(exprs, window), column));
    law_value_goes_by_columns(exprs, apply, row, other, predicate);
}

} // verus!
