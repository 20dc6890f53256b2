//! When predicates keep their meaning on their way past the projections of a node.

use vstd::prelude::*;

use crate::aexpr::AExpr;
use crate::arena::{in_arena, Node};
use crate::key_laws::{law_fitting_key_tells_columns, law_name_as_key};
use crate::keys::has_name;
use crate::laws::{law_projection_step_valid, law_rewrite_valid};
use crate::origins::{
    is_renamed_here, lemma_modifies_stays, lemma_replaced, lemma_step_origin, may_be_left,
    reads_just, reads_kept, referred, renames_here, skips_here,
};
use crate::projection::{modifies_columns, Pushdown};
use crate::row_laws::{
    is_new, is_rewriting, keeps_meaning, lemma_projecting_stays, lemma_rewriting, reads_passing,
    step_keeps_meaning, Projecting,
};
use crate::traversal::{leaf_names, lemma_leaf_names_stay};

verus! {

/// Whether the projection at `i` does no harm to the meaning of predicates, as far as can be seen
/// from the projections and from the predicates that come to it:
///
/// * No predicate that refers to its output column is left (see [`may_be_left`]).
/// * If it renames a predicate, then to a column to which no later projection gives other values.
/// * If the output does not have this column, or has it with other values, no later projection
///   modifies it, unless it is done with before that matters.
pub open spec fn is_harmless(trace: Seq<Pushdown>, to: Projecting, i: int) -> bool {
    let before = trace[i];
    let projection = to.projections[i];
    let name = to.output_names[i];
    &&& forall|key: Seq<char>| !#[trigger] may_be_left(before, projection, name, to.columns, key)
    &&& forall|column: Seq<char>| #[trigger]
        renames_here(before, projection, name, column) ==> {
            &&& forall|j: int|
                i < j < to.output_names.len() && #[trigger] to.output_names[j] == column
                    ==> to.same_column(before.exprs, j)
            &&& forall|j: int|
                i < j < to.projections.len() && modifies_columns(
                    before.exprs,
                    #[trigger] to.projections[j],
                ) && leaf_names(before.exprs, to.projections[j]).contains(column) && !to.passes(
                    before.exprs,
                    column,
                ) ==> skips_here(trace[j], to.projections[j], to.output_names[j])
        }
}

/// Whether the column `column` is in the output what it is in the input, or is given by one of the
/// projections from `i` on.
spec fn sees(exprs: Seq<AExpr>, to: Projecting, i: int, column: Seq<char>) -> bool {
    to.passes(exprs, column) || to.given_from(i, column)
}

/// Whether this holds of all columns that the expression at `node` reads.
spec fn sees_all(exprs: Seq<AExpr>, to: Projecting, i: int, node: Node) -> bool {
    forall|column: Seq<char>| #[trigger]
        leaf_names(exprs, node).contains(column) ==> sees(exprs, to, i, column)
}

/// Whether a predicate has been renamed to `column` before state `i`.
spec fn is_target(trace: Seq<Pushdown>, to: Projecting, i: int, column: Seq<char>) -> bool {
    exists|j: int|
        0 <= j < i && renames_here(
            #[trigger] trace[j],
            to.projections[j],
            to.output_names[j],
            column,
        )
}

/// Whether the predicate at `node` is as it came from above and reads no column that has changed so
/// far, or has been renamed.
spec fn is_settled(trace: Seq<Pushdown>, to: Projecting, i: int, node: Node) -> bool {
    if is_new(trace, node) {
        exists|column: Seq<char>| #[trigger]
            is_target(trace, to, i, column) && reads_just(trace[i].exprs, node, column)
    } else {
        sees_all(trace[i].exprs, to, i, node)
    }
}

/// All accumulated predicates are as they came from above and read no column that has changed so
/// far, or have been renamed.
#[verifier::rlimit(30)]
proof fn lemma_settled(trace: Seq<Pushdown>, to: Projecting, i: int, key: Seq<char>)
    requires
        is_rewriting(trace, to),
        forall|j: int| 0 <= j < to.projections.len() ==> #[trigger] is_harmless(trace, to, j),
        0 <= i < trace.len(),
        trace[i].acc.contains_key(key),
    ensures
        is_settled(trace, to, i, trace[i].acc[key]),
    decreases i,
{
    let node = trace[i].acc[key];
    lemma_rewriting(trace, to, i);
    if i == 0 {
        let exprs = trace[0].exprs;
        assert forall|column: Seq<char>| #[trigger]
            leaf_names(exprs, node).contains(column) implies sees(exprs, to, 0, column) by {
            if !to.keeps_input {
                let j = choose|j: int|
                    0 <= j < leaf_names(exprs, node).len() && leaf_names(exprs, node)[j] == column;
                assert(to.output_names.contains(leaf_names(exprs, node)[j]));
                let k = choose|k: int|
                    0 <= k < to.output_names.len() && to.output_names[k] == column;
                assert(to.given_from(0, column));
            }
        }
    } else {
        let before = trace[i - 1];
        let after = trace[i];
        let projection = to.projections[i - 1];
        let name = to.output_names[i - 1];
        lemma_rewriting(trace, to, i - 1);
        assert(is_harmless(trace, to, i - 1));
        assert(trace[i - 1 + 1] == after);
        law_projection_step_valid(before, projection, name, to.columns, after);
        lemma_step_origin(before, projection, name, to.columns, after);
        lemma_projecting_stays(before.exprs, after.exprs, to);
        if before.acc.contains_key(key) && before.acc[key] == node {
            lemma_settled(trace, to, i - 1, key);
            lemma_leaf_names_stay(before.exprs, after.exprs, node);
            if !is_new(trace, node) {
                assert forall|column: Seq<char>| #[trigger]
                    leaf_names(after.exprs, node).contains(column) implies sees(
                    after.exprs,
                    to,
                    i,
                    column,
                ) by {
                    assert(sees(before.exprs, to, i - 1, column));
                    assert(to.passes(after.exprs, column) == to.passes(before.exprs, column));
                    if to.given_from(i - 1, column) {
                        let j = choose|j: int|
                            i - 1 <= j < to.output_names.len() && #[trigger] to.output_names[j]
                                == column;
                        if j == i - 1 {
                            assert(!may_be_left(before, projection, name, to.columns, key));
                            lemma_same_column_passes(before.exprs, to, i - 1);
                        } else {
                            assert(to.given_from(i, column));
                        }
                    }
                }
            } else {
                let column = choose|column: Seq<char>| #[trigger]
                    is_target(trace, to, i - 1, column) && reads_just(before.exprs, node, column);
                let j = choose|j: int|
                    0 <= j < i - 1 && renames_here(
                        #[trigger] trace[j],
                        to.projections[j],
                        to.output_names[j],
                        column,
                    );
                assert(is_target(trace, to, i, column));
                assert(reads_just(after.exprs, node, column));
            }
        } else {
            let column = choose|column: Seq<char>| #[trigger]
                is_renamed_here(before, projection, name, column, after.exprs, key, node);
            assert(renames_here(
                trace[i - 1],
                to.projections[i - 1],
                to.output_names[i - 1],
                column,
            ));
            assert(is_target(trace, to, i, column));
        }
    }
}

/// A column that a projection gives under its own name passes the node.
proof fn lemma_same_column_passes(exprs: Seq<AExpr>, to: Projecting, i: int)
    requires
        to.valid(exprs),
        0 <= i < to.projections.len(),
        to.same_column(exprs, i),
    ensures
        to.passes(exprs, to.output_names[i]),
{
    assert forall|j: int|
        0 <= j < to.output_names.len() && #[trigger] to.output_names[j]
            == to.output_names[i] implies to.same_column(exprs, j) by {
        assert(j == i);
    }
}

/// A column that a predicate has been renamed to passes the node if one of the projections from `i`
/// on gives it.
proof fn lemma_target_passes(trace: Seq<Pushdown>, to: Projecting, i: int, column: Seq<char>)
    requires
        is_rewriting(trace, to),
        forall|j: int| 0 <= j < to.projections.len() ==> #[trigger] is_harmless(trace, to, j),
        0 <= i < trace.len(),
        is_target(trace, to, i, column),
        to.given_from(i, column),
    ensures
        to.passes(trace[i].exprs, column),
{
    let j = choose|j: int|
        0 <= j < i && renames_here(
            #[trigger] trace[j],
            to.projections[j],
            to.output_names[j],
            column,
        );
    let k = choose|k: int|
        i <= k < to.output_names.len() && #[trigger] to.output_names[k] == column;
    assert(is_harmless(trace, to, j));
    assert(to.same_column(trace[j].exprs, k));
    lemma_rewriting(trace, to, i);
    lemma_rewriting(trace, to, j);
    law_rewrite_valid(trace, to.projections, to.output_names, to.columns, j, i);
    lemma_projecting_stays(trace[j].exprs, trace[i].exprs, to);
    assert(to.same_column(trace[i].exprs, k));
    lemma_same_column_passes(trace[i].exprs, to, k);
}

/// A renamed predicate that becomes a local one reads columns that are in the output what they are
/// in the input.
#[verifier::rlimit(30)]
proof fn lemma_new_local_passes(trace: Seq<Pushdown>, to: Projecting, i: int, k: int)
    requires
        is_rewriting(trace, to),
        forall|j: int| 0 <= j < to.projections.len() ==> #[trigger] is_harmless(trace, to, j),
        0 <= i < to.projections.len(),
        trace[i].local.len() <= k < trace[i + 1].local.len(),
        is_new(trace, trace[i + 1].local[k]),
    ensures
        reads_passing(trace[i + 1].exprs, to, trace[i + 1].local[k]),
{
    let before = trace[i];
    let after = trace[i + 1];
    let projection = to.projections[i];
    let name = to.output_names[i];
    let node = after.local[k];
    lemma_rewriting(trace, to, i);
    lemma_rewriting(trace, to, i + 1);
    law_projection_step_valid(before, projection, name, to.columns, after);
    lemma_step_origin(before, projection, name, to.columns, after);
    lemma_projecting_stays(before.exprs, after.exprs, to);
    if reads_kept(before, projection, name, after.exprs, node) {
        if leaf_names(after.exprs, node).len() > 0 {
            assert(to.same_column(before.exprs, i));
            lemma_same_column_passes(before.exprs, to, i);
            assert(to.passes(after.exprs, name) == to.passes(before.exprs, name));
        }
    } else {
        let key = if referred(before, name, node) {
            choose|key: Seq<char>| #[trigger]
                before.acc.contains_key(key) && has_name(key, name) && before.acc[key] == node
        } else {
            choose|key: Seq<char>| #[trigger]
                before.acc.contains_key(key) && before.acc[key] == node
        };
        lemma_settled(trace, to, i, key);
        lemma_leaf_names_stay(before.exprs, after.exprs, node);
        let leaves = leaf_names(before.exprs, node);
        let target = choose|target: Seq<char>| #[trigger]
            is_target(trace, to, i, target) && reads_just(before.exprs, node, target);
        assert forall|column: Seq<char>| #[trigger]
            leaf_names(after.exprs, node).contains(column) implies to.passes(
            after.exprs,
            column,
        ) by {
            assert(to.passes(after.exprs, column) == to.passes(before.exprs, column));
            assert(leaves.contains(column));
            assert(column == target);
            if referred(before, name, node) {
                law_fitting_key_tells_columns(before.exprs, before.acc, key, name);
                assert(leaves.contains(name));
                assert(to.output_names[i] == target);
                assert(to.given_from(i, target));
                lemma_target_passes(trace, to, i, target);
            } else {
                let read = choose|read: Seq<char>| #[trigger]
                    leaf_names(after.exprs, node).contains(read) && leaf_names(
                        before.exprs,
                        projection,
                    ).contains(read);
                assert(leaves.contains(read));
                assert(read == target);
                let j = choose|j: int|
                    0 <= j < i && renames_here(
                        #[trigger] trace[j],
                        to.projections[j],
                        to.output_names[j],
                        target,
                    );
                assert(is_harmless(trace, to, j));
                lemma_rewriting(trace, to, j);
                law_rewrite_valid(trace, to.projections, to.output_names, to.columns, j, i);
                lemma_projecting_stays(trace[j].exprs, before.exprs, to);
                assert(in_arena(trace[j].exprs, projection));
                lemma_leaf_names_stay(trace[j].exprs, before.exprs, projection);
                lemma_modifies_stays(trace[j].exprs, before.exprs, projection);
                assert(modifies_columns(trace[j].exprs, to.projections[i]));
                assert(to.passes(trace[j].exprs, target));
            }
        }
    }
}

/// Projections that do no harm change the meaning of no predicate.
pub proof fn law_harmless_projections_keep_meaning(trace: Seq<Pushdown>, to: Projecting)
    requires
        is_rewriting(trace, to),
        forall|i: int| 0 <= i < to.projections.len() ==> #[trigger] is_harmless(trace, to, i),
    ensures
        keeps_meaning(trace, to),
{
    let last = trace.len() - 1;
    assert forall|i: int| 0 <= i < to.projections.len() implies #[trigger] step_keeps_meaning(
        trace,
        to,
        i,
    ) by {
        lemma_harmless_step(trace, to, i);
    }
    lemma_rewriting(trace, to, last);
    assert forall|key: Seq<char>| #[trigger]
        trace.last().acc.contains_key(key) && !is_new(
            trace,
            trace.last().acc[key],
        ) implies reads_passing(trace.last().exprs, to, trace.last().acc[key]) by {
        lemma_settled(trace, to, last, key);
        let node = trace.last().acc[key];
        assert forall|column: Seq<char>| #[trigger]
            leaf_names(trace.last().exprs, node).contains(column) implies to.passes(
            trace.last().exprs,
            column,
        ) by {
            assert(sees(trace[last].exprs, to, last, column));
        }
    }
}

/// A predicate that has been renamed is not renamed to another column.
proof fn lemma_not_renamed_twice(
    trace: Seq<Pushdown>,
    to: Projecting,
    i: int,
    column: Seq<char>,
)
    requires
        is_rewriting(trace, to),
        forall|j: int| 0 <= j < to.projections.len() ==> #[trigger] is_harmless(trace, to, j),
        0 <= i < to.projections.len(),
        renames_here(trace[i], to.projections[i], to.output_names[i], column),
        is_new(trace, trace[i].acc[to.output_names[i]]),
    ensures
        column == to.output_names[i],
{
    let before = trace[i];
    let name = to.output_names[i];
    lemma_rewriting(trace, to, i);
    lemma_settled(trace, to, i, name);
    let target = choose|target: Seq<char>| #[trigger]
        is_target(trace, to, i, target) && reads_just(before.exprs, before.acc[name], target);
    law_name_as_key(before.exprs, before.acc, name, name);
    assert(target == name);
    assert(to.output_names[i] == name);
    assert(to.given_from(i, name));
    assert(to.given_from(0, name));
    lemma_target_passes(trace, to, i, name);
    assert(to.same_column(before.exprs, i));
}

/// A predicate that came from above is combined with a renamed one only if the columns that it reads
/// are in the output what they are in the input.
#[verifier::rlimit(30)]
proof fn lemma_combined_passes(trace: Seq<Pushdown>, to: Projecting, i: int, key: Seq<char>)
    requires
        is_rewriting(trace, to),
        forall|j: int| 0 <= j < to.projections.len() ==> #[trigger] is_harmless(trace, to, j),
        0 <= i < to.projections.len(),
        trace[i].acc.contains_key(key),
        trace[i + 1].acc.contains_key(key),
        !is_new(trace, trace[i].acc[key]),
        is_new(trace, trace[i + 1].acc[key]),
    ensures
        reads_passing(trace[i].exprs, to, trace[i].acc[key]),
{
    let before = trace[i];
    let after = trace[i + 1];
    let projection = to.projections[i];
    let name = to.output_names[i];
    let existing = before.acc[key];
    lemma_rewriting(trace, to, i);
    lemma_rewriting(trace, to, i + 1);
    assert(is_harmless(trace, to, i));
    lemma_settled(trace, to, i, key);
    let column = lemma_replaced(before, projection, name, to.columns, after, key);
    assert forall|c: Seq<char>| #[trigger]
        leaf_names(before.exprs, existing).contains(c) implies to.passes(before.exprs, c) by {
        assert(sees(before.exprs, to, i, c));
        assert(c == column);
        if to.given_from(i, c) {
            let j = choose|j: int|
                i <= j < to.output_names.len() && #[trigger] to.output_names[j] == c;
            assert(to.same_column(before.exprs, j));
            lemma_same_column_passes(before.exprs, to, j);
        }
    }
}

/// A projection among such that do no harm changes the meaning of no predicate.
proof fn lemma_harmless_step(trace: Seq<Pushdown>, to: Projecting, i: int)
    requires
        is_rewriting(trace, to),
        forall|j: int| 0 <= j < to.projections.len() ==> #[trigger] is_harmless(trace, to, j),
        0 <= i < to.projections.len(),
    ensures
        step_keeps_meaning(trace, to, i),
{
    let before = trace[i];
    let after = trace[i + 1];
    let name = to.output_names[i];
    assert forall|column: Seq<char>| #[trigger]
        renames_here(before, to.projections[i], name, column) && is_new(
            trace,
            before.acc[name],
        ) implies column == name by {
        lemma_not_renamed_twice(trace, to, i, column);
    }
    assert forall|k: int|
        before.local.len() <= k < after.local.len() && is_new(
            trace,
            #[trigger] after.local[k],
        ) implies reads_passing(after.exprs, to, after.local[k]) by {
        lemma_new_local_passes(trace, to, i, k);
    }
    assert forall|key: Seq<char>|
        #![trigger before.acc.contains_key(key)]
        before.acc.contains_key(key) && after.acc.contains_key(key) && !is_new(
            trace,
            before.acc[key],
        ) && is_new(trace, after.acc[key]) implies reads_passing(
        before.exprs,
        to,
        before.acc[key],
    ) by {
        lemma_combined_passes(trace, to, i, key);
    }
}

} // verus!
