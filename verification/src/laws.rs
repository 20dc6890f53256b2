//! What holds of the operations together: no predicate is lost or made up on its way down.

use std::sync::Arc;
use vstd::prelude::*;

use crate::aexpr::{AExpr, Operator};
use crate::arena::{at, in_arena, Node};
use crate::boundary::keeps_values;
use crate::collections::lists;
use crate::combine::{
    acc_with, and_chain, and_expr, at_scan, conjunction, exprs_with, scan_combines, values,
};
use crate::keys::{has_name, predicate_key};
use crate::projection::{
    alias_step, goes_on_renamed, is_trace, lemma_insert_valid, lemma_moves_valid,
    lemma_split_alias_step, lemma_split_output_step, lemma_split_step, modifies_columns,
    output_step, projection_step, renaming, stuck, Pushdown,
};
use crate::transfer::{moves, orders, reading, under};
use crate::traversal::{grows, leaf_names, reads_only};

verus! {

/// Whether `truth` takes the expressions that combine two others by `and` as what they say.
pub open spec fn respects_and(exprs: Seq<AExpr>, truth: spec_fn(Node) -> bool) -> bool {
    forall|node: Node| #[trigger]
        in_arena(exprs, node) ==> (at(exprs, node) matches AExpr::BinaryExpr { left, op, right }
            ==> op == Operator::And ==> truth(node) == (truth(left) && truth(right)))
}

/// Whether all of `nodes` are true.
pub open spec fn all_true(nodes: Seq<Node>, truth: spec_fn(Node) -> bool) -> bool {
    forall|i: int| 0 <= i < nodes.len() ==> truth(#[trigger] nodes[i])
}

/// Whether all accumulated predicates are true.
pub open spec fn acc_true(acc: Map<Seq<char>, Node>, truth: spec_fn(Node) -> bool) -> bool {
    forall|key: Seq<char>| #[trigger] acc.contains_key(key) ==> truth(acc[key])
}

/// What joining the accumulated predicates adds and changes: if there is a predicate under the same
/// key, the conjunction of the new one with it, in this order, takes its place; else the new one
/// comes in as it is. No other key is touched.
pub proof fn law_insert_exactly(
    exprs: Seq<AExpr>,
    acc: Map<Seq<char>, Node>,
    predicate: Node,
    other: Seq<char>,
)
    requires
        exprs.len() <= usize::MAX,
    ensures
        ({
            let key = predicate_key(exprs, predicate);
            let more = acc_with(exprs, acc, predicate);
            &&& more.contains_key(key)
            &&& acc.contains_key(key) ==> more[key].0 == exprs.len() && exprs_with(
                exprs,
                acc,
                predicate,
            ) == exprs.push(
                AExpr::BinaryExpr { left: predicate, op: Operator::And, right: acc[key] },
            )
            &&& !acc.contains_key(key) ==> more[key] == predicate && exprs_with(
                exprs,
                acc,
                predicate,
            ) == exprs
            &&& other != key ==> (more.contains_key(other) <==> acc.contains_key(other))
            &&& other != key && acc.contains_key(other) ==> more[other] == acc[other]
        }),
{
}

/// How predicates are combined: every one after the first is joined to what came before it by one
/// `and`, which has the latter on its left.
pub proof fn law_chain_exactly(size: nat, nodes: Seq<Node>, i: int)
    requires
        nodes.len() > 0,
        size + nodes.len() <= usize::MAX,
    ensures
        and_chain(size, nodes).len() == nodes.len() - 1,
        0 < i < nodes.len() ==> (and_chain(size, nodes)[i - 1] matches AExpr::BinaryExpr {
            left,
            op,
            right,
        } && op == Operator::And && right == nodes[i] && (i == 1 ==> left == nodes[0]) && (i > 1
            ==> left.0 == size + i - 2)),
        nodes.len() == 1 ==> conjunction(size, nodes, 1) == nodes[0],
        nodes.len() > 1 ==> conjunction(size, nodes, nodes.len() as int).0 == size + nodes.len()
            - 2,
{
}

/// What is combined at a scan: the predicates that are pushed into it, in the order in which they
/// come, and then its own one; nothing if none is pushed into it.
pub proof fn law_scan_exactly(
    before: Seq<AExpr>,
    nodes: Seq<Node>,
    predicate: Option<Node>,
    after: Seq<AExpr>,
    combined: Option<Node>,
)
    requires
        scan_combines(before, nodes, predicate, after, combined),
    ensures
        nodes.len() == 0 <==> combined is None,
        nodes.len() == 0 ==> after == before,
        nodes.len() > 0 && predicate is None ==> after == before + and_chain(before.len(), nodes)
            && combined == Some(conjunction(before.len(), nodes, nodes.len() as int)),
        nodes.len() > 0 && predicate is Some ==> after == before + and_chain(
            before.len(),
            nodes.push(predicate->0),
        ) && combined == Some(
            conjunction(before.len(), nodes.push(predicate->0), nodes.len() + 1int),
        ),
{
}

/// The predicates of entries are those of the entries, one by one.
pub proof fn law_values(entries: Seq<(Arc<str>, Node)>, i: int)
    ensures
        values(entries).len() == entries.len(),
        0 <= i < entries.len() ==> values(entries)[i] == entries[i].1,
{
}

/// Combined predicates are true exactly if each of them is.
pub proof fn law_combined_is_conjunction(
    exprs: Seq<AExpr>,
    nodes: Seq<Node>,
    truth: spec_fn(Node) -> bool,
)
    requires
        nodes.len() > 0,
        (exprs + and_chain(exprs.len(), nodes)).len() <= usize::MAX,
        respects_and(exprs + and_chain(exprs.len(), nodes), truth),
    ensures
        truth(conjunction(exprs.len(), nodes, nodes.len() as int)) == all_true(nodes, truth),
{
    lemma_conjunction(exprs, nodes, truth, nodes.len() as int);
    assert(nodes.take(nodes.len() as int) =~= nodes);
}

/// The conjunction of the first predicates is true exactly if each of them is.
proof fn lemma_conjunction(
    exprs: Seq<AExpr>,
    nodes: Seq<Node>,
    truth: spec_fn(Node) -> bool,
    count: int,
)
    requires
        1 <= count <= nodes.len(),
        (exprs + and_chain(exprs.len(), nodes)).len() <= usize::MAX,
        respects_and(exprs + and_chain(exprs.len(), nodes), truth),
    ensures
        truth(conjunction(exprs.len(), nodes, count)) == all_true(nodes.take(count), truth),
    decreases count,
{
    let some = nodes.take(count);
    if count == 1 {
        assert(some[0] == nodes[0]);
        assert(all_true(some, truth) == truth(nodes[0]));
    } else {
        let all = exprs + and_chain(exprs.len(), nodes);
        let fewer = nodes.take(count - 1);
        lemma_conjunction(exprs, nodes, truth, count - 1);
        let node = conjunction(exprs.len(), nodes, count);
        assert(in_arena(all, node));
        assert(at(all, node) == and_chain(exprs.len(), nodes)[count - 2]);
        assert(at(all, node) == and_expr(
            conjunction(exprs.len(), nodes, count - 1),
            nodes[count - 1],
        ));
        assert(some =~= fewer.push(nodes[count - 1]));
        assert(all_true(some, truth) == (all_true(fewer, truth) && truth(nodes[count - 1]))) by {
            if all_true(some, truth) {
                assert forall|i: int| 0 <= i < fewer.len() implies truth(#[trigger] fewer[i]) by {
                    assert(some[i] == fewer[i]);
                }
                assert(some[count - 1] == nodes[count - 1]);
            }
        }
    }
}

/// A predicate that joins the accumulated ones is neither lost nor does it push another one out:
/// afterwards all are true exactly if all were and the new one is.
pub proof fn law_inserted_is_conjunction(
    exprs: Seq<AExpr>,
    acc: Map<Seq<char>, Node>,
    predicate: Node,
    truth: spec_fn(Node) -> bool,
)
    requires
        exprs_with(exprs, acc, predicate).len() <= usize::MAX,
        respects_and(exprs_with(exprs, acc, predicate), truth),
    ensures
        acc_true(acc_with(exprs, acc, predicate), truth) == (acc_true(acc, truth) && truth(
            predicate,
        )),
{
    let key = predicate_key(exprs, predicate);
    let more = acc_with(exprs, acc, predicate);
    let after = exprs_with(exprs, acc, predicate);
    if acc.contains_key(key) {
        let node = Node(exprs.len() as usize);
        assert(in_arena(after, node));
        assert(at(after, node) == and_expr(predicate, acc[key]));
        assert(truth(node) == (truth(predicate) && truth(acc[key])));
    }
    if acc_true(more, truth) {
        assert(more.contains_key(key));
        assert forall|k: Seq<char>| #[trigger] acc.contains_key(k) implies truth(acc[k]) by {
            assert(more.contains_key(k));
        }
    }
    if acc_true(acc, truth) && truth(predicate) {
        assert forall|k: Seq<char>| #[trigger] more.contains_key(k) implies truth(more[k]) by {
            if k != key {
                assert(acc.contains_key(k));
            }
        }
    }
}

/// The predicate of a scan is true exactly if all predicates that were pushed into it are, and
/// the one that it had, whatever the order in which they were combined.
pub proof fn law_scan_predicate_is_conjunction(
    before: Seq<AExpr>,
    acc: Map<Seq<char>, Node>,
    entries: Seq<(Arc<str>, Node)>,
    predicate: Option<Node>,
    after: Seq<AExpr>,
    combined: Node,
    truth: spec_fn(Node) -> bool,
)
    requires
        lists(acc, entries),
        scan_combines(before, values(entries), predicate, after, Some(combined)),
        after.len() <= usize::MAX,
        respects_and(after, truth),
    ensures
        truth(combined) == (acc_true(acc, truth) && (predicate matches Some(own) ==> truth(own))),
{
    let nodes = values(entries);
    let all = at_scan(nodes, predicate);
    law_combined_is_conjunction(before, all, truth);
    assert(all_true(nodes, truth) == acc_true(acc, truth)) by {
        if all_true(nodes, truth) {
            assert forall|key: Seq<char>| #[trigger] acc.contains_key(key) implies truth(
                acc[key],
            ) by {
                let i = choose|i: int| 0 <= i < entries.len() && (#[trigger] entries[i]).0@ == key;
                assert(nodes[i] == acc[key]);
            }
        }
        if acc_true(acc, truth) {
            assert forall|i: int| 0 <= i < nodes.len() implies truth(#[trigger] nodes[i]) by {
                assert(acc.contains_key(entries[i].0@));
                assert(nodes[i] == entries[i].1);
            }
        }
    }
    match predicate {
        Some(own) => {
            assert(all_true(all, truth) == (all_true(nodes, truth) && truth(own))) by {
                if all_true(all, truth) {
                    assert forall|i: int| 0 <= i < nodes.len() implies truth(
                        #[trigger] nodes[i],
                    ) by {
                        assert(all[i] == nodes[i]);
                    }
                    assert(all[nodes.len() as int] == own);
                }
            }
        },
        None => {},
    }
}

/// Whether all predicates are true, those that go on downwards and those that are applied here, but
/// for the first `count` of the latter.
pub open spec fn holds_from(state: Pushdown, count: int, truth: spec_fn(Node) -> bool) -> bool {
    acc_true(state.acc, truth) && all_true(state.local.skip(count), truth)
}

/// Whether `truth` takes the copy of the predicate under an alias that goes below the projection
/// of this alias, with the alias renamed to the column behind it, as true exactly if the predicate
/// is.
pub open spec fn trusts_renaming(
    before: Pushdown,
    projection: Node,
    after: Pushdown,
    truth: spec_fn(Node) -> bool,
) -> bool {
    at(before.exprs, projection) matches AExpr::Alias(_, alias) ==> keeps_values(
        before.exprs,
        projection,
    ) ==> forall|copied: Seq<AExpr>, copy: Node|
        before.acc.contains_key(alias@) && grows(copied, after.exprs) && #[trigger] renaming(
            before.exprs,
            before.acc[alias@],
            leaf_names(before.exprs, projection)[0],
            copied,
            copy,
        ) ==> truth(copy) == truth(before.acc[alias@])
}

/// Predicates that are made local ones are the same predicates.
proof fn lemma_moves_holds(
    acc: Map<Seq<char>, Node>,
    local: Seq<Node>,
    taken: Set<Seq<char>>,
    acc_after: Map<Seq<char>, Node>,
    local_after: Seq<Node>,
    count: int,
    truth: spec_fn(Node) -> bool,
)
    requires
        moves(acc, local, taken, acc_after, local_after),
        0 <= count <= local.len(),
    ensures
        local.is_prefix_of(local_after),
        (acc_true(acc_after, truth) && all_true(local_after.skip(count), truth)) == (acc_true(
            acc,
            truth,
        ) && all_true(local.skip(count), truth)),
{
    let keys = choose|keys: Seq<Seq<char>>| #[trigger]
        orders(keys, acc.dom().intersect(taken)) && local_after == local + under(acc, keys);
    let moved = under(acc, keys);
    let some = local.skip(count);
    let more = local_after.skip(count);
    assert(more =~= some + moved);
    if acc_true(acc_after, truth) && all_true(more, truth) {
        assert forall|k: Seq<char>| #[trigger] acc.contains_key(k) implies truth(acc[k]) by {
            if taken.contains(k) {
                assert(keys.contains(k));
                let i = choose|i: int| 0 <= i < keys.len() && keys[i] == k;
                assert(moved[i] == acc[k]);
                assert(more[some.len() + i] == acc[k]);
            } else {
                assert(acc_after.contains_key(k));
            }
        }
        assert forall|i: int| 0 <= i < some.len() implies truth(#[trigger] some[i]) by {
            assert(more[i] == some[i]);
        }
    }
    if acc_true(acc, truth) && all_true(some, truth) {
        assert forall|k: Seq<char>| #[trigger] acc_after.contains_key(k) implies truth(
            acc_after[k],
        ) by {
            assert(acc.contains_key(k));
        }
        assert forall|i: int| 0 <= i < more.len() implies truth(#[trigger] more[i]) by {
            if i >= some.len() {
                let k = keys[i - some.len()];
                assert(keys.contains(k));
                assert(acc.contains_key(k));
            } else {
                assert(more[i] == some[i]);
            }
        }
    }
}

/// A predicate that is made a local one is the same predicate.
proof fn lemma_one_holds(
    acc: Map<Seq<char>, Node>,
    local: Seq<Node>,
    key: Seq<char>,
    count: int,
    truth: spec_fn(Node) -> bool,
)
    requires
        acc.contains_key(key),
        0 <= count <= local.len(),
    ensures
        (acc_true(acc.remove(key), truth) && all_true(local.push(acc[key]).skip(count), truth)) == (
        acc_true(acc, truth) && all_true(local.skip(count), truth)),
{
    let keys = seq![key];
    let taken = set![key];
    assert(orders(keys, acc.dom().intersect(taken))) by {
        assert(keys[0] == key);
    }
    assert(under(acc, keys) =~= seq![acc[key]]);
    assert(local.push(acc[key]) =~= local + under(acc, keys));
    assert(acc.remove(key) =~= acc.remove_keys(taken));
    lemma_moves_holds(acc, local, taken, acc.remove(key), local.push(acc[key]), count, truth);
}

/// What is valid is valid after an alias.
proof fn lemma_alias_step_valid(
    before: Pushdown,
    projection: Node,
    allows: bool,
    after: Pushdown,
    skip: bool,
)
    requires
        before.valid(),
        alias_step(before, projection, allows, after, skip),
    ensures
        after.valid(),
        grows(before.exprs, after.exprs),
{
    let leaves = leaf_names(before.exprs, projection);
    match at(before.exprs, projection) {
        AExpr::Alias(_, alias) => {
            if leaves.len() > 0 {
                let taken = lemma_split_alias_step(
                    before,
                    projection,
                    alias@,
                    allows,
                    after,
                    skip,
                );
                if before.acc.contains_key(alias@) && allows && leaves.len() == 1 {
                    let predicate = before.acc[alias@];
                    let (copied, copy) = choose|copied: Seq<AExpr>, copy: Node| #[trigger]
                        goes_on_renamed(
                            before,
                            alias@,
                            predicate,
                            leaves[0],
                            copied,
                            copy,
                            taken,
                        );
                    lemma_insert_valid(copied, before.acc.remove(alias@), copy);
                }
                assert(taken.valid());
            }
        },
        _ => {},
    }
}

/// The arena stays well formed, keeps what it holds, and holds all predicates when they are
/// pushed past one projection.
pub proof fn law_projection_step_valid(
    before: Pushdown,
    projection: Node,
    output_name: Seq<char>,
    columns: Seq<Seq<char>>,
    after: Pushdown,
)
    requires
        before.valid(),
        projection_step(before, projection, output_name, columns, after),
    ensures
        after.valid(),
        grows(before.exprs, after.exprs),
{
    let allows = keeps_values(before.exprs, projection);
    let (middle, skip) = lemma_split_step(before, projection, output_name, columns, after);
    lemma_alias_step_valid(before, projection, allows, middle, skip);
    if !skip {
        let exprs = middle.exprs;
        let taken = stuck(exprs, middle.acc, output_name, allows, columns);
        let later = lemma_split_output_step(
            middle,
            projection,
            output_name,
            allows,
            columns,
            after,
        );
        lemma_moves_valid(exprs, middle.acc, middle.local, taken, later.acc, later.local);
        if modifies_columns(exprs, projection) {
            let read = reading(exprs, later.acc, leaf_names(exprs, projection));
            lemma_moves_valid(exprs, later.acc, later.local, read, after.acc, after.local);
        }
    }
}

/// At an alias no predicate is lost or made up.
proof fn lemma_alias_step_holds(
    before: Pushdown,
    projection: Node,
    allows: bool,
    after: Pushdown,
    skip: bool,
    count: int,
    truth: spec_fn(Node) -> bool,
)
    requires
        before.valid(),
        allows == keeps_values(before.exprs, projection),
        alias_step(before, projection, allows, after, skip),
        after.exprs.len() <= usize::MAX,
        respects_and(after.exprs, truth),
        trusts_renaming(before, projection, after, truth),
        0 <= count <= before.local.len(),
    ensures
        before.local.is_prefix_of(after.local),
        holds_from(after, count, truth) == holds_from(before, count, truth),
{
    let leaves = leaf_names(before.exprs, projection);
    match at(before.exprs, projection) {
        AExpr::Alias(_, alias) => {
            if leaves.len() > 0 {
                let taken = lemma_split_alias_step(
                    before,
                    projection,
                    alias@,
                    allows,
                    after,
                    skip,
                );
                if before.acc.contains_key(alias@) {
                    let predicate = before.acc[alias@];
                    let rest = before.acc.remove(alias@);
                    let some = before.local.skip(count);
                    let more = before.local.push(predicate).skip(count);
                    lemma_one_holds(before.acc, before.local, alias@, count, truth);
                    if allows && leaves.len() == 1 {
                        let (copied, copy) = choose|copied: Seq<AExpr>, copy: Node| #[trigger]
                            goes_on_renamed(
                                before,
                                alias@,
                                predicate,
                                leaves[0],
                                copied,
                                copy,
                                taken,
                            );
                        lemma_insert_valid(copied, rest, copy);
                        assert(truth(copy) == truth(predicate));
                        law_inserted_is_conjunction(copied, rest, copy, truth);
                        assert(all_true(more, truth) == (all_true(some, truth) && truth(
                            predicate,
                        ))) by {
                            assert(more =~= some.push(predicate));
                            if all_true(more, truth) {
                                assert(more[some.len() as int] == predicate);
                                assert forall|i: int| 0 <= i < some.len() implies truth(
                                    #[trigger] some[i],
                                ) by {
                                    assert(more[i] == some[i]);
                                }
                            }
                        }
                    }
                }
                assert(holds_from(taken, count, truth) == holds_from(before, count, truth));
                if exists|key: Seq<char>| #[trigger]
                    taken.acc.contains_key(key) && has_name(key, alias@) {
                    let key = choose|key: Seq<char>| #[trigger]
                        taken.acc.contains_key(key) && has_name(key, alias@) && after.acc
                            == taken.acc.remove(key) && after.local == taken.local.push(
                            taken.acc[key],
                        );
                    lemma_one_holds(taken.acc, taken.local, key, count, truth);
                }
            }
        },
        _ => {},
    }
}

/// Pushing predicates past one projection loses none and makes none up: the local ones stay, and
/// those that go on and those that have become local ones are all true exactly if all that came
/// from above are.
pub proof fn law_projection_step_keeps_filter(
    before: Pushdown,
    projection: Node,
    output_name: Seq<char>,
    columns: Seq<Seq<char>>,
    after: Pushdown,
    count: int,
    truth: spec_fn(Node) -> bool,
)
    requires
        before.valid(),
        projection_step(before, projection, output_name, columns, after),
        after.exprs.len() <= usize::MAX,
        respects_and(after.exprs, truth),
        trusts_renaming(before, projection, after, truth),
        0 <= count <= before.local.len(),
    ensures
        before.local.is_prefix_of(after.local),
        holds_from(after, count, truth) == holds_from(before, count, truth),
{
    let allows = keeps_values(before.exprs, projection);
    let (middle, skip) = lemma_split_step(before, projection, output_name, columns, after);
    lemma_alias_step_holds(before, projection, allows, middle, skip, count, truth);
    if !skip {
        let exprs = middle.exprs;
        let taken = stuck(exprs, middle.acc, output_name, allows, columns);
        let later = lemma_split_output_step(
            middle,
            projection,
            output_name,
            allows,
            columns,
            after,
        );
        lemma_moves_holds(middle.acc, middle.local, taken, later.acc, later.local, count, truth);
        if modifies_columns(exprs, projection) {
            let read = reading(exprs, later.acc, leaf_names(exprs, projection));
            lemma_moves_holds(later.acc, later.local, read, after.acc, after.local, count, truth);
        }
        assert(before.local.is_prefix_of(after.local)) by {
            assert(before.local =~= middle.local.take(before.local.len() as int));
            assert(middle.local =~= later.local.take(middle.local.len() as int));
            assert(later.local =~= after.local.take(later.local.len() as int));
            assert(before.local =~= after.local.take(before.local.len() as int));
        }
    }
}

/// Local predicates stay local ones.
pub proof fn lemma_local_stays(
    before: Pushdown,
    projection: Node,
    output_name: Seq<char>,
    columns: Seq<Seq<char>>,
    after: Pushdown,
)
    requires
        before.valid(),
        projection_step(before, projection, output_name, columns, after),
        after.exprs.len() <= usize::MAX,
    ensures
        before.local.is_prefix_of(after.local),
{
    // Of what is never true nothing is asked but that it stays so.
    let truth = |node: Node| false;
    law_projection_step_keeps_filter(
        before,
        projection,
        output_name,
        columns,
        after,
        before.local.len() as int,
        truth,
    );
}

/// From the first to any later state of a trace the arena stays well formed, keeps what it holds,
/// and holds all predicates.
pub proof fn law_rewrite_valid(
    trace: Seq<Pushdown>,
    projections: Seq<Node>,
    output_names: Seq<Seq<char>>,
    columns: Seq<Seq<char>>,
    i: int,
    j: int,
)
    requires
        is_trace(trace, projections, output_names, columns),
        trace.first().valid(),
        0 <= i <= j < trace.len(),
    ensures
        trace[i].valid(),
        trace[j].valid(),
        grows(trace[i].exprs, trace[j].exprs),
    decreases j,
{
    if j > 0 {
        if i == j {
            law_rewrite_valid(trace, projections, output_names, columns, i - 1, j - 1);
        } else {
            law_rewrite_valid(trace, projections, output_names, columns, i, j - 1);
        }
        assert(trace[j - 1 + 1] == trace[j]);
        law_projection_step_valid(
            trace[j - 1],
            projections[j - 1],
            output_names[j - 1],
            columns,
            trace[j],
        );
    }
}

/// Pushing predicates past all projections of a node loses none and makes none up: those that go
/// on below the node and those that are applied at it are all true exactly if those that came
/// from above are.
pub proof fn law_rewrite_keeps_filter(
    trace: Seq<Pushdown>,
    projections: Seq<Node>,
    output_names: Seq<Seq<char>>,
    columns: Seq<Seq<char>>,
    truth: spec_fn(Node) -> bool,
)
    requires
        is_trace(trace, projections, output_names, columns),
        trace.first().valid(),
        trace.last().exprs.len() <= usize::MAX,
        respects_and(trace.last().exprs, truth),
        forall|i: int|
            0 <= i < projections.len() ==> trusts_renaming(
                #[trigger] trace[i],
                projections[i],
                trace[i + 1],
                truth,
            ),
    ensures
        holds_from(trace.last(), 0, truth) == holds_from(trace.first(), 0, truth),
{
    lemma_trace_keeps_filter(
        trace,
        projections,
        output_names,
        columns,
        truth,
        projections.len() as int,
    );
}

/// Up to any state of a trace no predicate is lost or made up.
proof fn lemma_trace_keeps_filter(
    trace: Seq<Pushdown>,
    projections: Seq<Node>,
    output_names: Seq<Seq<char>>,
    columns: Seq<Seq<char>>,
    truth: spec_fn(Node) -> bool,
    count: int,
)
    requires
        is_trace(trace, projections, output_names, columns),
        trace.first().valid(),
        trace.last().exprs.len() <= usize::MAX,
        respects_and(trace.last().exprs, truth),
        forall|i: int|
            0 <= i < projections.len() ==> trusts_renaming(
                #[trigger] trace[i],
                projections[i],
                trace[i + 1],
                truth,
            ),
        0 <= count <= projections.len(),
    ensures
        holds_from(trace[count], 0, truth) == holds_from(trace.first(), 0, truth),
    decreases count,
{
    if count > 0 {
        let before = trace[count - 1];
        let after = trace[count];
        let last = trace.last().exprs;
        lemma_trace_keeps_filter(trace, projections, output_names, columns, truth, count - 1);
        law_rewrite_valid(
            trace,
            projections,
            output_names,
            columns,
            count - 1,
            projections.len() as int,
        );
        law_rewrite_valid(
            trace,
            projections,
            output_names,
            columns,
            count,
            projections.len() as int,
        );
        assert(trace[count - 1 + 1] == after);
        assert(respects_and(after.exprs, truth)) by {
            assert forall|node: Node| #[trigger] in_arena(after.exprs, node) implies (at(
                after.exprs,
                node,
            ) matches AExpr::BinaryExpr { left, op, right } ==> op == Operator::And ==> truth(node)
                == (truth(left) && truth(right))) by {
                assert(in_arena(last, node));
                assert(at(last, node) == at(after.exprs, node));
            }
        }
        law_projection_step_keeps_filter(
            before,
            projections[count - 1],
            output_names[count - 1],
            columns,
            after,
            0,
            truth,
        );
    }
}

/// What is left to go below a projection that was not skipped can go below it: a predicate on its
/// output column only if the projection keeps the values of a column and the input has all columns
/// that the predicate reads; and none on the columns that it modifies.
pub proof fn law_step_leaves_what_can_go_on(
    before: Pushdown,
    projection: Node,
    output_name: Seq<char>,
    allows: bool,
    columns: Seq<Seq<char>>,
    after: Pushdown,
    key: Seq<char>,
)
    requires
        output_step(before, projection, output_name, allows, columns, after),
        after.acc.contains_key(key),
    ensures
        before.acc.contains_key(key) && after.acc[key] == before.acc[key],
        has_name(key, output_name) ==> allows && reads_only(after.exprs, after.acc[key], columns),
        modifies_columns(after.exprs, projection) ==> forall|i: int|
            0 <= i < leaf_names(after.exprs, after.acc[key]).len() ==> !leaf_names(
                after.exprs,
                projection,
            ).contains(#[trigger] leaf_names(after.exprs, after.acc[key])[i]),
{
    let exprs = before.exprs;
    let taken = stuck(exprs, before.acc, output_name, allows, columns);
    let middle = lemma_split_output_step(
        before,
        projection,
        output_name,
        allows,
        columns,
        after,
    );
    assert(middle.acc.contains_key(key));
    assert(!taken.contains(key));
    if modifies_columns(exprs, projection) {
        assert(!reading(exprs, middle.acc, leaf_names(exprs, projection)).contains(key));
    }
}

} // verus!
