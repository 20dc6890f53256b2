//! The columns through which predicates can be pushed past a projection.

use std::sync::Arc;
use vstd::prelude::*;

use crate::aexpr::{AExpr, WindowType};
use crate::arena::{at, in_arena, Arena, Node};
use crate::boundary::{
    check_and_extend_predicate_pd_nodes, lemma_right_side_in_arena, stops_pushdown,
};
use crate::collections::{PlHashMap, PlHashSet};
use crate::schema::Schema;
use crate::traversal::{
    all_in_arena, depth, has_column, lemma_inputs_below_node, lemma_operands_in_arena,
    lemma_pending_one, lemma_pending_pop, pending, subtree, well_formed, Walk,
};

verus! {

/// The column at the end of the aliases at `node`, if it is one.
pub open spec fn column_behind(exprs: Seq<AExpr>, node: Node) -> Option<Seq<char>>
    decreases depth(exprs, node),
{
    match at(exprs, node) {
        AExpr::Column(name) => Some(name@),
        AExpr::Alias(inner, _) => if depth(exprs, inner) < depth(exprs, node) {
            column_behind(exprs, inner)
        } else {
            None
        },
        _ => None,
    }
}

/// The output name of the projection at `node` and the name of the input column that it is, if it
/// is one, under whatever name:
///
/// * `col(A).alias(B).alias(C) : (C, A)`
/// * `col(A)                   : (A, A)`
/// * `col(A).sum().alias(B)    : None`
pub open spec fn aliased_column(exprs: Seq<AExpr>, node: Node) -> Option<(Seq<char>, Seq<char>)> {
    match (column_behind(exprs, node), at(exprs, node)) {
        (Some(column), AExpr::Alias(_, alias)) => Some((alias@, column)),
        (Some(column), _) => Some((column, column)),
        (None, _) => None,
    }
}

/// The output name of a projection and the input column that it is, if it is one:
///
/// * `col(A).alias(B).alias(C) : (C, A)`
/// * `col(A)                   : (A, A)`
/// * `col(A).sum().alias(B)    : None`
pub fn get_maybe_aliased_projection_to_input_name_map(
    node: Node,
    expr_arena: &Arena<AExpr>,
) -> (names: Option<(Arc<str>, Arc<str>)>)
    requires
        well_formed(expr_arena@),
        in_arena(expr_arena@, node),
    ensures
        match names {
            Some(pair) => aliased_column(expr_arena@, node) == Some((pair.0@, pair.1@)),
            None => aliased_column(expr_arena@, node) is None,
        },
{
    let ghost exprs = expr_arena@;
    let mut curr_node = node;
    let mut curr_alias: Option<Arc<str>> = None;
    loop
        invariant
            exprs == expr_arena@,
            well_formed(exprs),
            in_arena(exprs, node),
            in_arena(exprs, curr_node),
            column_behind(exprs, node) == column_behind(exprs, curr_node),
            match curr_alias {
                None => curr_node == node,
                Some(alias) => at(exprs, node) matches AExpr::Alias(_, outer) && outer@ == alias@,
            },
        decreases depth(exprs, curr_node),
    {
        proof {
            lemma_inputs_below_node(exprs, curr_node);
        }
        match expr_arena.get(curr_node) {
            AExpr::Alias(inner, alias) => {
                assert(at(exprs, curr_node).inputs()[0] == *inner);
                if curr_alias.is_none() {
                    curr_alias = Some(alias.clone());
                }
                curr_node = *inner;
            },
            AExpr::Column(name) => {
                return match curr_alias {
                    Some(alias) => Some((alias, name.clone())),
                    None => Some((name.clone(), name.clone())),
                };
            },
            _ => return None,
        }
    }
}

/// The projections that are input columns, as a map from output names to columns. Of two with the
/// same output name the later one counts.
pub open spec fn projected_columns(
    exprs: Seq<AExpr>,
    projections: Seq<Node>,
) -> Map<Seq<char>, Seq<char>>
    decreases projections.len(),
{
    if projections.len() == 0 {
        Map::empty()
    } else {
        let before = projected_columns(exprs, projections.drop_last());
        match aliased_column(exprs, projections.last()) {
            Some((alias, column)) => before.insert(alias, column),
            None => before,
        }
    }
}

/// Whether `node` is met in a projection that is no input column, on a walk that does not go into
/// windows.
pub open spec fn examined(exprs: Seq<AExpr>, projections: Seq<Node>, node: Node) -> bool {
    exists|i: int|
        0 <= i < projections.len() && aliased_column(exprs, #[trigger] projections[i]) is None
            && subtree(exprs, Walk::OutsideWindows, projections[i]).contains(node)
}

/// Whether all of `nodes` are columns.
pub open spec fn all_columns(exprs: Seq<AExpr>, nodes: Seq<Node>) -> bool {
    forall|i: int| 0 <= i < nodes.len() ==> at(exprs, #[trigger] nodes[i]) is Column
}

/// Whether no predicate at all can be pushed past a projection with `expr` in it: what gives other
/// results if rows are filtered out first, windows that roll, and windows over anything but
/// columns.
pub open spec fn bars_pushdown(exprs: Seq<AExpr>, expr: AExpr) -> bool {
    match expr {
        AExpr::Window { partition_by, options, .. } => options == WindowType::Rolling
            || !all_columns(exprs, partition_by@),
        _ => stops_pushdown(expr),
    }
}

/// Whether filters on the column `name` keep or drop whole groups of `expr`: it is no window, or
/// the column is one of those that the window is over.
pub open spec fn keeps_groups(exprs: Seq<AExpr>, expr: AExpr, name: Seq<char>) -> bool {
    match expr {
        AExpr::Window { partition_by, .. } => has_column(exprs, partition_by@, name),
        _ => true,
    }
}

/// Whether predicates on the column `name` can be pushed past all that is examined.
pub open spec fn passes_windows(
    exprs: Seq<AExpr>,
    projections: Seq<Node>,
    name: Seq<char>,
) -> bool {
    forall|node: Node| #[trigger]
        examined(exprs, projections, node) ==> keeps_groups(exprs, at(exprs, node), name)
}

/// Whether something is examined that no predicate can be pushed past.
pub open spec fn barred(exprs: Seq<AExpr>, projections: Seq<Node>) -> bool {
    exists|node: Node| #[trigger]
        examined(exprs, projections, node) && bars_pushdown(exprs, at(exprs, node))
}

/// The output names on which predicates can be pushed past `projections`, with the input columns
/// that they stand for.
pub open spec fn allowed_pushdown_names(
    exprs: Seq<AExpr>,
    projections: Seq<Node>,
) -> Map<Seq<char>, Seq<char>> {
    if barred(exprs, projections) {
        Map::empty()
    } else {
        projected_columns(exprs, projections).restrict(
            Set::new(
                |alias: Seq<char>|
                    passes_windows(
                        exprs,
                        projections,
                        projected_columns(exprs, projections)[alias],
                    ),
            ),
        )
    }
}

/// The names of the columns that a window is over; none if it is over something else.
fn partition_columns(partition_by: &Vec<Node>, expr_arena: &Arena<AExpr>) -> (names: Option<
    PlHashSet<Arc<str>>,
>)
    requires
        all_in_arena(expr_arena@, partition_by@),
    ensures
        match names {
            Some(set) => {
                &&& all_columns(expr_arena@, partition_by@)
                &&& forall|name: Seq<char>| #[trigger]
                    set@.contains(name) == has_column(expr_arena@, partition_by@, name)
            },
            None => !all_columns(expr_arena@, partition_by@),
        },
{
    let ghost exprs = expr_arena@;
    let mut partition_by_names: PlHashSet<Arc<str>> = PlHashSet::<Arc<str>>::new();
    let mut i: usize = 0;
    while i < partition_by.len()
        invariant
            exprs == expr_arena@,
            all_in_arena(exprs, partition_by@),
            i <= partition_by@.len(),
            all_columns(exprs, partition_by@.take(i as int)),
            forall|name: Seq<char>| #[trigger]
                partition_by_names@.contains(name) == has_column(
                    exprs,
                    partition_by@.take(i as int),
                    name,
                ),
        decreases partition_by@.len() - i,
    {
        let ghost some = partition_by@.take(i as int);
        let ghost more = partition_by@.take(i + 1);
        let ghost known = partition_by_names@;
        if let AExpr::Column(column) = expr_arena.get(partition_by[i]) {
            partition_by_names.insert(column.clone());
            proof {
                assert(more =~= some.push(partition_by@[i as int]));
                assert forall|name: Seq<char>| #[trigger]
                    partition_by_names@.contains(name) == has_column(exprs, more, name) by {
                    if known.contains(name) {
                        let j = choose|j: int|
                            0 <= j < some.len() && (at(exprs, #[trigger] some[j]) matches AExpr::Column(
                                c,
                            ) && c@ == name);
                        assert(more[j] == some[j]);
                    }
                    if column@ == name {
                        assert(more[i as int] == partition_by@[i as int]);
                    }
                    if has_column(exprs, more, name) {
                        let j = choose|j: int|
                            0 <= j < more.len() && (at(exprs, #[trigger] more[j]) matches AExpr::Column(
                                c,
                            ) && c@ == name);
                        if j < i {
                            assert(some[j] == more[j]);
                            assert(has_column(exprs, some, name));
                            assert(known.contains(name));
                        }
                    }
                }
            }
        } else {
            assert(!(at(exprs, partition_by@[i as int]) is Column));
            return None;
        }
        i += 1;
    }
    assert(partition_by@.take(i as int) =~= partition_by@);
    Some(partition_by_names)
}

/// Whether all windows among `done` are over the column `name`.
spec fn shared(exprs: Seq<AExpr>, done: Set<Node>, name: Seq<char>) -> bool {
    forall|node: Node| #[trigger]
        done.contains(node) ==> keeps_groups(exprs, at(exprs, node), name)
}

/// Whether `common` are the columns that all windows among `done` are over; none if there is no
/// window.
spec fn is_common(
    exprs: Seq<AExpr>,
    done: Set<Node>,
    common: Option<PlHashSet<Arc<str>>>,
) -> bool {
    match common {
        None => forall|node: Node| #[trigger] done.contains(node) ==> !(at(exprs, node) is Window),
        Some(set) => forall|name: Seq<char>| #[trigger]
            set@.contains(name) == shared(exprs, done, name),
    }
}

/// The projections of a longer list are examined too.
proof fn lemma_examined_more(exprs: Seq<AExpr>, projections: Seq<Node>, i: int, node: Node)
    requires
        0 <= i < projections.len(),
    ensures
        examined(exprs, projections.take(i + 1), node) <==> (examined(
            exprs,
            projections.take(i),
            node,
        ) || (aliased_column(exprs, projections[i]) is None && subtree(
            exprs,
            Walk::OutsideWindows,
            projections[i],
        ).contains(node))),
        examined(exprs, projections.take(i + 1), node) ==> examined(exprs, projections, node),
{
    let some = projections.take(i);
    let more = projections.take(i + 1);
    if examined(exprs, some, node) {
        let j = choose|j: int|
            0 <= j < some.len() && aliased_column(exprs, #[trigger] some[j]) is None && subtree(
                exprs,
                Walk::OutsideWindows,
                some[j],
            ).contains(node);
        assert(more[j] == some[j]);
    }
    if aliased_column(exprs, projections[i]) is None && subtree(
        exprs,
        Walk::OutsideWindows,
        projections[i],
    ).contains(node) {
        assert(more[i] == projections[i]);
    }
    if examined(exprs, more, node) {
        let j = choose|j: int|
            0 <= j < more.len() && aliased_column(exprs, #[trigger] more[j]) is None && subtree(
                exprs,
                Walk::OutsideWindows,
                more[j],
            ).contains(node);
        assert(projections[j] == more[j]);
        if j < i {
            assert(some[j] == more[j]);
        }
    }
}

/// The output names on which predicates can be pushed past a projection, with the input columns
/// that they stand for. Neither `_acc_predicates` nor `_input_schema` matters.
#[verifier::rlimit(40)]
pub fn get_allowed_pushdown_names(
    projection_nodes: &Vec<Node>,
    _acc_predicates: &PlHashMap<Arc<str>, Node>,
    _input_schema: Arc<Schema>,
    expr_arena: &Arena<AExpr>,
) -> (allowed: PlHashMap<Arc<str>, Arc<str>>)
    requires
        well_formed(expr_arena@),
        all_in_arena(expr_arena@, projection_nodes@),
    ensures
        allowed@ == allowed_pushdown_names(expr_arena@, projection_nodes@),
{
    let ghost exprs = expr_arena@;
    let ghost projections = projection_nodes@;
    let mut ae_nodes_stack: Vec<Node> = Vec::with_capacity(4);
    let mut allowed_pushdown_names: PlHashMap<Arc<str>, Arc<str>> =
        PlHashMap::<Arc<str>, Arc<str>>::new();
    let mut common_window_inputs: Option<PlHashSet<Arc<str>>> = None;
    let ghost mut done: Set<Node> = Set::empty();
    let mut i: usize = 0;
    while i < projection_nodes.len()
        invariant
            exprs == expr_arena@,
            projections == projection_nodes@,
            well_formed(exprs),
            all_in_arena(exprs, projections),
            i <= projections.len(),
            ae_nodes_stack@.len() == 0,
            allowed_pushdown_names@ == projected_columns(exprs, projections.take(i as int)),
            forall|n: Node| #[trigger]
                done.contains(n) <==> examined(exprs, projections.take(i as int), n),
            forall|n: Node| #[trigger] done.contains(n) ==> examined(exprs, projections, n),
            forall|n: Node| #[trigger] done.contains(n) ==> !bars_pushdown(exprs, at(exprs, n)),
            is_common(exprs, done, common_window_inputs),
        decreases projections.len() - i,
    {
        let projection_node = projection_nodes[i];
        proof {
            let more = projections.take(i + 1);
            assert(more.drop_last() =~= projections.take(i as int));
            assert(more.last() == projection_node);
            assert forall|n: Node| #[trigger] examined(exprs, more, n) <==> (done.contains(n) || (
            aliased_column(exprs, projection_node) is None && subtree(
                exprs,
                Walk::OutsideWindows,
                projection_node,
            ).contains(n))) by {
                lemma_examined_more(exprs, projections, i as int, n);
            }
            assert forall|n: Node| #[trigger] examined(exprs, more, n) implies examined(
                exprs,
                projections,
                n,
            ) by {
                lemma_examined_more(exprs, projections, i as int, n);
            }
        }
        if let Some((alias, column_name)) = get_maybe_aliased_projection_to_input_name_map(
            projection_node,
            expr_arena,
        ) {
            allowed_pushdown_names.insert(alias, column_name);
            i += 1;
            continue;
        }
        ae_nodes_stack.push(projection_node);
        let ghost all = subtree(exprs, Walk::OutsideWindows, projection_node);
        let ghost mut seen: Seq<Node> = seq![];
        let ghost earlier = done;
        proof {
            assert(ae_nodes_stack@ =~= seq![projection_node]);
            lemma_pending_one(exprs, Walk::OutsideWindows, projection_node);
            assert(seen + pending(exprs, Walk::OutsideWindows, ae_nodes_stack@) =~= all);
        }
        while ae_nodes_stack.len() > 0
            invariant
                exprs == expr_arena@,
                projections == projection_nodes@,
                well_formed(exprs),
                0 <= i < projections.len(),
                all == subtree(exprs, Walk::OutsideWindows, projection_node),
                all_in_arena(exprs, ae_nodes_stack@),
                allowed_pushdown_names@ == projected_columns(exprs, projections.take(i as int)),
                all == seen + pending(exprs, Walk::OutsideWindows, ae_nodes_stack@),
                forall|n: Node| #[trigger]
                    examined(exprs, projections.take(i + 1), n) <==> (earlier.contains(n)
                        || all.contains(n)),
                forall|n: Node| #[trigger]
                    examined(exprs, projections.take(i + 1), n) ==> examined(
                        exprs,
                        projections,
                        n,
                    ),
                forall|n: Node| #[trigger]
                    done.contains(n) <==> (earlier.contains(n) || seen.contains(n)),
                forall|n: Node| #[trigger]
                    done.contains(n) ==> !bars_pushdown(exprs, at(exprs, n)),
                is_common(exprs, done, common_window_inputs),
            decreases pending(exprs, Walk::OutsideWindows, ae_nodes_stack@).len(),
        {
            proof {
                lemma_pending_pop(exprs, Walk::OutsideWindows, ae_nodes_stack@);
                assert(in_arena(exprs, ae_nodes_stack@[ae_nodes_stack@.len() - 1]));
                lemma_operands_in_arena(exprs, ae_nodes_stack@.last());
                lemma_right_side_in_arena(exprs, at(exprs, ae_nodes_stack@.last()));
            }
            let node = ae_nodes_stack.pop().unwrap();
            let ghost before = done;
            let ghost lower = ae_nodes_stack@;
            proof {
                assert(all[seen.len() as int] == node);
                assert(all.contains(node));
                assert(examined(exprs, projections.take(i + 1), node));
                assert(examined(exprs, projections, node));
                assert forall|n: Node| seen.push(node).contains(n) == (seen.contains(n) || n
                    == node) by {
                    if seen.contains(n) {
                        let j = choose|j: int| 0 <= j < seen.len() && seen[j] == n;
                        assert(seen.push(node)[j] == n);
                    }
                    assert(seen.push(node)[seen.len() as int] == node);
                }
                seen = seen.push(node);
                done = done.insert(node);
            }
            let ae = expr_arena.get(node);
            if let AExpr::Window { function: _, partition_by, options } = ae {
                if let WindowType::Rolling = options {
                    allowed_pushdown_names.clear();
                    return allowed_pushdown_names;
                }
                proof {
                    assert forall|j: int| 0 <= j < partition_by@.len() implies in_arena(
                        exprs,
                        #[trigger] partition_by@[j],
                    ) by {
                        assert(ae.inputs()[partition_by@.len() - 1 - j] == partition_by@[j]);
                    }
                }
                let partition_by_names = match partition_columns(partition_by, expr_arena) {
                    Some(names) => names,
                    None => {
                        // e.g.:
                        // .over(col(A) + 1)
                        // cannot pushdown in this case
                        allowed_pushdown_names.clear();
                        return allowed_pushdown_names;
                    },
                };
                let ghost known = common_window_inputs;
                let common = match common_window_inputs {
                    None => partition_by_names,
                    Some(mut common) => {
                        common.retain_in(&partition_by_names);
                        common
                    },
                };
                proof {
                    lemma_common_with(
                        exprs,
                        before,
                        known,
                        node,
                        partition_by_names@,
                        common,
                    );
                }
                if common.is_empty() {
                    // Cannot push into disjoint windows:
                    // e.g.:
                    // * sum().over(A)
                    // * sum().over(B)
                    proof {
                        assert forall|n: Node| #[trigger] done.contains(n) implies examined(
                            exprs,
                            projections,
                            n,
                        ) by {
                            if n != node && !earlier.contains(n) {
                                assert(seen.contains(n));
                                let j = choose|j: int| 0 <= j < seen.len() && seen[j] == n;
                                assert(all[j] == n);
                            }
                            assert(examined(exprs, projections.take(i + 1), n));
                        }
                        assert forall|name: Seq<char>| !#[trigger] passes_windows(
                            exprs,
                            projections,
                            name,
                        ) by {
                            lemma_disjoint(exprs, projections, done, common, name);
                        }
                    }
                    allowed_pushdown_names.clear();
                    assert(allowed_pushdown_names@ =~= crate::allowed::allowed_pushdown_names(
                        exprs,
                        projections,
                    ));
                    return allowed_pushdown_names;
                }
                common_window_inputs = Some(common);
                assert(lower + Walk::OutsideWindows.inputs(exprs, *ae) =~= lower);
            } else if !check_and_extend_predicate_pd_nodes(&mut ae_nodes_stack, ae, expr_arena) {
                allowed_pushdown_names.clear();
                return allowed_pushdown_names;
            } else {
                proof {
                    lemma_common_without(exprs, before, common_window_inputs, node);
                }
            }
            proof {
                assert(all =~= seen + pending(exprs, Walk::OutsideWindows, ae_nodes_stack@));
            }
        }
        assert(all =~= seen);
        i += 1;
    }
    proof {
        assert(projections.take(i as int) =~= projections);
        if barred(exprs, projections) {
            let n = choose|n: Node| #[trigger]
                examined(exprs, projections, n) && bars_pushdown(exprs, at(exprs, n));
            assert(done.contains(n));
        }
    }
    let ghost columns = projected_columns(exprs, projections);
    if let Some(common) = common_window_inputs {
        allowed_pushdown_names.retain_names(&common);
        proof {
            assert forall|name: Seq<char>| #[trigger]
                passes_windows(exprs, projections, name) == common@.contains(name) by {
                lemma_passes(exprs, projections, done, name);
            }
        }
        assert(allowed_pushdown_names@ =~= crate::allowed::allowed_pushdown_names(
            exprs,
            projections,
        ));
    } else {
        proof {
            assert forall|name: Seq<char>| #[trigger] passes_windows(exprs, projections, name) by {
                lemma_passes(exprs, projections, done, name);
            }
        }
        assert(allowed_pushdown_names@ =~= crate::allowed::allowed_pushdown_names(
            exprs,
            projections,
        ));
    }
    allowed_pushdown_names
}

/// What passes all windows that were met passes all that are examined.
proof fn lemma_passes(
    exprs: Seq<AExpr>,
    projections: Seq<Node>,
    done: Set<Node>,
    name: Seq<char>,
)
    requires
        forall|n: Node| #[trigger] done.contains(n) <==> examined(exprs, projections, n),
    ensures
        passes_windows(exprs, projections, name) == shared(exprs, done, name),
{
    if passes_windows(exprs, projections, name) {
        assert forall|n: Node| #[trigger] done.contains(n) implies keeps_groups(
            exprs,
            at(exprs, n),
            name,
        ) by {
            assert(examined(exprs, projections, n));
        }
    } else {
        let n = choose|n: Node| #[trigger]
            examined(exprs, projections, n) && !keeps_groups(exprs, at(exprs, n), name);
        assert(done.contains(n));
    }
}

/// A column that is not common to all windows that were met does not pass them.
proof fn lemma_disjoint(
    exprs: Seq<AExpr>,
    projections: Seq<Node>,
    done: Set<Node>,
    common: PlHashSet<Arc<str>>,
    name: Seq<char>,
)
    requires
        is_common(exprs, done, Some(common)),
        !common@.contains(name),
        forall|n: Node| #[trigger] done.contains(n) ==> examined(exprs, projections, n),
    ensures
        !passes_windows(exprs, projections, name),
{
    assert(!shared(exprs, done, name)) by {
        let set = Some(common)->0;
        assert(set@.contains(name) == shared(exprs, done, name));
    }
    let n = choose|n: Node| #[trigger]
        done.contains(n) && !keeps_groups(exprs, at(exprs, n), name);
    assert(examined(exprs, projections, n));
}

/// A window more: the common columns are those that it is over too.
proof fn lemma_common_with(
    exprs: Seq<AExpr>,
    done: Set<Node>,
    common: Option<PlHashSet<Arc<str>>>,
    node: Node,
    names: Set<Seq<char>>,
    result: PlHashSet<Arc<str>>,
)
    requires
        is_common(exprs, done, common),
        at(exprs, node) is Window,
        forall|name: Seq<char>| #[trigger]
            names.contains(name) == keeps_groups(exprs, at(exprs, node), name),
        match common {
            None => result@ == names,
            Some(set) => result@ == set@.intersect(names),
        },
    ensures
        is_common(exprs, done.insert(node), Some(result)),
{
    let more = done.insert(node);
    assert forall|name: Seq<char>| #[trigger] result@.contains(name) == shared(
        exprs,
        more,
        name,
    ) by {
        lemma_shared_more(exprs, done, node, name);
        match common {
            None => {
                assert(shared(exprs, done, name));
            },
            Some(set) => {
                assert(set@.contains(name) == shared(exprs, done, name));
            },
        }
        assert(names.contains(name) == keeps_groups(exprs, at(exprs, node), name));
    }
}

/// A column is common to all windows of a larger set if it is common to those of the set and to
/// the one more.
proof fn lemma_shared_more(exprs: Seq<AExpr>, done: Set<Node>, node: Node, name: Seq<char>)
    ensures
        shared(exprs, done.insert(node), name) == (shared(exprs, done, name) && keeps_groups(
            exprs,
            at(exprs, node),
            name,
        )),
{
    let more = done.insert(node);
    if shared(exprs, more, name) {
        assert(more.contains(node));
        assert forall|n: Node| #[trigger] done.contains(n) implies keeps_groups(
            exprs,
            at(exprs, n),
            name,
        ) by {
            assert(more.contains(n));
        }
    }
}

/// Something that is no window: the common columns stay.
proof fn lemma_common_without(
    exprs: Seq<AExpr>,
    done: Set<Node>,
    common: Option<PlHashSet<Arc<str>>>,
    node: Node,
)
    requires
        is_common(exprs, done, common),
        !(at(exprs, node) is Window),
    ensures
        is_common(exprs, done.insert(node), common),
{
    let more = done.insert(node);
    match common {
        None => {},
        Some(set) => {
            assert forall|name: Seq<char>| #[trigger] set@.contains(name) == shared(
                exprs,
                more,
                name,
            ) by {
                lemma_shared_more(exprs, done, node, name);
            }
        },
    }
}

} // verus!
