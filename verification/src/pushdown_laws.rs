//! What holds of the expressions that predicates can, and cannot, be pushed past.

use vstd::prelude::*;

use crate::aexpr::{AExpr, ApplyOptions, BooleanFunction, FunctionExpr};
use crate::allowed::{
    aliased_column, allowed_pushdown_names, barred, bars_pushdown, column_behind, examined,
    keeps_groups, passes_windows, projected_columns,
};
use crate::arena::{at, in_arena, Node};
use crate::boundary::{blocks, is_column_or_alias, keeps_values, stops_pushdown};
use crate::traversal::{
    all_in_arena, column_names, depth, grows, is_in_literal, leaf_names, lemma_column_names_add,
    lemma_inputs_below_node, lemma_pending_one, lemma_subtree, lemma_subtree_in_arena,
    lemma_subtree_of_input, lemma_subtree_parts, lemma_subtree_stays, meets, projected_inputs,
    subtree, well_formed, Walk,
};
use crate::walk_laws::law_walk_is_closed;

verus! {

/// A walk meets something exactly if it starts there, or one of the walks from the operands that
/// it goes on to meets it.
pub proof fn lemma_meets(
    exprs: Seq<AExpr>,
    walk: Walk,
    node: Node,
    property: spec_fn(AExpr) -> bool,
)
    requires
        well_formed(exprs),
        in_arena(exprs, node),
    ensures
        meets(exprs, walk, node, property) <==> (property(at(exprs, node)) || exists|i: int|
            0 <= i < walk.inputs(exprs, at(exprs, node)).len() && meets(
                exprs,
                walk,
                #[trigger] walk.inputs(exprs, at(exprs, node))[i],
                property,
            )),
{
    let inputs = walk.inputs(exprs, at(exprs, node));
    lemma_subtree_in_arena(exprs, walk, node);
    if meets(exprs, walk, node, property) {
        let n = choose|n: Node|
            #[trigger] subtree(exprs, walk, node).contains(n) && property(at(exprs, n));
        lemma_subtree_parts(exprs, walk, node, n);
        if n != node {
            let i = choose|i: int|
                0 <= i < inputs.len() && subtree(exprs, walk, #[trigger] inputs[i]).contains(n);
            assert(meets(exprs, walk, inputs[i], property));
        }
    }
    if exists|i: int|
        0 <= i < inputs.len() && meets(exprs, walk, #[trigger] inputs[i], property) {
        let i = choose|i: int|
            0 <= i < inputs.len() && meets(exprs, walk, #[trigger] inputs[i], property);
        let n = choose|n: Node|
            #[trigger] subtree(exprs, walk, inputs[i]).contains(n) && property(at(exprs, n));
        lemma_subtree_of_input(exprs, walk, node, i, n);
    }
}

/// An expression blocks predicates exactly if it stops them itself or one of the operands that are
/// projected blocks them.
pub proof fn law_blocks_by_operands(exprs: Seq<AExpr>, node: Node)
    requires
        well_formed(exprs),
        in_arena(exprs, node),
    ensures
        blocks(exprs, node) <==> (stops_pushdown(at(exprs, node)) || exists|i: int|
            0 <= i < projected_inputs(exprs, at(exprs, node)).len() && blocks(
                exprs,
                #[trigger] projected_inputs(exprs, at(exprs, node))[i],
            )),
{
    let expr = at(exprs, node);
    let stops = |e: AExpr| stops_pushdown(e);
    lemma_meets(exprs, Walk::Projected, node, stops);
    assert(Walk::Projected.inputs(exprs, expr) == projected_inputs(exprs, expr));
    let inputs = projected_inputs(exprs, expr);
    if exists|i: int|
        0 <= i < Walk::Projected.inputs(exprs, expr).len() && meets(
            exprs,
            Walk::Projected,
            #[trigger] Walk::Projected.inputs(exprs, expr)[i],
            stops,
        ) {
        let i = choose|i: int|
            0 <= i < Walk::Projected.inputs(exprs, expr).len() && meets(
                exprs,
                Walk::Projected,
                #[trigger] Walk::Projected.inputs(exprs, expr)[i],
                stops,
            );
        assert(blocks(exprs, inputs[i]));
    }
    if exists|i: int| 0 <= i < inputs.len() && blocks(exprs, #[trigger] inputs[i]) {
        let i = choose|i: int| 0 <= i < inputs.len() && blocks(exprs, #[trigger] inputs[i]);
        assert(meets(
            exprs,
            Walk::Projected,
            Walk::Projected.inputs(exprs, expr)[i],
            stops,
        ));
    }
}

/// Whatever has an aggregation or a sort in it, among the operands that are projected, blocks
/// predicates.
pub proof fn law_aggregations_and_sorts_block(exprs: Seq<AExpr>, node: Node, part: Node)
    requires
        subtree(exprs, Walk::Projected, node).contains(part),
        at(exprs, part) is Agg || at(exprs, part) is Sort || at(exprs, part) is SortBy,
    ensures
        blocks(exprs, node),
{
    let stops = |e: AExpr| stops_pushdown(e);
    assert(stops(at(exprs, part)));
}

/// The literal on the right-hand side of an `is_in` does not matter, however many values it has:
/// the `is_in` blocks predicates exactly if its left-hand side does.
pub proof fn law_is_in_blocks_by_left_side(exprs: Seq<AExpr>, node: Node)
    requires
        well_formed(exprs),
        in_arena(exprs, node),
        at(exprs, node) matches AExpr::Function {
            input,
            function: FunctionExpr::Boolean(BooleanFunction::IsIn),
            options,
        } && input@.len() == 2 && input@[0] != input@[1] && at(exprs, input@[1]) is Literal
            && !options.group_wise(),
    ensures
        at(exprs, node) matches AExpr::Function { input, .. } && blocks(exprs, node) == blocks(
            exprs,
            input@[0],
        ),
{
    let expr = at(exprs, node);
    let inputs = projected_inputs(exprs, expr);
    match expr {
        AExpr::Function { input, .. } => {
            let kept = |n: Node| n != input@[1];
            assert(expr.inputs() =~= seq![input@[1], input@[0]]);
            assert(is_in_literal(exprs, expr) == Some(input@[1]));
            assert(inputs =~= seq![input@[0]]) by {
                reveal_with_fuel(Seq::<_>::filter, 3);
                let both = seq![input@[1], input@[0]];
                assert(both.drop_last() =~= seq![input@[1]]);
                assert(both.drop_last().drop_last() =~= seq![]);
                assert(both.drop_last().filter(kept) =~= seq![]);
                assert(both.filter(kept) =~= seq![input@[0]]);
            }
            law_blocks_by_operands(exprs, node);
            if blocks(exprs, input@[0]) {
                assert(blocks(exprs, inputs[0]));
            }
        },
        _ => {},
    }
}

/// A projection allows predicates on its output to be renamed exactly if it is an input column,
/// under whatever name, and then it reads this column alone.
pub proof fn law_renamable_is_column(exprs: Seq<AExpr>, node: Node)
    requires
        well_formed(exprs),
        in_arena(exprs, node),
    ensures
        keeps_values(exprs, node) <==> aliased_column(exprs, node) is Some,
        aliased_column(exprs, node) matches Some(pair) ==> leaf_names(exprs, node) == seq![pair.1],
    decreases depth(exprs, node),
{
    let expr = at(exprs, node);
    let other = |e: AExpr| !is_column_or_alias(e);
    lemma_meets(exprs, Walk::Whole, node, other);
    lemma_subtree(exprs, Walk::Whole, node);
    lemma_inputs_below_node(exprs, node);
    match expr {
        AExpr::Column(name) => {
            assert(subtree(exprs, Walk::Whole, node) =~= seq![node]);
            reveal_with_fuel(column_names, 2);
            assert(leaf_names(exprs, node) =~= seq![name@]);
        },
        AExpr::Alias(inner, _) => {
            assert(expr.inputs()[0] == inner);
            assert(Walk::Whole.inputs(exprs, expr)[0] == inner);
            law_renamable_is_column(exprs, inner);
            lemma_pending_one(exprs, Walk::Whole, inner);
            lemma_column_names_add(exprs, seq![node], subtree(exprs, Walk::Whole, inner));
            reveal_with_fuel(column_names, 2);
            assert(column_names(exprs, seq![node]) =~= seq![]);
            assert(leaf_names(exprs, node) =~= leaf_names(exprs, inner));
            if meets(exprs, Walk::Whole, inner, other) {
                assert(meets(exprs, Walk::Whole, Walk::Whole.inputs(exprs, expr)[0], other));
            }
        },
        _ => {
            assert(other(expr));
        },
    }
}

/// An input column, under whatever name, blocks no predicate.
pub proof fn law_columns_do_not_block(exprs: Seq<AExpr>, node: Node)
    requires
        well_formed(exprs),
        in_arena(exprs, node),
        aliased_column(exprs, node) is Some,
    ensures
        !blocks(exprs, node),
    decreases depth(exprs, node),
{
    let expr = at(exprs, node);
    law_blocks_by_operands(exprs, node);
    lemma_inputs_below_node(exprs, node);
    match expr {
        AExpr::Alias(inner, _) => {
            assert(expr.inputs()[0] == inner);
            assert(is_in_literal(exprs, expr) is None);
            law_columns_do_not_block(exprs, inner);
        },
        _ => {},
    }
}

/// Every name that predicates are allowed on is the output name of a projection that is an input
/// column, namely the one that it is mapped to.
pub proof fn law_allowed_names_are_columns(
    exprs: Seq<AExpr>,
    projections: Seq<Node>,
    alias: Seq<char>,
)
    requires
        allowed_pushdown_names(exprs, projections).contains_key(alias),
    ensures
        exists|i: int|
            0 <= i < projections.len() && aliased_column(exprs, #[trigger] projections[i]) == Some(
                (alias, allowed_pushdown_names(exprs, projections)[alias]),
            ),
{
    lemma_projected_columns(exprs, projections, alias);
}

/// Every name of a projected column is that of a projection.
proof fn lemma_projected_columns(exprs: Seq<AExpr>, projections: Seq<Node>, alias: Seq<char>)
    requires
        projected_columns(exprs, projections).contains_key(alias),
    ensures
        exists|i: int|
            0 <= i < projections.len() && aliased_column(exprs, #[trigger] projections[i]) == Some(
                (alias, projected_columns(exprs, projections)[alias]),
            ),
    decreases projections.len(),
{
    if projections.len() > 0 {
        let before = projections.drop_last();
        let last = projections[projections.len() - 1];
        assert(last == projections.last());
        let is_last = aliased_column(exprs, last) matches Some(pair) && pair.0 == alias;
        if !is_last {
            lemma_projected_columns(exprs, before, alias);
            let i = choose|i: int|
                0 <= i < before.len() && aliased_column(exprs, #[trigger] before[i]) == Some(
                    (alias, projected_columns(exprs, before)[alias]),
                );
            assert(projections[i] == before[i]);
        }
    }
}

/// Something in a projection that no predicate can be pushed past leaves no name.
pub proof fn law_barring_projection_allows_nothing(
    exprs: Seq<AExpr>,
    projections: Seq<Node>,
    node: Node,
)
    requires
        examined(exprs, projections, node),
        bars_pushdown(exprs, at(exprs, node)),
    ensures
        allowed_pushdown_names(exprs, projections) == Map::<Seq<char>, Seq<char>>::empty(),
{
    assert(barred(exprs, projections));
}

/// Two windows that are over no common column leave no name.
pub proof fn law_disjoint_windows_allow_nothing(
    exprs: Seq<AExpr>,
    projections: Seq<Node>,
    a: Node,
    b: Node,
)
    requires
        examined(exprs, projections, a),
        examined(exprs, projections, b),
        forall|name: Seq<char>|
            !(#[trigger] keeps_groups(exprs, at(exprs, a), name) && keeps_groups(
                exprs,
                at(exprs, b),
                name,
            )),
    ensures
        allowed_pushdown_names(exprs, projections) == Map::<Seq<char>, Seq<char>>::empty(),
{
    let allowed = allowed_pushdown_names(exprs, projections);
    assert forall|alias: Seq<char>| !allowed.contains_key(alias) by {
        if allowed.contains_key(alias) {
            let column = projected_columns(exprs, projections)[alias];
            assert(passes_windows(exprs, projections, column));
            assert(keeps_groups(exprs, at(exprs, a), column));
            assert(keeps_groups(exprs, at(exprs, b), column));
        }
    }
    assert(allowed =~= Map::empty());
}

/// One projection more that is no input column can only take names away.
pub proof fn law_more_projections_allow_less(
    exprs: Seq<AExpr>,
    projections: Seq<Node>,
    projection: Node,
)
    requires
        aliased_column(exprs, projection) is None,
    ensures
        allowed_pushdown_names(exprs, projections.push(projection)).submap_of(
            allowed_pushdown_names(exprs, projections),
        ),
{
    let more = projections.push(projection);
    assert(more.drop_last() =~= projections);
    assert forall|node: Node| #[trigger] examined(exprs, projections, node) implies examined(
        exprs,
        more,
        node,
    ) by {
        let i = choose|i: int|
            0 <= i < projections.len() && aliased_column(exprs, #[trigger] projections[i]) is None
                && subtree(exprs, Walk::OutsideWindows, projections[i]).contains(node);
        assert(more[i] == projections[i]);
    }
    let columns = projected_columns(exprs, projections);
    assert(projected_columns(exprs, more) == columns);
    if barred(exprs, projections) {
        let node = choose|node: Node| #[trigger]
            examined(exprs, projections, node) && bars_pushdown(exprs, at(exprs, node));
        assert(examined(exprs, more, node));
        assert(barred(exprs, more));
    }
    assert forall|name: Seq<char>| #[trigger] passes_windows(exprs, more, name) implies
        passes_windows(exprs, projections, name) by {
        assert forall|node: Node| #[trigger] examined(exprs, projections, node) implies keeps_groups(
            exprs,
            at(exprs, node),
            name,
        ) by {
            assert(examined(exprs, more, node));
        }
    }
}

/// Whether an expression blocks predicates, and whether they can be renamed through it and to what,
/// stays the same as expressions are added to the arena.
pub proof fn law_answers_stay(before: Seq<AExpr>, after: Seq<AExpr>, node: Node)
    requires
        well_formed(before),
        well_formed(after),
        grows(before, after),
        in_arena(before, node),
    ensures
        blocks(after, node) == blocks(before, node),
        keeps_values(after, node) == keeps_values(before, node),
        aliased_column(after, node) == aliased_column(before, node),
{
    lemma_meets_stays(before, after, Walk::Projected, node, |e: AExpr| stops_pushdown(e));
    lemma_meets_stays(before, after, Walk::Whole, node, |e: AExpr| !is_column_or_alias(e));
    lemma_column_behind_stays(before, after, node);
}

/// The column at the end of aliases stays the same as the arena grows.
proof fn lemma_column_behind_stays(before: Seq<AExpr>, after: Seq<AExpr>, node: Node)
    requires
        well_formed(before),
        well_formed(after),
        grows(before, after),
        in_arena(before, node),
    ensures
        column_behind(after, node) == column_behind(before, node),
    decreases depth(before, node),
{
    lemma_inputs_below_node(before, node);
    lemma_inputs_below_node(after, node);
    match at(before, node) {
        AExpr::Alias(inner, _) => {
            assert(at(before, node).inputs()[0] == inner);
            assert(at(after, node).inputs()[0] == inner);
            lemma_column_behind_stays(before, after, inner);
        },
        _ => {},
    }
}

/// What a walk meets stays the same as the arena grows.
pub proof fn lemma_meets_stays(
    before: Seq<AExpr>,
    after: Seq<AExpr>,
    walk: Walk,
    node: Node,
    property: spec_fn(AExpr) -> bool,
)
    requires
        well_formed(before),
        well_formed(after),
        grows(before, after),
        in_arena(before, node),
    ensures
        meets(after, walk, node, property) == meets(before, walk, node, property),
{
    let all = subtree(before, walk, node);
    lemma_subtree_stays(before, after, walk, node);
    lemma_subtree_in_arena(before, walk, node);
    assert forall|n: Node| #[trigger] all.contains(n) implies at(after, n) == at(before, n) by {
        let i = choose|i: int| 0 <= i < all.len() && all[i] == n;
        assert(in_arena(before, all[i]));
    }
    if meets(before, walk, node, property) {
        let n = choose|n: Node|
            #[trigger] subtree(before, walk, node).contains(n) && property(at(before, n));
        assert(all.contains(n));
        assert(subtree(after, walk, node).contains(n) && property(at(after, n)));
    }
    if meets(after, walk, node, property) {
        let n = choose|n: Node|
            #[trigger] subtree(after, walk, node).contains(n) && property(at(after, n));
        assert(all.contains(n));
        assert(subtree(before, walk, node).contains(n) && property(at(before, n)));
    }
}

/// The output name of a projection that is an input column, and this column: a column is itself, an
/// alias has its own name and the column that what it names is, and nothing else is a column.
pub proof fn law_aliased_column_by_operands(exprs: Seq<AExpr>, node: Node)
    requires
        well_formed(exprs),
        in_arena(exprs, node),
    ensures
        match at(exprs, node) {
            AExpr::Column(name) => aliased_column(exprs, node) == Some((name@, name@)),
            AExpr::Alias(inner, alias) => match aliased_column(exprs, inner) {
                Some(pair) => aliased_column(exprs, node) == Some((alias@, pair.1)),
                None => aliased_column(exprs, node) is None,
            },
            _ => aliased_column(exprs, node) is None,
        },
{
    lemma_inputs_below_node(exprs, node);
    match at(exprs, node) {
        AExpr::Alias(inner, _) => {
            assert(at(exprs, node).inputs()[0] == inner);
        },
        _ => {},
    }
}

/// What is examined are the projections that are no input columns and, of whatever is examined and
/// is no window, all operands that are projected; and nothing else.
pub proof fn law_examined_is_closed(exprs: Seq<AExpr>, projections: Seq<Node>, n: Node)
    requires
        well_formed(exprs),
        all_in_arena(exprs, projections),
    ensures
        examined(exprs, projections, n) <==> {
            ||| exists|i: int|
                0 <= i < projections.len() && #[trigger] projections[i] == n && aliased_column(
                    exprs,
                    n,
                ) is None
            ||| exists|m: Node| #[trigger]
                examined(exprs, projections, m) && !(at(exprs, m) is Window) && projected_inputs(
                    exprs,
                    at(exprs, m),
                ).contains(n)
        },
{
    let walk = Walk::OutsideWindows;
    if examined(exprs, projections, n) {
        let i = choose|i: int|
            0 <= i < projections.len() && aliased_column(exprs, #[trigger] projections[i]) is None
                && subtree(exprs, walk, projections[i]).contains(n);
        assert(in_arena(exprs, projections[i]));
        law_walk_is_closed(exprs, walk, projections[i], n);
        if n != projections[i] {
            let m = choose|m: Node| #[trigger]
                subtree(exprs, walk, projections[i]).contains(m) && walk.inputs(
                    exprs,
                    at(exprs, m),
                ).contains(n);
            assert(examined(exprs, projections, m));
            assert(!(at(exprs, m) is Window));
        }
    }
    if exists|i: int|
        0 <= i < projections.len() && #[trigger] projections[i] == n && aliased_column(exprs, n)
            is None {
        let i = choose|i: int|
            0 <= i < projections.len() && #[trigger] projections[i] == n && aliased_column(exprs, n)
                is None;
        assert(in_arena(exprs, projections[i]));
        lemma_subtree_in_arena(exprs, walk, n);
        assert(subtree(exprs, walk, projections[i]).contains(n));
    }
    if exists|m: Node| #[trigger]
        examined(exprs, projections, m) && !(at(exprs, m) is Window) && projected_inputs(
            exprs,
            at(exprs, m),
        ).contains(n) {
        let m = choose|m: Node| #[trigger]
            examined(exprs, projections, m) && !(at(exprs, m) is Window) && projected_inputs(
                exprs,
                at(exprs, m),
            ).contains(n);
        let i = choose|i: int|
            0 <= i < projections.len() && aliased_column(exprs, #[trigger] projections[i]) is None
                && subtree(exprs, walk, projections[i]).contains(m);
        assert(in_arena(exprs, projections[i]));
        assert(walk.inputs(exprs, at(exprs, m)).contains(n));
        law_walk_is_closed(exprs, walk, projections[i], n);
    }
}

/// Something that stops predicates, and is no window, leaves no name wherever it stands in a
/// projection, as long as it is reached through operands that are projected and not through a
/// window.
pub proof fn law_what_stops_allows_nothing(
    exprs: Seq<AExpr>,
    projections: Seq<Node>,
    m: Node,
    n: Node,
)
    requires
        well_formed(exprs),
        all_in_arena(exprs, projections),
        examined(exprs, projections, m),
        !(at(exprs, m) is Window),
        n == m || projected_inputs(exprs, at(exprs, m)).contains(n),
        stops_pushdown(at(exprs, n)),
        !(at(exprs, n) is Window),
    ensures
        allowed_pushdown_names(exprs, projections) == Map::<Seq<char>, Seq<char>>::empty(),
{
    law_examined_is_closed(exprs, projections, n);
    assert(examined(exprs, projections, n));
    law_barring_projection_allows_nothing(exprs, projections, n);
}

/// Exactly which names are allowed, and for which columns: the output names of the projections that
/// are input columns, of two with the same name the later one, if nothing that is examined bars
/// predicates, and all windows that are examined are over the column.
pub proof fn law_allowed_exactly(
    exprs: Seq<AExpr>,
    projections: Seq<Node>,
    alias: Seq<char>,
    column: Seq<char>,
)
    ensures
        allowed_pushdown_names(exprs, projections).contains_key(alias) && allowed_pushdown_names(
            exprs,
            projections,
        )[alias] == column <==> {
            &&& exists|i: int|
                0 <= i < projections.len() && aliased_column(exprs, #[trigger] projections[i])
                    == Some((alias, column)) && forall|j: int|
                    i < j < projections.len() ==> (aliased_column(
                        exprs,
                        #[trigger] projections[j],
                    ) matches Some(pair) ==> pair.0 != alias)
            &&& forall|n: Node| #[trigger]
                examined(exprs, projections, n) ==> !bars_pushdown(exprs, at(exprs, n))
                    && keeps_groups(exprs, at(exprs, n), column)
        },
{
    let columns = projected_columns(exprs, projections);
    let allowed = allowed_pushdown_names(exprs, projections);
    lemma_last_counts(exprs, projections, alias, column);
    if allowed.contains_key(alias) && allowed[alias] == column {
        assert(passes_windows(exprs, projections, columns[alias]));
        assert forall|n: Node| #[trigger] examined(exprs, projections, n) implies !bars_pushdown(
            exprs,
            at(exprs, n),
        ) && keeps_groups(exprs, at(exprs, n), column) by {
            if bars_pushdown(exprs, at(exprs, n)) {
                assert(barred(exprs, projections));
            }
        }
    }
    if (columns.contains_key(alias) && columns[alias] == column) && forall|n: Node| #[trigger]
        examined(exprs, projections, n) ==> !bars_pushdown(exprs, at(exprs, n)) && keeps_groups(
            exprs,
            at(exprs, n),
            column,
        ) {
        assert(!barred(exprs, projections));
        assert(passes_windows(exprs, projections, column));
    }
}

/// A projected column is the last one of its name.
proof fn lemma_last_counts(
    exprs: Seq<AExpr>,
    projections: Seq<Node>,
    alias: Seq<char>,
    column: Seq<char>,
)
    ensures
        projected_columns(exprs, projections).contains_key(alias) && projected_columns(
            exprs,
            projections,
        )[alias] == column <==> exists|i: int|
            0 <= i < projections.len() && aliased_column(exprs, #[trigger] projections[i]) == Some(
                (alias, column),
            ) && forall|j: int|
                i < j < projections.len() ==> (aliased_column(
                    exprs,
                    #[trigger] projections[j],
                ) matches Some(pair) ==> pair.0 != alias),
    decreases projections.len(),
{
    if projections.len() > 0 {
        let fewer = projections.drop_last();
        let last = projections.len() - 1;
        assert(projections.last() == projections[last]);
        assert forall|j: int| 0 <= j < fewer.len() implies #[trigger] fewer[j]
            == projections[j] by {}
        lemma_last_counts(exprs, fewer, alias, column);
        let is_last = aliased_column(exprs, projections[last]) matches Some(pair) && pair.0
            == alias;
        if is_last {
            if exists|i: int|
                0 <= i < projections.len() && aliased_column(exprs, #[trigger] projections[i])
                    == Some((alias, column)) && forall|j: int|
                    i < j < projections.len() ==> (aliased_column(
                        exprs,
                        #[trigger] projections[j],
                    ) matches Some(pair) ==> pair.0 != alias) {
                let i = choose|i: int|
                    0 <= i < projections.len() && aliased_column(exprs, #[trigger] projections[i])
                        == Some((alias, column)) && forall|j: int|
                        i < j < projections.len() ==> (aliased_column(
                            exprs,
                            #[trigger] projections[j],
                        ) matches Some(pair) ==> pair.0 != alias);
                assert(i == last);
            }
        } else {
            if exists|i: int|
                0 <= i < fewer.len() && aliased_column(exprs, #[trigger] fewer[i]) == Some(
                    (alias, column),
                ) && forall|j: int|
                    i < j < fewer.len() ==> (aliased_column(
                        exprs,
                        #[trigger] fewer[j],
                    ) matches Some(pair) ==> pair.0 != alias) {
                let i = choose|i: int|
                    0 <= i < fewer.len() && aliased_column(exprs, #[trigger] fewer[i]) == Some(
                        (alias, column),
                    ) && forall|j: int|
                        i < j < fewer.len() ==> (aliased_column(
                            exprs,
                            #[trigger] fewer[j],
                        ) matches Some(pair) ==> pair.0 != alias);
                assert(projections[i] == fewer[i]);
                assert forall|j: int| i < j < projections.len() implies (aliased_column(
                    exprs,
                    #[trigger] projections[j],
                ) matches Some(pair) ==> pair.0 != alias) by {
                    if j < last {
                        assert(fewer[j] == projections[j]);
                    }
                }
            }
            if exists|i: int|
                0 <= i < projections.len() && aliased_column(exprs, #[trigger] projections[i])
                    == Some((alias, column)) && forall|j: int|
                    i < j < projections.len() ==> (aliased_column(
                        exprs,
                        #[trigger] projections[j],
                    ) matches Some(pair) ==> pair.0 != alias) {
                let i = choose|i: int|
                    0 <= i < projections.len() && aliased_column(exprs, #[trigger] projections[i])
                        == Some((alias, column)) && forall|j: int|
                        i < j < projections.len() ==> (aliased_column(
                            exprs,
                            #[trigger] projections[j],
                        ) matches Some(pair) ==> pair.0 != alias);
                assert(fewer[i] == projections[i]);
                assert forall|j: int| i < j < fewer.len() implies (aliased_column(
                    exprs,
                    #[trigger] fewer[j],
                ) matches Some(pair) ==> pair.0 != alias) by {
                    assert(fewer[j] == projections[j]);
                }
            }
        }
    }
}

/// A function that is applied to whole groups blocks predicates, be it a reduction or not, wherever
/// it stands among the operands that are projected.
pub proof fn law_group_wise_functions_block(exprs: Seq<AExpr>, node: Node, part: Node)
    requires
        subtree(exprs, Walk::Projected, node).contains(part),
        match at(exprs, part) {
            AExpr::Function { options, .. } => options.collect_groups == ApplyOptions::GroupWise,
            AExpr::AnonymousFunction { options, .. } => options.collect_groups
                == ApplyOptions::GroupWise,
            _ => false,
        },
    ensures
        blocks(exprs, node),
{
    let stops = |e: AExpr| stops_pushdown(e);
    assert(stops(at(exprs, part)));
}

} // verus!
