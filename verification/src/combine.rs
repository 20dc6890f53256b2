//! Predicates combined by `and`.

use std::sync::Arc;
use vstd::prelude::*;

use crate::aexpr::{AExpr, Operator};
use crate::arena::{in_arena, Arena, Node};
use crate::collections::{lists, PlHashMap};
use crate::keys::{predicate_key, predicate_to_key};
use crate::traversal::well_formed;

verus! {

/// The expression `left and right`.
pub open spec fn and_expr(left: Node, right: Node) -> AExpr {
    AExpr::BinaryExpr { left, op: Operator::And, right }
}

impl Node {
    /// Adds the expression `self and right`.
    pub fn and(self, right: Node, arena: &mut Arena<AExpr>) -> (node: Node)
        ensures
            node.0 == old(arena)@.len(),
            final(arena)@ == old(arena)@.push(and_expr(self, right)),
    {
        arena.add(AExpr::BinaryExpr { left: self, op: Operator::And, right })
    }
}

/// The expressions that are added to an arena of `exprs` when `predicate` joins `acc`: none, or
/// the conjunction with the predicate that is there already.
pub open spec fn exprs_with(
    exprs: Seq<AExpr>,
    acc: Map<Seq<char>, Node>,
    predicate: Node,
) -> Seq<AExpr> {
    let key = predicate_key(exprs, predicate);
    if acc.contains_key(key) {
        exprs.push(and_expr(predicate, acc[key]))
    } else {
        exprs
    }
}

/// The accumulated predicates once `predicate` has joined them.
pub open spec fn acc_with(
    exprs: Seq<AExpr>,
    acc: Map<Seq<char>, Node>,
    predicate: Node,
) -> Map<Seq<char>, Node> {
    let key = predicate_key(exprs, predicate);
    if acc.contains_key(key) {
        acc.insert(key, Node(exprs.len() as usize))
    } else {
        acc.insert(key, predicate)
    }
}

/// Puts `predicate` among the accumulated ones. Does not overwrite the predicate under the same
/// key but combines the two.
pub fn insert_and_combine_predicate(
    acc_predicates: &mut PlHashMap<Arc<str>, Node>,
    predicate: Node,
    arena: &mut Arena<AExpr>,
)
    requires
        well_formed(old(arena)@),
        in_arena(old(arena)@, predicate),
    ensures
        final(arena)@ == exprs_with(old(arena)@, old(acc_predicates)@, predicate),
        final(acc_predicates)@ == acc_with(old(arena)@, old(acc_predicates)@, predicate),
{
    let name = predicate_to_key(predicate, arena);
    match acc_predicates.get(&*name) {
        Some(existing_predicate) => {
            let node = arena.add(
                AExpr::BinaryExpr {
                    left: predicate,
                    op: Operator::And,
                    right: existing_predicate,
                },
            );
            acc_predicates.insert(name, node);
        },
        None => {
            acc_predicates.insert(name, predicate);
        },
    }
}

/// The node of the conjunction of the first `count` of `nodes` in an arena that had `size`
/// expressions before they were combined.
pub open spec fn conjunction(size: nat, nodes: Seq<Node>, count: int) -> Node {
    if count == 1 {
        nodes[0]
    } else {
        Node((size + count - 2) as usize)
    }
}

/// The expressions that combine `nodes` from left to right, each with what came before it, in an
/// arena that had `size` expressions.
pub open spec fn and_chain(size: nat, nodes: Seq<Node>) -> Seq<AExpr> {
    Seq::new(
        (nodes.len() - 1) as nat,
        |i: int| and_expr(conjunction(size, nodes, i + 1), nodes[i + 1]),
    )
}

/// Combines predicates, of which there has to be one at least, into one.
pub fn combine_predicates(nodes: Vec<Node>, arena: &mut Arena<AExpr>) -> (combined: Node)
    requires
        nodes@.len() > 0,
    ensures
        final(arena)@ == old(arena)@ + and_chain(old(arena)@.len(), nodes@),
        combined == conjunction(old(arena)@.len(), nodes@, nodes@.len() as int),
{
    let ghost size = old(arena)@.len();
    let mut single_pred = nodes[0];
    let mut i: usize = 1;
    assert(arena@ =~= old(arena)@ + and_chain(size, nodes@).take(0));
    while i < nodes.len()
        invariant
            1 <= i <= nodes@.len(),
            size == old(arena)@.len(),
            arena@ == old(arena)@ + and_chain(size, nodes@).take(i - 1),
            single_pred == conjunction(size, nodes@, i as int),
        decreases nodes@.len() - i,
    {
        single_pred = single_pred.and(nodes[i], arena);
        assert(arena@ =~= old(arena)@ + and_chain(size, nodes@).take(i as int));
        i += 1;
    }
    assert(and_chain(size, nodes@).take(i - 1) =~= and_chain(size, nodes@));
    single_pred
}

/// The predicates that are combined at a scan: `nodes`, then the scan's own predicate.
pub open spec fn at_scan(nodes: Seq<Node>, predicate: Option<Node>) -> Seq<Node> {
    match predicate {
        Some(own) => nodes.push(own),
        None => nodes,
    }
}

/// Whether combining `nodes` with the predicate of a scan turns `before` into `after` and gives
/// `combined`.
pub open spec fn scan_combines(
    before: Seq<AExpr>,
    nodes: Seq<Node>,
    predicate: Option<Node>,
    after: Seq<AExpr>,
    combined: Option<Node>,
) -> bool {
    let all = at_scan(nodes, predicate);
    if nodes.len() == 0 {
        after == before && combined is None
    } else {
        &&& after == before + and_chain(before.len(), all)
        &&& combined == Some(conjunction(before.len(), all, all.len() as int))
    }
}

/// The predicate of a scan into which the predicates `nodes` are pushed, in this order. Without
/// any there is none.
pub fn combine_at_scan(
    nodes: Vec<Node>,
    predicate: Option<Node>,
    expr_arena: &mut Arena<AExpr>,
) -> (combined: Option<Node>)
    ensures
        scan_combines(old(expr_arena)@, nodes@, predicate, final(expr_arena)@, combined),
{
    if nodes.len() == 0 {
        return None;
    }
    let ghost before = expr_arena@;
    let ghost given = nodes@;
    let mut new_predicate = combine_predicates(nodes, expr_arena);
    if let Some(own) = predicate {
        new_predicate = new_predicate.and(own, expr_arena);
        proof {
            let all = given.push(own);
            assert(and_chain(before.len(), all) =~= and_chain(before.len(), given).push(
                and_expr(conjunction(before.len(), given, given.len() as int), own),
            ));
            assert(expr_arena@ =~= before + and_chain(before.len(), all));
        }
    }
    Some(new_predicate)
}

/// The predicates of `entries`.
pub open spec fn values(entries: Seq<(Arc<str>, Node)>) -> Seq<Node> {
    entries.map_values(|entry: (Arc<str>, Node)| entry.1)
}

/// The predicate of a scan into which all accumulated predicates are pushed, in the order in which
/// the map is walked. Without any there is none, whatever the scan's own predicate.
pub fn predicate_at_scan(
    acc_predicates: PlHashMap<Arc<str>, Node>,
    predicate: Option<Node>,
    expr_arena: &mut Arena<AExpr>,
) -> (combined: Option<Node>)
    ensures
        combined is None <==> acc_predicates@ == Map::<Seq<char>, Node>::empty(),
        exists|entries: Seq<(Arc<str>, Node)>| #[trigger]
            lists(acc_predicates@, entries) && scan_combines(
                old(expr_arena)@,
                values(entries),
                predicate,
                final(expr_arena)@,
                combined,
            ),
{
    if acc_predicates.is_empty() {
        let ghost none: Seq<(Arc<str>, Node)> = seq![];
        assert(lists(acc_predicates@, none));
        assert(values(none) =~= seq![]);
        return None;
    }
    let entries = acc_predicates.entries();
    let mut nodes: Vec<Node> = Vec::with_capacity(entries.len());
    let mut i: usize = 0;
    while i < entries.len()
        invariant
            i <= entries@.len(),
            nodes@ == values(entries@).take(i as int),
        decreases entries@.len() - i,
    {
        nodes.push(entries[i].1);
        assert(nodes@ =~= values(entries@).take(i + 1));
        i += 1;
    }
    proof {
        assert(nodes@ =~= values(entries@));
        if entries@.len() == 0 {
            assert(acc_predicates@ =~= Map::<Seq<char>, Node>::empty());
        }
    }
    combine_at_scan(nodes, predicate, expr_arena)
}

} // verus!
