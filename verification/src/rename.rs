//! Copies of an expression that read another column.

use std::sync::Arc;
use vstd::prelude::*;

use crate::aexpr::{same_operation, AExpr};
use crate::arena::{at, in_arena, Arena, Node};
use crate::traversal::{
    all_in_arena, column_names, depth, grows, leaf_names, lemma_inputs_below_node,
    lemma_operands_in_arena, lemma_pending_add, lemma_pending_one, lemma_push_well_formed,
    lemma_subtree, lemma_subtree_parts, lemma_subtree_stays, pending, subtree, well_formed, Walk,
};

verus! {

/// Whether `b` is `a` with, in place of a column, the column `name`. Operands are not looked at,
/// only counted.
pub open spec fn renames(a: AExpr, b: AExpr, name: Seq<char>) -> bool {
    match (a, b) {
        (AExpr::Column(_), AExpr::Column(new)) => new@ == name,
        _ => same_operation(a, b),
    }
}

/// Whether the expression at `copy` is the one at `node` with all columns that it reads renamed to
/// `name`: the same operation on operands that are such copies.
pub open spec fn renamed_copy(
    exprs: Seq<AExpr>,
    node: Node,
    copy: Node,
    name: Seq<char>,
) -> bool
    decreases depth(exprs, node),
{
    let inputs = at(exprs, node).inputs();
    let copies = at(exprs, copy).inputs();
    &&& renames(at(exprs, node), at(exprs, copy), name)
    &&& forall|i: int|
        0 <= i < inputs.len() && depth(exprs, inputs[i]) < depth(exprs, node) ==> renamed_copy(
            exprs,
            #[trigger] inputs[i],
            copies[i],
            name,
        )
}

/// A renamed copy stays one as the arena grows.
pub proof fn lemma_renamed_copy_stays(
    before: Seq<AExpr>,
    after: Seq<AExpr>,
    node: Node,
    copy: Node,
    name: Seq<char>,
)
    requires
        well_formed(before),
        well_formed(after),
        grows(before, after),
        in_arena(before, node),
        in_arena(before, copy),
        renamed_copy(before, node, copy, name),
    ensures
        renamed_copy(after, node, copy, name),
    decreases depth(before, node),
{
    let inputs = at(before, node).inputs();
    let copies = at(before, copy).inputs();
    assert(at(after, node) == at(before, node));
    assert(at(after, copy) == at(before, copy));
    lemma_inputs_below_node(before, node);
    lemma_operands_in_arena(before, copy);
    assert forall|i: int| 0 <= i < inputs.len() implies renamed_copy(
        after,
        #[trigger] inputs[i],
        copies[i],
        name,
    ) by {
        assert(in_arena(before, copies[i]));
        lemma_renamed_copy_stays(before, after, inputs[i], copies[i], name);
    }
}

/// Whether all that the expression at `node` is made of stands at or behind position `size`.
pub open spec fn fresh(exprs: Seq<AExpr>, node: Node, size: nat) -> bool {
    forall|n: Node| #[trigger] subtree(exprs, Walk::Whole, node).contains(n) ==> n.0 >= size
}

/// What is fresh stays so as the arena grows.
pub proof fn lemma_fresh_stays(before: Seq<AExpr>, after: Seq<AExpr>, node: Node, size: nat)
    requires
        well_formed(before),
        well_formed(after),
        grows(before, after),
        in_arena(before, node),
        fresh(before, node, size),
    ensures
        fresh(after, node, size),
{
    lemma_subtree_stays(before, after, Walk::Whole, node);
}

/// Whether `ys` are, one by one, the nodes `xs` with columns renamed to `name`.
spec fn all_renamed(exprs: Seq<AExpr>, xs: Seq<Node>, ys: Seq<Node>, name: Seq<char>) -> bool {
    &&& xs.len() == ys.len()
    &&& forall|i: int|
        0 <= i < xs.len() ==> renames(at(exprs, #[trigger] xs[i]), at(exprs, #[trigger] ys[i]), name)
}

/// Walks through an expression and through a renamed copy meet renamed expressions, step by step.
proof fn lemma_subtree_renamed(exprs: Seq<AExpr>, node: Node, copy: Node, name: Seq<char>)
    requires
        well_formed(exprs),
        in_arena(exprs, node),
        in_arena(exprs, copy),
        renamed_copy(exprs, node, copy, name),
    ensures
        all_renamed(
            exprs,
            subtree(exprs, Walk::Whole, node),
            subtree(exprs, Walk::Whole, copy),
            name,
        ),
    decreases depth(exprs, node), 1nat, 0nat,
{
    let inputs = at(exprs, node).inputs();
    let copies = at(exprs, copy).inputs();
    lemma_subtree(exprs, Walk::Whole, node);
    lemma_subtree(exprs, Walk::Whole, copy);
    lemma_inputs_below_node(exprs, node);
    lemma_operands_in_arena(exprs, node);
    lemma_operands_in_arena(exprs, copy);
    lemma_pending_renamed(exprs, inputs, copies, name, depth(exprs, node));
}

/// If the nodes of two stacks are renamed copies of each other, walks through them meet renamed
/// expressions, step by step.
proof fn lemma_pending_renamed(
    exprs: Seq<AExpr>,
    xs: Seq<Node>,
    ys: Seq<Node>,
    name: Seq<char>,
    bound: nat,
)
    requires
        well_formed(exprs),
        all_in_arena(exprs, xs),
        all_in_arena(exprs, ys),
        xs.len() == ys.len(),
        forall|i: int|
            0 <= i < xs.len() ==> depth(exprs, #[trigger] xs[i]) < bound && renamed_copy(
                exprs,
                xs[i],
                ys[i],
                name,
            ),
    ensures
        all_renamed(exprs, pending(exprs, Walk::Whole, xs), pending(exprs, Walk::Whole, ys), name),
    decreases bound, 0nat, xs.len(),
{
    if xs.len() > 0 {
        let x = xs.last();
        let y = ys.last();
        assert(x == xs[xs.len() - 1] && y == ys[ys.len() - 1]);
        assert(xs.drop_last() + seq![x] =~= xs);
        assert(ys.drop_last() + seq![y] =~= ys);
        lemma_pending_add(exprs, Walk::Whole, xs.drop_last(), seq![x]);
        lemma_pending_add(exprs, Walk::Whole, ys.drop_last(), seq![y]);
        lemma_pending_one(exprs, Walk::Whole, x);
        lemma_pending_one(exprs, Walk::Whole, y);
        assert forall|i: int| 0 <= i < xs.drop_last().len() implies depth(
            exprs,
            #[trigger] xs.drop_last()[i],
        ) < bound && renamed_copy(exprs, xs.drop_last()[i], ys.drop_last()[i], name) by {
            assert(xs.drop_last()[i] == xs[i] && ys.drop_last()[i] == ys[i]);
        }
        assert(all_in_arena(exprs, xs.drop_last())) by {
            assert(forall|i: int| 0 <= i < xs.drop_last().len() ==> xs.drop_last()[i] == xs[i]);
        }
        assert(all_in_arena(exprs, ys.drop_last())) by {
            assert(forall|i: int| 0 <= i < ys.drop_last().len() ==> ys.drop_last()[i] == ys[i]);
        }
        lemma_subtree_renamed(exprs, x, y, name);
        lemma_pending_renamed(exprs, xs.drop_last(), ys.drop_last(), name, bound);
    }
}

/// A node on a stack is no larger than the whole of what is still to come.
proof fn lemma_pending_len(exprs: Seq<AExpr>, stack: Seq<Node>, i: int)
    requires
        well_formed(exprs),
        all_in_arena(exprs, stack),
        0 <= i < stack.len(),
    ensures
        subtree(exprs, Walk::Whole, stack[i]).len() <= pending(exprs, Walk::Whole, stack).len(),
{
    assert(stack =~= stack.take(i) + (seq![stack[i]] + stack.skip(i + 1)));
    lemma_pending_add(exprs, Walk::Whole, stack.take(i), seq![stack[i]] + stack.skip(i + 1));
    lemma_pending_add(exprs, Walk::Whole, seq![stack[i]], stack.skip(i + 1));
    lemma_pending_one(exprs, Walk::Whole, stack[i]);
}

/// The columns among renamed nodes are as many as before, and all read `name`.
proof fn lemma_column_names_renamed(
    exprs: Seq<AExpr>,
    xs: Seq<Node>,
    ys: Seq<Node>,
    name: Seq<char>,
)
    requires
        all_renamed(exprs, xs, ys, name),
    ensures
        column_names(exprs, ys) == Seq::new(column_names(exprs, xs).len(), |i: int| name),
    decreases xs.len(),
{
    if xs.len() > 0 {
        assert(xs.last() == xs[xs.len() - 1] && ys.last() == ys[ys.len() - 1]);
        assert(all_renamed(exprs, xs.drop_last(), ys.drop_last(), name)) by {
            assert forall|i: int| 0 <= i < xs.drop_last().len() implies renames(
                at(exprs, #[trigger] xs.drop_last()[i]),
                at(exprs, #[trigger] ys.drop_last()[i]),
                name,
            ) by {
                assert(xs.drop_last()[i] == xs[i] && ys.drop_last()[i] == ys[i]);
            }
        }
        lemma_column_names_renamed(exprs, xs.drop_last(), ys.drop_last(), name);
    }
    assert(column_names(exprs, ys) =~= Seq::new(column_names(exprs, xs).len(), |i: int| name));
}

/// A renamed copy reads as many columns as what it is a copy of, all with the new name.
pub proof fn law_renamed_copy_reads_new_name(
    exprs: Seq<AExpr>,
    node: Node,
    copy: Node,
    name: Seq<char>,
)
    requires
        well_formed(exprs),
        in_arena(exprs, node),
        in_arena(exprs, copy),
        renamed_copy(exprs, node, copy, name),
    ensures
        leaf_names(exprs, copy) == Seq::new(leaf_names(exprs, node).len(), |i: int| name),
{
    lemma_subtree_renamed(exprs, node, copy, name);
    lemma_column_names_renamed(
        exprs,
        subtree(exprs, Walk::Whole, node),
        subtree(exprs, Walk::Whole, copy),
        name,
    );
}

/// Adds to the arena a copy of the expression at `node` in which every column is `new_name`. What
/// was in the arena stays as it was, and is no part of the copy.
pub fn rename_aexpr_leaf_names(
    node: Node,
    arena: &mut Arena<AExpr>,
    new_name: Arc<str>,
) -> (copy: Node)
    requires
        well_formed(old(arena)@),
        in_arena(old(arena)@, node),
    ensures
        well_formed(final(arena)@),
        grows(old(arena)@, final(arena)@),
        final(arena)@.len() == old(arena)@.len() + subtree(
            old(arena)@,
            Walk::Whole,
            node,
        ).len(),
        old(arena)@.len() <= copy.0 < final(arena)@.len(),
        renamed_copy(final(arena)@, node, copy, new_name@),
        fresh(final(arena)@, copy, old(arena)@.len()),
    decreases subtree(old(arena)@, Walk::Whole, node).len(),
{
    let ghost before = arena@;
    let mut inputs: Vec<Node> = Vec::new();
    arena.get(node).nodes(&mut inputs);
    let ghost name = new_name@;
    proof {
        assert(inputs@ =~= at(before, node).inputs());
        lemma_subtree(before, Walk::Whole, node);
        lemma_operands_in_arena(before, node);
    }
    let mut copies: Vec<Node> = Vec::new();
    let mut i: usize = 0;
    assert(inputs@.take(0) =~= seq![]);
    while i < inputs.len()
        invariant
            i <= inputs@.len(),
            before == old(arena)@,
            name == new_name@,
            well_formed(before),
            in_arena(before, node),
            inputs@ == at(before, node).inputs(),
            all_in_arena(before, inputs@),
            subtree(before, Walk::Whole, node) == seq![node] + pending(
                before,
                Walk::Whole,
                inputs@,
            ),
            well_formed(arena@),
            grows(before, arena@),
            arena@.len() == before.len() + pending(
                before,
                Walk::Whole,
                inputs@.take(i as int),
            ).len(),
            copies@.len() == i,
            all_in_arena(arena@, copies@),
            forall|j: int| 0 <= j < i ==> fresh(arena@, #[trigger] copies@[j], before.len()),
            forall|j: int|
                0 <= j < i ==> renamed_copy(
                    arena@,
                    #[trigger] inputs@[j],
                    #[trigger] copies@[j],
                    name,
                ),
        decreases inputs@.len() - i,
    {
        let ghost middle = arena@;
        let ghost input = inputs@[i as int];
        proof {
            lemma_pending_len(before, inputs@, i as int);
            lemma_subtree_stays(before, middle, Walk::Whole, input);
            assert(inputs@.take(i + 1) =~= inputs@.take(i as int) + seq![input]);
            lemma_pending_add(before, Walk::Whole, inputs@.take(i as int), seq![input]);
            lemma_pending_one(before, Walk::Whole, input);
        }
        let copy = rename_aexpr_leaf_names(inputs[i], arena, new_name.clone());
        proof {
            assert forall|j: int| 0 <= j < i implies renamed_copy(
                arena@,
                #[trigger] inputs@[j],
                #[trigger] copies@[j],
                name,
            ) by {
                assert(in_arena(before, inputs@[j]));
                lemma_renamed_copy_stays(middle, arena@, inputs@[j], copies@[j], name);
            }
            assert forall|j: int| 0 <= j < i implies fresh(
                arena@,
                #[trigger] copies@[j],
                before.len(),
            ) by {
                assert(in_arena(middle, copies@[j]));
                lemma_fresh_stays(middle, arena@, copies@[j], before.len());
            }
        }
        copies.push(copy);
        i += 1;
    }
    assert(inputs@.take(i as int) =~= inputs@);
    let expr = match arena.get(node) {
        AExpr::Column(_) => AExpr::Column(new_name),
        expr => expr.with_inputs(&copies),
    };
    let ghost middle = arena@;
    assert(expr.inputs() =~= copies@);
    assert(renames(at(middle, node), expr, name));
    let copy = arena.add(expr);
    proof {
        lemma_push_well_formed(middle, expr);
        let after = arena@;
        assert(at(after, copy) == expr);
        assert forall|j: int| 0 <= j < inputs@.len() implies renamed_copy(
            after,
            #[trigger] inputs@[j],
            #[trigger] copies@[j],
            name,
        ) by {
            assert(in_arena(before, inputs@[j]));
            lemma_renamed_copy_stays(middle, after, inputs@[j], copies@[j], name);
        }
        assert(at(after, node) == at(before, node));
        assert forall|n: Node| #[trigger]
            subtree(after, Walk::Whole, copy).contains(n) implies n.0 >= before.len() by {
            lemma_subtree_parts(after, Walk::Whole, copy, n);
            if n != copy {
                let j = choose|j: int|
                    0 <= j < Walk::Whole.inputs(after, expr).len() && subtree(
                        after,
                        Walk::Whole,
                        #[trigger] Walk::Whole.inputs(after, expr)[j],
                    ).contains(n);
                assert(in_arena(middle, copies@[j]));
                lemma_fresh_stays(middle, after, copies@[j], before.len());
            }
        }
    }
    copy
}

} // verus!
