//! Predicates pushed past a projection.

use std::sync::Arc;
use vstd::prelude::*;

use crate::aexpr::AExpr;
use crate::arena::{at, in_arena, Arena, Node};
use crate::boundary::{keeps_values, projection_allows_aliased_predicate_pushdown};
use crate::collections::{lists, PlHashMap};
use crate::combine::{acc_with, and_expr, exprs_with, insert_and_combine_predicate};
use crate::keys::{has_name, key_has_name, predicate_key};
use crate::names::texts;
use crate::rename::{fresh, rename_aexpr_leaf_names, renamed_copy};
use crate::schema::Schema;
use crate::transfer::{
    acc_in_arena, finds, lemma_moves, moves, no_pushdown_preds, one_moves, orders, reading,
    remove_predicate_refers_to_alias, take_out, under,
};
use crate::traversal::{
    aexpr_to_leaf_names, all_in_arena, check_input_node, grows, leaf_names,
    lemma_push_well_formed, meets, reads_only, subtree, well_formed, Walk,
};

verus! {

/// How far predicates have been pushed: the expressions, the predicates that go on downwards by
/// their keys, and the predicates that are applied here.
pub struct Pushdown {
    pub exprs: Seq<AExpr>,
    pub acc: Map<Seq<char>, Node>,
    pub local: Seq<Node>,
}

impl Pushdown {
    /// Whether the expressions are well formed and all predicates are among them.
    pub open spec fn valid(self) -> bool {
        &&& well_formed(self.exprs)
        &&& acc_in_arena(self.exprs, self.acc)
        &&& all_in_arena(self.exprs, self.local)
    }
}

/// Whether `after` is `before` with a copy of the expression at `node` added, at `copy`, that reads
/// the column `name` alone and shares no part with what was there.
pub open spec fn renaming(
    before: Seq<AExpr>,
    node: Node,
    name: Seq<char>,
    after: Seq<AExpr>,
    copy: Node,
) -> bool {
    &&& well_formed(after)
    &&& grows(before, after)
    &&& after.len() == before.len() + subtree(before, Walk::Whole, node).len()
    &&& before.len() <= copy.0 < after.len()
    &&& renamed_copy(after, node, copy, name)
    &&& fresh(after, copy, before.len())
}

/// Whether the predicate `predicate`, taken from under `alias`, goes on downwards in `after` as a
/// copy that reads `name` in place of the alias.
pub open spec fn goes_on_renamed(
    before: Pushdown,
    alias: Seq<char>,
    predicate: Node,
    name: Seq<char>,
    copied: Seq<AExpr>,
    copy: Node,
    after: Pushdown,
) -> bool {
    let rest = before.acc.remove(alias);
    &&& renaming(before.exprs, predicate, name, copied, copy)
    &&& after.exprs == exprs_with(copied, rest, copy)
    &&& after.acc == acc_with(copied, rest, copy)
    &&& after.local == before.local
}

/// What becomes of the predicate under `alias` at a projection that gives this name to an
/// expression of the columns `leaves`: it goes on downwards, renamed, if that is allowed and there
/// is one column to rename it to; else it becomes a local one.
pub open spec fn alias_taken(
    before: Pushdown,
    alias: Seq<char>,
    leaves: Seq<Seq<char>>,
    allow_aliased_pushdown: bool,
    after: Pushdown,
) -> bool {
    if !before.acc.contains_key(alias) {
        after == before
    } else if allow_aliased_pushdown && leaves.len() == 1 {
        exists|copied: Seq<AExpr>, copy: Node| #[trigger]
            goes_on_renamed(before, alias, before.acc[alias], leaves[0], copied, copy, after)
    } else {
        &&& after.exprs == before.exprs
        &&& after.acc == before.acc.remove(alias)
        &&& after.local == before.local.push(before.acc[alias])
    }
}

/// How the predicates change at a projection that may be an alias: nothing happens if it is none
/// or reads no column; else the predicate under the alias is taken, and after it one other that
/// refers to the alias. `skip` tells whether the projection is done with.
pub open spec fn alias_step(
    before: Pushdown,
    projection: Node,
    allow_aliased_pushdown: bool,
    after: Pushdown,
    skip: bool,
) -> bool {
    let leaves = leaf_names(before.exprs, projection);
    match at(before.exprs, projection) {
        AExpr::Alias(_, alias) => if leaves.len() == 0 {
            after == before && !skip
        } else {
            &&& skip == (before.acc.contains_key(alias@) && !allow_aliased_pushdown)
            &&& exists|taken: Pushdown| #[trigger]
                alias_taken(before, alias@, leaves, allow_aliased_pushdown, taken) && after.exprs
                    == taken.exprs && one_moves(
                    taken.acc,
                    taken.local,
                    alias@,
                    after.acc,
                    after.local,
                )
        },
        _ => after == before && !skip,
    }
}

/// What a loop over projections does next.
#[derive(Clone, Copy, Debug, PartialEq, Eq, Structural)]
pub enum LoopBehavior {
    /// The projection is done with.
    Continue,
    /// There is more to do with the projection.
    Nothing,
}

/// Renames the predicate on the output of an aliased projection to the column that it reads, or
/// makes it a local one.
pub fn rename_predicate_columns_due_to_aliased_projection(
    expr_arena: &mut Arena<AExpr>,
    acc_predicates: &mut PlHashMap<Arc<str>, Node>,
    projection_node: Node,
    allow_aliased_pushdown: bool,
    local_predicates: &mut Vec<Node>,
) -> (behavior: LoopBehavior)
    requires
        in_arena(old(expr_arena)@, projection_node),
        well_formed(old(expr_arena)@),
        acc_in_arena(old(expr_arena)@, old(acc_predicates)@),
    ensures
        alias_step(
            (Pushdown {
                exprs: old(expr_arena)@,
                acc: old(acc_predicates)@,
                local: old(local_predicates)@,
            }),
            projection_node,
            allow_aliased_pushdown,
            (Pushdown {
                exprs: final(expr_arena)@,
                acc: final(acc_predicates)@,
                local: final(local_predicates)@,
            }),
            behavior == LoopBehavior::Continue,
        ),
        grows(old(expr_arena)@, final(expr_arena)@),
        well_formed(final(expr_arena)@),
        acc_in_arena(final(expr_arena)@, final(acc_predicates)@),
        all_in_arena(old(expr_arena)@, old(local_predicates)@) ==> all_in_arena(
            final(expr_arena)@,
            final(local_predicates)@,
        ),
{
    let ghost before = Pushdown {
        exprs: expr_arena@,
        acc: acc_predicates@,
        local: local_predicates@,
    };
    let alias_name = match expr_arena.get(projection_node) {
        AExpr::Alias(_, alias_name) => alias_name.clone(),
        _ => return LoopBehavior::Nothing,
    };
    let projection_leaves = aexpr_to_leaf_names(projection_node, expr_arena);
    let ghost leaves = texts(projection_leaves@);

    // this means the leaf is a literal
    if projection_leaves.len() == 0 {
        return LoopBehavior::Nothing;
    }
    let mut behavior = LoopBehavior::Nothing;

    // if this alias refers to one of the predicates in the upper nodes
    // we rename the column of the predicate before we push it downwards.
    if let Some(predicate) = acc_predicates.remove(&*alias_name) {
        assert(before.acc.contains_key(alias_name@));
        let ghost rest = acc_predicates@;
        if !allow_aliased_pushdown {
            local_predicates.push(predicate);
            behavior = LoopBehavior::Continue;
        } else if projection_leaves.len() == 1 {
            // we were able to rename the alias column with the root column name
            // before pushing down the predicate
            assert(leaves[0] == projection_leaves@[0]@);
            let copy = rename_aexpr_leaf_names(
                predicate,
                expr_arena,
                projection_leaves[0].clone(),
            );
            let ghost copied = expr_arena@;
            insert_and_combine_predicate(acc_predicates, copy, expr_arena);
            proof {
                lemma_insert_valid(copied, rest, copy);
                let after = Pushdown {
                    exprs: expr_arena@,
                    acc: acc_predicates@,
                    local: local_predicates@,
                };
                assert(goes_on_renamed(
                    before,
                    alias_name@,
                    predicate,
                    leaves[0],
                    copied,
                    copy,
                    after,
                ));
            }
        } else {
            // this may be a complex binary function. The predicate may only be valid
            // on this projected column so we do filter locally.
            local_predicates.push(predicate);
        }
    } else {
        assert(before.acc.remove(alias_name@) =~= before.acc);
    }
    let ghost taken = Pushdown {
        exprs: expr_arena@,
        acc: acc_predicates@,
        local: local_predicates@,
    };
    assert(alias_taken(before, alias_name@, leaves, allow_aliased_pushdown, taken));
    remove_predicate_refers_to_alias(acc_predicates, local_predicates, &*alias_name);
    behavior
}

/// A predicate of the arena joins the accumulated ones in a well-formed arena.
pub proof fn lemma_insert_valid(exprs: Seq<AExpr>, acc: Map<Seq<char>, Node>, predicate: Node)
    requires
        well_formed(exprs),
        acc_in_arena(exprs, acc),
        in_arena(exprs, predicate),
    ensures
        well_formed(exprs_with(exprs, acc, predicate)),
        grows(exprs, exprs_with(exprs, acc, predicate)),
        acc_in_arena(exprs_with(exprs, acc, predicate), acc_with(exprs, acc, predicate)),
{
    let key = predicate_key(exprs, predicate);
    if acc.contains_key(key) {
        let expr = and_expr(predicate, acc[key]);
        assert(expr.inputs() =~= seq![acc[key], predicate]);
        lemma_push_well_formed(exprs, expr);
    }
}

/// The keys of the predicates on the output column `output_name` that cannot go below a projection
/// that gives this column: all, or if the projection `allows` it those that read a column that the
/// input does not have.
pub open spec fn stuck(
    exprs: Seq<AExpr>,
    acc: Map<Seq<char>, Node>,
    output_name: Seq<char>,
    allows: bool,
    columns: Seq<Seq<char>>,
) -> Set<Seq<char>> {
    Set::new(
        |key: Seq<char>|
            has_name(key, output_name) && !(allows && reads_only(exprs, acc[key], columns)),
    )
}

/// Makes the predicates on `output_name` that cannot go below the projection local ones.
fn keep_stuck_predicates(
    expr_arena: &Arena<AExpr>,
    input_schema: &Schema,
    acc_predicates: &mut PlHashMap<Arc<str>, Node>,
    output_name: &str,
    allow_aliased_pushdown: bool,
    local_predicates: &mut Vec<Node>,
)
    requires
        well_formed(expr_arena@),
        acc_in_arena(expr_arena@, old(acc_predicates)@),
    ensures
        moves(
            old(acc_predicates)@,
            old(local_predicates)@,
            stuck(
                expr_arena@,
                old(acc_predicates)@,
                output_name@,
                allow_aliased_pushdown,
                input_schema@,
            ),
            final(acc_predicates)@,
            final(local_predicates)@,
        ),
{
    let ghost exprs = expr_arena@;
    let ghost acc = acc_predicates@;
    let ghost taken = stuck(exprs, acc, output_name@, allow_aliased_pushdown, input_schema@);
    let entries = acc_predicates.entries();
    let mut to_local: Vec<Arc<str>> = Vec::new();
    let mut i: usize = 0;
    while i < entries.len()
        invariant
            exprs == expr_arena@,
            well_formed(exprs),
            acc_in_arena(exprs, acc),
            taken == stuck(exprs, acc, output_name@, allow_aliased_pushdown, input_schema@),
            lists(acc, entries@),
            i <= entries@.len(),
            texts(to_local@).no_duplicates(),
            forall|key: Seq<char>| #[trigger]
                texts(to_local@).contains(key) <==> (taken.contains(key) && exists|j: int|
                    0 <= j < i && (#[trigger] entries@[j]).0@ == key),
        decreases entries@.len() - i,
    {
        let ghost key = entries@[i as int].0@;
        let ghost known = texts(to_local@);
        assert(acc.contains_key(key) && acc[key] == entries@[i as int].1);
        assert(!known.contains(key));
        // Predicates that have nothing to do with this projection go on. So do those whose column
        // does not change value compared to the node above and exists in the node above.
        let goes_on = !key_has_name(&*entries[i].0, output_name) || (allow_aliased_pushdown
            && check_input_node(entries[i].1, input_schema, expr_arena));
        assert(goes_on == !taken.contains(key));
        if !goes_on {
            to_local.push(entries[i].0.clone());
            proof {
                assert(texts(to_local@) =~= known.push(key));
                assert forall|k: Seq<char>| texts(to_local@).contains(k) == (known.contains(k) || k
                    == key) by {
                    if known.contains(k) {
                        let j = choose|j: int| 0 <= j < known.len() && known[j] == k;
                        assert(texts(to_local@)[j] == k);
                    }
                    assert(texts(to_local@)[known.len() as int] == key);
                }
            }
        }
        proof {
            assert forall|k: Seq<char>| #[trigger] texts(to_local@).contains(k) <==> (
            taken.contains(k) && exists|j: int| 0 <= j < i + 1 && (#[trigger] entries@[j]).0@
                == k) by {
                assert(known.contains(k) <==> (taken.contains(k) && exists|j: int|
                    0 <= j < i && (#[trigger] entries@[j]).0@ == k));
                if k == key {
                    assert(entries@[i as int].0@ == k);
                }
                if exists|j: int| 0 <= j < i + 1 && (#[trigger] entries@[j]).0@ == k {
                    let j = choose|j: int| 0 <= j < i + 1 && (#[trigger] entries@[j]).0@ == k;
                    assert(j < i || k == key);
                }
            }
        }
        i += 1;
    }
    proof {
        let keys = texts(to_local@);
        assert forall|key: Seq<char>| #[trigger]
            keys.contains(key) <==> acc.dom().intersect(taken).contains(key) by {
            if keys.contains(key) {
                let j = choose|j: int| 0 <= j < i && (#[trigger] entries@[j]).0@ == key;
                assert(acc.contains_key(entries@[j].0@));
            }
            if acc.contains_key(key) && taken.contains(key) {
                let j = choose|j: int|
                    0 <= j < entries@.len() && (#[trigger] entries@[j]).0@ == key;
                assert(0 <= j < i && entries@[j].0@ == key);
            }
        }
        assert forall|j: int| 0 <= j < keys.len() implies acc.contains_key(#[trigger] keys[j]) by {
            assert(keys.contains(keys[j]));
        }
        lemma_moves(acc, local_predicates@, keys, taken);
    }
    take_out(acc_predicates, &to_local, local_predicates);
}

/// Whether `expr` gives other values, or another number of them, than the column that it reads.
pub open spec fn is_column_modification(expr: AExpr) -> bool {
    expr is Explode || expr is Ternary
}

/// Whether the projection at `projection` modifies columns.
pub open spec fn modifies_columns(exprs: Seq<AExpr>, projection: Node) -> bool {
    meets(exprs, Walk::Whole, projection, |expr: AExpr| is_column_modification(expr))
}

/// How the predicates change at a projection once its alias, if it is one, has been dealt with:
/// first the predicates on its output column that cannot go below it become local ones; then, if
/// it modifies columns, those on the columns that it reads.
pub open spec fn output_step(
    before: Pushdown,
    projection: Node,
    output_name: Seq<char>,
    allows: bool,
    columns: Seq<Seq<char>>,
    after: Pushdown,
) -> bool {
    &&& after.exprs == before.exprs
    &&& exists|middle: Pushdown|
        {
            &&& middle.exprs == before.exprs
            &&& #[trigger] moves(
                before.acc,
                before.local,
                stuck(before.exprs, before.acc, output_name, allows, columns),
                middle.acc,
                middle.local,
            )
            &&& if modifies_columns(before.exprs, projection) {
                moves(
                    middle.acc,
                    middle.local,
                    reading(before.exprs, middle.acc, leaf_names(before.exprs, projection)),
                    after.acc,
                    after.local,
                )
            } else {
                after.acc == middle.acc && after.local == middle.local
            }
        }
}

/// How the predicates change at one projection, which gives the column `output_name` from an
/// input with `columns`.
pub open spec fn projection_step(
    before: Pushdown,
    projection: Node,
    output_name: Seq<char>,
    columns: Seq<Seq<char>>,
    after: Pushdown,
) -> bool {
    let allows = keeps_values(before.exprs, projection);
    exists|middle: Pushdown, skip: bool| #[trigger]
        alias_step(before, projection, allows, middle, skip) && if skip {
            after == middle
        } else {
            output_step(middle, projection, output_name, allows, columns, after)
        }
}

/// The states of a step past a projection: what its alias, if it is one, leaves, and whether the
/// projection is then done with.
pub proof fn lemma_split_step(
    before: Pushdown,
    projection: Node,
    output_name: Seq<char>,
    columns: Seq<Seq<char>>,
    after: Pushdown,
) -> (parts: (Pushdown, bool))
    requires
        projection_step(before, projection, output_name, columns, after),
    ensures
        alias_step(before, projection, keeps_values(before.exprs, projection), parts.0, parts.1),
        if parts.1 {
            after == parts.0
        } else {
            output_step(
                parts.0,
                projection,
                output_name,
                keeps_values(before.exprs, projection),
                columns,
                after,
            )
        },
{
    let allows = keeps_values(before.exprs, projection);
    choose|middle: Pushdown, skip: bool| #[trigger]
        alias_step(before, projection, allows, middle, skip) && if skip {
            after == middle
        } else {
            output_step(middle, projection, output_name, allows, columns, after)
        }
}

/// The state of an alias step in which the predicate under the alias has been taken.
pub proof fn lemma_split_alias_step(
    before: Pushdown,
    projection: Node,
    alias: Seq<char>,
    allows: bool,
    after: Pushdown,
    skip: bool,
) -> (taken: Pushdown)
    requires
        alias_step(before, projection, allows, after, skip),
        at(before.exprs, projection) matches AExpr::Alias(_, name) && name@ == alias,
        leaf_names(before.exprs, projection).len() > 0,
    ensures
        alias_taken(before, alias, leaf_names(before.exprs, projection), allows, taken),
        after.exprs == taken.exprs,
        one_moves(taken.acc, taken.local, alias, after.acc, after.local),
{
    let leaves = leaf_names(before.exprs, projection);
    choose|taken: Pushdown| #[trigger]
        alias_taken(before, alias, leaves, allows, taken) && after.exprs == taken.exprs
            && one_moves(taken.acc, taken.local, alias, after.acc, after.local)
}

/// The state of an output step in which the predicates on the output column have become local ones.
pub proof fn lemma_split_output_step(
    before: Pushdown,
    projection: Node,
    output_name: Seq<char>,
    allows: bool,
    columns: Seq<Seq<char>>,
    after: Pushdown,
) -> (middle: Pushdown)
    requires
        output_step(before, projection, output_name, allows, columns, after),
    ensures
        after.exprs == before.exprs,
        middle.exprs == before.exprs,
        moves(
            before.acc,
            before.local,
            stuck(before.exprs, before.acc, output_name, allows, columns),
            middle.acc,
            middle.local,
        ),
        if modifies_columns(before.exprs, projection) {
            moves(
                middle.acc,
                middle.local,
                reading(before.exprs, middle.acc, leaf_names(before.exprs, projection)),
                after.acc,
                after.local,
            )
        } else {
            after.acc == middle.acc && after.local == middle.local
        },
{
    choose|middle: Pushdown|
        {
            &&& middle.exprs == before.exprs
            &&& #[trigger] moves(
                before.acc,
                before.local,
                stuck(before.exprs, before.acc, output_name, allows, columns),
                middle.acc,
                middle.local,
            )
            &&& if modifies_columns(before.exprs, projection) {
                moves(
                    middle.acc,
                    middle.local,
                    reading(before.exprs, middle.acc, leaf_names(before.exprs, projection)),
                    after.acc,
                    after.local,
                )
            } else {
                after.acc == middle.acc && after.local == middle.local
            }
        }
}

/// Predicates that are made local ones stay valid.
pub proof fn lemma_moves_valid(
    exprs: Seq<AExpr>,
    acc: Map<Seq<char>, Node>,
    local: Seq<Node>,
    taken: Set<Seq<char>>,
    acc_after: Map<Seq<char>, Node>,
    local_after: Seq<Node>,
)
    requires
        acc_in_arena(exprs, acc),
        all_in_arena(exprs, local),
        moves(acc, local, taken, acc_after, local_after),
    ensures
        acc_in_arena(exprs, acc_after),
        all_in_arena(exprs, local_after),
{
    let keys = choose|keys: Seq<Seq<char>>| #[trigger]
        orders(keys, acc.dom().intersect(taken)) && local_after == local + under(acc, keys);
    assert forall|i: int| 0 <= i < local_after.len() implies in_arena(
        exprs,
        #[trigger] local_after[i],
    ) by {
        if i >= local.len() {
            let key = keys[i - local.len()];
            assert(keys.contains(key));
            assert(acc.contains_key(key));
        }
    }
}

/// Pushes predicates past one projection.
fn push_past_projection(
    expr_arena: &mut Arena<AExpr>,
    input_schema: &Schema,
    acc_predicates: &mut PlHashMap<Arc<str>, Node>,
    projection_node: Node,
    output_name: &str,
    local_predicates: &mut Vec<Node>,
)
    requires
        in_arena(old(expr_arena)@, projection_node),
        (Pushdown {
            exprs: old(expr_arena)@,
            acc: old(acc_predicates)@,
            local: old(local_predicates)@,
        }).valid(),
    ensures
        projection_step(
            (Pushdown {
                exprs: old(expr_arena)@,
                acc: old(acc_predicates)@,
                local: old(local_predicates)@,
            }),
            projection_node,
            output_name@,
            input_schema@,
            (Pushdown {
                exprs: final(expr_arena)@,
                acc: final(acc_predicates)@,
                local: final(local_predicates)@,
            }),
        ),
        grows(old(expr_arena)@, final(expr_arena)@),
        (Pushdown {
            exprs: final(expr_arena)@,
            acc: final(acc_predicates)@,
            local: final(local_predicates)@,
        }).valid(),
{
    let ghost before = Pushdown {
        exprs: expr_arena@,
        acc: acc_predicates@,
        local: local_predicates@,
    };
    // only if a predicate refers to this projection's output column.
    let allow_aliased_pushdown = projection_allows_aliased_predicate_pushdown(
        projection_node,
        expr_arena,
    );

    // if this alias refers to one of the predicates in the upper nodes
    // we rename the column of the predicate before we push it downwards.
    let behavior = rename_predicate_columns_due_to_aliased_projection(
        expr_arena,
        acc_predicates,
        projection_node,
        allow_aliased_pushdown,
        local_predicates,
    );
    let ghost exprs = expr_arena@;
    let ghost renamed = Pushdown { exprs, acc: acc_predicates@, local: local_predicates@ };
    assert(alias_step(
        before,
        projection_node,
        allow_aliased_pushdown,
        renamed,
        behavior == LoopBehavior::Continue,
    ));
    if let LoopBehavior::Continue = behavior {
        return;
    }

    // remove predicates that cannot be done on the input above
    keep_stuck_predicates(
        expr_arena,
        input_schema,
        acc_predicates,
        output_name,
        allow_aliased_pushdown,
        local_predicates,
    );
    let ghost middle = Pushdown { exprs, acc: acc_predicates@, local: local_predicates@ };
    proof {
        lemma_moves_valid(
            exprs,
            renamed.acc,
            renamed.local,
            stuck(exprs, renamed.acc, output_name@, allow_aliased_pushdown, input_schema@),
            middle.acc,
            middle.local,
        );
    }

    // remove predicates that are based on column modifications
    let matches = |e: &AExpr| -> (modifies: bool)
        ensures
            modifies == is_column_modification(*e),
        {
            match e {
                AExpr::Explode(_) => true,
                AExpr::Ternary { .. } => true,
                _ => false,
            }
        };
    no_pushdown_preds(projection_node, expr_arena, matches, local_predicates, acc_predicates);
    proof {
        let found = choose|found: bool| #[trigger]
            finds(exprs, projection_node, matches, found) && if found {
                moves(
                    middle.acc,
                    middle.local,
                    reading(exprs, middle.acc, leaf_names(exprs, projection_node)),
                    acc_predicates@,
                    local_predicates@,
                )
            } else {
                acc_predicates@ == middle.acc && local_predicates@ == middle.local
            };
        assert(found == modifies_columns(exprs, projection_node));
        if found {
            lemma_moves_valid(
                exprs,
                middle.acc,
                middle.local,
                reading(exprs, middle.acc, leaf_names(exprs, projection_node)),
                acc_predicates@,
                local_predicates@,
            );
        }
        let after = Pushdown { exprs, acc: acc_predicates@, local: local_predicates@ };
        assert(output_step(
            renamed,
            projection_node,
            output_name@,
            allow_aliased_pushdown,
            input_schema@,
            after,
        ));
    }
}

/// Whether `trace` shows, from the first to the last, how far predicates have been pushed past
/// each of `projections`.
pub open spec fn is_trace(
    trace: Seq<Pushdown>,
    projections: Seq<Node>,
    output_names: Seq<Seq<char>>,
    columns: Seq<Seq<char>>,
) -> bool {
    &&& trace.len() == projections.len() + 1
    &&& forall|i: int|
        0 <= i < projections.len() ==> projection_step(
            #[trigger] trace[i],
            projections[i],
            output_names[i],
            columns,
            trace[i + 1],
        )
}

/// Pushes predicates past the projections of a node whose input has the columns of `input_schema`.
/// The projection at `projections[i]` gives the column `output_names[i]`. Returns the predicates
/// that have to be applied at the node, and the projections.
///
/// Implementation for both Hstack and Projection.
pub fn rewrite_projection_node(
    expr_arena: &mut Arena<AExpr>,
    input_schema: &Schema,
    acc_predicates: &mut PlHashMap<Arc<str>, Node>,
    projections: Vec<Node>,
    output_names: &Vec<Arc<str>>,
) -> (result: (Vec<Node>, Vec<Node>))
    requires
        well_formed(old(expr_arena)@),
        acc_in_arena(old(expr_arena)@, old(acc_predicates)@),
        all_in_arena(old(expr_arena)@, projections@),
        output_names@.len() == projections@.len(),
    ensures
        result.1@ == projections@,
        exists|trace: Seq<Pushdown>|
            {
                &&& #[trigger] is_trace(
                    trace,
                    projections@,
                    texts(output_names@),
                    input_schema@,
                )
                &&& trace.first() == (Pushdown {
                    exprs: old(expr_arena)@,
                    acc: old(acc_predicates)@,
                    local: seq![],
                })
                &&& trace.last() == (Pushdown {
                    exprs: final(expr_arena)@,
                    acc: final(acc_predicates)@,
                    local: result.0@,
                })
            },
        well_formed(final(expr_arena)@),
        grows(old(expr_arena)@, final(expr_arena)@),
        acc_in_arena(final(expr_arena)@, final(acc_predicates)@),
        all_in_arena(final(expr_arena)@, result.0@),
{
    let ghost names = texts(output_names@);
    let mut local_predicates: Vec<Node> = Vec::new();
    let ghost first = Pushdown { exprs: expr_arena@, acc: acc_predicates@, local: seq![] };
    let ghost mut trace: Seq<Pushdown> = seq![first];
    let mut i: usize = 0;

    // maybe update predicate name if a projection is an alias
    // aliases change the column names and because we push the predicates downwards
    // this may be problematic as the aliased column may not yet exist.
    assert(local_predicates@ =~= seq![]);
    while i < projections.len()
        invariant
            i <= projections@.len(),
            names == texts(output_names@),
            output_names@.len() == projections@.len(),
            all_in_arena(old(expr_arena)@, projections@),
            trace.len() == i + 1,
            trace.first() == first,
            trace.last() == (Pushdown {
                exprs: expr_arena@,
                acc: acc_predicates@,
                local: local_predicates@,
            }),
            trace.last().valid(),
            grows(old(expr_arena)@, expr_arena@),
            forall|j: int|
                0 <= j < i ==> projection_step(
                    #[trigger] trace[j],
                    projections@[j],
                    names[j],
                    input_schema@,
                    trace[j + 1],
                ),
        decreases projections@.len() - i,
    {
        let ghost known = trace;
        assert(in_arena(old(expr_arena)@, projections@[i as int]));
        push_past_projection(
            expr_arena,
            input_schema,
            acc_predicates,
            projections[i],
            &*output_names[i],
            &mut local_predicates,
        );
        proof {
            trace = known.push(
                Pushdown { exprs: expr_arena@, acc: acc_predicates@, local: local_predicates@ },
            );
            assert forall|j: int| 0 <= j < i + 1 implies projection_step(
                #[trigger] trace[j],
                projections@[j],
                names[j],
                input_schema@,
                trace[j + 1],
            ) by {
                if j == i {
                    assert(trace[j] == known.last());
                } else {
                    assert(trace[j] == known[j] && trace[j + 1] == known[j + 1]);
                }
            }
        }
        i += 1;
    }
    assert(is_trace(trace, projections@, names, input_schema@));
    (local_predicates, projections)
}

} // verus!
