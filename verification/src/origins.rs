//! Where the predicates come from that go on below a projection, and those that become local ones
//! at it.

use vstd::prelude::*;

use crate::aexpr::AExpr;
use crate::allowed::aliased_column;
use crate::arena::{at, in_arena, Node};
use crate::boundary::{is_column_or_alias, keeps_values};
use crate::combine::and_expr;
use crate::evaluation::lemma_column_of_operand;
use crate::key_laws::{
    all_plain, keys_fit, law_fitting_key_tells_columns, law_name_as_key,
    lemma_alias_taken_keeps_keys, lemma_and_reads, lemma_keys_fit_fewer, lemma_keys_fit_stays,
    lemma_same_key_reads, plain,
};
use crate::keys::{has_name, predicate_key};
use crate::laws::{law_projection_step_valid, law_step_leaves_what_can_go_on};
use crate::projection::{
    alias_step, alias_taken, goes_on_renamed, is_column_modification, lemma_insert_valid,
    lemma_split_alias_step, lemma_split_output_step, lemma_split_step, modifies_columns,
    projection_step, stuck, Pushdown,
};
use crate::pushdown_laws::{law_renamable_is_column, lemma_meets_stays};
use crate::rename::{fresh, law_renamed_copy_reads_new_name, lemma_fresh_stays};
use crate::transfer::{orders, reading, under};
use crate::traversal::{
    grows, leaf_names, lemma_leaf_names_stay, reads_only, subtree, well_formed, Walk,
};

verus! {

/// Whether the expression at `node` reads the column `column` and no other, or none at all.
pub open spec fn reads_just(exprs: Seq<AExpr>, node: Node, column: Seq<char>) -> bool {
    forall|name: Seq<char>| #[trigger] leaf_names(exprs, node).contains(name) ==> name == column
}

/// Whether the projection at `projection` gives the column `name`, as far as it says so itself.
pub open spec fn gives(exprs: Seq<AExpr>, projection: Node, name: Seq<char>) -> bool {
    match at(exprs, projection) {
        AExpr::Alias(_, alias) => alias@ == name,
        AExpr::Column(column) => column@ == name,
        _ => true,
    }
}

/// Whether the predicate on the output column `name` alone is renamed to `column` at a projection.
pub open spec fn renames_here(
    before: Pushdown,
    projection: Node,
    name: Seq<char>,
    column: Seq<char>,
) -> bool {
    &&& before.acc.contains_key(name)
    &&& at(before.exprs, projection) is Alias
    &&& aliased_column(before.exprs, projection) == Some((name, column))
}

/// Whether the loop over projections goes on to the next as soon as the predicate on the output
/// column `name` alone has become a local one.
pub open spec fn skips_here(before: Pushdown, projection: Node, name: Seq<char>) -> bool {
    &&& before.acc.contains_key(name)
    &&& at(before.exprs, projection) is Alias
    &&& leaf_names(before.exprs, projection).len() > 0
    &&& !keeps_values(before.exprs, projection)
}

/// Whether there is a predicate under `key` that refers to `name`, though not to it alone, as far
/// as the key tells.
pub open spec fn refers(acc: Map<Seq<char>, Node>, name: Seq<char>, key: Seq<char>) -> bool {
    acc.contains_key(key) && key != name && has_name(key, name)
}

/// Whether `node` is a predicate that has been renamed to `column` at a projection: a copy of which
/// all is new, combined with the predicate that was under `key` if there was one.
pub open spec fn is_renamed_here(
    before: Pushdown,
    projection: Node,
    name: Seq<char>,
    column: Seq<char>,
    exprs: Seq<AExpr>,
    key: Seq<char>,
    node: Node,
) -> bool {
    &&& renames_here(before, projection, name, column)
    &&& reads_just(exprs, node, column)
    &&& node.0 >= before.exprs.len()
    &&& fresh(exprs, node, before.exprs.len()) && (before.acc.contains_key(key) ==> key == name)
        || exists|copy: Node| #[trigger]
        fresh(exprs, copy, before.exprs.len()) && in_arena(exprs, copy) && before.acc.contains_key(
            key,
        ) && at(exprs, node) == and_expr(copy, before.acc[key])
}

/// Whether `node` is the predicate that was under `key` before, or one that has been renamed.
pub open spec fn came_down(
    before: Pushdown,
    projection: Node,
    name: Seq<char>,
    exprs: Seq<AExpr>,
    key: Seq<char>,
    node: Node,
) -> bool {
    ||| before.acc.contains_key(key) && before.acc[key] == node
    ||| exists|column: Seq<char>| #[trigger]
        is_renamed_here(before, projection, name, column, exprs, key, node)
}

/// Whether `node` reads nothing but the column that a projection gives under the name `name`, and
/// that the input has under the same name; or nothing at all.
pub open spec fn reads_kept(
    before: Pushdown,
    projection: Node,
    name: Seq<char>,
    exprs: Seq<AExpr>,
    node: Node,
) -> bool {
    &&& reads_just(exprs, node, name)
    &&& leaf_names(exprs, node).len() > 0 ==> aliased_column(before.exprs, projection) == Some(
        (name, name),
    )
}

/// Whether `node` is a predicate that was accumulated and refers to `name`, as far as its key
/// tells.
pub open spec fn referred(before: Pushdown, name: Seq<char>, node: Node) -> bool {
    exists|key: Seq<char>| #[trigger]
        before.acc.contains_key(key) && has_name(key, name) && before.acc[key] == node
}

/// What the accumulated predicates are once the one under an alias has been taken: what was there,
/// and the renamed one.
proof fn lemma_taken_origin(
    before: Pushdown,
    projection: Node,
    name: Seq<char>,
    taken: Pushdown,
)
    requires
        before.valid(),
        in_arena(before.exprs, projection),
        at(before.exprs, projection) is Alias,
        gives(before.exprs, projection, name),
        alias_taken(
            before,
            name,
            leaf_names(before.exprs, projection),
            keeps_values(before.exprs, projection),
            taken,
        ),
        taken.exprs.len() <= usize::MAX,
        keys_fit(before.exprs, before.acc),
        plain(name),
        keeps_values(before.exprs, projection) ==> all_plain(leaf_names(before.exprs, projection)),
    ensures
        taken.valid(),
        grows(before.exprs, taken.exprs),
        keys_fit(taken.exprs, taken.acc),
        forall|key: Seq<char>| #[trigger]
            taken.acc.contains_key(key) ==> {
                ||| before.acc.contains_key(key) && key != name && before.acc[key]
                    == taken.acc[key]
                ||| leaf_names(taken.exprs, taken.acc[key]).len() > 0 && exists|column: Seq<char>|
                    #[trigger]
                    is_renamed_here(
                        before,
                        projection,
                        name,
                        column,
                        taken.exprs,
                        key,
                        taken.acc[key],
                    )
            },
        taken.local == before.local || (before.acc.contains_key(name) && taken.local
            == before.local.push(before.acc[name])),
{
    let leaves = leaf_names(before.exprs, projection);
    let allows = keeps_values(before.exprs, projection);
    law_renamable_is_column(before.exprs, projection);
    lemma_alias_taken_keeps_keys(before, name, leaves, allows, taken);
    if before.acc.contains_key(name) && allows && leaves.len() == 1 {
        let predicate = before.acc[name];
        let rest = before.acc.remove(name);
        let column = leaves[0];
        assert(renames_here(before, projection, name, column));
        let (copied, copy) = choose|copied: Seq<AExpr>, copy: Node| #[trigger]
            goes_on_renamed(before, name, predicate, column, copied, copy, taken);
        lemma_insert_valid(copied, rest, copy);
        lemma_leaf_names_stay(before.exprs, copied, predicate);
        law_renamed_copy_reads_new_name(copied, predicate, copy, column);
        law_name_as_key(before.exprs, before.acc, name, name);
        assert(rest.submap_of(before.acc));
        lemma_keys_fit_fewer(before.exprs, before.acc, rest);
        lemma_keys_fit_stays(before.exprs, copied, rest);
        let own = predicate_key(copied, copy);
        let read = leaf_names(copied, copy);
        assert(read.len() > 0);
        lemma_leaf_names_stay(copied, taken.exprs, copy);
        assert(all_plain(read)) by {
            assert(plain(leaves[0]));
        }
        assert forall|key: Seq<char>| #[trigger] taken.acc.contains_key(key) implies {
            ||| before.acc.contains_key(key) && key != name && before.acc[key] == taken.acc[key]
            ||| leaf_names(taken.exprs, taken.acc[key]).len() > 0 && exists|c: Seq<char>| #[trigger]
                is_renamed_here(
                    before,
                    projection,
                    name,
                    c,
                    taken.exprs,
                    key,
                    taken.acc[key],
                )
        } by {
            lemma_fresh_stays(copied, taken.exprs, copy, before.exprs.len());
            if key == own {
                if rest.contains_key(own) {
                    let existing = rest[own];
                    let node = Node(copied.len() as usize);
                    assert(taken.acc[key] == node);
                    assert(at(taken.exprs, node) == and_expr(copy, existing));
                    lemma_leaf_names_stay(copied, taken.exprs, existing);
                    lemma_and_reads(taken.exprs, node, copy, existing);
                    let b = leaf_names(copied, existing);
                    assert forall|c: Seq<char>| #[trigger]
                        leaf_names(taken.exprs, node).contains(c) implies c == column by {
                        let i = choose|i: int|
                            0 <= i < (read + b).len() && (read + b)[i] == c;
                        if i >= read.len() {
                            assert(b[i - read.len()] == c);
                            lemma_same_key_reads(copied, rest, copy, c);
                        }
                    }
                } else {
                    assert(taken.acc[key] == copy);
                }
                assert(reads_just(taken.exprs, taken.acc[key], column));
                assert(is_renamed_here(
                    before,
                    projection,
                    name,
                    column,
                    taken.exprs,
                    key,
                    taken.acc[key],
                ));
            } else {
                assert(rest.contains_key(key));
            }
        }
    }
}

/// What becomes of the predicates at an alias: those that go on are the same or renamed; those that
/// become local ones refer to the alias; and if one that goes on still reads the column of this
/// name, there was another one that referred to it.
proof fn lemma_alias_origin(
    before: Pushdown,
    projection: Node,
    name: Seq<char>,
    after: Pushdown,
    skip: bool,
)
    requires
        before.valid(),
        in_arena(before.exprs, projection),
        gives(before.exprs, projection, name),
        alias_step(before, projection, keeps_values(before.exprs, projection), after, skip),
        after.exprs.len() <= usize::MAX,
        keys_fit(before.exprs, before.acc),
        plain(name),
        keeps_values(before.exprs, projection) ==> all_plain(leaf_names(before.exprs, projection)),
    ensures
        after.valid(),
        grows(before.exprs, after.exprs),
        keys_fit(after.exprs, after.acc),
        skip == skips_here(before, projection, name),
        forall|key: Seq<char>| #[trigger]
            after.acc.contains_key(key) ==> came_down(
                before,
                projection,
                name,
                after.exprs,
                key,
                after.acc[key],
            ),
        before.local.len() <= after.local.len(),
        forall|i: int|
            before.local.len() <= i < after.local.len() ==> referred(
                before,
                name,
                #[trigger] after.local[i],
            ) || reads_kept(before, projection, name, after.exprs, after.local[i]),
        forall|key: Seq<char>|
            #![trigger after.acc.contains_key(key)]
            after.acc.contains_key(key) && leaf_names(after.exprs, after.acc[key]).contains(name)
                && at(before.exprs, projection) is Alias && leaf_names(
                before.exprs,
                projection,
            ).len() > 0 && aliased_column(before.exprs, projection) != Some((name, name)) ==> {
                &&& refers(before.acc, name, key)
                &&& before.acc[key] == after.acc[key]
                &&& exists|other: Seq<char>| #[trigger]
                    refers(before.acc, name, other) && other != key
            },
{
    let leaves = leaf_names(before.exprs, projection);
    let allows = keeps_values(before.exprs, projection);
    law_renamable_is_column(before.exprs, projection);
    if at(before.exprs, projection) is Alias && leaves.len() > 0 {
        let taken = lemma_split_alias_step(before, projection, name, allows, after, skip);
        lemma_taken_origin(before, projection, name, taken);
        assert(after.acc.submap_of(taken.acc));
        lemma_keys_fit_fewer(taken.exprs, taken.acc, after.acc);
        if before.acc.contains_key(name) {
            assert(has_name(name, name));
            assert(referred(before, name, before.acc[name]));
        }
        let some_refers = exists|key: Seq<char>| #[trigger]
            taken.acc.contains_key(key) && has_name(key, name);
        if some_refers {
            let moved = choose|key: Seq<char>| #[trigger]
                taken.acc.contains_key(key) && has_name(key, name) && after.acc
                    == taken.acc.remove(key) && after.local == taken.local.push(taken.acc[key]);
            let node = taken.acc[moved];
            if before.acc.contains_key(moved) && moved != name && before.acc[moved] == node {
                assert(referred(before, name, node));
            } else {
                law_fitting_key_tells_columns(taken.exprs, taken.acc, moved, name);
                assert(reads_kept(before, projection, name, after.exprs, node));
            }
            assert forall|key: Seq<char>|
                #![trigger after.acc.contains_key(key)]
                after.acc.contains_key(key) && leaf_names(after.exprs, after.acc[key]).contains(
                    name,
                ) && aliased_column(before.exprs, projection) != Some((name, name)) implies {
                &&& refers(before.acc, name, key)
                &&& before.acc[key] == after.acc[key]
                &&& exists|other: Seq<char>| #[trigger]
                    refers(before.acc, name, other) && other != key
            } by {
                assert(taken.acc.contains_key(key));
                law_fitting_key_tells_columns(taken.exprs, taken.acc, key, name);
                assert(refers(before.acc, name, key));
                assert(refers(before.acc, name, moved));
                assert(moved != key);
            }
        } else {
            assert forall|key: Seq<char>|
                #![trigger after.acc.contains_key(key)]
                after.acc.contains_key(key) implies !leaf_names(
                after.exprs,
                after.acc[key],
            ).contains(name) by {
                assert(taken.acc.contains_key(key));
                if leaf_names(after.exprs, after.acc[key]).contains(name) {
                    law_fitting_key_tells_columns(taken.exprs, taken.acc, key, name);
                }
            }
        }
        assert forall|key: Seq<char>| #[trigger] after.acc.contains_key(key) implies came_down(
            before,
            projection,
            name,
            after.exprs,
            key,
            after.acc[key],
        ) by {
            assert(taken.acc.contains_key(key));
        }
    }
}

/// Whether the predicate under `key`, which refers to the output column of a projection, goes below
/// it, though the column has other values there. Of several predicates that refer to an alias,
/// though not to it alone, only one becomes a local one. The others go on: all of them if the
/// predicate on the alias alone could not be renamed, else those that read nothing but columns of
/// the input.
pub open spec fn may_be_left(
    before: Pushdown,
    projection: Node,
    name: Seq<char>,
    columns: Seq<Seq<char>>,
    key: Seq<char>,
) -> bool {
    &&& refers(before.acc, name, key)
    &&& exists|other: Seq<char>| #[trigger] refers(before.acc, name, other) && other != key
    &&& skips_here(before, projection, name) || (aliased_column(before.exprs, projection) matches
        Some(pair) && pair.1 != name && reads_only(before.exprs, before.acc[key], columns))
}

/// Whether `node` is a predicate that was accumulated and reads a column that a projection, which
/// modifies columns, reads too.
pub open spec fn modified(
    before: Pushdown,
    projection: Node,
    name: Seq<char>,
    exprs: Seq<AExpr>,
    node: Node,
) -> bool {
    &&& modifies_columns(before.exprs, projection)
    &&& !skips_here(before, projection, name)
    &&& exists|key: Seq<char>| #[trigger]
        before.acc.contains_key(key) && before.acc[key] == node
    &&& exists|column: Seq<char>| #[trigger]
        leaf_names(exprs, node).contains(column) && leaf_names(before.exprs, projection).contains(
            column,
        )
}

/// What becomes of the predicates at a projection: those that go on are the same or renamed, and
/// read the output column only if it is the column of the input with this name, or if they are
/// left; those that become local ones refer to the output column, or to a column that the
/// projection modifies.
#[verifier::rlimit(30)]
pub proof fn lemma_step_origin(
    before: Pushdown,
    projection: Node,
    name: Seq<char>,
    columns: Seq<Seq<char>>,
    after: Pushdown,
)
    requires
        before.valid(),
        in_arena(before.exprs, projection),
        gives(before.exprs, projection, name),
        projection_step(before, projection, name, columns, after),
        after.exprs.len() <= usize::MAX,
        keys_fit(before.exprs, before.acc),
        plain(name),
        keeps_values(before.exprs, projection) ==> all_plain(leaf_names(before.exprs, projection)),
    ensures
        forall|key: Seq<char>| #[trigger]
            after.acc.contains_key(key) ==> came_down(
                before,
                projection,
                name,
                after.exprs,
                key,
                after.acc[key],
            ),
        forall|i: int|
            before.local.len() <= i < after.local.len() ==> {
                ||| referred(before, name, #[trigger] after.local[i])
                ||| reads_kept(before, projection, name, after.exprs, after.local[i])
                ||| modified(before, projection, name, after.exprs, after.local[i])
            },
        forall|key: Seq<char>| #[trigger]
            after.acc.contains_key(key) && leaf_names(after.exprs, after.acc[key]).contains(name)
                ==> aliased_column(before.exprs, projection) == Some((name, name)) || may_be_left(
                before,
                projection,
                name,
                columns,
                key,
            ),
{
    let allows = keeps_values(before.exprs, projection);
    let leaves = leaf_names(before.exprs, projection);
    let (middle, skip) = lemma_split_step(before, projection, name, columns, after);
    law_projection_step_valid(before, projection, name, columns, after);
    assert(middle.exprs == after.exprs);
    lemma_alias_origin(before, projection, name, middle, skip);
    law_renamable_is_column(before.exprs, projection);
    lemma_leaf_names_stay(before.exprs, after.exprs, projection);
    let exprs = middle.exprs;
    if skip {
        assert forall|key: Seq<char>| #[trigger]
            after.acc.contains_key(key) && leaf_names(exprs, after.acc[key]).contains(
                name,
            ) implies may_be_left(before, projection, name, columns, key) by {
            assert(middle.acc.contains_key(key));
        }
    } else {
        let taken = stuck(exprs, middle.acc, name, allows, columns);
        let later = lemma_split_output_step(middle, projection, name, allows, columns, after);
        lemma_modifies_stays(before.exprs, exprs, projection);
        let keys = choose|keys: Seq<Seq<char>>| #[trigger]
            orders(keys, middle.acc.dom().intersect(taken)) && later.local == middle.local + under(
                middle.acc,
                keys,
            );
        assert forall|i: int| before.local.len() <= i < later.local.len() implies {
            ||| referred(before, name, #[trigger] later.local[i])
            ||| reads_kept(before, projection, name, exprs, later.local[i])
        } by {
            if i < middle.local.len() {
                assert(later.local[i] == middle.local[i]);
            } else {
                let key = keys[i - middle.local.len()];
                let node = later.local[i];
                assert(keys.contains(key));
                assert(middle.acc.contains_key(key) && taken.contains(key));
                assert(node == middle.acc[key]);
                assert(has_name(key, name));
                if before.acc.contains_key(key) && before.acc[key] == node {
                    assert(referred(before, name, node));
                } else if leaf_names(exprs, node).len() > 0 {
                    law_fitting_key_tells_columns(exprs, middle.acc, key, name);
                }
            }
        }
        assert forall|i: int| before.local.len() <= i < after.local.len() implies {
            ||| referred(before, name, #[trigger] after.local[i])
            ||| reads_kept(before, projection, name, exprs, after.local[i])
            ||| modified(before, projection, name, exprs, after.local[i])
        } by {
            if modifies_columns(exprs, projection) {
                let set = reading(exprs, later.acc, leaf_names(exprs, projection));
                let more = choose|more: Seq<Seq<char>>| #[trigger]
                    orders(more, later.acc.dom().intersect(set)) && after.local == later.local
                        + under(later.acc, more);
                if i < later.local.len() {
                    assert(after.local[i] == later.local[i]);
                } else {
                    let key = more[i - later.local.len()];
                    let node = after.local[i];
                    assert(more.contains(key));
                    assert(later.acc.contains_key(key) && set.contains(key));
                    assert(middle.acc.contains_key(key));
                    assert(node == middle.acc[key]);
                    lemma_modifies_keeps_none(before.exprs, projection);
                    assert(came_down(before, projection, name, exprs, key, node));
                    assert(before.acc.contains_key(key) && before.acc[key] == node);
                    let j = choose|j: int|
                        0 <= j < leaf_names(exprs, later.acc[key]).len() && leaf_names(
                            exprs,
                            projection,
                        ).contains(#[trigger] leaf_names(exprs, later.acc[key])[j]);
                    let column = leaf_names(exprs, node)[j];
                    assert(leaf_names(exprs, node).contains(column));
                    assert(modified(before, projection, name, exprs, node));
                }
            } else {
                assert(after.local[i] == later.local[i]);
            }
        }
        assert forall|key: Seq<char>| #[trigger] after.acc.contains_key(key) implies came_down(
            before,
            projection,
            name,
            exprs,
            key,
            after.acc[key],
        ) && (leaf_names(exprs, after.acc[key]).contains(name) ==> aliased_column(
            before.exprs,
            projection,
        ) == Some((name, name)) || may_be_left(before, projection, name, columns, key)) by {
            law_step_leaves_what_can_go_on(middle, projection, name, allows, columns, after, key);
            assert(middle.acc.contains_key(key));
            if leaf_names(exprs, after.acc[key]).contains(name) {
                law_fitting_key_tells_columns(exprs, middle.acc, key, name);
                assert(allows && reads_only(exprs, after.acc[key], columns));
                if aliased_column(before.exprs, projection) != Some((name, name)) {
                    assert(at(before.exprs, projection) is Alias);
                    lemma_leaf_names_stay(before.exprs, exprs, before.acc[key]);
                }
            }
        }
    }
}

/// If a predicate makes way for another one under the same key, that one has been renamed, and the
/// first reads nothing but the column that it has been renamed to.
pub proof fn lemma_replaced(
    before: Pushdown,
    projection: Node,
    name: Seq<char>,
    columns: Seq<Seq<char>>,
    after: Pushdown,
    key: Seq<char>,
) -> (column: Seq<char>)
    requires
        before.valid(),
        in_arena(before.exprs, projection),
        gives(before.exprs, projection, name),
        projection_step(before, projection, name, columns, after),
        after.exprs.len() <= usize::MAX,
        keys_fit(before.exprs, before.acc),
        keys_fit(after.exprs, after.acc),
        plain(name),
        keeps_values(before.exprs, projection) ==> all_plain(leaf_names(before.exprs, projection)),
        before.acc.contains_key(key),
        after.acc.contains_key(key),
        before.acc[key] != after.acc[key],
    ensures
        renames_here(before, projection, name, column),
        reads_just(before.exprs, before.acc[key], column),
{
    let existing = before.acc[key];
    let node = after.acc[key];
    law_projection_step_valid(before, projection, name, columns, after);
    lemma_step_origin(before, projection, name, columns, after);
    assert(came_down(before, projection, name, after.exprs, key, node));
    let column = choose|column: Seq<char>| #[trigger]
        is_renamed_here(before, projection, name, column, after.exprs, key, node);
    lemma_leaf_names_stay(before.exprs, after.exprs, existing);
    if key == name {
        law_name_as_key(after.exprs, after.acc, name, name);
        assert(column == name);
    }
    assert forall|c: Seq<char>| #[trigger]
        leaf_names(before.exprs, existing).contains(c) implies c == column by {
        if key == name {
            law_name_as_key(before.exprs, before.acc, name, c);
        } else {
            assert(at(after.exprs, node).inputs()[0] == existing);
            lemma_column_of_operand(after.exprs, node, 0, c);
        }
    }
    column
}

/// Whether a projection modifies columns stays the same as the arena grows.
pub proof fn lemma_modifies_stays(before: Seq<AExpr>, after: Seq<AExpr>, projection: Node)
    requires
        well_formed(before),
        well_formed(after),
        grows(before, after),
        in_arena(before, projection),
    ensures
        modifies_columns(after, projection) == modifies_columns(before, projection),
{
    lemma_meets_stays(
        before,
        after,
        Walk::Whole,
        projection,
        |expr: AExpr| is_column_modification(expr),
    );
}

/// What modifies columns does not keep their values.
proof fn lemma_modifies_keeps_none(exprs: Seq<AExpr>, projection: Node)
    requires
        modifies_columns(exprs, projection),
    ensures
        !keeps_values(exprs, projection),
{
    let n = choose|n: Node| #[trigger]
        subtree(exprs, Walk::Whole, projection).contains(n) && is_column_modification(at(exprs, n));
    let other = |expr: AExpr| !is_column_or_alias(expr);
    assert(other(at(exprs, n)));
}

} // verus!
