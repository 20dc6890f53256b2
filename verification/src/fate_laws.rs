//! What becomes of each predicate: which ones are taken out, which ones are renamed, and which ones
//! go on below a projection.

use std::sync::Arc;
use vstd::prelude::*;

use crate::aexpr::{AExpr, Operator};
use crate::arena::{at, in_arena, Node};
use crate::boundary::keeps_values;
use crate::keys::{has_name, predicate_key};
use crate::laws::{law_projection_step_valid, law_step_leaves_what_can_go_on};
use crate::origins::lemma_modifies_stays;
use crate::projection::{
    alias_step, goes_on_renamed, is_trace, lemma_split_alias_step, lemma_split_output_step,
    lemma_split_step, modifies_columns, projection_step, stuck, Pushdown,
};
use crate::rename::{fresh, renamed_copy};
use crate::transfer::{
    answers_for, moves, one_moves, orders, picks, reading, says, says_yes, under,
};
use crate::traversal::{
    grows, leaf_names, lemma_leaf_names_stay, subtree, well_formed, Walk,
};
use crate::walk_laws::{law_modifies_wherever_it_is, law_reading, law_reads_only};

verus! {

/// Whether `node` is the predicate under one of `keys`.
pub open spec fn is_under(acc: Map<Seq<char>, Node>, keys: Set<Seq<char>>, node: Node) -> bool {
    exists|key: Seq<char>| #[trigger]
        acc.contains_key(key) && keys.contains(key) && acc[key] == node
}

/// What is moved: the predicates under the keys that are taken leave the accumulated ones and come
/// behind the local ones, each once; all others stay where they are.
pub proof fn law_moved_exactly(
    acc: Map<Seq<char>, Node>,
    local: Seq<Node>,
    taken: Set<Seq<char>>,
    acc_after: Map<Seq<char>, Node>,
    local_after: Seq<Node>,
)
    requires
        moves(acc, local, taken, acc_after, local_after),
    ensures
        local.is_prefix_of(local_after),
        acc.dom().intersect(taken).finite(),
        local_after.len() == local.len() + acc.dom().intersect(taken).len(),
        forall|key: Seq<char>| #[trigger]
            acc_after.contains_key(key) <==> acc.contains_key(key) && !taken.contains(key),
        forall|key: Seq<char>| #[trigger]
            acc_after.contains_key(key) ==> acc_after[key] == acc[key],
        forall|key: Seq<char>| #[trigger]
            acc.contains_key(key) && taken.contains(key) ==> exists|i: int|
                local.len() <= i < local_after.len() && #[trigger] local_after[i] == acc[key],
        forall|i: int|
            local.len() <= i < local_after.len() ==> is_under(acc, taken, #[trigger] local_after[i]),
{
    let keys = choose|keys: Seq<Seq<char>>| #[trigger]
        orders(keys, acc.dom().intersect(taken)) && local_after == local + under(acc, keys);
    let moved = under(acc, keys);
    assert(local =~= local_after.take(local.len() as int));
    assert(keys.to_set() =~= acc.dom().intersect(taken)) by {
        assert forall|key: Seq<char>| keys.to_set().contains(key) == acc.dom().intersect(
            taken,
        ).contains(key) by {
            assert(keys.contains(key) <==> acc.dom().intersect(taken).contains(key));
        }
    }
    keys.unique_seq_to_set();
    assert forall|key: Seq<char>| #[trigger]
        acc.contains_key(key) && taken.contains(key) implies exists|i: int|
        local.len() <= i < local_after.len() && #[trigger] local_after[i] == acc[key] by {
        assert(keys.contains(key));
        let j = choose|j: int| 0 <= j < keys.len() && keys[j] == key;
        assert(local_after[local.len() + j] == moved[j]);
    }
    assert forall|i: int| local.len() <= i < local_after.len() implies is_under(
        acc,
        taken,
        #[trigger] local_after[i],
    ) by {
        let key = keys[i - local.len()];
        assert(keys.contains(key));
        assert(acc.contains_key(key) && taken.contains(key) && acc[key] == local_after[i]);
    }
}

/// What is moved if one predicate that has a name in its key is to leave: exactly one that has it,
/// if there is any; else none.
pub proof fn law_one_moved_exactly(
    acc: Map<Seq<char>, Node>,
    local: Seq<Node>,
    name: Seq<char>,
    acc_after: Map<Seq<char>, Node>,
    local_after: Seq<Node>,
)
    requires
        one_moves(acc, local, name, acc_after, local_after),
    ensures
        (forall|key: Seq<char>| #[trigger] acc.contains_key(key) ==> !has_name(key, name))
            ==> acc_after == acc && local_after == local,
        forall|key: Seq<char>| #[trigger]
            acc.contains_key(key) && has_name(key, name) ==> {
                &&& local_after.len() == local.len() + 1
                &&& exists|gone: Seq<char>|
                    {
                        &&& #[trigger] acc.contains_key(gone)
                        &&& has_name(gone, name)
                        &&& local_after == local.push(acc[gone])
                        &&& acc_after == acc.remove(gone)
                    }
            },
        local.is_prefix_of(local_after),
{
    assert(local =~= local_after.take(local.len() as int));
}

/// Which predicates a condition picks that always says the same of a name: those that read a column
/// of which it says yes.
pub proof fn law_picked_exactly<F: FnMut(Arc<str>) -> bool>(
    exprs: Seq<AExpr>,
    acc: Map<Seq<char>, Node>,
    condition: F,
    taken: Set<Seq<char>>,
    wanted: spec_fn(Seq<char>) -> bool,
    key: Seq<char>,
)
    requires
        picks(exprs, acc, condition, taken),
        forall|name: Arc<str>, answer: bool| #[trigger]
            call_ensures(condition, (name,), answer) ==> answer == wanted(name@),
        acc.contains_key(key),
    ensures
        taken.contains(key) <==> exists|column: Seq<char>| #[trigger]
            leaf_names(exprs, acc[key]).contains(column) && wanted(column),
{
    let names = leaf_names(exprs, acc[key]);
    assert(says_yes(condition, names, taken.contains(key)));
    let answers = choose|answers: Seq<bool>| #[trigger]
        answers_for(condition, names, answers) && taken.contains(key) == answers.contains(true);
    assert forall|i: int| 0 <= i < names.len() implies answers[i] == wanted(
        #[trigger] names[i],
    ) by {
        assert(says(condition, names[i], answers[i]));
    }
    if taken.contains(key) {
        let i = choose|i: int| 0 <= i < answers.len() && answers[i];
        assert(names.contains(names[i]));
        assert(wanted(names[i]));
    }
    if exists|column: Seq<char>| #[trigger] names.contains(column) && wanted(column) {
        let column = choose|column: Seq<char>| #[trigger] names.contains(column) && wanted(column);
        let i = choose|i: int| 0 <= i < names.len() && names[i] == column;
        assert(answers[i] == wanted(names[i]));
        assert(answers.contains(true));
    }
}

/// A state is valid exactly if its expressions are well formed and hold all predicates.
pub proof fn law_valid_exactly(state: Pushdown)
    ensures
        state.valid() <==> {
            &&& well_formed(state.exprs)
            &&& forall|key: Seq<char>| #[trigger]
                state.acc.contains_key(key) ==> state.acc[key].0 < state.exprs.len()
            &&& forall|i: int|
                0 <= i < state.local.len() ==> (#[trigger] state.local[i]).0 < state.exprs.len()
        },
{
    if state.valid() {
        assert forall|i: int| 0 <= i < state.local.len() implies (#[trigger] state.local[i]).0
            < state.exprs.len() by {
            assert(in_arena(state.exprs, state.local[i]));
        }
    }
}

/// Nothing happens at a projection that is no alias, or that reads no column, before its output is
/// looked at. The loop goes on at once exactly if there is a predicate on the alias alone that
/// cannot be renamed.
pub proof fn law_alias_or_not(
    before: Pushdown,
    projection: Node,
    allows: bool,
    after: Pushdown,
    skip: bool,
)
    requires
        alias_step(before, projection, allows, after, skip),
    ensures
        !(at(before.exprs, projection) is Alias) || leaf_names(before.exprs, projection).len() == 0
            ==> after == before,
        skip <==> (at(before.exprs, projection) matches AExpr::Alias(_, alias) && leaf_names(
            before.exprs,
            projection,
        ).len() > 0 && before.acc.contains_key(alias@) && !allows),
{
}

/// At an alias at which nothing is renamed the arena stays as it is. The predicate on the alias
/// alone, if there is one, becomes a local one first, and after it one other that refers to the
/// alias, if there is any. All others stay.
pub proof fn law_alias_keeps_back(
    before: Pushdown,
    projection: Node,
    alias: Arc<str>,
    allows: bool,
    after: Pushdown,
    skip: bool,
)
    requires
        alias_step(before, projection, allows, after, skip),
        at(before.exprs, projection) matches AExpr::Alias(_, name) && name == alias,
        leaf_names(before.exprs, projection).len() > 0,
        !before.acc.contains_key(alias@) || !allows || leaf_names(before.exprs, projection).len()
            != 1,
    ensures
        after.exprs == before.exprs,
        ({
            let local = if before.acc.contains_key(alias@) {
                before.local.push(before.acc[alias@])
            } else {
                before.local
            };
            let rest = before.acc.remove(alias@);
            if exists|key: Seq<char>| #[trigger]
                before.acc.contains_key(key) && key != alias@ && has_name(key, alias@) {
                exists|gone: Seq<char>|
                    {
                        &&& #[trigger] before.acc.contains_key(gone)
                        &&& gone != alias@
                        &&& has_name(gone, alias@)
                        &&& after.acc == rest.remove(gone)
                        &&& after.local == local.push(before.acc[gone])
                    }
            } else {
                after.acc == rest && after.local == local
            }
        }),
{
    let taken = lemma_split_alias_step(before, projection, alias@, allows, after, skip);
    let rest = before.acc.remove(alias@);
    if !before.acc.contains_key(alias@) {
        assert(rest =~= before.acc);
    }
    assert(taken.acc == rest);
    if exists|key: Seq<char>| #[trigger]
        before.acc.contains_key(key) && key != alias@ && has_name(key, alias@) {
        let key = choose|key: Seq<char>| #[trigger]
            before.acc.contains_key(key) && key != alias@ && has_name(key, alias@);
        assert(taken.acc.contains_key(key));
        let gone = choose|gone: Seq<char>| #[trigger]
            taken.acc.contains_key(gone) && has_name(gone, alias@) && after.acc
                == taken.acc.remove(gone) && after.local == taken.local.push(taken.acc[gone]);
        assert(before.acc.contains_key(gone));
    } else {
        assert forall|key: Seq<char>| #[trigger] taken.acc.contains_key(key) implies !has_name(
            key,
            alias@,
        ) by {
            assert(before.acc.contains_key(key));
        }
    }
}

/// The predicates `rest` and `copy`, which stands under its own key; if there is one under this key,
/// their conjunction, which stands behind `copied`, takes its place.
pub open spec fn with_copy(
    rest: Map<Seq<char>, Node>,
    copied: Seq<AExpr>,
    copy: Node,
) -> Map<Seq<char>, Node> {
    if rest.contains_key(predicate_key(copied, copy)) {
        rest.insert(predicate_key(copied, copy), Node(copied.len() as usize))
    } else {
        rest.insert(predicate_key(copied, copy), copy)
    }
}

/// Whether `after` is what becomes of `before` when the predicate under `alias` makes way for `copy`,
/// which reads `column` in place of the alias and of which all is new, and one predicate that then
/// refers to the alias becomes a local one. `copied` are the expressions once the copy is there.
pub open spec fn is_renaming_of(
    before: Pushdown,
    alias: Seq<char>,
    column: Seq<char>,
    copied: Seq<AExpr>,
    copy: Node,
    after: Pushdown,
) -> bool {
    let predicate = before.acc[alias];
    let rest = before.acc.remove(alias);
    let key = predicate_key(copied, copy);
    let combined = rest.contains_key(key);
    let acc = with_copy(rest, copied, copy);
    &&& grows(before.exprs, copied)
    &&& copied.len() == before.exprs.len() + subtree(before.exprs, Walk::Whole, predicate).len()
    &&& copy.0 < copied.len()
    &&& fresh(copied, copy, before.exprs.len())
    &&& renamed_copy(copied, predicate, copy, column)
    &&& !combined ==> after.exprs == copied
    &&& combined ==> after.exprs == copied.push(
        AExpr::BinaryExpr { left: copy, op: Operator::And, right: rest[key] },
    )
    &&& (forall|k: Seq<char>| #[trigger] acc.contains_key(k) ==> !has_name(k, alias)) ==> after.acc
        == acc && after.local == before.local
    &&& forall|k: Seq<char>| #[trigger]
        acc.contains_key(k) && has_name(k, alias) ==> is_without_one(
            acc,
            before.local,
            alias,
            after.acc,
            after.local,
        )
}

/// Whether one predicate that has the name `name` in its key has left `acc` and come behind `local`.
pub open spec fn is_without_one(
    acc: Map<Seq<char>, Node>,
    local: Seq<Node>,
    name: Seq<char>,
    acc_after: Map<Seq<char>, Node>,
    local_after: Seq<Node>,
) -> bool {
    exists|gone: Seq<char>| #[trigger]
        acc.contains_key(gone) && has_name(gone, name) && acc_after == acc.remove(gone)
            && local_after == local.push(acc[gone])
}

/// At an alias of one column, if renaming is allowed, the predicate on the alias alone makes way for
/// a copy that reads the column in its place, of which all is new. The copy stands under its own
/// key, in conjunction with the predicate that was there if there was one. After it one predicate
/// that refers to the alias becomes a local one, if there is any. All others stay.
pub proof fn law_alias_renames(
    before: Pushdown,
    projection: Node,
    alias: Arc<str>,
    after: Pushdown,
    skip: bool,
)
    requires
        alias_step(before, projection, true, after, skip),
        at(before.exprs, projection) matches AExpr::Alias(_, name) && name == alias,
        leaf_names(before.exprs, projection).len() == 1,
        before.acc.contains_key(alias@),
        after.exprs.len() <= usize::MAX,
    ensures
        exists|copied: Seq<AExpr>, copy: Node| #[trigger]
            is_renaming_of(
                before,
                alias@,
                leaf_names(before.exprs, projection)[0],
                copied,
                copy,
                after,
            ),
{
    let column = leaf_names(before.exprs, projection)[0];
    let predicate = before.acc[alias@];
    let rest = before.acc.remove(alias@);
    let taken = lemma_split_alias_step(before, projection, alias@, true, after, skip);
    let (copied, copy) = choose|copied: Seq<AExpr>, copy: Node| #[trigger]
        goes_on_renamed(before, alias@, predicate, column, copied, copy, taken);
    let acc = with_copy(rest, copied, copy);
    assert(taken.acc == acc);
    assert(taken.local == before.local);
    law_one_moved_exactly(acc, before.local, alias@, after.acc, after.local);
    assert forall|k: Seq<char>| #[trigger]
        acc.contains_key(k) && has_name(k, alias@) implies is_without_one(
        acc,
        before.local,
        alias@,
        after.acc,
        after.local,
    ) by {
        let gone = choose|gone: Seq<char>|
            {
                &&& #[trigger] acc.contains_key(gone)
                &&& has_name(gone, alias@)
                &&& after.local == before.local.push(acc[gone])
                &&& after.acc == acc.remove(gone)
            };
        assert(acc.contains_key(gone));
    }
    assert(is_renaming_of(before, alias@, column, copied, copy, after));
}

/// No predicate goes below a projection, that is not done with at its alias, and reads a column that
/// the projection explodes, or chooses the values of, however deep in it: under an alias as well.
pub proof fn law_nothing_goes_below_modified_columns(
    before: Pushdown,
    projection: Node,
    output_name: Seq<char>,
    columns: Seq<Seq<char>>,
    after: Pushdown,
    n: Node,
    key: Seq<char>,
    column: Seq<char>,
)
    requires
        before.valid(),
        in_arena(before.exprs, projection),
        projection_step(before, projection, output_name, columns, after),
        !(at(before.exprs, projection) matches AExpr::Alias(_, alias) && leaf_names(
            before.exprs,
            projection,
        ).len() > 0 && before.acc.contains_key(alias@) && !keeps_values(before.exprs, projection)),
        subtree(before.exprs, Walk::Whole, projection).contains(n),
        at(before.exprs, n) is Explode || at(before.exprs, n) is Ternary,
        after.acc.contains_key(key),
        leaf_names(after.exprs, after.acc[key]).contains(column),
    ensures
        !leaf_names(before.exprs, projection).contains(column),
{
    law_projection_step_valid(before, projection, output_name, columns, after);
    let allows = keeps_values(before.exprs, projection);
    let (middle, skip) = lemma_split_step(before, projection, output_name, columns, after);
    law_alias_or_not(before, projection, allows, middle, skip);
    assert(!skip);
    assert(middle.exprs == after.exprs);
    lemma_modifies_stays(before.exprs, after.exprs, projection);
    lemma_leaf_names_stay(before.exprs, after.exprs, projection);
    law_modifies_wherever_it_is(before.exprs, projection);
    law_step_leaves_what_can_go_on(
        middle,
        projection,
        output_name,
        allows,
        columns,
        after,
        key,
    );
    let read = leaf_names(after.exprs, after.acc[key]);
    let i = choose|i: int| 0 <= i < read.len() && read[i] == column;
    assert(!leaf_names(after.exprs, projection).contains(
        leaf_names(after.exprs, after.acc[key])[i],
    ));
}

/// A predicate that refers to the output column of a projection, that is not done with at its alias,
/// goes below it only if the projection is a column under whatever name, and the input has every
/// column that the predicate reads.
pub proof fn law_what_goes_below_its_output(
    before: Pushdown,
    projection: Node,
    output_name: Seq<char>,
    columns: Seq<Seq<char>>,
    after: Pushdown,
    key: Seq<char>,
    column: Seq<char>,
)
    requires
        before.valid(),
        in_arena(before.exprs, projection),
        projection_step(before, projection, output_name, columns, after),
        !(at(before.exprs, projection) matches AExpr::Alias(_, alias) && leaf_names(
            before.exprs,
            projection,
        ).len() > 0 && before.acc.contains_key(alias@) && !keeps_values(before.exprs, projection)),
        after.acc.contains_key(key),
        has_name(key, output_name),
    ensures
        keeps_values(before.exprs, projection),
        leaf_names(after.exprs, after.acc[key]).contains(column) ==> columns.contains(column),
{
    let allows = keeps_values(before.exprs, projection);
    let (middle, skip) = lemma_split_step(before, projection, output_name, columns, after);
    law_alias_or_not(before, projection, allows, middle, skip);
    assert(middle.exprs == after.exprs);
    law_step_leaves_what_can_go_on(
        middle,
        projection,
        output_name,
        allows,
        columns,
        after,
        key,
    );
    law_reads_only(after.exprs, after.acc[key], columns);
}

/// At a projection that is no alias of a column, and no alias on which there is a predicate alone,
/// exactly those predicates go on, under their keys and as they are, that have nothing to do with
/// it: they do not refer to its output column, unless the projection is a column and the input has
/// all that they read; and if it explodes or chooses values anywhere, they share no column with it.
/// All others become local ones. (At an alias one of those that refer to it is taken before.)
pub proof fn law_step_past_output(
    before: Pushdown,
    projection: Node,
    output_name: Seq<char>,
    columns: Seq<Seq<char>>,
    after: Pushdown,
    key: Seq<char>,
)
    requires
        before.valid(),
        in_arena(before.exprs, projection),
        projection_step(before, projection, output_name, columns, after),
        at(before.exprs, projection) matches AExpr::Alias(_, alias) ==> leaf_names(
            before.exprs,
            projection,
        ).len() == 0 || forall|k: Seq<char>| #[trigger]
            before.acc.contains_key(k) ==> !has_name(k, alias@),
        before.acc.contains_key(key),
    ensures
        after.exprs == before.exprs,
        before.local.is_prefix_of(after.local),
        after.acc.contains_key(key) <==> {
            &&& has_name(key, output_name) ==> keeps_values(before.exprs, projection)
                && forall|column: Seq<char>| #[trigger]
                leaf_names(before.exprs, before.acc[key]).contains(column) ==> columns.contains(
                    column,
                )
            &&& (exists|n: Node| #[trigger]
                subtree(before.exprs, Walk::Whole, projection).contains(n) && (at(before.exprs, n)
                    is Explode || at(before.exprs, n) is Ternary)) ==> forall|column: Seq<char>|
                #[trigger]
                leaf_names(before.exprs, projection).contains(column) ==> !leaf_names(
                    before.exprs,
                    before.acc[key],
                ).contains(column)
        },
        after.acc.contains_key(key) ==> after.acc[key] == before.acc[key],
        !after.acc.contains_key(key) ==> exists|i: int|
            before.local.len() <= i < after.local.len() && #[trigger] after.local[i]
                == before.acc[key],
        forall|k: Seq<char>| #[trigger] after.acc.contains_key(k) ==> before.acc.contains_key(k),
        forall|i: int|
            before.local.len() <= i < after.local.len() ==> is_under(
                before.acc,
                after.acc.dom().complement(),
                #[trigger] after.local[i],
            ),
{
    let exprs = before.exprs;
    let allows = keeps_values(exprs, projection);
    let (middle, skip) = lemma_split_step(before, projection, output_name, columns, after);
    law_alias_or_not(before, projection, allows, middle, skip);
    assert(middle.exprs == exprs && middle.acc =~= before.acc && middle.local =~= before.local
        && !skip) by {
        if at(exprs, projection) is Alias && leaf_names(exprs, projection).len() > 0 {
            let alias = match at(exprs, projection) {
                AExpr::Alias(_, alias) => alias,
                _ => arbitrary(),
            };
            if before.acc.contains_key(alias@) {
                assert(has_name(alias@, alias@));
            }
            law_alias_keeps_back(before, projection, alias, allows, middle, skip);
            assert(before.acc.remove(alias@) =~= before.acc);
        }
    }
    let later = lemma_split_output_step(middle, projection, output_name, allows, columns, after);
    let taken = stuck(exprs, before.acc, output_name, allows, columns);
    law_moved_exactly(before.acc, before.local, taken, later.acc, later.local);
    law_modifies_wherever_it_is(exprs, projection);
    law_reads_only(exprs, before.acc[key], columns);
    if modifies_columns(exprs, projection) {
        let names = leaf_names(exprs, projection);
        let read = reading(exprs, later.acc, names);
        law_moved_exactly(later.acc, later.local, read, after.acc, after.local);
        law_reading(exprs, later.acc, names, key);
        assert(before.local =~= after.local.take(before.local.len() as int)) by {
            assert(later.local =~= after.local.take(later.local.len() as int));
            assert(before.local =~= later.local.take(before.local.len() as int));
        }
        assert forall|i: int|
            before.local.len() <= i < after.local.len() implies is_under(
            before.acc,
            after.acc.dom().complement(),
            #[trigger] after.local[i],
        ) by {
            if i < later.local.len() {
                assert(after.local[i] == later.local[i]);
                assert(is_under(before.acc, taken, later.local[i]));
                let k = choose|k: Seq<char>| #[trigger]
                    before.acc.contains_key(k) && taken.contains(k) && before.acc[k]
                        == later.local[i];
                assert(!later.acc.contains_key(k));
                assert(before.acc.contains_key(k) && !after.acc.contains_key(k));
            } else {
                assert(is_under(later.acc, read, after.local[i]));
                let k = choose|k: Seq<char>| #[trigger]
                    later.acc.contains_key(k) && read.contains(k) && later.acc[k]
                        == after.local[i];
                assert(before.acc.contains_key(k) && !after.acc.contains_key(k));
            }
        }
        if !after.acc.contains_key(key) {
            if later.acc.contains_key(key) {
                let i = choose|i: int|
                    later.local.len() <= i < after.local.len() && #[trigger] after.local[i]
                        == later.acc[key];
                assert(after.local[i] == before.acc[key]);
            } else {
                let i = choose|i: int|
                    before.local.len() <= i < later.local.len() && #[trigger] later.local[i]
                        == before.acc[key];
                assert(after.local[i] == later.local[i]);
            }
        }
    } else {
        assert forall|i: int|
            before.local.len() <= i < after.local.len() implies is_under(
            before.acc,
            after.acc.dom().complement(),
            #[trigger] after.local[i],
        ) by {
            assert(is_under(before.acc, taken, later.local[i]));
            let k = choose|k: Seq<char>| #[trigger]
                before.acc.contains_key(k) && taken.contains(k) && before.acc[k] == later.local[i];
            assert(before.acc.contains_key(k) && !after.acc.contains_key(k));
        }
    }
}

/// A step past a projection first deals with its alias, if it is one. If the projection is not done
/// with by then, what is left goes on exactly if it can be seen from the projection that it may; the
/// rest becomes local.
pub proof fn law_step_past_alias_and_output(
    before: Pushdown,
    projection: Node,
    output_name: Seq<char>,
    columns: Seq<Seq<char>>,
    after: Pushdown,
)
    requires
        before.valid(),
        in_arena(before.exprs, projection),
        projection_step(before, projection, output_name, columns, after),
    ensures
        exists|middle: Pushdown, skip: bool|
            {
                &&& #[trigger] alias_step(
                    before,
                    projection,
                    keeps_values(before.exprs, projection),
                    middle,
                    skip,
                )
                &&& skip ==> after == middle
                &&& after.exprs == middle.exprs
                &&& middle.local.is_prefix_of(after.local)
                &&& !skip ==> forall|key: Seq<char>| #[trigger]
                    after.acc.contains_key(key) <==> {
                        &&& middle.acc.contains_key(key)
                        &&& has_name(key, output_name) ==> keeps_values(before.exprs, projection)
                            && forall|column: Seq<char>| #[trigger]
                            leaf_names(middle.exprs, middle.acc[key]).contains(column)
                                ==> columns.contains(column)
                        &&& (exists|n: Node| #[trigger]
                            subtree(middle.exprs, Walk::Whole, projection).contains(n) && (at(
                                middle.exprs,
                                n,
                            ) is Explode || at(middle.exprs, n) is Ternary)) ==> forall|
                            column: Seq<char>,
                        | #[trigger]
                            leaf_names(middle.exprs, projection).contains(column) ==> !leaf_names(
                                middle.exprs,
                                middle.acc[key],
                            ).contains(column)
                    }
                &&& forall|key: Seq<char>| #[trigger]
                    after.acc.contains_key(key) ==> middle.acc.contains_key(key) && after.acc[key]
                        == middle.acc[key]
                &&& forall|key: Seq<char>| #[trigger]
                    middle.acc.contains_key(key) && !after.acc.contains_key(key) ==> exists|i: int|
                        middle.local.len() <= i < after.local.len() && #[trigger] after.local[i]
                            == middle.acc[key]
            },
{
    let allows = keeps_values(before.exprs, projection);
    let (middle, skip) = lemma_split_step(before, projection, output_name, columns, after);
    let exprs = middle.exprs;
    assert(alias_step(before, projection, allows, middle, skip));
    if skip {
        assert(middle.local =~= after.local.take(middle.local.len() as int));
    } else {
        let later = lemma_split_output_step(
            middle,
            projection,
            output_name,
            allows,
            columns,
            after,
        );
        let taken = stuck(exprs, middle.acc, output_name, allows, columns);
        let names = leaf_names(exprs, projection);
        let read = reading(exprs, later.acc, names);
        law_moved_exactly(middle.acc, middle.local, taken, later.acc, later.local);
        law_modifies_wherever_it_is(exprs, projection);
        if modifies_columns(exprs, projection) {
            law_moved_exactly(later.acc, later.local, read, after.acc, after.local);
        }
        assert(middle.local =~= after.local.take(middle.local.len() as int)) by {
            assert(later.local =~= after.local.take(later.local.len() as int));
            assert(middle.local =~= later.local.take(middle.local.len() as int));
        }
        assert forall|key: Seq<char>| #[trigger] after.acc.contains_key(key) <==> {
            &&& middle.acc.contains_key(key)
            &&& has_name(key, output_name) ==> allows && forall|column: Seq<char>| #[trigger]
                leaf_names(exprs, middle.acc[key]).contains(column) ==> columns.contains(column)
            &&& (exists|n: Node| #[trigger]
                subtree(exprs, Walk::Whole, projection).contains(n) && (at(exprs, n) is Explode
                    || at(exprs, n) is Ternary)) ==> forall|column: Seq<char>| #[trigger]
                names.contains(column) ==> !leaf_names(exprs, middle.acc[key]).contains(column)
        } by {
            law_reads_only(exprs, middle.acc[key], columns);
            law_reading(exprs, later.acc, names, key);
            assert(later.acc.contains_key(key) <==> middle.acc.contains_key(key)
                && !taken.contains(key));
        }
        assert forall|key: Seq<char>| #[trigger]
            middle.acc.contains_key(key) && !after.acc.contains_key(key) implies exists|i: int|
            middle.local.len() <= i < after.local.len() && #[trigger] after.local[i]
                == middle.acc[key] by {
            if later.acc.contains_key(key) {
                assert(modifies_columns(exprs, projection));
                assert(read.contains(key));
                let i = choose|i: int|
                    later.local.len() <= i < after.local.len() && #[trigger] after.local[i]
                        == later.acc[key];
                assert(after.local[i] == middle.acc[key]);
            } else {
                assert(taken.contains(key));
                let i = choose|i: int|
                    middle.local.len() <= i < later.local.len() && #[trigger] later.local[i]
                        == middle.acc[key];
                assert(after.local[i] == later.local[i]);
            }
        }
    }
}

/// Predicates are pushed past every projection of a node, one after the other, in order.
pub proof fn law_every_projection_is_passed(
    trace: Seq<Pushdown>,
    projections: Seq<Node>,
    output_names: Seq<Seq<char>>,
    columns: Seq<Seq<char>>,
    i: int,
)
    requires
        is_trace(trace, projections, output_names, columns),
        0 <= i < projections.len(),
    ensures
        trace.len() == projections.len() + 1,
        projection_step(trace[i], projections[i], output_names[i], columns, trace[i + 1]),
{
}

} // verus!
