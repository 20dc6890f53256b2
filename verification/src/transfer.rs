//! Predicates taken out of the accumulated ones, to be applied where the walk is.

use std::sync::Arc;
use vstd::prelude::*;

use crate::aexpr::AExpr;
use crate::arena::{at, in_arena, Arena, Node};
use crate::collections::{lists, PlHashMap};
use crate::keys::{has_name, key_has_name};
use crate::names::{name_in, texts};
use crate::traversal::{
    aexpr_to_leaf_names, has_aexpr, leaf_names, subtree, well_formed, Walk,
};

verus! {

/// Whether all accumulated predicates are in the arena.
pub open spec fn acc_in_arena(exprs: Seq<AExpr>, acc: Map<Seq<char>, Node>) -> bool {
    forall|key: Seq<char>| #[trigger] acc.contains_key(key) ==> in_arena(exprs, acc[key])
}

/// Whether `keys` holds every key of `set` exactly once, in whatever order.
pub open spec fn orders(keys: Seq<Seq<char>>, set: Set<Seq<char>>) -> bool {
    &&& keys.no_duplicates()
    &&& forall|key: Seq<char>| #[trigger] keys.contains(key) <==> set.contains(key)
}

/// The predicates under `keys`.
pub open spec fn under(acc: Map<Seq<char>, Node>, keys: Seq<Seq<char>>) -> Seq<Node> {
    keys.map_values(|key: Seq<char>| acc[key])
}

/// Whether `acc` and `local` become `acc_after` and `local_after` when the predicates under the
/// keys `taken` are made local ones, in whatever order.
pub open spec fn moves(
    acc: Map<Seq<char>, Node>,
    local: Seq<Node>,
    taken: Set<Seq<char>>,
    acc_after: Map<Seq<char>, Node>,
    local_after: Seq<Node>,
) -> bool {
    &&& acc_after == acc.remove_keys(taken)
    &&& exists|keys: Seq<Seq<char>>| #[trigger]
        orders(keys, acc.dom().intersect(taken)) && local_after == local + under(acc, keys)
}

/// Makes the predicates under `keys` local ones, in this order.
pub(crate) fn take_out(
    acc_predicates: &mut PlHashMap<Arc<str>, Node>,
    keys: &Vec<Arc<str>>,
    local_predicates: &mut Vec<Node>,
)
    requires
        texts(keys@).no_duplicates(),
        forall|i: int|
            0 <= i < keys@.len() ==> old(acc_predicates)@.contains_key(#[trigger] texts(keys@)[i]),
    ensures
        final(acc_predicates)@ == old(acc_predicates)@.remove_keys(texts(keys@).to_set()),
        final(local_predicates)@ == old(local_predicates)@ + under(
            old(acc_predicates)@,
            texts(keys@),
        ),
{
    let ghost acc = acc_predicates@;
    let ghost local = local_predicates@;
    let ghost all = texts(keys@);
    let mut i: usize = 0;
    proof {
        assert(acc_predicates@ =~= acc.remove_keys(all.take(0).to_set()));
        assert(local_predicates@ =~= local + under(acc, all.take(0)));
    }
    while i < keys.len()
        invariant
            all == texts(keys@),
            all.no_duplicates(),
            forall|j: int| 0 <= j < keys@.len() ==> acc.contains_key(#[trigger] all[j]),
            i <= keys@.len(),
            acc_predicates@ == acc.remove_keys(all.take(i as int).to_set()),
            local_predicates@ == local + under(acc, all.take(i as int)),
        decreases keys@.len() - i,
    {
        let ghost key = all[i as int];
        let ghost some = all.take(i as int);
        let ghost more = all.take(i + 1);
        proof {
            assert(!some.to_set().contains(key)) by {
                if some.contains(key) {
                    let j = choose|j: int| 0 <= j < some.len() && some[j] == key;
                    assert(all[j] == all[i as int]);
                }
            }
            assert(acc_predicates@.contains_key(key));
        }
        if let Some(predicate) = acc_predicates.remove(&*keys[i]) {
            local_predicates.push(predicate);
        }
        proof {
            assert(more =~= some.push(key));
            assert forall|k: Seq<char>| more.to_set().contains(k) == (some.to_set().contains(k) || k
                == key) by {
                if some.contains(k) {
                    let j = choose|j: int| 0 <= j < some.len() && some[j] == k;
                    assert(more[j] == k);
                }
                assert(more[i as int] == key);
            }
            assert(acc_predicates@ =~= acc.remove_keys(more.to_set()));
            assert(under(acc, more) =~= under(acc, some).push(acc[key]));
            assert(local_predicates@ =~= local + under(acc, more));
        }
        i += 1;
    }
    assert(all.take(i as int) =~= all);
}

/// Predicates that are taken out under keys that are in order are moved.
pub proof fn lemma_moves(
    acc: Map<Seq<char>, Node>,
    local: Seq<Node>,
    keys: Seq<Seq<char>>,
    taken: Set<Seq<char>>,
)
    requires
        orders(keys, acc.dom().intersect(taken)),
    ensures
        moves(
            acc,
            local,
            taken,
            acc.remove_keys(keys.to_set()),
            local + under(acc, keys),
        ),
{
    assert(acc.remove_keys(keys.to_set()) =~= acc.remove_keys(taken)) by {
        assert forall|k: Seq<char>| acc.contains_key(k) implies keys.to_set().contains(k)
            == taken.contains(k) by {
            assert(keys.contains(k) == acc.dom().intersect(taken).contains(k));
        }
    }
}

/// Whether one predicate that refers to `alias_name`, as far as its key tells, has been made a
/// local one; none if there is none.
pub open spec fn one_moves(
    acc: Map<Seq<char>, Node>,
    local: Seq<Node>,
    alias_name: Seq<char>,
    acc_after: Map<Seq<char>, Node>,
    local_after: Seq<Node>,
) -> bool {
    if exists|key: Seq<char>| #[trigger] acc.contains_key(key) && has_name(key, alias_name) {
        exists|key: Seq<char>| #[trigger]
            acc.contains_key(key) && has_name(key, alias_name) && acc_after == acc.remove(key)
                && local_after == local.push(acc[key])
    } else {
        acc_after == acc && local_after == local
    }
}

/// The first of `entries` whose key has the name.
pub fn first_with_name(entries: &Vec<(Arc<str>, Node)>, name: &str) -> (found: Option<usize>)
    ensures
        match found {
            Some(i) => {
                &&& i < entries@.len()
                &&& has_name(entries@[i as int].0@, name@)
                &&& forall|j: int| 0 <= j < i ==> !has_name((#[trigger] entries@[j]).0@, name@)
            },
            None => forall|j: int|
                0 <= j < entries@.len() ==> !has_name((#[trigger] entries@[j]).0@, name@),
        },
{
    let mut i: usize = 0;
    while i < entries.len()
        invariant
            i <= entries@.len(),
            forall|j: int| 0 <= j < i ==> !has_name((#[trigger] entries@[j]).0@, name@),
        decreases entries@.len() - i,
    {
        if key_has_name(&*entries[i].0, name) {
            return Some(i);
        }
        i += 1;
    }
    None
}

/// We could not find the alias name. That could still mean that a predicate that is a complicated
/// binary expression refers to the aliased name. If we find it, we make it a local one. Where
/// there are several, it is the first that is met on a walk through the map.
pub fn remove_predicate_refers_to_alias(
    acc_predicates: &mut PlHashMap<Arc<str>, Node>,
    local_predicates: &mut Vec<Node>,
    alias_name: &str,
)
    ensures
        one_moves(
            old(acc_predicates)@,
            old(local_predicates)@,
            alias_name@,
            final(acc_predicates)@,
            final(local_predicates)@,
        ),
{
    let entries = acc_predicates.entries();
    match first_with_name(&entries, alias_name) {
        Some(i) => {
            let ghost key = entries@[i as int].0@;
            assert(acc_predicates@.contains_key(key));
            if let Some(predicate) = acc_predicates.remove(&*entries[i].0) {
                local_predicates.push(predicate);
            }
        },
        None => {
            proof {
                assert forall|key: Seq<char>| #[trigger]
                    acc_predicates@.contains_key(key) implies !has_name(key, alias_name@) by {
                    let j = choose|j: int|
                        0 <= j < entries@.len() && (#[trigger] entries@[j]).0@ == key;
                    assert(!has_name(entries@[j].0@, alias_name@));
                }
            }
        },
    }
}

/// Whether `condition` may say `answer` of a name that reads `text`.
pub open spec fn says<F: FnMut(Arc<str>) -> bool>(
    condition: F,
    text: Seq<char>,
    answer: bool,
) -> bool {
    exists|name: Arc<str>| name@ == text && #[trigger] call_ensures(condition, (name,), answer)
}

/// Whether `answers` are what `condition` may say of `names`, one answer for each of them.
pub open spec fn answers_for<F: FnMut(Arc<str>) -> bool>(
    condition: F,
    names: Seq<Seq<char>>,
    answers: Seq<bool>,
) -> bool {
    &&& answers.len() == names.len()
    &&& forall|i: int| 0 <= i < names.len() ==> says(condition, #[trigger] names[i], answers[i])
}

/// Whether `condition`, asked of each of `names`, may say yes of one of them, or no of all of them.
pub open spec fn says_yes<F: FnMut(Arc<str>) -> bool>(
    condition: F,
    names: Seq<Seq<char>>,
    found: bool,
) -> bool {
    exists|answers: Seq<bool>| #[trigger]
        answers_for(condition, names, answers) && found == answers.contains(true)
}

/// Whether `condition` says yes of one of `names`. It is asked of each of them, in order.
fn any_name<F: FnMut(Arc<str>) -> bool>(names: &Vec<Arc<str>>, condition: &mut F) -> (found: bool)
    requires
        forall|name: Arc<str>| call_requires(*old(condition), (name,)),
    ensures
        *final(condition) == *old(condition),
        says_yes(*old(condition), texts(names@), found),
{
    let mut found = false;
    let ghost mut answers: Seq<bool> = seq![];
    let mut i: usize = 0;
    while i < names.len()
        invariant
            *condition == *old(condition),
            forall|name: Arc<str>| call_requires(*condition, (name,)),
            i <= names@.len(),
            answers.len() == i,
            forall|j: int|
                0 <= j < i ==> says(*condition, #[trigger] texts(names@)[j], answers[j]),
            found == answers.contains(true),
        decreases names@.len() - i,
    {
        let name = names[i].clone();
        assert(texts(names@)[i as int] == names@[i as int]@);
        let answer = condition(name);
        assert(says(*condition, texts(names@)[i as int], answer));
        proof {
            let more = answers.push(answer);
            assert(more.contains(true) == (answers.contains(true) || answer)) by {
                if answers.contains(true) {
                    let j = choose|j: int| 0 <= j < answers.len() && answers[j];
                    assert(more[j]);
                }
                assert(more[i as int] == answer);
            }
            answers = more;
        }
        if answer {
            found = true;
        }
        i += 1;
    }
    assert(answers_for(*condition, texts(names@), answers));
    found
}

/// Whether `taken` are the keys of the predicates that read a column of which `condition` says
/// yes, when it is asked of every column that they read.
pub open spec fn picks<F: FnMut(Arc<str>) -> bool>(
    exprs: Seq<AExpr>,
    acc: Map<Seq<char>, Node>,
    condition: F,
    taken: Set<Seq<char>>,
) -> bool {
    forall|key: Seq<char>| #[trigger]
        acc.contains_key(key) ==> says_yes(
            condition,
            leaf_names(exprs, acc[key]),
            taken.contains(key),
        )
}

/// Transfers predicates from `acc_predicates`, that will be pushed down, to local ones, based on
/// a condition on the columns that they read. The condition is asked of every column that any of
/// them reads, each as often as it is read.
pub fn transfer_to_local_by_name<F: FnMut(Arc<str>) -> bool>(
    expr_arena: &Arena<AExpr>,
    acc_predicates: &mut PlHashMap<Arc<str>, Node>,
    mut condition: F,
) -> (local_predicates: Vec<Node>)
    requires
        well_formed(expr_arena@),
        acc_in_arena(expr_arena@, old(acc_predicates)@),
        forall|name: Arc<str>| call_requires(condition, (name,)),
    ensures
        exists|taken: Set<Seq<char>>| #[trigger]
            picks(expr_arena@, old(acc_predicates)@, condition, taken) && moves(
                old(acc_predicates)@,
                seq![],
                taken,
                final(acc_predicates)@,
                local_predicates@,
            ),
{
    let ghost exprs = expr_arena@;
    let ghost acc = acc_predicates@;
    let ghost asked = condition;
    let entries = acc_predicates.entries();
    let mut remove_keys: Vec<Arc<str>> = Vec::with_capacity(entries.len());
    let ghost mut taken: Set<Seq<char>> = Set::empty();
    let mut i: usize = 0;
    while i < entries.len()
        invariant
            exprs == expr_arena@,
            well_formed(exprs),
            acc_in_arena(exprs, acc),
            condition == asked,
            forall|name: Arc<str>| call_requires(condition, (name,)),
            lists(acc, entries@),
            i <= entries@.len(),
            forall|key: Seq<char>| #[trigger]
                texts(remove_keys@).contains(key) <==> taken.contains(key),
            texts(remove_keys@).no_duplicates(),
            forall|key: Seq<char>| #[trigger]
                taken.contains(key) ==> exists|j: int|
                    0 <= j < i && (#[trigger] entries@[j]).0@ == key,
            forall|j: int|
                0 <= j < i ==> says_yes(
                    condition,
                    leaf_names(exprs, (#[trigger] entries@[j]).1),
                    taken.contains(entries@[j].0@),
                ),
        decreases entries@.len() - i,
    {
        let ghost key = entries@[i as int].0@;
        let ghost known = texts(remove_keys@);
        let ghost earlier = taken;
        assert(acc.contains_key(key));
        assert(!earlier.contains(key));
        assert(!known.contains(key));
        let root_names = aexpr_to_leaf_names(entries[i].1, expr_arena);
        if any_name(&root_names, &mut condition) {
            remove_keys.push(entries[i].0.clone());
            proof {
                taken = taken.insert(key);
                assert(texts(remove_keys@) =~= known.push(key));
                assert forall|k: Seq<char>| #[trigger]
                    texts(remove_keys@).contains(k) <==> taken.contains(k) by {
                    if known.contains(k) {
                        let j = choose|j: int| 0 <= j < known.len() && known[j] == k;
                        assert(texts(remove_keys@)[j] == k);
                    }
                    assert(texts(remove_keys@)[known.len() as int] == key);
                }
            }
        }
        i += 1;
    }
    let mut local_predicates: Vec<Node> = Vec::with_capacity(remove_keys.len());
    proof {
        let keys = texts(remove_keys@);
        assert forall|j: int| 0 <= j < keys.len() implies acc.contains_key(#[trigger] keys[j]) by {
            assert(keys.contains(keys[j]));
            assert(taken.contains(keys[j]));
        }
        assert(orders(keys, acc.dom().intersect(taken))) by {
            assert forall|key: Seq<char>| #[trigger]
                keys.contains(key) <==> acc.dom().intersect(taken).contains(key) by {
                assert(keys.contains(key) <==> taken.contains(key));
            }
        }
        lemma_moves(acc, seq![], keys, taken);
        assert forall|key: Seq<char>| #[trigger] acc.contains_key(key) implies says_yes(
            condition,
            leaf_names(exprs, acc[key]),
            taken.contains(key),
        ) by {
            let j = choose|j: int| 0 <= j < entries@.len() && (#[trigger] entries@[j]).0@ == key;
            assert(entries@[j].1 == acc[key]);
        }
        assert(picks(exprs, acc, condition, taken));
    }
    take_out(acc_predicates, &remove_keys, &mut local_predicates);
    local_predicates
}

/// The keys of the predicates that read one of `columns`.
pub open spec fn reading(
    exprs: Seq<AExpr>,
    acc: Map<Seq<char>, Node>,
    columns: Seq<Seq<char>>,
) -> Set<Seq<char>> {
    Set::new(
        |key: Seq<char>|
            exists|i: int|
                0 <= i < leaf_names(exprs, acc[key]).len() && columns.contains(
                    #[trigger] leaf_names(exprs, acc[key])[i],
                ),
    )
}

/// Whether a walk through the expression at `node` has `found` what `matches` says yes of.
pub open spec fn finds<F: Fn(&AExpr) -> bool>(
    exprs: Seq<AExpr>,
    node: Node,
    matches: F,
    found: bool,
) -> bool {
    if found {
        exists|n: Node| #[trigger]
            subtree(exprs, Walk::Whole, node).contains(n) && call_ensures(
                matches,
                (&at(exprs, n),),
                true,
            )
    } else {
        forall|n: Node| #[trigger]
            subtree(exprs, Walk::Whole, node).contains(n) ==> call_ensures(
                matches,
                (&at(exprs, n),),
                false,
            )
    }
}

/// If the projected expression at `node` has something that `matches`, the predicates on the
/// columns that it reads become local ones. What matches are typically explode, shift, etc.
/// expressions that mess up predicates when pushed down.
pub fn no_pushdown_preds<F: Fn(&AExpr) -> bool>(
    node: Node,
    arena: &Arena<AExpr>,
    matches: F,
    local_predicates: &mut Vec<Node>,
    acc_predicates: &mut PlHashMap<Arc<str>, Node>,
)
    requires
        well_formed(arena@),
        in_arena(arena@, node),
        acc_in_arena(arena@, old(acc_predicates)@),
        forall|n: Node| in_arena(arena@, n) ==> call_requires(matches, (&#[trigger] at(arena@, n),)),
    ensures
        exists|found: bool| #[trigger]
            finds(arena@, node, matches, found) && if found {
                moves(
                    old(acc_predicates)@,
                    old(local_predicates)@,
                    reading(arena@, old(acc_predicates)@, leaf_names(arena@, node)),
                    final(acc_predicates)@,
                    final(local_predicates)@,
                )
            } else {
                final(acc_predicates)@ == old(acc_predicates)@ && final(local_predicates)@ == old(
                    local_predicates,
                )@
            },
{
    let ghost exprs = arena@;
    let ghost acc = acc_predicates@;
    let ghost local = local_predicates@;
    let found = has_aexpr(node, arena, matches);
    assert(finds(exprs, node, matches, found));
    if found {
        let columns = aexpr_to_leaf_names(node, arena);
        let condition = |name: Arc<str>| -> (read: bool)
            ensures
                read == texts(columns@).contains(name@),
            { name_in(&columns, &*name) };
        let mut transferred = transfer_to_local_by_name(arena, acc_predicates, condition);
        let ghost added = transferred@;
        proof {
            let taken = choose|taken: Set<Seq<char>>| #[trigger]
                picks(exprs, acc, condition, taken) && moves(
                    acc,
                    seq![],
                    taken,
                    acc_predicates@,
                    added,
                );
            let wanted = reading(exprs, acc, leaf_names(exprs, node));
            assert forall|key: Seq<char>| #[trigger] acc.contains_key(key) implies taken.contains(
                key,
            ) == wanted.contains(key) by {
                let names = leaf_names(exprs, acc[key]);
                let answers = choose|answers: Seq<bool>| #[trigger]
                    answers_for(condition, names, answers) && taken.contains(key)
                        == answers.contains(true);
                if taken.contains(key) {
                    let i = choose|i: int| 0 <= i < answers.len() && answers[i];
                    assert(says(condition, names[i], true));
                    assert(leaf_names(exprs, node).contains(names[i]));
                } else {
                    assert forall|i: int| 0 <= i < names.len() implies !leaf_names(
                        exprs,
                        node,
                    ).contains(#[trigger] names[i]) by {
                        assert(says(condition, names[i], answers[i]));
                        assert(!answers[i]);
                    }
                }
            }
            lemma_moves_same(acc, seq![], taken, wanted, acc_predicates@, added);
            let keys = choose|keys: Seq<Seq<char>>| #[trigger]
                orders(keys, acc.dom().intersect(wanted)) && added == Seq::<Node>::empty() + under(
                    acc,
                    keys,
                );
            assert(local + added =~= local + under(acc, keys));
        }
        local_predicates.append(&mut transferred);
    }
}

/// What is moved depends only on which of the keys that are there are taken.
pub proof fn lemma_moves_same(
    acc: Map<Seq<char>, Node>,
    local: Seq<Node>,
    taken: Set<Seq<char>>,
    wanted: Set<Seq<char>>,
    acc_after: Map<Seq<char>, Node>,
    local_after: Seq<Node>,
)
    requires
        moves(acc, local, taken, acc_after, local_after),
        forall|key: Seq<char>| #[trigger]
            acc.contains_key(key) ==> taken.contains(key) == wanted.contains(key),
    ensures
        moves(acc, local, wanted, acc_after, local_after),
{
    assert(acc.dom().intersect(taken) =~= acc.dom().intersect(wanted)) by {
        assert forall|key: Seq<char>| acc.dom().intersect(taken).contains(key)
            == acc.dom().intersect(wanted).contains(key) by {
            if acc.contains_key(key) {
            }
        }
    }
    assert(acc.remove_keys(taken) =~= acc.remove_keys(wanted)) by {
        assert forall|key: Seq<char>| #[trigger] acc.contains_key(key) implies taken.contains(key)
            == wanted.contains(key) by {}
    }
}

} // verus!
