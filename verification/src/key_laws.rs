//! Why a key tells which columns a predicate reads, and why it goes on doing so.

use vstd::prelude::*;

use crate::aexpr::AExpr;
use crate::arena::{at, in_arena, Node};
use crate::boundary::keeps_values;
use crate::combine::{acc_with, and_expr, exprs_with};
use crate::keys::{has_name, is_piece, joined, key_of, predicate_key, HIDDEN_DELIMITER};
use crate::projection::{
    alias_step, alias_taken, goes_on_renamed, lemma_insert_valid, lemma_split_alias_step,
    lemma_split_output_step, lemma_split_step, projection_step, stuck, Pushdown,
};
use crate::rename::law_renamed_copy_reads_new_name;
use crate::transfer::acc_in_arena;
use crate::traversal::{
    column_names, grows, leaf_names, lemma_column_names_add, lemma_leaf_names_stay,
    lemma_pending_add, lemma_pending_one, lemma_subtree, subtree, well_formed, Walk,
};

verus! {

/// Whether a name holds no delimiter.
pub open spec fn plain(name: Seq<char>) -> bool {
    forall|i: int| 0 <= i < name.len() ==> #[trigger] name[i] != HIDDEN_DELIMITER
}

/// Whether none of the names holds a delimiter.
pub open spec fn all_plain(names: Seq<Seq<char>>) -> bool {
    forall|i: int| 0 <= i < names.len() ==> plain(#[trigger] names[i])
}

/// Whether one of the pieces of a key is `name`.
spec fn has_piece(key: Seq<char>, name: Seq<char>) -> bool {
    exists|start: int, end: int|
        #[trigger] is_piece(key, start, end) && key.subrange(start, end) == name
}

/// A key with a name more has the pieces that it had, and the name.
proof fn lemma_piece_more(key: Seq<char>, last: Seq<char>, name: Seq<char>)
    requires
        plain(last),
    ensures
        has_piece(key.push(HIDDEN_DELIMITER) + last, name) == (has_piece(key, name) || last == name),
{
    let more = key.push(HIDDEN_DELIMITER) + last;
    assert(more[key.len() as int] == HIDDEN_DELIMITER);
    if has_piece(more, name) {
        let (start, end) = choose|start: int, end: int|
            #[trigger] is_piece(more, start, end) && more.subrange(start, end) == name;
        if start <= key.len() {
            assert(end <= key.len());
            assert(is_piece(key, start, end)) by {
                assert forall|i: int| start <= i < end implies #[trigger] key[i]
                    != HIDDEN_DELIMITER by {
                    assert(more[i] == key[i]);
                }
            }
            assert(key.subrange(start, end) =~= more.subrange(start, end));
        } else {
            if start - 1 > key.len() {
                assert(more[start - 1] == last[start - 1 - key.len() - 1]);
            }
            if end < more.len() {
                assert(more[end] == last[end - key.len() - 1]);
            }
            assert(more.subrange(start, end) =~= last);
        }
    }
    if has_piece(key, name) {
        let (start, end) = choose|start: int, end: int|
            #[trigger] is_piece(key, start, end) && key.subrange(start, end) == name;
        assert(is_piece(more, start, end)) by {
            assert forall|i: int| start <= i < end implies #[trigger] more[i]
                != HIDDEN_DELIMITER by {
                assert(more[i] == key[i]);
            }
        }
        assert(key.subrange(start, end) =~= more.subrange(start, end));
    }
    if last == name {
        let start = key.len() + 1int;
        let end = more.len() as int;
        assert(is_piece(more, start, end)) by {
            assert forall|i: int| start <= i < end implies #[trigger] more[i]
                != HIDDEN_DELIMITER by {
                assert(more[i] == last[i - key.len() - 1]);
            }
        }
        assert(more.subrange(start, end) =~= last);
    }
}

/// The pieces of joined names are the names.
proof fn lemma_pieces_of_joined(names: Seq<Seq<char>>, name: Seq<char>)
    requires
        names.len() > 0,
        all_plain(names),
    ensures
        has_piece(joined(names), name) == names.contains(name),
    decreases names.len(),
{
    if names.len() == 1 {
        let key = names[0];
        assert(plain(names[0]));
        if has_piece(key, name) {
            let (start, end) = choose|start: int, end: int|
                #[trigger] is_piece(key, start, end) && key.subrange(start, end) == name;
            assert(start == 0 && end == key.len());
            assert(key.subrange(start, end) =~= key);
        }
        if names.contains(name) {
            assert(is_piece(key, 0, key.len() as int));
            assert(key.subrange(0, key.len() as int) =~= key);
        }
    } else {
        let fewer = names.drop_last();
        assert forall|i: int| 0 <= i < fewer.len() implies plain(#[trigger] fewer[i]) by {
            assert(fewer[i] == names[i]);
        }
        assert(plain(names[names.len() - 1]));
        lemma_pieces_of_joined(fewer, name);
        lemma_piece_more(joined(fewer), names.last(), name);
        if fewer.contains(name) {
            let i = choose|i: int| 0 <= i < fewer.len() && fewer[i] == name;
            assert(names[i] == name);
        }
        if names.contains(name) {
            let i = choose|i: int| 0 <= i < names.len() && names[i] == name;
            if i < fewer.len() {
                assert(fewer[i] == name);
            }
        }
        assert(names[names.len() - 1] == names.last());
    }
}

/// Two keys with a delimiter between them have the pieces of both.
proof fn lemma_pieces_of_both(a: Seq<char>, b: Seq<char>, name: Seq<char>)
    ensures
        has_piece(a.push(HIDDEN_DELIMITER) + b, name) == (has_piece(a, name) || has_piece(b, name)),
{
    let all = a.push(HIDDEN_DELIMITER) + b;
    let from = a.len() + 1int;
    assert(all[a.len() as int] == HIDDEN_DELIMITER);
    assert forall|i: int| 0 <= i < a.len() implies all[i] == a[i] by {}
    assert forall|i: int| 0 <= i < b.len() implies all[from + i] == b[i] by {}
    if has_piece(all, name) {
        let (start, end) = choose|start: int, end: int|
            #[trigger] is_piece(all, start, end) && all.subrange(start, end) == name;
        if start <= a.len() {
            assert(end <= a.len());
            assert(is_piece(a, start, end)) by {
                assert forall|i: int| start <= i < end implies #[trigger] a[i]
                    != HIDDEN_DELIMITER by {
                    assert(all[i] == a[i]);
                }
            }
            assert(a.subrange(start, end) =~= all.subrange(start, end));
        } else {
            assert(is_piece(b, start - from, end - from)) by {
                if start > from {
                    assert(all[from + (start - from - 1)] == b[start - from - 1]);
                }
                if end < all.len() {
                    assert(all[from + (end - from)] == b[end - from]);
                }
                assert forall|i: int| start - from <= i < end - from implies #[trigger] b[i]
                    != HIDDEN_DELIMITER by {
                    assert(all[from + i] == b[i]);
                }
            }
            assert(b.subrange(start - from, end - from) =~= all.subrange(start, end));
        }
    }
    if has_piece(a, name) {
        let (start, end) = choose|start: int, end: int|
            #[trigger] is_piece(a, start, end) && a.subrange(start, end) == name;
        assert(is_piece(all, start, end)) by {
            assert forall|i: int| start <= i < end implies #[trigger] all[i]
                != HIDDEN_DELIMITER by {
                assert(all[i] == a[i]);
            }
        }
        assert(a.subrange(start, end) =~= all.subrange(start, end));
    }
    if has_piece(b, name) {
        let (start, end) = choose|start: int, end: int|
            #[trigger] is_piece(b, start, end) && b.subrange(start, end) == name;
        assert(is_piece(all, from + start, from + end)) by {
            if start > 0 {
                assert(all[from + (start - 1)] == b[start - 1]);
            }
            if end < b.len() {
                assert(all[from + end] == b[end]);
            }
            assert forall|i: int| from + start <= i < from + end implies #[trigger] all[i]
                != HIDDEN_DELIMITER by {
                assert(all[from + (i - from)] == b[i - from]);
            }
        }
        assert(b.subrange(start, end) =~= all.subrange(from + start, from + end));
    }
}

/// Which names a key has, whatever it was made of. A name with a delimiter in it is only had by
/// itself. Any other name is had by itself, by no other key without delimiters, and by two keys with
/// a delimiter between them exactly if one of them has it.
pub proof fn law_names_of_a_key(a: Seq<char>, b: Seq<char>, name: Seq<char>)
    ensures
        has_name(name, name),
        name.contains('\u{1D17A}') ==> (has_name(a, name) <==> a == name),
        !a.contains('\u{1D17A}') ==> (has_name(a, name) <==> a == name),
        !name.contains('\u{1D17A}') ==> (has_name(a.push('\u{1D17A}') + b, name) <==> has_name(
            a,
            name,
        ) || has_name(b, name)),
{
    let both = a.push('\u{1D17A}') + b;
    lemma_pieces_of_both(a, b, name);
    assert(both[a.len() as int] == '\u{1D17A}');
    if name.contains('\u{1D17A}') {
        if has_piece(a, name) {
            let (start, end) = choose|start: int, end: int|
                #[trigger] is_piece(a, start, end) && a.subrange(start, end) == name;
            let i = choose|i: int| 0 <= i < name.len() && name[i] == '\u{1D17A}';
            assert(a[start + i] == name[i]);
        }
    } else {
        lemma_whole_piece(a, name);
        lemma_whole_piece(b, name);
        assert(both.contains('\u{1D17A}'));
    }
    if !a.contains('\u{1D17A}') && has_piece(a, name) {
        let (start, end) = choose|start: int, end: int|
            #[trigger] is_piece(a, start, end) && a.subrange(start, end) == name;
        if start > 0 {
            assert(a.contains(a[start - 1]));
        }
        if end < a.len() {
            assert(a.contains(a[end]));
        }
        assert(a.subrange(start, end) =~= a);
    }
}

/// A name without delimiters is a piece of itself.
proof fn lemma_whole_piece(key: Seq<char>, name: Seq<char>)
    requires
        !name.contains('\u{1D17A}'),
    ensures
        has_name(key, name) == has_piece(key, name),
{
    if key == name {
        assert(is_piece(key, 0, key.len() as int)) by {
            assert forall|i: int| 0 <= i < key.len() implies #[trigger] key[i]
                != HIDDEN_DELIMITER by {
                assert(name.contains(name[i]));
            }
        }
        assert(key.subrange(0, key.len() as int) =~= name);
    }
}

/// How keys are spelled: no name gives a delimiter, one name gives itself, and every further name is
/// added behind a delimiter. The key of a predicate is that of the columns that it reads.
pub proof fn law_key_spelling(
    exprs: Seq<AExpr>,
    node: Node,
    names: Seq<Seq<char>>,
    last: Seq<char>,
)
    ensures
        key_of(seq![]) == seq!['\u{1D17A}'],
        key_of(seq![last]) == last,
        names.len() > 0 ==> key_of(names.push(last)) == key_of(names).push('\u{1D17A}') + last,
        predicate_key(exprs, node) == key_of(leaf_names(exprs, node)),
        plain(last) <==> !last.contains('\u{1D17A}'),
{
    assert(names.push(last).drop_last() =~= names);
    if plain(last) && last.contains('\u{1D17A}') {
        let i = choose|i: int| 0 <= i < last.len() && last[i] == '\u{1D17A}';
        assert(last[i] != HIDDEN_DELIMITER);
    }
    if !last.contains('\u{1D17A}') {
        assert forall|i: int| 0 <= i < last.len() implies #[trigger] last[i]
            != HIDDEN_DELIMITER by {
            assert(last.contains(last[i]));
        }
    }
}

/// A key tells exactly which columns it was made of, as long as no name holds the delimiter. (The
/// key of a predicate that reads no column seems to have the empty name.)
pub proof fn law_key_tells_columns(names: Seq<Seq<char>>, name: Seq<char>)
    requires
        all_plain(names),
        plain(name),
        names.len() > 0 || name.len() > 0,
    ensures
        has_name(key_of(names), name) == names.contains(name),
{
    let key = key_of(names);
    if key == name {
        assert(is_piece(key, 0, key.len() as int));
        assert(key.subrange(0, key.len() as int) =~= name);
    }
    assert(has_name(key, name) == has_piece(key, name));
    if names.len() > 0 {
        lemma_pieces_of_joined(names, name);
    } else {
        assert(key[0] == HIDDEN_DELIMITER);
        if has_piece(key, name) {
            let (start, end) = choose|start: int, end: int|
                #[trigger] is_piece(key, start, end) && key.subrange(start, end) == name;
            assert(start < end);
            assert(key[start] != HIDDEN_DELIMITER);
        }
    }
}

/// Whether `names` and `others` have the same members, in whatever order and however often.
pub open spec fn same_names(names: Seq<Seq<char>>, others: Seq<Seq<char>>) -> bool {
    forall|name: Seq<char>| #[trigger] names.contains(name) == others.contains(name)
}

/// Whether `key` is the key of `names`, of which none holds a delimiter and which are the columns
/// that the expression at `node` reads.
pub open spec fn is_key_for(
    exprs: Seq<AExpr>,
    key: Seq<char>,
    node: Node,
    names: Seq<Seq<char>>,
) -> bool {
    &&& all_plain(names)
    &&& key == key_of(names)
    &&& same_names(names, leaf_names(exprs, node))
}

/// Whether every accumulated predicate has a key of the columns that it reads.
pub open spec fn keys_fit(exprs: Seq<AExpr>, acc: Map<Seq<char>, Node>) -> bool {
    forall|key: Seq<char>| #[trigger]
        acc.contains_key(key) ==> exists|names: Seq<Seq<char>>| #[trigger]
            is_key_for(exprs, key, acc[key], names)
}

/// The key of an accumulated predicate tells exactly which columns the predicate reads. (One that
/// reads no column seems to have the empty name.)
pub proof fn law_fitting_key_tells_columns(
    exprs: Seq<AExpr>,
    acc: Map<Seq<char>, Node>,
    key: Seq<char>,
    name: Seq<char>,
)
    requires
        keys_fit(exprs, acc),
        acc.contains_key(key),
        plain(name),
        leaf_names(exprs, acc[key]).len() > 0 || name.len() > 0,
    ensures
        has_name(key, name) == leaf_names(exprs, acc[key]).contains(name),
{
    let names = choose|names: Seq<Seq<char>>| #[trigger] is_key_for(exprs, key, acc[key], names);
    let leaves = leaf_names(exprs, acc[key]);
    assert(names.contains(name) == leaves.contains(name));
    if leaves.len() > 0 {
        assert(leaves.contains(leaves[0]));
        assert(names.contains(leaves[0]));
    }
    law_key_tells_columns(names, name);
}

/// An accumulated predicate whose key is one name reads the column of this name and no other.
pub proof fn law_name_as_key(
    exprs: Seq<AExpr>,
    acc: Map<Seq<char>, Node>,
    name: Seq<char>,
    column: Seq<char>,
)
    requires
        keys_fit(exprs, acc),
        acc.contains_key(name),
        plain(name),
    ensures
        leaf_names(exprs, acc[name]).contains(column) == (column == name),
{
    let names = choose|names: Seq<Seq<char>>| #[trigger] is_key_for(exprs, name, acc[name], names);
    let leaves = leaf_names(exprs, acc[name]);
    if names.len() == 0 {
        assert(name[0] == HIDDEN_DELIMITER);
    } else if names.len() > 1 {
        let before = joined(names.drop_last());
        assert(name[before.len() as int] == HIDDEN_DELIMITER);
    }
    assert(names =~= seq![name]);
    assert(names[0] == name);
    assert(names.contains(column) == leaves.contains(column));
}

/// The conjunction of two expressions reads what the two read.
pub proof fn lemma_and_reads(exprs: Seq<AExpr>, node: Node, left: Node, right: Node)
    requires
        well_formed(exprs),
        in_arena(exprs, node),
        in_arena(exprs, left),
        in_arena(exprs, right),
        at(exprs, node) == and_expr(left, right),
    ensures
        leaf_names(exprs, node) == leaf_names(exprs, left) + leaf_names(exprs, right),
{
    let inputs = at(exprs, node).inputs();
    let a = subtree(exprs, Walk::Whole, left);
    let b = subtree(exprs, Walk::Whole, right);
    lemma_subtree(exprs, Walk::Whole, node);
    assert(inputs =~= seq![right] + seq![left]);
    lemma_pending_add(exprs, Walk::Whole, seq![right], seq![left]);
    lemma_pending_one(exprs, Walk::Whole, left);
    lemma_pending_one(exprs, Walk::Whole, right);
    lemma_column_names_add(exprs, seq![node], a + b);
    lemma_column_names_add(exprs, a, b);
    reveal_with_fuel(column_names, 2);
    assert(column_names(exprs, seq![node]) =~= seq![]);
    assert(leaf_names(exprs, node) =~= leaf_names(exprs, left) + leaf_names(exprs, right));
}

/// Keys go on to fit as the arena grows.
pub proof fn lemma_keys_fit_stays(before: Seq<AExpr>, after: Seq<AExpr>, acc: Map<Seq<char>, Node>)
    requires
        well_formed(before),
        well_formed(after),
        grows(before, after),
        acc_in_arena(before, acc),
        keys_fit(before, acc),
    ensures
        keys_fit(after, acc),
{
    assert forall|key: Seq<char>| #[trigger] acc.contains_key(key) implies exists|
        names: Seq<Seq<char>>,
    | #[trigger] is_key_for(after, key, acc[key], names) by {
        lemma_leaf_names_stay(before, after, acc[key]);
        let names = choose|names: Seq<Seq<char>>| #[trigger]
            is_key_for(before, key, acc[key], names);
        assert(is_key_for(after, key, acc[key], names));
    }
}

/// The keys of fewer predicates fit too.
pub proof fn lemma_keys_fit_fewer(
    exprs: Seq<AExpr>,
    acc: Map<Seq<char>, Node>,
    fewer: Map<Seq<char>, Node>,
)
    requires
        keys_fit(exprs, acc),
        fewer.submap_of(acc),
    ensures
        keys_fit(exprs, fewer),
{
    assert forall|key: Seq<char>| #[trigger] fewer.contains_key(key) implies exists|
        names: Seq<Seq<char>>,
    | #[trigger] is_key_for(exprs, key, fewer[key], names) by {
        assert(fewer.dom().contains(key));
        assert(acc.dom().contains(key));
        assert(acc.contains_key(key));
    }
}

/// Of lists of names with the same key, those that are not empty have the same members.
proof fn lemma_same_key(names: Seq<Seq<char>>, others: Seq<Seq<char>>)
    requires
        all_plain(names),
        all_plain(others),
        names.len() > 0,
        others.len() > 0,
        key_of(names) == key_of(others),
    ensures
        same_names(names, others),
{
    assert forall|name: Seq<char>| #[trigger] names.contains(name) == others.contains(name) by {
        if names.contains(name) {
            let i = choose|i: int| 0 <= i < names.len() && names[i] == name;
            assert(plain(names[i]));
        }
        if others.contains(name) {
            let i = choose|i: int| 0 <= i < others.len() && others[i] == name;
            assert(plain(others[i]));
        }
        if plain(name) {
            law_key_tells_columns(names, name);
            law_key_tells_columns(others, name);
        }
    }
}

/// The predicate under the key of another one that reads columns reads no others.
pub proof fn lemma_same_key_reads(
    exprs: Seq<AExpr>,
    acc: Map<Seq<char>, Node>,
    predicate: Node,
    column: Seq<char>,
)
    requires
        keys_fit(exprs, acc),
        acc.contains_key(predicate_key(exprs, predicate)),
        all_plain(leaf_names(exprs, predicate)),
        leaf_names(exprs, predicate).len() > 0,
        leaf_names(exprs, acc[predicate_key(exprs, predicate)]).contains(column),
    ensures
        leaf_names(exprs, predicate).contains(column),
{
    let key = predicate_key(exprs, predicate);
    let names = choose|names: Seq<Seq<char>>| #[trigger] is_key_for(exprs, key, acc[key], names);
    assert(names.contains(column));
    lemma_same_key(names, leaf_names(exprs, predicate));
}

/// Every accumulated predicate goes on to have a key of the columns that it reads when one more
/// joins them, though it may be combined with another.
pub proof fn law_insert_keeps_keys(exprs: Seq<AExpr>, acc: Map<Seq<char>, Node>, predicate: Node)
    requires
        well_formed(exprs),
        exprs.len() <= usize::MAX,
        acc_in_arena(exprs, acc),
        in_arena(exprs, predicate),
        keys_fit(exprs, acc),
        all_plain(leaf_names(exprs, predicate)),
    ensures
        keys_fit(exprs_with(exprs, acc, predicate), acc_with(exprs, acc, predicate)),
{
    let own = predicate_key(exprs, predicate);
    let after = exprs_with(exprs, acc, predicate);
    let more = acc_with(exprs, acc, predicate);
    lemma_insert_valid(exprs, acc, predicate);
    lemma_keys_fit_stays(exprs, after, acc);
    lemma_leaf_names_stay(exprs, after, predicate);
    assert forall|key: Seq<char>| #[trigger] more.contains_key(key) implies exists|
        names: Seq<Seq<char>>,
    | #[trigger] is_key_for(after, key, more[key], names) by {
        if key == own {
            let a = leaf_names(after, predicate);
            if acc.contains_key(key) {
                let existing = acc[key];
                let node = Node(exprs.len() as usize);
                lemma_and_reads(after, node, predicate, existing);
                let b = leaf_names(after, existing);
                let names = choose|names: Seq<Seq<char>>| #[trigger]
                    is_key_for(after, key, existing, names);
                assert forall|name: Seq<char>| (a + b).contains(name) == (a.contains(name)
                    || b.contains(name)) by {
                    if a.contains(name) {
                        let i = choose|i: int| 0 <= i < a.len() && a[i] == name;
                        assert((a + b)[i] == name);
                    }
                    if b.contains(name) {
                        let i = choose|i: int| 0 <= i < b.len() && b[i] == name;
                        assert((a + b)[a.len() + i] == name);
                    }
                }
                assert(same_names(names, b));
                if a.len() == 0 {
                    assert forall|name: Seq<char>| #[trigger] names.contains(name) == (a
                        + b).contains(name) by {
                        assert(names.contains(name) == b.contains(name));
                    }
                    assert(is_key_for(after, key, node, names));
                } else {
                    if names.len() > 0 {
                        lemma_same_key(a, names);
                    }
                    assert forall|name: Seq<char>| #[trigger] a.contains(name) == (a + b).contains(
                        name,
                    ) by {
                        assert(names.contains(name) == b.contains(name));
                        if names.len() > 0 {
                            assert(a.contains(name) == names.contains(name));
                        }
                    }
                    assert(is_key_for(after, key, node, a));
                }
            } else {
                assert(is_key_for(after, key, predicate, a));
            }
        } else {
            assert(acc.contains_key(key));
        }
    }
}

/// Every accumulated predicate goes on to have a key of the columns that it reads at a projection,
/// though predicates may be renamed there.
pub proof fn law_projection_step_keeps_keys(
    before: Pushdown,
    projection: Node,
    output_name: Seq<char>,
    columns: Seq<Seq<char>>,
    after: Pushdown,
)
    requires
        before.valid(),
        projection_step(before, projection, output_name, columns, after),
        after.exprs.len() <= usize::MAX,
        keys_fit(before.exprs, before.acc),
        keeps_values(before.exprs, projection) ==> all_plain(leaf_names(before.exprs, projection)),
    ensures
        keys_fit(after.exprs, after.acc),
{
    let allows = keeps_values(before.exprs, projection);
    let (middle, skip) = lemma_split_step(before, projection, output_name, columns, after);
    lemma_alias_step_keeps_keys(before, projection, allows, middle, skip);
    if !skip {
        let exprs = middle.exprs;
        let taken = stuck(exprs, middle.acc, output_name, allows, columns);
        let later = lemma_split_output_step(
            middle,
            projection,
            output_name,
            allows,
            columns,
            after,
        );
        assert(later.acc.submap_of(middle.acc));
        assert(after.acc.submap_of(later.acc));
        lemma_keys_fit_fewer(exprs, middle.acc, later.acc);
        lemma_keys_fit_fewer(exprs, later.acc, after.acc);
    }
}

/// Every accumulated predicate goes on to have a key of the columns that it reads when the one under
/// an alias is taken.
pub proof fn lemma_alias_taken_keeps_keys(
    before: Pushdown,
    alias: Seq<char>,
    leaves: Seq<Seq<char>>,
    allows: bool,
    taken: Pushdown,
)
    requires
        before.valid(),
        alias_taken(before, alias, leaves, allows, taken),
        taken.exprs.len() <= usize::MAX,
        keys_fit(before.exprs, before.acc),
        allows ==> all_plain(leaves),
    ensures
        keys_fit(taken.exprs, taken.acc),
{
    let rest = before.acc.remove(alias);
    assert(rest.submap_of(before.acc));
    lemma_keys_fit_fewer(before.exprs, before.acc, rest);
    if before.acc.contains_key(alias) && allows && leaves.len() == 1 {
        let predicate = before.acc[alias];
        let (copied, copy) = choose|copied: Seq<AExpr>, copy: Node| #[trigger]
            goes_on_renamed(before, alias, predicate, leaves[0], copied, copy, taken);
        lemma_keys_fit_stays(before.exprs, copied, rest);
        law_renamed_copy_reads_new_name(copied, predicate, copy, leaves[0]);
        assert(all_plain(leaf_names(copied, copy))) by {
            assert(plain(leaves[0]));
        }
        law_insert_keeps_keys(copied, rest, copy);
    }
}

/// Every accumulated predicate goes on to have a key of the columns that it reads at an alias.
proof fn lemma_alias_step_keeps_keys(
    before: Pushdown,
    projection: Node,
    allows: bool,
    after: Pushdown,
    skip: bool,
)
    requires
        before.valid(),
        allows == keeps_values(before.exprs, projection),
        alias_step(before, projection, allows, after, skip),
        after.exprs.len() <= usize::MAX,
        keys_fit(before.exprs, before.acc),
        keeps_values(before.exprs, projection) ==> all_plain(leaf_names(before.exprs, projection)),
    ensures
        keys_fit(after.exprs, after.acc),
{
    let leaves = leaf_names(before.exprs, projection);
    match at(before.exprs, projection) {
        AExpr::Alias(_, alias) => {
            if leaves.len() > 0 {
                let taken = lemma_split_alias_step(
                    before,
                    projection,
                    alias@,
                    allows,
                    after,
                    skip,
                );
                lemma_alias_taken_keeps_keys(before, alias@, leaves, allows, taken);
                assert(after.acc.submap_of(taken.acc));
                lemma_keys_fit_fewer(taken.exprs, taken.acc, after.acc);
            }
        },
        _ => {},
    }
}

} // verus!
