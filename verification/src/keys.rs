//! The keys under which accumulated predicates are kept: the names of the columns that a
//! predicate reads, with a delimiter between them.

use std::sync::Arc;
use vstd::prelude::*;

use crate::aexpr::AExpr;
use crate::arena::{in_arena, Arena, Node};
use crate::names::{new_name, texts};
use crate::traversal::{aexpr_to_leaf_names, leaf_names, well_formed};

verus! {

/// The character between two names of a key. It is invisible, and no name should hold it.
pub const HIDDEN_DELIMITER: char = '\u{1D17A}';

/// `names` one after the other, with a delimiter between each two.
pub open spec fn joined(names: Seq<Seq<char>>) -> Seq<char>
    decreases names.len(),
{
    if names.len() == 0 {
        seq![]
    } else if names.len() == 1 {
        names[0]
    } else {
        joined(names.drop_last()).push(HIDDEN_DELIMITER) + names.last()
    }
}

/// The key of a predicate that reads the columns `names`; a delimiter alone if it reads none.
pub open spec fn key_of(names: Seq<Seq<char>>) -> Seq<char> {
    if names.len() == 0 {
        seq![HIDDEN_DELIMITER]
    } else {
        joined(names)
    }
}

/// The key of the predicate at `node`.
pub open spec fn predicate_key(exprs: Seq<AExpr>, node: Node) -> Seq<char> {
    key_of(leaf_names(exprs, node))
}

/// The key of the predicate at `predicate`: the names of the columns that it reads, joined.
pub fn predicate_to_key(predicate: Node, arena: &Arena<AExpr>) -> (key: Arc<str>)
    requires
        well_formed(arena@),
        in_arena(arena@, predicate),
    ensures
        key@ == predicate_key(arena@, predicate),
{
    let names = aexpr_to_leaf_names(predicate, arena);
    let delimiter = "\u{1D17A}";
    proof {
        reveal_strlit("\u{1D17A}");
        assert(delimiter@ =~= seq![HIDDEN_DELIMITER]);
    }
    if names.len() == 0 {
        return new_name(delimiter);
    }
    let mut text: String = String::new();
    text.append(&*names[0]);
    let mut i: usize = 1;
    proof {
        assert(texts(names@).take(1)[0] == names@[0]@);
        assert(text@ =~= names@[0]@);
    }
    while i < names.len()
        invariant
            1 <= i <= names@.len(),
            delimiter@ == seq![HIDDEN_DELIMITER],
            text@ == joined(texts(names@).take(i as int)),
        decreases names@.len() - i,
    {
        text.append(delimiter);
        text.append(&*names[i]);
        proof {
            let some = texts(names@).take(i + 1);
            assert(some.drop_last() =~= texts(names@).take(i as int));
            assert(some.last() == names@[i as int]@);
            assert(text@ =~= joined(some.drop_last()).push(HIDDEN_DELIMITER) + some.last());
        }
        i += 1;
    }
    assert(texts(names@).take(i as int) =~= texts(names@));
    new_name(text.as_str())
}

/// Whether `key[start..end]` stands between two delimiters, or between one and an end of the key,
/// and holds no delimiter.
pub open spec fn is_piece(key: Seq<char>, start: int, end: int) -> bool {
    &&& 0 <= start <= end <= key.len()
    &&& start == 0 || key[start - 1] == HIDDEN_DELIMITER
    &&& end == key.len() || key[end] == HIDDEN_DELIMITER
    &&& forall|i: int| start <= i < end ==> #[trigger] key[i] != HIDDEN_DELIMITER
}

/// Whether `name` is the whole key, or one of the pieces into which the delimiters cut it.
pub open spec fn has_name(key: Seq<char>, name: Seq<char>) -> bool {
    ||| key == name
    ||| exists|start: int, end: int|
        #[trigger] is_piece(key, start, end) && key.subrange(start, end) == name
}

/// The characters of `text`.
fn characters(text: &str) -> (chars: Vec<char>)
    ensures
        chars@ == text@,
{
    let mut chars: Vec<char> = Vec::new();
    for c in iter: text.chars()
        invariant
            iter.seq() == text@,
            chars@ == text@.take(iter.index() as int),
    {
        chars.push(c);
        assert(chars@ =~= text@.take(iter.index() + 1));
    }
    assert(text@.take(text@.len() as int) =~= text@);
    chars
}

/// Whether `key[start..end]` reads `name`.
fn piece_is(key: &Vec<char>, start: usize, end: usize, name: &Vec<char>) -> (same: bool)
    requires
        start <= end <= key@.len(),
    ensures
        same == (key@.subrange(start as int, end as int) == name@),
{
    if end - start != name.len() {
        return false;
    }
    let ghost piece = key@.subrange(start as int, end as int);
    let mut i: usize = 0;
    while i < name.len()
        invariant
            start <= end <= key@.len(),
            piece == key@.subrange(start as int, end as int),
            end - start == name@.len(),
            i <= name@.len(),
            forall|j: int| 0 <= j < i ==> #[trigger] name@[j] == piece[j],
        decreases name@.len() - i,
    {
        if key[start + i] != name[i] {
            assert(piece[i as int] != name@[i as int]);
            return false;
        }
        i += 1;
    }
    assert(piece =~= name@);
    true
}

/// Whether the predicate under `key` reads a column `name`, as far as the key tells.
pub fn key_has_name(key: &str, name: &str) -> (found: bool)
    ensures
        found == has_name(key@, name@),
{
    if *key == *name {
        return true;
    }
    let key_chars = characters(key);
    let name_chars = characters(name);
    let mut start: usize = 0;
    let mut end: usize = 0;
    while end < key_chars.len()
        invariant
            key_chars@ == key@,
            name_chars@ == name@,
            start <= end <= key@.len(),
            start == 0 || key@[start - 1] == HIDDEN_DELIMITER,
            forall|i: int| start <= i < end ==> #[trigger] key@[i] != HIDDEN_DELIMITER,
            forall|s: int, e: int|
                #[trigger] is_piece(key@, s, e) && e < end ==> key@.subrange(s, e) != name@,
            forall|s: int, e: int| #[trigger] is_piece(key@, s, e) && s < start ==> e < start,
        decreases key@.len() - end,
    {
        if key_chars[end] == HIDDEN_DELIMITER {
            assert(is_piece(key@, start as int, end as int));
            if piece_is(&key_chars, start, end, &name_chars) {
                return true;
            }
            assert forall|s: int, e: int| #[trigger] is_piece(key@, s, e) && e < end + 1 implies key@.subrange(
                s,
                e,
            ) != name@ by {
                if e == end {
                    if s > start {
                        assert(key@[s - 1] == HIDDEN_DELIMITER);
                        assert(key@[s - 1] != HIDDEN_DELIMITER);
                    }
                }
            }
            assert forall|s: int, e: int| #[trigger] is_piece(key@, s, e) && s < end + 1 implies e < end
                + 1 by {
                if e > end {
                    assert(key@[end as int] != HIDDEN_DELIMITER);
                }
            }
            start = end + 1;
        }
        end += 1;
    }
    assert(is_piece(key@, start as int, end as int));
    let found = piece_is(&key_chars, start, end, &name_chars);
    assert forall|s: int, e: int| #[trigger] is_piece(key@, s, e) && key@.subrange(s, e)
        == name@ implies found by {
        if e == end {
            if s > start {
                assert(key@[s - 1] == HIDDEN_DELIMITER);
                assert(key@[s - 1] != HIDDEN_DELIMITER);
            }
            assert(s == start);
        }
    }
    found
}

} // verus!
