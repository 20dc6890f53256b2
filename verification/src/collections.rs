//! Hash maps and hash sets with names as keys. They are those of the `hashbrown` crate, with the
//! randomly seeded hasher of the `ahash` crate, so that nothing can be said of the order in which
//! their entries are walked.

use std::sync::Arc;
use vstd::prelude::*;

use crate::arena::Node;

verus! {

/// A hash map.
#[verifier::external_body]
#[verifier::reject_recursive_types(K)]
#[verifier::reject_recursive_types(V)]
#[derive(Debug)]
pub struct PlHashMap<K, V> {
    map: hashbrown::HashMap<K, V, ahash::RandomState>,
}

/// A hash set.
#[verifier::external_body]
#[verifier::reject_recursive_types(T)]
#[derive(Debug)]
pub struct PlHashSet<T> {
    set: hashbrown::HashSet<T, ahash::RandomState>,
}

/// The predicates that a map holds, by the text of their keys.
pub uninterp spec fn predicates_of(map: PlHashMap<Arc<str>, Node>) -> Map<Seq<char>, Node>;

/// The names that a map holds, by the text of their keys.
pub uninterp spec fn renames_of(map: PlHashMap<Arc<str>, Arc<str>>) -> Map<Seq<char>, Seq<char>>;

/// The names that a set holds.
pub uninterp spec fn names_of(set: PlHashSet<Arc<str>>) -> Set<Seq<char>>;

impl View for PlHashMap<Arc<str>, Node> {
    type V = Map<Seq<char>, Node>;

    open spec fn view(&self) -> Map<Seq<char>, Node> {
        predicates_of(*self)
    }
}

impl View for PlHashMap<Arc<str>, Arc<str>> {
    type V = Map<Seq<char>, Seq<char>>;

    open spec fn view(&self) -> Map<Seq<char>, Seq<char>> {
        renames_of(*self)
    }
}

impl View for PlHashSet<Arc<str>> {
    type V = Set<Seq<char>>;

    open spec fn view(&self) -> Set<Seq<char>> {
        names_of(*self)
    }
}

/// Whether `entries` holds every entry of `predicates` exactly once, in whatever order.
pub open spec fn lists(
    predicates: Map<Seq<char>, Node>,
    entries: Seq<(Arc<str>, Node)>,
) -> bool {
    &&& forall|i: int|
        0 <= i < entries.len() ==> predicates.contains_key((#[trigger] entries[i]).0@)
            && predicates[entries[i].0@] == entries[i].1
    &&& forall|i: int, j: int|
        0 <= i < j < entries.len() ==> (#[trigger] entries[i]).0@ != (#[trigger] entries[j]).0@
    &&& forall|key: Seq<char>| #[trigger]
        predicates.contains_key(key) ==> exists|i: int|
            0 <= i < entries.len() && (#[trigger] entries[i]).0@ == key
}

/// `hashbrown::HashMap::default`: a map without entries.
#[verifier::external_body]
fn default_predicates() -> (map: PlHashMap<Arc<str>, Node>)
    ensures
        predicates_of(map).dom() == Set::<Seq<char>>::empty(),
{
    PlHashMap { map: hashbrown::HashMap::default() }
}

/// `hashbrown::HashMap::is_empty`: whether the map has no entry.
#[verifier::external_body]
fn predicates_is_empty(map: &PlHashMap<Arc<str>, Node>) -> (empty: bool)
    ensures
        empty == (predicates_of(*map).dom() == Set::<Seq<char>>::empty()),
{
    map.map.is_empty()
}

/// `hashbrown::HashMap::get`: the value under a key that reads `key`, if there is one.
#[verifier::external_body]
fn predicates_get(map: &PlHashMap<Arc<str>, Node>, key: &str) -> (found: Option<Node>)
    ensures
        found == (if predicates_of(*map).contains_key(key@) {
            Some(predicates_of(*map)[key@])
        } else {
            None
        }),
{
    map.map.get(key).copied()
}

/// `hashbrown::HashMap::insert`: puts `value` under `key`, in place of what was there before.
#[verifier::external_body]
fn predicates_insert(map: &mut PlHashMap<Arc<str>, Node>, key: Arc<str>, value: Node)
    ensures
        predicates_of(*final(map)) == predicates_of(*old(map)).insert(key@, value),
{
    map.map.insert(key, value);
}

/// `hashbrown::HashMap::remove`: takes out the entry whose key reads `key`, if there is one, and
/// gives back its value.
#[verifier::external_body]
fn predicates_remove(map: &mut PlHashMap<Arc<str>, Node>, key: &str) -> (taken: Option<Node>)
    ensures
        taken == (if predicates_of(*old(map)).contains_key(key@) {
            Some(predicates_of(*old(map))[key@])
        } else {
            None
        }),
        predicates_of(*final(map)) == predicates_of(*old(map)).remove(key@),
{
    map.map.remove(key)
}

/// `hashbrown::HashMap::iter`, copied out: every entry once. The order is not stated: it changes
/// from one run to the next with the seed of the hasher.
#[verifier::external_body]
fn predicates_iter(map: &PlHashMap<Arc<str>, Node>) -> (entries: Vec<(Arc<str>, Node)>)
    ensures
        lists(predicates_of(*map), entries@),
{
    map.map.iter().map(|entry| (entry.0.clone(), *entry.1)).collect()
}

/// `hashbrown::HashMap::default`: a map without entries.
#[verifier::external_body]
fn default_renames() -> (map: PlHashMap<Arc<str>, Arc<str>>)
    ensures
        renames_of(map).dom() == Set::<Seq<char>>::empty(),
{
    PlHashMap { map: hashbrown::HashMap::default() }
}

/// `hashbrown::HashMap::get`: the name under a key that reads `key`, if there is one.
#[verifier::external_body]
fn renames_get(map: &PlHashMap<Arc<str>, Arc<str>>, key: &str) -> (found: Option<Arc<str>>)
    ensures
        found is Some == renames_of(*map).contains_key(key@),
        found matches Some(name) ==> name@ == renames_of(*map)[key@],
{
    map.map.get(key).cloned()
}

/// `hashbrown::HashMap::insert`: puts `name` under `key`, in place of what was there before.
#[verifier::external_body]
fn renames_insert(map: &mut PlHashMap<Arc<str>, Arc<str>>, key: Arc<str>, name: Arc<str>)
    ensures
        renames_of(*final(map)) == renames_of(*old(map)).insert(key@, name@),
{
    map.map.insert(key, name);
}

/// `hashbrown::HashMap::clear`: takes out all entries.
#[verifier::external_body]
fn renames_clear(map: &mut PlHashMap<Arc<str>, Arc<str>>)
    ensures
        renames_of(*final(map)).dom() == Set::<Seq<char>>::empty(),
{
    map.map.clear();
}

/// `hashbrown::HashMap::retain`: keeps the entries whose name `names` holds.
#[verifier::external_body]
fn renames_retain(map: &mut PlHashMap<Arc<str>, Arc<str>>, names: &PlHashSet<Arc<str>>)
    ensures
        renames_of(*final(map)) == renames_of(*old(map)).restrict(
            Set::new(|key: Seq<char>| names_of(*names).contains(renames_of(*old(map))[key])),
        ),
{
    map.map.retain(|_, name| names.contains(name));
}

/// `hashbrown::HashSet::default`: a set without names.
#[verifier::external_body]
fn default_names() -> (set: PlHashSet<Arc<str>>)
    ensures
        names_of(set) == Set::<Seq<char>>::empty(),
{
    PlHashSet { set: hashbrown::HashSet::default() }
}

/// `hashbrown::HashSet::is_empty`: whether the set holds no name.
#[verifier::external_body]
fn names_is_empty(set: &PlHashSet<Arc<str>>) -> (empty: bool)
    ensures
        empty == (names_of(*set) == Set::<Seq<char>>::empty()),
{
    set.set.is_empty()
}

/// `hashbrown::HashSet::contains`: whether the set holds a name that reads `name`.
#[verifier::external_body]
fn names_contains(set: &PlHashSet<Arc<str>>, name: &str) -> (found: bool)
    ensures
        found == names_of(*set).contains(name@),
{
    set.set.contains(name)
}

/// `hashbrown::HashSet::insert`: adds `name`, unless the set holds it already.
#[verifier::external_body]
fn names_insert(set: &mut PlHashSet<Arc<str>>, name: Arc<str>)
    ensures
        names_of(*final(set)) == names_of(*old(set)).insert(name@),
{
    set.set.insert(name);
}

/// `hashbrown::HashSet::retain`: keeps the names that `other` holds too.
#[verifier::external_body]
fn names_retain(set: &mut PlHashSet<Arc<str>>, other: &PlHashSet<Arc<str>>)
    ensures
        names_of(*final(set)) == names_of(*old(set)).intersect(names_of(*other)),
{
    set.set.retain(|name| other.contains(name));
}

impl PlHashMap<Arc<str>, Node> {
    /// A map without predicates.
    pub fn new() -> (map: Self)
        ensures
            map@ == Map::<Seq<char>, Node>::empty(),
    {
        let map = default_predicates();
        assert(map@ =~= Map::<Seq<char>, Node>::empty());
        map
    }

    /// Whether the map has no entry.
    pub fn is_empty(&self) -> (empty: bool)
        ensures
            empty == (self@ == Map::<Seq<char>, Node>::empty()),
    {
        assert(self@.dom() == Set::<Seq<char>>::empty() ==> self@ =~= Map::<Seq<char>, Node>::empty());
        predicates_is_empty(self)
    }

    /// The predicate under `key`, if there is one.
    pub fn get(&self, key: &str) -> (found: Option<Node>)
        ensures
            found == self@.get(key@),
    {
        predicates_get(self, key)
    }

    /// Puts `value` under `key`, in place of what was there before.
    pub fn insert(&mut self, key: Arc<str>, value: Node)
        ensures
            final(self)@ == old(self)@.insert(key@, value),
    {
        predicates_insert(self, key, value);
    }

    /// Takes out the predicate under `key`, if there is one.
    pub fn remove(&mut self, key: &str) -> (taken: Option<Node>)
        ensures
            taken == old(self)@.get(key@),
            final(self)@ == old(self)@.remove(key@),
    {
        predicates_remove(self, key)
    }

    /// Every entry once, in an order that is not stated.
    pub fn entries(&self) -> (entries: Vec<(Arc<str>, Node)>)
        ensures
            lists(self@, entries@),
    {
        predicates_iter(self)
    }
}

impl PlHashMap<Arc<str>, Arc<str>> {
    /// A map without names.
    pub fn new() -> (map: Self)
        ensures
            map@ == Map::<Seq<char>, Seq<char>>::empty(),
    {
        let map = default_renames();
        assert(map@ =~= Map::<Seq<char>, Seq<char>>::empty());
        map
    }

    /// The name under `key`, if there is one.
    pub fn get(&self, key: &str) -> (found: Option<Arc<str>>)
        ensures
            found is Some == self@.contains_key(key@),
            found matches Some(name) ==> name@ == self@[key@],
    {
        renames_get(self, key)
    }

    /// Puts `name` under `key`, in place of what was there before.
    pub fn insert(&mut self, key: Arc<str>, name: Arc<str>)
        ensures
            final(self)@ == old(self)@.insert(key@, name@),
    {
        renames_insert(self, key, name);
    }

    /// Takes out all entries.
    pub fn clear(&mut self)
        ensures
            final(self)@ == Map::<Seq<char>, Seq<char>>::empty(),
    {
        renames_clear(self);
        assert(self@ =~= Map::<Seq<char>, Seq<char>>::empty());
    }

    /// Keeps the entries whose name `names` holds.
    pub fn retain_names(&mut self, names: &PlHashSet<Arc<str>>)
        ensures
            final(self)@ == old(self)@.restrict(
                Set::new(|key: Seq<char>| names@.contains(old(self)@[key])),
            ),
    {
        renames_retain(self, names);
    }
}

impl PlHashSet<Arc<str>> {
    /// A set without names.
    pub fn new() -> (set: Self)
        ensures
            set@ == Set::<Seq<char>>::empty(),
    {
        default_names()
    }

    /// Whether the set holds no name.
    pub fn is_empty(&self) -> (empty: bool)
        ensures
            empty == (self@ == Set::<Seq<char>>::empty()),
    {
        names_is_empty(self)
    }

    /// Whether the set holds `name`.
    pub fn contains(&self, name: &str) -> (found: bool)
        ensures
            found == self@.contains(name@),
    {
        names_contains(self, name)
    }

    /// Adds `name`.
    pub fn insert(&mut self, name: Arc<str>)
        ensures
            final(self)@ == old(self)@.insert(name@),
    {
        names_insert(self, name);
    }

    /// Keeps the names that `other` holds too.
    pub fn retain_in(&mut self, other: &Self)
        ensures
            final(self)@ == old(self)@.intersect(other@),
    {
        names_retain(self, other);
    }
}

} // verus!
