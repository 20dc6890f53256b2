use std::sync::Arc;

use predicate_pushdown::arena::Node;
use predicate_pushdown::collections::{PlHashMap, PlHashSet};
use predicate_pushdown::names::new_name;

#[test]
fn predicates_by_key() {
    let mut map = PlHashMap::<Arc<str>, Node>::new();
    assert!(map.is_empty());
    assert_eq!(map.get("a"), None);
    map.insert(new_name("a"), Node(1));
    map.insert(new_name("b"), Node(2));
    assert!(!map.is_empty());
    assert_eq!(map.get("a"), Some(Node(1)));
    map.insert(new_name("a"), Node(3));
    assert_eq!(map.get("a"), Some(Node(3)));
    assert_eq!(map.get("b"), Some(Node(2)));
    assert_eq!(map.remove("a"), Some(Node(3)));
    assert_eq!(map.remove("a"), None);
    assert_eq!(map.get("a"), None);
    assert_eq!(map.remove("b"), Some(Node(2)));
    assert!(map.is_empty());
}

#[test]
fn entries_list_every_predicate_once() {
    let mut map = PlHashMap::<Arc<str>, Node>::new();
    assert!(map.entries().is_empty());
    for i in 0..20 {
        map.insert(new_name(&format!("c{}", i)), Node(i));
    }
    let mut entries: Vec<(String, usize)> =
        map.entries().into_iter().map(|(key, node)| (key.to_string(), node.0)).collect();
    entries.sort_by_key(|entry| entry.1);
    assert_eq!(entries.len(), 20);
    for (i, (key, node)) in entries.iter().enumerate() {
        assert_eq!(*node, i);
        assert_eq!(*key, format!("c{}", i));
    }
}

#[test]
fn names_by_name() {
    let mut map = PlHashMap::<Arc<str>, Arc<str>>::new();
    assert!(map.get("a").is_none());
    map.insert(new_name("a"), new_name("x"));
    map.insert(new_name("b"), new_name("y"));
    map.insert(new_name("c"), new_name("x"));
    assert_eq!(map.get("a").as_deref(), Some("x"));
    map.insert(new_name("a"), new_name("z"));
    assert_eq!(map.get("a").as_deref(), Some("z"));

    let mut names = PlHashSet::<Arc<str>>::new();
    names.insert(new_name("x"));
    names.insert(new_name("z"));
    map.retain_names(&names);
    assert_eq!(map.get("a").as_deref(), Some("z"));
    assert_eq!(map.get("b").as_deref(), None);
    assert_eq!(map.get("c").as_deref(), Some("x"));

    map.clear();
    assert!(map.get("a").is_none());
    assert!(map.get("c").is_none());
}

#[test]
fn sets_of_names() {
    let mut set = PlHashSet::<Arc<str>>::new();
    assert!(set.is_empty());
    assert!(!set.contains("a"));
    set.insert(new_name("a"));
    set.insert(new_name("a"));
    set.insert(new_name("b"));
    assert!(!set.is_empty());
    assert!(set.contains("a"));
    assert!(set.contains("b"));

    let mut other = PlHashSet::<Arc<str>>::new();
    other.insert(new_name("b"));
    other.insert(new_name("c"));
    set.retain_in(&other);
    assert!(!set.contains("a"));
    assert!(set.contains("b"));
    assert!(!set.contains("c"));
    assert!(other.contains("c"));

    set.retain_in(&PlHashSet::<Arc<str>>::new());
    assert!(set.is_empty());
}
