use std::sync::Arc;

use predicate_pushdown::aexpr::{
    AExpr, AggKind, ApplyOptions, FunctionExpr, FunctionOptions, LiteralValue, Operator,
    WindowType,
};
use predicate_pushdown::allowed::{
    get_allowed_pushdown_names, get_maybe_aliased_projection_to_input_name_map,
};
use predicate_pushdown::arena::{Arena, Node};
use predicate_pushdown::collections::PlHashMap;
use predicate_pushdown::combine::{
    combine_at_scan, combine_predicates, insert_and_combine_predicate, predicate_at_scan,
};
use predicate_pushdown::keys::key_has_name;
use predicate_pushdown::names::new_name;
use predicate_pushdown::projection::{
    rename_predicate_columns_due_to_aliased_projection, rewrite_projection_node, LoopBehavior,
};
use predicate_pushdown::schema::Schema;
use predicate_pushdown::transfer::{
    first_with_name, no_pushdown_preds, remove_predicate_refers_to_alias,
    transfer_to_local_by_name,
};
use predicate_pushdown::traversal::aexpr_to_leaf_names;

type Predicates = PlHashMap<Arc<str>, Node>;

fn col(arena: &mut Arena<AExpr>, name: &str) -> Node {
    arena.add(AExpr::Column(new_name(name)))
}

fn lit(arena: &mut Arena<AExpr>, value: i64) -> Node {
    arena.add(AExpr::Literal(LiteralValue::Scalar(new_name(&value.to_string()))))
}

fn alias(arena: &mut Arena<AExpr>, expr: Node, name: &str) -> Node {
    arena.add(AExpr::Alias(expr, new_name(name)))
}

fn binary(arena: &mut Arena<AExpr>, left: Node, op: Operator, right: Node) -> Node {
    arena.add(AExpr::BinaryExpr { left, op, right })
}

fn sum(arena: &mut Arena<AExpr>, input: Node) -> Node {
    arena.add(AExpr::Agg { input, kind: AggKind::Sum })
}

/// `name > value`
fn gt(arena: &mut Arena<AExpr>, name: &str, value: i64) -> Node {
    let left = col(arena, name);
    let right = lit(arena, value);
    binary(arena, left, Operator::Gt, right)
}

/// `a < b`
fn lt(arena: &mut Arena<AExpr>, a: &str, b: &str) -> Node {
    let left = col(arena, a);
    let right = col(arena, b);
    binary(arena, left, Operator::Lt, right)
}

/// `col(column).alias(name)`
fn renamed(arena: &mut Arena<AExpr>, column: &str, name: &str) -> Node {
    let expr = col(arena, column);
    alias(arena, expr, name)
}

/// `(col(column) + 1).alias(name)`
fn increased(arena: &mut Arena<AExpr>, column: &str, name: &str) -> Node {
    let expr = col(arena, column);
    let one = lit(arena, 1);
    let more = binary(arena, expr, Operator::Plus, one);
    alias(arena, more, name)
}

fn names(list: &[&str]) -> Vec<Arc<str>> {
    list.iter().map(|name| new_name(name)).collect()
}

fn schema(columns: &[&str]) -> Schema {
    Schema { columns: names(columns) }
}

fn gather(arena: &mut Arena<AExpr>, predicates: &[Node]) -> Predicates {
    let mut acc = Predicates::new();
    for predicate in predicates {
        insert_and_combine_predicate(&mut acc, *predicate, arena);
    }
    acc
}

fn keys(acc: &Predicates) -> Vec<String> {
    let mut keys: Vec<String> = acc.entries().iter().map(|entry| entry.0.to_string()).collect();
    keys.sort();
    keys
}

fn sorted(mut nodes: Vec<Node>) -> Vec<usize> {
    nodes.sort_by_key(|node| node.0);
    nodes.iter().map(|node| node.0).collect()
}

fn leaves(arena: &Arena<AExpr>, node: Node) -> Vec<String> {
    aexpr_to_leaf_names(node, arena).iter().map(|name| name.to_string()).collect()
}

type Row = Vec<(String, i64)>;

fn row(values: &[(&str, i64)]) -> Row {
    values.iter().map(|(name, value)| (name.to_string(), *value)).collect()
}

/// The value of an expression in a row; truth values are zero and one.
fn eval(arena: &Arena<AExpr>, node: Node, row: &Row) -> i64 {
    match arena.get(node) {
        AExpr::Column(name) => {
            row.iter().find(|(column, _)| column.as_str() == &**name).expect("a column").1
        }
        AExpr::Literal(LiteralValue::Scalar(text)) => text.parse().unwrap(),
        AExpr::Alias(expr, _) => eval(arena, *expr, row),
        AExpr::BinaryExpr { left, op, right } => {
            let (a, b) = (eval(arena, *left, row), eval(arena, *right, row));
            match op {
                Operator::Plus => a + b,
                Operator::Gt => (a > b) as i64,
                Operator::Lt => (a < b) as i64,
                Operator::And => (a != 0 && b != 0) as i64,
                other => panic!("{:?}", other),
            }
        }
        AExpr::Ternary { predicate, truthy, falsy } => {
            if eval(arena, *predicate, row) != 0 {
                eval(arena, *truthy, row)
            } else {
                eval(arena, *falsy, row)
            }
        }
        other => panic!("{:?}", other),
    }
}

/// Pushes `predicates` past `projections` and checks on many rows that the same ones are kept. Gives
/// back how many predicates are local ones, and the keys of those that go on.
fn push(
    arena: &mut Arena<AExpr>,
    predicates: &[Node],
    projections: &[Node],
    output_names: &[&str],
    columns: &[&str],
    keeps_input: bool,
) -> (usize, Vec<String>) {
    let mut acc = gather(arena, predicates);
    let size = arena.items.len();
    let before = format!("{:?}", arena.items);
    let (local, same) = rewrite_projection_node(
        arena,
        &schema(columns),
        &mut acc,
        projections.to_vec(),
        &names(output_names),
    );
    assert_eq!(same, projections);
    for (key, node) in acc.entries() {
        let read = leaves(arena, node);
        for name in output_names.iter().chain(columns) {
            assert_eq!(key_has_name(&key, name), read.iter().any(|column| column == name));
        }
    }
    assert_eq!(format!("{:?}", &arena.items[..size]), before);
    let mut input: Row = columns.iter().map(|name| (name.to_string(), 0)).collect();
    for number in 0..4i64.pow(columns.len() as u32) {
        for (i, column) in input.iter_mut().enumerate() {
            column.1 = number / 4i64.pow(i as u32) % 4;
        }
        let mut output: Row = Vec::new();
        for (projection, name) in projections.iter().zip(output_names) {
            output.push((name.to_string(), eval(arena, *projection, &input)));
        }
        if keeps_input {
            for (name, value) in &input {
                if !output_names.contains(&name.as_str()) {
                    output.push((name.clone(), *value));
                }
            }
        }
        let wanted = predicates.iter().all(|node| eval(arena, *node, &output) != 0);
        let kept = local.iter().all(|node| eval(arena, *node, &output) != 0)
            && acc.entries().iter().all(|entry| eval(arena, entry.1, &input) != 0);
        assert_eq!(kept, wanted, "{:?}", input);
    }
    (local.len(), keys(&acc))
}

#[test]
fn conjunctions_are_added_at_the_end() {
    let mut arena: Arena<AExpr> = Arena::new();
    let a = gt(&mut arena, "a", 1);
    let b = gt(&mut arena, "b", 1);
    let size = arena.items.len();
    let both = a.and(b, &mut arena);
    assert_eq!(both, Node(size));
    assert!(matches!(
        arena.get(both),
        AExpr::BinaryExpr { left, op: Operator::And, right } if *left == a && *right == b
    ));
}

#[test]
fn predicates_are_combined_not_overwritten() {
    let mut arena: Arena<AExpr> = Arena::new();
    let first = gt(&mut arena, "a", 1);
    let second = gt(&mut arena, "a", 2);
    let other = gt(&mut arena, "b", 3);
    let mut acc = Predicates::new();
    insert_and_combine_predicate(&mut acc, first, &mut arena);
    insert_and_combine_predicate(&mut acc, other, &mut arena);
    assert_eq!(acc.get("a"), Some(first));
    assert_eq!(acc.get("b"), Some(other));
    let size = arena.items.len();
    insert_and_combine_predicate(&mut acc, second, &mut arena);
    assert_eq!(arena.items.len(), size + 1);
    assert_eq!(acc.get("a"), Some(Node(size)));
    assert!(matches!(
        arena.get(Node(size)),
        AExpr::BinaryExpr { left, op: Operator::And, right } if *left == second && *right == first
    ));
    assert_eq!(keys(&acc), ["a", "b"]);
    for value in 0..5 {
        let row = row(&[("a", value), ("b", 4)]);
        assert_eq!(eval(&arena, Node(size), &row) != 0, value > 2);
    }
}

#[test]
fn predicates_are_combined_from_left_to_right() {
    let mut arena: Arena<AExpr> = Arena::new();
    let a = gt(&mut arena, "a", 0);
    let b = gt(&mut arena, "b", 0);
    let c = gt(&mut arena, "c", 0);
    let size = arena.items.len();
    assert_eq!(combine_predicates(vec![a], &mut arena), a);
    assert_eq!(arena.items.len(), size);
    assert_eq!(combine_predicates(vec![a, b, c], &mut arena), Node(size + 1));
    assert!(matches!(
        arena.get(Node(size)),
        AExpr::BinaryExpr { left, op: Operator::And, right } if *left == a && *right == b
    ));
    assert!(matches!(
        arena.get(Node(size + 1)),
        AExpr::BinaryExpr { left, op: Operator::And, right }
            if *left == Node(size) && *right == c
    ));
    let all = row(&[("a", 1), ("b", 1), ("c", 1)]);
    let some = row(&[("a", 1), ("b", 1), ("c", 0)]);
    assert_eq!(eval(&arena, Node(size + 1), &all), 1);
    assert_eq!(eval(&arena, Node(size + 1), &some), 0);
}

#[test]
fn the_predicate_of_a_scan_comes_last() {
    let mut arena: Arena<AExpr> = Arena::new();
    let a = gt(&mut arena, "a", 0);
    let b = gt(&mut arena, "b", 0);
    let own = gt(&mut arena, "c", 0);
    let size = arena.items.len();
    assert_eq!(combine_at_scan(vec![], Some(own), &mut arena), None);
    assert_eq!(combine_at_scan(vec![a], None, &mut arena), Some(a));
    assert_eq!(arena.items.len(), size);
    assert_eq!(combine_at_scan(vec![a, b], Some(own), &mut arena), Some(Node(size + 1)));
    assert!(matches!(
        arena.get(Node(size + 1)),
        AExpr::BinaryExpr { left, op: Operator::And, right }
            if *left == Node(size) && *right == own
    ));
}

#[test]
fn all_predicates_go_into_a_scan() {
    let mut arena: Arena<AExpr> = Arena::new();
    let a = gt(&mut arena, "a", 0);
    let b = gt(&mut arena, "b", 1);
    let own = gt(&mut arena, "c", 2);
    assert_eq!(predicate_at_scan(Predicates::new(), Some(own), &mut arena), None);
    assert_eq!(predicate_at_scan(Predicates::new(), None, &mut arena), None);
    let acc = gather(&mut arena, &[a]);
    assert_eq!(predicate_at_scan(acc, None, &mut arena), Some(a));
    let acc = gather(&mut arena, &[a, b]);
    let combined = predicate_at_scan(acc, Some(own), &mut arena).unwrap();
    for x in 0..4 {
        for y in 0..4 {
            for z in 0..4 {
                let row = row(&[("a", x), ("b", y), ("c", z)]);
                assert_eq!(eval(&arena, combined, &row) != 0, x > 0 && y > 1 && z > 2);
            }
        }
    }
}

#[test]
fn one_predicate_that_refers_to_an_alias_is_kept_back() {
    let mut arena: Arena<AExpr> = Arena::new();
    let ab = lt(&mut arena, "a", "b");
    let bc = lt(&mut arena, "b", "c");
    let cd = lt(&mut arena, "c", "d");
    let mut acc = gather(&mut arena, &[ab, bc, cd]);
    let mut local = vec![cd];
    remove_predicate_refers_to_alias(&mut acc, &mut local, "x");
    assert_eq!(local, vec![cd]);
    assert_eq!(keys(&acc).len(), 3);
    remove_predicate_refers_to_alias(&mut acc, &mut local, "b");
    assert_eq!(local.len(), 2);
    assert_eq!(local[0], cd);
    assert_eq!(keys(&acc).len(), 2);
    assert!(acc.get("c\u{1D17A}d").is_some());
    remove_predicate_refers_to_alias(&mut acc, &mut local, "b");
    assert_eq!(keys(&acc), ["c\u{1D17A}d"]);
    assert_eq!(sorted(local), sorted(vec![cd, ab, bc]));
}

#[test]
fn the_first_entry_with_a_name_is_found() {
    let entries = vec![
        (new_name("a"), Node(0)),
        (new_name("b\u{1D17A}a"), Node(1)),
        (new_name("b"), Node(2)),
    ];
    assert_eq!(first_with_name(&entries, "b"), Some(1));
    assert_eq!(first_with_name(&entries, "a"), Some(0));
    assert_eq!(first_with_name(&entries, "c"), None);
}

#[test]
fn predicates_are_transferred_by_the_columns_they_read() {
    let mut arena: Arena<AExpr> = Arena::new();
    let a = gt(&mut arena, "a", 0);
    let ab = lt(&mut arena, "a", "b");
    let c = gt(&mut arena, "c", 0);
    let one = lit(&mut arena, 1);
    let mut acc = gather(&mut arena, &[a, ab, c, one]);
    let local = transfer_to_local_by_name(&arena, &mut acc, |name: Arc<str>| &*name == "b");
    assert_eq!(local, vec![ab]);
    let local = transfer_to_local_by_name(&arena, &mut acc, |_: Arc<str>| false);
    assert!(local.is_empty());
    let local = transfer_to_local_by_name(&arena, &mut acc, |_: Arc<str>| true);
    assert_eq!(sorted(local), sorted(vec![a, c]));
    assert_eq!(keys(&acc), ["\u{1D17A}"]);
}

#[test]
fn a_condition_is_asked_of_every_column() {
    let mut arena: Arena<AExpr> = Arena::new();
    let ab = lt(&mut arena, "a", "b");
    let cc = lt(&mut arena, "c", "c");
    let d = gt(&mut arena, "d", 0);
    let mut acc = gather(&mut arena, &[ab, cc, d]);
    let mut asked: Vec<String> = Vec::new();
    let local = transfer_to_local_by_name(&arena, &mut acc, |name: Arc<str>| {
        asked.push(name.to_string());
        &*name == "a" || &*name == "c"
    });
    assert_eq!(sorted(local), sorted(vec![ab, cc]));
    assert_eq!(keys(&acc), ["d"]);
    let first = asked.iter().position(|name| name == "a").unwrap();
    assert_eq!(asked[first + 1], "b");
    asked.sort();
    assert_eq!(asked, ["a", "b", "c", "c", "d"]);
}

#[test]
fn a_condition_may_change_its_mind() {
    let mut arena: Arena<AExpr> = Arena::new();
    let ab = lt(&mut arena, "a", "b");
    let cd = lt(&mut arena, "c", "d");
    let mut acc = gather(&mut arena, &[ab, cd]);
    let mut answer = false;
    let local = transfer_to_local_by_name(&arena, &mut acc, |_: Arc<str>| {
        answer = !answer;
        answer
    });
    // Two columns each: the first answer is yes and the second no, for both.
    assert_eq!(sorted(local), sorted(vec![ab, cd]));
    assert!(acc.is_empty());
    assert!(!answer);
}

#[test]
fn predicates_on_what_a_projection_modifies_are_kept_back() {
    let mut arena: Arena<AExpr> = Arena::new();
    let a = gt(&mut arena, "a", 0);
    let ab = lt(&mut arena, "a", "b");
    let c = gt(&mut arena, "c", 0);
    let column = col(&mut arena, "a");
    let exploded = arena.add(AExpr::Explode(column));
    let mut acc = gather(&mut arena, &[a, ab, c]);
    let mut local = vec![c];
    no_pushdown_preds(
        column,
        &arena,
        |e: &AExpr| matches!(e, AExpr::Explode(_)),
        &mut local,
        &mut acc,
    );
    assert_eq!(local, vec![c]);
    assert_eq!(keys(&acc).len(), 3);
    no_pushdown_preds(
        exploded,
        &arena,
        |e: &AExpr| matches!(e, AExpr::Explode(_)),
        &mut local,
        &mut acc,
    );
    assert_eq!(local[0], c);
    assert_eq!(sorted(local), sorted(vec![c, a, ab]));
    assert_eq!(keys(&acc), ["c"]);
}

#[test]
fn the_predicate_on_an_alias_is_renamed() {
    let mut arena: Arena<AExpr> = Arena::new();
    let predicate = gt(&mut arena, "B", 1);
    let projection = renamed(&mut arena, "A", "B");
    let mut acc = gather(&mut arena, &[predicate]);
    let mut local = Vec::new();
    let behavior = rename_predicate_columns_due_to_aliased_projection(
        &mut arena,
        &mut acc,
        projection,
        true,
        &mut local,
    );
    assert_eq!(behavior, LoopBehavior::Nothing);
    assert!(local.is_empty());
    assert_eq!(keys(&acc), ["A"]);
    let copy = acc.get("A").unwrap();
    assert_ne!(copy, predicate);
    assert_eq!(leaves(&arena, copy), ["A"]);
    assert_eq!(leaves(&arena, predicate), ["B"]);
    assert_eq!(eval(&arena, copy, &row(&[("A", 2)])), 1);
    assert_eq!(eval(&arena, copy, &row(&[("A", 1)])), 0);
}

#[test]
fn a_renamed_predicate_joins_the_one_that_is_there() {
    let mut arena: Arena<AExpr> = Arena::new();
    let upper = gt(&mut arena, "B", 1);
    let there = gt(&mut arena, "A", 2);
    let projection = renamed(&mut arena, "A", "B");
    let mut acc = gather(&mut arena, &[upper, there]);
    let mut local = Vec::new();
    rename_predicate_columns_due_to_aliased_projection(
        &mut arena,
        &mut acc,
        projection,
        true,
        &mut local,
    );
    assert_eq!(keys(&acc), ["A"]);
    let both = acc.get("A").unwrap();
    match arena.get(both) {
        AExpr::BinaryExpr { left, op: Operator::And, right } => {
            assert_eq!(leaves(&arena, *left), ["A"]);
            assert_eq!(*right, there);
        }
        other => panic!("{:?}", other),
    }
}

#[test]
fn the_predicate_on_an_alias_that_cannot_be_renamed_is_kept_back() {
    let mut arena: Arena<AExpr> = Arena::new();
    let predicate = gt(&mut arena, "B", 1);
    let compound = lt(&mut arena, "B", "C");
    let projection = increased(&mut arena, "A", "B");
    let mut acc = gather(&mut arena, &[predicate, compound]);
    let mut local = Vec::new();
    let behavior = rename_predicate_columns_due_to_aliased_projection(
        &mut arena,
        &mut acc,
        projection,
        false,
        &mut local,
    );
    assert_eq!(behavior, LoopBehavior::Continue);
    assert_eq!(local, vec![predicate, compound]);
    assert!(acc.is_empty());
}

#[test]
fn several_columns_behind_an_alias_keep_the_predicate_back() {
    let mut arena: Arena<AExpr> = Arena::new();
    let predicate = gt(&mut arena, "S", 1);
    let a = col(&mut arena, "A");
    let b = col(&mut arena, "B");
    let total = binary(&mut arena, a, Operator::Plus, b);
    let projection = alias(&mut arena, total, "S");
    let mut acc = gather(&mut arena, &[predicate]);
    let mut local = Vec::new();
    let behavior = rename_predicate_columns_due_to_aliased_projection(
        &mut arena,
        &mut acc,
        projection,
        true,
        &mut local,
    );
    assert_eq!(behavior, LoopBehavior::Nothing);
    assert_eq!(local, vec![predicate]);
    assert!(acc.is_empty());
}

#[test]
fn local_predicates_are_not_looked_at() {
    let mut arena: Arena<AExpr> = Arena::new();
    let predicate = gt(&mut arena, "B", 1);
    let projection = increased(&mut arena, "A", "B");
    let mut acc = gather(&mut arena, &[predicate]);
    let elsewhere = Node(1000);
    let mut local = vec![elsewhere];
    rename_predicate_columns_due_to_aliased_projection(
        &mut arena,
        &mut acc,
        projection,
        false,
        &mut local,
    );
    assert_eq!(local, vec![elsewhere, predicate]);
}

#[test]
fn nothing_happens_without_an_alias_or_a_column() {
    let mut arena: Arena<AExpr> = Arena::new();
    let predicate = gt(&mut arena, "B", 1);
    let column = col(&mut arena, "B");
    let one = lit(&mut arena, 1);
    let literal = alias(&mut arena, one, "B");
    let mut acc = gather(&mut arena, &[predicate]);
    let mut local = Vec::new();
    for projection in [column, literal] {
        let behavior = rename_predicate_columns_due_to_aliased_projection(
            &mut arena,
            &mut acc,
            projection,
            false,
            &mut local,
        );
        assert_eq!(behavior, LoopBehavior::Nothing);
        assert!(local.is_empty());
        assert_eq!(acc.get("B"), Some(predicate));
    }
}

#[test]
fn predicates_go_past_columns() {
    let mut arena: Arena<AExpr> = Arena::new();
    let a = gt(&mut arena, "A", 1);
    let ab = lt(&mut arena, "A", "B");
    let column_a = col(&mut arena, "A");
    let column_b = col(&mut arena, "B");
    let result =
        push(&mut arena, &[a, ab], &[column_a, column_b], &["A", "B"], &["A", "B", "C"], false);
    assert_eq!(result, (0, vec!["A".to_string(), "A\u{1D17A}B".to_string()]));
}

#[test]
fn predicates_go_past_renamed_columns() {
    let mut arena: Arena<AExpr> = Arena::new();
    let x = gt(&mut arena, "X", 1);
    let y = gt(&mut arena, "Y", 2);
    let b = gt(&mut arena, "B", 0);
    let first = renamed(&mut arena, "A", "X");
    let second = renamed(&mut arena, "B", "Y");
    let result = push(&mut arena, &[x, y], &[first, second], &["X", "Y"], &["A", "B"], false);
    assert_eq!(result, (0, vec!["A".to_string(), "B".to_string()]));
    let result = push(&mut arena, &[x, y, b], &[first, second], &["X", "Y"], &["A", "B"], true);
    assert_eq!(result, (0, vec!["A".to_string(), "B".to_string()]));
}

#[test]
fn predicates_go_past_chains_of_aliases() {
    let mut arena: Arena<AExpr> = Arena::new();
    let c = gt(&mut arena, "C", 1);
    let inner = renamed(&mut arena, "A", "B");
    let projection = alias(&mut arena, inner, "C");
    let result = push(&mut arena, &[c], &[projection], &["C"], &["A"], false);
    assert_eq!(result, (0, vec!["A".to_string()]));
}

#[test]
fn predicates_on_computed_columns_stay() {
    let mut arena: Arena<AExpr> = Arena::new();
    let b = gt(&mut arena, "B", 1);
    let bc = lt(&mut arena, "B", "C");
    let c = gt(&mut arena, "C", 1);
    let projection = increased(&mut arena, "A", "B");
    let result = push(&mut arena, &[b, bc, c], &[projection], &["B"], &["A", "B", "C"], true);
    assert_eq!(result, (2, vec!["C".to_string()]));
    let without = push(&mut arena, &[bc, c], &[projection], &["B"], &["A", "B", "C"], true);
    assert_eq!(without, (1, vec!["C".to_string()]));
}

#[test]
fn predicates_on_literals_stay() {
    let mut arena: Arena<AExpr> = Arena::new();
    let l = gt(&mut arena, "L", 1);
    let la = lt(&mut arena, "L", "A");
    let a = gt(&mut arena, "A", 1);
    let two = lit(&mut arena, 2);
    let projection = alias(&mut arena, two, "L");
    let result = push(&mut arena, &[l, la, a], &[projection], &["L"], &["A"], true);
    assert_eq!(result, (2, vec!["A".to_string()]));
}

#[test]
fn predicates_on_a_replaced_column_stay() {
    let mut arena: Arena<AExpr> = Arena::new();
    let a = gt(&mut arena, "A", 2);
    let ab = lt(&mut arena, "A", "B");
    let b = gt(&mut arena, "B", 1);
    let expr = col(&mut arena, "A");
    let one = lit(&mut arena, 1);
    let projection = binary(&mut arena, expr, Operator::Plus, one);
    let result = push(&mut arena, &[a, ab, b], &[projection], &["A"], &["A", "B"], true);
    assert_eq!(result, (2, vec!["B".to_string()]));
}

#[test]
fn one_compound_predicate_on_an_alias_stays() {
    let mut arena: Arena<AExpr> = Arena::new();
    let x = gt(&mut arena, "X", 1);
    let xb = lt(&mut arena, "X", "B");
    let projection = renamed(&mut arena, "A", "X");
    let result = push(&mut arena, &[x, xb], &[projection], &["X"], &["A", "B", "X"], true);
    assert_eq!(result, (1, vec!["A".to_string()]));
}

#[test]
fn compound_predicates_on_a_column_that_the_input_lacks_stay() {
    let mut arena: Arena<AExpr> = Arena::new();
    let xb = lt(&mut arena, "X", "B");
    let xc = lt(&mut arena, "X", "C");
    let projection = renamed(&mut arena, "A", "X");
    let result = push(&mut arena, &[xb, xc], &[projection], &["X"], &["A", "B", "C"], true);
    assert_eq!(result, (2, vec![]));
}

#[test]
fn predicates_on_the_columns_of_a_ternary_stay() {
    let mut arena: Arena<AExpr> = Arena::new();
    let a = gt(&mut arena, "A", 1);
    let b = gt(&mut arena, "B", 1);
    let c = gt(&mut arena, "C", 1);
    let t = gt(&mut arena, "T", 0);
    let test = gt(&mut arena, "A", 2);
    let truthy = col(&mut arena, "B");
    let falsy = lit(&mut arena, 1);
    let projection = arena.add(AExpr::Ternary { predicate: test, truthy, falsy });
    let result = push(&mut arena, &[a, b, c, t], &[projection], &["T"], &["A", "B", "C"], true);
    assert_eq!(result, (3, vec!["C".to_string()]));
}

#[test]
fn predicates_on_an_exploded_column_stay() {
    let mut arena: Arena<AExpr> = Arena::new();
    let a = gt(&mut arena, "A", 1);
    let b = gt(&mut arena, "B", 1);
    let column = col(&mut arena, "A");
    let projection = arena.add(AExpr::Explode(column));
    let mut acc = gather(&mut arena, &[a, b]);
    let (local, projections) = rewrite_projection_node(
        &mut arena,
        &schema(&["A", "B"]),
        &mut acc,
        vec![projection],
        &names(&["A"]),
    );
    assert_eq!(local, vec![a]);
    assert_eq!(projections, vec![projection]);
    assert_eq!(keys(&acc), ["B"]);
}

#[test]
fn a_projection_that_is_done_with_keeps_no_other_predicate_back() {
    let mut arena: Arena<AExpr> = Arena::new();
    let t = gt(&mut arena, "T", 0);
    let a = gt(&mut arena, "A", 1);
    let test = gt(&mut arena, "A", 2);
    let truthy = col(&mut arena, "B");
    let falsy = lit(&mut arena, 1);
    let ternary = arena.add(AExpr::Ternary { predicate: test, truthy, falsy });
    let projection = alias(&mut arena, ternary, "T");
    let result = push(&mut arena, &[t, a], &[projection], &["T"], &["A", "B"], true);
    assert_eq!(result, (1, vec!["A".to_string()]));
}

#[test]
fn a_predicate_that_was_left_may_become_local_later() {
    let mut arena: Arena<AExpr> = Arena::new();
    let xb = lt(&mut arena, "X", "B");
    let xc = lt(&mut arena, "X", "C");
    let first = renamed(&mut arena, "A", "X");
    let test = gt(&mut arena, "B", 1);
    let truthy = col(&mut arena, "C");
    let falsy = lit(&mut arena, 1);
    let second = arena.add(AExpr::Ternary { predicate: test, truthy, falsy });
    let columns = ["A", "B", "C", "X"];
    let result = push(&mut arena, &[xb, xc], &[first, second], &["X", "T"], &columns, true);
    assert_eq!(result, (2, vec![]));
}

#[test]
fn a_renamed_predicate_may_read_a_column_that_was_replaced_before() {
    let mut arena: Arena<AExpr> = Arena::new();
    let b = gt(&mut arena, "B", 1);
    let first = renamed(&mut arena, "C", "A");
    let second = renamed(&mut arena, "A", "B");
    let result =
        push(&mut arena, &[b], &[first, second], &["A", "B"], &["A", "B", "C"], true);
    assert_eq!(result, (0, vec!["A".to_string()]));
}

#[test]
fn aliases_that_swap_columns_rename_twice() {
    let mut arena: Arena<AExpr> = Arena::new();
    let b = gt(&mut arena, "B", 1);
    let first = renamed(&mut arena, "A", "B");
    let second = renamed(&mut arena, "B", "A");
    let mut acc = gather(&mut arena, &[b]);
    let (local, _) = rewrite_projection_node(
        &mut arena,
        &schema(&["A", "B"]),
        &mut acc,
        vec![first, second],
        &names(&["B", "A"]),
    );
    assert!(local.is_empty());
    assert_eq!(keys(&acc), ["B"]);
}

#[test]
fn an_alias_of_its_own_column_keeps_the_predicate_back() {
    let mut arena: Arena<AExpr> = Arena::new();
    let a = gt(&mut arena, "A", 1);
    let projection = renamed(&mut arena, "A", "A");
    let result = push(&mut arena, &[a], &[projection], &["A"], &["A"], false);
    assert_eq!(result, (1, vec![]));
}

#[test]
fn no_projections_change_nothing() {
    let mut arena: Arena<AExpr> = Arena::new();
    let a = gt(&mut arena, "A", 1);
    let result = push(&mut arena, &[a], &[], &[], &["A"], true);
    assert_eq!(result, (0, vec!["A".to_string()]));
}

fn behind(arena: &Arena<AExpr>, node: Node) -> Option<(String, String)> {
    get_maybe_aliased_projection_to_input_name_map(node, arena)
        .map(|pair| (pair.0.to_string(), pair.1.to_string()))
}

#[test]
fn output_names_of_columns() {
    let mut arena: Arena<AExpr> = Arena::new();
    let a = col(&mut arena, "A");
    let b = alias(&mut arena, a, "B");
    let c = alias(&mut arena, b, "C");
    let total = sum(&mut arena, a);
    let d = alias(&mut arena, total, "B");
    assert_eq!(behind(&arena, c), Some(("C".to_string(), "A".to_string())));
    assert_eq!(behind(&arena, b), Some(("B".to_string(), "A".to_string())));
    assert_eq!(behind(&arena, a), Some(("A".to_string(), "A".to_string())));
    assert_eq!(behind(&arena, d), None);
    assert_eq!(behind(&arena, total), None);
}

fn allowed(arena: &Arena<AExpr>, projections: &[Node]) -> Vec<(&'static str, String)> {
    let map = get_allowed_pushdown_names(
        &projections.to_vec(),
        &Predicates::new(),
        Arc::new(schema(&["A", "B", "C", "D"])),
        arena,
    );
    let mut found = Vec::new();
    for name in ["A", "B", "C", "D", "X", "Y", "Z"] {
        if let Some(column) = map.get(name) {
            found.push((name, column.to_string()));
        }
    }
    found
}

fn over(arena: &mut Arena<AExpr>, partition_by: &[&str]) -> Node {
    let input = col(arena, "D");
    let function = sum(arena, input);
    let partition_by = partition_by.iter().map(|name| col(arena, name)).collect();
    arena.add(AExpr::Window { function, partition_by, options: WindowType::Over })
}

#[test]
fn columns_and_aliases_are_allowed() {
    let mut arena: Arena<AExpr> = Arena::new();
    let a = col(&mut arena, "A");
    let x = renamed(&mut arena, "B", "X");
    let more = increased(&mut arena, "C", "Y");
    assert_eq!(allowed(&arena, &[]), vec![]);
    assert_eq!(
        allowed(&arena, &[a, x, more]),
        vec![("A", "A".to_string()), ("X", "B".to_string())]
    );
}

#[test]
fn of_two_projections_with_one_name_the_later_counts() {
    let mut arena: Arena<AExpr> = Arena::new();
    let first = renamed(&mut arena, "A", "X");
    let second = renamed(&mut arena, "B", "X");
    assert_eq!(allowed(&arena, &[first, second]), vec![("X", "B".to_string())]);
    assert_eq!(allowed(&arena, &[second, first]), vec![("X", "A".to_string())]);
}

#[test]
fn aggregations_allow_nothing() {
    let mut arena: Arena<AExpr> = Arena::new();
    let a = col(&mut arena, "A");
    let b = col(&mut arena, "B");
    let total = sum(&mut arena, b);
    let x = alias(&mut arena, total, "X");
    assert_eq!(allowed(&arena, &[a, x]), vec![]);
    assert_eq!(allowed(&arena, &[x, a]), vec![]);
    let shift = arena.add(AExpr::Function {
        input: vec![b],
        function: FunctionExpr::Shift,
        options: FunctionOptions {
            collect_groups: ApplyOptions::GroupWise,
            returns_scalar: false,
        },
    });
    assert_eq!(allowed(&arena, &[a, shift]), vec![]);
    let series =
        arena.add(AExpr::Literal(LiteralValue::Series { name: new_name("s"), len: 4 }));
    assert_eq!(allowed(&arena, &[a, series]), vec![]);
}

#[test]
fn windows_allow_the_columns_they_are_over() {
    let mut arena: Arena<AExpr> = Arena::new();
    let a = col(&mut arena, "A");
    let b = col(&mut arena, "B");
    let x = renamed(&mut arena, "A", "X");
    let z = renamed(&mut arena, "C", "Z");
    let over_a = over(&mut arena, &["A"]);
    let over_ab = over(&mut arena, &["A", "B"]);
    assert_eq!(
        allowed(&arena, &[a, b, x, z, over_ab]),
        vec![("A", "A".to_string()), ("B", "B".to_string()), ("X", "A".to_string())]
    );
    assert_eq!(
        allowed(&arena, &[over_ab, a, b, x, over_a, z]),
        vec![("A", "A".to_string()), ("X", "A".to_string())]
    );
    let one = lit(&mut arena, 1);
    let more = binary(&mut arena, over_a, Operator::Plus, one);
    assert_eq!(allowed(&arena, &[a, b, more]), vec![("A", "A".to_string())]);
}

#[test]
fn disjoint_windows_allow_nothing() {
    let mut arena: Arena<AExpr> = Arena::new();
    let a = col(&mut arena, "A");
    let b = col(&mut arena, "B");
    let over_a = over(&mut arena, &["A"]);
    let over_b = over(&mut arena, &["B"]);
    let over_bc = over(&mut arena, &["B", "C"]);
    let over_nothing = over(&mut arena, &[]);
    assert_eq!(allowed(&arena, &[a, b, over_a, over_b]), vec![]);
    assert_eq!(allowed(&arena, &[a, b, over_bc, over_a]), vec![]);
    assert_eq!(allowed(&arena, &[a, b, over_nothing]), vec![]);
    assert_eq!(allowed(&arena, &[a, b, over_bc, over_b]), vec![("B", "B".to_string())]);
}

#[test]
fn windows_over_expressions_allow_nothing() {
    let mut arena: Arena<AExpr> = Arena::new();
    let a = col(&mut arena, "A");
    let one = lit(&mut arena, 1);
    let more = binary(&mut arena, a, Operator::Plus, one);
    let function = sum(&mut arena, a);
    let window = arena.add(AExpr::Window {
        function,
        partition_by: vec![a, more],
        options: WindowType::Over,
    });
    assert_eq!(allowed(&arena, &[a, window]), vec![]);
}

#[test]
fn rolling_windows_allow_nothing() {
    let mut arena: Arena<AExpr> = Arena::new();
    let a = col(&mut arena, "A");
    let function = sum(&mut arena, a);
    let window = arena.add(AExpr::Window {
        function,
        partition_by: vec![a],
        options: WindowType::Rolling,
    });
    assert_eq!(allowed(&arena, &[a, window]), vec![]);
}

#[test]
fn one_projection_more_takes_names_away() {
    let mut arena: Arena<AExpr> = Arena::new();
    let a = col(&mut arena, "A");
    let b = col(&mut arena, "B");
    let over_ab = over(&mut arena, &["A", "B"]);
    let over_a = over(&mut arena, &["A"]);
    assert_eq!(
        allowed(&arena, &[a, b, over_ab]),
        vec![("A", "A".to_string()), ("B", "B".to_string())]
    );
    assert_eq!(allowed(&arena, &[a, b, over_ab, over_a]), vec![("A", "A".to_string())]);
}
