use std::sync::Arc;

use predicate_pushdown::aexpr::{
    AExpr, AggKind, ApplyOptions, BooleanFunction, FunctionExpr, FunctionOptions, LiteralValue,
    Operator, WindowType,
};
use predicate_pushdown::arena::{Arena, Node};
use predicate_pushdown::boundary::{
    aexpr_blocks_predicate_pushdown, check_and_extend_predicate_pd_nodes,
    debug_assert_aexpr_allows_predicate_pushdown, predicate_is_sort_boundary, projection_allows_aliased_predicate_pushdown, shifts_elements,
};
use predicate_pushdown::keys::{key_has_name, predicate_to_key};
use predicate_pushdown::names::{name_in, new_name, same_name};
use predicate_pushdown::rename::rename_aexpr_leaf_names;
use predicate_pushdown::schema::Schema;
use predicate_pushdown::traversal::{aexpr_to_leaf_names, check_input_node, has_aexpr};

const ELEMENT_WISE: FunctionOptions =
    FunctionOptions { collect_groups: ApplyOptions::ElementWise, returns_scalar: false };
const GROUP_WISE: FunctionOptions =
    FunctionOptions { collect_groups: ApplyOptions::GroupWise, returns_scalar: false };
const REDUCTION: FunctionOptions =
    FunctionOptions { collect_groups: ApplyOptions::GroupWise, returns_scalar: true };

fn col(arena: &mut Arena<AExpr>, name: &str) -> Node {
    arena.add(AExpr::Column(new_name(name)))
}

fn lit(arena: &mut Arena<AExpr>, text: &str) -> Node {
    arena.add(AExpr::Literal(LiteralValue::Scalar(new_name(text))))
}

fn series(arena: &mut Arena<AExpr>, len: usize) -> Node {
    arena.add(AExpr::Literal(LiteralValue::Series { name: new_name("s"), len }))
}

fn binary(arena: &mut Arena<AExpr>, left: Node, op: Operator, right: Node) -> Node {
    arena.add(AExpr::BinaryExpr { left, op, right })
}

fn agg(arena: &mut Arena<AExpr>, input: Node, kind: AggKind) -> Node {
    arena.add(AExpr::Agg { input, kind })
}

fn function(
    arena: &mut Arena<AExpr>,
    input: Vec<Node>,
    function: FunctionExpr,
    options: FunctionOptions,
) -> Node {
    arena.add(AExpr::Function { input, function, options })
}

fn is_in(arena: &mut Arena<AExpr>, input: Vec<Node>) -> Node {
    function(arena, input, FunctionExpr::Boolean(BooleanFunction::IsIn), ELEMENT_WISE)
}

fn over(arena: &mut Arena<AExpr>, function: Node, partition_by: Vec<Node>) -> Node {
    arena.add(AExpr::Window { function, partition_by, options: WindowType::Over })
}

fn texts(names: &[Arc<str>]) -> Vec<String> {
    names.iter().map(|name| name.to_string()).collect()
}

#[test]
fn arena_hands_out_places_in_order() {
    let mut arena: Arena<AExpr> = Arena::new();
    let a = col(&mut arena, "a");
    let b = col(&mut arena, "b");
    assert_eq!(a, Node(0));
    assert_eq!(b, Node(1));
    assert!(matches!(arena.get(b), AExpr::Column(name) if &**name == "b"));
}

#[test]
fn names_are_compared_by_their_characters() {
    let a = new_name("a");
    assert!(same_name(&a, "a"));
    assert!(!same_name(&a, "b"));
    let names = vec![new_name("a"), new_name("b")];
    assert!(name_in(&names, "b"));
    assert!(!name_in(&names, "c"));
    assert!(!name_in(&Vec::new(), "a"));
}

#[test]
fn literals_that_project_as_scalars() {
    assert!(LiteralValue::Scalar(new_name("1")).projects_as_scalar());
    assert!(LiteralValue::Series { name: new_name("s"), len: 1 }.projects_as_scalar());
    assert!(!LiteralValue::Series { name: new_name("s"), len: 0 }.projects_as_scalar());
    assert!(!LiteralValue::Series { name: new_name("s"), len: 2 }.projects_as_scalar());
    assert!(LiteralValue::Range { low: 4, high: 5 }.projects_as_scalar());
    assert!(!LiteralValue::Range { low: 4, high: 4 }.projects_as_scalar());
    assert!(!LiteralValue::Range { low: i64::MIN, high: i64::MAX }.projects_as_scalar());
    assert!(!LiteralValue::Range { low: i64::MAX, high: i64::MIN }.projects_as_scalar());
}

#[test]
fn leaf_names_come_from_left_to_right() {
    let mut arena: Arena<AExpr> = Arena::new();
    let a = col(&mut arena, "a");
    let b = col(&mut arena, "b");
    let c = col(&mut arena, "c");
    let one = lit(&mut arena, "1");
    let sum = binary(&mut arena, a, Operator::Plus, one);
    let right = binary(&mut arena, c, Operator::Gt, b);
    let both = binary(&mut arena, sum, Operator::And, right);
    let again = binary(&mut arena, both, Operator::Or, a);
    assert_eq!(texts(&aexpr_to_leaf_names(again, &arena)), ["a", "c", "b", "a"]);
    assert!(aexpr_to_leaf_names(one, &arena).is_empty());
}

#[test]
fn leaf_names_of_every_operation() {
    let mut arena: Arena<AExpr> = Arena::new();
    let a = col(&mut arena, "a");
    let b = col(&mut arena, "b");
    let c = col(&mut arena, "c");
    let nodes = vec![
        (arena.add(AExpr::Explode(a)), vec!["a"]),
        (arena.add(AExpr::Alias(a, new_name("x"))), vec!["a"]),
        (arena.add(AExpr::Cast { expr: a, data_type: new_name("i8"), strict: true }), vec!["a"]),
        (arena.add(AExpr::Sort { expr: a, descending: false }), vec!["a"]),
        (arena.add(AExpr::Gather { expr: a, idx: b, returns_scalar: false }), vec!["a", "b"]),
        (arena.add(AExpr::SortBy { expr: a, by: vec![b, c], descending: false }), vec!["a", "b", "c"]),
        (arena.add(AExpr::Filter { input: a, by: b }), vec!["a", "b"]),
        (arena.add(AExpr::Agg { input: a, kind: AggKind::Mean }), vec!["a"]),
        (arena.add(AExpr::Ternary { predicate: c, truthy: a, falsy: b }), vec!["a", "b", "c"]),
        (
            arena.add(AExpr::AnonymousFunction {
                input: vec![c, a],
                function: new_name("f"),
                options: ELEMENT_WISE,
            }),
            vec!["c", "a"],
        ),
        (arena.add(AExpr::Slice { input: a, offset: b, length: c }), vec!["a", "b", "c"]),
        (arena.add(AExpr::Len), vec![]),
    ];
    for (node, names) in nodes {
        assert_eq!(texts(&aexpr_to_leaf_names(node, &arena)), names);
    }
    let window = over(&mut arena, a, vec![b, c]);
    assert_eq!(texts(&aexpr_to_leaf_names(window, &arena)), ["a", "b", "c"]);
}

#[test]
fn operands_may_stand_behind_what_uses_them() {
    let mut arena: Arena<AExpr> = Arena::new();
    arena.items.push(AExpr::Agg { input: Node(1), kind: AggKind::Max });
    arena.items.push(AExpr::Column(new_name("a")));
    assert_eq!(texts(&aexpr_to_leaf_names(Node(0), &arena)), ["a"]);
    assert!(aexpr_blocks_predicate_pushdown(Node(0), &arena));
    assert!(!aexpr_blocks_predicate_pushdown(Node(1), &arena));
}

#[test]
fn something_is_found_in_the_whole_expression() {
    let mut arena: Arena<AExpr> = Arena::new();
    let a = col(&mut arena, "a");
    let exploded = arena.add(AExpr::Explode(a));
    let one = lit(&mut arena, "1");
    let sum = binary(&mut arena, one, Operator::Plus, exploded);
    assert!(has_aexpr(sum, &arena, |e| matches!(e, AExpr::Explode(_))));
    assert!(has_aexpr(sum, &arena, |e| matches!(e, AExpr::BinaryExpr { .. })));
    assert!(!has_aexpr(sum, &arena, |e| matches!(e, AExpr::Alias(_, _))));
    assert!(!has_aexpr(a, &arena, |e| matches!(e, AExpr::Explode(_))));
}

#[test]
fn input_has_to_have_all_columns() {
    let mut arena: Arena<AExpr> = Arena::new();
    let a = col(&mut arena, "a");
    let b = col(&mut arena, "b");
    let both = binary(&mut arena, a, Operator::Eq, b);
    let schema = Schema { columns: vec![new_name("a"), new_name("c")] };
    assert!(schema.contains("c"));
    assert!(!schema.contains("b"));
    assert!(check_input_node(a, &schema, &arena));
    assert!(!check_input_node(both, &schema, &arena));
    let one = lit(&mut arena, "1");
    assert!(check_input_node(one, &Schema { columns: Vec::new() }, &arena));
}

#[test]
fn keys_hold_the_names_of_columns() {
    let mut arena: Arena<AExpr> = Arena::new();
    let a = col(&mut arena, "a");
    let b = col(&mut arena, "b");
    let both = binary(&mut arena, b, Operator::Eq, a);
    let again = binary(&mut arena, both, Operator::And, b);
    let one = lit(&mut arena, "1");
    assert_eq!(&*predicate_to_key(a, &arena), "a");
    assert_eq!(&*predicate_to_key(both, &arena), "b\u{1D17A}a");
    assert_eq!(&*predicate_to_key(again, &arena), "b\u{1D17A}a\u{1D17A}b");
    assert_eq!(&*predicate_to_key(one, &arena), "\u{1D17A}");
}

#[test]
fn keys_tell_names() {
    assert!(key_has_name("a", "a"));
    assert!(!key_has_name("ab", "a"));
    assert!(key_has_name("b\u{1D17A}a", "a"));
    assert!(key_has_name("b\u{1D17A}a", "b"));
    assert!(key_has_name("b\u{1D17A}mid\u{1D17A}a", "mid"));
    assert!(!key_has_name("b\u{1D17A}mid\u{1D17A}a", "mi"));
    assert!(!key_has_name("b\u{1D17A}a", ""));
    assert!(key_has_name("b\u{1D17A}a", "b\u{1D17A}a"));
    assert!(!key_has_name("c\u{1D17A}b\u{1D17A}a", "b\u{1D17A}a"));
    assert!(!key_has_name("\u{1D17A}", "a"));
    assert!(key_has_name("\u{1D17A}", ""));
    assert!(!key_has_name("", "a"));
    assert!(key_has_name("", ""));
}

#[test]
fn aggregations_block() {
    let mut arena: Arena<AExpr> = Arena::new();
    let a = col(&mut arena, "a");
    let kinds = [
        AggKind::Sum,
        AggKind::Mean,
        AggKind::First,
        AggKind::Last,
        AggKind::Min,
        AggKind::Max,
        AggKind::Count,
        AggKind::NUnique,
    ];
    for kind in kinds {
        let node = agg(&mut arena, a, kind);
        assert!(aexpr_blocks_predicate_pushdown(node, &arena));
        let alias = arena.add(AExpr::Alias(node, new_name("x")));
        let one = lit(&mut arena, "1");
        let sum = binary(&mut arena, one, Operator::Plus, alias);
        assert!(aexpr_blocks_predicate_pushdown(sum, &arena));
    }
}

#[test]
fn sorts_and_positions_block() {
    let mut arena: Arena<AExpr> = Arena::new();
    let a = col(&mut arena, "a");
    let one = lit(&mut arena, "1");
    let blocking = vec![
        AExpr::Sort { expr: a, descending: true },
        AExpr::SortBy { expr: a, by: vec![a], descending: true },
        AExpr::Slice { input: a, offset: one, length: one },
        AExpr::Gather { expr: a, idx: one, returns_scalar: true },
        AExpr::Len,
        AExpr::Window { function: a, partition_by: vec![a], options: WindowType::Over },
        AExpr::AnonymousFunction {
            input: vec![a],
            function: new_name("f"),
            options: GROUP_WISE,
        },
    ];
    for expr in blocking {
        let node = arena.add(expr);
        assert!(aexpr_blocks_predicate_pushdown(node, &arena));
    }
}

#[test]
fn element_wise_expressions_do_not_block() {
    let mut arena: Arena<AExpr> = Arena::new();
    let a = col(&mut arena, "a");
    let one = lit(&mut arena, "1");
    let sum = binary(&mut arena, a, Operator::Plus, one);
    let cast = arena.add(AExpr::Cast { expr: sum, data_type: new_name("i64"), strict: false });
    let abs = function(&mut arena, vec![cast], FunctionExpr::Named(new_name("abs")), ELEMENT_WISE);
    let ternary = arena.add(AExpr::Ternary { predicate: a, truthy: abs, falsy: one });
    let alias = arena.add(AExpr::Alias(ternary, new_name("x")));
    assert!(!aexpr_blocks_predicate_pushdown(alias, &arena));
    let listed = arena.add(AExpr::AnonymousFunction {
        input: vec![a],
        function: new_name("f"),
        options: FunctionOptions {
            collect_groups: ApplyOptions::ApplyList,
            returns_scalar: false,
        },
    });
    assert!(!aexpr_blocks_predicate_pushdown(listed, &arena));
}

#[test]
fn only_the_literal_of_an_is_in_may_have_more_values() {
    let mut arena: Arena<AExpr> = Arena::new();
    let a = col(&mut arena, "a");
    let many = series(&mut arena, 3);
    let one = series(&mut arena, 1);
    assert!(aexpr_blocks_predicate_pushdown(many, &arena));
    assert!(!aexpr_blocks_predicate_pushdown(one, &arena));
    let range = arena.add(AExpr::Literal(LiteralValue::Range { low: 0, high: 3 }));
    assert!(aexpr_blocks_predicate_pushdown(range, &arena));

    let among = is_in(&mut arena, vec![a, many]);
    assert!(!aexpr_blocks_predicate_pushdown(among, &arena));
    let equal = binary(&mut arena, a, Operator::Eq, many);
    assert!(aexpr_blocks_predicate_pushdown(equal, &arena));
    let swapped = is_in(&mut arena, vec![many, a]);
    assert!(aexpr_blocks_predicate_pushdown(swapped, &arena));
    let nested = is_in(&mut arena, vec![equal, many]);
    assert!(aexpr_blocks_predicate_pushdown(nested, &arena));
    let max = agg(&mut arena, a, AggKind::Max);
    let grouped = is_in(&mut arena, vec![max, many]);
    assert!(aexpr_blocks_predicate_pushdown(grouped, &arena));
    let computed = is_in(&mut arena, vec![a, equal]);
    assert!(aexpr_blocks_predicate_pushdown(computed, &arena));
    let same = is_in(&mut arena, vec![many, many]);
    assert!(!aexpr_blocks_predicate_pushdown(same, &arena));
    let alone = is_in(&mut arena, vec![many]);
    assert!(aexpr_blocks_predicate_pushdown(alone, &arena));
}

#[test]
fn operands_that_are_projected_go_on_the_stack() {
    let mut arena: Arena<AExpr> = Arena::new();
    let a = col(&mut arena, "a");
    let b = col(&mut arena, "b");
    let many = series(&mut arena, 3);
    let sum = binary(&mut arena, a, Operator::Plus, b);
    let among = is_in(&mut arena, vec![a, many, b]);
    let total = agg(&mut arena, a, AggKind::Sum);

    let mut stack = vec![total];
    assert!(check_and_extend_predicate_pd_nodes(&mut stack, arena.get(sum), &arena));
    assert_eq!(stack, vec![total, b, a]);

    let mut stack = Vec::new();
    assert!(check_and_extend_predicate_pd_nodes(&mut stack, arena.get(among), &arena));
    assert_eq!(stack, vec![b, a]);

    let mut stack = vec![a];
    assert!(!check_and_extend_predicate_pd_nodes(&mut stack, arena.get(total), &arena));
    assert!(!check_and_extend_predicate_pd_nodes(&mut stack, arena.get(many), &arena));
    assert_eq!(stack, vec![a]);
    assert!(check_and_extend_predicate_pd_nodes(&mut stack, arena.get(a), &arena));
    assert_eq!(stack, vec![a]);
}

#[test]
fn only_the_right_side_of_an_is_in_is_looked_up() {
    let arena: Arena<AExpr> = Arena::new();
    let (a, b) = (Node(7), Node(9));
    let sum = AExpr::BinaryExpr { left: a, op: Operator::Plus, right: b };
    let mut stack = Vec::new();
    assert!(check_and_extend_predicate_pd_nodes(&mut stack, &sum, &arena));
    assert_eq!(stack, vec![b, a]);
    let grouped = AExpr::Function {
        input: vec![a, b],
        function: FunctionExpr::Boolean(BooleanFunction::IsIn),
        options: GROUP_WISE,
    };
    assert!(!check_and_extend_predicate_pd_nodes(&mut stack, &grouped, &arena));
    assert_eq!(stack, vec![b, a]);
}

#[test]
fn what_does_not_block_is_taken_for_granted() {
    let mut arena: Arena<AExpr> = Arena::new();
    let a = col(&mut arena, "a");
    let one = lit(&mut arena, "1");
    let sum = binary(&mut arena, a, Operator::Plus, one);
    assert!(!aexpr_blocks_predicate_pushdown(sum, &arena));
    debug_assert_aexpr_allows_predicate_pushdown(sum, &arena);
}

#[test]
fn predicates_are_renamed_only_through_columns_and_aliases() {
    let mut arena: Arena<AExpr> = Arena::new();
    let a = col(&mut arena, "A");
    let b = arena.add(AExpr::Alias(a, new_name("B")));
    let c = arena.add(AExpr::Alias(b, new_name("C")));
    assert!(projection_allows_aliased_predicate_pushdown(a, &arena));
    assert!(projection_allows_aliased_predicate_pushdown(b, &arena));
    assert!(projection_allows_aliased_predicate_pushdown(c, &arena));
    let sorted = arena.add(AExpr::Sort { expr: a, descending: false });
    let alias = arena.add(AExpr::Alias(sorted, new_name("B")));
    assert!(!projection_allows_aliased_predicate_pushdown(alias, &arena));
    let one = lit(&mut arena, "1");
    assert!(!projection_allows_aliased_predicate_pushdown(one, &arena));
}

#[test]
fn sort_boundaries() {
    let mut arena: Arena<AExpr> = Arena::new();
    let a = col(&mut arena, "a");
    let b = col(&mut arena, "b");
    let shift = function(&mut arena, vec![a], FunctionExpr::Shift, GROUP_WISE);
    let fill = function(&mut arena, vec![a, b], FunctionExpr::ShiftAndFill, ELEMENT_WISE);
    assert!(shifts_elements(shift, &arena));
    assert!(shifts_elements(fill, &arena));
    assert!(!shifts_elements(a, &arena));
    assert!(predicate_is_sort_boundary(shift, &arena));
    assert!(!predicate_is_sort_boundary(fill, &arena));

    let cum_sum = function(&mut arena, vec![a], FunctionExpr::Named(new_name("cum_sum")), GROUP_WISE);
    let one = lit(&mut arena, "1");
    let greater = binary(&mut arena, cum_sum, Operator::Gt, one);
    assert!(predicate_is_sort_boundary(greater, &arena));

    let reduced = function(&mut arena, vec![a], FunctionExpr::Named(new_name("any")), REDUCTION);
    assert!(!predicate_is_sort_boundary(reduced, &arena));
    let anonymous = arena.add(AExpr::AnonymousFunction {
        input: vec![a],
        function: new_name("f"),
        options: GROUP_WISE,
    });
    assert!(predicate_is_sort_boundary(anonymous, &arena));

    let sum = agg(&mut arena, a, AggKind::Sum);
    let summed = over(&mut arena, sum, vec![b]);
    assert!(!predicate_is_sort_boundary(summed, &arena));
    let shifted = over(&mut arena, fill, vec![b]);
    assert!(predicate_is_sort_boundary(shifted, &arena));
    assert!(!predicate_is_sort_boundary(sum, &arena));
}

#[test]
fn renamed_copies_read_the_new_name() {
    let mut arena: Arena<AExpr> = Arena::new();
    let a = col(&mut arena, "a");
    let b = col(&mut arena, "b");
    let one = lit(&mut arena, "1");
    let sum = binary(&mut arena, a, Operator::Plus, one);
    let both = binary(&mut arena, sum, Operator::Lt, b);
    let size = arena.items.len();
    let copy = rename_aexpr_leaf_names(both, &mut arena, new_name("x"));
    assert_eq!(texts(&aexpr_to_leaf_names(copy, &arena)), ["x", "x"]);
    assert_eq!(texts(&aexpr_to_leaf_names(both, &arena)), ["a", "b"]);
    assert_eq!(arena.items.len(), size + 5);
    match arena.get(copy) {
        AExpr::BinaryExpr { left, op: Operator::Lt, right } => {
            assert!(matches!(arena.get(*right), AExpr::Column(name) if &**name == "x"));
            match arena.get(*left) {
                AExpr::BinaryExpr { left, op: Operator::Plus, right } => {
                    assert!(matches!(arena.get(*left), AExpr::Column(name) if &**name == "x"));
                    assert!(matches!(
                        arena.get(*right),
                        AExpr::Literal(LiteralValue::Scalar(text)) if &**text == "1"
                    ));
                }
                other => panic!("{:?}", other),
            }
        }
        other => panic!("{:?}", other),
    }
}

#[test]
fn renamed_copies_keep_the_operation() {
    let mut arena: Arena<AExpr> = Arena::new();
    let a = col(&mut arena, "a");
    let b = col(&mut arena, "b");
    let c = col(&mut arena, "c");
    let originals = vec![
        AExpr::Explode(a),
        AExpr::Alias(a, new_name("y")),
        AExpr::Literal(LiteralValue::Series { name: new_name("s"), len: 3 }),
        AExpr::Literal(LiteralValue::Range { low: 1, high: 4 }),
        AExpr::Cast { expr: a, data_type: new_name("i8"), strict: true },
        AExpr::Sort { expr: a, descending: true },
        AExpr::Gather { expr: a, idx: b, returns_scalar: true },
        AExpr::SortBy { expr: a, by: vec![b, c], descending: true },
        AExpr::Filter { input: a, by: b },
        AExpr::Agg { input: a, kind: AggKind::Std },
        AExpr::Ternary { predicate: a, truthy: b, falsy: c },
        AExpr::AnonymousFunction { input: vec![a, b], function: new_name("f"), options: GROUP_WISE },
        AExpr::Function { input: vec![a], function: FunctionExpr::Shift, options: GROUP_WISE },
        AExpr::Function {
            input: vec![a, b, c],
            function: FunctionExpr::Boolean(BooleanFunction::Named(new_name("all"))),
            options: REDUCTION,
        },
        AExpr::Function {
            input: vec![a, b],
            function: FunctionExpr::Boolean(BooleanFunction::IsIn),
            options: ELEMENT_WISE,
        },
        AExpr::Function { input: vec![], function: FunctionExpr::ShiftAndFill, options: GROUP_WISE },
        AExpr::Function {
            input: vec![a],
            function: FunctionExpr::Named(new_name("abs")),
            options: ELEMENT_WISE,
        },
        AExpr::Window { function: a, partition_by: vec![b, c], options: WindowType::Rolling },
        AExpr::Slice { input: a, offset: b, length: c },
        AExpr::Len,
    ];
    for original in originals {
        let node = arena.add(original);
        let copy = rename_aexpr_leaf_names(node, &mut arena, new_name("x"));
        assert!(copy.0 > node.0);
        let mut inputs = Vec::new();
        arena.get(node).nodes(&mut inputs);
        let mut copies = Vec::new();
        arena.get(copy).nodes(&mut copies);
        assert_eq!(inputs.len(), copies.len());
        for input in &copies {
            assert!(matches!(arena.get(*input), AExpr::Column(name) if &**name == "x"));
        }
        // With the operands of the original it is the original again.
        let back = arena.get(copy).with_inputs(&inputs);
        assert_eq!(format!("{:?}", back), format!("{:?}", arena.get(node)));
    }
}
