//! Expressions as they stand in an arena once wildcards have been expanded: every operand is a
//! [`Node`] of the same arena.

use std::sync::Arc;
use vstd::prelude::*;

use crate::arena::Node;

verus! {

/// The operators of a binary expression.
#[derive(Clone, Copy, Debug, PartialEq, Eq, Structural)]
pub enum Operator {
    Eq,
    EqValidity,
    NotEq,
    NotEqValidity,
    Lt,
    LtEq,
    Gt,
    GtEq,
    Plus,
    Minus,
    Multiply,
    Divide,
    TrueDivide,
    FloorDivide,
    Modulus,
    And,
    Or,
    Xor,
    LogicalAnd,
    LogicalOr,
}

/// A constant.
#[derive(Debug)]
pub enum LiteralValue {
    /// One value, in text form.
    Scalar(Arc<str>),
    /// A column of `len` values.
    Series { name: Arc<str>, len: usize },
    /// The integers from `low` up to, but without, `high`.
    Range { low: i64, high: i64 },
}

impl LiteralValue {
    /// Whether the constant is projected as one value, which fits a frame of any height.
    pub open spec fn is_scalar(self) -> bool {
        match self {
            LiteralValue::Scalar(_) => true,
            LiteralValue::Series { len, .. } => len == 1,
            LiteralValue::Range { low, high } => high - low == 1,
        }
    }

    /// Whether the constant is projected as one value, which fits a frame of any height.
    pub fn projects_as_scalar(&self) -> (scalar: bool)
        ensures
            scalar == self.is_scalar(),
    {
        match self {
            LiteralValue::Scalar(_) => true,
            LiteralValue::Series { len, .. } => *len == 1,
            LiteralValue::Range { low, high } => *low < i64::MAX && *high == *low + 1,
        }
    }
}

impl Clone for LiteralValue {
    fn clone(&self) -> (copy: Self)
        ensures
            copy == *self,
    {
        match self {
            LiteralValue::Scalar(text) => LiteralValue::Scalar(text.clone()),
            LiteralValue::Series { name, len } => {
                LiteralValue::Series { name: name.clone(), len: *len }
            },
            LiteralValue::Range { low, high } => LiteralValue::Range { low: *low, high: *high },
        }
    }
}

/// How a function is applied to the groups of a column.
#[derive(Clone, Copy, Debug, PartialEq, Eq, Structural)]
pub enum ApplyOptions {
    /// To each group as a whole.
    GroupWise,
    /// To each group as a list.
    ApplyList,
    /// To each value by itself.
    ElementWise,
}

/// What is known of a function beside its name.
#[derive(Clone, Copy, Debug, PartialEq, Eq, Structural)]
pub struct FunctionOptions {
    pub collect_groups: ApplyOptions,
    /// The function gives one value for each group, as `sum` and `min` do.
    pub returns_scalar: bool,
}

impl FunctionOptions {
    /// Whether the result depends on which values are grouped together.
    pub open spec fn group_wise(self) -> bool {
        self.collect_groups == ApplyOptions::GroupWise
    }

    /// Whether the result depends on which values are grouped together.
    pub fn is_groups_sensitive(&self) -> (sensitive: bool)
        ensures
            sensitive == self.group_wise(),
    {
        match self.collect_groups {
            ApplyOptions::GroupWise => true,
            _ => false,
        }
    }
}

/// The functions that give a truth value.
#[derive(Debug)]
pub enum BooleanFunction {
    IsIn,
    /// Any other one, by its name.
    Named(Arc<str>),
}

/// The functions of the expression language.
#[derive(Debug)]
pub enum FunctionExpr {
    Boolean(BooleanFunction),
    Shift,
    ShiftAndFill,
    /// Any other one, by its name.
    Named(Arc<str>),
}

impl Clone for FunctionExpr {
    fn clone(&self) -> (copy: Self)
        ensures
            copy == *self,
    {
        match self {
            FunctionExpr::Boolean(BooleanFunction::IsIn) => {
                FunctionExpr::Boolean(BooleanFunction::IsIn)
            },
            FunctionExpr::Boolean(BooleanFunction::Named(name)) => {
                FunctionExpr::Boolean(BooleanFunction::Named(name.clone()))
            },
            FunctionExpr::Shift => FunctionExpr::Shift,
            FunctionExpr::ShiftAndFill => FunctionExpr::ShiftAndFill,
            FunctionExpr::Named(name) => FunctionExpr::Named(name.clone()),
        }
    }
}

/// The aggregations.
#[derive(Clone, Copy, Debug, PartialEq, Eq, Structural)]
pub enum AggKind {
    Min,
    Max,
    Median,
    NUnique,
    First,
    Last,
    Mean,
    Implode,
    Quantile,
    Sum,
    Count,
    Std,
    Var,
    AggGroups,
}

/// The ways in which a window expression is evaluated.
#[derive(Clone, Copy, Debug, PartialEq, Eq, Structural)]
pub enum WindowType {
    /// Over the groups of the partition columns.
    Over,
    /// Over a window that rolls along an index column.
    Rolling,
}

/// An expression whose operands are nodes of an arena.
#[derive(Debug)]
#[allow(inconsistent_fields)]
pub enum AExpr {
    Explode(Node),
    Alias(Node, Arc<str>),
    Column(Arc<str>),
    Literal(LiteralValue),
    BinaryExpr { left: Node, op: Operator, right: Node },
    Cast { expr: Node, data_type: Arc<str>, strict: bool },
    Sort { expr: Node, descending: bool },
    Gather { expr: Node, idx: Node, returns_scalar: bool },
    SortBy { expr: Node, by: Vec<Node>, descending: bool },
    Filter { input: Node, by: Node },
    Agg { input: Node, kind: AggKind },
    Ternary { predicate: Node, truthy: Node, falsy: Node },
    /// A user-defined function.
    AnonymousFunction { input: Vec<Node>, function: Arc<str>, options: FunctionOptions },
    Function { input: Vec<Node>, function: FunctionExpr, options: FunctionOptions },
    Window { function: Node, partition_by: Vec<Node>, options: WindowType },
    Slice { input: Node, offset: Node, length: Node },
    Len,
}

impl AExpr {
    /// The operands, from right to left: put on a stack in this order, the leftmost operand is
    /// the first to be taken off again.
    pub open spec fn inputs(self) -> Seq<Node> {
        match self {
            AExpr::Explode(expr) => seq![expr],
            AExpr::Alias(expr, _) => seq![expr],
            AExpr::Column(_) => seq![],
            AExpr::Literal(_) => seq![],
            AExpr::BinaryExpr { left, op: _, right } => seq![right, left],
            AExpr::Cast { expr, .. } => seq![expr],
            AExpr::Sort { expr, .. } => seq![expr],
            AExpr::Gather { expr, idx, .. } => seq![idx, expr],
            AExpr::SortBy { expr, by, .. } => by@.reverse().push(expr),
            AExpr::Filter { input, by } => seq![by, input],
            AExpr::Agg { input, .. } => seq![input],
            AExpr::Ternary { predicate, truthy, falsy } => seq![predicate, falsy, truthy],
            AExpr::AnonymousFunction { input, .. } => input@.reverse(),
            AExpr::Function { input, .. } => input@.reverse(),
            AExpr::Window { function, partition_by, .. } => partition_by@.reverse().push(function),
            AExpr::Slice { input, offset, length } => seq![length, offset, input],
            AExpr::Len => seq![],
        }
    }

    /// Puts the operands on `container`, the leftmost one last.
    pub fn nodes(&self, container: &mut Vec<Node>)
        ensures
            final(container)@ == old(container)@ + self.inputs(),
    {
        match self {
            AExpr::Explode(expr) | AExpr::Alias(expr, _) => container.push(*expr),
            AExpr::Column(_) | AExpr::Literal(_) | AExpr::Len => {},
            AExpr::BinaryExpr { left, op: _, right } => {
                container.push(*right);
                container.push(*left);
            },
            AExpr::Cast { expr, .. } | AExpr::Sort { expr, .. } => container.push(*expr),
            AExpr::Gather { expr, idx, .. } => {
                container.push(*idx);
                container.push(*expr);
            },
            AExpr::SortBy { expr, by, .. } => {
                push_reversed(container, by);
                container.push(*expr);
            },
            AExpr::Filter { input, by } => {
                container.push(*by);
                container.push(*input);
            },
            AExpr::Agg { input, .. } => container.push(*input),
            AExpr::Ternary { predicate, truthy, falsy } => {
                container.push(*predicate);
                container.push(*falsy);
                container.push(*truthy);
            },
            AExpr::AnonymousFunction { input, .. } | AExpr::Function { input, .. } => {
                push_reversed(container, input);
            },
            AExpr::Window { function, partition_by, .. } => {
                push_reversed(container, partition_by);
                container.push(*function);
            },
            AExpr::Slice { input, offset, length } => {
                container.push(*length);
                container.push(*offset);
                container.push(*input);
            },
        }
        assert(container@ =~= old(container)@ + self.inputs());
    }

    /// Whether the result for one row depends on which other rows are there: aggregations, sorts,
    /// counts, windows, and what picks rows by their position.
    pub open spec fn depends_on_groups(self) -> bool {
        match self {
            AExpr::Function { options, .. } => options.group_wise(),
            AExpr::AnonymousFunction { options, .. } => options.group_wise(),
            AExpr::Sort { .. } => true,
            AExpr::SortBy { .. } => true,
            AExpr::Agg { .. } => true,
            AExpr::Window { .. } => true,
            AExpr::Len => true,
            AExpr::Slice { .. } => true,
            AExpr::Gather { .. } => true,
            _ => false,
        }
    }

    /// Whether the result for one row depends on which other rows are there. Operands are not
    /// looked at.
    pub fn groups_sensitive(&self) -> (sensitive: bool)
        ensures
            sensitive == self.depends_on_groups(),
    {
        match self {
            AExpr::Function { options, .. } | AExpr::AnonymousFunction { options, .. } => {
                options.is_groups_sensitive()
            },
            AExpr::Sort { .. }
            | AExpr::SortBy { .. }
            | AExpr::Agg { .. }
            | AExpr::Window { .. }
            | AExpr::Len
            | AExpr::Slice { .. }
            | AExpr::Gather { .. } => true,
            AExpr::Explode(_)
            | AExpr::Alias(_, _)
            | AExpr::Column(_)
            | AExpr::Literal(_)
            | AExpr::BinaryExpr { .. }
            | AExpr::Ternary { .. }
            | AExpr::Cast { .. }
            | AExpr::Filter { .. } => false,
        }
    }
}

/// Whether `a` and `b` are the same but for the operands, of which they have the same number.
pub open spec fn same_operation(a: AExpr, b: AExpr) -> bool {
    &&& a.inputs().len() == b.inputs().len()
    &&& match (a, b) {
        (AExpr::Explode(_), AExpr::Explode(_)) => true,
        (AExpr::Alias(_, x), AExpr::Alias(_, y)) => x == y,
        (AExpr::Column(x), AExpr::Column(y)) => x == y,
        (AExpr::Literal(x), AExpr::Literal(y)) => x == y,
        (AExpr::BinaryExpr { op: x, .. }, AExpr::BinaryExpr { op: y, .. }) => x == y,
        (
            AExpr::Cast { data_type: x, strict: p, .. },
            AExpr::Cast { data_type: y, strict: q, .. },
        ) => x == y && p == q,
        (AExpr::Sort { descending: x, .. }, AExpr::Sort { descending: y, .. }) => x == y,
        (AExpr::Gather { returns_scalar: x, .. }, AExpr::Gather { returns_scalar: y, .. }) => x
            == y,
        (AExpr::SortBy { descending: x, .. }, AExpr::SortBy { descending: y, .. }) => x == y,
        (AExpr::Filter { .. }, AExpr::Filter { .. }) => true,
        (AExpr::Agg { kind: x, .. }, AExpr::Agg { kind: y, .. }) => x == y,
        (AExpr::Ternary { .. }, AExpr::Ternary { .. }) => true,
        (
            AExpr::AnonymousFunction { function: x, options: p, .. },
            AExpr::AnonymousFunction { function: y, options: q, .. },
        ) => x == y && p == q,
        (
            AExpr::Function { function: x, options: p, .. },
            AExpr::Function { function: y, options: q, .. },
        ) => x == y && p == q,
        (AExpr::Window { options: x, .. }, AExpr::Window { options: y, .. }) => x == y,
        (AExpr::Slice { .. }, AExpr::Slice { .. }) => true,
        (AExpr::Len, AExpr::Len) => true,
        _ => false,
    }
}

impl AExpr {
    /// The same operation on the operands `inputs`, which are given from right to left.
    pub fn with_inputs(&self, inputs: &Vec<Node>) -> (expr: AExpr)
        requires
            inputs@.len() == self.inputs().len(),
        ensures
            same_operation(*self, expr),
            expr.inputs() == inputs@,
    {
        let expr = match self {
            AExpr::Explode(_) => AExpr::Explode(inputs[0]),
            AExpr::Alias(_, name) => AExpr::Alias(inputs[0], name.clone()),
            AExpr::Column(name) => AExpr::Column(name.clone()),
            AExpr::Literal(value) => AExpr::Literal(value.clone()),
            AExpr::BinaryExpr { left: _, op, right: _ } => {
                AExpr::BinaryExpr { left: inputs[1], op: *op, right: inputs[0] }
            },
            AExpr::Cast { expr: _, data_type, strict } => {
                AExpr::Cast { expr: inputs[0], data_type: data_type.clone(), strict: *strict }
            },
            AExpr::Sort { expr: _, descending } => {
                AExpr::Sort { expr: inputs[0], descending: *descending }
            },
            AExpr::Gather { expr: _, idx: _, returns_scalar } => {
                AExpr::Gather {
                    expr: inputs[1],
                    idx: inputs[0],
                    returns_scalar: *returns_scalar,
                }
            },
            AExpr::SortBy { expr: _, by, descending } => {
                AExpr::SortBy {
                    expr: inputs[by.len()],
                    by: reversed(inputs, by.len()),
                    descending: *descending,
                }
            },
            AExpr::Filter { input: _, by: _ } => AExpr::Filter { input: inputs[1], by: inputs[0] },
            AExpr::Agg { input: _, kind } => AExpr::Agg { input: inputs[0], kind: *kind },
            AExpr::Ternary { predicate: _, truthy: _, falsy: _ } => {
                AExpr::Ternary { predicate: inputs[0], truthy: inputs[2], falsy: inputs[1] }
            },
            AExpr::AnonymousFunction { input: _, function, options } => {
                AExpr::AnonymousFunction {
                    input: reversed(inputs, inputs.len()),
                    function: function.clone(),
                    options: *options,
                }
            },
            AExpr::Function { input: _, function, options } => {
                AExpr::Function {
                    input: reversed(inputs, inputs.len()),
                    function: function.clone(),
                    options: *options,
                }
            },
            AExpr::Window { function: _, partition_by, options } => {
                AExpr::Window {
                    function: inputs[partition_by.len()],
                    partition_by: reversed(inputs, partition_by.len()),
                    options: *options,
                }
            },
            AExpr::Slice { input: _, offset: _, length: _ } => {
                AExpr::Slice { input: inputs[2], offset: inputs[1], length: inputs[0] }
            },
            AExpr::Len => AExpr::Len,
        };
        assert(expr.inputs() =~= inputs@);
        expr
    }
}

/// The first `count` of `nodes`, in reverse order.
fn reversed(nodes: &Vec<Node>, count: usize) -> (result: Vec<Node>)
    requires
        count <= nodes@.len(),
    ensures
        result@ == nodes@.take(count as int).reverse(),
{
    let mut result: Vec<Node> = Vec::new();
    let mut i: usize = count;
    while i > 0
        invariant
            i <= count <= nodes@.len(),
            result@ == nodes@.take(count as int).reverse().take(count - i),
        decreases i,
    {
        i -= 1;
        result.push(nodes[i]);
        assert(result@ =~= nodes@.take(count as int).reverse().take(count - i));
    }
    assert(result@ =~= nodes@.take(count as int).reverse());
    result
}

/// Puts `nodes` on `container`, the first one last.
fn push_reversed(container: &mut Vec<Node>, nodes: &Vec<Node>)
    ensures
        final(container)@ == old(container)@ + nodes@.reverse(),
{
    let mut i: usize = nodes.len();
    while i > 0
        invariant
            i <= nodes@.len(),
            container@ == old(container)@ + nodes@.reverse().take(nodes@.len() - i),
        decreases i,
    {
        i -= 1;
        container.push(nodes[i]);
        assert(container@ =~= old(container)@ + nodes@.reverse().take(nodes@.len() - i));
    }
    assert(nodes@.reverse().take(nodes@.len() as int) =~= nodes@.reverse());
}

} // verus!
