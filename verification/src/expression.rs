//! The expressions of a physical plan: what a filter tests, a projection hands on
//! and an asynchronous function is called with.
use vstd::prelude::*;

use crate::text::same;

verus! {

/// An expression over the columns of a row.
#[derive(Debug, PartialEq, Eq)]
pub enum Expression {
    /// A column of the row. Two columns are the same where name and index are.
    Column { name: String, index: usize },
    /// The literal `true`.
    Always,
    /// `left AND right`.
    And(Box<Expression>, Box<Expression>),
    /// Any other node: two nodes with one number differ only in their arguments.
    Node { id: usize, jev: bool, volatile: bool, args: Vec<Expression> },
}

/// The meaning of an [`Expression`].
pub ghost enum Expr {
    Column { name: Seq<char>, index: int },
    Always,
    And { left: Box<Expr>, right: Box<Expr> },
    Node { id: int, jev: bool, volatile: bool, args: Seq<Expr> },
}

impl Expression {
    pub open spec fn view(&self) -> Expr
        decreases self,
    {
        match self {
            Expression::Column { name, index } => Expr::Column { name: name@, index: *index as int },
            Expression::Always => Expr::Always,
            Expression::And(left, right) => Expr::And {
                left: Box::new(left.view()),
                right: Box::new(right.view()),
            },
            Expression::Node { id, jev, volatile, args } => Expr::Node {
                id: *id as int,
                jev: *jev,
                volatile: *volatile,
                args: Seq::new(
                    args@.len(),
                    |i: int|
                        if 0 <= i < args@.len() {
                            args@[i].view()
                        } else {
                            Expr::Always
                        },
                ),
            },
        }
    }
}

/// The meanings of some expressions.
pub open spec fn exprs(list: Seq<Expression>) -> Seq<Expr> {
    Seq::new(list.len(), |i: int| list[i]@)
}

/// The view of a node, by the views of its arguments.
pub broadcast proof fn node_view(value: Expression)
    ensures
        value matches Expression::Node { id, jev, volatile, args } ==> #[trigger] value.view()
            == (Expr::Node { id: id as int, jev, volatile, args: exprs(args@) }),
{
    if let Expression::Node { args, .. } = value {
        assert(value.view()->args =~= exprs(args@));
    }
}

/// Whether an expression reads only the first columns of a row.
pub open spec fn within(expr: Expr, width: int) -> bool
    decreases expr,
{
    match expr {
        Expr::Column { index, .. } => 0 <= index < width,
        Expr::Always => true,
        Expr::And { left, right } => within(*left, width) && within(*right, width),
        Expr::Node { args, .. } => forall|i: int|
            0 <= i < args.len() ==> within(#[trigger] args[i], width),
    }
}

/// Whether a node of an expression may give another value each time.
pub open spec fn unstable(expr: Expr) -> bool
    decreases expr,
{
    match expr {
        Expr::Column { .. } => false,
        Expr::Always => false,
        Expr::And { left, right } => unstable(*left) || unstable(*right),
        Expr::Node { volatile, args, .. } => volatile || exists|i: int|
            0 <= i < args.len() && unstable(#[trigger] args[i]),
    }
}

/// An expression with each column replaced by the expression at its index.
pub open spec fn mapped(expr: Expr, columns: Seq<Expr>) -> Expr
    decreases expr,
{
    match expr {
        Expr::Column { index, .. } => columns[index],
        Expr::Always => Expr::Always,
        Expr::And { left, right } => Expr::And {
            left: Box::new(mapped(*left, columns)),
            right: Box::new(mapped(*right, columns)),
        },
        Expr::Node { id, jev, volatile, args } => Expr::Node {
            id,
            jev,
            volatile,
            args: all_mapped(args, columns),
        },
    }
}

/// Some expressions with each column replaced by the expression at its index.
pub open spec fn all_mapped(list: Seq<Expr>, columns: Seq<Expr>) -> Seq<Expr>
    decreases list,
{
    Seq::new(
        list.len(),
        |i: int|
            if 0 <= i < list.len() {
                mapped(list[i], columns)
            } else {
                Expr::Always
            },
    )
}

/// The parts that an expression joins by `AND`, from left to right.
pub open spec fn conjuncts(expr: Expr) -> Seq<Expr>
    decreases expr,
{
    match expr {
        Expr::And { left, right } => conjuncts(*left) + conjuncts(*right),
        _ => seq![expr],
    }
}

/// Some expressions joined by `AND`, from left to right.
pub open spec fn conjoined(parts: Seq<Expr>) -> Expr
    decreases parts.len(),
{
    if parts.len() == 0 {
        Expr::Always
    } else if parts.len() == 1 {
        parts[0]
    } else {
        Expr::And { left: Box::new(conjoined(parts.drop_last())), right: Box::new(parts.last()) }
    }
}

/// Whether an expression is a call of one of the functions that cost money.
pub open spec fn paid(expr: Expr) -> bool {
    expr matches Expr::Node { jev, .. } && jev
}

/// A value as far as filters tell values apart.
pub ghost enum Value {
    Missing,
    Truth(bool),
    Other(int),
}

/// A row: the values of its columns.
pub type Row = Seq<Value>;

/// The value of a node, by its number and the values of its arguments.
pub type Meaning = spec_fn(int, Seq<Value>) -> Value;

/// `AND` of two values, where an operand may be missing.
pub open spec fn both(left: Value, right: Value) -> Value {
    if left == Value::Truth(false) || right == Value::Truth(false) {
        Value::Truth(false)
    } else if left == Value::Truth(true) && right == Value::Truth(true) {
        Value::Truth(true)
    } else {
        Value::Missing
    }
}

/// Whether a filter keeps a row for which its predicate has a value.
pub open spec fn holds(value: Value) -> bool {
    value == Value::Truth(true)
}

/// The value of an expression for a row.
pub open spec fn value_of(meaning: Meaning, expr: Expr, row: Row) -> Value
    decreases expr,
{
    match expr {
        Expr::Column { index, .. } => row[index],
        Expr::Always => Value::Truth(true),
        Expr::And { left, right } => both(
            value_of(meaning, *left, row),
            value_of(meaning, *right, row),
        ),
        Expr::Node { id, args, .. } => meaning(id, values_of(meaning, args, row)),
    }
}

/// The values of some expressions for a row.
pub open spec fn values_of(meaning: Meaning, list: Seq<Expr>, row: Row) -> Row
    decreases list,
{
    Seq::new(
        list.len(),
        |i: int|
            if 0 <= i < list.len() {
                value_of(meaning, list[i], row)
            } else {
                Value::Missing
            },
    )
}

/// An expression that reads only the first columns has the same value for each row
/// that begins with them.
pub proof fn value_of_prefix(meaning: Meaning, expr: Expr, row: Row, other: Row, width: int)
    requires
        within(expr, width),
        width <= row.len(),
        width <= other.len(),
        forall|i: int| 0 <= i < width ==> row[i] == other[i],
    ensures
        value_of(meaning, expr, row) == value_of(meaning, expr, other),
    decreases expr,
{
    match expr {
        Expr::And { left, right } => {
            value_of_prefix(meaning, *left, row, other, width);
            value_of_prefix(meaning, *right, row, other, width);
        },
        Expr::Node { id, args, .. } => {
            assert forall|i: int| 0 <= i < args.len() implies value_of(
                meaning,
                #[trigger] args[i],
                row,
            ) == value_of(meaning, args[i], other) by {
                value_of_prefix(meaning, args[i], row, other, width);
            }
            assert(values_of(meaning, args, row) =~= values_of(meaning, args, other));
        },
        _ => {},
    }
}

/// Replacing columns by expressions gives the value for the row of their values.
pub proof fn value_of_mapped(meaning: Meaning, expr: Expr, columns: Seq<Expr>, row: Row)
    requires
        within(expr, columns.len() as int),
    ensures
        value_of(meaning, mapped(expr, columns), row) == value_of(
            meaning,
            expr,
            values_of(meaning, columns, row),
        ),
    decreases expr,
{
    let outer = values_of(meaning, columns, row);
    match expr {
        Expr::And { left, right } => {
            value_of_mapped(meaning, *left, columns, row);
            value_of_mapped(meaning, *right, columns, row);
        },
        Expr::Node { id, args, .. } => {
            assert forall|i: int| 0 <= i < args.len() implies value_of(
                meaning,
                mapped(#[trigger] args[i], columns),
                row,
            ) == value_of(meaning, args[i], outer) by {
                value_of_mapped(meaning, args[i], columns, row);
            }
            assert(values_of(meaning, all_mapped(args, columns), row) =~= values_of(
                meaning,
                args,
                outer,
            ));
        },
        _ => {},
    }
}

/// Replacing columns by expressions that read only the first columns.
pub proof fn within_mapped(expr: Expr, columns: Seq<Expr>, width: int)
    requires
        within(expr, columns.len() as int),
        forall|i: int| 0 <= i < columns.len() ==> within(#[trigger] columns[i], width),
    ensures
        within(mapped(expr, columns), width),
    decreases expr,
{
    match expr {
        Expr::And { left, right } => {
            within_mapped(*left, columns, width);
            within_mapped(*right, columns, width);
        },
        Expr::Node { args, .. } => {
            let inner = all_mapped(args, columns);
            assert forall|i: int| 0 <= i < inner.len() implies within(
                #[trigger] inner[i],
                width,
            ) by {
                within_mapped(args[i], columns, width);
            }
        },
        _ => {},
    }
}

/// What reads only the first columns reads only the first of more columns.
pub proof fn within_wider(expr: Expr, width: int, wider: int)
    requires
        within(expr, width),
        width <= wider,
    ensures
        within(expr, wider),
    decreases expr,
{
    match expr {
        Expr::And { left, right } => {
            within_wider(*left, width, wider);
            within_wider(*right, width, wider);
        },
        Expr::Node { args, .. } => {
            assert forall|i: int| 0 <= i < args.len() implies within(#[trigger] args[i], wider) by {
                within_wider(args[i], width, wider);
            }
        },
        _ => {},
    }
}

/// Whether all of some predicates hold for a row.
pub open spec fn all_hold(meaning: Meaning, parts: Seq<Expr>, row: Row) -> bool {
    forall|i: int| 0 <= i < parts.len() ==> holds(value_of(meaning, #[trigger] parts[i], row))
}

/// A predicate holds where all of its parts hold, and they read no more than it.
pub proof fn conjuncts_hold(meaning: Meaning, expr: Expr, row: Row)
    ensures
        holds(value_of(meaning, expr, row)) == all_hold(meaning, conjuncts(expr), row),
    decreases expr,
{
    match expr {
        Expr::And { left, right } => {
            conjuncts_hold(meaning, *left, row);
            conjuncts_hold(meaning, *right, row);
            let a = conjuncts(*left);
            let b = conjuncts(*right);
            let all = a + b;
            if all_hold(meaning, all, row) {
                assert forall|i: int| 0 <= i < a.len() implies holds(
                    value_of(meaning, #[trigger] a[i], row),
                ) by {
                    assert(all[i] == a[i]);
                }
                assert forall|i: int| 0 <= i < b.len() implies holds(
                    value_of(meaning, #[trigger] b[i], row),
                ) by {
                    assert(all[a.len() + i] == b[i]);
                }
            }
        },
        _ => {
            assert(conjuncts(expr)[0] == expr);
        },
    }
}

/// The parts of a predicate read no more than it.
pub proof fn conjuncts_within(expr: Expr, width: int)
    requires
        within(expr, width),
    ensures
        forall|i: int|
            0 <= i < conjuncts(expr).len() ==> within(#[trigger] conjuncts(expr)[i], width),
    decreases expr,
{
    if let Expr::And { left, right } = expr {
        conjuncts_within(*left, width);
        conjuncts_within(*right, width);
        let a = conjuncts(*left);
        let b = conjuncts(*right);
        assert forall|i: int| 0 <= i < conjuncts(expr).len() implies within(
            #[trigger] conjuncts(expr)[i],
            width,
        ) by {
            if i < a.len() {
                assert((a + b)[i] == a[i]);
            } else {
                assert((a + b)[i] == b[i - a.len()]);
            }
        }
    }
}

/// Some predicates joined by `AND` hold where all of them hold.
pub proof fn conjoined_holds(meaning: Meaning, parts: Seq<Expr>, row: Row)
    ensures
        holds(value_of(meaning, conjoined(parts), row)) == all_hold(meaning, parts, row),
    decreases parts.len(),
{
    if parts.len() > 1 {
        let rest = parts.drop_last();
        conjoined_holds(meaning, rest, row);
        if all_hold(meaning, parts, row) {
            assert forall|i: int| 0 <= i < rest.len() implies holds(
                value_of(meaning, #[trigger] rest[i], row),
            ) by {
                assert(rest[i] == parts[i]);
            }
            assert(holds(value_of(meaning, parts[parts.len() - 1], row)));
        } else {
            let bad = choose|i: int|
                0 <= i < parts.len() && !holds(value_of(meaning, #[trigger] parts[i], row));
            if bad < rest.len() {
                assert(rest[bad] == parts[bad]);
            }
        }
    }
}

/// Some predicates joined by `AND` read no more than they do.
pub proof fn conjoined_within(parts: Seq<Expr>, width: int)
    requires
        forall|i: int| 0 <= i < parts.len() ==> within(#[trigger] parts[i], width),
    ensures
        within(conjoined(parts), width),
    decreases parts.len(),
{
    if parts.len() > 1 {
        assert(within(parts[parts.len() - 1], width));
        conjoined_within(parts.drop_last(), width);
    }
}

impl Expression {
    /// An expression of its own with the same meaning.
    pub fn copy(&self) -> (result: Expression)
        ensures
            result@ == self@,
        decreases self,
    {
        broadcast use node_view;

        match self {
            Expression::Column { name, index } => Expression::Column {
                name: name.clone(),
                index: *index,
            },
            Expression::Always => Expression::Always,
            Expression::And(left, right) => Expression::And(
                Box::new(left.copy()),
                Box::new(right.copy()),
            ),
            Expression::Node { id, jev, volatile, args } => {
                let mut copies: Vec<Expression> = Vec::new();
                for at in 0..args.len()
                    invariant
                        decreases_to!(self => args@),
                        copies@.len() == at,
                        forall|i: int| 0 <= i < at ==> (#[trigger] copies@[i])@ == args@[i]@,
                {
                    copies.push(args[at].copy());
                }
                assert(exprs(copies@) =~= exprs(args@));
                Expression::Node { id: *id, jev: *jev, volatile: *volatile, args: copies }
            },
        }
    }

    /// Whether an expression is a call of one of the functions that cost money.
    pub fn is_jev(&self) -> (yes: bool)
        ensures
            yes == paid(self@),
    {
        broadcast use node_view;

        match self {
            Expression::Node { jev, .. } => *jev,
            _ => false,
        }
    }

    /// Whether an expression reads only the first columns of a row.
    pub fn reads_within(&self, width: usize) -> (yes: bool)
        ensures
            yes == within(self@, width as int),
        decreases self,
    {
        broadcast use node_view;

        match self {
            Expression::Column { index, .. } => *index < width,
            Expression::Always => true,
            Expression::And(left, right) => left.reads_within(width) && right.reads_within(width),
            Expression::Node { args, .. } => {
                for at in 0..args.len()
                    invariant
                        decreases_to!(self => args@),
                        *self matches Expression::Node { args: all, .. } && all == args,
                        forall|i: int|
                            0 <= i < at ==> within(#[trigger] exprs(args@)[i], width as int),
                {
                    if !args[at].reads_within(width) {
                        proof {
                            node_view(*self);
                            assert(!within(self@->args[at as int], width as int));
                        }
                        return false;
                    }
                }
                true
            },
        }
    }

    /// Whether a node of an expression may give another value each time.
    pub fn is_volatile(&self) -> (yes: bool)
        ensures
            yes == unstable(self@),
        decreases self,
    {
        broadcast use node_view;

        match self {
            Expression::Column { .. } => false,
            Expression::Always => false,
            Expression::And(left, right) => left.is_volatile() || right.is_volatile(),
            Expression::Node { volatile, args, .. } => {
                if *volatile {
                    return true;
                }
                for at in 0..args.len()
                    invariant
                        decreases_to!(self => args@),
                        *self matches Expression::Node { args: all, .. } && all == args,
                        forall|i: int| 0 <= i < at ==> !unstable(#[trigger] exprs(args@)[i]),
                {
                    if args[at].is_volatile() {
                        proof {
                            node_view(*self);
                            assert(unstable(self@->args[at as int]));
                        }
                        return true;
                    }
                }
                false
            },
        }
    }

    /// The expression with each column replaced by the expression at its index.
    pub fn map_columns(&self, columns: &Vec<Expression>) -> (result: Expression)
        requires
            within(self@, columns@.len() as int),
        ensures
            result@ == mapped(self@, exprs(columns@)),
        decreases self,
    {
        broadcast use node_view;

        match self {
            Expression::Column { index, .. } => columns[*index].copy(),
            Expression::Always => Expression::Always,
            Expression::And(left, right) => Expression::And(
                Box::new(left.map_columns(columns)),
                Box::new(right.map_columns(columns)),
            ),
            Expression::Node { id, jev, volatile, args } => {
                let mut results: Vec<Expression> = Vec::new();
                for at in 0..args.len()
                    invariant
                        decreases_to!(self => args@),
                        forall|i: int|
                            0 <= i < args@.len() ==> within(
                                #[trigger] exprs(args@)[i],
                                columns@.len() as int,
                            ),
                        results@.len() == at,
                        forall|i: int|
                            0 <= i < at ==> (#[trigger] results@[i])@ == mapped(
                                args@[i]@,
                                exprs(columns@),
                            ),
                {
                    assert(within(exprs(args@)[at as int], columns@.len() as int));
                    results.push(args[at].map_columns(columns));
                }
                proof {
                    assert(exprs(results@) =~= all_mapped(exprs(args@), exprs(columns@)));
                }
                Expression::Node { id: *id, jev: *jev, volatile: *volatile, args: results }
            },
        }
    }

    /// Whether two expressions are the same.
    pub fn same_as(&self, other: &Expression) -> (yes: bool)
        ensures
            yes == (self@ == other@),
        decreases self,
    {
        broadcast use node_view;

        match (self, other) {
            (
                Expression::Column { name, index },
                Expression::Column { name: other_name, index: other_index },
            ) => *index == *other_index && same(name.as_str(), other_name.as_str()),
            (Expression::Always, Expression::Always) => true,
            (Expression::And(left, right), Expression::And(other_left, other_right)) => {
                left.same_as(other_left) && right.same_as(other_right)
            },
            (
                Expression::Node { id, jev, volatile, args },
                Expression::Node {
                    id: other_id,
                    jev: other_jev,
                    volatile: other_volatile,
                    args: other_args,
                },
            ) => {
                if *id != *other_id || *jev != *other_jev || *volatile != *other_volatile
                    || args.len() != other_args.len() {
                    assert(exprs(args@).len() == args@.len());
                    assert(exprs(other_args@).len() == other_args@.len());
                    return false;
                }
                for at in 0..args.len()
                    invariant
                        decreases_to!(self => args@),
                        *self matches Expression::Node { args: all, .. } && all == args,
                        *other matches Expression::Node { args: all, .. } && all == other_args,
                        args@.len() == other_args@.len(),
                        forall|i: int| 0 <= i < at ==> (#[trigger] args@[i])@ == other_args@[i]@,
                {
                    if !args[at].same_as(&other_args[at]) {
                        proof {
                            node_view(*self);
                            node_view(*other);
                            assert(exprs(args@)[at as int] != exprs(other_args@)[at as int]);
                        }
                        return false;
                    }
                }
                assert(exprs(args@) =~= exprs(other_args@));
                true
            },
            _ => false,
        }
    }

    /// Adds the parts that an expression joins by `AND`, from left to right.
    fn add_conjuncts(&self, parts: &mut Vec<Expression>)
        ensures
            exprs(final(parts)@) == exprs(old(parts)@) + conjuncts(self@),
        decreases self,
    {
        broadcast use node_view;

        match self {
            Expression::And(left, right) => {
                left.add_conjuncts(parts);
                right.add_conjuncts(parts);
                assert(exprs(old(parts)@) + conjuncts(left@) + conjuncts(right@) =~= exprs(
                    old(parts)@,
                ) + (conjuncts(left@) + conjuncts(right@)));
            },
            _ => {
                parts.push(self.copy());
                assert(exprs(parts@) =~= exprs(old(parts)@) + seq![self@]);
            },
        }
    }

    /// The parts that an expression joins by `AND`, from left to right.
    pub fn split_conjunction(&self) -> (parts: Vec<Expression>)
        ensures
            exprs(parts@) == conjuncts(self@),
    {
        let mut parts: Vec<Expression> = Vec::new();
        self.add_conjuncts(&mut parts);
        assert(exprs(parts@) =~= conjuncts(self@));
        parts
    }
}

/// Some expressions joined by `AND`, from left to right; `true` for none.
pub fn conjunction(parts: &Vec<Expression>) -> (result: Expression)
    ensures
        result@ == conjoined(exprs(parts@)),
{
    if parts.len() == 0 {
        return Expression::Always;
    }
    let ghost all = exprs(parts@);
    let mut result = parts[0].copy();
    proof {
        assert(all.take(1)[0] == all[0]);
    }
    for at in 1..parts.len()
        invariant
            all == exprs(parts@),
            0 < parts@.len(),
            result@ == conjoined(all.take(at as int)),
    {
        proof {
            let longer = all.take(at as int + 1);
            assert(longer.drop_last() =~= all.take(at as int));
            assert(longer.last() == all[at as int]);
        }
        result = Expression::And(Box::new(result), Box::new(parts[at].copy()));
    }
    assert(all.take(parts@.len() as int) =~= all);
    result
}

} // verus!
