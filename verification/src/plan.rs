//! Physical plans, as far as calls that cost money are arranged in them, and the
//! rows that a plan gives.
use vstd::prelude::*;

use crate::expression::{
    holds, paid, value_of, values_of, within, Expr, Expression, Meaning, Row, Value,
};

verus! {

/// An expression and the name of the column that it gives.
#[derive(Debug, PartialEq, Eq)]
pub struct NamedExpression {
    pub name: String,
    pub expr: Expression,
}

/// The meaning of a [`NamedExpression`].
pub ghost struct Output {
    pub name: Seq<char>,
    pub expr: Expr,
}

impl View for NamedExpression {
    type V = Output;

    open spec fn view(&self) -> Output {
        Output { name: self.name@, expr: self.expr@ }
    }
}

/// The meanings of some named expressions.
pub open spec fn outputs(list: Seq<NamedExpression>) -> Seq<Output> {
    Seq::new(list.len(), |i: int| list[i]@)
}

/// The expressions of some outputs.
pub open spec fn output_exprs(list: Seq<Output>) -> Seq<Expr> {
    Seq::new(list.len(), |i: int| list[i].expr)
}

/// The names of some outputs.
pub open spec fn output_names(list: Seq<Output>) -> Seq<Seq<char>> {
    Seq::new(list.len(), |i: int| list[i].name)
}

/// A step that hands on rows of its input as they are.
#[derive(Debug, Clone, Copy, PartialEq, Eq, Structural)]
pub enum Stage {
    /// Leaves out the first rows, and gives no more than some.
    GlobalLimit { skip: usize, fetch: Option<usize> },
    /// Gives no more than some rows of each partition.
    LocalLimit { count: usize },
    /// Joins the partitions, and may give no more than some rows.
    CoalescePartitions { fetch: Option<usize> },
    /// Joins small batches, and may give no more than some rows.
    CoalesceBatches { id: usize, fetch: Option<usize> },
    /// Distributes rows over partitions.
    Repartition { id: usize },
    /// Yields to other tasks.
    Cooperative { id: usize },
    /// Joins the partitions, one after the other.
    SerialPartitions,
}

/// What a filter does besides testing its predicate.
#[derive(Debug, PartialEq, Eq)]
pub struct FilterSettings {
    /// The columns that are handed on; all of them where there is none.
    pub projection: Option<Vec<usize>>,
    /// The number of rows after which the filter stops.
    pub fetch: Option<usize>,
    pub batch_size: usize,
    pub selectivity: u8,
}

/// The meaning of a [`FilterSettings`].
pub ghost struct Settings {
    pub projection: Option<Seq<int>>,
    pub fetch: Option<usize>,
    pub batch_size: usize,
    pub selectivity: u8,
}

/// Some places as integers.
pub open spec fn places_of(list: Seq<usize>) -> Seq<int> {
    Seq::new(list.len(), |i: int| list[i] as int)
}

impl View for FilterSettings {
    type V = Settings;

    open spec fn view(&self) -> Settings {
        Settings {
            projection: match self.projection {
                Some(projection) => Some(places_of(projection@)),
                None => None,
            },
            fetch: self.fetch,
            batch_size: self.batch_size,
            selectivity: self.selectivity,
        }
    }
}

/// A physical plan.
#[derive(Debug, PartialEq, Eq)]
pub enum PhysicalPlan {
    /// Adds a column for each call to the columns of its input.
    Async { calls: Vec<NamedExpression>, input: Box<PhysicalPlan> },
    /// The same, with the calls made by the library; on demand, row by row.
    Paid { calls: Vec<NamedExpression>, demand: bool, input: Box<PhysicalPlan> },
    /// Gives a column for each expression.
    Projection { columns: Vec<NamedExpression>, input: Box<PhysicalPlan> },
    /// Gives the rows for which a predicate holds.
    Filter { predicate: Expression, settings: FilterSettings, input: Box<PhysicalPlan> },
    /// Hands on rows as they are.
    Stage { stage: Stage, input: Box<PhysicalPlan> },
    /// Any other step: a scan, a sort, a join, an aggregate.
    Other { id: usize, fields: Vec<String>, children: Vec<PhysicalPlan> },
}

/// The meaning of a [`PhysicalPlan`].
pub ghost enum Plan {
    Async { calls: Seq<Output>, input: Box<Plan> },
    Paid { calls: Seq<Output>, demand: bool, input: Box<Plan> },
    Projection { columns: Seq<Output>, input: Box<Plan> },
    Filter { predicate: Expr, settings: Settings, input: Box<Plan> },
    Stage { stage: Stage, input: Box<Plan> },
    Other { id: int, fields: Seq<Seq<char>>, children: Seq<Plan> },
}

/// A plan without rows or columns.
pub open spec fn nothing() -> Plan {
    Plan::Other { id: 0, fields: Seq::empty(), children: Seq::empty() }
}

impl PhysicalPlan {
    pub open spec fn view(&self) -> Plan
        decreases self,
    {
        match self {
            PhysicalPlan::Async { calls, input } => Plan::Async {
                calls: outputs(calls@),
                input: Box::new(input.view()),
            },
            PhysicalPlan::Paid { calls, demand, input } => Plan::Paid {
                calls: outputs(calls@),
                demand: *demand,
                input: Box::new(input.view()),
            },
            PhysicalPlan::Projection { columns, input } => Plan::Projection {
                columns: outputs(columns@),
                input: Box::new(input.view()),
            },
            PhysicalPlan::Filter { predicate, settings, input } => Plan::Filter {
                predicate: predicate@,
                settings: settings@,
                input: Box::new(input.view()),
            },
            PhysicalPlan::Stage { stage, input } => Plan::Stage {
                stage: *stage,
                input: Box::new(input.view()),
            },
            PhysicalPlan::Other { id, fields, children } => Plan::Other {
                id: *id as int,
                fields: texts_of(fields@),
                children: Seq::new(
                    children@.len(),
                    |i: int|
                        if 0 <= i < children@.len() {
                            children@[i].view()
                        } else {
                            nothing()
                        },
                ),
            },
        }
    }
}

/// The texts of some names.
pub open spec fn texts_of(names: Seq<String>) -> Seq<Seq<char>> {
    Seq::new(names.len(), |i: int| names[i]@)
}

/// The meanings of some plans.
pub open spec fn plans(list: Seq<PhysicalPlan>) -> Seq<Plan> {
    Seq::new(list.len(), |i: int| list[i]@)
}

/// The view of a step with several inputs, by the views of its inputs.
pub broadcast proof fn other_view(value: PhysicalPlan)
    ensures
        value matches PhysicalPlan::Other { id, fields, children } ==> #[trigger] value.view()
            == (Plan::Other { id: id as int, fields: texts_of(fields@), children: plans(children@) }),
{
    if let PhysicalPlan::Other { children, .. } = value {
        assert(value.view()->children =~= plans(children@));
    }
}

/// The columns that a projection of a filter hands on, by their names.
pub open spec fn projected_names(
    names: Seq<Seq<char>>,
    projection: Option<Seq<int>>,
) -> Seq<Seq<char>> {
    match projection {
        None => names,
        Some(places) => Seq::new(places.len(), |i: int| names[places[i]]),
    }
}

/// The names of the columns that a plan gives.
pub open spec fn names(plan: Plan) -> Seq<Seq<char>>
    decreases plan,
{
    match plan {
        Plan::Async { calls, input } => names(*input) + output_names(calls),
        Plan::Paid { calls, input, .. } => names(*input) + output_names(calls),
        Plan::Projection { columns, .. } => output_names(columns),
        Plan::Filter { settings, input, .. } => projected_names(names(*input), settings.projection),
        Plan::Stage { input, .. } => names(*input),
        Plan::Other { fields, .. } => fields,
    }
}

/// The number of columns that a plan gives.
pub open spec fn width(plan: Plan) -> int {
    names(plan).len() as int
}

/// Whether some outputs read only the first columns.
pub open spec fn all_within(list: Seq<Output>, width: int) -> bool {
    forall|i: int| 0 <= i < list.len() ==> within((#[trigger] list[i]).expr, width)
}

/// Whether a projection hands on only columns that there are.
pub open spec fn places_within(projection: Option<Seq<int>>, width: int) -> bool {
    match projection {
        None => true,
        Some(places) => all_below(places, width),
    }
}

/// Whether some places are among the first ones.
pub open spec fn all_below(places: Seq<int>, width: int) -> bool {
    forall|i: int| 0 <= i < places.len() ==> 0 <= (#[trigger] places[i]) < width
}

/// Whether each step of a plan reads only columns that its input has.
pub open spec fn sound(plan: Plan) -> bool
    decreases plan,
{
    match plan {
        Plan::Async { calls, input } => sound(*input) && all_within(calls, width(*input)),
        Plan::Paid { calls, input, .. } => sound(*input) && all_within(calls, width(*input)),
        Plan::Projection { columns, input } => sound(*input) && all_within(columns, width(*input)),
        Plan::Filter { predicate, settings, input } => sound(*input) && within(
            predicate,
            width(*input),
        ) && places_within(settings.projection, width(*input)),
        Plan::Stage { input, .. } => sound(*input),
        Plan::Other { children, .. } => forall|i: int|
            0 <= i < children.len() ==> sound(#[trigger] children[i]),
    }
}

/// Whether one of some calls costs money.
pub open spec fn any_paid(calls: Seq<Output>) -> bool {
    exists|i: int| 0 <= i < calls.len() && paid((#[trigger] calls[i]).expr)
}

/// Whether a plan holds a call that costs money and that the library does not make
/// yet.
pub open spec fn has_paid(plan: Plan) -> bool
    decreases plan,
{
    match plan {
        Plan::Async { calls, input } => any_paid(calls) || has_paid(*input),
        Plan::Paid { input, .. } => has_paid(*input),
        Plan::Projection { input, .. } => has_paid(*input),
        Plan::Filter { input, .. } => has_paid(*input),
        Plan::Stage { input, .. } => has_paid(*input),
        Plan::Other { children, .. } => exists|i: int|
            0 <= i < children.len() && has_paid(#[trigger] children[i]),
    }
}

/// What a plan does not fix: the values of expressions, the rows of other steps by
/// their number, their width and the rows of their inputs, and the places of the
/// rows that a limit keeps of a number of rows.
pub ghost struct World {
    pub meaning: Meaning,
    pub other: spec_fn(int, nat, Seq<Seq<Row>>) -> Seq<Row>,
    pub kept: spec_fn(Stage, nat) -> Seq<int>,
}

impl World {
    /// Limits keep rows that there are, and other steps give rows of their width.
    pub open spec fn sound(self) -> bool {
        &&& forall|limit: Stage, count: nat, i: int|
            0 <= i < (self.kept)(limit, count).len() ==> 0 <= #[trigger] (self.kept)(
                limit,
                count,
            )[i] < count
        &&& forall|id: int, width: nat, inputs: Seq<Seq<Row>>, i: int|
            0 <= i < (self.other)(id, width, inputs).len() ==> (#[trigger] (self.other)(
                id,
                width,
                inputs,
            )[i]).len() == width
    }
}

/// A world in which no step has rows.
pub open spec fn no_rows() -> World {
    World {
        meaning: |id: int, values: Seq<Value>| Value::Missing,
        other: |id: int, width: nat, inputs: Seq<Seq<Row>>| Seq::<Row>::empty(),
        kept: |limit: Stage, count: nat| Seq::<int>::empty(),
    }
}

/// The limit that a step puts on the rows of its input.
pub open spec fn limit_of(stage: Stage) -> Option<Stage> {
    match stage {
        Stage::GlobalLimit { .. } => Some(stage),
        Stage::LocalLimit { .. } => Some(stage),
        Stage::CoalescePartitions { fetch } => fetched(fetch),
        Stage::CoalesceBatches { fetch, .. } => match fetch {
            Some(count) => Some(Stage::LocalLimit { count }),
            None => None,
        },
        Stage::Repartition { .. } => None,
        Stage::Cooperative { .. } => None,
        Stage::SerialPartitions => None,
    }
}

/// The limit of a step that stops after some rows.
pub open spec fn fetched(fetch: Option<usize>) -> Option<Stage> {
    match fetch {
        Some(_) => Some(Stage::GlobalLimit { skip: 0, fetch }),
        None => None,
    }
}

/// The rows that a limit keeps: it goes by their places.
pub open spec fn limited(world: World, limit: Option<Stage>, rows: Seq<Row>) -> Seq<Row> {
    match limit {
        None => rows,
        Some(limit) => {
            let places = (world.kept)(limit, rows.len());
            Seq::new(places.len(), |i: int| rows[places[i]])
        },
    }
}

/// The rows that a test lets through, in their order.
pub open spec fn sifted(keep: spec_fn(Row) -> bool, rows: Seq<Row>) -> Seq<Row>
    decreases rows.len(),
{
    if rows.len() == 0 {
        Seq::empty()
    } else if keep(rows.last()) {
        sifted(keep, rows.drop_last()).push(rows.last())
    } else {
        sifted(keep, rows.drop_last())
    }
}

/// The test of a predicate.
pub open spec fn passes(meaning: Meaning, predicate: Expr) -> spec_fn(Row) -> bool {
    |row: Row| holds(value_of(meaning, predicate, row))
}

/// A row with a value for each call.
pub open spec fn answered(meaning: Meaning, calls: Seq<Output>, row: Row) -> Row {
    row + values_of(meaning, output_exprs(calls), row)
}

/// The columns of a row that a projection of a filter hands on.
pub open spec fn selected(projection: Option<Seq<int>>, row: Row) -> Row {
    match projection {
        None => row,
        Some(places) => Seq::new(places.len(), |i: int| row[places[i]]),
    }
}

/// The rows of a filter, by the rows of its input.
pub open spec fn filtered(
    world: World,
    predicate: Expr,
    settings: Settings,
    input: Seq<Row>,
) -> Seq<Row> {
    limited(world, fetched(settings.fetch), sifted(passes(world.meaning, predicate), input)).map_values(
        |row: Row| selected(settings.projection, row),
    )
}

/// The rows that a plan gives. A step that moves rows between partitions or batches
/// hands on the same rows.
pub open spec fn rows(world: World, plan: Plan) -> Seq<Row>
    decreases plan,
{
    match plan {
        Plan::Async { calls, input } => rows(world, *input).map_values(
            |row: Row| answered(world.meaning, calls, row),
        ),
        Plan::Paid { calls, input, .. } => rows(world, *input).map_values(
            |row: Row| answered(world.meaning, calls, row),
        ),
        Plan::Projection { columns, input } => rows(world, *input).map_values(
            |row: Row| values_of(world.meaning, output_exprs(columns), row),
        ),
        Plan::Filter { predicate, settings, input } => filtered(
            world,
            predicate,
            settings,
            rows(world, *input),
        ),
        Plan::Stage { stage, input } => limited(world, limit_of(stage), rows(world, *input)),
        Plan::Other { id, fields, children } => (world.other)(
            id,
            fields.len(),
            all_rows(world, children),
        ),
    }
}

/// The rows of some plans.
pub open spec fn all_rows(world: World, list: Seq<Plan>) -> Seq<Seq<Row>>
    decreases list,
{
    Seq::new(
        list.len(),
        |i: int|
            if 0 <= i < list.len() {
                rows(world, list[i])
            } else {
                Seq::empty()
            },
    )
}

/// Each row that a test lets through is one of the rows.
pub proof fn sifted_from(keep: spec_fn(Row) -> bool, all: Seq<Row>, i: int) -> (j: int)
    requires
        0 <= i < sifted(keep, all).len(),
    ensures
        0 <= j < all.len(),
        sifted(keep, all)[i] == all[j],
        keep(all[j]),
    decreases all.len(),
{
    if keep(all.last()) && i == sifted(keep, all).len() - 1 {
        all.len() - 1
    } else {
        sifted_from(keep, all.drop_last(), i)
    }
}

/// Testing rows that were made from rows, or making rows from the tested ones.
pub proof fn sifted_made(
    keep: spec_fn(Row) -> bool,
    keep_made: spec_fn(Row) -> bool,
    make: spec_fn(Row) -> Row,
    all: Seq<Row>,
)
    requires
        forall|i: int| 0 <= i < all.len() ==> keep_made(make(#[trigger] all[i])) == keep(all[i]),
    ensures
        sifted(keep_made, all.map_values(make)) == sifted(keep, all).map_values(make),
    decreases all.len(),
{
    let made = all.map_values(make);
    if all.len() > 0 {
        let rest = all.drop_last();
        assert forall|i: int| 0 <= i < rest.len() implies keep_made(make(#[trigger] rest[i]))
            == keep(rest[i]) by {
            assert(rest[i] == all[i]);
        }
        sifted_made(keep, keep_made, make, rest);
        assert(made.drop_last() =~= rest.map_values(make));
        assert(all[all.len() - 1] == all.last());
        assert(made.last() == make(all.last()));
        assert(sifted(keep_made, made) =~= sifted(keep, all).map_values(make));
    } else {
        assert(sifted(keep_made, made) =~= sifted(keep, all).map_values(make));
    }
}

/// Two tests that agree on rows let the same rows through.
pub proof fn sifted_alike(
    keep: spec_fn(Row) -> bool,
    other: spec_fn(Row) -> bool,
    all: Seq<Row>,
)
    requires
        forall|i: int| 0 <= i < all.len() ==> keep(#[trigger] all[i]) == other(all[i]),
    ensures
        sifted(keep, all) == sifted(other, all),
    decreases all.len(),
{
    if all.len() > 0 {
        assert(all[all.len() - 1] == all.last());
        let rest = all.drop_last();
        assert forall|i: int| 0 <= i < rest.len() implies keep(#[trigger] rest[i]) == other(
            rest[i],
        ) by {
            assert(rest[i] == all[i]);
        }
        sifted_alike(keep, other, rest);
    }
}

/// Two tests one after the other are one test.
pub proof fn sifted_twice(
    first: spec_fn(Row) -> bool,
    second: spec_fn(Row) -> bool,
    all: Seq<Row>,
)
    ensures
        sifted(second, sifted(first, all)) == sifted(|row: Row| first(row) && second(row), all),
    decreases all.len(),
{
    if all.len() > 0 {
        sifted_twice(first, second, all.drop_last());
        if first(all.last()) {
            assert(sifted(first, all).drop_last() =~= sifted(first, all.drop_last()));
        }
    }
}

/// A test that lets every row through.
pub proof fn sifted_all(keep: spec_fn(Row) -> bool, all: Seq<Row>)
    requires
        forall|i: int| 0 <= i < all.len() ==> keep(#[trigger] all[i]),
    ensures
        sifted(keep, all) == all,
    decreases all.len(),
{
    if all.len() > 0 {
        assert(all[all.len() - 1] == all.last());
        let rest = all.drop_last();
        assert forall|i: int| 0 <= i < rest.len() implies keep(#[trigger] rest[i]) by {
            assert(rest[i] == all[i]);
        }
        sifted_all(keep, rest);
        assert(rest.push(all.last()) =~= all);
    }
}

/// Each row that a limit keeps is one of the rows.
pub proof fn limited_from(world: World, limit: Option<Stage>, all: Seq<Row>, i: int) -> (j: int)
    requires
        world.sound(),
        0 <= i < limited(world, limit, all).len(),
    ensures
        0 <= j < all.len(),
        limited(world, limit, all)[i] == all[j],
{
    match limit {
        None => i,
        Some(limit) => (world.kept)(limit, all.len())[i],
    }
}

/// Limiting rows that were made from rows, or making rows from the limited ones.
pub proof fn limited_made(
    world: World,
    limit: Option<Stage>,
    make: spec_fn(Row) -> Row,
    all: Seq<Row>,
)
    requires
        world.sound(),
    ensures
        limited(world, limit, all.map_values(make)) == limited(world, limit, all).map_values(make),
{
    let made = all.map_values(make);
    if let Some(limit) = limit {
        let places = (world.kept)(limit, all.len());
        assert forall|i: int| 0 <= i < places.len() implies made[#[trigger] places[i]] == make(
            all[places[i]],
        ) by {
            assert(0 <= (world.kept)(limit, all.len())[i] < all.len());
        }
    }
    assert(limited(world, limit, made) =~= limited(world, limit, all).map_values(make));
}

/// The rows of a plan have a value for each of its columns.
pub proof fn rows_width(world: World, plan: Plan)
    requires
        world.sound(),
    ensures
        forall|i: int|
            0 <= i < rows(world, plan).len() ==> (#[trigger] rows(world, plan)[i]).len() == width(
                plan,
            ),
    decreases plan,
{
    match plan {
        Plan::Async { input, .. } => {
            rows_width(world, *input);
            assert forall|i: int| 0 <= i < rows(world, plan).len() implies (#[trigger] rows(
                world,
                plan,
            )[i]).len() == width(plan) by {
                assert(rows(world, *input)[i].len() == width(*input));
            }
        },
        Plan::Paid { input, .. } => {
            rows_width(world, *input);
            assert forall|i: int| 0 <= i < rows(world, plan).len() implies (#[trigger] rows(
                world,
                plan,
            )[i]).len() == width(plan) by {
                assert(rows(world, *input)[i].len() == width(*input));
            }
        },
        Plan::Projection { input, .. } => {
            rows_width(world, *input);
        },
        Plan::Filter { predicate, settings, input } => {
            rows_width(world, *input);
            let all = rows(world, *input);
            let kept = sifted(passes(world.meaning, predicate), all);
            let few = limited(world, fetched(settings.fetch), kept);
            assert forall|i: int| 0 <= i < rows(world, plan).len() implies (#[trigger] rows(
                world,
                plan,
            )[i]).len() == width(plan) by {
                let j = limited_from(world, fetched(settings.fetch), kept, i);
                let k = sifted_from(passes(world.meaning, predicate), all, j);
                assert(few[i] == all[k]);
            }
        },
        Plan::Stage { stage, input } => {
            rows_width(world, *input);
            assert forall|i: int| 0 <= i < rows(world, plan).len() implies (#[trigger] rows(
                world,
                plan,
            )[i]).len() == width(plan) by {
                let j = limited_from(world, limit_of(stage), rows(world, *input), i);
            }
        },
        Plan::Other { .. } => {},
    }
}

/// The names of some named expressions.
fn names_of(list: &Vec<NamedExpression>, into: &mut Vec<String>)
    ensures
        texts_of(final(into)@) == texts_of(old(into)@) + output_names(outputs(list@)),
{
    let ghost before = into@;
    for at in 0..list.len()
        invariant
            into@.len() == before.len() + at,
            forall|i: int| 0 <= i < before.len() ==> (#[trigger] into@[i])@ == before[i]@,
            forall|i: int|
                before.len() <= i < into@.len() ==> (#[trigger] into@[i])@ == list@[i
                    - before.len()].name@,
    {
        into.push(list[at].name.clone());
    }
    assert(texts_of(into@) =~= texts_of(before) + output_names(outputs(list@)));
}

/// Some named expressions with the same meaning.
pub fn copy_outputs(list: &Vec<NamedExpression>) -> (result: Vec<NamedExpression>)
    ensures
        outputs(result@) == outputs(list@),
{
    let mut result: Vec<NamedExpression> = Vec::new();
    for at in 0..list.len()
        invariant
            result@.len() == at,
            forall|i: int| 0 <= i < at ==> (#[trigger] result@[i])@ == list@[i]@,
    {
        result.push(
            NamedExpression { name: list[at].name.clone(), expr: list[at].expr.copy() },
        );
    }
    assert(outputs(result@) =~= outputs(list@));
    result
}

/// Whether one of some calls costs money.
pub fn any_jev(calls: &Vec<NamedExpression>) -> (yes: bool)
    ensures
        yes == any_paid(outputs(calls@)),
{
    for at in 0..calls.len()
        invariant
            forall|i: int| 0 <= i < at ==> !paid((#[trigger] outputs(calls@)[i]).expr),
    {
        if calls[at].expr.is_jev() {
            assert(paid(outputs(calls@)[at as int].expr));
            return true;
        }
    }
    false
}

/// Whether some named expressions read only the first columns.
fn all_read_within(list: &Vec<NamedExpression>, width: usize) -> (yes: bool)
    ensures
        yes == all_within(outputs(list@), width as int),
{
    for at in 0..list.len()
        invariant
            forall|i: int|
                0 <= i < at ==> within((#[trigger] outputs(list@)[i]).expr, width as int),
    {
        if !list[at].expr.reads_within(width) {
            assert(!within(outputs(list@)[at as int].expr, width as int));
            return false;
        }
    }
    true
}

impl FilterSettings {
    /// Settings of their own with the same meaning.
    pub fn copy(&self) -> (result: FilterSettings)
        ensures
            result@ == self@,
    {
        let projection = match &self.projection {
            None => None,
            Some(places) => {
                let mut copies: Vec<usize> = Vec::new();
                for at in 0..places.len()
                    invariant
                        copies@ == places@.take(at as int),
                {
                    copies.push(places[at]);
                    assert(copies@ =~= places@.take(at as int + 1));
                }
                assert(copies@ =~= places@);
                Some(copies)
            },
        };
        FilterSettings {
            projection,
            fetch: self.fetch,
            batch_size: self.batch_size,
            selectivity: self.selectivity,
        }
    }
}

impl PhysicalPlan {
    /// A plan of its own with the same meaning.
    pub fn copy(&self) -> (result: PhysicalPlan)
        ensures
            result@ == self@,
        decreases self,
    {
        broadcast use other_view;

        match self {
            PhysicalPlan::Async { calls, input } => PhysicalPlan::Async {
                calls: copy_outputs(calls),
                input: Box::new(input.copy()),
            },
            PhysicalPlan::Paid { calls, demand, input } => PhysicalPlan::Paid {
                calls: copy_outputs(calls),
                demand: *demand,
                input: Box::new(input.copy()),
            },
            PhysicalPlan::Projection { columns, input } => PhysicalPlan::Projection {
                columns: copy_outputs(columns),
                input: Box::new(input.copy()),
            },
            PhysicalPlan::Filter { predicate, settings, input } => PhysicalPlan::Filter {
                predicate: predicate.copy(),
                settings: settings.copy(),
                input: Box::new(input.copy()),
            },
            PhysicalPlan::Stage { stage, input } => PhysicalPlan::Stage {
                stage: *stage,
                input: Box::new(input.copy()),
            },
            PhysicalPlan::Other { id, fields, children } => {
                let mut copies: Vec<PhysicalPlan> = Vec::new();
                for at in 0..children.len()
                    invariant
                        decreases_to!(self => children@),
                        copies@.len() == at,
                        forall|i: int| 0 <= i < at ==> (#[trigger] copies@[i])@ == children@[i]@,
                {
                    copies.push(children[at].copy());
                }
                assert(plans(copies@) =~= plans(children@));
                PhysicalPlan::Other { id: *id, fields: copy_texts(fields), children: copies }
            },
        }
    }

    /// The names of the columns that a plan gives.
    pub fn fields(&self) -> (fields: Vec<String>)
        requires
            sound(self@),
        ensures
            texts_of(fields@) == names(self@),
        decreases self,
    {
        broadcast use other_view;

        match self {
            PhysicalPlan::Async { calls, input } => {
                let mut fields = input.fields();
                names_of(calls, &mut fields);
                fields
            },
            PhysicalPlan::Paid { calls, input, .. } => {
                let mut fields = input.fields();
                names_of(calls, &mut fields);
                fields
            },
            PhysicalPlan::Projection { columns, .. } => {
                let mut fields: Vec<String> = Vec::new();
                names_of(columns, &mut fields);
                assert(texts_of(fields@) =~= output_names(outputs(columns@)));
                fields
            },
            PhysicalPlan::Filter { settings, input, .. } => {
                let all = input.fields();
                assert(texts_of(all@).len() == all@.len());
                match &settings.projection {
                    None => all,
                    Some(places) => {
                        let mut fields: Vec<String> = Vec::new();
                        for at in 0..places.len()
                            invariant
                                all_below(places_of(places@), all@.len() as int),
                                fields@.len() == at,
                                forall|i: int|
                                    0 <= i < at ==> (#[trigger] fields@[i])@ == all@[places@[i] as int]@,
                        {
                            assert(places_of(places@)[at as int] < all@.len());
                            fields.push(all[places[at]].clone());
                        }
                        assert(texts_of(fields@) =~= projected_names(
                            texts_of(all@),
                            Some(places_of(places@)),
                        ));
                        fields
                    },
                }
            },
            PhysicalPlan::Stage { input, .. } => input.fields(),
            PhysicalPlan::Other { fields, .. } => copy_texts(fields),
        }
    }

    /// Whether each step of a plan reads only columns that its input has.
    pub fn is_sound(&self) -> (yes: bool)
        ensures
            yes == sound(self@),
        decreases self,
    {
        broadcast use other_view;

        match self {
            PhysicalPlan::Async { calls, input } => input.is_sound() && {
                let fields = input.fields();
                assert(texts_of(fields@).len() == fields@.len());
                all_read_within(calls, fields.len())
            },
            PhysicalPlan::Paid { calls, input, .. } => input.is_sound() && {
                let fields = input.fields();
                assert(texts_of(fields@).len() == fields@.len());
                all_read_within(calls, fields.len())
            },
            PhysicalPlan::Projection { columns, input } => input.is_sound() && {
                let fields = input.fields();
                assert(texts_of(fields@).len() == fields@.len());
                all_read_within(columns, fields.len())
            },
            PhysicalPlan::Filter { predicate, settings, input } => {
                if !input.is_sound() {
                    return false;
                }
                let fields = input.fields();
                assert(texts_of(fields@).len() == fields@.len());
                if !predicate.reads_within(fields.len()) {
                    return false;
                }
                if let Some(places) = &settings.projection {
                    for at in 0..places.len()
                        invariant
                            *self matches PhysicalPlan::Filter { settings: all, input: from, .. }
                                && all == settings && from == input,
                            settings.projection == Some(*places),
                            width(input@) == fields@.len(),
                            forall|i: int| 0 <= i < at ==> (#[trigger] places@[i]) < fields@.len(),
                    {
                        if places[at] >= fields.len() {
                            assert(places_of(places@)[at as int] >= width(input@));
                            assert(!all_below(places_of(places@), width(input@)));
                            return false;
                        }
                    }
                }
                true
            },
            PhysicalPlan::Stage { input, .. } => input.is_sound(),
            PhysicalPlan::Other { children, .. } => {
                for at in 0..children.len()
                    invariant
                        decreases_to!(self => children@),
                        *self matches PhysicalPlan::Other { children: all, .. } && all == children,
                        forall|i: int| 0 <= i < at ==> sound(#[trigger] plans(children@)[i]),
                {
                    if !children[at].is_sound() {
                        proof {
                            other_view(*self);
                            assert(!sound(self@->children[at as int]));
                        }
                        return false;
                    }
                }
                true
            },
        }
    }

    /// Whether a plan holds a call that costs money and that the library does not make
    /// yet.
    pub fn has_jev(&self) -> (yes: bool)
        ensures
            yes == has_paid(self@),
        decreases self,
    {
        broadcast use other_view;

        match self {
            PhysicalPlan::Async { calls, input } => any_jev(calls) || input.has_jev(),
            PhysicalPlan::Paid { input, .. } => input.has_jev(),
            PhysicalPlan::Projection { input, .. } => input.has_jev(),
            PhysicalPlan::Filter { input, .. } => input.has_jev(),
            PhysicalPlan::Stage { input, .. } => input.has_jev(),
            PhysicalPlan::Other { children, .. } => {
                for at in 0..children.len()
                    invariant
                        decreases_to!(self => children@),
                        *self matches PhysicalPlan::Other { children: all, .. } && all == children,
                        forall|i: int| 0 <= i < at ==> !has_paid(#[trigger] plans(children@)[i]),
                {
                    if children[at].has_jev() {
                        proof {
                            other_view(*self);
                            assert(has_paid(self@->children[at as int]));
                        }
                        return true;
                    }
                }
                false
            },
        }
    }
}

/// Some names with the same texts.
pub fn copy_texts(list: &Vec<String>) -> (result: Vec<String>)
    ensures
        texts_of(result@) == texts_of(list@),
{
    let mut result: Vec<String> = Vec::new();
    for at in 0..list.len()
        invariant
            result@.len() == at,
            forall|i: int| 0 <= i < at ==> (#[trigger] result@[i])@ == list@[i]@,
    {
        result.push(list[at].clone());
    }
    assert(texts_of(result@) =~= texts_of(list@));
    result
}

} // verus!
