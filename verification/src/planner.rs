//! Placing filters below calls that cost money. Only parts of a predicate that do
//! not depend on a judgment move; none moves past a limit, a join, a sort or an
//! aggregate, and no `OR` is split.
use vstd::prelude::*;

use crate::expression::{
    all_hold, conjoined, conjoined_holds, conjoined_within, conjunction, conjuncts, conjuncts_hold,
    conjuncts_within, exprs, holds, mapped, unstable, value_of, value_of_mapped, value_of_prefix,
    values_of, within, within_mapped, Expr, Expression, Row, Value,
};
use crate::plan::{
    all_below, all_rows, answered, any_jev, any_paid, copy_outputs, copy_texts, filtered, has_paid,
    limit_of, names, no_rows, nothing, other_view, output_exprs, outputs, passes, places_of,
    places_within, plans, projected_names, rows, rows_width, selected, sifted, sifted_alike,
    sifted_from, sifted_made, sifted_twice, sound, texts_of, width, FilterSettings, NamedExpression,
    PhysicalPlan, Plan, Settings, Stage, World,
};

verus! {

/// The number of rows that a filter batches by default.
pub const DEFAULT_BATCH_SIZE: usize = 8192;

/// The share of rows that a filter is taken to keep by default.
pub const DEFAULT_SELECTIVITY: u8 = 20;

/// The settings of a filter that only tests its predicate.
pub open spec fn plain_settings() -> Settings {
    Settings {
        projection: None,
        fetch: None,
        batch_size: DEFAULT_BATCH_SIZE,
        selectivity: DEFAULT_SELECTIVITY,
    }
}

/// The columns of the input of a filter, as its projection hands them on.
pub open spec fn handed_on(fields: Seq<Seq<char>>, projection: Option<Seq<int>>) -> Seq<Expr> {
    match projection {
        None => Seq::new(fields.len(), |i: int| Expr::Column { name: fields[i], index: i }),
        Some(places) => Seq::new(
            places.len(),
            |i: int| Expr::Column { name: fields[places[i]], index: places[i] },
        ),
    }
}

/// Whether a predicate moves past a step.
pub open spec fn crossed(stage: Stage) -> bool {
    match stage {
        Stage::CoalescePartitions { fetch } => fetch is None,
        Stage::Repartition { .. } => true,
        Stage::Cooperative { .. } => true,
        _ => false,
    }
}

/// A plan with a predicate moved below its calls that cost money, where it can move.
pub open spec fn below(plan: Plan, predicate: Expr) -> Option<Plan>
    decreases plan,
{
    if unstable(predicate) {
        None
    } else {
        match plan {
            Plan::Async { calls, input } => if any_paid(calls) && within(predicate, width(*input)) {
                Some(
                    Plan::Async {
                        calls,
                        input: Box::new(
                            match below(*input, predicate) {
                                Some(lower) => lower,
                                None => Plan::Filter {
                                    predicate,
                                    settings: plain_settings(),
                                    input,
                                },
                            },
                        ),
                    },
                )
            } else {
                None
            },
            Plan::Projection { columns, input } => match below(
                *input,
                mapped(predicate, output_exprs(columns)),
            ) {
                Some(lower) => Some(Plan::Projection { columns, input: Box::new(lower) }),
                None => None,
            },
            Plan::Filter { predicate: own, settings, input } => if settings.fetch is Some {
                None
            } else {
                match below(
                    *input,
                    mapped(predicate, handed_on(names(*input), settings.projection)),
                ) {
                    Some(lower) => Some(
                        Plan::Filter { predicate: own, settings, input: Box::new(lower) },
                    ),
                    None => None,
                }
            },
            Plan::Stage { stage, input } => if crossed(stage) {
                match below(*input, predicate) {
                    Some(lower) => Some(Plan::Stage { stage, input: Box::new(lower) }),
                    None => None,
                }
            } else {
                None
            },
            _ => None,
        }
    }
}

/// A plan with the parts that can move moved below its calls, and the other parts.
pub open spec fn sorted_out(input: Plan, parts: Seq<Expr>) -> (Plan, Seq<Expr>)
    decreases parts.len(),
{
    if parts.len() == 0 {
        (input, Seq::empty())
    } else {
        let (lower, rest) = sorted_out(input, parts.drop_last());
        match below(lower, parts.last()) {
            Some(lowest) => (lowest, rest),
            None => (lower, rest.push(parts.last())),
        }
    }
}

/// A filter with the parts of its predicate that can move moved below the calls of
/// its input.
pub open spec fn pushed_filter(predicate: Expr, settings: Settings, input: Plan) -> Plan {
    let parts = conjuncts(predicate);
    let (lower, rest) = sorted_out(input, parts);
    if !has_paid(input) || rest.len() == parts.len() {
        Plan::Filter { predicate, settings, input: Box::new(input) }
    } else {
        Plan::Filter { predicate: conjoined(rest), settings, input: Box::new(lower) }
    }
}

/// A plan with what can be tested without a judgment tested before it.
pub open spec fn pushed(plan: Plan) -> Plan
    decreases plan,
{
    match plan {
        Plan::Async { calls, input } => Plan::Async { calls, input: Box::new(pushed(*input)) },
        Plan::Paid { calls, demand, input } => Plan::Paid {
            calls,
            demand,
            input: Box::new(pushed(*input)),
        },
        Plan::Projection { columns, input } => Plan::Projection {
            columns,
            input: Box::new(pushed(*input)),
        },
        Plan::Filter { predicate, settings, input } => pushed_filter(
            predicate,
            settings,
            pushed(*input),
        ),
        Plan::Stage { stage, input } => Plan::Stage { stage, input: Box::new(pushed(*input)) },
        Plan::Other { id, fields, children } => Plan::Other {
            id,
            fields,
            children: all_pushed(children),
        },
    }
}

/// Some plans with what can be tested without a judgment tested before it.
pub open spec fn all_pushed(list: Seq<Plan>) -> Seq<Plan>
    decreases list,
{
    Seq::new(
        list.len(),
        |i: int|
            if 0 <= i < list.len() {
                pushed(list[i])
            } else {
                nothing()
            },
    )
}

/// The columns of a filter's input for each column that it hands on.
proof fn handed_on_columns(plan: Plan, settings: Settings, world: World, row: Row)
    requires
        places_within(settings.projection, width(plan)),
        row.len() == width(plan),
    ensures
        handed_on(names(plan), settings.projection).len() == projected_names(
            names(plan),
            settings.projection,
        ).len(),
        forall|i: int|
            0 <= i < handed_on(names(plan), settings.projection).len() ==> within(
                #[trigger] handed_on(names(plan), settings.projection)[i],
                width(plan),
            ),
        values_of(world.meaning, handed_on(names(plan), settings.projection), row) == selected(
            settings.projection,
            row,
        ),
{
    assert(values_of(world.meaning, handed_on(names(plan), settings.projection), row) =~= selected(
        settings.projection,
        row,
    ));
}

/// A predicate that moves below a plan leaves it sound with the same columns, and
/// keeps the rows for which the predicate holds.
pub proof fn below_filters(world: World, plan: Plan, predicate: Expr)
    requires
        world.sound(),
        sound(plan),
        within(predicate, width(plan)),
        below(plan, predicate) is Some,
    ensures
        sound(below(plan, predicate)->0),
        names(below(plan, predicate)->0) == names(plan),
        rows(world, below(plan, predicate)->0) == sifted(
            passes(world.meaning, predicate),
            rows(world, plan),
        ),
        has_paid(below(plan, predicate)->0),
    decreases plan,
{
    let result = below(plan, predicate)->0;
    let meaning = world.meaning;
    match plan {
        Plan::Async { calls, input } => {
            let lower = match below(*input, predicate) {
                Some(lower) => lower,
                None => Plan::Filter { predicate, settings: plain_settings(), input },
            };
            let all = rows(world, *input);
            rows_width(world, *input);
            if below(*input, predicate) is Some {
                below_filters(world, *input, predicate);
            } else {
                let few = sifted(passes(meaning, predicate), all);
                assert(rows(world, lower) =~= few);
                assert(names(lower) == names(*input));
                assert(sound(lower));
            }
            assert(result == Plan::Async { calls, input: Box::new(lower) });
            let make = |row: Row| answered(meaning, calls, row);
            assert forall|i: int| 0 <= i < all.len() implies passes(meaning, predicate)(
                make(#[trigger] all[i]),
            ) == passes(meaning, predicate)(all[i]) by {
                value_of_prefix(meaning, predicate, make(all[i]), all[i], width(*input));
            }
            sifted_made(passes(meaning, predicate), passes(meaning, predicate), make, all);
        },
        Plan::Projection { columns, input } => {
            let inner = mapped(predicate, output_exprs(columns));
            let all = rows(world, *input);
            assert forall|i: int| 0 <= i < columns.len() implies within(
                #[trigger] output_exprs(columns)[i],
                width(*input),
            ) by {
                assert(within(columns[i].expr, width(*input)));
            }
            within_mapped(predicate, output_exprs(columns), width(*input));
            below_filters(world, *input, inner);
            let make = |row: Row| values_of(meaning, output_exprs(columns), row);
            assert forall|i: int| 0 <= i < all.len() implies passes(meaning, predicate)(
                make(#[trigger] all[i]),
            ) == passes(meaning, inner)(all[i]) by {
                value_of_mapped(meaning, predicate, output_exprs(columns), all[i]);
            }
            sifted_made(passes(meaning, inner), passes(meaning, predicate), make, all);
        },
        Plan::Filter { predicate: own, settings, input } => {
            let columns = handed_on(names(*input), settings.projection);
            let inner = mapped(predicate, columns);
            let all = rows(world, *input);
            rows_width(world, *input);
            handed_on_columns(*input, settings, world, Seq::new(
                width(*input) as nat,
                |i: int| Value::Missing,
            ));
            within_mapped(predicate, columns, width(*input));
            below_filters(world, *input, inner);
            let make = |row: Row| selected(settings.projection, row);
            let own_test = passes(meaning, own);
            let inner_test = passes(meaning, inner);
            let kept = sifted(own_test, all);
            assert forall|i: int| 0 <= i < kept.len() implies passes(meaning, predicate)(
                make(#[trigger] kept[i]),
            ) == inner_test(kept[i]) by {
                let j = sifted_from(own_test, all, i);
                handed_on_columns(*input, settings, world, all[j]);
                value_of_mapped(meaning, predicate, columns, all[j]);
            }
            sifted_made(inner_test, passes(meaning, predicate), make, kept);
            sifted_twice(own_test, inner_test, all);
            sifted_twice(inner_test, own_test, all);
            sifted_alike(
                |row: Row| own_test(row) && inner_test(row),
                |row: Row| inner_test(row) && own_test(row),
                all,
            );
        },
        Plan::Stage { stage, input } => {
            below_filters(world, *input, predicate);
        },
        _ => {},
    }
}

/// A predicate stays above a limit, above any step but those that hand on rows as
/// they are, and above calls whose answers it reads.
pub proof fn predicates_stay_above(plan: Plan, predicate: Expr)
    ensures
        unstable(predicate) ==> below(plan, predicate) is None,
        plan matches Plan::Stage { stage, .. } ==> limit_of(stage) is Some ==> below(
            plan,
            predicate,
        ) is None,
        plan matches Plan::Filter { settings, .. } ==> settings.fetch is Some ==> below(
            plan,
            predicate,
        ) is None,
        plan is Other ==> below(plan, predicate) is None,
        plan matches Plan::Async { input, .. } ==> !within(predicate, width(*input)) ==> below(
            plan,
            predicate,
        ) is None,
{
}

/// Sorting out the parts of a predicate: where all parts hold for a row of the input,
/// and only there, it is a row of the new input for which the other parts hold.
proof fn sorted_out_filters(world: World, input: Plan, parts: Seq<Expr>)
    requires
        world.sound(),
        sound(input),
        has_paid(input),
        forall|i: int| 0 <= i < parts.len() ==> within(#[trigger] parts[i], width(input)),
    ensures
        sound(sorted_out(input, parts).0),
        has_paid(sorted_out(input, parts).0),
        names(sorted_out(input, parts).0) == names(input),
        forall|i: int|
            0 <= i < sorted_out(input, parts).1.len() ==> within(
                #[trigger] sorted_out(input, parts).1[i],
                width(input),
            ),
        sorted_out(input, parts).1.len() <= parts.len(),
        sifted(
            |row: Row| all_hold(world.meaning, sorted_out(input, parts).1, row),
            rows(world, sorted_out(input, parts).0),
        ) == sifted(|row: Row| all_hold(world.meaning, parts, row), rows(world, input)),
    decreases parts.len(),
{
    let meaning = world.meaning;
    if parts.len() == 0 {
        sifted_alike(
            |row: Row| all_hold(meaning, sorted_out(input, parts).1, row),
            |row: Row| all_hold(meaning, parts, row),
            rows(world, input),
        );
    } else {
        let fewer = parts.drop_last();
        let last = parts.last();
        assert(parts[parts.len() - 1] == last);
        assert forall|i: int| 0 <= i < fewer.len() implies within(
            #[trigger] fewer[i],
            width(input),
        ) by {
            assert(fewer[i] == parts[i]);
        }
        sorted_out_filters(world, input, fewer);
        let (lower, rest) = sorted_out(input, fewer);
        let rest_hold = |row: Row| all_hold(meaning, rest, row);
        let fewer_hold = |row: Row| all_hold(meaning, fewer, row);
        let parts_hold = |row: Row| all_hold(meaning, parts, row);
        let last_holds = passes(meaning, last);
        let low = rows(world, lower);
        let all = rows(world, input);
        // Testing all parts is testing the first ones, and then the last one.
        assert forall|row: Row| #[trigger] parts_hold(row) == (fewer_hold(row) && last_holds(
            row,
        )) by {
            pushed_holds(world, fewer, last, row);
            assert(fewer.push(last) =~= parts);
        }
        sifted_twice(fewer_hold, last_holds, all);
        sifted_alike(parts_hold, |row: Row| fewer_hold(row) && last_holds(row), all);
        assert(sifted(parts_hold, all) == sifted(last_holds, sifted(rest_hold, low)));
        sifted_twice(rest_hold, last_holds, low);
        match below(lower, last) {
            Some(lowest) => {
                below_filters(world, lower, last);
                sifted_twice(last_holds, rest_hold, low);
                sifted_alike(
                    |row: Row| last_holds(row) && rest_hold(row),
                    |row: Row| rest_hold(row) && last_holds(row),
                    low,
                );
                assert(sorted_out(input, parts) == (lowest, rest));
            },
            None => {
                let more = rest.push(last);
                let more_hold = |row: Row| all_hold(meaning, more, row);
                assert forall|row: Row| #[trigger] more_hold(row) == (rest_hold(row) && last_holds(
                    row,
                )) by {
                    pushed_holds(world, rest, last, row);
                }
                sifted_alike(more_hold, |row: Row| rest_hold(row) && last_holds(row), low);
                assert(sorted_out(input, parts) == (lower, more));
            },
        }
    }
}

/// All of some predicates and one more hold where all of them hold, and it.
proof fn pushed_holds(world: World, parts: Seq<Expr>, last: Expr, row: Row)
    ensures
        all_hold(world.meaning, parts.push(last), row) == (all_hold(world.meaning, parts, row)
            && holds(value_of(world.meaning, last, row))),
{
    let more = parts.push(last);
    if all_hold(world.meaning, more, row) {
        assert(more[parts.len() as int] == last);
        assert forall|i: int| 0 <= i < parts.len() implies holds(
            value_of(world.meaning, #[trigger] parts[i], row),
        ) by {
            assert(more[i] == parts[i]);
        }
    }
}

/// Placing filters keeps a plan sound, with the same columns and the same rows.
pub proof fn placing_filters_keeps_the_rows(world: World, plan: Plan)
    requires
        world.sound(),
        sound(plan),
    ensures
        sound(pushed(plan)),
        names(pushed(plan)) == names(plan),
        rows(world, pushed(plan)) == rows(world, plan),
        has_paid(pushed(plan)) == has_paid(plan),
    decreases plan,
{
    match plan {
        Plan::Async { input, .. } => {
            placing_filters_keeps_the_rows(world, *input);
        },
        Plan::Paid { input, .. } => {
            placing_filters_keeps_the_rows(world, *input);
        },
        Plan::Projection { input, .. } => {
            placing_filters_keeps_the_rows(world, *input);
        },
        Plan::Stage { input, .. } => {
            placing_filters_keeps_the_rows(world, *input);
        },
        Plan::Filter { predicate, settings, input } => {
            placing_filters_keeps_the_rows(world, *input);
            pushed_filter_keeps(world, predicate, settings, pushed(*input));
        },
        Plan::Other { id, fields, children } => {
            let results = all_pushed(children);
            assert forall|i: int| 0 <= i < children.len() implies {
                &&& sound(#[trigger] results[i])
                &&& rows(world, results[i]) == rows(world, children[i])
                &&& has_paid(results[i]) == has_paid(children[i])
            } by {
                assert(sound(children[i]));
                placing_filters_keeps_the_rows(world, children[i]);
            }
            assert(all_rows(world, results) =~= all_rows(world, children));
            if has_paid(plan) {
                let i = choose|i: int| 0 <= i < children.len() && has_paid(#[trigger] children[i]);
                assert(has_paid(results[i]));
            }
            if has_paid(pushed(plan)) {
                let i = choose|i: int| 0 <= i < results.len() && has_paid(#[trigger] results[i]);
                assert(has_paid(children[i]));
            }
        },
    }
}

/// The same for one filter.
proof fn pushed_filter_keeps(world: World, predicate: Expr, settings: Settings, input: Plan)
    requires
        world.sound(),
        sound(input),
        within(predicate, width(input)),
        places_within(settings.projection, width(input)),
    ensures
        sound(pushed_filter(predicate, settings, input)),
        names(pushed_filter(predicate, settings, input)) == projected_names(
            names(input),
            settings.projection,
        ),
        rows(world, pushed_filter(predicate, settings, input)) == filtered(
            world,
            predicate,
            settings,
            rows(world, input),
        ),
        has_paid(pushed_filter(predicate, settings, input)) == has_paid(input),
{
    let parts = conjuncts(predicate);
    let (lower, rest) = sorted_out(input, parts);
    if has_paid(input) && rest.len() != parts.len() {
        let meaning = world.meaning;
        conjuncts_within(predicate, width(input));
        sorted_out_filters(world, input, parts);
        conjoined_within(rest, width(input));
        let rest_hold = |row: Row| all_hold(meaning, rest, row);
        let parts_hold = |row: Row| all_hold(meaning, parts, row);
        assert forall|row: Row| #[trigger] rest_hold(row) == passes(meaning, conjoined(rest))(row) by {
            conjoined_holds(meaning, rest, row);
        }
        assert forall|row: Row| #[trigger] parts_hold(row) == passes(meaning, predicate)(row) by {
            conjuncts_hold(meaning, predicate, row);
        }
        sifted_alike(rest_hold, passes(meaning, conjoined(rest)), rows(world, lower));
        sifted_alike(parts_hold, passes(meaning, predicate), rows(world, input));
    }
}

/// The columns of the input of a filter, as its projection hands them on.
pub fn columns_handed_on(input: &PhysicalPlan, settings: &FilterSettings) -> (columns: Vec<
    Expression,
>)
    requires
        sound(input@),
        places_within(settings@.projection, width(input@)),
    ensures
        exprs(columns@) == handed_on(names(input@), settings@.projection),
{
    let fields = input.fields();
    assert(texts_of(fields@).len() == fields@.len());
    let mut columns: Vec<Expression> = Vec::new();
    match &settings.projection {
        None => {
            for at in 0..fields.len()
                invariant
                    columns@.len() == at,
                    forall|i: int|
                        0 <= i < at ==> (#[trigger] columns@[i])@ == (Expr::Column {
                            name: fields@[i]@,
                            index: i,
                        }),
            {
                columns.push(Expression::Column { name: fields[at].clone(), index: at });
            }
            assert(exprs(columns@) =~= handed_on(texts_of(fields@), None));
        },
        Some(places) => {
            for at in 0..places.len()
                invariant
                    all_below(places_of(places@), fields@.len() as int),
                    columns@.len() == at,
                    forall|i: int|
                        0 <= i < at ==> (#[trigger] columns@[i])@ == (Expr::Column {
                            name: fields@[places@[i] as int]@,
                            index: places@[i] as int,
                        }),
            {
                let place = places[at];
                assert(places_of(places@)[at as int] < fields@.len());
                columns.push(Expression::Column { name: fields[place].clone(), index: place });
            }
            assert(exprs(columns@) =~= handed_on(
                texts_of(fields@),
                Some(places_of(places@)),
            ));
        },
    }
    columns
}

/// The expressions of some named expressions.
pub fn expressions_of(list: &Vec<NamedExpression>) -> (result: Vec<Expression>)
    ensures
        exprs(result@) == output_exprs(outputs(list@)),
{
    let mut result: Vec<Expression> = Vec::new();
    for at in 0..list.len()
        invariant
            result@.len() == at,
            forall|i: int| 0 <= i < at ==> (#[trigger] result@[i])@ == list@[i].expr@,
    {
        result.push(list[at].expr.copy());
    }
    assert(exprs(result@) =~= output_exprs(outputs(list@)));
    result
}

/// A plan with a predicate moved below its calls that cost money, where it can move.
pub fn move_below_paid(plan: &PhysicalPlan, predicate: &Expression) -> (result: Option<
    PhysicalPlan,
>)
    requires
        sound(plan@),
        within(predicate@, width(plan@)),
    ensures
        match (result, below(plan@, predicate@)) {
            (Some(lower), Some(expected)) => lower@ == expected,
            (None, None) => true,
            _ => false,
        },
    decreases plan,
{
    if predicate.is_volatile() {
        return None;
    }
    match plan {
        PhysicalPlan::Async { calls, input } => {
            if !any_jev(calls) {
                return None;
            }
            let fields = input.fields();
            assert(texts_of(fields@).len() == fields@.len());
            if !predicate.reads_within(fields.len()) {
                return None;
            }
            let lower = match move_below_paid(input, predicate) {
                Some(lower) => lower,
                None => {
                    let filter = PhysicalPlan::Filter {
                        predicate: predicate.copy(),
                        settings: FilterSettings {
                            projection: None,
                            fetch: None,
                            batch_size: DEFAULT_BATCH_SIZE,
                            selectivity: DEFAULT_SELECTIVITY,
                        },
                        input: Box::new(input.copy()),
                    };
                    assert(filter@ == Plan::Filter {
                        predicate: predicate@,
                        settings: plain_settings(),
                        input: Box::new(input@),
                    });
                    filter
                },
            };
            Some(PhysicalPlan::Async { calls: copy_outputs(calls), input: Box::new(lower) })
        },
        PhysicalPlan::Projection { columns, input } => {
            let own = expressions_of(columns);
            assert(exprs(own@).len() == own@.len());
            let inner = predicate.map_columns(&own);
            proof {
                let list = output_exprs(outputs(columns@));
                assert forall|i: int| 0 <= i < list.len() implies within(
                    #[trigger] list[i],
                    width(input@),
                ) by {
                    assert(within(outputs(columns@)[i].expr, width(input@)));
                }
                within_mapped(predicate@, list, width(input@));
            }
            match move_below_paid(input, &inner) {
                Some(lower) => Some(
                    PhysicalPlan::Projection {
                        columns: copy_outputs(columns),
                        input: Box::new(lower),
                    },
                ),
                None => None,
            }
        },
        PhysicalPlan::Filter { predicate: own, settings, input } => {
            if settings.fetch.is_some() {
                return None;
            }
            let columns = columns_handed_on(input, settings);
            assert(exprs(columns@).len() == columns@.len());
            let inner = predicate.map_columns(&columns);
            proof {
                within_mapped(predicate@, exprs(columns@), width(input@));
            }
            match move_below_paid(input, &inner) {
                Some(lower) => Some(
                    PhysicalPlan::Filter {
                        predicate: own.copy(),
                        settings: settings.copy(),
                        input: Box::new(lower),
                    },
                ),
                None => None,
            }
        },
        PhysicalPlan::Stage { stage, input } => {
            let passes_on = match stage {
                Stage::CoalescePartitions { fetch } => fetch.is_none(),
                Stage::Repartition { .. } => true,
                Stage::Cooperative { .. } => true,
                _ => false,
            };
            if !passes_on {
                return None;
            }
            match move_below_paid(input, predicate) {
                Some(lower) => Some(PhysicalPlan::Stage { stage: *stage, input: Box::new(lower) }),
                None => None,
            }
        },
        _ => None,
    }
}

/// A filter with the parts of its predicate that can move moved below the calls of
/// its input.
fn push_filter(predicate: &Expression, settings: &FilterSettings, input: PhysicalPlan) -> (result:
    PhysicalPlan)
    requires
        sound(input@),
        within(predicate@, width(input@)),
    ensures
        result@ == pushed_filter(predicate@, settings@, input@),
{
    if !input.has_jev() {
        return PhysicalPlan::Filter {
            predicate: predicate.copy(),
            settings: settings.copy(),
            input: Box::new(input),
        };
    }
    let parts = predicate.split_conjunction();
    let ghost all = exprs(parts@);
    let mut lower = input.copy();
    let mut rest: Vec<Expression> = Vec::new();
    let mut changed = false;
    proof {
        conjuncts_within(predicate@, width(input@));
    }
    for at in 0..parts.len()
        invariant
            all == exprs(parts@),
            sound(input@),
            has_paid(input@),
            forall|i: int| 0 <= i < all.len() ==> within(#[trigger] all[i], width(input@)),
            (lower@, exprs(rest@)) == sorted_out(input@, all.take(at as int)),
            changed == (rest@.len() != at),
            rest@.len() <= at,
    {
        proof {
            let fewer = all.take(at as int);
            assert forall|i: int| 0 <= i < fewer.len() implies within(
                #[trigger] fewer[i],
                width(input@),
            ) by {
                assert(fewer[i] == all[i]);
            }
            sorted_out_filters(no_rows(), input@, fewer);
            let more = all.take(at as int + 1);
            assert(more.drop_last() =~= fewer);
            assert(more.last() == all[at as int]);
            assert(within(all[at as int], width(input@)));
        }
        let ghost before = exprs(rest@);
        match move_below_paid(&lower, &parts[at]) {
            Some(lowest) => {
                lower = lowest;
                changed = true;
            },
            None => {
                rest.push(parts[at].copy());
                assert(exprs(rest@) =~= before.push(all[at as int]));
            },
        }
    }
    assert(all.take(parts@.len() as int) =~= all);
    assert(exprs(rest@).len() == rest@.len());
    assert(all.len() == parts@.len());
    if !changed {
        return PhysicalPlan::Filter {
            predicate: predicate.copy(),
            settings: settings.copy(),
            input: Box::new(input),
        };
    }
    PhysicalPlan::Filter {
        predicate: conjunction(&rest),
        settings: settings.copy(),
        input: Box::new(lower),
    }
}

/// A plan with what can be tested without a judgment tested before it.
pub fn push_cheap_filters(plan: &PhysicalPlan) -> (result: PhysicalPlan)
    requires
        sound(plan@),
    ensures
        result@ == pushed(plan@),
    decreases plan,
{
    broadcast use other_view;

    match plan {
        PhysicalPlan::Async { calls, input } => PhysicalPlan::Async {
            calls: copy_outputs(calls),
            input: Box::new(push_cheap_filters(input)),
        },
        PhysicalPlan::Paid { calls, demand, input } => PhysicalPlan::Paid {
            calls: copy_outputs(calls),
            demand: *demand,
            input: Box::new(push_cheap_filters(input)),
        },
        PhysicalPlan::Projection { columns, input } => PhysicalPlan::Projection {
            columns: copy_outputs(columns),
            input: Box::new(push_cheap_filters(input)),
        },
        PhysicalPlan::Filter { predicate, settings, input } => {
            let lower = push_cheap_filters(input);
            proof {
                pushed_sound(input@);
            }
            push_filter(predicate, settings, lower)
        },
        PhysicalPlan::Stage { stage, input } => PhysicalPlan::Stage {
            stage: *stage,
            input: Box::new(push_cheap_filters(input)),
        },
        PhysicalPlan::Other { id, fields, children } => {
            let mut results: Vec<PhysicalPlan> = Vec::new();
            for at in 0..children.len()
                invariant
                    decreases_to!(plan => children@),
                    forall|i: int| 0 <= i < children@.len() ==> sound(#[trigger] plans(children@)[i]),
                    results@.len() == at,
                    forall|i: int|
                        0 <= i < at ==> (#[trigger] results@[i])@ == pushed(children@[i]@),
            {
                assert(sound(plans(children@)[at as int]));
                results.push(push_cheap_filters(&children[at]));
            }
            assert(plans(results@) =~= all_pushed(plans(children@)));
            PhysicalPlan::Other {
                id: *id,
                fields: copy_texts(fields),
                children: results,
            }
        },
    }
}

/// Placing filters keeps a plan sound, with the same columns.
pub proof fn pushed_sound(plan: Plan)
    requires
        sound(plan),
    ensures
        sound(pushed(plan)),
        names(pushed(plan)) == names(plan),
{
    placing_filters_keeps_the_rows(no_rows(), plan);
}

} // verus!
