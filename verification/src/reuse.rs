//! Carrying a judgment that is already computed through steps that keep rows. A
//! common subexpression or a limit may stand between the place where a judgment is
//! first needed and the place where it is needed again.
use vstd::prelude::*;

use crate::expression::{
    exprs, mapped, paid, value_of, value_of_mapped, value_of_prefix, values_of, within,
    within_mapped, within_wider, Expr, Expression, Row,
};
use crate::plan::{
    all_rows, all_within, answered, copy_outputs, copy_texts, fetched, limit_of, limited,
    limited_from, limited_made, names, no_rows, nothing, other_view, output_exprs, outputs, passes,
    places_of, plans, rows, rows_width, selected, sifted, sifted_from, sifted_made, sound, texts_of,
    width, FilterSettings, NamedExpression, Output, PhysicalPlan, Plan, Settings, Stage, World,
};
use crate::planner::{columns_handed_on, expressions_of, handed_on};
use crate::text::{decimal, decimal_text, join2};

verus! {

/// The place of the first output with an expression.
pub open spec fn place_of(list: Seq<Output>, expr: Expr) -> Option<int>
    decreases list.len(),
{
    if list.len() == 0 {
        None
    } else {
        match place_of(list.drop_last(), expr) {
            Some(at) => Some(at),
            None => if list.last().expr == expr {
                Some(list.len() - 1)
            } else {
                None
            },
        }
    }
}

/// The place of the first column with an index.
pub open spec fn place_among(list: Seq<int>, index: int) -> Option<int>
    decreases list.len(),
{
    if list.len() == 0 {
        None
    } else {
        match place_among(list.drop_last(), index) {
            Some(at) => Some(at),
            None => if list.last() == index {
                Some(list.len() - 1)
            } else {
                None
            },
        }
    }
}

/// A column of a plan.
pub open spec fn column_of(plan: Plan, index: int) -> Expr {
    Expr::Column { name: names(plan)[index], index }
}

/// The column that hands on a judgment where there is none yet.
pub open spec fn reuse_column(plan: Plan, index: int, place: int) -> Output {
    Output { name: "__jev_reuse_"@ + decimal(place as nat), expr: column_of(plan, index) }
}

/// The columns that a filter hands on, one by one.
pub open spec fn handed_places(settings: Settings, width: int) -> Seq<int> {
    match settings.projection {
        Some(places) => places,
        None => Seq::new(width as nat, |i: int| i),
    }
}

/// A projection of its input that also hands on a column of it, and the place of that
/// column.
pub open spec fn projection_with(columns: Seq<Output>, input: Plan, index: int) -> (Plan, int) {
    match place_of(columns, column_of(input, index)) {
        Some(at) => (Plan::Projection { columns, input: Box::new(input) }, at),
        None => (
            Plan::Projection {
                columns: columns.push(reuse_column(input, index, columns.len() as int)),
                input: Box::new(input),
            },
            columns.len() as int,
        ),
    }
}

/// A filter of its input that also hands on a column of it, and the place of that
/// column.
pub open spec fn filter_with(
    predicate: Expr,
    settings: Settings,
    places: Seq<int>,
    input: Plan,
    index: int,
) -> (Plan, int) {
    match place_among(places, index) {
        Some(at) => (
            Plan::Filter {
                predicate,
                settings: Settings { projection: Some(places), ..settings },
                input: Box::new(input),
            },
            at,
        ),
        None => (
            Plan::Filter {
                predicate,
                settings: Settings { projection: Some(places.push(index)), ..settings },
                input: Box::new(input),
            },
            places.len() as int,
        ),
    }
}

/// Whether a judgment is carried through a step.
pub open spec fn carried(stage: Stage) -> bool {
    match stage {
        Stage::GlobalLimit { .. } => true,
        Stage::LocalLimit { .. } => true,
        Stage::CoalescePartitions { .. } => true,
        Stage::Repartition { .. } => true,
        Stage::Cooperative { .. } => true,
        _ => false,
    }
}

/// A plan that hands on the value of an expression that is computed in it, and the
/// column in which it does.
pub open spec fn computed(plan: Plan, expr: Expr) -> Option<(Plan, int)>
    decreases plan,
{
    match plan {
        Plan::Async { calls, input } => match place_of(calls, expr) {
            Some(at) => Some((plan, width(*input) + at)),
            None => None,
        },
        Plan::Projection { columns, input } => match computed(
            *input,
            mapped(expr, output_exprs(columns)),
        ) {
            Some((lower, index)) => Some(projection_with(columns, lower, index)),
            None => None,
        },
        Plan::Filter { predicate, settings, input } => match computed(
            *input,
            mapped(expr, handed_on(names(*input), settings.projection)),
        ) {
            Some((lower, index)) => Some(
                filter_with(
                    predicate,
                    settings,
                    handed_places(settings, width(*input)),
                    lower,
                    index,
                ),
            ),
            None => None,
        },
        Plan::Stage { stage, input } => if carried(stage) {
            match computed(*input, expr) {
                Some((lower, index)) => Some((Plan::Stage { stage, input: Box::new(lower) }, index)),
                None => None,
            }
        } else {
            None
        },
        _ => None,
    }
}

/// Where the value of a call is found.
pub ghost enum Place {
    /// In a column of the input.
    Computed(int),
    /// Among the calls that are still made.
    Asked(int),
}

/// The input of some calls with the columns that they can be read from, where each
/// call is found, and the calls that are still made.
pub ghost struct Sharing {
    pub input: Plan,
    pub places: Seq<Place>,
    pub remaining: Seq<Output>,
}

/// Which of some calls are computed in their input.
pub open spec fn shared(input: Plan, calls: Seq<Output>) -> Sharing
    decreases calls.len(),
{
    if calls.len() == 0 {
        Sharing { input, places: Seq::empty(), remaining: Seq::empty() }
    } else {
        let before = shared(input, calls.drop_last());
        let call = calls.last();
        match computed(before.input, call.expr) {
            Some((lower, index)) if paid(call.expr) => Sharing {
                input: lower,
                places: before.places.push(Place::Computed(index)),
                remaining: before.remaining,
            },
            _ => Sharing {
                input: before.input,
                places: before.places.push(Place::Asked(before.remaining.len() as int)),
                remaining: before.remaining.push(call),
            },
        }
    }
}

/// The plan under the projection that stands for some calls.
pub open spec fn still_asked(sharing: Sharing) -> Plan {
    if sharing.remaining.len() == 0 {
        sharing.input
    } else {
        Plan::Async { calls: sharing.remaining, input: Box::new(sharing.input) }
    }
}

/// The column in which a column of the calls is found.
pub open spec fn found_at(sharing: Sharing, columns: int, i: int) -> int {
    if i < columns {
        i
    } else {
        match sharing.places[i - columns] {
            Place::Computed(index) => index,
            Place::Asked(offset) => width(sharing.input) + offset,
        }
    }
}

/// Some calls on an input, with those that the input computes read from it.
pub open spec fn reused_calls(calls: Seq<Output>, input: Plan) -> Plan {
    let plan = Plan::Async { calls, input: Box::new(input) };
    let sharing = shared(input, calls);
    if sharing.remaining.len() == calls.len() {
        plan
    } else {
        Plan::Projection {
            columns: Seq::new(
                names(plan).len(),
                |i: int|
                    Output {
                        name: names(plan)[i],
                        expr: column_of(
                            still_asked(sharing),
                            found_at(sharing, width(input), i),
                        ),
                    },
            ),
            input: Box::new(still_asked(sharing)),
        }
    }
}

/// A plan in which no judgment is asked for that its input already holds.
pub open spec fn reused(plan: Plan) -> Plan
    decreases plan,
{
    match plan {
        Plan::Async { calls, input } => reused_calls(calls, reused(*input)),
        Plan::Paid { calls, demand, input } => Plan::Paid {
            calls,
            demand,
            input: Box::new(reused(*input)),
        },
        Plan::Projection { columns, input } => Plan::Projection {
            columns,
            input: Box::new(reused(*input)),
        },
        Plan::Filter { predicate, settings, input } => Plan::Filter {
            predicate,
            settings,
            input: Box::new(reused(*input)),
        },
        Plan::Stage { stage, input } => Plan::Stage { stage, input: Box::new(reused(*input)) },
        Plan::Other { id, fields, children } => Plan::Other {
            id,
            fields,
            children: all_reused(children),
        },
    }
}

/// Some plans in which no judgment is asked for that its input already holds.
pub open spec fn all_reused(list: Seq<Plan>) -> Seq<Plan>
    decreases list,
{
    Seq::new(
        list.len(),
        |i: int|
            if 0 <= i < list.len() {
                reused(list[i])
            } else {
                nothing()
            },
    )
}

/// The number of calls that cost money.
pub open spec fn paid_count(calls: Seq<Output>) -> nat
    decreases calls.len(),
{
    if calls.len() == 0 {
        0
    } else {
        paid_count(calls.drop_last()) + if paid(calls.last().expr) {
            1nat
        } else {
            0nat
        }
    }
}

/// The number of places in a plan at which a judgment is asked for.
pub open spec fn asks(plan: Plan) -> nat
    decreases plan, 0nat,
{
    match plan {
        Plan::Async { calls, input } => paid_count(calls) + asks(*input),
        Plan::Paid { calls, input, .. } => paid_count(calls) + asks(*input),
        Plan::Projection { input, .. } => asks(*input),
        Plan::Filter { input, .. } => asks(*input),
        Plan::Stage { input, .. } => asks(*input),
        Plan::Other { children, .. } => all_ask(children),
    }
}

/// The same for some plans.
pub open spec fn all_ask(list: Seq<Plan>) -> nat
    decreases list, list.len(),
{
    if list.len() == 0 {
        0
    } else {
        all_ask(list.drop_last()) + asks(list.last())
    }
}

/// Whether a plan gives the rows of another one, and perhaps more columns.
pub open spec fn widens(world: World, wide: Plan, plan: Plan) -> bool {
    &&& sound(wide)
    &&& width(plan) <= width(wide)
    &&& asks(wide) == asks(plan)
    &&& rows(world, plan) == rows(world, wide).map_values(|row: Row| row.take(width(plan)))
}

/// Whether a column of a plan holds the values of an expression over the rows of
/// another one.
pub open spec fn carries(world: World, wide: Plan, index: int, plan: Plan, expr: Expr) -> bool {
    &&& 0 <= index < width(wide)
    &&& forall|i: int|
        0 <= i < rows(world, wide).len() ==> (#[trigger] rows(world, wide)[i])[index] == value_of(
            world.meaning,
            expr,
            rows(world, plan)[i],
        )
}

/// The first place of an expression is one, and none comes before it.
proof fn place_of_is(list: Seq<Output>, expr: Expr)
    ensures
        match place_of(list, expr) {
            Some(at) => 0 <= at < list.len() && list[at].expr == expr,
            None => forall|i: int| 0 <= i < list.len() ==> (#[trigger] list[i]).expr != expr,
        },
    decreases list.len(),
{
    if list.len() > 0 {
        place_of_is(list.drop_last(), expr);
        if place_of(list, expr) is None {
            assert forall|i: int| 0 <= i < list.len() implies (#[trigger] list[i]).expr != expr by {
                if i < list.len() - 1 {
                    assert(list.drop_last()[i] == list[i]);
                }
            }
        }
    }
}

/// The first place of an index is one, and none comes before it.
proof fn place_among_is(list: Seq<int>, index: int)
    ensures
        match place_among(list, index) {
            Some(at) => 0 <= at < list.len() && list[at] == index,
            None => forall|i: int| 0 <= i < list.len() ==> #[trigger] list[i] != index,
        },
    decreases list.len(),
{
    if list.len() > 0 {
        place_among_is(list.drop_last(), index);
        if place_among(list, index) is None {
            assert forall|i: int| 0 <= i < list.len() implies #[trigger] list[i] != index by {
                if i < list.len() - 1 {
                    assert(list.drop_last()[i] == list[i]);
                }
            }
        }
    }
}

/// A projection that also hands on a column.
proof fn projection_with_carries(
    world: World,
    columns: Seq<Output>,
    input: Plan,
    lower: Plan,
    index: int,
    expr: Expr,
)
    requires
        world.sound(),
        sound(input),
        all_within(columns, width(input)),
        within(expr, columns.len() as int),
        widens(world, lower, input),
        carries(world, lower, index, input, mapped(expr, output_exprs(columns))),
    ensures
        ({
            let plan = Plan::Projection { columns, input: Box::new(input) };
            let (wide, at) = projection_with(columns, lower, index);
            widens(world, wide, plan) && carries(world, wide, at, plan, expr)
        }),
{
    let meaning = world.meaning;
    let plan = Plan::Projection { columns, input: Box::new(input) };
    let (wide, at) = projection_with(columns, lower, index);
    let more = wide->columns;
    let column = column_of(lower, index);
    place_of_is(columns, column);
    assert forall|i: int| 0 <= i < more.len() implies within(
        (#[trigger] more[i]).expr,
        width(lower),
    ) by {
        if i < columns.len() {
            assert(more[i] == columns[i]);
            within_wider(columns[i].expr, width(input), width(lower));
        }
    }
    assert(sound(wide));
    assert(asks(wide) == asks(lower));
    rows_width(world, lower);
    rows_width(world, input);
    let all = rows(world, lower);
    let few = rows(world, input);
    assert(more[at].expr == column);
    assert forall|i: int| 0 <= i < all.len() implies {
        &&& rows(world, plan)[i] == (#[trigger] rows(world, wide)[i]).take(width(plan))
        &&& rows(world, wide)[i][at] == value_of(meaning, expr, rows(world, plan)[i])
    } by {
        assert(few[i] == all[i].take(width(input)));
        let narrow = rows(world, plan)[i];
        let broad = rows(world, wide)[i];
        assert(narrow == values_of(meaning, output_exprs(columns), few[i]));
        assert(broad == values_of(meaning, output_exprs(more), all[i]));
        assert forall|j: int| 0 <= j < columns.len() implies #[trigger] narrow[j] == broad[j] by {
            assert(output_exprs(columns)[j] == columns[j].expr);
            assert(output_exprs(more)[j] == columns[j].expr);
            assert(within(columns[j].expr, width(input)));
            value_of_prefix(meaning, columns[j].expr, few[i], all[i], width(input));
        }
        assert(narrow =~= broad.take(width(plan)));
        assert(output_exprs(more)[at] == column);
        assert(broad[at] == all[i][index]);
        value_of_mapped(meaning, expr, output_exprs(columns), few[i]);
    }
    assert(rows(world, plan) =~= rows(world, wide).map_values(|row: Row| row.take(width(plan))));
}

/// A filter that also hands on a column.
proof fn filter_with_carries(
    world: World,
    predicate: Expr,
    settings: Settings,
    input: Plan,
    lower: Plan,
    index: int,
    expr: Expr,
)
    requires
        world.sound(),
        sound(Plan::Filter { predicate, settings, input: Box::new(input) }),
        within(expr, width(Plan::Filter { predicate, settings, input: Box::new(input) })),
        widens(world, lower, input),
        carries(
            world,
            lower,
            index,
            input,
            mapped(expr, handed_on(names(input), settings.projection)),
        ),
    ensures
        ({
            let plan = Plan::Filter { predicate, settings, input: Box::new(input) };
            let (wide, at) = filter_with(
                predicate,
                settings,
                handed_places(settings, width(input)),
                lower,
                index,
            );
            widens(world, wide, plan) && carries(world, wide, at, plan, expr)
        }),
{
    let meaning = world.meaning;
    let plan = Plan::Filter { predicate, settings, input: Box::new(input) };
    let places = handed_places(settings, width(input));
    let (wide, at) = filter_with(predicate, settings, places, lower, index);
    let own = settings.projection;
    let more = wide->settings.projection->0;
    place_among_is(places, index);
    within_wider(predicate, width(input), width(lower));
    assert forall|i: int| 0 <= i < more.len() implies 0 <= #[trigger] more[i] < width(lower) by {
        if i < places.len() {
            assert(more[i] == places[i]);
        }
    }
    assert(sound(wide));
    assert(asks(wide) == asks(lower));
    assert(width(plan) == places.len());
    let all = rows(world, lower);
    let few = rows(world, input);
    rows_width(world, lower);
    rows_width(world, input);
    // The input of the filter, its tests and its limit.
    let narrow = |row: Row| row.take(width(input));
    let keep = passes(meaning, predicate);
    assert(few =~= all.map_values(narrow));
    assert forall|i: int| 0 <= i < all.len() implies keep(narrow(#[trigger] all[i])) == keep(
        all[i],
    ) by {
        value_of_prefix(meaning, predicate, narrow(all[i]), all[i], width(input));
    }
    sifted_made(keep, keep, narrow, all);
    let all_kept = sifted(keep, all);
    let few_kept = sifted(keep, few);
    let limit = fetched(settings.fetch);
    limited_made(world, limit, narrow, all_kept);
    let all_left = limited(world, limit, all_kept);
    let few_left = limited(world, limit, few_kept);
    assert(few_left == all_left.map_values(narrow));
    let columns = handed_on(names(input), own);
    assert forall|i: int| 0 <= i < all_left.len() implies {
        &&& rows(world, plan)[i] == (#[trigger] rows(world, wide)[i]).take(width(plan))
        &&& rows(world, wide)[i][at] == value_of(meaning, expr, rows(world, plan)[i])
    } by {
        let j = limited_from(world, limit, all_kept, i);
        let k = sifted_from(keep, all, j);
        assert(all_left[i] == all[k]);
        assert(few_left[i] == few[k]);
        let thin = rows(world, plan)[i];
        let broad = rows(world, wide)[i];
        assert(thin == selected(own, few[k]));
        assert(broad == selected(Some(more), all[k]));
        assert forall|c: int| 0 <= c < places.len() implies #[trigger] thin[c] == broad[c] by {
            assert(more[c] == places[c]);
            assert(all[k].take(width(input))[places[c]] == all[k][places[c]]);
        }
        assert(thin =~= broad.take(width(plan)));
        assert(broad[at] == all[k][index]);
        assert(values_of(meaning, columns, few[k]) =~= thin);
        value_of_mapped(meaning, expr, columns, few[k]);
    }
    assert(rows(world, plan) =~= rows(world, wide).map_values(|row: Row| row.take(width(plan))));
}

/// A plan that hands on a computed value gives the rows of the plan, and the value
/// for each of them.
pub proof fn computed_carries(world: World, plan: Plan, expr: Expr)
    requires
        world.sound(),
        sound(plan),
        within(expr, width(plan)),
        computed(plan, expr) is Some,
    ensures
        widens(world, (computed(plan, expr)->0).0, plan),
        carries(world, (computed(plan, expr)->0).0, (computed(plan, expr)->0).1, plan, expr),
    decreases plan,
{
    let meaning = world.meaning;
    let (wide, at) = computed(plan, expr)->0;
    match plan {
        Plan::Async { calls, input } => {
            place_of_is(calls, expr);
            let place = place_of(calls, expr)->0;
            rows_width(world, plan);
            rows_width(world, *input);
            let all = rows(world, *input);
            assert(within(calls[place].expr, width(*input)));
            assert forall|i: int| 0 <= i < all.len() implies {
                &&& rows(world, plan)[i] == (#[trigger] rows(world, wide)[i]).take(width(plan))
                &&& rows(world, wide)[i][at] == value_of(meaning, expr, rows(world, plan)[i])
            } by {
                let row = rows(world, plan)[i];
                assert(row == answered(meaning, calls, all[i]));
                assert(row =~= row.take(width(plan)));
                assert(output_exprs(calls)[place] == expr);
                assert(row[at] == values_of(meaning, output_exprs(calls), all[i])[place]);
                value_of_prefix(meaning, expr, row, all[i], width(*input));
            }
            assert(rows(world, plan) =~= rows(world, wide).map_values(
                |row: Row| row.take(width(plan)),
            ));
        },
        Plan::Projection { columns, input } => {
            let inner = mapped(expr, output_exprs(columns));
            assert forall|i: int| 0 <= i < columns.len() implies within(
                #[trigger] output_exprs(columns)[i],
                width(*input),
            ) by {
                assert(within(columns[i].expr, width(*input)));
            }
            within_mapped(expr, output_exprs(columns), width(*input));
            computed_carries(world, *input, inner);
            let (lower, index) = computed(*input, inner)->0;
            projection_with_carries(world, columns, *input, lower, index, expr);
        },
        Plan::Filter { predicate, settings, input } => {
            let columns = handed_on(names(*input), settings.projection);
            let inner = mapped(expr, columns);
            assert(columns.len() == width(plan));
            assert forall|i: int| 0 <= i < columns.len() implies within(
                #[trigger] columns[i],
                width(*input),
            ) by {}
            within_mapped(expr, columns, width(*input));
            computed_carries(world, *input, inner);
            let (lower, index) = computed(*input, inner)->0;
            filter_with_carries(world, predicate, settings, *input, lower, index, expr);
        },
        Plan::Stage { stage, input } => {
            computed_carries(world, *input, expr);
            let (lower, index) = computed(*input, expr)->0;
            let narrow = |row: Row| row.take(width(*input));
            let limit = limit_of(stage);
            let all = rows(world, lower);
            limited_made(world, limit, narrow, all);
            assert(rows(world, *input) =~= all.map_values(narrow));
            assert(rows(world, plan) =~= rows(world, wide).map_values(
                |row: Row| row.take(width(plan)),
            ));
            assert forall|i: int| 0 <= i < rows(world, wide).len() implies (#[trigger] rows(
                world,
                wide,
            )[i])[at] == value_of(meaning, expr, rows(world, plan)[i]) by {
                let j = limited_from(world, limit, all, i);
                match limit {
                    None => {},
                    Some(limit) => {
                        let k = (world.kept)(limit, all.len())[i];
                        assert(0 <= k < all.len());
                        assert(rows(world, wide)[i] == all[k]);
                        assert(rows(world, plan)[i] == rows(world, *input)[k]);
                    },
                }
            }
        },
        _ => {},
    }
}

/// Whether a call is found where a sharing says.
pub open spec fn placed(world: World, sharing: Sharing, input: Plan, call: Output, at: int) -> bool {
    match sharing.places[at] {
        Place::Computed(index) => carries(world, sharing.input, index, input, call.expr),
        Place::Asked(offset) => 0 <= offset < sharing.remaining.len() && sharing.remaining[offset]
            == call,
    }
}

/// Widening a wider plan.
proof fn widens_further(world: World, wider: Plan, wide: Plan, plan: Plan)
    requires
        world.sound(),
        widens(world, wider, wide),
        widens(world, wide, plan),
    ensures
        widens(world, wider, plan),
        forall|index: int, expr: Expr| #[trigger]
            carries(world, wide, index, plan, expr) ==> carries(world, wider, index, plan, expr),
{
    rows_width(world, wider);
    let all = rows(world, wider);
    let some = rows(world, wide);
    let few = rows(world, plan);
    assert forall|i: int| 0 <= i < all.len() implies {
        &&& (#[trigger] all[i]).take(width(plan)) == few[i]
        &&& all[i].take(width(wide)) == some[i]
    } by {
        assert(some[i] == all[i].take(width(wide)));
        assert(few[i] == some[i].take(width(plan)));
        assert(all[i].take(width(wide)).take(width(plan)) =~= all[i].take(width(plan)));
    }
    assert(few =~= all.map_values(|row: Row| row.take(width(plan))));
    assert forall|index: int, expr: Expr| #[trigger]
        carries(world, wide, index, plan, expr) implies carries(world, wider, index, plan, expr) by {
        assert forall|i: int| 0 <= i < all.len() implies (#[trigger] all[i])[index] == value_of(
            world.meaning,
            expr,
            few[i],
        ) by {
            assert(all[i][index] == all[i].take(width(wide))[index]);
            assert(some[i][index] == value_of(world.meaning, expr, few[i]));
        }
    }
}

/// What a sharing of some calls keeps: the rows of the input, a place for each call,
/// and each call that is no longer made is one that cost money.
pub proof fn sharing_keeps(world: World, input: Plan, calls: Seq<Output>)
    requires
        world.sound(),
        sound(input),
        all_within(calls, width(input)),
    ensures
        widens(world, shared(input, calls).input, input),
        shared(input, calls).places.len() == calls.len(),
        shared(input, calls).remaining.len() <= calls.len(),
        all_within(shared(input, calls).remaining, width(input)),
        forall|j: int|
            0 <= j < calls.len() ==> placed(
                world,
                shared(input, calls),
                input,
                #[trigger] calls[j],
                j,
            ),
        paid_count(shared(input, calls).remaining) + (calls.len() - shared(
            input,
            calls,
        ).remaining.len()) == paid_count(calls),
    decreases calls.len(),
{
    let sharing = shared(input, calls);
    if calls.len() == 0 {
        rows_width(world, input);
        assert forall|i: int| 0 <= i < rows(world, input).len() implies (#[trigger] rows(
            world,
            input,
        )[i]) =~= rows(world, input)[i].take(width(input)) by {}
        assert(rows(world, input) =~= rows(world, input).map_values(
            |row: Row| row.take(width(input)),
        ));
    } else {
        let fewer = calls.drop_last();
        let call = calls.last();
        assert(calls[calls.len() - 1] == call);
        assert forall|i: int| 0 <= i < fewer.len() implies within(
            (#[trigger] fewer[i]).expr,
            width(input),
        ) by {
            assert(fewer[i] == calls[i]);
        }
        sharing_keeps(world, input, fewer);
        let before = shared(input, fewer);
        within_wider(call.expr, width(input), width(before.input));
        match computed(before.input, call.expr) {
            Some((lower, index)) if paid(call.expr) => {
                computed_carries(world, before.input, call.expr);
                widens_further(world, lower, before.input, input);
                assert(sharing.input == lower);
                assert(sharing.remaining == before.remaining);
                assert forall|j: int| 0 <= j < calls.len() implies placed(
                    world,
                    sharing,
                    input,
                    #[trigger] calls[j],
                    j,
                ) by {
                    if j < fewer.len() {
                        assert(fewer[j] == calls[j]);
                        assert(sharing.places[j] == before.places[j]);
                        if let Place::Computed(k) = before.places[j] {
                            assert(carries(world, before.input, k, input, calls[j].expr));
                        }
                    } else {
                        assert(sharing.places[j] == Place::Computed(index));
                        carries_over(world, lower, index, before.input, input, call.expr);
                    }
                }
            },
            _ => {
                assert(sharing.input == before.input);
                assert(sharing.remaining.drop_last() =~= before.remaining);
                assert forall|i: int| 0 <= i < sharing.remaining.len() implies within(
                    (#[trigger] sharing.remaining[i]).expr,
                    width(input),
                ) by {
                    if i < before.remaining.len() {
                        assert(sharing.remaining[i] == before.remaining[i]);
                    }
                }
                assert forall|j: int| 0 <= j < calls.len() implies placed(
                    world,
                    sharing,
                    input,
                    #[trigger] calls[j],
                    j,
                ) by {
                    if j < fewer.len() {
                        assert(fewer[j] == calls[j]);
                        assert(sharing.places[j] == before.places[j]);
                    }
                }
            },
        }
    }
}

/// The values of an expression over the rows of a wider plan are those over the rows
/// of the plan.
proof fn carries_over(
    world: World,
    wider: Plan,
    index: int,
    wide: Plan,
    plan: Plan,
    expr: Expr,
)
    requires
        world.sound(),
        widens(world, wider, wide),
        widens(world, wide, plan),
        within(expr, width(plan)),
        carries(world, wider, index, wide, expr),
    ensures
        carries(world, wider, index, plan, expr),
{
    rows_width(world, wide);
    rows_width(world, plan);
    let all = rows(world, wider);
    let some = rows(world, wide);
    let few = rows(world, plan);
    assert forall|i: int| 0 <= i < all.len() implies (#[trigger] all[i])[index] == value_of(
        world.meaning,
        expr,
        few[i],
    ) by {
        assert(some.len() == all.len());
        assert(few[i] == some[i].take(width(plan)));
        value_of_prefix(world.meaning, expr, few[i], some[i], width(plan));
    }
}

/// Reading calls from their input keeps the rows and the columns, and asks for no
/// more judgments.
proof fn reused_calls_keep(world: World, calls: Seq<Output>, input: Plan)
    requires
        world.sound(),
        sound(input),
        all_within(calls, width(input)),
    ensures
        ({
            let plan = Plan::Async { calls, input: Box::new(input) };
            let result = reused_calls(calls, input);
            &&& sound(result)
            &&& names(result) == names(plan)
            &&& rows(world, result) == rows(world, plan)
            &&& asks(result) <= asks(plan)
        }),
{
    let plan = Plan::Async { calls, input: Box::new(input) };
    let result = reused_calls(calls, input);
    let sharing = shared(input, calls);
    if sharing.remaining.len() != calls.len() {
        let meaning = world.meaning;
        sharing_keeps(world, input, calls);
        let under = still_asked(sharing);
        let columns = result->columns;
        let all = rows(world, sharing.input);
        let few = rows(world, input);
        rows_width(world, sharing.input);
        rows_width(world, input);
        assert forall|i: int| 0 <= i < sharing.remaining.len() implies within(
            (#[trigger] sharing.remaining[i]).expr,
            width(sharing.input),
        ) by {
            within_wider(sharing.remaining[i].expr, width(input), width(sharing.input));
        }
        assert(sound(under));
        assert(width(under) == width(sharing.input) + sharing.remaining.len());
        assert forall|c: int| 0 <= c < columns.len() implies within(
            (#[trigger] columns[c]).expr,
            width(under),
        ) by {
            if c >= width(input) {
                assert(placed(world, sharing, input, calls[c - width(input)], c - width(input)));
            }
        }
        assert(names(result) =~= names(plan));
        assert(rows(world, under).len() == all.len());
        assert forall|i: int| 0 <= i < all.len() implies (#[trigger] rows(world, result)[i])
            == rows(world, plan)[i] by {
            let low = rows(world, under)[i];
            let made = rows(world, result)[i];
            let wanted = rows(world, plan)[i];
            assert(few[i] == all[i].take(width(input)));
            assert(wanted == answered(meaning, calls, few[i]));
            assert(made == values_of(meaning, output_exprs(columns), low));
            assert(sharing.remaining.len() > 0 ==> low == answered(
                meaning,
                sharing.remaining,
                all[i],
            ));
            assert forall|c: int| 0 <= c < columns.len() implies made[c] == wanted[c] by {
                assert(output_exprs(columns)[c] == columns[c].expr);
                let at = found_at(sharing, width(input), c);
                assert(made[c] == low[at]);
                if c >= width(input) {
                    let j = c - width(input);
                    let call = calls[j];
                    assert(placed(world, sharing, input, call, j));
                    assert(output_exprs(calls)[j] == call.expr);
                    assert(wanted[c] == value_of(meaning, call.expr, few[i]));
                    if let Place::Asked(offset) = sharing.places[j] {
                        assert(output_exprs(sharing.remaining)[offset] == call.expr);
                        assert(within(call.expr, width(input)));
                        value_of_prefix(meaning, call.expr, few[i], all[i], width(input));
                    }
                }
            }
            assert(made =~= wanted);
        }
        assert(rows(world, result) =~= rows(world, plan));
        assert(asks(under) == paid_count(sharing.remaining) + asks(sharing.input));
    }
}

/// Reusing judgments keeps a plan sound, with the same columns and the same rows, and
/// asks for no more judgments.
pub proof fn reusing_keeps_the_rows(world: World, plan: Plan)
    requires
        world.sound(),
        sound(plan),
    ensures
        sound(reused(plan)),
        names(reused(plan)) == names(plan),
        rows(world, reused(plan)) == rows(world, plan),
        asks(reused(plan)) <= asks(plan),
    decreases plan,
{
    match plan {
        Plan::Async { calls, input } => {
            reusing_keeps_the_rows(world, *input);
            reused_calls_keep(world, calls, reused(*input));
        },
        Plan::Paid { input, .. } => {
            reusing_keeps_the_rows(world, *input);
        },
        Plan::Projection { input, .. } => {
            reusing_keeps_the_rows(world, *input);
        },
        Plan::Filter { input, .. } => {
            reusing_keeps_the_rows(world, *input);
        },
        Plan::Stage { input, .. } => {
            reusing_keeps_the_rows(world, *input);
        },
        Plan::Other { children, .. } => {
            let results = all_reused(children);
            assert forall|i: int| 0 <= i < children.len() implies {
                &&& sound(#[trigger] results[i])
                &&& rows(world, results[i]) == rows(world, children[i])
                &&& asks(results[i]) <= asks(children[i])
            } by {
                assert(sound(children[i]));
                reusing_keeps_the_rows(world, children[i]);
            }
            assert(all_rows(world, results) =~= all_rows(world, children));
            all_ask_less(results, children);
        },
    }
}

/// Plans that each ask for no more judgments ask for no more together.
pub proof fn all_ask_less(list: Seq<Plan>, other: Seq<Plan>)
    requires
        list.len() == other.len(),
        forall|i: int| 0 <= i < list.len() ==> asks(#[trigger] list[i]) <= asks(other[i]),
    ensures
        all_ask(list) <= all_ask(other),
    decreases list.len(),
{
    if list.len() > 0 {
        assert(asks(list[list.len() - 1]) <= asks(other[list.len() - 1]));
        assert forall|i: int| 0 <= i < list.drop_last().len() implies asks(
            #[trigger] list.drop_last()[i],
        ) <= asks(other.drop_last()[i]) by {
            assert(list.drop_last()[i] == list[i]);
        }
        all_ask_less(list.drop_last(), other.drop_last());
    }
}

/// The place of the first named expression with an expression.
fn position_of(list: &Vec<NamedExpression>, expr: &Expression) -> (result: Option<usize>)
    ensures
        match (result, place_of(outputs(list@), expr@)) {
            (Some(at), Some(expected)) => at == expected,
            (None, None) => true,
            _ => false,
        },
{
    let ghost all = outputs(list@);
    for at in 0..list.len()
        invariant
            all == outputs(list@),
            place_of(all.take(at as int), expr@) is None,
    {
        proof {
            let more = all.take(at as int + 1);
            assert(more.drop_last() =~= all.take(at as int));
            assert(more.last() == all[at as int]);
        }
        if list[at].expr.same_as(expr) {
            proof {
                place_of_stays(all, expr@, at as int + 1);
            }
            return Some(at);
        }
    }
    assert(all.take(list@.len() as int) =~= all);
    None
}

/// The first place of an expression among the first outputs is its first place.
proof fn place_of_stays(list: Seq<Output>, expr: Expr, count: int)
    requires
        0 <= count <= list.len(),
        place_of(list.take(count), expr) is Some,
    ensures
        place_of(list, expr) == place_of(list.take(count), expr),
    decreases list.len(),
{
    if count == list.len() {
        assert(list.take(count) =~= list);
    } else {
        assert(list.drop_last().take(count) =~= list.take(count));
        place_of_stays(list.drop_last(), expr, count);
    }
}

/// The place of the first column with an index.
fn position_among(list: &Vec<usize>, index: usize) -> (result: Option<usize>)
    ensures
        match (result, place_among(places_of(list@), index as int)) {
            (Some(at), Some(expected)) => at == expected,
            (None, None) => true,
            _ => false,
        },
{
    let ghost all = places_of(list@);
    for at in 0..list.len()
        invariant
            all == places_of(list@),
            place_among(all.take(at as int), index as int) is None,
    {
        proof {
            let more = all.take(at as int + 1);
            assert(more.drop_last() =~= all.take(at as int));
            assert(more.last() == all[at as int]);
        }
        if list[at] == index {
            proof {
                place_among_stays(all, index as int, at as int + 1);
            }
            return Some(at);
        }
    }
    assert(all.take(list@.len() as int) =~= all);
    None
}

/// The first place of an index among the first ones is its first place.
proof fn place_among_stays(list: Seq<int>, index: int, count: int)
    requires
        0 <= count <= list.len(),
        place_among(list.take(count), index) is Some,
    ensures
        place_among(list, index) == place_among(list.take(count), index),
    decreases list.len(),
{
    if count == list.len() {
        assert(list.take(count) =~= list);
    } else {
        assert(list.drop_last().take(count) =~= list.take(count));
        place_among_stays(list.drop_last(), index, count);
    }
}

/// A column of a plan.
fn column(plan: &PhysicalPlan, index: usize) -> (result: Expression)
    requires
        sound(plan@),
        index < width(plan@),
    ensures
        result@ == column_of(plan@, index as int),
{
    let fields = plan.fields();
    assert(texts_of(fields@)[index as int] == fields@[index as int]@);
    Expression::Column { name: fields[index].clone(), index }
}

/// A projection of its input that also hands on a column of it, and the place of that
/// column.
fn project_with(columns: &Vec<NamedExpression>, input: PhysicalPlan, index: usize) -> (result: (
    PhysicalPlan,
    usize,
))
    requires
        sound(input@),
        index < width(input@),
    ensures
        (result.0@, result.1 as int) == projection_with(outputs(columns@), input@, index as int),
{
    let computed = column(&input, index);
    let mut columns = copy_outputs(columns);
    let ghost before = outputs(columns@);
    assert(before.len() == columns@.len());
    match position_of(&columns, &computed) {
        Some(at) => (PhysicalPlan::Projection { columns, input: Box::new(input) }, at),
        None => {
            let at = columns.len();
            columns.push(
                NamedExpression {
                    name: join2("__jev_reuse_", decimal_text(at as u64).as_str()),
                    expr: computed,
                },
            );
            assert(outputs(columns@) =~= before.push(
                reuse_column(input@, index as int, at as int),
            ));
            (PhysicalPlan::Projection { columns, input: Box::new(input) }, at)
        },
    }
}

/// A filter of its input that also hands on a column of it, and the place of that
/// column.
fn filter_and_keep(
    predicate: &Expression,
    settings: &FilterSettings,
    width: usize,
    input: PhysicalPlan,
    index: usize,
) -> (result: (PhysicalPlan, usize))
    ensures
        (result.0@, result.1 as int) == filter_with(
            predicate@,
            settings@,
            handed_places(settings@, width as int),
            input@,
            index as int,
        ),
{
    let mut places: Vec<usize> = Vec::new();
    match &settings.projection {
        Some(own) => {
            for at in 0..own.len()
                invariant
                    places@ == own@.take(at as int),
            {
                places.push(own[at]);
                assert(places@ =~= own@.take(at as int + 1));
            }
            assert(places@ =~= own@);
        },
        None => {
            for at in 0..width
                invariant
                    places@.len() == at,
                    forall|i: int| 0 <= i < at ==> #[trigger] places@[i] == i,
            {
                places.push(at);
            }
        },
    }
    assert(places_of(places@) =~= handed_places(settings@, width as int));
    let ghost before = places_of(places@);
    let at = match position_among(&places, index) {
        Some(at) => at,
        None => {
            let at = places.len();
            places.push(index);
            assert(places_of(places@) =~= before.push(index as int));
            at
        },
    };
    let filter = PhysicalPlan::Filter {
        predicate: predicate.copy(),
        settings: FilterSettings {
            projection: Some(places),
            fetch: settings.fetch,
            batch_size: settings.batch_size,
            selectivity: settings.selectivity,
        },
        input: Box::new(input),
    };
    (filter, at)
}

/// A plan that hands on the value of an expression that is computed in it, and the
/// column in which it does.
pub fn find_computed(plan: &PhysicalPlan, expression: &Expression) -> (result: Option<
    (PhysicalPlan, usize),
>)
    requires
        sound(plan@),
        within(expression@, width(plan@)),
    ensures
        match (result, computed(plan@, expression@)) {
            (Some((wide, index)), Some(expected)) => (wide@, index as int) == expected,
            (None, None) => true,
            _ => false,
        },
    decreases plan,
{
    match plan {
        PhysicalPlan::Async { calls, .. } => {
            let fields = plan.fields();
            assert(texts_of(fields@).len() == fields@.len());
            proof {
                place_of_is(outputs(calls@), expression@);
            }
            match position_of(calls, expression) {
                Some(at) => Some((plan.copy(), fields.len() - calls.len() + at)),
                None => None,
            }
        },
        PhysicalPlan::Projection { columns, input } => {
            let own = expressions_of(columns);
            assert(exprs(own@).len() == own@.len());
            let inner = expression.map_columns(&own);
            proof {
                let list = output_exprs(outputs(columns@));
                assert forall|i: int| 0 <= i < list.len() implies within(
                    #[trigger] list[i],
                    width(input@),
                ) by {
                    assert(within(outputs(columns@)[i].expr, width(input@)));
                }
                within_mapped(expression@, list, width(input@));
            }
            match find_computed(input, &inner) {
                Some((lower, index)) => {
                    proof {
                        computed_carries(no_rows(), input@, inner@);
                    }
                    Some(project_with(columns, lower, index))
                },
                None => None,
            }
        },
        PhysicalPlan::Filter { predicate, settings, input } => {
            let columns = columns_handed_on(input, settings);
            assert(exprs(columns@).len() == columns@.len());
            let inner = expression.map_columns(&columns);
            proof {
                within_mapped(expression@, exprs(columns@), width(input@));
            }
            let fields = input.fields();
            assert(texts_of(fields@).len() == fields@.len());
            match find_computed(input, &inner) {
                Some((lower, index)) => Some(
                    filter_and_keep(predicate, settings, fields.len(), lower, index),
                ),
                None => None,
            }
        },
        PhysicalPlan::Stage { stage, input } => {
            let carries = match stage {
                Stage::GlobalLimit { .. } => true,
                Stage::LocalLimit { .. } => true,
                Stage::CoalescePartitions { .. } => true,
                Stage::Repartition { .. } => true,
                Stage::Cooperative { .. } => true,
                _ => false,
            };
            if !carries {
                return None;
            }
            match find_computed(input, expression) {
                Some((lower, index)) => Some(
                    (PhysicalPlan::Stage { stage: *stage, input: Box::new(lower) }, index),
                ),
                None => None,
            }
        },
        _ => None,
    }
}

/// Where the value of a call is found: in a column of the input, or among the calls
/// that are still made.
enum Position {
    Computed(usize),
    Asked(usize),
}

impl Position {
    spec fn view(&self) -> Place {
        match self {
            Position::Computed(index) => Place::Computed(*index as int),
            Position::Asked(offset) => Place::Asked(*offset as int),
        }
    }
}

/// The meanings of some positions.
spec fn positions_view(list: Seq<Position>) -> Seq<Place> {
    Seq::new(list.len(), |i: int| list[i]@)
}

/// Some calls on an input, with those that the input computes read from it.
fn reuse_calls(calls: &Vec<NamedExpression>, input: PhysicalPlan) -> (result: PhysicalPlan)
    requires
        sound(input@),
        all_within(outputs(calls@), width(input@)),
    ensures
        result@ == reused_calls(outputs(calls@), input@),
{
    let ghost all = outputs(calls@);
    let ghost from = input@;
    let mut lower = input.copy();
    let mut positions: Vec<Position> = Vec::new();
    let mut remaining: Vec<NamedExpression> = Vec::new();
    assert(positions_view(positions@) =~= Seq::empty());
    assert(outputs(remaining@) =~= Seq::empty());
    for at in 0..calls.len()
        invariant
            all == outputs(calls@),
            sound(from),
            all_within(all, width(from)),
            shared(from, all.take(at as int)) == (Sharing {
                input: lower@,
                places: positions_view(positions@),
                remaining: outputs(remaining@),
            }),
    {
        let ghost fewer = all.take(at as int);
        let ghost places = positions_view(positions@);
        let ghost asked = outputs(remaining@);
        proof {
            assert forall|i: int| 0 <= i < fewer.len() implies within(
                (#[trigger] fewer[i]).expr,
                width(from),
            ) by {
                assert(fewer[i] == all[i]);
            }
            sharing_keeps(no_rows(), from, fewer);
            assert(within(all[at as int].expr, width(from)));
            within_wider(all[at as int].expr, width(from), width(lower@));
            let more = all.take(at as int + 1);
            assert(more.drop_last() =~= fewer);
            assert(more.last() == all[at as int]);
            assert(asked.len() == remaining@.len());
        }
        let call = &calls[at];
        let found = if call.expr.is_jev() {
            find_computed(&lower, &call.expr)
        } else {
            None
        };
        match found {
            Some((wide, index)) => {
                lower = wide;
                positions.push(Position::Computed(index));
                assert(positions_view(positions@) =~= places.push(Place::Computed(index as int)));
            },
            None => {
                let offset = remaining.len();
                positions.push(Position::Asked(offset));
                assert(positions_view(positions@) =~= places.push(Place::Asked(offset as int)));
                remaining.push(NamedExpression { name: call.name.clone(), expr: call.expr.copy() });
                assert(outputs(remaining@) =~= asked.push(all[at as int]));
            },
        }
    }
    assert(all.take(calls@.len() as int) =~= all);
    let ghost sharing = shared(from, all);
    proof {
        sharing_keeps(no_rows(), from, all);
        assert(outputs(remaining@).len() == remaining@.len());
        assert(positions_view(positions@).len() == positions@.len());
    }
    let unchanged = remaining.len() == calls.len();
    let plan = PhysicalPlan::Async { calls: copy_outputs(calls), input: Box::new(input) };
    assert(plan@ == Plan::Async { calls: all, input: Box::new(from) });
    if unchanged {
        return plan;
    }
    let fields = plan.fields();
    assert(texts_of(fields@).len() == fields@.len());
    let columns = fields.len() - calls.len();
    let lower_fields = lower.fields();
    assert(texts_of(lower_fields@).len() == lower_fields@.len());
    let input_columns = lower_fields.len();
    proof {
        assert forall|i: int| 0 <= i < sharing.remaining.len() implies within(
            (#[trigger] sharing.remaining[i]).expr,
            width(sharing.input),
        ) by {
            within_wider(sharing.remaining[i].expr, width(from), width(sharing.input));
        }
    }
    let computed = if remaining.len() == 0 {
        lower
    } else {
        PhysicalPlan::Async { calls: remaining, input: Box::new(lower) }
    };
    assert(computed@ == still_asked(sharing));
    assert(sound(computed@));
    let under = computed.fields();
    assert(texts_of(under@).len() == under@.len());
    assert(under@.len() == width(sharing.input) + sharing.remaining.len());
    let mut outs: Vec<NamedExpression> = Vec::new();
    for at in 0..fields.len()
        invariant
            all.len() == calls@.len(),
            sharing == shared(from, all),
            sharing.places == positions_view(positions@),
            forall|j: int|
                0 <= j < all.len() ==> placed(no_rows(), sharing, from, #[trigger] all[j], j),
            texts_of(fields@) == names(plan@),
            fields@.len() == width(from) + all.len(),
            positions@.len() == all.len(),
            columns == width(from),
            input_columns == width(sharing.input),
            width(from) <= width(sharing.input),
            computed@ == still_asked(sharing),
            texts_of(under@) == names(computed@),
            under@.len() == width(sharing.input) + sharing.remaining.len(),
            outs@.len() == at,
            forall|i: int|
                0 <= i < at ==> (#[trigger] outs@[i])@ == (Output {
                    name: names(plan@)[i],
                    expr: column_of(still_asked(sharing), found_at(sharing, width(from), i)),
                }),
    {
        proof {
            if at >= columns {
                let j = at as int - columns as int;
                assert(placed(no_rows(), sharing, from, all[j], j));
                assert(sharing.places[j] == positions@[j]@);
            }
        }
        let total = under.len();
        let index = if at < columns {
            at
        } else {
            match &positions[at - columns] {
                Position::Computed(index) => *index,
                Position::Asked(offset) => {
                    assert(input_columns + *offset < total);
                    input_columns + *offset
                },
            }
        };
        assert(index == found_at(sharing, width(from), at as int));
        assert(index < under@.len());
        assert(texts_of(under@)[index as int] == under@[index as int]@);
        assert(texts_of(fields@)[at as int] == fields@[at as int]@);
        outs.push(
            NamedExpression {
                name: fields[at].clone(),
                expr: Expression::Column { name: under[index].clone(), index },
            },
        );
    }
    let result = PhysicalPlan::Projection { columns: outs, input: Box::new(computed) };
    assert(outputs(outs@) =~= reused_calls(all, from)->columns);
    result
}

/// A plan in which no judgment is asked for that its input already holds.
pub fn reuse_computed(plan: &PhysicalPlan) -> (result: PhysicalPlan)
    requires
        sound(plan@),
    ensures
        result@ == reused(plan@),
    decreases plan,
{
    broadcast use other_view;

    match plan {
        PhysicalPlan::Async { calls, input } => {
            let lower = reuse_computed(input);
            proof {
                reusing_keeps_the_rows(no_rows(), input@);
            }
            reuse_calls(calls, lower)
        },
        PhysicalPlan::Paid { calls, demand, input } => PhysicalPlan::Paid {
            calls: copy_outputs(calls),
            demand: *demand,
            input: Box::new(reuse_computed(input)),
        },
        PhysicalPlan::Projection { columns, input } => PhysicalPlan::Projection {
            columns: copy_outputs(columns),
            input: Box::new(reuse_computed(input)),
        },
        PhysicalPlan::Filter { predicate, settings, input } => PhysicalPlan::Filter {
            predicate: predicate.copy(),
            settings: settings.copy(),
            input: Box::new(reuse_computed(input)),
        },
        PhysicalPlan::Stage { stage, input } => PhysicalPlan::Stage {
            stage: *stage,
            input: Box::new(reuse_computed(input)),
        },
        PhysicalPlan::Other { id, fields, children } => {
            let mut results: Vec<PhysicalPlan> = Vec::new();
            for at in 0..children.len()
                invariant
                    decreases_to!(plan => children@),
                    forall|i: int| 0 <= i < children@.len() ==> sound(#[trigger] plans(children@)[i]),
                    results@.len() == at,
                    forall|i: int|
                        0 <= i < at ==> (#[trigger] results@[i])@ == reused(children@[i]@),
            {
                assert(sound(plans(children@)[at as int]));
                results.push(reuse_computed(&children[at]));
            }
            assert(plans(results@) =~= all_reused(plans(children@)));
            PhysicalPlan::Other { id: *id, fields: copy_texts(fields), children: results }
        },
    }
}

} // verus!
