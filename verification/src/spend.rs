//! Where the calls that cost money are made: by the library, and below a limit only
//! for rows that are asked for.
use vstd::prelude::*;

use crate::expression::{conjuncts, mapped, paid, Expr};
use crate::plan::{
    all_rows, any_jev, any_paid, copy_outputs, copy_texts, has_paid, limit_of, limited, names,
    no_rows, nothing, other_view, output_exprs, plans, rows, sound, Output, PhysicalPlan, Plan,
    Settings, Stage, World,
};
use crate::planner::{
    all_pushed, below, handed_on, placing_filters_keeps_the_rows, plain_settings,
    push_cheap_filters, pushed, pushed_filter, sorted_out,
};
use crate::reuse::{
    all_ask_less, all_reused, asks, reuse_computed, reused, reusing_keeps_the_rows, shared,
};

verus! {

/// Whether a step ends after some rows.
pub open spec fn starts_limit(plan: Plan) -> bool {
    match plan {
        Plan::Stage { stage, .. } => match stage {
            Stage::GlobalLimit { fetch, .. } => fetch is Some,
            Stage::LocalLimit { .. } => true,
            Stage::CoalescePartitions { fetch } => fetch is Some,
            _ => false,
        },
        Plan::Filter { settings, .. } => settings.fetch is Some,
        _ => false,
    }
}

/// Whether a step needs no more rows of its input than are asked of it.
pub open spec fn passes_demand(plan: Plan) -> bool {
    match plan {
        Plan::Async { .. } => true,
        Plan::Projection { .. } => true,
        Plan::Filter { .. } => true,
        Plan::Stage { stage, .. } => !(stage is SerialPartitions),
        _ => false,
    }
}

/// Whether the judgments of a plan are asked for one by one.
pub open spec fn demanded(plan: Plan, demand: bool) -> bool {
    (demand || starts_limit(plan)) && passes_demand(plan) && has_paid(plan)
}

/// A step on a rewritten input.
pub open spec fn rewritten_stage(stage: Stage, input: Plan, demand: bool) -> Plan {
    if !demand {
        Plan::Stage { stage, input: Box::new(input) }
    } else {
        match stage {
            Stage::CoalesceBatches { fetch, .. } => match fetch {
                Some(count) => Plan::Stage {
                    stage: Stage::LocalLimit { count },
                    input: Box::new(input),
                },
                None => input,
            },
            Stage::Repartition { .. } => input,
            Stage::CoalescePartitions { fetch } => {
                let serial = Plan::Stage {
                    stage: Stage::SerialPartitions,
                    input: Box::new(input),
                };
                match fetch {
                    Some(_) => Plan::Stage {
                        stage: Stage::GlobalLimit { skip: 0, fetch },
                        input: Box::new(serial),
                    },
                    None => serial,
                }
            },
            _ => Plan::Stage { stage, input: Box::new(input) },
        }
    }
}

/// A plan in which the library makes the calls that cost money; those that a limit
/// may not need one by one.
pub open spec fn rewritten(plan: Plan, demand: bool) -> Plan
    decreases plan,
{
    let demand = demanded(plan, demand);
    match plan {
        Plan::Async { calls, input } => {
            let lower = Box::new(rewritten(*input, demand));
            if any_paid(calls) {
                Plan::Paid { calls, demand, input: lower }
            } else {
                Plan::Async { calls, input: lower }
            }
        },
        Plan::Paid { calls, demand: own, input } => Plan::Paid {
            calls,
            demand: own,
            input: Box::new(rewritten(*input, demand)),
        },
        Plan::Projection { columns, input } => Plan::Projection {
            columns,
            input: Box::new(rewritten(*input, demand)),
        },
        Plan::Filter { predicate, settings, input } => Plan::Filter {
            predicate,
            settings: if demand {
                Settings { batch_size: 1, ..settings }
            } else {
                settings
            },
            input: Box::new(rewritten(*input, demand)),
        },
        Plan::Stage { stage, input } => rewritten_stage(stage, rewritten(*input, demand), demand),
        Plan::Other { id, fields, children } => Plan::Other {
            id,
            fields,
            children: all_rewritten(children),
        },
    }
}

/// Some plans, each in its own right, in which the library makes the calls.
pub open spec fn all_rewritten(list: Seq<Plan>) -> Seq<Plan>
    decreases list,
{
    Seq::new(
        list.len(),
        |i: int|
            if 0 <= i < list.len() {
                rewritten(list[i], false)
            } else {
                nothing()
            },
    )
}

/// A plan with its calls arranged: filters placed, judgments reused, calls made by
/// the library.
pub open spec fn optimized(plan: Plan) -> Plan {
    rewritten(reused(pushed(plan)), false)
}

/// Rewriting keeps a plan sound, with the same columns, the same rows and the same
/// calls, all of which the library then makes.
pub proof fn rewriting_keeps_the_rows(world: World, plan: Plan, demand: bool)
    requires
        world.sound(),
        sound(plan),
    ensures
        sound(rewritten(plan, demand)),
        names(rewritten(plan, demand)) == names(plan),
        asks(rewritten(plan, demand)) == asks(plan),
        !has_paid(rewritten(plan, demand)),
        rows(world, rewritten(plan, demand)) == rows(world, plan),
    decreases plan,
{
    let inner = demanded(plan, demand);
    match plan {
        Plan::Async { input, .. } => {
            rewriting_keeps_the_rows(world, *input, inner);
        },
        Plan::Paid { input, .. } => {
            rewriting_keeps_the_rows(world, *input, inner);
        },
        Plan::Projection { input, .. } => {
            rewriting_keeps_the_rows(world, *input, inner);
        },
        Plan::Filter { input, .. } => {
            rewriting_keeps_the_rows(world, *input, inner);
        },
        Plan::Stage { stage, input } => {
            rewriting_keeps_the_rows(world, *input, inner);
            rewritten_stage_keeps(world, stage, rewritten(*input, inner), inner);
        },
        Plan::Other { children, .. } => {
            let results = all_rewritten(children);
            assert forall|i: int| 0 <= i < children.len() implies {
                &&& sound(#[trigger] results[i])
                &&& asks(results[i]) == asks(children[i])
                &&& !has_paid(results[i])
                &&& rows(world, results[i]) == rows(world, children[i])
            } by {
                assert(sound(children[i]));
                rewriting_keeps_the_rows(world, children[i], false);
            }
            assert(all_rows(world, results) =~= all_rows(world, children));
            all_ask_less(results, children);
            all_ask_less(children, results);
        },
    }
}

/// The same for a step that hands on rows.
proof fn rewritten_stage_keeps(world: World, stage: Stage, input: Plan, demand: bool)
    requires
        sound(input),
        !has_paid(input),
    ensures
        sound(rewritten_stage(stage, input, demand)),
        names(rewritten_stage(stage, input, demand)) == names(input),
        asks(rewritten_stage(stage, input, demand)) == asks(input),
        !has_paid(rewritten_stage(stage, input, demand)),
        rows(world, rewritten_stage(stage, input, demand)) == limited(
            world,
            limit_of(stage),
            rows(world, input),
        ),
{
    let serial = Plan::Stage { stage: Stage::SerialPartitions, input: Box::new(input) };
    assert(sound(serial) && names(serial) == names(input) && asks(serial) == asks(input));
    assert(!has_paid(serial) && rows(world, serial) == rows(world, input));
}

/// A limit has no bearing on the judgments below a step that may need every row of
/// its inputs.
pub proof fn blocking_steps_hide_limits(plan: Plan)
    requires
        plan is Other,
    ensures
        rewritten(plan, true) == rewritten(plan, false),
{
}

/// Whether every step of a plan hands demand on, down to steps that may need every row of
/// their inputs, and the library makes none of its calls yet.
pub open spec fn hands_demand_on(plan: Plan) -> bool
    decreases plan,
{
    match plan {
        Plan::Async { input, .. } => hands_demand_on(*input),
        Plan::Paid { .. } => false,
        Plan::Projection { input, .. } => hands_demand_on(*input),
        Plan::Filter { input, .. } => hands_demand_on(*input),
        Plan::Stage { stage, input } => !(stage is SerialPartitions) && hands_demand_on(*input),
        Plan::Other { .. } => true,
    }
}

/// Whether the library makes the judgments of a plan one by one, down to steps that may need
/// every row of their inputs.
pub open spec fn made_singly(plan: Plan) -> bool
    decreases plan,
{
    match plan {
        Plan::Async { calls, input } => !any_paid(calls) && made_singly(*input),
        Plan::Paid { demand, input, .. } => demand && made_singly(*input),
        Plan::Projection { input, .. } => made_singly(*input),
        Plan::Filter { input, .. } => made_singly(*input),
        Plan::Stage { input, .. } => made_singly(*input),
        Plan::Other { .. } => true,
    }
}

/// Judgments below a limit that is reached only through steps that hand demand on are made
/// one by one.
pub proof fn limits_spare_judgments(plan: Plan, demand: bool)
    requires
        demand || starts_limit(plan),
        hands_demand_on(plan),
    ensures
        made_singly(rewritten(plan, demand)),
    decreases plan,
{
    if !has_paid(plan) {
        plans_without_judgments_stay(plan, demand);
        nothing_to_make(plan);
    } else {
        match plan {
            Plan::Async { input, .. } => {
                limits_spare_judgments(*input, true);
            },
            Plan::Paid { .. } => {},
            Plan::Projection { input, .. } => {
                limits_spare_judgments(*input, true);
            },
            Plan::Filter { input, .. } => {
                limits_spare_judgments(*input, true);
            },
            Plan::Stage { stage, input } => {
                limits_spare_judgments(*input, true);
                let lower = rewritten(*input, true);
                let serial = Plan::Stage {
                    stage: Stage::SerialPartitions,
                    input: Box::new(lower),
                };
                assert(made_singly(serial));
                assert(made_singly(rewritten_stage(stage, lower, true)));
            },
            Plan::Other { .. } => {},
        }
    }
}

/// Where no call costs money, none is made.
proof fn nothing_to_make(plan: Plan)
    requires
        !has_paid(plan),
        hands_demand_on(plan),
    ensures
        made_singly(plan),
    decreases plan,
{
    match plan {
        Plan::Async { input, .. } => {
            nothing_to_make(*input);
        },
        Plan::Projection { input, .. } => {
            nothing_to_make(*input);
        },
        Plan::Filter { input, .. } => {
            nothing_to_make(*input);
        },
        Plan::Stage { input, .. } => {
            nothing_to_make(*input);
        },
        _ => {},
    }
}

/// Arranging the calls of a plan keeps its columns and its rows, asks for no more
/// judgments, and leaves all calls to the library.
pub proof fn optimizing_keeps_the_rows(world: World, plan: Plan)
    requires
        world.sound(),
        sound(plan),
    ensures
        sound(optimized(plan)),
        names(optimized(plan)) == names(plan),
        asks(optimized(plan)) <= asks(plan),
        !has_paid(optimized(plan)),
        rows(world, optimized(plan)) == rows(world, plan),
{
    placing_filters_keeps_the_rows(world, plan);
    pushed_asks(plan);
    reusing_keeps_the_rows(world, pushed(plan));
    rewriting_keeps_the_rows(world, reused(pushed(plan)), false);
}

/// Moving a predicate asks for the same judgments.
proof fn below_asks(plan: Plan, predicate: Expr)
    ensures
        below(plan, predicate) matches Some(lower) ==> asks(lower) == asks(plan),
    decreases plan,
{
    match plan {
        Plan::Async { calls, input } => {
            below_asks(*input, predicate);
            if below(*input, predicate) is None {
                let filter = Plan::Filter {
                    predicate,
                    settings: plain_settings(),
                    input,
                };
                assert(asks(filter) == asks(*input));
            }
        },
        Plan::Projection { columns, input } => {
            below_asks(
                *input,
                mapped(predicate, output_exprs(columns)),
            );
        },
        Plan::Filter { settings, input, .. } => {
            below_asks(
                *input,
                mapped(
                    predicate,
                    handed_on(names(*input), settings.projection),
                ),
            );
        },
        Plan::Stage { input, .. } => {
            below_asks(*input, predicate);
        },
        _ => {},
    }
}

/// Sorting out the parts of a predicate asks for the same judgments.
proof fn sorted_out_asks(input: Plan, parts: Seq<Expr>)
    ensures
        asks(sorted_out(input, parts).0) == asks(input),
    decreases parts.len(),
{
    if parts.len() > 0 {
        sorted_out_asks(input, parts.drop_last());
        below_asks(sorted_out(input, parts.drop_last()).0, parts.last());
    }
}

/// Placing filters asks for the same judgments.
pub proof fn pushed_asks(plan: Plan)
    ensures
        asks(pushed(plan)) == asks(plan),
    decreases plan,
{
    match plan {
        Plan::Async { input, .. } => {
            pushed_asks(*input);
        },
        Plan::Paid { input, .. } => {
            pushed_asks(*input);
        },
        Plan::Projection { input, .. } => {
            pushed_asks(*input);
        },
        Plan::Filter { predicate, settings, input } => {
            pushed_asks(*input);
            let lower = pushed(*input);
            sorted_out_asks(lower, conjuncts(predicate));
            assert(asks(pushed_filter(predicate, settings, lower)) == asks(lower));
        },
        Plan::Stage { input, .. } => {
            pushed_asks(*input);
        },
        Plan::Other { children, .. } => {
            let results = all_pushed(children);
            assert forall|i: int| 0 <= i < children.len() implies asks(#[trigger] results[i])
                == asks(children[i]) by {
                pushed_asks(children[i]);
            }
            all_ask_less(results, children);
            all_ask_less(children, results);
        },
    }
}

/// A plan without calls that cost money is left as it is.
pub proof fn plans_without_judgments_stay(plan: Plan, demand: bool)
    requires
        !has_paid(plan),
    ensures
        pushed(plan) == plan,
        reused(plan) == plan,
        rewritten(plan, demand) == plan,
        optimized(plan) == plan,
    decreases plan,
{
    match plan {
        Plan::Async { calls, input } => {
            plans_without_judgments_stay(*input, false);
            free_calls_stay(*input, calls);
        },
        Plan::Paid { input, .. } => {
            plans_without_judgments_stay(*input, false);
        },
        Plan::Projection { input, .. } => {
            plans_without_judgments_stay(*input, false);
        },
        Plan::Filter { input, .. } => {
            plans_without_judgments_stay(*input, false);
        },
        Plan::Stage { input, .. } => {
            plans_without_judgments_stay(*input, false);
        },
        Plan::Other { children, .. } => {
            assert forall|i: int| 0 <= i < children.len() implies {
                &&& pushed(#[trigger] children[i]) == children[i]
                &&& reused(children[i]) == children[i]
                &&& rewritten(children[i], false) == children[i]
            } by {
                plans_without_judgments_stay(children[i], false);
            }
            assert(all_pushed(children) =~= children);
            assert(all_reused(children) =~= children);
            assert(all_rewritten(children) =~= children);
        },
    }
}

/// Calls that cost nothing are not looked for in their input.
proof fn free_calls_stay(input: Plan, calls: Seq<Output>)
    requires
        !any_paid(calls),
    ensures
        shared(input, calls).remaining == calls,
        shared(input, calls).input == input,
    decreases calls.len(),
{
    if calls.len() > 0 {
        let fewer = calls.drop_last();
        assert forall|i: int| 0 <= i < fewer.len() implies !paid((#[trigger] fewer[i]).expr) by {
            assert(fewer[i] == calls[i]);
        }
        free_calls_stay(input, fewer);
        assert(calls[calls.len() - 1] == calls.last());
        assert(!paid(calls.last().expr));
        assert(shared(input, calls).remaining =~= calls);
    } else {
        assert(shared(input, calls).remaining =~= calls);
    }
}

/// Whether the judgments of a plan are asked for one by one.
fn is_demanded(plan: &PhysicalPlan, demand: bool) -> (yes: bool)
    ensures
        yes == demanded(plan@, demand),
{
    let starts = match plan {
        PhysicalPlan::Stage { stage, .. } => match stage {
            Stage::GlobalLimit { fetch, .. } => fetch.is_some(),
            Stage::LocalLimit { .. } => true,
            Stage::CoalescePartitions { fetch } => fetch.is_some(),
            _ => false,
        },
        PhysicalPlan::Filter { settings, .. } => settings.fetch.is_some(),
        _ => false,
    };
    // A sort, a join or an aggregate may need every row of its input: a limit above it
    // cannot spare judgments.
    let passes = match plan {
        PhysicalPlan::Async { .. } => true,
        PhysicalPlan::Projection { .. } => true,
        PhysicalPlan::Filter { .. } => true,
        PhysicalPlan::Stage { stage, .. } => match stage {
            Stage::SerialPartitions => false,
            _ => true,
        },
        _ => false,
    };
    (demand || starts) && passes && plan.has_jev()
}

/// A step on a rewritten input.
fn rewrite_stage(stage: Stage, input: PhysicalPlan, demand: bool) -> (result: PhysicalPlan)
    ensures
        result@ == rewritten_stage(stage, input@, demand),
{
    if !demand {
        return PhysicalPlan::Stage { stage, input: Box::new(input) };
    }
    match stage {
        // Batches are not waited for, but their own limit stays.
        Stage::CoalesceBatches { fetch, .. } => match fetch {
            Some(count) => PhysicalPlan::Stage {
                stage: Stage::LocalLimit { count },
                input: Box::new(input),
            },
            None => input,
        },
        Stage::Repartition { .. } => input,
        Stage::CoalescePartitions { fetch } => {
            let serial = PhysicalPlan::Stage {
                stage: Stage::SerialPartitions,
                input: Box::new(input),
            };
            assert(serial@ == Plan::Stage {
                stage: Stage::SerialPartitions,
                input: Box::new(input@),
            });
            match fetch {
                Some(_) => PhysicalPlan::Stage {
                    stage: Stage::GlobalLimit { skip: 0, fetch },
                    input: Box::new(serial),
                },
                None => serial,
            }
        },
        _ => PhysicalPlan::Stage { stage, input: Box::new(input) },
    }
}

/// A plan in which the library makes the calls that cost money; those that a limit
/// may not need one by one.
pub fn rewrite(plan: &PhysicalPlan, demand: bool) -> (result: PhysicalPlan)
    ensures
        result@ == rewritten(plan@, demand),
    decreases plan,
{
    broadcast use other_view;

    let demand = is_demanded(plan, demand);
    match plan {
        PhysicalPlan::Async { calls, input } => {
            let lower = Box::new(rewrite(input, demand));
            if any_jev(calls) {
                PhysicalPlan::Paid { calls: copy_outputs(calls), demand, input: lower }
            } else {
                PhysicalPlan::Async { calls: copy_outputs(calls), input: lower }
            }
        },
        PhysicalPlan::Paid { calls, demand: own, input } => PhysicalPlan::Paid {
            calls: copy_outputs(calls),
            demand: *own,
            input: Box::new(rewrite(input, demand)),
        },
        PhysicalPlan::Projection { columns, input } => PhysicalPlan::Projection {
            columns: copy_outputs(columns),
            input: Box::new(rewrite(input, demand)),
        },
        PhysicalPlan::Filter { predicate, settings, input } => {
            let mut settings = settings.copy();
            if demand {
                settings.batch_size = 1;
            }
            PhysicalPlan::Filter {
                predicate: predicate.copy(),
                settings,
                input: Box::new(rewrite(input, demand)),
            }
        },
        PhysicalPlan::Stage { stage, input } => rewrite_stage(
            *stage,
            rewrite(input, demand),
            demand,
        ),
        PhysicalPlan::Other { id, fields, children } => {
            let mut results: Vec<PhysicalPlan> = Vec::new();
            for at in 0..children.len()
                invariant
                    decreases_to!(plan => children@),
                    !demand,
                    results@.len() == at,
                    forall|i: int|
                        0 <= i < at ==> (#[trigger] results@[i])@ == rewritten(
                            children@[i]@,
                            false,
                        ),
            {
                results.push(rewrite(&children[at], demand));
            }
            assert(plans(results@) =~= all_rewritten(plans(children@)));
            PhysicalPlan::Other { id: *id, fields: copy_texts(fields), children: results }
        },
    }
}

/// A plan with its calls arranged: filters placed, judgments reused, calls made by
/// the library.
pub fn optimize(plan: &PhysicalPlan) -> (result: PhysicalPlan)
    requires
        sound(plan@),
    ensures
        result@ == optimized(plan@),
{
    let placed = push_cheap_filters(plan);
    proof {
        placing_filters_keeps_the_rows(no_rows(), plan@);
    }
    let shared = reuse_computed(&placed);
    rewrite(&shared, false)
}

} // verus!
