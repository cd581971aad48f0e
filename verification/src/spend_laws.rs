//! What arranging a plan does for the calls in it, told from the plan's own steps.
use vstd::prelude::*;

use crate::expression::{paid, Expr};
use crate::plan::{any_paid, has_paid, Output, Plan, Settings, Stage};
use crate::spend::{all_rewritten, plans_without_judgments_stay, rewritten};

verus! {

/// How many rows a step hands out at most, whatever it is given; none where it says no
/// number, and none for a step that only gathers batches.
pub open spec fn row_bound(plan: Plan) -> Option<usize> {
    match plan {
        Plan::Filter { settings, .. } => settings.fetch,
        Plan::Stage { stage: Stage::GlobalLimit { fetch, .. }, .. } => fetch,
        Plan::Stage { stage: Stage::LocalLimit { count }, .. } => Some(count),
        Plan::Stage { stage: Stage::CoalescePartitions { fetch }, .. } => fetch,
        _ => None,
    }
}

/// Whether a plan is a chain of steps that each take one row at a time, down to a step that
/// may need every row of its inputs, with no call handed to the library yet.
pub open spec fn row_wise(plan: Plan) -> bool
    decreases plan,
{
    match plan {
        Plan::Async { input, .. } => row_wise(*input),
        Plan::Projection { input, .. } => row_wise(*input),
        Plan::Filter { input, .. } => row_wise(*input),
        Plan::Stage { stage, input } => stage != Stage::SerialPartitions && row_wise(*input),
        Plan::Other { .. } => true,
        Plan::Paid { .. } => false,
    }
}

/// Whether the library makes a call in the chain of steps at the top of a plan.
pub open spec fn makes_calls(plan: Plan) -> bool
    decreases plan,
{
    match plan {
        Plan::Paid { .. } => true,
        Plan::Async { input, .. } => makes_calls(*input),
        Plan::Projection { input, .. } => makes_calls(*input),
        Plan::Filter { input, .. } => makes_calls(*input),
        Plan::Stage { input, .. } => makes_calls(*input),
        Plan::Other { .. } => false,
    }
}

/// Whether every call that the library makes in the chain at the top of a plan waits until
/// its row is asked for, and nothing above such a call gathers rows: filters take one row at
/// a time, and no step collects batches or spreads rows over partitions.
pub open spec fn row_by_row(plan: Plan) -> bool
    decreases plan,
{
    match plan {
        Plan::Async { calls, input } => !any_paid(calls) && row_by_row(*input),
        Plan::Paid { demand, input, .. } => demand && row_by_row(*input),
        Plan::Projection { input, .. } => row_by_row(*input),
        Plan::Filter { settings, input, .. } => row_by_row(*input) && (makes_calls(*input)
            ==> settings.batch_size == 1),
        Plan::Stage { stage, input } => row_by_row(*input) && (makes_calls(*input) ==> !(
        stage is Repartition) && !(stage is CoalesceBatches) && !(stage is CoalescePartitions)),
        Plan::Other { .. } => true,
    }
}

/// Below a step that hands out a bounded number of rows, judgments are made row by row:
/// whatever chain of row-wise steps stands below it, no judgment of that chain is made before
/// its row is asked for.
pub proof fn bounded_rows_spare_judgments(plan: Plan)
    requires
        row_bound(plan) is Some,
        row_wise(plan),
    ensures
        row_by_row(rewritten(plan, false)),
{
    assert(rewritten(plan, false) == rewritten(plan, true));
    asked_rows_spare_judgments(plan);
}

/// Where a plan's rows are asked for one at a time, so are those of every chain of row-wise
/// steps in it.
pub proof fn asked_rows_spare_judgments(plan: Plan)
    requires
        row_wise(plan),
    ensures
        row_by_row(rewritten(plan, true)),
        !has_paid(plan) ==> !makes_calls(rewritten(plan, true)),
    decreases plan,
{
    if !has_paid(plan) {
        plans_without_judgments_stay(plan, true);
        nothing_is_made(plan);
    } else {
        match plan {
            Plan::Async { input, .. } => {
                asked_rows_spare_judgments(*input);
            },
            Plan::Projection { input, .. } => {
                asked_rows_spare_judgments(*input);
            },
            Plan::Filter { input, .. } => {
                asked_rows_spare_judgments(*input);
            },
            Plan::Stage { stage, input } => {
                asked_rows_spare_judgments(*input);
                let lower = rewritten(*input, true);
                let serial = Plan::Stage {
                    stage: Stage::SerialPartitions,
                    input: Box::new(lower),
                };
                assert(row_by_row(serial));
            },
            _ => {},
        }
    }
}

/// A chain without judgments makes none.
proof fn nothing_is_made(plan: Plan)
    requires
        !has_paid(plan),
        row_wise(plan),
    ensures
        row_by_row(plan),
        !makes_calls(plan),
    decreases plan,
{
    match plan {
        Plan::Async { input, .. } => {
            nothing_is_made(*input);
        },
        Plan::Projection { input, .. } => {
            nothing_is_made(*input);
        },
        Plan::Filter { input, .. } => {
            nothing_is_made(*input);
        },
        Plan::Stage { input, .. } => {
            nothing_is_made(*input);
        },
        _ => {},
    }
}

/// Whether no step in a plan bounds its rows.
pub open spec fn unbounded(plan: Plan) -> bool
    decreases plan,
{
    row_bound(plan) is None && match plan {
        Plan::Async { input, .. } => unbounded(*input),
        Plan::Paid { input, .. } => unbounded(*input),
        Plan::Projection { input, .. } => unbounded(*input),
        Plan::Filter { input, .. } => unbounded(*input),
        Plan::Stage { input, .. } => unbounded(*input),
        Plan::Other { children, .. } => forall|i: int|
            0 <= i < children.len() ==> unbounded(#[trigger] children[i]),
    }
}

/// A plan in which the library makes the calls that cost money for all rows of a batch
/// together, and every other step is as it was.
pub open spec fn made_together(plan: Plan, made: Plan) -> bool
    decreases plan,
{
    match plan {
        Plan::Async { calls, input } => if exists|i: int|
            0 <= i < calls.len() && paid((#[trigger] calls[i]).expr) {
            made matches Plan::Paid { calls: same, demand, input: lower } && same == calls
                && !demand && made_together(*input, *lower)
        } else {
            made matches Plan::Async { calls: same, input: lower } && same == calls
                && made_together(*input, *lower)
        },
        Plan::Paid { calls, demand, input } => made matches Plan::Paid {
            calls: same,
            demand: kept,
            input: lower,
        } && same == calls && kept == demand && made_together(*input, *lower),
        Plan::Projection { columns, input } => made matches Plan::Projection {
            columns: same,
            input: lower,
        } && same == columns && made_together(*input, *lower),
        Plan::Filter { predicate, settings, input } => made matches Plan::Filter {
            predicate: same,
            settings: kept,
            input: lower,
        } && same == predicate && kept == settings && made_together(*input, *lower),
        Plan::Stage { stage, input } => made matches Plan::Stage { stage: same, input: lower }
            && same == stage && made_together(*input, *lower),
        Plan::Other { id, fields, children } => made matches Plan::Other {
            id: same,
            fields: kept,
            children: lower,
        } && same == id && kept == fields && lower.len() == children.len() && forall|i: int|
            0 <= i < children.len() ==> made_together(#[trigger] children[i], lower[i]),
    }
}

/// In a plan without bounds on its rows, every step stays what it was, with its settings, but
/// that the library makes the calls that cost money, for all rows of a batch together.
pub proof fn unbounded_plans_judge_together(plan: Plan)
    requires
        unbounded(plan),
    ensures
        made_together(plan, rewritten(plan, false)),
    decreases plan,
{
    match plan {
        Plan::Async { calls, input } => {
            unbounded_plans_judge_together(*input);
            let lower = rewritten(*input, false);
            assert(made_together(*input, lower));
            assert(any_paid(calls) == exists|i: int|
                0 <= i < calls.len() && paid((#[trigger] calls[i]).expr));
            assert(rewritten(plan, false) == if any_paid(calls) {
                Plan::Paid { calls, demand: false, input: Box::new(lower) }
            } else {
                Plan::Async { calls, input: Box::new(lower) }
            });
        },
        Plan::Paid { input, .. } => {
            unbounded_plans_judge_together(*input);
        },
        Plan::Projection { input, .. } => {
            unbounded_plans_judge_together(*input);
        },
        Plan::Filter { input, .. } => {
            unbounded_plans_judge_together(*input);
        },
        Plan::Stage { input, .. } => {
            unbounded_plans_judge_together(*input);
        },
        Plan::Other { children, .. } => {
            let lower = all_rewritten(children);
            assert forall|i: int| 0 <= i < children.len() implies made_together(
                #[trigger] children[i],
                lower[i],
            ) by {
                unbounded_plans_judge_together(children[i]);
                assert(lower[i] == rewritten(children[i], false));
            }
        },
    }
}

/// Only what stands above a judgment decides how it is made: with nothing above that asks for
/// single rows, calls that cost money are made for all rows of a batch together, whatever
/// their input is.
pub proof fn limits_below_a_judgment_do_not_count(calls: Seq<Output>, input: Plan)
    requires
        exists|i: int| 0 <= i < calls.len() && paid((#[trigger] calls[i]).expr),
    ensures
        rewritten(Plan::Async { calls, input: Box::new(input) }, false) == (Plan::Paid {
            calls,
            demand: false,
            input: Box::new(rewritten(input, false)),
        }),
{
}

/// A step that may need every row of its inputs asks for all of them, whatever is asked of it.
pub proof fn blocking_steps_ask_for_all_rows(
    id: int,
    fields: Seq<Seq<char>>,
    children: Seq<Plan>,
    demand: bool,
)
    ensures
        rewritten(Plan::Other { id, fields, children }, demand) matches Plan::Other {
            id: same,
            fields: kept,
            children: lower,
        } && same == id && kept == fields && lower.len() == children.len() && forall|i: int|
            0 <= i < children.len() ==> #[trigger] lower[i] == rewritten(children[i], false),
{
    let lower = all_rewritten(children);
    assert forall|i: int| 0 <= i < children.len() implies #[trigger] lower[i] == rewritten(
        children[i],
        false,
    ) by {}
}

/// Rows asked for one at a time leave a filter's condition, its columns and its own bound as
/// they are; over judgments it hands out one row at a time.
pub proof fn filters_keep_their_condition(
    predicate: Expr,
    settings: Settings,
    input: Plan,
    demand: bool,
)
    ensures
        rewritten(
            Plan::Filter { predicate, settings, input: Box::new(input) },
            demand,
        ) matches Plan::Filter { predicate: same, settings: kept, .. } && same == predicate
            && kept.projection == settings.projection && kept.fetch == settings.fetch
            && kept.selectivity == settings.selectivity && (if has_paid(input) && (demand
            || settings.fetch is Some) {
            kept.batch_size == 1
        } else {
            kept.batch_size == settings.batch_size
        }),
{
}

} // verus!
