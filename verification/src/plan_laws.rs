//! What placing conditions, sharing judgments and splitting joins are for.
use vstd::prelude::*;

use crate::execution::{chunk_rows, chunks};
use crate::expression::{
    conjoined, conjuncts, conjuncts_within, mapped, paid, unstable, within, Expr,
};
use crate::joins::{joined, judges, parts_of, sorted_parts, split, Cond};
use crate::plan::{
    any_paid, has_paid, names, no_rows, output_exprs, output_names, sound, width, Output, Plan,
    Settings, Stage,
};
use crate::planner::{below, below_filters, handed_on, pushed, pushed_sound, sorted_out};
use crate::reuse::{
    asks, computed, paid_count, place_of, reused, reuse_column, reused_calls,
    reusing_keeps_the_rows, shared, sharing_keeps, still_asked,
};

use crate::spend::{optimized, pushed_asks, rewriting_keeps_the_rows, rewritten};
use crate::text::decimal;

verus! {

/// A part of a condition that the parts come down to is no conjunction.
proof fn conjuncts_are_single(expr: Expr)
    ensures
        forall|i: int| 0 <= i < conjuncts(expr).len() ==> !(#[trigger] conjuncts(expr)[i] is And),
        conjuncts(expr).len() > 0,
    decreases expr,
{
    if let Expr::And { left, right } = expr {
        conjuncts_are_single(*left);
        conjuncts_are_single(*right);
    }
}

/// Parts that are put together come apart as the same parts.
proof fn parts_come_apart(parts: Seq<Expr>)
    requires
        forall|i: int| 0 <= i < parts.len() ==> !(#[trigger] parts[i] is And),
    ensures
        conjuncts(conjoined(parts)) == if parts.len() == 0 {
            seq![Expr::Always]
        } else {
            parts
        },
    decreases parts.len(),
{
    if parts.len() == 1 {
        assert(!(parts[0] is And));
        assert(parts =~= seq![parts[0]]);
    } else if parts.len() > 1 {
        let rest = parts.drop_last();
        assert forall|i: int| 0 <= i < rest.len() implies !(#[trigger] rest[i] is And) by {
            assert(parts[i] == rest[i]);
        }
        parts_come_apart(rest);
        assert(!(parts[parts.len() - 1] is And));
        assert(conjuncts(parts.last()) == seq![parts.last()]);
        assert(parts =~= rest + seq![parts.last()]);
    }
}

/// Whether a part of a condition cannot be decided before some judgments: it may change from
/// one time to the next, or needs more columns than there are below them.
pub open spec fn needs_judgments(part: Expr, columns: int) -> bool {
    unstable(part) || !within(part, columns)
}

/// What placing the parts of a condition over judgments leaves above them.
proof fn only_dependent_parts_stay(calls: Seq<Output>, source: Plan, parts: Seq<Expr>)
    requires
        sound(Plan::Async { calls, input: Box::new(source) }),
        any_paid(calls),
        forall|i: int|
            0 <= i < parts.len() ==> within(
                #[trigger] parts[i],
                width(Plan::Async { calls, input: Box::new(source) }),
            ),
    ensures
        ({
            let (lower, rest) = sorted_out(Plan::Async { calls, input: Box::new(source) }, parts);
            &&& lower matches Plan::Async { calls: same, input: lowest } && same == calls && names(
                *lowest,
            ) == names(source) && sound(lower)
            &&& forall|i: int|
                0 <= i < rest.len() ==> needs_judgments(#[trigger] rest[i], width(source))
                    && parts.contains(rest[i])
        }),
    decreases parts.len(),
{
    let plan = Plan::Async { calls, input: Box::new(source) };
    if parts.len() > 0 {
        let before = parts.drop_last();
        assert forall|i: int| 0 <= i < before.len() implies within(
            #[trigger] before[i],
            width(plan),
        ) by {
            assert(parts[i] == before[i]);
        }
        only_dependent_parts_stay(calls, source, before);
        let (lower, rest) = sorted_out(plan, before);
        let last = parts.last();
        assert(last == parts[parts.len() - 1]);
        assert forall|i: int| 0 <= i < rest.len() implies parts.contains(#[trigger] rest[i]) by {
            let at = choose|at: int| 0 <= at < before.len() && before[at] == rest[i];
            assert(parts[at] == rest[i]);
        }
        assert(parts.contains(last));
        if let Plan::Async { input: lowest, .. } = lower {
            assert(names(lower) == names(plan));
            assert(width(*lowest) == width(source));
            if below(lower, last) is Some {
                below_filters(no_rows(), lower, last);
                let placed = below(lower, last)->0;
                if let Plan::Async { calls: same, input: deeper } = placed {
                    assert(same == calls);
                    assert(names(placed) == names(*deeper) + output_names(calls));
                    assert(names(lower) == names(*lowest) + output_names(calls));
                    assert(names(*deeper) =~= names(placed).take(
                        names(placed).len() - output_names(calls).len(),
                    ));
                    assert(names(*lowest) =~= names(lower).take(
                        names(lower).len() - output_names(calls).len(),
                    ));
                }
            }
        }
    }
}

/// What can be decided without judgments is decided before them: of a condition over them,
/// only those parts stay above that may change from one time to the next or need what the
/// judgments say. The judgments themselves and the other settings stay.
pub proof fn cheap_conditions_come_first(
    calls: Seq<Output>,
    source: Plan,
    predicate: Expr,
    settings: Settings,
)
    requires
        sound(
            (Plan::Filter {
                predicate,
                settings,
                input: Box::new(Plan::Async { calls, input: Box::new(source) }),
            }),
        ),
        exists|i: int| 0 <= i < calls.len() && paid((#[trigger] calls[i]).expr),
    ensures
        pushed(
            (Plan::Filter {
                predicate,
                settings,
                input: Box::new(Plan::Async { calls, input: Box::new(source) }),
            }),
        ) matches Plan::Filter { predicate: left, settings: same, input: lower } && same
            == settings && (*lower matches Plan::Async { calls: kept, .. } && kept == calls)
            && forall|i: int|
            0 <= i < conjuncts(left).len() ==> (#[trigger] conjuncts(left)[i] is Always
                || needs_judgments(conjuncts(left)[i], width(source))),
{
    let over = Plan::Async { calls, input: Box::new(source) };
    let plan = Plan::Filter { predicate, settings, input: Box::new(over) };
    assert(sound(over));
    assert(any_paid(calls));
    pushed_sound(over);
    pushed_sound(source);
    let lower = pushed(over);
    let deep = pushed(source);
    assert(lower == Plan::Async { calls, input: Box::new(deep) });
    assert(width(deep) == width(source));
    let parts = conjuncts(predicate);
    conjuncts_within(predicate, width(over));
    conjuncts_are_single(predicate);
    assert(width(lower) == width(over));
    only_dependent_parts_stay(calls, deep, parts);
    let (placed, rest) = sorted_out(lower, parts);
    assert forall|i: int| 0 <= i < rest.len() implies !(#[trigger] rest[i] is And) by {
        let at = choose|at: int| 0 <= at < parts.len() && parts[at] == rest[i];
        assert(!(parts[at] is And));
    }
    parts_come_apart(rest);
    assert(has_paid(lower));
    assert(pushed(plan) == crate::planner::pushed_filter(predicate, settings, lower));
    if rest.len() == parts.len() {
        all_stay(lower, parts);
        assert(rest == parts);
    }
}

/// Where as many parts stay as there were, all stay.
proof fn all_stay(input: Plan, parts: Seq<Expr>)
    ensures
        sorted_out(input, parts).1.len() <= parts.len(),
        sorted_out(input, parts).1.len() == parts.len() ==> sorted_out(input, parts).1 == parts,
    decreases parts.len(),
{
    if parts.len() > 0 {
        all_stay(input, parts.drop_last());
        assert(parts =~= parts.drop_last().push(parts.last()));
    } else {
        assert(sorted_out(input, parts).1 =~= parts);
    }
}

/// A condition that does not change from one time to the next goes below judgments that it does
/// not need, and on its way passes projections, unbounded filters and steps that spread or
/// gather all rows; no bound on the rows, no step that may need every row.
pub proof fn conditions_pass_steps(plan: Plan, predicate: Expr)
    requires
        !unstable(predicate),
    ensures
        match plan {
            Plan::Async { calls, input } => below(plan, predicate) is Some <==> (exists|i: int|
                0 <= i < calls.len() && paid((#[trigger] calls[i]).expr)) && within(
                predicate,
                names(*input).len() as int,
            ),
            Plan::Projection { columns, input } => below(plan, predicate) is Some <==> below(
                *input,
                mapped(predicate, output_exprs(columns)),
            ) is Some,
            Plan::Filter { settings, input, .. } => below(plan, predicate) is Some
                <==> settings.fetch is None && below(
                *input,
                mapped(predicate, handed_on(names(*input), settings.projection)),
            ) is Some,
            Plan::Stage { stage, input } => below(plan, predicate) is Some <==> (
            stage is Repartition || stage is Cooperative || stage == (Stage::CoalescePartitions {
                fetch: None,
            })) && below(*input, predicate) is Some,
            _ => below(plan, predicate) is None,
        },
{
}

/// What is left to ask over judgments: everything but the judgments that are made below.
proof fn made_judgments_are_found(calls: Seq<Output>, inner: Seq<Output>, source: Plan)
    ensures
        ({
            let input = Plan::Async { calls: inner, input: Box::new(source) };
            let sharing = shared(input, calls);
            &&& sharing.input == input
            &&& sharing.places.len() == calls.len()
            &&& sharing.remaining.len() <= calls.len()
            &&& (exists|i: int, j: int|
                0 <= i < calls.len() && 0 <= j < inner.len() && paid((#[trigger] calls[i]).expr)
                    && calls[i].expr == (#[trigger] inner[j]).expr) ==> sharing.remaining.len()
                < calls.len()
            &&& forall|i: int|
                0 <= i < sharing.remaining.len() ==> calls.contains(
                    #[trigger] sharing.remaining[i],
                )
            &&& forall|i: int, j: int|
                0 <= i < sharing.remaining.len() && 0 <= j < inner.len() && paid(
                    (#[trigger] sharing.remaining[i]).expr,
                ) ==> sharing.remaining[i].expr != (#[trigger] inner[j]).expr
        }),
    decreases calls.len(),
{
    let input = Plan::Async { calls: inner, input: Box::new(source) };
    if calls.len() > 0 {
        let before = calls.drop_last();
        made_judgments_are_found(before, inner, source);
        let earlier = shared(input, before);
        let sharing = shared(input, calls);
        let call = calls.last();
        assert(call == calls[calls.len() - 1]);
        first_place(inner, call.expr);
        if exists|i: int, j: int|
            0 <= i < calls.len() && 0 <= j < inner.len() && paid((#[trigger] calls[i]).expr)
                && calls[i].expr == (#[trigger] inner[j]).expr {
            let (i, j) = choose|i: int, j: int|
                0 <= i < calls.len() && 0 <= j < inner.len() && paid((#[trigger] calls[i]).expr)
                    && calls[i].expr == (#[trigger] inner[j]).expr;
            if i < before.len() {
                assert(before[i] == calls[i]);
                assert(paid(before[i].expr) && before[i].expr == inner[j].expr);
            } else {
                assert(place_of(inner, call.expr) is Some);
            }
        }
        assert forall|i: int| 0 <= i < sharing.remaining.len() implies calls.contains(
            #[trigger] sharing.remaining[i],
        ) by {
            if i < earlier.remaining.len() {
                assert(sharing.remaining[i] == earlier.remaining[i]);
                let at = choose|at: int|
                    0 <= at < before.len() && before[at] == earlier.remaining[i];
                assert(calls[at] == earlier.remaining[i]);
            } else {
                assert(sharing.remaining[i] == call);
            }
        }
        assert forall|i: int, j: int|
            0 <= i < sharing.remaining.len() && 0 <= j < inner.len() && paid(
                (#[trigger] sharing.remaining[i]).expr,
            ) implies sharing.remaining[i].expr != (#[trigger] inner[j]).expr by {
            if i < earlier.remaining.len() {
                assert(sharing.remaining[i] == earlier.remaining[i]);
            }
        }
    }
}

/// An expression is found among some outputs exactly where it is one of them.
proof fn first_place(list: Seq<Output>, expr: Expr)
    ensures
        place_of(list, expr) is Some <==> exists|j: int|
            0 <= j < list.len() && (#[trigger] list[j]).expr == expr,
    decreases list.len(),
{
    if list.len() > 0 {
        first_place(list.drop_last(), expr);
        if exists|j: int| 0 <= j < list.len() && (#[trigger] list[j]).expr == expr {
            let j = choose|j: int| 0 <= j < list.len() && (#[trigger] list[j]).expr == expr;
            if j < list.len() - 1 {
                assert(list.drop_last()[j].expr == expr);
            }
        }
        if place_of(list.drop_last(), expr) is Some {
            let j = choose|j: int|
                0 <= j < list.drop_last().len() && (#[trigger] list.drop_last()[j]).expr == expr;
            assert(list[j].expr == expr);
        } else if list.last().expr == expr {
            assert(list[list.len() - 1].expr == expr);
        }
    }
}

/// A judgment that is made below already is not asked for again: a plan that repeats one asks
/// for fewer judgments when it is arranged, and above, no judgment is left that is made below.
pub proof fn repeated_judgments_are_asked_once(
    calls: Seq<Output>,
    inner: Seq<Output>,
    source: Plan,
    i: int,
    j: int,
)
    requires
        sound(
            (Plan::Async {
                calls,
                input: Box::new(Plan::Async { calls: inner, input: Box::new(source) }),
            }),
        ),
        0 <= i < calls.len(),
        0 <= j < inner.len(),
        paid(calls[i].expr),
        calls[i].expr == inner[j].expr,
    ensures
        asks(reused_calls(calls, Plan::Async { calls: inner, input: Box::new(source) })) < asks(
            (Plan::Async {
                calls,
                input: Box::new(Plan::Async { calls: inner, input: Box::new(source) }),
            }),
        ),
        source is Other ==> asks(
            reused(
                (Plan::Async {
                    calls,
                    input: Box::new(Plan::Async { calls: inner, input: Box::new(source) }),
                }),
            ),
        ) < asks(
            (Plan::Async {
                calls,
                input: Box::new(Plan::Async { calls: inner, input: Box::new(source) }),
            }),
        ),
{
    let input = Plan::Async { calls: inner, input: Box::new(source) };
    let plan = Plan::Async { calls, input: Box::new(input) };
    fewer_are_asked(calls, inner, source, i, j);
    if source is Other {
        let deep = reused(source);
        assert(sound(input));
        assert(sound(source));
        reusing_keeps_the_rows(no_rows(), source);
        nothing_is_found(deep, inner);
        assert(reused(input) == Plan::Async { calls: inner, input: Box::new(deep) });
        let lower = Plan::Async { calls: inner, input: Box::new(deep) };
        assert(width(deep) == width(source));
        assert(width(lower) == width(input));
        assert(sound(lower));
        assert(sound(Plan::Async { calls, input: Box::new(lower) }));
        fewer_are_asked(calls, inner, deep, i, j);
        assert(reused(plan) == reused_calls(calls, lower));
        assert(asks(lower) == paid_count(inner) + asks(deep));
        assert(asks(input) == paid_count(inner) + asks(source));
        let above = Plan::Async { calls, input: Box::new(lower) };
        assert(asks(above) == paid_count(calls) + asks(lower));
        assert(asks(plan) == paid_count(calls) + asks(input));
    }
}

/// Nothing is found below a step that may need every row.
proof fn nothing_is_found(input: Plan, calls: Seq<Output>)
    requires
        input is Other,
    ensures
        reused_calls(calls, input) == (Plan::Async { calls, input: Box::new(input) }),
        shared(input, calls).remaining == calls,
        shared(input, calls).input == input,
    decreases calls.len(),
{
    if calls.len() > 0 {
        nothing_is_found(input, calls.drop_last());
        assert(computed(input, calls.last().expr) is None);
        assert(calls =~= calls.drop_last().push(calls.last()));
    } else {
        assert(shared(input, calls).remaining =~= calls);
    }
}

/// The same for calls right above the judgments.
proof fn fewer_are_asked(
    calls: Seq<Output>,
    inner: Seq<Output>,
    source: Plan,
    i: int,
    j: int,
)
    requires
        sound(
            (Plan::Async {
                calls,
                input: Box::new(Plan::Async { calls: inner, input: Box::new(source) }),
            }),
        ),
        0 <= i < calls.len(),
        0 <= j < inner.len(),
        paid(calls[i].expr),
        calls[i].expr == inner[j].expr,
    ensures
        asks(reused_calls(calls, Plan::Async { calls: inner, input: Box::new(source) })) < asks(
            (Plan::Async {
                calls,
                input: Box::new(Plan::Async { calls: inner, input: Box::new(source) }),
            }),
        ),
{
    let input = Plan::Async { calls: inner, input: Box::new(source) };
    let plan = Plan::Async { calls, input: Box::new(input) };
    made_judgments_are_found(calls, inner, source);
    sharing_keeps(no_rows(), input, calls);
    let sharing = shared(input, calls);
    assert(sharing.remaining.len() < calls.len());
    let made = reused_calls(calls, input);
    assert(made is Projection);
    assert(*made->Projection_input == still_asked(sharing));
    assert(asks(made) == asks(still_asked(sharing)));
    if sharing.remaining.len() == 0 {
        assert(paid_count(sharing.remaining) == 0);
        assert(asks(still_asked(sharing)) == asks(input));
    } else {
        assert(asks(still_asked(sharing)) == paid_count(sharing.remaining) + asks(input));
    }
    assert(asks(plan) == paid_count(calls) + asks(input));
}

/// A judgment is found below through projections, filters, bounds and steps that spread or
/// gather rows; a step that may need every row hides it.
pub proof fn judgments_are_found_through_steps(plan: Plan, expr: Expr)
    ensures
        match plan {
            Plan::Async { calls, .. } => computed(plan, expr) is Some <==> exists|j: int|
                0 <= j < calls.len() && (#[trigger] calls[j]).expr == expr,
            Plan::Projection { columns, input } => computed(plan, expr) is Some <==> computed(
                *input,
                mapped(expr, output_exprs(columns)),
            ) is Some,
            Plan::Filter { settings, input, .. } => computed(plan, expr) is Some <==> computed(
                *input,
                mapped(expr, handed_on(names(*input), settings.projection)),
            ) is Some,
            Plan::Stage { stage, input } => computed(plan, expr) is Some <==> (
            stage is GlobalLimit || stage is LocalLimit || stage is CoalescePartitions
                || stage is Repartition || stage is Cooperative) && computed(*input, expr) is Some,
            _ => computed(plan, expr) is None,
        },
{
    if let Plan::Async { calls, .. } = plan {
        first_place(calls, expr);
    }
}

/// What a single call above a plan asks for is asked for there only where it costs money and is
/// not made below.
pub proof fn calls_are_asked_where_they_are_not_made(call: Output, input: Plan)
    requires
        sound(Plan::Async { calls: seq![call], input: Box::new(input) }),
    ensures
        paid(call.expr) && computed(input, call.expr) is Some ==> asks(
            reused_calls(seq![call], input),
        ) == asks(input),
        !(paid(call.expr) && computed(input, call.expr) is Some) ==> reused_calls(
            seq![call],
            input,
        ) == (Plan::Async { calls: seq![call], input: Box::new(input) }),
{
    let calls = seq![call];
    assert(calls.drop_last() =~= Seq::<Output>::empty());
    assert(calls.last() == call);
    let none = shared(input, calls.drop_last());
    assert(none.input == input && none.remaining =~= Seq::<Output>::empty());
    let sharing = shared(input, calls);
    if paid(call.expr) && computed(input, call.expr) is Some {
        assert(sharing.remaining.len() == 0);
        sharing_keeps(no_rows(), input, calls);
        assert(asks(reused_calls(calls, input)) == asks(still_asked(sharing)));
    } else {
        assert(sharing.remaining.len() == 1);
    }
}

/// A condition asks for a judgment exactly where one of its parts does.
proof fn parts_judge(condition: Cond)
    ensures
        judges(condition) <==> exists|i: int|
            0 <= i < parts_of(condition).len() && judges(#[trigger] parts_of(condition)[i]),
    decreases condition,
{
    match condition {
        Cond::And { left, right } => {
            parts_judge(*left);
            parts_judge(*right);
            let (first, second) = (parts_of(*left), parts_of(*right));
            let all = parts_of(condition);
            assert(all == first + second);
            assert(judges(condition) == (judges(*left) || judges(*right)));
            if judges(*left) {
                let i = choose|i: int| 0 <= i < first.len() && judges(#[trigger] first[i]);
                assert(judges(parts_of(condition)[i]));
            }
            if judges(*right) {
                let i = choose|i: int| 0 <= i < second.len() && judges(#[trigger] second[i]);
                assert(all[first.len() + i] == second[i]);
                assert(judges(parts_of(condition)[first.len() + i]));
            }
            if exists|i: int| 0 <= i < all.len() && judges(#[trigger] all[i]) {
                let i = choose|i: int| 0 <= i < all.len() && judges(#[trigger] all[i]);
                if i < first.len() {
                    assert(judges(first[i]));
                    assert(judges(*left));
                } else {
                    assert(judges(second[i - first.len()]));
                    assert(judges(*right));
                }
                assert(judges(condition));
            }
        },
        Cond::Alias { inner } => {
            parts_judge(*inner);
        },
        Cond::Node { .. } => {
            assert(parts_of(condition)[0] == condition);
        },
    }
}

/// The parts that judge, or those that do not.
proof fn parts_are_sorted(parts: Seq<Cond>, judging: bool)
    ensures
        forall|i: int|
            0 <= i < sorted_parts(parts, judging).len() ==> judges(
                #[trigger] sorted_parts(parts, judging)[i],
            ) == judging && parts.contains(sorted_parts(parts, judging)[i]),
        sorted_parts(parts, judging).len() > 0 <==> exists|i: int|
            0 <= i < parts.len() && judges(#[trigger] parts[i]) == judging,
        sorted_parts(parts, true).len() + sorted_parts(parts, false).len() == parts.len(),
    decreases parts.len(),
{
    if parts.len() > 0 {
        let rest = parts.drop_last();
        parts_are_sorted(rest, judging);
        let all = sorted_parts(parts, judging);
        let before = sorted_parts(rest, judging);
        assert forall|i: int| 0 <= i < all.len() implies judges(#[trigger] all[i]) == judging
            && parts.contains(all[i]) by {
            if i < before.len() {
                assert(all[i] == before[i]);
                let at = choose|at: int| 0 <= at < rest.len() && rest[at] == before[i];
                assert(parts[at] == before[i]);
            } else {
                assert(all[i] == parts[parts.len() - 1]);
            }
        }
        if exists|i: int| 0 <= i < parts.len() && judges(#[trigger] parts[i]) == judging {
            let i = choose|i: int|
                0 <= i < parts.len() && judges(#[trigger] parts[i]) == judging;
            if i < rest.len() {
                assert(judges(rest[i]) == judging);
            }
        }
        if all.len() > 0 {
            if before.len() > 0 {
                let i = choose|i: int|
                    0 <= i < rest.len() && judges(#[trigger] rest[i]) == judging;
                assert(judges(parts[i]) == judging);
            } else {
                assert(judges(parts[parts.len() - 1]) == judging);
            }
        }
    }
}

/// Parts that are joined judge where each of them does.
proof fn joined_parts_judge(parts: Seq<Cond>)
    requires
        parts.len() > 0,
        forall|i: int| 0 <= i < parts.len() ==> judges(#[trigger] parts[i]),
    ensures
        joined(parts) is Some,
        judges(joined(parts)->0),
    decreases parts.len(),
{
    if parts.len() == 1 {
        assert(judges(parts[0]));
    } else {
        let rest = parts.drop_last();
        assert forall|i: int| 0 <= i < rest.len() implies judges(#[trigger] rest[i]) by {
            assert(rest[i] == parts[i]);
        }
        joined_parts_judge(rest);
        assert(judges(parts[parts.len() - 1]));
    }
}

/// An inner join is split exactly where its condition asks for judgments; what is asked after
/// the join then is a judgment, and no other join is split.
pub proof fn judging_joins_are_split(condition: Cond)
    ensures
        split(true, Some(condition)) is Some <==> judges(condition),
        split(true, Some(condition)) matches Some((cheap, paid)) ==> judges(paid) && (cheap is None
            <==> forall|i: int|
            0 <= i < parts_of(condition).len() ==> judges(#[trigger] parts_of(condition)[i])),
        split(false, Some(condition)) is None,
        split(true, None) is None,
{
    let parts = parts_of(condition);
    parts_judge(condition);
    parts_are_sorted(parts, true);
    parts_are_sorted(parts, false);
    let paying = sorted_parts(parts, true);
    let free = sorted_parts(parts, false);
    assert(joined(paying) is Some <==> paying.len() > 0);
    assert(joined(free) is Some <==> free.len() > 0);
    if paying.len() > 0 {
        joined_parts_judge(paying);
    }
    if forall|i: int| 0 <= i < parts.len() ==> judges(#[trigger] parts[i]) {
        assert(free.len() == 0);
    }
    if free.len() == 0 {
        assert forall|i: int| 0 <= i < parts.len() implies judges(#[trigger] parts[i]) by {}
    }
}

/// Rows that are asked for one at a time are judged one at a time; else as many together as a
/// batch holds, and one at least.
pub proof fn batches_are_taken_in_order(rows: nat, demand: bool, batch_size: usize, offset: nat)
    requires
        offset <= rows,
    ensures
        ({
            let size: int = if demand || batch_size < 1 {
                1
            } else {
                batch_size as int
            };
            let all = chunks(rows, chunk_rows(demand, batch_size), offset);
            &&& forall|i: int|
                0 <= i < all.len() ==> (#[trigger] all[i]).0 == offset + i * size && all[i].1 == (
                if all[i].0 + size <= rows {
                    size
                } else {
                    rows - all[i].0
                })
            &&& all.len() * size >= rows - offset
            &&& all.len() > 0 ==> (all.len() - 1) * size < rows - offset
        }),
    decreases rows - offset,
{
    let chunk = chunk_rows(demand, batch_size);
    let all = chunks(rows, chunk, offset);
    let size = chunk as int;
    if offset < rows {
        let taken: nat = if chunk <= rows - offset {
            chunk
        } else {
            (rows - offset) as nat
        };
        batches_are_taken_in_order(rows, demand, batch_size, offset + taken);
        let rest = chunks(rows, chunk, offset + taken);
        assert(all == seq![(offset, taken)] + rest);
        if taken < chunk {
            assert(rest.len() == 0);
            assert(all.len() == 1);
            assert(1 * size == size && 0 * size == 0);
        } else {
            assert forall|i: int| 0 <= i < all.len() implies (#[trigger] all[i]).0 == offset + i
                * size && all[i].1 == (if all[i].0 + size <= rows {
                size
            } else {
                rows - all[i].0
            }) by {
                if i > 0 {
                    assert(all[i] == rest[i - 1]);
                    assert((i - 1) * size + size == i * size) by (nonlinear_arith);
                } else {
                    assert(0 * size == 0);
                }
            }
            let many = rest.len() as int;
            assert((many + 1) * size == many * size + size) by (nonlinear_arith);
            if many > 0 {
                assert((many - 1) * size + size == many * size) by (nonlinear_arith);
            } else {
                assert(0 * size == 0);
            }
        }
    } else {
        assert(all.len() == 0);
        assert(0 * size == 0);
    }
}

/// An expression may change from one time to the next exactly where a call in it may.
pub proof fn changing_calls_change_expressions(expr: Expr)
    ensures
        match expr {
            Expr::Column { .. } => !unstable(expr),
            Expr::Always => !unstable(expr),
            Expr::And { left, right } => unstable(expr) <==> unstable(*left) || unstable(*right),
            Expr::Node { volatile, args, .. } => {
                &&& volatile ==> unstable(expr)
                &&& forall|i: int| 0 <= i < args.len() && unstable(#[trigger] args[i]) ==> unstable(
                    expr,
                )
                &&& unstable(expr) && !volatile ==> exists|i: int|
                    0 <= i < args.len() && unstable(#[trigger] args[i])
            },
        },
{
}

/// A filter that is placed below judgments hands out all columns of all rows that pass, in
/// ordinary batches.
pub proof fn placed_filters_are_ordinary(calls: Seq<Output>, source: Plan, predicate: Expr)
    requires
        source is Other,
        !unstable(predicate),
        within(predicate, width(source)),
        exists|i: int| 0 <= i < calls.len() && paid((#[trigger] calls[i]).expr),
    ensures
        below(Plan::Async { calls, input: Box::new(source) }, predicate) == Some(
            (Plan::Async {
                calls,
                input: Box::new(
                    (Plan::Filter {
                        predicate,
                        settings: (Settings {
                            projection: None,
                            fetch: None,
                            batch_size: 8192,
                            selectivity: 20,
                        }),
                        input: Box::new(source),
                    }),
                ),
            }),
        ),
{
    assert(below(source, predicate) is None);
    assert(any_paid(calls));
}

/// Of the parts of a join's condition, those that judge and those that do not keep their order.
pub proof fn parts_keep_their_order(parts: Seq<Cond>, judging: bool)
    ensures
        sorted_parts(parts, judging) == parts.filter(|part: Cond| judges(part) == judging),
    decreases parts.len(),
{
    let keep = |part: Cond| judges(part) == judging;
    reveal(Seq::filter);
    if parts.len() > 0 {
        parts_keep_their_order(parts.drop_last(), judging);
    } else {
        assert(sorted_parts(parts, judging) =~= parts.filter(keep));
    }
}

/// What a plan that repeats a judgment asks for when all is arranged: less than before.
pub proof fn arranged_plans_ask_once(
    calls: Seq<Output>,
    inner: Seq<Output>,
    source: Plan,
    i: int,
    j: int,
)
    requires
        source is Other,
        sound(
            (Plan::Async {
                calls,
                input: Box::new(Plan::Async { calls: inner, input: Box::new(source) }),
            }),
        ),
        0 <= i < calls.len(),
        0 <= j < inner.len(),
        paid(calls[i].expr),
        calls[i].expr == inner[j].expr,
    ensures
        asks(
            optimized(
                (Plan::Async {
                    calls,
                    input: Box::new(Plan::Async { calls: inner, input: Box::new(source) }),
                }),
            ),
        ) < asks(
            (Plan::Async {
                calls,
                input: Box::new(Plan::Async { calls: inner, input: Box::new(source) }),
            }),
        ),
{
    let input = Plan::Async { calls: inner, input: Box::new(source) };
    let plan = Plan::Async { calls, input: Box::new(input) };
    let deep = pushed(source);
    assert(sound(input));
    assert(sound(source));
    pushed_sound(plan);
    pushed_sound(input);
    pushed_sound(source);
    pushed_asks(plan);
    let lower = Plan::Async { calls: inner, input: Box::new(deep) };
    assert(pushed(input) == lower);
    assert(pushed(plan) == Plan::Async { calls, input: Box::new(lower) });
    repeated_judgments_are_asked_once(calls, inner, deep, i, j);
    reusing_keeps_the_rows(no_rows(), pushed(plan));
    rewriting_keeps_the_rows(no_rows(), reused(pushed(plan)), false);
}

/// When all is arranged, a condition that does not need the judgments is decided before the
/// library makes them.
pub proof fn arranged_plans_decide_first(
    calls: Seq<Output>,
    source: Plan,
    predicate: Expr,
    settings: Settings,
)
    requires
        source is Other,
        settings.fetch is None,
        !(predicate is And),
        !unstable(predicate),
        within(predicate, width(source)),
        sound(
            (Plan::Filter {
                predicate,
                settings,
                input: Box::new(Plan::Async { calls, input: Box::new(source) }),
            }),
        ),
        exists|i: int| 0 <= i < calls.len() && paid((#[trigger] calls[i]).expr),
    ensures
        optimized(
            (Plan::Filter {
                predicate,
                settings,
                input: Box::new(Plan::Async { calls, input: Box::new(source) }),
            }),
        ) matches Plan::Filter { input: lower, .. } && (*lower matches Plan::Paid {
            calls: made,
            demand,
            input: lowest,
        } && made == calls && !demand && (*lowest matches Plan::Filter { predicate: own, .. }
            && own == predicate)),
{
    let over = Plan::Async { calls, input: Box::new(source) };
    let plan = Plan::Filter { predicate, settings, input: Box::new(over) };
    assert(sound(over));
    assert(sound(source));
    pushed_sound(over);
    pushed_sound(source);
    let deep = pushed(source);
    assert(deep is Other);
    let lower = Plan::Async { calls, input: Box::new(deep) };
    assert(pushed(over) == lower);
    assert(any_paid(calls) && has_paid(lower));
    assert(width(deep) == width(source));
    placed_filters_are_ordinary(calls, deep, predicate);
    let parts = conjuncts(predicate);
    assert(parts =~= seq![predicate]);
    assert(parts.drop_last() =~= Seq::<Expr>::empty());
    assert(sorted_out(lower, parts.drop_last()) == (lower, Seq::<Expr>::empty()));
    let placed = below(lower, predicate)->0;
    assert(sorted_out(lower, parts) == (placed, Seq::<Expr>::empty()));
    let left = conjoined(Seq::empty());
    assert(pushed(plan) == Plan::Filter { predicate: left, settings, input: Box::new(placed) });
    let filter = *placed->Async_input;
    let kept = reused(filter);
    assert(kept is Filter && kept->Filter_predicate == predicate);
    assert(*filter->Filter_input == deep);
    assert(reused(deep) is Other);
    assert(*kept->Filter_input is Other);
    found_nowhere(kept, calls);
    let shared_plan = reused(pushed(plan));
    assert(reused(placed) == Plan::Async { calls, input: Box::new(kept) });
    assert(shared_plan == Plan::Filter {
        predicate: left,
        settings,
        input: Box::new(Plan::Async { calls, input: Box::new(kept) }),
    });
    let made = rewritten(Plan::Async { calls, input: Box::new(kept) }, false);
    assert(made == Plan::Paid { calls, demand: false, input: Box::new(rewritten(kept, false)) });
    assert(rewritten(kept, false) is Filter);
}

/// Nothing is found below a filter over a step that may need every row.
proof fn found_nowhere(input: Plan, calls: Seq<Output>)
    requires
        input is Filter,
        *input->Filter_input is Other,
    ensures
        reused_calls(calls, input) == (Plan::Async { calls, input: Box::new(input) }),
        shared(input, calls).remaining == calls,
        shared(input, calls).input == input,
    decreases calls.len(),
{
    if calls.len() > 0 {
        found_nowhere(input, calls.drop_last());
        let lower = *input->Filter_input;
        judgments_are_found_through_steps(input, calls.last().expr);
        judgments_are_found_through_steps(
            lower,
            mapped(
                calls.last().expr,
                handed_on(names(lower), input->Filter_settings.projection),
            ),
        );
        assert(computed(input, calls.last().expr) is None);
        assert(calls =~= calls.drop_last().push(calls.last()));
    } else {
        assert(shared(input, calls).remaining =~= calls);
    }
}

/// Parts that are joined come apart as the same parts, in their order.
pub proof fn joined_parts_come_apart(parts: Seq<Cond>)
    requires
        parts.len() > 0,
        forall|i: int| 0 <= i < parts.len() ==> #[trigger] parts[i] is Node,
    ensures
        joined(parts) matches Some(condition) && parts_of(condition) == parts,
    decreases parts.len(),
{
    if parts.len() == 1 {
        assert(parts[0] is Node);
        assert(parts =~= seq![parts[0]]);
    } else {
        let rest = parts.drop_last();
        assert forall|i: int| 0 <= i < rest.len() implies #[trigger] rest[i] is Node by {
            assert(rest[i] == parts[i]);
        }
        joined_parts_come_apart(rest);
        assert(parts[parts.len() - 1] is Node);
        assert(parts_of(parts.last()) == seq![parts.last()]);
        assert(parts =~= rest + seq![parts.last()]);
    }
}

/// A column that carries a judgment upwards has a name of its own, by its place.
pub proof fn carrying_columns_are_named_by_place(plan: Plan, index: int, place: nat)
    ensures
        reuse_column(plan, index, place as int).name == "__jev_reuse_"@ + decimal(place),
        reuse_column(plan, index, place as int).expr == (Expr::Column {
            name: names(plan)[index],
            index,
        }),
{
}

/// Another name for a condition hides none of its parts: a join is split by the parts below the
/// name, and the parts of a conjunction are those of its sides, in their order.
pub proof fn names_do_not_hide_parts(condition: Cond, left: Cond, right: Cond)
    ensures
        split(true, Some(Cond::Alias { inner: Box::new(condition) })) == split(
            true,
            Some(condition),
        ),
        parts_of(Cond::Alias { inner: Box::new(condition) }) == parts_of(condition),
        parts_of(Cond::And { left: Box::new(left), right: Box::new(right) }) == parts_of(left)
            + parts_of(right),
        condition is Node ==> parts_of(condition) == seq![condition],
{
}

} // verus!
