//! Plans: where filters stand, which judgments are shared and which calls are paid.
use jev_datafusion::expression::{conjunction, Expression};
use jev_datafusion::joins::{split_join, Condition};
use jev_datafusion::plan::{FilterSettings, NamedExpression, PhysicalPlan, Stage};
use jev_datafusion::planner::{move_below_paid, push_cheap_filters};
use jev_datafusion::reuse::{find_computed, reuse_computed};
use jev_datafusion::spend::{optimize, rewrite};

fn column(name: &str, index: usize) -> Expression {
    Expression::Column { name: name.into(), index }
}

fn node(id: usize, args: Vec<Expression>) -> Expression {
    Expression::Node { id, jev: false, volatile: false, args }
}

fn call(args: Vec<Expression>) -> Expression {
    Expression::Node { id: 100, jev: true, volatile: false, args }
}

fn named(name: &str, expr: Expression) -> NamedExpression {
    NamedExpression { name: name.into(), expr }
}

fn and(left: Expression, right: Expression) -> Expression {
    Expression::And(Box::new(left), Box::new(right))
}

fn scan() -> PhysicalPlan {
    PhysicalPlan::Other {
        id: 0,
        fields: vec!["body".into(), "size".into()],
        children: Vec::new(),
    }
}

fn judged(input: PhysicalPlan) -> PhysicalPlan {
    PhysicalPlan::Async {
        calls: vec![named("__async_fn_0", call(vec![column("body", 0)]))],
        input: Box::new(input),
    }
}

fn settings(fetch: Option<usize>) -> FilterSettings {
    FilterSettings { projection: None, fetch, batch_size: 8192, selectivity: 20 }
}

fn filter(predicate: Expression, input: PhysicalPlan) -> PhysicalPlan {
    PhysicalPlan::Filter { predicate, settings: settings(None), input: Box::new(input) }
}

fn stage(stage: Stage, input: PhysicalPlan) -> PhysicalPlan {
    PhysicalPlan::Stage { stage, input: Box::new(input) }
}

fn cheap() -> Expression {
    node(1, vec![column("size", 1)])
}

fn paid() -> Expression {
    node(2, vec![column("__async_fn_0", 2)])
}

#[test]
fn cheap_parts_move_below_judgments() {
    let plan = filter(and(paid(), cheap()), judged(scan()));
    assert!(plan.is_sound());
    assert_eq!(push_cheap_filters(&plan), filter(paid(), judged(filter(cheap(), scan()))));
    let all_cheap = filter(cheap(), judged(scan()));
    assert_eq!(
        push_cheap_filters(&all_cheap),
        filter(Expression::Always, judged(filter(cheap(), scan())))
    );
    let or = node(3, vec![cheap(), paid()]);
    let stays = filter(or, judged(scan()));
    assert_eq!(push_cheap_filters(&stays), stays);
}

#[test]
fn predicates_follow_columns_through_projections_and_filters() {
    let projection = PhysicalPlan::Projection {
        columns: vec![
            named("answer", column("__async_fn_0", 2)),
            named("double", node(7, vec![column("size", 1)])),
        ],
        input: Box::new(judged(scan())),
    };
    let plan = filter(node(1, vec![column("double", 1)]), projection);
    let moved = push_cheap_filters(&plan);
    let inner = node(1, vec![node(7, vec![column("size", 1)])]);
    let expected = PhysicalPlan::Projection {
        columns: vec![
            named("answer", column("__async_fn_0", 2)),
            named("double", node(7, vec![column("size", 1)])),
        ],
        input: Box::new(judged(filter(inner, scan()))),
    };
    assert_eq!(moved, filter(Expression::Always, expected));
    let narrow = PhysicalPlan::Filter {
        predicate: paid(),
        settings: FilterSettings { projection: Some(vec![1]), ..settings(None) },
        input: Box::new(judged(scan())),
    };
    let result = move_below_paid(&narrow, &node(1, vec![column("size", 0)])).unwrap();
    match result {
        PhysicalPlan::Filter { input, .. } => {
            assert_eq!(*input, judged(filter(cheap(), scan())));
        }
        other => panic!("{other:?}"),
    }
}

#[test]
fn predicates_stay_above_limits_and_volatile_ones_stay() {
    let limited = stage(Stage::GlobalLimit { skip: 0, fetch: Some(3) }, judged(scan()));
    assert_eq!(move_below_paid(&limited, &cheap()), None);
    let coalesced = stage(Stage::CoalescePartitions { fetch: Some(3) }, judged(scan()));
    assert_eq!(move_below_paid(&coalesced, &cheap()), None);
    let open = stage(Stage::CoalescePartitions { fetch: None }, judged(scan()));
    assert_eq!(
        move_below_paid(&open, &cheap()),
        Some(stage(
            Stage::CoalescePartitions { fetch: None },
            judged(filter(cheap(), scan()))
        ))
    );
    let random = Expression::Node {
        id: 9,
        jev: false,
        volatile: true,
        args: vec![column("size", 1)],
    };
    assert_eq!(move_below_paid(&judged(scan()), &random), None);
    assert_eq!(move_below_paid(&judged(scan()), &node(1, vec![random])), None);
    assert_eq!(move_below_paid(&judged(scan()), &paid()), None);
    assert_eq!(move_below_paid(&scan(), &cheap()), None);
}

#[test]
fn a_judgment_below_is_reused() {
    let limit = Stage::GlobalLimit { skip: 0, fetch: Some(5) };
    let below = stage(limit, filter(paid(), judged(scan())));
    let again = PhysicalPlan::Async {
        calls: vec![named("second", call(vec![column("body", 0)]))],
        input: Box::new(below),
    };
    let narrowed = stage(
        limit,
        PhysicalPlan::Filter {
            predicate: paid(),
            settings: FilterSettings { projection: Some(vec![0, 1, 2]), ..settings(None) },
            input: Box::new(judged(scan())),
        },
    );
    assert_eq!(
        reuse_computed(&again),
        PhysicalPlan::Projection {
            columns: vec![
                named("body", column("body", 0)),
                named("size", column("size", 1)),
                named("__async_fn_0", column("__async_fn_0", 2)),
                named("second", column("__async_fn_0", 2)),
            ],
            input: Box::new(narrowed),
        }
    );
}

#[test]
fn a_hidden_judgment_is_carried_up() {
    let projection = PhysicalPlan::Projection {
        columns: vec![named("text", column("body", 0))],
        input: Box::new(judged(scan())),
    };
    let (wide, index) = find_computed(&projection, &call(vec![column("text", 0)])).unwrap();
    assert_eq!(index, 1);
    assert_eq!(
        wide,
        PhysicalPlan::Projection {
            columns: vec![
                named("text", column("body", 0)),
                named("__jev_reuse_1", column("__async_fn_0", 2)),
            ],
            input: Box::new(judged(scan())),
        }
    );
    assert_eq!(find_computed(&projection, &call(vec![node(4, Vec::new())])), None);
    let other = PhysicalPlan::Async {
        calls: vec![
            named("free", node(5, Vec::new())),
            named("again", call(vec![column("text", 0)])),
            named("new", call(vec![node(4, Vec::new())])),
        ],
        input: Box::new(projection),
    };
    match reuse_computed(&other) {
        PhysicalPlan::Projection { columns, input } => {
            assert_eq!(
                columns,
                vec![
                    named("text", column("text", 0)),
                    named("free", column("free", 2)),
                    named("again", column("__jev_reuse_1", 1)),
                    named("new", column("new", 3)),
                ]
            );
            match *input {
                PhysicalPlan::Async { calls, .. } => assert_eq!(calls.len(), 2),
                other => panic!("{other:?}"),
            }
        }
        other => panic!("{other:?}"),
    }
}

#[test]
fn judgments_below_a_limit_are_made_on_demand() {
    let calls = || vec![named("__async_fn_0", call(vec![column("body", 0)]))];
    let plan = stage(
        Stage::CoalescePartitions { fetch: Some(2) },
        stage(Stage::Repartition { id: 4 }, filter(paid(), judged(scan()))),
    );
    let expected = stage(
        Stage::GlobalLimit { skip: 0, fetch: Some(2) },
        stage(
            Stage::SerialPartitions,
            PhysicalPlan::Filter {
                predicate: paid(),
                settings: FilterSettings { batch_size: 1, ..settings(None) },
                input: Box::new(PhysicalPlan::Paid {
                    calls: calls(),
                    demand: true,
                    input: Box::new(scan()),
                }),
            },
        ),
    );
    assert_eq!(rewrite(&plan, false), expected);
    let free = PhysicalPlan::Paid { calls: calls(), demand: false, input: Box::new(scan()) };
    assert_eq!(rewrite(&judged(scan()), false), free);
    let sorted = PhysicalPlan::Other {
        id: 9,
        fields: vec!["body".into(), "size".into(), "__async_fn_0".into()],
        children: vec![judged(scan())],
    };
    let limited = stage(Stage::LocalLimit { count: 1 }, sorted);
    match rewrite(&limited, true) {
        PhysicalPlan::Stage { input, .. } => match *input {
            PhysicalPlan::Other { children, .. } => assert_eq!(children, vec![free]),
            other => panic!("{other:?}"),
        },
        other => panic!("{other:?}"),
    }
}

#[test]
fn limits_of_joined_batches_stay_below_a_limit() {
    let below = |fetch| {
        let joined = stage(Stage::CoalesceBatches { id: 3, fetch }, judged(scan()));
        stage(Stage::GlobalLimit { skip: 0, fetch: Some(5) }, joined)
    };
    let calls = vec![named("__async_fn_0", call(vec![column("body", 0)]))];
    let paid = PhysicalPlan::Paid { calls, demand: true, input: Box::new(scan()) };
    let limit = Stage::GlobalLimit { skip: 0, fetch: Some(5) };
    assert_eq!(
        rewrite(&below(Some(2)), false),
        stage(limit, stage(Stage::LocalLimit { count: 2 }, paid.copy()))
    );
    assert_eq!(rewrite(&below(None), false), stage(limit, paid));
}

#[test]
fn plans_without_judgments_are_left_alone() {
    let plan = stage(
        Stage::GlobalLimit { skip: 1, fetch: Some(2) },
        stage(Stage::CoalesceBatches { id: 3, fetch: None }, filter(cheap(), scan())),
    );
    assert_eq!(optimize(&plan), plan);
    assert!(!optimize(&judged(scan())).has_jev());
    assert!(judged(scan()).has_jev());
}

#[test]
fn all_steps_work_together() {
    let select = PhysicalPlan::Async {
        calls: vec![named("p", call(vec![column("body", 0)]))],
        input: Box::new(filter(and(paid(), cheap()), judged(scan()))),
    };
    let plan = stage(Stage::GlobalLimit { skip: 0, fetch: Some(1) }, select);
    let arranged = optimize(&plan);
    let shown = format!("{arranged:?}");
    assert_eq!(shown.matches("Paid").count(), 1);
    assert_eq!(shown.matches("Async").count(), 0);
    assert!(shown.contains("demand: true"));
    assert_eq!(arranged.fields(), plan.fields());
}

#[test]
fn unsound_plans_are_recognized() {
    assert!(!filter(node(1, vec![column("x", 2)]), scan()).is_sound());
    assert!(filter(node(1, vec![column("x", 1)]), scan()).is_sound());
    let narrow = PhysicalPlan::Filter {
        predicate: cheap(),
        settings: FilterSettings { projection: Some(vec![2]), ..settings(None) },
        input: Box::new(scan()),
    };
    assert!(!narrow.is_sound());
}

#[test]
fn conjunctions_are_split_and_joined() {
    let three = and(and(cheap(), paid()), node(3, Vec::new()));
    let parts = three.split_conjunction();
    assert_eq!(parts, vec![cheap(), paid(), node(3, Vec::new())]);
    assert_eq!(conjunction(&parts), three);
    assert_eq!(conjunction(&Vec::new()), Expression::Always);
}

fn condition(id: usize, jev: bool) -> Condition {
    Condition::Node { id, jev, args: Vec::new() }
}

#[test]
fn judgments_leave_the_conditions_of_inner_joins() {
    let nested = Condition::Node { id: 3, jev: false, args: vec![condition(4, true)] };
    let filter = Some(Condition::And(
        Box::new(Condition::And(Box::new(condition(1, false)), Box::new(nested.copy()))),
        Box::new(Condition::Alias(Box::new(Condition::And(
            Box::new(condition(5, true)),
            Box::new(condition(6, false)),
        )))),
    ));
    let halves = split_join(true, &filter).unwrap();
    assert_eq!(
        halves.cheap,
        Some(Condition::And(Box::new(condition(1, false)), Box::new(condition(6, false))))
    );
    assert_eq!(
        halves.paid,
        Condition::And(Box::new(nested), Box::new(condition(5, true)))
    );
    assert!(split_join(false, &filter).is_none());
    assert!(split_join(true, &None).is_none());
    assert!(split_join(true, &Some(condition(1, false))).is_none());
    assert!(split_join(true, &Some(condition(1, true))).unwrap().cheap.is_none());
}
