//! Conditions of inner joins. A judgment can only be asked for in a filter, so the
//! parts of a join condition that hold one become a filter above the join. Only an
//! inner join is the same as the join without them and that filter.
use vstd::prelude::*;

use crate::expression::{both, holds, Value};

verus! {

/// A condition on a pair of rows.
#[derive(Debug, PartialEq, Eq)]
pub enum Condition {
    /// `left AND right`.
    And(Box<Condition>, Box<Condition>),
    /// A condition under another name.
    Alias(Box<Condition>),
    /// Any other condition, by its number.
    Node { id: usize, jev: bool, args: Vec<Condition> },
}

/// The meaning of a [`Condition`].
pub ghost enum Cond {
    And { left: Box<Cond>, right: Box<Cond> },
    Alias { inner: Box<Cond> },
    Node { id: int, jev: bool, args: Seq<Cond> },
}

impl Condition {
    pub open spec fn view(&self) -> Cond
        decreases self,
    {
        match self {
            Condition::And(left, right) => Cond::And {
                left: Box::new(left.view()),
                right: Box::new(right.view()),
            },
            Condition::Alias(inner) => Cond::Alias { inner: Box::new(inner.view()) },
            Condition::Node { id, jev, args } => Cond::Node {
                id: *id as int,
                jev: *jev,
                args: Seq::new(
                    args@.len(),
                    |i: int|
                        if 0 <= i < args@.len() {
                            args@[i].view()
                        } else {
                            Cond::Node { id: 0, jev: false, args: Seq::empty() }
                        },
                ),
            },
        }
    }
}

/// The meanings of some conditions.
pub open spec fn conds(list: Seq<Condition>) -> Seq<Cond> {
    Seq::new(list.len(), |i: int| list[i]@)
}

/// The view of a node, by the views of its arguments.
pub broadcast proof fn condition_view(value: Condition)
    ensures
        value matches Condition::Node { id, jev, args } ==> #[trigger] value.view()
            == (Cond::Node { id: id as int, jev, args: conds(args@) }),
{
    if let Condition::Node { args, .. } = value {
        assert(value.view()->args =~= conds(args@));
    }
}

/// Whether a condition asks for a judgment.
pub open spec fn judges(condition: Cond) -> bool
    decreases condition,
{
    match condition {
        Cond::And { left, right } => judges(*left) || judges(*right),
        Cond::Alias { inner } => judges(*inner),
        Cond::Node { jev, args, .. } => jev || exists|i: int|
            0 <= i < args.len() && judges(#[trigger] args[i]),
    }
}

/// The parts that a condition joins by `AND`, from left to right, under no name.
pub open spec fn parts_of(condition: Cond) -> Seq<Cond>
    decreases condition,
{
    match condition {
        Cond::And { left, right } => parts_of(*left) + parts_of(*right),
        Cond::Alias { inner } => parts_of(*inner),
        Cond::Node { .. } => seq![condition],
    }
}

/// The parts that ask for a judgment, or those that do not, in their order.
pub open spec fn sorted_parts(parts: Seq<Cond>, judging: bool) -> Seq<Cond>
    decreases parts.len(),
{
    if parts.len() == 0 {
        Seq::empty()
    } else if judges(parts.last()) == judging {
        sorted_parts(parts.drop_last(), judging).push(parts.last())
    } else {
        sorted_parts(parts.drop_last(), judging)
    }
}

/// Some conditions joined by `AND`, from left to right; nothing for none.
pub open spec fn joined(parts: Seq<Cond>) -> Option<Cond>
    decreases parts.len(),
{
    if parts.len() == 0 {
        None
    } else if parts.len() == 1 {
        Some(parts[0])
    } else {
        Some(
            Cond::And {
                left: Box::new(joined(parts.drop_last())->0),
                right: Box::new(parts.last()),
            },
        )
    }
}

/// The condition that stays with a join, and the one of the filter above it; nothing
/// where the join stays as it is.
pub open spec fn split(inner: bool, filter: Option<Cond>) -> Option<(Option<Cond>, Cond)> {
    match filter {
        Some(condition) if inner => match joined(sorted_parts(parts_of(condition), true)) {
            Some(paid) => Some((joined(sorted_parts(parts_of(condition), false)), paid)),
            None => None,
        },
        _ => None,
    }
}

/// The value of a node, by its number and the values of its arguments.
pub type Judgment = spec_fn(int, Seq<Value>) -> Value;

/// The value of a condition.
pub open spec fn outcome(judgment: Judgment, condition: Cond) -> Value
    decreases condition,
{
    match condition {
        Cond::And { left, right } => both(outcome(judgment, *left), outcome(judgment, *right)),
        Cond::Alias { inner } => outcome(judgment, *inner),
        Cond::Node { id, args, .. } => judgment(
            id,
            Seq::new(
                args.len(),
                |i: int|
                    if 0 <= i < args.len() {
                        outcome(judgment, args[i])
                    } else {
                        Value::Missing
                    },
            ),
        ),
    }
}

/// Whether a condition that may be missing lets a pair of rows through.
pub open spec fn lets_through(judgment: Judgment, condition: Option<Cond>) -> bool {
    match condition {
        Some(condition) => holds(outcome(judgment, condition)),
        None => true,
    }
}

/// Whether all of some conditions hold.
pub open spec fn every_one(judgment: Judgment, parts: Seq<Cond>) -> bool {
    forall|i: int| 0 <= i < parts.len() ==> holds(outcome(judgment, #[trigger] parts[i]))
}

/// A condition holds where all of its parts hold.
proof fn parts_hold(judgment: Judgment, condition: Cond)
    ensures
        holds(outcome(judgment, condition)) == every_one(judgment, parts_of(condition)),
    decreases condition,
{
    match condition {
        Cond::And { left, right } => {
            parts_hold(judgment, *left);
            parts_hold(judgment, *right);
            let a = parts_of(*left);
            let b = parts_of(*right);
            if every_one(judgment, a + b) {
                assert forall|i: int| 0 <= i < a.len() implies holds(
                    outcome(judgment, #[trigger] a[i]),
                ) by {
                    assert((a + b)[i] == a[i]);
                }
                assert forall|i: int| 0 <= i < b.len() implies holds(
                    outcome(judgment, #[trigger] b[i]),
                ) by {
                    assert((a + b)[a.len() + i] == b[i]);
                }
            }
        },
        Cond::Alias { inner } => {
            parts_hold(judgment, *inner);
        },
        Cond::Node { .. } => {
            assert(parts_of(condition)[0] == condition);
        },
    }
}

/// All of some conditions hold where all that judge and all that do not hold, and
/// each of those is as it is sorted.
proof fn sorted_hold(judgment: Judgment, parts: Seq<Cond>)
    ensures
        every_one(judgment, parts) == (every_one(judgment, sorted_parts(parts, true)) && every_one(
            judgment,
            sorted_parts(parts, false),
        )),
    decreases parts.len(),
{
    if parts.len() > 0 {
        let rest = parts.drop_last();
        sorted_hold(judgment, rest);
        one_more(judgment, rest, parts.last());
        assert(rest.push(parts.last()) =~= parts);
        one_more(judgment, sorted_parts(rest, true), parts.last());
        one_more(judgment, sorted_parts(rest, false), parts.last());
    }
}

/// All of some conditions and one more hold where all of them hold, and it.
proof fn one_more(judgment: Judgment, parts: Seq<Cond>, last: Cond)
    ensures
        every_one(judgment, parts.push(last)) == (every_one(judgment, parts) && holds(
            outcome(judgment, last),
        )),
{
    let more = parts.push(last);
    if every_one(judgment, more) {
        assert(more[parts.len() as int] == last);
        assert forall|i: int| 0 <= i < parts.len() implies holds(
            outcome(judgment, #[trigger] parts[i]),
        ) by {
            assert(more[i] == parts[i]);
        }
    }
}

/// Some conditions joined by `AND` hold where all of them hold, and judge where one
/// of them does.
proof fn joined_holds(judgment: Judgment, parts: Seq<Cond>)
    ensures
        joined(parts) is None <==> parts.len() == 0,
        lets_through(judgment, joined(parts)) == every_one(judgment, parts),
    decreases parts.len(),
{
    if parts.len() > 1 {
        let rest = parts.drop_last();
        joined_holds(judgment, rest);
        one_more(judgment, rest, parts.last());
        assert(rest.push(parts.last()) =~= parts);
    } else if parts.len() == 1 {
        if holds(outcome(judgment, parts[0])) {
            assert(every_one(judgment, parts));
        }
    }
}

/// What is joined of parts that ask for no judgment asks for none.
proof fn joined_cheap(parts: Seq<Cond>)
    requires
        forall|i: int| 0 <= i < parts.len() ==> !judges(#[trigger] parts[i]),
    ensures
        joined(parts) matches Some(condition) ==> !judges(condition),
    decreases parts.len(),
{
    if parts.len() > 1 {
        assert(!judges(parts[parts.len() - 1]));
        assert forall|i: int| 0 <= i < parts.drop_last().len() implies !judges(
            #[trigger] parts.drop_last()[i],
        ) by {
            assert(parts.drop_last()[i] == parts[i]);
        }
        joined_cheap(parts.drop_last());
    }
}

/// The parts that are sorted judge, or do not, as they are sorted.
proof fn sorted_judge(parts: Seq<Cond>, judging: bool)
    ensures
        forall|i: int|
            0 <= i < sorted_parts(parts, judging).len() ==> judges(
                #[trigger] sorted_parts(parts, judging)[i],
            ) == judging,
    decreases parts.len(),
{
    if parts.len() > 0 {
        sorted_judge(parts.drop_last(), judging);
        let rest = sorted_parts(parts.drop_last(), judging);
        assert forall|i: int| 0 <= i < sorted_parts(parts, judging).len() implies judges(
            #[trigger] sorted_parts(parts, judging)[i],
        ) == judging by {
            if i < rest.len() {
                assert(sorted_parts(parts, judging)[i] == rest[i]);
            }
        }
    }
}

/// A pair of rows passes the condition of an inner join where it passes what stays
/// with the join and then the filter above it. What stays asks for no judgment.
pub proof fn splitting_keeps_the_pairs(judgment: Judgment, condition: Cond)
    ensures
        split(false, Some(condition)) is None,
        match split(true, Some(condition)) {
            Some((cheap, paid)) => {
                &&& holds(outcome(judgment, condition)) == (lets_through(judgment, cheap) && holds(
                    outcome(judgment, paid),
                ))
                &&& cheap matches Some(condition) ==> !judges(condition)
            },
            None => sorted_parts(parts_of(condition), true).len() == 0,
        },
{
    let parts = parts_of(condition);
    parts_hold(judgment, condition);
    sorted_hold(judgment, parts);
    joined_holds(judgment, sorted_parts(parts, true));
    joined_holds(judgment, sorted_parts(parts, false));
    sorted_judge(parts, false);
    joined_cheap(sorted_parts(parts, false));
}

impl Condition {
    /// A condition of its own with the same meaning.
    pub fn copy(&self) -> (result: Condition)
        ensures
            result@ == self@,
        decreases self,
    {
        broadcast use condition_view;

        match self {
            Condition::And(left, right) => Condition::And(
                Box::new(left.copy()),
                Box::new(right.copy()),
            ),
            Condition::Alias(inner) => Condition::Alias(Box::new(inner.copy())),
            Condition::Node { id, jev, args } => {
                let mut copies: Vec<Condition> = Vec::new();
                for at in 0..args.len()
                    invariant
                        decreases_to!(self => args@),
                        copies@.len() == at,
                        forall|i: int| 0 <= i < at ==> (#[trigger] copies@[i])@ == args@[i]@,
                {
                    copies.push(args[at].copy());
                }
                assert(conds(copies@) =~= conds(args@));
                Condition::Node { id: *id, jev: *jev, args: copies }
            },
        }
    }

    /// Whether a condition asks for a judgment.
    pub fn contains_jev(&self) -> (yes: bool)
        ensures
            yes == judges(self@),
        decreases self,
    {
        broadcast use condition_view;

        match self {
            Condition::And(left, right) => left.contains_jev() || right.contains_jev(),
            Condition::Alias(inner) => inner.contains_jev(),
            Condition::Node { jev, args, .. } => {
                if *jev {
                    return true;
                }
                for at in 0..args.len()
                    invariant
                        decreases_to!(self => args@),
                        *self matches Condition::Node { args: all, .. } && all == args,
                        forall|i: int| 0 <= i < at ==> !judges(#[trigger] conds(args@)[i]),
                {
                    if args[at].contains_jev() {
                        proof {
                            condition_view(*self);
                            assert(judges(self@->args[at as int]));
                        }
                        return true;
                    }
                }
                false
            },
        }
    }

    /// Adds the parts that a condition joins by `AND`.
    fn add_parts(&self, parts: &mut Vec<Condition>)
        ensures
            conds(final(parts)@) == conds(old(parts)@) + parts_of(self@),
        decreases self,
    {
        broadcast use condition_view;

        match self {
            Condition::And(left, right) => {
                left.add_parts(parts);
                right.add_parts(parts);
                assert(conds(old(parts)@) + parts_of(left@) + parts_of(right@) =~= conds(
                    old(parts)@,
                ) + (parts_of(left@) + parts_of(right@)));
            },
            Condition::Alias(inner) => inner.add_parts(parts),
            Condition::Node { .. } => {
                parts.push(self.copy());
                assert(conds(parts@) =~= conds(old(parts)@) + seq![self@]);
            },
        }
    }
}

/// Some conditions joined by `AND`, from left to right; nothing for none.
fn join_parts(parts: &Vec<Condition>) -> (result: Option<Condition>)
    ensures
        match (result, joined(conds(parts@))) {
            (Some(condition), Some(expected)) => condition@ == expected,
            (None, None) => true,
            _ => false,
        },
{
    if parts.len() == 0 {
        return None;
    }
    let ghost all = conds(parts@);
    let mut result = parts[0].copy();
    proof {
        assert(all.take(1)[0] == all[0]);
    }
    for at in 1..parts.len()
        invariant
            all == conds(parts@),
            0 < parts@.len(),
            joined(all.take(at as int)) == Some(result@),
    {
        proof {
            let longer = all.take(at as int + 1);
            assert(longer.drop_last() =~= all.take(at as int));
            assert(longer.last() == all[at as int]);
        }
        result = Condition::And(Box::new(result), Box::new(parts[at].copy()));
    }
    assert(all.take(parts@.len() as int) =~= all);
    Some(result)
}

/// What becomes of the condition of a join: the part that stays with it, and the
/// filter above it.
pub struct JoinSplit {
    pub cheap: Option<Condition>,
    pub paid: Condition,
}

/// The condition that stays with a join, and the one of the filter above it; nothing
/// where the join stays as it is.
pub fn split_join(inner: bool, filter: &Option<Condition>) -> (result: Option<JoinSplit>)
    ensures
        match (
            result,
            split(
                inner,
                match *filter {
                    Some(condition) => Some(condition@),
                    None => None,
                },
            ),
        ) {
            (Some(halves), Some((cheap, paid))) => {
                &&& halves.paid@ == paid
                &&& match (halves.cheap, cheap) {
                    (Some(condition), Some(expected)) => condition@ == expected,
                    (None, None) => true,
                    _ => false,
                }
            },
            (None, None) => true,
            _ => false,
        },
{
    if !inner {
        return None;
    }
    let condition = match filter {
        Some(condition) => condition,
        None => {
            return None;
        },
    };
    let mut parts: Vec<Condition> = Vec::new();
    condition.add_parts(&mut parts);
    let ghost all = parts_of(condition@);
    assert(conds(parts@) =~= all);
    let mut cheap: Vec<Condition> = Vec::new();
    let mut paid: Vec<Condition> = Vec::new();
    assert(conds(cheap@) =~= Seq::empty());
    for at in 0..parts.len()
        invariant
            all == conds(parts@),
            conds(cheap@) == sorted_parts(all.take(at as int), false),
            conds(paid@) == sorted_parts(all.take(at as int), true),
    {
        let ghost cheap_before = conds(cheap@);
        let ghost paid_before = conds(paid@);
        proof {
            let more = all.take(at as int + 1);
            assert(more.drop_last() =~= all.take(at as int));
            assert(more.last() == all[at as int]);
        }
        if parts[at].contains_jev() {
            paid.push(parts[at].copy());
            assert(conds(paid@) =~= paid_before.push(all[at as int]));
        } else {
            cheap.push(parts[at].copy());
            assert(conds(cheap@) =~= cheap_before.push(all[at as int]));
        }
    }
    assert(all.take(parts@.len() as int) =~= all);
    match join_parts(&paid) {
        None => None,
        Some(predicate) => Some(JoinSplit { cheap: join_parts(&cheap), paid: predicate }),
    }
}

} // verus!
