//! Members of JSON objects, told by the places at which they stand.
use vstd::prelude::*;

use crate::json::{
    collected, collected_sorted, lookup, member, sorted, with_field, with_field_sorted, Json,
    Members, Named,
};
use crate::text::{less, less_irreflexive, less_transitive};

verus! {

/// Whether a value stands under a name at some place, and the name does not come again.
pub open spec fn stands_at<T>(fields: Named<T>, at: int, name: Seq<char>, value: T) -> bool {
    &&& 0 <= at < fields.len()
    &&& fields[at] == (name, value)
    &&& forall|later: int| at < later < fields.len() ==> (#[trigger] fields[later]).0 != name
}

/// Whether a value is an object whose last member of a name is some value.
pub open spec fn holds(value: Json, name: Seq<char>, inner: Json) -> bool {
    value matches Json::Object(fields) && exists|at: int| stands_at(fields, at, name, inner)
}

/// Whether a value is no object, or an object without a member of a name.
pub open spec fn lacks(value: Json, name: Seq<char>) -> bool {
    value matches Json::Object(fields) ==> forall|i: int|
        0 <= i < fields.len() ==> (#[trigger] fields[i]).0 != name
}

/// The place of the member that a name finds.
proof fn last_place<T>(fields: Named<T>, name: Seq<char>) -> (at: int)
    requires
        lookup(fields, name) is Some,
    ensures
        stands_at(fields, at, name, lookup(fields, name)->0),
    decreases fields.len(),
{
    if fields.last().0 == name {
        fields.len() - 1
    } else {
        let rest = fields.drop_last();
        let at = last_place(rest, name);
        assert forall|later: int| at < later < fields.len() implies (#[trigger] fields[later]).0
            != name by {
            if later < rest.len() {
                assert(rest[later].0 != name);
            }
        }
        at
    }
}

/// A member that stands last under its name is found.
proof fn last_is_found<T>(fields: Named<T>, at: int, name: Seq<char>, value: T)
    requires
        stands_at(fields, at, name, value),
    ensures
        lookup(fields, name) == Some(value),
    decreases fields.len(),
{
    if at < fields.len() - 1 {
        assert(fields[fields.len() - 1].0 != name);
        assert forall|later: int| at < later < fields.drop_last().len() implies (
        #[trigger] fields.drop_last()[later]).0 != name by {
            assert(fields[later].0 != name);
        }
        last_is_found(fields.drop_last(), at, name, value);
    }
}

/// A name that does not occur finds nothing.
proof fn unknown_names_find_nothing<T>(fields: Named<T>, name: Seq<char>)
    requires
        forall|i: int| 0 <= i < fields.len() ==> (#[trigger] fields[i]).0 != name,
    ensures
        lookup(fields, name) is None,
    decreases fields.len(),
{
    if fields.len() > 0 {
        assert(fields[fields.len() - 1].0 != name);
        assert forall|i: int| 0 <= i < fields.drop_last().len() implies (
        #[trigger] fields.drop_last()[i]).0 != name by {
            assert(fields[i].0 != name);
        }
        unknown_names_find_nothing(fields.drop_last(), name);
    }
}

/// A name finds the last member of that name, and only where there is none it finds none.
pub proof fn names_find_their_member<T>(fields: Named<T>, name: Seq<char>)
    ensures
        forall|at: int, value: T|
            #[trigger] stands_at(fields, at, name, value) ==> lookup(fields, name) == Some(value),
        lookup(fields, name) is None <==> forall|i: int|
            0 <= i < fields.len() ==> (#[trigger] fields[i]).0 != name,
        lookup(fields, name) matches Some(value) ==> exists|at: int|
            stands_at(fields, at, name, value),
{
    assert forall|at: int, value: T| #[trigger]
        stands_at(fields, at, name, value) implies lookup(fields, name) == Some(value) by {
        last_is_found(fields, at, name, value);
    }
    if lookup(fields, name) is Some {
        let at = last_place(fields, name);
        assert(fields[at].0 == name);
        assert(stands_at(fields, at, name, lookup(fields, name)->0));
    }
    if forall|i: int| 0 <= i < fields.len() ==> (#[trigger] fields[i]).0 != name {
        unknown_names_find_nothing(fields, name);
    } else {
        let i = choose|i: int| 0 <= i < fields.len() && (#[trigger] fields[i]).0 == name;
        let at = last_of(fields, i, name);
        last_is_found(fields, at, name, fields[at].1);
    }
}

/// The last place of a name that occurs.
proof fn last_of<T>(fields: Named<T>, from: int, name: Seq<char>) -> (at: int)
    requires
        0 <= from < fields.len(),
        fields[from].0 == name,
    ensures
        stands_at(fields, at, name, fields[at].1),
    decreases fields.len() - from,
{
    if exists|later: int| from < later < fields.len() && (#[trigger] fields[later]).0 == name {
        let later = choose|later: int|
            from < later < fields.len() && (#[trigger] fields[later]).0 == name;
        last_of(fields, later, name)
    } else {
        from
    }
}

/// What a name finds is held under it.
pub proof fn found_members_are_held(fields: Members, name: Seq<char>, inner: Json)
    requires
        lookup(fields, name) == Some(inner),
    ensures
        holds(Json::Object(fields), name, inner),
{
    let at = last_place(fields, name);
    assert(fields[at] == (name, inner));
    let value = Json::Object(fields);
    assert(stands_at(value->Object_0, at, name, inner));
}

/// The member of an object under a name is the last that stands under it; a value that is no
/// object, or has none, gives null.
pub proof fn members_are_told_by_name(value: Json, name: Seq<char>)
    ensures
        forall|inner: Json| #[trigger] holds(value, name, inner) ==> member(value, name) == inner,
        lacks(value, name) ==> member(value, name) is Null,
        member(value, name) !is Null ==> holds(value, name, member(value, name)),
{
    if let Json::Object(fields) = value {
        names_find_their_member(fields, name);
    }
}

/// A member is put where the names before it are smaller and those behind it are larger; one
/// of the same name gives way, and every other member stays.
pub proof fn putting_a_member<T>(fields: Named<T>, name: Seq<char>, value: T) -> (at: int)
    requires
        forall|i: int, j: int|
            0 <= i < j < fields.len() ==> less((#[trigger] fields[i]).0, (#[trigger] fields[j]).0),
    ensures
        ({
            let all = with_field(fields, name, value);
            let known = exists|i: int| 0 <= i < fields.len() && (#[trigger] fields[i]).0 == name;
            &&& all.len() == fields.len() + (if known { 0int } else { 1int })
            &&& 0 <= at < all.len()
            &&& all[at] == (name, value)
            &&& all.take(at) == fields.take(at)
            &&& all.skip(at + 1) == fields.skip(if known { at + 1 } else { at })
            &&& known ==> fields[at].0 == name
            &&& forall|i: int, j: int|
                0 <= i < j < all.len() ==> less((#[trigger] all[i]).0, (#[trigger] all[j]).0)
        }),
    decreases fields.len(),
{
    let all = with_field(fields, name, value);
    with_field_sorted(fields, name, value);
    assert(sorted(all));
    if fields.len() == 0 {
        assert(all =~= seq![(name, value)]);
        assert(all.take(0) =~= fields.take(0));
        assert(all.skip(1) =~= fields.skip(0));
        0
    } else if less(name, fields[0].0) {
        assert forall|i: int| 0 <= i < fields.len() implies (#[trigger] fields[i]).0 != name by {
            if fields[i].0 == name {
                less_irreflexive(name);
                if i > 0 {
                    assert(less(fields[0].0, fields[i].0));
                    less_transitive(name, fields[0].0, name);
                }
            }
        }
        assert(all.take(0) =~= fields.take(0));
        assert(all.skip(1) =~= fields.skip(0));
        0
    } else if name == fields[0].0 {
        assert(all.take(0) =~= fields.take(0));
        assert(all.skip(1) =~= fields.skip(1));
        0
    } else {
        let rest = fields.drop_first();
        assert forall|i: int, j: int| 0 <= i < j < rest.len() implies less(
            (#[trigger] rest[i]).0,
            (#[trigger] rest[j]).0,
        ) by {
            assert(less(fields[i + 1].0, fields[j + 1].0));
        }
        let below = putting_a_member(rest, name, value);
        let lower = with_field(rest, name, value);
        assert(all =~= seq![fields[0]] + lower);
        let known = exists|i: int| 0 <= i < fields.len() && (#[trigger] fields[i]).0 == name;
        let known_below = exists|i: int| 0 <= i < rest.len() && (#[trigger] rest[i]).0 == name;
        if known {
            let i = choose|i: int| 0 <= i < fields.len() && (#[trigger] fields[i]).0 == name;
            assert(rest[i - 1].0 == name);
        }
        if known_below {
            let i = choose|i: int| 0 <= i < rest.len() && (#[trigger] rest[i]).0 == name;
            assert(fields[i + 1].0 == name);
        }
        let at = below + 1;
        assert(all.take(at) =~= fields.take(at)) by {
            assert forall|i: int| 0 <= i < at implies all[i] == fields[i] by {
                if i > 0 {
                    assert(lower.take(below)[i - 1] == rest.take(below)[i - 1]);
                }
            }
        }
        let gap: int = if known { 1 } else { 0 };
        assert(all.skip(at + 1) =~= fields.skip(at + gap)) by {
            assert(lower.skip(below + 1) =~= rest.skip(below + gap));
            assert(all.skip(at + 1) =~= lower.skip(below + 1));
            assert(fields.skip(at + gap) =~= rest.skip(below + gap));
        }
        at
    }
}

/// What a name finds in a member followed by others.
proof fn found_behind_the_first<T>(first: (Seq<char>, T), rest: Named<T>, name: Seq<char>)
    ensures
        lookup(seq![first] + rest, name) == match lookup(rest, name) {
            Some(value) => Some(value),
            None => if first.0 == name {
                Some(first.1)
            } else {
                None
            },
        },
    decreases rest.len(),
{
    let all = seq![first] + rest;
    if rest.len() == 0 {
        assert(all =~= seq![first]);
        assert(all.drop_last() =~= Seq::<(Seq<char>, T)>::empty());
    } else {
        assert(all.drop_last() =~= seq![first] + rest.drop_last());
        assert(all.last() == rest.last());
        found_behind_the_first(first, rest.drop_last(), name);
    }
}

/// Whatever is put under a name is found there, and every other name finds what it found
/// before.
pub proof fn put_members_are_found<T>(
    fields: Named<T>,
    name: Seq<char>,
    value: T,
    other: Seq<char>,
)
    requires
        sorted(fields),
    ensures
        lookup(with_field(fields, name, value), other) == if other == name {
            Some(value)
        } else {
            lookup(fields, other)
        },
    decreases fields.len(),
{
    if fields.len() == 0 {
        assert(seq![(name, value)] =~= seq![(name, value)] + fields);
        found_behind_the_first((name, value), fields, other);
    } else {
        let rest = fields.drop_first();
        assert(fields =~= seq![fields[0]] + rest);
        found_behind_the_first(fields[0], rest, other);
        if less(name, fields[0].0) {
            assert forall|i: int| 0 <= i < fields.len() implies (#[trigger] fields[i]).0
                != name by {
                less_irreflexive(name);
                if i > 0 {
                    assert(less(fields[0].0, fields[i].0));
                    if fields[i].0 == name {
                        less_transitive(name, fields[0].0, name);
                    }
                }
            }
            unknown_names_find_nothing(fields, name);
            found_behind_the_first((name, value), fields, other);
        } else if name == fields[0].0 {
            assert forall|i: int| 0 <= i < rest.len() implies (#[trigger] rest[i]).0 != name by {
                less_irreflexive(name);
                assert(less(fields[0].0, fields[i + 1].0));
            }
            unknown_names_find_nothing(rest, name);
            found_behind_the_first((name, value), rest, other);
        } else {
            assert(sorted(rest)) by {
                assert forall|i: int, j: int| 0 <= i < j < rest.len() implies less(
                    (#[trigger] rest[i]).0,
                    (#[trigger] rest[j]).0,
                ) by {
                    assert(less(fields[i + 1].0, fields[j + 1].0));
                }
            }
            put_members_are_found(rest, name, value, other);
            found_behind_the_first(fields[0], with_field(rest, name, value), other);
        }
    }
}

/// Members that are brought into order are found as before.
pub proof fn ordered_members_are_found<T>(fields: Named<T>, name: Seq<char>)
    ensures
        lookup(collected(fields), name) == lookup(fields, name),
    decreases fields.len(),
{
    if fields.len() > 0 {
        let rest = fields.drop_last();
        ordered_members_are_found(rest, name);
        collected_sorted(rest);
        put_members_are_found(collected(rest), fields.last().0, fields.last().1, name);
    }
}

} // verus!
