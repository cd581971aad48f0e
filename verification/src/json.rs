//! JSON values. A number is kept as the text in which it was written, and the
//! members of an object as a list.
use vstd::prelude::*;

use crate::text::{comes_before, less, less_irreflexive, less_total, less_transitive, same};

verus! {

/// A JSON value.
#[derive(Debug, PartialEq, Eq)]
pub enum JsonValue {
    Null,
    Bool(bool),
    /// A number, as a JSON number text.
    Number(String),
    Text(String),
    Array(Vec<JsonValue>),
    /// The members of an object. The last of several members with one name
    /// counts.
    Object(Vec<(String, JsonValue)>),
}

/// The meaning of a [`JsonValue`].
pub ghost enum Json {
    Null,
    Bool(bool),
    Number(Seq<char>),
    Text(Seq<char>),
    Array(Seq<Json>),
    Object(Seq<(Seq<char>, Json)>),
}

/// Values with names.
pub type Named<T> = Seq<(Seq<char>, T)>;

/// The members of an object.
pub type Members = Named<Json>;

/// The pairs of a list by the texts of their names.
pub open spec fn named<T>(fields: Seq<(String, T)>) -> Named<T> {
    Seq::new(fields.len(), |i: int| (fields[i].0@, fields[i].1))
}

impl JsonValue {
    pub open spec fn view(&self) -> Json
        decreases self,
    {
        match self {
            JsonValue::Null => Json::Null,
            JsonValue::Bool(value) => Json::Bool(*value),
            JsonValue::Number(text) => Json::Number(text@),
            JsonValue::Text(text) => Json::Text(text@),
            JsonValue::Array(items) => Json::Array(
                Seq::new(
                    items@.len(),
                    |i: int|
                        if 0 <= i < items@.len() {
                            items@[i].view()
                        } else {
                            Json::Null
                        },
                ),
            ),
            JsonValue::Object(fields) => Json::Object(
                Seq::new(
                    fields@.len(),
                    |i: int|
                        if 0 <= i < fields@.len() {
                            (fields@[i].0@, fields@[i].1.view())
                        } else {
                            (Seq::empty(), Json::Null)
                        },
                ),
            ),
        }
    }
}

/// The values of a list.
pub open spec fn items_view(items: Seq<JsonValue>) -> Seq<Json> {
    Seq::new(items.len(), |i: int| items[i]@)
}

/// The members that a list of pairs stands for.
pub open spec fn fields_view(fields: Seq<(String, JsonValue)>) -> Members {
    Seq::new(fields.len(), |i: int| (fields[i].0@, fields[i].1@))
}

/// The view of an array and of an object, by the views of what they hold.
pub broadcast proof fn container_views(value: JsonValue)
    ensures
        value matches JsonValue::Array(items) ==> #[trigger] value.view() == Json::Array(
            items_view(items@),
        ),
        value matches JsonValue::Object(fields) ==> value.view() == Json::Object(
            fields_view(fields@),
        ),
{
    match value {
        JsonValue::Array(items) => {
            assert(value.view()->Array_0 =~= items_view(items@));
        },
        JsonValue::Object(fields) => {
            assert(value.view()->Object_0 =~= fields_view(fields@));
        },
        _ => {},
    }
}

impl JsonValue {
    /// A value of its own with the same meaning.
    pub fn copy(&self) -> (result: JsonValue)
        ensures
            result@ == self@,
        decreases self,
    {
        broadcast use container_views;

        match self {
            JsonValue::Null => JsonValue::Null,
            JsonValue::Bool(value) => JsonValue::Bool(*value),
            JsonValue::Number(text) => JsonValue::Number(text.clone()),
            JsonValue::Text(text) => JsonValue::Text(text.clone()),
            JsonValue::Array(items) => {
                let mut result: Vec<JsonValue> = Vec::new();
                for at in 0..items.len()
                    invariant
                        decreases_to!(self => items@),
                        result@.len() == at,
                        forall|i: int| 0 <= i < at ==> (#[trigger] result@[i])@ == items@[i]@,
                {
                    result.push(items[at].copy());
                }
                assert(items_view(result@) =~= items_view(items@));
                JsonValue::Array(result)
            },
            JsonValue::Object(fields) => {
                let mut result: Vec<(String, JsonValue)> = Vec::new();
                for at in 0..fields.len()
                    invariant
                        decreases_to!(self => fields@),
                        result@.len() == at,
                        forall|i: int|
                            0 <= i < at ==> (#[trigger] result@[i]).0@ == fields@[i].0@
                                && result@[i].1@ == fields@[i].1@,
                {
                    result.push((fields[at].0.clone(), fields[at].1.copy()));
                }
                assert(fields_view(result@) =~= fields_view(fields@));
                JsonValue::Object(result)
            },
        }
    }
}

impl Clone for JsonValue {
    fn clone(&self) -> (result: JsonValue)
        ensures
            result@ == self@,
    {
        self.copy()
    }
}

/// Puts a member where it belongs in the order of names. A member of the same
/// name is replaced.
pub open spec fn with_field<T>(fields: Named<T>, name: Seq<char>, value: T) -> Named<T>
    decreases fields.len(),
{
    if fields.len() == 0 {
        seq![(name, value)]
    } else if less(name, fields[0].0) {
        seq![(name, value)] + fields
    } else if name == fields[0].0 {
        seq![(name, value)] + fields.drop_first()
    } else {
        seq![fields[0]] + with_field(fields.drop_first(), name, value)
    }
}

/// Members in the order of their names, the last of one name kept.
pub open spec fn collected<T>(fields: Named<T>) -> Named<T>
    decreases fields.len(),
{
    if fields.len() == 0 {
        Seq::empty()
    } else {
        with_field(collected(fields.drop_last()), fields.last().0, fields.last().1)
    }
}

/// Whether members stand in the order of their names, each name once.
pub open spec fn sorted<T>(fields: Named<T>) -> bool {
    forall|i: int, j: int|
        0 <= i < j < fields.len() ==> less((#[trigger] fields[i]).0, (#[trigger] fields[j]).0)
}

/// Whether some member has a name.
pub open spec fn has_field<T>(fields: Named<T>, name: Seq<char>) -> bool {
    exists|i: int| 0 <= i < fields.len() && (#[trigger] fields[i]).0 == name
}

/// Putting a member at a place where all names before it come before its own,
/// and all names behind it after its own.
pub proof fn with_field_at<T>(fields: Named<T>, name: Seq<char>, value: T, at: int)
    requires
        0 <= at <= fields.len(),
        forall|i: int| 0 <= i < at ==> less((#[trigger] fields[i]).0, name),
    ensures
        at == fields.len() || less(name, fields[at].0) ==> with_field(fields, name, value)
            == fields.insert(at, (name, value)),
        at < fields.len() && fields[at].0 == name ==> with_field(fields, name, value)
            == fields.update(at, (name, value)),
    decreases fields.len(),
{
    if fields.len() == 0 {
        assert(with_field(fields, name, value) =~= fields.insert(at, (name, value)));
    } else if at == 0 {
        less_irreflexive(name);
        if less(name, fields[0].0) {
            assert(with_field(fields, name, value) =~= fields.insert(0, (name, value)));
        } else if name == fields[0].0 {
            assert(with_field(fields, name, value) =~= fields.update(0, (name, value)));
        }
    } else {
        let rest = fields.drop_first();
        assert(less(fields[0].0, name));
        if less(name, fields[0].0) {
            less_transitive(name, fields[0].0, name);
        }
        less_irreflexive(name);
        assert forall|i: int| 0 <= i < at - 1 implies less((#[trigger] rest[i]).0, name) by {
            assert(rest[i] == fields[i + 1]);
        }
        with_field_at(rest, name, value, at - 1);
        if at == fields.len() || less(name, fields[at].0) {
            assert(with_field(fields, name, value) =~= fields.insert(at, (name, value)));
        } else if fields[at].0 == name {
            assert(with_field(fields, name, value) =~= fields.update(at, (name, value)));
        }
    }
}

/// The place of a name among sorted members: all before it come before the name,
/// and none at or behind it does.
proof fn place_of<T>(fields: Named<T>, name: Seq<char>) -> (at: int)
    requires
        sorted(fields),
    ensures
        0 <= at <= fields.len(),
        forall|i: int| 0 <= i < at ==> less((#[trigger] fields[i]).0, name),
        at < fields.len() ==> !less(fields[at].0, name),
    decreases fields.len(),
{
    if fields.len() == 0 || !less(fields.last().0, name) {
        if fields.len() == 0 {
            0
        } else {
            let shorter = fields.drop_last();
            let at = place_of(shorter, name);
            assert forall|i: int| 0 <= i < at implies less((#[trigger] fields[i]).0, name) by {
                assert(shorter[i] == fields[i]);
            }
            at
        }
    } else {
        assert forall|i: int| 0 <= i < fields.len() implies less((#[trigger] fields[i]).0, name) by {
            if i < fields.len() - 1 {
                less_transitive(fields[i].0, fields.last().0, name);
            }
        }
        fields.len() as int
    }
}

/// Sorted members stay sorted when a member is put among them, and then hold the
/// names that they held and the new one.
pub proof fn with_field_sorted<T>(fields: Named<T>, name: Seq<char>, value: T)
    requires
        sorted(fields),
    ensures
        sorted(with_field(fields, name, value)),
        forall|other: Seq<char>|
            has_field(with_field(fields, name, value), other) <==> other == name || has_field(
                fields,
                other,
            ),
{
    let at = place_of(fields, name);
    with_field_at(fields, name, value, at);
    let result = with_field(fields, name, value);
    if at < fields.len() {
        less_total(fields[at].0, name);
    }
    if at < fields.len() && fields[at].0 == name {
        assert(result =~= fields.update(at, (name, value)));
        assert(result[at].0 == name);
        assert forall|other: Seq<char>| has_field(result, other) <==> other == name || has_field(
            fields,
            other,
        ) by {
            if has_field(fields, other) {
                let i = choose|i: int| 0 <= i < fields.len() && (#[trigger] fields[i]).0 == other;
                assert(result[i].0 == other);
            }
            if has_field(result, other) {
                let i = choose|i: int| 0 <= i < result.len() && (#[trigger] result[i]).0 == other;
                assert(fields[i].0 == other);
            }
        }
    } else {
        assert(result =~= fields.insert(at, (name, value)));
        assert(result[at].0 == name);
        assert forall|i: int, j: int| 0 <= i < j < result.len() implies less(
            (#[trigger] result[i]).0,
            (#[trigger] result[j]).0,
        ) by {
            let a = if i < at { i } else { i - 1 };
            let b = if j < at { j } else { j - 1 };
            if i == at {
                assert(result[j] == fields[b]);
                if b > at {
                    less_transitive(name, fields[at].0, fields[b].0);
                }
            } else if j == at {
                assert(result[i] == fields[a]);
            } else {
                assert(result[i] == fields[a] && result[j] == fields[b]);
            }
        }
        assert forall|other: Seq<char>| has_field(result, other) <==> other == name || has_field(
            fields,
            other,
        ) by {
            if has_field(fields, other) {
                let i = choose|i: int| 0 <= i < fields.len() && (#[trigger] fields[i]).0 == other;
                assert(result[if i < at { i } else { i + 1 }].0 == other);
            }
            if has_field(result, other) {
                let i = choose|i: int| 0 <= i < result.len() && (#[trigger] result[i]).0 == other;
                if i != at {
                    assert(fields[if i < at { i } else { i - 1 }].0 == other);
                }
            }
        }
    }
}

/// Collected members are sorted and hold the names of the members that they were
/// collected from.
pub proof fn collected_sorted<T>(fields: Named<T>)
    ensures
        sorted(collected(fields)),
        forall|name: Seq<char>| has_field(collected(fields), name) <==> has_field(fields, name),
    decreases fields.len(),
{
    if fields.len() > 0 {
        let shorter = fields.drop_last();
        collected_sorted(shorter);
        with_field_sorted(collected(shorter), fields.last().0, fields.last().1);
        assert forall|name: Seq<char>| has_field(collected(fields), name) <==> has_field(
            fields,
            name,
        ) by {
            if has_field(fields, name) {
                let i = choose|i: int| 0 <= i < fields.len() && (#[trigger] fields[i]).0 == name;
                if i < shorter.len() {
                    assert(shorter[i].0 == name);
                }
            }
            if has_field(shorter, name) {
                let i = choose|i: int| 0 <= i < shorter.len() && (#[trigger] shorter[i]).0 == name;
                assert(fields[i].0 == name);
            }
            if fields.last().0 == name {
                assert(fields[fields.len() - 1].0 == name);
            }
        }
    }
}

/// The place of a name among sorted pairs.
fn find_place<T>(fields: &Vec<(String, T)>, name: &str) -> (at: usize)
    requires
        sorted(named(fields@)),
    ensures
        at <= fields.len(),
        forall|i: int| 0 <= i < at ==> less((#[trigger] named(fields@)[i]).0, name@),
        at < fields.len() ==> !less(named(fields@)[at as int].0, name@),
{
    let ghost view = named(fields@);
    let mut low: usize = 0;
    let mut high: usize = fields.len();
    while low < high
        invariant
            low <= high <= fields.len(),
            view == named(fields@),
            sorted(view),
            forall|i: int| 0 <= i < low ==> less((#[trigger] view[i]).0, name@),
            high < fields.len() ==> !less(view[high as int].0, name@),
        decreases high - low,
    {
        let middle = low + (high - low) / 2;
        if comes_before(fields[middle].0.as_str(), name) {
            proof {
                assert(less(view[middle as int].0, name@));
                assert forall|i: int| 0 <= i < middle + 1 implies less(
                    (#[trigger] view[i]).0,
                    name@,
                ) by {
                    if i < middle {
                        less_transitive(view[i].0, view[middle as int].0, name@);
                    }
                }
            }
            low = middle + 1;
        } else {
            assert(!less(view[middle as int].0, name@));
            high = middle;
        }
    }
    low
}

/// Puts a pair among sorted pairs; tells whether it replaced one.
pub fn put_field<T>(fields: &mut Vec<(String, T)>, name: String, value: T) -> (replaced: bool)
    requires
        sorted(named(old(fields)@)),
    ensures
        named(final(fields)@) == with_field(named(old(fields)@), name@, value),
        sorted(named(final(fields)@)),
        replaced == has_field(named(old(fields)@), name@),
{
    let at = find_place(fields, name.as_str());
    let ghost before = named(fields@);
    let ghost entry = (name@, value);
    proof {
        with_field_at(before, name@, value, at as int);
        with_field_sorted(before, name@, value);
        if at < before.len() {
            less_total(before[at as int].0, name@);
        }
        less_irreflexive(name@);
    }
    if at < fields.len() && same(fields[at].0.as_str(), name.as_str()) {
        assert(before[at as int].0 == name@);
        fields.set(at, (name, value));
        assert(named(fields@) =~= before.update(at as int, entry));
        true
    } else {
        proof {
            assert forall|i: int| 0 <= i < before.len() implies (#[trigger] before[i]).0 != name@ by {
                if i > at {
                    less_transitive(name@, before[at as int].0, before[i].0);
                }
            }
        }
        fields.insert(at, (name, value));
        assert(named(fields@) =~= before.insert(at as int, entry));
        false
    }
}

/// Pairs with their values taken by a function.
pub open spec fn mapped<T, U>(fields: Named<T>, meaning: spec_fn(T) -> U) -> Named<U> {
    Seq::new(fields.len(), |i: int| (fields[i].0, meaning(fields[i].1)))
}

/// Putting a pair does not depend on what the values mean.
pub proof fn with_field_mapped<T, U>(
    fields: Named<T>,
    name: Seq<char>,
    value: T,
    meaning: spec_fn(T) -> U,
)
    ensures
        mapped(with_field(fields, name, value), meaning) == with_field(
            mapped(fields, meaning),
            name,
            meaning(value),
        ),
    decreases fields.len(),
{
    let all = mapped(fields, meaning);
    if fields.len() > 0 {
        with_field_mapped(fields.drop_first(), name, value, meaning);
        assert(mapped(fields.drop_first(), meaning) =~= all.drop_first());
    }
    assert(mapped(with_field(fields, name, value), meaning) =~= with_field(
        all,
        name,
        meaning(value),
    ));
}

/// Puts a member among sorted members; tells whether it replaced one.
pub fn put_member(fields: &mut Vec<(String, JsonValue)>, name: String, value: JsonValue) -> (replaced:
    bool)
    requires
        sorted(fields_view(old(fields)@)),
    ensures
        fields_view(final(fields)@) == with_field(fields_view(old(fields)@), name@, value@),
        sorted(fields_view(final(fields)@)),
        replaced == has_field(fields_view(old(fields)@), name@),
{
    let ghost meaning = |value: JsonValue| value@;
    let ghost before = fields@;
    proof {
        fields_view_mapped(before);
        with_field_mapped(named(before), name@, value, meaning);
        with_field_sorted(fields_view(before), name@, value@);
    }
    let replaced = put_field(fields, name, value);
    proof {
        fields_view_mapped(fields@);
    }
    replaced
}

/// The members that a list of pairs stands for, by way of its names and values.
proof fn fields_view_mapped(fields: Seq<(String, JsonValue)>)
    ensures
        fields_view(fields) == mapped(named(fields), |value: JsonValue| value@),
        sorted(fields_view(fields)) <==> sorted(named(fields)),
        forall|name: Seq<char>|
            has_field(fields_view(fields), name) <==> has_field(named(fields), name),
{
    let plain = named(fields);
    let view = fields_view(fields);
    assert(view =~= mapped(plain, |value: JsonValue| value@));
    assert forall|i: int| 0 <= i < view.len() implies (#[trigger] view[i]).0 == plain[i].0 by {}
    if sorted(plain) {
        assert forall|i: int, j: int| 0 <= i < j < view.len() implies less(
            (#[trigger] view[i]).0,
            (#[trigger] view[j]).0,
        ) by {
            assert(less(plain[i].0, plain[j].0));
        }
    }
    if sorted(view) {
        assert forall|i: int, j: int| 0 <= i < j < plain.len() implies less(
            (#[trigger] plain[i]).0,
            (#[trigger] plain[j]).0,
        ) by {
            assert(less(view[i].0, view[j].0));
        }
    }
    assert forall|name: Seq<char>| has_field(view, name) <==> has_field(plain, name) by {
        if has_field(view, name) {
            let i = choose|i: int| 0 <= i < view.len() && (#[trigger] view[i]).0 == name;
            assert(plain[i].0 == name);
        }
        if has_field(plain, name) {
            let i = choose|i: int| 0 <= i < plain.len() && (#[trigger] plain[i]).0 == name;
            assert(view[i].0 == name);
        }
    }
}

/// The value of the last pair with a name.
pub open spec fn lookup<T>(fields: Named<T>, name: Seq<char>) -> Option<T>
    decreases fields.len(),
{
    if fields.len() == 0 {
        None
    } else if fields.last().0 == name {
        Some(fields.last().1)
    } else {
        lookup(fields.drop_last(), name)
    }
}

/// The value of the last member with a name.
pub fn find_member<'a>(fields: &'a Vec<(String, JsonValue)>, name: &str) -> (value: Option<
    &'a JsonValue,
>)
    ensures
        match (value, lookup(fields_view(fields@), name@)) {
            (Some(value), Some(expected)) => value@ == expected,
            (None, None) => true,
            _ => false,
        },
{
    let ghost all = fields_view(fields@);
    let mut at: usize = fields.len();
    assert(all.take(all.len() as int) =~= all);
    while at > 0
        invariant
            at <= fields.len(),
            all == fields_view(fields@),
            lookup(all, name@) == lookup(all.take(at as int), name@),
        decreases at,
    {
        at = at - 1;
        assert(all.take(at as int + 1).drop_last() =~= all.take(at as int));
        if same(fields[at].0.as_str(), name) {
            return Some(&fields[at].1);
        }
    }
    None
}

/// The member of an object with a name; `null` where there is none, or no object.
pub open spec fn member(value: Json, name: Seq<char>) -> Json {
    match value {
        Json::Object(fields) => match lookup(fields, name) {
            Some(value) => value,
            None => Json::Null,
        },
        _ => Json::Null,
    }
}

impl JsonValue {
    /// The member of an object with a name; `null` where there is none, or no
    /// object.
    pub fn member(&self, name: &str) -> (value: JsonValue)
        ensures
            value@ == member(self@, name@),
    {
        broadcast use container_views;

        match self {
            JsonValue::Object(fields) => match find_member(fields, name) {
                Some(value) => value.copy(),
                None => JsonValue::Null,
            },
            _ => JsonValue::Null,
        }
    }
}

/// The members of an object in the order of their names, the last of one name
/// kept.
pub fn sorted_copy(fields: &Vec<(String, JsonValue)>) -> (result: Vec<(String, JsonValue)>)
    ensures
        fields_view(result@) == collected(fields_view(fields@)),
        sorted(fields_view(result@)),
{
    let ghost all = fields_view(fields@);
    let mut result: Vec<(String, JsonValue)> = Vec::new();
    proof {
        assert(fields_view(result@) =~= Seq::<(Seq<char>, Json)>::empty());
        assert(all.take(0) =~= Seq::<(Seq<char>, Json)>::empty());
    }
    for at in 0..fields.len()
        invariant
            all == fields_view(fields@),
            fields_view(result@) == collected(all.take(at as int)),
            sorted(fields_view(result@)),
    {
        assert(all.take(at as int + 1).drop_last() =~= all.take(at as int));
        put_member(&mut result, fields[at].0.clone(), fields[at].1.copy());
    }
    assert(all.take(all.len() as int) =~= all);
    result
}

} // verus!
