//! When two JSON values mean the same, and that they then have the same bytes.
use vstd::prelude::*;

use crate::canonical::{
    arranged, arranged_fields, arranged_fields_each, arranged_items, arranged_items_each, bytes,
    canonical, collected_picks, deepest_field, deepest_item, field_bytes, fits, item_bytes,
    name_order, names_of, nesting, picked, spellable,
};
use crate::json::{collected, collected_sorted, has_field, sorted, with_field, Json, Members};
use crate::number::{
    denoted, has_spelling, one_spelling_per_value, same_value, spelling, spelling_keeps_value,
};
use crate::text::{less, less_irreflexive, less_transitive};

verus! {

/// Whether no two members have one name.
pub open spec fn unique_names(fields: Members) -> bool {
    forall|i: int, j: int|
        0 <= i < j < fields.len() ==> (#[trigger] fields[i]).0 != (#[trigger] fields[j]).0
}

/// Whether two JSON values mean the same: numbers are the same number, however
/// they are written, and objects have the same members, in whatever order.
pub open spec fn same_json(first: Json, second: Json) -> bool
    decreases first, 0int,
{
    match (first, second) {
        (Json::Number(a), Json::Number(b)) => has_spelling(a) && has_spelling(b) && same_value(
            denoted(a),
            denoted(b),
        ),
        (Json::Array(a), Json::Array(b)) => a.len() == b.len() && forall|i: int|
            0 <= i < a.len() ==> same_json(#[trigger] a[i], b[i]),
        (Json::Object(a), Json::Object(b)) => {
            &&& unique_names(a)
            &&& unique_names(b)
            &&& forall|i: int|
                0 <= i < a.len() ==> found_in((#[trigger] a[i]).0, a[i].1, b)
            &&& forall|j: int|
                0 <= j < b.len() ==> found_among(a, (#[trigger] b[j]).0, b[j].1)
        },
        _ => first == second && !(first is Number || first is Array || first is Object),
    }
}

/// Whether one of some members has a name and a value that means the same as the
/// given one.
pub open spec fn found_in(name: Seq<char>, value: Json, fields: Members) -> bool
    decreases value, 1int,
{
    exists|j: int|
        0 <= j < fields.len() && (#[trigger] fields[j]).0 == name && same_json(value, fields[j].1)
}

/// Whether one of some members has a name and a value of which the given one
/// means the same.
pub open spec fn found_among(fields: Members, name: Seq<char>, value: Json) -> bool
    decreases fields, 1int,
{
    exists|i: int|
        0 <= i < fields.len() && (#[trigger] fields[i]).0 == name && same_json(fields[i].1, value)
}

/// A value with every number in its one spelling and every object in order.
pub open spec fn normalized(value: Json) -> Json
    decreases value,
{
    match value {
        Json::Number(text) => Json::Number(spelling(text)),
        Json::Array(items) => Json::Array(normalized_items(items)),
        Json::Object(fields) => Json::Object(collected(normalized_fields(fields))),
        _ => value,
    }
}

/// Each of some values normalized.
pub open spec fn normalized_items(items: Seq<Json>) -> Seq<Json>
    decreases items,
{
    if items.len() == 0 {
        Seq::empty()
    } else {
        normalized_items(items.drop_last()).push(normalized(items.last()))
    }
}

/// The value of each of some members normalized.
pub open spec fn normalized_fields(fields: Members) -> Members
    decreases fields,
{
    if fields.len() == 0 {
        Seq::empty()
    } else {
        normalized_fields(fields.drop_last()).push((fields.last().0, normalized(fields.last().1)))
    }
}

pub proof fn normalized_items_each(items: Seq<Json>)
    ensures
        normalized_items(items) == Seq::new(items.len(), |i: int| normalized(items[i])),
    decreases items.len(),
{
    if items.len() > 0 {
        normalized_items_each(items.drop_last());
    }
    assert(normalized_items(items) =~= Seq::new(items.len(), |i: int| normalized(items[i])));
}

pub proof fn normalized_fields_each(fields: Members)
    ensures
        normalized_fields(fields) == Seq::new(
            fields.len(),
            |i: int| (fields[i].0, normalized(fields[i].1)),
        ),
    decreases fields.len(),
{
    if fields.len() > 0 {
        normalized_fields_each(fields.drop_last());
    }
    assert(normalized_fields(fields) =~= Seq::new(
        fields.len(),
        |i: int| (fields[i].0, normalized(fields[i].1)),
    ));
}

/// Members with names of their own are all kept when they are collected.
pub proof fn collected_keeps_members(fields: Members)
    requires
        unique_names(fields),
    ensures
        forall|entry: (Seq<char>, Json)|
            #[trigger] collected(fields).contains(entry) <==> fields.contains(entry),
    decreases fields.len(),
{
    if fields.len() > 0 {
        let rest = fields.drop_last();
        let last = fields.last();
        assert forall|i: int, j: int| 0 <= i < j < rest.len() implies (#[trigger] rest[i]).0 != (
        #[trigger] rest[j]).0 by {
            assert(rest[i] == fields[i] && rest[j] == fields[j]);
        }
        collected_keeps_members(rest);
        collected_sorted(rest);
        assert(!has_field(rest, last.0)) by {
            if has_field(rest, last.0) {
                let i = choose|i: int| 0 <= i < rest.len() && (#[trigger] rest[i]).0 == last.0;
                assert(fields[i].0 == fields[fields.len() - 1].0);
            }
        }
        with_field_adds(collected(rest), last.0, last.1);
        assert forall|entry: (Seq<char>, Json)| #[trigger]
            collected(fields).contains(entry) <==> fields.contains(entry) by {
            if fields.contains(entry) {
                let i = choose|i: int| 0 <= i < fields.len() && fields[i] == entry;
                if i < rest.len() {
                    assert(rest[i] == entry);
                    assert(rest.contains(entry));
                    assert(collected(rest).contains(entry));
                }
            }
            if collected(fields).contains(entry) && entry != last {
                assert(collected(rest).contains(entry));
                let i = choose|i: int| 0 <= i < rest.len() && rest[i] == entry;
                assert(fields[i] == entry);
            }
            if entry == last {
                assert(fields[fields.len() - 1] == entry);
            }
        }
    } else {
        assert(collected(fields) =~= fields);
    }
}

/// Putting a member with a new name adds that member and keeps the others.
proof fn with_field_adds(fields: Members, name: Seq<char>, value: Json)
    requires
        !has_field(fields, name),
    ensures
        forall|entry: (Seq<char>, Json)|
            #[trigger] with_field(fields, name, value).contains(entry) <==> entry == (name, value)
                || fields.contains(entry),
    decreases fields.len(),
{
    let result = with_field(fields, name, value);
    if fields.len() > 0 && !less(name, fields[0].0) {
        assert(fields[0].0 != name);
        let rest = fields.drop_first();
        assert(!has_field(rest, name)) by {
            if has_field(rest, name) {
                let i = choose|i: int| 0 <= i < rest.len() && (#[trigger] rest[i]).0 == name;
                assert(fields[i + 1].0 == name);
            }
        }
        with_field_adds(rest, name, value);
        let tail = with_field(rest, name, value);
        assert forall|entry: (Seq<char>, Json)| #[trigger] result.contains(entry) <==> entry == (
            name,
            value,
        ) || fields.contains(entry) by {
            if result.contains(entry) {
                let i = choose|i: int| 0 <= i < result.len() && result[i] == entry;
                if i > 0 {
                    assert(tail[i - 1] == entry);
                    assert(tail.contains(entry));
                    if rest.contains(entry) {
                        let k = choose|k: int| 0 <= k < rest.len() && rest[k] == entry;
                        assert(fields[k + 1] == entry);
                    }
                } else {
                    assert(fields[0] == entry);
                }
            }
            if fields.contains(entry) {
                let k = choose|k: int| 0 <= k < fields.len() && fields[k] == entry;
                if k == 0 {
                    assert(result[0] == entry);
                } else {
                    assert(rest[k - 1] == entry);
                    assert(rest.contains(entry));
                    assert(tail.contains(entry));
                    let m = choose|m: int| 0 <= m < tail.len() && tail[m] == entry;
                    assert(result[m + 1] == entry);
                }
            }
            if entry == (name, value) {
                assert(tail.contains(entry));
                let m = choose|m: int| 0 <= m < tail.len() && tail[m] == entry;
                assert(result[m + 1] == entry);
            }
        }
    } else {
        assert forall|entry: (Seq<char>, Json)| #[trigger] result.contains(entry) <==> entry == (
            name,
            value,
        ) || fields.contains(entry) by {
            assert(result[0] == (name, value));
            if fields.len() > 0 {
                assert(result =~= seq![(name, value)] + fields);
            }
            if fields.contains(entry) {
                let k = choose|k: int| 0 <= k < fields.len() && fields[k] == entry;
                assert(result[k + 1] == entry);
            }
            if result.contains(entry) {
                let i = choose|i: int| 0 <= i < result.len() && result[i] == entry;
                if i > 0 {
                    assert(fields[i - 1] == entry);
                }
            }
        }
    }
}

/// Two sorted lists of members with the same members are the same list.
proof fn sorted_lists_agree(first: Members, second: Members)
    requires
        sorted(first),
        sorted(second),
        forall|entry: (Seq<char>, Json)|
            #[trigger] first.contains(entry) <==> second.contains(entry),
    ensures
        first == second,
    decreases first.len(),
{
    if first.len() == 0 {
        if second.len() > 0 {
            assert(second.contains(second[0]));
            assert(first.contains(second[0]));
        }
        assert(first =~= second);
    } else {
        assert(first.contains(first[0]));
        assert(second.contains(first[0]));
        let k = choose|k: int| 0 <= k < second.len() && second[k] == first[0];
        assert(second.contains(second[0]));
        assert(first.contains(second[0]));
        let m = choose|m: int| 0 <= m < first.len() && first[m] == second[0];
        if k > 0 {
            assert(less(second[0].0, second[k].0));
            if m > 0 {
                assert(less(first[0].0, first[m].0));
                less_transitive(first[0].0, second[0].0, first[0].0);
            }
            less_irreflexive(first[0].0);
            assert(false);
        }
        let a = first.drop_first();
        let b = second.drop_first();
        assert forall|i: int, j: int| 0 <= i < j < a.len() implies less(
            (#[trigger] a[i]).0,
            (#[trigger] a[j]).0,
        ) by {
            assert(a[i] == first[i + 1] && a[j] == first[j + 1]);
        }
        assert forall|i: int, j: int| 0 <= i < j < b.len() implies less(
            (#[trigger] b[i]).0,
            (#[trigger] b[j]).0,
        ) by {
            assert(b[i] == second[i + 1] && b[j] == second[j + 1]);
        }
        assert forall|entry: (Seq<char>, Json)| #[trigger] a.contains(entry) <==> b.contains(
            entry,
        ) by {
            tail_contains(first, entry);
            tail_contains(second, entry);
        }
        sorted_lists_agree(a, b);
        assert(first =~= seq![first[0]] + a);
        assert(second =~= seq![second[0]] + b);
    }
}

/// A sorted list holds behind its first member all others, and not the first.
proof fn tail_contains(fields: Members, entry: (Seq<char>, Json))
    requires
        sorted(fields),
        fields.len() > 0,
    ensures
        fields.drop_first().contains(entry) <==> fields.contains(entry) && entry != fields[0],
{
    let tail = fields.drop_first();
    if tail.contains(entry) {
        let i = choose|i: int| 0 <= i < tail.len() && tail[i] == entry;
        assert(fields[i + 1] == entry);
        assert(less(fields[0].0, fields[i + 1].0));
        less_irreflexive(fields[0].0);
    }
    if fields.contains(entry) && entry != fields[0] {
        let i = choose|i: int| 0 <= i < fields.len() && fields[i] == entry;
        assert(tail[i - 1] == entry);
    }
}

/// Lists with names of their own that hold the same members collect to the same
/// list.
pub proof fn same_members_collect_alike(first: Members, second: Members)
    requires
        unique_names(first),
        unique_names(second),
        forall|i: int| 0 <= i < first.len() ==> second.contains(#[trigger] first[i]),
        forall|j: int| 0 <= j < second.len() ==> first.contains(#[trigger] second[j]),
    ensures
        collected(first) == collected(second),
{
    collected_keeps_members(first);
    collected_keeps_members(second);
    collected_sorted(first);
    collected_sorted(second);
    assert forall|entry: (Seq<char>, Json)| #[trigger] collected(first).contains(entry)
        <==> collected(second).contains(entry) by {
        if first.contains(entry) {
            let i = choose|i: int| 0 <= i < first.len() && first[i] == entry;
            assert(second.contains(first[i]));
        }
        if second.contains(entry) {
            let j = choose|j: int| 0 <= j < second.len() && second[j] == entry;
            assert(first.contains(second[j]));
        }
    }
    sorted_lists_agree(collected(first), collected(second));
}

/// Normalizing values of members does not touch their names.
proof fn normalized_fields_unique(fields: Members)
    requires
        unique_names(fields),
    ensures
        unique_names(normalized_fields(fields)),
{
    normalized_fields_each(fields);
    let result = normalized_fields(fields);
    assert forall|i: int, j: int| 0 <= i < j < result.len() implies (#[trigger] result[i]).0 != (
    #[trigger] result[j]).0 by {
        assert(fields[i].0 != fields[j].0);
    }
}

/// Values that mean the same are the same when they are normalized.
pub proof fn same_json_normalizes_alike(first: Json, second: Json)
    requires
        same_json(first, second),
    ensures
        normalized(first) == normalized(second),
    decreases first, 0int,
{
    if let (Json::Number(a), Json::Number(b)) = (first, second) {
        one_spelling_per_value(a, b);
    } else if let (Json::Array(a), Json::Array(b)) = (first, second) {
        normalized_items_each(a);
        normalized_items_each(b);
        assert forall|i: int| 0 <= i < a.len() implies normalized(#[trigger] a[i]) == normalized(
            b[i],
        ) by {
            same_json_normalizes_alike(a[i], b[i]);
        }
        assert(normalized_items(a) =~= normalized_items(b));
    } else if let (Json::Object(a), Json::Object(b)) = (first, second) {
        same_objects_normalize_alike(first, second, a, b);
    }
}

/// Objects that mean the same are the same when they are normalized.
proof fn same_objects_normalize_alike(first: Json, second: Json, a: Members, b: Members)
    requires
        first == Json::Object(a),
        second == Json::Object(b),
        same_json(first, second),
        decreases_to!(first => a),
    ensures
        normalized(first) == normalized(second),
    decreases a, 0int,
{
    normalized_fields_each(a);
    normalized_fields_each(b);
    let x = normalized_fields(a);
    let y = normalized_fields(b);
    assert forall|i: int| 0 <= i < x.len() implies y.contains(#[trigger] x[i]) by {
        assert(found_in(a[i].0, a[i].1, b));
        let j = choose|j: int|
            0 <= j < b.len() && (#[trigger] b[j]).0 == a[i].0 && same_json(a[i].1, b[j].1);
        same_json_normalizes_alike(a[i].1, b[j].1);
        assert(y[j] == x[i]);
    }
    assert forall|j: int| 0 <= j < y.len() implies x.contains(#[trigger] y[j]) by {
        assert(found_among(a, b[j].0, b[j].1));
        let i = choose|i: int|
            0 <= i < a.len() && (#[trigger] a[i]).0 == b[j].0 && same_json(a[i].1, b[j].1);
        same_json_normalizes_alike(a[i].1, b[j].1);
        assert(x[i] == y[j]);
    }
    normalized_fields_unique(a);
    normalized_fields_unique(b);
    same_members_collect_alike(x, y);
}

/// Whether two values are written alike.
pub open spec fn written_alike(first: Json, second: Json) -> bool {
    bytes(first) == bytes(second) && nesting(first) == nesting(second)
}

/// Arrays whose values are written alike are written alike.
proof fn items_written_alike(first: Seq<Json>, second: Seq<Json>)
    requires
        first.len() == second.len(),
        forall|i: int| 0 <= i < first.len() ==> written_alike(#[trigger] first[i], second[i]),
    ensures
        item_bytes(first) == item_bytes(second),
        deepest_item(first) == deepest_item(second),
    decreases first.len(),
{
    if first.len() > 0 {
        let a = first.drop_last();
        let b = second.drop_last();
        assert forall|i: int| 0 <= i < a.len() implies written_alike(#[trigger] a[i], b[i]) by {
            assert(written_alike(first[i], second[i]));
        }
        items_written_alike(a, b);
        assert(written_alike(first[first.len() - 1], second[first.len() - 1]));
    }
}

/// Members with the same names whose values are written alike are written alike.
proof fn fields_written_alike(first: Members, second: Members)
    requires
        first.len() == second.len(),
        forall|i: int|
            0 <= i < first.len() ==> (#[trigger] first[i]).0 == second[i].0 && written_alike(
                first[i].1,
                second[i].1,
            ),
    ensures
        field_bytes(first) == field_bytes(second),
        deepest_field(first) == deepest_field(second),
    decreases first.len(),
{
    if first.len() > 0 {
        let a = first.drop_last();
        let b = second.drop_last();
        assert forall|i: int| 0 <= i < a.len() implies (#[trigger] a[i]).0 == b[i].0
            && written_alike(a[i].1, b[i].1) by {
            assert(a[i] == first[i] && b[i] == second[i]);
        }
        fields_written_alike(a, b);
        assert(first[first.len() - 1].0 == second[first.len() - 1].0);
    }
}

/// A value whose numbers all have a spelling is written as it is written when it
/// is normalized.
pub proof fn normalized_written_alike(value: Json)
    requires
        spellable(value),
    ensures
        written_alike(arranged(value), normalized(value)),
        spellable(arranged(value)),
    decreases value,
{
    if let Json::Number(text) = value {
        spelling_keeps_value(text);
    } else if let Json::Array(items) = value {
        arranged_items_each(items);
        normalized_items_each(items);
        let a = arranged_items(items);
        let n = normalized_items(items);
        assert forall|i: int| 0 <= i < a.len() implies written_alike(#[trigger] a[i], n[i])
            && spellable(a[i]) by {
            assert(spellable(items[i]));
            normalized_written_alike(items[i]);
        }
        items_written_alike(a, n);
    } else if let Json::Object(fields) = value {
        arranged_fields_each(fields);
        normalized_fields_each(fields);
        let a = arranged_fields(fields);
        let n = normalized_fields(fields);
        assert forall|i: int| 0 <= i < a.len() implies (#[trigger] a[i]).0 == n[i].0
            && written_alike(a[i].1, n[i].1) && spellable(a[i].1) by {
            assert(spellable(fields[i].1));
            normalized_written_alike(fields[i].1);
        }
        assert(names_of(a) =~= names_of(n));
        let count = fields.len() as int;
        let order = name_order(names_of(a), count);
        collected_picks(a, count);
        collected_picks(n, count);
        assert(a.take(count) =~= a);
        assert(n.take(count) =~= n);
        let x = picked(a, order);
        let y = picked(n, order);
        assert forall|i: int| 0 <= i < x.len() implies (#[trigger] x[i]).0 == y[i].0
            && written_alike(x[i].1, y[i].1) && spellable(x[i].1) by {
            assert(0 <= order[i] < fields.len());
            assert(x[i] == a[order[i]]);
            assert(y[i] == n[order[i]]);
        }
        fields_written_alike(x, y);
    }
}

/// Values that mean the same hold only numbers that have a spelling.
proof fn same_json_spellable(first: Json, second: Json)
    requires
        same_json(first, second),
    ensures
        spellable(first),
        spellable(second),
    decreases first,
{
    if let (Json::Array(a), Json::Array(b)) = (first, second) {
        assert forall|i: int| 0 <= i < a.len() implies spellable(#[trigger] a[i]) && spellable(
            b[i],
        ) by {
            same_json_spellable(a[i], b[i]);
        }
        assert forall|i: int| 0 <= i < b.len() implies spellable(#[trigger] b[i]) by {
            assert(spellable(a[i]));
        }
    } else if let (Json::Object(a), Json::Object(b)) = (first, second) {
        assert forall|i: int| 0 <= i < a.len() implies spellable((#[trigger] a[i]).1) by {
            assert(found_in(a[i].0, a[i].1, b));
            let j = choose|j: int|
                0 <= j < b.len() && (#[trigger] b[j]).0 == a[i].0 && same_json(a[i].1, b[j].1);
            same_json_spellable(a[i].1, b[j].1);
        }
        assert forall|j: int| 0 <= j < b.len() implies spellable((#[trigger] b[j]).1) by {
            assert(found_among(a, b[j].0, b[j].1));
            let i = choose|i: int|
                0 <= i < a.len() && (#[trigger] a[i]).0 == b[j].0 && same_json(a[i].1, b[j].1);
            same_json_spellable(a[i].1, b[j].1);
        }
    }
}

/// Values that mean the same have the same bytes, and keep the limits together:
/// neither the spelling of a number nor the order of members shows.
pub proof fn same_json_same_bytes(first: Json, second: Json)
    requires
        same_json(first, second),
    ensures
        canonical(first) == canonical(second),
        fits(first) == fits(second),
{
    same_json_spellable(first, second);
    same_json_normalizes_alike(first, second);
    normalized_written_alike(first);
    normalized_written_alike(second);
}

} // verus!
