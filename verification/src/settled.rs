//! Values in the form in which they are written: what they are read back as.
use vstd::prelude::*;
use vstd::utf8::encode_utf8;

use crate::canonical::{
    arranged, arranged_fields, arranged_fields_each, arranged_items, arranged_items_each, bytes,
    canonical, deepest_field, deepest_item, field_bytes, member_bytes, nesting, quoted,
    spellable, CLOSE_ARRAY, CLOSE_OBJECT, COLON, COMMA, OPEN_OBJECT,
};
use crate::distinct::{byte_ends, collected_from};
use crate::equivalence::{
    normalized, normalized_fields, normalized_fields_each, normalized_items,
    normalized_items_each, normalized_written_alike,
};
use crate::json::{collected, collected_sorted, has_field, sorted, with_field, Json, Members, Named};
use crate::number::{has_spelling, spelling_keeps_value};
use crate::text::{less, less_irreflexive, less_transitive};

verus! {

/// Whether every number in a value has a spelling, and the members of every object stand
/// in the order of their names, each name once.
pub open spec fn settled(value: Json) -> bool
    decreases value,
{
    match value {
        Json::Number(text) => has_spelling(text),
        Json::Array(items) => forall|i: int| 0 <= i < items.len() ==> settled(#[trigger] items[i]),
        Json::Object(fields) => sorted(fields) && forall|i: int|
            0 <= i < fields.len() ==> settled((#[trigger] fields[i]).1),
        _ => true,
    }
}

/// The numbers of a settled value have a spelling.
pub proof fn settled_spellable(value: Json)
    requires
        settled(value),
    ensures
        spellable(value),
    decreases value,
{
    match value {
        Json::Array(items) => {
            assert forall|i: int| 0 <= i < items.len() implies spellable(#[trigger] items[i]) by {
                settled_spellable(items[i]);
            }
        },
        Json::Object(fields) => {
            assert forall|i: int| 0 <= i < fields.len() implies spellable(
                (#[trigger] fields[i]).1,
            ) by {
                settled_spellable(fields[i].1);
            }
        },
        _ => {},
    }
}

/// A name behind all others is put at the end.
pub proof fn with_field_last<T>(fields: Named<T>, name: Seq<char>, value: T)
    requires
        forall|i: int| 0 <= i < fields.len() ==> less((#[trigger] fields[i]).0, name),
    ensures
        with_field(fields, name, value) == fields.push((name, value)),
        !has_field(fields, name),
    decreases fields.len(),
{
    less_irreflexive(name);
    if fields.len() > 0 {
        let rest = fields.drop_first();
        assert forall|i: int| 0 <= i < rest.len() implies less((#[trigger] rest[i]).0, name) by {
            assert(rest[i] == fields[i + 1]);
        }
        with_field_last(rest, name, value);
        assert(less(fields[0].0, name));
        if less(name, fields[0].0) {
            less_transitive(name, fields[0].0, name);
        }
        assert(with_field(fields, name, value) =~= fields.push((name, value)));
    } else {
        assert(with_field(fields, name, value) =~= fields.push((name, value)));
    }
}

/// Members that stand in order stay as they are.
pub proof fn collected_same<T>(fields: Named<T>)
    requires
        sorted(fields),
    ensures
        collected(fields) == fields,
    decreases fields.len(),
{
    if fields.len() > 0 {
        let rest = fields.drop_last();
        assert forall|i: int, j: int| 0 <= i < j < rest.len() implies less(
            (#[trigger] rest[i]).0,
            (#[trigger] rest[j]).0,
        ) by {
            assert(rest[i] == fields[i] && rest[j] == fields[j]);
        }
        collected_same(rest);
        let last = fields.last();
        assert forall|i: int| 0 <= i < rest.len() implies less((#[trigger] rest[i]).0, last.0) by {
            assert(rest[i] == fields[i] && last == fields[fields.len() - 1]);
        }
        with_field_last(rest, last.0, last.1);
        assert(rest.push(last) =~= fields);
    } else {
        assert(collected(fields) =~= fields);
    }
}

/// A settled value stays as it is when it is arranged.
pub proof fn settled_arranged(value: Json)
    requires
        settled(value),
    ensures
        arranged(value) == value,
    decreases value,
{
    match value {
        Json::Array(items) => {
            arranged_items_each(items);
            assert forall|i: int| 0 <= i < items.len() implies arranged(#[trigger] items[i])
                == items[i] by {
                settled_arranged(items[i]);
            }
            assert(arranged_items(items) =~= items);
        },
        Json::Object(fields) => {
            arranged_fields_each(fields);
            assert forall|i: int| 0 <= i < fields.len() implies arranged((#[trigger] fields[i]).1)
                == fields[i].1 by {
                settled_arranged(fields[i].1);
            }
            assert(arranged_fields(fields) =~= fields);
            collected_same(fields);
        },
        _ => {},
    }
}

/// The parts of a value whose numbers have a spelling are such values.
proof fn spellable_parts(value: Json)
    requires
        spellable(value),
    ensures
        value matches Json::Array(items) ==> forall|i: int|
            0 <= i < items.len() ==> spellable(#[trigger] items[i]),
        value matches Json::Object(fields) ==> forall|i: int|
            0 <= i < fields.len() ==> spellable((#[trigger] fields[i]).1),
{
}

/// What is written is settled: the names of every object are in ascending order, and each
/// name stands there once.
pub proof fn arranged_settled(value: Json)
    requires
        spellable(arranged(value)),
    ensures
        settled(arranged(value)),
    decreases value,
{
    match value {
        Json::Array(items) => {
            arranged_items_each(items);
            let all = arranged_items(items);
            assert(arranged(value) == Json::Array(all));
            spellable_parts(Json::Array(all));
            assert forall|i: int| 0 <= i < all.len() implies settled(#[trigger] all[i]) by {
                assert(spellable(all[i]));
                arranged_settled(items[i]);
            }
        },
        Json::Object(fields) => {
            arranged_fields_each(fields);
            let inner = arranged_fields(fields);
            let all = collected(inner);
            collected_sorted(inner);
            assert(arranged(value) == Json::Object(all));
            spellable_parts(Json::Object(all));
            assert forall|i: int| 0 <= i < all.len() implies settled((#[trigger] all[i]).1) by {
                assert(spellable(all[i].1));
                let j = collected_from(inner, i);
                arranged_settled(fields[j].1);
            }
        },
        _ => {},
    }
}

/// A settled value stays settled when its numbers get their spelling.
pub proof fn normalized_settled(value: Json)
    requires
        settled(value),
    ensures
        settled(normalized(value)),
        value matches Json::Object(fields) ==> normalized(value) == Json::Object(
            normalized_fields(fields),
        ),
    decreases value,
{
    match value {
        Json::Number(text) => {
            spelling_keeps_value(text);
        },
        Json::Array(items) => {
            normalized_items_each(items);
            let all = normalized_items(items);
            assert forall|i: int| 0 <= i < all.len() implies settled(#[trigger] all[i]) by {
                normalized_settled(items[i]);
            }
        },
        Json::Object(fields) => {
            normalized_fields_each(fields);
            let all = normalized_fields(fields);
            assert forall|i: int, j: int| 0 <= i < j < all.len() implies less(
                (#[trigger] all[i]).0,
                (#[trigger] all[j]).0,
            ) by {
                assert(less(fields[i].0, fields[j].0));
            }
            collected_same(all);
            assert forall|i: int| 0 <= i < all.len() implies settled((#[trigger] all[i]).1) by {
                normalized_settled(fields[i].1);
            }
        },
        _ => {},
    }
}

/// A settled value whose numbers got their spelling has the same byte form.
pub proof fn normalized_writes_alike(value: Json)
    requires
        settled(value),
    ensures
        canonical(normalized(value)) == bytes(value),
        nesting(arranged(normalized(value))) == nesting(value),
        spellable(arranged(normalized(value))),
{
    settled_spellable(value);
    settled_arranged(value);
    normalized_written_alike(value);
    normalized_settled(value);
    settled_arranged(normalized(value));
    settled_spellable(normalized(value));
}

/// The byte forms of some values.
pub open spec fn forms(items: Seq<Json>) -> Seq<Seq<u8>> {
    Seq::new(items.len(), |i: int| bytes(items[i]))
}

/// How many bytes a value takes.
pub open spec fn size(value: Json) -> nat {
    bytes(value).len()
}

/// Whether a byte can stand behind a value.
pub open spec fn closes(byte: u8) -> bool {
    byte == COMMA || byte == CLOSE_ARRAY || byte == CLOSE_OBJECT || byte == COLON
}

/// Whether some bytes stand at a place, and behind them nothing or what can stand behind a
/// value.
pub open spec fn begins(all: Seq<u8>, from: int, part: Seq<u8>) -> bool {
    &&& 0 <= from
    &&& from + part.len() <= all.len()
    &&& all.subrange(from, from + part.len()) == part
    &&& from + part.len() < all.len() ==> closes(all[from + part.len()])
}

/// Whether a value stands at a place as it is written.
pub open spec fn stands_at(all: Seq<u8>, from: int, value: Json) -> bool {
    spellable(value) && begins(all, from, bytes(value))
}

/// Whether a member stands at a place as it is written.
pub open spec fn member_stands_at(
    all: Seq<u8>,
    from: int,
    name: Seq<char>,
    value: Json,
) -> bool {
    spellable(value) && begins(all, from, member_bytes(name, bytes(value)))
}

/// Where a member of an object begins.
pub open spec fn place(fields: Members, at: int) -> int {
    1 + field_bytes(fields.take(at)).len() + (if at > 0 {
        1int
    } else {
        0int
    })
}

/// The first members are written first.
proof fn field_prefix(fields: Members, count: int)
    requires
        0 <= count <= fields.len(),
    ensures
        field_bytes(fields.take(count)).len() <= field_bytes(fields).len(),
        field_bytes(fields).take(field_bytes(fields.take(count)).len() as int) == field_bytes(
            fields.take(count),
        ),
    decreases fields.len(),
{
    let whole = field_bytes(fields);
    let part = field_bytes(fields.take(count));
    if count == fields.len() {
        assert(fields.take(count) =~= fields);
        assert(whole.take(whole.len() as int) =~= whole);
    } else {
        let shorter = fields.drop_last();
        field_prefix(shorter, count);
        assert(shorter.take(count) =~= fields.take(count));
        if fields.len() == 1 {
            assert(fields.take(count) =~= Seq::empty());
        }
        assert(whole.take(part.len() as int) =~= field_bytes(shorter).take(part.len() as int));
    }
}

/// Each member of an object stands at its place, with a comma or the end of the object
/// behind it.
pub proof fn member_place(fields: Members, at: int)
    requires
        0 <= at < fields.len(),
        spellable(fields[at].1),
    ensures
        ({
            let all = bytes(Json::Object(fields));
            let end = place(fields, at) + member_bytes(fields[at].0, bytes(fields[at].1)).len();
            &&& member_stands_at(all, place(fields, at), fields[at].0, fields[at].1)
            &&& end < all.len()
            &&& all[end] == (if at + 1 == fields.len() {
                CLOSE_OBJECT
            } else {
                COMMA
            })
            &&& at + 1 < fields.len() ==> place(fields, at + 1) == end + 1
        }),
{
    let all = bytes(Json::Object(fields));
    let whole = field_bytes(fields);
    let before = field_bytes(fields.take(at));
    let member = member_bytes(fields[at].0, bytes(fields[at].1));
    let part = field_bytes(fields.take(at + 1));
    assert(fields.take(at + 1).drop_last() =~= fields.take(at));
    assert(fields.take(at + 1).last() == fields[at]);
    if at == 0 {
        assert(fields.take(0) =~= Seq::empty());
        assert(before =~= Seq::empty());
        assert(part == member);
    } else {
        assert(part == before + seq![COMMA] + member);
    }
    field_prefix(fields, at + 1);
    let start = place(fields, at);
    let end = start + member.len();
    assert(end == 1 + part.len());
    assert(all =~= seq![OPEN_OBJECT] + whole + seq![CLOSE_OBJECT]);
    assert forall|i: int| 0 <= i < part.len() implies whole[i] == part[i] by {
        assert(whole.take(part.len() as int)[i] == part[i]);
    }
    assert(all.subrange(start, end) =~= member);
    if at + 1 < fields.len() {
        field_prefix(fields, at + 2);
        let longer = fields.take(at + 2);
        assert(longer.drop_last() =~= fields.take(at + 1));
        assert(field_bytes(longer)[part.len() as int] == COMMA);
        assert(whole.take(field_bytes(longer).len() as int)[part.len() as int] == COMMA);
    } else {
        assert(fields.take(at + 1) =~= fields);
    }
}

/// What is written of a member: its name, a colon, and its value, each of which stands at
/// a place of its own.
pub proof fn member_parts(all: Seq<u8>, from: int, name: Seq<char>, value: Json)
    requires
        member_stands_at(all, from, name, value),
    ensures
        ({
            let stop = from + bytes(Json::Text(name)).len();
            &&& stands_at(all, from, Json::Text(name))
            &&& all[from] > 32
            &&& stop < all.len()
            &&& all[stop] == COLON
            &&& stands_at(all, stop + 1, value)
            &&& stop + 1 < all.len()
            &&& all[stop + 1] > 32
            &&& stop + 1 + bytes(value).len() == from + member_bytes(name, bytes(value)).len()
        }),
{
    let text = Json::Text(name);
    let first = bytes(text);
    let second = bytes(value);
    let member = member_bytes(name, second);
    let stop = from + first.len();
    byte_ends(text);
    byte_ends(value);
    assert(first == encode_utf8(quoted(name)));
    assert(member == first + seq![COLON] + second);
    let here = all.subrange(from, from + member.len());
    assert forall|i: int| 0 <= i < member.len() implies all[from + i] == member[i] by {
        assert(here[i] == all[from + i]);
    }
    assert(all.subrange(from, stop) =~= first);
    assert(all[stop] == all[from + first.len()] && member[first.len() as int] == COLON);
    assert forall|i: int| 0 <= i < second.len() implies all[stop + 1 + i] == second[i] by {
        assert(all[from + (first.len() + 1 + i)] == member[first.len() + 1 + i]);
    }
    assert(all.subrange(stop + 1, stop + 1 + second.len()) =~= second);
    assert(all[from + 0] == member[0]);
    assert(all[stop + 1 + 0] == second[0]);
}

/// A value of an array is nested less deeply than the array.
pub proof fn deeper_item(items: Seq<Json>, i: int)
    requires
        0 <= i < items.len(),
    ensures
        nesting(items[i]) <= deepest_item(items),
    decreases items.len(),
{
    if i < items.len() - 1 {
        deeper_item(items.drop_last(), i);
    }
}

/// A value of an object is nested less deeply than the object.
pub proof fn deeper_field(fields: Members, i: int)
    requires
        0 <= i < fields.len(),
    ensures
        nesting(fields[i].1) <= deepest_field(fields),
    decreases fields.len(),
{
    if i < fields.len() - 1 {
        deeper_field(fields.drop_last(), i);
    }
}

} // verus!
