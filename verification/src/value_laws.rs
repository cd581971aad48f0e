//! What is sent of a row's value, told kind by kind.
use vstd::prelude::*;

use crate::canonical::{arranged, bytes, emit_writes, fits};
use crate::errors::{row_fault, Fault};
use crate::json::{collected, collected_sorted, has_field, sorted, with_field, Json, Members};
use crate::json_laws::{
    found_members_are_held, holds, names_find_their_member, ordered_members_are_found, stands_at,
};
use crate::number::{
    composed, composed_is_number, denoted, has_spelling, is_number, point, reduced, same_value,
    signed_decimal_reads_back, spelling_keeps_value, Decimal,
};
use crate::parse::{structured, text_value};
use crate::state::{
    nested, nested_entries, nested_fields, nested_items, null, state_content, state_of, StateColumn,
    StateList, StateMap, StateScalar, StateStruct, StateUnion,
};
use crate::state_laws::{field_values, struct_members};
use crate::text::{decimal, decimal_denotes, signed_decimal};
use crate::variant::{decimal_number, decimal_spelling, occurs, repeated, stored_value};

verus! {

/// Whether a value is taken by its own type: its field names neither of the extension types
/// for JSON text and for Variants.
pub open spec fn plain(extension: Option<String>) -> bool {
    extension matches Some(name) ==> name@ != "arrow.json"@ && name@ != "arrow.parquet.variant"@
}

/// Whether a JSON value is a number that is written as an integer and is that integer.
pub open spec fn is_integer(value: Json, integer: int) -> bool {
    value matches Json::Number(text) && is_number(text) && denoted(text) == (Decimal {
        negative: integer < 0,
        coefficient: (if integer < 0 {
            -integer
        } else {
            integer
        }) as nat,
        exponent: 0,
    })
}

/// Whether a JSON value is a number and is an integer divided by a power of ten.
pub open spec fn is_quotient(value: Json, integer: int, places: int) -> bool {
    value matches Json::Number(text) && same_value(
        denoted(text),
        Decimal {
            negative: integer < 0,
            coefficient: (if integer < 0 {
                -integer
            } else {
                integer
            }) as nat,
            exponent: -places,
        },
    )
}

/// The decimal text of an integer is that integer.
pub proof fn integers_are_written(integer: int)
    ensures
        is_integer(Json::Number(signed_decimal(integer)), integer),
{
    let size = (if integer < 0 {
        -integer
    } else {
        integer
    }) as nat;
    decimal_denotes(size);
    composed_is_number(integer < 0, decimal(size), Seq::empty(), Seq::empty());
    let text = composed(integer < 0, decimal(size), Seq::empty(), Seq::empty());
    assert(text =~= signed_decimal(integer));
    assert(decimal(size) + Seq::<char>::empty() =~= decimal(size));
}

/// Every plain value of a simple type is sent as the JSON value of the same meaning: texts as
/// themselves, truth values as themselves, integers as those integers, finite binary numbers
/// by their text. What JSON cannot say is refused for its row.
pub proof fn scalars_keep_their_meaning(value: StateScalar, extension: Option<String>, depth: nat)
    requires
        plain(extension),
        depth <= 64,
    ensures
        match value {
            StateScalar::Null => nested(value, extension, depth) == Ok::<_, Fault>(Json::Null),
            StateScalar::Text(text) => nested(value, extension, depth) == Ok::<_, Fault>(
                Json::Text(text@),
            ),
            StateScalar::Bool(truth) => nested(value, extension, depth) == Ok::<_, Fault>(
                Json::Bool(truth),
            ),
            StateScalar::Int(integer) => nested(value, extension, depth) matches Ok(sent)
                && is_integer(sent, integer as int),
            StateScalar::UInt(integer) => nested(value, extension, depth) matches Ok(sent)
                && is_integer(sent, integer as int),
            StateScalar::Float { text: Some(text), .. } => nested(value, extension, depth)
                == Ok::<_, Fault>(Json::Number(text@)),
            StateScalar::Float { text: None, .. } => nested(value, extension, depth) matches Err(
                fault,
            ) && fault.kind is Execution,
            StateScalar::Other(_) => nested(value, extension, depth) matches Err(fault)
                && fault.kind is Execution,
            StateScalar::Unreadable(error) => nested(value, extension, depth) == Err::<Json, _>(
                error@,
            ),
            StateScalar::Union(union) => match union {
                StateUnion::Null => nested(value, extension, depth) == Ok::<_, Fault>(Json::Null),
                StateUnion::Bool(truth) => nested(value, extension, depth) == Ok::<_, Fault>(
                    Json::Bool(truth),
                ),
                StateUnion::Int(integer) => nested(value, extension, depth) matches Ok(sent)
                    && is_integer(sent, integer as int),
                StateUnion::Float(Some(text)) => nested(value, extension, depth) == Ok::<_, Fault>(
                    Json::Number(text@),
                ),
                StateUnion::Text(text) => nested(value, extension, depth) == Ok::<_, Fault>(
                    Json::Text(text@),
                ),
                StateUnion::Json(text) => nested(value, extension, depth) == text_value(
                    text@,
                    depth,
                ),
                StateUnion::Unreadable(error) => nested(value, extension, depth) == Err::<Json, _>(
                    error@,
                ),
                _ => nested(value, extension, depth) is Err,
            },
            _ => true,
        },
{
    match value {
        StateScalar::Int(integer) => {
            integers_are_written(integer as int);
        },
        StateScalar::UInt(integer) => {
            integers_are_written(integer as int);
            assert(signed_decimal(integer as int) == decimal(integer as nat));
        },
        StateScalar::Union(StateUnion::Int(integer)) => {
            integers_are_written(integer as int);
        },
        _ => {},
    }
}

/// An encoded value is sent as the value that it stands for.
pub proof fn encodings_do_not_show(inner: StateScalar, extension: Option<String>, depth: nat)
    requires
        !(inner is Unreadable || inner is Struct || inner is Mapping || inner is List
            || inner is Dictionary),
        depth <= 64,
    ensures
        nested(StateScalar::Dictionary(Box::new(inner)), extension, depth) == nested(
            inner,
            extension,
            depth,
        ),
        state_of(StateScalar::Dictionary(Box::new(inner)), extension) == state_of(inner, extension),
{
}

/// A decimal number is sent as the number of the same value, its places as they are.
pub proof fn decimals_keep_their_value(
    integer: String,
    scale: i8,
    number: int,
    extension: Option<String>,
    depth: nat,
)
    requires
        integer@ == signed_decimal(number),
        integer@.len() <= 1000,
        plain(extension),
        depth <= 64,
    ensures
        nested(StateScalar::Decimal { integer, scale }, extension, depth) matches Ok(value)
            && is_quotient(value, number, scale as int),
{
    decimal_texts_keep_their_value(integer@, scale, number);
}

/// The same of the text of a decimal number.
pub proof fn decimal_texts_keep_their_value(integer: Seq<char>, scale: i8, number: int)
    requires
        integer == signed_decimal(number),
        integer.len() <= 1000,
    ensures
        decimal_number(integer, scale) matches Ok(value) && is_quotient(
            value,
            number,
            scale as int,
        ),
{
    let size = (if number < 0 {
        -number
    } else {
        number
    }) as nat;
    decimal_denotes(size);
    signed_decimal_reads_back(-scale);
    let exponent = signed_decimal(-scale);
    composed_is_number(number < 0, decimal(size), Seq::empty(), exponent);
    let text = decimal_spelling(integer, scale);
    assert("e"@ =~= seq!['e']) by {
        reveal_strlit("e");
    }
    assert(text =~= composed(number < 0, decimal(size), Seq::empty(), exponent));
    assert(decimal(size) + Seq::<char>::empty() =~= decimal(size));
    let whole = denoted(text);
    assert(whole.coefficient == size && whole.exponent == -scale && whole.negative == (number
        < 0));
    if size > 0 {
        reduced_is_short(whole);
        assert(decimal(size).len() <= 1000);
    }
    assert(has_spelling(text));
    spelling_keeps_value(text);
}

/// A number without trailing zeros has its point no further left than before.
proof fn reduced_is_short(number: Decimal)
    requires
        number.coefficient > 0,
    ensures
        point(reduced(number)) == point(number),
    decreases number.coefficient,
{
    if number.coefficient % 10 == 0 {
        let smaller = Decimal {
            coefficient: number.coefficient / 10,
            exponent: number.exponent + 1,
            ..number
        };
        reduced_is_short(smaller);
        assert(decimal(number.coefficient).len() == decimal(smaller.coefficient).len() + 1);
    }
}

/// A list is sent as the array of what its items are sent as, each in its place.
pub proof fn lists_are_sent_item_by_item(list: StateList, extension: Option<String>, depth: nat)
    requires
        plain(extension),
        list.rows == 1,
        !list.null,
        depth < 64,
    ensures
        ({
            let sent = nested(StateScalar::List(list), extension, depth);
            &&& sent is Ok <==> forall|i: int|
                0 <= i < list.items@.len() ==> nested(
                    #[trigger] list.items@[i],
                    list.extension,
                    depth + 1,
                ) is Ok
            &&& sent matches Ok(value) ==> (value matches Json::Array(items) && items.len()
                == list.items@.len() && forall|i: int|
                0 <= i < items.len() ==> nested(list.items@[i], list.extension, depth + 1) == Ok::<
                    _,
                    Fault,
                >(#[trigger] items[i]))
        }),
{
    items_one_by_one(list.items@, list.extension, depth + 1);
}

/// Items are sent one by one.
proof fn items_one_by_one(items: Seq<StateScalar>, extension: Option<String>, depth: nat)
    ensures
        nested_items(items, extension, depth) is Ok <==> forall|i: int|
            0 <= i < items.len() ==> nested(#[trigger] items[i], extension, depth) is Ok,
        nested_items(items, extension, depth) matches Ok(values) ==> values.len() == items.len()
            && forall|i: int|
            0 <= i < items.len() ==> nested(items[i], extension, depth) == Ok::<_, Fault>(
                #[trigger] values[i],
            ),
    decreases items.len(),
{
    if items.len() > 0 {
        let rest = items.drop_last();
        items_one_by_one(rest, extension, depth);
        if forall|i: int|
            0 <= i < items.len() ==> nested(#[trigger] items[i], extension, depth) is Ok {
            assert forall|i: int| 0 <= i < rest.len() implies nested(
                #[trigger] rest[i],
                extension,
                depth,
            ) is Ok by {
                assert(nested(items[i], extension, depth) is Ok);
            }
            assert(nested(items[items.len() - 1], extension, depth) is Ok);
        }
        if nested_items(items, extension, depth) is Ok {
            let done = nested_items(rest, extension, depth)->Ok_0;
            let values = nested_items(items, extension, depth)->Ok_0;
            assert(values == done.push(nested(items.last(), extension, depth)->Ok_0));
            assert forall|i: int| 0 <= i < items.len() implies nested(
                items[i],
                extension,
                depth,
            ) == Ok::<_, Fault>(#[trigger] values[i]) by {
                if i < rest.len() {
                    assert(values[i] == done[i]);
                    assert(rest[i] == items[i]);
                }
            }
            assert forall|i: int| 0 <= i < items.len() implies nested(
                #[trigger] items[i],
                extension,
                depth,
            ) is Ok by {
                assert(nested(items[i], extension, depth) == Ok::<_, Fault>(values[i]));
            }
        }
    }
}

/// A struct is sent as an object with one member for each of its fields: under the field's
/// name, what the field's value is sent as. It has no other members, and they stand in the
/// order of their names.
pub proof fn structs_are_sent_field_by_field(
    record: StateStruct,
    extension: Option<String>,
    depth: nat,
)
    requires
        plain(extension),
        record.rows == 1,
        !record.null,
        forall|i: int, j: int|
            0 <= i < j < record.fields@.len() ==> (#[trigger] record.fields@[i]).0@ != (
            #[trigger] record.fields@[j]).0@,
        depth < 64,
    ensures
        ({
            let sent = nested(StateScalar::Struct(record), extension, depth);
            &&& sent is Ok <==> forall|i: int|
                0 <= i < record.fields@.len() ==> nested(
                    (#[trigger] record.fields@[i]).1.value,
                    record.fields@[i].1.extension,
                    depth + 1,
                ) is Ok
            &&& sent matches Ok(value) ==> {
                &&& value matches Json::Object(members) && members.len() == record.fields@.len()
                    && sorted(members)
                &&& forall|i: int|
                    0 <= i < record.fields@.len() ==> holds(
                        value,
                        (#[trigger] record.fields@[i]).0@,
                        nested(
                            record.fields@[i].1.value,
                            record.fields@[i].1.extension,
                            depth + 1,
                        )->Ok_0,
                    )
            }
        }),
{
    let fields = record.fields@;
    assert(!repeated(fields)) by {
        if repeated(fields) {
            let j = choose|j: int|
                0 <= j < fields.len() && occurs(fields, (#[trigger] fields[j]).0@, j);
            let i = choose|i: int| 0 <= i < j && (#[trigger] fields[i]).0@ == fields[j].0@;
            assert(fields[i].0@ != fields[j].0@);
        }
    }
    fields_one_by_one(fields, depth + 1);
    struct_is_its_fields(record, extension, depth);
    if nested_fields(fields, depth + 1) is Ok {
        struct_members(fields, depth + 1);
        let all = field_values(fields, depth + 1);
        distinct_members_are_held(all);
        let value = Json::Object(collected(all));
        assert forall|i: int| 0 <= i < fields.len() implies holds(
            value,
            (#[trigger] fields[i]).0@,
            nested(fields[i].1.value, fields[i].1.extension, depth + 1)->Ok_0,
        ) by {
            assert(holds(value, all[i].0, all[i].1));
        }
    }
}

/// A struct is sent where its fields are.
proof fn struct_is_its_fields(record: StateStruct, extension: Option<String>, depth: nat)
    requires
        plain(extension),
        record.rows == 1,
        !record.null,
        !repeated(record.fields@),
        depth < 64,
    ensures
        nested(StateScalar::Struct(record), extension, depth) == match nested_fields(
            record.fields@,
            depth + 1,
        ) {
            Ok(fields) => Ok::<_, Fault>(Json::Object(fields)),
            Err(fault) => Err(fault),
        },
{
}

/// Members with names of their own are all held when they are brought into order.
pub proof fn distinct_members_are_held(all: Members)
    requires
        forall|i: int, j: int|
            0 <= i < j < all.len() ==> (#[trigger] all[i]).0 != (#[trigger] all[j]).0,
    ensures
        collected(all).len() == all.len(),
        sorted(collected(all)),
        forall|i: int|
            0 <= i < all.len() ==> holds(
                Json::Object(collected(all)),
                (#[trigger] all[i]).0,
                all[i].1,
            ),
{
    collected_sorted(all);
    distinct_names_all_stay(all);
    let members = collected(all);
    assert forall|i: int| 0 <= i < all.len() implies holds(
        Json::Object(members),
        (#[trigger] all[i]).0,
        all[i].1,
    ) by {
        let name = all[i].0;
        assert forall|later: int| i < later < all.len() implies (#[trigger] all[later]).0
            != name by {
            assert(all[i].0 != all[later].0);
        }
        assert(stands_at(all, i, name, all[i].1));
        names_find_their_member(all, name);
        ordered_members_are_found(all, name);
        found_members_are_held(members, name, all[i].1);
    }
}

/// Fields are sent one by one.
proof fn fields_one_by_one(fields: Seq<(String, StateColumn)>, depth: nat)
    ensures
        nested_fields(fields, depth) is Ok <==> forall|i: int|
            0 <= i < fields.len() ==> nested(
                (#[trigger] fields[i]).1.value,
                fields[i].1.extension,
                depth,
            ) is Ok,
    decreases fields.len(),
{
    if fields.len() > 0 {
        let rest = fields.drop_last();
        fields_one_by_one(rest, depth);
        if forall|i: int|
            0 <= i < fields.len() ==> nested(
                (#[trigger] fields[i]).1.value,
                fields[i].1.extension,
                depth,
            ) is Ok {
            assert forall|i: int| 0 <= i < rest.len() implies nested(
                (#[trigger] rest[i]).1.value,
                rest[i].1.extension,
                depth,
            ) is Ok by {
                assert(rest[i] == fields[i]);
            }
            let last = fields[fields.len() - 1];
            assert(nested(last.1.value, last.1.extension, depth) is Ok);
        }
        if nested_fields(fields, depth) is Ok {
            struct_members(fields, depth);
        }
    }
}

/// Members with names of their own are all kept when they are brought into order.
pub proof fn distinct_names_all_stay(fields: Members)
    requires
        forall|i: int, j: int|
            0 <= i < j < fields.len() ==> (#[trigger] fields[i]).0 != (#[trigger] fields[j]).0,
    ensures
        collected(fields).len() == fields.len(),
    decreases fields.len(),
{
    if fields.len() > 0 {
        let rest = fields.drop_last();
        assert forall|i: int, j: int| 0 <= i < j < rest.len() implies (#[trigger] rest[i]).0 != (
        #[trigger] rest[j]).0 by {
            assert(fields[i].0 != fields[j].0);
        }
        distinct_names_all_stay(rest);
        collected_sorted(rest);
        let name = fields.last().0;
        assert(!has_field(rest, name)) by {
            if has_field(rest, name) {
                let i = choose|i: int| 0 <= i < rest.len() && (#[trigger] rest[i]).0 == name;
                assert(fields[i].0 != fields[fields.len() - 1].0);
            }
        }
        assert(!has_field(collected(rest), name));
        crate::json_laws::putting_a_member(collected(rest), name, fields.last().1);
    }
}

/// A map is sent as an object with one member for each of its entries: under the entry's key,
/// what its value is sent as. It is sent exactly where every key is a text of its own and every
/// value can be sent.
pub proof fn maps_are_sent_entry_by_entry(map: StateMap, extension: Option<String>, depth: nat)
    requires
        plain(extension),
        map.rows == 1,
        !map.null,
        depth < 64,
    ensures
        ({
            let sent = nested(StateScalar::Mapping(map), extension, depth);
            let entries = map.entries@;
            &&& sent is Ok <==> {
                &&& forall|i: int|
                    0 <= i < entries.len() ==> (nested(
                        (#[trigger] entries[i]).0,
                        map.key_extension,
                        depth + 1,
                    ) matches Ok(key) && key is Text) && nested(
                        entries[i].1,
                        map.value_extension,
                        depth + 1,
                    ) is Ok
                &&& forall|i: int, j: int|
                    0 <= i < j < entries.len() ==> nested(
                        (#[trigger] entries[i]).0,
                        map.key_extension,
                        depth + 1,
                    ) != nested((#[trigger] entries[j]).0, map.key_extension, depth + 1)
            }
            &&& sent matches Ok(value) ==> {
                &&& value matches Json::Object(members) && members.len() == entries.len()
                    && sorted(members)
                &&& forall|i: int|
                    0 <= i < entries.len() ==> (nested(
                        (#[trigger] entries[i]).0,
                        map.key_extension,
                        depth + 1,
                    ) matches Ok(Json::Text(key)) && holds(
                        value,
                        key,
                        nested(entries[i].1, map.value_extension, depth + 1)->Ok_0,
                    ))
            }
        }),
{
    let entries = map.entries@;
    let pairs = entry_results(entries, map.key_extension, map.value_extension, depth + 1);
    entries_give_results(entries, map.key_extension, map.value_extension, depth + 1);
    results_one_by_one(pairs);
    map_is_its_entries(map, extension, depth);
    assert forall|i: int| 0 <= i < entries.len() implies pairs[i].0 == nested(
        (#[trigger] entries[i]).0,
        map.key_extension,
        depth + 1,
    ) && pairs[i].1 == nested(entries[i].1, map.value_extension, depth + 1) by {}
    if results_sound(pairs) && results_apart(pairs) {
        assert forall|i: int, j: int| 0 <= i < j < entries.len() implies nested(
            (#[trigger] entries[i]).0,
            map.key_extension,
            depth + 1,
        ) != nested((#[trigger] entries[j]).0, map.key_extension, depth + 1) by {
            assert(pairs[i].0 != pairs[j].0);
        }
        assert forall|i: int| 0 <= i < entries.len() implies (nested(
            (#[trigger] entries[i]).0,
            map.key_extension,
            depth + 1,
        ) matches Ok(Json::Text(key)) && holds(
            Json::Object(gathered(pairs)->Ok_0),
            key,
            nested(entries[i].1, map.value_extension, depth + 1)->Ok_0,
        )) by {
            assert(pairs[i].0 is Ok);
        }
    }
}

/// A map is sent where its entries are.
proof fn map_is_its_entries(map: StateMap, extension: Option<String>, depth: nat)
    requires
        plain(extension),
        map.rows == 1,
        !map.null,
        depth < 64,
    ensures
        nested(StateScalar::Mapping(map), extension, depth) == match nested_entries(
            map.entries@,
            map.key_extension,
            map.value_extension,
            depth + 1,
        ) {
            Ok(fields) => Ok::<_, Fault>(Json::Object(fields)),
            Err(fault) => Err(fault),
        },
{
}

/// What the keys and the values of some entries are sent as.
spec fn entry_results(
    entries: Seq<(StateScalar, StateScalar)>,
    key_extension: Option<String>,
    value_extension: Option<String>,
    depth: nat,
) -> Seq<(Result<Json, Fault>, Result<Json, Fault>)> {
    Seq::new(
        entries.len(),
        |i: int|
            (
                nested(entries[i].0, key_extension, depth),
                nested(entries[i].1, value_extension, depth),
            ),
    )
}

/// The members that some keys and values give.
spec fn gathered(pairs: Seq<(Result<Json, Fault>, Result<Json, Fault>)>) -> Result<Members, Fault>
    decreases pairs.len(),
{
    if pairs.len() == 0 {
        Ok(Seq::empty())
    } else {
        match gathered(pairs.drop_last()) {
            Err(fault) => Err(fault),
            Ok(done) => match pairs.last().0 {
                Err(fault) => Err(fault),
                Ok(Json::Text(key)) => match pairs.last().1 {
                    Err(fault) => Err(fault),
                    Ok(value) => if has_field(done, key) {
                        Err(row_fault("Jev state Map has duplicate keys"@))
                    } else {
                        Ok(with_field(done, key, value))
                    },
                },
                Ok(_) => Err(row_fault("Jev state Map keys must be non-NULL UTF-8 strings"@)),
            },
        }
    }
}

/// Entries give the members of their keys and values.
proof fn entries_give_results(
    entries: Seq<(StateScalar, StateScalar)>,
    key_extension: Option<String>,
    value_extension: Option<String>,
    depth: nat,
)
    ensures
        nested_entries(entries, key_extension, value_extension, depth) == gathered(
            entry_results(entries, key_extension, value_extension, depth),
        ),
    decreases entries.len(),
{
    let pairs = entry_results(entries, key_extension, value_extension, depth);
    if entries.len() > 0 {
        entries_give_results(entries.drop_last(), key_extension, value_extension, depth);
        assert(pairs.drop_last() =~= entry_results(
            entries.drop_last(),
            key_extension,
            value_extension,
            depth,
        ));
        assert(pairs.last() == pairs[entries.len() - 1]);
    }
}

/// Whether every key is a text and every value can be sent.
spec fn results_sound(pairs: Seq<(Result<Json, Fault>, Result<Json, Fault>)>) -> bool {
    forall|i: int|
        0 <= i < pairs.len() ==> ((#[trigger] pairs[i]).0 matches Ok(key) && key is Text)
            && pairs[i].1 is Ok
}

/// Whether no two keys are the same.
spec fn results_apart(pairs: Seq<(Result<Json, Fault>, Result<Json, Fault>)>) -> bool {
    forall|i: int, j: int|
        0 <= i < j < pairs.len() ==> (#[trigger] pairs[i]).0 != (#[trigger] pairs[j]).0
}

/// The members of some keys and values.
spec fn pair_members(pairs: Seq<(Result<Json, Fault>, Result<Json, Fault>)>) -> Members {
    Seq::new(pairs.len(), |i: int| (pairs[i].0->Ok_0->Text_0, pairs[i].1->Ok_0))
}

/// Keys and values are gathered one by one.
proof fn results_one_by_one(pairs: Seq<(Result<Json, Fault>, Result<Json, Fault>)>)
    ensures
        gathered(pairs) is Ok <==> results_sound(pairs) && results_apart(pairs),
        gathered(pairs) matches Ok(members) ==> {
            &&& members.len() == pairs.len()
            &&& sorted(members)
            &&& forall|i: int|
                0 <= i < pairs.len() ==> holds(
                    Json::Object(members),
                    (#[trigger] pairs[i]).0->Ok_0->Text_0,
                    pairs[i].1->Ok_0,
                )
        },
{
    gathered_is_collected(pairs);
    if results_sound(pairs) && results_apart(pairs) {
        let all = pair_members(pairs);
        assert forall|i: int, j: int| 0 <= i < j < all.len() implies (#[trigger] all[i]).0 != (
        #[trigger] all[j]).0 by {
            assert(pairs[i].0 != pairs[j].0);
        }
        distinct_members_are_held(all);
        assert forall|i: int| 0 <= i < pairs.len() implies holds(
            Json::Object(collected(all)),
            (#[trigger] pairs[i]).0->Ok_0->Text_0,
            pairs[i].1->Ok_0,
        ) by {
            assert(holds(Json::Object(collected(all)), all[i].0, all[i].1));
        }
    }
}

/// Keys and values are gathered where each key is a text of its own.
proof fn gathered_is_collected(pairs: Seq<(Result<Json, Fault>, Result<Json, Fault>)>)
    ensures
        gathered(pairs) is Ok <==> results_sound(pairs) && results_apart(pairs),
        gathered(pairs) matches Ok(members) ==> members == collected(pair_members(pairs)),
    decreases pairs.len(),
{
    if pairs.len() == 0 {
        assert(pair_members(pairs) =~= Seq::empty());
    } else {
        let rest = pairs.drop_last();
        let last = pairs.last();
        gathered_is_collected(rest);
        let all = pair_members(rest);
        collected_sorted(all);
        assert(pair_members(pairs).drop_last() =~= all);
        assert forall|i: int| 0 <= i < rest.len() implies rest[i] == #[trigger] pairs[i] by {}
        if results_sound(pairs) && results_apart(pairs) {
            assert forall|i: int| 0 <= i < rest.len() implies ((
            #[trigger] rest[i]).0 matches Ok(key) && key is Text) && rest[i].1 is Ok by {
                assert(rest[i] == pairs[i]);
            }
            assert(results_apart(rest)) by {
                assert forall|i: int, j: int| 0 <= i < j < rest.len() implies (
                #[trigger] rest[i]).0 != (#[trigger] rest[j]).0 by {
                    assert(pairs[i].0 != pairs[j].0);
                }
            }
            assert(pairs[pairs.len() - 1] == last);
            let key = last.0->Ok_0->Text_0;
            if has_field(all, key) {
                let i = choose|i: int| 0 <= i < all.len() && (#[trigger] all[i]).0 == key;
                assert(pairs[i].0 != pairs[pairs.len() - 1].0);
                assert(pairs[i].0 == Ok::<_, Fault>(Json::Text(key)));
            }
        }
        if gathered(pairs) is Ok {
            let key = last.0->Ok_0->Text_0;
            assert(!has_field(all, key));
            assert(results_sound(pairs)) by {
                assert forall|i: int| 0 <= i < pairs.len() implies ((
                #[trigger] pairs[i]).0 matches Ok(key) && key is Text) && pairs[i].1 is Ok by {
                    if i < rest.len() {
                        assert(rest[i] == pairs[i]);
                    }
                }
            }
            assert(results_apart(pairs)) by {
                assert forall|i: int, j: int| 0 <= i < j < pairs.len() implies (
                #[trigger] pairs[i]).0 != (#[trigger] pairs[j]).0 by {
                    assert(rest[i] == pairs[i]);
                    if j < rest.len() {
                        assert(rest[j] == pairs[j]);
                    } else {
                        assert(all[i].0 != key);
                    }
                }
            }
        }
    }
}

/// A container that is NULL is sent as null; one that does not stand for exactly one row, or
/// whose fields share a name, is refused.
pub proof fn containers_hold_one_row(value: StateScalar, extension: Option<String>, depth: nat)
    requires
        value is Struct || value is Mapping || value is List,
        depth <= 64,
    ensures
        ({
            let (rows, absent) = match value {
                StateScalar::Struct(inner) => (inner.rows, inner.null),
                StateScalar::Mapping(inner) => (inner.rows, inner.null),
                StateScalar::List(inner) => (inner.rows, inner.null),
                _ => (1, false),
            };
            &&& rows != 1 ==> nested(value, extension, depth) is Err
            &&& rows == 1 && absent && !(value is Struct) ==> nested(value, extension, depth)
                == Ok::<_, Fault>(Json::Null)
            &&& value matches StateScalar::Struct(inner) ==> forall|i: int, j: int|
                0 <= i < j < inner.fields@.len() && (#[trigger] inner.fields@[i]).0@ == (
                #[trigger] inner.fields@[j]).0@ ==> nested(value, extension, depth) is Err
        }),
{
    if let StateScalar::Struct(inner) = value {
        let fields = inner.fields@;
        if exists|i: int, j: int|
            0 <= i < j < fields.len() && (#[trigger] fields[i]).0@ == (#[trigger] fields[j]).0@ {
            let (i, j) = choose|i: int, j: int|
                0 <= i < j < fields.len() && (#[trigger] fields[i]).0@ == (
                #[trigger] fields[j]).0@;
            assert(occurs(fields, fields[j].0@, j));
            assert(repeated(fields));
        }
    }
}

/// Nothing is sent from below the sixty-fourth level, and no container stands on it.
pub proof fn deep_values_are_refused(value: StateScalar, extension: Option<String>, depth: nat)
    requires
        depth > 64 || depth == 64 && plain(extension) && (match value {
            StateScalar::Struct(inner) => inner.rows == 1 && !inner.null,
            StateScalar::Mapping(inner) => inner.rows == 1 && !inner.null,
            StateScalar::List(inner) => inner.rows == 1 && !inner.null,
            _ => false,
        }),
    ensures
        nested(value, extension, depth) is Err,
{
}

/// A field that says it holds JSON text is sent as that JSON; one that says it holds a Variant
/// is sent as what the Variant holds. Neither takes a value of another type.
pub proof fn extensions_say_how_to_read(value: StateScalar, name: String, depth: nat)
    requires
        depth <= 64,
        !(value is Null || value is Dictionary || value is Unreadable),
        value matches StateScalar::Struct(inner) ==> inner.rows == 1 && !inner.null && !repeated(
            inner.fields@,
        ),
        value matches StateScalar::Mapping(inner) ==> inner.rows == 1 && !inner.null,
        value matches StateScalar::List(inner) ==> inner.rows == 1 && !inner.null,
    ensures
        name@ == "arrow.json"@ ==> match value {
            StateScalar::Text(text) => nested(value, Some(name), depth) == text_value(text@, depth),
            _ => nested(value, Some(name), depth) is Err,
        },
        name@ == "arrow.parquet.variant"@ ==> match value {
            StateScalar::Struct(inner) => match inner.variant {
                Some(variant) => nested(value, Some(name), depth) == stored_value(variant, depth),
                None => nested(value, Some(name), depth) is Err,
            },
            _ => nested(value, Some(name), depth) is Err,
        },
{
    assert("arrow.json"@ != "arrow.parquet.variant"@) by {
        reveal_strlit("arrow.json");
        reveal_strlit("arrow.parquet.variant");
        assert("arrow.json"@.len() == 10);
    }
}

/// A row's state is a text or a structure that fits: at most sixty-four levels deep, at most a
/// mebibyte when written. Text that holds an object or an array is sent as that structure, any
/// other text as itself. A bare truth value, number or null is no state.
pub proof fn states_are_texts_or_structures(value: StateScalar, extension: Option<String>)
    ensures
        state_of(value, extension) matches Ok(state) ==> {
            &&& state is Text || state is Object || state is Array
            &&& fits(state)
        },
        plain(extension) && (value is Bool || value is Int || value is UInt || value is Float
            || value is Decimal || value is Null || value is Other) ==> state_of(value, extension)
            is Err,
        plain(extension) ==> (value matches StateScalar::Text(text) ==> match structured(text@) {
            Ok(Some(inner)) => state_of(value, extension) == Ok::<_, Fault>(inner),
            Ok(None) => if fits(Json::Text(text@)) {
                state_of(value, extension) == Ok::<_, Fault>(Json::Text(text@))
            } else {
                state_of(value, extension) is Err
            },
            Err(fault) => state_of(value, extension) == Err::<Json, _>(fault),
        }),
        !(value is Dictionary) && !(value is Text) ==> (nested(value, extension, 0) matches Ok(
            sent,
        ) ==> (sent is Object || sent is Array || sent is Text) && fits(sent) ==> state_of(
            value,
            extension,
        ) == Ok::<_, Fault>(sent)),
    decreases value,
{
    match value {
        StateScalar::Dictionary(inner) => {
            states_are_texts_or_structures(*inner, extension);
        },
        _ => {
            if let Ok(json) = state_content(value, extension) {
                let settled = arranged(json);
                emit_writes(settled, 0, Seq::empty());
                assert(Seq::<u8>::empty() + bytes(settled) =~= bytes(settled));
            }
            if let StateScalar::Text(text) = value {
                structures_are_containers(text@);
            }
        },
    }
}

/// What is SQL NULL: a value without a type of its own that says so, an encoding of such a
/// value, and a container that says so. Nothing else is.
pub proof fn nulls_say_so(value: StateScalar)
    ensures
        value is Null ==> null(value),
        value matches StateScalar::Dictionary(inner) ==> (null(value) <==> null(*inner)),
        value matches StateScalar::Struct(inner) ==> (null(value) <==> inner.null),
        value matches StateScalar::Mapping(inner) ==> (null(value) <==> inner.null),
        value matches StateScalar::List(inner) ==> (null(value) <==> inner.null),
        value is Text || value is Bool || value is Int || value is UInt || value is Decimal
            || value is Float || value is Union || value is Other || value is Unreadable ==> !null(
            value,
        ),
{
}

/// Text that stands for a structure stands for an object or an array.
proof fn structures_are_containers(text: Seq<char>)
    ensures
        structured(text) matches Ok(Some(value)) ==> value is Object || value is Array,
{
}

} // verus!
