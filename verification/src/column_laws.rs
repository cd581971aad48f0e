//! How values become columns, told row by row and member by member.
use vstd::prelude::*;
use vstd::utf8::encode_utf8;

use crate::answers::{double_bits, double_text, judged};
use crate::arrow_json::{
    lines, normal, normal_map, normal_struct, number_cells, plain_bytes, plain_fields, plain_items,
    reading_message, text_cells, ArrowField, ArrowType, Reading, Shape,
};
use crate::canonical::quoted;
use crate::json::{
    collected, has_field, lookup, sorted, with_field, with_field_sorted, Json, Members,
};
use crate::json_laws::{names_find_their_member, put_members_are_found};
use crate::udf::output_shape;

verus! {

/// A text column has one cell for each row, in its place: the text, or nothing for null. It is
/// built exactly where every value is a text or null.
pub proof fn text_columns_hold_each_row(name: Seq<char>, values: Seq<Json>)
    ensures
        text_cells(name, values) is Ok <==> forall|i: int|
            0 <= i < values.len() ==> (#[trigger] values[i] is Null || values[i] is Text),
        text_cells(name, values) matches Ok(cells) ==> cells.len() == values.len() && forall|
            i: int,
        |
            0 <= i < cells.len() ==> match values[i] {
                Json::Text(text) => #[trigger] cells[i] == Some(text),
                _ => cells[i] is None,
            },
    decreases values.len(),
{
    if values.len() > 0 {
        let rest = values.drop_last();
        text_columns_hold_each_row(name, rest);
        assert(values.last() == values[values.len() - 1]);
        if forall|i: int|
            0 <= i < values.len() ==> (#[trigger] values[i] is Null || values[i] is Text) {
            assert forall|i: int| 0 <= i < rest.len() implies (#[trigger] rest[i] is Null
                || rest[i] is Text) by {
                assert(rest[i] == values[i]);
            }
        }
        if text_cells(name, values) is Ok {
            let done = text_cells(name, rest)->Ok_0;
            let cells = text_cells(name, values)->Ok_0;
            assert forall|i: int| 0 <= i < cells.len() implies match values[i] {
                Json::Text(text) => #[trigger] cells[i] == Some(text),
                _ => cells[i] is None,
            } by {
                if i < rest.len() {
                    assert(cells[i] == done[i]);
                    assert(rest[i] == values[i]);
                }
            }
            assert forall|i: int| 0 <= i < values.len() implies (#[trigger] values[i] is Null
                || values[i] is Text) by {
                if i < rest.len() {
                    assert(rest[i] == values[i]);
                }
            }
        }
    }
}

/// A number column has one cell for each row, in its place: the nearest binary floating-point
/// number, or nothing for null. It is built exactly where every value is null or a number that
/// has a nearest one.
pub proof fn number_columns_hold_each_row(name: Seq<char>, values: Seq<Json>)
    ensures
        number_cells(name, values) is Ok <==> forall|i: int|
            0 <= i < values.len() ==> match #[trigger] values[i] {
                Json::Null => true,
                Json::Number(number) => double_bits(number) is Some,
                _ => false,
            },
        number_cells(name, values) matches Ok(cells) ==> cells.len() == values.len() && forall|
            i: int,
        |
            0 <= i < cells.len() ==> match values[i] {
                Json::Number(number) => #[trigger] cells[i] == double_bits(number),
                _ => cells[i] is None,
            },
    decreases values.len(),
{
    if values.len() > 0 {
        let rest = values.drop_last();
        number_columns_hold_each_row(name, rest);
        assert(values.last() == values[values.len() - 1]);
        if forall|i: int|
            0 <= i < values.len() ==> match #[trigger] values[i] {
                Json::Null => true,
                Json::Number(number) => double_bits(number) is Some,
                _ => false,
            } {
            assert forall|i: int| 0 <= i < rest.len() implies match #[trigger] rest[i] {
                Json::Null => true,
                Json::Number(number) => double_bits(number) is Some,
                _ => false,
            } by {
                assert(rest[i] == values[i]);
            }
        }
        if number_cells(name, values) is Ok {
            let done = number_cells(name, rest)->Ok_0;
            let cells = number_cells(name, values)->Ok_0;
            assert forall|i: int| 0 <= i < cells.len() implies match values[i] {
                Json::Number(number) => #[trigger] cells[i] == double_bits(number),
                _ => cells[i] is None,
            } by {
                if i < rest.len() {
                    assert(cells[i] == done[i]);
                    assert(rest[i] == values[i]);
                }
            }
            assert forall|i: int| 0 <= i < values.len() implies match #[trigger] values[i] {
                Json::Null => true,
                Json::Number(number) => double_bits(number) is Some,
                _ => false,
            } by {
                if i < rest.len() {
                    assert(rest[i] == values[i]);
                }
            }
        }
    }
}

/// A simple value goes into a column of its kind as it is: a text into a text column, a number
/// into a number column as the nearest binary floating-point number, null into any. Nothing
/// else goes there.
pub proof fn simple_values_go_into_their_columns(value: Json, field: ArrowField, path: Seq<char>)
    ensures
        value is Null ==> normal(value, field, path) == Ok::<_, Seq<char>>(Json::Null),
        field.data_type is Utf8 && !(value is Null) ==> (normal(value, field, path) is Ok
            <==> value is Text) && (value is Text ==> normal(value, field, path) == Ok::<
            _,
            Seq<char>,
        >(value)),
        field.data_type is Float64 && !(value is Null) ==> match value {
            Json::Number(number) => match double_text(number) {
                Some(text) => normal(value, field, path) == Ok::<_, Seq<char>>(Json::Number(text)),
                None => normal(value, field, path) is Err,
            },
            _ => normal(value, field, path) is Err,
        },
        (field.data_type is Struct || field.data_type is Mapping) && !(value is Null) && !(
        value is Object) ==> normal(value, field, path) is Err,
        field.data_type is Other && !(value is Null) ==> normal(value, field, path) is Err,
{
}

/// An object goes into a struct column by its fields and into a map column by its members, in
/// the order of their names.
pub proof fn objects_go_into_nested_columns(members: Members, field: ArrowField, path: Seq<char>)
    ensures
        field.data_type matches ArrowType::Struct(fields) ==> match normal_struct(
            members,
            fields@,
            path,
        ) {
            Ok(taken) => normal(Json::Object(members), field, path) == Ok::<_, Seq<char>>(
                Json::Object(taken),
            ),
            Err(_) => normal(Json::Object(members), field, path) is Err,
        },
        field.data_type matches ArrowType::Mapping(entries, _) ==> match entries.data_type {
            ArrowType::Struct(pair) if pair@.len() == 2 => match normal_map(
                collected(members),
                pair@[1],
                path,
            ) {
                Ok(taken) => normal(Json::Object(members), field, path) == Ok::<_, Seq<char>>(
                    Json::Object(taken),
                ),
                Err(_) => normal(Json::Object(members), field, path) is Err,
            },
            _ => normal(Json::Object(members), field, path) is Err,
        },
{
}

/// A struct column takes from an object the members that it has fields for, each as its own
/// field takes it, and no others.
pub proof fn structs_take_their_members(
    members: Members,
    fields: Seq<ArrowField>,
    path: Seq<char>,
    at: int,
)
    requires
        0 <= at < fields.len(),
        forall|i: int, j: int|
            0 <= i < j < fields.len() ==> (#[trigger] fields[i]).name@ != (
            #[trigger] fields[j]).name@,
    ensures
        normal_struct(members, fields, path) matches Ok(taken) ==> {
            &&& sorted(taken)
            &&& match lookup(members, fields[at].name@) {
                None => lookup(taken, fields[at].name@) is None,
                Some(value) => normal(
                    value,
                    fields[at],
                    path + "."@ + fields[at].name@,
                ) matches Ok(inner) && lookup(taken, fields[at].name@) == Some(inner),
            }
            &&& forall|i: int|
                0 <= i < taken.len() ==> exists|j: int|
                    0 <= j < fields.len() && (#[trigger] fields[j]).name@ == (
                    #[trigger] taken[i]).0
        },
    decreases fields.len(),
{
    structs_are_taken(members, fields, path);
    if normal_struct(members, fields, path) is Ok {
        let rest = fields.drop_last();
        let last = fields.last();
        let done = normal_struct(members, rest, path)->Ok_0;
        structs_are_taken(members, rest, path);
        assert forall|i: int, j: int| 0 <= i < j < rest.len() implies (#[trigger] rest[i]).name@
            != (#[trigger] rest[j]).name@ by {
            assert(fields[i].name@ != fields[j].name@);
        }
        if at < rest.len() {
            assert(rest[at] == fields[at]);
            structs_take_their_members(members, rest, path, at);
            assert(fields[at].name@ != fields[fields.len() - 1].name@);
            if let Some(child) = lookup(members, last.name@) {
                let value = normal(child, last, path + "."@ + last.name@)->Ok_0;
                put_members_are_found(done, last.name@, value, fields[at].name@);
            }
        } else {
            assert(last == fields[at]);
            match lookup(members, last.name@) {
                None => {
                    if lookup(done, last.name@) is Some {
                        names_find_their_member(done, last.name@);
                        let i = choose|i: int|
                            0 <= i < done.len() && (#[trigger] done[i]).0 == last.name@;
                        let j = choose|j: int|
                            0 <= j < rest.len() && (#[trigger] rest[j]).name@ == done[i].0;
                        assert(fields[j].name@ != fields[fields.len() - 1].name@);
                        assert(rest[j] == fields[j]);
                    }
                },
                Some(child) => {
                    let value = normal(child, last, path + "."@ + last.name@)->Ok_0;
                    put_members_are_found(done, last.name@, value, last.name@);
                },
            }
        }
    }
}

/// What a struct column takes is in order and has a field each.
proof fn structs_are_taken(members: Members, fields: Seq<ArrowField>, path: Seq<char>)
    ensures
        normal_struct(members, fields, path) matches Ok(taken) ==> sorted(taken) && forall|i: int|
            0 <= i < taken.len() ==> exists|j: int|
                0 <= j < fields.len() && (#[trigger] fields[j]).name@ == (#[trigger] taken[i]).0,
    decreases fields.len(),
{
    if fields.len() > 0 && normal_struct(members, fields, path) is Ok {
        let rest = fields.drop_last();
        let last = fields.last();
        structs_are_taken(members, rest, path);
        let done = normal_struct(members, rest, path)->Ok_0;
        let taken = normal_struct(members, fields, path)->Ok_0;
        if let Some(child) = lookup(members, last.name@) {
            let value = normal(child, last, path + "."@ + last.name@)->Ok_0;
            with_field_sorted(done, last.name@, value);
            assert(taken == with_field(done, last.name@, value));
        }
        assert forall|i: int| 0 <= i < taken.len() implies exists|j: int|
            0 <= j < fields.len() && (#[trigger] fields[j]).name@ == (#[trigger] taken[i]).0 by {
            let name = taken[i].0;
            assert(has_field(taken, name));
            if has_field(done, name) {
                let k = choose|k: int| 0 <= k < done.len() && (#[trigger] done[k]).0 == name;
                let j = choose|j: int|
                    0 <= j < rest.len() && (#[trigger] rest[j]).name@ == done[k].0;
                assert(fields[j].name@ == name);
            } else {
                assert(fields[fields.len() - 1].name@ == name);
            }
        }
    }
}

/// A map column takes every member of an object under its name and in its place, each as the
/// column of values takes it.
pub proof fn maps_take_every_member(members: Members, values: ArrowField, path: Seq<char>)
    ensures
        normal_map(members, values, path) matches Ok(taken) ==> taken.len() == members.len()
            && forall|i: int|
            0 <= i < taken.len() ==> (#[trigger] taken[i]).0 == members[i].0 && normal(
                members[i].1,
                values,
                path + "."@ + members[i].0,
            ) == Ok::<_, Seq<char>>(taken[i].1),
        (forall|i: int|
            0 <= i < members.len() ==> normal(
                (#[trigger] members[i]).1,
                values,
                path + "."@ + members[i].0,
            ) is Ok) ==> normal_map(members, values, path) is Ok,
    decreases members.len(),
{
    if members.len() > 0 {
        let rest = members.drop_last();
        maps_take_every_member(rest, values, path);
        assert(members.last() == members[members.len() - 1]);
        if forall|i: int|
            0 <= i < members.len() ==> normal(
                (#[trigger] members[i]).1,
                values,
                path + "."@ + members[i].0,
            ) is Ok {
            assert forall|i: int| 0 <= i < rest.len() implies normal(
                (#[trigger] rest[i]).1,
                values,
                path + "."@ + rest[i].0,
            ) is Ok by {
                assert(rest[i] == members[i]);
            }
        }
        if normal_map(members, values, path) is Ok {
            let done = normal_map(rest, values, path)->Ok_0;
            let taken = normal_map(members, values, path)->Ok_0;
            assert forall|i: int| 0 <= i < taken.len() implies (#[trigger] taken[i]).0
                == members[i].0 && normal(members[i].1, values, path + "."@ + members[i].0)
                == Ok::<_, Seq<char>>(taken[i].1) by {
                if i < rest.len() {
                    assert(taken[i] == done[i]);
                    assert(rest[i] == members[i]);
                }
            }
        }
    }
}

/// Values of a nested column are written one to a line, in their order, each as an object with
/// the column's name.
pub proof fn nested_values_are_written_by_line(field: ArrowField, values: Seq<Json>, more: Json)
    ensures
        lines(field, values.push(more)) matches Ok(all) ==> {
            &&& lines(field, values) matches Ok(before) && normal(
                more,
                field,
                field.name@,
            ) matches Ok(value) && all == before + (if values.len() > 0 {
                seq![10u8]
            } else {
                Seq::empty()
            }) + plain_bytes(Json::Object(seq![(field.name@, value)]))
        },
        lines(field, values) is Ok && normal(more, field, field.name@) is Ok ==> lines(
            field,
            values.push(more),
        ) is Ok,
        lines(field, Seq::empty()) == Ok::<_, Seq<char>>(Seq::<u8>::empty()),
{
    let all = values.push(more);
    assert(all.drop_last() =~= values);
    assert(all.last() == more);
    if lines(field, all) is Ok {
        let before = lines(field, values)->Ok_0;
        let line = plain_bytes(
            Json::Object(seq![(field.name@, normal(more, field, field.name@)->Ok_0)]),
        );
        if values.len() == 0 {
            assert(values =~= Seq::empty());
            assert(before =~= Seq::<u8>::empty());
            assert(before + Seq::<u8>::empty() + line =~= line);
        }
    }
}

/// Plain values are written as JSON: words, numbers as they stand, texts in quotation marks,
/// arrays and objects in brackets with commas between their parts.
pub proof fn plain_values_are_written(
    truth: bool,
    text: Seq<char>,
    items: Seq<Json>,
    fields: Members,
    name: Seq<char>,
    value: Json,
)
    ensures
        plain_bytes(Json::Null) == encode_utf8("null"@),
        plain_bytes(Json::Bool(truth)) == encode_utf8(
            if truth {
                "true"@
            } else {
                "false"@
            },
        ),
        plain_bytes(Json::Number(text)) == encode_utf8(text),
        plain_bytes(Json::Text(text)) == encode_utf8(quoted(text)),
        plain_bytes(Json::Array(Seq::empty())) == seq![91u8, 93u8],
        plain_bytes(Json::Array(items.push(value))) == plain_bytes(
            Json::Array(items),
        ).drop_last() + (if items.len() > 0 {
            seq![44u8]
        } else {
            Seq::empty()
        }) + plain_bytes(value) + seq![93u8],
        plain_bytes(Json::Object(Seq::empty())) == seq![123u8, 125u8],
        plain_bytes(Json::Object(fields.push((name, value)))) == plain_bytes(
            Json::Object(fields),
        ).drop_last() + (if fields.len() > 0 {
            seq![44u8]
        } else {
            Seq::empty()
        }) + encode_utf8(quoted(name)) + seq![58u8] + plain_bytes(value) + seq![125u8],
{
    let list = items.push(value);
    assert(list.drop_last() =~= items);
    assert(list.last() == value);
    assert(plain_items(list) == if items.len() > 0 {
        plain_items(items) + seq![44u8] + plain_bytes(value)
    } else {
        plain_bytes(value)
    });
    assert(plain_items(Seq::empty()) =~= Seq::<u8>::empty());
    assert(plain_bytes(Json::Array(Seq::empty())) =~= seq![91u8, 93u8]);
    if items.len() == 0 {
        assert(items =~= Seq::empty());
    }
    assert(plain_bytes(Json::Array(list)) =~= plain_bytes(Json::Array(items)).drop_last() + (
    if items.len() > 0 {
        seq![44u8]
    } else {
        Seq::empty()
    }) + plain_bytes(value) + seq![93u8]);
    let all = fields.push((name, value));
    assert(all.drop_last() =~= fields);
    assert(all.last() == (name, value));
    let member = encode_utf8(quoted(name)) + seq![58u8] + plain_bytes(value);
    assert(plain_fields(all) == if fields.len() > 0 {
        plain_fields(fields) + seq![44u8] + member
    } else {
        member
    });
    assert(plain_fields(Seq::empty()) =~= Seq::<u8>::empty());
    assert(plain_bytes(Json::Object(Seq::empty())) =~= seq![123u8, 125u8]);
    if fields.len() == 0 {
        assert(fields =~= Seq::empty());
    }
    assert(plain_bytes(Json::Object(all)) =~= plain_bytes(Json::Object(fields)).drop_last() + (
    if fields.len() > 0 {
        seq![44u8]
    } else {
        Seq::empty()
    }) + encode_utf8(quoted(name)) + seq![58u8] + plain_bytes(value) + seq![125u8]);
}

/// A nested column is accepted exactly where all lines were read and gave one row each.
pub proof fn nested_columns_are_read_whole(
    name: Seq<char>,
    reading: Reading,
    text: Seq<char>,
    encoded: nat,
    values: nat,
)
    ensures
        reading_message(name, reading, text, encoded, values) is None <==> reading
            == Reading::Done(encoded, values),
{
}

/// The kind of column that a member of an answer needs.
pub open spec fn needs(value: Json) -> Shape {
    match value {
        Json::Text(_) => Shape::Utf8,
        Json::Object(_) => Shape::Mapping(
            "entries"@,
            Box::new(
                Shape::Struct(
                    seq![("key"@, Shape::Utf8, false), ("value"@, Shape::Float64, true)],
                ),
            ),
            false,
        ),
        _ => Shape::Float64,
    }
}

/// Every member of an accepted answer has a nullable column of its own in the function's
/// result, of the kind that the member needs, and the result has no other columns. A
/// probability is a number column, several answers are a text column.
pub proof fn results_have_a_column_for_each_member(function: Seq<char>, response: Json)
    ensures
        output_shape("noul"@) == Shape::Float64,
        output_shape("ask"@) == Shape::Utf8,
        function == "choice"@ || function == "score"@ ==> (judged(function, response) matches Ok(
            value,
        ) ==> (value matches Json::Object(members) && (output_shape(
            function,
        ) matches Shape::Struct(columns) && columns.len() == members.len() && forall|i: int|
            0 <= i < members.len() ==> exists|j: int|
                0 <= j < columns.len() && (#[trigger] columns[j]) == (
                    (#[trigger] members[i]).0,
                    needs(members[i].1),
                    true,
                )))),
{
    reveal_strlit("noul");
    reveal_strlit("choice");
    reveal_strlit("score");
    reveal_strlit("ask");
    assert("noul"@.len() == 4 && "choice"@.len() == 6 && "score"@.len() == 5 && "ask"@.len()
        == 3);
    if function == "choice"@ || function == "score"@ {
        if let Ok(value) = judged(function, response) {
            let members = value->Object_0;
            let columns = output_shape(function)->Struct_0;
            assert(members.len() == 3 && columns.len() == 3);
            let (first, second, third): (int, int, int) = if function == "choice"@ {
                (1, 0, 2)
            } else {
                (1, 2, 0)
            };
            assert(columns[first] == (members[0].0, needs(members[0].1), true));
            assert(columns[second] == (members[1].0, needs(members[1].1), true));
            assert(columns[third] == (members[2].0, needs(members[2].1), true));
        }
    }
}

/// A struct column takes an object whose members all go into their fields.
pub proof fn fitting_members_are_taken(
    members: Members,
    fields: Seq<ArrowField>,
    path: Seq<char>,
)
    requires
        forall|i: int|
            0 <= i < fields.len() ==> (lookup(
                members,
                (#[trigger] fields[i]).name@,
            ) matches Some(value) ==> normal(value, fields[i], path + "."@ + fields[i].name@)
                is Ok),
    ensures
        normal_struct(members, fields, path) is Ok,
    decreases fields.len(),
{
    if fields.len() > 0 {
        let rest = fields.drop_last();
        assert forall|i: int| 0 <= i < rest.len() implies (lookup(
            members,
            (#[trigger] rest[i]).name@,
        ) matches Some(value) ==> normal(value, rest[i], path + "."@ + rest[i].name@) is Ok) by {
            assert(rest[i] == fields[i]);
        }
        fitting_members_are_taken(members, rest, path);
        assert(fields.last() == fields[fields.len() - 1]);
    }
}

} // verus!
