//! The JSON values of judgments as the cells of a column.
use std::sync::Arc;

use arrow::array::RecordBatch;
use arrow::datatypes::{DataType, Field, Schema};
use arrow::json::ReaderBuilder;

use vstd::prelude::*;
use vstd::utf8::encode_utf8;

use crate::answers::{double_bits, double_text, read_double, write_double};
use crate::canonical::{
    quote, quoted, CLOSE_ARRAY, CLOSE_OBJECT, COLON, COMMA, OPEN_ARRAY, OPEN_OBJECT,
};
use crate::json::{
    collected, container_views, fields_view, find_member, items_view, lookup, put_member, sorted,
    sorted_copy, with_field, Json, JsonValue, Members,
};
use crate::parse::NEWLINE;
use crate::text::{begins_with, decimal, decimal_text, join2, join3, same};

verus! {

/// The type of a column, as far as judgments need types.
#[derive(Debug)]
pub enum ArrowType {
    Utf8,
    Float64,
    Struct(Vec<ArrowField>),
    /// A map, by the field of its entries, and whether its keys are sorted.
    Mapping(Box<ArrowField>, bool),
    Other(OtherType),
}

/// A type that no judgment has, as far as the reader of columns tells such types apart.
#[derive(Debug)]
pub enum OtherType {
    /// A type without parts, by its name.
    Plain(String),
    /// A list of any length, by the field of its items.
    Listed(Box<ArrowField>),
    /// A list of one length, by the field of its items and the length.
    FixedList(Box<ArrowField>, i32),
    /// Bytes of one length.
    FixedBytes(i32),
    /// Runs of equal values, by the fields of their ends and of the values.
    Runs(Box<ArrowField>, Box<ArrowField>),
    /// A type that is not read from JSON, by the number of fields that a column of it is
    /// made of, itself included.
    Unread(usize),
}

/// A column or a part of one: its name, its type, whether it may be NULL, and its
/// type as it is shown in errors.
#[derive(Debug)]
pub struct ArrowField {
    pub name: String,
    pub data_type: ArrowType,
    pub nullable: bool,
    pub shown: String,
}

/// A text as Rust shows it to a developer.
pub uninterp spec fn debug_form(text: Seq<char>) -> Seq<char>;

/// `Debug` of a text in the standard library: the text in quotes, with escapes for
/// what is not printable.
#[verifier::external_body]
fn debug_text(text: &str) -> (result: String)
    ensures
        result@ == debug_form(text@),
{
    format!("{text:?}")
}

/// A JSON value as it is shown in errors.
pub open spec fn shown_json(value: Json) -> Seq<char>
    decreases value,
{
    match value {
        Json::Null => "Null"@,
        Json::Bool(true) => "Bool(true)"@,
        Json::Bool(false) => "Bool(false)"@,
        Json::Number(text) => "Number("@ + text + ")"@,
        Json::Text(text) => "String("@ + debug_form(text) + ")"@,
        Json::Array(items) => "Array ["@ + shown_items(items) + "]"@,
        Json::Object(fields) => "Object {"@ + shown_fields(fields) + "}"@,
    }
}

/// JSON values as they are shown in errors, with commas between them.
pub open spec fn shown_items(items: Seq<Json>) -> Seq<char>
    decreases items,
{
    if items.len() == 0 {
        Seq::empty()
    } else if items.len() == 1 {
        shown_json(items.last())
    } else {
        shown_items(items.drop_last()) + ", "@ + shown_json(items.last())
    }
}

/// Members as they are shown in errors, with commas between them.
pub open spec fn shown_fields(fields: Members) -> Seq<char>
    decreases fields,
{
    if fields.len() == 0 {
        Seq::empty()
    } else {
        let last = debug_form(fields.last().0) + ": "@ + shown_json(fields.last().1);
        if fields.len() == 1 {
            last
        } else {
            shown_fields(fields.drop_last()) + ", "@ + last
        }
    }
}

/// A JSON value as it is shown in errors.
fn show_json(value: &JsonValue) -> (text: String)
    ensures
        text@ == shown_json(value@),
    decreases value,
{
    broadcast use container_views;

    match value {
        JsonValue::Null => "Null".to_owned(),
        JsonValue::Bool(true) => "Bool(true)".to_owned(),
        JsonValue::Bool(false) => "Bool(false)".to_owned(),
        JsonValue::Number(text) => join3("Number(", text.as_str(), ")"),
        JsonValue::Text(text) => join3("String(", debug_text(text.as_str()).as_str(), ")"),
        JsonValue::Array(items) => {
            let ghost all = items_view(items@);
            let mut inner = String::new();
            assert(all.take(0) =~= Seq::<Json>::empty());
            for at in 0..items.len()
                invariant
                    decreases_to!(value => items@),
                    all == items_view(items@),
                    inner@ == shown_items(all.take(at as int)),
            {
                let ghost next = all.take(at as int + 1);
                assert(next.drop_last() =~= all.take(at as int));
                if at > 0 {
                    inner.append(", ");
                }
                inner.append(show_json(&items[at]).as_str());
                assert(inner@ =~= shown_items(next));
            }
            assert(all.take(all.len() as int) =~= all);
            join3("Array [", inner.as_str(), "]")
        },
        JsonValue::Object(fields) => {
            let ghost all = fields_view(fields@);
            let mut inner = String::new();
            assert(all.take(0) =~= Seq::<(Seq<char>, Json)>::empty());
            for at in 0..fields.len()
                invariant
                    decreases_to!(value => fields@),
                    all == fields_view(fields@),
                    inner@ == shown_fields(all.take(at as int)),
            {
                let ghost next = all.take(at as int + 1);
                let ghost before = inner@;
                assert(next.drop_last() =~= all.take(at as int));
                assert(next.last() == (fields@[at as int].0@, fields@[at as int].1@));
                if at > 0 {
                    inner.append(", ");
                }
                inner.append(debug_text(fields[at].0.as_str()).as_str());
                inner.append(": ");
                inner.append(show_json(&fields[at].1).as_str());
                assert(inner@ =~= shown_fields(next));
            }
            assert(all.take(all.len() as int) =~= all);
            join3("Object {", inner.as_str(), "}")
        },
    }
}

/// A value or the text of an error.
pub type Normal = Result<Json, Seq<char>>;

/// A JSON value in the shape of a type, or the text of the first error: a number is
/// the nearest binary floating-point number, and an object has the fields of a
/// struct that it holds, or the entries of a map. `path` is the place of the value.
pub open spec fn normal(value: Json, field: ArrowField, path: Seq<char>) -> Normal
    decreases field, 0int,
{
    if value is Null {
        Ok(Json::Null)
    } else {
        match field.data_type {
            ArrowType::Utf8 => match value {
                Json::Text(text) => Ok(Json::Text(text)),
                _ => Err(path + " expected Utf8 string, got "@ + shown_json(value)),
            },
            ArrowType::Float64 => match value {
                Json::Number(number) if double_text(number) is Some => Ok(
                    Json::Number(double_text(number).unwrap()),
                ),
                _ => Err(path + " expected Float64 number, got "@ + shown_json(value)),
            },
            ArrowType::Struct(fields) => match value {
                Json::Object(members) => match normal_struct(members, fields@, path) {
                    Ok(members) => Ok(Json::Object(members)),
                    Err(message) => Err(message),
                },
                _ => Err(path + " expected object, got "@ + shown_json(value)),
            },
            ArrowType::Mapping(entries, _) => match entries.data_type {
                ArrowType::Struct(pair) if pair@.len() == 2 => match value {
                    Json::Object(members) => match normal_map(collected(members), pair@[1], path) {
                        Ok(members) => Ok(Json::Object(members)),
                        Err(message) => Err(message),
                    },
                    _ => Err(path + " expected object map, got "@ + shown_json(value)),
                },
                _ => Err(path + " has invalid Arrow Map entries "@ + entries.shown@),
            },
            ArrowType::Other(_) => Err(path + " has unsupported nested Arrow type "@ + field.shown@),
        }
    }
}

/// The members of an object that are fields of a struct, each in the shape of its
/// field, in the order of their names.
pub open spec fn normal_struct(
    members: Members,
    fields: Seq<ArrowField>,
    path: Seq<char>,
) -> Result<Members, Seq<char>>
    decreases fields, 0int,
{
    if fields.len() == 0 {
        Ok(Seq::empty())
    } else {
        let field = fields.last();
        match normal_struct(members, fields.drop_last(), path) {
            Err(message) => Err(message),
            Ok(done) => match lookup(members, field.name@) {
                None => Ok(done),
                Some(child) => match normal(child, field, path + "."@ + field.name@) {
                    Err(message) => Err(message),
                    Ok(value) => Ok(with_field(done, field.name@, value)),
                },
            },
        }
    }
}

/// The members of an object, each in the shape of the value of a map.
pub open spec fn normal_map(members: Members, value_field: ArrowField, path: Seq<char>) -> Result<
    Members,
    Seq<char>,
>
    decreases value_field, 1 + members.len(),
{
    if members.len() == 0 {
        Ok(Seq::empty())
    } else {
        let last = members.last();
        match normal_map(members.drop_last(), value_field, path) {
            Err(message) => Err(message),
            Ok(done) => match normal(last.1, value_field, path + "."@ + last.0) {
                Err(message) => Err(message),
                Ok(value) => Ok(done.push((last.0, value))),
            },
        }
    }
}

/// An error in the first fields is the error of all of them.
proof fn normal_struct_error(
    members: Members,
    fields: Seq<ArrowField>,
    path: Seq<char>,
    count: int,
)
    requires
        0 <= count <= fields.len(),
        normal_struct(members, fields.take(count), path) is Err,
    ensures
        normal_struct(members, fields, path) == normal_struct(members, fields.take(count), path),
    decreases fields.len() - count,
{
    if count < fields.len() {
        assert(fields.take(count + 1).drop_last() =~= fields.take(count));
        normal_struct_error(members, fields, path, count + 1);
    } else {
        assert(fields.take(count) =~= fields);
    }
}

/// An error in the first members is the error of all of them.
proof fn normal_map_error(
    members: Members,
    value_field: ArrowField,
    path: Seq<char>,
    count: int,
)
    requires
        0 <= count <= members.len(),
        normal_map(members.take(count), value_field, path) is Err,
    ensures
        normal_map(members, value_field, path) == normal_map(
            members.take(count),
            value_field,
            path,
        ),
    decreases members.len() - count,
{
    if count < members.len() {
        assert(members.take(count + 1).drop_last() =~= members.take(count));
        normal_map_error(members, value_field, path, count + 1);
    } else {
        assert(members.take(count) =~= members);
    }
}

/// A JSON value in the shape of a type.
pub fn normalize_value(value: &JsonValue, field: &ArrowField, path: &str) -> (result: Result<
    JsonValue,
    String,
>)
    ensures
        match result {
            Ok(json) => normal(value@, *field, path@) == Normal::Ok(json@),
            Err(message) => normal(value@, *field, path@) == Normal::Err(message@),
        },
    decreases field, 1int,
{
    broadcast use container_views;

    if let JsonValue::Null = value {
        return Ok(JsonValue::Null);
    }
    match &field.data_type {
        ArrowType::Utf8 => match value {
            JsonValue::Text(text) => Ok(JsonValue::Text(text.clone())),
            _ => Err(join3(path, " expected Utf8 string, got ", show_json(value).as_str())),
        },
        ArrowType::Float64 => {
            let number = match value {
                JsonValue::Number(number) => write_double(number.as_str()),
                _ => None,
            };
            match number {
                Some(text) => Ok(JsonValue::Number(text)),
                None => Err(
                    join3(path, " expected Float64 number, got ", show_json(value).as_str()),
                ),
            }
        },
        ArrowType::Struct(fields) => match value {
            JsonValue::Object(members) => match normalize_struct(field, members, fields, path) {
                Ok(members) => Ok(JsonValue::Object(members)),
                Err(message) => Err(message),
            },
            _ => Err(join3(path, " expected object, got ", show_json(value).as_str())),
        },
        ArrowType::Mapping(entries, _) => match &entries.data_type {
            ArrowType::Struct(pair) if pair.len() == 2 => match value {
                JsonValue::Object(members) => {
                    let members = sorted_copy(members);
                    match normalize_map(field, &members, &pair[1], path) {
                        Ok(members) => Ok(JsonValue::Object(members)),
                        Err(message) => Err(message),
                    }
                },
                _ => Err(join3(path, " expected object map, got ", show_json(value).as_str())),
            },
            _ => Err(join3(path, " has invalid Arrow Map entries ", entries.shown.as_str())),
        },
        ArrowType::Other(_) => Err(
            join3(path, " has unsupported nested Arrow type ", field.shown.as_str()),
        ),
    }
}

/// The members of an object that are fields of a struct.
fn normalize_struct(
    field: &ArrowField,
    members: &Vec<(String, JsonValue)>,
    fields: &Vec<ArrowField>,
    path: &str,
) -> (result: Result<Vec<(String, JsonValue)>, String>)
    requires
        decreases_to!(field => fields@),
    ensures
        ({
            let expected = normal_struct(fields_view(members@), fields@, path@);
            match result {
                Ok(done) => expected == Ok::<_, Seq<char>>(fields_view(done@)),
                Err(message) => expected == Err::<Members, _>(message@),
            }
        }),
    decreases field, 0int,
{
    let ghost all = fields_view(members@);
    let mut done: Vec<(String, JsonValue)> = Vec::new();
    proof {
        assert(fields_view(done@) =~= Seq::<(Seq<char>, Json)>::empty());
        assert(fields@.take(0) =~= Seq::<ArrowField>::empty());
    }
    for at in 0..fields.len()
        invariant
            decreases_to!(field => fields@),
            all == fields_view(members@),
            normal_struct(all, fields@.take(at as int), path@) == Ok::<_, Seq<char>>(
                fields_view(done@),
            ),
            sorted(fields_view(done@)),
    {
        let ghost next = fields@.take(at as int + 1);
        assert(next.drop_last() =~= fields@.take(at as int));
        let name = fields[at].name.as_str();
        if let Some(child) = find_member(members, name) {
            let child_path = join3(path, ".", name);
            match normalize_value(child, &fields[at], child_path.as_str()) {
                Ok(json) => {
                    put_member(&mut done, fields[at].name.clone(), json);
                },
                Err(message) => {
                    proof {
                        normal_struct_error(all, fields@, path@, at as int + 1);
                    }
                    return Err(message);
                },
            }
        }
    }
    assert(fields@.take(fields@.len() as int) =~= fields@);
    Ok(done)
}

/// The members of an object as the entries of a map.
fn normalize_map(
    field: &ArrowField,
    members: &Vec<(String, JsonValue)>,
    value_field: &ArrowField,
    path: &str,
) -> (result: Result<Vec<(String, JsonValue)>, String>)
    requires
        decreases_to!(field => value_field),
    ensures
        ({
            let expected = normal_map(fields_view(members@), *value_field, path@);
            match result {
                Ok(done) => expected == Ok::<_, Seq<char>>(fields_view(done@)),
                Err(message) => expected == Err::<Members, _>(message@),
            }
        }),
    decreases field, 0int,
{
    let ghost all = fields_view(members@);
    let mut done: Vec<(String, JsonValue)> = Vec::new();
    proof {
        assert(fields_view(done@) =~= Seq::<(Seq<char>, Json)>::empty());
        assert(all.take(0) =~= Seq::<(Seq<char>, Json)>::empty());
    }
    for at in 0..members.len()
        invariant
            decreases_to!(field => value_field),
            all == fields_view(members@),
            normal_map(all.take(at as int), *value_field, path@) == Ok::<_, Seq<char>>(
                fields_view(done@),
            ),
    {
        let ghost next = all.take(at as int + 1);
        let ghost before = fields_view(done@);
        proof {
            assert(next.drop_last() =~= all.take(at as int));
            assert(next.last() == (members@[at as int].0@, members@[at as int].1@));
        }
        let child_path = join3(path, ".", members[at].0.as_str());
        match normalize_value(&members[at].1, value_field, child_path.as_str()) {
            Ok(json) => {
                let ghost entry = (members@[at as int].0@, json@);
                done.push((members[at].0.clone(), json));
                assert(fields_view(done@) =~= before.push(entry));
            },
            Err(message) => {
                proof {
                    normal_map_error(all, *value_field, path@, at as int + 1);
                }
                return Err(message);
            },
        }
    }
    assert(all.take(all.len() as int) =~= all);
    Ok(done)
}

/// The bytes of a value with its numbers as they stand.
pub open spec fn plain_bytes(value: Json) -> Seq<u8>
    decreases value,
{
    match value {
        Json::Null => encode_utf8("null"@),
        Json::Bool(true) => encode_utf8("true"@),
        Json::Bool(false) => encode_utf8("false"@),
        Json::Number(text) => encode_utf8(text),
        Json::Text(text) => encode_utf8(quoted(text)),
        Json::Array(items) => seq![OPEN_ARRAY] + plain_items(items) + seq![CLOSE_ARRAY],
        Json::Object(fields) => seq![OPEN_OBJECT] + plain_fields(fields) + seq![CLOSE_OBJECT],
    }
}

/// The bytes of values with commas between them.
pub open spec fn plain_items(items: Seq<Json>) -> Seq<u8>
    decreases items,
{
    if items.len() == 0 {
        Seq::empty()
    } else if items.len() == 1 {
        plain_bytes(items.last())
    } else {
        plain_items(items.drop_last()) + seq![COMMA] + plain_bytes(items.last())
    }
}

/// The bytes of members with commas between them.
pub open spec fn plain_fields(fields: Members) -> Seq<u8>
    decreases fields,
{
    if fields.len() == 0 {
        Seq::empty()
    } else {
        let last = encode_utf8(quoted(fields.last().0)) + seq![COLON] + plain_bytes(
            fields.last().1,
        );
        if fields.len() == 1 {
            last
        } else {
            plain_fields(fields.drop_last()) + seq![COMMA] + last
        }
    }
}

/// Adds some bytes.
fn add_bytes(output: &mut Vec<u8>, more: &[u8])
    ensures
        final(output)@ == old(output)@ + more@,
{
    let ghost before = output@;
    output.extend_from_slice(more);
    assert(output@ =~= before + more@);
}

/// Writes a value with its numbers as they stand.
fn write_plain(value: &JsonValue, output: &mut Vec<u8>)
    ensures
        final(output)@ == old(output)@ + plain_bytes(value@),
    decreases value,
{
    broadcast use container_views;

    let ghost start = output@;
    match value {
        JsonValue::Null => add_bytes(output, "null".as_bytes()),
        JsonValue::Bool(true) => add_bytes(output, "true".as_bytes()),
        JsonValue::Bool(false) => add_bytes(output, "false".as_bytes()),
        JsonValue::Number(text) => add_bytes(output, text.as_str().as_bytes()),
        JsonValue::Text(text) => add_bytes(output, quote(text.as_str()).as_str().as_bytes()),
        JsonValue::Array(items) => {
            let ghost all = items_view(items@);
            output.push(OPEN_ARRAY);
            assert(all.take(0) =~= Seq::<Json>::empty());
            assert(output@ =~= start + seq![OPEN_ARRAY] + plain_items(all.take(0)));
            for at in 0..items.len()
                invariant
                    decreases_to!(value => items@),
                    all == items_view(items@),
                    output@ == start + seq![OPEN_ARRAY] + plain_items(all.take(at as int)),
            {
                let ghost next = all.take(at as int + 1);
                assert(next.drop_last() =~= all.take(at as int));
                assert(next.last() == items@[at as int]@);
                if at > 0 {
                    output.push(COMMA);
                }
                write_plain(&items[at], output);
                assert(output@ =~= start + seq![OPEN_ARRAY] + plain_items(next));
            }
            assert(all.take(all.len() as int) =~= all);
            output.push(CLOSE_ARRAY);
            assert(output@ =~= start + plain_bytes(value@));
        },
        JsonValue::Object(fields) => {
            let ghost all = fields_view(fields@);
            output.push(OPEN_OBJECT);
            assert(all.take(0) =~= Seq::<(Seq<char>, Json)>::empty());
            assert(output@ =~= start + seq![OPEN_OBJECT] + plain_fields(all.take(0)));
            for at in 0..fields.len()
                invariant
                    decreases_to!(value => fields@),
                    all == fields_view(fields@),
                    output@ == start + seq![OPEN_OBJECT] + plain_fields(all.take(at as int)),
            {
                let ghost next = all.take(at as int + 1);
                assert(next.drop_last() =~= all.take(at as int));
                assert(next.last() == (fields@[at as int].0@, fields@[at as int].1@));
                if at > 0 {
                    output.push(COMMA);
                }
                add_bytes(output, quote(fields[at].0.as_str()).as_str().as_bytes());
                output.push(COLON);
                write_plain(&fields[at].1, output);
                assert(output@ =~= start + seq![OPEN_OBJECT] + plain_fields(next));
            }
            assert(all.take(all.len() as int) =~= all);
            output.push(CLOSE_OBJECT);
            assert(output@ =~= start + plain_bytes(value@));
        },
    }
}

/// The text of an error in a row of a column.
pub open spec fn row_message(name: Seq<char>, row: nat, message: Seq<char>) -> Seq<char> {
    "row "@ + decimal(row) + " field "@ + debug_form(name) + ": "@ + message
}

/// The text of an error in a row of a column.
fn row_error(name: &str, row: usize, message: &str) -> (text: String)
    ensures
        text@ == row_message(name@, row as nat, message@),
{
    let mut text = join3("row ", decimal_text(row as u64).as_str(), " field ");
    text.append(debug_text(name).as_str());
    text.append(": ");
    text.append(message);
    text
}

/// The text cells of a column, or the text of the first error.
pub open spec fn text_cells(name: Seq<char>, values: Seq<Json>) -> Result<
    Seq<Option<Seq<char>>>,
    Seq<char>,
>
    decreases values.len(),
{
    if values.len() == 0 {
        Ok(Seq::empty())
    } else {
        match text_cells(name, values.drop_last()) {
            Err(message) => Err(message),
            Ok(done) => match values.last() {
                Json::Null => Ok(done.push(None)),
                Json::Text(text) => Ok(done.push(Some(text))),
                _ => Err(
                    row_message(
                        name,
                        (values.len() - 1) as nat,
                        "expected Utf8 string, got "@ + shown_json(values.last()),
                    ),
                ),
            },
        }
    }
}

/// The number cells of a column, as the bits of binary floating-point numbers, or
/// the text of the first error.
pub open spec fn number_cells(name: Seq<char>, values: Seq<Json>) -> Result<
    Seq<Option<u64>>,
    Seq<char>,
>
    decreases values.len(),
{
    if values.len() == 0 {
        Ok(Seq::empty())
    } else {
        match number_cells(name, values.drop_last()) {
            Err(message) => Err(message),
            Ok(done) => match values.last() {
                Json::Null => Ok(done.push(None)),
                Json::Number(number) if double_bits(number) is Some => Ok(
                    done.push(double_bits(number)),
                ),
                _ => Err(
                    row_message(name, (values.len() - 1) as nat, "expected Float64 number"@),
                ),
            },
        }
    }
}

/// The rows of a nested column as lines of JSON, each an object with the cell under
/// the name of the column, or the text of the first error.
pub open spec fn lines(field: ArrowField, values: Seq<Json>) -> Result<Seq<u8>, Seq<char>>
    decreases values.len(),
{
    if values.len() == 0 {
        Ok(Seq::empty())
    } else {
        match lines(field, values.drop_last()) {
            Err(message) => Err(message),
            Ok(done) => match normal(values.last(), field, field.name@) {
                Err(message) => Err(row_message(field.name@, (values.len() - 1) as nat, message)),
                Ok(value) => {
                    let line = plain_bytes(Json::Object(seq![(field.name@, value)]));
                    if values.len() == 1 {
                        Ok(line)
                    } else {
                        Ok(done + seq![NEWLINE] + line)
                    }
                },
            },
        }
    }
}

/// Errors in the first rows are errors of the column.
proof fn cells_error(field: ArrowField, values: Seq<Json>, count: int)
    requires
        0 <= count <= values.len(),
    ensures
        text_cells(field.name@, values.take(count)) is Err ==> text_cells(field.name@, values)
            == text_cells(field.name@, values.take(count)),
        number_cells(field.name@, values.take(count)) is Err ==> number_cells(field.name@, values)
            == number_cells(field.name@, values.take(count)),
        lines(field, values.take(count)) is Err ==> lines(field, values) == lines(
            field,
            values.take(count),
        ),
    decreases values.len() - count,
{
    if count < values.len() {
        assert(values.take(count + 1).drop_last() =~= values.take(count));
        cells_error(field, values, count + 1);
    } else {
        assert(values.take(count) =~= values);
    }
}

/// The texts of cells.
pub open spec fn texts_view(cells: Seq<Option<String>>) -> Seq<Option<Seq<char>>> {
    Seq::new(
        cells.len(),
        |i: int|
            match cells[i] {
                Some(text) => Some(text@),
                None => None,
            },
    )
}

/// The text cells of a column.
fn build_utf8(field: &ArrowField, values: &Vec<JsonValue>) -> (result: Result<
    Vec<Option<String>>,
    String,
>)
    ensures
        match result {
            Ok(cells) => text_cells(field.name@, items_view(values@)) == Ok::<_, Seq<char>>(
                texts_view(cells@),
            ),
            Err(message) => text_cells(field.name@, items_view(values@)) == Err::<
                Seq<Option<Seq<char>>>,
                _,
            >(message@),
        },
{
    let ghost all = items_view(values@);
    let mut cells: Vec<Option<String>> = Vec::new();
    assert(texts_view(cells@) =~= Seq::<Option<Seq<char>>>::empty());
    for row in 0..values.len()
        invariant
            all == items_view(values@),
            text_cells(field.name@, all.take(row as int)) == Ok::<_, Seq<char>>(texts_view(cells@)),
    {
        let ghost next = all.take(row as int + 1);
        let ghost before = texts_view(cells@);
        assert(next.drop_last() =~= all.take(row as int));
        match &values[row] {
            JsonValue::Null => {
                cells.push(None);
                assert(texts_view(cells@) =~= before.push(None));
            },
            JsonValue::Text(text) => {
                cells.push(Some(text.clone()));
                assert(texts_view(cells@) =~= before.push(Some(text@)));
            },
            other => {
                proof {
                    cells_error(*field, all, row as int + 1);
                }
                let message = join2("expected Utf8 string, got ", show_json(other).as_str());
                return Err(row_error(field.name.as_str(), row, message.as_str()));
            },
        }
    }
    assert(all.take(all.len() as int) =~= all);
    Ok(cells)
}

/// The number cells of a column.
fn build_f64(field: &ArrowField, values: &Vec<JsonValue>) -> (result: Result<
    Vec<Option<u64>>,
    String,
>)
    ensures
        match result {
            Ok(cells) => number_cells(field.name@, items_view(values@)) == Ok::<_, Seq<char>>(
                cells@,
            ),
            Err(message) => number_cells(field.name@, items_view(values@)) == Err::<
                Seq<Option<u64>>,
                _,
            >(message@),
        },
{
    let ghost all = items_view(values@);
    let mut cells: Vec<Option<u64>> = Vec::new();
    assert(cells@ =~= Seq::<Option<u64>>::empty());
    for row in 0..values.len()
        invariant
            all == items_view(values@),
            number_cells(field.name@, all.take(row as int)) == Ok::<_, Seq<char>>(cells@),
    {
        let ghost next = all.take(row as int + 1);
        assert(next.drop_last() =~= all.take(row as int));
        let cell = match &values[row] {
            JsonValue::Null => Some(None),
            JsonValue::Number(number) => match read_double(number.as_str()) {
                Some(bits) => Some(Some(bits)),
                None => None,
            },
            _ => None,
        };
        match cell {
            Some(cell) => cells.push(cell),
            None => {
                proof {
                    cells_error(*field, all, row as int + 1);
                }
                return Err(row_error(field.name.as_str(), row, "expected Float64 number"));
            },
        }
    }
    assert(all.take(all.len() as int) =~= all);
    Ok(cells)
}

/// The rows of a nested column as lines of JSON.
fn build_nested(field: &ArrowField, values: &Vec<JsonValue>) -> (result: Result<Vec<u8>, String>)
    ensures
        match result {
            Ok(encoded) => lines(*field, items_view(values@)) == Ok::<_, Seq<char>>(encoded@),
            Err(message) => lines(*field, items_view(values@)) == Err::<Seq<u8>, _>(message@),
        },
{
    broadcast use container_views;

    let ghost all = items_view(values@);
    let mut encoded: Vec<u8> = Vec::new();
    assert(encoded@ =~= Seq::<u8>::empty());
    for row in 0..values.len()
        invariant
            all == items_view(values@),
            lines(*field, all.take(row as int)) == Ok::<_, Seq<char>>(encoded@),
    {
        let ghost next = all.take(row as int + 1);
        let ghost before = encoded@;
        assert(next.drop_last() =~= all.take(row as int));
        match normalize_value(&values[row], field, field.name.as_str()) {
            Ok(value) => {
                let ghost cell = value@;
                let mut fields: Vec<(String, JsonValue)> = Vec::new();
                fields.push((field.name.clone(), value));
                assert(fields_view(fields@) =~= seq![(field.name@, cell)]);
                if row > 0 {
                    encoded.push(NEWLINE);
                }
                write_plain(&JsonValue::Object(fields), &mut encoded);
                proof {
                    let line = plain_bytes(Json::Object(seq![(field.name@, cell)]));
                    if row > 0 {
                        assert(encoded@ =~= before + seq![NEWLINE] + line);
                    } else {
                        assert(before =~= Seq::<u8>::empty());
                        assert(encoded@ =~= line);
                    }
                }
            },
            Err(message) => {
                proof {
                    cells_error(*field, all, row as int + 1);
                }
                return Err(row_error(field.name.as_str(), row, message.as_str()));
            },
        }
    }
    assert(all.take(all.len() as int) =~= all);
    Ok(encoded)
}

/// The cells of a column.
#[derive(Debug)]
pub enum ColumnCells {
    Text(Vec<Option<String>>),
    /// The bits of binary floating-point numbers.
    Number(Vec<Option<u64>>),
    /// Lines of JSON, one object for each row with the cell under the name of the
    /// column.
    Lines(Vec<u8>),
}

/// The cells of a column for the values of its rows.
pub fn column_cells(field: &ArrowField, values: &Vec<JsonValue>) -> (result: Result<
    ColumnCells,
    String,
>)
    ensures
        match field.data_type {
            ArrowType::Utf8 => match result {
                Ok(ColumnCells::Text(cells)) => text_cells(field.name@, items_view(values@)) == Ok::<
                    _,
                    Seq<char>,
                >(texts_view(cells@)),
                Ok(_) => false,
                Err(message) => text_cells(field.name@, items_view(values@)) == Err::<
                    Seq<Option<Seq<char>>>,
                    _,
                >(message@),
            },
            ArrowType::Float64 => match result {
                Ok(ColumnCells::Number(cells)) => number_cells(field.name@, items_view(values@))
                    == Ok::<_, Seq<char>>(cells@),
                Ok(_) => false,
                Err(message) => number_cells(field.name@, items_view(values@)) == Err::<
                    Seq<Option<u64>>,
                    _,
                >(message@),
            },
            ArrowType::Struct(_) | ArrowType::Mapping(_, _) => match result {
                Ok(ColumnCells::Lines(encoded)) => lines(*field, items_view(values@)) == Ok::<
                    _,
                    Seq<char>,
                >(encoded@),
                Ok(_) => false,
                Err(message) => lines(*field, items_view(values@)) == Err::<Seq<u8>, _>(message@),
            },
            ArrowType::Other(_) => result matches Err(message) && message@ == "field "@ + debug_form(
                field.name@,
            ) + " has unsupported Arrow data type "@ + field.shown@,
        },
{
    match &field.data_type {
        ArrowType::Utf8 => match build_utf8(field, values) {
            Ok(cells) => Ok(ColumnCells::Text(cells)),
            Err(message) => Err(message),
        },
        ArrowType::Float64 => match build_f64(field, values) {
            Ok(cells) => Ok(ColumnCells::Number(cells)),
            Err(message) => Err(message),
        },
        ArrowType::Struct(_) | ArrowType::Mapping(_, _) => match build_nested(field, values) {
            Ok(encoded) => Ok(ColumnCells::Lines(encoded)),
            Err(message) => Err(message),
        },
        ArrowType::Other(_) => {
            let mut message = join3(
                "field ",
                debug_text(field.name.as_str()).as_str(),
                " has unsupported Arrow data type ",
            );
            message.append(field.shown.as_str());
            Err(message)
        },
    }
}

/// The meaning of an [`ArrowField`], without the text in which its type is shown.
pub ghost struct FieldInfo {
    pub name: Seq<char>,
    pub kind: Kind,
    pub nullable: bool,
}

/// The meaning of an [`ArrowType`].
pub ghost enum Kind {
    Utf8,
    Float64,
    Struct(Seq<FieldInfo>),
    Mapping(Box<FieldInfo>, bool),
    Other(OtherKind),
}

/// The meaning of an [`OtherType`].
pub ghost enum OtherKind {
    Plain(Seq<char>),
    Listed(Box<FieldInfo>),
    FixedList(Box<FieldInfo>, int),
    FixedBytes(int),
    Runs(Box<FieldInfo>, Box<FieldInfo>),
    Unread(nat),
}

/// The meaning of a column or a part of one.
pub open spec fn info(field: ArrowField) -> FieldInfo
    decreases field,
{
    FieldInfo {
        name: field.name@,
        kind: match field.data_type {
            ArrowType::Utf8 => Kind::Utf8,
            ArrowType::Float64 => Kind::Float64,
            ArrowType::Struct(fields) => Kind::Struct(infos(fields@)),
            ArrowType::Mapping(entries, sorted) => Kind::Mapping(
                Box::new(info(*entries)),
                sorted,
            ),
            ArrowType::Other(other) => Kind::Other(
                match other {
                    OtherType::Plain(name) => OtherKind::Plain(name@),
                    OtherType::Listed(item) => OtherKind::Listed(Box::new(info(*item))),
                    OtherType::FixedList(item, length) => OtherKind::FixedList(
                        Box::new(info(*item)),
                        length as int,
                    ),
                    OtherType::FixedBytes(length) => OtherKind::FixedBytes(length as int),
                    OtherType::Runs(ends, values) => OtherKind::Runs(
                        Box::new(info(*ends)),
                        Box::new(info(*values)),
                    ),
                    OtherType::Unread(parts) => OtherKind::Unread(parts as nat),
                },
            ),
        },
        nullable: field.nullable,
    }
}

/// The meanings of some parts.
pub open spec fn infos(fields: Seq<ArrowField>) -> Seq<FieldInfo>
    decreases fields,
{
    if fields.len() == 0 {
        Seq::empty()
    } else {
        infos(fields.drop_last()).push(info(fields.last()))
    }
}

/// The meaning of each of some parts.
proof fn infos_each(fields: Seq<ArrowField>)
    ensures
        infos(fields).len() == fields.len(),
        forall|i: int| 0 <= i < fields.len() ==> #[trigger] infos(fields)[i] == info(fields[i]),
    decreases fields.len(),
{
    if fields.len() > 0 {
        infos_each(fields.drop_last());
    }
}

/// How many fields a column is made of, itself included.
pub open spec fn parts(field: FieldInfo) -> nat
    decreases field,
{
    match field.kind {
        Kind::Utf8 => 1,
        Kind::Float64 => 1,
        Kind::Struct(fields) => 1 + all_parts(fields),
        Kind::Mapping(entries, _) => 1 + parts(*entries),
        Kind::Other(other) => match other {
            OtherKind::Plain(_) => 1,
            OtherKind::Listed(item) => 1 + parts(*item),
            OtherKind::FixedList(item, _) => 1 + parts(*item),
            OtherKind::FixedBytes(_) => 1,
            OtherKind::Runs(_, values) => 1 + parts(*values),
            OtherKind::Unread(count) => count,
        },
    }
}

/// How many fields some parts are made of.
pub open spec fn all_parts(fields: Seq<FieldInfo>) -> nat
    decreases fields,
{
    if fields.len() == 0 {
        0
    } else {
        all_parts(fields.drop_last()) + parts(fields.last())
    }
}

/// A field of a schema.
#[verifier::external_type_specification]
#[verifier::external_body]
pub struct ExField(arrow::datatypes::Field);

/// What the library knows of a field of a schema.
pub uninterp spec fn described(field: Field) -> FieldInfo;

/// The type of a field, down to the fields that it is made of.
enum Layer {
    Utf8,
    Float64,
    Struct(Vec<Arc<Field>>),
    Mapping(Arc<Field>, bool),
    Other,
}

/// A type that no judgment has, down to the fields that it is made of.
enum OtherLayer {
    Plain(String),
    Listed(Arc<Field>),
    FixedList(Arc<Field>, i32),
    FixedBytes(i32),
    Runs(Arc<Field>, Arc<Field>),
    Unread(usize),
}

/// What the library knows of some fields.
pub open spec fn descriptions(fields: Seq<Arc<Field>>) -> Seq<FieldInfo> {
    Seq::new(fields.len(), |i: int| described(*fields[i]))
}

/// `name` and `is_nullable` of an `arrow::datatypes::Field`, and the `Debug` of its type.
/// Nothing is said of the text of `Debug`, which shows metadata in the order of a hash
/// table.
#[verifier::external_body]
fn field_labels(field: &Field) -> (labels: (String, bool, String))
    ensures
        labels.0@ == described(*field).name,
        labels.1 == described(*field).nullable,
{
    (field.name().clone(), field.is_nullable(), format!("{:?}", field.data_type()))
}

/// `data_type` of an `arrow::datatypes::Field`, where it is one that a judgment can have.
#[verifier::external_body]
fn field_layer(field: &Field) -> (layer: Layer)
    ensures
        described(*field).kind == match layer {
            Layer::Utf8 => Kind::Utf8,
            Layer::Float64 => Kind::Float64,
            Layer::Struct(fields) => Kind::Struct(descriptions(fields@)),
            Layer::Mapping(entries, sorted) => Kind::Mapping(Box::new(described(*entries)), sorted),
            Layer::Other => Kind::Other(described(*field).kind->Other_0),
        },
{
    match field.data_type() {
        DataType::Utf8 => Layer::Utf8,
        DataType::Float64 => Layer::Float64,
        DataType::Struct(fields) => Layer::Struct(fields.to_vec()),
        DataType::Map(entries, sorted) => Layer::Mapping(entries.clone(), *sorted),
        _ => Layer::Other,
    }
}

/// `data_type` of an `arrow::datatypes::Field`, where it is one that no judgment has. A type
/// without parts is told by its `Debug`. Dictionaries and unions are not read from JSON; of
/// them `Schema::flattened_fields` says how many fields they are made of.
#[verifier::external_body]
fn other_layer(field: &Field) -> (layer: OtherLayer)
    ensures
        described(*field).kind matches Kind::Other(kind) ==> kind == match layer {
            OtherLayer::Plain(name) => OtherKind::Plain(name@),
            OtherLayer::Listed(item) => OtherKind::Listed(Box::new(described(*item))),
            OtherLayer::FixedList(item, length) => OtherKind::FixedList(
                Box::new(described(*item)),
                length as int,
            ),
            OtherLayer::FixedBytes(length) => OtherKind::FixedBytes(length as int),
            OtherLayer::Runs(ends, values) => OtherKind::Runs(
                Box::new(described(*ends)),
                Box::new(described(*values)),
            ),
            OtherLayer::Unread(count) => OtherKind::Unread(count as nat),
        },
{
    match field.data_type() {
        DataType::List(item) | DataType::LargeList(item) => OtherLayer::Listed(item.clone()),
        DataType::ListView(item) | DataType::LargeListView(item) => {
            OtherLayer::Listed(item.clone())
        }
        DataType::FixedSizeList(item, length) => OtherLayer::FixedList(item.clone(), *length),
        DataType::FixedSizeBinary(length) => OtherLayer::FixedBytes(*length),
        DataType::RunEndEncoded(ends, values) => OtherLayer::Runs(ends.clone(), values.clone()),
        DataType::Dictionary(_, _) | DataType::Union(_, _) => OtherLayer::Unread(
            Schema::new(vec![field.clone()]).flattened_fields().len(),
        ),
        other => OtherLayer::Plain(format!("{other:?}")),
    }
}

/// A field of a schema as plain values.
fn plain_field(field: &Field) -> (result: ArrowField)
    ensures
        info(result) == described(*field),
    decreases described(*field),
{
    let (name, nullable, shown) = field_labels(field);
    let ghost known = described(*field);
    let data_type = match field_layer(field) {
        Layer::Utf8 => ArrowType::Utf8,
        Layer::Float64 => ArrowType::Float64,
        Layer::Struct(fields) => {
            let mut plain: Vec<ArrowField> = Vec::new();
            for at in 0..fields.len()
                invariant
                    known == described(*field),
                    known.kind == Kind::Struct(descriptions(fields@)),
                    plain@.len() == at,
                    forall|i: int|
                        0 <= i < at ==> info(#[trigger] plain@[i]) == described(*fields@[i]),
            {
                assert(known.kind->Struct_0[at as int] == described(*fields@[at as int]));
                assert(decreases_to!(known => known.kind->Struct_0[at as int]));
                plain.push(plain_field(&fields[at]));
            }
            proof {
                infos_each(plain@);
                assert(infos(plain@) =~= descriptions(fields@));
            }
            ArrowType::Struct(plain)
        },
        Layer::Mapping(entries, sorted) => {
            assert(decreases_to!(known => *known.kind->Mapping_0));
            ArrowType::Mapping(Box::new(plain_field(&entries)), sorted)
        },
        Layer::Other => ArrowType::Other(
            match other_layer(field) {
                OtherLayer::Plain(name) => OtherType::Plain(name),
                OtherLayer::Listed(item) => {
                    assert(decreases_to!(known => *known.kind->Other_0->Listed_0));
                    OtherType::Listed(Box::new(plain_field(&item)))
                },
                OtherLayer::FixedList(item, length) => {
                    assert(decreases_to!(known => *known.kind->Other_0->FixedList_0));
                    OtherType::FixedList(Box::new(plain_field(&item)), length)
                },
                OtherLayer::FixedBytes(length) => OtherType::FixedBytes(length),
                OtherLayer::Runs(ends, values) => {
                    assert(decreases_to!(known => *known.kind->Other_0->Runs_0));
                    assert(decreases_to!(known => *known.kind->Other_0->Runs_1));
                    OtherType::Runs(
                        Box::new(plain_field(&ends)),
                        Box::new(plain_field(&values)),
                    )
                },
                OtherLayer::Unread(count) => OtherType::Unread(count),
            },
        ),
    };
    ArrowField { name, data_type, nullable, shown }
}

/// A column as the query engine has it, and what the library knows of it.
pub struct ColumnField {
    pub source: Field,
    pub plain: ArrowField,
}

impl ColumnField {
    /// Whether what the library knows is true of the column.
    pub open spec fn well_formed(&self) -> bool {
        info(self.plain) == described(self.source)
    }

    /// A column of the query engine.
    pub fn new(source: Field) -> (field: ColumnField)
        ensures
            field.well_formed(),
            field.source == source,
    {
        let plain = plain_field(&source);
        ColumnField { source, plain }
    }
}

/// A column of a batch.
#[verifier::external_body]
pub struct Column {
    pub array: arrow::array::ArrayRef,
}

/// What a column holds: texts, the bits of binary floating-point numbers, or structured
/// values.
pub ghost enum Cells {
    Texts(Seq<Option<Seq<char>>>),
    Bits(Seq<Option<u64>>),
    Structured(Seq<Json>),
}

/// What a column holds.
pub uninterp spec fn cells(column: Column) -> Cells;

/// How many bytes the texts of cells take.
pub open spec fn text_bytes(cells: Seq<Option<Seq<char>>>) -> nat
    decreases cells.len(),
{
    if cells.len() == 0 {
        0
    } else {
        text_bytes(cells.drop_last()) + match cells.last() {
            Some(text) => encode_utf8(text).len(),
            None => 0,
        }
    }
}

/// How many bytes the texts among values take.
pub open spec fn texts_size(values: Seq<Json>) -> nat
    decreases values.len(),
{
    if values.len() == 0 {
        0
    } else {
        texts_size(values.drop_last()) + match values.last() {
            Json::Text(text) => encode_utf8(text).len(),
            _ => 0,
        }
    }
}

/// The texts of cells take as many bytes as those among the values.
proof fn text_cells_size(name: Seq<char>, values: Seq<Json>)
    ensures
        text_cells(name, values) matches Ok(cells) ==> text_bytes(cells) == texts_size(values),
    decreases values.len(),
{
    if values.len() > 0 {
        text_cells_size(name, values.drop_last());
        if let Ok(done) = text_cells(name, values.drop_last()) {
            if let Ok(cells) = text_cells(name, values) {
                assert(cells.drop_last() =~= done);
            }
        }
    }
}

/// `arrow::array::StringArray` from texts, of which some may be missing. It addresses
/// their bytes by signed integers of 32 bits.
#[verifier::external_body]
fn text_column(texts: Vec<Option<String>>) -> (column: Column)
    requires
        text_bytes(texts_view(texts@)) <= i32::MAX,
    ensures
        cells(column) == Cells::Texts(texts_view(texts@)),
{
    Column { array: Arc::new(arrow::array::StringArray::from(texts)) }
}

/// `arrow::array::UInt64Array` from integers, of which some may be missing, whose data
/// is then built again with the type of binary floating-point numbers. Both types take
/// eight bytes for a number, so that the data is valid for either.
#[verifier::external_body]
fn number_column(bits: Vec<Option<u64>>) -> (column: Option<Column>)
    ensures
        column matches Some(column) && cells(column) == Cells::Bits(bits@),
{
    let integers = arrow::array::Array::into_data(arrow::array::UInt64Array::from(bits));
    let numbers = integers.into_builder().data_type(DataType::Float64);
    numbers.build().ok().map(|data| Column { array: arrow::array::make_array(data) })
}

/// What reading lines of JSON as a nested column gives: the text of an error, with how
/// many bytes were read before it where it came after them, or how many bytes were
/// read and how many rows they gave, and the column.
pub enum NestedReading {
    Unbuilt(String),
    Undecoded(String),
    Unflushed(usize, String),
    Done(usize, usize, Column),
}

/// The meaning of a [`NestedReading`], without the column and without the text of an error.
pub ghost enum Reading {
    Unbuilt,
    Undecoded,
    Unflushed(nat),
    Done(nat, nat),
}

impl View for NestedReading {
    type V = Reading;

    open spec fn view(&self) -> Reading {
        match self {
            NestedReading::Unbuilt(_) => Reading::Unbuilt,
            NestedReading::Undecoded(_) => Reading::Undecoded,
            NestedReading::Unflushed(consumed, _) => Reading::Unflushed(*consumed as nat),
            NestedReading::Done(consumed, rows, _) => Reading::Done(*consumed as nat, *rows as nat),
        }
    }
}

impl NestedReading {
    /// The text of the error, if there is one.
    pub open spec fn text(&self) -> Seq<char> {
        match self {
            NestedReading::Unbuilt(text) => text@,
            NestedReading::Undecoded(text) => text@,
            NestedReading::Unflushed(_, text) => text@,
            NestedReading::Done(_, _, _) => Seq::empty(),
        }
    }
}

/// What reading lines of JSON as a column gives, in batches of a size.
pub uninterp spec fn nested_reading(field: FieldInfo, encoded: Seq<u8>, size: usize) -> Reading;

/// What a column holds that is read from lines of JSON, in batches of a size.
pub uninterp spec fn nested_cells(field: FieldInfo, encoded: Seq<u8>, size: usize) -> Cells;

/// Whether the buffers for a batch of a size can be addressed: eight bytes for each of
/// two tokens for every row and every field.
pub open spec fn addressable(field: FieldInfo, size: nat) -> bool {
    8 * (size * (2 + 2 * parts(field)) + 1) <= isize::MAX
}

/// Whether a byte opens or closes an object, or stands behind a name or a value.
pub open spec fn mark(byte: u8) -> bool {
    byte == OPEN_OBJECT || byte == CLOSE_OBJECT || byte == COLON || byte == COMMA
}

/// How many such bytes there are.
pub open spec fn marks(encoded: Seq<u8>) -> nat
    decreases encoded.len(),
{
    if encoded.len() == 0 {
        0
    } else {
        marks(encoded.drop_last()) + (if mark(encoded.last()) {
            1nat
        } else {
            0nat
        })
    }
}

/// How many tokens the objects in some bytes can have at most: two for each mark, and one
/// before them.
pub open spec fn most_tokens(encoded: Seq<u8>) -> nat {
    1 + 2 * marks(encoded)
}

/// Whether the ends of runs can be of a type.
pub open spec fn counts_runs(kind: Kind) -> bool {
    kind == Kind::Other(OtherKind::Plain("Int16"@)) || kind == Kind::Other(
        OtherKind::Plain("Int32"@),
    ) || kind == Kind::Other(OtherKind::Plain("Int64"@))
}

/// Whether a type is that of decimal numbers.
pub open spec fn is_decimal(kind: Kind) -> bool {
    kind matches Kind::Other(OtherKind::Plain(name)) && "Decimal"@.is_prefix_of(name)
}

/// Whether the entries of a map have decimal numbers for keys.
pub open spec fn decimal_keys(entries: FieldInfo) -> bool {
    entries.kind matches Kind::Struct(pair) && pair.len() > 0 && is_decimal(pair[0].kind)
}

/// Whether a column of some cells can be read, where no map or list in it has more cells
/// than `most`: the lengths in its type are no negative numbers, the ends of its runs have
/// the right type, the keys of its maps are no decimal numbers, and its buffers can be
/// addressed, with 32 bytes for the largest cell.
pub open spec fn readable(field: FieldInfo, cells: nat, most: nat) -> bool
    decreases field,
{
    &&& 32 * (cells + 4) <= isize::MAX
    &&& match field.kind {
        Kind::Utf8 => true,
        Kind::Float64 => true,
        Kind::Struct(fields) => 4 * (cells * fields.len()) <= isize::MAX && forall|i: int|
            0 <= i < fields.len() ==> readable(#[trigger] fields[i], cells, most),
        Kind::Mapping(entries, _) => !decimal_keys(*entries) && readable(*entries, most, most),
        Kind::Other(other) => match other {
            OtherKind::Plain(_) => true,
            OtherKind::Listed(item) => readable(*item, most, most),
            OtherKind::FixedList(item, length) => length >= 0 && readable(
                *item,
                (cells * length) as nat,
                most,
            ),
            OtherKind::FixedBytes(length) => length >= 0 && cells * length <= isize::MAX,
            OtherKind::Runs(ends, values) => counts_runs(ends.kind) && readable(
                *values,
                cells,
                most,
            ),
            OtherKind::Unread(_) => true,
        },
    }
}

/// Whether lines of JSON can be read as a column in a batch of a size.
pub open spec fn readable_lines(field: FieldInfo, encoded: Seq<u8>, size: nat) -> bool {
    &&& addressable(field, size)
    &&& most_tokens(encoded) < u32::MAX
    &&& readable(field, size, most_tokens(encoded))
}

/// Whether some bytes are the lines of a batch of a size.
pub open spec fn are_lines(field: ArrowField, encoded: Seq<u8>, size: nat) -> bool {
    exists|values: Seq<Json>| #[trigger]
        lines(field, values) == Ok::<_, Seq<char>>(encoded) && batch_rows(values.len()) == size
}

/// `arrow::json::ReaderBuilder::build_decoder`, and `decode` and `flush` of the decoder:
/// the column that the rows in lines of JSON have in a schema of one field. No rows at
/// all give a column without rows. The decoder reserves its buffers for a whole batch at
/// once, and numbers its tokens by 32 bits. It does not survive every text that it reads as
/// a decimal number. In the lines, a part of a type that no judgment has is NULL. Nothing is said of the text of an error, which can show metadata in the
/// order of a hash table.
#[verifier::external_body]
fn read_lines(field: &ColumnField, encoded: &[u8], size: usize) -> (reading: NestedReading)
    requires
        field.well_formed(),
        are_lines(field.plain, encoded@, size as nat),
        readable_lines(info(field.plain), encoded@, size as nat),
    ensures
        reading@ == nested_reading(info(field.plain), encoded@, size),
        reading matches NestedReading::Done(_, _, column) ==> cells(column) == nested_cells(
            info(field.plain),
            encoded@,
            size,
        ),
{
    let schema = Arc::new(Schema::new(vec![field.source.clone()]));
    let builder = ReaderBuilder::new(schema.clone()).with_batch_size(size);
    let mut decoder = match builder.build_decoder() {
        Ok(decoder) => decoder,
        Err(error) => return NestedReading::Unbuilt(error.to_string()),
    };
    let consumed = match decoder.decode(encoded) {
        Ok(consumed) => consumed,
        Err(error) => return NestedReading::Undecoded(error.to_string()),
    };
    match decoder.flush().map(|b| b.unwrap_or(RecordBatch::new_empty(schema))) {
        Ok(b) => NestedReading::Done(consumed, b.num_rows(), Column { array: b.column(0).clone() }),
        Err(error) => NestedReading::Unflushed(consumed, error.to_string()),
    }
}

/// The text of an error about a nested column.
pub open spec fn nested_text(before: Seq<char>, name: Seq<char>, after: Seq<char>) -> Seq<char> {
    before + debug_form(name) + after
}

/// The text of an error about a nested column.
fn nested_error(before: &str, name: &str, after: &str) -> (text: String)
    ensures
        text@ == nested_text(before@, name@, after@),
{
    join3(before, debug_text(name).as_str(), after)
}

/// What is wrong with the way in which lines were read as a nested column: an error with
/// its text, bytes that were left over, or another number of rows than there were values.
pub open spec fn reading_message(
    name: Seq<char>,
    reading: Reading,
    text: Seq<char>,
    encoded: nat,
    values: nat,
) -> Option<Seq<char>> {
    let left_over = nested_text("nested field "@, name, " did not consume every row"@);
    match reading {
        Reading::Unbuilt => Some("failed to build nested decoder: "@ + text),
        Reading::Undecoded => Some(
            nested_text("failed to decode nested field "@, name, ": "@ + text),
        ),
        Reading::Unflushed(consumed) => if consumed != encoded {
            Some(left_over)
        } else {
            Some(nested_text("failed to materialize nested field "@, name, ": "@ + text))
        },
        Reading::Done(consumed, rows) => if consumed != encoded {
            Some(left_over)
        } else if rows != values {
            Some(
                nested_text(
                    "nested field "@,
                    name,
                    " produced "@ + decimal(rows) + " rows for "@ + decimal(values) + " inputs"@,
                ),
            )
        } else {
            None
        },
    }
}

/// The nested column that was read from lines of JSON, where they were read to their
/// end and gave one row for each value.
pub fn accept_reading(name: &str, reading: NestedReading, encoded: usize, values: usize) -> (result:
    Result<Column, String>)
    ensures
        match result {
            Ok(column) => reading == NestedReading::Done(encoded, values, column),
            Err(message) => reading_message(
                name@,
                reading@,
                reading.text(),
                encoded as nat,
                values as nat,
            ) == Some(message@),
        },
{
    match reading {
        NestedReading::Unbuilt(text) => Err(
            join2("failed to build nested decoder: ", text.as_str()),
        ),
        NestedReading::Undecoded(text) => Err(
            nested_error(
                "failed to decode nested field ",
                name,
                join2(": ", text.as_str()).as_str(),
            ),
        ),
        NestedReading::Unflushed(consumed, text) => if consumed != encoded {
            Err(nested_error("nested field ", name, " did not consume every row"))
        } else {
            Err(
                nested_error(
                    "failed to materialize nested field ",
                    name,
                    join2(": ", text.as_str()).as_str(),
                ),
            )
        },
        NestedReading::Done(consumed, rows, column) => if consumed != encoded {
            Err(nested_error("nested field ", name, " did not consume every row"))
        } else if rows != values {
            let mut after = join3(
                " produced ",
                decimal_text(rows as u64).as_str(),
                " rows for ",
            );
            after.append(decimal_text(values as u64).as_str());
            after.append(" inputs");
            Err(nested_error("nested field ", name, after.as_str()))
        } else {
            Ok(column)
        },
    }
}

/// The size of the batch in which a nested column is read: that of all its values.
pub open spec fn batch_rows(values: nat) -> nat {
    if values == 0 {
        1
    } else {
        values
    }
}

/// Whether a column can be built from the values of its rows: its texts take no more bytes
/// than can be addressed, and its lines can be read.
pub open spec fn buildable(field: ArrowField, values: Seq<Json>) -> bool {
    match field.data_type {
        ArrowType::Utf8 => text_cells(field.name@, values) is Ok ==> texts_size(values)
            <= i32::MAX,
        ArrowType::Struct(_) | ArrowType::Mapping(_, _) => lines(field, values) matches Ok(encoded)
            ==> readable_lines(info(field), encoded, batch_rows(values.len())),
        _ => true,
    }
}

/// Whether a result is the column of the values of its rows, or the error that they give.
pub open spec fn built(field: ArrowField, values: Seq<Json>, result: Result<Column, String>) -> bool {
    match field.data_type {
        ArrowType::Utf8 => match result {
            Ok(column) => cells(column) is Texts && text_cells(field.name@, values) == Ok::<
                _,
                Seq<char>,
            >(cells(column)->Texts_0),
            Err(message) => text_cells(field.name@, values) == Err::<Seq<Option<Seq<char>>>, _>(
                message@,
            ),
        },
        ArrowType::Float64 => match result {
            Ok(column) => cells(column) is Bits && number_cells(field.name@, values) == Ok::<
                _,
                Seq<char>,
            >(cells(column)->Bits_0),
            Err(message) => number_cells(field.name@, values) == Err::<Seq<Option<u64>>, _>(
                message@,
            ),
        },
        ArrowType::Struct(_) | ArrowType::Mapping(_, _) => match lines(field, values) {
            Err(expected) => result matches Err(message) && message@ == expected,
            Ok(encoded) => {
                let size = batch_rows(values.len()) as usize;
                let reading = nested_reading(info(field), encoded, size);
                match result {
                    Ok(column) => reading == Reading::Done(encoded.len(), values.len())
                        && cells(column) == nested_cells(info(field), encoded, size),
                    Err(message) => exists|text: Seq<char>|
                        #[trigger] reading_message(
                            field.name@,
                            reading,
                            text,
                            encoded.len(),
                            values.len(),
                        ) == Some(message@),
                }
            },
        },
        ArrowType::Other(_) => result matches Err(message) && message@ == "field "@ + debug_form(
            field.name@,
        ) + " has unsupported Arrow data type "@ + field.shown@,
    }
}

/// Whether cells are those of a column for the values of its rows.
spec fn cells_of(field: ArrowField, values: Seq<Json>, found: ColumnCells) -> bool {
    match (field.data_type, found) {
        (ArrowType::Utf8, ColumnCells::Text(texts)) => text_cells(field.name@, values) == Ok::<
            _,
            Seq<char>,
        >(texts_view(texts@)),
        (ArrowType::Float64, ColumnCells::Number(bits)) => number_cells(field.name@, values)
            == Ok::<_, Seq<char>>(bits@),
        (ArrowType::Struct(_), ColumnCells::Lines(encoded)) => lines(field, values) == Ok::<
            _,
            Seq<char>,
        >(encoded@),
        (ArrowType::Mapping(_, _), ColumnCells::Lines(encoded)) => lines(field, values) == Ok::<
            _,
            Seq<char>,
        >(encoded@),
        _ => false,
    }
}

/// The column of cells.
fn column_of(
    field: &ColumnField,
    found: ColumnCells,
    count: usize,
    Ghost(values): Ghost<Seq<Json>>,
) -> (result: Result<Column, String>)
    requires
        field.well_formed(),
        count == values.len(),
        cells_of(field.plain, values, found),
        buildable(field.plain, values),
    ensures
        built(field.plain, values, result),
{
    proof {
        text_cells_size(field.plain.name@, values);
    }
    match found {
        ColumnCells::Text(texts) => Ok(text_column(texts)),
        ColumnCells::Number(bits) => match number_column(bits) {
            Some(column) => Ok(column),
            None => Err(String::new()),
        },
        ColumnCells::Lines(encoded) => {
            let size = if count == 0 {
                1
            } else {
                count
            };
            let reading = read_lines(field, encoded.as_slice(), size);
            accept_reading(field.plain.name.as_str(), reading, encoded.len(), count)
        },
    }
}

/// The column of the values of its rows.
pub fn build_array(field: &ColumnField, values: &Vec<JsonValue>) -> (result: Result<
    Column,
    String,
>)
    requires
        field.well_formed(),
        buildable(field.plain, items_view(values@)),
    ensures
        built(field.plain, items_view(values@), result),
{
    match column_cells(&field.plain, values) {
        Err(message) => Err(message),
        Ok(found) => column_of(field, found, values.len(), Ghost(items_view(values@))),
    }
}

/// The first of some parts are made of no more fields than all of them.
proof fn parts_of_some(fields: Seq<FieldInfo>, count: int)
    requires
        0 <= count <= fields.len(),
    ensures
        all_parts(fields.take(count)) <= all_parts(fields),
    decreases fields.len() - count,
{
    if count < fields.len() {
        assert(fields.take(count + 1).drop_last() =~= fields.take(count));
        parts_of_some(fields, count + 1);
    } else {
        assert(fields.take(count) =~= fields);
    }
}

/// How many fields a column is made of, unless there are more than a machine can count.
fn count_parts(field: &ArrowField) -> (count: Option<usize>)
    ensures
        match count {
            Some(count) => count == parts(info(*field)),
            None => parts(info(*field)) > usize::MAX,
        },
    decreases field,
{
    let inner = match &field.data_type {
        ArrowType::Utf8 | ArrowType::Float64 => Some(0),
        ArrowType::Struct(fields) => {
            let mut total: usize = 0;
            let ghost all = infos(fields@);
            proof {
                infos_each(fields@);
                assert(all.take(0) =~= Seq::<FieldInfo>::empty());
            }
            for at in 0..fields.len()
                invariant
                    all == infos(fields@),
                    all.len() == fields.len(),
                    forall|i: int| 0 <= i < all.len() ==> #[trigger] all[i] == info(fields@[i]),
                    total == all_parts(all.take(at as int)),
                    decreases_to!(field => fields@),
                    info(*field).kind == Kind::Struct(all),
            {
                proof {
                    assert(all.take(at as int + 1).drop_last() =~= all.take(at as int));
                    assert(all.take(at as int + 1).last() == info(fields@[at as int]));
                    parts_of_some(all, at as int + 1);
                    assert(decreases_to!(field => fields@[at as int]));
                }
                let sum = match count_parts(&fields[at]) {
                    Some(more) => total.checked_add(more),
                    None => None,
                };
                match sum {
                    Some(sum) => {
                        total = sum;
                    },
                    None => {
                        return None;
                    },
                }
            }
            assert(all.take(all.len() as int) =~= all);
            Some(total)
        },
        ArrowType::Mapping(entries, _) => count_parts(entries),
        ArrowType::Other(OtherType::Plain(_)) => Some(0),
        ArrowType::Other(OtherType::Listed(item)) => count_parts(item),
        ArrowType::Other(OtherType::FixedList(item, _)) => count_parts(item),
        ArrowType::Other(OtherType::FixedBytes(_)) => Some(0),
        ArrowType::Other(OtherType::Runs(_, values)) => count_parts(values),
        ArrowType::Other(OtherType::Unread(count)) => {
            return Some(*count);
        },
    };
    match inner {
        Some(inner) => inner.checked_add(1),
        None => None,
    }
}

/// Whether the buffers for a batch of a size can be addressed.
fn is_addressable(field: &ArrowField, size: usize) -> (yes: bool)
    requires
        size > 0,
    ensures
        yes == addressable(info(*field), size as nat),
{
    let ghost count = parts(info(*field));
    proof {
        assert(size * (2 + 2 * count) >= 2 + 2 * count) by (nonlinear_arith)
            requires
                size > 0,
                count >= 0,
        ;
    }
    let tokens = match count_parts(field) {
        Some(parts) => match parts.checked_mul(2) {
            Some(twice) => twice.checked_add(2),
            None => None,
        },
        None => None,
    };
    match tokens {
        Some(tokens) => match size.checked_mul(tokens) {
            Some(all) => all < isize::MAX as usize / 8,
            None => false,
        },
        None => false,
    }
}

/// How many bytes are marks.
fn count_marks(encoded: &Vec<u8>) -> (count: usize)
    ensures
        count == marks(encoded@),
        count <= encoded@.len(),
{
    let mut count: usize = 0;
    for at in 0..encoded.len()
        invariant
            count == marks(encoded@.take(at as int)),
            count <= at,
    {
        assert(encoded@.take(at as int + 1).drop_last() =~= encoded@.take(at as int));
        let byte = encoded[at];
        if byte == OPEN_OBJECT || byte == CLOSE_OBJECT || byte == COLON || byte == COMMA {
            count = count + 1;
        }
    }
    assert(encoded@.take(encoded@.len() as int) =~= encoded@);
    count
}

/// Whether a type is that of decimal numbers.
fn has_decimals(field: &ArrowField) -> (yes: bool)
    ensures
        yes == is_decimal(info(*field).kind),
{
    match &field.data_type {
        ArrowType::Other(OtherType::Plain(name)) => begins_with(name.as_str(), "Decimal"),
        _ => false,
    }
}

/// Whether the ends of runs can be of a type.
fn can_count_runs(field: &ArrowField) -> (yes: bool)
    ensures
        yes == counts_runs(info(*field).kind),
{
    match &field.data_type {
        ArrowType::Other(OtherType::Plain(name)) => same(name.as_str(), "Int16") || same(
            name.as_str(),
            "Int32",
        ) || same(name.as_str(), "Int64"),
        _ => false,
    }
}

/// Whether a column of some cells can be read.
fn is_readable(field: &ArrowField, cells: usize, most: usize) -> (yes: bool)
    ensures
        yes == readable(info(*field), cells as nat, most as nat),
    decreases field,
{
    if cells > isize::MAX as usize / 32 - 4 {
        return false;
    }
    match &field.data_type {
        ArrowType::Utf8 | ArrowType::Float64 => true,
        ArrowType::Struct(fields) => {
            let ghost all = infos(fields@);
            proof {
                infos_each(fields@);
            }
            match cells.checked_mul(fields.len()) {
                Some(places) => if places > isize::MAX as usize / 4 {
                    return false;
                },
                None => {
                    return false;
                },
            }
            for at in 0..fields.len()
                invariant
                    all == infos(fields@),
                    all.len() == fields.len(),
                    forall|i: int| 0 <= i < all.len() ==> #[trigger] all[i] == info(fields@[i]),
                    forall|i: int|
                        0 <= i < at ==> readable(#[trigger] all[i], cells as nat, most as nat),
                    decreases_to!(field => fields@),
                    info(*field).kind == Kind::Struct(all),
            {
                assert(decreases_to!(field => fields@[at as int]));
                assert(all[at as int] == info(fields@[at as int]));
                if !is_readable(&fields[at], cells, most) {
                    return false;
                }
            }
            true
        },
        ArrowType::Mapping(entries, _) => {
            let decimals = match &entries.data_type {
                ArrowType::Struct(pair) => {
                    proof {
                        infos_each(pair@);
                    }
                    pair.len() > 0 && has_decimals(&pair[0])
                },
                _ => false,
            };
            assert(decimals == decimal_keys(info(**entries)));
            !decimals && is_readable(entries, most, most)
        },
        ArrowType::Other(OtherType::Plain(_)) => true,
        ArrowType::Other(OtherType::Listed(item)) => is_readable(item, most, most),
        ArrowType::Other(OtherType::FixedList(item, length)) => *length >= 0 && match cells.checked_mul(
            *length as usize,
        ) {
            Some(inner) => is_readable(item, inner, most),
            None => {
                assert(!readable(info(**item), (cells * *length) as nat, most as nat));
                false
            },
        },
        ArrowType::Other(OtherType::FixedBytes(length)) => *length >= 0 && match cells.checked_mul(
            *length as usize,
        ) {
            Some(bytes) => bytes <= isize::MAX as usize,
            None => false,
        },
        ArrowType::Other(OtherType::Runs(ends, values)) => can_count_runs(ends) && is_readable(
            values,
            cells,
            most,
        ),
        ArrowType::Other(OtherType::Unread(_)) => true,
    }
}

/// Whether lines of JSON can be read as a column in a batch of a size.
fn can_read_lines(field: &ArrowField, encoded: &Vec<u8>, size: usize) -> (yes: bool)
    requires
        size > 0,
    ensures
        yes == readable_lines(info(*field), encoded@, size as nat),
{
    let marks = count_marks(encoded);
    marks < u32::MAX as usize / 2 && is_addressable(field, size) && is_readable(
        field,
        size,
        1 + 2 * marks,
    )
}

/// Whether the bytes of texts can be addressed.
fn texts_fit(texts: &Vec<Option<String>>) -> (yes: bool)
    ensures
        yes == (text_bytes(texts_view(texts@)) <= i32::MAX),
{
    let ghost all = texts_view(texts@);
    let mut total: usize = 0;
    for at in 0..texts.len()
        invariant
            all == texts_view(texts@),
            total == text_bytes(all.take(at as int)),
            total <= i32::MAX,
    {
        proof {
            assert(all.take(at as int + 1).drop_last() =~= all.take(at as int));
            text_bytes_of_some(all, at as int + 1);
        }
        let length = match &texts[at] {
            Some(text) => text.as_str().as_bytes().len(),
            None => 0,
        };
        if length > i32::MAX as usize - total {
            return false;
        }
        total = total + length;
    }
    assert(all.take(all.len() as int) =~= all);
    true
}

/// The first of some texts take no more bytes than all of them.
proof fn text_bytes_of_some(cells: Seq<Option<Seq<char>>>, count: int)
    requires
        0 <= count <= cells.len(),
    ensures
        text_bytes(cells.take(count)) <= text_bytes(cells),
    decreases cells.len() - count,
{
    if count < cells.len() {
        assert(cells.take(count + 1).drop_last() =~= cells.take(count));
        text_bytes_of_some(cells, count + 1);
    } else {
        assert(cells.take(count) =~= cells);
    }
}

/// The column of the values of its rows, unless it is one that cannot be built.
pub fn try_build_array(field: &ColumnField, values: &Vec<JsonValue>) -> (result: Option<
    Result<Column, String>,
>)
    requires
        field.well_formed(),
    ensures
        match result {
            Some(result) => buildable(field.plain, items_view(values@)) && built(
                field.plain,
                items_view(values@),
                result,
            ),
            None => !buildable(field.plain, items_view(values@)),
        },
{
    let ghost all = items_view(values@);
    proof {
        text_cells_size(field.plain.name@, all);
    }
    match column_cells(&field.plain, values) {
        Err(message) => Some(Err(message)),
        Ok(found) => {
            let fits = match &found {
                ColumnCells::Text(texts) => texts_fit(texts),
                ColumnCells::Number(_) => true,
                ColumnCells::Lines(encoded) => {
                    let size = if values.len() == 0 {
                        1
                    } else {
                        values.len()
                    };
                    can_read_lines(&field.plain, encoded, size)
                },
            };
            if fits {
                Some(column_of(field, found, values.len(), Ghost(all)))
            } else {
                None
            }
        },
    }
}

/// The shape of a type without the texts that are only shown in errors.
pub ghost enum Shape {
    Utf8,
    Float64,
    Struct(Seq<(Seq<char>, Shape, bool)>),
    Mapping(Seq<char>, Box<Shape>, bool),
    Other,
}

/// The shape of a type.
pub open spec fn shape(data_type: ArrowType) -> Shape
    decreases data_type,
{
    match data_type {
        ArrowType::Utf8 => Shape::Utf8,
        ArrowType::Float64 => Shape::Float64,
        ArrowType::Struct(fields) => Shape::Struct(
            Seq::new(
                fields@.len(),
                |i: int|
                    if 0 <= i < fields@.len() {
                        (fields@[i].name@, shape(fields@[i].data_type), fields@[i].nullable)
                    } else {
                        (Seq::empty(), Shape::Other, false)
                    },
            ),
        ),
        ArrowType::Mapping(entries, _) => Shape::Mapping(
            entries.name@,
            Box::new(shape(entries.data_type)),
            entries.nullable,
        ),
        ArrowType::Other(_) => Shape::Other,
    }
}

/// A map from texts to numbers.
pub open spec fn probability_shape() -> Shape {
    Shape::Mapping(
        "entries"@,
        Box::new(
            Shape::Struct(seq![("key"@, Shape::Utf8, false), ("value"@, Shape::Float64, true)]),
        ),
        false,
    )
}

/// The shape of the value of `choice`.
pub open spec fn choice_shape() -> Shape {
    Shape::Struct(
        seq![
            ("label"@, Shape::Utf8, true),
            ("confidence"@, Shape::Float64, true),
            ("probabilities"@, probability_shape(), true),
        ],
    )
}

/// The shape of the value of `score`.
pub open spec fn score_shape() -> Shape {
    Shape::Struct(
        seq![
            ("score"@, Shape::Float64, true),
            ("confidence"@, Shape::Float64, true),
            ("probabilities"@, probability_shape(), true),
        ],
    )
}

/// A part of a type.
fn part(name: &str, data_type: ArrowType, nullable: bool) -> (field: ArrowField)
    ensures
        field.name@ == name@,
        field.data_type == data_type,
        field.nullable == nullable,
{
    let shown = match &data_type {
        ArrowType::Utf8 => "Utf8",
        ArrowType::Float64 => "Float64",
        ArrowType::Struct(_) => "Struct",
        ArrowType::Mapping(_, _) => "Map",
        ArrowType::Other(_) => "Other",
    };
    ArrowField { name: name.to_owned(), data_type, nullable, shown: shown.to_owned() }
}

/// A map from texts to numbers.
fn probability_map() -> (data_type: ArrowType)
    ensures
        shape(data_type) == probability_shape(),
{
    let mut pair: Vec<ArrowField> = Vec::new();
    pair.push(part("key", ArrowType::Utf8, false));
    pair.push(part("value", ArrowType::Float64, true));
    let inner = ArrowType::Struct(pair);
    proof {
        reveal_with_fuel(shape, 3);
        assert(shape(inner)->Struct_0 =~= probability_shape()->Mapping_1->Struct_0);
    }
    ArrowType::Mapping(Box::new(part("entries", inner, false)), false)
}

/// The type of the value of `choice`.
pub fn choice_type() -> (data_type: ArrowType)
    ensures
        shape(data_type) == choice_shape(),
{
    let mut fields: Vec<ArrowField> = Vec::new();
    fields.push(part("label", ArrowType::Utf8, true));
    fields.push(part("confidence", ArrowType::Float64, true));
    fields.push(part("probabilities", probability_map(), true));
    let data_type = ArrowType::Struct(fields);
    proof {
        reveal_with_fuel(shape, 3);
        assert(shape(data_type)->Struct_0 =~= choice_shape()->Struct_0);
    }
    data_type
}

/// The type of the value of `score`.
pub fn score_type() -> (data_type: ArrowType)
    ensures
        shape(data_type) == score_shape(),
{
    let mut fields: Vec<ArrowField> = Vec::new();
    fields.push(part("score", ArrowType::Float64, true));
    fields.push(part("confidence", ArrowType::Float64, true));
    fields.push(part("probabilities", probability_map(), true));
    let data_type = ArrowType::Struct(fields);
    proof {
        reveal_with_fuel(shape, 3);
        assert(shape(data_type)->Struct_0 =~= score_shape()->Struct_0);
    }
    data_type
}

} // verus!
