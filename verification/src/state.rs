//! Row values as JSON: which values may be judged, and what is sent of them.
use vstd::prelude::*;

use crate::canonical::{
    arranged, canonical_bytes, check_depth, depth_allowed, emit_writes, fits, nesting_fault,
    written, MAX_NESTING,
};
use crate::errors::{row_fault, Fault, JevError};
use crate::json::{
    container_views, fields_view, has_field, items_view, put_member, sorted, with_field, Json,
    JsonValue, Members,
};
use crate::parse::{json_text_value, parse_structured_text, structured, text_value};
use crate::text::{decimal, decimal_text, join3, same, signed_decimal, signed_decimal_text};
use crate::variant::{
    decimal_number, decimal_value, has_repeated, repeated, stored_value, struct_fault,
    variant_array_value, variant_error, variant_fault, VariantState,
};

verus! {

/// The name of the extension type for text that holds JSON.
pub const JSON_EXTENSION: &'static str = "arrow.json";

/// The name of the extension type for Parquet Variants.
pub const VARIANT_EXTENSION: &'static str = "arrow.parquet.variant";

/// One value of a row.
#[derive(Debug)]
pub enum StateScalar {
    /// SQL NULL of a type that is no container.
    Null,
    /// A value that the query engine failed to hand out.
    Unreadable(JevError),
    Text(String),
    Bool(bool),
    Int(i64),
    UInt(u64),
    /// An integer, as its decimal text, and the number of its decimal places.
    Decimal { integer: String, scale: i8 },
    /// A binary floating-point number as a JSON number text, none where it is not
    /// finite, and the name of its type.
    Float { text: Option<String>, kind: String },
    Dictionary(Box<StateScalar>),
    Struct(StateStruct),
    Mapping(StateMap),
    List(StateList),
    Union(StateUnion),
    /// A value of a type that JSON cannot represent, by the name of the type.
    Other(String),
}

/// A struct: how many rows it has, whether all of them are NULL, and the fields
/// of the first.
#[derive(Debug)]
pub struct StateStruct {
    pub rows: usize,
    pub null: bool,
    pub fields: Vec<(String, StateColumn)>,
    /// The struct as the storage of a Variant, where its field says that it is
    /// one.
    pub variant: Option<VariantState>,
}

/// A field of a struct: its extension type, if it has one, and its value.
#[derive(Debug)]
pub struct StateColumn {
    pub extension: Option<String>,
    pub value: StateScalar,
}

/// A map: how many rows it has, whether all of them are NULL, the extension types
/// of its keys and values, and the entries of the first row.
#[derive(Debug)]
pub struct StateMap {
    pub rows: usize,
    pub null: bool,
    pub key_extension: Option<String>,
    pub value_extension: Option<String>,
    pub entries: Vec<(StateScalar, StateScalar)>,
}

/// A list of any width: how many rows it has, whether all of them are NULL, the
/// extension type of its items, and the items of the first row.
#[derive(Debug)]
pub struct StateList {
    pub rows: usize,
    pub null: bool,
    pub extension: Option<String>,
    pub items: Vec<StateScalar>,
}

/// A union, as the JSON functions of the query engine decode it.
#[derive(Debug)]
pub enum StateUnion {
    /// A union that the query engine failed to hand out.
    Unreadable(JevError),
    /// A union of other types than those of the JSON functions.
    Foreign,
    Null,
    Bool(bool),
    Int(i64),
    /// A JSON number text; none for a number that is not finite.
    Float(Option<String>),
    Text(String),
    /// The text of a JSON array or object.
    Json(String),
}

/// Whether a value is SQL NULL.
pub open spec fn null(value: StateScalar) -> bool
    decreases value,
{
    match value {
        StateScalar::Null => true,
        StateScalar::Dictionary(inner) => null(*inner),
        StateScalar::Struct(inner) => inner.null,
        StateScalar::Mapping(inner) => inner.null,
        StateScalar::List(inner) => inner.null,
        _ => false,
    }
}

/// Whether an extension type is the one for JSON text.
pub open spec fn says_json(extension: Option<String>) -> bool {
    extension matches Some(name) && name@ == JSON_EXTENSION@
}

/// Whether an extension type is the one for Variants.
pub open spec fn says_variant(extension: Option<String>) -> bool {
    extension matches Some(name) && name@ == VARIANT_EXTENSION@
}

/// The error for a container that does not hold exactly one row.
pub open spec fn rows_fault() -> Fault {
    row_fault("Jev state ScalarValue containers must contain exactly one row"@)
}

/// What is wrong with a container before it is looked into.
pub open spec fn container_fault(value: StateScalar) -> Option<Fault> {
    match value {
        StateScalar::Struct(inner) => if repeated(inner.fields@) {
            Some(struct_fault())
        } else if inner.rows != 1 {
            Some(rows_fault())
        } else {
            None
        },
        StateScalar::Mapping(inner) if inner.rows != 1 => Some(rows_fault()),
        StateScalar::List(inner) if inner.rows != 1 => Some(rows_fault()),
        _ => None,
    }
}

/// The error for a value of a type that JSON cannot represent.
pub open spec fn lossless_fault(kind: Seq<char>) -> Fault {
    row_fault(
        "Jev state cannot represent "@ + kind
            + " losslessly in JSON; cast explicitly to a supported form"@,
    )
}

/// The JSON value of a union at a depth.
pub open spec fn union_value(union: StateUnion, depth: nat) -> Result<Json, Fault> {
    match union {
        StateUnion::Unreadable(error) => Err(error@),
        StateUnion::Foreign => Err(
            row_fault(
                "Jev state only supports the datafusion-functions-json Union type; cast other Unions explicitly"@,
            ),
        ),
        StateUnion::Null => Ok(Json::Null),
        StateUnion::Bool(value) => Ok(Json::Bool(value)),
        StateUnion::Int(value) => Ok(Json::Number(signed_decimal(value as int))),
        StateUnion::Float(Some(text)) => Ok(Json::Number(text@)),
        StateUnion::Float(None) => Err(row_fault("Jev state requires finite JSON numbers"@)),
        StateUnion::Text(text) => Ok(Json::Text(text@)),
        StateUnion::Json(text) => text_value(text@, depth),
    }
}

/// The JSON value of a row value at a depth, or the first error.
pub open spec fn nested(value: StateScalar, extension: Option<String>, depth: nat) -> Result<
    Json,
    Fault,
>
    decreases value, 0int,
{
    if let StateScalar::Unreadable(error) = value {
        Err(error@)
    } else if !depth_allowed(depth, false) {
        Err(nesting_fault())
    } else if container_fault(value) is Some {
        Err(container_fault(value).unwrap())
    } else if null(value) {
        Ok(Json::Null)
    } else if let StateScalar::Dictionary(inner) = value {
        nested(*inner, extension, depth)
    } else if says_json(extension) {
        match value {
            StateScalar::Text(text) => text_value(text@, depth),
            _ => Err(row_fault("Jev arrow.json state must have UTF-8 string storage"@)),
        }
    } else if says_variant(extension) {
        match value {
            StateScalar::Struct(inner) => match inner.variant {
                Some(variant) => stored_value(variant, depth),
                None => Err(variant_fault()),
            },
            _ => Err(row_fault("Jev Parquet Variant state must have Struct storage"@)),
        }
    } else if !depth_allowed(
        depth,
        value is Struct || value is Mapping || value is List,
    ) {
        Err(nesting_fault())
    } else {
        match value {
            StateScalar::Text(text) => Ok(Json::Text(text@)),
            StateScalar::Bool(value) => Ok(Json::Bool(value)),
            StateScalar::Int(value) => Ok(Json::Number(signed_decimal(value as int))),
            StateScalar::UInt(value) => Ok(Json::Number(decimal(value as nat))),
            StateScalar::Decimal { integer, scale } => decimal_number(integer@, scale),
            StateScalar::Float { text: Some(text), .. } => Ok(Json::Number(text@)),
            StateScalar::Float { text: None, kind } => Err(lossless_fault(kind@)),
            StateScalar::Struct(inner) => match nested_fields(inner.fields@, depth + 1) {
                Ok(fields) => Ok(Json::Object(fields)),
                Err(fault) => Err(fault),
            },
            StateScalar::Mapping(inner) => match nested_entries(
                inner.entries@,
                inner.key_extension,
                inner.value_extension,
                depth + 1,
            ) {
                Ok(fields) => Ok(Json::Object(fields)),
                Err(fault) => Err(fault),
            },
            StateScalar::List(inner) => match nested_items(
                inner.items@,
                inner.extension,
                depth + 1,
            ) {
                Ok(items) => Ok(Json::Array(items)),
                Err(fault) => Err(fault),
            },
            StateScalar::Union(union) => union_value(union, depth),
            StateScalar::Other(kind) => Err(lossless_fault(kind@)),
            _ => Ok(Json::Null),
        }
    }
}

/// The members of a struct at a depth, in the order of their names, or the first
/// error in the order of the fields.
pub open spec fn nested_fields(fields: Seq<(String, StateColumn)>, depth: nat) -> Result<
    Members,
    Fault,
>
    decreases fields, 0int,
{
    if fields.len() == 0 {
        Ok(Seq::empty())
    } else {
        match nested_fields(fields.drop_last(), depth) {
            Err(fault) => Err(fault),
            Ok(done) => match nested(fields.last().1.value, fields.last().1.extension, depth) {
                Err(fault) => Err(fault),
                Ok(value) => Ok(with_field(done, fields.last().0@, value)),
            },
        }
    }
}

/// The members of a map at a depth, in the order of their names, or the first
/// error in the order of the entries.
pub open spec fn nested_entries(
    entries: Seq<(StateScalar, StateScalar)>,
    key_extension: Option<String>,
    value_extension: Option<String>,
    depth: nat,
) -> Result<Members, Fault>
    decreases entries, 0int,
{
    if entries.len() == 0 {
        Ok(Seq::empty())
    } else {
        match nested_entries(entries.drop_last(), key_extension, value_extension, depth) {
            Err(fault) => Err(fault),
            Ok(done) => match nested(entries.last().0, key_extension, depth) {
                Err(fault) => Err(fault),
                Ok(Json::Text(key)) => match nested(entries.last().1, value_extension, depth) {
                    Err(fault) => Err(fault),
                    Ok(value) => if has_field(done, key) {
                        Err(row_fault("Jev state Map has duplicate keys"@))
                    } else {
                        Ok(with_field(done, key, value))
                    },
                },
                Ok(_) => Err(row_fault("Jev state Map keys must be non-NULL UTF-8 strings"@)),
            },
        }
    }
}

/// The values of a list at a depth, or the first error.
pub open spec fn nested_items(
    items: Seq<StateScalar>,
    extension: Option<String>,
    depth: nat,
) -> Result<Seq<Json>, Fault>
    decreases items, 0int,
{
    if items.len() == 0 {
        Ok(Seq::empty())
    } else {
        match nested_items(items.drop_last(), extension, depth) {
            Err(fault) => Err(fault),
            Ok(done) => match nested(items.last(), extension, depth) {
                Err(fault) => Err(fault),
                Ok(value) => Ok(done.push(value)),
            },
        }
    }
}

impl StateScalar {
    /// Whether the value is SQL NULL.
    pub fn is_null(&self) -> (yes: bool)
        ensures
            yes == null(*self),
        decreases self,
    {
        match self {
            StateScalar::Null => true,
            StateScalar::Dictionary(inner) => inner.is_null(),
            StateScalar::Struct(inner) => inner.null,
            StateScalar::Mapping(inner) => inner.null,
            StateScalar::List(inner) => inner.null,
            _ => false,
        }
    }
}

/// Whether an extension type is the one for JSON text.
fn is_json_field(extension: &Option<String>) -> (yes: bool)
    ensures
        yes == says_json(*extension),
{
    match extension {
        Some(name) => same(name.as_str(), JSON_EXTENSION),
        None => false,
    }
}

/// Whether an extension type is the one for Variants.
fn is_variant_field(extension: &Option<String>) -> (yes: bool)
    ensures
        yes == says_variant(*extension),
{
    match extension {
        Some(name) => same(name.as_str(), VARIANT_EXTENSION),
        None => false,
    }
}

/// Rejects a struct with two fields of one name.
fn check_struct_fields(fields: &Vec<(String, StateColumn)>) -> (result: Result<(), JevError>)
    ensures
        match result {
            Ok(_) => !repeated(fields@),
            Err(error) => repeated(fields@) && error@ == struct_fault(),
        },
{
    if has_repeated(fields) {
        Err(JevError::execution("Jev state Struct has duplicate field names"))
    } else {
        Ok(())
    }
}

/// Rejects a container that does not hold exactly one row.
fn check_scalar_container(value: &StateScalar) -> (result: Result<(), JevError>)
    ensures
        match result {
            Ok(_) => container_fault(*value) is None,
            Err(error) => container_fault(*value) == Some(error@),
        },
{
    let rows = match value {
        StateScalar::Struct(inner) => {
            if let Err(error) = check_struct_fields(&inner.fields) {
                return Err(error);
            }
            inner.rows
        },
        StateScalar::Mapping(inner) => inner.rows,
        StateScalar::List(inner) => inner.rows,
        _ => {
            return Ok(());
        },
    };
    if rows != 1 {
        return Err(
            JevError::execution("Jev state ScalarValue containers must contain exactly one row"),
        );
    }
    Ok(())
}

/// The error for a value of a type that JSON cannot represent.
fn lossless_error(kind: &str) -> (error: JevError)
    ensures
        error@ == lossless_fault(kind@),
{
    JevError::execution(
        join3(
            "Jev state cannot represent ",
            kind,
            " losslessly in JSON; cast explicitly to a supported form",
        ).as_str(),
    )
}

/// The JSON value of a union at a depth.
fn json_union_value(union: &StateUnion, depth: usize) -> (result: Result<JsonValue, JevError>)
    requires
        depth <= MAX_NESTING,
    ensures
        match result {
            Ok(value) => union_value(*union, depth as nat) == Ok::<_, Fault>(value@),
            Err(error) => union_value(*union, depth as nat) == Err::<Json, _>(error@),
        },
{
    match union {
        StateUnion::Unreadable(error) => Err(error.copy()),
        StateUnion::Foreign => Err(
            JevError::execution(
                "Jev state only supports the datafusion-functions-json Union type; cast other Unions explicitly",
            ),
        ),
        StateUnion::Null => Ok(JsonValue::Null),
        StateUnion::Bool(value) => Ok(JsonValue::Bool(*value)),
        StateUnion::Int(value) => Ok(JsonValue::Number(signed_decimal_text(*value))),
        StateUnion::Float(Some(text)) => Ok(JsonValue::Number(text.clone())),
        StateUnion::Float(None) => Err(
            JevError::execution("Jev state requires finite JSON numbers"),
        ),
        StateUnion::Text(text) => Ok(JsonValue::Text(text.clone())),
        StateUnion::Json(text) => json_text_value(text.as_str(), depth),
    }
}

/// An error in the first fields is the error of all of them.
proof fn nested_fields_error(fields: Seq<(String, StateColumn)>, depth: nat, count: int)
    requires
        0 <= count <= fields.len(),
        nested_fields(fields.take(count), depth) is Err,
    ensures
        nested_fields(fields, depth) == nested_fields(fields.take(count), depth),
    decreases fields.len() - count,
{
    if count < fields.len() {
        assert(fields.take(count + 1).drop_last() =~= fields.take(count));
        nested_fields_error(fields, depth, count + 1);
    } else {
        assert(fields.take(count) =~= fields);
    }
}

/// An error in the first entries is the error of all of them.
proof fn nested_entries_error(
    entries: Seq<(StateScalar, StateScalar)>,
    key_extension: Option<String>,
    value_extension: Option<String>,
    depth: nat,
    count: int,
)
    requires
        0 <= count <= entries.len(),
        nested_entries(entries.take(count), key_extension, value_extension, depth) is Err,
    ensures
        nested_entries(entries, key_extension, value_extension, depth) == nested_entries(
            entries.take(count),
            key_extension,
            value_extension,
            depth,
        ),
    decreases entries.len() - count,
{
    if count < entries.len() {
        assert(entries.take(count + 1).drop_last() =~= entries.take(count));
        nested_entries_error(entries, key_extension, value_extension, depth, count + 1);
    } else {
        assert(entries.take(count) =~= entries);
    }
}

/// An error in the first items is the error of all of them.
proof fn nested_items_error(
    items: Seq<StateScalar>,
    extension: Option<String>,
    depth: nat,
    count: int,
)
    requires
        0 <= count <= items.len(),
        nested_items(items.take(count), extension, depth) is Err,
    ensures
        nested_items(items, extension, depth) == nested_items(items.take(count), extension, depth),
    decreases items.len() - count,
{
    if count < items.len() {
        assert(items.take(count + 1).drop_last() =~= items.take(count));
        nested_items_error(items, extension, depth, count + 1);
    } else {
        assert(items.take(count) =~= items);
    }
}

/// The JSON value of a row value at a depth.
pub fn nested_value(value: &StateScalar, extension: &Option<String>, depth: usize) -> (result:
    Result<JsonValue, JevError>)
    ensures
        match result {
            Ok(json) => nested(*value, *extension, depth as nat) == Ok::<_, Fault>(json@),
            Err(error) => nested(*value, *extension, depth as nat) == Err::<Json, _>(error@),
        },
    decreases value, 1int,
{
    broadcast use container_views;

    if let StateScalar::Unreadable(error) = value {
        return Err(error.copy());
    }
    if let Err(error) = check_depth(depth, false) {
        return Err(error);
    }
    if let Err(error) = check_scalar_container(value) {
        return Err(error);
    }
    if value.is_null() {
        return Ok(JsonValue::Null);
    }
    if let StateScalar::Dictionary(inner) = value {
        return nested_value(inner, extension, depth);
    }
    if is_json_field(extension) {
        return match value {
            StateScalar::Text(text) => json_text_value(text.as_str(), depth),
            _ => Err(JevError::execution("Jev arrow.json state must have UTF-8 string storage")),
        };
    }
    if is_variant_field(extension) {
        return match value {
            StateScalar::Struct(inner) => match &inner.variant {
                Some(variant) => variant_array_value(variant, depth),
                None => Err(variant_error()),
            },
            _ => Err(JevError::execution("Jev Parquet Variant state must have Struct storage")),
        };
    }
    let container = match value {
        StateScalar::Struct(_) | StateScalar::Mapping(_) | StateScalar::List(_) => true,
        _ => false,
    };
    if let Err(error) = check_depth(depth, container) {
        return Err(error);
    }
    match value {
        StateScalar::Text(text) => Ok(JsonValue::Text(text.clone())),
        StateScalar::Bool(value) => Ok(JsonValue::Bool(*value)),
        StateScalar::Int(value) => Ok(JsonValue::Number(signed_decimal_text(*value))),
        StateScalar::UInt(value) => Ok(JsonValue::Number(decimal_text(*value))),
        StateScalar::Decimal { integer, scale } => decimal_value(integer.as_str(), *scale),
        StateScalar::Float { text: Some(text), .. } => Ok(JsonValue::Number(text.clone())),
        StateScalar::Float { text: None, kind } => Err(lossless_error(kind.as_str())),
        StateScalar::Struct(inner) => match struct_fields(value, &inner.fields, depth + 1) {
            Ok(fields) => Ok(JsonValue::Object(fields)),
            Err(error) => Err(error),
        },
        StateScalar::Mapping(inner) => match map_entries(
            value,
            &inner.entries,
            &inner.key_extension,
            &inner.value_extension,
            depth + 1,
        ) {
            Ok(fields) => Ok(JsonValue::Object(fields)),
            Err(error) => Err(error),
        },
        StateScalar::List(inner) => match list_value(
            value,
            &inner.items,
            &inner.extension,
            depth + 1,
        ) {
            Ok(items) => Ok(JsonValue::Array(items)),
            Err(error) => Err(error),
        },
        StateScalar::Union(union) => json_union_value(union, depth),
        StateScalar::Other(kind) => Err(lossless_error(kind.as_str())),
        _ => Ok(JsonValue::Null),
    }
}

/// The members of a struct, in the order of their names.
fn struct_fields(value: &StateScalar, fields: &Vec<(String, StateColumn)>, depth: usize) -> (result:
    Result<Vec<(String, JsonValue)>, JevError>)
    requires
        decreases_to!(value => fields@),
    ensures
        match result {
            Ok(values) => nested_fields(fields@, depth as nat) == Ok::<_, Fault>(
                fields_view(values@),
            ),
            Err(error) => nested_fields(fields@, depth as nat) == Err::<Members, _>(error@),
        },
    decreases value, 0int,
{
    let mut values: Vec<(String, JsonValue)> = Vec::new();
    proof {
        assert(fields_view(values@) =~= Seq::<(Seq<char>, Json)>::empty());
        assert(fields@.take(0) =~= Seq::<(String, StateColumn)>::empty());
    }
    for at in 0..fields.len()
        invariant
            decreases_to!(value => fields@),
            nested_fields(fields@.take(at as int), depth as nat) == Ok::<_, Fault>(
                fields_view(values@),
            ),
            sorted(fields_view(values@)),
    {
        let ghost next = fields@.take(at as int + 1);
        assert(next.drop_last() =~= fields@.take(at as int));
        match nested_value(&fields[at].1.value, &fields[at].1.extension, depth) {
            Ok(json) => {
                put_member(&mut values, fields[at].0.clone(), json);
            },
            Err(error) => {
                proof {
                    nested_fields_error(fields@, depth as nat, at as int + 1);
                }
                return Err(error);
            },
        }
    }
    assert(fields@.take(fields@.len() as int) =~= fields@);
    Ok(values)
}

/// The members of a map, in the order of their names.
fn map_entries(
    value: &StateScalar,
    entries: &Vec<(StateScalar, StateScalar)>,
    key_extension: &Option<String>,
    value_extension: &Option<String>,
    depth: usize,
) -> (result: Result<Vec<(String, JsonValue)>, JevError>)
    requires
        decreases_to!(value => entries@),
    ensures
        ({
            let expected = nested_entries(
                entries@,
                *key_extension,
                *value_extension,
                depth as nat,
            );
            match result {
                Ok(values) => expected == Ok::<_, Fault>(fields_view(values@)),
                Err(error) => expected == Err::<Members, _>(error@),
            }
        }),
    decreases value, 0int,
{
    let mut values: Vec<(String, JsonValue)> = Vec::new();
    proof {
        assert(fields_view(values@) =~= Seq::<(Seq<char>, Json)>::empty());
        assert(entries@.take(0) =~= Seq::<(StateScalar, StateScalar)>::empty());
    }
    for at in 0..entries.len()
        invariant
            decreases_to!(value => entries@),
            nested_entries(
                entries@.take(at as int),
                *key_extension,
                *value_extension,
                depth as nat,
            ) == Ok::<_, Fault>(fields_view(values@)),
            sorted(fields_view(values@)),
    {
        let ghost next = entries@.take(at as int + 1);
        assert(next.drop_last() =~= entries@.take(at as int));
        let key = match nested_value(&entries[at].0, key_extension, depth) {
            Ok(JsonValue::Text(key)) => key,
            Ok(_) => {
                proof {
                    nested_entries_error(
                        entries@,
                        *key_extension,
                        *value_extension,
                        depth as nat,
                        at as int + 1,
                    );
                }
                return Err(
                    JevError::execution("Jev state Map keys must be non-NULL UTF-8 strings"),
                );
            },
            Err(error) => {
                proof {
                    nested_entries_error(
                        entries@,
                        *key_extension,
                        *value_extension,
                        depth as nat,
                        at as int + 1,
                    );
                }
                return Err(error);
            },
        };
        match nested_value(&entries[at].1, value_extension, depth) {
            Ok(json) => {
                if put_member(&mut values, key, json) {
                    proof {
                        nested_entries_error(
                            entries@,
                            *key_extension,
                            *value_extension,
                            depth as nat,
                            at as int + 1,
                        );
                    }
                    return Err(JevError::execution("Jev state Map has duplicate keys"));
                }
            },
            Err(error) => {
                proof {
                    nested_entries_error(
                        entries@,
                        *key_extension,
                        *value_extension,
                        depth as nat,
                        at as int + 1,
                    );
                }
                return Err(error);
            },
        }
    }
    assert(entries@.take(entries@.len() as int) =~= entries@);
    Ok(values)
}

/// The values of a list.
fn list_value(
    value: &StateScalar,
    items: &Vec<StateScalar>,
    extension: &Option<String>,
    depth: usize,
) -> (result: Result<Vec<JsonValue>, JevError>)
    requires
        decreases_to!(value => items@),
    ensures
        match result {
            Ok(values) => nested_items(items@, *extension, depth as nat) == Ok::<_, Fault>(
                items_view(values@),
            ),
            Err(error) => nested_items(items@, *extension, depth as nat) == Err::<Seq<Json>, _>(
                error@,
            ),
        },
    decreases value, 0int,
{
    let mut values: Vec<JsonValue> = Vec::new();
    proof {
        assert(items_view(values@) =~= Seq::<Json>::empty());
        assert(items@.take(0) =~= Seq::<StateScalar>::empty());
    }
    for at in 0..items.len()
        invariant
            decreases_to!(value => items@),
            nested_items(items@.take(at as int), *extension, depth as nat) == Ok::<_, Fault>(
                items_view(values@),
            ),
    {
        let ghost next = items@.take(at as int + 1);
        let ghost before = items_view(values@);
        assert(next.drop_last() =~= items@.take(at as int));
        match nested_value(&items[at], extension, depth) {
            Ok(json) => {
                let ghost entry = json@;
                values.push(json);
                assert(items_view(values@) =~= before.push(entry));
            },
            Err(error) => {
                proof {
                    nested_items_error(items@, *extension, depth as nat, at as int + 1);
                }
                return Err(error);
            },
        }
    }
    assert(items@.take(items@.len() as int) =~= items@);
    Ok(values)
}

/// The error for a state that is neither text nor a container.
pub open spec fn state_fault() -> Fault {
    row_fault(
        "Jev state must be text, a JSON object or array, Struct, Map, or JSON-compatible Variant"@,
    )
}

/// What is read of a state before it is known to be one. A text that holds a JSON
/// object or array stands for it.
pub open spec fn state_content(value: StateScalar, extension: Option<String>) -> Result<
    Json,
    Fault,
> {
    match value {
        StateScalar::Text(text) if !says_json(extension) => match structured(text@) {
            Err(fault) => Err(fault),
            Ok(Some(json)) => Ok(json),
            Ok(None) => Ok(Json::Text(text@)),
        },
        _ => nested(value, extension, 0),
    }
}

/// The JSON value that is sent for a row value, or the error.
pub open spec fn state_of(value: StateScalar, extension: Option<String>) -> Result<Json, Fault>
    decreases value,
{
    match value {
        StateScalar::Dictionary(inner) => state_of(*inner, extension),
        _ => match state_content(value, extension) {
            Err(fault) => Err(fault),
            Ok(json) => if !(json is Text || json is Object || json is Array) {
                Err(state_fault())
            } else {
                match written(json, 0, Seq::empty()) {
                    Err(fault) => Err(fault),
                    Ok(_) => Ok(json),
                }
            },
        },
    }
}

/// The JSON value that is sent for a row value.
fn convert_state(value: &StateScalar, extension: &Option<String>) -> (result: Result<
    JsonValue,
    JevError,
>)
    ensures
        match result {
            Ok(json) => {
                &&& state_of(*value, *extension) == Ok::<_, Fault>(json@)
                &&& fits(json@)
                &&& json@ is Text || json@ is Object || json@ is Array
            },
            Err(error) => state_of(*value, *extension) == Err::<Json, _>(error@),
        },
    decreases value,
{
    broadcast use container_views;

    if let StateScalar::Dictionary(inner) = value {
        return convert_state(inner, extension);
    }
    let plain_text = match value {
        StateScalar::Text(text) if !is_json_field(extension) => Some(text),
        _ => None,
    };
    let content = match plain_text {
        Some(text) => match parse_structured_text(text.as_str()) {
            Ok(Some(json)) => json,
            Ok(None) => JsonValue::Text(text.clone()),
            Err(error) => {
                return Err(error);
            },
        },
        None => match nested_value(value, extension, 0) {
            Ok(json) => json,
            Err(error) => {
                return Err(error);
            },
        },
    };
    let usable = match &content {
        JsonValue::Text(_) | JsonValue::Object(_) | JsonValue::Array(_) => true,
        _ => false,
    };
    if !usable {
        return Err(
            JevError::execution(
                "Jev state must be text, a JSON object or array, Struct, Map, or JSON-compatible Variant",
            ),
        );
    }
    proof {
        emit_writes(arranged(content@), 0, Seq::empty());
    }
    match canonical_bytes(&content) {
        Ok(_) => Ok(content),
        Err(error) => Err(error),
    }
}

/// The JSON value that is sent for a row value without an extension type.
pub fn state_json(value: &StateScalar) -> (result: Result<JsonValue, JevError>)
    ensures
        match result {
            Ok(json) => {
                &&& state_of(*value, None) == Ok::<_, Fault>(json@)
                &&& fits(json@)
                &&& json@ is Text || json@ is Object || json@ is Array
            },
            Err(error) => state_of(*value, None) == Err::<Json, _>(error@),
        },
{
    convert_state(value, &None)
}

/// The JSON value that is sent for a row value. It is a text or a container, and
/// its byte form keeps the limits.
pub fn state_json_with_field(value: &StateScalar, extension: &Option<String>) -> (result: Result<
    JsonValue,
    JevError,
>)
    ensures
        match result {
            Ok(json) => {
                &&& state_of(*value, *extension) == Ok::<_, Fault>(json@)
                &&& fits(json@)
                &&& json@ is Text || json@ is Object || json@ is Array
            },
            Err(error) => state_of(*value, *extension) == Err::<Json, _>(error@),
        },
{
    match extension {
        Some(_) => convert_state(value, extension),
        None => state_json(value),
    }
}

} // verus!
