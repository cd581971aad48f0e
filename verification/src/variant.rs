//! Parquet Variant values: what is read from their encoding, and how deep it may
//! go before anything that recurses without a bound is asked to look at it.
use vstd::prelude::*;

use crate::canonical::{
    arranged, canonical_bytes, check_depth, depth_allowed, emit_writes, nesting_fault, written,
};
use crate::errors::{row_fault, Fault, JevError};
use crate::json::{
    container_views, fields_view, has_field, items_view, put_member, sorted, with_field, Json,
    JsonValue, Members,
};
use crate::number::{canonical_number, exponent_fault, has_spelling, spelling};
use crate::text::{join3, same, signed_decimal, signed_decimal_text};

verus! {

/// A decoded Variant value. Decoding is shallow: `Invalid` stands where the bytes
/// of a value could not be decoded.
#[derive(Debug)]
pub enum VariantNode {
    Null,
    Bool(bool),
    Int(i64),
    /// A binary floating-point number as a JSON number text; none where it is not
    /// finite.
    Float(Option<String>),
    /// An integer, as its decimal text, and the number of its decimal places.
    Decimal { integer: String, scale: i8 },
    Text(String),
    List(Vec<VariantNode>),
    Object(Vec<(String, VariantNode)>),
    /// A type that JSON cannot represent without loss.
    Other,
    Invalid,
}

/// The encoded bytes of a Variant value with what they decode to. `valid` tells
/// whether the full decoder accepts them.
#[derive(Debug)]
pub struct EncodedVariant {
    pub bytes: Vec<u8>,
    pub root: VariantNode,
    pub valid: bool,
}

/// One row of the columns in which a Variant is stored.
#[derive(Debug)]
pub enum VariantStorage {
    Null,
    Struct(Vec<(String, VariantStorage)>),
    List(Vec<VariantStorage>),
    Binary(EncodedVariant),
    Leaf,
}

/// One row of the column that holds the metadata of a Variant.
#[derive(Debug)]
pub enum MetadataColumn {
    Missing,
    Null,
    /// A column of another type than binary.
    Other,
    Binary(Vec<u8>),
}

/// What putting the columns of a Variant together again gives.
#[derive(Debug)]
pub enum Unshredded {
    /// The columns cannot be put together.
    Invalid,
    Null,
    /// A value column of another type than binary.
    Other,
    Binary(EncodedVariant),
}

/// A Variant as it is stored, and what putting its columns together gives. The
/// latter is only read where the storage was found to be within its bounds.
#[derive(Debug)]
pub struct VariantState {
    pub metadata: MetadataColumn,
    pub storage: VariantStorage,
    pub unshredded: Unshredded,
}

/// The error for Variant data that cannot be decoded.
pub open spec fn variant_fault() -> Fault {
    row_fault("Jev state contains invalid Parquet Variant data"@)
}

/// The error for Variant columns of another type than binary.
pub open spec fn binary_fault() -> Fault {
    row_fault("Jev Parquet Variant metadata/value fields must have binary storage"@)
}

/// The error for a struct with two fields of one name.
pub open spec fn struct_fault() -> Fault {
    row_fault("Jev state Struct has duplicate field names"@)
}

/// The error for a Variant object with two members of one name.
pub open spec fn variant_keys_fault() -> Fault {
    row_fault("Jev state Variant has duplicate object keys"@)
}

/// The error for a Variant type that JSON cannot represent.
pub open spec fn variant_type_fault() -> Fault {
    row_fault(
        "Jev state cannot represent this Parquet Variant type losslessly in JSON; cast timestamps, dates, binary, UUIDs, or non-finite numbers explicitly to a supported form"@,
    )
}

pub fn variant_error() -> (error: JevError)
    ensures
        error@ == variant_fault(),
{
    JevError::execution("Jev state contains invalid Parquet Variant data")
}

fn binary_error() -> (error: JevError)
    ensures
        error@ == binary_fault(),
{
    JevError::execution("Jev Parquet Variant metadata/value fields must have binary storage")
}

/// The text of an integer with decimal places: the integer, and the places as a
/// negative exponent.
pub open spec fn decimal_spelling(integer: Seq<char>, scale: i8) -> Seq<char> {
    integer + "e"@ + signed_decimal(-scale)
}

/// The number that an integer with decimal places denotes.
pub open spec fn decimal_number(integer: Seq<char>, scale: i8) -> Result<Json, Fault> {
    let text = decimal_spelling(integer, scale);
    if has_spelling(text) {
        Ok(Json::Number(spelling(text)))
    } else {
        Err(exponent_fault())
    }
}

/// The number that an integer with decimal places denotes. Every digit is kept.
pub fn decimal_value(integer: &str, scale: i8) -> (result: Result<JsonValue, JevError>)
    ensures
        match result {
            Ok(value) => decimal_number(integer@, scale) == Ok::<_, Fault>(value@),
            Err(error) => decimal_number(integer@, scale) == Err::<Json, _>(error@),
        },
{
    let text = join3(integer, "e", signed_decimal_text(-(scale as i64)).as_str());
    match canonical_number(text.as_str()) {
        Ok(number) => Ok(JsonValue::Number(number)),
        Err(error) => Err(error),
    }
}

/// The JSON value of a decoded Variant at a depth, or the first error.
pub open spec fn node_value(node: VariantNode, depth: nat) -> Result<Json, Fault>
    decreases node,
{
    if node is Invalid {
        Err(variant_fault())
    } else if !depth_allowed(depth, node is List || node is Object) {
        Err(nesting_fault())
    } else {
        match node {
            VariantNode::Null => Ok(Json::Null),
            VariantNode::Bool(value) => Ok(Json::Bool(value)),
            VariantNode::Int(value) => Ok(Json::Number(signed_decimal(value as int))),
            VariantNode::Float(Some(text)) => Ok(Json::Number(text@)),
            VariantNode::Decimal { integer, scale } => decimal_number(integer@, scale),
            VariantNode::Text(text) => Ok(Json::Text(text@)),
            VariantNode::List(items) => match node_items(items@, depth + 1) {
                Ok(items) => Ok(Json::Array(items)),
                Err(fault) => Err(fault),
            },
            VariantNode::Object(fields) => match node_fields(fields@, depth + 1) {
                Ok(fields) => Ok(Json::Object(fields)),
                Err(fault) => Err(fault),
            },
            _ => Err(variant_type_fault()),
        }
    }
}

/// The JSON values of decoded values at a depth, or the first error.
pub open spec fn node_items(items: Seq<VariantNode>, depth: nat) -> Result<Seq<Json>, Fault>
    decreases items,
{
    if items.len() == 0 {
        Ok(Seq::empty())
    } else {
        match node_items(items.drop_last(), depth) {
            Err(fault) => Err(fault),
            Ok(done) => match node_value(items.last(), depth) {
                Err(fault) => Err(fault),
                Ok(value) => Ok(done.push(value)),
            },
        }
    }
}

/// The members of a decoded object at a depth, in the order of their names, or
/// the first error.
pub open spec fn node_fields(fields: Seq<(String, VariantNode)>, depth: nat) -> Result<
    Members,
    Fault,
>
    decreases fields,
{
    if fields.len() == 0 {
        Ok(Seq::empty())
    } else {
        match node_fields(fields.drop_last(), depth) {
            Err(fault) => Err(fault),
            Ok(done) => match node_value(fields.last().1, depth) {
                Err(fault) => Err(fault),
                Ok(value) => if has_field(done, fields.last().0@) {
                    Err(variant_keys_fault())
                } else {
                    Ok(with_field(done, fields.last().0@, value))
                },
            },
        }
    }
}

/// An error in the first values is the error of all of them.
proof fn node_items_error(items: Seq<VariantNode>, depth: nat, count: int)
    requires
        0 <= count <= items.len(),
        node_items(items.take(count), depth) is Err,
    ensures
        node_items(items, depth) == node_items(items.take(count), depth),
    decreases items.len() - count,
{
    if count < items.len() {
        assert(items.take(count + 1).drop_last() =~= items.take(count));
        node_items_error(items, depth, count + 1);
    } else {
        assert(items.take(count) =~= items);
    }
}

/// An error in the first members is the error of all of them.
proof fn node_fields_error(fields: Seq<(String, VariantNode)>, depth: nat, count: int)
    requires
        0 <= count <= fields.len(),
        node_fields(fields.take(count), depth) is Err,
    ensures
        node_fields(fields, depth) == node_fields(fields.take(count), depth),
    decreases fields.len() - count,
{
    if count < fields.len() {
        assert(fields.take(count + 1).drop_last() =~= fields.take(count));
        node_fields_error(fields, depth, count + 1);
    } else {
        assert(fields.take(count) =~= fields);
    }
}

/// The JSON value of a decoded Variant at a depth.
pub fn variant_value(node: &VariantNode, depth: usize) -> (result: Result<JsonValue, JevError>)
    ensures
        match result {
            Ok(value) => node_value(*node, depth as nat) == Ok::<_, Fault>(value@),
            Err(error) => node_value(*node, depth as nat) == Err::<Json, _>(error@),
        },
    decreases node, 1int,
{
    broadcast use container_views;

    let container = match node {
        VariantNode::Invalid => {
            return Err(variant_error());
        },
        VariantNode::List(_) | VariantNode::Object(_) => true,
        _ => false,
    };
    if let Err(error) = check_depth(depth, container) {
        return Err(error);
    }
    match node {
        VariantNode::Null => Ok(JsonValue::Null),
        VariantNode::Bool(value) => Ok(JsonValue::Bool(*value)),
        VariantNode::Int(value) => Ok(JsonValue::Number(signed_decimal_text(*value))),
        VariantNode::Float(Some(text)) => Ok(JsonValue::Number(text.clone())),
        VariantNode::Decimal { integer, scale } => decimal_value(integer.as_str(), *scale),
        VariantNode::Text(text) => Ok(JsonValue::Text(text.clone())),
        VariantNode::List(items) => match variant_items(node, items, depth + 1) {
            Ok(values) => Ok(JsonValue::Array(values)),
            Err(error) => Err(error),
        },
        VariantNode::Object(fields) => match variant_fields(node, fields, depth + 1) {
            Ok(values) => Ok(JsonValue::Object(values)),
            Err(error) => Err(error),
        },
        _ => Err(
            JevError::execution(
                "Jev state cannot represent this Parquet Variant type losslessly in JSON; cast timestamps, dates, binary, UUIDs, or non-finite numbers explicitly to a supported form",
            ),
        ),
    }
}

/// The JSON values of the items of a decoded list.
fn variant_items(node: &VariantNode, items: &Vec<VariantNode>, depth: usize) -> (result: Result<
    Vec<JsonValue>,
    JevError,
>)
    requires
        decreases_to!(node => items@),
    ensures
        match result {
            Ok(values) => node_items(items@, depth as nat) == Ok::<_, Fault>(items_view(values@)),
            Err(error) => node_items(items@, depth as nat) == Err::<Seq<Json>, _>(error@),
        },
    decreases node, 0int,
{
    let mut values: Vec<JsonValue> = Vec::new();
    proof {
        assert(items_view(values@) =~= Seq::<Json>::empty());
        assert(items@.take(0) =~= Seq::<VariantNode>::empty());
    }
    for at in 0..items.len()
        invariant
            decreases_to!(node => items@),
            node_items(items@.take(at as int), depth as nat) == Ok::<_, Fault>(items_view(values@)),
    {
        let ghost next = items@.take(at as int + 1);
        let ghost before = items_view(values@);
        assert(next.drop_last() =~= items@.take(at as int));
        match variant_value(&items[at], depth) {
            Ok(value) => {
                let ghost entry = value@;
                values.push(value);
                assert(items_view(values@) =~= before.push(entry));
            },
            Err(error) => {
                proof {
                    node_items_error(items@, depth as nat, at as int + 1);
                }
                return Err(error);
            },
        }
    }
    assert(items@.take(items@.len() as int) =~= items@);
    Ok(values)
}

/// The members of a decoded object.
fn variant_fields(
    node: &VariantNode,
    fields: &Vec<(String, VariantNode)>,
    depth: usize,
) -> (result: Result<Vec<(String, JsonValue)>, JevError>)
    requires
        decreases_to!(node => fields@),
    ensures
        match result {
            Ok(values) => node_fields(fields@, depth as nat) == Ok::<_, Fault>(
                fields_view(values@),
            ),
            Err(error) => node_fields(fields@, depth as nat) == Err::<Members, _>(error@),
        },
    decreases node, 0int,
{
    let mut values: Vec<(String, JsonValue)> = Vec::new();
    proof {
        assert(fields_view(values@) =~= Seq::<(Seq<char>, Json)>::empty());
        assert(fields@.take(0) =~= Seq::<(String, VariantNode)>::empty());
    }
    for at in 0..fields.len()
        invariant
            decreases_to!(node => fields@),
            node_fields(fields@.take(at as int), depth as nat) == Ok::<_, Fault>(
                fields_view(values@),
            ),
            sorted(fields_view(values@)),
    {
        let ghost next = fields@.take(at as int + 1);
        assert(next.drop_last() =~= fields@.take(at as int));
        match variant_value(&fields[at].1, depth) {
            Ok(value) => {
                if put_member(&mut values, fields[at].0.clone(), value) {
                    proof {
                        node_fields_error(fields@, depth as nat, at as int + 1);
                    }
                    return Err(JevError::execution("Jev state Variant has duplicate object keys"));
                }
            },
            Err(error) => {
                proof {
                    node_fields_error(fields@, depth as nat, at as int + 1);
                }
                return Err(error);
            },
        }
    }
    assert(fields@.take(fields@.len() as int) =~= fields@);
    Ok(values)
}

/// Whether the Variant decoder accepts some bytes as metadata.
pub uninterp spec fn metadata_valid(metadata: Seq<u8>) -> bool;

/// `parquet::variant::VariantMetadata::try_new` accepts or refuses the bytes of
/// the metadata of a Variant.
#[verifier::external_body]
fn is_metadata_valid(metadata: &[u8]) -> (valid: bool)
    ensures
        valid == metadata_valid(metadata@),
{
    parquet::variant::VariantMetadata::try_new(metadata).is_ok()
}

/// The JSON value of an encoded Variant at a depth, or the first error: metadata
/// that is refused, no bytes at all, what the walk finds, a limit of the byte
/// form, and last what only the full decoder finds.
pub open spec fn decoded(metadata: Seq<u8>, variant: EncodedVariant, depth: nat) -> Result<
    Json,
    Fault,
> {
    if !metadata_valid(metadata) || variant.bytes@.len() == 0 {
        Err(variant_fault())
    } else {
        match node_value(variant.root, depth) {
            Err(fault) => Err(fault),
            Ok(value) => match written(value, 0, Seq::empty()) {
                Err(fault) => Err(fault),
                Ok(_) => if variant.valid {
                    Ok(value)
                } else {
                    Err(variant_fault())
                },
            },
        }
    }
}

/// The JSON value of an encoded Variant at a depth.
pub fn decode_variant(metadata: &[u8], variant: &EncodedVariant, depth: usize) -> (result: Result<
    JsonValue,
    JevError,
>)
    ensures
        match result {
            Ok(value) => decoded(metadata@, *variant, depth as nat) == Ok::<_, Fault>(value@),
            Err(error) => decoded(metadata@, *variant, depth as nat) == Err::<Json, _>(error@),
        },
{
    if !is_metadata_valid(metadata) || variant.bytes.len() == 0 {
        return Err(variant_error());
    }
    match variant_value(&variant.root, depth) {
        Err(error) => Err(error),
        Ok(value) => {
            proof {
                emit_writes(arranged(value@), 0, Seq::empty());
            }
            match canonical_bytes(&value) {
                Err(error) => Err(error),
                Ok(_) => if variant.valid {
                    Ok(value)
                } else {
                    Err(variant_error())
                },
            }
        },
    }
}

/// How deep the columns of a Variant may be nested. Each logical container takes
/// a wrapping struct and a typed container, and a list an element wrapper too.
pub const MAX_PHYSICAL_NESTING: usize = 192;

/// Whether a name occurs among the first names of some named things.
pub open spec fn occurs<T>(fields: Seq<(String, T)>, name: Seq<char>, count: int) -> bool {
    exists|i: int| 0 <= i < count && (#[trigger] fields[i]).0@ == name
}

/// Whether some name occurs twice.
pub open spec fn repeated<T>(fields: Seq<(String, T)>) -> bool {
    exists|j: int| 0 <= j < fields.len() && occurs(fields, (#[trigger] fields[j]).0@, j)
}

/// Whether some name occurs twice.
pub fn has_repeated<T>(fields: &Vec<(String, T)>) -> (yes: bool)
    ensures
        yes == repeated(fields@),
{
    for at in 0..fields.len()
        invariant
            forall|j: int| 0 <= j < at ==> !occurs(fields@, (#[trigger] fields@[j]).0@, j),
    {
        for before in 0..at
            invariant
                at < fields.len(),
                forall|i: int|
                    0 <= i < before ==> (#[trigger] fields@[i]).0@ != fields@[at as int].0@,
        {
            if same(fields[before].0.as_str(), fields[at].0.as_str()) {
                proof {
                    assert(fields@[before as int].0@ == fields@[at as int].0@);
                    assert(occurs(fields@, fields@[at as int].0@, at as int));
                }
                return true;
            }
        }
    }
    false
}

/// What looking through the columns of a Variant finds: nothing, or the first
/// thing that is wrong with them.
pub open spec fn storage_fault(
    storage: VariantStorage,
    metadata: Seq<u8>,
    physical_depth: nat,
) -> Option<Fault>
    decreases storage, 0int,
{
    if physical_depth > MAX_PHYSICAL_NESTING {
        Some(nesting_fault())
    } else {
        match storage {
            VariantStorage::Struct(fields) => if repeated(fields@) {
                Some(struct_fault())
            } else {
                fields_fault(fields@, metadata, physical_depth)
            },
            VariantStorage::List(items) => items_fault(items@, metadata, physical_depth),
            _ => None,
        }
    }
}

/// The first thing that is wrong with the columns of a struct. The encoded value
/// of a struct is decoded; the metadata at the top is not looked at.
pub open spec fn fields_fault(
    fields: Seq<(String, VariantStorage)>,
    metadata: Seq<u8>,
    physical_depth: nat,
) -> Option<Fault>
    decreases fields, 0int,
{
    if fields.len() == 0 {
        None
    } else {
        match fields_fault(fields.drop_last(), metadata, physical_depth) {
            Some(fault) => Some(fault),
            None => column_fault(fields.last().0@, fields.last().1, metadata, physical_depth),
        }
    }
}

/// What is wrong with one column of a struct.
pub open spec fn column_fault(
    name: Seq<char>,
    column: VariantStorage,
    metadata: Seq<u8>,
    physical_depth: nat,
) -> Option<Fault>
    decreases column, 1int,
{
    if name == "value"@ && column is Binary {
        match decoded(metadata, column->Binary_0, 0) {
            Ok(_) => None,
            Err(fault) => Some(fault),
        }
    } else if physical_depth == 0 && name == "metadata"@ {
        None
    } else {
        storage_fault(column, metadata, physical_depth + 1)
    }
}

/// The first thing that is wrong with the items of a list.
pub open spec fn items_fault(
    items: Seq<VariantStorage>,
    metadata: Seq<u8>,
    physical_depth: nat,
) -> Option<Fault>
    decreases items, 0int,
{
    if items.len() == 0 {
        None
    } else {
        match items_fault(items.drop_last(), metadata, physical_depth) {
            Some(fault) => Some(fault),
            None => storage_fault(items.last(), metadata, physical_depth + 1),
        }
    }
}

/// What is wrong with the first columns is what is wrong with all of them.
proof fn fields_fault_first(
    fields: Seq<(String, VariantStorage)>,
    metadata: Seq<u8>,
    physical_depth: nat,
    count: int,
)
    requires
        0 <= count <= fields.len(),
        fields_fault(fields.take(count), metadata, physical_depth) is Some,
    ensures
        fields_fault(fields, metadata, physical_depth) == fields_fault(
            fields.take(count),
            metadata,
            physical_depth,
        ),
    decreases fields.len() - count,
{
    if count < fields.len() {
        assert(fields.take(count + 1).drop_last() =~= fields.take(count));
        fields_fault_first(fields, metadata, physical_depth, count + 1);
    } else {
        assert(fields.take(count) =~= fields);
    }
}

/// What is wrong with the first items is what is wrong with all of them.
proof fn items_fault_first(
    items: Seq<VariantStorage>,
    metadata: Seq<u8>,
    physical_depth: nat,
    count: int,
)
    requires
        0 <= count <= items.len(),
        items_fault(items.take(count), metadata, physical_depth) is Some,
    ensures
        items_fault(items, metadata, physical_depth) == items_fault(
            items.take(count),
            metadata,
            physical_depth,
        ),
    decreases items.len() - count,
{
    if count < items.len() {
        assert(items.take(count + 1).drop_last() =~= items.take(count));
        items_fault_first(items, metadata, physical_depth, count + 1);
    } else {
        assert(items.take(count) =~= items);
    }
}

/// Looks through the columns of a Variant before anything that recurses without a
/// bound does.
pub fn preflight_variant_storage(
    storage: &VariantStorage,
    metadata: &[u8],
    physical_depth: usize,
) -> (result: Result<(), JevError>)
    ensures
        match result {
            Ok(_) => storage_fault(*storage, metadata@, physical_depth as nat) is None,
            Err(error) => storage_fault(*storage, metadata@, physical_depth as nat) == Some(error@),
        },
    decreases storage,
{
    if physical_depth > MAX_PHYSICAL_NESTING {
        return Err(JevError::execution("Jev state exceeds 64 nesting levels"));
    }
    match storage {
        VariantStorage::Struct(fields) => {
            if has_repeated(fields) {
                return Err(JevError::execution("Jev state Struct has duplicate field names"));
            }
            assert(fields@.take(0) =~= Seq::<(String, VariantStorage)>::empty());
            for at in 0..fields.len()
                invariant
                    decreases_to!(storage => fields@),
                    *storage == VariantStorage::Struct(*fields),
                    !repeated(fields@),
                    physical_depth <= MAX_PHYSICAL_NESTING,
                    fields_fault(fields@.take(at as int), metadata@, physical_depth as nat) is None,
            {
                let ghost next = fields@.take(at as int + 1);
                assert(next.drop_last() =~= fields@.take(at as int));
                let name = fields[at].0.as_str();
                let column = &fields[at].1;
                let encoded = match column {
                    VariantStorage::Binary(encoded) if same(name, "value") => Some(encoded),
                    _ => None,
                };
                let result: Result<(), JevError> = match encoded {
                    Some(encoded) => match decode_variant(metadata, encoded, 0) {
                        Ok(_) => Ok(()),
                        Err(error) => Err(error),
                    },
                    None => if physical_depth == 0 && same(name, "metadata") {
                        Ok(())
                    } else {
                        preflight_variant_storage(column, metadata, physical_depth + 1)
                    },
                };
                proof {
                    let found = column_fault(name@, *column, metadata@, physical_depth as nat);
                    assert(match result {
                        Ok(_) => found is None,
                        Err(error) => found == Some(error@),
                    });
                }
                if let Err(error) = result {
                    proof {
                        fields_fault_first(
                            fields@,
                            metadata@,
                            physical_depth as nat,
                            at as int + 1,
                        );
                    }
                    return Err(error);
                }
            }
            assert(fields@.take(fields@.len() as int) =~= fields@);
            Ok(())
        },
        VariantStorage::List(items) => {
            assert(items@.take(0) =~= Seq::<VariantStorage>::empty());
            for at in 0..items.len()
                invariant
                    decreases_to!(storage => items@),
                    *storage == VariantStorage::List(*items),
                    physical_depth <= MAX_PHYSICAL_NESTING,
                    items_fault(items@.take(at as int), metadata@, physical_depth as nat) is None,
            {
                let ghost next = items@.take(at as int + 1);
                assert(next.drop_last() =~= items@.take(at as int));
                if let Err(error) = preflight_variant_storage(
                    &items[at],
                    metadata,
                    physical_depth + 1,
                ) {
                    proof {
                        items_fault_first(items@, metadata@, physical_depth as nat, at as int + 1);
                    }
                    return Err(error);
                }
            }
            assert(items@.take(items@.len() as int) =~= items@);
            Ok(())
        },
        _ => Ok(()),
    }
}

/// The JSON value of a stored Variant at a depth, or the first error.
pub open spec fn stored_value(variant: VariantState, depth: nat) -> Result<Json, Fault> {
    match variant.metadata {
        MetadataColumn::Missing | MetadataColumn::Null => Err(variant_fault()),
        MetadataColumn::Other => Err(binary_fault()),
        MetadataColumn::Binary(metadata) => match storage_fault(variant.storage, metadata@, 0) {
            Some(fault) => Err(fault),
            None => match variant.unshredded {
                Unshredded::Invalid => Err(variant_fault()),
                Unshredded::Null => Ok(Json::Null),
                Unshredded::Other => Err(binary_fault()),
                Unshredded::Binary(encoded) => decoded(metadata@, encoded, depth),
            },
        },
    }
}

/// The JSON value of a stored Variant at a depth.
pub fn variant_array_value(variant: &VariantState, depth: usize) -> (result: Result<
    JsonValue,
    JevError,
>)
    ensures
        match result {
            Ok(value) => stored_value(*variant, depth as nat) == Ok::<_, Fault>(value@),
            Err(error) => stored_value(*variant, depth as nat) == Err::<Json, _>(error@),
        },
{
    let metadata = match &variant.metadata {
        MetadataColumn::Missing | MetadataColumn::Null => {
            return Err(variant_error());
        },
        MetadataColumn::Other => {
            return Err(binary_error());
        },
        MetadataColumn::Binary(metadata) => metadata,
    };
    if let Err(error) = preflight_variant_storage(&variant.storage, metadata.as_slice(), 0) {
        return Err(error);
    }
    match &variant.unshredded {
        Unshredded::Invalid => Err(variant_error()),
        Unshredded::Null => Ok(JsonValue::Null),
        Unshredded::Other => Err(binary_error()),
        Unshredded::Binary(encoded) => decode_variant(metadata.as_slice(), encoded, depth),
    }
}

} // verus!