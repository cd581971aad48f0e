//! What is sent of a Variant, told kind by kind.
use vstd::prelude::*;

use crate::canonical::fits;
use crate::errors::{row_fault, Fault};
use crate::json::{collected, has_field, sorted, with_field, Json, Members};
use crate::json_laws::holds;
use crate::text::signed_decimal;
use crate::value_laws::{
    decimal_texts_keep_their_value, distinct_members_are_held, integers_are_written, is_integer,
    is_quotient,
};
use crate::variant::{
    column_fault, decoded, fields_fault, items_fault, metadata_valid, node_fields, node_items,
    node_value, occurs, repeated, storage_fault, stored_value, EncodedVariant, MetadataColumn,
    Unshredded, VariantNode, VariantState, VariantStorage,
};
use crate::writing_laws::fitting_values_are_written;

verus! {

/// Every simple value in a Variant is sent as the JSON value of the same meaning; what JSON
/// cannot say is refused.
pub proof fn variant_scalars_keep_their_meaning(node: VariantNode, depth: nat)
    requires
        depth <= 64,
    ensures
        match node {
            VariantNode::Null => node_value(node, depth) == Ok::<_, Fault>(Json::Null),
            VariantNode::Bool(truth) => node_value(node, depth) == Ok::<_, Fault>(
                Json::Bool(truth),
            ),
            VariantNode::Int(integer) => node_value(node, depth) matches Ok(sent) && is_integer(
                sent,
                integer as int,
            ),
            VariantNode::Float(Some(text)) => node_value(node, depth) == Ok::<_, Fault>(
                Json::Number(text@),
            ),
            VariantNode::Text(text) => node_value(node, depth) == Ok::<_, Fault>(
                Json::Text(text@),
            ),
            VariantNode::Float(None) => node_value(node, depth) is Err,
            VariantNode::Other => node_value(node, depth) is Err,
            VariantNode::Invalid => node_value(node, depth) is Err,
            _ => true,
        },
{
    if let VariantNode::Int(integer) = node {
        integers_are_written(integer as int);
    }
}

/// A decimal number in a Variant is sent as the number of the same value.
pub proof fn variant_decimals_keep_their_value(
    integer: String,
    scale: i8,
    number: int,
    depth: nat,
)
    requires
        integer@ == signed_decimal(number),
        integer@.len() <= 1000,
        depth <= 64,
    ensures
        node_value(VariantNode::Decimal { integer, scale }, depth) matches Ok(value)
            && is_quotient(value, number, scale as int),
{
    decimal_texts_keep_their_value(integer@, scale, number);
}

/// What some nodes are sent as.
spec fn node_results(items: Seq<VariantNode>, depth: nat) -> Seq<Result<Json, Fault>> {
    Seq::new(items.len(), |i: int| node_value(items[i], depth))
}

/// The values of some results, where all of them are there.
spec fn all_values(results: Seq<Result<Json, Fault>>) -> Result<Seq<Json>, Fault>
    decreases results.len(),
{
    if results.len() == 0 {
        Ok(Seq::empty())
    } else {
        match all_values(results.drop_last()) {
            Err(fault) => Err(fault),
            Ok(done) => match results.last() {
                Err(fault) => Err(fault),
                Ok(value) => Ok(done.push(value)),
            },
        }
    }
}

/// Nodes give the values of their results.
proof fn nodes_give_results(items: Seq<VariantNode>, depth: nat)
    ensures
        node_items(items, depth) == all_values(node_results(items, depth)),
    decreases items.len(),
{
    let results = node_results(items, depth);
    if items.len() > 0 {
        nodes_give_results(items.drop_last(), depth);
        assert(results.drop_last() =~= node_results(items.drop_last(), depth));
        assert(results.last() == results[items.len() - 1]);
    }
}

/// Results are taken one by one.
proof fn results_are_taken(results: Seq<Result<Json, Fault>>)
    ensures
        all_values(results) is Ok <==> forall|i: int|
            0 <= i < results.len() ==> #[trigger] results[i] is Ok,
        all_values(results) matches Ok(values) ==> values.len() == results.len() && forall|i: int|
            0 <= i < results.len() ==> #[trigger] results[i] == Ok::<_, Fault>(values[i]),
    decreases results.len(),
{
    if results.len() > 0 {
        let rest = results.drop_last();
        results_are_taken(rest);
        if forall|i: int| 0 <= i < results.len() ==> #[trigger] results[i] is Ok {
            assert forall|i: int| 0 <= i < rest.len() implies #[trigger] rest[i] is Ok by {
                assert(results[i] is Ok);
            }
            assert(results[results.len() - 1] is Ok);
        }
        if all_values(results) is Ok {
            let done = all_values(rest)->Ok_0;
            let values = all_values(results)->Ok_0;
            assert forall|i: int| 0 <= i < results.len() implies #[trigger] results[i] == Ok::<
                _,
                Fault,
            >(values[i]) by {
                if i < rest.len() {
                    assert(rest[i] == results[i]);
                    assert(values[i] == done[i]);
                }
            }
        }
    }
}

/// A list in a Variant is sent as the array of what its items are sent as, each in its place.
pub proof fn variant_lists_are_sent_item_by_item(items: Vec<VariantNode>, depth: nat)
    requires
        depth < 64,
    ensures
        ({
            let sent = node_value(VariantNode::List(items), depth);
            &&& sent is Ok <==> forall|i: int|
                0 <= i < items@.len() ==> node_value(#[trigger] items@[i], depth + 1) is Ok
            &&& sent matches Ok(value) ==> (value matches Json::Array(values) && values.len()
                == items@.len() && forall|i: int|
                0 <= i < values.len() ==> node_value(items@[i], depth + 1) == Ok::<_, Fault>(
                    #[trigger] values[i],
                ))
        }),
{
    let results = node_results(items@, depth + 1);
    nodes_give_results(items@, depth + 1);
    results_are_taken(results);
    assert forall|i: int| 0 <= i < items@.len() implies results[i] == node_value(
        #[trigger] items@[i],
        depth + 1,
    ) by {}
    list_is_its_items(items, depth);
    if let Ok(values) = node_items(items@, depth + 1) {
        assert forall|i: int| 0 <= i < values.len() implies node_value(items@[i], depth + 1)
            == Ok::<_, Fault>(#[trigger] values[i]) by {
            assert(results[i] == Ok::<_, Fault>(values[i]));
        }
        assert forall|i: int| 0 <= i < items@.len() implies node_value(
            #[trigger] items@[i],
            depth + 1,
        ) is Ok by {
            assert(results[i] is Ok);
        }
    }
}

/// A list is sent where its items are.
proof fn list_is_its_items(items: Vec<VariantNode>, depth: nat)
    requires
        depth < 64,
    ensures
        node_value(VariantNode::List(items), depth) == match node_items(items@, depth + 1) {
            Ok(values) => Ok::<_, Fault>(Json::Array(values)),
            Err(fault) => Err(fault),
        },
{
}

/// The members that some names and results give.
spec fn member_results(
    fields: Seq<(String, VariantNode)>,
    depth: nat,
) -> Seq<(Seq<char>, Result<Json, Fault>)> {
    Seq::new(fields.len(), |i: int| (fields[i].0@, node_value(fields[i].1, depth)))
}

/// The members of some names and results, where all are there and no name comes twice.
spec fn all_members(results: Seq<(Seq<char>, Result<Json, Fault>)>) -> Result<Members, Fault>
    decreases results.len(),
{
    if results.len() == 0 {
        Ok(Seq::empty())
    } else {
        match all_members(results.drop_last()) {
            Err(fault) => Err(fault),
            Ok(done) => match results.last().1 {
                Err(fault) => Err(fault),
                Ok(value) => if has_field(done, results.last().0) {
                    Err(row_fault("Jev state Variant has duplicate object keys"@))
                } else {
                    Ok(with_field(done, results.last().0, value))
                },
            },
        }
    }
}

/// Fields give the members of their results.
proof fn fields_give_results(fields: Seq<(String, VariantNode)>, depth: nat)
    ensures
        node_fields(fields, depth) == all_members(member_results(fields, depth)),
    decreases fields.len(),
{
    let results = member_results(fields, depth);
    if fields.len() > 0 {
        fields_give_results(fields.drop_last(), depth);
        assert(results.drop_last() =~= member_results(fields.drop_last(), depth));
        assert(results.last() == results[fields.len() - 1]);
    }
}

/// The members of results that are all there.
spec fn plain_members(results: Seq<(Seq<char>, Result<Json, Fault>)>) -> Members {
    Seq::new(results.len(), |i: int| (results[i].0, results[i].1->Ok_0))
}

/// Whether all results are there.
spec fn all_there(results: Seq<(Seq<char>, Result<Json, Fault>)>) -> bool {
    forall|i: int| 0 <= i < results.len() ==> (#[trigger] results[i]).1 is Ok
}

/// Whether no name comes twice.
spec fn all_apart(results: Seq<(Seq<char>, Result<Json, Fault>)>) -> bool {
    forall|i: int, j: int|
        0 <= i < j < results.len() ==> (#[trigger] results[i]).0 != (#[trigger] results[j]).0
}

/// Members are taken where all are there and each has a name of its own.
proof fn members_are_taken(results: Seq<(Seq<char>, Result<Json, Fault>)>)
    ensures
        all_members(results) is Ok <==> all_there(results) && all_apart(results),
        all_members(results) matches Ok(members) ==> members == collected(plain_members(results)),
    decreases results.len(),
{
    if results.len() == 0 {
        assert(plain_members(results) =~= Seq::empty());
    } else {
        let rest = results.drop_last();
        let last = results.last();
        members_are_taken(rest);
        let before = plain_members(rest);
        crate::json::collected_sorted(before);
        assert(plain_members(results).drop_last() =~= before);
        assert(results[results.len() - 1] == last);
        assert forall|i: int| 0 <= i < rest.len() implies rest[i] == #[trigger] results[i] by {}
        if all_there(results) && all_apart(results) {
            assert(all_there(rest)) by {
                assert forall|i: int| 0 <= i < rest.len() implies (
                #[trigger] rest[i]).1 is Ok by {
                    assert(rest[i] == results[i]);
                }
            }
            assert(all_apart(rest)) by {
                assert forall|i: int, j: int| 0 <= i < j < rest.len() implies (
                #[trigger] rest[i]).0 != (#[trigger] rest[j]).0 by {
                    assert(results[i].0 != results[j].0);
                }
            }
            if has_field(before, last.0) {
                let i = choose|i: int|
                    0 <= i < before.len() && (#[trigger] before[i]).0 == last.0;
                assert(results[i].0 != results[results.len() - 1].0);
            }
        }
        if all_members(results) is Ok {
            assert(!has_field(before, last.0));
            assert forall|i: int| 0 <= i < results.len() implies (
            #[trigger] results[i]).1 is Ok by {
                if i < rest.len() {
                    assert(rest[i] == results[i]);
                }
            }
            assert forall|i: int, j: int| 0 <= i < j < results.len() implies (
            #[trigger] results[i]).0 != (#[trigger] results[j]).0 by {
                assert(rest[i] == results[i]);
                if j < rest.len() {
                    assert(rest[j] == results[j]);
                } else {
                    assert(before[i].0 != last.0);
                }
            }
        }
    }
}

/// An object in a Variant is sent as an object with one member for each of its fields: under
/// the field's name, what the field is sent as. It is sent exactly where every field can be
/// sent and no name comes twice.
pub proof fn variant_objects_are_sent_field_by_field(
    fields: Vec<(String, VariantNode)>,
    depth: nat,
)
    requires
        depth < 64,
    ensures
        ({
            let sent = node_value(VariantNode::Object(fields), depth);
            &&& sent is Ok <==> {
                &&& forall|i: int|
                    0 <= i < fields@.len() ==> node_value((#[trigger] fields@[i]).1, depth + 1)
                        is Ok
                &&& forall|i: int, j: int|
                    0 <= i < j < fields@.len() ==> (#[trigger] fields@[i]).0@ != (
                    #[trigger] fields@[j]).0@
            }
            &&& sent matches Ok(value) ==> {
                &&& value matches Json::Object(members) && members.len() == fields@.len()
                    && sorted(members)
                &&& forall|i: int|
                    0 <= i < fields@.len() ==> holds(
                        value,
                        (#[trigger] fields@[i]).0@,
                        node_value(fields@[i].1, depth + 1)->Ok_0,
                    )
            }
        }),
{
    let results = member_results(fields@, depth + 1);
    fields_give_results(fields@, depth + 1);
    members_are_taken(results);
    object_is_its_fields(fields, depth);
    assert forall|i: int| 0 <= i < fields@.len() implies results[i].0 == (
    #[trigger] fields@[i]).0@ && results[i].1 == node_value(fields@[i].1, depth + 1) by {}
    if all_there(results) && all_apart(results) {
        assert forall|i: int| 0 <= i < fields@.len() implies node_value(
            (#[trigger] fields@[i]).1,
            depth + 1,
        ) is Ok by {
            assert(results[i].1 is Ok);
        }
        assert forall|i: int, j: int| 0 <= i < j < fields@.len() implies (
        #[trigger] fields@[i]).0@ != (#[trigger] fields@[j]).0@ by {
            assert(results[i].0 != results[j].0);
        }
        let all = plain_members(results);
        assert forall|i: int, j: int| 0 <= i < j < all.len() implies (#[trigger] all[i]).0 != (
        #[trigger] all[j]).0 by {
            assert(results[i].0 != results[j].0);
        }
        distinct_members_are_held(all);
        assert forall|i: int| 0 <= i < fields@.len() implies holds(
            Json::Object(collected(all)),
            (#[trigger] fields@[i]).0@,
            node_value(fields@[i].1, depth + 1)->Ok_0,
        ) by {
            assert(holds(Json::Object(collected(all)), all[i].0, all[i].1));
        }
    }
}

/// An object is sent where its fields are.
proof fn object_is_its_fields(fields: Vec<(String, VariantNode)>, depth: nat)
    requires
        depth < 64,
    ensures
        node_value(VariantNode::Object(fields), depth) == match node_fields(fields@, depth + 1) {
            Ok(members) => Ok::<_, Fault>(Json::Object(members)),
            Err(fault) => Err(fault),
        },
{
}

/// Nothing in a Variant is sent from below the sixty-fourth level, and no container stands on
/// it.
pub proof fn deep_variants_are_refused(node: VariantNode, depth: nat)
    requires
        depth > 64 || depth == 64 && (node is List || node is Object),
    ensures
        node_value(node, depth) is Err,
{
}

/// Encoded bytes are sent as what they decode to, where the metadata and all of the encoding
/// are valid and the value fits; else they are refused.
pub proof fn encoded_variants_are_sent(metadata: Seq<u8>, variant: EncodedVariant, depth: nat)
    ensures
        decoded(metadata, variant, depth) is Ok <==> {
            &&& metadata_valid(metadata)
            &&& variant.bytes@.len() > 0
            &&& variant.valid
            &&& node_value(variant.root, depth) matches Ok(value) && fits(value)
        },
        decoded(metadata, variant, depth) matches Ok(value) ==> node_value(variant.root, depth)
            == Ok::<_, Fault>(value),
{
    if let Ok(value) = node_value(variant.root, depth) {
        fitting_values_are_written(value);
    }
}

/// A stored Variant is sent as what its columns give together: null as null, bytes as what they
/// decode to. Without binary metadata it is refused, and so it is where some part of its
/// storage cannot be read.
pub proof fn stored_variants_are_sent(variant: VariantState, depth: nat)
    ensures
        !(variant.metadata is Binary) ==> stored_value(variant, depth) is Err,
        variant.metadata matches MetadataColumn::Binary(metadata) ==> {
            &&& storage_fault(variant.storage, metadata@, 0) is Some ==> stored_value(
                variant,
                depth,
            ) is Err
            &&& storage_fault(variant.storage, metadata@, 0) is None ==> match variant.unshredded {
                Unshredded::Null => stored_value(variant, depth) == Ok::<_, Fault>(Json::Null),
                Unshredded::Binary(encoded) => stored_value(variant, depth) == decoded(
                    metadata@,
                    encoded,
                    depth,
                ),
                _ => stored_value(variant, depth) is Err,
            }
        },
{
}

/// Whether one field of a Variant's storage can be read: a binary value where it decodes; the
/// metadata at the top as it is; any other one level further down.
pub open spec fn field_readable(
    name: Seq<char>,
    column: VariantStorage,
    metadata: Seq<u8>,
    level: nat,
) -> bool {
    match column {
        VariantStorage::Binary(encoded) if name == "value"@ => decoded(metadata, encoded, 0) is Ok,
        _ => level == 0 && name == "metadata"@ || storage_fault(column, metadata, level + 1)
            is None,
    }
}

/// A Variant's storage can be read exactly where every part of it can: structs whose fields
/// have names of their own and are readable, lists whose items are, and nothing more than a
/// hundred and ninety-two levels down.
pub proof fn storage_is_read_part_by_part(
    storage: VariantStorage,
    metadata: Seq<u8>,
    level: nat,
)
    ensures
        level > 192 ==> storage_fault(storage, metadata, level) is Some,
        level <= 192 ==> match storage {
            VariantStorage::Struct(fields) => storage_fault(storage, metadata, level) is None
                <==> {
                &&& forall|i: int, j: int|
                    0 <= i < j < fields@.len() ==> (#[trigger] fields@[i]).0@ != (
                    #[trigger] fields@[j]).0@
                &&& forall|i: int|
                    0 <= i < fields@.len() ==> field_readable(
                        (#[trigger] fields@[i]).0@,
                        fields@[i].1,
                        metadata,
                        level,
                    )
            },
            VariantStorage::List(items) => storage_fault(storage, metadata, level) is None
                <==> forall|i: int|
                0 <= i < items@.len() ==> storage_fault(#[trigger] items@[i], metadata, level + 1)
                    is None,
            _ => storage_fault(storage, metadata, level) is None,
        },
{
    if level <= 192 {
        match storage {
            VariantStorage::Struct(fields) => {
                columns_are_read(fields@, metadata, level);
                if repeated(fields@) {
                    let j = choose|j: int|
                        0 <= j < fields@.len() && occurs(fields@, (#[trigger] fields@[j]).0@, j);
                    let i = choose|i: int|
                        0 <= i < j && (#[trigger] fields@[i]).0@ == fields@[j].0@;
                    assert(fields@[i].0@ == fields@[j].0@);
                } else {
                    assert forall|i: int, j: int| 0 <= i < j < fields@.len() implies (
                    #[trigger] fields@[i]).0@ != (#[trigger] fields@[j]).0@ by {
                        if fields@[i].0@ == fields@[j].0@ {
                            assert(occurs(fields@, fields@[j].0@, j));
                        }
                    }
                }
            },
            VariantStorage::List(items) => {
                parts_are_read(items@, metadata, level);
            },
            _ => {},
        }
    }
}

/// Fields are read one by one.
proof fn columns_are_read(
    fields: Seq<(String, VariantStorage)>,
    metadata: Seq<u8>,
    level: nat,
)
    ensures
        fields_fault(fields, metadata, level) is None <==> forall|i: int|
            0 <= i < fields.len() ==> field_readable(
                (#[trigger] fields[i]).0@,
                fields[i].1,
                metadata,
                level,
            ),
    decreases fields.len(),
{
    if fields.len() > 0 {
        let rest = fields.drop_last();
        columns_are_read(rest, metadata, level);
        let last = fields.last();
        assert(last == fields[fields.len() - 1]);
        assert(column_fault(last.0@, last.1, metadata, level) is None <==> field_readable(
            last.0@,
            last.1,
            metadata,
            level,
        ));
        if forall|i: int|
            0 <= i < fields.len() ==> field_readable(
                (#[trigger] fields[i]).0@,
                fields[i].1,
                metadata,
                level,
            ) {
            assert forall|i: int| 0 <= i < rest.len() implies field_readable(
                (#[trigger] rest[i]).0@,
                rest[i].1,
                metadata,
                level,
            ) by {
                assert(rest[i] == fields[i]);
            }
        }
        if fields_fault(fields, metadata, level) is None {
            assert forall|i: int| 0 <= i < fields.len() implies field_readable(
                (#[trigger] fields[i]).0@,
                fields[i].1,
                metadata,
                level,
            ) by {
                if i < rest.len() {
                    assert(rest[i] == fields[i]);
                }
            }
        }
    }
}

/// Items are read one by one.
proof fn parts_are_read(items: Seq<VariantStorage>, metadata: Seq<u8>, level: nat)
    ensures
        items_fault(items, metadata, level) is None <==> forall|i: int|
            0 <= i < items.len() ==> storage_fault(#[trigger] items[i], metadata, level + 1)
                is None,
    decreases items.len(),
{
    if items.len() > 0 {
        let rest = items.drop_last();
        parts_are_read(rest, metadata, level);
        assert(items.last() == items[items.len() - 1]);
        if forall|i: int|
            0 <= i < items.len() ==> storage_fault(#[trigger] items[i], metadata, level + 1)
                is None {
            assert forall|i: int| 0 <= i < rest.len() implies storage_fault(
                #[trigger] rest[i],
                metadata,
                level + 1,
            ) is None by {
                assert(rest[i] == items[i]);
            }
        }
        if items_fault(items, metadata, level) is None {
            assert forall|i: int| 0 <= i < items.len() implies storage_fault(
                #[trigger] items[i],
                metadata,
                level + 1,
            ) is None by {
                if i < rest.len() {
                    assert(rest[i] == items[i]);
                }
            }
        }
    }
}

} // verus!
