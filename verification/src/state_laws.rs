//! What holds of every row value that is sent.
use vstd::prelude::*;

use crate::canonical::MAX_NESTING;
use crate::equivalence::{same_members_collect_alike, unique_names};
use crate::errors::Fault;
use crate::json::{collected, has_field, sorted, with_field, with_field_sorted, Json, Members};
use crate::state::{
    nested, nested_entries, nested_fields, StateColumn, StateMap, StateScalar, StateStruct,
};
use crate::variant::{occurs, repeated};

verus! {

/// The members that the fields of a struct stand for, as they come.
pub open spec fn field_values(fields: Seq<(String, StateColumn)>, depth: nat) -> Members {
    Seq::new(
        fields.len(),
        |i: int|
            (
                fields[i].0@,
                nested(fields[i].1.value, fields[i].1.extension, depth)->Ok_0,
            ),
    )
}

/// A struct that can be sent has a value for each of its fields, and its members
/// are those values in the order of their names.
pub proof fn struct_members(fields: Seq<(String, StateColumn)>, depth: nat)
    requires
        nested_fields(fields, depth) is Ok,
    ensures
        nested_fields(fields, depth)->Ok_0 == collected(field_values(fields, depth)),
        forall|i: int|
            0 <= i < fields.len() ==> nested(
                (#[trigger] fields[i]).1.value,
                fields[i].1.extension,
                depth,
            ) is Ok,
    decreases fields.len(),
{
    if fields.len() > 0 {
        let rest = fields.drop_last();
        struct_members(rest, depth);
        let all = field_values(fields, depth);
        assert(all.drop_last() =~= field_values(rest, depth));
        assert forall|i: int| 0 <= i < fields.len() implies nested(
            (#[trigger] fields[i]).1.value,
            fields[i].1.extension,
            depth,
        ) is Ok by {
            if i < rest.len() {
                assert(rest[i] == fields[i]);
            }
        }
    } else {
        assert(field_values(fields, depth) =~= Seq::empty());
    }
}

/// Fields with names of their own give members with names of their own.
proof fn distinct_fields(fields: Seq<(String, StateColumn)>, depth: nat)
    requires
        !repeated(fields),
    ensures
        unique_names(field_values(fields, depth)),
{
    let all = field_values(fields, depth);
    assert forall|i: int, j: int| 0 <= i < j < all.len() implies (#[trigger] all[i]).0 != (
    #[trigger] all[j]).0 by {
        if fields[i].0@ == fields[j].0@ {
            assert(occurs(fields, fields[j].0@, j));
        }
    }
}

/// The order of the fields of a struct does not show in what is sent: two structs
/// with the same fields in any order have the same JSON value.
pub proof fn field_order_does_not_show(
    first: Seq<(String, StateColumn)>,
    second: Seq<(String, StateColumn)>,
    depth: nat,
)
    requires
        !repeated(first),
        !repeated(second),
        forall|i: int| 0 <= i < first.len() ==> second.contains(#[trigger] first[i]),
        forall|j: int| 0 <= j < second.len() ==> first.contains(#[trigger] second[j]),
        nested_fields(first, depth) is Ok,
        nested_fields(second, depth) is Ok,
    ensures
        nested_fields(first, depth) == nested_fields(second, depth),
{
    struct_members(first, depth);
    struct_members(second, depth);
    distinct_fields(first, depth);
    distinct_fields(second, depth);
    let a = field_values(first, depth);
    let b = field_values(second, depth);
    assert forall|i: int| 0 <= i < a.len() implies b.contains(#[trigger] a[i]) by {
        assert(second.contains(first[i]));
        let j = choose|j: int| 0 <= j < second.len() && second[j] == first[i];
        assert(b[j] == a[i]);
    }
    assert forall|j: int| 0 <= j < b.len() implies a.contains(#[trigger] b[j]) by {
        assert(first.contains(second[j]));
        let i = choose|i: int| 0 <= i < first.len() && first[i] == second[j];
        assert(a[i] == b[j]);
    }
    same_members_collect_alike(a, b);
}

/// Whether a struct and a map hold the same names and values.
pub open spec fn same_entries(
    fields: Seq<(String, StateColumn)>,
    entries: Seq<(StateScalar, StateScalar)>,
    extension: Option<String>,
) -> bool {
    &&& fields.len() == entries.len()
    &&& forall|i: int|
        0 <= i < fields.len() ==> {
            &&& entries[i].0 == StateScalar::Text((#[trigger] fields[i]).0)
            &&& entries[i].1 == fields[i].1.value
            &&& fields[i].1.extension == extension
        }
}

/// Whether members are in order and have the names of the first fields.
spec fn named_alike(done: Members, fields: Seq<(String, StateColumn)>, count: int) -> bool {
    &&& sorted(done)
    &&& forall|name: Seq<char>| #[trigger] has_field(done, name) <==> occurs(fields, name, count)
}

/// Putting the member for the next field keeps the names alike.
proof fn named_alike_grows(
    done: Members,
    fields: Seq<(String, StateColumn)>,
    count: int,
    value: Json,
)
    requires
        0 <= count < fields.len(),
        named_alike(done, fields, count),
    ensures
        named_alike(with_field(done, fields[count].0@, value), fields, count + 1),
{
    let last = fields[count].0@;
    with_field_sorted(done, last, value);
    assert forall|name: Seq<char>| #[trigger]
        has_field(with_field(done, last, value), name) <==> occurs(fields, name, count + 1) by {
        assert(has_field(done, name) <==> occurs(fields, name, count));
        if occurs(fields, name, count + 1) {
            let i = choose|i: int| 0 <= i < count + 1 && (#[trigger] fields[i]).0@ == name;
            if i < count {
                assert(occurs(fields, name, count));
            }
        }
        if name == last {
            assert(fields[count].0@ == name);
        }
        if occurs(fields, name, count) {
            let i = choose|i: int| 0 <= i < count && (#[trigger] fields[i]).0@ == name;
            assert(fields[i].0@ == name);
        }
    }
}

/// A text is its own JSON value.
proof fn text_is_itself(text: String, depth: nat)
    requires
        depth <= MAX_NESTING,
    ensures
        nested(StateScalar::Text(text), None, depth) == Ok::<_, Fault>(Json::Text(text@)),
{
}

/// The first fields of a struct and the first entries of a map with the same names
/// and values give the same members.
proof fn same_entries_same_members(
    fields: Seq<(String, StateColumn)>,
    entries: Seq<(StateScalar, StateScalar)>,
    extension: Option<String>,
    depth: nat,
    count: int,
)
    requires
        same_entries(fields, entries, extension),
        !repeated(fields),
        depth <= MAX_NESTING,
        0 <= count <= fields.len(),
    ensures
        nested_fields(fields.take(count), depth) == nested_entries(
            entries.take(count),
            None,
            extension,
            depth,
        ),
        nested_fields(fields.take(count), depth) matches Ok(done) ==> named_alike(
            done,
            fields,
            count,
        ),
    decreases count,
{
    if count > 0 {
        same_entries_same_members(fields, entries, extension, depth, count - 1);
        let a = fields.take(count);
        let b = entries.take(count);
        assert(a.drop_last() =~= fields.take(count - 1));
        assert(b.drop_last() =~= entries.take(count - 1));
        let last = fields[count - 1];
        assert(a.last() == last);
        assert(b.last() == entries[count - 1]);
        assert(entries[count - 1].0 == StateScalar::Text(last.0));
        text_is_itself(last.0, depth);
        assert(!occurs(fields, last.0@, count - 1)) by {
            if occurs(fields, last.0@, count - 1) {
                assert(occurs(fields, fields[count - 1].0@, count - 1));
            }
        }
        if let Ok(done) = nested_fields(fields.take(count - 1), depth) {
            assert(!has_field(done, last.0@));
            if let Ok(value) = nested(last.1.value, last.1.extension, depth) {
                named_alike_grows(done, fields, count - 1, value);
            }
        }
    } else {
        assert(nested_fields(fields.take(0), depth)->Ok_0 =~= Seq::empty());
    }
}

/// A struct and a map with the same names and values have the same JSON value,
/// and where one is an error the other is the same error.
pub proof fn struct_and_map_agree(record: StateStruct, map: StateMap, depth: nat)
    requires
        record.rows == 1 && !record.null,
        map.rows == 1 && !map.null,
        map.key_extension is None,
        same_entries(record.fields@, map.entries@, map.value_extension),
        !repeated(record.fields@),
    ensures
        nested(StateScalar::Struct(record), None, depth) == nested(
            StateScalar::Mapping(map),
            None,
            depth,
        ),
{
    if depth < MAX_NESTING {
        let count = record.fields@.len() as int;
        same_entries_same_members(
            record.fields@,
            map.entries@,
            map.value_extension,
            depth + 1,
            count,
        );
        assert(record.fields@.take(count) =~= record.fields@);
        assert(map.entries@.take(count) =~= map.entries@);
    }
}

} // verus!
