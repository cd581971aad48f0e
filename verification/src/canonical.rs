//! The one byte form of a JSON value, within limits of size and nesting.
use vstd::prelude::*;
use vstd::utf8::encode_utf8;

use crate::errors::{row_fault, Fault, JevError};
use crate::json::{
    collected, container_views, fields_view, items_view, with_field, Json, JsonValue, Members,
};
use crate::number::{canonical_number, exponent_fault, has_spelling, spelling};
use crate::text::{comes_before, less, less_irreflexive, less_transitive, same};

verus! {

/// How many containers may stand inside one another.
pub const MAX_NESTING: usize = 64;

/// How many bytes a request or a response may have.
pub const MAX_BYTES: usize = 1_048_576;

/// `[`
pub const OPEN_ARRAY: u8 = 91;

/// `]`
pub const CLOSE_ARRAY: u8 = 93;

/// `{`
pub const OPEN_OBJECT: u8 = 123;

/// `}`
pub const CLOSE_OBJECT: u8 = 125;

/// `,`
pub const COMMA: u8 = 44;

/// `:`
pub const COLON: u8 = 58;

/// The error for a value that takes too many bytes.
pub open spec fn size_fault() -> Fault {
    row_fault(
        "Jev state/request exceeds the local 1048576-byte JSON limit; reduce the input (provider context limits also apply)"@,
    )
}

/// The error for a value with too many containers inside one another.
pub open spec fn nesting_fault() -> Fault {
    row_fault("Jev state exceeds 64 nesting levels"@)
}

pub fn size_error() -> (error: JevError)
    ensures
        error@ == size_fault(),
{
    JevError::execution(
        "Jev state/request exceeds the local 1048576-byte JSON limit; reduce the input (provider context limits also apply)",
    )
}

/// Whether a value, or a container that begins, at a depth is within the limit.
pub open spec fn depth_allowed(depth: nat, container: bool) -> bool {
    depth + (if container { 1nat } else { 0nat }) <= MAX_NESTING
}

/// Rejects a value, or a container that begins, at a depth beyond the limit.
pub fn check_depth(depth: usize, container: bool) -> (result: Result<(), JevError>)
    ensures
        match result {
            Ok(_) => depth_allowed(depth as nat, container),
            Err(error) => !depth_allowed(depth as nat, container) && error@ == nesting_fault(),
        },
{
    if depth > MAX_NESTING || (container && depth == MAX_NESTING) {
        Err(JevError::execution("Jev state exceeds 64 nesting levels"))
    } else {
        Ok(())
    }
}

/// The members of every object in the order of their names, the last of one name
/// kept.
pub open spec fn arranged(value: Json) -> Json
    decreases value,
{
    match value {
        Json::Array(items) => Json::Array(arranged_items(items)),
        Json::Object(fields) => Json::Object(collected(arranged_fields(fields))),
        _ => value,
    }
}

/// Values as they stand, the members inside each in order.
pub open spec fn arranged_items(items: Seq<Json>) -> Seq<Json>
    decreases items,
{
    if items.len() == 0 {
        Seq::empty()
    } else {
        arranged_items(items.drop_last()).push(arranged(items.last()))
    }
}

/// Members as they stand, the members inside each value in order.
pub open spec fn arranged_fields(fields: Members) -> Members
    decreases fields,
{
    if fields.len() == 0 {
        Seq::empty()
    } else {
        arranged_fields(fields.drop_last()).push((fields.last().0, arranged(fields.last().1)))
    }
}

/// Arranging values arranges each of them.
pub proof fn arranged_items_each(items: Seq<Json>)
    ensures
        arranged_items(items) == Seq::new(items.len(), |i: int| arranged(items[i])),
    decreases items.len(),
{
    if items.len() > 0 {
        arranged_items_each(items.drop_last());
    }
    assert(arranged_items(items) =~= Seq::new(items.len(), |i: int| arranged(items[i])));
}

/// Arranging members arranges the value of each of them.
pub proof fn arranged_fields_each(fields: Members)
    ensures
        arranged_fields(fields) == Seq::new(
            fields.len(),
            |i: int| (fields[i].0, arranged(fields[i].1)),
        ),
    decreases fields.len(),
{
    if fields.len() > 0 {
        arranged_fields_each(fields.drop_last());
    }
    assert(arranged_fields(fields) =~= Seq::new(
        fields.len(),
        |i: int| (fields[i].0, arranged(fields[i].1)),
    ));
}

/// A hexadecimal digit.
pub open spec fn hex(number: int) -> char {
    if number < 10 {
        ('0' as int + number) as char
    } else {
        ('a' as int + number - 10) as char
    }
}

/// A character inside a JSON string: quotes and backslashes get a backslash, and
/// control characters their short or their four-digit form.
pub open spec fn escaped(letter: char) -> Seq<char> {
    if letter == '"' || letter == '\\' {
        seq!['\\', letter]
    } else if letter == '\u{8}' {
        seq!['\\', 'b']
    } else if letter == '\u{c}' {
        seq!['\\', 'f']
    } else if letter == '\n' {
        seq!['\\', 'n']
    } else if letter == '\r' {
        seq!['\\', 'r']
    } else if letter == '\t' {
        seq!['\\', 't']
    } else if letter <= '\u{1f}' {
        let code = letter as int;
        seq!['\\', 'u', '0', '0', hex(code / 16), hex(code % 16)]
    } else {
        seq![letter]
    }
}

/// All characters of a text as they stand inside a JSON string.
pub open spec fn escaped_all(text: Seq<char>) -> Seq<char>
    decreases text.len(),
{
    if text.len() == 0 {
        Seq::empty()
    } else {
        escaped_all(text.drop_last()) + escaped(text.last())
    }
}

/// A text as a JSON string.
pub open spec fn quoted(text: Seq<char>) -> Seq<char> {
    seq!['"'] + escaped_all(text) + seq!['"']
}

/// `serde_json::to_string` on a text gives its JSON string: the characters in
/// quotes, with the escapes that JSON asks for and no others.
#[verifier::external_body]
pub(crate) fn quote(text: &str) -> (json: String)
    ensures
        json@ == quoted(text@),
{
    serde_json::to_string(text).unwrap_or_default()
}

/// The bytes of a value, its members taken as they stand.
pub open spec fn bytes(value: Json) -> Seq<u8>
    decreases value,
{
    match value {
        Json::Null => encode_utf8("null"@),
        Json::Bool(true) => encode_utf8("true"@),
        Json::Bool(false) => encode_utf8("false"@),
        Json::Number(text) => encode_utf8(spelling(text)),
        Json::Text(text) => encode_utf8(quoted(text)),
        Json::Array(items) => seq![OPEN_ARRAY] + item_bytes(items) + seq![CLOSE_ARRAY],
        Json::Object(fields) => seq![OPEN_OBJECT] + field_bytes(fields) + seq![CLOSE_OBJECT],
    }
}

/// The bytes of values with commas between them.
pub open spec fn item_bytes(items: Seq<Json>) -> Seq<u8>
    decreases items,
{
    if items.len() == 0 {
        Seq::empty()
    } else if items.len() == 1 {
        bytes(items.last())
    } else {
        item_bytes(items.drop_last()) + seq![COMMA] + bytes(items.last())
    }
}

/// The bytes of one member.
pub open spec fn member_bytes(name: Seq<char>, value: Seq<u8>) -> Seq<u8> {
    encode_utf8(quoted(name)) + seq![COLON] + value
}

/// The bytes of members with commas between them.
pub open spec fn field_bytes(fields: Members) -> Seq<u8>
    decreases fields,
{
    if fields.len() == 0 {
        Seq::empty()
    } else if fields.len() == 1 {
        member_bytes(fields.last().0, bytes(fields.last().1))
    } else {
        field_bytes(fields.drop_last()) + seq![COMMA] + member_bytes(
            fields.last().0,
            bytes(fields.last().1),
        )
    }
}

/// How many containers stand inside one another.
pub open spec fn nesting(value: Json) -> nat
    decreases value,
{
    match value {
        Json::Array(items) => 1 + deepest_item(items),
        Json::Object(fields) => 1 + deepest_field(fields),
        _ => 0,
    }
}

/// The nesting of the deepest of some values.
pub open spec fn deepest_item(items: Seq<Json>) -> nat
    decreases items,
{
    if items.len() == 0 {
        0
    } else {
        let rest = deepest_item(items.drop_last());
        let last = nesting(items.last());
        if rest >= last {
            rest
        } else {
            last
        }
    }
}

/// The nesting of the deepest of some members.
pub open spec fn deepest_field(fields: Members) -> nat
    decreases fields,
{
    if fields.len() == 0 {
        0
    } else {
        let rest = deepest_field(fields.drop_last());
        let last = nesting(fields.last().1);
        if rest >= last {
            rest
        } else {
            last
        }
    }
}

/// Whether every number in a value has a spelling.
pub open spec fn spellable(value: Json) -> bool
    decreases value,
{
    match value {
        Json::Number(text) => has_spelling(text),
        Json::Array(items) => forall|i: int| 0 <= i < items.len() ==> spellable(#[trigger] items[i]),
        Json::Object(fields) => forall|i: int|
            0 <= i < fields.len() ==> spellable((#[trigger] fields[i]).1),
        _ => true,
    }
}

/// The one byte form of a value.
pub open spec fn canonical(value: Json) -> Seq<u8> {
    bytes(arranged(value))
}

/// Whether a value has a byte form within the limits.
pub open spec fn fits(value: Json) -> bool {
    &&& nesting(arranged(value)) <= MAX_NESTING
    &&& spellable(arranged(value))
    &&& canonical(value).len() <= MAX_BYTES
}

/// What has been written so far, or the first error.
pub type Written = Result<Seq<u8>, Fault>;

/// Writes some more bytes, as far as the limit allows.
pub open spec fn put(so_far: Written, more: Seq<u8>) -> Written {
    match so_far {
        Ok(out) => if out.len() + more.len() <= MAX_BYTES {
            Ok(out + more)
        } else {
            Err(size_fault())
        },
        Err(fault) => Err(fault),
    }
}

/// Whether a value is a container.
pub open spec fn container(value: Json) -> bool {
    value is Array || value is Object
}

/// Writes a value that stands at a depth: the first thing that breaks a limit,
/// in the order in which the bytes are written, is the error.
pub open spec fn emit(value: Json, depth: nat, so_far: Written) -> Written
    decreases value,
{
    if so_far is Err {
        so_far
    } else if !depth_allowed(depth, container(value)) {
        Err(nesting_fault())
    } else {
        match value {
            Json::Array(items) => put(
                emit_items(items, depth + 1, put(so_far, seq![OPEN_ARRAY])),
                seq![CLOSE_ARRAY],
            ),
            Json::Object(fields) => put(
                emit_fields(fields, depth + 1, put(so_far, seq![OPEN_OBJECT])),
                seq![CLOSE_OBJECT],
            ),
            Json::Number(text) => if has_spelling(text) {
                put(so_far, bytes(value))
            } else {
                Err(exponent_fault())
            },
            _ => put(so_far, bytes(value)),
        }
    }
}

/// Writes values with commas between them.
pub open spec fn emit_items(items: Seq<Json>, depth: nat, so_far: Written) -> Written
    decreases items,
{
    if items.len() == 0 {
        so_far
    } else {
        let before = emit_items(items.drop_last(), depth, so_far);
        emit(
            items.last(),
            depth,
            if items.len() > 1 {
                put(before, seq![COMMA])
            } else {
                before
            },
        )
    }
}

/// Writes members with commas between them.
pub open spec fn emit_fields(fields: Members, depth: nat, so_far: Written) -> Written
    decreases fields,
{
    if fields.len() == 0 {
        so_far
    } else {
        let before = emit_fields(fields.drop_last(), depth, so_far);
        let comma = if fields.len() > 1 {
            put(before, seq![COMMA])
        } else {
            before
        };
        emit(
            fields.last().1,
            depth,
            put(put(comma, encode_utf8(quoted(fields.last().0))), seq![COLON]),
        )
    }
}

/// Whether every one of some values can be spelled.
pub open spec fn items_spellable(items: Seq<Json>) -> bool {
    forall|i: int| 0 <= i < items.len() ==> spellable(#[trigger] items[i])
}

/// Whether the value of every one of some members can be spelled.
pub open spec fn fields_spellable(fields: Members) -> bool {
    forall|i: int| 0 <= i < fields.len() ==> spellable((#[trigger] fields[i]).1)
}

/// After an error nothing more is written.
proof fn emit_after_error(value: Json, depth: nat, fault: Fault)
    ensures
        emit(value, depth, Err(fault)) == Written::Err(fault),
{
}

/// After an error no more values are written.
proof fn emit_items_after_error(items: Seq<Json>, depth: nat, fault: Fault)
    ensures
        emit_items(items, depth, Err(fault)) == Written::Err(fault),
    decreases items.len(),
{
    if items.len() > 0 {
        emit_items_after_error(items.drop_last(), depth, fault);
        emit_after_error(items.last(), depth, fault);
    }
}

/// After an error no more members are written.
proof fn emit_fields_after_error(fields: Members, depth: nat, fault: Fault)
    ensures
        emit_fields(fields, depth, Err(fault)) == Written::Err(fault),
    decreases fields.len(),
{
    if fields.len() > 0 {
        emit_fields_after_error(fields.drop_last(), depth, fault);
        emit_after_error(fields.last().1, depth, fault);
    }
}

/// A value is written exactly when it keeps the limits, and then its bytes are
/// added to what was there.
pub proof fn emit_writes(value: Json, depth: nat, out: Seq<u8>)
    requires
        out.len() <= MAX_BYTES,
    ensures
        match emit(value, depth, Ok(out)) {
            Ok(all) => {
                &&& depth + nesting(value) <= MAX_NESTING
                &&& spellable(value)
                &&& out.len() + bytes(value).len() <= MAX_BYTES
                &&& all == out + bytes(value)
            },
            Err(_) => !(depth + nesting(value) <= MAX_NESTING && spellable(value) && out.len()
                + bytes(value).len() <= MAX_BYTES),
        },
    decreases value,
{
    if depth_allowed(depth, container(value)) {
        match value {
            Json::Array(items) => {
                emit_items_after_error(items, depth + 1, size_fault());
                let open = out + seq![OPEN_ARRAY];
                if open.len() <= MAX_BYTES {
                    emit_items_writes(items, depth + 1, open);
                    assert(items_spellable(items) == spellable(value));
                    assert(open + item_bytes(items) + seq![CLOSE_ARRAY] =~= out + bytes(value));
                }
            },
            Json::Object(fields) => {
                emit_fields_after_error(fields, depth + 1, size_fault());
                let open = out + seq![OPEN_OBJECT];
                if open.len() <= MAX_BYTES {
                    emit_fields_writes(fields, depth + 1, open);
                    assert(fields_spellable(fields) == spellable(value));
                    assert(open + field_bytes(fields) + seq![CLOSE_OBJECT] =~= out + bytes(value));
                }
            },
            _ => {},
        }
    }
}

/// Values are written one by one exactly when they keep the limits.
pub proof fn emit_items_writes(items: Seq<Json>, depth: nat, out: Seq<u8>)
    requires
        out.len() <= MAX_BYTES,
        depth <= MAX_NESTING,
    ensures
        match emit_items(items, depth, Ok(out)) {
            Ok(all) => {
                &&& depth + deepest_item(items) <= MAX_NESTING
                &&& items_spellable(items)
                &&& out.len() + item_bytes(items).len() <= MAX_BYTES
                &&& all == out + item_bytes(items)
            },
            Err(_) => !(depth + deepest_item(items) <= MAX_NESTING && items_spellable(items)
                && out.len() + item_bytes(items).len() <= MAX_BYTES),
        },
    decreases items,
{
    if items.len() == 0 {
        assert(out + item_bytes(items) =~= out);
    } else {
        let rest = items.drop_last();
        emit_items_writes(rest, depth, out);
        emit_after_error(items.last(), depth, size_fault());
        assert(items_spellable(items) <==> items_spellable(rest) && spellable(items.last())) by {
            assert(items.last() == items[items.len() - 1]);
            if items_spellable(items) {
                assert forall|i: int| 0 <= i < rest.len() implies spellable(#[trigger] rest[i]) by {
                    assert(rest[i] == items[i]);
                }
            }
            if items_spellable(rest) && spellable(items.last()) {
                assert forall|i: int| 0 <= i < items.len() implies spellable(
                    #[trigger] items[i],
                ) by {
                    if i < rest.len() {
                        assert(rest[i] == items[i]);
                    }
                }
            }
        }
        match emit_items(rest, depth, Ok(out)) {
            Ok(all) => {
                let comma = if items.len() > 1 { all + seq![COMMA] } else { all };
                if comma.len() <= MAX_BYTES {
                    emit_writes(items.last(), depth, comma);
                    assert(comma + bytes(items.last()) =~= out + item_bytes(items));
                }
            },
            Err(fault) => {
                emit_after_error(items.last(), depth, fault);
            },
        }
    }
}

/// Members are written one by one exactly when they keep the limits.
pub proof fn emit_fields_writes(fields: Members, depth: nat, out: Seq<u8>)
    requires
        out.len() <= MAX_BYTES,
        depth <= MAX_NESTING,
    ensures
        match emit_fields(fields, depth, Ok(out)) {
            Ok(all) => {
                &&& depth + deepest_field(fields) <= MAX_NESTING
                &&& fields_spellable(fields)
                &&& out.len() + field_bytes(fields).len() <= MAX_BYTES
                &&& all == out + field_bytes(fields)
            },
            Err(_) => !(depth + deepest_field(fields) <= MAX_NESTING && fields_spellable(fields)
                && out.len() + field_bytes(fields).len() <= MAX_BYTES),
        },
    decreases fields,
{
    if fields.len() == 0 {
        assert(out + field_bytes(fields) =~= out);
    } else {
        let rest = fields.drop_last();
        emit_fields_writes(rest, depth, out);
        emit_after_error(fields.last().1, depth, size_fault());
        assert(fields_spellable(fields) <==> fields_spellable(rest) && spellable(fields.last().1))
            by {
            assert(fields.last() == fields[fields.len() - 1]);
            if fields_spellable(fields) {
                assert forall|i: int| 0 <= i < rest.len() implies spellable(
                    (#[trigger] rest[i]).1,
                ) by {
                    assert(rest[i] == fields[i]);
                }
            }
            if fields_spellable(rest) && spellable(fields.last().1) {
                assert forall|i: int| 0 <= i < fields.len() implies spellable(
                    (#[trigger] fields[i]).1,
                ) by {
                    if i < rest.len() {
                        assert(rest[i] == fields[i]);
                    }
                }
            }
        }
        match emit_fields(rest, depth, Ok(out)) {
            Ok(all) => {
                let comma = if fields.len() > 1 { all + seq![COMMA] } else { all };
                let name = encode_utf8(quoted(fields.last().0));
                let colon = comma + name + seq![COLON];
                if colon.len() <= MAX_BYTES {
                    emit_writes(fields.last().1, depth, colon);
                    assert(colon + bytes(fields.last().1) =~= out + field_bytes(fields));
                }
            },
            Err(fault) => {
                emit_after_error(fields.last().1, depth, fault);
            },
        }
    }
}

/// Puts the position of a name where it belongs in the order of names. The
/// position of the same name is replaced.
pub open spec fn placed(order: Seq<int>, names: Seq<Seq<char>>, at: int) -> Seq<int>
    decreases order.len(),
{
    if order.len() == 0 {
        seq![at]
    } else if less(names[at], names[order[0]]) {
        seq![at] + order
    } else if names[at] == names[order[0]] {
        seq![at] + order.drop_first()
    } else {
        seq![order[0]] + placed(order.drop_first(), names, at)
    }
}

/// The positions of the first `count` names, in the order of the names, the last
/// position of one name kept.
pub open spec fn name_order(names: Seq<Seq<char>>, count: int) -> Seq<int>
    decreases count,
{
    if count <= 0 {
        Seq::empty()
    } else {
        placed(name_order(names, count - 1), names, count - 1)
    }
}

/// The names of members.
pub open spec fn names_of(fields: Members) -> Seq<Seq<char>> {
    Seq::new(fields.len(), |i: int| fields[i].0)
}

/// The members at some positions.
pub open spec fn picked(fields: Members, order: Seq<int>) -> Members {
    Seq::new(order.len(), |i: int| fields[order[i]])
}

/// Positions are put in place as the members that they stand for.
proof fn placed_picks(fields: Members, order: Seq<int>, at: int)
    requires
        0 <= at < fields.len(),
        forall|i: int| 0 <= i < order.len() ==> 0 <= #[trigger] order[i] < fields.len(),
    ensures
        picked(fields, placed(order, names_of(fields), at)) == with_field(
            picked(fields, order),
            fields[at].0,
            fields[at].1,
        ),
        forall|i: int|
            0 <= i < placed(order, names_of(fields), at).len() ==> 0 <= #[trigger] placed(
                order,
                names_of(fields),
                at,
            )[i] < fields.len(),
    decreases order.len(),
{
    let names = names_of(fields);
    let all = picked(fields, order);
    let result = placed(order, names, at);
    if order.len() > 0 {
        let rest = order.drop_first();
        assert forall|i: int| 0 <= i < rest.len() implies 0 <= #[trigger] rest[i] < fields.len() by {
            assert(rest[i] == order[i + 1]);
        }
        placed_picks(fields, rest, at);
        assert(0 <= order[0] < fields.len());
        assert(picked(fields, rest) =~= all.drop_first());
        assert forall|i: int| 0 <= i < result.len() implies 0 <= #[trigger] result[i]
            < fields.len() by {
            let tail = placed(rest, names, at);
            if less(names[at], names[order[0]]) {
                if i > 0 {
                    assert(result[i] == order[i - 1]);
                }
            } else if names[at] == names[order[0]] {
                if i > 0 {
                    assert(result[i] == rest[i - 1]);
                }
            } else if i > 0 {
                assert(result[i] == tail[i - 1]);
            }
        }
    }
    assert(picked(fields, result) =~= with_field(all, fields[at].0, fields[at].1));
}

/// Collecting members is picking them by the order of their names.
pub proof fn collected_picks(fields: Members, count: int)
    requires
        0 <= count <= fields.len(),
    ensures
        collected(fields.take(count)) == picked(fields, name_order(names_of(fields), count)),
        forall|i: int|
            0 <= i < name_order(names_of(fields), count).len() ==> 0 <= #[trigger] name_order(
                names_of(fields),
                count,
            )[i] < fields.len(),
    decreases count,
{
    if count == 0 {
        assert(picked(fields, name_order(names_of(fields), 0)) =~= collected(fields.take(0)));
    } else {
        collected_picks(fields, count - 1);
        placed_picks(fields, name_order(names_of(fields), count - 1), count - 1);
        assert(fields.take(count).drop_last() =~= fields.take(count - 1));
    }
}

/// Whether positions stand in the order of their names, each name once.
spec fn ordered(order: Seq<int>, names: Seq<Seq<char>>) -> bool {
    forall|i: int, j: int|
        0 <= i < j < order.len() ==> less(names[#[trigger] order[i]], names[#[trigger] order[j]])
}

/// Putting a position where all names before it come before its own.
proof fn placed_at(order: Seq<int>, names: Seq<Seq<char>>, at: int, place: int)
    requires
        0 <= place <= order.len(),
        forall|i: int| 0 <= i < place ==> less(names[#[trigger] order[i]], names[at]),
    ensures
        place == order.len() || less(names[at], names[order[place]]) ==> placed(order, names, at)
            == order.insert(place, at),
        place < order.len() && names[order[place]] == names[at] ==> placed(order, names, at)
            == order.update(place, at),
    decreases order.len(),
{
    less_irreflexive(names[at]);
    if order.len() == 0 || place == 0 {
        if order.len() > 0 && names[at] == names[order[0]] {
            assert(placed(order, names, at) =~= order.update(0, at));
        }
        assert(place == order.len() || less(names[at], names[order[place]]) ==> placed(
            order,
            names,
            at,
        ) =~= order.insert(place, at));
    } else {
        let rest = order.drop_first();
        assert(less(names[order[0]], names[at]));
        if less(names[at], names[order[0]]) {
            less_transitive(names[at], names[order[0]], names[at]);
        }
        assert forall|i: int| 0 <= i < place - 1 implies less(
            names[#[trigger] rest[i]],
            names[at],
        ) by {
            assert(rest[i] == order[i + 1]);
        }
        placed_at(rest, names, at, place - 1);
        if place == order.len() || less(names[at], names[order[place]]) {
            assert(placed(order, names, at) =~= order.insert(place, at));
        } else if names[order[place]] == names[at] {
            assert(placed(order, names, at) =~= order.update(place, at));
        }
    }
}

/// A list of positions as mathematical integers.
spec fn as_ints(order: Seq<usize>) -> Seq<int> {
    Seq::new(order.len(), |i: int| order[i] as int)
}

/// The positions of members in the order of their names, the last of one name
/// kept. Members that already are in order take one comparison each.
fn member_order(fields: &Vec<(String, JsonValue)>) -> (order: Vec<usize>)
    ensures
        as_ints(order@) == name_order(names_of(fields_view(fields@)), fields.len() as int),
        forall|i: int| 0 <= i < order.len() ==> #[trigger] order@[i] < fields.len(),
{
    let ghost names = names_of(fields_view(fields@));
    let mut order: Vec<usize> = Vec::new();
    assert(as_ints(order@) =~= Seq::<int>::empty());
    for at in 0..fields.len()
        invariant
            names == names_of(fields_view(fields@)),
            as_ints(order@) == name_order(names, at as int),
            ordered(as_ints(order@), names),
            forall|i: int| 0 <= i < order.len() ==> #[trigger] order@[i] < at,
    {
        let name = fields[at].0.as_str();
        let ghost ints = as_ints(order@);
        let mut place: usize = order.len();
        while place > 0 && !comes_before(fields[order[place - 1]].0.as_str(), name)
            invariant
                place <= order.len(),
                at < fields.len(),
                names == names_of(fields_view(fields@)),
                name@ == names[at as int],
                ints == as_ints(order@),
                ordered(ints, names),
                forall|i: int| 0 <= i < order.len() ==> #[trigger] order@[i] < at,
                forall|i: int|
                    place <= i < order.len() ==> !less(names[#[trigger] ints[i]], names[at as int]),
            decreases place,
        {
            assert(ints[place - 1] == order@[place - 1]);
            place = place - 1;
        }
        proof {
            assert forall|i: int| 0 <= i < place implies less(
                names[#[trigger] ints[i]],
                names[at as int],
            ) by {
                assert(ints[place - 1] == order@[place - 1]);
                if i < place - 1 {
                    less_transitive(names[ints[i]], names[ints[place - 1]], names[at as int]);
                }
            }
            placed_at(ints, names, at as int, place as int);
            if place < order.len() {
                assert(ints[place as int] == order@[place as int]);
                crate::text::less_total(names[ints[place as int]], names[at as int]);
            }
        }
        let ghost before = order@;
        if place < order.len() && same(fields[order[place]].0.as_str(), name) {
            order.set(place, at);
            assert(as_ints(order@) =~= ints.update(place as int, at as int));
            proof {
                assert forall|i: int, j: int| 0 <= i < j < order.len() implies less(
                    names[#[trigger] as_ints(order@)[i]],
                    names[#[trigger] as_ints(order@)[j]],
                ) by {
                    assert(less(names[ints[i]], names[ints[j]]));
                }
            }
        } else {
            order.insert(place, at);
            assert(as_ints(order@) =~= ints.insert(place as int, at as int));
            proof {
                let after = as_ints(order@);
                assert forall|i: int, j: int| 0 <= i < j < after.len() implies less(
                    names[#[trigger] after[i]],
                    names[#[trigger] after[j]],
                ) by {
                    let a = if i < place { i } else { i - 1 };
                    let b = if j < place { j } else { j - 1 };
                    if i == place {
                        assert(after[j] == ints[b]);
                        if b > place {
                            less_transitive(
                                names[at as int],
                                names[ints[place as int]],
                                names[ints[b]],
                            );
                        }
                    } else if j == place {
                        assert(after[i] == ints[a]);
                    } else {
                        assert(after[i] == ints[a] && after[j] == ints[b]);
                    }
                }
            }
        }
        assert forall|i: int| 0 <= i < order.len() implies #[trigger] order@[i] < at + 1 by {
            if i < place {
                assert(order@[i] == before[i]);
            } else if i > place {
                assert(before[i - 1] < at || before[i] < at);
            }
        }
    }
    order
}

/// Adds some bytes, as far as the limit allows.
fn write_all(output: &mut Vec<u8>, more: &[u8]) -> (result: Result<(), JevError>)
    requires
        old(output)@.len() <= MAX_BYTES,
    ensures
        match result {
            Ok(_) => put(Ok(old(output)@), more@) == Written::Ok(final(output)@),
            Err(error) => put(Ok(old(output)@), more@) == Written::Err(error@),
        },
        final(output)@.len() <= MAX_BYTES,
{
    if more.len() > MAX_BYTES - output.len() {
        return Err(size_error());
    }
    let ghost before = output@;
    output.extend_from_slice(more);
    assert(output@ =~= before + more@);
    Ok(())
}

/// Adds one byte, as far as the limit allows.
fn write_byte(output: &mut Vec<u8>, byte: u8) -> (result: Result<(), JevError>)
    requires
        old(output)@.len() <= MAX_BYTES,
    ensures
        match result {
            Ok(_) => put(Ok(old(output)@), seq![byte]) == Written::Ok(final(output)@),
            Err(error) => put(Ok(old(output)@), seq![byte]) == Written::Err(error@),
        },
        final(output)@.len() <= MAX_BYTES,
{
    if output.len() >= MAX_BYTES {
        return Err(size_error());
    }
    let ghost before = output@;
    output.push(byte);
    assert(output@ =~= before + seq![byte]);
    Ok(())
}

/// What is written of a value that stands at a depth.
pub open spec fn written(value: Json, depth: nat, out: Seq<u8>) -> Written {
    emit(arranged(value), depth, Ok(out))
}

/// An error while the first values are written is the error of all of them.
proof fn emit_items_error(items: Seq<Json>, depth: nat, so_far: Written, count: int)
    requires
        0 <= count <= items.len(),
        emit_items(items.take(count), depth, so_far) is Err,
    ensures
        emit_items(items, depth, so_far) == emit_items(items.take(count), depth, so_far),
    decreases items.len() - count,
{
    if count == items.len() {
        assert(items.take(count) =~= items);
    } else {
        let fault = emit_items(items.take(count), depth, so_far)->Err_0;
        let next = items.take(count + 1);
        assert(next.drop_last() =~= items.take(count));
        emit_after_error(next.last(), depth, fault);
        emit_items_error(items, depth, so_far, count + 1);
    }
}

/// An error while the first members are written is the error of all of them.
proof fn emit_fields_error(fields: Members, depth: nat, so_far: Written, count: int)
    requires
        0 <= count <= fields.len(),
        emit_fields(fields.take(count), depth, so_far) is Err,
    ensures
        emit_fields(fields, depth, so_far) == emit_fields(fields.take(count), depth, so_far),
    decreases fields.len() - count,
{
    if count == fields.len() {
        assert(fields.take(count) =~= fields);
    } else {
        let fault = emit_fields(fields.take(count), depth, so_far)->Err_0;
        let next = fields.take(count + 1);
        assert(next.drop_last() =~= fields.take(count));
        emit_after_error(next.last().1, depth, fault);
        emit_fields_error(fields, depth, so_far, count + 1);
    }
}

/// Writes a value that stands at a depth.
fn write_json(value: &JsonValue, depth: usize, output: &mut Vec<u8>) -> (result: Result<
    (),
    JevError,
>)
    requires
        old(output)@.len() <= MAX_BYTES,
    ensures
        match result {
            Ok(_) => written(value@, depth as nat, old(output)@) == Written::Ok(final(output)@),
            Err(error) => written(value@, depth as nat, old(output)@) == Written::Err(error@),
        },
        final(output)@.len() <= MAX_BYTES,
    decreases value, 1int,
{
    broadcast use container_views;

    let is_container = match value {
        JsonValue::Array(_) | JsonValue::Object(_) => true,
        _ => false,
    };
    if let Err(error) = check_depth(depth, is_container) {
        return Err(error);
    }
    match value {
        JsonValue::Null => write_all(output, "null".as_bytes()),
        JsonValue::Bool(true) => write_all(output, "true".as_bytes()),
        JsonValue::Bool(false) => write_all(output, "false".as_bytes()),
        JsonValue::Number(text) => match canonical_number(text.as_str()) {
            Ok(number) => write_all(output, number.as_str().as_bytes()),
            Err(error) => Err(error),
        },
        JsonValue::Text(text) => write_all(output, quote(text.as_str()).as_str().as_bytes()),
        JsonValue::Array(items) => {
            let ghost start = output@;
            if let Err(error) = write_byte(output, OPEN_ARRAY) {
                proof {
                    emit_items_after_error(
                        arranged(value@)->Array_0,
                        (depth + 1) as nat,
                        size_fault(),
                    );
                }
                return Err(error);
            }
            if let Err(error) = write_items(value, items, depth + 1, output) {
                return Err(error);
            }
            write_byte(output, CLOSE_ARRAY)
        },
        JsonValue::Object(fields) => {
            if let Err(error) = write_byte(output, OPEN_OBJECT) {
                proof {
                    emit_fields_after_error(
                        arranged(value@)->Object_0,
                        (depth + 1) as nat,
                        size_fault(),
                    );
                }
                return Err(error);
            }
            if let Err(error) = write_fields(value, fields, depth + 1, output) {
                return Err(error);
            }
            write_byte(output, CLOSE_OBJECT)
        },
    }
}

/// Writes the values of an array, which stand at a depth.
fn write_items(
    value: &JsonValue,
    items: &Vec<JsonValue>,
    depth: usize,
    output: &mut Vec<u8>,
) -> (result: Result<(), JevError>)
    requires
        decreases_to!(value => items@),
        old(output)@.len() <= MAX_BYTES,
    ensures
        ({
            let all = arranged_items(items_view(items@));
            match result {
                Ok(_) => emit_items(all, depth as nat, Ok(old(output)@)) == Written::Ok(
                    final(output)@,
                ),
                Err(error) => emit_items(all, depth as nat, Ok(old(output)@)) == Written::Err(error@),
            }
        }),
        final(output)@.len() <= MAX_BYTES,
    decreases value, 0int,
{
    let ghost all = arranged_items(items_view(items@));
    let ghost start = output@;
    proof {
        arranged_items_each(items_view(items@));
        assert(all.take(0) =~= Seq::<Json>::empty());
    }
    for at in 0..items.len()
        invariant
            decreases_to!(value => items@),
            all == arranged_items(items_view(items@)),
            all == Seq::new(items.len() as nat, |i: int| arranged(items_view(items@)[i])),
            emit_items(all.take(at as int), depth as nat, Ok(start)) == Written::Ok(output@),
            start == old(output)@,
            output@.len() <= MAX_BYTES,
    {
        let ghost next = all.take(at as int + 1);
        proof {
            assert(next.drop_last() =~= all.take(at as int));
            assert(next.last() == arranged(items@[at as int]@));
            emit_after_error(next.last(), depth as nat, size_fault());
        }
        if at > 0 {
            if let Err(error) = write_byte(output, COMMA) {
                proof {
                    emit_items_error(all, depth as nat, Ok(start), at as int + 1);
                }
                return Err(error);
            }
        }
        if let Err(error) = write_json(&items[at], depth, output) {
            proof {
                emit_items_error(all, depth as nat, Ok(start), at as int + 1);
            }
            return Err(error);
        }
    }
    assert(all.take(all.len() as int) =~= all);
    Ok(())
}

/// Writes the members of an object, whose values stand at a depth.
fn write_fields(
    value: &JsonValue,
    fields: &Vec<(String, JsonValue)>,
    depth: usize,
    output: &mut Vec<u8>,
) -> (result: Result<(), JevError>)
    requires
        decreases_to!(value => fields@),
        old(output)@.len() <= MAX_BYTES,
    ensures
        ({
            let all = collected(arranged_fields(fields_view(fields@)));
            match result {
                Ok(_) => emit_fields(all, depth as nat, Ok(old(output)@)) == Written::Ok(
                    final(output)@,
                ),
                Err(error) => emit_fields(all, depth as nat, Ok(old(output)@)) == Written::Err(
                    error@,
                ),
            }
        }),
        final(output)@.len() <= MAX_BYTES,
    decreases value, 0int,
{
    let ghost plain = arranged_fields(fields_view(fields@));
    let ghost all = collected(plain);
    let ghost start = output@;
    let order = member_order(fields);
    proof {
        arranged_fields_each(fields_view(fields@));
        collected_picks(plain, plain.len() as int);
        assert(plain.take(plain.len() as int) =~= plain);
        assert(names_of(plain) =~= names_of(fields_view(fields@)));
        assert(all == picked(plain, as_ints(order@)));
        assert(all.take(0) =~= Seq::<(Seq<char>, Json)>::empty());
    }
    for at in 0..order.len()
        invariant
            decreases_to!(value => fields@),
            plain == arranged_fields(fields_view(fields@)),
            plain == Seq::new(
                fields.len() as nat,
                |i: int| (fields_view(fields@)[i].0, arranged(fields_view(fields@)[i].1)),
            ),
            all == collected(plain),
            all == picked(plain, as_ints(order@)),
            forall|i: int| 0 <= i < order.len() ==> #[trigger] order@[i] < fields.len(),
            emit_fields(all.take(at as int), depth as nat, Ok(start)) == Written::Ok(output@),
            start == old(output)@,
            output@.len() <= MAX_BYTES,
    {
        let from = order[at];
        let ghost next = all.take(at as int + 1);
        proof {
            assert(next.drop_last() =~= all.take(at as int));
            assert(next.last() == (fields@[from as int].0@, arranged(fields@[from as int].1@)));
            emit_after_error(next.last().1, depth as nat, size_fault());
        }
        if at > 0 {
            if let Err(error) = write_byte(output, COMMA) {
                proof {
                    emit_fields_error(all, depth as nat, Ok(start), at as int + 1);
                }
                return Err(error);
            }
        }
        if let Err(error) = write_all(output, quote(fields[from].0.as_str()).as_str().as_bytes()) {
            proof {
                emit_fields_error(all, depth as nat, Ok(start), at as int + 1);
            }
            return Err(error);
        }
        if let Err(error) = write_byte(output, COLON) {
            proof {
                emit_fields_error(all, depth as nat, Ok(start), at as int + 1);
            }
            return Err(error);
        }
        if let Err(error) = write_json(&fields[from].1, depth, output) {
            proof {
                emit_fields_error(all, depth as nat, Ok(start), at as int + 1);
            }
            return Err(error);
        }
    }
    assert(all.take(all.len() as int) =~= all);
    Ok(())
}

/// The one byte form of a value, or the first limit that it breaks.
pub fn canonical_bytes(value: &JsonValue) -> (result: Result<Vec<u8>, JevError>)
    ensures
        match result {
            Ok(output) => fits(value@) && output@ == canonical(value@),
            Err(error) => !fits(value@) && written(value@, 0, Seq::empty()) == Written::Err(error@),
        },
{
    let mut output: Vec<u8> = Vec::new();
    proof {
        emit_writes(arranged(value@), 0, Seq::empty());
    }
    match write_json(value, 0, &mut output) {
        Ok(_) => {
            assert(output@ =~= canonical(value@));
            Ok(output)
        },
        Err(error) => Err(error),
    }
}

} // verus!
