//! Reading JSON text without losing what it says: duplicate names are an error
//! and not an overwritten value, and no name has a special meaning.
use vstd::prelude::*;
use vstd::slice::slice_subrange;
use vstd::utf8::encode_utf8;

use crate::canonical::{
    arranged, bytes, canonical, canonical_bytes, emit_writes, fits, nesting, nesting_fault, quoted,
    size_error, size_fault, spellable, written, CLOSE_OBJECT, COLON, COMMA, MAX_BYTES, MAX_NESTING,
    OPEN_ARRAY, OPEN_OBJECT,
};
use crate::distinct::{byte_ends, quote_first};
use crate::equivalence::{
    normalized, normalized_fields, normalized_fields_each, normalized_items,
    normalized_items_each,
};
use crate::errors::{row_fault, Fault, JevError};
use crate::json::{
    container_views, fields_view, has_field, items_view, mapped, named, put_field, sorted,
    with_field, with_field_mapped, Json, JsonValue, Members, Named,
};
use crate::settled::{
    arranged_settled, deeper_field, deeper_item, forms, member_parts, member_place,
    member_stands_at, normalized_settled, normalized_writes_alike, place, settled,
    settled_spellable, size, stands_at, with_field_last,
};
use crate::text::{decimal, decimal_text, join2};

verus! {

/// How many containers may stand inside one another in what a server sends.
pub const MAX_RESPONSE_NESTING: usize = 127;

/// The newline byte.
pub const NEWLINE: u8 = 10;

/// Whether a byte is white space between the tokens of JSON.
pub open spec fn gap(byte: u8) -> bool {
    byte == 32 || byte == 9 || byte == NEWLINE || byte == 13
}

/// The place of the first byte that is no white space.
pub open spec fn skipped(bytes: Seq<u8>, from: int) -> int
    decreases bytes.len() - from,
{
    if 0 <= from < bytes.len() && gap(bytes[from]) {
        skipped(bytes, from + 1)
    } else {
        from
    }
}

/// Bytes without the white space at their end.
pub open spec fn stripped_end(bytes: Seq<u8>) -> Seq<u8>
    decreases bytes.len(),
{
    if bytes.len() > 0 && gap(bytes.last()) {
        stripped_end(bytes.drop_last())
    } else {
        bytes
    }
}

/// Bytes without the white space at both ends.
pub open spec fn stripped(bytes: Seq<u8>) -> Seq<u8> {
    stripped_end(bytes.skip(skipped(bytes, 0)))
}

/// Whether `serde_json` accepts a text as one JSON value.
pub uninterp spec fn well_formed(text: Seq<char>) -> bool;

/// `serde_json::from_str` into a raw value: it accepts a text that holds exactly
/// one JSON value, and then gives the bytes of that value, which are those of the
/// text without the white space around the value. There is at least one. It accepts what
/// is written for a value.
#[verifier::external_body]
fn raw_value(text: &str) -> (raw: Option<&[u8]>)
    ensures
        raw is Some == well_formed(text@),
        forall|value: Json|
            spellable(value) && encode_utf8(text@) == #[trigger] bytes(value) ==> raw is Some,
        raw matches Some(raw) ==> raw@ == stripped(encode_utf8(text@)) && raw@.len() > 0,
{
    serde_json::from_str::<&serde_json::value::RawValue>(text).ok().map(|raw| raw.get().as_bytes())
}

/// Where the first JSON value in some bytes ends, as `serde_json` sees it.
pub uninterp spec fn value_end(bytes: Seq<u8>) -> Option<nat>;

/// The first item of `serde_json::StreamDeserializer` as a raw value: where the
/// first JSON value in some bytes ends. A value takes at least one byte. What is written
/// for a value ends where it ends.
#[verifier::external_body]
fn find_value_end(bytes: &[u8]) -> (end: Option<usize>)
    ensures
        match (end, value_end(bytes@)) {
            (Some(end), Some(expected)) => end == expected && 0 < end <= bytes@.len(),
            (None, None) => true,
            _ => false,
        },
        forall|value: Json| #[trigger]
            stands_at(bytes@, 0, value) ==> (end matches Some(end) && end == size(value)),
{
    let mut values = serde_json::Deserializer::from_slice(bytes).into_iter::<
        &serde_json::value::RawValue,
    >();
    values.next()?.ok()?;
    Some(values.byte_offset())
}

/// The values of a JSON array as their bytes, or the text of the error, as
/// `serde_json` gives them.
pub uninterp spec fn array_values(raw: Seq<u8>) -> Result<Seq<Seq<u8>>, Seq<char>>;

/// The bytes of each of some slices.
pub open spec fn slices(items: Seq<&[u8]>) -> Seq<Seq<u8>> {
    Seq::new(items.len(), |i: int| items[i]@)
}

/// `serde_json::from_slice` into a list of raw values. Each is a part of the bytes
/// that is not empty and does not begin with white space. Of what is written for an array
/// they are what is written for its values.
#[verifier::external_body]
fn read_array<'a>(raw: &'a [u8]) -> (items: Result<Vec<&'a [u8]>, String>)
    ensures
        match items {
            Ok(items) => array_values(raw@) == Ok::<_, Seq<char>>(slices(items@)) && forall|i: int|
                0 <= i < items@.len() ==> 0 < (#[trigger] items@[i])@.len() <= raw@.len() && !gap(
                    items@[i]@[0],
                ),
            Err(message) => array_values(raw@) == Err::<Seq<Seq<u8>>, _>(message@),
        },
        forall|list: Seq<Json>|
            spellable(Json::Array(list)) && raw@ == #[trigger] bytes(Json::Array(list)) ==> (
            items matches Ok(items) && slices(items@) == forms(list)),
{
    match serde_json::from_slice::<Vec<&serde_json::value::RawValue>>(raw) {
        Ok(items) => Ok(items.into_iter().map(|item| item.get().as_bytes()).collect()),
        Err(error) => Err(error.to_string()),
    }
}

/// A JSON value that is no container, or the text of the error, as `serde_json`
/// reads it.
pub uninterp spec fn scalar(raw: Seq<u8>) -> Result<Json, Seq<char>>;

/// `serde_json::from_slice` into a value, for bytes that do not begin a container:
/// what comes out is no container either. A number keeps all its digits, since it
/// is kept as text. What is written for a value is read as that value, a number in its
/// one spelling.
#[verifier::external_body]
fn read_scalar(raw: &[u8]) -> (value: Result<JsonValue, String>)
    requires
        raw@.len() > 0 ==> raw@[0] != OPEN_ARRAY && raw@[0] != OPEN_OBJECT && !gap(raw@[0]),
    ensures
        match value {
            Ok(value) => scalar(raw@) == Ok::<_, Seq<char>>(value@) && !(value@ is Array)
                && !(value@ is Object),
            Err(message) => scalar(raw@) == Err::<Json, _>(message@),
        },
        forall|written: Json|
            spellable(written) && raw@ == #[trigger] bytes(written) ==> (value matches Ok(value)
                && value@ == normalized(written)),
{
    match serde_json::from_slice::<serde_json::Value>(raw) {
        Ok(serde_json::Value::Null) => Ok(JsonValue::Null),
        Ok(serde_json::Value::Bool(value)) => Ok(JsonValue::Bool(value)),
        Ok(serde_json::Value::Number(value)) => Ok(JsonValue::Number(value.to_string())),
        Ok(serde_json::Value::String(value)) => Ok(JsonValue::Text(value)),
        Ok(_) => Err(String::new()),
        Err(error) => Err(error.to_string()),
    }
}

/// The text of a JSON string, as `serde_json` reads it.
pub uninterp spec fn string_text(raw: Seq<u8>) -> Option<Seq<char>>;

/// `serde_json::from_slice` into a text. What is written for a text is read as that text.
#[verifier::external_body]
fn read_string(raw: &[u8]) -> (text: Option<String>)
    ensures
        match (text, string_text(raw@)) {
            (Some(text), Some(expected)) => text@ == expected,
            (None, None) => true,
            _ => false,
        },
        forall|written: Seq<char>|
            raw@ == encode_utf8(#[trigger] quoted(written)) ==> (text matches Some(text) && text@
                == written),
{
    serde_json::from_slice::<String>(raw).ok()
}

/// The text of the error with which `serde_json` refuses to read the members of
/// an object; empty where it reads them.
pub uninterp spec fn object_error(raw: Seq<u8>) -> Seq<char>;

/// The error of `serde_json::from_slice` into a map from names to raw values.
#[verifier::external_body]
fn read_object_error(raw: &[u8]) -> (message: String)
    ensures
        message@ == object_error(raw@),
{
    serde_json::from_slice::<
        std::collections::BTreeMap<String, Box<serde_json::value::RawValue>>,
    >(raw).err().map(|error| error.to_string()).unwrap_or_default()
}

/// One member of an object, as bytes: its name, its value, and the place behind
/// the value.
pub ghost struct RawMember {
    pub name: Seq<u8>,
    pub value: Seq<u8>,
    pub end: int,
}

/// The place behind the JSON value that begins at a place.
pub open spec fn end_at(bytes: Seq<u8>, from: int) -> Option<int> {
    match value_end(bytes.skip(from)) {
        Some(count) if 0 < count <= bytes.len() - from => Some(from + count),
        _ => None,
    }
}

/// The member that begins at a place: a value for its name, a colon, a value.
pub open spec fn member_at(bytes: Seq<u8>, from: int) -> Option<RawMember> {
    let start = skipped(bytes, from);
    match end_at(bytes, start) {
        None => None,
        Some(stop) => {
            let colon = skipped(bytes, stop);
            if !(colon < bytes.len() && bytes[colon] == COLON) {
                None
            } else {
                let begin = skipped(bytes, colon + 1);
                match end_at(bytes, begin) {
                    None => None,
                    Some(end) => Some(
                        RawMember {
                            name: bytes.subrange(start, stop),
                            value: bytes.subrange(begin, end),
                            end,
                        },
                    ),
                }
            }
        },
    }
}

/// The members from a place on, up to the closing brace.
pub open spec fn members_from(bytes: Seq<u8>, from: int) -> Option<Seq<RawMember>>
    decreases bytes.len() - from,
{
    match member_at(bytes, from) {
        None => None,
        Some(member) => {
            let next = skipped(bytes, member.end);
            if next < from || next >= bytes.len() {
                None
            } else if bytes[next] == CLOSE_OBJECT {
                Some(seq![member])
            } else if bytes[next] == COMMA {
                match members_from(bytes, next + 1) {
                    None => None,
                    Some(rest) => Some(seq![member] + rest),
                }
            } else {
                None
            }
        },
    }
}

/// The members of an object in the order in which they are written.
pub open spec fn members(bytes: Seq<u8>) -> Option<Seq<RawMember>> {
    let first = skipped(bytes, 1);
    if first < bytes.len() && bytes[first] == CLOSE_OBJECT {
        Some(Seq::empty())
    } else {
        members_from(bytes, 1)
    }
}

/// The number of newlines among some bytes.
pub open spec fn newlines(bytes: Seq<u8>) -> nat
    decreases bytes.len(),
{
    if bytes.len() == 0 {
        0
    } else {
        newlines(bytes.drop_last()) + (if bytes.last() == NEWLINE { 1nat } else { 0nat })
    }
}

/// The number of bytes behind the last newline.
pub open spec fn column(bytes: Seq<u8>) -> nat
    decreases bytes.len(),
{
    if bytes.len() == 0 || bytes.last() == NEWLINE {
        0
    } else {
        column(bytes.drop_last()) + 1
    }
}

/// How far an object has been read when a name turns up again: behind the white
/// space that follows its value, and behind the closing brace if it comes next.
pub open spec fn seen(bytes: Seq<u8>, end: int) -> Seq<u8> {
    let next = skipped(bytes, end);
    if next < bytes.len() && bytes[next] == CLOSE_OBJECT {
        bytes.take(next + 1)
    } else {
        bytes.take(next)
    }
}

/// An error in JSON text.
pub open spec fn json_fault(message: Seq<char>) -> Fault {
    row_fault("Invalid Jev JSON: "@ + message)
}

/// The error for a name that an object already has.
pub open spec fn duplicate_fault(seen: Seq<u8>) -> Fault {
    json_fault(
        "Jev state JSON has duplicate object keys at line "@ + decimal(1 + newlines(seen))
            + " column "@ + decimal(column(seen)),
    )
}

/// The error for text that is no JSON.
pub open spec fn input_fault() -> Fault {
    row_fault("Jev input contains invalid JSON"@)
}

/// The first members of an object with their names read. The first name that
/// cannot be read, or that comes again where that is not allowed, is the error.
pub open spec fn keyed(bytes: Seq<u8>, all: Seq<RawMember>, count: int, strict: bool) -> Result<
    Named<Seq<u8>>,
    Fault,
>
    decreases count,
{
    if count <= 0 {
        Ok(Seq::empty())
    } else {
        let member = all[count - 1];
        match keyed(bytes, all, count - 1, strict) {
            Err(fault) => Err(fault),
            Ok(done) => match string_text(member.name) {
                None => Err(json_fault(object_error(bytes))),
                Some(name) => if strict && has_field(done, name) {
                    Err(duplicate_fault(seen(bytes, member.end)))
                } else {
                    Ok(with_field(done, name, member.value))
                },
            },
        }
    }
}

/// How many containers may stand inside one another: the limit for what is sent,
/// or the limit for what is received.
pub open spec fn limit(strict: bool) -> nat {
    if strict {
        MAX_NESTING as nat
    } else {
        MAX_RESPONSE_NESTING as nat
    }
}

/// Whether bytes begin a container.
pub open spec fn opens(raw: Seq<u8>) -> bool {
    raw.len() > 0 && (raw[0] == OPEN_OBJECT || raw[0] == OPEN_ARRAY)
}

/// The value that the bytes of a JSON value denote at a depth. The first error
/// counts, in the order of the bytes, and of the names of an object for its
/// values.
pub open spec fn read(raw: Seq<u8>, depth: nat, strict: bool) -> Result<Json, Fault>
    decreases limit(strict) + 1 - depth, 0int,
{
    if depth + (if opens(raw) { 1nat } else { 0nat }) > limit(strict) {
        Err(nesting_fault())
    } else if raw.len() > 0 && raw[0] == OPEN_OBJECT {
        match members(raw) {
            None => Err(input_fault()),
            Some(all) => match keyed(raw, all, all.len() as int, strict) {
                Err(fault) => Err(fault),
                Ok(fields) => match read_fields(fields, depth + 1, strict) {
                    Err(fault) => Err(fault),
                    Ok(fields) => Ok(Json::Object(fields)),
                },
            },
        }
    } else if raw.len() > 0 && raw[0] == OPEN_ARRAY {
        match array_values(raw) {
            Err(message) => Err(json_fault(message)),
            Ok(items) => match read_items(items, depth + 1, strict) {
                Err(fault) => Err(fault),
                Ok(items) => Ok(Json::Array(items)),
            },
        }
    } else {
        match scalar(raw) {
            Err(message) => Err(json_fault(message)),
            Ok(value) => Ok(value),
        }
    }
}

/// The values that some bytes denote, or the first error.
pub open spec fn read_items(items: Seq<Seq<u8>>, depth: nat, strict: bool) -> Result<
    Seq<Json>,
    Fault,
>
    decreases limit(strict) + 1 - depth, 1 + items.len(),
{
    if items.len() == 0 || depth > limit(strict) {
        Ok(Seq::empty())
    } else {
        match read_items(items.drop_last(), depth, strict) {
            Err(fault) => Err(fault),
            Ok(done) => match read(items.last(), depth, strict) {
                Err(fault) => Err(fault),
                Ok(value) => Ok(done.push(value)),
            },
        }
    }
}

/// The members whose values some bytes denote, or the first error.
pub open spec fn read_fields(fields: Named<Seq<u8>>, depth: nat, strict: bool) -> Result<
    Members,
    Fault,
>
    decreases limit(strict) + 1 - depth, 1 + fields.len(),
{
    if fields.len() == 0 || depth > limit(strict) {
        Ok(Seq::empty())
    } else {
        match read_fields(fields.drop_last(), depth, strict) {
            Err(fault) => Err(fault),
            Ok(done) => match read(fields.last().1, depth, strict) {
                Err(fault) => Err(fault),
                Ok(value) => Ok(done.push((fields.last().0, value))),
            },
        }
    }
}

/// Skipping white space stops at a byte that is none, or at the end.
proof fn skipped_stops(bytes: Seq<u8>, from: int)
    requires
        0 <= from <= bytes.len(),
    ensures
        from <= skipped(bytes, from) <= bytes.len(),
        skipped(bytes, from) < bytes.len() ==> !gap(bytes[skipped(bytes, from)]),
    decreases bytes.len() - from,
{
    if from < bytes.len() && gap(bytes[from]) {
        skipped_stops(bytes, from + 1);
    }
}

/// The place of the first byte that is no white space.
fn skip_gap(bytes: &[u8], from: usize) -> (at: usize)
    requires
        from <= bytes@.len(),
    ensures
        at == skipped(bytes@, from as int),
        from <= at <= bytes@.len(),
        at < bytes@.len() ==> !gap(bytes@[at as int]),
{
    let mut at = from;
    while at < bytes.len() && (bytes[at] == 32 || bytes[at] == 9 || bytes[at] == NEWLINE
        || bytes[at] == 13)
        invariant
            from <= at <= bytes@.len(),
            skipped(bytes@, from as int) == skipped(bytes@, at as int),
        decreases bytes@.len() - at,
    {
        at = at + 1;
    }
    at
}

/// The place behind the JSON value that begins at a place.
fn find_end(bytes: &[u8], from: usize) -> (end: Option<usize>)
    requires
        from <= bytes@.len(),
    ensures
        match (end, end_at(bytes@, from as int)) {
            (Some(end), Some(expected)) => end == expected && from < end <= bytes@.len(),
            (None, None) => true,
            _ => false,
        },
        forall|value: Json| #[trigger]
            stands_at(bytes@, from as int, value) ==> (end matches Some(end) && end == from + size(
                value,
            )),
{
    let rest = slice_subrange(bytes, from, bytes.len());
    assert(rest@ =~= bytes@.skip(from as int));
    assert forall|value: Json| #[trigger] stands_at(bytes@, from as int, value) implies stands_at(
        rest@,
        0,
        value,
    ) by {
        assert(rest@.subrange(0, size(value) as int) =~= bytes@.subrange(
            from as int,
            from + size(value),
        ));
    }
    match find_value_end(rest) {
        Some(count) => Some(from + count),
        None => None,
    }
}

/// One member of an object, as bytes.
struct FoundMember<'a> {
    name: &'a [u8],
    value: &'a [u8],
    end: usize,
}

impl<'a> FoundMember<'a> {
    spec fn view(&self) -> RawMember {
        RawMember { name: self.name@, value: self.value@, end: self.end as int }
    }
}

/// Whether a member is found as it is written.
spec fn found_as(member: FoundMember<'_>, name: Seq<char>, value: Json) -> bool {
    member.name@ == encode_utf8(quoted(name)) && member.value@ == form(value)
}

/// Whether members are found as they are written.
spec fn all_found_as(found: Seq<FoundMember<'_>>, fields: Members) -> bool {
    found.len() == fields.len() && forall|i: int|
        0 <= i < found.len() ==> found_as(#[trigger] found[i], fields[i].0, fields[i].1)
}

/// What is written for a value.
spec fn form(value: Json) -> Seq<u8> {
    bytes(value)
}

/// The members that were found.
spec fn found_view(found: Seq<FoundMember<'_>>) -> Seq<RawMember> {
    Seq::new(found.len(), |i: int| found[i]@)
}

/// The member that begins at a place.
fn find_member<'a>(bytes: &'a [u8], from: usize) -> (member: Option<FoundMember<'a>>)
    requires
        from <= bytes@.len(),
    ensures
        match (member, member_at(bytes@, from as int)) {
            (Some(member), Some(expected)) => {
                &&& member@ == expected
                &&& from < member.end <= bytes@.len()
                &&& 0 < member.value@.len() <= bytes@.len()
                &&& !gap(member.value@[0])
            },
            (None, None) => true,
            _ => false,
        },
        forall|name: Seq<char>, value: Json| #[trigger]
            member_stands_at(bytes@, from as int, name, value) ==> (member matches Some(member)
                && found_as(member, name, value) && member.end == from + size(Json::Text(name)) + 1
                + size(value)),
{
    let ghost all = bytes@;
    proof {
        assert forall|name: Seq<char>, value: Json| #[trigger]
            member_stands_at(all, from as int, name, value) implies {
            &&& stands_at(all, from as int, Json::Text(name))
            &&& skipped(all, from as int) == from
            &&& skipped(all, from + size(Json::Text(name))) == from + size(Json::Text(name))
            &&& from + size(Json::Text(name)) < all.len()
            &&& all[from + size(Json::Text(name))] == COLON
            &&& skipped(all, from + size(Json::Text(name)) + 1) == from + size(Json::Text(name)) + 1
            &&& stands_at(all, from + size(Json::Text(name)) + 1, value)
        } by {
            member_parts(all, from as int, name, value);
        }
    }
    let start = skip_gap(bytes, from);
    let stop = match find_end(bytes, start) {
        Some(stop) => stop,
        None => {
            return None;
        },
    };
    let colon = skip_gap(bytes, stop);
    if !(colon < bytes.len() && bytes[colon] == COLON) {
        return None;
    }
    let begin = skip_gap(bytes, colon + 1);
    let end = match find_end(bytes, begin) {
        Some(end) => end,
        None => {
            return None;
        },
    };
    let member = FoundMember {
        name: slice_subrange(bytes, start, stop),
        value: slice_subrange(bytes, begin, end),
        end,
    };
    proof {
        assert forall|name: Seq<char>, value: Json| #[trigger]
            member_stands_at(all, from as int, name, value) implies found_as(member, name, value)
            && member.end == from + size(Json::Text(name)) + 1 + size(value) by {
            assert(stands_at(all, start as int, Json::Text(name)));
            assert(stands_at(all, begin as int, value));
        }
    }
    Some(member)
}

/// Whether some bytes are what is written for an object.
spec fn object_form(raw: Seq<u8>, fields: Members) -> bool {
    raw == bytes(Json::Object(fields)) && spellable(Json::Object(fields))
}

/// The members of an object in the order in which they are written. `fields` are those of
/// an object for which the bytes may have been written.
fn find_members<'a>(bytes: &'a [u8], Ghost(fields): Ghost<Members>) -> (found: Option<
    Vec<FoundMember<'a>>,
>)
    requires
        bytes@.len() > 0,
    ensures
        object_form(bytes@, fields) ==> (found matches Some(found) && all_found_as(found@, fields)),
        match (found, members(bytes@)) {
            (Some(found), Some(expected)) => found_view(found@) == expected && forall|i: int|
                0 <= i < found@.len() ==> {
                    &&& (#[trigger] found@[i]).end <= bytes@.len()
                    &&& 0 < found@[i].value@.len() <= bytes@.len()
                    &&& !gap(found@[i].value@[0])
                },
            (None, None) => true,
            _ => false,
        },
{
    let mut found: Vec<FoundMember<'a>> = Vec::new();
    let ghost good = object_form(bytes@, fields);
    proof {
        if good {
            object_start(bytes@, fields);
        }
    }
    let first = skip_gap(bytes, 1);
    if first < bytes.len() && bytes[first] == CLOSE_OBJECT {
        assert(found_view(found@) =~= Seq::<RawMember>::empty());
        return Some(found);
    }
    let mut from: usize = 1;
    assert(members(bytes@) matches Some(all) ==> found_view(found@) + all =~= all);
    loop
        invariant
            from <= bytes@.len(),
            good == object_form(bytes@, fields),
            good ==> found@.len() < fields.len() && from == place(fields, found@.len() as int),
            good ==> forall|i: int|
                0 <= i < found@.len() ==> found_as(#[trigger] found@[i], fields[i].0, fields[i].1),
            match (members_from(bytes@, from as int), members(bytes@)) {
                (Some(rest), Some(all)) => all == found_view(found@) + rest,
                (None, None) => true,
                _ => false,
            },
            forall|i: int|
                0 <= i < found@.len() ==> {
                    &&& (#[trigger] found@[i]).end <= bytes@.len()
                    &&& 0 < found@[i].value@.len() <= bytes@.len()
                    &&& !gap(found@[i].value@[0])
                },
        decreases bytes@.len() - from,
    {
        let ghost at = found@.len() as int;
        proof {
            if good {
                object_member(bytes@, fields, at);
            }
        }
        let member = match find_member(bytes, from) {
            Some(member) => member,
            None => {
                return None;
            },
        };
        let ghost before = found_view(found@);
        let ghost entry = member@;
        let next = skip_gap(bytes, member.end);
        if next >= bytes.len() {
            return None;
        }
        found.push(member);
        assert(found_view(found@) =~= before.push(entry));
        if bytes[next] == CLOSE_OBJECT {
            assert(before + seq![entry] =~= found_view(found@));
            return Some(found);
        }
        if bytes[next] != COMMA {
            return None;
        }
        proof {
            if let Some(rest) = members_from(bytes@, next + 1) {
                assert(before + (seq![entry] + rest) =~= found_view(found@) + rest);
            }
        }
        from = next + 1;
    }
}

/// The first member of an object begins behind its brace; without members, the object ends
/// there.
proof fn object_start(raw: Seq<u8>, fields: Members)
    requires
        object_form(raw, fields),
    ensures
        raw.len() > 1,
        skipped(raw, 1) == 1,
        (raw[1] == CLOSE_OBJECT) == (fields.len() == 0),
        place(fields, 0) == 1,
{
    assert(fields.take(0) =~= Seq::empty());
    assert(raw[1] == raw.skip(1)[0]);
    if fields.len() > 0 {
        object_member(raw, fields, 0);
        member_parts(raw, 1, fields[0].0, fields[0].1);
        byte_ends(Json::Text(fields[0].0));
        assert(raw.subrange(1, 1int + size(Json::Text(fields[0].0)))[0] == raw[1]);
        quote_first(fields[0].0);
    }
}

/// What follows a member of an object, and where.
proof fn object_member(raw: Seq<u8>, fields: Members, at: int)
    requires
        object_form(raw, fields),
        0 <= at < fields.len(),
    ensures
        ({
            let end = place(fields, at) + size(Json::Text(fields[at].0)) + 1 + size(fields[at].1);
            &&& member_stands_at(raw, place(fields, at), fields[at].0, fields[at].1)
            &&& 1 <= place(fields, at)
            &&& end < raw.len()
            &&& skipped(raw, end) == end
            &&& raw[end] == (if at + 1 == fields.len() {
                CLOSE_OBJECT
            } else {
                COMMA
            })
            &&& at + 1 < fields.len() ==> place(fields, at + 1) == end + 1
        }),
{
    assert(spellable(fields[at].1));
    member_place(fields, at);
    member_parts(raw, place(fields, at), fields[at].0, fields[at].1);
}

/// How many newlines some bytes hold and how many bytes follow the last of them.
fn line_and_column(bytes: &[u8], end: usize) -> (place: (u64, u64))
    requires
        end <= bytes@.len(),
    ensures
        place.0 == newlines(bytes@.take(end as int)),
        place.1 == column(bytes@.take(end as int)),
        place.0 <= end,
{
    let mut lines: u64 = 0;
    let mut columns: u64 = 0;
    let mut at: usize = 0;
    assert(bytes@.take(0) =~= Seq::<u8>::empty());
    while at < end
        invariant
            at <= end <= bytes@.len(),
            lines == newlines(bytes@.take(at as int)),
            columns == column(bytes@.take(at as int)),
            lines <= at,
            columns <= at,
        decreases end - at,
    {
        assert(bytes@.take(at as int + 1).drop_last() =~= bytes@.take(at as int));
        if bytes[at] == NEWLINE {
            lines = lines + 1;
            columns = 0;
        } else {
            columns = columns + 1;
        }
        at = at + 1;
    }
    (lines, columns)
}

/// The bytes of a slice.
spec fn slice_bytes<'a>() -> spec_fn(&'a [u8]) -> Seq<u8> {
    |slice: &'a [u8]| slice@
}

/// The error for a name that an object already has.
fn duplicate_error(bytes: &[u8], end: usize) -> (error: JevError)
    requires
        end <= bytes@.len() <= MAX_BYTES,
    ensures
        error@ == duplicate_fault(seen(bytes@, end as int)),
{
    let next = skip_gap(bytes, end);
    let stop = if next < bytes.len() && bytes[next] == CLOSE_OBJECT { next + 1 } else { next };
    let (lines, columns) = line_and_column(bytes, stop);
    let mut message = "Jev state JSON has duplicate object keys at line ".to_owned();
    message.append(decimal_text(1 + lines).as_str());
    message.append(" column ");
    message.append(decimal_text(columns).as_str());
    json_error(message.as_str())
}

/// An error in JSON text.
fn json_error(message: &str) -> (error: JevError)
    ensures
        error@ == json_fault(message@),
{
    JevError::execution(join2("Invalid Jev JSON: ", message).as_str())
}

/// Whether the names and the bytes of members are those of the members of an object.
spec fn named_as(list: Named<&[u8]>, members: Members) -> bool {
    list.len() == members.len() && forall|i: int|
        0 <= i < list.len() ==> (#[trigger] list[i]).0 == members[i].0 && list[i].1@ == form(
            members[i].1,
        )
}

/// The members of an object with their names read, in the order of the names. `hint` are
/// the members of an object for which they may have been written.
fn read_names<'a>(
    bytes: &'a [u8],
    found: &Vec<FoundMember<'a>>,
    strict: bool,
    Ghost(hint): Ghost<Members>,
) -> (result: Result<Vec<(String, &'a [u8])>, JevError>)
    requires
        strict ==> bytes@.len() <= MAX_BYTES,
        forall|i: int|
            0 <= i < found@.len() ==> {
                &&& (#[trigger] found@[i]).end <= bytes@.len()
                &&& 0 < found@[i].value@.len() <= bytes@.len()
                &&& !gap(found@[i].value@[0])
            },
    ensures
        ({
            let all = found_view(found@);
            match result {
                Ok(fields) => {
                    &&& keyed(bytes@, all, all.len() as int, strict) == Ok::<_, Fault>(
                        mapped(named(fields@), slice_bytes()),
                    )
                    &&& forall|i: int|
                        0 <= i < fields@.len() ==> 0 < (#[trigger] fields@[i]).1@.len()
                            <= bytes@.len() && !gap(fields@[i].1@[0])
                },
                Err(error) => keyed(bytes@, all, all.len() as int, strict) == Err::<
                    Named<Seq<u8>>,
                    _,
                >(error@),
            }
        }),
        all_found_as(found@, hint) && sorted(hint) ==> (result matches Ok(fields) && named_as(
            named(fields@),
            hint,
        )),
{
    let ghost good = all_found_as(found@, hint) && sorted(hint);
    let ghost all = found_view(found@);
    let mut fields: Vec<(String, &'a [u8])> = Vec::new();
    assert(mapped(named(fields@), slice_bytes()) =~= Seq::<(Seq<char>, Seq<u8>)>::empty());
    for at in 0..found.len()
        invariant
            all == found_view(found@),
            strict ==> bytes@.len() <= MAX_BYTES,
            forall|i: int|
                0 <= i < found@.len() ==> {
                    &&& (#[trigger] found@[i]).end <= bytes@.len()
                    &&& 0 < found@[i].value@.len() <= bytes@.len()
                    &&& !gap(found@[i].value@[0])
                },
            keyed(bytes@, all, at as int, strict) == Ok::<_, Fault>(
                mapped(named(fields@), slice_bytes()),
            ),
            sorted(named(fields@)),
            usable(named(fields@), bytes@.len()),
            good == (all_found_as(found@, hint) && sorted(hint)),
            good ==> named_as(named(fields@), hint.take(at as int)),
    {
        let member = &found[at];
        assert(all[at as int] == member@);
        match read_string(member.name) {
            None => {
                proof {
                    keyed_error(bytes@, all, at as int + 1, strict);
                }
                return Err(json_error(read_object_error(bytes).as_str()));
            },
            Some(name) => {
                let ghost before = named(fields@);
                let ghost text = name@;
                proof {
                    with_field_mapped(before, text, member.value, slice_bytes());
                    mapped_names(before, text);
                    usable_with_field(before, text, member.value, bytes@.len());
                    if good {
                        names_in_order(before, hint, at as int, member.value);
                        assert(text == hint[at as int].0);
                    }
                }
                if put_field(&mut fields, name, member.value) && strict {
                    proof {
                        keyed_error(bytes@, all, at as int + 1, strict);
                    }
                    return Err(duplicate_error(bytes, member.end));
                }
            },
        }
    }
    proof {
        assert forall|i: int| 0 <= i < fields@.len() implies 0 < (#[trigger] fields@[i]).1@.len()
            <= bytes@.len() && !gap(fields@[i].1@[0]) by {
            assert(named(fields@)[i].1 == fields@[i].1);
        }
    }
    assert(hint.take(hint.len() as int) =~= hint);
    Ok(fields)
}

/// The next member of an object is put behind those before it.
proof fn names_in_order(before: Named<&[u8]>, hint: Members, at: int, value: &[u8])
    requires
        0 <= at < hint.len(),
        sorted(hint),
        named_as(before, hint.take(at)),
        value@ == form(hint[at].1),
    ensures
        !has_field(before, hint[at].0),
        named_as(with_field(before, hint[at].0, value), hint.take(at + 1)),
{
    assert forall|i: int| 0 <= i < before.len() implies crate::text::less(
        (#[trigger] before[i]).0,
        hint[at].0,
    ) by {
        assert(hint.take(at)[i] == hint[i]);
    }
    with_field_last(before, hint[at].0, value);
    let all = before.push((hint[at].0, value));
    assert forall|i: int| 0 <= i < all.len() implies (#[trigger] all[i]).0 == hint.take(at + 1)[i].0
        && all[i].1@ == form(hint.take(at + 1)[i].1) by {
        if i < at {
            assert(all[i] == before[i]);
            assert(hint.take(at)[i] == hint[i]);
        }
    }
}

/// Whether every value is a part that can be read.
spec fn usable(fields: Named<&[u8]>, size: nat) -> bool {
    forall|i: int|
        0 <= i < fields.len() ==> 0 < (#[trigger] fields[i]).1@.len() <= size && !gap(
            fields[i].1@[0],
        )
}

/// Putting one more such value keeps all of them such values.
proof fn usable_with_field(fields: Named<&[u8]>, name: Seq<char>, value: &[u8], size: nat)
    requires
        usable(fields, size),
        0 < value@.len() <= size,
        !gap(value@[0]),
    ensures
        usable(with_field(fields, name, value), size),
    decreases fields.len(),
{
    let result = with_field(fields, name, value);
    if fields.len() > 0 {
        let rest = fields.drop_first();
        assert(usable(rest, size)) by {
            assert forall|i: int| 0 <= i < rest.len() implies 0 < (#[trigger] rest[i]).1@.len()
                <= size && !gap(rest[i].1@[0]) by {
                assert(rest[i] == fields[i + 1]);
            }
        }
        usable_with_field(rest, name, value, size);
        let tail = with_field(rest, name, value);
        assert forall|i: int| 0 <= i < result.len() implies 0 < (#[trigger] result[i]).1@.len()
            <= size && !gap(result[i].1@[0]) by {
            if crate::text::less(name, fields[0].0) {
                if i > 0 {
                    assert(result[i] == fields[i - 1]);
                }
            } else if name == fields[0].0 {
                if i > 0 {
                    assert(result[i] == rest[i - 1]);
                }
            } else if i > 0 {
                assert(result[i] == tail[i - 1]);
            } else {
                assert(result[i] == fields[0]);
            }
        }
    }
}

/// Taking values by their bytes does not touch the names.
proof fn mapped_names(fields: Named<&[u8]>, name: Seq<char>)
    ensures
        has_field(mapped(fields, slice_bytes()), name) == has_field(fields, name),
{
    let all = mapped(fields, slice_bytes());
    if has_field(fields, name) {
        let i = choose|i: int| 0 <= i < fields.len() && (#[trigger] fields[i]).0 == name;
        assert(all[i].0 == name);
    }
    if has_field(all, name) {
        let i = choose|i: int| 0 <= i < all.len() && (#[trigger] all[i]).0 == name;
        assert(fields[i].0 == name);
    }
}

/// An error in the first members is the error of all of them.
proof fn keyed_error(bytes: Seq<u8>, all: Seq<RawMember>, count: int, strict: bool)
    requires
        0 <= count <= all.len(),
        keyed(bytes, all, count, strict) is Err,
    ensures
        keyed(bytes, all, all.len() as int, strict) == keyed(bytes, all, count, strict),
    decreases all.len() - count,
{
    if count < all.len() {
        keyed_error(bytes, all, count + 1, strict);
    }
}

/// An error in the first values is the error of all of them.
proof fn read_items_error(items: Seq<Seq<u8>>, depth: nat, strict: bool, count: int)
    requires
        0 <= count <= items.len(),
        depth <= limit(strict),
        read_items(items.take(count), depth, strict) is Err,
    ensures
        read_items(items, depth, strict) == read_items(items.take(count), depth, strict),
    decreases items.len() - count,
{
    if count < items.len() {
        assert(items.take(count + 1).drop_last() =~= items.take(count));
        read_items_error(items, depth, strict, count + 1);
    } else {
        assert(items.take(count) =~= items);
    }
}

/// An error in the first members is the error of all of them.
proof fn read_fields_error(fields: Named<Seq<u8>>, depth: nat, strict: bool, count: int)
    requires
        0 <= count <= fields.len(),
        depth <= limit(strict),
        read_fields(fields.take(count), depth, strict) is Err,
    ensures
        read_fields(fields, depth, strict) == read_fields(fields.take(count), depth, strict),
    decreases fields.len() - count,
{
    if count < fields.len() {
        assert(fields.take(count + 1).drop_last() =~= fields.take(count));
        read_fields_error(fields, depth, strict, count + 1);
    } else {
        assert(fields.take(count) =~= fields);
    }
}

/// Whether some bytes are what is written for a value that may stand at a depth.
spec fn is_form(raw: Seq<u8>, depth: nat, strict: bool, value: Json) -> bool {
    settled(value) && raw == bytes(value) && depth + nesting(value) <= limit(strict)
}

/// Whether each of some bytes is what is written for a value that may stand at a depth.
spec fn all_forms(items: Seq<Seq<u8>>, depth: nat, strict: bool, values: Seq<Json>) -> bool {
    items.len() == values.len() && forall|i: int|
        0 <= i < items.len() ==> is_form(#[trigger] items[i], depth, strict, values[i])
}

/// The values of an array are written in it.
proof fn array_forms(depth: nat, strict: bool, values: Seq<Json>)
    requires
        settled(Json::Array(values)),
        depth + nesting(Json::Array(values)) <= limit(strict),
    ensures
        all_forms(forms(values), depth + 1, strict, values),
{
    assert forall|i: int| 0 <= i < values.len() implies is_form(
        #[trigger] forms(values)[i],
        depth + 1,
        strict,
        values[i],
    ) by {
        deeper_item(values, i);
        assert(settled(values[i]));
    }
}

/// The values of members.
spec fn member_values(members: Members) -> Seq<Json> {
    Seq::new(members.len(), |i: int| members[i].1)
}

/// The bytes of the values of members.
spec fn value_slices(fields: Seq<(String, &[u8])>) -> Seq<Seq<u8>> {
    Seq::new(fields.len(), |i: int| fields[i].1@)
}

/// The values of the members of an object are written in it.
proof fn object_forms(fields: Seq<(String, &[u8])>, depth: nat, strict: bool, members: Members)
    requires
        settled(Json::Object(members)),
        depth + nesting(Json::Object(members)) <= limit(strict),
        named_as(named(fields), members),
    ensures
        all_forms(value_slices(fields), depth + 1, strict, member_values(members)),
{
    let all = value_slices(fields);
    assert forall|i: int| 0 <= i < all.len() implies is_form(
        #[trigger] all[i],
        depth + 1,
        strict,
        member_values(members)[i],
    ) by {
        deeper_field(members, i);
        assert(settled(members[i].1));
        assert(named(fields)[i].1@ == form(members[i].1));
    }
}

/// Reads the bytes of a JSON value that stands at a depth. `hint` is a value for which
/// they may have been written.
fn read_value(raw: &[u8], depth: usize, strict: bool, Ghost(hint): Ghost<Json>) -> (result: Result<
    JsonValue,
    JevError,
>)
    requires
        raw@.len() > 0 ==> !gap(raw@[0]),
        strict ==> raw@.len() <= MAX_BYTES,
        depth <= limit(strict) + 1,
    ensures
        match result {
            Ok(value) => read(raw@, depth as nat, strict) == Ok::<_, Fault>(value@),
            Err(error) => read(raw@, depth as nat, strict) == Err::<Json, _>(error@),
        },
        is_form(raw@, depth as nat, strict, hint) ==> (result matches Ok(value) && value@
            == normalized(hint)),
    decreases limit(strict) + 1 - depth, 0int,
{
    broadcast use container_views;

    let ghost good = is_form(raw@, depth as nat, strict, hint);
    let ghost hinted: Members = match hint {
        Json::Object(fields) => fields,
        _ => Seq::empty(),
    };
    let ghost listed: Seq<Json> = match hint {
        Json::Array(items) => items,
        _ => Seq::empty(),
    };
    proof {
        if good {
            settled_spellable(hint);
            byte_ends(hint);
            normalized_settled(hint);
        }
    }

    let object = raw.len() > 0 && raw[0] == OPEN_OBJECT;
    let array = raw.len() > 0 && raw[0] == OPEN_ARRAY;
    let most: usize = if strict { MAX_NESTING } else { MAX_RESPONSE_NESTING };
    if depth > most || ((object || array) && depth == most) {
        return Err(JevError::execution("Jev state exceeds 64 nesting levels"));
    }
    if object {
        let found = match find_members(raw, Ghost(hinted)) {
            Some(found) => found,
            None => {
                return Err(JevError::execution("Jev input contains invalid JSON"));
            },
        };
        let fields = match read_names(raw, &found, strict, Ghost(hinted)) {
            Ok(fields) => fields,
            Err(error) => {
                return Err(error);
            },
        };
        proof {
            if good {
                object_forms(fields@, depth as nat, strict, hinted);
            }
        }
        match read_all_fields(&fields, depth + 1, strict, Ghost(member_values(hinted))) {
            Ok(values) => {
                proof {
                    if good {
                        normalized_fields_each(hinted);
                        assert forall|i: int| 0 <= i < hinted.len() implies fields_view(values@)[i]
                            == normalized_fields(hinted)[i] by {
                            assert(named(fields@)[i].0 == hinted[i].0);
                        }
                        assert(fields_view(values@) =~= normalized_fields(hinted));
                    }
                }
                Ok(JsonValue::Object(values))
            },
            Err(error) => Err(error),
        }
    } else if array {
        match read_array(raw) {
            Ok(items) => {
                proof {
                    if good {
                        array_forms(depth as nat, strict, listed);
                    }
                }
                match read_all_items(&items, depth + 1, strict, Ghost(listed)) {
                    Ok(values) => {
                        proof {
                            if good {
                                normalized_items_each(listed);
                                assert(items_view(values@) =~= normalized_items(listed));
                            }
                        }
                        Ok(JsonValue::Array(values))
                    },
                    Err(error) => Err(error),
                }
            },
            Err(message) => Err(json_error(message.as_str())),
        }
    } else {
        match read_scalar(raw) {
            Ok(value) => Ok(value),
            Err(message) => Err(json_error(message.as_str())),
        }
    }
}

/// Reads the values of an array, which stand at a depth. `hint` are values for which they
/// may have been written.
fn read_all_items(
    items: &Vec<&[u8]>,
    depth: usize,
    strict: bool,
    Ghost(hint): Ghost<Seq<Json>>,
) -> (result: Result<Vec<JsonValue>, JevError>)
    requires
        forall|i: int|
            0 <= i < items@.len() ==> 0 < (#[trigger] items@[i])@.len() && !gap(items@[i]@[0])
                && (strict ==> items@[i]@.len() <= MAX_BYTES),
        depth <= limit(strict),
    ensures
        match result {
            Ok(values) => read_items(slices(items@), depth as nat, strict) == Ok::<_, Fault>(
                items_view(values@),
            ),
            Err(error) => read_items(slices(items@), depth as nat, strict) == Err::<Seq<Json>, _>(
                error@,
            ),
        },
        all_forms(slices(items@), depth as nat, strict, hint) ==> (result matches Ok(values)
            && values@.len() == hint.len() && forall|i: int|
            0 <= i < hint.len() ==> (#[trigger] values@[i])@ == normalized(hint[i])),
    decreases limit(strict) + 1 - depth, 1 + items@.len(),
{
    let ghost all = slices(items@);
    let mut values: Vec<JsonValue> = Vec::new();
    assert(items_view(values@) =~= Seq::<Json>::empty());
    for at in 0..items.len()
        invariant
            all == slices(items@),
            forall|i: int|
                0 <= i < items@.len() ==> 0 < (#[trigger] items@[i])@.len() && !gap(items@[i]@[0])
                    && (strict ==> items@[i]@.len() <= MAX_BYTES),
            depth <= limit(strict),
            read_items(all.take(at as int), depth as nat, strict) == Ok::<_, Fault>(
                items_view(values@),
            ),
            values@.len() == at,
            all_forms(all, depth as nat, strict, hint) ==> forall|i: int|
                0 <= i < at ==> (#[trigger] values@[i])@ == normalized(hint[i]),
    {
        assert(all_forms(all, depth as nat, strict, hint) ==> is_form(
            all[at as int],
            depth as nat,
            strict,
            hint[at as int],
        ));
        let ghost next = all.take(at as int + 1);
        let ghost before = items_view(values@);
        proof {
            assert(next.drop_last() =~= all.take(at as int));
            assert(next.last() == items@[at as int]@);
        }
        match read_value(items[at], depth, strict, Ghost(hint[at as int])) {
            Ok(value) => {
                let ghost entry = value@;
                values.push(value);
                assert(items_view(values@) =~= before.push(entry));
            },
            Err(error) => {
                proof {
                    read_items_error(all, depth as nat, strict, at as int + 1);
                }
                return Err(error);
            },
        }
    }
    assert(all.take(all.len() as int) =~= all);
    Ok(values)
}

/// Reads the values of members, which stand at a depth. `hint` are values for which they
/// may have been written.
fn read_all_fields(
    fields: &Vec<(String, &[u8])>,
    depth: usize,
    strict: bool,
    Ghost(hint): Ghost<Seq<Json>>,
) -> (result: Result<Vec<(String, JsonValue)>, JevError>)
    requires
        forall|i: int|
            0 <= i < fields@.len() ==> 0 < (#[trigger] fields@[i]).1@.len() && !gap(
                fields@[i].1@[0],
            ) && (strict ==> fields@[i].1@.len() <= MAX_BYTES),
        depth <= limit(strict),
    ensures
        ({
            let all = mapped(named(fields@), slice_bytes());
            match result {
                Ok(values) => read_fields(all, depth as nat, strict) == Ok::<_, Fault>(
                    fields_view(values@),
                ),
                Err(error) => read_fields(all, depth as nat, strict) == Err::<Members, _>(error@),
            }
        }),
        all_forms(value_slices(fields@), depth as nat, strict, hint) ==> (result matches Ok(values)
            && values@.len() == hint.len() && forall|i: int|
            0 <= i < hint.len() ==> (#[trigger] values@[i]).0@ == fields@[i].0@ && values@[i].1@
                == normalized(hint[i])),
    decreases limit(strict) + 1 - depth, 1 + fields@.len(),
{
    let ghost all = mapped(named(fields@), slice_bytes());
    let mut values: Vec<(String, JsonValue)> = Vec::new();
    assert(fields_view(values@) =~= Seq::<(Seq<char>, Json)>::empty());
    for at in 0..fields.len()
        invariant
            all == mapped(named(fields@), slice_bytes()),
            forall|i: int|
                0 <= i < fields@.len() ==> 0 < (#[trigger] fields@[i]).1@.len() && !gap(
                    fields@[i].1@[0],
                ) && (strict ==> fields@[i].1@.len() <= MAX_BYTES),
            depth <= limit(strict),
            read_fields(all.take(at as int), depth as nat, strict) == Ok::<_, Fault>(
                fields_view(values@),
            ),
            values@.len() == at,
            forall|i: int| 0 <= i < at ==> (#[trigger] values@[i]).0@ == fields@[i].0@,
            all_forms(value_slices(fields@), depth as nat, strict, hint) ==> forall|i: int|
                0 <= i < at ==> (#[trigger] values@[i]).1@ == normalized(hint[i]),
    {
        assert(all_forms(value_slices(fields@), depth as nat, strict, hint) ==> is_form(
            value_slices(fields@)[at as int],
            depth as nat,
            strict,
            hint[at as int],
        ));
        let ghost next = all.take(at as int + 1);
        let ghost before = fields_view(values@);
        proof {
            assert(next.drop_last() =~= all.take(at as int));
            assert(next.last() == (fields@[at as int].0@, fields@[at as int].1@));
        }
        match read_value(fields[at].1, depth, strict, Ghost(hint[at as int])) {
            Ok(value) => {
                let ghost entry = (fields@[at as int].0@, value@);
                values.push((fields[at].0.clone(), value));
                assert(fields_view(values@) =~= before.push(entry));
            },
            Err(error) => {
                proof {
                    read_fields_error(all, depth as nat, strict, at as int + 1);
                }
                return Err(error);
            },
        }
    }
    assert(all.take(all.len() as int) =~= all);
    Ok(values)
}

/// The bytes of a value are no more than those of the text that holds it, and do
/// not begin with white space.
proof fn stripped_bounds(bytes: Seq<u8>)
    ensures
        stripped(bytes).len() <= bytes.len(),
        stripped(bytes).len() > 0 ==> !gap(stripped(bytes)[0]),
{
    skipped_stops(bytes, 0);
    let rest = bytes.skip(skipped(bytes, 0));
    stripped_end_bounds(rest);
}

proof fn stripped_end_bounds(bytes: Seq<u8>)
    ensures
        stripped_end(bytes).len() <= bytes.len(),
        stripped_end(bytes).len() > 0 ==> stripped_end(bytes)[0] == bytes[0],
    decreases bytes.len(),
{
    if bytes.len() > 0 && gap(bytes.last()) {
        stripped_end_bounds(bytes.drop_last());
    }
}

/// Bytes with no white space at their ends stay as they are.
proof fn stripped_same(bytes: Seq<u8>)
    requires
        bytes.len() > 0,
        !gap(bytes[0]),
        !gap(bytes.last()),
    ensures
        stripped(bytes) == bytes,
{
    assert(bytes.skip(0) =~= bytes);
}

/// Whether a text is the byte form of a value that may stand at a depth.
pub open spec fn writes(text: Seq<char>, depth: nat, value: Json) -> bool {
    &&& encode_utf8(text) == canonical(value)
    &&& depth + nesting(arranged(value)) <= MAX_NESTING
    &&& spellable(arranged(value))
    &&& canonical(value).len() <= MAX_BYTES
}

/// The value that a JSON text denotes at a depth.
pub open spec fn text_value(text: Seq<char>, depth: nat) -> Result<Json, Fault> {
    if encode_utf8(text).len() > MAX_BYTES {
        Err(size_fault())
    } else if !well_formed(text) {
        Err(input_fault())
    } else {
        read(stripped(encode_utf8(text)), depth, true)
    }
}

/// Reads a JSON text at a depth. The byte form of a value is read as a value with the same
/// byte form.
pub fn json_text_value(text: &str, depth: usize) -> (result: Result<JsonValue, JevError>)
    requires
        depth <= MAX_NESTING,
    ensures
        match result {
            Ok(value) => text_value(text@, depth as nat) == Ok::<_, Fault>(value@),
            Err(error) => text_value(text@, depth as nat) == Err::<Json, _>(error@),
        },
        forall|form: Json| #[trigger]
            writes(text@, depth as nat, form) ==> (result matches Ok(value) && writes(
                text@,
                depth as nat,
                value@,
            )),
{
    if text.as_bytes().len() > MAX_BYTES {
        return Err(size_error());
    }
    let ghost hint = arranged(choose|form: Json| writes(text@, depth as nat, form));
    proof {
        stripped_bounds(encode_utf8(text@));
        if exists|form: Json| writes(text@, depth as nat, form) {
            arranged_settled(choose|form: Json| writes(text@, depth as nat, form));
            byte_ends(hint);
            stripped_same(encode_utf8(text@));
            normalized_writes_alike(hint);
        }
    }
    match raw_value(text) {
        Some(raw) => read_value(raw, depth, true, Ghost(hint)),
        None => Err(JevError::execution("Jev input contains invalid JSON")),
    }
}

/// The value that a JSON text denotes, where its byte form keeps the limits.
pub open spec fn parsed(text: Seq<char>) -> Result<Json, Fault> {
    match text_value(text, 0) {
        Err(fault) => Err(fault),
        Ok(value) => match written(value, 0, Seq::empty()) {
            Err(fault) => Err(fault),
            Ok(_) => Ok(value),
        },
    }
}

/// Reads a JSON text without discarding duplicate names or giving a meaning to
/// the names that the JSON library uses for itself. The byte form of a value is read as a
/// value with the same byte form.
pub fn parse_json_value(text: &str) -> (result: Result<JsonValue, JevError>)
    ensures
        match result {
            Ok(value) => parsed(text@) == Ok::<_, Fault>(value@) && fits(value@),
            Err(error) => parsed(text@) == Err::<Json, _>(error@),
        },
        forall|form: Json|
            fits(form) && encode_utf8(text@) == #[trigger] canonical(form) ==> (result matches Ok(
                value,
            ) && canonical(value@) == canonical(form)),
{
    proof {
        assert forall|form: Json|
            fits(form) && encode_utf8(text@) == #[trigger] canonical(form) implies writes(
            text@,
            0,
            form,
        ) by {}
    }
    match json_text_value(text, 0) {
        Ok(value) => {
            proof {
                emit_writes(arranged(value@), 0, Seq::empty());
            }
            match canonical_bytes(&value) {
                Ok(_) => Ok(value),
                Err(error) => Err(error),
            }
        },
        Err(error) => Err(error),
    }
}

/// The object or array that a text holds. A text that is no JSON, or another JSON
/// value, holds none.
pub open spec fn structured(text: Seq<char>) -> Result<Option<Json>, Fault> {
    if encode_utf8(text).len() > MAX_BYTES {
        Err(size_fault())
    } else if !well_formed(text) || !opens(stripped(encode_utf8(text))) {
        Ok(None)
    } else {
        match parsed(text) {
            Err(fault) => Err(fault),
            Ok(value) => Ok(Some(value)),
        }
    }
}

/// Reads the object or array that a text holds, if it holds one.
pub fn parse_structured_text(text: &str) -> (result: Result<Option<JsonValue>, JevError>)
    ensures
        match result {
            Ok(Some(value)) => structured(text@) == Ok::<_, Fault>(Some(value@)) && fits(value@),
            Ok(None) => structured(text@) == Ok::<Option<Json>, Fault>(None),
            Err(error) => structured(text@) == Err::<Option<Json>, _>(error@),
        },
{
    if text.as_bytes().len() > MAX_BYTES {
        return Err(size_error());
    }
    match raw_value(text) {
        Some(raw) if raw[0] == OPEN_OBJECT || raw[0] == OPEN_ARRAY => match parse_json_value(text) {
            Ok(value) => Ok(Some(value)),
            Err(error) => Err(error),
        },
        _ => Ok(None),
    }
}

/// The object or array that a text holds, or else the text itself.
pub open spec fn structured_or_text(text: Seq<char>) -> Json {
    match structured(text) {
        Ok(Some(value)) => value,
        _ => Json::Text(text),
    }
}

/// The object or array that a text holds, or else the text itself.
pub fn structured_text(text: String) -> (value: JsonValue)
    ensures
        value@ == structured_or_text(text@),
{
    match parse_structured_text(text.as_str()) {
        Ok(Some(value)) => value,
        _ => JsonValue::Text(text),
    }
}

/// The value that the JSON text of a response denotes. Of several members with
/// one name the last counts.
pub open spec fn received(text: Seq<char>) -> Option<Json> {
    if !well_formed(text) {
        None
    } else {
        match read(stripped(encode_utf8(text)), 0, false) {
            Ok(value) => Some(value),
            Err(_) => None,
        }
    }
}

/// Reads the JSON text of a response. No name has a special meaning.
pub fn parse_value(text: &str) -> (value: Option<JsonValue>)
    ensures
        match (value, received(text@)) {
            (Some(value), Some(expected)) => value@ == expected,
            (None, None) => true,
            _ => false,
        },
{
    proof {
        stripped_bounds(encode_utf8(text@));
    }
    match raw_value(text) {
        Some(raw) => match read_value(raw, 0, false, Ghost(Json::Null)) {
            Ok(value) => Some(value),
            Err(_) => None,
        },
        None => None,
    }
}

} // verus!
