//! What is read from JSON text, told from its parts.
use vstd::prelude::*;
use vstd::utf8::encode_utf8;

use crate::canonical::fits;
use crate::errors::Fault;
use crate::json::{collected, collected_sorted, has_field, lookup, sorted, Json, Named};
use crate::json_laws::{
    found_members_are_held, holds, names_find_their_member, ordered_members_are_found,
    putting_a_member, stands_at,
};
use crate::parse::{
    array_values, keyed, members, parsed, read, read_fields, read_items, received, scalar, skipped,
    string_text, stripped, stripped_end, structured, text_value, well_formed, RawMember,
};
use crate::text::less;
use crate::writing_laws::fitting_values_are_written;

verus! {

/// The names and texts of some members, as they come.
pub open spec fn raw_members(all: Seq<RawMember>, count: int) -> Named<Seq<u8>> {
    Seq::new(count as nat, |i: int| (string_text(all[i].name)->0, all[i].value))
}

/// What is kept of some members: the last of each name, in the order of the names; where names
/// may not come twice, all of them.
proof fn members_are_keyed(bytes: Seq<u8>, all: Seq<RawMember>, count: int, strict: bool)
    requires
        0 <= count <= all.len(),
    ensures
        keyed(bytes, all, count, strict) matches Ok(done) ==> {
            &&& forall|i: int| 0 <= i < count ==> string_text((#[trigger] all[i]).name) is Some
            &&& done == collected(raw_members(all, count))
            &&& strict ==> done.len() == count
            &&& strict ==> forall|i: int, j: int|
                0 <= i < j < count ==> string_text((#[trigger] all[i]).name) != string_text(
                    (#[trigger] all[j]).name,
                )
        },
        strict ==> (forall|i: int| 0 <= i < count ==> string_text((#[trigger] all[i]).name) is Some)
            && (forall|i: int, j: int|
            0 <= i < j < count ==> string_text((#[trigger] all[i]).name) != string_text(
                (#[trigger] all[j]).name,
            )) ==> keyed(bytes, all, count, strict) is Ok,
        !strict && (forall|i: int|
            0 <= i < count ==> string_text((#[trigger] all[i]).name) is Some) ==> keyed(
            bytes,
            all,
            count,
            strict,
        ) is Ok,
    decreases count,
{
    if count > 0 {
        members_are_keyed(bytes, all, count - 1, strict);
        let before = raw_members(all, count - 1);
        let now = raw_members(all, count);
        assert(now.drop_last() =~= before);
        assert(now.last() == (string_text(all[count - 1].name)->0, all[count - 1].value));
        collected_sorted(before);
        if keyed(bytes, all, count - 1, strict) is Ok && string_text(all[count - 1].name) is Some {
            let name = string_text(all[count - 1].name)->0;
            let done = collected(before);
            assert(has_field(done, name) <==> has_field(before, name));
            if strict && !has_field(done, name) {
                putting_a_member(done, name, all[count - 1].value);
                assert forall|i: int, j: int| 0 <= i < j < count implies string_text(
                    (#[trigger] all[i]).name,
                ) != string_text((#[trigger] all[j]).name) by {
                    if j == count - 1 {
                        assert(before[i].0 != name);
                    }
                }
            }
            if strict && has_field(done, name) {
                let i = choose|i: int| 0 <= i < before.len() && (#[trigger] before[i]).0 == name;
                assert(string_text(all[i].name) == string_text(all[count - 1].name));
            }
        }
    } else {
        assert(raw_members(all, count) =~= Seq::empty());
    }
}

/// The values of some members are read one by one.
proof fn fields_are_read(fields: Named<Seq<u8>>, depth: nat, strict: bool)
    requires
        depth <= (if strict {
            64int
        } else {
            127
        }),
    ensures
        read_fields(fields, depth, strict) matches Ok(members) ==> members.len() == fields.len()
            && forall|i: int|
            0 <= i < members.len() ==> (#[trigger] members[i]).0 == fields[i].0 && read(
                fields[i].1,
                depth,
                strict,
            ) == Ok::<_, Fault>(members[i].1),
        (forall|i: int|
            0 <= i < fields.len() ==> read((#[trigger] fields[i]).1, depth, strict) is Ok)
            ==> read_fields(fields, depth, strict) is Ok,
    decreases fields.len(),
{
    if fields.len() > 0 {
        let rest = fields.drop_last();
        fields_are_read(rest, depth, strict);
        if forall|i: int|
            0 <= i < fields.len() ==> read((#[trigger] fields[i]).1, depth, strict) is Ok {
            assert forall|i: int| 0 <= i < rest.len() implies read(
                (#[trigger] rest[i]).1,
                depth,
                strict,
            ) is Ok by {
                assert(rest[i] == fields[i]);
            }
            assert(read(fields[fields.len() - 1].1, depth, strict) is Ok);
        }
        if read_fields(fields, depth, strict) is Ok {
            let done = read_fields(rest, depth, strict)->Ok_0;
            let members = read_fields(fields, depth, strict)->Ok_0;
            assert forall|i: int| 0 <= i < members.len() implies (#[trigger] members[i]).0
                == fields[i].0 && read(fields[i].1, depth, strict) == Ok::<_, Fault>(
                members[i].1,
            ) by {
                if i < rest.len() {
                    assert(members[i] == done[i]);
                    assert(rest[i] == fields[i]);
                }
            }
        }
    }
}

/// An object is read as its members: under each name what the last text under that name says,
/// in the order of the names, and nothing besides. In what a query gives, no name may come
/// twice.
pub proof fn objects_are_read_by_member(
    raw: Seq<u8>,
    depth: nat,
    strict: bool,
    all: Seq<RawMember>,
    at: int,
)
    requires
        raw.len() > 0,
        raw[0] == 123,
        members(raw) == Some(all),
        0 <= at < all.len(),
        forall|later: int|
            at < later < all.len() ==> string_text((#[trigger] all[later]).name) != string_text(
                all[at].name,
            ),
    ensures
        read(raw, depth, strict) matches Ok(value) ==> {
            &&& value matches Json::Object(fields) && sorted(fields) && fields.len() <= all.len()
                && (strict ==> fields.len() == all.len())
            &&& read(all[at].value, depth + 1, strict) is Ok
            &&& string_text(all[at].name) matches Some(name) && holds(
                value,
                name,
                read(all[at].value, depth + 1, strict)->Ok_0,
            )
            &&& strict ==> forall|i: int, j: int|
                0 <= i < j < all.len() ==> string_text((#[trigger] all[i]).name) != string_text(
                    (#[trigger] all[j]).name,
                )
        },
{
    if let Ok(value) = read(raw, depth, strict) {
        members_are_keyed(raw, all, all.len() as int, strict);
        let kept = keyed(raw, all, all.len() as int, strict)->Ok_0;
        let texts = raw_members(all, all.len() as int);
        collected_sorted(texts);
        fields_are_read(kept, depth + 1, strict);
        let fields = read_fields(kept, depth + 1, strict)->Ok_0;
        assert(value == Json::Object(fields));
        let name = string_text(all[at].name)->0;
        assert(stands_at(texts, at, name, all[at].value)) by {
            assert forall|later: int| at < later < texts.len() implies (#[trigger] texts[later]).0
                != name by {
                assert(string_text(all[later].name) != string_text(all[at].name));
            }
        }
        names_find_their_member(texts, name);
        ordered_members_are_found(texts, name);
        names_find_their_member(kept, name);
        let place = place_of(kept, name, all[at].value);
        assert(fields[place].0 == name);
        assert(stands_at(fields, place, name, fields[place].1)) by {
            assert forall|later: int| place < later < fields.len() implies (
            #[trigger] fields[later]).0 != name by {
                assert(kept[later].0 != name);
            }
        }
        assert(sorted(fields)) by {
            assert forall|i: int, j: int| 0 <= i < j < fields.len() implies less(
                (#[trigger] fields[i]).0,
                (#[trigger] fields[j]).0,
            ) by {
                assert(less(kept[i].0, kept[j].0));
            }
        }
        names_find_their_member(fields, name);
        found_members_are_held(fields, name, fields[place].1);
        kept_are_no_more(texts);
    }
}

/// The place at which a name finds a value.
proof fn place_of(fields: Named<Seq<u8>>, name: Seq<char>, value: Seq<u8>) -> (at: int)
    requires
        lookup(fields, name) == Some(value),
    ensures
        stands_at(fields, at, name, value),
    decreases fields.len(),
{
    if fields.last().0 == name {
        fields.len() - 1
    } else {
        let rest = fields.drop_last();
        let at = place_of(rest, name, value);
        assert forall|later: int| at < later < fields.len() implies (#[trigger] fields[later]).0
            != name by {
            if later < rest.len() {
                assert(rest[later].0 != name);
            }
        }
        at
    }
}

/// No more members are kept than there are.
proof fn kept_are_no_more(texts: Named<Seq<u8>>)
    ensures
        collected(texts).len() <= texts.len(),
    decreases texts.len(),
{
    if texts.len() > 0 {
        kept_are_no_more(texts.drop_last());
        collected_sorted(texts.drop_last());
        putting_a_member(collected(texts.drop_last()), texts.last().0, texts.last().1);
    }
}

/// An array is read as its values, each in its place.
pub proof fn arrays_are_read_by_value(
    raw: Seq<u8>,
    depth: nat,
    strict: bool,
    items: Seq<Seq<u8>>,
)
    requires
        raw.len() > 0,
        raw[0] == 91,
        array_values(raw) == Ok::<_, Seq<char>>(items),
    ensures
        read(raw, depth, strict) matches Ok(value) ==> (value matches Json::Array(values)
            && values.len() == items.len() && forall|i: int|
            0 <= i < values.len() ==> read(items[i], depth + 1, strict) == Ok::<_, Fault>(
                #[trigger] values[i],
            )),
{
    if read(raw, depth, strict) is Ok {
        items_are_read(items, depth + 1, strict);
    }
}

/// Values are read one by one.
proof fn items_are_read(items: Seq<Seq<u8>>, depth: nat, strict: bool)
    requires
        depth <= (if strict {
            64int
        } else {
            127
        }),
    ensures
        read_items(items, depth, strict) matches Ok(values) ==> values.len() == items.len()
            && forall|i: int|
            0 <= i < values.len() ==> read(items[i], depth, strict) == Ok::<_, Fault>(
                #[trigger] values[i],
            ),
    decreases items.len(),
{
    if items.len() > 0 {
        let rest = items.drop_last();
        items_are_read(rest, depth, strict);
        if read_items(items, depth, strict) is Ok {
            let done = read_items(rest, depth, strict)->Ok_0;
            let values = read_items(items, depth, strict)->Ok_0;
            assert forall|i: int| 0 <= i < values.len() implies read(items[i], depth, strict)
                == Ok::<_, Fault>(#[trigger] values[i]) by {
                if i < rest.len() {
                    assert(values[i] == done[i]);
                    assert(rest[i] == items[i]);
                }
            }
        }
    }
}

/// Nothing is read from below the sixty-fourth level of what a query gives, nor from below the
/// hundred and twenty-seventh of a response; no container stands on that level.
pub proof fn deep_texts_are_refused(raw: Seq<u8>, depth: nat)
    ensures
        depth > 64 ==> read(raw, depth, true) is Err,
        depth == 64 && raw.len() > 0 && (raw[0] == 123 || raw[0] == 91) ==> read(raw, depth, true)
            is Err,
        depth > 127 ==> read(raw, depth, false) is Err,
        depth == 127 && raw.len() > 0 && (raw[0] == 123 || raw[0] == 91) ==> read(
            raw,
            depth,
            false,
        ) is Err,
        depth < 64 && raw.len() > 0 && raw[0] != 123 && raw[0] != 91 ==> (scalar(raw) matches Ok(
            value,
        ) ==> read(raw, depth, true) == Ok::<_, Fault>(value)),
        scalar(raw) is Err && (raw.len() == 0 || raw[0] != 123 && raw[0] != 91) ==> read(
            raw,
            depth,
            true,
        ) is Err,
{
}

/// Text of a query is read where it is JSON of at most a mebibyte, and accepted where it can be
/// written again.
pub proof fn query_text_is_read_within_limits(text: Seq<char>, depth: nat)
    ensures
        encode_utf8(text).len() > 1048576 ==> text_value(text, depth) is Err,
        !well_formed(text) ==> text_value(text, depth) is Err,
        encode_utf8(text).len() <= 1048576 && well_formed(text) ==> text_value(text, depth) == read(
            stripped(encode_utf8(text)),
            depth,
            true,
        ),
        parsed(text) matches Ok(value) ==> fits(value) && text_value(text, 0) == Ok::<_, Fault>(
            value,
        ),
        text_value(text, 0) matches Ok(value) ==> (parsed(text) is Ok <==> fits(value)),
{
    if let Ok(value) = text_value(text, 0) {
        fitting_values_are_written(value);
    }
}

/// Text stands for a structure exactly where it is JSON that starts with a bracket behind its
/// white space; else it stands for itself.
pub proof fn brackets_make_structures(text: Seq<char>)
    ensures
        ({
            let raw = stripped(encode_utf8(text));
            let bracketed = raw.len() > 0 && (raw[0] == 123 || raw[0] == 91);
            &&& structured(text) matches Ok(Some(value)) ==> bracketed && parsed(text) == Ok::<
                _,
                Fault,
            >(value)
            &&& encode_utf8(text).len() <= 1048576 && !(bracketed && well_formed(text))
                ==> structured(text) == Ok::<Option<Json>, Fault>(None)
            &&& encode_utf8(text).len() <= 1048576 && bracketed && well_formed(text) ==> (
            structured(text) is Err <==> parsed(text) is Err) && structured(text) != Ok::<
                Option<Json>,
                Fault,
            >(None)
            &&& encode_utf8(text).len() > 1048576 ==> structured(text) is Err
        }),
{
}

/// A response is read where it is JSON, whatever its size; where a name comes twice in it, the
/// last counts.
pub proof fn responses_are_read_leniently(text: Seq<char>)
    ensures
        !well_formed(text) ==> received(text) is None,
        received(text) matches Some(value) ==> read(stripped(encode_utf8(text)), 0, false) == Ok::<
            _,
            Fault,
        >(value),
        well_formed(text) && read(stripped(encode_utf8(text)), 0, false) is Ok ==> received(text)
            is Some,
{
}

/// Whether a byte is white in JSON: a space, a tab, a line end.
pub open spec fn white_byte(byte: u8) -> bool {
    byte == 0x20 || byte == 0x09 || byte == 0x0a || byte == 0x0d
}

/// White bytes round a value do not count, and nothing else is left out.
pub proof fn white_ends_do_not_count(before: Seq<u8>, body: Seq<u8>, after: Seq<u8>)
    requires
        forall|i: int| 0 <= i < before.len() ==> white_byte(#[trigger] before[i]),
        forall|i: int| 0 <= i < after.len() ==> white_byte(#[trigger] after[i]),
        body.len() > 0,
        !white_byte(body[0]),
        !white_byte(body.last()),
    ensures
        stripped(before + body + after) == body,
{
    let all = before + body + after;
    starts_are_skipped(before, body + after, 0);
    assert(before + (body + after) =~= all);
    assert(all.skip(before.len() as int) =~= body + after);
    tails_are_dropped(body, after);
}

/// White bytes at the start are skipped.
proof fn starts_are_skipped(before: Seq<u8>, rest: Seq<u8>, from: int)
    requires
        0 <= from <= before.len(),
        forall|i: int| 0 <= i < before.len() ==> white_byte(#[trigger] before[i]),
        rest.len() > 0,
        !white_byte(rest[0]),
    ensures
        skipped(before + rest, from) == before.len(),
    decreases before.len() - from,
{
    let all = before + rest;
    if from < before.len() {
        assert(all[from] == before[from]);
        starts_are_skipped(before, rest, from + 1);
    } else {
        assert(all[from] == rest[0]);
    }
}

/// White bytes at the end are dropped.
proof fn tails_are_dropped(body: Seq<u8>, after: Seq<u8>)
    requires
        forall|i: int| 0 <= i < after.len() ==> white_byte(#[trigger] after[i]),
        body.len() > 0,
        !white_byte(body.last()),
    ensures
        stripped_end(body + after) == body,
    decreases after.len(),
{
    let all = body + after;
    if after.len() > 0 {
        assert(all.last() == after[after.len() - 1]);
        assert(all.drop_last() =~= body + after.drop_last());
        assert forall|i: int| 0 <= i < after.drop_last().len() implies white_byte(
            #[trigger] after.drop_last()[i],
        ) by {
            assert(white_byte(after[i]));
        }
        tails_are_dropped(body, after.drop_last());
    } else {
        assert(all =~= body);
    }
}

/// An object whose members all have texts for names and values that can be read is read; in
/// what a query gives, the names must be different.
pub proof fn readable_objects_are_read(
    raw: Seq<u8>,
    depth: nat,
    strict: bool,
    all: Seq<RawMember>,
)
    requires
        raw.len() > 0,
        raw[0] == 123,
        members(raw) == Some(all),
        depth < (if strict {
            64int
        } else {
            127
        }),
        forall|i: int|
            0 <= i < all.len() ==> string_text((#[trigger] all[i]).name) is Some && read(
                all[i].value,
                depth + 1,
                strict,
            ) is Ok,
        strict ==> forall|i: int, j: int|
            0 <= i < j < all.len() ==> string_text((#[trigger] all[i]).name) != string_text(
                (#[trigger] all[j]).name,
            ),
    ensures
        read(raw, depth, strict) is Ok,
{
    let count = all.len() as int;
    members_are_keyed(raw, all, count, strict);
    let texts = raw_members(all, count);
    let kept = keyed(raw, all, count, strict)->Ok_0;
    assert forall|i: int| 0 <= i < kept.len() implies read(
        (#[trigger] kept[i]).1,
        depth + 1,
        strict,
    ) is Ok by {
        let j = kept_from(texts, i);
        assert(texts[j].1 == all[j].value);
        assert(read(all[j].value, depth + 1, strict) is Ok);
    }
    fields_are_read(kept, depth + 1, strict);
}

/// What is kept comes from what there is.
proof fn kept_from(texts: Named<Seq<u8>>, i: int) -> (j: int)
    requires
        0 <= i < collected(texts).len(),
    ensures
        0 <= j < texts.len(),
        texts[j].1 == collected(texts)[i].1,
    decreases texts.len(),
{
    if texts.len() == 0 {
        0
    } else {
        let rest = texts.drop_last();
        let (name, value) = texts.last();
        collected_sorted(rest);
        let at = putting_a_member(collected(rest), name, value);
        let all = collected(texts);
        let before = collected(rest);
        if i == at {
            texts.len() - 1
        } else if i < at {
            assert(all.take(at)[i] == before.take(at)[i]);
            let j = kept_from(rest, i);
            assert(texts[j] == rest[j]);
            j
        } else {
            let known = exists|k: int| 0 <= k < before.len() && (#[trigger] before[k]).0 == name;
            let from = if known {
                at + 1
            } else {
                at
            };
            assert(all.skip(at + 1)[i - at - 1] == before.skip(from)[i - at - 1]);
            let j = kept_from(rest, from + i - at - 1);
            assert(texts[j] == rest[j]);
            j
        }
    }
}

/// An array whose values can all be read is read.
pub proof fn readable_arrays_are_read(
    raw: Seq<u8>,
    depth: nat,
    strict: bool,
    items: Seq<Seq<u8>>,
)
    requires
        raw.len() > 0,
        raw[0] == 91,
        array_values(raw) == Ok::<_, Seq<char>>(items),
        depth < (if strict {
            64int
        } else {
            127
        }),
        forall|i: int| 0 <= i < items.len() ==> read(#[trigger] items[i], depth + 1, strict) is Ok,
    ensures
        read(raw, depth, strict) is Ok,
{
    readable_items_are_read(items, depth + 1, strict);
}

/// Values that can be read one by one can be read together.
proof fn readable_items_are_read(items: Seq<Seq<u8>>, depth: nat, strict: bool)
    requires
        depth <= (if strict {
            64int
        } else {
            127
        }),
        forall|i: int| 0 <= i < items.len() ==> read(#[trigger] items[i], depth, strict) is Ok,
    ensures
        read_items(items, depth, strict) is Ok,
    decreases items.len(),
{
    if items.len() > 0 {
        let rest = items.drop_last();
        assert forall|i: int| 0 <= i < rest.len() implies read(
            #[trigger] rest[i],
            depth,
            strict,
        ) is Ok by {
            assert(rest[i] == items[i]);
        }
        readable_items_are_read(rest, depth, strict);
        assert(read(items[items.len() - 1], depth, strict) is Ok);
    }
}

} // verus!
