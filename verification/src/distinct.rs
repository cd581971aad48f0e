//! Values with the same byte form mean the same.
use vstd::prelude::*;
use vstd::utf8::{encode_utf8, encode_utf8_decode_utf8};

use crate::canonical::{
    arranged, arranged_fields, arranged_fields_each, arranged_items_each, bytes, canonical, escaped,
    escaped_all, field_bytes, fits, hex, item_bytes, member_bytes, quoted, spellable, CLOSE_ARRAY,
    CLOSE_OBJECT, COLON, COMMA, OPEN_ARRAY, OPEN_OBJECT,
};
use crate::contract::{questions_json, request_json, Request};
use crate::equivalence::{
    collected_keeps_members, found_among, found_in, same_json, unique_names,
};
use crate::json::{collected, collected_sorted, with_field, Json, Members};
use crate::number::{
    digits_end_bounds, is_number, one_spelling_per_value, parts, spelling, spelling_keeps_value,
};
use crate::text::{digit, less, less_irreflexive};

verus! {

/// The characters of a value, its members taken as they stand.
pub open spec fn chars(value: Json) -> Seq<char>
    decreases value,
{
    match value {
        Json::Null => "null"@,
        Json::Bool(true) => "true"@,
        Json::Bool(false) => "false"@,
        Json::Number(text) => spelling(text),
        Json::Text(text) => quoted(text),
        Json::Array(items) => seq!['['] + item_chars(items) + seq![']'],
        Json::Object(fields) => seq!['{'] + field_chars(fields) + seq!['}'],
    }
}

/// The characters of values with commas between them.
pub open spec fn item_chars(items: Seq<Json>) -> Seq<char>
    decreases items,
{
    if items.len() == 0 {
        Seq::empty()
    } else if items.len() == 1 {
        chars(items.last())
    } else {
        item_chars(items.drop_last()) + seq![','] + chars(items.last())
    }
}

/// The characters of one member.
pub open spec fn member_chars(name: Seq<char>, value: Seq<char>) -> Seq<char> {
    quoted(name) + seq![':'] + value
}

/// The characters of members with commas between them.
pub open spec fn field_chars(fields: Members) -> Seq<char>
    decreases fields,
{
    if fields.len() == 0 {
        Seq::empty()
    } else if fields.len() == 1 {
        member_chars(fields.last().0, chars(fields.last().1))
    } else {
        field_chars(fields.drop_last()) + seq![','] + member_chars(
            fields.last().0,
            chars(fields.last().1),
        )
    }
}

/// The bytes of two texts behind one another.
proof fn encode_joined(first: Seq<char>, second: Seq<char>)
    ensures
        encode_utf8(first + second) == encode_utf8(first) + encode_utf8(second),
    decreases first.len(),
{
    if first.len() == 0 {
        assert(first + second =~= second);
        assert(encode_utf8(first) + encode_utf8(second) =~= encode_utf8(second));
    } else {
        encode_joined(first.drop_first(), second);
        assert((first + second).drop_first() =~= first.drop_first() + second);
        assert(encode_utf8(first + second) =~= encode_utf8(first) + encode_utf8(second));
    }
}

/// The byte of a character of ASCII.
proof fn encode_one(letter: char, byte: u8)
    requires
        letter as u32 == byte,
        byte < 128,
    ensures
        encode_utf8(seq![letter]) == seq![byte],
{
    let code = letter as u32;
    assert((code & 0x7f) as u8 == byte) by (bit_vector)
        requires
            code == byte as u32,
            byte < 128u8,
    ;
    assert(seq![letter].drop_first() =~= Seq::<char>::empty());
    assert(encode_utf8(seq![letter].drop_first()) =~= Seq::<u8>::empty());
    assert(encode_utf8(seq![letter]) =~= seq![byte]);
}

/// The bytes of two texts with a character of ASCII between them.
proof fn encode_between(first: Seq<char>, letter: char, byte: u8, second: Seq<char>)
    requires
        letter as u32 == byte,
        byte < 128,
    ensures
        encode_utf8(first + seq![letter] + second) == encode_utf8(first) + seq![byte] + encode_utf8(
            second,
        ),
{
    encode_joined(first + seq![letter], second);
    encode_joined(first, seq![letter]);
    encode_one(letter, byte);
}

/// The bytes of a value are those of its characters.
pub proof fn bytes_of_chars(value: Json)
    ensures
        bytes(value) == encode_utf8(chars(value)),
    decreases value,
{
    match value {
        Json::Array(items) => {
            bytes_of_items(items);
            encode_joined(seq!['['] + item_chars(items), seq![']']);
            encode_joined(seq!['['], item_chars(items));
            encode_one('[', OPEN_ARRAY);
            encode_one(']', CLOSE_ARRAY);
        },
        Json::Object(fields) => {
            bytes_of_fields(fields);
            encode_joined(seq!['{'] + field_chars(fields), seq!['}']);
            encode_joined(seq!['{'], field_chars(fields));
            encode_one('{', OPEN_OBJECT);
            encode_one('}', CLOSE_OBJECT);
        },
        _ => {},
    }
}

/// The same for values with commas between them.
proof fn bytes_of_items(items: Seq<Json>)
    ensures
        item_bytes(items) == encode_utf8(item_chars(items)),
    decreases items,
{
    if items.len() == 1 {
        bytes_of_chars(items.last());
    } else if items.len() > 1 {
        bytes_of_chars(items.last());
        bytes_of_items(items.drop_last());
        encode_between(item_chars(items.drop_last()), ',', COMMA, chars(items.last()));
    }
}

/// The same for members with commas between them.
proof fn bytes_of_fields(fields: Members)
    ensures
        field_bytes(fields) == encode_utf8(field_chars(fields)),
    decreases fields,
{
    if fields.len() > 0 {
        let (name, value) = fields.last();
        bytes_of_chars(value);
        encode_between(quoted(name), ':', COLON, chars(value));
        assert(member_bytes(name, bytes(value)) == encode_utf8(member_chars(name, chars(value))));
        if fields.len() > 1 {
            bytes_of_fields(fields.drop_last());
            encode_between(
                field_chars(fields.drop_last()),
                ',',
                COMMA,
                member_chars(name, chars(value)),
            );
        }
    }
}

/// Whether a letter occurs in numbers.
spec fn number_letter(letter: char) -> bool {
    digit(letter) || letter == '-' || letter == '+' || letter == '.' || letter == 'e' || letter
        == 'E'
}

/// Whether what follows a value is nothing, or a comma or the end of a container.
spec fn ends(rest: Seq<char>) -> bool {
    rest.len() == 0 || rest[0] == ',' || rest[0] == ']' || rest[0] == '}'
}

/// A number has only letters of numbers, and starts with a digit or a minus sign.
proof fn number_letters(text: Seq<char>)
    requires
        is_number(text),
    ensures
        text.len() > 0,
        digit(text[0]) || text[0] == '-',
        forall|i: int| 0 <= i < text.len() ==> number_letter(#[trigger] text[i]),
{
    let places = parts(text);
    digits_end_bounds(text, places.sign);
    if places.whole < text.len() && text[places.whole] == '.' {
        digits_end_bounds(text, places.whole + 1);
    }
    if places.fraction < text.len() {
        let from = places.fraction;
        let digits = if from + 1 < text.len() && (text[from + 1] == '+' || text[from + 1] == '-') {
            from + 2
        } else {
            from + 1
        };
        digits_end_bounds(text, digits);
    }
}

/// Two numbers that are followed by the same, up to where numbers end, are the same.
proof fn numbers_end(
    first: Seq<char>,
    rest: Seq<char>,
    second: Seq<char>,
    more: Seq<char>,
)
    requires
        forall|i: int| 0 <= i < first.len() ==> number_letter(#[trigger] first[i]),
        forall|i: int| 0 <= i < second.len() ==> number_letter(#[trigger] second[i]),
        ends(rest),
        ends(more),
        first + rest == second + more,
    ensures
        first == second,
        rest == more,
{
    let whole = first + rest;
    assert(whole =~= second + more);
    if first.len() < second.len() {
        assert(whole[first.len() as int] == rest[0]);
        assert(whole[first.len() as int] == second[first.len() as int]);
    } else if second.len() < first.len() {
        assert(whole[second.len() as int] == more[0]);
        assert(whole[second.len() as int] == first[second.len() as int]);
    }
    assert(first =~= whole.take(first.len() as int));
    assert(second =~= whole.take(first.len() as int));
    assert(rest =~= whole.skip(first.len() as int));
    assert(more =~= whole.skip(first.len() as int));
}

/// The characters of a text as they stand inside a JSON string, from the first on.
proof fn escaped_first(text: Seq<char>)
    requires
        text.len() > 0,
    ensures
        escaped_all(text) == escaped(text[0]) + escaped_all(text.drop_first()),
    decreases text.len(),
{
    if text.len() == 1 {
        assert(text.drop_last() =~= Seq::<char>::empty());
        assert(text.drop_first() =~= Seq::<char>::empty());
        assert(escaped_all(text) =~= escaped(text[0]) + escaped_all(text.drop_first()));
    } else {
        escaped_first(text.drop_last());
        assert(text.drop_last().drop_first() =~= text.drop_first().drop_last());
        assert(text.drop_first().last() == text.last());
        assert(escaped_all(text) =~= escaped(text[0]) + escaped_all(text.drop_first()));
    }
}

/// What follows the escape of a character tells which character it is.
proof fn escapes_differ(first: char, rest: Seq<char>, second: char, more: Seq<char>)
    requires
        escaped(first) + rest == escaped(second) + more,
    ensures
        first == second,
        rest == more,
{
    let whole = escaped(first) + rest;
    assert(whole =~= escaped(second) + more);
    let a = escaped(first);
    let b = escaped(second);
    assert(whole[0] == a[0] && whole[0] == b[0]);
    if a[0] == '\\' {
        assert(whole[1] == a[1] && whole[1] == b[1]);
        if a[1] == 'u' {
            assert(whole[4] == a[4] && whole[4] == b[4]);
            assert(whole[5] == a[5] && whole[5] == b[5]);
            hex_differ(first as int / 16, second as int / 16);
            hex_differ(first as int % 16, second as int % 16);
        }
    }
    assert(rest =~= whole.skip(a.len() as int));
    assert(more =~= whole.skip(a.len() as int));
}

/// Hexadecimal digits differ.
proof fn hex_differ(first: int, second: int)
    requires
        0 <= first < 16,
        0 <= second < 16,
        hex(first) == hex(second),
    ensures
        first == second,
{
}

/// What follows a quoted text tells which text it is.
proof fn quotes_end(first: Seq<char>, rest: Seq<char>, second: Seq<char>, more: Seq<char>)
    requires
        escaped_all(first) + seq!['"'] + rest == escaped_all(second) + seq!['"'] + more,
    ensures
        first == second,
        rest == more,
    decreases first.len(),
{
    let whole = escaped_all(first) + seq!['"'] + rest;
    let other = escaped_all(second) + seq!['"'] + more;
    assert(whole =~= other);
    if first.len() == 0 {
        assert(whole[0] == '"');
        if second.len() > 0 {
            escaped_first(second);
            assert(other[0] == escaped(second[0])[0]);
        }
        assert(first =~= second);
        assert(rest =~= whole.skip(1));
        assert(more =~= whole.skip(1));
    } else if second.len() == 0 {
        escaped_first(first);
        assert(other[0] == '"');
        assert(whole[0] == escaped(first[0])[0]);
    } else {
        escaped_first(first);
        escaped_first(second);
        let a = escaped_all(first.drop_first()) + seq!['"'] + rest;
        let b = escaped_all(second.drop_first()) + seq!['"'] + more;
        assert(whole =~= escaped(first[0]) + a);
        assert(other =~= escaped(second[0]) + b);
        escapes_differ(first[0], a, second[0], b);
        quotes_end(first.drop_first(), rest, second.drop_first(), more);
        assert(first =~= seq![first[0]] + first.drop_first());
        assert(second =~= seq![second[0]] + second.drop_first());
    }
}

/// The same with the first quote.
proof fn quoted_end(first: Seq<char>, rest: Seq<char>, second: Seq<char>, more: Seq<char>)
    requires
        quoted(first) + rest == quoted(second) + more,
    ensures
        first == second,
        rest == more,
{
    let whole = quoted(first) + rest;
    assert(whole =~= quoted(second) + more);
    let a = escaped_all(first) + seq!['"'] + rest;
    let b = escaped_all(second) + seq!['"'] + more;
    assert(a =~= whole.skip(1));
    assert(b =~= whole.skip(1));
    quotes_end(first, rest, second, more);
}

/// The first character of a value tells its kind.
proof fn opening(value: Json)
    requires
        spellable(value),
    ensures
        chars(value).len() > 0,
        match value {
            Json::Null => chars(value)[0] == 'n',
            Json::Bool(true) => chars(value)[0] == 't',
            Json::Bool(false) => chars(value)[0] == 'f',
            Json::Number(_) => digit(chars(value)[0]) || chars(value)[0] == '-',
            Json::Text(_) => chars(value)[0] == '"',
            Json::Array(_) => chars(value)[0] == '[',
            Json::Object(_) => chars(value)[0] == '{',
        },
{
    reveal_strlit("null");
    reveal_strlit("true");
    reveal_strlit("false");
    if let Json::Number(text) = value {
        spelling_keeps_value(text);
        number_letters(spelling(text));
    }
}

/// A value ends with the last letter of a literal, of a number, or of what encloses it.
proof fn closing(value: Json)
    requires
        spellable(value),
    ensures
        chars(value).len() > 0,
        ({
            let last = chars(value).last();
            last == 'l' || last == '"' || last == ']' || last == '}' || number_letter(last)
        }),
{
    match value {
        Json::Null => {
            reveal_strlit("null");
        },
        Json::Bool(true) => {
            reveal_strlit("true");
        },
        Json::Bool(false) => {
            reveal_strlit("false");
        },
        Json::Number(text) => {
            spelling_keeps_value(text);
            number_letters(spelling(text));
            assert(number_letter(spelling(text).last()));
        },
        _ => {},
    }
}

/// The bytes of a value begin with one that tells its kind, and neither begin nor end with
/// white space.
#[verifier::spinoff_prover]
#[verifier::rlimit(30)]
pub proof fn byte_ends(value: Json)
    requires
        spellable(value),
    ensures
        bytes(value).len() > 0,
        (bytes(value)[0] == OPEN_OBJECT) == (value is Object),
        (bytes(value)[0] == OPEN_ARRAY) == (value is Array),
        bytes(value)[0] > 32,
        bytes(value).last() > 32,
{
    opening(value);
    closing(value);
    bytes_of_chars(value);
    let all = chars(value);
    let first = all[0];
    let last = all.last();
    assert(32 < first as u32 && (first as u32) < 128 && 32 < last as u32 && (last as u32) < 128);
    encode_one(first, first as u8);
    encode_one(last, last as u8);
    encode_joined(seq![first], all.skip(1));
    encode_joined(all.drop_last(), seq![last]);
    assert(seq![first] + all.skip(1) =~= all);
    assert(all.drop_last() + seq![last] =~= all);
}

/// A text begins with a quote.
pub proof fn quote_first(text: Seq<char>)
    ensures
        bytes(Json::Text(text)).len() > 0,
        bytes(Json::Text(text))[0] == 34,
{
    let all = quoted(text);
    encode_one('"', 34);
    encode_joined(seq!['"'], all.skip(1));
    assert(seq!['"'] + all.skip(1) =~= all);
}

/// The byte form of a value is that of a text.
pub proof fn the_byte_form_is_text(value: Json) -> (text: Seq<char>)
    ensures
        encode_utf8(text) == canonical(value),
{
    bytes_of_chars(arranged(value));
    chars(arranged(value))
}

/// Values with commas between them, from the first on.
proof fn items_first(items: Seq<Json>)
    requires
        items.len() > 0,
    ensures
        items.len() == 1 ==> item_chars(items) == chars(items[0]),
        items.len() > 1 ==> item_chars(items) == chars(items[0]) + seq![','] + item_chars(
            items.drop_first(),
        ),
    decreases items.len(),
{
    if items.len() > 1 {
        items_first(items.drop_last());
        let rest = items.drop_first();
        assert(rest.last() == items.last());
        if items.len() == 2 {
            assert(item_chars(items.drop_last()) == chars(items[0]));
        } else {
            assert(items.drop_last().drop_first() =~= rest.drop_last());
        }
        assert(item_chars(items) =~= chars(items[0]) + seq![','] + item_chars(rest));
    }
}

/// Members with commas between them, from the first on.
proof fn fields_first(fields: Members)
    requires
        fields.len() > 0,
    ensures
        fields.len() == 1 ==> field_chars(fields) == member_chars(
            fields[0].0,
            chars(fields[0].1),
        ),
        fields.len() > 1 ==> field_chars(fields) == member_chars(fields[0].0, chars(fields[0].1))
            + seq![','] + field_chars(fields.drop_first()),
    decreases fields.len(),
{
    if fields.len() > 1 {
        fields_first(fields.drop_last());
        let rest = fields.drop_first();
        assert(rest.last() == fields.last());
        if fields.len() > 2 {
            assert(fields.drop_last().drop_first() =~= rest.drop_last());
        }
        assert(field_chars(fields) =~= member_chars(fields[0].0, chars(fields[0].1)) + seq![',']
            + field_chars(rest));
    }
}

/// Whether no object inside a value has two members of one name.
pub open spec fn distinct_names(value: Json) -> bool
    decreases value,
{
    match value {
        Json::Array(items) => forall|i: int|
            0 <= i < items.len() ==> distinct_names(#[trigger] items[i]),
        Json::Object(fields) => unique_names(fields) && forall|i: int|
            0 <= i < fields.len() ==> distinct_names((#[trigger] fields[i]).1),
        _ => true,
    }
}

/// What follows a value tells which value it is.
proof fn values_end(first: Json, rest: Seq<char>, second: Json, more: Seq<char>)
    requires
        spellable(first),
        spellable(second),
        distinct_names(first),
        distinct_names(second),
        ends(rest),
        ends(more),
        chars(first) + rest == chars(second) + more,
    ensures
        same_json(first, second),
        rest == more,
    decreases first,
{
    let whole = chars(first) + rest;
    assert(whole =~= chars(second) + more);
    opening(first);
    opening(second);
    assert(whole[0] == chars(first)[0] && whole[0] == chars(second)[0]);
    match (first, second) {
        (Json::Number(a), Json::Number(b)) => {
            spelling_keeps_value(a);
            spelling_keeps_value(b);
            number_letters(spelling(a));
            number_letters(spelling(b));
            numbers_end(spelling(a), rest, spelling(b), more);
            one_spelling_per_value(a, b);
        },
        (Json::Text(a), Json::Text(b)) => {
            quoted_end(a, rest, b, more);
        },
        (Json::Array(a), Json::Array(b)) => {
            let inner = item_chars(a) + seq![']'] + rest;
            let other = item_chars(b) + seq![']'] + more;
            assert(inner =~= whole.skip(1));
            assert(other =~= whole.skip(1));
            items_end(a, rest, b, more);
        },
        (Json::Object(a), Json::Object(b)) => {
            let inner = field_chars(a) + seq!['}'] + rest;
            let other = field_chars(b) + seq!['}'] + more;
            assert(inner =~= whole.skip(1));
            assert(other =~= whole.skip(1));
            fields_end(a, rest, b, more);
            assert forall|i: int| 0 <= i < a.len() implies found_in(
                (#[trigger] a[i]).0,
                a[i].1,
                b,
            ) by {
                assert(b[i].0 == a[i].0 && same_json(a[i].1, b[i].1));
            }
            assert forall|j: int| 0 <= j < b.len() implies found_among(
                a,
                (#[trigger] b[j]).0,
                b[j].1,
            ) by {
                assert(a[j].0 == b[j].0 && same_json(a[j].1, b[j].1));
            }
        },
        _ => {
            assert(first == second);
            assert(rest =~= whole.skip(chars(first).len() as int));
            assert(more =~= whole.skip(chars(first).len() as int));
        },
    }
}

/// What follows the first value, up to what follows the array.
spec fn after_item(items: Seq<Json>, rest: Seq<char>) -> Seq<char> {
    if items.len() == 1 {
        seq![']'] + rest
    } else {
        seq![','] + (item_chars(items.drop_first()) + seq![']'] + rest)
    }
}

/// An array without its first bracket starts with its first value.
proof fn item_first(items: Seq<Json>, rest: Seq<char>)
    requires
        items.len() > 0,
    ensures
        item_chars(items) + seq![']'] + rest == chars(items[0]) + after_item(items, rest),
{
    items_first(items);
    let whole = item_chars(items) + seq![']'] + rest;
    if items.len() == 1 {
        assert(whole =~= chars(items[0]) + (seq![']'] + rest));
    } else {
        let tail = item_chars(items.drop_first());
        assert(whole =~= chars(items[0]) + (seq![','] + (tail + seq![']'] + rest)));
    }
}

/// What follows the end of values in an array tells which values they are.
proof fn items_end(first: Seq<Json>, rest: Seq<char>, second: Seq<Json>, more: Seq<char>)
    requires
        forall|i: int| 0 <= i < first.len() ==> spellable(#[trigger] first[i]),
        forall|i: int| 0 <= i < second.len() ==> spellable(#[trigger] second[i]),
        forall|i: int| 0 <= i < first.len() ==> distinct_names(#[trigger] first[i]),
        forall|i: int| 0 <= i < second.len() ==> distinct_names(#[trigger] second[i]),
        item_chars(first) + seq![']'] + rest == item_chars(second) + seq![']'] + more,
    ensures
        first.len() == second.len(),
        forall|i: int| 0 <= i < first.len() ==> same_json(#[trigger] first[i], second[i]),
        rest == more,
    decreases first,
{
    let whole = item_chars(first) + seq![']'] + rest;
    let other = item_chars(second) + seq![']'] + more;
    if first.len() == 0 {
        assert(whole[0] == ']');
        if second.len() > 0 {
            item_first(second, more);
            opening(second[0]);
            assert(other[0] == chars(second[0])[0]);
        }
        assert(rest =~= whole.skip(1));
        assert(more =~= other.skip(1));
    } else if second.len() == 0 {
        item_first(first, rest);
        opening(first[0]);
        assert(other[0] == ']');
        assert(whole[0] == chars(first[0])[0]);
    } else {
        item_first(first, rest);
        item_first(second, more);
        let a = after_item(first, rest);
        let b = after_item(second, more);
        values_end(first[0], a, second[0], b);
        assert(a[0] == b[0]);
        if first.len() == 1 {
            cut(']', rest, more);
        } else {
            let tail = first.drop_first();
            let other_tail = second.drop_first();
            cut(
                ',',
                item_chars(tail) + seq![']'] + rest,
                item_chars(other_tail) + seq![']'] + more,
            );
            items_end(tail, rest, other_tail, more);
            assert forall|i: int| 0 <= i < first.len() implies same_json(
                #[trigger] first[i],
                second[i],
            ) by {
                if i > 0 {
                    assert(same_json(tail[i - 1], other_tail[i - 1]));
                }
            }
        }
    }
}

/// What follows the first member, up to what follows the object.
spec fn after_field(fields: Members, rest: Seq<char>) -> Seq<char> {
    if fields.len() == 1 {
        seq!['}'] + rest
    } else {
        seq![','] + (field_chars(fields.drop_first()) + seq!['}'] + rest)
    }
}

/// An object without its first brace starts with its first member.
proof fn field_first(fields: Members, rest: Seq<char>)
    requires
        fields.len() > 0,
    ensures
        field_chars(fields) + seq!['}'] + rest == quoted(fields[0].0) + (seq![':'] + (chars(
            fields[0].1,
        ) + after_field(fields, rest))),
{
    fields_first(fields);
    let value = chars(fields[0].1);
    let whole = field_chars(fields) + seq!['}'] + rest;
    if fields.len() == 1 {
        assert(whole =~= quoted(fields[0].0) + (seq![':'] + (value + (seq!['}'] + rest))));
    } else {
        let tail = field_chars(fields.drop_first());
        assert(whole =~= quoted(fields[0].0) + (seq![':'] + (value + (seq![','] + (tail + seq!['}']
            + rest)))));
    }
}

/// What follows the end of members in an object tells which members they are.
proof fn fields_end(first: Members, rest: Seq<char>, second: Members, more: Seq<char>)
    requires
        forall|i: int| 0 <= i < first.len() ==> spellable((#[trigger] first[i]).1),
        forall|i: int| 0 <= i < second.len() ==> spellable((#[trigger] second[i]).1),
        forall|i: int| 0 <= i < first.len() ==> distinct_names((#[trigger] first[i]).1),
        forall|i: int| 0 <= i < second.len() ==> distinct_names((#[trigger] second[i]).1),
        field_chars(first) + seq!['}'] + rest == field_chars(second) + seq!['}'] + more,
    ensures
        first.len() == second.len(),
        forall|i: int|
            0 <= i < first.len() ==> (#[trigger] first[i]).0 == second[i].0 && same_json(
                first[i].1,
                second[i].1,
            ),
        rest == more,
    decreases first,
{
    let whole = field_chars(first) + seq!['}'] + rest;
    let other = field_chars(second) + seq!['}'] + more;
    if first.len() == 0 {
        assert(whole[0] == '}');
        if second.len() > 0 {
            field_first(second, more);
            assert(other[0] == '"');
        }
        assert(rest =~= whole.skip(1));
        assert(more =~= other.skip(1));
    } else if second.len() == 0 {
        field_first(first, rest);
        assert(other[0] == '}');
        assert(whole[0] == '"');
    } else {
        field_first(first, rest);
        field_first(second, more);
        let a = after_field(first, rest);
        let b = after_field(second, more);
        let left = chars(first[0].1) + a;
        let right = chars(second[0].1) + b;
        quoted_end(first[0].0, seq![':'] + left, second[0].0, seq![':'] + right);
        cut(':', left, right);
        values_end(first[0].1, a, second[0].1, b);
        assert(a[0] == b[0]);
        if first.len() == 1 {
            cut('}', rest, more);
        } else {
            let tail = first.drop_first();
            let other_tail = second.drop_first();
            cut(
                ',',
                field_chars(tail) + seq!['}'] + rest,
                field_chars(other_tail) + seq!['}'] + more,
            );
            fields_end(tail, rest, other_tail, more);
            assert forall|i: int| 0 <= i < first.len() implies (#[trigger] first[i]).0
                == second[i].0 && same_json(first[i].1, second[i].1) by {
                if i > 0 {
                    assert(tail[i - 1].0 == other_tail[i - 1].0);
                    assert(first[i] == tail[i - 1] && second[i] == other_tail[i - 1]);
                }
            }
        }
    }
}

/// What follows one character is the same where both are.
proof fn cut(letter: char, rest: Seq<char>, more: Seq<char>)
    requires
        seq![letter] + rest == seq![letter] + more,
    ensures
        rest == more,
{
    let whole = seq![letter] + rest;
    assert(rest =~= whole.skip(1));
    assert(more =~= whole.skip(1));
}

/// Each of the members that are kept is one of the members.
pub proof fn collected_from(fields: Members, i: int) -> (j: int)
    requires
        0 <= i < collected(fields).len(),
    ensures
        0 <= j < fields.len(),
        collected(fields)[i] == fields[j],
    decreases fields.len(),
{
    let shorter = fields.drop_last();
    let last = fields.last();
    let k = with_field_from(collected(shorter), last.0, last.1, i);
    if k < 0 {
        fields.len() - 1
    } else {
        collected_from(shorter, k)
    }
}

/// A member behind a new one is the new one or one of those before, by its place.
proof fn with_field_from(fields: Members, name: Seq<char>, value: Json, i: int) -> (j: int)
    requires
        0 <= i < with_field(fields, name, value).len(),
    ensures
        j < fields.len(),
        j < 0 ==> with_field(fields, name, value)[i] == (name, value),
        j >= 0 ==> with_field(fields, name, value)[i] == fields[j],
    decreases fields.len(),
{
    if fields.len() == 0 {
        -1
    } else if less(name, fields[0].0) {
        i - 1
    } else if name == fields[0].0 {
        if i == 0 {
            -1
        } else {
            i
        }
    } else if i == 0 {
        0
    } else {
        let k = with_field_from(fields.drop_first(), name, value, i - 1);
        if k < 0 {
            -1
        } else {
            k + 1
        }
    }
}

/// A value with the members of every object in order has no two members of one name
/// in an object.
proof fn arranged_distinct(value: Json)
    ensures
        distinct_names(arranged(value)),
    decreases value,
{
    match value {
        Json::Array(items) => {
            arranged_items_each(items);
            let all = arranged(value)->Array_0;
            assert forall|i: int| 0 <= i < all.len() implies distinct_names(#[trigger] all[i]) by {
                arranged_distinct(items[i]);
            }
        },
        Json::Object(fields) => {
            arranged_fields_each(fields);
            let inner = arranged_fields(fields);
            let all = collected(inner);
            collected_sorted(inner);
            assert forall|i: int, j: int| 0 <= i < j < all.len() implies (#[trigger] all[i]).0 != (
            #[trigger] all[j]).0 by {
                less_irreflexive(all[i].0);
            }
            assert forall|i: int| 0 <= i < all.len() implies distinct_names(
                (#[trigger] all[i]).1,
            ) by {
                let j = collected_from(inner, i);
                arranged_distinct(fields[j].1);
            }
        },
        _ => {},
    }
}

/// Values with the same byte form mean the same, so that only requests that mean the
/// same share a fingerprint for their bytes.
pub proof fn same_bytes_same_json(first: Json, second: Json)
    requires
        spellable(arranged(first)),
        spellable(arranged(second)),
        canonical(first) == canonical(second),
    ensures
        same_json(arranged(first), arranged(second)),
{
    let a = arranged(first);
    let b = arranged(second);
    arranged_distinct(first);
    arranged_distinct(second);
    bytes_of_chars(a);
    bytes_of_chars(b);
    encode_utf8_decode_utf8(chars(a));
    encode_utf8_decode_utf8(chars(b));
    let nothing = Seq::<char>::empty();
    assert(chars(a) + nothing =~= chars(a));
    assert(chars(b) + nothing =~= chars(b));
    values_end(a, nothing, b, nothing);
}

/// Where the members of two objects have the same names of their own in the same
/// places, and the objects mean the same, so do the values in each place.
proof fn same_members(first: Members, second: Members, i: int)
    requires
        unique_names(first),
        unique_names(second),
        first.len() == second.len(),
        forall|k: int| 0 <= k < first.len() ==> (#[trigger] first[k]).0 == second[k].0,
        same_json(Json::Object(collected(first)), Json::Object(collected(second))),
        0 <= i < first.len(),
    ensures
        same_json(first[i].1, second[i].1),
{
    collected_keeps_members(first);
    assert(first.contains(first[i]));
    let all = collected(first);
    assert(all.contains(first[i]));
    let at = choose|at: int| 0 <= at < all.len() && all[at] == first[i];
    assert(found_in(all[at].0, all[at].1, collected(second)));
    let j = choose|j: int|
        0 <= j < collected(second).len() && (#[trigger] collected(second)[j]).0 == first[i].0
            && same_json(first[i].1, collected(second)[j].1);
    let k = collected_from(second, j);
    assert(second[k].0 == second[i].0);
    assert(k == i);
}

/// Requests with the same body ask the same of the same model: their models are the
/// same, and their questions and their states mean the same.
pub proof fn the_body_tells_the_request(first: Request, second: Request)
    requires
        fits(request_json(first)),
        fits(request_json(second)),
        canonical(request_json(first)) == canonical(request_json(second)),
    ensures
        first.model == second.model,
        same_json(
            arranged(Json::Object(questions_json(first.questions))),
            arranged(Json::Object(questions_json(second.questions))),
        ),
        same_json(arranged(first.state), arranged(second.state)),
{
    same_bytes_same_json(request_json(first), request_json(second));
    reveal_strlit("model");
    reveal_strlit("questions");
    reveal_strlit("state");
    let a = request_json(first)->Object_0;
    let b = request_json(second)->Object_0;
    arranged_fields_each(a);
    arranged_fields_each(b);
    assert("model"@.len() == 5 && "questions"@.len() == 9 && "state"@.len() == 5);
    assert("model"@[0] == 'm' && "state"@[0] == 's');
    same_members(arranged_fields(a), arranged_fields(b), 0);
    same_members(arranged_fields(a), arranged_fields(b), 1);
    same_members(arranged_fields(a), arranged_fields(b), 2);
}

} // verus!
