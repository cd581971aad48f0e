//! How values are written, told letter by letter and byte by byte.
use vstd::arithmetic::power::{lemma_pow0, pow};
use vstd::prelude::*;
use vstd::utf8::encode_utf8;

use crate::canonical::{
    arranged, arranged_fields, arranged_fields_each, arranged_items_each, bytes, canonical,
    emit_writes, escaped, field_bytes, fits, hex, item_bytes, member_bytes, nesting, quoted,
    spellable, written,
};
use crate::json::{collected_sorted, lookup, sorted, Json, Members};
use crate::json_laws::ordered_members_are_found;
use crate::number::{
    composed_is_number, decimal_of_digits, denoted, digits_end_bounds, exponent_value, has_spelling,
    is_number, parts, point, reduced, reduced_is_reduced, reduced_keeps_scaled, scaled,
    signed_decimal_reads_back, spelled, spelled_fraction, spelled_whole, spelling,
    trailing_zeros_scale, zeros,
};
use crate::text::{
    all_digits, blank, decimal, decimal_denotes, digit, digits_value, less, signed_decimal,
    trimmed_end, trimmed_start, white,
};
use crate::value_laws::integers_are_written;

verus! {

/// A text comes before every longer text that starts with it.
pub proof fn beginnings_come_first(text: Seq<char>, more: Seq<char>)
    requires
        more.len() > 0,
    ensures
        less(text, text + more),
        !less(text + more, text),
    decreases text.len(),
{
    let all = text + more;
    if text.len() > 0 {
        beginnings_come_first(text.drop_first(), more);
        assert(all.drop_first() =~= text.drop_first() + more);
        assert(all[0] == text[0]);
    }
}

/// Of two texts that differ somewhere, the one with the smaller letter at the first difference
/// comes first.
pub proof fn first_difference_decides(
    start: Seq<char>,
    small: char,
    large: char,
    first: Seq<char>,
    second: Seq<char>,
)
    requires
        small < large,
    ensures
        less(start + seq![small] + first, start + seq![large] + second),
        !less(start + seq![large] + second, start + seq![small] + first),
    decreases start.len(),
{
    let a = start + seq![small] + first;
    let b = start + seq![large] + second;
    if start.len() > 0 {
        first_difference_decides(start.drop_first(), small, large, first, second);
        assert(a.drop_first() =~= start.drop_first() + seq![small] + first);
        assert(b.drop_first() =~= start.drop_first() + seq![large] + second);
        assert(a[0] == start[0] && b[0] == start[0]);
    } else {
        assert(a[0] == small && b[0] == large);
    }
}

/// Spaces, tabs and line ends are white; letters that print are not.
pub proof fn printed_letters_are_not_white(letter: char)
    ensures
        letter == ' ' || letter == '\t' || letter == '\n' || letter == '\r' ==> white(letter),
        0x21 <= letter as nat <= 0x7e ==> !white(letter),
{
}

/// A text is blank exactly where all of it is white.
pub proof fn blank_texts_are_white(text: Seq<char>, at: int)
    ensures
        blank(Seq::empty()),
        blank(text) && 0 <= at < text.len() ==> white(text[at]),
        0 <= at < text.len() && !white(text[at]) ==> !blank(text),
        blank(text) && white(' ') ==> blank(text.push(' ')),
{
    if blank(text) {
        let more = text.push(' ');
        assert forall|i: int| 0 <= i < more.len() && white(' ') implies white(
            #[trigger] more[i],
        ) by {
            if i < text.len() {
                assert(white(text[i]));
            }
        }
    }
}

/// Trimming takes white letters off both ends, all of them and nothing else.
pub proof fn trimming_takes_white_ends(before: Seq<char>, text: Seq<char>, after: Seq<char>)
    requires
        blank(before),
        blank(after),
        text.len() > 0,
        !white(text[0]),
        !white(text.last()),
    ensures
        trimmed_end(trimmed_start(before + text + after)) == text,
    decreases before.len() + after.len(),
{
    let all = before + text + after;
    if before.len() > 0 {
        assert(all[0] == before[0]);
        assert(white(before[0]));
        assert(all.drop_first() =~= before.drop_first() + text + after);
        assert(blank(before.drop_first())) by {
            assert forall|i: int| 0 <= i < before.drop_first().len() implies white(
                #[trigger] before.drop_first()[i],
            ) by {
                assert(white(before[i + 1]));
            }
        }
        trimming_takes_white_ends(before.drop_first(), text, after);
    } else {
        assert(all =~= text + after);
        assert(all[0] == text[0]);
        assert(trimmed_start(all) == all);
        ends_are_taken(text, after);
    }
}

/// The same for the end alone.
proof fn ends_are_taken(text: Seq<char>, after: Seq<char>)
    requires
        blank(after),
        text.len() > 0,
        !white(text.last()),
    ensures
        trimmed_end(text + after) == text,
    decreases after.len(),
{
    let all = text + after;
    if after.len() > 0 {
        assert(white(after[after.len() - 1]));
        assert(all.last() == after[after.len() - 1]);
        assert(all.drop_last() =~= text + after.drop_last());
        assert(blank(after.drop_last())) by {
            assert forall|i: int| 0 <= i < after.drop_last().len() implies white(
                #[trigger] after.drop_last()[i],
            ) by {
                assert(white(after[i]));
            }
        }
        ends_are_taken(text, after.drop_last());
    } else {
        assert(all =~= text);
    }
}

/// The letter that stands behind a backslash for another, as JSON has it.
pub open spec fn short_escape(mark: char) -> Option<char> {
    if mark == '"' {
        Some('"')
    } else if mark == '\\' {
        Some('\\')
    } else if mark == 'b' {
        Some('\u{8}')
    } else if mark == 'f' {
        Some('\u{c}')
    } else if mark == 'n' {
        Some('\n')
    } else if mark == 'r' {
        Some('\r')
    } else if mark == 't' {
        Some('\t')
    } else {
        None
    }
}

/// The value of a hexadecimal digit.
pub open spec fn hex_value(letter: char) -> int {
    if '0' <= letter <= '9' {
        letter as int - 48
    } else if 'a' <= letter <= 'f' {
        letter as int - 87
    } else {
        -1
    }
}

/// Every letter is written so that JSON reads it back: as itself, behind a backslash, or by its
/// number in four hexadecimal digits. A letter is written as itself exactly where it is no
/// quotation mark, no backslash and no control letter.
pub proof fn letters_read_back(letter: char)
    ensures
        ({
            let text = escaped(letter);
            let itself = letter as nat >= 32 && letter != '"' && letter != '\\';
            &&& itself ==> text == seq![letter]
            &&& !itself ==> text[0] == '\\' && {
                ||| text.len() == 2 && short_escape(text[1]) == Some(letter)
                ||| text.len() == 6 && text[1] == 'u' && text[2] == '0' && text[3] == '0'
                    && hex_value(text[4]) * 16 + hex_value(text[5]) == letter as int && hex_value(
                    text[4],
                ) >= 0 && hex_value(text[5]) >= 0
            }
        }),
{
    if letter as nat <= 31 {
        let code = letter as int;
        digits_have_values(code / 16);
        digits_have_values(code % 16);
    }
}

/// A digit has its value.
proof fn digits_have_values(number: int)
    requires
        0 <= number < 16,
    ensures
        hex_value(hex(number)) == number,
{
    if number < 10 {
        assert(('0' as int + number) as char as int == 48 + number);
    } else {
        assert(('a' as int + number - 10) as char as int == 87 + number);
    }
}

/// A text is written between quotation marks, letter by letter.
pub proof fn texts_are_written_in_quotes(text: Seq<char>, letter: char)
    ensures
        quoted(Seq::empty()) == seq!['"', '"'],
        quoted(text.push(letter)) == quoted(text).drop_last() + escaped(letter) + seq!['"'],
        bytes(Json::Text(text)) == encode_utf8(quoted(text)),
{
    assert(text.push(letter).drop_last() =~= text);
    assert(quoted(Seq::empty()) =~= seq!['"', '"']);
    assert(quoted(text.push(letter)) =~= quoted(text).drop_last() + escaped(letter) + seq!['"']);
}

/// The words of JSON.
pub proof fn words_are_written(truth: bool)
    ensures
        bytes(Json::Null) == encode_utf8("null"@),
        bytes(Json::Bool(truth)) == encode_utf8(
            if truth {
                "true"@
            } else {
                "false"@
            },
        ),
{
}

/// An array is written between square brackets, its items in their order with commas between
/// them.
pub proof fn arrays_are_written(items: Seq<Json>, more: Json)
    ensures
        bytes(Json::Array(Seq::empty())) == seq![91u8, 93u8],
        bytes(Json::Array(items.push(more))) == bytes(Json::Array(items)).drop_last() + (
        if items.len() > 0 {
            seq![44u8]
        } else {
            Seq::empty()
        }) + bytes(more) + seq![93u8],
{
    let all = items.push(more);
    assert(all.drop_last() =~= items);
    assert(all.last() == more);
    assert(item_bytes(all) == if items.len() > 0 {
        item_bytes(items) + seq![44u8] + bytes(more)
    } else {
        bytes(more)
    });
    assert(item_bytes(Seq::empty()) =~= Seq::<u8>::empty());
    assert(bytes(Json::Array(Seq::empty())) =~= seq![91u8, 93u8]);
    if items.len() == 0 {
        assert(items =~= Seq::empty());
    }
    assert(bytes(Json::Array(all)) =~= bytes(Json::Array(items)).drop_last() + (if items.len()
        > 0 {
        seq![44u8]
    } else {
        Seq::empty()
    }) + bytes(more) + seq![93u8]);
}

/// An object is written between curly brackets, each member as its name in quotation marks, a
/// colon and its value, with commas between them.
pub proof fn objects_are_written(fields: Members, name: Seq<char>, value: Json)
    ensures
        bytes(Json::Object(Seq::empty())) == seq![123u8, 125u8],
        bytes(Json::Object(fields.push((name, value)))) == bytes(
            Json::Object(fields),
        ).drop_last() + (if fields.len() > 0 {
            seq![44u8]
        } else {
            Seq::empty()
        }) + encode_utf8(quoted(name)) + seq![58u8] + bytes(value) + seq![125u8],
{
    let all = fields.push((name, value));
    assert(all.drop_last() =~= fields);
    assert(all.last() == (name, value));
    let member = encode_utf8(quoted(name)) + seq![58u8] + bytes(value);
    assert(member_bytes(name, bytes(value)) == member);
    assert(field_bytes(all) == if fields.len() > 0 {
        field_bytes(fields) + seq![44u8] + member
    } else {
        member
    });
    assert(field_bytes(Seq::empty()) =~= Seq::<u8>::empty());
    assert(bytes(Json::Object(Seq::empty())) =~= seq![123u8, 125u8]);
    if fields.len() == 0 {
        assert(fields =~= Seq::empty());
    }
    assert(bytes(Json::Object(all)) =~= bytes(Json::Object(fields)).drop_last() + (
    if fields.len() > 0 {
        seq![44u8]
    } else {
        Seq::empty()
    }) + encode_utf8(quoted(name)) + seq![58u8] + bytes(value) + seq![125u8]);
}

/// How deep a value is: nothing for a simple one, one more than the deepest of its parts for a
/// container.
pub proof fn containers_add_a_level(items: Seq<Json>, fields: Members, at: int)
    ensures
        0 <= at < items.len() ==> nesting(Json::Array(items)) > nesting(items[at]),
        0 <= at < fields.len() ==> nesting(Json::Object(fields)) > nesting(fields[at].1),
        nesting(Json::Array(Seq::empty())) == 1,
        nesting(Json::Object(Seq::empty())) == 1,
        nesting(Json::Null) == 0,
{
    if 0 <= at < items.len() {
        crate::settled::deeper_item(items, at);
    }
    if 0 <= at < fields.len() {
        crate::settled::deeper_field(fields, at);
    }
}

/// A value is written exactly where it is at most sixty-four levels deep, its numbers have a
/// form, and the bytes are at most a mebibyte; then what is written is that.
pub proof fn fitting_values_are_written(value: Json)
    ensures
        fits(value) <==> nesting(arranged(value)) <= 64 && spellable(arranged(value)) && canonical(
            value,
        ).len() <= 1048576,
        written(value, 0, Seq::empty()) is Ok <==> fits(value),
        written(value, 0, Seq::empty()) matches Ok(all) ==> all == canonical(value),
{
    let settled = arranged(value);
    emit_writes(settled, 0, Seq::empty());
    assert(Seq::<u8>::empty() + bytes(settled) =~= bytes(settled));
}

/// The form of an integer of at most twenty-one digits is that integer.
pub proof fn integers_have_their_own_form(integer: int)
    requires
        decimal(
            (if integer < 0 {
                -integer
            } else {
                integer
            }) as nat,
        ).len() <= 21,
    ensures
        spelling(signed_decimal(integer)) == signed_decimal(integer),
{
    let size = (if integer < 0 {
        -integer
    } else {
        integer
    }) as nat;
    integers_are_written(integer);
    let whole = denoted(signed_decimal(integer));
    let small = reduced(whole);
    decimal_denotes(size);
    if size == 0 {
        assert(spelled(small) =~= seq!['0']);
        assert(signed_decimal(integer) =~= seq!['0']);
    } else {
        reduced_is_reduced(whole);
        reduced_keeps_scaled(whole, 0);
        lemma_pow0(10);
        assert(scaled(whole, 0) == size);
        let count = small.exponent as nat;
        assert(small.coefficient * pow(10, count) == size);
        decimal_denotes(small.coefficient);
        let digits = decimal(small.coefficient) + zeros(small.exponent);
        trailing_zeros_scale(decimal(small.coefficient), small.exponent);
        assert(digits_value(digits) == size);
        assert(all_digits(digits)) by {
            assert forall|i: int| 0 <= i < digits.len() implies digit(#[trigger] digits[i]) by {
                if i < decimal(small.coefficient).len() {
                    assert(digit(decimal(small.coefficient)[i]));
                }
            }
        }
        assert(digits[0] == decimal(small.coefficient)[0]);
        decimal_of_digits(digits);
        assert(decimal(size) == digits);
        assert(point(small) == decimal(size).len());
        assert(spelled_whole(small) =~= decimal(size));
        assert(spelled_fraction(small) =~= Seq::<char>::empty());
        assert(spelled(small) =~= signed_decimal(integer));
    }
}

/// A number is written without an exponent exactly where its first digit stands at most
/// twenty-one places before the point and at most six behind it.
pub proof fn exponents_are_for_far_numbers(text: Seq<char>)
    requires
        has_spelling(text),
    ensures
        ({
            let number = reduced(denoted(text));
            let place = decimal(number.coefficient).len() + number.exponent;
            parts(spelling(text)).fraction == spelling(text).len() <==> number.coefficient == 0
                || -5 <= place <= 21
        }),
{
    let number = reduced(denoted(text));
    reduced_is_reduced(denoted(text));
    crate::number::spelled_reads_back(number);
    decimal_denotes(number.coefficient);
    let whole = spelled_whole(number);
    let fraction = spelled_fraction(number);
    let digits = decimal(number.coefficient);
    signed_decimal_reads_back(point(number) - 1);
    let exponent = if number.coefficient == 0 || -5 <= point(number) <= 21 {
        Seq::empty()
    } else if point(number) >= 1 {
        seq!['+'] + signed_decimal(point(number) - 1)
    } else {
        signed_decimal(point(number) - 1)
    };
    assert(all_digits(whole)) by {
        assert forall|i: int| 0 <= i < whole.len() implies digit(#[trigger] whole[i]) by {
            if i < digits.len() {
                assert(digit(digits[i]));
            }
        }
    }
    assert(all_digits(fraction)) by {
        assert forall|i: int| 0 <= i < fraction.len() implies digit(#[trigger] fraction[i]) by {
            let gap = if -5 <= point(number) <= 0 {
                -point(number)
            } else {
                0
            };
            if point(number) >= 1 && point(number) <= 21 && point(number) < digits.len() {
                assert(digit(digits[point(number) + i]));
            } else if -5 <= point(number) <= 0 {
                if i >= gap {
                    assert(digit(digits[i - gap]));
                }
            } else if i + 1 < digits.len() {
                assert(digit(digits[i + 1]));
            }
        }
    }
    composed_is_number(number.negative, whole, fraction, exponent);
}

/// What a JSON number looks like: perhaps a minus sign, digits without a needless zero before
/// them, perhaps a point with digits behind it, perhaps an exponent; it ends with a digit.
pub proof fn numbers_look_like_numbers(text: Seq<char>)
    requires
        is_number(text),
    ensures
        ({
            let ends = parts(text);
            &&& ends.sign == (if text[0] == '-' {
                1int
            } else {
                0
            })
            &&& ends.sign < ends.whole <= ends.fraction <= text.len()
            &&& forall|i: int| ends.sign <= i < ends.whole ==> digit(#[trigger] text[i])
            &&& text[ends.sign] == '0' ==> ends.whole == ends.sign + 1
            &&& ends.fraction > ends.whole ==> text[ends.whole] == '.' && ends.fraction
                > ends.whole + 1
            &&& ends.fraction < text.len() ==> text[ends.fraction] == 'e' || text[ends.fraction]
                == 'E'
            &&& digit(text.last())
        }),
{
    let ends = parts(text);
    digits_end_bounds(text, ends.sign);
    if ends.whole < text.len() && text[ends.whole] == '.' {
        digits_end_bounds(text, ends.whole + 1);
    }
    if ends.fraction < text.len() {
        let digits = if ends.fraction + 1 < text.len() && (text[ends.fraction + 1] == '+'
            || text[ends.fraction + 1] == '-') {
            ends.fraction + 2
        } else {
            ends.fraction + 1
        };
        digits_end_bounds(text, digits);
        assert(digit(text[text.len() - 1]));
    } else if ends.fraction > ends.whole {
        assert(digit(text[text.len() - 1]));
    } else {
        assert(digit(text[text.len() - 1]));
    }
}

/// A number has a form wherever its exponent can be counted in sixty-four bits, before and
/// after its digits are brought together, and nowhere else.
pub proof fn countable_exponents_have_a_form(text: Seq<char>)
    requires
        is_number(text),
    ensures
        ({
            let whole = denoted(text);
            let small = reduced(whole);
            let written = exponent_value(text);
            let place = decimal(small.coefficient).len() + small.exponent;
            has_spelling(text) <==> -0x8000_0000_0000_0000 <= written <= 0x7fff_ffff_ffff_ffff && (
            whole.coefficient == 0 || -0x8000_0000_0000_0000 <= whole.exponent && place
                <= 0x7fff_ffff_ffff_ffff)
        }),
{
}

/// Before a value is written its members are brought into the order of their names, at every
/// level; of members with one name the last stays. Items keep their places, and simple values
/// stay as they are.
pub proof fn members_are_written_in_order(
    fields: Members,
    name: Seq<char>,
    items: Seq<Json>,
    at: int,
)
    ensures
        arranged(Json::Object(fields)) matches Json::Object(members) && sorted(members)
            && match lookup(fields, name) {
            Some(value) => lookup(members, name) == Some(arranged(value)),
            None => lookup(members, name) is None,
        },
        arranged(Json::Array(items)) matches Json::Array(values) && values.len() == items.len() && (
        0 <= at < items.len() ==> values[at] == arranged(items[at])),
        arranged(Json::Null) is Null,
        forall|truth: bool| #[trigger] arranged(Json::Bool(truth)) == Json::Bool(truth),
        arranged(Json::Text(name)) == Json::Text(name),
        arranged(Json::Number(name)) == Json::Number(name),
{
    let inner = arranged_fields(fields);
    arranged_fields_each(fields);
    collected_sorted(inner);
    ordered_members_are_found(inner, name);
    arranged_members_are_found(fields, name);
    arranged_items_each(items);
}

/// What a name finds stays under it.
proof fn arranged_members_are_found(fields: Members, name: Seq<char>)
    ensures
        lookup(arranged_fields(fields), name) == match lookup(fields, name) {
            Some(value) => Some(arranged(value)),
            None => None,
        },
    decreases fields.len(),
{
    if fields.len() > 0 {
        let inner = arranged_fields(fields);
        arranged_members_are_found(fields.drop_last(), name);
        assert(inner.drop_last() =~= arranged_fields(fields.drop_last()));
        assert(inner.last() == (fields.last().0, arranged(fields.last().1)));
    }
}

/// The white letters, by their numbers.
pub proof fn white_letters_by_number(letter: char)
    ensures
        ({
            let code = letter as nat;
            white(letter) <==> 9 <= code <= 13 || code == 32 || code == 133 || code == 160 || code
                == 5760 || 8192 <= code <= 8202 || code == 8232 || code == 8233 || code == 8239
                || code == 8287 || code == 12288
        }),
{
}

} // verus!
