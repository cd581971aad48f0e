//! Text as a sequence of characters: building, comparing, trimming and the
//! decimal form of integers.
use vstd::prelude::*;

verus! {

/// `String::push` of the standard library puts one character at the end.
pub assume_specification[ String::push ](text: &mut String, letter: char)
    ensures
        final(text)@ == old(text)@.push(letter),
;

/// Two texts, one after the other.
pub fn join2(first: &str, second: &str) -> (text: String)
    ensures
        text@ == first@ + second@,
{
    let mut text = first.to_owned();
    text.append(second);
    text
}

/// Three texts, one after the other.
pub fn join3(first: &str, second: &str, third: &str) -> (text: String)
    ensures
        text@ == first@ + second@ + third@,
{
    let mut text = first.to_owned();
    text.append(second);
    text.append(third);
    text
}

/// The characters of a text.
pub fn chars_of(text: &str) -> (chars: Vec<char>)
    ensures
        chars@ == text@,
{
    let mut chars: Vec<char> = Vec::new();
    for letter in iter: text.chars()
        invariant
            iter.seq() == text@,
            chars@ == text@.take(iter.index() as int),
    {
        chars.push(letter);
        assert(chars@ =~= text@.take(iter.index() as int + 1));
    }
    assert(text@.take(text@.len() as int) =~= text@);
    chars
}

/// The text made of some characters.
pub fn text_of(chars: &Vec<char>) -> (text: String)
    ensures
        text@ == chars@,
{
    let mut text = String::new();
    for index in 0..chars.len()
        invariant
            text@ == chars@.take(index as int),
    {
        text.push(chars[index]);
        assert(chars@.take(index as int + 1) =~= chars@.take(index as int).push(chars@[index as int]));
    }
    assert(chars@.take(chars@.len() as int) =~= chars@);
    text
}

/// Whether two texts hold the same characters.
pub fn same(first: &str, second: &str) -> (yes: bool)
    ensures
        yes == (first@ == second@),
{
    first.to_owned() == second.to_owned()
}

/// Whether a text begins with another.
pub fn begins_with(text: &str, start: &str) -> (yes: bool)
    ensures
        yes == start@.is_prefix_of(text@),
{
    let letters = chars_of(text);
    let expected = chars_of(start);
    if letters.len() < expected.len() {
        return false;
    }
    for at in 0..expected.len()
        invariant
            letters@ == text@,
            expected@ == start@,
            expected.len() <= letters.len(),
            forall|i: int| 0 <= i < at ==> letters@[i] == expected@[i],
    {
        if letters[at] != expected[at] {
            assert(text@.subrange(0, start@.len() as int)[at as int] == letters@[at as int]);
            return false;
        }
    }
    assert(text@.subrange(0, start@.len() as int) =~= start@);
    true
}

/// The order of texts: the first place where they differ decides, and a text
/// comes before its own continuations. The bytes of UTF-8 order texts the same
/// way, so this is the order in which maps keyed by text are walked.
pub open spec fn less(first: Seq<char>, second: Seq<char>) -> bool
    decreases first.len(),
{
    if second.len() == 0 {
        false
    } else if first.len() == 0 {
        true
    } else if first[0] == second[0] {
        less(first.drop_first(), second.drop_first())
    } else {
        first[0] < second[0]
    }
}

/// A text does not come before itself.
pub proof fn less_irreflexive(text: Seq<char>)
    ensures
        !less(text, text),
    decreases text.len(),
{
    if text.len() > 0 {
        less_irreflexive(text.drop_first());
    }
}

/// Of two different texts one comes before the other.
pub proof fn less_total(first: Seq<char>, second: Seq<char>)
    ensures
        less(first, second) || less(second, first) || first == second,
    decreases first.len(),
{
    if first.len() > 0 && second.len() > 0 && first[0] == second[0] {
        less_total(first.drop_first(), second.drop_first());
        if first.drop_first() == second.drop_first() {
            assert(first =~= seq![first[0]] + first.drop_first());
            assert(second =~= seq![second[0]] + second.drop_first());
        }
    } else if first.len() == 0 && second.len() == 0 {
        assert(first =~= second);
    }
}

/// What comes before a text comes before all that follows that text.
pub proof fn less_transitive(first: Seq<char>, second: Seq<char>, third: Seq<char>)
    requires
        less(first, second),
        less(second, third),
    ensures
        less(first, third),
    decreases first.len(),
{
    if first.len() > 0 && first[0] == second[0] && second[0] == third[0] {
        less_transitive(first.drop_first(), second.drop_first(), third.drop_first());
    }
}

/// Whether the first text comes before the second.
pub fn comes_before(first: &str, second: &str) -> (yes: bool)
    ensures
        yes == less(first@, second@),
{
    let left = chars_of(first);
    let right = chars_of(second);
    let mut at: usize = 0;
    assert(left@.skip(0) =~= left@);
    assert(right@.skip(0) =~= right@);
    while at < left.len() && at < right.len() && left[at] == right[at]
        invariant
            at <= left.len(),
            at <= right.len(),
            left@ == first@,
            right@ == second@,
            less(first@, second@) == less(left@.skip(at as int), right@.skip(at as int)),
        decreases left.len() - at,
    {
        proof {
            assert(left@.skip(at as int).drop_first() =~= left@.skip(at as int + 1));
            assert(right@.skip(at as int).drop_first() =~= right@.skip(at as int + 1));
        }
        at = at + 1;
    }
    if at == right.len() {
        false
    } else if at == left.len() {
        true
    } else {
        left[at] < right[at]
    }
}

/// Whether a character is one of the ten ASCII digits.
pub open spec fn digit(letter: char) -> bool {
    '0' <= letter <= '9'
}

/// Whether a character is one of the ten ASCII digits.
pub fn is_digit(letter: char) -> (yes: bool)
    ensures
        yes == digit(letter),
{
    '0' <= letter && letter <= '9'
}

/// Whether every character is an ASCII digit.
pub open spec fn all_digits(text: Seq<char>) -> bool {
    forall|i: int| 0 <= i < text.len() ==> digit(#[trigger] text[i])
}

/// The number that a run of digits denotes.
pub open spec fn digits_value(text: Seq<char>) -> nat
    decreases text.len(),
{
    if text.len() == 0 {
        0
    } else {
        (digits_value(text.drop_last()) * 10 + (text.last() as nat - '0' as nat)) as nat
    }
}

/// The digit for a number below ten.
pub open spec fn digit_of(number: nat) -> char {
    ('0' as nat + number) as char
}

/// The decimal form of a number: its digits without leading zeros.
pub open spec fn decimal(number: nat) -> Seq<char>
    decreases number,
{
    if number < 10 {
        seq![digit_of(number)]
    } else {
        decimal(number / 10).push(digit_of(number % 10))
    }
}

/// The decimal form of an integer, with a minus sign before a negative one.
pub open spec fn signed_decimal(number: int) -> Seq<char> {
    if number < 0 {
        seq!['-'] + decimal((-number) as nat)
    } else {
        decimal(number as nat)
    }
}

/// The decimal form consists of digits, is not empty, starts with a zero only
/// for the number zero, and denotes the number that it was made of.
pub proof fn decimal_denotes(number: nat)
    ensures
        all_digits(decimal(number)),
        decimal(number).len() >= 1,
        digits_value(decimal(number)) == number,
        number > 0 ==> decimal(number)[0] != '0',
        number == 0 ==> decimal(number) == seq!['0'],
    decreases number,
{
    if number >= 10 {
        decimal_denotes(number / 10);
        assert(decimal(number).drop_last() =~= decimal(number / 10));
    } else {
        assert(decimal(number).drop_last() =~= Seq::<char>::empty());
        assert(digits_value(Seq::<char>::empty()) == 0);
    }
}

/// The decimal form of a number.
pub fn decimal_text(number: u64) -> (text: String)
    ensures
        text@ == decimal(number as nat),
    decreases number,
{
    let digit = ((number % 10) as u8 + 48u8) as char;
    if number < 10 {
        let mut text = String::new();
        text.push(digit);
        assert(text@ =~= decimal(number as nat));
        text
    } else {
        let mut text = decimal_text(number / 10);
        text.push(digit);
        text
    }
}

/// The decimal form of an integer, with a minus sign before a negative one.
pub fn signed_decimal_text(number: i64) -> (text: String)
    ensures
        text@ == signed_decimal(number as int),
{
    if number >= 0 {
        decimal_text(number as u64)
    } else if number == i64::MIN {
        let text = join2("-", decimal_text(9223372036854775808u64).as_str());
        proof {
            reveal_strlit("-");
            assert("-"@ =~= seq!['-']);
        }
        text
    } else {
        let text = join2("-", decimal_text((-number) as u64).as_str());
        proof {
            reveal_strlit("-");
            assert("-"@ =~= seq!['-']);
        }
        text
    }
}

/// More digits never make a smaller number.
pub proof fn digits_value_grows(text: Seq<char>, length: int)
    requires
        all_digits(text),
        0 <= length <= text.len(),
    ensures
        digits_value(text.take(length)) <= digits_value(text),
    decreases text.len(),
{
    if length == text.len() {
        assert(text.take(length) =~= text);
    } else {
        let shorter = text.drop_last();
        assert forall|i: int| 0 <= i < shorter.len() implies digit(#[trigger] shorter[i]) by {
            assert(digit(text[i]));
        }
        digits_value_grows(shorter, length);
        assert(shorter.take(length) =~= text.take(length));
        assert(digit(text[text.len() - 1]));
    }
}

/// Reads a run of digits as a number, where it is one and fits.
pub fn read_digits(chars: &Vec<char>, start: usize) -> (number: Option<u64>)
    requires
        start <= chars.len(),
    ensures
        number == (if start < chars.len() && all_digits(chars@.skip(start as int))
            && digits_value(chars@.skip(start as int)) <= u64::MAX {
            Some(digits_value(chars@.skip(start as int)) as u64)
        } else {
            None
        }),
{
    let ghost rest = chars@.skip(start as int);
    if start == chars.len() {
        return None;
    }
    let mut scan: usize = start;
    while scan < chars.len()
        invariant
            start <= scan <= chars.len(),
            rest == chars@.skip(start as int),
            forall|i: int| 0 <= i < scan - start ==> digit(#[trigger] rest[i]),
        decreases chars.len() - scan,
    {
        if !is_digit(chars[scan]) {
            assert(!digit(rest[scan - start]));
            return None;
        }
        scan = scan + 1;
    }
    let mut value: u64 = 0;
    let mut at: usize = start;
    assert(rest.take(0) =~= Seq::<char>::empty());
    while at < chars.len()
        invariant
            start <= at <= chars.len(),
            rest == chars@.skip(start as int),
            all_digits(rest),
            value == digits_value(rest.take(at - start)),
        decreases chars.len() - at,
    {
        assert(digit(rest[at - start]));
        let unit: u64 = chars[at] as u64 - 48;
        proof {
            assert(rest.take(at - start + 1).drop_last() =~= rest.take(at - start));
            digits_value_grows(rest, at - start + 1);
        }
        match value.checked_mul(10) {
            None => {
                return None;
            },
            Some(tens) => match tens.checked_add(unit) {
                None => {
                    return None;
                },
                Some(sum) => {
                    value = sum;
                },
            },
        }
        at = at + 1;
    }
    assert(rest.take(rest.len() as int) =~= rest);
    Some(value)
}

/// The number that a text denotes as an unsigned integer: digits, with an
/// optional plus sign before them.
pub open spec fn unsigned_value(text: Seq<char>) -> Option<nat> {
    let digits = if text.len() > 0 && text[0] == '+' {
        text.skip(1)
    } else {
        text.skip(0)
    };
    if digits.len() > 0 && all_digits(digits) {
        Some(digits_value(digits))
    } else {
        None
    }
}

/// Reads an unsigned integer that fits in 64 bits.
pub fn read_unsigned(chars: &Vec<char>) -> (number: Option<u64>)
    ensures
        number == (match unsigned_value(chars@) {
            Some(value) if value <= u64::MAX => Some(value as u64),
            _ => None,
        }),
{
    if chars.len() > 0 && chars[0] == '+' {
        read_digits(chars, 1)
    } else {
        read_digits(chars, 0)
    }
}

/// The integer that a text denotes: digits, with an optional sign before them.
pub open spec fn signed_value(text: Seq<char>) -> Option<int> {
    let digits = if text.len() > 0 && (text[0] == '+' || text[0] == '-') {
        text.skip(1)
    } else {
        text.skip(0)
    };
    if digits.len() > 0 && all_digits(digits) {
        Some(if text[0] == '-' {
            -(digits_value(digits) as int)
        } else {
            digits_value(digits) as int
        })
    } else {
        None
    }
}

/// Reads an integer that fits in 64 bits.
pub fn read_signed(chars: &Vec<char>) -> (number: Option<i64>)
    ensures
        number == (match signed_value(chars@) {
            Some(value) if i64::MIN <= value <= i64::MAX => Some(value as i64),
            _ => None,
        }),
{
    let signed = chars.len() > 0 && (chars[0] == '+' || chars[0] == '-');
    let negative = chars.len() > 0 && chars[0] == '-';
    match read_digits(chars, if signed { 1 } else { 0 }) {
        None => None,
        Some(size) => if !negative {
            if size <= 9223372036854775807u64 {
                Some(size as i64)
            } else {
                None
            }
        } else if size == 9223372036854775808u64 {
            Some(i64::MIN)
        } else if size <= 9223372036854775807u64 {
            Some(-(size as i64))
        } else {
            None
        },
    }
}

/// Whether a character has the Unicode property `White_Space`.
pub open spec fn white(letter: char) -> bool {
    ||| '\u{9}' <= letter <= '\u{d}'
    ||| letter == ' '
    ||| letter == '\u{85}'
    ||| letter == '\u{a0}'
    ||| letter == '\u{1680}'
    ||| '\u{2000}' <= letter <= '\u{200a}'
    ||| letter == '\u{2028}'
    ||| letter == '\u{2029}'
    ||| letter == '\u{202f}'
    ||| letter == '\u{205f}'
    ||| letter == '\u{3000}'
}

/// Whether a character has the Unicode property `White_Space`.
pub fn is_white(letter: char) -> (yes: bool)
    ensures
        yes == white(letter),
{
    ('\u{9}' <= letter && letter <= '\u{d}') || letter == ' ' || letter == '\u{85}' || letter
        == '\u{a0}' || letter == '\u{1680}' || ('\u{2000}' <= letter && letter <= '\u{200a}')
        || letter == '\u{2028}' || letter == '\u{2029}' || letter == '\u{202f}' || letter
        == '\u{205f}' || letter == '\u{3000}'
}

/// Whether a text holds nothing but white space.
pub open spec fn blank(text: Seq<char>) -> bool {
    forall|i: int| 0 <= i < text.len() ==> white(#[trigger] text[i])
}

/// Whether a text holds nothing but white space.
pub fn is_blank(text: &str) -> (yes: bool)
    ensures
        yes == blank(text@),
{
    let chars = chars_of(text);
    for at in 0..chars.len()
        invariant
            chars@ == text@,
            forall|i: int| 0 <= i < at ==> white(#[trigger] text@[i]),
    {
        if !is_white(chars[at]) {
            return false;
        }
    }
    true
}

/// A text without the white space at its end.
pub open spec fn trimmed_end(text: Seq<char>) -> Seq<char>
    decreases text.len(),
{
    if text.len() > 0 && white(text.last()) {
        trimmed_end(text.drop_last())
    } else {
        text
    }
}

/// A text without the white space at its start.
pub open spec fn trimmed_start(text: Seq<char>) -> Seq<char>
    decreases text.len(),
{
    if text.len() > 0 && white(text[0]) {
        trimmed_start(text.drop_first())
    } else {
        text
    }
}

/// A text without the white space at both ends.
pub fn trim(text: &str) -> (chars: Vec<char>)
    ensures
        chars@ == trimmed_end(trimmed_start(text@)),
{
    let all = chars_of(text);
    let mut start: usize = 0;
    assert(text@.skip(0) =~= text@);
    while start < all.len() && is_white(all[start])
        invariant
            start <= all.len(),
            all@ == text@,
            trimmed_start(text@) == trimmed_start(text@.skip(start as int)),
        decreases all.len() - start,
    {
        assert(text@.skip(start as int).drop_first() =~= text@.skip(start as int + 1));
        start = start + 1;
    }
    let ghost rest = text@.skip(start as int);
    let mut chars: Vec<char> = Vec::new();
    for at in start..all.len()
        invariant
            start <= all.len(),
            all@ == text@,
            rest == text@.skip(start as int),
            chars@ == rest.take(at - start),
    {
        chars.push(all[at]);
        assert(rest.take(at - start + 1) =~= rest.take(at - start).push(rest[at - start]));
    }
    assert(rest.take(rest.len() as int) =~= rest);
    while chars.len() > 0 && is_white(chars[chars.len() - 1])
        invariant
            trimmed_end(chars@) == trimmed_end(rest),
        decreases chars.len(),
    {
        let ghost before = chars@;
        chars.pop();
        assert(chars@ =~= before.drop_last());
    }
    chars
}

/// A text without the given letter at its end, however often it stands there.
pub open spec fn without_end(text: Seq<char>, letter: char) -> Seq<char>
    decreases text.len(),
{
    if text.len() > 0 && text.last() == letter {
        without_end(text.drop_last(), letter)
    } else {
        text
    }
}

/// A text without the given letter at its end, however often it stands there.
pub fn trim_end(text: &str, letter: char) -> (rest: String)
    ensures
        rest@ == without_end(text@, letter),
{
    let mut chars = chars_of(text);
    while chars.len() > 0 && chars[chars.len() - 1] == letter
        invariant
            without_end(chars@, letter) == without_end(text@, letter),
        decreases chars.len(),
    {
        let ghost before = chars@;
        chars.pop();
        assert(chars@ =~= before.drop_last());
    }
    text_of(&chars)
}

/// The lower case of an ASCII letter; any other character stays.
pub open spec fn lower(letter: char) -> char {
    if 'A' <= letter <= 'Z' {
        (letter as nat + 32) as char
    } else {
        letter
    }
}

/// A text with every ASCII letter in lower case.
pub open spec fn lowered(text: Seq<char>) -> Seq<char> {
    text.map_values(|letter: char| lower(letter))
}

/// A text with every ASCII letter in lower case.
pub fn lower_text(text: &str) -> (result: String)
    ensures
        result@ == lowered(text@),
{
    let chars = chars_of(text);
    let mut result = String::new();
    for at in 0..chars.len()
        invariant
            chars@ == text@,
            result@ == lowered(text@.take(at as int)),
    {
        let letter = chars[at];
        let small = if 'A' <= letter && letter <= 'Z' {
            (letter as u8 + 32u8) as char
        } else {
            letter
        };
        result.push(small);
        assert(lowered(text@.take(at as int + 1)) =~= lowered(text@.take(at as int)).push(small));
    }
    assert(text@.take(text@.len() as int) =~= text@);
    result
}

} // verus!
