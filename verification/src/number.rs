//! Numbers of JSON text: their grammar, the value that they denote and the one
//! spelling that stands for each value.
use vstd::arithmetic::power::pow;
use vstd::prelude::*;

use crate::errors::{row_fault, Fault, JevError};
use crate::text::{
    all_digits, chars_of, decimal, decimal_denotes, digit, digits_value, is_digit, read_signed,
    signed_decimal, signed_decimal_text, signed_value,
};

verus! {

/// The end of the run of digits that starts at a place of a text.
pub open spec fn digits_end(text: Seq<char>, from: int) -> int
    decreases text.len() - from,
{
    if 0 <= from < text.len() && digit(text[from]) {
        digits_end(text, from + 1)
    } else {
        from
    }
}

/// Where the parts of a number end: the sign, the digits before the point, the
/// digits behind it.
pub ghost struct Parts {
    pub sign: int,
    pub whole: int,
    pub fraction: int,
}

/// The places at which the parts of a number text end.
pub open spec fn parts(text: Seq<char>) -> Parts {
    let sign: int = if text.len() > 0 && text[0] == '-' { 1 } else { 0 };
    let whole = digits_end(text, sign);
    let fraction = if whole < text.len() && text[whole] == '.' {
        digits_end(text, whole + 1)
    } else {
        whole
    };
    Parts { sign, whole, fraction }
}

/// Whether a text ends at a place, or goes on there with an exponent.
pub open spec fn exponent_or_end(text: Seq<char>, from: int) -> bool {
    from == text.len() || {
        let digits = if from + 1 < text.len() && (text[from + 1] == '+' || text[from + 1] == '-') {
            from + 2
        } else {
            from + 1
        };
        &&& text[from] == 'e' || text[from] == 'E'
        &&& digits < text.len()
        &&& digits_end(text, digits) == text.len()
    }
}

/// Whether a text is a number as JSON writes numbers: an optional minus sign,
/// digits without a needless leading zero, optionally a point with digits, and
/// optionally an exponent.
pub open spec fn is_number(text: Seq<char>) -> bool {
    let ends = parts(text);
    &&& ends.sign < ends.whole
    &&& text[ends.sign] == '0' ==> ends.whole == ends.sign + 1
    &&& ends.fraction != ends.whole + 1
    &&& exponent_or_end(text, ends.fraction)
}

/// The digits before the point.
pub open spec fn whole_digits(text: Seq<char>) -> Seq<char> {
    text.subrange(parts(text).sign, parts(text).whole)
}

/// The digits behind the point; none where there is no point.
pub open spec fn fraction_digits(text: Seq<char>) -> Seq<char> {
    let ends = parts(text);
    if ends.fraction > ends.whole {
        text.subrange(ends.whole + 1, ends.fraction)
    } else {
        Seq::empty()
    }
}

/// The exponent of a number text; zero where none is written.
pub open spec fn exponent_value(text: Seq<char>) -> int {
    let end = parts(text).fraction;
    if end < text.len() {
        signed_value(text.skip(end + 1)).unwrap()
    } else {
        0
    }
}

/// A decimal number: the coefficient, with its sign, times ten to the exponent.
pub ghost struct Decimal {
    pub negative: bool,
    pub coefficient: nat,
    pub exponent: int,
}

/// The decimal number that a number text denotes.
pub open spec fn denoted(text: Seq<char>) -> Decimal {
    Decimal {
        negative: text.len() > 0 && text[0] == '-',
        coefficient: digits_value(whole_digits(text) + fraction_digits(text)),
        exponent: exponent_value(text) - fraction_digits(text).len(),
    }
}

/// The coefficient of a decimal number, had it been written with the exponent
/// `low`.
pub open spec fn scaled(number: Decimal, low: int) -> int {
    number.coefficient * pow(10, (number.exponent - low) as nat)
}

/// Whether two decimal numbers are the same rational number.
pub open spec fn same_value(first: Decimal, second: Decimal) -> bool {
    let low = if first.exponent <= second.exponent { first.exponent } else { second.exponent };
    &&& scaled(first, low) == scaled(second, low)
    &&& first.coefficient > 0 ==> first.negative == second.negative
}

/// The same decimal number with the smallest coefficient: zero is written
/// without sign and exponent, and no other coefficient ends in a zero.
pub open spec fn reduced(number: Decimal) -> Decimal
    decreases number.coefficient,
{
    if number.coefficient == 0 {
        Decimal { negative: false, coefficient: 0, exponent: 0 }
    } else if number.coefficient % 10 == 0 {
        reduced(Decimal { coefficient: number.coefficient / 10, exponent: number.exponent + 1, ..number })
    } else {
        number
    }
}

/// A run of digits ends where the next character is no digit.
pub proof fn digits_end_at(text: Seq<char>, from: int, end: int)
    requires
        0 <= from <= end <= text.len(),
        forall|i: int| from <= i < end ==> digit(#[trigger] text[i]),
        end < text.len() ==> !digit(text[end]),
    ensures
        digits_end(text, from) == end,
    decreases end - from,
{
    if from < end {
        assert(digit(text[from]));
        digits_end_at(text, from + 1, end);
    }
}

/// The end of a run of digits lies inside the text, behind digits only.
pub proof fn digits_end_bounds(text: Seq<char>, from: int)
    requires
        0 <= from <= text.len(),
    ensures
        from <= digits_end(text, from) <= text.len(),
        forall|i: int| from <= i < digits_end(text, from) ==> digit(#[trigger] text[i]),
        digits_end(text, from) < text.len() ==> !digit(text[digits_end(text, from)]),
    decreases text.len() - from,
{
    if from < text.len() && digit(text[from]) {
        digits_end_bounds(text, from + 1);
    }
}

/// A minus sign, or nothing.
pub open spec fn minus(negative: bool) -> Seq<char> {
    if negative {
        seq!['-']
    } else {
        Seq::empty()
    }
}

/// A number text made of its parts. No fraction gives no point, no exponent no
/// `e`.
pub open spec fn composed(
    negative: bool,
    whole: Seq<char>,
    fraction: Seq<char>,
    exponent: Seq<char>,
) -> Seq<char> {
    minus(negative) + whole + (if fraction.len() > 0 {
        seq!['.'] + fraction
    } else {
        Seq::empty()
    }) + (if exponent.len() > 0 {
        seq!['e'] + exponent
    } else {
        Seq::empty()
    })
}

/// A number text made of proper parts is a number, and its parts are found
/// again.
#[verifier::spinoff_prover]
#[verifier::rlimit(40)]
pub proof fn composed_is_number(
    negative: bool,
    whole: Seq<char>,
    fraction: Seq<char>,
    exponent: Seq<char>,
)
    requires
        whole.len() > 0,
        all_digits(whole),
        whole[0] == '0' ==> whole.len() == 1,
        all_digits(fraction),
        exponent.len() > 0 ==> signed_value(exponent) is Some,
    ensures
        is_number(composed(negative, whole, fraction, exponent)),
        ({
            let text = composed(negative, whole, fraction, exponent);
            &&& whole_digits(text) == whole
            &&& fraction_digits(text) == fraction
            &&& text.len() > 0
            &&& (text[0] == '-') == negative
            &&& exponent.len() == 0 ==> parts(text).fraction == text.len()
            &&& exponent.len() > 0 ==> {
                &&& parts(text).fraction < text.len()
                &&& text[parts(text).fraction] == 'e'
                &&& text.take(parts(text).fraction) == composed(
                    negative,
                    whole,
                    fraction,
                    Seq::empty(),
                )
                &&& text.skip(parts(text).fraction + 1) == exponent
            }
        }),
{
    let text = composed(negative, whole, fraction, exponent);
    let sign: int = if negative { 1 } else { 0 };
    let end = sign + whole.len();
    assert(digit(whole[0]));
    assert(text[sign] == whole[0]);
    assert forall|i: int| sign <= i < end implies digit(#[trigger] text[i]) by {
        assert(text[i] == whole[i - sign]);
        assert(digit(whole[i - sign]));
    }
    digits_end_at(text, sign, end);
    let stop = if fraction.len() > 0 { end + 1 + fraction.len() } else { end };
    if fraction.len() > 0 {
        assert(text[end] == '.');
        assert forall|i: int| end + 1 <= i < stop implies digit(#[trigger] text[i]) by {
            assert(text[i] == fraction[i - end - 1]);
            assert(digit(fraction[i - end - 1]));
        }
        digits_end_at(text, end + 1, stop);
    }
    assert(parts(text) == (Parts { sign, whole: end, fraction: stop }));
    assert(whole_digits(text) =~= whole);
    assert(fraction_digits(text) =~= fraction);
    if exponent.len() > 0 {
        assert(text[stop] == 'e');
        assert(text.skip(stop + 1) =~= exponent);
        assert(text.take(stop) =~= composed(negative, whole, fraction, Seq::empty()));
        let signed = exponent[0] == '+' || exponent[0] == '-';
        let from = if signed { stop + 2 } else { stop + 1 };
        let digits = if signed { exponent.skip(1) } else { exponent.skip(0) };
        assert(text[stop + 1] == exponent[0]);
        assert forall|i: int| from <= i < text.len() implies digit(#[trigger] text[i]) by {
            assert(text[i] == digits[i - from]);
            assert(digit(digits[i - from]));
        }
        digits_end_at(text, from, text.len() as int);
    }
}

/// Whether a reduced decimal number is spelled without an exponent: the point
/// lies at most 21 digits behind the first digit, or at most five zeros before
/// it. Any other number has one digit before its point and an exponent.
pub open spec fn plain(number: Decimal) -> bool {
    -5 <= point(number) <= 21
}

/// How many digits stand before the point of a reduced decimal number.
pub open spec fn point(number: Decimal) -> int {
    decimal(number.coefficient).len() + number.exponent
}

/// A row of zeros.
pub open spec fn zeros(count: int) -> Seq<char> {
    Seq::new(count as nat, |i: int| '0')
}

/// The digits before the point in the spelling of a reduced decimal number.
pub open spec fn spelled_whole(number: Decimal) -> Seq<char> {
    let digits = decimal(number.coefficient);
    let point = point(number);
    if number.coefficient == 0 {
        seq!['0']
    } else if 1 <= point <= 21 {
        if point >= digits.len() {
            digits + zeros(point - digits.len())
        } else {
            digits.take(point)
        }
    } else if plain(number) {
        seq!['0']
    } else {
        digits.take(1)
    }
}

/// The digits behind the point in the spelling of a reduced decimal number.
pub open spec fn spelled_fraction(number: Decimal) -> Seq<char> {
    let digits = decimal(number.coefficient);
    let point = point(number);
    if number.coefficient == 0 {
        Seq::empty()
    } else if 1 <= point <= 21 {
        if point >= digits.len() {
            Seq::empty()
        } else {
            digits.skip(point)
        }
    } else if plain(number) {
        zeros(-point) + digits
    } else {
        digits.skip(1)
    }
}

/// The one spelling of a reduced decimal number. An exponent always carries its
/// sign.
pub open spec fn spelled(number: Decimal) -> Seq<char> {
    composed(
        number.negative,
        spelled_whole(number),
        spelled_fraction(number),
        if number.coefficient == 0 || plain(number) {
            Seq::empty()
        } else if point(number) >= 1 {
            seq!['+'] + signed_decimal(point(number) - 1)
        } else {
            signed_decimal(point(number) - 1)
        },
    )
}

/// A run of digits without a leading zero is the decimal form of its value.
pub proof fn decimal_of_digits(digits: Seq<char>)
    requires
        digits.len() > 0,
        all_digits(digits),
        digits[0] != '0',
    ensures
        decimal(digits_value(digits)) == digits,
        digits_value(digits) > 0,
        digits_value(digits) % 10 == digits.last() as nat - '0' as nat,
    decreases digits.len(),
{
    let shorter = digits.drop_last();
    assert(digit(digits.last()));
    assert(digit(digits[0]));
    if shorter.len() == 0 {
        assert(digits_value(shorter) == 0);
        assert(decimal(digits_value(digits)) =~= digits);
    } else {
        assert forall|i: int| 0 <= i < shorter.len() implies digit(#[trigger] shorter[i]) by {
            assert(digit(digits[i]));
        }
        decimal_of_digits(shorter);
        let value = digits_value(digits);
        assert(value / 10 == digits_value(shorter));
        assert(decimal(value) =~= digits);
    }
}

/// Zeros before a run of digits do not change its value.
pub proof fn leading_zeros_add_nothing(count: int, digits: Seq<char>)
    requires
        count >= 0,
    ensures
        digits_value(zeros(count) + digits) == digits_value(digits),
    decreases count + digits.len(),
{
    let text = zeros(count) + digits;
    if digits.len() > 0 {
        assert(text.drop_last() =~= zeros(count) + digits.drop_last());
        leading_zeros_add_nothing(count, digits.drop_last());
    } else if count > 0 {
        assert(text.drop_last() =~= zeros(count - 1) + digits);
        leading_zeros_add_nothing(count - 1, digits);
    } else {
        assert(text =~= digits);
    }
}

/// Each zero behind a run of digits makes its value ten times as large.
pub proof fn trailing_zeros_scale(digits: Seq<char>, count: int)
    requires
        count >= 0,
    ensures
        digits_value(digits + zeros(count)) == digits_value(digits) * pow(10, count as nat),
    decreases count,
{
    let text = digits + zeros(count);
    vstd::arithmetic::power::lemma_pow0(10);
    if count == 0 {
        assert(text =~= digits);
    } else {
        assert(text.drop_last() =~= digits + zeros(count - 1));
        trailing_zeros_scale(digits, count - 1);
        let rest = (count - 1) as nat;
        assert(pow(10, count as nat) == 10 * pow(10, rest)) by {
            reveal(pow);
        }
        let value = digits_value(digits);
        assert(value * pow(10, rest) * 10 == value * (10 * pow(10, rest))) by (nonlinear_arith);
    }
}

/// Reducing takes away the zeros at the end of a coefficient.
pub proof fn reduced_scaled(number: Decimal, count: nat)
    requires
        number.coefficient > 0,
    ensures
        number.coefficient * pow(10, count) > 0,
        reduced(
            Decimal {
                negative: number.negative,
                coefficient: (number.coefficient * pow(10, count)) as nat,
                exponent: number.exponent,
            },
        ) == reduced(
            Decimal {
                negative: number.negative,
                coefficient: number.coefficient,
                exponent: number.exponent + count,
            },
        ),
    decreases count,
{
    vstd::arithmetic::power::lemma_pow0(10);
    if count > 0 {
        let rest = (count - 1) as nat;
        assert(pow(10, count) == 10 * pow(10, rest)) by {
            reveal(pow);
        }
        let more = Decimal { exponent: number.exponent + 1, ..number };
        reduced_scaled(more, rest);
        let value = number.coefficient as int;
        let small = value * pow(10, rest);
        assert(value * pow(10, count) == 10 * small) by (nonlinear_arith)
            requires
                pow(10, count) == 10 * pow(10, rest),
                small == value * pow(10, rest),
        ;
        assert((10 * small) / 10 == small && (10 * small) % 10 == 0);
    }
}

/// A reduced number has no sign and no exponent at zero, and else a coefficient
/// that does not end in a zero; it stays as it is when reduced again.
pub proof fn reduced_is_reduced(number: Decimal)
    ensures
        ({
            let small = reduced(number);
            &&& small.coefficient == 0 <==> number.coefficient == 0
            &&& small.coefficient == 0 ==> !small.negative && small.exponent == 0
            &&& small.coefficient > 0 ==> {
                &&& small.coefficient % 10 != 0
                &&& small.negative == number.negative
                &&& small.exponent >= number.exponent
            }
            &&& reduced(small) == small
        }),
    decreases number.coefficient,
{
    if number.coefficient > 0 && number.coefficient % 10 == 0 {
        reduced_is_reduced(
            Decimal {
                coefficient: number.coefficient / 10,
                exponent: number.exponent + 1,
                ..number
            },
        );
    }
}

/// Reducing a number does not change its value.
pub proof fn reduced_keeps_scaled(number: Decimal, low: int)
    requires
        number.coefficient > 0,
        low <= number.exponent,
    ensures
        scaled(reduced(number), low) == scaled(number, low),
    decreases number.coefficient,
{
    if number.coefficient % 10 == 0 {
        let next = Decimal {
            coefficient: number.coefficient / 10,
            exponent: number.exponent + 1,
            ..number
        };
        reduced_keeps_scaled(next, low);
        let rest = (number.exponent - low) as nat;
        assert(pow(10, rest + 1) == 10 * pow(10, rest)) by {
            reveal(pow);
        }
        assert((next.exponent - low) as nat == rest + 1);
        let value = next.coefficient as int;
        assert(value * pow(10, rest + 1) == (10 * value) * pow(10, rest)) by (nonlinear_arith)
            requires
                pow(10, rest + 1) == 10 * pow(10, rest),
        ;
    }
}

/// Two decimal numbers are the same rational number exactly when they reduce to
/// the same number.
pub proof fn same_value_iff_same_reduced(first: Decimal, second: Decimal)
    ensures
        same_value(first, second) <==> reduced(first) == reduced(second),
{
    let low = if first.exponent <= second.exponent { first.exponent } else { second.exponent };
    let a = reduced(first);
    let b = reduced(second);
    reduced_is_reduced(first);
    reduced_is_reduced(second);
    vstd::arithmetic::power::lemma_pow_positive(10, (first.exponent - low) as nat);
    vstd::arithmetic::power::lemma_pow_positive(10, (second.exponent - low) as nat);
    if first.coefficient == 0 || second.coefficient == 0 {
        let p = pow(10, (first.exponent - low) as nat);
        let q = pow(10, (second.exponent - low) as nat);
        let c = first.coefficient as int;
        let d = second.coefficient as int;
        assert(c == 0 ==> c * p == 0) by (nonlinear_arith);
        assert(d == 0 ==> d * q == 0) by (nonlinear_arith);
        assert(c > 0 ==> c * p > 0) by (nonlinear_arith)
            requires
                p > 0,
        ;
        assert(d > 0 ==> d * q > 0) by (nonlinear_arith)
            requires
                q > 0,
        ;
    } else {
        reduced_keeps_scaled(first, low);
        reduced_keeps_scaled(second, low);
        if same_value(first, second) {
            if a.exponent <= b.exponent {
                reduced_unique(a, b, low);
            } else {
                reduced_unique(b, a, low);
            }
        }
    }
}

/// Two reduced numbers with the same value are the same.
proof fn reduced_unique(a: Decimal, b: Decimal, low: int)
    requires
        a.coefficient > 0,
        b.coefficient > 0,
        a.coefficient % 10 != 0,
        b.coefficient % 10 != 0,
        low <= a.exponent <= b.exponent,
        scaled(a, low) == scaled(b, low),
    ensures
        a.coefficient == b.coefficient,
        a.exponent == b.exponent,
{
    let base = (a.exponent - low) as nat;
    let gap = (b.exponent - a.exponent) as nat;
    let p = pow(10, base);
    let g = pow(10, gap);
    let c = a.coefficient as int;
    let d = b.coefficient as int;
    vstd::arithmetic::power::lemma_pow_positive(10, base);
    vstd::arithmetic::power::lemma_pow_adds(10, base, gap);
    assert((b.exponent - low) as nat == base + gap);
    assert(c == d * g) by (nonlinear_arith)
        requires
            c * p == d * (p * g),
            p > 0,
    ;
    vstd::arithmetic::power::lemma_pow0(10);
    if gap > 0 {
        let rest = pow(10, (gap - 1) as nat);
        assert(g == 10 * rest) by {
            reveal(pow);
        }
        assert(d * g == 10 * (d * rest)) by (nonlinear_arith)
            requires
                g == 10 * rest,
        ;
        assert((10 * (d * rest)) % 10 == 0);
    } else {
        assert(d * 1 == d);
    }
}

/// The decimal form of an integer reads back as that integer, and a plus sign
/// before it changes nothing.
pub proof fn signed_decimal_reads_back(number: int)
    ensures
        signed_decimal(number).len() > 0,
        signed_value(signed_decimal(number)) == Some(number),
        number >= 0 ==> signed_value(seq!['+'] + signed_decimal(number)) == Some(number),
{
    let text = signed_decimal(number);
    if number < 0 {
        let digits = decimal((-number) as nat);
        decimal_denotes((-number) as nat);
        assert(text.skip(1) =~= digits);
    } else {
        let digits = decimal(number as nat);
        decimal_denotes(number as nat);
        assert(digit(digits[0]));
        assert(text.skip(0) =~= digits);
        assert((seq!['+'] + text).skip(1) =~= digits);
    }
}

/// The exponent in the spelling of a reduced decimal number, before its sign is
/// made explicit.
pub open spec fn spelled_exponent(number: Decimal) -> Seq<char> {
    if number.coefficient == 0 || plain(number) {
        Seq::empty()
    } else {
        signed_decimal(point(number) - 1)
    }
}

/// The parts of the spelling of a reduced number are proper parts of a number
/// text.
proof fn spelled_parts(number: Decimal)
    requires
        number == reduced(number),
    ensures
        spelled_whole(number).len() > 0,
        all_digits(spelled_whole(number)),
        spelled_whole(number)[0] == '0' ==> spelled_whole(number).len() == 1,
        all_digits(spelled_fraction(number)),
        spelled_exponent(number).len() > 0 ==> signed_value(spelled_exponent(number)) is Some,
{
    let digits = decimal(number.coefficient);
    decimal_denotes(number.coefficient);
    reduced_is_reduced(number);
    signed_decimal_reads_back(point(number) - 1);
    assert forall|i: int| 0 <= i < spelled_whole(number).len() implies digit(
        #[trigger] spelled_whole(number)[i],
    ) by {
        if i < digits.len() {
            assert(digit(digits[i]));
        }
    }
    assert forall|i: int| 0 <= i < spelled_fraction(number).len() implies digit(
        #[trigger] spelled_fraction(number)[i],
    ) by {
        let p = point(number);
        if 1 <= p <= 21 {
            assert(digit(digits[i + p]));
        } else if plain(number) {
            if i >= -p {
                assert(digit(digits[i + p]));
            }
        } else {
            assert(digit(digits[i + 1]));
        }
    }
}

/// The exponent that is written in the spelling of a reduced number.
pub open spec fn written_exponent(number: Decimal) -> int {
    if number.coefficient == 0 || plain(number) {
        0
    } else {
        point(number) - 1
    }
}

/// The digits in the spelling of a reduced number, read with the written
/// exponent, denote it.
proof fn spelled_digits(number: Decimal)
    requires
        number == reduced(number),
    ensures
        ({
            let read = Decimal {
                negative: number.negative,
                coefficient: digits_value(spelled_whole(number) + spelled_fraction(number)),
                exponent: written_exponent(number) - spelled_fraction(number).len(),
            };
            &&& reduced(read) == number
            &&& read.exponent == number.exponent || read.exponent == 0
        }),
{
    let digits = decimal(number.coefficient);
    let p = point(number);
    let both = spelled_whole(number) + spelled_fraction(number);
    reduced_is_reduced(number);
    decimal_denotes(number.coefficient);
    if number.coefficient == 0 {
        assert(both =~= decimal(0));
    } else if 1 <= p <= 21 {
        if p >= digits.len() {
            assert(both =~= digits + zeros(p - digits.len()));
            trailing_zeros_scale(digits, p - digits.len());
            reduced_scaled(Decimal { exponent: 0, ..number }, number.exponent as nat);
        } else {
            assert(both =~= digits);
        }
    } else if plain(number) {
        assert(both =~= zeros(1 - p) + digits);
        leading_zeros_add_nothing(1 - p, digits);
    } else {
        assert(both =~= digits);
    }
}

/// The spelling of a reduced number is a number text that denotes it.
pub proof fn spelled_reads_back(number: Decimal)
    requires
        number == reduced(number),
    ensures
        is_number(spelled(number)),
        reduced(denoted(spelled(number))) == number,
        denoted(spelled(number)).exponent == number.exponent || denoted(
            spelled(number),
        ).exponent == 0,
        exponent_value(spelled(number)) == written_exponent(number),
{
    spelled_parts(number);
    spelled_digits(number);
    signed_decimal_reads_back(point(number) - 1);
    let exponent = if number.coefficient == 0 || plain(number) {
        Seq::empty()
    } else if point(number) >= 1 {
        seq!['+'] + signed_decimal(point(number) - 1)
    } else {
        signed_decimal(point(number) - 1)
    };
    composed_is_number(number.negative, spelled_whole(number), spelled_fraction(number), exponent);
    reduced_is_reduced(number);
}

/// A number text whose exponent, if it has one, is written with `e` and an
/// explicit sign.
pub open spec fn explicit_exponent(text: Seq<char>) -> Seq<char> {
    let end = parts(text).fraction;
    if end == text.len() {
        text
    } else if text[end + 1] == '+' || text[end + 1] == '-' {
        text.take(end) + seq!['e'] + text.skip(end + 1)
    } else {
        text.take(end) + seq!['e', '+'] + text.skip(end + 1)
    }
}

/// `serde_json::Number::from_str`, with arbitrary precision, and the text of the
/// number that it gives. It accepts exactly the number texts of JSON. An integer
/// goes through a machine integer where it fits in one, which changes nothing
/// since there are no leading zeros to lose and `-0` is kept apart; any other
/// number is kept letter by letter, except that its exponent is given an
/// explicit sign behind a small `e`.
#[verifier::external_body]
fn parse_number(text: &str) -> (number: Option<String>)
    ensures
        number matches Some(number) ==> is_number(text@) && number@ == explicit_exponent(text@),
        number is None ==> !is_number(text@),
{
    text.parse::<serde_json::Number>().ok().map(|number| number.to_string())
}

/// The error for a number whose exponent leaves the range that is handled.
pub open spec fn exponent_fault() -> Fault {
    row_fault("Jev JSON number exponent is out of range"@)
}

/// Whether a number text can be given its one spelling: its exponent and, unless
/// it is zero, the exponent of its last digit and the place of its point fit in
/// 64 bits.
pub open spec fn has_spelling(text: Seq<char>) -> bool {
    &&& is_number(text)
    &&& i64::MIN <= exponent_value(text) <= i64::MAX
    &&& denoted(text).coefficient > 0 ==> {
        &&& i64::MIN <= denoted(text).exponent
        &&& point(reduced(denoted(text))) <= i64::MAX
    }
}

/// The one spelling of the value that a number text denotes.
pub open spec fn spelling(text: Seq<char>) -> Seq<char> {
    spelled(reduced(denoted(text)))
}

/// The end of the run of digits that starts at a place.
fn run_end(chars: &Vec<char>, from: usize) -> (end: usize)
    requires
        from <= chars.len(),
    ensures
        end == digits_end(chars@, from as int),
        from <= end <= chars.len(),
{
    let mut end = from;
    while end < chars.len() && is_digit(chars[end])
        invariant
            from <= end <= chars.len(),
            digits_end(chars@, from as int) == digits_end(chars@, end as int),
        decreases chars.len() - end,
    {
        end = end + 1;
    }
    end
}

/// The places at which the parts of a number text end.
struct Ends {
    sign: usize,
    whole: usize,
    fraction: usize,
}

/// Finds the parts of a text, where it is a number.
fn scan_number(chars: &Vec<char>) -> (ends: Option<Ends>)
    ensures
        ends is Some == is_number(chars@),
        ends matches Some(ends) ==> {
            &&& ends.sign == parts(chars@).sign
            &&& ends.whole == parts(chars@).whole
            &&& ends.fraction == parts(chars@).fraction
            &&& ends.sign < ends.whole <= ends.fraction <= chars.len()
            &&& ends.fraction < chars.len() ==> ends.fraction + 1 < chars.len()
        },
{
    let sign: usize = if chars.len() > 0 && chars[0] == '-' { 1 } else { 0 };
    let whole = run_end(chars, sign);
    let fraction = if whole < chars.len() && chars[whole] == '.' {
        run_end(chars, whole + 1)
    } else {
        whole
    };
    if whole == sign || (chars[sign] == '0' && whole - sign > 1) || fraction - whole == 1 {
        return None;
    }
    if fraction < chars.len() {
        if chars[fraction] != 'e' && chars[fraction] != 'E' {
            return None;
        }
        let mut digits = fraction + 1;
        if digits < chars.len() && (chars[digits] == '+' || chars[digits] == '-') {
            digits = digits + 1;
        }
        if digits >= chars.len() || run_end(chars, digits) != chars.len() {
            return None;
        }
    }
    Some(Ends { sign, whole, fraction })
}

/// A part of some characters.
fn part(chars: &Vec<char>, from: usize, to: usize) -> (result: Vec<char>)
    requires
        from <= to <= chars.len(),
    ensures
        result@ == chars@.subrange(from as int, to as int),
{
    let mut result: Vec<char> = Vec::new();
    for at in from..to
        invariant
            from <= to <= chars.len(),
            result@ == chars@.subrange(from as int, at as int),
    {
        result.push(chars[at]);
        assert(chars@.subrange(from as int, at as int + 1) =~= chars@.subrange(
            from as int,
            at as int,
        ).push(chars@[at as int]));
    }
    result
}

/// The exponent of a number text is an integer.
proof fn exponent_is_integer(text: Seq<char>)
    requires
        is_number(text),
        parts(text).fraction < text.len(),
    ensures
        signed_value(text.skip(parts(text).fraction + 1)) is Some,
{
    let end = parts(text).fraction;
    digits_end_bounds(text, parts(text).sign);
    if parts(text).fraction != parts(text).whole {
        digits_end_bounds(text, parts(text).whole + 1);
    }
    let rest = text.skip(end + 1);
    let signed = end + 1 < text.len() && (text[end + 1] == '+' || text[end + 1] == '-');
    let from = if signed { end + 2 } else { end + 1 };
    let digits = if signed { rest.skip(1) } else { rest.skip(0) };
    assert(rest[0] == text[end + 1]);
    digits_end_bounds(text, from);
    assert forall|i: int| 0 <= i < digits.len() implies digit(#[trigger] digits[i]) by {
        assert(digits[i] == text[from + i]);
        assert(digit(text[from + i]));
    }
}

/// The digits of a number text are digits.
proof fn parts_are_digits(text: Seq<char>)
    requires
        is_number(text),
    ensures
        all_digits(whole_digits(text)),
        all_digits(fraction_digits(text)),
{
    let ends = parts(text);
    digits_end_bounds(text, ends.sign);
    assert forall|i: int| 0 <= i < whole_digits(text).len() implies digit(
        #[trigger] whole_digits(text)[i],
    ) by {
        assert(digit(text[ends.sign + i]));
    }
    if ends.fraction > ends.whole {
        digits_end_bounds(text, ends.whole + 1);
        assert forall|i: int| 0 <= i < fraction_digits(text).len() implies digit(
            #[trigger] fraction_digits(text)[i],
        ) by {
            assert(digit(text[ends.whole + 1 + i]));
        }
    }
}

/// A number text made of its parts.
fn compose(negative: bool, whole: &Vec<char>, fraction: &Vec<char>, exponent: &str) -> (text:
    String)
    ensures
        text@ == composed(negative, whole@, fraction@, exponent@),
{
    let mut text = String::new();
    if negative {
        text.push('-');
    }
    push_all(&mut text, whole);
    if fraction.len() > 0 {
        text.push('.');
        push_all(&mut text, fraction);
    }
    if !exponent.is_empty() {
        text.push('e');
        text.append(exponent);
    }
    assert(text@ =~= composed(negative, whole@, fraction@, exponent@));
    text
}

/// Puts some characters at the end of a text.
fn push_all(text: &mut String, chars: &Vec<char>)
    ensures
        final(text)@ == old(text)@ + chars@,
{
    for at in 0..chars.len()
        invariant
            text@ == old(text)@ + chars@.take(at as int),
    {
        text.push(chars[at]);
        assert(old(text)@ + chars@.take(at as int + 1) =~= (old(text)@ + chars@.take(
            at as int,
        )).push(chars@[at as int]));
    }
    assert(chars@.take(chars@.len() as int) =~= chars@);
    assert(old(text)@ + chars@.take(0) =~= old(text)@);
}

/// A row of zeros, then some digits, then a row of zeros.
fn padded(before: usize, digits: &Vec<char>, after: usize) -> (result: Vec<char>)
    requires
        before <= 21,
        after <= 21,
    ensures
        result@ == zeros(before as int) + digits@ + zeros(after as int),
{
    let mut result: Vec<char> = Vec::new();
    for at in 0..before
        invariant
            result@ == zeros(at as int),
    {
        result.push('0');
        assert(result@ =~= zeros(at as int + 1));
    }
    for at in 0..digits.len()
        invariant
            result@ == zeros(before as int) + digits@.take(at as int),
    {
        result.push(digits[at]);
        assert(result@ =~= zeros(before as int) + digits@.take(at as int + 1));
    }
    for at in 0..after
        invariant
            result@ == zeros(before as int) + digits@ + zeros(at as int),
    {
        result.push('0');
        assert(result@ =~= zeros(before as int) + digits@ + zeros(at as int + 1));
    }
    result
}

/// The significant digits of a run of digits: those that remain when zeros are
/// taken from both ends, and how many stood behind them.
fn significant(digits: &Vec<char>) -> (result: (Vec<char>, usize))
    requires
        all_digits(digits@),
    ensures
        ({
            let value = digits_value(digits@);
            &&& value == 0 ==> result.0@.len() == 0
            &&& value > 0 ==> {
                &&& result.0@.len() > 0
                &&& digits_value(result.0@) > 0
                &&& digits_value(result.0@) % 10 != 0
                &&& decimal(digits_value(result.0@)) == result.0@
                &&& value == digits_value(result.0@) * pow(10, result.1 as nat)
            }
        }),
{
    let mut start: usize = 0;
    while start < digits.len() && digits[start] == '0'
        invariant
            start <= digits.len(),
            forall|i: int| 0 <= i < start ==> digits@[i] == '0',
        decreases digits.len() - start,
    {
        start = start + 1;
    }
    let ghost rest = digits@.skip(start as int);
    proof {
        assert(digits@ =~= zeros(start as int) + rest);
        leading_zeros_add_nothing(start as int, rest);
        assert forall|i: int| 0 <= i < rest.len() implies digit(#[trigger] rest[i]) by {
            assert(digit(digits@[start + i]));
        }
    }
    if start == digits.len() {
        assert(rest =~= Seq::<char>::empty());
        return (Vec::new(), 0);
    }
    let mut end: usize = digits.len();
    while digits[end - 1] == '0'
        invariant
            start < end <= digits.len(),
            digits@[start as int] != '0',
            forall|i: int| end <= i < digits.len() ==> digits@[i] == '0',
        decreases end,
    {
        end = end - 1;
    }
    let result = part(digits, start, end);
    proof {
        let count = digits.len() - end;
        assert(rest =~= result@ + zeros(count));
        trailing_zeros_scale(result@, count);
        assert forall|i: int| 0 <= i < result@.len() implies digit(#[trigger] result@[i]) by {
            assert(digit(digits@[start + i]));
        }
        decimal_of_digits(result@);
        assert(digit(result@.last()));
        assert(digits_value(result@) * pow(10, count as nat) > 0) by {
            reduced_scaled(
                Decimal { negative: false, coefficient: digits_value(result@), exponent: 0 },
                count as nat,
            );
        }
    }
    (result, digits.len() - end)
}

/// The spelling of a number that is not zero, from its significant digits and the
/// number of digits that stand before its point.
fn spell(negative: bool, kept: &Vec<char>, point: i64) -> (text: String)
    requires
        kept@.len() > 0,
        i64::MIN < point,
        digits_value(kept@) > 0,
        digits_value(kept@) % 10 != 0,
        decimal(digits_value(kept@)) == kept@,
    ensures
        text@ == spelled(
            Decimal {
                negative,
                coefficient: digits_value(kept@),
                exponent: point - kept@.len(),
            },
        ),
{
    let ghost number = Decimal {
        negative,
        coefficient: digits_value(kept@),
        exponent: point - kept@.len(),
    };
    let mut whole: Vec<char> = Vec::new();
    let mut fraction: Vec<char> = Vec::new();
    let mut scale = String::new();
    if 1 <= point && point <= 21 {
        if point as usize >= kept.len() {
            whole = padded(0, kept, point as usize - kept.len());
        } else {
            whole = part(kept, 0, point as usize);
            fraction = part(kept, point as usize, kept.len());
        }
    } else if -5 <= point && point <= 0 {
        whole.push('0');
        fraction = padded((-point) as usize, kept, 0);
    } else {
        whole = part(kept, 0, 1);
        fraction = part(kept, 1, kept.len());
        scale = signed_decimal_text(point - 1);
    }
    let draft = compose(negative, &whole, &fraction, scale.as_str());
    proof {
        assert(whole@ =~= spelled_whole(number));
        assert(fraction@ =~= spelled_fraction(number));
        assert(scale@ =~= spelled_exponent(number));
        spelled_parts(number);
        composed_is_number(negative, whole@, fraction@, scale@);
        explicit_exponent_of_spelled(number);
    }
    match parse_number(draft.as_str()) {
        Some(text) => text,
        None => draft,
    }
}

/// The digits of a number text, before and behind the point.
fn all_digits_of(chars: &Vec<char>, ends: &Ends) -> (digits: Vec<char>)
    requires
        is_number(chars@),
        ends.sign == parts(chars@).sign,
        ends.whole == parts(chars@).whole,
        ends.fraction == parts(chars@).fraction,
        ends.sign < ends.whole <= ends.fraction <= chars.len(),
    ensures
        digits@ == whole_digits(chars@) + fraction_digits(chars@),
        all_digits(digits@),
{
    let mut digits = part(chars, ends.sign, ends.whole);
    if ends.fraction > ends.whole {
        let mut fraction = part(chars, ends.whole + 1, ends.fraction);
        digits.append(&mut fraction);
    }
    proof {
        parts_are_digits(chars@);
        assert(digits@ =~= whole_digits(chars@) + fraction_digits(chars@));
        let count = whole_digits(chars@).len() as int;
        assert forall|i: int| 0 <= i < digits@.len() implies digit(#[trigger] digits@[i]) by {
            if i < count {
                assert(digit(whole_digits(chars@)[i]));
            } else {
                assert(digit(fraction_digits(chars@)[i - count]));
            }
        }
    }
    digits
}

/// The exponent of a number text, where it fits in 64 bits.
fn exponent_of(chars: &Vec<char>, ends: &Ends) -> (exponent: Option<i64>)
    requires
        is_number(chars@),
        ends.fraction == parts(chars@).fraction,
        ends.fraction <= chars.len(),
    ensures
        exponent == (if i64::MIN <= exponent_value(chars@) <= i64::MAX {
            Some(exponent_value(chars@) as i64)
        } else {
            None
        }),
{
    if ends.fraction < chars.len() {
        let rest = part(chars, ends.fraction + 1, chars.len());
        proof {
            assert(rest@ =~= chars@.skip(ends.fraction + 1));
            exponent_is_integer(chars@);
        }
        read_signed(&rest)
    } else {
        Some(0)
    }
}

/// Gives a number its one spelling. The digits are moved as they stand: going
/// through a binary floating-point number would round large integers and
/// decimals before a request or its cache key is made.
pub fn canonical_number(text: &str) -> (result: Result<String, JevError>)
    ensures
        match result {
            Ok(number) => has_spelling(text@) && number@ == spelling(text@),
            Err(error) => !has_spelling(text@) && error@ == exponent_fault(),
        },
{
    let chars = chars_of(text);
    let ends = match scan_number(&chars) {
        Some(ends) => ends,
        None => {
            return Err(JevError::execution("Jev JSON number exponent is out of range"));
        },
    };
    let exponent: i64 = match exponent_of(&chars, &ends) {
        Some(exponent) => exponent,
        None => {
            return Err(JevError::execution("Jev JSON number exponent is out of range"));
        },
    };
    let negative = chars[0] == '-';
    let fraction: usize = if ends.fraction > ends.whole { ends.fraction - ends.whole - 1 } else { 0 };
    let digits = all_digits_of(&chars, &ends);
    let (kept, dropped) = significant(&digits);
    if kept.len() == 0 {
        let zero = "0".to_owned();
        proof {
            reveal_strlit("0");
            assert(zero@ =~= spelling(text@));
        }
        return Ok(zero);
    }
    let ghost value = denoted(text@);
    let ghost number = Decimal {
        negative,
        coefficient: digits_value(kept@),
        exponent: value.exponent + dropped,
    };
    proof {
        reduced_scaled(Decimal { exponent: value.exponent, ..number }, dropped as nat);
        assert(reduced(value) == number);
    }
    let last: i128 = exponent as i128 - fraction as i128;
    let point: i128 = last + dropped as i128 + kept.len() as i128;
    if last < i64::MIN as i128 || point > i64::MAX as i128 {
        return Err(JevError::execution("Jev JSON number exponent is out of range"));
    }
    Ok(spell(negative, &kept, point as i64))
}

/// Making the sign of the exponent explicit changes only the exponent.
proof fn explicit_exponent_of_composed(
    negative: bool,
    whole: Seq<char>,
    fraction: Seq<char>,
    exponent: Seq<char>,
)
    requires
        whole.len() > 0,
        all_digits(whole),
        whole[0] == '0' ==> whole.len() == 1,
        all_digits(fraction),
        exponent.len() > 0,
        signed_value(exponent) is Some,
    ensures
        explicit_exponent(composed(negative, whole, fraction, exponent)) == composed(
            negative,
            whole,
            fraction,
            if exponent[0] == '+' || exponent[0] == '-' {
                exponent
            } else {
                seq!['+'] + exponent
            },
        ),
{
    composed_is_number(negative, whole, fraction, exponent);
    let text = composed(negative, whole, fraction, exponent);
    let end = parts(text).fraction;
    let start = composed(negative, whole, fraction, Seq::empty());
    let signed = if exponent[0] == '+' || exponent[0] == '-' {
        exponent
    } else {
        seq!['+'] + exponent
    };
    assert(text.skip(end + 1)[0] == text[end + 1]);
    assert(explicit_exponent(text) =~= start + seq!['e'] + signed);
    assert(composed(negative, whole, fraction, signed) =~= start + seq!['e'] + signed);
}

/// Making the sign of the exponent explicit completes the spelling of a reduced
/// number.
proof fn explicit_exponent_of_spelled(number: Decimal)
    requires
        number == reduced(number),
    ensures
        explicit_exponent(
            composed(
                number.negative,
                spelled_whole(number),
                spelled_fraction(number),
                spelled_exponent(number),
            ),
        ) == spelled(number),
{
    let whole = spelled_whole(number);
    let fraction = spelled_fraction(number);
    let exponent = spelled_exponent(number);
    spelled_parts(number);
    if exponent.len() > 0 {
        explicit_exponent_of_composed(number.negative, whole, fraction, exponent);
        if point(number) >= 1 {
            decimal_denotes((point(number) - 1) as nat);
            assert(digit(exponent[0]));
        }
    } else {
        signed_decimal_reads_back(point(number) - 1);
        composed_is_number(number.negative, whole, fraction, exponent);
    }
}

/// Number texts that denote the same value have the same spelling, and those
/// with the same spelling denote the same value.
pub proof fn one_spelling_per_value(first: Seq<char>, second: Seq<char>)
    requires
        has_spelling(first),
        has_spelling(second),
    ensures
        same_value(denoted(first), denoted(second)) <==> spelling(first) == spelling(second),
{
    same_value_iff_same_reduced(denoted(first), denoted(second));
    reduced_is_reduced(denoted(first));
    reduced_is_reduced(denoted(second));
    spelled_reads_back(reduced(denoted(first)));
    spelled_reads_back(reduced(denoted(second)));
}

/// The spelling of a number text is a number text for the same value, every
/// digit of it included, and is its own spelling.
pub proof fn spelling_keeps_value(text: Seq<char>)
    requires
        has_spelling(text),
    ensures
        has_spelling(spelling(text)),
        same_value(denoted(spelling(text)), denoted(text)),
        spelling(spelling(text)) == spelling(text),
{
    let number = reduced(denoted(text));
    reduced_is_reduced(denoted(text));
    spelled_reads_back(number);
    same_value_iff_same_reduced(denoted(spelling(text)), denoted(text));
}

} // verus!
