//! Answers of a server as the values of the SQL functions.
use vstd::prelude::*;

use crate::contract::{JevChoiceResult, JevScoreResult};
use crate::errors::{row_fault, Fault, JevError};
use crate::json::{
    collected, container_views, fields_view, find_member, items_view, lookup, member, put_member,
    sorted_copy, with_field, Json, JsonValue, Members, Named,
};
use crate::parse::{parse_value, received};
use crate::text::{join2, join3, same};

verus! {

/// The bits of one, as a binary floating-point number of 64 bits.
pub const ONE: u64 = 0x3FF0_0000_0000_0000;

/// The bits of negative zero, as a binary floating-point number of 64 bits.
pub const NEGATIVE_ZERO: u64 = 0x8000_0000_0000_0000;

/// The bits of infinity, as a binary floating-point number of 64 bits.
pub const INFINITY: u64 = 0x7FF0_0000_0000_0000;

/// The bits of the binary floating-point number that is nearest to a JSON number;
/// none where that is not finite.
pub uninterp spec fn double_bits(number: Seq<char>) -> Option<u64>;

/// `serde_json::Number::as_f64` on the number that a text denotes, as the bits of
/// the result, which is finite.
#[verifier::external_body]
pub(crate) fn read_double(number: &str) -> (bits: Option<u64>)
    ensures
        bits == double_bits(number@),
        bits matches Some(bits) ==> bits < INFINITY || NEGATIVE_ZERO <= bits < NEGATIVE_ZERO
            + INFINITY,
{
    number.parse::<serde_json::Number>().ok()?.as_f64().map(|value| value.to_bits())
}

/// The JSON number text of the binary floating-point number that is nearest to a
/// JSON number; none where that is not finite.
pub uninterp spec fn double_text(number: Seq<char>) -> Option<Seq<char>>;

/// `serde_json::Number::from_f64` on what `as_f64` gives for the number that a
/// text denotes: there is such a text exactly where that is finite.
#[verifier::external_body]
pub(crate) fn write_double(number: &str) -> (text: Option<String>)
    ensures
        match (text, double_text(number@)) {
            (Some(text), Some(expected)) => text@ == expected,
            (None, None) => true,
            _ => false,
        },
        text is Some == double_bits(number@) is Some,
{
    let value = number.parse::<serde_json::Number>().ok()?.as_f64()?;
    serde_json::Number::from_f64(value).map(|number| number.to_string())
}

/// Whether a JSON number is a probability: its nearest binary floating-point
/// number lies from zero to one. Such numbers are ordered as their bits.
pub open spec fn probability(number: Seq<char>) -> bool {
    double_bits(number) matches Some(bits) && (bits <= ONE || bits == NEGATIVE_ZERO)
}

/// Whether a JSON number is a probability.
fn is_probability(number: &str) -> (yes: bool)
    ensures
        yes == probability(number@),
{
    match read_double(number) {
        Some(bits) => bits <= ONE || bits == NEGATIVE_ZERO,
        None => false,
    }
}

/// The error for a number that is no probability.
pub open spec fn probability_fault(what: Seq<char>) -> Fault {
    row_fault("Jev "@ + what + " is outside 0.0..=1.0"@)
}

/// Rejects a number that is no probability.
fn validate_probability(number: &str, what: &str) -> (result: Result<(), JevError>)
    ensures
        match result {
            Ok(_) => probability(number@),
            Err(error) => !probability(number@) && error@ == probability_fault(what@),
        },
{
    if is_probability(number) {
        Ok(())
    } else {
        Err(JevError::execution(join3("Jev ", what, " is outside 0.0..=1.0").as_str()))
    }
}

/// The JSON value of a number in an answer: the nearest binary floating-point
/// number, or `null` where that is not finite.
pub open spec fn number_json(number: Seq<char>) -> Json {
    match double_text(number) {
        Some(text) => Json::Number(text),
        None => Json::Null,
    }
}

/// The JSON value of a number in an answer.
fn number_value(number: &str) -> (value: JsonValue)
    ensures
        value@ == number_json(number@),
{
    match write_double(number) {
        Some(text) => JsonValue::Number(text),
        None => JsonValue::Null,
    }
}

/// Numbers by their names.
pub type Numbers = Named<Seq<char>>;

/// The numbers of a list.
pub open spec fn numbers_view(numbers: Seq<(String, String)>) -> Numbers {
    Seq::new(numbers.len(), |i: int| (numbers[i].0@, numbers[i].1@))
}

/// The numbers that members denote, where all of them are numbers.
pub open spec fn numbers_in(fields: Members) -> Option<Numbers>
    decreases fields.len(),
{
    if fields.len() == 0 {
        Some(Seq::empty())
    } else {
        match (numbers_in(fields.drop_last()), fields.last().1) {
            (Some(done), Json::Number(number)) => Some(done.push((fields.last().0, number))),
            _ => None,
        }
    }
}

/// The number that a value denotes.
pub open spec fn number_of(value: Json) -> Option<Seq<char>> {
    match value {
        Json::Number(number) => Some(number),
        _ => None,
    }
}

/// The numbers that an object denotes.
pub open spec fn numbers_of(value: Json) -> Option<Numbers> {
    match value {
        Json::Object(fields) => numbers_in(fields),
        _ => None,
    }
}

/// The text that a value denotes.
pub open spec fn text_of_json(value: Json) -> Option<Seq<char>> {
    match value {
        Json::Text(text) => Some(text),
        _ => None,
    }
}

/// If some of the first members are no numbers, not all members are.
proof fn numbers_in_none(fields: Members, count: int)
    requires
        0 <= count <= fields.len(),
        numbers_in(fields.take(count)) is None,
    ensures
        numbers_in(fields) is None,
    decreases fields.len() - count,
{
    if count < fields.len() {
        assert(fields.take(count + 1).drop_last() =~= fields.take(count));
        numbers_in_none(fields, count + 1);
    } else {
        assert(fields.take(count) =~= fields);
    }
}

/// Reads a number.
fn read_number(value: &JsonValue) -> (number: Option<String>)
    ensures
        match (number, number_of(value@)) {
            (Some(number), Some(expected)) => number@ == expected,
            (None, None) => true,
            _ => false,
        },
{
    match value {
        JsonValue::Number(number) => Some(number.clone()),
        _ => None,
    }
}

/// Reads numbers by their names.
fn read_numbers(value: &JsonValue) -> (numbers: Option<Vec<(String, String)>>)
    ensures
        match (numbers, numbers_of(value@)) {
            (Some(numbers), Some(expected)) => numbers_view(numbers@) == expected,
            (None, None) => true,
            _ => false,
        },
{
    broadcast use container_views;

    let fields = match value {
        JsonValue::Object(fields) => fields,
        _ => {
            return None;
        },
    };
    let ghost all = fields_view(fields@);
    let mut numbers: Vec<(String, String)> = Vec::new();
    assert(numbers_view(numbers@) =~= Seq::<(Seq<char>, Seq<char>)>::empty());
    for at in 0..fields.len()
        invariant
            all == fields_view(fields@),
            value@ == Json::Object(all),
            numbers_in(all.take(at as int)) == Some(numbers_view(numbers@)),
    {
        let ghost next = all.take(at as int + 1);
        let ghost before = numbers_view(numbers@);
        assert(next.drop_last() =~= all.take(at as int));
        match &fields[at].1 {
            JsonValue::Number(number) => {
                let ghost entry = (fields@[at as int].0@, number@);
                numbers.push((fields[at].0.clone(), number.clone()));
                assert(numbers_view(numbers@) =~= before.push(entry));
            },
            _ => {
                proof {
                    numbers_in_none(all, at as int + 1);
                }
                return None;
            },
        }
    }
    assert(all.take(all.len() as int) =~= all);
    Some(numbers)
}

/// The meaning of a [`JevChoiceResult`].
pub ghost struct Choice {
    pub label: Seq<char>,
    pub confidence: Seq<char>,
    pub probabilities: Numbers,
}

impl View for JevChoiceResult {
    type V = Choice;

    open spec fn view(&self) -> Choice {
        Choice {
            label: self.label@,
            confidence: self.confidence@,
            probabilities: numbers_view(self.probabilities@),
        }
    }
}

/// The meaning of a [`JevScoreResult`].
pub ghost struct Score {
    pub score: Seq<char>,
    pub confidence: Seq<char>,
    pub probabilities: Numbers,
}

impl View for JevScoreResult {
    type V = Score;

    open spec fn view(&self) -> Score {
        Score {
            score: self.score@,
            confidence: self.confidence@,
            probabilities: numbers_view(self.probabilities@),
        }
    }
}

/// The choice that members denote, or the name of the first field that is not what
/// it should be, in the order of names; a field that is missing comes last, as the
/// result as a whole.
pub open spec fn choice_of(fields: Members) -> Result<Choice, Seq<char>> {
    let confidence = lookup(fields, "confidence"@);
    let label = lookup(fields, "label"@);
    let probabilities = lookup(fields, "probabilities"@);
    if confidence matches Some(value) && number_of(value) is None {
        Err("confidence"@)
    } else if label matches Some(value) && text_of_json(value) is None {
        Err("label"@)
    } else if probabilities matches Some(value) && numbers_of(value) is None {
        Err("probabilities"@)
    } else {
        match (confidence, label, probabilities) {
            (Some(confidence), Some(label), Some(probabilities)) => Ok(
                Choice {
                    label: text_of_json(label).unwrap(),
                    confidence: number_of(confidence).unwrap(),
                    probabilities: numbers_of(probabilities).unwrap(),
                },
            ),
            _ => Err("result"@),
        }
    }
}

/// The score that a value denotes, or what is not as it should be: the first field
/// of an object in the order of names, or the first place of an array; a field that
/// is missing comes last, as the result as a whole.
pub open spec fn score_of(value: Json) -> Result<Score, Seq<char>> {
    match value {
        Json::Object(fields) => {
            let confidence = lookup(fields, "confidence"@);
            let probabilities = lookup(fields, "probabilities"@);
            let score = lookup(fields, "score"@);
            if confidence matches Some(value) && number_of(value) is None {
                Err("confidence"@)
            } else if probabilities matches Some(value) && numbers_of(value) is None {
                Err("probabilities"@)
            } else if score matches Some(value) && number_of(value) is None {
                Err("score"@)
            } else {
                match (score, confidence, probabilities) {
                    (Some(score), Some(confidence), Some(probabilities)) => Ok(
                        Score {
                            score: number_of(score).unwrap(),
                            confidence: number_of(confidence).unwrap(),
                            probabilities: numbers_of(probabilities).unwrap(),
                        },
                    ),
                    _ => Err("result"@),
                }
            }
        },
        Json::Array(items) => if items.len() >= 1 && number_of(items[0]) is None {
            Err("[0]"@)
        } else if items.len() >= 2 && number_of(items[1]) is None {
            Err("[1]"@)
        } else if items.len() >= 3 && numbers_of(items[2]) is None {
            Err("[2]"@)
        } else if items.len() != 3 {
            Err("result"@)
        } else {
            Ok(
                Score {
                    score: number_of(items[0]).unwrap(),
                    confidence: number_of(items[1]).unwrap(),
                    probabilities: numbers_of(items[2]).unwrap(),
                },
            )
        },
        _ => Err("result"@),
    }
}

/// A text, or what it should have been.
pub(crate) fn read_text(value: &JsonValue) -> (text: Option<String>)
    ensures
        match (text, text_of_json(value@)) {
            (Some(text), Some(expected)) => text@ == expected,
            (None, None) => true,
            _ => false,
        },
{
    match value {
        JsonValue::Text(text) => Some(text.clone()),
        _ => None,
    }
}

/// Reads a choice from the members of an answer.
fn read_choice(fields: &Vec<(String, JsonValue)>) -> (result: Result<JevChoiceResult, &'static str>)
    ensures
        match result {
            Ok(choice) => choice_of(fields_view(fields@)) == Ok::<_, Seq<char>>(choice@),
            Err(field) => choice_of(fields_view(fields@)) == Err::<Choice, _>(field@),
        },
{
    let confidence = match find_member(fields, "confidence") {
        Some(value) => match read_number(value) {
            Some(number) => Some(number),
            None => {
                return Err("confidence");
            },
        },
        None => None,
    };
    let label = match find_member(fields, "label") {
        Some(value) => match read_text(value) {
            Some(text) => Some(text),
            None => {
                return Err("label");
            },
        },
        None => None,
    };
    let probabilities = match find_member(fields, "probabilities") {
        Some(value) => match read_numbers(value) {
            Some(numbers) => Some(numbers),
            None => {
                return Err("probabilities");
            },
        },
        None => None,
    };
    match (confidence, label, probabilities) {
        (Some(confidence), Some(label), Some(probabilities)) => Ok(
            JevChoiceResult { label, confidence, probabilities },
        ),
        _ => Err("result"),
    }
}

/// Reads a score from an answer.
fn read_score(value: &JsonValue) -> (result: Result<JevScoreResult, &'static str>)
    ensures
        match result {
            Ok(score) => score_of(value@) == Ok::<_, Seq<char>>(score@),
            Err(field) => score_of(value@) == Err::<Score, _>(field@),
        },
{
    broadcast use container_views;

    match value {
        JsonValue::Object(fields) => {
            let confidence = match find_member(fields, "confidence") {
                Some(value) => match read_number(value) {
                    Some(number) => Some(number),
                    None => {
                        return Err("confidence");
                    },
                },
                None => None,
            };
            let probabilities = match find_member(fields, "probabilities") {
                Some(value) => match read_numbers(value) {
                    Some(numbers) => Some(numbers),
                    None => {
                        return Err("probabilities");
                    },
                },
                None => None,
            };
            let score = match find_member(fields, "score") {
                Some(value) => match read_number(value) {
                    Some(number) => Some(number),
                    None => {
                        return Err("score");
                    },
                },
                None => None,
            };
            match (score, confidence, probabilities) {
                (Some(score), Some(confidence), Some(probabilities)) => Ok(
                    JevScoreResult { score, confidence, probabilities },
                ),
                _ => Err("result"),
            }
        },
        JsonValue::Array(items) => {
            assert(forall|i: int|
                0 <= i < items@.len() ==> items_view(items@)[i] == (#[trigger] items@[i])@);
            if items.len() >= 1 && read_number(&items[0]).is_none() {
                return Err("[0]");
            }
            if items.len() >= 2 && read_number(&items[1]).is_none() {
                return Err("[1]");
            }
            if items.len() >= 3 && read_numbers(&items[2]).is_none() {
                return Err("[2]");
            }
            if items.len() != 3 {
                return Err("result");
            }
            match (read_number(&items[0]), read_number(&items[1]), read_numbers(&items[2])) {
                (Some(score), Some(confidence), Some(probabilities)) => Ok(
                    JevScoreResult { score, confidence, probabilities },
                ),
                _ => Err("result"),
            }
        },
        _ => Err("result"),
    }
}

/// Whether all numbers are probabilities.
pub open spec fn all_probabilities(numbers: Numbers) -> bool {
    forall|i: int| 0 <= i < numbers.len() ==> probability((#[trigger] numbers[i]).1)
}

/// What is wrong with the confidence and the probabilities of an answer.
pub open spec fn probabilities_fault(
    function: Seq<char>,
    confidence: Seq<char>,
    probabilities: Numbers,
) -> Option<Fault> {
    if !probability(confidence) {
        Some(probability_fault(function + " confidence"@))
    } else if !all_probabilities(probabilities) {
        Some(probability_fault(function + " probabilities"@))
    } else {
        None
    }
}

/// Rejects an answer whose confidence or probabilities are no probabilities.
fn validate_response_probabilities(
    function: &str,
    confidence: &str,
    probabilities: &Vec<(String, String)>,
) -> (result: Result<(), JevError>)
    ensures
        ({
            let found = probabilities_fault(
                function@,
                confidence@,
                numbers_view(probabilities@),
            );
            match result {
                Ok(_) => found is None,
                Err(error) => found == Some(error@),
            }
        }),
{
    let ghost all = numbers_view(probabilities@);
    if let Err(error) = validate_probability(confidence, join2(function, " confidence").as_str()) {
        return Err(error);
    }
    for at in 0..probabilities.len()
        invariant
            all == numbers_view(probabilities@),
            probability(confidence@),
            forall|i: int| 0 <= i < at ==> probability((#[trigger] all[i]).1),
    {
        assert(all[at as int].1 == probabilities@[at as int].1@);
        if let Err(error) = validate_probability(
            probabilities[at].1.as_str(),
            join2(function, " probabilities").as_str(),
        ) {
            return Err(error);
        }
    }
    Ok(())
}

/// The JSON values of numbers.
pub open spec fn numbers_json(numbers: Numbers) -> Members {
    Seq::new(numbers.len(), |i: int| (numbers[i].0, number_json(numbers[i].1)))
}

/// The JSON object of numbers.
fn numbers_value(numbers: &Vec<(String, String)>) -> (value: JsonValue)
    ensures
        value@ == Json::Object(numbers_json(numbers_view(numbers@))),
{
    broadcast use container_views;

    let mut fields: Vec<(String, JsonValue)> = Vec::new();
    for at in 0..numbers.len()
        invariant
            fields@.len() == at,
            forall|i: int|
                0 <= i < at ==> (#[trigger] fields@[i]).0@ == numbers@[i].0@ && fields@[i].1@
                    == number_json(numbers@[i].1@),
    {
        fields.push((numbers[at].0.clone(), number_value(numbers[at].1.as_str())));
    }
    assert(fields_view(fields@) =~= numbers_json(numbers_view(numbers@)));
    JsonValue::Object(fields)
}

/// The JSON value of a choice.
pub open spec fn choice_json(choice: Choice) -> Json {
    Json::Object(
        seq![
            ("confidence"@, number_json(choice.confidence)),
            ("label"@, Json::Text(choice.label)),
            ("probabilities"@, Json::Object(numbers_json(choice.probabilities))),
        ],
    )
}

/// The JSON value of a score.
pub open spec fn score_json(score: Score) -> Json {
    Json::Object(
        seq![
            ("confidence"@, number_json(score.confidence)),
            ("probabilities"@, Json::Object(numbers_json(score.probabilities))),
            ("score"@, number_json(score.score)),
        ],
    )
}

impl JevChoiceResult {
    /// The JSON value of the choice.
    pub fn to_json(&self) -> (value: JsonValue)
        ensures
            value@ == choice_json(self@),
    {
        broadcast use container_views;

        let mut fields: Vec<(String, JsonValue)> = Vec::new();
        fields.push(("confidence".to_owned(), number_value(self.confidence.as_str())));
        fields.push(("label".to_owned(), JsonValue::Text(self.label.clone())));
        fields.push(("probabilities".to_owned(), numbers_value(&self.probabilities)));
        let value = JsonValue::Object(fields);
        assert(value@->Object_0 =~= choice_json(self@)->Object_0);
        value
    }
}

impl JevScoreResult {
    /// The JSON value of the score.
    pub fn to_json(&self) -> (value: JsonValue)
        ensures
            value@ == score_json(self@),
    {
        broadcast use container_views;

        let mut fields: Vec<(String, JsonValue)> = Vec::new();
        fields.push(("confidence".to_owned(), number_value(self.confidence.as_str())));
        fields.push(("probabilities".to_owned(), numbers_value(&self.probabilities)));
        fields.push(("score".to_owned(), number_value(self.score.as_str())));
        let value = JsonValue::Object(fields);
        assert(value@->Object_0 =~= score_json(self@)->Object_0);
        value
    }
}

/// The error for a field of an answer that is not what it should be. Neither a
/// value nor a name that the user gave enters it.
pub open spec fn field_fault(function: Seq<char>, field: Seq<char>) -> Fault {
    row_fault("invalid Jev "@ + function + " response field "@ + field)
}

fn field_error(function: &str, field: &str) -> (error: JevError)
    ensures
        error@ == field_fault(function@, field@),
{
    let start = join3("invalid Jev ", function, " response field ");
    JevError::execution(join2(start.as_str(), field).as_str())
}

/// The answer to the only question of a request.
pub open spec fn answer_in(value: Json) -> Json {
    member(member(value, "answers"@), "q0"@)
}

/// The members of a choice answer with the chosen label under the name that the
/// result has for it.
pub open spec fn labelled(fields: Members) -> Members {
    with_field(
        collected(fields),
        "label"@,
        match lookup(fields, "choice"@) {
            Some(label) => label,
            None => Json::Null,
        },
    )
}

/// The value of a function for the JSON value of a response, or the error.
pub open spec fn judged(function: Seq<char>, response: Json) -> Result<Json, Fault> {
    let answer = answer_in(response);
    if function == "noul"@ {
        match number_of(member(answer, "noul"@)) {
            Some(number) if double_bits(number) is Some => if probability(number) {
                Ok(number_json(number))
            } else {
                Err(probability_fault("noul answer"@))
            },
            _ => Err(row_fault("Jev noul answer must be a probability from 0 to 1"@)),
        }
    } else if function == "choice"@ {
        match answer {
            Json::Object(fields) => match choice_of(labelled(fields)) {
                Err(field) => Err(field_fault(function, field)),
                Ok(choice) => match probabilities_fault(
                    function,
                    choice.confidence,
                    choice.probabilities,
                ) {
                    Some(fault) => Err(fault),
                    None => Ok(choice_json(choice)),
                },
            },
            _ => Err(row_fault("invalid Jev choice answer"@)),
        }
    } else {
        match score_of(answer) {
            Err(field) => Err(field_fault(function, field)),
            Ok(score) => match probabilities_fault(
                function,
                score.confidence,
                score.probabilities,
            ) {
                Some(fault) => Err(fault),
                None => Ok(score_json(score)),
            },
        }
    }
}

/// The members of a choice answer with the chosen label under the name that the
/// result has for it.
fn label_choice(fields: &Vec<(String, JsonValue)>) -> (labelled_fields: Vec<(String, JsonValue)>)
    ensures
        fields_view(labelled_fields@) == labelled(fields_view(fields@)),
{
    let mut result = sorted_copy(fields);
    let label = match find_member(fields, "choice") {
        Some(label) => label.copy(),
        None => JsonValue::Null,
    };
    put_member(&mut result, "label".to_owned(), label);
    result
}

/// The value of a function for the JSON value of a response.
pub fn judge(function: &str, response: &JsonValue) -> (result: Result<JsonValue, JevError>)
    ensures
        match result {
            Ok(value) => judged(function@, response@) == Ok::<_, Fault>(value@),
            Err(error) => judged(function@, response@) == Err::<Json, _>(error@),
        },
{
    broadcast use container_views;

    let answer = response.member("answers").member("q0");
    if same(function, "noul") {
        let number = match read_number(&answer.member("noul")) {
            Some(number) => number,
            None => {
                return Err(
                    JevError::execution("Jev noul answer must be a probability from 0 to 1"),
                );
            },
        };
        if read_double(number.as_str()).is_none() {
            return Err(JevError::execution("Jev noul answer must be a probability from 0 to 1"));
        }
        match validate_probability(number.as_str(), "noul answer") {
            Ok(_) => Ok(number_value(number.as_str())),
            Err(error) => Err(error),
        }
    } else if same(function, "choice") {
        let fields = match &answer {
            JsonValue::Object(fields) => label_choice(fields),
            _ => {
                return Err(JevError::execution("invalid Jev choice answer"));
            },
        };
        match read_choice(&fields) {
            Err(field) => Err(field_error(function, field)),
            Ok(choice) => match validate_response_probabilities(
                function,
                choice.confidence.as_str(),
                &choice.probabilities,
            ) {
                Ok(_) => Ok(choice.to_json()),
                Err(error) => Err(error),
            },
        }
    } else {
        match read_score(&answer) {
            Err(field) => Err(field_error(function, field)),
            Ok(score) => match validate_response_probabilities(
                function,
                score.confidence.as_str(),
                &score.probabilities,
            ) {
                Ok(_) => Ok(score.to_json()),
                Err(error) => Err(error),
            },
        }
    }
}

/// The error for a response that is no JSON.
pub open spec fn response_fault() -> Fault {
    row_fault("invalid Jev JSON value"@)
}

/// The value of a function for the text of a response, or the error. `ask` gives
/// the text as it is.
pub open spec fn answered(function: Seq<char>, raw: Seq<char>) -> Result<Json, Fault> {
    if function == "ask"@ {
        Ok(Json::Text(raw))
    } else {
        match received(raw) {
            None => Err(response_fault()),
            Some(response) => judged(function, response),
        }
    }
}

/// The value of a function for the text of a response.
pub fn response_value(function: &str, raw: &str) -> (result: Result<JsonValue, JevError>)
    ensures
        match result {
            Ok(value) => answered(function@, raw@) == Ok::<_, Fault>(value@),
            Err(error) => answered(function@, raw@) == Err::<Json, _>(error@),
        },
{
    if same(function, "ask") {
        return Ok(JsonValue::Text(raw.to_owned()));
    }
    match parse_value(raw) {
        None => Err(JevError::execution("invalid Jev JSON value")),
        Some(response) => judge(function, &response),
    }
}

/// Whether a value of a function holds only probabilities where it should.
pub open spec fn well_judged(function: Seq<char>, value: Json) -> bool {
    if function == "noul"@ {
        exists|number: Seq<char>| probability(number) && value == #[trigger] number_json(number)
    } else if function == "choice"@ {
        exists|choice: Choice|
            probability(choice.confidence) && all_probabilities(choice.probabilities) && value
                == #[trigger] choice_json(choice)
    } else {
        exists|score: Score|
            probability(score.confidence) && all_probabilities(score.probabilities) && value
                == #[trigger] score_json(score)
    }
}

/// A typed answer that is accepted holds only probabilities from zero to one, and
/// `ask` gives every response text as it is.
pub proof fn accepted_answers_hold_probabilities(function: Seq<char>, raw: Seq<char>)
    ensures
        function == "ask"@ ==> answered(function, raw) == Ok::<_, Fault>(Json::Text(raw)),
        function != "ask"@ && answered(function, raw) is Ok ==> well_judged(
            function,
            answered(function, raw)->Ok_0,
        ),
{
    if function != "ask"@ && answered(function, raw) is Ok {
        let answer = answer_in(received(raw)->0);
        let value = answered(function, raw)->Ok_0;
        if function == "noul"@ {
            let number = number_of(member(answer, "noul"@))->0;
            assert(value == number_json(number));
        } else if function == "choice"@ {
            let choice = choice_of(labelled(answer->Object_0))->Ok_0;
            assert(value == choice_json(choice));
        } else {
            let score = score_of(answer)->Ok_0;
            assert(value == score_json(score));
        }
    }
}

} // verus!
