//! What becomes of an answer, told by the members of the response and of the value.
use vstd::prelude::*;

use crate::answers::{
    all_probabilities, answer_in, answered, choice_of, double_bits, double_text, judged, labelled,
    numbers_in, probability, score_of,
};
use crate::json::{collected, collected_sorted, lookup, member, Json, Members};
use crate::json_laws::{
    holds, members_are_told_by_name, names_find_their_member, ordered_members_are_found,
    put_members_are_found, stands_at,
};
use crate::parse::received;

verus! {

/// Whether a number is at least zero and at most one, as a binary floating-point number of 64
/// bits: the bits of such numbers go up from those of zero to those of one, and negative zero
/// is zero.
pub open spec fn in_unit(number: Seq<char>) -> bool {
    double_bits(number) matches Some(bits) && (bits <= 0x3FF0_0000_0000_0000u64 || bits
        == 0x8000_0000_0000_0000u64)
}

/// Whether a value is the binary floating-point number that is nearest to a number, or null
/// where that is not finite.
pub open spec fn stands_for(value: Json, number: Seq<char>) -> bool {
    match double_text(number) {
        Some(text) => value == Json::Number(text),
        None => value is Null,
    }
}

/// Whether some members are all numbers from zero to one.
pub open spec fn all_in_unit(fields: Members) -> bool {
    forall|i: int|
        0 <= i < fields.len() ==> ((#[trigger] fields[i]).1 matches Json::Number(number)
            && in_unit(number))
}

/// Whether some members are all numbers.
pub open spec fn all_numbers(fields: Members) -> bool {
    forall|i: int| 0 <= i < fields.len() ==> (#[trigger] fields[i]).1 is Number
}

/// Whether a value holds each of some numbers under its name and in its place, and nothing
/// else.
pub open spec fn same_numbers(value: Json, numbers: Members) -> bool {
    value matches Json::Object(fields) && fields.len() == numbers.len() && forall|i: int|
        0 <= i < numbers.len() ==> (#[trigger] fields[i]).0 == numbers[i].0 && (
        numbers[i].1 matches Json::Number(number) && stands_for(fields[i].1, number))
}

/// Whether a response answers the one question that a function asks.
pub open spec fn answers_with(response: Json, answer: Json) -> bool {
    exists|answers: Json|
        #[trigger] holds(response, "answers"@, answers) && holds(answers, "q0"@, answer)
}

/// How many members an object has.
pub open spec fn size(value: Json) -> int {
    match value {
        Json::Object(fields) => fields.len() as int,
        _ => 0,
    }
}

/// The answer to the one question is found by its names.
proof fn the_answer_is_found(response: Json, answer: Json)
    requires
        answers_with(response, answer),
    ensures
        answer_in(response) == answer,
{
    let answers = choose|answers: Json|
        #[trigger] holds(response, "answers"@, answers) && holds(answers, "q0"@, answer);
    members_are_told_by_name(response, "answers"@);
    members_are_told_by_name(answers, "q0"@);
}

/// Numbers are read as they stand.
proof fn numbers_are_read(fields: Members)
    ensures
        numbers_in(fields) is Some <==> all_numbers(fields),
        numbers_in(fields) matches Some(numbers) ==> numbers.len() == fields.len() && forall|
            i: int,
        |
            0 <= i < fields.len() ==> (#[trigger] numbers[i]).0 == fields[i].0 && fields[i].1
                == Json::Number(numbers[i].1),
    decreases fields.len(),
{
    if fields.len() > 0 {
        let rest = fields.drop_last();
        numbers_are_read(rest);
        if all_numbers(fields) {
            assert(fields[fields.len() - 1].1 is Number);
            assert forall|i: int| 0 <= i < rest.len() implies (#[trigger] rest[i]).1 is Number by {
                assert(fields[i].1 is Number);
            }
        }
        if numbers_in(fields) is Some {
            assert forall|i: int| 0 <= i < fields.len() implies (
            #[trigger] fields[i]).1 is Number by {
                if i < rest.len() {
                    assert(rest[i].1 is Number);
                }
            }
        }
    }
}

/// A probability is handed out as the number that the server gave, and any other answer to a
/// yes-or-no question is refused for its row.
pub proof fn nouls_are_told(response: Json, answer: Json)
    requires
        answers_with(response, answer),
    ensures
        forall|number: Seq<char>| #[trigger]
            holds(answer, "noul"@, Json::Number(number)) && in_unit(number) ==> (judged(
                "noul"@,
                response,
            ) matches Ok(value) && stands_for(value, number)),
        judged("noul"@, response) is Ok ==> exists|number: Seq<char>|
            #[trigger] holds(answer, "noul"@, Json::Number(number)) && in_unit(number),
{
    the_answer_is_found(response, answer);
    members_are_told_by_name(answer, "noul"@);
}

/// Whether an answer gives a score, a confidence and the probabilities of the levels, under
/// their names or, as a list, in that order.
pub open spec fn scores(
    answer: Json,
    score: Seq<char>,
    confidence: Seq<char>,
    levels: Members,
) -> bool {
    match answer {
        Json::Array(items) => items == seq![
            Json::Number(score),
            Json::Number(confidence),
            Json::Object(levels),
        ],
        _ => holds(answer, "score"@, Json::Number(score)) && holds(
            answer,
            "confidence"@,
            Json::Number(confidence),
        ) && holds(answer, "probabilities"@, Json::Object(levels)),
    }
}

/// A score is handed out with the numbers that the server gave: its score, its confidence and
/// every one of its probabilities, each under its own name, and nothing besides.
pub proof fn scores_are_told(
    response: Json,
    answer: Json,
    score: Seq<char>,
    confidence: Seq<char>,
    levels: Members,
)
    requires
        answers_with(response, answer),
        scores(answer, score, confidence, levels),
        all_numbers(levels),
    ensures
        judged("score"@, response) is Ok <==> in_unit(confidence) && all_in_unit(levels),
        judged("score"@, response) matches Ok(value) ==> {
            &&& size(value) == 3
            &&& exists|inner: Json| #[trigger]
                holds(value, "score"@, inner) && stands_for(inner, score)
            &&& exists|inner: Json| #[trigger]
                holds(value, "confidence"@, inner) && stands_for(inner, confidence)
            &&& exists|inner: Json| #[trigger]
                holds(value, "probabilities"@, inner) && same_numbers(inner, levels)
        },
{
    the_answer_is_found(response, answer);
    names_differ();
    numbers_are_read(levels);
    if let Json::Object(fields) = answer {
        names_find_their_member(fields, "score"@);
        names_find_their_member(fields, "confidence"@);
        names_find_their_member(fields, "probabilities"@);
    }
    let numbers = numbers_in(levels).unwrap();
    assert(score_of(answer) matches Ok(read) && read.score == score && read.confidence
        == confidence && read.probabilities == numbers);
    in_unit_alike(levels);
    if let Ok(value) = judged("score"@, response) {
        let fields = value->Object_0;
        assert(stands_at(fields, 2, "score"@, fields[2].1));
        assert(stands_at(fields, 0, "confidence"@, fields[0].1));
        assert(stands_at(fields, 1, "probabilities"@, fields[1].1));
        assert(holds(value, "score"@, fields[2].1));
        assert(holds(value, "confidence"@, fields[0].1));
        assert(holds(value, "probabilities"@, fields[1].1));
        assert(same_numbers(fields[1].1, levels));
    }
}

/// The names of a value's members are different names.
proof fn names_differ()
    ensures
        "score"@ != "confidence"@,
        "score"@ != "probabilities"@,
        "score"@ != "label"@,
        "confidence"@ != "probabilities"@,
        "confidence"@ != "label"@,
        "probabilities"@ != "label"@,
        "choice"@ != "noul"@,
        "choice"@ != "label"@,
        "score"@ != "choice"@,
        "score"@ != "noul"@,
        "ask"@ != "noul"@,
        "ask"@ != "choice"@,
        "ask"@ != "score"@,
{
    reveal_strlit("score");
    reveal_strlit("confidence");
    reveal_strlit("probabilities");
    reveal_strlit("label");
    reveal_strlit("choice");
    reveal_strlit("noul");
    reveal_strlit("ask");
    assert("score"@.len() == 5 && "label"@.len() == 5);
    assert("confidence"@.len() == 10 && "probabilities"@.len() == 13);
    assert("choice"@.len() == 6 && "noul"@.len() == 4 && "ask"@.len() == 3);
    assert("label"@[0] == 'l' && "score"@[0] == 's');
}

/// Members that are probabilities read as probabilities.
proof fn in_unit_alike(levels: Members)
    requires
        all_numbers(levels),
    ensures
        all_probabilities(numbers_in(levels).unwrap()) <==> all_in_unit(levels),
{
    numbers_are_read(levels);
    let numbers = numbers_in(levels).unwrap();
    if all_in_unit(levels) {
        assert forall|i: int| 0 <= i < numbers.len() implies probability(
            (#[trigger] numbers[i]).1,
        ) by {
            assert(levels[i].1 is Number);
        }
    }
    if all_probabilities(numbers) {
        assert forall|i: int| 0 <= i < levels.len() implies ((
        #[trigger] levels[i]).1 matches Json::Number(number) && in_unit(number)) by {
            assert(probability(numbers[i].1));
        }
    }
}

/// A choice is handed out with what the server gave: the chosen label, its confidence and
/// every one of its probabilities, each under its own name, and nothing besides. A label that
/// the server gives under another name does not count.
pub proof fn choices_are_told(
    response: Json,
    answer: Json,
    label: Seq<char>,
    confidence: Seq<char>,
    options: Members,
)
    requires
        answers_with(response, answer),
        holds(answer, "choice"@, Json::Text(label)),
        holds(answer, "confidence"@, Json::Number(confidence)),
        holds(answer, "probabilities"@, Json::Object(options)),
        all_numbers(options),
    ensures
        judged("choice"@, response) is Ok <==> in_unit(confidence) && all_in_unit(options),
        judged("choice"@, response) matches Ok(value) ==> {
            &&& size(value) == 3
            &&& holds(value, "label"@, Json::Text(label))
            &&& exists|inner: Json| #[trigger]
                holds(value, "confidence"@, inner) && stands_for(inner, confidence)
            &&& exists|inner: Json| #[trigger]
                holds(value, "probabilities"@, inner) && same_numbers(inner, options)
        },
{
    the_answer_is_found(response, answer);
    names_differ();
    numbers_are_read(options);
    let fields = answer->Object_0;
    names_find_their_member(fields, "choice"@);
    names_find_their_member(fields, "confidence"@);
    names_find_their_member(fields, "probabilities"@);
    labels_are_put(fields, "confidence"@);
    labels_are_put(fields, "probabilities"@);
    labels_are_put(fields, "label"@);
    let numbers = numbers_in(options).unwrap();
    assert(choice_of(labelled(fields)) matches Ok(read) && read.label == label
        && read.confidence == confidence && read.probabilities == numbers);
    in_unit_alike(options);
    if let Ok(value) = judged("choice"@, response) {
        let made = value->Object_0;
        assert(stands_at(made, 1, "label"@, made[1].1));
        assert(stands_at(made, 0, "confidence"@, made[0].1));
        assert(stands_at(made, 2, "probabilities"@, made[2].1));
        assert(holds(value, "label"@, made[1].1));
        assert(holds(value, "confidence"@, made[0].1));
        assert(holds(value, "probabilities"@, made[2].1));
        assert(same_numbers(made[2].1, options));
    }
}

/// The choice takes the place of a label, and other members stay.
proof fn labels_are_put(fields: Members, name: Seq<char>)
    ensures
        lookup(labelled(fields), name) == if name == "label"@ {
            match lookup(fields, "choice"@) {
                Some(label) => Some(label),
                None => Some(Json::Null),
            }
        } else {
            lookup(fields, name)
        },
{
    collected_sorted(fields);
    ordered_members_are_found(fields, name);
    let label = match lookup(fields, "choice"@) {
        Some(label) => label,
        None => Json::Null,
    };
    put_members_are_found(collected(fields), "label"@, label, name);
}

/// A score or a choice is owed all its members: an answer that lacks one, or gives something
/// else under its name, is refused.
pub proof fn partial_answers_are_refused(response: Json, answer: Json, name: Seq<char>)
    requires
        answers_with(response, answer),
        answer is Object,
    ensures
        name == "confidence"@ && (forall|number: Seq<char>|
            !(#[trigger] holds(answer, name, Json::Number(number)))) ==> judged("score"@, response)
            is Err && judged("choice"@, response) is Err,
        name == "probabilities"@ && (forall|levels: Members|
            !(#[trigger] holds(answer, name, Json::Object(levels)))) ==> judged("score"@, response)
            is Err && judged("choice"@, response) is Err,
        name == "score"@ && (forall|number: Seq<char>|
            !(#[trigger] holds(answer, name, Json::Number(number)))) ==> judged("score"@, response)
            is Err,
        name == "choice"@ && (forall|label: Seq<char>|
            !(#[trigger] holds(answer, name, Json::Text(label)))) ==> judged("choice"@, response)
            is Err,
{
    the_answer_is_found(response, answer);
    names_differ();
    let fields = answer->Object_0;
    names_find_their_member(fields, name);
    labels_are_put(fields, "confidence"@);
    labels_are_put(fields, "probabilities"@);
    labels_are_put(fields, "label"@);
    if let Some(inner) = lookup(fields, name) {
        assert(holds(answer, name, inner));
    }
}

/// A refused answer concerns its row alone: it is never an error that ends a query.
pub proof fn refused_answers_concern_their_row(function: Seq<char>, raw: Seq<char>)
    ensures
        answered(function, raw) matches Err(fault) ==> fault.kind is Execution,
        received(raw) is None && function != "ask"@ ==> answered(function, raw) is Err,
        function != "ask"@ ==> (received(raw) matches Some(response) ==> answered(function, raw)
            == judged(function, response)),
{
}

/// An answer to several questions is handed out letter for letter, whatever it says.
pub proof fn several_answers_are_handed_out(raw: Seq<char>)
    ensures
        answered("ask"@, raw) matches Ok(value) && value == Json::Text(raw),
{
}

/// A response without an answer to the question is refused.
pub proof fn unanswered_questions_are_refused(response: Json, function: Seq<char>)
    requires
        function == "noul"@ || function == "choice"@ || function == "score"@,
        forall|answer: Json| !(#[trigger] answers_with(response, answer)),
    ensures
        judged(function, response) is Err,
{
    names_differ();
    members_are_told_by_name(response, "answers"@);
    let answers = member(response, "answers"@);
    members_are_told_by_name(answers, "q0"@);
    let answer = member(answers, "q0"@);
    if !(answer is Null) {
        assert(answers is Object);
        assert(holds(response, "answers"@, answers));
        assert(answers_with(response, answer));
    }
    assert(lookup(Seq::<(Seq<char>, Json)>::empty(), "noul"@) is None);
}

/// A score that is given as a list has exactly three parts: two numbers and an object of
/// numbers. A choice is never given as a list, and neither is given as anything simpler.
pub proof fn listed_scores_have_three_parts(response: Json, answer: Json)
    requires
        answers_with(response, answer),
        !(answer is Object),
    ensures
        judged("choice"@, response) is Err,
        judged("score"@, response) is Ok ==> (answer matches Json::Array(items) && items.len() == 3
            && items[0] is Number && items[1] is Number && (items[2] matches Json::Object(levels)
            && all_in_unit(levels))),
{
    the_answer_is_found(response, answer);
    names_differ();
    if let Json::Array(items) = answer {
        if items.len() == 3 {
            if let Json::Object(levels) = items[2] {
                numbers_are_read(levels);
                if all_numbers(levels) {
                    in_unit_alike(levels);
                }
            }
        }
    }
}

/// Probabilities that are not all numbers are refused.
pub proof fn other_probabilities_are_refused(response: Json, answer: Json, levels: Members)
    requires
        answers_with(response, answer),
        holds(answer, "probabilities"@, Json::Object(levels)),
        !all_numbers(levels),
    ensures
        judged("score"@, response) is Err,
        judged("choice"@, response) is Err,
{
    the_answer_is_found(response, answer);
    names_differ();
    numbers_are_read(levels);
    let fields = answer->Object_0;
    names_find_their_member(fields, "probabilities"@);
    labels_are_put(fields, "probabilities"@);
}

} // verus!
