//! Which questions a text asks and what is sent for them, told by members.
use vstd::prelude::*;

use crate::contract::{
    question_json, questions_json, request_json, JevQuestionType, Question, Request,
};
use crate::errors::{shown, Fault};
use crate::json::{lookup, Json, Members, Named};
use crate::json_laws::{holds, lacks, names_find_their_member, stands_at};
use crate::parse::parsed;
use crate::questions::{
    criteria_fault, criteria_fit, kind_of, question_of, questions_in, questions_text, request_of, unfit,
};

verus! {

/// Whether a value names a kind of question: by its name alone, or as an object whose one
/// member has that name and no value.
pub open spec fn names_kind(value: Json, kind: JevQuestionType) -> bool {
    let name = match kind {
        JevQuestionType::Noul => "noul"@,
        JevQuestionType::Choice => "choice"@,
        JevQuestionType::Score => "score"@,
    };
    match value {
        Json::Text(text) => text == name,
        Json::Object(fields) => fields == seq![(name, Json::Null)],
        _ => false,
    }
}

/// Whether a value says a question: its kind, its instructions and, where it has some, its
/// criteria, under their names or, as a list, in that order.
pub open spec fn says(value: Json, question: Question) -> bool {
    match value {
        Json::Object(fields) => {
            &&& exists|kind: Json| #[trigger]
                holds(value, "type"@, kind) && names_kind(kind, question.kind)
            &&& holds(value, "instructions"@, question.instructions)
            &&& match question.criteria {
                Some(criteria) => criteria !is Null && holds(value, "criteria"@, criteria),
                None => lacks(value, "criteria"@) || holds(value, "criteria"@, Json::Null),
            }
        },
        Json::Array(items) => {
            &&& 2 <= items.len() <= 3
            &&& names_kind(items[0], question.kind)
            &&& items[1] == question.instructions
            &&& match question.criteria {
                Some(criteria) => items.len() == 3 && items[2] == criteria && criteria !is Null,
                None => items.len() == 3 ==> items[2] is Null,
            }
        },
        _ => false,
    }
}

/// Whether criteria suit a kind of question: a probability may have a rubric for true and for
/// false; a choice has at least one label; a score has at least two levels.
pub open spec fn suits(kind: JevQuestionType, criteria: Option<Json>) -> bool {
    match kind {
        JevQuestionType::Noul => criteria matches Some(value) ==> (
        value matches Json::Object(fields) && forall|i: int|
            0 <= i < fields.len() ==> ((#[trigger] fields[i]).0 == "true"@ || fields[i].0
                == "false"@)),
        JevQuestionType::Choice => criteria matches Some(Json::Object(fields)) && fields.len()
            != 0,
        JevQuestionType::Score => criteria matches Some(Json::Array(items)) && items.len() > 1,
    }
}

/// Whether some members say some questions, each under its own name and in its own place.
pub open spec fn say_all(fields: Members, questions: Named<Question>) -> bool {
    &&& fields.len() == questions.len()
    &&& forall|i: int|
        0 <= i < questions.len() ==> (#[trigger] questions[i]).0 == fields[i].0 && says(
            fields[i].1,
            questions[i].1,
        )
}

/// The names of the parts are different names.
proof fn parts_differ()
    ensures
        "type"@ != "instructions"@,
        "type"@ != "criteria"@,
        "instructions"@ != "criteria"@,
        "noul"@ != "choice"@,
        "noul"@ != "score"@,
        "choice"@ != "score"@,
        "model"@ != "questions"@,
        "model"@ != "state"@,
        "questions"@ != "state"@,
{
    reveal_strlit("type");
    reveal_strlit("instructions");
    reveal_strlit("criteria");
    reveal_strlit("noul");
    reveal_strlit("choice");
    reveal_strlit("score");
    reveal_strlit("model");
    reveal_strlit("questions");
    reveal_strlit("state");
    assert("type"@.len() == 4 && "instructions"@.len() == 12 && "criteria"@.len() == 8);
    assert("noul"@.len() == 4 && "choice"@.len() == 6 && "score"@.len() == 5);
    assert("model"@.len() == 5 && "questions"@.len() == 9 && "state"@.len() == 5);
    assert("model"@[0] == 'm' && "state"@[0] == 's');
}

/// A value is read as the question that it says.
pub proof fn questions_are_read_as_said(value: Json, question: Question)
    ensures
        question_of(value) == Some(question) <==> says(value, question),
{
    parts_differ();
    match value {
        Json::Object(fields) => {
            names_find_their_member(fields, "type"@);
            names_find_their_member(fields, "instructions"@);
            names_find_their_member(fields, "criteria"@);
            if let Some(kind) = lookup(fields, "type"@) {
                kinds_are_read_as_named(kind, question.kind);
                assert(holds(value, "type"@, kind));
            }
            if let Some(instructions) = lookup(fields, "instructions"@) {
                assert(holds(value, "instructions"@, instructions));
            }
            if let Some(criteria) = lookup(fields, "criteria"@) {
                assert(holds(value, "criteria"@, criteria));
            }
            if says(value, question) {
                let kind = choose|kind: Json| #[trigger]
                    holds(value, "type"@, kind) && names_kind(kind, question.kind);
                assert(lookup(fields, "type"@) == Some(kind));
                assert(lookup(fields, "instructions"@) == Some(question.instructions));
                kinds_are_read_as_named(kind, question.kind);
                assert(question_of(value) == Some(question));
            }
        },
        Json::Array(items) => {
            if 2 <= items.len() <= 3 {
                kinds_are_read_as_named(items[0], question.kind);
            }
        },
        _ => {},
    }
}

/// A value is read as the kind that it names.
proof fn kinds_are_read_as_named(value: Json, kind: JevQuestionType)
    ensures
        kind_of(value) == Some(kind) <==> names_kind(value, kind),
{
    parts_differ();
    if let Json::Object(fields) = value {
        if fields.len() == 1 {
            assert(fields =~= seq![fields[0]]);
            assert(fields[0] == (fields[0].0, fields[0].1));
        }
    }
}

/// Members are read as the questions that they say, all of them and in their places.
proof fn all_are_read_as_said(fields: Members, questions: Named<Question>)
    ensures
        questions_in(fields) == Some(questions) <==> say_all(fields, questions),
    decreases fields.len(),
{
    if fields.len() == 0 {
        if say_all(fields, questions) {
            assert(questions =~= Seq::empty());
        }
    } else {
        let rest = fields.drop_last();
        if questions.len() > 0 {
            let before = questions.drop_last();
            let last = questions.last();
            all_are_read_as_said(rest, before);
            questions_are_read_as_said(fields.last().1, last.1);
            if say_all(fields, questions) {
                assert(questions[questions.len() - 1].0 == fields[fields.len() - 1].0);
                assert forall|i: int| 0 <= i < before.len() implies (#[trigger] before[i]).0
                    == rest[i].0 && says(rest[i].1, before[i].1) by {
                    assert(questions[i].0 == fields[i].0);
                }
                assert(last == (fields.last().0, last.1));
                assert(questions =~= before.push(last));
            }
            if questions_in(fields) == Some(questions) {
                let done = questions_in(rest).unwrap();
                let made = done.push((fields.last().0, question_of(fields.last().1).unwrap()));
                assert(questions == made);
                assert(before =~= done);
                assert(last == made.last());
                assert forall|i: int| 0 <= i < questions.len() implies (#[trigger] questions[i]).0
                    == fields[i].0 && says(fields[i].1, questions[i].1) by {
                    if i < before.len() {
                        assert(before[i].0 == rest[i].0);
                    }
                }
            }
        }
    }
}

/// Criteria suit where they fit.
proof fn fitting_suits(question: Question)
    ensures
        criteria_fit(question.kind.text(), question.criteria) <==> suits(
            question.kind,
            question.criteria,
        ),
{
    parts_differ();
}

/// Questions are accepted where the criteria of each suit its kind.
proof fn all_suit(questions: Named<Question>)
    ensures
        unfit(questions) is None <==> forall|i: int|
            0 <= i < questions.len() ==> suits(
                (#[trigger] questions[i]).1.kind,
                questions[i].1.criteria,
            ),
    decreases questions.len(),
{
    if questions.len() > 0 {
        let rest = questions.drop_last();
        all_suit(rest);
        fitting_suits(questions.last().1);
        if forall|i: int|
            0 <= i < questions.len() ==> suits(
                (#[trigger] questions[i]).1.kind,
                questions[i].1.criteria,
            ) {
            assert(suits(
                questions[questions.len() - 1].1.kind,
                questions[questions.len() - 1].1.criteria,
            ));
            assert forall|i: int| 0 <= i < rest.len() implies suits(
                (#[trigger] rest[i]).1.kind,
                rest[i].1.criteria,
            ) by {
                assert(questions[i] == rest[i]);
            }
        }
        if unfit(questions) is None {
            assert forall|i: int| 0 <= i < questions.len() implies suits(
                (#[trigger] questions[i]).1.kind,
                questions[i].1.criteria,
            ) by {
                if i < rest.len() {
                    assert(rest[i] == questions[i]);
                }
            }
        }
    }
}

/// A text asks exactly the questions of the object that it holds: as many, under the same
/// names, in the same order, each with its own kind, instructions and criteria. It is accepted
/// exactly where it holds at least one question, nothing but questions, and criteria that suit
/// each.
pub proof fn every_question_is_asked(text: Seq<char>, questions: Named<Question>)
    ensures
        questions_text(text) == Ok::<_, Fault>(questions) <==> {
            &&& parsed(text) matches Ok(Json::Object(fields)) && say_all(fields, questions)
            &&& questions.len() > 0
            &&& forall|i: int|
                0 <= i < questions.len() ==> suits(
                    (#[trigger] questions[i]).1.kind,
                    questions[i].1.criteria,
                )
        },
{
    if let Ok(Json::Object(fields)) = parsed(text) {
        all_are_read_as_said(fields, questions);
        all_suit(questions);
    }
}

/// A text that is refused concerns its row alone.
pub proof fn refused_questions_concern_their_row(text: Seq<char>)
    ensures
        questions_text(text) matches Err(fault) ==> fault.kind is Execution,
{
    if let Ok(Json::Object(fields)) = parsed(text) {
        if let Some(questions) = questions_in(fields) {
            refusals_concern_their_row(questions);
        }
    }
}

/// Unfit criteria concern their row alone.
proof fn refusals_concern_their_row(questions: Named<Question>)
    ensures
        unfit(questions) matches Some(fault) ==> fault.kind is Execution,
    decreases questions.len(),
{
    if questions.len() > 0 {
        refusals_concern_their_row(questions.drop_last());
    }
}

/// What is sent of a question: its kind by name, its instructions, and its criteria where it
/// has some; nothing besides.
pub proof fn questions_are_sent_whole(question: Question)
    ensures
        ({
            let value = question_json(question);
            &&& value matches Json::Object(fields) && fields.len() == (
            if question.criteria is Some {
                3int
            } else {
                2
            })
            &&& holds(
                value,
                "type"@,
                Json::Text(
                    match question.kind {
                        JevQuestionType::Noul => "noul"@,
                        JevQuestionType::Choice => "choice"@,
                        JevQuestionType::Score => "score"@,
                    },
                ),
            )
            &&& holds(value, "instructions"@, question.instructions)
            &&& match question.criteria {
                Some(criteria) => holds(value, "criteria"@, criteria),
                None => lacks(value, "criteria"@),
            }
        }),
{
    parts_differ();
    let value = question_json(question);
    let fields = value->Object_0;
    match question.criteria {
        Some(criteria) => {
            assert(stands_at(fields, 0, "criteria"@, criteria));
            assert(stands_at(fields, 1, "instructions"@, question.instructions));
            assert(stands_at(fields, 2, "type"@, fields[2].1));
        },
        None => {
            assert(stands_at(fields, 0, "instructions"@, question.instructions));
            assert(stands_at(fields, 1, "type"@, fields[1].1));
        },
    }
}

/// What is sent of a request: its model, its state as it is, and every one of its questions
/// under its own name; nothing besides.
pub proof fn requests_are_sent_whole(request: Request)
    ensures
        ({
            let value = request_json(request);
            &&& value matches Json::Object(fields) && fields.len() == 3
            &&& holds(value, "model"@, Json::Text(request.model))
            &&& holds(value, "state"@, request.state)
            &&& exists|questions: Json| #[trigger]
                holds(value, "questions"@, questions) && (questions matches Json::Object(asked)
                    && asked.len() == request.questions.len() && forall|i: int|
                    0 <= i < asked.len() ==> (#[trigger] asked[i]).0 == request.questions[i].0
                        && asked[i].1 == question_json(request.questions[i].1))
        }),
{
    parts_differ();
    let value = request_json(request);
    let fields = value->Object_0;
    assert(stands_at(fields, 0, "model"@, Json::Text(request.model)));
    assert(stands_at(fields, 1, "questions"@, Json::Object(questions_json(request.questions))));
    assert(stands_at(fields, 2, "state"@, request.state));
    assert(holds(value, "questions"@, Json::Object(questions_json(request.questions))));
}

/// A request is read as what its value holds: its state, its model and the questions, under
/// their names or, as a list, in that order.
pub proof fn requests_are_read_as_said(value: Json, request: Request)
    ensures
        request_of(value) == Some(request) <==> match value {
            Json::Object(_) => holds(value, "state"@, request.state) && holds(
                value,
                "model"@,
                Json::Text(request.model),
            ) && exists|asked: Members| #[trigger]
                holds(value, "questions"@, Json::Object(asked)) && say_all(
                    asked,
                    request.questions,
                ),
            Json::Array(items) => items.len() == 3 && items[0] == request.state && (
            items[1] matches Json::Object(asked) && say_all(asked, request.questions))
                && items[2] == Json::Text(request.model),
            _ => false,
        },
{
    parts_differ();
    match value {
        Json::Object(fields) => {
            names_find_their_member(fields, "state"@);
            names_find_their_member(fields, "questions"@);
            names_find_their_member(fields, "model"@);
            if let Some(Json::Object(asked)) = lookup(fields, "questions"@) {
                all_are_read_as_said(asked, request.questions);
                assert(holds(value, "questions"@, Json::Object(asked)));
            }
        },
        Json::Array(items) => {
            if items.len() == 3 {
                if let Json::Object(asked) = items[1] {
                    all_are_read_as_said(asked, request.questions);
                }
            }
        },
        _ => {},
    }
}

/// The first question whose criteria do not suit it is the one that a text is refused for.
pub proof fn the_first_unsuitable_question_is_told(
    text: Seq<char>,
    questions: Named<Question>,
    at: int,
)
    requires
        parsed(text) matches Ok(Json::Object(fields)) && say_all(fields, questions),
        0 <= at < questions.len(),
        !suits(questions[at].1.kind, questions[at].1.criteria),
        forall|i: int|
            0 <= i < at ==> suits((#[trigger] questions[i]).1.kind, questions[i].1.criteria),
    ensures
        questions_text(text) == Err::<Named<Question>, _>(
            criteria_fault(
                match questions[at].1.kind {
                    JevQuestionType::Noul => "noul"@,
                    JevQuestionType::Choice => "choice"@,
                    JevQuestionType::Score => "score"@,
                },
            ),
        ),
{
    if let Ok(Json::Object(fields)) = parsed(text) {
        all_are_read_as_said(fields, questions);
        first_unfit(questions, at);
    }
}

/// The first question that does not fit is found.
proof fn first_unfit(questions: Named<Question>, at: int)
    requires
        0 <= at < questions.len(),
        !suits(questions[at].1.kind, questions[at].1.criteria),
        forall|i: int|
            0 <= i < at ==> suits((#[trigger] questions[i]).1.kind, questions[i].1.criteria),
    ensures
        unfit(questions) == Some(criteria_fault(questions[at].1.kind.text())),
    decreases questions.len(),
{
    let rest = questions.drop_last();
    assert forall|i: int| 0 <= i < at implies suits(
        (#[trigger] rest[i]).1.kind,
        rest[i].1.criteria,
    ) by {
        assert(rest[i] == questions[i]);
    }
    if at < rest.len() {
        assert(rest[at] == questions[at]);
        first_unfit(rest, at);
    } else {
        all_suit(rest);
        fitting_suits(questions.last().1);
        assert(questions.last() == questions[at]);
    }
}

/// What is said of a text that asks no questions.
pub proof fn empty_questions_are_told(text: Seq<char>)
    ensures
        parsed(text) matches Ok(value) ==> (!(value is Object) ==> (questions_text(
            text,
        ) matches Err(fault) && fault.message
            == "ask questions must be a JSON map of typed questions"@)),
        parsed(text) matches Ok(value) ==> (value == Json::Object(Seq::empty()) ==> (
        questions_text(text) matches Err(fault) && fault.message
            == "ask questions cannot be empty"@)),
        parsed(text) matches Err(reason) ==> (questions_text(text) matches Err(fault)
            && fault.message == "ask questions must be valid JSON: "@ + shown(reason)),
{
}

} // verus!
