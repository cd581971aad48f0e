//! Questions and their criteria, as they are written in JSON.
use vstd::prelude::*;

use crate::contract::{
    question_json, questions_json, questions_view, request_json, JevQuestion, JevQuestionType,
    JevRequest, Question, Request,
};
use crate::errors::{row_fault, shown, Fault, JevError};
use crate::json::{
    container_views, fields_view, find_member, lookup, Json, JsonValue, Members, Named,
};
use crate::parse::{parse_json_value, parsed};
use crate::text::{join2, same};

verus! {

/// The question type with a name.
pub open spec fn kind_named(name: Seq<char>) -> Option<JevQuestionType> {
    if name == "noul"@ {
        Some(JevQuestionType::Noul)
    } else if name == "choice"@ {
        Some(JevQuestionType::Choice)
    } else if name == "score"@ {
        Some(JevQuestionType::Score)
    } else {
        None
    }
}

impl JevQuestionType {
    /// The question type with a name.
    pub fn from_name(name: &str) -> (kind: Option<JevQuestionType>)
        ensures
            kind == kind_named(name@),
    {
        if same(name, "noul") {
            Some(JevQuestionType::Noul)
        } else if same(name, "choice") {
            Some(JevQuestionType::Choice)
        } else if same(name, "score") {
            Some(JevQuestionType::Score)
        } else {
            None
        }
    }
}

/// The question type that a JSON value denotes: its name, or an object with that
/// name and `null`.
pub open spec fn kind_of(value: Json) -> Option<JevQuestionType> {
    match value {
        Json::Text(name) => kind_named(name),
        Json::Object(fields) => if fields.len() == 1 && fields[0].1 is Null {
            kind_named(fields[0].0)
        } else {
            None
        },
        _ => None,
    }
}

/// The criteria that a JSON value denotes; `null` denotes none.
pub open spec fn criteria_of(value: Option<Json>) -> Option<Json> {
    match value {
        Some(Json::Null) => None,
        _ => value,
    }
}

/// The question that a JSON value denotes: an object with a type, instructions
/// and optionally criteria, other members ignored, or an array of the same in
/// that order.
pub open spec fn question_of(value: Json) -> Option<Question> {
    match value {
        Json::Object(fields) => match (lookup(fields, "type"@), lookup(fields, "instructions"@)) {
            (Some(kind), Some(instructions)) => match kind_of(kind) {
                Some(kind) => Some(
                    Question {
                        kind,
                        instructions,
                        criteria: criteria_of(lookup(fields, "criteria"@)),
                    },
                ),
                None => None,
            },
            _ => None,
        },
        Json::Array(items) => if items.len() == 2 || items.len() == 3 {
            match kind_of(items[0]) {
                Some(kind) => Some(
                    Question {
                        kind,
                        instructions: items[1],
                        criteria: if items.len() == 3 {
                            criteria_of(Some(items[2]))
                        } else {
                            None
                        },
                    },
                ),
                None => None,
            }
        } else {
            None
        },
        _ => None,
    }
}

/// The question type that a JSON value denotes.
fn read_kind(value: &JsonValue) -> (kind: Option<JevQuestionType>)
    ensures
        kind == kind_of(value@),
{
    broadcast use container_views;

    match value {
        JsonValue::Text(name) => JevQuestionType::from_name(name.as_str()),
        JsonValue::Object(fields) => if fields.len() == 1 {
            assert(fields_view(fields@)[0] == (fields@[0].0@, fields@[0].1@));
            match &fields[0].1 {
                JsonValue::Null => JevQuestionType::from_name(fields[0].0.as_str()),
                _ => None,
            }
        } else {
            None
        },
        _ => None,
    }
}

/// The criteria that a JSON value denotes.
fn read_criteria(value: Option<&JsonValue>) -> (criteria: Option<JsonValue>)
    ensures
        ({
            let given = match value {
                Some(value) => Some(value@),
                None => None,
            };
            match (criteria, criteria_of(given)) {
                (Some(criteria), Some(expected)) => criteria@ == expected,
                (None, None) => true,
                _ => false,
            }
        }),
{
    match value {
        None | Some(JsonValue::Null) => None,
        Some(value) => Some(value.copy()),
    }
}

impl JevQuestion {
    /// Reads a question from its JSON value.
    pub fn from_json(value: &JsonValue) -> (question: Option<JevQuestion>)
        ensures
            match (question, question_of(value@)) {
                (Some(question), Some(expected)) => question@ == expected,
                (None, None) => true,
                _ => false,
            },
    {
        broadcast use container_views;

        match value {
            JsonValue::Object(fields) => match (
                find_member(fields, "type"),
                find_member(fields, "instructions"),
            ) {
                (Some(kind), Some(instructions)) => match read_kind(kind) {
                    Some(kind) => Some(
                        JevQuestion {
                            kind,
                            instructions: instructions.copy(),
                            criteria: read_criteria(find_member(fields, "criteria")),
                        },
                    ),
                    None => None,
                },
                _ => None,
            },
            JsonValue::Array(items) => if items.len() == 2 || items.len() == 3 {
                match read_kind(&items[0]) {
                    Some(kind) => Some(
                        JevQuestion {
                            kind,
                            instructions: items[1].copy(),
                            criteria: if items.len() == 3 {
                                read_criteria(Some(&items[2]))
                            } else {
                                None
                            },
                        },
                    ),
                    None => None,
                }
            } else {
                None
            },
            _ => None,
        }
    }
}

/// The questions that the members of an object denote, where all of them do.
pub open spec fn questions_in(fields: Members) -> Option<Named<Question>>
    decreases fields.len(),
{
    if fields.len() == 0 {
        Some(Seq::empty())
    } else {
        match (questions_in(fields.drop_last()), question_of(fields.last().1)) {
            (Some(done), Some(question)) => Some(done.push((fields.last().0, question))),
            _ => None,
        }
    }
}

/// If some of the first members denote no question, not all members do.
proof fn questions_in_none(fields: Members, count: int)
    requires
        0 <= count <= fields.len(),
        questions_in(fields.take(count)) is None,
    ensures
        questions_in(fields) is None,
    decreases fields.len() - count,
{
    if count < fields.len() {
        assert(fields.take(count + 1).drop_last() =~= fields.take(count));
        questions_in_none(fields, count + 1);
    } else {
        assert(fields.take(count) =~= fields);
    }
}

/// Reads questions from the members of an object.
fn read_questions(fields: &Vec<(String, JsonValue)>) -> (questions: Option<
    Vec<(String, JevQuestion)>,
>)
    ensures
        match (questions, questions_in(fields_view(fields@))) {
            (Some(questions), Some(expected)) => questions_view(questions@) == expected,
            (None, None) => true,
            _ => false,
        },
{
    let ghost all = fields_view(fields@);
    let mut questions: Vec<(String, JevQuestion)> = Vec::new();
    assert(questions_view(questions@) =~= Seq::<(Seq<char>, Question)>::empty());
    for at in 0..fields.len()
        invariant
            all == fields_view(fields@),
            questions_in(all.take(at as int)) == Some(questions_view(questions@)),
    {
        let ghost next = all.take(at as int + 1);
        let ghost before = questions_view(questions@);
        assert(next.drop_last() =~= all.take(at as int));
        match JevQuestion::from_json(&fields[at].1) {
            Some(question) => {
                let ghost entry = (fields@[at as int].0@, question@);
                questions.push((fields[at].0.clone(), question));
                assert(questions_view(questions@) =~= before.push(entry));
            },
            None => {
                proof {
                    questions_in_none(all, at as int + 1);
                }
                return None;
            },
        }
    }
    assert(all.take(all.len() as int) =~= all);
    Some(questions)
}

/// The request that a JSON value denotes: an object with a state, questions and a
/// model, other members ignored, or an array of the same in that order.
pub open spec fn request_of(value: Json) -> Option<Request> {
    let parts = match value {
        Json::Object(fields) => match (
            lookup(fields, "state"@),
            lookup(fields, "questions"@),
            lookup(fields, "model"@),
        ) {
            (Some(state), Some(questions), Some(model)) => Some((state, questions, model)),
            _ => None,
        },
        Json::Array(items) if items.len() == 3 => Some((items[0], items[1], items[2])),
        _ => None,
    };
    match parts {
        Some((state, Json::Object(fields), Json::Text(model))) => match questions_in(fields) {
            Some(questions) => Some(Request { state, questions, model }),
            None => None,
        },
        _ => None,
    }
}

impl JevRequest {
    /// Reads a request from its JSON value.
    pub fn from_json(value: &JsonValue) -> (request: Option<JevRequest>)
        ensures
            match (request, request_of(value@)) {
                (Some(request), Some(expected)) => request@ == expected,
                (None, None) => true,
                _ => false,
            },
    {
        broadcast use container_views;

        let parts = match value {
            JsonValue::Object(fields) => match (
                find_member(fields, "state"),
                find_member(fields, "questions"),
                find_member(fields, "model"),
            ) {
                (Some(state), Some(questions), Some(model)) => Some((state, questions, model)),
                _ => None,
            },
            JsonValue::Array(items) if items.len() == 3 => Some((&items[0], &items[1], &items[2])),
            _ => None,
        };
        match parts {
            Some((state, JsonValue::Object(fields), JsonValue::Text(model))) => match read_questions(
                fields,
            ) {
                Some(questions) => Some(
                    JevRequest { state: state.copy(), questions, model: model.clone() },
                ),
                None => None,
            },
            _ => None,
        }
    }
}

/// The names of the question types differ from each other, and each denotes its
/// type.
proof fn kind_names()
    ensures
        forall|kind: JevQuestionType| kind_named(#[trigger] kind.text()) == Some(kind),
{
    reveal_strlit("noul");
    reveal_strlit("choice");
    reveal_strlit("score");
    assert("noul"@[0] != "choice"@[0]);
    assert("noul"@[0] != "score"@[0]);
    assert("choice"@[0] != "score"@[0]);
}

/// A question reads back from its JSON value, unless its criteria are `null`,
/// which denotes none.
pub proof fn question_reads_back(question: Question)
    requires
        question.criteria != Some(Json::Null),
    ensures
        question_of(question_json(question)) == Some(question),
{
    reveal_strlit("criteria");
    reveal_strlit("instructions");
    reveal_strlit("type");
    kind_names();
    assert("criteria"@[0] != "instructions"@[0]);
    assert("criteria"@[0] != "type"@[0]);
    assert("instructions"@[0] != "type"@[0]);
    reveal_with_fuel(lookup, 4);
    let fields = question_json(question)->Object_0;
    if question.criteria is Some {
        assert(fields.drop_last() =~= fields.take(2));
        assert(fields.take(2).drop_last() =~= fields.take(1));
        assert(fields.take(1).drop_last() =~= Seq::empty());
    } else {
        assert(fields.drop_last() =~= fields.take(1));
        assert(fields.take(1).drop_last() =~= Seq::empty());
    }
}

/// Questions read back from their JSON values.
proof fn questions_read_back(questions: Named<Question>)
    requires
        forall|i: int|
            0 <= i < questions.len() ==> (#[trigger] questions[i]).1.criteria != Some(Json::Null),
    ensures
        questions_in(questions_json(questions)) == Some(questions),
    decreases questions.len(),
{
    let all = questions_json(questions);
    if questions.len() > 0 {
        let rest = questions.drop_last();
        assert forall|i: int| 0 <= i < rest.len() implies (#[trigger] rest[i]).1.criteria != Some(
            Json::Null,
        ) by {
            assert(rest[i] == questions[i]);
        }
        questions_read_back(rest);
        assert(all.drop_last() =~= questions_json(rest));
        assert(questions[questions.len() - 1].1.criteria != Some(Json::Null));
        question_reads_back(questions.last().1);
        assert(rest.push(questions.last()) =~= questions);
    } else {
        assert(questions =~= Seq::empty());
    }
}

/// A request reads back from its JSON value, unless some criteria are `null`,
/// which denotes none.
pub proof fn request_reads_back(request: Request)
    requires
        forall|i: int|
            0 <= i < request.questions.len() ==> (#[trigger] request.questions[i]).1.criteria
                != Some(Json::Null),
    ensures
        request_of(request_json(request)) == Some(request),
{
    reveal_strlit("model");
    reveal_strlit("questions");
    reveal_strlit("state");
    assert("model"@[0] != "questions"@[0]);
    assert("model"@[0] != "state"@[0]);
    assert("questions"@[0] != "state"@[0]);
    reveal_with_fuel(lookup, 4);
    let fields = request_json(request)->Object_0;
    assert(fields.drop_last() =~= fields.take(2));
    assert(fields.take(2).drop_last() =~= fields.take(1));
    questions_read_back(request.questions);
}

/// Whether every name is a rubric for true or false.
pub open spec fn truth_names(fields: Members) -> bool {
    forall|i: int|
        0 <= i < fields.len() ==> (#[trigger] fields[i]).0 == "true"@ || fields[i].0 == "false"@
}

/// Whether the criteria of a question of some kind are acceptable: rubrics for
/// true and false or none at all, one rubric for each label, or two and more
/// ordered levels.
pub open spec fn criteria_fit(kind: Seq<char>, value: Option<Json>) -> bool {
    if kind == "noul"@ {
        match value {
            None => true,
            Some(Json::Object(fields)) => truth_names(fields),
            _ => false,
        }
    } else if kind == "choice"@ {
        value matches Some(Json::Object(fields)) && fields.len() > 0
    } else {
        kind == "score"@ && (value matches Some(Json::Array(items)) && items.len() >= 2)
    }
}

/// The error for criteria that are not acceptable.
pub open spec fn criteria_fault(kind: Seq<char>) -> Fault {
    row_fault(
        if kind == "noul"@ {
            "noul criteria must be a JSON object with true/false rubrics, or SQL NULL"@
        } else if kind == "choice"@ {
            "choice criteria must be a nonempty JSON object"@
        } else if kind == "score"@ {
            "score criteria must be a JSON array with at least two ordered levels"@
        } else {
            "unknown Jev criteria type"@
        },
    )
}

/// The meaning of a value that may be missing.
pub open spec fn maybe(value: Option<JsonValue>) -> Option<Json> {
    match value {
        Some(value) => Some(value@),
        None => None,
    }
}

/// Whether every name is a rubric for true or false.
fn only_truth_names(fields: &Vec<(String, JsonValue)>) -> (yes: bool)
    ensures
        yes == truth_names(fields_view(fields@)),
{
    let ghost all = fields_view(fields@);
    for at in 0..fields.len()
        invariant
            all == fields_view(fields@),
            forall|i: int|
                0 <= i < at ==> (#[trigger] all[i]).0 == "true"@ || all[i].0 == "false"@,
    {
        let name = fields[at].0.as_str();
        if !same(name, "true") && !same(name, "false") {
            assert(all[at as int].0 == name@);
            return false;
        }
    }
    true
}

/// Rejects criteria that do not fit the kind of their question.
pub fn validate_criteria(kind: &str, value: &Option<JsonValue>) -> (result: Result<(), JevError>)
    ensures
        match result {
            Ok(_) => criteria_fit(kind@, maybe(*value)),
            Err(error) => !criteria_fit(kind@, maybe(*value)) && error@ == criteria_fault(kind@),
        },
{
    proof {
        if let Some(inner) = value {
            container_views(*inner);
        }
    }
    if same(kind, "noul") {
        let fit = match value {
            None => true,
            Some(JsonValue::Object(fields)) => only_truth_names(fields),
            _ => false,
        };
        if fit {
            Ok(())
        } else {
            Err(
                JevError::execution(
                    "noul criteria must be a JSON object with true/false rubrics, or SQL NULL",
                ),
            )
        }
    } else if same(kind, "choice") {
        match value {
            Some(JsonValue::Object(fields)) if fields.len() > 0 => Ok(()),
            _ => Err(JevError::execution("choice criteria must be a nonempty JSON object")),
        }
    } else if same(kind, "score") {
        match value {
            Some(JsonValue::Array(items)) if items.len() >= 2 => Ok(()),
            _ => Err(
                JevError::execution(
                    "score criteria must be a JSON array with at least two ordered levels",
                ),
            ),
        }
    } else {
        Err(JevError::execution("unknown Jev criteria type"))
    }
}

/// The criteria that a text denotes, or the error.
pub open spec fn criteria_text(text: Option<Seq<char>>) -> Result<Option<Json>, Fault> {
    match text {
        None => Ok(None),
        Some(text) => match parsed(text) {
            Ok(value) => Ok(Some(value)),
            Err(_) => Err(
                row_fault("Jev criteria must be valid JSON without duplicate keys"@),
            ),
        },
    }
}

/// The text of a value that may be missing.
pub open spec fn maybe_text(text: Option<String>) -> Option<Seq<char>> {
    match text {
        Some(text) => Some(text@),
        None => None,
    }
}

/// Reads criteria from a text.
pub fn parse_criteria(text: &Option<String>) -> (result: Result<Option<JsonValue>, JevError>)
    ensures
        match result {
            Ok(value) => criteria_text(maybe_text(*text)) == Ok::<_, Fault>(maybe(value)),
            Err(error) => criteria_text(maybe_text(*text)) == Err::<Option<Json>, _>(error@),
        },
{
    match text {
        None => Ok(None),
        Some(text) => match parse_json_value(text.as_str()) {
            Ok(value) => Ok(Some(value)),
            Err(_) => Err(
                JevError::execution("Jev criteria must be valid JSON without duplicate keys"),
            ),
        },
    }
}

/// The first of some questions whose criteria do not fit.
pub open spec fn unfit(questions: Named<Question>) -> Option<Fault>
    decreases questions.len(),
{
    if questions.len() == 0 {
        None
    } else {
        let last = questions.last().1;
        match unfit(questions.drop_last()) {
            Some(fault) => Some(fault),
            None => if criteria_fit(last.kind.text(), last.criteria) {
                None
            } else {
                Some(criteria_fault(last.kind.text()))
            },
        }
    }
}

/// The questions that a text denotes, or the error. Of several questions whose
/// criteria do not fit, the first in the order of names is the error.
pub open spec fn questions_text(text: Seq<char>) -> Result<Named<Question>, Fault> {
    match parsed(text) {
        Err(fault) => Err(row_fault("ask questions must be valid JSON: "@ + shown(fault))),
        Ok(Json::Object(fields)) => match questions_in(fields) {
            None => Err(row_fault("ask questions must be a JSON map of typed questions"@)),
            Some(questions) => if questions.len() == 0 {
                Err(row_fault("ask questions cannot be empty"@))
            } else {
                match unfit(questions) {
                    Some(fault) => Err(fault),
                    None => Ok(questions),
                }
            },
        },
        Ok(_) => Err(row_fault("ask questions must be a JSON map of typed questions"@)),
    }
}

/// If the criteria of one of the first questions do not fit, that is the error for
/// all of them.
proof fn unfit_first(questions: Named<Question>, count: int)
    requires
        0 <= count <= questions.len(),
        unfit(questions.take(count)) is Some,
    ensures
        unfit(questions) == unfit(questions.take(count)),
    decreases questions.len() - count,
{
    if count < questions.len() {
        assert(questions.take(count + 1).drop_last() =~= questions.take(count));
        unfit_first(questions, count + 1);
    } else {
        assert(questions.take(count) =~= questions);
    }
}

/// Reads the questions of `ask` from a text.
pub fn parse_questions(text: &str) -> (result: Result<Vec<(String, JevQuestion)>, JevError>)
    ensures
        match result {
            Ok(questions) => questions_text(text@) == Ok::<_, Fault>(questions_view(questions@)),
            Err(error) => questions_text(text@) == Err::<Named<Question>, _>(error@),
        },
{
    broadcast use container_views;

    let value = match parse_json_value(text) {
        Ok(value) => value,
        Err(error) => {
            return Err(
                JevError::execution(
                    join2("ask questions must be valid JSON: ", error.shown().as_str()).as_str(),
                ),
            );
        },
    };
    let questions = match &value {
        JsonValue::Object(fields) => read_questions(fields),
        _ => None,
    };
    let questions = match questions {
        Some(questions) => questions,
        None => {
            return Err(
                JevError::execution("ask questions must be a JSON map of typed questions"),
            );
        },
    };
    if questions.len() == 0 {
        return Err(JevError::execution("ask questions cannot be empty"));
    }
    let ghost all = questions_view(questions@);
    assert(all.take(0) =~= Seq::<(Seq<char>, Question)>::empty());
    for at in 0..questions.len()
        invariant
            all == questions_view(questions@),
            unfit(all.take(at as int)) is None,
            questions_text(text@) == (match unfit(all) {
                Some(fault) => Err::<Named<Question>, Fault>(fault),
                None => Ok(all),
            }),
    {
        let ghost next = all.take(at as int + 1);
        assert(next.drop_last() =~= all.take(at as int));
        let question = &questions[at].1;
        assert(next.last().1 == question@);
        if let Err(error) = validate_criteria(question.kind.as_str(), &question.criteria) {
            proof {
                unfit_first(all, at as int + 1);
            }
            return Err(error);
        }
    }
    assert(all.take(all.len() as int) =~= all);
    Ok(questions)
}

} // verus!
