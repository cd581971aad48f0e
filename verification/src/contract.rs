//! Request and result types of the System One JSON contract.
//!
//! The SQL functions speak this shape. A server adapter maps it onto that
//! server's HTTP endpoint. Model ids are opaque strings.
use vstd::prelude::*;

use crate::json::{container_views, fields_view, Json, JsonValue, Members, Named};

verus! {

pub const TYPESAFE_DEFAULT_MODEL: &'static str = "jev-1.13.0";

pub const OPENROUTER_DEFAULT_MODEL: &'static str = "typesafe/jev-1.13";

/// The name of an argument of the SQL functions.
#[derive(Debug, Clone, Copy, PartialEq, Eq, Structural)]
pub enum JevArgumentName {
    State,
    Instructions,
    Criteria,
    Questions,
    Model,
}

impl JevArgumentName {
    /// The text of an argument name.
    pub open spec fn text(self) -> Seq<char> {
        match self {
            JevArgumentName::State => "state"@,
            JevArgumentName::Instructions => "instructions"@,
            JevArgumentName::Criteria => "criteria"@,
            JevArgumentName::Questions => "questions"@,
            JevArgumentName::Model => "model"@,
        }
    }

    pub fn as_str(&self) -> (name: &'static str)
        ensures
            name@ == self.text(),
    {
        match self {
            JevArgumentName::State => "state",
            JevArgumentName::Instructions => "instructions",
            JevArgumentName::Criteria => "criteria",
            JevArgumentName::Questions => "questions",
            JevArgumentName::Model => "model",
        }
    }
}

/// The type of one question.
#[derive(Debug, Clone, Copy, PartialEq, Eq, Structural)]
pub enum JevQuestionType {
    Noul,
    Choice,
    Score,
}

impl JevQuestionType {
    pub const ALL: [JevQuestionType; 3] = [
        JevQuestionType::Noul,
        JevQuestionType::Choice,
        JevQuestionType::Score,
    ];

    /// The text of a question type, which is also the name of its SQL function.
    pub open spec fn text(self) -> Seq<char> {
        match self {
            JevQuestionType::Noul => "noul"@,
            JevQuestionType::Choice => "choice"@,
            JevQuestionType::Score => "score"@,
        }
    }

    pub fn as_str(&self) -> (name: &'static str)
        ensures
            name@ == self.text(),
    {
        match self {
            JevQuestionType::Noul => "noul",
            JevQuestionType::Choice => "choice",
            JevQuestionType::Score => "score",
        }
    }
}

/// What a row error does to the query.
#[derive(Debug, Clone, Copy, PartialEq, Eq, Structural)]
pub enum JevOnError {
    Fail,
    Null,
}

impl Default for JevOnError {
    fn default() -> (policy: JevOnError)
        ensures
            policy == JevOnError::Fail,
    {
        JevOnError::Fail
    }
}

impl JevOnError {
    /// The text of a policy.
    pub open spec fn text(self) -> Seq<char> {
        match self {
            JevOnError::Fail => "fail"@,
            JevOnError::Null => "null"@,
        }
    }

    /// The policy as a session setting spells it.
    pub fn as_str(&self) -> (name: &'static str)
        ensures
            name@ == self.text(),
    {
        match self {
            JevOnError::Fail => "fail",
            JevOnError::Null => "null",
        }
    }
}

/// The settings of a session.
#[derive(Debug, Clone, PartialEq, Eq)]
pub struct JevSessionOptions {
    pub model: String,
    pub on_error: JevOnError,
}

impl Default for JevSessionOptions {
    fn default() -> (options: JevSessionOptions)
        ensures
            options.model@ == TYPESAFE_DEFAULT_MODEL@,
            options.on_error == JevOnError::Fail,
    {
        JevSessionOptions {
            model: TYPESAFE_DEFAULT_MODEL.to_owned(),
            on_error: JevOnError::Fail,
        }
    }
}

/// One typed question. `kind` is written as `type` in JSON.
#[derive(Debug, PartialEq, Eq)]
pub struct JevQuestion {
    pub kind: JevQuestionType,
    pub instructions: JsonValue,
    pub criteria: Option<JsonValue>,
}

/// The meaning of a [`JevQuestion`].
pub ghost struct Question {
    pub kind: JevQuestionType,
    pub instructions: Json,
    pub criteria: Option<Json>,
}

impl View for JevQuestion {
    type V = Question;

    open spec fn view(&self) -> Question {
        Question {
            kind: self.kind,
            instructions: self.instructions@,
            criteria: match self.criteria {
                Some(criteria) => Some(criteria@),
                None => None,
            },
        }
    }
}

/// One request: a state, questions by their names, and the model to ask.
#[derive(Debug, PartialEq, Eq)]
pub struct JevRequest {
    pub state: JsonValue,
    pub questions: Vec<(String, JevQuestion)>,
    pub model: String,
}

/// The meaning of a [`JevRequest`].
pub ghost struct Request {
    pub state: Json,
    pub questions: Named<Question>,
    pub model: Seq<char>,
}

/// The questions of a list.
pub open spec fn questions_view(questions: Seq<(String, JevQuestion)>) -> Named<Question> {
    Seq::new(questions.len(), |i: int| (questions[i].0@, questions[i].1@))
}

impl View for JevRequest {
    type V = Request;

    open spec fn view(&self) -> Request {
        Request {
            state: self.state@,
            questions: questions_view(self.questions@),
            model: self.model@,
        }
    }
}

/// The JSON value of a question. Criteria that are missing are left out.
pub open spec fn question_json(question: Question) -> Json {
    let rest = seq![
        ("instructions"@, question.instructions),
        ("type"@, Json::Text(question.kind.text())),
    ];
    Json::Object(
        match question.criteria {
            Some(criteria) => seq![("criteria"@, criteria)] + rest,
            None => rest,
        },
    )
}

/// The JSON values of questions.
pub open spec fn questions_json(questions: Named<Question>) -> Members {
    Seq::new(questions.len(), |i: int| (questions[i].0, question_json(questions[i].1)))
}

/// The JSON value of a request: the body that is sent, before it is given its
/// one byte form.
pub open spec fn request_json(request: Request) -> Json {
    Json::Object(
        seq![
            ("model"@, Json::Text(request.model)),
            ("questions"@, Json::Object(questions_json(request.questions))),
            ("state"@, request.state),
        ],
    )
}

impl JevQuestion {
    /// The JSON value of the question.
    pub fn to_json(&self) -> (value: JsonValue)
        ensures
            value@ == question_json(self@),
    {
        broadcast use container_views;

        let mut fields: Vec<(String, JsonValue)> = Vec::new();
        if let Some(criteria) = &self.criteria {
            fields.push(("criteria".to_owned(), criteria.copy()));
        }
        fields.push(("instructions".to_owned(), self.instructions.copy()));
        fields.push(("type".to_owned(), JsonValue::Text(self.kind.as_str().to_owned())));
        let value = JsonValue::Object(fields);
        assert(value@->Object_0 =~= question_json(self@)->Object_0);
        value
    }
}

impl JevRequest {
    /// The JSON value of the request.
    pub fn to_json(&self) -> (value: JsonValue)
        ensures
            value@ == request_json(self@),
    {
        broadcast use container_views;

        let mut questions: Vec<(String, JsonValue)> = Vec::new();
        for at in 0..self.questions.len()
            invariant
                questions@.len() == at,
                forall|i: int|
                    0 <= i < at ==> (#[trigger] questions@[i]).0@ == self.questions@[i].0@
                        && questions@[i].1@ == question_json(self.questions@[i].1@),
        {
            let name = self.questions[at].0.clone();
            questions.push((name, self.questions[at].1.to_json()));
        }
        assert(fields_view(questions@) =~= questions_json(self@.questions));
        let mut fields: Vec<(String, JsonValue)> = Vec::new();
        fields.push(("model".to_owned(), JsonValue::Text(self.model.clone())));
        fields.push(("questions".to_owned(), JsonValue::Object(questions)));
        fields.push(("state".to_owned(), self.state.copy()));
        let value = JsonValue::Object(fields);
        assert(value@->Object_0 =~= request_json(self@)->Object_0);
        value
    }
}

/// The answer to a choice. A number is kept as the JSON number text that denotes
/// it.
#[derive(Debug, PartialEq, Eq)]
pub struct JevChoiceResult {
    pub label: String,
    pub confidence: String,
    pub probabilities: Vec<(String, String)>,
}

/// The answer to a score. A number is kept as the JSON number text that denotes
/// it.
#[derive(Debug, PartialEq, Eq)]
pub struct JevScoreResult {
    pub score: String,
    pub confidence: String,
    pub probabilities: Vec<(String, String)>,
}

} // verus!
