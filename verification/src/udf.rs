//! The SQL functions: what planning rejects, what a row asks for, and what becomes of
//! the answer.
use std::sync::Arc;

use vstd::prelude::*;

use crate::answers::{answered, response_value};
use crate::arrow_json::{
    choice_shape, choice_type, score_shape, score_type, shape, ArrowType, Shape,
};
use crate::canonical::{arranged, canonical, canonical_bytes, fits, written, Written};
use crate::contract::{
    questions_json, questions_view, request_json, JevOnError, JevQuestion, JevQuestionType,
    JevRequest, JevSessionOptions, Question, Request,
};
use crate::distinct::the_body_tells_the_request;
use crate::equivalence::{same_json, same_json_same_bytes};
use crate::errors::{fatal, plan_fault, row_fault, shown, ErrorKind, Fault, JevError};
use crate::execution::{
    fingerprint, raw_text, refusal, sha256_of, BatchCache, CachedRaw, RequestKey,
};
use crate::json::{items_view, Json, JsonValue, Named};
use crate::metrics::{counted, JevMetrics};
use crate::parse::{structured_or_text, structured_text};
use crate::provider::JevProvider;
use crate::questions::{
    criteria_fault, criteria_fit, criteria_text, kind_named, maybe_text, parse_criteria,
    parse_questions, questions_text, validate_criteria,
};
use crate::session::{model_fault, validate_model, JevConfig};
use crate::sql::{parameter_names, parameters, texts};
use crate::state::{null, state_json_with_field, state_of, StateScalar};
use crate::text::{blank, decimal, decimal_text, join2, join3, same};

verus! {

/// A SQL function.
pub struct JevUdf {
    pub name: &'static str,
    pub parameters: Vec<&'static str>,
    pub provider: Arc<JevProvider>,
    pub output: ArrowType,
}

/// Whether a text is the name of a function.
pub open spec fn is_function(name: Seq<char>) -> bool {
    parameters(name) is Some
}

/// The shape of the value of a function.
pub open spec fn output_shape(name: Seq<char>) -> Shape {
    if name == "noul"@ {
        Shape::Float64
    } else if name == "ask"@ {
        Shape::Utf8
    } else if name == "choice"@ {
        choice_shape()
    } else {
        score_shape()
    }
}

impl JevUdf {
    /// Whether the parts of a function belong together.
    pub open spec fn well_formed(&self) -> bool {
        &&& is_function(self.name@)
        &&& self.parameters@.map_values(|text: &'static str| text@) == texts(
            parameters(self.name@).unwrap(),
        )
        &&& shape(self.output) == output_shape(self.name@)
    }

    /// The function with a name, asking a server.
    pub fn new(name: &'static str, provider: Arc<JevProvider>) -> (result: Result<JevUdf, JevError>)
        ensures
            match result {
                Ok(function) => {
                    &&& function.well_formed()
                    &&& function.name == name
                    &&& function.provider == provider
                },
                Err(error) => !is_function(name@) && error@ == plan_fault("unknown Jev function"@),
            },
    {
        let parameters = match parameter_names(name) {
            Some(parameters) => parameters,
            None => {
                return Err(JevError::plan("unknown Jev function"));
            },
        };
        let output = if same(name, "noul") {
            ArrowType::Float64
        } else if same(name, "ask") {
            ArrowType::Utf8
        } else if same(name, "choice") {
            choice_type()
        } else {
            score_type()
        };
        Ok(JevUdf { name, parameters, provider, output })
    }
}

/// A text or SQL NULL, or the error for a value that is neither. `what` says what the
/// value is for.
pub open spec fn optional(value: StateScalar, what: Seq<char>) -> Result<Option<Seq<char>>, Fault> {
    match value {
        StateScalar::Unreadable(error) => Err(error@),
        StateScalar::Text(text) => Ok(Some(text@)),
        _ => if null(value) {
            Ok(None)
        } else {
            Err(row_fault("Jev "@ + what + " must be UTF-8 text"@))
        },
    }
}

/// A text, or the error for a value that is none. `what` says what the value is for.
pub open spec fn required(value: StateScalar, what: Seq<char>) -> Result<Seq<char>, Fault> {
    match optional(value, what) {
        Err(fault) => Err(fault),
        Ok(Some(text)) => Ok(text),
        Ok(None) => Err(row_fault("Jev "@ + what + " cannot be NULL"@)),
    }
}

/// A text or SQL NULL.
fn optional_text(value: &StateScalar, what: &str) -> (result: Result<Option<String>, JevError>)
    ensures
        match result {
            Ok(text) => optional(*value, what@) == Ok::<_, Fault>(maybe_text(text)),
            Err(error) => optional(*value, what@) == Err::<Option<Seq<char>>, _>(error@),
        },
{
    match value {
        StateScalar::Unreadable(error) => Err(error.copy()),
        StateScalar::Text(text) => Ok(Some(text.clone())),
        _ => if value.is_null() {
            Ok(None)
        } else {
            Err(JevError::execution(join3("Jev ", what, " must be UTF-8 text").as_str()))
        },
    }
}

/// A text.
fn required_text(value: &StateScalar, what: &str) -> (result: Result<String, JevError>)
    ensures
        match result {
            Ok(text) => required(*value, what@) == Ok::<_, Fault>(text@),
            Err(error) => required(*value, what@) == Err::<Seq<char>, _>(error@),
        },
{
    match optional_text(value, what) {
        Ok(Some(text)) => Ok(text),
        Ok(None) => Err(JevError::execution(join3("Jev ", what, " cannot be NULL").as_str())),
        Err(error) => Err(error),
    }
}

/// The name of the model for a row: the one that the row gives, or else the default
/// one. It cannot be blank.
pub open spec fn model_of(value: StateScalar, default_model: Seq<char>) -> Result<Seq<char>, Fault> {
    match optional(value, "model"@) {
        Err(fault) => Err(fault),
        Ok(given) => {
            let model = match given {
                Some(model) => model,
                None => default_model,
            };
            if blank(model) {
                Err(model_fault())
            } else {
                Ok(model)
            }
        },
    }
}

/// The name of the model for a row.
fn row_model(value: &StateScalar, default_model: &str) -> (result: Result<String, JevError>)
    ensures
        match result {
            Ok(model) => model_of(*value, default_model@) == Ok::<_, Fault>(model@),
            Err(error) => model_of(*value, default_model@) == Err::<Seq<char>, _>(error@),
        },
{
    let model = match optional_text(value, "model") {
        Ok(Some(model)) => model,
        Ok(None) => default_model.to_owned(),
        Err(error) => {
            return Err(error);
        },
    };
    match validate_model(Some(model.as_str())) {
        Ok(_) => Ok(model),
        Err(error) => Err(error),
    }
}

/// The only question of a row of `noul`, `choice` or `score`.
pub open spec fn single_question(
    name: Seq<char>,
    instructions: StateScalar,
    criteria: StateScalar,
) -> Result<Named<Question>, Fault> {
    match required(instructions, "instructions"@) {
        Err(fault) => Err(fault),
        Ok(text) => match optional(criteria, "criteria"@) {
            Err(fault) => Err(fault),
            Ok(given) => match criteria_text(given) {
                Err(fault) => Err(fault),
                Ok(rubric) => if !criteria_fit(name, rubric) {
                    Err(criteria_fault(name))
                } else {
                    match kind_named(name) {
                        None => Err(row_fault("invalid Jev JSON value"@)),
                        Some(kind) => Ok(
                            seq![
                                (
                                    "q0"@,
                                    Question {
                                        kind,
                                        instructions: structured_or_text(text),
                                        criteria: rubric,
                                    },
                                ),
                            ],
                        ),
                    }
                },
            },
        },
    }
}

/// The questions of a row.
pub open spec fn row_questions(name: Seq<char>, values: Seq<StateScalar>) -> Result<
    Named<Question>,
    Fault,
> {
    if name == "ask"@ {
        match required(values[1], "questions"@) {
            Err(fault) => Err(fault),
            Ok(text) => questions_text(text),
        }
    } else {
        single_question(name, values[1], values[2])
    }
}

/// The error for a call with the wrong number of arguments.
pub open spec fn count_message(name: Seq<char>, expected: nat) -> Seq<char> {
    name + " expects "@ + decimal(expected) + " arguments after optional defaults are filled"@
}

/// How many arguments a function has.
pub open spec fn arity(name: Seq<char>) -> nat {
    match parameters(name) {
        Some(arguments) => arguments.len(),
        None => 0,
    }
}

/// What a row asks for, or the error. A state that is SQL NULL asks for nothing.
pub open spec fn row_asks(
    name: Seq<char>,
    values: Seq<StateScalar>,
    extension: Option<String>,
    default_model: Seq<char>,
) -> Result<Option<Request>, Fault> {
    if let StateScalar::Unreadable(error) = values[0] {
        Err(error@)
    } else if null(values[0]) {
        Ok(None)
    } else {
        match state_of(values[0], extension) {
            Err(fault) => Err(fault),
            Ok(state) => match row_questions(name, values) {
                Err(fault) => Err(fault),
                Ok(questions) => match model_of(values.last(), default_model) {
                    Err(fault) => Err(fault),
                    Ok(model) => Ok(Some(Request { state, questions, model })),
                },
            },
        }
    }
}

/// A function has at least three arguments; one that is not `ask` has four.
proof fn arity_of(name: Seq<char>)
    requires
        is_function(name),
    ensures
        arity(name) == (if name == "ask"@ {
            3nat
        } else {
            4nat
        }),
{
}

/// The number of arguments of a function.
fn count_arguments(function: &JevUdf) -> (count: usize)
    requires
        function.well_formed(),
    ensures
        count == arity(function.name@),
        count == (if function.name@ == "ask"@ {
            3nat
        } else {
            4nat
        }),
{
    proof {
        arity_of(function.name@);
        let names = function.parameters@.map_values(|text: &'static str| text@);
        assert(names.len() == texts(parameters(function.name@).unwrap()).len());
    }
    function.parameters.len()
}

/// The text of the error for a call with the wrong number of arguments.
fn count_text(name: &str, expected: usize) -> (text: String)
    ensures
        text@ == count_message(name@, expected as nat),
{
    let start = join3(name, " expects ", decimal_text(expected as u64).as_str());
    join2(start.as_str(), " arguments after optional defaults are filled")
}

impl JevUdf {
    /// Checks how many arguments a batch of rows comes with, before any of its rows is
    /// looked at. No policy hides this error.
    pub fn check_count(&self, count: usize) -> (result: Result<(), JevError>)
        requires
            self.well_formed(),
        ensures
            match result {
                Ok(_) => count == arity(self.name@),
                Err(error) => count != arity(self.name@) && error@ == row_fault(
                    count_message(self.name@, arity(self.name@)),
                ),
            },
    {
        let expected = count_arguments(self);
        if count != expected {
            return Err(JevError::execution(count_text(self.name, expected).as_str()));
        }
        Ok(())
    }

    /// The questions of a row.
    fn questions(&self, values: &Vec<StateScalar>) -> (result: Result<
        Vec<(String, JevQuestion)>,
        JevError,
    >)
        requires
            self.well_formed(),
            values@.len() == arity(self.name@),
        ensures
            match result {
                Ok(questions) => row_questions(self.name@, values@) == Ok::<_, Fault>(
                    questions_view(questions@),
                ),
                Err(error) => row_questions(self.name@, values@) == Err::<Named<Question>, _>(
                    error@,
                ),
            },
    {
        proof {
            arity_of(self.name@);
        }
        if same(self.name, "ask") {
            return match required_text(&values[1], "questions") {
                Ok(text) => parse_questions(text.as_str()),
                Err(error) => Err(error),
            };
        }
        let text = match required_text(&values[1], "instructions") {
            Ok(text) => text,
            Err(error) => {
                return Err(error);
            },
        };
        let instructions = structured_text(text);
        let given = match optional_text(&values[2], "criteria") {
            Ok(given) => given,
            Err(error) => {
                return Err(error);
            },
        };
        let criteria = match parse_criteria(&given) {
            Ok(criteria) => criteria,
            Err(error) => {
                return Err(error);
            },
        };
        if let Err(error) = validate_criteria(self.name, &criteria) {
            return Err(error);
        }
        match JevQuestionType::from_name(self.name) {
            None => Err(JevError::execution("invalid Jev JSON value")),
            Some(kind) => {
                let question = JevQuestion { kind, instructions, criteria };
                let ghost entry = ("q0"@, question@);
                let mut questions: Vec<(String, JevQuestion)> = Vec::new();
                questions.push(("q0".to_owned(), question));
                assert(questions_view(questions@) =~= seq![entry]);
                Ok(questions)
            },
        }
    }

    /// What a row asks for. Each row is validated before anything is spent on it. SQL
    /// NULL as a state asks for nothing, while a state or an argument that is not
    /// valid is an error of the row.
    pub fn row_request(
        &self,
        values: &Vec<StateScalar>,
        extension: &Option<String>,
        default_model: &str,
    ) -> (result: Result<Option<JevRequest>, JevError>)
        requires
            self.well_formed(),
            values@.len() == arity(self.name@),
        ensures
            match result {
                Ok(Some(request)) => row_asks(self.name@, values@, *extension, default_model@)
                    == Ok::<_, Fault>(Some(request@)),
                Ok(None) => row_asks(self.name@, values@, *extension, default_model@) == Ok::<
                    Option<Request>,
                    Fault,
                >(None),
                Err(error) => row_asks(self.name@, values@, *extension, default_model@) == Err::<
                    Option<Request>,
                    _,
                >(error@),
            },
    {
        proof {
            arity_of(self.name@);
        }
        if let StateScalar::Unreadable(error) = &values[0] {
            return Err(error.copy());
        }
        if values[0].is_null() {
            return Ok(None);
        }
        let state = match state_json_with_field(&values[0], extension) {
            Ok(state) => state,
            Err(error) => {
                return Err(error);
            },
        };
        let questions = match self.questions(values) {
            Ok(questions) => questions,
            Err(error) => {
                return Err(error);
            },
        };
        match row_model(&values[values.len() - 1], default_model) {
            Ok(model) => Ok(Some(JevRequest { state, questions, model })),
            Err(error) => Err(error),
        }
    }
}

/// What is done about a row.
pub enum RowStep {
    /// The row has its value, or its error.
    Done(Result<JsonValue, JevError>),
    /// A request has to be sent, and paid for.
    Send { request: JevRequest, key: RequestKey },
}

/// The value of a row whose request was already answered.
pub open spec fn shared_value(name: Seq<char>, raw: Option<Seq<char>>) -> Result<Json, Fault> {
    match raw {
        None => Err(row_fault("cached Jev request failed"@)),
        Some(raw) => answered(name, raw),
    }
}

/// The fingerprint of a request.
pub open spec fn request_key(request: Request) -> Seq<u8> {
    sha256_of(canonical(request_json(request)))
}

/// The value of a result.
pub open spec fn outcome(result: Result<JsonValue, JevError>) -> Result<Json, Fault> {
    match result {
        Ok(value) => Ok(value@),
        Err(error) => Err(error@),
    }
}

/// The value of a row whose request was already answered.
fn share_value(name: &str, cached: CachedRaw) -> (result: Result<JsonValue, JevError>)
    ensures
        outcome(result) == shared_value(name@, raw_text(cached)),
{
    match cached {
        None => Err(JevError::execution("cached Jev request failed")),
        Some(raw) => response_value(name, &raw),
    }
}

/// What a reply says.
pub open spec fn replied(reply: Result<String, JevError>) -> Result<Seq<char>, Fault> {
    match reply {
        Ok(raw) => Ok(raw@),
        Err(failure) => Err(failure@),
    }
}

/// Whether a reply ends the batch under every policy.
pub open spec fn ends_batch(reply: Result<Seq<char>, Fault>) -> bool {
    reply matches Err(fault) && fatal(fault)
}

/// The responses of a batch once the reply to a request has come: an answer is kept,
/// and so is a failure that is not fatal.
pub open spec fn kept(
    responses: Map<Seq<u8>, Option<Seq<char>>>,
    key: Seq<u8>,
    reply: Result<Seq<char>, Fault>,
) -> Map<Seq<u8>, Option<Seq<char>>> {
    match reply {
        Ok(raw) => responses.insert(key, Some(raw)),
        Err(fault) => if fatal(fault) {
            responses
        } else {
            responses.insert(key, None)
        },
    }
}

impl JevUdf {
    /// What is done about a row: nothing where the state is SQL NULL, an error where
    /// it is not valid, the shared answer where the batch already has one, and else a
    /// new request, for which there is room in the cache.
    pub fn begin_row(
        &self,
        values: &Vec<StateScalar>,
        extension: &Option<String>,
        default_model: &str,
        metrics: &mut JevMetrics,
        cache: &mut BatchCache,
    ) -> (step: RowStep)
        requires
            self.well_formed(),
            old(cache).well_formed(),
            values@.len() == arity(self.name@),
        ensures
            final(cache).well_formed(),
            final(cache)@ == old(cache)@,
            final(cache).content_bytes() == old(cache).content_bytes(),
            match row_asks(self.name@, values@, *extension, default_model@) {
                Err(fault) => step matches RowStep::Done(Err(error)) && error@ == fault
                    && *final(metrics) == *old(metrics),
                Ok(None) => step matches RowStep::Done(Ok(value)) && value@ == Json::Null
                    && *final(metrics) == *old(metrics),
                Ok(Some(request)) => {
                    let key = request_key(request);
                    if !fits(request_json(request)) {
                        step matches RowStep::Done(Err(error)) && written(
                            request_json(request),
                            0,
                            Seq::empty(),
                        ) == Written::Err(error@) && *final(metrics) == *old(metrics)
                    } else if old(cache)@.contains_key(key) {
                        step matches RowStep::Done(result) && outcome(result) == shared_value(
                            self.name@,
                            old(cache)@[key],
                        ) && *final(metrics) == (JevMetrics {
                            cache_hits: counted(old(metrics).cache_hits, 1),
                            ..*old(metrics)
                        })
                    } else {
                        *final(metrics) == *old(metrics) && match step {
                            RowStep::Send { request: sent, key: under } => sent@ == request
                                && under@ == key && final(cache).has_room(),
                            RowStep::Done(Err(error)) => refusal(error) && !old(
                                cache,
                            ).has_room(),
                            _ => false,
                        }
                    }
                },
            },
    {
        let request = match self.row_request(values, extension, default_model) {
            Ok(Some(request)) => request,
            Ok(None) => {
                return RowStep::Done(Ok(JsonValue::Null));
            },
            Err(error) => {
                return RowStep::Done(Err(error));
            },
        };
        let bytes = match canonical_bytes(&request.to_json()) {
            Ok(bytes) => bytes,
            Err(error) => {
                return RowStep::Done(Err(error));
            },
        };
        let key = match fingerprint(bytes) {
            Ok(key) => key,
            Err(error) => {
                return RowStep::Done(Err(error));
            },
        };
        if let Some(cached) = cache.get(&key) {
            metrics.cache_hits = metrics.cache_hits.wrapping_add(1);
            return RowStep::Done(share_value(self.name, cached));
        }
        match cache.prepare() {
            Ok(_) => RowStep::Send { request, key },
            Err(error) => RowStep::Done(Err(error)),
        }
    }

    /// What becomes of a row whose request was sent. An answer is kept for the other
    /// rows of the batch even where this function cannot read it, since another one
    /// may; a failure that is not fatal is kept too.
    pub fn finish_row(
        &self,
        key: RequestKey,
        reply: Result<String, JevError>,
        cache: &mut BatchCache,
    ) -> (result: Result<JsonValue, JevError>)
        requires
            old(cache).well_formed(),
        ensures
            final(cache).well_formed(),
            !old(cache)@.contains_key(key@) ==> {
                ||| final(cache)@ == kept(old(cache)@, key@, replied(reply)) && outcome(result)
                    == match reply {
                    Ok(raw) => answered(self.name@, raw@),
                    Err(failure) => Err(failure@),
                }
                ||| !ends_batch(replied(reply)) && !(reply is Err && old(cache).has_room())
                    && final(cache)@ == old(cache)@ && (result matches Err(error) && refusal(
                    error,
                ))
            },
            old(cache)@.contains_key(key@) ==> final(cache)@ == old(cache)@ && outcome(result)
                == match (reply, old(cache)@[key@]) {
                (Ok(_), Some(kept)) => answered(self.name@, kept),
                (Ok(_), None) => Err(
                    Fault {
                        kind: ErrorKind::Internal,
                        message: "missing Jev response after insertion"@,
                    },
                ),
                (Err(failure), _) => Err(failure@),
            },
    {
        match reply {
            Ok(raw) => match cache.insert(key, Some(raw)) {
                Ok(Some(kept)) => response_value(self.name, &kept),
                Ok(None) => Err(
                    JevError {
                        kind: ErrorKind::Internal,
                        message: "missing Jev response after insertion".to_owned(),
                    },
                ),
                Err(error) => Err(error),
            },
            Err(failure) => {
                if !failure.is_fatal() {
                    if let Err(error) = cache.insert(key, None) {
                        return Err(error);
                    }
                }
                Err(failure)
            },
        }
    }
}

/// The values of a batch after one more row, or the error that ends the query. Under
/// the null policy an error that is not fatal becomes `null`.
pub open spec fn accepted(
    done: Seq<Json>,
    result: Result<Json, Fault>,
    policy: JevOnError,
) -> Result<Seq<Json>, Fault> {
    match result {
        Ok(value) => Ok(done.push(value)),
        Err(fault) => if policy == JevOnError::Null && !fatal(fault) {
            Ok(done.push(Json::Null))
        } else {
            Err(fault)
        },
    }
}

/// Adds the outcome of one row to the values of a batch. Every error counts as a
/// failure. An error that ends the query leaves the values as they are.
pub fn accept_row(
    results: &mut Vec<JsonValue>,
    result: Result<JsonValue, JevError>,
    policy: JevOnError,
    metrics: &mut JevMetrics,
) -> (end: Result<(), JevError>)
    ensures
        ({
            let expected = accepted(items_view(old(results)@), outcome(result), policy);
            match end {
                Ok(_) => expected == Ok::<_, Fault>(items_view(final(results)@)),
                Err(error) => expected == Err::<Seq<Json>, _>(error@) && final(results)@ == old(
                    results,
                )@,
            }
        }),
        *final(metrics) == (JevMetrics {
            failures: counted(
                old(metrics).failures,
                if result is Err {
                    1
                } else {
                    0
                },
            ),
            ..*old(metrics)
        }),
{
    let ghost before = items_view(results@);
    match result {
        Ok(value) => {
            let ghost entry = value@;
            results.push(value);
            assert(items_view(results@) =~= before.push(entry));
            Ok(())
        },
        Err(error) => {
            metrics.failures = metrics.failures.wrapping_add(1);
            let hidden = match policy {
                JevOnError::Null => !error.is_fatal(),
                JevOnError::Fail => false,
            };
            if !hidden {
                return Err(error);
            }
            results.push(JsonValue::Null);
            assert(items_view(results@) =~= before.push(Json::Null));
            Ok(())
        },
    }
}

/// The values of a batch for the outcomes of its rows, or the error that ends the
/// query.
pub open spec fn batch_values(results: Seq<Result<Json, Fault>>, policy: JevOnError) -> Result<
    Seq<Json>,
    Fault,
>
    decreases results.len(),
{
    if results.len() == 0 {
        Ok(Seq::empty())
    } else {
        match batch_values(results.drop_last(), policy) {
            Err(fault) => Err(fault),
            Ok(done) => accepted(done, results.last(), policy),
        }
    }
}

/// Under the fail policy a batch has values exactly where no row has an error. Under
/// the null policy it has values exactly where no row has a fatal error, and then
/// `null` for exactly the rows that failed, besides the rows whose value is `null`.
pub proof fn policies(results: Seq<Result<Json, Fault>>, policy: JevOnError)
    ensures
        batch_values(results, policy) is Ok <==> forall|i: int|
            0 <= i < results.len() ==> match #[trigger] results[i] {
                Ok(_) => true,
                Err(fault) => policy == JevOnError::Null && !fatal(fault),
            },
        batch_values(results, policy) matches Ok(values) ==> {
            &&& values.len() == results.len()
            &&& forall|i: int|
                0 <= i < results.len() ==> #[trigger] values[i] == match results[i] {
                    Ok(value) => value,
                    Err(_) => Json::Null,
                }
        },
    decreases results.len(),
{
    if results.len() > 0 {
        let rest = results.drop_last();
        policies(rest, policy);
        assert(forall|i: int| 0 <= i < rest.len() ==> rest[i] == #[trigger] results[i]);
        assert(results.last() == results[results.len() - 1]);
        if let Ok(done) = batch_values(rest, policy) {
            if let Ok(values) = batch_values(results, policy) {
                assert forall|i: int| 0 <= i < results.len() implies #[trigger] values[i]
                    == match results[i] {
                    Ok(value) => value,
                    Err(_) => Json::Null,
                } by {
                    if i < rest.len() {
                        assert(values[i] == done[i]);
                        assert(rest[i] == results[i]);
                    }
                }
            }
        } else {
            assert(exists|i: int|
                0 <= i < rest.len() && !(match #[trigger] rest[i] {
                    Ok(_) => true,
                    Err(fault) => policy == JevOnError::Null && !fatal(fault),
                }));
            let i = choose|i: int|
                0 <= i < rest.len() && !(match #[trigger] rest[i] {
                    Ok(_) => true,
                    Err(fault) => policy == JevOnError::Null && !fatal(fault),
                });
            assert(results[i] == rest[i]);
        }
    }
}

/// The fingerprints of the requests that a batch sends, one after the other. A row is
/// the fingerprint of what it asks for, with the reply that the server gives where it
/// is asked, or nothing where nothing is asked for. A row whose request has a response
/// sends nothing, a row that sends leaves the responses of `kept` behind, and a fatal
/// failure ends the batch.
pub open spec fn sent(
    rows: Seq<Option<(Seq<u8>, Result<Seq<char>, Fault>)>>,
    responses: Map<Seq<u8>, Option<Seq<char>>>,
) -> Seq<Seq<u8>>
    decreases rows.len(),
{
    if rows.len() == 0 {
        Seq::empty()
    } else {
        match rows[0] {
            None => sent(rows.drop_first(), responses),
            Some((key, reply)) => if responses.contains_key(key) {
                sent(rows.drop_first(), responses)
            } else if ends_batch(reply) {
                seq![key]
            } else {
                seq![key] + sent(rows.drop_first(), kept(responses, key, reply))
            },
        }
    }
}

/// Identical requests of one batch are sent once: no fingerprint is sent twice, and
/// none that has a response. Where no failure is fatal, each that a row asks for is
/// sent or has a response.
pub proof fn identical_requests_are_sent_once(
    rows: Seq<Option<(Seq<u8>, Result<Seq<char>, Fault>)>>,
    responses: Map<Seq<u8>, Option<Seq<char>>>,
)
    ensures
        sent(rows, responses).no_duplicates(),
        forall|key: Seq<u8>| #[trigger]
            sent(rows, responses).contains(key) ==> !responses.contains_key(key),
        (forall|i: int|
            0 <= i < rows.len() && (#[trigger] rows[i]) is Some ==> !ends_batch(
                rows[i].unwrap().1,
            )) ==> forall|i: int|
            0 <= i < rows.len() && (#[trigger] rows[i]) is Some ==> responses.contains_key(
                rows[i].unwrap().0,
            ) || sent(rows, responses).contains(rows[i].unwrap().0),
    decreases rows.len(),
{
    if rows.len() > 0 {
        let rest = rows.drop_first();
        let all = sent(rows, responses);
        let calm = forall|i: int|
            0 <= i < rows.len() && (#[trigger] rows[i]) is Some ==> !ends_batch(
                rows[i].unwrap().1,
            );
        assert(forall|i: int| 0 <= i < rest.len() ==> #[trigger] rest[i] == rows[i + 1]);
        if rows[0] is Some && !responses.contains_key(rows[0].unwrap().0) {
            let (key, reply) = rows[0].unwrap();
            let after = kept(responses, key, reply);
            let tail = if ends_batch(reply) {
                Seq::empty()
            } else {
                sent(rest, after)
            };
            identical_requests_are_sent_once(rest, after);
            assert(all =~= seq![key] + tail);
            assert forall|i: int| 0 <= i < tail.len() implies tail[i] != key
                && !responses.contains_key(#[trigger] tail[i]) by {
                assert(sent(rest, after).contains(tail[i]));
            }
            assert forall|other: Seq<u8>| #[trigger]
                all.contains(other) implies !responses.contains_key(other) by {
                let i = choose|i: int| 0 <= i < all.len() && all[i] == other;
                if i > 0 {
                    assert(tail[i - 1] == other);
                }
            }
            assert forall|i: int, j: int|
                0 <= i < all.len() && 0 <= j < all.len() && i != j implies all[i] != all[j] by {
                if i == 0 {
                    assert(tail[j - 1] == all[j]);
                } else if j == 0 {
                    assert(tail[i - 1] == all[i]);
                } else {
                    assert(tail[i - 1] != tail[j - 1]);
                }
            }
            if calm {
                assert forall|i: int| 0 <= i < rows.len() && (
                #[trigger] rows[i]) is Some implies responses.contains_key(rows[i].unwrap().0)
                    || all.contains(rows[i].unwrap().0) by {
                    assert(all[0] == key);
                    if i > 0 {
                        assert(rest[i - 1] == rows[i]);
                        let other = rows[i].unwrap().0;
                        if tail.contains(other) {
                            let m = choose|m: int| 0 <= m < tail.len() && tail[m] == other;
                            assert(all[m + 1] == other);
                        }
                    }
                }
            }
        } else {
            identical_requests_are_sent_once(rest, responses);
            if calm {
                assert forall|i: int| 0 <= i < rows.len() && (
                #[trigger] rows[i]) is Some implies responses.contains_key(rows[i].unwrap().0)
                    || all.contains(rows[i].unwrap().0) by {
                    if i > 0 {
                        assert(rest[i - 1] == rows[i]);
                    }
                }
            }
        }
    }
}

/// Once the reply to a request has come, every row that asks for the same gets it,
/// whichever function it calls: the answer, read as that function reads it, or an error
/// where the request failed. What other requests leave behind does not change that.
pub proof fn equal_requests_share(
    first: Request,
    second: Request,
    name: Seq<char>,
    responses: Map<Seq<u8>, Option<Seq<char>>>,
    reply: Result<Seq<char>, Fault>,
    other: Seq<u8>,
    later: Result<Seq<char>, Fault>,
)
    requires
        canonical(request_json(first)) == canonical(request_json(second)),
        !ends_batch(reply),
    ensures
        ({
            let key = request_key(second);
            let after = kept(responses, request_key(first), reply);
            &&& after.contains_key(key)
            &&& shared_value(name, after[key]) == match reply {
                Ok(raw) => answered(name, raw),
                Err(_) => Err(row_fault("cached Jev request failed"@)),
            }
            &&& !after.contains_key(other) ==> kept(after, other, later).contains_key(key) && kept(
                after,
                other,
                later,
            )[key] == after[key]
        }),
{
}

/// Requests that share a response ask the same of the same model, where the hash tells
/// their bodies apart if they differ.
pub proof fn sharing_requests_are_the_same(first: Request, second: Request)
    requires
        fits(request_json(first)),
        fits(request_json(second)),
        request_key(first) == request_key(second),
        canonical(request_json(first)) != canonical(request_json(second)) ==> sha256_of(
            canonical(request_json(first)),
        ) != sha256_of(canonical(request_json(second))),
    ensures
        first.model == second.model,
        same_json(
            arranged(Json::Object(questions_json(first.questions))),
            arranged(Json::Object(questions_json(second.questions))),
        ),
        same_json(arranged(first.state), arranged(second.state)),
{
    the_body_tells_the_request(first, second);
}

/// Requests that mean the same have the same fingerprint, whatever the spelling of
/// their numbers and the order of their members.
pub proof fn same_requests_share_a_fingerprint(first: Request, second: Request)
    requires
        same_json(request_json(first), request_json(second)),
    ensures
        request_key(first) == request_key(second),
{
    same_json_same_bytes(request_json(first), request_json(second));
}

/// An argument as planning sees it: its type, its extension type, and its value where
/// that is a literal.
#[derive(Debug)]
pub struct PlannedArgument {
    pub data_type: String,
    pub extension: Option<String>,
    pub literal: Option<StateScalar>,
}

/// The column that a call makes.
pub struct ResultField<'a> {
    pub name: &'static str,
    pub data_type: &'a ArrowType,
    pub nullable: bool,
}

/// Whether a type is text or the type of NULL.
pub open spec fn text_type(data_type: Seq<char>) -> bool {
    data_type == "Utf8"@ || data_type == "LargeUtf8"@ || data_type == "Utf8View"@ || data_type
        == "Null"@
}

/// Whether a type is text or the type of NULL.
fn is_text_type(data_type: &str) -> (yes: bool)
    ensures
        yes == text_type(data_type@),
{
    same(data_type, "Utf8") || same(data_type, "LargeUtf8") || same(data_type, "Utf8View") || same(
        data_type,
        "Null",
    )
}

/// The first of the arguments behind the state that is neither text nor NULL.
pub open spec fn untyped(arguments: Seq<PlannedArgument>, count: int) -> Option<int>
    decreases count,
{
    if count <= 1 {
        None
    } else {
        match untyped(arguments, count - 1) {
            Some(index) => Some(index),
            None => if text_type(arguments[count - 1].data_type@) {
                None
            } else {
                Some(count - 1)
            },
        }
    }
}

/// What the literal argument at a place breaks by itself.
pub open spec fn literal_fault(
    name: Seq<char>,
    arguments: Seq<PlannedArgument>,
    index: int,
) -> Option<Fault> {
    match arguments[index].literal {
        None => None,
        Some(value) => if index == 0 {
            if null(value) {
                None
            } else {
                match state_of(value, arguments[0].extension) {
                    Err(fault) => Some(fault),
                    Ok(_) => None,
                }
            }
        } else if index == 1 {
            match required(
                value,
                if name == "ask"@ {
                    "questions"@
                } else {
                    "instructions"@
                },
            ) {
                Err(fault) => Some(fault),
                Ok(_) => None,
            }
        } else if index == arity(name) - 1 {
            match optional(value, "model"@) {
                Err(fault) => Some(fault),
                Ok(Some(model)) => if blank(model) {
                    Some(model_fault())
                } else {
                    None
                },
                Ok(None) => None,
            }
        } else {
            None
        },
    }
}

/// What the first literal argument that breaks something breaks.
pub open spec fn literals_fault(
    name: Seq<char>,
    arguments: Seq<PlannedArgument>,
    count: int,
) -> Option<Fault>
    decreases count,
{
    if count <= 0 {
        None
    } else {
        match literals_fault(name, arguments, count - 1) {
            Some(fault) => Some(fault),
            None => literal_fault(name, arguments, count - 1),
        }
    }
}

/// What literal questions or criteria break.
pub open spec fn rubric_fault(name: Seq<char>, arguments: Seq<PlannedArgument>) -> Option<Fault> {
    if name == "ask"@ {
        match arguments[1].literal {
            None => None,
            Some(value) => match required(value, "questions"@) {
                Err(fault) => Some(fault),
                Ok(text) => match questions_text(text) {
                    Err(fault) => Some(fault),
                    Ok(_) => None,
                },
            },
        }
    } else {
        match arguments[2].literal {
            None => None,
            Some(value) => match optional(value, "criteria"@) {
                Err(fault) => Some(fault),
                Ok(given) => match criteria_text(given) {
                    Err(fault) => Some(fault),
                    Ok(rubric) => if criteria_fit(name, rubric) {
                        None
                    } else {
                        Some(criteria_fault(name))
                    },
                },
            },
        }
    }
}

/// Why planning rejects a call, if it does: no key, the wrong number of arguments, an
/// argument that is no text, or a literal that would fail in every row.
pub open spec fn rejection(
    name: Seq<char>,
    key: Option<String>,
    key_name: Seq<char>,
    arguments: Seq<PlannedArgument>,
) -> Option<Fault> {
    if key is None {
        Some(plan_fault(name + " requires "@ + key_name + " before planning a Jev query"@))
    } else if arguments.len() != arity(name) {
        Some(plan_fault(count_message(name, arity(name))))
    } else if untyped(arguments, arguments.len() as int) is Some {
        Some(
            plan_fault(
                name + " argument "@ + decimal(
                    (untyped(arguments, arguments.len() as int).unwrap() + 1) as nat,
                ) + " must be UTF-8 text or NULL"@,
            ),
        )
    } else if literals_fault(name, arguments, arguments.len() as int) is Some {
        Some(
            plan_fault(
                shown(literals_fault(name, arguments, arguments.len() as int).unwrap()),
            ),
        )
    } else if rubric_fault(name, arguments) is Some {
        Some(plan_fault(shown(rubric_fault(name, arguments).unwrap())))
    } else {
        None
    }
}

/// The first argument that is no text among the first arguments is the first among
/// all.
proof fn untyped_first(arguments: Seq<PlannedArgument>, count: int)
    requires
        0 <= count <= arguments.len(),
        untyped(arguments, count) is Some,
    ensures
        untyped(arguments, arguments.len() as int) == untyped(arguments, count),
    decreases arguments.len() - count,
{
    if count < arguments.len() {
        untyped_first(arguments, count + 1);
    }
}

/// What the first literals break is what all of them break first.
proof fn literals_fault_first(name: Seq<char>, arguments: Seq<PlannedArgument>, count: int)
    requires
        0 <= count <= arguments.len(),
        literals_fault(name, arguments, count) is Some,
    ensures
        literals_fault(name, arguments, arguments.len() as int) == literals_fault(
            name,
            arguments,
            count,
        ),
    decreases arguments.len() - count,
{
    if count < arguments.len() {
        literals_fault_first(name, arguments, count + 1);
    }
}

impl JevUdf {
    /// What the literal argument at a place breaks by itself.
    fn check_literal(&self, arguments: &Vec<PlannedArgument>, index: usize) -> (result: Result<
        (),
        JevError,
    >)
        requires
            self.well_formed(),
            index < arguments@.len(),
        ensures
            match result {
                Ok(_) => literal_fault(self.name@, arguments@, index as int) is None,
                Err(error) => literal_fault(self.name@, arguments@, index as int) == Some(error@),
            },
    {
        let expected = count_arguments(self);
        let value = match &arguments[index].literal {
            Some(value) => value,
            None => {
                return Ok(());
            },
        };
        if index == 0 {
            if value.is_null() {
                return Ok(());
            }
            match state_json_with_field(value, &arguments[0].extension) {
                Ok(_) => Ok(()),
                Err(error) => Err(error),
            }
        } else if index == 1 {
            let what = if same(self.name, "ask") { "questions" } else { "instructions" };
            match required_text(value, what) {
                Ok(_) => Ok(()),
                Err(error) => Err(error),
            }
        } else if index == expected - 1 {
            match optional_text(value, "model") {
                Ok(Some(model)) => validate_model(Some(model.as_str())),
                Ok(None) => Ok(()),
                Err(error) => Err(error),
            }
        } else {
            Ok(())
        }
    }

    /// What literal questions or criteria break.
    fn check_rubric(&self, arguments: &Vec<PlannedArgument>) -> (result: Result<(), JevError>)
        requires
            self.well_formed(),
            arguments@.len() == arity(self.name@),
        ensures
            match result {
                Ok(_) => rubric_fault(self.name@, arguments@) is None,
                Err(error) => rubric_fault(self.name@, arguments@) == Some(error@),
            },
    {
        proof {
            arity_of(self.name@);
        }
        if same(self.name, "ask") {
            let value = match &arguments[1].literal {
                Some(value) => value,
                None => {
                    return Ok(());
                },
            };
            match required_text(value, "questions") {
                Ok(text) => match parse_questions(text.as_str()) {
                    Ok(_) => Ok(()),
                    Err(error) => Err(error),
                },
                Err(error) => Err(error),
            }
        } else {
            let value = match &arguments[2].literal {
                Some(value) => value,
                None => {
                    return Ok(());
                },
            };
            match optional_text(value, "criteria") {
                Ok(given) => match parse_criteria(&given) {
                    Ok(criteria) => validate_criteria(self.name, &criteria),
                    Err(error) => Err(error),
                },
                Err(error) => Err(error),
            }
        }
    }

    /// Checks a call while the query is planned. The value of a call that is accepted
    /// has the name of the function, its output type, and may be NULL.
    pub fn return_field_from_args(&self, arguments: &Vec<PlannedArgument>) -> (result: Result<
        ResultField<'_>,
        JevError,
    >)
        requires
            self.well_formed(),
        ensures
            ({
                let found = rejection(
                    self.name@,
                    self.provider.api_key,
                    self.provider.key_name@,
                    arguments@,
                );
                match result {
                    Ok(field) => found is None && field.name@ == self.name@ && shape(
                        *field.data_type,
                    ) == output_shape(self.name@) && field.nullable,
                    Err(error) => found == Some(error@),
                }
            }),
    {
        if self.provider.api_key.is_none() {
            let start = join3(self.name, " requires ", self.provider.key_name);
            return Err(
                JevError::plan(join2(start.as_str(), " before planning a Jev query").as_str()),
            );
        }
        let expected = count_arguments(self);
        if arguments.len() != expected {
            return Err(JevError::plan(count_text(self.name, expected).as_str()));
        }
        for index in 1..arguments.len()
            invariant
                self.well_formed(),
                self.provider.api_key is Some,
                arguments@.len() == arity(self.name@),
                arguments@.len() <= 4,
                untyped(arguments@, index as int) is None,
        {
            if !is_text_type(arguments[index].data_type.as_str()) {
                proof {
                    untyped_first(arguments@, index as int + 1);
                }
                let number = decimal_text(index as u64 + 1);
                let start = join3(self.name, " argument ", number.as_str());
                return Err(
                    JevError::plan(join2(start.as_str(), " must be UTF-8 text or NULL").as_str()),
                );
            }
        }
        for index in 0..arguments.len()
            invariant
                self.well_formed(),
                self.provider.api_key is Some,
                arguments@.len() == arity(self.name@),
                untyped(arguments@, arguments@.len() as int) is None,
                literals_fault(self.name@, arguments@, index as int) is None,
        {
            if let Err(error) = self.check_literal(arguments, index) {
                proof {
                    literals_fault_first(self.name@, arguments@, index as int + 1);
                }
                return Err(error.into_plan());
            }
        }
        match self.check_rubric(arguments) {
            Ok(_) => Ok(
                ResultField { name: self.name, data_type: &self.output, nullable: true },
            ),
            Err(error) => Err(error.into_plan()),
        }
    }

    /// The error of the synchronous entry point, which does not exist.
    pub fn invoke_with_args(&self) -> (error: JevError)
        ensures
            error@ == (Fault {
                kind: ErrorKind::NotImplemented,
                message: self.name@ + " requires asynchronous execution"@,
            }),
    {
        JevError {
            kind: ErrorKind::NotImplemented,
            message: join2(self.name, " requires asynchronous execution"),
        }
    }
}

/// A call of literals that planning accepts fails in no row, where the session has a
/// default model.
pub proof fn accepted_literals_do_not_fail(
    name: Seq<char>,
    key: Option<String>,
    key_name: Seq<char>,
    arguments: Seq<PlannedArgument>,
    values: Seq<StateScalar>,
    default_model: Seq<char>,
)
    requires
        is_function(name),
        rejection(name, key, key_name, arguments) is None,
        values.len() == arguments.len(),
        forall|i: int|
            0 <= i < arguments.len() ==> (#[trigger] arguments[i]).literal == Some(values[i]),
        !blank(default_model),
    ensures
        row_asks(name, values, arguments[0].extension, default_model) is Ok,
{
    arity_of(name);
    reveal_strlit("ask");
    reveal_strlit("noul");
    reveal_strlit("choice");
    reveal_strlit("score");
    let count = arguments.len() as int;
    literals_none(name, arguments, count, 0);
    literals_none(name, arguments, count, 1);
    literals_none(name, arguments, count, count - 1);
    assert(arguments[0].literal == Some(values[0]));
    assert(arguments[1].literal == Some(values[1]));
    assert(arguments[count - 1].literal == Some(values[count - 1]));
    if name != "ask"@ {
        assert(arguments[2].literal == Some(values[2]));
        assert(exists|kind: JevQuestionType| name == #[trigger] kind.text());
        assert(kind_named(name) is Some);
    }
}

/// Where literals break nothing, none of them does.
proof fn literals_none(name: Seq<char>, arguments: Seq<PlannedArgument>, count: int, index: int)
    requires
        literals_fault(name, arguments, count) is None,
        0 <= index < count,
    ensures
        literal_fault(name, arguments, index) is None,
    decreases count,
{
    if index < count - 1 {
        literals_none(name, arguments, count - 1, index);
    }
}

/// The names of the functions, in the order in which they are registered.
pub open spec fn function_names() -> Seq<Seq<char>> {
    seq!["noul"@, "choice"@, "score"@, "ask"@]
}

/// What registering the functions adds to a session: the functions and, where the
/// session has no settings yet, its settings.
pub struct Registration {
    pub functions: Vec<JevUdf>,
    pub config: Option<JevConfig>,
}

/// Whether one of some names is registered.
pub open spec fn registered(names: Seq<String>, name: Seq<char>) -> bool {
    exists|i: int| 0 <= i < names.len() && (#[trigger] names[i])@ == name
}

/// The first of the first functions whose name is already taken.
pub open spec fn taken(names: Seq<String>, count: int) -> Option<Seq<char>>
    decreases count,
{
    if count <= 0 {
        None
    } else {
        match taken(names, count - 1) {
            Some(name) => Some(name),
            None => if registered(names, function_names()[count - 1]) {
                Some(function_names()[count - 1])
            } else {
                None
            },
        }
    }
}

/// Whether a name is registered.
fn is_registered(names: &Vec<String>, name: &str) -> (yes: bool)
    ensures
        yes == registered(names@, name@),
{
    for at in 0..names.len()
        invariant
            forall|i: int| 0 <= i < at ==> (#[trigger] names@[i])@ != name@,
    {
        if same(names[at].as_str(), name) {
            return true;
        }
    }
    false
}

/// A taken name among the first functions is the first one among all.
proof fn taken_first(names: Seq<String>, count: int)
    requires
        0 <= count <= 4,
        taken(names, count) is Some,
    ensures
        taken(names, 4) == taken(names, count),
    decreases 4 - count,
{
    if count < 4 {
        taken_first(names, count + 1);
    }
}

/// What registering the functions adds to a session that already has functions with
/// the given names. The whole registration is checked before anything is changed.
pub fn register_jev(names: &Vec<String>, provider: Arc<JevProvider>, configured: bool) -> (result:
    Result<Registration, JevError>)
    ensures
        match result {
            Ok(registration) => {
                &&& taken(names@, 4) is None
                &&& registration.functions@.len() == 4
                &&& forall|i: int|
                    0 <= i < 4 ==> {
                        &&& (#[trigger] registration.functions@[i]).well_formed()
                        &&& registration.functions@[i].name@ == function_names()[i]
                        &&& registration.functions@[i].provider == provider
                    }
                &&& match registration.config {
                    Some(config) => !configured && config.0.model@ == provider.default_model@
                        && config.0.on_error == JevOnError::Fail && !blank(
                        provider.default_model@,
                    ),
                    None => configured,
                }
            },
            Err(error) => match taken(names@, 4) {
                Some(name) => error@ == plan_fault(
                    "Jev cannot replace already registered function "@ + name,
                ),
                None => !configured && blank(provider.default_model@) && error@ == model_fault(),
            },
        },
{
    let mut wanted: Vec<&'static str> = Vec::new();
    let kinds = JevQuestionType::ALL;
    for at in 0..kinds.len()
        invariant
            kinds@ == seq![JevQuestionType::Noul, JevQuestionType::Choice, JevQuestionType::Score],
            wanted@.len() == at,
            forall|i: int| 0 <= i < at ==> (#[trigger] wanted@[i])@ == kinds@[i].text(),
    {
        wanted.push(kinds[at].as_str());
    }
    wanted.push("ask");
    let ghost all = function_names();
    proof {
        assert(kinds@[0] == JevQuestionType::Noul);
        assert(kinds@[1] == JevQuestionType::Choice);
        assert(kinds@[2] == JevQuestionType::Score);
        assert forall|i: int| 0 <= i < 4 implies (#[trigger] wanted@[i])@ == all[i] by {
            if i < 3 {
                assert(wanted@[i]@ == kinds@[i].text());
            }
        }
    }
    for at in 0..wanted.len()
        invariant
            all == function_names(),
            wanted@.len() == 4,
            forall|i: int| 0 <= i < 4 ==> (#[trigger] wanted@[i])@ == all[i],
            taken(names@, at as int) is None,
    {
        assert(wanted@[at as int]@ == all[at as int]);
        if is_registered(names, wanted[at]) {
            proof {
                taken_first(names@, at as int + 1);
            }
            return Err(
                JevError::plan(
                    join2("Jev cannot replace already registered function ", wanted[at]).as_str(),
                ),
            );
        }
    }
    let mut functions: Vec<JevUdf> = Vec::new();
    for at in 0..wanted.len()
        invariant
            all == function_names(),
            wanted@.len() == 4,
            forall|i: int| 0 <= i < 4 ==> (#[trigger] wanted@[i])@ == all[i],
            taken(names@, 4) is None,
            functions@.len() == at,
            forall|i: int|
                0 <= i < at ==> {
                    &&& (#[trigger] functions@[i]).well_formed()
                    &&& functions@[i].name@ == all[i]
                    &&& functions@[i].provider == provider
                },
    {
        assert(wanted@[at as int]@ == all[at as int]);
        proof {
            functions_exist(at as int);
        }
        match JevUdf::new(wanted[at], provider.clone()) {
            Ok(function) => functions.push(function),
            Err(error) => {
                return Err(error);
            },
        }
    }
    if configured {
        return Ok(Registration { functions, config: None });
    }
    let options = JevSessionOptions {
        model: provider.default_model.clone(),
        on_error: JevOnError::Fail,
    };
    match JevConfig::try_from_options(options) {
        Ok(config) => Ok(Registration { functions, config: Some(config) }),
        Err(error) => Err(error),
    }
}

/// Each name that is registered is the name of a function.
proof fn functions_exist(at: int)
    requires
        0 <= at < 4,
    ensures
        is_function(function_names()[at]),
{
    if at == 0 {
        assert(JevQuestionType::Noul.text() == function_names()[at]);
    } else if at == 1 {
        assert(JevQuestionType::Choice.text() == function_names()[at]);
    } else if at == 2 {
        assert(JevQuestionType::Score.text() == function_names()[at]);
    }
}

/// Where one of the functions is registered, they cannot be registered again.
pub proof fn functions_register_once(names: Seq<String>, at: int)
    requires
        0 <= at < 4,
        registered(names, function_names()[at]),
    ensures
        taken(names, 4) is Some,
{
    taken_first(names, at + 1);
}

} // verus!
