//! What a call of one of the functions asks, accepts and gives, told from its arguments.
use vstd::prelude::*;

use crate::answers::answered;
use crate::contract::{JevArgumentName, JevOnError, JevQuestionType, Request};
use crate::errors::{fatal, ErrorKind, Fault};
use crate::json::Json;
use crate::parse::{parsed, structured};
use crate::question_laws::suits;
use crate::questions::{criteria_fit, questions_text};
use crate::sql::parameters;
use crate::state::{null, state_of, StateScalar};
use crate::text::{blank, white};
use crate::udf::{
    arity, batch_values, ends_batch, function_names, kept, literal_fault, literals_fault,
    registered, rejection, row_asks, rubric_fault, shared_value, taken, text_type, untyped,
    PlannedArgument,
};

verus! {

/// A failure that concerns one row: of execution, or of a server that refused this request
/// alone. Any other ends the query.
pub proof fn only_row_failures_can_be_borne(fault: Fault)
    ensures
        !fatal(fault) <==> fault.kind is Execution || (fault.kind matches ErrorKind::Http {
            fatal,
            ..
        } && !fatal),
{
}

/// Whether a failure concerns one row alone.
pub open spec fn of_one_row(fault: Fault) -> bool {
    match fault.kind {
        ErrorKind::Execution => true,
        ErrorKind::Http { fatal, .. } => !fatal,
        _ => false,
    }
}

/// Under the policy "fail" any failure ends the query; under "null" a failure of one row leaves
/// null in that row, and the other rows have their own values. Every row gets one value, in its
/// place.
pub proof fn rows_keep_their_places(results: Seq<Result<Json, Fault>>, policy: JevOnError)
    ensures
        batch_values(results, policy) is Ok <==> forall|i: int|
            0 <= i < results.len() ==> (#[trigger] results[i] is Ok || (policy is Null
                && of_one_row(results[i]->Err_0))),
        batch_values(results, policy) matches Ok(values) ==> values.len() == results.len()
            && forall|i: int|
            0 <= i < values.len() ==> (#[trigger] values[i] == if results[i] is Ok {
                results[i]->Ok_0
            } else {
                Json::Null
            }),
    decreases results.len(),
{
    if results.len() > 0 {
        let rest = results.drop_last();
        rows_keep_their_places(rest, policy);
        if forall|i: int|
            0 <= i < results.len() ==> (#[trigger] results[i] is Ok || (policy is Null
                && of_one_row(results[i]->Err_0))) {
            assert forall|i: int| 0 <= i < rest.len() implies (#[trigger] rest[i] is Ok || (
            policy is Null && of_one_row(rest[i]->Err_0))) by {
                assert(rest[i] == results[i]);
            }
            assert(results[results.len() - 1] is Ok || (policy is Null && of_one_row(
                results[results.len() - 1]->Err_0,
            )));
        }
        if batch_values(results, policy) is Ok {
            let values = batch_values(results, policy)->Ok_0;
            let before = batch_values(rest, policy)->Ok_0;
            assert forall|i: int| 0 <= i < values.len() implies (#[trigger] values[i]
                == if results[i] is Ok {
                results[i]->Ok_0
            } else {
                Json::Null
            }) by {
                if i < rest.len() {
                    assert(values[i] == before[i]);
                    assert(rest[i] == results[i]);
                }
            }
            assert forall|i: int| 0 <= i < results.len() implies (#[trigger] results[i] is Ok || (
            policy is Null && of_one_row(results[i]->Err_0))) by {
                if i < rest.len() {
                    assert(rest[i] == results[i]);
                }
            }
        }
    }
}

/// The names of the functions and of their arguments.
proof fn functions_have_arguments()
    ensures
        arity("noul"@) == 4,
        arity("choice"@) == 4,
        arity("score"@) == 4,
        arity("ask"@) == 3,
        "noul"@ != "ask"@,
        "choice"@ != "ask"@,
        "score"@ != "ask"@,
        "noul"@ != "choice"@,
        "noul"@ != "score"@,
        "choice"@ != "score"@,
{
    reveal_strlit("noul");
    reveal_strlit("choice");
    reveal_strlit("score");
    reveal_strlit("ask");
    assert("noul"@.len() == 4 && "choice"@.len() == 6 && "score"@.len() == 5 && "ask"@.len()
        == 3);
    assert(JevQuestionType::Noul.text() == "noul"@);
    assert(JevQuestionType::Choice.text() == "choice"@);
    assert(JevQuestionType::Score.text() == "score"@);
}

/// The four functions and no others can be called: a probability, a choice and a score on a
/// state, instructions, criteria and a model, several questions on a state, the questions and a
/// model, each in this order.
pub proof fn four_functions_take_arguments(name: Seq<char>)
    ensures
        parameters(name) is Some <==> name == "noul"@ || name == "choice"@ || name == "score"@
            || name == "ask"@,
        parameters(name) matches Some(arguments) ==> {
            &&& arguments[0] == JevArgumentName::State
            &&& arguments.last() == JevArgumentName::Model
            &&& name == "ask"@ ==> arguments.len() == 3 && arguments[1]
                == JevArgumentName::Questions
            &&& name != "ask"@ ==> arguments.len() == 4 && arguments[1]
                == JevArgumentName::Instructions && arguments[2] == JevArgumentName::Criteria
        },
        JevArgumentName::State.text() == "state"@,
        JevArgumentName::Instructions.text() == "instructions"@,
        JevArgumentName::Criteria.text() == "criteria"@,
        JevArgumentName::Questions.text() == "questions"@,
        JevArgumentName::Model.text() == "model"@,
{
    functions_have_arguments();
    assert(JevQuestionType::Noul.text() == "noul"@);
    assert(JevQuestionType::Choice.text() == "choice"@);
    assert(JevQuestionType::Score.text() == "score"@);
    if exists|kind: JevQuestionType| name == #[trigger] kind.text() {
        let kind = choose|kind: JevQuestionType| name == #[trigger] kind.text();
        assert(name == "noul"@ || name == "choice"@ || name == "score"@);
    }
}

/// A row whose state is NULL asks nothing. Any other row that can ask, asks about its own
/// state, of the model that the call names or else of the session's.
pub proof fn rows_ask_about_their_state(
    name: Seq<char>,
    values: Seq<StateScalar>,
    extension: Option<String>,
    default_model: Seq<char>,
)
    requires
        parameters(name) is Some,
        values.len() == parameters(name).unwrap().len(),
        !(values[0] is Unreadable),
    ensures
        null(values[0]) ==> row_asks(name, values, extension, default_model) == Ok::<
            Option<Request>,
            Fault,
        >(None),
        !null(values[0]) ==> !(row_asks(name, values, extension, default_model) == Ok::<
            Option<Request>,
            Fault,
        >(None)),
        row_asks(name, values, extension, default_model) matches Ok(Some(request)) ==> {
            &&& state_of(values[0], extension) == Ok::<_, Fault>(request.state)
            &&& match values[values.len() - 1] {
                StateScalar::Text(model) => request.model == model@,
                _ => request.model == default_model && null(values[values.len() - 1]),
            }
            &&& exists|i: int|
                0 <= i < request.model.len() && !white(#[trigger] request.model[i])
        },
{
    four_functions_take_arguments(name);
}

/// A probability, a choice or a score asks one question, under the name "q0": of the kind of
/// the function, with the instructions (as a structure where they hold an object or an array),
/// and with the criteria that the call gives.
pub proof fn calls_ask_one_question(
    name: Seq<char>,
    kind: JevQuestionType,
    values: Seq<StateScalar>,
    extension: Option<String>,
    default_model: Seq<char>,
)
    requires
        name == match kind {
            JevQuestionType::Noul => "noul"@,
            JevQuestionType::Choice => "choice"@,
            JevQuestionType::Score => "score"@,
        },
        values.len() == 4,
    ensures
        row_asks(name, values, extension, default_model) matches Ok(Some(request)) ==> {
            &&& request.questions.len() == 1
            &&& request.questions[0].0 == "q0"@
            &&& request.questions[0].1.kind == kind
            &&& values[1] matches StateScalar::Text(text) && match structured(text@) {
                Ok(Some(inner)) => request.questions[0].1.instructions == inner,
                _ => request.questions[0].1.instructions == Json::Text(text@),
            }
            &&& match values[2] {
                StateScalar::Text(text) => parsed(text@) matches Ok(criteria)
                    && request.questions[0].1.criteria == Some(criteria),
                _ => null(values[2]) && request.questions[0].1.criteria is None,
            }
            &&& suits(kind, request.questions[0].1.criteria)
        },
{
    functions_have_arguments();
}

/// Several questions are asked as the call's text says them.
pub proof fn ask_asks_the_given_questions(
    values: Seq<StateScalar>,
    extension: Option<String>,
    default_model: Seq<char>,
)
    requires
        values.len() == 3,
    ensures
        row_asks("ask"@, values, extension, default_model) matches Ok(Some(request)) ==> (
        values[1] matches StateScalar::Text(text) && questions_text(text@) == Ok::<_, Fault>(
            request.questions,
        )),
{
}

/// Whether a call's criteria are given as they should be: NULL or a text that holds JSON, and
/// what suits the kind.
pub open spec fn criteria_given(kind: JevQuestionType, value: StateScalar) -> bool {
    match value {
        StateScalar::Text(text) => parsed(text@) matches Ok(criteria) && suits(
            kind,
            Some(criteria),
        ),
        _ => null(value) && !(value is Unreadable) && suits(kind, None),
    }
}

/// A call with a state that can be sent, instructions, suitable criteria and a model asks.
pub proof fn complete_calls_ask(
    name: Seq<char>,
    kind: JevQuestionType,
    values: Seq<StateScalar>,
    extension: Option<String>,
    default_model: Seq<char>,
)
    requires
        name == match kind {
            JevQuestionType::Noul => "noul"@,
            JevQuestionType::Choice => "choice"@,
            JevQuestionType::Score => "score"@,
        },
        values.len() == 4,
        !(values[0] is Unreadable) && !null(values[0]),
        state_of(values[0], extension) is Ok,
        values[1] is Text,
        criteria_given(kind, values[2]),
        match values[3] {
            StateScalar::Text(model) => !blank(model@),
            _ => null(values[3]) && !(values[3] is Unreadable) && !blank(default_model),
        },
    ensures
        row_asks(name, values, extension, default_model) matches Ok(request) && request is Some,
{
    functions_have_arguments();
}

/// A reply is kept for later rows with the same request: an answer as it is, a failure of one
/// row as a failure; what ends the query is not kept. Nothing else that is kept changes.
pub proof fn replies_are_kept(
    responses: Map<Seq<u8>, Option<Seq<char>>>,
    key: Seq<u8>,
    other: Seq<u8>,
    reply: Result<Seq<char>, Fault>,
)
    requires
        !responses.contains_key(key),
    ensures
        ({
            let after = kept(responses, key, reply);
            &&& reply matches Ok(raw) ==> after.contains_key(key) && after[key] == Some(raw)
            &&& reply matches Err(fault) ==> if of_one_row(fault) {
                after.contains_key(key) && after[key] is None
            } else {
                !after.contains_key(key)
            }
            &&& other != key ==> (after.contains_key(other) <==> responses.contains_key(other))
            &&& other != key && responses.contains_key(other) ==> after[other] == responses[other]
            &&& ends_batch(reply) <==> reply is Err && !of_one_row(reply->Err_0)
        }),
{
}

/// A kept answer gives a later row what it gave the first; a kept failure fails that row too,
/// and that row alone.
pub proof fn kept_replies_answer(name: Seq<char>, raw: Seq<char>)
    ensures
        shared_value(name, Some(raw)) == answered(name, raw),
        shared_value(name, None) matches Err(fault) && of_one_row(fault),
{
}

/// Planning accepts a call exactly where a key is set, all arguments are there, those behind
/// the state are texts or NULL, and nothing that is written into the query could fail for every
/// row. Whatever it refuses is an error of planning.
pub proof fn planning_checks_calls(
    name: Seq<char>,
    key: Option<String>,
    key_name: Seq<char>,
    arguments: Seq<PlannedArgument>,
)
    requires
        parameters(name) is Some,
    ensures
        rejection(name, key, key_name, arguments) matches Some(fault) ==> fault.kind is Plan,
        rejection(name, key, key_name, arguments) is None ==> {
            &&& key is Some
            &&& arguments.len() == (if name == "ask"@ {
                3int
            } else {
                4
            })
            &&& forall|i: int|
                1 <= i < arguments.len() ==> ((#[trigger] arguments[i]).data_type@ == "Utf8"@
                    || arguments[i].data_type@ == "LargeUtf8"@ || arguments[i].data_type@
                    == "Utf8View"@ || arguments[i].data_type@ == "Null"@)
        },
        key is Some && arguments.len() == (if name == "ask"@ {
            3int
        } else {
            4
        }) && (forall|i: int|
            1 <= i < arguments.len() ==> ((#[trigger] arguments[i]).data_type@ == "Utf8"@
                || arguments[i].data_type@ == "LargeUtf8"@ || arguments[i].data_type@
                == "Utf8View"@ || arguments[i].data_type@ == "Null"@)) && (forall|i: int|
            0 <= i < arguments.len() ==> (#[trigger] arguments[i]).literal is None) ==> rejection(
            name,
            key,
            key_name,
            arguments,
        ) is None,
{
    four_functions_take_arguments(name);
    functions_have_arguments();
    all_typed(arguments, arguments.len() as int);
    if forall|i: int| 0 <= i < arguments.len() ==> (#[trigger] arguments[i]).literal is None {
        nothing_written(name, arguments, arguments.len() as int);
    }
}

/// No argument is found untyped exactly where all are texts or NULL.
proof fn all_typed(arguments: Seq<PlannedArgument>, count: int)
    requires
        count <= arguments.len(),
    ensures
        untyped(arguments, count) is None <==> forall|i: int|
            1 <= i < count ==> text_type((#[trigger] arguments[i]).data_type@),
    decreases count,
{
    if count > 1 {
        all_typed(arguments, count - 1);
    }
}

/// Where nothing is written into the query, nothing written can fail.
proof fn nothing_written(name: Seq<char>, arguments: Seq<PlannedArgument>, count: int)
    requires
        0 <= count <= arguments.len(),
        forall|i: int| 0 <= i < arguments.len() ==> (#[trigger] arguments[i]).literal is None,
    ensures
        literals_fault(name, arguments, count) is None,
    decreases count,
{
    if count > 0 {
        nothing_written(name, arguments, count - 1);
    }
}

/// Registering is refused exactly where one of the four functions is there already.
pub proof fn registering_replaces_nothing(names: Seq<String>)
    ensures
        taken(names, 4) is None <==> forall|i: int|
            0 <= i < names.len() ==> (#[trigger] names[i])@ != "noul"@ && names[i]@ != "choice"@
                && names[i]@ != "score"@ && names[i]@ != "ask"@,
        taken(names, 4) matches Some(name) ==> exists|i: int|
            0 <= i < names.len() && (#[trigger] names[i])@ == name,
{
    reveal_with_fuel(taken, 5);
    let all = seq!["noul"@, "choice"@, "score"@, "ask"@];
    assert(function_names() == all);
    assert(all[0] == "noul"@ && all[1] == "choice"@ && all[2] == "score"@ && all[3] == "ask"@);
    if taken(names, 4) is None {
        assert(!registered(names, all[0]) && !registered(names, all[1]) && !registered(
            names,
            all[2],
        ) && !registered(names, all[3]));
        assert forall|i: int| 0 <= i < names.len() implies (#[trigger] names[i])@ != "noul"@
            && names[i]@ != "choice"@ && names[i]@ != "score"@ && names[i]@ != "ask"@ by {}
    }
}

/// Several questions on a state that can be sent are asked, where they can be asked and a model
/// is there.
pub proof fn complete_questions_are_asked(
    values: Seq<StateScalar>,
    extension: Option<String>,
    default_model: Seq<char>,
)
    requires
        values.len() == 3,
        !(values[0] is Unreadable) && !null(values[0]),
        state_of(values[0], extension) is Ok,
        values[1] matches StateScalar::Text(text) && questions_text(text@) is Ok,
        match values[2] {
            StateScalar::Text(model) => !blank(model@),
            _ => null(values[2]) && !(values[2] is Unreadable) && !blank(default_model),
        },
    ensures
        row_asks("ask"@, values, extension, default_model) matches Ok(request) && request is Some,
{
}

/// Planning refuses nothing that would ask: a call whose arguments are all written into the
/// query and would send a request is accepted.
pub proof fn planning_accepts_what_asks(
    name: Seq<char>,
    key: Option<String>,
    key_name: Seq<char>,
    arguments: Seq<PlannedArgument>,
    values: Seq<StateScalar>,
    default_model: Seq<char>,
)
    requires
        parameters(name) is Some,
        key is Some,
        arguments.len() == (if name == "ask"@ {
            3int
        } else {
            4
        }),
        values.len() == arguments.len(),
        forall|i: int|
            0 <= i < arguments.len() ==> (#[trigger] arguments[i]).literal == Some(values[i]),
        forall|i: int|
            1 <= i < arguments.len() ==> ((#[trigger] arguments[i]).data_type@ == "Utf8"@
                || arguments[i].data_type@ == "Null"@),
        row_asks(name, values, arguments[0].extension, default_model) matches Ok(Some(_)),
    ensures
        rejection(name, key, key_name, arguments) is None,
{
    four_functions_take_arguments(name);
    functions_have_arguments();
    all_typed(arguments, arguments.len() as int);
    assert forall|i: int| 1 <= i < arguments.len() implies text_type(
        (#[trigger] arguments[i]).data_type@,
    ) by {}
    let count = arguments.len() as int;
    assert(arguments[0].literal == Some(values[0]));
    assert(arguments[1].literal == Some(values[1]));
    assert(arguments[2].literal == Some(values[2]));
    assert(arguments[count - 1].literal == Some(values[count - 1]));
    assert forall|i: int| 0 <= i < count implies #[trigger] literal_fault(name, arguments, i)
        is None by {}
    literals_pass(name, arguments, count);
}

/// Where no written argument fails, none of them does.
proof fn literals_pass(name: Seq<char>, arguments: Seq<PlannedArgument>, count: int)
    requires
        0 <= count <= arguments.len(),
        forall|i: int| 0 <= i < count ==> #[trigger] literal_fault(name, arguments, i) is None,
    ensures
        literals_fault(name, arguments, count) is None,
    decreases count,
{
    if count > 0 {
        literals_pass(name, arguments, count - 1);
    }
}

/// Whether an argument that is written into the query can be used in every row: a state that
/// can be sent, or NULL; instructions or questions that are texts; criteria that suit the kind;
/// a model that is not blank, or NULL.
pub open spec fn usable(name: Seq<char>, argument: PlannedArgument, place: int) -> bool {
    argument.literal matches Some(value) ==> if place == 0 {
        null(value) || state_of(value, argument.extension) is Ok
    } else if place == 1 {
        value matches StateScalar::Text(text) && (name == "ask"@ ==> questions_text(text@) is Ok)
    } else if place == 2 && name != "ask"@ {
        exists|kind: JevQuestionType| #[trigger] kind.text() == name && criteria_given(kind, value)
    } else {
        match value {
            StateScalar::Text(model) => !blank(model@),
            _ => null(value) && !(value is Unreadable),
        }
    }
}

/// Every argument that is written into the query is checked when it is planned, each for
/// itself: a call with a key and all its arguments is accepted exactly where those behind the
/// state are texts or NULL and what is written can be used in every row.
pub proof fn written_arguments_are_checked(
    name: Seq<char>,
    key: Option<String>,
    key_name: Seq<char>,
    arguments: Seq<PlannedArgument>,
)
    requires
        parameters(name) is Some,
        key is Some,
        arguments.len() == (if name == "ask"@ {
            3int
        } else {
            4
        }),
        forall|i: int|
            1 <= i < arguments.len() ==> ((#[trigger] arguments[i]).data_type@ == "Utf8"@
                || arguments[i].data_type@ == "LargeUtf8"@ || arguments[i].data_type@
                == "Utf8View"@ || arguments[i].data_type@ == "Null"@),
    ensures
        rejection(name, key, key_name, arguments) is None <==> forall|i: int|
            0 <= i < arguments.len() ==> usable(name, #[trigger] arguments[i], i),
{
    four_functions_take_arguments(name);
    functions_have_arguments();
    let count = arguments.len() as int;
    all_typed(arguments, count);
    assert forall|i: int| 1 <= i < arguments.len() implies text_type(
        (#[trigger] arguments[i]).data_type@,
    ) by {}
    literals_checked(name, arguments, count);
    if name != "ask"@ {
        let kind = if name == "noul"@ {
            JevQuestionType::Noul
        } else if name == "choice"@ {
            JevQuestionType::Choice
        } else {
            JevQuestionType::Score
        };
        assert(kind.text() == name);
        assert forall|other: JevQuestionType| #[trigger] other.text() == name implies other
            == kind by {}
        rubrics_are_checked(name, kind, arguments);
        assert(literal_fault(name, arguments, 2) is None);
        assert(literal_fault(name, arguments, 0) is None && literal_fault(name, arguments, 1)
            is None && literal_fault(name, arguments, 3) is None <==> usable(
            name,
            arguments[0],
            0,
        ) && usable(name, arguments[1], 1) && usable(name, arguments[3], 3));
    } else {
        assert(literal_fault(name, arguments, 0) is None <==> usable(name, arguments[0], 0));
        assert(literal_fault(name, arguments, 2) is None <==> usable(name, arguments[2], 2));
        assert(literal_fault(name, arguments, 1) is None && rubric_fault(name, arguments) is None
            <==> usable(name, arguments[1], 1));
    }
    if rejection(name, key, key_name, arguments) is None {
        assert(literal_fault(name, arguments, 0) is None);
        assert(literal_fault(name, arguments, 1) is None);
        assert(literal_fault(name, arguments, 2) is None);
        assert(literal_fault(name, arguments, count - 1) is None);
        assert forall|i: int| 0 <= i < arguments.len() implies usable(
            name,
            #[trigger] arguments[i],
            i,
        ) by {}
    }
    if forall|i: int| 0 <= i < arguments.len() ==> usable(name, #[trigger] arguments[i], i) {
        assert(usable(name, arguments[0], 0) && usable(name, arguments[1], 1) && usable(
            name,
            arguments[2],
            2,
        ) && usable(name, arguments[count - 1], count - 1));
        assert forall|i: int| 0 <= i < count implies #[trigger] literal_fault(name, arguments, i)
            is None by {
            assert(i == 0 || i == 1 || i == 2 || i == 3);
        }
    }
}

/// Criteria that are written into the query are checked for the kind.
proof fn rubrics_are_checked(
    name: Seq<char>,
    kind: JevQuestionType,
    arguments: Seq<PlannedArgument>,
)
    requires
        kind.text() == name,
        name != "ask"@,
        arguments.len() == 4,
    ensures
        rubric_fault(name, arguments) is None <==> (arguments[2].literal matches Some(value)
            ==> criteria_given(kind, value)),
{
    functions_have_arguments();
    if let Some(value) = arguments[2].literal {
        if let StateScalar::Text(text) = value {
            if let Ok(criteria) = parsed(text@) {
                assert(criteria_fit(name, Some(criteria)) <==> suits(kind, Some(criteria)));
            }
        }
        assert(criteria_fit(name, None) <==> suits(kind, None));
    }
}

/// No written argument is found to fail exactly where none fails.
proof fn literals_checked(name: Seq<char>, arguments: Seq<PlannedArgument>, count: int)
    requires
        0 <= count <= arguments.len(),
    ensures
        literals_fault(name, arguments, count) is None <==> forall|i: int|
            0 <= i < count ==> #[trigger] literal_fault(name, arguments, i) is None,
    decreases count,
{
    if count > 0 {
        literals_checked(name, arguments, count - 1);
    }
}

/// A row whose state cannot be handed out fails with the reason for that.
pub proof fn unreadable_states_fail(
    name: Seq<char>,
    values: Seq<StateScalar>,
    extension: Option<String>,
    default_model: Seq<char>,
)
    requires
        values.len() > 0,
    ensures
        values[0] matches StateScalar::Unreadable(error) ==> row_asks(
            name,
            values,
            extension,
            default_model,
        ) == Err::<Option<Request>, _>(error@),
{
}

/// The first failure that cannot be borne is the one that ends the query.
pub proof fn the_first_failure_ends_the_query(
    results: Seq<Result<Json, Fault>>,
    policy: JevOnError,
    at: int,
)
    requires
        0 <= at < results.len(),
        results[at] is Err,
        policy is Fail || !of_one_row(results[at]->Err_0),
        forall|i: int|
            0 <= i < at ==> (#[trigger] results[i] is Ok || (policy is Null && of_one_row(
                results[i]->Err_0,
            ))),
    ensures
        batch_values(results, policy) == Err::<Seq<Json>, _>(results[at]->Err_0),
    decreases results.len(),
{
    let rest = results.drop_last();
    if at < rest.len() {
        assert forall|i: int| 0 <= i < at implies (#[trigger] rest[i] is Ok || (policy is Null
            && of_one_row(rest[i]->Err_0))) by {
            assert(rest[i] == results[i]);
        }
        the_first_failure_ends_the_query(rest, policy, at);
    } else {
        assert forall|i: int| 0 <= i < rest.len() implies (#[trigger] rest[i] is Ok || (
        policy is Null && of_one_row(rest[i]->Err_0))) by {
            assert(rest[i] == results[i]);
        }
        rows_keep_their_places(rest, policy);
        assert(results.last() == results[at]);
    }
}

} // verus!
