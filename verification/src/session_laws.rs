//! What settings, errors and names say.
use vstd::prelude::*;

use crate::contract::{JevOnError, JevQuestionType};
use crate::errors::{plan_fault, row_fault, shown, ErrorKind, Fault};
use crate::questions::kind_named;
use crate::session::setting;
use crate::text::blank;

verus! {

/// Two settings can be set, each to what it takes and without touching the other: what a failed
/// row does, to "fail" or "null", and the model, to anything that is not blank. Everything else
/// is refused as an error of configuration.
pub proof fn settings_take_their_values(
    model: Seq<char>,
    on_error: JevOnError,
    key: Seq<char>,
    value: Seq<char>,
)
    ensures
        setting(model, on_error, key, value) is Ok <==> {
            ||| key == "on_error"@ && (value == "fail"@ || value == "null"@)
            ||| key == "model"@ && !blank(value)
        },
        setting(model, on_error, key, value) matches Ok((set, policy)) ==> {
            &&& key == "model"@ ==> set == value && policy == on_error
            &&& key == "on_error"@ ==> set == model && (policy is Fail <==> value == "fail"@) && (
            policy is Null <==> value == "null"@)
        },
        setting(model, on_error, key, value) matches Err(fault) ==> fault.kind is Configuration,
{
    reveal_strlit("on_error");
    reveal_strlit("model");
    reveal_strlit("fail");
    reveal_strlit("null");
    assert("on_error"@.len() == 8 && "model"@.len() == 5);
    assert("fail"@[0] == 'f' && "null"@[0] == 'n');
}

/// The policies and the kinds of questions go by their names.
pub proof fn names_are_read_back(policy: JevOnError, kind: JevQuestionType)
    ensures
        policy is Fail ==> policy.text() == "fail"@,
        policy is Null ==> policy.text() == "null"@,
        kind is Noul <==> kind.text() == "noul"@,
        kind is Choice <==> kind.text() == "choice"@,
        kind is Score <==> kind.text() == "score"@,
        kind_named(kind.text()) == Some(kind),
{
    reveal_strlit("noul");
    reveal_strlit("choice");
    reveal_strlit("score");
    assert("noul"@.len() == 4 && "choice"@.len() == 6 && "score"@.len() == 5);
}

/// Errors say where they come from before they say what they are.
pub proof fn errors_say_their_origin(message: Seq<char>)
    ensures
        shown(row_fault(message)) == "Execution error: "@ + message,
        shown(plan_fault(message)) == "Error during planning: "@ + message,
        shown(Fault { kind: ErrorKind::Configuration, message })
            == "Invalid or Unsupported Configuration: "@ + message,
        shown(Fault { kind: ErrorKind::Internal, message }) == "Internal error: "@ + message,
        shown(Fault { kind: ErrorKind::NotImplemented, message })
            == "This feature is not implemented: "@ + message,
        shown(Fault { kind: ErrorKind::ResourcesExhausted, message }) == "Resources exhausted: "@
            + message,
{
}

} // verus!
