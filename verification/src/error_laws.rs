//! What errors say: the words that a query's author reads.
use vstd::prelude::*;

use crate::answers::{field_fault, probability_fault, response_fault};
use crate::canonical::{nesting_fault, size_fault};
use crate::errors::{shown, ErrorKind, Fault};
use crate::execution::{outgrown, overflown, response_overflown, unallocated};
use crate::number::exponent_fault;
use crate::parse::{column, duplicate_fault, input_fault, json_fault, newlines};
use crate::provider::{key_fault, response_size_fault};
use crate::questions::criteria_fault;
use crate::session::model_fault;
use crate::state::{lossless_fault, rows_fault, state_fault};
use crate::text::decimal;
use crate::udf::count_message;
use crate::variant::{
    binary_fault, struct_fault, variant_fault, variant_keys_fault, variant_type_fault,
};

verus! {

/// An error of one row with some words.
pub open spec fn says(fault: Fault, words: Seq<char>) -> bool {
    shown(fault) == "Execution error: "@ + words && fault.kind is Execution
}

/// What is said of a state that cannot be sent.
pub proof fn unsendable_states(kind: Seq<char>)
    ensures
        says(
            state_fault(),
            "Jev state must be text, a JSON object or array, Struct, Map, or JSON-compatible Variant"@,
        ),
        says(nesting_fault(), "Jev state exceeds 64 nesting levels"@),
        says(
            size_fault(),
            "Jev state/request exceeds the local 1048576-byte JSON limit; reduce the input (provider context limits also apply)"@,
        ),
        says(exponent_fault(), "Jev JSON number exponent is out of range"@),
        says(rows_fault(), "Jev state ScalarValue containers must contain exactly one row"@),
        says(
            lossless_fault(kind),
            "Jev state cannot represent "@ + kind
                + " losslessly in JSON; cast explicitly to a supported form"@,
        ),
        says(struct_fault(), "Jev state Struct has duplicate field names"@),
        says(variant_fault(), "Jev state contains invalid Parquet Variant data"@),
        says(
            binary_fault(),
            "Jev Parquet Variant metadata/value fields must have binary storage"@,
        ),
        says(variant_keys_fault(), "Jev state Variant has duplicate object keys"@),
        says(
            variant_type_fault(),
            "Jev state cannot represent this Parquet Variant type losslessly in JSON; cast timestamps, dates, binary, UUIDs, or non-finite numbers explicitly to a supported form"@,
        ),
{
}

/// What is said of text that is no acceptable JSON.
pub proof fn unreadable_texts(message: Seq<char>)
    ensures
        says(json_fault(message), "Invalid Jev JSON: "@ + message),
        says(input_fault(), "Jev input contains invalid JSON"@),
{
}

/// What is said of criteria, models and keys.
pub proof fn unusable_arguments(function: Seq<char>, key_name: Seq<char>, expected: nat)
    ensures
        says(
            criteria_fault("noul"@),
            "noul criteria must be a JSON object with true/false rubrics, or SQL NULL"@,
        ),
        says(criteria_fault("choice"@), "choice criteria must be a nonempty JSON object"@),
        says(
            criteria_fault("score"@),
            "score criteria must be a JSON array with at least two ordered levels"@,
        ),
        says(model_fault(), "Jev model cannot be empty"@),
        says(key_fault(function, key_name), function + " requires "@ + key_name),
        count_message(function, expected) == function + " expects "@ + decimal(expected)
            + " arguments after optional defaults are filled"@,
{
    reveal_strlit("noul");
    reveal_strlit("choice");
    reveal_strlit("score");
    assert("noul"@.len() == 4 && "choice"@.len() == 6 && "score"@.len() == 5);
}

/// What is said of responses.
pub proof fn unusable_responses(function: Seq<char>, field: Seq<char>)
    ensures
        says(response_fault(), "invalid Jev JSON value"@),
        says(
            field_fault(function, field),
            "invalid Jev "@ + function + " response field "@ + field,
        ),
        says(probability_fault(field), "Jev "@ + field + " is outside 0.0..=1.0"@),
        says(response_size_fault(), "Jev response exceeds the local 1048576-byte JSON limit"@),
{
}

/// What is said where the memory for shared answers runs out, which ends the query.
pub proof fn exhausted_memory()
    ensures
        outgrown() == (Fault {
            kind: ErrorKind::ResourcesExhausted,
            message: "Jev cache index exceeded its reserved allocation"@,
        }),
        overflown() == (Fault {
            kind: ErrorKind::ResourcesExhausted,
            message: "Jev cache index size overflow"@,
        }),
        unallocated() == (Fault {
            kind: ErrorKind::ResourcesExhausted,
            message: "could not allocate Jev batch cache index"@,
        }),
        response_overflown() == (Fault {
            kind: ErrorKind::ResourcesExhausted,
            message: "Jev cached response size overflow"@,
        }),
{
}

/// Where in a text something stands is said by its line and column: lines are counted from one,
/// a line end starts the next line.
pub proof fn places_are_counted(seen: Seq<u8>, byte: u8)
    ensures
        newlines(Seq::empty()) == 0,
        column(Seq::empty()) == 0,
        newlines(seen.push(byte)) == newlines(seen) + (if byte == 0x0a {
            1nat
        } else {
            0
        }),
        column(seen.push(byte)) == (if byte == 0x0a {
            0nat
        } else {
            column(seen) + 1
        }),
        says(
            duplicate_fault(seen),
            "Invalid Jev JSON: "@ + ("Jev state JSON has duplicate object keys at line "@
                + decimal(1 + newlines(seen)) + " column "@ + decimal(column(seen))),
        ),
{
    assert(seen.push(byte).drop_last() =~= seen);
    assert(seen.push(byte).last() == byte);
}

} // verus!
