//! SQL functions that ask a model for typed judgments about a row.
//!
//! `noul`, `choice`, `score` and `ask` turn a row into one JSON request, send it
//! to a server and give the answer back as an Arrow value. This crate holds
//! everything in between: which values may be sent and in which exact bytes,
//! how planning rejects a call, when a request is sent again, what is shared
//! between rows, and how plans are rearranged around calls that cost money.

pub mod answer_laws;
pub mod answers;
pub mod arrow_json;
pub mod canonical;
pub mod column_laws;
pub mod contract;
pub mod distinct;
pub mod equivalence;
pub mod error_laws;
pub mod errors;
pub mod execution;
pub mod expression;
pub mod joins;
pub mod json;
pub mod json_laws;
pub mod metrics;
pub mod number;
pub mod parse;
pub mod parse_laws;
pub mod plan;
pub mod plan_laws;
pub mod planner;
pub mod provider;
pub mod provider_laws;
pub mod question_laws;
pub mod questions;
pub mod reuse;
pub mod session;
pub mod session_laws;
pub mod settled;
pub mod spend;
pub mod spend_laws;
pub mod sql;
pub mod sql_laws;
pub mod state;
pub mod state_laws;
pub mod text;
pub mod tokens;
pub mod udf;
pub mod udf_laws;
pub mod value_laws;
pub mod variant;
pub mod variant_laws;
pub mod writing_laws;

pub use contract::{
    JevArgumentName, JevChoiceResult, JevOnError, JevQuestion, JevQuestionType, JevRequest,
    JevScoreResult, JevSessionOptions,
};
pub use errors::{ErrorKind, JevError};
pub use metrics::JevMetrics;
pub use provider::{Compatible, JevHttpError, JevProvider, OpenRouter, TypeSafe};
pub use session::JevConfig;
pub use sql::{normalize_jev_sql, parameter_names, try_normalize_jev_sql};
pub use udf::{register_jev, JevUdf};

pub use register_jev as register;
