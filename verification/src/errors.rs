//! The error value of the library and the texts that it carries.
use vstd::prelude::*;

use crate::text::join2;

verus! {

/// What an error is about, as far as the null policy and the caller tell errors
/// apart.
#[derive(Debug, Clone, Copy, PartialEq, Eq, Structural)]
pub enum ErrorKind {
    /// A row could not be judged.
    Execution,
    /// A query is rejected before it runs.
    Plan,
    /// A session setting is rejected.
    Configuration,
    /// A state of the library that it rules out.
    Internal,
    /// An operation that only exists in its asynchronous form.
    NotImplemented,
    /// Memory that the query cannot have.
    ResourcesExhausted,
    /// The server answered with a status that is no success.
    Http { status: u16, fatal: bool },
    /// An error of the query engine, with its own display text.
    Engine,
}

/// An error: its kind and its text without any prefix.
#[derive(Debug, Clone)]
pub struct JevError {
    pub kind: ErrorKind,
    pub message: String,
}

/// The meaning of a [`JevError`].
pub ghost struct Fault {
    pub kind: ErrorKind,
    pub message: Seq<char>,
}

impl View for JevError {
    type V = Fault;

    open spec fn view(&self) -> Fault {
        Fault { kind: self.kind, message: self.message@ }
    }
}

/// A row error with the given text.
pub open spec fn row_fault(message: Seq<char>) -> Fault {
    Fault { kind: ErrorKind::Execution, message }
}

/// A planning error with the given text.
pub open spec fn plan_fault(message: Seq<char>) -> Fault {
    Fault { kind: ErrorKind::Plan, message }
}

/// The words that the query engine puts before the text of an error of this
/// kind. An engine error already holds its own.
pub open spec fn prefix(kind: ErrorKind) -> Seq<char> {
    match kind {
        ErrorKind::Execution => "Execution error: "@,
        ErrorKind::Plan => "Error during planning: "@,
        ErrorKind::Configuration => "Invalid or Unsupported Configuration: "@,
        ErrorKind::Internal => "Internal error: "@,
        ErrorKind::NotImplemented => "This feature is not implemented: "@,
        ErrorKind::ResourcesExhausted => "Resources exhausted: "@,
        ErrorKind::Http { .. } => "External error: "@,
        ErrorKind::Engine => ""@,
    }
}

/// An error as it is shown: the prefix of its kind, then its text.
pub open spec fn shown(fault: Fault) -> Seq<char> {
    prefix(fault.kind) + fault.message
}

/// Whether the null policy must let an error through. Row errors and server
/// answers that were not marked fatal are failed judgments; all else is not.
pub open spec fn fatal(fault: Fault) -> bool {
    match fault.kind {
        ErrorKind::Execution => false,
        ErrorKind::Http { fatal, .. } => fatal,
        _ => true,
    }
}

impl JevError {
    /// The same error once more.
    pub fn copy(&self) -> (error: JevError)
        ensures
            error@ == self@,
    {
        JevError { kind: self.kind, message: self.message.clone() }
    }

    /// A row error with the given text.
    pub fn execution(message: &str) -> (error: JevError)
        ensures
            error@ == row_fault(message@),
    {
        JevError { kind: ErrorKind::Execution, message: message.to_owned() }
    }

    /// A planning error with the given text.
    pub fn plan(message: &str) -> (error: JevError)
        ensures
            error@ == plan_fault(message@),
    {
        JevError { kind: ErrorKind::Plan, message: message.to_owned() }
    }

    /// The error as it is shown to the user of the query engine.
    pub fn shown(&self) -> (text: String)
        ensures
            text@ == shown(self@),
    {
        let words = match self.kind {
            ErrorKind::Execution => "Execution error: ",
            ErrorKind::Plan => "Error during planning: ",
            ErrorKind::Configuration => "Invalid or Unsupported Configuration: ",
            ErrorKind::Internal => "Internal error: ",
            ErrorKind::NotImplemented => "This feature is not implemented: ",
            ErrorKind::ResourcesExhausted => "Resources exhausted: ",
            ErrorKind::Http { .. } => "External error: ",
            ErrorKind::Engine => "",
        };
        join2(words, self.message.as_str())
    }

    /// The same error as a planning error: what was a fault of a row is found
    /// before the query runs.
    pub fn into_plan(self) -> (error: JevError)
        ensures
            error@ == plan_fault(shown(self@)),
    {
        JevError { kind: ErrorKind::Plan, message: self.shown() }
    }

    /// Whether the null policy must let this error through.
    pub fn is_fatal(&self) -> (yes: bool)
        ensures
            yes == fatal(self@),
    {
        match self.kind {
            ErrorKind::Execution => false,
            ErrorKind::Http { fatal, .. } => fatal,
            _ => true,
        }
    }
}

} // verus!
