//! Errors of the command-line operations.
use crate::text::{push_str, string_of};
use vstd::prelude::*;

verus! {

/// Why a command failed.
#[derive(Debug)]
pub enum CliError {
    InvalidPath(String),
    IoError(String),
    WalkdirError(String),
    ParseError(String),
    PlanError(String),
    AnkiError(String),
    ExecutionError(String),
    NotImplemented,
    MediaCollisionError(String),
}

/// The message of an error.
pub open spec fn cli_error_message(e: CliError) -> Seq<char> {
    match e {
        CliError::InvalidPath(m) => "Invalid path: "@ + m@,
        CliError::IoError(m) => "IO error: "@ + m@,
        CliError::WalkdirError(m) => "Directory traversal error: "@ + m@,
        CliError::ParseError(m) => "Parse error: "@ + m@,
        CliError::PlanError(m) => "Plan error: "@ + m@,
        CliError::AnkiError(m) => "Anki error: "@ + m@,
        CliError::ExecutionError(m) => "Execution error: "@ + m@,
        CliError::NotImplemented => "feature not yet implemented"@,
        CliError::MediaCollisionError(m) => "Media filename collision: "@ + m@,
    }
}

impl CliError {
    /// The message of this error.
    pub fn to_string(&self) -> (r: String)
        ensures
            r@ == cli_error_message(*self),
    {
        let mut v: Vec<char> = Vec::new();
        match self {
            CliError::InvalidPath(m) => {
                push_str(&mut v, "Invalid path: ");
                push_str(&mut v, m.as_str());
            },
            CliError::IoError(m) => {
                push_str(&mut v, "IO error: ");
                push_str(&mut v, m.as_str());
            },
            CliError::WalkdirError(m) => {
                push_str(&mut v, "Directory traversal error: ");
                push_str(&mut v, m.as_str());
            },
            CliError::ParseError(m) => {
                push_str(&mut v, "Parse error: ");
                push_str(&mut v, m.as_str());
            },
            CliError::PlanError(m) => {
                push_str(&mut v, "Plan error: ");
                push_str(&mut v, m.as_str());
            },
            CliError::AnkiError(m) => {
                push_str(&mut v, "Anki error: ");
                push_str(&mut v, m.as_str());
            },
            CliError::ExecutionError(m) => {
                push_str(&mut v, "Execution error: ");
                push_str(&mut v, m.as_str());
            },
            CliError::NotImplemented => push_str(&mut v, "feature not yet implemented"),
            CliError::MediaCollisionError(m) => {
                push_str(&mut v, "Media filename collision: ");
                push_str(&mut v, m.as_str());
            },
        }
        string_of(&v)
    }
}

} // verus!
