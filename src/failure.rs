use crate::selector::ParseError;
use vstd::prelude::*;

verus! {

/// What ends a run, or one input of it, early.
#[derive(Debug)]
pub enum RunError {
    /// The selector expression was refused.
    Selector(ParseError),
    /// Opening, reading or writing failed. `source_name` names the input
    /// concerned, if any; `broken_pipe` tells that the reader of the output
    /// went away.
    Io { source_name: Option<String>, broken_pipe: bool, message: String },
}

impl RunError {
    pub open spec fn is_broken_pipe(&self) -> bool {
        match self {
            RunError::Io { broken_pipe, .. } => *broken_pipe,
            RunError::Selector(_) => false,
        }
    }
}

/// A closed output pipe ends the run cleanly; any other failure stands.
pub fn muffle_epipe(err: RunError) -> (r: Result<(), RunError>)
    ensures
        r == (if err.is_broken_pipe() {
            Ok(())
        } else {
            Err(err)
        }),
{
    let broken = match &err {
        RunError::Io { broken_pipe, .. } => *broken_pipe,
        RunError::Selector(_) => false,
    };
    if broken {
        Ok(())
    } else {
        Err(err)
    }
}

/// Every input is tried; the failure reported is the first one seen.
pub fn record_failure(first: Option<RunError>, outcome: Result<(), RunError>) -> (r: Option<RunError>)
    ensures
        r == (match first {
            Some(e) => Some(e),
            None => match outcome {
                Ok(()) => None,
                Err(e) => Some(e),
            },
        }),
{
    match first {
        Some(e) => Some(e),
        None => match outcome {
            Ok(()) => None,
            Err(e) => Some(e),
        },
    }
}

} // verus!
