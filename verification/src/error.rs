//! Failure kinds surfaced by the dispatcher.

use vstd::prelude::*;

verus! {

/// Why a command line was well formed but could not be dispatched.
#[derive(Debug, Clone, PartialEq, Eq)]
pub enum InvalidCommandReason {
    /// No path through the tree consumes the input and ends in an action.
    UnknownCommand,
}

/// Every failure the dispatcher can report.
#[derive(Debug, Clone, PartialEq, Eq)]
pub enum Error {
    /// The prefix is missing or a named token is malformed.
    Syntax,
    /// The input does not name a runnable command.
    InvalidCommand(InvalidCommandReason),
    /// A dispatcher was built without a context factory.
    IncompleteBuilder,
    /// An action failed; the message is the action's own.
    Action(String),
}

impl Error {
    /// The error reported when the tree has no runnable node for the input.
    pub open spec fn unknown_command() -> Error {
        Error::InvalidCommand(InvalidCommandReason::UnknownCommand)
    }

    /// A short description of the failure.
    pub fn message(&self) -> (text: String)
        ensures
            text@ == match *self {
                Error::Syntax => "syntax error"@,
                Error::InvalidCommand(_) => "unknown command"@,
                Error::IncompleteBuilder => "incomplete builder"@,
                Error::Action(m) => m@,
            },
    {
        match self {
            Error::Syntax => "syntax error".to_owned(),
            Error::InvalidCommand(_) => "unknown command".to_owned(),
            Error::IncompleteBuilder => "incomplete builder".to_owned(),
            Error::Action(m) => m.clone(),
        }
    }
}

} // verus!
