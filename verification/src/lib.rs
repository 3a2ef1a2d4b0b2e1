//! A declarative command-tree dispatcher.
//!
//! A grammar of literal keywords and validated arguments is described as a
//! tree. A raw command line is tokenized, split into invocations, and each
//! invocation is matched against the tree to find the node whose action runs.

pub mod argument;
pub mod bindings;
pub mod builder;
pub mod command;
pub mod context;
pub mod dispatcher;
pub mod error;
pub mod laws;
pub mod token;

pub use argument::{Argument, IntArgument, Validator, WordArgument};
pub use bindings::Bindings;
pub use builder::{CommandBuilder, DispatcherBuilder};
pub use command::{Accept, Action, Command, ExecState, NodeType};
pub use context::ExecContext;
pub use dispatcher::{ContextFactory, Dispatcher};
pub use error::{Error, InvalidCommandReason};
pub use token::{tokenize, Token};
