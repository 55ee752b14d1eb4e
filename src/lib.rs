//! A command shell for FIX sessions: the command language, its parser, and
//! the decisions of the read-parse-dispatch loop.
use vstd::prelude::*;

pub mod command;
pub mod message;
pub mod shell;
pub mod text;

pub use command::{engine_refusal, parse, BadCommand, ShellCommand};
pub use message::{Message, SessionId};
pub use shell::{FixShell, ShellAction};

verus! {

} // verus!
