//! The decisions of the shell's read-parse-dispatch loop. The loop itself,
//! which reads input and talks to the connection handler, runs outside.
use vstd::prelude::*;

use crate::command::{parse, parse_view, command_of, BadCommand, CommandModel, ErrorModel, ShellCommand};

verus! {

/// What the loop does with one input read.
#[derive(Debug, PartialEq, Eq)]
pub enum ShellAction {
    /// The input has ended: print the termination notice and stop.
    EndOfInput,
    /// The user asked to quit: stop without dispatching.
    Quit,
    /// An empty line: read the next one.
    Skip,
    /// Dispatch the command to the connection handler and print its outcome.
    Dispatch(ShellCommand),
    /// The line is no valid command: print the error and read the next one.
    Reject(BadCommand),
}

/// What a [`ShellAction`] says, as mathematical values.
pub enum ActionModel {
    EndOfInput,
    Quit,
    Skip,
    Dispatch(CommandModel),
    Reject(ErrorModel),
}

impl View for ShellAction {
    type V = ActionModel;

    open spec fn view(&self) -> ActionModel {
        match self {
            ShellAction::EndOfInput => ActionModel::EndOfInput,
            ShellAction::Quit => ActionModel::Quit,
            ShellAction::Skip => ActionModel::Skip,
            ShellAction::Dispatch(c) => ActionModel::Dispatch(c@),
            ShellAction::Reject(e) => ActionModel::Reject(e@),
        }
    }
}

/// What the loop does with `input`, the text of one read: empty when the input has ended.
pub open spec fn action_of(input: Seq<char>) -> ActionModel {
    if input.len() == 0 {
        ActionModel::EndOfInput
    } else {
        match command_of(input) {
            Ok(CommandModel::Quit) => ActionModel::Quit,
            Ok(CommandModel::NoOperation) => ActionModel::Skip,
            Ok(c) => ActionModel::Dispatch(c),
            Err(e) => ActionModel::Reject(e),
        }
    }
}

/// The shell's state between two reads: the text of the last one.
pub struct FixShell {
    last_command: String,
}

impl FixShell {
    pub closed spec fn last_command_view(&self) -> Seq<char> {
        self.last_command@
    }

    pub fn new() -> (r: FixShell)
        ensures
            r.last_command_view() == Seq::<char>::empty(),
    {
        FixShell { last_command: String::new() }
    }

    /// The text of the last read.
    pub fn last_command(&self) -> (r: &str)
        ensures
            r@ == self.last_command_view(),
    {
        self.last_command.as_str()
    }

    /// Hands back the buffer that holds the last read, so that the next read
    /// can reuse its storage; the shell keeps an empty text.
    pub fn take_buffer(&mut self) -> (r: String)
        ensures
            r@ == old(self).last_command_view(),
            final(self).last_command_view() == Seq::<char>::empty(),
    {
        let mut r = String::new();
        std::mem::swap(&mut self.last_command, &mut r);
        r
    }

    /// Takes the text of one read, a line with its terminator or nothing at
    /// the end of the input, and decides what the loop does next.
    pub fn handle_input(&mut self, input: String) -> (r: ShellAction)
        ensures
            final(self).last_command_view() == input@,
            r@ == action_of(input@),
    {
        self.last_command = input;
        if self.last_command.as_str().is_empty() {
            return ShellAction::EndOfInput;
        }
        let parsed = parse(self.last_command.as_str());
        assert(parse_view(parsed) == command_of(input@));
        match parsed {
            Ok(ShellCommand::Quit) => ShellAction::Quit,
            Ok(ShellCommand::NoOperation) => ShellAction::Skip,
            Ok(cmd) => ShellAction::Dispatch(cmd),
            Err(err) => ShellAction::Reject(err),
        }
    }
}

} // verus!
