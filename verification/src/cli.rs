//! The command line: a deck path given alone, or the `present` subcommand
//! with its path, but not both.

use vstd::prelude::*;

verus! {

/// The subcommands.
#[derive(Debug, Clone, PartialEq, Eq)]
pub enum Command {
    /// Present a markdown deck.
    Present { path: String },
}

/// The parsed command line: an optional subcommand and an optional deck path.
#[derive(Debug, Clone, PartialEq, Eq)]
pub struct Cli {
    pub command: Option<Command>,
    pub path: Option<String>,
}

/// What the command line asks for.
#[derive(Debug, Clone, PartialEq, Eq)]
pub enum ResolvedCommand {
    Present(String),
}

/// Why a command line asks for nothing that can be done.
#[derive(Debug, Clone, Copy, PartialEq, Eq, Structural)]
pub enum CliError {
    /// Both a positional path and an explicit subcommand were given.
    ArgumentConflict,
    /// Neither a path nor a subcommand was given.
    MissingSubcommand,
}

impl Cli {
    /// The command that the command line asks for.
    pub fn resolve(self) -> (r: Result<ResolvedCommand, CliError>)
        ensures
            match (self.command, self.path) {
                (Some(_), Some(_)) => r == Err::<ResolvedCommand, CliError>(
                    CliError::ArgumentConflict,
                ),
                (Some(Command::Present { path }), None) => r matches Ok(
                    ResolvedCommand::Present(p),
                ) && p@ == path@,
                (None, Some(path)) => r matches Ok(ResolvedCommand::Present(p)) && p@ == path@,
                (None, None) => r == Err::<ResolvedCommand, CliError>(CliError::MissingSubcommand),
            },
    {
        match (self.command, self.path) {
            (Some(_), Some(_)) => Err(CliError::ArgumentConflict),
            (Some(Command::Present { path }), None) => Ok(ResolvedCommand::Present(path)),
            (None, Some(path)) => Ok(ResolvedCommand::Present(path)),
            (None, None) => Err(CliError::MissingSubcommand),
        }
    }
}

} // verus!
