use oxlide::cli::{Cli, CliError, Command, ResolvedCommand};

#[test]
fn no_subcommand_with_path_resolves_to_present() {
    let cli = Cli { command: None, path: Some("talk.md".into()) };
    assert_eq!(cli.resolve().unwrap(), ResolvedCommand::Present("talk.md".into()));
}

#[test]
fn present_subcommand_with_path_resolves_to_present() {
    let cli = Cli { command: Some(Command::Present { path: "talk.md".into() }), path: None };
    assert_eq!(cli.resolve().unwrap(), ResolvedCommand::Present("talk.md".into()));
}

#[test]
fn no_args_produces_missing_subcommand_error() {
    let cli = Cli { command: None, path: None };
    assert_eq!(cli.resolve().unwrap_err(), CliError::MissingSubcommand);
}

#[test]
fn positional_path_and_subcommand_is_rejected() {
    let cli = Cli {
        command: Some(Command::Present { path: "other.md".into() }),
        path: Some("talk.md".into()),
    };
    assert_eq!(cli.resolve().unwrap_err(), CliError::ArgumentConflict);
}
