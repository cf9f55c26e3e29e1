//! What the command line asks the program to do.

use crate::client::{DEFAULT_CONFIG_PATH, DEFAULT_DATA_DIR, DEFAULT_PORT};
use vstd::prelude::*;

verus! {

/// The options of the `setup` command.
pub struct SetupArgs {
    pub datadir: Option<String>,
    pub port: Option<u16>,
}

/// What to run.
#[derive(Debug)]
pub enum Mode {
    /// Serve with the configuration file at `config_path`.
    Serve { config_path: String },
    /// Write a new configuration file and create the data directory.
    Setup { config_path: String, datadir: String, port: u16 },
}

/// Command lines that ask for nothing runnable.
#[derive(Clone, Copy, Debug, PartialEq, Eq, Structural)]
pub enum CliError {
    /// Neither `setup` nor a configuration file was given.
    MissingConfigPath,
    /// `setup` was given together with a configuration file.
    SetupWithConfigPath,
}

/// Decides the mode from the `setup` command (if given) and the
/// configuration path argument (if given): `setup` alone sets up with the
/// default configuration path and, where not given, the default data
/// directory and port; a configuration path alone serves with it.
pub fn choose_mode(setup: Option<SetupArgs>, config_path: Option<String>) -> (r: Result<Mode, CliError>)
    ensures
        match (setup, config_path) {
            (Some(args), None) => r matches Ok(Mode::Setup { config_path: c, datadir: d, port: p })
                && c@ == DEFAULT_CONFIG_PATH@ && d@ == (match args.datadir {
                Some(x) => x@,
                None => DEFAULT_DATA_DIR@,
            }) && p == (match args.port {
                Some(x) => x,
                None => DEFAULT_PORT,
            }),
            (None, Some(c)) => r matches Ok(Mode::Serve { config_path: c2 }) && c2@ == c@,
            (None, None) => r == Err::<Mode, CliError>(CliError::MissingConfigPath),
            (Some(_), Some(_)) => r == Err::<Mode, CliError>(CliError::SetupWithConfigPath),
        },
{
    match (setup, config_path) {
        (Some(args), None) => {
            let datadir = match args.datadir {
                Some(d) => d,
                None => DEFAULT_DATA_DIR.to_owned(),
            };
            let port = match args.port {
                Some(p) => p,
                None => DEFAULT_PORT,
            };
            Ok(Mode::Setup { config_path: DEFAULT_CONFIG_PATH.to_owned(), datadir, port })
        },
        (None, Some(config_path)) => Ok(Mode::Serve { config_path }),
        (None, None) => Err(CliError::MissingConfigPath),
        (Some(_), Some(_)) => Err(CliError::SetupWithConfigPath),
    }
}

} // verus!
