//! The command line of the tool, as values.
use vstd::prelude::*;

verus! {

/// The tool's command line: one subcommand.
pub struct Cli {
    pub command: Commands,
}

/// The subcommands: start a session, load the configuration, send input to
/// a running session, print the version.
pub enum Commands {
    Start(StartArgs),
    LoadConfig,
    SendInput { command: String },
    Version,
}

/// The arguments of `start`: the pane (an id such as `%3`, or a target
/// such as `{last}`), the mode (`default` or `jump`), whether to hint every
/// word, the pattern names to use, and the action of each modifier.
pub struct StartArgs {
    pub pane_id: String,
    pub mode: String,
    pub words: bool,
    pub patterns: Option<String>,
    pub main_action: Option<String>,
    pub ctrl_action: Option<String>,
    pub alt_action: Option<String>,
    pub shift_action: Option<String>,
}

} // verus!
