//! What the command line asks for, as plain values.
use vstd::prelude::*;

verus! {

/// The command-line options.
#[derive(Debug, PartialEq, Eq)]
pub struct Options {
    /// Check against this policy file and print the decision; run nothing.
    pub config_file: Option<String>,
    /// Clear the persisted sessions, then exit.
    pub clear_persisted_auth: bool,
    /// Fail rather than prompt for a password.
    pub non_interactive_mode: bool,
    /// Run this shell.
    pub shell: Option<String>,
    /// The identity to run as.
    pub user: String,
    /// The command and its arguments.
    pub command: Vec<String>,
}

impl Options {
    /// Whether this run only reports the decision.
    pub fn is_dry_run(&self) -> (r: bool)
        ensures
            r == self.config_file is Some,
    {
        self.config_file.is_some()
    }
}

} // verus!
