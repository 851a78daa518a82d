//! The commands that the tool takes, as plain values.
use vstd::prelude::*;

verus! {

/// A parsed command line.
#[derive(Debug, Clone, PartialEq, Eq)]
pub struct Cli {
    pub command: Command,
}

/// The commands of the tool and their arguments.
#[derive(Debug, Clone, PartialEq, Eq)]
pub enum Command {
    /// Reserve a port for a named project.
    Assign { name: String, port: u16, force: bool, notes: Option<String> },
    /// Free the port assigned to a project, or every port with `all`.
    Release { name: Option<String>, all: bool },
    /// Show all assignments with live socket status.
    List { json: bool, active: bool },
    /// Report whether a port is free in the registry and on the machine.
    Check { port: u16 },
    /// Suggest the next unassigned port.
    Next { from: Option<u16>, range: Option<String> },
    /// Show all assigned ports with live process info.
    Status,
    /// Export the registry as JSON or shell statements.
    Export { format: String },
    /// Import assignments from a JSON file.
    Import { file: String, merge: bool },
}

} // verus!
