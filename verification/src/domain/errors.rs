//! The errors of the registry and its commands.
use vstd::prelude::*;

use crate::text::{append_str, decimal, decimal_string};

verus! {

/// An error of the registry or of one of its commands.
#[derive(Debug)]
pub enum PortmanError {
    /// The port is held by another project.
    PortConflict { port: u16, name: String },
    /// No project of that name is in the registry.
    ProjectNotFound(String),
    /// The project already holds another port.
    NameConflict(String, u16),
    /// Every port of the range is taken.
    NoAvailablePort(u16, u16),
    /// Any other failure, with its message.
    Other(String),
}

/// An error with its strings taken as character sequences.
pub enum PortmanErrorView {
    PortConflict { port: u16, name: Seq<char> },
    ProjectNotFound(Seq<char>),
    NameConflict(Seq<char>, u16),
    NoAvailablePort(u16, u16),
    Other(Seq<char>),
}

impl View for PortmanError {
    type V = PortmanErrorView;

    open spec fn view(&self) -> PortmanErrorView {
        match self {
            PortmanError::PortConflict { port, name } => PortmanErrorView::PortConflict {
                port: *port,
                name: name@,
            },
            PortmanError::ProjectNotFound(n) => PortmanErrorView::ProjectNotFound(n@),
            PortmanError::NameConflict(n, p) => PortmanErrorView::NameConflict(n@, *p),
            PortmanError::NoAvailablePort(a, b) => PortmanErrorView::NoAvailablePort(*a, *b),
            PortmanError::Other(m) => PortmanErrorView::Other(m@),
        }
    }
}

/// The message that the tool prints for an error.
pub open spec fn error_message(e: PortmanErrorView) -> Seq<char> {
    match e {
        PortmanErrorView::PortConflict { port, name } => "Port "@ + decimal(port as nat)
            + " is already assigned to '"@ + name + "'"@,
        PortmanErrorView::ProjectNotFound(n) => "Project '"@ + n + "' not found in registry"@,
        PortmanErrorView::NameConflict(n, p) => "'"@ + n + "' is already assigned to port "@
            + decimal(p as nat) + ". Use --force to reassign."@,
        PortmanErrorView::NoAvailablePort(a, b) => "No available port found in range "@ + decimal(
            a as nat,
        ) + "-"@ + decimal(b as nat),
        PortmanErrorView::Other(m) => m,
    }
}

impl PortmanError {
    /// The message that the tool prints for this error.
    pub fn message(&self) -> (s: String)
        ensures
            s@ == error_message(self@),
    {
        let mut s = String::new();
        match self {
            PortmanError::PortConflict { port, name } => {
                append_str(&mut s, "Port ");
                let d = decimal_string(*port as u32);
                append_str(&mut s, d.as_str());
                append_str(&mut s, " is already assigned to '");
                append_str(&mut s, name.as_str());
                append_str(&mut s, "'");
            },
            PortmanError::ProjectNotFound(n) => {
                append_str(&mut s, "Project '");
                append_str(&mut s, n.as_str());
                append_str(&mut s, "' not found in registry");
            },
            PortmanError::NameConflict(n, p) => {
                append_str(&mut s, "'");
                append_str(&mut s, n.as_str());
                append_str(&mut s, "' is already assigned to port ");
                let d = decimal_string(*p as u32);
                append_str(&mut s, d.as_str());
                append_str(&mut s, ". Use --force to reassign.");
            },
            PortmanError::NoAvailablePort(a, b) => {
                append_str(&mut s, "No available port found in range ");
                let d = decimal_string(*a as u32);
                append_str(&mut s, d.as_str());
                append_str(&mut s, "-");
                let e = decimal_string(*b as u32);
                append_str(&mut s, e.as_str());
            },
            PortmanError::Other(m) => {
                append_str(&mut s, m.as_str());
            },
        }
        s
    }
}

} // verus!
