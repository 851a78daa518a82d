//! The registry of port assignments, its rules and its errors.
pub mod entities;
pub mod errors;
pub mod laws;
pub mod ports;

pub use entities::{Assignment, AssignmentMap, Registry, RegistryConfig};
pub use errors::PortmanError;
pub use ports::{ProcessInfo, SocketChecker};
