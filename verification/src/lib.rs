//! Local port registry: the verified core of the `portman` tool.
//!
//! The registry maps project names to the ports reserved for them; the
//! commands of the tool read and change it under the rules stated here.
pub mod cli;
pub mod commands;
pub mod domain;
pub mod infrastructure;
pub mod text;
