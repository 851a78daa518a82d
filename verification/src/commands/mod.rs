//! The decisions of the tool's commands: what each computes from the
//! registry and from what the machine reports.
pub mod assign;
pub mod check;
pub mod export;
pub mod list;
