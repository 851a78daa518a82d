//! Where the registry is kept on disk, and reading what the machine reports
//! about the processes on its ports.
pub mod json_store;
pub mod socket;
