//! Where the registry is kept on disk.
use vstd::prelude::*;

use std::path::PathBuf;

verus! {

/// `std::path::PathBuf`, carried through as an opaque value.
#[verifier::external_type_specification]
#[verifier::external_body]
pub struct ExPathBuf(PathBuf);

/// The registry kept as pretty-printed JSON in one file.
#[derive(Debug)]
pub struct JsonRegistryStore {
    path: PathBuf,
}

impl JsonRegistryStore {
    /// The file that holds the registry.
    pub closed spec fn location(&self) -> PathBuf {
        self.path
    }

    /// A store backed by the file at `path`.
    pub fn with_path(path: PathBuf) -> (store: Self)
        ensures
            store.location() == path,
    {
        JsonRegistryStore { path }
    }

    /// The file that holds the registry.
    pub fn path(&self) -> (p: &PathBuf)
        ensures
            *p == self.location(),
    {
        &self.path
    }
}

} // verus!
