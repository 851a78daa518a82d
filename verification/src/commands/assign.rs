//! Assigning and releasing ports.
use vstd::prelude::*;

use crate::domain::entities::{Assignment, Registry};
use crate::domain::errors::{PortmanError, PortmanErrorView};
use crate::text::append_str;

verus! {

/// What a release request took out of the registry.
#[derive(Debug)]
pub enum ReleaseOutcome {
    /// Every assignment, this many of them.
    All(usize),
    /// The assignment of the named project.
    One(Assignment),
}

/// Carries out a release request: with `all`, every assignment goes;
/// otherwise the named project's assignment goes, and a name is required.
pub fn release(registry: &mut Registry, name: Option<&str>, all: bool) -> (r: Result<ReleaseOutcome, PortmanError>)
    ensures
        final(registry).version == old(registry).version,
        final(registry).config == old(registry).config,
        all ==> (r matches Ok(ReleaseOutcome::All(n)) && n == old(registry).assignments@.len()
            && final(registry).assignments@ == Map::<Seq<char>, Assignment>::empty()),
        !all && name is None ==> (r matches Err(e) && e@ == PortmanErrorView::Other(
            "Provide a project name or use --all to clear everything"@,
        ) && *final(registry) == *old(registry)),
        !all && name is Some ==> ({
            let n = name->0@;
            if old(registry).assignments@.contains_key(n) {
                r matches Ok(ReleaseOutcome::One(a)) && a == old(registry).assignments@[n]
                    && final(registry).assignments@ == old(registry).assignments@.remove(n)
            } else {
                r matches Err(e) && e@ == PortmanErrorView::ProjectNotFound(n) && *final(registry)
                    == *old(registry)
            }
        }),
{
    if all {
        let count = registry.release_all();
        return Ok(ReleaseOutcome::All(count));
    }
    match name {
        None => {
            let mut msg = String::new();
            append_str(&mut msg, "Provide a project name or use --all to clear everything");
            Err(PortmanError::Other(msg))
        },
        Some(n) => match registry.release(n) {
            Ok(a) => Ok(ReleaseOutcome::One(a)),
            Err(e) => Err(e),
        },
    }
}

} // verus!
