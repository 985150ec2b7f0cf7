//! The error taxonomy for fatal usage mistakes.

use vstd::prelude::*;

verus! {

/// A fatal programmer mistake, surfaced immediately by the offending call
/// and never silently swallowed. Missing entities or components are not
/// errors: lookups on them return an empty result instead.
#[derive(Debug, Clone, Copy, PartialEq, Eq, Structural)]
pub enum UsageError {
    /// A component type was accessed before being registered.
    UnregisteredComponent,
    /// A process of an already-registered type was registered again.
    DuplicateProcess,
}

} // verus!
