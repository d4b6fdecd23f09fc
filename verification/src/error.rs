//! Errors raised while the call registries are set up.

use vstd::prelude::*;

verus! {

/// A configured call name that no mock is bound to. Setup fails on the first
/// such name, before any guest code runs.
#[derive(Debug, Clone, PartialEq, Eq)]
pub struct ConfigurationError {
    /// The unrecognized call name, as configured.
    pub call: String,
}

} // verus!
