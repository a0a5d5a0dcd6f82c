use vstd::prelude::*;

verus! {

/// Error type carried out of chip resolution and graph construction.
///
/// The `details` string holds a human-readable description of what went
/// wrong: a missing definition file, a parse failure, or an ambiguous
/// pin direction.
#[derive(Debug, Clone, PartialEq, Eq, Hash)]
pub struct GenericError {
    /// Human-readable description of the failure.
    pub details: String,
}

} // verus!
