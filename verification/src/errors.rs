use vstd::prelude::*;

verus! {

/// One participant of a failed topological sort: its id together with the
/// dependency ids that could not be satisfied.
#[derive(Debug)]
pub struct UnplacedNode {
    pub dir: String,
    pub unsatisfied: Vec<String>,
}

/// The error kinds of the dependency-graph core. Every operation either
/// succeeds as a whole or fails with one of these; the payload names every
/// offending id so the caller can locate the registry entry responsible.
#[derive(Debug)]
pub enum CustomError {
    /// A closure query required ids that are absent from the registry.
    MissingDepError(Vec<String>),
    /// Explicitly requested root ids never appeared in the registry.
    MissingComponentError(Vec<String>),
    /// The sort could make no further progress: every listed node, with its
    /// still-unsatisfied dependency ids.
    CycleError(Vec<UnplacedNode>),
    /// No content identifier is known for the named component.
    ContentLookupError { dir: String },
    /// A content identifier is not the fixed-width hex form the hasher
    /// expects.
    DecodeError { dir: String, value: String },
    /// A property name was registered twice.
    DuplicatePropertyNameError { name: String },
    /// A property argument lacks the `name=value` shape.
    PropMissingEqualsError { argument: String },
}

} // verus!
