use vstd::prelude::*;

verus! {

/// Declares `core::num::ParseIntError` to the verifier so that a value
/// of it can be carried inside [`TopologicalError`]. The type stays
/// opaque: nothing is assumed about what it holds.
#[verifier::external_type_specification]
#[verifier::external_body]
pub struct ExParseIntError(core::num::ParseIntError);

/// What can go wrong during a topological analysis.
///
/// Anomalies that are normal outcomes of ambiguous or cyclic input are
/// *not* errors (the algorithms report "no result" instead); these
/// variants are reserved for violated preconditions and for malformed
/// text handed to an outside reader.
#[derive(Debug)]
pub enum TopologicalError {
    /// A failure with no more precise description.
    Custom,
    /// The input list holds repeated nodes.
    RepeatedNodes,
    /// An internal cross-check of the analysis disagreed with the
    /// caller's claim about the input.
    InvalidTopologicalAssumptions,
    /// The input does not describe a directed acyclic graph.
    NotADag,
    /// The designated root of a path computation has a predecessor.
    FirstNodeHasIncomingEdges,
    /// A number in a textual description of a node list did not parse.
    ParseIntError(core::num::ParseIntError),
}

impl TopologicalError {
    /// A short human-readable description of the error. The value a
    /// failed parse carries is not rendered.
    pub fn describe(&self) -> (r: &'static str)
        ensures
            r@ == match self {
                TopologicalError::Custom => "Custom error"@,
                TopologicalError::RepeatedNodes => "The list has repeated nodes."@,
                TopologicalError::InvalidTopologicalAssumptions => "Invalid topological assumptions."@,
                TopologicalError::NotADag => "Provided list does not conform to a DAG."@,
                TopologicalError::FirstNodeHasIncomingEdges => "List assumptions are not met, i.e. first node should not have incoming edges."@,
                TopologicalError::ParseIntError(_) => "ParseIntError"@,
            },
    {
        match self {
            Self::Custom => "Custom error",
            Self::RepeatedNodes => "The list has repeated nodes.",
            Self::InvalidTopologicalAssumptions => "Invalid topological assumptions.",
            Self::NotADag => "Provided list does not conform to a DAG.",
            Self::FirstNodeHasIncomingEdges => "List assumptions are not met, i.e. first node should not have incoming edges.",
            Self::ParseIntError(_) => "ParseIntError",
        }
    }
}

impl From<core::num::ParseIntError> for TopologicalError {
    fn from(value: core::num::ParseIntError) -> (r: Self) {
        TopologicalError::ParseIntError(value)
    }
}

impl vstd::std_specs::convert::FromSpecImpl<core::num::ParseIntError> for TopologicalError {
    open spec fn obeys_from_spec() -> bool {
        true
    }

    open spec fn from_spec(value: core::num::ParseIntError) -> TopologicalError {
        TopologicalError::ParseIntError(value)
    }
}

} // verus!
