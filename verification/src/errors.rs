//! The shared failure vocabulary of the engine.

use vstd::prelude::*;

verus! {

/// The closed failure vocabulary of the ranking engine.
///
/// Every fallible operation of the engine reports one of these variants;
/// none retries internally, and a failed operation leaves the engine in the
/// state it had before the call.
#[derive(Debug, Clone, Copy, PartialEq, Eq, Structural)]
pub enum MeritRankError {
    /// An operation referenced a node id that is absent from the graph.
    NodeDoesNotExist,
    /// An edge was requested whose source and target are the same node.
    SelfReferenceNotAllowed,
    /// The weighted sampler could not select among a degenerate candidate
    /// set (no strictly positive transition mass).
    RandomChoiceError,
    /// A rank query found no usable cached walk for the ego.
    NoPathExists,
    /// A malformed textual identifier could not be read as a node id.
    NodeIdParseError,
    /// The absent-id sentinel was used where a concrete node id is required.
    InvalidNode,
}

impl MeritRankError {
    /// The text [`MeritRankError::message`] renders: the variant's name.
    pub open spec fn message_spec(self) -> Seq<char> {
        match self {
            MeritRankError::NodeDoesNotExist => "NodeDoesNotExist"@,
            MeritRankError::SelfReferenceNotAllowed => "SelfReferenceNotAllowed"@,
            MeritRankError::RandomChoiceError => "RandomChoiceError"@,
            MeritRankError::NoPathExists => "NoPathExists"@,
            MeritRankError::NodeIdParseError => "NodeIdParseError"@,
            MeritRankError::InvalidNode => "InvalidNode"@,
        }
    }

    /// The variant's name, for callers that render messages.
    pub fn message(&self) -> (r: &'static str)
        ensures
            r@ == self.message_spec(),
    {
        match self {
            MeritRankError::NodeDoesNotExist => "NodeDoesNotExist",
            MeritRankError::SelfReferenceNotAllowed => "SelfReferenceNotAllowed",
            MeritRankError::RandomChoiceError => "RandomChoiceError",
            MeritRankError::NoPathExists => "NoPathExists",
            MeritRankError::NodeIdParseError => "NodeIdParseError",
            MeritRankError::InvalidNode => "InvalidNode",
        }
    }
}

} // verus!
