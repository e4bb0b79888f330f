use vstd::prelude::*;

verus! {

/// Classification of a node by the divergence of the belief flow at it.
#[derive(Clone, Copy, Debug, PartialEq, Eq)]
pub enum NodeType {
    /// Belief source — this agent converts others.
    Converter,
    /// Belief sink — this agent abandons beliefs.
    Apostate,
    /// Neutral — neither source nor sink.
    Neutral,
}

} // verus!
