use vstd::prelude::*;

verus! {

/// The ways in which an input can be unusable.
#[derive(Clone, Copy, Debug, PartialEq, Eq, Structural)]
pub enum GraphError {
    /// The weight matrix is not square.
    InvalidGraph,
    /// A face recorded for an edge has total weight zero, so a term that
    /// divides by it is undefined.
    DegenerateFace,
    /// A term refers to a pair of vertices that is no edge of the graph.
    MissingIndexEntry,
}

} // verus!
