use vstd::prelude::*;

verus! {

/// Why a stage of the pipeline gave up. Every kind is final: nothing is
/// retried and no default value stands in for a failed stage.
#[derive(Clone, Copy, Debug, PartialEq, Eq, Structural)]
pub enum MeshError {
    /// A parameter is out of range, a boundary circle would get no vertex,
    /// or what a stage is handed does not fit together.
    InvalidConfiguration,
    /// The triangulation engine could not be started.
    OracleUnavailable,
    /// The triangulation engine ran but failed, or its output is malformed.
    OracleFailure,
    /// A free vertex has no neighbour to be averaged over.
    DegenerateVertex { vertex: usize },
}

} // verus!
