use vstd::prelude::*;

verus! {

/// Why a clustering request was turned down.
#[derive(Clone, Copy, Debug, PartialEq, Eq, Structural)]
pub enum KMeansError {
    /// There are no points to cluster.
    EmptyDataset,
    /// There are points, but no cluster to put them in.
    InvalidClusterCount,
}

} // verus!
