//! Integer core of the Grand Pattern mathematics bridge: Fibonacci growth as a
//! categorical construction, the simplicial homology of pattern complexes (with
//! exact ranks over a prime field, and β₀ tied to connected components), the
//! sunset modes, the Noether-type conservation laws, the cluster assignment of
//! spectral clustering, the dimension bookkeeping of the venue sheaf and the
//! event decisions of the bridge API.

pub mod boundary_rank;
pub mod bridge_api;
pub mod conservation_laws;
pub mod connectivity;
pub mod fibonacci_categorification;
pub mod graph_spectral;
pub mod sunset_spectral;
pub mod topology_homology;
pub mod venue_sheaf;
pub mod row_reduction;
pub mod row_space;
