//! Cluster membership and gossip: an eventually-consistent store of signed,
//! versioned records (the CRDS), the push/pull gossip protocols that reconcile
//! it between peers, and the deterministic layered broadcast topology used to
//! fan ledger blobs out across the cluster.

use vstd::prelude::*;

pub mod addr;
pub mod bloom;
pub mod codec;
pub mod protocol;
pub mod bytes;
pub mod cluster_info;
pub mod crds_value;
pub mod rng;
pub mod contact_info;
pub mod crds;
pub mod crds_gossip;
pub mod crds_gossip_error;
pub mod crds_gossip_pull;
pub mod crds_gossip_push;
pub mod keys;
pub mod topology;
pub mod voting_keypair;

verus! {

/// The fanout from the leader into the first broadcast layer.
pub const DATA_PLANE_FANOUT: u64 = 200;

/// Width of one neighborhood inside a broadcast layer.
pub const NEIGHBORHOOD_SIZE: u64 = 200;

/// Whether layer capacity grows as layers are added.
pub const GROW_LAYER_CAPACITY: bool = false;

} // verus!
