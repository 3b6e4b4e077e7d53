//! Errors of the gossip protocols.

use vstd::prelude::*;

verus! {

#[derive(Clone, Copy, PartialEq, Eq, Structural, Debug)]
pub enum CrdsGossipError {
    /// No eligible peer for the requested operation; try again later.
    NoPeers,
    /// A prune message arrived past its timeout and was dropped.
    PruneMessageTimeout,
    /// A prune message was addressed to another node and was dropped.
    BadPruneDestination,
}

} // verus!
