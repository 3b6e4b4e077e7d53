//! A peer's identity and addressing record: its public key, its six service
//! endpoints, and the wallclock at which the record was produced.

use vstd::prelude::*;
use crate::addr::SocketAddress;
use crate::keys::Pubkey;

verus! {

/// A peer's contact record. Any endpoint may be the unspecified sentinel,
/// which means "do not contact this peer on that role".
#[derive(Clone, Copy, PartialEq, Eq, Structural, Debug)]
pub struct ContactInfo {
    /// The peer's public key.
    pub id: Pubkey,
    /// Gossip traffic (this subsystem).
    pub gossip: SocketAddress,
    /// Ledger block ingest and retransmit.
    pub tvu: SocketAddress,
    /// Transaction ingest.
    pub tpu: SocketAddress,
    /// Reserved for a future storage collaborator.
    pub storage: SocketAddress,
    /// RPC over TCP.
    pub rpc: SocketAddress,
    /// RPC publish/subscribe over TCP.
    pub rpc_pubsub: SocketAddress,
    /// Milliseconds since the epoch at the originator when this record was
    /// produced.
    pub wallclock: u64,
}

impl ContactInfo {
    pub fn new(
        id: Pubkey,
        gossip: SocketAddress,
        tvu: SocketAddress,
        tpu: SocketAddress,
        storage: SocketAddress,
        rpc: SocketAddress,
        rpc_pubsub: SocketAddress,
        wallclock: u64,
    ) -> (r: ContactInfo)
        ensures
            r == (ContactInfo { id, gossip, tvu, tpu, storage, rpc, rpc_pubsub, wallclock }),
    {
        ContactInfo { id, gossip, tvu, tpu, storage, rpc, rpc_pubsub, wallclock }
    }

    /// A record with every endpoint on the loopback address, ports 1234
    /// through 1239; used by tests and single-machine setups.
    pub fn new_localhost(id: Pubkey, now: u64) -> (r: ContactInfo)
        ensures
            r.id == id,
            r.wallclock == now,
            r.gossip.spec_is_valid(),
            r.tvu.spec_is_valid(),
            r.tpu.spec_is_valid(),
            r.rpc.spec_is_valid(),
    {
        ContactInfo {
            id,
            gossip: SocketAddress::new_v4(127, 0, 0, 1, 1234),
            tvu: SocketAddress::new_v4(127, 0, 0, 1, 1235),
            tpu: SocketAddress::new_v4(127, 0, 0, 1, 1236),
            storage: SocketAddress::new_v4(127, 0, 0, 1, 1237),
            rpc: SocketAddress::new_v4(127, 0, 0, 1, 1238),
            rpc_pubsub: SocketAddress::new_v4(127, 0, 0, 1, 1239),
            wallclock: now,
        }
    }

    /// The record a node joins a cluster through: only the gossip endpoint is
    /// known; the identity is the default key until gossip learns it.
    pub fn new_entry_point(gossip_addr: &SocketAddress) -> (r: ContactInfo)
        ensures
            r.id == (Pubkey { a: 0, b: 0 }),
            r.gossip == *gossip_addr,
            r.wallclock == 0,
            !r.tvu.spec_is_valid(),
            !r.rpc.spec_is_valid(),
    {
        ContactInfo {
            id: Pubkey::default_pubkey(),
            gossip: *gossip_addr,
            tvu: SocketAddress::unspecified(),
            tpu: SocketAddress::unspecified(),
            storage: SocketAddress::unspecified(),
            rpc: SocketAddress::unspecified(),
            rpc_pubsub: SocketAddress::unspecified(),
            wallclock: 0,
        }
    }

    /// Whether an endpoint is contactable; callers must skip endpoints for
    /// which this is false.
    pub fn is_valid_address(addr: &SocketAddress) -> (r: bool)
        ensures
            r == addr.spec_is_valid(),
    {
        addr.is_valid()
    }
}

} // verus!
