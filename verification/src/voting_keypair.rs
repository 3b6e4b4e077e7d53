//! The remote vote-signer collaborator: an external RPC service that
//! countersigns votes. Only its address and the shape of its requests live
//! here; the RPC transport is outside this library.

use vstd::prelude::*;
use crate::addr::SocketAddress;
use crate::keys::Pubkey;

verus! {

/// Which call a vote-signer request makes.
#[derive(Clone, Copy, PartialEq, Eq, Structural, Debug)]
pub enum VoteSignerRequest {
    /// Register this node with the signer and obtain its vote account.
    RegisterNode,
    /// Have the signer countersign a vote.
    SignVote,
    /// Remove this node's registration.
    DeregisterNode,
}

/// The handle to a remote vote-signer service: where to reach it, and what
/// each call must carry (the node's key, a self-signature, and the message).
#[derive(Clone, Copy, PartialEq, Eq, Structural, Debug)]
pub struct RemoteVoteSigner {
    /// The RPC endpoint of the signer service.
    pub rpc_addr: SocketAddress,
}

impl RemoteVoteSigner {
    /// A handle to the signer at the given address.
    pub fn new(signer: SocketAddress) -> (r: RemoteVoteSigner)
        ensures
            r.rpc_addr == signer,
    {
        RemoteVoteSigner { rpc_addr: signer }
    }

    /// The parameters every signer call carries: the caller proves control of
    /// its key by signing the message itself.
    pub fn request_params(&self, kind: VoteSignerRequest, pubkey: Pubkey, msg_len: usize) -> (r: (
        SocketAddress,
        VoteSignerRequest,
        Pubkey,
        usize,
    ))
        ensures
            r.0 == self.rpc_addr,
            r.1 == kind,
            r.2 == pubkey,
            r.3 == msg_len,
    {
        (self.rpc_addr, kind, pubkey, msg_len)
    }
}

} // verus!
