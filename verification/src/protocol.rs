//! The four gossip messages and the window-repair request envelope, plus the
//! signed prune payload. Exactly one serialized envelope rides in each
//! datagram.

use vstd::prelude::*;
use crate::bloom::{Bloom, BloomV};
use crate::codec;
use crate::contact_info::ContactInfo;
use crate::crds_value::{CrdsValue, CrdsValueV};
use crate::keys::{sig_verifies, Pubkey, Signature};

verus! {

/// A signed request that the receiver stop forwarding the listed origins'
/// values to the sender. The signature covers the pubkey, prunes, destination
/// and wallclock; it does not cover itself.
#[derive(Debug)]
pub struct PruneData {
    /// The node that sent this prune message.
    pub pubkey: Pubkey,
    /// The origins whose values should no longer be forwarded.
    pub prunes: Vec<Pubkey>,
    /// Signature over the signable fields.
    pub signature: Signature,
    /// The node this message is addressed to.
    pub destination: Pubkey,
    /// When the message was generated, milliseconds since the epoch.
    pub wallclock: u64,
}

/// Ghost image of a `PruneData`.
pub struct PruneDataV {
    pub pubkey: Pubkey,
    pub prunes: Seq<Pubkey>,
    pub signature: Signature,
    pub destination: Pubkey,
    pub wallclock: u64,
}

impl View for PruneData {
    type V = PruneDataV;

    open spec fn view(&self) -> PruneDataV {
        PruneDataV {
            pubkey: self.pubkey,
            prunes: self.prunes@,
            signature: self.signature,
            destination: self.destination,
            wallclock: self.wallclock,
        }
    }
}

/// Whether a prune message's signature verifies against its sender over the
/// signable fields.
pub open spec fn prune_verified(p: PruneDataV) -> bool {
    sig_verifies(p.pubkey.bytes(), codec::prune_signable(p), p.signature.bytes())
}

impl PruneData {
    /// The signing node.
    pub fn pubkey(&self) -> (r: Pubkey)
        ensures
            r == self@.pubkey,
    {
        self.pubkey
    }

    pub fn get_signature(&self) -> (r: Signature)
        ensures
            r == self@.signature,
    {
        self.signature
    }

    pub fn set_signature(&mut self, signature: Signature)
        ensures
            final(self)@ == (PruneDataV { signature, ..old(self)@ }),
    {
        self.signature = signature;
    }

    /// The canonical bytes the signature covers: pubkey, prunes, destination
    /// and wallclock, in that order, without the signature.
    pub fn signable_data(&self) -> (r: Vec<u8>)
        requires
            self@.prunes.len() < 0x1_0000_0000,
        ensures
            r@ == codec::prune_signable(self@),
    {
        codec::prune_signable_bytes(self)
    }

    /// Signs the signable fields with the keypair.
    pub fn sign(&mut self, keypair: &Vec<u8>)
        requires
            crate::keys::keypair_wf(keypair@),
            old(self)@.prunes.len() < 0x1_0000_0000,
        ensures
            final(self)@.pubkey == old(self)@.pubkey,
            final(self)@.prunes == old(self)@.prunes,
            final(self)@.destination == old(self)@.destination,
            final(self)@.wallclock == old(self)@.wallclock,
            final(self)@.signature.bytes() == crate::keys::sig_of(
                keypair@,
                codec::prune_signable(final(self)@),
            ),
            crate::keys::sig_verifies(
                crate::keys::keypair_pubkey(keypair@),
                codec::prune_signable(final(self)@),
                final(self)@.signature.bytes(),
            ),
            crate::keys::keypair_pubkey(keypair@) == old(self)@.pubkey.bytes() ==> prune_verified(
                final(self)@,
            ),
    {
        let msg = codec::prune_signable_bytes(self);
        let sig = crate::keys::sign_message(keypair, &msg);
        self.signature = sig;
    }

    /// Checks the signature against the sender over the signable fields.
    pub fn verify(&self) -> (r: bool)
        requires
            self@.prunes.len() < 0x1_0000_0000,
        ensures
            r == prune_verified(self@),
    {
        let msg = codec::prune_signable_bytes(self);
        crate::keys::verify_signature(&self.pubkey, &msg, &self.signature)
    }
}

/// A gossip envelope: exactly one rides in each datagram.
#[derive(Debug)]
pub enum Protocol {
    /// A bloom of the sender's value hashes plus its own signed contact
    /// value; the receiver answers with values missing from the bloom.
    PullRequest(Bloom, CrdsValue),
    /// Values the responder holds that the requester was missing.
    PullResponse(Pubkey, Vec<CrdsValue>),
    /// Values newly learned by the sender, forwarded to its active set.
    PushMessage(Pubkey, Vec<CrdsValue>),
    /// Feedback that prunes redundant push paths.
    PruneMessage(Pubkey, PruneData),
    /// A request for the ledger blob at the given window index.
    RequestWindowIndex(ContactInfo, u64),
}

/// Ghost image of a `Protocol`.
pub enum ProtocolV {
    PullRequest(BloomV, CrdsValueV),
    PullResponse(Pubkey, Seq<CrdsValueV>),
    PushMessage(Pubkey, Seq<CrdsValueV>),
    PruneMessage(Pubkey, PruneDataV),
    RequestWindowIndex(ContactInfo, u64),
}

/// The ghost images of a list of values.
pub open spec fn views_of_values(s: Seq<CrdsValue>) -> Seq<CrdsValueV> {
    s.map_values(|v: CrdsValue| v@)
}

impl View for Protocol {
    type V = ProtocolV;

    open spec fn view(&self) -> ProtocolV {
        match self {
            Protocol::PullRequest(b, v) => ProtocolV::PullRequest(b@, v@),
            Protocol::PullResponse(p, vs) => ProtocolV::PullResponse(*p, views_of_values(vs@)),
            Protocol::PushMessage(p, vs) => ProtocolV::PushMessage(*p, views_of_values(vs@)),
            Protocol::PruneMessage(p, d) => ProtocolV::PruneMessage(*p, d@),
            Protocol::RequestWindowIndex(c, ix) => ProtocolV::RequestWindowIndex(*c, *ix),
        }
    }
}

} // verus!
