//! The values replicated by gossip: a tagged union of contact records, leader
//! opinions and votes, each carrying its originator, a wallclock and a
//! signature over its canonical serialization.

use vstd::prelude::*;
use crate::contact_info::ContactInfo;
use crate::codec;
use crate::keys::{sig_verifies, Pubkey, Signature};

verus! {

/// An opaque ledger-level vote transaction payload.
#[derive(Debug)]
pub struct Transaction {
    pub data: Vec<u8>,
}

impl View for Transaction {
    type V = Seq<u8>;

    open spec fn view(&self) -> Seq<u8> {
        self.data@
    }
}

impl Transaction {
    pub fn new(data: Vec<u8>) -> (r: Transaction)
        ensures
            r@ == data@,
    {
        Transaction { data }
    }

    /// A copy with the same payload.
    pub fn duplicate(&self) -> (r: Transaction)
        ensures
            r@ == self@,
    {
        let mut data: Vec<u8> = Vec::new();
        let mut i: usize = 0;
        while i < self.data.len()
            invariant
                i <= self.data@.len(),
                data@ == self.data@.subrange(0, i as int),
            decreases self.data@.len() - i,
        {
            data.push(self.data[i]);
            proof {
                assert(data@ =~= self.data@.subrange(0, i + 1));
            }
            i = i + 1;
        }
        proof {
            assert(data@ =~= self.data@);
        }
        Transaction { data }
    }
}

/// One node's opinion of who the current leader is.
#[derive(Clone, Copy, PartialEq, Eq, Structural, Debug)]
pub struct LeaderId {
    /// The node giving the opinion.
    pub from: Pubkey,
    /// The node it believes is the leader.
    pub leader_id: Pubkey,
    /// When the opinion was formed, milliseconds since the epoch.
    pub wallclock: u64,
}

impl LeaderId {
    pub fn new(from: Pubkey, leader_id: Pubkey, wallclock: u64) -> (r: LeaderId)
        ensures
            r == (LeaderId { from, leader_id, wallclock }),
    {
        LeaderId { from, leader_id, wallclock }
    }
}

/// A ledger vote, carried by gossip so the bank can tally it.
#[derive(Debug)]
pub struct Vote {
    /// The voting node.
    pub from: Pubkey,
    /// The opaque vote transaction.
    pub transaction: Transaction,
    /// When the vote was cast, milliseconds since the epoch.
    pub wallclock: u64,
}

/// Ghost image of a `Vote`.
pub struct VoteV {
    pub from: Pubkey,
    pub transaction: Seq<u8>,
    pub wallclock: u64,
}

impl View for Vote {
    type V = VoteV;

    open spec fn view(&self) -> VoteV {
        VoteV { from: self.from, transaction: self.transaction@, wallclock: self.wallclock }
    }
}

impl Vote {
    pub fn new(from: Pubkey, transaction: Transaction, wallclock: u64) -> (r: Vote)
        ensures
            r@.from == from,
            r@.transaction == transaction@,
            r@.wallclock == wallclock,
    {
        Vote { from, transaction, wallclock }
    }

    pub fn duplicate(&self) -> (r: Vote)
        ensures
            r@ == self@,
    {
        Vote { from: self.from, transaction: self.transaction.duplicate(), wallclock: self.wallclock }
    }
}

/// The payload of a gossip value.
#[derive(Debug)]
pub enum CrdsData {
    ContactInfo(ContactInfo),
    LeaderId(LeaderId),
    Vote(Vote),
}

/// Ghost image of a `CrdsData`.
pub enum CrdsDataV {
    ContactInfo(ContactInfo),
    LeaderId(LeaderId),
    Vote(VoteV),
}

impl View for CrdsData {
    type V = CrdsDataV;

    open spec fn view(&self) -> CrdsDataV {
        match self {
            CrdsData::ContactInfo(c) => CrdsDataV::ContactInfo(*c),
            CrdsData::LeaderId(l) => CrdsDataV::LeaderId(*l),
            CrdsData::Vote(v) => CrdsDataV::Vote(v@),
        }
    }
}

/// The store's primary key: the variant tag plus the originator.
#[derive(Clone, Copy, PartialEq, Eq, Structural, Debug)]
pub enum CrdsValueLabel {
    ContactInfo(Pubkey),
    LeaderId(Pubkey),
    Vote(Pubkey),
}

/// The originator of a payload.
pub open spec fn pubkey_of(d: CrdsDataV) -> Pubkey {
    match d {
        CrdsDataV::ContactInfo(c) => c.id,
        CrdsDataV::LeaderId(l) => l.from,
        CrdsDataV::Vote(v) => v.from,
    }
}

/// The store key of a payload: its variant and its originator.
pub open spec fn label_of(d: CrdsDataV) -> CrdsValueLabel {
    match d {
        CrdsDataV::ContactInfo(c) => CrdsValueLabel::ContactInfo(c.id),
        CrdsDataV::LeaderId(l) => CrdsValueLabel::LeaderId(l.from),
        CrdsDataV::Vote(v) => CrdsValueLabel::Vote(v.from),
    }
}

/// The originator's wallclock of a payload.
pub open spec fn wallclock_of(d: CrdsDataV) -> u64 {
    match d {
        CrdsDataV::ContactInfo(c) => c.wallclock,
        CrdsDataV::LeaderId(l) => l.wallclock,
        CrdsDataV::Vote(v) => v.wallclock,
    }
}

/// A signed gossip value: a payload and a signature over the payload's
/// canonical serialization.
#[derive(Debug)]
pub struct CrdsValue {
    pub data: CrdsData,
    pub signature: Signature,
}

/// Ghost image of a `CrdsValue`.
pub struct CrdsValueV {
    pub data: CrdsDataV,
    pub signature: Signature,
}

impl View for CrdsValue {
    type V = CrdsValueV;

    open spec fn view(&self) -> CrdsValueV {
        CrdsValueV { data: self.data@, signature: self.signature }
    }
}

/// Whether a value's signature verifies against its originator over its
/// canonical serialization.
pub open spec fn value_verified(v: CrdsValueV) -> bool {
    sig_verifies(pubkey_of(v.data).bytes(), codec::ser_data(v.data), v.signature.bytes())
}

impl CrdsValue {
    /// A value not yet signed.
    pub fn new_unsigned(data: CrdsData) -> (r: CrdsValue)
        ensures
            r@.data == data@,
            r@.signature == (Signature { a: 0, b: 0, c: 0, d: 0 }),
    {
        CrdsValue { data, signature: Signature::default_signature() }
    }

    /// The store key of this value.
    pub fn label(&self) -> (r: CrdsValueLabel)
        ensures
            r == label_of(self@.data),
    {
        match &self.data {
            CrdsData::ContactInfo(c) => CrdsValueLabel::ContactInfo(c.id),
            CrdsData::LeaderId(l) => CrdsValueLabel::LeaderId(l.from),
            CrdsData::Vote(v) => CrdsValueLabel::Vote(v.from),
        }
    }

    /// The originator of this value.
    pub fn pubkey(&self) -> (r: Pubkey)
        ensures
            r == pubkey_of(self@.data),
    {
        match &self.data {
            CrdsData::ContactInfo(c) => c.id,
            CrdsData::LeaderId(l) => l.from,
            CrdsData::Vote(v) => v.from,
        }
    }

    /// The originator's wallclock of this value.
    pub fn wallclock(&self) -> (r: u64)
        ensures
            r == wallclock_of(self@.data),
    {
        match &self.data {
            CrdsData::ContactInfo(c) => c.wallclock,
            CrdsData::LeaderId(l) => l.wallclock,
            CrdsData::Vote(v) => v.wallclock,
        }
    }

    /// The contact record, if this value is one.
    pub fn contact_info(&self) -> (r: Option<&ContactInfo>)
        ensures
            match r {
                Some(c) => self@.data == CrdsDataV::ContactInfo(*c),
                None => !(self@.data is ContactInfo),
            },
    {
        match &self.data {
            CrdsData::ContactInfo(c) => Some(c),
            _ => None,
        }
    }

    /// The leader opinion, if this value is one.
    pub fn leader_id(&self) -> (r: Option<&LeaderId>)
        ensures
            match r {
                Some(l) => self@.data == CrdsDataV::LeaderId(*l),
                None => !(self@.data is LeaderId),
            },
    {
        match &self.data {
            CrdsData::LeaderId(l) => Some(l),
            _ => None,
        }
    }

    /// The vote, if this value is one.
    pub fn vote(&self) -> (r: Option<&Vote>)
        ensures
            match r {
                Some(v) => self@.data == CrdsDataV::Vote(v@),
                None => !(self@.data is Vote),
            },
    {
        match &self.data {
            CrdsData::Vote(v) => Some(v),
            _ => None,
        }
    }

    /// A copy with the same payload and signature.
    pub fn duplicate(&self) -> (r: CrdsValue)
        ensures
            r@.data == self@.data,
            r@.signature == self@.signature,
    {
        let data = match &self.data {
            CrdsData::ContactInfo(c) => CrdsData::ContactInfo(*c),
            CrdsData::LeaderId(l) => CrdsData::LeaderId(*l),
            CrdsData::Vote(v) => CrdsData::Vote(v.duplicate()),
        };
        CrdsValue { data, signature: self.signature }
    }

    /// Signs the payload's canonical serialization with the keypair.
    pub fn sign(&mut self, keypair: &Vec<u8>)
        requires
            crate::keys::keypair_wf(keypair@),
            codec::data_wf(old(self)@.data),
        ensures
            final(self)@.data == old(self)@.data,
            final(self)@.signature.bytes() == crate::keys::sig_of(
                keypair@,
                codec::ser_data(old(self)@.data),
            ),
            crate::keys::sig_verifies(
                crate::keys::keypair_pubkey(keypair@),
                codec::ser_data(old(self)@.data),
                final(self)@.signature.bytes(),
            ),
            crate::keys::keypair_pubkey(keypair@) == pubkey_of(old(self)@.data).bytes()
                ==> value_verified(final(self)@),
    {
        let msg = codec::serialize_data(&self.data);
        let sig = crate::keys::sign_message(keypair, &msg);
        self.signature = sig;
    }

    /// Checks the signature against the originator over the canonical
    /// serialization.
    pub fn verify(&self) -> (r: bool)
        requires
            codec::data_wf(self@.data),
        ensures
            r == value_verified(self@),
    {
        let msg = codec::serialize_data(&self.data);
        let pk = self.pubkey();
        crate::keys::verify_signature(&pk, &msg, &self.signature)
    }
}

} // verus!
