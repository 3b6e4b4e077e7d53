//! The node's membership view: its gossip state plus its signing keypair,
//! role-filtered peer views, vote and leader bookkeeping, broadcast-order
//! construction, window repair, and the dispatch of inbound gossip messages.

use vstd::prelude::*;
use crate::addr::SocketAddress;
use crate::bloom::{bloom_wf, Bloom};
use crate::codec::{ser_protocol, value_wf};
use crate::contact_info::ContactInfo;
use crate::crds::{find, spec_insert, spec_purge, VersionedV};
use crate::crds_gossip::CrdsGossip;
use crate::crds_gossip_pull::{spec_insert_all, CRDS_GOSSIP_PULL_CRDS_TIMEOUT_MS};
use crate::crds_gossip_push::spec_process_push;
use crate::crds_value::{
    value_verified, CrdsData, CrdsDataV, CrdsValue, CrdsValueLabel, CrdsValueV, LeaderId,
    Transaction, Vote,
};
use crate::keys::{timestamp, NodeKeypair, Pubkey, Signature};
use crate::protocol::{views_of_values, Protocol, PruneData};
use crate::rng::rand_below;

verus! {

/// A peer's contact record, as the rest of the node refers to it.
pub type NodeInfo = ContactInfo;

/// The UDP port range a full node binds its service sockets in.
pub const FULLNODE_PORT_RANGE: (u16, u16) = (8000, 10_000);

/// Milliseconds the gossip loop sleeps between rounds.
pub const GOSSIP_SLEEP_MILLIS: u64 = 100;

/// Capacity of one datagram payload; every serialized envelope must fit.
pub const BLOB_SIZE: usize = 65535;

#[derive(Clone, Copy, PartialEq, Eq, Structural, Debug)]
pub enum ClusterInfoError {
    NoPeers,
    NoLeader,
    BadContactInfo,
    BadNodeInfo,
    BadGossipAddress,
}

/// A ledger blob: its position, its originator, and its payload, together
/// with the address it is bound for.
#[derive(Debug)]
pub struct Blob {
    /// The slot this blob belongs to.
    pub slot: u64,
    /// The window index inside the slot.
    pub index: u64,
    /// The node that produced it.
    pub id: Pubkey,
    /// Destination or source address bookkeeping.
    pub addr: SocketAddress,
    /// The payload.
    pub data: Vec<u8>,
}

impl Blob {
    /// A copy of this blob.
    pub fn duplicate(&self) -> (r: Blob)
        ensures
            r.slot == self.slot,
            r.index == self.index,
            r.id == self.id,
            r.addr == self.addr,
            r.data@ == self.data@,
    {
        let mut data: Vec<u8> = Vec::new();
        let mut i: usize = 0;
        while i < self.data.len()
            invariant
                i <= self.data@.len(),
                data@ == self.data@.subrange(0, i as int),
            decreases self.data@.len() - i,
        {
            data.push(self.data[i]);
            proof {
                assert(data@ =~= self.data@.subrange(0, i + 1));
            }
            i = i + 1;
        }
        proof {
            assert(data@ =~= self.data@);
        }
        Blob { slot: self.slot, index: self.index, id: self.id, addr: self.addr, data }
    }
}

/// The roles a peer can be contacted on.
#[derive(Clone, Copy, PartialEq, Eq, Structural, Debug)]
pub enum PeerRole {
    Gossip,
    Tvu,
    Tpu,
    Rpc,
    /// Repair-capable: a valid tvu endpoint and a valid gossip endpoint.
    Repair,
}

/// Whether a peer is usable for a role: the role's endpoints are valid.
pub open spec fn role_ok(c: ContactInfo, role: PeerRole) -> bool {
    match role {
        PeerRole::Gossip => c.gossip.spec_is_valid(),
        PeerRole::Tvu => c.tvu.spec_is_valid(),
        PeerRole::Tpu => c.tpu.spec_is_valid(),
        PeerRole::Rpc => c.rpc.spec_is_valid(),
        PeerRole::Repair => c.tvu.spec_is_valid() && c.gossip.spec_is_valid(),
    }
}

/// The stored contact records of other nodes usable for a role, in table
/// order.
pub open spec fn role_peers(s: Seq<VersionedV>, self_id: Pubkey, role: PeerRole) -> Seq<ContactInfo>
    decreases s.len(),
{
    if s.len() == 0 {
        Seq::empty()
    } else {
        let rest = role_peers(s.drop_last(), self_id, role);
        match s.last().value.data {
            CrdsDataV::ContactInfo(c) => {
                if c.id != self_id && role_ok(c, role) {
                    rest.push(c)
                } else {
                    rest
                }
            },
            _ => rest,
        }
    }
}

/// No role-peer view ever lists the node itself.
pub proof fn lemma_role_peers_exclude_self(s: Seq<VersionedV>, self_id: Pubkey, role: PeerRole)
    ensures
        forall|k: int|
            0 <= k < role_peers(s, self_id, role).len() ==> #[trigger] role_peers(
                s,
                self_id,
                role,
            )[k].id != self_id,
    decreases s.len(),
{
    if s.len() > 0 {
        lemma_role_peers_exclude_self(s.drop_last(), self_id, role);
    }
}

/// Every role peer's role endpoints are valid.
pub proof fn lemma_role_peers_valid(s: Seq<VersionedV>, self_id: Pubkey, role: PeerRole)
    ensures
        forall|k: int|
            0 <= k < role_peers(s, self_id, role).len() ==> role_ok(
                #[trigger] role_peers(s, self_id, role)[k],
                role,
            ),
    decreases s.len(),
{
    if s.len() > 0 {
        lemma_role_peers_valid(s.drop_last(), self_id, role);
        let rest = role_peers(s.drop_last(), self_id, role);
        let whole = role_peers(s, self_id, role);
        assert forall|k: int| 0 <= k < whole.len() implies role_ok(#[trigger] whole[k], role) by {
            if k < rest.len() {
                assert(whole[k] == rest[k]);
            }
        };
    }
}

/// The vote transactions stored strictly after `since`, in table order.
pub open spec fn votes_after(s: Seq<VersionedV>, since: u64) -> Seq<Seq<u8>>
    decreases s.len(),
{
    if s.len() == 0 {
        Seq::empty()
    } else {
        let rest = votes_after(s.drop_last(), since);
        match s.last().value.data {
            CrdsDataV::Vote(v) => {
                if s.last().local_timestamp > since {
                    rest.push(v.transaction)
                } else {
                    rest
                }
            },
            _ => rest,
        }
    }
}

/// The greatest local timestamp among the votes stored strictly after
/// `since`, or `since` itself when there are none.
pub open spec fn votes_max_ts(s: Seq<VersionedV>, since: u64) -> u64
    decreases s.len(),
{
    if s.len() == 0 {
        since
    } else {
        let rest = votes_max_ts(s.drop_last(), since);
        match s.last().value.data {
            CrdsDataV::Vote(v) => {
                if s.last().local_timestamp > since && s.last().local_timestamp > rest {
                    s.last().local_timestamp
                } else {
                    rest
                }
            },
            _ => rest,
        }
    }
}

/// How often a non-default leader is named by the stored leader opinions.
pub open spec fn leader_votes(s: Seq<VersionedV>, leader: Pubkey) -> nat
    decreases s.len(),
{
    if s.len() == 0 {
        0
    } else {
        let rest = leader_votes(s.drop_last(), leader);
        match s.last().value.data {
            CrdsDataV::LeaderId(l) => {
                if l.leader_id == leader && !(leader == (Pubkey { a: 0, b: 0 })) {
                    rest + 1
                } else {
                    rest
                }
            },
            _ => rest,
        }
    }
}


/// One locally generated value, signed with the node's own keypair at time
/// `t` and applied to its own store through the push path.
pub open spec fn pushed_own_value(pre: ClusterInfo, post: ClusterInfo, d: CrdsDataV, t: u64) -> bool {
    exists|sig: Signature|
        {
            &&& #[trigger] sig.bytes() == crate::keys::sig_of(
                pre.keypair@,
                crate::codec::ser_data(d),
            )
            &&& crate::keys::sig_verifies(
                crate::keys::keypair_pubkey(pre.keypair@),
                crate::codec::ser_data(d),
                sig.bytes(),
            )
            &&& {
                let v = CrdsValueV { data: d, signature: sig };
                let tr = spec_process_push(pre.gossip.crds@, pre.gossip.push@.pending, seq![v], t);
                post.gossip.crds@ == tr.0 && post.gossip.push@.pending == tr.1
            }
        }
}

/// One locally trusted contact record, signed with the node's own keypair and
/// inserted at `t`.
pub open spec fn inserted_contact(
    pre: ClusterInfo,
    post: ClusterInfo,
    node_info: ContactInfo,
    t: u64,
) -> bool {
    exists|sig: Signature|
        {
            &&& #[trigger] sig.bytes() == crate::keys::sig_of(
                pre.keypair@,
                crate::codec::ser_data(CrdsDataV::ContactInfo(node_info)),
            )
            &&& crate::keys::sig_verifies(
                crate::keys::keypair_pubkey(pre.keypair@),
                crate::codec::ser_data(CrdsDataV::ContactInfo(node_info)),
                sig.bytes(),
            )
            &&& post.gossip.crds@ == spec_insert(
                pre.gossip.crds@,
                CrdsValueV { data: CrdsDataV::ContactInfo(node_info), signature: sig },
                t,
            ).0
        }
}

/// The gossip destination a peer's stored record gives: its gossip endpoint,
/// when a record is stored and the endpoint is valid.
pub open spec fn push_dest(crds: Seq<VersionedV>, p: Pubkey) -> Option<SocketAddress> {
    match find(crds, CrdsValueLabel::ContactInfo(p)) {
        Some(e) => match e.value.data {
            CrdsDataV::ContactInfo(c) => if c.gossip.spec_is_valid() {
                Some(c.gossip)
            } else {
                None
            },
            _ => None,
        },
        None => None,
    }
}

/// The usable gossip destinations of a peer list, in order.
pub open spec fn push_addrs(crds: Seq<VersionedV>, peers: Seq<Pubkey>) -> Seq<SocketAddress>
    decreases peers.len(),
{
    if peers.len() == 0 {
        Seq::empty()
    } else {
        let rest = push_addrs(crds, peers.drop_last());
        match push_dest(crds, peers.last()) {
            Some(a) => rest.push(a),
            None => rest,
        }
    }
}

/// What one built pull request is: addressed to the chosen peer's stored,
/// valid gossip endpoint; carrying a bloom of every stored value hash and the
/// node's own stored record; with the peer's pacing entry marked at `t`.
pub open spec fn pull_request_built(
    pre: ClusterInfo,
    post: ClusterInfo,
    item: (SocketAddress, Protocol),
    peer: Pubkey,
    t: u64,
) -> bool {
    &&& (find(pre.gossip.crds@, CrdsValueLabel::ContactInfo(peer)) matches Some(pe)
        && pe.value.data matches CrdsDataV::ContactInfo(pc) && pc.gossip.spec_is_valid() && item.0
        == pc.gossip)
    &&& (item.1@ matches crate::protocol::ProtocolV::PullRequest(f, si) && bloom_wf(f) && (forall|
        i: int,
    |
        0 <= i < pre.gossip.crds@.len() ==> crate::bloom::bloom_has(
            f,
            #[trigger] pre.gossip.crds@[i].value_hash,
        )) && (find(pre.gossip.crds@, CrdsValueLabel::ContactInfo(pre.gossip.id)) matches Some(se)
        && si == se.value))
    &&& post.gossip.pull@ == crate::crds_gossip_pull::spec_mark(pre.gossip.pull@, peer, t)
}

/// The node's membership view: the gossip state and the keypair that signs
/// the values this node generates.
#[derive(Debug)]
pub struct ClusterInfo {
    /// The gossip state: store, push and pull.
    pub gossip: CrdsGossip,
    /// Signs the values this node generates; its validity is its own type's
    /// invariant.
    pub keypair: NodeKeypair,
}

impl ClusterInfo {
    /// Whether the node's own contact record is stored; constructors
    /// establish it, and inserts and purges keep it.
    pub open spec fn self_stored(&self) -> bool {
        find(self.gossip.crds@, CrdsValueLabel::ContactInfo(self.gossip.id)) is Some
    }

    /// A node around a fresh random keypair. The keypair's identity is taken
    /// from the given record's id, as tests construct records directly.
    pub fn new(node_info: NodeInfo) -> (r: ClusterInfo)
        ensures
            r.gossip.id == node_info.id,
            r.self_stored(),
    {
        ClusterInfo::new_with_keypair(node_info, NodeKeypair::new())
    }

    /// A node from an explicit keypair: stores and pushes its own record.
    /// When the record's identity is the keypair's public key (the ordinary
    /// case), the stored self record carries a verifying signature.
    pub fn new_with_keypair(node_info: NodeInfo, keypair: NodeKeypair) -> (r: ClusterInfo)
        ensures
            r.gossip.id == node_info.id,
            r.self_stored(),
            r.keypair@ == keypair@,
            crate::keys::keypair_pubkey(keypair@) == node_info.id.bytes() ==> (find(
                r.gossip.crds@,
                CrdsValueLabel::ContactInfo(node_info.id),
            ) matches Some(e) && value_verified(e.value)),
    {
        let id = node_info.id;
        let mut me = ClusterInfo { gossip: CrdsGossip::new(id), keypair };
        me.gossip.set_self(id);
        let ghost snap0 = me;
        me.insert_info(node_info);
        let ghost snap1 = me;
        me.push_self();
        proof {
            let l = CrdsValueLabel::ContactInfo(node_info.id);
            // The record inserted into the empty store is the signed one.
            let t1 = choose|t: u64| #[trigger] inserted_contact(snap0, snap1, node_info, t);
            let sig1 = choose|sig: Signature|
                {
                    &&& #[trigger] sig.bytes() == crate::keys::sig_of(
                        snap0.keypair@,
                        crate::codec::ser_data(CrdsDataV::ContactInfo(node_info)),
                    )
                    &&& crate::keys::sig_verifies(
                        crate::keys::keypair_pubkey(snap0.keypair@),
                        crate::codec::ser_data(CrdsDataV::ContactInfo(node_info)),
                        sig.bytes(),
                    )
                    &&& snap1.gossip.crds@ == spec_insert(
                        snap0.gossip.crds@,
                        CrdsValueV { data: CrdsDataV::ContactInfo(node_info), signature: sig },
                        t1,
                    ).0
                };
            let v1 = CrdsValueV { data: CrdsDataV::ContactInfo(node_info), signature: sig1 };
            assert(find(snap0.gossip.crds@, l) is None) by {
                crate::crds::lemma_find_index_char(snap0.gossip.crds@, l);
            };
            crate::crds::lemma_insert_label_value(snap0.gossip.crds@, v1, t1);
            assert(find(snap1.gossip.crds@, l)->Some_0.value == v1);
            // The keepalive push either keeps it or replaces it with the
            // refreshed record; both are signed by the same keypair.
            let e1 = find(snap1.gossip.crds@, l)->Some_0;
            assert(e1.value.data matches CrdsDataV::ContactInfo(c) && c == node_info);
            let t2 = choose|t: u64|
                #[trigger] pushed_own_value(
                    snap1,
                    me,
                    CrdsDataV::ContactInfo(ContactInfo { wallclock: t, ..node_info }),
                    t,
                );
            let d2 = CrdsDataV::ContactInfo(ContactInfo { wallclock: t2, ..node_info });
            let sig2 = choose|sig: Signature|
                {
                    &&& #[trigger] sig.bytes() == crate::keys::sig_of(
                        snap1.keypair@,
                        crate::codec::ser_data(d2),
                    )
                    &&& crate::keys::sig_verifies(
                        crate::keys::keypair_pubkey(snap1.keypair@),
                        crate::codec::ser_data(d2),
                        sig.bytes(),
                    )
                    &&& {
                        let v = CrdsValueV { data: d2, signature: sig };
                        let tr = spec_process_push(
                            snap1.gossip.crds@,
                            snap1.gossip.push@.pending,
                            seq![v],
                            t2,
                        );
                        me.gossip.crds@ == tr.0 && me.gossip.push@.pending == tr.1
                    }
                };
            let v2 = CrdsValueV { data: d2, signature: sig2 };
            crate::crds_gossip_push::lemma_process_push_store(
                snap1.gossip.crds@,
                snap1.gossip.push@.pending,
                seq![v2],
                t2,
            );
            assert(crate::crds_gossip_pull::spec_insert_all(snap1.gossip.crds@, seq![v2], t2)
                == spec_insert(snap1.gossip.crds@, v2, t2).0) by {
                let s1 = snap1.gossip.crds@;
                assert(seq![v2].len() == 1);
                assert(seq![v2][0] == v2);
                assert(seq![v2].drop_first() =~= Seq::<CrdsValueV>::empty());
                assert(crate::crds_gossip_pull::spec_insert_all(s1, seq![v2], t2)
                    == crate::crds_gossip_pull::spec_insert_all(
                    spec_insert(s1, v2, t2).0,
                    Seq::<CrdsValueV>::empty(),
                    t2,
                ));
                assert(crate::crds_gossip_pull::spec_insert_all(
                    spec_insert(s1, v2, t2).0,
                    Seq::<CrdsValueV>::empty(),
                    t2,
                ) == spec_insert(s1, v2, t2).0);
            };
            crate::crds::lemma_insert_label_value(snap1.gossip.crds@, v2, t2);
            if crate::keys::keypair_pubkey(keypair@) == node_info.id.bytes() {
                assert(value_verified(v1));
                assert(value_verified(v2));
                assert(find(me.gossip.crds@, l)->Some_0.value == v2 || find(
                    me.gossip.crds@,
                    l,
                )->Some_0.value == e1.value);
            }
        }
        me
    }

    /// This node's identity.
    pub fn id(&self) -> (r: Pubkey)
        ensures
            r == self.gossip.id,
    {
        self.gossip.id
    }

    /// Signs and stores a contact record, trusted locally (an entry point or
    /// an operator-supplied peer).
    pub fn insert_info(&mut self, node_info: NodeInfo)
        ensures
            exists|t: u64| #[trigger] inserted_contact(*old(self), *final(self), node_info, t),
            find(final(self).gossip.crds@, CrdsValueLabel::ContactInfo(node_info.id)) is Some,
            old(self).self_stored() ==> final(self).self_stored(),
            final(self).gossip.id == old(self).gossip.id,
            final(self).gossip.push@ == old(self).gossip.push@,
            final(self).gossip.pull@ == old(self).gossip.pull@,
            final(self).keypair@ == old(self).keypair@,
    {
        let mut value = CrdsValue::new_unsigned(CrdsData::ContactInfo(node_info));
        value.sign(self.keypair.key_bytes());
        let now = timestamp();
        let ghost v = value@;
        let _ = self.gossip.crds.insert(value, now);
        proof {
            assert(inserted_contact(*old(self), *self, node_info, now));
            crate::crds::lemma_insert_presence(
                old(self).gossip.crds@,
                v,
                now,
                CrdsValueLabel::ContactInfo(node_info.id),
            );
            if old(self).self_stored() {
                crate::crds::lemma_insert_presence(
                    old(self).gossip.crds@,
                    v,
                    now,
                    CrdsValueLabel::ContactInfo(old(self).gossip.id),
                );
            }
        }
    }

    /// Re-signs this node's own record with a fresh wallclock, refreshes the
    /// push active set from the gossip-reachable peers, and applies the
    /// refreshed record to its own store through the push path, queueing it
    /// for the next push round.
    pub fn push_self(&mut self)
        requires
            old(self).self_stored(),
        ensures
            final(self).self_stored(),
            final(self).gossip.id == old(self).gossip.id,
            final(self).keypair@ == old(self).keypair@,
            find(old(self).gossip.crds@, CrdsValueLabel::ContactInfo(old(self).gossip.id))
                matches Some(e) && e.value.data matches CrdsDataV::ContactInfo(me) && exists|t: u64|
                #[trigger] pushed_own_value(
                    *old(self),
                    *final(self),
                    CrdsDataV::ContactInfo(ContactInfo { wallclock: t, ..me }),
                    t,
                ),
            final(self).gossip.push@.active.len() == if crate::crds_gossip_pull::spec_gossip_peers(
                old(self).gossip.crds@,
                old(self).gossip.id,
            ).len() <= crate::crds_gossip_push::CRDS_GOSSIP_NUM_ACTIVE {
                crate::crds_gossip_pull::spec_gossip_peers(
                    old(self).gossip.crds@,
                    old(self).gossip.id,
                ).len() as int
            } else {
                crate::crds_gossip_push::CRDS_GOSSIP_NUM_ACTIVE as int
            },
            forall|q: int|
                0 <= q < final(self).gossip.push@.active.len()
                    ==> #[trigger] final(self).gossip.push@.active[q].pruned.len() == 0,
            final(self).gossip.pull@ == old(self).gossip.pull@,
    {
        let my_data = self.my_data();
        let now = timestamp();
        let refreshed = ContactInfo { wallclock: now, ..my_data };
        let mut entry = CrdsValue::new_unsigned(CrdsData::ContactInfo(refreshed));
        entry.sign(self.keypair.key_bytes());
        self.gossip.refresh_push_active_set();
        let mut batch: Vec<CrdsValue> = Vec::new();
        batch.push(entry);
        let ghost pre = self.gossip.crds@;
        let ghost pend = self.gossip.push@.pending;
        let _ = self.gossip.process_push_message(&batch, now);
        proof {
            assert(views_of_values(batch@) =~= seq![batch@[0]@]);
            assert(pushed_own_value(
                *old(self),
                *self,
                CrdsDataV::ContactInfo(refreshed),
                now,
            ));
            crate::crds_gossip_push::lemma_process_push_presence(
                pre,
                pend,
                views_of_values(batch@),
                now,
                CrdsValueLabel::ContactInfo(old(self).gossip.id),
            );
        }
    }

    /// Looks up a peer's contact record by identity.
    pub fn lookup(&self, id: Pubkey) -> (r: Option<&NodeInfo>)
        ensures
            match r {
                Some(c) => find(self.gossip.crds@, CrdsValueLabel::ContactInfo(id)) matches Some(e)
                    && e.value.data == CrdsDataV::ContactInfo(*c) && c.id == id,
                None => find(self.gossip.crds@, CrdsValueLabel::ContactInfo(id)) is None,
            },
    {
        let label = CrdsValueLabel::ContactInfo(id);
        match self.gossip.crds.lookup(&label) {
            Some(e) => {
                let c = e.value.contact_info();
                match c {
                    Some(ci) => {
                        proof {
                            crate::crds::lemma_find_index_char(self.gossip.crds@, label);
                        }
                        Some(ci)
                    },
                    None => {
                        proof {
                            crate::crds::lemma_find_index_char(self.gossip.crds@, label);
                            assert(false);
                        }
                        None
                    },
                }
            },
            None => None,
        }
    }

    /// This node's own stored contact record.
    pub fn my_data(&self) -> (r: NodeInfo)
        requires
            self.self_stored(),
        ensures
            find(self.gossip.crds@, CrdsValueLabel::ContactInfo(self.gossip.id)) matches Some(e)
                && e.value.data == CrdsDataV::ContactInfo(r),
            r.id == self.gossip.id,
    {
        let id = self.id();
        match self.lookup(id) {
            Some(c) => *c,
            None => {
                proof {
                    assert(false);
                }
                ContactInfo::new_entry_point(&SocketAddress::unspecified())
            },
        }
    }

    /// The leader this node itself currently names; the default key if none.
    pub fn leader_id(&self) -> (r: Pubkey)
        ensures
            match find(self.gossip.crds@, CrdsValueLabel::LeaderId(self.gossip.id)) {
                Some(e) => e.value.data matches CrdsDataV::LeaderId(l) && r == l.leader_id,
                None => r == (Pubkey { a: 0, b: 0 }),
            },
    {
        let label = CrdsValueLabel::LeaderId(self.id());
        match self.gossip.crds.lookup(&label) {
            Some(e) => {
                match e.value.leader_id() {
                    Some(l) => l.leader_id,
                    None => {
                        proof {
                            crate::crds::lemma_find_index_char(self.gossip.crds@, label);
                            assert(false);
                        }
                        Pubkey::default_pubkey()
                    },
                }
            },
            None => Pubkey::default_pubkey(),
        }
    }

    /// The contact record of this node's named leader: `None` exactly when
    /// the node's own leader opinion is absent or the default key, or when
    /// the named leader's record is not stored.
    pub fn leader_data(&self) -> (r: Option<&NodeInfo>)
        ensures
            ({
                let opinion = match find(self.gossip.crds@, CrdsValueLabel::LeaderId(
                    self.gossip.id,
                )) {
                    Some(e) => match e.value.data {
                        CrdsDataV::LeaderId(l) => l.leader_id,
                        _ => (Pubkey { a: 0, b: 0 }),
                    },
                    None => (Pubkey { a: 0, b: 0 }),
                };
                if opinion == (Pubkey { a: 0, b: 0 }) {
                    r is None
                } else {
                    match r {
                        Some(c) => find(self.gossip.crds@, CrdsValueLabel::ContactInfo(opinion))
                            matches Some(e2) && e2.value.data == CrdsDataV::ContactInfo(*c)
                            && c.id == opinion,
                        None => find(self.gossip.crds@, CrdsValueLabel::ContactInfo(opinion))
                            is None,
                    }
                }
            }),
    {
        let leader_id = self.leader_id();
        if leader_id == Pubkey::default_pubkey() {
            return None;
        }
        self.lookup(leader_id)
    }

    /// Names a new leader: signs and pushes this node's leader opinion.
    pub fn set_leader(&mut self, key: Pubkey)
        ensures
            exists|t: u64|
                #[trigger] pushed_own_value(
                    *old(self),
                    *final(self),
                    CrdsDataV::LeaderId(
                        LeaderId { from: old(self).gossip.id, leader_id: key, wallclock: t },
                    ),
                    t,
                ),
            old(self).self_stored() ==> final(self).self_stored(),
            final(self).gossip.id == old(self).gossip.id,
    {
        let self_id = self.id();
        let now = timestamp();
        let leader = LeaderId::new(self_id, key, now);
        let mut entry = CrdsValue::new_unsigned(CrdsData::LeaderId(leader));
        entry.sign(self.keypair.key_bytes());
        let mut batch: Vec<CrdsValue> = Vec::new();
        batch.push(entry);
        let ghost pre = self.gossip.crds@;
        let ghost pend = self.gossip.push@.pending;
        let _ = self.gossip.process_push_message(&batch, now);
        proof {
            assert(views_of_values(batch@) =~= seq![batch@[0]@]);
            assert(pushed_own_value(
                *old(self),
                *self,
                CrdsDataV::LeaderId(
                    LeaderId { from: old(self).gossip.id, leader_id: key, wallclock: now },
                ),
                now,
            ));
            if old(self).self_stored() {
                crate::crds_gossip_push::lemma_process_push_presence(
                    pre,
                    pend,
                    views_of_values(batch@),
                    now,
                    CrdsValueLabel::ContactInfo(old(self).gossip.id),
                );
            }
        }
    }

    /// Signs and pushes a ledger vote.
    pub fn push_vote(&mut self, vote: Transaction)
        requires
            vote@.len() < 0x1_0000_0000,
        ensures
            exists|t: u64|
                #[trigger] pushed_own_value(
                    *old(self),
                    *final(self),
                    CrdsDataV::Vote(
                        crate::crds_value::VoteV {
                            from: old(self).gossip.id,
                            transaction: vote@,
                            wallclock: t,
                        },
                    ),
                    t,
                ),
            old(self).self_stored() ==> final(self).self_stored(),
            final(self).gossip.id == old(self).gossip.id,
    {
        let self_id = self.id();
        let now = timestamp();
        let ghost tx_view = vote@;
        let v = Vote::new(self_id, vote, now);
        let mut entry = CrdsValue::new_unsigned(CrdsData::Vote(v));
        entry.sign(self.keypair.key_bytes());
        let mut batch: Vec<CrdsValue> = Vec::new();
        batch.push(entry);
        let ghost pre = self.gossip.crds@;
        let ghost pend = self.gossip.push@.pending;
        let _ = self.gossip.process_push_message(&batch, now);
        proof {
            assert(views_of_values(batch@) =~= seq![batch@[0]@]);
            assert(pushed_own_value(
                *old(self),
                *self,
                CrdsDataV::Vote(
                    crate::crds_value::VoteV {
                        from: old(self).gossip.id,
                        transaction: tx_view,
                        wallclock: now,
                    },
                ),
                now,
            ));
            if old(self).self_stored() {
                crate::crds_gossip_push::lemma_process_push_presence(
                    pre,
                    pend,
                    views_of_values(batch@),
                    now,
                    CrdsValueLabel::ContactInfo(old(self).gossip.id),
                );
            }
        }
    }

    /// The stored votes newer than `since`, with the greatest local timestamp
    /// seen among them (so the bank can ask only for what is new).
    #[verifier::rlimit(100)]
    pub fn get_votes(&self, since: u64) -> (r: (Vec<Transaction>, u64))
        ensures
            r.0@.map_values(|t: Transaction| t@) == votes_after(self.gossip.crds@, since),
            r.1 == votes_max_ts(self.gossip.crds@, since),
    {
        let ghost s = self.gossip.crds@;
        let entries = self.gossip.crds.entries();
        let mut txs: Vec<Transaction> = Vec::new();
        let mut max_ts: u64 = since;
        let mut i: usize = 0;
        proof {
            assert(s.subrange(0, 0) =~= Seq::<VersionedV>::empty());
            assert(txs@.map_values(|t: Transaction| t@) =~= votes_after(s.subrange(0, 0), since));
        }
        while i < entries.len()
            invariant
                i <= entries@.len(),
                crate::crds::views_of_entries(entries@) == s,
                s.len() == entries@.len(),
                txs@.map_values(|t: Transaction| t@) == votes_after(s.subrange(0, i as int), since),
                max_ts == votes_max_ts(s.subrange(0, i as int), since),
            decreases entries@.len() - i,
        {
            let ghost pre = txs@.map_values(|t: Transaction| t@);
            let entry = &entries[i];
            proof {
                assert(entry@ == s[i as int]);
            }
            let ts = entry.local_timestamp;
            match entry.value.vote() {
                Some(v) => {
                    if ts > since {
                        txs.push(v.transaction.duplicate());
                        if ts > max_ts {
                            max_ts = ts;
                        }
                    }
                },
                None => {},
            }
            proof {
                let cur = s.subrange(0, i + 1);
                assert(cur.drop_last() =~= s.subrange(0, i as int));
                assert(cur.last() == s[i as int]);
                assert(txs@.map_values(|t: Transaction| t@) =~= votes_after(cur, since));
            }
            i = i + 1;
        }
        proof {
            assert(s.subrange(0, s.len() as int) =~= s);
        }
        (txs, max_ts)
    }

    /// Ages the store out: after the purge, no entry (the node's own record
    /// included) has a local timestamp older than the pull timeout. The
    /// periodic keepalive re-push is what keeps the own record alive.
    pub fn purge(&mut self, now: u64)
        ensures
            final(self).gossip.crds@ == spec_purge(
                old(self).gossip.crds@,
                now,
                CRDS_GOSSIP_PULL_CRDS_TIMEOUT_MS,
            ),
            final(self).gossip.id == old(self).gossip.id,
    {
        self.gossip.purge(now);
    }

    /// One more than the number of gossip-reachable peers: the nodes this one
    /// can currently converge with.
    pub fn convergence(&self) -> (r: usize)
        ensures
            r as int == role_peers(self.gossip.crds@, self.gossip.id, PeerRole::Gossip).len() + 1
                || r == usize::MAX,
    {
        let n = self.gossip_peers().len();
        if n == usize::MAX {
            n
        } else {
            n + 1
        }
    }

    /// The stored peers usable for a role, excluding this node.
    #[verifier::rlimit(100)]
    pub fn peers_by_role(&self, role: PeerRole) -> (r: Vec<NodeInfo>)
        ensures
            r@ == role_peers(self.gossip.crds@, self.gossip.id, role),
    {
        let ghost s = self.gossip.crds@;
        let self_id = self.id();
        let entries = self.gossip.crds.entries();
        let mut out: Vec<NodeInfo> = Vec::new();
        let mut i: usize = 0;
        proof {
            assert(s.subrange(0, 0) =~= Seq::<VersionedV>::empty());
            assert(out@ =~= role_peers(s.subrange(0, 0), self_id, role));
        }
        while i < entries.len()
            invariant
                i <= entries@.len(),
                crate::crds::views_of_entries(entries@) == s,
                s.len() == entries@.len(),
                self_id == self.gossip.id,
                out@ == role_peers(s.subrange(0, i as int), self_id, role),
            decreases entries@.len() - i,
        {
            let entry = &entries[i];
            proof {
                assert(entry@ == s[i as int]);
            }
            match entry.value.contact_info() {
                Some(c) => {
                    let ok = match role {
                        PeerRole::Gossip => c.gossip.is_valid(),
                        PeerRole::Tvu => c.tvu.is_valid(),
                        PeerRole::Tpu => c.tpu.is_valid(),
                        PeerRole::Rpc => c.rpc.is_valid(),
                        PeerRole::Repair => c.tvu.is_valid() && c.gossip.is_valid(),
                    };
                    if !(c.id == self_id) && ok {
                        out.push(*c);
                    }
                },
                None => {},
            }
            proof {
                let cur = s.subrange(0, i + 1);
                assert(cur.drop_last() =~= s.subrange(0, i as int));
                assert(cur.last() == s[i as int]);
                assert(out@ =~= role_peers(cur, self_id, role));
            }
            i = i + 1;
        }
        proof {
            assert(s.subrange(0, s.len() as int) =~= s);
        }
        out
    }

    /// Peers with a valid RPC endpoint.
    pub fn rpc_peers(&self) -> (r: Vec<NodeInfo>)
        ensures
            r@ == role_peers(self.gossip.crds@, self.gossip.id, PeerRole::Rpc),
    {
        self.peers_by_role(PeerRole::Rpc)
    }

    /// Peers reachable over gossip.
    pub fn gossip_peers(&self) -> (r: Vec<NodeInfo>)
        ensures
            r@ == role_peers(self.gossip.crds@, self.gossip.id, PeerRole::Gossip),
    {
        self.peers_by_role(PeerRole::Gossip)
    }

    /// Peers that ingest ledger blocks: the broadcast table.
    pub fn tvu_peers(&self) -> (r: Vec<NodeInfo>)
        ensures
            r@ == role_peers(self.gossip.crds@, self.gossip.id, PeerRole::Tvu),
    {
        self.peers_by_role(PeerRole::Tvu)
    }

    /// Peers retransmissions go to; the same set as `tvu_peers`.
    pub fn retransmit_peers(&self) -> (r: Vec<NodeInfo>)
        ensures
            r@ == role_peers(self.gossip.crds@, self.gossip.id, PeerRole::Tvu),
    {
        self.peers_by_role(PeerRole::Tvu)
    }

    /// Peers that can serve window repairs: a valid tvu and a valid gossip
    /// endpoint.
    pub fn repair_peers(&self) -> (r: Vec<NodeInfo>)
        ensures
            r@ == role_peers(self.gossip.crds@, self.gossip.id, PeerRole::Repair),
    {
        self.peers_by_role(PeerRole::Repair)
    }

    /// Peers that ingest transactions.
    pub fn tpu_peers(&self) -> (r: Vec<NodeInfo>)
        ensures
            r@ == role_peers(self.gossip.crds@, self.gossip.id, PeerRole::Tpu),
    {
        self.peers_by_role(PeerRole::Tpu)
    }
}

/// The signature-verified subset of a value list, in order.
pub open spec fn spec_verified_subset(vs: Seq<CrdsValueV>) -> Seq<CrdsValueV>
    decreases vs.len(),
{
    if vs.len() == 0 {
        Seq::empty()
    } else {
        let rest = spec_verified_subset(vs.drop_last());
        if value_verified(vs.last()) {
            rest.push(vs.last())
        } else {
            rest
        }
    }
}

/// Everything in the verified subset verifies.
pub proof fn lemma_verified_subset(vs: Seq<CrdsValueV>)
    ensures
        forall|k: int|
            0 <= k < spec_verified_subset(vs).len() ==> value_verified(
                #[trigger] spec_verified_subset(vs)[k],
            ),
    decreases vs.len(),
{
    if vs.len() > 0 {
        lemma_verified_subset(vs.drop_last());
        let rest = spec_verified_subset(vs.drop_last());
        let whole = spec_verified_subset(vs);
        assert forall|k: int| 0 <= k < whole.len() implies value_verified(#[trigger] whole[k]) by {
            if k < rest.len() {
                assert(whole[k] == rest[k]);
            }
        };
    }
}

/// The verified subset is no longer than the input.
pub proof fn lemma_verified_subset_len(vs: Seq<CrdsValueV>)
    ensures
        spec_verified_subset(vs).len() <= vs.len(),
    decreases vs.len(),
{
    if vs.len() > 0 {
        lemma_verified_subset_len(vs.drop_last());
    }
}

/// Keeps exactly the values whose signature verifies; inbound values pass
/// through this gate before they reach the store.
pub fn retain_verified(values: Vec<CrdsValue>) -> (r: Vec<CrdsValue>)
    requires
        forall|i: int| 0 <= i < values@.len() ==> value_wf(#[trigger] values@[i]@),
    ensures
        views_of_values(r@) == spec_verified_subset(views_of_values(values@)),
        forall|i: int| 0 <= i < r@.len() ==> value_wf(#[trigger] r@[i]@),
{
    let ghost vals = views_of_values(values@);
    let mut out: Vec<CrdsValue> = Vec::new();
    let mut i: usize = 0;
    proof {
        assert(vals.subrange(0, 0) =~= Seq::<CrdsValueV>::empty());
        assert(views_of_values(out@) =~= spec_verified_subset(vals.subrange(0, 0)));
    }
    while i < values.len()
        invariant
            i <= values@.len(),
            vals == views_of_values(values@),
            vals.len() == values@.len(),
            forall|k: int| 0 <= k < values@.len() ==> value_wf(#[trigger] values@[k]@),
            views_of_values(out@) == spec_verified_subset(vals.subrange(0, i as int)),
            forall|k: int| 0 <= k < out@.len() ==> value_wf(#[trigger] out@[k]@),
        decreases values@.len() - i,
    {
        let ghost pre = views_of_values(out@);
        proof {
            assert(vals[i as int] == values@[i as int]@);
        }
        let keep = values[i].verify();
        if keep {
            let dup = values[i].duplicate();
            proof {
                assert(dup@ == vals[i as int]);
            }
            out.push(dup);
            proof {
                assert(views_of_values(out@) =~= pre.push(vals[i as int]));
            }
        }
        proof {
            let cur = vals.subrange(0, i + 1);
            assert(cur.drop_last() =~= vals.subrange(0, i as int));
            assert(cur.last() == vals[i as int]);
            assert(views_of_values(out@) =~= spec_verified_subset(cur));
        }
        i = i + 1;
    }
    proof {
        assert(vals.subrange(0, vals.len() as int) =~= vals);
    }
    out
}

/// A stake list zipped with its peers.
pub open spec fn zipped_stakes(stakes: Seq<u64>, peers: Seq<ContactInfo>) -> Seq<(u64, ContactInfo)> {
    Seq::new(stakes.len(), |i: int| (stakes[i], peers[i]))
}

/// Ascending by stake.
pub open spec fn sorted_by_stake(s: Seq<(u64, ContactInfo)>) -> bool {
    forall|i: int, j: int| 0 <= i < j < s.len() ==> (#[trigger] s[i]).0 <= (#[trigger] s[j]).0
}

/// `out` is the peer projection of some stake-ascending rearrangement of the
/// given stake/peer pairs.
pub open spec fn stake_sorted_projection(
    stakes: Seq<u64>,
    peers: Seq<ContactInfo>,
    out: Seq<ContactInfo>,
) -> bool {
    exists|pairs: Seq<(u64, ContactInfo)>|
        sorted_by_stake(pairs) && #[trigger] pairs.to_multiset() == zipped_stakes(
            stakes,
            peers,
        ).to_multiset() && out == pairs.map_values(|p: (u64, ContactInfo)| p.1)
}

impl ClusterInfo {
    /// Pairs each peer with its stake (obtained by the caller from the bank)
    /// and sorts ascending by stake; the pairs are exactly the input pairs.
    pub fn sort_by_stake(peers: &Vec<NodeInfo>, stakes: &Vec<u64>) -> (r: Vec<(u64, NodeInfo)>)
        requires
            peers@.len() == stakes@.len(),
        ensures
            sorted_by_stake(r@),
            r@.to_multiset() == zipped_stakes(stakes@, peers@).to_multiset(),
    {
        broadcast use vstd::seq_lib::group_to_multiset_ensures;

        let ghost zipped = zipped_stakes(stakes@, peers@);
        let mut out: Vec<(u64, NodeInfo)> = Vec::new();
        let mut i: usize = 0;
        proof {
            assert(zipped.take(0) =~= Seq::<(u64, ContactInfo)>::empty());
            assert(out@.to_multiset() =~= zipped.take(0).to_multiset());
        }
        while i < peers.len()
            invariant
                i <= peers@.len(),
                peers@.len() == stakes@.len(),
                zipped == zipped_stakes(stakes@, peers@),
                sorted_by_stake(out@),
                out@.len() == i,
                out@.to_multiset() == zipped.take(i as int).to_multiset(),
            decreases peers@.len() - i,
        {
            broadcast use vstd::seq_lib::group_to_multiset_ensures;

            let x = (stakes[i], peers[i]);
            // Find the insertion point: after every pair with stake <= x.0.
            let mut pos: usize = 0;
            while pos < out.len() && out[pos].0 <= x.0
                invariant
                    pos <= out@.len(),
                    forall|k: int| 0 <= k < pos ==> (#[trigger] out@[k]).0 <= x.0,
                decreases out@.len() - pos,
            {
                pos = pos + 1;
            }
            let ghost pre = out@;
            out.insert(pos, x);
            proof {
                vstd::seq_lib::to_multiset_insert(pre, pos as int, x);
                assert(zipped.take(i + 1) =~= zipped.take(i as int).push(zipped[i as int]));
                assert(zipped[i as int] == x);
                assert(sorted_by_stake(out@)) by {
                    assert forall|a: int, b: int| 0 <= a < b < out@.len() implies (
                    #[trigger] out@[a]).0 <= (#[trigger] out@[b]).0 by {
                        if a < pos && b < pos {
                            assert(out@[a] == pre[a] && out@[b] == pre[b]);
                        } else if a < pos && b == pos {
                            assert(out@[a] == pre[a]);
                        } else if a < pos && b > pos {
                            assert(out@[a] == pre[a] && out@[b] == pre[b - 1]);
                        } else if a == pos {
                            assert(out@[b] == pre[b - 1]);
                            assert(pre[b - 1].0 > x.0 || pre[b - 1].0 >= x.0);
                        } else {
                            assert(out@[a] == pre[a - 1] && out@[b] == pre[b - 1]);
                        }
                    };
                };
            }
            i = i + 1;
        }
        proof {
            assert(zipped.take(zipped.len() as int) =~= zipped);
        }
        out
    }

    /// The retransmit peers sorted ascending by the given stakes: the peer
    /// projection of the stake-sorted pairs.
    pub fn sorted_retransmit_peers(&self, stakes: &Vec<u64>) -> (r: Vec<NodeInfo>)
        requires
            stakes@.len() == role_peers(self.gossip.crds@, self.gossip.id, PeerRole::Tvu).len(),
        ensures
            r@.len() == stakes@.len(),
            stake_sorted_projection(
                stakes@,
                role_peers(self.gossip.crds@, self.gossip.id, PeerRole::Tvu),
                r@,
            ),
    {
        let peers = self.retransmit_peers();
        let with_stakes = ClusterInfo::sort_by_stake(&peers, stakes);
        let mut out: Vec<NodeInfo> = Vec::new();
        let mut i: usize = 0;
        proof {
            broadcast use vstd::seq_lib::group_to_multiset_ensures;

            let zipped = zipped_stakes(stakes@, peers@);
            assert(with_stakes@.to_multiset().len() == with_stakes@.len());
            assert(zipped.to_multiset().len() == zipped.len());
            assert(with_stakes@.len() == zipped.len());
        }
        while i < with_stakes.len()
            invariant
                i <= with_stakes@.len(),
                out@ == with_stakes@.subrange(0, i as int).map_values(
                    |p: (u64, ContactInfo)| p.1,
                ),
            decreases with_stakes@.len() - i,
        {
            out.push(with_stakes[i].1);
            proof {
                assert(out@ =~= with_stakes@.subrange(0, i + 1).map_values(
                    |p: (u64, ContactInfo)| p.1,
                ));
            }
            i = i + 1;
        }
        proof {
            assert(with_stakes@.subrange(0, with_stakes@.len() as int) =~= with_stakes@);
            assert(out@ == with_stakes@.map_values(|p: (u64, ContactInfo)| p.1));
            assert(stake_sorted_projection(
                stakes@,
                role_peers(self.gossip.crds@, self.gossip.id, PeerRole::Tvu),
                out@,
            ));
        }
        out
    }

    /// The tvu peers sorted ascending by the given stakes.
    pub fn sorted_tvu_peers(&self, stakes: &Vec<u64>) -> (r: Vec<NodeInfo>)
        requires
            stakes@.len() == role_peers(self.gossip.crds@, self.gossip.id, PeerRole::Tvu).len(),
        ensures
            r@.len() == stakes@.len(),
            stake_sorted_projection(
                stakes@,
                role_peers(self.gossip.crds@, self.gossip.id, PeerRole::Tvu),
                r@,
            ),
    {
        self.sorted_retransmit_peers(stakes)
    }
}

/// What `create_broadcast_orders` owes for offset `x`: blob `i` goes to table
/// slot `(x + i) % n`, and with a trailing tick order the last blob goes to
/// the whole table.
pub open spec fn orders_match(
    o: Seq<(usize, Vec<usize>)>,
    num_blobs: int,
    table_len: int,
    tick: bool,
    x: int,
) -> bool {
    &&& o.len() == num_blobs + (if tick {
        1int
    } else {
        0int
    })
    &&& forall|i: int|
        0 <= i < num_blobs ==> (#[trigger] o[i]).0 == i && o[i].1@ == seq![
            (((x + i) % table_len) as usize),
        ]
    &&& (tick ==> o[num_blobs].0 == num_blobs - 1 && o[num_blobs].1@ == Seq::new(
        table_len as nat,
        |k: int| k as usize,
    ))
}

/// A nonempty order list rotates from some in-range offset.
pub open spec fn rotated_orders(
    o: Seq<(usize, Vec<usize>)>,
    num_blobs: int,
    table_len: int,
    tick: bool,
) -> bool {
    num_blobs > 0 ==> exists|x: int|
        0 <= x < table_len && #[trigger] orders_match(o, num_blobs, table_len, tick, x)
}

/// Assigns each blob a recipient slot, rotating through the table from a
/// random offset; with a trailing tick, the last blob additionally goes to
/// every slot so the leader handoff is seen despite loss.
pub fn create_broadcast_orders(contains_last_tick: bool, num_blobs: usize, table_len: usize) -> (r:
    Vec<(usize, Vec<usize>)>)
    requires
        table_len >= 1,
        num_blobs < usize::MAX,
    ensures
        num_blobs == 0 ==> r@.len() == 0,
        num_blobs > 0 ==> exists|x: int|
            0 <= x < table_len && #[trigger] orders_match(
                r@,
                num_blobs as int,
                table_len as int,
                contains_last_tick,
                x,
            ),
{
    let mut orders: Vec<(usize, Vec<usize>)> = Vec::new();
    if num_blobs == 0 {
        return orders;
    }
    let x = rand_below(table_len as u64) as usize;
    let mut i: usize = 0;
    while i < num_blobs
        invariant
            i <= num_blobs,
            x < table_len,
            1 <= table_len,
            orders@.len() == i,
            forall|q: int|
                0 <= q < i ==> (#[trigger] orders@[q]).0 == q && orders@[q].1@ == seq![
                    (((x + q) % (table_len as int)) as usize),
                ],
        decreases num_blobs - i,
    {
        // (x + i) % n without overflowing the sum.
        let j = i % table_len;
        let idx = if x >= table_len - j {
            x - (table_len - j)
        } else {
            x + j
        };
        proof {
            let n = table_len as int;
            vstd::arithmetic::div_mod::lemma_add_mod_noop(x as int, i as int, n);
            vstd::arithmetic::div_mod::lemma_small_mod(x as nat, n as nat);
            assert((x as int % n + i as int % n) % n == (x as int + i as int) % n);
            assert(x as int % n == x as int);
            if x + j >= table_len {
                vstd::arithmetic::div_mod::lemma_fundamental_div_mod_converse(
                    x as int + j as int,
                    n,
                    1,
                    x as int + j as int - n,
                );
            } else {
                vstd::arithmetic::div_mod::lemma_small_mod((x + j) as nat, n as nat);
            }
            assert(idx as int == (x as int + i as int) % n);
        }
        let mut slot: Vec<usize> = Vec::new();
        slot.push(idx);
        orders.push((i, slot));
        proof {
            assert(orders@[i as int].1@ =~= seq![(((x as int + i as int) % (table_len as int)) as usize)]);
        }
        i = i + 1;
    }
    if contains_last_tick {
        // Broadcast the last blob to everyone so the handoff tick survives
        // packet loss.
        let mut all: Vec<usize> = Vec::new();
        let mut k: usize = 0;
        while k < table_len
            invariant
                k <= table_len,
                all@ == Seq::new(k as nat, |q: int| q as usize),
            decreases table_len - k,
        {
            all.push(k);
            proof {
                assert(all@ =~= Seq::new((k + 1) as nat, |q: int| q as usize));
            }
            k = k + 1;
        }
        orders.push((num_blobs - 1, all));
    }
    proof {
        assert(orders_match(
            orders@,
            num_blobs as int,
            table_len as int,
            contains_last_tick,
            x as int,
        ));
    }
    orders
}

/// Broadcast entry: refuses an empty table, then builds the rotated orders.
pub fn broadcast_orders(contains_last_tick: bool, table: &Vec<NodeInfo>, num_blobs: usize) -> (r:
    Result<Vec<(usize, Vec<usize>)>, ClusterInfoError>)
    requires
        num_blobs < usize::MAX,
    ensures
        table@.len() == 0 ==> r == Err::<Vec<(usize, Vec<usize>)>, ClusterInfoError>(
            ClusterInfoError::NoPeers,
        ),
        table@.len() > 0 ==> r is Ok,
        match r {
            Ok(o) => rotated_orders(o@, num_blobs as int, table@.len() as int, contains_last_tick),
            Err(e) => e == ClusterInfoError::NoPeers,
        },
{
    let n = table.len();
    if n == 0 {
        return Err(ClusterInfoError::NoPeers);
    }
    let o = create_broadcast_orders(contains_last_tick, num_blobs, n);
    proof {
        if num_blobs > 0 {
            let x0 = choose|x: int|
                0 <= x < n && #[trigger] orders_match(
                    o@,
                    num_blobs as int,
                    n as int,
                    contains_last_tick,
                    x,
                );
            assert(orders_match(
                o@,
                num_blobs as int,
                table@.len() as int,
                contains_last_tick,
                x0,
            ));
        }
        assert(rotated_orders(o@, num_blobs as int, table@.len() as int, contains_last_tick));
    }
    Ok(o)
}

/// The first slot holding a blob, or -1.
pub open spec fn first_hit(s: Seq<Option<Blob>>) -> int
    decreases s.len(),
{
    if s.len() == 0 {
        -1
    } else if s[0] is Some {
        0
    } else {
        let r = first_hit(s.drop_first());
        if r == -1 {
            -1
        } else {
            r + 1
        }
    }
}

impl ClusterInfo {
    /// Rewrites a blob's identity to this node and lists the tvu endpoints of
    /// the peers it must be retransmitted to; the sends themselves happen
    /// outside, after all locks are released.
    pub fn retransmit_to(&self, peers: &Vec<NodeInfo>, blob: &Blob) -> (r: (Blob, Vec<
        SocketAddress,
    >))
        requires
            self.self_stored(),
            blob.data@.len() <= BLOB_SIZE,
        ensures
            r.0.id == self.gossip.id,
            r.0.slot == blob.slot && r.0.index == blob.index && r.0.data@ == blob.data@,
            r.1@ == Seq::new(peers@.len(), |k: int| peers@[k].tvu),
    {
        let me = self.my_data();
        let mut out = blob.duplicate();
        out.id = me.id;
        let mut addrs: Vec<SocketAddress> = Vec::new();
        let mut i: usize = 0;
        while i < peers.len()
            invariant
                i <= peers@.len(),
                addrs@ == Seq::new(i as nat, |k: int| peers@[k].tvu),
            decreases peers@.len() - i,
        {
            addrs.push(peers[i].tvu);
            proof {
                assert(addrs@ =~= Seq::new((i + 1) as nat, |k: int| peers@[k].tvu));
            }
            i = i + 1;
        }
        (out, addrs)
    }

    /// The serialized window-repair envelope naming this node and the wanted
    /// index.
    pub fn window_index_request_bytes(&self, ix: u64) -> (r: Vec<u8>)
        requires
            self.self_stored(),
        ensures
            find(self.gossip.crds@, CrdsValueLabel::ContactInfo(self.gossip.id)) matches Some(e)
                && e.value.data matches CrdsDataV::ContactInfo(c) && r@ == ser_protocol(
                crate::protocol::ProtocolV::RequestWindowIndex(c, ix),
            ),
    {
        let me = self.my_data();
        let req = Protocol::RequestWindowIndex(me, ix);
        crate::codec::serialize_protocol(&req)
    }

    /// Picks a random repair-capable peer and returns its gossip address with
    /// the serialized repair request.
    pub fn window_index_request(&self, ix: u64) -> (r: Result<
        (SocketAddress, Vec<u8>),
        ClusterInfoError,
    >)
        requires
            self.self_stored(),
        ensures
            match r {
                Ok((addr, bytes)) => {
                    &&& exists|j: int|
                        0 <= j < role_peers(self.gossip.crds@, self.gossip.id, PeerRole::Repair).len()
                            && #[trigger] role_peers(
                            self.gossip.crds@,
                            self.gossip.id,
                            PeerRole::Repair,
                        )[j].gossip == addr
                    &&& addr.spec_is_valid()
                    &&& (find(self.gossip.crds@, CrdsValueLabel::ContactInfo(self.gossip.id))
                        matches Some(e) && e.value.data matches CrdsDataV::ContactInfo(c) && bytes@
                        == ser_protocol(crate::protocol::ProtocolV::RequestWindowIndex(c, ix)))
                },
                Err(e) => e == ClusterInfoError::NoPeers && role_peers(
                    self.gossip.crds@,
                    self.gossip.id,
                    PeerRole::Repair,
                ).len() == 0,
            },
    {
        let valid = self.repair_peers();
        if valid.len() == 0 {
            return Err(ClusterInfoError::NoPeers);
        }
        let n = rand_below(valid.len() as u64) as usize;
        let addr = valid[n].gossip;
        proof {
            lemma_role_peers_valid(self.gossip.crds@, self.gossip.id, PeerRole::Repair);
            assert(role_ok(valid@[n as int], PeerRole::Repair));
        }
        let out = self.window_index_request_bytes(ix);
        Ok((addr, out))
    }

    /// Serves a window-repair request: the first slot holding a blob at the
    /// wanted index answers, readdressed to the requester; a miss returns
    /// nothing.
    pub fn run_window_request(
        from: &NodeInfo,
        from_addr: &SocketAddress,
        slot_blobs: &Vec<Option<Blob>>,
        me: &NodeInfo,
        ix: u64,
    ) -> (r: Vec<Blob>)
        ensures
            first_hit(slot_blobs@) == -1 ==> r@.len() == 0,
            first_hit(slot_blobs@) >= 0 ==> {
                let j = first_hit(slot_blobs@);
                &&& r@.len() == 1
                &&& slot_blobs@[j] matches Some(b) && r@[0].slot == b.slot && r@[0].index == b.index
                    && r@[0].id == b.id && r@[0].data@ == b.data@ && r@[0].addr == *from_addr
            },
    {
        let ghost s = slot_blobs@;
        let mut i: usize = 0;
        proof {
            lemma_first_hit_char(s);
        }
        while i < slot_blobs.len()
            invariant
                i <= s.len(),
                s == slot_blobs@,
                first_hit(s) == -1 || first_hit(s) >= i,
                forall|k: int| 0 <= k < i ==> s[k] is None,
            decreases s.len() - i,
        {
            match &slot_blobs[i] {
                Some(b) => {
                    proof {
                        lemma_first_hit_char(s);
                        if first_hit(s) == -1 {
                            assert(s[i as int] is None);
                            assert(false);
                        }
                        if first_hit(s) > i as int {
                            assert(s[i as int] is None);
                            assert(false);
                        }
                        assert(first_hit(s) == i as int);
                    }
                    let mut out = b.duplicate();
                    out.addr = *from_addr;
                    let mut rv: Vec<Blob> = Vec::new();
                    rv.push(out);
                    return rv;
                },
                None => {
                    proof {
                        lemma_first_hit_char(s);
                        if first_hit(s) == i as int {
                            assert(s[i as int] is Some);
                            assert(false);
                        }
                    }
                },
            }
            i = i + 1;
        }
        proof {
            lemma_first_hit_char(s);
            if first_hit(s) >= 0 {
                assert(s[first_hit(s)] is Some);
                assert(false);
            }
        }
        Vec::new()
    }
}

/// Where `first_hit` points: the first slot holding a blob.
pub proof fn lemma_first_hit_char(s: Seq<Option<Blob>>)
    ensures
        first_hit(s) == -1 ==> forall|k: int| 0 <= k < s.len() ==> s[k] is None,
        first_hit(s) != -1 ==> 0 <= first_hit(s) < s.len() && s[first_hit(s)] is Some && forall|
            k: int,
        | 0 <= k < first_hit(s) ==> s[k] is None,
    decreases s.len(),
{
    if s.len() == 0 {
    } else if s[0] is Some {
    } else {
        lemma_first_hit_char(s.drop_first());
        assert(forall|k: int| 1 <= k < s.len() ==> #[trigger] s[k] == s.drop_first()[k - 1]);
    }
}

/// A candidate named by at least one stored opinion and by at least as many
/// as any other.
pub open spec fn is_top_leader(s: Seq<VersionedV>, cand: Pubkey) -> bool {
    &&& leader_votes(s, cand) >= 1
    &&& forall|p: Pubkey| #[trigger] leader_votes(s, p) <= leader_votes(s, cand)
}

/// A tally bound: no leader is named more often than there are entries.
pub proof fn lemma_leader_votes_bound(s: Seq<VersionedV>, p: Pubkey)
    ensures
        leader_votes(s, p) <= s.len(),
    decreases s.len(),
{
    if s.len() > 0 {
        lemma_leader_votes_bound(s.drop_last(), p);
    }
}

impl ClusterInfo {
    /// Tallies the stored leader opinions (ignoring the default key) and
    /// returns the contact record of a most-named candidate, if it is known.
    pub fn get_gossip_top_leader(&self) -> (r: Option<&NodeInfo>)
        ensures
            match r {
                Some(ci) => exists|cand: Pubkey|
                    #[trigger] is_top_leader(self.gossip.crds@, cand) && (find(
                        self.gossip.crds@,
                        CrdsValueLabel::ContactInfo(cand),
                    ) matches Some(e) && e.value.data == CrdsDataV::ContactInfo(*ci)),
                None => (forall|p: Pubkey| #[trigger] leader_votes(self.gossip.crds@, p) == 0) || (
                exists|cand: Pubkey|
                    #[trigger] is_top_leader(self.gossip.crds@, cand) && find(
                        self.gossip.crds@,
                        CrdsValueLabel::ContactInfo(cand),
                    ) is None),
            },
    {
        let ghost s = self.gossip.crds@;
        let entries = self.gossip.crds.entries();
        let mut cands: Vec<(Pubkey, u64)> = Vec::new();
        let mut i: usize = 0;
        proof {
            assert(s.subrange(0, 0) =~= Seq::<VersionedV>::empty());
        }
        while i < entries.len()
            invariant
                i <= entries@.len(),
                crate::crds::views_of_entries(entries@) == s,
                s.len() == entries@.len(),
                forall|k: int|
                    0 <= k < cands@.len() ==> (#[trigger] cands@[k]).1 as int == leader_votes(
                        s.subrange(0, i as int),
                        cands@[k].0,
                    ) && cands@[k].1 >= 1 && cands@[k].0 != (Pubkey { a: 0, b: 0 }),
                forall|a: int, b: int|
                    0 <= a < b < cands@.len() ==> (#[trigger] cands@[a]).0 != (
                    #[trigger] cands@[b]).0,
                forall|p: Pubkey|
                    #[trigger] leader_votes(s.subrange(0, i as int), p) > 0 ==> exists|k: int|
                        0 <= k < cands@.len() && (#[trigger] cands@[k]).0 == p,
            decreases entries@.len() - i,
        {
            let ghost pre_cands = cands@;
            let ghost prefix = s.subrange(0, i as int);
            let entry = &entries[i];
            proof {
                assert(entry@ == s[i as int]);
                lemma_leader_votes_bound(prefix, Pubkey { a: 0, b: 0 });
            }
            match entry.value.leader_id() {
                Some(l) => {
                    let named = l.leader_id;
                    if !(named == Pubkey::default_pubkey()) {
                        // Bump the candidate, or add it with one vote.
                        let mut j: usize = 0;
                        let mut found = false;
                        while j < cands.len() && !found
                            invariant
                                j <= cands@.len(),
                                cands@ == pre_cands,
                                found ==> j < cands@.len() && cands@[j as int].0 == named,
                                !found ==> forall|k: int|
                                    0 <= k < j ==> (#[trigger] cands@[k]).0 != named,
                            decreases cands@.len() - j + (if found {
                                0int
                            } else {
                                1int
                            }),
                        {
                            if cands[j].0 == named {
                                found = true;
                            } else {
                                j = j + 1;
                            }
                        }
                        if found {
                            let c = cands[j];
                            proof {
                                lemma_leader_votes_bound(prefix, c.0);
                                assert(prefix.len() < usize::MAX as int || prefix.len()
                                    <= usize::MAX as int);
                                assert(c.1 as int <= prefix.len());
                            }
                            cands.set(j, (c.0, c.1 + 1));
                        } else {
                            cands.push((named, 1));
                        }
                    }
                },
                None => {},
            }
            proof {
                let cur = s.subrange(0, i + 1);
                assert(cur.drop_last() =~= prefix);
                assert(cur.last() == s[i as int]);
                assert forall|p: Pubkey| #[trigger] leader_votes(cur, p) > 0 implies exists|k: int|
                    0 <= k < cands@.len() && (#[trigger] cands@[k]).0 == p by {
                    if leader_votes(prefix, p) > 0 {
                        let k0 = choose|k: int|
                            0 <= k < pre_cands.len() && (#[trigger] pre_cands[k]).0 == p;
                        assert(cands@[k0].0 == p);
                    } else {
                        // The new entry named `p`; it is now a candidate.
                        match s[i as int].value.data {
                            CrdsDataV::LeaderId(l) => {
                                assert(l.leader_id == p);
                                if pre_cands.len() < cands@.len() {
                                    assert(cands@[cands@.len() - 1].0 == p);
                                } else {
                                    let k0 = choose|k: int|
                                        0 <= k < pre_cands.len() && (#[trigger] pre_cands[k]).0
                                            == p;
                                    assert(cands@[k0].0 == p);
                                }
                            },
                            _ => {
                                assert(false);
                            },
                        }
                    }
                };
            }
            i = i + 1;
        }
        proof {
            assert(s.subrange(0, s.len() as int) =~= s);
        }
        if cands.len() == 0 {
            proof {
                assert forall|p: Pubkey| #[trigger] leader_votes(s, p) == 0 by {
                    if leader_votes(s, p) > 0 {
                        let k0 = choose|k: int|
                            0 <= k < cands@.len() && (#[trigger] cands@[k]).0 == p;
                        assert(false);
                    }
                };
            }
            return None;
        }
        // Pick a candidate with the greatest count.
        let mut best: (Pubkey, u64) = cands[0];
        let mut m: usize = 1;
        proof {
            assert(cands@[0] == best);
        }
        while m < cands.len()
            invariant
                1 <= m <= cands@.len(),
                cands@.len() >= 1,
                exists|k: int| 0 <= k < cands@.len() && #[trigger] cands@[k] == best,
                forall|k: int| 0 <= k < m ==> (#[trigger] cands@[k]).1 <= best.1,
            decreases cands@.len() - m,
        {
            if cands[m].1 > best.1 {
                best = cands[m];
                proof {
                    assert(cands@[m as int] == best);
                }
            }
            m = m + 1;
        }
        proof {
            assert(is_top_leader(s, best.0)) by {
                let kb = choose|k: int| 0 <= k < cands@.len() && #[trigger] cands@[k] == best;
                assert(best.1 as int == leader_votes(s, best.0));
                assert forall|p: Pubkey| #[trigger] leader_votes(s, p) <= leader_votes(
                    s,
                    best.0,
                ) by {
                    if leader_votes(s, p) > 0 {
                        let k0 = choose|k: int|
                            0 <= k < cands@.len() && (#[trigger] cands@[k]).0 == p;
                        assert(cands@[k0].1 <= best.1);
                    }
                };
            };
        }
        let best_id = best.0;
        match self.lookup(best_id) {
            Some(ci) => Some(ci),
            None => None,
        }
    }
}

/// The gossip state (store, push, pull) is untouched.
pub open spec fn gossip_untouched(pre: ClusterInfo, post: ClusterInfo) -> bool {
    &&& post.gossip.crds@ == pre.gossip.crds@
    &&& post.gossip.push@ == pre.gossip.push@
    &&& post.gossip.pull@ == pre.gossip.pull@
}

/// The reply a served pull request owes: nothing when the filter misses
/// nothing, else exactly one pull response holding the filter-miss values,
/// addressed to the caller's gossip endpoint or, when that is unusable, to
/// the observed source.
pub open spec fn pull_reply_ok(
    self_id: Pubkey,
    post_crds: Seq<VersionedV>,
    f: crate::bloom::BloomV,
    c: ContactInfo,
    from_addr: SocketAddress,
    replies: Seq<(SocketAddress, Protocol)>,
) -> bool {
    let resp = crate::crds_gossip_pull::spec_pull_response(
        post_crds,
        f,
        crate::crds_gossip_pull::CRDS_GOSSIP_PULL_RESPONSE_MAX as nat,
    );
    if resp.len() == 0 {
        replies.len() == 0
    } else {
        &&& replies.len() == 1
        &&& replies[0].0 == if c.gossip.spec_is_valid() {
            c.gossip
        } else {
            from_addr
        }
        &&& (replies[0].1@ matches crate::protocol::ProtocolV::PullResponse(p, vs) && p == self_id
            && vs == resp)
    }
}

/// What one inbound push does at time `t`: the verified batch goes through
/// the push spec; when it yields prune origins, the first reply (when the
/// sender's gossip endpoint is stored and valid) is a signed prune message
/// naming them, followed by this round's onward push messages.
pub open spec fn push_step(
    pre: ClusterInfo,
    post: ClusterInfo,
    from: Pubkey,
    vals: Seq<CrdsValueV>,
    replies: Seq<(SocketAddress, Protocol)>,
    t: u64,
) -> bool {
    let tr = spec_process_push(pre.gossip.crds@, pre.gossip.push@.pending, vals, t);
    let prunes = tr.2;
    &&& post.gossip.crds@ == tr.0
    &&& post.gossip.push@.active == pre.gossip.push@.active
    &&& post.gossip.pull@ == pre.gossip.pull@
    &&& if prunes.len() == 0 {
        replies.len() == 0 && post.gossip.push@.pending == tr.1
    } else {
        let n_prune: int = if push_dest(tr.0, from) is Some {
            1
        } else {
            0
        };
        let k2 = if tr.1.len() <= crate::crds_gossip_push::CRDS_GOSSIP_PUSH_BATCH_MAX {
            tr.1.len() as int
        } else {
            crate::crds_gossip_push::CRDS_GOSSIP_PUSH_BATCH_MAX as int
        };
        let batch2 = tr.1.take(k2);
        let peers2 = crate::crds_gossip_push::spec_push_peers(pre.gossip.push@.active, batch2);
        let addrs2 = push_addrs(tr.0, peers2);
        &&& replies.len() == n_prune + addrs2.len()
        &&& (push_dest(tr.0, from) matches Some(a) ==> replies[0].0 == a && (replies[0].1@
            matches crate::protocol::ProtocolV::PruneMessage(p, d) && p == pre.gossip.id && d.pubkey
            == pre.gossip.id && d.destination == from && d.prunes == prunes && d.signature.bytes()
            == crate::keys::sig_of(pre.keypair@, crate::codec::prune_signable(d))
            && crate::keys::sig_verifies(
            crate::keys::keypair_pubkey(pre.keypair@),
            crate::codec::prune_signable(d),
            d.signature.bytes(),
        )))
        &&& forall|q: int|
            0 <= q < addrs2.len() ==> (#[trigger] replies[n_prune + q]).0 == addrs2[q] && replies[
                n_prune + q].1@ == crate::protocol::ProtocolV::PushMessage(pre.gossip.id, batch2)
        &&& post.gossip.push@.pending == tr.1.skip(k2)
    }
}

/// What dispatching one envelope at time `t` does: the per-variant store and
/// protocol-state transition plus the reply it owes.
pub open spec fn protocol_step(
    pre: ClusterInfo,
    post: ClusterInfo,
    req: crate::protocol::ProtocolV,
    from_addr: SocketAddress,
    replies: Seq<(SocketAddress, Protocol)>,
    window: Option<WindowRequest>,
    t: u64,
) -> bool {
    match req {
        crate::protocol::ProtocolV::PullRequest(f, cv) => {
            &&& window is None
            &&& match cv.data {
                CrdsDataV::ContactInfo(c) => {
                    if c.id != pre.gossip.id {
                        &&& post.gossip.crds@ == spec_insert(pre.gossip.crds@, cv, t).0
                        &&& pull_reply_ok(pre.gossip.id, post.gossip.crds@, f, c, from_addr, replies)
                        &&& post.gossip.push@ == pre.gossip.push@
                        &&& post.gossip.pull@ == pre.gossip.pull@
                    } else {
                        gossip_untouched(pre, post) && replies.len() == 0
                    }
                },
                _ => gossip_untouched(pre, post) && replies.len() == 0,
            }
        },
        crate::protocol::ProtocolV::PullResponse(from, vs) => {
            &&& window is None
            &&& replies.len() == 0
            &&& post.gossip.crds@ == spec_insert_all(
                pre.gossip.crds@,
                spec_verified_subset(vs),
                t,
            )
            &&& post.gossip.pull@ == crate::crds_gossip_pull::spec_mark(pre.gossip.pull@, from, t)
            &&& post.gossip.push@ == pre.gossip.push@
        },
        crate::protocol::ProtocolV::PushMessage(from, vs) => {
            &&& window is None
            &&& push_step(pre, post, from, spec_verified_subset(vs), replies, t)
        },
        crate::protocol::ProtocolV::PruneMessage(from, d) => {
            &&& window is None
            &&& replies.len() == 0
            &&& post.gossip.crds@ == pre.gossip.crds@
            &&& post.gossip.pull@ == pre.gossip.pull@
            &&& post.gossip.push@.pending == pre.gossip.push@.pending
            &&& post.gossip.push@.active == if crate::protocol::prune_verified(d) && d.destination
                == pre.gossip.id && t <= d.wallclock
                + crate::crds_gossip_push::CRDS_GOSSIP_PRUNE_MSG_TIMEOUT_MS {
                crate::crds_gossip_push::spec_apply_prune(pre.gossip.push@.active, from, d.prunes)
            } else {
                pre.gossip.push@.active
            }
        },
        crate::protocol::ProtocolV::RequestWindowIndex(c, ix) => {
            &&& replies.len() == 0
            &&& if c.id != pre.gossip.id {
                &&& window == Some(WindowRequest { from: c, index: ix, reply_to: from_addr })
                &&& inserted_contact(pre, post, c, t)
                &&& post.gossip.push@ == pre.gossip.push@
                &&& post.gossip.pull@ == pre.gossip.pull@
            } else {
                gossip_untouched(pre, post) && window is None
            }
        },
    }
}

/// A repair request that the caller must serve from the ledger: who asked,
/// which index, and where the answer goes.
#[derive(Debug)]
pub struct WindowRequest {
    pub from: ContactInfo,
    pub index: u64,
    pub reply_to: SocketAddress,
}

impl ClusterInfo {
    /// Builds this round's pull request, addressed to the chosen peer's
    /// gossip endpoint; pacing is recorded for the peer. Every returned
    /// address is valid.
    pub fn new_pull_requests(&mut self) -> (r: Vec<(SocketAddress, Protocol)>)
        ensures
            r@.len() <= 1,
            forall|k: int|
                0 <= k < r@.len() ==> (#[trigger] r@[k]).0.spec_is_valid() && r@[k].1
                    is PullRequest,
            r@.len() == 1 ==> exists|peer: Pubkey, t: u64|
                #[trigger] pull_request_built(*old(self), *final(self), r@[0], peer, t),
            r@.len() == 0 ==> final(self).gossip.pull@ == old(self).gossip.pull@,
            (crate::crds_gossip_pull::spec_gossip_peers(
                old(self).gossip.crds@,
                old(self).gossip.id,
            ).len() > 0 && find(
                old(self).gossip.crds@,
                CrdsValueLabel::ContactInfo(old(self).gossip.id),
            ) is Some) ==> r@.len() == 1,
            final(self).gossip.crds@ == old(self).gossip.crds@,
            final(self).gossip.id == old(self).gossip.id,
            final(self).gossip.push@ == old(self).gossip.push@,
            final(self).keypair@ == old(self).keypair@,
    {
        let now = timestamp();
        let _entries = self.gossip.crds.entries();
        let req = self.gossip.new_pull_request(now);
        let mut out: Vec<(SocketAddress, Protocol)> = Vec::new();
        match req {
            Ok((peer, filter, self_info)) => {
                proof {
                    // The chosen peer came out of the valid-gossip peer set,
                    // so its stored record addresses the request.
                    let gp = crate::crds_gossip_pull::spec_gossip_peers(
                        self.gossip.crds@,
                        self.gossip.id,
                    );
                    let j = choose|j: int| 0 <= j < gp.len() && #[trigger] gp[j].id == peer;
                    crate::crds_gossip_pull::lemma_gossip_peer_found(
                        self.gossip.crds@,
                        self.gossip.id,
                        j,
                    );
                }
                let gossip_addr = match self.lookup(peer) {
                    Some(ci) => {
                        if ci.gossip.is_valid() {
                            Some(ci.gossip)
                        } else {
                            None
                        }
                    },
                    None => None,
                };
                match gossip_addr {
                    Some(addr) => {
                        self.gossip.mark_pull_request_creation_time(peer, now);
                        let item = (addr, Protocol::PullRequest(filter, self_info));
                        proof {
                            assert(pull_request_built(*old(self), *self, item, peer, now));
                        }
                        out.push(item);
                        proof {
                            assert(out@[0] == item);
                        }
                    },
                    None => {},
                }
            },
            Err(_) => {},
        }
        out
    }

    /// Builds this round's push messages: one per active peer that accepts
    /// the batch, addressed to its gossip endpoint. Every returned address is
    /// valid.
    pub fn new_push_requests(&mut self) -> (r: Vec<(SocketAddress, Protocol)>)
        ensures
            ({
                let k = if old(self).gossip.push@.pending.len()
                    <= crate::crds_gossip_push::CRDS_GOSSIP_PUSH_BATCH_MAX {
                    old(self).gossip.push@.pending.len() as int
                } else {
                    crate::crds_gossip_push::CRDS_GOSSIP_PUSH_BATCH_MAX as int
                };
                let batch = old(self).gossip.push@.pending.take(k);
                let peers = crate::crds_gossip_push::spec_push_peers(
                    old(self).gossip.push@.active,
                    batch,
                );
                let addrs = push_addrs(old(self).gossip.crds@, peers);
                &&& r@.len() == addrs.len()
                &&& forall|q: int|
                    0 <= q < r@.len() ==> (#[trigger] r@[q]).0 == addrs[q] && r@[q].1@
                        == crate::protocol::ProtocolV::PushMessage(old(self).gossip.id, batch)
                &&& final(self).gossip.push@.pending == old(self).gossip.push@.pending.skip(k)
                &&& final(self).gossip.push@.active == old(self).gossip.push@.active
            }),
            forall|k: int|
                0 <= k < r@.len() ==> (#[trigger] r@[k]).0.spec_is_valid() && r@[k].1
                    is PushMessage,
            final(self).gossip.crds@ == old(self).gossip.crds@,
            final(self).gossip.id == old(self).gossip.id,
            final(self).gossip.pull@ == old(self).gossip.pull@,
            final(self).keypair@ == old(self).keypair@,
    {
        let now = timestamp();
        let ghost crds0 = self.gossip.crds@;
        let (self_id, peers, msgs) = self.gossip.new_push_messages(now);
        let ghost batch = views_of_values(msgs@);
        let mut out: Vec<(SocketAddress, Protocol)> = Vec::new();
        let mut i: usize = 0;
        proof {
            assert(peers@.subrange(0, 0) =~= Seq::<Pubkey>::empty());
            assert(out@.map_values(|p: (SocketAddress, Protocol)| p.0) =~= push_addrs(
                crds0,
                peers@.subrange(0, 0),
            ));
        }
        while i < peers.len()
            invariant
                i <= peers@.len(),
                self.gossip.crds@ == crds0,
                batch == views_of_values(msgs@),
                self_id == self.gossip.id,
                out@.len() == push_addrs(crds0, peers@.subrange(0, i as int)).len(),
                forall|q: int|
                    0 <= q < out@.len() ==> (#[trigger] out@[q]).0 == push_addrs(
                        crds0,
                        peers@.subrange(0, i as int),
                    )[q] && out@[q].1@ == crate::protocol::ProtocolV::PushMessage(self_id, batch),
                forall|q: int|
                    0 <= q < out@.len() ==> (#[trigger] out@[q]).0.spec_is_valid() && out@[q].1
                        is PushMessage,
            decreases peers@.len() - i,
        {
            let ghost pre_addrs = push_addrs(crds0, peers@.subrange(0, i as int));
            let addr = match self.lookup(peers[i]) {
                Some(ci) => {
                    if ci.gossip.is_valid() {
                        Some(ci.gossip)
                    } else {
                        None
                    }
                },
                None => None,
            };
            proof {
                let cur = peers@.subrange(0, i + 1);
                assert(cur.drop_last() =~= peers@.subrange(0, i as int));
                assert(cur.last() == peers@[i as int]);
                match addr {
                    Some(a) => {
                        assert(push_dest(crds0, peers@[i as int]) == Some(a));
                        assert(push_addrs(crds0, cur) =~= pre_addrs.push(a));
                    },
                    None => {
                        assert(push_dest(crds0, peers@[i as int]) is None);
                        assert(push_addrs(crds0, cur) =~= pre_addrs);
                    },
                }
            }
            match addr {
                Some(a) => {
                    let dup_batch = duplicate_values(&msgs);
                    let item = (a, Protocol::PushMessage(self_id, dup_batch));
                    proof {
                        assert(item.1@ == crate::protocol::ProtocolV::PushMessage(self_id, batch));
                    }
                    out.push(item);
                },
                None => {},
            }
            i = i + 1;
        }
        proof {
            assert(peers@.subrange(0, peers@.len() as int) =~= peers@);
        }
        out
    }

    /// One gossip round's outbound traffic: the pull request (at most one)
    /// followed by one push message per accepting active peer, every one
    /// addressed to a valid endpoint; the push batch is drained and the pull
    /// pacing marked.
    pub fn gossip_request(&mut self) -> (r: Vec<(SocketAddress, Protocol)>)
        ensures
            forall|k: int| 0 <= k < r@.len() ==> (#[trigger] r@[k]).0.spec_is_valid(),
            ({
                let k = if old(self).gossip.push@.pending.len()
                    <= crate::crds_gossip_push::CRDS_GOSSIP_PUSH_BATCH_MAX {
                    old(self).gossip.push@.pending.len() as int
                } else {
                    crate::crds_gossip_push::CRDS_GOSSIP_PUSH_BATCH_MAX as int
                };
                let batch = old(self).gossip.push@.pending.take(k);
                let peers = crate::crds_gossip_push::spec_push_peers(
                    old(self).gossip.push@.active,
                    batch,
                );
                let addrs = push_addrs(old(self).gossip.crds@, peers);
                let n_pull = r@.len() - addrs.len();
                &&& (n_pull == 0 || n_pull == 1)
                &&& forall|q: int|
                    0 <= q < addrs.len() ==> (#[trigger] r@[n_pull + q]).0 == addrs[q] && r@[n_pull
                        + q].1@ == crate::protocol::ProtocolV::PushMessage(
                        old(self).gossip.id,
                        batch,
                    )
                &&& (n_pull == 1 ==> exists|peer: Pubkey, t: u64|
                    #[trigger] pull_request_built(*old(self), *final(self), r@[0], peer, t))
                &&& (n_pull == 0 ==> final(self).gossip.pull@ == old(self).gossip.pull@)
                &&& ((crate::crds_gossip_pull::spec_gossip_peers(
                    old(self).gossip.crds@,
                    old(self).gossip.id,
                ).len() > 0 && find(
                    old(self).gossip.crds@,
                    CrdsValueLabel::ContactInfo(old(self).gossip.id),
                ) is Some) ==> n_pull == 1)
                &&& final(self).gossip.push@.pending == old(self).gossip.push@.pending.skip(k)
                &&& final(self).gossip.push@.active == old(self).gossip.push@.active
            }),
            final(self).gossip.crds@ == old(self).gossip.crds@,
            final(self).gossip.id == old(self).gossip.id,
            final(self).keypair@ == old(self).keypair@,
    {
        let ghost s0 = *self;
        let mut out = self.new_pull_requests();
        let ghost mid = *self;
        let ghost pulls0 = out@;
        let mut pushes = self.new_push_requests();
        let ghost pushes0 = pushes@;
        proof {
            assert(out@ =~= pulls0 + pushes0.take(0));
        }
        let ghost mut consumed: int = 0;
        proof {
            assert(pushes@ =~= pushes0.skip(0));
        }
        while pushes.len() > 0
            invariant
                0 <= consumed <= pushes0.len(),
                pushes@ == pushes0.skip(consumed),
                out@ == pulls0 + pushes0.take(consumed),
                forall|k: int|
                    0 <= k < pushes0.len() ==> (#[trigger] pushes0[k]).0.spec_is_valid(),
                forall|k: int| 0 <= k < pulls0.len() ==> (#[trigger] pulls0[k]).0.spec_is_valid(),
            decreases pushes@.len(),
        {
            let ghost pre = pushes@;
            let item = pushes.remove(0);
            proof {
                assert(item == pre[0]);
                assert(pre[0] == pushes0[consumed]);
                assert(pushes@ =~= pushes0.skip(consumed + 1));
            }
            out.push(item);
            proof {
                assert(out@ =~= pulls0 + pushes0.take(consumed + 1));
                consumed = consumed + 1;
            }
        }
        proof {
            assert(pushes0.take(pushes0.len() as int) =~= pushes0);
            assert(out@ =~= pulls0 + pushes0);
            if pulls0.len() == 1 {
                let (peer0, t0) = choose|peer: Pubkey, t: u64|
                    #[trigger] pull_request_built(s0, mid, pulls0[0], peer, t);
                assert(pull_request_built(s0, *self, out@[0], peer0, t0));
            }
            assert(forall|q: int|
                0 <= q < pushes0.len() ==> #[trigger] out@[pulls0.len() + q] == pushes0[q]);
        }
        out
    }

    /// Serves one inbound pull request: ignores it when the caller is not a
    /// contact record or is this node itself; otherwise stores the caller's
    /// record and answers with what its filter is missing, to the caller's
    /// gossip address or, when that is unspecified, to the observed source.
    pub fn handle_pull_request(
        &mut self,
        filter: Bloom,
        caller: CrdsValue,
        from_addr: SocketAddress,
    ) -> (r: Vec<(SocketAddress, Protocol)>)
        requires
            value_wf(caller@),
            bloom_wf(filter@),
        ensures
            r@.len() <= 1,
            forall|k: int|
                0 <= k < r@.len() ==> ((#[trigger] r@[k]).0.spec_is_valid() || r@[k].0 == from_addr)
                    && r@[k].1 is PullResponse,
            match caller@.data {
                CrdsDataV::ContactInfo(c) => {
                    if c.id != old(self).gossip.id {
                        &&& exists|t: u64|
                            final(self).gossip.crds@ == #[trigger] spec_insert(
                                old(self).gossip.crds@,
                                caller@,
                                t,
                            ).0
                        &&& pull_reply_ok(
                            old(self).gossip.id,
                            final(self).gossip.crds@,
                            filter@,
                            c,
                            from_addr,
                            r@,
                        )
                        &&& final(self).gossip.push@ == old(self).gossip.push@
                        &&& final(self).gossip.pull@ == old(self).gossip.pull@
                    } else {
                        gossip_untouched(*old(self), *final(self)) && r@.len() == 0
                    }
                },
                _ => gossip_untouched(*old(self), *final(self)) && r@.len() == 0,
            },
            old(self).self_stored() ==> final(self).self_stored(),
            final(self).gossip.id == old(self).gossip.id,
            final(self).keypair@ == old(self).keypair@,
    {
        let ghost caller_view = caller@;
        let self_id = self.id();
        let from = match caller.contact_info() {
            Some(c) => *c,
            None => {
                return Vec::new();
            },
        };
        if from.id == self_id {
            return Vec::new();
        }
        let now = timestamp();
        let ghost pre = self.gossip.crds@;
        let data = self.gossip.process_pull_request(caller, &filter, now);
        proof {
            if old(self).self_stored() {
                crate::crds::lemma_insert_presence(
                    pre,
                    caller_view,
                    now,
                    CrdsValueLabel::ContactInfo(old(self).gossip.id),
                );
            }
        }
        if data.len() == 0 {
            return Vec::new();
        }
        let reply_to = if from.gossip.is_valid() {
            from.gossip
        } else {
            from_addr
        };
        let mut out: Vec<(SocketAddress, Protocol)> = Vec::new();
        let item = (reply_to, Protocol::PullResponse(self_id, data));
        out.push(item);
        proof {
            assert(out@[0] == item);
            assert(pull_reply_ok(
                old(self).gossip.id,
                self.gossip.crds@,
                filter@,
                from,
                from_addr,
                out@,
            ));
        }
        out
    }

    /// Merges one inbound pull response after dropping values whose
    /// signatures do not verify.
    pub fn handle_pull_response(&mut self, from: Pubkey, data: Vec<CrdsValue>)
        requires
            forall|i: int| 0 <= i < data@.len() ==> value_wf(#[trigger] data@[i]@),
        ensures
            exists|t: u64|
                final(self).gossip.crds@ == #[trigger] spec_insert_all(
                    old(self).gossip.crds@,
                    spec_verified_subset(views_of_values(data@)),
                    t,
                ) && final(self).gossip.pull@ == crate::crds_gossip_pull::spec_mark(
                    old(self).gossip.pull@,
                    from,
                    t,
                ),
            final(self).gossip.push@ == old(self).gossip.push@,
            old(self).self_stored() ==> final(self).self_stored(),
            final(self).gossip.id == old(self).gossip.id,
            final(self).keypair@ == old(self).keypair@,
    {
        let now = timestamp();
        let ghost pre = self.gossip.crds@;
        let verified = retain_verified(data);
        let _ = self.gossip.process_pull_response(from, &verified, now);
        proof {
            if old(self).self_stored() {
                crate::crds_gossip_pull::lemma_insert_all_presence(
                    pre,
                    views_of_values(verified@),
                    now,
                    CrdsValueLabel::ContactInfo(old(self).gossip.id),
                );
            }
        }
    }

    /// Applies one inbound push after dropping unverified values; when any
    /// origins must be pruned, replies with a signed prune message to the
    /// sender plus this round's onward pushes.
    pub fn handle_push_message(&mut self, from: Pubkey, data: Vec<CrdsValue>) -> (r: Vec<
        (SocketAddress, Protocol),
    >)
        requires
            forall|i: int| 0 <= i < data@.len() ==> value_wf(#[trigger] data@[i]@),
            data@.len() < 0x1_0000_0000,
        ensures
            exists|t: u64|
                #[trigger] push_step(
                    *old(self),
                    *final(self),
                    from,
                    spec_verified_subset(views_of_values(data@)),
                    r@,
                    t,
                ),
            forall|k: int| 0 <= k < r@.len() ==> (#[trigger] r@[k]).0.spec_is_valid(),
            old(self).self_stored() ==> final(self).self_stored(),
            final(self).gossip.id == old(self).gossip.id,
            final(self).keypair@ == old(self).keypair@,
    {
        let now = timestamp();
        let self_id = self.id();
        let ghost pre_crds = self.gossip.crds@;
        let ghost pre_pend = self.gossip.push@.pending;
        let verified = retain_verified(data);
        let ghost vals = spec_verified_subset(views_of_values(data@));
        proof {
            lemma_verified_subset_len(views_of_values(data@));
            assert(vals.len() <= data@.len());
        }
        let prunes = self.gossip.process_push_message(&verified, now);
        let ghost tr = spec_process_push(pre_crds, pre_pend, vals, now);
        proof {
            crate::crds_gossip_push::lemma_process_push_prunes_len(pre_crds, pre_pend, vals, now);
            if old(self).self_stored() {
                crate::crds_gossip_push::lemma_process_push_presence(
                    pre_crds,
                    pre_pend,
                    views_of_values(verified@),
                    now,
                    CrdsValueLabel::ContactInfo(old(self).gossip.id),
                );
            }
        }
        let ghost crds_after = self.gossip.crds@;
        let mut out: Vec<(SocketAddress, Protocol)> = Vec::new();
        if prunes.len() == 0 {
            proof {
                assert(push_step(*old(self), *self, from, vals, out@, now));
            }
            return out;
        }
        let target = match self.lookup(from) {
            Some(ci) => {
                if ci.gossip.is_valid() {
                    Some(ci.gossip)
                } else {
                    None
                }
            },
            None => None,
        };
        proof {
            match target {
                Some(a) => {
                    assert(push_dest(tr.0, from) == Some(a));
                },
                None => {
                    assert(push_dest(tr.0, from) is None);
                },
            }
        }
        match target {
            Some(addr) => {
                let mut prune_msg = PruneData {
                    pubkey: self_id,
                    prunes,
                    signature: Signature::default_signature(),
                    destination: from,
                    wallclock: now,
                };
                prune_msg.sign(self.keypair.key_bytes());
                let item = (addr, Protocol::PruneMessage(self_id, prune_msg));
                out.push(item);
                proof {
                    assert(out@[0] == item);
                }
            },
            None => {},
        }
        let ghost prefix = out@;
        let mut pushes = self.new_push_requests();
        let ghost pushes0 = pushes@;
        let ghost mut consumed: int = 0;
        proof {
            assert(pushes@ =~= pushes0.skip(0));
            assert(out@ =~= prefix + pushes0.take(0));
        }
        while pushes.len() > 0
            invariant
                0 <= consumed <= pushes0.len(),
                pushes@ == pushes0.skip(consumed),
                out@ == prefix + pushes0.take(consumed),
                forall|k: int|
                    0 <= k < pushes0.len() ==> (#[trigger] pushes0[k]).0.spec_is_valid(),
            decreases pushes@.len(),
        {
            let ghost pre = pushes@;
            let item = pushes.remove(0);
            proof {
                assert(item == pre[0]);
                assert(pre[0] == pushes0[consumed]);
                assert(pushes@ =~= pushes0.skip(consumed + 1));
            }
            out.push(item);
            proof {
                assert(out@ =~= prefix + pushes0.take(consumed + 1));
                consumed = consumed + 1;
            }
        }
        proof {
            assert(pushes0.take(pushes0.len() as int) =~= pushes0);
            assert(out@ =~= prefix + pushes0);
            assert(forall|q: int|
                0 <= q < pushes0.len() ==> #[trigger] out@[prefix.len() + q] == pushes0[q]);
            assert(push_step(*old(self), *self, from, vals, out@, now));
        }
        out
    }

    /// Dispatches one inbound envelope per the protocol rules; any repair
    /// request is handed back for the caller to serve from the ledger.
    #[verifier::rlimit(100)]
    pub fn handle_protocol(&mut self, from_addr: SocketAddress, request: Protocol) -> (r: (
        Vec<(SocketAddress, Protocol)>,
        Option<WindowRequest>,
    ))
        requires
            crate::codec::protocol_wf(request@),
        ensures
            forall|k: int|
                0 <= k < r.0@.len() ==> ((#[trigger] r.0@[k]).0.spec_is_valid() || r.0@[k].0
                    == from_addr),
            exists|t: u64|
                #[trigger] protocol_step(
                    *old(self),
                    *final(self),
                    request@,
                    from_addr,
                    r.0@,
                    r.1,
                    t,
                ),
            old(self).self_stored() ==> final(self).self_stored(),
            final(self).gossip.id == old(self).gossip.id,
            final(self).keypair@ == old(self).keypair@,
    {
        let ghost req_view = request@;
        let ghost mut wt: u64 = 0;
        let result: (Vec<(SocketAddress, Protocol)>, Option<WindowRequest>) = match request {
            Protocol::PullRequest(filter, caller) => {
                let ghost cv = caller@;
                let replies = self.handle_pull_request(filter, caller, from_addr);
                proof {
                    match cv.data {
                        CrdsDataV::ContactInfo(c) => {
                            if c.id != old(self).gossip.id {
                                wt = choose|t: u64|
                                    self.gossip.crds@ == #[trigger] spec_insert(
                                        old(self).gossip.crds@,
                                        cv,
                                        t,
                                    ).0;
                            }
                        },
                        _ => {},
                    }
                    assert(protocol_step(*old(self), *self, req_view, from_addr, replies@, None, wt));
                }
                (replies, None)
            },
            Protocol::PullResponse(from, data) => {
                proof {
                    assert forall|i: int| 0 <= i < data@.len() implies value_wf(
                        #[trigger] data@[i]@,
                    ) by {
                        assert(views_of_values(data@)[i] == data@[i]@);
                    };
                }
                let ghost dv = views_of_values(data@);
                self.handle_pull_response(from, data);
                let empty_replies: Vec<(SocketAddress, Protocol)> = Vec::new();
                proof {
                    wt = choose|t: u64|
                        self.gossip.crds@ == #[trigger] spec_insert_all(
                            old(self).gossip.crds@,
                            spec_verified_subset(dv),
                            t,
                        ) && self.gossip.pull@ == crate::crds_gossip_pull::spec_mark(
                            old(self).gossip.pull@,
                            from,
                            t,
                        );
                    assert(protocol_step(
                        *old(self),
                        *self,
                        req_view,
                        from_addr,
                        empty_replies@,
                        None,
                        wt,
                    ));
                }
                (empty_replies, None)
            },
            Protocol::PushMessage(from, data) => {
                proof {
                    assert forall|i: int| 0 <= i < data@.len() implies value_wf(
                        #[trigger] data@[i]@,
                    ) by {
                        assert(views_of_values(data@)[i] == data@[i]@);
                    };
                    assert(views_of_values(data@).len() == data@.len());
                }
                let ghost dv = views_of_values(data@);
                let replies = self.handle_push_message(from, data);
                proof {
                    wt = choose|t: u64|
                        #[trigger] push_step(
                            *old(self),
                            *self,
                            from,
                            spec_verified_subset(dv),
                            replies@,
                            t,
                        );
                    assert(protocol_step(*old(self), *self, req_view, from_addr, replies@, None, wt));
                }
                (replies, None)
            },
            Protocol::PruneMessage(from, data) => {
                let now = timestamp();
                if data.verify() {
                    let _ = self.gossip.process_prune_msg(
                        from,
                        data.destination,
                        &data.prunes,
                        data.wallclock,
                        now,
                    );
                }
                let empty_replies: Vec<(SocketAddress, Protocol)> = Vec::new();
                proof {
                    wt = now;
                    assert(protocol_step(
                        *old(self),
                        *self,
                        req_view,
                        from_addr,
                        empty_replies@,
                        None,
                        wt,
                    ));
                }
                (empty_replies, None)
            },
            Protocol::RequestWindowIndex(from, ix) => {
                let self_id = self.id();
                if from.id == self_id {
                    let empty_replies: Vec<(SocketAddress, Protocol)> = Vec::new();
                    proof {
                        assert(protocol_step(
                            *old(self),
                            *self,
                            req_view,
                            from_addr,
                            empty_replies@,
                            None,
                            wt,
                        ));
                    }
                    (empty_replies, None)
                } else {
                    self.insert_info(from);
                    let w = WindowRequest { from, index: ix, reply_to: from_addr };
                    let empty_replies: Vec<(SocketAddress, Protocol)> = Vec::new();
                    proof {
                        wt = choose|t: u64|
                            #[trigger] inserted_contact(*old(self), *self, from, t);
                        assert(protocol_step(
                            *old(self),
                            *self,
                            req_view,
                            from_addr,
                            empty_replies@,
                            Some(w),
                            wt,
                        ));
                    }
                    (empty_replies, Some(w))
                }
            },
        };
        proof {
            assert(protocol_step(*old(self), *self, req_view, from_addr, result.0@, result.1, wt));
        }
        result
    }

    /// Handles one raw datagram: deserializes it and dispatches it; a
    /// datagram that is not exactly one well-formed envelope is dropped.
    pub fn handle_blob(&mut self, from_addr: SocketAddress, bytes: &Vec<u8>) -> (r: (
        Vec<(SocketAddress, Protocol)>,
        Option<WindowRequest>,
    ))
        ensures
            forall|k: int|
                0 <= k < r.0@.len() ==> ((#[trigger] r.0@[k]).0.spec_is_valid() || r.0@[k].0
                    == from_addr),
            ({
                let parse = crate::codec::rd_protocol(bytes@, 0);
                if parse matches Some((m, e)) && e == bytes@.len() && crate::codec::protocol_wf(m) {
                    exists|t: u64|
                        #[trigger] protocol_step(
                            *old(self),
                            *final(self),
                            parse->Some_0.0,
                            from_addr,
                            r.0@,
                            r.1,
                            t,
                        )
                } else {
                    gossip_untouched(*old(self), *final(self)) && r.0@.len() == 0 && r.1 is None
                }
            }),
            old(self).self_stored() ==> final(self).self_stored(),
            final(self).gossip.id == old(self).gossip.id,
            final(self).keypair@ == old(self).keypair@,
    {
        match crate::codec::deserialize_protocol(bytes) {
            Some(request) => {
                if crate::codec::protocol_is_wf(&request) {
                    self.handle_protocol(from_addr, request)
                } else {
                    (Vec::new(), None)
                }
            },
            None => (Vec::new(), None),
        }
    }
}

/// Copies of a value list, for fanning one batch out to several peers.
pub fn duplicate_values(vs: &Vec<CrdsValue>) -> (r: Vec<CrdsValue>)
    ensures
        views_of_values(r@) == views_of_values(vs@),
{
    let mut out: Vec<CrdsValue> = Vec::new();
    let mut i: usize = 0;
    proof {
        assert(views_of_values(out@) =~= views_of_values(vs@).subrange(0, 0));
    }
    while i < vs.len()
        invariant
            i <= vs@.len(),
            views_of_values(vs@).len() == vs@.len(),
            views_of_values(out@) == views_of_values(vs@).subrange(0, i as int),
        decreases vs@.len() - i,
    {
        let ghost pre = views_of_values(out@);
        let dup = vs[i].duplicate();
        proof {
            assert(dup@ == views_of_values(vs@)[i as int]);
        }
        out.push(dup);
        proof {
            assert(views_of_values(out@) =~= pre.push(dup@));
            assert(views_of_values(out@) =~= views_of_values(vs@).subrange(0, i + 1));
        }
        i = i + 1;
    }
    proof {
        assert(views_of_values(vs@).subrange(0, vs@.len() as int) =~= views_of_values(vs@));
    }
    out
}

} // verus!
