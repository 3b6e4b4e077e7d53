//! The gossip facade: one store, one push state, one pull state, composed
//! behind the entry points the node uses.

use vstd::prelude::*;
use crate::bloom::{bloom_wf, Bloom};
use crate::codec::value_wf;
use crate::contact_info::ContactInfo;
use crate::crds::{spec_insert, spec_purge, Crds};
use crate::crds_gossip_error::CrdsGossipError;
use crate::crds_gossip_pull::{
    gossip_peers_of, spec_gossip_peers, spec_insert_all, spec_mark, spec_pull_response,
    CrdsGossipPull, CRDS_GOSSIP_PULL_CRDS_TIMEOUT_MS, CRDS_GOSSIP_PULL_RESPONSE_MAX,
};
use crate::crds_gossip_push::{
    spec_process_push, spec_push_peers, CrdsGossipPush, CRDS_GOSSIP_NUM_ACTIVE,
};
use crate::crds_value::{CrdsValue, CrdsValueLabel};
use crate::keys::Pubkey;
use crate::protocol::views_of_values;

verus! {

/// The gossip state of one node: its store, its identity, and the push and
/// pull protocol states.
#[derive(Debug)]
pub struct CrdsGossip {
    pub crds: Crds,
    pub id: Pubkey,
    pub push: CrdsGossipPush,
    pub pull: CrdsGossipPull,
}

impl CrdsGossip {
    /// A fresh gossip state for the given identity.
    pub fn new(id: Pubkey) -> (r: CrdsGossip)
        ensures
            r.crds@.len() == 0,
            r.id == id,
            r.push@.pending.len() == 0,
            r.push@.active.len() == 0,
            r.pull@.len() == 0,
    {
        CrdsGossip {
            crds: Crds::new(),
            id,
            push: CrdsGossipPush::new(),
            pull: CrdsGossipPull::new(),
        }
    }

    /// Sets the node identity.
    pub fn set_self(&mut self, id: Pubkey)
        ensures
            final(self).id == id,
            final(self).crds@ == old(self).crds@,
            final(self).push@ == old(self).push@,
            final(self).pull@ == old(self).pull@,
    {
        self.id = id;
    }

    /// Applies a batch of pushed values; returns the origins to prune.
    pub fn process_push_message(&mut self, values: &Vec<CrdsValue>, now: u64) -> (r: Vec<Pubkey>)
        requires
            forall|i: int| 0 <= i < values@.len() ==> value_wf(#[trigger] values@[i]@),
        ensures
            ({
                let t = spec_process_push(
                    old(self).crds@,
                    old(self).push@.pending,
                    views_of_values(values@),
                    now,
                );
                final(self).crds@ == t.0 && final(self).push@.pending == t.1 && r@ == t.2
            }),
            final(self).push@.active == old(self).push@.active,
            final(self).id == old(self).id,
            final(self).pull@ == old(self).pull@,
    {
        self.push.process_push_message(&mut self.crds, values, now)
    }

    /// Drains one push batch; returns this node's identity, the receiving
    /// peers, and the values.
    pub fn new_push_messages(&mut self, _now: u64) -> (r: (Pubkey, Vec<Pubkey>, Vec<CrdsValue>))
        ensures
            ({
                let k = if old(self).push@.pending.len() <= crate::crds_gossip_push::CRDS_GOSSIP_PUSH_BATCH_MAX {
                    old(self).push@.pending.len() as int
                } else {
                    crate::crds_gossip_push::CRDS_GOSSIP_PUSH_BATCH_MAX as int
                };
                &&& r.0 == old(self).id
                &&& views_of_values(r.2@) == old(self).push@.pending.take(k)
                &&& final(self).push@.pending == old(self).push@.pending.skip(k)
                &&& r.1@ == spec_push_peers(old(self).push@.active, old(self).push@.pending.take(k))
            }),
            final(self).push@.active == old(self).push@.active,
            final(self).crds@ == old(self).crds@,
            final(self).id == old(self).id,
            final(self).pull@ == old(self).pull@,
    {
        let (peers, msgs) = self.push.new_push_messages(_now);
        (self.id, peers, msgs)
    }

    /// Applies a prune message addressed to this node.
    pub fn process_prune_msg(
        &mut self,
        from: Pubkey,
        destination: Pubkey,
        prunes: &Vec<Pubkey>,
        wallclock: u64,
        now: u64,
    ) -> (r: Result<(), CrdsGossipError>)
        ensures
            destination != old(self).id ==> r == Err::<(), CrdsGossipError>(
                CrdsGossipError::BadPruneDestination,
            ),
            destination == old(self).id && now > wallclock
                + crate::crds_gossip_push::CRDS_GOSSIP_PRUNE_MSG_TIMEOUT_MS ==> r == Err::<
                (),
                CrdsGossipError,
            >(CrdsGossipError::PruneMessageTimeout),
            destination == old(self).id && now <= wallclock
                + crate::crds_gossip_push::CRDS_GOSSIP_PRUNE_MSG_TIMEOUT_MS ==> r == Ok::<
                (),
                CrdsGossipError,
            >(()) && final(self).push@.active == crate::crds_gossip_push::spec_apply_prune(
                old(self).push@.active,
                from,
                prunes@,
            ),
            (destination != old(self).id || now > wallclock
                + crate::crds_gossip_push::CRDS_GOSSIP_PRUNE_MSG_TIMEOUT_MS)
                ==> final(self).push@.active == old(self).push@.active,
            final(self).crds@ == old(self).crds@,
            final(self).id == old(self).id,
            final(self).pull@ == old(self).pull@,
            final(self).push@.pending == old(self).push@.pending,
    {
        let id = self.id;
        self.push.process_prune_msg(id, from, destination, prunes, wallclock, now)
    }

    /// Rebuilds the push active set from the gossip-reachable peers.
    pub fn refresh_push_active_set(&mut self)
        ensures
            final(self).push@.pending == old(self).push@.pending,
            final(self).push@.active.len() <= CRDS_GOSSIP_NUM_ACTIVE,
            final(self).push@.active.len() == if spec_gossip_peers(
                old(self).crds@,
                old(self).id,
            ).len() <= CRDS_GOSSIP_NUM_ACTIVE {
                spec_gossip_peers(old(self).crds@, old(self).id).len() as int
            } else {
                CRDS_GOSSIP_NUM_ACTIVE as int
            },
            forall|q: int|
                0 <= q < final(self).push@.active.len()
                    ==> #[trigger] final(self).push@.active[q].pruned.len() == 0,
            final(self).crds@ == old(self).crds@,
            final(self).id == old(self).id,
            final(self).pull@ == old(self).pull@,
    {
        let peers = gossip_peers_of(&self.crds, self.id);
        self.push.refresh_push_active_set(&peers);
    }

    /// Builds a pull request: one chosen peer, a bloom of everything held,
    /// and this node's own stored contact value.
    pub fn new_pull_request(&self, now: u64) -> (r: Result<
        (Pubkey, Bloom, CrdsValue),
        CrdsGossipError,
    >)
        ensures
            match r {
                Ok((peer, bloom, self_info)) => {
                    &&& exists|j: int|
                        0 <= j < spec_gossip_peers(self.crds@, self.id).len()
                            && #[trigger] spec_gossip_peers(self.crds@, self.id)[j].id == peer
                    &&& bloom_wf(bloom@)
                    &&& forall|i: int|
                        0 <= i < self.crds@.len() ==> crate::bloom::bloom_has(
                            bloom@,
                            #[trigger] self.crds@[i].value_hash,
                        )
                    &&& crate::crds::find(self.crds@, CrdsValueLabel::ContactInfo(self.id))
                        matches Some(e) && self_info@ == e.value
                },
                Err(e) => e == CrdsGossipError::NoPeers && (spec_gossip_peers(
                    self.crds@,
                    self.id,
                ).len() == 0 || crate::crds::find(
                    self.crds@,
                    CrdsValueLabel::ContactInfo(self.id),
                ) is None),
            },
            (spec_gossip_peers(self.crds@, self.id).len() > 0 && crate::crds::find(
                self.crds@,
                CrdsValueLabel::ContactInfo(self.id),
            ) is Some) ==> r is Ok,
    {
        self.pull.new_pull_request(&self.crds, self.id, now)
    }

    /// Records that a pull request was sent to `peer` at `now`.
    pub fn mark_pull_request_creation_time(&mut self, peer: Pubkey, now: u64)
        ensures
            final(self).pull@ == spec_mark(old(self).pull@, peer, now),
            final(self).crds@ == old(self).crds@,
            final(self).id == old(self).id,
            final(self).push@ == old(self).push@,
    {
        self.pull.mark_pull_request_creation_time(peer, now);
    }

    /// Serves a pull request: stores the caller's value and returns what the
    /// caller's filter is missing.
    pub fn process_pull_request(&mut self, caller: CrdsValue, filter: &Bloom, now: u64) -> (r: Vec<
        CrdsValue,
    >)
        requires
            value_wf(caller@),
            bloom_wf(filter@),
        ensures
            final(self).crds@ == spec_insert(old(self).crds@, caller@, now).0,
            views_of_values(r@) == spec_pull_response(
                final(self).crds@,
                filter@,
                CRDS_GOSSIP_PULL_RESPONSE_MAX as nat,
            ),
            final(self).id == old(self).id,
            final(self).push@ == old(self).push@,
            final(self).pull@ == old(self).pull@,
    {
        self.pull.process_pull_request(&mut self.crds, caller, filter, now)
    }

    /// Merges a pull response into the store.
    pub fn process_pull_response(&mut self, from: Pubkey, values: &Vec<CrdsValue>, now: u64) -> (r:
        usize)
        requires
            forall|i: int| 0 <= i < values@.len() ==> value_wf(#[trigger] values@[i]@),
        ensures
            final(self).crds@ == spec_insert_all(old(self).crds@, views_of_values(values@), now),
            final(self).pull@ == spec_mark(old(self).pull@, from, now),
            final(self).id == old(self).id,
            final(self).push@ == old(self).push@,
    {
        self.pull.process_pull_response(&mut self.crds, from, values, now)
    }

    /// Ages the gossip state: drops store entries past the pull timeout and
    /// pull pacing entries of the same age.
    pub fn purge(&mut self, now: u64)
        ensures
            final(self).crds@ == spec_purge(
                old(self).crds@,
                now,
                CRDS_GOSSIP_PULL_CRDS_TIMEOUT_MS,
            ),
            final(self).id == old(self).id,
            final(self).push@ == old(self).push@,
            final(self).pull@ == crate::crds_gossip_pull::spec_purge_times(
                old(self).pull@,
                now,
                CRDS_GOSSIP_PULL_CRDS_TIMEOUT_MS,
            ),
    {
        self.crds.purge(now, CRDS_GOSSIP_PULL_CRDS_TIMEOUT_MS);
        self.pull.purge_old_requests(now, CRDS_GOSSIP_PULL_CRDS_TIMEOUT_MS);
    }
}

} // verus!
