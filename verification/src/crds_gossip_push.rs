//! The push half of gossip: an active set of peers that newly-learned values
//! are forwarded to, and the prune feedback that trims redundant push paths
//! toward a spanning tree.

use vstd::prelude::*;
use crate::contact_info::ContactInfo;
use crate::crds::{spec_insert, Crds, CrdsError, VersionedV};
use crate::crds_gossip_error::CrdsGossipError;
use crate::crds_value::{pubkey_of, CrdsValue, CrdsValueV};
use crate::codec::value_wf;
use crate::keys::Pubkey;
use crate::rng::rand_below;

verus! {

/// Bound on the size of the active push set.
pub const CRDS_GOSSIP_NUM_ACTIVE: u64 = 30;

/// How long a prune message stays valid, milliseconds.
pub const CRDS_GOSSIP_PRUNE_MSG_TIMEOUT_MS: u64 = 500;

/// Bound on how many pending values one push round drains.
pub const CRDS_GOSSIP_PUSH_BATCH_MAX: usize = 64;

/// An active-set member: a peer this node pushes to, and the origins the peer
/// asked us to stop forwarding.
#[derive(Debug)]
pub struct ActivePeer {
    pub id: Pubkey,
    pub pruned: Vec<Pubkey>,
}

/// Ghost image of an active-set member.
pub struct ActivePeerV {
    pub id: Pubkey,
    pub pruned: Seq<Pubkey>,
}

impl View for ActivePeer {
    type V = ActivePeerV;

    open spec fn view(&self) -> ActivePeerV {
        ActivePeerV { id: self.id, pruned: self.pruned@ }
    }
}

/// Ghost image of the push state.
pub struct PushV {
    pub active: Seq<ActivePeerV>,
    pub pending: Seq<CrdsValueV>,
}

/// The push state: the active set and the values accepted since the last
/// push round.
#[derive(Debug)]
pub struct CrdsGossipPush {
    active_set: Vec<ActivePeer>,
    pending: Vec<CrdsValue>,
}

impl View for CrdsGossipPush {
    type V = PushV;

    closed spec fn view(&self) -> PushV {
        PushV {
            active: self.active_set@.map_values(|p: ActivePeer| p@),
            pending: self.pending@.map_values(|v: CrdsValue| v@),
        }
    }
}

/// One push round of incoming values: each is inserted; accepted values
/// queue for forwarding; the origin of each stale duplicate is collected for
/// the prune reply.
pub open spec fn spec_process_push(
    s: Seq<VersionedV>,
    pend: Seq<CrdsValueV>,
    vals: Seq<CrdsValueV>,
    now: u64,
) -> (Seq<VersionedV>, Seq<CrdsValueV>, Seq<Pubkey>)
    decreases vals.len(),
{
    if vals.len() == 0 {
        (s, pend, Seq::empty())
    } else {
        let v = vals[0];
        let (s1, r) = spec_insert(s, v, now);
        let pend1 = if r is Ok {
            pend.push(v)
        } else {
            pend
        };
        let rec = spec_process_push(s1, pend1, vals.drop_first(), now);
        let prunes = if r == Err::<Option<VersionedV>, CrdsError>(CrdsError::DuplicateOrOlder) {
            seq![pubkey_of(v.data)] + rec.2
        } else {
            rec.2
        };
        (rec.0, rec.1, prunes)
    }
}

/// The store after a push batch is exactly the store after inserting the
/// batch: the pending queue and prune list do not feed back into it. With
/// this, a verified batch keeps a verified store on the push path too.
pub proof fn lemma_process_push_store(
    s: Seq<VersionedV>,
    pend: Seq<CrdsValueV>,
    vals: Seq<CrdsValueV>,
    now: u64,
)
    ensures
        spec_process_push(s, pend, vals, now).0 == crate::crds_gossip_pull::spec_insert_all(
            s,
            vals,
            now,
        ),
    decreases vals.len(),
{
    if vals.len() > 0 {
        let (s1, r) = spec_insert(s, vals[0], now);
        let pend1 = if r is Ok {
            pend.push(vals[0])
        } else {
            pend
        };
        lemma_process_push_store(s1, pend1, vals.drop_first(), now);
    }
}

/// A push batch yields at most one prune origin per value.
pub proof fn lemma_process_push_prunes_len(
    s: Seq<VersionedV>,
    pend: Seq<CrdsValueV>,
    vals: Seq<CrdsValueV>,
    now: u64,
)
    ensures
        spec_process_push(s, pend, vals, now).2.len() <= vals.len(),
    decreases vals.len(),
{
    if vals.len() > 0 {
        let (s1, r) = spec_insert(s, vals[0], now);
        let pend1 = if r is Ok {
            pend.push(vals[0])
        } else {
            pend
        };
        lemma_process_push_prunes_len(s1, pend1, vals.drop_first(), now);
    }
}

/// Processing a push batch keeps every present label present.
pub proof fn lemma_process_push_presence(
    s: Seq<VersionedV>,
    pend: Seq<CrdsValueV>,
    vals: Seq<CrdsValueV>,
    now: u64,
    l: crate::crds_value::CrdsValueLabel,
)
    requires
        crate::crds::find(s, l) is Some,
    ensures
        crate::crds::find(spec_process_push(s, pend, vals, now).0, l) is Some,
    decreases vals.len(),
{
    if vals.len() > 0 {
        crate::crds::lemma_insert_presence(s, vals[0], now, l);
        let (s1, r) = spec_insert(s, vals[0], now);
        let pend1 = if r is Ok {
            pend.push(vals[0])
        } else {
            pend
        };
        lemma_process_push_presence(s1, pend1, vals.drop_first(), now, l);
    }
}

/// Whether a peer accepts every origin in a batch (none is pruned for it).
pub open spec fn peer_accepts(p: ActivePeerV, msgs: Seq<CrdsValueV>) -> bool {
    forall|j: int| 0 <= j < msgs.len() ==> !p.pruned.contains(pubkey_of(#[trigger] msgs[j].data))
}

/// The active peers a batch goes to: those with no batch origin pruned.
pub open spec fn spec_push_peers(active: Seq<ActivePeerV>, msgs: Seq<CrdsValueV>) -> Seq<Pubkey>
    decreases active.len(),
{
    if active.len() == 0 {
        Seq::empty()
    } else {
        let rest = spec_push_peers(active.drop_last(), msgs);
        if peer_accepts(active.last(), msgs) {
            rest.push(active.last().id)
        } else {
            rest
        }
    }
}

/// The active set after applying a prune from `from`: `from`'s entry learns
/// the pruned origins; other entries are unchanged.
pub open spec fn spec_apply_prune(
    active: Seq<ActivePeerV>,
    from: Pubkey,
    prunes: Seq<Pubkey>,
) -> Seq<ActivePeerV> {
    active.map_values(
        |p: ActivePeerV|
            if p.id == from {
                ActivePeerV { id: p.id, pruned: p.pruned + prunes }
            } else {
                p
            },
    )
}

/// Whether a list of keys holds a given key.
pub fn contains_pubkey(v: &Vec<Pubkey>, x: &Pubkey) -> (r: bool)
    ensures
        r == v@.contains(*x),
{
    let mut i: usize = 0;
    while i < v.len()
        invariant
            i <= v@.len(),
            forall|k: int| 0 <= k < i ==> v@[k] != *x,
        decreases v@.len() - i,
    {
        if v[i] == *x {
            return true;
        }
        i = i + 1;
    }
    proof {
        if v@.contains(*x) {
            let k = choose|k: int| 0 <= k < v@.len() && v@[k] == *x;
            assert(false);
        }
    }
    false
}

/// A copy of a key list.
pub fn copy_pubkeys(v: &Vec<Pubkey>) -> (r: Vec<Pubkey>)
    ensures
        r@ == v@,
{
    let mut out: Vec<Pubkey> = Vec::new();
    let mut i: usize = 0;
    while i < v.len()
        invariant
            i <= v@.len(),
            out@ == v@.subrange(0, i as int),
        decreases v@.len() - i,
    {
        out.push(v[i]);
        proof {
            assert(out@ =~= v@.subrange(0, i as int + 1));
        }
        i = i + 1;
    }
    proof {
        assert(v@.subrange(0, v@.len() as int) =~= v@);
    }
    out
}

impl CrdsGossipPush {
    /// Fresh push state: no active peers, nothing pending.
    pub fn new() -> (r: CrdsGossipPush)
        ensures
            r@.active == Seq::<ActivePeerV>::empty(),
            r@.pending == Seq::<CrdsValueV>::empty(),
    {
        let r = CrdsGossipPush { active_set: Vec::new(), pending: Vec::new() };
        proof {
            assert(r@.active =~= Seq::<ActivePeerV>::empty());
            assert(r@.pending =~= Seq::<CrdsValueV>::empty());
        }
        r
    }

    /// Applies one batch of pushed values to the store, queues accepted
    /// values for onward forwarding, and returns the origins to prune.
    pub fn process_push_message(
        &mut self,
        crds: &mut Crds,
        values: &Vec<CrdsValue>,
        now: u64,
    ) -> (r: Vec<Pubkey>)
        requires
            forall|i: int| 0 <= i < values@.len() ==> value_wf(#[trigger] values@[i]@),
        ensures
            ({
                let t = spec_process_push(
                    old(crds)@,
                    old(self)@.pending,
                    crate::protocol::views_of_values(values@),
                    now,
                );
                final(crds)@ == t.0 && final(self)@.pending == t.1 && r@ == t.2
            }),
            final(self)@.active == old(self)@.active,
    {
        let ghost vals = crate::protocol::views_of_values(values@);
        let ghost s_orig = crds@;
        let ghost pend_orig = self@.pending;
        let mut prunes: Vec<Pubkey> = Vec::new();
        let mut i: usize = 0;
        proof {
            assert(vals.skip(0) =~= vals);
        }
        while i < values.len()
            invariant
                i <= values@.len(),
                vals == crate::protocol::views_of_values(values@),
                vals.len() == values@.len(),
                forall|k: int| 0 <= k < values@.len() ==> value_wf(#[trigger] values@[k]@),
                self@.active == old(self)@.active,
                ({
                    let whole = spec_process_push(s_orig, pend_orig, vals, now);
                    let rem = spec_process_push(crds@, self@.pending, vals.skip(i as int), now);
                    whole.0 == rem.0 && whole.1 == rem.1 && whole.2 == prunes@ + rem.2
                }),
            decreases values@.len() - i,
        {
            let ghost pre_crds = crds@;
            let ghost pre_pend = self@.pending;
            let ghost pre_prunes = prunes@;
            let v = values[i].duplicate();
            proof {
                assert(v@ == vals[i as int]);
                assert(vals.skip(i as int)[0] == vals[i as int]);
                assert(vals.skip(i as int).drop_first() =~= vals.skip(i as int + 1));
            }
            let origin = v.pubkey();
            let queued = values[i].duplicate();
            match crds.insert(v, now) {
                Ok(_) => {
                    self.pending.push(queued);
                    proof {
                        assert(self@.pending =~= pre_pend.push(vals[i as int]));
                    }
                },
                Err(CrdsError::DuplicateOrOlder) => {
                    prunes.push(origin);
                    proof {
                        assert(prunes@ =~= pre_prunes.push(pubkey_of(vals[i as int].data)));
                        assert(pre_prunes.push(pubkey_of(vals[i as int].data)) =~= pre_prunes + seq![
                            pubkey_of(vals[i as int].data),
                        ]);
                    }
                },
            }
            proof {
                let whole = spec_process_push(s_orig, pend_orig, vals, now);
                let pre_rem = spec_process_push(pre_crds, pre_pend, vals.skip(i as int), now);
                let rem = spec_process_push(crds@, self@.pending, vals.skip(i as int + 1), now);
                assert(pre_rem.2 == (if spec_insert(pre_crds, vals[i as int], now).1 == Err::<
                    Option<VersionedV>,
                    CrdsError,
                >(CrdsError::DuplicateOrOlder) {
                    seq![pubkey_of(vals[i as int].data)] + rem.2
                } else {
                    rem.2
                }));
                assert(whole.2 =~= prunes@ + rem.2);
            }
            i = i + 1;
        }
        proof {
            assert(vals.skip(vals.len() as int) =~= Seq::<CrdsValueV>::empty());
            let whole = spec_process_push(s_orig, pend_orig, vals, now);
            assert(whole.2 =~= prunes@);
        }
        prunes
    }

    /// Drains up to one batch of pending values and returns them with the
    /// active peers that accept every origin in the batch.
    pub fn new_push_messages(&mut self, now: u64) -> (r: (Vec<Pubkey>, Vec<CrdsValue>))
        ensures
            ({
                let k = if old(self)@.pending.len() <= CRDS_GOSSIP_PUSH_BATCH_MAX {
                    old(self)@.pending.len() as int
                } else {
                    CRDS_GOSSIP_PUSH_BATCH_MAX as int
                };
                &&& crate::protocol::views_of_values(r.1@) == old(self)@.pending.take(k)
                &&& final(self)@.pending == old(self)@.pending.skip(k)
                &&& r.0@ == spec_push_peers(old(self)@.active, old(self)@.pending.take(k))
            }),
            final(self)@.active == old(self)@.active,
    {
        let ghost pend_orig = self@.pending;
        let take_n = if self.pending.len() <= CRDS_GOSSIP_PUSH_BATCH_MAX {
            self.pending.len()
        } else {
            CRDS_GOSSIP_PUSH_BATCH_MAX
        };
        let ghost k = take_n as int;
        // Split the batch off the front of the pending queue.
        let mut msgs: Vec<CrdsValue> = Vec::new();
        let mut i: usize = 0;
        while i < take_n
            invariant
                i <= take_n,
                take_n <= self@.pending.len(),
                self@.pending == pend_orig,
                self@.pending.len() == self.pending@.len(),
                crate::protocol::views_of_values(msgs@) == pend_orig.take(i as int),
            decreases take_n - i,
        {
            let ghost pre_msgs = crate::protocol::views_of_values(msgs@);
            let dup = self.pending[i].duplicate();
            proof {
                assert(pend_orig[i as int] == self.pending@[i as int]@);
                assert(dup@ == pend_orig[i as int]);
            }
            msgs.push(dup);
            proof {
                assert(crate::protocol::views_of_values(msgs@) =~= pre_msgs.push(dup@));
                assert(crate::protocol::views_of_values(msgs@) =~= pend_orig.take(i as int + 1));
            }
            i = i + 1;
        }
        let mut rest: Vec<CrdsValue> = Vec::new();
        let mut j: usize = take_n;
        while j < self.pending.len()
            invariant
                take_n <= j <= self@.pending.len(),
                self@.pending == pend_orig,
                self@.pending.len() == self.pending@.len(),
                take_n <= self@.pending.len(),
                crate::protocol::views_of_values(rest@) == pend_orig.subrange(k, j as int),
                k == take_n as int,
            decreases self@.pending.len() - j,
        {
            let ghost pre_rest = crate::protocol::views_of_values(rest@);
            let dup = self.pending[j].duplicate();
            proof {
                assert(pend_orig[j as int] == self.pending@[j as int]@);
                assert(dup@ == pend_orig[j as int]);
            }
            rest.push(dup);
            proof {
                assert(crate::protocol::views_of_values(rest@) =~= pre_rest.push(dup@));
                assert(crate::protocol::views_of_values(rest@) =~= pend_orig.subrange(
                    k,
                    j as int + 1,
                ));
            }
            j = j + 1;
        }
        self.pending = rest;
        proof {
            assert(pend_orig.subrange(k, pend_orig.len() as int) =~= pend_orig.skip(k));
        }
        // Collect the active peers that accept the whole batch.
        let ghost batch = pend_orig.take(k);
        let mut peers: Vec<Pubkey> = Vec::new();
        let mut a: usize = 0;
        proof {
            assert(self@.active.subrange(0, 0) =~= Seq::<ActivePeerV>::empty());
            assert(peers@ =~= spec_push_peers(self@.active.subrange(0, 0), batch));
        }
        while a < self.active_set.len()
            invariant
                a <= self@.active.len(),
                self@.active.len() == self.active_set@.len(),
                self@.active == old(self)@.active,
                batch == crate::protocol::views_of_values(msgs@),
                msgs@.len() == batch.len(),
                peers@ == spec_push_peers(self@.active.subrange(0, a as int), batch),
            decreases self@.active.len() - a,
        {
            let ghost pre_peers = peers@;
            let peer = &self.active_set[a];
            let mut ok = true;
            let mut m: usize = 0;
            while m < msgs.len()
                invariant
                    m <= msgs@.len(),
                    batch == crate::protocol::views_of_values(msgs@),
                    msgs@.len() == batch.len(),
                    a < self.active_set@.len(),
                    peer == &self.active_set@[a as int],
                    ok == (forall|q: int|
                        0 <= q < m ==> !peer@.pruned.contains(pubkey_of(#[trigger] batch[q].data))),
                decreases msgs@.len() - m,
            {
                let origin = msgs[m].pubkey();
                if contains_pubkey(&peer.pruned, &origin) {
                    ok = false;
                    proof {
                        assert(peer@.pruned.contains(pubkey_of(batch[m as int].data)));
                    }
                }
                m = m + 1;
            }
            if ok {
                peers.push(peer.id);
            }
            proof {
                let pre = self@.active.subrange(0, a as int);
                let cur = self@.active.subrange(0, a as int + 1);
                assert(cur.drop_last() =~= pre);
                assert(cur.last() == self@.active[a as int]);
                assert(peer_accepts(self@.active[a as int], batch) == ok);
                if ok {
                    assert(peers@ =~= pre_peers.push(self@.active[a as int].id));
                }
            }
            a = a + 1;
        }
        proof {
            assert(self@.active.subrange(0, self@.active.len() as int) =~= self@.active);
        }
        (peers, msgs)
    }

    /// Applies a prune message: it must be addressed to this node and young
    /// enough; then the sending peer's active-set entry learns the pruned
    /// origins.
    pub fn process_prune_msg(
        &mut self,
        self_id: Pubkey,
        from: Pubkey,
        destination: Pubkey,
        prunes: &Vec<Pubkey>,
        wallclock: u64,
        now: u64,
    ) -> (r: Result<(), CrdsGossipError>)
        ensures
            destination != self_id ==> r == Err::<(), CrdsGossipError>(
                CrdsGossipError::BadPruneDestination,
            ) && final(self)@ == old(self)@,
            destination == self_id && now > wallclock + CRDS_GOSSIP_PRUNE_MSG_TIMEOUT_MS ==> r
                == Err::<(), CrdsGossipError>(CrdsGossipError::PruneMessageTimeout) && final(self)@
                == old(self)@,
            destination == self_id && now <= wallclock + CRDS_GOSSIP_PRUNE_MSG_TIMEOUT_MS ==> r
                == Ok::<(), CrdsGossipError>(()) && final(self)@.active == spec_apply_prune(
                old(self)@.active,
                from,
                prunes@,
            ) && final(self)@.pending == old(self)@.pending,
    {
        if destination != self_id {
            return Err(CrdsGossipError::BadPruneDestination);
        }
        if wallclock <= u64::MAX - CRDS_GOSSIP_PRUNE_MSG_TIMEOUT_MS && now > wallclock
            + CRDS_GOSSIP_PRUNE_MSG_TIMEOUT_MS {
            return Err(CrdsGossipError::PruneMessageTimeout);
        }
        let ghost act_orig = self@.active;
        let ghost target = spec_apply_prune(act_orig, from, prunes@);
        let mut fresh: Vec<ActivePeer> = Vec::new();
        let mut i: usize = 0;
        while i < self.active_set.len()
            invariant
                i <= self.active_set@.len(),
                self@.active == act_orig,
                self@.pending == old(self)@.pending,
                target == spec_apply_prune(act_orig, from, prunes@),
                act_orig.len() == self.active_set@.len(),
                fresh@.len() == i,
                forall|q: int| 0 <= q < i ==> #[trigger] fresh@[q]@ == target[q],
            decreases self.active_set@.len() - i,
        {
            let p = &self.active_set[i];
            proof {
                assert(p@ == act_orig[i as int]);
            }
            let mut new_pruned = copy_pubkeys(&p.pruned);
            if p.id == from {
                let mut d: usize = 0;
                while d < prunes.len()
                    invariant
                        d <= prunes@.len(),
                        new_pruned@ == p.pruned@ + prunes@.subrange(0, d as int),
                    decreases prunes@.len() - d,
                {
                    new_pruned.push(prunes[d]);
                    proof {
                        assert(new_pruned@ =~= p.pruned@ + prunes@.subrange(0, d as int + 1));
                    }
                    d = d + 1;
                }
                proof {
                    assert(prunes@.subrange(0, prunes@.len() as int) =~= prunes@);
                }
            }
            fresh.push(ActivePeer { id: p.id, pruned: new_pruned });
            proof {
                assert(fresh@[i as int]@ == target[i as int]);
            }
            i = i + 1;
        }
        self.active_set = fresh;
        proof {
            assert(self@.active =~= target);
        }
        Ok(())
    }

    /// Rebuilds the active set from the given peers: a rotation of up to
    /// `CRDS_GOSSIP_NUM_ACTIVE` of them starting at a random offset, each
    /// with a clean prune list.
    pub fn refresh_push_active_set(&mut self, peers: &Vec<ContactInfo>)
        ensures
            final(self)@.pending == old(self)@.pending,
            final(self)@.active.len() <= CRDS_GOSSIP_NUM_ACTIVE,
            final(self)@.active.len() == if peers@.len() <= CRDS_GOSSIP_NUM_ACTIVE {
                peers@.len() as int
            } else {
                CRDS_GOSSIP_NUM_ACTIVE as int
            },
            forall|q: int|
                0 <= q < final(self)@.active.len()
                    ==> #[trigger] final(self)@.active[q].pruned.len() == 0,

    {
        let mut fresh: Vec<ActivePeer> = Vec::new();
        if peers.len() > 0 {
            let take_n: usize = if peers.len() as u64 <= CRDS_GOSSIP_NUM_ACTIVE {
                peers.len()
            } else {
                CRDS_GOSSIP_NUM_ACTIVE as usize
            };
            let off = rand_below(peers.len() as u64) as usize;
            let mut i: usize = 0;
            while i < take_n
                invariant
                    i <= take_n,
                    take_n <= peers@.len(),
                    off < peers@.len(),
                    fresh@.len() == i,
                    forall|q: int| 0 <= q < i ==> #[trigger] fresh@[q]@.pruned.len() == 0,
                decreases take_n - i,
            {
                let ix = if i >= peers.len() - off {
                    i - (peers.len() - off)
                } else {
                    off + i
                };
                let chosen = &peers[ix];
                fresh.push(ActivePeer { id: chosen.id, pruned: Vec::new() });
                proof {
                    assert(fresh@[i as int]@.pruned.len() == 0);
                }
                i = i + 1;
            }
        }
        let ghost gf = fresh@;
        let ghost gfv = fresh@.map_values(|p: ActivePeer| p@);
        self.active_set = fresh;
        proof {
            assert(self@.active == gfv);
            assert(gfv.len() == gf.len());
            assert forall|q: int| 0 <= q < self@.active.len() implies #[trigger] self@.active[q].pruned.len()
                == 0 by {
                assert(self@.active[q] == gf[q]@);
                assert(gf[q]@.pruned.len() == 0);
            };

        }
    }
}

} // verus!
