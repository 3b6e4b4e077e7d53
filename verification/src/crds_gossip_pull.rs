//! The pull half of gossip: periodically sample one peer, send it a bloom
//! summary of the value hashes held locally, and merge its response into the
//! store.

use vstd::prelude::*;
use crate::bloom::{bloom_has, bloom_wf, Bloom, BloomV};
use crate::codec::value_wf;
use crate::contact_info::ContactInfo;
use crate::crds::{find, spec_insert, Crds, VersionedV};
use crate::crds_gossip_error::CrdsGossipError;
use crate::crds_value::{CrdsValue, CrdsValueLabel, CrdsValueV};
use crate::keys::Pubkey;
use crate::rng::rand_below;

verus! {

/// How long an entry lives in the store without being refreshed,
/// milliseconds.
pub const CRDS_GOSSIP_PULL_CRDS_TIMEOUT_MS: u64 = 15_000;

/// Bound on how many values one pull response returns.
pub const CRDS_GOSSIP_PULL_RESPONSE_MAX: usize = 256;

/// The pull state: when each peer was last asked for a pull.
#[derive(Debug)]
pub struct CrdsGossipPull {
    pull_request_time: Vec<(Pubkey, u64)>,
}

impl View for CrdsGossipPull {
    type V = Seq<(Pubkey, u64)>;

    closed spec fn view(&self) -> Seq<(Pubkey, u64)> {
        self.pull_request_time@
    }
}

/// When a peer was last sent a pull request; zero if never.
pub open spec fn last_request(s: Seq<(Pubkey, u64)>, peer: Pubkey) -> u64
    decreases s.len(),
{
    if s.len() == 0 {
        0
    } else if s[0].0 == peer {
        s[0].1
    } else {
        last_request(s.drop_first(), peer)
    }
}

/// The pacing table after recording a request to `peer` at `now`: its entry
/// updated in place, or appended if absent.
pub open spec fn spec_mark(s: Seq<(Pubkey, u64)>, peer: Pubkey, now: u64) -> Seq<(Pubkey, u64)>
    decreases s.len(),
{
    if s.len() == 0 {
        seq![(peer, now)]
    } else if s[0].0 == peer {
        seq![(peer, now)] + s.drop_first()
    } else {
        seq![s[0]] + spec_mark(s.drop_first(), peer, now)
    }
}

/// The gossip-reachable peers in a table: stored contact records of other
/// nodes whose gossip endpoint is valid.
pub open spec fn spec_gossip_peers(s: Seq<VersionedV>, self_id: Pubkey) -> Seq<ContactInfo>
    decreases s.len(),
{
    if s.len() == 0 {
        Seq::empty()
    } else {
        let rest = spec_gossip_peers(s.drop_last(), self_id);
        match s.last().value.data {
            crate::crds_value::CrdsDataV::ContactInfo(c) => {
                if c.id != self_id && c.gossip.spec_is_valid() {
                    rest.push(c)
                } else {
                    rest
                }
            },
            _ => rest,
        }
    }
}

/// The pull response to a filter: the first values (up to a cap) whose hash
/// the filter does not contain.
pub open spec fn spec_pull_response(s: Seq<VersionedV>, f: BloomV, cap: nat) -> Seq<CrdsValueV>
    decreases s.len(),
{
    if s.len() == 0 || cap == 0 {
        Seq::empty()
    } else if !bloom_has(f, s[0].value_hash) {
        seq![s[0].value] + spec_pull_response(s.drop_first(), f, (cap - 1) as nat)
    } else {
        spec_pull_response(s.drop_first(), f, cap)
    }
}

/// Inserting a list of values left to right.
pub open spec fn spec_insert_all(s: Seq<VersionedV>, vals: Seq<CrdsValueV>, now: u64) -> Seq<
    VersionedV,
>
    decreases vals.len(),
{
    if vals.len() == 0 {
        s
    } else {
        spec_insert_all(spec_insert(s, vals[0], now).0, vals.drop_first(), now)
    }
}

/// Collects the gossip-reachable peers of a store: other nodes' contact
/// records with a valid gossip endpoint.
pub fn gossip_peers_of(crds: &Crds, self_id: Pubkey) -> (r: Vec<ContactInfo>)
    ensures
        r@ == spec_gossip_peers(crds@, self_id),
{
    let entries = crds.entries();
    let mut out: Vec<ContactInfo> = Vec::new();
    let mut i: usize = 0;
    proof {
        assert(crds@.subrange(0, 0) =~= Seq::<VersionedV>::empty());
        assert(out@ =~= spec_gossip_peers(crds@.subrange(0, 0), self_id));
    }
    while i < entries.len()
        invariant
            i <= entries@.len(),
            crate::crds::views_of_entries(entries@) == crds@,
            crds@.len() == entries@.len(),
            out@ == spec_gossip_peers(crds@.subrange(0, i as int), self_id),
        decreases entries@.len() - i,
    {
        let ghost pre = out@;
        let entry = &entries[i];
        proof {
            assert(entry@ == crds@[i as int]);
        }
        match entry.value.contact_info() {
            Some(c) => {
                if !(c.id == self_id) && c.gossip.is_valid() {
                    out.push(*c);
                }
            },
            None => {},
        }
        proof {
            let cur = crds@.subrange(0, i + 1);
            assert(cur.drop_last() =~= crds@.subrange(0, i as int));
            assert(cur.last() == crds@[i as int]);
            if out@.len() != pre.len() {
                assert(out@ =~= spec_gossip_peers(cur, self_id));
            } else {
                assert(out@ =~= spec_gossip_peers(cur, self_id));
            }
        }
        i = i + 1;
    }
    proof {
        assert(crds@.subrange(0, crds@.len() as int) =~= crds@);
    }
    out
}

impl CrdsGossipPull {
    /// Fresh pull state.
    pub fn new() -> (r: CrdsGossipPull)
        ensures
            r@ == Seq::<(Pubkey, u64)>::empty(),
    {
        CrdsGossipPull { pull_request_time: Vec::new() }
    }

    /// Chooses one gossip peer, weighted away from recently-asked peers, and
    /// builds a pull request: a bloom of every value hash held locally plus
    /// this node's own stored contact value.
    pub fn new_pull_request(&self, crds: &Crds, self_id: Pubkey, now: u64) -> (r: Result<
        (Pubkey, Bloom, CrdsValue),
        CrdsGossipError,
    >)
        ensures
            match r {
                Ok((peer, bloom, self_info)) => {
                    &&& exists|j: int|
                        0 <= j < spec_gossip_peers(crds@, self_id).len() && #[trigger] spec_gossip_peers(
                            crds@,
                            self_id,
                        )[j].id == peer
                    &&& bloom_wf(bloom@)
                    &&& forall|i: int|
                        0 <= i < crds@.len() ==> bloom_has(
                            bloom@,
                            #[trigger] crds@[i].value_hash,
                        )
                    &&& find(crds@, CrdsValueLabel::ContactInfo(self_id)) matches Some(e)
                        && self_info@ == e.value
                },
                Err(e) => e == CrdsGossipError::NoPeers && (spec_gossip_peers(
                    crds@,
                    self_id,
                ).len() == 0 || find(crds@, CrdsValueLabel::ContactInfo(self_id)) is None),
            },
            (spec_gossip_peers(crds@, self_id).len() > 0 && find(
                crds@,
                CrdsValueLabel::ContactInfo(self_id),
            ) is Some) ==> r is Ok,
    {
        let peers = gossip_peers_of(crds, self_id);
        if peers.len() == 0 {
            return Err(CrdsGossipError::NoPeers);
        }
        let self_label = CrdsValueLabel::ContactInfo(self_id);
        let self_info = match crds.lookup(&self_label) {
            Some(e) => e.value.duplicate(),
            None => {
                return Err(CrdsGossipError::NoPeers);
            },
        };
        // Weight peers by how long ago each was last asked.
        let mut total: u64 = 0;
        let mut weights: Vec<u64> = Vec::new();
        let mut i: usize = 0;
        while i < peers.len()
            invariant
                i <= peers@.len(),
                weights@.len() == i,
                i >= 1 ==> total >= 1,
            decreases peers@.len() - i,
        {
            let since = self.last_request_time(&peers[i].id);
            let age = if now >= since {
                now - since
            } else {
                0
            };
            let w = if age > 0xffff_ffff {
                0x1_0000_0000
            } else {
                age + 1
            };
            total = if total > u64::MAX - w {
                u64::MAX
            } else {
                total + w
            };
            weights.push(w);
            i = i + 1;
        }
        // Draw into the cumulative weights.
        let draw = rand_below(total);
        let mut acc: u64 = 0;
        let mut chosen: usize = 0;
        let mut j: usize = 0;
        let mut picked = false;
        while j < weights.len()
            invariant
                weights@.len() == peers@.len(),
                peers@.len() >= 1,
                chosen < peers@.len() || !picked,
                picked ==> chosen < peers@.len(),
            decreases weights@.len() - j,
        {
            let w = weights[j];
            if !picked && (draw < acc || draw < acc.saturating_add(w)) {
                chosen = j;
                picked = true;
            }
            acc = acc.saturating_add(w);
            j = j + 1;
        }
        if !picked {
            chosen = 0;
        }
        let peer = peers[chosen].id;
        // Summarize everything we hold in a bloom filter.
        let entries = crds.entries();
        let mut bloom = Bloom::random(entries.len() as u64);
        let mut k: usize = 0;
        while k < entries.len()
            invariant
                k <= entries@.len(),
                crate::crds::views_of_entries(entries@) == crds@,
                crds@.len() == entries@.len(),
                bloom_wf(bloom@),
                forall|q: int|
                    0 <= q < k ==> bloom_has(bloom@, #[trigger] crds@[q].value_hash),
            decreases entries@.len() - k,
        {
            let ghost pre = bloom@;
            let h = entries[k].value_hash;
            proof {
                assert(entries@[k as int]@ == crds@[k as int]);
            }
            bloom.add(&h);
            proof {
                assert forall|q: int| 0 <= q < k + 1 implies bloom_has(
                    bloom@,
                    #[trigger] crds@[q].value_hash,
                ) by {
                    if q < k {
                        lemma_bloom_has_monotone(pre, bloom@, crds@[q].value_hash);
                    }
                };
            }
            k = k + 1;
        }
        proof {
            assert(peers@[chosen as int].id == spec_gossip_peers(crds@, self_id)[chosen as int].id);
        }
        Ok((peer, bloom, self_info))
    }

    /// When this node last sent `peer` a pull request; zero if never.
    pub fn last_request_time(&self, peer: &Pubkey) -> (r: u64)
        ensures
            r == last_request(self@, *peer),
    {
        let mut i: usize = 0;
        proof {
            assert(self@.skip(0) =~= self@);
        }
        while i < self.pull_request_time.len()
            invariant
                i <= self@.len(),
                self@.len() == self.pull_request_time@.len(),
                last_request(self@, *peer) == last_request(self@.skip(i as int), *peer),
            decreases self@.len() - i,
        {
            proof {
                assert(self@.skip(i as int)[0] == self@[i as int]);
                assert(self@.skip(i as int).drop_first() =~= self@.skip(i as int + 1));
            }
            if self.pull_request_time[i].0 == *peer {
                return self.pull_request_time[i].1;
            }
            i = i + 1;
        }
        proof {
            assert(self@.skip(self@.len() as int) =~= Seq::<(Pubkey, u64)>::empty());
        }
        0
    }

    /// Records that a pull request was sent to `peer` at `now`.
    pub fn mark_pull_request_creation_time(&mut self, peer: Pubkey, now: u64)
        ensures
            final(self)@ == spec_mark(old(self)@, peer, now),
    {
        let ghost orig = self@;
        let mut i: usize = 0;
        proof {
            assert(orig.skip(0) =~= orig);
            assert(orig.subrange(0, 0) =~= Seq::<(Pubkey, u64)>::empty());
            assert(orig.subrange(0, 0) + spec_mark(orig.skip(0), peer, now) =~= spec_mark(
                orig,
                peer,
                now,
            ));
        }
        while i < self.pull_request_time.len()
            invariant
                i <= self@.len(),
                self@ == orig,
                orig == old(self)@,
                self@.len() == self.pull_request_time@.len(),
                forall|k: int| 0 <= k < i ==> (#[trigger] orig[k]).0 != peer,
                spec_mark(orig, peer, now) == orig.subrange(0, i as int) + spec_mark(
                    orig.skip(i as int),
                    peer,
                    now,
                ),
            decreases self@.len() - i,
        {
            proof {
                assert(orig.skip(i as int)[0] == orig[i as int]);
                assert(orig.skip(i as int).drop_first() =~= orig.skip(i as int + 1));
            }
            if self.pull_request_time[i].0 == peer {
                let mut t: Vec<(Pubkey, u64)> = Vec::new();
                core::mem::swap(&mut t, &mut self.pull_request_time);
                t.set(i, (peer, now));
                self.pull_request_time = t;
                proof {
                    assert(spec_mark(orig.skip(i as int), peer, now) =~= seq![(peer, now)]
                        + orig.skip(i as int).drop_first());
                    assert(self@ =~= orig.subrange(0, i as int) + (seq![(peer, now)] + orig.skip(
                        i as int,
                    ).drop_first()));
                    assert(self@ =~= spec_mark(orig, peer, now));
                }
                return ;
            }
            proof {
                assert(orig.subrange(0, i as int + 1) =~= orig.subrange(0, i as int) + seq![
                    orig[i as int],
                ]);
                assert(orig.subrange(0, i as int) + (seq![orig[i as int]] + spec_mark(
                    orig.skip(i as int + 1),
                    peer,
                    now,
                )) =~= orig.subrange(0, i as int + 1) + spec_mark(orig.skip(i as int + 1), peer, now));
            }
            i = i + 1;
        }
        self.pull_request_time.push((peer, now));
        proof {
            assert(orig.skip(orig.len() as int) =~= Seq::<(Pubkey, u64)>::empty());
            assert(spec_mark(orig.skip(orig.len() as int), peer, now) =~= seq![(peer, now)]);
            assert(orig.subrange(0, orig.len() as int) =~= orig);
            assert(self@ =~= orig + seq![(peer, now)]);
            assert(self@ =~= spec_mark(orig, peer, now));
        }
    }

    /// Serves a pull request: stores the caller's own value, then returns the
    /// values whose hash the caller's filter does not contain, up to the
    /// response cap.
    pub fn process_pull_request(
        &self,
        crds: &mut Crds,
        caller: CrdsValue,
        filter: &Bloom,
        now: u64,
    ) -> (r: Vec<CrdsValue>)
        requires
            value_wf(caller@),
            bloom_wf(filter@),
        ensures
            final(crds)@ == spec_insert(old(crds)@, caller@, now).0,
            crate::protocol::views_of_values(r@) == spec_pull_response(
                final(crds)@,
                filter@,
                CRDS_GOSSIP_PULL_RESPONSE_MAX as nat,
            ),
    {
        let _ = crds.insert(caller, now);
        let entries = crds.entries();
        let ghost s = crds@;
        let mut out: Vec<CrdsValue> = Vec::new();
        let mut i: usize = 0;
        proof {
            assert(s.skip(0) =~= s);
            assert(crate::protocol::views_of_values(out@) =~= Seq::<CrdsValueV>::empty());
        }
        while i < entries.len() && out.len() < CRDS_GOSSIP_PULL_RESPONSE_MAX
            invariant
                i <= entries@.len(),
                crate::crds::views_of_entries(entries@) == s,
                s.len() == entries@.len(),
                bloom_wf(filter@),
                out@.len() <= CRDS_GOSSIP_PULL_RESPONSE_MAX,
                spec_pull_response(s, filter@, CRDS_GOSSIP_PULL_RESPONSE_MAX as nat)
                    == crate::protocol::views_of_values(out@) + spec_pull_response(
                    s.skip(i as int),
                    filter@,
                    (CRDS_GOSSIP_PULL_RESPONSE_MAX - out@.len()) as nat,
                ),
            decreases entries@.len() - i,
        {
            let ghost pre = crate::protocol::views_of_values(out@);
            proof {
                assert(s.skip(i as int)[0] == s[i as int]);
                assert(s.skip(i as int).drop_first() =~= s.skip(i as int + 1));
            }
            let entry = &entries[i];
            proof {
                assert(entry@ == s[i as int]);
            }
            if !filter.contains(&entry.value_hash) {
                let dup = entry.value.duplicate();
                proof {
                    assert(dup@ == s[i as int].value);
                }
                out.push(dup);
                proof {
                    assert(crate::protocol::views_of_values(out@) =~= pre.push(s[i as int].value));
                    assert(pre.push(s[i as int].value) =~= pre + seq![s[i as int].value]);
                }
            }
            i = i + 1;
        }
        proof {
            if out@.len() == CRDS_GOSSIP_PULL_RESPONSE_MAX {
                assert(spec_pull_response(
                    s.skip(i as int),
                    filter@,
                    (CRDS_GOSSIP_PULL_RESPONSE_MAX - out@.len()) as nat,
                ) =~= Seq::<CrdsValueV>::empty());
            } else {
                assert(i == entries@.len());
                assert(s.skip(i as int).len() == 0);
            }
            assert(spec_pull_response(s, filter@, CRDS_GOSSIP_PULL_RESPONSE_MAX as nat)
                =~= crate::protocol::views_of_values(out@));
        }
        out
    }

    /// Ages the pacing table out: drops entries older than the timeout.
    pub fn purge_old_requests(&mut self, now: u64, timeout: u64)
        ensures
            final(self)@ == spec_purge_times(old(self)@, now, timeout),
    {
        let ghost s0 = self@;
        let mut out: Vec<(Pubkey, u64)> = Vec::new();
        let mut i: usize = 0;
        proof {
            assert(s0.subrange(0, 0) =~= Seq::<(Pubkey, u64)>::empty());
            assert(out@ =~= spec_purge_times(s0.subrange(0, 0), now, timeout));
        }
        while i < self.pull_request_time.len()
            invariant
                i <= s0.len(),
                self@ == s0,
                s0.len() == self.pull_request_time@.len(),
                out@ == spec_purge_times(s0.subrange(0, i as int), now, timeout),
            decreases s0.len() - i,
        {
            let ghost pre = out@;
            let entry = self.pull_request_time[i];
            let fresh = entry.1 > u64::MAX - timeout || entry.1 + timeout >= now;
            if fresh {
                out.push(entry);
            }
            proof {
                let cur = s0.subrange(0, i + 1);
                assert(cur.drop_last() =~= s0.subrange(0, i as int));
                assert(cur.last() == s0[i as int]);
                assert((s0[i as int].1 + timeout >= now) == fresh);
                if fresh {
                    assert(out@ =~= pre.push(s0[i as int]));
                }
            }
            i = i + 1;
        }
        proof {
            assert(s0.subrange(0, s0.len() as int) =~= s0);
        }
        self.pull_request_time = out;
    }

    /// Merges a pull response: inserts each value and refreshes the pacing
    /// entry for the peer that answered. Returns how many values were
    /// refused.
    pub fn process_pull_response(
        &mut self,
        crds: &mut Crds,
        from: Pubkey,
        values: &Vec<CrdsValue>,
        now: u64,
    ) -> (r: usize)
        requires
            forall|i: int| 0 <= i < values@.len() ==> value_wf(#[trigger] values@[i]@),
        ensures
            final(crds)@ == spec_insert_all(
                old(crds)@,
                crate::protocol::views_of_values(values@),
                now,
            ),
            final(self)@ == spec_mark(old(self)@, from, now),
    {
        let ghost vals = crate::protocol::views_of_values(values@);
        let ghost s_orig = crds@;
        let mut failed: usize = 0;
        let mut i: usize = 0;
        proof {
            assert(vals.skip(0) =~= vals);
        }
        while i < values.len()
            invariant
                i <= values@.len(),
                vals == crate::protocol::views_of_values(values@),
                vals.len() == values@.len(),
                failed <= i,
                forall|k: int| 0 <= k < values@.len() ==> value_wf(#[trigger] values@[k]@),
                spec_insert_all(s_orig, vals, now) == spec_insert_all(
                    crds@,
                    vals.skip(i as int),
                    now,
                ),
            decreases values@.len() - i,
        {
            proof {
                assert(vals.skip(i as int)[0] == vals[i as int]);
                assert(vals.skip(i as int).drop_first() =~= vals.skip(i as int + 1));
            }
            let v = values[i].duplicate();
            proof {
                assert(v@ == vals[i as int]);
            }
            match crds.insert(v, now) {
                Ok(_) => {},
                Err(_) => {
                    failed = failed + 1;
                },
            }
            i = i + 1;
        }
        proof {
            assert(vals.skip(vals.len() as int) =~= Seq::<CrdsValueV>::empty());
        }
        self.mark_pull_request_creation_time(from, now);
        failed
    }
}

/// Every entry after a batch insert is an original entry or holds one of the
/// batch values.
pub proof fn lemma_insert_all_members(s: Seq<VersionedV>, vals: Seq<CrdsValueV>, now: u64)
    ensures
        forall|j: int|
            0 <= j < spec_insert_all(s, vals, now).len() ==> (exists|k: int|
                0 <= k < s.len() && #[trigger] spec_insert_all(s, vals, now)[j] == s[k])
                || vals.contains(spec_insert_all(s, vals, now)[j].value),
    decreases vals.len(),
{
    if vals.len() > 0 {
        let s1 = spec_insert(s, vals[0], now).0;
        crate::crds::lemma_insert_members(s, vals[0], now);
        lemma_insert_all_members(s1, vals.drop_first(), now);
        let out = spec_insert_all(s, vals, now);
        assert(out == spec_insert_all(s1, vals.drop_first(), now));
        assert forall|j: int| 0 <= j < out.len() implies (exists|k: int|
            0 <= k < s.len() && #[trigger] out[j] == s[k]) || vals.contains(out[j].value) by {
            if exists|k1: int| 0 <= k1 < s1.len() && #[trigger] out[j] == s1[k1] {
                let k1 = choose|k1: int| 0 <= k1 < s1.len() && #[trigger] out[j] == s1[k1];
                if exists|k: int| 0 <= k < s.len() && #[trigger] s1[k1] == s[k] {
                    let k = choose|k: int| 0 <= k < s.len() && #[trigger] s1[k1] == s[k];
                    assert(out[j] == s[k]);
                } else {
                    assert(s1[k1].value == vals[0]);
                    assert(vals[0] == vals[0]);
                    assert(vals.contains(out[j].value));
                }
            } else {
                assert(vals.drop_first().contains(out[j].value));
                let m = choose|m: int|
                    0 <= m < vals.drop_first().len() && vals.drop_first()[m] == out[j].value;
                assert(vals[m + 1] == out[j].value);
                assert(vals.contains(out[j].value));
            }
        };
    }
}

/// A store whose entries all verify stays that way under a batch of verified
/// values: signature checking at the protocol edge keeps the store verified.
pub proof fn lemma_verified_batch_keeps_store_verified(
    s: Seq<VersionedV>,
    vals: Seq<CrdsValueV>,
    now: u64,
)
    requires
        forall|k: int| 0 <= k < s.len() ==> crate::crds_value::value_verified(#[trigger] s[k].value),
        forall|m: int| 0 <= m < vals.len() ==> crate::crds_value::value_verified(#[trigger] vals[m]),
    ensures
        forall|j: int|
            0 <= j < spec_insert_all(s, vals, now).len() ==> crate::crds_value::value_verified(
                #[trigger] spec_insert_all(s, vals, now)[j].value,
            ),
{
    lemma_insert_all_members(s, vals, now);
    let out = spec_insert_all(s, vals, now);
    assert forall|j: int| 0 <= j < out.len() implies crate::crds_value::value_verified(
        #[trigger] out[j].value,
    ) by {
        if exists|k: int| 0 <= k < s.len() && #[trigger] out[j] == s[k] {
            let k = choose|k: int| 0 <= k < s.len() && #[trigger] out[j] == s[k];
        } else {
            let m = choose|m: int| 0 <= m < vals.len() && vals[m] == out[j].value;
        }
    };
}

/// The pacing entries young enough to keep at `now`.
pub open spec fn spec_purge_times(s: Seq<(Pubkey, u64)>, now: u64, timeout: u64) -> Seq<
    (Pubkey, u64),
>
    decreases s.len(),
{
    if s.len() == 0 {
        s
    } else {
        let rest = spec_purge_times(s.drop_last(), now, timeout);
        if s.last().1 + timeout >= now {
            rest.push(s.last())
        } else {
            rest
        }
    }
}

/// With unique labels, every gossip peer's identity finds exactly its own
/// record, whose gossip endpoint is valid.
pub proof fn lemma_gossip_peer_found(s: Seq<VersionedV>, self_id: Pubkey, j: int)
    requires
        forall|a: int, b: int|
            0 <= a < b < s.len() ==> crate::crds_value::label_of(#[trigger] s[a].value.data)
                != crate::crds_value::label_of(#[trigger] s[b].value.data),
        0 <= j < spec_gossip_peers(s, self_id).len(),
    ensures
        ({
            let c = spec_gossip_peers(s, self_id)[j];
            &&& find(s, CrdsValueLabel::ContactInfo(c.id)) matches Some(e) && e.value.data
                == crate::crds_value::CrdsDataV::ContactInfo(c)
            &&& c.gossip.spec_is_valid()
            &&& c.id != self_id
        }),
    decreases s.len(),
{
    if s.len() > 0 {
        let rest = spec_gossip_peers(s.drop_last(), self_id);
        assert(forall|k: int| 0 <= k < s.len() - 1 ==> #[trigger] s[k] == s.drop_last()[k]);
        if j < rest.len() {
            lemma_gossip_peer_found(s.drop_last(), self_id, j);
            let c = rest[j];
            crate::crds::lemma_find_index_char(s.drop_last(), CrdsValueLabel::ContactInfo(c.id));
            let i = crate::crds::find_index(s.drop_last(), CrdsValueLabel::ContactInfo(c.id));
            crate::crds::lemma_find_at(s, CrdsValueLabel::ContactInfo(c.id), i);
        } else {
            let c = spec_gossip_peers(s, self_id)[j];
            assert(s.last().value.data == crate::crds_value::CrdsDataV::ContactInfo(c));
            crate::crds::lemma_find_at(s, CrdsValueLabel::ContactInfo(c.id), s.len() - 1);
        }
    }
}

/// Inserting a list of values keeps every present label present.
pub proof fn lemma_insert_all_presence(
    s: Seq<VersionedV>,
    vals: Seq<CrdsValueV>,
    now: u64,
    l: CrdsValueLabel,
)
    requires
        find(s, l) is Some,
    ensures
        find(spec_insert_all(s, vals, now), l) is Some,
    decreases vals.len(),
{
    if vals.len() > 0 {
        crate::crds::lemma_insert_presence(s, vals[0], now, l);
        lemma_insert_all_presence(spec_insert(s, vals[0], now).0, vals.drop_first(), now, l);
    }
}

/// A filter that holds an item keeps holding it when bits are only set.
pub proof fn lemma_bloom_has_monotone(pre: BloomV, post: BloomV, item: crate::keys::HashVal)
    requires
        bloom_has(pre, item),
        post.keys == pre.keys,
        post.bits.len() == pre.bits.len(),
        forall|p: nat| crate::bloom::bit_set(pre.bits, p) ==> crate::bloom::bit_set(post.bits, p),
    ensures
        bloom_has(post, item),
{
    assert forall|i: int| 0 <= i < post.keys.len() implies crate::bloom::bit_set(
        post.bits,
        crate::bloom::bloom_pos(post, #[trigger] post.keys[i], item),
    ) by {
        assert(crate::bloom::bit_set(pre.bits, crate::bloom::bloom_pos(pre, pre.keys[i], item)));
        assert(crate::bloom::bloom_pos(post, post.keys[i], item) == crate::bloom::bloom_pos(
            pre,
            pre.keys[i],
            item,
        ));
    };
}

} // verus!
