use cluster_gossip::addr::SocketAddress;
use cluster_gossip::bloom::Bloom;
use cluster_gossip::cluster_info::{broadcast_orders, ClusterInfo, ClusterInfoError};
use cluster_gossip::codec::{deserialize_protocol, protocol_is_wf, serialize_protocol};
use cluster_gossip::contact_info::ContactInfo;
use cluster_gossip::crds::{Crds, CrdsError};
use cluster_gossip::crds_gossip_error::CrdsGossipError;
use cluster_gossip::crds_value::{CrdsData, CrdsValue, CrdsValueLabel, LeaderId, Transaction, Vote};
use cluster_gossip::keys::{timestamp, HashVal, NodeKeypair};
use cluster_gossip::protocol::Protocol;

fn localhost(kp: &NodeKeypair) -> ContactInfo {
    ContactInfo::new_localhost(kp.pubkey(), timestamp())
}

fn signed_contact_value(kp: &NodeKeypair) -> CrdsValue {
    let mut v = CrdsValue::new_unsigned(CrdsData::ContactInfo(localhost(kp)));
    v.sign(kp.key_bytes());
    v
}

#[test]
fn codec_round_trip_push_message() {
    let kp = NodeKeypair::new();
    let mut vote_value = CrdsValue::new_unsigned(CrdsData::Vote(Vote::new(
        kp.pubkey(),
        Transaction::new(vec![9, 8, 7]),
        42,
    )));
    vote_value.sign(kp.key_bytes());
    let contact_value = signed_contact_value(&kp);
    let msg = Protocol::PushMessage(kp.pubkey(), vec![vote_value, contact_value]);
    assert!(protocol_is_wf(&msg));
    let bytes = serialize_protocol(&msg);
    assert!(bytes.len() <= cluster_gossip::cluster_info::BLOB_SIZE);
    let back = deserialize_protocol(&bytes).expect("round trip");
    match back {
        Protocol::PushMessage(from, values) => {
            assert_eq!(from, kp.pubkey());
            assert_eq!(values.len(), 2);
            match (&values[0].data, values[0].verify()) {
                (CrdsData::Vote(v), ok) => {
                    assert!(ok);
                    assert_eq!(v.transaction.data, vec![9, 8, 7]);
                    assert_eq!(v.wallclock, 42);
                },
                _ => panic!("wrong variant"),
            }
            assert!(values[1].verify());
        },
        _ => panic!("wrong message"),
    }
}

#[test]
fn codec_round_trip_pull_request() {
    let kp = NodeKeypair::new();
    let caller = signed_contact_value(&kp);
    let mut bloom = Bloom::random(5);
    bloom.add(&HashVal { a: 11, b: 22 });
    let msg = Protocol::PullRequest(bloom, caller);
    let bytes = serialize_protocol(&msg);
    let back = deserialize_protocol(&bytes).expect("round trip");
    match back {
        Protocol::PullRequest(filter, value) => {
            assert!(filter.contains(&HashVal { a: 11, b: 22 }));
            assert!(value.verify());
        },
        _ => panic!("wrong message"),
    }
}

#[test]
fn codec_rejects_garbage_and_trailing_bytes() {
    assert!(deserialize_protocol(&vec![]).is_none());
    assert!(deserialize_protocol(&vec![9, 9, 9]).is_none());
    let kp = NodeKeypair::new();
    let msg = Protocol::RequestWindowIndex(localhost(&kp), 3);
    let mut bytes = serialize_protocol(&msg);
    bytes.push(0);
    assert!(deserialize_protocol(&bytes).is_none());
}

#[test]
fn bloom_never_forgets() {
    let mut bloom = Bloom::random(100);
    let h1 = HashVal { a: 1, b: 2 };
    let h2 = HashVal { a: 3, b: 4 };
    assert!(!bloom.contains(&h1));
    bloom.add(&h1);
    assert!(bloom.contains(&h1));
    bloom.add(&h2);
    assert!(bloom.contains(&h1));
    assert!(bloom.contains(&h2));
}

#[test]
fn crds_insert_newer_wallclock_wins() {
    let mut crds = Crds::new();
    let kp = NodeKeypair::new();
    let id = kp.pubkey();
    let mk = |wallclock: u64| {
        let info = ContactInfo::new_localhost(id, wallclock);
        CrdsValue::new_unsigned(CrdsData::ContactInfo(info))
    };
    assert!(matches!(crds.insert(mk(5), 100), Ok(None)));
    // Strictly newer wallclock displaces and returns the old entry.
    assert!(matches!(crds.insert(mk(10), 101), Ok(Some(_))));
    // Older wallclock is refused.
    assert!(matches!(crds.insert(mk(7), 102), Err(CrdsError::DuplicateOrOlder)));
    let stored = crds.lookup(&CrdsValueLabel::ContactInfo(id)).unwrap();
    assert_eq!(stored.value.wallclock(), 10);
    assert_eq!(stored.local_timestamp, 101);
}

#[test]
fn crds_purge_drops_stale_entries() {
    let mut crds = Crds::new();
    let kp_old = NodeKeypair::new();
    let kp_new = NodeKeypair::new();
    let old_label = CrdsValueLabel::ContactInfo(kp_old.pubkey());
    let new_label = CrdsValueLabel::ContactInfo(kp_new.pubkey());
    let old_value =
        CrdsValue::new_unsigned(CrdsData::ContactInfo(ContactInfo::new_localhost(kp_old.pubkey(), 1)));
    let new_value =
        CrdsValue::new_unsigned(CrdsData::ContactInfo(ContactInfo::new_localhost(kp_new.pubkey(), 1)));
    crds.insert(old_value, 0).unwrap();
    crds.insert(new_value, 9_000).unwrap();
    // timeout 15s: at now = 20_000 the entry from t=0 is stale, t=9000 is not.
    crds.purge(20_000, 15_000);
    assert!(crds.lookup(&old_label).is_none());
    assert!(crds.lookup(&new_label).is_some());
}

#[test]
fn cluster_purge_respects_the_timeout_for_every_record() {
    let kp = NodeKeypair::new();
    let mut cluster_info = ClusterInfo::new(localhost(&kp));
    let other = NodeKeypair::new();
    cluster_info.insert_info(localhost(&other));
    // A purge at the present keeps both fresh records.
    cluster_info.purge(timestamp());
    assert!(cluster_info.lookup(kp.pubkey()).is_some());
    assert!(cluster_info.lookup(other.pubkey()).is_some());
    // A purge far past the timeout drops everything, the own record included.
    let far_future = timestamp() + 1_000_000_000;
    cluster_info.purge(far_future);
    assert!(cluster_info.lookup(other.pubkey()).is_none());
    assert!(cluster_info.lookup(kp.pubkey()).is_none());
}

#[test]
fn prune_message_error_cases() {
    let kp = NodeKeypair::new();
    let mut cluster_info = ClusterInfo::new(localhost(&kp));
    let other = NodeKeypair::new().pubkey();
    let prunes = vec![other];
    let now = timestamp();
    // Addressed to someone else.
    let r = cluster_info.gossip.process_prune_msg(other, other, &prunes, now, now);
    assert_eq!(r, Err(CrdsGossipError::BadPruneDestination));
    // Addressed here but too old.
    let r = cluster_info.gossip.process_prune_msg(other, kp.pubkey(), &prunes, 0, 100_000);
    assert_eq!(r, Err(CrdsGossipError::PruneMessageTimeout));
    // Fresh and addressed here.
    let r = cluster_info.gossip.process_prune_msg(other, kp.pubkey(), &prunes, now, now);
    assert_eq!(r, Ok(()));
}

#[test]
fn pull_flow_stores_caller_and_response() {
    let a_kp = NodeKeypair::new();
    let b_kp = NodeKeypair::new();
    let mut a = ClusterInfo::new(localhost(&a_kp));
    let mut b = ClusterInfo::new(localhost(&b_kp));
    a.insert_info(localhost(&b_kp));
    let now = timestamp();
    let (peer, filter, self_info) = a.gossip.new_pull_request(now).unwrap();
    assert_eq!(peer, b_kp.pubkey());
    // B serves the request and thereby learns A's record.
    let _response = b.gossip.process_pull_request(self_info, &filter, now);
    assert!(b.lookup(a_kp.pubkey()).is_some());
    // A merges a response carrying B's signed record.
    let bv = signed_contact_value(&b_kp);
    let _ = a.gossip.process_pull_response(b_kp.pubkey(), &vec![bv], now);
    assert!(a.lookup(b_kp.pubkey()).is_some());
}

#[test]
fn sort_by_stake_orders_ascending() {
    let kps: Vec<NodeKeypair> = (0..3).map(|_| NodeKeypair::new()).collect();
    let peers: Vec<ContactInfo> = kps.iter().map(localhost).collect();
    let stakes = vec![5u64, 1, 3];
    let sorted = ClusterInfo::sort_by_stake(&peers, &stakes);
    assert_eq!(sorted.len(), 3);
    assert_eq!(sorted[0].0, 1);
    assert_eq!(sorted[1].0, 3);
    assert_eq!(sorted[2].0, 5);
    assert_eq!(sorted[0].1.id, peers[1].id);
    assert_eq!(sorted[1].1.id, peers[2].id);
    assert_eq!(sorted[2].1.id, peers[0].id);
}

#[test]
fn broadcast_orders_rotate_and_cover() {
    let kps: Vec<NodeKeypair> = (0..3).map(|_| NodeKeypair::new()).collect();
    let table: Vec<ContactInfo> = kps.iter().map(localhost).collect();
    let empty: Vec<ContactInfo> = Vec::new();
    assert!(matches!(broadcast_orders(false, &empty, 4), Err(ClusterInfoError::NoPeers)));

    let orders = broadcast_orders(false, &table, 4).unwrap();
    assert_eq!(orders.len(), 4);
    for (i, (blob_ix, slots)) in orders.iter().enumerate() {
        assert_eq!(*blob_ix, i);
        assert_eq!(slots.len(), 1);
        assert!(slots[0] < table.len());
    }
    // Consecutive blobs rotate through consecutive slots.
    for w in orders.windows(2) {
        assert_eq!((w[0].1[0] + 1) % table.len(), w[1].1[0]);
    }

    let orders = broadcast_orders(true, &table, 4).unwrap();
    assert_eq!(orders.len(), 5);
    assert_eq!(orders[4].0, 3);
    assert_eq!(orders[4].1, vec![0, 1, 2]);
}

#[test]
fn top_leader_is_most_named() {
    let me = NodeKeypair::new();
    let mut cluster_info = ClusterInfo::new(localhost(&me));
    let cand_a = NodeKeypair::new();
    let cand_b = NodeKeypair::new();
    cluster_info.insert_info(localhost(&cand_a));
    cluster_info.insert_info(localhost(&cand_b));
    // Two opinions name A, one names B.
    let now = timestamp();
    let voters: Vec<NodeKeypair> = (0..3).map(|_| NodeKeypair::new()).collect();
    let named = [cand_a.pubkey(), cand_a.pubkey(), cand_b.pubkey()];
    let mut values = Vec::new();
    for (kp, leader) in voters.iter().zip(named.iter()) {
        let mut v = CrdsValue::new_unsigned(CrdsData::LeaderId(LeaderId::new(
            kp.pubkey(),
            *leader,
            now,
        )));
        v.sign(kp.key_bytes());
        values.push(v);
    }
    let _ = cluster_info.gossip.process_push_message(&values, now);
    let top = cluster_info.get_gossip_top_leader().expect("a leader");
    assert_eq!(top.id, cand_a.pubkey());
}

#[test]
fn handle_blob_answers_window_request() {
    let a_kp = NodeKeypair::new();
    let b_kp = NodeKeypair::new();
    let mut a = ClusterInfo::new(localhost(&a_kp));
    let b_info = localhost(&b_kp);
    let msg = Protocol::RequestWindowIndex(b_info, 7);
    let bytes = serialize_protocol(&msg);
    let from_addr = SocketAddress::new_v4(10, 0, 0, 9, 4242);
    let (replies, window) = a.handle_blob(from_addr, &bytes);
    assert!(replies.is_empty());
    let w = window.expect("a repair request");
    assert_eq!(w.index, 7);
    assert_eq!(w.from.id, b_kp.pubkey());
    assert_eq!(w.reply_to, from_addr);
    // The requester's record was learned in passing.
    assert!(a.lookup(b_kp.pubkey()).is_some());
}

#[test]
fn pull_request_without_peers() {
    let kp = NodeKeypair::new();
    let cluster_info = ClusterInfo::new(localhost(&kp));
    let r = cluster_info.gossip.new_pull_request(timestamp());
    assert!(matches!(r, Err(CrdsGossipError::NoPeers)));
}

#[test]
fn equal_wallclock_ties_converge() {
    // Two votes under one label with equal wallclocks: whichever order two
    // nodes see them in, the hash tie-break leaves both with the same value.
    let kp = NodeKeypair::new();
    let mk = |payload: u8| {
        let mut v = CrdsValue::new_unsigned(CrdsData::Vote(Vote::new(
            kp.pubkey(),
            Transaction::new(vec![payload]),
            77,
        )));
        v.sign(kp.key_bytes());
        v
    };
    let mut one = Crds::new();
    one.insert(mk(1), 10).unwrap();
    let _ = one.insert(mk(2), 11);
    let mut two = Crds::new();
    two.insert(mk(2), 10).unwrap();
    let _ = two.insert(mk(1), 11);
    let label = CrdsValueLabel::Vote(kp.pubkey());
    let a = one.lookup(&label).unwrap();
    let b = two.lookup(&label).unwrap();
    let (CrdsData::Vote(va), CrdsData::Vote(vb)) = (&a.value.data, &b.value.data) else {
        panic!("wrong variant");
    };
    assert_eq!(va.transaction.data, vb.transaction.data);
}

#[test]
fn retransmit_rewrites_identity_and_lists_tvu_addrs() {
    let kp = NodeKeypair::new();
    let other = NodeKeypair::new();
    let mut cluster_info = ClusterInfo::new(localhost(&kp));
    cluster_info.insert_info(localhost(&other));
    let blob = cluster_gossip::cluster_info::Blob {
        slot: 1,
        index: 2,
        id: other.pubkey(),
        addr: SocketAddress::unspecified(),
        data: vec![5, 6],
    };
    let peers = cluster_info.retransmit_peers();
    assert_eq!(peers.len(), 1);
    let (out, addrs) = cluster_info.retransmit_to(&peers, &blob);
    assert_eq!(out.id, kp.pubkey());
    assert_eq!(out.data, vec![5, 6]);
    assert_eq!(addrs.len(), 1);
    assert_eq!(addrs[0], peers[0].tvu);
}

#[test]
fn gossip_round_emits_to_known_peer() {
    let kp = NodeKeypair::new();
    let other = NodeKeypair::new();
    let mut cluster_info = ClusterInfo::new(localhost(&kp));
    cluster_info.insert_info(localhost(&other));
    cluster_info.gossip.refresh_push_active_set();
    let reqs = cluster_info.gossip_request();
    assert!(!reqs.is_empty());
    for (addr, msg) in &reqs {
        assert!(addr.is_valid());
        assert!(protocol_is_wf(msg));
    }
}

#[test]
fn malformed_datagram_changes_nothing() {
    let kp = NodeKeypair::new();
    let other = NodeKeypair::new();
    let mut cluster_info = ClusterInfo::new(localhost(&kp));
    cluster_info.insert_info(localhost(&other));
    let before = cluster_info.gossip.crds.len();
    let (replies, window) = cluster_info.handle_blob(SocketAddress::new_v4(10, 0, 0, 1, 9), &vec![7, 7, 7]);
    assert!(replies.is_empty());
    assert!(window.is_none());
    assert_eq!(cluster_info.gossip.crds.len(), before);
}

#[test]
fn leader_data_follows_the_opinion() {
    let kp = NodeKeypair::new();
    let leader_kp = NodeKeypair::new();
    let mut cluster_info = ClusterInfo::new(localhost(&kp));
    // No opinion yet: no leader data.
    assert!(cluster_info.leader_data().is_none());
    // An opinion without a stored record: still none.
    cluster_info.set_leader(leader_kp.pubkey());
    assert!(cluster_info.leader_data().is_none());
    // With the leader's record stored, its contact comes back.
    cluster_info.insert_info(localhost(&leader_kp));
    let ld = cluster_info.leader_data().expect("leader contact");
    assert_eq!(ld.id, leader_kp.pubkey());
}

#[test]
fn prune_data_sign_verify_round_trip() {
    let kp = NodeKeypair::new();
    let other = NodeKeypair::new().pubkey();
    let mut prune = cluster_gossip::protocol::PruneData {
        pubkey: kp.pubkey(),
        prunes: vec![other],
        signature: cluster_gossip::keys::Signature { a: 0, b: 0, c: 0, d: 0 },
        destination: other,
        wallclock: 9,
    };
    assert!(!prune.verify());
    prune.sign(kp.key_bytes());
    assert!(prune.verify());
}
