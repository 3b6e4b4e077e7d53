use cluster_gossip::addr::SocketAddress;
use cluster_gossip::cluster_info::{Blob, ClusterInfo, ClusterInfoError, NodeInfo};
use cluster_gossip::contact_info::ContactInfo;
use cluster_gossip::crds_value::{CrdsValueLabel, Transaction};
use cluster_gossip::keys::{timestamp, NodeKeypair};

fn localhost_node_info(kp: &NodeKeypair, now: u64) -> NodeInfo {
    ContactInfo::new_localhost(kp.pubkey(), now)
}

#[test]
fn test_cluster_info_new() {
    let kp = NodeKeypair::new();
    let d = localhost_node_info(&kp, timestamp());
    let cluster_info = ClusterInfo::new(d);
    assert_eq!(d.id, cluster_info.my_data().id);
}

#[test]
fn insert_info_test() {
    let kp = NodeKeypair::new();
    let d = localhost_node_info(&kp, timestamp());
    let mut cluster_info = ClusterInfo::new(d);
    let kp2 = NodeKeypair::new();
    let d = localhost_node_info(&kp2, timestamp());
    let label = CrdsValueLabel::ContactInfo(d.id);
    cluster_info.insert_info(d);
    assert!(cluster_info.gossip.crds.lookup(&label).is_some());
}

#[test]
fn window_index_request() {
    let kp = NodeKeypair::new();
    let me = localhost_node_info(&kp, timestamp());
    let mut cluster_info = ClusterInfo::new(me);
    let rv = cluster_info.window_index_request(0);
    assert!(matches!(rv, Err(ClusterInfoError::NoPeers)));

    let gossip_addr = SocketAddress::new_v4(127, 0, 0, 1, 1234);
    let nxt = ContactInfo::new(
        NodeKeypair::new().pubkey(),
        gossip_addr,
        SocketAddress::new_v4(127, 0, 0, 1, 1235),
        SocketAddress::new_v4(127, 0, 0, 1, 1236),
        SocketAddress::new_v4(127, 0, 0, 1, 1237),
        SocketAddress::new_v4(127, 0, 0, 1, 1238),
        SocketAddress::new_v4(127, 0, 0, 1, 1239),
        0,
    );
    cluster_info.insert_info(nxt);
    let rv = cluster_info.window_index_request(0).unwrap();
    assert_eq!(nxt.gossip, gossip_addr);
    assert_eq!(rv.0, nxt.gossip);

    let gossip_addr2 = SocketAddress::new_v4(127, 0, 0, 2, 1234);
    let nxt2 = ContactInfo::new(
        NodeKeypair::new().pubkey(),
        gossip_addr2,
        SocketAddress::new_v4(127, 0, 0, 1, 1235),
        SocketAddress::new_v4(127, 0, 0, 1, 1236),
        SocketAddress::new_v4(127, 0, 0, 1, 1237),
        SocketAddress::new_v4(127, 0, 0, 1, 1238),
        SocketAddress::new_v4(127, 0, 0, 1, 1239),
        0,
    );
    cluster_info.insert_info(nxt2);
    let mut one = false;
    let mut two = false;
    while !one || !two {
        //this randomly picks an option, so eventually it should pick both
        let rv = cluster_info.window_index_request(0).unwrap();
        if rv.0 == gossip_addr {
            one = true;
        }
        if rv.0 == gossip_addr2 {
            two = true;
        }
    }
    assert!(one && two);
}

/// test window requests respond with the right blob, and do not overrun
#[test]
fn run_window_request() {
    let kp = NodeKeypair::new();
    let me = ContactInfo::new(
        kp.pubkey(),
        SocketAddress::new_v4(127, 0, 0, 1, 1234),
        SocketAddress::new_v4(127, 0, 0, 1, 1235),
        SocketAddress::new_v4(127, 0, 0, 1, 1236),
        SocketAddress::new_v4(127, 0, 0, 1, 1237),
        SocketAddress::new_v4(127, 0, 0, 1, 1238),
        SocketAddress::new_v4(127, 0, 0, 1, 1239),
        0,
    );
    let from_addr = SocketAddress::unspecified();

    // An empty ledger answers nothing.
    let empty: Vec<Option<Blob>> = Vec::new();
    let rv = ClusterInfo::run_window_request(&me, &from_addr, &empty, &me, 0);
    assert!(rv.is_empty());

    // A blob stored at slot 2 with window index 1 is found and readdressed.
    let data_size: usize = 1;
    let blob = Blob {
        slot: 2,
        index: 1,
        id: me.id,
        addr: SocketAddress::unspecified(),
        data: vec![7u8; data_size],
    };
    let slot_blobs: Vec<Option<Blob>> = vec![None, None, Some(blob)];

    let rv = ClusterInfo::run_window_request(&me, &from_addr, &slot_blobs, &me, 1);
    assert!(!rv.is_empty());
    let v = &rv[0];
    assert_eq!(v.index, 1);
    assert_eq!(v.slot, 2);
    assert_eq!(v.data.len(), data_size);
    assert_eq!(v.addr, from_addr);
}

#[test]
fn test_default_leader() {
    let kp = NodeKeypair::new();
    let node_info = localhost_node_info(&kp, 0);
    let mut cluster_info = ClusterInfo::new(node_info);
    let entry_addr = SocketAddress::new_v4(127, 0, 0, 1, 1239);
    let network_entry_point = ContactInfo::new_entry_point(&entry_addr);
    cluster_info.insert_info(network_entry_point);
    assert!(cluster_info.leader_data().is_none());
}

//test that all cluster_info objects only generate signed messages
//when constructed with keypairs
#[test]
fn test_gossip_signature_verification() {
    //create new cluster info, leader, and peer
    let keypair = NodeKeypair::new();
    let peer_keypair = NodeKeypair::new();
    let leader_keypair = NodeKeypair::new();
    let node_info = localhost_node_info(&keypair, 0);
    let leader = localhost_node_info(&leader_keypair, 0);
    let peer = localhost_node_info(&peer_keypair, 0);
    let mut cluster_info = ClusterInfo::new_with_keypair(node_info, keypair);
    cluster_info.set_leader(leader.id);
    cluster_info.insert_info(peer);
    //check that all types of gossip messages are signed correctly
    let (_, _, vals) = cluster_info.gossip.new_push_messages(timestamp());
    // there should be some pushes ready
    assert!(vals.len() > 0);
    for v in &vals {
        assert!(v.verify());
    }

    let (_, _, val) = cluster_info.gossip.new_pull_request(timestamp()).unwrap();
    assert!(val.verify());
}

#[test]
fn test_cluster_spy_gossip() {
    //check that gossip doesn't try to push to invalid addresses
    let kp = NodeKeypair::new();
    let node_info = localhost_node_info(&kp, timestamp());
    // A spy advertises no usable endpoints at all.
    let spy_key = NodeKeypair::new();
    let unspec = SocketAddress::unspecified();
    let spy = ContactInfo::new(
        spy_key.pubkey(),
        unspec,
        unspec,
        unspec,
        unspec,
        unspec,
        unspec,
        timestamp(),
    );
    let mut cluster_info = ClusterInfo::new(node_info);
    cluster_info.insert_info(spy);
    cluster_info.gossip.refresh_push_active_set();
    let reqs = cluster_info.gossip_request();
    //assert none of the addrs are invalid.
    for (addr, _) in &reqs {
        assert!(addr.is_valid());
    }
}

#[test]
fn test_push_vote() {
    let keys = NodeKeypair::new();
    let now = timestamp();
    let node_info = localhost_node_info(&keys, 0);
    let mut cluster_info = ClusterInfo::new(node_info);

    // make sure empty crds is handled correctly
    let (votes, max_ts) = cluster_info.get_votes(now);
    assert_eq!(votes.len(), 0);
    assert_eq!(max_ts, now);

    // add a vote
    let tx = Transaction::new(vec![1, 2, 3, 4]);
    let expected = vec![1u8, 2, 3, 4];
    cluster_info.push_vote(tx);

    // -1 to make sure that the clock is strictly lower then when insert occurred
    let (votes, max_ts) = cluster_info.get_votes(now - 1);
    assert_eq!(votes.len(), 1);
    assert_eq!(votes[0].data, expected);
    assert!(max_ts >= now - 1);

    // make sure timestamp filter works
    let (votes, new_max_ts) = cluster_info.get_votes(max_ts);
    assert_eq!(votes.len(), 0);
    assert_eq!(max_ts, new_max_ts);
}
