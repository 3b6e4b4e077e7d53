use cluster_gossip::topology::{describe_data_plane, localize, Locality};
use std::collections::HashSet;

fn num_layers(nodes: u64, fanout: u64, hood_size: u64, grow: bool) -> u64 {
    describe_data_plane(nodes, fanout, hood_size, grow).0
}

#[test]
fn test_describe_data_plane() {
    // no nodes
    assert_eq!(num_layers(0, 200, 200, false), 0);

    // 1 node
    assert_eq!(num_layers(1, 200, 200, false), 1);

    // 10 nodes with fanout of 2 and hood size of 2
    assert_eq!(num_layers(10, 2, 2, false), 5);

    // fanout + 1 nodes with fanout of 2 and hood size of 2
    assert_eq!(num_layers(3, 2, 2, false), 2);

    // 10 nodes with fanout of 4 and hood size of 2 while growing
    assert_eq!(num_layers(10, 4, 2, true), 3);

    // A little more realistic
    assert_eq!(num_layers(100, 10, 10, false), 3);

    // A little more realistic with odd numbers
    assert_eq!(num_layers(103, 13, 13, false), 3);

    // larger
    let (layer_cnt, layer_indices) = describe_data_plane(10_000, 10, 10, false);
    assert_eq!(layer_cnt, 201);
    // distances between index values should be the same since we aren't growing.
    let capacity: u64 = 10 / 2 * 10;
    assert_eq!(layer_indices[1], 10);
    layer_indices[1..layer_indices.len()].chunks(2).for_each(|x| {
        if x.len() == 2 {
            assert_eq!(x[1] - x[0], capacity);
        }
    });

    // massive
    let (layer_cnt, layer_indices) = describe_data_plane(500_000, 200, 200, false);
    let capacity: u64 = 200 / 2 * 200;
    let cnt = 500_000 / capacity + 1;
    assert_eq!(layer_cnt, cnt);
    // distances between index values should be the same since we aren't growing.
    assert_eq!(layer_indices[1], 200);
    layer_indices[1..layer_indices.len()].chunks(2).for_each(|x| {
        if x.len() == 2 {
            assert_eq!(x[1] - x[0], capacity);
        }
    });
    let total_capacity = *layer_indices.last().unwrap();
    assert!(total_capacity >= 500_000);

    // massive with growth
    assert_eq!(num_layers(500_000, 200, 200, true), 3);
}

#[test]
fn test_localize() {
    // go for gold
    let (_, layer_indices) = describe_data_plane(500_000, 200, 200, false);
    let mut me: u64 = 0;
    let mut layer_ix: u64 = 0;
    let locality = localize(&layer_indices, 200, me);
    assert_eq!(locality.layer_ix, layer_ix);
    assert_eq!(
        locality.child_layer_bounds,
        Some((layer_indices[(layer_ix + 1) as usize], layer_indices[(layer_ix + 2) as usize]))
    );
    me = 201;
    layer_ix = 1;
    let locality = localize(&layer_indices, 200, me);
    assert_eq!(
        locality.layer_ix, layer_ix,
        "layer_indices[layer_ix] is actually {}",
        layer_indices[layer_ix as usize]
    );
    assert_eq!(
        locality.child_layer_bounds,
        Some((layer_indices[(layer_ix + 1) as usize], layer_indices[(layer_ix + 2) as usize]))
    );
    me = 20_201;
    layer_ix = 2;
    let locality = localize(&layer_indices, 200, me);
    assert_eq!(
        locality.layer_ix, layer_ix,
        "layer_indices[layer_ix] is actually {}",
        layer_indices[layer_ix as usize]
    );
    assert_eq!(
        locality.child_layer_bounds,
        Some((layer_indices[(layer_ix + 1) as usize], layer_indices[(layer_ix + 2) as usize]))
    );

    // test no child layer since last layer should have massive capacity
    let (_, layer_indices) = describe_data_plane(500_000, 200, 200, true);
    me = 20_201;
    layer_ix = 2;
    let locality = localize(&layer_indices, 200, me);
    assert_eq!(
        locality.layer_ix, layer_ix,
        "layer_indices[layer_ix] is actually {}",
        layer_indices[layer_ix as usize]
    );
    assert_eq!(locality.child_layer_bounds, None);
}

#[test]
fn test_localize_child_peer_overlap() {
    let (_, layer_indices) = describe_data_plane(500_000, 200, 200, false);
    let last_ix = layer_indices.len() - 1;
    // sample every 33 pairs to reduce test time
    for x in (0..layer_indices[last_ix - 2]).step_by(33) {
        let me_locality = localize(&layer_indices, 200, x);
        let buddy_locality = localize(&layer_indices, 200, x + 1);
        assert!(!me_locality.child_layer_peers.is_empty());
        assert!(!buddy_locality.child_layer_peers.is_empty());
        me_locality
            .child_layer_peers
            .iter()
            .zip(buddy_locality.child_layer_peers.iter())
            .for_each(|(x, y)| assert_ne!(x, y));
    }
}

#[test]
fn test_network_coverage() {
    // pretend to be each node in a scaled down network and make sure the set of all the broadcast peers
    // includes every node in the network.
    let (_, layer_indices) = describe_data_plane(25_000, 10, 10, false);
    let mut broadcast_set: HashSet<u64> = HashSet::new();
    for my_index in 0..25_000u64 {
        let my_locality = localize(&layer_indices, 10, my_index);
        broadcast_set.extend(my_locality.neighbor_bounds.0..my_locality.neighbor_bounds.1);
        broadcast_set.extend(my_locality.child_layer_peers);
    }

    for i in 0..25_000u64 {
        assert!(broadcast_set.contains(&i));
    }
    assert!(broadcast_set.contains(&(layer_indices.last().unwrap() - 1)));
    //sanity check for past total capacity.
    assert!(!broadcast_set.contains(layer_indices.last().unwrap()));
}

#[test]
fn localize_layer_zero_bounds() {
    let layer_indices: Vec<u64> = vec![0, 200, 20_200];
    let locality: Locality = localize(&layer_indices, 200, 0);
    assert_eq!(locality.layer_ix, 0);
    assert_eq!(locality.child_layer_bounds, Some((200, 20_200)));
    assert_eq!(locality.neighbor_bounds, (0, 200));
}
