use gossip_sim::active_set::PushActiveSet;
use gossip_sim::node::{make_gossip_cluster, get_crds_table, Config, Node, Rate};
use gossip_sim::received_cache::ReceivedCache;
use gossip_sim::router::Router;
use gossip_sim::stakes::{aggregate_stakes, Stakes};
use gossip_sim::active_set::stake_bucket;
use gossip_sim::node::sort_keys_by_stake;
use gossip_sim::{CrdsKey, Error, Packet, UpsertError};
use rand::SeedableRng;

fn rng(seed: u64) -> rand::rngs::StdRng {
    rand::rngs::StdRng::seed_from_u64(seed)
}

fn config() -> Config {
    Config {
        gossip_push_fanout: Rate { whole: 1, permille: 0 },
        gossip_push_wide_fanout: Rate { whole: 1, permille: 0 },
        rotate_active_set_rounds: 4,
        gossip_prune_min_ingress_nodes: 2,
        gossip_push_capacity: 1024,
        packet_drop_permille: 0,
        num_crds: 1,
        refresh_rate: Rate { whole: 0, permille: 0 },
        num_threads: 1,
        run_duration_millis: 0,
        warm_up_rounds: 0,
    }
}

fn stakes_of(pairs: &[(u64, u64)]) -> Stakes {
    aggregate_stakes(&pairs.to_vec())
}

#[test]
fn two_node_single_refresh() {
    let members = vec![(1u64, 100u64), (2u64, 100u64)];
    let mut cluster = make_gossip_cluster(&members);
    let stakes = stakes_of(&[(1, 100), (2, 100)]);
    let senders: Vec<_> = cluster
        .iter()
        .enumerate()
        .map(|(i, (_, s))| (members[i].0, s.clone()))
        .collect();
    let router = Router::new(senders, 0);
    let (_, sender_b) = &cluster[1];
    let key = CrdsKey { origin: 1, index: 0 };
    sender_b
        .send(Packet::Push { from: 1, key, ordinal: 5 })
        .unwrap();
    let b = &mut cluster[1].0;
    let mut r = rng(7);
    b.run_gossip(&mut r, &config(), &stakes, &router).unwrap();
    assert_eq!(b.table().get(key).unwrap().ordinal(), 5);
    assert_eq!(b.num_gossip_rounds(), 1);
}

#[test]
fn two_node_consume_counters() {
    let (sender, receiver) = crossbeam_channel::unbounded::<Packet>();
    let mut b = Node::new(2, 100, receiver);
    let key = CrdsKey { origin: 1, index: 0 };
    sender
        .send(Packet::Push { from: 1, key, ordinal: 5 })
        .unwrap();
    let out = b.consume_packets();
    assert_eq!(out.num_packets, 1);
    assert_eq!(out.num_duplicates, 0);
    assert_eq!(out.num_outdated, 0);
    assert_eq!(out.num_prunes, 0);
    assert_eq!(out.keys, vec![key]);
    assert_eq!(b.table().get(key).unwrap().ordinal(), 5);
}

#[test]
fn outdated_push_is_counted_and_recorded() {
    let (sender, receiver) = crossbeam_channel::unbounded::<Packet>();
    let mut b = Node::new(2, 100, receiver);
    let key = CrdsKey { origin: 1, index: 0 };
    sender
        .send(Packet::Push { from: 1, key, ordinal: 7 })
        .unwrap();
    b.consume_packets();
    // A stale ordinal from node 3 must not regress the table.
    sender
        .send(Packet::Push { from: 3, key, ordinal: 3 })
        .unwrap();
    let out = b.consume_packets();
    assert_eq!(b.table().get(key).unwrap().ordinal(), 7);
    assert_eq!(out.num_outdated, 1);
    assert_eq!(out.num_duplicates, 0);
    let stats = b.received_cache().stats_of(1, 3).unwrap();
    assert_eq!(stats.weight, u64::MAX);
    assert_eq!(stats.count, 1);
}

#[test]
fn duplicate_counting() {
    let (sender, receiver) = crossbeam_channel::unbounded::<Packet>();
    let mut b = Node::new(2, 100, receiver);
    let key = CrdsKey { origin: 1, index: 0 };
    sender
        .send(Packet::Push { from: 1, key, ordinal: 7 })
        .unwrap();
    b.consume_packets();
    for _ in 0..3 {
        sender
            .send(Packet::Push { from: 3, key, ordinal: 7 })
            .unwrap();
    }
    let out = b.consume_packets();
    assert_eq!(out.num_duplicates, 3);
    assert_eq!(b.table().get(key).unwrap().num_dups(), 3);
    assert_eq!(b.table().get(key).unwrap().ordinal(), 7);
}

#[test]
fn duplicate_count_saturates() {
    let (_sender, receiver) = crossbeam_channel::unbounded::<Packet>();
    let mut b = Node::new(2, 100, receiver);
    let key = CrdsKey { origin: 1, index: 0 };
    assert_eq!(b.upsert(key, 7), Ok(()));
    for i in 0..300u32 {
        let expected = if i < 254 { (i + 1) as u8 } else { 255 };
        assert_eq!(b.upsert(key, 7), Err(UpsertError::Duplicate(expected)));
    }
    assert_eq!(b.table().get(key).unwrap().num_dups(), 255);
}

#[test]
fn upsert_accept_and_outdated() {
    let (_sender, receiver) = crossbeam_channel::unbounded::<Packet>();
    let mut n = Node::new(2, 100, receiver);
    let key = CrdsKey { origin: 1, index: 0 };
    assert_eq!(n.upsert(key, 5), Ok(()));
    assert_eq!(n.upsert(key, 9), Ok(()));
    // Advancing the ordinal resets the duplicate count.
    assert_eq!(n.table().get(key).unwrap().num_dups(), 0);
    assert_eq!(n.upsert(key, 8), Err(UpsertError::Outdated));
    assert_eq!(n.table().get(key).unwrap().ordinal(), 9);
}

#[test]
fn prune_grouping_one_packet_per_peer() {
    // Origins 1 and 2 both deliver through a good peer 5 and a bad peer 6;
    // node 10 must send peer 6 one Prune packet listing both origins.
    let (sender_n, receiver_n) = crossbeam_channel::unbounded::<Packet>();
    let mut n = Node::new(10, 10, receiver_n);
    let (sender_p, receiver_p) = crossbeam_channel::unbounded::<Packet>();
    let router = Router::new(vec![(6, sender_p)], 0);
    let stakes = stakes_of(&[(10, 10), (5, 1_000_000), (6, 1)]);
    let mut cfg = config();
    cfg.gossip_prune_min_ingress_nodes = 1;
    for origin in [1u64, 2u64] {
        let key = CrdsKey { origin, index: 0 };
        sender_n
            .send(Packet::Push { from: 5, key, ordinal: 5 })
            .unwrap();
        sender_n
            .send(Packet::Push { from: 6, key, ordinal: 3 })
            .unwrap();
    }
    let out = n.consume_packets();
    assert_eq!(out.num_outdated, 2);
    let mut r = rng(3);
    n.send_prunes(&mut r, &vec![1, 2], &cfg, &stakes, &router)
        .unwrap();
    let packet = receiver_p.try_recv().unwrap();
    assert_eq!(packet, Packet::Prune { from: 10, origins: vec![1, 2] });
    assert!(receiver_p.try_recv().is_err());
}

#[test]
fn wide_vs_narrow_fanout() {
    // Own keys fan out up to 6 peers, relayed keys up to 2.
    let mut receivers = Vec::new();
    let mut senders = Vec::new();
    for id in 2u64..10u64 {
        let (s, r) = crossbeam_channel::unbounded::<Packet>();
        senders.push((id, s));
        receivers.push((id, r));
    }
    let router = Router::new(senders, 0);
    let mut pairs: Vec<(u64, u64)> = (2u64..10u64).map(|id| (id, 100)).collect();
    pairs.push((1, 100));
    let stakes = stakes_of(&pairs);
    let (sender_a, receiver_a) = crossbeam_channel::unbounded::<Packet>();
    let mut a = Node::new(1, 100, receiver_a);
    let mut cfg = config();
    cfg.gossip_push_fanout = Rate { whole: 2, permille: 0 };
    cfg.gossip_push_wide_fanout = Rate { whole: 6, permille: 0 };
    cfg.refresh_rate = Rate { whole: 1, permille: 0 };
    cfg.rotate_active_set_rounds = 4;
    let relayed = CrdsKey { origin: 2, index: 0 };
    sender_a
        .send(Packet::Push { from: 2, key: relayed, ordinal: 5 })
        .unwrap();
    let mut r = rng(11);
    a.run_gossip(&mut r, &cfg, &stakes, &router).unwrap();
    let own = CrdsKey { origin: 1, index: 0 };
    let mut own_pushes = 0;
    let mut relayed_pushes = 0;
    for (_, receiver) in &receivers {
        while let Ok(packet) = receiver.try_recv() {
            if let Packet::Push { key, .. } = packet {
                if key == own {
                    own_pushes += 1;
                } else if key == relayed {
                    relayed_pushes += 1;
                }
            }
        }
    }
    // size_per_bucket = 2 * 3 = 6, so six of the eight peers are active.
    assert_eq!(own_pushes, 6);
    assert_eq!(relayed_pushes, 2);
    // The node never pushed into its own inbound channel.
    let out = a.consume_packets();
    assert_eq!(out.num_packets, 0);
}

#[test]
fn upsert_is_deterministic() {
    let (_s1, r1) = crossbeam_channel::unbounded::<Packet>();
    let (_s2, r2) = crossbeam_channel::unbounded::<Packet>();
    let mut n1 = Node::new(2, 100, r1);
    let mut n2 = Node::new(2, 100, r2);
    let key = CrdsKey { origin: 1, index: 0 };
    for (k, o) in [(key, 5u64), (key, 9), (key, 9), (key, 3)] {
        assert_eq!(n1.upsert(k, o), n2.upsert(k, o));
    }
    assert_eq!(n1.table().get(key), n2.table().get(key));
}

#[test]
fn rotation_cadence() {
    let mut senders = Vec::new();
    let mut receivers = Vec::new();
    for id in 2u64..20u64 {
        let (s, r) = crossbeam_channel::unbounded::<Packet>();
        receivers.push(r);
        senders.push((id, s));
    }
    let router = Router::new(senders, 0);
    let mut pairs: Vec<(u64, u64)> = (2u64..20u64).map(|id| (id, 100 * id)).collect();
    pairs.push((1, 100));
    let stakes = stakes_of(&pairs);
    let (_sender_a, receiver_a) = crossbeam_channel::unbounded::<Packet>();
    let mut a = Node::new(1, 100, receiver_a);
    let mut cfg = config();
    cfg.rotate_active_set_rounds = 4;
    let mut r = rng(23);
    a.run_gossip(&mut r, &cfg, &stakes, &router).unwrap();
    let after_round_1 = a.active_set().get_nodes(1, 99, &stakes);
    assert!(!after_round_1.is_empty());
    for round in 2..=4 {
        a.run_gossip(&mut r, &cfg, &stakes, &router).unwrap();
        assert_eq!(a.num_gossip_rounds(), round);
        // No rotation in rounds 2, 3 and 4: same peers in the same order.
        assert_eq!(a.active_set().get_nodes(1, 99, &stakes), after_round_1);
    }
}

#[test]
fn convergence_without_loss() {
    let members: Vec<(u64, u64)> = (1u64..=4u64).map(|id| (id, 100 * id)).collect();
    let cluster = make_gossip_cluster(&members);
    let stakes = stakes_of(&members);
    let mut nodes = Vec::new();
    let mut senders = Vec::new();
    for (i, (node, sender)) in cluster.into_iter().enumerate() {
        senders.push((members[i].0, sender));
        nodes.push(node);
    }
    let router = Router::new(senders, 0);
    let mut cfg = config();
    cfg.gossip_push_fanout = Rate { whole: 3, permille: 0 };
    cfg.gossip_push_wide_fanout = Rate { whole: 3, permille: 0 };
    cfg.num_crds = 2;
    cfg.refresh_rate = Rate { whole: 1, permille: 0 };
    cfg.rotate_active_set_rounds = 2;
    cfg.gossip_prune_min_ingress_nodes = 3;
    let mut r = rng(42);
    for _ in 0..30 {
        for node in nodes.iter_mut() {
            node.run_gossip(&mut r, &cfg, &stakes, &router).unwrap();
        }
    }
    // A few quiet rounds flush the in-flight packets.
    cfg.refresh_rate = Rate { whole: 0, permille: 0 };
    for _ in 0..3 {
        for node in nodes.iter_mut() {
            node.run_gossip(&mut r, &cfg, &stakes, &router).unwrap();
        }
    }
    let merged = get_crds_table(&nodes);
    assert!(!merged.is_empty());
    for (key, ordinal) in &merged {
        for node in &nodes {
            let entry = node.table().get(*key).expect("node missing a key");
            assert_eq!(entry.ordinal(), *ordinal);
        }
    }
}

#[test]
fn router_unknown_destination() {
    let router = Router::new(Vec::new(), 0);
    let mut r = rng(1);
    let key = CrdsKey { origin: 1, index: 0 };
    let res = router.send(&mut r, 9, Packet::Push { from: 1, key, ordinal: 1 });
    assert_eq!(res, Err(Error::UnknownDestination(9)));
}

#[test]
fn router_channel_closed() {
    let (sender, receiver) = crossbeam_channel::unbounded::<Packet>();
    drop(receiver);
    let router = Router::new(vec![(9, sender)], 0);
    let mut r = rng(1);
    let key = CrdsKey { origin: 1, index: 0 };
    let res = router.send(&mut r, 9, Packet::Push { from: 1, key, ordinal: 1 });
    assert_eq!(res, Err(Error::ChannelClosed(9)));
}

#[test]
fn router_full_drop_rate_still_succeeds() {
    let (sender, receiver) = crossbeam_channel::unbounded::<Packet>();
    let router = Router::new(vec![(9, sender)], 1000);
    let mut r = rng(1);
    let key = CrdsKey { origin: 1, index: 0 };
    assert_eq!(router.send(&mut r, 9, Packet::Push { from: 1, key, ordinal: 1 }), Ok(()));
    // The packet was dropped, not delivered.
    assert!(receiver.try_recv().is_err());
}

#[test]
fn aggregate_stakes_sums_per_member() {
    let stakes = aggregate_stakes(&vec![(1u64, 5u64), (2, 7), (1, 3)]);
    assert_eq!(stakes.get(1), 8);
    assert_eq!(stakes.get(2), 7);
    assert_eq!(stakes.get(3), 0);
    assert_eq!(stakes.total(), 15);
    assert!(stakes.contains(1));
    assert!(!stakes.contains(3));
}

#[test]
fn stake_buckets_are_logarithmic() {
    assert_eq!(stake_bucket(0), 0);
    assert_eq!(stake_bucket(1), 0);
    assert_eq!(stake_bucket(2), 1);
    assert_eq!(stake_bucket(3), 1);
    assert_eq!(stake_bucket(4), 2);
    assert_eq!(stake_bucket(100), 6);
    assert_eq!(stake_bucket(1 << 24), 24);
    assert_eq!(stake_bucket(u64::MAX), 24);
}

#[test]
fn get_nodes_orders_by_stake_and_skips_pruned() {
    let stakes = stakes_of(&[(2, 10), (3, 1000), (4, 50)]);
    let mut active = PushActiveSet::new();
    let mut r = rng(5);
    active.rotate(&mut r, 10, &vec![2, 3, 4], &stakes);
    assert_eq!(active.get_nodes(1, 99, &stakes), vec![3, 4, 2]);
    active.prune(3, &vec![7]);
    assert_eq!(active.get_nodes(1, 7, &stakes), vec![4, 2]);
    // Pruning the same origins again changes nothing observable.
    active.prune(3, &vec![7]);
    assert_eq!(active.get_nodes(1, 7, &stakes), vec![4, 2]);
    assert_eq!(active.get_nodes(1, 8, &stakes), vec![3, 4, 2]);
    // The node itself is never yielded.
    assert_eq!(active.get_nodes(3, 8, &stakes), vec![4, 2]);
}

#[test]
fn received_cache_counters_and_eviction() {
    let mut cache = ReceivedCache::new(2);
    cache.record(1, 5, 0);
    cache.record(1, 5, 4);
    let stats = cache.stats_of(1, 5).unwrap();
    assert_eq!(stats.count, 2);
    assert_eq!(stats.weight, 4);
    assert!(cache.stats_of(1, 6).is_none());
    // Two more origins overflow the capacity; origin 1 is evicted first.
    cache.record(2, 5, 0);
    cache.record(3, 5, 0);
    assert!(cache.stats_of(1, 5).is_none());
    assert!(cache.stats_of(2, 5).is_some());
    assert!(cache.stats_of(3, 5).is_some());
}

#[test]
fn received_cache_prune_keeps_best_peers() {
    let mut cache = ReceivedCache::new(16);
    let stakes = stakes_of(&[(10, 10), (5, 1_000_000), (6, 1)]);
    // Peer 5 delivers fresh values, peer 6 delivers junk.
    cache.record(1, 5, 0);
    cache.record(1, 6, u64::MAX);
    let pruned = cache.prune(10, 1, 15, 1, &stakes);
    assert_eq!(pruned, vec![6]);
    // Below the ingress floor nothing is pruned.
    let pruned = cache.prune(10, 1, 15, 3, &stakes);
    assert!(pruned.is_empty());
    // An unknown origin yields nothing.
    let pruned = cache.prune(10, 2, 15, 1, &stakes);
    assert!(pruned.is_empty());
}

#[test]
fn make_push_uses_current_table_entry() {
    let (_s, r) = crossbeam_channel::unbounded::<Packet>();
    let mut n = Node::new(2, 100, r);
    let key = CrdsKey { origin: 1, index: 0 };
    assert_eq!(n.make_push(key), None);
    n.upsert(key, 5).unwrap();
    assert_eq!(
        n.make_push(key),
        Some(Packet::Push { from: 2, key, ordinal: 5 })
    );
}

#[test]
fn sort_keys_by_stake_orders_descending() {
    let stakes = stakes_of(&[(1, 10), (2, 1000), (3, 50)]);
    let keys = vec![
        CrdsKey { origin: 1, index: 0 },
        CrdsKey { origin: 2, index: 0 },
        CrdsKey { origin: 3, index: 1 },
    ];
    let sorted = sort_keys_by_stake(keys, &stakes);
    assert_eq!(
        sorted,
        vec![
            CrdsKey { origin: 2, index: 0 },
            CrdsKey { origin: 3, index: 1 },
            CrdsKey { origin: 1, index: 0 },
        ]
    );
}

#[test]
fn plan_prunes_groups_by_peer() {
    let (sender_n, receiver_n) = crossbeam_channel::unbounded::<Packet>();
    let mut n = Node::new(10, 10, receiver_n);
    let stakes = stakes_of(&[(10, 10), (5, 1_000_000), (6, 1)]);
    let mut cfg = config();
    cfg.gossip_prune_min_ingress_nodes = 1;
    for origin in [1u64, 2u64] {
        let key = CrdsKey { origin, index: 0 };
        sender_n
            .send(Packet::Push { from: 5, key, ordinal: 5 })
            .unwrap();
        sender_n
            .send(Packet::Push { from: 6, key, ordinal: 3 })
            .unwrap();
    }
    n.consume_packets();
    let plan = n.plan_prunes(&vec![1, 2], &cfg, &stakes);
    assert_eq!(plan, vec![(6, vec![1, 2])]);
}
