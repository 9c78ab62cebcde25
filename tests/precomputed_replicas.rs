use load_balancing::precomputed::PrecomputedReplicas;
use load_balancing::replication::{DatacenterRing, ReplicationInfo};
use load_balancing::ring::{Token, TokenRing};
use load_balancing::topology::{local_consistency, Consistency, SerialConsistency, Strategy};

fn ring_of(entries: &[(i64, usize)]) -> TokenRing<usize> {
    TokenRing::new(
        entries
            .iter()
            .map(|(t, n)| (Token { value: *t }, *n))
            .collect(),
    )
}

/// Nodes 0..6 on a global ring of tokens 100..600; "dc1" holds the even
/// nodes on two racks (node 2 alone on the second), "dc2" the odd ones on
/// one rack.
fn replication_info() -> ReplicationInfo {
    ReplicationInfo {
        global_ring: ring_of(&[(100, 0), (200, 1), (300, 2), (400, 3), (500, 4), (600, 5)]),
        datacenters: vec![
            DatacenterRing {
                name: "dc1".to_string(),
                ring: ring_of(&[(100, 0), (300, 2), (500, 4)]),
                rack_count: 2,
            },
            DatacenterRing {
                name: "dc2".to_string(),
                ring: ring_of(&[(200, 1), (400, 3), (600, 5)]),
                rack_count: 1,
            },
        ],
        node_racks: vec![0, 0, 1, 0, 0, 0],
    }
}

fn strategies() -> Vec<(String, Strategy)> {
    vec![
        ("a".to_string(), Strategy::SimpleStrategy { replication_factor: 3 }),
        ("b".to_string(), Strategy::SimpleStrategy { replication_factor: 2 }),
        (
            "c".to_string(),
            Strategy::NetworkTopologyStrategy {
                datacenter_repfactors: vec![("dc1".to_string(), 2), ("dc2".to_string(), 2)],
            },
        ),
        (
            "d".to_string(),
            Strategy::NetworkTopologyStrategy {
                datacenter_repfactors: vec![("dc1".to_string(), 1), ("dc2".to_string(), 3)],
            },
        ),
        ("e".to_string(), Strategy::LocalStrategy),
        ("f".to_string(), Strategy::Other { name: "Custom".to_string() }),
    ]
}

fn t(value: i64) -> Token {
    Token { value }
}

#[test]
fn simple_lookup_truncates_longest_list() {
    let p = PrecomputedReplicas::compute(&replication_info(), &strategies());
    assert_eq!(p.get_precomputed_simple_strategy_replicas(t(150), 3), Some(vec![1, 2, 3]));
    assert_eq!(p.get_precomputed_simple_strategy_replicas(t(150), 2), Some(vec![1, 2]));
    assert_eq!(p.get_precomputed_simple_strategy_replicas(t(150), 1), Some(vec![1]));
    assert_eq!(p.get_precomputed_simple_strategy_replicas(t(150), 0), Some(vec![]));
}

#[test]
fn simple_lookup_wraps_round_the_ring() {
    let p = PrecomputedReplicas::compute(&replication_info(), &strategies());
    assert_eq!(p.get_precomputed_simple_strategy_replicas(t(550), 3), Some(vec![5, 0, 1]));
    assert_eq!(p.get_precomputed_simple_strategy_replicas(t(601), 3), Some(vec![0, 1, 2]));
    assert_eq!(p.get_precomputed_simple_strategy_replicas(t(-5), 2), Some(vec![0, 1]));
}

#[test]
fn simple_lookup_prefixes_grow_with_factor() {
    let p = PrecomputedReplicas::compute(&replication_info(), &strategies());
    for token in [50, 100, 250, 599, 700] {
        let mut previous: Vec<usize> = Vec::new();
        for rf in 0..=3 {
            let list = p.get_precomputed_simple_strategy_replicas(t(token), rf).unwrap();
            assert!(list.starts_with(&previous));
            previous = list;
        }
    }
}

#[test]
fn simple_lookup_above_max_is_unavailable() {
    let p = PrecomputedReplicas::compute(&replication_info(), &strategies());
    for token in [50, 100, 250, 599, 700] {
        assert_eq!(p.get_precomputed_simple_strategy_replicas(t(token), 4), None);
        assert_eq!(p.get_precomputed_simple_strategy_replicas(t(token), 100), None);
    }
}

#[test]
fn simple_lookup_floor_is_one() {
    let p = PrecomputedReplicas::compute(&replication_info(), &Vec::new());
    assert_eq!(p.get_precomputed_simple_strategy_replicas(t(250), 1), Some(vec![2]));
    assert_eq!(p.get_precomputed_simple_strategy_replicas(t(250), 2), None);
}

#[test]
fn network_lookup_compressed_ring() {
    let p = PrecomputedReplicas::compute(&replication_info(), &strategies());
    // dc1 has two racks: factors 1 and 2 share one ring computed for 2
    let dc1 = "dc1".to_string();
    assert_eq!(p.get_precomputed_network_strategy_replicas(t(250), &dc1, 2), Some(vec![2, 4]));
    assert_eq!(p.get_precomputed_network_strategy_replicas(t(250), &dc1, 1), Some(vec![2]));
    assert_eq!(p.get_precomputed_network_strategy_replicas(t(250), &dc1, 3), None);
    // from node 4 the walk skips node 0, whose rack is already used
    assert_eq!(p.get_precomputed_network_strategy_replicas(t(450), &dc1, 2), Some(vec![4, 2]));
    assert_eq!(p.get_precomputed_network_strategy_replicas(t(450), &dc1, 1), Some(vec![4]));
}

#[test]
fn rack_aware_lists_stop_being_prefixes_above_rack_count() {
    let info = replication_info();
    let dc1 = "dc1".to_string();
    assert_eq!(info.nts_replicas_in_datacenter(t(450), &dc1, 2), vec![4, 2]);
    // one repeat is allowed for factor 3, and node 0 takes it before node 2
    assert_eq!(info.nts_replicas_in_datacenter(t(450), &dc1, 3), vec![4, 0, 2]);
    assert_eq!(info.nts_replicas_in_datacenter(t(450), &"dc9".to_string(), 3), Vec::<usize>::new());
}

#[test]
fn network_lookup_above_rack_count() {
    let p = PrecomputedReplicas::compute(&replication_info(), &strategies());
    // dc2 has one rack: factors 2 and 3 get rings of their own, 1 was never asked
    let dc2 = "dc2".to_string();
    assert_eq!(p.get_precomputed_network_strategy_replicas(t(450), &dc2, 2), Some(vec![5, 1]));
    assert_eq!(p.get_precomputed_network_strategy_replicas(t(450), &dc2, 3), Some(vec![5, 1, 3]));
    assert_eq!(p.get_precomputed_network_strategy_replicas(t(450), &dc2, 1), None);
    assert_eq!(p.get_precomputed_network_strategy_replicas(t(450), &dc2, 4), None);
}

#[test]
fn network_lookup_unknown_datacenter() {
    let p = PrecomputedReplicas::compute(&replication_info(), &strategies());
    let dc3 = "dc3".to_string();
    assert_eq!(p.get_precomputed_network_strategy_replicas(t(250), &dc3, 1), None);
}

#[test]
fn replica_walk_skips_repeated_nodes() {
    // node 0 owns two tokens
    let info = ReplicationInfo {
        global_ring: ring_of(&[(100, 0), (200, 0), (300, 1), (400, 2)]),
        datacenters: Vec::new(),
        node_racks: vec![0, 0, 0],
    };
    assert_eq!(info.simple_strategy_replicas(t(50), 2), vec![0, 1]);
    assert_eq!(info.simple_strategy_replicas(t(350), 5), vec![2, 0, 1]);
}

#[test]
fn empty_ring_gives_no_replicas() {
    let info = ReplicationInfo {
        global_ring: ring_of(&[]),
        datacenters: Vec::new(),
        node_racks: Vec::new(),
    };
    let p = PrecomputedReplicas::compute(&info, &strategies());
    assert_eq!(p.get_precomputed_simple_strategy_replicas(t(10), 1), None);
    assert_eq!(info.simple_strategy_replicas(t(10), 3), Vec::<usize>::new());
}

#[test]
fn ring_owner_lookup() {
    let ring = ring_of(&[(100, 7), (200, 8), (300, 9)]);
    assert_eq!(ring.get_elem_for_token(t(100)), Some(&7));
    assert_eq!(ring.get_elem_for_token(t(101)), Some(&8));
    assert_eq!(ring.get_elem_for_token(t(301)), Some(&7));
    assert_eq!(ring_of(&[]).get_elem_for_token(t(1)), None);
}

#[test]
fn local_consistency_levels() {
    assert!(local_consistency(Consistency::LocalQuorum, None));
    assert!(local_consistency(Consistency::LocalOne, None));
    assert!(local_consistency(Consistency::Quorum, Some(SerialConsistency::LocalSerial)));
    assert!(!local_consistency(Consistency::Quorum, Some(SerialConsistency::Serial)));
    assert!(!local_consistency(Consistency::LocalSerial, None));
    assert!(!local_consistency(Consistency::EachQuorum, None));
}
