use std::collections::HashSet;

use load_balancing::cluster::ClusterData;
use load_balancing::policy::{rotated_from, DefaultPolicy, RoutingInfo};
use load_balancing::ring::Token;
use load_balancing::topology::{Consistency, Node, SerialConsistency, Strategy};

struct ExpectedGroupsBuilder {
    groups: Vec<HashSet<u16>>,
}

impl ExpectedGroupsBuilder {
    fn new() -> Self {
        Self { groups: Vec::new() }
    }
    fn group(mut self, group: impl IntoIterator<Item = u16>) -> Self {
        self.groups.push(group.into_iter().collect());
        self
    }
    fn build(self) -> Vec<HashSet<u16>> {
        self.groups
    }
}

fn assert_proper_grouping_in_plan(got: &Vec<u16>, expected_groups: &Vec<HashSet<u16>>) {
    // `got` must be exactly as long as all the groups together
    let combined_groups_len: usize = expected_groups.iter().map(|s| s.len()).sum();
    assert_eq!(got.len(), combined_groups_len);

    // split `got` into groups of the expected sizes and compare them
    let mut got = got.iter();
    let got_groups = expected_groups
        .iter()
        .map(|s| (&mut got).take(s.len()).copied().collect::<HashSet<u16>>())
        .collect::<Vec<_>>();

    assert_eq!(&got_groups, expected_groups);
}

#[test]
fn test_assert_proper_grouping_in_plan_good() {
    let got = vec![1u16, 2, 3, 4, 5];
    let expected_groups = ExpectedGroupsBuilder::new()
        .group([1])
        .group([3, 2, 4])
        .group([5])
        .build();

    assert_proper_grouping_in_plan(&got, &expected_groups);
}

#[test]
#[should_panic]
fn test_assert_proper_grouping_in_plan_too_many_nodes_in_the_end() {
    let got = vec![1u16, 2, 3, 4, 5, 6];
    let expected_groups = ExpectedGroupsBuilder::new()
        .group([1])
        .group([3, 2, 4])
        .group([5])
        .build();

    assert_proper_grouping_in_plan(&got, &expected_groups);
}

#[test]
#[should_panic]
fn test_assert_proper_grouping_in_plan_too_many_nodes_in_the_middle() {
    let got = vec![1u16, 2, 6, 3, 4, 5];
    let expected_groups = ExpectedGroupsBuilder::new()
        .group([1])
        .group([3, 2, 4])
        .group([5])
        .build();

    assert_proper_grouping_in_plan(&got, &expected_groups);
}

#[test]
#[should_panic]
fn test_assert_proper_grouping_in_plan_missing_node() {
    let got = vec![1u16, 2, 3, 4];
    let expected_groups = ExpectedGroupsBuilder::new()
        .group([1])
        .group([3, 2, 4])
        .group([5])
        .build();

    assert_proper_grouping_in_plan(&got, &expected_groups);
}

fn node(dc: &str, port: u16, enabled: bool) -> Node {
    Node {
        port,
        datacenter: Some(dc.to_string()),
        rack: None,
        enabled,
    }
}

/// Five nodes in two datacenters, each owning the token `port * 100`.
fn two_dc_cluster(enabled: [bool; 5], keyspaces: Vec<(String, Strategy)>) -> ClusterData {
    let layout = [("eu", 1u16), ("eu", 2), ("eu", 3), ("us", 4), ("us", 5)];
    let nodes: Vec<Node> = layout
        .iter()
        .zip(enabled.iter())
        .map(|((dc, port), on)| node(dc, *port, *on))
        .collect();
    let ring: Vec<(Token, usize)> = (0..5)
        .map(|i| (Token { value: (i as i64 + 1) * 100 }, i))
        .collect();
    ClusterData::new(nodes, ring, keyspaces)
}

fn nts_keyspace() -> Vec<(String, Strategy)> {
    vec![(
        "ks".to_string(),
        Strategy::NetworkTopologyStrategy {
            datacenter_repfactors: vec![("eu".to_string(), 2), ("us".to_string(), 1)],
        },
    )]
}

fn query(consistency: Consistency, token: Option<i64>, keyspace: Option<&str>) -> RoutingInfo {
    RoutingInfo {
        consistency,
        serial_consistency: None,
        token: token.map(|value| Token { value }),
        keyspace: keyspace.map(|k| k.to_string()),
    }
}

fn ports(cluster: &ClusterData, plan: &[usize]) -> Vec<u16> {
    plan.iter().map(|i| cluster.node(*i).port).collect()
}

fn dc_of(cluster: &ClusterData, i: usize) -> String {
    cluster.node(i).datacenter.clone().unwrap()
}

#[test]
fn token_unaware_plan_stays_in_preferred_dc() {
    let cluster = two_dc_cluster([true; 5], Vec::new());
    let policy = DefaultPolicy::builder()
        .prefer_datacenter("eu".to_string())
        .build();
    let q = query(Consistency::Quorum, None, None);
    for _ in 0..20 {
        let got = ports(&cluster, &policy.fallback(&q, &cluster));
        let expected = ExpectedGroupsBuilder::new().group([1, 2, 3]).build();
        assert_proper_grouping_in_plan(&got, &expected);
    }
}

#[test]
fn token_aware_pick_returns_sole_local_replica() {
    let cluster = two_dc_cluster([true; 5], nts_keyspace());
    let policy = DefaultPolicy::builder()
        .prefer_datacenter("us".to_string())
        .build();
    let q = query(Consistency::Quorum, Some(350), Some("ks"));
    for _ in 0..50 {
        let picked = policy.pick(&q, &cluster).unwrap();
        assert_eq!(cluster.node(picked).port, 4);
    }
}

#[test]
fn token_aware_plan_starts_with_local_replica() {
    let cluster = two_dc_cluster([true; 5], nts_keyspace());
    let policy = DefaultPolicy::builder()
        .prefer_datacenter("us".to_string())
        .build();
    let q = query(Consistency::Quorum, Some(350), Some("ks"));
    let got = ports(&cluster, &policy.fallback(&q, &cluster));
    let expected = ExpectedGroupsBuilder::new().group([4]).group([5]).build();
    assert_proper_grouping_in_plan(&got, &expected);
}

#[test]
fn failover_plan_groups_local_then_remote() {
    let cluster = two_dc_cluster([true; 5], nts_keyspace());
    let policy = DefaultPolicy::builder()
        .prefer_datacenter("us".to_string())
        .permit_dc_failover(true)
        .build();
    // local replica 4, then remote replicas 4 and the two eu replicas of 350
    // (dedup drops 4), then local node 5, then the remaining eu node.
    let q = query(Consistency::Quorum, Some(350), Some("ks"));
    let got = ports(&cluster, &policy.fallback(&q, &cluster));
    let expected = ExpectedGroupsBuilder::new()
        .group([4])
        .group([1, 2])
        .group([5])
        .group([3])
        .build();
    assert_proper_grouping_in_plan(&got, &expected);
}

#[test]
fn fallback_has_no_duplicates_and_only_enabled_nodes() {
    let cluster = two_dc_cluster([true, false, true, true, false], nts_keyspace());
    let policy = DefaultPolicy::builder()
        .prefer_datacenter("eu".to_string())
        .permit_dc_failover(true)
        .build();
    let q = query(Consistency::One, Some(150), Some("ks"));
    for _ in 0..20 {
        let plan = policy.fallback(&q, &cluster);
        let distinct: HashSet<usize> = plan.iter().copied().collect();
        assert_eq!(distinct.len(), plan.len());
        assert!(plan.iter().all(|i| cluster.node(*i).enabled));
        let got: HashSet<u16> = ports(&cluster, &plan).into_iter().collect();
        assert_eq!(got, HashSet::from([1, 3, 4]));
    }
}

#[test]
fn local_consistency_never_leaves_preferred_dc() {
    let cluster = two_dc_cluster([false, false, false, true, true], nts_keyspace());
    let policy = DefaultPolicy::builder()
        .prefer_datacenter("eu".to_string())
        .build();
    let q = query(Consistency::LocalQuorum, Some(250), Some("ks"));
    for _ in 0..20 {
        let picked = policy.pick(&q, &cluster).unwrap();
        assert_eq!(dc_of(&cluster, picked), "eu");
        assert!(policy.fallback(&q, &cluster).is_empty());
    }
}

#[test]
fn failover_pick_goes_remote_when_local_nodes_disabled() {
    let cluster = two_dc_cluster([false, false, false, true, true], nts_keyspace());
    let policy = DefaultPolicy::builder()
        .prefer_datacenter("eu".to_string())
        .permit_dc_failover(true)
        .build();
    let q = query(Consistency::Quorum, Some(250), Some("ks"));
    for _ in 0..20 {
        let picked = policy.pick(&q, &cluster).unwrap();
        assert_eq!(dc_of(&cluster, picked), "us");
    }
}

#[test]
fn local_serial_blocks_failover() {
    let cluster = two_dc_cluster([false, false, false, true, true], nts_keyspace());
    let policy = DefaultPolicy::builder()
        .prefer_datacenter("eu".to_string())
        .permit_dc_failover(true)
        .build();
    let mut q = query(Consistency::Quorum, Some(250), Some("ks"));
    q.serial_consistency = Some(SerialConsistency::LocalSerial);
    let picked = policy.pick(&q, &cluster).unwrap();
    assert_eq!(dc_of(&cluster, picked), "eu");
}

#[test]
fn all_disabled_pick_returns_first_local_node() {
    let cluster = two_dc_cluster([false; 5], Vec::new());
    let policy = DefaultPolicy::builder()
        .prefer_datacenter("eu".to_string())
        .build();
    let q = query(Consistency::Quorum, None, None);
    let picked = policy.pick(&q, &cluster).unwrap();
    assert_eq!(cluster.node(picked).port, 1);
}

#[test]
fn unknown_preferred_dc_gives_nothing() {
    let cluster = two_dc_cluster([true; 5], Vec::new());
    let policy = DefaultPolicy::builder()
        .prefer_datacenter("asia".to_string())
        .build();
    let q = query(Consistency::Quorum, None, None);
    assert_eq!(policy.pick(&q, &cluster), None);
    assert!(policy.fallback(&q, &cluster).is_empty());
}

#[test]
fn fallback_twice_same_members() {
    let cluster = two_dc_cluster([true; 5], nts_keyspace());
    let policy = DefaultPolicy::builder()
        .prefer_datacenter("eu".to_string())
        .permit_dc_failover(true)
        .build();
    let q = query(Consistency::Quorum, Some(150), Some("ks"));
    let a = ports(&cluster, &policy.fallback(&q, &cluster));
    let b = ports(&cluster, &policy.fallback(&q, &cluster));
    let expected = ExpectedGroupsBuilder::new()
        .group([2, 3])
        .group([4])
        .group([1])
        .group([5])
        .build();
    assert_proper_grouping_in_plan(&a, &expected);
    assert_proper_grouping_in_plan(&b, &expected);
}

#[test]
fn fallback_with_given_draws_is_exact() {
    let cluster = two_dc_cluster([true; 5], Vec::new());
    let policy = DefaultPolicy::builder().build();
    let q = query(Consistency::Quorum, None, None);
    // no token: the rotated node tier from position 2, then ring order
    let plan = policy.fallback_with(&q, &cluster, &vec![], &vec![], 7, 0);
    assert_eq!(ports(&cluster, &plan), vec![3, 4, 5, 1, 2]);
}

#[test]
fn fallback_with_keeps_first_occurrence() {
    let cluster = two_dc_cluster([true; 5], nts_keyspace());
    let policy = DefaultPolicy::builder()
        .prefer_datacenter("eu".to_string())
        .build();
    let q = query(Consistency::Quorum, Some(150), Some("ks"));
    let plan = policy.fallback_with(&q, &cluster, &vec![2, 1], &vec![], 1, 0);
    assert_eq!(ports(&cluster, &plan), vec![3, 2, 1]);
}

#[test]
fn token_awareness_can_be_disabled() {
    let cluster = two_dc_cluster([true; 5], nts_keyspace());
    let policy = DefaultPolicy::builder()
        .prefer_datacenter("us".to_string())
        .token_aware(false)
        .build();
    let q = query(Consistency::Quorum, Some(350), Some("ks"));
    let plan = policy.fallback_with(&q, &cluster, &vec![4], &vec![], 1, 0);
    assert_eq!(ports(&cluster, &plan), vec![5, 4]);
}

#[test]
fn builder_defaults_and_name() {
    let cluster = two_dc_cluster([true; 5], nts_keyspace());
    let built = DefaultPolicy::builder().build();
    let default = DefaultPolicy::default();
    assert_eq!(built.name(), "DefaultPolicy");
    // token aware by default, no preferred datacenter: every replica is local
    let q = query(Consistency::Quorum, Some(350), Some("ks"));
    for policy in [&built, &default] {
        let got = ports(&cluster, &policy.fallback(&q, &cluster));
        let expected = ExpectedGroupsBuilder::new()
            .group([1, 2, 4])
            .group([3, 5])
            .build();
        assert_proper_grouping_in_plan(&got, &expected);
    }
}

#[test]
fn rotation_reads_circularly() {
    assert_eq!(rotated_from(&vec![10, 20, 30, 40], 1), vec![20, 30, 40, 10]);
    assert_eq!(rotated_from(&vec![10, 20, 30, 40], 0), vec![10, 20, 30, 40]);
    assert_eq!(rotated_from(&vec![], 0), Vec::<usize>::new());
}

#[test]
fn cluster_racks_shape_local_replicas() {
    // "eu" has racks a, a, b: factor 2 skips the second node of rack a
    let racks = ["a", "a", "b"];
    let nodes: Vec<Node> = (0..3)
        .map(|i| Node {
            port: i as u16 + 1,
            datacenter: Some("eu".to_string()),
            rack: Some(racks[i].to_string()),
            enabled: true,
        })
        .collect();
    let ring: Vec<(Token, usize)> = (0..3)
        .map(|i| (Token { value: (i as i64 + 1) * 100 }, i))
        .collect();
    let keyspaces = vec![(
        "ks".to_string(),
        Strategy::NetworkTopologyStrategy {
            datacenter_repfactors: vec![("eu".to_string(), 2)],
        },
    )];
    let cluster = ClusterData::new(nodes, ring, keyspaces);
    let policy = DefaultPolicy::builder()
        .prefer_datacenter("eu".to_string())
        .build();
    let q = query(Consistency::Quorum, Some(50), Some("ks"));
    let got = ports(&cluster, &policy.fallback(&q, &cluster));
    let expected = ExpectedGroupsBuilder::new().group([1, 3]).group([2]).build();
    assert_proper_grouping_in_plan(&got, &expected);
}

#[test]
fn replica_order_is_shuffled() {
    let keyspaces = vec![(
        "simple".to_string(),
        Strategy::SimpleStrategy { replication_factor: 3 },
    )];
    let cluster = two_dc_cluster([true; 5], keyspaces);
    let policy = DefaultPolicy::builder().build();
    let q = query(Consistency::Quorum, Some(150), Some("simple"));
    let mut first: HashSet<u16> = HashSet::new();
    for _ in 0..100 {
        let got = ports(&cluster, &policy.fallback(&q, &cluster));
        let expected = ExpectedGroupsBuilder::new()
            .group([2, 3, 4])
            .group([1, 5])
            .build();
        assert_proper_grouping_in_plan(&got, &expected);
        first.insert(got[0]);
    }
    assert!(first.len() > 1);
}

#[test]
fn pick_without_token_spreads_over_nodes() {
    let cluster = two_dc_cluster([true; 5], Vec::new());
    let policy = DefaultPolicy::builder().build();
    let q = query(Consistency::Quorum, None, None);
    let mut picked: HashSet<u16> = HashSet::new();
    for _ in 0..100 {
        picked.insert(cluster.node(policy.pick(&q, &cluster).unwrap()).port);
    }
    assert!(picked.len() > 1);
    assert!(picked.iter().all(|p| (1..=5).contains(p)));
}
