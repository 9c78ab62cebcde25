//! The default load balancing policy: datacenter-aware and token-aware node
//! selection, with datacenter failover for queries whose consistency allows it.

use vstd::prelude::*;
use crate::cluster::{in_dc, ClusterData};
use crate::random::{random_index, shuffled, unique};
use crate::ring::{dedup, rotated, Token};
use crate::topology::{
    is_local_consistency, local_consistency, Consistency, Node, SerialConsistency, Strategy,
};

verus! {

/// Whether a node counts as alive. For now this is whether it is enabled;
/// reachability is meant to join it.
pub open spec fn alive(node: Node) -> bool {
    node.enabled
}

/// What the query tells about routing.
pub struct RoutingInfo {
    pub consistency: Consistency,
    pub serial_consistency: Option<SerialConsistency>,
    pub token: Option<Token>,
    pub keyspace: Option<String>,
}

/// The query's token with the strategy of its keyspace.
struct TokenWithStrategy<'a> {
    strategy: &'a Strategy,
    token: Token,
}

/// What the policy derives from a query.
struct ProcessedRoutingInfo<'a> {
    token_with_strategy: Option<TokenWithStrategy<'a>>,
    /// True if LOCAL_ONE, LOCAL_QUORUM or LOCAL_SERIAL was requested.
    local_consistency: bool,
}

/// The default load balancing policy. It can be configured to prefer a
/// datacenter and to be token-aware; datacenter failover for queries with a
/// non-local consistency can be permitted.
#[derive(Debug)]
pub struct DefaultPolicy {
    preferred_datacenter: Option<String>,
    is_token_aware: bool,
    permit_dc_failover: bool,
}

/// The options of a `DefaultPolicy` before it is built.
#[derive(Clone, Debug)]
pub struct DefaultPolicyBuilder {
    preferred_datacenter: Option<String>,
    is_token_aware: bool,
    permit_dc_failover: bool,
}

/// The name of a datacenter, as its characters.
pub open spec fn dc_view(dc: Option<String>) -> Option<Seq<char>> {
    match dc {
        Some(d) => Some(d@),
        None => None,
    }
}

/// Whether node `i` of `cluster` exists and passes the filter: alive, or
/// merely enabled when `live_only` is false.
pub open spec fn passes(cluster: ClusterData, i: usize, live_only: bool) -> bool {
    i < cluster.nodes().len() && if live_only {
        alive(cluster.nodes()[i as int])
    } else {
        cluster.nodes()[i as int].enabled
    }
}

/// The elements of `s` that pass the filter, in order.
pub open spec fn passing(cluster: ClusterData, s: Seq<usize>, live_only: bool) -> Seq<usize> {
    s.filter(|i: usize| passes(cluster, i, live_only))
}

impl DefaultPolicy {
    pub closed spec fn preferred(&self) -> Option<Seq<char>> {
        dc_view(self.preferred_datacenter)
    }

    pub closed spec fn token_aware_spec(&self) -> bool {
        self.is_token_aware
    }

    pub closed spec fn failover_permitted(&self) -> bool {
        self.permit_dc_failover
    }

    /// The query's token and keyspace strategy, when the policy is
    /// token-aware and the query names both a token and a known keyspace.
    pub open spec fn token_and_strategy(&self, query: RoutingInfo, cluster: ClusterData) -> Option<
        (i64, Strategy),
    > {
        if !self.token_aware_spec() {
            None
        } else {
            match (query.token, query.keyspace) {
                (Some(t), Some(ks)) => {
                    let k = crate::ring::name_index(cluster.keyspaces(), ks@);
                    if k < 0 {
                        None
                    } else {
                        Some((t.value, cluster.keyspaces()[k].1))
                    }
                },
                _ => None,
            }
        }
    }

    /// Whether nodes outside the preferred datacenter may serve the query.
    pub open spec fn failover_possible(&self, query: RoutingInfo) -> bool {
        self.preferred().is_some() && self.failover_permitted() && !is_local_consistency(
            query.consistency,
            query.serial_consistency,
        )
    }

    /// The nodes of the preferred datacenter, or all nodes when none is
    /// preferred; none when the preferred datacenter is unknown.
    pub open spec fn preferred_nodes(&self, cluster: ClusterData) -> Seq<usize> {
        match self.preferred() {
            Some(d) => match cluster.nodes_in_dc(d) {
                Some(l) => l,
                None => Seq::empty(),
            },
            None => cluster.all_nodes(),
        }
    }

    /// The replicas of the query's token, in the preferred datacenter when
    /// `local` holds; none for a query without token and strategy.
    pub open spec fn replica_candidates(
        &self,
        query: RoutingInfo,
        cluster: ClusterData,
        local: bool,
    ) -> Seq<usize> {
        match self.token_and_strategy(query, cluster) {
            None => Seq::empty(),
            Some((t, s)) => cluster.replica_set(
                t,
                s,
                if local {
                    self.preferred()
                } else {
                    None
                },
            ),
        }
    }

    /// Alive local replicas.
    pub open spec fn local_live_replicas(&self, query: RoutingInfo, cluster: ClusterData) -> Seq<
        usize,
    > {
        passing(cluster, self.replica_candidates(query, cluster, true), true)
    }

    /// Alive replicas anywhere.
    pub open spec fn all_live_replicas(&self, query: RoutingInfo, cluster: ClusterData) -> Seq<
        usize,
    > {
        passing(cluster, self.replica_candidates(query, cluster, false), true)
    }

    /// What `pick` may return: a member of the first tier that has one.
    pub open spec fn pick_ok(&self, query: RoutingInfo, cluster: ClusterData, r: Option<usize>) -> bool {
        let fo = self.failover_possible(query);
        let lr = self.local_live_replicas(query, cluster);
        let ar = self.all_live_replicas(query, cluster);
        let pn = self.preferred_nodes(cluster);
        let an = cluster.all_nodes();
        if lr.len() > 0 {
            r.is_some() && lr.contains(r.unwrap())
        } else if fo && ar.len() > 0 {
            r.is_some() && ar.contains(r.unwrap())
        } else if passing(cluster, pn, true).len() > 0 {
            r.is_some() && passing(cluster, pn, true).contains(r.unwrap())
        } else if fo && passing(cluster, an, true).len() > 0 {
            r.is_some() && passing(cluster, an, true).contains(r.unwrap())
        } else if passing(cluster, pn, false).len() > 0 {
            r.is_some() && passing(cluster, pn, false).contains(r.unwrap())
        } else if fo && passing(cluster, an, false).len() > 0 {
            r.is_some() && passing(cluster, an, false).contains(r.unwrap())
        } else if pn.len() > 0 {
            r == Some(pn[0])
        } else {
            r.is_none()
        }
    }

    /// The replicas that open a plan: the local ones in `local_order`, then,
    /// with failover, the others in `remote_order`; none without a token.
    pub open spec fn replica_tier(
        &self,
        query: RoutingInfo,
        cluster: ClusterData,
        local_order: Seq<usize>,
        remote_order: Seq<usize>,
    ) -> Seq<usize> {
        if self.token_and_strategy(query, cluster).is_some() {
            local_order + if self.failover_possible(query) {
                remote_order
            } else {
                Seq::empty()
            }
        } else {
            Seq::empty()
        }
    }

    /// The plan `fallback` makes from given draws: `local_order` and
    /// `remote_order` stand for the shuffled replica tiers, `local_start` and
    /// `all_start` for the starting points of the rotated node tiers.
    pub open spec fn plan(
        &self,
        query: RoutingInfo,
        cluster: ClusterData,
        local_order: Seq<usize>,
        remote_order: Seq<usize>,
        local_start: int,
        all_start: int,
    ) -> Seq<usize> {
        let fo = self.failover_possible(query);
        let pn = self.preferred_nodes(cluster);
        let an = cluster.all_nodes();
        let replicas = self.replica_tier(query, cluster, local_order, remote_order);
        dedup(
            replicas + passing(cluster, rotated(pn, local_start), true) + (if fo {
                passing(cluster, rotated(an, all_start), true)
            } else {
                Seq::empty()
            }) + passing(cluster, pn, false) + (if fo {
                passing(cluster, an, false)
            } else {
                Seq::empty()
            }),
        )
    }

    /// What `fallback` may return: the plan of some shuffle of each replica
    /// tier and some starting points of the rotations.
    pub open spec fn fallback_ok(&self, query: RoutingInfo, cluster: ClusterData, r: Seq<usize>) -> bool {
        exists|lo: Seq<usize>, ro: Seq<usize>, s1: int, s2: int|
            #![trigger self.plan(query, cluster, lo, ro, s1, s2)]
            lo.to_multiset() == self.local_live_replicas(query, cluster).to_multiset()
                && ro.to_multiset() == self.all_live_replicas(query, cluster).to_multiset() && 0
                <= s1 && (s1 < self.preferred_nodes(cluster).len() || s1 == 0) && 0 <= s2 && (s2
                < cluster.all_nodes().len() || s2 == 0) && r == self.plan(
                query,
                cluster,
                lo,
                ro,
                s1,
                s2,
            )
    }
}

/// A starting point `s` brought into `0..n`; 0 when `n` is 0.
pub open spec fn reduce(s: usize, n: nat) -> int {
    if n == 0 {
        0
    } else {
        (s as int) % (n as int)
    }
}

pub proof fn lemma_passing_contains(cluster: ClusterData, s: Seq<usize>, live_only: bool, x: usize)
    ensures
        passing(cluster, s, live_only).contains(x) <==> (s.contains(x) && passes(
            cluster,
            x,
            live_only,
        )),
    decreases s.len(),
{
    reveal(Seq::filter);
    if s.len() > 0 {
        lemma_passing_contains(cluster, s.drop_last(), live_only, x);
        let p = passing(cluster, s.drop_last(), live_only);
        let q = passing(cluster, s, live_only);
        if q.contains(x) {
            let k = choose|k: int| 0 <= k < q.len() && q[k] == x;
            if k < p.len() {
                assert(p[k] == x);
                let j = choose|j: int| 0 <= j < s.drop_last().len() && s.drop_last()[j] == x;
                assert(s[j] == x);
            } else {
                assert(s[s.len() - 1] == x);
            }
        }
        if s.contains(x) && passes(cluster, x, live_only) {
            let j = choose|j: int| 0 <= j < s.len() && s[j] == x;
            if j < s.len() - 1 {
                assert(s.drop_last()[j] == x);
                let k = choose|k: int| 0 <= k < p.len() && p[k] == x;
                assert(q[k] == x);
            } else {
                assert(q[q.len() - 1] == x);
            }
        }
    }
}

/// A rotation holds the same elements.
pub proof fn lemma_rotated_contains(s: Seq<usize>, p: int, x: usize)
    requires
        0 <= p < s.len() || (p == 0 && s.len() == 0),
    ensures
        rotated(s, p).contains(x) <==> s.contains(x),
{
    let r = rotated(s, p);
    if r.contains(x) {
        let j = choose|j: int| 0 <= j < r.len() && r[j] == x;
        if p + j < s.len() {
            assert(s[p + j] == x);
        } else {
            assert(s[p + j - s.len()] == x);
        }
    }
    if s.contains(x) {
        let k = choose|k: int| 0 <= k < s.len() && s[k] == x;
        if k >= p {
            assert(r[k - p] == x);
        } else {
            assert(r[k + s.len() - p] == x);
        }
    }
}

/// Whether the node counts as alive.
fn is_alive(node: &Node) -> (r: bool)
    ensures
        r == alive(*node),
{
    node.is_enabled()
}

/// The elements of `v` that pass the filter, in order.
fn filter_nodes(cluster: &ClusterData, v: &Vec<usize>, live_only: bool) -> (r: Vec<usize>)
    ensures
        r@ == passing(*cluster, v@, live_only),
{
    let mut out: Vec<usize> = Vec::new();
    let mut i: usize = 0;
    while i < v.len()
        invariant
            i <= v@.len(),
            out@ == passing(*cluster, v@.take(i as int), live_only),
        decreases v@.len() - i,
    {
        let x = v[i];
        let keep = if x < cluster.nodes_ref().len() {
            let node = cluster.node(x);
            if live_only {
                is_alive(node)
            } else {
                node.is_enabled()
            }
        } else {
            false
        };
        proof {
            assert(v@.take(i + 1).drop_last() =~= v@.take(i as int));
            reveal(Seq::filter);
        }
        if keep {
            out.push(x);
        }
        i = i + 1;
    }
    assert(v@.take(v@.len() as int) =~= v@);
    out
}

/// `nodes` read circularly from position `start`.
pub fn rotated_from(nodes: &Vec<usize>, start: usize) -> (r: Vec<usize>)
    requires
        start < nodes@.len() || start == 0,
    ensures
        r@ == rotated(nodes@, start as int),
{
    let n = nodes.len();
    let mut out: Vec<usize> = Vec::new();
    let mut j: usize = 0;
    while j < n
        invariant
            n == nodes@.len(),
            start < n || start == 0,
            j <= n,
            out@ == rotated(nodes@, start as int).take(j as int),
        decreases n - j,
    {
        let idx: usize = if start < n - j { start + j } else { start - (n - j) };
        out.push(nodes[idx]);
        assert(out@ =~= rotated(nodes@, start as int).take(j + 1));
        j = j + 1;
    }
    assert(rotated(nodes@, start as int).take(n as int) =~= rotated(nodes@, start as int));
    out
}

/// A starting point `s` brought into the positions of a list of `n`.
fn reduce_exec(s: usize, n: usize) -> (r: usize)
    ensures
        r == reduce(s, n as nat),
        r < n || r == 0,
{
    if n == 0 {
        0
    } else {
        s % n
    }
}

impl<'a> TokenWithStrategy<'a> {
    fn new(query: &'a RoutingInfo, cluster: &'a ClusterData) -> (r: Option<TokenWithStrategy<'a>>)
        ensures
            r.is_some() == (query.token.is_some() && query.keyspace.is_some()
                && crate::ring::name_index(cluster.keyspaces(), query.keyspace.unwrap()@) >= 0),
            r.is_some() ==> r.unwrap().token == query.token.unwrap() && *r.unwrap().strategy
                == cluster.keyspaces()[crate::ring::name_index(
                cluster.keyspaces(),
                query.keyspace.unwrap()@,
            )].1,
    {
        match (&query.token, &query.keyspace) {
            (Some(token), Some(keyspace_name)) => match cluster.keyspace_strategy(keyspace_name) {
                Some(strategy) => Some(TokenWithStrategy { strategy, token: *token }),
                None => None,
            },
            _ => None,
        }
    }
}

impl<'a> ProcessedRoutingInfo<'a> {
    fn new(query: &'a RoutingInfo, cluster: &'a ClusterData) -> (r: ProcessedRoutingInfo<'a>)
        ensures
            r.local_consistency == is_local_consistency(
                query.consistency,
                query.serial_consistency,
            ),
            r.token_with_strategy.is_some() == (query.token.is_some() && query.keyspace.is_some()
                && crate::ring::name_index(cluster.keyspaces(), query.keyspace.unwrap()@) >= 0),
            r.token_with_strategy.is_some() ==> r.token_with_strategy.unwrap().token
                == query.token.unwrap() && *r.token_with_strategy.unwrap().strategy
                == cluster.keyspaces()[crate::ring::name_index(
                cluster.keyspaces(),
                query.keyspace.unwrap()@,
            )].1,
    {
        ProcessedRoutingInfo {
            token_with_strategy: TokenWithStrategy::new(query, cluster),
            local_consistency: local_consistency(query.consistency, query.serial_consistency),
        }
    }
}

impl DefaultPolicy {
    /// Whether `ri` is what the policy derives from `query`.
    spec fn derived(&self, query: RoutingInfo, cluster: ClusterData, ri: ProcessedRoutingInfo) -> bool {
        &&& ri.local_consistency == is_local_consistency(
            query.consistency,
            query.serial_consistency,
        )
        &&& ri.token_with_strategy.is_some() == self.token_and_strategy(query, cluster).is_some()
        &&& ri.token_with_strategy.is_some() ==> (ri.token_with_strategy.unwrap().token.value,
            *ri.token_with_strategy.unwrap().strategy) == self.token_and_strategy(
            query,
            cluster,
        ).unwrap()
    }

    fn routing_info<'a>(&self, query: &'a RoutingInfo, cluster: &'a ClusterData) -> (r:
        ProcessedRoutingInfo<'a>)
        ensures
            self.derived(*query, *cluster, r),
    {
        let mut routing_info = ProcessedRoutingInfo::new(query, cluster);
        if !self.is_token_aware {
            routing_info.token_with_strategy = None;
        }
        routing_info
    }

    fn is_datacenter_failover_possible(&self, routing_info: &ProcessedRoutingInfo) -> (r: bool)
        ensures
            r == (self.preferred().is_some() && self.failover_permitted()
                && !routing_info.local_consistency),
    {
        self.preferred_datacenter.is_some() && self.permit_dc_failover
            && !routing_info.local_consistency
    }

    /// The nodes of the preferred datacenter, or of the whole cluster when
    /// none is preferred; `None` when the preferred datacenter is unknown.
    fn preferred_node_set<'a>(&self, cluster: &'a ClusterData) -> (r: Option<&'a Vec<usize>>)
        ensures
            r.is_none() ==> self.preferred_nodes(*cluster) == Seq::<usize>::empty(),
            r.is_some() ==> r.unwrap()@ == self.preferred_nodes(*cluster),
    {
        match &self.preferred_datacenter {
            Some(preferred_datacenter) => cluster.unique_nodes_in_datacenter_ring(
                preferred_datacenter,
            ),
            None => Some(cluster.unique_nodes_in_global_ring()),
        }
    }

    fn nonfiltered_replica_set(&self, ts: &TokenWithStrategy, should_be_local: bool, cluster: &ClusterData) -> (r:
        Vec<usize>)
        requires
            cluster.wf(),
        ensures
            r@ == cluster.replica_set(
                ts.token.value,
                *ts.strategy,
                if should_be_local {
                    self.preferred()
                } else {
                    None
                },
            ),
    {
        let datacenter = if should_be_local {
            self.preferred_datacenter.as_ref()
        } else {
            None
        };
        cluster.replicas_for_token(ts.token, ts.strategy, datacenter)
    }

    /// Alive replicas of the token, local ones only when `should_be_local`.
    fn replicas(&self, ts: &TokenWithStrategy, should_be_local: bool, cluster: &ClusterData) -> (r: Vec<
        usize,
    >)
        requires
            cluster.wf(),
        ensures
            r@ == passing(
                *cluster,
                cluster.replica_set(
                    ts.token.value,
                    *ts.strategy,
                    if should_be_local {
                        self.preferred()
                    } else {
                        None
                    },
                ),
                true,
            ),
    {
        let set = self.nonfiltered_replica_set(ts, should_be_local, cluster);
        filter_nodes(cluster, &set, true)
    }

    /// A random alive replica, local when `should_be_local`.
    fn pick_replica(&self, ts: &TokenWithStrategy, should_be_local: bool, cluster: &ClusterData) -> (r:
        Option<usize>)
        requires
            cluster.wf(),
        ensures
            ({
                let live = passing(
                    *cluster,
                    cluster.replica_set(
                        ts.token.value,
                        *ts.strategy,
                        if should_be_local {
                            self.preferred()
                        } else {
                            None
                        },
                    ),
                    true,
                );
                &&& r.is_some() == (live.len() > 0)
                &&& r.is_some() ==> live.contains(r.unwrap())
            }),
    {
        let live = self.replicas(ts, should_be_local, cluster);
        if live.len() == 0 {
            None
        } else {
            let k = random_index(live.len());
            assert(live@.contains(live@[k as int]));
            Some(live[k])
        }
    }

    /// The alive replicas, local when `should_be_local`, in random order.
    fn shuffled_replicas(&self, ts: &TokenWithStrategy, should_be_local: bool, cluster: &ClusterData) -> (r:
        Vec<usize>)
        requires
            cluster.wf(),
        ensures
            r@.to_multiset() == passing(
                *cluster,
                cluster.replica_set(
                    ts.token.value,
                    *ts.strategy,
                    if should_be_local {
                        self.preferred()
                    } else {
                        None
                    },
                ),
                true,
            ).to_multiset(),
    {
        shuffled(self.replicas(ts, should_be_local, cluster))
    }

    /// `nodes` read circularly from a random position.
    fn randomly_rotated_nodes(nodes: &Vec<usize>) -> (r: (Vec<usize>, usize))
        ensures
            r.1 < nodes@.len() || r.1 == 0,
            r.0@ == rotated(nodes@, r.1 as int),
    {
        let start = if nodes.len() > 0 {
            random_index(nodes.len())
        } else {
            0
        };
        (rotated_from(nodes, start), start)
    }

    /// The first node passing the filter, scanning `nodes` from a random
    /// position.
    fn pick_node(cluster: &ClusterData, nodes: &Vec<usize>, live_only: bool) -> (r: Option<usize>)
        ensures
            r.is_some() == (passing(*cluster, nodes@, live_only).len() > 0),
            r.is_some() ==> passing(*cluster, nodes@, live_only).contains(r.unwrap()),
    {
        let (rot, start) = Self::randomly_rotated_nodes(nodes);
        let live = filter_nodes(cluster, &rot, live_only);
        proof {
            assert forall|x: usize|
                live@.contains(x) <==> passing(*cluster, nodes@, live_only).contains(x) by {
                lemma_passing_contains(*cluster, rot@, live_only, x);
                lemma_passing_contains(*cluster, nodes@, live_only, x);
                lemma_rotated_contains(nodes@, start as int, x);
            }
            let all = passing(*cluster, nodes@, live_only);
            if all.len() > 0 {
                assert(all.contains(all[0]));
                assert(live@.contains(all[0]));
            }
        }
        if live.len() > 0 {
            assert(live@.contains(live@[0]));
            Some(live[0])
        } else {
            None
        }
    }

    /// The nodes passing the filter, read circularly from position `start`.
    fn round_robin_nodes(cluster: &ClusterData, nodes: &Vec<usize>, start: usize, live_only: bool) -> (r:
        Vec<usize>)
        requires
            start < nodes@.len() || start == 0,
        ensures
            r@ == passing(*cluster, rotated(nodes@, start as int), live_only),
    {
        let rot = rotated_from(nodes, start);
        filter_nodes(cluster, &rot, live_only)
    }
}

proof fn lemma_passing_empty(cluster: ClusterData, live_only: bool)
    ensures
        passing(cluster, Seq::<usize>::empty(), live_only) == Seq::<usize>::empty(),
{
    reveal(Seq::filter);
}

/// Appends the elements of `v` to `out`.
fn append_all(out: &mut Vec<usize>, v: &Vec<usize>)
    ensures
        final(out)@ == old(out)@ + v@,
{
    let ghost start = out@;
    let mut i: usize = 0;
    while i < v.len()
        invariant
            i <= v@.len(),
            out@ == start + v@.take(i as int),
        decreases v@.len() - i,
    {
        out.push(v[i]);
        assert(start + v@.take(i + 1) =~= (start + v@.take(i as int)).push(v@[i as int]));
        i = i + 1;
    }
    assert(v@.take(v@.len() as int) =~= v@);
}

impl DefaultPolicy {
    pub fn builder() -> (r: DefaultPolicyBuilder)
        ensures
            r.preferred().is_none(),
            r.token_aware_spec(),
            !r.failover_permitted(),
    {
        DefaultPolicyBuilder {
            preferred_datacenter: None,
            is_token_aware: true,
            permit_dc_failover: false,
        }
    }

    /// The policy's name.
    pub fn name(&self) -> (r: String)
        ensures
            r@ == "DefaultPolicy"@,
    {
        "DefaultPolicy".to_owned()
    }

    /// Picks the node a query should go to first: a random alive local
    /// replica; failing that, when datacenter failover is possible, a random
    /// alive replica anywhere; then an alive local node, an alive node
    /// anywhere (with failover), an enabled local node, an enabled node
    /// anywhere (with failover), and at last the first local node.
    pub fn pick(&self, query: &RoutingInfo, cluster: &ClusterData) -> (r: Option<usize>)
        requires
            cluster.wf(),
        ensures
            self.pick_ok(*query, *cluster, r),
    {
        let routing_info = self.routing_info(query, cluster);
        let fo = self.is_datacenter_failover_possible(&routing_info);
        proof {
            lemma_passing_empty(*cluster, true);
        }
        if let Some(ts) = &routing_info.token_with_strategy {
            // An alive local replica; every replica is local when no
            // datacenter is preferred.
            if let Some(alive_local_replica) = self.pick_replica(ts, true, cluster) {
                return Some(alive_local_replica);
            }
            if fo {
                if let Some(alive_remote_replica) = self.pick_replica(ts, false, cluster) {
                    return Some(alive_remote_replica);
                }
            }
        }
        let empty: Vec<usize> = Vec::new();
        let nodes: &Vec<usize> = match self.preferred_node_set(cluster) {
            Some(v) => v,
            None => &empty,
        };
        if let Some(alive_local) = Self::pick_node(cluster, nodes, true) {
            return Some(alive_local);
        }
        let all_nodes = cluster.unique_nodes_in_global_ring();
        if fo {
            if let Some(alive_maybe_remote) = Self::pick_node(cluster, all_nodes, true) {
                return Some(alive_maybe_remote);
            }
        }
        // Every node that could be chosen is down: try one that is enabled.
        if let Some(down_but_enabled_local_node) = Self::pick_node(cluster, nodes, false) {
            return Some(down_but_enabled_local_node);
        }
        if fo {
            if let Some(down_but_enabled_maybe_remote_node) = Self::pick_node(
                cluster,
                all_nodes,
                false,
            ) {
                return Some(down_but_enabled_maybe_remote_node);
            }
        }
        // Every node is disabled, which points at a configuration error.
        if nodes.len() > 0 {
            Some(nodes[0])
        } else {
            None
        }
    }

    /// The plan `fallback` makes from given draws: the replica tiers in the
    /// orders given, the alive node tiers read circularly from the positions
    /// given (brought into range), then the enabled node tiers in ring order,
    /// each node kept at its first place only.
    pub fn fallback_with(
        &self,
        query: &RoutingInfo,
        cluster: &ClusterData,
        local_order: &Vec<usize>,
        remote_order: &Vec<usize>,
        local_start: usize,
        all_start: usize,
    ) -> (r: Vec<usize>)
        requires
            cluster.wf(),
        ensures
            r@ == self.plan(
                *query,
                *cluster,
                local_order@,
                remote_order@,
                reduce(local_start, self.preferred_nodes(*cluster).len()),
                reduce(all_start, cluster.all_nodes().len()),
            ),
    {
        let routing_info = self.routing_info(query, cluster);
        let fo = self.is_datacenter_failover_possible(&routing_info);
        let mut plan: Vec<usize> = Vec::new();
        if routing_info.token_with_strategy.is_some() {
            append_all(&mut plan, local_order);
            if fo {
                append_all(&mut plan, remote_order);
            }
        }
        let ghost replicas = plan@;
        let empty: Vec<usize> = Vec::new();
        let nodes: &Vec<usize> = match self.preferred_node_set(cluster) {
            Some(v) => v,
            None => &empty,
        };
        let all_nodes = cluster.unique_nodes_in_global_ring();
        let robined_local_nodes = Self::round_robin_nodes(
            cluster,
            nodes,
            reduce_exec(local_start, nodes.len()),
            true,
        );
        append_all(&mut plan, &robined_local_nodes);
        let ghost with_remote_nodes_before = plan@;
        if fo {
            let robined_all_nodes = Self::round_robin_nodes(
                cluster,
                all_nodes,
                reduce_exec(all_start, all_nodes.len()),
                true,
            );
            append_all(&mut plan, &robined_all_nodes);
        }
        let maybe_down_local_nodes = filter_nodes(cluster, nodes, false);
        append_all(&mut plan, &maybe_down_local_nodes);
        if fo {
            let maybe_down_nodes = filter_nodes(cluster, all_nodes, false);
            append_all(&mut plan, &maybe_down_nodes);
        }
        proof {
            let fs = self.failover_possible(*query);
            assert(fo == fs);
            if self.token_and_strategy(*query, *cluster).is_some() && !fo {
                assert(replicas =~= local_order@ + Seq::<usize>::empty());
            }
            if !fo {
                assert(with_remote_nodes_before =~= with_remote_nodes_before + Seq::<usize>::empty());
            }
            let pn = self.preferred_nodes(*cluster);
            let an = cluster.all_nodes();
            let expected = (if self.token_and_strategy(*query, *cluster).is_some() {
                local_order@ + if fs {
                    remote_order@
                } else {
                    Seq::empty()
                }
            } else {
                Seq::empty()
            }) + passing(
                *cluster,
                rotated(pn, reduce(local_start, pn.len())),
                true,
            ) + (if fs {
                passing(*cluster, rotated(an, reduce(all_start, an.len())), true)
            } else {
                Seq::empty()
            }) + passing(*cluster, pn, false) + (if fs {
                passing(*cluster, an, false)
            } else {
                Seq::empty()
            });
            assert(plan@ =~= expected);
        }
        unique(plan)
    }

    /// The ordered plan of nodes to try for a query: alive local replicas in
    /// random order, then (with failover) the other alive replicas in random
    /// order; alive local nodes read circularly from a random position, then
    /// (with failover) all alive nodes likewise; enabled local nodes, then
    /// (with failover) all enabled nodes, in ring order. Each node appears
    /// once, at its first place.
    pub fn fallback(&self, query: &RoutingInfo, cluster: &ClusterData) -> (r: Vec<usize>)
        requires
            cluster.wf(),
        ensures
            self.fallback_ok(*query, *cluster, r@),
    {
        let routing_info = self.routing_info(query, cluster);
        let fo = self.is_datacenter_failover_possible(&routing_info);
        proof {
            lemma_passing_empty(*cluster, true);
        }
        let (local_order, remote_order) = match &routing_info.token_with_strategy {
            Some(ts) => {
                let local_replicas = self.shuffled_replicas(ts, true, cluster);
                let remote_replicas = if fo {
                    self.shuffled_replicas(ts, false, cluster)
                } else {
                    Vec::new()
                };
                (local_replicas, remote_replicas)
            },
            None => (Vec::new(), Vec::new()),
        };
        let empty: Vec<usize> = Vec::new();
        let nodes: &Vec<usize> = match self.preferred_node_set(cluster) {
            Some(v) => v,
            None => &empty,
        };
        let all_nodes = cluster.unique_nodes_in_global_ring();
        let local_start = if nodes.len() > 0 {
            random_index(nodes.len())
        } else {
            0
        };
        let all_start = if fo && all_nodes.len() > 0 {
            random_index(all_nodes.len())
        } else {
            0
        };
        let r = self.fallback_with(query, cluster, &local_order, &remote_order, local_start, all_start);
        proof {
            let ts_some = self.token_and_strategy(*query, *cluster).is_some();
            let ro = if ts_some && fo {
                remote_order@
            } else {
                self.all_live_replicas(*query, *cluster)
            };
            let lo = local_order@;
            let s1 = reduce(local_start, nodes@.len());
            let s2 = reduce(all_start, all_nodes@.len());
            if nodes@.len() > 0 {
                vstd::arithmetic::div_mod::lemma_small_mod(local_start as nat, nodes@.len());
            }
            if all_nodes@.len() > 0 {
                vstd::arithmetic::div_mod::lemma_small_mod(all_start as nat, all_nodes@.len());
            }
            assert(r@ == self.plan(*query, *cluster, lo, ro, s1, s2));
            assert(self.fallback_ok(*query, *cluster, r@));
        }
        r
    }
}

impl DefaultPolicyBuilder {
    pub closed spec fn preferred(&self) -> Option<Seq<char>> {
        dc_view(self.preferred_datacenter)
    }

    pub closed spec fn token_aware_spec(&self) -> bool {
        self.is_token_aware
    }

    pub closed spec fn failover_permitted(&self) -> bool {
        self.permit_dc_failover
    }

    pub fn build(self) -> (r: DefaultPolicy)
        ensures
            r.preferred() == self.preferred(),
            r.token_aware_spec() == self.token_aware_spec(),
            r.failover_permitted() == self.failover_permitted(),
    {
        DefaultPolicy {
            preferred_datacenter: self.preferred_datacenter,
            is_token_aware: self.is_token_aware,
            permit_dc_failover: self.permit_dc_failover,
        }
    }

    /// Prefers the datacenter named `datacenter_name`.
    pub fn prefer_datacenter(self, datacenter_name: String) -> (r: Self)
        ensures
            r.preferred() == Some(datacenter_name@),
            r.token_aware_spec() == self.token_aware_spec(),
            r.failover_permitted() == self.failover_permitted(),
    {
        let mut b = self;
        b.preferred_datacenter = Some(datacenter_name);
        b
    }

    pub fn token_aware(self, is_token_aware: bool) -> (r: Self)
        ensures
            r.preferred() == self.preferred(),
            r.token_aware_spec() == is_token_aware,
            r.failover_permitted() == self.failover_permitted(),
    {
        let mut b = self;
        b.is_token_aware = is_token_aware;
        b
    }

    pub fn permit_dc_failover(self, permit: bool) -> (r: Self)
        ensures
            r.preferred() == self.preferred(),
            r.token_aware_spec() == self.token_aware_spec(),
            r.failover_permitted() == permit,
    {
        let mut b = self;
        b.permit_dc_failover = permit;
        b
    }
}

impl Default for DefaultPolicy {
    fn default() -> (r: Self)
        ensures
            r.preferred().is_none(),
            r.token_aware_spec(),
            !r.failover_permitted(),
    {
        DefaultPolicy { preferred_datacenter: None, is_token_aware: true, permit_dc_failover: false }
    }
}

} // verus!
