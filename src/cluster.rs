//! A snapshot of the cluster: its nodes, keyspaces, rings and precomputed
//! replicas, and the lookups the policy makes on it.

use vstd::prelude::*;
use crate::precomputed::PrecomputedReplicas;
use crate::random::unique;
use crate::replication::{DatacenterRing, ReplicationInfo};
use crate::ring::{dedup, find_named, lemma_dedup_props, name_index, ring_values, Token, TokenRing};
use crate::topology::{Node, Strategy};

verus! {

/// Whether `node` is in the datacenter named `dc`.
pub open spec fn in_dc(node: Node, dc: Seq<char>) -> bool {
    match node.datacenter {
        Some(d) => d@ == dc,
        None => false,
    }
}

/// Whether every element of `s` is a position in a list of `n` nodes.
pub open spec fn all_below(s: Seq<usize>, n: nat) -> bool {
    forall|k: int| 0 <= k < s.len() ==> s[k] < n
}

/// Whether every element of `s` names a node of `nodes` in datacenter `dc`.
pub open spec fn all_in_dc(s: Seq<usize>, nodes: Seq<Node>, dc: Seq<char>) -> bool {
    forall|k: int| 0 <= k < s.len() ==> s[k] < nodes.len() && in_dc(nodes[s[k] as int], dc)
}

/// The elements of `s` naming a node of `nodes`, and when `dc` is given, one
/// in that datacenter.
pub open spec fn keep_in(s: Seq<usize>, nodes: Seq<Node>, dc: Option<Seq<char>>) -> Seq<usize> {
    s.filter(
        |i: usize|
            i < nodes.len() && match dc {
                Some(d) => in_dc(nodes[i as int], d),
                None => true,
            },
    )
}

/// A cluster snapshot. Nodes are named by their position in `nodes`.
pub struct ClusterData {
    nodes: Vec<Node>,
    keyspaces: Vec<(String, Strategy)>,
    replication: ReplicationInfo,
    precomputed: PrecomputedReplicas,
    all_nodes: Vec<usize>,
    dc_nodes: Vec<(String, Vec<usize>)>,
}

impl ClusterData {
    pub closed spec fn nodes(&self) -> Seq<Node> {
        self.nodes@
    }

    pub closed spec fn keyspaces(&self) -> Seq<(String, Strategy)> {
        self.keyspaces@
    }

    pub closed spec fn replication(&self) -> ReplicationInfo {
        self.replication
    }

    pub closed spec fn precomputed(&self) -> PrecomputedReplicas {
        self.precomputed
    }

    /// The distinct nodes of the global ring, in ring order.
    pub closed spec fn all_nodes(&self) -> Seq<usize> {
        self.all_nodes@
    }

    /// The distinct nodes of each datacenter ring, in ring order.
    pub closed spec fn dc_nodes(&self) -> Seq<(String, Vec<usize>)> {
        self.dc_nodes@
    }

    /// The distinct nodes of datacenter `dc`, if it has a ring.
    pub open spec fn nodes_in_dc(&self, dc: Seq<char>) -> Option<Seq<usize>> {
        let k = name_index(self.dc_nodes(), dc);
        if k < 0 {
            None
        } else {
            Some(self.dc_nodes()[k].1@)
        }
    }

    pub open spec fn wf(&self) -> bool {
        &&& all_below(self.all_nodes(), self.nodes().len())
        &&& self.all_nodes().no_duplicates()
        &&& forall|k: int|
            0 <= k < self.dc_nodes().len() ==> all_in_dc(
                (#[trigger] self.dc_nodes()[k]).1@,
                self.nodes(),
                self.dc_nodes()[k].0@,
            ) && self.dc_nodes()[k].1@.no_duplicates()
        &&& self.precomputed().wf()
    }

    /// SimpleStrategy replicas: precomputed where available, else walked.
    pub open spec fn simple_replicas(&self, t: i64, rf: nat) -> Seq<usize> {
        match self.precomputed().simple_lookup(t, rf) {
            Some(l) => l,
            None => self.replication().simple_replicas(t, rf),
        }
    }

    /// NetworkTopologyStrategy replicas in one datacenter: precomputed where
    /// available, else walked.
    pub open spec fn nts_replicas(&self, t: i64, dc: Seq<char>, rf: nat) -> Seq<usize> {
        match self.precomputed().network_lookup(t, dc, rf) {
            Some(l) => l,
            None => self.replication().nts_replicas(t, dc, rf),
        }
    }

    /// NetworkTopologyStrategy replicas in every datacenter of `entries`.
    pub open spec fn nts_all_replicas(&self, t: i64, entries: Seq<(String, usize)>) -> Seq<usize>
        decreases entries.len(),
    {
        if entries.len() == 0 {
            Seq::empty()
        } else {
            self.nts_all_replicas(t, entries.drop_last()) + self.nts_replicas(
                t,
                entries.last().0@,
                entries.last().1 as nat,
            )
        }
    }

    /// Replicas of token `t` under `strategy`, before restricting them to a
    /// datacenter. LocalStrategy and unknown strategies are read as
    /// SimpleStrategy with factor 1.
    pub open spec fn strategy_replicas(
        &self,
        t: i64,
        strategy: Strategy,
        dc: Option<Seq<char>>,
    ) -> Seq<usize> {
        match strategy {
            Strategy::SimpleStrategy { replication_factor } => self.simple_replicas(
                t,
                replication_factor as nat,
            ),
            Strategy::NetworkTopologyStrategy { datacenter_repfactors } => match dc {
                Some(d) => {
                    let k = name_index(datacenter_repfactors@, d);
                    if k < 0 {
                        Seq::empty()
                    } else {
                        self.nts_replicas(t, d, datacenter_repfactors@[k].1 as nat)
                    }
                },
                None => self.nts_all_replicas(t, datacenter_repfactors@),
            },
            _ => self.simple_replicas(t, 1),
        }
    }

    /// The replica set of token `t` under `strategy`, restricted to
    /// datacenter `dc` when one is given.
    pub open spec fn replica_set(&self, t: i64, strategy: Strategy, dc: Option<Seq<char>>) -> Seq<
        usize,
    > {
        keep_in(self.strategy_replicas(t, strategy, dc), self.nodes(), dc)
    }

    pub fn nodes_ref(&self) -> (r: &Vec<Node>)
        ensures
            r@ == self.nodes(),
    {
        &self.nodes
    }

    /// The node at position `i`.
    pub fn node(&self, i: usize) -> (r: &Node)
        requires
            i < self.nodes().len(),
        ensures
            *r == self.nodes()[i as int],
    {
        &self.nodes[i]
    }

    /// The strategy of the keyspace named `name`.
    pub fn keyspace_strategy(&self, name: &String) -> (r: Option<&Strategy>)
        ensures
            r.is_none() <==> name_index(self.keyspaces(), name@) < 0,
            r.is_some() ==> *r.unwrap() == self.keyspaces()[name_index(
                self.keyspaces(),
                name@,
            )].1,
    {
        match find_named(&self.keyspaces, name) {
            Some(k) => Some(&self.keyspaces[k].1),
            None => None,
        }
    }

    pub fn unique_nodes_in_global_ring(&self) -> (r: &Vec<usize>)
        ensures
            r@ == self.all_nodes(),
    {
        &self.all_nodes
    }

    pub fn unique_nodes_in_datacenter_ring(&self, dc: &String) -> (r: Option<&Vec<usize>>)
        ensures
            r.is_none() == self.nodes_in_dc(dc@).is_none(),
            r.is_some() ==> r.unwrap()@ == self.nodes_in_dc(dc@).unwrap(),
    {
        match find_named(&self.dc_nodes, dc) {
            Some(k) => Some(&self.dc_nodes[k].1),
            None => None,
        }
    }

    fn simple_replicas_exec(&self, token: Token, rf: usize) -> (r: Vec<usize>)
        ensures
            r@ == self.simple_replicas(token.value, rf as nat),
    {
        match self.precomputed.get_precomputed_simple_strategy_replicas(token, rf) {
            Some(l) => l,
            None => self.replication.simple_strategy_replicas(token, rf),
        }
    }

    fn nts_replicas_exec(&self, token: Token, dc: &String, rf: usize) -> (r: Vec<usize>)
        requires
            self.wf(),
        ensures
            r@ == self.nts_replicas(token.value, dc@, rf as nat),
    {
        match self.precomputed.get_precomputed_network_strategy_replicas(token, dc, rf) {
            Some(l) => l,
            None => self.replication.nts_replicas_in_datacenter(token, dc, rf),
        }
    }

    fn strategy_replicas_exec(&self, token: Token, strategy: &Strategy, dc: Option<&String>) -> (r:
        Vec<usize>)
        requires
            self.wf(),
        ensures
            r@ == self.strategy_replicas(
                token.value,
                *strategy,
                match dc {
                    Some(d) => Some(d@),
                    None => None,
                },
            ),
    {
        match strategy {
            Strategy::SimpleStrategy { replication_factor } => self.simple_replicas_exec(
                token,
                *replication_factor,
            ),
            Strategy::NetworkTopologyStrategy { datacenter_repfactors } => match dc {
                Some(d) => match find_named(datacenter_repfactors, d) {
                    Some(k) => self.nts_replicas_exec(token, d, datacenter_repfactors[k].1),
                    None => Vec::new(),
                },
                None => {
                    let mut out: Vec<usize> = Vec::new();
                    let mut j: usize = 0;
                    while j < datacenter_repfactors.len()
                        invariant
                            self.wf(),
                            j <= datacenter_repfactors@.len(),
                            out@ == self.nts_all_replicas(
                                token.value,
                                datacenter_repfactors@.take(j as int),
                            ),
                        decreases datacenter_repfactors@.len() - j,
                    {
                        let mut part = self.nts_replicas_exec(
                            token,
                            &datacenter_repfactors[j].0,
                            datacenter_repfactors[j].1,
                        );
                        assert(datacenter_repfactors@.take(j + 1).drop_last()
                            =~= datacenter_repfactors@.take(j as int));
                        out.append(&mut part);
                        j = j + 1;
                    }
                    assert(datacenter_repfactors@.take(datacenter_repfactors@.len() as int)
                        =~= datacenter_repfactors@);
                    out
                },
            },
            Strategy::LocalStrategy => self.simple_replicas_exec(token, 1),
            Strategy::Other { .. } => self.simple_replicas_exec(token, 1),
        }
    }

    /// The replicas of `token` under `strategy`, restricted to datacenter
    /// `dc` when one is given.
    pub fn replicas_for_token(&self, token: Token, strategy: &Strategy, dc: Option<&String>) -> (r:
        Vec<usize>)
        requires
            self.wf(),
        ensures
            r@ == self.replica_set(
                token.value,
                *strategy,
                match dc {
                    Some(d) => Some(d@),
                    None => None,
                },
            ),
    {
        let all = self.strategy_replicas_exec(token, strategy, dc);
        let ghost sdc = match dc {
            Some(d) => Some(d@),
            None => None::<Seq<char>>,
        };
        let ghost pred = |i: usize|
            i < self.nodes().len() && match sdc {
                Some(d) => in_dc(self.nodes()[i as int], d),
                None => true,
            };
        let mut out: Vec<usize> = Vec::new();
        let mut i: usize = 0;
        while i < all.len()
            invariant
                i <= all@.len(),
                sdc == match dc {
                    Some(d) => Some(d@),
                    None => None::<Seq<char>>,
                },
                out@ == all@.take(i as int).filter(pred),
                pred == (|i: usize|
                    i < self.nodes().len() && match sdc {
                        Some(d) => in_dc(self.nodes()[i as int], d),
                        None => true,
                    }),
            decreases all@.len() - i,
        {
            let x = all[i];
            let keep = x < self.nodes.len() && match dc {
                Some(d) => match &self.nodes[x].datacenter {
                    Some(nd) => *nd == *d,
                    None => false,
                },
                None => true,
            };
            proof {
                assert(all@.take(i + 1).drop_last() =~= all@.take(i as int));
                reveal(Seq::filter);
            }
            if keep {
                out.push(x);
            }
            i = i + 1;
        }
        assert(all@.take(all@.len() as int) =~= all@);
        out
    }
}

/// Position of `rack` in `racks`.
fn rack_position(racks: &Vec<Option<String>>, rack: &Option<String>) -> (r: Option<usize>)
    ensures
        r.is_some() ==> r.unwrap() < racks@.len(),
{
    let mut i: usize = 0;
    while i < racks.len()
        invariant
            i <= racks@.len(),
        decreases racks@.len() - i,
    {
        let same = match (&racks[i], rack) {
            (Some(a), Some(b)) => *a == *b,
            (None, None) => true,
            _ => false,
        };
        if same {
            return Some(i);
        }
        i = i + 1;
    }
    None
}

/// Whether `names` holds `name`.
fn has_name(names: &Vec<String>, name: &String) -> (r: bool) {
    let mut i: usize = 0;
    while i < names.len()
        invariant
            i <= names@.len(),
        decreases names@.len() - i,
    {
        if names[i] == *name {
            return true;
        }
        i = i + 1;
    }
    false
}

/// The values of `ring`, in order.
fn values_of(ring: &Vec<(Token, usize)>) -> (r: Vec<usize>)
    ensures
        r@ == ring_values(ring@),
{
    let mut out: Vec<usize> = Vec::new();
    let mut i: usize = 0;
    while i < ring.len()
        invariant
            i <= ring@.len(),
            out@ == ring_values(ring@.take(i as int)),
        decreases ring@.len() - i,
    {
        out.push(ring[i].1);
        assert(ring_values(ring@.take(i + 1)) =~= ring_values(ring@.take(i as int)).push(
            ring@[i as int].1,
        ));
        i = i + 1;
    }
    assert(ring@.take(ring@.len() as int) =~= ring@);
    out
}

impl ClusterData {
    /// Builds the snapshot of a cluster whose global ring maps each token to
    /// the position of its node in `nodes`: the per-datacenter rings, the
    /// distinct nodes of each ring and the precomputed replicas of the
    /// keyspaces' strategies.
    pub fn new(nodes: Vec<Node>, ring: Vec<(Token, usize)>, keyspaces: Vec<(String, Strategy)>) -> (r:
        ClusterData)
        requires
            all_below(ring_values(ring@), nodes@.len()),
        ensures
            r.wf(),
            r.nodes() == nodes@,
            r.keyspaces() == keyspaces@,
            r.replication().global_ring.entries() == ring@,
            r.all_nodes() == dedup(ring_values(ring@)),
    {
        let n = nodes.len();
        let vals = values_of(&ring);
        let all_nodes = unique(vals);
        proof {
            lemma_dedup_props(ring_values(ring@));
            assert forall|k: int| 0 <= k < all_nodes@.len() implies all_nodes@[k] < n by {
                let x = all_nodes@[k];
                assert(all_nodes@.contains(x));
                assert(ring_values(ring@).contains(x));
                let j = choose|j: int|
                    0 <= j < ring_values(ring@).len() && ring_values(ring@)[j] == x;
            }
        }
        let mut names: Vec<String> = Vec::new();
        let mut i: usize = 0;
        while i < nodes.len()
            decreases nodes@.len() - i,
        {
            if let Some(dc) = &nodes[i].datacenter {
                if !has_name(&names, dc) {
                    names.push(dc.clone());
                }
            }
            i = i + 1;
        }
        let mut node_racks: Vec<usize> = Vec::new();
        let mut i: usize = 0;
        while i < n
            invariant
                n == nodes@.len(),
                i <= n,
                node_racks@.len() == i,
            decreases n - i,
        {
            node_racks.push(0);
            i = i + 1;
        }
        let mut datacenters: Vec<DatacenterRing> = Vec::new();
        let mut dc_nodes: Vec<(String, Vec<usize>)> = Vec::new();
        let mut k: usize = 0;
        while k < names.len()
            invariant
                n == nodes@.len(),
                node_racks@.len() == n,
                all_below(ring_values(ring@), n as nat),
                forall|m: int|
                    0 <= m < dc_nodes@.len() ==> all_in_dc(
                        (#[trigger] dc_nodes@[m]).1@,
                        nodes@,
                        dc_nodes@[m].0@,
                    ) && dc_nodes@[m].1@.no_duplicates(),
            decreases names@.len() - k,
        {
            let name = &names[k];
            let mut entries: Vec<(Token, usize)> = Vec::new();
            let mut members: Vec<usize> = Vec::new();
            let mut racks: Vec<Option<String>> = Vec::new();
            let mut j: usize = 0;
            while j < ring.len()
                invariant
                    n == nodes@.len(),
                    node_racks@.len() == n,
                    all_below(ring_values(ring@), n as nat),
                    all_in_dc(members@, nodes@, name@),
                    j <= ring@.len(),
                decreases ring@.len() - j,
            {
                let (token, node) = ring[j];
                assert(ring_values(ring@)[j as int] == node);
                let member = match &nodes[node].datacenter {
                    Some(d) => *d == *name,
                    None => false,
                };
                if member {
                    entries.push((token, node));
                    members.push(node);
                    let rack = match rack_position(&racks, &nodes[node].rack) {
                        Some(position) => position,
                        None => {
                            racks.push(nodes[node].rack.clone());
                            racks.len() - 1
                        },
                    };
                    node_racks.set(node, rack);
                }
                j = j + 1;
            }
            let distinct_members = unique(members);
            proof {
                lemma_dedup_props(members@);
                assert forall|q: int|
                    0 <= q < distinct_members@.len() implies distinct_members@[q] < n && in_dc(
                    nodes@[distinct_members@[q] as int],
                    name@,
                ) by {
                    let x = distinct_members@[q];
                    assert(distinct_members@.contains(x));
                    assert(members@.contains(x));
                    let j = choose|j: int| 0 <= j < members@.len() && members@[j] == x;
                }
            }
            datacenters.push(
                DatacenterRing {
                    name: name.clone(),
                    ring: TokenRing::new(entries),
                    rack_count: racks.len(),
                },
            );
            dc_nodes.push((name.clone(), distinct_members));
            k = k + 1;
        }
        let replication = ReplicationInfo {
            global_ring: TokenRing::new(ring),
            datacenters,
            node_racks,
        };
        let precomputed = PrecomputedReplicas::compute(&replication, &keyspaces);
        ClusterData { nodes, keyspaces, replication, precomputed, all_nodes, dc_nodes }
    }
}

} // verus!

verus! {

/// Whether node `i` of `nodes` exists and, when `dc` is given, is in it.
pub open spec fn kept(nodes: Seq<Node>, dc: Option<Seq<char>>, i: usize) -> bool {
    i < nodes.len() && match dc {
        Some(d) => in_dc(nodes[i as int], d),
        None => true,
    }
}

pub proof fn lemma_keep_in_contains(s: Seq<usize>, nodes: Seq<Node>, dc: Option<Seq<char>>, x: usize)
    ensures
        keep_in(s, nodes, dc).contains(x) <==> (s.contains(x) && kept(nodes, dc, x)),
    decreases s.len(),
{
    reveal(Seq::filter);
    if s.len() > 0 {
        lemma_keep_in_contains(s.drop_last(), nodes, dc, x);
        let p = keep_in(s.drop_last(), nodes, dc);
        let q = keep_in(s, nodes, dc);
        if q.contains(x) {
            let k = choose|k: int| 0 <= k < q.len() && q[k] == x;
            if k < p.len() {
                assert(p[k] == x);
                let j = choose|j: int| 0 <= j < s.drop_last().len() && s.drop_last()[j] == x;
                assert(s[j] == x);
            } else {
                assert(s[s.len() - 1] == x);
            }
        }
        if s.contains(x) && kept(nodes, dc, x) {
            let j = choose|j: int| 0 <= j < s.len() && s[j] == x;
            if j < s.len() - 1 {
                assert(s.drop_last()[j] == x);
                let k = choose|k: int| 0 <= k < p.len() && p[k] == x;
                assert(q[k] == x);
            } else {
                assert(q[q.len() - 1] == x);
            }
        }
    }
}

} // verus!
