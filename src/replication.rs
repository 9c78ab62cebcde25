//! Replica placement on the token rings of a cluster.

use vstd::prelude::*;
use crate::ring::{first_distinct, ring_values, rotated, walk_distinct, Token, TokenRing};

verus! {

/// The token ring of one datacenter, with the number of distinct racks in it.
pub struct DatacenterRing {
    pub name: String,
    pub ring: TokenRing<usize>,
    pub rack_count: usize,
}

/// The global ring and the per-datacenter rings; ring values are node
/// positions. `node_racks` numbers the rack of each node within its
/// datacenter.
pub struct ReplicationInfo {
    pub global_ring: TokenRing<usize>,
    pub datacenters: Vec<DatacenterRing>,
    pub node_racks: Vec<usize>,
}

/// The rack number of node `x`; 0 for a node `racks` does not cover.
pub open spec fn rack_of(racks: Seq<usize>, x: usize) -> usize {
    if x < racks.len() {
        racks[x as int]
    } else {
        0
    }
}

/// Walks `s` choosing replicas for factor `rf` among `rack_count` racks: a
/// node on a rack not chosen yet is taken, a node on a chosen rack only while
/// repeats are left (`rf - rack_count` of them), until `rf` are chosen.
/// Returns the chosen nodes, the racks used and the repeats left.
pub open spec fn rack_walk(s: Seq<usize>, racks: Seq<usize>, rack_count: nat, rf: nat) -> (Seq<
    usize,
>, Seq<usize>, nat)
    decreases s.len(),
{
    if s.len() == 0 {
        (Seq::empty(), Seq::empty(), if rf > rack_count { (rf - rack_count) as nat } else { 0 })
    } else {
        let prev = rack_walk(s.drop_last(), racks, rack_count, rf);
        let x = s.last();
        let r = rack_of(racks, x);
        if prev.0.len() >= rf || prev.0.contains(x) {
            prev
        } else if !prev.1.contains(r) {
            (prev.0.push(x), prev.1.push(r), prev.2)
        } else if prev.2 > 0 {
            (prev.0.push(x), prev.1, (prev.2 - 1) as nat)
        } else {
            prev
        }
    }
}

/// Replicas of `t` in a datacenter: the rack-aware walk of its ring from the
/// owner of `t`.
pub open spec fn rack_walk_replicas(
    ring: TokenRing<usize>,
    racks: Seq<usize>,
    rack_count: nat,
    t: i64,
    rf: nat,
) -> Seq<usize> {
    rack_walk(rotated(ring_values(ring.entries()), ring.owner_index(t)), racks, rack_count, rf).0
}

/// The rack-aware walk of `ring` from the owner of `token`, wrapping round
/// once.
pub fn walk_racks(
    ring: &TokenRing<usize>,
    racks: &Vec<usize>,
    rack_count: usize,
    token: Token,
    rf: usize,
) -> (r: Vec<usize>)
    ensures
        r@ == rack_walk_replicas(*ring, racks@, rack_count as nat, token.value, rf as nat),
{
    let n = ring.len();
    let p = ring.owner_position(token);
    let ghost rot = rotated(ring_values(ring.entries()), ring.owner_index(token.value));
    let mut out: Vec<usize> = Vec::new();
    let mut seen: Vec<usize> = Vec::new();
    let mut repeats: usize = if rf > rack_count { rf - rack_count } else { 0 };
    let mut i: usize = 0;
    while i < n
        invariant
            n == ring.entries().len(),
            n > 0 ==> p == ring.owner_index(token.value) && p < n,
            rot == rotated(ring_values(ring.entries()), ring.owner_index(token.value)),
            i <= n,
            (out@, seen@, repeats as nat) == rack_walk(
                rot.take(i as int),
                racks@,
                rack_count as nat,
                rf as nat,
            ),
        decreases n - i,
    {
        let idx: usize = if p < n - i { p + i } else { p - (n - i) };
        let node = ring.entry(idx).1;
        assert(node == rot[i as int]);
        assert(rot.take(i + 1).drop_last() =~= rot.take(i as int));
        let rack = if node < racks.len() { racks[node] } else { 0 };
        if out.len() < rf && !crate::ring::vec_contains(&out, node) {
            if !crate::ring::vec_contains(&seen, rack) {
                out.push(node);
                seen.push(rack);
            } else if repeats > 0 {
                out.push(node);
                repeats = repeats - 1;
            }
        }
        i = i + 1;
    }
    assert(rot.take(n as int) =~= rot);
    out
}

/// Index of the first datacenter ring named `name`, or -1.
pub open spec fn dc_index_from(dcs: Seq<DatacenterRing>, name: Seq<char>, i: int) -> int
    decreases dcs.len() - i,
{
    if i < 0 || i >= dcs.len() {
        -1
    } else if dcs[i].name@ == name {
        i
    } else {
        dc_index_from(dcs, name, i + 1)
    }
}

pub proof fn lemma_dc_index_range(dcs: Seq<DatacenterRing>, name: Seq<char>, i: int)
    requires
        0 <= i,
    ensures
        dc_index_from(dcs, name, i) == -1 || (i <= dc_index_from(dcs, name, i) < dcs.len()
            && dcs[dc_index_from(dcs, name, i)].name@ == name),
    decreases dcs.len() - i,
{
    if i < dcs.len() && dcs[i].name@ != name {
        lemma_dc_index_range(dcs, name, i + 1);
    }
}

/// Replicas of `t` under a strategy that walks the ring: the first `rf`
/// distinct nodes from the owner of `t` on.
pub open spec fn walk_replicas(ring: TokenRing<usize>, t: i64, rf: nat) -> Seq<usize> {
    first_distinct(rotated(ring_values(ring.entries()), ring.owner_index(t)), rf)
}

impl ReplicationInfo {
    pub open spec fn dc_index(&self, name: Seq<char>) -> int {
        dc_index_from(self.datacenters@, name, 0)
    }

    /// SimpleStrategy replicas of token `t` for factor `rf`.
    pub open spec fn simple_replicas(&self, t: i64, rf: nat) -> Seq<usize> {
        walk_replicas(self.global_ring, t, rf)
    }

    /// NetworkTopologyStrategy replicas of token `t` in datacenter `dc`;
    /// none for an unknown datacenter.
    pub open spec fn nts_replicas(&self, t: i64, dc: Seq<char>, rf: nat) -> Seq<usize> {
        let k = self.dc_index(dc);
        if k < 0 {
            Seq::empty()
        } else {
            rack_walk_replicas(
                self.datacenters@[k].ring,
                self.node_racks@,
                self.datacenters@[k].rack_count as nat,
                t,
                rf,
            )
        }
    }

    /// Position of the datacenter ring named `name`.
    pub fn find_datacenter(&self, name: &String) -> (r: Option<usize>)
        ensures
            r.is_none() <==> self.dc_index(name@) == -1,
            r.is_some() ==> r.unwrap() == self.dc_index(name@) && r.unwrap()
                < self.datacenters@.len(),
    {
        proof {
            lemma_dc_index_range(self.datacenters@, name@, 0);
        }
        let mut i: usize = 0;
        while i < self.datacenters.len()
            invariant
                i <= self.datacenters@.len(),
                dc_index_from(self.datacenters@, name@, i as int) == self.dc_index(name@),
            decreases self.datacenters@.len() - i,
        {
            if self.datacenters[i].name == *name {
                return Some(i);
            }
            i = i + 1;
        }
        None
    }

    pub fn simple_strategy_replicas(&self, token: Token, rf: usize) -> (r: Vec<usize>)
        ensures
            r@ == self.simple_replicas(token.value, rf as nat),
    {
        walk_distinct(&self.global_ring, token, rf)
    }

    pub fn nts_replicas_in_datacenter(&self, token: Token, dc: &String, rf: usize) -> (r: Vec<
        usize,
    >)
        ensures
            r@ == self.nts_replicas(token.value, dc@, rf as nat),
    {
        match self.find_datacenter(dc) {
            None => Vec::new(),
            Some(k) => walk_racks(
                &self.datacenters[k].ring,
                &self.node_racks,
                self.datacenters[k].rack_count,
                token,
                rf,
            ),
        }
    }
}

} // verus!

verus! {

/// Up to the rack count, the rack-aware walk for factor `k` is the walk for
/// any larger factor `m` cut to `k`: no repeats are allowed in either, and
/// both take the same nodes until the shorter is full.
pub proof fn lemma_rack_walk_prefix(s: Seq<usize>, racks: Seq<usize>, rack_count: nat, k: nat, m: nat)
    requires
        k <= m <= rack_count,
    ensures
        rack_walk(s, racks, rack_count, k).0.len() <= k,
        rack_walk(s, racks, rack_count, k).0.len() <= rack_walk(s, racks, rack_count, m).0.len(),
        rack_walk(s, racks, rack_count, k).2 == 0,
        rack_walk(s, racks, rack_count, m).2 == 0,
        rack_walk(s, racks, rack_count, k).0.len() < k ==> rack_walk(s, racks, rack_count, k)
            == rack_walk(s, racks, rack_count, m),
        rack_walk(s, racks, rack_count, k).0.len() == k ==> rack_walk(s, racks, rack_count, k).0
            == rack_walk(s, racks, rack_count, m).0.take(k as int),
    decreases s.len(),
{
    if s.len() > 0 {
        let s0 = s.drop_last();
        lemma_rack_walk_prefix(s0, racks, rack_count, k, m);
        let a = rack_walk(s0, racks, rack_count, k);
        let b = rack_walk(s0, racks, rack_count, m);
        let x = s.last();
        let r = rack_of(racks, x);
        let a2 = rack_walk(s, racks, rack_count, k);
        let b2 = rack_walk(s, racks, rack_count, m);
        if a.0.len() == k {
            assert(a2 == a);
            if b2.0 != b.0 {
                assert(b2.0 == b.0.push(x));
                assert(b2.0.take(k as int) =~= b.0.take(k as int));
            }
        }
    }
}

} // verus!
