//! Replica lists computed ahead of queries, one per ring entry.
//!
//! For a ring walk the list for replication factor `n` is a prefix of the list
//! for any larger factor, so one list per token, computed for the largest
//! factor any keyspace asks for, answers every smaller factor by truncation.
//! Within a datacenter that holds only up to its rack count; each factor above
//! it gets a ring of its own.

use vstd::prelude::*;
use crate::ring::{
    find_named, first_distinct, lemma_first_distinct_prefix, name_index, name_index_from, ring_values,
    rotated, walk_distinct, Token, TokenRing,
};
use crate::replication::{
    lemma_rack_walk_prefix, rack_walk, rack_walk_replicas, walk_racks, walk_replicas, DatacenterRing,
    ReplicationInfo,
};
use crate::topology::Strategy;

verus! {

/// `pre` holds, for every entry of `src` in order, its token and the replica
/// list of that token for factor `rf`.
pub open spec fn computes(pre: TokenRing<Vec<usize>>, src: TokenRing<usize>, rf: nat) -> bool {
    &&& pre.entries().len() == src.entries().len()
    &&& forall|i: int|
        0 <= i < src.entries().len() ==> {
            &&& (#[trigger] pre.entries()[i]).0 == src.entries()[i].0
            &&& pre.entries()[i].1@ == walk_replicas(src, src.entries()[i].0.value, rf)
        }
}

/// `pre` holds, for every entry of datacenter ring `src` in order, its token
/// and the rack-aware replica list of that token for factor `rf`.
pub open spec fn computes_in_dc(
    pre: TokenRing<Vec<usize>>,
    src: DatacenterRing,
    racks: Seq<usize>,
    rf: nat,
) -> bool {
    &&& pre.entries().len() == src.ring.entries().len()
    &&& forall|i: int|
        0 <= i < src.ring.entries().len() ==> {
            &&& (#[trigger] pre.entries()[i]).0 == src.ring.entries()[i].0
            &&& pre.entries()[i].1@ == rack_walk_replicas(
                src.ring,
                racks,
                src.rack_count as nat,
                src.ring.entries()[i].0.value,
                rf,
            )
        }
}

/// The per-datacenter factors of a NetworkTopologyStrategy; none for others.
pub open spec fn nts_entries(s: Strategy) -> Seq<(String, usize)> {
    match s {
        Strategy::NetworkTopologyStrategy { datacenter_repfactors } => datacenter_repfactors@,
        _ => Seq::empty(),
    }
}

/// The strategies of named keyspaces, in order.
pub open spec fn strategies_of(keyspaces: Seq<(String, Strategy)>) -> Seq<Strategy> {
    keyspaces.map_values(|p: (String, Strategy)| p.1)
}

/// Whether some NetworkTopologyStrategy among `strats` asks for factor `rf` in
/// datacenter `dc`.
pub open spec fn requested(strats: Seq<Strategy>, dc: Seq<char>, rf: nat) -> bool {
    exists|i: int, j: int|
        0 <= i < strats.len() && 0 <= j < nts_entries(strats[i]).len() && (#[trigger] nts_entries(
            strats[i],
        )[j]).0@ == dc && nts_entries(strats[i])[j].1 == rf
}

/// The largest SimpleStrategy factor among `strats`, at least 1.
pub open spec fn max_simple_rf(strats: Seq<Strategy>) -> nat
    decreases strats.len(),
{
    if strats.len() == 0 {
        1
    } else {
        let m = max_simple_rf(strats.drop_last());
        match strats.last() {
            Strategy::SimpleStrategy { replication_factor } => if replication_factor > m {
                replication_factor as nat
            } else {
                m
            },
            _ => m,
        }
    }
}

/// The first `n` elements of `s`, or all of it when it is shorter.
pub open spec fn truncated(s: Seq<usize>, n: nat) -> Seq<usize> {
    if s.len() < n {
        s
    } else {
        s.take(n as int)
    }
}

/// A ring of replica lists valid for every factor up to `max_rep_factor`.
pub struct PrecomputedReplicasRing {
    replicas_for_token: TokenRing<Vec<usize>>,
    max_rep_factor: usize,
}

/// The precomputed rings of one datacenter.
pub struct DatacenterPrecomputedReplicas {
    /// Lists for the largest requested factor not above the rack count; they
    /// answer every factor up to it.
    compressed_replica_ring: Option<PrecomputedReplicasRing>,
    /// One ring per requested factor above the rack count.
    above_rack_count_replica_rings: Vec<(usize, TokenRing<Vec<usize>>)>,
}

/// Replica lists precomputed for the global ring and for each datacenter.
pub struct PrecomputedReplicas {
    global_replicas: PrecomputedReplicasRing,
    datacenter_replicas: Vec<(String, DatacenterPrecomputedReplicas)>,
}

impl PrecomputedReplicasRing {
    pub closed spec fn ring(&self) -> TokenRing<Vec<usize>> {
        self.replicas_for_token
    }

    pub closed spec fn max(&self) -> nat {
        self.max_rep_factor as nat
    }
}

impl DatacenterPrecomputedReplicas {
    pub closed spec fn compressed(&self) -> Option<PrecomputedReplicasRing> {
        self.compressed_replica_ring
    }

    pub closed spec fn above(&self) -> Seq<(usize, TokenRing<Vec<usize>>)> {
        self.above_rack_count_replica_rings@
    }

    /// The ring that answers factor `rf`, if one was precomputed.
    pub open spec fn ring_for_rf(&self, rf: nat) -> Option<TokenRing<Vec<usize>>> {
        if self.compressed().is_some() && self.compressed().unwrap().max() >= rf {
            Some(self.compressed().unwrap().ring())
        } else if exists|k: int| 0 <= k < self.above().len() && self.above()[k].0 == rf {
            let k = choose|k: int| 0 <= k < self.above().len() && self.above()[k].0 == rf;
            Some(self.above()[k].1)
        } else {
            None
        }
    }

    fn get_replica_ring_for_rf(&self, replication_factor: usize) -> (r: Option<
        &TokenRing<Vec<usize>>,
    >)
        requires
            self.wf(),
        ensures
            r.is_some() == self.ring_for_rf(replication_factor as nat).is_some(),
            r.is_some() ==> *r.unwrap() == self.ring_for_rf(replication_factor as nat).unwrap(),
    {
        if let Some(compressed) = &self.compressed_replica_ring {
            if compressed.max_rep_factor >= replication_factor {
                return Some(&compressed.replicas_for_token);
            }
        }
        let mut k: usize = 0;
        while k < self.above_rack_count_replica_rings.len()
            invariant
                self.wf(),
                !(self.compressed().is_some() && self.compressed().unwrap().max()
                    >= replication_factor),
                k <= self.above().len(),
                forall|m: int| 0 <= m < k ==> self.above()[m].0 != replication_factor,
            decreases self.above().len() - k,
        {
            if self.above_rack_count_replica_rings[k].0 == replication_factor {
                proof {
                    assert(0 <= k < self.above().len() && self.above()[k as int].0
                        == replication_factor);
                    let c = choose|m: int|
                        0 <= m < self.above().len() && self.above()[m].0 == replication_factor;
                    if c < k {
                        assert(self.above()[c].0 != self.above()[k as int].0);
                    } else if c > k {
                        assert(self.above()[k as int].0 != self.above()[c].0);
                    }
                }
                return Some(&self.above_rack_count_replica_rings[k].1);
            }
            k = k + 1;
        }
        None
    }

    /// The factors of the rings above the rack count are distinct.
    pub closed spec fn wf(&self) -> bool {
        forall|a: int, b: int|
            0 <= a < b < self.above().len() ==> self.above()[a].0 != self.above()[b].0
    }
}

impl PrecomputedReplicas {
    pub closed spec fn global(&self) -> PrecomputedReplicasRing {
        self.global_replicas
    }

    pub closed spec fn datacenters(&self) -> Seq<(String, DatacenterPrecomputedReplicas)> {
        self.datacenter_replicas@
    }

    /// Every datacenter's rings are well formed.
    pub open spec fn wf(&self) -> bool {
        forall|k: int| 0 <= k < self.datacenters().len() ==> (#[trigger] self.datacenters()[k]).1.wf()
    }

    /// What a NetworkTopologyStrategy lookup of token `t` in datacenter `dc`
    /// for factor `rf` yields.
    pub open spec fn network_lookup(&self, t: i64, dc: Seq<char>, rf: nat) -> Option<Seq<usize>> {
        let k = name_index(self.datacenters(), dc);
        if k < 0 {
            None
        } else {
            match self.datacenters()[k].1.ring_for_rf(rf) {
                None => None,
                Some(ring) => match ring.owner(t) {
                    None => None,
                    Some(l) => Some(truncated(l@, rf)),
                },
            }
        }
    }

    /// Gets the precomputed NetworkTopologyStrategy replicas of `token` in
    /// datacenter `dc_name` for `dc_replication_factor`; `None` for an unknown
    /// datacenter or a factor that was not precomputed there.
    pub fn get_precomputed_network_strategy_replicas(
        &self,
        token: Token,
        dc_name: &String,
        dc_replication_factor: usize,
    ) -> (r: Option<Vec<usize>>)
        requires
            self.wf(),
        ensures
            r.is_some() == self.network_lookup(
                token.value,
                dc_name@,
                dc_replication_factor as nat,
            ).is_some(),
            r.is_some() ==> r.unwrap()@ == self.network_lookup(
                token.value,
                dc_name@,
                dc_replication_factor as nat,
            ).unwrap(),
    {
        let k = find_named(&self.datacenter_replicas, dc_name)?;
        assert(self.datacenters()[k as int].1.wf());
        let precomputed_replicas_ring = self.datacenter_replicas[k].1.get_replica_ring_for_rf(
            dc_replication_factor,
        )?;
        let precomputed_replicas = precomputed_replicas_ring.get_elem_for_token(token)?;
        Some(prefix_of(precomputed_replicas, dc_replication_factor))
    }

    /// What a SimpleStrategy lookup of token `t` for factor `rf` yields.
    pub open spec fn simple_lookup(&self, t: i64, rf: nat) -> Option<Seq<usize>> {
        if rf > self.global().max() {
            None
        } else {
            match self.global().ring().owner(t) {
                None => None,
                Some(l) => Some(truncated(l@, rf)),
            }
        }
    }

    /// Gets the precomputed SimpleStrategy replicas of `token` for
    /// `replication_factor`; `None` when the factor is above the largest one
    /// precomputed.
    pub fn get_precomputed_simple_strategy_replicas(&self, token: Token, replication_factor: usize) -> (r:
        Option<Vec<usize>>)
        ensures
            r.is_some() == self.simple_lookup(token.value, replication_factor as nat).is_some(),
            r.is_some() ==> r.unwrap()@ == self.simple_lookup(
                token.value,
                replication_factor as nat,
            ).unwrap(),
    {
        if replication_factor > self.global_replicas.max_rep_factor {
            return None;
        }
        let precomputed_token_replicas = self.global_replicas.replicas_for_token.get_elem_for_token(
            token,
        )?;
        Some(prefix_of(precomputed_token_replicas, replication_factor))
    }
}

/// The first `n` elements of `v`, or all of it when it is shorter.
fn prefix_of(v: &Vec<usize>, n: usize) -> (r: Vec<usize>)
    ensures
        r@ == truncated(v@, n as nat),
{
    let len: usize = if v.len() < n { v.len() } else { n };
    let mut out: Vec<usize> = Vec::new();
    let mut i: usize = 0;
    while i < len
        invariant
            len <= v@.len(),
            i <= len,
            out@ == v@.take(i as int),
        decreases len - i,
    {
        out.push(v[i]);
        assert(v@.take(i + 1) =~= v@.take(i as int).push(v@[i as int]));
        i = i + 1;
    }
    assert(v@.take(v@.len() as int) =~= v@);
    out
}

/// `d` holds what precomputation owes datacenter `name` of `info` for the
/// factors that `strats` ask for there.
pub open spec fn dc_precomputed_ok(
    d: DatacenterPrecomputedReplicas,
    info: ReplicationInfo,
    strats: Seq<Strategy>,
    name: Seq<char>,
) -> bool {
    let idx = info.dc_index(name);
    &&& idx >= 0
    &&& idx < info.datacenters@.len()
    &&& d.wf()
    &&& {
        let src = info.datacenters@[idx];
        &&& d.compressed().is_some() ==> {
            let c = d.compressed().unwrap();
            &&& computes_in_dc(c.ring(), src, info.node_racks@, c.max())
            &&& requested(strats, name, c.max())
            &&& c.max() <= src.rack_count
            &&& forall|rf: usize|
                requested(strats, name, rf as nat) && rf <= src.rack_count ==> rf <= c.max()
        }
        &&& d.compressed().is_none() ==> forall|rf: usize|
            requested(strats, name, rf as nat) ==> rf > src.rack_count
        &&& forall|m: int|
            0 <= m < d.above().len() ==> {
                &&& (#[trigger] d.above()[m]).0 > src.rack_count
                &&& requested(strats, name, d.above()[m].0 as nat)
                &&& computes_in_dc(d.above()[m].1, src, info.node_racks@, d.above()[m].0 as nat)
            }
        &&& forall|rf: usize|
            requested(strats, name, rf as nat) && rf > src.rack_count ==> exists|m: int|
                0 <= m < d.above().len() && (#[trigger] d.above()[m]).0 == rf
    }
}

proof fn lemma_requested_step(strats: Seq<Strategy>, i: int, dc: Seq<char>, rf: nat)
    requires
        0 <= i < strats.len(),
    ensures
        requested(strats.take(i + 1), dc, rf) <==> (requested(strats.take(i), dc, rf) || exists|
            j: int,
        |
            0 <= j < nts_entries(strats[i]).len() && (#[trigger] nts_entries(strats[i])[j]).0@
                == dc && nts_entries(strats[i])[j].1 == rf),
{
    let a = strats.take(i + 1);
    let b = strats.take(i);
    if requested(a, dc, rf) {
        let (i2, j2) = choose|i2: int, j2: int|
            0 <= i2 < a.len() && 0 <= j2 < nts_entries(a[i2]).len() && (#[trigger] nts_entries(
                a[i2],
            )[j2]).0@ == dc && nts_entries(a[i2])[j2].1 == rf;
        if i2 < i {
            assert(b[i2] == a[i2]);
            assert(nts_entries(b[i2])[j2].0@ == dc);
        } else {
            assert(a[i2] == strats[i]);
            assert(nts_entries(strats[i])[j2].0@ == dc);
        }
    }
    if requested(b, dc, rf) {
        let (i2, j2) = choose|i2: int, j2: int|
            0 <= i2 < b.len() && 0 <= j2 < nts_entries(b[i2]).len() && (#[trigger] nts_entries(
                b[i2],
            )[j2]).0@ == dc && nts_entries(b[i2])[j2].1 == rf;
        assert(a[i2] == b[i2]);
        assert(nts_entries(a[i2])[j2].0@ == dc);
    }
    if exists|j: int|
        0 <= j < nts_entries(strats[i]).len() && (#[trigger] nts_entries(strats[i])[j]).0@ == dc
            && nts_entries(strats[i])[j].1 == rf {
        let j = choose|j: int|
            0 <= j < nts_entries(strats[i]).len() && (#[trigger] nts_entries(strats[i])[j]).0@
                == dc && nts_entries(strats[i])[j].1 == rf;
        assert(a[i] == strats[i]);
        assert(nts_entries(a[i])[j].0@ == dc);
    }
}

/// Whether one of the first `j` entries gives factor `rf` to datacenter `dc`.
spec fn dc_rf_in(entries: Seq<(String, usize)>, dc: Seq<char>, rf: usize, j: int) -> bool {
    exists|j2: int| 0 <= j2 < j && (#[trigger] entries[j2]).0@ == dc && entries[j2].1 == rf
}

/// Every factor that `strats` ask for in datacenter `dc`, possibly repeated.
fn requested_rfs(keyspaces: &Vec<(String, Strategy)>, dc: &String) -> (r: Vec<usize>)
    ensures
        forall|rf: usize|
            r@.contains(rf) <==> requested(strategies_of(keyspaces@), dc@, rf as nat),
{
    let ghost strats = strategies_of(keyspaces@);
    let mut out: Vec<usize> = Vec::new();
    let mut i: usize = 0;
    while i < keyspaces.len()
        invariant
            strats == strategies_of(keyspaces@),
            i <= strats.len(),
            forall|rf: usize|
                out@.contains(rf) <==> requested(strats.take(i as int), dc@, rf as nat),
        decreases strats.len() - i,
    {
        match &keyspaces[i].1 {
            Strategy::NetworkTopologyStrategy { datacenter_repfactors } => {
                let mut j: usize = 0;
                while j < datacenter_repfactors.len()
                    invariant
                        j <= datacenter_repfactors@.len(),
                        i < strats.len(),
                        datacenter_repfactors@ == nts_entries(strats[i as int]),
                        forall|rf: usize|
                            out@.contains(rf) <==> (requested(strats.take(i as int), dc@, rf as nat)
                                || dc_rf_in(datacenter_repfactors@, dc@, rf, j as int)),
                    decreases datacenter_repfactors@.len() - j,
                {
                    let ghost old_out = out@;
                    if datacenter_repfactors[j].0 == *dc {
                        out.push(datacenter_repfactors[j].1);
                    }
                    proof {
                        assert forall|rf: usize|
                            out@.contains(rf) <==> (old_out.contains(rf) || (
                            datacenter_repfactors@[j as int].0@ == dc@
                                && datacenter_repfactors@[j as int].1 == rf)) by {
                            if out@.contains(rf) && out@ != old_out {
                                let k = choose|k: int| 0 <= k < out@.len() && out@[k] == rf;
                                if k < old_out.len() {
                                    assert(old_out[k] == rf);
                                }
                            }
                            if old_out.contains(rf) {
                                let k = choose|k: int| 0 <= k < old_out.len() && old_out[k] == rf;
                                assert(out@[k] == rf);
                            }
                            if datacenter_repfactors@[j as int].0@ == dc@
                                && datacenter_repfactors@[j as int].1 == rf {
                                assert(out@[out@.len() - 1] == rf);
                            }
                        }
                        assert forall|rf: usize|
                            #[trigger] dc_rf_in(datacenter_repfactors@, dc@, rf, j + 1) <==> (
                            dc_rf_in(datacenter_repfactors@, dc@, rf, j as int) || (
                            datacenter_repfactors@[j as int].0@ == dc@
                                && datacenter_repfactors@[j as int].1 == rf)) by {
                            if dc_rf_in(datacenter_repfactors@, dc@, rf, j + 1) {
                                let j2 = choose|j2: int|
                                    0 <= j2 < j + 1 && (#[trigger] datacenter_repfactors@[j2]).0@
                                        == dc@ && datacenter_repfactors@[j2].1 == rf;
                                if j2 < j {
                                    assert(datacenter_repfactors@[j2].0@ == dc@);
                                }
                            }
                            if datacenter_repfactors@[j as int].0@ == dc@
                                && datacenter_repfactors@[j as int].1 == rf {
                                assert(datacenter_repfactors@[j as int].0@ == dc@);
                            }
                        }
                    }
                    proof {
                        assert forall|rf: usize|
                            out@.contains(rf) <==> (requested(strats.take(i as int), dc@, rf as nat)
                                || dc_rf_in(datacenter_repfactors@, dc@, rf, j + 1)) by {
                            assert(old_out.contains(rf) <==> (requested(
                                strats.take(i as int),
                                dc@,
                                rf as nat,
                            ) || dc_rf_in(datacenter_repfactors@, dc@, rf, j as int)));
                        }
                    }
                    j = j + 1;
                }
            },
            _ => {},
        }
        proof {
            assert forall|rf: usize|
                out@.contains(rf) <==> requested(strats.take(i + 1), dc@, rf as nat) by {
                lemma_requested_step(strats, i as int, dc@, rf as nat);
            }
        }
        i = i + 1;
    }
    assert(strats.take(strats.len() as int) =~= strats);
    out
}

/// The largest factor of `rfs` not above `rack_count`, and the distinct
/// factors above it.
fn split_rfs(rfs: &Vec<usize>, rack_count: usize) -> (r: (Option<usize>, Vec<usize>))
    ensures
        r.0.is_some() ==> rfs@.contains(r.0.unwrap()) && r.0.unwrap() <= rack_count && forall|
            x: usize,
        | rfs@.contains(x) && x <= rack_count ==> x <= r.0.unwrap(),
        r.0.is_none() ==> forall|x: usize| rfs@.contains(x) ==> x > rack_count,
        forall|x: usize|
            #![trigger r.1@.contains(x)]
            #![trigger rfs@.contains(x)]
            r.1@.contains(x) <==> (rfs@.contains(x) && x > rack_count),
        r.1@.no_duplicates(),
{
    let mut best: Option<usize> = None;
    let mut above: Vec<usize> = Vec::new();
    let mut i: usize = 0;
    while i < rfs.len()
        invariant
            i <= rfs@.len(),
            best.is_some() ==> (exists|k: int| 0 <= k < i && rfs@[k] == best.unwrap())
                && best.unwrap() <= rack_count && forall|k: int|
                0 <= k < i && rfs@[k] <= rack_count ==> rfs@[k] <= best.unwrap(),
            best.is_none() ==> forall|k: int| 0 <= k < i ==> rfs@[k] > rack_count,
            forall|x: usize|
                above@.contains(x) <==> ((exists|k: int| 0 <= k < i && rfs@[k] == x) && x
                    > rack_count),
            above@.no_duplicates(),
        decreases rfs@.len() - i,
    {
        let rf = rfs[i];
        let ghost old_above = above@;
        if rf <= rack_count {
            match best {
                Some(b) => {
                    if rf > b {
                        best = Some(rf);
                    }
                },
                None => {
                    best = Some(rf);
                },
            }
        } else if !crate::ring::vec_contains(&above, rf) {
            above.push(rf);
            proof {
                assert forall|a: int, b: int|
                    0 <= a < above@.len() && 0 <= b < above@.len() && a != b implies above@[a]
                    != above@[b] by {
                    if b == above@.len() - 1 {
                        assert(above@[a] == old_above[a]);
                        if above@[a] == rf {
                            assert(old_above.contains(rf));
                        }
                    } else if a == above@.len() - 1 {
                        assert(above@[b] == old_above[b]);
                        if above@[b] == rf {
                            assert(old_above.contains(rf));
                        }
                    } else {
                        assert(above@[a] == old_above[a]);
                        assert(above@[b] == old_above[b]);
                    }
                }
            }
        }
        proof {
            assert forall|x: usize|
                above@.contains(x) <==> ((exists|k: int| 0 <= k < i + 1 && rfs@[k] == x) && x
                    > rack_count) by {
                if above@.contains(x) && above@ != old_above {
                    let k = choose|k: int| 0 <= k < above@.len() && above@[k] == x;
                    if k < old_above.len() {
                        assert(old_above[k] == x);
                    }
                }
                if old_above.contains(x) {
                    let k = choose|k: int| 0 <= k < old_above.len() && old_above[k] == x;
                    assert(above@[k] == x);
                }
                if x == rf && x > rack_count {
                    if !old_above.contains(x) {
                        assert(above@[above@.len() - 1] == x);
                    }
                }
            }
        }
        i = i + 1;
    }
    (best, above)
}

/// The ring of replica lists of every entry of `src` for factor `rf`.
fn produce_replica_ring(src: &TokenRing<usize>, rf: usize) -> (r: TokenRing<Vec<usize>>)
    ensures
        computes(r, *src, rf as nat),
{
    let n = src.len();
    let mut out: Vec<(Token, Vec<usize>)> = Vec::new();
    let mut i: usize = 0;
    while i < n
        invariant
            n == src.entries().len(),
            i <= n,
            out@.len() == i,
            forall|k: int|
                0 <= k < i ==> (#[trigger] out@[k]).0 == src.entries()[k].0 && out@[k].1@
                    == walk_replicas(*src, src.entries()[k].0.value, rf as nat),
        decreases n - i,
    {
        let token = src.entry(i).0;
        let replicas = walk_distinct(src, token, rf);
        out.push((token, replicas));
        i = i + 1;
    }
    TokenRing::new(out)
}

/// The ring of rack-aware replica lists of every entry of datacenter ring
/// `dc` for factor `rf`.
fn produce_dc_replica_ring(info: &ReplicationInfo, dc: &DatacenterRing, rf: usize) -> (r: TokenRing<
    Vec<usize>,
>)
    ensures
        computes_in_dc(r, *dc, info.node_racks@, rf as nat),
{
    let n = dc.ring.len();
    let mut out: Vec<(Token, Vec<usize>)> = Vec::new();
    let mut i: usize = 0;
    while i < n
        invariant
            n == dc.ring.entries().len(),
            i <= n,
            out@.len() == i,
            forall|k: int|
                0 <= k < i ==> (#[trigger] out@[k]).0 == dc.ring.entries()[k].0 && out@[k].1@
                    == rack_walk_replicas(
                    dc.ring,
                    info.node_racks@,
                    dc.rack_count as nat,
                    dc.ring.entries()[k].0.value,
                    rf as nat,
                ),
        decreases n - i,
    {
        let token = dc.ring.entry(i).0;
        let replicas = walk_racks(&dc.ring, &info.node_racks, dc.rack_count, token, rf);
        out.push((token, replicas));
        i = i + 1;
    }
    TokenRing::new(out)
}

impl PrecomputedReplicas {
    /// Precomputes the replica lists for the strategies of all `keyspaces`:
    /// the global ring for the largest SimpleStrategy factor, and each
    /// datacenter for the factors that NetworkTopologyStrategies ask of it.
    pub fn compute(replication_data: &ReplicationInfo, keyspaces: &Vec<(String, Strategy)>) -> (r:
        PrecomputedReplicas)
        ensures
            r.global().max() == max_simple_rf(strategies_of(keyspaces@)),
            computes(r.global().ring(), replication_data.global_ring, r.global().max()),
            r.wf(),
            forall|m: int|
                0 <= m < r.datacenters().len() ==> dc_precomputed_ok(
                    (#[trigger] r.datacenters()[m]).1,
                    *replication_data,
                    strategies_of(keyspaces@),
                    r.datacenters()[m].0@,
                ),
            forall|k: int, rf: usize|
                0 <= k < replication_data.datacenters@.len() && replication_data.dc_index(
                    replication_data.datacenters@[k].name@,
                ) == k && #[trigger] requested(
                    strategies_of(keyspaces@),
                    replication_data.datacenters@[k].name@,
                    rf as nat,
                ) ==> name_index(r.datacenters(), replication_data.datacenters@[k].name@) >= 0,
    {
        let ghost strats = strategies_of(keyspaces@);
        let min_precomputed_rep_factor: usize = 1;
        let mut max_global_repfactor: usize = min_precomputed_rep_factor;
        let mut i: usize = 0;
        while i < keyspaces.len()
            invariant
                strats == strategies_of(keyspaces@),
                i <= strats.len(),
                max_global_repfactor == max_simple_rf(strats.take(i as int)),
            decreases strats.len() - i,
        {
            assert(strats.take(i + 1).drop_last() =~= strats.take(i as int));
            match &keyspaces[i].1 {
                Strategy::SimpleStrategy { replication_factor } => {
                    if *replication_factor > max_global_repfactor {
                        max_global_repfactor = *replication_factor;
                    }
                },
                Strategy::NetworkTopologyStrategy { .. } => {},
                Strategy::LocalStrategy => {},
                Strategy::Other { .. } => {},
            }
            i = i + 1;
        }
        assert(strats.take(strats.len() as int) =~= strats);
        let global_replicas = PrecomputedReplicasRing {
            replicas_for_token: produce_replica_ring(
                &replication_data.global_ring,
                max_global_repfactor,
            ),
            max_rep_factor: max_global_repfactor,
        };
        let dcs = &replication_data.datacenters;
        let mut datacenter_replicas: Vec<(String, DatacenterPrecomputedReplicas)> = Vec::new();
        let mut k: usize = 0;
        while k < dcs.len()
            invariant
                strats == strategies_of(keyspaces@),
                k <= dcs@.len(),
                *dcs == replication_data.datacenters,
                forall|m: int|
                    0 <= m < datacenter_replicas@.len() ==> dc_precomputed_ok(
                        (#[trigger] datacenter_replicas@[m]).1,
                        *replication_data,
                        strats,
                        datacenter_replicas@[m].0@,
                    ),
                forall|k2: int, rf: usize|
                    0 <= k2 < k && replication_data.dc_index(dcs@[k2].name@) == k2
                        && #[trigger] requested(strats, dcs@[k2].name@, rf as nat) ==> name_index(
                        datacenter_replicas@,
                        dcs@[k2].name@,
                    ) >= 0,
            decreases dcs@.len() - k,
        {
            let dc: &DatacenterRing = &dcs[k];
            let ghost old_reps = datacenter_replicas@;
            let found = replication_data.find_datacenter(&dc.name);
            if found == Some(k) {
                let rfs = requested_rfs(keyspaces, &dc.name);
                let (best, above_rfs) = split_rfs(&rfs, dc.rack_count);
                if best.is_some() || above_rfs.len() > 0 {
                    let compressed_replica_ring = match best {
                        Some(rf) => Some(
                            PrecomputedReplicasRing {
                                replicas_for_token: produce_dc_replica_ring(
                                    replication_data,
                                    dc,
                                    rf,
                                ),
                                max_rep_factor: rf,
                            },
                        ),
                        None => None,
                    };
                    let mut above: Vec<(usize, TokenRing<Vec<usize>>)> = Vec::new();
                    let mut m: usize = 0;
                    while m < above_rfs.len()
                        invariant
                            m <= above_rfs@.len(),
                            above@.len() == m,
                            forall|q: int|
                                0 <= q < m ==> (#[trigger] above@[q]).0 == above_rfs@[q]
                                    && computes_in_dc(
                                    above@[q].1,
                                    *dc,
                                    replication_data.node_racks@,
                                    above_rfs@[q] as nat,
                                ),
                        decreases above_rfs@.len() - m,
                    {
                        let rf = above_rfs[m];
                        above.push((rf, produce_dc_replica_ring(replication_data, dc, rf)));
                        m = m + 1;
                    }
                    let d = DatacenterPrecomputedReplicas {
                        compressed_replica_ring,
                        above_rack_count_replica_rings: above,
                    };
                    proof {
                        assert forall|rf: usize|
                            requested(strats, dc.name@, rf as nat) && rf > dc.rack_count
                                implies exists|q: int|
                            0 <= q < d.above().len() && (#[trigger] d.above()[q]).0 == rf by {
                            assert(rfs@.contains(rf));
                            assert(above_rfs@.contains(rf));
                            let q = choose|q: int| 0 <= q < above_rfs@.len() && above_rfs@[q] == rf;
                            assert(d.above()[q].0 == rf);
                        }
                        assert forall|q: int|
                            0 <= q < d.above().len() implies requested(
                            strats,
                            dc.name@,
                            (#[trigger] d.above()[q]).0 as nat,
                        ) by {
                            let x = above_rfs@[q];
                            assert(d.above()[q].0 == x);
                            assert(above_rfs@.contains(x));
                            assert(rfs@.contains(x));
                        }
                        assert forall|a: int, b: int|
                            0 <= a < b < d.above().len() implies d.above()[a].0
                            != d.above()[b].0 by {
                            assert(d.above()[a].0 == above_rfs@[a]);
                            assert(d.above()[b].0 == above_rfs@[b]);
                        }
                        assert(d.wf());
                        assert(replication_data.datacenters@[k as int] == *dc);
                        if best.is_some() {
                            let b = best.unwrap();
                            assert(rfs@.contains(b));
                            assert(requested(strats, dc.name@, b as nat));
                            assert forall|rf: usize|
                                requested(strats, dc.name@, rf as nat) && rf <= dc.rack_count
                                    implies rf <= b by {
                                assert(rfs@.contains(rf));
                            }
                        } else {
                            assert forall|rf: usize|
                                requested(strats, dc.name@, rf as nat) implies rf
                                > dc.rack_count by {
                                assert(rfs@.contains(rf));
                            }
                        }
                        assert forall|q: int|
                            0 <= q < d.above().len() implies (#[trigger] d.above()[q]).0
                            > dc.rack_count && computes_in_dc(
                            d.above()[q].1,
                            *dc,
                            replication_data.node_racks@,
                            d.above()[q].0 as nat,
                        ) by {
                            assert(d.above()[q] == above@[q]);
                            assert(above@[q].0 == above_rfs@[q]);
                            assert(computes_in_dc(
                                above@[q].1,
                                *dc,
                                replication_data.node_racks@,
                                above_rfs@[q] as nat,
                            ));
                            assert(above_rfs@.contains(above_rfs@[q]));
                            assert(above_rfs@[q] > dc.rack_count);
                        }
                        if d.compressed().is_some() {
                            assert(computes_in_dc(
                                d.compressed().unwrap().ring(),
                                *dc,
                                replication_data.node_racks@,
                                d.compressed().unwrap().max(),
                            ));
                        }
                        assert(dc_precomputed_ok(d, *replication_data, strats, dc.name@));
                    }
                    datacenter_replicas.push((dc.name.clone(), d));
                    proof {
                        assert forall|k2: int, rf: usize|
                            0 <= k2 < k + 1 && replication_data.dc_index(
                                dcs@[k2].name@,
                            ) == k2 && #[trigger] requested(strats, dcs@[k2].name@, rf as nat) implies name_index(
                            datacenter_replicas@,
                            dcs@[k2].name@,
                        ) >= 0 by {
                            lemma_name_index_grow(old_reps, datacenter_replicas@, dcs@[k2].name@);
                        }
                    }
                } else {
                    proof {
                        assert forall|rf: usize|
                            !requested(strats, dc.name@, rf as nat) by {
                            if requested(strats, dc.name@, rf as nat) {
                                assert(rfs@.contains(rf));
                                if rf > dc.rack_count {
                                    assert(above_rfs@.contains(rf));
                                    let q = choose|q: int|
                                        0 <= q < above_rfs@.len() && above_rfs@[q] == rf;
                                }
                            }
                        }
                    }
                }
            }
            k = k + 1;
        }
        PrecomputedReplicas { global_replicas, datacenter_replicas }
    }
}

/// Appending to a sequence of named pairs keeps every name it had.
proof fn lemma_name_index_grow<V>(a: Seq<(String, V)>, b: Seq<(String, V)>, name: Seq<char>)
    requires
        a.len() < b.len(),
        forall|i: int| 0 <= i < a.len() ==> a[i] == b[i],
        b.last().0@ == name || name_index(a, name) >= 0,
    ensures
        name_index(b, name) >= 0,
{
    lemma_name_index_prefix(a, b, name, 0);
}

proof fn lemma_name_index_prefix<V>(a: Seq<(String, V)>, b: Seq<(String, V)>, name: Seq<char>, i: int)
    requires
        0 <= i <= a.len(),
        a.len() < b.len(),
        forall|k: int| 0 <= k < a.len() ==> a[k] == b[k],
        b.last().0@ == name || name_index_from(a, name, i) >= 0,
    ensures
        name_index_from(b, name, i) >= 0,
    decreases b.len() - i,
{
    if i < b.len() && b[i].0@ != name {
        if i < a.len() {
            assert(a[i] == b[i]);
        }
        if i + 1 <= a.len() {
            lemma_name_index_prefix(a, b, name, i + 1);
        } else {
            lemma_name_index_last(b, name, i + 1);
        }
    }
}

proof fn lemma_name_index_last<V>(b: Seq<(String, V)>, name: Seq<char>, i: int)
    requires
        0 <= i < b.len(),
        b.last().0@ == name,
    ensures
        name_index_from(b, name, i) >= 0,
    decreases b.len() - i,
{
    if b[i].0@ != name {
        lemma_name_index_last(b, name, i + 1);
    }
}

/// For factors `k <= k2` up to the largest precomputed one, the replicas a
/// SimpleStrategy lookup gives for `k` are a prefix of those it gives for `k2`.
pub proof fn lemma_simple_lookup_prefix(p: PrecomputedReplicas, t: i64, k: nat, k2: nat)
    requires
        k <= k2 <= p.global().max(),
    ensures
        p.simple_lookup(t, k).is_some() == p.simple_lookup(t, k2).is_some(),
        p.simple_lookup(t, k).is_some() ==> p.simple_lookup(t, k).unwrap().is_prefix_of(
            p.simple_lookup(t, k2).unwrap(),
        ),
{
    if p.simple_lookup(t, k).is_some() {
        let l = p.global().ring().owner(t).unwrap()@;
        let a = truncated(l, k);
        let b = truncated(l, k2);
        assert(a.len() <= b.len());
        assert forall|i: int| 0 <= i < a.len() implies a[i] == b[i] by {}
    }
}

/// A SimpleStrategy lookup for a factor above the largest precomputed one
/// yields nothing.
pub proof fn lemma_simple_lookup_above_max(p: PrecomputedReplicas, t: i64, rf: nat)
    requires
        rf > p.global().max(),
    ensures
        p.simple_lookup(t, rf).is_none(),
{
}

/// When the global ring was precomputed from `src` for its largest factor,
/// the lookup at entry `i`'s token for any factor `k` up to it is exactly the
/// ring walk for `k`: truncating the longest list loses nothing.
pub proof fn lemma_simple_lookup_exact(
    p: PrecomputedReplicas,
    src: TokenRing<usize>,
    i: int,
    k: nat,
)
    requires
        computes(p.global().ring(), src, p.global().max()),
        0 <= i < src.entries().len(),
        p.global().ring().owner_index(src.entries()[i].0.value) == i,
        k <= p.global().max(),
    ensures
        p.simple_lookup(src.entries()[i].0.value, k) == Some(
            walk_replicas(src, src.entries()[i].0.value, k),
        ),
{
    let t = src.entries()[i].0.value;
    let s = rotated(ring_values(src.entries()), src.owner_index(t));
    lemma_first_distinct_prefix(s, k, p.global().max());
    let full = first_distinct(s, p.global().max());
    assert(p.global().ring().entries()[i].1@ == full);
    if full.len() < k {
        assert(full.take(full.len() as int) =~= full);
    }
}

/// Within a datacenter, for factors `k <= k2` that its compressed ring
/// answers, the replicas a lookup gives for `k` are a prefix of those it
/// gives for `k2`.
pub proof fn lemma_network_lookup_prefix(
    p: PrecomputedReplicas,
    t: i64,
    dc: Seq<char>,
    k: nat,
    k2: nat,
)
    requires
        name_index(p.datacenters(), dc) >= 0,
        p.datacenters()[name_index(p.datacenters(), dc)].1.compressed().is_some(),
        k <= k2 <= p.datacenters()[name_index(p.datacenters(), dc)].1.compressed().unwrap().max(),
    ensures
        p.network_lookup(t, dc, k).is_some() == p.network_lookup(t, dc, k2).is_some(),
        p.network_lookup(t, dc, k).is_some() ==> p.network_lookup(t, dc, k).unwrap().is_prefix_of(
            p.network_lookup(t, dc, k2).unwrap(),
        ),
{
    if p.network_lookup(t, dc, k).is_some() {
        let ring = p.datacenters()[name_index(p.datacenters(), dc)].1.compressed().unwrap().ring();
        let l = ring.owner(t).unwrap()@;
        let a = truncated(l, k);
        let b = truncated(l, k2);
        assert forall|i: int| 0 <= i < a.len() implies a[i] == b[i] by {}
    }
}

/// When datacenter `dc` was precomputed from `info`, a lookup through its
/// compressed ring at entry `i`'s token for any factor `k` up to the ring's
/// own is exactly the rack-aware walk for `k`: truncation loses nothing, as
/// that factor does not exceed the rack count.
pub proof fn lemma_network_lookup_exact(
    p: PrecomputedReplicas,
    info: ReplicationInfo,
    strats: Seq<Strategy>,
    dc: Seq<char>,
    i: int,
    k: nat,
)
    requires
        name_index(p.datacenters(), dc) >= 0,
        dc_precomputed_ok(p.datacenters()[name_index(p.datacenters(), dc)].1, info, strats, dc),
        p.datacenters()[name_index(p.datacenters(), dc)].1.compressed().is_some(),
        k <= p.datacenters()[name_index(p.datacenters(), dc)].1.compressed().unwrap().max(),
        0 <= i < info.datacenters@[info.dc_index(dc)].ring.entries().len(),
        p.datacenters()[name_index(p.datacenters(), dc)].1.compressed().unwrap().ring().owner_index(
            info.datacenters@[info.dc_index(dc)].ring.entries()[i].0.value,
        ) == i,
    ensures
        p.network_lookup(info.datacenters@[info.dc_index(dc)].ring.entries()[i].0.value, dc, k)
            == Some(
            rack_walk_replicas(
                info.datacenters@[info.dc_index(dc)].ring,
                info.node_racks@,
                info.datacenters@[info.dc_index(dc)].rack_count as nat,
                info.datacenters@[info.dc_index(dc)].ring.entries()[i].0.value,
                k,
            ),
        ),
{
    let src = info.datacenters@[info.dc_index(dc)];
    let c = p.datacenters()[name_index(p.datacenters(), dc)].1.compressed().unwrap();
    let t = src.ring.entries()[i].0.value;
    let rot = rotated(ring_values(src.ring.entries()), src.ring.owner_index(t));
    let racks = info.node_racks@;
    let rc = src.rack_count as nat;
    lemma_rack_walk_prefix(rot, racks, rc, k, c.max());
    let full = rack_walk(rot, racks, rc, c.max()).0;
    assert(c.ring().entries()[i].1@ == full);
    if rack_walk(rot, racks, rc, k).0.len() < k {
        assert(full.take(full.len() as int) =~= full);
    }
}

} // verus!
