//! What holds of every pick and every plan of the default policy, whatever
//! the random draws were.

use vstd::prelude::*;
use crate::cluster::{in_dc, lemma_keep_in_contains, ClusterData};
use crate::policy::{alive, lemma_passing_contains, lemma_rotated_contains, passes, passing, DefaultPolicy, RoutingInfo};
use crate::ring::{dedup, lemma_concat_contains, lemma_dedup_concat_prefix, lemma_dedup_props, lemma_name_index_range, name_index};
use crate::topology::is_local_consistency;

verus! {

broadcast use vstd::seq_lib::group_to_multiset_ensures;

/// Every node of the preferred set is in the preferred datacenter.
proof fn lemma_preferred_nodes_in_dc(p: DefaultPolicy, cluster: ClusterData, d: Seq<char>, x: usize)
    requires
        cluster.wf(),
        p.preferred() == Some(d),
        p.preferred_nodes(cluster).contains(x),
    ensures
        x < cluster.nodes().len(),
        in_dc(cluster.nodes()[x as int], d),
{
    lemma_name_index_range(cluster.dc_nodes(), d, 0);
    let k = name_index(cluster.dc_nodes(), d);
    let l = p.preferred_nodes(cluster);
    let j = choose|j: int| 0 <= j < l.len() && l[j] == x;
    assert(cluster.dc_nodes()[k].0@ == d);
}

/// Every local replica candidate is in the preferred datacenter.
proof fn lemma_local_replicas_in_dc(
    p: DefaultPolicy,
    query: RoutingInfo,
    cluster: ClusterData,
    d: Seq<char>,
    x: usize,
)
    requires
        p.preferred() == Some(d),
        p.replica_candidates(query, cluster, true).contains(x),
    ensures
        x < cluster.nodes().len(),
        in_dc(cluster.nodes()[x as int], d),
{
    let (t, s) = p.token_and_strategy(query, cluster).unwrap();
    let base = cluster.strategy_replicas(t, s, Some(d));
    lemma_keep_in_contains(base, cluster.nodes(), Some(d), x);
}

/// Every node of a plan is enabled, and no node appears twice in it.
pub proof fn lemma_fallback_distinct_enabled(
    p: DefaultPolicy,
    query: RoutingInfo,
    cluster: ClusterData,
    plan: Seq<usize>,
)
    requires
        p.fallback_ok(query, cluster, plan),
    ensures
        plan.no_duplicates(),
        forall|k: int|
            0 <= k < plan.len() ==> plan[k] < cluster.nodes().len() && cluster.nodes()[plan[k] as int].enabled,
{
    let (lo, ro, s1, s2) = choose|lo: Seq<usize>, ro: Seq<usize>, s1: int, s2: int|
        #![trigger p.plan(query, cluster, lo, ro, s1, s2)]
        lo.to_multiset() == p.local_live_replicas(query, cluster).to_multiset()
            && ro.to_multiset() == p.all_live_replicas(query, cluster).to_multiset() && 0 <= s1
            && (s1 < p.preferred_nodes(cluster).len() || s1 == 0) && 0 <= s2 && (s2
            < cluster.all_nodes().len() || s2 == 0) && plan == p.plan(query, cluster, lo, ro, s1, s2);
    let fo = p.failover_possible(query);
    let pn = p.preferred_nodes(cluster);
    let an = cluster.all_nodes();
    let t1 = p.replica_tier(query, cluster, lo, ro);
    let t2 = passing(cluster, crate::ring::rotated(pn, s1), true);
    let t3 = if fo { passing(cluster, crate::ring::rotated(an, s2), true) } else { Seq::empty() };
    let t4 = passing(cluster, pn, false);
    let t5 = if fo { passing(cluster, an, false) } else { Seq::empty() };
    let all = t1 + t2 + t3 + t4 + t5;
    assert(plan == dedup(all));
    lemma_dedup_props(all);
    assert forall|k: int| 0 <= k < plan.len() implies plan[k] < cluster.nodes().len()
        && cluster.nodes()[plan[k] as int].enabled by {
        let x = plan[k];
        assert(plan.contains(x));
        lemma_concat_contains(t1 + t2 + t3 + t4, t5, x);
        lemma_concat_contains(t1 + t2 + t3, t4, x);
        lemma_concat_contains(t1 + t2, t3, x);
        lemma_concat_contains(t1, t2, x);
        lemma_passing_contains(cluster, crate::ring::rotated(pn, s1), true, x);
        lemma_passing_contains(cluster, crate::ring::rotated(an, s2), true, x);
        lemma_passing_contains(cluster, pn, false, x);
        lemma_passing_contains(cluster, an, false, x);
        if t1.contains(x) {
            let r = if fo { ro } else { Seq::<usize>::empty() };
            lemma_concat_contains(lo, r, x);
            lemma_passing_contains(cluster, p.replica_candidates(query, cluster, true), true, x);
            lemma_passing_contains(cluster, p.replica_candidates(query, cluster, false), true, x);
            lo.to_multiset_ensures();
            ro.to_multiset_ensures();
            p.local_live_replicas(query, cluster).to_multiset_ensures();
            p.all_live_replicas(query, cluster).to_multiset_ensures();
            if lo.contains(x) {
                assert(lo.to_multiset().count(x) > 0);
                assert(p.local_live_replicas(query, cluster).contains(x));
            } else {
                assert(ro.contains(x));
                assert(ro.to_multiset().count(x) > 0);
                assert(p.all_live_replicas(query, cluster).contains(x));
            }
        }
    }
}

/// Without datacenter failover, a plan opens with its replicas, all of them
/// in the preferred datacenter.
pub proof fn lemma_fallback_replicas_local(
    p: DefaultPolicy,
    query: RoutingInfo,
    cluster: ClusterData,
    d: Seq<char>,
    lo: Seq<usize>,
    ro: Seq<usize>,
    s1: int,
    s2: int,
)
    requires
        p.preferred() == Some(d),
        !p.failover_possible(query),
        lo.to_multiset() == p.local_live_replicas(query, cluster).to_multiset(),
    ensures
        dedup(p.replica_tier(query, cluster, lo, ro)).is_prefix_of(
            p.plan(query, cluster, lo, ro, s1, s2),
        ),
        forall|k: int|
            0 <= k < dedup(p.replica_tier(query, cluster, lo, ro)).len() ==> {
                let x = #[trigger] dedup(p.replica_tier(query, cluster, lo, ro))[k];
                x < cluster.nodes().len() && in_dc(cluster.nodes()[x as int], d)
            },
{
    let t1 = p.replica_tier(query, cluster, lo, ro);
    lemma_plan_opens_with_replicas(p, query, cluster, lo, ro, s1, s2);
    lemma_dedup_props(t1);
    assert forall|k: int| 0 <= k < dedup(t1).len() implies {
        let x = #[trigger] dedup(t1)[k];
        x < cluster.nodes().len() && in_dc(cluster.nodes()[x as int], d)
    } by {
        let x = dedup(t1)[k];
        assert(dedup(t1).contains(x));
        assert(t1.contains(x));
        lemma_concat_contains(lo, Seq::<usize>::empty(), x);
        assert(lo.contains(x));
        lo.to_multiset_ensures();
        p.local_live_replicas(query, cluster).to_multiset_ensures();
        assert(lo.to_multiset().count(x) > 0);
        assert(p.local_live_replicas(query, cluster).contains(x));
        lemma_passing_contains(cluster, p.replica_candidates(query, cluster, true), true, x);
        lemma_local_replicas_in_dc(p, query, cluster, d, x);
    }
}

/// Whether `x` belongs in a plan for `query`, whatever the draws: a live
/// replica of a tier in use, or a node of a tier in use passing its filter.
pub open spec fn plan_member(p: DefaultPolicy, query: RoutingInfo, cluster: ClusterData, x: usize) -> bool {
    let fo = p.failover_possible(query);
    let ts = p.token_and_strategy(query, cluster).is_some();
    let pn = p.preferred_nodes(cluster);
    let an = cluster.all_nodes();
    ||| ts && p.local_live_replicas(query, cluster).contains(x)
    ||| ts && fo && p.all_live_replicas(query, cluster).contains(x)
    ||| pn.contains(x) && passes(cluster, x, true)
    ||| fo && an.contains(x) && passes(cluster, x, true)
    ||| pn.contains(x) && passes(cluster, x, false)
    ||| fo && an.contains(x) && passes(cluster, x, false)
}

/// The members of a plan do not depend on the draws it was made from.
pub proof fn lemma_plan_members(
    p: DefaultPolicy,
    query: RoutingInfo,
    cluster: ClusterData,
    lo: Seq<usize>,
    ro: Seq<usize>,
    s1: int,
    s2: int,
    x: usize,
)
    requires
        lo.to_multiset() == p.local_live_replicas(query, cluster).to_multiset(),
        ro.to_multiset() == p.all_live_replicas(query, cluster).to_multiset(),
        0 <= s1 < p.preferred_nodes(cluster).len() || (s1 == 0 && p.preferred_nodes(
            cluster,
        ).len() == 0) || s1 == 0,
        0 <= s2 < cluster.all_nodes().len() || s2 == 0,
    ensures
        p.plan(query, cluster, lo, ro, s1, s2).contains(x) <==> plan_member(p, query, cluster, x),
{
    let fo = p.failover_possible(query);
    let pn = p.preferred_nodes(cluster);
    let an = cluster.all_nodes();
    let t1 = p.replica_tier(query, cluster, lo, ro);
    let t2 = passing(cluster, crate::ring::rotated(pn, s1), true);
    let t3 = if fo { passing(cluster, crate::ring::rotated(an, s2), true) } else { Seq::empty() };
    let t4 = passing(cluster, pn, false);
    let t5 = if fo { passing(cluster, an, false) } else { Seq::empty() };
    let all = t1 + t2 + t3 + t4 + t5;
    lemma_dedup_props(all);
    lemma_concat_contains(t1 + t2 + t3 + t4, t5, x);
    lemma_concat_contains(t1 + t2 + t3, t4, x);
    lemma_concat_contains(t1 + t2, t3, x);
    lemma_concat_contains(t1, t2, x);
    lemma_passing_contains(cluster, crate::ring::rotated(pn, s1), true, x);
    lemma_passing_contains(cluster, crate::ring::rotated(an, s2), true, x);
    lemma_passing_contains(cluster, pn, false, x);
    lemma_passing_contains(cluster, an, false, x);
    lemma_rotated_contains(pn, s1, x);
    lemma_rotated_contains(an, s2, x);
    let r = if fo { ro } else { Seq::<usize>::empty() };
    lemma_concat_contains(lo, r, x);
    lo.to_multiset_ensures();
    ro.to_multiset_ensures();
    p.local_live_replicas(query, cluster).to_multiset_ensures();
    p.all_live_replicas(query, cluster).to_multiset_ensures();
    if lo.contains(x) {
        assert(lo.to_multiset().count(x) > 0);
    }
    if p.local_live_replicas(query, cluster).contains(x) {
        assert(p.local_live_replicas(query, cluster).to_multiset().count(x) > 0);
    }
    if ro.contains(x) {
        assert(ro.to_multiset().count(x) > 0);
    }
    if p.all_live_replicas(query, cluster).contains(x) {
        assert(p.all_live_replicas(query, cluster).to_multiset().count(x) > 0);
    }
}

/// Two plans for the same query on the same cluster hold the same nodes and
/// are as long; each opens with its replica tier, and those tiers hold the
/// same nodes. Only the order within the randomised tiers may differ.
pub proof fn lemma_fallback_same_members(
    p: DefaultPolicy,
    query: RoutingInfo,
    cluster: ClusterData,
    plan1: Seq<usize>,
    plan2: Seq<usize>,
)
    requires
        p.fallback_ok(query, cluster, plan1),
        p.fallback_ok(query, cluster, plan2),
    ensures
        forall|x: usize| plan1.contains(x) <==> plan2.contains(x),
        plan1.len() == plan2.len(),
        exists|lo1: Seq<usize>, ro1: Seq<usize>, lo2: Seq<usize>, ro2: Seq<usize>|
            {
                let r1 = dedup(#[trigger] p.replica_tier(query, cluster, lo1, ro1));
                let r2 = dedup(#[trigger] p.replica_tier(query, cluster, lo2, ro2));
                &&& r1.is_prefix_of(plan1)
                &&& r2.is_prefix_of(plan2)
                &&& r1.len() == r2.len()
                &&& forall|x: usize| r1.contains(x) <==> r2.contains(x)
            },
{
    let (lo1, ro1, a1, b1) = choose|lo: Seq<usize>, ro: Seq<usize>, s1: int, s2: int|
        #![trigger p.plan(query, cluster, lo, ro, s1, s2)]
        lo.to_multiset() == p.local_live_replicas(query, cluster).to_multiset()
            && ro.to_multiset() == p.all_live_replicas(query, cluster).to_multiset() && 0 <= s1
            && (s1 < p.preferred_nodes(cluster).len() || s1 == 0) && 0 <= s2 && (s2
            < cluster.all_nodes().len() || s2 == 0) && plan1 == p.plan(query, cluster, lo, ro, s1, s2);
    let (lo2, ro2, a2, b2) = choose|lo: Seq<usize>, ro: Seq<usize>, s1: int, s2: int|
        #![trigger p.plan(query, cluster, lo, ro, s1, s2)]
        lo.to_multiset() == p.local_live_replicas(query, cluster).to_multiset()
            && ro.to_multiset() == p.all_live_replicas(query, cluster).to_multiset() && 0 <= s1
            && (s1 < p.preferred_nodes(cluster).len() || s1 == 0) && 0 <= s2 && (s2
            < cluster.all_nodes().len() || s2 == 0) && plan2 == p.plan(query, cluster, lo, ro, s1, s2);
    assert forall|x: usize| plan1.contains(x) <==> plan2.contains(x) by {
        lemma_plan_members(p, query, cluster, lo1, ro1, a1, b1, x);
        lemma_plan_members(p, query, cluster, lo2, ro2, a2, b2, x);
    }
    lemma_fallback_distinct_enabled(p, query, cluster, plan1);
    lemma_fallback_distinct_enabled(p, query, cluster, plan2);
    lemma_same_members_same_len(plan1, plan2);
    let t1 = p.replica_tier(query, cluster, lo1, ro1);
    let t2 = p.replica_tier(query, cluster, lo2, ro2);
    lemma_plan_opens_with_replicas(p, query, cluster, lo1, ro1, a1, b1);
    lemma_plan_opens_with_replicas(p, query, cluster, lo2, ro2, a2, b2);
    lemma_dedup_props(t1);
    lemma_dedup_props(t2);
    assert forall|x: usize| dedup(t1).contains(x) <==> dedup(t2).contains(x) by {
        let fo = p.failover_possible(query);
        let e = Seq::<usize>::empty();
        lemma_concat_contains(lo1, if fo { ro1 } else { e }, x);
        lemma_concat_contains(lo2, if fo { ro2 } else { e }, x);
        lo1.to_multiset_ensures();
        ro1.to_multiset_ensures();
        lo2.to_multiset_ensures();
        ro2.to_multiset_ensures();
        if lo1.contains(x) || lo2.contains(x) {
            assert(lo1.to_multiset().count(x) == lo2.to_multiset().count(x));
        }
        if ro1.contains(x) || ro2.contains(x) {
            assert(ro1.to_multiset().count(x) == ro2.to_multiset().count(x));
        }
    }
    lemma_same_members_same_len(dedup(t1), dedup(t2));
}

/// Two sequences without duplicates holding the same elements are as long.
proof fn lemma_same_members_same_len(a: Seq<usize>, b: Seq<usize>)
    requires
        a.no_duplicates(),
        b.no_duplicates(),
        forall|x: usize| a.contains(x) <==> b.contains(x),
    ensures
        a.len() == b.len(),
{
    a.unique_seq_to_set();
    b.unique_seq_to_set();
    assert(a.to_set() =~= b.to_set());
}

/// A plan opens with its replica tier, deduplicated.
proof fn lemma_plan_opens_with_replicas(
    p: DefaultPolicy,
    query: RoutingInfo,
    cluster: ClusterData,
    lo: Seq<usize>,
    ro: Seq<usize>,
    s1: int,
    s2: int,
)
    ensures
        dedup(p.replica_tier(query, cluster, lo, ro)).is_prefix_of(
            p.plan(query, cluster, lo, ro, s1, s2),
        ),
{
    let fo = p.failover_possible(query);
    let pn = p.preferred_nodes(cluster);
    let an = cluster.all_nodes();
    let t1 = p.replica_tier(query, cluster, lo, ro);
    let t2 = passing(cluster, crate::ring::rotated(pn, s1), true);
    let t3 = if fo { passing(cluster, crate::ring::rotated(an, s2), true) } else { Seq::empty() };
    let t4 = passing(cluster, pn, false);
    let t5 = if fo { passing(cluster, an, false) } else { Seq::empty() };
    assert(t1 + t2 + t3 + t4 + t5 =~= t1 + (t2 + t3 + t4 + t5));
    lemma_dedup_concat_prefix(t1, t2 + t3 + t4 + t5);
}

/// Without datacenter failover permitted, a pick never leaves the preferred
/// datacenter.
pub proof fn lemma_no_failover_pick_local(
    p: DefaultPolicy,
    query: RoutingInfo,
    cluster: ClusterData,
    d: Seq<char>,
    r: Option<usize>,
)
    requires
        cluster.wf(),
        p.preferred() == Some(d),
        !p.failover_permitted(),
        p.pick_ok(query, cluster, r),
    ensures
        r.is_some() ==> r.unwrap() < cluster.nodes().len() && in_dc(
            cluster.nodes()[r.unwrap() as int],
            d,
        ),
{
    if r.is_some() {
        let x = r.unwrap();
        let pn = p.preferred_nodes(cluster);
        lemma_passing_contains(cluster, p.replica_candidates(query, cluster, true), true, x);
        lemma_passing_contains(cluster, pn, true, x);
        lemma_passing_contains(cluster, pn, false, x);
        if p.local_live_replicas(query, cluster).len() > 0 {
            lemma_local_replicas_in_dc(p, query, cluster, d, x);
        } else if pn.contains(x) {
            lemma_preferred_nodes_in_dc(p, cluster, d, x);
        } else {
            assert(pn.len() > 0 && x == pn[0]);
            assert(pn.contains(pn[0]));
        }
    }
}

/// Without datacenter failover permitted, no node of a plan is outside the
/// preferred datacenter.
pub proof fn lemma_no_failover_fallback_local(
    p: DefaultPolicy,
    query: RoutingInfo,
    cluster: ClusterData,
    d: Seq<char>,
    plan: Seq<usize>,
)
    requires
        cluster.wf(),
        p.preferred() == Some(d),
        !p.failover_permitted(),
        p.fallback_ok(query, cluster, plan),
    ensures
        forall|k: int|
            0 <= k < plan.len() ==> plan[k] < cluster.nodes().len() && in_dc(
                cluster.nodes()[plan[k] as int],
                d,
            ),
{
    let (lo, ro, s1, s2) = choose|lo: Seq<usize>, ro: Seq<usize>, s1: int, s2: int|
        #![trigger p.plan(query, cluster, lo, ro, s1, s2)]
        lo.to_multiset() == p.local_live_replicas(query, cluster).to_multiset()
            && ro.to_multiset() == p.all_live_replicas(query, cluster).to_multiset() && 0 <= s1
            && (s1 < p.preferred_nodes(cluster).len() || s1 == 0) && 0 <= s2 && (s2
            < cluster.all_nodes().len() || s2 == 0) && plan == p.plan(query, cluster, lo, ro, s1, s2);
    assert forall|k: int| 0 <= k < plan.len() implies plan[k] < cluster.nodes().len() && in_dc(
        cluster.nodes()[plan[k] as int],
        d,
    ) by {
        let x = plan[k];
        assert(plan.contains(x));
        lemma_plan_members(p, query, cluster, lo, ro, s1, s2, x);
        let pn = p.preferred_nodes(cluster);
        lemma_passing_contains(cluster, p.replica_candidates(query, cluster, true), true, x);
        if pn.contains(x) {
            lemma_preferred_nodes_in_dc(p, cluster, d, x);
        } else {
            lemma_local_replicas_in_dc(p, query, cluster, d, x);
        }
    }
}

/// With failover possible and every node of the preferred datacenter
/// disabled, a pick lands in another datacenter, as long as some node of
/// the ring is enabled.
pub proof fn lemma_failover_pick_remote(
    p: DefaultPolicy,
    query: RoutingInfo,
    cluster: ClusterData,
    d: Seq<char>,
    r: Option<usize>,
)
    requires
        cluster.wf(),
        p.preferred() == Some(d),
        p.failover_permitted(),
        !is_local_consistency(query.consistency, query.serial_consistency),
        forall|i: int|
            0 <= i < cluster.nodes().len() && in_dc(#[trigger] cluster.nodes()[i], d)
                ==> !cluster.nodes()[i].enabled,
        exists|k: int|
            0 <= k < cluster.all_nodes().len() && cluster.nodes()[(#[trigger] cluster.all_nodes()[k]) as int].enabled,
        p.pick_ok(query, cluster, r),
    ensures
        r.is_some(),
        r.unwrap() < cluster.nodes().len(),
        !in_dc(cluster.nodes()[r.unwrap() as int], d),
{
    let lr = p.local_live_replicas(query, cluster);
    let pn = p.preferred_nodes(cluster);
    let an = cluster.all_nodes();
    if lr.len() > 0 {
        let x = lr[0];
        assert(lr.contains(x));
        lemma_passing_contains(cluster, p.replica_candidates(query, cluster, true), true, x);
        lemma_local_replicas_in_dc(p, query, cluster, d, x);
        assert(false);
    }
    let pl = passing(cluster, pn, true);
    if pl.len() > 0 {
        let x = pl[0];
        assert(pl.contains(x));
        lemma_passing_contains(cluster, pn, true, x);
        lemma_preferred_nodes_in_dc(p, cluster, d, x);
        assert(false);
    }
    let k = choose|k: int|
        0 <= k < an.len() && cluster.nodes()[(#[trigger] an[k]) as int].enabled;
    assert(cluster.wf());
    assert(an[k] < cluster.nodes().len());
    assert(an.contains(an[k]));
    lemma_passing_contains(cluster, an, true, an[k]);
    assert(passing(cluster, an, true).len() > 0);
    let x = r.unwrap();
    lemma_passing_contains(cluster, p.replica_candidates(query, cluster, false), true, x);
    lemma_passing_contains(cluster, an, true, x);
}

} // verus!
