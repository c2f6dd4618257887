//! A specification-level model of the whole cluster running synchronous
//! gossip rounds with no message loss, and the convergence proof: a value
//! held by any one node reaches every node within three rounds — the
//! diameter of the hub-and-spoke topology.
//!
//! Node `i`'s pending payload for neighbour `j` is the set difference of
//! its store and its known-set for `j`, the set the executable
//! `DeltaTracker::pending_for` computes (see `lemma_diff_seq_to_set`);
//! absorbing a payload is set union, as `BroadcastStore::merge` ensures.

use vstd::prelude::*;

use crate::topology::is_neighbour_rank;

verus! {

/// The state of a cluster of nodes, by rank: each node's broadcast store,
/// and each node's record of what every other node is known to hold.
pub struct GossipSystem {
    pub stores: Seq<Set<u64>>,
    pub knowns: Seq<Seq<Set<u64>>>,
}

/// One store per node, and one known-set per ordered pair of nodes.
pub open spec fn sys_wf(s: GossipSystem, n: nat) -> bool {
    &&& s.stores.len() == n
    &&& s.knowns.len() == n
    &&& forall|i: int| 0 <= i < n ==> (#[trigger] s.knowns[i]).len() == n
}

/// Whether node `i` sends value `v` to node `j` in the current round:
/// `j` is a neighbour of `i`, and `v` is pending for it.
pub open spec fn sends(s: GossipSystem, n: nat, k: nat, i: nat, j: nat, v: u64) -> bool {
    &&& i < n
    &&& is_neighbour_rank(n, k, i, j)
    &&& s.stores[i as int].difference(s.knowns[i as int][j as int]).contains(v)
}

/// Every value some node gossips to `j` in the current round.
pub open spec fn delivered(s: GossipSystem, n: nat, k: nat, j: nat) -> Set<u64> {
    Set::new(|v: u64| exists|i: nat| sends(s, n, k, i, j, v))
}

/// One synchronous gossip round with no message loss: every node sends
/// each of its neighbours the pending delta; every node absorbs what it
/// receives; every sender marks what it sent as known, optimistically.
pub open spec fn round(s: GossipSystem, n: nat, k: nat) -> GossipSystem {
    GossipSystem {
        stores: Seq::new(n, |j: int| s.stores[j] + delivered(s, n, k, j as nat)),
        knowns: Seq::new(
            n,
            |i: int|
                Seq::new(
                    n,
                    |j: int|
                        if is_neighbour_rank(n, k, i as nat, j as nat) {
                            s.knowns[i][j] + s.stores[i].difference(s.knowns[i][j])
                        } else {
                            s.knowns[i][j]
                        },
                ),
        ),
    }
}

/// The cluster after `t` synchronous gossip rounds.
pub open spec fn rounds(s: GossipSystem, n: nat, k: nat, t: nat) -> GossipSystem
    decreases t,
{
    if t == 0 {
        s
    } else {
        round(rounds(s, n, k, (t - 1) as nat), n, k)
    }
}

/// Known-sets are truthful: a value a node records as known by a
/// neighbour is indeed in that neighbour's store. This holds of a fresh
/// cluster (all known-sets empty) and, with no message loss, every round
/// preserves it: what was sent has arrived by the time it is recorded.
pub open spec fn truthful(s: GossipSystem, n: nat, k: nat) -> bool {
    forall|i: nat, j: nat|
        i < n && j < n && is_neighbour_rank(n, k, i, j) ==> (#[trigger] s.knowns[i as int][
            j as int
        ]).subset_of(s.stores[j as int])
}

/// A fresh cluster, its known-sets all empty, is truthful.
pub proof fn lemma_fresh_cluster_truthful(s: GossipSystem, n: nat, k: nat)
    requires
        sys_wf(s, n),
        forall|i: int, j: int|
            0 <= i < n && 0 <= j < n ==> (#[trigger] s.knowns[i][j]) =~= Set::<u64>::empty(),
    ensures
        truthful(s, n, k),
{
}

/// A round never shrinks any store.
pub proof fn lemma_round_monotone(s: GossipSystem, n: nat, k: nat, j: nat, v: u64)
    requires
        sys_wf(s, n),
        j < n,
        s.stores[j as int].contains(v),
    ensures
        round(s, n, k).stores[j as int].contains(v),
{
}

/// A round keeps the cluster well formed.
pub proof fn lemma_round_wf(s: GossipSystem, n: nat, k: nat)
    requires
        sys_wf(s, n),
    ensures
        sys_wf(round(s, n, k), n),
{
}

/// With truthful known-sets, a value a node holds reaches each of its
/// neighbours within one round: either it was pending and is delivered,
/// or it was already known, and hence already there.
pub proof fn lemma_round_edge(s: GossipSystem, n: nat, k: nat, i: nat, j: nat, v: u64)
    requires
        sys_wf(s, n),
        truthful(s, n, k),
        is_neighbour_rank(n, k, i, j),
        s.stores[i as int].contains(v),
    ensures
        round(s, n, k).stores[j as int].contains(v),
{
    if s.knowns[i as int][j as int].contains(v) {
        assert(s.stores[j as int].contains(v));
    } else {
        assert(sends(s, n, k, i, j, v));
        assert(delivered(s, n, k, j).contains(v));
    }
}

/// A round preserves truthfulness: everything newly marked known was
/// delivered in the same round.
pub proof fn lemma_round_truthful(s: GossipSystem, n: nat, k: nat)
    requires
        sys_wf(s, n),
        truthful(s, n, k),
    ensures
        truthful(round(s, n, k), n, k),
{
    let s2 = round(s, n, k);
    assert forall|i: nat, j: nat|
        i < n && j < n && is_neighbour_rank(n, k, i, j) implies (#[trigger] s2.knowns[i as int][
        j as int
    ]).subset_of(s2.stores[j as int]) by {
        assert forall|v: u64| s2.knowns[i as int][j as int].contains(v) implies
            s2.stores[j as int].contains(v) by {
            if s.knowns[i as int][j as int].contains(v) {
                assert(s.stores[j as int].contains(v));
            } else {
                assert(s.stores[i as int].difference(s.knowns[i as int][j as int]).contains(v));
                assert(sends(s, n, k, i, j, v));
                assert(delivered(s, n, k, j).contains(v));
            }
        }
    }
}

/// Convergence: in a truthful cluster where one node holds `v`, every
/// node holds `v` after three synchronous gossip rounds with no message
/// loss — one hop to the origin's relay, one across the relay layer, and
/// one out to each follower.
pub proof fn lemma_convergence(s: GossipSystem, n: nat, k: nat, v: u64, origin: nat)
    requires
        1 <= k,
        sys_wf(s, n),
        truthful(s, n, k),
        origin < n,
        s.stores[origin as int].contains(v),
    ensures
        forall|j: nat| j < n ==> (#[trigger] rounds(s, n, k, 3).stores[j as int]).contains(v),
{
    let s1 = round(s, n, k);
    let s2 = round(s1, n, k);
    let s3 = round(s2, n, k);
    assert(rounds(s, n, k, 0) == s);
    assert(rounds(s, n, k, 1) == s1);
    assert(rounds(s, n, k, 2) == s2);
    assert(rounds(s, n, k, 3) == s3);
    lemma_round_wf(s, n, k);
    lemma_round_wf(s1, n, k);
    lemma_round_truthful(s, n, k);
    lemma_round_truthful(s1, n, k);
    let a = (origin / k) * k;
    crate::topology::lemma_topology_connected(n, k, origin, origin);
    if origin == a {
        lemma_round_monotone(s, n, k, a, v);
    } else {
        lemma_round_edge(s, n, k, origin, a, v);
    }
    assert forall|j: nat| j < n implies (#[trigger] s3.stores[j as int]).contains(v) by {
        crate::topology::lemma_topology_connected(n, k, origin, j);
        let b = (j / k) * k;
        if a == b {
            lemma_round_monotone(s1, n, k, b, v);
        } else {
            lemma_round_edge(s1, n, k, a, b, v);
        }
        if b == j {
            lemma_round_monotone(s2, n, k, j, v);
        } else {
            lemma_round_edge(s2, n, k, b, j, v);
        }
    }
}

} // verus!
