//! Dijkstra's algorithm: uniform-cost shortest-path search over non-negative
//! edge costs, without a heuristic.

use vstd::prelude::*;

verus! {

use std::collections::HashMap;
use crate::frontier::Frontier;
use crate::graph::{
    accepts,
    all_rejected,
    deterministic_goal,
    deterministic_succ,
    is_path,
    min_cost_post,
    paths_bounded,
    search_post,
};
use crate::holder::InvCmpHolder;
use crate::record::{
    closed_edges_tracked,
    expand,
    finish,
    frontier_edge_bounds,
    lemma_escape,
    lemma_exhausted_covers,
    min_edge_bounds,
    record_inv,
};

/// Searches from `start` for a node accepted by `success`, expanding cheapest
/// discovered nodes first.  A present result is a walk of the successor
/// relation from `start` to an accepted node whose edge costs sum exactly to
/// the reported total; `None` reports that no goal was reached.  When the
/// successor and goal functions are pure functions of their node and every
/// walk cost is representable, the result is moreover decisive: a present
/// result costs no more than any walk from `start` to an accepted node, and
/// an absent result means that every walk from `start` ends at a rejected
/// node.  A candidate whose cost would overflow `u64` is not pursued.
pub fn dijkstra<FN: Fn(usize) -> Vec<(usize, u64)>, FS: Fn(usize) -> bool>(
    start: usize,
    successors: &FN,
    success: &FS,
) -> (res: Option<(Vec<usize>, u64)>)
    requires
        forall|k: usize| #[trigger] call_requires(*successors, (k,)),
        forall|k: usize| #[trigger] call_requires(*success, (k,)),
    ensures
        search_post(*successors, *success, start, res),
        (res is None && deterministic_succ(*successors) && paths_bounded(*successors, start))
            ==> all_rejected(*successors, *success, start),
        (deterministic_succ(*successors) && deterministic_goal(*success) && paths_bounded(
            *successors,
            start,
        )) ==> min_cost_post(*successors, *success, start, res),
{
    let mut dist: HashMap<usize, u64> = HashMap::new();
    let mut parents: HashMap<usize, usize> = HashMap::new();
    let mut closed: HashMap<usize, ()> = HashMap::new();
    let ghost mut rk: Map<usize, nat> = Map::empty().insert(start, 0nat);
    dist.insert(start, 0);
    let mut frontier = Frontier::new();
    frontier.push(InvCmpHolder { key: 0, payload: start });
    proof {
        assert(frontier.entries@[0].payload == start);
    }
    loop
        invariant
            forall|k: usize| #[trigger] call_requires(*successors, (k,)),
            forall|k: usize| #[trigger] call_requires(*success, (k,)),
            record_inv(*successors, start, dist@, parents@, closed@.dom(), rk),
            closed@.dom().subset_of(dist@.dom()),
            forall|i: int|
                #![trigger frontier.entries@[i]]
                0 <= i < frontier.entries@.len() ==> dist@.dom().contains(
                    frontier.entries@[i].payload,
                ) && dist@[frontier.entries@[i].payload] <= frontier.entries@[i].key,
            forall|n: usize| #[trigger]
                dist@.dom().contains(n) ==> closed@.dom().contains(n) || exists|i: int|
                    #![trigger frontier.entries@[i]]
                    0 <= i < frontier.entries@.len() && frontier.entries@[i].payload == n
                        && frontier.entries@[i].key == dist@[n],
            forall|u: usize, v: usize|
                #![trigger closed@.dom().contains(u), dist@.dom().contains(v)]
                closed@.dom().contains(u) && dist@.dom().contains(v)
                    && !closed@.dom().contains(v) ==> dist@[u] <= dist@[v],
            forall|u: usize| #[trigger]
                closed@.dom().contains(u) ==> call_ensures(*success, (u,), false),
            deterministic_succ(*successors) ==> closed_edges_tracked(
                *successors,
                dist@,
                closed@.dom(),
            ),
            deterministic_succ(*successors) ==> frontier_edge_bounds(
                *successors,
                dist@,
                closed@.dom(),
            ),
            deterministic_succ(*successors) ==> min_edge_bounds(
                *successors,
                dist@,
                closed@.dom(),
            ),
            closed@.dom().len() <= usize::MAX,
        decreases usize::MAX as int + 1 - closed@.dom().len(), frontier.entries@.len(),
    {
        let ghost fr_old = frontier.entries@;
        match frontier.pop_max() {
            None => {
                proof {
                    if deterministic_succ(*successors) && paths_bounded(*successors, start) {
                        assert forall|q: Seq<usize>, cost: int|
                            (#[trigger] is_path(*successors, q, cost) && q.len() >= 1 && q[0]
                                == start) implies call_ensures(
                            *success,
                            (q[q.len() - 1],),
                            false,
                        ) by {
                            assert forall|n: usize| #[trigger]
                                dist@.dom().contains(n) implies closed@.dom().contains(n) by {}
                            assert(parents@.dom().finite());
                            lemma_exhausted_covers(
                                *successors,
                                start,
                                dist@,
                                parents@,
                                closed@.dom(),
                                rk,
                                q,
                                cost,
                            );
                            assert(closed@.dom().contains(q[q.len() - 1]));
                        }
                    }
                }
                return None;
            },
            Some(h) => {
                let node = h.payload;
                proof {
                    assert forall|n: usize| #[trigger]
                        dist@.dom().contains(n) && n != node implies closed@.dom().contains(n)
                        || exists|i: int|
                        #![trigger frontier.entries@[i]]
                        0 <= i < frontier.entries@.len() && frontier.entries@[i].payload == n
                            && frontier.entries@[i].key == dist@[n] by {
                        if !closed@.dom().contains(n) {
                            let j = choose|j: int|
                                #![trigger fr_old[j]]
                                0 <= j < fr_old.len() && fr_old[j].payload == n && fr_old[j].key
                                    == dist@[n];
                            if fr_old[j] == h {
                                assert(false);
                            } else {
                                let j2 = choose|j2: int|
                                    #![trigger frontier.entries@[j2]]
                                    0 <= j2 < frontier.entries@.len() && frontier.entries@[j2]
                                        == fr_old[j];
                                assert(frontier.entries@[j2].payload == n
                                    && frontier.entries@[j2].key == dist@[n]);
                            }
                        }
                    }
                    assert forall|v: usize| #[trigger]
                        dist@.dom().contains(v) && !closed@.dom().contains(v) implies dist@[node]
                        <= dist@[v] by {
                        if v != node {
                            let j = choose|j: int|
                                #![trigger fr_old[j]]
                                0 <= j < fr_old.len() && fr_old[j].payload == v && fr_old[j].key
                                    == dist@[v];
                            assert(h.key <= fr_old[j].key);
                            let i0 = choose|i0: int| 0 <= i0 < fr_old.len() && h == fr_old[i0];
                            assert(dist@[fr_old[i0].payload] <= fr_old[i0].key);
                        }
                    }
                }
                if !closed.contains_key(&node) {
                    if success(node) {
                        let (p, c) = finish(
                            successors,
                            start,
                            &dist,
                            parents,
                            node,
                            Ghost(closed@.dom()),
                            Ghost(rk),
                        );
                        proof {
                            if deterministic_succ(*successors) && deterministic_goal(*success)
                                && paths_bounded(*successors, start) {
                                assert forall|q: Seq<usize>, cost: int|
                                    (#[trigger] is_path(*successors, q, cost) && q.len() >= 1
                                        && q[0] == start && accepts(
                                        *success,
                                        q[q.len() - 1],
                                    )) implies c <= cost by {
                                    let y = q[q.len() - 1];
                                    if closed@.dom().contains(y) {
                                        assert(call_ensures(*success, (y,), false));
                                        assert(call_ensures(*success, (y,), true));
                                        assert(false);
                                    }
                                    assert(parents@.dom().finite());
                                    lemma_escape(
                                        *successors,
                                        start,
                                        dist@,
                                        parents@,
                                        closed@.dom(),
                                        rk,
                                        q,
                                        cost,
                                    );
                                    let v = choose|v: usize| #[trigger]
                                        dist@.dom().contains(v) && !closed@.dom().contains(v)
                                            && dist@[v] <= dist@[q[0]] + cost;
                                    assert(dist@[node] <= dist@[v]);
                                }
                            }
                        }
                        return Some((p, c));
                    }
                    let ghost c_old = closed@.dom();
                    let ghost d_pre = dist@;
                    closed.insert(node, ());
                    proof {
                        assert(closed@.len() == vstd::std_specs::hash::spec_hash_map_len(&closed));
                        assert(closed@.dom().remove(node) =~= c_old);
                    }
                    let (improved, rk2) = expand(
                        successors,
                        start,
                        node,
                        &mut dist,
                        &mut parents,
                        &closed,
                        Ghost(rk),
                        Ghost(true),
                    );
                    proof {
                        rk = rk2@;
                        assert forall|u: usize, v: usize|
                            #![trigger closed@.dom().contains(u), dist@.dom().contains(v)]
                            closed@.dom().contains(u) && dist@.dom().contains(v)
                                && !closed@.dom().contains(v) implies dist@[u] <= dist@[v] by {
                            assert(dist@[u] == d_pre[u]);
                            if d_pre.dom().contains(v) && dist@[v] == d_pre[v] {
                                assert(d_pre[node] <= d_pre[v]);
                                if u != node {
                                    assert(d_pre[u] <= d_pre[v]);
                                }
                            } else {
                                assert(dist@[v] >= d_pre[node]);
                                if u != node {
                                    assert(d_pre[u] <= d_pre[node]);
                                }
                            }
                        }
                    }
                    let mut t: usize = 0;
                    while t < improved.len()
                        invariant
                            t <= improved@.len(),
                            forall|j: int|
                                #![trigger improved@[j]]
                                0 <= j < improved@.len() ==> dist@.dom().contains(improved@[j].0)
                                    && dist@[improved@[j].0] <= improved@[j].1,
                            forall|i: int|
                                #![trigger frontier.entries@[i]]
                                0 <= i < frontier.entries@.len() ==> dist@.dom().contains(
                                    frontier.entries@[i].payload,
                                ) && dist@[frontier.entries@[i].payload]
                                    <= frontier.entries@[i].key,
                            forall|n: usize| #[trigger]
                                dist@.dom().contains(n) ==> closed@.dom().contains(n) || (exists|
                                    i: int,
                                |
                                    #![trigger frontier.entries@[i]]
                                    0 <= i < frontier.entries@.len() && frontier.entries@[i].payload
                                        == n && frontier.entries@[i].key == dist@[n]) || (exists|
                                    j: int,
                                |
                                    #![trigger improved@[j]]
                                    t <= j < improved@.len() && improved@[j] == (n, dist@[n])),
                        decreases improved@.len() - t,
                    {
                        let (n2, g2) = improved[t];
                        let ghost fr_before = frontier.entries@;
                        frontier.push(InvCmpHolder { key: g2, payload: n2 });
                        t += 1;
                        proof {
                            assert(frontier.entries@[frontier.entries@.len() - 1]
                                == InvCmpHolder { key: g2, payload: n2 });
                            assert forall|n: usize| #[trigger]
                                dist@.dom().contains(n) implies closed@.dom().contains(n) || (
                            exists|i: int|
                                #![trigger frontier.entries@[i]]
                                0 <= i < frontier.entries@.len() && frontier.entries@[i].payload
                                    == n && frontier.entries@[i].key == dist@[n]) || (exists|
                                j: int,
                            |
                                #![trigger improved@[j]]
                                t <= j < improved@.len() && improved@[j] == (n, dist@[n])) by {
                                if !closed@.dom().contains(n) {
                                    if exists|i: int|
                                        #![trigger fr_before[i]]
                                        0 <= i < fr_before.len() && fr_before[i].payload == n
                                            && fr_before[i].key == dist@[n] {
                                        let i = choose|i: int|
                                            #![trigger fr_before[i]]
                                            0 <= i < fr_before.len() && fr_before[i].payload == n
                                                && fr_before[i].key == dist@[n];
                                        assert(frontier.entries@[i].payload == n
                                            && frontier.entries@[i].key == dist@[n]);
                                    } else if exists|j: int|
                                        #![trigger improved@[j]]
                                        t - 1 <= j < improved@.len() && improved@[j] == (
                                        n,
                                        dist@[n],
                                        ) {
                                        let j = choose|j: int|
                                            #![trigger improved@[j]]
                                            t - 1 <= j < improved@.len() && improved@[j] == (
                                            n,
                                            dist@[n],
                                            );
                                        if j == t - 1 {
                                            assert(frontier.entries@[frontier.entries@.len()
                                                - 1].payload == n);
                                            assert(frontier.entries@[frontier.entries@.len()
                                                - 1].key == dist@[n]);
                                        }
                                    }
                                }
                            }
                        }
                    }
                }
            },
        }
    }
}

} // verus!
