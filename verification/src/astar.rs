//! A* search: the skeleton of Dijkstra's algorithm with the frontier ordered
//! by cost-so-far plus heuristic estimate.
//!
//! Nodes are finalized permanently (no reopening): with a consistent
//! heuristic this loses nothing, and the returned cost is proved minimal
//! under the hypotheses collected in `astar_optimal_hyps`; with an
//! admissible but inconsistent heuristic the returned walk may be
//! suboptimal, but it is still a genuine walk whose reported cost is exact.

use vstd::prelude::*;

verus! {

use std::collections::HashMap;
use crate::frontier::Frontier;
use crate::graph::{
    accepts,
    all_rejected,
    consistent_heuristic,
    admissible_heuristic,
    deterministic_goal,
    deterministic_heuristic,
    deterministic_succ,
    estimates_fit,
    estimates_within,
    hval,
    is_path,
    min_cost_post,
    paths_bounded,
    search_post,
};
use crate::holder::InvCmpHolder;
use crate::record::{
    closed_edges_tracked,
    expand,
    finish,
    frontier_edge_bounds,
    lemma_exhausted_covers,
    lemma_frontier_cut,
    lemma_walk_valid,
    record_inv,
};

/// The caller obligations under which this A* is proved optimal: successor,
/// heuristic and goal functions are pure functions of their node, the
/// heuristic is admissible and consistent, and estimates leave enough room
/// below `u64::MAX` that no estimate of a discovered node saturates.
pub open spec fn astar_optimal_hyps<
    FN: Fn(usize) -> Vec<(usize, u64)>,
    FH: Fn(usize) -> u64,
    FS: Fn(usize) -> bool,
>(f: FN, h: FH, g: FS, start: usize) -> bool {
    &&& deterministic_succ(f)
    &&& deterministic_heuristic(h)
    &&& deterministic_goal(g)
    &&& admissible_heuristic(f, h, g)
    &&& consistent_heuristic(f, h)
    &&& estimates_fit(f, h, start)
}

/// `key` is the frontier key a fresh entry for `n` carries: the node's
/// recorded cost plus its estimate, saturated at `u64::MAX`.
pub open spec fn estimate_key<FH: Fn(usize) -> u64>(
    h: FH,
    d: Map<usize, u64>,
    n: usize,
    key: u64,
) -> bool {
    key == d[n] + hval(h, n) || (key == u64::MAX && d[n] + hval(h, n) >= u64::MAX)
}

/// Searches from `start` for a node accepted by `success`, expanding first
/// the discovered node whose cost-so-far plus heuristic estimate is least.
/// A present result is a walk of the successor relation from `start` to an
/// accepted node whose edge costs sum exactly to the reported total; `None`
/// reports that no goal was reached.  When the successor function is
/// deterministic and every walk cost is representable, an absent result
/// moreover means that every walk from `start` ends at a node the goal
/// predicate may reject; and under `astar_optimal_hyps` a present result is
/// minimal.  Estimates that would overflow `u64` saturate, which affects
/// expansion order only.
pub fn astar<
    FN: Fn(usize) -> Vec<(usize, u64)>,
    FH: Fn(usize) -> u64,
    FS: Fn(usize) -> bool,
>(
    start: usize,
    successors: &FN,
    heuristic: &FH,
    success: &FS,
) -> (res: Option<(Vec<usize>, u64)>)
    requires
        forall|k: usize| #[trigger] call_requires(*successors, (k,)),
        forall|k: usize| #[trigger] call_requires(*heuristic, (k,)),
        forall|k: usize| #[trigger] call_requires(*success, (k,)),
    ensures
        search_post(*successors, *success, start, res),
        (res is None && deterministic_succ(*successors) && paths_bounded(*successors, start))
            ==> all_rejected(*successors, *success, start),
        astar_optimal_hyps(*successors, *heuristic, *success, start) ==> min_cost_post(
            *successors,
            *success,
            start,
            res,
        ),
{
    let mut dist: HashMap<usize, u64> = HashMap::new();
    let mut parents: HashMap<usize, usize> = HashMap::new();
    let mut closed: HashMap<usize, ()> = HashMap::new();
    let ghost mut rk: Map<usize, nat> = Map::empty().insert(start, 0nat);
    dist.insert(start, 0);
    let mut frontier = Frontier::new();
    let h0 = heuristic(start);
    frontier.push(InvCmpHolder { key: h0, payload: start });
    proof {
        assert(frontier.entries@[0].payload == start);
        if astar_optimal_hyps(*successors, *heuristic, *success, start) {
            assert(exists|hv: u64| call_ensures(*heuristic, (start,), hv));
            assert(call_ensures(*heuristic, (start,), hval(*heuristic, start)));
            assert(hval(*heuristic, start) == h0);
        }
    }
    loop
        invariant
            forall|k: usize| #[trigger] call_requires(*successors, (k,)),
            forall|k: usize| #[trigger] call_requires(*heuristic, (k,)),
            forall|k: usize| #[trigger] call_requires(*success, (k,)),
            record_inv(*successors, start, dist@, parents@, closed@.dom(), rk),
            closed@.dom().subset_of(dist@.dom()),
            forall|i: int|
                0 <= i < frontier.entries@.len() ==> dist@.dom().contains(
                    #[trigger] frontier.entries@[i].payload,
                ),
            forall|n: usize| #[trigger]
                dist@.dom().contains(n) ==> closed@.dom().contains(n) || exists|i: int|
                    #![trigger frontier.entries@[i]]
                    0 <= i < frontier.entries@.len() && frontier.entries@[i].payload == n,
            forall|u: usize| #[trigger]
                closed@.dom().contains(u) ==> call_ensures(*success, (u,), false),
            deterministic_succ(*successors) ==> closed_edges_tracked(
                *successors,
                dist@,
                closed@.dom(),
            ),
            deterministic_succ(*successors) ==> frontier_edge_bounds(
                *successors,
                dist@,
                closed@.dom(),
            ),
            astar_optimal_hyps(*successors, *heuristic, *success, start) ==> forall|i: int|
                #![trigger frontier.entries@[i]]
                0 <= i < frontier.entries@.len() ==> (dist@[frontier.entries@[i].payload] + hval(
                    *heuristic,
                    frontier.entries@[i].payload,
                ) <= frontier.entries@[i].key || frontier.entries@[i].key == u64::MAX),
            astar_optimal_hyps(*successors, *heuristic, *success, start) ==> forall|n: usize|
                #![trigger dist@.dom().contains(n)]
                dist@.dom().contains(n) && !closed@.dom().contains(n) ==> exists|i: int|
                    #![trigger frontier.entries@[i]]
                    0 <= i < frontier.entries@.len() && frontier.entries@[i].payload == n
                        && call_ensures(*heuristic, (n,), hval(*heuristic, n)) && estimate_key(
                        *heuristic,
                        dist@,
                        n,
                        frontier.entries@[i].key,
                    ),
            astar_optimal_hyps(*successors, *heuristic, *success, start) ==> forall|
                q: Seq<usize>,
                cq: int,
            |
                (#[trigger] is_path(*successors, q, cq) && q.len() >= 1 && q[0] == start
                    && closed@.dom().contains(q[q.len() - 1])) ==> dist@[q[q.len() - 1]] <= cq,
            closed@.dom().len() <= usize::MAX,
        decreases usize::MAX as int + 1 - closed@.dom().len(), frontier.entries@.len(),
    {
        let ghost fr_old = frontier.entries@;
        let ghost hyps = astar_optimal_hyps(*successors, *heuristic, *success, start);
        match frontier.pop_max() {
            None => {
                proof {
                    if deterministic_succ(*successors) && paths_bounded(*successors, start) {
                        assert forall|q: Seq<usize>, cost: int|
                            (#[trigger] is_path(*successors, q, cost) && q.len() >= 1 && q[0]
                                == start) implies call_ensures(
                            *success,
                            (q[q.len() - 1],),
                            false,
                        ) by {
                            assert forall|n: usize| #[trigger]
                                dist@.dom().contains(n) implies closed@.dom().contains(n) by {}
                            assert(parents@.dom().finite());
                            lemma_exhausted_covers(
                                *successors,
                                start,
                                dist@,
                                parents@,
                                closed@.dom(),
                                rk,
                                q,
                                cost,
                            );
                            assert(closed@.dom().contains(q[q.len() - 1]));
                        }
                    }
                }
                return None;
            },
            Some(h) => {
                let node = h.payload;
                proof {
                    assert forall|n: usize| #[trigger]
                        dist@.dom().contains(n) && n != node implies closed@.dom().contains(n)
                        || exists|i: int|
                        #![trigger frontier.entries@[i]]
                        0 <= i < frontier.entries@.len() && frontier.entries@[i].payload == n by {
                        if !closed@.dom().contains(n) {
                            let j = choose|j: int|
                                #![trigger fr_old[j]]
                                0 <= j < fr_old.len() && fr_old[j].payload == n;
                            if fr_old[j] == h {
                                assert(false);
                            } else {
                                let j2 = choose|j2: int|
                                    #![trigger frontier.entries@[j2]]
                                    0 <= j2 < frontier.entries@.len() && frontier.entries@[j2]
                                        == fr_old[j];
                                assert(frontier.entries@[j2].payload == n);
                            }
                        }
                    }
                    if hyps {
                        assert forall|n: usize|
                            #![trigger dist@.dom().contains(n)]
                            dist@.dom().contains(n) && !closed@.dom().contains(n) && n
                                != node implies exists|i: int|
                            #![trigger frontier.entries@[i]]
                            0 <= i < frontier.entries@.len() && frontier.entries@[i].payload == n
                                && call_ensures(*heuristic, (n,), hval(*heuristic, n))
                                && estimate_key(*heuristic, dist@, n, frontier.entries@[i].key) by {
                            let j = choose|j: int|
                                #![trigger fr_old[j]]
                                0 <= j < fr_old.len() && fr_old[j].payload == n && call_ensures(
                                    *heuristic,
                                    (n,),
                                    hval(*heuristic, n),
                                ) && estimate_key(*heuristic, dist@, n, fr_old[j].key);
                            if fr_old[j] == h {
                                assert(false);
                            } else {
                                let j2 = choose|j2: int|
                                    #![trigger frontier.entries@[j2]]
                                    0 <= j2 < frontier.entries@.len() && frontier.entries@[j2]
                                        == fr_old[j];
                                assert(frontier.entries@[j2].payload == n && estimate_key(
                                    *heuristic,
                                    dist@,
                                    n,
                                    frontier.entries@[j2].key,
                                ));
                            }
                        }
                    }
                }
                if !closed.contains_key(&node) {
                    proof {
                        if hyps {
                            let b = choose|b: u64|
                                #[trigger] estimates_within(*successors, *heuristic, start, b);
                            assert(parents@.dom().finite());
                            lemma_walk_valid(
                                *successors,
                                start,
                                dist@,
                                parents@,
                                closed@.dom(),
                                rk,
                                parents@,
                                node,
                            );
                            assert(dist@[node] + b <= u64::MAX);
                            let jn = choose|jn: int|
                                #![trigger fr_old[jn]]
                                0 <= jn < fr_old.len() && fr_old[jn].payload == node
                                    && call_ensures(*heuristic, (node,), hval(*heuristic, node))
                                    && estimate_key(*heuristic, dist@, node, fr_old[jn].key);
                            assert(hval(*heuristic, node) <= b);
                            assert(dist@[node] + hval(*heuristic, node) <= u64::MAX);
                            assert forall|v: usize|
                                #![trigger dist@.dom().contains(v)]
                                dist@.dom().contains(v) && !closed@.dom().contains(
                                    v,
                                ) implies dist@[node] + hval(*heuristic, node) <= dist@[v] + hval(
                                *heuristic,
                                v,
                            ) by {
                                if v != node {
                                    let jv = choose|jv: int|
                                        #![trigger fr_old[jv]]
                                        0 <= jv < fr_old.len() && fr_old[jv].payload == v
                                            && call_ensures(*heuristic, (v,), hval(*heuristic, v))
                                            && estimate_key(*heuristic, dist@, v, fr_old[jv].key);
                                    lemma_walk_valid(
                                        *successors,
                                        start,
                                        dist@,
                                        parents@,
                                        closed@.dom(),
                                        rk,
                                        parents@,
                                        v,
                                    );
                                    assert(dist@[v] + b <= u64::MAX);
                                    assert(hval(*heuristic, v) <= b);
                                    assert(fr_old[jv].key == dist@[v] + hval(*heuristic, v));
                                    assert(h.key <= fr_old[jv].key);
                                    let i0 = choose|i0: int|
                                        0 <= i0 < fr_old.len() && h == fr_old[i0];
                                    assert(dist@[fr_old[i0].payload] + hval(
                                        *heuristic,
                                        fr_old[i0].payload,
                                    ) <= fr_old[i0].key || fr_old[i0].key == u64::MAX);
                                }
                            }
                        }
                    }
                    if success(node) {
                        let (p, c) = finish(
                            successors,
                            start,
                            &dist,
                            parents,
                            node,
                            Ghost(closed@.dom()),
                            Ghost(rk),
                        );
                        proof {
                            if hyps {
                                assert forall|q: Seq<usize>, cq: int|
                                    (#[trigger] is_path(*successors, q, cq) && q.len() >= 1 && q[0]
                                        == start && accepts(*success, q[q.len() - 1])) implies c
                                    <= cq by {
                                    let y = q[q.len() - 1];
                                    if closed@.dom().contains(y) {
                                        assert(call_ensures(*success, (y,), false));
                                        assert(call_ensures(*success, (y,), true));
                                        assert(false);
                                    }
                                    let b = choose|b: u64|
                                        #[trigger] estimates_within(
                                            *successors,
                                            *heuristic,
                                            start,
                                            b,
                                        );
                                    assert(paths_bounded(*successors, start)) by {
                                        assert forall|q2: Seq<usize>, c2: int|
                                            (#[trigger] is_path(*successors, q2, c2) && q2.len()
                                                >= 1 && q2[0] == start) implies c2 <= u64::MAX by {
                                            assert(c2 + b <= u64::MAX);
                                        }
                                    }
                                    lemma_frontier_cut(
                                        *successors,
                                        start,
                                        dist@,
                                        parents@,
                                        closed@.dom(),
                                        rk,
                                        q,
                                        cq,
                                        0,
                                    );
                                    let (i, cs) = choose|i: int, cs: int|
                                        #![trigger q.skip(i), is_path(*successors, q.skip(i), cs)]
                                        0 <= i < q.len() && !closed@.dom().contains(q[i])
                                            && dist@.dom().contains(q[i]) && is_path(
                                            *successors,
                                            q.skip(i),
                                            cs,
                                        ) && q.skip(i).len() >= 1 && q.skip(i)[0] == q[i] && q.skip(
                                            i,
                                        )[q.skip(i).len() - 1] == q[q.len() - 1] && dist@[q[i]]
                                            <= 0 + (cq - cs);
                                    let v = q[i];
                                    assert(call_ensures(*heuristic, (v,), hval(*heuristic, v)));
                                    assert(call_ensures(
                                        *heuristic,
                                        (q.skip(i)[0],),
                                        hval(*heuristic, v),
                                    ));
                                    assert(hval(*heuristic, v) <= cs);
                                    assert(dist@[node] + hval(*heuristic, node) <= dist@[v] + hval(
                                        *heuristic,
                                        v,
                                    ));
                                    assert(dist@[node] <= cq);
                                }
                            }
                        }
                        return Some((p, c));
                    }
                    let ghost c_old = closed@.dom();
                    let ghost d_pre = dist@;
                    proof {
                        if hyps {
                            assert forall|q: Seq<usize>, cq: int|
                                (#[trigger] is_path(*successors, q, cq) && q.len() >= 1 && q[0]
                                    == start && q[q.len() - 1] == node) implies d_pre[node]
                                <= cq by {
                                let b = choose|b: u64|
                                    #[trigger] estimates_within(*successors, *heuristic, start, b);
                                assert(paths_bounded(*successors, start)) by {
                                    assert forall|q2: Seq<usize>, c2: int|
                                        (#[trigger] is_path(*successors, q2, c2) && q2.len() >= 1
                                            && q2[0] == start) implies c2 <= u64::MAX by {
                                        assert(c2 + b <= u64::MAX);
                                    }
                                }
                                lemma_frontier_cut(
                                    *successors,
                                    start,
                                    dist@,
                                    parents@,
                                    closed@.dom(),
                                    rk,
                                    q,
                                    cq,
                                    0,
                                );
                                let (i, cs) = choose|i: int, cs: int|
                                    #![trigger q.skip(i), is_path(*successors, q.skip(i), cs)]
                                    0 <= i < q.len() && !closed@.dom().contains(q[i])
                                        && dist@.dom().contains(q[i]) && is_path(
                                        *successors,
                                        q.skip(i),
                                        cs,
                                    ) && q.skip(i).len() >= 1 && q.skip(i)[0] == q[i] && q.skip(
                                        i,
                                    )[q.skip(i).len() - 1] == q[q.len() - 1] && dist@[q[i]] <= 0 + (
                                    cq - cs);
                                let v = q[i];
                                assert(call_ensures(*heuristic, (v,), hval(*heuristic, v)));
                                assert(call_ensures(
                                    *heuristic,
                                    (q.skip(i)[0],),
                                    hval(*heuristic, v),
                                ));
                                assert(call_ensures(
                                    *heuristic,
                                    (q.skip(i)[q.skip(i).len() - 1],),
                                    hval(*heuristic, node),
                                ));
                                assert(hval(*heuristic, v) <= hval(*heuristic, node) + cs);
                                assert(dist@[node] + hval(*heuristic, node) <= dist@[v] + hval(
                                    *heuristic,
                                    v,
                                ));
                                assert(dist@[node] <= cq);
                            }
                        }
                    }
                    closed.insert(node, ());
                    proof {
                        assert(closed@.len() == vstd::std_specs::hash::spec_hash_map_len(&closed));
                        assert(closed@.dom().remove(node) =~= c_old);
                    }
                    let (improved, rk2) = expand(
                        successors,
                        start,
                        node,
                        &mut dist,
                        &mut parents,
                        &closed,
                        Ghost(rk),
                        Ghost(false),
                    );
                    proof {
                        rk = rk2@;
                        if hyps {
                            assert forall|q: Seq<usize>, cq: int|
                                (#[trigger] is_path(*successors, q, cq) && q.len() >= 1 && q[0]
                                    == start && closed@.dom().contains(
                                    q[q.len() - 1],
                                )) implies dist@[q[q.len() - 1]] <= cq by {
                                let y = q[q.len() - 1];
                                assert(dist@[y] == d_pre[y]);
                                if y != node {
                                    assert(c_old.contains(y));
                                    assert(d_pre[y] <= cq);
                                }
                            }
                        }
                    }
                    let mut t: usize = 0;
                    while t < improved.len()
                        invariant
                            forall|k: usize| #[trigger] call_requires(*heuristic, (k,)),
                            t <= improved@.len(),
                            forall|j: int|
                                #![trigger improved@[j]]
                                0 <= j < improved@.len() ==> dist@.dom().contains(improved@[j].0)
                                    && dist@[improved@[j].0] <= improved@[j].1,
                            forall|i: int|
                                0 <= i < frontier.entries@.len() ==> dist@.dom().contains(
                                    #[trigger] frontier.entries@[i].payload,
                                ),
                            forall|n: usize| #[trigger]
                                dist@.dom().contains(n) ==> closed@.dom().contains(n) || (exists|
                                    i: int,
                                |
                                    #![trigger frontier.entries@[i]]
                                    0 <= i < frontier.entries@.len() && frontier.entries@[i].payload
                                        == n) || (exists|j: int|
                                    #![trigger improved@[j]]
                                    t <= j < improved@.len() && improved@[j].0 == n),
                            hyps ==> forall|i: int|
                                #![trigger frontier.entries@[i]]
                                0 <= i < frontier.entries@.len() ==> (dist@[frontier.entries@[i].payload]
                                    + hval(*heuristic, frontier.entries@[i].payload)
                                    <= frontier.entries@[i].key || frontier.entries@[i].key
                                    == u64::MAX),
                            hyps ==> forall|n: usize|
                                #![trigger dist@.dom().contains(n)]
                                dist@.dom().contains(n) && !closed@.dom().contains(n) ==> (exists|
                                    i: int,
                                |
                                    #![trigger frontier.entries@[i]]
                                    0 <= i < frontier.entries@.len() && frontier.entries@[i].payload
                                        == n && call_ensures(*heuristic, (n,), hval(*heuristic, n))
                                        && estimate_key(
                                        *heuristic,
                                        dist@,
                                        n,
                                        frontier.entries@[i].key,
                                    )) || (exists|j: int|
                                    #![trigger improved@[j]]
                                    t <= j < improved@.len() && improved@[j] == (n, dist@[n])),
                            hyps == astar_optimal_hyps(
                                *successors,
                                *heuristic,
                                *success,
                                start,
                            ),
                        decreases improved@.len() - t,
                    {
                        let (n2, g2) = improved[t];
                        let h2 = heuristic(n2);
                        let key = if g2 <= u64::MAX - h2 {
                            g2 + h2
                        } else {
                            u64::MAX
                        };
                        let ghost fr_before = frontier.entries@;
                        frontier.push(InvCmpHolder { key, payload: n2 });
                        t += 1;
                        proof {
                            assert(frontier.entries@[frontier.entries@.len() - 1]
                                == InvCmpHolder { key, payload: n2 });
                            if hyps {
                                assert(exists|hv: u64| call_ensures(*heuristic, (n2,), hv));
                                assert(call_ensures(*heuristic, (n2,), hval(*heuristic, n2)));
                                assert(hval(*heuristic, n2) == h2);
                            }
                            assert forall|n: usize| #[trigger]
                                dist@.dom().contains(n) implies closed@.dom().contains(n) || (
                            exists|i: int|
                                #![trigger frontier.entries@[i]]
                                0 <= i < frontier.entries@.len() && frontier.entries@[i].payload
                                    == n) || (exists|j: int|
                                #![trigger improved@[j]]
                                t <= j < improved@.len() && improved@[j].0 == n) by {
                                if !closed@.dom().contains(n) {
                                    if exists|i: int|
                                        #![trigger fr_before[i]]
                                        0 <= i < fr_before.len() && fr_before[i].payload == n {
                                        let i = choose|i: int|
                                            #![trigger fr_before[i]]
                                            0 <= i < fr_before.len() && fr_before[i].payload == n;
                                        assert(frontier.entries@[i].payload == n);
                                    } else if exists|j: int|
                                        #![trigger improved@[j]]
                                        t - 1 <= j < improved@.len() && improved@[j].0 == n {
                                        let j = choose|j: int|
                                            #![trigger improved@[j]]
                                            t - 1 <= j < improved@.len() && improved@[j].0 == n;
                                        if j == t - 1 {
                                            assert(frontier.entries@[frontier.entries@.len()
                                                - 1].payload == n);
                                        }
                                    }
                                }
                            }
                            if hyps {
                                assert forall|n: usize|
                                    #![trigger dist@.dom().contains(n)]
                                    dist@.dom().contains(n) && !closed@.dom().contains(
                                        n,
                                    ) implies (exists|i: int|
                                    #![trigger frontier.entries@[i]]
                                    0 <= i < frontier.entries@.len() && frontier.entries@[i].payload
                                        == n && call_ensures(*heuristic, (n,), hval(*heuristic, n))
                                        && estimate_key(
                                        *heuristic,
                                        dist@,
                                        n,
                                        frontier.entries@[i].key,
                                    )) || (exists|j: int|
                                    #![trigger improved@[j]]
                                    t <= j < improved@.len() && improved@[j] == (n, dist@[n])) by {
                                    if n == n2 && g2 == dist@[n2] {
                                        assert(estimate_key(
                                            *heuristic,
                                            dist@,
                                            n2,
                                            frontier.entries@[frontier.entries@.len() - 1].key,
                                        ));
                                        assert(frontier.entries@[frontier.entries@.len()
                                            - 1].payload == n2);
                                    } else if exists|i: int|
                                        #![trigger fr_before[i]]
                                        0 <= i < fr_before.len() && fr_before[i].payload == n
                                            && call_ensures(*heuristic, (n,), hval(*heuristic, n))
                                            && estimate_key(
                                            *heuristic,
                                            dist@,
                                            n,
                                            fr_before[i].key,
                                        ) {
                                        let i = choose|i: int|
                                            #![trigger fr_before[i]]
                                            0 <= i < fr_before.len() && fr_before[i].payload == n
                                                && call_ensures(
                                                *heuristic,
                                                (n,),
                                                hval(*heuristic, n),
                                            ) && estimate_key(
                                                *heuristic,
                                                dist@,
                                                n,
                                                fr_before[i].key,
                                            );
                                        assert(frontier.entries@[i] == fr_before[i]);
                                    } else {
                                        let j = choose|j: int|
                                            #![trigger improved@[j]]
                                            t - 1 <= j < improved@.len() && improved@[j] == (
                                            n,
                                            dist@[n],
                                            );
                                        assert(j >= t);
                                    }
                                }
                            }
                        }
                    }
                }
            },
        }
    }
}

} // verus!
