//! Fringe search: a threshold-iterating relative of A* that keeps two plain
//! lists instead of a sorted priority structure.
//!
//! One pass processes every node in the "now" list: a node whose cost-so-far
//! plus heuristic estimate exceeds the current threshold is deferred to the
//! "later" list (tracking the least deferred estimate); otherwise it is
//! expanded exactly as in A*.  When "now" empties, "later" is promoted to
//! "now" and the threshold rises to the least deferred estimate; when both
//! lists are empty the search fails.  As in this crate's A*, nodes are
//! finalized permanently once expanded.  Validity and decisiveness are
//! proved; minimality of a present result is exercised by tests only, since
//! permanent finalization forgoes the re-expansion of improved nodes that
//! the textbook algorithm leans on for optimality in adversarial orders.

use vstd::prelude::*;

verus! {

use std::collections::HashMap;
use crate::graph::{all_rejected, deterministic_succ, is_path, paths_bounded, search_post};
use crate::record::{
    closed_edges_tracked,
    expand,
    finish,
    frontier_edge_bounds,
    lemma_exhausted_covers,
    record_inv,
};

/// Searches from `start` for a node accepted by `success`, processing
/// discovered nodes in threshold-bounded passes.  A present result is a walk
/// of the successor relation from `start` to an accepted node whose edge
/// costs sum exactly to the reported total; `None` reports that no goal was
/// reached.  When the successor function is deterministic and every walk
/// cost is representable, an absent result moreover means that every walk
/// from `start` ends at a node the goal predicate may reject.  Estimates
/// that would overflow `u64` saturate, which affects pass scheduling only.
pub fn fringe<
    FN: Fn(usize) -> Vec<(usize, u64)>,
    FH: Fn(usize) -> u64,
    FS: Fn(usize) -> bool,
>(
    start: usize,
    successors: &FN,
    heuristic: &FH,
    success: &FS,
) -> (res: Option<(Vec<usize>, u64)>)
    requires
        forall|k: usize| #[trigger] call_requires(*successors, (k,)),
        forall|k: usize| #[trigger] call_requires(*heuristic, (k,)),
        forall|k: usize| #[trigger] call_requires(*success, (k,)),
    ensures
        search_post(*successors, *success, start, res),
        (res is None && deterministic_succ(*successors) && paths_bounded(*successors, start))
            ==> all_rejected(*successors, *success, start),
{
    let mut dist: HashMap<usize, u64> = HashMap::new();
    let mut parents: HashMap<usize, usize> = HashMap::new();
    let mut closed: HashMap<usize, ()> = HashMap::new();
    let ghost mut rk: Map<usize, nat> = Map::empty().insert(start, 0nat);
    dist.insert(start, 0);
    let mut now: Vec<usize> = Vec::new();
    let mut later: Vec<usize> = Vec::new();
    now.push(start);
    let mut threshold: u64 = heuristic(start);
    let mut min_deferred: Option<u64> = None;
    proof {
        assert(now@[0] == start);
    }
    loop
        invariant
            forall|k: usize| #[trigger] call_requires(*successors, (k,)),
            forall|k: usize| #[trigger] call_requires(*heuristic, (k,)),
            forall|k: usize| #[trigger] call_requires(*success, (k,)),
            record_inv(*successors, start, dist@, parents@, closed@.dom(), rk),
            closed@.dom().subset_of(dist@.dom()),
            forall|i: int| 0 <= i < now@.len() ==> dist@.dom().contains(#[trigger] now@[i]),
            forall|i: int| 0 <= i < later@.len() ==> dist@.dom().contains(#[trigger] later@[i]),
            forall|n: usize| #[trigger]
                dist@.dom().contains(n) ==> closed@.dom().contains(n) || now@.contains(n)
                    || later@.contains(n),
            forall|u: usize| #[trigger]
                closed@.dom().contains(u) ==> call_ensures(*success, (u,), false),
            deterministic_succ(*successors) ==> closed_edges_tracked(
                *successors,
                dist@,
                closed@.dom(),
            ),
            deterministic_succ(*successors) ==> frontier_edge_bounds(
                *successors,
                dist@,
                closed@.dom(),
            ),
            closed@.dom().len() <= usize::MAX,
            match min_deferred {
                Some(t) => t > threshold,
                None => true,
            },
            later@.len() > 0 ==> min_deferred is Some,
        decreases
            usize::MAX as int + 1 - closed@.dom().len(),
            u64::MAX - threshold,
            now@.len(),
    {
        if now.len() == 0 {
            if later.len() == 0 {
                proof {
                    if deterministic_succ(*successors) && paths_bounded(*successors, start) {
                        assert forall|q: Seq<usize>, cost: int|
                            (#[trigger] is_path(*successors, q, cost) && q.len() >= 1 && q[0]
                                == start) implies call_ensures(
                            *success,
                            (q[q.len() - 1],),
                            false,
                        ) by {
                            assert forall|n: usize| #[trigger]
                                dist@.dom().contains(n) implies closed@.dom().contains(n) by {}
                            assert(parents@.dom().finite());
                            lemma_exhausted_covers(
                                *successors,
                                start,
                                dist@,
                                parents@,
                                closed@.dom(),
                                rk,
                                q,
                                cost,
                            );
                            assert(closed@.dom().contains(q[q.len() - 1]));
                        }
                    }
                }
                return None;
            }
            match min_deferred {
                Some(t) => {
                    now = later;
                    later = Vec::new();
                    threshold = t;
                    min_deferred = None;
                },
                None => {
                    proof {
                        assert(false);
                    }
                },
            }
        } else {
            let ghost now_old = now@;
            let node = now.pop().unwrap();
            proof {
                assert forall|n: usize| #[trigger]
                    dist@.dom().contains(n) && n != node implies closed@.dom().contains(n)
                    || now@.contains(n) || later@.contains(n) by {
                    if !closed@.dom().contains(n) && !later@.contains(n) {
                        let i = choose|i: int| 0 <= i < now_old.len() && now_old[i] == n;
                        assert(now@[i] == n);
                        assert(now@.contains(n));
                    }
                }
            }
            if !closed.contains_key(&node) {
                let gn = *dist.get(&node).unwrap();
                let hn = heuristic(node);
                let est = if gn <= u64::MAX - hn {
                    gn + hn
                } else {
                    u64::MAX
                };
                if est > threshold {
                    let ghost later_before = later@;
                    later.push(node);
                    min_deferred = Some(
                        match min_deferred {
                            Some(m) => if est < m {
                                est
                            } else {
                                m
                            },
                            None => est,
                        },
                    );
                    proof {
                        assert(later@[later@.len() - 1] == node);
                        assert(later@.contains(node));
                        assert forall|n: usize| later_before.contains(n) implies later@.contains(
                            n,
                        ) by {
                            let i = choose|i: int| 0 <= i < later_before.len() && later_before[i]
                                == n;
                            assert(later@[i] == n);
                        }
                    }
                } else {
                    if success(node) {
                        let (p, c) = finish(
                            successors,
                            start,
                            &dist,
                            parents,
                            node,
                            Ghost(closed@.dom()),
                            Ghost(rk),
                        );
                        return Some((p, c));
                    }
                    let ghost c_old = closed@.dom();
                    closed.insert(node, ());
                    proof {
                        assert(closed@.len() == vstd::std_specs::hash::spec_hash_map_len(&closed));
                        assert(closed@.dom().remove(node) =~= c_old);
                    }
                    let (improved, rk2) = expand(
                        successors,
                        start,
                        node,
                        &mut dist,
                        &mut parents,
                        &closed,
                        Ghost(rk),
                        Ghost(false),
                    );
                    proof {
                        rk = rk2@;
                    }
                    let mut t: usize = 0;
                    while t < improved.len()
                        invariant
                            t <= improved@.len(),
                            forall|j: int|
                                0 <= j < improved@.len() ==> dist@.dom().contains(
                                    #[trigger] improved@[j].0,
                                ),
                            forall|i: int|
                                0 <= i < now@.len() ==> dist@.dom().contains(#[trigger] now@[i]),
                            forall|i: int|
                                0 <= i < later@.len() ==> dist@.dom().contains(
                                    #[trigger] later@[i],
                                ),
                            forall|n: usize| #[trigger]
                                dist@.dom().contains(n) ==> closed@.dom().contains(n)
                                    || now@.contains(n) || later@.contains(n) || (exists|j: int|
                                    #![trigger improved@[j]]
                                    t <= j < improved@.len() && improved@[j].0 == n),
                        decreases improved@.len() - t,
                    {
                        let (n2, _g2) = improved[t];
                        let ghost now_before = now@;
                        now.push(n2);
                        t += 1;
                        proof {
                            assert(now@[now@.len() - 1] == n2);
                            assert(now@.contains(n2));
                            assert forall|n: usize| #[trigger]
                                dist@.dom().contains(n) implies closed@.dom().contains(n)
                                || now@.contains(n) || later@.contains(n) || (exists|j: int|
                                #![trigger improved@[j]]
                                t <= j < improved@.len() && improved@[j].0 == n) by {
                                if !closed@.dom().contains(n) && !later@.contains(n)
                                    && !now@.contains(n) {
                                    if now_before.contains(n) {
                                        let i = choose|i: int|
                                            0 <= i < now_before.len() && now_before[i] == n;
                                        assert(now@[i] == n);
                                        assert(false);
                                    }
                                }
                            }
                        }
                    }
                }
            }
        }
    }
}

} // verus!
