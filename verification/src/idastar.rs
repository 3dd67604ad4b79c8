//! IDA* search: repeated depth-first exploration bounded by a cost
//! threshold that rises, between passes, to the least estimate that exceeded
//! it.  The current path lives on the recursion, so memory use is
//! proportional to path depth, not frontier size.
//!
//! A ghost set records every node a pass has visited and rejected.  When a
//! pass prunes nothing, that set is closed under the successor relation, so
//! the search has exhausted everything reachable: this is what makes an
//! absent result decisive.  A pass that does prune records, for every
//! cycle-free goal walk, a pruned estimate at most that walk's cost, so
//! under an admissible heuristic the threshold never overtakes the optimal
//! cost and a present result is proved minimal.

use vstd::prelude::*;

verus! {

use crate::graph::{
    accepts,
    admissible_heuristic,
    all_rejected,
    deterministic_goal,
    deterministic_succ,
    edge,
    is_path,
    lemma_closed_set_covers,
    lemma_path_first_edge,
    lemma_path_push,
    lemma_simple_walk,
    min_cost_post,
    paths_bounded,
    search_post,
};

/// The caller obligations under which this IDA* is proved optimal: pure
/// successor and goal functions, an admissible heuristic, and representable
/// walk costs from `r0`.
pub open spec fn idastar_optimal_hyps<
    FN: Fn(usize) -> Vec<(usize, u64)>,
    FH: Fn(usize) -> u64,
    FS: Fn(usize) -> bool,
>(f: FN, h: FH, g: FS, r0: usize) -> bool {
    &&& deterministic_succ(f)
    &&& deterministic_goal(g)
    &&& admissible_heuristic(f, h, g)
    &&& paths_bounded(f, r0)
}

/// Whether `v` holds `x`.
fn vec_has(v: &Vec<usize>, x: usize) -> (r: bool)
    ensures
        r == v@.contains(x),
{
    let mut i: usize = 0;
    while i < v.len()
        invariant
            i <= v@.len(),
            forall|k: int| 0 <= k < i ==> v@[k] != x,
        decreases v@.len() - i,
    {
        if v[i] == x {
            return true;
        }
        i += 1;
    }
    false
}

/// One threshold-bounded depth-first pass from the end of `path`, whose
/// edge costs sum to `g`.  A present cost leaves in `path` a walk from the
/// original first node to an accepted node with that exact total cost; an
/// absent one restores `path` and keeps in `min_exc` the least estimate
/// seen above `bound`, which always stays above `bound`.  The ghost set
/// `seen` collects visited, rejected nodes; when nothing was pruned it ends
/// closed under every edge not leaving a node with an unfinished frame
/// (those still on `path` below its end).  When the pass fails, every
/// cycle-free goal walk leaving the end of `path` and avoiding its earlier
/// nodes has some prefix pruned at an estimate no larger than the walk's
/// full cost.  Nodes already on the path are not revisited; a branch whose
/// cost would overflow `u64` is not pursued.
fn bounded_dfs<
    FN: Fn(usize) -> Vec<(usize, u64)>,
    FH: Fn(usize) -> u64,
    FS: Fn(usize) -> bool,
>(
    successors: &FN,
    heuristic: &FH,
    success: &FS,
    path: &mut Vec<usize>,
    g: u64,
    bound: u64,
    min_exc: &mut Option<u64>,
    seen: Ghost<Set<usize>>,
) -> (r: (Option<u64>, Ghost<Set<usize>>))
    requires
        forall|k: usize| #[trigger] call_requires(*successors, (k,)),
        forall|k: usize| #[trigger] call_requires(*heuristic, (k,)),
        forall|k: usize| #[trigger] call_requires(*success, (k,)),
        old(path)@.len() >= 1,
        is_path(*successors, old(path)@, g as int),
        match *old(min_exc) {
            Some(t) => t > bound,
            None => true,
        },
        forall|u: usize| #[trigger] seen@.contains(u) ==> call_ensures(*success, (u,), false),
        forall|j: int| 0 <= j < old(path)@.len() - 1 ==> seen@.contains(#[trigger] old(path)@[j]),
        (deterministic_succ(*successors) && paths_bounded(*successors, old(path)@[0]) && *old(
            min_exc,
        ) is None) ==> forall|u: usize, v: usize, w: u64|
            (seen@.contains(u) && !old(path)@.contains(u) && #[trigger] edge(*successors, u, v, w))
                ==> seen@.contains(v),
    ensures
        match r.0 {
            Some(c) => {
                &&& final(path)@.len() >= 1
                &&& final(path)@[0] == old(path)@[0]
                &&& accepts(*success, final(path)@[final(path)@.len() - 1])
                &&& is_path(*successors, final(path)@, c as int)
                &&& c <= bound
            },
            None => final(path)@ == old(path)@,
        },
        match *final(min_exc) {
            Some(t) => t > bound,
            None => true,
        },
        *old(min_exc) is Some ==> *final(min_exc) is Some,
        match (*old(min_exc), *final(min_exc)) {
            (Some(m0), Some(m1)) => m1 <= m0,
            (Some(m0), None) => false,
            _ => true,
        },
        (idastar_optimal_hyps(*successors, *heuristic, *success, old(path)@[0]) && r.0
            is None) ==> forall|q: Seq<usize>, c: int|
            (#[trigger] is_path(*successors, q, c) && q.len() >= 1 && q[0] == old(
                path,
            )@[old(path)@.len() - 1] && q.no_duplicates() && (forall|k: int|
                1 <= k < q.len() ==> !old(path)@.drop_last().contains(#[trigger] q[k]))
                && accepts(*success, q[q.len() - 1])) ==> match *final(min_exc) {
                Some(t) => t <= g + c,
                None => false,
            },
        seen@.subset_of(r.1@),
        forall|u: usize| #[trigger] r.1@.contains(u) ==> call_ensures(*success, (u,), false),
        (r.0 is None && *final(min_exc) is None) ==> r.1@.contains(
            old(path)@[old(path)@.len() - 1],
        ),
        (deterministic_succ(*successors) && paths_bounded(*successors, old(path)@[0]) && r.0
            is None && *final(min_exc) is None) ==> forall|u: usize, v: usize, w: u64|
            (r.1@.contains(u) && !old(path)@.drop_last().contains(u) && #[trigger] edge(
                *successors,
                u,
                v,
                w,
            )) ==> r.1@.contains(v),
    decreases usize::MAX as int - old(path)@.len(),
{
    let node = path[path.len() - 1];
    let hn = heuristic(node);
    let est = if g <= u64::MAX - hn {
        g + hn
    } else {
        u64::MAX
    };
    if est > bound {
        *min_exc = Some(
            match *min_exc {
                Some(m) => if est < m {
                    est
                } else {
                    m
                },
                None => est,
            },
        );
        proof {
            if idastar_optimal_hyps(*successors, *heuristic, *success, old(path)@[0]) {
                assert forall|q: Seq<usize>, c: int|
                    (#[trigger] is_path(*successors, q, c) && q.len() >= 1 && q[0] == old(
                        path,
                    )@[old(path)@.len() - 1] && q.no_duplicates() && (forall|k: int|
                        1 <= k < q.len() ==> !old(path)@.drop_last().contains(#[trigger] q[k]))
                        && accepts(*success, q[q.len() - 1])) implies match *min_exc {
                    Some(t) => t <= g + c,
                    None => false,
                } by {
                    assert(call_ensures(*heuristic, (q[0],), hn));
                    assert(hn <= c);
                }
            }
        }
        return (None, seen);
    }
    if success(node) {
        return (Some(g), seen);
    }
    let ghost mut sx: Set<usize> = seen@.insert(node);
    let succs = successors(node);
    let mut i: usize = 0;
    while i < succs.len()
        invariant
            forall|k: usize| #[trigger] call_requires(*successors, (k,)),
            forall|k: usize| #[trigger] call_requires(*heuristic, (k,)),
            forall|k: usize| #[trigger] call_requires(*success, (k,)),
            call_ensures(*successors, (node,), succs),
            i <= succs@.len(),
            path@ == old(path)@,
            old(path)@.len() >= 1,
            node == old(path)@[old(path)@.len() - 1],
            is_path(*successors, old(path)@, g as int),
            match *min_exc {
                Some(t) => t > bound,
                None => true,
            },
            *old(min_exc) is Some ==> *min_exc is Some,
            match (*old(min_exc), *min_exc) {
                (Some(m0), Some(m1)) => m1 <= m0,
                (Some(m0), None) => false,
                _ => true,
            },
            seen@.subset_of(sx),
            sx.contains(node),
            forall|u: usize| #[trigger] sx.contains(u) ==> call_ensures(*success, (u,), false),
            forall|j: int| 0 <= j < path@.len() ==> sx.contains(#[trigger] path@[j]),
            (deterministic_succ(*successors) && paths_bounded(*successors, old(path)@[0])
                && *min_exc is None) ==> forall|u: usize, v: usize, w: u64|
                (sx.contains(u) && !old(path)@.contains(u) && #[trigger] edge(
                    *successors,
                    u,
                    v,
                    w,
                )) ==> sx.contains(v),
            (deterministic_succ(*successors) && paths_bounded(*successors, old(path)@[0])
                && *min_exc is None) ==> forall|j: int|
                0 <= j < i ==> sx.contains(#[trigger] succs@[j].0),
            idastar_optimal_hyps(*successors, *heuristic, *success, old(path)@[0]) ==> forall|
                j: int,
                q2: Seq<usize>,
                c2: int,
            |
                #![trigger succs@[j], is_path(*successors, q2, c2)]
                (0 <= j < i && is_path(*successors, q2, c2) && q2.len() >= 1 && q2[0]
                    == succs@[j].0 && !path@.contains(q2[0]) && q2.no_duplicates() && (forall|
                    k: int,
                |
                    1 <= k < q2.len() ==> !path@.contains(#[trigger] q2[k])) && accepts(
                    *success,
                    q2[q2.len() - 1],
                )) ==> match *min_exc {
                    Some(t) => t <= g + succs@[j].1 + c2,
                    None => false,
                },
        decreases succs@.len() - i,
    {
        let (n2, w) = succs[i];
        i += 1;
        if g <= u64::MAX - w {
            let g2 = g + w;
            if !vec_has(path, n2) {
                let ghost before = path@;
                path.push(n2);
                let plen = path.len();
                proof {
                    assert(plen == before.len() + 1);
                    assert(edge(*successors, node, n2, w)) by {
                        assert(succs@[i - 1] == (n2, w));
                        assert(succs@.contains((n2, w)));
                    }
                    lemma_path_push(*successors, before, g as int, n2, w);
                    assert(path@[0] == old(path)@[0]);
                    if deterministic_succ(*successors) && paths_bounded(
                        *successors,
                        old(path)@[0],
                    ) && *min_exc is None {
                        assert forall|u: usize, v: usize, w2: u64|
                            (sx.contains(u) && !path@.contains(u) && #[trigger] edge(
                                *successors,
                                u,
                                v,
                                w2,
                            )) implies sx.contains(v) by {
                            assert(!old(path)@.contains(u)) by {
                                if old(path)@.contains(u) {
                                    let k = choose|k: int|
                                        0 <= k < old(path)@.len() && old(path)@[k] == u;
                                    assert(path@[k] == u);
                                }
                            }
                        }
                    }
                }
                let sub = bounded_dfs(
                    successors,
                    heuristic,
                    success,
                    path,
                    g2,
                    bound,
                    min_exc,
                    Ghost(sx),
                );
                match sub.0 {
                    Some(c) => {
                        proof {
                            assert(seen@.subset_of(sub.1@));
                        }
                        return (Some(c), sub.1);
                    },
                    None => {
                        proof {
                            let ghost childpath = path@;
                            sx = sub.1@;
                            assert(childpath.drop_last() =~= before);
                            if deterministic_succ(*successors) && paths_bounded(
                                *successors,
                                old(path)@[0],
                            ) && *min_exc is None {
                                assert(sx.contains(childpath[childpath.len() - 1]));
                                assert(sx.contains(n2));
                            }
                            if idastar_optimal_hyps(
                                *successors,
                                *heuristic,
                                *success,
                                old(path)@[0],
                            ) {
                                assert forall|q2: Seq<usize>, c2: int|
                                    (#[trigger] is_path(*successors, q2, c2) && q2.len() >= 1
                                        && q2[0] == n2 && !before.contains(q2[0])
                                        && q2.no_duplicates() && (forall|k: int|
                                        1 <= k < q2.len() ==> !before.contains(#[trigger] q2[k]))
                                        && accepts(
                                        *success,
                                        q2[q2.len() - 1],
                                    )) implies match *min_exc {
                                    Some(t) => t <= g + w + c2,
                                    None => false,
                                } by {
                                    assert(childpath[childpath.len() - 1] == n2);
                                    assert(forall|k: int|
                                        1 <= k < q2.len() ==> !childpath.drop_last().contains(
                                            #[trigger] q2[k],
                                        ));
                                }
                            }
                        }
                        path.pop();
                        proof {
                            assert(path@ =~= before);
                        }
                    },
                }
            } else {
                proof {
                    assert(sx.contains(n2)) by {
                        let k = choose|k: int| 0 <= k < path@.len() && path@[k] == n2;
                    }
                }
            }
        } else {
            proof {
                if deterministic_succ(*successors) && paths_bounded(*successors, old(path)@[0]) {
                    assert(edge(*successors, node, n2, w)) by {
                        assert(succs@[i - 1] == (n2, w));
                        assert(succs@.contains((n2, w)));
                    }
                    lemma_path_push(*successors, old(path)@, g as int, n2, w);
                    assert(is_path(*successors, old(path)@.push(n2), g + w));
                    assert(old(path)@.push(n2)[0] == old(path)@[0]);
                    assert(false);
                }
            }
        }
    }
    proof {
        if idastar_optimal_hyps(*successors, *heuristic, *success, old(path)@[0]) {
            assert forall|q: Seq<usize>, c: int|
                (#[trigger] is_path(*successors, q, c) && q.len() >= 1 && q[0] == old(
                    path,
                )@[old(path)@.len() - 1] && q.no_duplicates() && (forall|k: int|
                    1 <= k < q.len() ==> !old(path)@.drop_last().contains(#[trigger] q[k]))
                    && accepts(*success, q[q.len() - 1])) implies match *min_exc {
                Some(t) => t <= g + c,
                None => false,
            } by {
                if q.len() == 1 {
                    assert(accepts(*success, node));
                    assert(call_ensures(*success, (node,), false));
                    assert(false);
                } else {
                    lemma_path_first_edge(*successors, q, c);
                    let w1 = choose|w1: u64| #[trigger] edge(*successors, q[0], q[1], w1)
                        && is_path(*successors, q.drop_first(), c - w1);
                    let r0v = choose|r0v: Vec<(usize, u64)>| #[trigger] call_ensures(
                        *successors,
                        (node,),
                        r0v,
                    ) && r0v@.contains((q[1], w1));
                    assert(r0v@ == succs@);
                    assert(succs@.contains((q[1], w1)));
                    let j = choose|j: int| 0 <= j < succs@.len() && succs@[j] == (q[1], w1);
                    let q2 = q.drop_first();
                    assert(q2.no_duplicates()) by {
                        assert forall|k1: int, k2: int|
                            0 <= k1 < q2.len() && 0 <= k2 < q2.len() && k1 != k2 implies q2[k1]
                            != q2[k2] by {
                            assert(q2[k1] == q[k1 + 1] && q2[k2] == q[k2 + 1]);
                        }
                    }
                    assert(!path@.contains(q2[0])) by {
                        if path@.contains(q2[0]) {
                            let k = choose|k: int| 0 <= k < path@.len() && path@[k] == q2[0];
                            if k < path@.len() - 1 {
                                assert(old(path)@.drop_last()[k] == q[1]);
                            } else {
                                assert(q[1] == node && q[0] == node);
                            }
                        }
                    }
                    assert forall|k: int| 1 <= k < q2.len() implies !path@.contains(
                        #[trigger] q2[k],
                    ) by {
                        assert(q2[k] == q[k + 1]);
                        if path@.contains(q2[k]) {
                            let k2 = choose|k2: int| 0 <= k2 < path@.len() && path@[k2] == q2[k];
                            if k2 < path@.len() - 1 {
                                assert(old(path)@.drop_last()[k2] == q[k + 1]);
                            } else {
                                assert(q[k + 1] == node && q[0] == node);
                            }
                        }
                    }
                    assert(q2[q2.len() - 1] == q[q.len() - 1]);
                    assert(match *min_exc {
                        Some(t) => t <= g + succs@[j].1 + (c - w1),
                        None => false,
                    });
                }
            }
        }
        if deterministic_succ(*successors) && paths_bounded(*successors, old(path)@[0])
            && *min_exc is None {
            assert forall|u: usize, v: usize, w: u64|
                (sx.contains(u) && !old(path)@.drop_last().contains(u) && #[trigger] edge(
                    *successors,
                    u,
                    v,
                    w,
                )) implies sx.contains(v) by {
                if u == node {
                    let r0 = choose|r0: Vec<(usize, u64)>| #[trigger] call_ensures(
                        *successors,
                        (node,),
                        r0,
                    ) && r0@.contains((v, w));
                    assert(r0@ == succs@);
                    assert(succs@.contains((v, w)));
                    let j = choose|j: int| 0 <= j < succs@.len() && succs@[j] == (v, w);
                    assert(sx.contains(succs@[j].0));
                } else {
                    assert(!old(path)@.contains(u)) by {
                        if old(path)@.contains(u) {
                            let k = choose|k: int| 0 <= k < old(path)@.len() && old(path)@[k] == u;
                            if k < old(path)@.len() - 1 {
                                assert(old(path)@.drop_last()[k] == u);
                            }
                        }
                    }
                }
            }
        }
    }
    (None, Ghost(sx))
}

/// Searches from `start` for a node accepted by `success` by iterative
/// deepening: each pass explores depth-first up to the current threshold,
/// which starts at the heuristic estimate of `start` and rises to the least
/// estimate that exceeded it.  A present result is a walk of the successor
/// relation from `start` to an accepted node whose edge costs sum exactly
/// to the reported total; `None` reports that no goal was reached.  When
/// the successor function is deterministic and every walk cost is
/// representable, an absent result moreover means that every walk from
/// `start` ends at a node the goal predicate may reject; and under
/// `idastar_optimal_hyps` a present result is minimal.
pub fn idastar<
    FN: Fn(usize) -> Vec<(usize, u64)>,
    FH: Fn(usize) -> u64,
    FS: Fn(usize) -> bool,
>(
    start: usize,
    successors: &FN,
    heuristic: &FH,
    success: &FS,
) -> (res: Option<(Vec<usize>, u64)>)
    requires
        forall|k: usize| #[trigger] call_requires(*successors, (k,)),
        forall|k: usize| #[trigger] call_requires(*heuristic, (k,)),
        forall|k: usize| #[trigger] call_requires(*success, (k,)),
    ensures
        search_post(*successors, *success, start, res),
        (res is None && deterministic_succ(*successors) && paths_bounded(*successors, start))
            ==> all_rejected(*successors, *success, start),
        idastar_optimal_hyps(*successors, *heuristic, *success, start) ==> min_cost_post(
            *successors,
            *success,
            start,
            res,
        ),
{
    let mut bound = heuristic(start);
    proof {
        if idastar_optimal_hyps(*successors, *heuristic, *success, start) {
            assert forall|q: Seq<usize>, c: int|
                (#[trigger] is_path(*successors, q, c) && q.len() >= 1 && q[0] == start
                    && accepts(*success, q[q.len() - 1])) implies bound <= c by {
                assert(call_ensures(*heuristic, (q[0],), bound));
            }
        }
    }
    loop
        invariant
            forall|k: usize| #[trigger] call_requires(*successors, (k,)),
            forall|k: usize| #[trigger] call_requires(*heuristic, (k,)),
            forall|k: usize| #[trigger] call_requires(*success, (k,)),
            idastar_optimal_hyps(*successors, *heuristic, *success, start) ==> forall|
                q: Seq<usize>,
                c: int,
            |
                (#[trigger] is_path(*successors, q, c) && q.len() >= 1 && q[0] == start
                    && accepts(*success, q[q.len() - 1])) ==> bound <= c,
        decreases u64::MAX - bound,
    {
        let mut path: Vec<usize> = Vec::new();
        path.push(start);
        let mut min_exc: Option<u64> = None;
        proof {
            assert(path@ =~= seq![start]);
        }
        let ghost p0 = path@;
        let (found, visited) = bounded_dfs(
            successors,
            heuristic,
            success,
            &mut path,
            0,
            bound,
            &mut min_exc,
            Ghost(Set::empty()),
        );
        match found {
            Some(c) => {
                proof {
                    if idastar_optimal_hyps(*successors, *heuristic, *success, start) {
                        assert forall|q: Seq<usize>, cq: int|
                            (#[trigger] is_path(*successors, q, cq) && q.len() >= 1 && q[0]
                                == start && accepts(*success, q[q.len() - 1])) implies c
                            <= cq by {
                            assert(bound <= cq);
                        }
                    }
                }
                return Some((path, c));
            },
            None => {
                match min_exc {
                    Some(t) => {
                        proof {
                            if idastar_optimal_hyps(*successors, *heuristic, *success, start) {
                                assert forall|q: Seq<usize>, cq: int|
                                    (#[trigger] is_path(*successors, q, cq) && q.len() >= 1
                                        && q[0] == start && accepts(
                                        *success,
                                        q[q.len() - 1],
                                    )) implies t <= cq by {
                                    lemma_simple_walk(*successors, q, cq);
                                    let (q2, c2) = choose|q2: Seq<usize>, c2: int|
                                        #![trigger is_path(*successors, q2, c2)]
                                        is_path(*successors, q2, c2) && c2 <= cq && q2.len() >= 1
                                            && q2[0] == q[0] && q2[q2.len() - 1] == q[q.len() - 1]
                                            && q2.no_duplicates();
                                    assert(p0[p0.len() - 1] == start);
                                    assert(forall|k: int|
                                        1 <= k < q2.len() ==> !p0.drop_last().contains(
                                            #[trigger] q2[k],
                                        ));
                                    assert(t <= 0 + c2);
                                }
                            }
                        }
                        bound = t;
                    },
                    None => {
                        proof {
                            if deterministic_succ(*successors) && paths_bounded(
                                *successors,
                                start,
                            ) {
                                let s = visited@;
                                assert(s.contains(start)) by {
                                    assert(p0[p0.len() - 1] == start);
                                }
                                assert forall|u: usize, v: usize, w: u64|
                                    (s.contains(u) && #[trigger] edge(
                                        *successors,
                                        u,
                                        v,
                                        w,
                                    )) implies s.contains(v) by {
                                    assert(!p0.drop_last().contains(u)) by {
                                        if p0.drop_last().contains(u) {
                                            let k = choose|k: int|
                                                0 <= k < p0.drop_last().len() && p0.drop_last()[k]
                                                    == u;
                                        }
                                    }
                                }
                                assert forall|q: Seq<usize>, c: int|
                                    (#[trigger] is_path(*successors, q, c) && q.len() >= 1 && q[0]
                                        == start) implies call_ensures(
                                    *success,
                                    (q[q.len() - 1],),
                                    false,
                                ) by {
                                    lemma_closed_set_covers(*successors, s, q, c);
                                    assert(s.contains(q[q.len() - 1]));
                                }
                            }
                        }
                        return None;
                    },
                }
            },
        }
    }
}

} // verus!
