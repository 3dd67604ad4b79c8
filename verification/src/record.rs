//! The transient search record shared by Dijkstra, A* and Fringe search: the
//! best-known cost and parent of every discovered node, the set of finalized
//! nodes, and parent-chain path reconstruction.
//!
//! Once a node is finalized its recorded cost never changes again (nodes are
//! never reopened; under an inconsistent heuristic this may cost optimality
//! but never validity), so every parent edge stays exact: the child's
//! recorded cost is the parent's recorded cost plus the edge cost.  A ghost
//! rank, strictly descending along parent links, rules out cycles, so the
//! parent chain of any discovered node is a genuine walk from the start node
//! whose edge costs sum to the node's recorded cost.

use vstd::prelude::*;

verus! {

use std::collections::HashMap;
use crate::graph::{
    edge,
    is_path,
    lemma_path_append,
    lemma_path_first_edge,
    lemma_path_nonneg,
    lemma_path_push,
    paths_bounded,
};

/// The start-to-`n` sequence encoded by the parent mapping `m`: follow
/// parents from `n`, dropping each visited entry, until a node without one;
/// the walk is returned start-first, ending in `n`.
pub open spec fn parent_walk(m: Map<usize, usize>, n: usize) -> Seq<usize>
    decreases m.dom().len(),
        when m.dom().finite()
{
    if m.dom().finite() && m.dom().contains(n) {
        parent_walk(m.remove(n), m[n]).push(n)
    } else {
        seq![n]
    }
}

/// Given a node-to-parent mapping and the node the backward traversal starts
/// from, rebuilds the ordered path from the originating node to it,
/// consuming the mapping.
pub fn reverse_path(parents: HashMap<usize, usize>, start: usize) -> (r: Vec<usize>)
    ensures
        r@ == parent_walk(parents@, start),
{
    let mut parents = parents;
    let ghost m0 = parents@;
    let mut path: Vec<usize> = Vec::new();
    path.push(start);
    loop
        invariant
            path@.len() >= 1,
            parents@.dom().finite(),
            parent_walk(m0, start) == parent_walk(parents@, path@[0]) + path@.drop_first(),
        ensures
            parent_walk(m0, start) == path@,
        decreases parents@.dom().len(),
    {
        let cur = path[0];
        match parents.remove(&cur) {
            Some(par) => {
                proof {
                    assert(parent_walk(parents@, par) + (seq![cur] + path@.drop_first())
                        =~= parent_walk(parents@, par).push(cur) + path@.drop_first());
                    assert(seq![cur] + path@.drop_first() =~= path@);
                }
                path.insert(0, par);
            },
            None => {
                proof {
                    assert(parent_walk(parents@, cur) =~= seq![cur]);
                    assert(seq![cur] + path@.drop_first() =~= path@);
                }
                break ;
            },
        }
    }
    path
}

/// Well-formedness of a running search record with cost map `d`, parent map
/// `p`, finalized set `c` and ghost rank `r`: the start node is discovered
/// at cost zero, every other discovered node has a parent edge that is exact
/// for the recorded costs, parents are finalized, and ranks strictly descend
/// along parent links.
pub open spec fn record_inv<FN: Fn(usize) -> Vec<(usize, u64)>>(
    f: FN,
    start: usize,
    d: Map<usize, u64>,
    p: Map<usize, usize>,
    c: Set<usize>,
    r: Map<usize, nat>,
) -> bool {
    &&& d.dom().contains(start)
    &&& d[start] == 0
    &&& forall|n: usize| #[trigger]
        p.dom().contains(n) ==> {
            &&& n != start
            &&& d.dom().contains(n)
            &&& d.dom().contains(p[n])
            &&& c.contains(p[n])
            &&& r.dom().contains(n)
            &&& r.dom().contains(p[n])
            &&& r[p[n]] < r[n]
            &&& exists|w: u64| #[trigger] edge(f, p[n], n, w) && d[p[n]] + w == d[n]
        }
    &&& forall|n: usize| #[trigger] d.dom().contains(n) && n != start ==> p.dom().contains(n)
    &&& forall|n: usize| #[trigger] d.dom().contains(n) ==> r.dom().contains(n)
}

/// In a well-formed record, the parent walk of any discovered node is a walk
/// of the successor relation from the start node to it, and its edge costs
/// sum exactly to the node's recorded cost.  `m` is the parent map with some
/// entries of higher rank than `n` already dropped, so the statement also
/// covers the partially consumed maps that arise while reconstructing.
pub proof fn lemma_walk_valid<FN: Fn(usize) -> Vec<(usize, u64)>>(
    f: FN,
    start: usize,
    d: Map<usize, u64>,
    p: Map<usize, usize>,
    c: Set<usize>,
    r: Map<usize, nat>,
    m: Map<usize, usize>,
    n: usize,
)
    requires
        record_inv(f, start, d, p, c, r),
        d.dom().contains(n),
        m.dom().finite(),
        m.dom().subset_of(p.dom()),
        forall|k: usize| #[trigger] m.dom().contains(k) ==> m[k] == p[k],
        forall|k: usize| #[trigger] p.dom().contains(k) && !m.dom().contains(k) ==> r[k] > r[n],
        p.dom().contains(n) ==> m.dom().contains(n),
    ensures
        parent_walk(m, n).len() >= 1,
        parent_walk(m, n)[0] == start,
        parent_walk(m, n)[parent_walk(m, n).len() - 1] == n,
        is_path(f, parent_walk(m, n), d[n] as int),
    decreases r[n],
{
    if m.dom().contains(n) {
        let q = p[n];
        let w = choose|w: u64| #[trigger] edge(f, p[n], n, w) && d[p[n]] + w == d[n];
        let m2 = m.remove(n);
        assert(forall|k: usize| #[trigger] m2.dom().contains(k) ==> m2[k] == p[k]);
        assert forall|k: usize| #[trigger] p.dom().contains(k) && !m2.dom().contains(k)
            implies r[k] > r[q] by {
            if k != n {
                assert(r[k] > r[n]);
            }
        }
        if p.dom().contains(q) {
            assert(m2.dom().contains(q)) by {
                if !m.dom().contains(q) {
                    assert(r[q] > r[n]);
                }
            }
        }
        lemma_walk_valid(f, start, d, p, c, r, m2, q);
        lemma_path_push(f, parent_walk(m2, q), d[q] as int, n, w);
        assert(parent_walk(m, n) == parent_walk(m2, q).push(n));
    } else {
        assert(n == start);
        assert(parent_walk(m, n) =~= seq![n]);
    }
}

/// Every edge leaving a finalized node leads to a discovered node, unless
/// even its candidate cost would not be representable.
pub open spec fn closed_edges_tracked<FN: Fn(usize) -> Vec<(usize, u64)>>(
    f: FN,
    d: Map<usize, u64>,
    c: Set<usize>,
) -> bool {
    forall|u: usize, v: usize, w: u64|
        (c.contains(u) && #[trigger] edge(f, u, v, w)) ==> (d.dom().contains(v) || d[u] + w
            > u64::MAX)
}

/// Every edge leaving a finalized node leads to a discovered node, and one
/// that is not itself finalized has recorded cost at most the edge's
/// candidate cost; the exception again covers candidates that would not be
/// representable.  Unlike `min_edge_bounds` this holds in any expansion
/// order, because a finalized target keeps whatever cost it was frozen at.
pub open spec fn frontier_edge_bounds<FN: Fn(usize) -> Vec<(usize, u64)>>(
    f: FN,
    d: Map<usize, u64>,
    c: Set<usize>,
) -> bool {
    forall|u: usize, v: usize, w: u64|
        (c.contains(u) && #[trigger] edge(f, u, v, w)) ==> ((d.dom().contains(v) && (!c.contains(
            v,
        ) ==> d[v] <= d[u] + w)) || d[u] + w > u64::MAX)
}

/// Every edge leaving a finalized node leads to a discovered node whose
/// recorded cost is at most the edge's candidate cost, unless even that
/// candidate cost would not be representable.  This holds when nodes are
/// finalized in cost order, as Dijkstra's algorithm does.
pub open spec fn min_edge_bounds<FN: Fn(usize) -> Vec<(usize, u64)>>(
    f: FN,
    d: Map<usize, u64>,
    c: Set<usize>,
) -> bool {
    forall|u: usize, v: usize, w: u64|
        (c.contains(u) && #[trigger] edge(f, u, v, w)) ==> ((d.dom().contains(v) && d[v] <= d[u]
            + w) || d[u] + w > u64::MAX)
}

/// Any walk from a discovered node to a node that is not finalized passes a
/// discovered, not yet finalized node whose recorded cost is at most the
/// walk's start cost plus the walk's cost: the frontier separates the
/// finalized region from the rest, and edge bounds carry the cost across it.
pub proof fn lemma_escape<FN: Fn(usize) -> Vec<(usize, u64)>>(
    f: FN,
    start: usize,
    d: Map<usize, u64>,
    p: Map<usize, usize>,
    c: Set<usize>,
    r: Map<usize, nat>,
    q: Seq<usize>,
    cost: int,
)
    requires
        record_inv(f, start, d, p, c, r),
        paths_bounded(f, start),
        min_edge_bounds(f, d, c),
        p.dom().finite(),
        is_path(f, q, cost),
        q.len() >= 1,
        d.dom().contains(q[0]),
        !c.contains(q[q.len() - 1]),
    ensures
        exists|v: usize|
            #[trigger] d.dom().contains(v) && !c.contains(v) && d[v] <= d[q[0]] + cost,
    decreases q.len(),
{
    lemma_path_nonneg(f, q, cost);
    if !c.contains(q[0]) {
        assert(d.dom().contains(q[0]) && !c.contains(q[0]) && d[q[0]] <= d[q[0]] + cost);
    } else {
        lemma_path_first_edge(f, q, cost);
        let w = choose|w: u64| #[trigger] edge(f, q[0], q[1], w) && is_path(
            f,
            q.drop_first(),
            cost - w,
        );
        lemma_path_nonneg(f, q.drop_first(), cost - w);
        if d[q[0]] + w > u64::MAX {
            lemma_walk_valid(f, start, d, p, c, r, p, q[0]);
            let pw = parent_walk(p, q[0]);
            lemma_path_append(f, pw, d[q[0]] as int, q, cost);
            assert(is_path(f, pw + q.drop_first(), d[q[0]] + cost));
            assert((pw + q.drop_first())[0] == start);
            assert((pw + q.drop_first()).len() >= 1);
            assert(false);
        }
        assert(d.dom().contains(q[1]) && d[q[1]] <= d[q[0]] + w);
        assert(q.drop_first()[q.drop_first().len() - 1] == q[q.len() - 1]);
        lemma_escape(f, start, d, p, c, r, q.drop_first(), cost - w);
        let v = choose|v: usize|
            #[trigger] d.dom().contains(v) && !c.contains(v) && d[v] <= d[q.drop_first()[0]] + (
            cost - w);
        assert(d.dom().contains(v) && !c.contains(v) && d[v] <= d[q[0]] + cost);
    }
}

/// Any walk from a discovered node, with `acc` bounding the recorded cost
/// of its first node, passes a discovered, not yet finalized node whose
/// recorded cost is at most `acc` plus the walk cost spent reaching it, and
/// from which the rest of the walk continues.  Finalized stretches are
/// crossed using their proved minimality and the parent-walk witnesses.
pub proof fn lemma_frontier_cut<FN: Fn(usize) -> Vec<(usize, u64)>>(
    f: FN,
    start: usize,
    d: Map<usize, u64>,
    p: Map<usize, usize>,
    c: Set<usize>,
    r: Map<usize, nat>,
    q: Seq<usize>,
    cost: int,
    acc: int,
)
    requires
        record_inv(f, start, d, p, c, r),
        paths_bounded(f, start),
        frontier_edge_bounds(f, d, c),
        forall|q2: Seq<usize>, c2: int|
            (#[trigger] is_path(f, q2, c2) && q2.len() >= 1 && q2[0] == start && c.contains(
                q2[q2.len() - 1],
            )) ==> d[q2[q2.len() - 1]] <= c2,
        p.dom().finite(),
        is_path(f, q, cost),
        q.len() >= 1,
        d.dom().contains(q[0]),
        d[q[0]] <= acc,
        !c.contains(q[q.len() - 1]),
    ensures
        exists|i: int, cs: int|
            #![trigger q.skip(i), is_path(f, q.skip(i), cs)]
            0 <= i < q.len() && !c.contains(q[i]) && d.dom().contains(q[i]) && is_path(
                f,
                q.skip(i),
                cs,
            ) && q.skip(i).len() >= 1 && q.skip(i)[0] == q[i] && q.skip(i)[q.skip(i).len() - 1]
                == q[q.len() - 1] && d[q[i]] <= acc + (cost - cs),
    decreases q.len(),
{
    if !c.contains(q[0]) {
        assert(q.skip(0) =~= q);
        assert(0 <= 0 < q.len() && !c.contains(q[0]) && d.dom().contains(q[0]) && is_path(
            f,
            q.skip(0),
            cost,
        ) && q.skip(0).len() >= 1 && q.skip(0)[0] == q[0] && q.skip(0)[q.skip(0).len() - 1]
            == q[q.len() - 1] && d[q[0]] <= acc + (cost - cost));
    } else {
        lemma_path_first_edge(f, q, cost);
        let w = choose|w: u64| #[trigger] edge(f, q[0], q[1], w) && is_path(
            f,
            q.drop_first(),
            cost - w,
        );
        lemma_walk_valid(f, start, d, p, c, r, p, q[0]);
        let pw = parent_walk(p, q[0]);
        lemma_path_push(f, pw, d[q[0]] as int, q[1], w);
        let pw2 = pw.push(q[1]);
        assert(is_path(f, pw2, d[q[0]] + w));
        assert(pw2[0] == start && pw2.len() >= 1 && pw2[pw2.len() - 1] == q[1]);
        if c.contains(q[1]) {
            assert(d[q[1]] <= d[q[0]] + w);
        } else {
            assert((d.dom().contains(q[1]) && d[q[1]] <= d[q[0]] + w) || d[q[0]] + w
                > u64::MAX) by {
                assert(c.contains(q[0]) && edge(f, q[0], q[1], w));
            }
            assert(d[q[0]] + w <= u64::MAX);
        }
        assert(d.dom().contains(q[1]) && d[q[1]] <= d[q[0]] + w);
        let q2 = q.drop_first();
        assert(q2[q2.len() - 1] == q[q.len() - 1]);
        lemma_frontier_cut(f, start, d, p, c, r, q2, cost - w, acc + w);
        let (i2, cs) = choose|i2: int, cs: int|
            #![trigger q2.skip(i2), is_path(f, q2.skip(i2), cs)]
            0 <= i2 < q2.len() && !c.contains(q2[i2]) && d.dom().contains(q2[i2]) && is_path(
                f,
                q2.skip(i2),
                cs,
            ) && q2.skip(i2).len() >= 1 && q2.skip(i2)[0] == q2[i2] && q2.skip(i2)[q2.skip(
                i2,
            ).len() - 1] == q2[q2.len() - 1] && d[q2[i2]] <= (acc + w) + ((cost - w) - cs);
        assert(q2.skip(i2) =~= q.skip(i2 + 1));
        assert(q[i2 + 1] == q2[i2]);
        assert(0 <= i2 + 1 < q.len() && !c.contains(q[i2 + 1]) && d.dom().contains(q[i2 + 1])
            && is_path(f, q.skip(i2 + 1), cs) && q.skip(i2 + 1).len() >= 1 && q.skip(i2 + 1)[0]
            == q[i2 + 1] && q.skip(i2 + 1)[q.skip(i2 + 1).len() - 1] == q[q.len() - 1] && d[q[i2
            + 1]] <= acc + (cost - cs));
    }
}

/// When every discovered node is finalized, every edge has been tracked and
/// every walk leaving `start` has a representable cost, a walk that starts
/// at a discovered node ends at a discovered node.
pub proof fn lemma_exhausted_covers<FN: Fn(usize) -> Vec<(usize, u64)>>(
    f: FN,
    start: usize,
    d: Map<usize, u64>,
    p: Map<usize, usize>,
    c: Set<usize>,
    r: Map<usize, nat>,
    q: Seq<usize>,
    cost: int,
)
    requires
        record_inv(f, start, d, p, c, r),
        paths_bounded(f, start),
        closed_edges_tracked(f, d, c),
        d.dom().subset_of(c),
        p.dom().finite(),
        is_path(f, q, cost),
        q.len() >= 1,
        d.dom().contains(q[0]),
    ensures
        d.dom().contains(q[q.len() - 1]),
    decreases q.len(),
{
    if q.len() >= 2 {
        let u = q[0];
        lemma_path_first_edge(f, q, cost);
        let w = choose|w: u64| #[trigger] edge(f, u, q[1], w) && is_path(
            f,
            q.drop_first(),
            cost - w,
        );
        assert(c.contains(u));
        if !d.dom().contains(q[1]) {
            assert(d[u] + w > u64::MAX);
            lemma_walk_valid(f, start, d, p, c, r, p, u);
            let pw = parent_walk(p, u);
            lemma_path_push(f, pw, d[u] as int, q[1], w);
            assert(is_path(f, pw.push(q[1]), d[u] + w));
            assert(pw.push(q[1])[0] == start);
            assert(pw.push(q[1]).len() >= 1);
            assert(false);
        }
        lemma_exhausted_covers(f, start, d, p, c, r, q.drop_first(), cost - w);
        assert(q.drop_first()[q.drop_first().len() - 1] == q[q.len() - 1]);
    }
}

/// Finalizes the search at `node`: reads off its recorded cost and rebuilds
/// the start-to-`node` path from the parent map, which is consumed.
pub(crate) fn finish<FN: Fn(usize) -> Vec<(usize, u64)>>(
    f: &FN,
    start: usize,
    dist: &HashMap<usize, u64>,
    parents: HashMap<usize, usize>,
    node: usize,
    closed: Ghost<Set<usize>>,
    rank: Ghost<Map<usize, nat>>,
) -> (r: (Vec<usize>, u64))
    requires
        record_inv(*f, start, dist@, parents@, closed@, rank@),
        dist@.dom().contains(node),
    ensures
        r.0@.len() >= 1,
        r.0@[0] == start,
        r.0@[r.0@.len() - 1] == node,
        is_path(*f, r.0@, r.1 as int),
        r.1 == dist@[node],
{
    let cost = *dist.get(&node).unwrap();
    proof {
        assert(parents@.dom().finite());
        lemma_walk_valid(*f, start, dist@, parents@, closed@, rank@, parents@, node);
    }
    let p = reverse_path(parents, node);
    (p, cost)
}

/// Expands the finalized node `node`: asks the successor function for its
/// neighbours and records every strictly improved, not yet finalized
/// successor with `node` as parent.  Returns the improved successors with
/// their new costs, and the extended ghost rank.  The record stays
/// well-formed, already discovered nodes stay discovered, and finalized
/// nodes keep their recorded costs.
pub(crate) fn expand<FN: Fn(usize) -> Vec<(usize, u64)>>(
    f: &FN,
    start: usize,
    node: usize,
    dist: &mut HashMap<usize, u64>,
    parents: &mut HashMap<usize, usize>,
    closed: &HashMap<usize, ()>,
    rank: Ghost<Map<usize, nat>>,
    ordered: Ghost<bool>,
) -> (r: (Vec<(usize, u64)>, Ghost<Map<usize, nat>>))
    requires
        forall|k: usize| #[trigger] call_requires(*f, (k,)),
        record_inv(*f, start, old(dist)@, old(parents)@, closed@.dom(), rank@),
        closed@.dom().contains(node),
        closed@.dom().subset_of(old(dist)@.dom()),
        old(dist)@.dom().contains(node),
        crate::graph::deterministic_succ(*f) ==> closed_edges_tracked(
            *f,
            old(dist)@,
            closed@.dom().remove(node),
        ),
        ordered@ ==> forall|v: usize| #[trigger]
            closed@.dom().contains(v) ==> old(dist)@[v] <= old(dist)@[node],
        (ordered@ && crate::graph::deterministic_succ(*f)) ==> min_edge_bounds(
            *f,
            old(dist)@,
            closed@.dom().remove(node),
        ),
        crate::graph::deterministic_succ(*f) ==> frontier_edge_bounds(
            *f,
            old(dist)@,
            closed@.dom().remove(node),
        ),
    ensures
        record_inv(*f, start, final(dist)@, final(parents)@, closed@.dom(), r.1@),
        old(dist)@.dom().subset_of(final(dist)@.dom()),
        forall|i: int|
            0 <= i < r.0@.len() ==> final(dist)@.dom().contains(#[trigger] r.0@[i].0),
        forall|k: usize| #[trigger]
            closed@.dom().contains(k) && old(dist)@.dom().contains(k)
                ==> final(dist)@.dom().contains(k) && final(dist)@[k] == old(dist)@[k],
        crate::graph::deterministic_succ(*f) ==> closed_edges_tracked(
            *f,
            final(dist)@,
            closed@.dom(),
        ),
        forall|n: usize| #[trigger]
            final(dist)@.dom().contains(n) ==> old(dist)@.dom().contains(n) || exists|j: int|
                #![trigger r.0@[j]]
                0 <= j < r.0@.len() && r.0@[j].0 == n,
        (ordered@ && crate::graph::deterministic_succ(*f)) ==> min_edge_bounds(
            *f,
            final(dist)@,
            closed@.dom(),
        ),
        crate::graph::deterministic_succ(*f) ==> frontier_edge_bounds(
            *f,
            final(dist)@,
            closed@.dom(),
        ),
        ordered@ ==> forall|v: usize| #[trigger]
            final(dist)@.dom().contains(v) ==> (old(dist)@.dom().contains(v) && final(dist)@[v]
                == old(dist)@[v]) || final(dist)@[v] >= old(dist)@[node],
        forall|v: usize| #[trigger]
            old(dist)@.dom().contains(v) ==> final(dist)@[v] <= old(dist)@[v],
        forall|j: int|
            #![trigger r.0@[j]]
            0 <= j < r.0@.len() ==> final(dist)@.dom().contains(r.0@[j].0)
                && final(dist)@[r.0@[j].0] <= r.0@[j].1,
        forall|n: usize| #[trigger]
            final(dist)@.dom().contains(n) ==> (old(dist)@.dom().contains(n) && final(dist)@[n]
                == old(dist)@[n]) || exists|j: int|
                #![trigger r.0@[j]]
                0 <= j < r.0@.len() && r.0@[j] == (n, final(dist)@[n]),
{
    let succs = f(node);
    let g = *dist.get(&node).unwrap();
    let mut improved: Vec<(usize, u64)> = Vec::new();
    let ghost mut rk: Map<usize, nat> = rank@;
    let mut i: usize = 0;
    while i < succs.len()
        invariant
            forall|k: usize| #[trigger] call_requires(*f, (k,)),
            call_ensures(*f, (node,), succs),
            record_inv(*f, start, dist@, parents@, closed@.dom(), rk),
            closed@.dom().contains(node),
            dist@.dom().contains(node),
            dist@[node] == g,
            rk.dom().contains(node),
            i <= succs@.len(),
            old(dist)@.dom().subset_of(dist@.dom()),
            forall|j: int|
                0 <= j < improved@.len() ==> dist@.dom().contains(#[trigger] improved@[j].0),
            forall|k: usize| #[trigger]
                closed@.dom().contains(k) && old(dist)@.dom().contains(k)
                    ==> dist@.dom().contains(k) && dist@[k] == old(dist)@[k],
            closed@.dom().subset_of(dist@.dom()),
            crate::graph::deterministic_succ(*f) ==> closed_edges_tracked(
                *f,
                dist@,
                closed@.dom().remove(node),
            ),
            forall|j: int|
                0 <= j < i ==> (dist@.dom().contains(#[trigger] succs@[j].0) || g + succs@[j].1
                    > u64::MAX),
            forall|n: usize| #[trigger]
                dist@.dom().contains(n) ==> old(dist)@.dom().contains(n) || exists|j: int|
                    #![trigger improved@[j]]
                    0 <= j < improved@.len() && improved@[j].0 == n,
            ordered@ ==> forall|v: usize| #[trigger]
                closed@.dom().contains(v) ==> dist@[v] <= g,
            (ordered@ && crate::graph::deterministic_succ(*f)) ==> min_edge_bounds(
                *f,
                dist@,
                closed@.dom().remove(node),
            ),
            crate::graph::deterministic_succ(*f) ==> frontier_edge_bounds(
                *f,
                dist@,
                closed@.dom().remove(node),
            ),
            forall|j: int|
                0 <= j < i ==> ((dist@.dom().contains(#[trigger] succs@[j].0) && (!closed@.dom().contains(
                    succs@[j].0,
                ) ==> dist@[succs@[j].0] <= g + succs@[j].1)) || g + succs@[j].1 > u64::MAX),
            ordered@ ==> forall|j: int|
                0 <= j < i ==> ((dist@.dom().contains(#[trigger] succs@[j].0) && dist@[succs@[j].0]
                    <= g + succs@[j].1) || g + succs@[j].1 > u64::MAX),
            ordered@ ==> forall|v: usize| #[trigger]
                dist@.dom().contains(v) ==> (old(dist)@.dom().contains(v) && dist@[v] == old(
                    dist,
                )@[v]) || dist@[v] >= g,
            forall|v: usize| #[trigger]
                old(dist)@.dom().contains(v) ==> dist@[v] <= old(dist)@[v],
            forall|j: int|
                #![trigger improved@[j]]
                0 <= j < improved@.len() ==> dist@.dom().contains(improved@[j].0)
                    && dist@[improved@[j].0] <= improved@[j].1,
            forall|n: usize| #[trigger]
                dist@.dom().contains(n) ==> (old(dist)@.dom().contains(n) && dist@[n] == old(
                    dist,
                )@[n]) || exists|j: int|
                    #![trigger improved@[j]]
                    0 <= j < improved@.len() && improved@[j] == (n, dist@[n]),
        decreases succs@.len() - i,
    {
        let (n2, w) = succs[i];
        i += 1;
        if !closed.contains_key(&n2) {
            if g <= u64::MAX - w {
                let new_g = g + w;
                let better = match dist.get(&n2) {
                    Some(d0) => new_g < *d0,
                    None => true,
                };
                if better {
                    let ghost d_old = dist@;
                    let ghost p_old = parents@;
                    dist.insert(n2, new_g);
                    parents.insert(n2, node);
                    proof {
                        rk = rk.insert(n2, (rk[node] + 1) as nat);
                        assert(n2 != start) by {
                            if n2 == start {
                                assert(d_old[start] == 0);
                            }
                        }
                        assert(edge(*f, node, n2, w)) by {
                            assert(succs@[i - 1] == (n2, w));
                            assert(succs@.contains((n2, w)));
                        }
                        assert forall|n: usize| #[trigger] parents@.dom().contains(n) implies {
                            &&& n != start
                            &&& dist@.dom().contains(n)
                            &&& dist@.dom().contains(parents@[n])
                            &&& closed@.dom().contains(parents@[n])
                            &&& rk.dom().contains(n)
                            &&& rk.dom().contains(parents@[n])
                            &&& rk[parents@[n]] < rk[n]
                            &&& exists|w2: u64| #[trigger]
                                edge(*f, parents@[n], n, w2) && dist@[parents@[n]] + w2 == dist@[n]
                        } by {
                            if n == n2 {
                                assert(edge(*f, parents@[n2], n2, w) && dist@[parents@[n2]] + w
                                    == dist@[n2]);
                            } else {
                                assert(p_old.dom().contains(n));
                                let w0 = choose|w0: u64| #[trigger]
                                    edge(*f, p_old[n], n, w0) && d_old[p_old[n]] + w0 == d_old[n];
                                assert(p_old[n] != n2);
                                assert(edge(*f, parents@[n], n, w0) && dist@[parents@[n]] + w0
                                    == dist@[n]);
                            }
                        }
                        if crate::graph::deterministic_succ(*f) {
                            assert forall|u: usize, v: usize, w2: u64|
                                (closed@.dom().remove(node).contains(u) && #[trigger] edge(
                                    *f,
                                    u,
                                    v,
                                    w2,
                                )) implies (dist@.dom().contains(v) || dist@[u] + w2
                                > u64::MAX) by {
                                assert(d_old.dom().contains(v) || d_old[u] + w2 > u64::MAX);
                                assert(u != n2);
                            }
                            assert forall|u: usize, v: usize, w2: u64|
                                (closed@.dom().remove(node).contains(u) && #[trigger] edge(
                                    *f,
                                    u,
                                    v,
                                    w2,
                                )) implies ((dist@.dom().contains(v) && (!closed@.dom().contains(
                                v,
                            ) ==> dist@[v] <= dist@[u] + w2)) || dist@[u] + w2 > u64::MAX) by {
                                assert((d_old.dom().contains(v) && (!closed@.dom().contains(v)
                                    ==> d_old[v] <= d_old[u] + w2)) || d_old[u] + w2 > u64::MAX);
                                assert(u != n2);
                                if d_old.dom().contains(v) && !closed@.dom().contains(v)
                                    && d_old[v] <= d_old[u] + w2 {
                                    if v == n2 {
                                        assert(dist@[n2] == new_g && new_g < d_old[n2]);
                                    }
                                }
                            }
                            if ordered@ {
                                assert forall|u: usize, v: usize, w2: u64|
                                    (closed@.dom().remove(node).contains(u) && #[trigger] edge(
                                        *f,
                                        u,
                                        v,
                                        w2,
                                    )) implies ((dist@.dom().contains(v) && dist@[v] <= dist@[u]
                                    + w2) || dist@[u] + w2 > u64::MAX) by {
                                    assert((d_old.dom().contains(v) && d_old[v] <= d_old[u] + w2)
                                        || d_old[u] + w2 > u64::MAX);
                                    assert(u != n2);
                                    if d_old.dom().contains(v) && d_old[v] <= d_old[u] + w2 {
                                        if v == n2 {
                                            assert(dist@[n2] == new_g && new_g < d_old[n2]);
                                        }
                                    }
                                }
                            }
                        }
                    }
                    let ghost imp_old = improved@;
                    improved.push((n2, new_g));
                    proof {
                        assert forall|n: usize| #[trigger] dist@.dom().contains(n) implies old(
                            dist,
                        )@.dom().contains(n) || exists|j: int|
                            #![trigger improved@[j]]
                            0 <= j < improved@.len() && improved@[j].0 == n by {
                            if n == n2 {
                                assert(improved@[improved@.len() - 1].0 == n2);
                            } else if !old(dist)@.dom().contains(n) {
                                let j = choose|j: int|
                                    #![trigger imp_old[j]]
                                    0 <= j < imp_old.len() && imp_old[j].0 == n;
                                assert(improved@[j].0 == n);
                            }
                        }
                        assert forall|n: usize| #[trigger] dist@.dom().contains(n) implies (old(
                            dist,
                        )@.dom().contains(n) && dist@[n] == old(dist)@[n]) || exists|j: int|
                            #![trigger improved@[j]]
                            0 <= j < improved@.len() && improved@[j] == (n, dist@[n]) by {
                            if n == n2 {
                                assert(improved@[improved@.len() - 1] == (n2, new_g));
                            } else if !(old(dist)@.dom().contains(n) && dist@[n] == old(
                                dist,
                            )@[n]) {
                                let j = choose|j: int|
                                    #![trigger imp_old[j]]
                                    0 <= j < imp_old.len() && imp_old[j] == (n, d_old[n]);
                                assert(improved@[j] == (n, dist@[n]));
                            }
                        }
                    }
                }
            }
        }
    }
    proof {
        if crate::graph::deterministic_succ(*f) {
            assert forall|u: usize, v: usize, w: u64|
                (closed@.dom().contains(u) && #[trigger] edge(*f, u, v, w)) implies (
            dist@.dom().contains(v) || dist@[u] + w > u64::MAX) by {
                if u == node {
                    let r0 = choose|r0: Vec<(usize, u64)>| #[trigger] call_ensures(*f, (node,), r0)
                        && r0@.contains((v, w));
                    assert(r0@ == succs@);
                    assert(succs@.contains((v, w)));
                    let j = choose|j: int| 0 <= j < succs@.len() && succs@[j] == (v, w);
                    assert(dist@.dom().contains(succs@[j].0) || g + succs@[j].1 > u64::MAX);
                } else {
                    assert(closed@.dom().remove(node).contains(u));
                }
            }
            assert forall|u: usize, v: usize, w: u64|
                (closed@.dom().contains(u) && #[trigger] edge(*f, u, v, w)) implies ((
            dist@.dom().contains(v) && (!closed@.dom().contains(v) ==> dist@[v] <= dist@[u] + w))
                || dist@[u] + w > u64::MAX) by {
                if u == node {
                    let r0 = choose|r0: Vec<(usize, u64)>| #[trigger] call_ensures(*f, (node,), r0)
                        && r0@.contains((v, w));
                    assert(r0@ == succs@);
                    assert(succs@.contains((v, w)));
                    let j = choose|j: int| 0 <= j < succs@.len() && succs@[j] == (v, w);
                    assert((dist@.dom().contains(succs@[j].0) && (!closed@.dom().contains(
                        succs@[j].0,
                    ) ==> dist@[succs@[j].0] <= g + succs@[j].1)) || g + succs@[j].1 > u64::MAX);
                } else {
                    assert(closed@.dom().remove(node).contains(u));
                }
            }
            if ordered@ {
                assert forall|u: usize, v: usize, w: u64|
                    (closed@.dom().contains(u) && #[trigger] edge(*f, u, v, w)) implies ((
                dist@.dom().contains(v) && dist@[v] <= dist@[u] + w) || dist@[u] + w
                    > u64::MAX) by {
                    if u == node {
                        let r0 = choose|r0: Vec<(usize, u64)>| #[trigger] call_ensures(
                            *f,
                            (node,),
                            r0,
                        ) && r0@.contains((v, w));
                        assert(r0@ == succs@);
                        assert(succs@.contains((v, w)));
                        let j = choose|j: int| 0 <= j < succs@.len() && succs@[j] == (v, w);
                        assert((dist@.dom().contains(succs@[j].0) && dist@[succs@[j].0] <= g
                            + succs@[j].1) || g + succs@[j].1 > u64::MAX);
                    } else {
                        assert(closed@.dom().remove(node).contains(u));
                    }
                }
            }
        }
    }
    let result = (improved, Ghost(rk));
    proof {
        assert forall|n: usize| #[trigger] dist@.dom().contains(n) implies old(
            dist,
        )@.dom().contains(n) || exists|j: int|
            #![trigger result.0@[j]]
            0 <= j < result.0@.len() && result.0@[j].0 == n by {
            if !old(dist)@.dom().contains(n) {
                let j = choose|j: int|
                    #![trigger improved@[j]]
                    0 <= j < improved@.len() && improved@[j].0 == n;
                assert(result.0@[j].0 == n);
            }
        }
        assert forall|j: int| #![trigger result.0@[j]] 0 <= j < result.0@.len() implies
            dist@.dom().contains(result.0@[j].0) && dist@[result.0@[j].0] <= result.0@[j].1 by {
            assert(result.0@[j] == improved@[j]);
        }
        assert forall|n: usize| #[trigger] dist@.dom().contains(n) implies (old(
            dist,
        )@.dom().contains(n) && dist@[n] == old(dist)@[n]) || exists|j: int|
            #![trigger result.0@[j]]
            0 <= j < result.0@.len() && result.0@[j] == (n, dist@[n]) by {
            if !(old(dist)@.dom().contains(n) && dist@[n] == old(dist)@[n]) {
                let j = choose|j: int|
                    #![trigger improved@[j]]
                    0 <= j < improved@.len() && improved@[j] == (n, dist@[n]);
                assert(result.0@[j] == (n, dist@[n]));
            }
        }
    }
    result
}

} // verus!
