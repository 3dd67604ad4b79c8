//! The mathematical model of an implicit graph: what the successor relation
//! admits as an edge, what the goal predicate may accept, and what it means
//! for a node sequence to be a walk of a given total cost.

use vstd::prelude::*;

verus! {

/// `b` is a neighbour of `a` at edge cost `w`: some call of the successor
/// function on `a` may return a list containing the pair `(b, w)`.
pub open spec fn edge<FN: Fn(usize) -> Vec<(usize, u64)>>(
    f: FN,
    a: usize,
    b: usize,
    w: u64,
) -> bool {
    exists|r: Vec<(usize, u64)>| #[trigger] call_ensures(f, (a,), r) && r@.contains((b, w))
}

/// The goal predicate may answer `true` on `n`.
pub open spec fn accepts<FS: Fn(usize) -> bool>(g: FS, n: usize) -> bool {
    call_ensures(g, (n,), true)
}

/// `p` is a walk through the successor relation of `f` whose edge costs sum
/// to `c`: consecutive pairs of `p` are edges, and `c` is the literal sum of
/// their costs.  A one-node walk has cost zero; the empty sequence is no walk.
pub open spec fn is_path<FN: Fn(usize) -> Vec<(usize, u64)>>(f: FN, p: Seq<usize>, c: int) -> bool
    decreases p.len(),
{
    if p.len() == 0 {
        false
    } else if p.len() == 1 {
        c == 0
    } else {
        exists|w: u64| #[trigger] edge(f, p[0], p[1], w) && is_path(f, p.drop_first(), c - w)
    }
}

/// The uniform return contract of all four search entry points: a present
/// result carries a walk from the start node to a node the goal predicate
/// accepts, together with the exact sum of its edge costs.
pub open spec fn search_post<FN: Fn(usize) -> Vec<(usize, u64)>, FS: Fn(usize) -> bool>(
    f: FN,
    g: FS,
    start: usize,
    res: Option<(Vec<usize>, u64)>,
) -> bool {
    match res {
        Some(pc) => {
            &&& pc.0@.len() >= 1
            &&& pc.0@[0] == start
            &&& accepts(g, pc.0@[pc.0@.len() - 1])
            &&& is_path(f, pc.0@, pc.1 as int)
        },
        None => true,
    }
}

/// The successor function is a pure function of its input node: any two
/// results it may return for the same node are equal.
pub open spec fn deterministic_succ<FN: Fn(usize) -> Vec<(usize, u64)>>(f: FN) -> bool {
    forall|n: usize, r1: Vec<(usize, u64)>, r2: Vec<(usize, u64)>|
        #![trigger call_ensures(f, (n,), r1), call_ensures(f, (n,), r2)]
        call_ensures(f, (n,), r1) && call_ensures(f, (n,), r2) ==> r1@ == r2@
}

/// The goal predicate is a pure function of its input node: any two answers
/// it may return for the same node are equal.
pub open spec fn deterministic_goal<FS: Fn(usize) -> bool>(g: FS) -> bool {
    forall|n: usize, b1: bool, b2: bool|
        #![trigger call_ensures(g, (n,), b1), call_ensures(g, (n,), b2)]
        call_ensures(g, (n,), b1) && call_ensures(g, (n,), b2) ==> b1 == b2
}

/// Every walk leaving `start` has a representable total cost.
pub open spec fn paths_bounded<FN: Fn(usize) -> Vec<(usize, u64)>>(f: FN, start: usize) -> bool {
    forall|p: Seq<usize>, c: int|
        (#[trigger] is_path(f, p, c) && p.len() >= 1 && p[0] == start) ==> c <= u64::MAX
}

/// Every walk leaving `start` ends at a node the goal predicate may answer
/// `false` on; for a goal predicate that is a pure function of its node this
/// says that no goal is reachable from `start`.
pub open spec fn all_rejected<FN: Fn(usize) -> Vec<(usize, u64)>, FS: Fn(usize) -> bool>(
    f: FN,
    g: FS,
    start: usize,
) -> bool {
    forall|p: Seq<usize>, c: int|
        (#[trigger] is_path(f, p, c) && p.len() >= 1 && p[0] == start) ==> call_ensures(
            g,
            (p[p.len() - 1],),
            false,
        )
}

/// The heuristic is a pure function of its input node: any two estimates it
/// may return for the same node are equal.
pub open spec fn deterministic_heuristic<FH: Fn(usize) -> u64>(h: FH) -> bool {
    forall|n: usize, h1: u64, h2: u64|
        #![trigger call_ensures(h, (n,), h1), call_ensures(h, (n,), h2)]
        call_ensures(h, (n,), h1) && call_ensures(h, (n,), h2) ==> h1 == h2
}

/// The estimate the heuristic gives for `n`; for a deterministic heuristic
/// this is its one possible answer on `n`.
pub open spec fn hval<FH: Fn(usize) -> u64>(h: FH, n: usize) -> u64 {
    choose|hv: u64| call_ensures(h, (n,), hv)
}

/// The heuristic never overestimates: its estimate at a node is at most the
/// cost of any walk from that node to an accepted node.
pub open spec fn admissible_heuristic<
    FN: Fn(usize) -> Vec<(usize, u64)>,
    FH: Fn(usize) -> u64,
    FS: Fn(usize) -> bool,
>(f: FN, h: FH, g: FS) -> bool {
    forall|hv: u64, q: Seq<usize>, c: int|
        #![trigger is_path(f, q, c), call_ensures(h, (q[0],), hv)]
        (call_ensures(h, (q[0],), hv) && is_path(f, q, c) && q.len() >= 1 && accepts(
            g,
            q[q.len() - 1],
        )) ==> hv <= c
}

/// The heuristic respects the triangle inequality along every walk: its
/// estimate at a walk's first node is at most its estimate at the walk's
/// last node plus the walk's cost.  For a heuristic defined at every node
/// this follows from the usual edge-wise statement by telescoping.
pub open spec fn consistent_heuristic<FN: Fn(usize) -> Vec<(usize, u64)>, FH: Fn(usize) -> u64>(
    f: FN,
    h: FH,
) -> bool {
    forall|q: Seq<usize>, c: int, hu: u64, hv: u64|
        #![trigger is_path(f, q, c), call_ensures(h, (q[0],), hu), call_ensures(h, (q[q.len() - 1],), hv)]
        (is_path(f, q, c) && q.len() >= 1 && call_ensures(h, (q[0],), hu) && call_ensures(
            h,
            (q[q.len() - 1],),
            hv,
        )) ==> hu <= hv + c
}

/// Estimates and walk costs leave room for each other, for the witness `b`:
/// `b` caps every estimate while every walk cost from `start` stays below
/// `u64::MAX` minus `b`, so a cost-so-far plus an estimate never overflows.
pub open spec fn estimates_within<FN: Fn(usize) -> Vec<(usize, u64)>, FH: Fn(usize) -> u64>(
    f: FN,
    h: FH,
    start: usize,
    b: u64,
) -> bool {
    (forall|n: usize, hv: u64| #[trigger] call_ensures(h, (n,), hv) ==> hv <= b) && (forall|
        q: Seq<usize>,
        c: int,
    |
        (#[trigger] is_path(f, q, c) && q.len() >= 1 && q[0] == start) ==> c + b <= u64::MAX)
}

/// Some bound witnesses `estimates_within`.
pub open spec fn estimates_fit<FN: Fn(usize) -> Vec<(usize, u64)>, FH: Fn(usize) -> u64>(
    f: FN,
    h: FH,
    start: usize,
) -> bool {
    exists|b: u64| #[trigger] estimates_within(f, h, start, b)
}

/// A walk splits at any of its nodes into a prefix walk and a suffix walk
/// whose costs sum to its cost.
pub proof fn lemma_path_split<FN: Fn(usize) -> Vec<(usize, u64)>>(
    f: FN,
    q: Seq<usize>,
    c: int,
    i: int,
)
    requires
        is_path(f, q, c),
        0 <= i < q.len(),
    ensures
        exists|c1: int, c2: int|
            c1 + c2 == c && #[trigger] is_path(f, q.take(i + 1), c1) && #[trigger] is_path(
                f,
                q.skip(i),
                c2,
            ),
    decreases i,
{
    if i == 0 {
        assert(q.take(1) =~= seq![q[0]]);
        assert(q.skip(0) =~= q);
        assert(is_path(f, q.take(1), 0) && is_path(f, q.skip(0), c));
    } else {
        let w = choose|w: u64| #[trigger] edge(f, q[0], q[1], w) && is_path(
            f,
            q.drop_first(),
            c - w,
        );
        lemma_path_split(f, q.drop_first(), c - w, i - 1);
        let (c1, c2) = choose|c1: int, c2: int|
            c1 + c2 == c - w && #[trigger] is_path(f, q.drop_first().take(i), c1) && #[trigger]
            is_path(f, q.drop_first().skip(i - 1), c2);
        assert(q.drop_first().skip(i - 1) =~= q.skip(i));
        let p1 = q.take(i + 1);
        assert(p1.drop_first() =~= q.drop_first().take(i));
        assert(p1[0] == q[0] && p1[1] == q[1] && p1.len() == i + 1);
        assert(edge(f, p1[0], p1[1], w) && is_path(f, p1.drop_first(), (c1 + w) - w));
        assert(is_path(f, p1, c1 + w));
        assert((c1 + w) + c2 == c);
    }
}

/// Every walk shortens to a walk without repeated nodes between the same
/// two endpoints at no greater cost: cutting a cycle only drops
/// non-negative edge costs.
pub proof fn lemma_simple_walk<FN: Fn(usize) -> Vec<(usize, u64)>>(f: FN, q: Seq<usize>, c: int)
    requires
        is_path(f, q, c),
        q.len() >= 1,
    ensures
        exists|q2: Seq<usize>, c2: int|
            #![trigger is_path(f, q2, c2)]
            is_path(f, q2, c2) && c2 <= c && q2.len() >= 1 && q2[0] == q[0] && q2[q2.len() - 1]
                == q[q.len() - 1] && q2.no_duplicates(),
    decreases q.len(),
{
    if q.no_duplicates() {
        assert(is_path(f, q, c) && c <= c && q.len() >= 1 && q[0] == q[0] && q[q.len() - 1]
            == q[q.len() - 1] && q.no_duplicates());
    } else {
        let (i0, j0) = choose|i0: int, j0: int|
            0 <= i0 < q.len() && 0 <= j0 < q.len() && i0 != j0 && q[i0] == q[j0];
        let i = if i0 < j0 {
            i0
        } else {
            j0
        };
        let j = if i0 < j0 {
            j0
        } else {
            i0
        };
        lemma_path_split(f, q, c, i);
        let (c1, crest) = choose|c1: int, crest: int|
            c1 + crest == c && #[trigger] is_path(f, q.take(i + 1), c1) && #[trigger] is_path(
                f,
                q.skip(i),
                crest,
            );
        lemma_path_split(f, q.skip(i), crest, j - i);
        let (cmid, ctail) = choose|cmid: int, ctail: int|
            cmid + ctail == crest && #[trigger] is_path(f, q.skip(i).take(j - i + 1), cmid)
                && #[trigger] is_path(f, q.skip(i).skip(j - i), ctail);
        lemma_path_nonneg(f, q.skip(i).take(j - i + 1), cmid);
        assert(q.skip(i).skip(j - i) =~= q.skip(j));
        assert(q.take(i + 1)[q.take(i + 1).len() - 1] == q[i]);
        assert(q.skip(j)[0] == q[j]);
        lemma_path_append(f, q.take(i + 1), c1, q.skip(j), ctail);
        let qj = q.take(i + 1) + q.skip(j).drop_first();
        assert(qj[0] == q[0]);
        assert(qj[qj.len() - 1] == q[q.len() - 1]) by {
            if j == q.len() - 1 {
                assert(qj.len() == i + 1);
                assert(qj[i] == q[i]);
            } else {
                assert(qj[qj.len() - 1] == q.skip(j).drop_first()[q.len() - j - 2]);
            }
        }
        assert(qj.len() < q.len());
        lemma_simple_walk(f, qj, c1 + ctail);
        let (q2, c2) = choose|q2: Seq<usize>, c2: int|
            #![trigger is_path(f, q2, c2)]
            is_path(f, q2, c2) && c2 <= c1 + ctail && q2.len() >= 1 && q2[0] == qj[0] && q2[q2.len()
                - 1] == qj[qj.len() - 1] && q2.no_duplicates();
        assert(is_path(f, q2, c2) && c2 <= c && q2.len() >= 1 && q2[0] == q[0] && q2[q2.len() - 1]
            == q[q.len() - 1] && q2.no_duplicates());
    }
}

/// A walk that starts inside a set closed under the successor relation's
/// edges ends inside it.
pub proof fn lemma_closed_set_covers<FN: Fn(usize) -> Vec<(usize, u64)>>(
    f: FN,
    s: Set<usize>,
    q: Seq<usize>,
    c: int,
)
    requires
        forall|u: usize, v: usize, w: u64|
            (s.contains(u) && #[trigger] edge(f, u, v, w)) ==> s.contains(v),
        is_path(f, q, c),
        q.len() >= 1,
        s.contains(q[0]),
    ensures
        s.contains(q[q.len() - 1]),
    decreases q.len(),
{
    if q.len() >= 2 {
        let w = choose|w: u64| #[trigger] edge(f, q[0], q[1], w) && is_path(
            f,
            q.drop_first(),
            c - w,
        );
        lemma_closed_set_covers(f, s, q.drop_first(), c - w);
        assert(q.drop_first()[q.drop_first().len() - 1] == q[q.len() - 1]);
    }
}

/// A present result is minimal: no walk from `start` to an accepted node
/// costs less than the reported total.
pub open spec fn min_cost_post<FN: Fn(usize) -> Vec<(usize, u64)>, FS: Fn(usize) -> bool>(
    f: FN,
    g: FS,
    start: usize,
    res: Option<(Vec<usize>, u64)>,
) -> bool {
    match res {
        Some(pc) => forall|q: Seq<usize>, c: int|
            (#[trigger] is_path(f, q, c) && q.len() >= 1 && q[0] == start && accepts(
                g,
                q[q.len() - 1],
            )) ==> pc.1 <= c,
        None => true,
    }
}

/// Two present results that each carry a valid start-to-goal walk and are
/// each minimal report the same total cost, whatever walks they carry: all
/// searches that meet both halves of the contract agree on the optimal cost.
pub proof fn lemma_optimal_costs_agree<FN: Fn(usize) -> Vec<(usize, u64)>, FS: Fn(usize) -> bool>(
    f: FN,
    g: FS,
    start: usize,
    pc1: (Vec<usize>, u64),
    pc2: (Vec<usize>, u64),
)
    requires
        search_post(f, g, start, Some(pc1)),
        min_cost_post(f, g, start, Some(pc1)),
        search_post(f, g, start, Some(pc2)),
        min_cost_post(f, g, start, Some(pc2)),
    ensures
        pc1.1 == pc2.1,
{
    assert(is_path(f, pc1.0@, pc1.1 as int));
    assert(is_path(f, pc2.0@, pc2.1 as int));
}

/// A walk's cost is never negative.
pub proof fn lemma_path_nonneg<FN: Fn(usize) -> Vec<(usize, u64)>>(f: FN, p: Seq<usize>, c: int)
    requires
        is_path(f, p, c),
    ensures
        c >= 0,
    decreases p.len(),
{
    if p.len() >= 2 {
        let w = choose|w: u64| #[trigger] edge(f, p[0], p[1], w) && is_path(
            f,
            p.drop_first(),
            c - w,
        );
        lemma_path_nonneg(f, p.drop_first(), c - w);
    }
}

/// Two walks that meet end to start concatenate to a walk whose cost is the
/// sum of theirs.
pub proof fn lemma_path_append<FN: Fn(usize) -> Vec<(usize, u64)>>(
    f: FN,
    a: Seq<usize>,
    ca: int,
    b: Seq<usize>,
    cb: int,
)
    requires
        is_path(f, a, ca),
        is_path(f, b, cb),
        a[a.len() - 1] == b[0],
    ensures
        is_path(f, a + b.drop_first(), ca + cb),
    decreases a.len(),
{
    if a.len() == 1 {
        assert(a + b.drop_first() =~= b);
    } else {
        let w = choose|w: u64| #[trigger] edge(f, a[0], a[1], w) && is_path(
            f,
            a.drop_first(),
            ca - w,
        );
        assert(a.drop_first()[a.drop_first().len() - 1] == a[a.len() - 1]);
        lemma_path_append(f, a.drop_first(), ca - w, b, cb);
        let q = a + b.drop_first();
        assert(q.drop_first() =~= a.drop_first() + b.drop_first());
        assert(q[0] == a[0] && q[1] == a[1]);
        assert(edge(f, q[0], q[1], w) && is_path(f, q.drop_first(), (ca + cb) - w));
    }
}

/// A walk of two or more nodes starts with an edge, and the rest is a walk.
pub proof fn lemma_path_first_edge<FN: Fn(usize) -> Vec<(usize, u64)>>(
    f: FN,
    p: Seq<usize>,
    c: int,
)
    requires
        is_path(f, p, c),
        p.len() >= 2,
    ensures
        exists|w: u64| #[trigger] edge(f, p[0], p[1], w) && is_path(f, p.drop_first(), c - w),
{
}

/// Extending a walk by one edge at its end extends its cost by that edge's
/// cost.
pub proof fn lemma_path_push<FN: Fn(usize) -> Vec<(usize, u64)>>(
    f: FN,
    p: Seq<usize>,
    c: int,
    b: usize,
    w: u64,
)
    requires
        is_path(f, p, c),
        edge(f, p[p.len() - 1], b, w),
    ensures
        is_path(f, p.push(b), c + w),
    decreases p.len(),
{
    let q = p.push(b);
    if p.len() == 1 {
        assert(q.drop_first() =~= seq![b]);
        assert(is_path(f, q.drop_first(), (c + w) - w));
        assert(edge(f, q[0], q[1], w));
    } else {
        let w0 = choose|w0: u64| #[trigger] edge(f, p[0], p[1], w0) && is_path(
            f,
            p.drop_first(),
            c - w0,
        );
        assert(p.drop_first()[p.drop_first().len() - 1] == p[p.len() - 1]);
        lemma_path_push(f, p.drop_first(), c - w0, b, w);
        assert(p.drop_first().push(b) =~= q.drop_first());
        assert(is_path(f, q.drop_first(), (c + w) - w0));
        assert(edge(f, q[0], q[1], w0));
    }
}

/// Unreachability: any result that meets the uniform return contract is
/// absent whenever no walk leads from the start node to an accepted node.
pub proof fn lemma_unreachable_absent<FN: Fn(usize) -> Vec<(usize, u64)>, FS: Fn(usize) -> bool>(
    f: FN,
    g: FS,
    start: usize,
    res: Option<(Vec<usize>, u64)>,
)
    requires
        search_post(f, g, start, res),
        forall|p: Seq<usize>, c: int|
            !(#[trigger] is_path(f, p, c) && p.len() >= 1 && p[0] == start && accepts(
                g,
                p[p.len() - 1],
            )),
    ensures
        res is None,
{
    match res {
        Some(pc) => {
            assert(!(is_path(f, pc.0@, pc.1 as int) && pc.0@.len() >= 1 && pc.0@[0] == start
                && accepts(g, pc.0@[pc.0@.len() - 1])));
            assert(false);
        },
        None => {},
    }
}

} // verus!
