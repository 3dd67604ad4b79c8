use pathfinding::astar;
use pathfinding::dijkstra;
use pathfinding::fringe;
use pathfinding::idastar;

/// 3x3 grid, node (r, c) encoded as r * 3 + c, 4-neighbour moves, cost 1.
fn grid_succ(n: usize) -> Vec<(usize, u64)> {
    let r = n / 3;
    let c = n % 3;
    let mut v = Vec::new();
    if r > 0 {
        v.push((n - 3, 1));
    }
    if r < 2 {
        v.push((n + 3, 1));
    }
    if c > 0 {
        v.push((n - 1, 1));
    }
    if c < 2 {
        v.push((n + 1, 1));
    }
    v
}

/// Manhattan distance to the grid corner (2, 2): admissible and consistent.
fn manhattan(n: usize) -> u64 {
    let r = n / 3;
    let c = n % 3;
    ((2 - r) + (2 - c)) as u64
}

/// Weighted triangle: 0 -> 1 costs 5, 0 -> 2 costs 1, 2 -> 1 costs 1.
fn triangle_succ(n: usize) -> Vec<(usize, u64)> {
    match n {
        0 => vec![(1, 5), (2, 1)],
        2 => vec![(1, 1)],
        _ => Vec::new(),
    }
}

/// Checks that a returned pair is a genuine walk of `succ` from `start` to
/// `goal` whose edge costs sum to the reported total.
fn check_path(path: &[usize], cost: u64, succ: impl Fn(usize) -> Vec<(usize, u64)>, start: usize, goal: usize) {
    assert!(path.len() >= 1);
    assert_eq!(path[0], start);
    assert_eq!(*path.last().unwrap(), goal);
    let mut total: u64 = 0;
    for i in 0..path.len() - 1 {
        let edges = succ(path[i]);
        let w = edges
            .iter()
            .find(|e| e.0 == path[i + 1])
            .expect("consecutive pair missing from the successor relation")
            .1;
        total += w;
    }
    assert_eq!(total, cost);
}

/// Least cost over all simple paths, by exhaustive enumeration.
fn brute_force_min(succ: &dyn Fn(usize) -> Vec<(usize, u64)>, on_path: &mut Vec<usize>, cost: u64, goal: usize) -> Option<u64> {
    let node = *on_path.last().unwrap();
    if node == goal {
        return Some(cost);
    }
    let mut best: Option<u64> = None;
    for (n2, w) in succ(node) {
        if !on_path.contains(&n2) {
            on_path.push(n2);
            if let Some(c) = brute_force_min(succ, on_path, cost + w, goal) {
                best = Some(match best {
                    Some(b) => b.min(c),
                    None => c,
                });
            }
            on_path.pop();
        }
    }
    best
}

#[test]
fn grid_dijkstra_cost() {
    let (path, cost) = dijkstra(0, &grid_succ, &|n: usize| n == 8).expect("goal is reachable");
    assert_eq!(cost, 4);
    assert_eq!(path.len(), 5);
    check_path(&path, cost, grid_succ, 0, 8);
}

#[test]
fn grid_astar_cost() {
    let (path, cost) = astar(0, &grid_succ, &manhattan, &|n: usize| n == 8).expect("goal is reachable");
    assert_eq!(cost, 4);
    assert_eq!(path.len(), 5);
    check_path(&path, cost, grid_succ, 0, 8);
}

#[test]
fn grid_fringe_cost() {
    let (path, cost) = fringe(0, &grid_succ, &manhattan, &|n: usize| n == 8).expect("goal is reachable");
    assert_eq!(cost, 4);
    assert_eq!(path.len(), 5);
    check_path(&path, cost, grid_succ, 0, 8);
}

#[test]
fn grid_idastar_cost() {
    let (path, cost) = idastar(0, &grid_succ, &manhattan, &|n: usize| n == 8).expect("goal is reachable");
    assert_eq!(cost, 4);
    assert_eq!(path.len(), 5);
    check_path(&path, cost, grid_succ, 0, 8);
}

#[test]
fn family_agrees_on_grid() {
    let d = dijkstra(0, &grid_succ, &|n: usize| n == 8).unwrap().1;
    let a = astar(0, &grid_succ, &manhattan, &|n: usize| n == 8).unwrap().1;
    let f = fringe(0, &grid_succ, &manhattan, &|n: usize| n == 8).unwrap().1;
    let i = idastar(0, &grid_succ, &manhattan, &|n: usize| n == 8).unwrap().1;
    assert_eq!(d, a);
    assert_eq!(d, f);
    assert_eq!(d, i);
}

#[test]
fn family_agrees_on_triangle() {
    let zero = |_n: usize| 0u64;
    let d = dijkstra(0, &triangle_succ, &|n: usize| n == 1).unwrap().1;
    let a = astar(0, &triangle_succ, &zero, &|n: usize| n == 1).unwrap().1;
    let f = fringe(0, &triangle_succ, &zero, &|n: usize| n == 1).unwrap().1;
    let i = idastar(0, &triangle_succ, &zero, &|n: usize| n == 1).unwrap().1;
    assert_eq!(d, 2);
    assert_eq!(a, 2);
    assert_eq!(f, 2);
    assert_eq!(i, 2);
}

#[test]
fn triangle_prefers_indirect() {
    let (path, cost) = dijkstra(0, &triangle_succ, &|n: usize| n == 1).unwrap();
    assert_eq!(cost, 2);
    assert_eq!(path, vec![0, 2, 1]);
    let (path, cost) = astar(0, &triangle_succ, &|_n: usize| 0u64, &|n: usize| n == 1).unwrap();
    assert_eq!(cost, 2);
    assert_eq!(path, vec![0, 2, 1]);
}

#[test]
fn unreachable_two_nodes() {
    let succ = |_n: usize| Vec::<(usize, u64)>::new();
    let zero = |_n: usize| 0u64;
    assert!(dijkstra(0, &succ, &|n: usize| n == 1).is_none());
    assert!(astar(0, &succ, &zero, &|n: usize| n == 1).is_none());
    assert!(fringe(0, &succ, &zero, &|n: usize| n == 1).is_none());
    assert!(idastar(0, &succ, &zero, &|n: usize| n == 1).is_none());
}

#[test]
fn unreachable_beyond_chain() {
    // 0 -> 1, and nothing reaches 2.
    let succ = |n: usize| if n == 0 { vec![(1usize, 1u64)] } else { Vec::new() };
    let zero = |_n: usize| 0u64;
    assert!(dijkstra(0, &succ, &|n: usize| n == 2).is_none());
    assert!(astar(0, &succ, &zero, &|n: usize| n == 2).is_none());
    assert!(fringe(0, &succ, &zero, &|n: usize| n == 2).is_none());
    assert!(idastar(0, &succ, &zero, &|n: usize| n == 2).is_none());
}

#[test]
fn repeated_calls_identical() {
    let goal = |n: usize| n == 8;
    assert_eq!(dijkstra(0, &grid_succ, &goal), dijkstra(0, &grid_succ, &goal));
    assert_eq!(
        astar(0, &grid_succ, &manhattan, &goal),
        astar(0, &grid_succ, &manhattan, &goal)
    );
    assert_eq!(
        fringe(0, &grid_succ, &manhattan, &goal),
        fringe(0, &grid_succ, &manhattan, &goal)
    );
    assert_eq!(
        idastar(0, &grid_succ, &manhattan, &goal),
        idastar(0, &grid_succ, &manhattan, &goal)
    );
}

#[test]
fn dijkstra_matches_brute_force() {
    // Diamond with a cheap and an expensive side, plus a shortcut.
    let succ = |n: usize| -> Vec<(usize, u64)> {
        match n {
            0 => vec![(1, 2), (2, 1)],
            1 => vec![(3, 1)],
            2 => vec![(3, 3), (1, 1)],
            _ => Vec::new(),
        }
    };
    let mut on_path = vec![0usize];
    let expected = brute_force_min(&succ, &mut on_path, 0, 3);
    let got = dijkstra(0, &succ, &|n: usize| n == 3).map(|r| r.1);
    assert_eq!(expected, Some(3));
    assert_eq!(got, expected);
}

#[test]
fn start_is_goal() {
    let zero = |_n: usize| 0u64;
    let result = Some((vec![4usize], 0u64));
    assert_eq!(dijkstra(4, &grid_succ, &|n: usize| n == 4), result);
    assert_eq!(astar(4, &grid_succ, &zero, &|n: usize| n == 4), result);
    assert_eq!(fringe(4, &grid_succ, &zero, &|n: usize| n == 4), result);
    assert_eq!(idastar(4, &grid_succ, &zero, &|n: usize| n == 4), result);
}

#[test]
fn zero_cost_cycle_is_handled() {
    // 0 and 1 form a zero-cost cycle; the goal 2 is cheaper through it.
    let succ = |n: usize| -> Vec<(usize, u64)> {
        match n {
            0 => vec![(1, 0), (2, 5)],
            1 => vec![(0, 0), (2, 3)],
            _ => Vec::new(),
        }
    };
    let zero = |_n: usize| 0u64;
    let goal = |n: usize| n == 2;
    let d = dijkstra(0, &succ, &goal).unwrap();
    let a = astar(0, &succ, &zero, &goal).unwrap();
    let f = fringe(0, &succ, &zero, &goal).unwrap();
    let i = idastar(0, &succ, &zero, &goal).unwrap();
    assert_eq!(d.1, 3);
    assert_eq!(a.1, 3);
    assert_eq!(f.1, 3);
    assert_eq!(i.1, 3);
    check_path(&d.0, d.1, succ, 0, 2);
    check_path(&i.0, i.1, succ, 0, 2);
}

#[test]
fn equal_cost_ties_still_valid() {
    // Two distinct optimal routes from 0 to 3, both of cost 2.
    let succ = |n: usize| -> Vec<(usize, u64)> {
        match n {
            0 => vec![(1, 1), (2, 1)],
            1 => vec![(3, 1)],
            2 => vec![(3, 1)],
            _ => Vec::new(),
        }
    };
    let zero = |_n: usize| 0u64;
    let goal = |n: usize| n == 3;
    for result in [
        dijkstra(0, &succ, &goal),
        astar(0, &succ, &zero, &goal),
        fringe(0, &succ, &zero, &goal),
        idastar(0, &succ, &zero, &goal),
    ] {
        let (path, cost) = result.unwrap();
        assert_eq!(cost, 2);
        assert_eq!(path.len(), 3);
        check_path(&path, cost, succ, 0, 3);
    }
}

#[test]
fn family_matches_brute_force() {
    // Diamond with a cheap side, an expensive side and a shortcut: the
    // optimum (3) requires combining the shortcut with the cheap side.
    let succ = |n: usize| -> Vec<(usize, u64)> {
        match n {
            0 => vec![(1, 2), (2, 1)],
            1 => vec![(3, 1)],
            2 => vec![(3, 3), (1, 1)],
            _ => Vec::new(),
        }
    };
    let zero = |_n: usize| 0u64;
    let goal = |n: usize| n == 3;
    let mut on_path = vec![0usize];
    let expected = brute_force_min(&succ, &mut on_path, 0, 3);
    assert_eq!(expected, Some(3));
    assert_eq!(dijkstra(0, &succ, &goal).map(|r| r.1), expected);
    assert_eq!(astar(0, &succ, &zero, &goal).map(|r| r.1), expected);
    assert_eq!(fringe(0, &succ, &zero, &goal).map(|r| r.1), expected);
    assert_eq!(idastar(0, &succ, &zero, &goal).map(|r| r.1), expected);
}
