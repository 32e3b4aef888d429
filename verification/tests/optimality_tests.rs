//! Minimality checks by brute force: on small graphs, the engine's cost
//! must equal the minimum over every simple path found by exhaustive
//! enumeration.

use pathsearch::cost::{CostModel, SCALE};
use pathsearch::engine::search;
use pathsearch::heuristic::Heuristic;
use pathsearch::topology::{GraphNode, NodeId, Topology};

/// All simple-path costs from `from` to `goal` by depth-first enumeration
/// over `edges`, base weights summed.
fn enumerate(
    edges: &[(usize, usize, u64)],
    from: usize,
    goal: usize,
    visited: &mut Vec<usize>,
    acc: u64,
    out: &mut Vec<u64>,
) {
    if from == goal {
        out.push(acc);
        return;
    }
    for &(a, b, w) in edges {
        if a == from && !visited.contains(&b) {
            visited.push(b);
            enumerate(edges, b, goal, visited, acc + w, out);
            visited.pop();
        }
    }
}

fn brute_force_min(edges: &[(usize, usize, u64)], start: usize, goal: usize) -> Option<u64> {
    let mut visited = vec![start];
    let mut costs = Vec::new();
    enumerate(edges, start, goal, &mut visited, 0, &mut costs);
    costs.into_iter().min()
}

fn topology_of(n: usize, edges: &[(usize, usize, u64)]) -> Topology {
    let nodes = (0..n)
        .map(|id| GraphNode {
            id,
            edges: edges.iter().filter(|e| e.0 == id).map(|e| (e.1, e.2)).collect(),
        })
        .collect();
    Topology::Explicit { nodes }
}

fn engine_cost(n: usize, edges: &[(usize, usize, u64)], start: usize, goal: usize) -> Option<u64> {
    let topo = topology_of(n, edges);
    let mut model = CostModel::deterministic();
    search(&topo, &mut model, &Heuristic::Zero, NodeId::Vertex { id: start }, NodeId::Vertex {
        id: goal,
    })
    .expect("endpoints exist")
    .map(|out| out.cost)
}

#[test]
fn minimum_cost_matches_brute_force() {
    let cases: Vec<(usize, Vec<(usize, usize, u64)>)> = vec![
        // A diamond with a tempting but costly shortcut.
        (4, vec![(0, 1, 1000), (1, 3, 1000), (0, 2, 500), (2, 3, 5000), (0, 3, 2600)]),
        // A chain against a direct edge of equal cost.
        (4, vec![(0, 1, 1500), (1, 2, 1000), (2, 3, 1200), (0, 2, 2500)]),
        // A cycle that must not trap the search.
        (4, vec![(0, 1, 100), (1, 2, 100), (2, 0, 100), (1, 3, 700), (2, 3, 400)]),
        // Zero-weight edges.
        (3, vec![(0, 1, 0), (1, 2, 0), (0, 2, 300)]),
    ];
    for (n, edges) in cases {
        for goal in 1..n {
            let expect = brute_force_min(&edges, 0, goal).map(|c| c * SCALE);
            assert_eq!(engine_cost(n, &edges, 0, goal), expect);
        }
    }
}

#[test]
fn unreachable_matches_brute_force() {
    let edges = vec![(0, 1, 100), (2, 3, 100)];
    assert_eq!(brute_force_min(&edges, 0, 3), None);
    assert_eq!(engine_cost(4, &edges, 0, 3), None);
}

#[test]
fn same_seed_reproduces_stochastic_search() {
    let edges = vec![(0, 1, 1500), (1, 2, 1000), (2, 3, 1200), (0, 2, 2500)];
    let topo = topology_of(4, &edges);
    for seed in 0..10u64 {
        let mut m1 = CostModel::stochastic(900, 1100, seed);
        let mut m2 = CostModel::stochastic(900, 1100, seed);
        let r1 = search(&topo, &mut m1, &Heuristic::Zero, NodeId::Vertex { id: 0 },
            NodeId::Vertex { id: 3 })
            .expect("endpoints exist")
            .expect("a path exists");
        let r2 = search(&topo, &mut m2, &Heuristic::Zero, NodeId::Vertex { id: 0 },
            NodeId::Vertex { id: 3 })
            .expect("endpoints exist")
            .expect("a path exists");
        assert_eq!(r1.cost, r2.cost);
        assert_eq!(r1.path, r2.path);
    }
}
