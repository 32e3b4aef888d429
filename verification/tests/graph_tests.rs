use pathsearch::cost::{CostModel, SCALE};
use pathsearch::engine::{search, SearchError};
use pathsearch::graph::Graph;
use pathsearch::heuristic::Heuristic;
use pathsearch::topology::{GraphNode, NodeId, Topology};

/// The four-vertex demo graph: weights in milli-units, so 1.5 is 1500.
fn demo_topology() -> Topology {
    Topology::Explicit {
        nodes: vec![
            GraphNode { id: 1, edges: vec![(2, 1500), (3, 2500)] },
            GraphNode { id: 2, edges: vec![(3, 1000)] },
            GraphNode { id: 3, edges: vec![(4, 1200)] },
            GraphNode { id: 4, edges: vec![] },
        ],
    }
}

fn ids(path: &[NodeId]) -> Vec<usize> {
    path.iter()
        .map(|n| match n {
            NodeId::Vertex { id } => *id,
            NodeId::Cell { .. } => panic!("grid node in a graph path"),
        })
        .collect()
}

#[test]
fn graph_scenario_minimum_cost() {
    // 1->2->3->4 sums to 3.7, and so does 1->3->4: the engine must return
    // one of the two minimum-cost routes, at exactly 3.7 (scaled).
    let topo = demo_topology();
    let mut model = CostModel::deterministic();
    let out = search(&topo, &mut model, &Heuristic::Zero, NodeId::Vertex { id: 1 }, NodeId::Vertex {
        id: 4,
    })
    .expect("endpoints exist")
    .expect("a path exists");
    assert_eq!(out.cost, 3700 * SCALE);
    let p = ids(&out.path);
    assert!(p == vec![1, 2, 3, 4] || p == vec![1, 3, 4]);
}

#[test]
fn graph_search_start_equals_goal() {
    let topo = demo_topology();
    let mut model = CostModel::deterministic();
    let out = search(&topo, &mut model, &Heuristic::Zero, NodeId::Vertex { id: 3 }, NodeId::Vertex {
        id: 3,
    })
    .expect("endpoints exist")
    .expect("trivial path exists");
    assert_eq!(ids(&out.path), vec![3]);
    assert_eq!(out.cost, 0);
}

#[test]
fn graph_search_missing_endpoints() {
    let topo = demo_topology();
    let mut model = CostModel::deterministic();
    let start_err = search(&topo, &mut model, &Heuristic::Zero, NodeId::Vertex { id: 9 },
        NodeId::Vertex { id: 4 });
    assert!(matches!(start_err, Err(SearchError::StartMissing)));
    let goal_err = search(&topo, &mut model, &Heuristic::Zero, NodeId::Vertex { id: 1 },
        NodeId::Vertex { id: 9 });
    assert!(matches!(goal_err, Err(SearchError::GoalMissing)));
}

#[test]
fn graph_search_unreachable_is_none() {
    let topo = Topology::Explicit {
        nodes: vec![
            GraphNode { id: 1, edges: vec![(2, 100)] },
            GraphNode { id: 2, edges: vec![] },
            GraphNode { id: 3, edges: vec![(4, 100)] },
            GraphNode { id: 4, edges: vec![] },
        ],
    };
    let mut model = CostModel::deterministic();
    let r = search(&topo, &mut model, &Heuristic::Zero, NodeId::Vertex { id: 1 }, NodeId::Vertex {
        id: 4,
    })
    .expect("endpoints exist");
    assert!(r.is_none());
}

#[test]
fn stochastic_cost_within_perturbation_bounds() {
    // Under perturbation factors in [900, 1100), the realized cost of the
    // returned path stays within [0.9, 1.1] of that path's deterministic
    // cost (base sum times SCALE).
    let topo = demo_topology();
    for seed in 0..20u64 {
        let mut model = CostModel::stochastic(900, 1100, seed);
        let out = search(&topo, &mut model, &Heuristic::Zero, NodeId::Vertex { id: 1 },
            NodeId::Vertex { id: 4 })
            .expect("endpoints exist")
            .expect("a path exists");
        let p = ids(&out.path);
        let base: u64 = p
            .windows(2)
            .map(|e| match (e[0], e[1]) {
                (1, 2) => 1500u64,
                (1, 3) => 2500,
                (2, 3) => 1000,
                (3, 4) => 1200,
                _ => panic!("edge not in the graph"),
            })
            .sum();
        assert!(out.cost >= 900 * base);
        assert!(out.cost <= 1100 * base);
    }
}

#[test]
fn probabilistic_pathfinding_demo_graph() {
    let mut graph = Graph::new();
    graph.add_node(1);
    graph.add_node(2);
    graph.add_node(3);
    graph.add_node(4);
    graph.add_edge(1, 2, 1500);
    graph.add_edge(2, 3, 1000);
    graph.add_edge(3, 4, 1200);
    graph.add_edge(1, 3, 2500);
    let path = graph.probabilistic_pathfinding(1, 4).expect("a path exists");
    assert_eq!(path[0], 1);
    assert_eq!(path[path.len() - 1], 4);
    assert!(path == vec![1, 2, 3, 4] || path == vec![1, 3, 4]);
}

#[test]
fn probabilistic_pathfinding_trivial_and_missing() {
    let mut graph = Graph::new();
    graph.add_node(1);
    graph.add_node(2);
    assert_eq!(graph.probabilistic_pathfinding(2, 2), Some(vec![2]));
    assert_eq!(graph.probabilistic_pathfinding(1, 7), None);
    assert_eq!(graph.probabilistic_pathfinding(7, 1), None);
    // No edge between the two vertices.
    assert_eq!(graph.probabilistic_pathfinding(1, 2), None);
}

#[test]
fn add_edge_without_vertex_changes_nothing() {
    let mut graph = Graph::new();
    graph.add_node(1);
    graph.add_node(2);
    // Vertex 5 was never added: the edge is dropped.
    graph.add_edge(5, 1, 100);
    graph.add_edge(1, 2, 100);
    assert_eq!(graph.probabilistic_pathfinding(1, 2), Some(vec![1, 2]));
    assert_eq!(graph.probabilistic_pathfinding(2, 1), None);
}
