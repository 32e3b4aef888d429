//! An explicit directed graph built node by node and edge by edge, and a
//! best-first path search over it whose edge costs carry a random
//! perturbation per traversal.

use vstd::prelude::*;

use crate::cost::CostModel;
use crate::engine::search;
use crate::heuristic::Heuristic;
use crate::topology::GraphNode;
use crate::topology::NodeId;
use crate::topology::Topology;
use crate::topology::edge_in;
use crate::topology::find_index;
use crate::topology::find_node;
use crate::topology::path_ok;

verus! {

/// The vertex id of a graph node; grid cells have no id.
pub open spec fn vid_of(n: NodeId) -> usize {
    match n {
        NodeId::Vertex { id } => id,
        NodeId::Cell { .. } => 0,
    }
}

/// Vertices `a` and `b` are joined by some directed edge of `t`.
pub open spec fn vertex_step(t: Topology, a: usize, b: usize) -> bool {
    exists|w: u64| edge_in(t, (NodeId::Vertex { id: a }), (NodeId::Vertex { id: b }), w)
}

/// An environment graph: vertices identified by small integer ids, with
/// directed weighted edges in insertion order.
pub struct Graph {
    topo: Topology,
}

impl Graph {
    /// The topology this graph denotes.
    pub closed spec fn topo_spec(self) -> Topology {
        self.topo
    }

    /// The graph always holds the explicit-topology shape.
    pub closed spec fn wf(self) -> bool {
        self.topo matches Topology::Explicit { .. }
    }

    /// The vertex sequence, in insertion order.
    pub closed spec fn nodes_spec(self) -> Seq<GraphNode> {
        match self.topo {
            Topology::Explicit { nodes } => nodes@,
            _ => Seq::empty(),
        }
    }

    /// Whether some vertex with this id has been added.
    pub open spec fn has_vertex(self, id: usize) -> bool {
        find_node(self.nodes_spec(), id) is Some
    }

    pub fn new() -> (r: Self)
        ensures
            r.wf(),
            r.nodes_spec() =~= Seq::<GraphNode>::empty(),
    {
        Graph { topo: Topology::Explicit { nodes: Vec::new() } }
    }

    /// Appends a vertex with the given id and no edges; an id used twice
    /// leaves the earlier vertex shadowing the later one.
    pub fn add_node(&mut self, id: usize)
        requires
            old(self).wf(),
        ensures
            final(self).wf(),
            final(self).nodes_spec().len() == old(self).nodes_spec().len() + 1,
            forall|j: int|
                0 <= j < old(self).nodes_spec().len() ==> #[trigger] final(self).nodes_spec()[j]
                    == old(self).nodes_spec()[j],
            final(self).nodes_spec().last().id == id,
            final(self).nodes_spec().last().edges@ =~= Seq::<(usize, u64)>::empty(),
    {
        match &mut self.topo {
            Topology::Explicit { nodes } => {
                nodes.push(GraphNode { id, edges: Vec::new() });
            },
            _ => {
                proof {
                    assert(false);
                }
            },
        }
    }

    /// Appends a directed edge of the given base weight to the first
    /// vertex with id `from`; without such a vertex the graph is
    /// unchanged.
    pub fn add_edge(&mut self, from: usize, to: usize, distance: u64)
        requires
            old(self).wf(),
        ensures
            final(self).wf(),
            find_node(old(self).nodes_spec(), from) is None ==> final(self).nodes_spec()
                =~= old(self).nodes_spec(),
            find_node(old(self).nodes_spec(), from) is Some ==> exists|i: int|
                {
                    &&& 0 <= i < old(self).nodes_spec().len()
                    &&& (#[trigger] old(self).nodes_spec()[i]).id == from
                    &&& forall|j: int|
                        0 <= j < i ==> (#[trigger] old(self).nodes_spec()[j]).id != from
                    &&& final(self).nodes_spec().len() == old(self).nodes_spec().len()
                    &&& forall|j: int|
                        0 <= j < old(self).nodes_spec().len() && j != i
                            ==> #[trigger] final(self).nodes_spec()[j]
                            == old(self).nodes_spec()[j]
                    &&& final(self).nodes_spec()[i].id == from
                    &&& final(self).nodes_spec()[i].edges@ =~= old(
                        self,
                    ).nodes_spec()[i].edges@.push((to, distance))
                },
    {
        match &mut self.topo {
            Topology::Explicit { nodes } => {
                match find_index(nodes, from) {
                    Some(i) => {
                        let mut gn = nodes.remove(i);
                        gn.edges.push((to, distance));
                        nodes.insert(i, gn);
                        proof {
                            assert(forall|j: int|
                                0 <= j < nodes@.len() && j != i ==> #[trigger] nodes@[j] == old(
                                    self,
                                ).nodes_spec()[j]);
                        }
                    },
                    None => {},
                }
            },
            _ => {
                proof {
                    assert(false);
                }
            },
        }
    }

    /// Best-first path search from `start_id` to `goal_id` under the
    /// default stochastic cost model: every edge traversal is charged its
    /// base weight perturbed by an independent uniform factor.
    ///
    /// On success the result is a vertex-id path from `start_id` to
    /// `goal_id` whose consecutive pairs are joined by edges of the
    /// graph; a missing start or goal vertex yields `None`, and a search
    /// from a vertex to itself yields that single-vertex path.
    pub fn probabilistic_pathfinding(&self, start_id: usize, goal_id: usize) -> (r: Option<
        Vec<usize>,
    >)
        requires
            self.wf(),
        ensures
            (match r {
                Some(p) => {
                    &&& p@.len() >= 1
                    &&& p@[0] == start_id
                    &&& p@[p@.len() - 1] == goal_id
                    &&& self.has_vertex(start_id)
                    &&& self.has_vertex(goal_id)
                    &&& forall|i: int|
                        0 <= i < p@.len() ==> self.has_vertex(#[trigger] p@[i])
                    &&& forall|i: int|
                        0 <= i < p@.len() - 1 ==> #[trigger] vertex_step(
                            self.topo_spec(),
                            p@[i],
                            p@[i + 1],
                        )
                    &&& forall|i: int, j: int| 0 <= i < j < p@.len() ==> p@[i] != p@[j]
                },
                None => true,
            }),
            !self.has_vertex(start_id) || !self.has_vertex(goal_id) ==> r is None,
            self.has_vertex(start_id) && start_id == goal_id ==> (match r {
                Some(p) => p@ =~= seq![start_id],
                None => false,
            }),
    {
        let mut model = CostModel::stochastic_default();
        let heur = Heuristic::Zero;
        let vs = NodeId::Vertex { id: start_id };
        let vg = NodeId::Vertex { id: goal_id };
        proof {
            assert(self.topo.wf());
            assert(self.topo.spec_has_node(vs) == self.has_vertex(start_id));
            assert(self.topo.spec_has_node(vg) == self.has_vertex(goal_id));
        }
        match search(&self.topo, &mut model, &heur, vs, vg) {
            Err(_) => None,
            Ok(None) => None,
            Ok(Some(out)) => {
                proof {
                    reveal(crate::engine::cost_reached);
                }
                let ghost ws: Seq<u64> = choose|ws: Seq<u64>|
                    path_ok(self.topo, out.path@, ws, vs, vg) && model.lo_spec()
                        * crate::topology::wsum(ws) <= out.cost as int;
                proof {
                    assert(path_ok(self.topo, out.path@, ws, vs, vg));
                }
                let mut res: Vec<usize> = Vec::new();
                let mut k: usize = 0;
                while k < out.path.len()
                    invariant
                        k <= out.path@.len(),
                        res@.len() == k,
                        path_ok(self.topo, out.path@, ws, vs, vg),
                        self.wf(),
                        forall|j: int|
                            0 <= j < k ==> #[trigger] res@[j] == vid_of(out.path@[j]),
                    decreases out.path@.len() - k,
                {
                    let q = match out.path[k] {
                        NodeId::Vertex { id } => id,
                        NodeId::Cell { .. } => {
                            proof {
                                assert(self.topo.spec_has_node(out.path@[k as int]));
                                assert(false);
                            }
                            0
                        },
                    };
                    res.push(q);
                    k = k + 1;
                }
                proof {
                    assert forall|j: int| 0 <= j < res@.len() implies self.has_vertex(
                        #[trigger] res@[j],
                    ) by {
                        assert(self.topo.spec_has_node(out.path@[j]));
                        assert(out.path@[j] == (NodeId::Vertex { id: res@[j] }));
                    }
                    assert forall|j: int| 0 <= j < res@.len() - 1 implies #[trigger] vertex_step(
                        self.topo_spec(),
                        res@[j],
                        res@[j + 1],
                    ) by {
                        assert(self.topo.spec_has_node(out.path@[j]));
                        assert(self.topo.spec_has_node(out.path@[j + 1]));
                        assert(out.path@[j] == (NodeId::Vertex { id: res@[j] }));
                        assert(out.path@[j + 1] == (NodeId::Vertex { id: res@[j + 1] }));
                        assert(edge_in(self.topo, out.path@[j], out.path@[j + 1], ws[j]));
                    }
                    assert(res@[0] == vid_of(out.path@[0]));
                    // Distinct nodes keep distinct ids: every path node is
                    // a vertex, and a vertex is its id.
                    assert forall|a: int, b: int| 0 <= a < b < res@.len() implies res@[a]
                        != res@[b] by {
                        assert(self.topo.spec_has_node(out.path@[a]));
                        assert(self.topo.spec_has_node(out.path@[b]));
                        assert(out.path@[a] == (NodeId::Vertex { id: res@[a] }));
                        assert(out.path@[b] == (NodeId::Vertex { id: res@[b] }));
                    }
                    if start_id == goal_id && self.has_vertex(start_id) {
                        assert(out.path@ =~= seq![vs]);
                        assert(res@ =~= seq![start_id]);
                    }
                }
                Some(res)
            },
        }
    }
}

} // verus!
