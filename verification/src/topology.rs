//! Immutable descriptions of a search space: an occupancy grid with
//! 4-directional adjacency, or an explicit directed graph with weighted
//! edges.

use vstd::prelude::*;

verus! {

/// Cell value that marks a grid cell as an obstacle; every other value is
/// free.
pub const BLOCKED: usize = 1;

/// Identifies a location in the search space: a cell of an occupancy grid
/// or a vertex of an explicit graph.
#[derive(Clone, Copy, PartialEq, Eq, Structural, Debug)]
pub enum NodeId {
    Cell { row: usize, col: usize },
    Vertex { id: usize },
}

/// A vertex of an explicit graph together with its outgoing edges, each
/// edge a `(target vertex id, base weight)` pair in insertion order.
pub struct GraphNode {
    pub id: usize,
    pub edges: Vec<(usize, u64)>,
}

/// A search space: either an occupancy grid (a cell is a node unless it
/// holds [`BLOCKED`]) or an explicit directed graph.
pub enum Topology {
    Grid { cells: Vec<Vec<usize>> },
    Explicit { nodes: Vec<GraphNode> },
}

/// The first graph node with the given id, if any; later nodes with the
/// same id are shadowed.
pub open spec fn find_node(nodes: Seq<GraphNode>, id: usize) -> Option<GraphNode>
    decreases nodes.len(),
{
    if nodes.len() == 0 {
        None
    } else if nodes[0].id == id {
        Some(nodes[0])
    } else {
        find_node(nodes.drop_first(), id)
    }
}

impl Topology {
    /// Well-formed: a grid is rectangular, and small enough that a cell
    /// index fits the engine's 64-bit node keys; an explicit graph is
    /// unconstrained.
    pub open spec fn wf(self) -> bool {
        match self {
            Topology::Grid { cells } => {
                &&& cells@.len() < 0x1_0000_0000
                &&& forall|i: int|
                    0 <= i < cells@.len() ==> (#[trigger] cells@[i])@.len() == cells@[0]@.len()
                &&& cells@.len() > 0 ==> cells@[0]@.len() < 0x1_0000_0000
            },
            Topology::Explicit { .. } => true,
        }
    }

    /// Whether `n` is a node of this search space: an in-bounds free grid
    /// cell, or a vertex id present in the graph.
    pub open spec fn spec_has_node(self, n: NodeId) -> bool {
        match (self, n) {
            (Topology::Grid { cells }, NodeId::Cell { row, col }) => {
                &&& row < cells@.len()
                &&& col < cells@[row as int]@.len()
                &&& cells@[row as int]@[col as int] != BLOCKED
            },
            (Topology::Explicit { nodes }, NodeId::Vertex { id }) => find_node(
                nodes@,
                id,
            ) is Some,
            _ => false,
        }
    }

    /// Executable membership test, equal to [`Topology::spec_has_node`].
    pub fn has_node(&self, n: &NodeId) -> (r: bool)
        ensures
            r == self.spec_has_node(*n),
    {
        match (self, n) {
            (Topology::Grid { cells }, NodeId::Cell { row, col }) => {
                *row < cells.len() && *col < cells[*row].len() && cells[*row][*col] != BLOCKED
            },
            (Topology::Explicit { nodes }, NodeId::Vertex { id }) => {
                match find_index(nodes, *id) {
                    Some(_) => true,
                    None => false,
                }
            },
            _ => false,
        }
    }

    /// The outgoing adjacency of `n`: for a grid cell its in-bounds,
    /// unblocked 4-neighbors at unit base weight, in the order down,
    /// right, up, left; for a graph vertex its edges in insertion order.
    pub open spec fn spec_neighbors(self, n: NodeId) -> Seq<(NodeId, u64)> {
        match (self, n) {
            (Topology::Grid { cells }, NodeId::Cell { row, col }) => grid_cand(
                cells@,
                row + 1,
                col as int,
            ) + grid_cand(cells@, row as int, col + 1) + grid_cand(cells@, row - 1, col as int)
                + grid_cand(cells@, row as int, col - 1),
            (Topology::Explicit { nodes }, NodeId::Vertex { id }) => match find_node(nodes@, id) {
                Some(gn) => gn.edges@.map_values(
                    |e: (usize, u64)| (NodeId::Vertex { id: e.0 }, e.1),
                ),
                None => Seq::empty(),
            },
            _ => Seq::empty(),
        }
    }

    /// Executable adjacency query, equal to [`Topology::spec_neighbors`].
    pub fn neighbors(&self, n: &NodeId) -> (r: Vec<(NodeId, u64)>)
        requires
            self.wf(),
        ensures
            r@ == self.spec_neighbors(*n),
    {
        match (self, n) {
            (Topology::Grid { cells }, NodeId::Cell { row, col }) => {
                let mut out: Vec<(NodeId, u64)> = Vec::new();
                if *row < cells.len() && *row + 1 < cells.len() && *col < cells[*row + 1].len()
                    && cells[*row + 1][*col] != BLOCKED {
                    out.push((NodeId::Cell { row: *row + 1, col: *col }, 1));
                }
                if *row < cells.len() && *col < cells[*row].len() && *col + 1 < cells[*row].len()
                    && cells[*row][*col + 1] != BLOCKED {
                    out.push((NodeId::Cell { row: *row, col: *col + 1 }, 1));
                }
                if *row >= 1 && *row - 1 < cells.len() && *col < cells[*row - 1].len() && cells[*row
                    - 1][*col] != BLOCKED {
                    out.push((NodeId::Cell { row: *row - 1, col: *col }, 1));
                }
                if *row < cells.len() && *col >= 1 && *col - 1 < cells[*row].len() && cells[*row][
                    *col - 1] != BLOCKED {
                    out.push((NodeId::Cell { row: *row, col: *col - 1 }, 1));
                }
                proof {
                    assert(out@ =~= self.spec_neighbors(*n));
                }
                out
            },
            (Topology::Explicit { nodes }, NodeId::Vertex { id }) => {
                match find_index(nodes, *id) {
                    Some(i) => {
                        let edges = &nodes[i].edges;
                        let mut out: Vec<(NodeId, u64)> = Vec::new();
                        let mut j: usize = 0;
                        while j < edges.len()
                            invariant
                                j <= edges@.len(),
                                out@ =~= edges@.take(j as int).map_values(
                                    |e: (usize, u64)| (NodeId::Vertex { id: e.0 }, e.1),
                                ),
                            decreases edges@.len() - j,
                        {
                            out.push((NodeId::Vertex { id: edges[j].0 }, edges[j].1));
                            assert(edges@.take(j + 1) =~= edges@.take(j as int).push(
                                edges@[j as int],
                            ));
                            j = j + 1;
                        }
                        proof {
                            assert(edges@.take(edges@.len() as int) =~= edges@);
                            assert(out@ =~= self.spec_neighbors(*n));
                        }
                        out
                    },
                    None => {
                        let out: Vec<(NodeId, u64)> = Vec::new();
                        out
                    },
                }
            },
            _ => {
                let out: Vec<(NodeId, u64)> = Vec::new();
                out
            },
        }
    }

    /// A 64-bit key for a node, injective over the nodes of one
    /// well-formed topology: cell index in row-major order, or vertex id.
    pub open spec fn spec_key(self, n: NodeId) -> u64 {
        match (self, n) {
            (Topology::Grid { cells }, NodeId::Cell { row, col }) => (row * cells@[0]@.len()
                + col) as u64,
            (_, NodeId::Vertex { id }) => id as u64,
            _ => 0,
        }
    }

    /// Executable node key, equal to [`Topology::spec_key`].
    pub fn key(&self, n: &NodeId) -> (r: u64)
        requires
            self.wf(),
            self.spec_has_node(*n),
        ensures
            r == self.spec_key(*n),
    {
        match (self, n) {
            (Topology::Grid { cells }, NodeId::Cell { row, col }) => {
                let cols: usize = cells[0].len();
                proof {
                    assert((*row as int) * (cols as int) + (*col as int) < 0x1_0000_0000_0000_0000)
                        by (nonlinear_arith)
                        requires
                            (*row as int) < 0xFFFF_FFFF,
                            (cols as int) < 0x1_0000_0000,
                            (*col as int) < (cols as int),
                            (*row as int) >= 0,
                            (*col as int) >= 0,
                    ;
                }
                (*row as u64) * (cols as u64) + (*col as u64)
            },
            (_, NodeId::Vertex { id }) => *id as u64,
            _ => 0,
        }
    }
}

/// Executable search for the first graph node with the given id.
pub fn find_index(nodes: &Vec<GraphNode>, id: usize) -> (r: Option<usize>)
    ensures
        match r {
            Some(i) => i < nodes@.len() && nodes@[i as int].id == id && find_node(nodes@, id)
                == Some(nodes@[i as int]) && (forall|j: int|
                0 <= j < i ==> (#[trigger] nodes@[j]).id != id),
            None => find_node(nodes@, id) is None,
        },
{
    let mut i: usize = 0;
    assert(nodes@.skip(0) =~= nodes@);
    while i < nodes.len()
        invariant
            i <= nodes@.len(),
            find_node(nodes@, id) == find_node(nodes@.skip(i as int), id),
            forall|j: int| 0 <= j < i ==> (#[trigger] nodes@[j]).id != id,
        decreases nodes@.len() - i,
    {
        assert(nodes@.skip(i as int)[0] == nodes@[i as int]);
        assert(nodes@.skip(i as int).drop_first() =~= nodes@.skip(i + 1));
        if nodes[i].id == id {
            assert(find_node(nodes@.skip(i as int), id) == Some(nodes@[i as int]));
            return Some(i);
        }
        i = i + 1;
    }
    assert(nodes@.skip(i as int).len() == 0);
    None
}

/// The grid cell `(row, col)` as a singleton neighbor sequence if it is in
/// bounds and free, and the empty sequence otherwise; grid steps have unit
/// base weight.
pub open spec fn grid_cand(cells: Seq<Vec<usize>>, row: int, col: int) -> Seq<(NodeId, u64)> {
    if 0 <= row < cells.len() && 0 <= col < cells[row]@.len() && cells[row]@[col] != BLOCKED {
        seq![(NodeId::Cell { row: row as usize, col: col as usize }, 1u64)]
    } else {
        Seq::empty()
    }
}

/// `b` is reachable from `a` in one step, at base weight `w`.
pub open spec fn edge_in(t: Topology, a: NodeId, b: NodeId, w: u64) -> bool {
    t.spec_neighbors(a).contains((b, w))
}

/// `p` is a path of nodes of `t` from `start` to `goal` and `ws` gives,
/// for each consecutive pair, the base weight of an edge that joins it.
pub open spec fn path_ok(
    t: Topology,
    p: Seq<NodeId>,
    ws: Seq<u64>,
    start: NodeId,
    goal: NodeId,
) -> bool {
    &&& p.len() >= 1
    &&& ws.len() + 1 == p.len()
    &&& p[0] == start
    &&& p[p.len() - 1] == goal
    &&& forall|i: int| 0 <= i < p.len() ==> t.spec_has_node(#[trigger] p[i])
    &&& forall|i: int| 0 <= i < ws.len() ==> edge_in(t, p[i], p[i + 1], #[trigger] ws[i])
}

/// The sum of a sequence of base weights, as an unbounded integer.
pub open spec fn wsum(ws: Seq<u64>) -> int
    decreases ws.len(),
{
    if ws.len() == 0 {
        0
    } else {
        ws[0] + wsum(ws.drop_first())
    }
}

pub proof fn lemma_wsum_nonneg(ws: Seq<u64>)
    ensures
        wsum(ws) >= 0,
    decreases ws.len(),
{
    if ws.len() > 0 {
        lemma_wsum_nonneg(ws.drop_first());
    }
}

pub proof fn lemma_wsum_push(ws: Seq<u64>, w: u64)
    ensures
        wsum(ws.push(w)) == wsum(ws) + w,
    decreases ws.len(),
{
    if ws.len() == 0 {
        assert(ws.push(w).drop_first() =~= Seq::empty());
        assert(ws.push(w)[0] == w);
        assert(wsum(ws.push(w)) == w + wsum(ws.push(w).drop_first()));
    } else {
        assert(ws.push(w).drop_first() =~= ws.drop_first().push(w));
        lemma_wsum_push(ws.drop_first(), w);
        assert(ws.push(w)[0] == ws[0]);
        assert(wsum(ws.push(w)) == ws[0] + wsum(ws.push(w).drop_first()));
    }
}

/// Two weight sequences that are mirror images of each other have the same
/// sum.
pub proof fn lemma_wsum_mirror(a: Seq<u64>, b: Seq<u64>)
    requires
        a.len() == b.len(),
        forall|j: int| 0 <= j < a.len() ==> #[trigger] b[j] == a[a.len() - 1 - j],
    ensures
        wsum(b) == wsum(a),
    decreases a.len(),
{
    if a.len() > 0 {
        let a2 = a.drop_last();
        let b2 = b.drop_first();
        assert(forall|j: int| 0 <= j < a2.len() ==> #[trigger] b2[j] == a2[a2.len() - 1 - j]);
        lemma_wsum_mirror(a2, b2);
        lemma_wsum_push(a2, a.last());
        assert(a2.push(a.last()) =~= a);
    }
}

/// Keys are injective over the nodes of one well-formed topology.
pub proof fn lemma_key_injective(t: Topology, a: NodeId, b: NodeId)
    requires
        t.wf(),
        t.spec_has_node(a),
        t.spec_has_node(b),
        t.spec_key(a) == t.spec_key(b),
    ensures
        a == b,
{
    match t {
        Topology::Grid { cells } => {
            let (r1, c1) = match a {
                NodeId::Cell { row, col } => (row as int, col as int),
                _ => (0int, 0int),
            };
            let (r2, c2) = match b {
                NodeId::Cell { row, col } => (row as int, col as int),
                _ => (0int, 0int),
            };
            let cols = cells@[0]@.len() as int;
            assert(cells@[r1]@.len() == cols && cells@[r2]@.len() == cols);
            assert(r1 * cols + c1 < 0x1_0000_0000_0000_0000 && r2 * cols + c2
                < 0x1_0000_0000_0000_0000) by (nonlinear_arith)
                requires
                    r1 < 0xFFFF_FFFF,
                    r2 < 0xFFFF_FFFF,
                    cols < 0x1_0000_0000,
                    0 <= c1 < cols,
                    0 <= c2 < cols,
                    r1 >= 0,
                    r2 >= 0,
            ;
            assert(r1 * cols + c1 == r2 * cols + c2);
            assert(r1 == r2 && c1 == c2) by (nonlinear_arith)
                requires
                    r1 * cols + c1 == r2 * cols + c2,
                    0 <= c1 < cols,
                    0 <= c2 < cols,
                    r1 >= 0,
                    r2 >= 0,
            ;
        },
        Topology::Explicit { .. } => {},
    }
}

} // verus!
