//! Grid shortest-path search: best-first expansion over a 2D occupancy
//! grid with 4-directional unit steps, guided by the Manhattan heuristic.

use vstd::prelude::*;

use crate::cost::CostModel;
use crate::cost::SCALE;
use crate::engine::admissible;
use crate::engine::search;
use crate::heuristic::Heuristic;
use crate::heuristic::manhattan;
use crate::topology::BLOCKED;
use crate::topology::NodeId;
use crate::topology::Topology;
use crate::topology::edge_in;
use crate::topology::grid_cand;
use crate::topology::lemma_wsum_nonneg;
use crate::topology::path_ok;
use crate::topology::wsum;
use vstd::arithmetic::mul::lemma_mul_inequality;
use vstd::arithmetic::mul::lemma_mul_nonnegative;

verus! {

/// The coordinate pair of a grid node; vertices have no coordinates.
pub open spec fn pair_of(n: NodeId) -> (usize, usize) {
    match n {
        NodeId::Cell { row, col } => (row, col),
        NodeId::Vertex { id } => (0, 0),
    }
}

/// `p` is an in-bounds free cell of the grid.
pub open spec fn grid_free(grid: Seq<Vec<usize>>, p: (usize, usize)) -> bool {
    &&& (p.0 as int) < grid.len()
    &&& (p.1 as int) < grid[p.0 as int]@.len()
    &&& grid[p.0 as int]@[p.1 as int] != BLOCKED
}

/// The grid is rectangular and small enough for the engine's node keys.
pub open spec fn grid_wf(grid: Seq<Vec<usize>>) -> bool {
    &&& grid.len() < 0x1_0000_0000
    &&& forall|i: int| 0 <= i < grid.len() ==> (#[trigger] grid[i])@.len() == grid[0]@.len()
    &&& grid.len() > 0 ==> grid[0]@.len() < 0x1_0000_0000
}

/// A grid edge joins 4-adjacent free cells at unit base weight.
proof fn lemma_grid_edge(t: Topology, a: NodeId, b: NodeId, w: u64)
    requires
        t.wf(),
        t matches Topology::Grid { .. },
        edge_in(t, a, b, w),
    ensures
        b matches NodeId::Cell { .. },
        w == 1,
        a matches NodeId::Cell { .. } ==> manhattan(pair_of(a), pair_of(b)) == 1,
{
    let ns = t.spec_neighbors(a);
    assert(ns.contains((b, w)));
    let i = choose|i: int| 0 <= i < ns.len() && #[trigger] ns[i] == (b, w);
    match (t, a) {
        (Topology::Grid { cells }, NodeId::Cell { row, col }) => {
            let c1 = grid_cand(cells@, row + 1, col as int);
            let c2 = grid_cand(cells@, row as int, col + 1);
            let c3 = grid_cand(cells@, row - 1, col as int);
            let c4 = grid_cand(cells@, row as int, col - 1);
            assert(ns == c1 + c2 + c3 + c4);
            if i < c1.len() {
                assert(ns[i] == c1[i]);
                assert(0 <= row + 1 < cells@.len() < 0x1_0000_0000);
                assert(b == (NodeId::Cell { row: (row + 1) as usize, col }));
                assert(manhattan(pair_of(a), pair_of(b)) == 1);
            } else if i < c1.len() + c2.len() {
                assert(ns[i] == c2[i - c1.len()]);
                assert(0 <= col + 1 < cells@[row as int]@.len());
                assert(cells@[row as int]@.len() == cells@[0]@.len() < 0x1_0000_0000);
                assert(b == (NodeId::Cell { row, col: (col + 1) as usize }));
                assert(manhattan(pair_of(a), pair_of(b)) == 1);
            } else if i < c1.len() + c2.len() + c3.len() {
                assert(ns[i] == c3[i - c1.len() - c2.len()]);
                assert(b == (NodeId::Cell { row: (row - 1) as usize, col }));
                assert(manhattan(pair_of(a), pair_of(b)) == 1);
            } else {
                assert(ns[i] == c4[i - c1.len() - c2.len() - c3.len()]);
                assert(b == (NodeId::Cell { row, col: (col - 1) as usize }));
                assert(manhattan(pair_of(a), pair_of(b)) == 1);
            }
        },
        _ => {
            assert(ns.len() == 0);
        },
    }
}

/// The two coordinate distances obey the triangle inequality, so the
/// Manhattan distance does.
proof fn lemma_manhattan_triangle(a: (usize, usize), b: (usize, usize), c: (usize, usize))
    ensures
        manhattan(a, c) <= manhattan(a, b) + manhattan(b, c),
{
}

/// Any grid path takes at least the Manhattan distance in base weight.
proof fn lemma_manhattan_lower(t: Topology, p: Seq<NodeId>, ws: Seq<u64>, n: NodeId, goal: NodeId)
    requires
        t.wf(),
        t matches Topology::Grid { .. },
        path_ok(t, p, ws, n, goal),
    ensures
        manhattan(pair_of(n), pair_of(goal)) <= wsum(ws),
    decreases p.len(),
{
    if p.len() == 1 {
        assert(n == goal);
    } else {
        let nxt = p[1];
        assert(edge_in(t, n, nxt, ws[0]));
        assert(t.spec_has_node(n));
        lemma_grid_edge(t, n, nxt, ws[0]);
        let p2 = p.drop_first();
        let ws2 = ws.drop_first();
        assert(path_ok(t, p2, ws2, nxt, goal)) by {
            assert(forall|x: int| 0 <= x < p2.len() ==> #[trigger] p2[x] == p[x + 1]);
            assert(forall|x: int| 0 <= x < ws2.len() ==> #[trigger] ws2[x] == ws[x + 1]);
        }
        lemma_manhattan_lower(t, p2, ws2, nxt, goal);
        assert(wsum(ws) == ws[0] + wsum(ws2));
        lemma_manhattan_triangle(pair_of(n), pair_of(nxt), pair_of(goal));
    }
}

/// Scaled Manhattan distance is admissible on a grid for any factor bound
/// of at least the scale: it never overestimates the worst-case cost of
/// what remains.
pub proof fn lemma_manhattan_admissible(t: Topology, goal: NodeId, hi: int)
    requires
        t.wf(),
        t matches Topology::Grid { .. },
        hi >= SCALE,
    ensures
        admissible(t, Heuristic::Manhattan, goal, hi),
{
    reveal(crate::engine::admissible);
    assert forall|n: NodeId, p: Seq<NodeId>, ws: Seq<u64>|
        #[trigger] path_ok(t, p, ws, n, goal) implies Heuristic::Manhattan.spec_estimate(n, goal)
        <= hi * wsum(ws) by {
        lemma_manhattan_lower(t, p, ws, n, goal);
        lemma_wsum_nonneg(ws);
        lemma_mul_nonnegative(hi, wsum(ws));
        lemma_mul_inequality(manhattan(pair_of(n), pair_of(goal)), wsum(ws), SCALE as int);
        lemma_mul_inequality(SCALE as int, hi, wsum(ws));
        assert(manhattan(pair_of(n), pair_of(goal)) * SCALE == SCALE * manhattan(
            pair_of(n),
            pair_of(goal),
        )) by (nonlinear_arith);
        assert(wsum(ws) * SCALE == SCALE * wsum(ws)) by (nonlinear_arith);
    }
}

/// 4-adjacent free cells are joined by a unit-weight grid edge.
proof fn lemma_grid_adjacent_edge(t: Topology, a: (usize, usize), b: (usize, usize))
    requires
        t.wf(),
        t matches Topology::Grid { .. },
        t.spec_has_node((NodeId::Cell { row: a.0, col: a.1 })),
        t.spec_has_node((NodeId::Cell { row: b.0, col: b.1 })),
        manhattan(a, b) == 1,
    ensures
        edge_in(t, (NodeId::Cell { row: a.0, col: a.1 }), (NodeId::Cell { row: b.0, col: b.1 }), 1),
{
    match t {
        Topology::Grid { cells } => {
            let an = NodeId::Cell { row: a.0, col: a.1 };
            let bn = NodeId::Cell { row: b.0, col: b.1 };
            let ns = t.spec_neighbors(an);
            let c1 = grid_cand(cells@, a.0 + 1, a.1 as int);
            let c2 = grid_cand(cells@, a.0 as int, a.1 + 1);
            let c3 = grid_cand(cells@, a.0 - 1, a.1 as int);
            let c4 = grid_cand(cells@, a.0 as int, a.1 - 1);
            assert(ns == c1 + c2 + c3 + c4);
            assert(cells@[b.0 as int]@.len() == cells@[0]@.len());
            assert(cells@[a.0 as int]@.len() == cells@[0]@.len());
            if b.0 == a.0 + 1 && b.1 == a.1 {
                assert(c1 =~= seq![(bn, 1u64)]);
                assert(ns[0] == (bn, 1u64));
                assert(ns.contains((bn, 1u64)));
            } else if a.0 == b.0 + 1 && b.1 == a.1 {
                assert(c3 =~= seq![(bn, 1u64)]);
                assert(ns[c1.len() + c2.len() as int] == (bn, 1u64));
                assert(ns.contains((bn, 1u64)));
            } else if b.1 == a.1 + 1 && b.0 == a.0 {
                assert(c2 =~= seq![(bn, 1u64)]);
                assert(ns[c1.len() as int] == (bn, 1u64));
                assert(ns.contains((bn, 1u64)));
            } else {
                assert(a.1 == b.1 + 1 && b.0 == a.0);
                assert(c4 =~= seq![(bn, 1u64)]);
                assert(ns[c1.len() + c2.len() + c3.len() as int] == (bn, 1u64));
                assert(ns.contains((bn, 1u64)));
            }
        },
        _ => {},
    }
}

/// A sequence of unit weights sums to its length.
proof fn lemma_wsum_ones(ws: Seq<u64>)
    requires
        forall|i: int| 0 <= i < ws.len() ==> #[trigger] ws[i] == 1,
    ensures
        wsum(ws) == ws.len(),
    decreases ws.len(),
{
    if ws.len() > 0 {
        assert(forall|i: int|
            0 <= i < ws.drop_first().len() ==> #[trigger] ws.drop_first()[i] == 1);
        lemma_wsum_ones(ws.drop_first());
    }
}

/// `q` is a 4-connected sequence of free cells of the grid from `s` to
/// `g`.
pub open spec fn grid_path(
    grid: Seq<Vec<usize>>,
    q: Seq<(usize, usize)>,
    s: (usize, usize),
    g: (usize, usize),
) -> bool {
    &&& q.len() >= 1
    &&& q[0] == s
    &&& q[q.len() - 1] == g
    &&& forall|i: int| 0 <= i < q.len() ==> grid_free(grid, #[trigger] q[i])
    &&& forall|i: int| 0 <= i < q.len() - 1 ==> manhattan(#[trigger] q[i], q[i + 1]) == 1
}

/// Finds a shortest 4-connected path through free cells of `grid` (a cell
/// is free unless it holds [`BLOCKED`]) from `start` to `goal`, both
/// given as `(row, column)`.
///
/// Returns the full cell sequence including both endpoints, every
/// consecutive pair 4-adjacent and every cell free, or `None` when no
/// path was found; a start or goal outside the grid or blocked yields
/// `None`. When `start == goal` on a free cell the result is the
/// single-cell path.
pub fn a_star(grid: &Vec<Vec<usize>>, start: (usize, usize), goal: (usize, usize)) -> (r: Option<
    Vec<(usize, usize)>,
>)
    requires
        grid_wf(grid@),
    ensures
        (match r {
            Some(p) => {
                &&& p@.len() >= 1
                &&& p@[0] == start
                &&& p@[p@.len() - 1] == goal
                &&& grid_free(grid@, start)
                &&& grid_free(grid@, goal)
                &&& forall|i: int| 0 <= i < p@.len() ==> grid_free(grid@, #[trigger] p@[i])
                &&& forall|i: int|
                    0 <= i < p@.len() - 1 ==> manhattan(#[trigger] p@[i], p@[i + 1]) == 1
                &&& forall|i: int, j: int| 0 <= i < j < p@.len() ==> p@[i] != p@[j]
            },
            None => true,
        }),
        (match r {
            Some(p) => forall|q: Seq<(usize, usize)>|
                #[trigger] grid_path(grid@, q, start, goal) && SCALE * (q.len() - 1) <= u64::MAX
                    ==> p@.len() <= q.len(),
            None => true,
        }),
        !grid_free(grid@, start) || !grid_free(grid@, goal) ==> r is None,
        grid_free(grid@, start) && start == goal ==> (match r {
            Some(p) => p@ =~= seq![start],
            None => false,
        }),
{
    // Copy the grid into the engine's topology.
    let mut cells: Vec<Vec<usize>> = Vec::new();
    let mut i: usize = 0;
    while i < grid.len()
        invariant
            i <= grid@.len(),
            cells@.len() == i,
            forall|j: int| 0 <= j < i ==> (#[trigger] cells@[j])@ =~= grid@[j]@,
        decreases grid@.len() - i,
    {
        let src_row = &grid[i];
        let mut row: Vec<usize> = Vec::new();
        let mut j: usize = 0;
        while j < src_row.len()
            invariant
                j <= src_row@.len(),
                row@ =~= src_row@.take(j as int),
            decreases src_row@.len() - j,
        {
            row.push(src_row[j]);
            j = j + 1;
        }
        assert(row@ =~= src_row@);
        cells.push(row);
        i = i + 1;
    }
    let topo = Topology::Grid { cells };
    proof {
        assert(topo.wf());
    }
    let ns = NodeId::Cell { row: start.0, col: start.1 };
    let ng = NodeId::Cell { row: goal.0, col: goal.1 };
    proof {
        assert(topo.spec_has_node(ns) == grid_free(grid@, start));
        assert(topo.spec_has_node(ng) == grid_free(grid@, goal));
    }
    let mut model = CostModel::deterministic();
    let heur = Heuristic::Manhattan;
    match search(&topo, &mut model, &heur, ns, ng) {
        Err(_) => None,
        Ok(None) => None,
        Ok(Some(out)) => {
            proof {
                reveal(crate::engine::cost_reached);
            }
            let ghost ws: Seq<u64> = choose|ws: Seq<u64>|
                path_ok(topo, out.path@, ws, ns, ng) && model.lo_spec() * crate::topology::wsum(ws)
                    <= out.cost as int;
            proof {
                assert(path_ok(topo, out.path@, ws, ns, ng));
            }
            let mut res: Vec<(usize, usize)> = Vec::new();
            let mut k: usize = 0;
            while k < out.path.len()
                invariant
                    k <= out.path@.len(),
                    res@.len() == k,
                    path_ok(topo, out.path@, ws, ns, ng),
                    topo matches Topology::Grid { .. },
                    forall|j: int| 0 <= j < k ==> #[trigger] res@[j] == pair_of(out.path@[j]),
                decreases out.path@.len() - k,
            {
                let q = match out.path[k] {
                    NodeId::Cell { row, col } => (row, col),
                    NodeId::Vertex { .. } => {
                        proof {
                            assert(topo.spec_has_node(out.path@[k as int]));
                            assert(false);
                        }
                        (0, 0)
                    },
                };
                res.push(q);
                k = k + 1;
            }
            proof {
                assert forall|j: int| 0 <= j < res@.len() implies grid_free(
                    grid@,
                    #[trigger] res@[j],
                ) by {
                    assert(topo.spec_has_node(out.path@[j]));
                }
                assert forall|j: int| 0 <= j < res@.len() - 1 implies manhattan(
                    #[trigger] res@[j],
                    res@[j + 1],
                ) == 1 by {
                    assert(edge_in(topo, out.path@[j], out.path@[j + 1], ws[j]));
                    assert(topo.spec_has_node(out.path@[j]));
                    lemma_grid_edge(topo, out.path@[j], out.path@[j + 1], ws[j]);
                }
                assert(res@[0] == pair_of(out.path@[0]));
                // Length minimality: grid edges are unit weight, so the
                // engine's cost bound over every competing path becomes a
                // bound on the number of hops.
                reveal(crate::engine::cost_minimal);
                lemma_manhattan_admissible(topo, ng, SCALE as int);
                assert forall|i: int| 0 <= i < ws.len() implies #[trigger] ws[i] == 1 by {
                    assert(edge_in(topo, out.path@[i], out.path@[i + 1], ws[i]));
                    lemma_grid_edge(topo, out.path@[i], out.path@[i + 1], ws[i]);
                }
                lemma_wsum_ones(ws);
                assert(model.lo_spec() == SCALE && model.hi_spec() == SCALE);
                assert(SCALE * ((res@.len() - 1) as int) <= out.cost as int);
                assert forall|q: Seq<(usize, usize)>|
                    #[trigger] grid_path(grid@, q, start, goal) && SCALE * (q.len() - 1)
                        <= u64::MAX implies res@.len() <= q.len() by {
                    let qn = q.map_values(|c: (usize, usize)| (NodeId::Cell { row: c.0, col: c.1 }));
                    let qw = Seq::<u64>::new((q.len() - 1) as nat, |i: int| 1u64);
                    assert(path_ok(topo, qn, qw, ns, ng)) by {
                        assert(qn.len() == q.len());
                        assert(qn[0] == ns);
                        assert(qn[qn.len() - 1] == ng);
                        assert forall|i: int| 0 <= i < qn.len() implies topo.spec_has_node(
                            #[trigger] qn[i],
                        ) by {
                            assert(grid_free(grid@, q[i]));
                        }
                        assert forall|i: int| 0 <= i < qw.len() implies edge_in(
                            topo,
                            qn[i],
                            qn[i + 1],
                            #[trigger] qw[i],
                        ) by {
                            assert(grid_free(grid@, q[i]) && grid_free(grid@, q[i + 1]));
                            assert(manhattan(q[i], q[i + 1]) == 1);
                            lemma_grid_adjacent_edge(topo, q[i], q[i + 1]);
                        }
                    }
                    lemma_wsum_ones(qw);
                    assert(out.cost as int <= SCALE * wsum(qw));
                    assert((res@.len() - 1) as int <= (q.len() - 1) as int) by (nonlinear_arith)
                        requires
                            SCALE * ((res@.len() - 1) as int) <= SCALE * ((q.len() - 1) as int),
                            SCALE == 1000,
                    ;
                }
                // Distinct nodes stay distinct as coordinate pairs: every
                // path node is a grid cell, and a cell is its pair.
                assert forall|a: int, b: int| 0 <= a < b < res@.len() implies res@[a]
                    != res@[b] by {
                    assert(topo.spec_has_node(out.path@[a]));
                    assert(topo.spec_has_node(out.path@[b]));
                    if res@[a] == res@[b] {
                        assert(out.path@[a] == out.path@[b]);
                    }
                }
                if start == goal && grid_free(grid@, start) {
                    assert(out.path@ =~= seq![ns]);
                    assert(res@ =~= seq![start]);
                }
            }
            Some(res)
        },
    }
}

} // verus!
