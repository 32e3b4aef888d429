//! Estimates of the remaining cost from a node to the goal: zero (which
//! degrades best-first search to uniform-cost order) or grid Manhattan
//! distance.

use vstd::prelude::*;

use crate::cost::SCALE;
use crate::topology::NodeId;

verus! {

/// `|a.0 - b.0| + |a.1 - b.1|` as an unbounded integer.
pub open spec fn manhattan(a: (usize, usize), b: (usize, usize)) -> int {
    let dr = if a.0 >= b.0 {
        a.0 - b.0
    } else {
        b.0 - a.0
    };
    let dc = if a.1 >= b.1 {
        a.1 - b.1
    } else {
        b.1 - a.1
    };
    dr + dc
}

/// Manhattan distance between two grid coordinates, the admissible
/// estimate of the number of unit steps between them.
pub fn heuristic(a: (usize, usize), b: (usize, usize)) -> (r: usize)
    requires
        manhattan(a, b) <= usize::MAX,
    ensures
        r == manhattan(a, b),
{
    let dr = if a.0 >= b.0 {
        a.0 - b.0
    } else {
        b.0 - a.0
    };
    let dc = if a.1 >= b.1 {
        a.1 - b.1
    } else {
        b.1 - a.1
    };
    dr + dc
}

/// A remaining-cost estimate, in scaled cost units.
pub enum Heuristic {
    /// No guidance: every estimate is zero.
    Zero,
    /// Scaled Manhattan distance between grid cells; zero on any other
    /// node kind.
    Manhattan,
}

impl Heuristic {
    /// What [`Heuristic::estimate`] returns: zero, or the scaled Manhattan
    /// distance saturated at `u64::MAX`.
    pub open spec fn spec_estimate(self, n: NodeId, goal: NodeId) -> int {
        match self {
            Heuristic::Zero => 0,
            Heuristic::Manhattan => match (n, goal) {
                (NodeId::Cell { row: r1, col: c1 }, NodeId::Cell { row: r2, col: c2 }) => {
                    let d = SCALE * manhattan((r1, c1), (r2, c2));
                    if d > u64::MAX {
                        u64::MAX as int
                    } else {
                        d
                    }
                },
                _ => 0,
            },
        }
    }

    /// The estimated remaining cost from `n` to `goal`; zero when the two
    /// are equal.
    pub fn estimate(&self, n: &NodeId, goal: &NodeId) -> (r: u64)
        ensures
            r == self.spec_estimate(*n, *goal),
            n == goal ==> r == 0,
    {
        match self {
            Heuristic::Zero => 0,
            Heuristic::Manhattan => {
                match (n, goal) {
                    (
                        NodeId::Cell { row: r1, col: c1 },
                        NodeId::Cell { row: r2, col: c2 },
                    ) => {
                        let dr: u64 = if *r1 >= *r2 {
                            (*r1 - *r2) as u64
                        } else {
                            (*r2 - *r1) as u64
                        };
                        let dc: u64 = if *c1 >= *c2 {
                            (*c1 - *c2) as u64
                        } else {
                            (*c2 - *c1) as u64
                        };
                        let d = if dr <= u64::MAX - dc {
                            dr + dc
                        } else {
                            u64::MAX
                        };
                        proof {
                            lemma_scale_saturate(d as int, manhattan((*r1, *c1), (*r2, *c2)));
                        }
                        if d <= u64::MAX / SCALE {
                            d * SCALE
                        } else {
                            u64::MAX
                        }
                    },
                    _ => 0,
                }
            },
        }
    }
}

/// Saturating the sum before scaling gives the same result as saturating
/// the scaled exact distance.
proof fn lemma_scale_saturate(d: int, m: int)
    requires
        m >= 0,
        d == if m > u64::MAX as int {
            u64::MAX as int
        } else {
            m
        },
    ensures
        d <= u64::MAX as int / SCALE as int ==> d * SCALE == SCALE * m || (SCALE * m > u64::MAX
            && d * SCALE > u64::MAX),
        d <= u64::MAX as int / SCALE as int ==> d * SCALE <= u64::MAX,
        d > u64::MAX as int / SCALE as int ==> SCALE * m > u64::MAX,
{
    if d <= u64::MAX as int / SCALE as int {
        assert(d * SCALE <= u64::MAX) by (nonlinear_arith)
            requires
                0 <= d <= u64::MAX as int / SCALE as int,
        ;
        if d == m {
            assert(d * SCALE == SCALE * m);
        } else {
            assert(false) by (nonlinear_arith)
                requires
                    d == u64::MAX as int,
                    d <= u64::MAX as int / SCALE as int,
                    SCALE == 1000,
            ;
        }
    } else {
        if m > u64::MAX as int {
            assert(SCALE * m > u64::MAX) by (nonlinear_arith)
                requires
                    m > u64::MAX as int,
                    SCALE >= 1,
            ;
        } else {
            assert(SCALE * m > u64::MAX) by (nonlinear_arith)
                requires
                    m == d,
                    d > u64::MAX as int / SCALE as int,
                    SCALE >= 1,
            ;
        }
    }
}

} // verus!
