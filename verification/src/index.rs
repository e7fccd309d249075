//! An optional precomputed table of all pairwise squared distances.
//!
//! The clustering loop itself computes distances against centroids on
//! demand and never reads this table; it exists for inspection of the
//! dataset.  The table is symmetric with a zero diagonal, which follows
//! from its defining contract together with the distance laws in
//! [`crate::laws`].

use vstd::prelude::*;

use crate::model::{d2, wf_pseq, wf_pt};
use crate::point::{distance_squared, pviews, Point};

verus! {

/// A fixed set of points and the full matrix of their pairwise squared
/// distances: cell `(i, j)` holds the squared distance between points
/// `i` and `j`.
pub struct DistanceIndex {
    pub nodes: Vec<Point>,
    pub graph: Vec<Vec<i64>>,
}

impl DistanceIndex {
    /// Builds the table for the given points; read-only afterwards.
    pub fn new(nodes: &Vec<Point>) -> (r: Self)
        requires
            wf_pseq(pviews(nodes@)),
        ensures
            pviews(r.nodes@) == pviews(nodes@),
            r.nodes@.len() == nodes@.len(),
            r.graph@.len() == nodes@.len(),
            forall|i: int|
                0 <= i < nodes@.len() ==> #[trigger] r.graph@[i]@.len() == nodes@.len(),
            forall|i: int, j: int|
                0 <= i < nodes@.len() && 0 <= j < nodes@.len() ==> #[trigger] r.graph@[i]@[j]
                    == d2(pviews(nodes@)[i], pviews(nodes@)[j]),
    {
        let ghost ps = pviews(nodes@);
        let mut owned: Vec<Point> = Vec::new();
        let mut t: usize = 0;
        while t < nodes.len()
            invariant
                ps == pviews(nodes@),
                t <= nodes@.len(),
                owned@.len() == t,
                forall|m: int| 0 <= m < t ==> #[trigger] owned@[m]@ == nodes@[m]@,
            decreases nodes@.len() - t,
        {
            let p = nodes[t].clone();
            owned.push(p);
            t = t + 1;
        }
        let mut graph: Vec<Vec<i64>> = Vec::new();
        let mut i: usize = 0;
        while i < nodes.len()
            invariant
                ps == pviews(nodes@),
                wf_pseq(ps),
                ps.len() == nodes@.len(),
                i <= nodes@.len(),
                graph@.len() == i,
                forall|m: int|
                    0 <= m < i ==> #[trigger] graph@[m]@.len() == nodes@.len(),
                forall|m: int, j: int|
                    0 <= m < i && 0 <= j < nodes@.len() ==> #[trigger] graph@[m]@[j] == d2(
                        ps[m],
                        ps[j],
                    ),
            decreases nodes@.len() - i,
        {
            let mut row: Vec<i64> = Vec::new();
            let mut j: usize = 0;
            while j < nodes.len()
                invariant
                    ps == pviews(nodes@),
                    wf_pseq(ps),
                    ps.len() == nodes@.len(),
                    i < nodes@.len(),
                    j <= nodes@.len(),
                    row@.len() == j,
                    forall|m: int|
                        0 <= m < j ==> #[trigger] row@[m] == d2(ps[i as int], ps[m]),
                decreases nodes@.len() - j,
            {
                proof {
                    assert(ps[i as int] == nodes@[i as int]@);
                    assert(ps[j as int] == nodes@[j as int]@);
                }
                let dist = distance_squared(&nodes[i], &nodes[j]);
                row.push(dist);
                j = j + 1;
            }
            graph.push(row);
            i = i + 1;
        }
        proof {
            assert(pviews(owned@) =~= ps);
        }
        DistanceIndex { nodes: owned, graph }
    }
}

} // verus!
