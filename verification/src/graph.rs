//! The problem instance: an immutable distance matrix and a mutable
//! pheromone matrix over a fixed set of nodes.

use vstd::prelude::*;
use crate::errors::AcoError;
use crate::node::Node;
use crate::parse;
use crate::{MAX_ENTRY, MAX_NODES};

verus! {

/// Pheromone level (scaled) given to every edge when a graph is loaded.
pub const INITIAL_PHEROMONE: u64 = 500;

/// A distance entry of zero means "no edge"; present edges carry a positive
/// scaled distance, immutable for the graph's lifetime, and a positive
/// scaled pheromone level, mutated only by the colony's update steps.
pub struct Graph {
    pub nodes: Vec<Node>,
}

impl Graph {
    /// Number of nodes.
    pub open spec fn size(&self) -> int {
        self.nodes@.len() as int
    }

    /// The scaled distance entry from `i` to `j` (0 means "no edge").
    pub open spec fn dist(&self, i: int, j: int) -> u64 {
        self.nodes@[i].edges_distances@[j]
    }

    /// The scaled pheromone entry from `i` to `j` (0 where no edge exists).
    pub open spec fn pher(&self, i: int, j: int) -> u64 {
        self.nodes@[i].edges_pheromones@[j]
    }

    /// Whether an edge from `i` to `j` is present.
    pub open spec fn has_edge(&self, i: int, j: int) -> bool {
        self.dist(i, j) > 0
    }

    /// Well-formedness: square shape, ids matching positions, entries within
    /// the representable range, and no pheromone on absent edges.
    pub open spec fn wf(&self) -> bool {
        &&& self.size() <= MAX_NODES as int
        &&& forall|i: int|
            0 <= i < self.size() ==> {
                &&& (#[trigger] self.nodes@[i]).id == i as u8
                &&& self.nodes@[i].edges_distances@.len() == self.size()
                &&& self.nodes@[i].edges_pheromones@.len() == self.size()
            }
        &&& forall|i: int, j: int|
            0 <= i < self.size() && 0 <= j < self.size() ==> {
                &&& #[trigger] self.dist(i, j) <= MAX_ENTRY
                &&& (self.dist(i, j) == 0 ==> self.pher(i, j) == 0)
            }
    }

    /// Every present edge carries a pheromone level within `[lo, hi]`.
    pub open spec fn pher_in(&self, lo: u64, hi: u64) -> bool {
        forall|i: int, j: int|
            0 <= i < self.size() && 0 <= j < self.size() && self.has_edge(i, j) ==> lo
                <= #[trigger] self.pher(i, j) <= hi
    }

    /// Same node set and same distances: only pheromone may differ.
    pub open spec fn same_structure(g1: Graph, g2: Graph) -> bool {
        &&& g2.size() == g1.size()
        &&& forall|i: int|
            0 <= i < g1.size() ==> {
                &&& (#[trigger] g2.nodes@[i]).id == g1.nodes@[i].id
                &&& g2.nodes@[i].edges_distances@ == g1.nodes@[i].edges_distances@
                &&& g2.nodes@[i].edges_pheromones@.len()
                    == g1.nodes@[i].edges_pheromones@.len()
            }
    }

    /// Every pair of distinct nodes is joined by an edge.
    pub open spec fn complete(&self) -> bool {
        forall|i: int, j: int|
            0 <= i < self.size() && 0 <= j < self.size() && i != j ==> #[trigger] self.has_edge(
                i,
                j,
            )
    }

    /// Node `k` has no edges at all, in either direction.
    pub open spec fn isolated(&self, k: int) -> bool {
        forall|i: int|
            0 <= i < self.size() ==> !#[trigger] self.has_edge(i, k) && !self.has_edge(k, i)
    }

    /// Parse a whitespace-separated square matrix, one row per line.  A zero
    /// entry means "no edge"; the diagonal must be zero.  Every present edge
    /// starts with `INITIAL_PHEROMONE`.  Any malformation is a `FormatError`
    /// and no graph is built.
    pub fn new(contents: &Vec<u8>) -> (r: Result<Graph, AcoError>)
        ensures
            r is Ok <==> parse::spec_parse_matrix(contents@) is Some,
            r is Err ==> r == Result::<Graph, AcoError>::Err(AcoError::FormatError),
            r matches Ok(g) ==> {
                &&& g.wf()
                &&& g.size() == parse::spec_parse_matrix(contents@).unwrap().len()
                &&& forall|i: int, j: int|
                    0 <= i < g.size() && 0 <= j < g.size() ==> #[trigger] g.dist(i, j)
                        == parse::spec_parse_matrix(contents@).unwrap()[i][j]
                &&& forall|i: int, j: int|
                    0 <= i < g.size() && 0 <= j < g.size() ==> #[trigger] g.pher(i, j) == (
                    if g.dist(i, j) > 0 {
                        INITIAL_PHEROMONE
                    } else {
                        0
                    })
            },
    {
        let rows = match parse::parse_matrix(contents) {
            Ok(rows) => rows,
            Err(e) => {
                return Err(e);
            },
        };
        let ghost srows = parse::spec_parse_matrix(contents@).unwrap();
        proof {
            assert forall|a: int, b: int|
                0 <= a < srows.len() && 0 <= b < srows.len() implies #[trigger] srows[a][b]
                <= MAX_ENTRY by {
                assert(rows@[a]@ == srows[a]);
                assert(rows@[a]@[b] <= MAX_ENTRY);
            }
            assert forall|a: int| 0 <= a < srows.len() implies (#[trigger] srows[a]).len()
                == srows.len() by {
                assert(rows@[a]@ == srows[a]);
                assert(rows@[a]@.len() == rows@.len());
            }
        }
        let n = rows.len();
        let mut nodes: Vec<Node> = Vec::new();
        let mut i: usize = 0;
        while i < n
            invariant
                i <= n,
                n == srows.len() <= MAX_NODES,
                nodes@.len() == i,
                rows@.len() == n,
                forall|a: int| 0 <= a < n ==> (#[trigger] rows@[a])@ == srows[a],
                forall|a: int| 0 <= a < n ==> (#[trigger] srows[a]).len() == n,
                forall|a: int, b: int|
                    0 <= a < n && 0 <= b < n ==> #[trigger] srows[a][b] <= MAX_ENTRY,
                forall|a: int|
                    0 <= a < i ==> {
                        &&& (#[trigger] nodes@[a]).id == a as u8
                        &&& nodes@[a].edges_distances@.len() == n
                        &&& nodes@[a].edges_pheromones@.len() == n
                        &&& forall|b: int|
                            0 <= b < n ==> #[trigger] nodes@[a].edges_distances@[b] == srows[a][b]
                        &&& forall|b: int|
                            0 <= b < n ==> #[trigger] nodes@[a].edges_pheromones@[b] == (
                            if srows[a][b] > 0 {
                                INITIAL_PHEROMONE
                            } else {
                                0
                            })
                    },
            decreases n - i,
        {
            let row = &rows[i];
            let mut pher_row: Vec<u64> = Vec::new();
            let mut dist_row: Vec<u64> = Vec::new();
            let mut j: usize = 0;
            while j < row.len()
                invariant
                    j <= row.len(),
                    row@ == srows[i as int],
                    i < n == srows.len(),
                    dist_row@.len() == j,
                    pher_row@.len() == j,
                    forall|b: int| 0 <= b < j ==> #[trigger] dist_row@[b] == row@[b],
                    forall|b: int|
                        0 <= b < j ==> #[trigger] pher_row@[b] == (if row@[b] > 0 {
                            INITIAL_PHEROMONE
                        } else {
                            0
                        }),
                decreases row.len() - j,
            {
                let d = row[j];
                dist_row.push(d);
                if d > 0 {
                    pher_row.push(INITIAL_PHEROMONE);
                } else {
                    pher_row.push(0);
                }
                j = j + 1;
            }
            nodes.push(
                Node { id: i as u8, edges_distances: dist_row, edges_pheromones: pher_row },
            );
            i = i + 1;
        }
        Ok(Graph { nodes })
    }

    /// The ids reachable from `i` over present edges, in ascending order.
    pub fn neighbors(&self, i: u8) -> (r: Vec<u8>)
        requires
            self.wf(),
            (i as int) < self.size(),
        ensures
            forall|a: int, b: int| 0 <= a < b < r@.len() ==> r@[a] < r@[b],
            forall|j: u8|
                r@.contains(j) <==> ((j as int) < self.size() && self.has_edge(i as int, j as int)),
    {
        let n = self.nodes.len();
        let mut r: Vec<u8> = Vec::new();
        let mut j: usize = 0;
        while j < n
            invariant
                j <= n,
                n == self.size(),
                self.wf(),
                (i as int) < self.size(),
                forall|a: int, b: int| 0 <= a < b < r@.len() ==> r@[a] < r@[b],
                forall|a: int| 0 <= a < r@.len() ==> (#[trigger] r@[a]) < j,
                forall|jj: u8|
                    r@.contains(jj) <==> ((jj as int) < j && self.has_edge(i as int, jj as int)),
            decreases n - j,
        {
            let ghost old_r = r@;
            if self.nodes[i as usize].edges_distances[j] > 0 {
                r.push(j as u8);
                proof {
                    assert forall|jj: u8|
                        r@.contains(jj) <==> ((jj as int) < j + 1 && self.has_edge(
                            i as int,
                            jj as int,
                        )) by {
                        if r@.contains(jj) {
                            let w = choose|w: int| 0 <= w < r@.len() && r@[w] == jj;
                            if w < old_r.len() {
                                assert(old_r[w] == jj);
                                assert(old_r.contains(jj));
                            } else {
                                assert(jj == j as u8);
                            }
                        }
                        if ((jj as int) < j + 1 && self.has_edge(i as int, jj as int)) {
                            if (jj as int) < j {
                                assert(old_r.contains(jj));
                                let w = choose|w: int| 0 <= w < old_r.len() && old_r[w] == jj;
                                assert(r@[w] == jj);
                            } else {
                                assert(r@[r@.len() - 1] == jj);
                            }
                        }
                    }
                }
            } else {
                proof {
                    assert forall|jj: u8|
                        r@.contains(jj) <==> ((jj as int) < j + 1 && self.has_edge(
                            i as int,
                            jj as int,
                        )) by {}
                }
            }
            j = j + 1;
        }
        r
    }

    /// The scaled distance of the edge from `i` to `j`, `None` if absent.
    pub fn distance(&self, i: u8, j: u8) -> (r: Option<u64>)
        requires
            self.wf(),
            (i as int) < self.size(),
            (j as int) < self.size(),
        ensures
            self.has_edge(i as int, j as int) ==> r == Some(self.dist(i as int, j as int)),
            !self.has_edge(i as int, j as int) ==> r is None,
    {
        let d = self.nodes[i as usize].edges_distances[j as usize];
        if d > 0 {
            Some(d)
        } else {
            None
        }
    }

    /// The scaled pheromone of the edge from `i` to `j`, `None` if absent.
    pub fn pheromone(&self, i: u8, j: u8) -> (r: Option<u64>)
        requires
            self.wf(),
            (i as int) < self.size(),
            (j as int) < self.size(),
        ensures
            self.has_edge(i as int, j as int) ==> r == Some(self.pher(i as int, j as int)),
            !self.has_edge(i as int, j as int) ==> r is None,
    {
        if self.nodes[i as usize].edges_distances[j as usize] > 0 {
            Some(self.nodes[i as usize].edges_pheromones[j as usize])
        } else {
            None
        }
    }

    /// Overwrite the pheromone of edge `(i, j)`.  On an absent edge this is a
    /// no-op that reports the anomaly by returning `false`: such an attempt
    /// indicates a topology error upstream, not a normal path.
    pub fn set_pheromone(&mut self, i: u8, j: u8, value: u64) -> (applied: bool)
        requires
            old(self).wf(),
            (i as int) < old(self).size(),
            (j as int) < old(self).size(),
            value > 0,
        ensures
            final(self).wf(),
            Graph::same_structure(*old(self), *final(self)),
            applied == old(self).has_edge(i as int, j as int),
            applied ==> final(self).pher(i as int, j as int) == value,
            forall|a: int, b: int|
                0 <= a < old(self).size() && 0 <= b < old(self).size() && !(a == i as int && b
                    == j as int) ==> #[trigger] final(self).pher(a, b) == old(self).pher(a, b),
            !applied ==> *final(self) == *old(self),
    {
        if self.nodes[i as usize].edges_distances[j as usize] > 0 {
            self.nodes[i as usize].edges_pheromones[j as usize] = value;
            proof {
                assert forall|a: int|
                    0 <= a < self.size() && a != i as int implies self.nodes@[a] == old(
                    self,
                ).nodes@[a] by {}
                assert(self.nodes@[i as int].edges_distances@ == old(self).nodes@[
                    i as int].edges_distances@);
                assert(self.nodes@[i as int].edges_pheromones@ == old(self).nodes@[
                    i as int].edges_pheromones@.update(j as int, value));
                assert forall|a: int, b: int|
                    0 <= a < self.size() && 0 <= b < self.size() && !(a == i as int && b
                        == j as int) implies #[trigger] self.pher(a, b) == old(self).pher(
                    a,
                    b,
                ) by {}
                assert(self.nodes@[i as int].id == old(self).nodes@[i as int].id);
                assert forall|a: int|
                    0 <= a < self.size() implies {
                        &&& (#[trigger] self.nodes@[a]).id == a as u8
                        &&& self.nodes@[a].edges_distances@.len() == self.size()
                        &&& self.nodes@[a].edges_pheromones@.len() == self.size()
                    } by {}
                assert forall|a: int, b: int|
                    0 <= a < self.size() && 0 <= b < self.size() implies {
                        &&& #[trigger] self.dist(a, b) <= MAX_ENTRY
                        &&& (self.dist(a, b) == 0 ==> self.pher(a, b) == 0)
                    } by {
                    assert(old(self).dist(a, b) <= MAX_ENTRY);
                    if !(a == i as int && b == j as int) {
                        assert(self.pher(a, b) == old(self).pher(a, b));
                    }
                }
            }
            true
        } else {
            false
        }
    }
}

impl Clone for Graph {
    /// A graph's clone is a fully independent copy: same nodes, same
    /// distances, and the same pheromone state.
    fn clone(&self) -> (g: Graph)
        ensures
            g.size() == self.size(),
            forall|i: int|
                0 <= i < self.size() ==> {
                    &&& (#[trigger] g.nodes@[i]).id == self.nodes@[i].id
                    &&& g.nodes@[i].edges_distances@ == self.nodes@[i].edges_distances@
                    &&& g.nodes@[i].edges_pheromones@ == self.nodes@[i].edges_pheromones@
                },
    {
        let mut nodes: Vec<Node> = Vec::new();
        let mut i: usize = 0;
        while i < self.nodes.len()
            invariant
                i <= self.nodes@.len(),
                nodes@.len() == i,
                forall|a: int|
                    0 <= a < i ==> {
                        &&& (#[trigger] nodes@[a]).id == self.nodes@[a].id
                        &&& nodes@[a].edges_distances@ == self.nodes@[a].edges_distances@
                        &&& nodes@[a].edges_pheromones@ == self.nodes@[a].edges_pheromones@
                    },
            decreases self.nodes@.len() - i,
        {
            nodes.push(self.nodes[i].clone());
            i = i + 1;
        }
        Graph { nodes }
    }
}

} // verus!
