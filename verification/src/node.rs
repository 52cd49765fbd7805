//! A single node of the graph, with its outgoing edges.

use vstd::prelude::*;

verus! {

/// A node, identified by its index, with one distance entry and one
/// pheromone entry per possible neighbor.  An entry of zero in
/// `edges_distances` means the edge is absent.
pub struct Node {
    pub id: u8,
    pub edges_distances: Vec<u64>,
    pub edges_pheromones: Vec<u64>,
}

impl Clone for Node {
    /// A node's clone agrees with it field by field.
    fn clone(&self) -> (n: Node)
        ensures
            n.id == self.id,
            n.edges_distances@ == self.edges_distances@,
            n.edges_pheromones@ == self.edges_pheromones@,
    {
        let mut edges_distances: Vec<u64> = Vec::new();
        let mut i: usize = 0;
        while i < self.edges_distances.len()
            invariant
                i <= self.edges_distances@.len(),
                edges_distances@ == self.edges_distances@.take(i as int),
            decreases self.edges_distances@.len() - i,
        {
            edges_distances.push(self.edges_distances[i]);
            proof {
                assert(edges_distances@ =~= self.edges_distances@.take(i + 1));
            }
            i = i + 1;
        }
        let mut edges_pheromones: Vec<u64> = Vec::new();
        let mut j: usize = 0;
        while j < self.edges_pheromones.len()
            invariant
                j <= self.edges_pheromones@.len(),
                edges_pheromones@ == self.edges_pheromones@.take(j as int),
            decreases self.edges_pheromones@.len() - j,
        {
            edges_pheromones.push(self.edges_pheromones[j]);
            proof {
                assert(edges_pheromones@ =~= self.edges_pheromones@.take(j + 1));
            }
            j = j + 1;
        }
        proof {
            assert(edges_distances@ =~= self.edges_distances@);
            assert(edges_pheromones@ =~= self.edges_pheromones@);
        }
        Node { id: self.id, edges_distances, edges_pheromones }
    }
}

} // verus!
