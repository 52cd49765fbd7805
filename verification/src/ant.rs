//! One stochastic tour-construction agent: the record of a single run.

use vstd::prelude::*;
use vstd::seq_lib::*;

verus! {

/// An ant builds one closed tour.  `path` starts with the start node, grows
/// by one id per move, and is closed by re-appending the start node;
/// `total_cost` is the running sum of the traversed edge distances (scaled).
pub struct Ant {
    pub path: Vec<u8>,
    pub total_cost: u64,
    pub remaining_nodes: Vec<u8>,
    pub current_node: u8,
}

impl Ant {
    /// The unvisited nodes of a fresh ant: every id below `size` except
    /// `start`, in ascending order.
    pub open spec fn spec_initial_remaining(start: u8, size: u8) -> Seq<u8> {
        Seq::new((size - 1) as nat, |k: int| if k < start as int { k as u8 } else { (k + 1) as u8 })
    }

    /// A fresh ant standing on `start_node`, with every other node unvisited.
    pub fn new(start_node: u8, graph_size: u8) -> (a: Ant)
        requires
            start_node < graph_size,
        ensures
            a.path@ == seq![start_node],
            a.total_cost == 0,
            a.current_node == start_node,
            a.remaining_nodes@ == Self::spec_initial_remaining(start_node, graph_size),
    {
        let mut remaining_nodes: Vec<u8> = Vec::new();
        let mut i: u8 = 0;
        while i < graph_size
            invariant
                i <= graph_size,
                remaining_nodes@ == Seq::new(i as nat, |k: int| k as u8),
            decreases graph_size - i,
        {
            remaining_nodes.push(i);
            proof {
                assert(remaining_nodes@ =~= Seq::new((i + 1) as nat, |k: int| k as u8));
            }
            i = i + 1;
        }
        remaining_nodes.remove(start_node as usize);
        proof {
            assert(remaining_nodes@ =~= Self::spec_initial_remaining(start_node, graph_size));
        }
        let mut path: Vec<u8> = Vec::new();
        path.push(start_node);
        proof {
            assert(path@ =~= seq![start_node]);
        }
        Ant { path, total_cost: 0, current_node: start_node, remaining_nodes }
    }

    /// Step to `node` over an edge of length `distance`: the node is appended
    /// to the path, struck from the unvisited set, and the cost accumulates.
    pub fn move_to(&mut self, node: u8, distance: u64)
        requires
            old(self).remaining_nodes@.contains(node),
            old(self).total_cost + distance <= u64::MAX,
        ensures
            final(self).path@ == old(self).path@.push(node),
            final(self).total_cost == old(self).total_cost + distance,
            final(self).current_node == node,
            final(self).remaining_nodes@ == old(self).remaining_nodes@.remove_value(node),
    {
        self.path.push(node);
        self.total_cost = self.total_cost + distance;
        self.current_node = node;
        let ghost rem = self.remaining_nodes@;
        let mut index: usize = 0;
        while index < self.remaining_nodes.len() && self.remaining_nodes[index] != node
            invariant
                self.remaining_nodes@ == rem,
                0 <= index <= rem.len(),
                forall|k: int| 0 <= k < index ==> rem[k] != node,
                rem.contains(node),
            decreases rem.len() - index,
        {
            index = index + 1;
        }
        proof {
            if index >= rem.len() {
                let w = choose|w: int| 0 <= w < rem.len() && rem[w] == node;
                assert(rem[w] != node);
            }
            rem.index_of_first_ensures(node);
            let fi = rem.index_of_first(node).unwrap();
            assert(!(fi < index) && !(index < fi));
        }
        self.remaining_nodes.remove(index);
    }

    /// Close the tour: append the start node once more and pay the edge back.
    pub fn close_path(&mut self, start_node: u8, distance: u64)
        requires
            old(self).total_cost + distance <= u64::MAX,
        ensures
            final(self).path@ == old(self).path@.push(start_node),
            final(self).total_cost == old(self).total_cost + distance,
            final(self).current_node == old(self).current_node,
            final(self).remaining_nodes@ == old(self).remaining_nodes@,
    {
        self.path.push(start_node);
        self.total_cost = self.total_cost + distance;
    }
}

impl Clone for Ant {
    /// An ant's clone agrees with it field by field.
    fn clone(&self) -> (a: Ant)
        ensures
            a.path@ == self.path@,
            a.total_cost == self.total_cost,
            a.remaining_nodes@ == self.remaining_nodes@,
            a.current_node == self.current_node,
    {
        let mut path: Vec<u8> = Vec::new();
        let mut i: usize = 0;
        while i < self.path.len()
            invariant
                i <= self.path.len(),
                path@ == self.path@.take(i as int),
            decreases self.path.len() - i,
        {
            path.push(self.path[i]);
            proof {
                assert(path@ =~= self.path@.take(i + 1));
            }
            i = i + 1;
        }
        let mut remaining_nodes: Vec<u8> = Vec::new();
        let mut j: usize = 0;
        while j < self.remaining_nodes.len()
            invariant
                j <= self.remaining_nodes.len(),
                remaining_nodes@ == self.remaining_nodes@.take(j as int),
            decreases self.remaining_nodes.len() - j,
        {
            remaining_nodes.push(self.remaining_nodes[j]);
            proof {
                assert(remaining_nodes@ =~= self.remaining_nodes@.take(j + 1));
            }
            j = j + 1;
        }
        proof {
            assert(path@ =~= self.path@);
            assert(remaining_nodes@ =~= self.remaining_nodes@);
        }
        Ant {
            path,
            total_cost: self.total_cost,
            remaining_nodes,
            current_node: self.current_node,
        }
    }
}

} // verus!
