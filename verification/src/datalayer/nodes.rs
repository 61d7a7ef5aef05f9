use vstd::prelude::*;

verus! {

/// A node of the graph: the feature it stands for, and its out-edges with the
/// distance along each.
pub struct NsgNode {
    pub feature_index: u32,
    pub neighbors: Vec<u32>,
    pub neighbor_distances: Vec<u32>,
}

impl NsgNode {
    /// A node without edges.
    pub fn new_empty(feature_index: u32) -> (node: NsgNode)
        ensures
            node.feature_index == feature_index,
            node.neighbors@ == Seq::<u32>::empty(),
            node.neighbor_distances@ == Seq::<u32>::empty(),
    {
        NsgNode { feature_index, neighbors: Vec::new(), neighbor_distances: Vec::new() }
    }

    /// The targets of the out-edges.
    pub fn active_neighbors(&self) -> (r: &Vec<u32>)
        ensures
            r@ == self.neighbors@,
    {
        &self.neighbors
    }

    /// The out-degree.
    pub fn neighbor_count(&self) -> (r: usize)
        ensures
            r == self.neighbors@.len(),
    {
        self.neighbors.len()
    }
}

/// The out-edges of every node.
pub open spec fn adjacency(graph: Seq<NsgNode>) -> Seq<Seq<u32>> {
    Seq::new(graph.len(), |i: int| graph[i].neighbors@)
}

/// A graph on `n` nodes: every edge ends at one of them.
pub open spec fn graph_on(adj: Seq<Seq<u32>>, n: int) -> bool {
    &&& adj.len() == n
    &&& forall|i: int, k: int|
        0 <= i < adj.len() && 0 <= k < adj[i].len() ==> (#[trigger] adj[i][k]) < n
}

/// No node has two edges to one target.
pub open spec fn simple(adj: Seq<Seq<u32>>) -> bool {
    forall|i: int| 0 <= i < adj.len() ==> (#[trigger] adj[i]).no_duplicates()
}

} // verus!
