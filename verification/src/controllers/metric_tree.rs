use crate::controllers::vantage::{forest_candidates, forest_outcome};
use crate::datalayer::algorithms::{all_admitted, DistanceAlgorithm};
use crate::order::{ascending, below, lists_of};
use rand::rngs::StdRng;
use vstd::prelude::*;

verus! {

/// Randomized vantage-point trees that bootstrap the initial candidates of an
/// NN-descent.
pub struct MetricTreeInit<'a, D, ID> where D: DistanceAlgorithm<ID> + Default {
    features: &'a [ID],
    distance: D,
    n_trees: usize,
    leaf_size: usize,
}

impl<'a, D, ID> MetricTreeInit<'a, D, ID> where D: DistanceAlgorithm<ID> + Default {
    /// The points the trees are over.
    pub closed spec fn points_over(&self) -> Seq<ID> {
        self.features@
    }

    /// Number of trees.
    pub closed spec fn trees(&self) -> usize {
        self.n_trees
    }

    /// Greatest number of points in a leaf.
    pub closed spec fn leaf_cap(&self) -> usize {
        self.leaf_size
    }

    /// At least one tree, and leaves of at least two points, so that a split
    /// leaves neither half empty.
    pub open spec fn wf(&self) -> bool {
        self.trees() >= 1 && self.leaf_cap() >= 2
    }

    /// Trees over `features`: at least one, with leaves of at least two points.
    pub fn new(features: &'a [ID], n_trees: usize, leaf_size: usize) -> (r: Self)
        ensures
            r.wf(),
            r.points_over() == features@,
            r.trees() == if n_trees < 1 {
                1
            } else {
                n_trees
            },
            r.leaf_cap() == if leaf_size < 2 {
                2
            } else {
                leaf_size
            },
    {
        MetricTreeInit {
            features,
            distance: D::default(),
            n_trees: if n_trees < 1 {
                1
            } else {
                n_trees
            },
            leaf_size: if leaf_size < 2 {
                2
            } else {
                leaf_size
            },
        }
    }

    /// For every point, ascending, the points that shared a leaf with it in at
    /// least one tree.
    pub fn candidate_neighbors(&self, rng: &mut StdRng) -> (candidates: Vec<Vec<usize>>)
        requires
            self.wf(),
            all_admitted::<D, ID>(self.points_over()),
        ensures
            candidates@.len() == self.points_over().len(),
            self.points_over().len() > 0 ==> exists|trees: Seq<Seq<Seq<usize>>>| #[trigger]
                forest_outcome::<D, ID>(
                    self.points_over(),
                    self.trees() as int,
                    self.leaf_cap() as int,
                    trees,
                    lists_of(candidates@),
                ),
            forall|p: int|
                0 <= p < self.points_over().len() ==> {
                    &&& ascending((#[trigger] candidates@[p])@)
                    &&& below(candidates@[p]@, self.points_over().len() as int)
                    &&& !candidates@[p]@.contains(p as usize)
                },
    {
        forest_candidates(self.features, &self.distance, self.n_trees, self.leaf_size, rng)
    }
}

} // verus!
