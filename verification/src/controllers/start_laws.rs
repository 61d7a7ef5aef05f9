//! What the starts of an NN-descent are for: which nodes a node knows at first.

use crate::controllers::neighborhood::{Hood, NndParams};
use crate::controllers::nndescent::{
    fresh_nodes, random_hood, random_start, topped, tree_hood, tree_start, untouched,
};
use crate::controllers::renew::cut;
use crate::controllers::search::{greater, lesser};
use crate::controllers::vantage::{
    forest_mates, forest_outcome, lemma_leaves_partition, mates, scored, vp_halves, vp_leaves,
    vp_tree,
};
use crate::datalayer::algorithms::DistanceAlgorithm;
use crate::order::{
    by_distance, distinct, lemma_insert_sorted, lemma_rank, lemma_same_entries, lemma_same_items,
    lemma_same_points, permutation, points, rank, same_items, unmarked, Entry,
};
use vstd::prelude::*;

verus! {

// ---------------------------------------------------------------------------
// Vantage-point trees
// ---------------------------------------------------------------------------

/// A group above the leaf size falls in two halves by the distance from one of its
/// points: the one half, rounded down, holds none that is farther than one of the
/// other. Each half goes on by itself.
pub proof fn lemma_group_splits<D: DistanceAlgorithm<ID>, ID>(
    features: Seq<ID>,
    leaf_size: int,
    indices: Seq<usize>,
    leaves: Seq<Seq<usize>>,
) -> (w: (usize, Seq<usize>, Seq<usize>, int))
    requires
        vp_leaves::<D, ID>(features, leaf_size, indices, leaves),
        indices.len() > leaf_size,
        indices.len() >= 2,
    ensures
        ({
            let (pivot, near, far, c) = w;
            &&& indices.contains(pivot)
            &&& near.len() == indices.len() / 2
            &&& near.len() + far.len() == indices.len()
            &&& (near + far).to_multiset() =~= indices.to_multiset()
            &&& forall|i: int, j: int|
                0 <= i < near.len() && 0 <= j < far.len() ==> D::distance(
                    features[pivot as int],
                    features[#[trigger] near[i] as int],
                ) <= D::distance(features[pivot as int], features[#[trigger] far[j] as int])
            &&& 0 <= c <= leaves.len()
            &&& vp_leaves::<D, ID>(features, leaf_size, near, leaves.take(c))
            &&& vp_leaves::<D, ID>(features, leaf_size, far, leaves.skip(c))
        }),
{
    let half = (indices.len() / 2) as int;
    let (pivot, ordered, c) = choose|pivot: usize, ordered: Seq<Entry>, c: int|
        {
            &&& #[trigger] vp_halves::<D, ID>(features, indices, leaves, pivot, ordered, c)
            &&& points(ordered).len() == indices.len()
            &&& vp_leaves::<D, ID>(
                features,
                leaf_size,
                points(ordered).take(half),
                leaves.take(c),
            )
            &&& vp_leaves::<D, ID>(
                features,
                leaf_size,
                points(ordered).skip(half),
                leaves.skip(c),
            )
        };
    let raw = scored::<D, ID>(features, pivot, indices);
    let near = points(ordered).take(half);
    let far = points(ordered).skip(half);
    lemma_same_points(raw, ordered);
    lemma_same_entries(raw, ordered);
    assert(points(raw) =~= indices);
    assert(near + far =~= points(ordered));
    assert forall|k: int| 0 <= k < ordered.len() implies (#[trigger] ordered[k]).1 == D::distance(
        features[pivot as int],
        features[ordered[k].0 as int],
    ) by {
        assert(ordered.contains(ordered[k]));
        assert(raw.contains(ordered[k]));
        let q = choose|q: int| 0 <= q < raw.len() && raw[q] == ordered[k];
    }
    assert forall|i: int, j: int|
        0 <= i < near.len() && 0 <= j < far.len() implies D::distance(
        features[pivot as int],
        features[#[trigger] near[i] as int],
    ) <= D::distance(features[pivot as int], features[#[trigger] far[j] as int]) by {
        assert(near[i] == ordered[i].0);
        assert(far[j] == ordered[half + j].0);
        assert(ordered[i].1 <= ordered[half + j].1);
    }
    (pivot, near, far, c)
}

/// No group is split that fits a leaf: where there are more points than the leaf
/// size, every leaf holds half of it at least.
pub proof fn lemma_leaves_half_full<D: DistanceAlgorithm<ID>, ID>(
    features: Seq<ID>,
    leaf_size: int,
    indices: Seq<usize>,
    leaves: Seq<Seq<usize>>,
    l: int,
)
    requires
        leaf_size >= 1,
        vp_leaves::<D, ID>(features, leaf_size, indices, leaves),
        indices.len() >= (leaf_size + 1) / 2,
        0 <= l < leaves.len(),
    ensures
        leaves[l].len() >= (leaf_size + 1) / 2,
    decreases indices.len(),
{
    if indices.len() > leaf_size && indices.len() >= 2 {
        let (pivot, near, far, c) = lemma_group_splits::<D, ID>(
            features,
            leaf_size,
            indices,
            leaves,
        );
        if l < c {
            lemma_leaves_half_full::<D, ID>(features, leaf_size, near, leaves.take(c), l);
        } else {
            lemma_leaves_half_full::<D, ID>(features, leaf_size, far, leaves.skip(c), l - c);
        }
    }
}

/// Every tree of a forest has every point in one leaf, and leaves of the leaf size
/// at most; and the candidates of a point are those others that share a leaf with
/// it in one of the trees, each once.
pub proof fn lemma_forest_rule<D: DistanceAlgorithm<ID>, ID>(
    features: Seq<ID>,
    n_trees: int,
    leaf_size: int,
    trees: Seq<Seq<Seq<usize>>>,
    candidates: Seq<Seq<usize>>,
)
    requires
        forest_outcome::<D, ID>(features, n_trees, leaf_size, trees, candidates),
        features.len() <= usize::MAX,
        leaf_size >= 2,
    ensures
        trees.len() == n_trees,
        candidates.len() == features.len(),
        forall|t: int|
            0 <= t < n_trees && features.len() > 0 ==> permutation(
                (#[trigger] trees[t]).flatten(),
                features.len() as int,
            ),
        forall|t: int, i: int|
            0 <= t < n_trees && features.len() > 0 && 0 <= i < trees[t].len() ==> 0 < (
            #[trigger] trees[t][i]).len() <= leaf_size,
        forall|p: int, i: int, j: int|
            0 <= p < candidates.len() && 0 <= i < j < candidates[p].len() ==> (
            #[trigger] candidates[p][i]) < (#[trigger] candidates[p][j]),
        forall|t: int, i: int, p: int, q: usize|
            #![trigger trees[t][i].contains(q), candidates[p]]
            0 <= t < n_trees && 0 <= i < trees[t].len() && 0 <= p < features.len()
                && trees[t][i].contains(p as usize) && trees[t][i].contains(q) && p != q
                ==> candidates[p].contains(q),
        forall|p: int, q: usize|
            0 <= p < features.len() && #[trigger] candidates[p].contains(q) ==> p != q && exists|
                t: int,
                i: int,
            |
                0 <= t < n_trees && 0 <= i < trees[t].len() && (#[trigger] trees[t][i]).contains(
                    p as usize,
                ) && trees[t][i].contains(q),
{
    let n = features.len() as int;
    assert forall|t: int| 0 <= t < n_trees && n > 0 implies permutation(
        (#[trigger] trees[t]).flatten(),
        n,
    ) && forall|i: int|
        0 <= i < trees[t].len() ==> 0 < (#[trigger] trees[t][i]).len() <= leaf_size by {
        assert(vp_tree::<D, ID>(features, leaf_size, trees[t]));
        let order = choose|order: Seq<usize>|
            #[trigger] permutation(order, n) && vp_leaves::<D, ID>(
                features,
                leaf_size,
                order,
                trees[t],
            );
        lemma_leaves_partition::<D, ID>(features, leaf_size, order, trees[t]);
        lemma_same_items(order, trees[t].flatten());
        let flat = trees[t].flatten();
        assert forall|i: int| 0 <= i < flat.len() implies (#[trigger] flat[i]) < n by {
            assert(flat.contains(flat[i]));
            assert(order.contains(flat[i]));
        }
    }
    assert forall|t: int, i: int, p: int, q: usize|
        #![trigger trees[t][i].contains(q), candidates[p]]
        0 <= t < n_trees && 0 <= i < trees[t].len() && 0 <= p < n && trees[t][i].contains(
            p as usize,
        ) && trees[t][i].contains(q) && p != q implies candidates[p].contains(q) by {
        assert(mates(trees[t], p as usize, q));
        assert(forest_mates(trees, p as usize, q));
    }
    assert forall|p: int, q: usize|
        0 <= p < n && #[trigger] candidates[p].contains(q) implies p != q && exists|
        t: int,
        i: int,
    |
        0 <= t < n_trees && 0 <= i < trees[t].len() && (#[trigger] trees[t][i]).contains(
            p as usize,
        ) && trees[t][i].contains(q) by {
        assert(forest_mates(trees, p as usize, q));
        let t = choose|t: int| 0 <= t < trees.len() && mates(#[trigger] trees[t], p as usize, q);
        let i = choose|i: int|
            0 <= i < trees[t].len() && (#[trigger] trees[t][i]).contains(p as usize)
                && trees[t][i].contains(q);
        assert(trees[t][i].contains(p as usize));
    }
}

// ---------------------------------------------------------------------------
// Starts
// ---------------------------------------------------------------------------

/// At a random start a node knows `s` others, each once, with its distance and the
/// nearer first; all of them are yet to be compared, and nothing else.
pub proof fn lemma_random_start_rule<D: DistanceAlgorithm<ID>, ID>(
    features: Seq<ID>,
    s: int,
    hs: Seq<Hood>,
    x: int,
)
    requires
        random_start::<D, ID>(features, s, hs),
        0 <= x < features.len() <= usize::MAX,
    ensures
        hs.len() == features.len(),
        hs[x].pool.len() == s,
        hs[x].nn_new.len() == s,
        hs[x].nn_old.len() == 0,
        forall|i: int|
            0 <= i < s ==> {
                let e = #[trigger] hs[x].pool[i];
                &&& e.0 < features.len()
                &&& e.0 != x
                &&& e.1 == D::distance(features[x], features[e.0 as int])
                &&& e.2
                &&& hs[x].nn_new.contains(e.0)
            },
        forall|i: int, j: int|
            0 <= i < j < s ==> {
                &&& (#[trigger] hs[x].pool[i]).0 != (#[trigger] hs[x].pool[j]).0
                &&& hs[x].pool[i].1 <= hs[x].pool[j].1
            },
{
    let h = hs[x];
    assert(random_hood::<D, ID>(features, s, x, h));
    let raw = scored::<D, ID>(features, x as usize, h.nn_new);
    let u = unmarked(h.pool);
    lemma_same_entries(raw, u);
    assert(distinct(raw));
    assert forall|i: int| 0 <= i < s implies {
        let e = #[trigger] hs[x].pool[i];
        &&& e.0 < features.len()
        &&& e.0 != x
        &&& e.1 == D::distance(features[x], features[e.0 as int])
        &&& e.2
        &&& hs[x].nn_new.contains(e.0)
    } by {
        assert(u.contains(u[i]));
        assert(raw.contains(u[i]));
        let k = choose|k: int| 0 <= k < raw.len() && raw[k] == u[i];
        assert(h.nn_new[k] == u[i].0);
    }
    assert forall|i: int, j: int| 0 <= i < j < s implies {
        &&& (#[trigger] hs[x].pool[i]).0 != (#[trigger] hs[x].pool[j]).0
        &&& hs[x].pool[i].1 <= hs[x].pool[j].1
    } by {
        assert(u[i].0 != u[j].0);
        assert(u[i].1 <= u[j].1);
    }
}

/// What topping up keeps and adds.
proof fn lemma_topped<D: DistanceAlgorithm<ID>, ID>(
    features: Seq<ID>,
    x: int,
    list: Seq<Entry>,
    extra: Seq<usize>,
)
    requires
        by_distance(list),
    ensures
        ({
            let more = topped::<D, ID>(features, x, list, extra);
            &&& by_distance(more)
            &&& more.len() == list.len() + extra.len()
            &&& forall|k: int| 0 <= k < list.len() ==> (#[trigger] more[k]).1 <= list[k].1
            &&& forall|k: int| 0 <= k < list.len() ==> more.contains(#[trigger] list[k])
            &&& forall|k: int|
                0 <= k < more.len() ==> list.contains(#[trigger] more[k]) || (extra.contains(
                    more[k].0,
                ) && more[k].1 == D::distance(features[x], features[more[k].0 as int]))
        }),
    decreases extra.len(),
{
    if extra.len() == 0 {
        assert forall|k: int| 0 <= k < list.len() implies list.contains(#[trigger] list[k]) by {}
    } else {
        let shorter = extra.drop_last();
        lemma_topped::<D, ID>(features, x, list, shorter);
        let before = topped::<D, ID>(features, x, list, shorter);
        let more = topped::<D, ID>(features, x, list, extra);
        let d = D::distance(features[x], features[extra.last() as int]);
        let r = rank(before, d);
        let e = (extra.last(), d);
        lemma_rank(before, d);
        lemma_insert_sorted(before, e);
        assert(more == before.insert(r, e));
        assert forall|k: int| 0 <= k < list.len() implies (#[trigger] more[k]).1 <= list[k].1 by {
            assert(before[k].1 <= list[k].1);
            if k < r {
                assert(more[k] == before[k]);
            } else if k > r {
                assert(more[k] == before[k - 1]);
                assert(before[k - 1].1 <= before[k].1);
            } else {
                assert(before[r].1 > d);
            }
        }
        assert forall|k: int| 0 <= k < list.len() implies more.contains(#[trigger] list[k]) by {
            assert(before.contains(list[k]));
            let q = choose|q: int| 0 <= q < before.len() && before[q] == list[k];
            if q < r {
                assert(more[q] == list[k]);
            } else {
                assert(more[q + 1] == list[k]);
            }
        }
        assert forall|k: int| 0 <= k < more.len() implies list.contains(#[trigger] more[k]) || (
        extra.contains(more[k].0) && more[k].1 == D::distance(
            features[x],
            features[more[k].0 as int],
        )) by {
            if k == r {
                assert(extra[extra.len() - 1] == more[k].0);
            } else {
                let q = if k < r {
                    k
                } else {
                    k - 1
                };
                assert(more[k] == before[q]);
                if !list.contains(before[q]) {
                    let i = choose|i: int| 0 <= i < shorter.len() && shorter[i] == before[q].0;
                    assert(extra[i] == more[k].0);
                }
            }
        }
    }
}

/// At a start from trees a node knows those that share a leaf with it, as far as
/// `l` goes, and none that is left out is nearer; and where these are fewer than `s`,
/// others up to `s`. Each stands with its distance, the nearer first, and is yet to
/// be compared; the nearest `s` come first.
pub proof fn lemma_tree_start_rule<D: DistanceAlgorithm<ID>, ID>(
    features: Seq<ID>,
    params: NndParams,
    n_trees: int,
    leaf_size: int,
    hs: Seq<Hood>,
    x: int,
) -> (w: (Seq<Seq<Seq<usize>>>, Seq<Seq<usize>>))
    requires
        tree_start::<D, ID>(features, params, n_trees, leaf_size, hs),
        0 <= x < features.len() <= usize::MAX,
    ensures
        forest_outcome::<D, ID>(features, n_trees, leaf_size, w.0, w.1),
        hs.len() == features.len(),
        hs[x].pool.len() >= params.s || hs[x].pool.len() >= features.len() - 1,
        hs[x].pool.len() >= params.l || hs[x].pool.len() >= w.1[x].len(),
        hs[x].pool.len() == params.s || hs[x].pool.len() == features.len() - 1 || (
        hs[x].pool.len() <= params.l && forall|i: int|
            0 <= i < hs[x].pool.len() ==> w.1[x].contains((#[trigger] hs[x].pool[i]).0)),
        forall|i: int|
            0 <= i < hs[x].pool.len() ==> {
                let e = #[trigger] hs[x].pool[i];
                &&& e.0 < features.len()
                &&& e.0 != x
                &&& e.1 == D::distance(features[x], features[e.0 as int])
                &&& e.2
            },
        forall|i: int, j: int|
            0 <= i < j < hs[x].pool.len() ==> (#[trigger] hs[x].pool[i]).1 <= (
            #[trigger] hs[x].pool[j]).1,
        forall|y: usize|
            #[trigger] w.1[x].contains(y) ==> {
                ||| exists|i: int| 0 <= i < hs[x].pool.len() && (#[trigger] hs[x].pool[i]).0 == y
                ||| hs[x].pool.len() >= params.l && forall|k: int|
                    0 <= k < params.l ==> (#[trigger] hs[x].pool[k]).1 <= D::distance(
                        features[x],
                        features[y as int],
                    )
            },
        hs[x].nn_old.len() == 0,
        hs[x].nn_new.len() == params.s || (hs[x].nn_new.len() == hs[x].pool.len()
            && hs[x].pool.len() <= params.s),
        hs[x].nn_new.len() <= hs[x].pool.len(),
        forall|i: int|
            0 <= i < hs[x].nn_new.len() ==> (#[trigger] hs[x].nn_new[i]) == hs[x].pool[i].0,
{
    let (trees, candidates) = choose|trees: Seq<Seq<Seq<usize>>>, candidates: Seq<Seq<usize>>|
        {
            &&& #[trigger] forest_outcome::<D, ID>(
                features,
                n_trees,
                leaf_size,
                trees,
                candidates,
            )
            &&& forall|x: int|
                0 <= x < hs.len() ==> tree_hood::<D, ID>(
                    features,
                    params,
                    x,
                    candidates[x],
                    #[trigger] hs[x],
                )
        };
    let h = hs[x];
    assert(tree_hood::<D, ID>(features, params, x, candidates[x], h));
    assert(forall|q: usize| #[trigger] candidates[x].contains(q) ==> q != x) by {
        assert forall|q: usize| #[trigger] candidates[x].contains(q) implies q != x by {
            assert(forest_mates(trees, x as usize, q));
        }
    }
    assert(forall|q: usize| #[trigger] candidates[x].contains(q) ==> q < features.len()) by {
        assert forall|q: usize| #[trigger] candidates[x].contains(q) implies q
            < features.len() by {
            lemma_candidate_below::<D, ID>(features, n_trees, leaf_size, trees, candidates, x, q);
        }
    }
    lemma_tree_hood_rule::<D, ID>(features, params, x, candidates[x], h);
    (trees, candidates)
}

/// Candidates are points.
proof fn lemma_candidate_below<D: DistanceAlgorithm<ID>, ID>(
    features: Seq<ID>,
    n_trees: int,
    leaf_size: int,
    trees: Seq<Seq<Seq<usize>>>,
    candidates: Seq<Seq<usize>>,
    p: int,
    q: usize,
)
    requires
        forest_outcome::<D, ID>(features, n_trees, leaf_size, trees, candidates),
        0 <= p < features.len() <= usize::MAX,
        candidates[p].contains(q),
    ensures
        q < features.len(),
{
    let n = features.len() as int;
    assert(forest_mates(trees, p as usize, q));
    let t = choose|t: int| 0 <= t < trees.len() && mates(#[trigger] trees[t], p as usize, q);
    let i = choose|i: int|
        0 <= i < trees[t].len() && (#[trigger] trees[t][i]).contains(p as usize)
            && trees[t][i].contains(q);
    assert(vp_tree::<D, ID>(features, leaf_size, trees[t]));
    let order = choose|order: Seq<usize>|
        #[trigger] permutation(order, n) && vp_leaves::<D, ID>(
            features,
            leaf_size,
            order,
            trees[t],
        );
    lemma_leaf_within::<D, ID>(features, leaf_size, order, trees[t], i, q);
    assert(order.contains(q));
}

/// What is in a leaf is in the group.
proof fn lemma_leaf_within<D: DistanceAlgorithm<ID>, ID>(
    features: Seq<ID>,
    leaf_size: int,
    indices: Seq<usize>,
    leaves: Seq<Seq<usize>>,
    i: int,
    q: usize,
)
    requires
        vp_leaves::<D, ID>(features, leaf_size, indices, leaves),
        0 <= i < leaves.len(),
        leaves[i].contains(q),
    ensures
        indices.contains(q),
    decreases indices.len(),
{
    if indices.len() > leaf_size && indices.len() >= 2 {
        let (pivot, near, far, c) = lemma_group_splits::<D, ID>(
            features,
            leaf_size,
            indices,
            leaves,
        );
        let both = near + far;
        if i < c {
            lemma_leaf_within::<D, ID>(features, leaf_size, near, leaves.take(c), i, q);
            let k = choose|k: int| 0 <= k < near.len() && near[k] == q;
            assert(both[k] == q);
        } else {
            lemma_leaf_within::<D, ID>(features, leaf_size, far, leaves.skip(c), i - c, q);
            let k = choose|k: int| 0 <= k < far.len() && far[k] == q;
            assert(both[near.len() + k] == q);
        }
        assert(same_items(both, indices));
        lemma_same_items(both, indices);
    }
}

/// The neighbourhood of one node.
proof fn lemma_tree_hood_rule<D: DistanceAlgorithm<ID>, ID>(
    features: Seq<ID>,
    params: NndParams,
    x: int,
    candidates: Seq<usize>,
    h: Hood,
)
    requires
        tree_hood::<D, ID>(features, params, x, candidates, h),
        0 <= x < features.len() <= usize::MAX,
        forall|q: usize| #[trigger] candidates.contains(q) ==> q != x,
        forall|q: usize| #[trigger] candidates.contains(q) ==> q < features.len(),
    ensures
        ({
            let most = features.len() - 1;
            let want = if params.s < most {
                params.s as int
            } else {
                most
            };
            &&& h.pool.len() >= want
            &&& h.pool.len() >= if candidates.len() < params.l {
                candidates.len() as int
            } else {
                params.l as int
            }
            &&& h.pool.len() == want || (h.pool.len() <= params.l && forall|i: int|
                0 <= i < h.pool.len() ==> candidates.contains((#[trigger] h.pool[i]).0))
            &&& forall|i: int|
                0 <= i < h.pool.len() ==> {
                    let e = #[trigger] h.pool[i];
                    &&& e.0 < features.len()
                    &&& e.0 != x
                    &&& e.1 == D::distance(features[x], features[e.0 as int])
                    &&& e.2
                }
            &&& forall|i: int, j: int|
                0 <= i < j < h.pool.len() ==> (#[trigger] h.pool[i]).1 <= (#[trigger] h.pool[j]).1
            &&& forall|y: usize|
                #[trigger] candidates.contains(y) ==> {
                    ||| exists|i: int| 0 <= i < h.pool.len() && (#[trigger] h.pool[i]).0 == y
                    ||| h.pool.len() >= params.l && forall|k: int|
                        0 <= k < params.l ==> (#[trigger] h.pool[k]).1 <= D::distance(
                            features[x],
                            features[y as int],
                        )
                }
            &&& h.nn_old.len() == 0
            &&& h.nn_new.len() == if h.pool.len() < params.s {
                h.pool.len() as int
            } else {
                params.s as int
            }
            &&& forall|i: int|
                0 <= i < h.nn_new.len() ==> (#[trigger] h.nn_new[i]) == h.pool[i].0
        }),
{
    let n = features.len() as int;
    let l = params.l as int;
    let want = lesser(params.s as int, n - 1);
    let raw = scored::<D, ID>(features, x as usize, candidates);
    let (sorted, extra) = choose|sorted: Seq<Entry>, extra: Seq<usize>|
        {
            &&& #[trigger] same_items(raw, sorted)
            &&& by_distance(sorted)
            &&& #[trigger] fresh_nodes(cut(sorted, l), x, extra, n)
            &&& extra.len() == greater(want - cut(sorted, l).len(), 0)
            &&& unmarked(h.pool) == topped::<D, ID>(features, x, cut(sorted, l), extra)
            &&& h.nn_new == cut(points(unmarked(h.pool)), params.s as int)
            &&& untouched(h)
        };
    let first = cut(sorted, l);
    let u = unmarked(h.pool);
    lemma_same_entries(raw, sorted);
    lemma_topped::<D, ID>(features, x, first, extra);
    assert forall|k: int| 0 <= k < first.len() implies {
        let e = #[trigger] first[k];
        &&& candidates.contains(e.0)
        &&& e.1 == D::distance(features[x], features[e.0 as int])
    } by {
        assert(first[k] == sorted[k]);
        assert(sorted.contains(sorted[k]));
        assert(raw.contains(sorted[k]));
        let q = choose|q: int| 0 <= q < raw.len() && raw[q] == sorted[k];
        assert(candidates[q] == sorted[k].0);
    }
    assert forall|i: int| 0 <= i < h.pool.len() implies {
        let e = #[trigger] h.pool[i];
        &&& e.0 < features.len()
        &&& e.0 != x
        &&& e.1 == D::distance(features[x], features[e.0 as int])
        &&& e.2
        &&& extra.len() == 0 ==> candidates.contains(e.0)
    } by {
        let e = u[i];
        if first.contains(e) {
            let k = choose|k: int| 0 <= k < first.len() && first[k] == e;
            assert(candidates.contains(first[k].0));
        } else {
            assert(extra.contains(e.0));
            let k = choose|k: int| 0 <= k < extra.len() && extra[k] == e.0;
        }
    }
    assert forall|i: int, j: int| 0 <= i < j < h.pool.len() implies (#[trigger] h.pool[i]).1 <= (
    #[trigger] h.pool[j]).1 by {
        assert(u[i].1 <= u[j].1);
    }
    assert forall|y: usize| #[trigger] candidates.contains(y) implies {
        ||| exists|i: int| 0 <= i < h.pool.len() && (#[trigger] h.pool[i]).0 == y
        ||| h.pool.len() >= params.l && forall|k: int|
            0 <= k < params.l ==> (#[trigger] h.pool[k]).1 <= D::distance(
                features[x],
                features[y as int],
            )
    } by {
        let c = choose|c: int| 0 <= c < candidates.len() && candidates[c] == y;
        assert(raw[c].0 == y);
        assert(raw.contains(raw[c]));
        assert(sorted.contains(raw[c]));
        let i = choose|i: int| 0 <= i < sorted.len() && sorted[i] == raw[c];
        if i < first.len() {
            assert(first[i] == raw[c]);
            assert(u.contains(first[i]));
            let k = choose|k: int| 0 <= k < u.len() && u[k] == first[i];
            assert(h.pool[k].0 == y);
        } else {
            assert forall|k: int| 0 <= k < params.l implies (#[trigger] h.pool[k]).1
                <= D::distance(features[x], features[y as int]) by {
                assert(u[k].1 <= first[k].1);
                assert(sorted[k].1 <= sorted[i].1);
            }
        }
    }
    assert(points(u).len() == h.pool.len());
    assert forall|i: int| 0 <= i < h.nn_new.len() implies (#[trigger] h.nn_new[i])
        == h.pool[i].0 by {
        assert(h.nn_new[i] == points(u)[i]);
    }
}

} // verus!
