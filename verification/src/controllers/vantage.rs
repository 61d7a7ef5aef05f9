//! Vantage-point trees: splitting points by their distance to a random one of
//! them until the groups are small.

use crate::datalayer::algorithms::{all_admitted, DistanceAlgorithm};
use crate::order::{
    ascending, below, by_distance, lemma_ascending_same, lemma_same_items, lemma_same_points,
    lists_of, permutation, points, same_items, sort_by_distance, sort_once, Entry,
};
use crate::random::random_index;
use rand::rngs::StdRng;
use vstd::prelude::*;

verus! {

// ---------------------------------------------------------------------------
// What a tree comes to
// ---------------------------------------------------------------------------

/// The points of `indices`, each with its distance from `pivot`.
pub open spec fn scored<D: DistanceAlgorithm<ID>, ID>(
    features: Seq<ID>,
    pivot: usize,
    indices: Seq<usize>,
) -> Seq<Entry> {
    Seq::new(
        indices.len(),
        |i: int|
            (indices[i], D::distance(features[pivot as int], features[indices[i] as int])),
    )
}

/// `ordered` holds `indices` from nearest to farthest from `pivot`, which is one
/// of them.
pub open spec fn vp_ordered<D: DistanceAlgorithm<ID>, ID>(
    features: Seq<ID>,
    indices: Seq<usize>,
    pivot: usize,
    ordered: Seq<Entry>,
) -> bool {
    &&& indices.contains(pivot)
    &&& same_items(scored::<D, ID>(features, pivot, indices), ordered)
    &&& by_distance(ordered)
}

/// `leaves` falls in two at `c`: what comes of the nearer half of `indices`,
/// and what comes of the farther half.
pub open spec fn vp_halves<D: DistanceAlgorithm<ID>, ID>(
    features: Seq<ID>,
    indices: Seq<usize>,
    leaves: Seq<Seq<usize>>,
    pivot: usize,
    ordered: Seq<Entry>,
    c: int,
) -> bool {
    &&& vp_ordered::<D, ID>(features, indices, pivot, ordered)
    &&& 0 <= c <= leaves.len()
}

/// `leaves` are the leaves of a vantage-point tree over `indices`: a group of at
/// most `leaf_size` is a leaf; a greater one is split at the median of the
/// distances to one of its points.
pub open spec fn vp_leaves<D: DistanceAlgorithm<ID>, ID>(
    features: Seq<ID>,
    leaf_size: int,
    indices: Seq<usize>,
    leaves: Seq<Seq<usize>>,
) -> bool
    decreases indices.len(),
{
    if indices.len() <= leaf_size || indices.len() < 2 {
        leaves == seq![indices]
    } else {
        let half = (indices.len() / 2) as int;
        exists|pivot: usize, ordered: Seq<Entry>, c: int|
            {
                &&& #[trigger] vp_halves::<D, ID>(features, indices, leaves, pivot, ordered, c)
                &&& points(ordered).len() == indices.len()
                &&& vp_leaves::<D, ID>(
                    features,
                    leaf_size,
                    points(ordered).take(half),
                    leaves.take(c),
                )
                &&& vp_leaves::<D, ID>(
                    features,
                    leaf_size,
                    points(ordered).skip(half),
                    leaves.skip(c),
                )
            }
    }
}

/// Two different points share a leaf.
pub open spec fn mates(leaves: Seq<Seq<usize>>, p: usize, q: usize) -> bool {
    &&& p != q
    &&& exists|l: int|
        0 <= l < leaves.len() && (#[trigger] leaves[l]).contains(p) && leaves[l].contains(q)
}

/// `leaves` are the leaves of a tree over all points, in some order.
pub open spec fn vp_tree<D: DistanceAlgorithm<ID>, ID>(
    features: Seq<ID>,
    leaf_size: int,
    leaves: Seq<Seq<usize>>,
) -> bool {
    exists|order: Seq<usize>|
        #[trigger] permutation(order, features.len() as int) && vp_leaves::<D, ID>(
            features,
            leaf_size,
            order,
            leaves,
        )
}

/// Two points share a leaf in one of the trees.
pub open spec fn forest_mates(trees: Seq<Seq<Seq<usize>>>, p: usize, q: usize) -> bool {
    exists|t: int| 0 <= t < trees.len() && mates(#[trigger] trees[t], p, q)
}

/// What a forest of `n_trees` comes to: for every point, ascending, the points
/// that shared a leaf with it in at least one tree.
pub open spec fn forest_outcome<D: DistanceAlgorithm<ID>, ID>(
    features: Seq<ID>,
    n_trees: int,
    leaf_size: int,
    trees: Seq<Seq<Seq<usize>>>,
    candidates: Seq<Seq<usize>>,
) -> bool {
    &&& trees.len() == n_trees
    &&& forall|t: int|
        0 <= t < trees.len() ==> vp_tree::<D, ID>(features, leaf_size, #[trigger] trees[t])
    &&& candidates.len() == features.len()
    &&& forall|p: int| 0 <= p < candidates.len() ==> ascending(#[trigger] candidates[p])
    &&& forall|p: int, q: usize|
        0 <= p < candidates.len() ==> (#[trigger] candidates[p].contains(q) <==> forest_mates(
            trees,
            p as usize,
            q,
        ))
}

// ---------------------------------------------------------------------------
// Laws
// ---------------------------------------------------------------------------

proof fn lemma_flatten_add(a: Seq<Seq<usize>>, b: Seq<Seq<usize>>)
    ensures
        (a + b).flatten() == a.flatten() + b.flatten(),
    decreases a.len(),
{
    if a.len() == 0 {
        assert(a + b =~= b);
        assert(a.flatten() + b.flatten() =~= b.flatten());
    } else {
        lemma_flatten_add(a.drop_first(), b);
        assert((a + b).drop_first() =~= a.drop_first() + b);
        assert((a + b).first() == a.first());
        assert((a + b).flatten() =~= a.flatten() + b.flatten());
    }
}

/// The leaves of a tree hold every point of the tree as often as the tree does,
/// and no leaf is empty or above the leaf size.
pub proof fn lemma_leaves_partition<D: DistanceAlgorithm<ID>, ID>(
    features: Seq<ID>,
    leaf_size: int,
    indices: Seq<usize>,
    leaves: Seq<Seq<usize>>,
)
    requires
        leaf_size >= 2,
        indices.len() > 0,
        vp_leaves::<D, ID>(features, leaf_size, indices, leaves),
    ensures
        same_items(indices, leaves.flatten()),
        forall|l: int| 0 <= l < leaves.len() ==> 0 < (#[trigger] leaves[l]).len() <= leaf_size,
    decreases indices.len(),
{
    if indices.len() <= leaf_size {
        leaves.lemma_flatten_one_element();
        assert(leaves.first() == indices);
    } else {
        let half = (indices.len() / 2) as int;
        let (pivot, ordered, c) = choose|pivot: usize, ordered: Seq<Entry>, c: int|
            {
                &&& #[trigger] vp_halves::<D, ID>(features, indices, leaves, pivot, ordered, c)
                &&& points(ordered).len() == indices.len()
                &&& vp_leaves::<D, ID>(
                    features,
                    leaf_size,
                    points(ordered).take(half),
                    leaves.take(c),
                )
                &&& vp_leaves::<D, ID>(
                    features,
                    leaf_size,
                    points(ordered).skip(half),
                    leaves.skip(c),
                )
            };
        let near = points(ordered).take(half);
        let far = points(ordered).skip(half);
        lemma_leaves_partition::<D, ID>(features, leaf_size, near, leaves.take(c));
        lemma_leaves_partition::<D, ID>(features, leaf_size, far, leaves.skip(c));
        lemma_flatten_add(leaves.take(c), leaves.skip(c));
        assert(leaves.take(c) + leaves.skip(c) =~= leaves);
        lemma_same_points(scored::<D, ID>(features, pivot, indices), ordered);
        assert(points(scored::<D, ID>(features, pivot, indices)) =~= indices);
        assert(near + far =~= points(ordered));
        vstd::seq_lib::lemma_multiset_commutative(near, far);
        vstd::seq_lib::lemma_multiset_commutative(
            leaves.take(c).flatten(),
            leaves.skip(c).flatten(),
        );
        assert(same_items(indices, leaves.flatten()));
        assert forall|l: int| 0 <= l < leaves.len() implies 0 < (#[trigger] leaves[l]).len()
            <= leaf_size by {
            if l < c {
                assert(leaves.take(c)[l] == leaves[l]);
            } else {
                assert(leaves.skip(c)[l - c] == leaves[l]);
            }
        }
    }
}

/// Candidacy is mutual.
pub proof fn lemma_candidates_mutual<D: DistanceAlgorithm<ID>, ID>(
    features: Seq<ID>,
    n_trees: int,
    leaf_size: int,
    trees: Seq<Seq<Seq<usize>>>,
    candidates: Seq<Seq<usize>>,
    p: int,
    q: int,
)
    requires
        forest_outcome::<D, ID>(features, n_trees, leaf_size, trees, candidates),
        features.len() <= usize::MAX,
        0 <= p < features.len(),
        0 <= q < features.len(),
    ensures
        candidates[p].contains(q as usize) <==> candidates[q].contains(p as usize),
        !candidates[p].contains(p as usize),
{
    assert(candidates[p].contains(q as usize) <==> forest_mates(trees, p as usize, q as usize));
    assert(candidates[q].contains(p as usize) <==> forest_mates(trees, q as usize, p as usize));
    assert(candidates[p].contains(p as usize) <==> forest_mates(trees, p as usize, p as usize));
    if forest_mates(trees, p as usize, q as usize) {
        let t = choose|t: int|
            0 <= t < trees.len() && mates(#[trigger] trees[t], p as usize, q as usize);
        assert(mates(trees[t], q as usize, p as usize));
    }
    if forest_mates(trees, q as usize, p as usize) {
        let t = choose|t: int|
            0 <= t < trees.len() && mates(#[trigger] trees[t], q as usize, p as usize);
        assert(mates(trees[t], p as usize, q as usize));
    }
}

// ---------------------------------------------------------------------------
// One tree
// ---------------------------------------------------------------------------

/// Chance decides which trees grow, and nothing else: forests with the same trees
/// have the same candidates.
pub proof fn lemma_trees_decide<D: DistanceAlgorithm<ID>, ID>(
    features: Seq<ID>,
    n_trees: int,
    leaf_size: int,
    trees: Seq<Seq<Seq<usize>>>,
    candidates: Seq<Seq<usize>>,
    others: Seq<Seq<usize>>,
)
    requires
        forest_outcome::<D, ID>(features, n_trees, leaf_size, trees, candidates),
        forest_outcome::<D, ID>(features, n_trees, leaf_size, trees, others),
    ensures
        candidates == others,
{
    assert forall|p: int| 0 <= p < candidates.len() implies candidates[p] == others[p] by {
        assert forall|x: usize| #[trigger] candidates[p].contains(x) <==> others[p].contains(
            x,
        ) by {
            assert(candidates[p].contains(x) <==> forest_mates(trees, p as usize, x));
            assert(others[p].contains(x) <==> forest_mates(trees, p as usize, x));
        }
        lemma_ascending_same(candidates[p], others[p]);
    }
    assert(candidates =~= others);
}

/// Orders `indices` by distance to a random one of them. Returns how many of
/// them are the nearer half.
pub fn vp_split<D: DistanceAlgorithm<ID>, ID>(
    features: &[ID],
    distance: &D,
    indices: &mut Vec<usize>,
    rng: &mut StdRng,
) -> (lim: usize)
    requires
        all_admitted::<D, ID>(features@),
        old(indices)@.len() > 0,
        below(old(indices)@, features@.len() as int),
    ensures
        lim == old(indices)@.len() / 2,
        exists|pivot: usize, ordered: Seq<Entry>|
            {
                &&& #[trigger] vp_ordered::<D, ID>(features@, old(indices)@, pivot, ordered)
                &&& final(indices)@ == points(ordered)
            },
        same_items(old(indices)@, final(indices)@),
{
    let count: usize = indices.len();
    let at: usize = random_index(rng, count);
    let pivot: usize = indices[at];
    let ghost all = indices@;
    let mut list: Vec<Entry> = Vec::with_capacity(count);
    let mut i: usize = 0;
    while i < count
        invariant
            count == indices@.len(),
            indices@ == all,
            i <= count,
            all_admitted::<D, ID>(features@),
            below(all, features@.len() as int),
            pivot < features@.len(),
            list@ =~= scored::<D, ID>(features@, pivot, all).take(i as int),
        decreases count - i,
    {
        let idx: usize = indices[i];
        let d: u32 = distance.calculate_distance(&features[pivot], &features[idx]);
        list.push((idx, d));
        i = i + 1;
    }
    assert(list@ =~= scored::<D, ID>(features@, pivot, all));
    sort_by_distance(&mut list);
    let ghost ordered = list@;
    proof {
        lemma_same_points(scored::<D, ID>(features@, pivot, all), ordered);
        assert(points(scored::<D, ID>(features@, pivot, all)) =~= all);
        lemma_same_items(all, points(ordered));
        assert(vp_ordered::<D, ID>(features@, all, pivot, ordered)) by {
            assert(all[at as int] == pivot);
        }
    }
    let mut k: usize = 0;
    while k < count
        invariant
            count == indices@.len(),
            count == ordered.len(),
            list@ == ordered,
            k <= count,
            forall|j: int| 0 <= j < k ==> (#[trigger] indices@[j]) == ordered[j].0,
        decreases count - k,
    {
        indices.set(k, list[k].0);
        k = k + 1;
    }
    assert(indices@ =~= points(ordered));
    count / 2
}

/// Appends the leaves of a tree over `indices` to `leaves`.
pub fn collect_leaves<D: DistanceAlgorithm<ID>, ID>(
    features: &[ID],
    distance: &D,
    leaf_size: usize,
    indices: Vec<usize>,
    rng: &mut StdRng,
    leaves: &mut Vec<Vec<usize>>,
)
    requires
        leaf_size >= 2,
        all_admitted::<D, ID>(features@),
        below(indices@, features@.len() as int),
    ensures
        exists|new: Seq<Seq<usize>>|
            lists_of(final(leaves)@) == lists_of(old(leaves)@) + new && #[trigger] vp_leaves::<
                D,
                ID,
            >(features@, leaf_size as int, indices@, new),
    decreases indices@.len(),
{
    let ghost leaves0 = lists_of(leaves@);
    let ghost all = indices@;
    if indices.len() <= leaf_size {
        leaves.push(indices);
        proof {
            assert(lists_of(leaves@) =~= leaves0 + seq![all]);
            assert(vp_leaves::<D, ID>(features@, leaf_size as int, all, seq![all]));
        }
        return;
    }
    let mut near: Vec<usize> = indices;
    let lim: usize = vp_split(features, distance, &mut near, rng);
    let ghost (pivot, ordered) = choose|pivot: usize, ordered: Seq<Entry>|
        #[trigger] vp_ordered::<D, ID>(features@, all, pivot, ordered) && near@ == points(ordered);
    proof {
        lemma_same_items(all, near@);
        assert forall|i: int| 0 <= i < near@.len() implies (#[trigger] near@[i])
            < features@.len() by {
            assert(near@.contains(near@[i]));
            let k = choose|k: int| 0 <= k < all.len() && all[k] == near@[i];
            assert(all[k] < features@.len());
        }
    }
    let far: Vec<usize> = near.split_off(lim);
    proof {
        assert(near@ =~= points(ordered).take(lim as int));
        assert(far@ =~= points(ordered).skip(lim as int));
    }
    let ghost far_points = far@;
    collect_leaves(features, distance, leaf_size, near, rng, leaves);
    let ghost mid = lists_of(leaves@);
    let ghost left = choose|new: Seq<Seq<usize>>|
        mid == leaves0 + new && #[trigger] vp_leaves::<D, ID>(
            features@,
            leaf_size as int,
            points(ordered).take(lim as int),
            new,
        );
    collect_leaves(features, distance, leaf_size, far, rng, leaves);
    proof {
        let right = choose|new: Seq<Seq<usize>>|
            lists_of(leaves@) == mid + new && #[trigger] vp_leaves::<D, ID>(
                features@,
                leaf_size as int,
                points(ordered).skip(lim as int),
                new,
            );
        let new = left + right;
        let c = left.len() as int;
        assert(lists_of(leaves@) =~= leaves0 + new);
        assert(new.take(c) =~= left);
        assert(new.skip(c) =~= right);
        assert(vp_halves::<D, ID>(features@, all, new, pivot, ordered, c));
        assert(vp_leaves::<D, ID>(features@, leaf_size as int, all, new));
    }
}

// ---------------------------------------------------------------------------
// A forest
// ---------------------------------------------------------------------------

/// The points below `n` in random order.
pub fn shuffled_points(n: usize, rng: &mut StdRng) -> (order: Vec<usize>)
    ensures
        permutation(order@, n as int),
{
    let mut order: Vec<usize> = Vec::with_capacity(n);
    let mut k: usize = 0;
    while k < n
        invariant
            k <= n,
            order@.len() == k,
            forall|j: int| 0 <= j < k ==> (#[trigger] order@[j]) == j,
        decreases n - k,
    {
        order.push(k);
        k = k + 1;
    }
    let mut i: usize = n;
    while i > 1
        invariant
            i <= n,
            permutation(order@, n as int),
        decreases i,
    {
        i = i - 1;
        let j: usize = random_index(rng, i + 1);
        let a: usize = order[i];
        let b: usize = order[j];
        order.set(i, b);
        order.set(j, a);
    }
    order
}

/// Appends to `list` what shares `leaf` with `p`.
fn push_mates(list: &mut Vec<usize>, leaf: &Vec<usize>, p: usize)
    ensures
        forall|q: usize|
            #[trigger] final(list)@.contains(q) <==> (old(list)@.contains(q) || (q != p
                && leaf@.contains(q))),
{
    let ghost list0 = list@;
    let mut i: usize = 0;
    while i < leaf.len()
        invariant
            i <= leaf@.len(),
            forall|q: usize|
                #[trigger] list@.contains(q) <==> (list0.contains(q) || (q != p && leaf@.take(
                    i as int,
                ).contains(q))),
        decreases leaf@.len() - i,
    {
        let ghost before = list@;
        let x: usize = leaf[i];
        if x != p {
            list.push(x);
        }
        proof {
            let t = leaf@.take(i as int);
            assert(leaf@.take(i + 1) =~= t.push(x));
            assert forall|q: usize|
                #[trigger] list@.contains(q) <==> (list0.contains(q) || (q != p && leaf@.take(
                    i + 1,
                ).contains(q))) by {
                lemma_push_contains(t, x, q);
                lemma_push_contains(before, x, q);
                assert(before.contains(q) <==> (list0.contains(q) || (q != p && t.contains(q))));
            }
        }
        i = i + 1;
    }
    assert(leaf@.take(leaf@.len() as int) =~= leaf@);
}

proof fn lemma_push_contains(s: Seq<usize>, x: usize, q: usize)
    ensures
        s.push(x).contains(q) <==> (s.contains(q) || q == x),
{
    let t = s.push(x);
    assert(t[s.len() as int] == x);
    if s.contains(q) {
        let k = choose|k: int| 0 <= k < s.len() && s[k] == q;
        assert(t[k] == q);
    }
    if t.contains(q) {
        let k = choose|k: int| 0 <= k < t.len() && t[k] == q;
        if k < s.len() {
            assert(s[k] == q);
        }
    }
}

/// Makes any two points of `leaf` candidates of each other.
fn pair_up(candidates: &mut Vec<Vec<usize>>, leaf: &Vec<usize>)
    requires
        below(leaf@, old(candidates)@.len() as int),
    ensures
        final(candidates)@.len() == old(candidates)@.len(),
        forall|p: int, q: usize|
            0 <= p < old(candidates)@.len() ==> (#[trigger] lists_of(
                final(candidates)@,
            )[p].contains(q) <==> (lists_of(old(candidates)@)[p].contains(q) || (p != q && leaf@.contains(
                p as usize,
            ) && leaf@.contains(q)))),
{
    let ghost old_lists = lists_of(candidates@);
    let n: usize = candidates.len();
    let mut i: usize = 0;
    while i < leaf.len()
        invariant
            n == candidates@.len(),
            old_lists.len() == n,
            i <= leaf@.len(),
            below(leaf@, n as int),
            forall|p: int, q: usize|
                0 <= p < n ==> (#[trigger] lists_of(candidates@)[p].contains(q) <==> (
                old_lists[p].contains(q) || (p != q && leaf@.take(i as int).contains(p as usize)
                    && leaf@.contains(q)))),
        decreases leaf@.len() - i,
    {
        let ghost before = lists_of(candidates@);
        let x: usize = leaf[i];
        push_mates(&mut candidates[x], leaf, x);
        proof {
            let now = lists_of(candidates@);
            let t = leaf@.take(i as int);
            assert(leaf@.take(i + 1) =~= t.push(x));
            assert forall|p: int, q: usize| 0 <= p < n implies (#[trigger] now[p].contains(q) <==> (
            old_lists[p].contains(q) || (p != q && leaf@.take(i + 1).contains(p as usize)
                && leaf@.contains(q)))) by {
                lemma_push_contains(t, x, p as usize);
                assert(before[p].contains(q) <==> (old_lists[p].contains(q) || (p != q
                    && t.contains(p as usize) && leaf@.contains(q))));
                if p != x {
                    assert(now[p] == before[p]);
                } else {
                    assert(now[p].contains(q) <==> (before[p].contains(q) || (q != x
                        && leaf@.contains(q))));
                }
            }
        }
        i = i + 1;
    }
    assert(leaf@.take(leaf@.len() as int) =~= leaf@);
}

/// For every point the points that shared a leaf with it in at least one of
/// `n_trees` random trees, ascending.
pub fn forest_candidates<D: DistanceAlgorithm<ID>, ID>(
    features: &[ID],
    distance: &D,
    n_trees: usize,
    leaf_size: usize,
    rng: &mut StdRng,
) -> (candidates: Vec<Vec<usize>>)
    requires
        leaf_size >= 2,
        all_admitted::<D, ID>(features@),
    ensures
        candidates@.len() == features@.len(),
        features@.len() > 0 ==> exists|trees: Seq<Seq<Seq<usize>>>| #[trigger]
            forest_outcome::<D, ID>(
                features@,
                n_trees as int,
                leaf_size as int,
                trees,
                lists_of(candidates@),
            ),
        forall|p: int|
            0 <= p < features@.len() ==> {
                &&& ascending((#[trigger] candidates@[p])@)
                &&& below(candidates@[p]@, features@.len() as int)
                &&& !candidates@[p]@.contains(p as usize)
            },
{
    let n: usize = features.len();
    let mut candidates: Vec<Vec<usize>> = Vec::with_capacity(n);
    let mut k: usize = 0;
    while k < n
        invariant
            k <= n,
            candidates@.len() == k,
            forall|p: int| 0 <= p < k ==> (#[trigger] candidates@[p])@.len() == 0,
        decreases n - k,
    {
        candidates.push(Vec::new());
        k = k + 1;
    }
    if n == 0 {
        return candidates;
    }
    let ghost mut trees: Seq<Seq<Seq<usize>>> = Seq::empty();
    let mut t: usize = 0;
    while t < n_trees
        invariant
            n == features@.len(),
            n > 0,
            leaf_size >= 2,
            all_admitted::<D, ID>(features@),
            t <= n_trees,
            trees.len() == t,
            candidates@.len() == n,
            forall|i: int|
                0 <= i < trees.len() ==> vp_tree::<D, ID>(
                    features@,
                    leaf_size as int,
                    #[trigger] trees[i],
                ),
            forall|p: int, q: usize|
                0 <= p < n ==> (#[trigger] lists_of(candidates@)[p].contains(q) <==> forest_mates(
                    trees,
                    p as usize,
                    q,
                )),
        decreases n_trees - t,
    {
        let ghost trees0 = trees;
        let ghost before = lists_of(candidates@);
        let order: Vec<usize> = shuffled_points(n, rng);
        let ghost perm = order@;
        let mut leaves: Vec<Vec<usize>> = Vec::new();
        collect_leaves(features, distance, leaf_size, order, rng, &mut leaves);
        let ghost tree = lists_of(leaves@);
        proof {
            let new = choose|new: Seq<Seq<usize>>|
                tree == lists_of(Seq::<Vec<usize>>::empty()) + new && #[trigger] vp_leaves::<D, ID>(
                    features@,
                    leaf_size as int,
                    perm,
                    new,
                );
            assert(tree =~= new);
            assert(vp_tree::<D, ID>(features@, leaf_size as int, tree)) by {
                assert(permutation(perm, n as int));
            }
            lemma_leaves_below::<D, ID>(features@, leaf_size as int, perm, tree);
        }
        let mut l: usize = 0;
        while l < leaves.len()
            invariant
                n == candidates@.len(),
                before.len() == n,
                tree == lists_of(leaves@),
                l <= leaves@.len(),
                forall|i: int| 0 <= i < tree.len() ==> below(#[trigger] tree[i], n as int),
                forall|p: int, q: usize|
                    0 <= p < n ==> (#[trigger] lists_of(candidates@)[p].contains(q) <==> (
                    before[p].contains(q) || mates(tree.take(l as int), p as usize, q))),
            decreases leaves@.len() - l,
        {
            let ghost earlier = lists_of(candidates@);
            assert(tree[l as int] == leaves@[l as int]@);
            pair_up(&mut candidates, &leaves[l]);
            proof {
                let now = lists_of(candidates@);
                let done = tree.take(l as int);
                let next = tree.take(l + 1);
                assert(next =~= done.push(tree[l as int]));
                assert forall|p: int, q: usize| 0 <= p < n implies (#[trigger] now[p].contains(q)
                    <==> (before[p].contains(q) || mates(next, p as usize, q))) by {
                    assert(earlier[p].contains(q) <==> (before[p].contains(q) || mates(
                        done,
                        p as usize,
                        q,
                    )));
                    lemma_mates_push(done, tree[l as int], p as usize, q);
                }
            }
            l = l + 1;
        }
        proof {
            assert(tree.take(tree.len() as int) =~= tree);
            trees = trees.push(tree);
            assert forall|p: int, q: usize| 0 <= p < n implies (#[trigger] lists_of(
                candidates@,
            )[p].contains(q) <==> forest_mates(trees, p as usize, q)) by {
                assert(before[p].contains(q) <==> forest_mates(trees0, p as usize, q));
                lemma_forest_push(trees0, tree, p as usize, q);
            }
        }
        t = t + 1;
    }
    let ghost raw = lists_of(candidates@);
    let mut i: usize = 0;
    while i < n
        invariant
            i <= n,
            n == candidates@.len(),
            n == raw.len(),
            forall|p: int| 0 <= p < i ==> ascending((#[trigger] candidates@[p])@),
            forall|p: int| i <= p < n ==> (#[trigger] candidates@[p])@ == raw[p],
            forall|p: int, q: usize|
                0 <= p < n ==> (#[trigger] candidates@[p]@.contains(q) <==> raw[p].contains(q)),
        decreases n - i,
    {
        sort_once(&mut candidates[i]);
        i = i + 1;
    }
    proof {
        let done = lists_of(candidates@);
        assert forall|p: int, q: usize| 0 <= p < done.len() implies (#[trigger] done[p].contains(q)
            <==> forest_mates(trees, p as usize, q)) by {
            assert(candidates@[p]@.contains(q) <==> raw[p].contains(q));
        }
        assert forall|p: int| 0 <= p < done.len() implies ascending(#[trigger] done[p]) by {
            assert(ascending(candidates@[p]@));
        }
        assert(forest_outcome::<D, ID>(
            features@,
            n_trees as int,
            leaf_size as int,
            trees,
            done,
        ));
        assert forall|p: int| 0 <= p < n implies ({
            &&& below((#[trigger] candidates@[p])@, n as int)
            &&& !candidates@[p]@.contains(p as usize)
        }) by {
            assert(done[p] == candidates@[p]@);
            assert(done[p].contains(p as usize) <==> forest_mates(trees, p as usize, p as usize));
            assert forall|j: int| 0 <= j < candidates@[p]@.len() implies (
            #[trigger] candidates@[p]@[j]) < n by {
                let q = candidates@[p]@[j];
                assert(done[p].contains(q));
                let t = choose|t: int|
                    0 <= t < trees.len() && mates(#[trigger] trees[t], p as usize, q);
                let l = choose|l: int|
                    0 <= l < trees[t].len() && (#[trigger] trees[t][l]).contains(p as usize)
                        && trees[t][l].contains(q);
                let perm = choose|order: Seq<usize>|
                    #[trigger] permutation(order, n as int) && vp_leaves::<D, ID>(
                        features@,
                        leaf_size as int,
                        order,
                        trees[t],
                    );
                lemma_leaves_below::<D, ID>(features@, leaf_size as int, perm, trees[t]);
                assert(below(trees[t][l], n as int));
                let k = choose|k: int| 0 <= k < trees[t][l].len() && trees[t][l][k] == q;
                assert(trees[t][l][k] < n);
            }
        }
    }
    candidates
}

proof fn lemma_mates_push(leaves: Seq<Seq<usize>>, leaf: Seq<usize>, p: usize, q: usize)
    ensures
        mates(leaves.push(leaf), p, q) <==> (mates(leaves, p, q) || (p != q && leaf.contains(p)
            && leaf.contains(q))),
{
    let more = leaves.push(leaf);
    assert(more[leaves.len() as int] == leaf);
    if mates(leaves, p, q) {
        let l = choose|l: int|
            0 <= l < leaves.len() && (#[trigger] leaves[l]).contains(p) && leaves[l].contains(q);
        assert(more[l] == leaves[l]);
    }
    if mates(more, p, q) {
        let l = choose|l: int|
            0 <= l < more.len() && (#[trigger] more[l]).contains(p) && more[l].contains(q);
        if l < leaves.len() {
            assert(more[l] == leaves[l]);
        }
    }
}

proof fn lemma_forest_push(trees: Seq<Seq<Seq<usize>>>, tree: Seq<Seq<usize>>, p: usize, q: usize)
    ensures
        forest_mates(trees.push(tree), p, q) <==> (forest_mates(trees, p, q) || mates(tree, p, q)),
{
    let more = trees.push(tree);
    assert(more[trees.len() as int] == tree);
    if forest_mates(trees, p, q) {
        let t = choose|t: int| 0 <= t < trees.len() && mates(#[trigger] trees[t], p, q);
        assert(mates(more[t], p, q));
    }
    if forest_mates(more, p, q) {
        let t = choose|t: int| 0 <= t < more.len() && mates(#[trigger] more[t], p, q);
        if t < trees.len() {
            assert(mates(trees[t], p, q));
        }
    }
}

/// The leaves hold points of the tree only.
proof fn lemma_leaves_below<D: DistanceAlgorithm<ID>, ID>(
    features: Seq<ID>,
    leaf_size: int,
    indices: Seq<usize>,
    leaves: Seq<Seq<usize>>,
)
    requires
        below(indices, features.len() as int),
        vp_leaves::<D, ID>(features, leaf_size, indices, leaves),
    ensures
        forall|l: int|
            0 <= l < leaves.len() ==> below(#[trigger] leaves[l], features.len() as int),
    decreases indices.len(),
{
    if indices.len() <= leaf_size || indices.len() < 2 {
    } else {
        let half = (indices.len() / 2) as int;
        let (pivot, ordered, c) = choose|pivot: usize, ordered: Seq<Entry>, c: int|
            {
                &&& #[trigger] vp_halves::<D, ID>(features, indices, leaves, pivot, ordered, c)
                &&& points(ordered).len() == indices.len()
                &&& vp_leaves::<D, ID>(
                    features,
                    leaf_size,
                    points(ordered).take(half),
                    leaves.take(c),
                )
                &&& vp_leaves::<D, ID>(
                    features,
                    leaf_size,
                    points(ordered).skip(half),
                    leaves.skip(c),
                )
            };
        lemma_same_points(scored::<D, ID>(features, pivot, indices), ordered);
        assert(points(scored::<D, ID>(features, pivot, indices)) =~= indices);
        lemma_same_items(indices, points(ordered));
        assert forall|i: int| 0 <= i < points(ordered).len() implies (#[trigger] points(ordered)[i])
            < features.len() by {
            assert(points(ordered).contains(points(ordered)[i]));
            let k = choose|k: int| 0 <= k < indices.len() && indices[k] == points(ordered)[i];
            assert(indices[k] < features.len());
        }
        lemma_leaves_below::<D, ID>(
            features,
            leaf_size,
            points(ordered).take(half),
            leaves.take(c),
        );
        lemma_leaves_below::<D, ID>(
            features,
            leaf_size,
            points(ordered).skip(half),
            leaves.skip(c),
        );
        assert forall|l: int| 0 <= l < leaves.len() implies below(
            #[trigger] leaves[l],
            features.len() as int,
        ) by {
            if l < c {
                assert(leaves.take(c)[l] == leaves[l]);
            } else {
                assert(leaves.skip(c)[l - c] == leaves[l]);
            }
        }
    }
}

} // verus!
