//! What an NN-descent is for, in terms of points and distances alone.

use crate::controllers::join::{
    all_pairs, hood_pairs, introduced, joined, lemma_joined_sound, met, new_pairs, old_pairs, pools,
};
use crate::controllers::neighborhood::{
    between, inserted, lemma_inserted_sound, lemma_offer_kept, lemma_offer_no_worse, sound_entries,
    sound_hood, sound_hoods, Hood, NndParams,
};
use crate::controllers::nndescent::{
    descent, fresh_nodes, lemma_descent_no_worse, nearest, random_start, round, topped, tree_hood,
    tree_start,
};
use crate::controllers::nsg::{knn_lists, BuildConfig, NndInit};
use crate::controllers::renew::{all_windowed, cut, renewal, renewed, settled_pool};
use crate::controllers::renew_laws::lemma_renewal_looks;
use crate::controllers::search::{greater, lesser};
use crate::controllers::vantage::{
    forest_mates, forest_outcome, mates, scored, vp_leaves, vp_tree,
};
use crate::datalayer::algorithms::DistanceAlgorithm;
use crate::order::{
    ascending, below, by_distance, lemma_few_below, lemma_one_missing, lemma_rank,
    lemma_same_entries, lists, permutation, rank, same_items, unmarked, Entry, Marked,
};
use vstd::prelude::*;

verus! {

// ---------------------------------------------------------------------------
// What a descent gives out
// ---------------------------------------------------------------------------

/// The neighbours given out for a point are the nearest of its pool: `k` of them,
/// or all there are, entries of the pool all, nearest first. An entry of the pool
/// that is left out is no nearer than any that is given out.
pub proof fn lemma_results_are_nearest<D: DistanceAlgorithm<ID>, ID>(
    features: Seq<ID>,
    hs: Seq<Hood>,
    k: int,
    g: Seq<Seq<Entry>>,
    x: int,
)
    requires
        sound_hoods::<D, ID>(features, hs),
        g == nearest(hs, k),
        0 <= x < features.len(),
        k >= 0,
    ensures
        g.len() == features.len(),
        g[x].len() <= k,
        g[x].len() == k || g[x].len() == hs[x].pool.len(),
        forall|i: int, j: int|
            0 <= i < j < g[x].len() ==> (#[trigger] g[x][i]).1 <= (#[trigger] g[x][j]).1,
        forall|j: int|
            0 <= j < g[x].len() ==> unmarked(hs[x].pool).contains(#[trigger] g[x][j]),
        forall|p: int|
            0 <= p < hs[x].pool.len() ==> {
                let e = #[trigger] hs[x].pool[p];
                ||| g[x].contains((e.0, e.1))
                ||| g[x].len() == k && forall|j: int|
                    0 <= j < g[x].len() ==> (#[trigger] g[x][j]).1 <= e.1
            },
{
    assert(sound_hood::<D, ID>(features, x, hs[x]));
    let p = unmarked(hs[x].pool);
    assert(g[x] == cut(p, k));
    assert forall|j: int| 0 <= j < g[x].len() implies p.contains(#[trigger] g[x][j]) by {
        assert(g[x][j] == p[j]);
    }
    assert forall|q: int| 0 <= q < hs[x].pool.len() implies {
        let e = #[trigger] hs[x].pool[q];
        ||| g[x].contains((e.0, e.1))
        ||| g[x].len() == k && forall|j: int|
            0 <= j < g[x].len() ==> (#[trigger] g[x][j]).1 <= e.1
    } by {
        let e = hs[x].pool[q];
        assert(p[q] == (e.0, e.1));
        if q < g[x].len() {
            assert(g[x][q] == (e.0, e.1));
        } else {
            assert forall|j: int| 0 <= j < g[x].len() implies (#[trigger] g[x][j]).1 <= e.1 by {
                assert(g[x][j] == p[j]);
                assert(p[j].1 <= p[q].1);
            }
        }
    }
}

/// However many rounds there are, each place of a pool among the first `l` has a
/// neighbour that is no farther than the one there at the start.
pub proof fn lemma_rounds_lose_nothing<D: DistanceAlgorithm<ID>, ID>(
    features: Seq<ID>,
    params: NndParams,
    iter: int,
    trace: Seq<Seq<Hood>>,
    t: int,
    x: int,
    p: int,
)
    requires
        features.len() <= usize::MAX,
        descent::<D, ID>(features, params, iter, trace),
        sound_hoods::<D, ID>(features, trace[0]),
        0 <= t <= iter,
        0 <= x < features.len(),
        0 <= p < trace[0][x].pool.len(),
        p < params.l,
    ensures
        p < trace[t][x].pool.len(),
        trace[t][x].pool[p].1 <= trace[0][x].pool[p].1,
{
    lemma_descent_no_worse::<D, ID>(features, params, iter, trace, t);
    let a = trace[0][x].pool[p];
    let h = trace[t][x];
    assert(trace[0][x].pool[p] == a);
}

// ---------------------------------------------------------------------------
// Room for everything
// ---------------------------------------------------------------------------

/// The pool of `x` holds every other point with its distance from `x`.
spec fn complete<D: DistanceAlgorithm<ID>, ID>(
    features: Seq<ID>,
    x: int,
    pool: Seq<Marked>,
) -> bool {
    &&& by_distance(unmarked(pool))
    &&& pool.len() == features.len() - 1
    &&& forall|y: usize|
        y < features.len() && y != x ==> #[trigger] unmarked(pool).contains(
            (y, D::distance(features[x], features[y as int])),
        )
}

/// All pools do.
spec fn all_complete<D: DistanceAlgorithm<ID>, ID>(
    features: Seq<ID>,
    ps: Seq<Seq<Marked>>,
) -> bool {
    &&& ps.len() == features.len()
    &&& forall|x: int| 0 <= x < ps.len() ==> complete::<D, ID>(features, x, #[trigger] ps[x])
}

/// Nothing can be added to a complete pool.
proof fn lemma_complete_insert<D: DistanceAlgorithm<ID>, ID>(
    features: Seq<ID>,
    x: int,
    pool: Seq<Marked>,
    l: int,
    y: usize,
    d: u32,
)
    requires
        complete::<D, ID>(features, x, pool),
        y < features.len(),
        y != x,
    ensures
        inserted(pool, l, y, d) == pool,
{
    let e = (y, D::distance(features[x], features[y as int]));
    let u = unmarked(pool);
    assert(u.contains(e));
    let i = choose|i: int| 0 <= i < u.len() && u[i] == e;
    assert(u[i].0 == y);
    assert(lists(u, y));
}

/// Nor by any number of introductions.
proof fn lemma_complete_met<D: DistanceAlgorithm<ID>, ID>(
    features: Seq<ID>,
    l: int,
    ps: Seq<Seq<Marked>>,
    pairs: Seq<(usize, usize)>,
)
    requires
        all_complete::<D, ID>(features, ps),
        forall|k: int|
            0 <= k < pairs.len() ==> (#[trigger] pairs[k]).0 < features.len() && pairs[k].1
                < features.len() && pairs[k].0 != pairs[k].1,
    ensures
        met::<D, ID>(features, l, ps, pairs) == ps,
    decreases pairs.len(),
{
    if pairs.len() > 0 {
        let shorter = pairs.drop_last();
        assert forall|k: int| 0 <= k < shorter.len() implies (#[trigger] shorter[k]).0
            < features.len() && shorter[k].1 < features.len() && shorter[k].0 != shorter[k].1 by {
            assert(shorter[k] == pairs[k]);
        }
        lemma_complete_met::<D, ID>(features, l, ps, shorter);
        let (i, j) = pairs[pairs.len() - 1];
        let d = D::distance(features[i as int], features[j as int]);
        lemma_complete_insert::<D, ID>(features, i as int, ps[i as int], l, j, d);
        lemma_complete_insert::<D, ID>(features, j as int, ps[j as int], l, i, d);
        assert(ps.update(i as int, ps[i as int]) =~= ps);
        assert(ps.update(j as int, ps[j as int]) =~= ps);
    }
}

/// Which pairs there are: different points below `n`.
pub(crate) proof fn lemma_pairs_apart(hs: Seq<Hood>, k: nat, n: int)
    requires
        k <= hs.len(),
        forall|x: int|
            0 <= x < hs.len() ==> below((#[trigger] hs[x]).nn_new, n) && below(hs[x].nn_old, n),
    ensures
        forall|i: int|
            0 <= i < all_pairs(hs, k).len() ==> (#[trigger] all_pairs(hs, k)[i]).0 < n
                && all_pairs(hs, k)[i].1 < n && all_pairs(hs, k)[i].0 != all_pairs(hs, k)[i].1,
    decreases k,
{
    if k > 0 {
        lemma_pairs_apart(hs, (k - 1) as nat, n);
        let h = hs[k - 1];
        lemma_hood_pairs_apart(h, h.nn_new.len(), n);
        let a = all_pairs(hs, (k - 1) as nat);
        let b = hood_pairs(h, h.nn_new.len());
        let r = all_pairs(hs, k);
        assert(r == a + b);
        assert forall|i: int| 0 <= i < r.len() implies (#[trigger] r[i]).0 < n && r[i].1 < n
            && r[i].0 != r[i].1 by {
            if i < a.len() {
                assert(r[i] == a[i]);
            } else {
                assert(r[i] == b[i - a.len()]);
            }
        }
    }
}

proof fn lemma_hood_pairs_apart(h: Hood, k: nat, n: int)
    requires
        k <= h.nn_new.len(),
        forall|i: int| 0 <= i < h.nn_new.len() ==> (#[trigger] h.nn_new[i]) < n,
        forall|i: int| 0 <= i < h.nn_old.len() ==> (#[trigger] h.nn_old[i]) < n,
    ensures
        forall|i: int|
            0 <= i < hood_pairs(h, k).len() ==> (#[trigger] hood_pairs(h, k)[i]).0 < n
                && hood_pairs(h, k)[i].1 < n && hood_pairs(h, k)[i].0 != hood_pairs(h, k)[i].1,
    decreases k,
{
    if k > 0 {
        lemma_hood_pairs_apart(h, (k - 1) as nat, n);
        let i0 = h.nn_new[k - 1];
        lemma_new_pairs_apart(i0, h.nn_new, n);
        lemma_old_pairs_apart(i0, h.nn_old, n);
        let a = hood_pairs(h, (k - 1) as nat);
        let b = new_pairs(i0, h.nn_new);
        let c = old_pairs(i0, h.nn_old);
        let r = hood_pairs(h, k);
        assert(r == a + b + c);
        assert forall|i: int| 0 <= i < r.len() implies (#[trigger] r[i]).0 < n && r[i].1 < n
            && r[i].0 != r[i].1 by {
            if i < a.len() {
                assert(r[i] == a[i]);
            } else if i < a.len() + b.len() {
                assert(r[i] == b[i - a.len()]);
            } else {
                assert(r[i] == c[i - a.len() - b.len()]);
            }
        }
    }
}

proof fn lemma_new_pairs_apart(x: usize, new: Seq<usize>, n: int)
    requires
        x < n,
        forall|i: int| 0 <= i < new.len() ==> (#[trigger] new[i]) < n,
    ensures
        forall|i: int|
            0 <= i < new_pairs(x, new).len() ==> (#[trigger] new_pairs(x, new)[i]).0 == x
                && new_pairs(x, new)[i].1 < n && new_pairs(x, new)[i].1 != x,
        forall|j: int|
            0 <= j < new.len() && x < (#[trigger] new[j]) ==> new_pairs(x, new).contains(
                (x, new[j]),
            ),
    decreases new.len(),
{
    if new.len() > 0 {
        let shorter = new.drop_last();
        assert forall|i: int| 0 <= i < shorter.len() implies (#[trigger] shorter[i]) < n by {
            assert(shorter[i] == new[i]);
        }
        lemma_new_pairs_apart(x, shorter, n);
        let a = new_pairs(x, shorter);
        let r = new_pairs(x, new);
        assert(new[new.len() - 1] < n);
        assert forall|j: int| 0 <= j < new.len() && x < (#[trigger] new[j]) implies r.contains(
            (x, new[j]),
        ) by {
            if j < shorter.len() {
                assert(shorter[j] == new[j]);
                let i = choose|i: int| 0 <= i < a.len() && a[i] == (x, new[j]);
                assert(r[i] == (x, new[j]));
            } else {
                assert(r[a.len() as int] == (x, new[j]));
            }
        }
    }
}

proof fn lemma_old_pairs_apart(x: usize, old_list: Seq<usize>, n: int)
    requires
        x < n,
        forall|i: int| 0 <= i < old_list.len() ==> (#[trigger] old_list[i]) < n,
    ensures
        forall|i: int|
            0 <= i < old_pairs(x, old_list).len() ==> (#[trigger] old_pairs(x, old_list)[i]).0 == x
                && old_pairs(x, old_list)[i].1 < n && old_pairs(x, old_list)[i].1 != x,
        forall|j: int|
            0 <= j < old_list.len() && x != (#[trigger] old_list[j]) ==> old_pairs(
                x,
                old_list,
            ).contains((x, old_list[j])),
    decreases old_list.len(),
{
    if old_list.len() > 0 {
        let shorter = old_list.drop_last();
        assert forall|i: int| 0 <= i < shorter.len() implies (#[trigger] shorter[i]) < n by {
            assert(shorter[i] == old_list[i]);
        }
        lemma_old_pairs_apart(x, shorter, n);
        let a = old_pairs(x, shorter);
        let r = old_pairs(x, old_list);
        assert(old_list[old_list.len() - 1] < n);
        assert forall|j: int|
            0 <= j < old_list.len() && x != (#[trigger] old_list[j]) implies r.contains(
            (x, old_list[j]),
        ) by {
            if j < shorter.len() {
                assert(shorter[j] == old_list[j]);
                let i = choose|i: int| 0 <= i < a.len() && a[i] == (x, old_list[j]);
                assert(r[i] == (x, old_list[j]));
            } else {
                assert(r[a.len() as int] == (x, old_list[j]));
            }
        }
    }
}

/// A round keeps complete pools complete.
proof fn lemma_complete_round<D: DistanceAlgorithm<ID>, ID>(
    features: Seq<ID>,
    params: NndParams,
    before: Seq<Hood>,
    after: Seq<Hood>,
)
    requires
        sound_hoods::<D, ID>(features, before),
        all_complete::<D, ID>(features, pools(before)),
        params.l >= features.len() - 1,
        round::<D, ID>(features, params, before, after),
    ensures
        all_complete::<D, ID>(features, pools(after)),
{
    let l = params.l as int;
    let n = features.len() as int;
    let mid = joined::<D, ID>(features, l, before);
    assert forall|x: int| 0 <= x < before.len() implies below((#[trigger] before[x]).nn_new, n)
        && below(before[x].nn_old, n) by {
        assert(sound_hood::<D, ID>(features, x, before[x]));
    }
    lemma_pairs_apart(before, before.len(), n);
    lemma_complete_met::<D, ID>(features, l, pools(before), all_pairs(before, before.len()));
    let a = all_windowed(mid, l, params.s as int);
    let (np, op) = choose|np: Seq<int>, op: Seq<int>| after == renewed(mid, params, np, op);
    assert forall|x: int| 0 <= x < pools(after).len() implies complete::<D, ID>(
        features,
        x,
        #[trigger] pools(after)[x],
    ) by {
        let p = pools(before)[x];
        assert(complete::<D, ID>(features, x, p));
        assert(mid[x].pool == p);
        assert(cut(p, l) == p);
        assert(a[x].pool == p);
        assert(after[x].pool == settled_pool(p, a[x].m));
        assert(unmarked(after[x].pool) =~= unmarked(p));
    }
}

/// With leaves that hold all points, every two points share one.
proof fn lemma_one_leaf<D: DistanceAlgorithm<ID>, ID>(
    features: Seq<ID>,
    leaf_size: int,
    leaves: Seq<Seq<usize>>,
    p: usize,
    q: usize,
)
    requires
        vp_tree::<D, ID>(features, leaf_size, leaves),
        leaf_size >= features.len(),
        p < features.len() <= usize::MAX,
        q < features.len(),
        p != q,
    ensures
        mates(leaves, p, q),
{
    let order = choose|order: Seq<usize>|
        #[trigger] permutation(order, features.len() as int) && vp_leaves::<D, ID>(
            features,
            leaf_size,
            order,
            leaves,
        );
    assert(leaves == seq![order]);
    lemma_permutation_full(order, features.len() as int, p);
    lemma_permutation_full(order, features.len() as int, q);
    assert(leaves[0].contains(p));
}

/// A permutation holds every point.
pub(crate) proof fn lemma_permutation_full(order: Seq<usize>, n: int, p: usize)
    requires
        permutation(order, n),
        0 <= p < n,
    ensures
        order.contains(p),
{
    if !order.contains(p) {
        let more = order.push(p);
        assert forall|i: int, j: int|
            0 <= i < more.len() && 0 <= j < more.len() && i != j implies more[i] != more[j] by {
            if i == order.len() {
                assert(order.contains(order[j]));
            } else if j == order.len() {
                assert(order.contains(order[i]));
            } else {
                assert(order[i] != order[j]);
            }
        }
        assert forall|i: int| 0 <= i < more.len() implies (#[trigger] more[i]) < n by {
            if i < order.len() {
                assert(order[i] < n);
            }
        }
        lemma_few_below(more, n as nat);
    }
}

/// The start from such a forest has complete pools.
proof fn lemma_complete_start<D: DistanceAlgorithm<ID>, ID>(
    features: Seq<ID>,
    params: NndParams,
    n_trees: int,
    leaf_size: int,
    hs: Seq<Hood>,
)
    requires
        tree_start::<D, ID>(features, params, n_trees, leaf_size, hs),
        0 < features.len() <= usize::MAX,
        n_trees >= 1,
        leaf_size >= features.len(),
        params.l >= features.len() - 1,
    ensures
        all_complete::<D, ID>(features, pools(hs)),
{
    let n = features.len() as int;
    let (trees, candidates) = choose|
        trees: Seq<Seq<Seq<usize>>>,
        candidates: Seq<Seq<usize>>,
    |
        {
            &&& #[trigger] forest_outcome::<D, ID>(
                features,
                n_trees,
                leaf_size,
                trees,
                candidates,
            )
            &&& forall|x: int|
                0 <= x < hs.len() ==> tree_hood::<D, ID>(
                    features,
                    params,
                    x,
                    candidates[x],
                    #[trigger] hs[x],
                )
        };
    assert forall|x: int| 0 <= x < pools(hs).len() implies complete::<D, ID>(
        features,
        x,
        #[trigger] pools(hs)[x],
    ) by {
        let cands = candidates[x];
        assert(tree_hood::<D, ID>(features, params, x, cands, hs[x]));
        assert forall|y: usize| y < n && y != x implies cands.contains(y) by {
            assert(vp_tree::<D, ID>(features, leaf_size, trees[0]));
            lemma_one_leaf::<D, ID>(features, leaf_size, trees[0], x as usize, y);
            assert(forest_mates(trees, x as usize, y));
            assert(candidates[x].contains(y));
        }
        lemma_all_others(features.len() as int, x, candidates, trees);
        let (sorted, extra) = choose|sorted: Seq<Entry>, extra: Seq<usize>|
            {
                &&& #[trigger] same_items(
                    scored::<D, ID>(features, x as usize, cands),
                    sorted,
                )
                &&& by_distance(sorted)
                &&& #[trigger] fresh_nodes(cut(sorted, params.l as int), x, extra, n)
                &&& extra.len() == greater(
                    lesser(params.s as int, n - 1) - cut(sorted, params.l as int).len(),
                    0,
                )
                &&& unmarked(hs[x].pool) == topped::<D, ID>(
                    features,
                    x,
                    cut(sorted, params.l as int),
                    extra,
                )
            };
        let raw = scored::<D, ID>(features, x as usize, cands);
        lemma_same_entries(raw, sorted);
        assert(sorted.len() == n - 1);
        assert(cut(sorted, params.l as int) == sorted);
        assert(unmarked(hs[x].pool) == sorted);
        assert forall|y: usize| y < n && y != x implies #[trigger] sorted.contains(
            (y, D::distance(features[x], features[y as int])),
        ) by {
            assert(cands.contains(y));
            let i = choose|i: int| 0 <= i < cands.len() && cands[i] == y;
            assert(raw[i] == (y, D::distance(features[x], features[y as int])));
            assert(raw.contains(raw[i]));
        }
    }
}

/// A list of candidates with every other point has all but one.
proof fn lemma_all_others(
    n: int,
    x: int,
    candidates: Seq<Seq<usize>>,
    trees: Seq<Seq<Seq<usize>>>,
)
    requires
        0 <= x < n == candidates.len(),
        n <= usize::MAX,
        ascending(candidates[x]),
        forall|p: int, q: usize|
            0 <= p < candidates.len() ==> (#[trigger] candidates[p].contains(q) <==> forest_mates(
                trees,
                p as usize,
                q,
            )),
        forall|y: usize| y < n && y != x ==> candidates[x].contains(y),
        forall|y: usize| candidates[x].contains(y) ==> y < n,
    ensures
        candidates[x].len() == n - 1,
{
    let c = candidates[x];
    let more = c.push(x as usize);
    assert(!c.contains(x as usize)) by {
        if c.contains(x as usize) {
            assert(forest_mates(trees, x as usize, x as usize));
        }
    }
    assert forall|i: int, j: int|
        0 <= i < more.len() && 0 <= j < more.len() && i != j implies more[i] != more[j] by {
        if i == c.len() {
            assert(c.contains(c[j]));
        } else if j == c.len() {
            assert(c.contains(c[i]));
        } else if i < j {
            assert(c[i] < c[j]);
        } else {
            assert(c[j] < c[i]);
        }
    }
    assert forall|i: int| 0 <= i < more.len() implies (#[trigger] more[i]) < n by {
        if i < c.len() {
            assert(c.contains(c[i]));
        }
    }
    lemma_few_below(more, n as nat);
    if more.len() < n {
        lemma_one_missing(more, n as nat);
        let y = choose|y: usize| y < n && !more.contains(y);
        if y != x {
            assert(c.contains(y));
            let i = choose|i: int| 0 <= i < c.len() && c[i] == y;
            assert(more[i] == y);
        } else {
            assert(more[c.len() as int] == y);
        }
    }
}

/// With leaves that hold all points and pools that have room for them, the
/// neighbours of every point are its nearest, whatever was drawn and however many
/// rounds there are: each other point is among them with its distance, or there
/// are `k` of them and none is farther.
pub proof fn lemma_roomy_descent_is_exact<D: DistanceAlgorithm<ID>, ID>(
    features: Seq<ID>,
    params: NndParams,
    n_trees: int,
    leaf_size: int,
    iter: int,
    trace: Seq<Seq<Hood>>,
    g: Seq<Seq<Entry>>,
    x: int,
)
    requires
        0 <= x < features.len() <= usize::MAX,
        n_trees >= 1,
        leaf_size >= features.len(),
        params.l >= features.len() - 1,
        iter >= 0,
        tree_start::<D, ID>(features, params, n_trees, leaf_size, trace[0]),
        sound_hoods::<D, ID>(features, trace[0]),
        descent::<D, ID>(features, params, iter, trace),
        g == nearest(trace.last(), params.k as int),
    ensures
        g[x].len() <= params.k,
        g[x].len() < features.len(),
        g[x].len() == params.k || g[x].len() == features.len() - 1,
        forall|i: int, j: int|
            0 <= i < j < g[x].len() ==> (#[trigger] g[x][i]).1 <= (#[trigger] g[x][j]).1,
        forall|y: usize|
            y < features.len() && y != x ==> {
                let d = #[trigger] D::distance(features[x], features[y as int]);
                ||| g[x].contains((y, d))
                ||| g[x].len() == params.k && forall|j: int|
                    0 <= j < g[x].len() ==> (#[trigger] g[x][j]).1 <= d
            },
{
    lemma_complete_start::<D, ID>(features, params, n_trees, leaf_size, trace[0]);
    lemma_complete_rounds::<D, ID>(features, params, iter, trace, iter);
    let last = trace.last();
    assert(last == trace[iter]);
    lemma_descent_no_worse::<D, ID>(features, params, iter, trace, iter);
    lemma_results_are_nearest::<D, ID>(features, last, params.k as int, g, x);
    let pool = last[x].pool;
    assert(complete::<D, ID>(features, x, pools(last)[x]));
    assert forall|y: usize| y < features.len() && y != x implies {
        let d = #[trigger] D::distance(features[x], features[y as int]);
        ||| g[x].contains((y, d))
        ||| g[x].len() == params.k && forall|j: int|
            0 <= j < g[x].len() ==> (#[trigger] g[x][j]).1 <= d
    } by {
        let e = (y, D::distance(features[x], features[y as int]));
        assert(unmarked(pool).contains(e));
        let p = choose|p: int| 0 <= p < pool.len() && unmarked(pool)[p] == e;
        assert(last[x].pool[p].0 == y && last[x].pool[p].1 == e.1);
    }
}

/// All rounds keep complete pools complete.
proof fn lemma_complete_rounds<D: DistanceAlgorithm<ID>, ID>(
    features: Seq<ID>,
    params: NndParams,
    iter: int,
    trace: Seq<Seq<Hood>>,
    t: int,
)
    requires
        features.len() <= usize::MAX,
        descent::<D, ID>(features, params, iter, trace),
        sound_hoods::<D, ID>(features, trace[0]),
        all_complete::<D, ID>(features, pools(trace[0])),
        params.l >= features.len() - 1,
        0 <= t <= iter,
    ensures
        all_complete::<D, ID>(features, pools(trace[t])),
    decreases t,
{
    if t > 0 {
        lemma_complete_rounds::<D, ID>(features, params, iter, trace, t - 1);
        lemma_descent_no_worse::<D, ID>(features, params, iter, trace, t - 1);
        assert(round::<D, ID>(features, params, trace[t - 1], trace[t]));
        lemma_complete_round::<D, ID>(features, params, trace[t - 1], trace[t]);
    }
}

// ---------------------------------------------------------------------------
// Joins
// ---------------------------------------------------------------------------

/// Every pool is sound.
spec fn sound_pools<D: DistanceAlgorithm<ID>, ID>(features: Seq<ID>, ps: Seq<Seq<Marked>>) -> bool {
    &&& ps.len() == features.len()
    &&& forall|x: int|
        0 <= x < ps.len() ==> sound_entries::<D, ID>(features, x, unmarked(#[trigger] ps[x]))
}

/// Point `a` knows of `b`: it is in the pool, or the pool is full of points that
/// are no farther.
spec fn knows<D: DistanceAlgorithm<ID>, ID>(
    features: Seq<ID>,
    l: int,
    pool: Seq<Marked>,
    a: usize,
    b: usize,
) -> bool {
    ||| lists(unmarked(pool), b)
    ||| pool.len() >= l && forall|k: int|
        0 <= k < l ==> (#[trigger] pool[k]).1 <= D::distance(
            features[a as int],
            features[b as int],
        ) || pool[k].1 <= D::distance(features[b as int], features[a as int])
}

/// What is known stays known.
proof fn lemma_knows_stays<D: DistanceAlgorithm<ID>, ID>(
    features: Seq<ID>,
    l: int,
    pool: Seq<Marked>,
    a: usize,
    b: usize,
    x: usize,
    d: u32,
)
    requires
        sound_entries::<D, ID>(features, a as int, unmarked(pool)),
        knows::<D, ID>(features, l, pool, a, b),
        l >= 0,
    ensures
        knows::<D, ID>(features, l, inserted(pool, l, x, d), a, b),
{
    let u = unmarked(pool);
    let next = inserted(pool, l, x, d);
    lemma_offer_no_worse(pool, l, x, d);
    if lists(u, b) {
        let i = choose|i: int| 0 <= i < u.len() && (#[trigger] u[i]).0 == b;
        assert(between::<D, ID>(features, a as int, u[i]));
        lemma_offer_kept_or_last(pool, l, x, d, i);
        if unmarked(next).contains(u[i]) {
            let j = choose|j: int| 0 <= j < next.len() && unmarked(next)[j] == u[i];
            assert(unmarked(next)[j].0 == b);
        } else {
            assert forall|k: int| 0 <= k < l implies (#[trigger] next[k]).1 <= D::distance(
                features[a as int],
                features[b as int],
            ) || next[k].1 <= D::distance(features[b as int], features[a as int]) by {
                assert(next[k].1 <= pool[k].1);
                assert(u[k].1 <= u[i].1);
            }
        }
    } else {
        assert forall|k: int| 0 <= k < l implies (#[trigger] next[k]).1 <= D::distance(
            features[a as int],
            features[b as int],
        ) || next[k].1 <= D::distance(features[b as int], features[a as int]) by {
            assert(next[k].1 <= pool[k].1);
        }
    }
}

/// An offer leaves every entry in the pool but the last of a full one.
proof fn lemma_offer_kept_or_last(pool: Seq<Marked>, l: int, x: usize, d: u32, i: int)
    requires
        by_distance(unmarked(pool)),
        0 <= i < pool.len(),
        l >= 0,
    ensures
        unmarked(inserted(pool, l, x, d)).contains(unmarked(pool)[i]) || (i == pool.len() - 1
            && pool.len() >= l),
        pool.len() <= inserted(pool, l, x, d).len(),
{
    lemma_offer_no_worse(pool, l, x, d);
    lemma_offer_kept(pool, l, x, d);
    assert(unmarked(pool)[i] == (pool[i].0, pool[i].1));
}

/// Who is introduced knows of the other.
proof fn lemma_knows_met<D: DistanceAlgorithm<ID>, ID>(
    features: Seq<ID>,
    l: int,
    ps: Seq<Seq<Marked>>,
    pairs: Seq<(usize, usize)>,
    a: usize,
    b: usize,
)
    requires
        sound_pools::<D, ID>(features, ps),
        l >= 0,
        forall|k: int|
            0 <= k < pairs.len() ==> (#[trigger] pairs[k]).0 < features.len() && pairs[k].1
                < features.len() && pairs[k].0 != pairs[k].1,
        a < features.len(),
        b < features.len(),
    ensures
        ({
            let after = met::<D, ID>(features, l, ps, pairs);
            &&& sound_pools::<D, ID>(features, after)
            &&& pairs.contains((a, b)) ==> knows::<D, ID>(
                features,
                l,
                after[a as int],
                a,
                b,
            ) && knows::<D, ID>(features, l, after[b as int], b, a)
            &&& lists(unmarked(after[a as int]), b) ==> lists(unmarked(ps[a as int]), b)
                || pairs.contains((a, b)) || pairs.contains((b, a))
        }),
    decreases pairs.len(),
{
    if pairs.len() > 0 {
        let shorter = pairs.drop_last();
        assert forall|k: int| 0 <= k < shorter.len() implies (#[trigger] shorter[k]).0
            < features.len() && shorter[k].1 < features.len() && shorter[k].0 != shorter[k].1 by {
            assert(shorter[k] == pairs[k]);
        }
        lemma_knows_met::<D, ID>(features, l, ps, shorter, a, b);
        let mid = met::<D, ID>(features, l, ps, shorter);
        let after = met::<D, ID>(features, l, ps, pairs);
        let (i, j) = pairs[pairs.len() - 1];
        let d = D::distance(features[i as int], features[j as int]);
        let pi = inserted(mid[i as int], l, j, d);
        let pj = inserted(mid[j as int], l, i, d);
        assert(after =~= mid.update(i as int, pi).update(j as int, pj));
        assert(sound_entries::<D, ID>(features, i as int, unmarked(mid[i as int])));
        assert(sound_entries::<D, ID>(features, j as int, unmarked(mid[j as int])));
        assert(between::<D, ID>(features, i as int, (j, d)));
        assert(between::<D, ID>(features, j as int, (i, d)));
        lemma_inserted_sound::<D, ID>(features, i as int, mid[i as int], l, j, d);
        lemma_inserted_sound::<D, ID>(features, j as int, mid[j as int], l, i, d);
        assert(sound_pools::<D, ID>(features, after)) by {
            assert forall|x: int| 0 <= x < after.len() implies sound_entries::<D, ID>(
                features,
                x,
                unmarked(#[trigger] after[x]),
            ) by {
                if x != i && x != j {
                    assert(after[x] == mid[x]);
                }
            }
        }
        lemma_knows_at_once::<D, ID>(features, l, mid[i as int], i, j, d);
        lemma_knows_at_once::<D, ID>(features, l, mid[j as int], j, i, d);
        assert(pairs[pairs.len() - 1] == (i, j));
        if pairs.contains((a, b)) {
            if (i, j) != (a, b) {
                let k = choose|k: int| 0 <= k < pairs.len() && pairs[k] == (a, b);
                assert(shorter[k] == (a, b));
                lemma_knows_pair::<D, ID>(features, l, mid, i, j, a, b);
                lemma_knows_pair::<D, ID>(features, l, mid, i, j, b, a);
            }
        }
        if lists(unmarked(after[a as int]), b) && !lists(unmarked(mid[a as int]), b) {
            if a == i {
                lemma_inserted_lists(mid[i as int], l, j, d, b);
                assert(b == j);
            } else if a == j {
                lemma_inserted_lists(mid[j as int], l, i, d, b);
                assert(b == i);
            }
        }
        if shorter.contains((a, b)) {
            let k = choose|k: int| 0 <= k < shorter.len() && shorter[k] == (a, b);
            assert(pairs[k] == (a, b));
        }
        if shorter.contains((b, a)) {
            let k = choose|k: int| 0 <= k < shorter.len() && shorter[k] == (b, a);
            assert(pairs[k] == (b, a));
        }
    }
}

/// What an introduction leaves known.
proof fn lemma_knows_pair<D: DistanceAlgorithm<ID>, ID>(
    features: Seq<ID>,
    l: int,
    mid: Seq<Seq<Marked>>,
    i: usize,
    j: usize,
    a: usize,
    b: usize,
)
    requires
        sound_pools::<D, ID>(features, mid),
        i < features.len(),
        j < features.len(),
        a < features.len(),
        i != j,
        l >= 0,
        knows::<D, ID>(features, l, mid[a as int], a, b),
    ensures
        knows::<D, ID>(
            features,
            l,
            introduced::<D, ID>(features, l, mid, i, j)[a as int],
            a,
            b,
        ),
{
    let d = D::distance(features[i as int], features[j as int]);
    assert(sound_entries::<D, ID>(features, a as int, unmarked(mid[a as int])));
    if a == i {
        lemma_knows_stays::<D, ID>(features, l, mid[a as int], a, b, j, d);
    } else if a == j {
        lemma_knows_stays::<D, ID>(features, l, mid[a as int], a, b, i, d);
    }
}

/// What was offered is known.
proof fn lemma_knows_at_once<D: DistanceAlgorithm<ID>, ID>(
    features: Seq<ID>,
    l: int,
    pool: Seq<Marked>,
    a: usize,
    b: usize,
    d: u32,
)
    requires
        by_distance(unmarked(pool)),
        l >= 0,
        d == D::distance(features[a as int], features[b as int]) || d == D::distance(
            features[b as int],
            features[a as int],
        ),
    ensures
        knows::<D, ID>(features, l, inserted(pool, l, b, d), a, b),
{
    if l > 0 || pool.len() > 0 {
        lemma_offer_kept(pool, l, b, d);
        let next = inserted(pool, l, b, d);
        let u = unmarked(next);
        if !lists(u, b) {
            assert forall|k: int| 0 <= k < l implies (#[trigger] next[k]).1 <= d by {
                assert(u[k].1 <= d);
            }
        }
    }
}

/// An offer adds no other point.
proof fn lemma_inserted_lists(pool: Seq<Marked>, l: int, x: usize, d: u32, b: usize)
    requires
        by_distance(unmarked(pool)),
        lists(unmarked(inserted(pool, l, x, d)), b),
        !lists(unmarked(pool), b),
    ensures
        b == x,
{
    let u = unmarked(inserted(pool, l, x, d));
    let next = inserted(pool, l, x, d);
    let r = rank(unmarked(pool), d);
    lemma_rank(unmarked(pool), d);
    let i = choose|i: int| 0 <= i < u.len() && (#[trigger] u[i]).0 == b;
    assert(next[i].0 == b);
    if next != pool {
        if i < r {
            assert(next[i] == pool[i]);
            assert(unmarked(pool)[i].0 == b);
        } else if i > r {
            assert(next[i] == pool[i - 1]);
            assert(unmarked(pool)[i - 1].0 == b);
        }
    } else {
        assert(unmarked(pool)[i].0 == b);
    }
}

/// Which pairs meet: two candidates of one node of which one at least is new.
proof fn lemma_all_pairs_of(hs: Seq<Hood>, k: nat, n: int, a: usize, b: usize)
    requires
        k <= hs.len(),
        forall|x: int|
            0 <= x < hs.len() ==> below((#[trigger] hs[x]).nn_new, n) && below(hs[x].nn_old, n),
    ensures
        all_pairs(hs, k).contains((a, b)) ==> exists|z: int|
            0 <= z < k && (#[trigger] hs[z]).nn_new.contains(a) && (hs[z].nn_new.contains(b)
                || hs[z].nn_old.contains(b)),
        forall|z: int|
            0 <= z < k && (#[trigger] hs[z]).nn_new.contains(a) && a != b && (hs[z].nn_old.contains(
                b,
            ) || (a < b && hs[z].nn_new.contains(b))) ==> all_pairs(hs, k).contains((a, b)),
    decreases k,
{
    if k > 0 {
        lemma_all_pairs_of(hs, (k - 1) as nat, n, a, b);
        let h = hs[k - 1];
        let p = all_pairs(hs, (k - 1) as nat);
        let q = hood_pairs(h, h.nn_new.len());
        let r = all_pairs(hs, k);
        lemma_hood_pairs_of(h, h.nn_new.len(), n, a, b);
        assert(r == p + q);
        if r.contains((a, b)) {
            let i = choose|i: int| 0 <= i < r.len() && r[i] == (a, b);
            if i < p.len() {
                assert(p[i] == (a, b));
                let z = choose|z: int|
                    0 <= z < k - 1 && (#[trigger] hs[z]).nn_new.contains(a) && (
                    hs[z].nn_new.contains(b) || hs[z].nn_old.contains(b));
                assert(0 <= z < k && hs[z].nn_new.contains(a));
            } else {
                assert(q[i - p.len()] == (a, b));
                assert(hs[k - 1].nn_new.contains(a));
            }
        }
        assert forall|z: int|
            0 <= z < k && (#[trigger] hs[z]).nn_new.contains(a) && a != b && (hs[z].nn_old.contains(
                b,
            ) || (a < b && hs[z].nn_new.contains(b))) implies r.contains((a, b)) by {
            if z < k - 1 {
                let i = choose|i: int| 0 <= i < p.len() && p[i] == (a, b);
                assert(r[i] == (a, b));
            } else {
                let i = choose|i: int| 0 <= i < q.len() && q[i] == (a, b);
                assert(r[p.len() + i] == (a, b));
            }
        }
    }
}

proof fn lemma_hood_pairs_of(h: Hood, k: nat, n: int, a: usize, b: usize)
    requires
        k <= h.nn_new.len(),
        below(h.nn_new, n),
        below(h.nn_old, n),
    ensures
        hood_pairs(h, k).contains((a, b)) ==> h.nn_new.contains(a) && (h.nn_new.contains(b)
            || h.nn_old.contains(b)),
        forall|i: int|
            0 <= i < k && (#[trigger] h.nn_new[i]) == a && a != b && (h.nn_old.contains(b) || (a < b
                && h.nn_new.contains(b))) ==> hood_pairs(h, k).contains((a, b)),
    decreases k,
{
    if k > 0 {
        lemma_hood_pairs_of(h, (k - 1) as nat, n, a, b);
        let x = h.nn_new[k - 1];
        let p = hood_pairs(h, (k - 1) as nat);
        let q = new_pairs(x, h.nn_new);
        let o = old_pairs(x, h.nn_old);
        let r = hood_pairs(h, k);
        assert(r == p + q + o);
        lemma_new_pairs_apart(x, h.nn_new, n);
        lemma_old_pairs_apart(x, h.nn_old, n);
        lemma_new_pairs_from(x, h.nn_new);
        lemma_old_pairs_from(x, h.nn_old);
        if r.contains((a, b)) {
            let i = choose|i: int| 0 <= i < r.len() && r[i] == (a, b);
            if i < p.len() {
                assert(p[i] == (a, b));
            } else if i < p.len() + q.len() {
                assert(q[i - p.len()] == (a, b));
                assert(h.nn_new[k - 1] == a);
            } else {
                assert(o[i - p.len() - q.len()] == (a, b));
                assert(h.nn_new[k - 1] == a);
            }
        }
        assert forall|i: int|
            0 <= i < k && (#[trigger] h.nn_new[i]) == a && a != b && (h.nn_old.contains(b) || (a < b
                && h.nn_new.contains(b))) implies r.contains((a, b)) by {
            if i < k - 1 {
                let t = choose|t: int| 0 <= t < p.len() && p[t] == (a, b);
                assert(r[t] == (a, b));
            } else if a < b && h.nn_new.contains(b) {
                let j = choose|j: int| 0 <= j < h.nn_new.len() && h.nn_new[j] == b;
                assert(q.contains((x, h.nn_new[j])));
                let t = choose|t: int| 0 <= t < q.len() && q[t] == (a, b);
                assert(r[p.len() + t] == (a, b));
            } else {
                let j = choose|j: int| 0 <= j < h.nn_old.len() && h.nn_old[j] == b;
                assert(o.contains((x, h.nn_old[j])));
                let t = choose|t: int| 0 <= t < o.len() && o[t] == (a, b);
                assert(r[p.len() + q.len() + t] == (a, b));
            }
        }
    }
}

proof fn lemma_new_pairs_from(x: usize, new: Seq<usize>)
    ensures
        forall|i: int|
            0 <= i < new_pairs(x, new).len() ==> new.contains((#[trigger] new_pairs(x, new)[i]).1),
    decreases new.len(),
{
    if new.len() > 0 {
        let shorter = new.drop_last();
        lemma_new_pairs_from(x, shorter);
        let a = new_pairs(x, shorter);
        let r = new_pairs(x, new);
        assert forall|i: int| 0 <= i < r.len() implies new.contains((#[trigger] r[i]).1) by {
            if i < a.len() {
                assert(r[i] == a[i]);
                let t = choose|t: int| 0 <= t < shorter.len() && shorter[t] == a[i].1;
                assert(new[t] == r[i].1);
            } else {
                assert(new[new.len() - 1] == r[i].1);
            }
        }
    }
}

proof fn lemma_old_pairs_from(x: usize, old_list: Seq<usize>)
    ensures
        forall|i: int|
            0 <= i < old_pairs(x, old_list).len() ==> old_list.contains(
                (#[trigger] old_pairs(x, old_list)[i]).1,
            ),
    decreases old_list.len(),
{
    if old_list.len() > 0 {
        let shorter = old_list.drop_last();
        lemma_old_pairs_from(x, shorter);
        let a = old_pairs(x, shorter);
        let r = old_pairs(x, old_list);
        assert forall|i: int| 0 <= i < r.len() implies old_list.contains((#[trigger] r[i]).1) by {
            if i < a.len() {
                assert(r[i] == a[i]);
                let t = choose|t: int| 0 <= t < shorter.len() && shorter[t] == a[i].1;
                assert(old_list[t] == r[i].1);
            } else {
                assert(old_list[old_list.len() - 1] == r[i].1);
            }
        }
    }
}

/// What a join is for: any two candidates of a node `z`, of which one at least is
/// new, learn of each other. Each is then in the pool of the other, or that pool
/// holds `l` points that are no farther.
pub proof fn lemma_join_introduces<D: DistanceAlgorithm<ID>, ID>(
    features: Seq<ID>,
    l: int,
    hs: Seq<Hood>,
    z: int,
    a: usize,
    b: usize,
)
    requires
        sound_hoods::<D, ID>(features, hs),
        l >= 0,
        0 <= z < hs.len(),
        hs[z].nn_new.contains(a),
        hs[z].nn_new.contains(b) || hs[z].nn_old.contains(b),
        a != b,
    ensures
        ({
            let pa = joined::<D, ID>(features, l, hs)[a as int].pool;
            let pb = joined::<D, ID>(features, l, hs)[b as int].pool;
            &&& (exists|i: int| 0 <= i < pa.len() && (#[trigger] pa[i]).0 == b) || (pa.len() >= l
                && forall|k: int|
                0 <= k < l ==> (#[trigger] pa[k]).1 <= D::distance(
                    features[a as int],
                    features[b as int],
                ) || pa[k].1 <= D::distance(features[b as int], features[a as int]))
            &&& (exists|i: int| 0 <= i < pb.len() && (#[trigger] pb[i]).0 == a) || (pb.len() >= l
                && forall|k: int|
                0 <= k < l ==> (#[trigger] pb[k]).1 <= D::distance(
                    features[a as int],
                    features[b as int],
                ) || pb[k].1 <= D::distance(features[b as int], features[a as int]))
        }),
{
    let n = features.len() as int;
    let pairs = all_pairs(hs, hs.len());
    lemma_join_ready::<D, ID>(features, hs);
    lemma_pairs_apart(hs, hs.len(), n);
    assert(sound_hood::<D, ID>(features, z, hs[z]));
    assert(a < n && b < n) by {
        let i = choose|i: int| 0 <= i < hs[z].nn_new.len() && hs[z].nn_new[i] == a;
        if hs[z].nn_new.contains(b) {
            let j = choose|j: int| 0 <= j < hs[z].nn_new.len() && hs[z].nn_new[j] == b;
        } else {
            let j = choose|j: int| 0 <= j < hs[z].nn_old.len() && hs[z].nn_old[j] == b;
        }
    }
    lemma_all_pairs_of(hs, hs.len(), n, a, b);
    lemma_all_pairs_of(hs, hs.len(), n, b, a);
    lemma_knows_met::<D, ID>(features, l, pools(hs), pairs, a, b);
    lemma_knows_met::<D, ID>(features, l, pools(hs), pairs, b, a);
    assert(pairs.contains((a, b)) || pairs.contains((b, a)));
    let after = met::<D, ID>(features, l, pools(hs), pairs);
    let pa = joined::<D, ID>(features, l, hs)[a as int].pool;
    let pb = joined::<D, ID>(features, l, hs)[b as int].pool;
    assert(pa == after[a as int] && pb == after[b as int]);
    assert(knows::<D, ID>(features, l, pa, a, b));
    assert(knows::<D, ID>(features, l, pb, b, a));
    if lists(unmarked(pa), b) {
        let i = choose|i: int| 0 <= i < pa.len() && (#[trigger] unmarked(pa)[i]).0 == b;
        assert(pa[i].0 == b);
    }
    if lists(unmarked(pb), a) {
        let i = choose|i: int| 0 <= i < pb.len() && (#[trigger] unmarked(pb)[i]).0 == a;
        assert(pb[i].0 == a);
    }
}

/// What an offer leaves in a pool was there before, or is the offer with its mark.
proof fn lemma_inserted_from(pool: Seq<Marked>, l: int, x: usize, d: u32)
    requires
        by_distance(unmarked(pool)),
    ensures
        forall|i: int|
            0 <= i < inserted(pool, l, x, d).len() ==> pool.contains(
                #[trigger] inserted(pool, l, x, d)[i],
            ) || inserted(pool, l, x, d)[i] == (x, d, true),
{
    let next = inserted(pool, l, x, d);
    let r = rank(unmarked(pool), d);
    lemma_rank(unmarked(pool), d);
    assert forall|i: int| 0 <= i < next.len() implies pool.contains(#[trigger] next[i]) || next[i]
        == (x, d, true) by {
        if next == pool {
            assert(pool[i] == next[i]);
        } else if i < r {
            assert(pool[i] == next[i]);
        } else if i > r {
            assert(pool[i - 1] == next[i]);
        }
    }
}

proof fn lemma_met_from<D: DistanceAlgorithm<ID>, ID>(
    features: Seq<ID>,
    l: int,
    ps: Seq<Seq<Marked>>,
    pairs: Seq<(usize, usize)>,
    a: int,
)
    requires
        sound_pools::<D, ID>(features, ps),
        l >= 0,
        features.len() <= usize::MAX,
        forall|k: int|
            0 <= k < pairs.len() ==> (#[trigger] pairs[k]).0 < features.len() && pairs[k].1
                < features.len() && pairs[k].0 != pairs[k].1,
        0 <= a < features.len(),
    ensures
        ({
            let after = met::<D, ID>(features, l, ps, pairs);
            forall|i: int|
                0 <= i < after[a].len() ==> ps[a].contains(#[trigger] after[a][i])
                    || after[a][i].2
        }),
    decreases pairs.len(),
{
    let after = met::<D, ID>(features, l, ps, pairs);
    if pairs.len() > 0 {
        let shorter = pairs.drop_last();
        assert forall|k: int| 0 <= k < shorter.len() implies (#[trigger] shorter[k]).0
            < features.len() && shorter[k].1 < features.len() && shorter[k].0 != shorter[k].1 by {
            assert(shorter[k] == pairs[k]);
        }
        lemma_met_from::<D, ID>(features, l, ps, shorter, a);
        lemma_knows_met::<D, ID>(features, l, ps, shorter, a as usize, a as usize);
        let mid = met::<D, ID>(features, l, ps, shorter);
        let (i, j) = pairs[pairs.len() - 1];
        let d = D::distance(features[i as int], features[j as int]);
        assert(sound_entries::<D, ID>(features, a, unmarked(mid[a])));
        lemma_inserted_from(mid[a], l, i, d);
        lemma_inserted_from(mid[a], l, j, d);
        assert forall|k: int| 0 <= k < after[a].len() implies ps[a].contains(
            #[trigger] after[a][k],
        ) || after[a][k].2 by {
            if mid[a].contains(after[a][k]) {
                let q = choose|q: int| 0 <= q < mid[a].len() && mid[a][q] == after[a][k];
                assert(ps[a].contains(mid[a][q]) || mid[a][q].2);
            }
        }
    } else {
        assert forall|k: int| 0 <= k < after[a].len() implies ps[a].contains(
            #[trigger] after[a][k],
        ) by {}
    }
}

/// What is new in a pool is marked, so that it is compared in a round to come; what is
/// not new keeps its distance and its mark.
pub proof fn lemma_join_marks<D: DistanceAlgorithm<ID>, ID>(
    features: Seq<ID>,
    l: int,
    hs: Seq<Hood>,
    a: int,
    i: int,
)
    requires
        sound_hoods::<D, ID>(features, hs),
        features.len() <= usize::MAX,
        l >= 0,
        0 <= a < features.len(),
        0 <= i < joined::<D, ID>(features, l, hs)[a].pool.len(),
    ensures
        hs[a].pool.contains(joined::<D, ID>(features, l, hs)[a].pool[i])
            || joined::<D, ID>(features, l, hs)[a].pool[i].2,
{
    let n = features.len() as int;
    lemma_join_ready::<D, ID>(features, hs);
    lemma_pairs_apart(hs, hs.len(), n);
    lemma_met_from::<D, ID>(features, l, pools(hs), all_pairs(hs, hs.len()), a);
    assert(pools(hs)[a] == hs[a].pool);
}

/// A join makes no other acquaintances: a point that is new in a pool is, with the
/// point that the pool is of, a candidate of one node, and one of the two is new
/// there.
pub proof fn lemma_join_introduces_only<D: DistanceAlgorithm<ID>, ID>(
    features: Seq<ID>,
    l: int,
    hs: Seq<Hood>,
    a: usize,
    b: usize,
)
    requires
        sound_hoods::<D, ID>(features, hs),
        l >= 0,
        a < features.len(),
        b < features.len(),
        lists(unmarked(joined::<D, ID>(features, l, hs)[a as int].pool), b),
        !lists(unmarked(hs[a as int].pool), b),
    ensures
        exists|z: int|
            0 <= z < hs.len() && {
                ||| (#[trigger] hs[z]).nn_new.contains(a) && (hs[z].nn_new.contains(b)
                    || hs[z].nn_old.contains(b))
                ||| hs[z].nn_new.contains(b) && hs[z].nn_old.contains(a)
            },
{
    let n = features.len() as int;
    lemma_join_ready::<D, ID>(features, hs);
    lemma_pairs_apart(hs, hs.len(), n);
    lemma_knows_met::<D, ID>(features, l, pools(hs), all_pairs(hs, hs.len()), a, b);
    lemma_all_pairs_of(hs, hs.len(), n, a, b);
    lemma_all_pairs_of(hs, hs.len(), n, b, a);
    if !all_pairs(hs, hs.len()).contains((a, b)) {
        let z = choose|z: int|
            0 <= z < hs.len() && (#[trigger] hs[z]).nn_new.contains(b) && (hs[z].nn_new.contains(a)
                || hs[z].nn_old.contains(a));
        assert(0 <= z < hs.len() && hs[z].nn_new.contains(b));
    }
}

proof fn lemma_join_ready<D: DistanceAlgorithm<ID>, ID>(features: Seq<ID>, hs: Seq<Hood>)
    requires
        sound_hoods::<D, ID>(features, hs),
    ensures
        sound_pools::<D, ID>(features, pools(hs)),
        forall|x: int|
            0 <= x < hs.len() ==> below((#[trigger] hs[x]).nn_new, features.len() as int) && below(
                hs[x].nn_old,
                features.len() as int,
            ),
{
    assert forall|x: int| 0 <= x < hs.len() implies below(
        (#[trigger] hs[x]).nn_new,
        features.len() as int,
    ) && below(hs[x].nn_old, features.len() as int) by {
        assert(sound_hood::<D, ID>(features, x, hs[x]));
    }
    assert forall|x: int| 0 <= x < hs.len() implies sound_entries::<D, ID>(
        features,
        x,
        unmarked(#[trigger] pools(hs)[x]),
    ) by {
        assert(sound_hood::<D, ID>(features, x, hs[x]));
    }
}

// ---------------------------------------------------------------------------
// Rounds
// ---------------------------------------------------------------------------

/// Every one of the rounds introduces: what two candidates of a node are before a
/// round, one of them new, they know of each other after it.
pub proof fn lemma_round_introduces<D: DistanceAlgorithm<ID>, ID>(
    features: Seq<ID>,
    params: NndParams,
    iter: int,
    trace: Seq<Seq<Hood>>,
    t: int,
    z: int,
    a: usize,
    b: usize,
)
    requires
        features.len() <= usize::MAX,
        descent::<D, ID>(features, params, iter, trace),
        sound_hoods::<D, ID>(features, trace[0]),
        0 <= t < iter,
        0 <= z < features.len(),
        a != b,
        trace[t][z].nn_new.contains(a),
        trace[t][z].nn_new.contains(b) || trace[t][z].nn_old.contains(b),
    ensures
        ({
            let l = params.l as int;
            let pa = trace[t + 1][a as int].pool;
            let pb = trace[t + 1][b as int].pool;
            &&& (exists|i: int| 0 <= i < pa.len() && (#[trigger] pa[i]).0 == b) || (pa.len() >= l
                && forall|k: int|
                0 <= k < l ==> (#[trigger] pa[k]).1 <= D::distance(
                    features[a as int],
                    features[b as int],
                ) || pa[k].1 <= D::distance(features[b as int], features[a as int]))
            &&& (exists|i: int| 0 <= i < pb.len() && (#[trigger] pb[i]).0 == a) || (pb.len() >= l
                && forall|k: int|
                0 <= k < l ==> (#[trigger] pb[k]).1 <= D::distance(
                    features[a as int],
                    features[b as int],
                ) || pb[k].1 <= D::distance(features[b as int], features[a as int]))
        }),
{
    let l = params.l as int;
    let j = joined::<D, ID>(features, l, trace[t]);
    lemma_descent_no_worse::<D, ID>(features, params, iter, trace, t);
    lemma_joined_sound::<D, ID>(features, l, trace[t]);
    lemma_join_introduces::<D, ID>(features, l, trace[t], z, a, b);
    assert(round::<D, ID>(features, params, trace[t], trace[t + 1]));
    assert(sound_hood::<D, ID>(features, z, trace[t][z]));
    assert(a < features.len() && b < features.len()) by {
        let h = trace[t][z];
        let i = choose|i: int| 0 <= i < h.nn_new.len() && h.nn_new[i] == a;
        if h.nn_new.contains(b) {
            let k = choose|k: int| 0 <= k < h.nn_new.len() && h.nn_new[k] == b;
        } else {
            let k = choose|k: int| 0 <= k < h.nn_old.len() && h.nn_old[k] == b;
        }
    }
    lemma_renewal_knows::<D, ID>(features, params, j, trace[t + 1], a, b);
    lemma_renewal_knows::<D, ID>(features, params, j, trace[t + 1], b, a);
}

/// A renewal leaves known what is known.
proof fn lemma_renewal_knows<D: DistanceAlgorithm<ID>, ID>(
    features: Seq<ID>,
    params: NndParams,
    before: Seq<Hood>,
    after: Seq<Hood>,
    a: usize,
    b: usize,
)
    requires
        features.len() <= usize::MAX,
        sound_hoods::<D, ID>(features, before),
        renewal(before, params, after),
        a < features.len(),
        b < features.len(),
        ({
            let p = before[a as int].pool;
            (exists|i: int| 0 <= i < p.len() && (#[trigger] p[i]).0 == b) || (p.len() >= params.l
                && forall|k: int|
                0 <= k < params.l ==> (#[trigger] p[k]).1 <= D::distance(
                    features[a as int],
                    features[b as int],
                ) || p[k].1 <= D::distance(features[b as int], features[a as int]))
        }),
    ensures
        ({
            let q = after[a as int].pool;
            (exists|i: int| 0 <= i < q.len() && (#[trigger] q[i]).0 == b) || (q.len() >= params.l
                && forall|k: int|
                0 <= k < params.l ==> (#[trigger] q[k]).1 <= D::distance(
                    features[a as int],
                    features[b as int],
                ) || q[k].1 <= D::distance(features[b as int], features[a as int]))
        }),
{
    let p = before[a as int].pool;
    let q = after[a as int].pool;
    assert forall|y: int, i: int|
        0 <= y < before.len() && 0 <= i < before[y].pool.len() implies (
    #[trigger] before[y].pool[i]).0 < before.len() by {
        assert(sound_hood::<D, ID>(features, y, before[y]));
        assert(between::<D, ID>(features, y, unmarked(before[y].pool)[i]));
    }
    assert forall|y: int| 0 <= y < before.len() implies 0 <= (#[trigger] before[y]).m by {
        assert(sound_hood::<D, ID>(features, y, before[y]));
    }
    lemma_renewal_looks(before, params, after, a as int);
    assert(sound_hood::<D, ID>(features, a as int, before[a as int]));
    let u = unmarked(p);
    if exists|i: int| 0 <= i < p.len() && (#[trigger] p[i]).0 == b {
        let i = choose|i: int| 0 <= i < p.len() && (#[trigger] p[i]).0 == b;
        if i < q.len() {
            assert(q[i].0 == b);
        } else {
            assert(between::<D, ID>(features, a as int, u[i]));
            assert forall|k: int| 0 <= k < params.l implies (#[trigger] q[k]).1 <= D::distance(
                features[a as int],
                features[b as int],
            ) || q[k].1 <= D::distance(features[b as int], features[a as int]) by {
                assert(u[k].1 <= u[i].1);
            }
        }
    } else {
        assert forall|k: int| 0 <= k < params.l implies (#[trigger] q[k]).1 <= D::distance(
            features[a as int],
            features[b as int],
        ) || q[k].1 <= D::distance(features[b as int], features[a as int]) by {
            assert(q[k].1 == p[k].1);
        }
    }
}

/// The neighbours that a graph is built from are those of a descent of as many
/// rounds as configured, from the start that is configured, `k` to a node.
pub proof fn lemma_lists_of_descent<D: DistanceAlgorithm<ID>, ID>(
    features: Seq<ID>,
    cfg: BuildConfig,
    g: Seq<Seq<Entry>>,
    x: int,
) -> (trace: Seq<Seq<Hood>>)
    requires
        features.len() <= usize::MAX,
        knn_lists::<D, ID>(features, cfg, g),
        0 <= x < features.len(),
    ensures
        trace.len() == cfg.iter + 1,
        descent::<D, ID>(features, cfg.nnd, cfg.iter as int, trace),
        sound_hoods::<D, ID>(features, trace[0]),
        sound_hoods::<D, ID>(features, trace.last()),
        cfg.init == NndInit::Random ==> random_start::<D, ID>(
            features,
            cfg.nnd.s as int,
            trace[0],
        ),
        cfg.init == NndInit::MetricTree ==> tree_start::<D, ID>(
            features,
            cfg.nnd,
            if cfg.n_trees >= 1 {
                cfg.n_trees as int
            } else {
                1
            },
            if cfg.leaf_size >= 2 {
                cfg.leaf_size as int
            } else {
                2
            },
            trace[0],
        ),
        g == nearest(trace.last(), cfg.nnd.k as int),
        g.len() == features.len(),
        g[x].len() <= cfg.nnd.k,
        g[x].len() == cfg.nnd.k || g[x].len() == trace.last()[x].pool.len(),
        forall|p: int|
            0 <= p < trace.last()[x].pool.len() ==> {
                let e = #[trigger] trace.last()[x].pool[p];
                ||| g[x].contains((e.0, e.1))
                ||| g[x].len() == cfg.nnd.k && forall|j: int|
                    0 <= j < g[x].len() ==> (#[trigger] g[x][j]).1 <= e.1
            },
{
    let trace = choose|trace: Seq<Seq<Hood>>|
        {
            &&& #[trigger] descent::<D, ID>(features, cfg.nnd, cfg.iter as int, trace)
            &&& match cfg.init {
                NndInit::Random => random_start::<D, ID>(features, cfg.nnd.s as int, trace[0]),
                NndInit::MetricTree => tree_start::<D, ID>(
                    features,
                    cfg.nnd,
                    greater(cfg.n_trees as int, 1),
                    greater(cfg.leaf_size as int, 2),
                    trace[0],
                ),
            }
            &&& sound_hoods::<D, ID>(features, trace[0])
            &&& g == nearest(trace.last(), cfg.nnd.k as int)
        };
    lemma_descent_no_worse::<D, ID>(features, cfg.nnd, cfg.iter as int, trace, cfg.iter as int);
    lemma_results_are_nearest::<D, ID>(features, trace.last(), cfg.nnd.k as int, g, x);
    trace
}

/// With leaves that hold all features and pools that have room for them, the
/// graph is built from the nearest neighbours of every feature.
pub proof fn lemma_roomy_lists_are_exact<D: DistanceAlgorithm<ID>, ID>(
    features: Seq<ID>,
    cfg: BuildConfig,
    g: Seq<Seq<Entry>>,
    x: int,
)
    requires
        0 <= x < features.len() <= usize::MAX,
        knn_lists::<D, ID>(features, cfg, g),
        cfg.init == NndInit::MetricTree,
        cfg.leaf_size >= features.len(),
        cfg.nnd.l >= features.len() - 1,
    ensures
        g[x].len() == if cfg.nnd.k < features.len() {
            cfg.nnd.k as int
        } else {
            features.len() - 1
        },
        forall|i: int, j: int|
            0 <= i < j < g[x].len() ==> (#[trigger] g[x][i]).1 <= (#[trigger] g[x][j]).1,
        forall|y: usize|
            y < features.len() && y != x ==> {
                let d = #[trigger] D::distance(features[x], features[y as int]);
                ||| g[x].contains((y, d))
                ||| g[x].len() == cfg.nnd.k && forall|j: int|
                    0 <= j < g[x].len() ==> (#[trigger] g[x][j]).1 <= d
            },
{
    let trace = lemma_lists_of_descent::<D, ID>(features, cfg, g, x);
    lemma_roomy_descent_is_exact::<D, ID>(
        features,
        cfg.nnd,
        greater(cfg.n_trees as int, 1),
        greater(cfg.leaf_size as int, 2),
        cfg.iter as int,
        trace,
        g,
        x,
    );
}

} // verus!
